//! What every store keeps, and what one write undoes of another.

use vstd::prelude::*;

use crate::error::Fault;
use crate::mrt::contents::{begins, lemma_begins, lemma_prefix_free};
use crate::mrt::keys::{contents, keys_clash, law_root_is_determined_by_contents, lemma_clash, lemma_key_len,
    move_allowed, moved, sound};
use crate::mrt::model::Trie;
use crate::mrt::route::{route, MAX_KEY_LEN};
use crate::mrt::store::{apply_change, law_change_acts_on_contents};
use crate::ops::Change;

verus! {

/// No stored key begins with another, and none is too long.
pub proof fn law_keys_are_apart(root: Option<Trie>, a: Seq<u8>, b: Seq<u8>)
    requires
        sound(root),
        contents(root).dom().contains(a),
        contents(root).dom().contains(b),
    ensures
        !keys_clash(a, b),
        a.len() <= MAX_KEY_LEN,
{
    lemma_key_len(root, a);
    lemma_clash(a, b);
    lemma_begins(route(a), route(b));
    lemma_begins(route(b), route(a));
    if keys_clash(a, b) {
        if begins(route(b), route(a)) {
            lemma_prefix_free(root->0, route(a), route(b));
        } else {
            lemma_prefix_free(root->0, route(b), route(a));
        }
    }
}

/// Removing a key that was not stored before undoes storing it: the trie, and
/// so the root hash, is the one from before.
pub proof fn law_delete_undoes_put(root: Option<Trie>, key: Seq<u8>, value: Seq<u8>)
    requires
        sound(root),
        !contents(root).dom().contains(key),
        apply_change(root, Change::Put { key, value }, false) is Ok,
    ensures
        apply_change(
            apply_change(root, Change::Put { key, value }, false)->Ok_0,
            Change::Delete { key },
            false,
        ) == Ok::<Option<Trie>, Fault>(root),
{
    let put = Change::Put { key, value };
    let delete = Change::Delete { key };
    law_change_acts_on_contents(root, put, false);
    let mid = apply_change(root, put, false)->Ok_0;
    law_change_acts_on_contents(mid, delete, false);
    let m = contents(root);
    assert(m.insert(key, value).remove(key) =~= m);
    law_root_is_determined_by_contents(apply_change(mid, delete, false)->Ok_0, root);
}

/// Storing a value again under the key that had it undoes storing another one
/// there, and undoes removing it.
pub proof fn law_put_restores(root: Option<Trie>, key: Seq<u8>, c: Change)
    requires
        sound(root),
        contents(root).dom().contains(key),
        c == (Change::Delete { key }) || (c matches Change::Put { key: k, value } && k == key),
    ensures
        apply_change(root, c, false) is Ok,
        apply_change(
            apply_change(root, c, false)->Ok_0,
            Change::Put { key, value: contents(root)[key] },
            false,
        ) == Ok::<Option<Trie>, Fault>(root),
{
    let m = contents(root);
    let back = Change::Put { key, value: m[key] };
    lemma_key_len(root, key);
    assert forall|k: Seq<u8>| #[trigger] m.dom().contains(k) implies !keys_clash(k, key) by {
        law_keys_are_apart(root, k, key);
    }
    law_change_acts_on_contents(root, c, false);
    let mid = apply_change(root, c, false)->Ok_0;
    law_change_acts_on_contents(mid, back, false);
    assert(contents(mid).insert(key, m[key]) =~= m);
    law_root_is_determined_by_contents(apply_change(mid, back, false)->Ok_0, root);
}

/// Moving all keys with one prefix under another, and back, leaves the trie as
/// it was, unless keys that do not move were under the other prefix: these are
/// lost.
#[verifier::spinoff_prover]
#[verifier::rlimit(40)]
pub proof fn law_move_back(root: Option<Trie>, from: Seq<u8>, to: Seq<u8>)
    requires
        sound(root),
        apply_change(root, Change::MovePrefix { from, to }, false) is Ok,
        forall|k: Seq<u8>| #[trigger] contents(root).dom().contains(k) && to.is_prefix_of(k) ==> from.is_prefix_of(k),
    ensures
        apply_change(
            apply_change(root, Change::MovePrefix { from, to }, false)->Ok_0,
            Change::MovePrefix { from: to, to: from },
            false,
        ) == Ok::<Option<Trie>, Fault>(root),
{
    let go = Change::MovePrefix { from, to };
    let back = Change::MovePrefix { from: to, to: from };
    law_change_acts_on_contents(root, go, false);
    let m = contents(root);
    let mid = apply_change(root, go, false)->Ok_0;
    let n = contents(mid);
    assert(n == moved(m, from, to));
    law_change_acts_on_contents(mid, back, false);
    assert(moved(n, to, from) =~= m) by {
        assert forall|k: Seq<u8>| moved(n, to, from).dom().contains(k) <==> #[trigger] m.dom().contains(k) by {
            lemma_there_and_back(from, to, k);
        }
        assert forall|k: Seq<u8>| #[trigger] m.dom().contains(k) implies moved(n, to, from)[k] == m[k] by {
            lemma_there_and_back(from, to, k);
        }
    }
    assert(move_allowed(n, to, from)) by {
        let k = choose|k: Seq<u8>| #[trigger] m.dom().contains(k) && from.is_prefix_of(k);
        lemma_there_and_back(from, to, k);
        assert(n.dom().contains(to + k.skip(from.len() as int)));
        assert forall|l: Seq<u8>| #[trigger] n.dom().contains(l) && to.is_prefix_of(l) implies from.len() + l.len() - to.len()
            <= MAX_KEY_LEN by {
            lemma_key_len(root, from + l.skip(to.len() as int));
        }
        assert forall|l: Seq<u8>| #[trigger]
            n.dom().contains(l) && !to.is_prefix_of(l) && l.is_prefix_of(from) implies l == from by {
            assert(m.dom().contains(l));
            law_keys_are_apart(root, l, k);
            assert(l.is_prefix_of(k));
        }
    }
    law_root_is_determined_by_contents(apply_change(mid, back, false)->Ok_0, root);
}

/// A key that goes from one prefix under another and back.
proof fn lemma_there_and_back(from: Seq<u8>, to: Seq<u8>, k: Seq<u8>)
    ensures
        from.is_prefix_of(k) ==> {
            let l = to + k.skip(from.len() as int);
            to.is_prefix_of(l) && from + l.skip(to.len() as int) == k
        },
{
    if from.is_prefix_of(k) {
        let l = to + k.skip(from.len() as int);
        assert(l.subrange(0, to.len() as int) =~= to);
        assert(l.skip(to.len() as int) =~= k.skip(from.len() as int));
        assert(from + k.skip(from.len() as int) =~= k);
    }
}

} // verus!
