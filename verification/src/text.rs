//! The texts of errors, and of what is printed for debugging.

use vstd::prelude::*;

verus! {

/// The digit for a number below ten.
pub open spec fn digit(d: nat) -> char {
    if d == 0 {
        '0'
    } else if d == 1 {
        '1'
    } else if d == 2 {
        '2'
    } else if d == 3 {
        '3'
    } else if d == 4 {
        '4'
    } else if d == 5 {
        '5'
    } else if d == 6 {
        '6'
    } else if d == 7 {
        '7'
    } else if d == 8 {
        '8'
    } else {
        '9'
    }
}

/// A number in decimal.
pub open spec fn decimal(n: nat) -> Seq<char>
    decreases n,
{
    if n < 10 {
        seq![digit(n)]
    } else {
        decimal(n / 10).push(digit(n % 10))
    }
}

/// Bytes in decimal, with a comma and a space between two.
pub open spec fn listed(bytes: Seq<u8>) -> Seq<char>
    decreases bytes.len(),
{
    if bytes.len() == 0 {
        Seq::empty()
    } else if bytes.len() == 1 {
        decimal(bytes[0] as nat)
    } else {
        listed(bytes.drop_last()) + seq![',', ' '] + decimal(bytes.last() as nat)
    }
}

/// Bytes in decimal, with a comma and a space between two, in square brackets.
pub open spec fn shown(bytes: Seq<u8>) -> Seq<char> {
    seq!['['] + listed(bytes) + seq![']']
}

/// The number that a digit stands for.
pub open spec fn digit_value(c: char) -> int {
    c as int - '0' as int
}

/// The number that digits stand for, the last one for the units.
pub open spec fn number_of(text: Seq<char>) -> int
    decreases text.len(),
{
    if text.len() == 0 {
        0
    } else {
        10 * number_of(text.drop_last()) + digit_value(text.last())
    }
}

/// A number in decimal is made of digits, stands for the number, and does not begin
/// with a zero but for the number zero itself.
pub proof fn law_decimal_stands_for_number(n: nat)
    ensures
        number_of(decimal(n)) == n,
        decimal(n).len() > 0,
        forall|i: int| 0 <= i < decimal(n).len() ==> 0 <= digit_value(#[trigger] decimal(n)[i]) < 10,
        n > 0 ==> decimal(n)[0] != '0',
        n == 0 ==> decimal(n) == seq!['0'],
    decreases n,
{
    let d = decimal(n);
    if n < 10 {
        reveal_with_fuel(number_of, 2);
        assert(d =~= seq![digit(n)]);
    } else {
        law_decimal_stands_for_number(n / 10);
        assert(d.drop_last() =~= decimal(n / 10));
        assert forall|i: int| 0 <= i < d.len() implies 0 <= digit_value(#[trigger] d[i]) < 10 by {
            if i < d.len() - 1 {
                assert(d[i] == decimal(n / 10)[i]);
            }
        }
    }
}

/// Bytes are listed one after the other, with a comma and a space between.
pub proof fn law_bytes_are_listed_in_turn(a: Seq<u8>, b: Seq<u8>)
    ensures
        a.len() > 0 && b.len() > 0 ==> listed(a + b) == listed(a) + seq![',', ' '] + listed(b),
        a.len() == 1 ==> listed(a) == decimal(a[0] as nat),
        a.len() == 0 ==> listed(a) == Seq::<char>::empty(),
        shown(a).len() == listed(a).len() + 2,
        shown(a)[0] == '[',
        shown(a).last() == ']',
        shown(a).subrange(1, shown(a).len() - 1) == listed(a),
    decreases b.len(),
{
    assert(shown(a).subrange(1, shown(a).len() - 1) =~= listed(a));
    if a.len() > 0 && b.len() > 0 {
        assert((a + b).drop_last() =~= a + b.drop_last());
        assert((a + b).last() == b.last());
        if b.len() == 1 {
            assert(a + b.drop_last() =~= a);
        } else {
            law_bytes_are_listed_in_turn(a, b.drop_last());
        }
        assert(listed(a + b) =~= listed(a) + seq![',', ' '] + listed(b));
    }
}

/// The digit for a number below ten.
fn digit_text(d: u64) -> (r: &'static str)
    requires
        d < 10,
    ensures
        r@ == seq![digit(d as nat)],
{
    proof {
        reveal_strlit("0");
        reveal_strlit("1");
        reveal_strlit("2");
        reveal_strlit("3");
        reveal_strlit("4");
        reveal_strlit("5");
        reveal_strlit("6");
        reveal_strlit("7");
        reveal_strlit("8");
        reveal_strlit("9");
    }
    let r: &'static str = if d == 0 {
        "0"
    } else if d == 1 {
        "1"
    } else if d == 2 {
        "2"
    } else if d == 3 {
        "3"
    } else if d == 4 {
        "4"
    } else if d == 5 {
        "5"
    } else if d == 6 {
        "6"
    } else if d == 7 {
        "7"
    } else if d == 8 {
        "8"
    } else {
        "9"
    };
    assert(r@ =~= seq![digit(d as nat)]);
    r
}

/// Writes a number in decimal behind a text.
pub fn push_number(out: &mut String, n: u64)
    ensures
        final(out)@ == old(out)@ + decimal(n as nat),
    decreases n,
{
    if n >= 10 {
        push_number(out, n / 10);
    }
    out.append(digit_text(n % 10));
    assert(out@ =~= old(out)@ + decimal(n as nat));
}

/// Writes bytes behind a text.
pub fn push_bytes(out: &mut String, bytes: &[u8])
    ensures
        final(out)@ == old(out)@ + shown(bytes@),
{
    proof {
        reveal_strlit("[");
        reveal_strlit("]");
        reveal_strlit(", ");
    }
    let ghost start = out@;
    out.append("[");
    let mut i: usize = 0;
    assert(bytes@.take(0) =~= Seq::empty());
    assert(out@ =~= start + seq!['['] + listed(bytes@.take(0)));
    while i < bytes.len()
        invariant
            i <= bytes@.len(),
            out@ == start + seq!['['] + listed(bytes@.take(i as int)),
            ", "@ == seq![',', ' '],
        decreases bytes@.len() - i,
    {
        if i > 0 {
            out.append(", ");
        }
        push_number(out, bytes[i] as u64);
        proof {
            assert(bytes@.take(i + 1).drop_last() =~= bytes@.take(i as int));
            assert(bytes@.take(i + 1).last() == bytes@[i as int]);
            assert(out@ =~= start + seq!['['] + listed(bytes@.take(i + 1)));
        }
        i = i + 1;
    }
    out.append("]");
    assert(bytes@.take(bytes@.len() as int) =~= bytes@);
    assert(out@ =~= start + shown(bytes@));
}

/// A text of its own.
pub fn told(text: &str) -> (r: String)
    ensures
        r@ == text@,
{
    text.to_owned()
}

/// A text in which bytes stand.
pub fn told_bytes(before: &str, bytes: &[u8], after: &str) -> (r: String)
    ensures
        r@ == before@ + shown(bytes@) + after@,
{
    let mut out = told(before);
    push_bytes(&mut out, bytes);
    out.append(after);
    out
}

/// A text that ends with bytes.
pub fn told_with(before: &str, bytes: &[u8]) -> (r: String)
    ensures
        r@ == before@ + shown(bytes@),
{
    let mut out = told(before);
    push_bytes(&mut out, bytes);
    out
}

/// A text that ends with a number.
pub fn told_count(before: &str, n: u64) -> (r: String)
    ensures
        r@ == before@ + decimal(n as nat),
{
    let mut out = told(before);
    push_number(&mut out, n);
    out
}

/// A text in which two byte strings stand.
pub fn told_two(before: &str, a: &[u8], between: &str, b: &[u8]) -> (r: String)
    ensures
        r@ == before@ + shown(a@) + between@ + shown(b@),
{
    let mut out = told_bytes(before, a, between);
    push_bytes(&mut out, b);
    out
}

/// A text in which a number stands.
pub fn told_number(before: &str, n: u64, after: &str) -> (r: String)
    ensures
        r@ == before@ + decimal(n as nat) + after@,
{
    let mut out = told(before);
    push_number(&mut out, n);
    out.append(after);
    out
}

/// A text in which two numbers stand.
pub fn told_numbers(before: &str, n: u64, between: &str, m: u64) -> (r: String)
    ensures
        r@ == before@ + decimal(n as nat) + between@ + decimal(m as nat),
{
    let mut out = told_number(before, n, between);
    push_number(&mut out, m);
    out
}

/// A text, and another one behind it.
pub fn told_after(before: &str, text: &str) -> (r: String)
    ensures
        r@ == before@ + text@,
{
    let mut out = told(before);
    out.append(text);
    out
}

/// `std::fmt::Formatter`, which takes text that is printed.
#[verifier::external_type_specification]
#[verifier::external_body]
pub struct ExFormatter<'a>(std::fmt::Formatter<'a>);

/// `std::fmt::Error`, with which printing fails.
#[verifier::external_type_specification]
#[verifier::external_body]
pub struct ExFormatError(std::fmt::Error);

/// Hands a text to a formatter with `std::fmt::Formatter::write_str`. Where the
/// text goes, and whether that fails, is up to whoever made the formatter, so
/// nothing is claimed of the outcome.
#[verifier::external_body]
pub(crate) fn write_text(f: &mut std::fmt::Formatter<'_>, text: &str) -> (r: Result<(), std::fmt::Error>) {
    f.write_str(text)
}

} // verus!
