//! Rendering helpers: decimal numerals, Rust-style quoting, and joining.

use vstd::prelude::*;

verus! {

/// The character of the decimal digit `d` (`d < 10`).
pub open spec fn digit_char(d: nat) -> char {
    ((d + 48) as char)
}

/// The decimal numeral of `n`: its digits, most significant first,
/// without leading zeros (`"0"` for zero).
pub open spec fn decimal(n: nat) -> Seq<char>
    decreases n,
{
    if n < 10 {
        seq![digit_char(n)]
    } else {
        decimal(n / 10).push(digit_char(n % 10))
    }
}

/// The number that a string of decimal digits denotes.
pub open spec fn numeral_value(digits: Seq<char>) -> nat
    decreases digits.len(),
{
    if digits.len() == 0 {
        0
    } else {
        numeral_value(digits.drop_last()) * 10 + ((digits.last() as int - 48) as nat)
    }
}

/// A decimal numeral denotes the number it was written for.
pub proof fn lemma_decimal_value(n: nat)
    ensures
        numeral_value(decimal(n)) == n,
    decreases n,
{
    let d = n % 10;
    assert(digit_char(d) as int - 48 == d);
    if n >= 10 {
        lemma_decimal_value(n / 10);
        assert(decimal(n).drop_last() =~= decimal(n / 10));
        assert(n == (n / 10) * 10 + d);
    } else {
        assert(decimal(n).drop_last() =~= Seq::<char>::empty());
        assert(d == n);
    }
    assert(decimal(n).last() == digit_char(d));
    assert(numeral_value(decimal(n)) == numeral_value(decimal(n).drop_last()) * 10 + d);
}

/// Appends the decimal numeral of `n` to `out`.
pub fn push_decimal(out: &mut String, n: usize)
    ensures
        final(out)@ == old(out)@ + decimal(n as nat),
    decreases n,
{
    if n >= 10 {
        push_decimal(out, n / 10);
    }
    let d: usize = n % 10;
    let digits = "0123456789";
    proof {
        reveal_strlit("0123456789");
        assert(digits@[d as int] == digit_char(d as nat));
    }
    let digit = digits.substring_char(d, d + 1);
    assert(digit@ =~= seq![digit_char(d as nat)]);
    out.append(digit);
}

/// What Rust's `Debug` formatting writes for the string `s`: the string in
/// double quotes, with its special characters escaped.
pub uninterp spec fn debug_text(s: Seq<char>) -> Seq<char>;

/// `format!("{:?}", s)`, std's `Debug` formatting of a string slice.
///
/// Trusted: the result is `debug_text` of the string's characters; that
/// name is left uninterpreted, so no clause describes the escaping.
#[verifier::external_body]
pub(crate) fn debug_quote(s: &str) -> (quoted: String)
    ensures
        quoted@ == debug_text(s@),
{
    format!("{:?}", s)
}

/// The parts one after another, with `sep` between each two neighbours.
pub open spec fn joined(parts: Seq<Seq<char>>, sep: Seq<char>) -> Seq<char>
    decreases parts.len(),
{
    if parts.len() == 0 {
        seq![]
    } else if parts.len() == 1 {
        parts[0]
    } else {
        joined(parts.drop_last(), sep) + sep + parts.last()
    }
}

/// Appends `parts`, joined by single spaces, to `out`.
pub fn push_joined(out: &mut String, parts: &Vec<String>)
    ensures
        final(out)@ == old(out)@ + joined(parts@.map_values(|p: String| p@), seq![' ']),
{
    let ghost views = parts@.map_values(|p: String| p@);
    let ghost start = out@;
    let space = " ";
    proof {
        reveal_strlit(" ");
    }
    let n = parts.len();
    for i in 0..n
        invariant
            n == parts.len(),
            views == parts@.map_values(|p: String| p@),
            space@ == seq![' '],
            out@ == start + joined(views.take(i as int), seq![' ']),
    {
        if i != 0 {
            out.append(space);
        }
        out.append(parts[i].as_str());
        assert(views.take(i + 1).drop_last() =~= views.take(i as int));
    }
    assert(views.take(n as int) =~= views);
}

} // verus!
