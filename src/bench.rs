//! Formatting of sizes for benchmark reports.
use vstd::prelude::*;

verus! {

/// The character of a decimal digit.
pub open spec fn digit(d: nat) -> char {
    ((d % 10) + 48) as u8 as char
}

/// The decimal digits of `n`, without leading zeros.
pub open spec fn decimal(n: nat) -> Seq<char>
    decreases n,
{
    if n < 10 {
        seq![digit(n)]
    } else {
        decimal(n / 10).push(digit(n % 10))
    }
}

/// The three decimal digits of `m`, with leading zeros.
pub open spec fn three_digits(m: nat) -> Seq<char> {
    seq![digit(m / 100), digit(m / 10), digit(m)]
}

/// The decimal digits of `n` in groups of three from the right, the groups
/// joined by `_`.
pub open spec fn thousands(n: nat) -> Seq<char>
    decreases n,
{
    if n < 1000 {
        decimal(n)
    } else {
        thousands(n / 1000) + seq!['_'] + three_digits(n % 1000)
    }
}

/// The character of the last decimal digit of `d`.
fn digit_char(d: u64) -> (c: char)
    ensures
        c == digit(d as nat),
{
    ((d % 10) as u8 + 48u8) as char
}

/// Appends the digits of a number below a thousand.
fn push_small(out: &mut Vec<char>, n: u64)
    requires
        n < 1000,
    ensures
        final(out)@ == old(out)@ + decimal(n as nat),
{
    if n >= 100 {
        out.push(digit_char(n / 100));
    }
    if n >= 10 {
        out.push(digit_char(n / 10));
    }
    out.push(digit_char(n));
    proof {
        let m = n as nat;
        if m >= 100 {
            assert(decimal(m / 100) == seq![digit(m / 100)]);
            assert(decimal(m / 10) == decimal(m / 100).push(digit((m / 10) % 10)));
            assert(digit((m / 10) % 10) == digit(m / 10));
            assert(decimal(m) == decimal(m / 10).push(digit(m % 10)));
            assert(digit(m % 10) == digit(m));
        } else if m >= 10 {
            assert(decimal(m / 10) == seq![digit(m / 10)]);
            assert(decimal(m) == decimal(m / 10).push(digit(m % 10)));
            assert(digit(m % 10) == digit(m));
        }
        assert(final(out)@ =~= old(out)@ + decimal(m));
    }
}

/// Appends the digits of `n` in groups of three.
fn push_thousands(out: &mut Vec<char>, n: u64)
    ensures
        final(out)@ == old(out)@ + thousands(n as nat),
    decreases n,
{
    if n < 1000 {
        push_small(out, n);
    } else {
        push_thousands(out, n / 1000);
        let m = n % 1000;
        out.push('_');
        out.push(digit_char(m / 100));
        out.push(digit_char(m / 10));
        out.push(digit_char(m));
        proof {
            assert(final(out)@ =~= old(out)@ + thousands(n as nat));
        }
    }
}

/// Relies on `String::from_iter` over `char`: the string holds the
/// characters in the order given.
#[verifier::external_body]
fn string_from_chars(cs: Vec<char>) -> (s: String)
    ensures
        s@ == cs@,
{
    String::from_iter(cs)
}

/// `i` in decimal, its digits grouped by three from the right with `_`
/// between the groups: `1048576` gives `1_048_576`.
pub fn print_thousands(i: u64) -> (s: String)
    ensures
        s@ == thousands(i as nat),
{
    let mut out: Vec<char> = Vec::new();
    push_thousands(&mut out, i);
    proof {
        assert(out@ =~= thousands(i as nat));
    }
    string_from_chars(out)
}

} // verus!
