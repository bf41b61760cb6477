//! Numbers and lists as text.
use vstd::prelude::*;
use vstd::string::StringExecFns;

verus! {

/// The character of a decimal digit.
pub open spec fn digit(d: int) -> char {
    if d == 0 {
        '0'
    } else if d == 1 {
        '1'
    } else if d == 2 {
        '2'
    } else if d == 3 {
        '3'
    } else if d == 4 {
        '4'
    } else if d == 5 {
        '5'
    } else if d == 6 {
        '6'
    } else if d == 7 {
        '7'
    } else if d == 8 {
        '8'
    } else {
        '9'
    }
}

/// The decimal digits of `n`, without leading zeros.
pub open spec fn digits(n: nat) -> Seq<char>
    decreases n,
{
    if n < 10 {
        seq![digit(n as int)]
    } else {
        digits(n / 10).push(digit((n % 10) as int))
    }
}

/// The decimal notation of `n`.
pub open spec fn decimal(n: int) -> Seq<char> {
    if n < 0 {
        seq!['-'] + digits((-n) as nat)
    } else {
        digits(n as nat)
    }
}

/// A number of tenths, with one place behind the point.
pub open spec fn tenths(n: nat) -> Seq<char> {
    digits(n / 10) + seq!['.', digit((n % 10) as int)]
}

fn digit_text(d: u128) -> (s: &'static str)
    requires
        d < 10,
    ensures
        s@ == seq![digit(d as int)],
{
    proof {
        reveal_strlit("0");
        reveal_strlit("1");
        reveal_strlit("2");
        reveal_strlit("3");
        reveal_strlit("4");
        reveal_strlit("5");
        reveal_strlit("6");
        reveal_strlit("7");
        reveal_strlit("8");
        reveal_strlit("9");
    }
    if d == 0 {
        "0"
    } else if d == 1 {
        "1"
    } else if d == 2 {
        "2"
    } else if d == 3 {
        "3"
    } else if d == 4 {
        "4"
    } else if d == 5 {
        "5"
    } else if d == 6 {
        "6"
    } else if d == 7 {
        "7"
    } else if d == 8 {
        "8"
    } else {
        "9"
    }
}

/// Appends the digits of `n`.
pub fn append_digits(out: &mut String, n: u128)
    ensures
        final(out)@ == old(out)@ + digits(n as nat),
    decreases n,
{
    if n >= 10 {
        append_digits(out, n / 10);
    }
    let ghost before = out@;
    out.append(digit_text(n % 10));
    assert(n >= 10 ==> digits(n as nat) == digits((n / 10) as nat).push(digit((n % 10) as int)));
    assert(out@ =~= old(out)@ + digits(n as nat));
}

/// Appends the decimal notation of `n`.
pub fn append_decimal(out: &mut String, n: i64)
    ensures
        final(out)@ == old(out)@ + decimal(n as int),
{
    if n < 0 {
        proof {
            reveal_strlit("-");
        }
        out.append("-");
        append_digits(out, (-(n as i128)) as u128);
        assert(out@ =~= old(out)@ + decimal(n as int));
    } else {
        append_digits(out, n as u128);
    }
}

/// Appends the decimal notation of a count.
pub fn append_count(out: &mut String, n: usize)
    ensures
        final(out)@ == old(out)@ + decimal(n as int),
{
    append_digits(out, n as u128);
}

/// Appends a number of tenths, with one place behind the point.
pub fn append_tenths(out: &mut String, n: u128)
    ensures
        final(out)@ == old(out)@ + tenths(n as nat),
{
    append_digits(out, n / 10);
    proof {
        reveal_strlit(".");
    }
    out.append(".");
    out.append(digit_text(n % 10));
    assert(out@ =~= old(out)@ + tenths(n as nat));
}

/// The quotient of `a` by `b`, rounded to the nearest whole number; halves go to the even one.
pub open spec fn rounded(a: nat, b: nat) -> nat {
    let whole = a / b;
    let rest = a % b;
    if 2 * rest < b || (2 * rest == b && whole % 2 == 0) {
        whole
    } else {
        whole + 1
    }
}

/// The first `k` entries of a list of ids, separated by commas.
pub open spec fn comma_separated(ids: Seq<usize>, k: nat) -> Seq<char>
    decreases k,
{
    if k == 0 {
        Seq::empty()
    } else if k == 1 {
        decimal(ids[0] as int)
    } else {
        comma_separated(ids, (k - 1) as nat) + seq![',', ' '] + decimal(ids[k - 1] as int)
    }
}

/// A list of ids in square brackets.
pub open spec fn bracketed(ids: Seq<usize>) -> Seq<char> {
    seq!['['] + comma_separated(ids, ids.len()) + seq![']']
}

/// Appends a list of ids in square brackets.
pub fn append_ids(out: &mut String, ids: &[usize])
    ensures
        final(out)@ == old(out)@ + bracketed(ids@),
{
    let ghost start = out@;
    proof {
        reveal_strlit("[");
        reveal_strlit("]");
        reveal_strlit(", ");
    }
    out.append("[");
    let mut i: usize = 0;
    while i < ids.len()
        invariant
            i <= ids@.len(),
            out@ == start + seq!['['] + comma_separated(ids@, i as nat),
            ", "@ == seq![',', ' '],
        decreases ids@.len() - i,
    {
        if i > 0 {
            out.append(", ");
        }
        append_count(out, ids[i]);
        assert(out@ =~= start + seq!['['] + comma_separated(ids@, (i + 1) as nat));
        i = i + 1;
    }
    out.append("]");
    assert(out@ =~= start + bracketed(ids@));
}

} // verus!
