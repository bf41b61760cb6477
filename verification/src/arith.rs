//! Integer arithmetic shared by the other modules: bounds, quotients and sums.
use vstd::prelude::*;

verus! {

/// `x` is an `i64`.
pub open spec fn fits(x: int) -> bool {
    i64::MIN <= x <= i64::MAX
}

/// The quotient of `a` by `b`, rounded toward zero.
pub open spec fn quotient(a: int, b: int) -> int {
    if a >= 0 {
        a / b
    } else {
        -((-a) / b)
    }
}

/// The smaller of two numbers.
pub open spec fn least(a: int, b: int) -> int {
    if a <= b { a } else { b }
}

/// The larger of two numbers.
pub open spec fn greatest(a: int, b: int) -> int {
    if a >= b { a } else { b }
}

/// The smaller of two numbers.
pub fn least_of(a: i64, b: i64) -> (r: i64)
    ensures
        r == least(a as int, b as int),
{
    if a <= b { a } else { b }
}

/// The larger of two numbers.
pub fn greatest_of(a: i64, b: i64) -> (r: i64)
    ensures
        r == greatest(a as int, b as int),
{
    if a >= b { a } else { b }
}

/// The smaller of two counts.
pub fn least_count(a: usize, b: usize) -> (r: usize)
    ensures
        r == least(a as int, b as int),
{
    if a <= b { a } else { b }
}

/// The larger of two counts.
pub fn greatest_count(a: usize, b: usize) -> (r: usize)
    ensures
        r == greatest(a as int, b as int),
{
    if a >= b { a } else { b }
}

/// The `i64` closest to `x`.
pub open spec fn clamped(x: int) -> int {
    least(greatest(x, i64::MIN as int), i64::MAX as int)
}

/// The `i64` closest to `x`.
pub fn clamp(x: i128) -> (r: i64)
    ensures
        r == clamped(x as int),
{
    if x > i64::MAX as i128 {
        i64::MAX
    } else if x < i64::MIN as i128 {
        i64::MIN
    } else {
        x as i64
    }
}

/// `percent` hundredths of `x`, rounded toward zero.
pub open spec fn share(x: int, percent: int) -> int {
    quotient(x * percent, 100)
}

/// `percent` hundredths of `x`, rounded toward zero.
pub fn share_of(x: i64, percent: u8) -> (r: i64)
    requires
        percent <= 100,
    ensures
        r == share(x as int, percent as int),
{
    assert(-0x8000_0000_0000_0000 * 100 <= x * percent <= 0x7fff_ffff_ffff_ffff * 100) by (nonlinear_arith)
        requires
            percent <= 100,
            -0x8000_0000_0000_0000 <= x <= 0x7fff_ffff_ffff_ffff,
    ;
    let scaled: i128 = x as i128 * percent as i128;
    let r: i128 = scaled / 100;
    r as i64
}

/// `percent` hundredths of `x`, rounded toward zero, or the `i64` closest to that.
pub fn clamped_share_of(x: i64, percent: u8) -> (r: i64)
    ensures
        r == clamped(share(x as int, percent as int)),
{
    assert(-0x8000_0000_0000_0000 * 255 <= x * percent <= 0x7fff_ffff_ffff_ffff * 255) by (nonlinear_arith)
        requires
            0 <= percent <= 255,
            -0x8000_0000_0000_0000 <= x <= 0x7fff_ffff_ffff_ffff,
    ;
    let scaled: i128 = x as i128 * percent as i128;
    clamp(scaled / 100)
}

/// The sum of a sequence of numbers.
pub open spec fn sum(s: Seq<int>) -> int
    decreases s.len(),
{
    if s.len() == 0 {
        0
    } else {
        sum(s.drop_last()) + s.last()
    }
}

/// No running total of the sequence leaves the `i64` range.
pub open spec fn totals_fit(s: Seq<int>) -> bool {
    forall|k: int| 0 <= k <= s.len() ==> fits(sum(#[trigger] s.take(k)))
}

/// One more entry adds its value to the running total.
pub proof fn lemma_sum_step(s: Seq<int>, k: int)
    requires
        0 <= k < s.len(),
    ensures
        sum(s.take(k + 1)) == sum(s.take(k)) + s[k],
{
    assert(s.take(k + 1).drop_last() =~= s.take(k));
}

/// Sums add up over concatenation.
pub proof fn lemma_sum_concat(a: Seq<int>, b: Seq<int>)
    ensures
        sum(a + b) == sum(a) + sum(b),
    decreases b.len(),
{
    if b.len() == 0 {
        assert(a + b =~= a);
    } else {
        assert((a + b).drop_last() =~= a + b.drop_last());
        lemma_sum_concat(a, b.drop_last());
    }
}

/// A running total of numbers that are not negative never exceeds the whole sum.
pub proof fn lemma_sum_grows(s: Seq<int>, k: int)
    requires
        0 <= k <= s.len(),
        forall|i: int| 0 <= i < s.len() ==> #[trigger] s[i] >= 0,
    ensures
        0 <= sum(s.take(k)) <= sum(s),
    decreases s.len(),
{
    if k == s.len() {
        assert(s.take(k) =~= s);
        if s.len() > 0 {
            lemma_sum_grows(s.drop_last(), k - 1);
            assert(s.drop_last().take(k - 1) =~= s.drop_last());
        }
    } else {
        lemma_sum_grows(s.drop_last(), k);
        assert(s.drop_last().take(k) =~= s.take(k));
    }
}

/// The entries as mathematical integers.
pub open spec fn ints(v: Seq<i64>) -> Seq<int> {
    Seq::new(v.len(), |i: int| v[i] as int)
}

/// Adds up a list of numbers.
pub fn total(v: &Vec<i64>) -> (r: i64)
    requires
        totals_fit(ints(v@)),
    ensures
        r == sum(ints(v@)),
{
    let ghost s = ints(v@);
    let mut r: i64 = 0;
    let mut i: usize = 0;
    while i < v.len()
        invariant
            i <= v.len(),
            s == ints(v@),
            totals_fit(s),
            r == sum(s.take(i as int)),
        decreases v.len() - i,
    {
        proof {
            lemma_sum_step(s, i as int);
            assert(fits(sum(s.take(i + 1))));
        }
        r = r + v[i];
        i = i + 1;
    }
    assert(s.take(i as int) =~= s);
    r
}

/// The magnitude of a number.
pub open spec fn magnitude(x: int) -> int {
    if x < 0 { -x } else { x }
}

/// The sum of the first `n` values of a function.
pub open spec fn sum_below(f: spec_fn(int) -> int, n: nat) -> int
    decreases n,
{
    if n == 0 {
        0
    } else {
        sum_below(f, (n - 1) as nat) + f(n - 1)
    }
}

/// Values at distinct places below `n` add up to no more than all magnitudes below `n`.
pub proof fn lemma_sum_of_distinct(places: Seq<usize>, f: spec_fn(int) -> int, n: nat)
    requires
        places.no_duplicates(),
        forall|i: int| 0 <= i < places.len() ==> #[trigger] places[i] < n,
    ensures
        magnitude(sum(Seq::new(places.len(), |i: int| f(places[i] as int)))) <= sum_below(
            |i: int| magnitude(f(i)),
            n,
        ),
    decreases n,
{
    let g = |i: int| magnitude(f(i));
    let values = Seq::new(places.len(), |i: int| f(places[i] as int));
    if places.len() == 0 {
        assert(values =~= Seq::<int>::empty());
        lemma_sum_below_positive(g, n);
    } else if n == 0 {
        assert(places[0] < n);
    } else if exists|i: int| 0 <= i < places.len() && places[i] == n - 1 {
        let i = choose|i: int| 0 <= i < places.len() && places[i] == n - 1;
        let rest = places.remove(i);
        let rest_values = Seq::new(rest.len(), |k: int| f(rest[k] as int));
        assert forall|j: int| 0 <= j < rest.len() implies #[trigger] rest[j] < n - 1 by {
            let from = if j < i { j } else { j + 1 };
            assert(rest[j] == places[from]);
            assert(places[from] != places[i]);
        }
        assert(rest.no_duplicates()) by {
            assert forall|a: int, b: int| 0 <= a < b < rest.len() implies rest[a] != rest[b] by {
                let a2 = if a < i { a } else { a + 1 };
                let b2 = if b < i { b } else { b + 1 };
                assert(rest[a] == places[a2] && rest[b] == places[b2]);
            }
        }
        lemma_sum_of_distinct(rest, f, (n - 1) as nat);
        lemma_sum_without(values, i);
        assert(rest_values =~= values.remove(i));
        assert(values[i] == f(n - 1));
        assert(g(n - 1) == magnitude(f(n - 1)));
    } else {
        assert forall|j: int| 0 <= j < places.len() implies #[trigger] places[j] < n - 1 by {
            assert(places[j] != n - 1);
        }
        lemma_sum_of_distinct(places, f, (n - 1) as nat);
        assert(g(n - 1) >= 0);
    }
}

proof fn lemma_sum_below_positive(g: spec_fn(int) -> int, n: nat)
    requires
        forall|i: int| #[trigger] g(i) >= 0,
    ensures
        sum_below(g, n) >= 0,
    decreases n,
{
    if n > 0 {
        lemma_sum_below_positive(g, (n - 1) as nat);
    }
}

/// Taking out an entry takes its value from the sum.
pub proof fn lemma_sum_without(s: Seq<int>, i: int)
    requires
        0 <= i < s.len(),
    ensures
        sum(s) == sum(s.remove(i)) + s[i],
    decreases s.len(),
{
    if i == s.len() - 1 {
        assert(s.remove(i) =~= s.drop_last());
    } else {
        lemma_sum_without(s.drop_last(), i);
        assert(s.drop_last().remove(i) =~= s.remove(i).drop_last());
        assert(s.remove(i).last() == s.last());
    }
}

/// Adds up a list of numbers without a limit on running totals.
pub fn wide_total(v: &Vec<i64>) -> (r: i128)
    ensures
        r == sum(ints(v@)),
{
    let ghost s = ints(v@);
    let mut r: i128 = 0;
    let mut i: usize = 0;
    while i < v.len()
        invariant
            i <= v.len(),
            s == ints(v@),
            r == sum(s.take(i as int)),
            -(i * 0x8000_0000_0000_0000) <= r <= i * 0x7fff_ffff_ffff_ffff,
        decreases v.len() - i,
    {
        proof {
            lemma_sum_step(s, i as int);
            assert(i * 0x8000_0000_0000_0000 <= 0xffff_ffff_ffff_fffe * 0x8000_0000_0000_0000) by (nonlinear_arith)
                requires
                    i <= 0xffff_ffff_ffff_fffe,
            ;
            assert(i * 0x7fff_ffff_ffff_ffff <= 0xffff_ffff_ffff_fffe * 0x7fff_ffff_ffff_ffff) by (nonlinear_arith)
                requires
                    i <= 0xffff_ffff_ffff_fffe,
            ;
        }
        r = r + v[i] as i128;
        i = i + 1;
    }
    assert(s.take(i as int) =~= s);
    r
}

/// The entries as mathematical integers.
pub open spec fn wides(v: Seq<i128>) -> Seq<int> {
    Seq::new(v.len(), |i: int| v[i] as int)
}

/// The `i128` closest to `x`.
pub open spec fn saturated(x: int) -> int {
    least(greatest(x, i128::MIN as int), i128::MAX as int)
}

/// The magnitude of a product of two `i64` numbers is at most this: 2 to the power of 126.
pub const PRODUCT_LIMIT: i128 = 0x4000_0000_0000_0000_0000_0000_0000_0000;

/// The product of two numbers.
pub fn wide_product(a: i64, b: i64) -> (r: i128)
    ensures
        r == a * b,
        -PRODUCT_LIMIT <= r <= PRODUCT_LIMIT,
{
    assert(-0x4000_0000_0000_0000_0000_0000_0000_0000 <= a * b <= 0x4000_0000_0000_0000_0000_0000_0000_0000)
        by (nonlinear_arith)
        requires
            -0x8000_0000_0000_0000 <= a <= 0x8000_0000_0000_0000,
            -0x8000_0000_0000_0000 <= b <= 0x8000_0000_0000_0000,
    ;
    a as i128 * b as i128
}

/// Adds up products of `i64` numbers. The sum is kept in two parts, so no running total
/// is lost.
pub fn wide_sum(v: &Vec<i128>) -> (r: i128)
    requires
        forall|i: int| 0 <= i < v@.len() ==> -PRODUCT_LIMIT <= #[trigger] v@[i] <= PRODUCT_LIMIT,
    ensures
        r == saturated(sum(wides(v@))),
{
    let ghost s = wides(v@);
    let mut high: u128 = 0;
    let mut low: u128 = 0;
    let mut i: usize = 0;
    while i < v.len()
        invariant
            i <= v.len(),
            s == wides(v@),
            forall|i: int| 0 <= i < v@.len() ==> -PRODUCT_LIMIT <= #[trigger] v@[i] <= PRODUCT_LIMIT,
            sum(s.take(i as int)) + i * PRODUCT_LIMIT == high * 0x1_0000_0000_0000_0000 + low,
            high <= i * 0x8000_0000_0000_0000,
            low <= i * 0xffff_ffff_ffff_ffff,
        decreases v.len() - i,
    {
        let x: i128 = v[i];
        let y: u128 = if x >= 0 {
            x as u128 + PRODUCT_LIMIT as u128
        } else {
            (x + PRODUCT_LIMIT) as u128
        };
        proof {
            lemma_sum_step(s, i as int);
            assert(i * 0x8000_0000_0000_0000 <= 0xffff_ffff_ffff_fffe * 0x8000_0000_0000_0000) by (nonlinear_arith)
                requires
                    i <= 0xffff_ffff_ffff_fffe,
            ;
            assert(i * 0xffff_ffff_ffff_ffff <= 0xffff_ffff_ffff_fffe * 0xffff_ffff_ffff_ffff) by (nonlinear_arith)
                requires
                    i <= 0xffff_ffff_ffff_fffe,
            ;
        }
        high = high + y / 0x1_0000_0000_0000_0000;
        low = low + y % 0x1_0000_0000_0000_0000;
        i = i + 1;
    }
    assert(s.take(i as int) =~= s);
    let whole: u128 = high + low / 0x1_0000_0000_0000_0000;
    let rest: u128 = low % 0x1_0000_0000_0000_0000;
    let base: u128 = i as u128 * 0x4000_0000_0000_0000;
    assert(sum(s) == (whole - base) * 0x1_0000_0000_0000_0000 + rest);
    if whole >= base {
        let d: u128 = whole - base;
        if d > 0x7fff_ffff_ffff_ffff {
            i128::MAX
        } else {
            (d * 0x1_0000_0000_0000_0000 + rest) as i128
        }
    } else {
        let d: u128 = base - whole;
        if d > 0x8000_0000_0000_0000 {
            i128::MIN
        } else {
            let m: u128 = d * 0x1_0000_0000_0000_0000 - rest;
            if m == 0x8000_0000_0000_0000_0000_0000_0000_0000 {
                i128::MIN
            } else {
                -(m as i128)
            }
        }
    }
}

/// The sum of two numbers, or the `i128` closest to it.
pub fn saturating_sum(a: i128, b: i128) -> (r: i128)
    ensures
        r == saturated(a + b),
{
    if a >= 0 && b > i128::MAX - a {
        i128::MAX
    } else if a < 0 && b < i128::MIN - a {
        i128::MIN
    } else {
        a + b
    }
}

/// Twice the product of three numbers, or the `i128` closest to it.
pub fn saturating_double_product(a: i64, b: i64, c: i64) -> (r: i128)
    ensures
        r == saturated(2 * a * b * c),
{
    let p: i128 = wide_product(a, b);
    assert(2 * a * b * c == 2 * (p * c)) by (nonlinear_arith)
        requires
            p == a * b,
    ;
    if c == 0 {
        assert(p * c == 0) by (nonlinear_arith)
            requires
                c == 0,
        ;
        return 0;
    }
    let m: u128 = if p < 0 {
        (-p) as u128
    } else {
        p as u128
    };
    let n: u128 = if c < 0 {
        (-(c as i128)) as u128
    } else {
        c as u128
    };
    let negative: bool = (p < 0) != (c < 0);
    assert(p * c == if negative { -(m * n) } else { m * n }) by (nonlinear_arith)
        requires
            m == if p < 0 { -p } else { p as int },
            n == if c < 0 { -c } else { c as int },
            negative == ((p < 0) != (c < 0)),
    ;
    assert(m * n >= 0) by (nonlinear_arith)
        requires
            m >= 0,
            n > 0,
    ;
    let most: u128 = 0x3fff_ffff_ffff_ffff_ffff_ffff_ffff_ffff / n;
    assert(m > most <==> m * n > 0x3fff_ffff_ffff_ffff_ffff_ffff_ffff_ffff) by (nonlinear_arith)
        requires
            n > 0,
            most == 0x3fff_ffff_ffff_ffff_ffff_ffff_ffff_ffffint / n as int,
    ;
    if m > most {
        if negative {
            i128::MIN
        } else {
            i128::MAX
        }
    } else {
        let q: i128 = (2 * (m * n)) as i128;
        if negative {
            -q
        } else {
            q
        }
    }
}

/// The quotient, rounded down.
pub fn floor_quotient(x: i128, d: i128) -> (q: i128)
    requires
        d > 0,
    ensures
        q == x as int / d as int,
{
    if x >= 0 {
        x / d
    } else {
        let up: i128 = (-(x + 1)) / d;
        assert(x as int / d as int == -((-(x + 1)) / d as int) - 1) by (nonlinear_arith)
            requires
                d > 0,
                x < 0,
        ;
        assert(0 <= up <= -(x + 1)) by (nonlinear_arith)
            requires
                up == (-(x + 1)) / d as int,
                d > 0,
                x < 0,
        ;
        -up - 1
    }
}

/// Comparing a product is comparing with the quotient rounded down.
pub proof fn lemma_floor(x: int, n: int, d: int)
    by (nonlinear_arith)
    requires
        d > 0,
    ensures
        x < n * d <==> x / d < n,
{
}

} // verus!
