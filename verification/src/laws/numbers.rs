//! Rounding, limits, and numbers as text.
use vstd::prelude::*;
use crate::{arith, partition, telemetry, text};
use crate::cost_model::GraphDensity;

verus! {

/// A quotient is rounded toward zero, whatever the sign of what is divided.
pub proof fn quotients_round_toward_zero(a: int, b: int)
    requires
        b > 0,
    ensures
        a >= 0 ==> arith::quotient(a, b) >= 0 && b * arith::quotient(a, b) <= a < b * (arith::quotient(a, b) + 1),
        a <= 0 ==> arith::quotient(a, b) <= 0 && b * (arith::quotient(a, b) - 1) < a <= b * arith::quotient(a, b),
        arith::quotient(-a, b) == -arith::quotient(a, b),
{
    let q = a / b;
    let r = (-a) / b;
    assert(b * q <= a < b * (q + 1) && b * r <= -a < b * (r + 1)) by (nonlinear_arith)
        requires
            q == a / b,
            r == (-a) / b,
            b > 0,
    ;
    if a >= 0 {
        assert(q >= 0) by (nonlinear_arith)
            requires
                a < b * (q + 1),
                a >= 0,
                b > 0,
        ;
    }
    if a <= 0 {
        assert(r >= 0) by (nonlinear_arith)
            requires
                -a < b * (r + 1),
                a <= 0,
                b > 0,
        ;
        assert(b * -r == -(b * r) && b * (-r - 1) == -(b * (r + 1))) by (nonlinear_arith);
    }
    if a == 0 {
        assert(q == 0 && r == 0) by (nonlinear_arith)
            requires
                q == a / b,
                r == (-a) / b,
                a == 0,
                b > 0,
        ;
    }
}

/// A share of an amount that is not negative is as much as so many hundredths allow, and
/// no less.
pub proof fn shares_are_hundredths(x: int, percent: int)
    requires
        x >= 0,
        percent >= 0,
    ensures
        100 * arith::share(x, percent) <= x * percent < 100 * arith::share(x, percent) + 100,
{
    assert(x * percent >= 0) by (nonlinear_arith)
        requires
            x >= 0,
            percent >= 0,
    ;
}

/// Of two numbers one is the smaller, one the larger, and both are among the two. What is
/// beyond a limit becomes the limit, and the rest stays.
pub proof fn limits_hold(a: int, b: int)
    ensures
        arith::least(a, b) <= a && arith::least(a, b) <= b && (arith::least(a, b) == a || arith::least(a, b) == b),
        arith::greatest(a, b) >= a && arith::greatest(a, b) >= b && (arith::greatest(a, b) == a || arith::greatest(a, b)
            == b),
        arith::least(a, b) + arith::greatest(a, b) == a + b,
        i64::MIN <= a <= i64::MAX ==> arith::clamped(a) == a,
        a < i64::MIN ==> arith::clamped(a) == i64::MIN,
        a > i64::MAX ==> arith::clamped(a) == i64::MAX,
        i128::MIN <= a <= i128::MAX ==> arith::saturated(a) == a,
        a < i128::MIN ==> arith::saturated(a) == i128::MIN,
        a > i128::MAX ==> arith::saturated(a) == i128::MAX,
        a <= b ==> arith::saturated(a) <= arith::saturated(b),
        0 <= partition::clamped_count(a) <= usize::MAX,
        0 <= a <= usize::MAX ==> partition::clamped_count(a) == a,
{
}

/// Adding up takes every number, and the order does not matter.
pub proof fn sums_take_every_number(s: Seq<int>, x: int, y: int)
    ensures
        arith::sum(Seq::<int>::empty()) == 0,
        arith::sum(s.push(x)) == arith::sum(s) + x,
        arith::sum(s.push(x).push(y)) == arith::sum(s.push(y).push(x)),
        arith::sum(seq![x] + s) == x + arith::sum(s),
{
    assert(s.push(x).drop_last() =~= s);
    assert(s.push(y).drop_last() =~= s);
    assert(s.push(x).push(y).drop_last() =~= s.push(x));
    assert(s.push(y).push(x).drop_last() =~= s.push(y));
    assert(arith::sum(s.push(x)) == arith::sum(s) + x);
    assert(arith::sum(s.push(y)) == arith::sum(s) + y);
    assert(arith::sum(s.push(x).push(y)) == arith::sum(s.push(x)) + y);
    assert(arith::sum(s.push(y).push(x)) == arith::sum(s.push(y)) + x);
    arith::lemma_sum_concat(seq![x], s);
    assert(seq![x].drop_last() =~= Seq::<int>::empty());
    assert(arith::sum(seq![x].drop_last()) == 0);
    assert(arith::sum(seq![x]) == x);
}

/// Rounding goes to the nearest whole number, and from the middle to the even one.
pub proof fn rounding_goes_to_the_nearest(a: nat, b: nat)
    requires
        b > 0,
    ensures
        ({
            let r = text::rounded(a, b);
            &&& 2 * (a - b * r) <= b
            &&& 2 * (b * r - a) <= b
            &&& 2 * (a - b * r) == b || 2 * (b * r - a) == b ==> r % 2 == 0
        }),
{
    let whole = a / b;
    let rest = a % b;
    assert(a == b * whole + rest && 0 <= rest < b) by (nonlinear_arith)
        requires
            whole == a / b,
            rest == a % b,
            b > 0,
    ;
    assert(b * (whole + 1) == b * whole + b) by (nonlinear_arith);
}

/// The number that decimal digits stand for.
pub open spec fn number_of(s: Seq<char>) -> int
    decreases s.len(),
{
    if s.len() == 0 {
        0
    } else {
        10 * number_of(s.drop_last()) + (s.last() as int - 48)
    }
}

/// The decimal notation of a number consists of digits that stand for it, without a zero
/// in front of others.
pub proof fn digits_stand_for_the_number(n: nat)
    ensures
        number_of(text::digits(n)) == n,
        text::digits(n).len() > 0,
        forall|i: int| 0 <= i < text::digits(n).len() ==> 48 <= (#[trigger] text::digits(n)[i]) as int <= 57,
        n > 0 ==> text::digits(n)[0] as int > 48,
    decreases n,
{
    let last = text::digit((n % 10) as int);
    assert(last as int == 48 + n % 10);
    if n < 10 {
        let all = text::digits(n);
        assert(all =~= seq![last]);
        assert(all.drop_last() =~= Seq::<char>::empty());
        assert(number_of(all.drop_last()) == 0);
    } else {
        digits_stand_for_the_number(n / 10);
        let before = text::digits(n / 10);
        let all = text::digits(n);
        assert(all == before.push(last));
        assert(all.drop_last() =~= before);
        assert(all[0] == before[0]);
    }
}

/// A negative number has a minus sign in front of the digits of its magnitude, another
/// one has none; different numbers are written differently.
pub proof fn signs_stand_in_front(n: int, other: int)
    ensures
        n < 0 ==> text::decimal(n)[0] == '-' && number_of(text::decimal(n).skip(1)) == -n,
        n >= 0 ==> text::decimal(n)[0] != '-' && number_of(text::decimal(n)) == n,
        text::decimal(n) == text::decimal(other) ==> n == other,
{
    if n >= 0 {
        digits_stand_for_the_number(n as nat);
        assert(48 <= text::digits(n as nat)[0] as int <= 57);
    } else {
        digits_stand_for_the_number((-n) as nat);
        assert(text::decimal(n).skip(1) =~= text::digits((-n) as nat));
    }
    if other >= 0 {
        digits_stand_for_the_number(other as nat);
        assert(48 <= text::digits(other as nat)[0] as int <= 57);
    } else {
        digits_stand_for_the_number((-other) as nat);
        assert(text::decimal(other).skip(1) =~= text::digits((-other) as nat));
    }
}

/// Tenths are written with one digit behind a point: without the point they are the
/// number of tenths.
pub proof fn tenths_have_one_place(n: nat)
    ensures
        ({
            let s = text::tenths(n);
            &&& s.len() >= 3
            &&& s[s.len() - 2] == '.'
            &&& number_of(s.take(s.len() - 2).push(s[s.len() - 1])) == n
        }),
{
    let s = text::tenths(n);
    digits_stand_for_the_number(n / 10);
    let whole = text::digits(n / 10);
    let last = text::digit((n % 10) as int);
    assert(s.take(s.len() - 2) =~= whole);
    assert(s[s.len() - 1] == last);
    assert(last as int == 48 + n % 10);
    assert(whole.push(last).drop_last() =~= whole);
}

proof fn lemma_separated(ids: Seq<usize>, k: nat, i: int)
    requires
        0 <= i < k <= ids.len(),
    ensures
        ({
            let spaced = |x: usize| text::decimal(x as int).len() as int + 2;
            let listed = text::comma_separated(ids, k);
            let start = arith::sum(ids.take(i).map_values(spaced));
            let end = start + text::decimal(ids[i] as int).len();
            &&& listed.len() == arith::sum(ids.take(k as int).map_values(spaced)) - 2
            &&& 0 <= start <= end <= listed.len()
            &&& listed.subrange(start, end) == text::decimal(ids[i] as int)
            &&& i + 1 < k ==> end + 2 <= listed.len() && listed[end] == ',' && listed[end + 1] == ' '
        }),
    decreases k,
{
    let spaced = |x: usize| text::decimal(x as int).len() as int + 2;
    let listed = text::comma_separated(ids, k);
    let last = text::decimal(ids[k - 1] as int);
    let before = ids.take(k - 1).map_values(spaced);
    assert(ids.take(k as int).map_values(spaced).drop_last() =~= before);
    assert(ids.take(k as int).map_values(spaced).last() == last.len() + 2);
    if k == 1 {
        assert(before =~= Seq::<int>::empty());
        assert(listed.subrange(0, last.len() as int) =~= last);
    } else {
        let rest = text::comma_separated(ids, (k - 1) as nat);
        if i < k - 1 {
            lemma_separated(ids, (k - 1) as nat, i);
            let start = arith::sum(ids.take(i).map_values(spaced));
            let end = start + text::decimal(ids[i] as int).len();
            assert(listed.subrange(start, end) =~= rest.subrange(start, end));
            if i == k - 2 {
                assert(ids.take(k - 1).map_values(spaced).drop_last() =~= ids.take(i).map_values(spaced));
                assert(ids.take(k - 1).map_values(spaced).last() == text::decimal(ids[i] as int).len() + 2);
                assert(end == rest.len());
            }
        } else {
            lemma_separated(ids, (k - 1) as nat, k - 2);
            let start = arith::sum(before);
            assert(listed.subrange(start, start + last.len()) =~= last);
        }
    }
}

/// A list of numbers stands between brackets: each number in its place and in decimal, with
/// a comma and a blank behind all but the last.
pub proof fn lists_hold_their_numbers(ids: Seq<usize>, i: int)
    requires
        0 <= i < ids.len(),
    ensures
        ({
            let list = text::bracketed(ids);
            let start = 1 + arith::sum(ids.take(i).map_values(|x: usize| text::decimal(x as int).len() as int + 2));
            let end = start + text::decimal(ids[i] as int).len();
            &&& list[0] == '[' && list.last() == ']'
            &&& start <= end < list.len()
            &&& list.subrange(start, end) == text::decimal(ids[i] as int)
            &&& i + 1 < ids.len() ==> list[end] == ',' && list[end + 1] == ' '
            &&& i + 1 == ids.len() ==> end + 1 == list.len()
        }),
{
    let spaced = |x: usize| text::decimal(x as int).len() as int + 2;
    let n = ids.len();
    let listed = text::comma_separated(ids, n);
    let list = text::bracketed(ids);
    lemma_separated(ids, n, i);
    let start = arith::sum(ids.take(i).map_values(spaced));
    let end = start + text::decimal(ids[i] as int).len();
    assert(list.subrange(start + 1, end + 1) =~= listed.subrange(start, end));
    if i + 1 == n {
        assert(ids.take(n as int).map_values(spaced).drop_last() =~= ids.take(i).map_values(spaced));
        assert(ids.take(n as int).map_values(spaced).last() == text::decimal(ids[i] as int).len() + 2);
    }
}

/// A list without numbers is a pair of brackets.
pub proof fn empty_lists_are_brackets(ids: Seq<usize>)
    ensures
        ids.len() == 0 <==> text::bracketed(ids).len() == 2,
{
    if ids.len() > 0 {
        lists_hold_their_numbers(ids, 0);
        assert(ids.take(0).map_values(|x: usize| text::decimal(x as int).len() as int + 2) =~= Seq::<int>::empty());
        assert(text::decimal(ids[0] as int).len() > 0);
    }
}

/// A long list of operations is shown by its first three, in brackets that stay open, and
/// by how many more there are: what is shown and what is announced make up the list.
pub proof fn previews_show_the_first_three(ops: Seq<usize>)
    requires
        ops.len() > 6,
    ensures
        telemetry::ops_preview(ops) == text::bracketed(ops.take(3)).drop_last() + ", ... "@ + text::decimal(ops.len() - 3)
            + " more]"@,
{
    reveal_strlit("[");
    reveal_strlit(", ");
    let first = ops.take(3);
    reveal_with_fuel(text::comma_separated, 4);
    let a = text::decimal(ops[0] as int);
    let b = text::decimal(ops[1] as int);
    let c = text::decimal(ops[2] as int);
    assert(", "@ =~= seq![',', ' ']);
    assert("["@ =~= seq!['[']);
    assert(text::comma_separated(first, 3) =~= a + ", "@ + b + ", "@ + c);
    assert(text::bracketed(first).drop_last() =~= "["@ + a + ", "@ + b + ", "@ + c);
}

/// Up to six operations are all shown.
pub proof fn short_previews_show_all(ops: Seq<usize>, i: int)
    requires
        0 <= i < ops.len() <= 6,
    ensures
        ({
            let start = 1 + arith::sum(ops.take(i).map_values(|x: usize| text::decimal(x as int).len() as int + 2));
            telemetry::ops_preview(ops).subrange(start, start + text::decimal(ops[i] as int).len()) == text::decimal(
                ops[i] as int,
            )
        }),
{
    lists_hold_their_numbers(ops, i);
}

/// A share of fast memory is told in hundredths, rounded to the nearest tenth of one.
pub proof fn shares_are_told_in_tenths(bytes: int, capacity: int)
    requires
        capacity > 0,
        bytes >= 0,
    ensures
        exists|k: nat| #[trigger]
            text::tenths(k) == partition::percent_text(bytes, capacity) && 2 * (1000 * bytes) - capacity <= 2 * (capacity * k)
                <= 2 * (1000 * bytes) + capacity,
{
    let k = text::rounded((1000 * bytes) as nat, capacity as nat);
    rounding_goes_to_the_nearest((1000 * bytes) as nat, capacity as nat);
    assert(text::tenths(k) == partition::percent_text(bytes, capacity));
}

/// Sizes are told in full units of 1024.
pub proof fn sizes_are_told_in_full_units(bytes: int)
    requires
        bytes >= 0,
    ensures
        exists|q: int| #[trigger] text::decimal(q) == partition::kilobytes(bytes) && 1024 * q <= bytes < 1024 * q + 1024,
{
    quotients_round_toward_zero(bytes, 1024);
    assert(text::decimal(arith::quotient(bytes, 1024)) == partition::kilobytes(bytes));
}

/// The factor that is told for a density is the one that is reckoned with.
pub proof fn factors_are_told_as_used(density: GraphDensity)
    ensures
        partition::density_factor(density) == if partition::density_tenths(density) % 10 == 0 {
            text::decimal(partition::density_tenths(density) / 10)
        } else {
            text::tenths(partition::density_tenths(density) as nat)
        },
{
    reveal_strlit("1");
    reveal_strlit("1.2");
    reveal_strlit("1.5");
    reveal_with_fuel(text::digits, 3);
    assert(partition::density_factor(density) =~= if partition::density_tenths(density) % 10 == 0 {
        text::decimal(partition::density_tenths(density) / 10)
    } else {
        text::tenths(partition::density_tenths(density) as nat)
    });
}

/// A single group is called safe where less than 97 hundredths of fast memory are filled,
/// and risky otherwise.
pub proof fn full_memory_is_called_risky(bytes: int, capacity: int)
    requires
        capacity > 0,
    ensures
        100 * bytes < 97 * capacity <==> "Single subgraph is safe"@.is_prefix_of(partition::single_rationale(bytes, capacity)),
        100 * bytes >= 97 * capacity <==> "Single subgraph is RISKY"@.is_prefix_of(
            partition::single_rationale(bytes, capacity),
        ),
{
    reveal_strlit("Single subgraph is safe");
    reveal_strlit("Single subgraph is RISKY");
    reveal_strlit("Single subgraph is safe: WS=");
    reveal_strlit("Single subgraph is RISKY: WS=");
    let told = partition::single_rationale(bytes, capacity);
    if 100 * bytes < 97 * capacity {
        assert("Single subgraph is safe"@ =~= told.subrange(0, 23));
        assert(told[19] == 's');
    } else {
        assert("Single subgraph is RISKY"@ =~= told.subrange(0, 24));
        assert(told[19] == 'R');
    }
    if "Single subgraph is safe"@.is_prefix_of(told) {
        assert("Single subgraph is safe"@[19] == told.subrange(0, 23)[19]);
    }
    if "Single subgraph is RISKY"@.is_prefix_of(told) {
        assert("Single subgraph is RISKY"@[19] == told.subrange(0, 24)[19]);
    }
}

} // verus!
