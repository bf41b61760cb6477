//! Collecting tile shapes worth trying, and the arithmetic of sizes that divide a length.
use vstd::prelude::*;
use crate::arith;
use crate::memory;
use crate::models::{OpId, Problem, TensorId};
use crate::sorting;

verus! {

/// A tile is tried only if its sides are between 16 and 1024 and it fits in the room.
pub open spec fn admissible(tile: (i64, i64), room: int) -> bool {
    16 <= tile.0 <= 1024 && 16 <= tile.1 <= 1024 && tile.0 * tile.1 <= room
}

/// `list` holds the admissible ones among the offered tiles, each once, in ascending order.
pub open spec fn holds(list: Seq<(i64, i64)>, offered: Set<(i64, i64)>, room: int) -> bool {
    &&& sorting::pairs_ascending(list)
    &&& forall|tile: (i64, i64)| #[trigger] list.contains(tile) <==> offered.contains(tile) && admissible(tile, room)
}

/// Adds a tile to the list, if it is admissible.
pub(crate) fn offer(list: &mut Vec<(i64, i64)>, w: i64, h: i64, room: i64, Ghost(offered): Ghost<Set<(i64, i64)>>)
    requires
        holds(old(list)@, offered, room as int),
    ensures
        holds(final(list)@, offered.insert((w, h)), room as int),
{
    if 16 <= w && w <= 1024 && 16 <= h && h <= 1024 {
        assert(w * h <= 1024 * 1024) by (nonlinear_arith)
            requires
                16 <= w <= 1024,
                16 <= h <= 1024,
        ;
        assert(w * h >= 0) by (nonlinear_arith)
            requires
                16 <= w,
                16 <= h,
        ;
        if w * h <= room {
            sorting::insert_pair(list, (w, h));
        }
    }
}

/// The tiles of a list.
pub open spec fn listed(list: Seq<(i64, i64)>) -> Set<(i64, i64)> {
    Set::new(|tile: (i64, i64)| list.contains(tile))
}

/// Adds the admissible tiles of a list.
pub(crate) fn offer_all(list: &mut Vec<(i64, i64)>, more: &[(i64, i64)], room: i64, Ghost(offered): Ghost<Set<(i64, i64)>>)
    requires
        holds(old(list)@, offered, room as int),
    ensures
        holds(final(list)@, offered.union(listed(more@)), room as int),
{
    let mut i: usize = 0;
    let ghost mut now = offered;
    while i < more.len()
        invariant
            i <= more@.len(),
            holds(list@, now, room as int),
            forall|tile: (i64, i64)| #[trigger]
                now.contains(tile) <==> offered.contains(tile) || more@.take(i as int).contains(tile),
        decreases more@.len() - i,
    {
        let (w, h): (i64, i64) = more[i];
        offer(list, w, h, room, Ghost(now));
        proof {
            let before = now;
            now = now.insert((w, h));
            let shorter = more@.take(i as int);
            let longer = more@.take(i + 1);
            assert(longer =~= shorter.push((w, h)));
            assert forall|tile: (i64, i64)| #[trigger] now.contains(tile) <==> offered.contains(tile) || longer.contains(
                tile,
            ) by {
                assert(before.contains(tile) <==> offered.contains(tile) || shorter.contains(tile));
                if shorter.contains(tile) {
                    let j = choose|j: int| 0 <= j < shorter.len() && shorter[j] == tile;
                    assert(longer[j] == tile);
                }
                if longer.contains(tile) {
                    let j = choose|j: int| 0 <= j < longer.len() && longer[j] == tile;
                    if j < i {
                        assert(shorter[j] == tile);
                    }
                }
                assert(longer[i as int] == (w, h));
            }
        }
        i = i + 1;
    }
    assert(more@.take(i as int) =~= more@);
    assert(now =~= offered.union(listed(more@)));
}

/// `n` is a power of two.
pub open spec fn power_of_two(n: int) -> bool {
    exists|k: nat| n == #[trigger] vstd::arithmetic::power2::pow2(k)
}

/// Whether `n` is a power of two.
pub fn is_power_of_two(n: i64) -> (yes: bool)
    ensures
        yes == power_of_two(n as int),
{
    let ghost mut k: nat = 0;
    proof {
        vstd::arithmetic::power2::lemma2_to64();
    }
    let mut power: i128 = 1;
    while power < n as i128
        invariant
            power == vstd::arithmetic::power2::pow2(k),
            1 <= power,
            k == 0 || power < 2 * n,
            forall|j: nat| j < k ==> #[trigger] vstd::arithmetic::power2::pow2(j) < n,
        decreases 2 * n - power,
    {
        proof {
            vstd::arithmetic::power2::lemma_pow2_unfold((k + 1) as nat);
            k = k + 1;
        }
        power = power * 2;
    }
    proof {
        if power_of_two(n as int) && power != n {
            let j = choose|j: nat| n == #[trigger] vstd::arithmetic::power2::pow2(j);
            if j > k {
                vstd::arithmetic::power2::lemma_pow2_strictly_increases(k, j);
            }
        }
    }
    power == n as i128
}

/// `d` is the largest divisor of `n` up to `max`.
pub open spec fn is_largest_divisor(n: int, max: int, d: int) -> bool {
    &&& 1 <= d <= max
    &&& n % d == 0
    &&& forall|e: int| 1 <= e <= max && #[trigger] (n % e) == 0 ==> e <= d
}

/// The largest divisor of `n` up to `max`.
pub fn largest_divisor(n: i64, max: i64) -> (d: i64)
    requires
        1 <= max < i64::MAX,
    ensures
        is_largest_divisor(n as int, max as int, d as int),
{
    let mut best: i64 = 1;
    let mut d: i64 = 1;
    while d <= max
        invariant
            1 <= d <= max + 1,
            max < i64::MAX,
            1 <= best <= max,
            (n as int) % (best as int) == 0,
            forall|e: int| 1 <= e < d && #[trigger] (n as int % e) == 0 ==> e <= best,
        decreases max + 1 - d,
    {
        if divides(d, n) {
            best = d;
        }
        d = d + 1;
    }
    best
}

/// Whether `d` divides `n`.
pub fn divides(d: i64, n: i64) -> (yes: bool)
    requires
        d > 0,
    ensures
        yes == ((n as int) % (d as int) == 0),
{
    let ghost a = n as int;
    let ghost b = d as int;
    if n < 0 {
        proof {
            let c = -a;
            vstd::arithmetic::div_mod::lemma_fundamental_div_mod(c, b);
            vstd::arithmetic::div_mod::lemma_fundamental_div_mod(a, b);
            if c % b == 0 {
                assert(a == b * (-(c / b))) by (nonlinear_arith)
                    requires
                        c == b * (c / b),
                        a == -c,
                ;
                vstd::arithmetic::div_mod::lemma_fundamental_div_mod_converse(a, b, -(c / b), 0);
            }
            if a % b == 0 {
                assert(c == b * (-(a / b))) by (nonlinear_arith)
                    requires
                        a == b * (a / b),
                        a == -c,
                ;
                vstd::arithmetic::div_mod::lemma_fundamental_div_mod_converse(c, b, -(a / b), 0);
            }
        }
        let m: i128 = -(n as i128);
        m % (d as i128) == 0
    } else {
        n % d == 0
    }
}

/// Covering `dim` with tiles of `size` wastes less than `percent` hundredths of it.
pub open spec fn wastes_little(dim: int, size: int, percent: int) -> bool {
    let waste = arith::quotient(dim + size - 1, size) * size - dim;
    if dim > 0 {
        100 * waste < percent * dim
    } else if dim < 0 {
        100 * waste > percent * dim
    } else {
        false
    }
}

/// `size` divides `dim` and is between `min` and `max`.
pub open spec fn is_factor(dim: int, min: int, max: int, size: int) -> bool {
    min <= size <= max && size <= dim && dim % size == 0
}

/// A good tile size for `dim`: one of its divisors between `min` and `max`, or, where it
/// has none, one of the given sizes that wastes little.
pub open spec fn is_tile_factor(dim: int, min: int, max: int, sizes: Seq<i64>, percent: int, size: i64) -> bool {
    if exists|d: int| #[trigger] is_factor(dim, min, max, d) {
        is_factor(dim, min, max, size as int)
    } else {
        sizes.contains(size) && min <= size <= max && wastes_little(dim, size as int, percent)
    }
}

fn covers_well(dim: i64, size: i64, percent: u8) -> (yes: bool)
    requires
        size > 0,
        size <= 1024,
        percent <= 100,
    ensures
        yes == wastes_little(dim as int, size as int, percent as int),
{
    let sum: i128 = dim as i128 + size as i128 - 1;
    let tiles: i128 = sum / (size as i128);
    let ghost q = arith::quotient(sum as int, size as int);
    assert(tiles == q);
    assert(-0x1_0000_0000_0000_0000 <= q <= 0x1_0000_0000_0000_0000) by {
        let m = if sum >= 0 { sum as int } else { -sum as int };
        vstd::arithmetic::div_mod::lemma_div_is_ordered_by_denominator(m, 1, size as int);
        vstd::arithmetic::div_mod::lemma_div_pos_is_pos(m, size as int);
    }
    assert(-0x1_0000_0000_0000_0000 * 1024 <= q * size <= 0x1_0000_0000_0000_0000 * 1024) by (nonlinear_arith)
        requires
            -0x1_0000_0000_0000_0000 <= q <= 0x1_0000_0000_0000_0000,
            0 < size <= 1024,
    ;
    let waste: i128 = tiles * size as i128 - dim as i128;
    assert(-0x1_0000_0000_0000_0000 * 100 <= percent * dim <= 0x1_0000_0000_0000_0000 * 100) by (nonlinear_arith)
        requires
            percent <= 100,
            -0x8000_0000_0000_0000 <= dim <= 0x7fff_ffff_ffff_ffff,
    ;
    if dim > 0 {
        100 * waste < percent as i128 * dim as i128
    } else if dim < 0 {
        100 * waste > percent as i128 * dim as i128
    } else {
        false
    }
}

/// Finds the good tile sizes for `dim`.
pub fn find_tile_factors(dim: i64, min: i64, max: i64, sizes: &[i64], percent: u8) -> (factors: Vec<i64>)
    requires
        1 <= min,
        max <= 1024,
        percent <= 100,
    ensures
        forall|size: i64| #[trigger]
            factors@.contains(size) <==> is_tile_factor(
                dim as int,
                min as int,
                max as int,
                sizes@,
                percent as int,
                size,
            ),
{
    let mut factors: Vec<i64> = Vec::new();
    let top: i64 = arith::least_of(max, dim);
    let mut f: i64 = min;
    while f <= top
        invariant
            1 <= min <= f,
            f <= 1025 || f == min,
            max <= 1024,
            top == arith::least(max as int, dim as int),
            forall|size: i64| #[trigger]
                factors@.contains(size) <==> size < f && is_factor(dim as int, min as int, max as int, size as int),
        decreases top - f + 1,
    {
        if divides(f, dim) {
            let ghost before = factors@;
            factors.push(f);
            proof {
                assert forall|size: i64| #[trigger] factors@.contains(size) <==> size < f + 1 && is_factor(
                    dim as int,
                    min as int,
                    max as int,
                    size as int,
                ) by {
                    assert(before.contains(size) <==> size < f && is_factor(
                        dim as int,
                        min as int,
                        max as int,
                        size as int,
                    ));
                    lemma_push(before, f, size);
                }
            }
        }
        f = f + 1;
    }
    if factors.len() == 0 {
        proof {
            assert forall|d: int| !#[trigger] is_factor(dim as int, min as int, max as int, d) by {
                if is_factor(dim as int, min as int, max as int, d) {
                    assert(factors@.contains(d as i64));
                }
            }
        }
        let mut i: usize = 0;
        while i < sizes.len()
            invariant
                1 <= min,
                max <= 1024,
                percent <= 100,
                i <= sizes@.len(),
                forall|size: i64| #[trigger]
                    factors@.contains(size) <==> sizes@.take(i as int).contains(size) && min <= size <= max
                        && wastes_little(dim as int, size as int, percent as int),
            decreases sizes@.len() - i,
        {
            let size: i64 = sizes[i];
            let ghost before = factors@;
            let ghost shorter = sizes@.take(i as int);
            assert(sizes@.take(i + 1) =~= shorter.push(size));
            if min <= size && size <= max && covers_well(dim, size, percent) {
                factors.push(size);
            }
            proof {
                assert forall|s: i64| #[trigger] factors@.contains(s) <==> sizes@.take(i + 1).contains(s) && min <= s <= max
                    && wastes_little(dim as int, s as int, percent as int) by {
                    assert(before.contains(s) <==> shorter.contains(s) && min <= s <= max && wastes_little(
                        dim as int,
                        s as int,
                        percent as int,
                    ));
                    lemma_push(before, size, s);
                    lemma_push(shorter, size, s);
                }
            }
            i = i + 1;
        }
        assert(sizes@.take(i as int) =~= sizes@);
    } else {
        assert(factors@.contains(factors@[0]));
        assert(is_factor(dim as int, min as int, max as int, factors@[0] as int));
    }
    factors
}

proof fn lemma_push(s: Seq<i64>, x: i64, y: i64)
    ensures
        s.push(x).contains(y) <==> s.contains(y) || y == x,
{
    let longer = s.push(x);
    if longer.contains(y) {
        let i = choose|i: int| 0 <= i < longer.len() && longer[i] == y;
        if i < s.len() {
            assert(s[i] == y);
        }
    }
    if s.contains(y) {
        let i = choose|i: int| 0 <= i < s.len() && s[i] == y;
        assert(longer[i] == y);
    }
    assert(longer[s.len() as int] == x);
}

/// One more entry of a list is either among the earlier ones or the last.
pub proof fn lemma_take(s: Seq<i64>, k: int)
    requires
        0 <= k < s.len(),
    ensures
        forall|y: i64| #[trigger] s.take(k + 1).contains(y) <==> s.take(k).contains(y) || y == s[k],
{
    assert(s.take(k + 1) =~= s.take(k).push(s[k]));
    assert forall|y: i64| #[trigger] s.take(k + 1).contains(y) <==> s.take(k).contains(y) || y == s[k] by {
        lemma_push(s.take(k), s[k], y);
    }
}

/// What the operations of the group put out, in order.
pub open spec fn outputs(p: Problem, group: Seq<OpId>) -> Seq<TensorId> {
    memory::outputs_of(group, p.ops@, group.len())
}

/// The operations exist, and what they put out are tensors of measurable size.
pub open spec fn outputs_known(p: Problem, group: Seq<OpId>) -> bool {
    &&& forall|i: int| 0 <= i < group.len() ==> (#[trigger] group[i]) < p.ops@.len()
    &&& forall|i: int|
        0 <= i < outputs(p, group).len() ==> (#[trigger] outputs(p, group)[i]) < p.tensors@.len() && arith::fits(
            p.tensors@[outputs(p, group)[i] as int].area(),
        )
}

/// The last of the largest among the first `k` listed tensors.
pub open spec fn last_largest(p: Problem, listed: Seq<TensorId>, k: nat) -> Option<TensorId>
    decreases k,
{
    if k == 0 {
        None
    } else {
        let t = listed[k - 1];
        match last_largest(p, listed, (k - 1) as nat) {
            None => Some(t),
            Some(best) => if p.tensors@[t as int].area() >= p.tensors@[best as int].area() {
                Some(t)
            } else {
                Some(best)
            },
        }
    }
}

/// Finds the last of the largest listed tensors.
pub fn find_last_largest(problem: &Problem, listed: &Vec<TensorId>) -> (best: Option<TensorId>)
    requires
        forall|i: int|
            0 <= i < listed@.len() ==> (#[trigger] listed@[i]) < problem.tensors@.len() && arith::fits(
                problem.tensors@[listed@[i] as int].area(),
            ),
    ensures
        best == last_largest(*problem, listed@, listed@.len()),
        best matches Some(t) ==> listed@.contains(t),
{
    let mut best: Option<TensorId> = None;
    let mut i: usize = 0;
    while i < listed.len()
        invariant
            i <= listed.len(),
            forall|i: int|
                0 <= i < listed@.len() ==> (#[trigger] listed@[i]) < problem.tensors@.len() && arith::fits(
                    problem.tensors@[listed@[i] as int].area(),
                ),
            best == last_largest(*problem, listed@, i as nat),
            best matches Some(t) ==> listed@.contains(t),
        decreases listed.len() - i,
    {
        let t: TensorId = listed[i];
        assert(listed@[i as int] < problem.tensors@.len());
        best = match best {
            None => Some(t),
            Some(old_best) => {
                assert(listed@.contains(old_best));
                let j = Ghost(choose|j: int| 0 <= j < listed@.len() && listed@[j] == old_best);
                assert(listed@[j@] < problem.tensors@.len());
                if problem.tensors[t].size() >= problem.tensors[old_best].size() {
                    Some(t)
                } else {
                    Some(old_best)
                }
            },
        };
        i = i + 1;
    }
    best
}

} // verus!
