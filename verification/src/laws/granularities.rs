//! Which granularity a group gets, and what halving, splitting and writing one out do.
use vstd::prelude::*;
use crate::{arith, memory, models};
use crate::models::{Granularity, GranularityOutput, OpId, OpType, Problem, TensorMeta};

verus! {

/// Halving a side of at least 2 leaves half of it, rounded down; a side of 1 or less
/// becomes 1. The split stays.
pub proof fn halving_takes_half(g: Granularity)
    ensures
        g.width >= 2 ==> 2 * g.halved().width <= g.width < 2 * g.halved().width + 2,
        g.height >= 2 ==> 2 * g.halved().height <= g.height < 2 * g.halved().height + 2,
        g.width < 2 ==> g.halved().width == 1,
        g.height < 2 ==> g.halved().height == 1,
        g.halved().depth == g.depth,
{
}

/// Splitting a reduction leaves the tile as it is.
pub proof fn splitting_keeps_the_tile(g: Granularity, k: i64)
    ensures
        g.split(k as int).width == g.width,
        g.split(k as int).height == g.height,
        g.split(k as int).depth == k,
{
}

/// A granularity is written out with its split only if that is more than 1, and reads
/// back as it was; splits below 1 read back as 1.
pub proof fn granularities_are_read_back(g: Granularity, out: GranularityOutput)
    requires
        out == models::written(g),
    ensures
        out.w == g.width,
        out.h == g.height,
        g.depth > 1 <==> out.k is Some,
        g.depth > 1 ==> out.k == Some(g.depth),
        g.depth >= 1 ==> models::read_back(out) == g,
        g.depth < 1 ==> models::read_back(out).depth == 1,
{
}

/// The tile after `k` halvings: each side is the length divided by 2 so many times,
/// but at least 1.
pub proof fn halvings_divide(g: Granularity, k: nat)
    requires
        g.width >= 1,
        g.height >= 1,
    ensures
        ({
            let many = memory::halved_times(g, k);
            let scale = vstd::arithmetic::power2::pow2(k) as int;
            &&& scale > 0
            &&& many.depth == g.depth
            &&& many.width >= 1 && many.height >= 1
            &&& g.width >= scale ==> many.width == g.width as int / scale
            &&& g.width < scale ==> many.width == 1
            &&& g.height >= scale ==> many.height == g.height as int / scale
            &&& g.height < scale ==> many.height == 1
        }),
    decreases k,
{
    vstd::arithmetic::power2::lemma_pow2_pos(k);
    if k == 0 {
        vstd::arithmetic::power2::lemma2_to64();
    } else {
        halvings_divide(g, (k - 1) as nat);
        vstd::arithmetic::power2::lemma_pow2_pos((k - 1) as nat);
        vstd::arithmetic::power2::lemma_pow2_unfold(k);
        let s = vstd::arithmetic::power2::pow2((k - 1) as nat) as int;
        lemma_half_of_quotient(g.width as int, s);
        lemma_half_of_quotient(g.height as int, s);
    }
}

proof fn lemma_half_of_quotient(w: int, s: int)
    requires
        w >= 1,
        s > 0,
    ensures
        (w / s) / 2 == w / (2 * s),
        w >= 2 * s ==> w >= s && (w / s) / 2 >= 1,
        s <= w < 2 * s ==> w / s == 1,
{
    vstd::arithmetic::div_mod::lemma_div_denominator(w, s, 2);
    assert(s * 2 == 2 * s);
    if w >= 2 * s {
        assert(w / (2 * s) >= 1) by (nonlinear_arith)
            requires
                w >= 2 * s,
                s > 0,
        ;
    }
    if s <= w < 2 * s {
        assert(w / s == 1) by (nonlinear_arith)
            requires
                s <= w < 2 * s,
        ;
    }
}

/// The group holds a matrix product.
spec fn multiplies(group: Seq<OpId>, p: Problem) -> bool {
    exists|i: int| 0 <= i < group.len() && p.ops@[(#[trigger] group[i]) as int].op_type == OpType::MatMul
}

proof fn lemma_multiplies(group: Seq<OpId>, p: Problem)
    ensures
        multiplies(group, p) == memory::has_matmul(group, p.ops@),
{
    if multiplies(group, p) {
        let i = choose|i: int|
            0 <= i < group.len() && p.ops@[(#[trigger] group[i]) as int].op_type == OpType::MatMul;
        assert(p.ops@[group[i] as int].op_type == OpType::MatMul);
    }
    if memory::has_matmul(group, p.ops@) {
        let i = choose|i: int|
            0 <= i < group.len() && (#[trigger] p.ops@[group[i] as int]).op_type == OpType::MatMul;
        assert(group[i] == group[i]);
    }
}

/// The granularity found for a group. With the native one it fits or that is passed over.
/// A group with a matrix product next gets the least of the splits into 2, 4, 8, 16 or 32
/// passes with which it fits, then one of a half tile into up to 16. Whatever is left is
/// halved, as rarely as possible and up to eight times.
pub proof fn the_best_granularity_is_found(g: Granularity, group: Seq<OpId>, p: Problem, meta: Seq<TensorMeta>, d: i64)
    requires
        g == memory::fitting_granularity(group, p, meta),
    ensures
        ({
            let native = p.native_granularity;
            let matmul = exists|i: int|
                0 <= i < group.len() && p.ops@[(#[trigger] group[i]) as int].op_type == OpType::MatMul;
            let passes = d == 2 || d == 4 || d == 8 || d == 16 || d == 32;
            let split = Granularity { width: native.width, height: native.height, depth: d };
            let half = memory::halved_times(native, 1);
            let half_split = Granularity { width: half.width, height: half.height, depth: d };
            &&& memory::fits_memory(group, p, native, meta) ==> g == native
            // A split of the native tile that is enough.
            &&& matmul && passes && memory::fits_memory(group, p, split, meta) ==> g == native || (g.width
                == native.width && g.height == native.height && 2 <= g.depth <= d) && memory::fits_memory(group, p, g, meta)
            // A split of the half tile that is enough.
            &&& matmul && passes && d <= 16 && memory::fits_memory(group, p, half_split, meta) ==> memory::fits_memory(
                group,
                p,
                g,
                meta,
            ) && (g == native || (g.width == native.width && g.height == native.height && 2 <= g.depth <= 32) || (g.width
                == half.width && g.height == half.height && 2 <= g.depth <= d))
            // Nothing else is ever chosen.
            &&& g == native || (matmul && g.width == native.width && g.height == native.height && (g.depth == 2 || g.depth
                == 4 || g.depth == 8 || g.depth == 16 || g.depth == 32)) || (matmul && g.width == half.width && g.height
                == half.height && (g.depth == 2 || g.depth == 4 || g.depth == 8 || g.depth == 16)) || exists|k: nat|
                1 <= k <= 8 && g == #[trigger] memory::halved_times(native, k)
        }),
        forall|k: nat|
            #![trigger memory::halved_times(p.native_granularity, k)]
            1 <= k <= 8 && memory::fits_memory(group, p, memory::halved_times(p.native_granularity, k), meta)
                ==> memory::fits_memory(group, p, g, meta),
        !memory::fits_memory(group, p, g, meta) ==> g == memory::halved_times(p.native_granularity, 8),
{
    let native = p.native_granularity;
    let matmul = memory::has_matmul(group, p.ops@);
    let list = memory::attempts(native, matmul);
    lemma_multiplies(group, p);
    memory::fitting_granularity_fits(group, p, meta);
    lemma_attempts(native, matmul);
    let half = memory::halved_times(native, 1);
    reveal_with_fuel(memory::halved_times, 2);
    assert(half == native.halved());
    if exists|i: int| #[trigger] memory::first_fitting(list, i, group, p, meta) {
        let i = choose|i: int| #[trigger] memory::first_fitting(list, i, group, p, meta);
        assert(g == list[i]);
        assert forall|j: int| 0 <= j < list.len() && memory::fits_memory(group, p, #[trigger] list[j], meta) implies i <= j by {}
        lemma_places(native, matmul, i, d);
        let split = native.split(d as int);
        let half_split = half.split(d as int);
        if matmul && (d == 2 || d == 4 || d == 8 || d == 16 || d == 32) && memory::fits_memory(group, p, split, meta) {
            let at: int = if d == 2 { 1 } else if d == 4 { 2 } else if d == 8 { 3 } else if d == 16 { 4 } else { 5 };
            assert(list[at] == split);
            assert(i <= at);
        }
        if matmul && (d == 2 || d == 4 || d == 8 || d == 16) && memory::fits_memory(group, p, half_split, meta) {
            let at: int = if d == 2 { 6 } else if d == 4 { 7 } else if d == 8 { 8 } else { 9 };
            assert(list[at] == half_split);
            assert(i <= at);
        }
    } else {
        assert forall|j: int| 0 <= j < list.len() implies !memory::fits_memory(group, p, #[trigger] list[j], meta) by {
            lemma_no_first(list, group, p, meta, j);
        }
        let split = native.split(d as int);
        let half_split = half.split(d as int);
        if matmul && (d == 2 || d == 4 || d == 8 || d == 16 || d == 32) {
            let at: int = if d == 2 { 1 } else if d == 4 { 2 } else if d == 8 { 3 } else if d == 16 { 4 } else { 5 };
            assert(list[at] == split);
        }
        if matmul && (d == 2 || d == 4 || d == 8 || d == 16) {
            let at: int = if d == 2 { 6 } else if d == 4 { 7 } else if d == 8 { 8 } else { 9 };
            assert(list[at] == half_split);
        }
    }
    assert forall|k: nat|
        #![trigger memory::halved_times(p.native_granularity, k)]
        1 <= k <= 8 && memory::fits_memory(group, p, memory::halved_times(p.native_granularity, k), meta) implies memory::fits_memory(
        group,
        p,
        g,
        meta,
    ) by {
        let at: int = if matmul { 9 + k as int } else { k as int };
        assert(list[at] == memory::halved_times(native, k));
    }
}

proof fn lemma_no_first(list: Seq<Granularity>, group: Seq<OpId>, p: Problem, meta: Seq<TensorMeta>, j: int)
    requires
        0 <= j < list.len(),
        forall|i: int| !#[trigger] memory::first_fitting(list, i, group, p, meta),
    ensures
        !memory::fits_memory(group, p, list[j], meta),
    decreases j,
{
    assert forall|k: int| 0 <= k < j implies !memory::fits_memory(group, p, #[trigger] list[k], meta) by {
        lemma_no_first(list, group, p, meta, k);
    }
    assert(!memory::first_fitting(list, j, group, p, meta));
}

proof fn lemma_attempts(native: Granularity, matmul: bool)
    ensures
        ({
            let list = memory::attempts(native, matmul);
            let half = native.halved();
            &&& list.len() == if matmul { 18nat } else { 9nat }
            &&& list[0] == native
            &&& matmul ==> list[1] == native.split(2) && list[2] == native.split(4) && list[3] == native.split(8)
                && list[4] == native.split(16) && list[5] == native.split(32) && list[6] == half.split(2) && list[7]
                == half.split(4) && list[8] == half.split(8) && list[9] == half.split(16)
            &&& forall|k: nat|
                #![trigger memory::halved_times(native, k)]
                1 <= k <= 8 ==> list[if matmul { 9 + k as int } else { k as int }] == memory::halved_times(native, k)
        }),
{
}

proof fn lemma_places(native: Granularity, matmul: bool, i: int, d: i64)
    requires
        0 <= i < memory::attempts(native, matmul).len(),
    ensures
        ({
            let g = memory::attempts(native, matmul)[i];
            let half = native.halved();
            &&& i == 0 ==> g == native
            &&& matmul && 1 <= i <= 5 ==> g.width == native.width && g.height == native.height && g.depth == (if i == 1 {
                2i64
            } else if i == 2 {
                4
            } else if i == 3 {
                8
            } else if i == 4 {
                16
            } else {
                32
            })
            &&& matmul && 6 <= i <= 9 ==> g.width == half.width && g.height == half.height && g.depth == (if i == 6 {
                2i64
            } else if i == 7 {
                4
            } else if i == 8 {
                8
            } else {
                16
            })
            &&& (if matmul { i >= 10 } else { i >= 1 }) ==> exists|k: nat|
                1 <= k <= 8 && g == #[trigger] memory::halved_times(native, k)
        }),
{
    let g = memory::attempts(native, matmul)[i];
    lemma_attempts(native, matmul);
    if matmul && i >= 10 {
        assert(g == memory::halved_times(native, (i - 9) as nat));
    }
    if !matmul && i >= 1 {
        assert(g == memory::halved_times(native, i as nat));
    }
}

/// The split found for a group with a matrix product: the granularity as it is where
/// that is enough, else the least number of passes among 2, 4, 8, 16 and 32. There is
/// none only if none of them is enough, or without a matrix product.
pub proof fn the_least_split_is_found(
    found: Option<Granularity>,
    base: Granularity,
    group: Seq<OpId>,
    p: Problem,
    meta: Seq<TensorMeta>,
    d: i64,
)
    requires
        match found {
            Some(g) => memory::has_matmul(group, p.ops@) && exists|i: int| #[trigger]
                memory::first_fitting(memory::split_attempts(base), i, group, p, meta) && g == memory::split_attempts(
                    base,
                )[i],
            None => !memory::has_matmul(group, p.ops@) || forall|j: int|
                0 <= j < 6 ==> !memory::fits_memory(group, p, #[trigger] memory::split_attempts(base)[j], meta),
        },
    ensures
        ({
            let matmul = exists|i: int|
                0 <= i < group.len() && p.ops@[(#[trigger] group[i]) as int].op_type == OpType::MatMul;
            let passes = d == 2 || d == 4 || d == 8 || d == 16 || d == 32;
            let split = Granularity { width: base.width, height: base.height, depth: d };
            &&& !matmul ==> found is None
            &&& found matches Some(g) ==> memory::fits_memory(group, p, g, meta) && g.width == base.width && g.height
                == base.height && (g == base || g.depth == 2 || g.depth == 4 || g.depth == 8 || g.depth == 16 || g.depth
                == 32)
            &&& matmul && memory::fits_memory(group, p, base, meta) ==> found == Some(base)
            &&& matmul && passes && memory::fits_memory(group, p, split, meta) ==> found is Some && (found->0 == base
                || 2 <= found->0.depth <= d)
        }),
{
    lemma_multiplies(group, p);
    let list = memory::split_attempts(base);
    let split = Granularity { width: base.width, height: base.height, depth: d };
    let at: int = if d == 2 { 1 } else if d == 4 { 2 } else if d == 8 { 3 } else if d == 16 { 4 } else { 5 };
    assert(list[0] == base);
    if d == 2 || d == 4 || d == 8 || d == 16 || d == 32 {
        assert(list[at] == split);
    }
    if found is Some {
        let i = choose|i: int| #[trigger]
            memory::first_fitting(memory::split_attempts(base), i, group, p, meta) && found->0 == list[i];
        assert(memory::first_fitting(list, i, group, p, meta));
        if memory::fits_memory(group, p, list[0], meta) {
            assert(i == 0);
        }
        if (d == 2 || d == 4 || d == 8 || d == 16 || d == 32) && memory::fits_memory(group, p, list[at], meta) {
            assert(i <= at);
        }
    }
}

/// A group that fits with no granularity keeps the native one; else it gets one with
/// which it fits.
pub proof fn groups_keep_the_native_granularity(g: Granularity, group: Seq<OpId>, p: Problem, meta: Seq<TensorMeta>)
    requires
        g == memory::group_granularity(group, p, meta),
    ensures
        memory::fits_memory(group, p, memory::fitting_granularity(group, p, meta), meta) ==> g
            == memory::fitting_granularity(group, p, meta) && memory::fits_memory(group, p, g, meta),
        !memory::fits_memory(group, p, g, meta) ==> g == p.native_granularity,
        memory::fits_memory(group, p, p.native_granularity, meta) ==> g == p.native_granularity,
{
    memory::fitting_granularity_fits(group, p, meta);
}

/// What is left for tensors that stay: nothing unless the group and a twentieth of fast
/// memory leave room, else exactly that room.
pub proof fn room_is_left_beside_a_margin(
    available: i64,
    group: Seq<OpId>,
    p: Problem,
    g: Granularity,
    meta: Seq<TensorMeta>,
)
    requires
        available == arith::greatest(memory::capacity_left(group, p, g, meta), 0),
        p.fast_memory_capacity >= 0,
    ensures
        ({
            let takes = memory::footprint(group, p, g, meta);
            let margin = p.fast_memory_capacity as int / 20;
            &&& available >= 0
            &&& available > 0 <==> takes + margin < p.fast_memory_capacity
            &&& available > 0 ==> takes + margin + available == p.fast_memory_capacity
        }),
{
}

} // verus!
