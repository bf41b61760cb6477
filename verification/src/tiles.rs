//! Cutting an order of operations into consecutive tiles.
use vstd::prelude::*;

verus! {

/// How many tiles of `size` entries `len` entries make. A remainder shorter than
/// `keep` joins the last tile, unless it would be the only one.
pub open spec fn tile_count(len: int, size: int, keep: int) -> int {
    if len == 0 {
        0
    } else if len % size == 0 {
        len / size
    } else if len / size == 0 {
        1
    } else if len % size < keep {
        len / size
    } else {
        len / size + 1
    }
}

/// Where tile `i` ends; the last one takes all that is left.
pub open spec fn tile_end(len: int, size: int, keep: int, i: int) -> int {
    if i == tile_count(len, size, keep) - 1 {
        len
    } else {
        (i + 1) * size
    }
}

/// The entries of tile `i`.
pub open spec fn tile(order: Seq<usize>, size: int, keep: int, i: int) -> Seq<usize> {
    order.subrange(i * size, tile_end(order.len() as int, size, keep, i))
}

/// `tiles` is the order cut into its tiles.
pub open spec fn is_cut(tiles: Seq<Vec<usize>>, order: Seq<usize>, size: int, keep: int) -> bool {
    &&& tiles.len() == tile_count(order.len() as int, size, keep)
    &&& forall|i: int| 0 <= i < tiles.len() ==> (#[trigger] tiles[i])@ == tile(order, size, keep, i)
}

/// The first `k` tiles, one after the other.
pub open spec fn joined(tiles: Seq<Vec<usize>>, k: nat) -> Seq<usize>
    decreases k,
{
    if k == 0 {
        Seq::empty()
    } else {
        joined(tiles, (k - 1) as nat) + tiles[k - 1]@
    }
}

proof fn lemma_quotient_step(len: int, size: int, k: int)
    requires
        size > 0,
        k >= 0,
        k * size <= len,
        len < (k + 1) * size,
    ensures
        len / size == k,
        len % size == len - k * size,
{
    assert(len / size == k && len % size == len - k * size) by (nonlinear_arith)
        requires
            size > 0,
            k >= 0,
            k * size <= len,
            len < (k + 1) * size,
    ;
}

/// A tile lies within the order, starts where the one before it ends, and is not empty.
pub proof fn lemma_tile_bounds(len: int, size: int, keep: int, i: int)
    requires
        len >= 0,
        size > 0,
        0 <= i < tile_count(len, size, keep),
    ensures
        0 <= i * size < tile_end(len, size, keep, i) <= len,
        i > 0 ==> tile_end(len, size, keep, i - 1) == i * size,
{
    let q = len / size;
    assert(len == q * size + len % size && 0 <= len % size < size) by (nonlinear_arith)
        requires
            size > 0,
            q == len / size,
    ;
    assert(0 <= i * size) by (nonlinear_arith)
        requires
            i >= 0,
            size > 0,
    ;
    let count = tile_count(len, size, keep);
    assert(count <= q || (count == q + 1 && len % size > 0));
    if i < q {
        assert((i + 1) * size <= q * size) by (nonlinear_arith)
            requires
                i < q,
                size > 0,
        ;
        assert(i * size < (i + 1) * size) by (nonlinear_arith)
            requires
                size > 0,
        ;
    } else {
        assert(i == q);
    }
}

/// The tiles one after the other are the order.
pub proof fn tiles_make_up_order(tiles: Seq<Vec<usize>>, order: Seq<usize>, size: int, keep: int)
    requires
        size > 0,
        is_cut(tiles, order, size, keep),
    ensures
        joined(tiles, tiles.len()) == order,
{
    if tiles.len() > 0 {
        lemma_joined_prefix(tiles, order, size, keep, tiles.len());
    } else {
        let len = order.len() as int;
        let q = len / size;
        assert(len == q * size + len % size) by (nonlinear_arith)
            requires
                size > 0,
                q == len / size,
        ;
        assert(q == 0 ==> q * size == 0) by (nonlinear_arith);
        assert(order =~= Seq::empty());
    }
}

proof fn lemma_joined_prefix(tiles: Seq<Vec<usize>>, order: Seq<usize>, size: int, keep: int, k: nat)
    requires
        size > 0,
        is_cut(tiles, order, size, keep),
        0 < k <= tiles.len(),
    ensures
        joined(tiles, k) == order.take(tile_end(order.len() as int, size, keep, k - 1)),
        tile_end(order.len() as int, size, keep, k - 1) <= order.len(),
        k == tiles.len() ==> joined(tiles, k) == order,
    decreases k,
{
    let len = order.len() as int;
    lemma_tile_bounds(len, size, keep, k - 1);
    let end = tile_end(len, size, keep, k - 1);
    if k == 1 {
        assert(joined(tiles, 0) =~= Seq::<usize>::empty());
        assert(0 * size == 0);
        assert(joined(tiles, k) =~= order.take(end));
    } else {
        lemma_joined_prefix(tiles, order, size, keep, (k - 1) as nat);
        assert(joined(tiles, k) =~= order.take(end));
    }
    if k == tiles.len() {
        assert(order.take(end) =~= order);
    }
}

/// Different tiles of a list without repetition have nothing in common.
pub proof fn lemma_tiles_disjoint(tiles: Seq<Vec<usize>>, order: Seq<usize>, size: int, keep: int, i: int, j: int, v: usize)
    requires
        size > 0,
        is_cut(tiles, order, size, keep),
        order.no_duplicates(),
        0 <= i < tiles.len(),
        0 <= j < tiles.len(),
        tiles[i]@.contains(v),
        tiles[j]@.contains(v),
    ensures
        i == j,
        order.contains(v),
{
    let len = order.len() as int;
    lemma_tile_bounds(len, size, keep, i);
    lemma_tile_bounds(len, size, keep, j);
    let a = choose|a: int| 0 <= a < tiles[i]@.len() && tiles[i]@[a] == v;
    let b = choose|b: int| 0 <= b < tiles[j]@.len() && tiles[j]@[b] == v;
    assert(order[i * size + a] == v);
    assert(order[j * size + b] == v);
    if i < j {
        assert((i + 1) * size <= j * size) by (nonlinear_arith)
            requires
                i < j,
                size > 0,
        ;
    }
    if j < i {
        assert((j + 1) * size <= i * size) by (nonlinear_arith)
            requires
                j < i,
                size > 0,
        ;
    }
}

/// Tile `k` holds `size` entries among the first `upto`, at its place.
spec fn is_full_tile(tiles: Seq<Vec<usize>>, q: Seq<usize>, size: int, upto: int, k: int) -> bool {
    &&& 0 <= k * size
    &&& (k + 1) * size <= upto
    &&& tiles[k]@ == q.subrange(k * size, (k + 1) * size)
}

/// Cuts the order into tiles of `size` entries; a remainder shorter than `keep` joins the last tile.
pub fn cut_tiles(order: &Vec<usize>, size: usize, keep: usize) -> (tiles: Vec<Vec<usize>>)
    requires
        size > 0 || order.len() == 0,
    ensures
        is_cut(tiles@, order@, size as int, keep as int),
{
    let ghost q = order@;
    let ghost len = q.len() as int;
    let mut tiles: Vec<Vec<usize>> = Vec::new();
    let mut current: Vec<usize> = Vec::new();
    let mut i: usize = 0;
    proof {
        assert(0 * size == 0);
    }
    while i < order.len()
        invariant
            i <= order.len(),
            q == order@,
            len == q.len(),
            size > 0 || order.len() == 0,
            size == 0 ==> tiles.len() == 0 && current.len() == 0,
            size > 0 ==> current.len() < size,
            tiles.len() * size + current.len() == i,
            current@ == q.subrange(tiles.len() * size, i as int),
            forall|k: int| 0 <= k < tiles.len() ==> #[trigger] is_full_tile(tiles@, q, size as int, i as int, k),
        decreases order.len() - i,
    {
        current.push(order[i]);
        let ghost done = tiles.len() as int;
        assert(current@ =~= q.subrange(done * size, i + 1));
        assert((done + 1) * size == done * size + size) by (nonlinear_arith);
        assert(0 <= done * size) by (nonlinear_arith)
            requires
                done >= 0,
                size >= 0,
        ;
        if current.len() >= size {
            let ghost before = tiles@;
            assert(done * size + size == i + 1);
            tiles.push(current);
            current = Vec::new();
            assert forall|k: int| 0 <= k < tiles.len() implies #[trigger] is_full_tile(
                tiles@,
                q,
                size as int,
                i + 1,
                k,
            ) by {
                if k < done {
                    assert(is_full_tile(before, q, size as int, i as int, k));
                    assert(tiles@[k] == before[k]);
                }
            }
            assert(q.subrange((done + 1) * size, i + 1) =~= Seq::<usize>::empty());
        } else {
            assert forall|k: int| 0 <= k < tiles.len() implies #[trigger] is_full_tile(
                tiles@,
                q,
                size as int,
                i + 1,
                k,
            ) by {
                assert(is_full_tile(tiles@, q, size as int, i as int, k));
            }
        }
        i = i + 1;
    }
    let ghost done = tiles.len() as int;
    let ghost rest = current.len() as int;
    let ghost full = tiles@;
    proof {
        if size > 0 {
            assert((done + 1) * size == done * size + size) by (nonlinear_arith);
            lemma_quotient_step(len, size as int, done);
        }
    }
    if current.len() > 0 {
        if tiles.len() == 0 || current.len() >= keep {
            tiles.push(current);
        } else {
            let last: usize = tiles.len() - 1;
            assert(is_full_tile(full, q, size as int, len, last as int));
            tiles[last].append(&mut current);
            proof {
                assert((done - 1 + 1) * size == done * size);
                assert(0 <= (done - 1) * size && (done - 1) * size <= done * size) by (nonlinear_arith)
                    requires
                        done >= 1,
                        size >= 0,
                ;
                assert(tiles@[last as int]@ =~= q.subrange((done - 1) * size, len));
            }
        }
    }
    proof {
        if len > 0 {
            assert forall|k: int| 0 <= k < tiles.len() implies (#[trigger] tiles@[k])@ == tile(
                q,
                size as int,
                keep as int,
                k,
            ) by {
                if k < done - 1 || rest == 0 || done < tiles.len() {
                    if k < done {
                        assert(is_full_tile(full, q, size as int, len, k));
                        assert(tiles@[k] == full[k]);
                    }
                }
                if k == tiles.len() - 1 && rest == 0 {
                    assert((k + 1) * size == len);
                }
            }
        }
    }
    tiles
}

} // verus!
