//! Lifetimes of tensors as bit sets over the positions of the run order.
//!
//! Two tensors can share a slot of fast memory when their bit sets are disjoint.
use bit_set::BitSet;
use vstd::prelude::*;
use crate::{arith, components, dataflow, graph};
use crate::models::{OpId, Problem, Tensor, TensorId, TensorMeta};

verus! {

/// The bit set of the `bit_set` crate. Nothing of its inside is known here.
#[verifier::external_type_specification]
#[verifier::external_body]
#[verifier::reject_recursive_types(B)]
pub struct ExBitSet<B>(BitSet<B>);

/// The numbers in a bit set.
pub uninterp spec fn members(set: BitSet) -> Set<usize>;

/// `BitSet::new`: a set without members.
#[verifier::external_body]
fn empty_set() -> (set: BitSet)
    ensures
        members(set) == Set::<usize>::empty(),
{
    BitSet::new()
}

/// `BitSet::with_capacity`: a set without members. The capacity only saves later growth.
#[verifier::external_body]
fn set_with_capacity(nbits: usize) -> (set: BitSet)
    ensures
        members(set) == Set::<usize>::empty(),
{
    BitSet::with_capacity(nbits)
}

/// `BitSet::insert`: adds a number, and tells whether it is new. Growing the set to
/// hold `usize::MAX` overflows, so that number is excluded.
#[verifier::external_body]
fn insert_into(set: &mut BitSet, value: usize) -> (new: bool)
    requires
        value < usize::MAX,
    ensures
        members(*final(set)) == members(*old(set)).insert(value),
        new == !members(*old(set)).contains(value),
{
    set.insert(value)
}

/// `BitSet::contains`: tells whether a number is a member.
#[verifier::external_body]
fn is_member(set: &BitSet, value: usize) -> (yes: bool)
    ensures
        yes == members(*set).contains(value),
{
    set.contains(value)
}

/// `BitSet::is_disjoint`: tells whether two sets have no member in common.
#[verifier::external_body]
fn are_disjoint(a: &BitSet, b: &BitSet) -> (yes: bool)
    ensures
        yes == members(*a).disjoint(members(*b)),
{
    a.is_disjoint(b)
}

/// `BitSet::len`: the number of members.
#[verifier::external_body]
fn member_count(set: &BitSet) -> (count: usize)
    ensures
        count == members(*set).len(),
{
    set.len()
}

/// `BitSet::iter`: hands out the members, each once, in ascending order.
#[verifier::external_body]
fn member_list(set: &BitSet) -> (list: Vec<usize>)
    ensures
        components::ascending(list@),
        forall|x: usize| #[trigger] list@.contains(x) <==> members(*set).contains(x),
{
    set.iter().collect()
}

/// `BitSet::clone`: a set with the same members.
#[verifier::external_body]
fn copy_members(set: &BitSet) -> (copy: BitSet)
    ensures
        members(copy) == members(*set),
{
    set.clone()
}

/// Copies each of the sets.
fn copy_all(sets: &Vec<BitSet>) -> (copies: Vec<BitSet>)
    ensures
        copies@.len() == sets@.len(),
        forall|i: int| 0 <= i < sets@.len() ==> members(#[trigger] copies@[i]) == members(sets@[i]),
{
    let mut copies: Vec<BitSet> = Vec::new();
    let mut i: usize = 0;
    while i < sets.len()
        invariant
            i <= sets@.len(),
            copies@.len() == i,
            forall|j: int| 0 <= j < i ==> members(#[trigger] copies@[j]) == members(sets@[j]),
        decreases sets@.len() - i,
    {
        copies.push(copy_members(&sets[i]));
        i = i + 1;
    }
    copies
}

/// The place of an operation in the order; operations that are not in it come after all others.
pub open spec fn place_in(order: Seq<OpId>, op: OpId) -> int {
    if order.contains(op) {
        order.index_of(op)
    } else {
        order.len() as int
    }
}

/// The latest place among the first `k` consumers that are operations of the graph.
pub open spec fn latest_place(order: Seq<OpId>, consumers: Seq<OpId>, n: nat, k: nat) -> Option<int>
    decreases k,
{
    if k == 0 {
        None
    } else {
        let rest = latest_place(order, consumers, n, (k - 1) as nat);
        if consumers[k - 1] < n {
            let place = place_in(order, consumers[k - 1]);
            match rest {
                Some(other) => Some(arith::greatest(other, place)),
                None => Some(place),
            }
        } else {
            rest
        }
    }
}

/// Where a tensor is produced; graph inputs are there from the start.
pub open spec fn birth(m: TensorMeta, order: Seq<OpId>, n: nat) -> int {
    match m.producer {
        Some(p) => if p < n {
            place_in(order, p)
        } else {
            0
        },
        None => 0,
    }
}

/// Where a tensor is consumed last; without consumers, where it is produced.
pub open spec fn death(m: TensorMeta, order: Seq<OpId>, n: nat) -> int {
    match latest_place(order, m.consumers@, n, m.consumers@.len()) {
        Some(place) => place,
        None => birth(m, order, n),
    }
}

/// The places at which a tensor is live.
pub open spec fn lifespan(m: TensorMeta, order: Seq<OpId>, n: nat) -> Set<usize> {
    Set::new(|place: usize| birth(m, order, n) <= place <= death(m, order, n) && place < n)
}

/// The lifetimes of all tensors, as bit sets.
#[derive(Debug)]
pub struct BitvecLiveness {
    /// For each tensor the places at which it is live.
    live: Vec<BitSet>,
    num_ops: usize,
    num_tensors: usize,
    /// For each place the tensors that are live there.
    live_at_op: Vec<BitSet>,
    /// What is live where nothing runs.
    nothing: BitSet,
}

impl BitvecLiveness {
    /// The number of tensors.
    pub closed spec fn tensor_total(&self) -> nat {
        self.num_tensors as nat
    }

    /// The number of places.
    pub closed spec fn op_total(&self) -> nat {
        self.num_ops as nat
    }

    /// The places at which a tensor is live.
    pub closed spec fn span(&self, t: TensorId) -> Set<usize> {
        members(self.live@[t as int])
    }

    /// The tensor is live at the place.
    pub open spec fn alive(&self, t: TensorId, place: usize) -> bool {
        t < self.tensor_total() && place < self.op_total() && self.span(t).contains(place)
    }

    /// The tensors are live at a common place.
    pub open spec fn meet(&self, a: TensorId, b: TensorId) -> bool {
        &&& a < self.tensor_total()
        &&& b < self.tensor_total()
        &&& !self.span(a).disjoint(self.span(b))
    }

    /// Both ways of looking at the lifetimes agree.
    #[verifier::type_invariant]
    spec fn consistent(self) -> bool {
        &&& self.live@.len() == self.num_tensors
        &&& self.live_at_op@.len() == self.num_ops
        &&& forall|t: int, place: usize|
            0 <= t < self.live@.len() && #[trigger] members(self.live@[t]).contains(place) ==> place < self.num_ops
        &&& forall|place: int, t: usize|
            0 <= place < self.live_at_op@.len() ==> (#[trigger] members(self.live_at_op@[place]).contains(t) <==> t
                < self.num_tensors && members(self.live@[t as int]).contains(place as usize))
        &&& members(self.nothing) == Set::<usize>::empty()
    }
}

impl Clone for BitvecLiveness {
    fn clone(&self) -> (copy: Self)
        ensures
            copy.tensor_total() == self.tensor_total(),
            copy.op_total() == self.op_total(),
            forall|t: TensorId| t < self.tensor_total() ==> #[trigger] copy.span(t) == self.span(t),
    {
        proof {
            use_type_invariant(self);
        }
        let live: Vec<BitSet> = copy_all(&self.live);
        let live_at_op: Vec<BitSet> = copy_all(&self.live_at_op);
        let nothing: BitSet = copy_members(&self.nothing);
        proof {
            assert forall|t: int, place: usize|
                0 <= t < live@.len() && #[trigger] members(live@[t]).contains(place) implies place < self.num_ops by {
                assert(members(self.live@[t]).contains(place));
            }
            assert forall|place: int, t: usize| 0 <= place < live_at_op@.len() implies (#[trigger] members(
                live_at_op@[place],
            ).contains(t) <==> t < self.num_tensors && members(live@[t as int]).contains(place as usize)) by {
                assert(members(self.live_at_op@[place]).contains(t) <==> t < self.num_tensors && members(
                    self.live@[t as int],
                ).contains(place as usize));
            }
        }
        BitvecLiveness { live, num_ops: self.num_ops, num_tensors: self.num_tensors, live_at_op, nothing }
    }
}

/// Finds the place of each operation.
fn compute_op_positions(problem: &Problem, tensor_meta: &[TensorMeta]) -> (places: Vec<usize>)
    ensures
        places.len() == problem.ops.len(),
        forall|op: OpId|
            op < problem.ops.len() ==> #[trigger] places@[op as int] == place_in(
                dataflow::run_order(problem.ops@, tensor_meta@),
                op,
            ),
        forall|op: OpId| op < problem.ops.len() ==> #[trigger] places@[op as int] <= problem.ops.len(),
{
    let n: usize = problem.ops.len();
    let order: Vec<OpId> = dataflow::order_ops(problem, tensor_meta);
    let ghost q = order@;
    let count: usize = order.len();
    let mut places: Vec<usize> = Vec::new();
    let mut i: usize = 0;
    while i < n
        invariant
            i <= n,
            places.len() == i,
            forall|j: int| 0 <= j < i ==> places@[j] == count,
        decreases n - i,
    {
        places.push(count);
        i = i + 1;
    }
    let mut k: usize = 0;
    while k < order.len()
        invariant
            k <= order.len(),
            n == problem.ops.len(),
            q == order@,
            count == order.len(),
            count <= n,
            places.len() == n,
            q.no_duplicates(),
            forall|i: int| 0 <= i < q.len() ==> #[trigger] q[i] < n,
            forall|op: OpId|
                op < n ==> #[trigger] places@[op as int] == if q.take(k as int).contains(op) {
                    place_in(q, op)
                } else {
                    count as int
                },
        decreases order.len() - k,
    {
        let op: OpId = order[k];
        proof {
            crate::models::lemma_take_contains(q, k as int);
            assert(q[k as int] < n);
            q.index_of_first_ensures(op);
            assert(q.contains(q[k as int]));
            let at = q.index_of(op);
            assert(0 <= at < q.len() && q[at] == op);
            assert(at == k);
        }
        places.set(op, k);
        k = k + 1;
    }
    proof {
        assert(q.take(k as int) =~= q);
        assert forall|op: OpId| op < n implies #[trigger] places@[op as int] <= n by {
            if q.contains(op) {
                let at = q.index_of(op);
                assert(0 <= at < q.len());
            }
        }
    }
    places
}

/// Finds where the last consumer of a tensor runs.
fn find_latest(places: &Vec<usize>, m: &TensorMeta, Ghost(order): Ghost<Seq<OpId>>) -> (latest: Option<usize>)
    requires
        forall|op: OpId| op < places.len() ==> #[trigger] places@[op as int] == place_in(order, op),
    ensures
        match latest {
            Some(place) => latest_place(order, m.consumers@, places@.len(), m.consumers@.len()) == Some(place as int),
            None => latest_place(order, m.consumers@, places@.len(), m.consumers@.len()) is None,
        },
{
    let mut latest: Option<usize> = None;
    let mut k: usize = 0;
    while k < m.consumers.len()
        invariant
            k <= m.consumers.len(),
            forall|op: OpId| op < places.len() ==> #[trigger] places@[op as int] == place_in(order, op),
            match latest {
                Some(place) => latest_place(order, m.consumers@, places@.len(), k as nat) == Some(place as int),
                None => latest_place(order, m.consumers@, places@.len(), k as nat) is None,
            },
        decreases m.consumers.len() - k,
    {
        let c: OpId = m.consumers[k];
        if c < places.len() {
            let place: usize = places[c];
            assert(place == place_in(order, c));
            latest = match latest {
                None => Some(place),
                Some(other) => Some(arith::greatest_count(other, place)),
            };
        }
        k = k + 1;
    }
    latest
}

/// Marks the places at which a tensor is live.
fn mark_lifespan(places: &Vec<usize>, m: &TensorMeta, Ghost(order): Ghost<Seq<OpId>>) -> (bits: BitSet)
    requires
        forall|op: OpId| op < places.len() ==> #[trigger] places@[op as int] == place_in(order, op),
    ensures
        members(bits) == lifespan(*m, order, places@.len()),
{
    let n: usize = places.len();
    let mut bits: BitSet = set_with_capacity(n);
    let start: usize = match m.producer {
        Some(p) => {
            if p < n {
                assert(places@[p as int] == place_in(order, p));
                places[p]
            } else {
                0
            }
        },
        None => 0,
    };
    let end: usize = match find_latest(places, m, Ghost(order)) {
        Some(place) => place,
        None => start,
    };
    let mut pos: usize = start;
    while pos <= end && pos < n
        invariant
            start <= pos,
            pos <= n || pos == start,
            pos <= end || pos == start || pos == end + 1,
            n == places.len(),
            start == birth(*m, order, n as nat),
            end == death(*m, order, n as nat),
            forall|x: usize| #[trigger] members(bits).contains(x) <==> start <= x < pos,
        decreases n - pos,
    {
        insert_into(&mut bits, pos);
        pos = pos + 1;
    }
    assert(members(bits) =~= lifespan(*m, order, n as nat));
    bits
}

/// The tensors live at a place.
fn tensors_at(live: &Vec<BitSet>, place: usize) -> (bits: BitSet)
    ensures
        forall|t: usize| #[trigger] members(bits).contains(t) <==> t < live.len() && members(live@[t as int]).contains(place),
{
    let mut bits: BitSet = set_with_capacity(live.len());
    let mut t: usize = 0;
    while t < live.len()
        invariant
            t <= live.len(),
            forall|x: usize| #[trigger]
                members(bits).contains(x) <==> x < t && members(live@[x as int]).contains(place),
        decreases live.len() - t,
    {
        if is_member(&live[t], place) {
            insert_into(&mut bits, t);
        }
        t = t + 1;
    }
    bits
}

/// The tensors below `m` that are live at a place, ascending.
pub open spec fn live_list(l: &BitvecLiveness, place: usize, m: nat) -> Seq<TensorId>
    decreases m,
{
    if m == 0 {
        Seq::empty()
    } else {
        let rest = live_list(l, place, (m - 1) as nat);
        if l.alive((m - 1) as usize, place) {
            rest.push((m - 1) as usize)
        } else {
            rest
        }
    }
}

proof fn lemma_live_list(l: &BitvecLiveness, place: usize, m: nat)
    requires
        m <= usize::MAX,
    ensures
        components::ascending(live_list(l, place, m)),
        forall|t: usize| #[trigger] live_list(l, place, m).contains(t) <==> t < m && l.alive(t, place),
    decreases m,
{
    if m > 0 {
        let rest = live_list(l, place, (m - 1) as nat);
        lemma_live_list(l, place, (m - 1) as nat);
        crate::ids::lemma_push_contains(rest, (m - 1) as usize);
        let all = live_list(l, place, m);
        assert forall|i: int, j: int| 0 <= i < j < all.len() implies all[i] < all[j] by {
            assert(rest.contains(rest[i]));
        }
    }
}

/// Ascending lists with the same entries are equal.
pub proof fn lemma_ascending_lists_equal(a: Seq<usize>, b: Seq<usize>)
    requires
        components::ascending(a),
        components::ascending(b),
        forall|x: usize| #[trigger] a.contains(x) <==> b.contains(x),
    ensures
        a == b,
    decreases a.len(),
{
    if a.len() == 0 {
        if b.len() > 0 {
            assert(b.contains(b[0]));
            assert(a.contains(b[0]));
        }
        assert(a =~= b);
    } else {
        assert(a.contains(a.last()));
        assert(b.contains(a.last()));
        let i = choose|i: int| 0 <= i < b.len() && b[i] == a.last();
        assert(b.contains(b.last()));
        assert(a.contains(b.last()));
        let j = choose|j: int| 0 <= j < a.len() && a[j] == b.last();
        assert(a.last() == b.last());
        let x = a.drop_last();
        let y = b.drop_last();
        assert forall|v: usize| #[trigger] x.contains(v) <==> y.contains(v) by {
            if x.contains(v) {
                let k = choose|k: int| 0 <= k < x.len() && x[k] == v;
                assert(a[k] == v);
                assert(a.contains(v));
                let l = choose|l: int| 0 <= l < b.len() && b[l] == v;
                assert(a[k] < a[a.len() - 1]);
                assert(y[l] == v);
            }
            if y.contains(v) {
                let k = choose|k: int| 0 <= k < y.len() && y[k] == v;
                assert(b[k] == v);
                assert(b.contains(v));
                assert(a.contains(v));
                let l = choose|l: int| 0 <= l < a.len() && a[l] == v;
                assert(b[k] < b[b.len() - 1]);
                assert(x[l] == v);
            }
        }
        lemma_ascending_lists_equal(x, y);
        assert(a =~= x.push(a.last()));
        assert(b =~= y.push(b.last()));
    }
}

/// The sizes of the live tensors at a place that the problem knows.
pub open spec fn live_sizes(l: &BitvecLiveness, place: usize, tensors: Seq<Tensor>) -> Seq<int> {
    let listed = live_list(l, place, l.tensor_total());
    let known = dataflow::below(listed, tensors.len(), listed.len());
    Seq::new(known.len(), |i: int| tensors[known[i] as int].area())
}

/// The memory that is live at a place; nothing is live beyond the last one.
pub open spec fn live_bytes(l: &BitvecLiveness, place: usize, tensors: Seq<Tensor>) -> int {
    if place < l.op_total() {
        arith::sum(live_sizes(l, place, tensors))
    } else {
        0
    }
}

/// The sizes of all tensors and the memory that is live at a place are `i64` numbers.
pub open spec fn bytes_fit(l: &BitvecLiveness, place: usize, tensors: Seq<Tensor>) -> bool {
    &&& forall|t: int| 0 <= t < tensors.len() ==> arith::fits((#[trigger] tensors[t]).area())
    &&& arith::fits(live_bytes(l, place, tensors))
}

impl BitvecLiveness {
    /// Works out the lifetimes of all tensors in the run order.
    pub fn from_problem(problem: &Problem, tensor_meta: &[TensorMeta]) -> (r: Self)
        ensures
            r.op_total() == problem.ops@.len(),
            r.tensor_total() == arith::least(problem.tensors@.len() as int, tensor_meta@.len() as int),
            forall|t: TensorId|
                t < r.tensor_total() ==> #[trigger] r.span(t) == lifespan(
                    tensor_meta@[t as int],
                    dataflow::run_order(problem.ops@, tensor_meta@),
                    problem.ops@.len(),
                ),
    {
        let num_ops: usize = problem.ops.len();
        let num_tensors: usize = arith::least_count(problem.tensors.len(), tensor_meta.len());
        let ghost order = dataflow::run_order(problem.ops@, tensor_meta@);
        let places: Vec<usize> = compute_op_positions(problem, tensor_meta);
        let mut live: Vec<BitSet> = Vec::new();
        let mut t: usize = 0;
        while t < num_tensors
            invariant
                t <= num_tensors,
                num_tensors <= tensor_meta@.len(),
                places.len() == num_ops,
                forall|op: OpId| op < places.len() ==> #[trigger] places@[op as int] == place_in(order, op),
                live.len() == t,
                forall|x: int|
                    0 <= x < t ==> members(#[trigger] live@[x]) == lifespan(tensor_meta@[x], order, num_ops as nat),
            decreases num_tensors - t,
        {
            let bits: BitSet = mark_lifespan(&places, &tensor_meta[t], Ghost(order));
            live.push(bits);
            t = t + 1;
        }
        let mut live_at_op: Vec<BitSet> = Vec::new();
        let mut place: usize = 0;
        while place < num_ops
            invariant
                place <= num_ops,
                live.len() == num_tensors,
                live_at_op.len() == place,
                forall|p: int, t: usize|
                    0 <= p < place ==> (#[trigger] members(live_at_op@[p]).contains(t) <==> t < num_tensors && members(
                        live@[t as int],
                    ).contains(p as usize)),
            decreases num_ops - place,
        {
            let bits: BitSet = tensors_at(&live, place);
            live_at_op.push(bits);
            place = place + 1;
        }
        assert forall|t: int, place: usize|
            0 <= t < live@.len() && #[trigger] members(live@[t]).contains(place) implies place < num_ops by {
            assert(members(live@[t]) == lifespan(tensor_meta@[t], order, num_ops as nat));
        }
        BitvecLiveness { live, num_ops, num_tensors, live_at_op, nothing: empty_set() }
    }

    /// Whether two tensors are live at a common place, so that they cannot share a slot.
    pub fn collides(&self, a: TensorId, b: TensorId) -> (yes: bool)
        ensures
            yes == self.meet(a, b),
    {
        proof {
            use_type_invariant(self);
        }
        if a >= self.num_tensors || b >= self.num_tensors {
            return false;
        }
        !are_disjoint(&self.live[a], &self.live[b])
    }

    /// Whether a tensor is live at a place.
    pub fn is_live_at(&self, tensor_id: TensorId, op_idx: usize) -> (yes: bool)
        ensures
            yes == self.alive(tensor_id, op_idx),
    {
        proof {
            use_type_invariant(self);
        }
        if tensor_id >= self.num_tensors || op_idx >= self.num_ops {
            return false;
        }
        is_member(&self.live[tensor_id], op_idx)
    }

    /// The tensors that are live at a place.
    pub fn live_tensors_at(&self, op_idx: usize) -> (set: &BitSet)
        ensures
            forall|t: TensorId| #[trigger] members(*set).contains(t) <==> self.alive(t, op_idx),
    {
        proof {
            use_type_invariant(self);
        }
        if op_idx < self.num_ops {
            &self.live_at_op[op_idx]
        } else {
            &self.nothing
        }
    }

    /// The number of tensors that are live at a place.
    pub fn live_count_at(&self, op_idx: usize) -> (count: usize)
        ensures
            count == live_list(self, op_idx, self.tensor_total()).len(),
    {
        proof {
            use_type_invariant(self);
            lemma_live_list(self, op_idx, self.tensor_total());
        }
        if op_idx < self.num_ops {
            let count: usize = member_count(&self.live_at_op[op_idx]);
            proof {
                let listed = live_list(self, op_idx, self.tensor_total());
                assert(listed.no_duplicates());
                listed.unique_seq_to_set();
                assert(listed.to_set() =~= members(self.live_at_op@[op_idx as int]));
            }
            count
        } else {
            proof {
                let listed = live_list(self, op_idx, self.tensor_total());
                if listed.len() > 0 {
                    assert(listed.contains(listed[0]));
                }
            }
            0
        }
    }

    /// The memory that is live at a place.
    pub fn live_bytes_at(&self, op_idx: usize, problem: &Problem) -> (bytes: i64)
        requires
            bytes_fit(self, op_idx, problem.tensors@),
        ensures
            bytes == live_bytes(self, op_idx, problem.tensors@),
    {
        proof {
            use_type_invariant(self);
            lemma_live_list(self, op_idx, self.tensor_total());
        }
        if op_idx >= self.num_ops {
            return 0;
        }
        let list: Vec<usize> = member_list(&self.live_at_op[op_idx]);
        let ghost n = problem.tensors@.len();
        proof {
            lemma_ascending_lists_equal(list@, live_list(self, op_idx, self.tensor_total()));
        }
        let mut sizes: Vec<i64> = Vec::new();
        let ghost mut known: Seq<usize> = Seq::empty();
        let mut i: usize = 0;
        while i < list.len()
            invariant
                i <= list.len(),
                n == problem.tensors@.len(),
                forall|t: int| 0 <= t < n ==> arith::fits((#[trigger] problem.tensors@[t]).area()),
                known == dataflow::below(list@, n, i as nat),
                sizes.len() == known.len(),
                forall|j: int| 0 <= j < sizes.len() ==> #[trigger] sizes@[j] == problem.tensors@[known[j] as int].area(),
            decreases list.len() - i,
        {
            let t: usize = list[i];
            if t < problem.tensors.len() {
                sizes.push(problem.tensors[t].size());
                proof {
                    known = known.push(t);
                }
            }
            i = i + 1;
        }
        assert(arith::ints(sizes@) =~= live_sizes(self, op_idx, problem.tensors@));
        arith::wide_total(&sizes) as i64
    }

    /// The place at which most memory is live, and how much it is.
    pub fn peak_memory(&self, problem: &Problem) -> (peak: (usize, i64))
        requires
            forall|place: usize| place < self.op_total() ==> #[trigger] bytes_fit(self, place, problem.tensors@),
        ensures
            peak.1 >= 0,
            forall|place: usize|
                place < self.op_total() ==> #[trigger] live_bytes(self, place, problem.tensors@) <= peak.1,
            peak.1 == 0 ==> peak.0 == 0,
            peak.1 > 0 ==> peak.0 < self.op_total() && live_bytes(self, peak.0, problem.tensors@) == peak.1,
            forall|place: usize| place < peak.0 ==> #[trigger] live_bytes(self, place, problem.tensors@) < peak.1,
    {
        let mut peak_op: usize = 0;
        let mut peak_bytes: i64 = 0;
        let mut place: usize = 0;
        let n: usize = self.num_ops();
        while place < n
            invariant
                place <= n,
                n == self.op_total(),
                forall|place: usize| place < self.op_total() ==> #[trigger] bytes_fit(self, place, problem.tensors@),
                peak_bytes >= 0,
                forall|p: usize| p < place ==> #[trigger] live_bytes(self, p, problem.tensors@) <= peak_bytes,
                peak_bytes == 0 ==> peak_op == 0,
                peak_bytes > 0 ==> peak_op < place && live_bytes(self, peak_op, problem.tensors@) == peak_bytes,
                forall|p: usize| p < peak_op ==> #[trigger] live_bytes(self, p, problem.tensors@) < peak_bytes,
            decreases n - place,
        {
            assert(bytes_fit(self, place, problem.tensors@));
            let bytes: i64 = self.live_bytes_at(place, problem);
            if bytes > peak_bytes {
                peak_bytes = bytes;
                peak_op = place;
            }
            place = place + 1;
        }
        (peak_op, peak_bytes)
    }

    /// The other tensors that are live at a common place with a tensor.
    pub fn collision_set(&self, tensor_id: TensorId) -> (set: BitSet)
        ensures
            forall|t: TensorId| #[trigger] members(set).contains(t) <==> t != tensor_id && self.meet(tensor_id, t),
    {
        proof {
            use_type_invariant(self);
        }
        if tensor_id >= self.num_tensors {
            return empty_set();
        }
        let mut set: BitSet = set_with_capacity(self.num_tensors);
        let mut other: usize = 0;
        while other < self.num_tensors
            invariant
                other <= self.num_tensors,
                forall|t: TensorId| #[trigger]
                    members(set).contains(t) <==> t < other && t != tensor_id && self.meet(tensor_id, t),
            decreases self.num_tensors - other,
        {
            if other != tensor_id && self.collides(tensor_id, other) {
                insert_into(&mut set, other);
            }
            other = other + 1;
        }
        set
    }

    /// For each tensor the other tensors with which it cannot share a slot.
    pub fn interference_graph(&self) -> (graph: Vec<BitSet>)
        ensures
            graph@.len() == self.tensor_total(),
            forall|a: TensorId, b: TensorId|
                a < self.tensor_total() ==> (#[trigger] members(graph@[a as int]).contains(b) <==> b != a && self.meet(
                    a,
                    b,
                )),
    {
        let mut graph: Vec<BitSet> = Vec::new();
        let n: usize = self.num_tensors();
        let mut t: usize = 0;
        while t < n
            invariant
                t <= n,
                n == self.tensor_total(),
                graph.len() == t,
                forall|a: TensorId, b: TensorId|
                    a < t ==> (#[trigger] members(graph@[a as int]).contains(b) <==> b != a && self.meet(a, b)),
            decreases n - t,
        {
            let set: BitSet = self.collision_set(t);
            graph.push(set);
            t = t + 1;
        }
        graph
    }

    /// The number of tensors.
    pub fn num_tensors(&self) -> (count: usize)
        ensures
            count == self.tensor_total(),
    {
        self.num_tensors
    }

    /// The number of operations.
    pub fn num_ops(&self) -> (count: usize)
        ensures
            count == self.op_total(),
    {
        self.num_ops
    }
}

/// Colliding goes both ways.
pub proof fn collision_is_symmetric(l: &BitvecLiveness, a: TensorId, b: TensorId)
    ensures
        l.meet(a, b) == l.meet(b, a),
{
    if l.meet(a, b) {
        let x = choose|x: usize| l.span(a).contains(x) && l.span(b).contains(x);
        assert(l.span(b).contains(x) && l.span(a).contains(x));
    }
    if l.meet(b, a) {
        let x = choose|x: usize| l.span(b).contains(x) && l.span(a).contains(x);
        assert(l.span(a).contains(x) && l.span(b).contains(x));
    }
}

/// Two lifetimes have a place in common exactly when the later birth is no later
/// than the earlier death and lies within the run.
pub proof fn lifespans_meet_when_they_overlap(a: TensorMeta, b: TensorMeta, order: Seq<OpId>, n: nat)
    requires
        n <= usize::MAX,
        order.len() <= n,
    ensures
        !lifespan(a, order, n).disjoint(lifespan(b, order, n)) <==> arith::greatest(
            birth(a, order, n),
            birth(b, order, n),
        ) <= arith::least(death(a, order, n), death(b, order, n)) && arith::greatest(
            birth(a, order, n),
            birth(b, order, n),
        ) < n,
{
    let x = lifespan(a, order, n);
    let y = lifespan(b, order, n);
    let start = arith::greatest(birth(a, order, n), birth(b, order, n));
    lemma_birth_bounds(a, order, n);
    lemma_birth_bounds(b, order, n);
    if !x.disjoint(y) {
        let p = choose|p: usize| x.contains(p) && y.contains(p);
        assert(x.contains(p) && y.contains(p));
    }
    if start <= arith::least(death(a, order, n), death(b, order, n)) && start < n {
        let p = start as usize;
        assert(x.contains(p) && y.contains(p));
    }
}

proof fn lemma_birth_bounds(m: TensorMeta, order: Seq<OpId>, n: nat)
    ensures
        birth(m, order, n) >= 0,
{
    if let Some(p) = m.producer {
        if order.contains(p) {
            order.index_of_first_ensures(p);
            let at = order.index_of(p);
            assert(0 <= at);
        }
    }
}

} // verus!
