//! The join combinator's bookkeeping: result cells, slot stages, the count of
//! pending slots, and the scan that picks which slot to poll next.
//!
//! The operations themselves, and the polling of them, belong to whatever
//! drives the join: it claims a slot with [`Join::claim_next`], polls that
//! operation with the bitmap's lock released, hands a result back with
//! [`Join::complete_slot`], and asks [`Join::try_finish`] for the aggregate
//! at the end of each poll.
use vstd::prelude::*;
use vstd::string::*;

use crate::readiness::{some_set, Readiness};
use crate::slot::SlotState;

verus! {

/// What a join holds, as mathematics.
pub ghost struct JoinModel<T> {
    /// The aggregate was handed out.
    pub consumed: bool,
    /// The number of slots that have not completed.
    pub pending: nat,
    /// The stage of each slot.
    pub states: Seq<SlotState>,
    /// The result cell of each slot.
    pub cells: Seq<Option<T>>,
}

/// The number of `Pending` slots in `s`.
pub open spec fn count_pending(s: Seq<SlotState>) -> nat
    decreases s.len(),
{
    if s.len() == 0 {
        0
    } else {
        count_pending(s.drop_last()) + if s.last() == SlotState::Pending {
            1nat
        } else {
            0nat
        }
    }
}

/// A well-formed join: one cell per slot, the pending count in step with the
/// stages, a result in a cell exactly while its slot is `Ready`, and every
/// slot `Consumed` exactly once the aggregate was handed out.
pub open spec fn model_wf<T>(m: JoinModel<T>) -> bool {
    &&& m.cells.len() == m.states.len()
    &&& m.pending == count_pending(m.states)
    &&& forall|i: int|
        0 <= i < m.states.len() ==> (#[trigger] m.cells[i] is Some <==> m.states[i]
            == SlotState::Ready)
    &&& forall|i: int|
        0 <= i < m.states.len() ==> (#[trigger] m.states[i] == SlotState::Consumed
            <==> m.consumed)
}

/// A join of `n` slots before any progress.
pub open spec fn initial_model<T>(n: nat) -> JoinModel<T> {
    JoinModel {
        consumed: false,
        pending: n,
        states: Seq::new(n, |i: int| SlotState::Pending),
        cells: Seq::new(n, |i: int| None),
    }
}

/// Slot `i` completed with `value`.
pub open spec fn after_complete<T>(m: JoinModel<T>, i: int, value: T) -> JoinModel<T> {
    JoinModel {
        consumed: m.consumed,
        pending: (m.pending - 1) as nat,
        states: m.states.update(i, SlotState::Ready),
        cells: m.cells.update(i, Some(value)),
    }
}

/// The aggregate was handed out: every slot `Consumed`, every cell empty.
pub open spec fn after_finish<T>(m: JoinModel<T>) -> JoinModel<T> {
    JoinModel {
        consumed: true,
        pending: 0,
        states: Seq::new(m.states.len(), |i: int| SlotState::Consumed),
        cells: Seq::new(m.cells.len(), |i: int| None),
    }
}

/// The results held in the cells, in slot order.
pub open spec fn aggregate<T>(m: JoinModel<T>) -> Seq<T> {
    Seq::new(m.cells.len(), |i: int| m.cells[i]->Some_0)
}

/// The slots completed one after another, in the order `order`, slot `i`
/// with `values[i]`.
pub open spec fn complete_in_order<T>(m: JoinModel<T>, order: Seq<int>, values: Seq<T>) -> JoinModel<
    T,
>
    decreases order.len(),
{
    if order.len() == 0 {
        m
    } else {
        let i = order.last();
        after_complete(complete_in_order(m, order.drop_last(), values), i, values[i])
    }
}

/// Whether slot `i` is one to poll now: it has not completed and its bit is
/// set.
pub open spec fn wants_poll(states: Seq<SlotState>, bits: Seq<bool>, i: int) -> bool {
    states[i] == SlotState::Pending && bits[i]
}

/// The debug rendering of the stages: `[Pending, Ready, Consumed]`.
pub open spec fn render_states(s: Seq<SlotState>) -> Seq<char> {
    "["@ + list_names(s) + "]"@
}

/// The names of the stages, separated by `, `.
pub open spec fn list_names(s: Seq<SlotState>) -> Seq<char>
    decreases s.len(),
{
    if s.len() == 0 {
        Seq::empty()
    } else if s.len() == 1 {
        s[0].name()
    } else {
        list_names(s.drop_last()) + ", "@ + s.last().name()
    }
}

proof fn lemma_count_pending_bound(s: Seq<SlotState>)
    ensures
        count_pending(s) <= s.len(),
        count_pending(s) == 0 <==> forall|i: int|
            0 <= i < s.len() ==> #[trigger] s[i] != SlotState::Pending,
    decreases s.len(),
{
    if s.len() > 0 {
        let t = s.drop_last();
        lemma_count_pending_bound(t);
        if count_pending(s) == 0 {
            assert forall|i: int| 0 <= i < s.len() implies #[trigger] s[i]
                != SlotState::Pending by {
                if i < t.len() {
                    assert(t[i] == s[i]);
                }
            }
        } else {
            if s.last() != SlotState::Pending {
                let j = choose|j: int| 0 <= j < t.len() && #[trigger] t[j] == SlotState::Pending;
                assert(s[j] == SlotState::Pending);
            }
            assert(!(forall|i: int| 0 <= i < s.len() ==> #[trigger] s[i] != SlotState::Pending))
                by {
                if s.last() == SlotState::Pending {
                    assert(s[s.len() - 1] == SlotState::Pending);
                } else {
                    let j = choose|j: int|
                        0 <= j < t.len() && #[trigger] t[j] == SlotState::Pending;
                    assert(s[j] == SlotState::Pending);
                }
            }
        }
    }
}

proof fn lemma_count_pending_complete(s: Seq<SlotState>, i: int)
    requires
        0 <= i < s.len(),
        s[i] == SlotState::Pending,
    ensures
        count_pending(s) > 0,
        count_pending(s.update(i, SlotState::Ready)) == count_pending(s) - 1,
    decreases s.len(),
{
    let u = s.update(i, SlotState::Ready);
    if i == s.len() - 1 {
        assert(u.drop_last() =~= s.drop_last());
    } else {
        lemma_count_pending_complete(s.drop_last(), i);
        assert(u.drop_last() =~= s.drop_last().update(i, SlotState::Ready));
    }
}

proof fn lemma_count_pending_all(n: nat, st: SlotState)
    ensures
        count_pending(Seq::new(n, |i: int| st)) == if st == SlotState::Pending {
            n
        } else {
            0
        },
    decreases n,
{
    if n > 0 {
        lemma_count_pending_all((n - 1) as nat, st);
        assert(Seq::new(n, |i: int| st).drop_last() =~= Seq::new((n - 1) as nat, |i: int| st));
    }
}

/// Whether `order` lists each slot of `0..n` exactly once.
pub open spec fn is_order_of(order: Seq<int>, n: nat) -> bool {
    &&& order.len() == n
    &&& forall|k: int| 0 <= k < n ==> 0 <= #[trigger] order[k] < n
    &&& forall|k1: int, k2: int|
        0 <= k1 < k2 < n ==> #[trigger] order[k1] != #[trigger] order[k2]
    &&& forall|i: int| 0 <= i < n ==> #[trigger] order.contains(i)
}

proof fn lemma_prefix_completed<T>(n: nat, order: Seq<int>, values: Seq<T>, k: nat)
    requires
        is_order_of(order, n),
        values.len() == n,
        k <= n,
    ensures
        ({
            let m = complete_in_order(initial_model::<T>(n), order.take(k as int), values);
            &&& model_wf(m)
            &&& m.pending == n - k
            &&& !m.consumed
            &&& m.states.len() == n
            &&& forall|i: int|
                0 <= i < n ==> (#[trigger] order.take(k as int).contains(i) ==> m.states[i]
                    == SlotState::Ready && m.cells[i] == Some(values[i]))
        }),
    decreases k,
{
    let init = initial_model::<T>(n);
    if k == 0 {
        assert(order.take(0) =~= Seq::<int>::empty());
        lemma_count_pending_all(n, SlotState::Pending);
    } else {
        let k1 = (k - 1) as nat;
        lemma_prefix_completed(n, order, values, k1);
        let pre = order.take(k1 as int);
        let cur = order.take(k as int);
        assert(cur.drop_last() =~= pre);
        let m0 = complete_in_order(init, pre, values);
        let i = order[k1 as int];
        assert(cur.last() == i);
        // Slot `i` has not completed yet: it is not in the prefix.
        assert(!pre.contains(i)) by {
            if pre.contains(i) {
                let j = choose|j: int| 0 <= j < pre.len() && pre[j] == i;
                assert(order[j] == order[k1 as int]);
            }
        }
        assert(m0.states[i] == SlotState::Pending) by {
            if m0.states[i] != SlotState::Pending {
                // Every slot outside the prefix is still pending.
                lemma_untouched_pending(n, order, values, k1, i);
            }
        }
        lemma_count_pending_complete(m0.states, i);
        let m = complete_in_order(init, cur, values);
        assert(m == after_complete(m0, i, values[i]));
        assert forall|j: int| 0 <= j < n && #[trigger] cur.contains(j) implies m.states[j]
            == SlotState::Ready && m.cells[j] == Some(values[j]) by {
            if j != i {
                let t = choose|t: int| 0 <= t < cur.len() && cur[t] == j;
                assert(t != k1);
                assert(pre[t] == j);
                assert(pre.contains(j));
            }
        }
    }
}

proof fn lemma_untouched_pending<T>(n: nat, order: Seq<int>, values: Seq<T>, k: nat, i: int)
    requires
        is_order_of(order, n),
        values.len() == n,
        k <= n,
        0 <= i < n,
        !order.take(k as int).contains(i),
    ensures
        complete_in_order(initial_model::<T>(n), order.take(k as int), values).states[i]
            == SlotState::Pending,
        complete_in_order(initial_model::<T>(n), order.take(k as int), values).states.len() == n,
    decreases k,
{
    if k > 0 {
        let k1 = (k - 1) as nat;
        let pre = order.take(k1 as int);
        let cur = order.take(k as int);
        assert(cur.drop_last() =~= pre);
        assert(!pre.contains(i)) by {
            if pre.contains(i) {
                let t = choose|t: int| 0 <= t < pre.len() && pre[t] == i;
                assert(cur[t] == i);
            }
        }
        assert(cur.last() != i) by {
            assert(cur[k1 as int] == cur.last());
        }
        lemma_untouched_pending(n, order, values, k1, i);
    }
}

/// Whatever the order in which the `n` slots complete, the aggregate holds
/// at index `i` the result of slot `i`: completing every slot, in any order,
/// leaves a well-formed join with nothing pending whose aggregate is the
/// results in slot order.
pub proof fn lemma_order_preserved<T>(n: nat, order: Seq<int>, values: Seq<T>)
    requires
        is_order_of(order, n),
        values.len() == n,
    ensures
        ({
            let m = complete_in_order(initial_model::<T>(n), order, values);
            &&& model_wf(m)
            &&& m.pending == 0
            &&& !m.consumed
            &&& aggregate(m) == values
        }),
{
    lemma_prefix_completed(n, order, values, n);
    assert(order.take(n as int) =~= order);
    let m = complete_in_order(initial_model::<T>(n), order, values);
    assert forall|i: int| 0 <= i < n implies m.cells[i] == Some(values[i]) by {
        assert(order.contains(i));
        assert(order.take(n as int).contains(i));
    }
    assert(aggregate(m) =~= values);
}

/// A join holds a result exactly in the cells of its `Ready` slots: a
/// `Pending` slot holds none yet and a `Consumed` one none any more. Dropping
/// a join at any point therefore releases each stored result once, and only
/// those.
pub proof fn lemma_cells_of_ready_slots<T>(m: JoinModel<T>)
    requires
        model_wf(m),
    ensures
        forall|i: int|
            0 <= i < m.states.len() ==> (#[trigger] m.cells[i] is Some <==> m.states[i]
                == SlotState::Ready),
        forall|i: int|
            0 <= i < m.states.len() && #[trigger] m.states[i] != SlotState::Ready ==> m.cells[i]
                is None,
{
}

/// A join renders every slot as `Pending` before any progress, and every
/// slot as `Consumed` once the aggregate was handed out; the finished join
/// is well formed and marked consumed, so that no further poll is allowed.
pub proof fn lemma_stages_at_start_and_end<T>(n: nat, m: JoinModel<T>)
    requires
        model_wf(m),
        m.pending == 0,
        !m.consumed,
    ensures
        forall|i: int| 0 <= i < n ==> #[trigger] initial_model::<T>(n).states[i] == SlotState::Pending,
        initial_model::<T>(n).states.len() == n,
        forall|i: int|
            0 <= i < m.states.len() ==> #[trigger] after_finish(m).states[i] == SlotState::Consumed,
        after_finish(m).states.len() == m.states.len(),
        after_finish(m).consumed,
        model_wf(after_finish(m)),
{
    lemma_count_pending_all(m.states.len(), SlotState::Consumed);
}

/// A join of `n` operations whose results are of type `T`.
pub struct Join<T> {
    consumed: bool,
    pending: usize,
    cells: Vec<Option<T>>,
    states: Vec<SlotState>,
}

impl<T> View for Join<T> {
    type V = JoinModel<T>;

    closed spec fn view(&self) -> JoinModel<T> {
        JoinModel {
            consumed: self.consumed,
            pending: self.pending as nat,
            states: self.states@,
            cells: self.cells@,
        }
    }
}

impl<T> Join<T> {
    /// The join's model is well formed (see [`model_wf`]).
    pub open spec fn wf(&self) -> bool {
        model_wf(self@)
    }

    /// A join of `n` slots: all `Pending`, all cells empty.
    pub fn new(n: usize) -> (r: Self)
        ensures
            r.wf(),
            r@ == initial_model::<T>(n as nat),
    {
        let mut cells: Vec<Option<T>> = Vec::new();
        let mut states: Vec<SlotState> = Vec::new();
        let mut k: usize = 0;
        while k < n
            invariant
                k <= n,
                cells@ == Seq::new(k as nat, |i: int| None::<T>),
                states@ == Seq::new(k as nat, |i: int| SlotState::Pending),
            decreases n - k,
        {
            cells.push(None);
            states.push(SlotState::Pending);
            k = k + 1;
            assert(cells@ =~= Seq::new(k as nat, |i: int| None::<T>));
            assert(states@ =~= Seq::new(k as nat, |i: int| SlotState::Pending));
        }
        proof {
            lemma_count_pending_all(n as nat, SlotState::Pending);
        }
        let r = Join { consumed: false, pending: n, cells, states };
        assert(r@ =~= initial_model::<T>(n as nat));
        r
    }

    /// The number of slots.
    pub fn len(&self) -> (r: usize)
        ensures
            r == self@.states.len(),
    {
        self.states.len()
    }

    /// Whether the aggregate was handed out.
    pub fn is_consumed(&self) -> (r: bool)
        ensures
            r == self@.consumed,
    {
        self.consumed
    }

    /// The number of slots that have not completed.
    pub fn pending(&self) -> (r: usize)
        ensures
            r == self@.pending,
    {
        self.pending
    }

    /// The stage of each slot, in slot order.
    pub fn states(&self) -> (r: Vec<SlotState>)
        ensures
            r@ == self@.states,
    {
        self.states.clone()
    }

    /// Starts a poll: registers the outer continuation `waker`, and returns
    /// whether any slot signalled progress. Where none did, the poll ends
    /// here, suspended; the bitmap holds the continuation for the next signal.
    ///
    /// Polling again after the aggregate was handed out is a caller's error.
    pub fn begin_poll<W>(&self, readiness: &mut Readiness<W>, waker: W) -> (proceed: bool)
        requires
            !self@.consumed,
            old(readiness).wf(),
        ensures
            final(readiness).wf(),
            final(readiness)@ == old(readiness)@,
            final(readiness).parent() == Some(waker),
            proceed == some_set(old(readiness)@),
    {
        readiness.set_waker(waker);
        readiness.any_ready()
    }

    /// Claims the next slot to poll, scanning up from slot `from`: the first
    /// slot that is `Pending` and whose bit is set. Its bit is cleared, and no
    /// other bit changes. Returns `None`, changing nothing, where no slot from
    /// `from` on is to be polled.
    pub fn claim_next<W>(&self, from: usize, readiness: &mut Readiness<W>) -> (r: Option<usize>)
        requires
            self.wf(),
            old(readiness).wf(),
            old(readiness)@.len() == self@.states.len(),
            from <= self@.states.len(),
        ensures
            final(readiness).wf(),
            final(readiness).parent() == old(readiness).parent(),
            match r {
                Some(i) => {
                    &&& from <= i < self@.states.len()
                    &&& wants_poll(self@.states, old(readiness)@, i as int)
                    &&& forall|j: int|
                        from <= j < i ==> !wants_poll(self@.states, old(readiness)@, j)
                    &&& final(readiness)@ == old(readiness)@.update(i as int, false)
                },
                None => {
                    &&& forall|j: int|
                        from <= j < self@.states.len() ==> !wants_poll(
                            self@.states,
                            old(readiness)@,
                            j,
                        )
                    &&& final(readiness)@ == old(readiness)@
                },
            },
    {
        let n = self.states.len();
        let mut i: usize = from;
        while i < n
            invariant
                from <= i <= n,
                n == self@.states.len(),
                readiness.wf(),
                readiness@ == old(readiness)@,
                readiness@.len() == n,
                readiness.parent() == old(readiness).parent(),
                forall|j: int| from <= j < i ==> !wants_poll(self@.states, old(readiness)@, j),
            decreases n - i,
        {
            if self.states[i].is_pending() && readiness.clear_ready(i) {
                return Some(i);
            }
            i = i + 1;
        }
        None
    }

    /// Stores the result of slot `i`, which was `Pending`: the slot becomes
    /// `Ready` and one slot fewer is pending.
    pub fn complete_slot(&mut self, i: usize, value: T)
        requires
            old(self).wf(),
            i < old(self)@.states.len(),
            old(self)@.states[i as int] == SlotState::Pending,
        ensures
            final(self).wf(),
            final(self)@ == after_complete(old(self)@, i as int, value),
    {
        proof {
            lemma_count_pending_complete(self.states@, i as int);
        }
        self.cells.set(i, Some(value));
        self.states.set(i, SlotState::Ready);
        self.pending = self.pending - 1;
        assert(self@ =~= after_complete(old(self)@, i as int, value));
    }

    /// Ends a poll. Where no slot is pending, every slot becomes `Consumed`
    /// and the results are moved out, in slot order whatever the order in
    /// which the slots completed. Otherwise nothing changes and the join
    /// stays suspended.
    pub fn try_finish(&mut self) -> (r: Option<Vec<T>>)
        requires
            old(self).wf(),
            !old(self)@.consumed,
        ensures
            final(self).wf(),
            old(self)@.pending == 0 ==> (r matches Some(v) && v@ == aggregate(old(self)@)
                && final(self)@ == after_finish(old(self)@)),
            old(self)@.pending > 0 ==> r is None && final(self)@ == old(self)@,
    {
        if self.pending > 0 {
            return None;
        }
        let ghost src = self.cells@;
        let n = self.states.len();
        proof {
            lemma_count_pending_bound(self.states@);
        }
        assert(forall|i: int| 0 <= i < n ==> (#[trigger] src[i]) is Some);
        // Mark every slot consumed before taking the results.
        self.consumed = true;
        let mut k: usize = 0;
        while k < n
            invariant
                k <= n,
                n == self.states@.len(),
                self.cells@ == src,
                self.consumed,
                self.pending == 0,
                forall|j: int| 0 <= j < k ==> #[trigger] self.states@[j] == SlotState::Consumed,
                forall|j: int|
                    k <= j < n ==> #[trigger] self.states@[j] == old(self).states@[j],
                forall|j: int|
                    k <= j < n ==> #[trigger] self.states@[j] == SlotState::Ready,
            decreases n - k,
        {
            let mut st = self.states[k];
            st.set_consumed();
            self.states.set(k, st);
            k = k + 1;
        }
        // Leave empty cells behind, and take the filled ones.
        let mut cells: Vec<Option<T>> = Vec::new();
        let mut k: usize = 0;
        while k < n
            invariant
                k <= n,
                cells@ == Seq::new(k as nat, |i: int| None::<T>),
                self.cells@ == src,
                self.consumed,
                self.pending == 0,
                n == self.states@.len(),
                forall|j: int| 0 <= j < n ==> #[trigger] self.states@[j] == SlotState::Consumed,
            decreases n - k,
        {
            cells.push(None);
            k = k + 1;
            assert(cells@ =~= Seq::new(k as nat, |i: int| None::<T>));
        }
        std::mem::swap(&mut self.cells, &mut cells);
        // `cells` now holds the results; pop them off the back, then again
        // off the reversed stack, to have them in slot order.
        let mut reversed: Vec<T> = Vec::new();
        while cells.len() > 0
            invariant
                cells@.len() + reversed@.len() == n,
                n == src.len(),
                cells@ == src.subrange(0, cells@.len() as int),
                forall|i: int| 0 <= i < n ==> (#[trigger] src[i]) is Some,
                forall|j: int|
                    0 <= j < reversed@.len() ==> #[trigger] reversed@[j] == src[n - 1 - j]->Some_0,
            decreases cells@.len(),
        {
            let c = cells.pop();
            if let Some(Some(v)) = c {
                reversed.push(v);
            }
        }
        let mut out: Vec<T> = Vec::new();
        while reversed.len() > 0
            invariant
                reversed@.len() + out@.len() == n,
                n == src.len(),
                forall|j: int|
                    0 <= j < reversed@.len() ==> #[trigger] reversed@[j] == src[n - 1 - j]->Some_0,
                forall|j: int| 0 <= j < out@.len() ==> #[trigger] out@[j] == src[j]->Some_0,
            decreases reversed@.len(),
        {
            let c = reversed.pop();
            if let Some(v) = c {
                out.push(v);
            }
        }
        proof {
            lemma_count_pending_all(n as nat, SlotState::Consumed);
        }
        assert(self.states@ =~= Seq::new(n as nat, |i: int| SlotState::Consumed));
        assert(self@ =~= after_finish(old(self)@));
        assert(out@ =~= aggregate(old(self)@));
        Some(out)
    }

    /// The debug rendering of the slots' stages, in slot order:
    /// `[Pending, Ready, Consumed]`.
    pub fn render(&self) -> (r: String)
        ensures
            r@ == render_states(self@.states),
    {
        let ghost s = self.states@;
        let mut out = String::from_str("[");
        let n = self.states.len();
        let mut k: usize = 0;
        while k < n
            invariant
                k <= n,
                n == s.len(),
                s == self.states@,
                out@ == "["@ + list_names(s.subrange(0, k as int)),
            decreases n - k,
        {
            if k > 0 {
                out.append(", ");
            }
            out.append(self.states[k].as_str());
            proof {
                let t = s.subrange(0, k + 1);
                assert(t.drop_last() =~= s.subrange(0, k as int));
                if k == 0 {
                    assert(list_names(s.subrange(0, 0)) =~= Seq::empty());
                    assert(out@ =~= "["@ + list_names(t));
                } else {
                    assert(out@ =~= "["@ + list_names(t));
                }
            }
            k = k + 1;
        }
        out.append("]");
        assert(s.subrange(0, n as int) =~= s);
        out
    }
}

} // verus!
