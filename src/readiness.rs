//! The readiness bitmap: which slots signalled progress since they were last
//! polled, and the outer continuation to wake when one does.
use vstd::prelude::*;

verus! {

/// The number of set bits in `s`.
pub open spec fn count_set(s: Seq<bool>) -> nat
    decreases s.len(),
{
    if s.len() == 0 {
        0
    } else {
        count_set(s.drop_last()) + if s.last() {
            1nat
        } else {
            0nat
        }
    }
}

/// Whether some bit of `s` is set.
pub open spec fn some_set(s: Seq<bool>) -> bool {
    exists|i: int| 0 <= i < s.len() && #[trigger] s[i]
}

proof fn lemma_count_set_bound(s: Seq<bool>)
    ensures
        count_set(s) <= s.len(),
        count_set(s) > 0 <==> some_set(s),
    decreases s.len(),
{
    if s.len() > 0 {
        let t = s.drop_last();
        lemma_count_set_bound(t);
        if some_set(s) && !s.last() {
            let i = choose|i: int| 0 <= i < s.len() && #[trigger] s[i];
            assert(t[i]);
        }
        if some_set(t) {
            let i = choose|i: int| 0 <= i < t.len() && #[trigger] t[i];
            assert(s[i]);
        }
        if s.last() {
            assert(s[s.len() - 1]);
        }
    }
}

proof fn lemma_count_set_update(s: Seq<bool>, i: int, b: bool)
    requires
        0 <= i < s.len(),
    ensures
        count_set(s.update(i, b)) as int == count_set(s) as int - (if s[i] {
            1int
        } else {
            0int
        }) + (if b {
            1int
        } else {
            0int
        }),
    decreases s.len(),
{
    let u = s.update(i, b);
    if i == s.len() - 1 {
        assert(u.drop_last() =~= s.drop_last());
    } else {
        lemma_count_set_update(s.drop_last(), i, b);
        assert(u.drop_last() =~= s.drop_last().update(i, b));
    }
}

/// The readiness of `n` slots, with the outer continuation of type `W`.
///
/// A set bit means that the slot may make progress and should be polled.
/// Every bit starts set, so that the first poll drives every slot once.
pub struct Readiness<W> {
    count: usize,
    ready: Vec<bool>,
    parent: Option<W>,
}

impl<W> View for Readiness<W> {
    type V = Seq<bool>;

    closed spec fn view(&self) -> Seq<bool> {
        self.ready@
    }
}

impl<W> Readiness<W> {
    /// The outer continuation last registered, if any.
    pub closed spec fn parent(&self) -> Option<W> {
        self.parent
    }

    /// The count of set bits is kept in step with the bits.
    pub closed spec fn wf(&self) -> bool {
        self.count == count_set(self.ready@)
    }

    /// A bitmap of `n` slots, all of them set, with no continuation yet.
    pub fn new(n: usize) -> (r: Self)
        ensures
            r.wf(),
            r@ == Seq::new(n as nat, |i: int| true),
            r.parent() is None,
    {
        let mut ready: Vec<bool> = Vec::new();
        let mut k: usize = 0;
        while k < n
            invariant
                k <= n,
                ready@ == Seq::new(k as nat, |i: int| true),
                count_set(ready@) == k,
            decreases n - k,
        {
            proof {
                assert(ready@.push(true).drop_last() =~= ready@);
            }
            ready.push(true);
            k = k + 1;
            assert(ready@ =~= Seq::new(k as nat, |i: int| true));
        }
        Readiness { count: n, ready, parent: None }
    }

    /// The number of slots.
    pub fn len(&self) -> (r: usize)
        ensures
            r == self@.len(),
    {
        self.ready.len()
    }

    /// Whether the bit of slot `i` is set, without changing it.
    pub fn is_ready(&self, i: usize) -> (r: bool)
        requires
            i < self@.len(),
        ensures
            r == self@[i as int],
    {
        self.ready[i]
    }

    /// Sets the bit of slot `i`, and returns whether it was set already.
    pub fn set_ready(&mut self, i: usize) -> (was_set: bool)
        requires
            old(self).wf(),
            i < old(self)@.len(),
        ensures
            final(self).wf(),
            final(self)@ == old(self)@.update(i as int, true),
            final(self).parent() == old(self).parent(),
            was_set == old(self)@[i as int],
    {
        proof {
            lemma_count_set_update(self.ready@, i as int, true);
            lemma_count_set_bound(self.ready@.update(i as int, true));
        }
        if self.ready[i] {
            true
        } else {
            let n = self.ready.len();
            assert(self.count + 1 <= n);
            self.ready.set(i, true);
            self.count = self.count + 1;
            false
        }
    }

    /// Clears the bit of slot `i`, and returns whether it was set: claims the
    /// slot for one poll.
    pub fn clear_ready(&mut self, i: usize) -> (was_set: bool)
        requires
            old(self).wf(),
            i < old(self)@.len(),
        ensures
            final(self).wf(),
            final(self)@ == old(self)@.update(i as int, false),
            final(self).parent() == old(self).parent(),
            was_set == old(self)@[i as int],
    {
        proof {
            lemma_count_set_update(self.ready@, i as int, false);
        }
        if self.ready[i] {
            self.ready.set(i, false);
            self.count = self.count - 1;
            true
        } else {
            false
        }
    }

    /// Whether any bit is set.
    pub fn any_ready(&self) -> (r: bool)
        requires
            self.wf(),
        ensures
            r == some_set(self@),
    {
        proof {
            lemma_count_set_bound(self.ready@);
        }
        self.count > 0
    }

    /// Registers the outer continuation, replacing the one held before.
    pub fn set_waker(&mut self, waker: W)
        ensures
            final(self)@ == old(self)@,
            final(self).wf() == old(self).wf(),
            final(self).parent() == Some(waker),
    {
        self.parent = Some(waker);
    }

    /// The outer continuation last registered, if any.
    pub fn parent_waker(&self) -> (r: Option<&W>)
        ensures
            r matches Some(w) ==> self.parent() == Some(*w),
            r is None <==> self.parent() is None,
    {
        self.parent.as_ref()
    }

    /// Records that slot `i` signalled progress, and returns whether the outer
    /// continuation is to be woken: only when the bit was clear and a
    /// continuation is registered, so that several signals before the next
    /// poll wake it once.
    pub fn signal(&mut self, i: usize) -> (wake: bool)
        requires
            old(self).wf(),
            i < old(self)@.len(),
        ensures
            final(self).wf(),
            final(self)@ == old(self)@.update(i as int, true),
            final(self).parent() == old(self).parent(),
            wake == (!old(self)@[i as int] && old(self).parent() is Some),
    {
        let was_set = self.set_ready(i);
        !was_set && self.parent.is_some()
    }
}

} // verus!
