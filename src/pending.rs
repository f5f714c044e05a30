//! Messages held back until the chunk they are stamped for: the audio worker
//! dispatches a drained message only once its timestamp is not after the
//! start of the chunk being rendered, and keeps the others, in arrival order,
//! for a later chunk.

use vstd::prelude::*;

verus! {

/// The payloads of the entries of `s` stamped at or before `now`, in order.
pub open spec fn due_items<T>(s: Seq<(u64, T)>, now: u64) -> Seq<T>
    decreases s.len(),
{
    if s.len() == 0 {
        Seq::empty()
    } else if s.last().0 <= now {
        due_items(s.drop_last(), now).push(s.last().1)
    } else {
        due_items(s.drop_last(), now)
    }
}

/// The entries of `s` stamped after `now`, in order.
pub open spec fn later_items<T>(s: Seq<(u64, T)>, now: u64) -> Seq<(u64, T)>
    decreases s.len(),
{
    if s.len() == 0 {
        Seq::empty()
    } else if s.last().0 <= now {
        later_items(s.drop_last(), now)
    } else {
        later_items(s.drop_last(), now).push(s.last())
    }
}

/// Timestamped items waiting for their chunk, in arrival order.
pub struct Pending<T> {
    items: Vec<(u64, T)>,
}

impl<T> Pending<T> {
    pub closed spec fn view(&self) -> Seq<(u64, T)> {
        self.items@
    }

    /// An empty list.
    pub fn new() -> (r: Pending<T>)
        ensures
            r@ == Seq::<(u64, T)>::empty(),
    {
        Pending { items: Vec::new() }
    }

    /// An empty list with room for `capacity` items before it allocates.
    pub fn with_capacity(capacity: usize) -> (r: Pending<T>)
        ensures
            r@ == Seq::<(u64, T)>::empty(),
    {
        Pending { items: Vec::with_capacity(capacity) }
    }

    /// The number of waiting items.
    pub fn len(&self) -> (r: usize)
        ensures
            r == self@.len(),
    {
        self.items.len()
    }

    /// Add an item stamped `timestamp` behind the others.
    pub fn push(&mut self, timestamp: u64, item: T)
        ensures
            final(self)@ == old(self)@.push((timestamp, item)),
    {
        self.items.push((timestamp, item));
    }

    /// Take out the first item stamped at or before `now`, if there is one.
    /// Allocation-free.
    pub fn take_next_due(&mut self, now: u64) -> (r: Option<T>)
        ensures
            r is None <==> due_items(old(self)@, now).len() == 0,
            r matches Some(x) ==> due_items(old(self)@, now).len() > 0 && x == due_items(
                old(self)@,
                now,
            )[0] && due_items(final(self)@, now) == due_items(old(self)@, now).drop_first(),
            r is None ==> final(self)@ == old(self)@,
            later_items(final(self)@, now) == later_items(old(self)@, now),
    {
        let ghost s = self.items@;
        let mut i: usize = 0;
        while i < self.items.len()
            invariant
                self.items@ == s,
                s == old(self).items@,
                i <= s.len(),
                forall|j: int| 0 <= j < i ==> s[j].0 > now,
            decreases s.len() - i,
        {
            if self.items[i].0 <= now {
                let e = self.items.remove(i);
                proof {
                    let a = s.subrange(0, i as int);
                    let b = s.subrange(i + 1, s.len() as int);
                    assert(s =~= a + seq![e] + b);
                    assert(self.items@ =~= a + b);
                    lemma_all_later(a, now);
                    lemma_split(a + seq![e], b, now);
                    lemma_split(a, seq![e], now);
                    lemma_split(a, b, now);
                    assert(seq![e].drop_last() =~= Seq::<(u64, T)>::empty());
                    assert(due_items(Seq::<(u64, T)>::empty(), now) =~= Seq::<T>::empty());
                    assert(later_items(Seq::<(u64, T)>::empty(), now) =~= Seq::<(u64, T)>::empty());
                    assert(due_items(seq![e], now) =~= seq![e.1]);
                    assert(later_items(seq![e], now) =~= Seq::<(u64, T)>::empty());
                    assert(due_items(s, now) =~= seq![e.1] + due_items(b, now));
                    assert(due_items(s, now).len() > 0);
                    assert(due_items(s, now).drop_first() =~= due_items(b, now));
                    assert(later_items(s, now) =~= a + later_items(b, now));
                }
                return Some(e.1);
            }
            i = i + 1;
        }
        proof {
            assert(s.subrange(0, s.len() as int) =~= s);
            lemma_all_later(s, now);
        }
        None
    }
}

/// A run of entries all stamped after `now` has nothing due.
proof fn lemma_all_later<T>(a: Seq<(u64, T)>, now: u64)
    requires
        forall|j: int| 0 <= j < a.len() ==> a[j].0 > now,
    ensures
        due_items(a, now) == Seq::<T>::empty(),
        later_items(a, now) == a,
    decreases a.len(),
{
    if a.len() > 0 {
        lemma_all_later(a.drop_last(), now);
        assert(a.drop_last().push(a.last()) =~= a);
    }
}

/// Splitting the entries splits what is due and what is later.
proof fn lemma_split<T>(a: Seq<(u64, T)>, b: Seq<(u64, T)>, now: u64)
    ensures
        due_items(a + b, now) == due_items(a, now) + due_items(b, now),
        later_items(a + b, now) == later_items(a, now) + later_items(b, now),
    decreases b.len(),
{
    if b.len() == 0 {
        assert(a + b =~= a);
        assert(due_items(a, now) + due_items(b, now) =~= due_items(a, now));
        assert(later_items(a, now) + later_items(b, now) =~= later_items(a, now));
    } else {
        lemma_split(a, b.drop_last(), now);
        assert((a + b).drop_last() =~= a + b.drop_last());
        assert((a + b).last() == b.last());
        assert(due_items(a, now) + due_items(b.drop_last(), now).push(b.last().1) =~= (due_items(
            a,
            now,
        ) + due_items(b.drop_last(), now)).push(b.last().1));
        assert(later_items(a, now) + later_items(b.drop_last(), now).push(b.last()) =~= (
        later_items(a, now) + later_items(b.drop_last(), now)).push(b.last()));
    }
}

} // verus!
