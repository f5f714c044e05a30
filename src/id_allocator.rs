//! A small allocator for reusable unique ids that keeps the issued values small.

use vstd::prelude::*;

verus! {

/// A simple allocator for reusable unique ids, attempting to keep the
/// returned values small.
pub struct IdAllocator {
    /// Every id in `free` is free.
    free: Vec<usize>,
    /// Every id greater than or equal to `highwater` is free.
    highwater: usize,
}

impl IdAllocator {
    /// The ids below the high-water mark that are free, most recently freed last.
    pub closed spec fn free_ids(&self) -> Seq<usize> {
        self.free@
    }

    /// The bound from which on no id has been handed out.
    pub closed spec fn high(&self) -> nat {
        self.highwater as nat
    }

    /// The ids currently handed out.
    pub open spec fn allocated(&self) -> Set<usize> {
        Set::new(|i: usize| i < self.high() && !self.free_ids().contains(i))
    }

    /// The free list holds distinct ids, all below the high-water mark.
    pub closed spec fn wf(&self) -> bool {
        &&& self.free@.no_duplicates()
        &&& forall|k: int| 0 <= k < self.free@.len() ==> self.free@[k] < self.highwater
    }

    /// Whether `id` is currently handed out.
    pub open spec fn is_allocated(&self, id: usize) -> bool {
        self.allocated().contains(id)
    }

    /// Create a new allocator.
    pub fn new() -> (r: IdAllocator)
        ensures
            r.wf(),
            r.free_ids() == Seq::<usize>::empty(),
            r.high() == 0,
            r.allocated() == Set::<usize>::empty(),
    {
        let r = IdAllocator { free: Vec::new(), highwater: 0 };
        assert(r.allocated() =~= Set::<usize>::empty());
        r
    }

    /// Allocate a fresh id.
    pub fn allocate(&mut self) -> (id: usize)
        requires
            old(self).wf(),
            old(self).free_ids().len() > 0 || old(self).high() < usize::MAX,
        ensures
            final(self).wf(),
            !old(self).is_allocated(id),
            final(self).allocated() == old(self).allocated().insert(id),
            old(self).free_ids().len() > 0 ==> {
                &&& id == old(self).free_ids().last()
                &&& final(self).free_ids() == old(self).free_ids().drop_last()
                &&& final(self).high() == old(self).high()
            },
            old(self).free_ids().len() == 0 ==> {
                &&& id == old(self).high()
                &&& final(self).free_ids() == old(self).free_ids()
                &&& final(self).high() == old(self).high() + 1
            },
    {
        match self.free.pop() {
            Some(id) => {
                proof {
                    assert(old(self).free@ == self.free@.push(id));
                    assert(self.free@.no_duplicates());
                    assert(old(self).free@.contains(id));
                    assert forall|i: usize| self.free@.contains(i) implies i != id by {
                        if self.free@.contains(i) {
                            let k = choose|k: int| 0 <= k < self.free@.len() && self.free@[k] == i;
                            assert(old(self).free@[k] == i);
                            assert(old(self).free@[self.free@.len() as int] == id);
                        }
                    }
                    assert forall|i: usize| old(self).free@.contains(i) <==> (self.free@.contains(i) || i == id) by {
                        if old(self).free@.contains(i) && i != id {
                            let k = choose|k: int| 0 <= k < old(self).free@.len() && old(self).free@[k] == i;
                            assert(self.free@[k] == i);
                        }
                        if self.free@.contains(i) {
                            let k = choose|k: int| 0 <= k < self.free@.len() && self.free@[k] == i;
                            assert(old(self).free@[k] == i);
                        }
                    }
                    assert(self.allocated() =~= old(self).allocated().insert(id));
                }
                id
            },
            None => {
                let id = self.highwater;
                self.highwater = self.highwater + 1;
                proof {
                    assert(self.allocated() =~= old(self).allocated().insert(id));
                }
                id
            },
        }
    }

    /// Free the id so it can be reused.
    pub fn free(&mut self, id: usize)
        requires
            old(self).wf(),
            old(self).is_allocated(id),
        ensures
            final(self).wf(),
            final(self).allocated() == old(self).allocated().remove(id),
            id + 1 == old(self).high() ==> final(self).high() == id && final(self).free_ids()
                == old(self).free_ids(),
            id + 1 != old(self).high() ==> final(self).high() == old(self).high()
                && final(self).free_ids() == old(self).free_ids().push(id),
    {
        if id == self.highwater - 1 {
            self.highwater = id;
            proof {
                assert(self.allocated() =~= old(self).allocated().remove(id));
            }
        } else {
            self.free.push(id);
            proof {
                assert(self.free@ == old(self).free@.push(id));
                assert forall|i: usize| self.free@.contains(i) <==> (old(self).free@.contains(i) || i == id) by {
                    if self.free@.contains(i) && i != id {
                        let k = choose|k: int| 0 <= k < self.free@.len() && self.free@[k] == i;
                        assert(old(self).free@[k] == i);
                    }
                    if old(self).free@.contains(i) {
                        let k = choose|k: int| 0 <= k < old(self).free@.len() && old(self).free@[k] == i;
                        assert(self.free@[k] == i);
                    }
                    if i == id {
                        assert(self.free@[old(self).free@.len() as int] == id);
                    }
                }
                assert(self.allocated() =~= old(self).allocated().remove(id));
            }
        }
    }

    /// Reserve an id, preventing it from being issued.
    pub fn reserve(&mut self, id: usize)
        requires
            old(self).wf(),
            !old(self).is_allocated(id),
            (id as nat) < old(self).high() || (id as nat == old(self).high() && id < usize::MAX),
        ensures
            final(self).wf(),
            final(self).allocated() == old(self).allocated().insert(id),
            id == old(self).high() ==> final(self).high() == id + 1 && final(self).free_ids()
                == old(self).free_ids(),
            id != old(self).high() ==> final(self).high() == old(self).high()
                && final(self).free_ids() == old(self).free_ids().remove(
                old(self).free_ids().index_of(id),
            ),
    {
        if id == self.highwater {
            self.highwater = self.highwater + 1;
            proof {
                assert forall|k: int| 0 <= k < self.free@.len() implies self.free@[k] != id by {}
                assert(self.allocated() =~= old(self).allocated().insert(id));
            }
        } else {
            assert(self.free@.contains(id));
            let n = self.free.len();
            let mut pos: usize = 0;
            while self.free[pos] != id
                invariant
                    n == self.free@.len(),
                    pos < n,
                    self.free@.contains(id),
                    forall|k: int| 0 <= k < pos ==> self.free@[k] != id,
                decreases n - pos,
            {
                pos = pos + 1;
                proof {
                    let k = choose|k: int| 0 <= k < self.free@.len() && self.free@[k] == id;
                    assert(k >= pos);
                }
            }
            self.free.remove(pos);
            proof {
                let of = old(self).free@;
                assert(self.free@ == of.remove(pos as int));
                assert forall|i: usize| self.free@.contains(i) <==> (of.contains(i) && i != id) by {
                    if self.free@.contains(i) {
                        let k = choose|k: int| 0 <= k < self.free@.len() && self.free@[k] == i;
                        if k < pos {
                            assert(of[k] == i);
                        } else {
                            assert(of[k + 1] == i);
                        }
                    }
                    if of.contains(i) && i != id {
                        let k = choose|k: int| 0 <= k < of.len() && of[k] == i;
                        if k < pos {
                            assert(self.free@[k] == i);
                        } else {
                            assert(k != pos);
                            assert(self.free@[k - 1] == i);
                        }
                    }
                }
                assert(self.allocated() =~= old(self).allocated().insert(id));
            }
        }
    }
}

} // verus!
