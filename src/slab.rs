//! A slab: values under stable indices, with freed slots reused.
use vstd::prelude::*;
use vstd::std_specs::cmp::PartialEqSpec;

verus! {

#[derive(Debug)]
enum Entry<T> {
    Occupied(T),
    /// A free slot, and the next free slot after it.
    Vacant(Option<usize>),
}

/// Values under indices. Removing a value frees its slot; the most recently
/// freed slot is the next one that `push` fills.
#[derive(Debug)]
pub struct Slab<T> {
    inner: Vec<Entry<T>>,
    next_id: Option<usize>,
}

impl<T> Slab<T> {
    /// The value in each slot, `None` for a free one.
    pub closed spec fn view(&self) -> Seq<Option<T>> {
        Seq::new(
            self.inner@.len(),
            |i: int|
                match self.inner@[i] {
                    Entry::Occupied(v) => Some(v),
                    Entry::Vacant(_) => None,
                },
        )
    }

    /// The slot that the next `push` fills, if a slot is free.
    pub closed spec fn free_head(&self) -> Option<usize> {
        self.next_id
    }

    /// The free slot listed after slot `i` in the free list; none for the
    /// last free slot, or for an occupied one.
    pub closed spec fn next_free(&self, i: usize) -> Option<usize> {
        if i < self.inner@.len() {
            match self.inner@[i as int] {
                Entry::Vacant(n) => n,
                Entry::Occupied(_) => None,
            }
        } else {
            None
        }
    }

    /// The free slots form one chain from `next_id`: each link names another
    /// free slot, no link names the head, and no two slots link to the same one.
    pub closed spec fn wf(&self) -> bool {
        let v = self.inner@;
        &&& (self.next_id matches Some(i) ==> i < v.len() && v[i as int] is Vacant)
        &&& forall|k: int|
            0 <= k < v.len() ==> match #[trigger] v[k] {
                Entry::Vacant(Some(j)) => j < v.len() && v[j as int] is Vacant && j != k && Some(j)
                    != self.next_id,
                _ => true,
            }
        &&& forall|a: int, b: int|
            0 <= a < v.len() && 0 <= b < v.len() && a != b && #[trigger] v[a] is Vacant
                && #[trigger] v[b] is Vacant && v[a]->Vacant_0 is Some ==> v[a]->Vacant_0
                != v[b]->Vacant_0
    }

    /// An empty slab.
    pub fn empty() -> (r: Slab<T>)
        ensures
            r.wf(),
            forall|j: usize| r.next_free(j) is None,
            r@.len() == 0,
            r.free_head() is None,
    {
        Slab { inner: Vec::new(), next_id: None }
    }

    /// An empty slab with room for `cap` values.
    pub fn with_capacity(cap: usize) -> (r: Slab<T>)
        ensures
            r.wf(),
            forall|j: usize| r.next_free(j) is None,
            r@.len() == 0,
            r.free_head() is None,
    {
        Slab { inner: Vec::with_capacity(cap), next_id: None }
    }

    /// The value at `index`, if that slot is occupied.
    pub fn get(&self, index: usize) -> (r: Option<&T>)
        ensures
            index < self@.len() && self@[index as int] is Some ==> r == Some(&self@[index as int]->0),
            !(index < self@.len() && self@[index as int] is Some) ==> r is None,
    {
        if index >= self.inner.len() {
            return None;
        }
        match &self.inner[index] {
            Entry::Occupied(v) => Some(v),
            Entry::Vacant(_) => None,
        }
    }

    /// The value at `index`, for change, if that slot is occupied.
    pub fn get_mut(&mut self, index: usize) -> (r: Option<&mut T>)
        requires
            old(self).wf(),
        ensures
            final(self).wf(),
            final(self).free_head() == old(self).free_head(),
            index < old(self)@.len() && old(self)@[index as int] is Some ==> {
                &&& r is Some
                &&& *r->0 == old(self)@[index as int]->0
                &&& final(self)@ == old(self)@.update(index as int, Some(*final(r->0)))
            },
            !(index < old(self)@.len() && old(self)@[index as int] is Some) ==> r is None
                && final(self)@ == old(self)@,
    {
        if index >= self.inner.len() {
            return None;
        }
        match &mut self.inner[index] {
            Entry::Occupied(v) => Some(v),
            Entry::Vacant(_) => None,
        }
    }

    /// Stores `val` in the most recently freed slot, or in a new one at the
    /// end, and returns its index.
    pub fn push(&mut self, val: T) -> (r: usize)
        requires
            old(self).wf(),
        ensures
            final(self).wf(),
            match old(self).free_head() {
                Some(i) => {
                    &&& r == i
                    &&& final(self)@ == old(self)@.update(i as int, Some(val))
                    &&& final(self).free_head() == old(self).next_free(i)
                },
                None => {
                    &&& r == old(self)@.len()
                    &&& final(self)@ == old(self)@.push(Some(val))
                    &&& final(self).free_head() is None
                },
            },
            forall|j: usize| j != r ==> final(self).next_free(j) == old(self).next_free(j),
            final(self).next_free(r) is None,
            r < final(self)@.len(),
            final(self)@[r as int] == Some(val),
            old(self)@.len() <= final(self)@.len(),
            forall|j: int| 0 <= j < old(self)@.len() && j != r ==> final(self)@[j] == old(self)@[j],
    {
        match self.next_id {
            Some(index) => {
                let next = match &self.inner[index] {
                    Entry::Vacant(n) => *n,
                    Entry::Occupied(_) => None,
                };
                self.inner.set(index, Entry::Occupied(val));
                self.next_id = next;
                assert(self@ =~= old(self)@.update(index as int, Some(val)));
                proof {
                    let v0 = old(self).inner@;
                    let v = self.inner@;
                    assert forall|k: int| 0 <= k < v.len() implies match #[trigger] v[k] {
                        Entry::Vacant(Some(j)) => j < v.len() && v[j as int] is Vacant && j != k
                            && Some(j) != self.next_id,
                        _ => true,
                    } by {
                        if k != index {
                            assert(v0[k] == v[k]);
                            assert(match v0[k] {
                                Entry::Vacant(Some(j)) => j < v0.len() && v0[j as int] is Vacant && j
                                    != k && Some(j) != old(self).next_id,
                                _ => true,
                            });
                            if let Entry::Vacant(Some(j)) = v0[k] {
                                assert(v0[index as int] is Vacant);
                                assert(v0[k] is Vacant);
                            }
                        }
                    }
                    assert forall|a: int, b: int|
                        0 <= a < v.len() && 0 <= b < v.len() && a != b && #[trigger] v[a] is Vacant
                            && #[trigger] v[b] is Vacant && v[a]->Vacant_0 is Some implies v[a]->Vacant_0
                            != v[b]->Vacant_0 by {
                        assert(v0[a] == v[a]);
                        assert(v0[b] == v[b]);
                    }
                }
                index
            },
            None => {
                let index = self.inner.len();
                self.inner.push(Entry::Occupied(val));
                assert(self@ =~= old(self)@.push(Some(val)));
                proof {
                    let v0 = old(self).inner@;
                    let v = self.inner@;
                    assert forall|k: int| 0 <= k < v.len() implies match #[trigger] v[k] {
                        Entry::Vacant(Some(j)) => j < v.len() && v[j as int] is Vacant && j != k
                            && Some(j) != self.next_id,
                        _ => true,
                    } by {
                        if k < index {
                            assert(v0[k] == v[k]);
                        }
                    }
                    assert forall|a: int, b: int|
                        0 <= a < v.len() && 0 <= b < v.len() && a != b && #[trigger] v[a] is Vacant
                            && #[trigger] v[b] is Vacant && v[a]->Vacant_0 is Some implies v[a]->Vacant_0
                            != v[b]->Vacant_0 by {
                        assert(v0[a] == v[a]);
                        assert(v0[b] == v[b]);
                    }
                }
                index
            },
        }
    }

    /// Takes the value out of slot `index`, which becomes the next slot to fill.
    pub fn remove(&mut self, index: usize) -> (r: T)
        requires
            old(self).wf(),
            index < old(self)@.len(),
            old(self)@[index as int] is Some,
        ensures
            final(self).wf(),
            r == old(self)@[index as int]->0,
            final(self)@ == old(self)@.update(index as int, None),
            final(self).free_head() == Some(index),
            final(self)@.len() == old(self)@.len(),
            final(self).next_free(index) == old(self).free_head(),
            forall|j: usize| j != index ==> final(self).next_free(j) == old(self).next_free(j),
    {
        let ghost v0 = self.inner@;
        let mut entry = Entry::Vacant(self.next_id);
        self.inner.set_and_swap(index, &mut entry);
        self.next_id = Some(index);
        assert(self@ =~= old(self)@.update(index as int, None));
        proof {
            let v = self.inner@;
            assert forall|k: int| 0 <= k < v.len() implies match #[trigger] v[k] {
                Entry::Vacant(Some(j)) => j < v.len() && v[j as int] is Vacant && j != k && Some(j)
                    != self.next_id,
                _ => true,
            } by {
                if k != index {
                    assert(v0[k] == v[k]);
                    assert(v0[index as int] is Occupied);
                }
            }
            assert forall|a: int, b: int|
                0 <= a < v.len() && 0 <= b < v.len() && a != b && #[trigger] v[a] is Vacant
                    && #[trigger] v[b] is Vacant && v[a]->Vacant_0 is Some implies v[a]->Vacant_0
                    != v[b]->Vacant_0 by {
                if a != index && b != index {
                    assert(v0[a] == v[a]);
                    assert(v0[b] == v[b]);
                } else if a == index {
                    assert(v0[b] == v[b]);
                    assert(v0[b] matches Entry::Vacant(_));
                } else {
                    assert(v0[a] == v[a]);
                }
            }
        }
        match entry {
            Entry::Occupied(val) => val,
            Entry::Vacant(_) => vstd::pervasive::unreached(),
        }
    }

    /// The slot that the next `push` fills, if a slot is free.
    pub fn next_id(&self) -> (r: Option<usize>)
        ensures
            r == self.free_head(),
    {
        self.next_id
    }

    /// The number of occupied slots.
    pub fn count(&self) -> (r: usize)
        ensures
            r == occupied_count(self@),
    {
        let mut n: usize = 0;
        let mut i: usize = 0;
        while i < self.inner.len()
            invariant
                i <= self.inner@.len(),
                n == occupied_count(self@.subrange(0, i as int)),
                n <= i,
            decreases self.inner@.len() - i,
        {
            assert(self@.subrange(0, i + 1).drop_last() =~= self@.subrange(0, i as int));
            if let Entry::Occupied(_) = &self.inner[i] {
                n += 1;
            }
            i += 1;
        }
        assert(self@.subrange(0, i as int) =~= self@);
        n
    }

    /// The occupied values, by index.
    pub fn iter(&self) -> (r: Vec<&T>)
        ensures
            r@.map_values(|x: &T| *x) == occupied(self@),
    {
        let mut out: Vec<&T> = Vec::new();
        let mut i: usize = 0;
        while i < self.inner.len()
            invariant
                i <= self.inner@.len(),
                out@.map_values(|x: &T| *x) == occupied(self@.subrange(0, i as int)),
            decreases self.inner@.len() - i,
        {
            assert(self@.subrange(0, i + 1).drop_last() =~= self@.subrange(0, i as int));
            if let Entry::Occupied(v) = &self.inner[i] {
                out.push(v);
            }
            assert(out@.map_values(|x: &T| *x) =~= occupied(self@.subrange(0, i + 1)));
            i += 1;
        }
        assert(self@.subrange(0, i as int) =~= self@);
        out
    }
}

impl<T: PartialEq> Slab<T> {
    /// The first occupied slot whose value equals `value`. It looks at every
    /// slot in turn.
    pub fn find(&self, value: &T) -> (r: Option<usize>)
        ensures
            T::obeys_eq_spec() ==> match r {
                Some(i) => {
                    &&& i < self@.len()
                    &&& self@[i as int] is Some
                    &&& value.eq_spec(&self@[i as int]->0)
                    &&& forall|k: int|
                        0 <= k < i && #[trigger] self@[k] is Some ==> !value.eq_spec(&self@[k]->0)
                },
                None => forall|k: int|
                    0 <= k < self@.len() && #[trigger] self@[k] is Some ==> !value.eq_spec(
                        &self@[k]->0,
                    ),
            },
    {
        let mut i: usize = 0;
        while i < self.inner.len()
            invariant
                i <= self.inner@.len(),
                T::obeys_eq_spec() ==> forall|k: int|
                    0 <= k < i && #[trigger] self@[k] is Some ==> !value.eq_spec(&self@[k]->0),
            decreases self.inner@.len() - i,
        {
            if let Entry::Occupied(v) = &self.inner[i] {
                if value.eq(v) {
                    return Some(i);
                }
            }
            i += 1;
        }
        None
    }
}

/// The number of occupied slots.
pub open spec fn occupied_count<T>(s: Seq<Option<T>>) -> nat
    decreases s.len(),
{
    if s.len() == 0 {
        0
    } else {
        occupied_count(s.drop_last()) + if s.last() is Some {
            1nat
        } else {
            0nat
        }
    }
}

/// The values of the occupied slots, in index order.
pub open spec fn occupied<T>(s: Seq<Option<T>>) -> Seq<T>
    decreases s.len(),
{
    if s.len() == 0 {
        seq![]
    } else if s.last() is Some {
        occupied(s.drop_last()).push(s.last()->0)
    } else {
        occupied(s.drop_last())
    }
}

} // verus!
