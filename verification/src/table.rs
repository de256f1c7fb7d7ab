//! Weights by handle.

use std::sync::Arc;

use vstd::prelude::*;

use crate::matrix::Matrix;
use crate::substrate::WeightHandle;

verus! {

/// Weights by handle, at most one for each.
#[derive(Debug)]
pub struct WeightTable<T> {
    entries: Vec<(WeightHandle, Arc<Matrix<T>>)>,
}

/// Whether a handle is among the entries.
spec fn listed<T>(e: Seq<(WeightHandle, Arc<Matrix<T>>)>, h: WeightHandle) -> bool {
    exists|i: int| 0 <= i < e.len() && #[trigger] e[i].0 == h
}

/// The weight that stands with a handle.
spec fn listed_weight<T>(e: Seq<(WeightHandle, Arc<Matrix<T>>)>, h: WeightHandle) -> Matrix<T> {
    *e[choose|i: int| 0 <= i < e.len() && #[trigger] e[i].0 == h].1
}

impl<T> View for WeightTable<T> {
    type V = Map<WeightHandle, Matrix<T>>;

    closed spec fn view(&self) -> Map<WeightHandle, Matrix<T>> {
        Map::new(
            |h: WeightHandle| listed(self.entries@, h),
            |h: WeightHandle| listed_weight(self.entries@, h),
        )
    }
}

impl<T> WeightTable<T> {
    #[verifier::type_invariant]
    spec fn unique(self) -> bool {
        forall|i: int, j: int|
            0 <= i < j < self.entries@.len() ==> (#[trigger] self.entries@[i]).0 != (
            #[trigger] self.entries@[j]).0
    }

    pub fn new() -> (r: WeightTable<T>)
        ensures
            r@ == Map::<WeightHandle, Matrix<T>>::empty(),
    {
        let r = WeightTable { entries: Vec::new() };
        assert(r@ =~= Map::<WeightHandle, Matrix<T>>::empty());
        r
    }

    fn position(&self, handle: WeightHandle) -> (r: Option<usize>)
        ensures
            match r {
                Some(i) => i < self.entries@.len() && self.entries@[i as int].0 == handle,
                None => !listed(self.entries@, handle),
            },
    {
        for i in 0..self.entries.len()
            invariant
                forall|j: int| 0 <= j < i ==> (#[trigger] self.entries@[j]).0 != handle,
        {
            if self.entries[i].0 == handle {
                return Some(i);
            }
        }
        None
    }

    /// The weight of a handle.
    pub fn get(&self, handle: WeightHandle) -> (r: Option<&Arc<Matrix<T>>>)
        ensures
            r is Some <==> self@.contains_key(handle),
            r matches Some(w) ==> **w == self@[handle],
    {
        proof {
            use_type_invariant(self);
        }
        match self.position(handle) {
            Some(i) => {
                proof {
                    let j = choose|j: int|
                        0 <= j < self.entries@.len() && #[trigger] self.entries@[j].0 == handle;
                    assert(self.entries@[i as int].0 == handle);
                    assert(j == i);
                }
                Some(&self.entries[i].1)
            },
            None => None,
        }
    }

    /// Sets the weight of a handle.
    pub fn insert(&mut self, handle: WeightHandle, weight: Arc<Matrix<T>>)
        ensures
            final(self)@ == old(self)@.insert(handle, *weight),
    {
        proof {
            use_type_invariant(&*self);
        }
        let ghost before = self.entries@;
        let at: Option<usize> = self.position(handle);
        let mut entries: Vec<(WeightHandle, Arc<Matrix<T>>)> = Vec::new();
        std::mem::swap(&mut entries, &mut self.entries);
        let ghost shared = weight;
        match at {
            Some(i) => {
                entries[i] = (handle, weight);
            },
            None => {
                entries.push((handle, weight));
            },
        }
        proof {
            lemma_inserted(before, entries@, handle, shared);
        }
        self.entries = entries;
        assert(self@ =~= old(self)@.insert(handle, *shared));
    }
}

proof fn lemma_inserted<T>(
    before: Seq<(WeightHandle, Arc<Matrix<T>>)>,
    after: Seq<(WeightHandle, Arc<Matrix<T>>)>,
    handle: WeightHandle,
    w: Arc<Matrix<T>>,
)
    requires
        forall|i: int, j: int|
            0 <= i < j < before.len() ==> (#[trigger] before[i]).0 != (#[trigger] before[j]).0,
        ({
            ||| exists|i: int|
                #![trigger before[i]]
                {
                    &&& 0 <= i < before.len()
                    &&& before[i].0 == handle
                    &&& after.len() == before.len()
                    &&& after[i].0 == handle
                    &&& after[i].1 == w
                    &&& forall|j: int|
                        0 <= j < before.len() && j != i ==> #[trigger] after[j] == before[j]
                }
            ||| {
                &&& !listed(before, handle)
                &&& after.len() == before.len() + 1
                &&& after.last().0 == handle
                &&& after.last().1 == w
                &&& forall|j: int| 0 <= j < before.len() ==> #[trigger] after[j] == before[j]
            }
        }),
    ensures
        forall|i: int, j: int|
            0 <= i < j < after.len() ==> (#[trigger] after[i]).0 != (#[trigger] after[j]).0,
        forall|h: WeightHandle|
            #[trigger] listed(after, h) == (listed(before, h) || h == handle),
        forall|h: WeightHandle|
            listed(after, h) ==> #[trigger] listed_weight(after, h) == (if h == handle {
                *w
            } else {
                listed_weight(before, h)
            }),
{
    let at = if listed(before, handle) {
        choose|i: int| 0 <= i < before.len() && #[trigger] before[i].0 == handle
    } else {
        before.len() as int
    };
    if listed(before, handle) {
        let i = choose|i: int|
            #![trigger before[i]]
            {
                &&& 0 <= i < before.len()
                &&& before[i].0 == handle
                &&& after.len() == before.len()
                &&& after[i].0 == handle
                &&& after[i].1 == w
                &&& forall|j: int|
                    0 <= j < before.len() && j != i ==> #[trigger] after[j] == before[j]
            };
        assert(i == at);
    }
    assert(0 <= at < after.len() && after[at].0 == handle && after[at].1 == w);
    assert forall|i: int, j: int| 0 <= i < j < after.len() implies (#[trigger] after[i]).0 != (
    #[trigger] after[j]).0 by {
        if i != at && j != at {
            assert(after[i] == before[i] && after[j] == before[j]);
        } else if i == at && j < before.len() {
            assert(after[j] == before[j]);
            if listed(before, handle) {
                assert(before[at].0 == handle);
            }
        } else if j == at && i < before.len() {
            assert(after[i] == before[i]);
            if !listed(before, handle) {
                assert(before[i].0 != handle);
            } else {
                assert(before[at].0 == handle);
            }
        }
    }
    assert forall|h: WeightHandle| #[trigger] listed(after, h) == (listed(before, h) || h
        == handle) by {
        if listed(before, h) {
            let i = choose|i: int| 0 <= i < before.len() && #[trigger] before[i].0 == h;
            assert(after[i].0 == h);
        }
        if listed(after, h) && h != handle {
            let i = choose|i: int| 0 <= i < after.len() && #[trigger] after[i].0 == h;
            assert(before[i].0 == h);
        }
        if h == handle {
            assert(after[at].0 == h);
        }
    }
    assert forall|h: WeightHandle| listed(after, h) implies #[trigger] listed_weight(after, h) == (
    if h == handle {
        *w
    } else {
        listed_weight(before, h)
    }) by {
        let i = choose|i: int| 0 <= i < after.len() && #[trigger] after[i].0 == h;
        if h == handle {
            assert(after[at].0 == h);
            assert(i == at);
        } else {
            assert(before[i].0 == h);
            let j = choose|j: int| 0 <= j < before.len() && #[trigger] before[j].0 == h;
            assert(j == i);
        }
    }
}

/// Another handle to the same storage, from `Arc::clone`: it leads to the same value.
#[verifier::external_body]
pub(crate) fn share<T>(a: &Arc<T>) -> (r: Arc<T>)
    ensures
        r == *a,
{
    Arc::clone(a)
}

impl<T> Clone for WeightTable<T> {
    /// A table of the same weights, which are shared.
    fn clone(&self) -> (r: WeightTable<T>)
        ensures
            r@ == self@,
    {
        proof {
            use_type_invariant(self);
        }
        let mut entries: Vec<(WeightHandle, Arc<Matrix<T>>)> = Vec::new();
        for i in 0..self.entries.len()
            invariant
                entries@ == self.entries@.take(i as int),
        {
            entries.push((self.entries[i].0, share(&self.entries[i].1)));
            assert(self.entries@.take(i + 1) =~= self.entries@.take(i as int).push(
                self.entries@[i as int],
            ));
        }
        assert(entries@ =~= self.entries@);
        WeightTable { entries }
    }
}

impl<T> Default for WeightTable<T> {
    fn default() -> (r: WeightTable<T>)
        ensures
            r@ == Map::<WeightHandle, Matrix<T>>::empty(),
    {
        WeightTable::new()
    }
}

} // verus!
