//! A persistent list that grows at its end. Lists share what they have in common.

use std::sync::Arc;
use vstd::prelude::*;

verus! {

/// A list of at least one element.
pub struct NonEmpty<T>(Arc<Node<T>>);

struct Node<T> {
    size: usize,
    value: T,
    rest: Option<NonEmpty<T>>,
}

impl<T> View for NonEmpty<T> {
    type V = Seq<T>;

    /// The elements, the oldest first.
    closed spec fn view(&self) -> Seq<T> {
        self.elements()
    }
}

impl<T> NonEmpty<T> {
    /// The elements, the oldest first.
    closed spec fn elements(self) -> Seq<T>
        decreases self,
    {
        match self.0.rest {
            None => seq![self.0.value],
            Some(rest) => rest.elements().push(self.0.value),
        }
    }

    /// Every node knows how many elements end with it.
    #[verifier::type_invariant]
    closed spec fn counted(self) -> bool
        decreases self,
    {
        &&& self.0.size == self.elements().len()
        &&& match self.0.rest {
            None => true,
            Some(rest) => rest.counted(),
        }
    }

    /// The list of one element.
    pub fn new(value: T) -> (list: Self)
        ensures
            list@ == seq![value],
    {
        NonEmpty(Arc::new(Node { value, rest: None, size: 1 }))
    }

    /// The list with `value` behind its last element.
    pub fn snoc(self, value: T) -> (list: Self)
        requires
            self@.len() < usize::MAX,
        ensures
            list@ == self@.push(value),
    {
        proof {
            use_type_invariant(&self);
        }
        let size: usize = self.0.size + 1;
        NonEmpty(Arc::new(Node { size, value, rest: Some(self) }))
    }

    /// The list with all of `values` behind its last element, in their order.
    pub fn snocs(self, values: Vec<T>) -> (list: Self)
        requires
            self@.len() + values@.len() <= usize::MAX,
        ensures
            list@ == self@ + values@,
    {
        let ghost start = self@;
        let ghost all = values@;
        let mut list = self;
        assert(start + all.take(0) =~= start);
        for value in it: values
            invariant
                start.len() + all.len() <= usize::MAX,
                it.seq() == all,
                list@ == start + all.take(it.index() as int),
        {
            assert(all.take(it.index() + 1) =~= all.take(it.index() as int).push(value));
            assert((start + all.take(it.index() as int)).push(value) =~= start + all.take(
                it.index() + 1,
            ));
            list = list.snoc(value);
        }
        assert(all.take(all.len() as int) =~= all);
        list
    }

    /// The element that was added last.
    pub fn last(&self) -> (value: &T)
        ensures
            *value == self@.last(),
    {
        &self.0.value
    }

    /// The number of elements, which is one at the least.
    pub fn len(&self) -> (n: usize)
        ensures
            n == self@.len(),
            n >= 1,
    {
        proof {
            use_type_invariant(self);
        }
        self.0.size
    }

    /// What `transform` makes of each element, in the order of the list.
    ///
    /// The elements are visited from the last to the first.
    pub fn map_vec<U, F: Fn(&T) -> U>(&self, transform: F) -> (out: Vec<U>)
        requires
            forall|k: int| 0 <= k < self@.len() ==> transform.requires((&#[trigger] self@[k],)),
        ensures
            out@.len() == self@.len(),
            forall|k: int|
                0 <= k < self@.len() ==> transform.ensures((&#[trigger] self@[k],), out@[k]),
    {
        let ghost all = self@;
        let mut back: Vec<U> = Vec::new();
        let mut cur: &NonEmpty<T> = self;
        assert(all.take(all.len() as int) =~= all);
        loop
            invariant_except_break
                1 <= cur@.len() <= all.len(),
                cur@ == all.take(cur@.len() as int),
                back@.len() + cur@.len() == all.len(),
            invariant
                all == self@,
                forall|k: int| 0 <= k < all.len() ==> transform.requires((&#[trigger] all[k],)),
                forall|q: int|
                    0 <= q < back@.len() ==> transform.ensures(
                        (&all[all.len() - 1 - q],),
                        #[trigger] back@[q],
                    ),
            ensures
                back@.len() == all.len(),
                forall|q: int|
                    0 <= q < back@.len() ==> transform.ensures(
                        (&all[all.len() - 1 - q],),
                        #[trigger] back@[q],
                    ),
            decreases cur@.len(),
        {
            let ghost m = cur@.len() as int;
            assert(cur.0.value == cur@[m - 1]);
            assert(all[m - 1] == cur@[m - 1]);
            back.push(transform(&cur.0.value));
            match &cur.0.rest {
                None => {
                    break ;
                },
                Some(rest) => {
                    assert(rest@ =~= cur@.take(m - 1));
                    assert(rest@ =~= all.take(m - 1));
                    cur = rest;
                },
            }
        }
        let mut out: Vec<U> = Vec::new();
        while back.len() > 0
            invariant
                out@.len() + back@.len() == all.len(),
                forall|q: int|
                    0 <= q < back@.len() ==> transform.ensures(
                        (&all[all.len() - 1 - q],),
                        #[trigger] back@[q],
                    ),
                forall|k: int|
                    0 <= k < out@.len() ==> transform.ensures((&all[k],), #[trigger] out@[k]),
            decreases back@.len(),
        {
            let ghost before = back@;
            match back.pop() {
                Some(made) => {
                    assert(before[before.len() - 1] == made);
                    out.push(made);
                },
                None => {},
            }
        }
        out
    }
}

/// A list that may be empty.
pub struct SnocList<T>(Option<NonEmpty<T>>);

impl<T> View for SnocList<T> {
    type V = Seq<T>;

    /// The elements, the oldest first.
    closed spec fn view(&self) -> Seq<T> {
        match self.0 {
            None => Seq::empty(),
            Some(list) => list@,
        }
    }
}

impl<T> SnocList<T> {
    /// The empty list.
    pub fn new() -> (list: Self)
        ensures
            list@ == Seq::<T>::empty(),
    {
        SnocList(None)
    }

    /// The list of one element.
    pub fn single(value: T) -> (list: Self)
        ensures
            list@ == seq![value],
    {
        SnocList(Some(NonEmpty::new(value)))
    }

    /// The list with `value` behind its last element.
    pub fn snoc(self, value: T) -> (list: Self)
        requires
            self@.len() < usize::MAX,
        ensures
            list@ == self@.push(value),
    {
        match self.0 {
            Some(ts) => SnocList(Some(ts.snoc(value))),
            None => {
                assert(Seq::<T>::empty().push(value) =~= seq![value]);
                Self::single(value)
            },
        }
    }

    /// The list with all of `values` behind its last element, in their order.
    pub fn snocs(self, values: Vec<T>) -> (list: Self)
        requires
            self@.len() + values@.len() <= usize::MAX,
        ensures
            list@ == self@ + values@,
    {
        match self.0 {
            Some(ts) => SnocList(Some(ts.snocs(values))),
            None => {
                let mut values = values;
                if values.len() == 0 {
                    assert(Seq::<T>::empty() + values@ =~= Seq::<T>::empty());
                    return Self::new();
                }
                let ghost all = values@;
                let first = values.remove(0);
                assert(Seq::<T>::empty() + all =~= seq![first] + values@);
                SnocList(Some(NonEmpty::new(first).snocs(values)))
            },
        }
    }

    /// What `transform` makes of each element, in the order of the list.
    pub fn map_vec<U, F: Fn(&T) -> U>(&self, transform: F) -> (out: Vec<U>)
        requires
            forall|k: int| 0 <= k < self@.len() ==> transform.requires((&#[trigger] self@[k],)),
        ensures
            out@.len() == self@.len(),
            forall|k: int|
                0 <= k < self@.len() ==> transform.ensures((&#[trigger] self@[k],), out@[k]),
    {
        match &self.0 {
            None => Vec::new(),
            Some(ts) => {
                assert(self@ == ts@);
                ts.map_vec(transform)
            },
        }
    }
}

} // verus!
