//! A list that other lists can be put behind.

use std::collections::VecDeque;
use vstd::prelude::*;

verus! {

/// A list. Its elements are held in a double-ended queue of std.
pub struct LinkedList<T>(pub VecDeque<T>);

/// The elements of all the lists, one list behind the other.
pub open spec fn chained<T>(lists: Seq<LinkedList<T>>) -> Seq<T>
    decreases lists.len(),
{
    if lists.len() == 0 {
        Seq::empty()
    } else {
        chained(lists.drop_last()) + lists.last().0@
    }
}

impl<T> LinkedList<T> {
    /// The empty list.
    pub fn default() -> (list: Self)
        ensures
            list.0@ == Seq::<T>::empty(),
    {
        LinkedList(VecDeque::new())
    }

    /// The list of one element.
    pub fn from(elem: T) -> (list: Self)
        ensures
            list.0@ == seq![elem],
    {
        let mut queue: VecDeque<T> = VecDeque::new();
        queue.push_back(elem);
        LinkedList(queue)
    }

    /// Puts the elements behind the last of the list, in their order.
    pub fn extend(&mut self, elems: Vec<T>)
        ensures
            final(self).0@ == old(self).0@ + elems@,
    {
        let ghost all = elems@;
        let ghost start = self.0@;
        assert(start + all.take(0) =~= start);
        for elem in it: elems
            invariant
                it.seq() == all,
                self.0@ == start + all.take(it.index() as int),
        {
            assert((start + all.take(it.index() as int)).push(elem) =~= start + all.take(
                it.index() + 1,
            ));
            self.0.push_back(elem);
        }
        assert(all.take(all.len() as int) =~= all);
    }

    /// The list of the elements, in their order.
    pub fn from_iter(elems: Vec<T>) -> (list: Self)
        ensures
            list.0@ == elems@,
    {
        let mut list = Self::default();
        list.extend(elems);
        assert(Seq::<T>::empty() + elems@ =~= elems@);
        list
    }

    /// Puts the elements of all the lists behind the last of this list, one list
    /// behind the other.
    pub fn extend_lists(&mut self, lists: Vec<LinkedList<T>>)
        ensures
            final(self).0@ == old(self).0@ + chained(lists@),
    {
        let ghost all = lists@;
        let ghost start = self.0@;
        assert(all.take(0) =~= Seq::<LinkedList<T>>::empty());
        assert(start + chained(all.take(0)) =~= start);
        for list in it: lists
            invariant
                it.seq() == all,
                self.0@ == start + chained(all.take(it.index() as int)),
        {
            let ghost i = it.index() as int;
            let mut list = list;
            proof {
                assert(all.take(i + 1).drop_last() =~= all.take(i));
                assert(all.take(i + 1).last() == list);
                assert((start + chained(all.take(i))) + list.0@
                    =~= start + chained(all.take(i + 1)));
            }
            self.0.append(&mut list.0);
        }
        assert(all.take(all.len() as int) =~= all);
    }
}

} // verus!
