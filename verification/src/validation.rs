//! An accumulator that either gathers good items or, from the first bad item on,
//! only the bad ones.

use vstd::prelude::*;

verus! {

/// Either all is well so far, or something is not.
pub enum Validation<T, E> {
    Valid(T),
    Invalid(E),
}

/// What the good items hold, in their order.
pub open spec fn valids<U, E>(items: Seq<Validation<U, E>>) -> Seq<U>
    decreases items.len(),
{
    if items.len() == 0 {
        Seq::empty()
    } else {
        match items.last() {
            Validation::Valid(u) => valids(items.drop_last()).push(u),
            Validation::Invalid(_) => valids(items.drop_last()),
        }
    }
}

/// What the bad items hold, in their order.
pub open spec fn invalids<U, E>(items: Seq<Validation<U, E>>) -> Seq<E>
    decreases items.len(),
{
    if items.len() == 0 {
        Seq::empty()
    } else {
        match items.last() {
            Validation::Valid(_) => invalids(items.drop_last()),
            Validation::Invalid(e) => invalids(items.drop_last()).push(e),
        }
    }
}

impl<T, E> Validation<T, E> {
    /// What a bad value holds.
    pub fn invalid(self) -> (e: Option<E>)
        ensures
            e == match self {
                Validation::Invalid(e) => Some(e),
                Validation::Valid(_) => None::<E>,
            },
    {
        if let Validation::Invalid(e) = self {
            Some(e)
        } else {
            None
        }
    }
}

impl<U, E> Validation<Vec<U>, Vec<E>> {
    /// What the accumulator holds once `items` are added to one that holds `self`.
    ///
    /// The first bad item turns a good accumulator into a bad one that holds only
    /// that item. A bad accumulator takes every further bad item.
    pub open spec fn extended(self, items: Seq<Validation<U, E>>, then: Self) -> bool {
        match self {
            Validation::Valid(t) => if invalids(items).len() == 0 {
                then matches Validation::Valid(v) && v@ == t@ + valids(items)
            } else {
                then matches Validation::Invalid(e) && e@ == invalids(items)
            },
            Validation::Invalid(e0) => then matches Validation::Invalid(e) && e@ == e0@ + invalids(
                items,
            ),
        }
    }

    /// The accumulator that holds nothing yet, and is good.
    pub fn default() -> (start: Self)
        ensures
            start matches Validation::Valid(t) && t@.len() == 0,
    {
        Validation::Valid(Vec::new())
    }

    /// Adds `items` in their order.
    pub fn extend(&mut self, items: Vec<Validation<U, E>>)
        ensures
            old(self).extended(items@, *final(self)),
    {
        let ghost all = items@;
        let ghost start = *self;
        let mut cur: Validation<Vec<U>, Vec<E>> = Validation::Valid(Vec::new());
        core::mem::swap(self, &mut cur);
        proof {
            assert(all.take(0) =~= Seq::<Validation<U, E>>::empty());
            match start {
                Validation::Valid(t) => {
                    assert(t@ + valids(all.take(0)) =~= t@);
                },
                Validation::Invalid(e0) => {
                    assert(e0@ + invalids(all.take(0)) =~= e0@);
                },
            }
        }
        for item in it: items
            invariant
                it.seq() == all,
                start.extended(all.take(it.index() as int), cur),
        {
            let ghost i = it.index() as int;
            proof {
                assert(all.take(i + 1).drop_last() =~= all.take(i));
                assert(all.take(i + 1).last() == item);
            }
            let ghost given = item;
            cur = match cur {
                Validation::Valid(t) => match item {
                    Validation::Valid(u) => {
                        let mut t = t;
                        t.push(u);
                        Validation::Valid(t)
                    },
                    Validation::Invalid(e) => {
                        let mut first: Vec<E> = Vec::new();
                        first.push(e);
                        Validation::Invalid(first)
                    },
                },
                Validation::Invalid(es) => match item {
                    Validation::Valid(_) => Validation::Invalid(es),
                    Validation::Invalid(e) => {
                        let mut es = es;
                        es.push(e);
                        Validation::Invalid(es)
                    },
                },
            };
            proof {
                let was = all.take(i);
                let now = all.take(i + 1);
                match start {
                    Validation::Valid(t0) => {
                        match given {
                            Validation::Valid(u) => {
                                if invalids(was).len() == 0 {
                                    assert((t0@ + valids(was)).push(u) =~= t0@ + valids(now));
                                }
                            },
                            Validation::Invalid(e) => {
                                if invalids(was).len() == 0 {
                                    assert(Seq::<E>::empty().push(e) =~= invalids(now));
                                }
                            },
                        }
                    },
                    Validation::Invalid(e0) => {
                        match given {
                            Validation::Valid(u) => {},
                            Validation::Invalid(e) => {
                                assert((e0@ + invalids(was)).push(e) =~= e0@ + invalids(now));
                            },
                        }
                    },
                }
            }
        }
        proof {
            assert(all.take(all.len() as int) =~= all);
        }
        *self = cur;
    }

    /// The accumulator that `items` leave behind.
    pub fn from_iter(items: Vec<Validation<U, E>>) -> (all: Self)
        ensures
            if invalids(items@).len() == 0 {
                all matches Validation::Valid(v) && v@ == valids(items@)
            } else {
                all matches Validation::Invalid(e) && e@ == invalids(items@)
            },
    {
        let mut v = Self::default();
        let ghost start = v;
        v.extend(items);
        proof {
            if let Validation::Valid(t) = start {
                assert(t@ + valids(items@) =~= valids(items@));
            }
        }
        v
    }
}

} // verus!
