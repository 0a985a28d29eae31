//! A small iterator over zero, one, two or many elements, which avoids an allocation
//! in the common cases.
use vstd::prelude::*;

verus! {

/// How many elements are left, and where they are kept.
pub enum IteratorSize<E> {
    Empty,
    Once(Option<E>),
    Twice(Option<(E, E)>),
    /// The remaining elements in reverse order: the next one is the last.
    Many(Vec<E>),
}

/// An iterator over a handful of elements.
pub struct Iterating<E>(pub IteratorSize<E>);

impl<E> View for Iterating<E> {
    type V = Seq<E>;

    /// The elements that are still to come, in the order in which they come.
    open spec fn view(&self) -> Seq<E> {
        match self.0 {
            IteratorSize::Empty => Seq::empty(),
            IteratorSize::Once(Some(e)) => seq![e],
            IteratorSize::Once(None) => Seq::empty(),
            IteratorSize::Twice(Some((a, b))) => seq![a, b],
            IteratorSize::Twice(None) => Seq::empty(),
            IteratorSize::Many(v) => v@.reverse(),
        }
    }
}

impl<E> Iterating<E> {
    /// An iterator with no element.
    pub fn empty() -> (it: Self)
        ensures
            it@ == Seq::<E>::empty(),
    {
        Iterating(IteratorSize::Empty)
    }

    /// An iterator over one element.
    pub fn once(element: E) -> (it: Self)
        ensures
            it@ == seq![element],
    {
        Iterating(IteratorSize::Once(Some(element)))
    }

    /// An iterator over two elements, `first` before `second`.
    pub fn twice(first: E, second: E) -> (it: Self)
        ensures
            it@ == seq![first, second],
    {
        Iterating(IteratorSize::Twice(Some((first, second))))
    }

    /// An iterator over the elements of a vector, in their order.
    pub fn from_vec(elements: Vec<E>) -> (it: Self)
        ensures
            it@ == elements@,
    {
        let ghost initial = elements@;
        let mut elements = elements;
        let mut reversed: Vec<E> = Vec::new();
        while elements.len() > 0
            invariant
                initial == reversed@.reverse() + elements@,
            decreases elements@.len(),
        {
            let ghost before = elements@;
            let ghost reversed_before = reversed@;
            let e = elements.remove(0);
            reversed.insert(0, e);
            proof {
                assert(before =~= seq![e] + elements@);
                assert(reversed@.reverse() =~= reversed_before.reverse() + seq![e]);
                assert(initial =~= reversed@.reverse() + elements@);
            }
        }
        assert(reversed@.reverse() =~= initial);
        let n = reversed.len();
        if n == 0 {
            Iterating(IteratorSize::Empty)
        } else if n == 1 {
            let e = reversed.pop().unwrap();
            assert(initial =~= seq![e]);
            Iterating(IteratorSize::Once(Some(e)))
        } else if n == 2 {
            let ghost r = reversed@;
            let a = reversed.pop().unwrap();
            let b = reversed.pop().unwrap();
            assert(initial =~= seq![a, b]) by {
                assert(r.reverse()[0] == r[1]);
                assert(r.reverse()[1] == r[0]);
            }
            Iterating(IteratorSize::Twice(Some((a, b))))
        } else {
            Iterating(IteratorSize::Many(reversed))
        }
    }

    /// Every element, taken one after the other by `next` until none is left: the elements
    /// come in the order in which the iterator was given them.
    pub fn into_vec(self) -> (v: Vec<E>)
        ensures
            v@ == self@,
    {
        let ghost all = self@;
        let mut it = self;
        let mut taken: Vec<E> = Vec::new();
        loop
            invariant
                all == taken@ + it@,
            ensures
                all == taken@,
            decreases it@.len(),
        {
            let ghost before = it@;
            match it.next() {
                Some(e) => {
                    taken.push(e);
                    assert(all =~= taken@ + it@) by {
                        assert(before =~= seq![e] + it@);
                    }
                },
                None => {
                    assert(taken@ + it@ =~= taken@);
                    break;
                },
            }
        }
        taken
    }

    /// Takes the next element, if any is left.
    pub fn next(&mut self) -> (res: Option<E>)
        ensures
            old(self)@.len() == 0 ==> res is None && final(self)@.len() == 0,
            old(self)@.len() > 0 ==> res == Some(old(self)@[0]) && final(self)@ == old(self)@.drop_first(),
    {
        let mut size = IteratorSize::Empty;
        std::mem::swap(&mut size, &mut self.0);
        match size {
            IteratorSize::Empty => None,
            IteratorSize::Once(element) => {
                match element {
                    Some(e) => {
                        assert(old(self)@ == seq![e]);
                        assert(old(self)@.drop_first() =~= Seq::<E>::empty());
                        assert(self@ =~= Seq::<E>::empty());
                        Some(e)
                    },
                    None => None,
                }
            },
            IteratorSize::Twice(elements) => {
                match elements {
                    Some((first, second)) => {
                        self.0 = IteratorSize::Once(Some(second));
                        assert(self@ =~= old(self)@.drop_first());
                        Some(first)
                    },
                    None => None,
                }
            },
            IteratorSize::Many(elements) => {
                let ghost r = elements@;
                let mut elements = elements;
                let output = elements.pop();
                if elements.len() == 2 {
                    let ghost r2 = elements@;
                    let a = elements.pop().unwrap();
                    let b = elements.pop().unwrap();
                    self.0 = IteratorSize::Twice(Some((a, b)));
                    assert(self@ =~= old(self)@.drop_first()) by {
                        assert(r2 =~= seq![b, a]);
                        assert(r =~= r2.push(output.unwrap()));
                        assert(r.reverse() =~= seq![output.unwrap(), a, b]);
                    }
                } else {
                    self.0 = IteratorSize::Many(elements);
                    assert(r.len() > 0 ==> r.reverse().drop_first() =~= elements@.reverse());
                    assert(r.len() == 0 ==> elements@.reverse() =~= Seq::<E>::empty());
                }
                output
            },
        }
    }
}

} // verus!
