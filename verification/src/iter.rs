//! Cursors over a container: shared, exclusive and owning.

use crate::list::LURLinked;
use crate::model::lemma_position_unique;
use vstd::prelude::*;

verus! {

/// The two ends of a cursor: the arena locations that its forward and its
/// backward half stand on, and the number of pairs between them.
#[derive(Clone, Copy)]
pub struct Ends {
    front: usize,
    back: usize,
    len: usize,
    taken: Ghost<int>,
}

impl Ends {
    /// The ends lie in `list`, around the `len` pairs that follow the first
    /// `taken` ones.
    spec fn around<T>(self, list: &LURLinked<T>) -> bool {
        &&& 0 <= self.taken@
        &&& self.taken@ + self.len <= list@.len()
        &&& self.front == list.loc(self.taken@ - 1)
        &&& self.back == list.loc(self.taken@ + self.len)
    }

    /// The pairs of `list` between the ends, front to back.
    spec fn between<T>(self, list: &LURLinked<T>) -> Seq<(usize, T)> {
        Seq::new(self.len as nat, |i: int| list@[self.taken@ + i])
    }
}

/// A cursor over the pairs of a container, borrowed from it. It can be
/// advanced from the front and from the back in any interleaving, and hands
/// out each pair once.
pub struct Iter<'a, T> {
    list: &'a LURLinked<T>,
    ends: Ends,
}

impl<'a, T> View for Iter<'a, T> {
    type V = Seq<(usize, T)>;

    /// The pairs that the cursor has yet to hand out, front to back.
    closed spec fn view(&self) -> Seq<(usize, T)> {
        self.ends.between(self.list)
    }
}

impl<'a, T> Clone for Iter<'a, T> {
    /// A second cursor over the same remaining pairs.
    fn clone(&self) -> (other: Self)
        ensures
            other == *self,
    {
        Iter { list: self.list, ends: self.ends }
    }
}

impl<'a, T> Iter<'a, T> {
    /// The cursor stands in a well-formed container, with its two ends
    /// around the pairs it has yet to hand out.
    pub closed spec fn wf(&self) -> bool {
        self.list.wf() && self.ends.around(self.list)
    }

    /// Hands out the first of the remaining pairs; `None` once none remains.
    #[inline]
    pub fn next(&mut self) -> (item: Option<(usize, &'a T)>)
        requires
            old(self).wf(),
        ensures
            final(self).wf(),
            match item {
                Some(pair) => old(self)@.len() > 0 && pair.0 == old(self)@.first().0 && *pair.1
                    == old(self)@.first().1 && final(self)@ == old(self)@.drop_first(),
                None => old(self)@.len() == 0 && final(self)@ == old(self)@,
            },
    {
        if self.ends.len > 0 {
            let list: &'a LURLinked<T> = self.list;
            let ghost at = self.ends.taken@;
            match list.after(self.ends.front, Ghost(at - 1)) {
                Some(loc) => {
                    let pair = list.entry(loc, Ghost(at));
                    self.ends.front = loc;
                    self.ends.len -= 1;
                    self.ends.taken = Ghost(at + 1);
                    assert(self@ =~= old(self)@.drop_first());
                    Some(pair)
                },
                None => None,
            }
        } else {
            None
        }
    }

    /// Hands out the last of the remaining pairs; `None` once none remains.
    #[inline]
    pub fn next_back(&mut self) -> (item: Option<(usize, &'a T)>)
        requires
            old(self).wf(),
        ensures
            final(self).wf(),
            match item {
                Some(pair) => old(self)@.len() > 0 && pair.0 == old(self)@.last().0 && *pair.1
                    == old(self)@.last().1 && final(self)@ == old(self)@.drop_last(),
                None => old(self)@.len() == 0 && final(self)@ == old(self)@,
            },
    {
        if self.ends.len > 0 {
            let list: &'a LURLinked<T> = self.list;
            let ghost end = self.ends.taken@ + self.ends.len;
            let loc = list.before(self.ends.back, Ghost(end));
            let pair = list.entry(loc, Ghost(end - 1));
            self.ends.back = loc;
            self.ends.len -= 1;
            assert(self@ =~= old(self)@.drop_last());
            Some(pair)
        } else {
            None
        }
    }

    /// The number of pairs that the cursor has yet to hand out.
    #[inline]
    pub fn len(&self) -> (n: usize)
        ensures
            n == self@.len(),
    {
        self.ends.len
    }

    /// The bounds on the number of pairs still to come: both are `len()`.
    pub fn size_hint(&self) -> (bounds: (usize, Option<usize>))
        ensures
            bounds.0 == self@.len(),
            bounds.1 == Some(self@.len() as usize),
    {
        (self.ends.len, Some(self.ends.len))
    }
}

/// A cursor over the pairs of a container that it has exclusive access to.
/// It can be advanced from the front and from the back in any interleaving,
/// and hands out each pair once, the value for reading and writing. The
/// container is left as the cursor leaves `list`.
pub struct IterMut<'a, T> {
    /// The container that the cursor walks.
    pub list: &'a mut LURLinked<T>,
    /// Where in the container the cursor stands.
    pub ends: Ends,
}

impl<'a, T> View for IterMut<'a, T> {
    type V = Seq<(usize, T)>;

    /// The pairs that the cursor has yet to hand out, front to back.
    closed spec fn view(&self) -> Seq<(usize, T)> {
        self.ends.between(&*self.list)
    }
}

impl<'a, T> IterMut<'a, T> {
    /// The cursor stands in a well-formed container, with its two ends
    /// around the pairs it has yet to hand out.
    pub closed spec fn wf(&self) -> bool {
        self.list.wf() && self.ends.around(&*self.list)
    }

    /// The number of pairs that the cursor handed out from the front.
    pub closed spec fn taken_front(&self) -> int {
        self.ends.taken@
    }

    /// All pairs of the container that the cursor stands in, as they are now.
    pub open spec fn pairs(&self) -> Seq<(usize, T)> {
        self.list@
    }

    /// The pairs that a well-formed cursor has yet to hand out are those of
    /// its container that follow the pairs handed out from the front.
    pub proof fn lemma_remaining(&self)
        requires
            self.wf(),
        ensures
            0 <= self.taken_front(),
            self.taken_front() + self@.len() <= self.pairs().len(),
            self@ == self.pairs().subrange(self.taken_front(), self.taken_front() + self@.len()),
    {
        assert(self@ =~= self.pairs().subrange(
            self.taken_front(),
            self.taken_front() + self@.len(),
        ));
    }

    /// Hands out the first of the remaining pairs; `None` once none remains.
    /// What is written through the pair's value replaces the value of that
    /// pair in the container.
    #[inline]
    pub fn next(&mut self) -> (item: Option<(usize, &mut T)>)
        requires
            old(self).wf(),
        ensures
            final(self).wf(),
            final(self).list.wf(),
            final(self).list.next_key() == old(self).list.next_key(),
            *final(final(self).list) == *final(old(self).list),
            match item {
                Some(pair) => {
                    &&& old(self)@.len() > 0
                    &&& pair.0 == old(self)@.first().0
                    &&& *pair.1 == old(self)@.first().1
                    &&& final(self)@ == old(self)@.drop_first()
                    &&& final(self).taken_front() == old(self).taken_front() + 1
                    &&& final(self).pairs() == old(self).pairs().update(
                        old(self).taken_front(),
                        (pair.0, *final(pair.1)),
                    )
                },
                None => {
                    &&& old(self)@.len() == 0
                    &&& final(self)@ == old(self)@
                    &&& final(self).taken_front() == old(self).taken_front()
                    &&& final(self).pairs() == old(self).pairs()
                },
            },
    {
        if self.ends.len > 0 {
            let ghost at = self.ends.taken@;
            match self.list.after(self.ends.front, Ghost(at - 1)) {
                Some(loc) => {
                    self.ends.front = loc;
                    self.ends.len -= 1;
                    self.ends.taken = Ghost(at + 1);
                    Some(self.list.entry_mut(loc, Ghost(at)))
                },
                None => None,
            }
        } else {
            None
        }
    }

    /// Hands out the last of the remaining pairs; `None` once none remains.
    /// What is written through the pair's value replaces the value of that
    /// pair in the container.
    #[inline]
    pub fn next_back(&mut self) -> (item: Option<(usize, &mut T)>)
        requires
            old(self).wf(),
        ensures
            final(self).wf(),
            final(self).list.wf(),
            final(self).list.next_key() == old(self).list.next_key(),
            *final(final(self).list) == *final(old(self).list),
            final(self).taken_front() == old(self).taken_front(),
            match item {
                Some(pair) => {
                    &&& old(self)@.len() > 0
                    &&& pair.0 == old(self)@.last().0
                    &&& *pair.1 == old(self)@.last().1
                    &&& final(self)@ == old(self)@.drop_last()
                    &&& final(self).pairs() == old(self).pairs().update(
                        old(self).taken_front() + old(self)@.len() - 1,
                        (pair.0, *final(pair.1)),
                    )
                },
                None => {
                    &&& old(self)@.len() == 0
                    &&& final(self)@ == old(self)@
                    &&& final(self).pairs() == old(self).pairs()
                },
            },
    {
        if self.ends.len > 0 {
            let ghost end = self.ends.taken@ + self.ends.len;
            let loc = self.list.before(self.ends.back, Ghost(end));
            self.ends.back = loc;
            self.ends.len -= 1;
            Some(self.list.entry_mut(loc, Ghost(end - 1)))
        } else {
            None
        }
    }

    /// The number of pairs that the cursor has yet to hand out.
    #[inline]
    pub fn len(&self) -> (n: usize)
        ensures
            n == self@.len(),
    {
        self.ends.len
    }
}

/// A cursor that owns the values of a container and hands them out, front to
/// back.
pub struct IntoIter<T> {
    list: LURLinked<T>,
}

impl<T> View for IntoIter<T> {
    type V = Seq<(usize, T)>;

    /// The pairs whose values the cursor has yet to hand out, front to back.
    closed spec fn view(&self) -> Seq<(usize, T)> {
        self.list@
    }
}

impl<T> IntoIter<T> {
    /// The container that the cursor owns is well formed.
    pub closed spec fn wf(&self) -> bool {
        self.list.wf()
    }

    /// Hands out the first of the remaining values; `None` once none remains.
    #[inline]
    pub fn next(&mut self) -> (value: Option<T>)
        requires
            old(self).wf(),
        ensures
            final(self).wf(),
            match value {
                Some(v) => old(self)@.len() > 0 && v == old(self)@.first().1 && final(self)@
                    == old(self)@.drop_first(),
                None => old(self)@.len() == 0 && final(self)@ == old(self)@,
            },
    {
        match self.list.front_key() {
            Some(key) => {
                proof {
                    lemma_position_unique(self.list@, 0);
                    assert(self.list@.remove(0) =~= self.list@.drop_first());
                }
                self.list.remove(key)
            },
            None => None,
        }
    }

    /// The number of values that the cursor has yet to hand out.
    #[inline]
    pub fn len(&self) -> (n: usize)
        requires
            self.wf(),
        ensures
            n == self@.len(),
    {
        self.list.len()
    }
}

impl<T> LURLinked<T> {
    /// A cursor over the pairs of the container, front to back; it can be
    /// advanced from either end.
    #[inline]
    pub fn iter(&self) -> (cursor: Iter<'_, T>)
        requires
            self.wf(),
        ensures
            cursor.wf(),
            cursor@ == self@,
    {
        let len = self.len();
        let cursor = Iter {
            list: self,
            ends: Ends { front: self.hand(), back: self.hand(), len, taken: Ghost(0) },
        };
        assert(cursor@ =~= self@);
        cursor
    }

    /// A cursor like that of `iter`, with exclusive access to each value it
    /// hands out. What is written through it stays in the container.
    #[inline]
    pub fn iter_mut(&mut self) -> (cursor: IterMut<'_, T>)
        requires
            old(self).wf(),
        ensures
            cursor.wf(),
            cursor@ == old(self)@,
            cursor.pairs() == old(self)@,
            cursor.list.wf(),
            cursor.list.next_key() == old(self).next_key(),
            cursor.taken_front() == 0,
            *final(cursor.list) == *final(self),
    {
        let len = self.len();
        let hand = self.hand();
        let cursor = IterMut {
            list: self,
            ends: Ends { front: hand, back: hand, len, taken: Ghost(0) },
        };
        assert(cursor@ =~= cursor.list@);
        cursor
    }

    /// Gives the container up for a cursor that hands out its values, front
    /// to back, and owns them until then.
    #[inline]
    pub fn into_iter(self) -> (cursor: IntoIter<T>)
        requires
            self.wf(),
        ensures
            cursor.wf(),
            cursor@ == self@,
    {
        IntoIter { list: self }
    }
}

} // verus!
