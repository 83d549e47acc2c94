use vstd::prelude::*;

verus! {

/// A cursor over the elements of a borrowed slice, from a position to its end.
/// Duplicating it copies the position only, never the elements.
pub struct SliceIter<'a, T> {
    data: &'a [T],
    pos: usize,
}

impl<'a, T: Copy> SliceIter<'a, T> {
    /// The slice the cursor walks over.
    pub closed spec fn origin(&self) -> Seq<T> {
        self.data@
    }

    /// Index, in the slice, of the next element to come.
    pub closed spec fn index(&self) -> int {
        self.pos as int
    }

    /// The cursor's position lies within its slice.
    pub open spec fn wf(&self) -> bool {
        0 <= self.index() <= self.origin().len()
    }

    /// The elements still to come.
    pub open spec fn rest(&self) -> Seq<T> {
        self.origin().subrange(self.index(), self.origin().len() as int)
    }

    /// A cursor over the whole slice.
    pub fn new(data: &'a [T]) -> (r: Self)
        ensures
            r.wf(),
            r.origin() == data@,
            r.index() == 0,
    {
        SliceIter { data, pos: 0 }
    }

    /// A cursor over the slice from `start` on; past the end it is exhausted.
    pub fn starting_at(data: &'a [T], start: usize) -> (r: Self)
        ensures
            r.wf(),
            r.origin() == data@,
            r.index() == if start <= data@.len() { start as int } else { data@.len() as int },
    {
        let pos = if start <= data.len() { start } else { data.len() };
        SliceIter { data, pos }
    }

    /// Index, in the slice, of the next element to come.
    pub fn position(&self) -> (r: usize)
        ensures
            r == self.index(),
    {
        self.pos
    }

    /// An independent copy of the cursor.
    pub fn duplicate(&self) -> (r: Self)
        ensures
            r.origin() == self.origin(),
            r.index() == self.index(),
    {
        SliceIter { data: self.data, pos: self.pos }
    }

    /// Takes the next element, if any is left.
    pub fn next(&mut self) -> (r: Option<T>)
        requires
            old(self).wf(),
        ensures
            final(self).wf(),
            final(self).origin() == old(self).origin(),
            old(self).index() < old(self).origin().len() ==> r == Some(old(self).origin()[old(self).index()])
                && final(self).index() == old(self).index() + 1,
            old(self).index() == old(self).origin().len() ==> r is None
                && final(self).index() == old(self).index(),
    {
        if self.pos < self.data.len() {
            let x = self.data[self.pos];
            self.pos = self.pos + 1;
            Some(x)
        } else {
            None
        }
    }

    /// Drains the cursor into a vector of the elements still to come.
    pub fn to_vec(self) -> (r: Vec<T>)
        requires
            self.wf(),
        ensures
            r@ == self.rest(),
    {
        let mut it = self;
        let mut out: Vec<T> = Vec::new();
        while it.pos < it.data.len()
            invariant
                it.wf(),
                it.origin() == self.origin(),
                self.index() <= it.index(),
                out@ == self.origin().subrange(self.index(), it.index()),
            decreases it.data@.len() - it.pos,
        {
            out.push(it.data[it.pos]);
            it.pos = it.pos + 1;
            assert(out@ =~= self.origin().subrange(self.index(), it.index()));
        }
        assert(out@ =~= self.rest());
        out
    }
}

/// Pairs each element of a cursor with a copy of the cursor over everything after it.
pub struct WithIter<'a, T>(SliceIter<'a, T>);

impl<'a, T: Copy> WithIter<'a, T> {
    /// The cursor that the pairs are drawn from.
    pub closed spec fn source(&self) -> SliceIter<'a, T> {
        self.0
    }

    /// Index, in the slice, of the element that the next pair holds.
    pub fn position(&self) -> (r: usize)
        ensures
            r == self.source().index(),
    {
        self.0.position()
    }

    /// Takes the next element together with a cursor over the elements that follow it.
    /// The returned cursor is independent: advancing it leaves this one where it is.
    pub fn next(&mut self) -> (r: Option<(T, SliceIter<'a, T>)>)
        requires
            old(self).source().wf(),
        ensures
            final(self).source().wf(),
            final(self).source().origin() == old(self).source().origin(),
            old(self).source().index() < old(self).source().origin().len() ==> {
                &&& final(self).source().index() == old(self).source().index() + 1
                &&& r matches Some((x, it)) && x == old(self).source().origin()[old(self).source().index()]
                    && it.wf() && it.origin() == old(self).source().origin()
                    && it.index() == final(self).source().index()
            },
            old(self).source().index() == old(self).source().origin().len() ==> r is None
                && final(self).source().index() == old(self).source().index(),
    {
        match self.0.next() {
            Some(x) => Some((x, self.0.duplicate())),
            None => None,
        }
    }
}

/// Turns a cursor into a stream of (element, cursor over what follows) pairs.
pub trait IterExt<'a, T: Copy>: Sized {
    /// The cursor that the pairs will be drawn from.
    spec fn as_cursor(&self) -> SliceIter<'a, T>;

    fn with_iter(self) -> (r: WithIter<'a, T>)
        ensures
            r.source() == self.as_cursor(),
    ;
}

impl<'a, T: Copy> IterExt<'a, T> for SliceIter<'a, T> {
    open spec fn as_cursor(&self) -> SliceIter<'a, T> {
        *self
    }

    fn with_iter(self) -> (r: WithIter<'a, T>) {
        WithIter(self)
    }
}

} // verus!
