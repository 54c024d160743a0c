use vstd::prelude::*;

verus! {

/// A value together with the span `[start, end)` of source text it came from.
#[derive(Clone, Copy, Debug)]
pub struct Located<T> {
    pub value: T,
    pub start: usize,
    pub end: usize,
}

pub open spec fn min_usize(a: usize, b: usize) -> usize {
    if a <= b { a } else { b }
}

pub open spec fn max_usize(a: usize, b: usize) -> usize {
    if a >= b { a } else { b }
}

impl<T> Located<T> {
    /// Applies `f` to the value and keeps the span.
    pub fn locmap<X, F: Fn(T) -> X>(self, f: F) -> (r: Located<X>)
        requires
            f.requires((self.value,)),
        ensures
            f.ensures((self.value,), r.value),
            r.start == self.start,
            r.end == self.end,
    {
        Located { value: f(self.value), start: self.start, end: self.end }
    }

    /// A new value placed at this span.
    pub fn replace<X>(&self, x: X) -> (r: Located<X>)
        ensures
            r.value == x,
            r.start == self.start,
            r.end == self.end,
    {
        Located { value: x, start: self.start, end: self.end }
    }

    /// Pairs two values; the span covers both.
    pub fn merge<X>(self, other: Located<X>) -> (r: Located<(T, X)>)
        ensures
            r.value == (self.value, other.value),
            r.start == min_usize(self.start, other.start),
            r.end == max_usize(self.end, other.end),
    {
        let start = if self.start <= other.start { self.start } else { other.start };
        let end = if self.end >= other.end { self.end } else { other.end };
        Located { value: (self.value, other.value), start, end }
    }

    /// Keeps `other`'s value and widens its span to cover this one too.
    pub fn merge_r<X>(&self, other: Located<X>) -> (r: Located<X>)
        ensures
            r.value == other.value,
            r.start == min_usize(self.start, other.start),
            r.end == max_usize(self.end, other.end),
    {
        let m = self.location().merge(other);
        Located { value: m.value.1, start: m.start, end: m.end }
    }

    /// Keeps this value and widens its span to cover `other` too.
    pub fn merge_l<X>(self, other: &Located<X>) -> (r: Located<T>)
        ensures
            r.value == self.value,
            r.start == min_usize(self.start, other.start),
            r.end == max_usize(self.end, other.end),
    {
        let m = self.merge(other.location());
        Located { value: m.value.0, start: m.start, end: m.end }
    }

    /// The span alone.
    pub fn location(&self) -> (r: Located<()>)
        ensures
            r.start == self.start,
            r.end == self.end,
    {
        self.replace(())
    }
}

} // verus!
