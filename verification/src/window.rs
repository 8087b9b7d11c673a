//! The window container: a half-open index range paired with a payload.

use vstd::prelude::*;

verus! {

/// A contiguous sub-range `[start, end)` of a source collection, paired with
/// a payload `value` — typically the matching sub-slice of the source, or any
/// value derived from one.  The range always satisfies `start <= end`.
#[derive(Debug, Clone, PartialEq, Eq)]
pub struct Window<V> {
    pub start: usize,
    pub end: usize,
    pub value: V,
}

impl<V> Window<V> {
    /// Create a new window object.
    pub fn new(start: usize, end: usize, value: V) -> (w: Self)
        requires
            start <= end,
        ensures
            w.start == start,
            w.end == end,
            w.value == value,
    {
        Window { start, end, value }
    }

    /// Converts from `Window<V>` to `Window<&V>`, borrowing the payload in
    /// place and keeping the range.
    pub fn as_ref(&self) -> (w: Window<&V>)
        requires
            self.start <= self.end,
        ensures
            w.start == self.start,
            w.end == self.end,
            w.value == &self.value,
    {
        Window::new(self.start, self.end, &self.value)
    }

    /// Converts from `Window<V>` to `Window<&mut V>`, exposing the payload
    /// for mutation in place while the range stays fixed.
    pub fn as_mut(&mut self) -> (w: Window<&mut V>)
        requires
            old(self).start <= old(self).end,
        ensures
            w.start == old(self).start,
            w.end == old(self).end,
            *w.value == old(self).value,
            final(self).start == old(self).start,
            final(self).end == old(self).end,
            final(self).value == *final(w.value),
    {
        Window::new(self.start, self.end, &mut self.value)
    }

    /// Applies a function to the value in a window, leaving start and end
    /// unchanged.
    pub fn map<U, F: FnOnce(V) -> U>(self, f: F) -> (w: Window<U>)
        requires
            self.start <= self.end,
            call_requires(f, (self.value,)),
        ensures
            w.start == self.start,
            w.end == self.end,
            call_ensures(f, (self.value,), w.value),
    {
        Window::new(self.start, self.end, f(self.value))
    }

    /// Applies a function taking the value and returning a new window object.
    /// The result is whatever window `f` builds: the original range is
    /// discarded, not merged into the result.
    pub fn flat_map<U, F: FnOnce(V) -> Window<U>>(self, f: F) -> (w: Window<U>)
        requires
            call_requires(f, (self.value,)),
        ensures
            call_ensures(f, (self.value,), w),
    {
        f(self.value)
    }
}

} // verus!
