//! The window generator: a lazy sequence of windows over a borrowed slice.

use vstd::prelude::*;

use vstd::arithmetic::div_mod::lemma_fundamental_div_mod;
use vstd::arithmetic::mul::lemma_mul_inequality;
use vstd::arithmetic::mul::lemma_mul_strict_inequality;
use vstd::slice::slice_subrange;

use crate::model::is_win;
use crate::model::lemma_last_start_bound;
use crate::model::lemma_last_window;
use crate::model::lemma_win_seq_index;
use crate::model::lemma_win_seq_len;
use crate::model::spec_win_count;
use crate::model::take_of;
use crate::model::win_seq;
use crate::window::Window;

verus! {

/// A lazy generator of windows of (at most) `size` items over a borrowed
/// slice, advancing `step` items between window starts.  The final window is
/// emitted even when the remaining tail is shorter than `size`.
#[derive(Debug, Clone)]
pub struct Windows<'a, T: 'a> {
    elements: &'a [T],
    size: usize,
    step: usize,
    start: usize,
}

impl<'a, T> View for Windows<'a, T> {
    type V = Seq<T>;

    /// The remaining view: the suffix of the source not yet consumed.
    closed spec fn view(&self) -> Seq<T> {
        self.elements@
    }
}

impl<'a, T> Windows<'a, T> {
    /// The requested window size.
    pub closed spec fn spec_size(self) -> nat {
        self.size as nat
    }

    /// The distance between the starts of successive windows.
    pub closed spec fn spec_step(self) -> nat {
        self.step as nat
    }

    /// The absolute start index of the next window that `next` emits.
    pub closed spec fn spec_start(self) -> nat {
        self.start as nat
    }

    /// Well-formedness: the construction preconditions, and room in `usize`
    /// for the cursor to walk the remaining view.
    pub open spec fn wf(self) -> bool {
        &&& self.spec_size() > 0
        &&& self.spec_step() > 0
        &&& self.spec_step() <= self.spec_size()
        &&& self.spec_start() + self@.len() <= usize::MAX
    }

    /// The number of windows still to come, in closed form.
    pub open spec fn spec_len(self) -> nat {
        spec_win_count(self@.len(), self.spec_size(), self.spec_step())
    }

    /// The windows that advancing to exhaustion emits from here on.
    pub open spec fn wins(self) -> Seq<(nat, nat, Seq<T>)> {
        win_seq(self@, self.spec_size(), self.spec_step(), self.spec_start())
    }

    /// The windows that `nth` and `last` address: the same sequence, but with
    /// ranges relative to the current remaining view instead of the cursor.
    pub open spec fn rel_wins(self) -> Seq<(nat, nat, Seq<T>)> {
        win_seq(self@, self.spec_size(), self.spec_step(), 0)
    }

    /// Create a new windows object.
    pub fn new(elements: &'a [T], size: usize, step: usize) -> (w: Self)
        requires
            size > 0,
            step > 0,
            step <= size,
        ensures
            w.wf(),
            w@ == elements@,
            w.spec_size() == size,
            w.spec_step() == step,
            w.spec_start() == 0,
    {
        // Pins elements@.len() <= usize::MAX, which wf needs for the cursor.
        let _fits: usize = elements.len();
        Windows { elements, start: 0, size, step }
    }

    /// The exact number of windows still to come, in constant time.
    pub fn len(&self) -> (r: usize)
        requires
            self.wf(),
        ensures
            r == self.spec_len(),
            r == self.wins().len(),
            r == self.rel_wins().len(),
    {
        proof {
            lemma_win_seq_len(self@, self.spec_size(), self.spec_step(), self.spec_start());
            lemma_win_seq_len(self@, self.spec_size(), self.spec_step(), 0);
        }
        if self.elements.is_empty() {
            return 0;
        }
        // Catches underflow because unsigned ints.
        let tail: usize = if self.elements.len() < self.size {
            0
        } else {
            self.elements.len() - self.size
        };
        let ndivs: usize = tail / self.step;
        let rem: usize = if tail % self.step == 0 {
            0
        } else {
            1
        };
        proof {
            // The count never exceeds the number of remaining items, so the
            // sum below stays within usize.
            lemma_fundamental_div_mod(tail as int, self.step as int);
            assert(ndivs <= self.step * ndivs) by (nonlinear_arith)
                requires
                    self.step >= 1,
                    ndivs >= 0,
            ;
        }
        // +1 because cannot be empty at this point.
        ndivs + rem + 1
    }

    pub fn is_empty(&self) -> (r: bool)
        requires
            self.wf(),
        ensures
            r <==> self@.len() == 0,
            r <==> self.wins().len() == 0,
    {
        self.len() == 0
    }

    /// Pulls the next window — the head of `wins()` — or signals exhaustion.
    /// After the final, possibly short, window the view is dropped entirely,
    /// so iteration terminates even where `step` has not consumed it yet.
    pub fn next(&mut self) -> (r: Option<Window<&'a [T]>>)
        requires
            old(self).wf(),
        ensures
            final(self).wf(),
            final(self).spec_size() == old(self).spec_size(),
            final(self).spec_step() == old(self).spec_step(),
            r is Some <==> old(self)@.len() > 0,
            old(self)@.len() == 0 ==> *final(self) == *old(self),
            old(self)@.len() > 0 ==> (r matches Some(w) && is_win(w, old(self).wins()[0])),
            old(self)@.len() > 0 ==> final(self).wins() == old(self).wins().skip(1),
            old(self)@.len() > take_of(old(self)@.len(), old(self).spec_size()) ==> {
                &&& final(self)@ == old(self)@.skip(old(self).spec_step() as int)
                &&& final(self).spec_start() == old(self).spec_start() + old(self).spec_step()
            },
            0 < old(self)@.len() <= take_of(old(self)@.len(), old(self).spec_size())
                ==> final(self)@.len() == 0,
    {
        if self.elements.is_empty() {
            return None;
        }
        let elen: usize = self.elements.len();
        let take: usize = if self.size > elen {
            elen
        } else {
            self.size
        };
        let value: &'a [T] = slice_subrange(self.elements, 0, take);
        let ret = Window::new(self.start, self.start + take, value);
        if elen > take {
            self.start = self.start + self.step;
            self.elements = slice_subrange(self.elements, self.step, elen);
        } else {
            // The final window has been emitted: exhaust unconditionally.
            self.elements = slice_subrange(self.elements, elen, elen);
        }
        proof {
            assert(self.wins() =~= old(self).wins().skip(1));
        }
        Some(ret)
    }

    /// The exact remaining window count, reported as both bounds.
    pub fn size_hint(&self) -> (r: (usize, Option<usize>))
        requires
            self.wf(),
        ensures
            r.0 == self.spec_len(),
            r.0 == self.wins().len(),
            r.1 == Some(r.0),
    {
        let l = self.len();
        (l, Some(l))
    }

    /// The number of windows left, without materializing any of them.
    pub fn count(self) -> (r: usize)
        requires
            self.wf(),
        ensures
            r == self.spec_len(),
            r == self.wins().len(),
    {
        self.len()
    }

    /// Direct access to the window at position `n` among the remaining ones,
    /// without materializing the `n` preceding windows.  The reported range is
    /// relative to the current remaining view, not to the original collection.
    /// An out-of-range position — arithmetic overflow included — exhausts the
    /// generator and signals that no such window exists.
    pub fn nth(&mut self, n: usize) -> (r: Option<Window<&'a [T]>>)
        requires
            old(self).wf(),
            // The requested window must lie fully inside the view, as must
            // the step taken past it: the final window of a view whose tail
            // ends between step marks cannot be addressed directly.
            n < old(self).spec_len() ==> {
                &&& n * old(self).spec_step() + old(self).spec_step() <= old(self)@.len()
                &&& (old(self).spec_size() <= old(self)@.len() ==> n * old(self).spec_step()
                    + old(self).spec_size() <= old(self)@.len())
            },
        ensures
            final(self).wf(),
            final(self).spec_size() == old(self).spec_size(),
            final(self).spec_step() == old(self).spec_step(),
            r is Some <==> n < old(self).spec_len(),
            n < old(self).spec_len() ==> (r matches Some(w) && {
                &&& is_win(w, old(self).rel_wins()[n as int])
                &&& w.start == n * old(self).spec_step()
                &&& w.end == w.start + take_of(old(self)@.len(), old(self).spec_size())
                &&& w.value@ == old(self)@.subrange(w.start as int, w.end as int)
            }),
            n < old(self).spec_len() ==> {
                &&& final(self)@ == old(self)@.skip(
                    n * old(self).spec_step() + old(self).spec_step(),
                )
                &&& final(self).spec_start() == n * old(self).spec_step() + old(self).spec_step()
            },
            n >= old(self).spec_len() ==> final(self)@.len() == 0,
    {
        proof {
            lemma_win_seq_len(self@, self.spec_size(), self.spec_step(), 0);
        }
        let l = self.len();
        if l == 0 {
            // The view is already empty: stay exhausted.
            return None;
        }
        proof {
            lemma_last_start_bound(self@.len(), self.spec_size(), self.spec_step());
        }
        let last: usize = (l - 1) * self.step;
        let pos: usize = match n.checked_mul(self.step) {
            Some(p) => p,
            None => {
                // Way out of range: exhaust and signal.
                let elen = self.elements.len();
                self.elements = slice_subrange(self.elements, elen, elen);
                proof {
                    if n < l {
                        lemma_mul_inequality(n as int, l - 1, self.spec_step() as int);
                    }
                }
                return None;
            },
        };
        if pos > last {
            // Out of range: exhaust and signal.
            let elen = self.elements.len();
            self.elements = slice_subrange(self.elements, elen, elen);
            proof {
                if n < l {
                    lemma_mul_inequality(n as int, l - 1, self.spec_step() as int);
                }
            }
            return None;
        }
        proof {
            if n >= l {
                lemma_mul_inequality(l as int, n as int, self.spec_step() as int);
                lemma_mul_strict_inequality(l - 1, l as int, self.spec_step() as int);
            }
        }
        let elen = self.elements.len();
        let take: usize = if self.size > elen {
            elen
        } else {
            self.size
        };
        let value: &'a [T] = slice_subrange(self.elements, pos, pos + take);
        let ret = Window::new(pos, pos + take, value);
        self.elements = slice_subrange(self.elements, pos + self.step, elen);
        self.start = pos + self.step;
        proof {
            lemma_win_seq_index(old(self)@, self.spec_size(), self.spec_step(), 0, n as int);
        }
        Some(ret)
    }

    /// Direct, read-only access to the final window: it always extends to the
    /// end of the remaining view, which lies between 1 and `size` items past
    /// its start.  The reported range is relative to the current view, as in
    /// `nth`.  Generator state is not touched.
    pub fn last(&self) -> (r: Option<Window<&'a [T]>>)
        requires
            self.wf(),
        ensures
            r is Some <==> self@.len() > 0,
            self@.len() > 0 ==> (r matches Some(w) && {
                &&& is_win(w, self.rel_wins()[self.rel_wins().len() - 1])
                &&& w.start == (self.spec_len() - 1) * self.spec_step()
                &&& w.end == self@.len()
                &&& w.value@ == self@.skip(w.start as int)
            }),
    {
        if self.elements.is_empty() {
            return None;
        }
        let l = self.len();
        proof {
            lemma_win_seq_len(self@, self.spec_size(), self.spec_step(), 0);
            lemma_last_start_bound(self@.len(), self.spec_size(), self.spec_step());
            lemma_last_window(self@, self.spec_size(), self.spec_step(), 0);
        }
        let start: usize = (l - 1) * self.step;
        let elen = self.elements.len();
        let value: &'a [T] = slice_subrange(self.elements, start, elen);
        Some(Window::new(start, elen, value))
    }
}

/// From a freshly constructed generator, the windows that `nth` and `last`
/// address are exactly the windows that exhaustive advancing emits: with the
/// cursor still at 0, the relative and the absolute model sequences coincide.
pub proof fn lemma_fresh_positional_matches_advance<T>(w: Windows<T>)
    requires
        w.spec_start() == 0,
    ensures
        w.rel_wins() == w.wins(),
{
}

/// The capability of producing a window generator over a borrowed view of
/// oneself, given a window size and a step.
pub trait Windower {
    type Item;

    fn into_windows<'a>(&'a self, size: usize, step: usize) -> (w: Windows<'a, &'a Self::Item>)
        requires
            size > 0,
            step > 0,
            step <= size,
        ensures
            w.wf(),
            w.spec_size() == size,
            w.spec_step() == step,
            w.spec_start() == 0,
    ;
}

} // verus!
