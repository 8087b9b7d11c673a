//! The mathematical model of the generator: the sequence of windows that
//! walking a view to exhaustion emits, and the exact window count.

use vstd::prelude::*;

use crate::window::Window;
use vstd::arithmetic::div_mod::lemma_basic_div;
use vstd::arithmetic::div_mod::lemma_div_minus_one;
use vstd::arithmetic::div_mod::lemma_fundamental_div_mod;
use vstd::arithmetic::div_mod::lemma_mod_division_less_than_divisor;
use vstd::arithmetic::div_mod::lemma_mod_sub_multiples_vanish;
use vstd::arithmetic::div_mod::lemma_small_mod;
use vstd::arithmetic::mul::lemma_mul_basics;
use vstd::arithmetic::mul::lemma_mul_inequality;
use vstd::arithmetic::mul::lemma_mul_strict_inequality;

verus! {

/// How many items the window at the front of a view of `len` remaining items
/// holds: `size`, or the whole view when it is shorter than `size`.
pub open spec fn take_of(len: nat, size: nat) -> nat {
    if size > len {
        len
    } else {
        size
    }
}

/// Exact number of windows that a view of `len` items yields for the given
/// window size and step: one window for the front of the view, plus one for
/// each started stretch of `step` items in the tail beyond the first window.
pub open spec fn spec_win_count(len: nat, size: nat, step: nat) -> nat {
    if len == 0 {
        0
    } else {
        let tail: nat = if len < size {
            0
        } else {
            (len - size) as nat
        };
        tail / step + (if tail % step == 0 {
            0nat
        } else {
            1nat
        }) + 1
    }
}

/// The sequence of windows, each a `(start, end, items)` triple, that a
/// generator over the view `elems` emits when advanced to exhaustion,
/// `cursor` being the start index recorded in the first emitted window.
/// Meaningful for `0 < step <= size`; the guards only keep the function total.
pub open spec fn win_seq<T>(elems: Seq<T>, size: nat, step: nat, cursor: nat) -> Seq<
    (nat, nat, Seq<T>),
>
    decreases elems.len(),
{
    if elems.len() == 0 || step == 0 {
        Seq::empty()
    } else {
        let take = take_of(elems.len(), size);
        let head = (cursor, (cursor + take) as nat, elems.take(take as int));
        if elems.len() > take && step < elems.len() {
            seq![head] + win_seq(elems.skip(step as int), size, step, (cursor + step) as nat)
        } else {
            seq![head]
        }
    }
}

/// The emitted window `w` is the model window `m`: same range, and a payload
/// slice holding exactly the model's items.
pub open spec fn is_win<T>(w: Window<&[T]>, m: (nat, nat, Seq<T>)) -> bool {
    &&& w.start == m.0
    &&& w.end == m.1
    &&& w.value@ == m.2
}

/// The count formula agrees with the model: a view of `len` items yields
/// exactly `spec_win_count(len, size, step)` windows, whatever the cursor.
pub proof fn lemma_win_seq_len<T>(elems: Seq<T>, size: nat, step: nat, cursor: nat)
    requires
        0 < step,
        step <= size,
    ensures
        win_seq(elems, size, step, cursor).len() == spec_win_count(elems.len(), size, step),
    decreases elems.len(),
{
    let len = elems.len();
    if len > 0 {
        let take = take_of(len, size);
        if len > take {
            // take == size and step < len: the generator keeps going.
            lemma_win_seq_len(elems.skip(step as int), size, step, (cursor + step) as nat);
            let tail = (len - size) as nat;
            if tail < step {
                // The shrunken view is shorter than size: one window is left,
                // and the current view's tail adds one started stretch.
                lemma_basic_div(tail as int, step as int);
                lemma_small_mod(tail, step);
                lemma_basic_div(0, step as int);
                lemma_small_mod(0, step);
            } else {
                // Dropping step items removes exactly one window.
                lemma_div_minus_one(tail as int, step as int);
                lemma_mod_sub_multiples_vanish(tail as int, step as int);
            }
        } else {
            // A single (possibly short) window covers the whole view.
            lemma_basic_div(0, step as int);
            lemma_small_mod(0, step);
        }
    }
}

/// What the `i`-th model window is: it starts `i * step` items into the view,
/// holds the next `size` items — fewer only where the view ends sooner — and
/// records its range offset by `cursor`.
pub proof fn lemma_win_seq_index<T>(elems: Seq<T>, size: nat, step: nat, cursor: nat, i: int)
    requires
        0 < step,
        step <= size,
        0 <= i < win_seq(elems, size, step, cursor).len(),
    ensures
        i * step < elems.len(),
        win_seq(elems, size, step, cursor)[i].0 == cursor + i * step,
        win_seq(elems, size, step, cursor)[i].1 == cursor + i * step + take_of(
            (elems.len() - i * step) as nat,
            size,
        ),
        win_seq(elems, size, step, cursor)[i].2 == elems.subrange(
            i * step,
            i * step + take_of((elems.len() - i * step) as nat, size) as int,
        ),
    decreases i,
{
    let take = take_of(elems.len(), size);
    if i == 0 {
        lemma_mul_basics(step as int);
        assert(elems.take(take as int) =~= elems.subrange(0, take as int));
    } else {
        // The model holds at least two windows, so it recursed.
        let shrunk = elems.skip(step as int);
        lemma_win_seq_index(shrunk, size, step, (cursor + step) as nat, i - 1);
        assert((i - 1) * step == i * step - step) by (nonlinear_arith);
        let t = take_of((shrunk.len() - (i - 1) * step) as nat, size);
        assert(shrunk.subrange((i - 1) * step, (i - 1) * step + t as int) =~= elems.subrange(
            i * step,
            i * step + t as int,
        ));
    }
}

/// Arithmetic bounds on the final window's start: it lies strictly inside the
/// view, and from it the view's end is at most `size` items away.
pub(crate) proof fn lemma_last_start_bound(len: nat, size: nat, step: nat)
    requires
        0 < step,
        step <= size,
        len > 0,
    ensures
        (spec_win_count(len, size, step) - 1) * step < len,
        len <= (spec_win_count(len, size, step) - 1) * step + size,
{
    lemma_mul_basics(step as int);
    if len < size {
        lemma_basic_div(0, step as int);
        lemma_small_mod(0, step);
    } else {
        let tail = (len - size) as nat;
        let q = tail as int / step as int;
        let m = tail as int % step as int;
        lemma_fundamental_div_mod(tail as int, step as int);
        lemma_mod_division_less_than_divisor(tail as int, step as int);
        if m == 0 {
            // The final window starts exactly at the tail's beginning.
            assert(q * step == step * q) by (nonlinear_arith);
        } else {
            // The final window starts inside the last started stretch.
            assert((q + 1) * step == step * q + step) by (nonlinear_arith);
        }
    }
}

/// Every window spans between 1 and `size` source items, its payload holds
/// exactly that many, and every window but the last spans exactly `size`.
pub proof fn lemma_win_extent<T>(elems: Seq<T>, size: nat, step: nat, cursor: nat, i: int)
    requires
        0 < step,
        step <= size,
        0 <= i < win_seq(elems, size, step, cursor).len(),
    ensures
        1 <= win_seq(elems, size, step, cursor)[i].1 - win_seq(elems, size, step, cursor)[i].0,
        win_seq(elems, size, step, cursor)[i].1 - win_seq(elems, size, step, cursor)[i].0 <= size,
        win_seq(elems, size, step, cursor)[i].2.len() == win_seq(elems, size, step, cursor)[i].1
            - win_seq(elems, size, step, cursor)[i].0,
        i + 1 < win_seq(elems, size, step, cursor).len() ==> win_seq(elems, size, step, cursor)[i].1
            - win_seq(elems, size, step, cursor)[i].0 == size,
{
    let len = elems.len();
    let count = spec_win_count(len, size, step);
    lemma_win_seq_len(elems, size, step, cursor);
    lemma_win_seq_index(elems, size, step, cursor, i);
    if i + 1 < count {
        // Some window follows, so a full one fits here: i * step ends
        // strictly before the tail does.
        if len < size {
            lemma_basic_div(0, step as int);
            lemma_small_mod(0, step);
            assert(false);
        } else {
            let tail = (len - size) as nat;
            let q = tail as int / step as int;
            let m = tail as int % step as int;
            lemma_fundamental_div_mod(tail as int, step as int);
            lemma_mod_division_less_than_divisor(tail as int, step as int);
            if m == 0 {
                lemma_mul_inequality(i, q - 1, step as int);
                assert((q - 1) * step == step * q - step) by (nonlinear_arith);
            } else {
                lemma_mul_inequality(i, q, step as int);
                assert(q * step == step * q) by (nonlinear_arith);
            }
        }
    }
}

/// Window starts increase strictly in emission order.
pub proof fn lemma_win_starts_increase<T>(elems: Seq<T>, size: nat, step: nat, cursor: nat)
    requires
        0 < step,
        step <= size,
    ensures
        forall|i: int, j: int|
            0 <= i < j < win_seq(elems, size, step, cursor).len() ==> win_seq(
                elems,
                size,
                step,
                cursor,
            )[i].0 < win_seq(elems, size, step, cursor)[j].0,
{
    assert forall|i: int, j: int| 0 <= i < j < win_seq(elems, size, step, cursor).len() implies
        win_seq(elems, size, step, cursor)[i].0 < win_seq(elems, size, step, cursor)[j].0 by {
        lemma_win_seq_index(elems, size, step, cursor, i);
        lemma_win_seq_index(elems, size, step, cursor, j);
        lemma_mul_strict_inequality(i, j, step as int);
    }
}

/// The final model window starts `(count - 1) * step` into the view and
/// always extends to the view's end.
pub proof fn lemma_last_window<T>(elems: Seq<T>, size: nat, step: nat, cursor: nat)
    requires
        0 < step,
        step <= size,
        elems.len() > 0,
    ensures
        ({
            let wins = win_seq(elems, size, step, cursor);
            let last = wins.len() - 1;
            &&& wins.len() > 0
            &&& wins[last].0 == cursor + last * step
            &&& wins[last].1 == cursor + elems.len()
            &&& wins[last].2 == elems.skip(last * step)
        }),
{
    let wins = win_seq(elems, size, step, cursor);
    lemma_win_seq_len(elems, size, step, cursor);
    let last = wins.len() - 1;
    lemma_win_seq_index(elems, size, step, cursor, last);
    lemma_last_start_bound(elems.len(), size, step);
    // The final window reaches the end: its take covers the rest of the view.
    assert(take_of((elems.len() - last * step) as nat, size) == elems.len() - last * step);
    assert(elems.subrange(last * step, elems.len() as int) =~= elems.skip(last * step));
}

} // verus!
