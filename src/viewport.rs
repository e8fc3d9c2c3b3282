//! A fixed-height window over a list that follows the selected item.
use vstd::prelude::*;
use vstd::arithmetic::div_mod::{lemma_fundamental_div_mod, lemma_fundamental_div_mod_converse};

verus! {

/// The step of the page-up and page-down moves.
pub const PAGE_STEP: isize = 10;

/// The selected index `selection + delta`, wrapped into `[0, n)` in both
/// directions.
pub open spec fn wrapped(selection: int, delta: int, n: int) -> int {
    (selection + delta) % n
}

/// The offset that brings `selection` into a window of `height` rows that
/// started at `offset`: the window moves only as far as it must.
pub open spec fn refit(offset: int, selection: int, height: int) -> int {
    if selection < offset {
        selection
    } else if selection > offset + height - 1 {
        selection - height + 1
    } else {
        offset
    }
}

/// The first visible row, the number of rows, the selected item and the
/// number of items of a scrolling list.
pub struct ViewportScroller {
    offset: usize,
    height: usize,
    selection: usize,
    n: usize,
}

impl ViewportScroller {
    pub closed spec fn offset_spec(&self) -> int {
        self.offset as int
    }

    pub closed spec fn height_spec(&self) -> int {
        self.height as int
    }

    pub closed spec fn selection_spec(&self) -> int {
        self.selection as int
    }

    pub closed spec fn count_spec(&self) -> int {
        self.n as int
    }

    /// The window has a row; with items, the selection is one of them and is
    /// inside the window; without items, selection and offset rest at zero.
    pub open spec fn wf(&self) -> bool {
        &&& self.height_spec() > 0
        &&& self.count_spec() > 0 ==> {
            &&& 0 <= self.selection_spec() < self.count_spec()
            &&& self.offset_spec() <= self.selection_spec() <= self.offset_spec()
                + self.height_spec() - 1
        }
        &&& self.count_spec() == 0 ==> self.selection_spec() == 0 && self.offset_spec() == 0
    }

    /// A window of `height` rows over `n` items, showing the first one
    /// selected.
    pub fn new(n: usize, height: usize) -> (r: ViewportScroller)
        requires
            height > 0,
        ensures
            r.wf(),
            r.count_spec() == n,
            r.height_spec() == height,
            r.selection_spec() == 0,
            r.offset_spec() == 0,
    {
        ViewportScroller { offset: 0, height, selection: 0, n }
    }

    pub fn offset(&self) -> (r: usize)
        ensures
            r == self.offset_spec(),
    {
        self.offset
    }

    pub fn height(&self) -> (r: usize)
        ensures
            r == self.height_spec(),
    {
        self.height
    }

    pub fn selection(&self) -> (r: usize)
        ensures
            r == self.selection_spec(),
    {
        self.selection
    }

    pub fn item_count(&self) -> (r: usize)
        ensures
            r == self.count_spec(),
    {
        self.n
    }

    /// Moves the window the least needed to show the selection.
    fn recompute_offset(&mut self)
        requires
            old(self).height > 0,
            old(self).n > 0 ==> old(self).selection < old(self).n,
            old(self).n == 0 ==> old(self).selection == 0 && old(self).offset == 0,
        ensures
            final(self).wf(),
            final(self).n == old(self).n,
            final(self).height == old(self).height,
            final(self).selection == old(self).selection,
            final(self).offset == refit(
                old(self).offset as int,
                old(self).selection as int,
                old(self).height as int,
            ),
    {
        if self.selection < self.offset {
            self.offset = self.selection;
        } else if self.selection - self.offset > self.height - 1 {
            self.offset = self.selection - self.height + 1;
        }
    }

    /// Moves the selection by `delta`, wrapping round at both ends, and
    /// keeps it in view. Without items nothing changes.
    pub fn move_by(&mut self, delta: isize)
        requires
            old(self).wf(),
        ensures
            final(self).wf(),
            final(self).count_spec() == old(self).count_spec(),
            final(self).height_spec() == old(self).height_spec(),
            old(self).count_spec() == 0 ==> final(self).selection_spec() == 0
                && final(self).offset_spec() == 0,
            old(self).count_spec() > 0 ==> final(self).selection_spec() == wrapped(
                old(self).selection_spec(),
                delta as int,
                old(self).count_spec(),
            ),
            old(self).count_spec() > 0 ==> final(self).offset_spec() == refit(
                old(self).offset_spec(),
                final(self).selection_spec(),
                old(self).height_spec(),
            ),
    {
        let n = self.n;
        if n == 0 {
            return;
        }
        let sel = self.selection;
        let next: usize;
        if delta >= 0 {
            let d = (delta as usize) % n;
            proof {
                lemma_fundamental_div_mod(delta as int, n as int);
                let q = (delta as int) / (n as int);
                if sel + d < n {
                    lemma_fundamental_div_mod_converse(sel + delta, n as int, q, sel + d);
                } else {
                    assert((q + 1) * n == q * n + n) by (nonlinear_arith);
                    lemma_fundamental_div_mod_converse(sel + delta, n as int, q + 1, sel + d - n);
                }
            }
            if d < n - sel {
                next = sel + d;
            } else {
                next = sel - (n - d);
            }
        } else {
            let mag: usize = (-(delta + 1)) as usize + 1;
            let d = mag % n;
            proof {
                lemma_fundamental_div_mod(mag as int, n as int);
                let q = (mag as int) / (n as int);
                if sel >= d {
                    assert((-q) * n == -(q * n)) by (nonlinear_arith);
                    lemma_fundamental_div_mod_converse(sel + delta, n as int, -q, sel - d);
                } else {
                    assert((-q - 1) * n == -(q * n) - n) by (nonlinear_arith);
                    lemma_fundamental_div_mod_converse(sel + delta, n as int, -q - 1, sel + n - d);
                }
            }
            if sel >= d {
                next = sel - d;
            } else {
                next = sel + (n - d);
            }
        }
        self.selection = next;
        self.recompute_offset();
    }

    /// Gives the window `height` rows and keeps the selection in view.
    pub fn set_height(&mut self, height: usize)
        requires
            old(self).wf(),
            height > 0,
        ensures
            final(self).wf(),
            final(self).count_spec() == old(self).count_spec(),
            final(self).height_spec() == height,
            final(self).selection_spec() == old(self).selection_spec(),
            final(self).offset_spec() == refit(
                old(self).offset_spec(),
                old(self).selection_spec(),
                height as int,
            ),
    {
        self.height = height;
        self.recompute_offset();
    }

    /// Takes `new_n` as the number of items: a selection past the last item
    /// moves to the last one (to zero where none is left), and the window
    /// follows it.
    pub fn on_item_count_changed(&mut self, new_n: usize)
        requires
            old(self).wf(),
        ensures
            final(self).wf(),
            final(self).count_spec() == new_n,
            final(self).height_spec() == old(self).height_spec(),
            old(self).selection_spec() < new_n ==> final(self).selection_spec()
                == old(self).selection_spec(),
            new_n > 0 && old(self).selection_spec() >= new_n ==> final(self).selection_spec()
                == new_n - 1,
            new_n > 0 ==> final(self).offset_spec() == refit(
                old(self).offset_spec(),
                final(self).selection_spec(),
                old(self).height_spec(),
            ),
            new_n == 0 ==> final(self).selection_spec() == 0 && final(self).offset_spec() == 0,
    {
        self.n = new_n;
        if new_n == 0 {
            self.selection = 0;
            self.offset = 0;
        } else if self.selection >= new_n {
            self.selection = new_n - 1;
        }
        self.recompute_offset();
    }
}

/// In a window at least as tall as the list and scrolled to the top, every
/// item is in view: refitting to any selection, or to where any move lands,
/// leaves the offset at zero.
pub proof fn lemma_short_list_stays_at_top(n: int, height: int, selection: int, delta: int)
    requires
        0 < n <= height,
        0 <= selection < n,
    ensures
        refit(0, selection, height) == 0,
        0 <= wrapped(selection, delta, n) < n,
        refit(0, wrapped(selection, delta, n), height) == 0,
{
    lemma_fundamental_div_mod(selection + delta, n);
}

} // verus!
