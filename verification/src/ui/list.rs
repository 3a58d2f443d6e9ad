//! What the scrolling lists share: moving the selection and keeping it in
//! view.

use vstd::prelude::*;

verus! {

/// A place moved by `delta` in a list of `len` rows, held to its ends.
pub open spec fn moved_place(place: int, delta: int, len: int) -> int {
    if place + delta < 0 {
        0
    } else if place + delta > len - 1 {
        len - 1
    } else {
        place + delta
    }
}

/// A place moved by `delta` in a list of `len` rows, held to its ends.
pub fn move_place(place: usize, delta: i128, len: usize) -> (r: usize)
    requires
        len >= 1,
    ensures
        r == moved_place(place as int, delta as int, len as int),
        r < len,
{
    let far: i128 = 0x2_0000_0000_0000_0000;
    if delta >= far {
        return len - 1;
    }
    if delta <= -far {
        return 0;
    }
    let to: i128 = place as i128 + delta;
    if to < 0 {
        0
    } else if to > len as i128 - 1 {
        len - 1
    } else {
        to as usize
    }
}

/// A page of `rows` rows in a direction.
pub fn page_delta(dir: i64, rows: usize) -> (r: i128)
    ensures
        r == dir * rows,
{
    let d: i128 = dir as i128;
    let n: i128 = rows as i128;
    proof {
        assert(-0x8000_0000_0000_0000_0000_0000_0000_0000 <= d * n <= 0x7fff_ffff_ffff_ffff_ffff_ffff_ffff_ffff)
            by (nonlinear_arith)
            requires
                -0x8000_0000_0000_0000 <= d <= 0x7fff_ffff_ffff_ffff,
                0 <= n <= 0xffff_ffff_ffff_ffff,
        ;
    }
    d * n
}

/// A way to move the selection.
#[derive(Clone, Copy, Debug, PartialEq, Eq, Structural)]
pub enum Travel {
    Down,
    Up,
    PageDown,
    PageUp,
    Home,
    End,
}

impl Travel {
    /// How far it goes in a list of `len` rows, `page` of them in view.
    pub open spec fn distance(self, page: nat, len: nat) -> int {
        match self {
            Travel::Down => 1,
            Travel::Up => -1,
            Travel::PageDown => page as int,
            Travel::PageUp => -(page as int),
            Travel::Home => -(len as int),
            Travel::End => len as int,
        }
    }
}

/// The first row in view: as before where that shows the selection, else just
/// far enough away.
pub open spec fn scrolled(len: nat, rows: nat, sel: nat, scroll: nat) -> nat {
    let held = if len > rows {
        if scroll > len - rows {
            (len - rows) as nat
        } else {
            scroll
        }
    } else {
        0
    };
    let up = if sel < held {
        sel
    } else {
        held
    };
    if sel >= up + rows {
        (sel - rows + 1) as nat
    } else {
        up
    }
}

/// The first row in view.
pub fn scroll_to(len: usize, rows: usize, sel: usize, scroll: usize) -> (r: usize)
    requires
        rows >= 1,
    ensures
        r == scrolled(len as nat, rows as nat, sel as nat, scroll as nat),
        r <= sel,
        sel - r < rows,
{
    let mut s: usize = scroll;
    if len > rows {
        if s > len - rows {
            s = len - rows;
        }
    } else {
        s = 0;
    }
    if sel < s {
        s = sel;
    }
    if sel - s >= rows {
        s = sel - rows + 1;
    }
    s
}

/// The selection is always in view.
pub proof fn lemma_selection_in_view(len: nat, rows: nat, sel: nat, scroll: nat)
    requires
        rows >= 1,
    ensures
        scrolled(len, rows, sel, scroll) <= sel < scrolled(len, rows, sel, scroll) + rows,
{
}

/// A view that shows the selection and is filled as far as can be does not
/// scroll.
pub proof fn lemma_scroll_settles(len: nat, rows: nat, sel: nat, scroll: nat)
    requires
        rows >= 1,
        sel < len,
    ensures
        ({
            let s = scrolled(len, rows, sel, scroll);
            scrolled(len, rows, sel, s) == s && (len > rows ==> s + rows <= len)
        }),
{
}

/// Where each way to move takes the selection: a row or a page on or back, as
/// far as there are rows, and to the first and the last row.
pub proof fn lemma_travel(place: int, page: nat, len: int)
    requires
        0 <= place < len,
    ensures
        ({
            let to = |t: Travel| moved_place(place, t.distance(page, len as nat), len);
            &&& place + 1 < len ==> to(Travel::Down) == place + 1
            &&& place + 1 == len ==> to(Travel::Down) == place
            &&& place > 0 ==> to(Travel::Up) == place - 1
            &&& place == 0 ==> to(Travel::Up) == 0
            &&& place + page < len ==> to(Travel::PageDown) == place + page
            &&& place + page >= len ==> to(Travel::PageDown) == len - 1
            &&& place >= page ==> to(Travel::PageUp) == place - page
            &&& place < page ==> to(Travel::PageUp) == 0
            &&& to(Travel::Home) == 0
            &&& to(Travel::End) == len - 1
        }),
{
}

/// A list scrolls no further than it must: not at all where the selection is in
/// view, and else until it is the first or the last row in view.
pub proof fn lemma_scrolls_least(len: nat, rows: nat, sel: nat, scroll: nat)
    requires
        rows >= 1,
        sel < len,
        scroll == 0 || scroll + rows <= len,
    ensures
        scroll <= sel < scroll + rows ==> scrolled(len, rows, sel, scroll) == scroll,
        sel < scroll ==> scrolled(len, rows, sel, scroll) == sel,
        sel >= scroll + rows ==> scrolled(len, rows, sel, scroll) == sel - rows + 1,
{
}

} // verus!
