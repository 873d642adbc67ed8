//! The focus-centered viewport: which slice of the line list one frame
//! shows, and how each row in it is printed.

use vstd::prelude::*;

verus! {

use crate::types::terminal_line::{LineView, TerminalLine};

/// One row as printed: a focus marker, then the matching presentation.
pub open spec fn line_display(l: LineView, is_focused: bool) -> Seq<char> {
    if is_focused {
        seq!['>'] + l.focused
    } else {
        seq![' '] + l.unfocused
    }
}

/// The window over a list of `len` lines with focus `focused` and half
/// height `wh`: the focus is clamped into the list, pulled back so the
/// window's end never passes the list's end, and pushed forward so its
/// start never goes below zero.
pub open spec fn window_bounds(len: int, focused: int, wh: int) -> (int, int) {
    let e1 = if focused > len {
        len
    } else {
        focused
    };
    let e2 = if e1 + wh > len {
        if len >= wh {
            len - wh
        } else {
            0
        }
    } else {
        e1
    };
    let e3 = if e2 < wh {
        wh
    } else {
        e2
    };
    (e3 - wh, e3 + wh)
}

pub open spec fn lines_views(ls: Seq<TerminalLine>) -> Seq<LineView> {
    ls.map_values(|l: TerminalLine| l@)
}

/// What one frame shows: the rows from the window's start to its end
/// (clipped to the list), the focused row in its focused form.
pub open spec fn spec_render_lines(lines: Seq<LineView>, focused: int, term_height: int) -> Seq<
    Seq<char>,
> {
    let wh = term_height / 2 - 1;
    let bounds = window_bounds(lines.len() as int, focused, wh);
    let start = bounds.0;
    let stop = if bounds.1 > lines.len() {
        lines.len() as int
    } else {
        bounds.1
    };
    Seq::new((stop - start) as nat, |k: int| line_display(lines[start + k], start + k == focused))
}

/// A document no taller than the half window is always shown whole.
pub proof fn lemma_window_covers_short(lines: Seq<LineView>, focused: int, term_height: int)
    requires
        0 <= focused,
        4 <= term_height,
        lines.len() <= term_height / 2 - 1,
    ensures
        spec_render_lines(lines, focused, term_height).len() == lines.len(),
        forall|k: int|
            0 <= k < lines.len() ==> spec_render_lines(lines, focused, term_height)[k]
                == line_display(lines[k], k == focused),
{
    let wh = term_height / 2 - 1;
    let b = window_bounds(lines.len() as int, focused, wh);
    assert(b.0 == 0);
    assert(b.1 >= lines.len());
}

/// Render the visible slice of `lines` for a terminal of the given height.
pub fn render_lines(lines: &Vec<TerminalLine>, focused: usize, term_height: usize) -> (r: Vec<
    String,
>)
    requires
        term_height >= 2,
        lines@.len() + term_height <= usize::MAX,
    ensures
        crate::utils::strings_views(r@) == spec_render_lines(
            lines_views(lines@),
            focused as int,
            term_height as int,
        ),
{
    let window_height: usize = term_height / 2 - 1;
    let max = lines.len();
    let mut effective_focus = focused;
    // can't focus past the end of the page
    if effective_focus > max {
        effective_focus = max;
    }
    // the window has to end before the end of the page
    if effective_focus + window_height > max {
        if max >= window_height {
            effective_focus = max - window_height;
        } else {
            effective_focus = 0;
        }
    }
    // the window has to start after the start of the page
    if effective_focus < window_height {
        effective_focus = window_height;
    }
    let start = effective_focus - window_height;
    let end = effective_focus + window_height;
    let stop = if end > max {
        max
    } else {
        end
    };
    let ghost lv = lines_views(lines@);
    let ghost spec_out = spec_render_lines(lv, focused as int, term_height as int);
    proof {
        assert(lv.len() == lines@.len());
        assert(window_bounds(lv.len() as int, focused as int, window_height as int) == (
            start as int,
            end as int,
        ));
        assert(spec_out.len() == stop - start);
    }
    let mut out: Vec<String> = Vec::new();
    let mut i = start;
    while i < stop
        invariant
            start <= i <= stop <= lines@.len(),
            lv == lines_views(lines@),
            spec_out.len() == stop - start,
            out@.len() == i - start,
            forall|k: int|
                0 <= k < out@.len() ==> crate::utils::strings_views(out@)[k] == spec_out[k],
            forall|k: int|
                start <= k < stop ==> spec_out[k - start] == line_display(
                    lv[k],
                    k == focused as int,
                ),
        decreases stop - i,
    {
        let row = lines[i].display(i == focused);
        out.push(row);
        proof {
            assert(lv[i as int] == lines@[i as int]@);
        }
        i = i + 1;
    }
    proof {
        assert(crate::utils::strings_views(out@) =~= spec_out);
    }
    out
}

} // verus!
