//! The renderer: walk the minified tree and emit terminal lines, resolving
//! embedded images through the asset cache, collecting the page title from
//! the head, and applying per-tag styling.

use vstd::prelude::*;

verus! {

use crate::cacher::{ByteCacher, EntryV, ProbeOutcome, cview, entry_view, lemma_cview_insert};
use crate::img::{image_decode, spec_approximate, spec_img_viewport};
use crate::types::doc_element::{
    node_view, node_wf, nodes_view, nodes_wf, lemma_nodes_wf_push, spec_trim, DocElement, DocView,
    PropMap,
};
use crate::types::terminal_line::{
    iview, line_of, padded, spaces, styled, InteractionType, InteractionView, LineView,
    TerminalLine,
};
use crate::utils::{link_resolvable, spec_link_destination, spec_wrap, visible_len};
use crate::viewport::lines_views;

broadcast use vstd::seq::axiom_seq_index_decreases, vstd::std_specs::vec::group_vec_axioms;

/// The renderer's side effects: the page title found so far, the cache's
/// state, and the fetches the caller owes.
#[verifier::ext_equal]
pub struct RState {
    pub title: Option<Seq<char>>,
    pub cache: Map<Seq<char>, EntryV>,
    pub fetches: Seq<Seq<char>>,
}

pub open spec fn title_view(t: Option<String>) -> Option<Seq<char>> {
    match t {
        Some(s) => Some(s@),
        None => None,
    }
}

// ---- which trees the renderer accepts ----
/// Every `src` of an `img` element must have a defined link resolution.
pub open spec fn imgs_ok(t: DocView) -> bool
    decreases t,
{
    match t {
        DocView::Elem { name, children, props } => (name == "img"@ && props.contains_key("src"@)
            ==> link_resolvable(props["src"@])) && imgs_ok_run(children),
        _ => true,
    }
}

pub open spec fn imgs_ok_run(cs: Seq<DocView>) -> bool
    decreases cs,
{
    if cs.len() == 0 {
        true
    } else {
        imgs_ok(cs[0]) && imgs_ok_run(cs.drop_first())
    }
}

pub proof fn lemma_imgs_ok_run_index(cs: Seq<DocView>, i: int)
    requires
        imgs_ok_run(cs),
        0 <= i < cs.len(),
    ensures
        imgs_ok(cs[i]),
    decreases cs.len(),
{
    if i > 0 {
        assert(cs.drop_first()[i - 1] == cs[i]);
        lemma_imgs_ok_run_index(cs.drop_first(), i - 1);
    }
}

// ---- the title search ----
/// The children of the `title` element that sets the page title: the first
/// one the depth-first walk finds, in document order (a title element's own
/// subtree is not searched further).
pub open spec fn spec_find_title(t: DocView) -> Option<Seq<DocView>>
    decreases t,
{
    match t {
        DocView::Elem { name, children, props } => if name == "title"@ {
            Some(children)
        } else {
            spec_find_title_run(children)
        },
        _ => None,
    }
}

pub open spec fn spec_find_title_run(cs: Seq<DocView>) -> Option<Seq<DocView>>
    decreases cs,
{
    if cs.len() == 0 {
        None
    } else {
        match spec_find_title(cs[0]) {
            Some(found) => Some(found),
            None => spec_find_title_run(cs.drop_first()),
        }
    }
}

// ---- per-tag formatting ----
/// The widest visible width among the lines.
pub open spec fn max_vis(ls: Seq<LineView>) -> nat
    decreases ls.len(),
{
    if ls.len() == 0 {
        0
    } else {
        let m0 = if ls[0].focused_vis >= ls[0].unfocused_vis {
            ls[0].focused_vis
        } else {
            ls[0].unfocused_vis
        };
        let rest = max_vis(ls.drop_first());
        if m0 >= rest {
            m0
        } else {
            rest
        }
    }
}

proof fn lemma_max_vis(ls: Seq<LineView>, i: int)
    requires
        0 <= i < ls.len(),
    ensures
        ls[i].focused_vis <= max_vis(ls),
        ls[i].unfocused_vis <= max_vis(ls),
    decreases ls.len(),
{
    if i > 0 {
        assert(ls.drop_first()[i - 1] == ls[i]);
        lemma_max_vis(ls.drop_first(), i - 1);
    }
}

/// Every line wrapped in the same prefixes and suffixes.
pub open spec fn styled_run(ls: Seq<LineView>, fp: Seq<char>, fs: Seq<char>, up: Seq<char>, us: Seq<char>) -> Seq<LineView>
    decreases ls.len(),
{
    if ls.len() == 0 {
        Seq::empty()
    } else {
        seq![styled(ls[0], fp, fs, up, us)] + styled_run(ls.drop_first(), fp, fs, up, us)
    }
}

/// Every line padded to width `w`, then wrapped.
pub open spec fn padded_styled_run(ls: Seq<LineView>, w: int, fp: Seq<char>, fs: Seq<char>, up: Seq<char>, us: Seq<char>) -> Seq<LineView>
    decreases ls.len(),
{
    if ls.len() == 0 {
        Seq::empty()
    } else {
        seq![styled(padded(ls[0], w), fp, fs, up, us)] + padded_styled_run(
            ls.drop_first(), w, fp, fs, up, us)
    }
}

/// The address an anchor leads to: its `href` resolved against the page
/// address where resolution is defined, the raw `href` otherwise.
pub open spec fn resolved_href(link: Seq<char>, href: Seq<char>) -> Seq<char> {
    if link_resolvable(href) {
        spec_link_destination(link, href)
    } else {
        href
    }
}

/// The anchor treatment: a line that already carries a link keeps it; any
/// other gets the `(text)[href]` focused form, the underlined colored
/// unfocused form, and the link interaction, the href resolved against the
/// page address.
pub open spec fn anchor_line(l: LineView, href: Seq<char>) -> LineView {
    if l.interaction is Link {
        l
    } else {
        LineView {
            interaction: InteractionView::Link(href),
            ..styled(
                l,
                "("@,
                ")[\u{1B}[94m"@ + href + "\u{1B}[0m]"@,
                "\u{1B}[4;94m"@,
                "\u{1B}[0m"@,
            )
        }
    }
}

pub open spec fn anchor_run(ls: Seq<LineView>, href: Seq<char>) -> Seq<LineView>
    decreases ls.len(),
{
    if ls.len() == 0 {
        Seq::empty()
    } else {
        seq![anchor_line(ls[0], href)] + anchor_run(ls.drop_first(), href)
    }
}

/// A horizontal box border: the corners around `w` repeats of the bar.
pub open spec fn border(l: char, bar: char, r: char, w: int) -> Seq<char> {
    seq![l] + Seq::new(w as nat, |i: int| bar) + seq![r]
}

/// What each known tag does to its children's lines.
pub open spec fn spec_formatted(name: Seq<char>, props: Map<Seq<char>, Seq<char>>, ls: Seq<LineView>, link: Seq<char>) -> Seq<LineView> {
    if name == "a"@ {
        let href = resolved_href(
            link,
            if props.contains_key("href"@) {
                props["href"@]
            } else {
                Seq::empty()
            },
        );
        anchor_run(ls, href)
    } else if name == "b"@ || name == "strong"@ || name == "i"@ {
        styled_run(ls, "\u{1B}[1m"@, "\u{1B}[0m"@, "\u{1B}[1m"@, "\u{1B}[0m"@)
    } else if name == "code"@ {
        let w = max_vis(ls) as int;
        padded_styled_run(
            ls,
            w,
            "\u{1B}[38;5;250;48;5;240m"@,
            "\u{1B}[0m"@,
            "\u{1B}[38;5;250;48;5;240m"@,
            "\u{1B}[0m"@,
        )
    } else if name == "h1"@ {
        let w = max_vis(ls) as int;
        seq![line_of(border('\u{2554}', '\u{2550}', '\u{2557}', w))] + padded_styled_run(
            ls,
            w,
            "\u{2551}\u{1B}[30;47m"@,
            "\u{1B}[0m\u{2551}"@,
            "\u{2551}\u{1B}[30;47m"@,
            "\u{1B}[0m\u{2551}"@,
        ) + seq![line_of(border('\u{255A}', '\u{2550}', '\u{255D}', w))]
    } else if name == "h2"@ {
        let w = max_vis(ls) as int;
        seq![line_of(border('\u{2554}', '\u{2550}', '\u{2557}', w))] + padded_styled_run(
            ls,
            w,
            "\u{2551}"@,
            "\u{2551}"@,
            "\u{2551}"@,
            "\u{2551}"@,
        ) + seq![line_of(border('\u{255A}', '\u{2550}', '\u{255D}', w))]
    } else if name == "h3"@ {
        let w = max_vis(ls) as int;
        seq![line_of(border('\u{250C}', '\u{2500}', '\u{2510}', w))] + padded_styled_run(
            ls,
            w,
            "\u{2502}"@,
            "\u{2502}"@,
            "\u{2502}"@,
            "\u{2502}"@,
        ) + seq![line_of(border('\u{2514}', '\u{2500}', '\u{2518}', w))]
    } else if name == "h4"@ {
        styled_run(ls, "\u{1B}[30;47m"@, "\u{1B}[0m"@, "\u{1B}[30;47m"@, "\u{1B}[0m"@)
    } else if name == "h5"@ {
        styled_run(ls, "#### "@, " ####"@, "#### "@, " ####"@)
    } else if name == "h6"@ {
        styled_run(ls, "## "@, " ##"@, "## "@, " ##"@)
    } else {
        ls
    }
}

proof fn lemma_anchor_run_index(ls: Seq<LineView>, href: Seq<char>, i: int)
    requires
        0 <= i < ls.len(),
    ensures
        anchor_run(ls, href).len() == ls.len(),
        anchor_run(ls, href)[i] == anchor_line(ls[i], href),
    decreases ls.len(),
{
    if ls.len() > 1 {
        lemma_anchor_run_index(
            ls.drop_first(),
            href,
            if i > 0 {
                i - 1
            } else {
                0
            },
        );
    } else {
        assert(anchor_run(ls.drop_first(), href) =~= Seq::<LineView>::empty());
    }
    if i > 0 {
        assert(ls.drop_first()[i - 1] == ls[i]);
        lemma_anchor_run_index(ls.drop_first(), href, i - 1);
    }
}

/// The anchor law: under an `a` element, every rendered line that does not
/// already carry a link gets the link interaction with the element's href
/// resolved against the page address, the `(text)[href]` focused form, and
/// the underlined colored unfocused form; a line that already carries a
/// link is kept unchanged, and no line is added or dropped.
pub proof fn lemma_anchor_formatting(
    props: Map<Seq<char>, Seq<char>>,
    ls: Seq<LineView>,
    link: Seq<char>,
    i: int,
)
    requires
        props.contains_key("href"@),
        0 <= i < ls.len(),
    ensures
        spec_formatted("a"@, props, ls, link).len() == ls.len(),
        !(ls[i].interaction is Link) ==> spec_formatted("a"@, props, ls, link)[i] == (LineView {
            interaction: InteractionView::Link(resolved_href(link, props["href"@])),
            ..styled(
                ls[i],
                "("@,
                ")[\u{1B}[94m"@ + resolved_href(link, props["href"@]) + "\u{1B}[0m]"@,
                "\u{1B}[4;94m"@,
                "\u{1B}[0m"@,
            )
        }),
        (ls[i].interaction is Link) ==> spec_formatted("a"@, props, ls, link)[i] == ls[i],
{
    lemma_anchor_run_index(ls, resolved_href(link, props["href"@]), i);
}

/// The lines that survive the empty filter.
pub open spec fn keep_nonempty(ls: Seq<LineView>) -> Seq<LineView>
    decreases ls.len(),
{
    if ls.len() == 0 {
        Seq::empty()
    } else {
        let keep = !(ls[0].focused.len() == 0 && ls[0].unfocused.len() == 0);
        (if keep {
            seq![ls[0]]
        } else {
            Seq::empty()
        }) + keep_nonempty(ls.drop_first())
    }
}

/// Every line carrying the element's id.
pub open spec fn with_id_run(ls: Seq<LineView>, id: Seq<char>) -> Seq<LineView>
    decreases ls.len(),
{
    if ls.len() == 0 {
        Seq::empty()
    } else {
        seq![LineView { id: Some(id), ..ls[0] }] + with_id_run(ls.drop_first(), id)
    }
}

// ---- the image element ----
/// The alt text of an image placeholder: the `alt` attribute, else the
/// `src`, else nothing.
pub open spec fn fallback_alt(props: Map<Seq<char>, Seq<char>>) -> Seq<char> {
    if props.contains_key("alt"@) {
        props["alt"@]
    } else if props.contains_key("src"@) {
        props["src"@]
    } else {
        Seq::empty()
    }
}

/// The one-line placeholder shown while an image is not available.
pub open spec fn fallback_line(props: Map<Seq<char>, Seq<char>>) -> LineView {
    let alt = fallback_alt(props);
    if alt.len() == 0 {
        line_of("[image]"@)
    } else {
        line_of("[image: "@ + alt + "]"@)
    }
}

/// Whether a decoded raster can be drawn on this terminal: positive size,
/// a terminal wide enough, products in range, and at least one glyph row.
pub open spec fn img_usable(w: nat, h: nat, cols: u16, rows: u16) -> bool {
    &&& w >= 1
    &&& h >= 1
    &&& cols / 2 >= 1
    &&& 2 * w <= u32::MAX
    &&& 2 * w * ((rows / 2) as nat) <= u32::MAX
    &&& h * (((cols / 2) - 1) as nat) <= u32::MAX
    &&& (((cols / 2) - 1) as nat) * ((rows / 2) as nat) <= u32::MAX
    &&& spec_img_viewport(
        (2 * w as int, h as int),
        (((cols / 2) - 1) as int, (rows / 2) as int),
    ).1 >= 1
}

/// One glyph row as an image line carrying the image interaction.
pub open spec fn img_line(row: Seq<char>, src: Seq<char>) -> LineView {
    LineView { interaction: InteractionView::Image(src), ..line_of(row) }
}

pub open spec fn img_lines(rows: Seq<Seq<char>>, src: Seq<char>) -> Seq<LineView> {
    Seq::new(rows.len(), |i: int| img_line(rows[i], src))
}

/// What an `img` element renders to, and what it does to the cache: ready
/// bytes that decode to a drawable raster become glyph rows; anything else
/// is the placeholder, and an unknown key starts one fetch.
pub open spec fn spec_display_img(props: Map<Seq<char>, Seq<char>>, st: RState, link: Seq<char>, cols: u16, rows: u16) -> (
    Seq<LineView>,
    RState,
) {
    if props.contains_key("src"@) {
        let src = props["src"@];
        let url = spec_link_destination(link, src);
        match st.cache[url] {
            EntryV::Stored(bytes) => match image_decode(bytes) {
                Some(t) => if !(t.0 == 0 && t.1 == 0) && img_usable(t.0, t.1, cols, rows) {
                    let grid = spec_approximate(
                        t.2,
                        t.0 as int,
                        t.1 as int,
                        (((cols / 2)) as int, (rows / 2) as int),
                    );
                    (img_lines(grid, src), st)
                } else {
                    (seq![fallback_line(props)], st)
                },
                None => (seq![fallback_line(props)], st),
            },
            EntryV::Calling => (seq![fallback_line(props)], st),
            EntryV::Empty => (
                seq![fallback_line(props)],
                RState {
                    cache: st.cache.insert(url, EntryV::Calling),
                    fetches: st.fetches + seq![url],
                    ..st
                },
            ),
        }
    } else {
        (seq![fallback_line(props)], st)
    }
}

// ---- the tree walk ----
/// A wrapped line without the leading space its first word entered with.
pub open spec fn tail_of(s: Seq<char>) -> Seq<char> {
    if s.len() >= 1 {
        s.drop_first()
    } else {
        Seq::empty()
    }
}

/// The unfocused presentations of the title's lines, joined as printed.
pub open spec fn title_concat(ls: Seq<LineView>) -> Seq<char>
    decreases ls.len(),
{
    if ls.len() == 0 {
        Seq::empty()
    } else {
        (seq![' '] + ls[0].unfocused) + title_concat(ls.drop_first())
    }
}

/// What rendering a node yields: its lines and the state after it.
pub open spec fn spec_display(t: DocView, st: RState, link: Seq<char>, cols: u16, rows: u16) -> (
    Seq<LineView>,
    RState,
)
    decreases t,
    via spec_display_via
{
    match t {
        DocView::Elem { name, children, props } => {
            if name == "head"@ {
                match spec_find_title(t) {
                    Some(tcs) => {
                        let r = spec_display_run(tcs, st, link, cols, rows);
                        let title = spec_trim(title_concat(r.0)) + " - Nasir"@;
                        (Seq::empty(), RState { title: Some(title), ..r.1 })
                    },
                    None => (Seq::empty(), st),
                }
            } else if name == "script"@ || name == "style"@ || name == "option"@ {
                (Seq::empty(), st)
            } else if name == "img"@ {
                spec_display_img(props, st, link, cols, rows)
            } else {
                let r = spec_display_run(children, st, link, cols, rows);
                let fmt = spec_formatted(name, props, keep_nonempty(r.0), link);
                let ls = if props.contains_key("id"@) {
                    with_id_run(fmt, props["id"@])
                } else {
                    fmt
                };
                (ls, r.1)
            }
        },
        DocView::Text(s) => {
            let ws = spec_wrap(s, cols as int - 1);
            (Seq::new(ws.len(), |i: int| line_of(tail_of(ws[i]))), st)
        },
        DocView::Closing(_) => (seq![line_of(Seq::empty())], st),
    }
}

/// Rendering a run of siblings: lines concatenate, the state threads
/// through left to right.
pub open spec fn spec_display_run(cs: Seq<DocView>, st: RState, link: Seq<char>, cols: u16, rows: u16) -> (
    Seq<LineView>,
    RState,
)
    decreases cs,
{
    if cs.len() == 0 {
        (Seq::empty(), st)
    } else {
        let r0 = spec_display(cs[0], st, link, cols, rows);
        let rr = spec_display_run(cs.drop_first(), r0.1, link, cols, rows);
        (r0.0 + rr.0, rr.1)
    }
}

/// A found title's children stand below the tree they were found in.
proof fn lemma_find_title_smaller(t: DocView)
    ensures
        match spec_find_title(t) {
            Some(cs) => decreases_to!(t => cs),
            None => true,
        },
    decreases t,
{
    match t {
        DocView::Elem { name, children, props } => {
            if name == "title"@ {
            } else {
                lemma_find_title_run_smaller(children);
            }
        },
        _ => {},
    }
}

proof fn lemma_find_title_run_smaller(cs: Seq<DocView>)
    ensures
        match spec_find_title_run(cs) {
            Some(found) => decreases_to!(cs => found),
            None => true,
        },
    decreases cs,
{
    if cs.len() > 0 {
        lemma_find_title_smaller(cs[0]);
        match spec_find_title(cs[0]) {
            Some(_) => {},
            None => {
                lemma_find_title_run_smaller(cs.drop_first());
            },
        }
    }
}

#[via_fn]
proof fn spec_display_via(t: DocView, st: RState, link: Seq<char>, cols: u16, rows: u16) {
    lemma_find_title_smaller(t);
}


/// The tag names the renderer dispatches on are pairwise distinct.
proof fn lemma_tag_names()
    ensures
        "a"@.len() == 1 && "b"@.len() == 1 && "i"@.len() == 1 && "img"@.len() == 3,
        "h1"@.len() == 2 && "h2"@.len() == 2 && "h3"@.len() == 2 && "h4"@.len() == 2
            && "h5"@.len() == 2 && "h6"@.len() == 2,
        "head"@.len() == 4 && "code"@.len() == 4 && "style"@.len() == 5 && "title"@.len() == 5,
        "strong"@.len() == 6 && "script"@.len() == 6 && "option"@.len() == 6,
        "a"@ != "b"@ && "a"@ != "i"@ && "b"@ != "i"@,
        "h1"@ != "h2"@ && "h1"@ != "h3"@ && "h1"@ != "h4"@ && "h1"@ != "h5"@ && "h1"@ != "h6"@,
        "h2"@ != "h3"@ && "h2"@ != "h4"@ && "h2"@ != "h5"@ && "h2"@ != "h6"@,
        "h3"@ != "h4"@ && "h3"@ != "h5"@ && "h3"@ != "h6"@,
        "h4"@ != "h5"@ && "h4"@ != "h6"@,
        "h5"@ != "h6"@,
        "head"@ != "code"@,
        "style"@ != "title"@,
        "strong"@ != "script"@ && "strong"@ != "option"@ && "script"@ != "option"@,
{
    reveal_strlit("a");
    reveal_strlit("b");
    reveal_strlit("strong");
    reveal_strlit("i");
    reveal_strlit("code");
    reveal_strlit("h1");
    reveal_strlit("h2");
    reveal_strlit("h3");
    reveal_strlit("h4");
    reveal_strlit("h5");
    reveal_strlit("h6");
    reveal_strlit("head");
    reveal_strlit("script");
    reveal_strlit("style");
    reveal_strlit("option");
    reveal_strlit("img");
    reveal_strlit("title");
    assert("a"@[0] == 'a' && "b"@[0] == 'b' && "i"@[0] == 'i');
    assert("h1"@[1] == '1' && "h2"@[1] == '2' && "h3"@[1] == '3');
    assert("h4"@[1] == '4' && "h5"@[1] == '5' && "h6"@[1] == '6');
    assert("head"@[0] == 'h' && "code"@[0] == 'c');
    assert("style"@[0] == 's' && "title"@[0] == 't');
    assert("strong"@[1] == 't' && "script"@[1] == 'c' && "option"@[0] == 'o');
    assert("strong"@[0] == 's' && "script"@[0] == 's');
}

// ---- executable helpers ----
/// The exec states' mathematical value.
pub open spec fn rstate_of(title: Option<String>, c: ByteCacher, f: Seq<String>) -> RState {
    RState {
        title: title_view(title),
        cache: cview(c),
        fetches: crate::utils::strings_views(f),
    }
}

/// The one-line placeholder for an unavailable image.
fn image_fallback(properties: &PropMap) -> (r: TerminalLine)
    requires
        properties.wf(),
    ensures
        r@ == fallback_line(properties@),
        r.wf(),
{
    let alt: String = match properties.get("alt") {
        Some(a) => a.clone(),
        None => match properties.get("src") {
            Some(sv) => sv.clone(),
            None => String::new(),
        },
    };
    if alt.as_str().is_empty() {
        TerminalLine::from_text(String::from_str("[image]"))
    } else {
        let mut t = String::from_str("[image: ");
        t.append(alt.as_str());
        t.append("]");
        let r = TerminalLine::from_text(t);
        proof {
            assert(("[image: "@ + alt@ + "]"@) =~= ("[image: "@ + alt@) + "]"@);
        }
        r
    }
}

/// The widest visible width among the lines.
fn compute_width(ret: &Vec<TerminalLine>) -> (w: usize)
    ensures
        w == max_vis(lines_views(ret@)),
{
    let ghost full = lines_views(ret@);
    let mut w: usize = 0;
    let mut i: usize = 0;
    proof {
        assert(full.skip(0) =~= full);
    }
    while i < ret.len()
        invariant
            i <= ret@.len(),
            full == lines_views(ret@),
            max_vis(full) == (if w as nat >= max_vis(full.skip(i as int)) {
                w as nat
            } else {
                max_vis(full.skip(i as int))
            }),
        decreases ret@.len() - i,
    {
        let ghost rem = full.skip(i as int);
        proof {
            assert(rem[0] == full[i as int]);
            assert(rem.drop_first() =~= full.skip(i as int + 1));
            assert(full[i as int] == ret@[i as int]@);
        }
        let m = ret[i].max_visible_length();
        if m > w {
            w = m;
        }
        i = i + 1;
    }
    proof {
        assert(full.skip(i as int) =~= full.skip(full.len() as int));
        assert(max_vis(full.skip(full.len() as int)) == 0);
    }
    w
}

/// Wrap every line in the same prefixes and suffixes.
fn style_all(ret: Vec<TerminalLine>, fp: &str, fs: &str, up: &str, us: &str) -> (r: Vec<
    TerminalLine,
>)
    ensures
        lines_views(r@) == styled_run(lines_views(ret@), fp@, fs@, up@, us@),
        forall|i: int| 0 <= i < r@.len() ==> (#[trigger] r@[i]).wf(),
{
    let ghost full = lines_views(ret@);
    let mut rem = ret;
    let mut out: Vec<TerminalLine> = Vec::new();
    while rem.len() > 0
        invariant
            forall|i: int| 0 <= i < out@.len() ==> (#[trigger] out@[i]).wf(),
            styled_run(full, fp@, fs@, up@, us@) == lines_views(out@) + styled_run(
                lines_views(rem@), fp@, fs@, up@, us@),
        decreases rem@.len(),
    {
        let ghost remv = lines_views(rem@);
        let ghost outv = lines_views(out@);
        let l = rem.remove(0);
        proof {
            assert(remv[0] == l@);
            assert(lines_views(rem@) =~= remv.drop_first());
        }
        let sl = l.style_wrap(fp, fs, up, us);
        out.push(sl);
        proof {
            assert(lines_views(out@) =~= outv + seq![sl@]);
            assert(outv + (seq![styled(remv[0], fp@, fs@, up@, us@)] + styled_run(
                remv.drop_first(), fp@, fs@, up@, us@)) =~= lines_views(out@) + styled_run(
                remv.drop_first(), fp@, fs@, up@, us@));
        }
    }
    proof {
        assert(lines_views(rem@) =~= Seq::<LineView>::empty());
        assert(lines_views(out@) + Seq::<LineView>::empty() =~= lines_views(out@));
    }
    out
}

/// Pad every line to width `w`, then wrap it.
fn pad_style_all(ret: Vec<TerminalLine>, w: usize, fp: &str, fs: &str, up: &str, us: &str) -> (r:
    Vec<TerminalLine>)
    requires
        forall|i: int|
            0 <= i < ret@.len() ==> (#[trigger] ret@[i]).wf() && ret@[i]@.focused_vis <= w
                && ret@[i]@.unfocused_vis <= w,
    ensures
        lines_views(r@) == padded_styled_run(lines_views(ret@), w as int, fp@, fs@, up@, us@),
        forall|i: int| 0 <= i < r@.len() ==> (#[trigger] r@[i]).wf(),
{
    let ghost full = lines_views(ret@);
    let mut rem = ret;
    let mut out: Vec<TerminalLine> = Vec::new();
    while rem.len() > 0
        invariant
            forall|i: int|
                0 <= i < rem@.len() ==> (#[trigger] rem@[i]).wf() && rem@[i]@.focused_vis <= w
                    && rem@[i]@.unfocused_vis <= w,
            forall|i: int| 0 <= i < out@.len() ==> (#[trigger] out@[i]).wf(),
            padded_styled_run(full, w as int, fp@, fs@, up@, us@) == lines_views(out@)
                + padded_styled_run(lines_views(rem@), w as int, fp@, fs@, up@, us@),
        decreases rem@.len(),
    {
        let ghost remv = lines_views(rem@);
        let ghost outv = lines_views(out@);
        let l = rem.remove(0);
        proof {
            assert(remv[0] == l@);
            assert(lines_views(rem@) =~= remv.drop_first());
        }
        let pl = l.visible_right_pad(w);
        proof {
            assert(pl@ =~= padded(remv[0], w as int));
        }
        let sl = pl.style_wrap(fp, fs, up, us);
        out.push(sl);
        proof {
            assert(lines_views(out@) =~= outv + seq![sl@]);
            assert(outv + (seq![styled(padded(remv[0], w as int), fp@, fs@, up@, us@)]
                + padded_styled_run(remv.drop_first(), w as int, fp@, fs@, up@, us@))
                =~= lines_views(out@) + padded_styled_run(
                remv.drop_first(), w as int, fp@, fs@, up@, us@));
        }
    }
    proof {
        assert(lines_views(rem@) =~= Seq::<LineView>::empty());
        assert(lines_views(out@) + Seq::<LineView>::empty() =~= lines_views(out@));
    }
    out
}

/// A horizontal box border line.
fn border_line(l: char, bar: char, r: char, w: usize) -> (t: TerminalLine)
    ensures
        t@ == line_of(border(l, bar, r, w as int)),
        t.wf(),
{
    let mut v: Vec<char> = Vec::new();
    v.push(l);
    let bars = crate::text::repeat_char(bar, w);
    crate::text::push_chars(&mut v, &bars);
    v.push(r);
    proof {
        assert(v@ =~= border(l, bar, r, w as int));
    }
    TerminalLine::from_text(crate::text::chars_to_string(&v))
}

/// Pure function to apply per-tag formatting to rendered lines.
#[verifier::rlimit(60)]
pub fn display_formatted_element(name: &String, properties: &PropMap, ret: Vec<TerminalLine>, base_link: &str) -> (
    r: Vec<TerminalLine>)
    requires
        properties.wf(),
        forall|i: int| 0 <= i < ret@.len() ==> (#[trigger] ret@[i]).wf(),
    ensures
        lines_views(r@) == spec_formatted(name@, properties@, lines_views(ret@), base_link@),
        forall|i: int| 0 <= i < r@.len() ==> (#[trigger] r@[i]).wf(),
{
    proof {
        lemma_tag_names();
    }
    let ghost full = lines_views(ret@);
    if *name == String::from_str("a") {
        let raw_href: String = match properties.get("href") {
            Some(h) => h.clone(),
            None => String::new(),
        };
        let href: String = if crate::utils::is_link_resolvable(raw_href.as_str()) {
            crate::utils::get_link_destination(base_link, raw_href.as_str())
        } else {
            raw_href
        };
        let mut fs = String::from_str(")[\u{1B}[94m");
        fs.append(href.as_str());
        fs.append("\u{1B}[0m]");
        proof {
            assert(fs@ =~= ")[\u{1B}[94m"@ + href@ + "\u{1B}[0m]"@);
        }
        let mut rem = ret;
        let mut out: Vec<TerminalLine> = Vec::new();
        while rem.len() > 0
            invariant
                fs@ == ")[\u{1B}[94m"@ + href@ + "\u{1B}[0m]"@,
                forall|i: int| 0 <= i < rem@.len() ==> (#[trigger] rem@[i]).wf(),
                forall|i: int| 0 <= i < out@.len() ==> (#[trigger] out@[i]).wf(),
                anchor_run(full, href@) == lines_views(out@) + anchor_run(
                    lines_views(rem@), href@),
            decreases rem@.len(),
        {
            let ghost remv = lines_views(rem@);
            let ghost outv = lines_views(out@);
            let l = rem.remove(0);
            proof {
                assert(remv[0] == l@);
                assert(lines_views(rem@) =~= remv.drop_first());
            }
            let is_link = match l.interaction() {
                InteractionType::Link(_) => true,
                _ => false,
            };
            let nl = if is_link {
                l
            } else {
                let sl = l.style_wrap("(", fs.as_str(), "\u{1B}[4;94m", "\u{1B}[0m");
                sl.with_interaction(InteractionType::Link(href.clone()))
            };
            proof {
                assert(nl@ =~= anchor_line(remv[0], href@));
            }
            out.push(nl);
            proof {
                assert(lines_views(out@) =~= outv + seq![nl@]);
                assert(outv + (seq![anchor_line(remv[0], href@)] + anchor_run(
                    remv.drop_first(), href@)) =~= lines_views(out@) + anchor_run(
                    remv.drop_first(), href@));
            }
        }
        proof {
            assert(lines_views(rem@) =~= Seq::<LineView>::empty());
            assert(lines_views(out@) + Seq::<LineView>::empty() =~= lines_views(out@));
        }
        out
    } else if *name == String::from_str("b") || *name == String::from_str("strong") || *name
        == String::from_str("i") {
        style_all(ret, "\u{1B}[1m", "\u{1B}[0m", "\u{1B}[1m", "\u{1B}[0m")
    } else if *name == String::from_str("code") {
        let w = compute_width(&ret);
        proof {
            assert forall|i: int| 0 <= i < ret@.len() implies (#[trigger] ret@[i]).wf()
                && ret@[i]@.focused_vis <= w && ret@[i]@.unfocused_vis <= w by {
                lemma_max_vis(full, i);
                assert(full[i] == ret@[i]@);
            }
        }
        pad_style_all(
            ret,
            w,
            "\u{1B}[38;5;250;48;5;240m",
            "\u{1B}[0m",
            "\u{1B}[38;5;250;48;5;240m",
            "\u{1B}[0m",
        )
    } else if *name == String::from_str("h1") || *name == String::from_str("h2") || *name
        == String::from_str("h3") {
        let w = compute_width(&ret);
        proof {
            assert forall|i: int| 0 <= i < ret@.len() implies (#[trigger] ret@[i]).wf()
                && ret@[i]@.focused_vis <= w && ret@[i]@.unfocused_vis <= w by {
                lemma_max_vis(full, i);
                assert(full[i] == ret@[i]@);
            }
        }
        let h3 = *name == String::from_str("h3");
        let h1 = *name == String::from_str("h1");
        let top = if h3 {
            border_line('\u{250C}', '\u{2500}', '\u{2510}', w)
        } else {
            border_line('\u{2554}', '\u{2550}', '\u{2557}', w)
        };
        let bottom = if h3 {
            border_line('\u{2514}', '\u{2500}', '\u{2518}', w)
        } else {
            border_line('\u{255A}', '\u{2550}', '\u{255D}', w)
        };
        let mid = if h3 {
            pad_style_all(ret, w, "\u{2502}", "\u{2502}", "\u{2502}", "\u{2502}")
        } else if h1 {
            pad_style_all(
                ret,
                w,
                "\u{2551}\u{1B}[30;47m",
                "\u{1B}[0m\u{2551}",
                "\u{2551}\u{1B}[30;47m",
                "\u{1B}[0m\u{2551}",
            )
        } else {
            pad_style_all(ret, w, "\u{2551}", "\u{2551}", "\u{2551}", "\u{2551}")
        };
        let mut out: Vec<TerminalLine> = Vec::new();
        out.push(top);
        let mut mid = mid;
        let ghost midv = lines_views(mid@);
        let n0 = mid.len();
        proof {
            assert(midv.len() == n0);
        }
        let mut k: usize = 0;
        while mid.len() > 0
            invariant
                midv.len() == n0,
                forall|i: int| 0 <= i < out@.len() ==> (#[trigger] out@[i]).wf(),
                lines_views(out@) =~= seq![top@] + midv.take(k as int),
                k + mid@.len() == midv.len(),
                forall|i: int| 0 <= i < mid@.len() ==> #[trigger] midv[k + i] == mid@[i]@,
                forall|i: int| 0 <= i < mid@.len() ==> (#[trigger] mid@[i]).wf(),
                top.wf(),
                top@ == line_of(border(
                    if h3 { '\u{250C}' } else { '\u{2554}' },
                    if h3 { '\u{2500}' } else { '\u{2550}' },
                    if h3 { '\u{2510}' } else { '\u{2557}' },
                    w as int,
                )),
            decreases mid@.len(),
        {
            let ghost ov = lines_views(out@);
            let ghost oldmid = mid@;
            let l = mid.remove(0);
            out.push(l);
            proof {
                assert(midv[k as int + 0] == oldmid[0]@);
                assert(l@ == midv[k as int]);
                assert(lines_views(out@) =~= ov + seq![l@]);
                assert(midv.take(k as int + 1) =~= midv.take(k as int) + seq![midv[k as int]]);
                assert((seq![top@] + midv.take(k as int)) + seq![midv[k as int]] =~= seq![top@]
                    + midv.take(k as int + 1));
                assert(mid@ =~= oldmid.drop_first());
                assert forall|i: int| 0 <= i < mid@.len() implies #[trigger] midv[k + 1 + i]
                    == mid@[i]@ by {
                    assert(mid@[i] == oldmid[i + 1]);
                    assert(midv[k as int + (i + 1)] == oldmid[i + 1]@);
                    assert(k + 1 + i == k as int + (i + 1));
                }
            }
            k = k + 1;
        }
        proof {
            assert(midv.take(k as int) =~= midv);
        }
        out.push(bottom);
        proof {
            assert(lines_views(out@) =~= (seq![top@] + midv) + seq![bottom@]);
            if h3 {
                assert(lines_views(out@) =~~= seq![
                    line_of(border('\u{250C}', '\u{2500}', '\u{2510}', w as int)),
                ] + padded_styled_run(full, w as int, "\u{2502}"@, "\u{2502}"@, "\u{2502}"@,
                    "\u{2502}"@) + seq![
                    line_of(border('\u{2514}', '\u{2500}', '\u{2518}', w as int)),
                ]);
            } else if h1 {
                assert(lines_views(out@) =~~= seq![
                    line_of(border('\u{2554}', '\u{2550}', '\u{2557}', w as int)),
                ] + padded_styled_run(
                    full,
                    w as int,
                    "\u{2551}\u{1B}[30;47m"@,
                    "\u{1B}[0m\u{2551}"@,
                    "\u{2551}\u{1B}[30;47m"@,
                    "\u{1B}[0m\u{2551}"@,
                ) + seq![line_of(border('\u{255A}', '\u{2550}', '\u{255D}', w as int))]);
            } else {
                assert(lines_views(out@) =~~= seq![
                    line_of(border('\u{2554}', '\u{2550}', '\u{2557}', w as int)),
                ] + padded_styled_run(full, w as int, "\u{2551}"@, "\u{2551}"@, "\u{2551}"@,
                    "\u{2551}"@) + seq![
                    line_of(border('\u{255A}', '\u{2550}', '\u{255D}', w as int)),
                ]);
            }
            lemma_tag_names();
            assert(lines_views(out@) == spec_formatted(name@, properties@, full, base_link@));
        }
        out
    } else if *name == String::from_str("h4") {
        style_all(ret, "\u{1B}[30;47m", "\u{1B}[0m", "\u{1B}[30;47m", "\u{1B}[0m")
    } else if *name == String::from_str("h5") {
        style_all(ret, "#### ", " ####", "#### ", " ####")
    } else if *name == String::from_str("h6") {
        style_all(ret, "## ", " ##", "## ", " ##")
    } else {
        ret
    }
}


// ---- the executable renderer ----
/// Unfolding the search one sibling at a time: the walk looks at `cs[k]`
/// first and moves on only when that subtree holds no title.
proof fn lemma_title_run_step(cs: Seq<DocView>, k: int)
    requires
        0 <= k < cs.len(),
    ensures
        spec_find_title_run(cs.skip(k)) == (match spec_find_title(cs[k]) {
            Some(found) => Some(found),
            None => spec_find_title_run(cs.skip(k + 1)),
        }),
{
    assert(cs.skip(k).drop_first() =~= cs.skip(k + 1));
    assert(cs.skip(k)[0] == cs[k]);
}

proof fn lemma_imgs_ok_run_all(cs: Seq<DocView>)
    requires
        forall|i: int| 0 <= i < cs.len() ==> imgs_ok(#[trigger] cs[i]),
    ensures
        imgs_ok_run(cs),
    decreases cs.len(),
{
    if cs.len() > 0 {
        assert forall|i: int| 0 <= i < cs.drop_first().len() implies imgs_ok(
            #[trigger] cs.drop_first()[i]) by {
            assert(cs.drop_first()[i] == cs[i + 1]);
        }
        lemma_imgs_ok_run_all(cs.drop_first());
    }
}

/// The children of the last `title` element below `e`, if any.
fn find_title_node<'a>(e: &'a DocElement) -> (r: Option<&'a Vec<DocElement>>)
    requires
        node_wf(*e),
        imgs_ok(node_view(*e)),
    ensures
        match r {
            Some(cs) => spec_find_title(node_view(*e)) == Some(nodes_view(cs@)) && nodes_wf(cs@)
                && imgs_ok_run(nodes_view(cs@)) && decreases_to!(*e => *cs),
            None => spec_find_title(node_view(*e)) is None,
        },
    decreases *e,
{
    match e {
        DocElement::HtmlElement { name, children, properties } => {
            proof {
                crate::types::doc_element::lemma_nodes_view(children@);
                crate::types::doc_element::lemma_nodes_wf(children@);
            }
            if *name == String::from_str("title") {
                Some(children)
            } else {
                let ghost cs = nodes_view(children@);
                proof {
                    assert(cs.skip(0) =~= cs);
                    assert forall|j: int| 0 <= j < children@.len() implies decreases_to!(*e
                        => #[trigger] children@[j]) by {
                        assert(decreases_to!(*e => *children));
                        assert(decreases_to!(*children => children@));
                        assert(decreases_to!(children@ => children@[j]));
                    }
                }
                let mut i: usize = 0;
                while i < children.len()
                    invariant
                        i <= children@.len(),
                        cs == nodes_view(children@),
                        node_view(*e) == (DocView::Elem {
                            name: name@,
                            children: cs,
                            props: properties@,
                        }),
                        name@ != "title"@,
                        nodes_wf(children@),
                        imgs_ok_run(cs),
                        cs.len() == children@.len(),
                        forall|j: int|
                            0 <= j < children@.len() ==> decreases_to!(*e
                                => #[trigger] children@[j]),
                        forall|j: int|
                            0 <= j < children@.len() ==> #[trigger] cs[j] == node_view(
                                children@[j]),
                        spec_find_title_run(cs) == spec_find_title_run(cs.skip(i as int)),
                    decreases children@.len() - i,
                {
                    proof {
                        crate::types::doc_element::lemma_nodes_wf(children@);
                        lemma_imgs_ok_run_index(cs, i as int);
                        assert(node_wf(children@[i as int]));
                    }
                    let found = find_title_node(&children[i]);
                    proof {
                        lemma_title_run_step(cs, i as int);
                    }
                    match found {
                        Some(f) => {
                            return Some(f);
                        },
                        None => {},
                    }
                    i = i + 1;
                }
                proof {
                    assert(cs.skip(i as int) =~= cs.skip(cs.len() as int));
                }
                None
            }
        },
        DocElement::ClosingTag(_) => None,
        DocElement::Text(_) => None,
    }
}

/// Render an `img` element: draw the cached image if its bytes decode to a
/// drawable raster, otherwise show the placeholder; an unknown key starts
/// one fetch.
pub fn display_img(properties: &PropMap, cacher: &mut ByteCacher, fetches: &mut Vec<String>, base_link: &str, cols: u16, rows: u16) -> (r: Vec<TerminalLine>)
    requires
        properties.wf(),
        old(cacher).wf(),
        properties@.contains_key("src"@) ==> link_resolvable(properties@["src"@]),
    ensures
        forall|tt: Option<Seq<char>>|
            {
                let res = #[trigger] spec_display_img(
                    properties@,
                    RState {
                        title: tt,
                        cache: cview(*old(cacher)),
                        fetches: crate::utils::strings_views(old(fetches)@),
                    },
                    base_link@,
                    cols,
                    rows,
                );
                &&& lines_views(r@) == res.0
                &&& cview(*final(cacher)) == res.1.cache
                &&& crate::utils::strings_views(final(fetches)@) == res.1.fetches
                &&& res.1.title == tt
            },
        final(cacher).wf(),
        forall|i: int| 0 <= i < r@.len() ==> (#[trigger] r@[i]).wf(),
{
    let src_opt = properties.get("src");
    match src_opt {
        None => {
            let l = image_fallback(properties);
            let mut out: Vec<TerminalLine> = Vec::new();
            out.push(l);
            proof {
                assert(lines_views(out@) =~= seq![fallback_line(properties@)]);
            }
            out
        },
        Some(src_ref) => {
            let src = src_ref.clone();
            let url = crate::utils::get_link_destination(base_link, src.as_str());
            let ghost c0 = *cacher;
            let probe = cacher.probe(url.as_str());
            match probe {
                ProbeOutcome::Ready(bytes) => {
                    proof {
                        assert(cview(c0)[url@] == entry_view(c0.lookup(url@)));
                    }
                    match crate::img::get_image(&bytes) {
                        Err(_) => {
                            let l = image_fallback(properties);
                            let mut out: Vec<TerminalLine> = Vec::new();
                            out.push(l);
                            proof {
                                assert(lines_views(out@) =~= seq![fallback_line(properties@)]);
                            }
                            out
                        },
                        Ok(raster) => {
                            let half_cols = cols / 2;
                            let half_rows = rows / 2;
                            let mut usable = raster.width >= 1 && raster.height >= 1 && half_cols
                                >= 1 && raster.width <= u32::MAX / 2;
                            if usable {
                                proof {
                                    assert((2 * (raster.width as int)) * (half_rows as int)
                                        < 0x8_0000_0000_0000 && (raster.height as int) * ((
                                    half_cols - 1) as int) < 0x8_0000_0000_0000 && ((half_cols - 1)
                                        as int) * (half_rows as int) < 0x8_0000_0000_0000)
                                        by (nonlinear_arith)
                                        requires
                                            0 <= (raster.width as int) <= 0xFFFF_FFFF,
                                            0 <= (raster.height as int) <= 0xFFFF_FFFF,
                                            0 <= ((half_cols - 1) as int) <= 0xFFFF,
                                            0 <= (half_rows as int) <= 0xFFFF,
                                    ;
                                }
                                usable = (2 * (raster.width as u64)) * (half_rows as u64)
                                    <= u32::MAX as u64 && (raster.height as u64) * ((half_cols - 1)
                                    as u64) <= u32::MAX as u64 && ((half_cols - 1) as u64) * (
                                half_rows as u64) <= u32::MAX as u64;
                            }
                            if usable {
                                let dims = crate::img::get_img_viewport(
                                    (raster.width * 2, raster.height),
                                    (half_cols as u32 - 1, half_rows as u32),
                                );
                                usable = dims.1 >= 1;
                                proof {
                                    assert(2 * (raster.width as int) == (raster.width as int) * 2);
                                }
                            }
                            let ghost t = image_decode(bytes@)->0;
                            proof {
                                assert(usable == img_usable(t.0, t.1, cols, rows));
                            }
                            if usable {
                                let grid = crate::img::approximate_image(
                                    &raster,
                                    (half_cols as u32, half_rows as u32),
                                );
                                let ghost gridv = crate::img::spec_approximate(
                                    t.2,
                                    t.0 as int,
                                    t.1 as int,
                                    ((half_cols) as int, (half_rows) as int),
                                );
                                let mut rem = grid;
                                let mut out: Vec<TerminalLine> = Vec::new();
                                while rem.len() > 0
                                    invariant
                                        src@ == properties@["src"@],
                                        out@.len() + rem@.len() == gridv.len(),
                                        forall|i: int|
                                            0 <= i < rem@.len() ==> (#[trigger] rem@[i])@
                                                == line_of(gridv[out@.len() + i]) && rem@[i].wf(),
                                        forall|i: int|
                                            0 <= i < out@.len() ==> (#[trigger] out@[i])@
                                                == img_line(gridv[i], src@) && out@[i].wf(),
                                    decreases rem@.len(),
                                {
                                    let ghost oldrem = rem@;
                                    let ghost oldout = out@;
                                    let l = rem.remove(0);
                                    let nl = l.with_interaction(
                                        InteractionType::Image(src.clone()),
                                    );
                                    out.push(nl);
                                    proof {
                                        assert(l == oldrem[0]);
                                        assert(nl@ =~= img_line(gridv[oldout.len() as int], src@));
                                        assert forall|i: int|
                                            0 <= i < rem@.len() implies (#[trigger] rem@[i])@
                                                == line_of(gridv[out@.len() + i])
                                                && rem@[i].wf() by {
                                            assert(rem@[i] == oldrem[i + 1]);
                                        }
                                    }
                                }
                                proof {
                                    assert(lines_views(out@) =~= img_lines(gridv, src@));
                                }
                                out
                            } else {
                                let l = image_fallback(properties);
                                let mut out: Vec<TerminalLine> = Vec::new();
                                out.push(l);
                                proof {
                                    assert(lines_views(out@) =~= seq![
                                        fallback_line(properties@),
                                    ]);
                                }
                                out
                            }
                        },
                    }
                },
                ProbeOutcome::StartFetch => {
                    fetches.push(url);
                    let l = image_fallback(properties);
                    let mut out: Vec<TerminalLine> = Vec::new();
                    out.push(l);
                    proof {
                        lemma_cview_insert(c0, *cacher, url@, EntryV::Calling);
                        assert(crate::utils::strings_views(fetches@) =~= crate::utils::strings_views(
                            old(fetches)@) + seq![url@]);
                        assert(lines_views(out@) =~= seq![fallback_line(properties@)]);
                    }
                    out
                },
                ProbeOutcome::InFlight => {
                    let l = image_fallback(properties);
                    let mut out: Vec<TerminalLine> = Vec::new();
                    out.push(l);
                    proof {
                        assert(lines_views(out@) =~= seq![fallback_line(properties@)]);
                    }
                    out
                },
            }
        },
    }
}


/// Render a run of siblings, threading the title, cache and fetch list
/// through left to right.
fn display_run(children: &Vec<DocElement>, set_title: &mut Option<String>, cacher: &mut ByteCacher, fetches: &mut Vec<String>, link: &str, cols: u16, rows: u16) -> (r: Vec<TerminalLine>)
    requires
        nodes_wf(children@),
        imgs_ok_run(nodes_view(children@)),
        old(cacher).wf(),
        cols >= 1,
    ensures
        ({
            let res = spec_display_run(
                nodes_view(children@),
                rstate_of(*old(set_title), *old(cacher), old(fetches)@),
                link@,
                cols,
                rows,
            );
            &&& lines_views(r@) == res.0
            &&& rstate_of(*final(set_title), *final(cacher), final(fetches)@) == res.1
        }),
        final(cacher).wf(),
        forall|i: int| 0 <= i < r@.len() ==> (#[trigger] r@[i]).wf(),
    decreases *children,
{
    let ghost cs = nodes_view(children@);
    let ghost st0 = rstate_of(*old(set_title), *old(cacher), old(fetches)@);
    let ghost full = spec_display_run(cs, st0, link@, cols, rows);
    proof {
        crate::types::doc_element::lemma_nodes_view(children@);
        crate::types::doc_element::lemma_nodes_wf(children@);
        assert(cs.skip(0) =~= cs);
        assert forall|j: int| 0 <= j < children@.len() implies decreases_to!(*children
            => #[trigger] children@[j]) by {
            assert(decreases_to!(*children => children@));
            assert(decreases_to!(children@ => children@[j]));
        }
    }
    let mut out: Vec<TerminalLine> = Vec::new();
    let mut idx: usize = 0;
    while idx < children.len()
        invariant
            idx <= children@.len(),
            cs == nodes_view(children@),
            cs.len() == children@.len(),
            nodes_wf(children@),
            imgs_ok_run(cs),
            cacher.wf(),
            cols >= 1,
            full == spec_display_run(cs, st0, link@, cols, rows),
            forall|j: int|
                0 <= j < children@.len() ==> decreases_to!(*children => #[trigger] children@[j]),
            forall|j: int|
                0 <= j < children@.len() ==> #[trigger] cs[j] == node_view(children@[j]),
            forall|j: int| 0 <= j < children@.len() ==> node_wf(#[trigger] children@[j]),
            forall|i: int| 0 <= i < out@.len() ==> (#[trigger] out@[i]).wf(),
            ({
                let rest = spec_display_run(
                    cs.skip(idx as int),
                    rstate_of(*set_title, *cacher, fetches@),
                    link@,
                    cols,
                    rows,
                );
                full == (lines_views(out@) + rest.0, rest.1)
            }),
        decreases children@.len() - idx,
    {
        let ghost pre_st = rstate_of(*set_title, *cacher, fetches@);
        let ghost outv = lines_views(out@);
        proof {
            lemma_imgs_ok_run_index(cs, idx as int);
        }
        let mut ls = children[idx].display(set_title, cacher, fetches, link, cols, rows);
        let ghost lsv = lines_views(ls@);
        proof {
            assert(cs.skip(idx as int)[0] == cs[idx as int]);
            assert(cs.skip(idx as int).drop_first() =~= cs.skip(idx as int + 1));
        }
        out.append(&mut ls);
        proof {
            assert(lines_views(out@) =~= outv + lsv);
            let r0 = spec_display(cs[idx as int], pre_st, link@, cols, rows);
            let rr = spec_display_run(
                cs.skip(idx as int + 1),
                rstate_of(*set_title, *cacher, fetches@),
                link@,
                cols,
                rows,
            );
            assert(outv + (r0.0 + rr.0) =~= (outv + r0.0) + rr.0);
        }
        idx = idx + 1;
    }
    proof {
        assert(cs.skip(idx as int) =~= cs.skip(cs.len() as int));
        assert(spec_display_run(
            cs.skip(cs.len() as int),
            rstate_of(*set_title, *cacher, fetches@),
            link@,
            cols,
            rows,
        ) == (Seq::<LineView>::empty(), rstate_of(*set_title, *cacher, fetches@)));
        assert(lines_views(out@) + Seq::<LineView>::empty() =~= lines_views(out@));
    }
    out
}

impl DocElement {
    /// Render this node: walk it, consult the cache for images, collect the
    /// page title from the head, and emit one terminal line per row.
    pub fn display(&self, set_title: &mut Option<String>, cacher: &mut ByteCacher, fetches: &mut Vec<String>, link: &str, cols: u16, rows: u16) -> (r: Vec<TerminalLine>)
        requires
            node_wf(*self),
            imgs_ok(node_view(*self)),
            old(cacher).wf(),
            cols >= 1,
        ensures
            ({
                let res = spec_display(
                    node_view(*self),
                    rstate_of(*old(set_title), *old(cacher), old(fetches)@),
                    link@,
                    cols,
                    rows,
                );
                &&& lines_views(r@) == res.0
                &&& rstate_of(*final(set_title), *final(cacher), final(fetches)@) == res.1
            }),
            final(cacher).wf(),
            forall|i: int| 0 <= i < r@.len() ==> (#[trigger] r@[i]).wf(),
        decreases *self,
    {
        let ghost st0 = rstate_of(*old(set_title), *old(cacher), old(fetches)@);
        proof {
            lemma_tag_names();
        }
        match self {
            DocElement::HtmlElement { name, children, properties } => {
                let ghost t = node_view(*self);
                proof {
                    assert(t == (DocView::Elem {
                        name: name@,
                        children: nodes_view(children@),
                        props: properties@,
                    }));
                }
                if *name == String::from_str("head") {
                    match find_title_node(self) {
                        None => {
                            let r: Vec<TerminalLine> = Vec::new();
                            proof {
                                assert(lines_views(r@) =~= Seq::<LineView>::empty());
                            }
                            r
                        },
                        Some(tcs) => {
                            let tls = display_run(tcs, set_title, cacher, fetches, link, cols, rows);
                            let ghost tlsv = lines_views(tls@);
                            let mut buf = String::new();
                            let mut k: usize = 0;
                            proof {
                                assert(tlsv.skip(0) =~= tlsv);
                            }
                            while k < tls.len()
                                invariant
                                    k <= tls@.len(),
                                    tlsv == lines_views(tls@),
                                    title_concat(tlsv) == buf@ + title_concat(
                                        tlsv.skip(k as int)),
                                decreases tls@.len() - k,
                            {
                                let ghost bufp = buf@;
                                let row = tls[k].display(false);
                                buf.append(row.as_str());
                                proof {
                                    assert(tlsv.skip(k as int)[0] == tlsv[k as int]);
                                    assert(tlsv[k as int] == tls@[k as int]@);
                                    assert(tlsv.skip(k as int).drop_first() =~= tlsv.skip(
                                        k as int + 1));
                                    assert(bufp + ((seq![' '] + tlsv[k as int].unfocused)
                                        + title_concat(tlsv.skip(k as int + 1))) =~= buf@
                                        + title_concat(tlsv.skip(k as int + 1)));
                                }
                                k = k + 1;
                            }
                            proof {
                                assert(tlsv.skip(k as int) =~= tlsv.skip(tlsv.len() as int));
                                assert(title_concat(tlsv.skip(tlsv.len() as int))
                                    == Seq::<char>::empty());
                                assert(buf@ + Seq::<char>::empty() =~= buf@);
                            }
                            let mut t2 = crate::types::doc_element::trim_string(buf.as_str());
                            t2.append(" - Nasir");
                            *set_title = Some(t2);
                            let r: Vec<TerminalLine> = Vec::new();
                            proof {
                                let res = spec_display(t, st0, link@, cols, rows);
                                assert(lines_views(r@) =~= Seq::<LineView>::empty());
                                assert(rstate_of(*set_title, *cacher, fetches@) =~~= res.1);
                            }
                            r
                        },
                    }
                } else if *name == String::from_str("script") || *name == String::from_str("style")
                    || *name == String::from_str("option") {
                    let r: Vec<TerminalLine> = Vec::new();
                    proof {
                        assert(lines_views(r@) =~= Seq::<LineView>::empty());
                    }
                    r
                } else if *name == String::from_str("img") {
                    let r = display_img(properties, cacher, fetches, link, cols, rows);
                    proof {
                        let res = spec_display(t, st0, link@, cols, rows);
                        assert(rstate_of(*set_title, *cacher, fetches@) =~~= res.1);
                    }
                    r
                } else {
                    let ret = display_run(children, set_title, cacher, fetches, link, cols, rows);
                    let ghost retv = lines_views(ret@);
                    // drop the empty lines
                    let mut rem = ret;
                    let mut kept: Vec<TerminalLine> = Vec::new();
                    while rem.len() > 0
                        invariant
                            forall|i: int| 0 <= i < rem@.len() ==> (#[trigger] rem@[i]).wf(),
                            forall|i: int| 0 <= i < kept@.len() ==> (#[trigger] kept@[i]).wf(),
                            keep_nonempty(retv) == lines_views(kept@) + keep_nonempty(
                                lines_views(rem@)),
                        decreases rem@.len(),
                    {
                        let ghost remv = lines_views(rem@);
                        let ghost keptv = lines_views(kept@);
                        let l = rem.remove(0);
                        proof {
                            assert(remv[0] == l@);
                            assert(lines_views(rem@) =~= remv.drop_first());
                        }
                        if !l.is_empty() {
                            kept.push(l);
                            proof {
                                assert(lines_views(kept@) =~= keptv + seq![l@]);
                                assert(keptv + (seq![remv[0]] + keep_nonempty(remv.drop_first()))
                                    =~= lines_views(kept@) + keep_nonempty(remv.drop_first()));
                            }
                        }
                    }
                    proof {
                        assert(lines_views(rem@) =~= Seq::<LineView>::empty());
                        assert(lines_views(kept@) + Seq::<LineView>::empty() =~= lines_views(
                            kept@));
                    }
                    let fmt = display_formatted_element(name, properties, kept, link);
                    let out = match properties.get("id") {
                        Some(id_ref) => {
                            let id = id_ref.clone();
                            let ghost fmtv = lines_views(fmt@);
                            let mut rem2 = fmt;
                            let mut tagged: Vec<TerminalLine> = Vec::new();
                            while rem2.len() > 0
                                invariant
                                    id@ == properties@["id"@],
                                    forall|i: int|
                                        0 <= i < rem2@.len() ==> (#[trigger] rem2@[i]).wf(),
                                    forall|i: int|
                                        0 <= i < tagged@.len() ==> (#[trigger] tagged@[i]).wf(),
                                    with_id_run(fmtv, id@) == lines_views(tagged@) + with_id_run(
                                        lines_views(rem2@), id@),
                                decreases rem2@.len(),
                            {
                                let ghost remv = lines_views(rem2@);
                                let ghost tagv = lines_views(tagged@);
                                let l = rem2.remove(0);
                                proof {
                                    assert(remv[0] == l@);
                                    assert(lines_views(rem2@) =~= remv.drop_first());
                                }
                                let nl = l.with_id(id.clone());
                                tagged.push(nl);
                                proof {
                                    assert(nl@ =~= (LineView { id: Some(id@), ..remv[0] }));
                                    assert(lines_views(tagged@) =~= tagv + seq![nl@]);
                                    assert(tagv + (seq![
                                        (LineView { id: Some(id@), ..remv[0] }),
                                    ] + with_id_run(remv.drop_first(), id@)) =~= lines_views(
                                        tagged@) + with_id_run(remv.drop_first(), id@));
                                }
                            }
                            proof {
                                assert(lines_views(rem2@) =~= Seq::<LineView>::empty());
                                assert(lines_views(tagged@) + Seq::<LineView>::empty()
                                    =~= lines_views(tagged@));
                            }
                            tagged
                        },
                        None => fmt,
                    };
                    proof {
                        let res = spec_display(t, st0, link@, cols, rows);
                        assert(lines_views(out@) == res.0);
                        assert(rstate_of(*set_title, *cacher, fetches@) =~~= res.1);
                    }
                    out
                }
            },
            DocElement::Text(txt) => {
                let lines = crate::utils::wrap(txt.as_str(), (cols - 1) as usize);
                let ghost ws = spec_wrap(txt@, cols as int - 1);
                proof {
                    assert(crate::utils::strings_views(lines@) == ws);
                }
                let mut out: Vec<TerminalLine> = Vec::new();
                let mut k: usize = 0;
                while k < lines.len()
                    invariant
                        k <= lines@.len(),
                        ws == crate::utils::strings_views(lines@),
                        ws.len() == lines@.len(),
                        out@.len() == k,
                        forall|i: int|
                            0 <= i < k ==> (#[trigger] out@[i])@ == line_of(tail_of(ws[i]))
                                && out@[i].wf(),
                    decreases lines@.len() - k,
                {
                    let v = crate::text::str_chars(lines[k].as_str());
                    proof {
                        assert(v@ == ws[k as int]);
                    }
                    let rest = if v.len() >= 1 {
                        crate::text::copy_range(&v, 1, v.len())
                    } else {
                        Vec::new()
                    };
                    proof {
                        assert(rest@ =~= tail_of(ws[k as int]));
                    }
                    let tl = TerminalLine::from_text(crate::text::chars_to_string(&rest));
                    out.push(tl);
                    k = k + 1;
                }
                proof {
                    let res = spec_display(node_view(*self), st0, link@, cols, rows);
                    assert(lines_views(out@) =~= res.0);
                }
                out
            },
            DocElement::ClosingTag(_) => {
                let mut out: Vec<TerminalLine> = Vec::new();
                out.push(TerminalLine::from_text(String::new()));
                proof {
                    assert(lines_views(out@) =~= seq![line_of(Seq::<char>::empty())]);
                }
                out
            },
        }
    }
}

/// Whether every image source in the tree has a defined link resolution:
/// what `display` asks of the tree.
pub fn check_imgs_resolvable(e: &DocElement) -> (r: bool)
    requires
        node_wf(*e),
    ensures
        r == imgs_ok(node_view(*e)),
    decreases *e,
{
    match e {
        DocElement::HtmlElement { name, children, properties } => {
            let ghost cs = nodes_view(children@);
            proof {
                crate::types::doc_element::lemma_nodes_view(children@);
                crate::types::doc_element::lemma_nodes_wf(children@);
                assert forall|j: int| 0 <= j < children@.len() implies decreases_to!(*e
                    => #[trigger] children@[j]) by {
                    assert(decreases_to!(*e => *children));
                    assert(decreases_to!(*children => children@));
                    assert(decreases_to!(children@ => children@[j]));
                }
            }
            let own_ok = if *name == String::from_str("img") {
                match properties.get("src") {
                    Some(sv) => crate::utils::is_link_resolvable(sv.as_str()),
                    None => true,
                }
            } else {
                true
            };
            if !own_ok {
                proof {
                    assert(!imgs_ok(node_view(*e)));
                }
                return false;
            }
            let mut i: usize = 0;
            while i < children.len()
                invariant
                    i <= children@.len(),
                    cs == nodes_view(children@),
                    cs.len() == children@.len(),
                    node_view(*e) == (DocView::Elem {
                        name: name@,
                        children: cs,
                        props: properties@,
                    }),
                    forall|j: int|
                        0 <= j < children@.len() ==> decreases_to!(*e => #[trigger] children@[j]),
                    forall|j: int|
                        0 <= j < children@.len() ==> #[trigger] cs[j] == node_view(children@[j]),
                    forall|j: int| 0 <= j < children@.len() ==> node_wf(#[trigger] children@[j]),
                    forall|j: int| 0 <= j < i ==> imgs_ok(#[trigger] cs[j]),
                decreases children@.len() - i,
            {
                if !check_imgs_resolvable(&children[i]) {
                    proof {
                        lemma_imgs_ok_not(cs, i as int);
                    }
                    return false;
                }
                i = i + 1;
            }
            proof {
                lemma_imgs_ok_run_all(cs);
            }
            true
        },
        DocElement::ClosingTag(_) => true,
        DocElement::Text(_) => true,
    }
}

proof fn lemma_imgs_ok_not(cs: Seq<DocView>, i: int)
    requires
        0 <= i < cs.len(),
        !imgs_ok(cs[i]),
    ensures
        !imgs_ok_run(cs),
{
    if imgs_ok_run(cs) {
        lemma_imgs_ok_run_index(cs, i);
    }
}

} // verus!
