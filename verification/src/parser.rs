//! The markup parser: a lenient recursive-descent reader from characters to
//! the document tree. Stray closing tags become inert children; comments
//! vanish; a missing `>` on a closing tag and an unterminated quoted
//! attribute value are the only hard failures.

use vstd::prelude::*;

pub use crate::entities::transform_text;

verus! {

use crate::entities::spec_transform_text;
use crate::text::{
    char_alphanumeric, chars_to_string, is_alphanumeric_char, is_ascii_alnum_char,
    is_ascii_alphanumeric_char, is_whitespace_char, is_ws_char, str_chars,
};
use crate::types::doc_element::{
    lemma_nodes_wf_push, node_view, node_wf, nodes_view, nodes_wf, spec_minify, DocElement,
    DocView, PropMap,
};

broadcast use vstd::seq::axiom_seq_index_decreases, vstd::std_specs::vec::group_vec_axioms;

// ---- scanning ----
/// The first index at or after `pos` holding a non-whitespace character.
pub open spec fn skip_ws(s: Seq<char>, pos: int) -> int
    decreases s.len() - pos,
{
    if 0 <= pos && pos < s.len() && is_ws_char(s[pos]) {
        skip_ws(s, pos + 1)
    } else {
        pos
    }
}

/// A tag name: ASCII letters, digits and `-`, ended by whitespace (which is
/// consumed) or by any other character (which is not).
pub open spec fn scan_name(s: Seq<char>, pos: int) -> (Seq<char>, int)
    decreases s.len() - pos,
{
    if 0 <= pos && pos < s.len() {
        if is_ws_char(s[pos]) {
            (Seq::empty(), pos + 1)
        } else if is_ascii_alnum_char(s[pos]) || s[pos] == '-' {
            let r = scan_name(s, pos + 1);
            (seq![s[pos]] + r.0, r.1)
        } else {
            (Seq::empty(), pos)
        }
    } else {
        (Seq::empty(), pos)
    }
}

/// An attribute name: alphanumerics and `-`; a leading `/` before any name
/// character marks the tag self-closing and is consumed.
pub open spec fn scan_prop(s: Seq<char>, pos: int, started: bool) -> (Seq<char>, int, bool)
    decreases s.len() - pos,
{
    if 0 <= pos && pos < s.len() {
        if char_alphanumeric(s[pos]) || s[pos] == '-' {
            let r = scan_prop(s, pos + 1, true);
            (seq![s[pos]] + r.0, r.1, r.2)
        } else if s[pos] == '/' && !started {
            (Seq::empty(), pos + 1, true)
        } else {
            (Seq::empty(), pos, false)
        }
    } else {
        (Seq::empty(), pos, false)
    }
}

/// An unquoted attribute value: a run of alphanumerics.
pub open spec fn scan_unquoted(s: Seq<char>, pos: int) -> (Seq<char>, int)
    decreases s.len() - pos,
{
    if 0 <= pos && pos < s.len() && char_alphanumeric(s[pos]) {
        let r = scan_unquoted(s, pos + 1);
        (seq![s[pos]] + r.0, r.1)
    } else {
        (Seq::empty(), pos)
    }
}

/// A quoted attribute value up to the closing `barrier`. A backslash is
/// copied verbatim together with the character after it; end of input
/// before the closing quote is a hard failure.
pub open spec fn scan_quoted(s: Seq<char>, pos: int, barrier: char) -> (
    Result<Seq<char>, Seq<char>>,
    int,
)
    decreases s.len() - pos,
{
    if !(0 <= pos && pos < s.len()) {
        (Err("Unexpected end of file"@), pos)
    } else if s[pos] == barrier {
        (Ok(Seq::empty()), pos + 1)
    } else if s[pos] == '\\' {
        if pos + 1 < s.len() {
            let r = scan_quoted(s, pos + 2, barrier);
            match r.0 {
                Ok(t) => (Ok(seq!['\\', s[pos + 1]] + t), r.1),
                Err(e) => (Err(e), r.1),
            }
        } else {
            (Err("Unexpected end of file"@), pos + 1)
        }
    } else {
        let r = scan_quoted(s, pos + 1, barrier);
        match r.0 {
            Ok(t) => (Ok(seq![s[pos]] + t), r.1),
            Err(e) => (Err(e), r.1),
        }
    }
}

/// Plain text: everything up to the next `<` or the end of input.
pub open spec fn scan_text(s: Seq<char>, pos: int) -> (Seq<char>, int)
    decreases s.len() - pos,
{
    if 0 <= pos && pos < s.len() && s[pos] != '<' {
        let r = scan_text(s, pos + 1);
        (seq![s[pos]] + r.0, r.1)
    } else {
        (Seq::empty(), pos)
    }
}

/// A doctype or comment body: everything up to the closing `>`, which is
/// consumed but not kept.
pub open spec fn scan_doctype(s: Seq<char>, pos: int) -> (Seq<char>, int)
    decreases s.len() - pos,
{
    if 0 <= pos && pos < s.len() {
        if s[pos] == '>' {
            (Seq::empty(), pos + 1)
        } else {
            let r = scan_doctype(s, pos + 1);
            (seq![s[pos]] + r.0, r.1)
        }
    } else {
        (Seq::empty(), pos)
    }
}

/// Where parsing continues after a sub-scan that returned `p`: always
/// strictly past `pos` and never past the end of the text.
pub open spec fn next_pos(s: Seq<char>, pos: int, p: int) -> int {
    if p <= pos {
        pos + 1
    } else if p > s.len() {
        s.len() as int
    } else {
        p
    }
}

/// The tags that never take children.
pub open spec fn is_void_name(n: Seq<char>) -> bool {
    n == "meta"@ || n == "link"@ || n == "image"@ || n == "input"@ || n == "img"@ || n == "br"@
}

// ---- the grammar ----
/// One attribute pass over `<tag ...>` innards: attributes accumulate into
/// `acc` until `>`; end of input inside the tag is a missing closing
/// bracket; a character that can begin nothing is skipped.
pub open spec fn spec_parse_props(s: Seq<char>, pos: int, acc: Map<Seq<char>, Seq<char>>, closed: bool) -> (
    Result<(Map<Seq<char>, Seq<char>>, bool), Seq<char>>,
    int,
)
    decreases s.len() - pos, 3int,
{
    if !(0 <= pos && pos < s.len()) {
        (Err("Missing `>`"@), pos)
    } else if s[pos] == '>' {
        (Ok((acc, closed)), pos + 1)
    } else {
        let pr = scan_prop(s, pos, false);
        let prop = pr.0;
        let slash = pr.2;
        let p2 = skip_ws(s, pr.1);
        if p2 < s.len() && s[p2] == '=' {
            let p3 = skip_ws(s, p2 + 1);
            if p3 < s.len() && (s[p3] == '"' || s[p3] == '\'') {
                let q = scan_quoted(s, p3 + 1, s[p3]);
                match q.0 {
                    Ok(raw) => {
                        let p5 = skip_ws(s, q.1);
                        let pn = next_pos(s, pos, p5);
                        spec_parse_props(
                            s,
                            pn,
                            acc.insert(prop, spec_transform_text(raw)),
                            closed || slash,
                        )
                    },
                    Err(e) => (Err(e), q.1),
                }
            } else {
                let u = scan_unquoted(s, p3);
                let p5 = skip_ws(s, u.1);
                let pn = next_pos(s, pos, p5);
                spec_parse_props(s, pn, acc.insert(prop, spec_transform_text(u.0)), closed || slash)
            }
        } else {
            if p2 > pos {
                spec_parse_props(s, next_pos(s, pos, p2), acc.insert(prop, Seq::empty()), closed
                    || slash)
            } else {
                spec_parse_props(s, pos + 1, acc, closed)
            }
        }
    }
}

/// Whether `child` is the closing tag that ends an element named `name`.
pub open spec fn is_matching_closing(child: DocView, name: Seq<char>) -> bool {
    match child {
        DocView::Closing(n) => n == name,
        _ => false,
    }
}

/// The children of an open element: nodes until the matching closing tag
/// or the end of input; any other closing tag is folded in as a child.
pub open spec fn spec_parse_children(s: Seq<char>, pos: int, name: Seq<char>) -> (
    Result<Seq<DocView>, Seq<char>>,
    int,
)
    decreases s.len() - pos, 2int,
{
    if 0 <= pos && pos < s.len() {
        let r = spec_inner_parse(s, pos);
        match r.0 {
            Err(e) => (Err(e), r.1),
            Ok(child) => {
                if is_matching_closing(child, name) {
                    (Ok(Seq::empty()), r.1)
                } else {
                    let pn = next_pos(s, pos, r.1);
                    let rest = spec_parse_children(s, pn, name);
                    match rest.0 {
                        Ok(cs) => (Ok(seq![child] + cs), rest.1),
                        Err(e) => (Err(e), rest.1),
                    }
                }
            },
        }
    } else {
        (Ok(Seq::empty()), pos)
    }
}

/// An opening tag after its name: attributes, then children unless the
/// name is void or the tag closed itself.
pub open spec fn spec_opening(s: Seq<char>, pos: int, name: Seq<char>) -> (
    Result<DocView, Seq<char>>,
    int,
)
    decreases s.len() - pos, 4int,
{
    let pr = spec_parse_props(s, pos, Map::empty(), false);
    match pr.0 {
        Err(e) => (Err(e), pr.1),
        Ok((props, closed)) => {
            if is_void_name(name) || closed {
                (Ok(DocView::Elem { name, children: Seq::empty(), props }), pr.1)
            } else {
                let pc = next_pos(s, pos, pr.1);
                let cr = spec_parse_children(s, pc, name);
                match cr.0 {
                    Ok(children) => (Ok(DocView::Elem { name, children, props }), cr.1),
                    Err(e) => (Err(e), cr.1),
                }
            }
        },
    }
}

/// One node: a closing tag, a doctype or comment, an opening tag with its
/// subtree, a text run, or an empty text at the end of input.
pub open spec fn spec_inner_parse(s: Seq<char>, pos: int) -> (Result<DocView, Seq<char>>, int)
    decreases s.len() - pos, 1int,
{
    if !(0 <= pos && pos < s.len()) {
        (Ok(DocView::Text(Seq::empty())), pos)
    } else if s[pos] == '<' {
        if pos + 1 < s.len() && s[pos + 1] == '/' {
            let pw = skip_ws(s, pos + 2);
            let nm = scan_name(s, pw);
            let p3 = skip_ws(s, nm.1);
            if p3 < s.len() {
                if s[p3] == '>' {
                    (Ok(DocView::Closing(nm.0)), p3 + 1)
                } else {
                    (Err("Missing `>`"@), p3 + 1)
                }
            } else {
                (Err("Missing `>`"@), p3)
            }
        } else if pos + 1 < s.len() && s[pos + 1] == '!' {
            let pw = skip_ws(s, pos + 2);
            let nm = scan_name(s, pw);
            let p3 = skip_ws(s, nm.1);
            let d = scan_doctype(s, p3);
            if nm.0.len() >= 2 && nm.0[0] == '-' && nm.0[1] == '-' && d.0.len() >= 2 && d.0[d.0.len()
                - 1] == '-' && d.0[d.0.len() - 2] == '-' {
                (Ok(DocView::Text(Seq::empty())), d.1)
            } else {
                (Ok(DocView::Closing(d.0)), d.1)
            }
        } else {
            let pw = skip_ws(s, pos + 1);
            let nm = scan_name(s, pw);
            let p3 = skip_ws(s, nm.1);
            spec_opening(s, next_pos(s, pos, p3), nm.0)
        }
    } else {
        let t = scan_text(s, pos + 1);
        (Ok(DocView::Text(spec_transform_text(seq![s[pos]] + t.0))), t.1)
    }
}

/// An ASCII capital lowered, any other character unchanged.
pub open spec fn ascii_lower(c: char) -> char {
    if 'A' <= c && c <= 'Z' {
        ((c as u32) + 32) as char
    } else {
        c
    }
}

/// Whether the text begins with a doctype declaration, compared without
/// regard to ASCII case.
pub open spec fn has_doctype_prefix(s: Seq<char>) -> bool {
    s.len() >= 15 && (forall|i: int|
        0 <= i < 15 ==> ascii_lower(#[trigger] s[i]) == "<!doctype html>"@[i])
}

/// What parsing yields: the first node of the text (after an optional
/// doctype declaration and leading whitespace), minified.
pub open spec fn spec_parse_html(s: Seq<char>) -> Result<DocView, Seq<char>> {
    let t = if has_doctype_prefix(s) {
        s.skip(15)
    } else {
        s
    };
    let p0 = skip_ws(t, 0);
    match spec_inner_parse(t, p0).0 {
        Ok(v) => Ok(spec_minify(v)),
        Err(e) => Err(e),
    }
}

/// The value of a parse result.
pub open spec fn res_view(r: Result<DocElement, String>) -> Result<DocView, Seq<char>> {
    match r {
        Ok(e) => Ok(node_view(e)),
        Err(m) => Err(m@),
    }
}

// ---- executable scanners ----
/// Advance past whitespace.
pub fn consume_whitespace(chars: &Vec<char>, pos: usize) -> (r: usize)
    requires
        pos <= chars@.len(),
    ensures
        r == skip_ws(chars@, pos as int),
        pos <= r <= chars@.len(),
{
    let mut i = pos;
    while i < chars.len() && is_whitespace_char(chars[i])
        invariant
            pos <= i <= chars@.len(),
            skip_ws(chars@, pos as int) == skip_ws(chars@, i as int),
        decreases chars@.len() - i,
    {
        i = i + 1;
    }
    i
}

fn scan_name_exec(chars: &Vec<char>, pos: usize) -> (r: (Vec<char>, usize))
    requires
        pos <= chars@.len(),
    ensures
        (r.0@, r.1 as int) == scan_name(chars@, pos as int),
        pos <= r.1 <= chars@.len(),
{
    let mut buf: Vec<char> = Vec::new();
    let mut i = pos;
    loop
        invariant
            pos <= i <= chars@.len(),
            scan_name(chars@, pos as int) == (buf@ + scan_name(chars@, i as int).0, scan_name(
                chars@,
                i as int,
            ).1),
        decreases chars@.len() - i,
    {
        if i >= chars.len() {
            proof {
                assert(scan_name(chars@, i as int) == (Seq::<char>::empty(), i as int));
                assert(buf@ + Seq::<char>::empty() =~= buf@);
            }
            return (buf, i);
        }
        let c = chars[i];
        if is_whitespace_char(c) {
            proof {
                assert(buf@ + Seq::<char>::empty() =~= buf@);
            }
            return (buf, i + 1);
        } else if is_ascii_alphanumeric_char(c) || c == '-' {
            let ghost pb = buf@;
            buf.push(c);
            proof {
                let nxt = scan_name(chars@, i + 1int);
                assert(scan_name(chars@, i as int) == (seq![chars@[i as int]] + nxt.0, nxt.1));
                assert(pb + (seq![chars@[i as int]] + nxt.0) =~= buf@ + nxt.0);
            }
            i = i + 1;
        } else {
            proof {
                assert(buf@ + Seq::<char>::empty() =~= buf@);
            }
            return (buf, i);
        }
    }
}

fn scan_prop_exec(chars: &Vec<char>, pos: usize) -> (r: (Vec<char>, usize, bool))
    requires
        pos <= chars@.len(),
    ensures
        (r.0@, r.1 as int, r.2) == scan_prop(chars@, pos as int, false),
        pos <= r.1 <= chars@.len(),
{
    let mut buf: Vec<char> = Vec::new();
    let mut i = pos;
    loop
        invariant
            pos <= i <= chars@.len(),
            scan_prop(chars@, pos as int, false) == {
                let r = scan_prop(chars@, i as int, buf@.len() > 0);
                (buf@ + r.0, r.1, r.2)
            },
        decreases chars@.len() - i,
    {
        let ghost started = buf@.len() > 0;
        if i >= chars.len() {
            proof {
                assert(buf@ + Seq::<char>::empty() =~= buf@);
            }
            return (buf, i, false);
        }
        let c = chars[i];
        if is_alphanumeric_char(c) || c == '-' {
            let ghost pb = buf@;
            buf.push(c);
            proof {
                let nxt = scan_prop(chars@, i + 1int, true);
                assert(scan_prop(chars@, i as int, started) == (
                    seq![chars@[i as int]] + nxt.0,
                    nxt.1,
                    nxt.2,
                ));
                assert(pb + (seq![chars@[i as int]] + nxt.0) =~= buf@ + nxt.0);
            }
            i = i + 1;
        } else if c == '/' && buf.len() == 0 {
            proof {
                assert(buf@ + Seq::<char>::empty() =~= buf@);
            }
            return (buf, i + 1, true);
        } else {
            proof {
                assert(buf@ + Seq::<char>::empty() =~= buf@);
            }
            return (buf, i, false);
        }
    }
}

fn scan_unquoted_exec(chars: &Vec<char>, pos: usize) -> (r: (Vec<char>, usize))
    requires
        pos <= chars@.len(),
    ensures
        (r.0@, r.1 as int) == scan_unquoted(chars@, pos as int),
        pos <= r.1 <= chars@.len(),
{
    let mut buf: Vec<char> = Vec::new();
    let mut i = pos;
    while i < chars.len() && is_alphanumeric_char(chars[i])
        invariant
            pos <= i <= chars@.len(),
            scan_unquoted(chars@, pos as int) == (
                buf@ + scan_unquoted(chars@, i as int).0,
                scan_unquoted(chars@, i as int).1,
            ),
        decreases chars@.len() - i,
    {
        let ghost pb = buf@;
        buf.push(chars[i]);
        proof {
            let nxt = scan_unquoted(chars@, i + 1int);
            assert(scan_unquoted(chars@, i as int) == (seq![chars@[i as int]] + nxt.0, nxt.1));
            assert(pb + (seq![chars@[i as int]] + nxt.0) =~= buf@ + nxt.0);
        }
        i = i + 1;
    }
    proof {
        assert(scan_unquoted(chars@, i as int) == (Seq::<char>::empty(), i as int));
        assert(buf@ + Seq::<char>::empty() =~= buf@);
    }
    (buf, i)
}

fn scan_quoted_exec(chars: &Vec<char>, pos: usize, barrier: char) -> (r: (
    Result<Vec<char>, String>,
    usize,
))
    requires
        pos <= chars@.len(),
    ensures
        ({
            let sp = scan_quoted(chars@, pos as int, barrier);
            &&& (match r.0 {
                Ok(v) => sp.0 matches Ok(t) && v@ == t,
                Err(m) => sp.0 matches Err(e) && m@ == e,
            })
            &&& r.1 as int == sp.1
        }),
        pos <= r.1 <= chars@.len(),
{
    let mut buf: Vec<char> = Vec::new();
    let mut i = pos;
    loop
        invariant
            pos <= i <= chars@.len(),
            ({
                let whole = scan_quoted(chars@, pos as int, barrier);
                let rest = scan_quoted(chars@, i as int, barrier);
                &&& whole.1 == rest.1
                &&& (rest.0 matches Ok(t) ==> whole.0 matches Ok(w) && w == buf@ + t)
                &&& (rest.0 matches Err(e) ==> whole.0 == Err::<Seq<char>, Seq<char>>(e))
            }),
        decreases chars@.len() - i,
    {
        if i >= chars.len() {
            return (Err(String::from_str("Unexpected end of file")), i);
        }
        let c = chars[i];
        if c == barrier {
            proof {
                assert(buf@ + Seq::<char>::empty() =~= buf@);
            }
            return (Ok(buf), i + 1);
        } else if c == '\\' {
            if i + 1 < chars.len() {
                let ghost pb = buf@;
                buf.push('\\');
                buf.push(chars[i + 1]);
                proof {
                    let nxt = scan_quoted(chars@, i + 2int, barrier);
                    if nxt.0 is Ok {
                        assert(pb + (seq!['\\', chars@[i + 1int]] + nxt.0->Ok_0) =~= buf@
                            + nxt.0->Ok_0);
                    }
                }
                i = i + 2;
            } else {
                return (Err(String::from_str("Unexpected end of file")), i + 1);
            }
        } else {
            let ghost pb = buf@;
            buf.push(c);
            proof {
                let nxt = scan_quoted(chars@, i + 1int, barrier);
                if nxt.0 is Ok {
                    assert(pb + (seq![chars@[i as int]] + nxt.0->Ok_0) =~= buf@ + nxt.0->Ok_0);
                }
            }
            i = i + 1;
        }
    }
}

fn scan_text_exec(chars: &Vec<char>, pos: usize) -> (r: (Vec<char>, usize))
    requires
        pos <= chars@.len(),
    ensures
        (r.0@, r.1 as int) == scan_text(chars@, pos as int),
        pos <= r.1 <= chars@.len(),
{
    let mut buf: Vec<char> = Vec::new();
    let mut i = pos;
    while i < chars.len() && chars[i] != '<'
        invariant
            pos <= i <= chars@.len(),
            scan_text(chars@, pos as int) == (buf@ + scan_text(chars@, i as int).0, scan_text(
                chars@,
                i as int,
            ).1),
        decreases chars@.len() - i,
    {
        let ghost pb = buf@;
        buf.push(chars[i]);
        proof {
            let nxt = scan_text(chars@, i + 1int);
            assert(scan_text(chars@, i as int) == (seq![chars@[i as int]] + nxt.0, nxt.1));
            assert(pb + (seq![chars@[i as int]] + nxt.0) =~= buf@ + nxt.0);
        }
        i = i + 1;
    }
    proof {
        assert(scan_text(chars@, i as int) == (Seq::<char>::empty(), i as int));
        assert(buf@ + Seq::<char>::empty() =~= buf@);
    }
    (buf, i)
}

fn scan_doctype_exec(chars: &Vec<char>, pos: usize) -> (r: (Vec<char>, usize))
    requires
        pos <= chars@.len(),
    ensures
        (r.0@, r.1 as int) == scan_doctype(chars@, pos as int),
        pos <= r.1 <= chars@.len(),
{
    let mut buf: Vec<char> = Vec::new();
    let mut i = pos;
    loop
        invariant
            pos <= i <= chars@.len(),
            scan_doctype(chars@, pos as int) == (
                buf@ + scan_doctype(chars@, i as int).0,
                scan_doctype(chars@, i as int).1,
            ),
        decreases chars@.len() - i,
    {
        if i >= chars.len() {
            proof {
                assert(buf@ + Seq::<char>::empty() =~= buf@);
            }
            return (buf, i);
        }
        let c = chars[i];
        if c == '>' {
            proof {
                assert(buf@ + Seq::<char>::empty() =~= buf@);
            }
            return (buf, i + 1);
        }
        let ghost pb = buf@;
        buf.push(c);
        proof {
            let nxt = scan_doctype(chars@, i + 1int);
            assert(scan_doctype(chars@, i as int) == (seq![chars@[i as int]] + nxt.0, nxt.1));
            assert(pb + (seq![chars@[i as int]] + nxt.0) =~= buf@ + nxt.0);
        }
        i = i + 1;
    }
}

/// Whether the name belongs to the fixed void-element set.
fn is_self_closing_name(name: &String) -> (r: bool)
    ensures
        r == is_void_name(name@),
{
    let m1 = String::from_str("meta");
    let m2 = String::from_str("link");
    let m3 = String::from_str("image");
    let m4 = String::from_str("input");
    let m5 = String::from_str("img");
    let m6 = String::from_str("br");
    *name == m1 || *name == m2 || *name == m3 || *name == m4 || *name == m5 || *name == m6
}

// ---- the parser ----
/// Parse one node at `pos`.
pub fn inner_parse(chars: &Vec<char>, pos: usize) -> (r: (Result<DocElement, String>, usize))
    requires
        pos <= chars@.len(),
    ensures
        (res_view(r.0), r.1 as int) == spec_inner_parse(chars@, pos as int),
        pos <= r.1 <= chars@.len(),
        pos < chars@.len() ==> r.1 > pos,
        (r.0 matches Ok(el) ==> node_wf(el)),
    decreases chars@.len() - pos, 1int,
{
    if pos >= chars.len() {
        return (Ok(DocElement::Text(String::new())), pos);
    }
    let c = chars[pos];
    if c == '<' {
        if pos + 1 < chars.len() && chars[pos + 1] == '/' {
            let pw = consume_whitespace(chars, pos + 2);
            let (name, p2) = scan_name_exec(chars, pw);
            let p3 = consume_whitespace(chars, p2);
            if p3 < chars.len() {
                if chars[p3] == '>' {
                    (Ok(DocElement::ClosingTag(chars_to_string(&name))), p3 + 1)
                } else {
                    (Err(String::from_str("Missing `>`")), p3 + 1)
                }
            } else {
                (Err(String::from_str("Missing `>`")), p3)
            }
        } else if pos + 1 < chars.len() && chars[pos + 1] == '!' {
            let pw = consume_whitespace(chars, pos + 2);
            let (name, p2) = scan_name_exec(chars, pw);
            let p3 = consume_whitespace(chars, p2);
            let (buf, p4) = scan_doctype_exec(chars, p3);
            if name.len() >= 2 && name[0] == '-' && name[1] == '-' && buf.len() >= 2 && buf[buf.len()
                - 1] == '-' && buf[buf.len() - 2] == '-' {
                (Ok(DocElement::Text(String::new())), p4)
            } else {
                (Ok(DocElement::ClosingTag(chars_to_string(&buf))), p4)
            }
        } else {
            let pw = consume_whitespace(chars, pos + 1);
            let (name, p2) = scan_name_exec(chars, pw);
            let p3 = consume_whitespace(chars, p2);
            proof {
                assert(p3 > pos);
            }
            get_opening_properties(chars, p3, chars_to_string(&name))
        }
    } else {
        let (txt, p2) = scan_text_exec(chars, pos + 1);
        let mut whole: Vec<char> = Vec::new();
        whole.push(c);
        crate::text::push_chars(&mut whole, &txt);
        proof {
            assert(whole@ =~= seq![chars@[pos as int]] + txt@);
        }
        let decoded = transform_text(chars_to_string(&whole).as_str());
        (Ok(DocElement::Text(decoded)), p2)
    }
}

/// Parse an opening tag's attributes and, unless it is void or closes
/// itself, its children.
pub fn get_opening_properties(chars: &Vec<char>, pos: usize, tag_name: String) -> (r: (
    Result<DocElement, String>,
    usize,
))
    requires
        1 <= pos <= chars@.len(),
    ensures
        (res_view(r.0), r.1 as int) == spec_opening(chars@, pos as int, tag_name@),
        pos <= r.1 <= chars@.len(),
        (r.0 matches Ok(el) ==> node_wf(el)),
    decreases chars@.len() - pos, 4int,
{
    let mut props = PropMap::new();
    let mut closed = false;
    let mut i = pos;
    let mut done = false;
    // attributes
    while !done
        invariant
            pos <= i <= chars@.len(),
            props.wf(),
            !done ==> spec_parse_props(chars@, pos as int, Map::empty(), false)
                == spec_parse_props(chars@, i as int, props@, closed),
            done ==> spec_parse_props(chars@, pos as int, Map::empty(), false) == (
                Ok::<_, Seq<char>>((props@, closed)),
                i as int,
            ),
            done ==> pos < i,
        decreases chars@.len() - i,
    {
        if i >= chars.len() {
            return (Err(String::from_str("Missing `>`")), i);
        }
        if chars[i] == '>' {
            i = i + 1;
            done = true;
            continue;
        }
        let ghost pi = i as int;
        let ghost pacc = props@;
        let ghost pclosed = closed;
        let (prop, p1, slash) = scan_prop_exec(chars, i);
        let p2 = consume_whitespace(chars, p1);
        if p2 < chars.len() && chars[p2] == '=' {
            let p3 = consume_whitespace(chars, p2 + 1);
            if p3 < chars.len() && (chars[p3] == '"' || chars[p3] == '\'') {
                let barrier = chars[p3];
                let (q, p4) = scan_quoted_exec(chars, p3 + 1, barrier);
                match q {
                    Ok(raw) => {
                        let p5 = consume_whitespace(chars, p4);
                        let value = transform_text(chars_to_string(&raw).as_str());
                        props.insert(chars_to_string(&prop), value);
                        closed = closed || slash;
                        proof {
                            assert(p5 > pi);
                        }
                        i = p5;
                    },
                    Err(m) => {
                        return (Err(m), p4);
                    },
                }
            } else {
                let (raw, p4) = scan_unquoted_exec(chars, p3);
                let p5 = consume_whitespace(chars, p4);
                let value = transform_text(chars_to_string(&raw).as_str());
                props.insert(chars_to_string(&prop), value);
                closed = closed || slash;
                proof {
                    assert(p5 > pi);
                }
                i = p5;
            }
        } else {
            if p2 > i {
                props.insert(chars_to_string(&prop), String::new());
                closed = closed || slash;
                i = p2;
            } else {
                // a character no attribute can begin: skip it
                i = i + 1;
            }
        }
    }
    if is_self_closing_name(&tag_name) || closed {
        let el = DocElement::HtmlElement { name: tag_name, children: Vec::new(), properties: props };
        proof {
            assert(nodes_view(Seq::<DocElement>::empty()) == Seq::<DocView>::empty());
        }
        return (Ok(el), i);
    }
    // children
    let ghost pc0 = i as int;
    proof {
        assert(pc0 > pos);
    }
    let mut out: Vec<DocElement> = Vec::new();
    let mut done = false;
    while !done && i < chars.len()
        invariant
            pos < pc0 <= chars@.len(),
            pc0 <= i as int <= chars@.len(),
            nodes_wf(out@),
            props.wf(),
            !is_void_name(tag_name@),
            !closed,
            spec_parse_props(chars@, pos as int, Map::empty(), false) == (
                Ok::<_, Seq<char>>((props@, closed)),
                pc0,
            ),
            done ==> spec_parse_children(chars@, pc0, tag_name@) == (
                Ok::<_, Seq<char>>(nodes_view(out@)),
                i as int,
            ),
            !done ==> ({
                let rest = spec_parse_children(chars@, i as int, tag_name@);
                &&& spec_parse_children(chars@, pc0, tag_name@).1 == rest.1
                &&& (rest.0 matches Ok(cs) ==> spec_parse_children(chars@, pc0, tag_name@).0
                    == Ok::<_, Seq<char>>(nodes_view(out@) + cs))
                &&& (rest.0 matches Err(e) ==> spec_parse_children(chars@, pc0, tag_name@).0
                    == Err::<Seq<DocView>, _>(e))
            }),
        decreases chars@.len() - i,
    {
        let ghost pi = i as int;
        let ghost outv = out@;
        let (cr, p2) = inner_parse(chars, i);
        match cr {
            Err(m) => {
                return (Err(m), p2);
            },
            Ok(child) => {
                let matches_close = match &child {
                    DocElement::ClosingTag(n) => *n == tag_name,
                    _ => false,
                };
                proof {
                    assert(matches_close == is_matching_closing(node_view(child), tag_name@));
                }
                if matches_close {
                    proof {
                        assert(nodes_view(out@) + Seq::<DocView>::empty() =~= nodes_view(out@));
                    }
                    i = p2;
                    done = true;
                } else {
                    proof {
                        assert(p2 > pi);
                    }
                    out.push(child);
                    proof {
                        lemma_nodes_wf_push(outv, child);
                        crate::types::doc_element::lemma_nodes_view_push(outv, child);
                        assert(out@ =~= outv.push(child));
                        assert(nodes_wf(out@));
                        let rest2 = spec_parse_children(chars@, p2 as int, tag_name@);
                        if rest2.0 is Ok {
                            assert(nodes_view(outv) + (seq![node_view(child)] + rest2.0->Ok_0)
                                =~= nodes_view(out@) + rest2.0->Ok_0);
                        }
                    }
                    i = p2;
                }
            },
        }
    }
    proof {
        if !done {
            assert(spec_parse_children(chars@, i as int, tag_name@) == (
                Ok::<Seq<DocView>, Seq<char>>(Seq::empty()),
                i as int,
            ));
            assert(nodes_view(out@) + Seq::<DocView>::empty() =~= nodes_view(out@));
        }
    }
    let el = DocElement::HtmlElement { name: tag_name, children: out, properties: props };
    (Ok(el), i)
}

/// Parse a whole document: skip an optional doctype declaration and leading
/// whitespace, read the first node, and minify it.
pub fn parse_html(html: &str) -> (r: Result<DocElement, String>)
    ensures
        res_view(r) == spec_parse_html(html@),
        (r matches Ok(el) ==> node_wf(el)),
{
    let all = str_chars(html);
    let mut has_prefix = all.len() >= 15;
    if has_prefix {
        let pat = str_chars("<!doctype html>");
        proof {
            reveal_strlit("<!doctype html>");
        }
        let mut k: usize = 0;
        while k < 15
            invariant
                k <= 15,
                all@.len() >= 15,
                pat@ == "<!doctype html>"@,
                pat@.len() == 15,
                has_prefix == (forall|i: int|
                    0 <= i < k ==> ascii_lower(#[trigger] all@[i]) == "<!doctype html>"@[i]),
            decreases 15 - k,
        {
            let c = all[k];
            let lc = if 'A' <= c && c <= 'Z' {
                proof {
                    assert(crate::text::is_unicode_scalar(((c as int) + 32) as u32));
                }
                crate::text::char_from_u32(c as u32 + 32).unwrap()
            } else {
                c
            };
            proof {
                assert(lc == ascii_lower(all@[k as int]));
            }
            if lc != pat[k] {
                has_prefix = false;
                proof {
                    assert(ascii_lower(all@[k as int]) != "<!doctype html>"@[k as int]);
                }
                k = 15;
            } else {
                k = k + 1;
            }
        }
    }
    proof {
        assert(has_prefix == has_doctype_prefix(html@));
    }
    let body = if has_prefix {
        crate::text::copy_range(&all, 15, all.len())
    } else {
        all
    };
    proof {
        if has_prefix {
            assert(body@ =~= html@.skip(15));
        }
    }
    let p0 = consume_whitespace(&body, 0);
    let (r, _end) = inner_parse(&body, p0);
    match r {
        Ok(el) => Ok(el.minify()),
        Err(m) => Err(m),
    }
}

} // verus!
