//! The document tree: elements with attributes and children, stray closing
//! markers, and text runs; and the minifier that cleans a parsed tree.

use vstd::prelude::*;

verus! {

use crate::text::{chars_to_string, copy_range, is_whitespace_char, is_ws_char, str_chars};

broadcast use vstd::seq::axiom_seq_index_decreases, vstd::std_specs::vec::group_vec_axioms;

/// An attribute list with unique names, in insertion order.
#[derive(Debug, PartialEq)]
pub struct PropMap {
    entries: Vec<(String, String)>,
}

/// The map an attribute list stands for; a later entry for the same name
/// wins.
pub open spec fn map_of(s: Seq<(String, String)>) -> Map<Seq<char>, Seq<char>>
    decreases s.len(),
{
    if s.len() == 0 {
        Map::empty()
    } else {
        map_of(s.drop_last()).insert(s.last().0@, s.last().1@)
    }
}

impl View for PropMap {
    type V = Map<Seq<char>, Seq<char>>;

    closed spec fn view(&self) -> Map<Seq<char>, Seq<char>> {
        map_of(self.entries@)
    }
}

/// Which keys an attribute list holds, and what each maps to.
proof fn lemma_map_of_entries(s: Seq<(String, String)>)
    ensures
        forall|k: Seq<char>|
            #[trigger] map_of(s).contains_key(k) <==> exists|i: int|
                0 <= i < s.len() && #[trigger] s[i].0@ == k,
    decreases s.len(),
{
    if s.len() > 0 {
        let d = s.drop_last();
        lemma_map_of_entries(d);
        assert forall|k: Seq<char>| #[trigger]
            map_of(s).contains_key(k) implies exists|i: int|
            0 <= i < s.len() && #[trigger] s[i].0@ == k by {
            if k == s.last().0@ {
                assert(s[s.len() - 1].0@ == k);
            } else {
                assert(map_of(d).contains_key(k));
                let i = choose|i: int| 0 <= i < d.len() && #[trigger] d[i].0@ == k;
                assert(s[i].0@ == k);
            }
        }
        assert forall|k: Seq<char>|
            (exists|i: int| 0 <= i < s.len() && #[trigger] s[i].0@ == k) implies #[trigger] map_of(
            s,
        ).contains_key(k) by {
            let i = choose|i: int| 0 <= i < s.len() && #[trigger] s[i].0@ == k;
            if i < s.len() - 1 {
                assert(d[i].0@ == k);
                assert(map_of(d).contains_key(k));
            }
        }
    }
}

/// With unique keys, each entry gives the map's value at its key.
proof fn lemma_map_of_value(s: Seq<(String, String)>, i: int)
    requires
        forall|a: int, b: int|
            0 <= a < b < s.len() ==> #[trigger] s[a].0@ != #[trigger] s[b].0@,
        0 <= i < s.len(),
    ensures
        map_of(s).contains_key(s[i].0@),
        map_of(s)[s[i].0@] == s[i].1@,
    decreases s.len(),
{
    if i == s.len() - 1 {
    } else {
        lemma_map_of_value(s.drop_last(), i);
        assert(s.drop_last()[i] == s[i]);
        assert(s[i].0@ != s.last().0@);
    }
}

impl PropMap {
    /// Every name occurs once.
    pub closed spec fn wf(&self) -> bool {
        forall|a: int, b: int|
            0 <= a < b < self.entries@.len() ==> #[trigger] self.entries@[a].0@
                != #[trigger] self.entries@[b].0@
    }

    pub fn new() -> (r: Self)
        ensures
            r@ == Map::<Seq<char>, Seq<char>>::empty(),
            r.wf(),
    {
        let r = PropMap { entries: Vec::new() };
        r
    }

    /// The position of `key`, if present.
    fn find(&self, key: &str) -> (r: Option<usize>)
        ensures
            match r {
                Some(i) => i < self.entries@.len() && self.entries@[i as int].0@ == key@,
                None => forall|i: int|
                    0 <= i < self.entries@.len() ==> #[trigger] self.entries@[i].0@ != key@,
            },
    {
        let pat = String::from_str(key);
        let mut i: usize = 0;
        while i < self.entries.len()
            invariant
                i <= self.entries@.len(),
                pat@ == key@,
                forall|j: int| 0 <= j < i ==> #[trigger] self.entries@[j].0@ != key@,
            decreases self.entries@.len() - i,
        {
            if self.entries[i].0 == pat {
                return Some(i);
            }
            i = i + 1;
        }
        None
    }

    /// Store `value` under `key`, replacing any earlier value.
    pub fn insert(&mut self, key: String, value: String)
        requires
            old(self).wf(),
        ensures
            final(self)@ == old(self)@.insert(key@, value@),
            final(self).wf(),
    {
        let ghost olds = self.entries@;
        match self.find(key.as_str()) {
            Some(i) => {
                self.entries[i] = (key, value);
                proof {
                    lemma_map_of_update(olds, i as int, self.entries@[i as int]);
                    assert(self.entries@ =~= olds.update(i as int, self.entries@[i as int]));
                }
            },
            None => {
                self.entries.push((key, value));
                proof {
                    assert(self.entries@.drop_last() =~= olds);
                }
            },
        }
    }

    /// The value stored under `key`, if any.
    pub fn get(&self, key: &str) -> (r: Option<&String>)
        requires
            self.wf(),
        ensures
            match r {
                Some(v) => self@.contains_key(key@) && v@ == self@[key@],
                None => !self@.contains_key(key@),
            },
    {
        proof {
            lemma_map_of_entries(self.entries@);
        }
        match self.find(key) {
            Some(i) => {
                proof {
                    lemma_map_of_value(self.entries@, i as int);
                }
                Some(&self.entries[i].1)
            },
            None => None,
        }
    }
}

/// Replacing the entry that holds a key is inserting over it.
proof fn lemma_map_of_update(s: Seq<(String, String)>, i: int, kv: (String, String))
    requires
        forall|a: int, b: int|
            0 <= a < b < s.len() ==> #[trigger] s[a].0@ != #[trigger] s[b].0@,
        0 <= i < s.len(),
        s[i].0@ == kv.0@,
    ensures
        map_of(s.update(i, kv)) == map_of(s).insert(kv.0@, kv.1@),
    decreases s.len(),
{
    let u = s.update(i, kv);
    if i == s.len() - 1 {
        assert(u.drop_last() =~= s.drop_last());
        assert(map_of(u) =~= map_of(s).insert(kv.0@, kv.1@));
    } else {
        assert(u.drop_last() =~= s.drop_last().update(i, kv));
        lemma_map_of_update(s.drop_last(), i, kv);
        assert(s.drop_last()[i] == s[i]);
        assert(s[i].0@ != s.last().0@);
        assert(map_of(u) =~= map_of(s).insert(kv.0@, kv.1@));
    }
}


/// A parsed document node.
#[derive(Debug, PartialEq)]
pub enum DocElement {
    HtmlElement { name: String, children: Vec<DocElement>, properties: PropMap },
    ClosingTag(String),
    Text(String),
}

/// The mathematical value of a document node.
#[verifier::ext_equal]
pub enum DocView {
    Elem { name: Seq<char>, children: Seq<DocView>, props: Map<Seq<char>, Seq<char>> },
    Closing(Seq<char>),
    Text(Seq<char>),
}

pub open spec fn node_view(e: DocElement) -> DocView
    decreases e,
    via node_view_via
{
    match e {
        DocElement::HtmlElement { name, children, properties } => DocView::Elem {
            name: name@,
            children: nodes_view(children@),
            props: properties@,
        },
        DocElement::ClosingTag(s) => DocView::Closing(s@),
        DocElement::Text(s) => DocView::Text(s@),
    }
}

/// The values of a run of sibling nodes.
pub open spec fn nodes_view(cs: Seq<DocElement>) -> Seq<DocView>
    decreases cs,
{
    if cs.len() == 0 {
        Seq::empty()
    } else {
        seq![node_view(cs[0])] + nodes_view(cs.drop_first())
    }
}

#[via_fn]
proof fn node_view_via(e: DocElement) {
    match e {
        DocElement::HtmlElement { name, children, properties } => {
            assert(decreases_to!(e => children));
            assert(decreases_to!(children => children@));
        },
        _ => {},
    }
}

pub proof fn lemma_nodes_view(cs: Seq<DocElement>)
    ensures
        nodes_view(cs).len() == cs.len(),
        forall|i: int| 0 <= i < cs.len() ==> nodes_view(cs)[i] == node_view(#[trigger] cs[i]),
    decreases cs.len(),
{
    if cs.len() > 0 {
        lemma_nodes_view(cs.drop_first());
        assert forall|i: int|
            0 <= i < cs.len() implies nodes_view(cs)[i] == node_view(#[trigger] cs[i]) by {
            if i > 0 {
                assert(cs.drop_first()[i - 1] == cs[i]);
            }
        }
    }
}

impl View for DocElement {
    type V = DocView;

    open spec fn view(&self) -> DocView {
        node_view(*self)
    }
}

/// Every attribute list in the tree has unique names.
pub open spec fn node_wf(e: DocElement) -> bool
    decreases e,
    via node_wf_via
{
    match e {
        DocElement::HtmlElement { name, children, properties } => properties.wf() && nodes_wf(
            children@,
        ),
        _ => true,
    }
}

pub open spec fn nodes_wf(cs: Seq<DocElement>) -> bool
    decreases cs,
{
    if cs.len() == 0 {
        true
    } else {
        node_wf(cs[0]) && nodes_wf(cs.drop_first())
    }
}

#[via_fn]
proof fn node_wf_via(e: DocElement) {
    match e {
        DocElement::HtmlElement { name, children, properties } => {
            assert(decreases_to!(e => children));
            assert(decreases_to!(children => children@));
        },
        _ => {},
    }
}

pub proof fn lemma_nodes_wf(cs: Seq<DocElement>)
    ensures
        nodes_wf(cs) <==> (forall|i: int| 0 <= i < cs.len() ==> node_wf(#[trigger] cs[i])),
    decreases cs.len(),
{
    if cs.len() > 0 {
        lemma_nodes_wf(cs.drop_first());
        if nodes_wf(cs) {
            assert forall|i: int| 0 <= i < cs.len() implies node_wf(#[trigger] cs[i]) by {
                if i > 0 {
                    assert(cs.drop_first()[i - 1] == cs[i]);
                }
            }
        }
        if forall|i: int| 0 <= i < cs.len() ==> node_wf(#[trigger] cs[i]) {
            assert forall|i: int|
                0 <= i < cs.drop_first().len() implies node_wf(#[trigger] cs.drop_first()[i]) by {
                assert(cs.drop_first()[i] == cs[i + 1]);
            }
        }
    }
}

impl DocElement {
    pub open spec fn wf(&self) -> bool {
        node_wf(*self)
    }
}

// ---- trimming ----
/// The first index at or after `pos` holding a non-whitespace character.
pub open spec fn trim_start_idx(s: Seq<char>, pos: int) -> int
    decreases s.len() - pos,
{
    if 0 <= pos && pos < s.len() && is_ws_char(s[pos]) {
        trim_start_idx(s, pos + 1)
    } else {
        pos
    }
}

/// The index just past the last non-whitespace character before `pos`.
pub open spec fn trim_end_idx(s: Seq<char>, pos: int) -> int
    decreases pos,
{
    if 0 < pos && pos <= s.len() && is_ws_char(s[pos - 1]) {
        trim_end_idx(s, pos - 1)
    } else {
        pos
    }
}

/// `s` without leading and trailing whitespace.
pub open spec fn spec_trim(s: Seq<char>) -> Seq<char> {
    let a = trim_start_idx(s, 0);
    let b = trim_end_idx(s, s.len() as int);
    if a < b {
        s.subrange(a, b)
    } else {
        Seq::empty()
    }
}

proof fn lemma_trim_start_props(s: Seq<char>, pos: int)
    requires
        0 <= pos <= s.len(),
    ensures
        pos <= trim_start_idx(s, pos) <= s.len(),
        forall|i: int| pos <= i < trim_start_idx(s, pos) ==> is_ws_char(#[trigger] s[i]),
        trim_start_idx(s, pos) < s.len() ==> !is_ws_char(s[trim_start_idx(s, pos)]),
    decreases s.len() - pos,
{
    if pos < s.len() && is_ws_char(s[pos]) {
        lemma_trim_start_props(s, pos + 1);
    }
}

proof fn lemma_trim_end_props(s: Seq<char>, pos: int)
    requires
        0 <= pos <= s.len(),
    ensures
        0 <= trim_end_idx(s, pos) <= pos,
        forall|i: int| trim_end_idx(s, pos) <= i < pos ==> is_ws_char(#[trigger] s[i]),
        trim_end_idx(s, pos) > 0 ==> !is_ws_char(s[trim_end_idx(s, pos) - 1]),
    decreases pos,
{
    if 0 < pos && pos <= s.len() && is_ws_char(s[pos - 1]) {
        lemma_trim_end_props(s, pos - 1);
    }
}

/// Trim `v`.
pub fn trim_chars(v: &Vec<char>) -> (r: Vec<char>)
    ensures
        r@ == spec_trim(v@),
{
    let mut a: usize = 0;
    while a < v.len() && is_whitespace_char(v[a])
        invariant
            a <= v@.len(),
            trim_start_idx(v@, 0) == trim_start_idx(v@, a as int),
        decreases v@.len() - a,
    {
        a = a + 1;
    }
    proof {
        assert(trim_start_idx(v@, a as int) == a);
    }
    let mut b: usize = v.len();
    while b > 0 && is_whitespace_char(v[b - 1])
        invariant
            b <= v@.len(),
            trim_end_idx(v@, v@.len() as int) == trim_end_idx(v@, b as int),
        decreases b,
    {
        b = b - 1;
    }
    proof {
        assert(trim_end_idx(v@, b as int) == b);
    }
    if a < b {
        copy_range(v, a, b)
    } else {
        Vec::new()
    }
}

/// Trim a string.
pub fn trim_string(s: &str) -> (r: String)
    ensures
        r@ == spec_trim(s@),
{
    let v = str_chars(s);
    let t = trim_chars(&v);
    chars_to_string(&t)
}

// ---- minification ----
/// Whether the minifier keeps a minified child: everything but a text run
/// whose trimmed content is empty.
pub open spec fn keep_child(t: DocView) -> bool {
    match t {
        DocView::Text(s) => spec_trim(s).len() > 0,
        _ => true,
    }
}

/// What minification does: children are minified and the empty text runs
/// among them dropped, text runs are trimmed, and stray closing markers
/// become empty text runs.
pub open spec fn spec_minify(t: DocView) -> DocView
    decreases t,
{
    match t {
        DocView::Elem { name, children, props } => DocView::Elem {
            name,
            children: spec_minify_children(children),
            props,
        },
        DocView::Closing(_) => DocView::Text(Seq::empty()),
        DocView::Text(s) => DocView::Text(spec_trim(s)),
    }
}

pub open spec fn spec_minify_children(cs: Seq<DocView>) -> Seq<DocView>
    decreases cs,
{
    if cs.len() == 0 {
        Seq::empty()
    } else {
        let m = spec_minify(cs[0]);
        let rest = spec_minify_children(cs.drop_first());
        if keep_child(m) {
            seq![m] + rest
        } else {
            rest
        }
    }
}

/// Minify a run of sibling nodes: minify each and drop what the minifier
/// does not keep.
fn minify_children(children: Vec<DocElement>) -> (r: Vec<DocElement>)
    requires
        nodes_wf(children@),
    ensures
        nodes_view(r@) == spec_minify_children(nodes_view(children@)),
        nodes_wf(r@),
    decreases children,
{
    let ghost orig = children@;
    proof {
        lemma_nodes_wf(orig);
    }
    let mut rem = children;
    let mut out: Vec<DocElement> = Vec::new();
    while rem.len() > 0
        invariant
            nodes_wf(out@),
            forall|i: int| 0 <= i < rem@.len() ==> node_wf(#[trigger] rem@[i]),
            forall|i: int| 0 <= i < rem@.len() ==> decreases_to!(children => #[trigger] rem@[i]),
            spec_minify_children(nodes_view(orig)) == nodes_view(out@) + spec_minify_children(
                nodes_view(rem@),
            ),
        decreases rem@.len(),
    {
        let ghost remv = rem@;
        let ghost outv = out@;
        let child = rem.remove(0);
        proof {
            assert(child == remv[0]);
            assert(rem@ =~= remv.drop_first());
        }
        let m = child.minify();
        let keep = match &m {
            DocElement::Text(txt) => {
                let t = trim_string(txt.as_str());
                !t.as_str().is_empty()
            },
            _ => true,
        };
        proof {
            assert(keep == keep_child(spec_minify(node_view(child))));
            assert(nodes_view(remv) == seq![node_view(remv[0])] + nodes_view(remv.drop_first()));
            assert(nodes_view(remv).drop_first() =~= nodes_view(remv.drop_first()));
            assert(nodes_view(remv)[0] == node_view(child));
            assert(spec_minify_children(nodes_view(remv)) == if keep {
                seq![node_view(m)] + spec_minify_children(nodes_view(remv.drop_first()))
            } else {
                spec_minify_children(nodes_view(remv.drop_first()))
            });
        }
        if keep {
            out.push(m);
            proof {
                lemma_nodes_view_push(outv, m);
                lemma_nodes_wf_push(outv, m);
                assert(out@ =~= outv.push(m));
                assert(nodes_view(outv) + (seq![node_view(m)] + spec_minify_children(
                    nodes_view(remv.drop_first()),
                )) =~= (nodes_view(outv) + seq![node_view(m)]) + spec_minify_children(
                    nodes_view(remv.drop_first()),
                ));
            }
        }
    }
    proof {
        assert(nodes_view(rem@) =~= Seq::<DocView>::empty());
        assert(nodes_view(out@) + spec_minify_children(nodes_view(rem@)) =~= nodes_view(out@));
    }
    out
}

/// Appending a node appends its value.
pub proof fn lemma_nodes_view_push(cs: Seq<DocElement>, e: DocElement)
    ensures
        nodes_view(cs.push(e)) == nodes_view(cs) + seq![node_view(e)],
    decreases cs.len(),
{
    if cs.len() == 0 {
        let pu = cs.push(e);
        assert(pu.len() == 1);
        assert(pu[0] == e);
        assert(pu.drop_first() =~= Seq::<DocElement>::empty());
        assert(nodes_view(pu) == seq![node_view(pu[0])] + nodes_view(pu.drop_first()));
        assert(nodes_view(pu.drop_first()) == Seq::<DocView>::empty());
        assert(nodes_view(cs) == Seq::<DocView>::empty());
        assert(nodes_view(cs.push(e)) =~= nodes_view(cs) + seq![node_view(e)]);
    } else {
        assert(cs.push(e)[0] == cs[0]);
        assert(cs.push(e).drop_first() =~= cs.drop_first().push(e));
        lemma_nodes_view_push(cs.drop_first(), e);
        assert(nodes_view(cs.push(e)) =~= nodes_view(cs) + seq![node_view(e)]);
    }
}

/// Appending a well-formed node keeps the run well-formed.
pub proof fn lemma_nodes_wf_push(cs: Seq<DocElement>, e: DocElement)
    requires
        nodes_wf(cs),
        node_wf(e),
    ensures
        nodes_wf(cs.push(e)),
    decreases cs.len(),
{
    let pu = cs.push(e);
    if cs.len() == 0 {
        assert(pu[0] == e);
        assert(pu.drop_first() =~= Seq::<DocElement>::empty());
        assert(nodes_wf(pu.drop_first()));
    } else {
        assert(pu[0] == cs[0]);
        assert(pu.drop_first() =~= cs.drop_first().push(e));
        lemma_nodes_wf_push(cs.drop_first(), e);
    }
}

impl DocElement {
    /// Collapse the tree: drop whitespace-only text, trim the rest, and
    /// erase stray closing markers.
    pub fn minify(self) -> (r: Self)
        requires
            self.wf(),
        ensures
            r@ == spec_minify(self@),
            r.wf(),
        decreases self,
    {
        match self {
            DocElement::HtmlElement { name, children, properties } => {
                let out = minify_children(children);
                let r = DocElement::HtmlElement { name, children: out, properties };
                proof {
                    assert(r@ =~~= spec_minify(DocView::Elem {
                        name: name@,
                        children: nodes_view(children@),
                        props: properties@,
                    }));
                }
                r
            },
            DocElement::ClosingTag(_) => {
                let r = DocElement::Text(String::new());
                r
            },
            DocElement::Text(txt) => {
                let r = DocElement::Text(trim_string(txt.as_str()));
                r
            },
        }
    }
}

/// A tree in the minifier's image: children are all kept forms, text runs
/// are trimmed, and no closing marker stands anywhere.
pub open spec fn minified(t: DocView) -> bool
    decreases t,
{
    match t {
        DocView::Elem { name, children, props } => minified_run(children),
        DocView::Closing(_) => false,
        DocView::Text(s) => spec_trim(s) == s,
    }
}

pub open spec fn minified_run(cs: Seq<DocView>) -> bool
    decreases cs,
{
    if cs.len() == 0 {
        true
    } else {
        minified(cs[0]) && keep_child(cs[0]) && minified_run(cs.drop_first())
    }
}

/// Trimming is idempotent.
proof fn lemma_trim_idempotent(s: Seq<char>)
    ensures
        spec_trim(spec_trim(s)) == spec_trim(s),
{
    let a = trim_start_idx(s, 0);
    let b = trim_end_idx(s, s.len() as int);
    lemma_trim_start_props(s, 0);
    lemma_trim_end_props(s, s.len() as int);
    if a < b {
        let t = s.subrange(a, b);
        assert(!is_ws_char(t[0]));
        assert(!is_ws_char(t[t.len() - 1]));
        assert(trim_start_idx(t, 0) == 0);
        assert(trim_end_idx(t, t.len() as int) == t.len());
        assert(spec_trim(t) =~= t);
    } else {
        let t = spec_trim(s);
        assert(t.len() == 0);
        assert(trim_start_idx(t, 0) == 0);
        assert(trim_end_idx(t, 0int) == 0);
    }
}

/// Minification yields a minified tree.
proof fn lemma_minify_minified(t: DocView)
    ensures
        minified(spec_minify(t)),
    decreases t,
{
    match t {
        DocView::Elem { name, children, props } => {
            lemma_minify_children_minified(children);
        },
        DocView::Closing(_) => {
            assert(trim_start_idx(Seq::<char>::empty(), 0) == 0);
            assert(spec_trim(Seq::<char>::empty()) =~= Seq::<char>::empty());
        },
        DocView::Text(s) => {
            lemma_trim_idempotent(s);
        },
    }
}

proof fn lemma_minify_children_minified(cs: Seq<DocView>)
    ensures
        minified_run(spec_minify_children(cs)),
    decreases cs,
{
    if cs.len() > 0 {
        let m = spec_minify(cs[0]);
        let rest = spec_minify_children(cs.drop_first());
        lemma_minify_minified(cs[0]);
        lemma_minify_children_minified(cs.drop_first());
        if keep_child(m) {
            let whole = seq![m] + rest;
            assert(whole[0] == m);
            assert(whole.drop_first() =~= rest);
        }
    }
}

/// A minified tree is a fixed point of minification.
proof fn lemma_minified_fixpoint(t: DocView)
    requires
        minified(t),
    ensures
        spec_minify(t) == t,
    decreases t,
{
    match t {
        DocView::Elem { name, children, props } => {
            lemma_minified_run_fixpoint(children);
            assert(spec_minify(t) =~~= t);
        },
        DocView::Closing(_) => {},
        DocView::Text(s) => {},
    }
}

proof fn lemma_minified_run_fixpoint(cs: Seq<DocView>)
    requires
        minified_run(cs),
    ensures
        spec_minify_children(cs) == cs,
    decreases cs,
{
    if cs.len() > 0 {
        lemma_minified_fixpoint(cs[0]);
        lemma_minified_run_fixpoint(cs.drop_first());
        assert(spec_minify_children(cs) =~= seq![cs[0]] + cs.drop_first());
        assert(seq![cs[0]] + cs.drop_first() =~= cs);
    }
}

/// Minification is idempotent: cleaning an already cleaned tree changes
/// nothing.
pub proof fn lemma_minify_idempotent(t: DocView)
    ensures
        spec_minify(spec_minify(t)) == spec_minify(t),
{
    lemma_minify_minified(t);
    lemma_minified_fixpoint(spec_minify(t));
}

/// Whether every character of `s` is whitespace.
pub open spec fn all_ws(s: Seq<char>) -> bool {
    forall|i: int| 0 <= i < s.len() ==> is_ws_char(#[trigger] s[i])
}

/// An all-whitespace text trims to nothing.
proof fn lemma_all_ws_trim_empty(s: Seq<char>)
    requires
        all_ws(s),
    ensures
        spec_trim(s).len() == 0,
{
    lemma_trim_start_props(s, 0);
    lemma_trim_end_props(s, s.len() as int);
    let a = trim_start_idx(s, 0);
    assert(a < s.len() ==> !is_ws_char(s[a]));
    assert(a == s.len());
}

/// Below the root: no node is a closing marker and no text run is
/// whitespace-only.
pub open spec fn cleaned_node(t: DocView) -> bool
    decreases t,
{
    match t {
        DocView::Elem { name, children, props } => cleaned_run(children),
        DocView::Closing(_) => false,
        DocView::Text(s) => !all_ws(s),
    }
}

pub open spec fn cleaned_run(cs: Seq<DocView>) -> bool
    decreases cs,
{
    if cs.len() == 0 {
        true
    } else {
        cleaned_node(cs[0]) && cleaned_run(cs.drop_first())
    }
}

/// Below its root, a tree has no whitespace-only text runs and no closing
/// markers left.
pub open spec fn cleaned_below(t: DocView) -> bool {
    match t {
        DocView::Elem { name, children, props } => cleaned_run(children),
        _ => true,
    }
}

/// The root, if a text run, carries trimmed content.
pub open spec fn root_text_trimmed(t: DocView) -> bool {
    match t {
        DocView::Text(s) => spec_trim(s) == s,
        _ => true,
    }
}

proof fn lemma_minified_cleaned(t: DocView)
    requires
        minified(t),
    ensures
        cleaned_below(t),
    decreases t,
{
    match t {
        DocView::Elem { name, children, props } => {
            lemma_minified_run_cleaned(children);
        },
        _ => {},
    }
}

proof fn lemma_minified_run_cleaned(cs: Seq<DocView>)
    requires
        minified_run(cs),
    ensures
        cleaned_run(cs),
    decreases cs,
{
    if cs.len() > 0 {
        assert(minified(cs[0]) && keep_child(cs[0]) && minified_run(cs.drop_first()));
        lemma_minified_run_cleaned(cs.drop_first());
        match cs[0] {
            DocView::Elem { name, children, props } => {
                lemma_minified_cleaned(cs[0]);
                assert(cleaned_node(cs[0]));
            },
            DocView::Closing(_) => {
                assert(cleaned_node(cs[0]));
            },
            DocView::Text(s) => {
                if all_ws(s) {
                    lemma_all_ws_trim_empty(s);
                }
                assert(cleaned_node(cs[0]));
            },
        }
        assert(cleaned_run(cs));
    }
}

/// After minification no text run below the root is whitespace-only, no
/// closing marker remains anywhere, and a text root is trimmed.
pub proof fn lemma_minify_clean(t: DocView)
    ensures
        cleaned_below(spec_minify(t)),
        !(spec_minify(t) is Closing),
        root_text_trimmed(spec_minify(t)),
{
    lemma_minify_minified(t);
    lemma_minified_cleaned(spec_minify(t));
}

} // verus!
