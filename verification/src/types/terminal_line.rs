//! One renderable, focusable row of output, with a focused and an unfocused
//! presentation, cached visible lengths, an optional element id, and what
//! activating the row does.

use vstd::prelude::*;

verus! {

use crate::utils::{get_visible_length, lemma_visible_len_push_space, visible_len};

/// Appends spaces to `s` until its visible length grows from `vis` to
/// `amount`.
fn pad_to(s: String, vis: usize, amount: usize) -> (r: String)
    requires
        vis == visible_len(s@),
        amount >= vis,
    ensures
        r@ == s@ + Seq::new((amount - vis) as nat, |i: int| ' '),
        visible_len(r@) == amount,
{
    proof {
        reveal_strlit(" ");
        assert(" "@ =~= seq![' ']);
    }
    let ghost orig = s@;
    let mut out = s;
    let mut c = vis;
    while c < amount
        invariant
            vis <= c <= amount,
            out@ == orig + Seq::new((c - vis) as nat, |i: int| ' '),
            visible_len(out@) == c,
            " "@ == seq![' '],
        decreases amount - c,
    {
        proof {
            lemma_visible_len_push_space(out@);
            assert(out@ + " "@ =~= out@.push(' '));
            assert(out@.push(' ') =~= orig + Seq::new((c + 1 - vis) as nat, |i: int| ' '));
        }
        out.append(" ");
        c = c + 1;
    }
    proof {
        assert(out@ =~= orig + Seq::new((amount - vis) as nat, |i: int| ' '));
    }
    out
}

/// What happens when the user activates a line.
#[derive(Debug, Clone, PartialEq, Eq)]
pub enum InteractionType {
    Image(String),
    Link(String),
    Nothing,
}

/// The mathematical value of an interaction.
pub enum InteractionView {
    Image(Seq<char>),
    Link(Seq<char>),
    Nothing,
}

pub open spec fn iview(i: InteractionType) -> InteractionView {
    match i {
        InteractionType::Image(s) => InteractionView::Image(s@),
        InteractionType::Link(s) => InteractionView::Link(s@),
        InteractionType::Nothing => InteractionView::Nothing,
    }
}

/// The mathematical value of a terminal line.
#[verifier::ext_equal]
pub struct LineView {
    pub focused: Seq<char>,
    pub focused_vis: nat,
    pub unfocused: Seq<char>,
    pub unfocused_vis: nat,
    pub id: Option<Seq<char>>,
    pub interaction: InteractionView,
}

#[derive(Debug, Clone, PartialEq, Eq)]
pub struct TerminalLine {
    /// text that displays while the line is focused
    focused_text: String,
    /// length of focused text to the user (excludes ANSI escape codes)
    focused_vis_len: usize,
    /// text that displays while the line is unfocused
    unfocused_text: String,
    /// length of unfocused text to the user (excludes ANSI escape codes)
    unfocused_vis_len: usize,
    /// id of the producing element, for `#id` links
    html_id: Option<String>,
    /// what happens when the user presses enter
    interaction_type: InteractionType,
}

impl View for TerminalLine {
    type V = LineView;

    closed spec fn view(&self) -> LineView {
        LineView {
            focused: self.focused_text@,
            focused_vis: self.focused_vis_len as nat,
            unfocused: self.unfocused_text@,
            unfocused_vis: self.unfocused_vis_len as nat,
            id: match self.html_id {
                Some(s) => Some(s@),
                None => None,
            },
            interaction: iview(self.interaction_type),
        }
    }
}

/// A line as the renderer builds it: a fresh text run with no id and no
/// interaction, both presentations equal.
pub open spec fn line_of(s: Seq<char>) -> LineView {
    LineView {
        focused: s,
        focused_vis: visible_len(s),
        unfocused: s,
        unfocused_vis: visible_len(s),
        id: None,
        interaction: InteractionView::Nothing,
    }
}

impl TerminalLine {
    /// The cached visible lengths are those of the texts.
    pub open spec fn wf(&self) -> bool {
        self@.focused_vis == visible_len(self@.focused) && self@.unfocused_vis == visible_len(
            self@.unfocused,
        )
    }

    /// A fresh line showing `value` whether or not it is focused.
    pub fn from_text(value: String) -> (r: Self)
        ensures
            r@ == line_of(value@),
            r.wf(),
    {
        let vis_len = get_visible_length(value.as_str());
        let r = Self {
            focused_text: value.clone(),
            focused_vis_len: vis_len,
            unfocused_text: value,
            unfocused_vis_len: vis_len,
            html_id: None,
            interaction_type: InteractionType::Nothing,
        };
        proof {
            assert(r@ =~= line_of(r.focused_text@));
        }
        r
    }

    /// Map both displayed texts, recomputing the visible lengths.
    pub fn map<F: Fn(String) -> String>(self, f: F) -> (r: Self)
        requires
            forall|x: String| #[trigger] call_requires(f, (x,)),
        ensures
            exists|x: String, ft: String|
                x@ == self@.focused && #[trigger] call_ensures(f, (x,), ft) && r@.focused == ft@
                    && r@.focused_vis == visible_len(ft@),
            exists|x: String, ut: String|
                x@ == self@.unfocused && #[trigger] call_ensures(f, (x,), ut) && r@.unfocused
                    == ut@ && r@.unfocused_vis == visible_len(ut@),
            r@.id == self@.id,
            r@.interaction == self@.interaction,
            r.wf(),
    {
        let fc = self.focused_text.clone();
        let uc = self.unfocused_text.clone();
        let ghost fcg = fc;
        let ghost ucg = uc;
        let focused_text = f(fc);
        let unfocused_text = f(uc);
        proof {
            assert(call_ensures(f, (fcg,), focused_text));
            assert(call_ensures(f, (ucg,), unfocused_text));
        }
        Self {
            focused_vis_len: get_visible_length(focused_text.as_str()),
            unfocused_vis_len: get_visible_length(unfocused_text.as_str()),
            focused_text,
            unfocused_text,
            html_id: self.html_id,
            interaction_type: self.interaction_type,
        }
    }

    /// Map the text displayed while the line is not focused.
    pub fn map_unfocused<F: Fn(String) -> String>(self, f: F) -> (r: Self)
        requires
            forall|x: String| #[trigger] call_requires(f, (x,)),
        ensures
            exists|x: String, ut: String|
                x@ == self@.unfocused && #[trigger] call_ensures(f, (x,), ut) && r@.unfocused
                    == ut@ && r@.unfocused_vis == visible_len(ut@),
            r@.focused == self@.focused,
            r@.focused_vis == self@.focused_vis,
            r@.id == self@.id,
            r@.interaction == self@.interaction,
    {
        let uc = self.unfocused_text.clone();
        let ghost ucg = uc;
        let unfocused_text = f(uc);
        proof {
            assert(call_ensures(f, (ucg,), unfocused_text));
        }
        Self {
            unfocused_vis_len: get_visible_length(unfocused_text.as_str()),
            unfocused_text,
            focused_text: self.focused_text,
            focused_vis_len: self.focused_vis_len,
            html_id: self.html_id,
            interaction_type: self.interaction_type,
        }
    }

    /// Map the text displayed while the line is focused.
    pub fn map_focused<F: Fn(String) -> String>(self, f: F) -> (r: Self)
        requires
            forall|x: String| #[trigger] call_requires(f, (x,)),
        ensures
            exists|x: String, ft: String|
                x@ == self@.focused && #[trigger] call_ensures(f, (x,), ft) && r@.focused == ft@
                    && r@.focused_vis == visible_len(ft@),
            r@.unfocused == self@.unfocused,
            r@.unfocused_vis == self@.unfocused_vis,
            r@.id == self@.id,
            r@.interaction == self@.interaction,
    {
        let fc = self.focused_text.clone();
        let ghost fcg = fc;
        let focused_text = f(fc);
        proof {
            assert(call_ensures(f, (fcg,), focused_text));
        }
        Self {
            focused_vis_len: get_visible_length(focused_text.as_str()),
            focused_text,
            unfocused_text: self.unfocused_text,
            unfocused_vis_len: self.unfocused_vis_len,
            html_id: self.html_id,
            interaction_type: self.interaction_type,
        }
    }

    /// What activating the line does.
    pub fn interaction(&self) -> (r: &InteractionType)
        ensures
            iview(*r) == self@.interaction,
    {
        &self.interaction_type
    }

    /// The row as printed: a focus marker, then the matching presentation.
    pub fn display(&self, is_focused: bool) -> (r: String)
        ensures
            is_focused ==> r@ == seq!['>'] + self@.focused,
            !is_focused ==> r@ == seq![' '] + self@.unfocused,
    {
        proof {
            reveal_strlit(">");
            reveal_strlit(" ");
            assert(">"@ =~= seq!['>']);
            assert(" "@ =~= seq![' ']);
        }
        if is_focused {
            let mut s = String::new();
            s.append(">");
            s.append(self.focused_text.as_str());
            proof {
                assert(s@ =~= seq!['>'] + self@.focused);
            }
            s
        } else {
            let mut s = String::new();
            s.append(" ");
            s.append(self.unfocused_text.as_str());
            proof {
                assert(s@ =~= seq![' '] + self@.unfocused);
            }
            s
        }
    }

    /// Whether both presentations are empty.
    pub fn is_empty(&self) -> (r: bool)
        ensures
            r == (self@.focused.len() == 0 && self@.unfocused.len() == 0),
    {
        self.focused_text.as_str().is_empty() && self.unfocused_text.as_str().is_empty()
    }

    /// The same line with the given interaction.
    pub fn with_interaction(self, interaction: InteractionType) -> (r: Self)
        ensures
            r@ == (LineView { interaction: iview(interaction), ..self@ }),
    {
        let r = Self { interaction_type: interaction, ..self };
        proof {
            assert(r@ =~= (LineView { interaction: r@.interaction, ..self@ }));
        }
        r
    }

    /// The same line carrying the given element id.
    pub fn with_id(self, id: String) -> (r: Self)
        ensures
            r@ == (LineView { id: Some(id@), ..self@ }),
    {
        let r = Self { html_id: Some(id), ..self };
        proof {
            assert(r@ =~= (LineView { id: r@.id, ..self@ }));
        }
        r
    }

    /// Whether the line carries exactly the given element id.
    pub fn check_id(&self, id: &str) -> (r: bool)
        ensures
            r == (self@.id is Some && self@.id->0 == id@),
    {
        match &self.html_id {
            Some(own) => {
                let given = String::from_str(id);
                *own == given
            },
            None => false,
        }
    }

    /// Add spaces to the end of both presentations until their apparent
    /// size to the user (ANSI escapes excluded) matches `amount`.
    pub fn visible_right_pad(self, amount: usize) -> (r: Self)
        requires
            self.wf(),
            amount >= self@.focused_vis,
            amount >= self@.unfocused_vis,
        ensures
            r@.focused == self@.focused + Seq::new((amount - self@.focused_vis) as nat, |i: int| ' '),
            r@.unfocused == self@.unfocused + Seq::new(
                (amount - self@.unfocused_vis) as nat,
                |i: int| ' ',
            ),
            r@.focused_vis == amount,
            r@.unfocused_vis == amount,
            r@.id == self@.id,
            r@.interaction == self@.interaction,
            r.wf(),
    {
        let focused_text = pad_to(self.focused_text, self.focused_vis_len, amount);
        let unfocused_text = pad_to(self.unfocused_text, self.unfocused_vis_len, amount);
        Self {
            focused_text,
            unfocused_text,
            focused_vis_len: amount,
            unfocused_vis_len: amount,
            html_id: self.html_id,
            interaction_type: self.interaction_type,
        }
    }

    /// The wider of the two visible lengths.
    pub fn max_visible_length(&self) -> (r: usize)
        ensures
            r == if self@.focused_vis >= self@.unfocused_vis {
                self@.focused_vis
            } else {
                self@.unfocused_vis
            },
    {
        if self.focused_vis_len >= self.unfocused_vis_len {
            self.focused_vis_len
        } else {
            self.unfocused_vis_len
        }
    }
}


/// `count` spaces.
pub open spec fn spaces(count: int) -> Seq<char> {
    Seq::new(count as nat, |i: int| ' ')
}

/// `l` with both presentations wrapped in the given prefixes and suffixes,
/// its visible lengths recomputed.
pub open spec fn styled(l: LineView, fp: Seq<char>, fs: Seq<char>, up: Seq<char>, us: Seq<char>) -> LineView {
    LineView {
        focused: fp + l.focused + fs,
        focused_vis: visible_len(fp + l.focused + fs),
        unfocused: up + l.unfocused + us,
        unfocused_vis: visible_len(up + l.unfocused + us),
        id: l.id,
        interaction: l.interaction,
    }
}

/// `l` padded with spaces to visible width `w`.
pub open spec fn padded(l: LineView, w: int) -> LineView {
    LineView {
        focused: l.focused + spaces(w - l.focused_vis),
        focused_vis: w as nat,
        unfocused: l.unfocused + spaces(w - l.unfocused_vis),
        unfocused_vis: w as nat,
        id: l.id,
        interaction: l.interaction,
    }
}

impl TerminalLine {
    /// Wrap both presentations in the given prefixes and suffixes.
    pub fn style_wrap(self, fp: &str, fs: &str, up: &str, us: &str) -> (r: Self)
        ensures
            r@ == styled(self@, fp@, fs@, up@, us@),
            r.wf(),
    {
        let mut f = String::from_str(fp);
        f.append(self.focused_text.as_str());
        f.append(fs);
        let mut u = String::from_str(up);
        u.append(self.unfocused_text.as_str());
        u.append(us);
        let r = Self {
            focused_vis_len: get_visible_length(f.as_str()),
            unfocused_vis_len: get_visible_length(u.as_str()),
            focused_text: f,
            unfocused_text: u,
            html_id: self.html_id,
            interaction_type: self.interaction_type,
        };
        proof {
            assert(r@ =~= styled(self@, fp@, fs@, up@, us@));
        }
        r
    }
}

} // verus!
