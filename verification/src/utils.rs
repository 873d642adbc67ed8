//! Small pure functions: color quantization, link resolution, word wrap and
//! visible-length computation.

use vstd::prelude::*;

verus! {

use vstd::arithmetic::power2::pow2;

use crate::entities::is_dec_digit;
use crate::text::{chars_to_string, copy_range, is_whitespace_char, is_ws_char, str_chars};

/// The 216-color-cube index of an RGB triple: each channel is reduced to the
/// range 0..=5 by `(channel * 3) / 128`, and the cube starts at index 16.
pub open spec fn spec_rgb_to_256(r: int, g: int, b: int) -> int {
    ((r * 3) / 128) * 36 + ((g * 3) / 128) * 6 + (b * 3) / 128 + 16
}

/// Transform RGB channel values to an 8-bit terminal color index.
pub fn rgb_to_256(rgb: (usize, usize, usize)) -> (c: u8)
    requires
        rgb.0 < 256,
        rgb.1 < 256,
        rgb.2 < 256,
    ensures
        c == spec_rgb_to_256(rgb.0 as int, rgb.1 as int, rgb.2 as int),
{
    let (r, g, b) = rgb;
    let rq = (r * 3) >> 7;
    let gq = (g * 3) >> 7;
    let bq = (b * 3) >> 7;
    proof {
        vstd::bits::lemma_usize_shr_is_div((r * 3) as usize, 7);
        vstd::bits::lemma_usize_shr_is_div((g * 3) as usize, 7);
        vstd::bits::lemma_usize_shr_is_div((b * 3) as usize, 7);
        assert(pow2(7) == 128) by {
            vstd::arithmetic::power2::lemma2_to64();
        }
        assert(rq == (r * 3) as int / 128);
        assert(gq == (g * 3) as int / 128);
        assert(bq == (b * 3) as int / 128);
        assert(rq <= 5);
        assert(gq <= 5);
        assert(bq <= 5);
    }
    (rq * 36 + gq * 6 + bq + 16) as u8
}

/// The prefix of `s` up to and including its `n`-th slash counted from `pos`
/// on, or all of `s` plus a trailing slash when it has fewer: the scheme and
/// host portion of an absolute URL when `n` is 3.
pub open spec fn prefix_slashes(s: Seq<char>, pos: int, n: int) -> Seq<char>
    decreases s.len() - pos,
{
    if 0 <= pos && pos < s.len() {
        if s[pos] == '/' {
            if n <= 1 {
                s.subrange(0, pos + 1)
            } else {
                prefix_slashes(s, pos + 1, n - 1)
            }
        } else {
            prefix_slashes(s, pos + 1, n)
        }
    } else {
        s + seq!['/']
    }
}

pub open spec fn base_of(current: Seq<char>) -> Seq<char> {
    prefix_slashes(current, 0, 3)
}

/// The links resolution accepts: protocol-relative (`//`), fragment (`#`),
/// host-relative (`/`), or an address holding a dot that is not
/// parent-relative (`..`). The rest has no defined resolution.
pub open spec fn link_resolvable(link: Seq<char>) -> bool {
    ||| (link.len() >= 2 && link[0] == '/' && link[1] == '/')
    ||| (link.len() >= 1 && (link[0] == '#' || link[0] == '/'))
    ||| (!(link.len() >= 2 && link[0] == '.' && link[1] == '.') && exists|i: int|
        0 <= i < link.len() && link[i] == '.')
}

/// Where a link on the page `current` leads: `//` gets the https scheme, `#`
/// appends to the current address, `/` descends from the scheme-and-host
/// base, and anything else is taken as absolute.
pub open spec fn spec_link_destination(current: Seq<char>, link: Seq<char>) -> Seq<char> {
    if link.len() >= 2 && link[0] == '/' && link[1] == '/' {
        "https:"@ + link
    } else if link.len() >= 1 && link[0] == '#' {
        current + link
    } else if link.len() >= 1 && link[0] == '/' {
        base_of(current) + link.drop_first()
    } else {
        link
    }
}

/// Whether link resolution is defined for `link`.
pub fn is_link_resolvable(link: &str) -> (r: bool)
    ensures
        r == link_resolvable(link@),
{
    let v = str_chars(link);
    if v.len() >= 2 && v[0] == '/' && v[1] == '/' {
        return true;
    }
    if v.len() >= 1 && (v[0] == '#' || v[0] == '/') {
        return true;
    }
    if v.len() >= 2 && v[0] == '.' && v[1] == '.' {
        proof {
            assert(!link_resolvable(link@));
        }
        return false;
    }
    let mut i: usize = 0;
    while i < v.len()
        invariant
            i <= v@.len(),
            v@ == link@,
            !(link@.len() >= 2 && link@[0] == '.' && link@[1] == '.'),
            forall|k: int| 0 <= k < i ==> link@[k] != '.',
        decreases v@.len() - i,
    {
        if v[i] == '.' {
            proof {
                assert(link@[i as int] == '.');
            }
            return true;
        }
        i = i + 1;
    }
    false
}

/// The scheme-and-host base of `current`: up to and including its third
/// slash, or all of it plus a trailing slash when it has fewer.
fn base_prefix(cur: &Vec<char>) -> (out: Vec<char>)
    ensures
        out@ == base_of(cur@),
{
    let mut i: usize = 0;
    let mut n: usize = 3;
    while i < cur.len()
        invariant
            i <= cur@.len(),
            1 <= n <= 3,
            base_of(cur@) == prefix_slashes(cur@, i as int, n as int),
        decreases cur@.len() - i,
    {
        if cur[i] == '/' {
            if n <= 1 {
                return copy_range(cur, 0, i + 1);
            }
            n = n - 1;
        }
        i = i + 1;
    }
    let mut out = copy_range(cur, 0, cur.len());
    out.push('/');
    proof {
        assert(out@ =~= cur@ + seq!['/']);
    }
    out
}

/// Resolve `link` against the page address `current`.
pub fn get_link_destination(current: &str, link: &str) -> (r: String)
    requires
        link_resolvable(link@),
    ensures
        r@ == spec_link_destination(current@, link@),
{
    let cur = str_chars(current);
    let lnk = str_chars(link);
    if lnk.len() >= 2 && lnk[0] == '/' && lnk[1] == '/' {
        let mut out = str_chars("https:");
        crate::text::push_chars(&mut out, &lnk);
        chars_to_string(&out)
    } else if lnk.len() >= 1 && lnk[0] == '#' {
        let mut out = cur;
        crate::text::push_chars(&mut out, &lnk);
        chars_to_string(&out)
    } else if lnk.len() >= 1 && lnk[0] == '/' {
        let mut out = base_prefix(&cur);
        let rest = copy_range(&lnk, 1, lnk.len());
        proof {
            assert(rest@ =~= link@.drop_first());
        }
        crate::text::push_chars(&mut out, &rest);
        chars_to_string(&out)
    } else {
        chars_to_string(&lnk)
    }
}

/// The whitespace-delimited words of `s` from `pos` on, `cur` being the word
/// in progress.
pub open spec fn words_from(s: Seq<char>, pos: int, cur: Seq<char>) -> Seq<Seq<char>>
    decreases s.len() - pos,
{
    if 0 <= pos && pos < s.len() {
        if is_ws_char(s[pos]) {
            if cur.len() > 0 {
                seq![cur] + words_from(s, pos + 1, Seq::empty())
            } else {
                words_from(s, pos + 1, Seq::empty())
            }
        } else {
            words_from(s, pos + 1, cur + seq![s[pos]])
        }
    } else {
        if cur.len() > 0 {
            seq![cur]
        } else {
            Seq::empty()
        }
    }
}

pub open spec fn words_of(s: Seq<char>) -> Seq<Seq<char>> {
    words_from(s, 0, Seq::empty())
}

/// Greedy word packing: a word at least as wide as the target stands alone;
/// otherwise the line in progress is flushed first whenever adding the word
/// would reach the target width; every word enters the line after one space.
pub open spec fn greedy_wrap(ws: Seq<Seq<char>>, width: int, cur: Seq<char>) -> Seq<Seq<char>>
    decreases ws.len(),
{
    if ws.len() == 0 {
        if cur.len() > 0 {
            seq![cur]
        } else {
            Seq::empty()
        }
    } else {
        let w = ws[0];
        if w.len() >= width {
            (if cur.len() > 0 {
                seq![cur]
            } else {
                Seq::empty()
            }) + seq![w] + greedy_wrap(ws.drop_first(), width, Seq::empty())
        } else if cur.len() + w.len() >= width {
            seq![cur] + greedy_wrap(ws.drop_first(), width, seq![' '] + w)
        } else {
            greedy_wrap(ws.drop_first(), width, cur + seq![' '] + w)
        }
    }
}

pub open spec fn spec_wrap(s: Seq<char>, width: int) -> Seq<Seq<char>> {
    greedy_wrap(words_of(s), width, Seq::empty())
}

pub open spec fn strings_views(v: Seq<String>) -> Seq<Seq<char>> {
    v.map_values(|t: String| t@)
}

/// Word-wrap `txt` to the given width; each produced line carries the
/// leading space its first word entered with.
pub fn wrap(txt: &str, width: usize) -> (r: Vec<String>)
    ensures
        strings_views(r@) == spec_wrap(txt@, width as int),
{
    let s = str_chars(txt);
    // gather the whitespace-delimited words
    let mut words: Vec<Vec<char>> = Vec::new();
    let mut cur: Vec<char> = Vec::new();
    let mut i: usize = 0;
    while i < s.len()
        invariant
            i <= s@.len(),
            s@ == txt@,
            words_of(txt@) == words@.map_values(|w: Vec<char>| w@) + words_from(
                txt@,
                i as int,
                cur@,
            ),
        decreases s@.len() - i,
    {
        let ghost pw = words@.map_values(|w: Vec<char>| w@);
        let ghost pc = cur@;
        if is_whitespace_char(s[i]) {
            if cur.len() > 0 {
                let full = cur;
                cur = Vec::new();
                words.push(full);
                proof {
                    assert(words@.map_values(|w: Vec<char>| w@) =~= pw + seq![full@]);
                    assert(words_from(txt@, i as int, pc) == seq![pc] + words_from(
                        txt@,
                        i + 1int,
                        Seq::empty(),
                    ));
                    assert(pw + words_from(txt@, i as int, pc) =~~= (pw + seq![pc]) + words_from(
                        txt@,
                        i + 1int,
                        Seq::empty(),
                    ));
                }
            }
        } else {
            cur.push(s[i]);
            proof {
                assert(cur@ =~= pc + seq![txt@[i as int]]);
            }
        }
        i = i + 1;
    }
    if cur.len() > 0 {
        let ghost pw = words@.map_values(|w: Vec<char>| w@);
        let full = cur;
        words.push(full);
        proof {
            assert(words@.map_values(|w: Vec<char>| w@) =~= pw + seq![full@]);
        }
    }
    let ghost all_words = words@.map_values(|w: Vec<char>| w@);
    proof {
        assert(words_of(txt@) == all_words);
    }
    // pack them greedily
    let mut lines: Vec<String> = Vec::new();
    let mut line: Vec<char> = Vec::new();
    let mut k: usize = 0;
    proof {
        assert(all_words.skip(0) =~= all_words);
        assert(strings_views(lines@) + greedy_wrap(all_words, width as int, line@) =~~= greedy_wrap(
            all_words,
            width as int,
            Seq::empty(),
        ));
    }
    while k < words.len()
        invariant
            k <= words@.len(),
            all_words == words@.map_values(|w: Vec<char>| w@),
            line@.len() <= width,
            spec_wrap(txt@, width as int) == strings_views(lines@) + greedy_wrap(
                all_words.skip(k as int),
                width as int,
                line@,
            ),
        decreases words@.len() - k,
    {
        let ghost pre = strings_views(lines@);
        let ghost rem = all_words.skip(k as int);
        proof {
            assert(rem[0] == all_words[k as int]);
            assert(rem.drop_first() =~= all_words.skip(k as int + 1));
        }
        let w = &words[k];
        let ghost lp = line@;
        let ghost flushed = if lp.len() > 0 {
            seq![lp]
        } else {
            Seq::<Seq<char>>::empty()
        };
        if w.len() >= width {
            if line.len() > 0 {
                let done = chars_to_string(&line);
                line = Vec::new();
                lines.push(done);
            }
            lines.push(chars_to_string(w));
            proof {
                assert(strings_views(lines@) =~= pre + flushed + seq![w@]);
                assert(greedy_wrap(rem, width as int, lp) == flushed + seq![w@] + greedy_wrap(
                    rem.drop_first(),
                    width as int,
                    Seq::empty(),
                ));
                assert(strings_views(lines@) + greedy_wrap(
                    all_words.skip(k + 1int),
                    width as int,
                    line@,
                ) =~~= pre + greedy_wrap(rem, width as int, lp));
            }
        } else if w.len() >= width - line.len() {
            let done = chars_to_string(&line);
            line = Vec::new();
            line.push(' ');
            crate::text::push_chars(&mut line, w);
            lines.push(done);
            proof {
                assert(line@ =~= seq![' '] + w@);
                assert(strings_views(lines@) =~= pre + seq![done@]);
                assert(greedy_wrap(rem, width as int, lp) == seq![lp] + greedy_wrap(
                    rem.drop_first(),
                    width as int,
                    seq![' '] + w@,
                ));
                assert(strings_views(lines@) + greedy_wrap(
                    all_words.skip(k + 1int),
                    width as int,
                    line@,
                ) =~~= pre + greedy_wrap(rem, width as int, lp));
            }
        } else {
            line.push(' ');
            crate::text::push_chars(&mut line, w);
            proof {
                assert(line@ =~= lp + seq![' '] + w@);
                assert(greedy_wrap(rem, width as int, lp) == greedy_wrap(
                    rem.drop_first(),
                    width as int,
                    lp + seq![' '] + w@,
                ));
            }
        }
        k = k + 1;
    }
    if line.len() > 0 {
        let done = chars_to_string(&line);
        lines.push(done);
    }
    proof {
        assert(strings_views(lines@) =~= spec_wrap(txt@, width as int));
    }
    lines
}

/// A character of an ANSI select-graphic-rendition body: a digit or `;`.
pub open spec fn is_sgr_body(c: char) -> bool {
    is_dec_digit(c) || c == ';'
}

/// The index just past the maximal SGR-body run starting at `pos`.
pub open spec fn sgr_run_end(s: Seq<char>, pos: int) -> int
    decreases s.len() - pos,
{
    if 0 <= pos && pos < s.len() && is_sgr_body(s[pos]) {
        sgr_run_end(s, pos + 1)
    } else {
        pos
    }
}

/// If an ANSI style escape (`ESC [`, one or more digits or `;`, then `m`)
/// starts at `pos`, the index just past it.
pub open spec fn sgr_match_end(s: Seq<char>, pos: int) -> Option<int> {
    if 0 <= pos && pos + 2 <= s.len() && s[pos] == '\u{1B}' && s[pos + 1] == '[' {
        let e = sgr_run_end(s, pos + 2);
        if e > pos + 2 && e < s.len() && s[e] == 'm' {
            Some(e + 1)
        } else {
            None
        }
    } else {
        None
    }
}

/// The text from `pos` on with every ANSI style escape removed.
pub open spec fn strip_sgr_from(s: Seq<char>, pos: int) -> Seq<char>
    decreases s.len() - pos,
{
    if 0 <= pos && pos < s.len() {
        match sgr_match_end(s, pos) {
            Some(end) => strip_sgr_from(s, end),
            None => seq![s[pos]] + strip_sgr_from(s, pos + 1),
        }
    } else {
        Seq::empty()
    }
}

/// How many characters of `s` a terminal shows: all of them except ANSI
/// style escapes.
pub open spec fn visible_len(s: Seq<char>) -> nat {
    strip_sgr_from(s, 0).len()
}

/// Appending a character that cannot take part in a style escape does not
/// change where a body run ends.
proof fn lemma_sgr_run_end_append(s: Seq<char>, c: char, p: int)
    requires
        !is_sgr_body(c),
        0 <= p <= s.len(),
    ensures
        sgr_run_end(s.push(c), p) == sgr_run_end(s, p),
    decreases s.len() - p,
{
    let s2 = s.push(c);
    if p < s.len() && is_sgr_body(s[p]) {
        lemma_sgr_run_end_append(s, c, p + 1);
    }
}

/// Appending such a character starts or completes no style escape either.
proof fn lemma_sgr_match_append(s: Seq<char>, c: char, p: int)
    requires
        !is_sgr_body(c),
        c != '[',
        c != 'm',
        0 <= p < s.len(),
    ensures
        sgr_match_end(s.push(c), p) == sgr_match_end(s, p),
{
    let s2 = s.push(c);
    if p + 2 <= s2.len() && s2[p] == '\u{1B}' && s2[p + 1] == '[' {
        lemma_sgr_run_end_append(s, c, p + 2);
    }
}

/// Appending a plain character appends it to the stripped text.
proof fn lemma_strip_append(s: Seq<char>, c: char, p: int)
    requires
        !is_sgr_body(c),
        c != '[',
        c != 'm',
        0 <= p <= s.len(),
    ensures
        strip_sgr_from(s.push(c), p) == strip_sgr_from(s, p) + seq![c],
    decreases s.len() - p,
{
    let s2 = s.push(c);
    if p == s.len() {
        assert(sgr_match_end(s2, p) is None);
        assert(strip_sgr_from(s2, p + 1) =~= Seq::empty());
        assert(strip_sgr_from(s2, p) =~= strip_sgr_from(s, p) + seq![c]);
    } else {
        lemma_sgr_match_append(s, c, p);
        match sgr_match_end(s, p) {
            Some(end) => {
                lemma_strip_append(s, c, end);
            },
            None => {
                lemma_strip_append(s, c, p + 1);
                assert(strip_sgr_from(s2, p) =~= strip_sgr_from(s, p) + seq![c]);
            },
        }
    }
}

/// A trailing space adds one to the visible length.
pub proof fn lemma_visible_len_push_space(s: Seq<char>)
    ensures
        visible_len(s.push(' ')) == visible_len(s) + 1,
{
    lemma_strip_append(s, ' ', 0);
}

fn is_sgr_body_char(c: char) -> (r: bool)
    ensures
        r == is_sgr_body(c),
{
    ('0' <= c && c <= '9') || c == ';'
}

/// The length of `txt` as the user sees it, ANSI style escapes excluded.
pub fn get_visible_length(txt: &str) -> (r: usize)
    ensures
        r == visible_len(txt@),
{
    let s = str_chars(txt);
    let mut count: usize = 0;
    let mut i: usize = 0;
    while i < s.len()
        invariant
            i <= s@.len(),
            s@ == txt@,
            count <= i,
            visible_len(txt@) == count + strip_sgr_from(txt@, i as int).len(),
        decreases s@.len() - i,
    {
        let mut matched = false;
        if 2 <= s.len() - i && s[i] == '\u{1B}' && s[i + 1] == '[' {
            let mut j = i + 2;
            while j < s.len() && is_sgr_body_char(s[j])
                invariant
                    i + 2 <= j <= s@.len(),
                    s@ == txt@,
                    sgr_run_end(txt@, i + 2) == sgr_run_end(txt@, j as int),
                decreases s@.len() - j,
            {
                j = j + 1;
            }
            proof {
                assert(sgr_run_end(txt@, j as int) == j);
            }
            if j > i + 2 && j < s.len() && s[j] == 'm' {
                proof {
                    assert(sgr_match_end(txt@, i as int) == Some(j + 1int));
                }
                i = j + 1;
                matched = true;
            }
        }
        if !matched {
            proof {
                assert(sgr_match_end(txt@, i as int) is None);
            }
            count = count + 1;
            i = i + 1;
        }
    }
    count
}

} // verus!
