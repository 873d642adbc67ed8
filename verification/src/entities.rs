//! Decoding of character references in markup text and of percent escapes in
//! URLs. Numeric references (`&#NN;`, `&#xHH;`) become the character with
//! that code point; a fixed table of named references is replaced one name at
//! a time; anything unrecognized stays literally in place.

use vstd::prelude::*;

verus! {

use crate::text::{
    char_from_u32, chars_to_string, copy_range, is_unicode_scalar, push_chars, str_chars,
};

/// A code point that numeric decoding accepts: a Unicode scalar value.
pub open spec fn scalar_nat(v: nat) -> bool {
    v <= 0x10FFFF && !(0xD800 <= v && v <= 0xDFFF)
}

pub open spec fn is_dec_digit(c: char) -> bool {
    '0' <= c && c <= '9'
}

pub open spec fn is_hex_digit(c: char) -> bool {
    is_dec_digit(c) || ('a' <= c && c <= 'f') || ('A' <= c && c <= 'F')
}

/// Whether `c` continues a digit run of the given numeric-entity mode.
pub open spec fn entity_digit(hexmode: bool, c: char) -> bool {
    if hexmode {
        is_hex_digit(c)
    } else {
        is_dec_digit(c)
    }
}

pub open spec fn digit_val(c: char) -> nat {
    if is_dec_digit(c) {
        (c as nat - '0' as nat) as nat
    } else if 'a' <= c && c <= 'f' {
        (c as nat - 'a' as nat + 10) as nat
    } else if 'A' <= c && c <= 'F' {
        (c as nat - 'A' as nat + 10) as nat
    } else {
        0
    }
}

/// The index just past the maximal digit run starting at `pos`.
pub open spec fn run_end(s: Seq<char>, pos: int, hexmode: bool) -> int
    decreases s.len() - pos,
{
    if 0 <= pos && pos < s.len() && entity_digit(hexmode, s[pos]) {
        run_end(s, pos + 1, hexmode)
    } else {
        pos
    }
}

/// The numeric value of a digit run, most significant digit first.
pub open spec fn run_val(s: Seq<char>, radix: nat) -> nat
    decreases s.len(),
{
    if s.len() == 0 {
        0
    } else {
        run_val(s.drop_last(), radix) * radix + digit_val(s.last())
    }
}

/// If a numeric entity of the given mode starts at `pos`, its value and the
/// index just past its closing `;`.
pub open spec fn entity_match(s: Seq<char>, pos: int, hexmode: bool) -> Option<(nat, int)> {
    let start: int = if hexmode {
        pos + 3
    } else {
        pos + 2
    };
    let radix: nat = if hexmode {
        16
    } else {
        10
    };
    if 0 <= pos && start <= s.len() && s[pos] == '&' && s[pos + 1] == '#' && (!hexmode || s[pos
        + 2] == 'x') {
        let e = run_end(s, start, hexmode);
        if e > start && e < s.len() && s[e] == ';' {
            Some((run_val(s.subrange(start, e), radix), e + 1))
        } else {
            None
        }
    } else {
        None
    }
}

/// What one numeric entity with value `v` and source text `src` becomes: the
/// character with code point `v` if that is a Unicode scalar value, otherwise
/// the source text unchanged.
pub open spec fn entity_replacement(v: nat, src: Seq<char>) -> Seq<char> {
    if scalar_nat(v) {
        seq![v as char]
    } else {
        src
    }
}

/// The text from `pos` on with every numeric entity of the given mode
/// decoded, scanning left to right past each match.
pub open spec fn decode_numeric_from(s: Seq<char>, pos: int, hexmode: bool) -> Seq<char>
    decreases s.len() - pos,
{
    if 0 <= pos && pos < s.len() {
        match entity_match(s, pos, hexmode) {
            Some((v, end)) => entity_replacement(v, s.subrange(pos, end)) + decode_numeric_from(
                s,
                end,
                hexmode,
            ),
            None => seq![s[pos]] + decode_numeric_from(s, pos + 1, hexmode),
        }
    } else {
        Seq::empty()
    }
}

pub open spec fn decode_numeric(s: Seq<char>, hexmode: bool) -> Seq<char> {
    decode_numeric_from(s, 0, hexmode)
}

pub fn is_dec_digit_char(c: char) -> (r: bool)
    ensures
        r == is_dec_digit(c),
{
    '0' <= c && c <= '9'
}

pub fn is_hex_digit_char(c: char) -> (r: bool)
    ensures
        r == is_hex_digit(c),
{
    ('0' <= c && c <= '9') || ('a' <= c && c <= 'f') || ('A' <= c && c <= 'F')
}

fn entity_digit_char(hexmode: bool, c: char) -> (r: bool)
    ensures
        r == entity_digit(hexmode, c),
{
    if hexmode {
        is_hex_digit_char(c)
    } else {
        is_dec_digit_char(c)
    }
}

fn digit_val_char(c: char) -> (r: u32)
    requires
        is_hex_digit(c),
    ensures
        r == digit_val(c),
{
    if '0' <= c && c <= '9' {
        c as u32 - '0' as u32
    } else if 'a' <= c && c <= 'f' {
        c as u32 - 'a' as u32 + 10
    } else {
        c as u32 - 'A' as u32 + 10
    }
}

/// Decodes every numeric entity of one mode in `s`.
fn decode_numeric_pass(s: &Vec<char>, hexmode: bool) -> (r: Vec<char>)
    ensures
        r@ == decode_numeric(s@, hexmode),
{
    let prefix_len: usize = if hexmode {
        3
    } else {
        2
    };
    let radix: u64 = if hexmode {
        16
    } else {
        10
    };
    let mut out: Vec<char> = Vec::new();
    let mut i: usize = 0;
    while i < s.len()
        invariant
            i <= s@.len(),
            prefix_len == if hexmode { 3int } else { 2int },
            radix == if hexmode { 16int } else { 10int },
            decode_numeric(s@, hexmode) == out@ + decode_numeric_from(s@, i as int, hexmode),
        decreases s@.len() - i,
    {
        let ghost pre = out@;
        let mut matched = false;
        if prefix_len <= s.len() - i && s[i] == '&' && s[i + 1] == '#' && (!hexmode || s[i + 2]
            == 'x') {
            let start = i + prefix_len;
            let mut j = start;
            let mut acc: u64 = 0;
            let mut over = false;
            while j < s.len() && entity_digit_char(hexmode, s[j])
                invariant
                    start <= j <= s@.len(),
                    radix == if hexmode { 16int } else { 10int },
                    start < s@.len() ==> start <= j,
                    run_end(s@, start as int, hexmode) == run_end(s@, j as int, hexmode),
                    forall|k: int|
                        start <= k < j ==> entity_digit(hexmode, #[trigger] s@[k]),
                    !over ==> acc == run_val(s@.subrange(start as int, j as int), radix as nat)
                        && acc <= 0xFFFF_FFFF,
                    over ==> run_val(s@.subrange(start as int, j as int), radix as nat)
                        > 0xFFFF_FFFF,
                decreases s@.len() - j,
            {
                let d = digit_val_char(s[j]);
                proof {
                    let sub1 = s@.subrange(start as int, j + 1int);
                    assert(sub1.drop_last() =~= s@.subrange(start as int, j as int));
                    assert(run_val(sub1, radix as nat) == run_val(
                        s@.subrange(start as int, j as int),
                        radix as nat,
                    ) * (radix as nat) + digit_val(s@[j as int]));
                }
                if !over {
                    acc = acc * radix + d as u64;
                    if acc > 0xFFFF_FFFF {
                        over = true;
                    }
                } else {
                    proof {
                        let v = run_val(s@.subrange(start as int, j as int), radix as nat);
                        assert(run_val(s@.subrange(start as int, j + 1int), radix as nat) >= v);
                    }
                }
                j = j + 1;
            }
            // j is now the end of the digit run
            proof {
                assert(run_end(s@, j as int, hexmode) == j);
            }
            if j > start && j < s.len() && s[j] == ';' {
                // a numeric entity spans i..j+1
                proof {
                    assert(entity_match(s@, i as int, hexmode) == Some(
                        (run_val(s@.subrange(start as int, j as int), radix as nat), j + 1int),
                    ));
                }
                let scalar_ok = !over && acc <= 0x10FFFF && !(0xD800 <= acc && acc <= 0xDFFF);
                if scalar_ok {
                    let c = char_from_u32(acc as u32).unwrap();
                    out.push(c);
                } else {
                    let src = copy_range(s, i, j + 1);
                    push_chars(&mut out, &src);
                }
                proof {
                    let v = run_val(s@.subrange(start as int, j as int), radix as nat);
                    if scalar_ok {
                        assert(entity_replacement(v, s@.subrange(i as int, j + 1int)) =~= seq![
                            (v as char),
                        ]);
                        assert(out@ =~= pre + entity_replacement(
                            v,
                            s@.subrange(i as int, j + 1int),
                        ));
                    } else {
                        assert(!scalar_nat(v));
                    }
                }
                i = j + 1;
                matched = true;
            }
        }
        if !matched {
            proof {
                assert(entity_match(s@, i as int, hexmode) is None);
            }
            out.push(s[i]);
            proof {
                assert(out@ =~= pre + seq![s@[i as int]]);
            }
            i = i + 1;
        }
    }
    proof {
        assert(decode_numeric(s@, hexmode) =~= out@);
    }
    out
}

/// The text from `pos` on with every occurrence of `pat` replaced by `to`,
/// scanning left to right past each match.
pub open spec fn replace_lit_from(s: Seq<char>, pat: Seq<char>, to: Seq<char>, pos: int) -> Seq<
    char,
>
    decreases s.len() - pos,
{
    if 0 <= pos && pos < s.len() {
        if pat.len() > 0 && pos + pat.len() <= s.len() && s.subrange(pos, pos + pat.len()) == pat {
            to + replace_lit_from(s, pat, to, pos + pat.len())
        } else {
            seq![s[pos]] + replace_lit_from(s, pat, to, pos + 1)
        }
    } else {
        Seq::empty()
    }
}

pub open spec fn replace_lit(s: Seq<char>, pat: Seq<char>, to: Seq<char>) -> Seq<char> {
    replace_lit_from(s, pat, to, 0)
}

/// Whether `pat` occurs in `s` starting at index `i`.
fn matches_at(s: &Vec<char>, i: usize, pat: &Vec<char>) -> (r: bool)
    requires
        i <= s@.len(),
    ensures
        r == (i + pat@.len() <= s@.len() && s@.subrange(i as int, i + pat@.len()) == pat@),
{
    if pat.len() > s.len() - i {
        return false;
    }
    let mut k: usize = 0;
    while k < pat.len()
        invariant
            k <= pat@.len(),
            i + pat@.len() <= s@.len() <= usize::MAX,
            forall|m: int| 0 <= m < k ==> s@[i + m] == pat@[m],
        decreases pat@.len() - k,
    {
        assert(i + k < s@.len());
        if s[i + k] != pat[k] {
            proof {
                assert(s@.subrange(i as int, i + pat@.len())[k as int] != pat@[k as int]);
            }
            return false;
        }
        k = k + 1;
    }
    proof {
        assert(s@.subrange(i as int, i + pat@.len()) =~= pat@);
    }
    true
}

/// Replaces every occurrence of `pat` in `s` by `to`.
fn replace_literal(s: &Vec<char>, pat: &Vec<char>, to: &Vec<char>) -> (r: Vec<char>)
    requires
        pat@.len() > 0,
    ensures
        r@ == replace_lit(s@, pat@, to@),
{
    let mut out: Vec<char> = Vec::new();
    let mut i: usize = 0;
    while i < s.len()
        invariant
            i <= s@.len(),
            pat@.len() > 0,
            replace_lit(s@, pat@, to@) == out@ + replace_lit_from(s@, pat@, to@, i as int),
        decreases s@.len() - i,
    {
        let ghost pre = out@;
        if matches_at(s, i, pat) {
            push_chars(&mut out, to);
            i = i + pat.len();
        } else {
            out.push(s[i]);
            proof {
                assert(out@ =~= pre + seq![s@[i as int]]);
            }
            i = i + 1;
        }
    }
    proof {
        assert(replace_lit(s@, pat@, to@) =~= out@);
    }
    out
}

/// One named-reference replacement pass, `name` (with `&` and `;`) to `to`.
fn replace_named(s: Vec<char>, name: &str, to: &str) -> (r: Vec<char>)
    requires
        name@.len() > 0,
    ensures
        r@ == replace_lit(s@, name@, to@),
{
    let pat = str_chars(name);
    let t = str_chars(to);
    replace_literal(&s, &pat, &t)
}

/// The named references every text run decodes, applied in this order.
pub open spec fn apply_common_named(s: Seq<char>) -> Seq<char> {
    let s1 = replace_lit(s, "&nbsp;"@, " "@);
    let s2 = replace_lit(s1, "&lt;"@, "<"@);
    let s3 = replace_lit(s2, "&gt;"@, ">"@);
    let s4 = replace_lit(s3, "&amp;"@, "&"@);
    let s5 = replace_lit(s4, "&quot;"@, "\""@);
    let s6 = replace_lit(s5, "&apos;"@, "'"@);
    let s7 = replace_lit(s6, "&cent;"@, "\u{00A2}"@);
    let s8 = replace_lit(s7, "&pound;"@, "\u{00A3}"@);
    let s9 = replace_lit(s8, "&yen;"@, "\u{00A5}"@);
    let s10 = replace_lit(s9, "&euro;"@, "\u{20AC}"@);
    let s11 = replace_lit(s10, "&copy;"@, "\u{00A9}"@);
    replace_lit(s11, "&reg;"@, "\u{00AE}"@)
}

/// What `transform_text` returns: both numeric passes, then the common
/// named-reference table.
pub open spec fn spec_transform_text(s: Seq<char>) -> Seq<char> {
    apply_common_named(decode_numeric(decode_numeric(s, true), false))
}

/// The extended named-reference table of `transform_html_text`: the common
/// table and six further typographic names.
pub open spec fn spec_transform_html_text(s: Seq<char>) -> Seq<char> {
    let s0 = apply_common_named(decode_numeric(decode_numeric(s, true), false));
    let s1 = replace_lit(s0, "&trade;"@, "\u{2122}"@);
    let s2 = replace_lit(s1, "&ndash;"@, "\u{2013}"@);
    let s3 = replace_lit(s2, "&mdash;"@, "\u{2014}"@);
    let s4 = replace_lit(s3, "&asymp;"@, "\u{2248}"@);
    let s5 = replace_lit(s4, "&ne;"@, "\u{2260}"@);
    replace_lit(s5, "&deg;"@, "\u{00B0}"@)
}

fn common_named_passes(v: Vec<char>) -> (r: Vec<char>)
    ensures
        r@ == apply_common_named(v@),
{
    proof {
        reveal_strlit("&nbsp;");
        reveal_strlit("&lt;");
        reveal_strlit("&gt;");
        reveal_strlit("&amp;");
        reveal_strlit("&quot;");
        reveal_strlit("&apos;");
        reveal_strlit("&cent;");
        reveal_strlit("&pound;");
        reveal_strlit("&yen;");
        reveal_strlit("&euro;");
        reveal_strlit("&copy;");
        reveal_strlit("&reg;");
    }
    let v = replace_named(v, "&nbsp;", " ");
    let v = replace_named(v, "&lt;", "<");
    let v = replace_named(v, "&gt;", ">");
    let v = replace_named(v, "&amp;", "&");
    let v = replace_named(v, "&quot;", "\"");
    let v = replace_named(v, "&apos;", "'");
    let v = replace_named(v, "&cent;", "\u{00A2}");
    let v = replace_named(v, "&pound;", "\u{00A3}");
    let v = replace_named(v, "&yen;", "\u{00A5}");
    let v = replace_named(v, "&euro;", "\u{20AC}");
    let v = replace_named(v, "&copy;", "\u{00A9}");
    replace_named(v, "&reg;", "\u{00AE}")
}

/// Decode the character references a text run may hold: hex entities, then
/// decimal entities, then the common named table.
pub fn transform_text(input: &str) -> (r: String)
    ensures
        r@ == spec_transform_text(input@),
{
    let v = str_chars(input);
    let v = decode_numeric_pass(&v, true);
    let v = decode_numeric_pass(&v, false);
    let v = common_named_passes(v);
    chars_to_string(&v)
}

/// Decode character references with the extended named table.
pub fn transform_html_text(input: &str) -> (r: String)
    ensures
        r@ == spec_transform_html_text(input@),
{
    let v = str_chars(input);
    let v = decode_numeric_pass(&v, true);
    let v = decode_numeric_pass(&v, false);
    let v = common_named_passes(v);
    proof {
        reveal_strlit("&trade;");
        reveal_strlit("&ndash;");
        reveal_strlit("&mdash;");
        reveal_strlit("&asymp;");
        reveal_strlit("&ne;");
        reveal_strlit("&deg;");
    }
    let v = replace_named(v, "&trade;", "\u{2122}");
    let v = replace_named(v, "&ndash;", "\u{2013}");
    let v = replace_named(v, "&mdash;", "\u{2014}");
    let v = replace_named(v, "&asymp;", "\u{2248}");
    let v = replace_named(v, "&ne;", "\u{2260}");
    let v = replace_named(v, "&deg;", "\u{00B0}");
    chars_to_string(&v)
}


// ---- percent escapes in URLs ----
/// What one `%HH` escape becomes: the ASCII punctuation range 32..=47 maps
/// to its character, every other code is removed.
pub open spec fn url_escape_replacement(v: int) -> Seq<char> {
    if v == 32 { seq![' '] }
    else if v == 33 { seq!['!'] }
    else if v == 34 { seq!['"'] }
    else if v == 35 { seq!['#'] }
    else if v == 36 { seq!['$'] }
    else if v == 37 { seq!['%'] }
    else if v == 38 { seq!['&'] }
    else if v == 39 { seq!['\''] }
    else if v == 40 { seq!['('] }
    else if v == 41 { seq![')'] }
    else if v == 42 { seq!['*'] }
    else if v == 43 { seq!['+'] }
    else if v == 44 { seq![','] }
    else if v == 45 { seq!['-'] }
    else if v == 46 { seq!['.'] }
    else if v == 47 { seq!['/'] }
    else { Seq::empty() }
}

/// If a `%HH` escape (exactly two hex digits) starts at `pos`, its value.
pub open spec fn url_escape_match(s: Seq<char>, pos: int) -> Option<int> {
    if 0 <= pos && pos + 3 <= s.len() && s[pos] == '%' && is_hex_digit(s[pos + 1]) && is_hex_digit(
        s[pos + 2],
    ) {
        Some(16 * digit_val(s[pos + 1]) + digit_val(s[pos + 2]) as int)
    } else {
        None
    }
}

/// The text from `pos` on with every `%HH` escape decoded.
pub open spec fn decode_percent_from(s: Seq<char>, pos: int) -> Seq<char>
    decreases s.len() - pos,
{
    if 0 <= pos && pos < s.len() {
        match url_escape_match(s, pos) {
            Some(v) => url_escape_replacement(v) + decode_percent_from(s, pos + 3),
            None => seq![s[pos]] + decode_percent_from(s, pos + 1),
        }
    } else {
        Seq::empty()
    }
}

pub open spec fn spec_transform_url_text(s: Seq<char>) -> Seq<char> {
    decode_percent_from(s, 0)
}

/// Decode the `%HH` escapes of a URL.
pub fn transform_url_text(input: &str) -> (r: String)
    ensures
        r@ == spec_transform_url_text(input@),
{
    let s = str_chars(input);
    let mut out: Vec<char> = Vec::new();
    let mut i: usize = 0;
    while i < s.len()
        invariant
            i <= s@.len(),
            s@ == input@,
            spec_transform_url_text(input@) == out@ + decode_percent_from(input@, i as int),
        decreases s@.len() - i,
    {
        let ghost pre = out@;
        if 3 <= s.len() - i && s[i] == '%' && is_hex_digit_char(s[i + 1]) && is_hex_digit_char(
            s[i + 2],
        ) {
            let v = digit_val_char(s[i + 1]) * 16 + digit_val_char(s[i + 2]);
            if v == 32 { out.push(' '); }
            else if v == 33 { out.push('!'); }
            else if v == 34 { out.push('"'); }
            else if v == 35 { out.push('#'); }
            else if v == 36 { out.push('$'); }
            else if v == 37 { out.push('%'); }
            else if v == 38 { out.push('&'); }
            else if v == 39 { out.push('\''); }
            else if v == 40 { out.push('('); }
            else if v == 41 { out.push(')'); }
            else if v == 42 { out.push('*'); }
            else if v == 43 { out.push('+'); }
            else if v == 44 { out.push(','); }
            else if v == 45 { out.push('-'); }
            else if v == 46 { out.push('.'); }
            else if v == 47 { out.push('/'); }
            proof {
                assert(url_escape_match(input@, i as int) == Some(v as int));
                assert(out@ =~= pre + url_escape_replacement(v as int));
            }
            i = i + 3;
        } else {
            proof {
                assert(url_escape_match(input@, i as int) is None);
            }
            out.push(s[i]);
            proof {
                assert(out@ =~= pre + seq![input@[i as int]]);
            }
            i = i + 1;
        }
    }
    proof {
        assert(spec_transform_url_text(input@) =~= out@);
    }
    chars_to_string(&out)
}

} // verus!
