//! The image approximator: decode bytes into an RGBA raster, fit it to the
//! terminal, and average each cell's pixels into one colored block glyph.

use vstd::prelude::*;

verus! {

use crate::text::chars_to_string;
use crate::types::terminal_line::{line_of, TerminalLine};
use crate::utils::{rgb_to_256, spec_rgb_to_256};
use vstd::arithmetic::div_mod::{lemma_div_is_ordered, lemma_fundamental_div_mod};

/// How large to draw an image: squash it to the terminal's height if it is
/// too tall, then squish it to the width if it is still too long,
/// preserving the aspect ratio.
pub open spec fn spec_img_viewport(img: (int, int), term: (int, int)) -> (int, int) {
    let w2 = if img.1 > term.1 {
        img.0 * term.1 / img.1
    } else {
        img.0
    };
    let h2 = if img.1 > term.1 {
        term.1
    } else {
        img.1
    };
    if w2 > term.0 {
        (term.0, h2 * term.0 / w2)
    } else {
        (w2, h2)
    }
}

/// Given the size of an image and the terminal, figure out how big to make
/// the image.
pub fn get_img_viewport(img: (u32, u32), term: (u32, u32)) -> (r: (u32, u32))
    requires
        img.0 as int * term.1 as int <= u32::MAX,
        img.1 as int * term.0 as int <= u32::MAX,
        term.0 as int * term.1 as int <= u32::MAX,
    ensures
        (r.0 as int, r.1 as int) == spec_img_viewport(
            (img.0 as int, img.1 as int),
            (term.0 as int, term.1 as int),
        ),
{
    let (img_w, img_h) = img;
    let (term_w, term_h) = term;
    let (img_w_2, img_h_2) = if img_h > term_h {
        proof {
            lemma_div_is_ordered(
                img_w as int * term_h as int,
                img_w as int * term_h as int,
                img_h as int,
            );
        }
        (img_w * term_h / img_h, term_h)
    } else {
        (img_w, img_h)
    };
    if img_w_2 > term_w {
        proof {
            if img_h > term_h {
                assert(img_h_2 == term_h);
                assert((term_h as int) * (term_w as int) <= u32::MAX) by (nonlinear_arith)
                    requires
                        (term_w as int) * (term_h as int) <= u32::MAX,
                ;
            } else {
                assert(img_h_2 == img_h);
                assert((img_h as int) * (term_w as int) <= u32::MAX) by (nonlinear_arith)
                    requires
                        (img_h as int) * (term_w as int) <= u32::MAX,
                ;
            }
        }
        (term_w, img_h_2 * term_w / img_w_2)
    } else {
        (img_w_2, img_h_2)
    }
}

/// A decoded raster: RGBA bytes, four per pixel, row-major.
#[derive(Debug)]
pub struct Raster {
    pub width: u32,
    pub height: u32,
    pub pixels: Vec<u8>,
}

impl Raster {
    pub open spec fn wf(&self) -> bool {
        self.pixels@.len() == 4 * (self.width as int) * (self.height as int)
    }
}

/// What decoding a byte stream yields, if anything: the raster's width,
/// height and RGBA bytes. A fixed function of the bytes alone.
pub uninterp spec fn image_decode(bytes: Seq<u8>) -> Option<(nat, nat, Seq<u8>)>;

/// Relies on `image::ImageReader`: `with_guessed_format` sniffs the format
/// from the bytes, `decode` reads them, and `to_rgba8` lays the result out
/// as four bytes per pixel, row-major, width times height pixels.
#[verifier::external_body]
fn decode_raster(bytes: &Vec<u8>) -> (r: Option<Raster>)
    ensures
        match image_decode(bytes@) {
            Some(t) => (r matches Some(img) && img.width as nat == t.0 && img.height as nat == t.1
                && img.pixels@ == t.2 && img.wf()),
            None => r is None,
        },
{
    let reader = image::ImageReader::new(std::io::Cursor::new(bytes.as_slice()));
    let guessed = reader.with_guessed_format().ok()?;
    let img = guessed.decode().ok()?.to_rgba8();
    let (width, height) = img.dimensions();
    Some(Raster { width, height, pixels: img.into_raw() })
}

/// Pure function to get an image from the byte stream.
pub fn get_image(bytes: &Vec<u8>) -> (r: Result<Raster, String>)
    ensures
        match image_decode(bytes@) {
            None => (r matches Err(m) && m@ == "Decoding Error"@),
            Some(t) => if t.0 == 0 && t.1 == 0 {
                r matches Err(m) && m@ == "Empty Image"@
            } else {
                r matches Ok(img) && img.width as nat == t.0 && img.height as nat == t.1
                    && img.pixels@ == t.2 && img.wf()
            },
        },
{
    match decode_raster(bytes) {
        None => Err(String::from_str("Decoding Error")),
        Some(img) => {
            if img.width == 0 && img.height == 0 {
                Err(String::from_str("Empty Image"))
            } else {
                Ok(img)
            }
        },
    }
}

// ---- box averages ----
/// One pixel's alpha-weighted channel: `channel * alpha / 256`.
pub open spec fn pix_val(px: Seq<u8>, w: int, x: int, y: int, ch: int) -> int {
    (px[4 * (y * w + x) + ch] as int) * (px[4 * (y * w + x) + 3] as int) / 256
}

/// The sum of one channel over columns `cs..=ce` of row `y`.
pub open spec fn sum_row(px: Seq<u8>, w: int, y: int, cs: int, ce: int, ch: int) -> int
    decreases ce + 1 - cs,
{
    if cs > ce {
        0
    } else {
        pix_val(px, w, cs, y, ch) + sum_row(px, w, y, cs + 1, ce, ch)
    }
}

/// The sum of one channel over the box `rs..=re` by `cs..=ce`.
pub open spec fn sum_box(px: Seq<u8>, w: int, rs: int, re: int, cs: int, ce: int, ch: int) -> int
    decreases re + 1 - rs,
{
    if rs > re {
        0
    } else {
        sum_row(px, w, rs, cs, ce, ch) + sum_box(px, w, rs + 1, re, cs, ce, ch)
    }
}

proof fn lemma_sum_row_bound(px: Seq<u8>, w: int, y: int, cs: int, ce: int, ch: int)
    ensures
        0 <= sum_row(px, w, y, cs, ce, ch) <= (if ce + 1 - cs >= 0 {
            255 * (ce + 1 - cs)
        } else {
            0
        }),
    decreases ce + 1 - cs,
{
    if cs <= ce {
        lemma_sum_row_bound(px, w, y, cs + 1, ce, ch);
        let i = 4 * (y * w + cs);
        assert(0 <= (px[i + ch] as int) * (px[i + 3] as int) <= 255 * 255) by (nonlinear_arith)
            requires
                0 <= px[i + ch] as int <= 255,
                0 <= px[i + 3] as int <= 255,
        ;
        assert(0 <= pix_val(px, w, cs, y, ch) <= 255);
    }
}

proof fn lemma_sum_box_bound(px: Seq<u8>, w: int, rs: int, re: int, cs: int, ce: int, ch: int)
    requires
        cs <= ce + 1,
    ensures
        0 <= sum_box(px, w, rs, re, cs, ce, ch) <= (if re + 1 - rs >= 0 {
            255 * (re + 1 - rs) * (ce + 1 - cs)
        } else {
            0
        }),
    decreases re + 1 - rs,
{
    if rs <= re {
        lemma_sum_box_bound(px, w, rs + 1, re, cs, ce, ch);
        lemma_sum_row_bound(px, w, rs, cs, ce, ch);
        assert(255 * (re + 1 - rs) * (ce + 1 - cs) == 255 * (ce + 1 - cs) + 255 * (re - rs) * (ce
            + 1 - cs)) by (nonlinear_arith);
    }
}

/// The average color of one cell of the fitted grid, each channel
/// alpha-weighted and averaged over the cell's pixels.
fn cell_avg(px: &Vec<u8>, w: u32, h: u32, rs: u32, re: u32, cs: u32, ce: u32) -> (r: (
    usize,
    usize,
    usize,
))
    requires
        px@.len() == 4 * (w as int) * (h as int),
        rs <= re < h,
        cs <= ce < w,
    ensures
        ({
            let count = (re + 1 - rs) * (ce + 1 - cs);
            &&& r.0 == sum_box(px@, w as int, rs as int, re as int, cs as int, ce as int, 0)
                / count
            &&& r.1 == sum_box(px@, w as int, rs as int, re as int, cs as int, ce as int, 1)
                / count
            &&& r.2 == sum_box(px@, w as int, rs as int, re as int, cs as int, ce as int, 2)
                / count
            &&& r.0 < 256 && r.1 < 256 && r.2 < 256
        }),
{
    let n = px.len();
    let mut sr: u128 = 0;
    let mut sg: u128 = 0;
    let mut sb: u128 = 0;
    let ghost wi = w as int;
    let mut y = rs;
    while y <= re
        invariant
            wi == w as int,
            px@.len() == 4 * (w as int) * (h as int),
            px@.len() <= usize::MAX,
            rs <= re < h,
            cs <= ce < w,
            rs <= y <= re + 1,
            sr <= 255 * (y - rs) * (ce + 1 - cs),
            sg <= 255 * (y - rs) * (ce + 1 - cs),
            sb <= 255 * (y - rs) * (ce + 1 - cs),
            sum_box(px@, wi, rs as int, re as int, cs as int, ce as int, 0) == sr + sum_box(
                px@, wi, y as int, re as int, cs as int, ce as int, 0),
            sum_box(px@, wi, rs as int, re as int, cs as int, ce as int, 1) == sg + sum_box(
                px@, wi, y as int, re as int, cs as int, ce as int, 1),
            sum_box(px@, wi, rs as int, re as int, cs as int, ce as int, 2) == sb + sum_box(
                px@, wi, y as int, re as int, cs as int, ce as int, 2),
        decreases re + 1 - y,
    {
        let ghost sr0 = sr;
        let ghost sg0 = sg;
        let ghost sb0 = sb;
        let mut x = cs;
        while x <= ce
            invariant
                wi == w as int,
                px@.len() == 4 * (w as int) * (h as int),
                px@.len() <= usize::MAX,
                rs <= y <= re < h,
                cs <= x <= ce + 1,
                cs <= ce < w,
                sr0 <= 255 * (y - rs) * (ce + 1 - cs),
                sg0 <= 255 * (y - rs) * (ce + 1 - cs),
                sb0 <= 255 * (y - rs) * (ce + 1 - cs),
                sr <= sr0 + 255 * (x - cs),
                sg <= sg0 + 255 * (x - cs),
                sb <= sb0 + 255 * (x - cs),
                sum_row(px@, wi, y as int, cs as int, ce as int, 0) == (sr - sr0) + sum_row(
                    px@, wi, y as int, x as int, ce as int, 0),
                sum_row(px@, wi, y as int, cs as int, ce as int, 1) == (sg - sg0) + sum_row(
                    px@, wi, y as int, x as int, ce as int, 1),
                sum_row(px@, wi, y as int, cs as int, ce as int, 2) == (sb - sb0) + sum_row(
                    px@, wi, y as int, x as int, ce as int, 2),
            decreases ce + 1 - x,
        {
            proof {
                assert((y as int) * (w as int) + (x as int) < (w as int) * (h as int))
                    by (nonlinear_arith)
                    requires
                        0 <= (y as int),
                        (y as int) <= (h as int) - 1,
                        0 <= (x as int),
                        (x as int) < (w as int),
                        (w as int) >= 1,
                        (h as int) >= 1,
                ;
                assert(4 * ((y as int) * (w as int) + (x as int)) + 3 < 4 * (w as int) * (
                h as int)) by (nonlinear_arith)
                    requires
                        (y as int) * (w as int) + (x as int) < (w as int) * (h as int),
                ;
            }
            proof {
                assert((y as int) * (w as int) >= 0) by (nonlinear_arith)
                    requires
                        0 <= (y as int),
                        0 <= (w as int),
                ;
            }
            let yw: usize = (y as usize) * (w as usize) + (x as usize);
            let base: usize = 4 * yw;
            let a = px[base + 3] as u128;
            proof {
                assert((px@[base as int] as int) * (a as int) <= 65025) by (nonlinear_arith)
                    requires
                        (px@[base as int] as int) <= 255,
                        0 <= (a as int) <= 255,
                ;
                assert((px@[base as int + 1] as int) * (a as int) <= 65025) by (nonlinear_arith)
                    requires
                        (px@[base as int + 1] as int) <= 255,
                        0 <= (a as int) <= 255,
                ;
                assert((px@[base as int + 2] as int) * (a as int) <= 65025) by (nonlinear_arith)
                    requires
                        (px@[base as int + 2] as int) <= 255,
                        0 <= (a as int) <= 255,
                ;
            }
            let pr = px[base] as u128 * a / 256;
            let pg = px[base + 1] as u128 * a / 256;
            let pb = px[base + 2] as u128 * a / 256;
            proof {
                assert(sr + pr <= u128::MAX && sg + pg <= u128::MAX && sb + pb <= u128::MAX)
                    by (nonlinear_arith)
                    requires
                        pr <= 255 && pg <= 255 && pb <= 255,
                        sr <= sr0 + 255 * ((x as int) - cs),
                        sg <= sg0 + 255 * ((x as int) - cs),
                        sb <= sb0 + 255 * ((x as int) - cs),
                        sr0 <= 255 * ((y as int) - rs) * (ce + 1 - cs),
                        sg0 <= 255 * ((y as int) - rs) * (ce + 1 - cs),
                        sb0 <= 255 * ((y as int) - rs) * (ce + 1 - cs),
                        0 <= (x as int) - cs < 0x1_0000_0000,
                        0 <= (y as int) - rs < 0x1_0000_0000,
                        0 < ce + 1 - cs <= 0x1_0000_0000,
                ;
            }
            proof {
                assert(pr <= 255 && pg <= 255 && pb <= 255);
                assert(pr == pix_val(px@, wi, x as int, y as int, 0));
                assert(pg == pix_val(px@, wi, x as int, y as int, 1));
                assert(pb == pix_val(px@, wi, x as int, y as int, 2));
                assert(sr0 + 255 * ((x as int) + 1 - cs) <= 255 * ((y as int) - rs) * (ce + 1 - cs)
                    + 255 * ((x as int) + 1 - cs));
            }
            sr = sr + pr;
            sg = sg + pg;
            sb = sb + pb;
            x = x + 1;
        }
        proof {
            assert(sr - sr0 == sum_row(px@, wi, y as int, cs as int, ce as int, 0));
            assert((sr - sr0) <= 255 * (ce + 1 - cs)) by {
                lemma_sum_row_bound(px@, wi, y as int, cs as int, ce as int, 0);
            }
            assert((sg - sg0) <= 255 * (ce + 1 - cs)) by {
                lemma_sum_row_bound(px@, wi, y as int, cs as int, ce as int, 1);
            }
            assert((sb - sb0) <= 255 * (ce + 1 - cs)) by {
                lemma_sum_row_bound(px@, wi, y as int, cs as int, ce as int, 2);
            }
            assert(255 * ((y as int) - rs) * (ce + 1 - cs) + 255 * (ce + 1 - cs) == 255 * ((
            y as int) + 1 - rs) * (ce + 1 - cs)) by (nonlinear_arith);
        }
        y = y + 1;
    }
    proof {
        assert(rs <= re && cs <= ce);
        assert(((re - rs) as int + 1) * ((ce - cs) as int + 1) <= 0x1_0000_0000_0000_0000)
            by (nonlinear_arith)
            requires
                0 <= (re - rs) as int + 1 <= 0x1_0000_0000,
                0 <= (ce - cs) as int + 1 <= 0x1_0000_0000,
        ;
    }
    let count: u128 = ((re - rs) as u128 + 1) * ((ce - cs) as u128 + 1);
    proof {
        assert(count == (re + 1 - rs) * (ce + 1 - cs));
        assert(count >= 1) by (nonlinear_arith)
            requires
                re + 1 - rs >= 1,
                ce + 1 - cs >= 1,
                count == (re + 1 - rs) * (ce + 1 - cs),
        ;
        assert(sr <= 255 * count && sg <= 255 * count && sb <= 255 * count) by (nonlinear_arith)
            requires
                count == (re + 1 - rs) * (ce + 1 - cs),
                sr <= 255 * ((re as int) + 1 - rs) * (ce + 1 - cs),
                sg <= 255 * ((re as int) + 1 - rs) * (ce + 1 - cs),
                sb <= 255 * ((re as int) + 1 - rs) * (ce + 1 - cs),
        ;
        assert(sr / count <= 255 && sg / count <= 255 && sb / count <= 255) by (nonlinear_arith)
            requires
                count >= 1,
                0 <= sr && sr <= 255 * count,
                0 <= sg && sg <= 255 * count,
                0 <= sb && sb <= 255 * count,
        ;
    }
    ((sr / count) as usize, (sg / count) as usize, (sb / count) as usize)
}

/// The decimal digit characters.
pub open spec fn digit_char(d: int) -> char {
    if d == 0 { '0' }
    else if d == 1 { '1' }
    else if d == 2 { '2' }
    else if d == 3 { '3' }
    else if d == 4 { '4' }
    else if d == 5 { '5' }
    else if d == 6 { '6' }
    else if d == 7 { '7' }
    else if d == 8 { '8' }
    else { '9' }
}

/// The decimal digits of `n`, most significant first.
pub open spec fn dec_digits(n: int) -> Seq<char>
    decreases n,
{
    if n < 10 {
        seq![digit_char(n)]
    } else {
        dec_digits(n / 10) + seq![digit_char(n % 10)]
    }
}

fn digit_of(d: usize) -> (r: char)
    requires
        d < 10,
    ensures
        r == digit_char(d as int),
{
    if d == 0 { '0' }
    else if d == 1 { '1' }
    else if d == 2 { '2' }
    else if d == 3 { '3' }
    else if d == 4 { '4' }
    else if d == 5 { '5' }
    else if d == 6 { '6' }
    else if d == 7 { '7' }
    else if d == 8 { '8' }
    else { '9' }
}

/// `n` written in decimal.
fn dec_chars(n: usize) -> (r: Vec<char>)
    ensures
        r@ == dec_digits(n as int),
    decreases n,
{
    if n < 10 {
        let mut v: Vec<char> = Vec::new();
        v.push(digit_of(n));
        proof {
            assert(v@ =~= dec_digits(n as int));
        }
        v
    } else {
        let mut v = dec_chars(n / 10);
        v.push(digit_of(n % 10));
        proof {
            assert(v@ =~= dec_digits(n as int / 10) + seq![digit_char(n as int % 10)]);
        }
        v
    }
}

/// One cell's glyph: the block character under a 256-color escape carrying
/// both the cube index and the exact color.
pub open spec fn spec_glyph(r: int, g: int, b: int) -> Seq<char> {
    "\u{1B}[38;5;"@ + dec_digits(spec_rgb_to_256(r, g, b)) + ";38;2;"@ + dec_digits(r) + ";"@
        + dec_digits(g) + ";"@ + dec_digits(b) + "m\u{2588}\u{1B}[0m"@
}

fn glyph_chars(rgb: (usize, usize, usize)) -> (r: Vec<char>)
    requires
        rgb.0 < 256,
        rgb.1 < 256,
        rgb.2 < 256,
    ensures
        r@ == spec_glyph(rgb.0 as int, rgb.1 as int, rgb.2 as int),
{
    let cube = rgb_to_256(rgb);
    let mut v = crate::text::str_chars("\u{1B}[38;5;");
    let d0 = dec_chars(cube as usize);
    crate::text::push_chars(&mut v, &d0);
    let sep = crate::text::str_chars(";38;2;");
    crate::text::push_chars(&mut v, &sep);
    let d1 = dec_chars(rgb.0);
    crate::text::push_chars(&mut v, &d1);
    let semi = crate::text::str_chars(";");
    crate::text::push_chars(&mut v, &semi);
    let d2 = dec_chars(rgb.1);
    crate::text::push_chars(&mut v, &d2);
    crate::text::push_chars(&mut v, &semi);
    let d3 = dec_chars(rgb.2);
    crate::text::push_chars(&mut v, &d3);
    let tail = crate::text::str_chars("m\u{2588}\u{1B}[0m");
    crate::text::push_chars(&mut v, &tail);
    v
}

/// For `0 <= a < d` and `n >= 1`: `a*n/d` stays within `0..=n-1`.
proof fn lemma_grid_cell(a: int, n: int, d: int)
    requires
        0 <= a < d,
        1 <= n,
        1 <= d,
    ensures
        0 <= a * n / d <= n - 1,
{
    let q = a * n / d;
    lemma_fundamental_div_mod(a * n, d);
    assert(0 <= a * n) by (nonlinear_arith)
        requires
            0 <= a,
            0 <= n,
    ;
    lemma_div_is_ordered(0, a * n, d);
    assert(a * n <= d * n - n) by (nonlinear_arith)
        requires
            a <= d - 1,
            n >= 0,
    ;
    if q >= n {
        assert(d * q >= d * n) by (nonlinear_arith)
            requires
                q >= n,
                d >= 1,
        ;
        assert(false);
    }
}

/// The average color of one cell of the fitted `tw` by `th` grid.
pub open spec fn cell_rgb(px: Seq<u8>, w: int, h: int, tw: int, th: int, row: int, c: int) -> (
    int,
    int,
    int,
) {
    let rs = row * h / th;
    let re = if (row + 1) * h / th <= h - 1 {
        (row + 1) * h / th
    } else {
        h - 1
    };
    let cs = c * w / tw;
    let ce = if (c + 1) * w / tw <= w - 1 {
        (c + 1) * w / tw
    } else {
        w - 1
    };
    let count = (re + 1 - rs) * (ce + 1 - cs);
    (
        sum_box(px, w, rs, re, cs, ce, 0) / count,
        sum_box(px, w, rs, re, cs, ce, 1) / count,
        sum_box(px, w, rs, re, cs, ce, 2) / count,
    )
}

/// One row of glyphs, from column `c` on.
pub open spec fn row_cells(px: Seq<u8>, w: int, h: int, tw: int, th: int, row: int, c: int) -> Seq<
    char,
>
    decreases tw - c,
{
    if c < tw {
        let rgb = cell_rgb(px, w, h, tw, th, row, c);
        spec_glyph(rgb.0, rgb.1, rgb.2) + row_cells(px, w, h, tw, th, row, c + 1)
    } else {
        Seq::empty()
    }
}

/// The grid the approximator draws for a raster on a terminal of the given
/// size: one line of glyphs per fitted grid row.
pub open spec fn spec_approximate(px: Seq<u8>, w: int, h: int, term: (int, int)) -> Seq<Seq<char>> {
    let dims = spec_img_viewport((2 * w, h), (term.0 - 1, term.1));
    Seq::new(dims.1 as nat, |row: int| row_cells(px, w, h, dims.0, dims.1, row, 0))
}

/// Approximate the image as a list of terminal lines, given a specific
/// terminal size.
pub fn approximate_image(img: &Raster, term_size: (u32, u32)) -> (r: Vec<TerminalLine>)
    requires
        img.wf(),
        img.width >= 1,
        img.height >= 1,
        term_size.0 >= 1,
        2 * (img.width as int) <= u32::MAX,
        2 * (img.width as int) * (term_size.1 as int) <= u32::MAX,
        (img.height as int) * ((term_size.0 - 1) as int) <= u32::MAX,
        ((term_size.0 - 1) as int) * (term_size.1 as int) <= u32::MAX,
        spec_img_viewport(
            (2 * (img.width as int), img.height as int),
            ((term_size.0 - 1) as int, term_size.1 as int),
        ).1 >= 1,
    ensures
        ({
            let rows = spec_approximate(
                img.pixels@,
                img.width as int,
                img.height as int,
                (term_size.0 as int, term_size.1 as int),
            );
            &&& r@.len() == rows.len()
            &&& forall|i: int|
                0 <= i < r@.len() ==> (#[trigger] r@[i])@ == crate::types::terminal_line::line_of(
                    rows[i],
                ) && r@[i].wf()
        }),
{
    let w = img.width;
    let h = img.height;
    let (term_width, term_height) = get_img_viewport((w * 2, h), (term_size.0 - 1, term_size.1));
    let ghost rows = spec_approximate(
        img.pixels@,
        w as int,
        h as int,
        (term_size.0 as int, term_size.1 as int),
    );
    proof {
        assert(2 * (w as int) == (w as int) * 2);
        assert(rows.len() == term_height);
    }
    let mut out: Vec<TerminalLine> = Vec::new();
    let mut row: u32 = 0;
    while row < term_height
        invariant
            img.wf(),
            w == img.width >= 1,
            h == img.height >= 1,
            term_height >= 1,
            row <= term_height,
            rows.len() == term_height,
            rows == spec_approximate(
                img.pixels@,
                w as int,
                h as int,
                (term_size.0 as int, term_size.1 as int),
            ),
            (term_width as int, term_height as int) == spec_img_viewport(
                (2 * (w as int), h as int),
                ((term_size.0 - 1) as int, term_size.1 as int),
            ),
            out@.len() == row,
            forall|i: int|
                0 <= i < row ==> (#[trigger] out@[i])@ == crate::types::terminal_line::line_of(
                    rows[i],
                ) && out@[i].wf(),
        decreases term_height - row,
    {
        proof {
            lemma_grid_cell(row as int, h as int, term_height as int);
            assert(0 <= (row as int) * (h as int) <= (row as int + 1) * (h as int))
                by (nonlinear_arith)
                requires
                    (h as int) >= 0,
                    (row as int) >= 0,
            ;
            lemma_div_is_ordered(
                (row as int) * (h as int),
                (row as int + 1) * (h as int),
                term_height as int,
            );
            assert((row as int) * (h as int) < 0x1_0000_0000_0000_0000) by (nonlinear_arith)
                requires
                    0 <= (row as int) <= 0xFFFF_FFFF,
                    0 <= (h as int) <= 0xFFFF_FFFF,
            ;
            assert((row as int + 1) * (h as int) < 0x1_0000_0000_0000_0000) by (nonlinear_arith)
                requires
                    0 <= (row as int) + 1 <= 0x1_0000_0000,
                    0 <= (h as int) <= 0xFFFF_FFFF,
            ;
        }
        let rs64 = row as u64 * h as u64 / term_height as u64;
        let re64a = (row as u64 + 1) * h as u64 / term_height as u64;
        let re64 = if re64a <= h as u64 - 1 {
            re64a
        } else {
            h as u64 - 1
        };
        let rs = rs64 as u32;
        let re = re64 as u32;
        let mut line: Vec<char> = Vec::new();
        let mut c: u32 = 0;
        while c < term_width
            invariant
                img.wf(),
                w == img.width >= 1,
                h == img.height >= 1,
                term_height >= 1,
                row < term_height,
                c <= term_width,
                rs as int == (row as int) * (h as int) / (term_height as int),
                re as int == (if (row as int + 1) * (h as int) / (term_height as int) <= (h as int)
                    - 1 {
                    (row as int + 1) * (h as int) / (term_height as int)
                } else {
                    (h as int) - 1
                }),
                rs <= re < h,
                row_cells(
                    img.pixels@,
                    w as int,
                    h as int,
                    term_width as int,
                    term_height as int,
                    row as int,
                    0,
                ) == line@ + row_cells(
                    img.pixels@,
                    w as int,
                    h as int,
                    term_width as int,
                    term_height as int,
                    row as int,
                    c as int,
                ),
            decreases term_width - c,
        {
            proof {
                lemma_grid_cell(c as int, w as int, term_width as int);
                assert(0 <= (c as int) * (w as int) <= (c as int + 1) * (w as int))
                    by (nonlinear_arith)
                    requires
                        (w as int) >= 0,
                        (c as int) >= 0,
                ;
                lemma_div_is_ordered(
                    (c as int) * (w as int),
                    (c as int + 1) * (w as int),
                    term_width as int,
                );
                assert((c as int) * (w as int) < 0x1_0000_0000_0000_0000) by (nonlinear_arith)
                    requires
                        0 <= (c as int) <= 0xFFFF_FFFF,
                        0 <= (w as int) <= 0xFFFF_FFFF,
                ;
                assert((c as int + 1) * (w as int) < 0x1_0000_0000_0000_0000) by (nonlinear_arith)
                    requires
                        0 <= (c as int) + 1 <= 0x1_0000_0000,
                        0 <= (w as int) <= 0xFFFF_FFFF,
                ;
            }
            let cs64 = c as u64 * w as u64 / term_width as u64;
            let ce64a = (c as u64 + 1) * w as u64 / term_width as u64;
            let ce64 = if ce64a <= w as u64 - 1 {
                ce64a
            } else {
                w as u64 - 1
            };
            let cs = cs64 as u32;
            let ce = ce64 as u32;
            let rgb = cell_avg(&img.pixels, w, h, rs, re, cs, ce);
            let gl = glyph_chars(rgb);
            let ghost lp = line@;
            crate::text::push_chars(&mut line, &gl);
            proof {
                let spec_rgb = cell_rgb(
                    img.pixels@,
                    w as int,
                    h as int,
                    term_width as int,
                    term_height as int,
                    row as int,
                    c as int,
                );
                assert((rgb.0 as int, rgb.1 as int, rgb.2 as int) == spec_rgb);
                assert(lp + (spec_glyph(spec_rgb.0, spec_rgb.1, spec_rgb.2) + row_cells(
                    img.pixels@,
                    w as int,
                    h as int,
                    term_width as int,
                    term_height as int,
                    row as int,
                    c as int + 1,
                )) =~= line@ + row_cells(
                    img.pixels@,
                    w as int,
                    h as int,
                    term_width as int,
                    term_height as int,
                    row as int,
                    c as int + 1,
                ));
            }
            c = c + 1;
        }
        proof {
            assert(line@ + Seq::<char>::empty() =~= line@);
        }
        let tl = TerminalLine::from_text(chars_to_string(&line));
        out.push(tl);
        proof {
            assert(rows[row as int] == row_cells(
                img.pixels@,
                w as int,
                h as int,
                term_width as int,
                term_height as int,
                row as int,
                0,
            ));
        }
        row = row + 1;
    }
    out
}

} // verus!
