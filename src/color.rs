//! The wavelength colour gradient and the hex colour decoder it is built on.

use vstd::prelude::*;
use vstd::arithmetic::div_mod::{
    lemma_div_is_ordered,
    lemma_div_multiples_vanish,
    lemma_fundamental_div_mod,
    lemma_fundamental_div_mod_converse,
};
use vstd::arithmetic::mul::lemma_mul_inequality;

verus! {

/// An RGB colour: red, green and blue channels.
pub type Color = (u8, u8, u8);

pub open spec fn is_hex_digit(c: char) -> bool {
    ('0' <= c && c <= '9') || ('a' <= c && c <= 'f') || ('A' <= c && c <= 'F')
}

pub open spec fn hex_digit_value(c: char) -> int {
    if '0' <= c && c <= '9' {
        c as int - '0' as int
    } else if 'a' <= c && c <= 'f' {
        c as int - 'a' as int + 10
    } else {
        c as int - 'A' as int + 10
    }
}

/// A colour written `#RRGGBB`, each channel as two hexadecimal digits.
pub open spec fn is_hex_color(s: Seq<char>) -> bool {
    &&& s.len() == 7
    &&& s[0] == '#'
    &&& forall|i: int| 1 <= i < 7 ==> is_hex_digit(#[trigger] s[i])
}

/// The byte written by the two hex digits at `i` and `i + 1`.
pub open spec fn hex_byte(s: Seq<char>, i: int) -> int {
    16 * hex_digit_value(s[i]) + hex_digit_value(s[i + 1])
}

pub open spec fn hex_color(s: Seq<char>) -> Color {
    (hex_byte(s, 1) as u8, hex_byte(s, 3) as u8, hex_byte(s, 5) as u8)
}

fn hex_digit(c: char) -> (r: u8)
    requires
        is_hex_digit(c),
    ensures
        r == hex_digit_value(c),
        r < 16,
{
    if '0' <= c && c <= '9' {
        (c as u32 - '0' as u32) as u8
    } else if 'a' <= c && c <= 'f' {
        (c as u32 - 'a' as u32 + 10) as u8
    } else {
        (c as u32 - 'A' as u32 + 10) as u8
    }
}

fn hex_pair(hex: &str, i: usize) -> (r: u8)
    requires
        i < 6,
        i + 1 < hex@.len(),
        is_hex_digit(hex@[i as int]),
        is_hex_digit(hex@[i + 1]),
    ensures
        r == hex_byte(hex@, i as int),
{
    let hi = hex_digit(hex.get_char(i));
    let lo = hex_digit(hex.get_char(i + 1));
    hi * 16 + lo
}

/// Decodes a colour written `#RRGGBB`; upper and lower case digits are accepted.
pub fn hex_to_rgb(hex: &str) -> (r: Color)
    requires
        is_hex_color(hex@),
    ensures
        r == hex_color(hex@),
{
    let r = hex_pair(hex, 1);
    let g = hex_pair(hex, 3);
    let b = hex_pair(hex, 5);
    (r, g, b)
}

/// The band boundaries of the gradient, in nanometres.
pub open spec fn anchor_wavelength(i: int) -> int {
    if i == 0 {
        380
    } else if i == 1 {
        439
    } else if i == 2 {
        489
    } else if i == 3 {
        509
    } else if i == 4 {
        579
    } else if i == 5 {
        644
    } else {
        780
    }
}

/// The colour at each band boundary, written in hex.
pub open spec fn anchor_hex(i: int) -> Seq<char> {
    if i == 0 {
        "#000000"@
    } else if i == 1 {
        "#05F2DB"@
    } else if i == 2 {
        "#05C7F2"@
    } else if i == 3 {
        "#3805F2"@
    } else if i == 4 {
        "#7C05F2"@
    } else if i == 5 {
        "#F205CB"@
    } else {
        "#000000"@
    }
}

pub open spec fn anchor_color(i: int) -> Color {
    hex_color(anchor_hex(i))
}

/// One channel moved linearly from `a` towards `b`, `t` steps out of `len`,
/// rounded down.
pub open spec fn blend_channel(a: int, b: int, t: int, len: int) -> int {
    a + (b - a) * t / len
}

pub open spec fn blend(start: int, end: int, wave: int, c1: Color, c2: Color) -> Color {
    (
        blend_channel(c1.0 as int, c2.0 as int, wave - start, end - start) as u8,
        blend_channel(c1.1 as int, c2.1 as int, wave - start, end - start) as u8,
        blend_channel(c1.2 as int, c2.2 as int, wave - start, end - start) as u8,
    )
}

/// The colour of band `i` (between anchors `i` and `i + 1`) at `wave`.
pub open spec fn band_color(i: int, wave: int) -> Color {
    blend(
        anchor_wavelength(i),
        anchor_wavelength(i + 1),
        wave,
        anchor_color(i),
        anchor_color(i + 1),
    )
}

/// The band that holds `wave`, for `380 <= wave < 780`.
pub open spec fn band_of(wave: int) -> int {
    if wave < 439 {
        0
    } else if wave < 489 {
        1
    } else if wave < 509 {
        2
    } else if wave < 579 {
        3
    } else if wave < 644 {
        4
    } else {
        5
    }
}

pub open spec fn wavelength_color(wave: int) -> Color {
    if wave < 380 || wave >= 780 {
        (0, 0, 0)
    } else {
        band_color(band_of(wave), wave)
    }
}

proof fn lemma_blend_channel_between(a: int, b: int, t: int, len: int)
    requires
        0 <= t <= len,
        0 < len,
    ensures
        a <= b ==> a <= blend_channel(a, b, t, len) <= b,
        b <= a ==> b <= blend_channel(a, b, t, len) <= a,
{
    lemma_div_multiples_vanish(b - a, len);
    assert((b - a) * len == len * (b - a)) by (nonlinear_arith);
    if a <= b {
        lemma_mul_inequality(0, t, b - a);
        lemma_mul_inequality(t, len, b - a);
        assert((b - a) * t == t * (b - a)) by (nonlinear_arith);
        assert(0 * (b - a) == 0);
        lemma_div_is_ordered(0, (b - a) * t, len);
        lemma_div_is_ordered((b - a) * t, (b - a) * len, len);
    } else {
        lemma_mul_inequality(0, t, a - b);
        lemma_mul_inequality(t, len, a - b);
        assert((b - a) * t == -(t * (a - b))) by (nonlinear_arith);
        assert((b - a) * len == -(len * (a - b))) by (nonlinear_arith);
        lemma_div_is_ordered((b - a) * t, 0, len);
        lemma_div_is_ordered((b - a) * len, (b - a) * t, len);
    }
}

/// Division rounding down of a non-positive numerator, through the rounded-up
/// quotient of its magnitude.
proof fn lemma_floor_div_negated(n: int, len: int)
    requires
        0 <= n,
        0 < len,
    ensures
        (-n) / len == -((n + len - 1) / len),
{
    let q = (n + len - 1) / len;
    let r = (n + len - 1) % len;
    lemma_fundamental_div_mod(n + len - 1, len);
    assert(0 <= r < len);
    assert(-n == (-q) * len + (len - 1 - r)) by (nonlinear_arith)
        requires
            n + len - 1 == len * q + r,
    ;
    lemma_fundamental_div_mod_converse(-n, len, -q, len - 1 - r);
}

fn blend_one(a: u8, b: u8, t: u32, len: u32) -> (r: u8)
    requires
        0 < len,
        t <= len,
    ensures
        r == blend_channel(a as int, b as int, t as int, len as int),
{
    proof {
        lemma_blend_channel_between(a as int, b as int, t as int, len as int);
    }
    if a <= b {
        let d = (b - a) as u64;
        assert(d * (t as u64) <= 255 * 0x1_0000_0000) by (nonlinear_arith)
            requires
                d <= 255,
                t <= 0xffff_ffff,
        ;
        let up = d * (t as u64) / (len as u64);
        assert(a + up <= b);
        a + up as u8
    } else {
        let d = (a - b) as u64;
        assert(d * (t as u64) <= 255 * 0x1_0000_0000) by (nonlinear_arith)
            requires
                d <= 255,
                t <= 0xffff_ffff,
        ;
        let n = d * (t as u64);
        let down = (n + (len as u64) - 1) / (len as u64);
        proof {
            lemma_floor_div_negated(n as int, len as int);
            assert((b - a) * t == -(n as int)) by (nonlinear_arith)
                requires
                    n == (a - b) * t,
            ;
        }
        a - down as u8
    }
}

/// Linear interpolation between `c1` at `start` and `c2` at `end`, each
/// channel on its own, rounded down.
pub fn color_blend_norm(start: u32, end: u32, wave: u32, c1: Color, c2: Color) -> (r: Color)
    requires
        start < end,
        start <= wave <= end,
    ensures
        r == blend(start as int, end as int, wave as int, c1, c2),
{
    let t = wave - start;
    let len = end - start;
    (blend_one(c1.0, c2.0, t, len), blend_one(c1.1, c2.1, t, len), blend_one(c1.2, c2.2, t, len))
}

/// The anchor colours decoded from their hex form, in band order.
fn anchor_colors() -> (r: Vec<Color>)
    ensures
        r@.len() == 7,
        forall|i: int| 0 <= i < 7 ==> #[trigger] r@[i] == anchor_color(i),
{
    proof {
        reveal_strlit("#000000");
        reveal_strlit("#05F2DB");
        reveal_strlit("#05C7F2");
        reveal_strlit("#3805F2");
        reveal_strlit("#7C05F2");
        reveal_strlit("#F205CB");
    }
    let mut colors: Vec<Color> = Vec::new();
    colors.push(hex_to_rgb("#000000"));
    colors.push(hex_to_rgb("#05F2DB"));
    colors.push(hex_to_rgb("#05C7F2"));
    colors.push(hex_to_rgb("#3805F2"));
    colors.push(hex_to_rgb("#7C05F2"));
    colors.push(hex_to_rgb("#F205CB"));
    colors.push(hex_to_rgb("#000000"));
    colors
}

proof fn lemma_blend_at_start(a: int, b: int, len: int)
    requires
        0 < len,
    ensures
        blend_channel(a, b, 0, len) == a,
{
    assert((b - a) * 0 == 0);
}

proof fn lemma_outer_anchors_black()
    ensures
        anchor_color(0) == (0u8, 0u8, 0u8),
        anchor_color(6) == (0u8, 0u8, 0u8),
{
    reveal_strlit("#000000");
}

/// The colour of a wavelength: black outside `[380, 780)`, and inside it the
/// linear blend between the two anchor colours of its band.
pub fn wavelength_to_rgb(wavelength: u32) -> (r: Color)
    ensures
        r == wavelength_color(wavelength as int),
        wavelength < 380 || wavelength >= 780 ==> r == (0u8, 0u8, 0u8),
        forall|i: int|
            0 <= i < 7 && wavelength == #[trigger] anchor_wavelength(i) ==> r == anchor_color(i),
{
    let colors = anchor_colors();
    let r = if wavelength < 380 || wavelength >= 780 {
        (0, 0, 0)
    } else if wavelength < 439 {
        color_blend_norm(380, 439, wavelength, colors[0], colors[1])
    } else if wavelength < 489 {
        color_blend_norm(439, 489, wavelength, colors[1], colors[2])
    } else if wavelength < 509 {
        color_blend_norm(489, 509, wavelength, colors[2], colors[3])
    } else if wavelength < 579 {
        color_blend_norm(509, 579, wavelength, colors[3], colors[4])
    } else if wavelength < 644 {
        color_blend_norm(579, 644, wavelength, colors[4], colors[5])
    } else {
        color_blend_norm(644, 780, wavelength, colors[5], colors[6])
    };
    proof {
        lemma_outer_anchors_black();
        assert forall|i: int|
            0 <= i < 7 && wavelength == #[trigger] anchor_wavelength(i) implies r == anchor_color(
                i,
            ) by {
            if 0 <= i < 6 {
                let (a, b) = (anchor_color(i), anchor_color(i + 1));
                let len = anchor_wavelength(i + 1) - anchor_wavelength(i);
                lemma_blend_at_start(a.0 as int, b.0 as int, len);
                lemma_blend_at_start(a.1 as int, b.1 as int, len);
                lemma_blend_at_start(a.2 as int, b.2 as int, len);
            }
        }
    }
    r
}

/// Within one band every channel moves monotonically with the wavelength:
/// it never falls where the band's end colour is at least its start colour
/// on that channel, and never rises where it is at most.
pub proof fn lemma_band_channels_monotonic(i: int, w1: int, w2: int)
    requires
        0 <= i < 6,
        anchor_wavelength(i) <= w1 <= w2 < anchor_wavelength(i + 1),
    ensures
        anchor_color(i).0 <= anchor_color(i + 1).0 ==> wavelength_color(w1).0 <= wavelength_color(w2).0,
        anchor_color(i).0 >= anchor_color(i + 1).0 ==> wavelength_color(w1).0 >= wavelength_color(w2).0,
        anchor_color(i).1 <= anchor_color(i + 1).1 ==> wavelength_color(w1).1 <= wavelength_color(w2).1,
        anchor_color(i).1 >= anchor_color(i + 1).1 ==> wavelength_color(w1).1 >= wavelength_color(w2).1,
        anchor_color(i).2 <= anchor_color(i + 1).2 ==> wavelength_color(w1).2 <= wavelength_color(w2).2,
        anchor_color(i).2 >= anchor_color(i + 1).2 ==> wavelength_color(w1).2 >= wavelength_color(w2).2,
{
    let start = anchor_wavelength(i);
    let len = anchor_wavelength(i + 1) - start;
    assert(band_of(w1) == i && band_of(w2) == i);
    let (a, b) = (anchor_color(i), anchor_color(i + 1));
    lemma_blend_channel_monotonic(a.0 as int, b.0 as int, w1 - start, w2 - start, len);
    lemma_blend_channel_monotonic(a.1 as int, b.1 as int, w1 - start, w2 - start, len);
    lemma_blend_channel_monotonic(a.2 as int, b.2 as int, w1 - start, w2 - start, len);
}

proof fn lemma_blend_channel_monotonic(a: int, b: int, t1: int, t2: int, len: int)
    requires
        0 <= a < 256,
        0 <= b < 256,
        0 <= t1 <= t2 <= len,
        0 < len,
    ensures
        blend_channel(a, b, t1, len) as u8 == blend_channel(a, b, t1, len),
        blend_channel(a, b, t2, len) as u8 == blend_channel(a, b, t2, len),
        a <= b ==> blend_channel(a, b, t1, len) <= blend_channel(a, b, t2, len),
        a >= b ==> blend_channel(a, b, t1, len) >= blend_channel(a, b, t2, len),
{
    lemma_blend_channel_between(a, b, t1, len);
    lemma_blend_channel_between(a, b, t2, len);
    if a <= b {
        lemma_mul_inequality(t1, t2, b - a);
        assert((b - a) * t1 == t1 * (b - a) && (b - a) * t2 == t2 * (b - a)) by (nonlinear_arith);
        lemma_div_is_ordered((b - a) * t1, (b - a) * t2, len);
    } else {
        lemma_mul_inequality(t1, t2, a - b);
        assert((b - a) * t1 == -(t1 * (a - b)) && (b - a) * t2 == -(t2 * (a - b))) by (nonlinear_arith);
        lemma_div_is_ordered((b - a) * t2, (b - a) * t1, len);
    }
}

} // verus!
