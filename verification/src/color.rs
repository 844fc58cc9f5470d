//! 8-bit RGB/RGBA colors and their `#rrggbb` / `#rrggbbaa` hex forms.
//!
//! [`Hsv`] is the hue/saturation/value form (hue in degrees); the conversions
//! between it and RGB use floating point and live outside this library.
use vstd::prelude::*;

verus! {

/// An 8-bit RGB color.
#[derive(Debug, Clone, Copy, PartialEq, Eq, Structural)]
pub struct Rgb {
    pub r: u8,
    pub g: u8,
    pub b: u8,
}

/// An 8-bit RGB color with alpha.
#[derive(Debug, Clone, Copy, PartialEq, Eq, Structural)]
pub struct Rgba {
    pub r: u8,
    pub g: u8,
    pub b: u8,
    pub a: u8,
}

/// A hue/saturation/value color: hue in degrees (`0..360`), saturation and
/// value in `0..=255`.
#[derive(Debug, Clone, Copy, PartialEq, Eq, Structural)]
pub struct Hsv {
    pub h: u16,
    pub s: u8,
    pub v: u8,
}

/// The value of a hexadecimal digit (either case).
pub open spec fn hex_digit(c: u8) -> Option<u8> {
    if 0x30 <= c <= 0x39 {
        Some((c - 0x30) as u8)
    } else if 0x61 <= c <= 0x66 {
        Some((c - 0x61 + 10) as u8)
    } else if 0x41 <= c <= 0x46 {
        Some((c - 0x41 + 10) as u8)
    } else {
        None
    }
}

/// The byte spelled by the two hexadecimal digits at `i`.
pub open spec fn hex_pair(s: Seq<u8>, i: int) -> Option<u8> {
    match (hex_digit(s[i]), hex_digit(s[i + 1])) {
        (Some(h), Some(l)) => Some((h * 16 + l) as u8),
        _ => None,
    }
}

/// `s` without one leading `#`.
pub open spec fn without_hash(s: Seq<u8>) -> Seq<u8> {
    if s.len() > 0 && s[0] == 0x23 {
        s.skip(1)
    } else {
        s
    }
}

/// The lowercase hexadecimal digit for `d < 16`.
pub open spec fn hex_char(d: u8) -> u8 {
    if d < 10 {
        (0x30 + d) as u8
    } else {
        (0x61 + d - 10) as u8
    }
}

/// The two lowercase hexadecimal digits of `v`.
pub open spec fn hex_of(v: u8) -> Seq<u8> {
    seq![hex_char(v / 16), hex_char(v % 16)]
}

/// `#rrggbb` in lowercase.
pub open spec fn rgb_hex(c: Rgb) -> Seq<u8> {
    seq![0x23u8] + hex_of(c.r) + hex_of(c.g) + hex_of(c.b)
}

/// `#rrggbbaa` in lowercase.
pub open spec fn rgba_hex(c: Rgba) -> Seq<u8> {
    seq![0x23u8] + hex_of(c.r) + hex_of(c.g) + hex_of(c.b) + hex_of(c.a)
}

/// The color spelled `rrggbb`, with an optional leading `#`.
pub open spec fn parse_rgb(s: Seq<u8>) -> Option<Rgb> {
    let t = without_hash(s);
    if t.len() != 6 {
        None
    } else {
        match (hex_pair(t, 0), hex_pair(t, 2), hex_pair(t, 4)) {
            (Some(r), Some(g), Some(b)) => Some(Rgb { r, g, b }),
            _ => None,
        }
    }
}

/// The color spelled `rrggbb` (alpha 255) or `rrggbbaa`, with an optional
/// leading `#`.
pub open spec fn parse_rgba(s: Seq<u8>) -> Option<Rgba> {
    let t = without_hash(s);
    if t.len() == 6 {
        match (hex_pair(t, 0), hex_pair(t, 2), hex_pair(t, 4)) {
            (Some(r), Some(g), Some(b)) => Some(Rgba { r, g, b, a: 255 }),
            _ => None,
        }
    } else if t.len() == 8 {
        match (hex_pair(t, 0), hex_pair(t, 2), hex_pair(t, 4), hex_pair(t, 6)) {
            (Some(r), Some(g), Some(b), Some(a)) => Some(Rgba { r, g, b, a }),
            _ => None,
        }
    } else {
        None
    }
}

fn strip_hash(s: &[u8]) -> (r: &[u8])
    ensures
        r@ == without_hash(s@),
{
    if s.len() > 0 && s[0] == 0x23 {
        vstd::slice::slice_subrange(s, 1, s.len())
    } else {
        s
    }
}

fn hex_val(c: u8) -> (r: Option<u8>)
    ensures
        r == hex_digit(c),
{
    if 0x30 <= c && c <= 0x39 {
        Some(c - 0x30)
    } else if 0x61 <= c && c <= 0x66 {
        Some(c - 0x61 + 10)
    } else if 0x41 <= c && c <= 0x46 {
        Some(c - 0x41 + 10)
    } else {
        None
    }
}

/// The byte spelled by the two hexadecimal digits at `i` of `s`.
fn hex2(s: &[u8], i: usize) -> (r: Option<u8>)
    requires
        i + 1 < s@.len(),
    ensures
        r == hex_pair(s@, i as int),
{
    let h = hex_val(s[i])?;
    let l = hex_val(s[i + 1])?;
    Some(h * 16 + l)
}

/// Write the two lowercase hexadecimal digits of `v` at `at`.
fn put_hex(out: &mut [u8], at: usize, v: u8)
    requires
        at + 1 < old(out)@.len(),
    ensures
        final(out)@ == old(out)@.update(at as int, hex_of(v)[0]).update(at + 1, hex_of(v)[1]),
{
    let hi = v / 16;
    let lo = v % 16;
    out[at] = if hi < 10 {
        0x30 + hi
    } else {
        0x61 + hi - 10
    };
    out[at + 1] = if lo < 10 {
        0x30 + lo
    } else {
        0x61 + lo - 10
    };
}

impl Rgb {
    /// Construct from components.
    pub fn new(r: u8, g: u8, b: u8) -> (c: Self)
        ensures
            c == (Rgb { r, g, b }),
    {
        Rgb { r, g, b }
    }

    /// Parse `#rrggbb` or `rrggbb` (hex digits in either case).
    pub fn from_hex(s: &[u8]) -> (c: Option<Self>)
        ensures
            c == parse_rgb(s@),
    {
        let s = strip_hash(s);
        if s.len() != 6 {
            return None;
        }
        let r = hex2(s, 0)?;
        let g = hex2(s, 2)?;
        let b = hex2(s, 4)?;
        Some(Rgb { r, g, b })
    }

    /// Write `#rrggbb` (lowercase) into the front of `buf`; `None` when `buf`
    /// is shorter than 7 bytes.
    pub fn to_hex<'a>(&self, buf: &'a mut [u8]) -> (r: Option<&'a mut [u8]>)
        ensures
            old(buf)@.len() < 7 ==> r is None && final(buf)@ == old(buf)@,
            old(buf)@.len() >= 7 ==> (r matches Some(s) && s@ == rgb_hex(*self) && final(buf)@
                == final(s)@ + old(buf)@.skip(7)),
    {
        if buf.len() < 7 {
            return None;
        }
        buf[0] = 0x23;
        put_hex(buf, 1, self.r);
        put_hex(buf, 3, self.g);
        put_hex(buf, 5, self.b);
        proof {
            assert(buf@.take(7) =~= rgb_hex(*self));
            assert(buf@.skip(7) =~= old(buf)@.skip(7));
        }
        let (head, _tail) = buf.split_at_mut(7);
        Some(head)
    }
}

impl Rgba {
    /// Construct from components.
    pub fn new(r: u8, g: u8, b: u8, a: u8) -> (c: Self)
        ensures
            c == (Rgba { r, g, b, a }),
    {
        Rgba { r, g, b, a }
    }

    /// Parse `#rrggbbaa` / `rrggbbaa`, or `#rrggbb` / `rrggbb` with alpha 255.
    pub fn from_hex(s: &[u8]) -> (c: Option<Self>)
        ensures
            c == parse_rgba(s@),
    {
        let s = strip_hash(s);
        if s.len() == 6 {
            let r = hex2(s, 0)?;
            let g = hex2(s, 2)?;
            let b = hex2(s, 4)?;
            Some(Rgba { r, g, b, a: 255 })
        } else if s.len() == 8 {
            let r = hex2(s, 0)?;
            let g = hex2(s, 2)?;
            let b = hex2(s, 4)?;
            let a = hex2(s, 6)?;
            Some(Rgba { r, g, b, a })
        } else {
            None
        }
    }

    /// Write `#rrggbbaa` (lowercase) into the front of `buf`; `None` when
    /// `buf` is shorter than 9 bytes.
    pub fn to_hex<'a>(&self, buf: &'a mut [u8]) -> (r: Option<&'a mut [u8]>)
        ensures
            old(buf)@.len() < 9 ==> r is None && final(buf)@ == old(buf)@,
            old(buf)@.len() >= 9 ==> (r matches Some(s) && s@ == rgba_hex(*self) && final(buf)@
                == final(s)@ + old(buf)@.skip(9)),
    {
        if buf.len() < 9 {
            return None;
        }
        buf[0] = 0x23;
        put_hex(buf, 1, self.r);
        put_hex(buf, 3, self.g);
        put_hex(buf, 5, self.b);
        put_hex(buf, 7, self.a);
        proof {
            assert(buf@.take(9) =~= rgba_hex(*self));
            assert(buf@.skip(9) =~= old(buf)@.skip(9));
        }
        let (head, _tail) = buf.split_at_mut(9);
        Some(head)
    }

    /// The color without its alpha.
    pub fn rgb(&self) -> (c: Rgb)
        ensures
            c == (Rgb { r: self.r, g: self.g, b: self.b }),
    {
        Rgb { r: self.r, g: self.g, b: self.b }
    }

    /// The same color with alpha `a`.
    pub fn with_alpha(self, a: u8) -> (c: Self)
        ensures
            c == (Rgba { a, ..self }),
    {
        Rgba { r: self.r, g: self.g, b: self.b, a }
    }
}

impl Default for Rgb {
    fn default() -> (c: Self)
        ensures
            c == (Rgb { r: 0, g: 0, b: 0 }),
    {
        Rgb { r: 0, g: 0, b: 0 }
    }
}

impl Default for Rgba {
    fn default() -> (c: Self)
        ensures
            c == (Rgba { r: 0, g: 0, b: 0, a: 0 }),
    {
        Rgba { r: 0, g: 0, b: 0, a: 0 }
    }
}

impl Default for Hsv {
    fn default() -> (c: Self)
        ensures
            c == (Hsv { h: 0, s: 0, v: 0 }),
    {
        Hsv { h: 0, s: 0, v: 0 }
    }
}

proof fn lemma_hex_of(v: u8)
    ensures
        hex_pair(hex_of(v), 0) == Some(v),
{
    let hi = v / 16;
    let lo = v % 16;
    assert(hex_digit(hex_char(hi)) == Some(hi));
    assert(hex_digit(hex_char(lo)) == Some(lo));
    assert((hi * 16 + lo) as u8 == v);
}

/// Parsing what [`Rgb::to_hex`] writes gives back the color.
pub proof fn lemma_rgb_hex_roundtrip(c: Rgb)
    ensures
        parse_rgb(rgb_hex(c)) == Some(c),
{
    let s = rgb_hex(c);
    let t = without_hash(s);
    assert(t =~= hex_of(c.r) + hex_of(c.g) + hex_of(c.b));
    lemma_hex_of(c.r);
    lemma_hex_of(c.g);
    lemma_hex_of(c.b);
    assert(hex_pair(t, 0) == hex_pair(hex_of(c.r), 0));
    assert(hex_pair(t, 2) == hex_pair(hex_of(c.g), 0));
    assert(hex_pair(t, 4) == hex_pair(hex_of(c.b), 0));
}

/// Parsing what [`Rgba::to_hex`] writes gives back the color.
pub proof fn lemma_rgba_hex_roundtrip(c: Rgba)
    ensures
        parse_rgba(rgba_hex(c)) == Some(c),
{
    let s = rgba_hex(c);
    let t = without_hash(s);
    assert(t =~= hex_of(c.r) + hex_of(c.g) + hex_of(c.b) + hex_of(c.a));
    lemma_hex_of(c.r);
    lemma_hex_of(c.g);
    lemma_hex_of(c.b);
    lemma_hex_of(c.a);
    assert(hex_pair(t, 0) == hex_pair(hex_of(c.r), 0));
    assert(hex_pair(t, 2) == hex_pair(hex_of(c.g), 0));
    assert(hex_pair(t, 4) == hex_pair(hex_of(c.b), 0));
    assert(hex_pair(t, 6) == hex_pair(hex_of(c.a), 0));
}

/// `s` with its lowercase ASCII letters made uppercase.
pub open spec fn ascii_upper(s: Seq<u8>) -> Seq<u8> {
    Seq::new(s.len(), |i: int| if 0x61 <= s[i] <= 0x7A { (s[i] - 32) as u8 } else { s[i] })
}

proof fn lemma_hex_digit_upper(c: u8)
    ensures
        hex_digit(if 0x61 <= c <= 0x7A { (c - 32) as u8 } else { c }) == hex_digit(c),
{
}

/// Parsing is blind to letter case: a text and its uppercase form name the
/// same color, or are both refused.
pub proof fn lemma_hex_case_blind(s: Seq<u8>)
    ensures
        parse_rgb(ascii_upper(s)) == parse_rgb(s),
        parse_rgba(ascii_upper(s)) == parse_rgba(s),
{
    let u = ascii_upper(s);
    let t = without_hash(s);
    let tu = without_hash(u);
    assert(tu =~= ascii_upper(t));
    assert forall|i: int| 0 <= i < t.len() implies hex_digit(#[trigger] tu[i]) == hex_digit(t[i]) by {
        lemma_hex_digit_upper(t[i]);
    }
    if t.len() == 6 || t.len() == 8 {
        assert(hex_digit(tu[0]) == hex_digit(t[0]) && hex_digit(tu[1]) == hex_digit(t[1]));
        assert(hex_digit(tu[2]) == hex_digit(t[2]) && hex_digit(tu[3]) == hex_digit(t[3]));
        assert(hex_digit(tu[4]) == hex_digit(t[4]) && hex_digit(tu[5]) == hex_digit(t[5]));
        if t.len() == 8 {
            assert(hex_digit(tu[6]) == hex_digit(t[6]) && hex_digit(tu[7]) == hex_digit(t[7]));
        }
    }
}

/// The hex form is `#` and lowercase hexadecimal digits only, two per
/// channel, high digit first, and spells each channel's value.
pub proof fn lemma_hex_form(c: Rgba)
    ensures
        ({
            let h = rgba_hex(c);
            let val = |d: u8| if d <= 0x39 { d - 0x30 } else { d - 0x61 + 10 };
            &&& h.len() == 9 && h[0] == 0x23
            &&& forall|i: int| 1 <= i < 9 ==> (0x30 <= #[trigger] h[i] <= 0x39) || (0x61 <= h[i]
                <= 0x66)
            &&& val(h[1]) * 16 + val(h[2]) == c.r
            &&& val(h[3]) * 16 + val(h[4]) == c.g
            &&& val(h[5]) * 16 + val(h[6]) == c.b
            &&& val(h[7]) * 16 + val(h[8]) == c.a
            &&& rgb_hex((Rgb { r: c.r, g: c.g, b: c.b })) == h.take(7)
        }),
{
    let h = rgba_hex(c);
    assert(h =~= seq![0x23u8] + hex_of(c.r) + hex_of(c.g) + hex_of(c.b) + hex_of(c.a));
    assert(rgb_hex(Rgb { r: c.r, g: c.g, b: c.b }) =~= h.take(7));
}

} // verus!
