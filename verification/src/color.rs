//! RGBA colours and their CSS hex form (`#rgb`, `#rrggbb`, `#rrggbbaa`).

use vstd::prelude::*;
use crate::text::{chars_of, push_char};

verus! {

/// An RGBA colour, each channel 0–255. At the JSON / colour-input / SVG
/// boundaries it is written as `#rrggbb` when opaque and `#rrggbbaa` otherwise.
#[derive(Clone, Copy, Debug, PartialEq, Eq, Structural)]
pub struct Color {
    pub r: u8,
    pub g: u8,
    pub b: u8,
    pub a: u8,
}

/// The value of one hex digit (either case).
pub open spec fn hex_digit(c: char) -> Option<u8> {
    if '0' <= c && c <= '9' {
        Some((c as int - '0' as int) as u8)
    } else if 'a' <= c && c <= 'f' {
        Some((c as int - 'a' as int + 10) as u8)
    } else if 'A' <= c && c <= 'F' {
        Some((c as int - 'A' as int + 10) as u8)
    } else {
        None
    }
}

/// A two-char channel: exactly two hex digits, high digit first.
pub open spec fn parse_byte(c0: char, c1: char) -> Option<u8> {
    match (hex_digit(c0), hex_digit(c1)) {
        (Some(hi), Some(lo)) => Some((hi * 16 + lo) as u8),
        _ => None,
    }
}

/// A one-char channel of the short form, doubled (`f` is `ff`).
pub open spec fn parse_nibble(c: char) -> Option<u8> {
    match hex_digit(c) {
        Some(v) => Some((v * 17) as u8),
        None => None,
    }
}

/// The text without one leading `#`, if it has one.
pub open spec fn strip_hash(s: Seq<char>) -> Seq<char> {
    if s.len() > 0 && s[0] == '#' {
        s.drop_first()
    } else {
        s
    }
}

pub open spec fn all_ascii(s: Seq<char>) -> bool {
    forall|i: int| 0 <= i < s.len() ==> (#[trigger] s[i] as u32) < 128
}

/// What `Color::from_hex` gives for the text `s`.
pub open spec fn spec_from_hex(s: Seq<char>) -> Option<Color> {
    let t = strip_hash(s);
    if !all_ascii(t) {
        None
    } else if t.len() == 3 {
        match (parse_nibble(t[0]), parse_nibble(t[1]), parse_nibble(t[2])) {
            (Some(r), Some(g), Some(b)) => Some(Color { r, g, b, a: 255 }),
            _ => None,
        }
    } else if t.len() == 6 {
        match (parse_byte(t[0], t[1]), parse_byte(t[2], t[3]), parse_byte(t[4], t[5])) {
            (Some(r), Some(g), Some(b)) => Some(Color { r, g, b, a: 255 }),
            _ => None,
        }
    } else if t.len() == 8 {
        match (
            parse_byte(t[0], t[1]),
            parse_byte(t[2], t[3]),
            parse_byte(t[4], t[5]),
            parse_byte(t[6], t[7]),
        ) {
            (Some(r), Some(g), Some(b), Some(a)) => Some(Color { r, g, b, a }),
            _ => None,
        }
    } else {
        None
    }
}

/// The lower-case hex digit of a value below 16.
pub open spec fn digit_char(v: int) -> char {
    if v < 10 {
        ('0' as int + v) as char
    } else {
        ('a' as int + v - 10) as char
    }
}

/// Two lower-case hex digits of a byte.
pub open spec fn hex_byte(v: u8) -> Seq<char> {
    seq![digit_char(v as int / 16), digit_char(v as int % 16)]
}

/// What `Color::to_hex` gives: `#rrggbb` when opaque, else `#rrggbbaa`.
pub open spec fn spec_to_hex(c: Color) -> Seq<char> {
    let rgb = seq!['#'] + hex_byte(c.r) + hex_byte(c.g) + hex_byte(c.b);
    if c.a == 255 {
        rgb
    } else {
        rgb + hex_byte(c.a)
    }
}

fn hex_digit_exec(c: char) -> (r: Option<u8>)
    ensures
        r == hex_digit(c),
{
    if '0' <= c && c <= '9' {
        Some((c as u32 - '0' as u32) as u8)
    } else if 'a' <= c && c <= 'f' {
        Some((c as u32 - 'a' as u32 + 10) as u8)
    } else if 'A' <= c && c <= 'F' {
        Some((c as u32 - 'A' as u32 + 10) as u8)
    } else {
        None
    }
}

fn parse_byte_exec(c0: char, c1: char) -> (r: Option<u8>)
    ensures
        r == parse_byte(c0, c1),
{
    match (hex_digit_exec(c0), hex_digit_exec(c1)) {
        (Some(hi), Some(lo)) => Some(hi * 16 + lo),
        _ => None,
    }
}

fn parse_nibble_exec(c: char) -> (r: Option<u8>)
    ensures
        r == parse_nibble(c),
{
    match hex_digit_exec(c) {
        Some(v) => Some(v * 17),
        None => None,
    }
}

fn digit_char_exec(v: u8) -> (r: char)
    requires
        v < 16,
    ensures
        r == digit_char(v as int),
{
    if v < 10 {
        ((48u8 + v) as char)
    } else {
        ((87u8 + v) as char)
    }
}

fn push_hex_byte(s: &mut String, v: u8)
    ensures
        final(s)@ == old(s)@ + hex_byte(v),
{
    push_char(s, digit_char_exec(v / 16));
    push_char(s, digit_char_exec(v % 16));
    assert(s@ =~= old(s)@ + hex_byte(v));
}

impl Color {
    /// An opaque colour.
    pub fn rgb(r: u8, g: u8, b: u8) -> (c: Color)
        ensures
            c == (Color { r, g, b, a: 255 }),
    {
        Color { r, g, b, a: 255 }
    }

    /// A colour with the given alpha.
    pub fn rgba(r: u8, g: u8, b: u8, a: u8) -> (c: Color)
        ensures
            c == (Color { r, g, b, a }),
    {
        Color { r, g, b, a }
    }

    /// Reads CSS hex (`#rgb` / `#rrggbb` / `#rrggbbaa`, the `#` optional);
    /// `None` when the text is not one of these.
    pub fn from_hex(s: &str) -> (r: Option<Color>)
        ensures
            r == spec_from_hex(s@),
    {
        let all = chars_of(s);
        let start: usize = if all.len() > 0 && all[0] == '#' { 1 } else { 0 };
        let ghost t = strip_hash(s@);
        assert(t =~= all@.subrange(start as int, all@.len() as int));
        let n = all.len() - start;
        let mut i: usize = start;
        while i < all.len()
            invariant
                start <= i <= all@.len(),
                all@ == s@,
                t == all@.subrange(start as int, all@.len() as int),
                forall|j: int| 0 <= j < i - start ==> (#[trigger] t[j] as u32) < 128,
            decreases all.len() - i,
        {
            if all[i] as u32 >= 128 {
                assert(!((t[i - start] as u32) < 128));
                return None;
            }
            i = i + 1;
        }
        assert(all_ascii(t));
        if n == 3 {
            match (
                parse_nibble_exec(all[start]),
                parse_nibble_exec(all[start + 1]),
                parse_nibble_exec(all[start + 2]),
            ) {
                (Some(r), Some(g), Some(b)) => Some(Color::rgb(r, g, b)),
                _ => None,
            }
        } else if n == 6 {
            match (
                parse_byte_exec(all[start], all[start + 1]),
                parse_byte_exec(all[start + 2], all[start + 3]),
                parse_byte_exec(all[start + 4], all[start + 5]),
            ) {
                (Some(r), Some(g), Some(b)) => Some(Color::rgb(r, g, b)),
                _ => None,
            }
        } else if n == 8 {
            match (
                parse_byte_exec(all[start], all[start + 1]),
                parse_byte_exec(all[start + 2], all[start + 3]),
                parse_byte_exec(all[start + 4], all[start + 5]),
                parse_byte_exec(all[start + 6], all[start + 7]),
            ) {
                (Some(r), Some(g), Some(b), Some(a)) => Some(Color::rgba(r, g, b, a)),
                _ => None,
            }
        } else {
            None
        }
    }

    /// CSS hex text: `#rrggbb` when opaque, `#rrggbbaa` otherwise.
    pub fn to_hex(self) -> (s: String)
        ensures
            s@ == spec_to_hex(self),
    {
        let mut s = String::new();
        push_char(&mut s, '#');
        push_hex_byte(&mut s, self.r);
        push_hex_byte(&mut s, self.g);
        push_hex_byte(&mut s, self.b);
        if self.a != 255 {
            push_hex_byte(&mut s, self.a);
        }
        assert(s@ =~= spec_to_hex(self));
        s
    }
}

proof fn lemma_hex_byte_parses(v: u8)
    ensures
        parse_byte(hex_byte(v)[0], hex_byte(v)[1]) == Some(v),
        (hex_byte(v)[0] as u32) < 128,
        (hex_byte(v)[1] as u32) < 128,
        hex_byte(v)[0] != '#',
{
    let hi = v as int / 16;
    let lo = v as int % 16;
    assert(0 <= hi < 16 && 0 <= lo < 16);
    assert(hi * 16 + lo == v as int);
}

/// Reading back the hex text of a colour gives the colour.
pub proof fn lemma_hex_round_trip(c: Color)
    ensures
        spec_from_hex(spec_to_hex(c)) == Some(c),
{
    lemma_hex_byte_parses(c.r);
    lemma_hex_byte_parses(c.g);
    lemma_hex_byte_parses(c.b);
    lemma_hex_byte_parses(c.a);
    let s = spec_to_hex(c);
    let t = strip_hash(s);
    assert(s[0] == '#');
    assert(t =~= s.drop_first());
    assert(all_ascii(t));
}

/// `Color::from_hex` reads CSS hex only: it gives a colour exactly when the
/// text, without one leading `#`, is three, six or eight hex digits.
pub proof fn lemma_from_hex_reads_css_hex_only(s: Seq<char>)
    ensures
        spec_from_hex(s) is Some <==> {
            let t = strip_hash(s);
            &&& (t.len() == 3 || t.len() == 6 || t.len() == 8)
            &&& forall|i: int| 0 <= i < t.len() ==> (#[trigger] hex_digit(t[i])) is Some
        },
{
    let t = strip_hash(s);
    let all_hex = forall|i: int| 0 <= i < t.len() ==> (#[trigger] hex_digit(t[i])) is Some;
    if all_hex {
        assert forall|i: int| 0 <= i < t.len() implies (#[trigger] t[i] as u32) < 128 by {
            assert(hex_digit(t[i]) is Some);
        }
        assert(all_ascii(t));
        if t.len() == 8 || t.len() == 6 || t.len() == 3 {
            assert(hex_digit(t[0]) is Some && hex_digit(t[1]) is Some && hex_digit(t[2]) is Some);
            if t.len() >= 6 {
                assert(hex_digit(t[3]) is Some && hex_digit(t[4]) is Some && hex_digit(t[5]) is Some);
            }
            if t.len() == 8 {
                assert(hex_digit(t[6]) is Some && hex_digit(t[7]) is Some);
            }
        }
    } else if t.len() == 3 || t.len() == 6 || t.len() == 8 {
        let i = choose|i: int| 0 <= i < t.len() && !(hex_digit(t[i]) is Some);
        assert(hex_digit(t[i]) is None);
        if t.len() == 3 {
            assert(i == 0 || i == 1 || i == 2);
        } else if t.len() == 6 {
            assert(i == 0 || i == 1 || i == 2 || i == 3 || i == 4 || i == 5);
        } else {
            assert(i == 0 || i == 1 || i == 2 || i == 3 || i == 4 || i == 5 || i == 6 || i == 7);
        }
    }
}

} // verus!
