use vstd::prelude::*;
use crate::chars::{utf8_len, utf8_width};
use crate::parser::whitespace::{trim_end, trim_end_chars, trim_start, trim_start_chars};

verus! {

/// An 8-bit-per-channel color with alpha.
#[derive(Debug, Clone, Copy, PartialEq, Eq, Structural)]
pub struct Rgba8 {
    pub r: u8,
    pub g: u8,
    pub b: u8,
    pub a: u8,
}

pub open spec fn rgba(r: u8, g: u8, b: u8, a: u8) -> Rgba8 {
    Rgba8 { r, g, b, a }
}

/// The value of a hexadecimal digit.
pub open spec fn hex_value(c: char) -> Option<nat> {
    if '0' <= c && c <= '9' {
        Some((c as nat - '0' as nat) as nat)
    } else if 'a' <= c && c <= 'f' {
        Some((c as nat - 'a' as nat + 10) as nat)
    } else if 'A' <= c && c <= 'F' {
        Some((c as nat - 'A' as nat + 10) as nat)
    } else {
        None
    }
}

/// The value of a run of hexadecimal digits, if every character is one.
pub open spec fn hex_digits_value(s: Seq<char>) -> Option<nat>
    decreases s.len(),
{
    if s.len() == 0 {
        Some(0)
    } else {
        match (hex_digits_value(s.drop_last()), hex_value(s.last())) {
            (Some(v), Some(d)) => Some(v * 16 + d),
            _ => None,
        }
    }
}

/// What std's `u8::from_str_radix(s, 16)` gives: an optional `+`, then one
/// or more hexadecimal digits whose value fits in a byte.
pub open spec fn parse_hex_u8(s: Seq<char>) -> Option<u8> {
    let body = if s.len() > 0 && s[0] == '+' {
        s.drop_first()
    } else {
        s
    };
    if body.len() == 0 {
        None
    } else {
        match hex_digits_value(body) {
            Some(v) => if v <= 255 {
                Some(v as u8)
            } else {
                None
            },
            None => None,
        }
    }
}

/// The parsed byte, or `default` when parsing fails.
pub open spec fn byte_or(s: Seq<char>, default: u8) -> u8 {
    match parse_hex_u8(s) {
        Some(v) => v,
        None => default,
    }
}

/// The character index at which `k` bytes of UTF-8 end, if a character
/// boundary lies there.
pub open spec fn byte_index(cs: Seq<char>, k: nat) -> Option<int> {
    if exists|i: int| 0 <= i <= cs.len() && utf8_len(cs.take(i)) == k {
        Some(choose|i: int| 0 <= i <= cs.len() && utf8_len(cs.take(i)) == k)
    } else {
        None
    }
}

/// The characters between byte offsets `a` and `b` (both boundaries).
pub open spec fn byte_slice(cs: Seq<char>, a: nat, b: nat) -> Seq<char> {
    cs.subrange(byte_index(cs, a)->Some_0, byte_index(cs, b)->Some_0)
}

/// A one-digit channel written twice, as `#RGB` means `#RRGGBB`.
pub open spec fn doubled(s: Seq<char>) -> Seq<char> {
    s + s
}

/// `s` with ASCII letters lowered (std's `str::to_ascii_lowercase`).
pub open spec fn ascii_lower(s: Seq<char>) -> Seq<char> {
    s.map_values(|c: char| if 'A' <= c && c <= 'Z' { ((c as u32) + 32) as char } else { c })
}

pub open spec fn black() -> Rgba8 {
    rgba(0, 0, 0, 255)
}

/// The named colors.
pub open spec fn named_color(n: Seq<char>) -> Rgba8 {
    if n == "black"@ {
        rgba(0, 0, 0, 255)
    } else if n == "white"@ {
        rgba(255, 255, 255, 255)
    } else if n == "red"@ {
        rgba(230, 50, 50, 255)
    } else if n == "green"@ {
        rgba(50, 180, 50, 255)
    } else if n == "blue"@ {
        rgba(50, 100, 230, 255)
    } else if n == "yellow"@ {
        rgba(240, 210, 50, 255)
    } else if n == "orange"@ {
        rgba(245, 130, 32, 255)
    } else if n == "purple"@ {
        rgba(145, 60, 200, 255)
    } else if n == "cyan"@ {
        rgba(40, 190, 210, 255)
    } else if n == "gray"@ || n == "grey"@ {
        rgba(128, 128, 128, 255)
    } else if n == "lightgray"@ || n == "lightgrey"@ {
        rgba(211, 211, 211, 255)
    } else if n == "darkgray"@ || n == "darkgrey"@ {
        rgba(60, 60, 60, 255)
    } else if n == "transparent"@ {
        rgba(0, 0, 0, 0)
    } else {
        rgba(0, 0, 0, 255)
    }
}

/// The byte offsets at which a hex color of `len` bytes is cut.
pub open spec fn hex_cuts(len: nat) -> Seq<nat> {
    if len == 3 {
        seq![1nat, 2]
    } else if len == 4 {
        seq![1nat, 2, 3]
    } else if len == 6 {
        seq![2nat, 4]
    } else if len == 8 {
        seq![2nat, 4, 6]
    } else {
        Seq::empty()
    }
}

/// The text std's `str::trim` leaves.
pub open spec fn trimmed(s: Seq<char>) -> Seq<char> {
    trim_end(trim_start(s))
}

/// The hex digits after `#`, when the trimmed text starts with one.
pub open spec fn hex_part(s: Seq<char>) -> Option<Seq<char>> {
    let t = trimmed(s);
    if t.len() > 0 && t[0] == '#' {
        Some(t.skip(1))
    } else {
        None
    }
}

/// Parsing does not cut a character in two: for a hex color of 3, 4, 6 or
/// 8 bytes, every cut falls on a character boundary.
pub open spec fn color_cuts_ok(s: Seq<char>) -> bool {
    match hex_part(s) {
        Some(h) => forall|i: int| 0 <= i < hex_cuts(utf8_len(h)).len() ==> (#[trigger] byte_index(h, hex_cuts(utf8_len(h))[i])) is Some,
        None => true,
    }
}

/// The color a text names: `#RGB`, `#RGBA`, `#RRGGBB`, `#RRGGBBAA` (a
/// channel that does not parse is 0, alpha 255), a color name in any case,
/// and opaque black for anything else.
pub open spec fn spec_parse_color(s: Seq<char>) -> Rgba8 {
    let t = trimmed(s);
    if t.len() == 0 {
        black()
    } else if t[0] == '#' {
        let h = t.skip(1);
        let n = utf8_len(h);
        if n == 3 {
            rgba(
                byte_or(doubled(byte_slice(h, 0, 1)), 0),
                byte_or(doubled(byte_slice(h, 1, 2)), 0),
                byte_or(doubled(byte_slice(h, 2, 3)), 0),
                255,
            )
        } else if n == 4 {
            rgba(
                byte_or(doubled(byte_slice(h, 0, 1)), 0),
                byte_or(doubled(byte_slice(h, 1, 2)), 0),
                byte_or(doubled(byte_slice(h, 2, 3)), 0),
                byte_or(doubled(byte_slice(h, 3, 4)), 255),
            )
        } else if n == 6 {
            rgba(
                byte_or(byte_slice(h, 0, 2), 0),
                byte_or(byte_slice(h, 2, 4), 0),
                byte_or(byte_slice(h, 4, 6), 0),
                255,
            )
        } else if n == 8 {
            rgba(
                byte_or(byte_slice(h, 0, 2), 0),
                byte_or(byte_slice(h, 2, 4), 0),
                byte_or(byte_slice(h, 4, 6), 0),
                byte_or(byte_slice(h, 6, 8), 255),
            )
        } else {
            black()
        }
    } else {
        named_color(ascii_lower(t))
    }
}


/// A color name, in any letter case and with whitespace around it, gives
/// the color the table fixes for it: black `(0, 0, 0)`, white
/// `(255, 255, 255)`, red `(230, 50, 50)`, green `(50, 180, 50)`, blue
/// `(50, 100, 230)`, and so on, opaque, and transparent with alpha 0; any
/// other text that does not start with `#`, and blank text, gives opaque
/// black.
pub proof fn lemma_named_colors(s: Seq<char>)
    ensures
        ascii_lower(trimmed(s)) == "black"@ ==> spec_parse_color(s) == (Rgba8 { r: 0, g: 0, b: 0, a: 255 }),
        ascii_lower(trimmed(s)) == "white"@ ==> spec_parse_color(s) == (Rgba8 { r: 255, g: 255, b: 255, a: 255 }),
        ascii_lower(trimmed(s)) == "red"@ ==> spec_parse_color(s) == (Rgba8 { r: 230, g: 50, b: 50, a: 255 }),
        ascii_lower(trimmed(s)) == "green"@ ==> spec_parse_color(s) == (Rgba8 { r: 50, g: 180, b: 50, a: 255 }),
        ascii_lower(trimmed(s)) == "blue"@ ==> spec_parse_color(s) == (Rgba8 { r: 50, g: 100, b: 230, a: 255 }),
        ascii_lower(trimmed(s)) == "yellow"@ ==> spec_parse_color(s) == (Rgba8 { r: 240, g: 210, b: 50, a: 255 }),
        ascii_lower(trimmed(s)) == "orange"@ ==> spec_parse_color(s) == (Rgba8 { r: 245, g: 130, b: 32, a: 255 }),
        ascii_lower(trimmed(s)) == "purple"@ ==> spec_parse_color(s) == (Rgba8 { r: 145, g: 60, b: 200, a: 255 }),
        ascii_lower(trimmed(s)) == "cyan"@ ==> spec_parse_color(s) == (Rgba8 { r: 40, g: 190, b: 210, a: 255 }),
        ascii_lower(trimmed(s)) == "gray"@ ==> spec_parse_color(s) == (Rgba8 { r: 128, g: 128, b: 128, a: 255 }),
        ascii_lower(trimmed(s)) == "grey"@ ==> spec_parse_color(s) == (Rgba8 { r: 128, g: 128, b: 128, a: 255 }),
        ascii_lower(trimmed(s)) == "lightgray"@ ==> spec_parse_color(s) == (Rgba8 { r: 211, g: 211, b: 211, a: 255 }),
        ascii_lower(trimmed(s)) == "lightgrey"@ ==> spec_parse_color(s) == (Rgba8 { r: 211, g: 211, b: 211, a: 255 }),
        ascii_lower(trimmed(s)) == "darkgray"@ ==> spec_parse_color(s) == (Rgba8 { r: 60, g: 60, b: 60, a: 255 }),
        ascii_lower(trimmed(s)) == "darkgrey"@ ==> spec_parse_color(s) == (Rgba8 { r: 60, g: 60, b: 60, a: 255 }),
        ascii_lower(trimmed(s)) == "transparent"@ ==> spec_parse_color(s) == (Rgba8 { r: 0, g: 0, b: 0, a: 0 }),
        trimmed(s).len() == 0 || (trimmed(s)[0] != '#' && ascii_lower(trimmed(s)) != "black"@ && ascii_lower(trimmed(s)) != "white"@ && ascii_lower(trimmed(s)) != "red"@ && ascii_lower(trimmed(s)) != "green"@ && ascii_lower(trimmed(s)) != "blue"@ && ascii_lower(trimmed(s)) != "yellow"@ && ascii_lower(trimmed(s)) != "orange"@ && ascii_lower(trimmed(s)) != "purple"@ && ascii_lower(trimmed(s)) != "cyan"@ && ascii_lower(trimmed(s)) != "gray"@ && ascii_lower(trimmed(s)) != "grey"@ && ascii_lower(trimmed(s)) != "lightgray"@ && ascii_lower(trimmed(s)) != "lightgrey"@ && ascii_lower(trimmed(s)) != "darkgray"@ && ascii_lower(trimmed(s)) != "darkgrey"@ && ascii_lower(trimmed(s)) != "transparent"@) ==> spec_parse_color(s) == (Rgba8 {
            r: 0,
            g: 0,
            b: 0,
            a: 255,
        }),
{
    reveal_strlit("black");
    reveal_strlit("white");
    reveal_strlit("red");
    reveal_strlit("green");
    reveal_strlit("blue");
    reveal_strlit("yellow");
    reveal_strlit("orange");
    reveal_strlit("purple");
    reveal_strlit("cyan");
    reveal_strlit("gray");
    reveal_strlit("grey");
    reveal_strlit("lightgray");
    reveal_strlit("lightgrey");
    reveal_strlit("darkgray");
    reveal_strlit("darkgrey");
    reveal_strlit("transparent");
    let t = trimmed(s);
    let l = ascii_lower(t);
    if l == "black"@ {
        assert(t.len() == "black"@.len());
        assert(l[0] == (if 'A' <= t[0] && t[0] <= 'Z' { ((t[0] as u32) + 32) as char } else { t[0] }));
        assert(l[0] == "black"@[0]);
        assert(t[0] != '#');
        assert(spec_parse_color(s) == named_color("black"@));
    }
    if l == "white"@ {
        assert(t.len() == "white"@.len());
        assert(l[0] == (if 'A' <= t[0] && t[0] <= 'Z' { ((t[0] as u32) + 32) as char } else { t[0] }));
        assert(l[0] == "white"@[0]);
        assert(t[0] != '#');
        assert("white"@ != "black"@) by { assert("white"@[0] != "black"@[0]); }
        assert(spec_parse_color(s) == named_color("white"@));
    }
    if l == "red"@ {
        assert(t.len() == "red"@.len());
        assert(l[0] == (if 'A' <= t[0] && t[0] <= 'Z' { ((t[0] as u32) + 32) as char } else { t[0] }));
        assert(l[0] == "red"@[0]);
        assert(t[0] != '#');
        assert("red"@ != "black"@) by { assert("red"@.len() != "black"@.len()); }
        assert("red"@ != "white"@) by { assert("red"@.len() != "white"@.len()); }
        assert(spec_parse_color(s) == named_color("red"@));
    }
    if l == "green"@ {
        assert(t.len() == "green"@.len());
        assert(l[0] == (if 'A' <= t[0] && t[0] <= 'Z' { ((t[0] as u32) + 32) as char } else { t[0] }));
        assert(l[0] == "green"@[0]);
        assert(t[0] != '#');
        assert("green"@ != "black"@) by { assert("green"@[0] != "black"@[0]); }
        assert("green"@ != "white"@) by { assert("green"@[0] != "white"@[0]); }
        assert("green"@ != "red"@) by { assert("green"@.len() != "red"@.len()); }
        assert(spec_parse_color(s) == named_color("green"@));
    }
    if l == "blue"@ {
        assert(t.len() == "blue"@.len());
        assert(l[0] == (if 'A' <= t[0] && t[0] <= 'Z' { ((t[0] as u32) + 32) as char } else { t[0] }));
        assert(l[0] == "blue"@[0]);
        assert(t[0] != '#');
        assert("blue"@ != "black"@) by { assert("blue"@.len() != "black"@.len()); }
        assert("blue"@ != "white"@) by { assert("blue"@.len() != "white"@.len()); }
        assert("blue"@ != "red"@) by { assert("blue"@.len() != "red"@.len()); }
        assert("blue"@ != "green"@) by { assert("blue"@.len() != "green"@.len()); }
        assert(spec_parse_color(s) == named_color("blue"@));
    }
    if l == "yellow"@ {
        assert(t.len() == "yellow"@.len());
        assert(l[0] == (if 'A' <= t[0] && t[0] <= 'Z' { ((t[0] as u32) + 32) as char } else { t[0] }));
        assert(l[0] == "yellow"@[0]);
        assert(t[0] != '#');
        assert("yellow"@ != "black"@) by { assert("yellow"@.len() != "black"@.len()); }
        assert("yellow"@ != "white"@) by { assert("yellow"@.len() != "white"@.len()); }
        assert("yellow"@ != "red"@) by { assert("yellow"@.len() != "red"@.len()); }
        assert("yellow"@ != "green"@) by { assert("yellow"@.len() != "green"@.len()); }
        assert("yellow"@ != "blue"@) by { assert("yellow"@.len() != "blue"@.len()); }
        assert(spec_parse_color(s) == named_color("yellow"@));
    }
    if l == "orange"@ {
        assert(t.len() == "orange"@.len());
        assert(l[0] == (if 'A' <= t[0] && t[0] <= 'Z' { ((t[0] as u32) + 32) as char } else { t[0] }));
        assert(l[0] == "orange"@[0]);
        assert(t[0] != '#');
        assert("orange"@ != "black"@) by { assert("orange"@.len() != "black"@.len()); }
        assert("orange"@ != "white"@) by { assert("orange"@.len() != "white"@.len()); }
        assert("orange"@ != "red"@) by { assert("orange"@.len() != "red"@.len()); }
        assert("orange"@ != "green"@) by { assert("orange"@.len() != "green"@.len()); }
        assert("orange"@ != "blue"@) by { assert("orange"@.len() != "blue"@.len()); }
        assert("orange"@ != "yellow"@) by { assert("orange"@[0] != "yellow"@[0]); }
        assert(spec_parse_color(s) == named_color("orange"@));
    }
    if l == "purple"@ {
        assert(t.len() == "purple"@.len());
        assert(l[0] == (if 'A' <= t[0] && t[0] <= 'Z' { ((t[0] as u32) + 32) as char } else { t[0] }));
        assert(l[0] == "purple"@[0]);
        assert(t[0] != '#');
        assert("purple"@ != "black"@) by { assert("purple"@.len() != "black"@.len()); }
        assert("purple"@ != "white"@) by { assert("purple"@.len() != "white"@.len()); }
        assert("purple"@ != "red"@) by { assert("purple"@.len() != "red"@.len()); }
        assert("purple"@ != "green"@) by { assert("purple"@.len() != "green"@.len()); }
        assert("purple"@ != "blue"@) by { assert("purple"@.len() != "blue"@.len()); }
        assert("purple"@ != "yellow"@) by { assert("purple"@[0] != "yellow"@[0]); }
        assert("purple"@ != "orange"@) by { assert("purple"@[0] != "orange"@[0]); }
        assert(spec_parse_color(s) == named_color("purple"@));
    }
    if l == "cyan"@ {
        assert(t.len() == "cyan"@.len());
        assert(l[0] == (if 'A' <= t[0] && t[0] <= 'Z' { ((t[0] as u32) + 32) as char } else { t[0] }));
        assert(l[0] == "cyan"@[0]);
        assert(t[0] != '#');
        assert("cyan"@ != "black"@) by { assert("cyan"@.len() != "black"@.len()); }
        assert("cyan"@ != "white"@) by { assert("cyan"@.len() != "white"@.len()); }
        assert("cyan"@ != "red"@) by { assert("cyan"@.len() != "red"@.len()); }
        assert("cyan"@ != "green"@) by { assert("cyan"@.len() != "green"@.len()); }
        assert("cyan"@ != "blue"@) by { assert("cyan"@[0] != "blue"@[0]); }
        assert("cyan"@ != "yellow"@) by { assert("cyan"@.len() != "yellow"@.len()); }
        assert("cyan"@ != "orange"@) by { assert("cyan"@.len() != "orange"@.len()); }
        assert("cyan"@ != "purple"@) by { assert("cyan"@.len() != "purple"@.len()); }
        assert(spec_parse_color(s) == named_color("cyan"@));
    }
    if l == "gray"@ {
        assert(t.len() == "gray"@.len());
        assert(l[0] == (if 'A' <= t[0] && t[0] <= 'Z' { ((t[0] as u32) + 32) as char } else { t[0] }));
        assert(l[0] == "gray"@[0]);
        assert(t[0] != '#');
        assert("gray"@ != "black"@) by { assert("gray"@.len() != "black"@.len()); }
        assert("gray"@ != "white"@) by { assert("gray"@.len() != "white"@.len()); }
        assert("gray"@ != "red"@) by { assert("gray"@.len() != "red"@.len()); }
        assert("gray"@ != "green"@) by { assert("gray"@.len() != "green"@.len()); }
        assert("gray"@ != "blue"@) by { assert("gray"@[0] != "blue"@[0]); }
        assert("gray"@ != "yellow"@) by { assert("gray"@.len() != "yellow"@.len()); }
        assert("gray"@ != "orange"@) by { assert("gray"@.len() != "orange"@.len()); }
        assert("gray"@ != "purple"@) by { assert("gray"@.len() != "purple"@.len()); }
        assert("gray"@ != "cyan"@) by { assert("gray"@[0] != "cyan"@[0]); }
        assert(spec_parse_color(s) == named_color("gray"@));
    }
    if l == "grey"@ {
        assert(t.len() == "grey"@.len());
        assert(l[0] == (if 'A' <= t[0] && t[0] <= 'Z' { ((t[0] as u32) + 32) as char } else { t[0] }));
        assert(l[0] == "grey"@[0]);
        assert(t[0] != '#');
        assert("grey"@ != "black"@) by { assert("grey"@.len() != "black"@.len()); }
        assert("grey"@ != "white"@) by { assert("grey"@.len() != "white"@.len()); }
        assert("grey"@ != "red"@) by { assert("grey"@.len() != "red"@.len()); }
        assert("grey"@ != "green"@) by { assert("grey"@.len() != "green"@.len()); }
        assert("grey"@ != "blue"@) by { assert("grey"@[0] != "blue"@[0]); }
        assert("grey"@ != "yellow"@) by { assert("grey"@.len() != "yellow"@.len()); }
        assert("grey"@ != "orange"@) by { assert("grey"@.len() != "orange"@.len()); }
        assert("grey"@ != "purple"@) by { assert("grey"@.len() != "purple"@.len()); }
        assert("grey"@ != "cyan"@) by { assert("grey"@[0] != "cyan"@[0]); }
        assert("grey"@ != "gray"@) by { assert("grey"@[2] != "gray"@[2]); }
        assert(spec_parse_color(s) == named_color("grey"@));
    }
    if l == "lightgray"@ {
        assert(t.len() == "lightgray"@.len());
        assert(l[0] == (if 'A' <= t[0] && t[0] <= 'Z' { ((t[0] as u32) + 32) as char } else { t[0] }));
        assert(l[0] == "lightgray"@[0]);
        assert(t[0] != '#');
        assert("lightgray"@ != "black"@) by { assert("lightgray"@.len() != "black"@.len()); }
        assert("lightgray"@ != "white"@) by { assert("lightgray"@.len() != "white"@.len()); }
        assert("lightgray"@ != "red"@) by { assert("lightgray"@.len() != "red"@.len()); }
        assert("lightgray"@ != "green"@) by { assert("lightgray"@.len() != "green"@.len()); }
        assert("lightgray"@ != "blue"@) by { assert("lightgray"@.len() != "blue"@.len()); }
        assert("lightgray"@ != "yellow"@) by { assert("lightgray"@.len() != "yellow"@.len()); }
        assert("lightgray"@ != "orange"@) by { assert("lightgray"@.len() != "orange"@.len()); }
        assert("lightgray"@ != "purple"@) by { assert("lightgray"@.len() != "purple"@.len()); }
        assert("lightgray"@ != "cyan"@) by { assert("lightgray"@.len() != "cyan"@.len()); }
        assert("lightgray"@ != "gray"@) by { assert("lightgray"@.len() != "gray"@.len()); }
        assert("lightgray"@ != "grey"@) by { assert("lightgray"@.len() != "grey"@.len()); }
        assert(spec_parse_color(s) == named_color("lightgray"@));
    }
    if l == "lightgrey"@ {
        assert(t.len() == "lightgrey"@.len());
        assert(l[0] == (if 'A' <= t[0] && t[0] <= 'Z' { ((t[0] as u32) + 32) as char } else { t[0] }));
        assert(l[0] == "lightgrey"@[0]);
        assert(t[0] != '#');
        assert("lightgrey"@ != "black"@) by { assert("lightgrey"@.len() != "black"@.len()); }
        assert("lightgrey"@ != "white"@) by { assert("lightgrey"@.len() != "white"@.len()); }
        assert("lightgrey"@ != "red"@) by { assert("lightgrey"@.len() != "red"@.len()); }
        assert("lightgrey"@ != "green"@) by { assert("lightgrey"@.len() != "green"@.len()); }
        assert("lightgrey"@ != "blue"@) by { assert("lightgrey"@.len() != "blue"@.len()); }
        assert("lightgrey"@ != "yellow"@) by { assert("lightgrey"@.len() != "yellow"@.len()); }
        assert("lightgrey"@ != "orange"@) by { assert("lightgrey"@.len() != "orange"@.len()); }
        assert("lightgrey"@ != "purple"@) by { assert("lightgrey"@.len() != "purple"@.len()); }
        assert("lightgrey"@ != "cyan"@) by { assert("lightgrey"@.len() != "cyan"@.len()); }
        assert("lightgrey"@ != "gray"@) by { assert("lightgrey"@.len() != "gray"@.len()); }
        assert("lightgrey"@ != "grey"@) by { assert("lightgrey"@.len() != "grey"@.len()); }
        assert("lightgrey"@ != "lightgray"@) by { assert("lightgrey"@[7] != "lightgray"@[7]); }
        assert(spec_parse_color(s) == named_color("lightgrey"@));
    }
    if l == "darkgray"@ {
        assert(t.len() == "darkgray"@.len());
        assert(l[0] == (if 'A' <= t[0] && t[0] <= 'Z' { ((t[0] as u32) + 32) as char } else { t[0] }));
        assert(l[0] == "darkgray"@[0]);
        assert(t[0] != '#');
        assert("darkgray"@ != "black"@) by { assert("darkgray"@.len() != "black"@.len()); }
        assert("darkgray"@ != "white"@) by { assert("darkgray"@.len() != "white"@.len()); }
        assert("darkgray"@ != "red"@) by { assert("darkgray"@.len() != "red"@.len()); }
        assert("darkgray"@ != "green"@) by { assert("darkgray"@.len() != "green"@.len()); }
        assert("darkgray"@ != "blue"@) by { assert("darkgray"@.len() != "blue"@.len()); }
        assert("darkgray"@ != "yellow"@) by { assert("darkgray"@.len() != "yellow"@.len()); }
        assert("darkgray"@ != "orange"@) by { assert("darkgray"@.len() != "orange"@.len()); }
        assert("darkgray"@ != "purple"@) by { assert("darkgray"@.len() != "purple"@.len()); }
        assert("darkgray"@ != "cyan"@) by { assert("darkgray"@.len() != "cyan"@.len()); }
        assert("darkgray"@ != "gray"@) by { assert("darkgray"@.len() != "gray"@.len()); }
        assert("darkgray"@ != "grey"@) by { assert("darkgray"@.len() != "grey"@.len()); }
        assert("darkgray"@ != "lightgray"@) by { assert("darkgray"@.len() != "lightgray"@.len()); }
        assert("darkgray"@ != "lightgrey"@) by { assert("darkgray"@.len() != "lightgrey"@.len()); }
        assert(spec_parse_color(s) == named_color("darkgray"@));
    }
    if l == "darkgrey"@ {
        assert(t.len() == "darkgrey"@.len());
        assert(l[0] == (if 'A' <= t[0] && t[0] <= 'Z' { ((t[0] as u32) + 32) as char } else { t[0] }));
        assert(l[0] == "darkgrey"@[0]);
        assert(t[0] != '#');
        assert("darkgrey"@ != "black"@) by { assert("darkgrey"@.len() != "black"@.len()); }
        assert("darkgrey"@ != "white"@) by { assert("darkgrey"@.len() != "white"@.len()); }
        assert("darkgrey"@ != "red"@) by { assert("darkgrey"@.len() != "red"@.len()); }
        assert("darkgrey"@ != "green"@) by { assert("darkgrey"@.len() != "green"@.len()); }
        assert("darkgrey"@ != "blue"@) by { assert("darkgrey"@.len() != "blue"@.len()); }
        assert("darkgrey"@ != "yellow"@) by { assert("darkgrey"@.len() != "yellow"@.len()); }
        assert("darkgrey"@ != "orange"@) by { assert("darkgrey"@.len() != "orange"@.len()); }
        assert("darkgrey"@ != "purple"@) by { assert("darkgrey"@.len() != "purple"@.len()); }
        assert("darkgrey"@ != "cyan"@) by { assert("darkgrey"@.len() != "cyan"@.len()); }
        assert("darkgrey"@ != "gray"@) by { assert("darkgrey"@.len() != "gray"@.len()); }
        assert("darkgrey"@ != "grey"@) by { assert("darkgrey"@.len() != "grey"@.len()); }
        assert("darkgrey"@ != "lightgray"@) by { assert("darkgrey"@.len() != "lightgray"@.len()); }
        assert("darkgrey"@ != "lightgrey"@) by { assert("darkgrey"@.len() != "lightgrey"@.len()); }
        assert("darkgrey"@ != "darkgray"@) by { assert("darkgrey"@[6] != "darkgray"@[6]); }
        assert(spec_parse_color(s) == named_color("darkgrey"@));
    }
    if l == "transparent"@ {
        assert(t.len() == "transparent"@.len());
        assert(l[0] == (if 'A' <= t[0] && t[0] <= 'Z' { ((t[0] as u32) + 32) as char } else { t[0] }));
        assert(l[0] == "transparent"@[0]);
        assert(t[0] != '#');
        assert("transparent"@ != "black"@) by { assert("transparent"@.len() != "black"@.len()); }
        assert("transparent"@ != "white"@) by { assert("transparent"@.len() != "white"@.len()); }
        assert("transparent"@ != "red"@) by { assert("transparent"@.len() != "red"@.len()); }
        assert("transparent"@ != "green"@) by { assert("transparent"@.len() != "green"@.len()); }
        assert("transparent"@ != "blue"@) by { assert("transparent"@.len() != "blue"@.len()); }
        assert("transparent"@ != "yellow"@) by { assert("transparent"@.len() != "yellow"@.len()); }
        assert("transparent"@ != "orange"@) by { assert("transparent"@.len() != "orange"@.len()); }
        assert("transparent"@ != "purple"@) by { assert("transparent"@.len() != "purple"@.len()); }
        assert("transparent"@ != "cyan"@) by { assert("transparent"@.len() != "cyan"@.len()); }
        assert("transparent"@ != "gray"@) by { assert("transparent"@.len() != "gray"@.len()); }
        assert("transparent"@ != "grey"@) by { assert("transparent"@.len() != "grey"@.len()); }
        assert("transparent"@ != "lightgray"@) by { assert("transparent"@.len() != "lightgray"@.len()); }
        assert("transparent"@ != "lightgrey"@) by { assert("transparent"@.len() != "lightgrey"@.len()); }
        assert("transparent"@ != "darkgray"@) by { assert("transparent"@.len() != "darkgray"@.len()); }
        assert("transparent"@ != "darkgrey"@) by { assert("transparent"@.len() != "darkgrey"@.len()); }
        assert(spec_parse_color(s) == named_color("transparent"@));
    }
}

proof fn lemma_utf8_take(cs: Seq<char>, i: int)
    requires
        0 <= i < cs.len(),
    ensures
        utf8_len(cs.take(i + 1)) == utf8_len(cs.take(i)) + utf8_width(cs[i]),
        utf8_width(cs[i]) >= 1,
{
    assert(cs.take(i + 1).drop_last() =~= cs.take(i));
}

/// An ASCII hexadecimal digit: `0`-`9`, `a`-`f` or `A`-`F`.
pub open spec fn is_hex_char(c: char) -> bool {
    ('0' <= c && c <= '9') || ('a' <= c && c <= 'f') || ('A' <= c && c <= 'F')
}

/// The number an ASCII hexadecimal digit stands for: `0`-`9` for `0`-`9`,
/// 10-15 for `a`-`f` and for `A`-`F`.
pub open spec fn hex_char_value(c: char) -> int {
    if '0' <= c && c <= '9' {
        c as int - 48
    } else if 'a' <= c && c <= 'f' {
        c as int - 87
    } else {
        c as int - 55
    }
}

proof fn lemma_ascii_prefix_len(cs: Seq<char>, i: int)
    requires
        0 <= i <= cs.len(),
        forall|j: int| 0 <= j < cs.len() ==> is_hex_char(#[trigger] cs[j]),
    ensures
        utf8_len(cs.take(i)) == i,
    decreases i,
{
    if i > 0 {
        lemma_ascii_prefix_len(cs, i - 1);
        lemma_utf8_take(cs, i - 1);
        assert(is_hex_char(cs[i - 1]));
    } else {
        assert(cs.take(0) =~= Seq::<char>::empty());
    }
}

proof fn lemma_hex_slice(cs: Seq<char>, a: int, b: int)
    requires
        0 <= a <= b <= cs.len(),
        forall|j: int| 0 <= j < cs.len() ==> is_hex_char(#[trigger] cs[j]),
    ensures
        byte_slice(cs, a as nat, b as nat) == cs.subrange(a, b),
        utf8_len(cs) == cs.len(),
{
    lemma_ascii_prefix_len(cs, a);
    lemma_ascii_prefix_len(cs, b);
    lemma_ascii_prefix_len(cs, cs.len() as int);
    assert(cs.take(cs.len() as int) =~= cs);
    let ia = choose|i: int| 0 <= i <= cs.len() && utf8_len(cs.take(i)) == a as nat;
    lemma_ascii_prefix_len(cs, ia);
    let ib = choose|i: int| 0 <= i <= cs.len() && utf8_len(cs.take(i)) == b as nat;
    lemma_ascii_prefix_len(cs, ib);
}

proof fn lemma_hex_pair(p: Seq<char>)
    requires
        p.len() == 2,
        is_hex_char(p[0]) && is_hex_char(p[1]),
    ensures
        parse_hex_u8(p) == Some((16 * hex_char_value(p[0]) + hex_char_value(p[1])) as u8),
{
    reveal_with_fuel(hex_digits_value, 3);
    assert(p.drop_last().drop_last() =~= Seq::<char>::empty());
    assert(p.drop_last().last() == p[0]);
}

proof fn lemma_hex_pair_at(h: Seq<char>, a: int, w: int)
    requires
        0 <= a,
        a + w <= h.len(),
        w == 1 || w == 2,
        forall|j: int| 0 <= j < h.len() ==> is_hex_char(#[trigger] h[j]),
    ensures
        w == 2 ==> parse_hex_u8(byte_slice(h, a as nat, (a + 2) as nat)) == Some(
            (16 * hex_char_value(h[a]) + hex_char_value(h[a + 1])) as u8,
        ),
        w == 1 ==> parse_hex_u8(doubled(byte_slice(h, a as nat, (a + 1) as nat))) == Some(
            (17 * hex_char_value(h[a])) as u8,
        ),
{
    lemma_hex_slice(h, a, a + w);
    if w == 2 {
        let p = byte_slice(h, a as nat, (a + 2) as nat);
        assert(p =~= seq![h[a], h[a + 1]]);
        assert(is_hex_char(h[a]) && is_hex_char(h[a + 1]));
        lemma_hex_pair(p);
    } else {
        let p = doubled(byte_slice(h, a as nat, (a + 1) as nat));
        assert(p =~= seq![h[a], h[a]]);
        assert(is_hex_char(h[a]));
        lemma_hex_pair(p);
    }
}

/// The hex digits after the `#` of a trimmed text that starts with one.
proof fn lemma_hex_tail(s: Seq<char>)
    requires
        trimmed(s).len() > 0,
        trimmed(s)[0] == '#',
        forall|i: int| 1 <= i < trimmed(s).len() ==> is_hex_char(#[trigger] trimmed(s)[i]),
    ensures
        forall|j: int| 0 <= j < trimmed(s).skip(1).len() ==> is_hex_char(#[trigger] trimmed(s).skip(1)[j]),
        utf8_len(trimmed(s).skip(1)) == trimmed(s).len() - 1,
{
    let t = trimmed(s);
    let h = t.skip(1);
    assert forall|j: int| 0 <= j < h.len() implies is_hex_char(#[trigger] h[j]) by {
        assert(h[j] == t[j + 1]);
    }
    lemma_hex_slice(h, 0, 0);
}

/// A hex color reads its channels from its digits: `#RRGGBB` gives
/// `16 * R1 + R2` and so on with alpha 255, `#RRGGBBAA` its alpha too, and
/// `#RGB` gives `17 * R` for each channel, whatever the letter case.
pub proof fn lemma_hex_colors(s: Seq<char>)
    ensures
        ({
            let t = trimmed(s);
            let d = |i: int| hex_char_value(t[i]);
            t.len() == 7 && t[0] == '#' && (forall|i: int| 1 <= i < 7 ==> is_hex_char(#[trigger] t[i]))
                ==> spec_parse_color(s) == (Rgba8 {
                r: (16 * d(1) + d(2)) as u8,
                g: (16 * d(3) + d(4)) as u8,
                b: (16 * d(5) + d(6)) as u8,
                a: 255,
            })
        }),
        ({
            let t = trimmed(s);
            let d = |i: int| hex_char_value(t[i]);
            t.len() == 9 && t[0] == '#' && (forall|i: int| 1 <= i < 9 ==> is_hex_char(#[trigger] t[i]))
                ==> spec_parse_color(s) == (Rgba8 {
                r: (16 * d(1) + d(2)) as u8,
                g: (16 * d(3) + d(4)) as u8,
                b: (16 * d(5) + d(6)) as u8,
                a: (16 * d(7) + d(8)) as u8,
            })
        }),
        ({
            let t = trimmed(s);
            let d = |i: int| hex_char_value(t[i]);
            t.len() == 4 && t[0] == '#' && (forall|i: int| 1 <= i < 4 ==> is_hex_char(#[trigger] t[i]))
                ==> spec_parse_color(s) == (Rgba8 {
                r: (17 * d(1)) as u8,
                g: (17 * d(2)) as u8,
                b: (17 * d(3)) as u8,
                a: 255,
            })
        }),
{
    let t = trimmed(s);
    let h = t.skip(1);
    if t.len() == 7 && t[0] == '#' && (forall|i: int| 1 <= i < 7 ==> is_hex_char(#[trigger] t[i])) {
        lemma_hex6(s);
    }
    if t.len() == 9 && t[0] == '#' && (forall|i: int| 1 <= i < 9 ==> is_hex_char(#[trigger] t[i])) {
        lemma_hex8(s);
    }
    if t.len() == 4 && t[0] == '#' && (forall|i: int| 1 <= i < 4 ==> is_hex_char(#[trigger] t[i])) {
        lemma_hex3(s);
    }
}

#[verifier::rlimit(40)]
proof fn lemma_hex6(s: Seq<char>)
    requires
        trimmed(s).len() == 7,
        trimmed(s)[0] == '#',
        forall|i: int| 1 <= i < 7 ==> is_hex_char(#[trigger] trimmed(s)[i]),
    ensures
        ({
            let t = trimmed(s);
            spec_parse_color(s) == (Rgba8 {
                r: (16 * hex_char_value(t[1]) + hex_char_value(t[2])) as u8,
                g: (16 * hex_char_value(t[3]) + hex_char_value(t[4])) as u8,
                b: (16 * hex_char_value(t[5]) + hex_char_value(t[6])) as u8,
                a: 255,
            })
        }),
{
    let t = trimmed(s);
    let h = t.skip(1);
    lemma_hex_tail(s);
    lemma_hex_pair_at(h, 0, 2);
    lemma_hex_pair_at(h, 2, 2);
    lemma_hex_pair_at(h, 4, 2);
    assert(h[0] == t[1] && h[1] == t[2] && h[2] == t[3] && h[3] == t[4] && h[4] == t[5] && h[5] == t[6]);
}

#[verifier::rlimit(40)]
proof fn lemma_hex8(s: Seq<char>)
    requires
        trimmed(s).len() == 9,
        trimmed(s)[0] == '#',
        forall|i: int| 1 <= i < 9 ==> is_hex_char(#[trigger] trimmed(s)[i]),
    ensures
        ({
            let t = trimmed(s);
            spec_parse_color(s) == (Rgba8 {
                r: (16 * hex_char_value(t[1]) + hex_char_value(t[2])) as u8,
                g: (16 * hex_char_value(t[3]) + hex_char_value(t[4])) as u8,
                b: (16 * hex_char_value(t[5]) + hex_char_value(t[6])) as u8,
                a: (16 * hex_char_value(t[7]) + hex_char_value(t[8])) as u8,
            })
        }),
{
    let t = trimmed(s);
    let h = t.skip(1);
    lemma_hex_tail(s);
    lemma_hex_pair_at(h, 0, 2);
    lemma_hex_pair_at(h, 2, 2);
    lemma_hex_pair_at(h, 4, 2);
    lemma_hex_pair_at(h, 6, 2);
    assert(h[0] == t[1] && h[1] == t[2] && h[2] == t[3] && h[3] == t[4] && h[4] == t[5] && h[5] == t[6]);
    assert(h[6] == t[7] && h[7] == t[8]);
}

#[verifier::rlimit(40)]
proof fn lemma_hex3(s: Seq<char>)
    requires
        trimmed(s).len() == 4,
        trimmed(s)[0] == '#',
        forall|i: int| 1 <= i < 4 ==> is_hex_char(#[trigger] trimmed(s)[i]),
    ensures
        ({
            let t = trimmed(s);
            spec_parse_color(s) == (Rgba8 {
                r: (17 * hex_char_value(t[1])) as u8,
                g: (17 * hex_char_value(t[2])) as u8,
                b: (17 * hex_char_value(t[3])) as u8,
                a: 255,
            })
        }),
{
    let t = trimmed(s);
    let h = t.skip(1);
    lemma_hex_tail(s);
    lemma_hex_pair_at(h, 0, 1);
    lemma_hex_pair_at(h, 1, 1);
    lemma_hex_pair_at(h, 2, 1);
    assert(h[0] == t[1] && h[1] == t[2] && h[2] == t[3]);
}

/// Prefix byte lengths grow with the prefix.
proof fn lemma_utf8_take_mono(cs: Seq<char>, i: int, j: int)
    requires
        0 <= i < j <= cs.len(),
    ensures
        utf8_len(cs.take(i)) < utf8_len(cs.take(j)),
    decreases j - i,
{
    lemma_utf8_take(cs, j - 1);
    if i < j - 1 {
        lemma_utf8_take_mono(cs, i, j - 1);
    }
}

/// The character index where `k` bytes end, if on a boundary.
fn find_byte_index(cs: &Vec<char>, k: usize) -> (r: Option<usize>)
    requires
        k <= 8,
    ensures
        match r {
            Some(i) => byte_index(cs@, k as nat) == Some(i as int),
            None => byte_index(cs@, k as nat) is None,
        },
{
    let mut i: usize = 0;
    let mut acc: usize = 0;
    assert(cs@.take(0) =~= Seq::<char>::empty());
    while acc < k && i < cs.len()
        invariant
            i <= cs@.len(),
            acc == utf8_len(cs@.take(i as int)),
            k <= 8,
            acc < k + 4,
            forall|j: int| 0 <= j < i ==> utf8_len(cs@.take(j)) < k,
        decreases cs@.len() - i,
    {
        let c = cs[i];
        let w: usize = if (c as u32) < 0x80 {
            1
        } else if (c as u32) < 0x800 {
            2
        } else if (c as u32) < 0x10000 {
            3
        } else {
            4
        };
        proof {
            lemma_utf8_take(cs@, i as int);
            assert forall|j: int| 0 <= j < i + 1 implies utf8_len(cs@.take(j)) < k by {
                if j == i {
                } else {
                }
            }
        }
        acc = acc + w;
        i = i + 1;
    }
    if acc == k {
        proof {
            let w = choose|j: int| 0 <= j <= cs@.len() && utf8_len(cs@.take(j)) == k;
            if w < i {
                lemma_utf8_take_mono(cs@, w, i as int);
            } else if w > i {
                lemma_utf8_take_mono(cs@, i as int, w);
            }
        }
        Some(i)
    } else {
        proof {
            assert forall|j: int| 0 <= j <= cs@.len() implies utf8_len(cs@.take(j)) != k by {
                if j > i {
                    lemma_utf8_take_mono(cs@, i as int, j);
                }
            }
        }
        None
    }
}

/// `u8::from_str_radix(s, 16)` for short texts.
fn parse_hex_byte(s: &Vec<char>) -> (r: Option<u8>)
    requires
        s@.len() <= 8,
    ensures
        r == parse_hex_u8(s@),
{
    let start: usize = if s.len() > 0 && s[0] == '+' { 1 } else { 0 };
    let ghost body = if s@.len() > 0 && s@[0] == '+' { s@.drop_first() } else { s@ };
    if start == s.len() {
        return None;
    }
    let mut v: u64 = 0;
    let mut i: usize = start;
    assert(s@.subrange(start as int, start as int) =~= Seq::<char>::empty());
    assert(body =~= s@.subrange(start as int, s@.len() as int));
    while i < s.len()
        invariant
            start <= i <= s@.len(),
            s@.len() <= 8,
            body == s@.subrange(start as int, s@.len() as int),
            body == (if s@.len() > 0 && s@[0] == '+' { s@.drop_first() } else { s@ }),
            hex_digits_value(s@.subrange(start as int, i as int)) == Some(v as nat),
            v < pow16((i - start) as nat),
        decreases s@.len() - i,
    {
        let c = s[i];
        let d: u64 = if '0' <= c && c <= '9' {
            (c as u64) - ('0' as u64)
        } else if 'a' <= c && c <= 'f' {
            (c as u64) - ('a' as u64) + 10
        } else if 'A' <= c && c <= 'F' {
            (c as u64) - ('A' as u64) + 10
        } else {
            proof {
                assert(hex_value(c) is None);
                assert(s@.subrange(start as int, s@.len() as int)[i - start] == c);
                lemma_hex_none(s@.subrange(start as int, s@.len() as int), (i - start) as int);
                assert(hex_digits_value(body) is None);
                assert(body.len() > 0);
                assert(parse_hex_u8(s@) is None);
            }
            return None;
        };
        proof {
            assert(hex_value(c) == Some(d as nat));
            assert(s@.subrange(start as int, i + 1).drop_last() =~= s@.subrange(start as int, i as int));
            assert(s@.subrange(start as int, i + 1).last() == c);
            lemma_pow16_step((i - start) as nat);
            assert(v * 16 + d < pow16((i + 1 - start) as nat)) by (nonlinear_arith)
                requires
                    v < pow16((i - start) as nat),
                    d < 16,
                    pow16((i + 1 - start) as nat) == pow16((i - start) as nat) * 16,
            ;
        }
        v = v * 16 + d;
        i = i + 1;
    }
    proof {
        assert(s@.subrange(start as int, i as int) =~= body);
    }
    if v <= 255 {
        Some(v as u8)
    } else {
        None
    }
}

pub open spec fn pow16(n: nat) -> nat
    decreases n,
{
    if n == 0 {
        1
    } else {
        16 * pow16((n - 1) as nat)
    }
}

proof fn lemma_pow16_step(n: nat)
    ensures
        pow16(n + 1) == pow16(n) * 16,
        n <= 8 ==> pow16(n) <= 4294967296,
{
    if n <= 8 {
        lemma_pow16_mono(n, 8);
        reveal_with_fuel(pow16, 9);
        assert(pow16(8) == 4294967296);
    }
}

proof fn lemma_pow16_mono(a: nat, b: nat)
    requires
        a <= b,
    ensures
        pow16(a) <= pow16(b),
    decreases b,
{
    if a < b {
        lemma_pow16_mono(a, (b - 1) as nat);
    }
}

/// A non-digit at `k` makes the whole run fail.
proof fn lemma_hex_none(s: Seq<char>, k: int)
    requires
        0 <= k < s.len(),
        hex_value(s[k]) is None,
    ensures
        hex_digits_value(s) is None,
    decreases s.len(),
{
    if k < s.len() - 1 {
        lemma_hex_none(s.drop_last(), k);
    }
}


/// `s` with ASCII letters lowered.
fn to_ascii_lower(s: &Vec<char>) -> (r: Vec<char>)
    ensures
        r@ == ascii_lower(s@),
{
    let mut r: Vec<char> = Vec::new();
    let mut i: usize = 0;
    while i < s.len()
        invariant
            i <= s@.len(),
            r@ == ascii_lower(s@.take(i as int)),
        decreases s@.len() - i,
    {
        let c = s[i];
        let l = if 'A' <= c && c <= 'Z' {
            let u: u8 = (c as u8) + 32;
            proof {
                assert((c as u8) as u32 == c as u32);
            }
            u as char
        } else {
            c
        };
        r.push(l);
        proof {
            assert(ascii_lower(s@.take(i + 1)) =~= ascii_lower(s@.take(i as int)).push(l));
        }
        i = i + 1;
    }
    assert(s@.take(i as int) =~= s@);
    r
}

/// Whether `v` spells `lit`.
fn is_name(v: &Vec<char>, lit: &str) -> (b: bool)
    ensures
        b == (v@ == lit@),
{
    let w = crate::chars::str_chars(lit);
    crate::compiler::expanded::chars_eq(v, &w)
}

/// The color named by a lowered name.
fn lookup_named(n: &Vec<char>) -> (c: Rgba8)
    ensures
        c == named_color(n@),
{
    if is_name(n, "black") {
        Rgba8 { r: 0, g: 0, b: 0, a: 255 }
    } else if is_name(n, "white") {
        Rgba8 { r: 255, g: 255, b: 255, a: 255 }
    } else if is_name(n, "red") {
        Rgba8 { r: 230, g: 50, b: 50, a: 255 }
    } else if is_name(n, "green") {
        Rgba8 { r: 50, g: 180, b: 50, a: 255 }
    } else if is_name(n, "blue") {
        Rgba8 { r: 50, g: 100, b: 230, a: 255 }
    } else if is_name(n, "yellow") {
        Rgba8 { r: 240, g: 210, b: 50, a: 255 }
    } else if is_name(n, "orange") {
        Rgba8 { r: 245, g: 130, b: 32, a: 255 }
    } else if is_name(n, "purple") {
        Rgba8 { r: 145, g: 60, b: 200, a: 255 }
    } else if is_name(n, "cyan") {
        Rgba8 { r: 40, g: 190, b: 210, a: 255 }
    } else if is_name(n, "gray") || is_name(n, "grey") {
        Rgba8 { r: 128, g: 128, b: 128, a: 255 }
    } else if is_name(n, "lightgray") || is_name(n, "lightgrey") {
        Rgba8 { r: 211, g: 211, b: 211, a: 255 }
    } else if is_name(n, "darkgray") || is_name(n, "darkgrey") {
        Rgba8 { r: 60, g: 60, b: 60, a: 255 }
    } else if is_name(n, "transparent") {
        Rgba8 { r: 0, g: 0, b: 0, a: 0 }
    } else {
        Rgba8 { r: 0, g: 0, b: 0, a: 255 }
    }
}

/// The characters of `h` between byte offsets `a` and `b`, which the
/// caller knows to be boundaries.
fn slice_bytes(h: &Vec<char>, a: usize, b: usize) -> (r: Vec<char>)
    requires
        a <= b <= 8,
        byte_index(h@, a as nat) is Some,
        byte_index(h@, b as nat) is Some,
    ensures
        r@ == byte_slice(h@, a as nat, b as nat),
        r@.len() <= b - a,
{
    let ia = find_byte_index(h, a).unwrap();
    let ib = find_byte_index(h, b).unwrap();
    proof {
        let wa = ia as int;
        let wb = ib as int;
        assert(utf8_len(h@.take(wa)) == a);
        assert(utf8_len(h@.take(wb)) == b);
        if wb < wa {
            lemma_utf8_take_mono(h@, wb, wa);
        }
        lemma_utf8_take_prefix_len(h@, wa, wb);
    }
    crate::lexer::sub_chars(h, ia, ib)
}

/// A prefix of `j` characters takes at least `j - i` more bytes than one of
/// `i` characters.
proof fn lemma_utf8_take_prefix_len(cs: Seq<char>, i: int, j: int)
    requires
        0 <= i <= j <= cs.len(),
    ensures
        utf8_len(cs.take(j)) >= utf8_len(cs.take(i)) + (j - i),
    decreases j - i,
{
    if i < j {
        lemma_utf8_take(cs, j - 1);
        lemma_utf8_take_prefix_len(cs, i, j - 1);
    }
}

/// A channel parsed from `p`, or `default`.
fn channel(p: &Vec<char>, default: u8) -> (v: u8)
    requires
        p@.len() <= 8,
    ensures
        v == byte_or(p@, default),
{
    match parse_hex_byte(p) {
        Some(v) => v,
        None => default,
    }
}

/// A one-character channel written twice, parsed, or `default`.
fn short_channel(p: &Vec<char>, default: u8) -> (v: u8)
    requires
        p@.len() <= 4,
    ensures
        v == byte_or(doubled(p@), default),
{
    let mut d: Vec<char> = Vec::new();
    let mut i: usize = 0;
    while i < 2
        invariant
            i <= 2,
            d@ == if i == 0 { Seq::<char>::empty() } else if i == 1 { p@ } else { p@ + p@ },
            p@.len() <= 4,
        decreases 2 - i,
    {
        let mut j: usize = 0;
        let ghost before = d@;
        while j < p.len()
            invariant
                j <= p@.len(),
                d@ == before + p@.take(j as int),
            decreases p@.len() - j,
        {
            d.push(p[j]);
            j = j + 1;
            assert(d@ =~= before + p@.take(j as int));
        }
        assert(p@.take(j as int) =~= p@);
        i = i + 1;
    }
    channel(&d, default)
}

/// Parses a color: `#RGB`, `#RGBA`, `#RRGGBB`, `#RRGGBBAA`, or a name; opaque
/// black for anything else.
pub fn parse_color(s: &str) -> (c: Rgba8)
    requires
        color_cuts_ok(s@),
    ensures
        c == spec_parse_color(s@),
{
    let raw = crate::chars::str_chars(s);
    let t = trim_end_chars(&trim_start_chars(&raw));
    if t.len() == 0 {
        return Rgba8 { r: 0, g: 0, b: 0, a: 255 };
    }
    if t[0] == '#' {
        let h = crate::lexer::sub_chars(&t, 1, t.len());
        proof {
            assert(h@ =~= t@.skip(1));
            assert(hex_part(s@) == Some(h@));
        }
        let n = crate::chars::utf8_length(crate::chars::string_from_chars(h.as_slice()).as_str());
        proof {
            assert(utf8_len(h@) <= usize::MAX ==> n == utf8_len(h@));
        }
        if n == 3 || n == 4 {
            proof {
                assert(n == utf8_len(h@));
                let cuts = hex_cuts(utf8_len(h@));
                assert(byte_index(h@, cuts[0]) is Some);
                assert(byte_index(h@, cuts[1]) is Some);
                if n == 4 {
                    assert(byte_index(h@, cuts[2]) is Some);
                }
                lemma_ends(h@);
            }
            let r = short_channel(&slice_bytes(&h, 0, 1), 0);
            let g = short_channel(&slice_bytes(&h, 1, 2), 0);
            let b = short_channel(&slice_bytes(&h, 2, 3), 0);
            let a = if n == 4 { short_channel(&slice_bytes(&h, 3, 4), 255) } else { 255 };
            Rgba8 { r, g, b, a }
        } else if n == 6 || n == 8 {
            proof {
                assert(n == utf8_len(h@));
                let cuts = hex_cuts(utf8_len(h@));
                assert(byte_index(h@, cuts[0]) is Some);
                assert(byte_index(h@, cuts[1]) is Some);
                if n == 8 {
                    assert(byte_index(h@, cuts[2]) is Some);
                }
                lemma_ends(h@);
            }
            let r = channel(&slice_bytes(&h, 0, 2), 0);
            let g = channel(&slice_bytes(&h, 2, 4), 0);
            let b = channel(&slice_bytes(&h, 4, 6), 0);
            let a = if n == 8 { channel(&slice_bytes(&h, 6, 8), 255) } else { 255 };
            Rgba8 { r, g, b, a }
        } else {
            proof {
                if utf8_len(h@) <= usize::MAX {
                    assert(utf8_len(h@) == n);
                } else {
                    assert(utf8_len(h@) > 8);
                }
            }
            Rgba8 { r: 0, g: 0, b: 0, a: 255 }
        }
    } else {
        lookup_named(&to_ascii_lower(&t))
    }
}

/// Whether `parse_color` can take `s`: the cuts a hex color of 3, 4, 6 or 8
/// bytes is read at fall between characters.
pub fn color_text_ok(s: &str) -> (b: bool)
    ensures
        b == color_cuts_ok(s@),
{
    let raw = crate::chars::str_chars(s);
    let t = trim_end_chars(&trim_start_chars(&raw));
    if t.len() == 0 || t[0] != '#' {
        return true;
    }
    let h = crate::lexer::sub_chars(&t, 1, t.len());
    proof {
        assert(h@ =~= t@.skip(1));
        assert(hex_part(s@) == Some(h@));
    }
    let n = crate::chars::utf8_length(crate::chars::string_from_chars(h.as_slice()).as_str());
    proof {
        if utf8_len(h@) <= usize::MAX {
            assert(n == utf8_len(h@));
        } else {
            assert(hex_cuts(utf8_len(h@)) =~= Seq::<nat>::empty());
        }
    }
    if n == 3 {
        let ok = find_byte_index(&h, 1).is_some() && find_byte_index(&h, 2).is_some();
        proof {
            let cuts = hex_cuts(utf8_len(h@));
            assert(cuts[0] == 1 && cuts[1] == 2 && cuts.len() == 2);
        }
        ok
    } else if n == 4 {
        let ok = find_byte_index(&h, 1).is_some() && find_byte_index(&h, 2).is_some()
            && find_byte_index(&h, 3).is_some();
        proof {
            let cuts = hex_cuts(utf8_len(h@));
            assert(cuts[0] == 1 && cuts[1] == 2 && cuts[2] == 3 && cuts.len() == 3);
        }
        ok
    } else if n == 6 {
        let ok = find_byte_index(&h, 2).is_some() && find_byte_index(&h, 4).is_some();
        proof {
            let cuts = hex_cuts(utf8_len(h@));
            assert(cuts[0] == 2 && cuts[1] == 4 && cuts.len() == 2);
        }
        ok
    } else if n == 8 {
        let ok = find_byte_index(&h, 2).is_some() && find_byte_index(&h, 4).is_some()
            && find_byte_index(&h, 6).is_some();
        proof {
            let cuts = hex_cuts(utf8_len(h@));
            assert(cuts[0] == 2 && cuts[1] == 4 && cuts[2] == 6 && cuts.len() == 3);
        }
        ok
    } else {
        proof {
            assert(hex_cuts(utf8_len(h@)) =~= Seq::<nat>::empty());
        }
        true
    }
}

/// Offset 0 and the full length are boundaries.
proof fn lemma_ends(cs: Seq<char>)
    ensures
        byte_index(cs, 0) == Some(0int),
        byte_index(cs, utf8_len(cs)) == Some(cs.len() as int),
{
    assert(cs.take(0) =~= Seq::<char>::empty());
    assert(cs.take(cs.len() as int) =~= cs);
    let w = choose|i: int| 0 <= i <= cs.len() && utf8_len(cs.take(i)) == 0;
    if w > 0 {
        lemma_utf8_take_mono(cs, 0, w);
    }
    let v = choose|i: int| 0 <= i <= cs.len() && utf8_len(cs.take(i)) == utf8_len(cs);
    if v < cs.len() {
        lemma_utf8_take_mono(cs, v, cs.len() as int);
    }
}

} // verus!
