//! The rose palette and the configurable accent color.

use vstd::prelude::*;
use crate::text::{str_chars, trim, trim_str};

verus! {

/// A truecolor RGB triple.
#[derive(Debug, Clone, Copy, PartialEq, Eq, Structural)]
pub struct Rgb {
    pub r: u8,
    pub g: u8,
    pub b: u8,
}

/// Primary accent: focused chrome, selection, reader title, footer keys.
pub fn rose() -> (c: Rgb)
    ensures
        c == (Rgb { r: 0xE0, g: 0x6C, b: 0x9A }),
{
    Rgb { r: 0xE0, g: 0x6C, b: 0x9A }
}

/// Muted grey the accent recedes to while the help overlay is open.
pub fn muted() -> (c: Rgb)
    ensures
        c == (Rgb { r: 0x80, g: 0x80, b: 0x80 }),
{
    Rgb { r: 0x80, g: 0x80, b: 0x80 }
}

/// Top of the petal gradient (lightest).
pub fn rose_light() -> (c: Rgb)
    ensures
        c == (Rgb { r: 0xF2, g: 0xA9, b: 0xC4 }),
{
    Rgb { r: 0xF2, g: 0xA9, b: 0xC4 }
}

/// Bottom of the petal gradient (deepest).
pub fn rose_deep() -> (c: Rgb)
    ensures
        c == (Rgb { r: 0xB0, g: 0x39, b: 0x5B }),
{
    Rgb { r: 0xB0, g: 0x39, b: 0x5B }
}

/// Green stem/leaf in the rose art.
pub fn leaf() -> (c: Rgb)
    ensures
        c == (Rgb { r: 0x6B, g: 0x9E, b: 0x78 }),
{
    Rgb { r: 0x6B, g: 0x9E, b: 0x78 }
}

/// The accent in use: the configured color when it parses, else rose.
pub fn accent_from(config: Option<&str>) -> (c: Rgb)
    ensures
        c == match config {
            Some(s) => match parse_hex_spec(s@) {
                Some(x) => x,
                None => Rgb { r: 0xE0, g: 0x6C, b: 0x9A },
            },
            None => Rgb { r: 0xE0, g: 0x6C, b: 0x9A },
        },
{
    match config {
        Some(s) => match parse_hex(s) {
            Some(x) => x,
            None => rose(),
        },
        None => rose(),
    }
}

/// The value of a hex digit, if `c` is one (either case).
pub open spec fn hex_val(c: char) -> Option<nat> {
    if '0' <= c && c <= '9' {
        Some(((c as int) - ('0' as int)) as nat)
    } else if 'a' <= c && c <= 'f' {
        Some(((c as int) - ('a' as int) + 10) as nat)
    } else if 'A' <= c && c <= 'F' {
        Some(((c as int) - ('A' as int) + 10) as nat)
    } else {
        None
    }
}

/// Whether every character of `s` is a hex digit.
pub open spec fn all_hex(s: Seq<char>) -> bool {
    forall|i: int| 0 <= i < s.len() ==> (#[trigger] hex_val(s[i])) is Some
}

/// The digits of a color: trimmed, without one leading `#`.
pub open spec fn hex_digits(s: Seq<char>) -> Seq<char> {
    let t = trim(s);
    if t.len() > 0 && t[0] == '#' {
        t.drop_first()
    } else {
        t
    }
}

/// The color a hex string names: six digits `rrggbb`, or three digits each
/// doubled (`#f00` is `#ff0000`), with an optional `#` and surrounding
/// whitespace; anything else names none.
pub open spec fn parse_hex_spec(s: Seq<char>) -> Option<Rgb> {
    let d = hex_digits(s);
    if !all_hex(d) {
        None
    } else if d.len() == 6 {
        Some(
            Rgb {
                r: (hex_val(d[0])->0 * 16 + hex_val(d[1])->0) as u8,
                g: (hex_val(d[2])->0 * 16 + hex_val(d[3])->0) as u8,
                b: (hex_val(d[4])->0 * 16 + hex_val(d[5])->0) as u8,
            },
        )
    } else if d.len() == 3 {
        Some(
            Rgb {
                r: (hex_val(d[0])->0 * 17) as u8,
                g: (hex_val(d[1])->0 * 17) as u8,
                b: (hex_val(d[2])->0 * 17) as u8,
            },
        )
    } else {
        None
    }
}

fn hex_digit(c: char) -> (r: Option<u8>)
    ensures
        match hex_val(c) {
            Some(v) => r == Some(v as u8) && v < 16,
            None => r is None,
        },
{
    if '0' <= c && c <= '9' {
        Some((c as u32 - '0' as u32) as u8)
    } else if 'a' <= c && c <= 'f' {
        Some((c as u32 - 'a' as u32 + 10) as u8)
    } else if 'A' <= c && c <= 'F' {
        Some((c as u32 - 'A' as u32 + 10) as u8)
    } else {
        None
    }
}

/// Parse a hex color for the configurable accent: `#rrggbb`/`rrggbb` or the
/// shorthand `#rgb`/`rgb`, any case, surrounding whitespace allowed. `None`
/// for anything malformed.
pub fn parse_hex(s: &str) -> (r: Option<Rgb>)
    ensures
        r == parse_hex_spec(s@),
{
    let t = trim_str(s);
    let tv = str_chars(t.as_str());
    let start: usize = if tv.len() > 0 && tv[0] == '#' {
        1
    } else {
        0
    };
    let mut d: Vec<u8> = Vec::new();
    let mut i: usize = start;
    let ghost ds = hex_digits(s@);
    proof {
        assert(ds =~= tv@.skip(start as int));
    }
    while i < tv.len()
        invariant
            start <= i <= tv@.len(),
            ds == tv@.skip(start as int),
            ds == hex_digits(s@),
            d@.len() == i - start,
            forall|k: int| 0 <= k < d@.len() ==> hex_val(#[trigger] ds[k]) == Some(d@[k] as nat) && d@[k] < 16,
        decreases tv@.len() - i,
    {
        match hex_digit(tv[i]) {
            Some(v) => {
                d.push(v);
                proof {
                    assert(ds[i - start] == tv@[i as int]);
                }
            },
            None => {
                proof {
                    assert(ds[i - start] == tv@[i as int]);
                    assert(!all_hex(ds));
                }
                return None;
            },
        }
        i += 1;
    }
    proof {
        assert(all_hex(ds)) by {
            assert forall|k: int| 0 <= k < ds.len() implies (#[trigger] hex_val(ds[k])) is Some by {
                assert(hex_val(ds[k]) == Some(d@[k] as nat));
            }
        }
    }
    if d.len() == 6 {
        proof {
            assert(hex_val(ds[0]) == Some(d@[0] as nat));
            assert(hex_val(ds[1]) == Some(d@[1] as nat));
            assert(hex_val(ds[2]) == Some(d@[2] as nat));
            assert(hex_val(ds[3]) == Some(d@[3] as nat));
            assert(hex_val(ds[4]) == Some(d@[4] as nat));
            assert(hex_val(ds[5]) == Some(d@[5] as nat));
        }
        Some(Rgb { r: d[0] * 16 + d[1], g: d[2] * 16 + d[3], b: d[4] * 16 + d[5] })
    } else if d.len() == 3 {
        proof {
            assert(hex_val(ds[0]) == Some(d@[0] as nat));
            assert(hex_val(ds[1]) == Some(d@[1] as nat));
            assert(hex_val(ds[2]) == Some(d@[2] as nat));
        }
        Some(Rgb { r: d[0] * 17, g: d[1] * 17, b: d[2] * 17 })
    } else {
        None
    }
}

} // verus!
