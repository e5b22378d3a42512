use crate::raster::{transparent_spec, Pixel};
use vstd::prelude::*;
use vstd::string::{is_ascii, is_ascii_spec_bytes};

verus! {

/// Why a color string was refused.
#[derive(Clone, Copy, Debug, PartialEq, Eq, Structural)]
pub enum ColorError {
    /// After trimming and an optional `#`, the text is neither 6 nor 8 long
    /// (or holds non-ASCII characters).
    BadLength,
    /// A two-character component is not a hexadecimal byte.
    InvalidComponent,
}

pub open spec fn is_ws(c: u8) -> bool {
    c == 0x20 || (0x09 <= c && c <= 0x0d)
}

pub open spec fn hex_digit(c: u8) -> Option<u8> {
    if 0x30 <= c && c <= 0x39 {
        Some((c - 0x30) as u8)
    } else if 0x61 <= c && c <= 0x66 {
        Some((c - 0x61 + 10) as u8)
    } else if 0x41 <= c && c <= 0x46 {
        Some((c - 0x41 + 10) as u8)
    } else {
        None
    }
}

/// Two characters read as a base-16 byte; a leading `+` sign is allowed.
pub open spec fn hex_byte_spec(hi: u8, lo: u8) -> Option<u8> {
    if hi == 0x2b {
        hex_digit(lo)
    } else {
        match (hex_digit(hi), hex_digit(lo)) {
            (Some(a), Some(b)) => Some((a * 16 + b) as u8),
            _ => None,
        }
    }
}

fn hex_digit_of(c: u8) -> (r: Option<u8>)
    ensures
        r == hex_digit(c),
{
    if 0x30 <= c && c <= 0x39 {
        Some(c - 0x30)
    } else if 0x61 <= c && c <= 0x66 {
        Some(c - 0x61 + 10)
    } else if 0x41 <= c && c <= 0x46 {
        Some(c - 0x41 + 10)
    } else {
        None
    }
}

/// Reads two characters as a hexadecimal byte.
pub fn parse_hex_byte(hi: u8, lo: u8) -> (r: Option<u8>)
    ensures
        r == hex_byte_spec(hi, lo),
{
    if hi == 0x2b {
        return hex_digit_of(lo);
    }
    match (hex_digit_of(hi), hex_digit_of(lo)) {
        (Some(a), Some(b)) => Some(a * 16 + b),
        _ => None,
    }
}

/// Number of whitespace bytes at the start of `s`.
pub open spec fn leading_ws(s: Seq<u8>) -> int
    decreases s.len(),
{
    if s.len() == 0 || !is_ws(s[0]) {
        0
    } else {
        1 + leading_ws(s.drop_first())
    }
}

/// Number of whitespace bytes at the end of `s`.
pub open spec fn trailing_ws(s: Seq<u8>) -> int
    decreases s.len(),
{
    if s.len() == 0 || !is_ws(s.last()) {
        0
    } else {
        1 + trailing_ws(s.drop_last())
    }
}

pub open spec fn trimmed(s: Seq<u8>) -> Seq<u8> {
    let rest = s.subrange(leading_ws(s), s.len() as int);
    rest.subrange(0, rest.len() - trailing_ws(rest))
}

pub open spec fn lower(c: u8) -> u8 {
    if 0x41 <= c && c <= 0x5a {
        (c + 32) as u8
    } else {
        c
    }
}

/// The word `transparent` in ASCII.
pub open spec fn transparent_word() -> Seq<u8> {
    seq![0x74u8, 0x72, 0x61, 0x6e, 0x73, 0x70, 0x61, 0x72, 0x65, 0x6e, 0x74]
}

pub open spec fn is_transparent_word(t: Seq<u8>) -> bool {
    t.len() == 11 && forall|i: int| 0 <= i < 11 ==> lower(#[trigger] t[i]) == transparent_word()[i]
}

/// The color that trimmed text `t` names.
pub open spec fn color_of_trimmed(t: Seq<u8>) -> Result<Pixel, ColorError> {
    if is_transparent_word(t) {
        Ok(transparent_spec())
    } else {
        let h = if t.len() > 0 && t[0] == 0x23 {
            t.drop_first()
        } else {
            t
        };
        if h.len() != 6 && h.len() != 8 {
            Err(ColorError::BadLength)
        } else {
            match (
                hex_byte_spec(h[0], h[1]),
                hex_byte_spec(h[2], h[3]),
                hex_byte_spec(h[4], h[5]),
            ) {
                (Some(r), Some(g), Some(b)) => if h.len() == 8 {
                    match hex_byte_spec(h[6], h[7]) {
                        Some(a) => Ok(Pixel { r, g, b, a }),
                        None => Err(ColorError::InvalidComponent),
                    }
                } else {
                    Ok(Pixel { r, g, b, a: 255 })
                },
                _ => Err(ColorError::InvalidComponent),
            }
        }
    }
}

/// The bytes of ASCII text.
pub open spec fn char_bytes(s: Seq<char>) -> Seq<u8> {
    Seq::new(s.len(), |i: int| s[i] as u8)
}

/// Parses `transparent` (any case) or `#RRGGBB` / `#RRGGBBAA` (the `#` is
/// optional), ignoring surrounding whitespace.
pub fn parse_color(input: &str) -> (r: Result<Pixel, ColorError>)
    ensures
        !is_ascii(input) ==> r == Err::<Pixel, ColorError>(ColorError::BadLength),
        is_ascii(input) ==> r == color_of_trimmed(trimmed(char_bytes(input@))),
{
    proof {
        is_ascii_spec_bytes(input);
    }
    if !input.is_ascii() {
        return Err(ColorError::BadLength);
    }
    let bytes = input.as_bytes();
    let ghost s = bytes@;
    assert(s =~= char_bytes(input@));
    let n = bytes.len();
    let mut start: usize = 0;
    assert(s.subrange(0, n as int) =~= s);
    while start < n && (bytes[start] == 0x20 || (0x09 <= bytes[start] && bytes[start] <= 0x0d))
        invariant
            s == bytes@,
            n == s.len(),
            start <= n,
            leading_ws(s) == start + leading_ws(s.subrange(start as int, n as int)),
        decreases n - start,
    {
        assert(s.subrange(start as int, n as int).drop_first() =~= s.subrange(
            start as int + 1,
            n as int,
        ));
        start += 1;
    }
    let ghost rest = s.subrange(start as int, n as int);
    assert(leading_ws(rest) == 0);
    let mut end: usize = n;
    assert(rest.subrange(0, (end - start) as int) =~= rest);
    while end > start && (bytes[end - 1] == 0x20 || (0x09 <= bytes[end - 1] && bytes[end - 1]
        <= 0x0d))
        invariant
            s == bytes@,
            n == s.len(),
            start <= end <= n,
            rest == s.subrange(start as int, n as int),
            trailing_ws(rest) == (n - end) + trailing_ws(rest.subrange(0, end - start)),
        decreases end,
    {
        assert(rest.subrange(0, end - start).drop_last() =~= rest.subrange(0, end - start - 1));
        end -= 1;
    }
    let ghost t = rest.subrange(0, (end - start) as int);
    assert(t =~= trimmed(s));
    let len = end - start;
    if len == 11 {
        let mut i: usize = 0;
        let mut same = true;
        while i < 11
            invariant
                start + 11 == end <= n,
                n == s.len(),
                s == bytes@,
                t == s.subrange(start as int, end as int),
                i <= 11,
                same == forall|j: int| 0 <= j < i ==> lower(#[trigger] t[j]) == transparent_word()[j],
            decreases 11 - i,
        {
            let c = bytes[start + i];
            let lc = if 0x41 <= c && c <= 0x5a {
                c + 32
            } else {
                c
            };
            let want: u8 = if i == 0 || i == 10 {
                0x74
            } else if i == 1 || i == 7 {
                0x72
            } else if i == 2 || i == 6 {
                0x61
            } else if i == 3 || i == 9 {
                0x6e
            } else if i == 4 {
                0x73
            } else if i == 5 {
                0x70
            } else {
                0x65
            };
            assert(t[i as int] == c);
            assert(want == transparent_word()[i as int]);
            if lc != want {
                same = false;
            }
            i += 1;
        }
        if same {
            return Ok(Pixel::transparent());
        }
    }
    let mut h0 = start;
    if len > 0 && bytes[start] == 0x23 {
        h0 = start + 1;
    }
    let hl = end - h0;
    let ghost h = s.subrange(h0 as int, end as int);
    assert(h =~= (if t.len() > 0 && t[0] == 0x23 {
        t.drop_first()
    } else {
        t
    }));
    if hl != 6 && hl != 8 {
        return Err(ColorError::BadLength);
    }
    let r = parse_hex_byte(bytes[h0], bytes[h0 + 1]);
    let g = parse_hex_byte(bytes[h0 + 2], bytes[h0 + 3]);
    let b = parse_hex_byte(bytes[h0 + 4], bytes[h0 + 5]);
    match (r, g, b) {
        (Some(r), Some(g), Some(b)) => {
            if hl == 8 {
                match parse_hex_byte(bytes[h0 + 6], bytes[h0 + 7]) {
                    Some(a) => Ok(Pixel { r, g, b, a }),
                    None => Err(ColorError::InvalidComponent),
                }
            } else {
                Ok(Pixel { r, g, b, a: 255 })
            }
        },
        _ => Err(ColorError::InvalidComponent),
    }
}

} // verus!
