//! An RGBA pixel with a text form, `#rrggbb` or `#rrggbb.aa` in hexadecimal.
//! The alpha channel defaults to 255 and is left out of the text when it is 255.

use vstd::prelude::*;
use vstd::string::StrSliceExecFns;
use vstd::string::StringExecFns;
use image::Rgba;

verus! {

/// The pixel type of the `image` crate: four channels behind a public field.
#[verifier::external_type_specification]
#[verifier::external_body]
#[verifier::reject_recursive_types(T)]
pub struct ExRgba<T>(Rgba<T>);

/// The four channels of an `image::Rgba<u8>` pixel: red, green, blue, alpha.
pub uninterp spec fn rgba_channels(p: Rgba<u8>) -> Seq<u8>;

/// Builds a pixel with the public constructor `image::Rgba`. Trusted: the pixel
/// built holds the four channels it was given, in the order red, green, blue,
/// alpha.
#[verifier::external_body]
fn rgba_of(r: u8, g: u8, b: u8, a: u8) -> (p: Rgba<u8>)
    ensures
        rgba_channels(p) == seq![r, g, b, a],
{
    Rgba([r, g, b, a])
}

/// The value of a hexadecimal digit, in either case.
pub open spec fn hex_value(c: char) -> Option<nat> {
    if '0' <= c <= '9' {
        Some((c as nat - '0' as nat) as nat)
    } else if 'a' <= c <= 'f' {
        Some((c as nat - 'a' as nat + 10) as nat)
    } else if 'A' <= c <= 'F' {
        Some((c as nat - 'A' as nat + 10) as nat)
    } else {
        None
    }
}

/// The value of a channel written as two characters: two hexadecimal digits, or
/// a plus sign and one digit.
pub open spec fn channel_value(hi: char, lo: char) -> Option<u8> {
    match (hex_value(hi), hex_value(lo)) {
        (Some(h), Some(l)) => Some((16 * h + l) as u8),
        (None, Some(l)) => if hi == '+' {
            Some(l as u8)
        } else {
            None
        },
        _ => None,
    }
}

/// The channels that a text stands for, if it is a pixel text: seven characters
/// `#rrggbb`, or ten characters `#rrggbb.aa`.
pub open spec fn pixel_of(s: Seq<char>) -> Option<(u8, u8, u8, u8)> {
    if (s.len() == 7 || s.len() == 10) && s[0] == '#' && channel_value(s[1], s[2]) is Some
        && channel_value(s[3], s[4]) is Some && channel_value(s[5], s[6]) is Some {
        let r = channel_value(s[1], s[2]).unwrap();
        let g = channel_value(s[3], s[4]).unwrap();
        let b = channel_value(s[5], s[6]).unwrap();
        if s.len() == 7 {
            Some((r, g, b, 255u8))
        } else if s[7] == '.' && channel_value(s[8], s[9]) is Some {
            Some((r, g, b, channel_value(s[8], s[9]).unwrap()))
        } else {
            None
        }
    } else {
        None
    }
}

/// The hexadecimal digit for a value below 16, in lower case.
pub open spec fn hex_digit(n: nat) -> char {
    if n == 0 {
        '0'
    } else if n == 1 {
        '1'
    } else if n == 2 {
        '2'
    } else if n == 3 {
        '3'
    } else if n == 4 {
        '4'
    } else if n == 5 {
        '5'
    } else if n == 6 {
        '6'
    } else if n == 7 {
        '7'
    } else if n == 8 {
        '8'
    } else if n == 9 {
        '9'
    } else if n == 10 {
        'a'
    } else if n == 11 {
        'b'
    } else if n == 12 {
        'c'
    } else if n == 13 {
        'd'
    } else if n == 14 {
        'e'
    } else {
        'f'
    }
}

/// A channel as two hexadecimal digits.
pub open spec fn channel_text(v: u8) -> Seq<char> {
    seq![hex_digit(v as nat / 16), hex_digit(v as nat % 16)]
}

/// The text of a pixel: `#rrggbb`, and `.aa` after it unless alpha is 255.
pub open spec fn pixel_text(p: (u8, u8, u8, u8)) -> Seq<char> {
    let rgb = seq!['#'] + channel_text(p.0) + channel_text(p.1) + channel_text(p.2);
    if p.3 == 255 {
        rgb
    } else {
        rgb + seq!['.'] + channel_text(p.3)
    }
}

/// The text of a pixel stands for that pixel.
pub proof fn lemma_pixel_text_roundtrip(p: (u8, u8, u8, u8))
    ensures
        pixel_of(pixel_text(p)) == Some(p),
{
    lemma_channel_roundtrip(p.0);
    lemma_channel_roundtrip(p.1);
    lemma_channel_roundtrip(p.2);
    lemma_channel_roundtrip(p.3);
    let s = pixel_text(p);
    assert(s[1] == channel_text(p.0)[0] && s[2] == channel_text(p.0)[1]);
    assert(s[3] == channel_text(p.1)[0] && s[4] == channel_text(p.1)[1]);
    assert(s[5] == channel_text(p.2)[0] && s[6] == channel_text(p.2)[1]);
    if p.3 != 255 {
        assert(s[8] == channel_text(p.3)[0] && s[9] == channel_text(p.3)[1]);
    }
}

/// The two digits of a channel stand for that channel.
proof fn lemma_channel_roundtrip(v: u8)
    ensures
        channel_value(channel_text(v)[0], channel_text(v)[1]) == Some(v),
{
    let h = v as nat / 16;
    let l = v as nat % 16;
    assert(h < 16 && l < 16 && 16 * h + l == v);
    lemma_digit_roundtrip(h);
    lemma_digit_roundtrip(l);
}

/// A hexadecimal digit stands for its value.
proof fn lemma_digit_roundtrip(n: nat)
    requires
        n < 16,
    ensures
        hex_value(hex_digit(n)) == Some(n),
{
}

/// The digit of a value below 16, as a string.
fn digit_text(n: u8) -> (r: &'static str)
    requires
        n < 16,
    ensures
        r@ == seq![hex_digit(n as nat)],
{
    proof {
        reveal_strlit("0");
        reveal_strlit("1");
        reveal_strlit("2");
        reveal_strlit("3");
        reveal_strlit("4");
        reveal_strlit("5");
        reveal_strlit("6");
        reveal_strlit("7");
        reveal_strlit("8");
        reveal_strlit("9");
        reveal_strlit("a");
        reveal_strlit("b");
        reveal_strlit("c");
        reveal_strlit("d");
        reveal_strlit("e");
        reveal_strlit("f");
    }
    let r = match n {
        0 => "0",
        1 => "1",
        2 => "2",
        3 => "3",
        4 => "4",
        5 => "5",
        6 => "6",
        7 => "7",
        8 => "8",
        9 => "9",
        10 => "a",
        11 => "b",
        12 => "c",
        13 => "d",
        14 => "e",
        _ => "f",
    };
    proof {
        assert(r@ =~= seq![hex_digit(n as nat)]);
    }
    r
}

/// Appends a channel as two hexadecimal digits.
fn push_channel(buff: &mut String, v: u8)
    ensures
        final(buff)@ == old(buff)@ + channel_text(v),
{
    let ghost start = buff@;
    buff.append(digit_text(v / 16));
    buff.append(digit_text(v % 16));
    proof {
        assert(buff@ =~= start + channel_text(v));
    }
}

/// The value of a hexadecimal digit, in either case.
fn hex_digit_value(c: char) -> (r: Option<u8>)
    ensures
        match r {
            Some(v) => hex_value(c) == Some(v as nat),
            None => hex_value(c) is None,
        },
{
    if '0' <= c && c <= '9' {
        Some((c as u32 - '0' as u32) as u8)
    } else if 'a' <= c && c <= 'f' {
        Some((c as u32 - 'a' as u32 + 10) as u8)
    } else if 'A' <= c && c <= 'F' {
        Some((c as u32 - 'A' as u32 + 10) as u8)
    } else {
        None
    }
}

/// Parses a channel of two characters.
fn parse_hex(hi: char, lo: char) -> (r: Option<u8>)
    ensures
        r == channel_value(hi, lo),
{
    match hex_digit_value(lo) {
        Some(l) => match hex_digit_value(hi) {
            Some(h) => Some(16 * h + l),
            None => if hi == '+' {
                Some(l)
            } else {
                None
            },
        },
        None => None,
    }
}

/// The message for a text that is no pixel.
pub open spec fn pixel_error_text() -> Seq<char> {
    "invalid pixel string"@
}

/// An RGBA pixel.
#[derive(Debug, PartialEq, Eq, Structural, Copy, Clone)]
pub struct MoltPixel {
    r: u8,
    g: u8,
    b: u8,
    a: u8,
}

impl View for MoltPixel {
    type V = (u8, u8, u8, u8);

    closed spec fn view(&self) -> (u8, u8, u8, u8) {
        (self.r, self.g, self.b, self.a)
    }
}

impl MoltPixel {
    /// Create an RGB pixel with an alpha of 255
    pub fn rgb(r: u8, g: u8, b: u8) -> (p: Self)
        ensures
            p@ == (r, g, b, 255u8),
    {
        Self { r, g, b, a: 255 }
    }

    /// Create an RGB pixel with the given alpha
    pub fn rgba(r: u8, g: u8, b: u8, a: u8) -> (p: Self)
        ensures
            p@ == (r, g, b, a),
    {
        Self { r, g, b, a }
    }

    /// Get the pixel's red component.
    pub fn red(&self) -> (v: u8)
        ensures
            v == self@.0,
    {
        self.r
    }

    /// Get the pixel's green component.
    pub fn green(&self) -> (v: u8)
        ensures
            v == self@.1,
    {
        self.g
    }

    /// Get the pixel's blue component.
    pub fn blue(&self) -> (v: u8)
        ensures
            v == self@.2,
    {
        self.b
    }

    /// Get the pixel's alpha component.
    pub fn alpha(&self) -> (v: u8)
        ensures
            v == self@.3,
    {
        self.a
    }

    /// Get the pixel as an `image::Rgba` pixel.
    pub fn ipixel(&self) -> (p: Rgba<u8>)
        ensures
            rgba_channels(p) == seq![self@.0, self@.1, self@.2, self@.3],
    {
        rgba_of(self.r, self.g, self.b, self.a)
    }

    /// The text of the pixel: `#rrggbb`, and `.aa` after it unless alpha is 255.
    pub fn to_string(&self) -> (r: String)
        ensures
            r@ == pixel_text(self@),
    {
        proof {
            reveal_strlit("#");
            reveal_strlit(".");
        }
        let mut buff = "#".to_owned();
        push_channel(&mut buff, self.r);
        push_channel(&mut buff, self.g);
        push_channel(&mut buff, self.b);
        if self.a != 255 {
            buff.append(".");
            push_channel(&mut buff, self.a);
        }
        buff
    }

    /// Reads a pixel from its text. Letters may be in either case. Any text
    /// that is no pixel text is an error.
    pub fn parse(pixel: &str) -> (r: Result<MoltPixel, String>)
        ensures
            match r {
                Ok(p) => pixel_of(pixel@) == Some(p@),
                Err(e) => pixel_of(pixel@) is None && e@ == pixel_error_text(),
            },
    {
        // FIRST, check the length.
        let len = pixel.unicode_len();

        if len != 7 && len != 10 {
            return Err("invalid pixel string".to_owned());
        }

        // NEXT, check the leading character.
        if pixel.get_char(0) != '#' {
            return Err("invalid pixel string".to_owned());
        }

        // NEXT, get the RGB
        let r = match parse_hex(pixel.get_char(1), pixel.get_char(2)) {
            Some(v) => v,
            None => {
                return Err("invalid pixel string".to_owned());
            },
        };
        let g = match parse_hex(pixel.get_char(3), pixel.get_char(4)) {
            Some(v) => v,
            None => {
                return Err("invalid pixel string".to_owned());
            },
        };
        let b = match parse_hex(pixel.get_char(5), pixel.get_char(6)) {
            Some(v) => v,
            None => {
                return Err("invalid pixel string".to_owned());
            },
        };

        // NEXT, get the alpha, if any.
        let mut a: u8 = 255;

        if len == 10 {
            if pixel.get_char(7) != '.' {
                return Err("invalid pixel string".to_owned());
            }
            a = match parse_hex(pixel.get_char(8), pixel.get_char(9)) {
                Some(v) => v,
                None => {
                    return Err("invalid pixel string".to_owned());
                },
            };
        }

        Ok(MoltPixel::rgba(r, g, b, a))
    }
}

impl std::str::FromStr for MoltPixel {
    type Err = String;

    /// Reads a pixel from its text. Letters may be in either case. Any text
    /// that is no pixel text is an error.
    fn from_str(pixel: &str) -> (r: Result<Self, String>)
        ensures
            match r {
                Ok(p) => pixel_of(pixel@) == Some(p@),
                Err(e) => pixel_of(pixel@) is None && e@ == pixel_error_text(),
            },
    {
        MoltPixel::parse(pixel)
    }
}

} // verus!
