//! Colors for the rendering callers of the toolkit, with a verified textual
//! form in the CSS functional notation (`rgb(...)` / `rgba(...)`).

use vstd::prelude::*;
use vstd::string::StringExecFns;

verus! {

/// An RGB color, optionally with an alpha channel.
#[derive(Clone, Copy, Debug, PartialEq, Eq, Structural)]
pub enum Color {
    Rgb { r: u8, g: u8, b: u8 },
    Rgba { r: u8, g: u8, b: u8, a: u8 },
}

/// The decimal digit character for `d` in 0..10.
pub open spec fn digit_char(d: int) -> char {
    if d == 0 {
        '0'
    } else if d == 1 {
        '1'
    } else if d == 2 {
        '2'
    } else if d == 3 {
        '3'
    } else if d == 4 {
        '4'
    } else if d == 5 {
        '5'
    } else if d == 6 {
        '6'
    } else if d == 7 {
        '7'
    } else if d == 8 {
        '8'
    } else {
        '9'
    }
}

/// The decimal rendering of a byte, without leading zeros.
pub open spec fn byte_chars(n: int) -> Seq<char> {
    if n < 10 {
        seq![digit_char(n)]
    } else if n < 100 {
        seq![digit_char(n / 10), digit_char(n % 10)]
    } else {
        seq![digit_char(n / 100), digit_char((n / 10) % 10), digit_char(n % 10)]
    }
}

/// The rendering of an alpha byte as a fraction of 255, to one decimal
/// place with rounding to nearest: 255 renders as `1.0`, 128 as `0.5`,
/// 0 as `0.0`.
pub open spec fn alpha_chars(a: int) -> Seq<char> {
    let tenths = (20 * a + 255) / 510;
    if tenths == 10 {
        seq!['1', '.', '0']
    } else {
        seq!['0', '.', digit_char(tenths)]
    }
}

/// The full textual form of a color.
pub open spec fn color_chars(c: Color) -> Seq<char> {
    match c {
        Color::Rgb { r, g, b } => seq!['r', 'g', 'b', '(', ' '] + byte_chars(r as int)
            + seq![',', ' '] + byte_chars(g as int) + seq![',', ' '] + byte_chars(b as int)
            + seq![')'],
        Color::Rgba { r, g, b, a } => seq!['r', 'g', 'b', 'a', '(', ' '] + byte_chars(r as int)
            + seq![',', ' '] + byte_chars(g as int) + seq![',', ' '] + byte_chars(b as int)
            + seq![',', ' '] + alpha_chars(a as int) + seq![')'],
    }
}

/// A one-character string slice holding the decimal digit for `d`.
fn digit_str(d: u8) -> (s: &'static str)
    requires
        d < 10,
    ensures
        s@ == seq![digit_char(d as int)],
{
    proof {
        reveal_strlit("0");
        reveal_strlit("1");
        reveal_strlit("2");
        reveal_strlit("3");
        reveal_strlit("4");
        reveal_strlit("5");
        reveal_strlit("6");
        reveal_strlit("7");
        reveal_strlit("8");
        reveal_strlit("9");
    }
    let s = match d {
        0 => "0",
        1 => "1",
        2 => "2",
        3 => "3",
        4 => "4",
        5 => "5",
        6 => "6",
        7 => "7",
        8 => "8",
        _ => "9",
    };
    proof {
        assert(s@ =~= seq![digit_char(d as int)]);
    }
    s
}

/// Append the decimal rendering of `n` to `out`.
fn push_byte(out: &mut String, n: u8)
    ensures
        final(out)@ == old(out)@ + byte_chars(n as int),
{
    if n < 10 {
        out.append(digit_str(n));
    } else if n < 100 {
        out.append(digit_str(n / 10));
        out.append(digit_str(n % 10));
    } else {
        out.append(digit_str(n / 100));
        out.append(digit_str((n / 10) % 10));
        out.append(digit_str(n % 10));
    }
    assert(out@ =~= old(out)@ + byte_chars(n as int));
}

/// Append the one-decimal rendering of the alpha byte `a` to `out`.
fn push_alpha(out: &mut String, a: u8)
    ensures
        final(out)@ == old(out)@ + alpha_chars(a as int),
{
    let tenths: u8 = ((20 * (a as u32) + 255) / 510) as u8;
    proof {
        reveal_strlit("1.0");
        reveal_strlit("0.");
    }
    if tenths == 10 {
        out.append("1.0");
        assert(out@ =~= old(out)@ + alpha_chars(a as int));
    } else {
        out.append("0.");
        out.append(digit_str(tenths));
        assert(out@ =~= old(out)@ + alpha_chars(a as int));
    }
}

impl Color {
    /// The CSS functional notation of the color, e.g. `rgb( 255, 0, 31)`;
    /// the alpha channel of an `Rgba` is rendered as a fraction of 255 to
    /// one decimal place.
    pub fn to_string(&self) -> (s: String)
        ensures
            s@ == color_chars(*self),
    {
        proof {
            reveal_strlit("rgb( ");
            reveal_strlit("rgba( ");
            reveal_strlit(", ");
            reveal_strlit(")");
        }
        let mut s = String::new();
        match *self {
            Color::Rgb { r, g, b } => {
                s.append("rgb( ");
                push_byte(&mut s, r);
                s.append(", ");
                push_byte(&mut s, g);
                s.append(", ");
                push_byte(&mut s, b);
                s.append(")");
            },
            Color::Rgba { r, g, b, a } => {
                s.append("rgba( ");
                push_byte(&mut s, r);
                s.append(", ");
                push_byte(&mut s, g);
                s.append(", ");
                push_byte(&mut s, b);
                s.append(", ");
                push_alpha(&mut s, a);
                s.append(")");
            },
        }
        assert(s@ =~= color_chars(*self));
        s
    }
}

} // verus!
