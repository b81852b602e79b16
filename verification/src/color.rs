use vstd::prelude::*;
use vstd::string::StringExecFns;

use crate::codec::hex_char;
use crate::codec::hex_val;
use crate::codec::is_hex;
use crate::persist::hex_digit;
use crate::persist::hex_value;
use crate::persist::push_char;
use crate::persist::str_chars;

verus! {

/// Is the text exactly a hash sign and six hexadecimal digits?
pub open spec fn is_hex_color(cs: Seq<char>) -> bool {
    cs.len() == 7 && cs[0] == '#' && is_hex(cs[1]) && is_hex(cs[2]) && is_hex(cs[3]) && is_hex(
        cs[4],
    ) && is_hex(cs[5]) && is_hex(cs[6])
}

/// The red, green and blue values a "#rrggbb" text names.
pub open spec fn hex_color_value(cs: Seq<char>) -> (int, int, int) {
    (
        hex_val(cs[1]) * 16 + hex_val(cs[2]),
        hex_val(cs[3]) * 16 + hex_val(cs[4]),
        hex_val(cs[5]) * 16 + hex_val(cs[6]),
    )
}

/// Reads a "#rrggbb" colour; nothing where the text is not exactly that
/// shape.
pub fn parse_hex_color(s: &str) -> (r: Option<(u8, u8, u8)>)
    ensures
        is_hex_color(s@) ==> (r matches Some(c) && (c.0 as int, c.1 as int, c.2 as int)
            == hex_color_value(s@)),
        !is_hex_color(s@) ==> r is None,
{
    let cs = str_chars(s);
    if cs.len() != 7 {
        return None;
    }
    if cs[0] != '#' {
        return None;
    }
    let h1 = match hex_value(cs[1]) {
        Some(h) => h,
        None => {
            return None;
        },
    };
    let h2 = match hex_value(cs[2]) {
        Some(h) => h,
        None => {
            return None;
        },
    };
    let h3 = match hex_value(cs[3]) {
        Some(h) => h,
        None => {
            return None;
        },
    };
    let h4 = match hex_value(cs[4]) {
        Some(h) => h,
        None => {
            return None;
        },
    };
    let h5 = match hex_value(cs[5]) {
        Some(h) => h,
        None => {
            return None;
        },
    };
    let h6 = match hex_value(cs[6]) {
        Some(h) => h,
        None => {
            return None;
        },
    };
    Some((h1 * 16 + h2, h3 * 16 + h4, h5 * 16 + h6))
}

/// Writes a colour as "#rrggbb", two lower-case hexadecimal digits a part.
pub fn hex_color_string(red: u8, green: u8, blue: u8) -> (r: String)
    ensures
        r@ == seq![
            '#',
            hex_char(red as int / 16),
            hex_char(red as int % 16),
            hex_char(green as int / 16),
            hex_char(green as int % 16),
            hex_char(blue as int / 16),
            hex_char(blue as int % 16),
        ],
{
    let mut out = String::new();
    out.append("#");
    push_char(&mut out, hex_digit(red / 16));
    push_char(&mut out, hex_digit(red % 16));
    push_char(&mut out, hex_digit(green / 16));
    push_char(&mut out, hex_digit(green % 16));
    push_char(&mut out, hex_digit(blue / 16));
    push_char(&mut out, hex_digit(blue % 16));
    proof {
        reveal_strlit("#");
        assert("#"@ =~= seq!['#']);
        assert(out@ =~= seq![
            '#',
            hex_char(red as int / 16),
            hex_char(red as int % 16),
            hex_char(green as int / 16),
            hex_char(green as int % 16),
            hex_char(blue as int / 16),
            hex_char(blue as int % 16),
        ]);
    }
    out
}

} // verus!
