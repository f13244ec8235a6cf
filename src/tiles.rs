//! Naming and configuration of map tiles.

use vstd::prelude::*;
use vstd::string::StringExecFns;

verus! {

/// Why drawing the graph failed.
#[derive(Clone, Debug, PartialEq, Eq)]
pub enum GraphVizError {
    IoError(String),
    ParseError(String),
    ImageError(String),
}

/// One tile of a grid of `rows` by `columns` tiles.
#[derive(Clone, Copy, Debug, PartialEq, Eq, Structural)]
pub struct TileConfig {
    pub rows: u32,
    pub columns: u32,
    pub row_index: u32,
    pub column_index: u32,
    pub tile_size: u32,
    pub zoom_level: u32,
}

/// The character of a decimal digit.
pub open spec fn digit_char(d: nat) -> char {
    if d == 0 {
        '0'
    } else if d == 1 {
        '1'
    } else if d == 2 {
        '2'
    } else if d == 3 {
        '3'
    } else if d == 4 {
        '4'
    } else if d == 5 {
        '5'
    } else if d == 6 {
        '6'
    } else if d == 7 {
        '7'
    } else if d == 8 {
        '8'
    } else {
        '9'
    }
}

/// The decimal text of `n`, without leading zeros.
pub open spec fn decimal(n: nat) -> Seq<char>
    decreases n,
{
    if n < 10 {
        seq![digit_char(n)]
    } else {
        decimal(n / 10).push(digit_char(n % 10))
    }
}

/// The text of one decimal digit.
fn digit_text(d: u32) -> (r: &'static str)
    requires
        d < 10,
    ensures
        r@ == seq![digit_char(d as nat)],
{
    proof {
        reveal_strlit("0");
        reveal_strlit("1");
        reveal_strlit("2");
        reveal_strlit("3");
        reveal_strlit("4");
        reveal_strlit("5");
        reveal_strlit("6");
        reveal_strlit("7");
        reveal_strlit("8");
        reveal_strlit("9");
    }
    if d == 0 {
        "0"
    } else if d == 1 {
        "1"
    } else if d == 2 {
        "2"
    } else if d == 3 {
        "3"
    } else if d == 4 {
        "4"
    } else if d == 5 {
        "5"
    } else if d == 6 {
        "6"
    } else if d == 7 {
        "7"
    } else if d == 8 {
        "8"
    } else {
        "9"
    }
}

/// Appends the decimal text of `n` to `s`.
fn push_decimal(s: &mut String, n: u32)
    ensures
        final(s)@ == old(s)@ + decimal(n as nat),
    decreases n,
{
    if n >= 10 {
        push_decimal(s, n / 10);
    }
    s.append(digit_text(n % 10));
    assert(decimal(n as nat) == if n < 10 {
        seq![digit_char(n as nat)]
    } else {
        decimal((n / 10) as nat).push(digit_char((n % 10) as nat))
    });
}

/// The file name of tile (`x`, `y`) at `zoom_level`:
/// `tile_z<zoom>_x<x>_y<y>.png`.
pub fn get_tile_filename(zoom_level: u32, x: u32, y: u32) -> (r: String)
    ensures
        r@ == "tile_z"@ + decimal(zoom_level as nat) + "_x"@ + decimal(x as nat) + "_y"@ + decimal(
            y as nat,
        ) + ".png"@,
{
    let mut s = String::from_str("tile_z");
    push_decimal(&mut s, zoom_level);
    s.append("_x");
    push_decimal(&mut s, x);
    s.append("_y");
    push_decimal(&mut s, y);
    s.append(".png");
    s
}

} // verus!
