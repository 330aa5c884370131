//! User settings and the parsing of their colours.
use vstd::prelude::*;
use vstd::string::StringSliceAdditionalSpecFns;

verus! {

/// The overlay's settings.
///
/// The HiDPI scale ratio, a floating-point setting, is handled outside the
/// library, by the program that loads the settings.
pub struct ConfigFile {
    /// Background opacity while no key has been pressed.
    pub idle_bg_opacity: u8,
    /// Background opacity of the selected row.
    pub row_bg_opacity: u8,
    /// Background opacity of the selected cell.
    pub cell_bg_opacity: u8,
    /// Label font size is the cell size divided by this.
    pub font_size_divisor: u32,
    /// Grid line colour, as six hex digits.
    pub grid_color: String,
    /// Label colour, as six hex digits.
    pub text_color: String,
    /// Grid line opacity.
    pub grid_opacity: u8,
    /// Physical monitor width, when set.
    pub window_width: Option<u32>,
    /// Physical monitor height, when set.
    pub window_height: Option<u32>,
}

fn default_idle_bg_opacity() -> (r: u8)
    ensures
        r == 0,
{
    0
}

fn default_row_bg_opacity() -> (r: u8)
    ensures
        r == 0,
{
    0
}

fn default_cell_bg_opacity() -> (r: u8)
    ensures
        r == 0,
{
    0
}

fn default_font_size_divisor() -> (r: u32)
    ensures
        r == 2,
{
    2
}

fn default_grid_color() -> (r: String)
    ensures
        r@ == "888888"@,
{
    "888888".to_owned()
}

fn default_text_color() -> (r: String)
    ensures
        r@ == "FFFFFF"@,
{
    "FFFFFF".to_owned()
}

fn default_grid_opacity() -> (r: u8)
    ensures
        r == 255,
{
    255
}

impl Default for ConfigFile {
    /// Transparent backgrounds, grey opaque grid lines, white labels at half
    /// the cell size, and the monitor size left to the compositor.
    fn default() -> (r: Self)
        ensures
            r.idle_bg_opacity == 0,
            r.row_bg_opacity == 0,
            r.cell_bg_opacity == 0,
            r.font_size_divisor == 2,
            r.grid_color@ == "888888"@,
            r.text_color@ == "FFFFFF"@,
            r.grid_opacity == 255,
            r.window_width is None,
            r.window_height is None,
    {
        ConfigFile {
            idle_bg_opacity: default_idle_bg_opacity(),
            row_bg_opacity: default_row_bg_opacity(),
            cell_bg_opacity: default_cell_bg_opacity(),
            font_size_divisor: default_font_size_divisor(),
            grid_color: default_grid_color(),
            text_color: default_text_color(),
            grid_opacity: default_grid_opacity(),
            window_width: None,
            window_height: None,
        }
    }
}

/// The value of an ASCII hexadecimal digit, either case.
pub open spec fn hex_digit(b: u8) -> Option<int> {
    if 48 <= b <= 57 {
        Some(b - 48)
    } else if 97 <= b <= 102 {
        Some(b - 87)
    } else if 65 <= b <= 70 {
        Some(b - 55)
    } else {
        None
    }
}

/// The byte that a two-byte field reads as: an optional `+` followed by hex
/// digits, as `u8::from_str_radix(_, 16)` accepts them; 0 when the field is
/// not of that form.
pub open spec fn hex_pair(b0: u8, b1: u8) -> int {
    if b0 == 43 {
        match hex_digit(b1) {
            Some(d) => d,
            None => 0,
        }
    } else {
        match (hex_digit(b0), hex_digit(b1)) {
            (Some(h), Some(l)) => 16 * h + l,
            _ => 0,
        }
    }
}

/// The bytes of a colour setting after its leading `#` characters.
pub open spec fn strip_hashes(b: Seq<u8>) -> Seq<u8>
    decreases b.len(),
{
    if b.len() > 0 && b[0] == 35 {
        strip_hashes(b.drop_first())
    } else {
        b
    }
}

/// A UTF-8 continuation byte: no character starts there.
pub open spec fn is_continuation(b: u8) -> bool {
    0x80 <= b <= 0xbf
}

/// After its leading `#` characters, a colour setting has at least six bytes,
/// and characters start at bytes 2 and 4 and at byte 6 unless the text ends there.
pub open spec fn hex_color_readable(b: Seq<u8>) -> bool {
    let t = strip_hashes(b);
    &&& t.len() >= 6
    &&& !is_continuation(t[2])
    &&& !is_continuation(t[4])
    &&& (t.len() == 6 || !is_continuation(t[6]))
}

/// The 24-bit RGB value that a colour setting reads as: its first three byte
/// pairs after the leading `#` characters are red, green and blue.
pub open spec fn hex_color(b: Seq<u8>) -> u32 {
    let t = strip_hashes(b);
    (hex_pair(t[0], t[1]) * 65536 + hex_pair(t[2], t[3]) * 256 + hex_pair(t[4], t[5])) as u32
}

fn hex_digit_value(b: u8) -> (r: Option<u8>)
    ensures
        match hex_digit(b) {
            Some(d) => r == Some(d as u8),
            None => r is None,
        },
{
    if 48u8 <= b && b <= 57u8 {
        Some(b - 48u8)
    } else if 97u8 <= b && b <= 102u8 {
        Some(b - 97u8 + 10)
    } else if 65u8 <= b && b <= 70u8 {
        Some(b - 65u8 + 10)
    } else {
        None
    }
}

fn parse_hex_pair(b0: u8, b1: u8) -> (r: u8)
    ensures
        r == hex_pair(b0, b1),
{
    if b0 == 43u8 {
        match hex_digit_value(b1) {
            Some(d) => d,
            None => 0,
        }
    } else {
        match (hex_digit_value(b0), hex_digit_value(b1)) {
            (Some(h), Some(l)) => h * 16 + l,
            _ => 0,
        }
    }
}

/// Reads a colour setting such as `"#88aaff"` as a 24-bit RGB value; a byte
/// pair that is not hexadecimal reads as 0.
pub fn parse_hex_color(hex: &str) -> (r: u32)
    requires
        hex_color_readable(hex.spec_bytes()),
    ensures
        r == hex_color(hex.spec_bytes()),
        r < 0x100_0000,
{
    let b = hex.as_bytes();
    let mut start: usize = 0;
    assert(b@.subrange(0, b@.len() as int) =~= b@);
    while start < b.len() && b[start] == 35u8
        invariant
            start <= b@.len(),
            strip_hashes(b@) == strip_hashes(b@.subrange(start as int, b@.len() as int)),
        decreases b@.len() - start,
    {
        assert(b@.subrange(start as int, b@.len() as int).drop_first() =~= b@.subrange(
            start + 1,
            b@.len() as int,
        ));
        start = start + 1;
    }
    let ghost t = b@.subrange(start as int, b@.len() as int);
    assert(strip_hashes(t) == t);
    let r = parse_hex_pair(b[start], b[start + 1]);
    let g = parse_hex_pair(b[start + 2], b[start + 3]);
    let bl = parse_hex_pair(b[start + 4], b[start + 5]);
    assert(((r as u32) << 16u32) | ((g as u32) << 8u32) | (bl as u32) == (r as u32) * 65536 + (g as u32) * 256
        + (bl as u32)) by (bit_vector);
    ((r as u32) << 16) | ((g as u32) << 8) | (bl as u32)
}

/// The upper-case ASCII hexadecimal digit of a value below 16.
pub open spec fn hex_digit_char(d: int) -> u8 {
    if d < 10 {
        (48 + d) as u8
    } else {
        (55 + d) as u8
    }
}

/// The six upper-case hexadecimal digits of a 24-bit RGB value.
pub open spec fn hex_text(rgb: int) -> Seq<u8> {
    let r = rgb / 65536;
    let g = rgb / 256 % 256;
    let b = rgb % 256;
    seq![
        hex_digit_char(r / 16),
        hex_digit_char(r % 16),
        hex_digit_char(g / 16),
        hex_digit_char(g % 16),
        hex_digit_char(b / 16),
        hex_digit_char(b % 16),
    ]
}

proof fn lemma_hex_digit_char(d: int)
    requires
        0 <= d < 16,
    ensures
        hex_digit(hex_digit_char(d)) == Some(d),
        hex_digit_char(d) != 35,
        hex_digit_char(d) != 43,
        !is_continuation(hex_digit_char(d)),
{
}

/// Every 24-bit RGB value, written as six hexadecimal digits after any number
/// of `#` characters, reads back as itself.
pub proof fn lemma_hex_color_roundtrip(rgb: int, hashes: nat)
    requires
        0 <= rgb < 0x100_0000,
    ensures
        hex_color_readable(Seq::new(hashes, |i: int| 35u8) + hex_text(rgb)),
        hex_color(Seq::new(hashes, |i: int| 35u8) + hex_text(rgb)) == rgb,
    decreases hashes,
{
    let t = hex_text(rgb);
    let s = Seq::new(hashes, |i: int| 35u8) + t;
    let r = rgb / 65536;
    let g = rgb / 256 % 256;
    let b = rgb % 256;
    lemma_hex_digit_char(r / 16);
    lemma_hex_digit_char(r % 16);
    lemma_hex_digit_char(g / 16);
    lemma_hex_digit_char(g % 16);
    lemma_hex_digit_char(b / 16);
    lemma_hex_digit_char(b % 16);
    if hashes == 0 {
        assert(s =~= t);
        assert(strip_hashes(t) == t);
    } else {
        lemma_hex_color_roundtrip(rgb, (hashes - 1) as nat);
        assert(s.drop_first() =~= Seq::new((hashes - 1) as nat, |i: int| 35u8) + t);
    }
    assert(hex_pair(t[0], t[1]) == r);
    assert(hex_pair(t[2], t[3]) == g);
    assert(hex_pair(t[4], t[5]) == b);
}

} // verus!
