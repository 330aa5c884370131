use chopsticks::config::{parse_hex_color, ConfigFile};

#[test]
fn parses_hex_with_and_without_hash() {
    assert_eq!(parse_hex_color("888888"), 0x888888);
    assert_eq!(parse_hex_color("#FFFFFF"), 0xFFFFFF);
    assert_eq!(parse_hex_color("#88aaff"), 0x88AAFF);
    assert_eq!(parse_hex_color("###123456"), 0x123456);
}

#[test]
fn ignores_bytes_after_six_digits() {
    assert_eq!(parse_hex_color("abcdef99"), 0xABCDEF);
}

#[test]
fn non_hex_pairs_read_as_zero() {
    assert_eq!(parse_hex_color("zz00ff"), 0x0000FF);
    assert_eq!(parse_hex_color("11-1ff"), 0x1100FF);
}

#[test]
fn plus_sign_pairs_read_one_digit() {
    assert_eq!(parse_hex_color("+F+1+a"), 0x0F010A);
}

#[test]
fn result_has_no_alpha() {
    assert!(parse_hex_color("ffffff") < 0x0100_0000);
}

#[test]
fn hex_round_trip() {
    for rgb in [0u32, 0x123456, 0xABCDEF, 0xFFFFFF, 0x00FF00] {
        let text = format!("#{:06X}", rgb);
        assert_eq!(parse_hex_color(&text), rgb);
    }
}

#[test]
fn default_config() {
    let c = ConfigFile::default();
    assert_eq!(c.idle_bg_opacity, 0);
    assert_eq!(c.row_bg_opacity, 0);
    assert_eq!(c.cell_bg_opacity, 0);
    assert_eq!(c.font_size_divisor, 2);
    assert_eq!(c.grid_color, "888888");
    assert_eq!(c.text_color, "FFFFFF");
    assert_eq!(c.grid_opacity, 255);
    assert_eq!(c.window_width, None);
    assert_eq!(c.window_height, None);
}
