use chopsticks::config::ConfigFile;
use chopsticks::input::compute_precision_coordinate;
use chopsticks::render::{
    blend_pixel, blit_glyph, draw_grid, draw_precision_grid, label_font_size, label_layout, render_frame, PixelBuffer,
};
use memmap2::MmapMut;

fn buffer(w: u32, h: u32) -> PixelBuffer {
    let size = PixelBuffer::byte_size(w, h);
    let data = MmapMut::map_anon(size).unwrap();
    PixelBuffer::new(w, h, data)
}

fn count(b: &PixelBuffer, color: u32) -> usize {
    let mut n = 0;
    for y in 0..b.height {
        for x in 0..b.width {
            if b.get_pixel(x, y) == color {
                n += 1;
            }
        }
    }
    n
}

#[test]
fn checked_constructor_checks_the_map_length() {
    let data = MmapMut::map_anon(24).unwrap();
    let b = PixelBuffer::try_new(3, 2, data).unwrap();
    assert_eq!((b.width, b.height, b.stride), (3, 2, 12));
    let data = MmapMut::map_anon(20).unwrap();
    assert!(PixelBuffer::try_new(3, 2, data).is_none());
    let data = MmapMut::map_anon(4).unwrap();
    assert!(PixelBuffer::try_new(u32::MAX / 2, 1, data).is_none());
}

#[test]
fn new_buffer_has_stride_and_size() {
    assert_eq!(PixelBuffer::byte_size(3, 2), 24);
    let b = buffer(3, 2);
    assert_eq!(b.stride, 12);
    assert_eq!(b.data.len(), 24);
}

#[test]
fn fill_paints_every_pixel_little_endian() {
    let mut b = buffer(4, 3);
    b.fill(0x11223344);
    assert_eq!(count(&b, 0x11223344), 12);
    assert_eq!(&b.data[0..4], &[0x44, 0x33, 0x22, 0x11]);
}

#[test]
fn set_then_get_pixel() {
    let mut b = buffer(4, 3);
    b.fill(0);
    b.set_pixel(2, 1, 0xDEADBEEF);
    assert_eq!(b.get_pixel(2, 1), 0xDEADBEEF);
    assert_eq!(b.get_pixel(1, 2), 0);
    assert_eq!(count(&b, 0xDEADBEEF), 1);
}

#[test]
fn out_of_bounds_pixels_are_ignored() {
    let mut b = buffer(4, 3);
    b.fill(7);
    b.set_pixel(4, 0, 9);
    b.set_pixel(0, 3, 9);
    assert_eq!(count(&b, 7), 12);
    assert_eq!(b.get_pixel(4, 0), 0);
    assert_eq!(b.get_pixel(100, 100), 0);
}

#[test]
fn fill_rect_paints_exactly_the_rectangle_clipped() {
    let mut b = buffer(10, 10);
    b.fill(0);
    b.fill_rect(8, 1, 5, 2, 3);
    assert_eq!(count(&b, 3), 4);
    assert_eq!(b.get_pixel(8, 1), 3);
    assert_eq!(b.get_pixel(9, 2), 3);
    assert_eq!(b.get_pixel(9, 3), 0);
}

#[test]
fn hline_and_vline_are_clipped() {
    let mut b = buffer(10, 5);
    b.fill(0);
    b.draw_hline(2, 3, 100, 1);
    assert_eq!(count(&b, 1), 7);
    b.draw_vline(0, 1, 100, 2);
    assert_eq!(count(&b, 2), 4);
    assert_eq!(b.get_pixel(0, 0), 0);
}

#[test]
fn grid_lines_sit_on_cell_edges() {
    let mut b = buffer(52, 26);
    b.fill(0);
    draw_grid(&mut b, 52, 26, 5);
    // Vertical lines at 0, 2, 4, ..., 50 and 51; horizontal lines on every row.
    for y in 0..26 {
        for x in 0..52 {
            assert_eq!(b.get_pixel(x, y), 5);
        }
    }
    let mut c = buffer(260, 260);
    c.fill(0);
    draw_grid(&mut c, 260, 260, 5);
    assert_eq!(c.get_pixel(10, 3), 5);
    assert_eq!(c.get_pixel(3, 10), 5);
    assert_eq!(c.get_pixel(259, 3), 5);
    assert_eq!(c.get_pixel(3, 4), 0);
    assert_eq!(c.get_pixel(11, 11), 0);
}

#[test]
fn precision_grid_cuts_the_cell() {
    let mut b = buffer(2600, 780);
    b.fill(0);
    draw_precision_grid(&mut b, 2600, 780, 0, 0, 9);
    // Cell "aa" spans x 0..100, y 0..30; sub-cells are 25 wide, 10 high.
    assert_eq!(b.get_pixel(25, 3), 9);
    assert_eq!(b.get_pixel(50, 3), 9);
    assert_eq!(b.get_pixel(75, 3), 9);
    assert_eq!(b.get_pixel(60, 10), 9);
    assert_eq!(b.get_pixel(60, 20), 9);
    assert_eq!(b.get_pixel(60, 3), 0);
    assert_eq!(b.get_pixel(60, 15), 0);
    assert_eq!(b.get_pixel(26, 3), 0);
}

#[test]
fn blend_exact_values() {
    assert_eq!(blend_pixel(0xFFFFFFFF, 0x00000000, 255), 0xFFFFFFFF);
    assert_eq!(blend_pixel(0xFFFFFFFF, 0x00123456, 0), 0xFF123456);
    assert_eq!(blend_pixel(0xFFFFFFFF, 0x00000000, 128), 0xFF808080);
    assert_eq!(blend_pixel(0xFF00FF00, 0x00FF0000, 51), 0xFFCC3300);
}

#[test]
fn glyph_blit_blends_covered_pixels_only() {
    let mut b = buffer(4, 4);
    b.fill(0);
    // A 2x2 glyph at (1, 2) with one uncovered and one half-covered pixel.
    blit_glyph(&mut b, 1, 2, 2, &[255, 0, 128, 255], 0xFFFFFFFF);
    assert_eq!(b.get_pixel(1, 2), 0xFFFFFFFF);
    assert_eq!(b.get_pixel(2, 2), 0);
    assert_eq!(b.get_pixel(1, 3), 0xFF808080);
    assert_eq!(b.get_pixel(2, 3), 0xFFFFFFFF);
    assert_eq!(count(&b, 0), 13);
}

#[test]
fn zero_width_blank_glyph_changes_nothing() {
    let mut b = buffer(2, 2);
    b.fill(5);
    blit_glyph(&mut b, 0, 0, 0, &[0, 0, 0], 0xFFFFFFFF);
    assert_eq!(count(&b, 5), 4);
}

#[test]
fn glyph_blit_clips_off_screen_pixels() {
    let mut b = buffer(2, 2);
    b.fill(0);
    blit_glyph(&mut b, -1, -1, 2, &[255, 255, 255, 255], 0xFF0000FF);
    assert_eq!(b.get_pixel(0, 0), 0xFF0000FF);
    assert_eq!(count(&b, 0), 3);
}

#[test]
fn font_size_is_smaller_cell_side_over_divisor() {
    assert_eq!(label_font_size(2600, 1300, 2), 25);
    assert_eq!(label_font_size(2560, 1440, 2), 27);
    assert_eq!(label_font_size(2560, 1440, 1), 55);
}

#[test]
fn idle_labels_name_every_cell() {
    let labels = label_layout(2600, 2600, None, None);
    assert_eq!(labels.len(), 676);
    assert_eq!(labels[0].text, b"aa".to_vec());
    assert_eq!((labels[0].cx, labels[0].cy), (50, 50));
    assert_eq!(labels[27].text, b"bb".to_vec());
    assert_eq!(labels[675].text, b"zz".to_vec());
    assert_eq!((labels[675].cx, labels[675].cy), (2550, 2550));
}

#[test]
fn row_labels_name_columns() {
    let labels = label_layout(2600, 1300, Some(2), None);
    assert_eq!(labels.len(), 26);
    assert_eq!(labels[3].text, b"d".to_vec());
    assert_eq!((labels[3].cx, labels[3].cy), (350, 125));
}

#[test]
fn precision_labels_sit_on_click_points() {
    let labels = label_layout(2600, 2600, None, Some((2, 1)));
    assert_eq!(labels.len(), 12);
    let keys = b"yuiohjklnm,.";
    for (k, label) in labels.iter().enumerate() {
        assert_eq!(label.text, vec![keys[k]]);
        let p = compute_precision_coordinate('c', 'b', (k % 4) as u32, (k / 4) as u32, 2600, 2600);
        assert_eq!((label.cx, label.cy), p);
    }
}

#[test]
fn idle_frame_draws_grid_over_background() {
    let mut b = buffer(260, 260);
    let mut config = ConfigFile::default();
    config.idle_bg_opacity = 0x80;
    let plan = render_frame(&mut b, 260, 260, None, None, &config);
    assert_eq!(b.get_pixel(0, 0), 0xFF888888);
    assert_eq!(b.get_pixel(5, 5), 0x80111133);
    assert_eq!(plan.font_size, 5);
    assert_eq!(plan.text_color, 0xFFFFFFFF);
    assert_eq!(plan.labels.len(), 676);
}

#[test]
fn row_frame_highlights_the_row() {
    let mut b = buffer(260, 260);
    let mut config = ConfigFile::default();
    config.row_bg_opacity = 0x40;
    let plan = render_frame(&mut b, 260, 260, Some(1), None, &config);
    assert_eq!(b.get_pixel(5, 15), 0x40111133);
    assert_eq!(b.get_pixel(5, 25), 0);
    assert_eq!(b.get_pixel(5, 20), 0xFF888888);
    assert_eq!(plan.labels.len(), 26);
}

#[test]
fn cell_frame_highlights_the_cell_and_its_precision_grid() {
    let mut b = buffer(2600, 780);
    let mut config = ConfigFile::default();
    config.cell_bg_opacity = 0xFF;
    config.grid_color = "#102030".to_string();
    config.grid_opacity = 0x7F;
    config.text_color = "ABCDEF".to_string();
    let plan = render_frame(&mut b, 2600, 780, Some(0), Some((0, 0)), &config);
    assert_eq!(b.get_pixel(10, 2), 0xFF333399);
    assert_eq!(b.get_pixel(25, 2), 0x7F102030);
    assert_eq!(b.get_pixel(10, 20), 0x7F102030);
    assert_eq!(b.get_pixel(110, 2), 0);
    assert_eq!(plan.text_color, 0xFFABCDEF);
    assert_eq!(plan.labels.len(), 12);
}
