use chopsticks::input::{
    compute_cell_bounds, compute_precision_coordinate, keycode_to_char, precision_key_to_subcell, InputState,
    ESCAPE_KEYCODE, GRID_SIZE, SPACE_KEYCODE,
};

#[test]
fn precision_keys_map_to_the_four_by_three_grid() {
    assert_eq!(precision_key_to_subcell('y'), Some((0, 0)));
    assert_eq!(precision_key_to_subcell('u'), Some((1, 0)));
    assert_eq!(precision_key_to_subcell('i'), Some((2, 0)));
    assert_eq!(precision_key_to_subcell('o'), Some((3, 0)));
    assert_eq!(precision_key_to_subcell('h'), Some((0, 1)));
    assert_eq!(precision_key_to_subcell('j'), Some((1, 1)));
    assert_eq!(precision_key_to_subcell('k'), Some((2, 1)));
    assert_eq!(precision_key_to_subcell('l'), Some((3, 1)));
    assert_eq!(precision_key_to_subcell('n'), Some((0, 2)));
    assert_eq!(precision_key_to_subcell('m'), Some((1, 2)));
    assert_eq!(precision_key_to_subcell(','), Some((2, 2)));
    assert_eq!(precision_key_to_subcell('.'), Some((3, 2)));
}

#[test]
fn other_characters_are_not_precision_keys() {
    for ch in ['a', 'p', ';', '/', ' ', 'Y', 'z'] {
        assert_eq!(precision_key_to_subcell(ch), None);
    }
}

#[test]
fn every_subcell_has_exactly_one_key() {
    let mut seen = vec![];
    for ch in ('a'..='z').chain([',', '.', ' ', ';']) {
        if let Some(sub) = precision_key_to_subcell(ch) {
            assert!(sub.0 < 4 && sub.1 < 3);
            assert!(!seen.contains(&sub));
            seen.push(sub);
        }
    }
    assert_eq!(seen.len(), 12);
}

#[test]
fn keycodes_type_qwerty_letters() {
    assert_eq!(keycode_to_char(30), Some('a'));
    assert_eq!(keycode_to_char(48), Some('b'));
    assert_eq!(keycode_to_char(16), Some('q'));
    assert_eq!(keycode_to_char(44), Some('z'));
    assert_eq!(keycode_to_char(21), Some('y'));
}

#[test]
fn space_bar_types_a_blank() {
    assert_eq!(keycode_to_char(SPACE_KEYCODE), Some(' '));
}

#[test]
fn comma_and_full_stop_keys_type_their_characters() {
    assert_eq!(keycode_to_char(51), Some(','));
    assert_eq!(keycode_to_char(52), Some('.'));
}

#[test]
fn unmapped_keycodes_type_nothing() {
    assert_eq!(keycode_to_char(ESCAPE_KEYCODE), None);
    assert_eq!(keycode_to_char(0), None);
    assert_eq!(keycode_to_char(53), None);
    assert_eq!(keycode_to_char(1000), None);
}

#[test]
fn keycodes_are_one_to_one() {
    let mut chars = vec![];
    for k in 0..300u32 {
        if let Some(c) = keycode_to_char(k) {
            assert!(!chars.contains(&c));
            chars.push(c);
        }
    }
    assert_eq!(chars.len(), 29);
}

#[test]
fn cell_bounds_divide_evenly() {
    assert_eq!(compute_cell_bounds(0, 0, 2600, 2600), (0, 0, 100, 100));
    assert_eq!(compute_cell_bounds(3, 7, 2600, 1300), (300, 350, 400, 400));
}

#[test]
fn last_cell_reaches_the_screen_edge() {
    assert_eq!(compute_cell_bounds(25, 25, 2560, 1440), (2461, 1384, 2560, 1440));
}

#[test]
fn cells_tile_each_axis() {
    let (w, h) = (2560u32, 1440u32);
    let mut prev_x = 0;
    let mut prev_y = 0;
    for i in 0..GRID_SIZE {
        let (x1, y1, x2, y2) = compute_cell_bounds(i, i, w, h);
        assert_eq!(x1, prev_x);
        assert_eq!(y1, prev_y);
        assert!(x1 <= x2 && y1 <= y2);
        prev_x = x2;
        prev_y = y2;
    }
    assert_eq!((prev_x, prev_y), (w, h));
}

#[test]
fn precision_point_is_subcell_center() {
    // Cell "aa" of a 2600x2600 screen is 100x100; sub-cells are 25x33.
    assert_eq!(compute_precision_coordinate('a', 'a', 0, 0, 2600, 2600), (12, 16));
    assert_eq!(compute_precision_coordinate('a', 'a', 3, 1, 2600, 2600), (87, 49));
    assert_eq!(compute_precision_coordinate('a', 'a', 3, 2, 2600, 2600), (87, 82));
    // Row 'c', column 'b'.
    assert_eq!(compute_precision_coordinate('c', 'b', 1, 0, 2600, 2600), (137, 216));
}

#[test]
fn precision_points_lie_in_their_cell() {
    for first in ['a', 'm', 'z'] {
        for second in ['a', 'q', 'z'] {
            let col = second as u32 - 'a' as u32;
            let row = first as u32 - 'a' as u32;
            let (x1, y1, x2, y2) = compute_cell_bounds(col, row, 1920, 1080);
            for pc in 0..4 {
                for pr in 0..3 {
                    let (x, y) = compute_precision_coordinate(first, second, pc, pr, 1920, 1080);
                    assert!(x1 <= x && x < x2 && y1 <= y && y < y2);
                }
            }
        }
    }
}

#[test]
fn input_state_variants_compare() {
    let s = InputState::WaitingThird { first: 'a', second: 'b' };
    assert_eq!(s, InputState::WaitingThird { first: 'a', second: 'b' });
    assert_ne!(s, InputState::Idle);
}
