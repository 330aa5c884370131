use chopsticks::input::{compute_cell_bounds, compute_precision_coordinate, InputState, ESCAPE_KEYCODE, SPACE_KEYCODE};
use chopsticks::session::{KeyState, Redraw, Session};

const KEY_A: u32 = 30;
const KEY_B: u32 = 48;
const KEY_C: u32 = 46;
const KEY_K: u32 = 37;
const KEY_Q: u32 = 16;
const KEY_COMMA: u32 = 51;
const KEY_DOT: u32 = 52;
const KEY_1: u32 = 2;

fn configured() -> Session {
    let mut s = Session::new(0, 0);
    s.on_configure(2600, 2600);
    s
}

fn press(s: &mut Session, key: u32) -> Redraw {
    s.handle_key(key, KeyState::Pressed)
}

#[test]
fn new_session_is_idle_and_running() {
    let s = Session::new(1920, 0);
    assert!(s.running);
    assert!(!s.configured);
    assert_eq!(s.input_state, InputState::Idle);
    assert_eq!(s.window_width, 1920);
    assert_eq!(s.pending_click, None);
}

#[test]
fn configure_takes_size_or_default() {
    let mut s = Session::new(0, 0);
    s.on_configure(0, 0);
    assert_eq!((s.width, s.height), (2560, 1440));
    assert!(s.configured);
    s.on_configure(800, 600);
    assert_eq!((s.width, s.height), (800, 600));
}

#[test]
fn output_mode_fills_unknown_dimensions_only() {
    let mut s = Session::new(3000, 0);
    s.on_output_mode(1920, 1080);
    assert_eq!((s.window_width, s.window_height), (3000, 1080));
    s.on_output_mode(10, 10);
    assert_eq!((s.window_width, s.window_height), (3000, 1080));
}

#[test]
fn click_output_size_prefers_monitor_size() {
    let mut s = Session::new(0, 2000);
    s.on_configure(1000, 500);
    assert_eq!(s.click_output_size(), (1000, 2000));
}

#[test]
fn three_keys_choose_a_precision_point() {
    let mut s = configured();
    match press(&mut s, KEY_C) {
        Redraw::Frame { selected_row, selected_cell } => {
            assert_eq!(selected_row, Some(2));
            assert_eq!(selected_cell, None);
        }
        Redraw::Nothing => panic!("expected a redraw"),
    }
    match press(&mut s, KEY_B) {
        Redraw::Frame { selected_row, selected_cell } => {
            assert_eq!(selected_row, Some(2));
            assert_eq!(selected_cell, Some((2, 1)));
        }
        Redraw::Nothing => panic!("expected a redraw"),
    }
    assert!(matches!(press(&mut s, KEY_K), Redraw::Nothing));
    assert_eq!(s.input_state, InputState::Done);
    let expected = compute_precision_coordinate('c', 'b', 2, 1, 2600, 2600);
    assert_eq!(s.pending_click, Some(expected));
    assert_eq!(s.waiting_key_release, None);
    assert_eq!(s.take_click(), Some(expected));
    assert!(!s.running);
}

#[test]
fn space_clicks_cell_center_after_release() {
    let mut s = configured();
    press(&mut s, KEY_A);
    press(&mut s, KEY_B);
    press(&mut s, SPACE_KEYCODE);
    let (x1, y1, x2, y2) = compute_cell_bounds(1, 0, 2600, 2600);
    let center = (x1 + (x2 - x1) / 2, y1 + (y2 - y1) / 2);
    assert_eq!(s.pending_click, Some(center));
    assert_eq!(s.waiting_key_release, Some(SPACE_KEYCODE));
    assert_eq!(s.take_click(), None);
    assert!(s.running);
    s.handle_key(KEY_A, KeyState::Released);
    assert_eq!(s.take_click(), None);
    s.handle_key(SPACE_KEYCODE, KeyState::Released);
    assert_eq!(s.waiting_key_release, None);
    assert_eq!(s.take_click(), Some((150, 50)));
    assert!(!s.running);
}

#[test]
fn space_before_a_cell_is_chosen_resets() {
    let mut s = configured();
    assert!(matches!(press(&mut s, SPACE_KEYCODE), Redraw::Nothing));
    assert_eq!(s.input_state, InputState::Idle);
    press(&mut s, KEY_A);
    assert!(matches!(press(&mut s, SPACE_KEYCODE), Redraw::Nothing));
    assert_eq!(s.input_state, InputState::Idle);
}

#[test]
fn escape_closes_from_any_stage() {
    let mut s = configured();
    press(&mut s, KEY_A);
    press(&mut s, KEY_B);
    press(&mut s, ESCAPE_KEYCODE);
    assert!(!s.running);
    assert_eq!(s.input_state, InputState::WaitingThird { first: 'a', second: 'b' });
}

#[test]
fn invalid_key_resets_to_first_stage() {
    let mut s = configured();
    press(&mut s, KEY_A);
    press(&mut s, KEY_B);
    press(&mut s, KEY_1);
    assert_eq!(s.input_state, InputState::Idle);
    assert_eq!(s.pending_click, None);
}

#[test]
fn non_precision_letter_resets() {
    let mut s = configured();
    press(&mut s, KEY_A);
    press(&mut s, KEY_B);
    assert!(matches!(press(&mut s, KEY_Q), Redraw::Nothing));
    assert_eq!(s.input_state, InputState::Idle);
    assert_eq!(s.pending_click, None);
    assert!(s.running);
}

#[test]
fn comma_is_not_a_row_letter() {
    let mut s = configured();
    assert!(matches!(press(&mut s, KEY_COMMA), Redraw::Nothing));
    assert_eq!(s.input_state, InputState::Idle);
    press(&mut s, KEY_A);
    press(&mut s, KEY_COMMA);
    assert_eq!(s.input_state, InputState::Idle);
}

#[test]
fn bottom_row_precision_keys_click_in_the_cell() {
    let mut s = configured();
    press(&mut s, KEY_A);
    press(&mut s, KEY_A);
    press(&mut s, KEY_COMMA);
    assert_eq!(s.input_state, InputState::Done);
    assert_eq!(s.pending_click, Some((62, 82)));
    let mut t = configured();
    press(&mut t, KEY_A);
    press(&mut t, KEY_A);
    press(&mut t, KEY_DOT);
    assert_eq!(t.pending_click, Some((87, 82)));
}

#[test]
fn a_letter_after_done_starts_over() {
    let mut s = configured();
    press(&mut s, KEY_A);
    press(&mut s, KEY_B);
    press(&mut s, KEY_K);
    assert_eq!(s.input_state, InputState::Done);
    assert!(matches!(press(&mut s, KEY_A), Redraw::Nothing));
    assert_eq!(s.input_state, InputState::Idle);
}

#[test]
fn releases_and_other_states_change_nothing() {
    let mut s = configured();
    press(&mut s, KEY_A);
    s.handle_key(KEY_B, KeyState::Released);
    s.handle_key(KEY_B, KeyState::Other);
    assert_eq!(s.input_state, InputState::WaitingSecond { first: 'a' });
    assert!(s.running);
}

#[test]
fn click_lands_inside_last_cell() {
    let mut s = Session::new(0, 0);
    s.on_configure(2561, 1441);
    press(&mut s, 44); // z
    press(&mut s, 44); // z
    press(&mut s, 38); // l
    let (x, y) = s.pending_click.unwrap();
    let (x1, y1, x2, y2) = compute_cell_bounds(25, 25, 2561, 1441);
    assert!(x1 <= x && x < x2 && x2 == 2561);
    assert!(y1 <= y && y < y2 && y2 == 1441);
}
