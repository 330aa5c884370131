//! The overlay session: what each key press does, and when to click.
//!
//! The program around the library feeds it the compositor's events and carries
//! out what it answers: redrawing the overlay, and finally clicking.
use vstd::prelude::*;
use crate::input::{
    ESCAPE_KEYCODE, GRID_SIZE, InputState, axis_fits, cell_end, cell_start, char_of_keycode,
    compute_cell_bounds, compute_precision_coordinate, is_grid_letter, keycode_to_char, lemma_cell_ordered,
    lemma_precision_point_in_cell, letter_index, precision_key_to_subcell, precision_point, subcell_of,
};

verus! {

/// Whether a key event reports a press, a release, or something else.
#[derive(Debug, Clone, Copy, PartialEq, Eq, Structural)]
pub enum KeyState {
    Pressed,
    Released,
    Other,
}

/// What the overlay must show after a key event.
#[derive(Debug, Clone, Copy)]
pub enum Redraw {
    /// Leave the overlay as it is.
    Nothing,
    /// Draw a new frame with this row and cell selected.
    Frame { selected_row: Option<u32>, selected_cell: Option<(u32, u32)> },
}

/// The state of one run of the overlay.
#[derive(Debug, Clone, Copy)]
pub struct Session {
    /// False once the overlay should close.
    pub running: bool,
    /// True once the compositor has given the surface its size.
    pub configured: bool,
    /// Size of the overlay surface, in logical pixels.
    pub width: u32,
    pub height: u32,
    /// Size of the monitor in physical pixels, 0 while unknown.
    pub window_width: u32,
    pub window_height: u32,
    /// The key handling stage.
    pub input_state: InputState,
    /// The point to click once the overlay is gone.
    pub pending_click: Option<(u32, u32)>,
    /// A key whose release must be seen before clicking.
    pub waiting_key_release: Option<u32>,
}

/// The centre of the cell at (`col`, `row`), rounded towards its top-left corner.
pub open spec fn cell_center(col: int, row: int, width: int, height: int) -> (int, int) {
    let x1 = cell_start(col, width);
    let y1 = cell_start(row, height);
    (x1 + (cell_end(col, width) - x1) / 2, y1 + (cell_end(row, height) - y1) / 2)
}

/// Locating the selected cell, if one is selected, fits in a `u32`.
pub open spec fn selection_fits(s: Session) -> bool {
    match s.input_state {
        InputState::WaitingThird { first, second } => axis_fits(letter_index(second), s.width as int) && axis_fits(
            letter_index(first),
            s.height as int,
        ),
        _ => true,
    }
}

/// The session and redraw that going back to the first stage leads to: the
/// overlay is left as it is.
pub open spec fn reset(s: Session) -> (Session, Redraw) {
    (Session { input_state: InputState::Idle, ..s }, Redraw::Nothing)
}

/// The session and redraw that a key event leads to.
///
/// Escape closes the overlay.  The first letter selects a row, the second a
/// cell, and then a precision key selects that sub-cell's centre, or the
/// space bar the cell's centre (after which its release is awaited before
/// clicking).  Any other key goes back to the first stage, as does any key
/// after a point has been chosen.  Releases only end the wait for the
/// awaited key.
pub open spec fn after_key(s: Session, key: u32, key_state: KeyState) -> (Session, Redraw) {
    match key_state {
        KeyState::Released => {
            if s.waiting_key_release == Some(key) {
                (Session { waiting_key_release: None, ..s }, Redraw::Nothing)
            } else {
                (s, Redraw::Nothing)
            }
        },
        KeyState::Other => (s, Redraw::Nothing),
        KeyState::Pressed => {
            if key == ESCAPE_KEYCODE {
                (Session { running: false, ..s }, Redraw::Nothing)
            } else {
                match char_of_keycode(key) {
                    None => reset(s),
                    Some(ch) => match s.input_state {
                        InputState::Idle => {
                            if is_grid_letter(ch) {
                                (
                                    Session { input_state: InputState::WaitingSecond { first: ch }, ..s },
                                    Redraw::Frame { selected_row: Some(letter_index(ch) as u32), selected_cell: None },
                                )
                            } else {
                                reset(s)
                            }
                        },
                        InputState::WaitingSecond { first } => {
                            if is_grid_letter(ch) {
                                (
                                    Session { input_state: InputState::WaitingThird { first, second: ch }, ..s },
                                    Redraw::Frame {
                                        selected_row: Some(letter_index(first) as u32),
                                        selected_cell: Some((letter_index(first) as u32, letter_index(ch) as u32)),
                                    },
                                )
                            } else {
                                reset(s)
                            }
                        },
                        InputState::WaitingThird { first, second } => {
                            let col = letter_index(second);
                            let row = letter_index(first);
                            if ch == ' ' {
                                let c = cell_center(col, row, s.width as int, s.height as int);
                                (
                                    Session {
                                        input_state: InputState::Done,
                                        waiting_key_release: Some(key),
                                        pending_click: Some((c.0 as u32, c.1 as u32)),
                                        ..s
                                    },
                                    Redraw::Nothing,
                                )
                            } else {
                                match subcell_of(ch) {
                                    Some((pc, pr)) => {
                                        let p = precision_point(col, row, pc as int, pr as int, s.width as int, s.height as int);
                                        (
                                            Session {
                                                input_state: InputState::Done,
                                                pending_click: Some((p.0 as u32, p.1 as u32)),
                                                ..s
                                            },
                                            Redraw::Nothing,
                                        )
                                    },
                                    None => reset(s),
                                }
                            }
                        },
                        InputState::Done => reset(s),
                    },
                }
            }
        },
    }
}

/// Handling the event computes nothing that overflows.
pub open spec fn key_fits(s: Session, key: u32, key_state: KeyState) -> bool {
    (key_state == KeyState::Pressed && key != ESCAPE_KEYCODE && char_of_keycode(key) is Some) ==> selection_fits(s)
}

impl Session {
    /// A session that is running, not yet configured, with nothing selected,
    /// on a monitor of the given physical size (0 for unknown).
    pub fn new(window_width: u32, window_height: u32) -> (r: Session)
        ensures
            r == (Session {
                running: true,
                configured: false,
                width: 0,
                height: 0,
                window_width,
                window_height,
                input_state: InputState::Idle,
                pending_click: None,
                waiting_key_release: None,
            }),
    {
        Session {
            running: true,
            configured: false,
            width: 0,
            height: 0,
            window_width,
            window_height,
            input_state: InputState::Idle,
            pending_click: None,
            waiting_key_release: None,
        }
    }

    /// Takes the size the compositor gives the surface; a size of 0 stands for
    /// a 2560 x 1440 screen.
    pub fn on_configure(&mut self, width: u32, height: u32)
        ensures
            *final(self) == (Session {
                width: if width == 0 { 2560 } else { width },
                height: if height == 0 { 1440 } else { height },
                configured: true,
                ..*old(self)
            }),
    {
        self.width = if width == 0 { 2560 } else { width };
        self.height = if height == 0 { 1440 } else { height };
        self.configured = true;
    }

    /// Takes the monitor's current mode, for each dimension not known yet.
    pub fn on_output_mode(&mut self, width: i32, height: i32)
        ensures
            *final(self) == (Session {
                window_width: if old(self).window_width == 0 { width as u32 } else { old(self).window_width },
                window_height: if old(self).window_height == 0 { height as u32 } else { old(self).window_height },
                ..*old(self)
            }),
    {
        if self.window_width == 0 {
            self.window_width = width as u32;
        }
        if self.window_height == 0 {
            self.window_height = height as u32;
        }
    }

    /// Handles a key event and says what to redraw.
    pub fn handle_key(&mut self, key: u32, key_state: KeyState) -> (r: Redraw)
        requires
            old(self).input_state.wf(),
            key_fits(*old(self), key, key_state),
        ensures
            (*final(self), r) == after_key(*old(self), key, key_state),
            final(self).input_state.wf(),
    {
        match key_state {
            KeyState::Released => {
                if self.waiting_key_release == Some(key) {
                    self.waiting_key_release = None;
                }
                return Redraw::Nothing;
            },
            KeyState::Other => {
                return Redraw::Nothing;
            },
            KeyState::Pressed => {},
        }
        if key == ESCAPE_KEYCODE {
            self.running = false;
            return Redraw::Nothing;
        }
        let ch = match keycode_to_char(key) {
            Some(ch) => ch,
            None => {
                return self.reset();
            },
        };
        match self.input_state {
            InputState::Idle => {
                if !('a' <= ch && ch <= 'z') {
                    return self.reset();
                }
                self.input_state = InputState::WaitingSecond { first: ch };
                let row = (ch as u32) - ('a' as u32);
                Redraw::Frame { selected_row: Some(row), selected_cell: None }
            },
            InputState::WaitingSecond { first } => {
                if !('a' <= ch && ch <= 'z') {
                    return self.reset();
                }
                let row = (first as u32) - ('a' as u32);
                let col = (ch as u32) - ('a' as u32);
                self.input_state = InputState::WaitingThird { first, second: ch };
                Redraw::Frame { selected_row: Some(row), selected_cell: Some((row, col)) }
            },
            InputState::WaitingThird { first, second } => {
                let col = (second as u32) - ('a' as u32);
                let row = (first as u32) - ('a' as u32);
                let (x1, y1, x2, y2) = compute_cell_bounds(col, row, self.width, self.height);
                proof {
                    lemma_cell_ordered(col as int, self.width as int);
                    lemma_cell_ordered(row as int, self.height as int);
                }
                if ch == ' ' {
                    let x = x1 + (x2 - x1) / 2;
                    let y = y1 + (y2 - y1) / 2;
                    self.input_state = InputState::Done;
                    self.waiting_key_release = Some(key);
                    self.pending_click = Some((x, y));
                    Redraw::Nothing
                } else if let Some((sub_col, sub_row)) = precision_key_to_subcell(ch) {
                    proof {
                        lemma_precision_point_in_cell(
                            col as int,
                            row as int,
                            sub_col as int,
                            sub_row as int,
                            self.width as int,
                            self.height as int,
                        );
                        let sub_w = (x2 - x1) / 4;
                        let sub_h = (y2 - y1) / 3;
                        assert(sub_col * sub_w <= 3 * sub_w) by (nonlinear_arith)
                            requires
                                sub_col < 4,
                                sub_w >= 0,
                        ;
                        assert(sub_row * sub_h <= 2 * sub_h) by (nonlinear_arith)
                            requires
                                sub_row < 3,
                                sub_h >= 0,
                        ;
                    }
                    let (x, y) = compute_precision_coordinate(first, second, sub_col, sub_row, self.width, self.height);
                    self.input_state = InputState::Done;
                    self.pending_click = Some((x, y));
                    Redraw::Nothing
                } else {
                    self.reset()
                }
            },
            InputState::Done => self.reset(),
        }
    }

    /// Goes back to the first stage, leaving the overlay as it is.
    fn reset(&mut self) -> (r: Redraw)
        ensures
            (*final(self), r) == reset(*old(self)),
    {
        self.input_state = InputState::Idle;
        Redraw::Nothing
    }

    /// The point to click, once no key release is awaited; taking it closes
    /// the session.
    pub fn take_click(&mut self) -> (r: Option<(u32, u32)>)
        ensures
            old(self).waiting_key_release is Some ==> r is None && *final(self) == *old(self),
            old(self).waiting_key_release is None ==> r == old(self).pending_click && *final(self) == (Session {
                pending_click: None,
                running: if r is Some { false } else { old(self).running },
                ..*old(self)
            }),
    {
        if self.waiting_key_release.is_some() {
            return None;
        }
        let click = self.pending_click.take();
        if click.is_some() {
            self.running = false;
        }
        click
    }

    /// The size of the output that clicks are placed on: the monitor size
    /// where known, else the surface size.
    pub fn click_output_size(&self) -> (r: (u32, u32))
        ensures
            r == (
                if self.window_width > 0 { self.window_width } else { self.width },
                if self.window_height > 0 { self.window_height } else { self.height },
            ),
    {
        let out_w = if self.window_width > 0 { self.window_width } else { self.width };
        let out_h = if self.window_height > 0 { self.window_height } else { self.height };
        (out_w, out_h)
    }
}

/// Only an Escape press closes the session through a key event.
pub proof fn lemma_escape_closes(s: Session, key: u32, key_state: KeyState)
    ensures
        after_key(s, key, key_state).0.running == (s.running && !(key_state == KeyState::Pressed && key == ESCAPE_KEYCODE)),
{
}

/// A release never changes the stage, the chosen point or whether the session
/// runs; it ends the wait exactly when it is the awaited key's.
pub proof fn lemma_release_keeps_selection(s: Session, key: u32)
    ensures
        ({
            let t = after_key(s, key, KeyState::Released).0;
            &&& t.input_state == s.input_state
            &&& t.pending_click == s.pending_click
            &&& t.running == s.running
            &&& t.waiting_key_release == if s.waiting_key_release == Some(key) { None } else { s.waiting_key_release }
        }),
{
}

/// The characters that the stage accepts: letters in the first two stages,
/// the space bar and the precision keys in the third, and none once a point
/// has been chosen.
pub open spec fn accepts(stage: InputState, ch: char) -> bool {
    match stage {
        InputState::Idle => is_grid_letter(ch),
        InputState::WaitingSecond { .. } => is_grid_letter(ch),
        InputState::WaitingThird { .. } => ch == ' ' || subcell_of(ch) is Some,
        InputState::Done => false,
    }
}

/// Invalid keys reset to the first stage: a press of any key other than
/// Escape that does not type a character the stage accepts goes back to the
/// first stage, keeps the chosen point and the running flag, and asks for no
/// redraw.
pub proof fn lemma_invalid_key_resets(s: Session, key: u32)
    requires
        key != ESCAPE_KEYCODE,
        !(char_of_keycode(key) matches Some(ch) && accepts(s.input_state, ch)),
    ensures
        after_key(s, key, KeyState::Pressed) == reset(s),
        reset(s).0 == (Session { input_state: InputState::Idle, ..s }),
        reset(s).1 == Redraw::Nothing,
{
}

/// Every stage a key event leads to holds grid letters, and every frame it
/// asks for selects a row and cell of the grid.
pub proof fn lemma_key_keeps_grid(s: Session, key: u32, key_state: KeyState)
    requires
        s.input_state.wf(),
    ensures
        after_key(s, key, key_state).0.input_state.wf(),
        after_key(s, key, key_state).1 matches Redraw::Frame { selected_row, selected_cell } ==> {
            &&& selected_row matches Some(row) ==> row < GRID_SIZE
            &&& selected_cell matches Some((row, col)) ==> row < GRID_SIZE && col < GRID_SIZE
        },
{
    crate::input::lemma_keycodes_one_to_one(key, key);
}

/// A key event that chooses a point to click chooses one inside the selected
/// cell: never before its near edges, and before its far edges when the cell
/// has any width and height, so then a pixel of the screen.  The stage is
/// then complete.
pub proof fn lemma_click_lands_in_cell(s: Session, key: u32, key_state: KeyState)
    requires
        s.input_state.wf(),
        after_key(s, key, key_state).0.pending_click != s.pending_click,
    ensures
        s.input_state matches InputState::WaitingThird { first, second } && {
            let t = after_key(s, key, key_state).0;
            let col = letter_index(second);
            let row = letter_index(first);
            &&& t.input_state == InputState::Done
            &&& t.pending_click matches Some((x, y)) && {
                &&& cell_start(col, s.width as int) <= x <= cell_end(col, s.width as int) <= s.width
                &&& cell_start(row, s.height as int) <= y <= cell_end(row, s.height as int) <= s.height
                &&& cell_start(col, s.width as int) < cell_end(col, s.width as int) ==> x < cell_end(col, s.width as int)
                &&& cell_start(row, s.height as int) < cell_end(row, s.height as int) ==> y < cell_end(row, s.height as int)
            }
        },
{
    if let InputState::WaitingThird { first, second } = s.input_state {
        let col = letter_index(second);
        let row = letter_index(first);
        lemma_cell_ordered(col, s.width as int);
        lemma_cell_ordered(row, s.height as int);
        if key_state == KeyState::Pressed && key != ESCAPE_KEYCODE {
            if let Some(ch) = char_of_keycode(key) {
                if let Some((pc, pr)) = subcell_of(ch) {
                    crate::input::lemma_subcells_one_to_one(ch, ch);
                    lemma_precision_point_in_cell(col, row, pc as int, pr as int, s.width as int, s.height as int);
                }
            }
        }
    }
}

/// The space bar clicks the middle of the selected cell: no further than a
/// pixel nearer its right (bottom) edge than its left (top) edge, and never
/// nearer its left (top) edge.
pub proof fn lemma_space_clicks_cell_middle(s: Session)
    requires
        s.input_state.wf(),
        s.input_state is WaitingThird,
    ensures
        ({
            let t = after_key(s, crate::input::SPACE_KEYCODE, KeyState::Pressed).0;
            let col = letter_index(s.input_state->WaitingThird_second);
            let row = letter_index(s.input_state->WaitingThird_first);
            let x1 = cell_start(col, s.width as int);
            let x2 = cell_end(col, s.width as int);
            let y1 = cell_start(row, s.height as int);
            let y2 = cell_end(row, s.height as int);
            &&& t.pending_click matches Some((x, y)) && {
                &&& 0 <= (x2 - x) - (x - x1) <= 1
                &&& 0 <= (y2 - y) - (y - y1) <= 1
            }
            &&& t.waiting_key_release == Some(crate::input::SPACE_KEYCODE)
        }),
{
    let col = letter_index(s.input_state->WaitingThird_second);
    let row = letter_index(s.input_state->WaitingThird_first);
    lemma_cell_ordered(col, s.width as int);
    lemma_cell_ordered(row, s.height as int);
    assert(char_of_keycode(crate::input::SPACE_KEYCODE) == Some(' '));
}

/// From the first stage, a row letter, a column letter and a precision key
/// choose that sub-cell's centre of that cell, showing the row and then the
/// cell on the way.
pub proof fn lemma_three_key_selection(s: Session, k1: u32, k2: u32, k3: u32)
    requires
        s.input_state == InputState::Idle,
        char_of_keycode(k1) matches Some(a) && is_grid_letter(a),
        char_of_keycode(k2) matches Some(b) && is_grid_letter(b),
        char_of_keycode(k3) matches Some(p) && subcell_of(p) is Some,
    ensures
        ({
            let a = char_of_keycode(k1)->0;
            let b = char_of_keycode(k2)->0;
            let (pc, pr) = subcell_of(char_of_keycode(k3)->0)->0;
            let (s1, d1) = after_key(s, k1, KeyState::Pressed);
            let (s2, d2) = after_key(s1, k2, KeyState::Pressed);
            let (s3, d3) = after_key(s2, k3, KeyState::Pressed);
            let p = precision_point(letter_index(b), letter_index(a), pc as int, pr as int, s.width as int, s.height as int);
            &&& d1 == Redraw::Frame { selected_row: Some(letter_index(a) as u32), selected_cell: None }
            &&& d2 == Redraw::Frame {
                selected_row: Some(letter_index(a) as u32),
                selected_cell: Some((letter_index(a) as u32, letter_index(b) as u32)),
            }
            &&& s3.input_state == InputState::Done
            &&& s3.pending_click == Some((p.0 as u32, p.1 as u32))
            &&& s3.waiting_key_release == s.waiting_key_release
            &&& s3.running == s.running
        }),
{
    crate::input::lemma_keycodes_one_to_one(k1, k1);
    crate::input::lemma_keycodes_one_to_one(k2, k2);
    assert(k1 != ESCAPE_KEYCODE && k2 != ESCAPE_KEYCODE && k3 != ESCAPE_KEYCODE);
    assert(char_of_keycode(k3)->0 != ' ');
}

/// From the first stage, a row letter, a column letter and the space bar
/// choose the cell's centre; the click is held back until the space bar is
/// released, and then taken.
pub proof fn lemma_space_clicks_center_after_release(s: Session, k1: u32, k2: u32)
    requires
        s.input_state == InputState::Idle,
        char_of_keycode(k1) matches Some(a) && is_grid_letter(a),
        char_of_keycode(k2) matches Some(b) && is_grid_letter(b),
    ensures
        ({
            let a = char_of_keycode(k1)->0;
            let b = char_of_keycode(k2)->0;
            let s1 = after_key(s, k1, KeyState::Pressed).0;
            let s2 = after_key(s1, k2, KeyState::Pressed).0;
            let s3 = after_key(s2, crate::input::SPACE_KEYCODE, KeyState::Pressed).0;
            let s4 = after_key(s3, crate::input::SPACE_KEYCODE, KeyState::Released).0;
            let c = cell_center(letter_index(b), letter_index(a), s.width as int, s.height as int);
            &&& s3.input_state == InputState::Done
            &&& s3.pending_click == Some((c.0 as u32, c.1 as u32))
            &&& s3.waiting_key_release == Some(crate::input::SPACE_KEYCODE)
            &&& s4.waiting_key_release is None
            &&& s4.pending_click == s3.pending_click
        }),
{
    crate::input::lemma_keycodes_one_to_one(k1, k1);
    crate::input::lemma_keycodes_one_to_one(k2, k2);
    assert(char_of_keycode(crate::input::SPACE_KEYCODE) == Some(' '));
}

} // verus!
