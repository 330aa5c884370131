//! Key decoding and the geometry of the letter grid.
use vstd::prelude::*;

verus! {

/// Number of rows and of columns of the letter grid.
pub const GRID_SIZE: u32 = 26;

/// Linux evdev code of the Escape key.
pub const ESCAPE_KEYCODE: u32 = 1;

/// Linux evdev code of the space bar.
pub const SPACE_KEYCODE: u32 = 57;

/// The sub-cell (column, row) that a precision key selects inside a cell.
///
/// The precision grid is four columns wide and three rows high:
/// `y u i o` on the top row, `h j k l` below it and `n m , .` at the bottom.
pub open spec fn subcell_of(ch: char) -> Option<(u32, u32)> {
    if ch == 'y' {
        Some((0u32, 0u32))
    } else if ch == 'u' {
        Some((1u32, 0u32))
    } else if ch == 'i' {
        Some((2u32, 0u32))
    } else if ch == 'o' {
        Some((3u32, 0u32))
    } else if ch == 'h' {
        Some((0u32, 1u32))
    } else if ch == 'j' {
        Some((1u32, 1u32))
    } else if ch == 'k' {
        Some((2u32, 1u32))
    } else if ch == 'l' {
        Some((3u32, 1u32))
    } else if ch == 'n' {
        Some((0u32, 2u32))
    } else if ch == 'm' {
        Some((1u32, 2u32))
    } else if ch == ',' {
        Some((2u32, 2u32))
    } else if ch == '.' {
        Some((3u32, 2u32))
    } else {
        None
    }
}

/// The precision keys are the block of keys under the right hand, columns 5
/// to 8 of the three letter rows of a QWERTY keyboard, laid out as on the
/// keyboard: the key in keyboard row `r`, column `5 + c` selects sub-cell
/// `(c, r)`, and no other character selects one.
pub open spec fn selects_as_on_keyboard(ch: char, r: Option<(u32, u32)>) -> bool {
    &&& forall|row: int, c: int|
        0 <= row < 3 && 0 <= c < 4 && ch == #[trigger] qwerty_row(row)[5 + c] ==> r == Some((c as u32, row as u32))
    &&& !(exists|row: int, c: int| 0 <= row < 3 && 0 <= c < 4 && ch == #[trigger] qwerty_row(row)[5 + c]) ==> r is None
}

/// The precision keys sit on the keyboard as their sub-cells sit in a cell.
pub proof fn lemma_precision_keys_follow_keyboard(ch: char)
    ensures
        selects_as_on_keyboard(ch, subcell_of(ch)),
{
    assert(qwerty_row(0) =~= seq!['q', 'w', 'e', 'r', 't', 'y', 'u', 'i', 'o', 'p']);
    assert(qwerty_row(1) =~= seq!['a', 's', 'd', 'f', 'g', 'h', 'j', 'k', 'l']);
    assert(qwerty_row(2) =~= seq!['z', 'x', 'c', 'v', 'b', 'n', 'm', ',', '.']);
    if subcell_of(ch) is Some {
        let (c, row) = subcell_of(ch)->0;
        assert(ch == qwerty_row(row as int)[5 + c as int]);
    }
}

/// Maps a precision key to the sub-cell it selects, or `None` for any other character.
pub fn precision_key_to_subcell(ch: char) -> (r: Option<(u32, u32)>)
    ensures
        r == subcell_of(ch),
        selects_as_on_keyboard(ch, r),
{
    proof {
        lemma_precision_keys_follow_keyboard(ch);
    }
    match ch {
        'y' => Some((0, 0)),
        'u' => Some((1, 0)),
        'i' => Some((2, 0)),
        'o' => Some((3, 0)),
        'h' => Some((0, 1)),
        'j' => Some((1, 1)),
        'k' => Some((2, 1)),
        'l' => Some((3, 1)),
        'n' => Some((0, 2)),
        'm' => Some((1, 2)),
        ',' => Some((2, 2)),
        '.' => Some((3, 2)),
        _ => None,
    }
}

/// The character that an evdev key code stands for: the letters, comma and
/// full stop of a QWERTY layout, and the space bar.
pub open spec fn char_of_keycode(keycode: u32) -> Option<char> {
    if keycode == 30 { Some('a') }
    else if keycode == 48 { Some('b') }
    else if keycode == 46 { Some('c') }
    else if keycode == 32 { Some('d') }
    else if keycode == 18 { Some('e') }
    else if keycode == 33 { Some('f') }
    else if keycode == 34 { Some('g') }
    else if keycode == 35 { Some('h') }
    else if keycode == 23 { Some('i') }
    else if keycode == 36 { Some('j') }
    else if keycode == 37 { Some('k') }
    else if keycode == 38 { Some('l') }
    else if keycode == 50 { Some('m') }
    else if keycode == 49 { Some('n') }
    else if keycode == 24 { Some('o') }
    else if keycode == 25 { Some('p') }
    else if keycode == 16 { Some('q') }
    else if keycode == 19 { Some('r') }
    else if keycode == 31 { Some('s') }
    else if keycode == 20 { Some('t') }
    else if keycode == 22 { Some('u') }
    else if keycode == 47 { Some('v') }
    else if keycode == 17 { Some('w') }
    else if keycode == 45 { Some('x') }
    else if keycode == 21 { Some('y') }
    else if keycode == 44 { Some('z') }
    else if keycode == 51 { Some(',') }
    else if keycode == 52 { Some('.') }
    else if keycode == SPACE_KEYCODE { Some(' ') }
    else { None }
}

/// A lower-case ASCII letter.
pub open spec fn is_grid_letter(ch: char) -> bool {
    'a' <= ch <= 'z'
}

/// The grid index (0 for `a`, 25 for `z`) that a letter names.
pub open spec fn letter_index(ch: char) -> int {
    ch as int - 'a' as int
}

/// The characters of the three letter rows of a QWERTY keyboard, left to right.
pub open spec fn qwerty_row(row: int) -> Seq<char> {
    if row == 0 {
        seq!['q', 'w', 'e', 'r', 't', 'y', 'u', 'i', 'o', 'p']
    } else if row == 1 {
        seq!['a', 's', 'd', 'f', 'g', 'h', 'j', 'k', 'l']
    } else {
        seq!['z', 'x', 'c', 'v', 'b', 'n', 'm', ',', '.']
    }
}

/// The evdev code of the leftmost key of each QWERTY letter row: evdev numbers
/// the keys of a row consecutively from the left.
pub open spec fn qwerty_row_start(row: int) -> int {
    if row == 0 {
        16
    } else if row == 1 {
        30
    } else {
        44
    }
}

/// The key a code names types the character printed on it: the keys of each
/// letter row of the keyboard, numbered consecutively from the left, type
/// that row's characters in order, the space bar types a blank, and no other
/// key types anything.
pub open spec fn types_as_on_keyboard(keycode: u32, r: Option<char>) -> bool {
    &&& forall|row: int, i: int|
        0 <= row < 3 && 0 <= i < qwerty_row(row).len() && keycode == qwerty_row_start(row) + i ==> r == Some(
            #[trigger] qwerty_row(row)[i],
        )
    &&& keycode == SPACE_KEYCODE ==> r == Some(' ')
    &&& !(16 <= keycode <= 25 || 30 <= keycode <= 38 || 44 <= keycode <= 52 || keycode == SPACE_KEYCODE) ==> r is None
}

/// Every key code types the character printed on its key of a QWERTY keyboard.
pub proof fn lemma_keycodes_follow_keyboard_rows(keycode: u32)
    ensures
        types_as_on_keyboard(keycode, char_of_keycode(keycode)),
{
    assert forall|row: int, i: int|
        0 <= row < 3 && 0 <= i < qwerty_row(row).len() && keycode == qwerty_row_start(row) + i implies char_of_keycode(
        keycode,
    ) == Some(#[trigger] qwerty_row(row)[i]) by {
        if row == 0 {
            assert(qwerty_row(0) =~= seq!['q', 'w', 'e', 'r', 't', 'y', 'u', 'i', 'o', 'p']);
        } else if row == 1 {
            assert(qwerty_row(1) =~= seq!['a', 's', 'd', 'f', 'g', 'h', 'j', 'k', 'l']);
        } else {
            assert(qwerty_row(2) =~= seq!['z', 'x', 'c', 'v', 'b', 'n', 'm', ',', '.']);
        }
    }
}

/// Translates an evdev key code into the character it types.
pub fn keycode_to_char(keycode: u32) -> (r: Option<char>)
    ensures
        r == char_of_keycode(keycode),
        types_as_on_keyboard(keycode, r),
{
    proof {
        lemma_keycodes_follow_keyboard_rows(keycode);
    }
    match keycode {
        30 => Some('a'), 48 => Some('b'), 46 => Some('c'), 32 => Some('d'),
        18 => Some('e'), 33 => Some('f'), 34 => Some('g'), 35 => Some('h'),
        23 => Some('i'), 36 => Some('j'), 37 => Some('k'), 38 => Some('l'),
        50 => Some('m'), 49 => Some('n'), 24 => Some('o'), 25 => Some('p'),
        16 => Some('q'), 19 => Some('r'), 31 => Some('s'), 20 => Some('t'),
        22 => Some('u'), 47 => Some('v'), 17 => Some('w'), 45 => Some('x'),
        21 => Some('y'), 44 => Some('z'), 51 => Some(','), 52 => Some('.'),
        57 => Some(' '), _ => None,
    }
}

/// Left (or top) edge of grid cell `i` on an axis of `n` pixels.
pub open spec fn cell_start(i: int, n: int) -> int {
    i * n / (GRID_SIZE as int)
}

/// Right (or bottom) edge of grid cell `i` on an axis of `n` pixels; the last
/// cell reaches the far edge of the axis.
pub open spec fn cell_end(i: int, n: int) -> int {
    if i == GRID_SIZE - 1 {
        n
    } else {
        (i + 1) * n / (GRID_SIZE as int)
    }
}

/// The products that locating cell `i` on an axis of `n` pixels computes fit in a `u32`.
pub open spec fn axis_fits(i: int, n: int) -> bool {
    &&& i * n <= u32::MAX
    &&& i != GRID_SIZE - 1 ==> i + 1 <= u32::MAX && (i + 1) * n <= u32::MAX
}

/// The bounds `(x1, y1, x2, y2)` of the cell in column `col` and row `row`.
pub open spec fn cell_bounds(col: int, row: int, width: int, height: int) -> (int, int, int, int) {
    (cell_start(col, width), cell_start(row, height), cell_end(col, width), cell_end(row, height))
}

/// Computes the pixel bounds `(x1, y1, x2, y2)` of a grid cell.
pub fn compute_cell_bounds(col: u32, row: u32, width: u32, height: u32) -> (r: (u32, u32, u32, u32))
    requires
        axis_fits(col as int, width as int),
        axis_fits(row as int, height as int),
    ensures
        (r.0 as int, r.1 as int, r.2 as int, r.3 as int) == cell_bounds(
            col as int,
            row as int,
            width as int,
            height as int,
        ),
{
    let x1 = (col * width) / GRID_SIZE;
    let x2 = if col == GRID_SIZE - 1 {
        width
    } else {
        ((col + 1) * width) / GRID_SIZE
    };
    let y1 = (row * height) / GRID_SIZE;
    let y2 = if row == GRID_SIZE - 1 {
        height
    } else {
        ((row + 1) * height) / GRID_SIZE
    };
    (x1, y1, x2, y2)
}

/// A cell edge never lies before the cell's start.
pub proof fn lemma_cell_ordered(i: int, n: int)
    requires
        0 <= i,
        0 <= n,
    ensures
        cell_start(i, n) <= cell_end(i, n),
        i <= GRID_SIZE - 1 ==> cell_end(i, n) <= n,
        0 <= cell_start(i, n),
{
    assert(i * n <= (i + 1) * n) by (nonlinear_arith)
        requires
            0 <= n,
    ;
    assert(i * n >= 0) by (nonlinear_arith)
        requires
            0 <= i,
            0 <= n,
    ;
    if i == GRID_SIZE - 1 {
        assert(25 * n / 26 <= n);
    } else if i < GRID_SIZE - 1 {
        assert((i + 1) * n <= 26 * n) by (nonlinear_arith)
            requires
                0 <= n,
                i < 25,
        ;
    }
    vstd::arithmetic::div_mod::lemma_div_is_ordered(i * n, (i + 1) * n, 26);
}

/// The cells of an axis tile it: the first starts at 0, the last ends at the
/// far edge, each starts where the one before it ends, and none runs backwards.
pub proof fn lemma_cells_tile(n: int)
    requires
        0 <= n,
    ensures
        cell_start(0, n) == 0,
        cell_end(GRID_SIZE - 1, n) == n,
        forall|i: int| 0 <= i < GRID_SIZE - 1 ==> #[trigger] cell_end(i, n) == cell_start(i + 1, n),
        forall|i: int| 0 <= i < GRID_SIZE ==> #[trigger] cell_start(i, n) <= cell_end(i, n) <= n,
{
    assert forall|i: int| 0 <= i < GRID_SIZE implies #[trigger] cell_start(i, n) <= cell_end(i, n) <= n by {
        lemma_cell_ordered(i, n);
    }
}

/// Cell edges move right (down) as the cell index grows.
pub proof fn lemma_cell_start_monotone(i: int, j: int, n: int)
    requires
        0 <= i <= j,
        0 <= n,
    ensures
        cell_start(i, n) <= cell_start(j, n),
{
    assert(i * n <= j * n) by (nonlinear_arith)
        requires
            0 <= i <= j,
            0 <= n,
    ;
    vstd::arithmetic::div_mod::lemma_div_is_ordered(i * n, j * n, 26);
}

proof fn lemma_find_cell(p: int, n: int, k: int)
    requires
        0 <= p < n,
        0 <= k < GRID_SIZE,
        cell_start(k, n) <= p,
    ensures
        exists|i: int| 0 <= i < GRID_SIZE && #[trigger] cell_start(i, n) <= p < cell_end(i, n),
    decreases GRID_SIZE - k,
{
    lemma_cells_tile(n);
    if p < cell_end(k, n) {
        assert(cell_start(k, n) <= p < cell_end(k, n));
    } else {
        assert(cell_end(k, n) == cell_start(k + 1, n));
        lemma_find_cell(p, n, k + 1);
    }
}

/// Every pixel of an axis lies in exactly one cell.
pub proof fn lemma_pixel_in_one_cell(p: int, n: int)
    requires
        0 <= p < n,
    ensures
        exists|i: int| 0 <= i < GRID_SIZE && #[trigger] cell_start(i, n) <= p < cell_end(i, n),
        forall|i: int, j: int|
            0 <= i < GRID_SIZE && 0 <= j < GRID_SIZE && #[trigger] cell_start(i, n) <= p < cell_end(i, n)
                && #[trigger] cell_start(j, n) <= p < cell_end(j, n) ==> i == j,
{
    lemma_cells_tile(n);
    lemma_find_cell(p, n, 0);
    assert forall|i: int, j: int|
        0 <= i < GRID_SIZE && 0 <= j < GRID_SIZE && #[trigger] cell_start(i, n) <= p < cell_end(i, n)
            && #[trigger] cell_start(j, n) <= p < cell_end(j, n) implies i == j by {
        if i < j {
            lemma_cell_start_monotone(i + 1, j, n);
        } else if j < i {
            lemma_cell_start_monotone(j + 1, i, n);
        }
    }
}

/// The point that a precision key at sub-cell `(pc, pr)` selects in the cell at
/// `(col, row)`: the centre of that sub-cell, the cell being cut into four
/// columns and three rows.
pub open spec fn precision_point(col: int, row: int, pc: int, pr: int, width: int, height: int) -> (int, int) {
    let x1 = cell_start(col, width);
    let y1 = cell_start(row, height);
    let sub_w = (cell_end(col, width) - x1) / 4;
    let sub_h = (cell_end(row, height) - y1) / 3;
    (x1 + pc * sub_w + sub_w / 2, y1 + pr * sub_h + sub_h / 2)
}

/// Computing the precision point of the cell named by `first` (row) and
/// `second` (column) neither underflows nor overflows a `u32`.
pub open spec fn precision_fits(first: char, second: char, pc: int, pr: int, width: int, height: int) -> bool {
    let col = letter_index(second);
    let row = letter_index(first);
    let p = precision_point(col, row, pc, pr, width, height);
    &&& 'a' <= first
    &&& 'a' <= second
    &&& axis_fits(col, width)
    &&& axis_fits(row, height)
    &&& pc * ((cell_end(col, width) - cell_start(col, width)) / 4) <= u32::MAX
    &&& pr * ((cell_end(row, height) - cell_start(row, height)) / 3) <= u32::MAX
    &&& p.0 <= u32::MAX
    &&& p.1 <= u32::MAX
}

/// Computes the screen point selected by the cell `first second` (row, then
/// column) and the precision sub-cell `(precision_col, precision_row)`.
pub fn compute_precision_coordinate(
    first: char,
    second: char,
    precision_col: u32,
    precision_row: u32,
    width: u32,
    height: u32,
) -> (r: (u32, u32))
    requires
        precision_fits(
            first,
            second,
            precision_col as int,
            precision_row as int,
            width as int,
            height as int,
        ),
    ensures
        (r.0 as int, r.1 as int) == precision_point(
            letter_index(second),
            letter_index(first),
            precision_col as int,
            precision_row as int,
            width as int,
            height as int,
        ),
{
    let col = (second as u32) - ('a' as u32);
    let row = (first as u32) - ('a' as u32);
    let (cell_x1, cell_y1, cell_x2, cell_y2) = compute_cell_bounds(col, row, width, height);
    proof {
        lemma_cell_ordered(col as int, width as int);
        lemma_cell_ordered(row as int, height as int);
    }
    let cell_w = cell_x2 - cell_x1;
    let cell_h = cell_y2 - cell_y1;

    let sub_w = cell_w / 4;
    let sub_h = cell_h / 3;

    let x = cell_x1 + precision_col * sub_w + sub_w / 2;
    let y = cell_y1 + precision_row * sub_h + sub_h / 2;
    (x, y)
}

/// A precision point of a sub-cell inside the 4x3 precision grid lies inside
/// the cell, strictly before its far edges when the cell has any width and
/// height; a grid cell of a non-empty axis ends on the screen, so the point
/// is a pixel of the screen.
pub proof fn lemma_precision_point_in_cell(col: int, row: int, pc: int, pr: int, width: int, height: int)
    requires
        0 <= col,
        0 <= row,
        0 <= width,
        0 <= height,
        0 <= pc < 4,
        0 <= pr < 3,
    ensures
        ({
            let p = precision_point(col, row, pc, pr, width, height);
            &&& cell_start(col, width) <= p.0 <= cell_end(col, width)
            &&& cell_start(row, height) <= p.1 <= cell_end(row, height)
            &&& cell_start(col, width) < cell_end(col, width) ==> p.0 < cell_end(col, width)
            &&& cell_start(row, height) < cell_end(row, height) ==> p.1 < cell_end(row, height)
        }),
{
    lemma_cell_ordered(col, width);
    lemma_cell_ordered(row, height);
    let cw = cell_end(col, width) - cell_start(col, width);
    let ch = cell_end(row, height) - cell_start(row, height);
    let sub_w = cw / 4;
    let sub_h = ch / 3;
    assert(0 <= pc * sub_w <= 3 * sub_w) by (nonlinear_arith)
        requires
            0 <= pc < 4,
            0 <= sub_w,
    ;
    assert(0 <= pr * sub_h <= 2 * sub_h) by (nonlinear_arith)
        requires
            0 <= pr < 3,
            0 <= sub_h,
    ;
    assert(cw > 0 ==> pc * sub_w + sub_w / 2 < cw) by (nonlinear_arith)
        requires
            0 <= pc < 4,
            sub_w == cw / 4,
            0 <= pc * sub_w <= 3 * sub_w,
            cw >= 0,
    ;
    assert(ch > 0 ==> pr * sub_h + sub_h / 2 < ch) by (nonlinear_arith)
        requires
            0 <= pr < 3,
            sub_h == ch / 3,
            0 <= pr * sub_h <= 2 * sub_h,
            ch >= 0,
    ;
}

/// Precision points go left to right with the sub-cell column and top to
/// bottom with the sub-cell row: a point's `x` depends on the column alone and
/// its `y` on the row alone, and once the cell is wide (high) enough to give
/// each sub-cell a pixel, a later column (row) lies strictly further right (down).
pub proof fn lemma_precision_points_ordered(
    col: int,
    row: int,
    pc1: int,
    pr1: int,
    pc2: int,
    pr2: int,
    width: int,
    height: int,
)
    requires
        0 <= col,
        0 <= row,
        0 <= width,
        0 <= height,
        0 <= pc1 < 4,
        0 <= pc2 < 4,
        0 <= pr1 < 3,
        0 <= pr2 < 3,
    ensures
        ({
            let p1 = precision_point(col, row, pc1, pr1, width, height);
            let p2 = precision_point(col, row, pc2, pr2, width, height);
            &&& pc1 == pc2 ==> p1.0 == p2.0
            &&& pr1 == pr2 ==> p1.1 == p2.1
            &&& pc1 < pc2 && cell_end(col, width) - cell_start(col, width) >= 4 ==> p1.0 < p2.0
            &&& pr1 < pr2 && cell_end(row, height) - cell_start(row, height) >= 3 ==> p1.1 < p2.1
        }),
{
    lemma_cell_ordered(col, width);
    lemma_cell_ordered(row, height);
    let sub_w = (cell_end(col, width) - cell_start(col, width)) / 4;
    let sub_h = (cell_end(row, height) - cell_start(row, height)) / 3;
    assert(pc1 < pc2 && sub_w >= 1 ==> pc1 * sub_w < pc2 * sub_w) by (nonlinear_arith);
    assert(pr1 < pr2 && sub_h >= 1 ==> pr1 * sub_h < pr2 * sub_h) by (nonlinear_arith);
}

/// The precision keys name the twelve sub-cells of the 4x3 precision grid,
/// each exactly once.
pub proof fn lemma_subcells_one_to_one(a: char, b: char)
    ensures
        subcell_of(a) matches Some((pc, pr)) ==> pc < 4 && pr < 3,
        subcell_of(a) is Some && subcell_of(a) == subcell_of(b) ==> a == b,
{
}

/// Every sub-cell of the 4x3 precision grid has a precision key.
pub proof fn lemma_subcells_covered(pc: u32, pr: u32)
    requires
        pc < 4,
        pr < 3,
    ensures
        exists|ch: char| #[trigger] subcell_of(ch) == Some((pc, pr)),
{
    if pr == 0 {
        if pc == 0 { assert(subcell_of('y') == Some((pc, pr))); }
        else if pc == 1 { assert(subcell_of('u') == Some((pc, pr))); }
        else if pc == 2 { assert(subcell_of('i') == Some((pc, pr))); }
        else { assert(subcell_of('o') == Some((pc, pr))); }
    } else if pr == 1 {
        if pc == 0 { assert(subcell_of('h') == Some((pc, pr))); }
        else if pc == 1 { assert(subcell_of('j') == Some((pc, pr))); }
        else if pc == 2 { assert(subcell_of('k') == Some((pc, pr))); }
        else { assert(subcell_of('l') == Some((pc, pr))); }
    } else {
        if pc == 0 { assert(subcell_of('n') == Some((pc, pr))); }
        else if pc == 1 { assert(subcell_of('m') == Some((pc, pr))); }
        else if pc == 2 { assert(subcell_of(',') == Some((pc, pr))); }
        else { assert(subcell_of('.') == Some((pc, pr))); }
    }
}

/// Distinct key codes type distinct characters, and every character typed is
/// a grid letter, a comma, a full stop or the space bar's blank.
pub proof fn lemma_keycodes_one_to_one(k1: u32, k2: u32)
    ensures
        char_of_keycode(k1) is Some ==> is_grid_letter(char_of_keycode(k1)->0) || char_of_keycode(k1)->0 == ' '
            || char_of_keycode(k1)->0 == ',' || char_of_keycode(k1)->0 == '.',
        char_of_keycode(k1) is Some && char_of_keycode(k1) == char_of_keycode(k2) ==> k1 == k2,
{
}

/// The key handling stage: nothing chosen yet, a row chosen, a cell chosen,
/// or a point chosen.
#[derive(Debug, Clone, Copy, PartialEq, Eq, Structural)]
pub enum InputState {
    Idle,
    WaitingSecond { first: char },
    WaitingThird { first: char, second: char },
    Done,
}

impl InputState {
    /// The letters that a stage holds are grid letters.
    pub open spec fn wf(self) -> bool {
        match self {
            InputState::WaitingSecond { first } => is_grid_letter(first),
            InputState::WaitingThird { first, second } => is_grid_letter(first) && is_grid_letter(second),
            _ => true,
        }
    }
}

} // verus!
