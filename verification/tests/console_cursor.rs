use charizard::devices::console::Console;
use charizard::devices::cursor::{
    cursor_offset, offset_high_byte, offset_low_byte, Cursor, ScreenAction, BUFFER_HEIGHT,
    BUFFER_WIDTH,
};

#[test]
fn printing_advances_one_column() {
    let mut console = Console::default();
    console.cursor.set_cursor_position(3, 5);
    let acts = console.print_char_and_move_cursor('x');
    assert_eq!(acts, vec![
        ScreenAction::Put { row: 3, col: 5, glyph: 'x' },
        ScreenAction::MoveTo { row: 3, col: 6 },
    ]);
    assert_eq!((console.cursor.row, console.cursor.col), (3, 6));
}

#[test]
fn last_column_wraps_to_next_row() {
    let mut console = Console::default();
    console.cursor.set_cursor_position(0, BUFFER_WIDTH - 1);
    let acts = console.print_char_and_move_cursor('x');
    assert_eq!((console.cursor.row, console.cursor.col), (1, 0));
    assert_eq!(acts, vec![
        ScreenAction::Put { row: 0, col: BUFFER_WIDTH - 1, glyph: 'x' },
        ScreenAction::MoveTo { row: 1, col: 0 },
    ]);
}

#[test]
fn filling_a_line_wraps_not_overflows() {
    let mut console = Console::default();
    console.cursor.set_cursor_position(2, 0);
    for _ in 0..BUFFER_WIDTH {
        console.print_char_and_move_cursor('x');
        assert!(console.cursor.col < BUFFER_WIDTH);
    }
    assert_eq!((console.cursor.row, console.cursor.col), (3, 0));
}

#[test]
fn typing_past_the_last_row_scrolls_exactly_once() {
    let mut console = Console::default();
    console.cursor.set_cursor_position(BUFFER_HEIGHT - 1, BUFFER_WIDTH - 1);
    let acts = console.print_char_and_move_cursor('x');
    let scrolls = acts.iter().filter(|a| **a == ScreenAction::Scroll).count();
    assert_eq!(scrolls, 1);
    assert_eq!(
        (console.cursor.row, console.cursor.col),
        (BUFFER_HEIGHT - 1, 0)
    );
}

#[test]
fn newline_moves_or_scrolls() {
    let mut console = Console::default();
    console.cursor.set_cursor_position(4, 17);
    let acts = console.print_char_and_move_cursor('\n');
    assert_eq!(acts, vec![ScreenAction::MoveTo { row: 5, col: 0 }]);
    console.cursor.set_cursor_position(BUFFER_HEIGHT - 1, 3);
    let acts = console.print_char_and_move_cursor('\n');
    assert_eq!(acts, vec![
        ScreenAction::Scroll,
        ScreenAction::MoveTo { row: BUFFER_HEIGHT - 1, col: 0 },
    ]);
}

#[test]
fn backspace_blanks_and_moves_left() {
    let mut console = Console::default();
    console.cursor.set_cursor_position(6, 2);
    let acts = console.backspace();
    assert_eq!(acts, vec![
        ScreenAction::MoveTo { row: 6, col: 1 },
        ScreenAction::Put { row: 6, col: 1, glyph: ' ' },
    ]);
    assert_eq!((console.cursor.row, console.cursor.col), (6, 1));
}

#[test]
fn backspace_wraps_to_previous_row() {
    let mut console = Console::default();
    console.cursor.set_cursor_position(6, 0);
    console.backspace();
    assert_eq!(
        (console.cursor.row, console.cursor.col),
        (5, BUFFER_WIDTH - 1)
    );
}

#[test]
fn backspace_at_origin_is_a_no_op() {
    let mut console = Console::default();
    console.cursor.set_cursor_position(0, 0);
    let acts = console.backspace();
    assert!(acts.is_empty());
    assert_eq!((console.cursor.row, console.cursor.col), (0, 0));
}

#[test]
fn console_clear_screen_wipes_and_parks() {
    let mut console = Console::default();
    console.cursor.set_cursor_position(7, 7);
    let acts = console.clear_screen();
    assert_eq!(acts, vec![
        ScreenAction::Wipe,
        ScreenAction::MoveTo { row: BUFFER_HEIGHT - 1, col: 0 },
    ]);
    assert_eq!(
        (console.cursor.row, console.cursor.col),
        (BUFFER_HEIGHT - 1, 0)
    );
}

#[test]
fn cursor_clear_screen_blanks_every_cell() {
    let mut cursor = Cursor::default();
    let acts = cursor.clear_screen();
    assert_eq!(acts.len(), BUFFER_HEIGHT * BUFFER_WIDTH + 1);
    assert_eq!(acts[0], ScreenAction::Put { row: 0, col: 0, glyph: ' ' });
    assert_eq!(acts[81], ScreenAction::Put { row: 1, col: 1, glyph: ' ' });
    assert_eq!(
        acts[BUFFER_HEIGHT * BUFFER_WIDTH],
        ScreenAction::MoveTo { row: BUFFER_HEIGHT - 1, col: 0 }
    );
    assert_eq!((cursor.row, cursor.col), (BUFFER_HEIGHT - 1, 0));
}

#[test]
fn escape_sequences_dispatch() {
    let mut cursor = Cursor::default();
    assert_eq!(
        cursor.handle_ansi_escape("[?25h"),
        vec![ScreenAction::Show]
    );
    assert_eq!(
        cursor.handle_ansi_escape("[?25l"),
        vec![ScreenAction::Hide]
    );
    assert!(cursor.handle_ansi_escape("[9H").is_empty());
    assert_eq!(
        cursor.handle_ansi_escape("[2J").len(),
        BUFFER_HEIGHT * BUFFER_WIDTH + 1
    );
}

#[test]
fn hardware_offset_bytes() {
    let off = cursor_offset(BUFFER_HEIGHT - 1, 0);
    assert_eq!(off, 1920);
    assert_eq!(offset_low_byte(off), 128);
    assert_eq!(offset_high_byte(off), 7);
    assert_eq!(cursor_offset(0, 0), 0);
    assert_eq!(cursor_offset(2, 5), 165);
}

#[test]
fn cursor_visibility_bytes() {
    let cursor = Cursor::default();
    assert_eq!(cursor.show_cursor(0xff), 0xdf);
    assert_eq!(cursor.hide_cursor(0x00), 0x20);
    assert_eq!(cursor.show_cursor(0x20), 0x00);
}
