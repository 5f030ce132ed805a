use charizard::devices::console::Console;
use charizard::devices::cursor::BUFFER_HEIGHT;
use charizard::devices::keyboard::{DecodedInput, InputDriver};

// Scan code set 1 make codes, as the real decoder maps them.
const SC_A: u8 = 0x1e;
const SC_B: u8 = 0x30;
const SC_H: u8 = 0x23;
const SC_I: u8 = 0x17;
const SC_BACKSPACE: u8 = 0x0e;
const SC_ENTER: u8 = 0x1c;

fn press(driver: &mut InputDriver, console: &mut Console, code: u8) {
    driver.process_scancode(console, code);
    // the release byte carries no new information and must be dropped
    driver.process_scancode(console, code | 0x80);
}

#[test]
fn typed_line_with_backspace() {
    let mut driver = InputDriver::new();
    let mut console = Console::default();
    press(&mut driver, &mut console, SC_H);
    press(&mut driver, &mut console, SC_I);
    press(&mut driver, &mut console, SC_BACKSPACE);
    press(&mut driver, &mut console, SC_I);
    // the erased glyph is replaced: two glyphs on the line, cursor one past
    assert_eq!((console.cursor.row, console.cursor.col), (BUFFER_HEIGHT - 1, 2));
    assert_eq!(driver.try_read_line(), None);
    press(&mut driver, &mut console, SC_ENTER);
    assert_eq!(driver.try_read_line(), Some(String::from("hi")));
    assert_eq!(driver.try_read_line(), None);
}

#[test]
fn decoder_turns_scancodes_into_characters() {
    let mut driver = InputDriver::new();
    let mut console = Console::default();
    press(&mut driver, &mut console, SC_A);
    press(&mut driver, &mut console, SC_B);
    // non-blocking reads come newest first: stack order, not typed order
    assert_eq!(driver.read_char_nonblocking(), Some('b'));
    assert_eq!(driver.read_char_nonblocking(), Some('a'));
    assert_eq!(driver.read_char_nonblocking(), None);
}

#[test]
fn read_char_pops_the_newest() {
    let mut driver = InputDriver::new();
    let mut console = Console::default();
    press(&mut driver, &mut console, SC_A);
    press(&mut driver, &mut console, SC_B);
    assert_eq!(driver.read_char(), 'b');
    assert_eq!(driver.read_char(), 'a');
}

#[test]
fn backspace_on_an_empty_queue_does_nothing() {
    let mut driver = InputDriver::new();
    let mut console = Console::default();
    console.cursor.set_cursor_position(4, 4);
    let acts = driver.handle_decoded(&mut console, DecodedInput::Text('\u{8}'));
    assert!(acts.is_empty());
    assert_eq!((console.cursor.row, console.cursor.col), (4, 4));
    assert_eq!(driver.read_char_nonblocking(), None);
}

#[test]
fn raw_keys_are_ignored() {
    let mut driver = InputDriver::new();
    let mut console = Console::default();
    let acts = driver.handle_decoded(&mut console, DecodedInput::Raw);
    assert!(acts.is_empty());
    assert_eq!(driver.read_char_nonblocking(), None);
}

#[test]
fn key_release_bytes_are_dropped() {
    let mut driver = InputDriver::new();
    let mut console = Console::default();
    let acts = driver.process_scancode(&mut console, SC_A | 0x80);
    assert!(acts.is_empty());
    assert_eq!(driver.read_char_nonblocking(), None);
}

#[test]
fn line_drains_in_typed_order() {
    let mut driver = InputDriver::new();
    let mut console = Console::default();
    press(&mut driver, &mut console, SC_A);
    press(&mut driver, &mut console, SC_B);
    press(&mut driver, &mut console, SC_A);
    press(&mut driver, &mut console, SC_ENTER);
    assert_eq!(driver.try_read_line(), Some(String::from("aba")));
}

#[test]
fn echo_actions_render_the_typed_character() {
    let mut driver = InputDriver::new();
    let mut console = Console::default();
    let acts = driver.process_scancode(&mut console, SC_A);
    // the wrapper must hand the decoded character through, not the raw byte
    assert!(format!("{:?}", acts).contains("glyph: 'a'"));
}
