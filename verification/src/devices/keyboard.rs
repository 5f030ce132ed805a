//! Keyboard input driver: feeds raw scancodes to the layout-aware decoder of
//! the `pc_keyboard` crate, queues the decoded characters, applies backspace
//! semantics, and echoes through the console. Reading the scancode port and
//! performing the returned screen actions happen outside this crate.

use crate::devices::console::{backspace_actions, backspace_pos, print_actions, print_pos, Console};
use crate::devices::cursor::ScreenAction;
use vstd::prelude::*;

verus! {

/// Declares pc_keyboard::ScancodeSet1, the scan-code-set-1 byte decoder
/// state, as an opaque outside type.
#[verifier::external_type_specification]
#[verifier::external_body]
pub struct ExScancodeSet1(pc_keyboard::ScancodeSet1);

/// The stateful scancode decoder of `pc_keyboard`, held whole: Verus cannot
/// name `PS2Keyboard`'s layout and scan-set trait bounds, so the decoder sits
/// opaque behind this struct and is reached only through the wrappers below.
#[verifier::external_body]
struct Decoder {
    inner: pc_keyboard::PS2Keyboard<pc_keyboard::layouts::Us104Key, pc_keyboard::ScancodeSet1>,
}

/// Declares pc_keyboard::KeyEvent, a completed key press or release, as an
/// opaque outside type.
#[verifier::external_type_specification]
#[verifier::external_body]
pub struct ExKeyEvent(pc_keyboard::KeyEvent);

/// Declares pc_keyboard::Error, the decoder's malformed-sequence error, as an
/// opaque outside type.
#[verifier::external_type_specification]
#[verifier::external_body]
pub struct ExKeyboardError(pc_keyboard::Error);

/// A decoded key-down: a character, or a named non-character key, which the
/// current policy ignores.
pub enum DecodedInput {
    Text(char),
    Raw,
}

/// Relies on pc_keyboard::ScancodeSet1::new: a fresh scan-code-set-1 decoder
/// state.
#[verifier::external_body]
fn new_scancode_set() -> pc_keyboard::ScancodeSet1 {
    pc_keyboard::ScancodeSet1::new()
}

/// Relies on pc_keyboard::PS2Keyboard::new, with the US-104 layout and
/// control keys passed through unchanged.
#[verifier::external_body]
fn new_decoder(set: pc_keyboard::ScancodeSet1) -> Decoder {
    Decoder {
        inner: pc_keyboard::PS2Keyboard::new(
            set,
            pc_keyboard::layouts::Us104Key,
            pc_keyboard::HandleControl::Ignore,
        ),
    }
}

/// Relies on pc_keyboard::PS2Keyboard::add_byte: accumulates one scancode
/// byte and reports a completed key event, nothing yet, or a malformed
/// sequence. The outcome depends on the decoder's accumulated state, so
/// nothing is promised of it.
#[verifier::external_body]
fn decoder_add_byte(decoder: &mut Decoder, code: u8) -> Result<
    Option<pc_keyboard::KeyEvent>,
    pc_keyboard::Error,
> {
    decoder.inner.add_byte(code)
}

/// Relies on pc_keyboard::PS2Keyboard::process_keyevent: maps a key event
/// through layout and modifier state. A `DecodedKey::Unicode` character comes
/// back as text, a `DecodedKey::RawKey` as a raw key; the choice depends on
/// the decoder's modifier state, so nothing is promised of it.
#[verifier::external_body]
fn decoder_process_event(decoder: &mut Decoder, event: pc_keyboard::KeyEvent) -> Option<
    DecodedInput,
> {
    decoder.inner.process_keyevent(event).map(
        |key|
            match key {
                pc_keyboard::DecodedKey::Unicode(character) => DecodedInput::Text(character),
                pc_keyboard::DecodedKey::RawKey(_) => DecodedInput::Raw,
            },
    )
}

/// The queue and console after one decoded key: backspace pops the newest
/// character and erases its cell, an ordinary character is queued and echoed,
/// a raw key does nothing.
pub open spec fn handled(
    queue: Seq<char>,
    row: usize,
    col: usize,
    key: DecodedInput,
) -> (Seq<char>, (usize, usize), Seq<ScreenAction>) {
    match key {
        DecodedInput::Text(ch) => {
            if ch == '\x08' {
                if queue.len() > 0 {
                    (queue.drop_last(), backspace_pos(row, col), backspace_actions(row, col))
                } else {
                    (queue, (row, col), seq![])
                }
            } else {
                (queue.push(ch), print_pos(row, col, ch), print_actions(row, col, ch))
            }
        },
        DecodedInput::Raw => (queue, (row, col), seq![]),
    }
}

/// The input driver: owns the scancode decoder and the shared character
/// queue. Its view is the queue, oldest character first.
pub struct InputDriver {
    decoder: Decoder,
    buffer: Vec<char>,
}

impl View for InputDriver {
    type V = Seq<char>;

    closed spec fn view(&self) -> Seq<char> {
        self.buffer@
    }
}

impl InputDriver {
    /// A fresh driver with an empty queue.
    pub fn new() -> (d: Self)
        ensures
            d@ == Seq::<char>::empty(),
    {
        let d = InputDriver { decoder: new_decoder(new_scancode_set()), buffer: Vec::new() };
        proof {
            assert(d@ =~= Seq::<char>::empty());
        }
        d
    }

    /// Applies one decoded key to the queue and the console, exactly as
    /// `handled` says.
    pub fn handle_decoded(&mut self, console: &mut Console, key: DecodedInput) -> (acts: Vec<
        ScreenAction,
    >)
        requires
            old(console).wf(),
        ensures
            final(console).wf(),
            (final(self)@, (final(console).cursor.row, final(console).cursor.col), acts@)
                == handled(
                old(self)@,
                old(console).cursor.row,
                old(console).cursor.col,
                key,
            ),
    {
        match key {
            DecodedInput::Text(character) => {
                if character == '\x08' {
                    if self.buffer.len() > 0 {
                        self.buffer.pop();
                        console.backspace()
                    } else {
                        let acts: Vec<ScreenAction> = Vec::new();
                        proof {
                            assert(acts@ =~= Seq::<ScreenAction>::empty());
                        }
                        acts
                    }
                } else {
                    self.buffer.push(character);
                    console.print_char_and_move_cursor(character)
                }
            },
            DecodedInput::Raw => {
                let acts: Vec<ScreenAction> = Vec::new();
                proof {
                    assert(acts@ =~= Seq::<ScreenAction>::empty());
                }
                acts
            },
        }
    }

    /// Feeds one raw scancode byte. A key-release byte (high bit set) is
    /// dropped. Otherwise the stateful decoder may complete a key-down, in
    /// which case its effect is exactly `handled` for some decoded key; a
    /// partial or malformed sequence leaves queue and console untouched.
    pub fn process_scancode(&mut self, console: &mut Console, scancode: u8) -> (acts: Vec<
        ScreenAction,
    >)
        requires
            old(console).wf(),
        ensures
            final(console).wf(),
            scancode & 0x80 != 0 ==> final(self)@ == old(self)@ && *final(console) == *old(console)
                && acts@ == Seq::<ScreenAction>::empty(),
            (final(self)@ == old(self)@ && *final(console) == *old(console) && acts@
                == Seq::<ScreenAction>::empty()) || (exists|key: DecodedInput|
                (final(self)@, (final(console).cursor.row, final(console).cursor.col), acts@)
                    == handled(
                    old(self)@,
                    old(console).cursor.row,
                    old(console).cursor.col,
                    key,
                )),
    {
        if scancode & 0x80 != 0 {
            let acts: Vec<ScreenAction> = Vec::new();
            proof {
                assert(acts@ =~= Seq::<ScreenAction>::empty());
            }
            return acts;
        }
        match decoder_add_byte(&mut self.decoder, scancode) {
            Ok(Some(event)) => {
                match decoder_process_event(&mut self.decoder, event) {
                    Some(key) => {
                        let acts = self.handle_decoded(console, key);
                        proof {
                            let k = key;
                            assert((final(self)@, (
                                final(console).cursor.row,
                                final(console).cursor.col,
                            ), acts@) == handled(
                                old(self)@,
                                old(console).cursor.row,
                                old(console).cursor.col,
                                k,
                            ));
                        }
                        acts
                    },
                    None => {
                        // a key event that decodes to nothing is logged by the
                        // caller and dropped
                        let acts: Vec<ScreenAction> = Vec::new();
                        proof {
                            assert(acts@ =~= Seq::<ScreenAction>::empty());
                        }
                        acts
                    },
                }
            },
            Ok(None) => {
                let acts: Vec<ScreenAction> = Vec::new();
                proof {
                    assert(acts@ =~= Seq::<ScreenAction>::empty());
                }
                acts
            },
            Err(_) => {
                // a malformed scancode sequence is dropped, never fatal
                let acts: Vec<ScreenAction> = Vec::new();
                proof {
                    assert(acts@ =~= Seq::<ScreenAction>::empty());
                }
                acts
            },
        }
    }

    /// Pops the most recently queued character: stack order, not the typed
    /// order that a full line keeps.
    pub fn read_char_nonblocking(&mut self) -> (r: Option<char>)
        ensures
            old(self)@.len() == 0 ==> r is None && final(self)@ == old(self)@,
            old(self)@.len() > 0 ==> r == Some(old(self)@.last()) && final(self)@ == old(
                self,
            )@.drop_last(),
    {
        self.buffer.pop()
    }

    /// Pops the most recently queued character from a non-empty queue. The
    /// hardware shell waits for the keyboard interrupt to fill the queue;
    /// with the queue exclusively owned here, a call on an empty queue could
    /// never return and is ruled out.
    pub fn read_char(&mut self) -> (r: char)
        requires
            old(self)@.len() > 0,
        ensures
            r == old(self)@.last(),
            final(self)@ == old(self)@.drop_last(),
    {
        match self.buffer.pop() {
            Some(c) => c,
            None => vstd::pervasive::unreached(),
        }
    }

    /// Whether the most recently queued character completes a line.
    pub fn line_ready(&self) -> (r: bool)
        ensures
            r == (self@.len() > 0 && self@.last() == '\n'),
    {
        let n = self.buffer.len();
        if n == 0 {
            false
        } else {
            self.buffer[n - 1] == '\n'
        }
    }

    /// Drains the whole queue if its newest character is a newline: the
    /// completed line in typed order, trailing newlines stripped. Returns
    /// nothing, and changes nothing, while the line is still being typed.
    pub fn try_read_line(&mut self) -> (r: Option<String>)
        ensures
            old(self)@.len() > 0 && old(self)@.last() == '\n' ==> (r matches Some(line) && line@
                == strip_trailing_newlines(old(self)@) && final(self)@ == Seq::<char>::empty()),
            !(old(self)@.len() > 0 && old(self)@.last() == '\n') ==> r is None && final(self)@
                == old(self)@,
    {
        if !self.line_ready() {
            return None;
        }
        let ghost q = self.buffer@;
        let mut end = self.buffer.len();
        proof {
            assert(q.subrange(0, q.len() as int) =~= q);
        }
        while end > 0 && self.buffer[end - 1] == '\n'
            invariant
                end <= q.len(),
                q == self.buffer@,
                strip_trailing_newlines(q) == strip_trailing_newlines(q.subrange(0, end as int)),
            decreases end,
        {
            proof {
                assert(q.subrange(0, end as int).drop_last() =~= q.subrange(0, end - 1));
            }
            end -= 1;
        }
        proof {
            if end > 0 {
                assert(strip_trailing_newlines(q.subrange(0, end as int)) == q.subrange(
                    0,
                    end as int,
                ));
            } else {
                assert(q.subrange(0, 0) =~= Seq::<char>::empty());
            }
        }
        let mut line = String::new();
        let mut i: usize = 0;
        while i < end
            invariant
                i <= end,
                end <= q.len(),
                q == self.buffer@,
                line@ == q.subrange(0, i as int),
            decreases end - i,
        {
            let c = self.buffer[i];
            push_char(&mut line, c);
            proof {
                assert(q.subrange(0, i as int).push(q[i as int]) =~= q.subrange(0, i + 1));
            }
            i += 1;
        }
        self.buffer.clear();
        proof {
            assert(final(self)@ == Seq::<char>::empty() || self@ =~= Seq::<char>::empty());
        }
        Some(line)
    }
}

/// The queue without its trailing newlines.
pub open spec fn strip_trailing_newlines(q: Seq<char>) -> Seq<char>
    decreases q.len(),
{
    if q.len() > 0 && q.last() == '\n' {
        strip_trailing_newlines(q.drop_last())
    } else {
        q
    }
}

/// Relies on String::push: appends exactly the one character.
#[verifier::external_body]
fn push_char(s: &mut String, c: char)
    ensures
        final(s)@ == old(s)@.push(c),
{
    s.push(c);
}

} // verus!
