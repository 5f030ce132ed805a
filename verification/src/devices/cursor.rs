//! Logical cursor of the text display, and the byte-exact protocol values for
//! mirroring it onto the CRT controller's index/data port pair. The port I/O
//! itself happens outside this crate; these functions decide what is written.

use crate::text::str_eq;
use vstd::prelude::*;

verus! {

/// Columns of the fixed text display.
pub const BUFFER_WIDTH: usize = 80;

/// Rows of the fixed text display.
pub const BUFFER_HEIGHT: usize = 25;

/// One order to the display hardware: place a glyph, scroll up one line,
/// clear every cell, move the hardware cursor, or change its visibility.
#[derive(PartialEq, Eq, Structural, Clone, Copy, Debug)]
pub enum ScreenAction {
    Put { row: usize, col: usize, glyph: char },
    Scroll,
    Wipe,
    MoveTo { row: usize, col: usize },
    Show,
    Hide,
}

/// The blanking of every cell, row by row, column by column.
pub open spec fn cell_blanking() -> Seq<ScreenAction> {
    Seq::new(
        (BUFFER_HEIGHT * BUFFER_WIDTH) as nat,
        |k: int|
            ScreenAction::Put {
                row: (k / (BUFFER_WIDTH as int)) as usize,
                col: (k % (BUFFER_WIDTH as int)) as usize,
                glyph: ' ',
            },
    )
}

/// The logical text cursor. The logical position is authoritative; the
/// hardware register is a projection of it.
pub struct Cursor {
    pub row: usize,
    pub col: usize,
}

/// The linear cell offset that the CRT cursor-location registers hold.
pub fn cursor_offset(row: usize, col: usize) -> (off: u16)
    requires
        row < BUFFER_HEIGHT,
        col < BUFFER_WIDTH,
    ensures
        off == row * BUFFER_WIDTH + col,
{
    proof {
        assert(row * BUFFER_WIDTH + col < 2000) by (nonlinear_arith)
            requires
                row < 25,
                col < 80,
        ;
    }
    (row * BUFFER_WIDTH + col) as u16
}

/// The low byte of a cursor offset, for the low cursor-location register.
pub fn offset_low_byte(off: u16) -> (b: u8)
    ensures
        b == off % 256,
{
    proof {
        assert(off & 0xff == off % 256) by (bit_vector);
    }
    (off & 0xff) as u8
}

/// The high byte of a cursor offset, for the high cursor-location register.
pub fn offset_high_byte(off: u16) -> (b: u8)
    ensures
        b == off / 256,
{
    proof {
        assert(off >> 8 == off / 256) by (bit_vector);
        assert(off / 256 <= 255) by (bit_vector);
    }
    (off >> 8) as u8
}

impl Default for Cursor {
    /// Starts at the bottom-left cell: the console grows upward from the
    /// prompt line.
    fn default() -> (c: Self)
        ensures
            c.row == BUFFER_HEIGHT - 1,
            c.col == 0,
    {
        Cursor { row: BUFFER_HEIGHT - 1, col: 0 }
    }
}

impl Cursor {
    /// The position never leaves the display.
    pub open spec fn wf(&self) -> bool {
        self.row < BUFFER_HEIGHT && self.col < BUFFER_WIDTH
    }

    /// Moves the logical cursor. A position off the display is a driver bug,
    /// not recoverable input, and is ruled out here.
    pub fn set_cursor_position(&mut self, row: usize, col: usize)
        requires
            row < BUFFER_HEIGHT,
            col < BUFFER_WIDTH,
        ensures
            final(self).row == row,
            final(self).col == col,
    {
        self.row = row;
        self.col = col;
    }

    /// The shape-register byte that makes the hardware cursor visible: the
    /// disable bit is cleared.
    pub fn show_cursor(&self, current: u8) -> (b: u8)
        ensures
            b == current & 0xdf,
    {
        current & 0xdf
    }

    /// The shape-register byte that hides the hardware cursor: the disable
    /// bit is set.
    pub fn hide_cursor(&self, current: u8) -> (b: u8)
        ensures
            b == current | 0x20,
    {
        current | 0x20
    }

    /// The order to place one glyph at one cell.
    pub fn write_char_at(row: usize, col: usize, character: char) -> (a: ScreenAction)
        requires
            row < BUFFER_HEIGHT,
            col < BUFFER_WIDTH,
        ensures
            a == (ScreenAction::Put { row, col, glyph: character }),
    {
        ScreenAction::Put { row, col, glyph: character }
    }

    /// Blanks every cell one by one and parks the cursor at the bottom-left.
    pub fn clear_screen(&mut self) -> (acts: Vec<ScreenAction>)
        ensures
            final(self).row == BUFFER_HEIGHT - 1,
            final(self).col == 0,
            acts@ == cell_blanking().push(
                ScreenAction::MoveTo { row: (BUFFER_HEIGHT - 1) as usize, col: 0 },
            ),
    {
        let mut acts: Vec<ScreenAction> = Vec::new();
        let mut row: usize = 0;
        while row < BUFFER_HEIGHT
            invariant
                row <= BUFFER_HEIGHT,
                acts@.len() == row * BUFFER_WIDTH,
                forall|k: int| 0 <= k < acts@.len() ==> acts@[k] == cell_blanking()[k],
            decreases BUFFER_HEIGHT - row,
        {
            let mut col: usize = 0;
            while col < BUFFER_WIDTH
                invariant
                    row < BUFFER_HEIGHT,
                    col <= BUFFER_WIDTH,
                    acts@.len() == row * BUFFER_WIDTH + col,
                    forall|k: int| 0 <= k < acts@.len() ==> acts@[k] == cell_blanking()[k],
                decreases BUFFER_WIDTH - col,
            {
                acts.push(ScreenAction::Put { row, col, glyph: ' ' });
                proof {
                    let k = row * BUFFER_WIDTH + col;
                    assert(k / (BUFFER_WIDTH as int) == row && k % (BUFFER_WIDTH as int) == col)
                        by (nonlinear_arith)
                        requires
                            k == row * BUFFER_WIDTH + col,
                            row < BUFFER_HEIGHT,
                            col < BUFFER_WIDTH,
                    ;
                    assert(k < BUFFER_HEIGHT * BUFFER_WIDTH) by (nonlinear_arith)
                        requires
                            k == row * BUFFER_WIDTH + col,
                            row < BUFFER_HEIGHT,
                            col < BUFFER_WIDTH,
                    ;
                    assert(acts@[k] == cell_blanking()[k]);
                }
                col += 1;
            }
            row += 1;
        }
        proof {
            assert(acts@.len() == BUFFER_HEIGHT * BUFFER_WIDTH);
        }
        self.set_cursor_position(BUFFER_HEIGHT - 1, 0);
        acts.push(ScreenAction::MoveTo { row: BUFFER_HEIGHT - 1, col: 0 });
        proof {
            assert(acts@ =~= cell_blanking().push(
                ScreenAction::MoveTo { row: (BUFFER_HEIGHT - 1) as usize, col: 0 },
            ));
        }
        acts
    }

    /// Recognizes exactly two escape directives: `[2J` clears the screen,
    /// `[?25h` and `[?25l` show and hide the hardware cursor. Anything else
    /// is ignored; this is not a general escape parser.
    pub fn handle_ansi_escape(&mut self, sequence: &str) -> (acts: Vec<ScreenAction>)
        ensures
            sequence@ == "[2J"@ ==> final(self).row == BUFFER_HEIGHT - 1 && final(self).col == 0
                && acts@ == cell_blanking().push(
                ScreenAction::MoveTo { row: (BUFFER_HEIGHT - 1) as usize, col: 0 },
            ),
            sequence@ == "[?25h"@ ==> *final(self) == *old(self) && acts@ == seq![
                ScreenAction::Show,
            ],
            sequence@ == "[?25l"@ ==> *final(self) == *old(self) && acts@ == seq![
                ScreenAction::Hide,
            ],
            sequence@ != "[2J"@ && sequence@ != "[?25h"@ && sequence@ != "[?25l"@ ==> *final(self)
                == *old(self) && acts@ == Seq::<ScreenAction>::empty(),
    {
        proof {
            proof_distinct_escapes();
        }
        if str_eq(sequence, "[2J") {
            self.clear_screen()
        } else if str_eq(sequence, "[?25h") {
            let mut acts: Vec<ScreenAction> = Vec::new();
            acts.push(ScreenAction::Show);
            proof {
                assert(acts@ =~= seq![ScreenAction::Show]);
            }
            acts
        } else if str_eq(sequence, "[?25l") {
            let mut acts: Vec<ScreenAction> = Vec::new();
            acts.push(ScreenAction::Hide);
            proof {
                assert(acts@ =~= seq![ScreenAction::Hide]);
            }
            acts
        } else {
            let acts: Vec<ScreenAction> = Vec::new();
            proof {
                assert(acts@ =~= Seq::<ScreenAction>::empty());
            }
            acts
        }
    }
}

/// The three recognized escape sequences differ from each other.
proof fn proof_distinct_escapes()
    ensures
        "[2J"@ != "[?25h"@,
        "[2J"@ != "[?25l"@,
        "[?25h"@ != "[?25l"@,
{
    reveal_strlit("[2J");
    reveal_strlit("[?25h");
    reveal_strlit("[?25l");
    assert("[2J"@.len() == 3 && "[?25h"@.len() == 5 && "[?25l"@.len() == 5);
    assert("[?25h"@[4] != "[?25l"@[4]);
}

} // verus!
