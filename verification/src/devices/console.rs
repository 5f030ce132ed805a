//! Console output driver: a state machine over the cursor position, one input
//! symbol per call. Rendering is returned as a sequence of screen actions for
//! the raw cell writer; the logical cursor is tracked here.

use crate::devices::cursor::{Cursor, ScreenAction, BUFFER_HEIGHT, BUFFER_WIDTH};
use vstd::prelude::*;

verus! {

/// Cursor position after printing `ch` at `(row, col)`: `\n` advances a line,
/// an ordinary glyph advances a column and wraps at the last column; moving
/// past the last row scrolls and parks at the bottom-left.
pub open spec fn print_pos(row: usize, col: usize, ch: char) -> (usize, usize) {
    if ch == '\n' {
        if row < BUFFER_HEIGHT - 1 {
            ((row + 1) as usize, 0usize)
        } else {
            ((BUFFER_HEIGHT - 1) as usize, 0usize)
        }
    } else {
        if col < BUFFER_WIDTH - 1 {
            (row, (col + 1) as usize)
        } else if row + 1 < BUFFER_HEIGHT {
            ((row + 1) as usize, 0usize)
        } else {
            ((BUFFER_HEIGHT - 1) as usize, 0usize)
        }
    }
}

/// Screen actions for printing `ch` at `(row, col)`: the glyph cell write (for
/// a non-newline), exactly one scroll when the move runs past the last row,
/// and the hardware cursor move.
pub open spec fn print_actions(row: usize, col: usize, ch: char) -> Seq<ScreenAction> {
    if ch == '\n' {
        if row < BUFFER_HEIGHT - 1 {
            seq![ScreenAction::MoveTo { row: (row + 1) as usize, col: 0 }]
        } else {
            seq![
                ScreenAction::Scroll,
                ScreenAction::MoveTo { row: (BUFFER_HEIGHT - 1) as usize, col: 0 },
            ]
        }
    } else {
        let put = ScreenAction::Put { row, col, glyph: ch };
        if col < BUFFER_WIDTH - 1 {
            seq![put, ScreenAction::MoveTo { row, col: (col + 1) as usize }]
        } else if row + 1 < BUFFER_HEIGHT {
            seq![put, ScreenAction::MoveTo { row: (row + 1) as usize, col: 0 }]
        } else {
            seq![
                put,
                ScreenAction::Scroll,
                ScreenAction::MoveTo { row: (BUFFER_HEIGHT - 1) as usize, col: 0 },
            ]
        }
    }
}

/// Cursor position after erasing backward from `(row, col)`: one cell left,
/// wrapping to the last column of the previous row, and staying put at the
/// top-left corner.
pub open spec fn backspace_pos(row: usize, col: usize) -> (usize, usize) {
    if col > 0 {
        (row, (col - 1) as usize)
    } else if row > 0 {
        ((row - 1) as usize, (BUFFER_WIDTH - 1) as usize)
    } else {
        (row, col)
    }
}

/// Screen actions for erasing backward from `(row, col)`: move the cursor,
/// then blank the cell it now rests on; nothing at the top-left corner.
pub open spec fn backspace_actions(row: usize, col: usize) -> Seq<ScreenAction> {
    if col > 0 {
        seq![
            ScreenAction::MoveTo { row, col: (col - 1) as usize },
            ScreenAction::Put { row, col: (col - 1) as usize, glyph: ' ' },
        ]
    } else if row > 0 {
        seq![
            ScreenAction::MoveTo { row: (row - 1) as usize, col: (BUFFER_WIDTH - 1) as usize },
            ScreenAction::Put {
                row: (row - 1) as usize,
                col: (BUFFER_WIDTH - 1) as usize,
                glyph: ' ',
            },
        ]
    } else {
        seq![]
    }
}

/// The console: owns the logical cursor and decides every cell write, scroll
/// and cursor move; the raw cell writer performs them.
pub struct Console {
    pub cursor: Cursor,
}

impl Default for Console {
    fn default() -> (c: Self)
        ensures
            c.wf(),
            c.cursor.row == BUFFER_HEIGHT - 1,
            c.cursor.col == 0,
    {
        Console { cursor: Cursor::default() }
    }
}

impl Console {
    /// The cursor never leaves the display.
    pub open spec fn wf(&self) -> bool {
        self.cursor.wf()
    }

    /// Renders one character at the cursor and advances it, wrapping at the
    /// last column and scrolling past the last row.
    pub fn print_char_and_move_cursor(&mut self, character: char) -> (acts: Vec<ScreenAction>)
        requires
            old(self).wf(),
        ensures
            final(self).wf(),
            (final(self).cursor.row, final(self).cursor.col) == print_pos(
                old(self).cursor.row,
                old(self).cursor.col,
                character,
            ),
            acts@ == print_actions(old(self).cursor.row, old(self).cursor.col, character),
    {
        let mut acts: Vec<ScreenAction> = Vec::new();
        let row = self.cursor.row;
        let col = self.cursor.col;
        if character == '\n' {
            if row < BUFFER_HEIGHT - 1 {
                self.cursor.set_cursor_position(row + 1, 0);
                acts.push(ScreenAction::MoveTo { row: row + 1, col: 0 });
                proof {
                    assert(acts@ =~= print_actions(row, col, character));
                }
            } else {
                self.cursor.set_cursor_position(BUFFER_HEIGHT - 1, 0);
                acts.push(ScreenAction::Scroll);
                acts.push(ScreenAction::MoveTo { row: BUFFER_HEIGHT - 1, col: 0 });
                proof {
                    assert(acts@ =~= print_actions(row, col, character));
                }
            }
        } else {
            acts.push(ScreenAction::Put { row, col, glyph: character });
            if col < BUFFER_WIDTH - 1 {
                self.cursor.set_cursor_position(row, col + 1);
                acts.push(ScreenAction::MoveTo { row, col: col + 1 });
                proof {
                    assert(acts@ =~= print_actions(row, col, character));
                }
            } else if row + 1 < BUFFER_HEIGHT {
                self.cursor.set_cursor_position(row + 1, 0);
                acts.push(ScreenAction::MoveTo { row: row + 1, col: 0 });
                proof {
                    assert(acts@ =~= print_actions(row, col, character));
                }
            } else {
                self.cursor.set_cursor_position(BUFFER_HEIGHT - 1, 0);
                acts.push(ScreenAction::Scroll);
                acts.push(ScreenAction::MoveTo { row: BUFFER_HEIGHT - 1, col: 0 });
                proof {
                    assert(acts@ =~= print_actions(row, col, character));
                }
            }
        }
        acts
    }

    /// Clears every cell through the writer's own clear and parks the cursor
    /// at the bottom-left.
    pub fn clear_screen(&mut self) -> (acts: Vec<ScreenAction>)
        ensures
            final(self).wf(),
            final(self).cursor.row == BUFFER_HEIGHT - 1,
            final(self).cursor.col == 0,
            acts@ == seq![
                ScreenAction::Wipe,
                ScreenAction::MoveTo { row: (BUFFER_HEIGHT - 1) as usize, col: 0 },
            ],
    {
        let mut acts: Vec<ScreenAction> = Vec::new();
        acts.push(ScreenAction::Wipe);
        self.cursor.set_cursor_position(BUFFER_HEIGHT - 1, 0);
        acts.push(ScreenAction::MoveTo { row: BUFFER_HEIGHT - 1, col: 0 });
        proof {
            assert(acts@ =~= seq![
                ScreenAction::Wipe,
                ScreenAction::MoveTo { row: (BUFFER_HEIGHT - 1) as usize, col: 0 },
            ]);
        }
        acts
    }

    /// Moves the cursor one cell back and blanks that cell; a no-op at the
    /// top-left corner.
    pub fn backspace(&mut self) -> (acts: Vec<ScreenAction>)
        requires
            old(self).wf(),
        ensures
            final(self).wf(),
            (final(self).cursor.row, final(self).cursor.col) == backspace_pos(
                old(self).cursor.row,
                old(self).cursor.col,
            ),
            acts@ == backspace_actions(old(self).cursor.row, old(self).cursor.col),
    {
        let mut acts: Vec<ScreenAction> = Vec::new();
        let row = self.cursor.row;
        let col = self.cursor.col;
        if col > 0 {
            self.cursor.set_cursor_position(row, col - 1);
            acts.push(ScreenAction::MoveTo { row, col: col - 1 });
            acts.push(ScreenAction::Put { row, col: col - 1, glyph: ' ' });
            proof {
                assert(acts@ =~= backspace_actions(row, col));
            }
        } else if row > 0 {
            self.cursor.set_cursor_position(row - 1, BUFFER_WIDTH - 1);
            acts.push(ScreenAction::MoveTo { row: row - 1, col: BUFFER_WIDTH - 1 });
            acts.push(ScreenAction::Put { row: row - 1, col: BUFFER_WIDTH - 1, glyph: ' ' });
            proof {
                assert(acts@ =~= backspace_actions(row, col));
            }
        } else {
            proof {
                assert(acts@ =~= backspace_actions(row, col));
            }
        }
        acts
    }
}

} // verus!
