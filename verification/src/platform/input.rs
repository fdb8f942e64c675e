//! Input drivers: what painting asks of the mouse and keyboard, and a driver that
//! records the actions instead of performing them.

use vstd::prelude::*;
use vstd::string::StringExecFns;
use crate::strings::{push_char, push_signed, signed_decimal};

verus! {

/// The mouse and keyboard actions that painting needs.
pub trait InputDriver {
    /// Move the mouse to absolute screen coordinates.
    fn move_to(&mut self, x: i32, y: i32) -> Result<(), String>;

    /// Click the left mouse button.
    fn click(&mut self) -> Result<(), String>;

    /// Click the left mouse button while holding shift.
    fn shift_click(&mut self) -> Result<(), String>;

    /// Select all text in the focused field.
    fn select_all(&mut self) -> Result<(), String>;

    /// Type text.
    fn type_text(&mut self, text: &str) -> Result<(), String>;

    /// Press the return key.
    fn press_key_return(&mut self) -> Result<(), String>;
}

/// Log line of a mouse move.
pub open spec fn move_line(x: i32, y: i32) -> Seq<char> {
    "MOVE("@ + signed_decimal(x as int) + ", "@ + signed_decimal(y as int) + seq![')']
}

/// Log line of typed text.
pub open spec fn type_line(text: Seq<char>) -> Seq<char> {
    "TYPE("@ + text + seq![')']
}

/// The log grew by exactly one line, `line`.
pub open spec fn logged(before: Seq<String>, after: Seq<String>, line: Seq<char>) -> bool {
    &&& after.len() == before.len() + 1
    &&& after.take(before.len() as int) == before
    &&& after.last()@ == line
}

/// A driver that records each action as a line of text instead of performing it.
pub struct DryRunInput {
    pub log: Vec<String>,
}

impl DryRunInput {
    pub fn new() -> (d: Self)
        ensures
            d.log@.len() == 0,
    {
        DryRunInput { log: Vec::new() }
    }

    fn record(&mut self, line: String)
        ensures
            final(self).log@ == old(self).log@.push(line),
    {
        self.log.push(line);
    }
}

impl Default for DryRunInput {
    fn default() -> (d: Self)
        ensures
            d.log@.len() == 0,
    {
        DryRunInput::new()
    }
}

proof fn lemma_push_logged(before: Seq<String>, line: String)
    ensures
        logged(before, before.push(line), line@),
{
    assert(before.push(line).take(before.len() as int) =~= before);
}

impl InputDriver for DryRunInput {
    /// Records `MOVE(x, y)`.
    fn move_to(&mut self, x: i32, y: i32) -> (r: Result<(), String>)
        ensures
            r is Ok,
            logged(old(self).log@, final(self).log@, move_line(x, y)),
    {
        let mut line = String::from_str("MOVE(");
        push_signed(&mut line, x);
        line.append(", ");
        push_signed(&mut line, y);
        push_char(&mut line, ')');
        assert(line@ =~= move_line(x, y));
        let ghost before = self.log@;
        self.record(line);
        proof {
            lemma_push_logged(before, line);
        }
        Ok(())
    }

    /// Records `CLICK`.
    fn click(&mut self) -> (r: Result<(), String>)
        ensures
            r is Ok,
            logged(old(self).log@, final(self).log@, "CLICK"@),
    {
        let line = String::from_str("CLICK");
        let ghost before = self.log@;
        self.record(line);
        proof {
            lemma_push_logged(before, line);
        }
        Ok(())
    }

    /// Records `SHIFT_CLICK`.
    fn shift_click(&mut self) -> (r: Result<(), String>)
        ensures
            r is Ok,
            logged(old(self).log@, final(self).log@, "SHIFT_CLICK"@),
    {
        let line = String::from_str("SHIFT_CLICK");
        let ghost before = self.log@;
        self.record(line);
        proof {
            lemma_push_logged(before, line);
        }
        Ok(())
    }

    /// Records `SELECT_ALL`.
    fn select_all(&mut self) -> (r: Result<(), String>)
        ensures
            r is Ok,
            logged(old(self).log@, final(self).log@, "SELECT_ALL"@),
    {
        let line = String::from_str("SELECT_ALL");
        let ghost before = self.log@;
        self.record(line);
        proof {
            lemma_push_logged(before, line);
        }
        Ok(())
    }

    /// Records `TYPE(text)`.
    fn type_text(&mut self, text: &str) -> (r: Result<(), String>)
        ensures
            r is Ok,
            logged(old(self).log@, final(self).log@, type_line(text@)),
    {
        let mut line = String::from_str("TYPE(");
        line.append(text);
        push_char(&mut line, ')');
        assert(line@ =~= type_line(text@));
        let ghost before = self.log@;
        self.record(line);
        proof {
            lemma_push_logged(before, line);
        }
        Ok(())
    }

    /// Records `ENTER`.
    fn press_key_return(&mut self) -> (r: Result<(), String>)
        ensures
            r is Ok,
            logged(old(self).log@, final(self).log@, "ENTER"@),
    {
        let line = String::from_str("ENTER");
        let ghost before = self.log@;
        self.record(line);
        proof {
            lemma_push_logged(before, line);
        }
        Ok(())
    }
}

} // verus!
