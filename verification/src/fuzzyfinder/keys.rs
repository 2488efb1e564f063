//! Decoding raw key codes, as curses reports them, into session events.
//!
//! Most keys stand for an event by themselves. The escape code is the
//! exception: it may be the escape key, or the first half of an
//! alt-combination, and only the code that follows tells which. The decoder
//! therefore has two modes, and the caller reads the key after an escape
//! without waiting: where none is pending it passes on `NO_KEY`.

use vstd::prelude::*;
use crate::fuzzyfinder::ui::Event;

verus! {

/// What a read gives when no key is there: none pending, or the input closed.
pub const NO_KEY: i32 = -1;

/// Line feed, one of the codes of the enter key.
pub const LINE_FEED: i32 = 10;

/// Carriage return, one of the codes of the enter key.
pub const CARRIAGE_RETURN: i32 = 13;

/// The escape key, also the prefix of an alt-combination.
pub const ESCAPE: i32 = 27;

/// The first printable code, the space.
pub const FIRST_PRINTABLE: i32 = 32;

/// The letter that moves the selection down when typed with alt.
pub const LETTER_J: i32 = 106;

/// The letter that moves the selection up when typed with alt.
pub const LETTER_K: i32 = 107;

/// The last printable code, the tilde.
pub const LAST_PRINTABLE: i32 = 126;

/// Delete, which terminals send for the backspace key.
pub const DELETE: i32 = 127;

/// The code curses gives the down-arrow key.
pub const CURSES_DOWN: i32 = 0x102;

/// The code curses gives the up-arrow key.
pub const CURSES_UP: i32 = 0x103;

/// The code curses gives the backspace key.
pub const CURSES_BACKSPACE: i32 = 0x107;

/// The code curses gives the enter key of the keypad.
pub const CURSES_ENTER: i32 = 0x157;

/// Reads `ncurses::KEY_DOWN`. The contract claims the value that the crate's
/// table of constants gives it, 0x102.
#[verifier::external_body]
fn key_down() -> (code: i32)
    ensures
        code == CURSES_DOWN,
{
    ncurses::KEY_DOWN
}

/// Reads `ncurses::KEY_UP`. The contract claims the value that the crate's
/// table of constants gives it, 0x103.
#[verifier::external_body]
fn key_up() -> (code: i32)
    ensures
        code == CURSES_UP,
{
    ncurses::KEY_UP
}

/// Reads `ncurses::KEY_BACKSPACE`. The contract claims the value that the crate's
/// table of constants gives it, 0x107.
#[verifier::external_body]
fn key_backspace() -> (code: i32)
    ensures
        code == CURSES_BACKSPACE,
{
    ncurses::KEY_BACKSPACE
}

/// Reads `ncurses::KEY_ENTER`. The contract claims the value that the crate's
/// table of constants gives it, 0x157.
#[verifier::external_body]
fn key_enter() -> (code: i32)
    ensures
        code == CURSES_ENTER,
{
    ncurses::KEY_ENTER
}

/// What the decoder expects next.
#[derive(Debug, Clone, Copy, PartialEq, Eq)]
pub enum KeyMode {
    /// Any key.
    Ground,
    /// The key that follows an escape.
    Escape,
}

/// The code stands for a character that can be typed into the query.
pub open spec fn printable(raw: int) -> bool {
    FIRST_PRINTABLE <= raw <= LAST_PRINTABLE
}

/// The mode after the key `raw` has been read in `mode`, and the event that
/// the key stands for, if it stands for one. A key that stands for nothing is
/// dropped.
pub open spec fn decode(mode: KeyMode, raw: int) -> (KeyMode, Option<Event>) {
    match mode {
        KeyMode::Ground => {
            if raw == CURSES_BACKSPACE || raw == DELETE {
                (KeyMode::Ground, Some(Event::Backspace))
            } else if raw == CURSES_ENTER || raw == CARRIAGE_RETURN || raw == LINE_FEED {
                (KeyMode::Ground, Some(Event::Confirm))
            } else if raw == CURSES_UP {
                (KeyMode::Ground, Some(Event::MoveSelectionUp))
            } else if raw == CURSES_DOWN {
                (KeyMode::Ground, Some(Event::MoveSelectionDown))
            } else if raw == ESCAPE {
                (KeyMode::Escape, None)
            } else if raw == NO_KEY {
                (KeyMode::Ground, Some(Event::Abort))
            } else if printable(raw) {
                (KeyMode::Ground, Some(Event::AppendChar(raw as char)))
            } else {
                (KeyMode::Ground, None)
            }
        },
        KeyMode::Escape => {
            if raw == LETTER_J {
                (KeyMode::Ground, Some(Event::MoveSelectionDown))
            } else if raw == LETTER_K {
                (KeyMode::Ground, Some(Event::MoveSelectionUp))
            } else if raw == NO_KEY {
                (KeyMode::Ground, Some(Event::Abort))
            } else {
                (KeyMode::Ground, None)
            }
        },
    }
}

/// Decodes one raw key code.
pub fn map_key(mode: KeyMode, raw: i32) -> (decoded: (KeyMode, Option<Event>))
    ensures
        decoded == decode(mode, raw as int),
{
    match mode {
        KeyMode::Ground => {
            if raw == key_backspace() || raw == DELETE {
                (KeyMode::Ground, Some(Event::Backspace))
            } else if raw == key_enter() || raw == CARRIAGE_RETURN || raw == LINE_FEED {
                (KeyMode::Ground, Some(Event::Confirm))
            } else if raw == key_up() {
                (KeyMode::Ground, Some(Event::MoveSelectionUp))
            } else if raw == key_down() {
                (KeyMode::Ground, Some(Event::MoveSelectionDown))
            } else if raw == ESCAPE {
                (KeyMode::Escape, None)
            } else if raw == NO_KEY {
                (KeyMode::Ground, Some(Event::Abort))
            } else if FIRST_PRINTABLE <= raw && raw <= LAST_PRINTABLE {
                let byte = raw as u8;
                (KeyMode::Ground, Some(Event::AppendChar(byte as char)))
            } else {
                (KeyMode::Ground, None)
            }
        },
        KeyMode::Escape => {
            if raw == LETTER_J {
                (KeyMode::Ground, Some(Event::MoveSelectionDown))
            } else if raw == LETTER_K {
                (KeyMode::Ground, Some(Event::MoveSelectionUp))
            } else if raw == NO_KEY {
                (KeyMode::Ground, Some(Event::Abort))
            } else {
                (KeyMode::Ground, None)
            }
        },
    }
}

} // verus!
