//! The terminal control sequences the editor emits.

use vstd::prelude::*;

verus! {

use vstd::string::StringSliceAdditionalSpecFns;

/// A terminal control sequence.
#[derive(Debug, Clone, Copy)]
pub enum AnsiCode {
    /// Clear entire screen
    ClearScreen,
    /// Move cursor to top-left corner (position 1,1)
    CursorHome,
    /// Clear from cursor position to the end of the current line
    ClearToEndOfLine,
    /// Clear from the beginning of current line to cursor position
    ClearToStartOfLine,
    /// Clear the entire current line
    ClearEntireLine,
    /// Clear from cursor position to the end of screen
    ClearToEndOfScreen,
    /// Clear from cursor position to the beginning of screen
    ClearToStartOfScreen,
    /// Move the cursor to the beginning of the current line (carriage return)
    CarriageReturn,
    CRLF,
    MoveCursorLeft,
    MoveCursorRight,
    BEL,
}

/// The characters of each control sequence.
pub open spec fn ansi_chars(code: AnsiCode) -> Seq<char> {
    match code {
        AnsiCode::ClearScreen => seq!['\u{1b}', '[', '2', 'J'],
        AnsiCode::CursorHome => seq!['\u{1b}', '[', 'H'],
        AnsiCode::ClearToEndOfLine => seq!['\u{1b}', '[', 'K'],
        AnsiCode::ClearToStartOfLine => seq!['\u{1b}', '[', '1', 'K'],
        AnsiCode::ClearEntireLine => seq!['\u{1b}', '[', '2', 'K'],
        AnsiCode::ClearToEndOfScreen => seq!['\u{1b}', '[', 'J'],
        AnsiCode::ClearToStartOfScreen => seq!['\u{1b}', '[', '1', 'J'],
        AnsiCode::CarriageReturn => seq!['\r'],
        AnsiCode::CRLF => seq!['\r', '\n'],
        AnsiCode::MoveCursorLeft => seq!['\u{1b}', '[', 'D'],
        AnsiCode::MoveCursorRight => seq!['\u{1b}', '[', 'C'],
        AnsiCode::BEL => seq!['\u{7}'],
    }
}

/// The bytes of each control sequence (every sequence is plain ASCII).
pub open spec fn ansi_bytes(code: AnsiCode) -> Seq<u8> {
    ansi_chars(code).map_values(|c: char| c as u8)
}

impl AnsiCode {
    /// The control sequence as a string.
    pub fn as_str(&self) -> (r: &'static str)
        ensures
            r@ == ansi_chars(*self),
    {
        match self {
            AnsiCode::ClearScreen => {
                let r = "\x1b[2J";
                proof {
                    reveal_strlit("\x1b[2J");
                    assert(r@ =~= ansi_chars(*self));
                }
                r
            },
            AnsiCode::CursorHome => {
                let r = "\x1b[H";
                proof {
                    reveal_strlit("\x1b[H");
                    assert(r@ =~= ansi_chars(*self));
                }
                r
            },
            AnsiCode::ClearToEndOfLine => {
                let r = "\x1b[K";
                proof {
                    reveal_strlit("\x1b[K");
                    assert(r@ =~= ansi_chars(*self));
                }
                r
            },
            AnsiCode::ClearToStartOfLine => {
                let r = "\x1b[1K";
                proof {
                    reveal_strlit("\x1b[1K");
                    assert(r@ =~= ansi_chars(*self));
                }
                r
            },
            AnsiCode::ClearEntireLine => {
                let r = "\x1b[2K";
                proof {
                    reveal_strlit("\x1b[2K");
                    assert(r@ =~= ansi_chars(*self));
                }
                r
            },
            AnsiCode::ClearToEndOfScreen => {
                let r = "\x1b[J";
                proof {
                    reveal_strlit("\x1b[J");
                    assert(r@ =~= ansi_chars(*self));
                }
                r
            },
            AnsiCode::ClearToStartOfScreen => {
                let r = "\x1b[1J";
                proof {
                    reveal_strlit("\x1b[1J");
                    assert(r@ =~= ansi_chars(*self));
                }
                r
            },
            AnsiCode::CarriageReturn => {
                let r = "\r";
                proof {
                    reveal_strlit("\r");
                    assert(r@ =~= ansi_chars(*self));
                }
                r
            },
            AnsiCode::CRLF => {
                let r = "\r\n";
                proof {
                    reveal_strlit("\r\n");
                    assert(r@ =~= ansi_chars(*self));
                }
                r
            },
            AnsiCode::MoveCursorLeft => {
                let r = "\x1b[D";
                proof {
                    reveal_strlit("\x1b[D");
                    assert(r@ =~= ansi_chars(*self));
                }
                r
            },
            AnsiCode::MoveCursorRight => {
                let r = "\x1b[C";
                proof {
                    reveal_strlit("\x1b[C");
                    assert(r@ =~= ansi_chars(*self));
                }
                r
            },
            AnsiCode::BEL => {
                let r = "\x07";
                proof {
                    reveal_strlit("\x07");
                    assert(r@ =~= ansi_chars(*self));
                }
                r
            },
        }
    }

    /// The control sequence as bytes.
    pub fn as_bytes(&self) -> (r: &'static [u8])
        ensures
            r@ == ansi_bytes(*self),
    {
        let s = self.as_str();
        let r = s.as_bytes();
        proof {
            broadcast use vstd::string::is_ascii_spec_bytes;

            assert(s.is_ascii()) by {
                assert(vstd::utf8::is_ascii_chars(s@)) by {
                    assert(forall|i: int|
                        0 <= i < ansi_chars(*self).len() ==> (ansi_chars(*self)[i] as u32) < 128);
                }
            }
            assert(r@ =~= ansi_bytes(*self));
        }
        r
    }
}

} // verus!
