//! Reading characters from bytes, with the line and the column of each.
use vstd::prelude::*;
use crate::tina::errors::{ParserError, ParserErrorView};

verus! {

/// A place in a text.
#[derive(Copy, Clone, Debug, Eq, PartialEq, Structural)]
pub struct Position {
    /// The line, counted from one.
    pub line: usize,
    /// The column, counted from one.
    pub column: usize,
}

/// Reads the characters of a text that is given as bytes.
pub struct Reader<'a> {
    /// The bytes of the text.
    bytes: &'a [u8],
    /// How many bytes were read.
    offset: usize,
    /// Where the character that was read last stands.
    pub current_position: Position,
    /// Where the character that is read next stands.
    pub next_position: Position,
}

/// Where a reader stands in its text.
pub struct ReaderView {
    /// The bytes of the text.
    pub bytes: Seq<u8>,
    /// How many bytes were read.
    pub offset: nat,
    /// Where the character that was read last stands.
    pub current_position: Position,
    /// Where the character that is read next stands.
    pub next_position: Position,
}

/// `char::from_u32`: the character with the code `code`, if `code` is the code of a
/// character.
#[verifier::external_body]
fn char_from_u32(code: u32) -> (c: Option<char>)
    ensures
        c == scalar(code),
{
    char::from_u32(code)
}

/// The character with the code `code`: every number up to `0x10FFFF` that is no surrogate
/// is the code of a character.
pub open spec fn scalar(code: u32) -> Option<char> {
    if code <= 0xD7FF || (0xE000 <= code && code <= 0x10FFFF) {
        Some(code as char)
    } else {
        None
    }
}

/// The byte at `i`, or zero behind the end of the text.
pub open spec fn byte_at(bytes: Seq<u8>, i: int) -> u8 {
    if 0 <= i < bytes.len() {
        bytes[i]
    } else {
        0
    }
}

/// How many bytes the character takes whose first byte is `first`; zero if no character
/// begins with `first`.
pub open spec fn width(first: u8) -> nat {
    if first <= 0x80 {
        1
    } else if (first & 0xE0) == 0xC0 {
        2
    } else if (first & 0xF0) == 0xE0 {
        3
    } else if (first & 0xF8) == 0xF0 {
        4
    } else {
        0
    }
}

/// The code that the bytes at `i` stand for. Of the first byte the bits behind its
/// prefix count, of each further byte the lower six.
pub open spec fn code_at(bytes: Seq<u8>, i: int) -> u32 {
    let b0 = byte_at(bytes, i) as u32;
    let b1 = byte_at(bytes, i + 1) as u32;
    let b2 = byte_at(bytes, i + 2) as u32;
    let b3 = byte_at(bytes, i + 3) as u32;
    if width(byte_at(bytes, i)) == 2 {
        ((b0 & 0x1F) << 6) | (b1 & 0x3F)
    } else if width(byte_at(bytes, i)) == 3 {
        ((b0 & 0x0F) << 12) | ((b1 & 0x3F) << 6) | (b2 & 0x3F)
    } else if width(byte_at(bytes, i)) == 4 {
        ((b0 & 0x07) << 18) | ((b1 & 0x3F) << 12) | ((b2 & 0x3F) << 6) | (b3 & 0x3F)
    } else {
        b0
    }
}

/// The character that begins at `i`; behind the end of the text it is the character zero.
pub open spec fn char_at(bytes: Seq<u8>, i: int) -> Option<char> {
    if width(byte_at(bytes, i)) == 0 {
        None
    } else {
        scalar(code_at(bytes, i))
    }
}

/// The place behind the character `ch` that stands at `next`.
pub open spec fn position_after(next: Position, ch: char) -> Position {
    if ch == '\n' {
        Position { line: (next.line + 1) as usize, column: 1 }
    } else {
        Position { line: next.line, column: (next.column + 1) as usize }
    }
}

impl ReaderView {
    /// The reader stands in its text, and its lines and columns cannot run over.
    pub open spec fn wf(self) -> bool {
        &&& self.offset <= self.bytes.len()
        &&& self.bytes.len() < usize::MAX
        &&& self.next_position.line <= self.offset + 1
        &&& self.next_position.column <= self.offset + 1
    }

    /// No byte is left.
    pub open spec fn at_end(self) -> bool {
        self.offset >= self.bytes.len()
    }

    /// The character that `peek` gives: `None` where the bytes are no character.
    pub open spec fn peeked(self) -> Option<char> {
        char_at(self.bytes, self.offset as int)
    }

    /// The reader after the character that `peek` gives was read. At the end of the text
    /// the reader stays where it is.
    pub open spec fn advanced(self) -> ReaderView {
        if self.at_end() || self.peeked() is None {
            self
        } else {
            let n = width(byte_at(self.bytes, self.offset as int));
            ReaderView {
                bytes: self.bytes,
                offset: if self.offset + n <= self.bytes.len() {
                    self.offset + n
                } else {
                    self.bytes.len()
                },
                current_position: self.next_position,
                next_position: position_after(self.next_position, self.peeked()->0),
            }
        }
    }
}

impl<'a> View for Reader<'a> {
    type V = ReaderView;

    closed spec fn view(&self) -> ReaderView {
        ReaderView {
            bytes: self.bytes@,
            offset: self.offset as nat,
            current_position: self.current_position,
            next_position: self.next_position,
        }
    }
}

impl<'a> Reader<'a> {
    /// A reader at the start of the text `bytes`.
    pub fn new(bytes: &'a [u8]) -> (r: Self)
        requires
            bytes@.len() < usize::MAX,
        ensures
            r@.wf(),
            r@ == (ReaderView {
                bytes: bytes@,
                offset: 0,
                current_position: Position { line: 1, column: 0 },
                next_position: Position { line: 1, column: 1 },
            }),
    {
        Self {
            bytes,
            offset: 0,
            current_position: Position { line: 1, column: 0 },
            next_position: Position { line: 1, column: 1 },
        }
    }

    /// The byte at `i`, or zero behind the end of the text.
    fn byte(&self, i: usize) -> (b: u8)
        ensures
            b == byte_at(self.bytes@, i as int),
    {
        if i < self.bytes.len() {
            self.bytes[i]
        } else {
            0
        }
    }

    /// The byte that stands `k` bytes behind where the reader stands.
    fn ahead(&self, k: usize) -> (b: u8)
        requires
            k <= 3,
            self@.wf(),
        ensures
            b == byte_at(self.bytes@, self.offset + k),
    {
        if k <= self.bytes.len() && self.offset <= self.bytes.len() - k {
            self.byte(self.offset + k)
        } else {
            0
        }
    }

    /// How many bytes were read.
    pub fn offset(&self) -> (n: usize)
        ensures
            n == self@.offset,
    {
        self.offset
    }

    /// Where the character that is read next stands.
    pub fn next_position(&self) -> (p: Position)
        ensures
            p == self@.next_position,
    {
        self.next_position
    }

    /// Where the character that was read last stands.
    pub fn current_position(&self) -> (p: Position)
        ensures
            p == self@.current_position,
    {
        self.current_position
    }

    /// Whether no byte is left.
    pub fn at_end(&self) -> (b: bool)
        ensures
            b == self@.at_end(),
    {
        self.offset >= self.bytes.len()
    }

    /// The next character, which stays to be read.
    ///
    /// Behind the end of the text the next character is the character zero. Bytes that
    /// are no character give `Utf8Error`.
    pub fn peek(&self) -> (r: Result<char, ParserError>)
        requires
            self@.wf(),
        ensures
            match r {
                Ok(c) => self@.peeked() == Some(c),
                Err(e) => self@.peeked() is None && e@ == ParserErrorView::Utf8Error(
                    self@.current_position,
                ),
            },
    {
        let c = self.ahead(0);
        let decoded = if c <= 0b1000_0000 {
            char_from_u32(c as u32)
        } else if (c & 0b1110_0000) == 0b1100_0000 {
            char_from_u32(((c as u32 & 0b0001_1111) << 6) | (self.ahead(1) as u32 & 0b0011_1111))
        } else if (c & 0b1111_0000) == 0b1110_0000 {
            char_from_u32(
                ((c as u32 & 0b0000_1111) << 12) | ((self.ahead(1) as u32 & 0b0011_1111) << 6) | (
                self.ahead(2) as u32 & 0b0011_1111),
            )
        } else if (c & 0b1111_1000) == 0b1111_0000 {
            char_from_u32(
                ((c as u32 & 0b0000_0111) << 18) | ((self.ahead(1) as u32 & 0b0011_1111) << 12) | ((
                self.ahead(2) as u32 & 0b0011_1111) << 6) | (self.ahead(3) as u32 & 0b0011_1111),
            )
        } else {
            None
        };
        match decoded {
            Some(ch) => Ok(ch),
            None => Err(ParserError::Utf8Error(self.current_position)),
        }
    }

    /// Reads the next character.
    pub fn read(&mut self) -> (r: Result<char, ParserError>)
        requires
            old(self)@.wf(),
        ensures
            final(self)@.wf(),
            final(self)@ == old(self)@.advanced(),
            match r {
                Ok(c) => old(self)@.peeked() == Some(c),
                Err(e) => old(self)@.peeked() is None && e@ == ParserErrorView::Utf8Error(
                    old(self)@.current_position,
                ),
            },
    {
        let ch = self.peek()?;
        if self.offset < self.bytes.len() {
            let first = self.bytes[self.offset];
            let n: usize = if first <= 0b1000_0000 {
                1
            } else if (first & 0b1110_0000) == 0b1100_0000 {
                2
            } else if (first & 0b1111_0000) == 0b1110_0000 {
                3
            } else {
                4
            };
            if self.bytes.len() - self.offset >= n {
                self.offset = self.offset + n;
            } else {
                self.offset = self.bytes.len();
            }
            self.current_position = self.next_position;
            if ch == '\n' {
                self.next_position.line += 1;
                self.next_position.column = 0;
            }
            self.next_position.column += 1;
        }
        Ok(ch)
    }
}

} // verus!
