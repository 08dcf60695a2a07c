//! Cutting a text into tokens.
use vstd::prelude::*;
use crate::text::string_from_chars;
use crate::timed::time_range::Bound;
use crate::tina::errors::{ParserError, ParserErrorView};
use crate::tina::reader::{Position, Reader, ReaderView};
use crate::tina::token::{Kind, KindView, Token, TokenView};

verus! {

/// What a step of the lexer gives: a value and the reader behind it, or an error.
pub type Lexed<T> = Result<(T, ReaderView), ParserErrorView>;

/// A blank between tokens.
pub open spec fn is_blank(c: char) -> bool {
    c == ' ' || c == '\t' || c == '\r'
}

/// A character of a plain name: a letter, a digit, an underscore or an apostrophe.
pub open spec fn is_ident_char(c: char) -> bool {
    ('a' <= c && c <= 'z') || ('A' <= c && c <= 'Z') || ('0' <= c && c <= '9') || c == '_' || c
        == '\''
}

/// A decimal digit.
pub open spec fn is_digit(c: char) -> bool {
    '0' <= c && c <= '9'
}

/// The classes of characters that the lexer reads in one run.
#[derive(Clone, Copy, PartialEq, Eq, Structural)]
pub enum Class {
    /// The characters of a plain name.
    Name,
    /// The decimal digits.
    Digits,
    /// The characters of a comment: all but the end of the line.
    Comment,
}

/// Whether `c` belongs to the class.
pub open spec fn in_class(class: Class, c: char) -> bool {
    match class {
        Class::Name => is_ident_char(c),
        Class::Digits => is_digit(c),
        Class::Comment => c != '\n',
    }
}

/// The error for bytes that are no character.
pub open spec fn utf8_error(r: ReaderView) -> ParserErrorView {
    ParserErrorView::Utf8Error(r.current_position)
}

/// The error for a character that cannot stand where the reader has just read.
pub open spec fn invalid_char(r: ReaderView, expected: Seq<char>) -> ParserErrorView {
    ParserErrorView::InvalidChar(r.current_position, expected)
}

/// The reader behind the blanks that stand before it.
pub open spec fn skip_blanks(r: ReaderView) -> Result<ReaderView, ParserErrorView>
    decreases r.bytes.len() - r.offset,
{
    match r.peeked() {
        None => Err(utf8_error(r)),
        Some(c) => if is_blank(c) && !r.at_end() {
            skip_blanks(r.advanced())
        } else {
            Ok(r)
        },
    }
}

/// The longest run of characters of `class` that stands before the reader, put behind
/// `acc`.
pub open spec fn scan(r: ReaderView, class: Class, acc: Seq<char>) -> Lexed<Seq<char>>
    decreases r.bytes.len() - r.offset,
{
    match r.peeked() {
        None => Err(utf8_error(r)),
        Some(c) => if in_class(class, c) && !r.at_end() {
            scan(r.advanced(), class, acc.push(c))
        } else {
            Ok((acc, r))
        },
    }
}

/// The number that the decimal digits `digits` write.
pub open spec fn value_of(digits: Seq<char>) -> nat
    decreases digits.len(),
{
    if digits.len() == 0 {
        0
    } else {
        value_of(digits.drop_last()) * 10 + (digits.last() as nat - 48) as nat
    }
}

/// What a misplaced number is answered with.
pub open spec fn integer_expected() -> Seq<char> {
    "expected an integer"@
}

/// A number written in decimal digits. There must be a digit, and the number must be one
/// of the machine's numbers.
pub open spec fn small_int(r: ReaderView) -> Lexed<usize> {
    match scan(r, Class::Digits, Seq::empty()) {
        Err(e) => Err(e),
        Ok((digits, r2)) => if digits.len() == 0 || value_of(digits) > usize::MAX {
            Err(invalid_char(r2, integer_expected()))
        } else {
            Ok((value_of(digits) as usize, r2))
        },
    }
}

/// A number with its unit: it may stand in round brackets, and a `K` or an `M` behind it
/// multiplies it by a thousand or a million.
pub open spec fn int_with_unit(r: ReaderView) -> Lexed<usize> {
    match r.peeked() {
        None => Err(utf8_error(r)),
        Some(c) => {
            let complex = c == '(';
            let r1 = if complex {
                r.advanced()
            } else {
                r
            };
            match small_int(r1) {
                Err(e) => Err(e),
                Ok((v, r2)) => match r2.peeked() {
                    None => Err(utf8_error(r2)),
                    Some(u) => {
                        let factor: nat = if u == 'K' {
                            1000
                        } else if u == 'M' {
                            1000000
                        } else {
                            1
                        };
                        let r3 = if u == 'K' || u == 'M' {
                            r2.advanced()
                        } else {
                            r2
                        };
                        if v * factor > usize::MAX {
                            Err(invalid_char(r3, integer_expected()))
                        } else {
                            match r3.peeked() {
                                None => Err(utf8_error(r3)),
                                Some(z) => Ok(
                                    (
                                        (v * factor) as usize,
                                        if complex && z == ')' {
                                            r3.advanced()
                                        } else {
                                            r3
                                        },
                                    ),
                                ),
                            }
                        }
                    },
                },
            }
        },
    }
}

/// The end of a time interval, behind the comma.
pub open spec fn interval_end(r: ReaderView) -> Lexed<Bound> {
    match r.peeked() {
        None => Err(utf8_error(r)),
        Some(c) => if c == 'w' {
            let r1 = r.advanced();
            match r1.peeked() {
                None => Err(utf8_error(r1)),
                Some(d) => if d == '[' {
                    Ok((Bound::Infinity, r1.advanced()))
                } else {
                    Err(invalid_char(r1.advanced(), "["@))
                },
            }
        } else {
            match int_with_unit(r) {
                Err(e) => Err(e),
                Ok((end, r1)) => match r1.peeked() {
                    None => Err(utf8_error(r1)),
                    Some(d) => if d == ']' {
                        Ok((Bound::Closed(end), r1.advanced()))
                    } else if d == '[' {
                        Ok((Bound::Open(end), r1.advanced()))
                    } else {
                        Err(invalid_char(r1.advanced(), "[, ]"@))
                    },
                },
            }
        },
    }
}

/// A time interval: a bracket, a number, a comma, and a number and a bracket or `w[`.
pub open spec fn time_interval(r: ReaderView) -> Lexed<KindView> {
    match r.peeked() {
        None => Err(utf8_error(r)),
        Some(c) => {
            let r1 = r.advanced();
            if c != '[' && c != ']' {
                Err(invalid_char(r1, "[, ]"@))
            } else {
                match int_with_unit(r1) {
                    Err(e) => Err(e),
                    Ok((start, r2)) => match r2.peeked() {
                        None => Err(utf8_error(r2)),
                        Some(comma) => if comma != ',' {
                            Err(invalid_char(r2.advanced(), ","@))
                        } else {
                            match interval_end(r2.advanced()) {
                                Err(e) => Err(e),
                                Ok((end, r3)) => Ok(
                                    (
                                        KindView::TimeInterval(
                                            if c == '[' {
                                                Bound::Closed(start)
                                            } else {
                                                Bound::Open(start)
                                            },
                                            end,
                                        ),
                                        r3,
                                    ),
                                ),
                            }
                        },
                    },
                }
            }
        },
    }
}

/// The lower-case letter of an upper-case letter; any other character is left as it is.
pub open spec fn lower(c: char) -> char {
    if 'A' <= c && c <= 'Z' {
        ((c as u32) + 32) as char
    } else {
        c
    }
}

/// `s` is the word `word`, written in upper or lower case.
pub open spec fn is_word(s: Seq<char>, word: Seq<char>) -> bool {
    s.len() == word.len() && forall|i: int| 0 <= i < s.len() ==> lower(#[trigger] s[i]) == word[i]
}

/// What a plain name is: a keyword, or a name.
pub open spec fn keyword_or_name(s: Seq<char>) -> KindView {
    if is_word(s, seq!['t', 'r']) {
        KindView::Transition
    } else if is_word(s, seq!['n', 'e', 't']) {
        KindView::Net
    } else if is_word(s, seq!['l', 'b']) {
        KindView::Label
    } else if is_word(s, seq!['n', 't']) || is_word(s, seq!['n', 'a']) {
        KindView::Note
    } else if is_word(s, seq!['p', 'l']) {
        KindView::Place
    } else if is_word(s, seq!['p', 'r']) {
        KindView::Priority
    } else {
        KindView::Identifier(s)
    }
}

/// A plain name or a keyword: the character before the reader, whatever it is, and the
/// characters of names that follow it.
pub open spec fn identifier(r: ReaderView) -> Lexed<KindView> {
    match r.peeked() {
        None => Err(utf8_error(r)),
        Some(c) => match scan(r.advanced(), Class::Name, seq![c]) {
            Err(e) => Err(e),
            Ok((s, r2)) => Ok((keyword_or_name(s), r2)),
        },
    }
}

/// A comment: the characters behind `#` up to the end of the line.
pub open spec fn comment(r: ReaderView) -> Lexed<KindView> {
    match r.peeked() {
        None => Err(utf8_error(r)),
        Some(c) => match scan(r.advanced(), Class::Comment, Seq::empty()) {
            Err(e) => Err(e),
            Ok((s, r2)) => Ok((KindView::Comment(s), r2)),
        },
    }
}

/// What a stray brace is answered with.
pub open spec fn escape_expected() -> Seq<char> {
    "\\, { and } must be preceded by \\"@
}

/// The rest of a name in braces, behind the character `last`, put behind `acc`. A
/// backslash makes the brace or the backslash behind it a character of the name; before
/// any other character it is dropped.
pub open spec fn braced_tail(r: ReaderView, last: char, acc: Seq<char>) -> Lexed<Seq<char>>
    decreases r.bytes.len() - r.offset,
{
    match r.peeked() {
        None => Err(utf8_error(r)),
        Some(c) => if c == '}' && last != '\\' {
            Ok((acc, r.advanced()))
        } else if r.at_end() {
            Err(invalid_char(r, escape_expected()))
        } else if last == '\\' && (c == '\\' || c == '{' || c == '}') {
            braced_tail(r.advanced(), ' ', acc.push(c))
        } else if c == '{' || c == '}' {
            Err(invalid_char(r, escape_expected()))
        } else if c == '\\' {
            braced_tail(r.advanced(), c, acc)
        } else {
            braced_tail(r.advanced(), c, acc.push(c))
        },
    }
}

/// A name in braces.
pub open spec fn braced(r: ReaderView) -> Lexed<KindView> {
    match braced_tail(r.advanced(), ' ', Seq::empty()) {
        Err(e) => Err(e),
        Ok((s, r2)) => Ok((KindView::Identifier(s), r2)),
    }
}

/// A number may follow a token of this kind.
pub open spec fn takes_number(k: KindView) -> bool {
    k is Identifier || k is NormalArc || k is TestArc || k is InhibitorArc || k is StopWatchArc
        || k is StopWatchInhibitorArc
}

/// The token that begins with the character `c` before the reader, behind a token of the
/// kind `current`.
pub open spec fn token_at(r: ReaderView, c: char, current: KindView) -> Lexed<KindView> {
    if c == '\n' {
        Ok((KindView::NewLine, r.advanced()))
    } else if c == '-' {
        let r1 = r.advanced();
        match r1.peeked() {
            None => Err(utf8_error(r1)),
            Some(d) => if d == '>' {
                Ok((KindView::Arrow, r1.advanced()))
            } else {
                Err(invalid_char(r1.advanced(), "expected >"@))
            },
        }
    } else if c == '[' || c == ']' {
        time_interval(r)
    } else if c == ':' {
        Ok((KindView::InlineLabel, r.advanced()))
    } else if c == '*' {
        Ok((KindView::NormalArc, r.advanced()))
    } else if c == '?' || c == '!' {
        let r1 = r.advanced();
        match r1.peeked() {
            None => Err(utf8_error(r1)),
            Some(d) => if d == '-' {
                Ok(
                    (
                        if c == '?' {
                            KindView::InhibitorArc
                        } else {
                            KindView::StopWatchInhibitorArc
                        },
                        r1.advanced(),
                    ),
                )
            } else {
                Ok(
                    (
                        if c == '?' {
                            KindView::TestArc
                        } else {
                            KindView::StopWatchArc
                        },
                        r1,
                    ),
                )
            },
        }
    } else if c == '#' {
        comment(r)
    } else if c == '(' {
        match int_with_unit(r) {
            Err(e) => Err(e),
            Ok((v, r1)) => Ok((KindView::Int(v), r1)),
        }
    } else if is_digit(c) && takes_number(current) {
        match int_with_unit(r) {
            Err(e) => Err(e),
            Ok((v, r1)) => Ok((KindView::Int(v), r1)),
        }
    } else if c == '{' {
        braced(r)
    } else if c == '\0' {
        Ok((KindView::EndOfFile, r))
    } else if c == '>' {
        Ok((KindView::GreaterThan, r.advanced()))
    } else if c == '<' {
        Ok((KindView::LessThan, r.advanced()))
    } else {
        identifier(r)
    }
}

/// The next token of the text, behind a token of the kind `current`.
#[verifier::opaque]
pub open spec fn next_token(r: ReaderView, current: KindView) -> Lexed<TokenView> {
    match skip_blanks(r) {
        Err(e) => Err(e),
        Ok(r1) => match r1.peeked() {
            None => Err(utf8_error(r1)),
            Some(c) => match token_at(r1, c, current) {
                Err(e) => Err(e),
                Ok((kind, r2)) => Ok((TokenView { kind, position: r1.next_position }, r2)),
            },
        },
    }
}

/// `got` is what the step `want` gives: the value, with the reader `after` behind it, or
/// the error.
pub open spec fn yields<T: View>(got: Result<T, ParserError>, after: ReaderView, want: Lexed<T::V>) -> bool {
    match want {
        Ok((v, r)) => got is Ok && got->Ok_0@ == v && after == r,
        Err(e) => got is Err && got->Err_0@ == e,
    }
}

/// `got` is what the step `want` gives, for a value that is its own view.
pub open spec fn yields_plain<T>(got: Result<T, ParserError>, after: ReaderView, want: Lexed<T>) -> bool {
    match want {
        Ok((v, r)) => got is Ok && got->Ok_0 == v && after == r,
        Err(e) => got is Err && got->Err_0@ == e,
    }
}

/// Advancing a well-formed reader leaves it well formed; it moves on unless it stands at
/// the end of the text or before bytes that are no character.
pub proof fn lemma_advanced(r: ReaderView)
    requires
        r.wf(),
    ensures
        r.advanced().wf(),
        r.advanced().bytes == r.bytes,
        !r.at_end() && r.peeked() is Some ==> r.advanced().offset > r.offset,
{
}


/// Cuts a text into tokens. One token can be looked at before it is read.
pub struct Lexer<'a> {
    /// The reader of the text.
    reader: Reader<'a>,
    /// The token that was read last.
    pub current_token: Token,
    /// The token that was looked at and not yet read.
    next_token: Option<Token>,
    /// How many bytes stand before the token that was looked at.
    token_start: usize,
}

/// Where a lexer stands.
pub struct LexerView {
    /// The reader, behind the token that was looked at if there is one.
    pub reader: ReaderView,
    /// The token that was read last.
    pub current: TokenView,
    /// The token that was looked at and not yet read.
    pub next: Option<TokenView>,
    /// How many bytes stand before the tokens that are still to be read.
    pub consumed: nat,
}

/// What a token step gives: a token and the lexer behind it, or an error.
pub type Step = Result<(TokenView, LexerView), ParserErrorView>;

impl LexerView {
    /// The reader is well formed, and stands behind the token that was looked at or, if
    /// there is none, before the tokens that are still to be read.
    pub open spec fn wf(self) -> bool {
        &&& self.reader.wf()
        &&& self.consumed <= self.reader.offset
        &&& self.next is None ==> self.consumed == self.reader.offset
        &&& self.next matches Some(t) ==> t.kind is EndOfFile || self.consumed < self.reader.offset
    }

    /// How many bytes are left for the tokens that are still to be read.
    pub open spec fn left(self) -> nat {
        (self.reader.bytes.len() - self.consumed) as nat
    }

    /// Looking at the next token.
    pub open spec fn peek(self) -> Step {
        match self.next {
            Some(t) => Ok((t, self)),
            None => match next_token(self.reader, self.current.kind) {
                Err(e) => Err(e),
                Ok((t, r)) => Ok((t, LexerView { reader: r, next: Some(t), ..self })),
            },
        }
    }

    /// Reading the next token.
    pub open spec fn read(self) -> Step {
        match self.peek() {
            Err(e) => Err(e),
            Ok((t, l)) => Ok(
                (t, LexerView { current: t, next: None, consumed: l.reader.offset, ..l }),
            ),
        }
    }
}

/// Whether `c` is a blank.
fn blank(c: char) -> (b: bool)
    ensures
        b == is_blank(c),
{
    c == ' ' || c == '\t' || c == '\r'
}

/// Whether `c` belongs to the class.
pub(crate) fn belongs(class: Class, c: char) -> (b: bool)
    ensures
        b == in_class(class, c),
{
    match class {
        Class::Name => ('a' <= c && c <= 'z') || ('A' <= c && c <= 'Z') || ('0' <= c && c <= '9')
            || c == '_' || c == '\'',
        Class::Digits => '0' <= c && c <= '9',
        Class::Comment => c != '\n',
    }
}

/// Whether the characters are the two letters, in upper or lower case.
pub(crate) fn word2(s: &Vec<char>, a: char, b: char) -> (r: bool)
    requires
        'a' <= a <= 'z',
        'a' <= b <= 'z',
    ensures
        r == is_word(s@, seq![a, b]),
{
    if s.len() != 2 {
        return false;
    }
    let r = lower_case(s[0]) == a && lower_case(s[1]) == b;
    proof {
        if r {
            assert forall|i: int| 0 <= i < s@.len() implies lower(#[trigger] s@[i]) == seq![a, b][i] by {}
        } else {
            if lower(s@[0]) != a {
                assert(seq![a, b][0] == a);
            } else {
                assert(seq![a, b][1] == b);
            }
        }
    }
    r
}

/// Whether the characters are the three letters, in upper or lower case.
pub(crate) fn word3(s: &Vec<char>, a: char, b: char, c: char) -> (r: bool)
    ensures
        r == is_word(s@, seq![a, b, c]),
{
    if s.len() != 3 {
        return false;
    }
    let r = lower_case(s[0]) == a && lower_case(s[1]) == b && lower_case(s[2]) == c;
    proof {
        if r {
            assert forall|i: int| 0 <= i < s@.len() implies lower(#[trigger] s@[i]) == seq![
                a,
                b,
                c,
            ][i] by {}
        } else {
            if lower(s@[0]) != a {
                assert(seq![a, b, c][0] == a);
            } else if lower(s@[1]) != b {
                assert(seq![a, b, c][1] == b);
            } else {
                assert(seq![a, b, c][2] == c);
            }
        }
    }
    r
}

/// The lower-case letter of an upper-case letter; any other character as it is.
fn lower_case(c: char) -> (l: char)
    ensures
        l == lower(c),
{
    if 'A' <= c && c <= 'Z' {
        let code = c as u32 + 32;
        assert(code <= 0xD7FF) by {
            assert(c as u32 <= 90);
        }
        let l = code as u8 as char;
        l
    } else {
        c
    }
}

impl<'a> View for Lexer<'a> {
    type V = LexerView;

    closed spec fn view(&self) -> LexerView {
        LexerView {
            reader: self.reader@,
            current: self.current_token@,
            next: match self.next_token {
                Some(t) => Some(t@),
                None => None,
            },
            consumed: if self.next_token is Some {
                self.token_start as nat
            } else {
                self.reader@.offset
            },
        }
    }
}

/// The lexer at the start of the text `bytes`.
pub open spec fn start(bytes: Seq<u8>) -> LexerView {
    LexerView {
        reader: ReaderView {
            bytes,
            offset: 0,
            current_position: Position { line: 1, column: 0 },
            next_position: Position { line: 1, column: 1 },
        },
        current: TokenView { kind: KindView::EndOfFile, position: Position { line: 1, column: 0 } },
        next: None,
        consumed: 0,
    }
}

impl<'a> Lexer<'a> {
    /// A lexer at the start of the text `bytes`.
    pub fn new(bytes: &'a [u8]) -> (l: Self)
        requires
            bytes@.len() < usize::MAX,
        ensures
            l@.wf(),
            l@ == (LexerView {
                reader: ReaderView {
                    bytes: bytes@,
                    offset: 0,
                    current_position: Position { line: 1, column: 0 },
                    next_position: Position { line: 1, column: 1 },
                },
                current: TokenView {
                    kind: KindView::EndOfFile,
                    position: Position { line: 1, column: 0 },
                },
                next: None,
                consumed: 0,
            }),
    {
        Self {
            reader: Reader::new(bytes),
            current_token: Token {
                kind: Kind::EndOfFile,
                position: Position { line: 1, column: 0 },
            },
            next_token: None,
            token_start: 0,
        }
    }

    /// Reads the blanks that stand before the reader.
    fn skip(&mut self) -> (r: Result<(), ParserError>)
        requires
            old(self)@.wf(),
            old(self)@.next is None,
        ensures
            final(self)@.wf(),
            final(self)@.current == old(self)@.current,
            final(self)@.next is None,
            match skip_blanks(old(self)@.reader) {
                Ok(after) => r is Ok && final(self)@.reader == after,
                Err(e) => r is Err && r->Err_0@ == e,
            },
    {
        loop
            invariant
                self@.wf(),
                self@.current == old(self)@.current,
                self@.next is None,
                skip_blanks(self@.reader) == skip_blanks(old(self)@.reader),
            decreases self@.reader.bytes.len() - self@.reader.offset,
        {
            proof {
                lemma_advanced(self@.reader);
            }
            let c = self.reader.peek()?;
            if blank(c) && !self.reader.at_end() {
                let _ = self.reader.read();
            } else {
                return Ok(());
            }
        }
    }

    /// Reads the longest run of characters of `class` into `buf`.
    fn run(&mut self, class: Class, buf: &mut Vec<char>) -> (r: Result<(), ParserError>)
        requires
            old(self)@.wf(),
            old(self)@.next is None,
        ensures
            final(self)@.wf(),
            final(self)@.current == old(self)@.current,
            final(self)@.next is None,
            match scan(old(self)@.reader, class, old(buf)@) {
                Ok((s, after)) => r is Ok && final(self)@.reader == after && final(buf)@ == s,
                Err(e) => r is Err && r->Err_0@ == e,
            },
    {
        loop
            invariant
                self@.wf(),
                self@.current == old(self)@.current,
                self@.next is None,
                scan(self@.reader, class, buf@) == scan(old(self)@.reader, class, old(buf)@),
            decreases self@.reader.bytes.len() - self@.reader.offset,
        {
            proof {
                lemma_advanced(self@.reader);
            }
            let c = self.reader.peek()?;
            if belongs(class, c) && !self.reader.at_end() {
                let _ = self.reader.read();
                buf.push(c);
            } else {
                return Ok(());
            }
        }
    }

    /// Reads a number written in decimal digits.
    fn parse_small_int(&mut self) -> (r: Result<usize, ParserError>)
        requires
            old(self)@.wf(),
            old(self)@.next is None,
        ensures
            final(self)@.wf(),
            final(self)@.current == old(self)@.current,
            final(self)@.next is None,
            yields_plain(r, final(self)@.reader, small_int(old(self)@.reader)),
    {
        let mut digits: Vec<char> = Vec::new();
        self.run(Class::Digits, &mut digits)?;
        let ghost all = digits@;
        proof {
            lemma_scan_class(old(self)@.reader, Class::Digits, Seq::empty());
        }
        if digits.len() == 0 {
            return Err(
                ParserError::InvalidChar(
                    self.reader.current_position(),
                    "expected an integer".to_owned(),
                ),
            );
        }
        let mut value: usize = 0;
        let mut i: usize = 0;
        while i < digits.len()
            invariant
                i <= digits@.len(),
                digits@ == all,
                forall|j: int| 0 <= j < all.len() ==> is_digit(#[trigger] all[j]),
                value == value_of(all.take(i as int)),
                self@.current == old(self)@.current,
                self@.next is None,
                self@.wf(),
                scan(old(self)@.reader, Class::Digits, Seq::empty()) == Ok::<
                    (Seq<char>, ReaderView),
                    ParserErrorView,
                >((all, self@.reader)),
            decreases digits@.len() - i,
        {
            let c = digits[i];
            assert(is_digit(all[i as int]));
            let d = (c as u32 - 48) as usize;
            proof {
                assert(all.take(i + 1).drop_last() =~= all.take(i as int));
                assert(all.take(i + 1).last() == c);
                assert(value_of(all.take(i + 1)) == value * 10 + d);
            }
            if value > (usize::MAX - d) / 10 {
                proof {
                    lemma_value_of_prefix(all, i + 1);
                }
                return Err(
                    ParserError::InvalidChar(
                        self.reader.current_position(),
                        "expected an integer".to_owned(),
                    ),
                );
            }
            value = value * 10 + d;
            i += 1;
        }
        proof {
            assert(all.take(all.len() as int) =~= all);
        }
        Ok(value)
    }

    /// Reads a number with its unit.
    fn parse_int(&mut self) -> (r: Result<usize, ParserError>)
        requires
            old(self)@.wf(),
            old(self)@.next is None,
        ensures
            final(self)@.wf(),
            final(self)@.current == old(self)@.current,
            final(self)@.next is None,
            yields_plain(r, final(self)@.reader, int_with_unit(old(self)@.reader)),
    {
        proof {
            lemma_advanced(self@.reader);
        }
        let complex = if self.reader.peek()? == '(' {
            let _ = self.reader.read();
            true
        } else {
            false
        };
        let v = self.parse_small_int()?;
        proof {
            lemma_advanced(self@.reader);
        }
        let unit = self.reader.peek()?;
        let factor: usize = if unit == 'K' {
            let _ = self.reader.read();
            1_000
        } else if unit == 'M' {
            let _ = self.reader.read();
            1_000_000
        } else {
            1
        };
        if v > usize::MAX / factor {
            proof {
                assert(v * factor > usize::MAX) by (nonlinear_arith)
                    requires
                        v > usize::MAX / factor,
                        factor > 0,
                ;
            }
            return Err(
                ParserError::InvalidChar(
                    self.reader.current_position(),
                    "expected an integer".to_owned(),
                ),
            );
        }
        proof {
            assert(v * factor <= usize::MAX) by (nonlinear_arith)
                requires
                    v <= usize::MAX / factor,
                    factor > 0,
            ;
            lemma_advanced(self@.reader);
        }
        let r = v * factor;
        let z = self.reader.peek()?;
        if complex && z == ')' {
            let _ = self.reader.read();
        }
        Ok(r)
    }

    /// Reads the end of a time interval.
    fn parse_interval_end(&mut self) -> (r: Result<Bound, ParserError>)
        requires
            old(self)@.wf(),
            old(self)@.next is None,
        ensures
            final(self)@.wf(),
            final(self)@.current == old(self)@.current,
            final(self)@.next is None,
            yields_plain(r, final(self)@.reader, interval_end(old(self)@.reader)),
    {
        proof {
            lemma_advanced(self@.reader);
        }
        if self.reader.peek()? == 'w' {
            let _ = self.reader.read();
            proof {
                lemma_advanced(self@.reader);
            }
            if self.reader.read()? != '[' {
                return Err(
                    ParserError::InvalidChar(self.reader.current_position(), "[".to_owned()),
                );
            }
            Ok(Bound::Infinity)
        } else {
            let end = self.parse_int()?;
            proof {
                lemma_advanced(self@.reader);
            }
            match self.reader.read()? {
                ']' => Ok(Bound::Closed(end)),
                '[' => Ok(Bound::Open(end)),
                _ => Err(ParserError::InvalidChar(self.reader.current_position(), "[, ]".to_owned())),
            }
        }
    }

    /// Reads a time interval.
    pub fn parse_time_interval(&mut self) -> (r: Result<Kind, ParserError>)
        requires
            old(self)@.wf(),
            old(self)@.next is None,
        ensures
            final(self)@.wf(),
            final(self)@.current == old(self)@.current,
            final(self)@.next is None,
            yields(r, final(self)@.reader, time_interval(old(self)@.reader)),
    {
        proof {
            lemma_advanced(self@.reader);
        }
        let c = self.reader.read()?;
        if c != '[' && c != ']' {
            return Err(ParserError::InvalidChar(self.reader.current_position(), "[, ]".to_owned()));
        }
        let start = self.parse_int()?;
        let open = if c == '[' {
            Bound::Closed(start)
        } else {
            Bound::Open(start)
        };
        proof {
            lemma_advanced(self@.reader);
        }
        if self.reader.read()? != ',' {
            return Err(ParserError::InvalidChar(self.reader.current_position(), ",".to_owned()));
        }
        let close = self.parse_interval_end()?;
        Ok(Kind::TimeInterval(open, close))
    }

    /// Reads a plain name or a keyword.
    fn parse_identifer(&mut self) -> (r: Result<Kind, ParserError>)
        requires
            old(self)@.wf(),
            old(self)@.next is None,
        ensures
            final(self)@.wf(),
            final(self)@.current == old(self)@.current,
            final(self)@.next is None,
            yields(r, final(self)@.reader, identifier(old(self)@.reader)),
    {
        proof {
            lemma_advanced(self@.reader);
        }
        let mut buf: Vec<char> = Vec::new();
        let first = self.reader.read()?;
        buf.push(first);
        proof {
            assert(buf@ =~= seq![first]);
        }
        self.run(Class::Name, &mut buf)?;
        Ok(
            if word2(&buf, 't', 'r') {
                Kind::Transition
            } else if word3(&buf, 'n', 'e', 't') {
                Kind::Net
            } else if word2(&buf, 'l', 'b') {
                Kind::Label
            } else if word2(&buf, 'n', 't') || word2(&buf, 'n', 'a') {
                Kind::Note
            } else if word2(&buf, 'p', 'l') {
                Kind::Place
            } else if word2(&buf, 'p', 'r') {
                Kind::Priority
            } else {
                Kind::Identifier(string_from_chars(&buf))
            },
        )
    }

    /// Reads a comment.
    fn parse_comment(&mut self) -> (r: Result<Kind, ParserError>)
        requires
            old(self)@.wf(),
            old(self)@.next is None,
        ensures
            final(self)@.wf(),
            final(self)@.current == old(self)@.current,
            final(self)@.next is None,
            yields(r, final(self)@.reader, comment(old(self)@.reader)),
    {
        proof {
            lemma_advanced(self@.reader);
        }
        let mut buf: Vec<char> = Vec::new();
        let _ = self.reader.read()?;
        self.run(Class::Comment, &mut buf)?;
        Ok(Kind::Comment(string_from_chars(&buf)))
    }

    /// Reads a name in braces.
    fn parse_escaped_identifer(&mut self) -> (r: Result<Kind, ParserError>)
        requires
            old(self)@.wf(),
            old(self)@.next is None,
            old(self)@.reader.peeked() is Some,
        ensures
            final(self)@.wf(),
            final(self)@.current == old(self)@.current,
            final(self)@.next is None,
            yields(r, final(self)@.reader, braced(old(self)@.reader)),
    {
        proof {
            lemma_advanced(self@.reader);
        }
        let mut buf: Vec<char> = Vec::new();
        let mut last = ' ';
        let _ = self.reader.read();
        loop
            invariant
                self@.wf(),
                self@.current == old(self)@.current,
                self@.next is None,
                braced_tail(self@.reader, last, buf@) == braced_tail(
                    old(self)@.reader.advanced(),
                    ' ',
                    Seq::empty(),
                ),
            decreases self@.reader.bytes.len() - self@.reader.offset,
        {
            proof {
                lemma_advanced(self@.reader);
            }
            let c = self.reader.peek()?;
            if c == '}' && last != '\\' {
                let _ = self.reader.read();
                return Ok(Kind::Identifier(string_from_chars(&buf)));
            }
            if self.reader.at_end() {
                return Err(
                    ParserError::InvalidChar(
                        self.reader.current_position(),
                        "\\, { and } must be preceded by \\".to_owned(),
                    ),
                );
            }
            let escaped = last == '\\' && (c == '\\' || c == '{' || c == '}');
            if escaped {
                buf.push(c);
            } else if c == '{' || c == '}' {
                return Err(
                    ParserError::InvalidChar(
                        self.reader.current_position(),
                        "\\, { and } must be preceded by \\".to_owned(),
                    ),
                );
            } else if c == '\\' {
            } else {
                buf.push(c);
            }
            let _ = self.reader.read();
            last = if escaped {
                ' '
            } else {
                c
            };
        }
    }

    /// Reads the token that begins with the character `c` before the reader.
    fn parse_token_at(&mut self, c: char) -> (r: Result<Kind, ParserError>)
        requires
            old(self)@.wf(),
            old(self)@.next is None,
            old(self)@.reader.peeked() == Some(c),
        ensures
            final(self)@.wf(),
            final(self)@.current == old(self)@.current,
            final(self)@.next is None,
            yields(
                r,
                final(self)@.reader,
                token_at(old(self)@.reader, c, old(self)@.current.kind),
            ),
    {
        proof {
            lemma_advanced(self@.reader);
        }
        if c == '\n' {
            let _ = self.reader.read();
            Ok(Kind::NewLine)
        } else if c == '-' {
            let _ = self.reader.read();
            proof {
                lemma_advanced(self@.reader);
            }
            if self.reader.read()? == '>' {
                Ok(Kind::Arrow)
            } else {
                Err(ParserError::InvalidChar(self.reader.current_position(), "expected >".to_owned()))
            }
        } else if c == '[' || c == ']' {
            self.parse_time_interval()
        } else if c == ':' {
            let _ = self.reader.read();
            Ok(Kind::InlineLabel)
        } else if c == '*' {
            let _ = self.reader.read();
            Ok(Kind::NormalArc)
        } else if c == '?' || c == '!' {
            let _ = self.reader.read();
            proof {
                lemma_advanced(self@.reader);
            }
            if self.reader.peek()? == '-' {
                let _ = self.reader.read();
                Ok(
                    if c == '?' {
                        Kind::InhibitorArc
                    } else {
                        Kind::StopWatchInhibitorArc
                    },
                )
            } else {
                Ok(
                    if c == '?' {
                        Kind::TestArc
                    } else {
                        Kind::StopWatchArc
                    },
                )
            }
        } else if c == '#' {
            self.parse_comment()
        } else if c == '(' {
            Ok(Kind::Int(self.parse_int()?))
        } else if ('0' <= c && c <= '9') && self.number_may_follow() {
            Ok(Kind::Int(self.parse_int()?))
        } else if c == '{' {
            self.parse_escaped_identifer()
        } else if c == '\0' {
            Ok(Kind::EndOfFile)
        } else if c == '>' {
            let _ = self.reader.read();
            Ok(Kind::GreaterThan)
        } else if c == '<' {
            let _ = self.reader.read();
            Ok(Kind::LessThan)
        } else {
            self.parse_identifer()
        }
    }

    /// Whether a number may follow the token that was read last.
    fn number_may_follow(&self) -> (b: bool)
        ensures
            b == takes_number(self@.current.kind),
    {
        match self.current_token.kind {
            Kind::Identifier(_) => true,
            Kind::NormalArc => true,
            Kind::TestArc => true,
            Kind::InhibitorArc => true,
            Kind::StopWatchArc => true,
            Kind::StopWatchInhibitorArc => true,
            _ => false,
        }
    }

    /// Reads the next token from the text. The token that was read last decides whether
    /// digits are a number or a name.
    pub fn parse_next_token(&mut self) -> (r: Result<Token, ParserError>)
        requires
            old(self)@.wf(),
            old(self)@.next is None,
        ensures
            final(self)@.wf(),
            final(self)@.current == old(self)@.current,
            final(self)@.next is None,
            yields(
                r,
                final(self)@.reader,
                next_token(old(self)@.reader, old(self)@.current.kind),
            ),
    {
        proof {
            reveal(next_token);
        }
        self.skip()?;
        let position = self.reader.next_position();
        let c = self.reader.peek()?;
        let kind = self.parse_token_at(c)?;
        Ok(Token { position, kind })
    }

    /// A copy of the token that was read last.
    pub fn current(&self) -> (t: Token)
        ensures
            t@ == self@.current,
    {
        self.current_token.duplicate()
    }

    /// The next token, which stays to be read.
    pub fn peek(&mut self) -> (r: Result<Token, ParserError>)
        requires
            old(self)@.wf(),
        ensures
            final(self)@.wf(),
            match old(self)@.peek() {
                Ok((t, l)) => r is Ok && r->Ok_0@ == t && final(self)@ == l,
                Err(e) => r is Err && r->Err_0@ == e,
            },
    {
        if self.next_token.is_none() {
            let start = self.reader.offset();
            proof {
                lemma_next_token(self@.reader, self@.current.kind);
            }
            let t = self.parse_next_token()?;
            self.next_token = Some(t);
            self.token_start = start;
        }
        match &self.next_token {
            Some(t) => Ok(t.duplicate()),
            None => Ok(Token { kind: Kind::EndOfFile, position: self.reader.next_position() }),
        }
    }

    /// Reads the next token.
    pub fn read(&mut self) -> (r: Result<Token, ParserError>)
        requires
            old(self)@.wf(),
        ensures
            final(self)@.wf(),
            match old(self)@.read() {
                Ok((t, l)) => r is Ok && r->Ok_0@ == t && final(self)@ == l,
                Err(e) => r is Err && r->Err_0@ == e,
            },
    {
        let t = self.peek()?;
        self.current_token = t.duplicate();
        self.next_token = None;
        Ok(t)
    }
}

/// A step that succeeds leaves the reader well formed, in the same text, and not
/// before where it stood.
pub open spec fn moves_on<T>(r: ReaderView, step: Lexed<T>) -> bool {
    step matches Ok((_, r2)) ==> r2.wf() && r2.bytes == r.bytes && r2.offset >= r.offset
}

/// A step that succeeds leaves the reader behind where it stood.
pub open spec fn moves_ahead<T>(r: ReaderView, step: Lexed<T>) -> bool {
    step matches Ok((_, r2)) ==> r2.wf() && r2.bytes == r.bytes && r2.offset > r.offset
}

/// Skipping blanks moves the reader on.
pub proof fn lemma_skip_blanks(r: ReaderView)
    requires
        r.wf(),
    ensures
        skip_blanks(r) matches Ok(r2) ==> r2.wf() && r2.bytes == r.bytes && r2.offset >= r.offset,
    decreases r.bytes.len() - r.offset,
{
    lemma_advanced(r);
    match r.peeked() {
        None => {},
        Some(c) => {
            if is_blank(c) && !r.at_end() {
                lemma_skip_blanks(r.advanced());
            }
        },
    }
}

/// A scan moves the reader on, and ahead if a character of the class stands before it.
pub proof fn lemma_scan(r: ReaderView, class: Class, acc: Seq<char>)
    requires
        r.wf(),
    ensures
        moves_on(r, scan(r, class, acc)),
        r.peeked() matches Some(c) && in_class(class, c) && !r.at_end() ==> moves_ahead(
            r,
            scan(r, class, acc),
        ),
        scan(r, class, acc) matches Ok((s, _)) ==> s.len() >= acc.len() && (r.peeked() matches Some(
            c,
        ) && in_class(class, c) && !r.at_end() ==> s.len() > acc.len()),
    decreases r.bytes.len() - r.offset,
{
    lemma_advanced(r);
    match r.peeked() {
        None => {},
        Some(c) => {
            if in_class(class, c) && !r.at_end() {
                lemma_scan(r.advanced(), class, acc.push(c));
            }
        },
    }
}

/// The end of the text is no digit.
pub proof fn lemma_end_is_zero(r: ReaderView)
    requires
        r.wf(),
        r.at_end(),
    ensures
        r.peeked() == Some('\0'),
{
    assert(crate::tina::reader::byte_at(r.bytes, r.offset as int) == 0);
    assert(crate::tina::reader::width(0) == 1);
    assert(0u8 & 0xE0 == 0) by (bit_vector);
}

/// Reading a number moves the reader ahead.
pub proof fn lemma_small_int(r: ReaderView)
    requires
        r.wf(),
    ensures
        moves_ahead(r, small_int(r)),
{
    lemma_scan(r, Class::Digits, Seq::empty());
    if r.at_end() {
        lemma_end_is_zero(r);
    }
}

/// Reading a number with its unit moves the reader ahead.
pub proof fn lemma_int_with_unit(r: ReaderView)
    requires
        r.wf(),
    ensures
        moves_ahead(r, int_with_unit(r)),
{
    lemma_advanced(r);
    match r.peeked() {
        None => {},
        Some(c) => {
            let r1 = if c == '(' {
                r.advanced()
            } else {
                r
            };
            lemma_small_int(r1);
            match small_int(r1) {
                Err(e) => {},
                Ok((v, r2)) => {
                    lemma_advanced(r2);
                    let r3 = if r2.peeked() == Some('K') || r2.peeked() == Some('M') {
                        r2.advanced()
                    } else {
                        r2
                    };
                    lemma_advanced(r3);
                },
            }
        },
    }
}

/// Reading a time interval moves the reader ahead.
pub proof fn lemma_time_interval(r: ReaderView)
    requires
        r.wf(),
        !r.at_end(),
    ensures
        moves_ahead(r, time_interval(r)),
{
    lemma_advanced(r);
    match r.peeked() {
        None => {},
        Some(c) => {
            let r1 = r.advanced();
            lemma_int_with_unit(r1);
            match int_with_unit(r1) {
                Err(e) => {},
                Ok((start, r2)) => {
                    lemma_advanced(r2);
                    let r3 = r2.advanced();
                    lemma_advanced(r3);
                    match r3.peeked() {
                        None => {},
                        Some(d) => {
                            if d == 'w' {
                                lemma_advanced(r3.advanced());
                            } else {
                                lemma_int_with_unit(r3);
                                match int_with_unit(r3) {
                                    Err(e) => {},
                                    Ok((end, r4)) => {
                                        lemma_advanced(r4);
                                    },
                                }
                            }
                        },
                    }
                },
            }
        },
    }
}

/// Reading the rest of a name in braces moves the reader on.
pub proof fn lemma_braced_tail(r: ReaderView, last: char, acc: Seq<char>)
    requires
        r.wf(),
    ensures
        moves_on(r, braced_tail(r, last, acc)),
    decreases r.bytes.len() - r.offset,
{
    lemma_advanced(r);
    match r.peeked() {
        None => {},
        Some(c) => {
            if c == '}' && last != '\\' {
            } else if r.at_end() {
            } else if last == '\\' && (c == '\\' || c == '{' || c == '}') {
                lemma_braced_tail(r.advanced(), ' ', acc.push(c));
            } else if c == '{' || c == '}' {
            } else if c == '\\' {
                lemma_braced_tail(r.advanced(), c, acc);
            } else {
                lemma_braced_tail(r.advanced(), c, acc.push(c));
            }
        },
    }
}

/// Reading a token moves the reader on, and ahead unless the token is the end of the text.
pub proof fn lemma_token_at(r: ReaderView, c: char, current: KindView)
    requires
        r.wf(),
        r.peeked() == Some(c),
    ensures
        moves_on(r, token_at(r, c, current)),
        token_at(r, c, current) matches Ok((k, r2)) ==> k is EndOfFile || r2.offset > r.offset,
{
    lemma_advanced(r);
    if r.at_end() {
        lemma_end_is_zero(r);
    }
    let r1 = r.advanced();
    lemma_advanced(r1);
    if c == '[' || c == ']' {
        lemma_time_interval(r);
    } else if c == '#' {
        lemma_scan(r1, Class::Comment, Seq::empty());
    } else if c == '(' {
        lemma_int_with_unit(r);
    } else if is_digit(c) && takes_number(current) {
        lemma_int_with_unit(r);
    } else if c == '{' {
        lemma_braced_tail(r1, ' ', Seq::empty());
    } else {
        lemma_scan(r1, Class::Name, seq![c]);
    }
}

/// Reading the next token moves the reader on, and ahead unless the token is the end of
/// the text.
pub proof fn lemma_next_token(r: ReaderView, current: KindView)
    requires
        r.wf(),
    ensures
        moves_on(r, next_token(r, current)),
        next_token(r, current) matches Ok((t, r2)) ==> t.kind is EndOfFile || r2.offset > r.offset,
{
    reveal(next_token);
    lemma_skip_blanks(r);
    match skip_blanks(r) {
        Err(e) => {},
        Ok(r1) => {
            match r1.peeked() {
                None => {},
                Some(c) => {
                    lemma_token_at(r1, c, current);
                },
            }
        },
    }
}

impl LexerView {
    /// Looking at the next token leaves as many bytes for the tokens to come; after it
    /// the token is at hand, and reading it is what reading would have been.
    pub proof fn lemma_peek(self)
        requires
            self.wf(),
        ensures
            self.peek() matches Ok((t, l)) ==> l.wf() && l.left() == self.left() && l.reader.bytes
                == self.reader.bytes && l.next == Some(t) && l.current == self.current
                && l.read() == self.read() && l.peek() == self.peek(),
    {
        lemma_next_token(self.reader, self.current.kind);
    }

    /// Reading a token leaves fewer bytes for the tokens to come, unless the token is the
    /// end of the text.
    pub proof fn lemma_read(self)
        requires
            self.wf(),
        ensures
            self.read() matches Ok((t, l)) ==> l.wf() && l.left() <= self.left() && l.reader.bytes
                == self.reader.bytes && l.next is None && l.current == t && (t.kind is EndOfFile
                || l.left() < self.left()),
    {
        lemma_next_token(self.reader, self.current.kind);
    }
}

/// The characters that a scan adds belong to its class.
pub proof fn lemma_scan_class(r: ReaderView, class: Class, acc: Seq<char>)
    requires
        forall|j: int| 0 <= j < acc.len() ==> in_class(class, #[trigger] acc[j]),
    ensures
        scan(r, class, acc) matches Ok((s, _)) ==> forall|j: int|
            0 <= j < s.len() ==> in_class(class, #[trigger] s[j]),
    decreases r.bytes.len() - r.offset,
{
    match r.peeked() {
        None => {},
        Some(c) => {
            if in_class(class, c) && !r.at_end() {
                lemma_scan_class(r.advanced(), class, acc.push(c));
            }
        },
    }
}

/// The number that digits write is at least the number that the first of them write.
pub proof fn lemma_value_of_prefix(digits: Seq<char>, i: int)
    requires
        0 <= i <= digits.len(),
        forall|j: int| 0 <= j < digits.len() ==> is_digit(#[trigger] digits[j]),
    ensures
        value_of(digits.take(i)) <= value_of(digits),
    decreases digits.len(),
{
    if i == digits.len() {
        assert(digits.take(i) =~= digits);
    } else {
        lemma_value_of_prefix(digits.drop_last(), i);
        assert(digits.drop_last().take(i) =~= digits.take(i));
    }
}

} // verus!
