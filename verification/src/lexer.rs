//! The lexer: source bytes to tokens, with the place of every token.

use vstd::prelude::*;
use vstd::slice::slice_subrange;
use vstd::string::StringExecFns;
use vstd::utf8::{
    decode_utf8, encode_utf8, encode_utf8_decode_utf8, encode_utf8_valid_utf8, is_ascii_chars,
    is_ascii_chars_encode_utf8, valid_utf8,
};
use crate::number::{decimal_string, decimal_text};
use crate::text::text_is;

verus! {

/// A position in the source text: line and column, both starting at 1.
#[derive(Copy, Clone, Debug, Eq, Hash, Ord, PartialEq, PartialOrd, Default, Structural)]
pub struct Loc {
    line: usize,
    col: usize,
}

/// Whether a byte is ASCII whitespace: space, tab, line feed, form feed or
/// carriage return.
pub open spec fn is_space(b: u8) -> bool {
    b == 0x20 || b == 0x09 || b == 0x0a || b == 0x0c || b == 0x0d
}

/// Whether a byte is an ASCII letter.
pub open spec fn is_letter(b: u8) -> bool {
    (0x61 <= b <= 0x7a) || (0x41 <= b <= 0x5a)
}

/// Whether a byte is an ASCII digit.
pub open spec fn is_digit(b: u8) -> bool {
    0x30 <= b <= 0x39
}

/// Whether a byte, read as a character, is a control character.
pub open spec fn is_control(b: u8) -> bool {
    b < 0x20 || (0x7f <= b <= 0x9f)
}

/// The line and column after a byte that stands at line and column `at`.
///
/// A line feed starts the next line; a tab moves the column to the next
/// multiple of 8; other control bytes do not move; any other byte moves the
/// column by one.
pub open spec fn loc_step(at: (nat, nat), b: u8) -> (nat, nat) {
    if b == 0x0a {
        (at.0 + 1, 1nat)
    } else if b == 0x09 {
        (at.0, (at.1 / 8) * 8 + 8)
    } else if is_control(b) {
        at
    } else {
        (at.0, at.1 + 1)
    }
}

/// The line and column of the byte at `pos` of `data`.
pub open spec fn loc_at(data: Seq<u8>, pos: nat) -> (nat, nat)
    decreases pos,
{
    if pos == 0 {
        (1nat, 1nat)
    } else {
        loc_step(loc_at(data, (pos - 1) as nat), data[pos - 1])
    }
}

/// Lines grow by at most one and columns by at most eight per byte.
pub proof fn lemma_loc_at_bound(data: Seq<u8>, pos: nat)
    ensures
        1 <= loc_at(data, pos).0 <= 1 + pos,
        1 <= loc_at(data, pos).1 <= 1 + 8 * pos,
    decreases pos,
{
    if pos > 0 {
        lemma_loc_at_bound(data, (pos - 1) as nat);
    }
}

/// A place as it is written after the name of a file: a colon and the
/// line, a colon and the column.
pub open spec fn place_text(place: (nat, nat)) -> Seq<char> {
    ":"@ + decimal_text(place.0) + ":"@ + decimal_text(place.1)
}

impl Loc {
    /// The location as it is written after the name of a file.
    pub fn to_text(&self) -> (text: String)
        ensures
            text@ == place_text(self.place()),
    {
        let mut text = String::from_str(":");
        let line = decimal_string(self.line as u64);
        text.append(line.as_str());
        text.append(":");
        let col = decimal_string(self.col as u64);
        text.append(col.as_str());
        text
    }

    /// The line, from 1.
    pub closed spec fn line_of(self) -> nat {
        self.line as nat
    }

    /// The column, from 1.
    pub closed spec fn col_of(self) -> nat {
        self.col as nat
    }

    /// The location with the given line and column.
    pub closed spec fn at(place: (nat, nat)) -> Loc {
        Loc { line: place.0 as usize, col: place.1 as usize }
    }

    /// The line and column as a pair.
    pub open spec fn place(self) -> (nat, nat) {
        (self.line_of(), self.col_of())
    }

    /// A location is the one at its line and column.
    pub proof fn lemma_at(self)
        ensures
            Loc::at(self.place()) == self,
    {
    }

    /// A location made of a line and a column that fit has that line and column.
    pub proof fn lemma_place(place: (nat, nat))
        requires
            place.0 <= usize::MAX,
            place.1 <= usize::MAX,
        ensures
            Loc::at(place).place() == place,
    {
    }

    pub fn new(line: usize, col: usize) -> (loc: Self)
        ensures
            loc.place() == (line as nat, col as nat),
    {
        Self { line, col }
    }

    pub fn line(&self) -> (line: usize)
        ensures
            line == self.line_of(),
    {
        self.line
    }

    pub fn col(&self) -> (col: usize)
        ensures
            col == self.col_of(),
    {
        self.col
    }

    /// The same line, one column on.
    pub fn next_column(&self) -> (loc: Self)
        requires
            self.col_of() < usize::MAX,
        ensures
            loc.place() == (self.line_of(), self.col_of() + 1),
    {
        Self { line: self.line, col: self.col + 1 }
    }

    /// The start of the next line.
    pub fn next_line(&self) -> (loc: Self)
        requires
            self.line_of() < usize::MAX,
        ensures
            loc.place() == (self.line_of() + 1, 1nat),
    {
        Self { line: self.line + 1, col: 1 }
    }

    /// The location after the byte `c` that stands at this location.
    pub fn next(&self, c: u8) -> (loc: Self)
        requires
            loc_step(self.place(), c).0 <= usize::MAX,
            loc_step(self.place(), c).1 <= usize::MAX,
        ensures
            loc.place() == loc_step(self.place(), c),
    {
        if c == 0x0a {
            self.next_line()
        } else if c == 0x09 {
            let ts: usize = 8;
            Self { line: self.line, col: (self.col / ts) * ts + ts }
        } else if c < 0x20 || (0x7f <= c && c <= 0x9f) {
            *self
        } else {
            self.next_column()
        }
    }
}

/// The kind of a token.
#[derive(Debug, Copy, Clone, Eq, PartialEq, Structural)]
pub enum TokenKind {
    EOF,
    Invalid,
    Whitespace,
    Comment,
    Integer,
    Keyword,
    Word,
    Intrinsic,
    OpenCurly,
    CloseCurly,
    String,
}

/// A token: its kind, its text and the place of its first byte.
#[derive(Debug, Clone, PartialEq, Eq)]
pub struct Token {
    pub loc: Loc,
    pub value: String,
    pub kind: TokenKind,
}

/// A token as a mathematical value.
pub ghost struct TokenView {
    pub kind: TokenKind,
    pub text: Seq<char>,
    pub loc: Loc,
}

impl View for Token {
    type V = TokenView;

    open spec fn view(&self) -> TokenView {
        TokenView { kind: self.kind, text: self.value@, loc: self.loc }
    }
}

impl Token {
    pub fn new(value: String, kind: TokenKind, loc: Loc) -> (token: Self)
        ensures
            token@ == (TokenView { kind: kind, text: value@, loc: loc }),
    {
        Self { loc, value, kind }
    }

    /// Whether the text of the token is `text`.
    pub fn is(&self, text: &str) -> (same: bool)
        ensures
            same == (self@.text == text@),
    {
        text_is(&self.value, text)
    }
}

/// The text that `String::from_utf8_lossy` makes of `bytes`.
pub uninterp spec fn lossy_text(bytes: Seq<u8>) -> Seq<char>;

/// Calls `String::from_utf8_lossy`: the text of `bytes` where they are valid
/// UTF-8; otherwise the text that the call makes of them, which holds a
/// replacement character for each invalid sequence.
#[verifier::external_body]
fn lossy_string(bytes: &[u8]) -> (text: String)
    ensures
        text@ == lossy_text(bytes@),
        valid_utf8(bytes@) ==> text@ == decode_utf8(bytes@),
{
    String::from_utf8_lossy(bytes).into_owned()
}

/// The text of the bytes of a token: their decoding where they are valid
/// UTF-8, and otherwise what `String::from_utf8_lossy` makes of them.
pub open spec fn token_text(bytes: Seq<u8>) -> Seq<char> {
    if valid_utf8(bytes) {
        decode_utf8(bytes)
    } else {
        lossy_text(bytes)
    }
}

/// The characters of bytes that are all ASCII.
pub open spec fn ascii_text(bytes: Seq<u8>) -> Seq<char> {
    Seq::new(bytes.len(), |i: int| bytes[i] as char)
}

/// The text of ASCII bytes is the bytes, each as a character.
pub proof fn lemma_ascii_token_text(bytes: Seq<u8>)
    requires
        forall|i: int| 0 <= i < bytes.len() ==> #[trigger] bytes[i] < 0x80,
    ensures
        valid_utf8(bytes),
        token_text(bytes) == ascii_text(bytes),
{
    let chars = ascii_text(bytes);
    assert(is_ascii_chars(chars)) by {
        assert forall|i: int| 0 <= i < chars.len() implies '\0' <= #[trigger] chars[i]
            <= '\u{7f}' by {
            assert(bytes[i] < 0x80);
        }
    }
    is_ascii_chars_encode_utf8(chars);
    assert(encode_utf8(chars) =~= bytes) by {
        assert forall|i: int| 0 <= i < bytes.len() implies encode_utf8(chars)[i] == bytes[i] by {
            assert(chars[i] as u8 == encode_utf8(chars)[i]);
            assert(bytes[i] < 0x80);
        }
    }
    encode_utf8_valid_utf8(chars);
    encode_utf8_decode_utf8(chars);
}

/// The text of the bytes of a token.
fn text_of(bytes: &[u8]) -> (text: String)
    ensures
        text@ == token_text(bytes@),
{
    lossy_string(bytes)
}

/// The kind of a token that starts with a letter.
pub open spec fn classify(text: Seq<char>) -> TokenKind {
    if text == "debug"@ || text == "if"@ || text == "else"@ || text == "while"@ || text == "fn"@
        || text == "let"@ || text == "const"@ || text == "alloc"@ {
        TokenKind::Keyword
    } else if text == "dup"@ || text == "drop"@ || text == "swap"@ || text == "over"@ || text
        == "rot"@ || text == "mod"@ {
        TokenKind::Intrinsic
    } else {
        TokenKind::Word
    }
}

/// The bytes that a run of a token goes on over.
#[derive(Debug, Clone, Copy)]
pub enum Run {
    /// Whitespace.
    Space,
    /// Anything but whitespace.
    Word,
    /// Digits.
    Digit,
    /// Anything but a line feed and a NUL byte.
    Comment,
}

/// Whether a run goes on over the byte `b`.
pub open spec fn continues(run: Run, b: u8) -> bool {
    match run {
        Run::Space => is_space(b),
        Run::Word => !is_space(b),
        Run::Digit => is_digit(b),
        Run::Comment => b != 0x0a && b != 0,
    }
}

/// Where the run that stands at `from` ends: the first position at or after
/// `from` that the run does not go on over, or the end of `data`.
pub open spec fn run_end(data: Seq<u8>, from: int, run: Run) -> int
    decreases data.len() - from,
{
    if from < 0 || from >= data.len() {
        data.len() as int
    } else if !continues(run, data[from]) {
        from
    } else {
        run_end(data, from + 1, run)
    }
}

/// The byte at `pos`, and 0 past the end.
pub open spec fn byte_at(data: Seq<u8>, pos: int) -> u8 {
    if 0 <= pos < data.len() {
        data[pos]
    } else {
        0
    }
}

/// The kind of the token that starts at `pos`, a position in `data`, and the
/// position after its last byte. The first rule that fits decides.
pub open spec fn scan(data: Seq<u8>, pos: int) -> (TokenKind, int) {
    let c = byte_at(data, pos);
    let d = byte_at(data, pos + 1);
    if is_space(c) {
        (TokenKind::Whitespace, run_end(data, pos + 1, Run::Space))
    } else if is_letter(c) {
        let end = run_end(data, pos + 1, Run::Word);
        (classify(token_text(data.subrange(pos, end))), end)
    } else if is_digit(c) {
        (TokenKind::Integer, run_end(data, pos + 1, Run::Digit))
    } else if c == 0x7b {
        (TokenKind::OpenCurly, pos + 1)
    } else if c == 0x7d {
        (TokenKind::CloseCurly, pos + 1)
    } else if c == 0x3a || c == 0x26 {
        (TokenKind::Keyword, pos + 1)
    } else if c == 0x2d {
        if d == 0x2d {
            (TokenKind::Comment, run_end(data, pos + 2, Run::Comment))
        } else if d == 0x3e {
            (TokenKind::Keyword, pos + 2)
        } else {
            (TokenKind::Intrinsic, pos + 1)
        }
    } else if c == 0x21 {
        if d == 0x3d {
            (TokenKind::Intrinsic, pos + 2)
        } else {
            (TokenKind::Intrinsic, pos + 1)
        }
    } else if c == 0x3d {
        if d == 0x3d {
            (TokenKind::Intrinsic, pos + 2)
        } else {
            (TokenKind::Keyword, pos + 1)
        }
    } else if c == 0x2b || c == 0x2a || c == 0x3e || c == 0x3c || c == 0x40 || c == 0x24 {
        (TokenKind::Intrinsic, pos + 1)
    } else {
        (TokenKind::Invalid, pos + 1)
    }
}

/// The token that starts at `pos`: the one that `scan` finds where `pos` lies
/// in `data`, and the end-of-file token past the end.
pub open spec fn token_at(data: Seq<u8>, pos: int) -> TokenView {
    if 0 <= pos < data.len() {
        TokenView {
            kind: scan(data, pos).0,
            text: token_text(data.subrange(pos, scan(data, pos).1)),
            loc: Loc::at(loc_at(data, pos as nat)),
        }
    } else {
        TokenView {
            kind: TokenKind::EOF,
            text: seq!['\0'],
            loc: Loc::at(loc_at(data, data.len())),
        }
    }
}

/// The position after the token that starts at `pos`.
pub open spec fn token_end(data: Seq<u8>, pos: int) -> int {
    if 0 <= pos < data.len() {
        scan(data, pos).1
    } else {
        pos
    }
}

/// A run ends at or after its start and in the data.
pub proof fn lemma_run_end_bounds(data: Seq<u8>, from: int, run: Run)
    requires
        0 <= from <= data.len(),
    ensures
        from <= run_end(data, from, run) <= data.len(),
    decreases data.len() - from,
{
    if from < data.len() && continues(run, data[from]) {
        lemma_run_end_bounds(data, from + 1, run);
    }
}

/// A token is not empty and ends in the data.
pub proof fn lemma_scan_bounds(data: Seq<u8>, pos: int)
    requires
        0 <= pos < data.len(),
    ensures
        pos < scan(data, pos).1 <= data.len(),
{
    lemma_run_end_bounds(data, pos + 1, Run::Space);
    lemma_run_end_bounds(data, pos + 1, Run::Word);
    lemma_run_end_bounds(data, pos + 1, Run::Digit);
    if pos + 2 <= data.len() {
        lemma_run_end_bounds(data, pos + 2, Run::Comment);
    }
}

fn is_space_byte(b: u8) -> (r: bool)
    ensures
        r == is_space(b),
{
    b == 0x20 || b == 0x09 || b == 0x0a || b == 0x0c || b == 0x0d
}

fn goes_on(run: Run, b: u8) -> (r: bool)
    ensures
        r == continues(run, b),
{
    match run {
        Run::Space => is_space_byte(b),
        Run::Word => !is_space_byte(b),
        Run::Digit => 0x30 <= b && b <= 0x39,
        Run::Comment => b != 0x0a && b != 0,
    }
}

/// The kind of a token that starts with a letter and has the text `text`.
pub fn kind_of_word(text: &String) -> (kind: TokenKind)
    ensures
        kind == classify(text@),
{
    if text_is(text, "debug") || text_is(text, "if") || text_is(text, "else") || text_is(
        text,
        "while",
    ) || text_is(text, "fn") || text_is(text, "let") || text_is(text, "const") || text_is(
        text,
        "alloc",
    ) {
        TokenKind::Keyword
    } else if text_is(text, "dup") || text_is(text, "drop") || text_is(text, "swap") || text_is(
        text,
        "over",
    ) || text_is(text, "rot") || text_is(text, "mod") {
        TokenKind::Intrinsic
    } else {
        TokenKind::Word
    }
}

/// A lexer over a buffer of source bytes. It hands out one token per call,
/// and the end-of-file token from the end of the buffer on.
#[derive(Debug)]
pub struct Lexer {
    data: Vec<u8>,
    pos: usize,
    max: usize,
    loc: Loc,
}

impl Lexer {
    /// The source bytes.
    pub closed spec fn source(&self) -> Seq<u8> {
        self.data@
    }

    /// The position of the next token.
    pub closed spec fn position(&self) -> nat {
        self.pos as nat
    }

    /// The position lies in the source, and the location is that of the
    /// position.
    pub closed spec fn wf(&self) -> bool {
        &&& self.max == self.data@.len()
        &&& self.pos <= self.max
        &&& 8 * self.max < usize::MAX
        &&& self.loc.place() == loc_at(self.data@, self.pos as nat)
    }

    /// The position of a lexer lies in its source.
    pub proof fn lemma_position(&self)
        requires
            self.wf(),
        ensures
            self.position() <= self.source().len(),
    {
    }

    /// A lexer at the start of `data`.
    pub fn new(data: Vec<u8>) -> (lexer: Self)
        requires
            8 * data@.len() < usize::MAX,
        ensures
            lexer.wf(),
            lexer.source() == data@,
            lexer.position() == 0,
    {
        let max = data.len();
        Self { data, pos: 0, max, loc: Loc::new(1, 1) }
    }

    fn curr_char(&self) -> (c: u8)
        requires
            self.wf(),
        ensures
            c == byte_at(self.source(), self.position() as int),
    {
        if self.pos < self.max {
            self.data[self.pos]
        } else {
            0
        }
    }

    fn peek_char(&self, offset: usize) -> (c: u8)
        requires
            self.wf(),
            offset <= 8,
        ensures
            c == byte_at(self.source(), self.position() + offset),
    {
        if self.pos + offset < self.max {
            self.data[self.pos + offset]
        } else {
            0
        }
    }

    fn advance_pos(&mut self)
        requires
            old(self).wf(),
        ensures
            final(self).wf(),
            final(self).source() == old(self).source(),
            final(self).position() == if old(self).position() < old(self).source().len() {
                old(self).position() + 1
            } else {
                old(self).position()
            },
    {
        if self.pos < self.max {
            proof {
                lemma_loc_at_bound(self.data@, self.pos as nat);
            }
            self.loc = self.loc.next(self.data[self.pos]);
            self.pos += 1;
        }
    }

    /// Moves to the end of the run that stands at the position.
    fn skip_run(&mut self, run: Run)
        requires
            old(self).wf(),
        ensures
            final(self).wf(),
            final(self).source() == old(self).source(),
            final(self).position() == run_end(
                old(self).source(),
                old(self).position() as int,
                run,
            ),
    {
        while self.pos < self.max && goes_on(run, self.data[self.pos])
            invariant
                self.wf(),
                self.data@ == old(self).data@,
                run_end(self.data@, old(self).pos as int, run) == run_end(
                    self.data@,
                    self.pos as int,
                    run,
                ),
            decreases self.max - self.pos,
        {
            self.advance_pos();
        }
    }

    fn make_token(&self, start: usize, kind: TokenKind, start_loc: Loc) -> (token: Token)
        requires
            self.wf(),
            start <= self.position(),
        ensures
            token@ == (TokenView {
                kind: kind,
                text: token_text(self.source().subrange(start as int, self.position() as int)),
                loc: start_loc,
            }),
    {
        let value = text_of(slice_subrange(self.data.as_slice(), start, self.pos));
        Token::new(value, kind, start_loc)
    }

    fn make_token_advance(&mut self, start: usize, kind: TokenKind) -> (token: Token)
        requires
            old(self).wf(),
            start == old(self).position(),
            start < old(self).source().len(),
        ensures
            final(self).wf(),
            final(self).source() == old(self).source(),
            final(self).position() == start + 1,
            token@ == (TokenView {
                kind: kind,
                text: token_text(old(self).source().subrange(start as int, start + 1)),
                loc: Loc::at(loc_at(old(self).source(), start as nat)),
            }),
    {
        let start_loc = self.loc;
        proof {
            start_loc.lemma_at();
        }
        self.advance_pos();
        self.make_token(start, kind, start_loc)
    }

    /// A token of two bytes.
    fn make_token_advance2(&mut self, start: usize, kind: TokenKind) -> (token: Token)
        requires
            old(self).wf(),
            start == old(self).position(),
            start + 1 < old(self).source().len(),
        ensures
            final(self).wf(),
            final(self).source() == old(self).source(),
            final(self).position() == start + 2,
            token@ == (TokenView {
                kind: kind,
                text: token_text(old(self).source().subrange(start as int, start + 2)),
                loc: Loc::at(loc_at(old(self).source(), start as nat)),
            }),
    {
        let start_loc = self.loc;
        proof {
            start_loc.lemma_at();
        }
        self.advance_pos();
        self.advance_pos();
        self.make_token(start, kind, start_loc)
    }

    /// The next token. From the end of the source on, this is the
    /// end-of-file token, and the lexer stays where it is.
    pub fn next_token(&mut self) -> (token: Token)
        requires
            old(self).wf(),
        ensures
            final(self).wf(),
            final(self).source() == old(self).source(),
            token@ == token_at(old(self).source(), old(self).position() as int),
            final(self).position() == token_end(old(self).source(), old(self).position() as int),
    {
        let start = self.pos;
        let start_loc = self.loc;
        proof {
            start_loc.lemma_at();
        }
        if self.pos >= self.max {
            proof {
                reveal_strlit("\0");
                assert("\0"@ =~= seq!['\0']);
            }
            return Token::new(String::from_str("\0"), TokenKind::EOF, start_loc);
        }
        let c = self.curr_char();
        if is_space_byte(c) {
            self.whitespace(start)
        } else if (0x61 <= c && c <= 0x7a) || (0x41 <= c && c <= 0x5a) {
            self.identfier(start)
        } else if 0x30 <= c && c <= 0x39 {
            self.number(start)
        } else if c == 0x7b {
            self.make_token_advance(start, TokenKind::OpenCurly)
        } else if c == 0x7d {
            self.make_token_advance(start, TokenKind::CloseCurly)
        } else if c == 0x3a || c == 0x26 {
            self.make_token_advance(start, TokenKind::Keyword)
        } else if c == 0x2d {
            if self.peek_char(1) == 0x2d {
                self.comment(start)
            } else if self.peek_char(1) == 0x3e {
                self.make_token_advance2(start, TokenKind::Keyword)
            } else {
                self.make_token_advance(start, TokenKind::Intrinsic)
            }
        } else if c == 0x21 {
            if self.peek_char(1) == 0x3d {
                self.make_token_advance2(start, TokenKind::Intrinsic)
            } else {
                self.make_token_advance(start, TokenKind::Intrinsic)
            }
        } else if c == 0x3d {
            if self.peek_char(1) == 0x3d {
                self.make_token_advance2(start, TokenKind::Intrinsic)
            } else {
                self.make_token_advance(start, TokenKind::Keyword)
            }
        } else if c == 0x2b || c == 0x2a || c == 0x3e || c == 0x3c || c == 0x40 || c == 0x24 {
            self.make_token_advance(start, TokenKind::Intrinsic)
        } else {
            self.make_token_advance(start, TokenKind::Invalid)
        }
    }

    /// A token that starts with a letter and runs up to whitespace.
    fn identfier(&mut self, start: usize) -> (token: Token)
        requires
            old(self).wf(),
            start == old(self).position(),
            start < old(self).source().len(),
        ensures
            final(self).wf(),
            final(self).source() == old(self).source(),
            final(self).position() == run_end(old(self).source(), start + 1, Run::Word),
            token@ == (TokenView {
                kind: classify(
                    token_text(
                        old(self).source().subrange(start as int, final(self).position() as int),
                    ),
                ),
                text: token_text(
                    old(self).source().subrange(start as int, final(self).position() as int),
                ),
                loc: Loc::at(loc_at(old(self).source(), start as nat)),
            }),
    {
        let start_loc = self.loc;
        proof {
            start_loc.lemma_at();
            lemma_run_end_bounds(self.data@, start + 1, Run::Word);
        }
        self.advance_pos();
        self.skip_run(Run::Word);
        let value = text_of(slice_subrange(self.data.as_slice(), start, self.pos));
        let kind = kind_of_word(&value);
        Token::new(value, kind, start_loc)
    }

    /// A run of digits.
    fn number(&mut self, start: usize) -> (token: Token)
        requires
            old(self).wf(),
            start == old(self).position(),
            start < old(self).source().len(),
        ensures
            final(self).wf(),
            final(self).source() == old(self).source(),
            final(self).position() == run_end(old(self).source(), start + 1, Run::Digit),
            token@ == (TokenView {
                kind: TokenKind::Integer,
                text: token_text(
                    old(self).source().subrange(start as int, final(self).position() as int),
                ),
                loc: Loc::at(loc_at(old(self).source(), start as nat)),
            }),
    {
        let start_loc = self.loc;
        proof {
            start_loc.lemma_at();
            lemma_run_end_bounds(self.data@, start + 1, Run::Digit);
        }
        self.advance_pos();
        self.skip_run(Run::Digit);
        self.make_token(start, TokenKind::Integer, start_loc)
    }

    /// A run of whitespace.
    fn whitespace(&mut self, start: usize) -> (token: Token)
        requires
            old(self).wf(),
            start == old(self).position(),
            start < old(self).source().len(),
        ensures
            final(self).wf(),
            final(self).source() == old(self).source(),
            final(self).position() == run_end(old(self).source(), start + 1, Run::Space),
            token@ == (TokenView {
                kind: TokenKind::Whitespace,
                text: token_text(
                    old(self).source().subrange(start as int, final(self).position() as int),
                ),
                loc: Loc::at(loc_at(old(self).source(), start as nat)),
            }),
    {
        let start_loc = self.loc;
        proof {
            start_loc.lemma_at();
            lemma_run_end_bounds(self.data@, start + 1, Run::Space);
        }
        self.advance_pos();
        self.skip_run(Run::Space);
        self.make_token(start, TokenKind::Whitespace, start_loc)
    }

    /// A comment: two hyphens and what follows up to a line feed or a NUL byte.
    fn comment(&mut self, start: usize) -> (token: Token)
        requires
            old(self).wf(),
            start == old(self).position(),
            start + 1 < old(self).source().len(),
        ensures
            final(self).wf(),
            final(self).source() == old(self).source(),
            final(self).position() == run_end(old(self).source(), start + 2, Run::Comment),
            token@ == (TokenView {
                kind: TokenKind::Comment,
                text: token_text(
                    old(self).source().subrange(start as int, final(self).position() as int),
                ),
                loc: Loc::at(loc_at(old(self).source(), start as nat)),
            }),
    {
        let start_loc = self.loc;
        proof {
            start_loc.lemma_at();
            lemma_run_end_bounds(self.data@, start + 2, Run::Comment);
        }
        self.advance_pos();
        self.advance_pos();
        self.skip_run(Run::Comment);
        self.make_token(start, TokenKind::Comment, start_loc)
    }
}

} // verus!
