//! The parser: tokens to a sequence of top-level operations, with constant
//! expressions folded at parse time.

use vstd::prelude::*;
use vstd::string::StringExecFns;
use crate::ast::{
    DataType, Op, Operation, lemma_no_defs_cons, names_view, no_defs, no_defs_all, top_level,
    view_all, well_formed,
};
use crate::lexer::{
    Lexer, Token, TokenKind, TokenView, lemma_scan_bounds, place_text, scan, token_at, token_end,
};
use crate::names::NameMap;
use crate::number::{decimal_up_to, parse_decimal};
use crate::text::text_is;

verus! {

/// What the parser was looking for when it gave up.
#[derive(Debug, Clone, Copy, PartialEq, Eq, Structural)]
pub enum ParseErrorKind {
    /// `fn` is not followed by a word.
    ExpectedFunctionName,
    /// A parameter list holds something other than words.
    ExpectedArgumentName,
    /// A type list holds something other than `ptr`, `int` and `bool`.
    ExpectedType,
    /// The source ends before the `:` of a parameter list or of a constant
    /// expression.
    ExpectedColon,
    /// The source ends before the `->` of a function.
    ExpectedArrow,
    /// A body does not start with `{`.
    ExpectedOpenCurly,
    /// The source ends before the `}` of a body.
    ExpectedCloseCurly,
    /// A constant expression is not followed by `=`.
    ExpectedEquals,
    /// `=` is not followed by a word.
    ExpectedName,
    /// `&`, `@` or `!` is not followed by an integer.
    ExpectedInteger,
    /// A constant expression holds something other than integers, names of
    /// constants, `+` and `*`.
    ExpectedConstOperand,
    /// A constant expression names a constant that was not declared.
    UnknownConst,
    /// An operator of a constant expression finds fewer than two values, or
    /// the expression does not leave exactly one.
    ConstArity,
    /// A sum or product of a constant expression does not fit.
    ConstOverflow,
    /// An integer that does not fit its place.
    IntegerOutOfRange,
    /// A keyword where an expression starts.
    UnexpectedKeyword,
    /// A token that starts no expression.
    UnexpectedToken,
}

/// A parse error: what was expected, and the token found instead.
#[derive(Debug, Clone, PartialEq, Eq)]
pub struct ParseError {
    pub kind: ParseErrorKind,
    pub token: Token,
}

/// A parse error as a mathematical value.
pub ghost struct ParseErrorView {
    pub kind: ParseErrorKind,
    pub found: TokenView,
}

impl View for ParseError {
    type V = ParseErrorView;

    open spec fn view(&self) -> ParseErrorView {
        ParseErrorView { kind: self.kind, found: self.token@ }
    }
}

/// What the parser was looking for, in words.
pub open spec fn expectation(kind: ParseErrorKind) -> Seq<char> {
    match kind {
        ParseErrorKind::ExpectedFunctionName => "Expect function name"@,
        ParseErrorKind::ExpectedArgumentName => "Expect argument name"@,
        ParseErrorKind::ExpectedType => "Expect Type"@,
        ParseErrorKind::ExpectedColon => "Expect `:`"@,
        ParseErrorKind::ExpectedArrow => "Expect `->`"@,
        ParseErrorKind::ExpectedOpenCurly => "Expect `{`"@,
        ParseErrorKind::ExpectedCloseCurly => "Expect `}`"@,
        ParseErrorKind::ExpectedEquals => "Expect `=`"@,
        ParseErrorKind::ExpectedName => "Expect a Word"@,
        ParseErrorKind::ExpectedInteger => "Expect Integer"@,
        ParseErrorKind::ExpectedConstOperand => "Expect Integer, `+` or `*`"@,
        ParseErrorKind::UnknownConst => "Expect a declared constant"@,
        ParseErrorKind::ConstArity => "Expect a constant expression of one value"@,
        ParseErrorKind::ConstOverflow => "Expect a constant that fits"@,
        ParseErrorKind::IntegerOutOfRange => "Expect an integer in range"@,
        ParseErrorKind::UnexpectedKeyword => "Expect an expression"@,
        ParseErrorKind::UnexpectedToken => "Expect an expression"@,
    }
}

/// The token that was found, in words: `EOF` for the end of the source, and
/// the text of any other token between backticks.
pub open spec fn found_text(found: TokenView) -> Seq<char> {
    if found.kind == TokenKind::EOF {
        "EOF"@
    } else {
        "`"@ + found.text + "`"@
    }
}

/// The diagnostic of a parse error in the file `filepath`.
pub open spec fn message_text(e: ParseErrorView, filepath: Seq<char>) -> Seq<char> {
    "Error:\n  "@ + expectation(e.kind) + " but got "@ + found_text(e.found) + " in "@ + filepath
        + place_text(e.found.loc.place())
}

impl ParseErrorKind {
    /// What the parser was looking for, in words.
    pub fn expectation(self) -> (text: &'static str)
        ensures
            text@ == expectation(self),
    {
        match self {
            ParseErrorKind::ExpectedFunctionName => "Expect function name",
            ParseErrorKind::ExpectedArgumentName => "Expect argument name",
            ParseErrorKind::ExpectedType => "Expect Type",
            ParseErrorKind::ExpectedColon => "Expect `:`",
            ParseErrorKind::ExpectedArrow => "Expect `->`",
            ParseErrorKind::ExpectedOpenCurly => "Expect `{`",
            ParseErrorKind::ExpectedCloseCurly => "Expect `}`",
            ParseErrorKind::ExpectedEquals => "Expect `=`",
            ParseErrorKind::ExpectedName => "Expect a Word",
            ParseErrorKind::ExpectedInteger => "Expect Integer",
            ParseErrorKind::ExpectedConstOperand => "Expect Integer, `+` or `*`",
            ParseErrorKind::UnknownConst => "Expect a declared constant",
            ParseErrorKind::ConstArity => "Expect a constant expression of one value",
            ParseErrorKind::ConstOverflow => "Expect a constant that fits",
            ParseErrorKind::IntegerOutOfRange => "Expect an integer in range",
            ParseErrorKind::UnexpectedKeyword => "Expect an expression",
            ParseErrorKind::UnexpectedToken => "Expect an expression",
        }
    }
}

impl ParseError {
    /// The diagnostic of the error in the file `filepath`.
    pub fn message(&self, filepath: &str) -> (text: String)
        ensures
            text@ == message_text(self@, filepath@),
    {
        let mut text = String::from_str("Error:\n  ");
        text.append(self.kind.expectation());
        text.append(" but got ");
        if self.token.kind == TokenKind::EOF {
            text.append("EOF");
        } else {
            text.append("`");
            text.append(self.token.value.as_str());
            text.append("`");
        }
        text.append(" in ");
        text.append(filepath);
        let place = self.token.loc.to_text();
        text.append(place.as_str());
        proof {
            assert(text@ =~= message_text(self@, filepath@));
        }
        text
    }
}

/// The significant tokens of `data` from `pos` on: all but whitespace and
/// comments, without the end-of-file token.
pub open spec fn tokens_from(data: Seq<u8>, pos: int) -> Seq<TokenView>
    decreases data.len() - pos,
{
    if pos < 0 || pos >= data.len() {
        Seq::empty()
    } else {
        proof {
            lemma_scan_bounds(data, pos);
        }
        let kind = scan(data, pos).0;
        let rest = tokens_from(data, scan(data, pos).1);
        if kind == TokenKind::Whitespace || kind == TokenKind::Comment {
            rest
        } else {
            seq![token_at(data, pos)] + rest
        }
    }
}

/// The next token: the first of `toks`, and `eof` where there is none.
pub open spec fn first(toks: Seq<TokenView>, eof: TokenView) -> TokenView {
    if toks.len() > 0 {
        toks[0]
    } else {
        eof
    }
}

/// The tokens after the next one.
pub open spec fn after_first(toks: Seq<TokenView>) -> Seq<TokenView> {
    if toks.len() > 0 {
        toks.skip(1)
    } else {
        toks
    }
}

/// Whether the tokens are at their end.
pub open spec fn ended(toks: Seq<TokenView>) -> bool {
    toks.len() == 0 || toks[0].kind == TokenKind::EOF
}

/// `rest` where it is no longer than `bound`, else `bound`. What is left
/// after a part was parsed is never longer than what was there before
/// (`lemma_expr_consumes`); the bound only lets the definitions below be
/// seen to end.
pub open spec fn clip(rest: Seq<TokenView>, bound: Seq<TokenView>) -> Seq<TokenView> {
    if rest.len() <= bound.len() {
        rest
    } else {
        bound
    }
}

/// The error of kind `kind` at the token `found`.
pub open spec fn fail<T>(kind: ParseErrorKind, found: TokenView) -> Result<T, ParseErrorView> {
    Err(ParseErrorView { kind: kind, found: found })
}

/// The type that a word names.
pub open spec fn type_of(text: Seq<char>) -> Option<DataType> {
    if text == "ptr"@ {
        Some(DataType::Ptr)
    } else if text == "int"@ {
        Some(DataType::Int)
    } else if text == "bool"@ {
        Some(DataType::Bool)
    } else {
        None
    }
}

/// The parameter names of a function: words up to `:`.
pub open spec fn spec_names(toks: Seq<TokenView>, eof: TokenView) -> Result<
    (Seq<Seq<char>>, Seq<TokenView>),
    ParseErrorView,
>
    decreases toks.len(),
{
    if ended(toks) {
        fail(ParseErrorKind::ExpectedColon, first(toks, eof))
    } else if toks[0].text == ":"@ {
        Ok((Seq::empty(), toks.skip(1)))
    } else if toks[0].kind == TokenKind::Word {
        match spec_names(toks.skip(1), eof) {
            Err(e) => Err(e),
            Ok((names, rest)) => Ok((seq![toks[0].text] + names, rest)),
        }
    } else {
        fail(ParseErrorKind::ExpectedArgumentName, toks[0])
    }
}

/// A list of types: words that name types, up to the token `stop`. Where the
/// source ends first, the error is of kind `missing`.
pub open spec fn spec_types(
    toks: Seq<TokenView>,
    eof: TokenView,
    stop: Seq<char>,
    missing: ParseErrorKind,
) -> Result<(Seq<DataType>, Seq<TokenView>), ParseErrorView>
    decreases toks.len(),
{
    if ended(toks) {
        fail(missing, first(toks, eof))
    } else if toks[0].text == stop {
        Ok((Seq::empty(), toks.skip(1)))
    } else if toks[0].kind == TokenKind::Word && type_of(toks[0].text).is_some() {
        match spec_types(toks.skip(1), eof, stop, missing) {
            Err(e) => Err(e),
            Ok((types, rest)) => Ok((seq![type_of(toks[0].text).unwrap()] + types, rest)),
        }
    } else {
        fail(ParseErrorKind::ExpectedType, toks[0])
    }
}

/// An integer token whose number is at most `max`.
pub open spec fn spec_number(toks: Seq<TokenView>, eof: TokenView, max: nat) -> Result<
    (nat, Seq<TokenView>),
    ParseErrorView,
> {
    let t = first(toks, eof);
    if t.kind != TokenKind::Integer {
        fail(ParseErrorKind::ExpectedInteger, t)
    } else {
        match decimal_up_to(t.text, max) {
            None => fail(ParseErrorKind::IntegerOutOfRange, t),
            Some(v) => Ok((v, after_first(toks))),
        }
    }
}

/// What follows `&`: the depth of the value to copy.
pub open spec fn spec_bind(toks: Seq<TokenView>, eof: TokenView) -> Result<
    (Op, Seq<TokenView>),
    ParseErrorView,
> {
    match spec_number(toks, eof, u32::MAX as nat) {
        Err(e) => Err(e),
        Ok((v, rest)) => Ok((Op::Bind(v as u32), rest)),
    }
}

/// What follows `@`: the width of the load.
pub open spec fn spec_read(toks: Seq<TokenView>, eof: TokenView) -> Result<
    (Op, Seq<TokenView>),
    ParseErrorView,
> {
    match spec_number(toks, eof, usize::MAX as nat) {
        Err(e) => Err(e),
        Ok((v, rest)) => Ok((Op::Read(v as usize), rest)),
    }
}

/// What follows `!`: the width of the store.
pub open spec fn spec_write(toks: Seq<TokenView>, eof: TokenView) -> Result<
    (Op, Seq<TokenView>),
    ParseErrorView,
> {
    match spec_number(toks, eof, usize::MAX as nat) {
        Err(e) => Err(e),
        Ok((v, rest)) => Ok((Op::Write(v as usize), rest)),
    }
}

/// The expression that starts with the token `t`, which `toks` follow.
pub open spec fn spec_expr(t: TokenView, toks: Seq<TokenView>, eof: TokenView) -> Result<
    (Op, Seq<TokenView>),
    ParseErrorView,
>
    decreases toks.len(), 3int,
{
    if t.kind == TokenKind::Keyword && t.text == "if"@ {
        spec_if(toks, eof)
    } else if t.kind == TokenKind::Keyword && t.text == "while"@ {
        spec_while(toks, eof)
    } else if t.kind == TokenKind::Keyword && t.text == "&"@ {
        spec_bind(toks, eof)
    } else if t.kind == TokenKind::Intrinsic && t.text == "@"@ {
        spec_read(toks, eof)
    } else if t.kind == TokenKind::Intrinsic && t.text == "!"@ {
        spec_write(toks, eof)
    } else if t.kind == TokenKind::Integer {
        match decimal_up_to(t.text, i32::MAX as nat) {
            None => fail(ParseErrorKind::IntegerOutOfRange, t),
            Some(v) => Ok((Op::PushI(v as i32), toks)),
        }
    } else if t.kind == TokenKind::Keyword && t.text == "debug"@ {
        Ok((Op::Debug, toks))
    } else if t.kind == TokenKind::Intrinsic {
        Ok((Op::Intrinsic(t.text), toks))
    } else if t.kind == TokenKind::Word {
        Ok((Op::Word(t.text), toks))
    } else if t.kind == TokenKind::Keyword {
        fail(ParseErrorKind::UnexpectedKeyword, t)
    } else {
        fail(ParseErrorKind::UnexpectedToken, t)
    }
}

/// Expressions up to a token of kind `close`. Where the source ends first,
/// the error is of kind `missing`.
pub open spec fn spec_until(
    toks: Seq<TokenView>,
    eof: TokenView,
    close: TokenKind,
    missing: ParseErrorKind,
) -> Result<(Seq<Op>, Seq<TokenView>), ParseErrorView>
    decreases toks.len(), 1int,
{
    if ended(toks) {
        fail(missing, first(toks, eof))
    } else if toks[0].kind == close {
        Ok((Seq::empty(), toks.skip(1)))
    } else {
        match spec_expr(toks[0], toks.skip(1), eof) {
            Err(e) => Err(e),
            Ok((op, rest)) => match spec_until(clip(rest, toks.skip(1)), eof, close, missing) {
                Err(e) => Err(e),
                Ok((ops, rest)) => Ok((seq![op] + ops, rest)),
            },
        }
    }
}

/// What follows `if`: a body in curly brackets and, where `else` comes
/// next, a second one.
pub open spec fn spec_if(toks: Seq<TokenView>, eof: TokenView) -> Result<
    (Op, Seq<TokenView>),
    ParseErrorView,
>
    decreases toks.len(), 2int,
{
    let t = first(toks, eof);
    if t.kind != TokenKind::OpenCurly {
        fail(ParseErrorKind::ExpectedOpenCurly, t)
    } else {
        match spec_until(
            after_first(toks),
            eof,
            TokenKind::CloseCurly,
            ParseErrorKind::ExpectedCloseCurly,
        ) {
            Err(e) => Err(e),
            Ok((body, rest)) => {
                let rest = clip(rest, after_first(toks));
                if first(rest, eof).text == "else"@ {
                    let t2 = first(after_first(rest), eof);
                    if t2.kind != TokenKind::OpenCurly {
                        fail(ParseErrorKind::ExpectedOpenCurly, t2)
                    } else {
                        match spec_until(
                            after_first(after_first(rest)),
                            eof,
                            TokenKind::CloseCurly,
                            ParseErrorKind::ExpectedCloseCurly,
                        ) {
                            Err(e) => Err(e),
                            Ok((other, rest)) => Ok((Op::IfElse(body, other), rest)),
                        }
                    }
                } else {
                    Ok((Op::If(body), rest))
                }
            },
        }
    }
}

/// What follows `while`: the condition up to `{`, then the body up to `}`.
pub open spec fn spec_while(toks: Seq<TokenView>, eof: TokenView) -> Result<
    (Op, Seq<TokenView>),
    ParseErrorView,
>
    decreases toks.len(), 2int,
{
    match spec_until(toks, eof, TokenKind::OpenCurly, ParseErrorKind::ExpectedOpenCurly) {
        Err(e) => Err(e),
        Ok((cond, rest)) => match spec_until(
            clip(rest, toks),
            eof,
            TokenKind::CloseCurly,
            ParseErrorKind::ExpectedCloseCurly,
        ) {
            Err(e) => Err(e),
            Ok((body, rest)) => Ok((Op::While(cond, body), rest)),
        },
    }
}

/// What follows `fn`: the name, the parameter names up to `:`, the input
/// types up to `->`, the output types up to `{`, and the body up to `}`.
pub open spec fn spec_fn(toks: Seq<TokenView>, eof: TokenView) -> Result<
    (Op, Seq<TokenView>),
    ParseErrorView,
> {
    let t = first(toks, eof);
    if t.kind != TokenKind::Word {
        fail(ParseErrorKind::ExpectedFunctionName, t)
    } else {
        match spec_names(after_first(toks), eof) {
            Err(e) => Err(e),
            Ok((args, rest)) => match spec_types(rest, eof, "->"@, ParseErrorKind::ExpectedArrow) {
                Err(e) => Err(e),
                Ok((ins, rest)) => match spec_types(
                    rest,
                    eof,
                    "{"@,
                    ParseErrorKind::ExpectedOpenCurly,
                ) {
                    Err(e) => Err(e),
                    Ok((outs, rest)) => match spec_until(
                        rest,
                        eof,
                        TokenKind::CloseCurly,
                        ParseErrorKind::ExpectedCloseCurly,
                    ) {
                        Err(e) => Err(e),
                        Ok((body, rest)) => Ok((Op::Fn(t.text, args, ins, outs, body), rest)),
                    },
                },
            },
        }
    }
}

/// A constant expression in reverse Polish notation, up to `:`: the values
/// left on `stack` at its end.
pub open spec fn spec_rpn(
    toks: Seq<TokenView>,
    eof: TokenView,
    consts: Map<Seq<char>, usize>,
    stack: Seq<usize>,
) -> Result<(Seq<usize>, Seq<TokenView>), ParseErrorView>
    decreases toks.len(),
{
    if ended(toks) {
        fail(ParseErrorKind::ExpectedColon, first(toks, eof))
    } else {
        let t = toks[0];
        let n = stack.len() as int;
        if t.text == ":"@ {
            Ok((stack, toks.skip(1)))
        } else if t.kind == TokenKind::Word {
            if consts.contains_key(t.text) {
                spec_rpn(toks.skip(1), eof, consts, stack.push(consts[t.text]))
            } else {
                fail(ParseErrorKind::UnknownConst, t)
            }
        } else if t.kind == TokenKind::Integer {
            match decimal_up_to(t.text, usize::MAX as nat) {
                None => fail(ParseErrorKind::IntegerOutOfRange, t),
                Some(v) => spec_rpn(toks.skip(1), eof, consts, stack.push(v as usize)),
            }
        } else if t.text == "+"@ {
            if n < 2 {
                fail(ParseErrorKind::ConstArity, t)
            } else if stack[n - 1] + stack[n - 2] > usize::MAX {
                fail(ParseErrorKind::ConstOverflow, t)
            } else {
                spec_rpn(
                    toks.skip(1),
                    eof,
                    consts,
                    stack.drop_last().drop_last().push((stack[n - 1] + stack[n - 2]) as usize),
                )
            }
        } else if t.text == "*"@ {
            if n < 2 {
                fail(ParseErrorKind::ConstArity, t)
            } else if stack[n - 1] * stack[n - 2] > usize::MAX {
                fail(ParseErrorKind::ConstOverflow, t)
            } else {
                spec_rpn(
                    toks.skip(1),
                    eof,
                    consts,
                    stack.drop_last().drop_last().push((stack[n - 1] * stack[n - 2]) as usize),
                )
            }
        } else {
            fail(ParseErrorKind::ExpectedConstOperand, t)
        }
    }
}

/// What follows `const` or `alloc`: a constant expression, `=` and a name.
/// The expression must leave exactly one value.
pub open spec fn spec_binding(
    toks: Seq<TokenView>,
    eof: TokenView,
    consts: Map<Seq<char>, usize>,
) -> Result<((Seq<char>, usize), Seq<TokenView>), ParseErrorView> {
    match spec_rpn(toks, eof, consts, Seq::empty()) {
        Err(e) => Err(e),
        Ok((stack, rest)) => {
            let eq = first(rest, eof);
            let name = first(after_first(rest), eof);
            if eq.kind == TokenKind::EOF || eq.text != "="@ {
                fail(ParseErrorKind::ExpectedEquals, eq)
            } else if name.kind != TokenKind::Word {
                fail(ParseErrorKind::ExpectedName, name)
            } else if stack.len() != 1 {
                fail(ParseErrorKind::ConstArity, name)
            } else {
                Ok(((name.text, stack[0]), after_first(after_first(rest))))
            }
        },
    }
}

/// The operations of a program: at the top level `fn` starts a function,
/// `alloc` an allocation and `const` a constant, which leaves no operation;
/// any other token starts an expression.
pub open spec fn spec_program(
    toks: Seq<TokenView>,
    eof: TokenView,
    consts: Map<Seq<char>, usize>,
) -> Result<Seq<Op>, ParseErrorView>
    decreases toks.len(),
{
    if ended(toks) {
        Ok(Seq::empty())
    } else {
        let t = toks[0];
        let after = toks.skip(1);
        if t.kind == TokenKind::Keyword && t.text == "const"@ {
            match spec_binding(after, eof, consts) {
                Err(e) => Err(e),
                Ok(((name, value), rest)) => spec_program(
                    clip(rest, after),
                    eof,
                    consts.insert(name, value),
                ),
            }
        } else {
            let item = if t.kind == TokenKind::Keyword && t.text == "fn"@ {
                spec_fn(after, eof)
            } else if t.kind == TokenKind::Keyword && t.text == "alloc"@ {
                match spec_binding(after, eof, consts) {
                    Err(e) => Err(e),
                    Ok(((name, value), rest)) => Ok((Op::Alloc(name, value), rest)),
                }
            } else {
                spec_expr(t, after, eof)
            };
            match item {
                Err(e) => Err(e),
                Ok((op, rest)) => match spec_program(clip(rest, after), eof, consts) {
                    Err(e) => Err(e),
                    Ok(ops) => Ok(seq![op] + ops),
                },
            }
        }
    }
}

/// The operations that the source text `input` stands for, or the first
/// parse error.
pub open spec fn parse_spec(input: Seq<u8>) -> Result<Seq<Op>, ParseErrorView> {
    spec_program(tokens_from(input, 0), token_at(input, input.len() as int), Map::empty())
}

/// The views of a list of tokens.
pub open spec fn token_views(tokens: Seq<Token>) -> Seq<TokenView> {
    Seq::new(tokens.len(), |i: int| tokens[i]@)
}

/// Whether a token is one that the parser reads: no whitespace, no comment
/// and no end-of-file token.
pub open spec fn is_significant(kind: TokenKind) -> bool {
    kind != TokenKind::Whitespace && kind != TokenKind::Comment && kind != TokenKind::EOF
}

/// The number of tokens before the first end-of-file token.
pub open spec fn first_eof(toks: Seq<TokenView>) -> int
    decreases toks.len(),
{
    if toks.len() == 0 || toks[0].kind == TokenKind::EOF {
        0
    } else {
        1 + first_eof(toks.skip(1))
    }
}

/// The tokens without whitespace and comments.
pub open spec fn visible(toks: Seq<TokenView>) -> Seq<TokenView>
    decreases toks.len(),
{
    if toks.len() == 0 {
        Seq::empty()
    } else if toks[0].kind == TokenKind::Whitespace || toks[0].kind == TokenKind::Comment {
        visible(toks.skip(1))
    } else {
        seq![toks[0]] + visible(toks.skip(1))
    }
}

/// The tokens that the parser reads of a list of tokens: those before the
/// first end-of-file token, without whitespace and comments.
pub open spec fn significant(toks: Seq<TokenView>) -> Seq<TokenView> {
    visible(toks.take(first_eof(toks)))
}

/// The first end-of-file token lies in the list or at its end, and no token
/// before it is one.
pub proof fn lemma_first_eof(toks: Seq<TokenView>)
    ensures
        0 <= first_eof(toks) <= toks.len(),
        forall|i: int| 0 <= i < first_eof(toks) ==> (#[trigger] toks[i]).kind != TokenKind::EOF,
        first_eof(toks) < toks.len() ==> toks[first_eof(toks)].kind == TokenKind::EOF,
    decreases toks.len(),
{
    if toks.len() > 0 && toks[0].kind != TokenKind::EOF {
        lemma_first_eof(toks.skip(1));
        assert forall|i: int| 0 <= i < first_eof(toks) implies (#[trigger] toks[i]).kind
            != TokenKind::EOF by {
            if i > 0 {
                assert(toks.skip(1)[i - 1] == toks[i]);
            }
        }
    }
}

/// The tokens of a queue in the order in which they are read: the last of
/// the queue first.
pub open spec fn queued(queue: Seq<Token>) -> Seq<TokenView> {
    Seq::new(queue.len(), |i: int| queue[queue.len() - 1 - i]@)
}

/// The parser: a lexer, tokens that are read before those of the lexer, the
/// token looked at ahead of time, if any, and the constants declared so far.
#[derive(Debug)]
pub struct Parser {
    lexer: Lexer,
    filepath: String,
    queue: Vec<Token>,
    peeked: Option<Token>,
    consts: NameMap<usize>,
}

impl Parser {
    /// The significant tokens that are still to come.
    pub closed spec fn rest(&self) -> Seq<TokenView> {
        let coming = queued(self.queue@) + tokens_from(
            self.lexer.source(),
            self.lexer.position() as int,
        );
        match self.peeked {
            Some(t) => if t.kind == TokenKind::EOF {
                coming
            } else {
                seq![t@] + coming
            },
            None => coming,
        }
    }

    /// The end-of-file token of the source.
    pub closed spec fn eof(&self) -> TokenView {
        token_at(self.lexer.source(), self.lexer.source().len() as int)
    }

    /// The constants declared so far.
    pub closed spec fn consts(&self) -> Map<Seq<char>, usize> {
        self.consts@
    }

    /// The name of the source, for diagnostics.
    pub closed spec fn source_name(&self) -> Seq<char> {
        self.filepath@
    }

    /// The name of the source, for diagnostics.
    pub fn filepath(&self) -> (name: &String)
        ensures
            name@ == self.source_name(),
    {
        &self.filepath
    }

    /// The lexer is well formed, and a token looked at ahead of time is a
    /// significant one.
    pub closed spec fn wf(&self) -> bool {
        &&& self.lexer.wf()
        &&& forall|i: int| 0 <= i < self.queue@.len() ==> is_significant((#[trigger] self.queue@[i]).kind)
        &&& match self.peeked {
            Some(t) => {
                &&& t.kind != TokenKind::Whitespace
                &&& t.kind != TokenKind::Comment
                &&& t.kind == TokenKind::EOF ==> t@ == self.eof() && self.at_end()
            },
            None => true,
        }
    }

    /// Whether nothing is left to read but the end-of-file token.
    pub closed spec fn at_end(&self) -> bool {
        self.queue@.len() == 0 && self.lexer.position() >= self.lexer.source().len()
    }

    /// Whether a token was looked at ahead of time.
    pub closed spec fn looks_ahead(&self) -> bool {
        self.peeked.is_some()
    }

    /// What a step of the parser keeps: the end-of-file token and the
    /// constants; and the tokens to come get no more.
    pub open spec fn keeps(&self, before: &Parser) -> bool {
        &&& self.wf()
        &&& self.eof() == before.eof()
        &&& self.consts() == before.consts()
        &&& self.rest().len() <= before.rest().len()
    }

    /// A parser at the start of `input`.
    pub fn new(input: Vec<u8>, filepath: String) -> (p: Self)
        requires
            8 * input@.len() < usize::MAX,
        ensures
            p.wf(),
            p.rest() == tokens_from(input@, 0),
            p.eof() == token_at(input@, input@.len() as int),
            p.consts() == Map::<Seq<char>, usize>::empty(),
            p.source_name() == filepath@,
    {
        let p = Parser {
            lexer: Lexer::new(input),
            filepath,
            queue: Vec::new(),
            peeked: None,
            consts: NameMap::new(),
        };
        assert(queued(p.queue@) + tokens_from(input@, 0) =~= tokens_from(input@, 0));
        p
    }

    /// A parser that reads the tokens of `tokens` up to the first
    /// end-of-file token, without whitespace and comments. Its own
    /// end-of-file token is that of an empty source.
    pub fn over(tokens: Vec<Token>, filepath: String) -> (p: Self)
        ensures
            p.wf(),
            p.rest() == significant(token_views(tokens@)),
            p.eof() == token_at(Seq::<u8>::empty(), 0),
            p.consts() == Map::<Seq<char>, usize>::empty(),
            p.source_name() == filepath@,
    {
        let ghost views = token_views(tokens@);
        let mut tokens = tokens;
        let mut cut: usize = 0;
        proof {
            assert(views.skip(0) =~= views);
        }
        while cut < tokens.len() && tokens[cut].kind != TokenKind::EOF
            invariant
                cut <= tokens.len(),
                views == token_views(tokens@),
                first_eof(views) == cut + first_eof(views.skip(cut as int)),
            decreases tokens.len() - cut,
        {
            proof {
                assert(views.skip(cut as int)[0] == views[cut as int]);
                assert(views.skip(cut as int).skip(1) =~= views.skip(cut + 1));
            }
            cut += 1;
        }
        proof {
            if cut < tokens.len() {
                assert(views.skip(cut as int)[0] == views[cut as int]);
            }
            lemma_first_eof(views);
        }
        tokens.truncate(cut);
        let ghost kept = views.take(cut as int);
        assert(token_views(tokens@) =~= kept);
        let mut queue: Vec<Token> = Vec::new();
        proof {
            assert(kept.subrange(cut as int, cut as int) =~= Seq::<TokenView>::empty());
            assert(queued(queue@) =~= visible(kept.subrange(cut as int, cut as int)));
        }
        while tokens.len() > 0
            invariant
                tokens.len() <= cut,
                kept.len() == cut,
                token_views(tokens@) == kept.take(tokens@.len() as int),
                forall|i: int| 0 <= i < kept.len() ==> (#[trigger] kept[i]).kind != TokenKind::EOF,
                queued(queue@) == visible(kept.subrange(tokens@.len() as int, cut as int)),
                forall|i: int| 0 <= i < queue@.len() ==> is_significant((#[trigger] queue@[i]).kind),
            decreases tokens.len(),
        {
            let ghost n = tokens@.len() as int;
            let ghost before = queue@;
            let ghost held = tokens@;
            let token = tokens.pop().unwrap();
            proof {
                assert(token_views(held)[n - 1] == kept.take(n)[n - 1]);
                assert(token@ == kept[n - 1]);
                assert(token_views(tokens@) =~= kept.take(n - 1));
                let part = kept.subrange(n - 1, cut as int);
                assert(part[0] == kept[n - 1]);
                assert(part.skip(1) =~= kept.subrange(n, cut as int));
            }
            match token.kind {
                TokenKind::Whitespace | TokenKind::Comment => {},
                _ => {
                    queue.push(token);
                    proof {
                        assert(queued(queue@) =~= seq![token@] + queued(before));
                    }
                },
            }
        }
        proof {
            assert(kept.subrange(0, cut as int) =~= kept);
        }
        let p = Parser {
            lexer: Lexer::new(Vec::new()),
            filepath,
            queue,
            peeked: None,
            consts: NameMap::new(),
        };
        proof {
            let none = Seq::<u8>::empty();
            assert(p.lexer.source() =~= none);
            assert(queued(p.queue@) + tokens_from(none, 0) =~= queued(p.queue@));
        }
        p
    }

    /// The next significant token; the end-of-file token where there is none.
    pub fn next(&mut self) -> (token: Token)
        requires
            old(self).wf(),
        ensures
            final(self).keeps(old(self)),
            token@ == first(old(self).rest(), old(self).eof()),
            final(self).rest() == after_first(old(self).rest()),
            token.kind != TokenKind::Whitespace,
            token.kind != TokenKind::Comment,
            token.kind == TokenKind::EOF ==> token@ == old(self).eof() && old(self).rest().len()
                == 0,
            token.kind == TokenKind::EOF ==> final(self).at_end(),
            !final(self).looks_ahead(),
    {
        match self.peeked.take() {
            Some(t) => {
                proof {
                    let coming = queued(self.queue@) + tokens_from(
                        self.lexer.source(),
                        self.lexer.position() as int,
                    );
                    if t.kind != TokenKind::EOF {
                        assert((seq![t@] + coming).skip(1) =~= coming);
                    } else {
                        assert(coming =~= Seq::<TokenView>::empty());
                    }
                }
                return t;
            },
            None => {},
        }
        let ghost waiting = self.queue@;
        match self.queue.pop() {
            Some(t) => {
                proof {
                    let coming = tokens_from(self.lexer.source(), self.lexer.position() as int);
                    assert(queued(waiting)[0] == t@);
                    assert(queued(waiting).skip(1) =~= queued(self.queue@));
                    assert((queued(waiting) + coming).skip(1) =~= queued(self.queue@) + coming);
                    assert(is_significant(waiting[waiting.len() - 1].kind));
                }
                return t;
            },
            None => {
                proof {
                    let coming = tokens_from(self.lexer.source(), self.lexer.position() as int);
                    assert(queued(waiting) + coming =~= coming);
                }
            },
        }
        loop
            invariant
                self.lexer.wf(),
                self.peeked.is_none(),
                self.queue@.len() == 0,
                self.consts == old(self).consts,
                self.lexer.source() == old(self).lexer.source(),
                tokens_from(self.lexer.source(), self.lexer.position() as int) == old(self).rest(),
            decreases self.lexer.source().len() - self.lexer.position(),
        {
            let ghost data = self.lexer.source();
            let ghost pos = self.lexer.position() as int;
            proof {
                self.lexer.lemma_position();
                if pos < data.len() {
                    lemma_scan_bounds(data, pos);
                }
            }
            let token = self.lexer.next_token();
            match token.kind {
                TokenKind::Whitespace | TokenKind::Comment => {},
                _ => {
                    proof {
                        let coming = tokens_from(data, token_end(data, pos));
                        if pos < data.len() {
                            assert((seq![token@] + coming).skip(1) =~= coming);
                        }
                        assert(queued(self.queue@) + coming =~= coming);
                    }
                    return token;
                },
            }
        }
    }

    /// Whether the next significant token has the text `text`. The token
    /// stays to be read.
    pub fn peek_is(&mut self, text: &str) -> (same: bool)
        requires
            old(self).wf(),
        ensures
            final(self).keeps(old(self)),
            final(self).rest() == old(self).rest(),
            same == (first(old(self).rest(), old(self).eof()).text == text@),
    {
        let token = self.peek();
        token.is(text)
    }

    /// The next significant token, which stays to be read.
    pub fn peek(&mut self) -> (token: &Token)
        requires
            old(self).wf(),
        ensures
            final(self).keeps(old(self)),
            final(self).rest() == old(self).rest(),
            token@ == first(old(self).rest(), old(self).eof()),
    {
        if self.peeked.is_none() {
            let t = self.next();
            proof {
                let coming = tokens_from(self.lexer.source(), self.lexer.position() as int);
                if old(self).rest().len() > 0 {
                    assert(seq![t@] + old(self).rest().skip(1) =~= old(self).rest());
                }
            }
            self.peeked = Some(t);
        }
        self.peeked.as_ref().unwrap()
    }

    /// The next significant token, where it is of the kind `kind`; else the
    /// token as the error.
    pub fn expect(&mut self, kind: TokenKind) -> (r: Result<Token, Token>)
        requires
            old(self).wf(),
        ensures
            final(self).keeps(old(self)),
            final(self).rest() == after_first(old(self).rest()),
            match r {
                Ok(t) => t@ == first(old(self).rest(), old(self).eof()) && t.kind == kind,
                Err(t) => t@ == first(old(self).rest(), old(self).eof()) && t.kind != kind,
            },
    {
        let token = self.next();
        if token.kind == kind {
            return Ok(token);
        }
        Err(token)
    }

    /// The next significant token, where the source has not ended; else the
    /// end-of-file token as the error.
    pub fn require(&mut self) -> (r: Result<Token, Token>)
        requires
            old(self).wf(),
        ensures
            final(self).keeps(old(self)),
            final(self).rest() == after_first(old(self).rest()),
            match r {
                Ok(t) => t@ == old(self).rest()[0] && !ended(old(self).rest()),
                Err(t) => t@ == first(old(self).rest(), old(self).eof()) && ended(
                    old(self).rest(),
                ),
            },
    {
        let tok = self.next();
        if tok.kind == TokenKind::EOF {
            return Err(tok);
        }
        Ok(tok)
    }
}

/// Whether `r`, with the tokens `after` left to come, is what the grammar
/// gives for one operation.
pub open spec fn op_parsed(
    r: Result<Operation, ParseError>,
    after: Seq<TokenView>,
    spec: Result<(Op, Seq<TokenView>), ParseErrorView>,
) -> bool {
    match spec {
        Ok((op, rest)) => r is Ok && r->Ok_0@ == op && after == rest,
        Err(e) => r is Err && r->Err_0@ == e,
    }
}

/// Whether `r`, with the tokens `after` left to come, is what the grammar
/// gives for a sequence of operations.
pub open spec fn ops_parsed(
    r: Result<Vec<Operation>, ParseError>,
    after: Seq<TokenView>,
    spec: Result<(Seq<Op>, Seq<TokenView>), ParseErrorView>,
) -> bool {
    match spec {
        Ok((ops, rest)) => r is Ok && view_all(r->Ok_0@) == ops && after == rest,
        Err(e) => r is Err && r->Err_0@ == e,
    }
}

/// `spec` with `done` in front of what it yields.
pub open spec fn after_ops(
    done: Seq<Op>,
    spec: Result<(Seq<Op>, Seq<TokenView>), ParseErrorView>,
) -> Result<(Seq<Op>, Seq<TokenView>), ParseErrorView> {
    match spec {
        Ok((ops, rest)) => Ok((done + ops, rest)),
        Err(e) => Err(e),
    }
}

/// The type that a word names.
fn type_named(text: &String) -> (found: Option<DataType>)
    ensures
        found == type_of(text@),
{
    if text_is(text, "ptr") {
        Some(DataType::Ptr)
    } else if text_is(text, "int") {
        Some(DataType::Int)
    } else if text_is(text, "bool") {
        Some(DataType::Bool)
    } else {
        None
    }
}

/// Reads an integer token whose number is at most `max`.
pub fn parse_number(p: &mut Parser, max: u64) -> (r: Result<u64, ParseError>)
    requires
        old(p).wf(),
    ensures
        final(p).keeps(old(p)),
        match spec_number(old(p).rest(), old(p).eof(), max as nat) {
            Ok((v, rest)) => r is Ok && r->Ok_0 == v && final(p).rest() == rest,
            Err(e) => r is Err && r->Err_0@ == e,
        },
{
    match p.expect(TokenKind::Integer) {
        Ok(token) => match parse_decimal(&token.value, max) {
            Some(v) => Ok(v),
            None => Err(ParseError { kind: ParseErrorKind::IntegerOutOfRange, token }),
        },
        Err(token) => Err(ParseError { kind: ParseErrorKind::ExpectedInteger, token }),
    }
}

/// Parses what follows `&`.
pub fn parse_bind_expr(p: &mut Parser) -> (r: Result<Operation, ParseError>)
    requires
        old(p).wf(),
    ensures
        final(p).keeps(old(p)),
        op_parsed(r, final(p).rest(), spec_bind(old(p).rest(), old(p).eof())),
{
    match parse_number(p, u32::MAX as u64) {
        Ok(v) => Ok(Operation::Bind(v as u32)),
        Err(e) => Err(e),
    }
}

/// Parses what follows `@`.
pub fn parse_read_expr(p: &mut Parser) -> (r: Result<Operation, ParseError>)
    requires
        old(p).wf(),
    ensures
        final(p).keeps(old(p)),
        op_parsed(r, final(p).rest(), spec_read(old(p).rest(), old(p).eof())),
{
    match parse_number(p, usize::MAX as u64) {
        Ok(v) => Ok(Operation::Read(v as usize)),
        Err(e) => Err(e),
    }
}

/// Parses what follows `!`.
pub fn parse_write_expr(p: &mut Parser) -> (r: Result<Operation, ParseError>)
    requires
        old(p).wf(),
    ensures
        final(p).keeps(old(p)),
        op_parsed(r, final(p).rest(), spec_write(old(p).rest(), old(p).eof())),
{
    match parse_number(p, usize::MAX as u64) {
        Ok(v) => Ok(Operation::Write(v as usize)),
        Err(e) => Err(e),
    }
}

/// Parses expressions up to a token of kind `close`, which it takes too.
pub fn parse_until(p: &mut Parser, close: TokenKind, missing: ParseErrorKind) -> (r: Result<
    Vec<Operation>,
    ParseError,
>)
    requires
        old(p).wf(),
    ensures
        final(p).keeps(old(p)),
        ops_parsed(r, final(p).rest(), spec_until(old(p).rest(), old(p).eof(), close, missing)),
    decreases old(p).rest().len(), 1int,
{
    let mut body: Vec<Operation> = Vec::new();
    let ghost start = p.rest();
    let ghost eof = p.eof();
    proof {
        let all = spec_until(start, eof, close, missing);
        assert(view_all(body@) =~= Seq::empty());
        match all {
            Ok((ops, rest)) => {
                assert(Seq::<Op>::empty() + ops =~= ops);
            },
            Err(e) => {},
        }
    }
    loop
        invariant
            p.keeps(old(p)),
            start == old(p).rest(),
            eof == old(p).eof(),
            spec_until(start, eof, close, missing) == after_ops(
                view_all(body@),
                spec_until(p.rest(), eof, close, missing),
            ),
        decreases p.rest().len(),
    {
        let ghost here = p.rest();
        let ghost done = view_all(body@);
        let ghost held = body@;
        match p.require() {
            Err(token) => {
                return Err(ParseError { kind: missing, token });
            },
            Ok(token) => {
                if token.kind == close {
                    assert(done + Seq::<Op>::empty() =~= done);
                    return Ok(body);
                }
                match parse_expr(p, token) {
                    Err(e) => {
                        return Err(e);
                    },
                    Ok(op) => {
                        body.push(op);
                        proof {
                            assert(body@.drop_last() =~= held);
                            let next = spec_until(p.rest(), eof, close, missing);
                            assert(clip(p.rest(), here.skip(1)) == p.rest());
                            match next {
                                Ok((ops, rest)) => {
                                    assert(done + (seq![op@] + ops) =~= view_all(body@) + ops);
                                },
                                Err(e) => {},
                            }
                        }
                    },
                }
            },
        }
    }
}

/// Parses what follows `if`.
pub fn parse_if_expr(p: &mut Parser) -> (r: Result<Operation, ParseError>)
    requires
        old(p).wf(),
    ensures
        final(p).keeps(old(p)),
        op_parsed(r, final(p).rest(), spec_if(old(p).rest(), old(p).eof())),
    decreases old(p).rest().len(), 2int,
{
    match p.expect(TokenKind::OpenCurly) {
        Err(token) => Err(ParseError { kind: ParseErrorKind::ExpectedOpenCurly, token }),
        Ok(_) => {
            let body = match parse_until(
                p,
                TokenKind::CloseCurly,
                ParseErrorKind::ExpectedCloseCurly,
            ) {
                Ok(body) => body,
                Err(e) => {
                    return Err(e);
                },
            };
            if p.peek_is("else") {
                p.next();
                match p.expect(TokenKind::OpenCurly) {
                    Err(token) => Err(
                        ParseError { kind: ParseErrorKind::ExpectedOpenCurly, token },
                    ),
                    Ok(_) => {
                        match parse_until(
                            p,
                            TokenKind::CloseCurly,
                            ParseErrorKind::ExpectedCloseCurly,
                        ) {
                            Ok(elsebody) => Ok(Operation::IfElse(body, elsebody)),
                            Err(e) => Err(e),
                        }
                    },
                }
            } else {
                Ok(Operation::If(body))
            }
        },
    }
}

/// Parses what follows `while`.
pub fn parse_while_expr(p: &mut Parser) -> (r: Result<Operation, ParseError>)
    requires
        old(p).wf(),
    ensures
        final(p).keeps(old(p)),
        op_parsed(r, final(p).rest(), spec_while(old(p).rest(), old(p).eof())),
    decreases old(p).rest().len(), 2int,
{
    let cond = match parse_until(p, TokenKind::OpenCurly, ParseErrorKind::ExpectedOpenCurly) {
        Ok(cond) => cond,
        Err(e) => {
            return Err(e);
        },
    };
    match parse_until(p, TokenKind::CloseCurly, ParseErrorKind::ExpectedCloseCurly) {
        Ok(body) => Ok(Operation::While(cond, body)),
        Err(e) => Err(e),
    }
}

/// Parses the expression that starts with `token`.
pub fn parse_expr(p: &mut Parser, token: Token) -> (r: Result<Operation, ParseError>)
    requires
        old(p).wf(),
    ensures
        final(p).keeps(old(p)),
        op_parsed(r, final(p).rest(), spec_expr(token@, old(p).rest(), old(p).eof())),
    decreases old(p).rest().len(), 3int,
{
    match token.kind {
        TokenKind::Keyword => {
            if token.is("if") {
                parse_if_expr(p)
            } else if token.is("while") {
                parse_while_expr(p)
            } else if token.is("&") {
                parse_bind_expr(p)
            } else if token.is("debug") {
                Ok(Operation::Debug)
            } else {
                Err(ParseError { kind: ParseErrorKind::UnexpectedKeyword, token })
            }
        },
        TokenKind::Intrinsic => {
            if token.is("@") {
                parse_read_expr(p)
            } else if token.is("!") {
                parse_write_expr(p)
            } else {
                Ok(Operation::Intrinsic(token.value))
            }
        },
        TokenKind::Integer => match parse_decimal(&token.value, i32::MAX as u64) {
            Some(v) => Ok(Operation::PushI(v as i32)),
            None => Err(ParseError { kind: ParseErrorKind::IntegerOutOfRange, token }),
        },
        TokenKind::Word => Ok(Operation::Word(token.value)),
        _ => Err(ParseError { kind: ParseErrorKind::UnexpectedToken, token }),
    }
}

/// Parses the parameter names of a function, up to `:`.
pub fn parse_names(p: &mut Parser) -> (r: Result<Vec<String>, ParseError>)
    requires
        old(p).wf(),
    ensures
        final(p).keeps(old(p)),
        match spec_names(old(p).rest(), old(p).eof()) {
            Ok((names, rest)) => r is Ok && names_view(r->Ok_0@) == names && final(p).rest()
                == rest,
            Err(e) => r is Err && r->Err_0@ == e,
        },
{
    let mut args: Vec<String> = Vec::new();
    let ghost start = p.rest();
    let ghost eof = p.eof();
    proof {
        assert(names_view(args@) =~= Seq::empty());
        match spec_names(start, eof) {
            Ok((names, rest)) => {
                assert(Seq::<Seq<char>>::empty() + names =~= names);
            },
            Err(e) => {},
        }
    }
    loop
        invariant
            p.keeps(old(p)),
            start == old(p).rest(),
            eof == old(p).eof(),
            spec_names(start, eof) == match spec_names(p.rest(), eof) {
                Ok((names, rest)) => Ok((names_view(args@) + names, rest)),
                Err(e) => Err(e),
            },
        decreases p.rest().len(),
    {
        let ghost done = names_view(args@);
        match p.require() {
            Err(token) => {
                return Err(ParseError { kind: ParseErrorKind::ExpectedColon, token });
            },
            Ok(token) => {
                if token.is(":") {
                    assert(done + Seq::<Seq<char>>::empty() =~= done);
                    return Ok(args);
                } else if token.kind == TokenKind::Word {
                    let ghost name = token@.text;
                    args.push(token.value);
                    proof {
                        assert(names_view(args@) =~= done.push(name));
                        match spec_names(p.rest(), eof) {
                            Ok((names, rest)) => {
                                assert(done + (seq![name] + names) =~= names_view(args@)
                                    + names);
                            },
                            Err(e) => {},
                        }
                    }
                } else {
                    return Err(ParseError { kind: ParseErrorKind::ExpectedArgumentName, token });
                }
            },
        }
    }
}

/// Parses a list of types, up to the token `stop`.
pub fn parse_types(p: &mut Parser, stop: &str, missing: ParseErrorKind) -> (r: Result<
    Vec<DataType>,
    ParseError,
>)
    requires
        old(p).wf(),
    ensures
        final(p).keeps(old(p)),
        match spec_types(old(p).rest(), old(p).eof(), stop@, missing) {
            Ok((types, rest)) => r is Ok && r->Ok_0@ == types && final(p).rest() == rest,
            Err(e) => r is Err && r->Err_0@ == e,
        },
{
    let mut types: Vec<DataType> = Vec::new();
    let ghost start = p.rest();
    let ghost eof = p.eof();
    proof {
        match spec_types(start, eof, stop@, missing) {
            Ok((found, rest)) => {
                assert(types@ + found =~= found);
            },
            Err(e) => {},
        }
    }
    loop
        invariant
            p.keeps(old(p)),
            start == old(p).rest(),
            eof == old(p).eof(),
            spec_types(start, eof, stop@, missing) == match spec_types(
                p.rest(),
                eof,
                stop@,
                missing,
            ) {
                Ok((found, rest)) => Ok((types@ + found, rest)),
                Err(e) => Err(e),
            },
        decreases p.rest().len(),
    {
        let ghost done = types@;
        match p.require() {
            Err(token) => {
                return Err(ParseError { kind: missing, token });
            },
            Ok(token) => {
                if token.is(stop) {
                    assert(done + Seq::<DataType>::empty() =~= done);
                    return Ok(types);
                }
                let typ = if token.kind == TokenKind::Word {
                    type_named(&token.value)
                } else {
                    None
                };
                match typ {
                    Some(typ) => {
                        types.push(typ);
                        proof {
                            match spec_types(p.rest(), eof, stop@, missing) {
                                Ok((found, rest)) => {
                                    assert(done + (seq![typ] + found) =~= types@ + found);
                                },
                                Err(e) => {},
                            }
                        }
                    },
                    None => {
                        return Err(ParseError { kind: ParseErrorKind::ExpectedType, token });
                    },
                }
            },
        }
    }
}

/// Parses what follows `fn`.
pub fn parse_fn_expr(p: &mut Parser) -> (r: Result<Operation, ParseError>)
    requires
        old(p).wf(),
    ensures
        final(p).keeps(old(p)),
        op_parsed(r, final(p).rest(), spec_fn(old(p).rest(), old(p).eof())),
{
    let name = match p.expect(TokenKind::Word) {
        Ok(token) => token.value,
        Err(token) => {
            return Err(ParseError { kind: ParseErrorKind::ExpectedFunctionName, token });
        },
    };
    let args = match parse_names(p) {
        Ok(args) => args,
        Err(e) => {
            return Err(e);
        },
    };
    let ins = match parse_types(p, "->", ParseErrorKind::ExpectedArrow) {
        Ok(ins) => ins,
        Err(e) => {
            return Err(e);
        },
    };
    let outs = match parse_types(p, "{", ParseErrorKind::ExpectedOpenCurly) {
        Ok(outs) => outs,
        Err(e) => {
            return Err(e);
        },
    };
    let body = match parse_until(p, TokenKind::CloseCurly, ParseErrorKind::ExpectedCloseCurly) {
        Ok(body) => body,
        Err(e) => {
            return Err(e);
        },
    };
    Ok(Operation::Fn(name, args, ins, outs, body))
}

/// Evaluates a constant expression in reverse Polish notation, up to `:`.
pub fn parse_rpn(p: &mut Parser) -> (r: Result<Vec<usize>, ParseError>)
    requires
        old(p).wf(),
    ensures
        final(p).keeps(old(p)),
        match spec_rpn(old(p).rest(), old(p).eof(), old(p).consts(), Seq::empty()) {
            Ok((stack, rest)) => r is Ok && r->Ok_0@ == stack && final(p).rest() == rest,
            Err(e) => r is Err && r->Err_0@ == e,
        },
{
    let mut value: Vec<usize> = Vec::new();
    let ghost start = p.rest();
    let ghost eof = p.eof();
    let ghost consts = p.consts();
    loop
        invariant
            p.keeps(old(p)),
            start == old(p).rest(),
            eof == old(p).eof(),
            consts == old(p).consts(),
            spec_rpn(start, eof, consts, Seq::empty()) == spec_rpn(
                p.rest(),
                eof,
                consts,
                value@,
            ),
        decreases p.rest().len(),
    {
        match p.require() {
            Err(token) => {
                return Err(ParseError { kind: ParseErrorKind::ExpectedColon, token });
            },
            Ok(token) => {
                if token.is(":") {
                    return Ok(value);
                } else if token.kind == TokenKind::Word {
                    let known = match p.consts.get(&token.value) {
                        Some(v) => Some(*v),
                        None => None,
                    };
                    match known {
                        Some(v) => {
                            value.push(v);
                        },
                        None => {
                            return Err(
                                ParseError { kind: ParseErrorKind::UnknownConst, token },
                            );
                        },
                    }
                } else if token.kind == TokenKind::Integer {
                    match parse_decimal(&token.value, usize::MAX as u64) {
                        Some(v) => {
                            value.push(v as usize);
                        },
                        None => {
                            return Err(
                                ParseError { kind: ParseErrorKind::IntegerOutOfRange, token },
                            );
                        },
                    }
                } else if token.is("+") {
                    if value.len() < 2 {
                        return Err(ParseError { kind: ParseErrorKind::ConstArity, token });
                    }
                    let b = value.pop().unwrap();
                    let a = value.pop().unwrap();
                    match b.checked_add(a) {
                        Some(sum) => {
                            value.push(sum);
                        },
                        None => {
                            return Err(
                                ParseError { kind: ParseErrorKind::ConstOverflow, token },
                            );
                        },
                    }
                } else if token.is("*") {
                    if value.len() < 2 {
                        return Err(ParseError { kind: ParseErrorKind::ConstArity, token });
                    }
                    let b = value.pop().unwrap();
                    let a = value.pop().unwrap();
                    match b.checked_mul(a) {
                        Some(product) => {
                            value.push(product);
                        },
                        None => {
                            return Err(
                                ParseError { kind: ParseErrorKind::ConstOverflow, token },
                            );
                        },
                    }
                } else {
                    return Err(ParseError { kind: ParseErrorKind::ExpectedConstOperand, token });
                }
            },
        }
    }
}

/// Parses what follows `const` or `alloc`: a constant expression, `=` and a
/// name. Returns the name and the value of the expression.
pub fn parse_binding(p: &mut Parser) -> (r: Result<(String, usize), ParseError>)
    requires
        old(p).wf(),
    ensures
        final(p).keeps(old(p)),
        match spec_binding(old(p).rest(), old(p).eof(), old(p).consts()) {
            Ok(((name, value), rest)) => r is Ok && (r->Ok_0).0@ == name && (r->Ok_0).1 == value
                && final(p).rest() == rest,
            Err(e) => r is Err && r->Err_0@ == e,
        },
{
    let value = match parse_rpn(p) {
        Ok(value) => value,
        Err(e) => {
            return Err(e);
        },
    };
    match p.require() {
        Ok(token) => {
            if !token.is("=") {
                return Err(ParseError { kind: ParseErrorKind::ExpectedEquals, token });
            }
        },
        Err(token) => {
            return Err(ParseError { kind: ParseErrorKind::ExpectedEquals, token });
        },
    }
    match p.expect(TokenKind::Word) {
        Ok(token) => {
            if value.len() != 1 {
                return Err(ParseError { kind: ParseErrorKind::ConstArity, token });
            }
            Ok((token.value, value[0]))
        },
        Err(token) => Err(ParseError { kind: ParseErrorKind::ExpectedName, token }),
    }
}

/// Parses what follows `const` and records the constant.
pub fn parse_const_expr(p: &mut Parser) -> (r: Result<(), ParseError>)
    requires
        old(p).wf(),
    ensures
        final(p).wf(),
        final(p).eof() == old(p).eof(),
        final(p).rest().len() <= old(p).rest().len(),
        match spec_binding(old(p).rest(), old(p).eof(), old(p).consts()) {
            Ok(((name, value), rest)) => r is Ok && final(p).rest() == rest && final(p).consts()
                == old(p).consts().insert(name, value),
            Err(e) => r is Err && r->Err_0@ == e,
        },
{
    match parse_binding(p) {
        Ok((name, value)) => {
            p.consts.insert(name, value);
            Ok(())
        },
        Err(e) => Err(e),
    }
}

/// Parses what follows `alloc`.
pub fn parse_alloc_expr(p: &mut Parser) -> (r: Result<Operation, ParseError>)
    requires
        old(p).wf(),
    ensures
        final(p).keeps(old(p)),
        op_parsed(
            r,
            final(p).rest(),
            match spec_binding(old(p).rest(), old(p).eof(), old(p).consts()) {
                Ok(((name, value), rest)) => Ok((Op::Alloc(name, value), rest)),
                Err(e) => Err(e),
            },
        ),
{
    match parse_binding(p) {
        Ok((name, value)) => Ok(Operation::Alloc(name, value)),
        Err(e) => Err(e),
    }
}

/// Parses the operations of a program, up to the end of the tokens.
pub fn parse_program(p: &mut Parser) -> (r: Result<Vec<Operation>, ParseError>)
    requires
        old(p).wf(),
    ensures
        final(p).wf(),
        match spec_program(old(p).rest(), old(p).eof(), old(p).consts()) {
            Ok(ops) => r is Ok && view_all(r->Ok_0@) == ops,
            Err(e) => r is Err && r->Err_0@ == e,
        },
{
    let mut ops: Vec<Operation> = Vec::new();
    let ghost start = p.rest();
    let ghost eof = p.eof();
    let ghost known = p.consts();
    proof {
        assert(view_all(ops@) =~= Seq::empty());
        match spec_program(start, eof, known) {
            Ok(found) => {
                assert(Seq::<Op>::empty() + found =~= found);
            },
            Err(e) => {},
        }
    }
    loop
        invariant
            p.wf(),
            eof == p.eof(),
            start == old(p).rest(),
            eof == old(p).eof(),
            known == old(p).consts(),
            spec_program(start, eof, known) == match spec_program(p.rest(), eof, p.consts()) {
                Ok(found) => Ok(view_all(ops@) + found),
                Err(e) => Err(e),
            },
        decreases p.rest().len(),
    {
        let ghost here = p.rest();
        let ghost done = view_all(ops@);
        let ghost held = ops@;
        let token = p.next();
        if token.kind == TokenKind::EOF {
            assert(done + Seq::<Op>::empty() =~= done);
            return Ok(ops);
        }
        let is_keyword = token.kind == TokenKind::Keyword;
        let item = if is_keyword && token.is("const") {
            match parse_const_expr(p) {
                Ok(()) => {
                    assert(clip(p.rest(), here.skip(1)) == p.rest());
                    continue ;
                },
                Err(e) => {
                    return Err(e);
                },
            }
        } else if is_keyword && token.is("fn") {
            parse_fn_expr(p)
        } else if is_keyword && token.is("alloc") {
            parse_alloc_expr(p)
        } else {
            parse_expr(p, token)
        };
        match item {
            Err(e) => {
                return Err(e);
            },
            Ok(op) => {
                ops.push(op);
                proof {
                    assert(ops@.drop_last() =~= held);
                    assert(clip(p.rest(), here.skip(1)) == p.rest());
                    match spec_program(p.rest(), eof, p.consts()) {
                        Ok(found) => {
                            assert(done + (seq![op@] + found) =~= view_all(ops@) + found);
                        },
                        Err(e) => {},
                    }
                }
            },
        }
    }
}

/// The operations that a list of tokens stands for, or the first parse
/// error: the tokens up to the first end-of-file token are read, without
/// whitespace and comments.
pub open spec fn parse_tokens_spec(toks: Seq<TokenView>) -> Result<Seq<Op>, ParseErrorView> {
    spec_program(significant(toks), token_at(Seq::<u8>::empty(), 0), Map::empty())
}

/// Parses a list of tokens. `filepath` names the source for diagnostics.
pub fn parse_tokens(tokens: Vec<Token>, filepath: String) -> (r: Result<
    Vec<Operation>,
    ParseError,
>)
    ensures
        match parse_tokens_spec(token_views(tokens@)) {
            Ok(ops) => r is Ok && view_all(r->Ok_0@) == ops,
            Err(e) => r is Err && r->Err_0@ == e,
        },
{
    let mut p = Parser::over(tokens, filepath);
    parse_program(&mut p)
}

/// Parses the source text `input`. `filepath` names the source for
/// diagnostics.
pub fn parse_file(input: Vec<u8>, filepath: String) -> (r: Result<Vec<Operation>, ParseError>)
    requires
        8 * input@.len() < usize::MAX,
    ensures
        match parse_spec(input@) {
            Ok(ops) => r is Ok && view_all(r->Ok_0@) == ops,
            Err(e) => r is Err && r->Err_0@ == e,
        },
{
    let mut p = Parser::new(input, filepath);
    parse_program(&mut p)
}

/// An expression holds no definition.
pub proof fn lemma_expr_no_defs(t: TokenView, toks: Seq<TokenView>, eof: TokenView)
    requires
        spec_expr(t, toks, eof) is Ok,
    ensures
        no_defs(spec_expr(t, toks, eof)->Ok_0.0),
    decreases toks.len(), 3int,
{
    if t.kind == TokenKind::Keyword && t.text == "if"@ {
        lemma_if_no_defs(toks, eof);
    } else if t.kind == TokenKind::Keyword && t.text == "while"@ {
        lemma_while_no_defs(toks, eof);
    }
}

/// The expressions of a body hold no definition.
pub proof fn lemma_until_no_defs(
    toks: Seq<TokenView>,
    eof: TokenView,
    close: TokenKind,
    missing: ParseErrorKind,
)
    requires
        spec_until(toks, eof, close, missing) is Ok,
    ensures
        no_defs_all(spec_until(toks, eof, close, missing)->Ok_0.0),
    decreases toks.len(), 1int,
{
    if !ended(toks) && toks[0].kind != close {
        let one = spec_expr(toks[0], toks.skip(1), eof)->Ok_0;
        lemma_expr_no_defs(toks[0], toks.skip(1), eof);
        let rest = clip(one.1, toks.skip(1));
        lemma_until_no_defs(rest, eof, close, missing);
        lemma_no_defs_cons(one.0, spec_until(rest, eof, close, missing)->Ok_0.0);
    }
}

/// An `if` holds no definition.
pub proof fn lemma_if_no_defs(toks: Seq<TokenView>, eof: TokenView)
    requires
        spec_if(toks, eof) is Ok,
    ensures
        no_defs(spec_if(toks, eof)->Ok_0.0),
    decreases toks.len(), 2int,
{
    let body = spec_until(
        after_first(toks),
        eof,
        TokenKind::CloseCurly,
        ParseErrorKind::ExpectedCloseCurly,
    );
    lemma_until_no_defs(
        after_first(toks),
        eof,
        TokenKind::CloseCurly,
        ParseErrorKind::ExpectedCloseCurly,
    );
    let rest = clip(body->Ok_0.1, after_first(toks));
    if first(rest, eof).text == "else"@ {
        lemma_until_no_defs(
            after_first(after_first(rest)),
            eof,
            TokenKind::CloseCurly,
            ParseErrorKind::ExpectedCloseCurly,
        );
    }
}

/// A `while` holds no definition.
pub proof fn lemma_while_no_defs(toks: Seq<TokenView>, eof: TokenView)
    requires
        spec_while(toks, eof) is Ok,
    ensures
        no_defs(spec_while(toks, eof)->Ok_0.0),
    decreases toks.len(), 2int,
{
    let cond = spec_until(toks, eof, TokenKind::OpenCurly, ParseErrorKind::ExpectedOpenCurly);
    lemma_until_no_defs(toks, eof, TokenKind::OpenCurly, ParseErrorKind::ExpectedOpenCurly);
    lemma_until_no_defs(
        clip(cond->Ok_0.1, toks),
        eof,
        TokenKind::CloseCurly,
        ParseErrorKind::ExpectedCloseCurly,
    );
}

/// What is left after an expression is no more than what was there.
pub proof fn lemma_expr_consumes(t: TokenView, toks: Seq<TokenView>, eof: TokenView)
    requires
        spec_expr(t, toks, eof) is Ok,
    ensures
        spec_expr(t, toks, eof)->Ok_0.1.len() <= toks.len(),
    decreases toks.len(), 3int,
{
    if t.kind == TokenKind::Keyword && t.text == "if"@ {
        lemma_if_consumes(toks, eof);
    } else if t.kind == TokenKind::Keyword && t.text == "while"@ {
        lemma_while_consumes(toks, eof);
    }
}

/// What is left after a body is no more than what was there.
pub proof fn lemma_until_consumes(
    toks: Seq<TokenView>,
    eof: TokenView,
    close: TokenKind,
    missing: ParseErrorKind,
)
    requires
        spec_until(toks, eof, close, missing) is Ok,
    ensures
        spec_until(toks, eof, close, missing)->Ok_0.1.len() <= toks.len(),
    decreases toks.len(), 1int,
{
    if !ended(toks) && toks[0].kind != close {
        let one = spec_expr(toks[0], toks.skip(1), eof)->Ok_0;
        lemma_until_consumes(clip(one.1, toks.skip(1)), eof, close, missing);
    }
}

/// What is left after an `if` is no more than what was there.
pub proof fn lemma_if_consumes(toks: Seq<TokenView>, eof: TokenView)
    requires
        spec_if(toks, eof) is Ok,
    ensures
        spec_if(toks, eof)->Ok_0.1.len() <= toks.len(),
    decreases toks.len(), 2int,
{
    let body = spec_until(
        after_first(toks),
        eof,
        TokenKind::CloseCurly,
        ParseErrorKind::ExpectedCloseCurly,
    );
    lemma_until_consumes(
        after_first(toks),
        eof,
        TokenKind::CloseCurly,
        ParseErrorKind::ExpectedCloseCurly,
    );
    let rest = clip(body->Ok_0.1, after_first(toks));
    if first(rest, eof).text == "else"@ {
        lemma_until_consumes(
            after_first(after_first(rest)),
            eof,
            TokenKind::CloseCurly,
            ParseErrorKind::ExpectedCloseCurly,
        );
    }
}

/// What is left after a `while` is no more than what was there.
pub proof fn lemma_while_consumes(toks: Seq<TokenView>, eof: TokenView)
    requires
        spec_while(toks, eof) is Ok,
    ensures
        spec_while(toks, eof)->Ok_0.1.len() <= toks.len(),
    decreases toks.len(), 2int,
{
    let cond = spec_until(toks, eof, TokenKind::OpenCurly, ParseErrorKind::ExpectedOpenCurly);
    lemma_until_consumes(toks, eof, TokenKind::OpenCurly, ParseErrorKind::ExpectedOpenCurly);
    lemma_until_consumes(
        clip(cond->Ok_0.1, toks),
        eof,
        TokenKind::CloseCurly,
        ParseErrorKind::ExpectedCloseCurly,
    );
}

/// A parsed program is well formed: functions and allocations stand at the
/// top only.
pub proof fn lemma_program_well_formed(
    toks: Seq<TokenView>,
    eof: TokenView,
    consts: Map<Seq<char>, usize>,
)
    requires
        spec_program(toks, eof, consts) is Ok,
    ensures
        well_formed(spec_program(toks, eof, consts)->Ok_0),
    decreases toks.len(),
{
    if !ended(toks) {
        let t = toks[0];
        let after = toks.skip(1);
        if t.kind == TokenKind::Keyword && t.text == "const"@ {
            let bound = spec_binding(after, eof, consts)->Ok_0;
            lemma_program_well_formed(
                clip(bound.1, after),
                eof,
                consts.insert(bound.0.0, bound.0.1),
            );
        } else {
            let item = if t.kind == TokenKind::Keyword && t.text == "fn"@ {
                spec_fn(after, eof)
            } else if t.kind == TokenKind::Keyword && t.text == "alloc"@ {
                match spec_binding(after, eof, consts) {
                    Err(e) => Err(e),
                    Ok(((name, value), rest)) => Ok((Op::Alloc(name, value), rest)),
                }
            } else {
                spec_expr(t, after, eof)
            };
            let op = item->Ok_0.0;
            let rest = clip(item->Ok_0.1, after);
            lemma_program_well_formed(rest, eof, consts);
            let later = spec_program(rest, eof, consts)->Ok_0;
            if t.kind == TokenKind::Keyword && t.text == "fn"@ {
                let names = spec_names(after_first(after), eof)->Ok_0;
                let ins = spec_types(names.1, eof, "->"@, ParseErrorKind::ExpectedArrow)->Ok_0;
                let outs = spec_types(ins.1, eof, "{"@, ParseErrorKind::ExpectedOpenCurly)->Ok_0;
                lemma_until_no_defs(
                    outs.1,
                    eof,
                    TokenKind::CloseCurly,
                    ParseErrorKind::ExpectedCloseCurly,
                );
            } else if t.kind == TokenKind::Keyword && t.text == "alloc"@ {
            } else {
                lemma_expr_no_defs(t, after, eof);
            }
            let all = seq![op] + later;
            assert forall|i: int| 0 <= i < all.len() implies top_level(#[trigger] all[i]) by {
                if i > 0 {
                    assert(all[i] == later[i - 1]);
                }
            }
        }
    }
}

/// The program of a source text is well formed.
pub proof fn lemma_parse_well_formed(input: Seq<u8>)
    requires
        parse_spec(input) is Ok,
    ensures
        well_formed(parse_spec(input)->Ok_0),
{
    lemma_program_well_formed(
        tokens_from(input, 0),
        token_at(input, input.len() as int),
        Map::empty(),
    );
}

} // verus!
