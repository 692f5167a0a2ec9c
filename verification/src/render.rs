//! Writing tokens back as source text, and the law that lexing the text
//! gives the tokens back.

use vstd::prelude::*;
use crate::lexer::{
    Run, TokenKind, byte_at, classify, continues, is_digit, is_letter, is_space,
    lemma_run_end_bounds, lemma_scan_bounds, run_end, scan, token_text,
};
use crate::parser::tokens_from;

verus! {

/// A token without its place: the kind and the bytes.
pub ghost struct Lexeme {
    pub kind: TokenKind,
    pub bytes: Seq<u8>,
}

/// Whether tokens of a kind are passed over: whitespace and comments.
pub open spec fn is_blank(kind: TokenKind) -> bool {
    kind == TokenKind::Whitespace || kind == TokenKind::Comment
}

/// The tokens of `data` from `pos` on that are not passed over, without the
/// end-of-file token.
pub open spec fn lexemes_from(data: Seq<u8>, pos: int) -> Seq<Lexeme>
    decreases data.len() - pos,
{
    if pos < 0 || pos >= data.len() {
        Seq::empty()
    } else {
        proof {
            lemma_scan_bounds(data, pos);
        }
        let kind = scan(data, pos).0;
        let end = scan(data, pos).1;
        let rest = lexemes_from(data, end);
        if is_blank(kind) {
            rest
        } else {
            seq![Lexeme { kind: kind, bytes: data.subrange(pos, end) }] + rest
        }
    }
}

/// The source text of a sequence of tokens: each token followed by one space.
pub open spec fn render(toks: Seq<Lexeme>) -> Seq<u8>
    decreases toks.len(),
{
    if toks.len() == 0 {
        Seq::empty()
    } else {
        toks[0].bytes + seq![0x20u8] + render(toks.skip(1))
    }
}

/// A run goes on over every byte before its end.
pub proof fn lemma_run_all(data: Seq<u8>, from: int, run: Run, i: int)
    requires
        0 <= from <= i < run_end(data, from, run),
    ensures
        i < data.len(),
        continues(run, data[i]),
    decreases i - from,
{
    if from < data.len() && continues(run, data[from]) {
        if i > from {
            lemma_run_all(data, from + 1, run, i);
        }
    }
}

/// A run ends at the end of the data or before a byte that it does not go
/// on over.
pub proof fn lemma_run_stop(data: Seq<u8>, from: int, run: Run)
    requires
        0 <= from <= data.len(),
    ensures
        run_end(data, from, run) == data.len() || !continues(
            run,
            data[run_end(data, from, run)],
        ),
    decreases data.len() - from,
{
    if from < data.len() && continues(run, data[from]) {
        lemma_run_stop(data, from + 1, run);
    }
}

/// The end of a run is the one position with these properties.
pub proof fn lemma_run_is(data: Seq<u8>, from: int, run: Run, end: int)
    requires
        0 <= from <= end <= data.len(),
        forall|i: int| from <= i < end ==> continues(run, #[trigger] data[i]),
        end == data.len() || !continues(run, data[end]),
    ensures
        run_end(data, from, run) == end,
    decreases end - from,
{
    if from < end {
        assert(continues(run, data[from]));
        lemma_run_is(data, from + 1, run, end);
    }
}

/// A run in a suffix of the data ends where it ends in the data.
pub proof fn lemma_run_suffix(data: Seq<u8>, cut: int, from: int, run: Run)
    requires
        0 <= cut <= from <= data.len(),
    ensures
        run_end(data.skip(cut), from - cut, run) + cut == run_end(data, from, run),
{
    let end = run_end(data, from, run);
    let tail = data.skip(cut);
    lemma_run_end_bounds(data, from, run);
    lemma_run_stop(data, from, run);
    assert forall|i: int| from - cut <= i < end - cut implies continues(
        run,
        #[trigger] tail[i],
    ) by {
        lemma_run_all(data, from, run, i + cut);
    }
    lemma_run_is(tail, from - cut, run, end - cut);
}

/// The token at a position of a suffix of the data is the token at that
/// position of the data.
pub proof fn lemma_scan_suffix(data: Seq<u8>, cut: int, pos: int)
    requires
        0 <= cut <= pos < data.len(),
    ensures
        scan(data.skip(cut), pos - cut).0 == scan(data, pos).0,
        scan(data.skip(cut), pos - cut).1 + cut == scan(data, pos).1,
        data.skip(cut).subrange(pos - cut, scan(data, pos).1 - cut) == data.subrange(
            pos,
            scan(data, pos).1,
        ),
{
    let tail = data.skip(cut);
    lemma_scan_bounds(data, pos);
    assert(byte_at(tail, pos - cut) == byte_at(data, pos));
    assert(byte_at(tail, pos - cut + 1) == byte_at(data, pos + 1));
    lemma_run_suffix(data, cut, pos + 1, Run::Space);
    lemma_run_suffix(data, cut, pos + 1, Run::Word);
    lemma_run_suffix(data, cut, pos + 1, Run::Digit);
    if pos + 2 <= data.len() {
        lemma_run_suffix(data, cut, pos + 2, Run::Comment);
    }
    let end = run_end(data, pos + 1, Run::Word);
    lemma_run_end_bounds(data, pos + 1, Run::Word);
    assert(tail.subrange(pos - cut, end - cut) =~= data.subrange(pos, end));
    assert(tail.subrange(pos - cut, scan(data, pos).1 - cut) =~= data.subrange(
        pos,
        scan(data, pos).1,
    ));
}

/// The tokens of a suffix of the data are the tokens of the data from the
/// cut on.
pub proof fn lemma_lexemes_suffix(data: Seq<u8>, cut: int, pos: int)
    requires
        0 <= cut <= pos <= data.len(),
    ensures
        lexemes_from(data.skip(cut), pos - cut) == lexemes_from(data, pos),
    decreases data.len() - pos,
{
    if pos < data.len() {
        lemma_scan_bounds(data, pos);
        lemma_scan_suffix(data, cut, pos);
        lemma_lexemes_suffix(data, cut, scan(data, pos).1);
    }
}

/// A token that is followed by a space is found again wherever its bytes
/// stand before a space.
pub proof fn lemma_scan_copy(data: Seq<u8>, text: Seq<u8>)
    requires
        data.len() > 0,
        !is_blank(scan(data, 0).0),
        text.len() > scan(data, 0).1,
        text.subrange(0, scan(data, 0).1) == data.subrange(0, scan(data, 0).1),
        text[scan(data, 0).1] == 0x20,
    ensures
        scan(text, 0) == scan(data, 0),
{
    let n = scan(data, 0).1;
    lemma_scan_bounds(data, 0);
    assert forall|i: int| 0 <= i < n implies text[i] == data[i] by {
        assert(text.subrange(0, n)[i] == data.subrange(0, n)[i]);
    }
    let c = data[0];
    assert(text[0] == c);
    if is_letter(c) {
        assert forall|i: int| 1 <= i < n implies continues(Run::Word, #[trigger] text[i]) by {
            lemma_run_all(data, 1, Run::Word, i);
        }
        lemma_run_is(text, 1, Run::Word, n);
    } else if is_digit(c) {
        assert forall|i: int| 1 <= i < n implies continues(Run::Digit, #[trigger] text[i]) by {
            lemma_run_all(data, 1, Run::Digit, i);
        }
        lemma_run_is(text, 1, Run::Digit, n);
    } else {
        assert(byte_at(text, 1) == if n == 1 {
            0x20u8
        } else {
            data[1]
        });
    }
}

/// Whether a lexeme is a token: it is not passed over, and lexing its bytes
/// before a space gives its kind and all its bytes.
pub open spec fn is_token(lexeme: Lexeme) -> bool {
    &&& lexeme.bytes.len() > 0
    &&& !is_blank(lexeme.kind)
    &&& scan(lexeme.bytes + seq![0x20u8], 0) == (lexeme.kind, lexeme.bytes.len() as int)
}

/// Whether all lexemes of a sequence are tokens.
pub open spec fn all_tokens(toks: Seq<Lexeme>) -> bool {
    forall|i: int| 0 <= i < toks.len() ==> is_token(#[trigger] toks[i])
}

/// Lexing is the inverse of rendering: the text of a sequence of tokens,
/// written with one space after each, lexes to that sequence, kind by kind
/// and byte by byte.
pub proof fn lemma_lex_of_render(toks: Seq<Lexeme>)
    requires
        all_tokens(toks),
    ensures
        lexemes_from(render(toks), 0) == toks,
    decreases toks.len(),
{
    if toks.len() > 0 {
        let word = toks[0].bytes;
        let kind = toks[0].kind;
        let n = word.len() as int;
        let later = toks.skip(1);
        let text = render(toks);
        let tail = render(later);
        assert(is_token(toks[0]));
        assert forall|i: int| 0 <= i < later.len() implies is_token(#[trigger] later[i]) by {
            assert(later[i] == toks[i + 1]);
        }
        lemma_lex_of_render(later);
        let alone = word + seq![0x20u8];
        assert(text.subrange(0, n) =~= word);
        assert(alone.subrange(0, n) =~= word);
        lemma_scan_copy(alone, text);
        lemma_scan_bounds(text, 0);
        assert(lexemes_from(text, 0) == seq![
            Lexeme { kind: kind, bytes: text.subrange(0, n) },
        ] + lexemes_from(text, n));
        assert(text[n] == 0x20);
        if later.len() > 0 {
            assert(is_token(later[0]));
            let next = later[0].bytes + seq![0x20u8];
            assert(next[0] == later[0].bytes[0]);
            assert(!is_space(next[0]));
            assert(tail[0] == later[0].bytes[0]);
            assert(text[n + 1] == tail[0]);
        } else {
            assert(tail =~= Seq::<u8>::empty());
        }
        lemma_run_is(text, n + 1, Run::Space, n + 1);
        assert(scan(text, n) == (TokenKind::Whitespace, n + 1));
        assert(lexemes_from(text, n) == lexemes_from(text, n + 1));
        lemma_lexemes_suffix(text, n + 1, n + 1);
        assert(text.skip(n + 1) =~= tail);
        assert(seq![Lexeme { kind: kind, bytes: word }] + later =~= toks);
    } else {
        assert(render(toks) =~= Seq::<u8>::empty());
    }
}

/// What the lexer finds are tokens.
pub proof fn lemma_lexed_are_tokens(data: Seq<u8>, pos: int)
    requires
        0 <= pos <= data.len(),
    ensures
        all_tokens(lexemes_from(data, pos)),
    decreases data.len() - pos,
{
    if pos < data.len() {
        lemma_scan_bounds(data, pos);
        let kind = scan(data, pos).0;
        let end = scan(data, pos).1;
        lemma_lexed_are_tokens(data, end);
        let later = lexemes_from(data, end);
        if !is_blank(kind) {
            let word = data.subrange(pos, end);
            let n = end - pos;
            let here = data.skip(pos);
            let alone = word + seq![0x20u8];
            lemma_scan_suffix(data, pos, pos);
            assert(here.subrange(0, n) =~= word);
            assert(alone.subrange(0, n) =~= word);
            lemma_scan_copy(here, alone);
            let found = Lexeme { kind: kind, bytes: word };
            assert(is_token(found));
            let toks = lexemes_from(data, pos);
            assert forall|i: int| 0 <= i < toks.len() implies is_token(#[trigger] toks[i]) by {
                if i > 0 {
                    assert(toks[i] == later[i - 1]);
                }
            }
        }
    }
}

/// The round trip: the tokens of a source text, written out with one space
/// after each and lexed again, are the same tokens. Whitespace and comments
/// are part of neither sequence.
pub proof fn lemma_lex_render_round_trip(data: Seq<u8>)
    ensures
        lexemes_from(render(lexemes_from(data, 0)), 0) == lexemes_from(data, 0),
{
    lemma_lexed_are_tokens(data, 0);
    lemma_lex_of_render(lexemes_from(data, 0));
}

/// The tokens that the parser reads are the tokens of `lexemes_from`: the
/// same kinds, and the texts of the same bytes.
pub proof fn lemma_tokens_are_lexemes(data: Seq<u8>, pos: int)
    requires
        0 <= pos <= data.len(),
    ensures
        tokens_from(data, pos).len() == lexemes_from(data, pos).len(),
        forall|i: int|
            0 <= i < tokens_from(data, pos).len() ==> (#[trigger] tokens_from(data, pos)[i]).kind
                == lexemes_from(data, pos)[i].kind && tokens_from(data, pos)[i].text
                == token_text(lexemes_from(data, pos)[i].bytes),
    decreases data.len() - pos,
{
    if pos < data.len() {
        lemma_scan_bounds(data, pos);
        lemma_tokens_are_lexemes(data, scan(data, pos).1);
    }
}

} // verus!
