//! Lexical analysis of copybook source.
//!
//! The public surface is small: `lex` for fixed-format source and
//! `lex_with_format` for either format, each returning both the
//! accumulated tokens (ending with `Eof`) and every error seen along the
//! way.
use crate::error::LexerError;
use crate::lexer::fixed_format::{fixed_lines, line_in_source, lines_match, LineModel, LogicalLine};
use crate::lexer::free_format::free_lines;
use crate::lexer::scanner::{
    lemma_tokens_agree_concat, line_place, scan_from, scan_line, scan_line_spec, token_models,
    tokens_agree, LinePlace,
};
use crate::lexer::token::{Token, TokenKind};
use crate::span::Span;
use crate::text::{is_char_start, str_range};
use vstd::prelude::*;
use vstd::string::*;

pub mod fixed_format;
pub mod free_format;
pub mod comment_laws;
pub mod line_scan_laws;
pub mod logical_line_laws;
pub mod properties;
pub mod scanner;
pub mod token;
pub mod token_extent_laws;

verus! {

/// The two layouts of copybook source.
#[derive(Debug, Clone, Copy, PartialEq, Eq, Structural)]
pub enum SourceFormat {
    /// Card images: sequence area, indicator column, text in columns 8-72.
    Fixed,
    /// Free format: every byte is code, `*>` starts an inline comment.
    Free,
}

/// The tokens and errors of the logical line that `m` describes.
pub open spec fn scan_model(b: Seq<u8>, m: LineModel) -> (Seq<(TokenKind, Span)>, Seq<LexerError>) {
    scan_from(
        b.subrange(m.start, m.end),
        0,
        true,
        LinePlace { base: m.start, line: m.line, col: m.col },
    )
}

/// The tokens and errors of the logical lines `ms`, in order.
pub open spec fn scan_models(b: Seq<u8>, ms: Seq<LineModel>) -> (
    Seq<(TokenKind, Span)>,
    Seq<LexerError>,
)
    decreases ms.len(),
{
    if ms.len() == 0 {
        (seq![], seq![])
    } else {
        let before = scan_models(b, ms.drop_last());
        let last = scan_model(b, ms.last());
        (before.0 + last.0, before.1 + last.1)
    }
}

/// The end-of-file token: an empty span at the end of the source, on the
/// line after the last physical line, column 1.
pub open spec fn eof_token(b: Seq<u8>, eof_line: u32) -> (TokenKind, Span) {
    (
        TokenKind::Eof,
        Span { start: b.len() as usize, end: b.len() as usize, line: eof_line, column: 1 },
    )
}

/// Tokens and errors of a source whose pass produced the logical lines
/// `ms` and the errors `pre_errors`: the tokens of each line in order, then
/// `Eof`; the pass's errors, then each line's scan errors in order.
pub open spec fn lexed(b: Seq<u8>, ms: Seq<LineModel>, pre_errors: Seq<LexerError>, eof_line: u32) -> (
    Seq<(TokenKind, Span)>,
    Seq<LexerError>,
) {
    let s = scan_models(b, ms);
    (s.0.push(eof_token(b, eof_line)), pre_errors + s.1)
}

/// What lexing the bytes `b` in format `format` yields.
pub open spec fn lex_spec(b: Seq<u8>, format: SourceFormat) -> (
    Seq<(TokenKind, Span)>,
    Seq<LexerError>,
) {
    match format {
        SourceFormat::Fixed => {
            let f = fixed_lines(b);
            lexed(b, f.0, f.1, f.2)
        },
        SourceFormat::Free => {
            let f = free_lines(b);
            lexed(b, f.0, seq![], f.1)
        },
    }
}

proof fn lemma_line_scan_is_model_scan(line: LogicalLine, m: LineModel, b: Seq<u8>)
    requires
        lines_match(seq![line], seq![m], b),
        b.len() <= usize::MAX,
    ensures
        line_in_source(line, b),
        scan_line_spec(line) == scan_model(b, m),
{
    assert(seq![line][0] == line);
    assert(seq![m][0] == m);
    assert(line.segments@[0].source_start == m.start);
    assert(line_place(line) == LinePlace { base: m.start, line: m.line, col: m.col });
}

/// `lines_match` at one index.
pub open spec fn line_matches_at(
    lines: Seq<LogicalLine>,
    models: Seq<LineModel>,
    b: Seq<u8>,
    k: int,
) -> bool {
    lines_match(seq![lines[k]], seq![models[k]], b)
}

fn lex_lines<'a>(
    source: &'a str,
    lines: &Vec<LogicalLine>,
    models: Ghost<Seq<LineModel>>,
    errors: &mut Vec<LexerError>,
) -> (tokens: Vec<Token<'a>>)
    requires
        lines_match(lines@, models@, source.spec_bytes()),
    ensures
        token_models(tokens@) == scan_models(source.spec_bytes(), models@).0,
        final(errors)@ == old(errors)@ + scan_models(source.spec_bytes(), models@).1,
        tokens_agree(source.spec_bytes(), tokens@),
{
    let ghost b = source.spec_bytes();
    let sb = source.as_bytes();
    let _n = sb.len();
    let mut tokens: Vec<Token<'a>> = Vec::new();
    let mut i: usize = 0;
    proof {
        reveal(tokens_agree);
        assert(models@.take(0) =~= seq![]);
        assert(token_models(tokens@) =~= seq![]);
        assert(errors@ =~= old(errors)@ + seq![]);
    }
    while i < lines.len()
        invariant
            b == source.spec_bytes(),
            b.len() <= usize::MAX,
            lines_match(lines@, models@, b),
            i <= lines@.len(),
            token_models(tokens@) == scan_models(b, models@.take(i as int)).0,
            errors@ == old(errors)@ + scan_models(b, models@.take(i as int)).1,
            tokens_agree(b, tokens@),
        decreases lines@.len() - i,
    {
        let ghost m = models@[i as int];
        proof {
            assert(line_matches_at(lines@, models@, b, i as int));
            assert(lines_match(seq![lines@[i as int]], seq![m], b));
            lemma_line_scan_is_model_scan(lines@[i as int], m, b);
        }
        let ghost toks0 = token_models(tokens@);
        let ghost errs0 = errors@;
        let ghost before = tokens@;
        scan_line(&lines[i], source, &mut tokens, errors);
        proof {
            let added = tokens@.subrange(before.len() as int, tokens@.len() as int);
            assert(tokens@ =~= before + added);
            lemma_tokens_agree_concat(b, before, added);
            let prefix = models@.take(i + 1);
            assert(prefix.drop_last() =~= models@.take(i as int));
            assert(prefix.last() == m);
            assert(errs0 + scan_model(b, m).1 == old(errors)@ + (scan_models(
                b,
                models@.take(i as int),
            ).1 + scan_model(b, m).1));
        }
        i = i + 1;
    }
    proof {
        assert(models@.take(i as int) =~= models@);
    }
    tokens
}

/// Lexes fixed-format source into tokens (ending with `Eof`) and every
/// error found on the way.
pub fn lex(source: &str) -> (r: (Vec<Token<'_>>, Vec<LexerError>))
    ensures
        token_models(r.0@) == lex_spec(source.spec_bytes(), SourceFormat::Fixed).0,
        r.1@ == lex_spec(source.spec_bytes(), SourceFormat::Fixed).1,
        tokens_agree(source.spec_bytes(), r.0@),
{
    lex_with_format(source, SourceFormat::Fixed)
}

/// Lexes source in the given format into tokens (ending with `Eof`) and
/// every error found on the way.
pub fn lex_with_format(source: &str, format: SourceFormat) -> (r: (Vec<Token<'_>>, Vec<LexerError>))
    ensures
        token_models(r.0@) == lex_spec(source.spec_bytes(), format).0,
        r.1@ == lex_spec(source.spec_bytes(), format).1,
        tokens_agree(source.spec_bytes(), r.0@),
{
    let ghost b = source.spec_bytes();
    let (lines, mut errors, eof_line) = match format {
        SourceFormat::Fixed => fixed_format::preprocess_counted(source),
        SourceFormat::Free => {
            let (lines, eof_line) = free_format::preprocess_counted(source);
            (lines, Vec::new(), eof_line)
        },
    };
    let ghost models = match format {
        SourceFormat::Fixed => fixed_lines(b).0,
        SourceFormat::Free => free_lines(b).0,
    };
    let ghost pre_errors = errors@;
    let mut tokens = lex_lines(source, &lines, Ghost(models), &mut errors);
    let sb = source.as_bytes();
    let n = sb.len();
    let empty = str_range(source, n, n);
    let ghost before = tokens@;
    tokens.push(Token::new(TokenKind::Eof, Span::new(n, n, eof_line, 1), empty));
    proof {
        assert(token_models(tokens@) =~= token_models(before).push(eof_token(b, eof_line)));
        reveal(tokens_agree);
        assert forall|k: int| 0 <= k < tokens@.len() implies {
            &&& (#[trigger] tokens@[k]).span.start <= tokens@[k].span.end <= b.len()
            &&& is_char_start(b, tokens@[k].span.start as int)
            &&& is_char_start(b, tokens@[k].span.end as int)
            &&& tokens@[k].text.spec_bytes() == b.subrange(
                tokens@[k].span.start as int,
                tokens@[k].span.end as int,
            )
        } by {
            if k < before.len() {
                assert(tokens@[k] == before[k]);
            }
        }
    }
    (tokens, errors)
}

} // verus!
