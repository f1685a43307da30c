//! Grammar validator: checks phase-sequence strings against the RWP
//! sequence grammar.
//!
//! ```text
//! sequence     = or-expr
//! or-expr      = and-expr *( "," and-expr )
//! and-expr     = primary  *( "+" primary  )
//! primary      = phase-id / "(" or-expr ")" / "[" or-expr "]"
//! phase-id     = "P-" 2DIGIT [ "-" 1ALPHA ]      (ALPHA upper-case)
//! ```
//!
//! Whitespace (space, tab, CR, LF) and `;` line comments separate tokens.
//! Failures carry a `GRM-N` code: GRM-1 invalid character, GRM-2 malformed
//! phase id, GRM-3 parse error, GRM-4 empty sequence.
use vstd::prelude::*;
use vstd::string::StringSliceAdditionalSpecFns;
use vstd::utf8::{valid_utf8, decode_utf8};
use crate::text::{decimal, spaces, push_str, push_decimal, push_spaces, owned, str_from_utf8};
use crate::{Category, CategoryResult, Failure, FailureKind, FailureView, Source};
use crate::{failure_views, tally_of, tally_item, tally_items, enumeration_failure};
use crate::validators::paths::{extension_of, extension_spec, file_name_of, file_name_spec, sort_paths, sorted_paths, str_views};
use crate::validators::walk::{walk, walk_spec, ClaimRule, Node};

verus! {

// ---------------------------------------------------------------------------
// Tokens and the lexical specification
// ---------------------------------------------------------------------------

#[derive(Debug, Clone, Copy, PartialEq, Eq, Structural)]
pub enum TokenKind {
    PhaseId,
    Comma,
    Plus,
    LParen,
    RParen,
    LBracket,
    RBracket,
}

/// A token: its kind and the byte range `[position, end)` it covers.
#[derive(Debug, Clone, Copy)]
pub struct Token {
    pub kind: TokenKind,
    pub position: usize,
    pub end: usize,
}

/// Why the tokenizer stopped.
#[derive(Debug, Clone, Copy, PartialEq, Eq, Structural)]
pub enum LexFault {
    /// A byte outside the grammar's vocabulary (GRM-1).
    InvalidChar(u8),
    /// `P-` not followed by a digit (GRM-2).
    ExpectedDigit,
    /// `P-` followed by a single digit only (GRM-2).
    ExpectedTwoDigits,
    /// A third digit after `P-NN` (GRM-2).
    TooManyDigits,
    /// A lower-case sub-phase letter (GRM-2).
    LowercaseSubPhase,
    /// More than one sub-phase letter (GRM-2).
    LongSubPhase,
}

#[derive(Debug, Clone, Copy, PartialEq, Eq, Structural)]
pub struct LexError {
    pub fault: LexFault,
    pub position: usize,
}

pub open spec fn is_blank(c: u8) -> bool {
    c == 0x20 || c == 0x09 || c == 0x0d || c == 0x0a
}

pub open spec fn is_digit(c: u8) -> bool {
    0x30 <= c <= 0x39
}

pub open spec fn is_upper(c: u8) -> bool {
    0x41 <= c <= 0x5a
}

pub open spec fn is_alpha(c: u8) -> bool {
    is_upper(c) || (0x61 <= c <= 0x7a)
}

pub open spec fn punct(c: u8) -> Option<TokenKind> {
    if c == 0x2c {
        Some(TokenKind::Comma)
    } else if c == 0x2b {
        Some(TokenKind::Plus)
    } else if c == 0x28 {
        Some(TokenKind::LParen)
    } else if c == 0x29 {
        Some(TokenKind::RParen)
    } else if c == 0x5b {
        Some(TokenKind::LBracket)
    } else if c == 0x5d {
        Some(TokenKind::RBracket)
    } else {
        None
    }
}

/// The index of the first line feed at or after `j`, or the length.
pub open spec fn comment_end(b: Seq<u8>, j: int) -> int
    decreases b.len() - j,
{
    if 0 <= j < b.len() && b[j] != 0x0a {
        comment_end(b, j + 1)
    } else {
        j
    }
}

pub proof fn lemma_comment_end(b: Seq<u8>, j: int)
    requires
        0 <= j <= b.len(),
    ensures
        j <= comment_end(b, j) <= b.len(),
        comment_end(b, j) == b.len() || b[comment_end(b, j)] == 0x0a,
        forall|k: int| j <= k < comment_end(b, j) ==> b[k] != 0x0a,
    decreases b.len() - j,
{
    if j < b.len() && b[j] != 0x0a {
        lemma_comment_end(b, j + 1);
    }
}

/// Scans a phase id whose `P-` starts at `s`; returns the end of the id.
pub open spec fn phase_scan(b: Seq<u8>, s: int) -> Result<int, LexError> {
    let p = s + 2;
    if !(p < b.len() && is_digit(b[p])) {
        Err(LexError { fault: LexFault::ExpectedDigit, position: s as usize })
    } else if !(p + 1 < b.len() && is_digit(b[p + 1])) {
        Err(LexError { fault: LexFault::ExpectedTwoDigits, position: s as usize })
    } else if p + 2 < b.len() && is_digit(b[p + 2]) {
        Err(LexError { fault: LexFault::TooManyDigits, position: s as usize })
    } else if p + 3 < b.len() && b[p + 2] == 0x2d && is_alpha(b[p + 3]) {
        if !is_upper(b[p + 3]) {
            Err(LexError { fault: LexFault::LowercaseSubPhase, position: (p + 3) as usize })
        } else if p + 4 < b.len() && is_alpha(b[p + 4]) {
            Err(LexError { fault: LexFault::LongSubPhase, position: (p + 4) as usize })
        } else {
            Ok(p + 4)
        }
    } else {
        Ok(p + 2)
    }
}

pub open spec fn cons_token(t: Token, r: Result<Seq<Token>, LexError>) -> Result<Seq<Token>, LexError> {
    match r {
        Ok(ts) => Ok(seq![t] + ts),
        Err(e) => Err(e),
    }
}

pub open spec fn prepend_tokens(ts: Seq<Token>, r: Result<Seq<Token>, LexError>) -> Result<Seq<Token>, LexError> {
    match r {
        Ok(rest) => Ok(ts + rest),
        Err(e) => Err(e),
    }
}

/// The token stream of `b[i..]`, or the first lexical error in it.
pub open spec fn lex_from(b: Seq<u8>, i: int) -> Result<Seq<Token>, LexError>
    decreases b.len() - i,
{
    if i < 0 || i >= b.len() {
        Ok(Seq::empty())
    } else {
        let c = b[i];
        if is_blank(c) {
            lex_from(b, i + 1)
        } else if c == 0x3b {
            proof {
                lemma_comment_end(b, i + 1);
            }
            lex_from(b, comment_end(b, i + 1))
        } else if c == 0x50 && i + 1 < b.len() && b[i + 1] == 0x2d {
            match phase_scan(b, i) {
                Err(err) => Err(err),
                Ok(e) => cons_token(
                    Token { kind: TokenKind::PhaseId, position: i as usize, end: e as usize },
                    lex_from(b, e),
                ),
            }
        } else {
            match punct(c) {
                Some(k) => cons_token(Token { kind: k, position: i as usize, end: (i + 1) as usize }, lex_from(b, i + 1)),
                None => Err(LexError { fault: LexFault::InvalidChar(c), position: i as usize }),
            }
        }
    }
}

/// The token stream of a whole input.
pub open spec fn lex(b: Seq<u8>) -> Result<Seq<Token>, LexError> {
    lex_from(b, 0)
}

/// Tokens that lie in order inside `[lo, n)`: each covers a non-empty
/// range, and each ends at or before any later one starts.
pub open spec fn tokens_in_order(t: Seq<Token>, lo: int, n: int) -> bool {
    &&& forall|k: int| 0 <= k < t.len() ==> lo <= (#[trigger] t[k]).position < t[k].end <= n
    &&& forall|j: int, k: int| 0 <= j < k < t.len() ==> (#[trigger] t[j]).end <= (#[trigger] t[k]).position
}

proof fn lemma_cons_in_order(tok: Token, ts: Seq<Token>, n: int)
    requires
        tok.position < tok.end <= n,
        tokens_in_order(ts, tok.end as int, n),
    ensures
        tokens_in_order(seq![tok] + ts, tok.position as int, n),
{
    let all = seq![tok] + ts;
    assert forall|j: int, k: int| 0 <= j < k < all.len() implies (#[trigger] all[j]).end <= (
    #[trigger] all[k]).position by {
        assert(all[k] == ts[k - 1]);
        if j > 0 {
            assert(all[j] == ts[j - 1]);
        } else {
            assert(tok.end <= ts[k - 1].position);
        }
    }
    assert forall|k: int| 0 <= k < all.len() implies tok.position <= (#[trigger] all[k]).position < all[k].end
        <= n by {
        if k > 0 {
            assert(all[k] == ts[k - 1]);
        }
    }
}

proof fn lemma_phase_scan_bounds(b: Seq<u8>, s: int)
    requires
        0 <= s < b.len(),
        b.len() <= usize::MAX,
    ensures
        match phase_scan(b, s) {
            Ok(e) => s < e <= b.len(),
            Err(err) => s <= err.position < b.len(),
        },
{
}

proof fn lemma_lex_from_positions(b: Seq<u8>, i: int)
    requires
        0 <= i,
        b.len() <= usize::MAX,
    ensures
        match lex_from(b, i) {
            Ok(t) => tokens_in_order(t, i, b.len() as int),
            Err(e) => i <= e.position < b.len(),
        },
    decreases b.len() - i,
{
    if i < b.len() {
        let c = b[i];
        if is_blank(c) {
            lemma_lex_from_positions(b, i + 1);
        } else if c == 0x3b {
            lemma_comment_end(b, i + 1);
            lemma_lex_from_positions(b, comment_end(b, i + 1));
        } else if c == 0x50 && i + 1 < b.len() && b[i + 1] == 0x2d {
            lemma_phase_scan_bounds(b, i);
            if let Ok(e) = phase_scan(b, i) {
                lemma_lex_from_positions(b, e);
                if let Ok(ts) = lex_from(b, e) {
                    lemma_cons_in_order(
                        Token { kind: TokenKind::PhaseId, position: i as usize, end: e as usize },
                        ts,
                        b.len() as int,
                    );
                }
            }
        } else if let Some(k) = punct(c) {
            lemma_lex_from_positions(b, i + 1);
            if let Ok(ts) = lex_from(b, i + 1) {
                lemma_cons_in_order(Token { kind: k, position: i as usize, end: (i + 1) as usize }, ts, b.len() as int);
            }
        }
    }
}

/// The lexer's tokens lie in increasing order inside the input, and a
/// lexical error is reported at an offset inside the input.
pub proof fn law_lexer_positions_inside_input(b: Seq<u8>)
    requires
        b.len() <= usize::MAX,
    ensures
        match lex(b) {
            Ok(t) => tokens_in_order(t, 0, b.len() as int),
            Err(e) => e.position < b.len(),
        },
{
    lemma_lex_from_positions(b, 0);
}

/// Space, tab, carriage return and line feed between tokens are skipped:
/// the token stream from such a byte is the token stream after it.
pub proof fn law_whitespace_is_skipped(b: Seq<u8>, i: int)
    requires
        0 <= i < b.len(),
        b[i] == 0x20 || b[i] == 0x09 || b[i] == 0x0d || b[i] == 0x0a,
    ensures
        lex_from(b, i) == lex_from(b, i + 1),
{
}

proof fn lemma_comment_end_push(b: Seq<u8>, c: u8, j: int)
    requires
        0 <= j <= b.len(),
    ensures
        comment_end(b, j) < b.len() ==> comment_end(b.push(c), j) == comment_end(b, j),
        comment_end(b, j) == b.len() ==> (comment_end(b.push(c), j) == b.len() && c == 0x0a) || (comment_end(
            b.push(c),
            j,
        ) == b.len() + 1 && c != 0x0a),
    decreases b.len() - j,
{
    let bp = b.push(c);
    if j < b.len() {
        assert(bp[j] == b[j]);
        if b[j] != 0x0a {
            lemma_comment_end_push(b, c, j + 1);
        }
    } else {
        assert(bp[j] == c);
        if c != 0x0a {
            assert(comment_end(bp, j + 1) == j + 1);
        }
    }
}

proof fn lemma_lex_push_blank(b: Seq<u8>, c: u8, i: int)
    requires
        c == 0x20 || c == 0x09 || c == 0x0d || c == 0x0a,
        0 <= i <= b.len(),
    ensures
        lex_from(b.push(c), i) == lex_from(b, i),
    decreases b.len() - i,
{
    let bp = b.push(c);
    assert forall|k: int| 0 <= k < b.len() implies bp[k] == b[k] by {}
    assert(bp[b.len() as int] == c);
    if i == b.len() {
        assert(lex_from(bp, i + 1) == Ok::<Seq<Token>, LexError>(Seq::empty()));
    } else {
        let x = b[i];
        if is_blank(x) {
            lemma_lex_push_blank(b, c, i + 1);
        } else if x == 0x3b {
            lemma_comment_end(b, i + 1);
            lemma_comment_end_push(b, c, i + 1);
            let e = comment_end(b, i + 1);
            if e < b.len() {
                lemma_lex_push_blank(b, c, e);
            } else {
                lemma_lex_push_blank(b, c, b.len() as int);
                if c != 0x0a {
                    assert(lex_from(bp, (b.len() + 1) as int) == Ok::<Seq<Token>, LexError>(Seq::empty()));
                }
            }
        } else if x == 0x50 && i + 1 < b.len() && b[i + 1] == 0x2d {
            assert(phase_scan(bp, i) == phase_scan(b, i));
            if let Ok(e) = phase_scan(b, i) {
                assert(i < e <= b.len());
                lemma_lex_push_blank(b, c, e);
            }
        } else if x == 0x50 && i + 1 == b.len() {
            assert(!(bp[i + 1] == 0x2d));
        } else if punct(x) is Some {
            lemma_lex_push_blank(b, c, i + 1);
        }
    }
}

/// A blank byte (space, tab, CR or LF) at the end of a text changes none of
/// its tokens and none of its lexical errors: in particular a CRLF line end
/// lexes as an LF one.
pub proof fn law_trailing_whitespace_changes_no_token(b: Seq<u8>, c: u8)
    requires
        c == 0x20 || c == 0x09 || c == 0x0d || c == 0x0a,
    ensures
        lex(b.push(c)) == lex(b),
{
    lemma_lex_push_blank(b, c, 0);
}

proof fn lemma_lex_errors_not_blank(b: Seq<u8>, i: int)
    requires
        0 <= i,
        b.len() <= usize::MAX,
    ensures
        lex_from(b, i) matches Err(e) ==> e.position < b.len() && b[e.position as int] != 0x20 && b[e.position as int]
            != 0x09 && b[e.position as int] != 0x0d && b[e.position as int] != 0x0a,
    decreases b.len() - i,
{
    if i < b.len() {
        let c = b[i];
        if is_blank(c) {
            lemma_lex_errors_not_blank(b, i + 1);
        } else if c == 0x3b {
            lemma_comment_end(b, i + 1);
            lemma_lex_errors_not_blank(b, comment_end(b, i + 1));
        } else if c == 0x50 && i + 1 < b.len() && b[i + 1] == 0x2d {
            lemma_phase_scan_bounds(b, i);
            if let Ok(e) = phase_scan(b, i) {
                lemma_lex_errors_not_blank(b, e);
            }
        } else if let Some(k) = punct(c) {
            lemma_lex_errors_not_blank(b, i + 1);
        }
    }
}

/// No space, tab, carriage return or line feed is ever reported as a
/// lexical error: the byte at the offset of a lexer failure is none of them.
pub proof fn law_whitespace_never_fails_lexing(b: Seq<u8>)
    requires
        b.len() <= usize::MAX,
    ensures
        lex(b) matches Err(e) ==> e.position < b.len() && b[e.position as int] != 0x20 && b[e.position as int] != 0x09
            && b[e.position as int] != 0x0d && b[e.position as int] != 0x0a,
{
    lemma_lex_errors_not_blank(b, 0);
}

/// A sequence file passes or fails alike whether its last line ends with
/// LF, CRLF, or trailing blanks: appending a space, tab, CR or LF changes
/// nothing about whether it passes.
pub proof fn law_sequence_file_line_endings_do_not_matter(b: Seq<u8>, c: u8)
    requires
        c == 0x20 || c == 0x09 || c == 0x0d || c == 0x0a,
    ensures
        seq_text_outcome(b.push(c)) is Ok <==> seq_text_outcome(b) is Ok,
{
    law_trailing_whitespace_changes_no_token(b, c);
    law_sequence_file_passes_exactly_on_grammar(b);
    law_sequence_file_passes_exactly_on_grammar(b.push(c));
}

fn is_digit_byte(c: u8) -> (r: bool)
    ensures
        r == is_digit(c),
{
    0x30 <= c && c <= 0x39
}

fn is_upper_byte(c: u8) -> (r: bool)
    ensures
        r == is_upper(c),
{
    0x41 <= c && c <= 0x5a
}

fn is_alpha_byte(c: u8) -> (r: bool)
    ensures
        r == is_alpha(c),
{
    is_upper_byte(c) || (0x61 <= c && c <= 0x7a)
}

/// Tokenizes `input`, dropping whitespace and `;` line comments.
pub fn tokenize(input: &str) -> (r: Result<Vec<Token>, LexError>)
    ensures
        match lex(input.spec_bytes()) {
            Ok(ts) => r matches Ok(v) && v@ == ts,
            Err(e) => r == Err::<Vec<Token>, LexError>(e),
        },
{
    let bytes = input.as_bytes();
    let ghost b = bytes@;
    let mut pos: usize = 0;
    let mut tokens: Vec<Token> = Vec::new();
    assert(tokens@ + Seq::<Token>::empty() =~= Seq::<Token>::empty());
    assert(prepend_tokens(tokens@, lex_from(b, 0)) =~= lex_from(b, 0)) by {
        match lex_from(b, 0) {
            Ok(rest) => { assert(tokens@ + rest =~= rest); }
            Err(_) => {}
        }
    }

    while pos < bytes.len()
        invariant
            bytes@ == b,
            b == input.spec_bytes(),
            pos <= b.len(),
            lex_from(b, 0) == prepend_tokens(tokens@, lex_from(b, pos as int)),
            forall|k: int| 0 <= k < tokens@.len() ==> tokens@[k].end <= pos,
        decreases b.len() - pos,
    {
        let c = bytes[pos];
        if c == 0x20 || c == 0x09 || c == 0x0d || c == 0x0a {
            pos = pos + 1;
            continue;
        }
        if c == 0x3b {
            let ghost start = pos as int;
            proof {
                lemma_comment_end(b, start + 1);
            }
            while pos < bytes.len() && bytes[pos] != 0x0a
                invariant
                    bytes@ == b,
                    start <= pos <= b.len(),
                    comment_end(b, pos as int) == comment_end(b, start),
                decreases b.len() - pos,
            {
                pos = pos + 1;
            }
            continue;
        }
        if c == 0x50 && pos + 1 < bytes.len() && bytes[pos + 1] == 0x2d {
            let start = pos;
            pos = pos + 2;
            if pos >= bytes.len() || !is_digit_byte(bytes[pos]) {
                return Err(LexError { fault: LexFault::ExpectedDigit, position: start });
            }
            pos = pos + 1;
            if pos >= bytes.len() || !is_digit_byte(bytes[pos]) {
                return Err(LexError { fault: LexFault::ExpectedTwoDigits, position: start });
            }
            pos = pos + 1;
            if pos < bytes.len() && is_digit_byte(bytes[pos]) {
                return Err(LexError { fault: LexFault::TooManyDigits, position: start });
            }
            if pos < bytes.len() && bytes[pos] == 0x2d && pos + 1 < bytes.len() && is_alpha_byte(bytes[pos + 1]) {
                let sub = bytes[pos + 1];
                if !is_upper_byte(sub) {
                    return Err(LexError { fault: LexFault::LowercaseSubPhase, position: pos + 1 });
                }
                pos = pos + 2;
                if pos < bytes.len() && is_alpha_byte(bytes[pos]) {
                    return Err(LexError { fault: LexFault::LongSubPhase, position: pos });
                }
            }
            let tok = Token { kind: TokenKind::PhaseId, position: start, end: pos };
            let ghost before = tokens@;
            tokens.push(tok);
            proof {
                match lex_from(b, pos as int) {
                    Ok(rest) => { assert(before + (seq![tok] + rest) =~= tokens@ + rest); }
                    Err(_) => {}
                }
            }
            continue;
        }
        let kind = if c == 0x2c {
            TokenKind::Comma
        } else if c == 0x2b {
            TokenKind::Plus
        } else if c == 0x28 {
            TokenKind::LParen
        } else if c == 0x29 {
            TokenKind::RParen
        } else if c == 0x5b {
            TokenKind::LBracket
        } else if c == 0x5d {
            TokenKind::RBracket
        } else {
            return Err(LexError { fault: LexFault::InvalidChar(c), position: pos });
        };
        let tok = Token { kind, position: pos, end: pos + 1 };
        let ghost before = tokens@;
        tokens.push(tok);
        pos = pos + 1;
        proof {
            match lex_from(b, pos as int) {
                Ok(rest) => { assert(before + (seq![tok] + rest) =~= tokens@ + rest); }
                Err(_) => {}
            }
        }
    }
    proof {
        assert(tokens@ + Seq::<Token>::empty() =~= tokens@);
    }
    Ok(tokens)
}


// ---------------------------------------------------------------------------
// Parser specification (recursive descent over the token sequence)
// ---------------------------------------------------------------------------

/// A parse error as (code, message, byte position).
pub type ParseFailure = (Seq<char>, Seq<char>, int);

pub open spec fn grm3(message: Seq<char>, position: int) -> ParseFailure {
    ("GRM-3"@, message, position)
}

pub open spec fn after_comma(e: ParseFailure) -> ParseFailure {
    grm3("missing operand after ',': "@ + e.1, e.2)
}

pub open spec fn after_plus(e: ParseFailure) -> ParseFailure {
    grm3("missing operand after '+': "@ + e.1, e.2)
}

pub open spec fn is_kind_at(t: Seq<Token>, i: int, k: TokenKind) -> bool {
    0 <= i < t.len() && t[i].kind == k
}

/// `or-expr` starting at token `i`; `Ok(j)` is the index after it.
pub open spec fn p_or(t: Seq<Token>, n: int, i: int) -> Result<int, ParseFailure>
    decreases t.len() - i, 2int,
{
    match p_and(t, n, i) {
        Err(e) => Err(e),
        Ok(j) => if i < j <= t.len() {
            p_or_tail(t, n, j)
        } else {
            Ok(j)
        },
    }
}

/// The `*( "," and-expr )` repetition of an `or-expr`, from token `j`.
pub open spec fn p_or_tail(t: Seq<Token>, n: int, j: int) -> Result<int, ParseFailure>
    decreases t.len() - j, 3int,
{
    if is_kind_at(t, j, TokenKind::Comma) {
        match p_and(t, n, j + 1) {
            Err(e) => Err(after_comma(e)),
            Ok(k) => if j < k <= t.len() {
                p_or_tail(t, n, k)
            } else {
                Ok(k)
            },
        }
    } else {
        Ok(j)
    }
}

/// `and-expr` starting at token `i`.
pub open spec fn p_and(t: Seq<Token>, n: int, i: int) -> Result<int, ParseFailure>
    decreases t.len() - i, 1int,
{
    match p_primary(t, n, i) {
        Err(e) => Err(e),
        Ok(j) => if i < j <= t.len() {
            p_and_tail(t, n, j)
        } else {
            Ok(j)
        },
    }
}

/// The `*( "+" primary )` repetition of an `and-expr`, from token `j`.
pub open spec fn p_and_tail(t: Seq<Token>, n: int, j: int) -> Result<int, ParseFailure>
    decreases t.len() - j, 3int,
{
    if is_kind_at(t, j, TokenKind::Plus) {
        match p_primary(t, n, j + 1) {
            Err(e) => Err(after_plus(e)),
            Ok(k) => if j < k <= t.len() {
                p_and_tail(t, n, k)
            } else {
                Ok(k)
            },
        }
    } else {
        Ok(j)
    }
}

/// `primary` starting at token `i`.
pub open spec fn p_primary(t: Seq<Token>, n: int, i: int) -> Result<int, ParseFailure>
    decreases t.len() - i, 0int,
{
    if !(0 <= i < t.len()) {
        Err(grm3("expected phase-id, '(', or '['"@, n))
    } else {
        match t[i].kind {
            TokenKind::PhaseId => Ok(i + 1),
            TokenKind::LParen => match p_or(t, n, i + 1) {
                Err(e) => Err(e),
                Ok(j) => if is_kind_at(t, j, TokenKind::RParen) {
                    Ok(j + 1)
                } else {
                    Err(grm3("unbalanced '(' — expected matching ')'"@, t[i].position as int))
                },
            },
            TokenKind::LBracket => match p_or(t, n, i + 1) {
                Err(e) => Err(e),
                Ok(j) => if is_kind_at(t, j, TokenKind::RBracket) {
                    Ok(j + 1)
                } else {
                    Err(grm3("unbalanced '[' — expected matching ']'"@, t[i].position as int))
                },
            },
            _ => Err(
                grm3(
                    "unexpected token at position "@ + decimal(t[i].position as nat)
                        + ": expected phase-id, '(', or '['"@,
                    t[i].position as int,
                ),
            ),
        }
    }
}

/// A whole sequence: a non-empty token stream that is exactly one `or-expr`.
pub open spec fn seq_parse(t: Seq<Token>, n: int) -> Result<(), ParseFailure> {
    if t.len() == 0 {
        Err(("GRM-4"@, "empty sequence (no tokens)"@, 0))
    } else {
        match p_or(t, n, 0) {
            Err(e) => Err(e),
            Ok(j) => if j < t.len() {
                Err(grm3("trailing content after end of sequence"@, t[j].position as int))
            } else {
                Ok(())
            },
        }
    }
}

// ---------------------------------------------------------------------------
// Parser
// ---------------------------------------------------------------------------

#[derive(Debug)]
pub struct ParseError {
    pub code: &'static str,
    pub message: String,
    pub position: usize,
}

impl View for ParseError {
    type V = ParseFailure;

    open spec fn view(&self) -> ParseFailure {
        (self.code@, self.message@, self.position as int)
    }
}

struct Parser<'a> {
    tokens: &'a [Token],
    pos: usize,
    input_len: usize,
}

impl<'a> Parser<'a> {
    fn new(tokens: &'a [Token], input_len: usize) -> (p: Self)
        ensures
            p.tokens@ == tokens@,
            p.pos == 0,
            p.input_len == input_len,
    {
        Parser { tokens, pos: 0, input_len }
    }

    fn peek(&self) -> (r: Option<&Token>)
        ensures
            match r {
                Some(t) => self.pos < self.tokens@.len() && *t == self.tokens@[self.pos as int],
                None => self.pos >= self.tokens@.len(),
            },
    {
        if self.pos < self.tokens.len() {
            Some(&self.tokens[self.pos])
        } else {
            None
        }
    }

    fn next_is(&self, kind: TokenKind) -> (r: bool)
        ensures
            r == is_kind_at(self.tokens@, self.pos as int, kind),
    {
        match self.peek() {
            Some(t) => t.kind == kind,
            None => false,
        }
    }

    fn advance(&mut self)
        requires
            old(self).pos < old(self).tokens@.len(),
        ensures
            final(self).pos == old(self).pos + 1,
            final(self).tokens@ == old(self).tokens@,
            final(self).input_len == old(self).input_len,
    {
        if self.pos < self.tokens.len() {
            self.pos = self.pos + 1;
        }
    }

    fn position_or_eof(&self) -> (r: usize)
        ensures
            r == if self.pos < self.tokens@.len() {
                self.tokens@[self.pos as int].position
            } else {
                self.input_len
            },
    {
        match self.peek() {
            Some(t) => t.position,
            None => self.input_len,
        }
    }

    fn parse_sequence(&mut self) -> (r: Result<(), ParseError>)
        requires
            old(self).pos == 0,
        ensures
            match seq_parse(old(self).tokens@, old(self).input_len as int) {
                Ok(_) => r is Ok,
                Err(e) => r matches Err(x) && x@ == e,
            },
    {
        if self.tokens.len() == 0 {
            return Err(ParseError { code: "GRM-4", message: owned("empty sequence (no tokens)"), position: 0 });
        }
        match self.parse_or_expr() {
            Err(e) => return Err(e),
            Ok(()) => {},
        }
        if self.peek().is_some() {
            return Err(ParseError {
                code: "GRM-3",
                message: owned("trailing content after end of sequence"),
                position: self.position_or_eof(),
            });
        }
        Ok(())
    }

    fn parse_or_expr(&mut self) -> (r: Result<(), ParseError>)
        requires
            old(self).pos <= old(self).tokens@.len(),
        ensures
            final(self).tokens@ == old(self).tokens@,
            final(self).input_len == old(self).input_len,
            match p_or(old(self).tokens@, old(self).input_len as int, old(self).pos as int) {
                Ok(j) => r is Ok && final(self).pos == j && old(self).pos < j <= old(self).tokens@.len(),
                Err(e) => r matches Err(x) && x@ == e,
            },
        decreases old(self).tokens@.len() - old(self).pos, 2int,
    {
        let ghost t = self.tokens@;
        let ghost n = self.input_len as int;
        let ghost i0 = self.pos as int;
        match self.parse_and_expr() {
            Err(e) => return Err(e),
            Ok(()) => {},
        }
        while self.next_is(TokenKind::Comma)
            invariant
                self.tokens@ == t,
                self.input_len == n,
                t == old(self).tokens@,
                n == old(self).input_len,
                i0 == old(self).pos,
                i0 < self.pos <= t.len(),
                p_or(t, n, i0) == p_or_tail(t, n, self.pos as int),
            decreases t.len() - self.pos,
        {
            self.advance();
            match self.parse_and_expr() {
                Err(e) => {
                    let mut m = owned("missing operand after ',': ");
                    push_str(&mut m, e.message.as_str());
                    return Err(ParseError { code: "GRM-3", message: m, position: e.position });
                },
                Ok(()) => {},
            }
        }
        Ok(())
    }

    fn parse_and_expr(&mut self) -> (r: Result<(), ParseError>)
        requires
            old(self).pos <= old(self).tokens@.len(),
        ensures
            final(self).tokens@ == old(self).tokens@,
            final(self).input_len == old(self).input_len,
            match p_and(old(self).tokens@, old(self).input_len as int, old(self).pos as int) {
                Ok(j) => r is Ok && final(self).pos == j && old(self).pos < j <= old(self).tokens@.len(),
                Err(e) => r matches Err(x) && x@ == e,
            },
        decreases old(self).tokens@.len() - old(self).pos, 1int,
    {
        let ghost t = self.tokens@;
        let ghost n = self.input_len as int;
        let ghost i0 = self.pos as int;
        match self.parse_primary() {
            Err(e) => return Err(e),
            Ok(()) => {},
        }
        while self.next_is(TokenKind::Plus)
            invariant
                self.tokens@ == t,
                self.input_len == n,
                t == old(self).tokens@,
                n == old(self).input_len,
                i0 == old(self).pos,
                i0 < self.pos <= t.len(),
                p_and(t, n, i0) == p_and_tail(t, n, self.pos as int),
            decreases t.len() - self.pos,
        {
            self.advance();
            match self.parse_primary() {
                Err(e) => {
                    let mut m = owned("missing operand after '+': ");
                    push_str(&mut m, e.message.as_str());
                    return Err(ParseError { code: "GRM-3", message: m, position: e.position });
                },
                Ok(()) => {},
            }
        }
        Ok(())
    }

    fn parse_primary(&mut self) -> (r: Result<(), ParseError>)
        requires
            old(self).pos <= old(self).tokens@.len(),
        ensures
            final(self).tokens@ == old(self).tokens@,
            final(self).input_len == old(self).input_len,
            match p_primary(old(self).tokens@, old(self).input_len as int, old(self).pos as int) {
                Ok(j) => r is Ok && final(self).pos == j && old(self).pos < j <= old(self).tokens@.len(),
                Err(e) => r matches Err(x) && x@ == e,
            },
        decreases old(self).tokens@.len() - old(self).pos, 0int,
    {
        let tok = match self.peek() {
            Some(t) => *t,
            None => {
                return Err(ParseError {
                    code: "GRM-3",
                    message: owned("expected phase-id, '(', or '['"),
                    position: self.input_len,
                });
            },
        };
        match tok.kind {
            TokenKind::PhaseId => {
                self.advance();
                Ok(())
            },
            TokenKind::LParen => {
                self.advance();
                match self.parse_or_expr() {
                    Err(e) => return Err(e),
                    Ok(()) => {},
                }
                if self.next_is(TokenKind::RParen) {
                    self.advance();
                    Ok(())
                } else {
                    Err(ParseError {
                        code: "GRM-3",
                        message: owned("unbalanced '(' — expected matching ')'"),
                        position: tok.position,
                    })
                }
            },
            TokenKind::LBracket => {
                self.advance();
                match self.parse_or_expr() {
                    Err(e) => return Err(e),
                    Ok(()) => {},
                }
                if self.next_is(TokenKind::RBracket) {
                    self.advance();
                    Ok(())
                } else {
                    Err(ParseError {
                        code: "GRM-3",
                        message: owned("unbalanced '[' — expected matching ']'"),
                        position: tok.position,
                    })
                }
            },
            _ => {
                let mut m = owned("unexpected token at position ");
                push_decimal(&mut m, tok.position as u128);
                push_str(&mut m, ": expected phase-id, '(', or '['");
                Err(ParseError { code: "GRM-3", message: m, position: tok.position })
            },
        }
    }
}


// ---------------------------------------------------------------------------
// Failure rendering
// ---------------------------------------------------------------------------

/// What std's `Debug` formatting renders for the byte `c` taken as a `char`.
pub uninterp spec fn char_debug_text(c: u8) -> Seq<char>;

/// std `Debug` formatting of a byte taken as a `char` (quoted, escaped).
#[verifier::external_body]
fn char_debug(c: u8) -> (r: String)
    ensures
        r@ == char_debug_text(c),
{
    format!("{:?}", c as char)
}

pub open spec fn lex_code(f: LexFault) -> Seq<char> {
    match f {
        LexFault::InvalidChar(_) => "GRM-1"@,
        _ => "GRM-2"@,
    }
}

pub open spec fn lex_message(f: LexFault) -> Seq<char> {
    match f {
        LexFault::InvalidChar(c) => "invalid character "@ + char_debug_text(c),
        LexFault::ExpectedDigit => "expected digit after 'P-'"@,
        LexFault::ExpectedTwoDigits => "expected two-digit phase number after 'P-'"@,
        LexFault::TooManyDigits => "phase number must be exactly two digits"@,
        LexFault::LowercaseSubPhase => "sub-phase letter must be uppercase A-Z"@,
        LexFault::LongSubPhase => "sub-phase must be exactly one letter"@,
    }
}

fn lex_code_of(f: LexFault) -> (r: &'static str)
    ensures
        r@ == lex_code(f),
{
    match f {
        LexFault::InvalidChar(_) => "GRM-1",
        _ => "GRM-2",
    }
}

fn lex_message_of(f: LexFault) -> (r: String)
    ensures
        r@ == lex_message(f),
{
    match f {
        LexFault::InvalidChar(c) => {
            let mut m = owned("invalid character ");
            let d = char_debug(c);
            push_str(&mut m, d.as_str());
            m
        },
        LexFault::ExpectedDigit => owned("expected digit after 'P-'"),
        LexFault::ExpectedTwoDigits => owned("expected two-digit phase number after 'P-'"),
        LexFault::TooManyDigits => owned("phase number must be exactly two digits"),
        LexFault::LowercaseSubPhase => owned("sub-phase letter must be uppercase A-Z"),
        LexFault::LongSubPhase => owned("sub-phase must be exactly one letter"),
    }
}

/// Start of the line that holds byte offset `k`.
pub open spec fn line_start(b: Seq<u8>, k: int) -> int
    decreases k,
{
    if k <= 0 {
        0
    } else if b[k - 1] == 0x0a {
        k
    } else {
        line_start(b, k - 1)
    }
}

/// End (exclusive, before the line feed) of the line that holds byte offset `k`.
pub open spec fn line_end(b: Seq<u8>, k: int) -> int
    decreases b.len() - k,
{
    if k >= b.len() {
        b.len() as int
    } else if b[k] == 0x0a {
        k
    } else {
        line_end(b, k + 1)
    }
}

pub open spec fn newline_count(s: Seq<u8>) -> nat
    decreases s.len(),
{
    if s.len() == 0 {
        0
    } else {
        newline_count(s.drop_last()) + if s.last() == 0x0a { 1nat } else { 0nat }
    }
}

pub open spec fn utf8_or_marker(s: Seq<u8>) -> Seq<char> {
    if valid_utf8(s) {
        decode_utf8(s)
    } else {
        "<non-utf8>"@
    }
}

/// The `details` text of a grammar failure: the line holding byte offset
/// `position` (clamped to the input) and a caret under its column.
pub open spec fn pointer_text(b: Seq<u8>, position: int) -> Seq<char> {
    let k = if position < b.len() { position } else { b.len() as int };
    let ls = line_start(b, k);
    let le = line_end(b, k);
    "line "@ + decimal(newline_count(b.subrange(0, ls)) + 1) + ", column "@ + decimal((k - ls + 1) as nat)
        + ":\n"@ + utf8_or_marker(b.subrange(ls, le)) + "\n"@ + spaces((k - ls) as nat) + "^"@
}

proof fn lemma_line_start(b: Seq<u8>, k: int)
    requires
        0 <= k <= b.len(),
    ensures
        0 <= line_start(b, k) <= k,
    decreases k,
{
    if k > 0 && b[k - 1] != 0x0a {
        lemma_line_start(b, k - 1);
    }
}

proof fn lemma_line_end(b: Seq<u8>, k: int)
    requires
        0 <= k <= b.len(),
    ensures
        k <= line_end(b, k) <= b.len(),
    decreases b.len() - k,
{
    if k < b.len() && b[k] != 0x0a {
        lemma_line_end(b, k + 1);
    }
}

/// Renders the line containing byte offset `position` plus a caret under it,
/// prefixed with the 1-based line and column.
pub fn format_position_pointer(text: &str, position: usize) -> (r: String)
    ensures
        r@ == pointer_text(text.spec_bytes(), position as int),
{
    let bytes = text.as_bytes();
    let ghost b = bytes@;
    let clamped = if position < bytes.len() { position } else { bytes.len() };

    let mut ls = clamped;
    while ls > 0 && bytes[ls - 1] != 0x0a
        invariant
            bytes@ == b,
            ls <= clamped <= b.len(),
            line_start(b, clamped as int) == line_start(b, ls as int),
        decreases ls,
    {
        ls = ls - 1;
    }
    let mut le = clamped;
    while le < bytes.len() && bytes[le] != 0x0a
        invariant
            bytes@ == b,
            clamped <= le <= b.len(),
            line_end(b, clamped as int) == line_end(b, le as int),
        decreases b.len() - le,
    {
        le = le + 1;
    }
    let mut count: usize = 0;
    let mut i: usize = 0;
    while i < ls
        invariant
            bytes@ == b,
            ls <= b.len(),
            i <= ls,
            count <= i,
            count == newline_count(b.subrange(0, i as int)),
        decreases ls - i,
    {
        assert(b.subrange(0, i + 1).drop_last() =~= b.subrange(0, i as int));
        if bytes[i] == 0x0a {
            count = count + 1;
        }
        i = i + 1;
    }
    let mut out = owned("line ");
    push_decimal(&mut out, count as u128 + 1);
    push_str(&mut out, ", column ");
    push_decimal(&mut out, (clamped - ls) as u128 + 1);
    push_str(&mut out, ":\n");
    match str_from_utf8(&bytes[ls..le]) {
        Ok(line) => {
            proof {
                vstd::utf8::encode_utf8_decode_utf8(line@);
            }
            push_str(&mut out, line);
        },
        Err(_) => push_str(&mut out, "<non-utf8>"),
    }
    push_str(&mut out, "\n");
    push_spaces(&mut out, clamped - ls);
    push_str(&mut out, "^");
    out
}

/// A grammar failure: the message (starting with its `GRM-N` code) and a
/// pointer to the offending position.
#[derive(Debug)]
pub struct GrammarFailure {
    pub message: String,
    pub details: Option<String>,
}

/// What `parse_seq_text` reports for the bytes `b` of a sequence file:
/// `Ok` when they form exactly one sequence, else the failure text.
pub open spec fn seq_text_outcome(b: Seq<u8>) -> Result<(), (Seq<char>, Seq<char>)> {
    match lex(b) {
        Err(le) => Err(
            (
                lex_code(le.fault) + " "@ + lex_message(le.fault) + " at position "@ + decimal(
                    le.position as nat,
                ),
                pointer_text(b, le.position as int),
            ),
        ),
        Ok(t) => match seq_parse(t, b.len() as int) {
            Ok(_) => Ok(()),
            Err(e) => Err(
                (
                    e.0 + " "@ + e.1 + " (position "@ + decimal(e.2 as nat) + ")"@,
                    pointer_text(b, e.2),
                ),
            ),
        },
    }
}

/// Checks one sequence text.
pub fn parse_seq_text(text: &str) -> (r: Result<(), GrammarFailure>)
    ensures
        match seq_text_outcome(text.spec_bytes()) {
            Ok(_) => r is Ok,
            Err((m, d)) => r matches Err(f) && f.message@ == m && f.details is Some && f.details.unwrap()@ == d,
        },
{
    match tokenize(text) {
        Err(lex_err) => {
            let mut m = owned(lex_code_of(lex_err.fault));
            push_str(&mut m, " ");
            let lm = lex_message_of(lex_err.fault);
            push_str(&mut m, lm.as_str());
            push_str(&mut m, " at position ");
            push_decimal(&mut m, lex_err.position as u128);
            assert(m@ =~= lex_code(lex_err.fault) + " "@ + lex_message(lex_err.fault) + " at position "@ + decimal(lex_err.position as nat));
            Err(GrammarFailure { message: m, details: Some(format_position_pointer(text, lex_err.position)) })
        },
        Ok(tokens) => {
            let mut parser = Parser::new(tokens.as_slice(), text.as_bytes().len());
            match parser.parse_sequence() {
                Ok(()) => Ok(()),
                Err(parse_err) => {
                    let mut m = owned(parse_err.code);
                    push_str(&mut m, " ");
                    push_str(&mut m, parse_err.message.as_str());
                    push_str(&mut m, " (position ");
                    push_decimal(&mut m, parse_err.position as u128);
                    push_str(&mut m, ")");
                    assert(m@ =~= parse_err@.0 + " "@ + parse_err@.1 + " (position "@ + decimal(parse_err@.2 as nat) + ")"@);
                    Err(GrammarFailure { message: m, details: Some(format_position_pointer(text, parse_err.position)) })
                },
            }
        },
    }
}


// ---------------------------------------------------------------------------
// The grammar as derivation trees, and the parser's agreement with it
// ---------------------------------------------------------------------------

/// `or-expr = and-expr *( "," and-expr )`, as a right-nested list.
pub enum OrTree {
    Last(Box<AndTree>),
    More(Box<AndTree>, Box<OrTree>),
}

/// `and-expr = primary *( "+" primary )`, as a right-nested list.
pub enum AndTree {
    Last(Box<PrimaryTree>),
    More(Box<PrimaryTree>, Box<AndTree>),
}

/// `primary = phase-id / "(" or-expr ")" / "[" or-expr "]"`.
pub enum PrimaryTree {
    Phase,
    Paren(Box<OrTree>),
    Bracket(Box<OrTree>),
}

/// The token kinds a derivation tree spells out.
pub open spec fn or_yield(o: OrTree) -> Seq<TokenKind>
    decreases o,
{
    match o {
        OrTree::Last(a) => and_yield(*a),
        OrTree::More(a, r) => and_yield(*a) + seq![TokenKind::Comma] + or_yield(*r),
    }
}

pub open spec fn and_yield(a: AndTree) -> Seq<TokenKind>
    decreases a,
{
    match a {
        AndTree::Last(p) => primary_yield(*p),
        AndTree::More(p, r) => primary_yield(*p) + seq![TokenKind::Plus] + and_yield(*r),
    }
}

pub open spec fn primary_yield(p: PrimaryTree) -> Seq<TokenKind>
    decreases p,
{
    match p {
        PrimaryTree::Phase => seq![TokenKind::PhaseId],
        PrimaryTree::Paren(o) => seq![TokenKind::LParen] + or_yield(*o) + seq![TokenKind::RParen],
        PrimaryTree::Bracket(o) => seq![TokenKind::LBracket] + or_yield(*o) + seq![TokenKind::RBracket],
    }
}

/// The kinds of a token sequence.
pub open spec fn kinds(t: Seq<Token>) -> Seq<TokenKind> {
    t.map_values(|x: Token| x.kind)
}

/// Token kinds form a sequence of the grammar.
pub open spec fn is_sequence(k: Seq<TokenKind>) -> bool {
    exists|o: OrTree| or_yield(o) == k
}

proof fn lemma_primary_nonempty(p: PrimaryTree)
    ensures
        primary_yield(p).len() >= 1,
{
}

proof fn lemma_and_nonempty(a: AndTree)
    ensures
        and_yield(a).len() >= 1,
{
    match a {
        AndTree::Last(p) => lemma_primary_nonempty(*p),
        AndTree::More(p, _) => lemma_primary_nonempty(*p),
    }
}

proof fn lemma_or_nonempty(o: OrTree)
    ensures
        or_yield(o).len() >= 1,
{
    match o {
        OrTree::Last(a) => lemma_and_nonempty(*a),
        OrTree::More(a, _) => lemma_and_nonempty(*a),
    }
}

proof fn lemma_or_progress(t: Seq<Token>, n: int, i: int)
    ensures
        p_or(t, n, i) matches Ok(j) ==> i < j <= t.len(),
    decreases t.len() - i, 2int,
{
    lemma_and_progress(t, n, i);
    if let Ok(k) = p_and(t, n, i) {
        if i < k <= t.len() {
            lemma_or_tail_progress(t, n, k);
        }
    }
}

proof fn lemma_or_tail_progress(t: Seq<Token>, n: int, j: int)
    requires
        j <= t.len(),
    ensures
        p_or_tail(t, n, j) matches Ok(k) ==> j <= k <= t.len(),
    decreases t.len() - j, 3int,
{
    if is_kind_at(t, j, TokenKind::Comma) {
        lemma_and_progress(t, n, j + 1);
        if let Ok(k) = p_and(t, n, j + 1) {
            if j < k <= t.len() {
                lemma_or_tail_progress(t, n, k);
            }
        }
    }
}

proof fn lemma_and_progress(t: Seq<Token>, n: int, i: int)
    ensures
        p_and(t, n, i) matches Ok(j) ==> i < j <= t.len(),
    decreases t.len() - i, 1int,
{
    lemma_primary_progress(t, n, i);
    if let Ok(k) = p_primary(t, n, i) {
        if i < k <= t.len() {
            lemma_and_tail_progress(t, n, k);
        }
    }
}

proof fn lemma_and_tail_progress(t: Seq<Token>, n: int, j: int)
    requires
        j <= t.len(),
    ensures
        p_and_tail(t, n, j) matches Ok(k) ==> j <= k <= t.len(),
    decreases t.len() - j, 3int,
{
    if is_kind_at(t, j, TokenKind::Plus) {
        lemma_primary_progress(t, n, j + 1);
        if let Ok(k) = p_primary(t, n, j + 1) {
            if j < k <= t.len() {
                lemma_and_tail_progress(t, n, k);
            }
        }
    }
}

proof fn lemma_primary_progress(t: Seq<Token>, n: int, i: int)
    ensures
        p_primary(t, n, i) matches Ok(j) ==> i < j <= t.len(),
    decreases t.len() - i, 0int,
{
    if 0 <= i < t.len() {
        lemma_or_progress(t, n, i + 1);
    }
}

/// After a `","`, the rest of an `or-expr` parses like an `or-expr`.
proof fn lemma_or_tail_is_or(t: Seq<Token>, n: int, j: int)
    requires
        is_kind_at(t, j, TokenKind::Comma),
    ensures
        p_or(t, n, j + 1) is Ok ==> p_or_tail(t, n, j) == p_or(t, n, j + 1),
        p_or_tail(t, n, j) is Ok ==> p_or_tail(t, n, j) == p_or(t, n, j + 1),
{
    lemma_and_progress(t, n, j + 1);
}

/// After a `"+"`, the rest of an `and-expr` parses like an `and-expr`.
proof fn lemma_and_tail_is_and(t: Seq<Token>, n: int, j: int)
    requires
        is_kind_at(t, j, TokenKind::Plus),
    ensures
        p_and(t, n, j + 1) is Ok ==> p_and_tail(t, n, j) == p_and(t, n, j + 1),
        p_and_tail(t, n, j) is Ok ==> p_and_tail(t, n, j) == p_and(t, n, j + 1),
{
    lemma_primary_progress(t, n, j + 1);
}

/// A token that may not directly follow a complete `or-expr`.
pub open spec fn continues_or(t: Seq<Token>, e: int) -> bool {
    is_kind_at(t, e, TokenKind::Comma) || is_kind_at(t, e, TokenKind::Plus)
}

proof fn lemma_or_complete(t: Seq<Token>, n: int, i: int, o: OrTree)
    requires
        0 <= i,
        i + or_yield(o).len() <= t.len(),
        kinds(t).subrange(i, i + or_yield(o).len()) == or_yield(o),
        !continues_or(t, i + or_yield(o).len()),
    ensures
        p_or(t, n, i) == Ok::<int, ParseFailure>(i + or_yield(o).len()),
    decreases o,
{
    let k = kinds(t);
    match o {
        OrTree::Last(a) => {
            lemma_and_complete(t, n, i, *a);
            lemma_and_nonempty(*a);
        },
        OrTree::More(a, r) => {
            let la = and_yield(*a).len() as int;
            let lr = or_yield(*r).len() as int;
            let e = i + la;
            assert(k.subrange(i, e) =~= and_yield(*a)) by {
                assert(k.subrange(i, e) =~= k.subrange(i, i + or_yield(o).len()).subrange(0, la));
            }
            assert(k[e] == TokenKind::Comma) by {
                assert(k.subrange(i, i + or_yield(o).len())[la] == k[e]);
            }
            assert(k.subrange(e + 1, e + 1 + lr) =~= or_yield(*r)) by {
                assert(k.subrange(e + 1, e + 1 + lr) =~= k.subrange(i, i + or_yield(o).len()).subrange(la + 1, la + 1 + lr));
            }
            lemma_and_complete(t, n, i, *a);
            lemma_and_nonempty(*a);
            lemma_or_nonempty(*r);
            lemma_or_complete(t, n, e + 1, *r);
            lemma_or_tail_is_or(t, n, e);
        },
    }
}

proof fn lemma_and_complete(t: Seq<Token>, n: int, i: int, a: AndTree)
    requires
        0 <= i,
        i + and_yield(a).len() <= t.len(),
        kinds(t).subrange(i, i + and_yield(a).len()) == and_yield(a),
        !is_kind_at(t, i + and_yield(a).len(), TokenKind::Plus),
    ensures
        p_and(t, n, i) == Ok::<int, ParseFailure>(i + and_yield(a).len()),
    decreases a,
{
    let k = kinds(t);
    match a {
        AndTree::Last(p) => {
            lemma_primary_complete(t, n, i, *p);
            lemma_primary_nonempty(*p);
        },
        AndTree::More(p, r) => {
            let lp = primary_yield(*p).len() as int;
            let lr = and_yield(*r).len() as int;
            let e = i + lp;
            assert(k.subrange(i, e) =~= primary_yield(*p)) by {
                assert(k.subrange(i, e) =~= k.subrange(i, i + and_yield(a).len()).subrange(0, lp));
            }
            assert(k[e] == TokenKind::Plus) by {
                assert(k.subrange(i, i + and_yield(a).len())[lp] == k[e]);
            }
            assert(k.subrange(e + 1, e + 1 + lr) =~= and_yield(*r)) by {
                assert(k.subrange(e + 1, e + 1 + lr) =~= k.subrange(i, i + and_yield(a).len()).subrange(lp + 1, lp + 1 + lr));
            }
            lemma_primary_complete(t, n, i, *p);
            lemma_primary_nonempty(*p);
            lemma_and_nonempty(*r);
            lemma_and_complete(t, n, e + 1, *r);
            lemma_and_tail_is_and(t, n, e);
        },
    }
}

proof fn lemma_primary_complete(t: Seq<Token>, n: int, i: int, p: PrimaryTree)
    requires
        0 <= i,
        i + primary_yield(p).len() <= t.len(),
        kinds(t).subrange(i, i + primary_yield(p).len()) == primary_yield(p),
    ensures
        p_primary(t, n, i) == Ok::<int, ParseFailure>(i + primary_yield(p).len()),
    decreases p,
{
    let k = kinds(t);
    let lp = primary_yield(p).len() as int;
    assert(k[i] == k.subrange(i, i + lp)[0]);
    match p {
        PrimaryTree::Phase => {},
        PrimaryTree::Paren(o) => {
            let lo = or_yield(*o).len() as int;
            assert(k.subrange(i + 1, i + 1 + lo) =~= or_yield(*o)) by {
                assert(k.subrange(i + 1, i + 1 + lo) =~= k.subrange(i, i + lp).subrange(1, 1 + lo));
            }
            assert(k[i + 1 + lo] == TokenKind::RParen) by {
                assert(k.subrange(i, i + lp)[1 + lo] == k[i + 1 + lo]);
            }
            lemma_or_complete(t, n, i + 1, *o);
        },
        PrimaryTree::Bracket(o) => {
            let lo = or_yield(*o).len() as int;
            assert(k.subrange(i + 1, i + 1 + lo) =~= or_yield(*o)) by {
                assert(k.subrange(i + 1, i + 1 + lo) =~= k.subrange(i, i + lp).subrange(1, 1 + lo));
            }
            assert(k[i + 1 + lo] == TokenKind::RBracket) by {
                assert(k.subrange(i, i + lp)[1 + lo] == k[i + 1 + lo]);
            }
            lemma_or_complete(t, n, i + 1, *o);
        },
    }
}


proof fn lemma_or_sound(t: Seq<Token>, n: int, i: int)
    ensures
        p_or(t, n, i) matches Ok(j) ==> exists|o: OrTree| or_yield(o) == kinds(t).subrange(i, j),
    decreases t.len() - i, 2int,
{
    lemma_and_progress(t, n, i);
    if let Ok(k) = p_and(t, n, i) {
        if i < k <= t.len() {
            lemma_and_sound(t, n, i);
            lemma_or_tail_sound(t, n, k);
            lemma_or_tail_progress(t, n, k);
            if let Ok(j) = p_or_tail(t, n, k) {
                let a = choose|a: AndTree| and_yield(a) == kinds(t).subrange(i, k);
                if j == k {
                    let o = OrTree::Last(Box::new(a));
                    assert(or_yield(o) == kinds(t).subrange(i, j));
                } else {
                    let r = choose|r: OrTree| or_yield(r) == kinds(t).subrange(k + 1, j);
                    assert(kinds(t)[k] == TokenKind::Comma);
                    let o = OrTree::More(Box::new(a), Box::new(r));
                    assert(or_yield(o) =~= kinds(t).subrange(i, j));
                }
            }
        }
    }
}

proof fn lemma_or_tail_sound(t: Seq<Token>, n: int, k: int)
    requires
        0 <= k <= t.len(),
    ensures
        p_or_tail(t, n, k) matches Ok(j) ==> (j == k || (is_kind_at(t, k, TokenKind::Comma) && exists|r: OrTree|
            or_yield(r) == kinds(t).subrange(k + 1, j))),
    decreases t.len() - k, 3int,
{
    if is_kind_at(t, k, TokenKind::Comma) {
        lemma_and_progress(t, n, k + 1);
        if let Ok(m) = p_and(t, n, k + 1) {
            if k < m <= t.len() {
                lemma_and_sound(t, n, k + 1);
                lemma_or_tail_sound(t, n, m);
                lemma_or_tail_progress(t, n, m);
                if let Ok(j) = p_or_tail(t, n, m) {
                    let a = choose|a: AndTree| and_yield(a) == kinds(t).subrange(k + 1, m);
                    if j == m {
                        let r = OrTree::Last(Box::new(a));
                        assert(or_yield(r) == kinds(t).subrange(k + 1, j));
                    } else {
                        let r2 = choose|r: OrTree| or_yield(r) == kinds(t).subrange(m + 1, j);
                        let r = OrTree::More(Box::new(a), Box::new(r2));
                        assert(or_yield(r) =~= kinds(t).subrange(k + 1, j));
                    }
                }
            }
        }
    }
}

proof fn lemma_and_sound(t: Seq<Token>, n: int, i: int)
    ensures
        p_and(t, n, i) matches Ok(j) ==> exists|a: AndTree| and_yield(a) == kinds(t).subrange(i, j),
    decreases t.len() - i, 1int,
{
    lemma_primary_progress(t, n, i);
    if let Ok(k) = p_primary(t, n, i) {
        if i < k <= t.len() {
            lemma_primary_sound(t, n, i);
            lemma_and_tail_sound(t, n, k);
            lemma_and_tail_progress(t, n, k);
            if let Ok(j) = p_and_tail(t, n, k) {
                let p = choose|p: PrimaryTree| primary_yield(p) == kinds(t).subrange(i, k);
                if j == k {
                    let a = AndTree::Last(Box::new(p));
                    assert(and_yield(a) == kinds(t).subrange(i, j));
                } else {
                    let r = choose|r: AndTree| and_yield(r) == kinds(t).subrange(k + 1, j);
                    assert(kinds(t)[k] == TokenKind::Plus);
                    let a = AndTree::More(Box::new(p), Box::new(r));
                    assert(and_yield(a) =~= kinds(t).subrange(i, j));
                }
            }
        }
    }
}

proof fn lemma_and_tail_sound(t: Seq<Token>, n: int, k: int)
    requires
        0 <= k <= t.len(),
    ensures
        p_and_tail(t, n, k) matches Ok(j) ==> (j == k || (is_kind_at(t, k, TokenKind::Plus) && exists|r: AndTree|
            and_yield(r) == kinds(t).subrange(k + 1, j))),
    decreases t.len() - k, 3int,
{
    if is_kind_at(t, k, TokenKind::Plus) {
        lemma_primary_progress(t, n, k + 1);
        if let Ok(m) = p_primary(t, n, k + 1) {
            if k < m <= t.len() {
                lemma_primary_sound(t, n, k + 1);
                lemma_and_tail_sound(t, n, m);
                lemma_and_tail_progress(t, n, m);
                if let Ok(j) = p_and_tail(t, n, m) {
                    let p = choose|p: PrimaryTree| primary_yield(p) == kinds(t).subrange(k + 1, m);
                    if j == m {
                        let r = AndTree::Last(Box::new(p));
                        assert(and_yield(r) == kinds(t).subrange(k + 1, j));
                    } else {
                        let r2 = choose|r: AndTree| and_yield(r) == kinds(t).subrange(m + 1, j);
                        let r = AndTree::More(Box::new(p), Box::new(r2));
                        assert(and_yield(r) =~= kinds(t).subrange(k + 1, j));
                    }
                }
            }
        }
    }
}

proof fn lemma_primary_sound(t: Seq<Token>, n: int, i: int)
    ensures
        p_primary(t, n, i) matches Ok(j) ==> exists|p: PrimaryTree| primary_yield(p) == kinds(t).subrange(i, j),
    decreases t.len() - i, 0int,
{
    if 0 <= i < t.len() {
        lemma_or_sound(t, n, i + 1);
        lemma_or_progress(t, n, i + 1);
        match t[i].kind {
            TokenKind::PhaseId => {
                let p = PrimaryTree::Phase;
                assert(primary_yield(p) =~= kinds(t).subrange(i, i + 1));
            },
            TokenKind::LParen => {
                if let Ok(j) = p_or(t, n, i + 1) {
                    if is_kind_at(t, j, TokenKind::RParen) {
                        let o = choose|o: OrTree| or_yield(o) == kinds(t).subrange(i + 1, j);
                        let p = PrimaryTree::Paren(Box::new(o));
                        assert(primary_yield(p) =~= kinds(t).subrange(i, j + 1));
                    }
                }
            },
            TokenKind::LBracket => {
                if let Ok(j) = p_or(t, n, i + 1) {
                    if is_kind_at(t, j, TokenKind::RBracket) {
                        let o = choose|o: OrTree| or_yield(o) == kinds(t).subrange(i + 1, j);
                        let p = PrimaryTree::Bracket(Box::new(o));
                        assert(primary_yield(p) =~= kinds(t).subrange(i, j + 1));
                    }
                }
            },
            _ => {},
        }
    }
}

/// The parser accepts a token stream exactly when its kinds derive from the
/// `sequence` production of the grammar.
pub proof fn law_parser_accepts_exactly_the_grammar(t: Seq<Token>, n: int)
    ensures
        seq_parse(t, n) is Ok <==> is_sequence(kinds(t)),
{
    if seq_parse(t, n) is Ok {
        lemma_or_progress(t, n, 0);
        lemma_or_sound(t, n, 0);
        let j = p_or(t, n, 0)->Ok_0;
        assert(j == t.len());
        let o = choose|o: OrTree| or_yield(o) == kinds(t).subrange(0, j);
        assert(kinds(t).subrange(0, j) =~= kinds(t));
        assert(or_yield(o) == kinds(t));
    }
    if is_sequence(kinds(t)) {
        let o = choose|o: OrTree| or_yield(o) == kinds(t);
        lemma_or_nonempty(o);
        assert(kinds(t).subrange(0, or_yield(o).len() as int) =~= kinds(t));
        lemma_or_complete(t, n, 0, o);
    }
}

/// A sequence file passes exactly when it tokenizes and its tokens derive
/// from the `sequence` production of the grammar.
pub proof fn law_sequence_file_passes_exactly_on_grammar(b: Seq<u8>)
    ensures
        seq_text_outcome(b) is Ok <==> (lex(b) is Ok && is_sequence(kinds(lex(b)->Ok_0))),
{
    if let Ok(t) = lex(b) {
        law_parser_accepts_exactly_the_grammar(t, b.len() as int);
    }
}


proof fn lemma_parse_errors_are_grm3(t: Seq<Token>, n: int, i: int)
    ensures
        p_primary(t, n, i) matches Err(e) ==> e.0 == "GRM-3"@,
        p_and_tail(t, n, i) matches Err(e) ==> e.0 == "GRM-3"@,
        p_and(t, n, i) matches Err(e) ==> e.0 == "GRM-3"@,
        p_or_tail(t, n, i) matches Err(e) ==> e.0 == "GRM-3"@,
        p_or(t, n, i) matches Err(e) ==> e.0 == "GRM-3"@,
    decreases t.len() - i,
{
    if 0 <= i < t.len() {
        lemma_parse_errors_are_grm3(t, n, i + 1);
        if let Ok(j) = p_or(t, n, i + 1) {
            if j > i + 1 && j <= t.len() {
                lemma_parse_errors_are_grm3(t, n, j);
            }
        }
        if let Ok(j) = p_primary(t, n, i) {
            if i < j <= t.len() {
                lemma_parse_errors_are_grm3(t, n, j);
            }
        }
        if let Ok(j) = p_primary(t, n, i + 1) {
            if i + 1 < j <= t.len() {
                lemma_parse_errors_are_grm3(t, n, j);
            }
        }
        if let Ok(j) = p_and(t, n, i) {
            if i < j <= t.len() {
                lemma_parse_errors_are_grm3(t, n, j);
            }
        }
        if let Ok(j) = p_and(t, n, i + 1) {
            if i + 1 < j <= t.len() {
                lemma_parse_errors_are_grm3(t, n, j);
            }
        }
    }
}

/// How a failing sequence text is reported: a lexer fault under its own
/// code (GRM-1 for an invalid character, GRM-2 for a malformed phase id),
/// GRM-4 when there are no tokens, and GRM-3 for every other parse failure;
/// the details always point at the failure's position.
pub proof fn law_sequence_failure_codes(b: Seq<u8>)
    ensures
        match lex(b) {
            Err(le) => seq_text_outcome(b) == Err::<(), (Seq<char>, Seq<char>)>(
                (
                    lex_code(le.fault) + " "@ + lex_message(le.fault) + " at position "@ + decimal(
                        le.position as nat,
                    ),
                    pointer_text(b, le.position as int),
                ),
            ) && lex_code(le.fault) == (if le.fault is InvalidChar {
                "GRM-1"@
            } else {
                "GRM-2"@
            }),
            Ok(t) => match seq_parse(t, b.len() as int) {
                Ok(_) => seq_text_outcome(b) is Ok,
                Err(e) => seq_text_outcome(b) == Err::<(), (Seq<char>, Seq<char>)>(
                    (e.0 + " "@ + e.1 + " (position "@ + decimal(e.2 as nat) + ")"@, pointer_text(b, e.2)),
                ) && e.0 == (if t.len() == 0 {
                    "GRM-4"@
                } else {
                    "GRM-3"@
                }),
            },
        },
{
    if let Ok(t) = lex(b) {
        lemma_parse_errors_are_grm3(t, b.len() as int, 0);
    }
}

// ---------------------------------------------------------------------------
// Discovery and the validator entry point
// ---------------------------------------------------------------------------

/// A path whose file name has the extension `seq`.
pub open spec fn is_seq_path(p: Seq<char>) -> bool {
    file_name_spec(p) matches Some(n) && extension_spec(n) == Some("seq"@)
}

/// The sequence-file paths among `s`, in order.
pub open spec fn select_seq_paths(s: Seq<Seq<char>>) -> Seq<Seq<char>>
    decreases s.len(),
{
    if s.len() == 0 {
        Seq::empty()
    } else if is_seq_path(s.last()) {
        select_seq_paths(s.drop_last()).push(s.last())
    } else {
        select_seq_paths(s.drop_last())
    }
}

pub fn is_seq_file(path: &str) -> (r: bool)
    ensures
        r == is_seq_path(path@),
{
    match file_name_of(path) {
        None => false,
        Some(n) => match extension_of(n.as_str()) {
            Some(e) => e == owned("seq"),
            None => false,
        },
    }
}

/// The `.seq` files of the tree, in processing order.
pub fn discover_seq_files(target: &str, root: &Node) -> (r: Result<Vec<String>, String>)
    ensures
        match walk_spec(target@, *root, ClaimRule::Nothing) {
            Ok(w) => r matches Ok(v) && sorted_paths(v@) && str_views(v@).to_multiset()
                == select_seq_paths(w.0).to_multiset(),
            Err(e) => r matches Err(m) && m@ == e,
        },
{
    let (files, _) = match walk(target, root, ClaimRule::Nothing) {
        Ok(w) => w,
        Err(e) => return Err(e),
    };
    let mut out: Vec<String> = Vec::new();
    let mut i: usize = 0;
    while i < files.len()
        invariant
            i <= files@.len(),
            str_views(out@) == select_seq_paths(str_views(files@).subrange(0, i as int)),
        decreases files@.len() - i,
    {
        assert(str_views(files@).subrange(0, i + 1).drop_last() =~= str_views(files@).subrange(0, i as int));
        if is_seq_file(files[i].as_str()) {
            let ghost before = str_views(out@);
            out.push(files[i].clone());
            assert(str_views(out@) =~= before.push(files@[i as int]@));
        }
        i = i + 1;
    }
    assert(str_views(files@).subrange(0, files@.len() as int) =~= str_views(files@));
    Ok(sort_paths(out))
}

/// The failures one sequence file produces (none when it passes).
pub open spec fn seq_file_outcome(f: Source<String>) -> Seq<FailureView> {
    match f.contents {
        Err(e) => seq![(f.path@, Category::Grammar, FailureKind::Io, "read failed: "@ + f.path@, Some(e@))],
        Ok(text) => match seq_text_outcome(vstd::utf8::encode_utf8(text@)) {
            Ok(_) => Seq::empty(),
            Err((m, d)) => seq![(f.path@, Category::Grammar, FailureKind::GrammarViolation, m, Some(d))],
        },
    }
}

/// Checks one sequence file and counts it.
pub fn validate_seq_file(f: &Source<String>, result: &mut CategoryResult)
    ensures
        tally_of(*final(result)) == tally_item(tally_of(*old(result)), seq_file_outcome(*f)),
        final(result).category == old(result).category,
        final(result).skipped == old(result).skipped,
        final(result).duration_ms == old(result).duration_ms,
{
    let mut item: Vec<Failure> = Vec::new();
    match &f.contents {
        Err(err) => {
            let mut message = owned("read failed: ");
            push_str(&mut message, f.path.as_str());
            item.push(Failure {
                fixture: f.path.clone(),
                category: Category::Grammar,
                kind: FailureKind::Io,
                message,
                details: Some(err.clone()),
            });
        },
        Ok(text) => match parse_seq_text(text.as_str()) {
            Ok(()) => {},
            Err(failure) => {
                item.push(Failure {
                    fixture: f.path.clone(),
                    category: Category::Grammar,
                    kind: FailureKind::GrammarViolation,
                    message: failure.message,
                    details: failure.details,
                });
            },
        },
    }
    assert(failure_views(item@) =~= seq_file_outcome(*f));
    result.record_item(item);
}

/// Validates every discovered sequence file, in order; when the tree could
/// not be enumerated, records that one failure instead.
pub fn run(target: &str, listing: Result<Vec<Source<String>>, String>, result: &mut CategoryResult)
    ensures
        final(result).category == old(result).category,
        final(result).skipped == old(result).skipped,
        final(result).duration_ms == old(result).duration_ms,
        match listing {
            Err(e) => tally_of(*final(result)) == tally_item(
                tally_of(*old(result)),
                seq![enumeration_failure(Category::Grammar, target@, e@)],
            ),
            Ok(files) => tally_of(*final(result)) == tally_items(
                tally_of(*old(result)),
                files@.map_values(|f: Source<String>| seq_file_outcome(f)),
            ),
        },
{
    match listing {
        Err(e) => {
            result.record_enumeration_failure(Category::Grammar, target, e.as_str());
        },
        Ok(files) => {
            let ghost t0 = tally_of(*result);
            let ghost outcomes = files@.map_values(|f: Source<String>| seq_file_outcome(f));
            let mut i: usize = 0;
            while i < files.len()
                invariant
                    i <= files@.len(),
                    outcomes == files@.map_values(|f: Source<String>| seq_file_outcome(f)),
                    tally_of(*result) == tally_items(t0, outcomes.subrange(0, i as int)),
                    result.category == old(result).category,
                    result.skipped == old(result).skipped,
                    result.duration_ms == old(result).duration_ms,
                decreases files@.len() - i,
            {
                validate_seq_file(&files[i], result);
                assert(outcomes.subrange(0, i + 1).drop_last() =~= outcomes.subrange(0, i as int));
                i = i + 1;
            }
            assert(outcomes.subrange(0, files@.len() as int) =~= outcomes);
        },
    }
}

} // verus!
