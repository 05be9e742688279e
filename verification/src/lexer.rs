//! Lexical analysis: turns the program text into a token sequence, with
//! 1-based line tracking, lookahead for the two-character operators, line
//! comments, string and number literals, identifiers and reserved words.
//!
//! Every diagnostic is returned as a value: the caller decides how to show
//! it.  Scanning recovers after an unexpected character and continues, so a
//! failing program still yields every token that could be read.
use vstd::prelude::*;
use vstd::string::*;

use crate::num::is_digit;
use crate::num::is_digit_exec;
use crate::num::spec_num_literal;
use crate::num::spec_parse_num;
use crate::num::num_strings;
use crate::num::parse_num;
use crate::token::Token;
use crate::token::TokenType;
use crate::token::TokenView;
use crate::token::combines_with_equal;
use crate::token::is_word_char;
use crate::token::spec_reserved_kind;
use crate::token::spec_single_kind;
use crate::token::spec_token_kind;

verus! {

/// What went wrong at one place of the program text.
#[derive(Debug, Clone, Copy, PartialEq, Eq, Structural)]
pub enum LexErrorKind {
    UnexpectedChar(char),
    UnterminatedString,
}

/// One lexical diagnostic: the source line and what was found there.
#[derive(Debug, Clone, Copy, PartialEq, Eq, Structural)]
pub struct LexError {
    pub line: u32,
    pub kind: LexErrorKind,
}

/// The end of the run of digits starting at `i`.
pub open spec fn digit_run_end(s: Seq<char>, i: int) -> int
    decreases s.len() - i,
{
    if 0 <= i < s.len() && is_digit(s[i]) {
        digit_run_end(s, i + 1)
    } else {
        i
    }
}

/// The end of the run of identifier characters starting at `i`.
pub open spec fn word_run_end(s: Seq<char>, i: int) -> int
    decreases s.len() - i,
{
    if 0 <= i < s.len() && is_word_char(s[i]) {
        word_run_end(s, i + 1)
    } else {
        i
    }
}

/// The first position at or after `i` holding a newline, or the end.
pub open spec fn comment_end(s: Seq<char>, i: int) -> int
    decreases s.len() - i,
{
    if 0 <= i < s.len() && s[i] != '\n' {
        comment_end(s, i + 1)
    } else {
        i
    }
}

/// The first position at or after `i` holding a double quote, or the
/// length when the string never closes.
pub open spec fn quote_end(s: Seq<char>, i: int) -> int
    decreases s.len() - i,
{
    if 0 <= i < s.len() && s[i] != '"' {
        quote_end(s, i + 1)
    } else if 0 <= i < s.len() {
        i
    } else {
        s.len() as int
    }
}

proof fn lemma_digit_run_end(s: Seq<char>, i: int)
    requires
        0 <= i <= s.len(),
    ensures
        i <= digit_run_end(s, i) <= s.len(),
        forall|j: int| i <= j < digit_run_end(s, i) ==> is_digit(#[trigger] s[j]),
        digit_run_end(s, i) < s.len() ==> !is_digit(s[digit_run_end(s, i)]),
    decreases s.len() - i,
{
    if i < s.len() && is_digit(s[i]) {
        lemma_digit_run_end(s, i + 1);
    }
}

proof fn lemma_word_run_end(s: Seq<char>, i: int)
    requires
        0 <= i <= s.len(),
    ensures
        i <= word_run_end(s, i) <= s.len(),
        forall|j: int| i <= j < word_run_end(s, i) ==> is_word_char(#[trigger] s[j]),
        word_run_end(s, i) < s.len() ==> !is_word_char(s[word_run_end(s, i)]),
    decreases s.len() - i,
{
    if i < s.len() && is_word_char(s[i]) {
        lemma_word_run_end(s, i + 1);
    }
}

proof fn lemma_comment_end(s: Seq<char>, i: int)
    requires
        0 <= i <= s.len(),
    ensures
        i <= comment_end(s, i) <= s.len(),
        comment_end(s, i) < s.len() ==> s[comment_end(s, i)] == '\n',
    decreases s.len() - i,
{
    if i < s.len() && s[i] != '\n' {
        lemma_comment_end(s, i + 1);
    }
}

proof fn lemma_quote_end(s: Seq<char>, i: int)
    requires
        0 <= i <= s.len(),
    ensures
        i <= quote_end(s, i) <= s.len(),
        quote_end(s, i) < s.len() ==> s[quote_end(s, i)] == '"',
        forall|j: int| i <= j < quote_end(s, i) && j < s.len() ==> #[trigger] s[j] != '"',
    decreases s.len() - i,
{
    if i < s.len() && s[i] != '"' {
        lemma_quote_end(s, i + 1);
    }
}

/// Where a number literal starting at `i` ends: a digit run, continued past
/// a dot only when another digit follows the dot directly.
pub open spec fn number_end(s: Seq<char>, i: int) -> int {
    let d = digit_run_end(s, i);
    if d + 1 < s.len() && s[d] == '.' && is_digit(s[d + 1]) {
        digit_run_end(s, d + 1)
    } else {
        d
    }
}

/// The decoded literal of a number token: the canonical rendering of its
/// exact value, or the text itself when the mantissa exceeds the numeric
/// range.
pub open spec fn spec_number_literal(t: Seq<char>) -> Seq<char> {
    match spec_parse_num(t) {
        Some(n) => spec_num_literal(n),
        None => t,
    }
}

/// The token of a number literal starting at `i`: the raw text as surface
/// form, the canonical value as literal.
pub open spec fn number_token(s: Seq<char>, i: int, line: u32) -> TokenView {
    let text = s.subrange(i, number_end(s, i));
    TokenView {
        token_type: TokenType::NUMBER,
        lexeme: text,
        literal: spec_number_literal(text),
        line_num: line,
    }
}

/// The token of an identifier starting at `i`, reclassified when the text
/// is a reserved word.
pub open spec fn ident_token(s: Seq<char>, i: int, line: u32) -> TokenView {
    let text = s.subrange(i, word_run_end(s, i));
    TokenView {
        token_type: spec_reserved_kind(text, TokenType::IDENTIFIER),
        lexeme: text,
        literal: "null"@,
        line_num: line,
    }
}

/// The token of a string literal whose content spans `i` up to `e`: quoted
/// text as surface form, the bare content as literal.
pub open spec fn string_token(s: Seq<char>, i: int, e: int, line: u32) -> TokenView {
    TokenView {
        token_type: TokenType::STRING,
        lexeme: seq!['"'] + s.subrange(i, e) + seq!['"'],
        literal: s.subrange(i, e),
        line_num: line,
    }
}

pub open spec fn eof_token() -> TokenView {
    TokenView { token_type: TokenType::EOF, lexeme: Seq::empty(), literal: "null"@, line_num: 0 }
}

/// The line counter after a newline: one more, held at the top of its
/// range.
pub open spec fn bump_line(line: u32) -> u32 {
    if line < u32::MAX {
        (line + 1) as u32
    } else {
        line
    }
}

/// The tokens and diagnostics of the text from position `i` on, the line
/// counter standing at `line`: the ground truth the scanner is held to.
pub open spec fn spec_lex(s: Seq<char>, i: int, line: u32) -> (Seq<TokenView>, Seq<LexError>)
    decreases s.len() - i,
    via spec_lex_decreases
{
    if i < 0 || i >= s.len() {
        (seq![eof_token()], Seq::empty())
    } else {
        let c = s[i];
        if c == ' ' || c == '\t' {
            spec_lex(s, i + 1, line)
        } else if c == '\n' {
            spec_lex(s, i + 1, bump_line(line))
        } else if c == '"' {
            let e = quote_end(s, i + 1);
            if e < s.len() {
                let rest = spec_lex(s, e + 1, line);
                (seq![string_token(s, i + 1, e, line)] + rest.0, rest.1)
            } else {
                let rest = spec_lex(s, s.len() as int, line);
                (rest.0, seq![LexError { line, kind: LexErrorKind::UnterminatedString }] + rest.1)
            }
        } else if is_digit(c) {
            let rest = spec_lex(s, number_end(s, i), line);
            (seq![number_token(s, i, line)] + rest.0, rest.1)
        } else if c == '/' && i + 1 < s.len() && s[i + 1] == '/' {
            spec_lex(s, comment_end(s, i), line)
        } else if combines_with_equal(c) && i + 1 < s.len() && s[i + 1] == '=' {
            let rest = spec_lex(s, i + 2, line);
            (
                seq![
                    TokenView {
                        token_type: spec_token_kind('=', c),
                        lexeme: seq![c, '='],
                        literal: "null"@,
                        line_num: line,
                    },
                ] + rest.0,
                rest.1,
            )
        } else if spec_single_kind(c) == TokenType::INVALID {
            let rest = spec_lex(s, i + 1, line);
            (rest.0, seq![LexError { line, kind: LexErrorKind::UnexpectedChar(c) }] + rest.1)
        } else if spec_single_kind(c) == TokenType::IDENTIFIER {
            let rest = spec_lex(s, word_run_end(s, i), line);
            (seq![ident_token(s, i, line)] + rest.0, rest.1)
        } else {
            let rest = spec_lex(s, i + 1, line);
            (
                seq![
                    TokenView {
                        token_type: spec_single_kind(c),
                        lexeme: seq![c],
                        literal: "null"@,
                        line_num: line,
                    },
                ] + rest.0,
                rest.1,
            )
        }
    }
}

fn digit_run_end_exec(s: &str, i: usize) -> (r: usize)
    requires
        i <= s@.len(),
    ensures
        r == digit_run_end(s@, i as int),
        i <= r <= s@.len(),
{
    let n = s.unicode_len();
    let mut j = i;
    while j < n && is_digit_exec(s.get_char(j))
        invariant
            i <= j <= n == s@.len(),
            digit_run_end(s@, i as int) == digit_run_end(s@, j as int),
        decreases n - j,
    {
        j = j + 1;
    }
    j
}

fn word_run_end_exec(s: &str, i: usize) -> (r: usize)
    requires
        i <= s@.len(),
    ensures
        r == word_run_end(s@, i as int),
        i <= r <= s@.len(),
{
    let n = s.unicode_len();
    let mut j = i;
    while j < n && Token::is_word_char_exec(s.get_char(j))
        invariant
            i <= j <= n == s@.len(),
            word_run_end(s@, i as int) == word_run_end(s@, j as int),
        decreases n - j,
    {
        j = j + 1;
    }
    j
}

fn comment_end_exec(s: &str, i: usize) -> (r: usize)
    requires
        i <= s@.len(),
    ensures
        r == comment_end(s@, i as int),
        i <= r <= s@.len(),
{
    let n = s.unicode_len();
    let mut j = i;
    while j < n && s.get_char(j) != '\n'
        invariant
            i <= j <= n == s@.len(),
            comment_end(s@, i as int) == comment_end(s@, j as int),
        decreases n - j,
    {
        j = j + 1;
    }
    j
}

fn quote_end_exec(s: &str, i: usize) -> (r: usize)
    requires
        i <= s@.len(),
    ensures
        r == quote_end(s@, i as int),
        i <= r <= s@.len(),
{
    let n = s.unicode_len();
    let mut j = i;
    while j < n && s.get_char(j) != '"'
        invariant
            i <= j <= n == s@.len(),
            quote_end(s@, i as int) == quote_end(s@, j as int),
        decreases n - j,
    {
        j = j + 1;
    }
    j
}

/// Scans a number literal starting at the digit at `i`: the raw text is
/// kept as the surface form, the decoded literal is its canonical value.
fn scan_number(s: &str, i: usize, line: u32) -> (r: (Token, usize))
    requires
        i < s@.len(),
        is_digit(s@[i as int]),
    ensures
        r.0@ == number_token(s@, i as int, line),
        r.1 == number_end(s@, i as int),
        i < r.1 <= s@.len(),
{
    let n = s.unicode_len();
    let d = digit_run_end_exec(s, i);
    proof {
        lemma_digit_run_end(s@, i as int);
    }
    let e: usize = if d < n && s.get_char(d) == '.' && d + 1 < n && is_digit_exec(s.get_char(d + 1)) {
        let e2 = digit_run_end_exec(s, d + 1);
        proof {
            lemma_digit_run_end(s@, d + 1);
        }
        e2
    } else {
        d
    };
    let text = s.substring_char(i, e).to_owned();
    let literal: String = match parse_num(text.as_str()) {
        Some(x) => {
            let rendered = num_strings(&x);
            rendered.1
        },
        None => text.clone(),
    };
    let t = Token::new(TokenType::NUMBER, text, literal, line);
    (t, e)
}

/// Scans an identifier starting at the word character at `i` and
/// reclassifies reserved words.
fn scan_identifier(s: &str, i: usize, line: u32) -> (r: (Token, usize))
    requires
        i < s@.len(),
        is_word_char(s@[i as int]),
    ensures
        r.0@ == ident_token(s@, i as int, line),
        r.1 == word_run_end(s@, i as int),
        i < r.1 <= s@.len(),
{
    let e = word_run_end_exec(s, i);
    proof {
        lemma_word_run_end(s@, i as int);
    }
    let text = s.substring_char(i, e).to_owned();
    let mut t = Token::new(TokenType::IDENTIFIER, text, String::from_str("null"), line);
    t.check_if_reserved();
    (t, e)
}

/// Scans a string literal whose content starts at `i`, just past the
/// opening quote.  Yields the token and the position after the closing
/// quote, or no token and the end of the text when the string never
/// closes: no token is emitted for an unterminated string.
fn scan_string(s: &str, i: usize, line: u32) -> (r: (Option<Token>, usize))
    requires
        i <= s@.len(),
    ensures
        quote_end(s@, i as int) < s@.len() ==> {
            &&& r.0 is Some
            &&& r.0->0@ == string_token(s@, i as int, quote_end(s@, i as int), line)
            &&& r.1 == quote_end(s@, i as int) + 1
        },
        quote_end(s@, i as int) == s@.len() ==> r.0 is None && r.1 == s@.len(),
        i <= r.1 <= s@.len(),
{
    let n = s.unicode_len();
    let e = quote_end_exec(s, i);
    proof {
        lemma_quote_end(s@, i as int);
    }
    if e < n {
        let content = s.substring_char(i, e);
        let literal = content.to_owned();
        let mut lexeme = String::from_str("\"");
        lexeme.append(content);
        lexeme.append("\"");
        proof {
            reveal_strlit("\"");
            assert(lexeme@ =~= seq!['"'] + s@.subrange(i as int, e as int) + seq!['"']);
        }
        let t = Token::new(TokenType::STRING, lexeme, literal, line);
        (Some(t), e + 1)
    } else {
        (None, n)
    }
}

/// The ghost images of a token vector's elements.
pub open spec fn views_of(ts: Seq<Token>) -> Seq<TokenView> {
    ts.map_values(|t: Token| t@)
}

proof fn lemma_views_push(ts: Seq<Token>, t: Token)
    ensures
        views_of(ts.push(t)) =~= views_of(ts).push(t@),
{
}

/// Scans the whole program text into its token sequence and diagnostics.
/// The token sequence always ends with the end-of-input token; every
/// diagnostic names the line it arose on.
pub fn tokenize(source: &str) -> (r: (Vec<Token>, Vec<LexError>))
    ensures
        views_of(r.0@) == spec_lex(source@, 0, 1).0,
        r.1@ == spec_lex(source@, 0, 1).1,
{
    let n = source.unicode_len();
    let mut tokens: Vec<Token> = Vec::new();
    let mut errors: Vec<LexError> = Vec::new();
    let mut i: usize = 0;
    let mut line: u32 = 1;
    while i < n
        invariant
            i <= n == source@.len(),
            spec_lex(source@, 0, 1).0 =~= views_of(tokens@) + spec_lex(source@, i as int, line).0,
            spec_lex(source@, 0, 1).1 =~= errors@ + spec_lex(source@, i as int, line).1,
        decreases n - i,
    {
        let ghost toks0 = views_of(tokens@);
        let ghost prev = tokens@;
        let ghost i0 = i as int;
        let ghost errs0 = errors@;
        let ghost step = spec_lex(source@, i as int, line);
        let c = source.get_char(i);
        if c == ' ' || c == '\t' {
            i = i + 1;
        } else if c == '\n' {
            if line < u32::MAX {
                line = line + 1;
            }
            i = i + 1;
        } else if c == '"' {
            let scanned = scan_string(source, i + 1, line);
            match scanned.0 {
                Some(t) => {
                    tokens.push(t);
                },
                None => {
                    errors.push(LexError { line, kind: LexErrorKind::UnterminatedString });
                },
            }
            i = scanned.1;
            proof {
                let e = quote_end(source@, i0 + 1);
                lemma_quote_end(source@, i0 + 1);
                assert(source@[i0] == '"');
                if e < source@.len() {
                    assert(step == (
                        seq![string_token(source@, i0 + 1, e, line)] + spec_lex(
                            source@,
                            e + 1,
                            line,
                        ).0,
                        spec_lex(source@, e + 1, line).1,
                    ));
                    lemma_views_push(prev, tokens@[prev.len() as int]);
                } else {
                    assert(step == (
                        spec_lex(source@, source@.len() as int, line).0,
                        seq![LexError { line, kind: LexErrorKind::UnterminatedString }] + spec_lex(
                            source@,
                            source@.len() as int,
                            line,
                        ).1,
                    ));
                }
                assert(views_of(tokens@) + spec_lex(source@, i as int, line).0 =~= toks0 + step.0);
                assert(errors@ + spec_lex(source@, i as int, line).1 =~= errs0 + step.1);
            }
        } else if is_digit_exec(c) {
            let scanned = scan_number(source, i, line);
            tokens.push(scanned.0);
            i = scanned.1;
            proof {
                lemma_views_push(prev, tokens@[prev.len() as int]);
                assert(views_of(tokens@) + spec_lex(source@, i as int, line).0 =~= toks0 + step.0);
            }
        } else if c == '/' && i + 1 < n && source.get_char(i + 1) == '/' {
            i = comment_end_exec(source, i);
            proof {
                assert(comment_end(source@, i0) == comment_end(source@, i0 + 1));
                lemma_comment_end(source@, i0 + 1);
            }
        } else if (c == '!' || c == '=' || c == '<' || c == '>') && i + 1 < n && source.get_char(
            i + 1,
        ) == '=' {
            let t = Token::get_token('=', c, line);
            tokens.push(t);
            i = i + 2;
            proof {
                lemma_views_push(prev, tokens@[prev.len() as int]);
                assert(views_of(tokens@) + spec_lex(source@, i as int, line).0 =~= toks0 + step.0);
            }
        } else {
            let k = Token::single_kind(c);
            if k == TokenType::INVALID {
                errors.push(LexError { line, kind: LexErrorKind::UnexpectedChar(c) });
                i = i + 1;
                proof {
                    assert(errors@ + spec_lex(source@, i as int, line).1 =~= errs0 + step.1);
                }
            } else if k == TokenType::IDENTIFIER {
                let scanned = scan_identifier(source, i, line);
                tokens.push(scanned.0);
                i = scanned.1;
                proof {
                    lemma_views_push(prev, tokens@[prev.len() as int]);
                    assert(views_of(tokens@) + spec_lex(source@, i as int, line).0 =~= toks0
                        + step.0);
                }
            } else {
                let t = Token::get_token(c, ' ', line);
                tokens.push(t);
                i = i + 1;
                proof {
                    lemma_views_push(prev, tokens@[prev.len() as int]);
                    assert(spec_token_kind(c, ' ') == spec_single_kind(c));
                    assert(views_of(tokens@) + spec_lex(source@, i as int, line).0 =~= toks0
                        + step.0);
                }
            }
        }
    }
    let eof = Token::new(TokenType::EOF, String::new(), String::from_str("null"), 0);
    let ghost prev = tokens@;
    tokens.push(eof);
    proof {
        lemma_views_push(prev, tokens@[prev.len() as int]);
        assert(eof@ == eof_token());
        assert(views_of(tokens@) =~= spec_lex(source@, 0, 1).0);
    }
    (tokens, errors)
}

#[via_fn]
proof fn spec_lex_decreases(s: Seq<char>, i: int, line: u32) {
    if 0 <= i < s.len() {
        lemma_quote_end(s, i + 1);
        lemma_digit_run_end(s, i);
        lemma_word_run_end(s, i);
        lemma_comment_end(s, i);
        if is_digit(s[i]) {
            let d = digit_run_end(s, i);
            if d + 1 < s.len() && s[d] == '.' && is_digit(s[d + 1]) {
                lemma_digit_run_end(s, d + 1);
            }
        }
        if is_word_char(s[i]) {
            assert(word_run_end(s, i) == word_run_end(s, i + 1));
        }
    }
}


/// The first double quote at or after `i` is exactly the first position
/// holding one.
proof fn lemma_quote_end_at(s: Seq<char>, i: int, p: int)
    requires
        0 <= i <= p < s.len(),
        s[p] == '"',
        forall|j: int| i <= j < p ==> #[trigger] s[j] != '"',
    ensures
        quote_end(s, i) == p,
{
    lemma_quote_end(s, i);
    if quote_end(s, i) < p {
        assert(s[quote_end(s, i)] != '"');
    }
    if quote_end(s, i) > p {
        assert(s[p] != '"');
    }
}

/// A whole-number literal in canonical spelling decodes to itself with a
/// forced trailing `.0`: lexing `57` yields the literal `57.0`.
pub proof fn lemma_whole_number_literal(t: Seq<char>)
    requires
        crate::num::all_digits(t),
        t.len() > 0,
        t.len() > 1 ==> t[0] != '0',
        crate::num::digits_val(t) <= 2147483647,
    ensures
        spec_number_literal(t) == t + ".0"@,
{
    reveal_strlit("inf");
    reveal_strlit("-inf");
    reveal_strlit("NaN");
    assert(t != "inf"@) by {
        if t == "inf"@ {
            assert(t[0] == 'i');
            assert(!crate::num::is_digit('i'));
        }
    }
    assert(t != "-inf"@) by {
        if t == "-inf"@ {
            assert(t[0] == '-');
            assert(!crate::num::is_digit('-'));
        }
    }
    assert(t != "NaN"@) by {
        if t == "NaN"@ {
            assert(t[0] == 'N');
            assert(!crate::num::is_digit('N'));
        }
    }
    crate::num::lemma_all_digits_no_first_dot(t);
    assert(crate::num::first_dot(t) == t.len());
    assert(crate::num::numeral_neg(t) == false) by {
        assert(crate::num::is_digit(t[0]));
        if t[0] == '-' {
            assert(!crate::num::is_digit('-'));
        }
    }
    assert(crate::num::numeral_mag(t) == t);
    assert(t.subrange(0, t.len() as int) =~= t);
    assert(crate::num::wf_mag(t));
    assert(crate::num::mag_digits(t) == t);
    assert(crate::num::mag_scale(t) == 0);
    let v = crate::num::digits_val(t);
    assert(crate::num::numeral_fits(t));
    let d = crate::num::numeral_dec(t);
    assert(d == (crate::num::Dec { neg: false, mant: v as u128, scale: 0u32 }));
    assert(crate::num::spec_parse_num(t) == Some(crate::num::Num::Fin(d)));
    assert(crate::num::canon_mant(v, 0) == (v, 0nat));
    crate::num::lemma_digits_roundtrip(t);
    assert(crate::num::dec_body(v, 0) == t);
    let x = crate::num::Num::Fin(d);
    assert(crate::num::spec_num_str(x) == t);
    assert(crate::num::literal_gets_point_zero(d));
    assert(spec_number_literal(t) == t + ".0"@);
}

/// Lexing a quoted string without an embedded double quote yields exactly
/// one string token: the quoted text as surface form and the bare text as
/// literal, followed by the end-of-input token, with no diagnostic.
pub proof fn lemma_lex_string(s: Seq<char>)
    requires
        forall|j: int| 0 <= j < s.len() ==> #[trigger] s[j] != '"',
    ensures
        spec_lex(seq!['"'] + s + seq!['"'], 0, 1).0 =~= seq![
            TokenView {
                token_type: TokenType::STRING,
                lexeme: seq!['"'] + s + seq!['"'],
                literal: s,
                line_num: 1,
            },
            eof_token(),
        ],
        spec_lex(seq!['"'] + s + seq!['"'], 0, 1).1 =~= Seq::<LexError>::empty(),
{
    let w = seq!['"'] + s + seq!['"'];
    let n = w.len() as int;
    assert(w[0] == '"');
    assert(w[n - 1] == '"');
    assert forall|j: int| 1 <= j < n - 1 implies #[trigger] w[j] != '"' by {
        assert(w[j] == s[j - 1]);
    }
    lemma_quote_end_at(w, 1, n - 1);
    let e = quote_end(w, 1);
    assert(e == n - 1);
    assert(w.subrange(1, e) =~= s);
    assert(string_token(w, 1, e, 1) == (TokenView {
        token_type: TokenType::STRING,
        lexeme: seq!['"'] + s + seq!['"'],
        literal: s,
        line_num: 1,
    })) by {
        assert(seq!['"'] + w.subrange(1, e) + seq!['"'] =~= w);
        assert(seq!['"'] + s + seq!['"'] =~= w);
    }
    assert(spec_lex(w, e + 1, 1) == (seq![eof_token()], Seq::<LexError>::empty()));
    assert(spec_lex(w, 0, 1).0 =~= seq![string_token(w, 1, e, 1)] + seq![eof_token()]);
}

/// Lexing an opening quote that never closes yields the unterminated-string
/// diagnostic and no string token: only the end-of-input token remains.
pub proof fn lemma_lex_unterminated_string(s: Seq<char>)
    requires
        forall|j: int| 0 <= j < s.len() ==> #[trigger] s[j] != '"',
    ensures
        spec_lex(seq!['"'] + s, 0, 1).0 =~= seq![eof_token()],
        spec_lex(seq!['"'] + s, 0, 1).1 =~= seq![
            LexError { line: 1, kind: LexErrorKind::UnterminatedString },
        ],
{
    let w = seq!['"'] + s;
    let n = w.len() as int;
    assert(w[0] == '"');
    assert forall|j: int| 1 <= j < n implies #[trigger] w[j] != '"' by {
        assert(w[j] == s[j - 1]);
    }
    lemma_quote_end(w, 1);
    let e = quote_end(w, 1);
    assert(e == n) by {
        if e < n {
            assert(w[e] == '"');
        }
    }
    assert(spec_lex(w, n, 1) == (seq![eof_token()], Seq::<LexError>::empty()));
}


/// The token sequence of any text ends with the end-of-input token.
pub proof fn lemma_spec_lex_ends_eof(s: Seq<char>, i: int, line: u32)
    ensures
        spec_lex(s, i, line).0.len() >= 1,
        spec_lex(s, i, line).0.last() == eof_token(),
    decreases s.len() - i,
{
    if i < 0 || i >= s.len() {
    } else {
        let c = s[i];
        lemma_quote_end(s, i + 1);
        lemma_digit_run_end(s, i);
        lemma_word_run_end(s, i);
        lemma_comment_end(s, i);
        if is_digit(c) {
            let d = digit_run_end(s, i);
            if d + 1 < s.len() && s[d] == '.' && is_digit(s[d + 1]) {
                lemma_digit_run_end(s, d + 1);
            }
        }
        if c == ' ' || c == '\t' {
            lemma_spec_lex_ends_eof(s, i + 1, line);
        } else if c == '\n' {
            lemma_spec_lex_ends_eof(s, i + 1, bump_line(line));
        } else if c == '"' {
            let e = quote_end(s, i + 1);
            if e < s.len() {
                lemma_spec_lex_ends_eof(s, e + 1, line);
            } else {
                lemma_spec_lex_ends_eof(s, s.len() as int, line);
            }
        } else if is_digit(c) {
            lemma_spec_lex_ends_eof(s, number_end(s, i), line);
        } else if c == '/' && i + 1 < s.len() && s[i + 1] == '/' {
            lemma_spec_lex_ends_eof(s, comment_end(s, i), line);
        } else if combines_with_equal(c) && i + 1 < s.len() && s[i + 1] == '=' {
            lemma_spec_lex_ends_eof(s, i + 2, line);
        } else if spec_single_kind(c) == TokenType::INVALID {
            lemma_spec_lex_ends_eof(s, i + 1, line);
        } else if spec_single_kind(c) == TokenType::IDENTIFIER {
            lemma_spec_lex_ends_eof(s, word_run_end(s, i), line);
        } else {
            lemma_spec_lex_ends_eof(s, i + 1, line);
        }
    }
}

} // verus!
