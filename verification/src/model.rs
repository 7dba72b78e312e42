//! Mathematical model of the scan.
//!
//! Everything here is specification-level: character classes, the cursor
//! motions (whitespace/comment skipping, maximal-munch runs), the value of a
//! digit run, keyword classification, and `spec_lex`, the function that says
//! which token sequence (or which lexical error) a given source text denotes.
//! The executable scanner in `lexer` is proved to return exactly `spec_lex`
//! of its input.

use vstd::prelude::*;

verus! {

/// Spec-level image of a token: lexemes as character sequences, constants as
/// unbounded integers.
pub enum TokenModel {
    IntKeyword,
    VoidKeyword,
    Identifier(Seq<char>),
    OpenParenthesis,
    CloseParenthesis,
    OpenBrace,
    CloseBrace,
    Constant(int),
    Semicolon,
    ReturnKeyword,
}

/// The two lexical failures: a character outside every token class, and a
/// digit run whose value does not fit the constant type.
#[derive(PartialEq, Eq, Debug, Clone, Copy, Structural)]
pub enum LexErrorKind {
    UnrecognizedCharacter,
    NumericLiteralOverflow,
}

/// Spec-level image of a lexical error: its kind and the 0-indexed line
/// (number of newline characters strictly before the offending lexeme).
pub struct LexErrorModel {
    pub kind: LexErrorKind,
    pub line: int,
}

// ---------------------------------------------------------------------------
// Character classes (ASCII; anything else is an unrecognized character).
// ---------------------------------------------------------------------------

pub open spec fn is_space_char(c: char) -> bool {
    c == ' ' || c == '\r' || c == '\t'
}

pub open spec fn is_digit_char(c: char) -> bool {
    48 <= c as u32 && c as u32 <= 57
}

pub open spec fn is_alpha_char(c: char) -> bool {
    (65 <= c as u32 && c as u32 <= 90) || (97 <= c as u32 && c as u32 <= 122)
}

/// Characters that may continue an identifier/keyword lexeme.
pub open spec fn is_word_char(c: char) -> bool {
    is_alpha_char(c) || is_digit_char(c)
}

pub open spec fn is_punct_char(c: char) -> bool {
    c == '(' || c == ')' || c == '{' || c == '}' || c == ';'
}

pub open spec fn punct_model(c: char) -> TokenModel {
    if c == '(' {
        TokenModel::OpenParenthesis
    } else if c == ')' {
        TokenModel::CloseParenthesis
    } else if c == '{' {
        TokenModel::OpenBrace
    } else if c == '}' {
        TokenModel::CloseBrace
    } else {
        TokenModel::Semicolon
    }
}

/// Numeric value of a single decimal digit character.
pub open spec fn digit_val(c: char) -> int {
    c as u32 - 48
}

// ---------------------------------------------------------------------------
// Newline counting (for 0-indexed line attribution of diagnostics).
// ---------------------------------------------------------------------------

pub open spec fn newline_count(s: Seq<char>) -> int
    decreases s.len(),
{
    if s.len() == 0 {
        0
    } else {
        newline_count(s.drop_last()) + if s.last() == '\n' {
            1int
        } else {
            0int
        }
    }
}

/// Line on which the character at position `p` stands: the number of
/// newlines strictly before it.
pub open spec fn line_at(s: Seq<char>, p: int) -> int {
    newline_count(s.take(p))
}

// ---------------------------------------------------------------------------
// Cursor motions.
// ---------------------------------------------------------------------------

/// First position at or after `i` holding a newline, or the end of input:
/// where a `//` comment stops eliding characters.
pub open spec fn comment_end(s: Seq<char>, i: int) -> int
    decreases s.len() - i,
{
    if !(0 <= i < s.len()) {
        i
    } else if s[i] == '\n' {
        i
    } else {
        comment_end(s, i + 1)
    }
}

/// End of a maximal run of decimal digits starting at `i`.
pub open spec fn digit_run_end(s: Seq<char>, i: int) -> int
    decreases s.len() - i,
{
    if !(0 <= i < s.len()) {
        i
    } else if is_digit_char(s[i]) {
        digit_run_end(s, i + 1)
    } else {
        i
    }
}

/// End of a maximal run of identifier characters starting at `i`.
pub open spec fn word_run_end(s: Seq<char>, i: int) -> int
    decreases s.len() - i,
{
    if !(0 <= i < s.len()) {
        i
    } else if is_word_char(s[i]) {
        word_run_end(s, i + 1)
    } else {
        i
    }
}

/// Position of the next lexeme start at or after `i`: spaces, newlines and
/// `//` comments are consumed without producing tokens.
pub open spec fn skip_to(s: Seq<char>, i: int) -> int
    decreases s.len() - i,
    via skip_to_decreases
{
    if !(0 <= i < s.len()) {
        i
    } else if is_space_char(s[i]) || s[i] == '\n' {
        skip_to(s, i + 1)
    } else if s[i] == '/' && i + 1 < s.len() && s[i + 1] == '/' {
        skip_to(s, comment_end(s, i + 2))
    } else {
        i
    }
}

#[via_fn]
proof fn skip_to_decreases(s: Seq<char>, i: int) {
    if 0 <= i < s.len() && s[i] == '/' && i + 1 < s.len() && s[i + 1] == '/' {
        lemma_comment_end(s, i + 2);
    }
}

// ---------------------------------------------------------------------------
// Lexeme interpretation.
// ---------------------------------------------------------------------------

/// Base-10 value of a run of digit characters (unsigned: the grammar has no
/// negative literals).
pub open spec fn digits_value(s: Seq<char>) -> int
    decreases s.len(),
{
    if s.len() == 0 {
        0
    } else {
        digits_value(s.drop_last()) * 10 + digit_val(s.last())
    }
}

/// Keyword/identifier disambiguation: exact match against the closed keyword
/// set; every other lexeme is an identifier carrying that exact lexeme.
pub open spec fn classify_word(lexeme: Seq<char>) -> TokenModel {
    if lexeme == seq!['i', 'n', 't'] {
        TokenModel::IntKeyword
    } else if lexeme == seq!['v', 'o', 'i', 'd'] {
        TokenModel::VoidKeyword
    } else if lexeme == seq!['r', 'e', 't', 'u', 'r', 'n'] {
        TokenModel::ReturnKeyword
    } else {
        TokenModel::Identifier(lexeme)
    }
}

// ---------------------------------------------------------------------------
// The scan itself.
// ---------------------------------------------------------------------------

/// Prepend a sequence of tokens to a scan result, passing an error through.
pub open spec fn lex_prepend_seq(
    ts: Seq<TokenModel>,
    r: Result<Seq<TokenModel>, LexErrorModel>,
) -> Result<Seq<TokenModel>, LexErrorModel> {
    match r {
        Ok(rest) => Ok(ts + rest),
        Err(e) => Err(e),
    }
}

/// Tokens denoted by `s` from position `i` on: skip whitespace and comments,
/// then classify the next character; punctuation is a one-character lexeme, a
/// digit starts a maximal digit run (an error if its value exceeds
/// `isize::MAX`), an alphabetic character starts a maximal identifier run,
/// and anything else is an unrecognized character. Errors carry the 0-indexed
/// line of the offending lexeme.
pub open spec fn spec_lex_from(s: Seq<char>, i: int) -> Result<Seq<TokenModel>, LexErrorModel>
    decreases s.len() - i,
    via spec_lex_from_decreases
{
    if !(0 <= i <= s.len()) {
        Ok(Seq::empty())
    } else {
        let j = skip_to(s, i);
        if !(j < s.len()) {
            Ok(Seq::empty())
        } else {
            let c = s[j];
            if is_punct_char(c) {
                lex_prepend_seq(seq![punct_model(c)], spec_lex_from(s, j + 1))
            } else if is_digit_char(c) {
                let k = digit_run_end(s, j + 1);
                let v = digits_value(s.subrange(j, k));
                if v <= isize::MAX {
                    lex_prepend_seq(seq![TokenModel::Constant(v)], spec_lex_from(s, k))
                } else {
                    Err(
                        LexErrorModel {
                            kind: LexErrorKind::NumericLiteralOverflow,
                            line: line_at(s, j),
                        },
                    )
                }
            } else if is_alpha_char(c) {
                let k = word_run_end(s, j + 1);
                lex_prepend_seq(seq![classify_word(s.subrange(j, k))], spec_lex_from(s, k))
            } else {
                Err(
                    LexErrorModel {
                        kind: LexErrorKind::UnrecognizedCharacter,
                        line: line_at(s, j),
                    },
                )
            }
        }
    }
}

#[via_fn]
proof fn spec_lex_from_decreases(s: Seq<char>, i: int) {
    if 0 <= i <= s.len() {
        lemma_skip_to(s, i);
        let j = skip_to(s, i);
        if j < s.len() {
            lemma_digit_run_end(s, j + 1);
            lemma_word_run_end(s, j + 1);
        }
    }
}

/// The tokens (or the lexical error) denoted by a whole source text.
pub open spec fn spec_lex(s: Seq<char>) -> Result<Seq<TokenModel>, LexErrorModel> {
    spec_lex_from(s, 0)
}

// ---------------------------------------------------------------------------
// One scanning step, seen on its own: the lexeme starting at a position `j`
// where `skip_to` leaves the cursor, the token it denotes, and the error it
// raises when it denotes none. `spec_lex_from` takes exactly these steps.
// ---------------------------------------------------------------------------

/// One past the lexeme that starts at `j`: a punctuation lexeme is one
/// character, a constant is a maximal digit run, an identifier or keyword a
/// maximal run of word characters.
pub open spec fn lexeme_end(s: Seq<char>, j: int) -> int {
    if !(0 <= j < s.len()) {
        j
    } else if is_punct_char(s[j]) {
        j + 1
    } else if is_digit_char(s[j]) {
        digit_run_end(s, j + 1)
    } else if is_alpha_char(s[j]) {
        word_run_end(s, j + 1)
    } else {
        j + 1
    }
}

/// The token assigned to the lexeme starting at `j`, for positions where
/// one is assigned (see `step_errs`).
pub open spec fn token_at(s: Seq<char>, j: int) -> TokenModel {
    if 0 <= j < s.len() && is_punct_char(s[j]) {
        punct_model(s[j])
    } else if 0 <= j < s.len() && is_digit_char(s[j]) {
        TokenModel::Constant(digits_value(s.subrange(j, digit_run_end(s, j + 1))))
    } else {
        classify_word(s.subrange(j, word_run_end(s, j + 1)))
    }
}

/// Whether the scan fails at the lexeme starting at `j`: its first
/// character belongs to no token class, or its digit run's value does not
/// fit the constant type.
pub open spec fn step_errs(s: Seq<char>, j: int) -> bool {
    &&& 0 <= j < s.len()
    &&& {
        ||| (!is_punct_char(s[j]) && !is_digit_char(s[j]) && !is_alpha_char(s[j]))
        ||| (is_digit_char(s[j]) && digits_value(s.subrange(j, digit_run_end(s, j + 1)))
            > isize::MAX)
    }
}

/// The error the scan reports at the lexeme starting at `j`, attributed to
/// that lexeme's 0-indexed line.
pub open spec fn step_error(s: Seq<char>, j: int) -> LexErrorModel {
    if 0 <= j < s.len() && is_digit_char(s[j]) {
        LexErrorModel { kind: LexErrorKind::NumericLiteralOverflow, line: line_at(s, j) }
    } else {
        LexErrorModel { kind: LexErrorKind::UnrecognizedCharacter, line: line_at(s, j) }
    }
}

// ---------------------------------------------------------------------------
// Basic facts about the cursor motions.
// ---------------------------------------------------------------------------

/// `comment_end` stays within bounds, elides no newline, and stops on one.
pub proof fn lemma_comment_end(s: Seq<char>, i: int)
    requires
        0 <= i <= s.len(),
    ensures
        i <= comment_end(s, i) <= s.len(),
        comment_end(s, i) < s.len() ==> s[comment_end(s, i)] == '\n',
        forall|j: int| i <= j < comment_end(s, i) ==> s[j] != '\n',
    decreases s.len() - i,
{
    if 0 <= i < s.len() && s[i] != '\n' {
        lemma_comment_end(s, i + 1);
    }
}

/// `digit_run_end` stays within bounds, covers only digits, and is maximal.
pub proof fn lemma_digit_run_end(s: Seq<char>, i: int)
    requires
        0 <= i <= s.len(),
    ensures
        i <= digit_run_end(s, i) <= s.len(),
        forall|j: int| i <= j < digit_run_end(s, i) ==> is_digit_char(s[j]),
        digit_run_end(s, i) < s.len() ==> !is_digit_char(s[digit_run_end(s, i)]),
    decreases s.len() - i,
{
    if 0 <= i < s.len() && is_digit_char(s[i]) {
        lemma_digit_run_end(s, i + 1);
    }
}

/// `word_run_end` stays within bounds, covers only word characters, and is
/// maximal.
pub proof fn lemma_word_run_end(s: Seq<char>, i: int)
    requires
        0 <= i <= s.len(),
    ensures
        i <= word_run_end(s, i) <= s.len(),
        forall|j: int| i <= j < word_run_end(s, i) ==> is_word_char(s[j]),
        word_run_end(s, i) < s.len() ==> !is_word_char(s[word_run_end(s, i)]),
    decreases s.len() - i,
{
    if 0 <= i < s.len() && is_word_char(s[i]) {
        lemma_word_run_end(s, i + 1);
    }
}

/// `skip_to` stays within bounds, lands on a lexeme start (or the end), and
/// is idempotent.
pub proof fn lemma_skip_to(s: Seq<char>, i: int)
    requires
        0 <= i <= s.len(),
    ensures
        i <= skip_to(s, i) <= s.len(),
        skip_to(s, i) < s.len() ==> !is_space_char(s[skip_to(s, i)]) && s[skip_to(s, i)] != '\n'
            && !(s[skip_to(s, i)] == '/' && skip_to(s, i) + 1 < s.len() && s[skip_to(s, i) + 1]
            == '/'),
        skip_to(s, skip_to(s, i)) == skip_to(s, i),
    decreases s.len() - i,
{
    if 0 <= i < s.len() {
        if is_space_char(s[i]) || s[i] == '\n' {
            lemma_skip_to(s, i + 1);
        } else if s[i] == '/' && i + 1 < s.len() && s[i + 1] == '/' {
            lemma_comment_end(s, i + 2);
            lemma_skip_to(s, comment_end(s, i + 2));
        }
    }
}

// ---------------------------------------------------------------------------
// Facts about newline counting and digit-run values.
// ---------------------------------------------------------------------------

/// A sequence holds between zero newlines and one per character.
pub proof fn lemma_newline_count_bounds(s: Seq<char>)
    ensures
        0 <= newline_count(s) <= s.len(),
    decreases s.len(),
{
    if s.len() > 0 {
        lemma_newline_count_bounds(s.drop_last());
    }
}

/// Extending a prefix by one character raises the newline count by one
/// exactly when that character is a newline.
pub proof fn lemma_newline_count_take_step(s: Seq<char>, p: int)
    requires
        0 <= p < s.len(),
    ensures
        newline_count(s.take(p + 1)) == newline_count(s.take(p)) + if s[p] == '\n' {
            1int
        } else {
            0int
        },
{
    assert(s.take(p + 1).drop_last() =~= s.take(p));
    assert(s.take(p + 1).last() == s[p]);
}

/// Newlines in a concatenation are the newlines of the parts.
pub proof fn lemma_newline_count_concat(a: Seq<char>, b: Seq<char>)
    ensures
        newline_count(a + b) == newline_count(a) + newline_count(b),
    decreases b.len(),
{
    if b.len() == 0 {
        assert(a + b =~= a);
    } else {
        assert((a + b).drop_last() =~= a + b.drop_last());
        assert((a + b).last() == b.last());
        lemma_newline_count_concat(a, b.drop_last());
    }
}

/// A sequence without newline characters counts zero newlines.
pub proof fn lemma_newline_count_none(s: Seq<char>)
    requires
        forall|j: int| 0 <= j < s.len() ==> s[j] != '\n',
    ensures
        newline_count(s) == 0,
    decreases s.len(),
{
    if s.len() > 0 {
        lemma_newline_count_none(s.drop_last());
    }
}

/// The value of a digit run is never negative.
pub proof fn lemma_digits_value_nonneg(s: Seq<char>)
    requires
        forall|j: int| 0 <= j < s.len() ==> is_digit_char(s[j]),
    ensures
        digits_value(s) >= 0,
    decreases s.len(),
{
    if s.len() > 0 {
        lemma_digits_value_nonneg(s.drop_last());
    }
}

/// Appending one digit multiplies the value by ten and adds the digit.
pub proof fn lemma_digits_value_push(s: Seq<char>, c: char)
    ensures
        digits_value(s.push(c)) == digits_value(s) * 10 + digit_val(c),
{
    assert(s.push(c).drop_last() =~= s);
    assert(s.push(c).last() == c);
}

/// The value of a digit run only grows as the run is extended: once a prefix
/// overflows, the whole run overflows.
pub proof fn lemma_digits_value_prefix_le(s: Seq<char>, m: int)
    requires
        forall|j: int| 0 <= j < s.len() ==> is_digit_char(s[j]),
        0 <= m <= s.len(),
    ensures
        digits_value(s.take(m)) <= digits_value(s),
    decreases s.len() - m,
{
    if m == s.len() {
        assert(s.take(m) =~= s);
    } else {
        assert(s.take(m + 1).drop_last() =~= s.take(m));
        assert(s.take(m + 1).last() == s[m]);
        lemma_digits_value_nonneg(s.take(m));
        lemma_digits_value_prefix_le(s, m + 1);
    }
}

/// Skipping first does not change the scan: the scan begins by skipping.
pub proof fn lemma_lex_from_skip(s: Seq<char>, i: int)
    requires
        0 <= i <= s.len(),
    ensures
        spec_lex_from(s, i) == spec_lex_from(s, skip_to(s, i)),
{
    lemma_skip_to(s, i);
}

} // verus!
