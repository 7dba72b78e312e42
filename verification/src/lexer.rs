//! Lexer for a minimal C-like language.
//!
//! `Tokenizer` scans a source string into a sequence of `TokenType` values:
//! keywords (`int`, `void`, `return`), identifiers, decimal constants, and
//! the punctuation `( ) { } ;`. Whitespace and `//` line comments are elided;
//! a line counter attributes diagnostics to their 0-indexed source line. An
//! unrecognized character or an overflowing constant is reported as a
//! `LexError` value rather than aborting the scan's caller.
//!
//! The scanner is verified against `model::spec_lex`: `scan_source` on a
//! fresh tokenizer returns exactly the token sequence (or the error) that
//! `spec_lex` assigns to the source text.

use crate::model::classify_word;
use crate::model::comment_end;
use crate::model::digit_run_end;
use crate::model::digit_val;
use crate::model::digits_value;
use crate::model::is_alpha_char;
use crate::model::is_digit_char;
use crate::model::lemma_comment_end;
use crate::model::lemma_digit_run_end;
use crate::model::lemma_digits_value_prefix_le;
use crate::model::lemma_digits_value_push;
use crate::model::lemma_lex_from_skip;
use crate::model::lemma_newline_count_bounds;
use crate::model::lemma_newline_count_concat;
use crate::model::lemma_newline_count_none;
use crate::model::lemma_newline_count_take_step;
use crate::model::lemma_skip_to;
use crate::model::lemma_word_run_end;
use crate::model::lex_prepend_seq;
use crate::model::lexeme_end;
use crate::model::line_at;
use crate::model::newline_count;
use crate::model::punct_model;
use crate::model::skip_to;
use crate::model::spec_lex_from;
use crate::model::step_error;
use crate::model::step_errs;
use crate::model::token_at;
use crate::model::word_run_end;
use crate::model::LexErrorKind;
use crate::model::LexErrorModel;
use crate::model::TokenModel;
use vstd::prelude::*;
use vstd::string::StrSliceExecFns;

verus! {

/// The classified units of source text that the scanner emits.
#[derive(Eq, PartialEq, Debug, Clone, Hash)]
pub enum TokenType {
    /// The `int` keyword.
    IntKeyword,
    /// The `void` keyword.
    VoidKeyword,
    /// Any non-keyword run of alphanumeric characters, carrying the exact
    /// source lexeme.
    Identifier(String),
    /// `(`
    OpenParenthesis,
    /// `)`
    CloseParenthesis,
    /// `{`
    OpenBrace,
    /// `}`
    CloseBrace,
    /// A decimal constant, carrying the parsed value of its digit run.
    Constant(isize),
    /// `;`
    Semicolon,
    /// The `return` keyword.
    ReturnKeyword,
}

impl View for TokenType {
    type V = TokenModel;

    open spec fn view(&self) -> TokenModel {
        match self {
            TokenType::IntKeyword => TokenModel::IntKeyword,
            TokenType::VoidKeyword => TokenModel::VoidKeyword,
            TokenType::Identifier(s) => TokenModel::Identifier(s@),
            TokenType::OpenParenthesis => TokenModel::OpenParenthesis,
            TokenType::CloseParenthesis => TokenModel::CloseParenthesis,
            TokenType::OpenBrace => TokenModel::OpenBrace,
            TokenType::CloseBrace => TokenModel::CloseBrace,
            TokenType::Constant(v) => TokenModel::Constant(*v as int),
            TokenType::Semicolon => TokenModel::Semicolon,
            TokenType::ReturnKeyword => TokenModel::ReturnKeyword,
        }
    }
}

impl DeepView for TokenType {
    type V = TokenModel;

    open spec fn deep_view(&self) -> TokenModel {
        self.view()
    }
}

/// A recoverable lexical error: what went wrong and on which 0-indexed
/// source line.
#[derive(Eq, PartialEq, Debug, Clone, Copy, Structural)]
pub struct LexError {
    pub kind: LexErrorKind,
    pub line: usize,
}

impl View for LexError {
    type V = LexErrorModel;

    open spec fn view(&self) -> LexErrorModel {
        LexErrorModel { kind: self.kind, line: self.line as int }
    }
}

impl LexError {
    /// A human-readable description of the error kind.
    pub fn message(&self) -> (m: &'static str)
        ensures
            self.kind == LexErrorKind::UnrecognizedCharacter ==> m@ =~= "unrecognized character"@,
            self.kind == LexErrorKind::NumericLiteralOverflow ==> m@
                =~= "numeric constant out of range"@,
    {
        match self.kind {
            LexErrorKind::UnrecognizedCharacter => "unrecognized character",
            LexErrorKind::NumericLiteralOverflow => "numeric constant out of range",
        }
    }
}

/// The character `peek`/`peek_next` report at position `i`: the character
/// itself within bounds, a NUL sentinel at or past the end.
pub open spec fn spec_peek(s: Seq<char>, i: int) -> char {
    if 0 <= i < s.len() {
        s[i]
    } else {
        '\0'
    }
}

/// Struct for tokenizing a source string: the accumulated tokens and the
/// cursor (`start` of the current lexeme, `current` next character to
/// examine, `line` newlines consumed so far).
pub struct Tokenizer<'s> {
    pub tokens: Vec<TokenType>,
    pub source: &'s str,
    pub start: usize,
    pub current: usize,
    pub line: usize,
}

impl<'s> Tokenizer<'s> {
    /// Cursor indices stay within the source.
    pub open spec fn wf(&self) -> bool {
        self.start <= self.current <= self.source@.len()
    }

    /// The line counter equals the number of newlines strictly before the
    /// cursor.
    pub open spec fn line_ok(&self) -> bool {
        self.line as int == newline_count(self.source@.take(self.current as int))
    }

    /// Constructs a new Tokenizer over the given source string, with an
    /// empty token list and the cursor at the start.
    pub fn new(source: &'s str) -> (r: Self)
        ensures
            r.source@ == source@,
            r.tokens@ =~= Seq::<TokenType>::empty(),
            r.start == 0,
            r.current == 0,
            r.line == 0,
            r.wf(),
            r.line_ok(),
    {
        proof {
            assert(Seq::<char>::empty().take(0) =~= Seq::<char>::empty());
            assert(source@.take(0) =~= Seq::<char>::empty());
        }
        Self { tokens: Vec::new(), source, start: 0, current: 0, line: 0 }
    }

    /// Whether the cursor has consumed the whole source.
    fn is_at_end(&self) -> (r: bool)
        ensures
            r == (self.current == self.source@.len()),
            self.source@.len() <= usize::MAX,
    {
        self.current == self.source.unicode_len()
    }

    /// The character at the cursor, or the sentinel at the end; does not
    /// advance.
    fn peek(&self) -> (c: char)
        requires
            self.current <= self.source@.len(),
        ensures
            c == spec_peek(self.source@, self.current as int),
            self.source@.len() <= usize::MAX,
    {
        if self.is_at_end() {
            '\0'
        } else {
            self.source.get_char(self.current)
        }
    }

    /// The character one past the cursor, or the sentinel; used only to
    /// detect the second `/` of a line comment.
    fn peek_next(&self) -> (c: char)
        requires
            self.current <= self.source@.len(),
        ensures
            c == spec_peek(self.source@, self.current as int + 1),
    {
        let n = self.source.unicode_len();
        if self.current >= n || self.current + 1 >= n {
            '\0'
        } else {
            self.source.get_char(self.current + 1)
        }
    }

    /// Returns the character at the cursor and advances the cursor by one.
    fn advance(&mut self) -> (c: char)
        requires
            old(self).current < old(self).source@.len(),
        ensures
            c == old(self).source@[old(self).current as int],
            final(self).current == old(self).current + 1,
            final(self).source == old(self).source,
            final(self).tokens == old(self).tokens,
            final(self).start == old(self).start,
            final(self).line == old(self).line,
    {
        let c = self.peek();
        self.current = self.current + 1;
        c
    }

    /// Skips whitespace and `//` line comments, incrementing the line
    /// counter once per newline consumed; stops at the next lexeme start.
    #[verifier::loop_isolation(false)]
    fn skip_whitespace(&mut self)
        requires
            old(self).wf(),
            old(self).line_ok(),
        ensures
            final(self).wf(),
            final(self).line_ok(),
            final(self).source == old(self).source,
            final(self).tokens == old(self).tokens,
            final(self).start == old(self).start,
            final(self).current as int == skip_to(old(self).source@, old(self).current as int),
    {
        let ghost s = self.source@;
        let ghost i0 = self.current as int;
        while !self.is_at_end()
            invariant
                self.wf(),
                self.line_ok(),
                self.source == old(self).source,
                self.tokens == old(self).tokens,
                self.start == old(self).start,
                s == self.source@,
                skip_to(s, self.current as int) == skip_to(s, i0),
            decreases s.len() - self.current,
        {
            let c = self.peek();
            if c == ' ' || c == '\r' || c == '\t' {
                proof {
                    lemma_newline_count_take_step(s, self.current as int);
                    assert(skip_to(s, self.current as int) == skip_to(s, self.current + 1));
                }
                self.advance();
            } else if c == '\n' {
                proof {
                    lemma_newline_count_bounds(s.take(self.current as int));
                    lemma_newline_count_take_step(s, self.current as int);
                    assert(skip_to(s, self.current as int) == skip_to(s, self.current + 1));
                }
                self.line = self.line + 1;
                self.advance();
            } else if c == '/' && self.peek_next() == '/' {
                let ghost p = self.current as int;
                proof {
                    lemma_comment_end(s, p);
                }
                let ghost k = comment_end(s, p);
                while self.peek() != '\n' && !self.is_at_end()
                    invariant
                        self.wf(),
                        self.line_ok(),
                        self.source == old(self).source,
                        self.tokens == old(self).tokens,
                        self.start == old(self).start,
                        s == self.source@,
                        p <= self.current as int <= k <= s.len(),
                        k < s.len() ==> s[k] == '\n',
                        forall|j: int| p <= j < k ==> s[j] != '\n',
                        skip_to(s, p) == skip_to(s, i0),
                        p < s.len() && s[p] == '/',
                        p + 1 < s.len() && s[p + 1] == '/',
                    decreases k - self.current,
                {
                    proof {
                        lemma_newline_count_take_step(s, self.current as int);
                    }
                    self.advance();
                }
                proof {
                    // the inner loop stopped exactly at the comment's end
                    assert(self.current as int == k);
                    // the two slashes are not newlines, so skipping the
                    // comment from its start is skipping from two past it
                    assert(comment_end(s, p) == comment_end(s, p + 1));
                    assert(comment_end(s, p + 1) == comment_end(s, p + 2));
                    assert(skip_to(s, p) == skip_to(s, comment_end(s, p + 2)));
                }
            } else {
                proof {
                    assert(skip_to(s, self.current as int) == self.current as int);
                }
                return ;
            }
        }
    }

    /// The lexeme between `start` and `current`: the substring the current
    /// token is derived from.
    fn get_lexeme(&self) -> (r: &str)
        requires
            self.wf(),
        ensures
            r@ == self.source@.subrange(self.start as int, self.current as int),
    {
        self.source.substring_char(self.start, self.current)
    }

    /// Parses the current lexeme (a non-empty digit run) as a decimal
    /// constant; a run whose value exceeds `isize::MAX` is a lexical error
    /// attributed to the current line.
    #[verifier::loop_isolation(false)]
    fn get_constant(&self) -> (r: Result<isize, LexError>)
        requires
            self.wf(),
            self.start < self.current,
            forall|j: int|
                self.start <= j < self.current ==> is_digit_char(#[trigger] self.source@[j]),
        ensures
            ({
                let lexeme = self.source@.subrange(self.start as int, self.current as int);
                match r {
                    Ok(v) => v as int == digits_value(lexeme),
                    Err(e) => {
                        &&& digits_value(lexeme) > isize::MAX
                        &&& e@ == (LexErrorModel {
                            kind: LexErrorKind::NumericLiteralOverflow,
                            line: self.line as int,
                        })
                    },
                }
            }),
    {
        let ghost s = self.source@;
        let ghost st = self.start as int;
        let ghost full = s.subrange(st, self.current as int);
        let mut acc: isize = 0;
        let mut p: usize = self.start;
        proof {
            assert(s.subrange(st, st) =~= Seq::<char>::empty());
        }
        while p < self.current
            invariant
                self.start <= p <= self.current,
                0 <= acc,
                acc as int == digits_value(s.subrange(st, p as int)),
            decreases self.current - p,
        {
            let ch = self.source.get_char(p);
            let d = (ch as u32 - 48) as isize;
            proof {
                assert(is_digit_char(s[p as int]));
                assert(d == digit_val(s[p as int]));
                assert(s.subrange(st, p + 1) =~= s.subrange(st, p as int).push(s[p as int]));
                lemma_digits_value_push(s.subrange(st, p as int), s[p as int]);
                assert(forall|j: int| 0 <= j < full.len() ==> is_digit_char(#[trigger] full[j]));
                assert(full.take(p + 1 - st) =~= s.subrange(st, p + 1));
                lemma_digits_value_prefix_le(full, p + 1 - st);
            }
            let acc10 = match acc.checked_mul(10) {
                Some(x) => x,
                None => {
                    proof {
                        assert(acc * 10 >= 0) by (nonlinear_arith)
                            requires
                                acc >= 0,
                        ;
                    }
                    return Err(
                        LexError { kind: LexErrorKind::NumericLiteralOverflow, line: self.line },
                    );
                },
            };
            let acc2 = match acc10.checked_add(d) {
                Some(x) => x,
                None => {
                    return Err(
                        LexError { kind: LexErrorKind::NumericLiteralOverflow, line: self.line },
                    );
                },
            };
            acc = acc2;
            p = p + 1;
        }
        proof {
            assert(s.subrange(st, p as int) =~= full);
        }
        Ok(acc)
    }

    /// Scans the remainder of a numeric constant (whose first digit has
    /// already been consumed) and appends it as a `Constant` token, or
    /// reports the overflow error.
    #[verifier::loop_isolation(false)]
    fn lex_constant(&mut self) -> (r: Result<(), LexError>)
        requires
            old(self).wf(),
            old(self).line_ok(),
            old(self).current == old(self).start + 1,
            (old(self).start as int) < old(self).source@.len(),
            is_digit_char(old(self).source@[old(self).start as int]),
        ensures
            final(self).wf(),
            final(self).line_ok(),
            final(self).source == old(self).source,
            final(self).start == old(self).start,
            final(self).current as int == digit_run_end(
                old(self).source@,
                old(self).current as int,
            ),
            ({
                let lexeme = old(self).source@.subrange(
                    old(self).start as int,
                    final(self).current as int,
                );
                match r {
                    Ok(_) => {
                        &&& digits_value(lexeme) <= isize::MAX
                        &&& final(self).tokens.deep_view() =~= old(self).tokens.deep_view().push(
                            TokenModel::Constant(digits_value(lexeme)),
                        )
                    },
                    Err(e) => {
                        &&& digits_value(lexeme) > isize::MAX
                        &&& final(self).tokens == old(self).tokens
                        &&& e@ == (LexErrorModel {
                            kind: LexErrorKind::NumericLiteralOverflow,
                            line: line_at(old(self).source@, old(self).start as int),
                        })
                    },
                }
            }),
    {
        let ghost s = self.source@;
        let ghost st = self.start as int;
        let ghost c0 = self.current as int;
        proof {
            lemma_digit_run_end(s, c0);
        }
        let ghost k = digit_run_end(s, c0);
        while is_digit(self.peek()) && !self.is_at_end()
            invariant
                self.wf(),
                self.line_ok(),
                self.source == old(self).source,
                self.tokens == old(self).tokens,
                self.start == old(self).start,
                c0 <= self.current as int <= k,
                digit_run_end(s, self.current as int) == k,
            decreases s.len() - self.current,
        {
            proof {
                lemma_newline_count_take_step(s, self.current as int);
                lemma_digit_run_end(s, self.current + 1);
                assert(digit_run_end(s, self.current as int) == digit_run_end(
                    s,
                    self.current + 1,
                ));
            }
            self.advance();
        }
        proof {
            assert(self.current as int == k);
            // every character from the lexeme start to the run's end is a digit
            assert(forall|j: int| st <= j < k ==> is_digit_char(#[trigger] s[j]));
            // digits are not newlines, so the run's line is the line of its start
            assert(s.take(k) =~= s.take(st) + s.subrange(st, k));
            lemma_newline_count_concat(s.take(st), s.subrange(st, k));
            lemma_newline_count_none(s.subrange(st, k));
        }
        let constant = match self.get_constant() {
            Ok(v) => v,
            Err(e) => {
                return Err(e);
            },
        };
        self.tokens.push(TokenType::Constant(constant));
        proof {
            assert(self.tokens.deep_view() =~= old(self).tokens.deep_view().push(
                TokenModel::Constant(digits_value(s.subrange(st, k))),
            ));
        }
        Ok(())
    }

    /// Checks if the given lexeme matches a keyword; if not, it is treated
    /// as an identifier carrying that exact lexeme.
    pub fn match_keyword(&self, word: &str) -> (t: TokenType)
        ensures
            t@ == classify_word(word@),
    {
        let n = word.unicode_len();
        if n == 3 && word.get_char(0) == 'i' && word.get_char(1) == 'n' && word.get_char(2)
            == 't' {
            proof {
                assert(word@ =~= seq!['i', 'n', 't']);
            }
            TokenType::IntKeyword
        } else if n == 4 && word.get_char(0) == 'v' && word.get_char(1) == 'o' && word.get_char(2)
            == 'i' && word.get_char(3) == 'd' {
            proof {
                assert(word@ =~= seq!['v', 'o', 'i', 'd']);
            }
            TokenType::VoidKeyword
        } else if n == 6 && word.get_char(0) == 'r' && word.get_char(1) == 'e' && word.get_char(2)
            == 't' && word.get_char(3) == 'u' && word.get_char(4) == 'r' && word.get_char(5)
            == 'n' {
            proof {
                assert(word@ =~= seq!['r', 'e', 't', 'u', 'r', 'n']);
            }
            TokenType::ReturnKeyword
        } else {
            proof {
                assert(word@ != seq!['i', 'n', 't']) by {
                    if word@ == seq!['i', 'n', 't'] {
                        assert(word@.len() == 3);
                        assert(word@[0] == 'i' && word@[1] == 'n' && word@[2] == 't');
                    }
                }
                assert(word@ != seq!['v', 'o', 'i', 'd']) by {
                    if word@ == seq!['v', 'o', 'i', 'd'] {
                        assert(word@.len() == 4);
                        assert(word@[0] == 'v' && word@[1] == 'o' && word@[2] == 'i' && word@[3]
                            == 'd');
                    }
                }
                assert(word@ != seq!['r', 'e', 't', 'u', 'r', 'n']) by {
                    if word@ == seq!['r', 'e', 't', 'u', 'r', 'n'] {
                        assert(word@.len() == 6);
                        assert(word@[0] == 'r' && word@[1] == 'e' && word@[2] == 't' && word@[3]
                            == 'u' && word@[4] == 'r' && word@[5] == 'n');
                    }
                }
            }
            TokenType::Identifier(word.to_owned())
        }
    }

    /// Scans the remainder of an identifier or keyword (whose first letter
    /// has already been consumed) and appends the classified token.
    #[verifier::loop_isolation(false)]
    fn lex_identifier(&mut self)
        requires
            old(self).wf(),
            old(self).line_ok(),
            old(self).current == old(self).start + 1,
            (old(self).start as int) < old(self).source@.len(),
            is_alpha_char(old(self).source@[old(self).start as int]),
        ensures
            final(self).wf(),
            final(self).line_ok(),
            final(self).source == old(self).source,
            final(self).start == old(self).start,
            final(self).current as int == word_run_end(old(self).source@, old(self).current as int),
            final(self).tokens.deep_view() =~= old(self).tokens.deep_view().push(
                classify_word(
                    old(self).source@.subrange(old(self).start as int, final(self).current as int),
                ),
            ),
    {
        let ghost s = self.source@;
        let ghost st = self.start as int;
        let ghost c0 = self.current as int;
        proof {
            lemma_word_run_end(s, c0);
        }
        let ghost k = word_run_end(s, c0);
        while is_alpha(self.peek()) || is_digit(self.peek())
            invariant
                self.wf(),
                self.line_ok(),
                self.source == old(self).source,
                self.tokens == old(self).tokens,
                self.start == old(self).start,
                c0 <= self.current as int <= k,
                word_run_end(s, self.current as int) == k,
            decreases s.len() - self.current,
        {
            proof {
                lemma_newline_count_take_step(s, self.current as int);
                lemma_word_run_end(s, self.current + 1);
                assert(word_run_end(s, self.current as int) == word_run_end(s, self.current + 1));
            }
            self.advance();
        }
        proof {
            assert(self.current as int == k);
        }
        let value: &str = self.get_lexeme();
        let token = self.match_keyword(value);
        self.tokens.push(token);
        proof {
            assert(self.tokens.deep_view() =~= old(self).tokens.deep_view().push(
                classify_word(s.subrange(st, k)),
            ));
        }
    }

    /// Skips whitespace and comments, then scans one token at the cursor
    /// and appends it to the token list; reports the lexical error that the
    /// model assigns to this position.
    fn scan_token(&mut self) -> (r: Result<(), LexError>)
        requires
            old(self).wf(),
            old(self).line_ok(),
        ensures
            final(self).wf(),
            final(self).line_ok(),
            final(self).source == old(self).source,
            final(self).current >= old(self).current,
            match r {
                Ok(_) => {
                    &&& ((old(self).current as int) < old(self).source@.len()
                        ==> final(self).current > old(self).current)
                    &&& final(self).tokens@.len() >= old(self).tokens@.len()
                    &&& final(self).tokens.deep_view().take(old(self).tokens@.len() as int)
                        =~= old(self).tokens.deep_view()
                    &&& spec_lex_from(old(self).source@, old(self).current as int)
                        == lex_prepend_seq(
                        final(self).tokens.deep_view().skip(old(self).tokens@.len() as int),
                        spec_lex_from(old(self).source@, final(self).current as int),
                    )
                },
                Err(e) => {
                    &&& final(self).tokens == old(self).tokens
                    &&& spec_lex_from(old(self).source@, old(self).current as int)
                        == Err::<Seq<TokenModel>, LexErrorModel>(e@)
                },
            },
            ({
                // the call takes exactly one step of the model's scan
                let s = old(self).source@;
                let j = skip_to(s, old(self).current as int);
                &&& final(self).start >= old(self).start
                &&& (j >= s.len() ==> {
                    // only whitespace and comments remained: nothing scanned
                    &&& r is Ok
                    &&& final(self).tokens == old(self).tokens
                    &&& final(self).current as int == j
                    &&& final(self).start == old(self).start
                })
                &&& (j < s.len() ==> final(self).start as int == j)
                &&& (j < s.len() && !step_errs(s, j) ==> {
                    // exactly one token is appended, its nonempty lexeme
                    // delimited by `start..current`
                    &&& r is Ok
                    &&& final(self).current as int == lexeme_end(s, j)
                    &&& j < lexeme_end(s, j) <= s.len()
                    &&& final(self).tokens.deep_view() =~= old(self).tokens.deep_view().push(
                        token_at(s, j),
                    )
                })
                &&& (j < s.len() && step_errs(s, j) ==> {
                    // the error is reported at this call, and appends nothing
                    &&& (r matches Err(e) && e@ == step_error(s, j))
                    &&& final(self).tokens == old(self).tokens
                })
            }),
    {
        let ghost s = self.source@;
        let ghost c0 = self.current as int;
        let ghost n0 = self.tokens@.len() as int;
        let ghost toks0 = self.tokens.deep_view();
        self.skip_whitespace();
        proof {
            lemma_skip_to(s, c0);
            lemma_lex_from_skip(s, c0);
        }
        let ghost j = self.current as int;
        if self.is_at_end() {
            proof {
                assert(spec_lex_from(s, j) == Ok::<Seq<TokenModel>, LexErrorModel>(Seq::empty()));
                assert(self.tokens.deep_view().skip(n0) =~= Seq::<TokenModel>::empty());
                assert(Seq::<TokenModel>::empty() + Seq::<TokenModel>::empty()
                    =~= Seq::<TokenModel>::empty());
                assert(self.tokens.deep_view().take(n0) =~= toks0);
            }
            return Ok(());
        }
        self.start = self.current;
        let c = self.advance();
        proof {
            // the skip landed on a lexeme start, never on a newline
            lemma_newline_count_take_step(s, j);
        }
        if c == '(' || c == ')' || c == '{' || c == '}' || c == ';' {
            let token = if c == '(' {
                TokenType::OpenParenthesis
            } else if c == ')' {
                TokenType::CloseParenthesis
            } else if c == '{' {
                TokenType::OpenBrace
            } else if c == '}' {
                TokenType::CloseBrace
            } else {
                TokenType::Semicolon
            };
            proof {
                assert(token@ == punct_model(c));
            }
            self.tokens.push(token);
            proof {
                assert(self.tokens.deep_view().skip(n0) =~= seq![punct_model(c)]);
                assert(self.tokens.deep_view().take(n0) =~= toks0);
                assert(spec_lex_from(s, j) == lex_prepend_seq(
                    seq![punct_model(c)],
                    spec_lex_from(s, j + 1),
                ));
            }
            Ok(())
        } else if is_digit(c) {
            let res = self.lex_constant();
            let ghost k = self.current as int;
            proof {
                lemma_digit_run_end(s, j + 1);
                assert(spec_lex_from(s, j) == if digits_value(s.subrange(j, k)) <= isize::MAX {
                    lex_prepend_seq(
                        seq![TokenModel::Constant(digits_value(s.subrange(j, k)))],
                        spec_lex_from(s, k),
                    )
                } else {
                    Err(
                        LexErrorModel {
                            kind: LexErrorKind::NumericLiteralOverflow,
                            line: line_at(s, j),
                        },
                    )
                });
                if res is Ok {
                    assert(self.tokens.deep_view().skip(n0) =~= seq![
                        TokenModel::Constant(digits_value(s.subrange(j, k))),
                    ]);
                    assert(self.tokens.deep_view().take(n0) =~= toks0);
                }
            }
            res
        } else if is_alpha(c) {
            self.lex_identifier();
            let ghost k = self.current as int;
            proof {
                lemma_word_run_end(s, j + 1);
                assert(spec_lex_from(s, j) == lex_prepend_seq(
                    seq![classify_word(s.subrange(j, k))],
                    spec_lex_from(s, k),
                ));
                assert(self.tokens.deep_view().skip(n0) =~= seq![
                    classify_word(s.subrange(j, k)),
                ]);
                assert(self.tokens.deep_view().take(n0) =~= toks0);
            }
            Ok(())
        } else {
            proof {
                assert(spec_lex_from(s, j) == Err::<Seq<TokenModel>, LexErrorModel>(
                    LexErrorModel { kind: LexErrorKind::UnrecognizedCharacter, line: line_at(s, j) },
                ));
                assert(self.line as int == line_at(s, j));
            }
            Err(LexError { kind: LexErrorKind::UnrecognizedCharacter, line: self.line })
        }
    }

    /// Scans the entire source string: returns the accumulated token list
    /// (leaving the tokenizer's own list empty), or the first lexical error.
    /// On a fresh tokenizer the result is exactly `spec_lex` of the source.
    #[verifier::loop_isolation(false)]
    pub fn scan_source(&mut self) -> (r: Result<Vec<TokenType>, LexError>)
        requires
            old(self).wf(),
            old(self).line_ok(),
        ensures
            final(self).wf(),
            final(self).line_ok(),
            final(self).source == old(self).source,
            match r {
                Ok(v) => {
                    &&& spec_lex_from(old(self).source@, old(self).current as int)
                        == Ok::<Seq<TokenModel>, LexErrorModel>(
                        v.deep_view().skip(old(self).tokens@.len() as int),
                    )
                    &&& v.deep_view().take(old(self).tokens@.len() as int)
                        == old(self).tokens.deep_view()
                    &&& (old(self).tokens@.len() == 0 ==> spec_lex_from(
                        old(self).source@,
                        old(self).current as int,
                    ) == Ok::<Seq<TokenModel>, LexErrorModel>(v.deep_view()))
                    &&& final(self).tokens@.len() == 0
                    &&& final(self).current == old(self).source@.len()
                },
                Err(e) => spec_lex_from(old(self).source@, old(self).current as int)
                    == Err::<Seq<TokenModel>, LexErrorModel>(e@),
            },
    {
        let ghost s = self.source@;
        let ghost c0 = self.current as int;
        let ghost n0 = self.tokens@.len() as int;
        let ghost toks0 = self.tokens.deep_view();
        while !self.is_at_end()
            invariant
                self.wf(),
                self.line_ok(),
                self.source == old(self).source,
                s == self.source@,
                self.tokens@.len() >= n0,
                self.tokens.deep_view().take(n0) =~= toks0,
                spec_lex_from(s, c0) == lex_prepend_seq(
                    self.tokens.deep_view().skip(n0),
                    spec_lex_from(s, self.current as int),
                ),
            decreases s.len() - self.current,
        {
            let ghost pre = *self;
            let res = self.scan_token();
            match res {
                Ok(_) => {
                    proof {
                        let d1 = pre.tokens.deep_view().skip(n0);
                        let d2 = self.tokens.deep_view().skip(pre.tokens@.len() as int);
                        assert(self.tokens.deep_view().take(pre.tokens@.len() as int).take(n0)
                            =~= self.tokens.deep_view().take(n0));
                        assert(self.tokens.deep_view().skip(n0) =~= d1 + d2);
                        match spec_lex_from(s, self.current as int) {
                            Ok(ts) => {
                                assert(d1 + (d2 + ts) =~= (d1 + d2) + ts);
                            },
                            Err(_) => {},
                        }
                    }
                },
                Err(e) => {
                    return Err(e);
                },
            }
        }
        proof {
            assert(spec_lex_from(s, self.current as int) == Ok::<Seq<TokenModel>, LexErrorModel>(Seq::empty()));
            let d = self.tokens.deep_view().skip(n0);
            assert(d + Seq::<TokenModel>::empty() =~= d);
        }
        let mut out: Vec<TokenType> = Vec::new();
        core::mem::swap(&mut out, &mut self.tokens);
        proof {
            if n0 == 0 {
                assert(out.deep_view().skip(0) =~= out.deep_view());
            }
        }
        Ok(out)
    }
}

/// Whether `c` is a decimal digit.
fn is_digit(c: char) -> (r: bool)
    ensures
        r == is_digit_char(c),
{
    let u = c as u32;
    48 <= u && u <= 57
}

/// Whether `c` is an ASCII letter.
fn is_alpha(c: char) -> (r: bool)
    ensures
        r == is_alpha_char(c),
{
    let u = c as u32;
    (65 <= u && u <= 90) || (97 <= u && u <= 122)
}

} // verus!
