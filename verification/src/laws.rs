//! Properties of the scan, proved once and for all over the model.
//!
//! Each law is stated against `model::spec_lex`, which `lexer::Tokenizer`
//! is proved to implement exactly; so each law carries over to the
//! executable scanner.

use crate::model::classify_word;
use crate::model::comment_end;
use crate::model::is_space_char;
use crate::model::lemma_comment_end;
use crate::model::lemma_newline_count_concat;
use crate::model::lemma_newline_count_none;
use crate::model::lemma_newline_count_take_step;
use crate::model::digit_run_end;
use crate::model::digits_value;
use crate::model::is_alpha_char;
use crate::model::is_digit_char;
use crate::model::is_punct_char;
use crate::model::is_word_char;
use crate::model::lemma_digit_run_end;
use crate::model::lemma_lex_from_skip;
use crate::model::lemma_skip_to;
use crate::model::lemma_word_run_end;
use crate::model::lex_prepend_seq;
use crate::model::newline_count;
use crate::model::skip_to;
use crate::model::spec_lex;
use crate::model::spec_lex_from;
use crate::model::word_run_end;
use crate::model::LexErrorKind;
use crate::model::LexErrorModel;
use crate::model::TokenModel;
use vstd::prelude::*;

verus! {

/// Maximal munch for identifiers and keywords: when the scanner reaches an
/// alphabetic character, the entire maximal run of alphanumeric characters
/// becomes one lexeme — the run is never split, and scanning resumes only
/// past its end.
pub proof fn lemma_maximal_munch(s: Seq<char>, i: int)
    requires
        0 <= i <= s.len(),
        skip_to(s, i) < s.len(),
        is_alpha_char(s[skip_to(s, i)]),
    ensures
        ({
            let j = skip_to(s, i);
            let k = word_run_end(s, j + 1);
            &&& j < k <= s.len()
            &&& (forall|m: int| j <= m < k ==> is_word_char(#[trigger] s[m]))
            &&& (k < s.len() ==> !is_word_char(s[k]))
            &&& spec_lex_from(s, i) == lex_prepend_seq(
                seq![classify_word(s.subrange(j, k))],
                spec_lex_from(s, k),
            )
        }),
{
    lemma_skip_to(s, i);
    lemma_lex_from_skip(s, i);
    lemma_word_run_end(s, skip_to(s, i) + 1);
}

/// Maximal munch for constants: when the scanner reaches a digit, the
/// entire maximal run of digits becomes one lexeme, emitted as a constant
/// when its value fits and reported as an overflow otherwise.
pub proof fn lemma_maximal_munch_constant(s: Seq<char>, i: int)
    requires
        0 <= i <= s.len(),
        skip_to(s, i) < s.len(),
        is_digit_char(s[skip_to(s, i)]),
    ensures
        ({
            let j = skip_to(s, i);
            let k = digit_run_end(s, j + 1);
            &&& j < k <= s.len()
            &&& (forall|m: int| j <= m < k ==> is_digit_char(#[trigger] s[m]))
            &&& (k < s.len() ==> !is_digit_char(s[k]))
            &&& spec_lex_from(s, i) == (if digits_value(s.subrange(j, k)) <= isize::MAX {
                lex_prepend_seq(
                    seq![TokenModel::Constant(digits_value(s.subrange(j, k)))],
                    spec_lex_from(s, k),
                )
            } else {
                Err(
                    LexErrorModel {
                        kind: LexErrorKind::NumericLiteralOverflow,
                        line: newline_count(s.take(j)),
                    },
                )
            })
        }),
{
    lemma_skip_to(s, i);
    lemma_lex_from_skip(s, i);
    lemma_digit_run_end(s, skip_to(s, i) + 1);
}

/// Idempotent classification: tokenizing is a pure function of the source
/// text, so scanning the same input any number of times yields the same,
/// deterministic result.
pub proof fn lemma_deterministic(s1: Seq<char>, s2: Seq<char>)
    requires
        s1 == s2,
    ensures
        spec_lex(s1) == spec_lex(s2),
{
}

/// Keyword exactness: the lexemes `int`, `void` and `return` always
/// classify as their keyword tokens, and every other lexeme classifies as
/// an identifier carrying exactly that lexeme.
pub proof fn lemma_keyword_exactness(lexeme: Seq<char>)
    ensures
        classify_word(seq!['i', 'n', 't']) == TokenModel::IntKeyword,
        classify_word(seq!['v', 'o', 'i', 'd']) == TokenModel::VoidKeyword,
        classify_word(seq!['r', 'e', 't', 'u', 'r', 'n']) == TokenModel::ReturnKeyword,
        lexeme != seq!['i', 'n', 't'] && lexeme != seq!['v', 'o', 'i', 'd'] && lexeme != seq![
            'r',
            'e',
            't',
            'u',
            'r',
            'n',
        ] ==> classify_word(lexeme) == TokenModel::Identifier(lexeme),
{
    assert(seq!['i', 'n', 't'].len() == 3);
    assert(seq!['v', 'o', 'i', 'd'].len() == 4);
    assert(seq!['r', 'e', 't', 'u', 'r', 'n'].len() == 6);
}

/// Empty input: scanning an empty source yields an empty token sequence
/// and no error.
pub proof fn lemma_empty_input(s: Seq<char>)
    requires
        s.len() == 0,
    ensures
        spec_lex(s) == Ok::<Seq<TokenModel>, LexErrorModel>(Seq::empty()),
{
}

// ---------------------------------------------------------------------------
// Comment transparency.
//
// The lemmas below compare two scans in lockstep. Two sources are `aligned`
// at a pair of positions when their suffixes from those positions are the
// same characters; every cursor motion then moves in lockstep, and when the
// prefixes also hold the same number of newlines, the scans from those
// positions denote the very same result.
// ---------------------------------------------------------------------------

/// The suffix of `s1` from `a` and the suffix of `s2` from `b` are the same
/// characters.
pub open spec fn aligned(s1: Seq<char>, s2: Seq<char>, a: int, b: int) -> bool {
    &&& 0 <= a <= s1.len()
    &&& 0 <= b <= s2.len()
    &&& s1.len() - a == s2.len() - b
    &&& forall|p: int| a <= p < s1.len() ==> #[trigger] s1[p] == s2[p + (b - a)]
}

/// `comment_end` characterized by its result: the first newline (or the end
/// of input) at or after `i`.
proof fn lemma_comment_end_eq(s: Seq<char>, i: int, e: int)
    requires
        0 <= i <= e <= s.len(),
        forall|m: int| i <= m < e ==> s[m] != '\n',
        e == s.len() || s[e] == '\n',
    ensures
        comment_end(s, i) == e,
    decreases e - i,
{
    if i < e {
        lemma_comment_end_eq(s, i + 1, e);
    }
}

/// `digit_run_end` characterized by its result: the digits run to `e` and
/// stop there.
proof fn lemma_digit_run_end_eq(s: Seq<char>, i: int, e: int)
    requires
        0 <= i <= e <= s.len(),
        forall|m: int| i <= m < e ==> is_digit_char(s[m]),
        e == s.len() || !is_digit_char(s[e]),
    ensures
        digit_run_end(s, i) == e,
    decreases e - i,
{
    if i < e {
        lemma_digit_run_end_eq(s, i + 1, e);
    }
}

/// `word_run_end` characterized by its result: the word characters run to
/// `e` and stop there.
proof fn lemma_word_run_end_eq(s: Seq<char>, i: int, e: int)
    requires
        0 <= i <= e <= s.len(),
        forall|m: int| i <= m < e ==> is_word_char(s[m]),
        e == s.len() || !is_word_char(s[e]),
    ensures
        word_run_end(s, i) == e,
    decreases e - i,
{
    if i < e {
        lemma_word_run_end_eq(s, i + 1, e);
    }
}

/// Over equal suffixes, `comment_end` moves in lockstep.
proof fn lemma_comment_end_aligned(s1: Seq<char>, s2: Seq<char>, a: int, b: int)
    requires
        aligned(s1, s2, a, b),
    ensures
        comment_end(s1, a) - a == comment_end(s2, b) - b,
    decreases s1.len() - a,
{
    if a < s1.len() {
        assert(s1[a] == s2[b]);
        if s1[a] != '\n' {
            assert(aligned(s1, s2, a + 1, b + 1));
            lemma_comment_end_aligned(s1, s2, a + 1, b + 1);
        }
    }
}

/// Over equal suffixes, `digit_run_end` moves in lockstep.
proof fn lemma_digit_run_end_aligned(s1: Seq<char>, s2: Seq<char>, a: int, b: int)
    requires
        aligned(s1, s2, a, b),
    ensures
        digit_run_end(s1, a) - a == digit_run_end(s2, b) - b,
    decreases s1.len() - a,
{
    if a < s1.len() {
        assert(s1[a] == s2[b]);
        if is_digit_char(s1[a]) {
            assert(aligned(s1, s2, a + 1, b + 1));
            lemma_digit_run_end_aligned(s1, s2, a + 1, b + 1);
        }
    }
}

/// Over equal suffixes, `word_run_end` moves in lockstep.
proof fn lemma_word_run_end_aligned(s1: Seq<char>, s2: Seq<char>, a: int, b: int)
    requires
        aligned(s1, s2, a, b),
    ensures
        word_run_end(s1, a) - a == word_run_end(s2, b) - b,
    decreases s1.len() - a,
{
    if a < s1.len() {
        assert(s1[a] == s2[b]);
        if is_word_char(s1[a]) {
            assert(aligned(s1, s2, a + 1, b + 1));
            lemma_word_run_end_aligned(s1, s2, a + 1, b + 1);
        }
    }
}

/// Over equal suffixes, `skip_to` moves in lockstep.
proof fn lemma_skip_to_aligned(s1: Seq<char>, s2: Seq<char>, a: int, b: int)
    requires
        aligned(s1, s2, a, b),
    ensures
        skip_to(s1, a) - a == skip_to(s2, b) - b,
    decreases s1.len() - a,
{
    if a < s1.len() {
        assert(s1[a] == s2[b]);
        if is_space_char(s1[a]) || s1[a] == '\n' {
            assert(aligned(s1, s2, a + 1, b + 1));
            lemma_skip_to_aligned(s1, s2, a + 1, b + 1);
        } else if s1[a] == '/' && a + 1 < s1.len() && s1[a + 1] == '/' {
            assert(s1[a + 1] == s2[b + 1]);
            lemma_comment_end(s1, a + 2);
            lemma_comment_end(s2, b + 2);
            assert(aligned(s1, s2, a + 2, b + 2));
            lemma_comment_end_aligned(s1, s2, a + 2, b + 2);
            let k1 = comment_end(s1, a + 2);
            let k2 = comment_end(s2, b + 2);
            assert(aligned(s1, s2, k1, k2));
            lemma_skip_to_aligned(s1, s2, k1, k2);
        } else {
            if a + 1 < s1.len() {
                assert(s1[a + 1] == s2[b + 1]);
            }
        }
    }
}

/// Equal suffixes with equally many newlines before them keep their newline
/// counts in lockstep at every later position.
proof fn lemma_newline_count_aligned(s1: Seq<char>, s2: Seq<char>, a: int, b: int, p: int)
    requires
        aligned(s1, s2, a, b),
        newline_count(s1.take(a)) == newline_count(s2.take(b)),
        a <= p <= s1.len(),
    ensures
        newline_count(s1.take(p)) == newline_count(s2.take(p + (b - a))),
    decreases p - a,
{
    if p > a {
        lemma_newline_count_aligned(s1, s2, a, b, p - 1);
        lemma_newline_count_take_step(s1, p - 1);
        lemma_newline_count_take_step(s2, p - 1 + (b - a));
        assert(s1[p - 1] == s2[p - 1 + (b - a)]);
    }
}

/// Equal suffixes with equally many newlines before them denote the same
/// scan result: the same tokens, or the same error on the same line.
proof fn lemma_lex_aligned(s1: Seq<char>, s2: Seq<char>, a: int, b: int)
    requires
        aligned(s1, s2, a, b),
        newline_count(s1.take(a)) == newline_count(s2.take(b)),
    ensures
        spec_lex_from(s1, a) == spec_lex_from(s2, b),
    decreases s1.len() - a,
{
    let d = b - a;
    lemma_skip_to(s1, a);
    lemma_skip_to(s2, b);
    lemma_skip_to_aligned(s1, s2, a, b);
    lemma_lex_from_skip(s1, a);
    lemma_lex_from_skip(s2, b);
    let j1 = skip_to(s1, a);
    let j2 = skip_to(s2, b);
    assert(j2 == j1 + d);
    assert(aligned(s1, s2, j1, j2));
    lemma_newline_count_aligned(s1, s2, a, b, j1);
    if j1 < s1.len() {
        let c = s1[j1];
        assert(c == s2[j2]);
        if is_punct_char(c) {
            assert(aligned(s1, s2, j1 + 1, j2 + 1));
            lemma_newline_count_aligned(s1, s2, j1, j2, j1 + 1);
            lemma_lex_aligned(s1, s2, j1 + 1, j2 + 1);
        } else if is_digit_char(c) {
            lemma_digit_run_end(s1, j1 + 1);
            lemma_digit_run_end(s2, j2 + 1);
            assert(aligned(s1, s2, j1 + 1, j2 + 1));
            lemma_digit_run_end_aligned(s1, s2, j1 + 1, j2 + 1);
            let k1 = digit_run_end(s1, j1 + 1);
            let k2 = digit_run_end(s2, j2 + 1);
            assert(k2 == k1 + d);
            assert(s1.subrange(j1, k1) =~= s2.subrange(j2, k2));
            assert(aligned(s1, s2, k1, k2));
            lemma_newline_count_aligned(s1, s2, j1, j2, k1);
            if digits_value(s1.subrange(j1, k1)) <= isize::MAX {
                lemma_lex_aligned(s1, s2, k1, k2);
            }
        } else if is_alpha_char(c) {
            lemma_word_run_end(s1, j1 + 1);
            lemma_word_run_end(s2, j2 + 1);
            assert(aligned(s1, s2, j1 + 1, j2 + 1));
            lemma_word_run_end_aligned(s1, s2, j1 + 1, j2 + 1);
            let k1 = word_run_end(s1, j1 + 1);
            let k2 = word_run_end(s2, j2 + 1);
            assert(k2 == k1 + d);
            assert(s1.subrange(j1, k1) =~= s2.subrange(j2, k2));
            assert(aligned(s1, s2, k1, k2));
            lemma_newline_count_aligned(s1, s2, j1, j2, k1);
            lemma_lex_aligned(s1, s2, k1, k2);
        }
    }
}

/// The comment that transparency inserts: two slashes and a body.
pub open spec fn line_comment(body: Seq<char>) -> Seq<char> {
    seq!['/', '/'] + body
}

/// Where a line comment is transparent: its body crosses no newline, what
/// follows the insertion point is empty or starts with the newline that
/// ends the comment, and what precedes does not end with a `/` that would
/// pair with the comment's first slash.
pub open spec fn transparent_at(pre: Seq<char>, body: Seq<char>, post: Seq<char>) -> bool {
    &&& (forall|m: int| 0 <= m < body.len() ==> body[m] != '\n')
    &&& (post.len() == 0 || post[0] == '\n')
    &&& (pre.len() == 0 || pre[pre.len() - 1] != '/')
}

/// Shared facts about a source and its commented copy: equal characters up
/// to the insertion point, aligned suffixes past the comment, and equally
/// many newlines on either side of it.
proof fn lemma_transparent_facts(pre: Seq<char>, body: Seq<char>, post: Seq<char>)
    requires
        transparent_at(pre, body, post),
    ensures
        ({
            let s1 = pre + post;
            let s2 = pre + line_comment(body) + post;
            let n = pre.len() as int;
            let cl = line_comment(body).len() as int;
            &&& cl == body.len() + 2
            &&& s1.len() == n + post.len()
            &&& s2.len() == n + cl + post.len()
            &&& (forall|p: int| 0 <= p < n ==> #[trigger] s1[p] == s2[p])
            &&& (forall|p: int| 0 <= p < n ==> #[trigger] s1[p] == pre[p])
            &&& s2[n] == '/'
            &&& s2[n + 1] == '/'
            &&& (forall|m: int| n <= m < n + cl ==> #[trigger] s2[m] != '\n')
            &&& aligned(s1, s2, n, n + cl)
            &&& newline_count(s1.take(n)) == newline_count(s2.take(n + cl))
            &&& (post.len() > 0 ==> s1[n] == '\n' && s2[n + cl] == '\n')
        }),
{
    let com = line_comment(body);
    let s1 = pre + post;
    let s2 = pre + com + post;
    let n = pre.len() as int;
    let cl = com.len() as int;
    assert forall|m: int| n <= m < n + cl implies #[trigger] s2[m] != '\n' by {
        assert(s2[m] == com[m - n]);
        if m - n >= 2 {
            assert(com[m - n] == body[m - n - 2]);
        }
    }
    assert forall|p: int| n <= p < s1.len() implies #[trigger] s1[p] == s2[p + ((n + cl) - n)] by {
        assert(s1[p] == post[p - n]);
        assert(s2[p + cl] == post[p - n]);
    }
    assert(aligned(s1, s2, n, n + cl));
    assert(s1.take(n) =~= pre);
    assert(s2.take(n + cl) =~= pre + com);
    lemma_newline_count_concat(pre, com);
    lemma_newline_count_none(com);
}

/// Skipping in the commented source tracks skipping in the plain one: both
/// stop at the same place before the insertion point, or both leave it with
/// the commented cursor ahead by exactly the comment's length.
proof fn lemma_skip_boundary(pre: Seq<char>, body: Seq<char>, post: Seq<char>, i: int)
    requires
        transparent_at(pre, body, post),
        0 <= i <= pre.len(),
    ensures
        ({
            let s1 = pre + post;
            let s2 = pre + line_comment(body) + post;
            let cl = line_comment(body).len() as int;
            let j1 = skip_to(s1, i);
            let j2 = skip_to(s2, i);
            &&& (j1 < pre.len() ==> j2 == j1)
            &&& (j1 >= pre.len() ==> j2 == j1 + cl)
        }),
    decreases (pre + post).len() - i,
{
    lemma_transparent_facts(pre, body, post);
    let com = line_comment(body);
    let s1 = pre + post;
    let s2 = pre + com + post;
    let n = pre.len() as int;
    let cl = com.len() as int;
    lemma_skip_to(s1, i);
    lemma_skip_to(s2, i);
    if i == n {
        lemma_comment_end_eq(s2, n + 2, n + cl);
        lemma_skip_to_aligned(s1, s2, n, n + cl);
        assert(skip_to(s2, n) == skip_to(s2, comment_end(s2, n + 2)));
    } else {
        assert(s1[i] == s2[i]);
        if is_space_char(s1[i]) || s1[i] == '\n' {
            lemma_skip_boundary(pre, body, post, i + 1);
            assert(skip_to(s1, i) == skip_to(s1, i + 1));
            assert(skip_to(s2, i) == skip_to(s2, i + 1));
        } else if s1[i] == '/' && i + 1 < s1.len() && s1[i + 1] == '/' {
            if i + 1 < n {
                assert(s2[i + 1] == s1[i + 1]);
                lemma_comment_end(s1, i + 2);
                let e = comment_end(s1, i + 2);
                assert(e <= n) by {
                    if e > n {
                        assert(s1[n] != '\n');
                    }
                }
                if e < n {
                    assert forall|m: int| i + 2 <= m < e implies s2[m] != '\n' by {
                        assert(s1[m] == s2[m]);
                        assert(s1[m] != '\n');
                    }
                    assert(s2[e] == s1[e]);
                    lemma_comment_end_eq(s2, i + 2, e);
                    lemma_skip_boundary(pre, body, post, e);
                    assert(skip_to(s1, i) == skip_to(s1, e));
                    assert(skip_to(s2, i) == skip_to(s2, e));
                } else {
                    assert forall|m: int| i + 2 <= m < n + cl implies s2[m] != '\n' by {
                        if m < n {
                            assert(s1[m] == s2[m]);
                            assert(s1[m] != '\n');
                        }
                    }
                    lemma_comment_end_eq(s2, i + 2, n + cl);
                    lemma_skip_to(s1, n);
                    lemma_skip_to(s2, n + cl);
                    lemma_skip_to_aligned(s1, s2, n, n + cl);
                    assert(skip_to(s1, i) == skip_to(s1, n));
                    assert(skip_to(s2, i) == skip_to(s2, n + cl));
                    assert(skip_to(s2, n + cl) == skip_to(s1, n) + cl);
                }
            } else {
                // i + 1 == n: the character after the slash is the first of
                // `post`, a newline or nothing — never a second slash
                assert(false);
            }
        } else {
            if i + 1 < n {
                assert(s2[i + 1] == s1[i + 1]);
            } else {
                // i + 1 == n: in the commented source a `/` follows, but the
                // preceding text does not end with a slash to pair with it
                assert(s1[i] == pre[i]);
            }
            assert(skip_to(s2, i) == i);
        }
    }
}

/// Before the insertion point, the two scans denote the same result.
proof fn lemma_lex_boundary(pre: Seq<char>, body: Seq<char>, post: Seq<char>, i: int)
    requires
        transparent_at(pre, body, post),
        0 <= i <= pre.len(),
    ensures
        spec_lex_from(pre + post, i) == spec_lex_from(pre + line_comment(body) + post, i),
    decreases (pre + post).len() - i,
{
    lemma_transparent_facts(pre, body, post);
    let com = line_comment(body);
    let s1 = pre + post;
    let s2 = pre + com + post;
    let n = pre.len() as int;
    let cl = com.len() as int;
    lemma_skip_to(s1, i);
    lemma_skip_to(s2, i);
    lemma_skip_boundary(pre, body, post, i);
    lemma_lex_from_skip(s1, i);
    lemma_lex_from_skip(s2, i);
    let j1 = skip_to(s1, i);
    let j2 = skip_to(s2, i);
    if j1 >= n {
        // both scans have left the line the comment sits on: from here the
        // suffixes are the same characters under the same newline count
        assert(j2 == j1 + cl);
        assert(aligned(s1, s2, j1, j2));
        lemma_newline_count_aligned(s1, s2, n, n + cl, j1);
        lemma_lex_aligned(s1, s2, j1, j2);
    } else {
        assert(j2 == j1);
        let c = s1[j1];
        assert(s2[j1] == c);
        if is_punct_char(c) {
            lemma_lex_boundary(pre, body, post, j1 + 1);
        } else if is_digit_char(c) {
            lemma_digit_run_end(s1, j1 + 1);
            let k = digit_run_end(s1, j1 + 1);
            assert(k <= n) by {
                if k > n {
                    assert(is_digit_char(s1[n]));
                }
            }
            assert forall|m: int| j1 + 1 <= m < k implies is_digit_char(s2[m]) by {
                assert(s1[m] == s2[m]);
                assert(is_digit_char(s1[m]));
            }
            if k < n {
                assert(s2[k] == s1[k]);
            }
            lemma_digit_run_end_eq(s2, j1 + 1, k);
            assert(s1.subrange(j1, k) =~= s2.subrange(j1, k));
            if digits_value(s1.subrange(j1, k)) <= isize::MAX {
                lemma_lex_boundary(pre, body, post, k);
            } else {
                assert(s1.take(j1) =~= s2.take(j1));
            }
        } else if is_alpha_char(c) {
            lemma_word_run_end(s1, j1 + 1);
            let k = word_run_end(s1, j1 + 1);
            assert(k <= n) by {
                if k > n {
                    assert(is_word_char(s1[n]));
                }
            }
            assert forall|m: int| j1 + 1 <= m < k implies is_word_char(s2[m]) by {
                assert(s1[m] == s2[m]);
                assert(is_word_char(s1[m]));
            }
            if k < n {
                assert(s2[k] == s1[k]);
            }
            lemma_word_run_end_eq(s2, j1 + 1, k);
            assert(s1.subrange(j1, k) =~= s2.subrange(j1, k));
            lemma_lex_boundary(pre, body, post, k);
        } else {
            assert(s1.take(j1) =~= s2.take(j1));
        }
    }
}

/// Comment transparency: inserting a `//` comment whose body crosses no
/// newline at the end of any line — any point where what follows is empty
/// or starts with a newline, and what precedes does not end in `/` —
/// changes neither the emitted token sequence nor any diagnostic.
pub proof fn lemma_comment_transparency(pre: Seq<char>, body: Seq<char>, post: Seq<char>)
    requires
        forall|m: int| 0 <= m < body.len() ==> body[m] != '\n',
        post.len() == 0 || post[0] == '\n',
        pre.len() == 0 || pre[pre.len() - 1] != '/',
    ensures
        spec_lex(pre + line_comment(body) + post) == spec_lex(pre + post),
{
    lemma_lex_boundary(pre, body, post, 0);
}

/// Line counting: a lexical error is attributed to the 0-indexed line of
/// the offending lexeme — the number of newline characters strictly before
/// the position where that lexeme starts.
pub proof fn lemma_error_line(s: Seq<char>, i: int)
    requires
        0 <= i <= s.len(),
    ensures
        ({
            let j = skip_to(s, i);
            &&& (j < s.len() && !is_punct_char(s[j]) && !is_digit_char(s[j]) && !is_alpha_char(
                s[j],
            ) ==> spec_lex_from(s, i) == Err::<Seq<TokenModel>, LexErrorModel>(
                LexErrorModel {
                    kind: LexErrorKind::UnrecognizedCharacter,
                    line: newline_count(s.take(j)),
                },
            ))
            &&& (j < s.len() && is_digit_char(s[j]) && digits_value(
                s.subrange(j, digit_run_end(s, j + 1)),
            ) > isize::MAX ==> spec_lex_from(s, i) == Err::<Seq<TokenModel>, LexErrorModel>(
                LexErrorModel {
                    kind: LexErrorKind::NumericLiteralOverflow,
                    line: newline_count(s.take(j)),
                },
            ))
        }),
{
    lemma_skip_to(s, i);
    lemma_lex_from_skip(s, i);
}

} // verus!
