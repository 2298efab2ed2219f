//! The scanner: source text in, tokens out.
use crate::text::{push_char, same_text};
use crate::token::{Token, TokenView};
use vstd::prelude::*;

verus! {

pub open spec fn is_letter(c: char) -> bool {
    ('a' <= c && c <= 'z') || ('A' <= c && c <= 'Z')
}

pub open spec fn is_digit(c: char) -> bool {
    '0' <= c && c <= '9'
}

/// A character that may continue an identifier or keyword.
pub open spec fn is_word_char(c: char) -> bool {
    is_letter(c) || is_digit(c) || c == '_'
}

/// A character that may continue a number literal.
pub open spec fn is_number_char(c: char) -> bool {
    is_digit(c) || c == '.' || c == '_'
}

pub open spec fn is_delimiter(c: char) -> bool {
    c == '.' || c == ',' || c == ';' || c == ':' || c == '{' || c == '}' || c == '(' || c == ')'
}

/// The characters that Unicode calls white space.
pub open spec fn is_space(c: char) -> bool {
    ('\u{9}' <= c && c <= '\u{d}') || c == ' ' || c == '\u{85}' || c == '\u{a0}' || c
        == '\u{1680}' || ('\u{2000}' <= c && c <= '\u{200a}') || c == '\u{2028}' || c
        == '\u{2029}' || c == '\u{202f}' || c == '\u{205f}' || c == '\u{3000}'
}

/// A character that may begin a token, or that the scanner skips.
pub open spec fn is_recognized(c: char) -> bool {
    is_word_char(c) || c == '"' || c == '-' || c == '+' || c == '*' || c == '/' || c == '<' || c
        == '>' || c == '=' || is_delimiter(c) || is_space(c)
}

/// The words that scan as keywords rather than identifiers.
pub open spec fn is_keyword_text(w: Seq<char>) -> bool {
    w == "continue"@ || w == "struct"@ || w == "elseif"@ || w == "return"@ || w == "typeof"@ || w
        == "false"@ || w == "break"@ || w == "true"@ || w == "else"@ || w == "then"@ || w
        == "type"@ || w == "for"@ || w == "fun"@ || w == "nil"@ || w == "not"@ || w == "and"@
        || w == "var"@ || w == "log"@ || w == "do"@ || w == "if"@ || w == "or"@
}

/// Length of the run of identifier characters that `s` starts with.
pub open spec fn word_len(s: Seq<char>) -> nat
    decreases s.len(),
{
    if s.len() > 0 && is_word_char(s[0]) {
        1 + word_len(s.drop_first())
    } else {
        0
    }
}

/// Length of the run of number characters that `s` starts with.
pub open spec fn number_len(s: Seq<char>) -> nat
    decreases s.len(),
{
    if s.len() > 0 && is_number_char(s[0]) {
        1 + number_len(s.drop_first())
    } else {
        0
    }
}

/// Number of characters before the first `stop` in `s`, or all of them.
pub open spec fn len_before(s: Seq<char>, stop: char) -> nat
    decreases s.len(),
{
    if s.len() > 0 && s[0] != stop {
        1 + len_before(s.drop_first(), stop)
    } else {
        0
    }
}

/// `s` without its underscores.
pub open spec fn digits_of(s: Seq<char>) -> Seq<char>
    decreases s.len(),
{
    if s.len() == 0 {
        s
    } else if s.last() == '_' {
        digits_of(s.drop_last())
    } else {
        digits_of(s.drop_last()).push(s.last())
    }
}

/// Number of line breaks in `s`.
pub open spec fn newlines(s: Seq<char>) -> nat
    decreases s.len(),
{
    if s.len() == 0 {
        0
    } else {
        newlines(s.drop_last()) + if s.last() == '\n' {
            1nat
        } else {
            0nat
        }
    }
}

pub proof fn lemma_word_len(s: Seq<char>)
    ensures
        word_len(s) <= s.len(),
        forall|i: int| 0 <= i < word_len(s) ==> is_word_char(#[trigger] s[i]),
        word_len(s) < s.len() ==> !is_word_char(s[word_len(s) as int]),
    decreases s.len(),
{
    if s.len() > 0 && is_word_char(s[0]) {
        lemma_word_len(s.drop_first());
        assert forall|i: int| 0 <= i < word_len(s) implies is_word_char(#[trigger] s[i]) by {
            if i > 0 {
                assert(s[i] == s.drop_first()[i - 1]);
            }
        }
    }
}

pub proof fn lemma_number_len(s: Seq<char>)
    ensures
        number_len(s) <= s.len(),
        forall|i: int| 0 <= i < number_len(s) ==> is_number_char(#[trigger] s[i]),
        number_len(s) < s.len() ==> !is_number_char(s[number_len(s) as int]),
    decreases s.len(),
{
    if s.len() > 0 && is_number_char(s[0]) {
        lemma_number_len(s.drop_first());
        assert forall|i: int| 0 <= i < number_len(s) implies is_number_char(#[trigger] s[i]) by {
            if i > 0 {
                assert(s[i] == s.drop_first()[i - 1]);
            }
        }
    }
}

pub proof fn lemma_len_before(s: Seq<char>, stop: char)
    ensures
        len_before(s, stop) <= s.len(),
        forall|i: int| 0 <= i < len_before(s, stop) ==> #[trigger] s[i] != stop,
        len_before(s, stop) < s.len() ==> s[len_before(s, stop) as int] == stop,
    decreases s.len(),
{
    if s.len() > 0 && s[0] != stop {
        lemma_len_before(s.drop_first(), stop);
        assert forall|i: int| 0 <= i < len_before(s, stop) implies #[trigger] s[i] != stop by {
            if i > 0 {
                assert(s[i] == s.drop_first()[i - 1]);
            }
        }
    }
}

/// What scanning a text gives: the tokens, the line on which each one
/// starts, and the unrecognized character with its line if scanning stopped
/// on one.
pub struct Lexed {
    pub tokens: Seq<TokenView>,
    pub lines: Seq<nat>,
    pub failure: Option<(char, nat)>,
}

/// `r` with one more token in front.
pub open spec fn lead(t: TokenView, line: nat, r: Lexed) -> Lexed {
    Lexed { tokens: seq![t] + r.tokens, lines: seq![line] + r.lines, failure: r.failure }
}

/// The keyword or identifier token for the word `w`.
pub open spec fn word_token(w: Seq<char>) -> TokenView {
    if is_keyword_text(w) {
        TokenView::Keyword(w)
    } else {
        TokenView::Identifier(w)
    }
}

/// Scans the text `s`, whose first character stands on line `line`.
pub open spec fn lex(s: Seq<char>, line: nat) -> Lexed
    decreases s.len(),
{
    if s.len() == 0 {
        Lexed { tokens: seq![TokenView::EndOfFile], lines: seq![line], failure: None }
    } else {
        let c = s[0];
        if c == '\n' {
            lex(s.drop_first(), line + 1)
        } else if is_letter(c) || c == '_' {
            let n = word_len(s);
            proof {
                lemma_word_len(s);
            }
            lead(word_token(s.take(n as int)), line, lex(s.skip(n as int), line))
        } else if is_digit(c) {
            let n = number_len(s);
            proof {
                lemma_number_len(s);
            }
            lead(TokenView::Number(digits_of(s.take(n as int))), line, lex(s.skip(n as int), line))
        } else if c == '"' {
            let body = s.drop_first();
            let n = len_before(body, '"');
            proof {
                lemma_len_before(body, '"');
            }
            let text = body.take(n as int);
            let rest = if n < body.len() {
                body.skip(n + 1int)
            } else {
                body.skip(n as int)
            };
            lead(TokenView::Str(text), line, lex(rest, line + newlines(text)))
        } else if c == '-' {
            if s.len() > 1 && s[1] == '-' {
                let n = len_before(s, '\n');
                proof {
                    lemma_len_before(s, '\n');
                }
                lex(s.skip(n as int), line)
            } else {
                lead(TokenView::BinaryOperator('-'), line, lex(s.drop_first(), line))
            }
        } else if c == '+' || c == '*' || c == '/' {
            lead(TokenView::BinaryOperator(c), line, lex(s.drop_first(), line))
        } else if c == '<' || c == '>' {
            lead(TokenView::ComparisonOperator(c), line, lex(s.drop_first(), line))
        } else if c == '=' {
            lead(TokenView::Equals, line, lex(s.drop_first(), line))
        } else if is_delimiter(c) {
            lead(TokenView::Delimiter(c), line, lex(s.drop_first(), line))
        } else if is_space(c) {
            lex(s.drop_first(), line)
        } else {
            Lexed { tokens: seq![], lines: seq![], failure: Some((c, line)) }
        }
    }
}

/// Scanning `s` from its first line.
pub open spec fn scan_text(s: Seq<char>) -> Lexed {
    lex(s, 1)
}

/// `r` after the tokens and lines already produced.
pub open spec fn after(tokens: Seq<TokenView>, lines: Seq<nat>, r: Lexed) -> Lexed {
    Lexed { tokens: tokens + r.tokens, lines: lines + r.lines, failure: r.failure }
}

/// Only the last token may be an end-of-file token, and only when scanning
/// did not stop on an unrecognized character.
pub open spec fn ends_well(r: Lexed) -> bool {
    forall|i: int|
        0 <= i < r.tokens.len() && #[trigger] r.tokens[i] == TokenView::EndOfFile ==> i
            == r.tokens.len() - 1 && r.failure is None
}

proof fn lemma_lead_ends_well(t: TokenView, line: nat, r: Lexed)
    requires
        ends_well(r),
        t != TokenView::EndOfFile,
    ensures
        ends_well(lead(t, line, r)),
        r.lines.len() > 0 ==> lead(t, line, r).lines.last() == r.lines.last(),
{
    let l = lead(t, line, r);
    assert forall|i: int|
        0 <= i < l.tokens.len() && #[trigger] l.tokens[i] == TokenView::EndOfFile implies i
            == l.tokens.len() - 1 && l.failure is None by {
        assert(i > 0);
        assert(l.tokens[i] == r.tokens[i - 1]);
    }
}

pub proof fn lemma_newlines_concat(x: Seq<char>, y: Seq<char>)
    ensures
        newlines(x + y) == newlines(x) + newlines(y),
    decreases y.len(),
{
    if y.len() == 0 {
        assert(x + y =~= x);
    } else {
        assert((x + y).drop_last() =~= x + y.drop_last());
        lemma_newlines_concat(x, y.drop_last());
    }
}

proof fn lemma_newlines_split(s: Seq<char>, k: int)
    requires
        0 <= k <= s.len(),
    ensures
        newlines(s) == newlines(s.take(k)) + newlines(s.skip(k)),
{
    assert(s =~= s.take(k) + s.skip(k));
    lemma_newlines_concat(s.take(k), s.skip(k));
}

proof fn lemma_no_newlines(x: Seq<char>)
    requires
        forall|i: int| 0 <= i < x.len() ==> #[trigger] x[i] != '\n',
    ensures
        newlines(x) == 0,
    decreases x.len(),
{
    if x.len() > 0 {
        assert(x.last() == x[x.len() - 1]);
        lemma_no_newlines(x.drop_last());
    }
}

/// Scanning ends with an end-of-file token unless it stopped on an
/// unrecognized character, gives one line for each token, and counts every
/// line break of the text, those that end comments included: the end-of-file
/// token stands on the first line plus the number of line breaks.
pub proof fn lemma_lex_shape(s: Seq<char>, line: nat)
    ensures
        lex(s, line).tokens.len() == lex(s, line).lines.len(),
        lex(s, line).failure is None ==> lex(s, line).tokens.len() > 0 && lex(s, line).tokens.last()
            == TokenView::EndOfFile,
        ends_well(lex(s, line)),
        lex(s, line).failure is None ==> lex(s, line).lines.last() == line + newlines(s),
    decreases s.len(),
{
    if s.len() > 0 {
        let c = s[0];
        lemma_newlines_split(s, 1);
        assert(s.take(1).drop_last() =~= Seq::<char>::empty());
        assert(s.take(1).last() == c);
        assert(s.skip(1) =~= s.drop_first());
        assert(newlines(Seq::<char>::empty()) == 0);
        assert(newlines(s) == newlines(s.drop_first()) + if c == '\n' {
            1nat
        } else {
            0nat
        });
        if c == '\n' {
            lemma_lex_shape(s.drop_first(), line + 1);
        } else if is_letter(c) || c == '_' {
            let n = word_len(s) as int;
            lemma_word_len(s);
            lemma_lex_shape(s.skip(n), line);
            lemma_newlines_split(s, n);
            assert forall|i: int| 0 <= i < s.take(n).len() implies #[trigger] s.take(n)[i]
                != '\n' by {
                assert(is_word_char(s[i]));
            }
            lemma_no_newlines(s.take(n));
            lemma_lead_ends_well(word_token(s.take(n)), line, lex(s.skip(n), line));
        } else if is_digit(c) {
            let n = number_len(s) as int;
            lemma_number_len(s);
            lemma_lex_shape(s.skip(n), line);
            lemma_newlines_split(s, n);
            assert forall|i: int| 0 <= i < s.take(n).len() implies #[trigger] s.take(n)[i]
                != '\n' by {
                assert(is_number_char(s[i]));
            }
            lemma_no_newlines(s.take(n));
            lemma_lead_ends_well(
                TokenView::Number(digits_of(s.take(n))),
                line,
                lex(s.skip(n), line),
            );
        } else if c == '"' {
            let body = s.drop_first();
            let n = len_before(body, '"');
            lemma_len_before(body, '"');
            let text = body.take(n as int);
            lemma_newlines_split(body, n as int);
            let rest = if n < body.len() {
                body.skip(n + 1int)
            } else {
                body.skip(n as int)
            };
            if n < body.len() {
                let tail = body.skip(n as int);
                lemma_newlines_split(tail, 1);
                assert(tail.take(1).drop_last() =~= Seq::<char>::empty());
                assert(tail.take(1).last() == '"');
                assert(tail.skip(1) =~= body.skip(n + 1int));
                assert(newlines(tail) == newlines(rest));
            } else {
                assert(body.skip(n as int) == rest);
            }
            assert(newlines(s) == newlines(text) + newlines(rest));
            lemma_lex_shape(rest, line + newlines(text));
            lemma_lead_ends_well(TokenView::Str(text), line, lex(rest, line + newlines(text)));
        } else if c == '-' && s.len() > 1 && s[1] == '-' {
            let n = len_before(s, '\n') as int;
            lemma_len_before(s, '\n');
            lemma_lex_shape(s.skip(n), line);
            lemma_newlines_split(s, n);
            assert forall|i: int| 0 <= i < s.take(n).len() implies #[trigger] s.take(n)[i]
                != '\n' by {
                assert(s[i] != '\n');
            }
            lemma_no_newlines(s.take(n));
        } else {
            lemma_lex_shape(s.drop_first(), line);
            if c == '-' {
                lemma_lead_ends_well(TokenView::BinaryOperator('-'), line, lex(s.drop_first(), line));
            } else if c == '+' || c == '*' || c == '/' {
                lemma_lead_ends_well(TokenView::BinaryOperator(c), line, lex(s.drop_first(), line));
            } else if c == '<' || c == '>' {
                lemma_lead_ends_well(
                    TokenView::ComparisonOperator(c),
                    line,
                    lex(s.drop_first(), line),
                );
            } else if c == '=' {
                lemma_lead_ends_well(TokenView::Equals, line, lex(s.drop_first(), line));
            } else if is_delimiter(c) {
                lemma_lead_ends_well(TokenView::Delimiter(c), line, lex(s.drop_first(), line));
            }
        }
    }
}

/// A text made only of recognized characters always scans completely, and
/// its tokens end with an end-of-file token, the only one among them.
pub proof fn lemma_recognized_text_scans(s: Seq<char>, line: nat)
    requires
        forall|i: int| 0 <= i < s.len() ==> is_recognized(#[trigger] s[i]),
    ensures
        lex(s, line).failure is None,
        lex(s, line).tokens.len() > 0,
        lex(s, line).tokens.last() == TokenView::EndOfFile,
        forall|i: int|
            0 <= i < lex(s, line).tokens.len() - 1 ==> #[trigger] lex(s, line).tokens[i]
                != TokenView::EndOfFile,
    decreases s.len(),
{
    lemma_lex_shape(s, line);
    if s.len() > 0 {
        let c = s[0];
        assert(is_recognized(s[0]));
        if c == '\n' {
            lemma_suffix_recognized(s, 1);
            lemma_recognized_text_scans(s.drop_first(), line + 1);
        } else if is_letter(c) || c == '_' {
            lemma_word_len(s);
            lemma_suffix_recognized(s, word_len(s) as int);
            lemma_recognized_text_scans(s.skip(word_len(s) as int), line);
        } else if is_digit(c) {
            lemma_number_len(s);
            lemma_suffix_recognized(s, number_len(s) as int);
            lemma_recognized_text_scans(s.skip(number_len(s) as int), line);
        } else if c == '"' {
            let body = s.drop_first();
            let n = len_before(body, '"');
            lemma_len_before(body, '"');
            let text = body.take(n as int);
            if n < body.len() {
                lemma_suffix_recognized(s, n + 2int);
                assert(body.skip(n + 1int) =~= s.skip(n + 2int));
                lemma_recognized_text_scans(body.skip(n + 1int), line + newlines(text));
            } else {
                lemma_suffix_recognized(s, n + 1int);
                assert(body.skip(n as int) =~= s.skip(n + 1int));
                lemma_recognized_text_scans(body.skip(n as int), line + newlines(text));
            }
        } else if c == '-' && s.len() > 1 && s[1] == '-' {
            lemma_len_before(s, '\n');
            lemma_suffix_recognized(s, len_before(s, '\n') as int);
            lemma_recognized_text_scans(s.skip(len_before(s, '\n') as int), line);
        } else {
            lemma_suffix_recognized(s, 1);
            assert(s.drop_first() =~= s.skip(1));
            lemma_recognized_text_scans(s.drop_first(), line);
        }
    }
}

proof fn lemma_suffix_recognized(s: Seq<char>, k: int)
    requires
        0 <= k <= s.len(),
        forall|i: int| 0 <= i < s.len() ==> is_recognized(#[trigger] s[i]),
    ensures
        forall|i: int| 0 <= i < s.len() - k ==> is_recognized(#[trigger] s.skip(k)[i]),
        k == 1 ==> forall|i: int|
            0 <= i < s.len() - 1 ==> is_recognized(#[trigger] s.drop_first()[i]),
{
    assert forall|i: int| 0 <= i < s.len() - k implies is_recognized(#[trigger] s.skip(k)[i]) by {
        assert(s.skip(k)[i] == s[i + k]);
    }
    if k == 1 {
        assert forall|i: int| 0 <= i < s.len() - 1 implies is_recognized(
            #[trigger] s.drop_first()[i],
        ) by {
            assert(s.drop_first()[i] == s[i + 1]);
        }
    }
}

/// A comment line produces no token: the text after it scans exactly as it
/// would on its own, from the next line on.
pub proof fn lemma_comment_line(comment: Seq<char>, rest: Seq<char>, line: nat)
    requires
        !comment.contains('\n'),
    ensures
        lex(seq!['-', '-'] + comment + seq!['\n'] + rest, line) == lex(seq!['\n'] + rest, line),
        lex(seq!['-', '-'] + comment + seq!['\n'] + rest, line) == lex(rest, line + 1),
{
    let s = seq!['-', '-'] + comment + seq!['\n'] + rest;
    let k: int = comment.len() as int + 2;
    assert(s[0] == '-');
    assert(s[1] == '-');
    assert(s[k] == '\n');
    assert forall|i: int| 0 <= i < k implies #[trigger] s[i] != '\n' by {
        if i >= 2 {
            assert(s[i] == comment[i - 2]);
        }
    }
    lemma_len_before(s, '\n');
    let m: int = len_before(s, '\n') as int;
    if m < k {
        assert(s[m] != '\n');
    }
    if m > k {
        assert(s[k] != '\n');
    }
    assert(m == k);
    assert(s.skip(k) =~= seq!['\n'] + rest);
    assert((seq!['\n'] + rest).drop_first() =~= rest);
}

/// A word followed by a character that cannot continue it is scanned whole.
pub proof fn lemma_word_len_of(w: Seq<char>, rest: Seq<char>)
    requires
        forall|i: int| 0 <= i < w.len() ==> is_word_char(#[trigger] w[i]),
        rest.len() == 0 || !is_word_char(rest[0]),
    ensures
        word_len(w + rest) == w.len(),
    decreases w.len(),
{
    if w.len() == 0 {
        assert(w + rest =~= rest);
    } else {
        assert((w + rest)[0] == w[0]);
        assert((w + rest).drop_first() =~= w.drop_first() + rest);
        assert forall|i: int| 0 <= i < w.drop_first().len() implies is_word_char(
            #[trigger] w.drop_first()[i],
        ) by {
            assert(w.drop_first()[i] == w[i + 1]);
        }
        lemma_word_len_of(w.drop_first(), rest);
    }
}

/// A number literal followed by a character that cannot continue it is
/// scanned whole.
pub proof fn lemma_number_len_of(w: Seq<char>, rest: Seq<char>)
    requires
        forall|i: int| 0 <= i < w.len() ==> is_number_char(#[trigger] w[i]),
        rest.len() == 0 || !is_number_char(rest[0]),
    ensures
        number_len(w + rest) == w.len(),
    decreases w.len(),
{
    if w.len() == 0 {
        assert(w + rest =~= rest);
    } else {
        assert((w + rest)[0] == w[0]);
        assert((w + rest).drop_first() =~= w.drop_first() + rest);
        assert forall|i: int| 0 <= i < w.drop_first().len() implies is_number_char(
            #[trigger] w.drop_first()[i],
        ) by {
            assert(w.drop_first()[i] == w[i + 1]);
        }
        lemma_number_len_of(w.drop_first(), rest);
    }
}

/// Scanning a text that starts with a whole word.
pub proof fn lemma_lex_word(w: Seq<char>, rest: Seq<char>, line: nat)
    requires
        w.len() > 0,
        is_letter(w[0]) || w[0] == '_',
        forall|i: int| 0 <= i < w.len() ==> is_word_char(#[trigger] w[i]),
        rest.len() == 0 || !is_word_char(rest[0]),
    ensures
        lex(w + rest, line) == lead(word_token(w), line, lex(rest, line)),
{
    let s = w + rest;
    assert(s[0] == w[0]);
    lemma_word_len_of(w, rest);
    assert(s.take(w.len() as int) =~= w);
    assert(s.skip(w.len() as int) =~= rest);
}

/// Scanning a text that starts with a whole number literal.
pub proof fn lemma_lex_number(w: Seq<char>, rest: Seq<char>, line: nat)
    requires
        w.len() > 0,
        is_digit(w[0]),
        forall|i: int| 0 <= i < w.len() ==> is_number_char(#[trigger] w[i]),
        rest.len() == 0 || !is_number_char(rest[0]),
    ensures
        lex(w + rest, line) == lead(TokenView::Number(digits_of(w)), line, lex(rest, line)),
{
    let s = w + rest;
    assert(s[0] == w[0]);
    lemma_number_len_of(w, rest);
    assert(s.take(w.len() as int) =~= w);
    assert(s.skip(w.len() as int) =~= rest);
}

/// Scanning a text that starts with a blank.
pub proof fn lemma_lex_blank(rest: Seq<char>, line: nat)
    ensures
        lex(seq![' '] + rest, line) == lex(rest, line),
{
    assert((seq![' '] + rest).drop_first() =~= rest);
}

/// Scanning a text that starts with `=`.
pub proof fn lemma_lex_equals(rest: Seq<char>, line: nat)
    ensures
        lex(seq!['='] + rest, line) == lead(TokenView::Equals, line, lex(rest, line)),
{
    assert((seq!['='] + rest).drop_first() =~= rest);
}

/// Scanning a text that starts with a delimiter.
pub proof fn lemma_lex_delimiter(c: char, rest: Seq<char>, line: nat)
    requires
        is_delimiter(c),
    ensures
        lex(seq![c] + rest, line) == lead(TokenView::Delimiter(c), line, lex(rest, line)),
{
    assert((seq![c] + rest).drop_first() =~= rest);
}

/// A stretch up to a stop character is scanned whole.
pub proof fn lemma_len_before_of(w: Seq<char>, rest: Seq<char>, stop: char)
    requires
        forall|i: int| 0 <= i < w.len() ==> #[trigger] w[i] != stop,
        rest.len() > 0,
        rest[0] == stop,
    ensures
        len_before(w + rest, stop) == w.len(),
    decreases w.len(),
{
    if w.len() == 0 {
        assert(w + rest =~= rest);
    } else {
        assert((w + rest)[0] == w[0]);
        assert((w + rest).drop_first() =~= w.drop_first() + rest);
        assert forall|i: int| 0 <= i < w.drop_first().len() implies #[trigger] w.drop_first()[i]
            != stop by {
            assert(w.drop_first()[i] == w[i + 1]);
        }
        lemma_len_before_of(w.drop_first(), rest, stop);
    }
}

/// Every string literal that the scanning of `a` meets is closed within `a`.
pub open spec fn closes_strings(a: Seq<char>) -> bool
    decreases a.len(),
{
    if a.len() == 0 {
        true
    } else {
        let c = a[0];
        if c == '"' {
            let body = a.drop_first();
            let n = len_before(body, '"');
            proof {
                lemma_len_before(body, '"');
            }
            n < body.len() && closes_strings(body.skip(n + 1int))
        } else if c == '-' && a.len() > 1 && a[1] == '-' {
            let n = len_before(a, '\n');
            proof {
                lemma_len_before(a, '\n');
            }
            n > 0 && closes_strings(a.skip(n as int))
        } else if is_letter(c) || c == '_' {
            let n = word_len(a);
            proof {
                lemma_word_len(a);
            }
            closes_strings(a.skip(n as int))
        } else if is_digit(c) {
            let n = number_len(a);
            proof {
                lemma_number_len(a);
            }
            closes_strings(a.skip(n as int))
        } else {
            closes_strings(a.drop_first())
        }
    }
}

/// After a prefix `a` that ends a line and closes its strings, scanning goes
/// on in the rest of the text as if the rest stood alone: two rests that
/// scan alike from every line give the same result after `a`.
pub proof fn lemma_lex_after_line(a: Seq<char>, x: Seq<char>, y: Seq<char>, line: nat)
    requires
        a.len() == 0 || a.last() == '\n',
        closes_strings(a),
        forall|l: nat| #[trigger] lex(x, l) == lex(y, l),
    ensures
        lex(a + x, line) == lex(a + y, line),
    decreases a.len(),
{
    if a.len() == 0 {
        assert(a + x =~= x);
        assert(a + y =~= y);
        assert(lex(x, line) == lex(y, line));
    } else {
        let c = a[0];
        let ax = a + x;
        let ay = a + y;
        assert(ax[0] == c && ay[0] == c);
        assert(a[a.len() - 1] == '\n');
        if c == '\n' || !(is_letter(c) || c == '_' || is_digit(c) || c == '"' || c == '-') {
            assert(ax.drop_first() =~= a.drop_first() + x);
            assert(ay.drop_first() =~= a.drop_first() + y);
            if a.drop_first().len() > 0 {
                assert(a.drop_first().last() == a.last());
            }
            lemma_lex_after_line(a.drop_first(), x, y, if c == '\n' {
                line + 1
            } else {
                line
            });
        } else if c == '-' && !(a.len() > 1 && a[1] == '-') {
            assert(a.len() > 1);
            assert(ax[1] == a[1] && ay[1] == a[1]);
            assert(ax.drop_first() =~= a.drop_first() + x);
            assert(ay.drop_first() =~= a.drop_first() + y);
            assert(a.drop_first().last() == a.last());
            lemma_lex_after_line(a.drop_first(), x, y, line);
        } else {
            let n: int = if c == '"' {
                len_before(a.drop_first(), '"') as int + 2
            } else if c == '-' {
                len_before(a, '\n') as int
            } else if is_digit(c) {
                number_len(a) as int
            } else {
                word_len(a) as int
            };
            let w = a.take(n);
            if c == '"' {
                let body = a.drop_first();
                let m = len_before(body, '"') as int;
                lemma_len_before(body, '"');
                assert forall|i: int| 0 <= i < body.take(m).len() implies #[trigger] body.take(
                    m,
                )[i] != '"' by {
                    assert(body.take(m)[i] == body[i]);
                }
                assert(ax.drop_first() =~= body.take(m) + (body.skip(m) + x));
                assert(ay.drop_first() =~= body.take(m) + (body.skip(m) + y));
                lemma_len_before_of(body.take(m), body.skip(m) + x, '"');
                lemma_len_before_of(body.take(m), body.skip(m) + y, '"');
                assert(ax.drop_first().take(m) =~= body.take(m));
                assert(ay.drop_first().take(m) =~= body.take(m));
                assert(ax.drop_first().skip(m + 1) =~= body.skip(m + 1) + x);
                assert(ay.drop_first().skip(m + 1) =~= body.skip(m + 1) + y);
                assert(body.skip(m + 1) =~= a.skip(n));
            } else if c == '-' {
                lemma_len_before(a, '\n');
                if n == a.len() {
                    assert(a[a.len() - 1] != '\n');
                }
                assert forall|i: int| 0 <= i < w.len() implies #[trigger] w[i] != '\n' by {
                    assert(w[i] == a[i]);
                }
                assert(ax =~= w + (a.skip(n) + x));
                assert(ay =~= w + (a.skip(n) + y));
                lemma_len_before_of(w, a.skip(n) + x, '\n');
                lemma_len_before_of(w, a.skip(n) + y, '\n');
                assert(ax.skip(n) =~= a.skip(n) + x);
                assert(ay.skip(n) =~= a.skip(n) + y);
                assert(ax.len() > 1 && ax[1] == a[1] && ay[1] == a[1]);
            } else if is_digit(c) {
                lemma_number_len(a);
                if n == a.len() {
                    assert(is_number_char(a[a.len() - 1]));
                }
                assert forall|i: int| 0 <= i < w.len() implies is_number_char(#[trigger] w[i]) by {
                    assert(w[i] == a[i]);
                }
                assert(ax =~= w + (a.skip(n) + x));
                assert(ay =~= w + (a.skip(n) + y));
                assert((a.skip(n) + x)[0] == a[n]);
                assert((a.skip(n) + y)[0] == a[n]);
                lemma_number_len_of(w, a.skip(n) + x);
                lemma_number_len_of(w, a.skip(n) + y);
                assert(ax.take(n) =~= w && ay.take(n) =~= w);
                assert(ax.skip(n) =~= a.skip(n) + x);
                assert(ay.skip(n) =~= a.skip(n) + y);
            } else {
                lemma_word_len(a);
                if n == a.len() {
                    assert(is_word_char(a[a.len() - 1]));
                }
                assert forall|i: int| 0 <= i < w.len() implies is_word_char(#[trigger] w[i]) by {
                    assert(w[i] == a[i]);
                }
                assert(ax =~= w + (a.skip(n) + x));
                assert(ay =~= w + (a.skip(n) + y));
                assert((a.skip(n) + x)[0] == a[n]);
                assert((a.skip(n) + y)[0] == a[n]);
                lemma_word_len_of(w, a.skip(n) + x);
                lemma_word_len_of(w, a.skip(n) + y);
                assert(ax.take(n) =~= w && ay.take(n) =~= w);
                assert(ax.skip(n) =~= a.skip(n) + x);
                assert(ay.skip(n) =~= a.skip(n) + y);
            }
            if a.skip(n).len() > 0 {
                assert(a.skip(n).last() == a.last());
            }
            let l2 = if c == '"' {
                line + newlines(a.drop_first().take(len_before(a.drop_first(), '"') as int))
            } else {
                line
            };
            lemma_lex_after_line(a.skip(n), x, y, l2);
        }
    }
}

/// A comment line produces no token wherever it stands after whole lines:
/// after any text that ends a line and closes its strings, replacing a
/// comment line by an empty line changes neither the tokens nor their lines.
pub proof fn lemma_comment_line_after(a: Seq<char>, comment: Seq<char>, rest: Seq<char>, line: nat)
    requires
        a.len() == 0 || a.last() == '\n',
        closes_strings(a),
        !comment.contains('\n'),
    ensures
        lex(a + (seq!['-', '-'] + comment + seq!['\n'] + rest), line) == lex(
            a + (seq!['\n'] + rest),
            line,
        ),
{
    let x = seq!['-', '-'] + comment + seq!['\n'] + rest;
    let y = seq!['\n'] + rest;
    assert forall|l: nat| #[trigger] lex(x, l) == lex(y, l) by {
        lemma_comment_line(comment, rest, l);
    }
    lemma_lex_after_line(a, x, y, line);
}

/// Why scanning stopped.
#[derive(Debug, Clone, Copy, PartialEq, Eq, Structural)]
pub enum ScanError {
    /// A character that begins no token, with the line it stands on.
    UnrecognisedCharacter { character: char, line: usize },
}

/// Turns source text into tokens, keeping the line on which each token
/// starts.
pub struct Scanner {
    tokens: Vec<Token>,
    lines: Vec<usize>,
    text: Vec<char>,
    current: usize,
    line: usize,
    debug: u8,
}

impl Scanner {
    /// The text being scanned.
    pub closed spec fn source(&self) -> Seq<char> {
        self.text@
    }

    /// Index of the next character to scan.
    pub closed spec fn position(&self) -> nat {
        self.current as nat
    }

    /// The line of the next character to scan.
    pub closed spec fn line(&self) -> nat {
        self.line as nat
    }

    /// The tokens produced so far.
    pub closed spec fn tokens_view(&self) -> Seq<TokenView> {
        self.tokens@.map_values(|t: Token| t@)
    }

    /// The line of each token produced so far.
    pub closed spec fn lines_view(&self) -> Seq<nat> {
        self.lines@.map_values(|l: usize| l as nat)
    }

    pub closed spec fn debug_level(&self) -> u8 {
        self.debug
    }

    pub closed spec fn wf(&self) -> bool {
        &&& self.current <= self.text.len()
        &&& self.text.len() < usize::MAX
        &&& 1 <= self.line <= self.current + 1
        &&& self.tokens.len() == self.lines.len()
    }

    /// What the scanner holds once it has scanned the rest of its text.
    pub open spec fn outlook(&self) -> Lexed {
        after(
            self.tokens_view(),
            self.lines_view(),
            lex(self.source().skip(self.position() as int), self.line()),
        )
    }

    /// A scanner at the start of `text`, on line 1, with no tokens yet.
    pub fn new(text: &str, debug: u8) -> (r: Scanner)
        requires
            text@.len() < usize::MAX,
        ensures
            r.wf(),
            r.source() == text@,
            r.position() == 0,
            r.line() == 1,
            r.tokens_view() == Seq::<TokenView>::empty(),
            r.lines_view() == Seq::<nat>::empty(),
            r.debug_level() == debug,
            r.outlook() == scan_text(text@),
    {
        let mut chars: Vec<char> = Vec::new();
        for c in it: text.chars()
            invariant
                chars@ == it.seq().take(it.index() as int),
                it.seq() == text@,
        {
            chars.push(c);
            assert(chars@ =~= it.seq().take(it.index() + 1));
        }
        assert(chars@ =~= text@);
        let r = Scanner {
            tokens: Vec::new(),
            lines: Vec::new(),
            text: chars,
            current: 0,
            line: 1,
            debug,
        };
        assert(r.tokens_view() =~= Seq::<TokenView>::empty());
        assert(r.lines_view() =~= Seq::<nat>::empty());
        assert(r.source().skip(0) =~= r.source());
        assert(r.outlook().tokens =~= scan_text(text@).tokens);
        assert(r.outlook().lines =~= scan_text(text@).lines);
        r
    }

    /// Sets how much the surrounding driver should report about scanning.
    pub fn set_debug_lvl(&mut self, debug_lvl: u8)
        ensures
            final(self).debug_level() == debug_lvl,
            final(self).wf() == old(self).wf(),
            final(self).source() == old(self).source(),
            final(self).position() == old(self).position(),
            final(self).line() == old(self).line(),
            final(self).tokens_view() == old(self).tokens_view(),
            final(self).lines_view() == old(self).lines_view(),
    {
        self.debug = debug_lvl;
    }

    pub fn debug_lvl(&self) -> (r: u8)
        ensures
            r == self.debug_level(),
    {
        self.debug
    }

    /// The tokens produced so far.
    pub fn get_tokens(&self) -> (r: &Vec<Token>)
        ensures
            r@.map_values(|t: Token| t@) == self.tokens_view(),
    {
        &self.tokens
    }

    /// The line on which each token produced so far starts.
    pub fn get_lines(&self) -> (r: &Vec<usize>)
        ensures
            r@.map_values(|l: usize| l as nat) == self.lines_view(),
    {
        &self.lines
    }

    /// Hands over the tokens produced.
    pub fn into_tokens(self) -> (r: Vec<Token>)
        ensures
            r@.map_values(|t: Token| t@) == self.tokens_view(),
    {
        self.tokens
    }

    /// Scans the rest of the text. On success the tokens end with an
    /// end-of-file token; on an unrecognized character scanning stops there,
    /// keeping the tokens before it.
    pub fn scan(&mut self) -> (r: Result<(), ScanError>)
        requires
            old(self).wf(),
        ensures
            final(self).wf(),
            final(self).source() == old(self).source(),
            final(self).debug_level() == old(self).debug_level(),
            final(self).tokens_view() == old(self).outlook().tokens,
            final(self).lines_view() == old(self).outlook().lines,
            r is Ok <==> old(self).outlook().failure is None,
            r matches Err(ScanError::UnrecognisedCharacter { character, line }) ==> old(
                self,
            ).outlook().failure == Some((character, line as nat)),
            r is Ok ==> final(self).tokens_view().len() > 0 && final(self).tokens_view().last()
                == TokenView::EndOfFile,
            r is Ok ==> final(self).lines_view().last() == old(self).line() + newlines(
                old(self).source().skip(old(self).position() as int),
            ),
    {
        let ghost goal = self.outlook();
        while self.current < self.text.len()
            invariant
                self.wf(),
                self.source() == old(self).source(),
                self.debug_level() == old(self).debug_level(),
                self.outlook() == goal,
                goal == old(self).outlook(),
            decreases self.text.len() - self.current,
        {
            let ghost before = *self;
            let step = self.next_token();
            match step {
                Err(e) => {
                    assert(before.outlook() == goal);
                    assert(self.tokens_view() =~= goal.tokens);
                    assert(self.lines_view() =~= goal.lines);
                    return Err(e);
                },
                Ok(()) => {},
            }
        }
        proof {
            assert(self.source().skip(self.position() as int) =~= Seq::<char>::empty());
        }
        self.push_token(Token::EndOfFile, self.line);
        assert(self.tokens_view() =~= goal.tokens);
        assert(self.lines_view() =~= goal.lines);
        proof {
            lemma_lex_shape(old(self).source().skip(old(self).position() as int), old(self).line());
        }
        Ok(())
    }

    fn push_token(&mut self, t: Token, line: usize)
        requires
            old(self).wf(),
        ensures
            final(self).text == old(self).text,
            final(self).current == old(self).current,
            final(self).line == old(self).line,
            final(self).debug == old(self).debug,
            final(self).wf(),
            final(self).tokens_view() == old(self).tokens_view().push(t@),
            final(self).lines_view() == old(self).lines_view().push(line as nat),
            final(self).tokens_view().subrange(0, old(self).tokens_view().len() as int)
                == old(self).tokens_view(),
            final(self).lines_view().subrange(0, old(self).lines_view().len() as int)
                == old(self).lines_view(),
    {
        self.tokens.push(t);
        self.lines.push(line);
        assert(self.tokens_view() =~= old(self).tokens_view().push(t@));
        assert(self.lines_view() =~= old(self).lines_view().push(line as nat));
        assert(self.tokens_view().subrange(0, old(self).tokens_view().len() as int)
            =~= old(self).tokens_view());
        assert(self.lines_view().subrange(0, old(self).lines_view().len() as int)
            =~= old(self).lines_view());
    }

    /// Scans one token, or skips one stretch that yields none.
    fn next_token(&mut self) -> (r: Result<(), ScanError>)
        requires
            old(self).wf(),
            old(self).current < old(self).text.len(),
        ensures
            final(self).wf(),
            final(self).text == old(self).text,
            final(self).debug == old(self).debug,
            r is Ok ==> final(self).current > old(self).current && final(self).outlook() == old(
                self,
            ).outlook(),
            is_recognized(old(self).text@[old(self).current as int]) ==> r is Ok,
            final(self).tokens_view().len() <= old(self).tokens_view().len() + 1,
            final(self).tokens_view().subrange(0, old(self).tokens_view().len() as int) == old(
                self,
            ).tokens_view(),
            final(self).lines_view().len() <= old(self).lines_view().len() + 1,
            final(self).lines_view().subrange(0, old(self).lines_view().len() as int) == old(
                self,
            ).lines_view(),
            r matches Err(ScanError::UnrecognisedCharacter { character, line }) ==> {
                &&& lex(old(self).source().skip(old(self).position() as int), old(self).line())
                    == Lexed {
                    tokens: seq![],
                    lines: seq![],
                    failure: Some((character, line as nat)),
                }
                &&& final(self).tokens_view() == old(self).tokens_view()
                &&& final(self).lines_view() == old(self).lines_view()
            },
    {
        let ghost s = self.text@.skip(self.current as int);
        let c = self.text[self.current];
        let line = self.line;
        assert(s[0] == c);
        assert(s.drop_first() =~= self.text@.skip(self.current + 1));
        if c == '\n' {
            self.line = self.line + 1;
            self.current = self.current + 1;
        } else if is_letter_char(c) || c == '_' {
            let t = self.scan_ident();
            assert(s.skip(word_len(s) as int) =~= self.text@.skip(self.current as int));
            self.push_token(t, line);
            assert(self.outlook().tokens =~= old(self).outlook().tokens);
            assert(self.outlook().lines =~= old(self).outlook().lines);
        } else if is_digit_char(c) {
            let t = self.scan_number();
            assert(s.skip(number_len(s) as int) =~= self.text@.skip(self.current as int));
            self.push_token(t, line);
            assert(self.outlook().tokens =~= old(self).outlook().tokens);
            assert(self.outlook().lines =~= old(self).outlook().lines);
        } else if c == '"' {
            let t = self.scan_string();
            self.push_token(t, line);
            assert(self.outlook().tokens =~= old(self).outlook().tokens);
            assert(self.outlook().lines =~= old(self).outlook().lines);
        } else if c == '-' {
            if self.current + 1 < self.text.len() && self.text[self.current + 1] == '-' {
                assert(s[1] == self.text@[self.current + 1]);
                self.scan_comment();
                assert(s.skip(len_before(s, '\n') as int) =~= self.text@.skip(self.current as int));
            } else {
                self.current = self.current + 1;
                self.push_token(Token::BinaryOperator('-'), line);
                assert(self.outlook().tokens =~= old(self).outlook().tokens);
                assert(self.outlook().lines =~= old(self).outlook().lines);
            }
        } else if c == '+' || c == '*' || c == '/' {
            self.current = self.current + 1;
            self.push_token(Token::BinaryOperator(c), line);
            assert(self.outlook().tokens =~= old(self).outlook().tokens);
            assert(self.outlook().lines =~= old(self).outlook().lines);
        } else if c == '<' || c == '>' {
            self.current = self.current + 1;
            self.push_token(Token::ComparisonOperator(c), line);
            assert(self.outlook().tokens =~= old(self).outlook().tokens);
            assert(self.outlook().lines =~= old(self).outlook().lines);
        } else if c == '=' {
            self.current = self.current + 1;
            self.push_token(Token::Equals, line);
            assert(self.outlook().tokens =~= old(self).outlook().tokens);
            assert(self.outlook().lines =~= old(self).outlook().lines);
        } else if is_delimiter_char(c) {
            self.current = self.current + 1;
            self.push_token(Token::Delimiter(c), line);
            assert(self.outlook().tokens =~= old(self).outlook().tokens);
            assert(self.outlook().lines =~= old(self).outlook().lines);
        } else if is_space_char(c) {
            self.current = self.current + 1;
        } else {
            return Err(ScanError::UnrecognisedCharacter { character: c, line });
        }
        Ok(())
    }

    /// Scans an identifier or keyword starting at the current character.
    fn scan_ident(&mut self) -> (r: Token)
        requires
            old(self).wf(),
            old(self).current < old(self).text.len(),
            is_word_char(old(self).text@[old(self).current as int]),
        ensures
            final(self).wf(),
            final(self).text == old(self).text,
            final(self).line == old(self).line,
            final(self).debug == old(self).debug,
            final(self).tokens == old(self).tokens,
            final(self).lines == old(self).lines,
            final(self).current == old(self).current + word_len(
                old(self).text@.skip(old(self).current as int),
            ),
            r@ == word_token(
                old(self).text@.skip(old(self).current as int).take(
                    word_len(old(self).text@.skip(old(self).current as int)) as int,
                ),
            ),
    {
        let start = self.current;
        let ghost s = self.text@.skip(start as int);
        let mut buf = String::new();
        while self.current < self.text.len() && is_word(self.text[self.current])
            invariant
                self.wf(),
                self.text == old(self).text,
                self.line == old(self).line,
                self.debug == old(self).debug,
                self.tokens == old(self).tokens,
                self.lines == old(self).lines,
                start <= self.current <= self.text.len(),
                buf@ == self.text@.subrange(start as int, self.current as int),
                word_len(s) == (self.current - start) + word_len(
                    self.text@.skip(self.current as int),
                ),
            decreases self.text.len() - self.current,
        {
            let c = self.text[self.current];
            let ghost rest = self.text@.skip(self.current as int);
            assert(rest[0] == c);
            assert(rest.drop_first() =~= self.text@.skip(self.current + 1));
            push_char(&mut buf, c);
            self.current = self.current + 1;
            assert(buf@ =~= self.text@.subrange(start as int, self.current as int));
        }
        assert(s.take(word_len(s) as int) =~= buf@);
        if is_keyword(&buf) {
            Token::Keyword(buf)
        } else {
            Token::Identifier(buf)
        }
    }

    /// Scans a number literal starting at the current digit, leaving out its
    /// underscores.
    fn scan_number(&mut self) -> (r: Token)
        requires
            old(self).wf(),
            old(self).current < old(self).text.len(),
            is_number_char(old(self).text@[old(self).current as int]),
        ensures
            final(self).wf(),
            final(self).text == old(self).text,
            final(self).line == old(self).line,
            final(self).debug == old(self).debug,
            final(self).tokens == old(self).tokens,
            final(self).lines == old(self).lines,
            final(self).current == old(self).current + number_len(
                old(self).text@.skip(old(self).current as int),
            ),
            r@ == TokenView::Number(
                digits_of(
                    old(self).text@.skip(old(self).current as int).take(
                        number_len(old(self).text@.skip(old(self).current as int)) as int,
                    ),
                ),
            ),
    {
        let start = self.current;
        let ghost s = self.text@.skip(start as int);
        let mut buf = String::new();
        while self.current < self.text.len() && is_number(self.text[self.current])
            invariant
                self.wf(),
                self.text == old(self).text,
                self.line == old(self).line,
                self.debug == old(self).debug,
                self.tokens == old(self).tokens,
                self.lines == old(self).lines,
                start <= self.current <= self.text.len(),
                buf@ == digits_of(self.text@.subrange(start as int, self.current as int)),
                number_len(s) == (self.current - start) + number_len(
                    self.text@.skip(self.current as int),
                ),
            decreases self.text.len() - self.current,
        {
            let c = self.text[self.current];
            let ghost rest = self.text@.skip(self.current as int);
            let ghost before = self.text@.subrange(start as int, self.current as int);
            assert(rest[0] == c);
            assert(rest.drop_first() =~= self.text@.skip(self.current + 1));
            if c != '_' {
                push_char(&mut buf, c);
            }
            self.current = self.current + 1;
            let ghost now = self.text@.subrange(start as int, self.current as int);
            assert(now.drop_last() =~= before);
            assert(now.last() == c);
        }
        assert(s.take(number_len(s) as int) =~= self.text@.subrange(
            start as int,
            self.current as int,
        ));
        Token::Number(buf)
    }

    /// Scans a string literal starting at its opening quote; it runs to the
    /// next quote, or to the end of the text.
    fn scan_string(&mut self) -> (r: Token)
        requires
            old(self).wf(),
            old(self).current < old(self).text.len(),
            old(self).text@[old(self).current as int] == '"',
        ensures
            final(self).wf(),
            final(self).text == old(self).text,
            final(self).debug == old(self).debug,
            final(self).tokens == old(self).tokens,
            final(self).lines == old(self).lines,
            ({
                let body = old(self).text@.skip(old(self).current as int).drop_first();
                let n = len_before(body, '"');
                let text = body.take(n as int);
                &&& r@ == TokenView::Str(text)
                &&& final(self).line == old(self).line + newlines(text)
                &&& final(self).text@.skip(final(self).current as int) == if n < body.len() {
                    body.skip(n + 1int)
                } else {
                    body.skip(n as int)
                }
                &&& final(self).current > old(self).current
            }),
    {
        self.current = self.current + 1;
        let start = self.current;
        let ghost body = self.text@.skip(start as int);
        assert(body =~= old(self).text@.skip(old(self).current as int).drop_first());
        let mut buf = String::new();
        while self.current < self.text.len() && self.text[self.current] != '"'
            invariant
                self.wf(),
                self.text == old(self).text,
                self.debug == old(self).debug,
                self.tokens == old(self).tokens,
                self.lines == old(self).lines,
                start <= self.current <= self.text.len(),
                start == old(self).current + 1,
                buf@ == self.text@.subrange(start as int, self.current as int),
                self.line == old(self).line + newlines(buf@),
                len_before(body, '"') == (self.current - start) + len_before(
                    self.text@.skip(self.current as int),
                    '"',
                ),
            decreases self.text.len() - self.current,
        {
            let c = self.text[self.current];
            let ghost rest = self.text@.skip(self.current as int);
            let ghost before = buf@;
            assert(rest[0] == c);
            assert(rest.drop_first() =~= self.text@.skip(self.current + 1));
            if c == '\n' {
                self.line = self.line + 1;
            }
            push_char(&mut buf, c);
            self.current = self.current + 1;
            assert(buf@ =~= self.text@.subrange(start as int, self.current as int));
            assert(buf@.drop_last() =~= before);
        }
        proof {
            lemma_len_before(body, '"');
        }
        assert(body.take(len_before(body, '"') as int) =~= buf@);
        if self.current < self.text.len() {
            self.current = self.current + 1;
            assert(self.text@.skip(self.current as int) =~= body.skip(
                len_before(body, '"') + 1int,
            ));
        } else {
            assert(self.text@.skip(self.current as int) =~= body.skip(
                len_before(body, '"') as int,
            ));
        }
        Token::String(buf)
    }

    /// Skips a comment from its two hyphens up to, not including, the end of
    /// its line.
    fn scan_comment(&mut self)
        requires
            old(self).wf(),
            old(self).current + 1 < old(self).text.len(),
            old(self).text@[old(self).current as int] == '-',
            old(self).text@[old(self).current + 1] == '-',
        ensures
            final(self).wf(),
            final(self).text == old(self).text,
            final(self).line == old(self).line,
            final(self).debug == old(self).debug,
            final(self).tokens == old(self).tokens,
            final(self).lines == old(self).lines,
            final(self).current == old(self).current + len_before(
                old(self).text@.skip(old(self).current as int),
                '\n',
            ),
            final(self).current > old(self).current,
    {
        let start = self.current;
        let ghost s = self.text@.skip(start as int);
        while self.current < self.text.len() && self.text[self.current] != '\n'
            invariant
                self.wf(),
                self.text == old(self).text,
                self.line == old(self).line,
                self.debug == old(self).debug,
                self.tokens == old(self).tokens,
                self.lines == old(self).lines,
                start == old(self).current,
                start <= self.current <= self.text.len(),
                len_before(s, '\n') == (self.current - start) + len_before(
                    self.text@.skip(self.current as int),
                    '\n',
                ),
                self.current > start || self.text@[self.current as int] == '-',
            decreases self.text.len() - self.current,
        {
            let ghost rest = self.text@.skip(self.current as int);
            assert(rest[0] == self.text@[self.current as int]);
            assert(rest.drop_first() =~= self.text@.skip(self.current + 1));
            self.current = self.current + 1;
        }
    }
}

fn is_letter_char(c: char) -> (r: bool)
    ensures
        r == is_letter(c),
{
    ('a' <= c && c <= 'z') || ('A' <= c && c <= 'Z')
}

fn is_digit_char(c: char) -> (r: bool)
    ensures
        r == is_digit(c),
{
    '0' <= c && c <= '9'
}

fn is_word(c: char) -> (r: bool)
    ensures
        r == is_word_char(c),
{
    is_letter_char(c) || is_digit_char(c) || c == '_'
}

fn is_number(c: char) -> (r: bool)
    ensures
        r == is_number_char(c),
{
    is_digit_char(c) || c == '.' || c == '_'
}

fn is_delimiter_char(c: char) -> (r: bool)
    ensures
        r == is_delimiter(c),
{
    c == '.' || c == ',' || c == ';' || c == ':' || c == '{' || c == '}' || c == '(' || c == ')'
}

fn is_space_char(c: char) -> (r: bool)
    ensures
        r == is_space(c),
{
    ('\u{9}' <= c && c <= '\u{d}') || c == ' ' || c == '\u{85}' || c == '\u{a0}' || c
        == '\u{1680}' || ('\u{2000}' <= c && c <= '\u{200a}') || c == '\u{2028}' || c
        == '\u{2029}' || c == '\u{202f}' || c == '\u{205f}' || c == '\u{3000}'
}

/// Whether `w` is one of the language's keywords.
fn is_keyword(w: &String) -> (r: bool)
    ensures
        r == is_keyword_text(w@),
{
    let w = w.as_str();
    same_text(w, "continue") || same_text(w, "struct") || same_text(w, "elseif") || same_text(
        w,
        "return",
    ) || same_text(w, "typeof") || same_text(w, "false") || same_text(w, "break") || same_text(
        w,
        "true",
    ) || same_text(w, "else") || same_text(w, "then") || same_text(w, "type") || same_text(
        w,
        "for",
    ) || same_text(w, "fun") || same_text(w, "nil") || same_text(w, "not") || same_text(w, "and")
        || same_text(w, "var") || same_text(w, "log") || same_text(w, "do") || same_text(w, "if")
        || same_text(w, "or")
}

} // verus!
