//! The mathematical specification of a scan.
//!
//! [`spec_scan`] says, for every source text, exactly which tokens and
//! which diagnostics a scan produces. It walks the character sequence
//! with [`spec_step`], which classifies one lexical unit at a time just
//! as the executable scanner does: punctuation, one- or two-character
//! operators, comments, whitespace, string and number literals,
//! identifiers and keywords, and unrecognized characters.

use vstd::prelude::*;
use crate::token::{SpecLiteral, SpecToken, TokenType};
use crate::utils::SpecDiagnostic;

verus! {

/// What `char::is_alphabetic` returns for a character.
pub uninterp spec fn alphabetic(c: char) -> bool;

/// What `char::is_alphanumeric` returns for a character.
pub uninterp spec fn alphanumeric(c: char) -> bool;

/// Relies on `char::is_alphabetic` to decide whether a character opens
/// an identifier. Its documentation plainly gives that a newline is not
/// alphabetic.
#[verifier::external_body]
pub(crate) fn is_alphabetic_char(c: char) -> (r: bool)
    ensures
        r == alphabetic(c),
        c == '\n' ==> !r,
{
    c.is_alphabetic()
}

/// Relies on `char::is_alphanumeric` to decide whether a character
/// extends an identifier. Its documentation plainly gives that a
/// newline is not alphanumeric.
#[verifier::external_body]
pub(crate) fn is_alphanumeric_char(c: char) -> (r: bool)
    ensures
        r == alphanumeric(c),
        c == '\n' ==> !r,
{
    c.is_alphanumeric()
}

/// Whether `c` is an ASCII decimal digit.
pub open spec fn is_digit(c: char) -> bool {
    48 <= c as int && c as int <= 57
}

/// Decides [`is_digit`] on a character.
pub(crate) fn is_digit_char(c: char) -> (r: bool)
    ensures
        r == is_digit(c),
{
    let u = c as u32;
    48 <= u && u <= 57
}

/// The token kind of a single-character punctuation mark, if `c` is
/// one. The mapping is a bijection: distinct punctuation characters
/// have distinct kinds, and each kind matches the character's
/// conventional role.
pub open spec fn punct_kind(c: char) -> Option<TokenType> {
    if c == '(' {
        Some(TokenType::LeftParen)
    } else if c == ')' {
        Some(TokenType::RightParen)
    } else if c == '{' {
        Some(TokenType::LeftBrace)
    } else if c == '}' {
        Some(TokenType::RightBrace)
    } else if c == ',' {
        Some(TokenType::Comma)
    } else if c == '.' {
        Some(TokenType::Dot)
    } else if c == '-' {
        Some(TokenType::Minus)
    } else if c == '+' {
        Some(TokenType::Plus)
    } else if c == ';' {
        Some(TokenType::Semicolon)
    } else if c == '*' {
        Some(TokenType::Star)
    } else {
        None
    }
}

/// Whether `c` opens a one- or two-character operator whose second
/// character would be `=`.
pub open spec fn is_operator_start(c: char) -> bool {
    c == '!' || c == '=' || c == '<' || c == '>'
}

/// The kind of an operator that starts with `c`, depending on whether
/// a `=` follows (greedy-maximal matching).
pub open spec fn operator_kind(c: char, with_equal: bool) -> TokenType {
    if c == '!' {
        if with_equal { TokenType::BangEqual } else { TokenType::Bang }
    } else if c == '=' {
        if with_equal { TokenType::EqualEqual } else { TokenType::Equal }
    } else if c == '<' {
        if with_equal { TokenType::LessEqual } else { TokenType::Less }
    } else {
        if with_equal { TokenType::GreaterEqual } else { TokenType::Greater }
    }
}

/// The keyword kind of an identifier text, if it is a reserved word.
/// Lookup is an exact, case-sensitive match against the fixed keyword
/// set; no prefix matching.
pub open spec fn keyword_kind(text: Seq<char>) -> Option<TokenType> {
    if text == "and"@ {
        Some(TokenType::And)
    } else if text == "class"@ {
        Some(TokenType::Class)
    } else if text == "else"@ {
        Some(TokenType::Else)
    } else if text == "false"@ {
        Some(TokenType::False)
    } else if text == "for"@ {
        Some(TokenType::For)
    } else if text == "Fun"@ {
        Some(TokenType::Fun)
    } else if text == "if"@ {
        Some(TokenType::If)
    } else if text == "nil"@ {
        Some(TokenType::Nil)
    } else if text == "or"@ {
        Some(TokenType::Or)
    } else if text == "print"@ {
        Some(TokenType::Print)
    } else if text == "return"@ {
        Some(TokenType::Return)
    } else if text == "super"@ {
        Some(TokenType::Super)
    } else if text == "this"@ {
        Some(TokenType::This)
    } else if text == "true"@ {
        Some(TokenType::True)
    } else if text == "var"@ {
        Some(TokenType::Var)
    } else if text == "while"@ {
        Some(TokenType::While)
    } else {
        None
    }
}

/// The end of the maximal digit run that starts at `i`.
pub open spec fn digit_run_end(s: Seq<char>, i: int) -> int
    decreases s.len() - i
        when 0 <= i <= s.len()
{
    if i < s.len() && is_digit(s[i]) {
        digit_run_end(s, i + 1)
    } else {
        i
    }
}

/// The end of the maximal alphanumeric run that starts at `i`.
pub open spec fn alnum_run_end(s: Seq<char>, i: int) -> int
    decreases s.len() - i
        when 0 <= i <= s.len()
{
    if i < s.len() && alphanumeric(s[i]) {
        alnum_run_end(s, i + 1)
    } else {
        i
    }
}

/// The position of the first `"` at or after `i`, or the end of the
/// source if there is none: where the body of a string literal that
/// starts at `i` ends.
pub open spec fn string_body_end(s: Seq<char>, i: int) -> int
    decreases s.len() - i
        when 0 <= i <= s.len()
{
    if i < s.len() && s[i] != '"' {
        string_body_end(s, i + 1)
    } else {
        i
    }
}

/// The position of the first newline at or after `i`, or the end of
/// the source if there is none: where a line comment stops, so that
/// the newline itself is still processed by the scan loop.
pub open spec fn comment_end(s: Seq<char>, i: int) -> int
    decreases s.len() - i
        when 0 <= i <= s.len()
{
    if i < s.len() && s[i] != '\n' {
        comment_end(s, i + 1)
    } else {
        i
    }
}

/// The number of newline characters in `s[i..j)`.
pub open spec fn newlines(s: Seq<char>, i: int, j: int) -> int
    decreases j - i
        when i <= j
{
    if i < j {
        newlines(s, i, j - 1) + (if s[j - 1] == '\n' { 1int } else { 0int })
    } else {
        0
    }
}

/// The 1-based line number of position `i`: one more than the number
/// of newlines before it.
pub open spec fn line_at(s: Seq<char>, i: int) -> int {
    1 + newlines(s, 0, i)
}

/// The message reported when the end of the source is reached inside a
/// string literal.
pub open spec fn unterminated_string_message() -> Seq<char> {
    "Unterminated string."@
}

/// The message reported for a character that matches no lexical class.
pub open spec fn unexpected_character_message() -> Seq<char> {
    "Unexpected characters."@
}

/// A token, written out from its parts.
pub open spec fn mk_token(
    kind: TokenType,
    lexeme: Seq<char>,
    literal: Option<SpecLiteral>,
    line: int,
) -> SpecToken {
    SpecToken { kind: kind, lexeme: lexeme, literal: literal, line: line }
}

/// The end-of-file token of a source: empty lexeme, no literal, and
/// the final line number.
pub open spec fn eof_token(s: Seq<char>) -> SpecToken {
    mk_token(TokenType::EOF, Seq::<char>::empty(), None, line_at(s, s.len() as int))
}

/// What one step of the scan produces: the tokens it emits, the
/// diagnostics it reports, and the position of the next unconsumed
/// character.
pub struct StepResult {
    pub tokens: Seq<SpecToken>,
    pub diagnostics: Seq<SpecDiagnostic>,
    pub next: int,
}

/// One step of the scan: classifies the lexical unit that starts at
/// position `i` and consumes it. Meaningful for `0 <= i < s.len()`.
pub open spec fn spec_step(s: Seq<char>, i: int) -> StepResult {
    let c = s[i];
    let line = line_at(s, i);
    match punct_kind(c) {
        Some(kind) => StepResult {
            tokens: seq![mk_token(kind, s.subrange(i, i + 1), None, line)],
            diagnostics: Seq::empty(),
            next: i + 1,
        },
        None => spec_step_rest(s, i),
    }
}

/// The non-punctuation cases of [`spec_step`].
pub open spec fn spec_step_rest(s: Seq<char>, i: int) -> StepResult {
    let c = s[i];
    let line = line_at(s, i);
    if is_operator_start(c) {
        let with_equal = i + 1 < s.len() && s[i + 1] == '=';
        let j = if with_equal { i + 2 } else { i + 1 };
        StepResult {
            tokens: seq![mk_token(operator_kind(c, with_equal), s.subrange(i, j), None, line)],
            diagnostics: Seq::empty(),
            next: j,
        }
    } else if c == '/' {
        if i + 1 < s.len() && s[i + 1] == '/' {
            StepResult {
                tokens: Seq::empty(),
                diagnostics: Seq::empty(),
                next: comment_end(s, i + 2),
            }
        } else {
            StepResult {
                tokens: seq![mk_token(TokenType::Slash, s.subrange(i, i + 1), None, line)],
                diagnostics: Seq::empty(),
                next: i + 1,
            }
        }
    } else if c == ' ' || c == '\r' || c == '\t' || c == '\n' {
        StepResult { tokens: Seq::empty(), diagnostics: Seq::empty(), next: i + 1 }
    } else if c == '"' {
        let close = string_body_end(s, i + 1);
        if close >= s.len() {
            StepResult {
                tokens: Seq::empty(),
                diagnostics: seq![
                    SpecDiagnostic {
                        line: line_at(s, s.len() as int),
                        message: unterminated_string_message(),
                    },
                ],
                next: s.len() as int,
            }
        } else {
            StepResult {
                tokens: seq![
                    mk_token(
                        TokenType::String,
                        s.subrange(i, close + 1),
                        Some(SpecLiteral::String(s.subrange(i + 1, close))),
                        line,
                    ),
                ],
                diagnostics: Seq::empty(),
                next: close + 1,
            }
        }
    } else if is_digit(c) {
        let whole = digit_run_end(s, i);
        let j = if whole < s.len() && s[whole] == '.' && whole + 1 < s.len() && is_digit(
            s[whole + 1],
        ) {
            digit_run_end(s, whole + 1)
        } else {
            whole
        };
        StepResult {
            tokens: seq![
                mk_token(
                    TokenType::Number,
                    s.subrange(i, j),
                    Some(SpecLiteral::Number(s.subrange(i, j))),
                    line,
                ),
            ],
            diagnostics: Seq::empty(),
            next: j,
        }
    } else if alphabetic(c) {
        let j = alnum_run_end(s, i + 1);
        let text = s.subrange(i, j);
        match keyword_kind(text) {
            Some(kind) => StepResult {
                tokens: seq![mk_token(kind, text, None, line)],
                diagnostics: Seq::empty(),
                next: j,
            },
            None => StepResult {
                tokens: seq![
                    mk_token(TokenType::Identifier, text, Some(SpecLiteral::Identifier(text)), line),
                ],
                diagnostics: Seq::empty(),
                next: j,
            },
        }
    } else {
        StepResult {
            tokens: Seq::empty(),
            diagnostics: seq![SpecDiagnostic { line: line, message: unexpected_character_message() }],
            next: i + 1,
        }
    }
}

/// Bounds and maximality of [`digit_run_end`].
pub proof fn lemma_digit_run_end(s: Seq<char>, i: int)
    requires
        0 <= i <= s.len(),
    ensures
        i <= digit_run_end(s, i) <= s.len(),
        forall|k: int| i <= k < digit_run_end(s, i) ==> is_digit(s[k]),
        digit_run_end(s, i) < s.len() ==> !is_digit(s[digit_run_end(s, i)]),
    decreases s.len() - i,
{
    if i < s.len() && is_digit(s[i]) {
        lemma_digit_run_end(s, i + 1);
    }
}

/// Bounds and maximality of [`alnum_run_end`].
pub proof fn lemma_alnum_run_end(s: Seq<char>, i: int)
    requires
        0 <= i <= s.len(),
    ensures
        i <= alnum_run_end(s, i) <= s.len(),
        forall|k: int| i <= k < alnum_run_end(s, i) ==> alphanumeric(s[k]),
        alnum_run_end(s, i) < s.len() ==> !alphanumeric(s[alnum_run_end(s, i)]),
    decreases s.len() - i,
{
    if i < s.len() && alphanumeric(s[i]) {
        lemma_alnum_run_end(s, i + 1);
    }
}

/// Bounds and minimality of [`string_body_end`].
pub proof fn lemma_string_body_end(s: Seq<char>, i: int)
    requires
        0 <= i <= s.len(),
    ensures
        i <= string_body_end(s, i) <= s.len(),
        forall|k: int| i <= k < string_body_end(s, i) ==> s[k] != '"',
        string_body_end(s, i) < s.len() ==> s[string_body_end(s, i)] == '"',
    decreases s.len() - i,
{
    if i < s.len() && s[i] != '"' {
        lemma_string_body_end(s, i + 1);
    }
}

/// Bounds and minimality of [`comment_end`].
pub proof fn lemma_comment_end(s: Seq<char>, i: int)
    requires
        0 <= i <= s.len(),
    ensures
        i <= comment_end(s, i) <= s.len(),
        forall|k: int| i <= k < comment_end(s, i) ==> s[k] != '\n',
        comment_end(s, i) < s.len() ==> s[comment_end(s, i)] == '\n',
    decreases s.len() - i,
{
    if i < s.len() && s[i] != '\n' {
        lemma_comment_end(s, i + 1);
    }
}

/// There are never more newlines in a range than characters.
pub proof fn lemma_newlines_bounds(s: Seq<char>, i: int, j: int)
    requires
        i <= j,
    ensures
        0 <= newlines(s, i, j) <= j - i,
    decreases j - i,
{
    if i < j {
        lemma_newlines_bounds(s, i, j - 1);
    }
}

/// A range without newline characters adds nothing to the newline
/// count.
pub proof fn lemma_newlines_unchanged(s: Seq<char>, i: int, j: int)
    requires
        0 <= i <= j,
        forall|k: int| i <= k < j ==> s[k] != '\n',
    ensures
        newlines(s, 0, j) == newlines(s, 0, i),
    decreases j - i,
{
    if i < j {
        lemma_newlines_unchanged(s, i, j - 1);
    }
}

/// Every step consumes at least one character and never runs past the
/// end of the source.
pub proof fn lemma_step_next(s: Seq<char>, i: int)
    ensures
        0 <= i < s.len() ==> i < spec_step(s, i).next <= s.len(),
{
    if 0 <= i && i < s.len() {
        let c = s[i];
        if punct_kind(c) matches Some(_) {
        } else if is_operator_start(c) {
        } else if c == '/' {
            if i + 1 < s.len() && s[i + 1] == '/' {
                lemma_comment_end(s, i + 2);
            }
        } else if c == ' ' || c == '\r' || c == '\t' || c == '\n' {
        } else if c == '"' {
            lemma_string_body_end(s, i + 1);
        } else if is_digit(c) {
            lemma_digit_run_end(s, i);
            let whole = digit_run_end(s, i);
            if whole < s.len() && s[whole] == '.' && whole + 1 < s.len() && is_digit(
                s[whole + 1],
            ) {
                lemma_digit_run_end(s, whole + 1);
            }
        } else if alphabetic(c) {
            lemma_alnum_run_end(s, i + 1);
        } else {
        }
    }
}

/// The tokens and diagnostics of a scan that starts at position `i`,
/// with all characters before `i` already consumed. Ends with the
/// end-of-file token.
pub open spec fn spec_scan_from(s: Seq<char>, i: int) -> (Seq<SpecToken>, Seq<SpecDiagnostic>)
    decreases s.len() - i
        when 0 <= i <= s.len()
{
    if i >= s.len() {
        (seq![eof_token(s)], Seq::<SpecDiagnostic>::empty())
    } else {
        proof {
            lemma_step_next(s, i);
        }
        let step = spec_step(s, i);
        let rest = spec_scan_from(s, step.next);
        (step.tokens + rest.0, step.diagnostics + rest.1)
    }
}

/// What a whole scan of the source `s` produces: its token sequence
/// and its diagnostics, in order.
pub open spec fn spec_scan(s: Seq<char>) -> (Seq<SpecToken>, Seq<SpecDiagnostic>) {
    spec_scan_from(s, 0)
}

/// Scanning is a pure function of the source text: two scans of the
/// same character sequence yield identical token sequences and
/// identical diagnostics, whatever scanner instances produced them.
pub proof fn lemma_scan_deterministic(
    s: Seq<char>,
    tokens1: Seq<SpecToken>,
    diags1: Seq<SpecDiagnostic>,
    tokens2: Seq<SpecToken>,
    diags2: Seq<SpecDiagnostic>,
)
    requires
        tokens1 == spec_scan(s).0,
        diags1 == spec_scan(s).1,
        tokens2 == spec_scan(s).0,
        diags2 == spec_scan(s).1,
    ensures
        tokens1 == tokens2,
        diags1 == diags2,
{
}

/// The punctuation-to-kind mapping is a clean bijection: no two
/// distinct punctuation characters share a token kind.
pub proof fn lemma_punct_kind_injective(a: char, b: char)
    requires
        punct_kind(a) is Some,
        punct_kind(a) == punct_kind(b),
    ensures
        a == b,
{
}

/// For every valid single-character punctuation input, a scan emits
/// exactly one token, of the matching kind, whose lexeme is that
/// single character — followed only by the end-of-file token — and
/// reports no diagnostic.
pub proof fn lemma_single_punctuation(c: char, kind: TokenType)
    requires
        punct_kind(c) == Some(kind),
    ensures
        spec_scan(seq![c]).0 == seq![
            mk_token(kind, seq![c], None, 1),
            mk_token(TokenType::EOF, Seq::<char>::empty(), None, 1),
        ],
        spec_scan(seq![c]).1 == Seq::<SpecDiagnostic>::empty(),
{
    let s = seq![c];
    assert(s.len() == 1 && s[0] == c);
    assert(newlines(s, 0, 1) == newlines(s, 0, 0));
    assert(s.subrange(0, 1) =~= seq![c]);
    let step = spec_step(s, 0);
    assert(step.tokens == seq![mk_token(kind, seq![c], None, 1)]);
    assert(spec_scan_from(s, 1).0 == seq![eof_token(s)]);
    assert(eof_token(s) == mk_token(TokenType::EOF, Seq::<char>::empty(), None, 1));
    assert(spec_scan(s).0 =~= seq![
        mk_token(kind, seq![c], None, 1),
        mk_token(TokenType::EOF, Seq::<char>::empty(), None, 1),
    ]);
    assert(spec_scan(s).1 =~= Seq::<SpecDiagnostic>::empty());
}

/// No single step of a scan ever emits an end-of-file token; only the
/// end of the whole scan appends one.
proof fn lemma_step_no_eof(s: Seq<char>, i: int)
    requires
        0 <= i < s.len(),
    ensures
        forall|k: int|
            0 <= k < spec_step(s, i).tokens.len() ==> spec_step(s, i).tokens[k].kind
                != TokenType::EOF,
{
    assert(punct_kind(s[i]) != Some(TokenType::EOF));
    assert(keyword_kind(s.subrange(i, alnum_run_end(s, i + 1))) != Some(TokenType::EOF));
}

/// From any position, the remaining scan produces at least one token;
/// the last one is the end-of-file token, and no other one is.
pub proof fn lemma_scan_from_eof(s: Seq<char>, i: int)
    requires
        0 <= i <= s.len(),
    ensures
        spec_scan_from(s, i).0.len() >= 1,
        spec_scan_from(s, i).0.last().kind == TokenType::EOF,
        forall|k: int|
            0 <= k < spec_scan_from(s, i).0.len() - 1 ==> spec_scan_from(s, i).0[k].kind
                != TokenType::EOF,
    decreases s.len() - i,
{
    if i < s.len() {
        lemma_step_next(s, i);
        lemma_step_no_eof(s, i);
        let step = spec_step(s, i);
        let rest = spec_scan_from(s, step.next);
        lemma_scan_from_eof(s, step.next);
        assert(spec_scan_from(s, i).0 == step.tokens + rest.0);
        assert(spec_scan_from(s, i).0.last() == rest.0.last());
        assert forall|k: int| 0 <= k < spec_scan_from(s, i).0.len() - 1 implies spec_scan_from(
            s,
            i,
        ).0[k].kind != TokenType::EOF by {
            if k < step.tokens.len() {
                assert(spec_scan_from(s, i).0[k] == step.tokens[k]);
            } else {
                assert(spec_scan_from(s, i).0[k] == rest.0[k - step.tokens.len()]);
            }
        }
    }
}

/// Every scan's token sequence ends with exactly one end-of-file
/// token: the sequence is never empty, its last element has the
/// end-of-file kind, and no earlier element does.
pub proof fn lemma_scan_ends_with_eof(s: Seq<char>)
    ensures
        spec_scan(s).0.len() >= 1,
        spec_scan(s).0.last().kind == TokenType::EOF,
        forall|k: int|
            0 <= k < spec_scan(s).0.len() - 1 ==> spec_scan(s).0[k].kind != TokenType::EOF,
{
    lemma_scan_from_eof(s, 0);
}

} // verus!
