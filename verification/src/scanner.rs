//! The executable scanner.
//!
//! A [`Scanner`] is constructed fresh for one source text, used for
//! exactly one [`Scanner::scan_tokens`] pass, then discarded. The pass
//! is proved to produce exactly the token sequence and the diagnostic
//! sequence that [`crate::lexing::spec_scan`] gives for the source.

use vstd::prelude::*;
use vstd::string::StrSliceExecFns;
use vstd::string::StringExecFns;
use crate::lexing::{
    alnum_run_end, comment_end, digit_run_end, is_digit, keyword_kind,
    lemma_alnum_run_end, lemma_comment_end, lemma_digit_run_end, lemma_newlines_bounds,
    lemma_newlines_unchanged, lemma_step_next, lemma_string_body_end, line_at, mk_token,
    newlines, spec_step, string_body_end, unterminated_string_message,
    is_alphabetic_char, is_alphanumeric_char, is_digit_char,
};
use crate::token::{Literal, SpecLiteral, SpecToken, Token, TokenType};
use crate::utils::{error, Diagnostic, SpecDiagnostic};

verus! {

/// The verbatim substring of `source` between two character positions.
fn substr(source: &str, start: usize, end: usize) -> (r: String)
    requires
        start <= end <= source@.len(),
    ensures
        r@ == source@.subrange(start as int, end as int),
{
    source.substring_char(start, end).to_owned()
}

/// Whether an identifier's text is the given word.
fn text_is(text: &String, word: &str) -> (r: bool)
    ensures
        r == (text@ == word@),
{
    let w = String::from_str(word);
    *text == w
}

/// The keyword kind of an identifier text, if it is a reserved word:
/// the keyword table, consulted once per identifier scan.
fn keyword_token_type(text: &String) -> (r: Option<TokenType>)
    ensures
        r == keyword_kind(text@),
{
    if text_is(text, "and") {
        Some(TokenType::And)
    } else if text_is(text, "class") {
        Some(TokenType::Class)
    } else if text_is(text, "else") {
        Some(TokenType::Else)
    } else if text_is(text, "false") {
        Some(TokenType::False)
    } else if text_is(text, "for") {
        Some(TokenType::For)
    } else if text_is(text, "Fun") {
        Some(TokenType::Fun)
    } else if text_is(text, "if") {
        Some(TokenType::If)
    } else if text_is(text, "nil") {
        Some(TokenType::Nil)
    } else if text_is(text, "or") {
        Some(TokenType::Or)
    } else if text_is(text, "print") {
        Some(TokenType::Print)
    } else if text_is(text, "return") {
        Some(TokenType::Return)
    } else if text_is(text, "super") {
        Some(TokenType::Super)
    } else if text_is(text, "this") {
        Some(TokenType::This)
    } else if text_is(text, "true") {
        Some(TokenType::True)
    } else if text_is(text, "var") {
        Some(TokenType::Var)
    } else if text_is(text, "while") {
        Some(TokenType::While)
    } else {
        None
    }
}

/// Cursor-based scanner state: one sequential pass over a fixed
/// character sequence.
#[derive(Debug)]
pub struct Scanner {
    /// The source text, unchanged for the scan's lifetime.
    source: String,
    /// The source decoded into its logical characters.
    chars: Vec<char>,
    /// The token sequence being built, append-only.
    tokens: Vec<Token>,
    /// The diagnostics reported so far, append-only.
    diagnostics: Vec<Diagnostic>,
    /// Offset of the current lexeme's first character.
    start: usize,
    /// Offset of the next unconsumed character.
    current: usize,
    /// 1-based line number of the next unconsumed character.
    line: u32,
}

impl Scanner {
    /// The source text, as its sequence of characters.
    pub closed spec fn source_chars(&self) -> Seq<char> {
        self.chars@
    }

    /// The tokens emitted so far, as mathematical values.
    pub closed spec fn emitted_tokens(&self) -> Seq<SpecToken> {
        self.tokens@.map_values(|t: Token| t@)
    }

    /// The diagnostics reported so far, as mathematical values.
    pub closed spec fn emitted_diagnostics(&self) -> Seq<SpecDiagnostic> {
        self.diagnostics@.map_values(|d: Diagnostic| d@)
    }

    /// A freshly constructed scanner: nothing consumed, nothing
    /// emitted, the cursor on line 1.
    pub closed spec fn fresh(&self) -> bool {
        &&& self.wf()
        &&& self.tokens@.len() == 0
        &&& self.diagnostics@.len() == 0
        &&& self.start == 0
        &&& self.current == 0
        &&& self.line == 1
    }

    /// The scanner's internal invariant: the decoded characters match
    /// the source text, the cursor is in bounds, and the line counter
    /// counts the newlines consumed so far.
    spec fn wf(&self) -> bool {
        &&& self.source@ == self.chars@
        &&& self.start <= self.current <= self.chars@.len()
        &&& self.chars@.len() < 0xFFFF_FFFF
        &&& self.line as int == crate::lexing::line_at(self.chars@, self.current as int)
    }

    /// Constructs a scanner over one source text. The length bound
    /// keeps the 32-bit line counter from overflowing on any input.
    pub fn new(source: &str) -> (r: Scanner)
        requires
            source@.len() < 0xFFFF_FFFF,
        ensures
            r.fresh(),
            r.source_chars() == source@,
    {
        let n = source.unicode_len();
        let mut chars: Vec<char> = Vec::new();
        let mut i: usize = 0;
        while i < n
            invariant
                i <= n,
                n == source@.len(),
                chars@ == source@.subrange(0, i as int),
            decreases n - i,
        {
            let c = source.get_char(i);
            chars.push(c);
            proof {
                assert(chars@ =~= source@.subrange(0, i + 1 as int));
            }
            i = i + 1;
        }
        proof {
            assert(chars@ =~= source@);
        }
        Scanner {
            source: source.to_owned(),
            chars,
            tokens: Vec::new(),
            diagnostics: Vec::new(),
            start: 0,
            current: 0,
            line: 1,
        }
    }

    /// Whether every character of the source has been consumed.
    fn is_at_end(&self) -> (r: bool)
        ensures
            r == (self.current >= self.source_chars().len()),
    {
        self.current >= self.chars.len()
    }

    /// Consumes and returns the next character.
    fn advance(&mut self) -> (c: char)
        requires
            old(self).current < old(self).source_chars().len(),
            old(self).source_chars().len() < 0xFFFF_FFFF,
        ensures
            c == old(self).source_chars()[old(self).current as int],
            final(self).current == old(self).current + 1,
            final(self).source == old(self).source,
            final(self).chars == old(self).chars,
            final(self).tokens == old(self).tokens,
            final(self).diagnostics == old(self).diagnostics,
            final(self).start == old(self).start,
            final(self).line == old(self).line,
    {
        let ch = self.chars[self.current];
        self.current = self.current + 1;
        ch
    }

    /// The next unconsumed character, if any, without consuming it.
    fn peek(&self) -> (r: Option<char>)
        requires
            self.current <= self.source_chars().len(),
        ensures
            r == (if self.current < self.source_chars().len() {
                Some(self.source_chars()[self.current as int])
            } else {
                None::<char>
            }),
    {
        if self.is_at_end() {
            None
        } else {
            Some(self.chars[self.current])
        }
    }

    /// The character after the next one, if any, without consuming
    /// anything: the one-character lookahead behind a number's
    /// fractional part.
    fn peek_next(&self) -> (r: Option<char>)
        requires
            self.current <= self.source_chars().len(),
            self.source_chars().len() < 0xFFFF_FFFF,
        ensures
            r == (if self.current + 1 < self.source_chars().len() {
                Some(self.source_chars()[self.current + 1])
            } else {
                None::<char>
            }),
    {
        let idx = self.current + 1;
        if idx >= self.chars.len() {
            None
        } else {
            Some(self.chars[idx])
        }
    }

    /// Consumes the next character exactly when it equals `expected`.
    fn next_if_eq(&mut self, expected: char) -> (r: bool)
        requires
            old(self).current <= old(self).source_chars().len(),
            old(self).source_chars().len() < 0xFFFF_FFFF,
        ensures
            r == (old(self).current < old(self).source_chars().len()
                && old(self).source_chars()[old(self).current as int] == expected),
            final(self).current as int == if r {
                old(self).current + 1
            } else {
                old(self).current as int
            },
            final(self).source == old(self).source,
            final(self).chars == old(self).chars,
            final(self).tokens == old(self).tokens,
            final(self).diagnostics == old(self).diagnostics,
            final(self).start == old(self).start,
            final(self).line == old(self).line,
    {
        if self.is_at_end() {
            return false;
        }
        if self.chars[self.current] != expected {
            return false;
        }
        self.current = self.current + 1;
        true
    }

    /// Emits a token for the current lexeme, with no literal payload,
    /// at the current line.
    fn add_token(&mut self, kind: TokenType)
        requires
            old(self).source@ == old(self).chars@,
            old(self).start <= old(self).current <= old(self).chars@.len(),
        ensures
            final(self).source == old(self).source,
            final(self).chars == old(self).chars,
            final(self).diagnostics == old(self).diagnostics,
            final(self).start == old(self).start,
            final(self).current == old(self).current,
            final(self).line == old(self).line,
            final(self).emitted_tokens() == old(self).emitted_tokens().push(
                mk_token(
                    kind,
                    old(self).chars@.subrange(old(self).start as int, old(self).current as int),
                    None,
                    old(self).line as int,
                ),
            ),
    {
        let lexeme = substr(&self.source, self.start, self.current);
        let t = Token::new(kind, lexeme, None, self.line);
        self.tokens.push(t);
        proof {
            assert(self.emitted_tokens() =~= old(self).emitted_tokens().push(
                mk_token(
                    kind,
                    old(self).chars@.subrange(old(self).start as int, old(self).current as int),
                    None,
                    old(self).line as int,
                ),
            ));
        }
    }

    /// Emits a token for the current lexeme, with the given literal
    /// payload, at the current line.
    fn add_literal(&mut self, kind: TokenType, literal: Option<Literal>)
        requires
            old(self).source@ == old(self).chars@,
            old(self).start <= old(self).current <= old(self).chars@.len(),
        ensures
            final(self).source == old(self).source,
            final(self).chars == old(self).chars,
            final(self).diagnostics == old(self).diagnostics,
            final(self).start == old(self).start,
            final(self).current == old(self).current,
            final(self).line == old(self).line,
            final(self).emitted_tokens() == old(self).emitted_tokens().push(
                mk_token(
                    kind,
                    old(self).chars@.subrange(old(self).start as int, old(self).current as int),
                    crate::token::literal_view(literal),
                    old(self).line as int,
                ),
            ),
    {
        let lexeme = substr(&self.source, self.start, self.current);
        let t = Token::new(kind, lexeme, literal, self.line);
        self.tokens.push(t);
        proof {
            assert(self.emitted_tokens() =~= old(self).emitted_tokens().push(t@));
        }
    }

    /// Scans a string literal whose opening quote, at offset `start`,
    /// is already consumed. Newlines inside the string advance the
    /// line counter. If the source ends before a closing quote, an
    /// unterminated-string diagnostic is reported at the final line
    /// and no token is emitted; otherwise a string token is emitted at
    /// the line where the string began, with the content between the
    /// quotes as its literal.
    fn string(&mut self)
        requires
            old(self).wf(),
            old(self).current == old(self).start + 1,
            old(self).start < old(self).chars@.len(),
            old(self).chars@[old(self).start as int] == '"',
        ensures
            final(self).source == old(self).source,
            final(self).chars == old(self).chars,
            final(self).start == old(self).start,
            final(self).wf(),
            ({
                let s = old(self).chars@;
                let i = old(self).start as int;
                let close = string_body_end(s, i + 1);
                if close >= s.len() {
                    &&& final(self).current as int == s.len()
                    &&& final(self).emitted_tokens() == old(self).emitted_tokens()
                    &&& final(self).emitted_diagnostics() == old(self).emitted_diagnostics().push(
                        SpecDiagnostic {
                            line: line_at(s, s.len() as int),
                            message: unterminated_string_message(),
                        },
                    )
                } else {
                    &&& final(self).current as int == close + 1
                    &&& final(self).emitted_tokens() == old(self).emitted_tokens().push(
                        mk_token(
                            TokenType::String,
                            s.subrange(i, close + 1),
                            Some(SpecLiteral::String(s.subrange(i + 1, close))),
                            line_at(s, i),
                        ),
                    )
                    &&& final(self).emitted_diagnostics() == old(self).emitted_diagnostics()
                }
            }),
    {
        let ghost s = self.chars@;
        let ghost i0 = self.start as int;
        let ghost sbe = string_body_end(s, i0 + 1);
        let token_line = self.line;
        proof {
            lemma_string_body_end(s, i0 + 1);
            assert(newlines(s, 0, i0 + 1) == newlines(s, 0, i0));
        }
        loop
            invariant
                self.source == old(self).source,
                self.chars == old(self).chars,
                self.tokens == old(self).tokens,
                self.diagnostics == old(self).diagnostics,
                self.start == old(self).start,
                s == self.chars@,
                s.len() < 0xFFFF_FFFF,
                sbe == string_body_end(s, i0 + 1),
                sbe <= s.len(),
                i0 + 1 <= self.current as int <= sbe,
                string_body_end(s, self.current as int) == sbe,
                self.line as int == line_at(s, self.current as int),
            ensures
                self.current as int == sbe,
            decreases s.len() - self.current,
        {
            let p = self.peek();
            match p {
                None => {
                    proof {
                        assert(string_body_end(s, self.current as int) == self.current as int);
                    }
                    break;
                },
                Some(ch) => {
                    if ch == '"' {
                        proof {
                            assert(string_body_end(s, self.current as int) == self.current as int);
                        }
                        break;
                    }
                    if ch == '\n' {
                        proof {
                            lemma_newlines_bounds(s, 0, self.current as int);
                        }
                        self.line = self.line + 1;
                    }
                    proof {
                        assert(string_body_end(s, self.current as int) == string_body_end(
                            s,
                            self.current + 1,
                        ));
                        lemma_string_body_end(s, self.current + 1);
                        assert(newlines(s, 0, self.current + 1) == newlines(s, 0, self.current as int)
                            + (if s[self.current as int] == '\n' { 1int } else { 0int }));
                    }
                    let _ = self.advance();
                },
            }
        }
        if self.is_at_end() {
            let d = error(self.line, "Unterminated string.");
            self.diagnostics.push(d);
            proof {
                assert(self.emitted_diagnostics() =~= old(self).emitted_diagnostics().push(d@));
            }
            return;
        }
        proof {
            assert(sbe < s.len() && s[sbe] == '"');
            assert(newlines(s, 0, sbe + 1) == newlines(s, 0, sbe));
        }
        let _ = self.advance();
        let lexeme = substr(&self.source, self.start, self.current);
        let value = substr(&self.source, self.start + 1, self.current - 1);
        let t = Token::new(TokenType::String, lexeme, Some(Literal::String(value)), token_line);
        self.tokens.push(t);
        proof {
            assert(self.emitted_tokens() =~= old(self).emitted_tokens().push(t@));
        }
    }

    /// Scans a number literal whose first digit, at offset `start`, is
    /// already consumed: a maximal digit run, optionally followed by a
    /// `.` and another maximal digit run. The `.` is consumed only
    /// when a digit follows it, so a trailing `.` is left for the next
    /// lexeme. The token's literal holds the exact numeral text.
    fn number(&mut self)
        requires
            old(self).wf(),
            old(self).current == old(self).start + 1,
            old(self).start < old(self).chars@.len(),
            is_digit(old(self).chars@[old(self).start as int]),
        ensures
            final(self).source == old(self).source,
            final(self).chars == old(self).chars,
            final(self).start == old(self).start,
            final(self).line == old(self).line,
            final(self).wf(),
            final(self).emitted_diagnostics() == old(self).emitted_diagnostics(),
            ({
                let s = old(self).chars@;
                let i = old(self).start as int;
                let whole = digit_run_end(s, i);
                let j = if whole < s.len() && s[whole] == '.' && whole + 1 < s.len() && is_digit(
                    s[whole + 1],
                ) {
                    digit_run_end(s, whole + 1)
                } else {
                    whole
                };
                &&& final(self).current as int == j
                &&& final(self).emitted_tokens() == old(self).emitted_tokens().push(
                    mk_token(
                        TokenType::Number,
                        s.subrange(i, j),
                        Some(SpecLiteral::Number(s.subrange(i, j))),
                        line_at(s, i),
                    ),
                )
            }),
    {
        let ghost s = self.chars@;
        let ghost i0 = self.start as int;
        let ghost whole = digit_run_end(s, i0);
        proof {
            lemma_digit_run_end(s, i0);
            assert(digit_run_end(s, i0) == digit_run_end(s, i0 + 1));
            assert(newlines(s, 0, i0 + 1) == newlines(s, 0, i0));
        }
        loop
            invariant
                self.source == old(self).source,
                self.chars == old(self).chars,
                self.tokens == old(self).tokens,
                self.diagnostics == old(self).diagnostics,
                self.start == old(self).start,
                self.line == old(self).line,
                s == self.chars@,
                s.len() < 0xFFFF_FFFF,
                whole == digit_run_end(s, i0),
                whole <= s.len(),
                i0 + 1 <= self.current as int <= whole,
                digit_run_end(s, self.current as int) == whole,
                newlines(s, 0, self.current as int) == newlines(s, 0, i0),
            ensures
                self.current as int == whole,
            decreases s.len() - self.current,
        {
            let p = self.peek();
            let go = match p {
                Some(ch) => is_digit_char(ch),
                None => false,
            };
            if !go {
                proof {
                    assert(digit_run_end(s, self.current as int) == self.current as int);
                }
                break;
            }
            proof {
                assert(digit_run_end(s, self.current as int) == digit_run_end(s, self.current + 1));
                lemma_digit_run_end(s, self.current + 1);
                assert(newlines(s, 0, self.current + 1) == newlines(s, 0, self.current as int));
            }
            let _ = self.advance();
        }
        let p1 = self.peek();
        let dot = match p1 {
            Some(ch) => ch == '.',
            None => false,
        };
        let frac = if dot {
            let p2 = self.peek_next();
            match p2 {
                Some(ch2) => is_digit_char(ch2),
                None => false,
            }
        } else {
            false
        };
        if frac {
            proof {
                assert(newlines(s, 0, whole + 1) == newlines(s, 0, whole));
            }
            let _ = self.advance();
            let ghost frac_end = digit_run_end(s, whole + 1);
            proof {
                lemma_digit_run_end(s, whole + 1);
            }
            loop
                invariant
                    self.source == old(self).source,
                    self.chars == old(self).chars,
                    self.tokens == old(self).tokens,
                    self.diagnostics == old(self).diagnostics,
                    self.start == old(self).start,
                    self.line == old(self).line,
                    s == self.chars@,
                    s.len() < 0xFFFF_FFFF,
                    frac_end == digit_run_end(s, whole + 1),
                    frac_end <= s.len(),
                    whole + 1 <= self.current as int <= frac_end,
                    digit_run_end(s, self.current as int) == frac_end,
                    newlines(s, 0, self.current as int) == newlines(s, 0, i0),
                ensures
                    self.current as int == frac_end,
                decreases s.len() - self.current,
            {
                let p = self.peek();
                let go = match p {
                    Some(ch) => is_digit_char(ch),
                    None => false,
                };
                if !go {
                    proof {
                        assert(digit_run_end(s, self.current as int) == self.current as int);
                    }
                    break;
                }
                proof {
                    assert(digit_run_end(s, self.current as int) == digit_run_end(
                        s,
                        self.current + 1,
                    ));
                    lemma_digit_run_end(s, self.current + 1);
                    assert(newlines(s, 0, self.current + 1) == newlines(s, 0, self.current as int));
                }
                let _ = self.advance();
            }
        }
        let value = substr(&self.source, self.start, self.current);
        self.add_literal(TokenType::Number, Some(Literal::Number(value)));
    }

    /// Scans an identifier or keyword whose first character, at offset
    /// `start`, is already consumed: a maximal alphanumeric run. The
    /// text is looked up in the keyword table; a reserved word gets
    /// its keyword kind and no literal, anything else is an identifier
    /// whose literal is its own text.
    fn identifier(&mut self)
        requires
            old(self).wf(),
            old(self).current == old(self).start + 1,
            old(self).start < old(self).chars@.len(),
            old(self).chars@[old(self).start as int] != '\n',
        ensures
            final(self).source == old(self).source,
            final(self).chars == old(self).chars,
            final(self).start == old(self).start,
            final(self).line == old(self).line,
            final(self).wf(),
            final(self).emitted_diagnostics() == old(self).emitted_diagnostics(),
            ({
                let s = old(self).chars@;
                let i = old(self).start as int;
                let j = alnum_run_end(s, i + 1);
                let text = s.subrange(i, j);
                let tok = match keyword_kind(text) {
                    Some(k) => mk_token(k, text, None, line_at(s, i)),
                    None => mk_token(
                        TokenType::Identifier,
                        text,
                        Some(SpecLiteral::Identifier(text)),
                        line_at(s, i),
                    ),
                };
                &&& final(self).current as int == j
                &&& final(self).emitted_tokens() == old(self).emitted_tokens().push(tok)
            }),
    {
        let ghost s = self.chars@;
        let ghost i0 = self.start as int;
        let ghost are = alnum_run_end(s, i0 + 1);
        proof {
            lemma_alnum_run_end(s, i0 + 1);
            assert(newlines(s, 0, i0 + 1) == newlines(s, 0, i0));
        }
        loop
            invariant
                self.source == old(self).source,
                self.chars == old(self).chars,
                self.tokens == old(self).tokens,
                self.diagnostics == old(self).diagnostics,
                self.start == old(self).start,
                self.line == old(self).line,
                s == self.chars@,
                s.len() < 0xFFFF_FFFF,
                are == alnum_run_end(s, i0 + 1),
                are <= s.len(),
                i0 + 1 <= self.current as int <= are,
                alnum_run_end(s, self.current as int) == are,
                newlines(s, 0, self.current as int) == newlines(s, 0, i0),
            ensures
                self.current as int == are,
            decreases s.len() - self.current,
        {
            let p = self.peek();
            let go = match p {
                Some(ch) => is_alphanumeric_char(ch),
                None => false,
            };
            if !go {
                proof {
                    assert(alnum_run_end(s, self.current as int) == self.current as int);
                }
                break;
            }
            proof {
                assert(alnum_run_end(s, self.current as int) == alnum_run_end(s, self.current + 1));
                lemma_alnum_run_end(s, self.current + 1);
                assert(newlines(s, 0, self.current + 1) == newlines(s, 0, self.current as int));
            }
            let _ = self.advance();
        }
        let text = substr(&self.source, self.start, self.current);
        let kind = keyword_token_type(&text);
        match kind {
            Some(k) => self.add_token(k),
            None => self.add_literal(TokenType::Identifier, Some(Literal::Identifier(text))),
        }
    }

    /// Scans the whole source: repeatedly consumes one lexical unit,
    /// then appends exactly one end-of-file token carrying the final
    /// line number. Scanning never fails outright: malformed input
    /// contributes diagnostics instead of tokens, and the returned
    /// sequence is exactly what [`crate::lexing::spec_scan`] gives for
    /// the source text. The diagnostics stay available through
    /// [`Scanner::diagnostics`].
    pub fn scan_tokens(&mut self) -> (r: Vec<Token>)
        requires
            old(self).fresh(),
        ensures
            r@.map_values(|t: Token| t@) == crate::lexing::spec_scan(old(self).source_chars()).0,
            final(self).emitted_diagnostics() == crate::lexing::spec_scan(
                old(self).source_chars(),
            ).1,
            final(self).source_chars() == old(self).source_chars(),
    {
        let ghost s = self.chars@;
        proof {
            assert(self.emitted_tokens() =~= Seq::<SpecToken>::empty());
            assert(self.emitted_diagnostics() =~= Seq::<SpecDiagnostic>::empty());
            assert(self.emitted_tokens() + crate::lexing::spec_scan_from(s, 0).0
                =~= crate::lexing::spec_scan_from(s, 0).0);
            assert(self.emitted_diagnostics() + crate::lexing::spec_scan_from(s, 0).1
                =~= crate::lexing::spec_scan_from(s, 0).1);
        }
        loop
            invariant
                self.source@ == self.chars@,
                self.chars@ == s,
                s.len() < 0xFFFF_FFFF,
                self.current <= s.len(),
                self.line as int == line_at(s, self.current as int),
                self.emitted_tokens() + crate::lexing::spec_scan_from(s, self.current as int).0
                    == crate::lexing::spec_scan_from(s, 0).0,
                self.emitted_diagnostics() + crate::lexing::spec_scan_from(
                    s,
                    self.current as int,
                ).1 == crate::lexing::spec_scan_from(s, 0).1,
            ensures
                self.current == s.len(),
            decreases s.len() - self.current,
        {
            if self.is_at_end() {
                break;
            }
            self.start = self.current;
            let ghost cur = self.current as int;
            self.scan_token();
            proof {
                lemma_step_next(s, cur);
                let step = spec_step(s, cur);
                assert(crate::lexing::spec_scan_from(s, cur).0 == step.tokens
                    + crate::lexing::spec_scan_from(s, step.next).0);
                assert(crate::lexing::spec_scan_from(s, cur).1 == step.diagnostics
                    + crate::lexing::spec_scan_from(s, step.next).1);
                assert(self.emitted_tokens() + crate::lexing::spec_scan_from(
                    s,
                    self.current as int,
                ).0 =~= crate::lexing::spec_scan_from(s, 0).0);
                assert(self.emitted_diagnostics() + crate::lexing::spec_scan_from(
                    s,
                    self.current as int,
                ).1 =~= crate::lexing::spec_scan_from(s, 0).1);
            }
        }
        proof {
            assert(crate::lexing::spec_scan_from(s, s.len() as int).0 =~= seq![
                crate::lexing::eof_token(s),
            ]);
            assert(crate::lexing::spec_scan_from(s, s.len() as int).1
                =~= Seq::<SpecDiagnostic>::empty());
            assert(self.emitted_diagnostics() + Seq::<SpecDiagnostic>::empty()
                =~= self.emitted_diagnostics());
        }
        let eof_tok = Token::new(TokenType::EOF, String::new(), None, self.line);
        self.tokens.push(eof_tok);
        proof {
            assert(eof_tok@ == crate::lexing::eof_token(s));
            assert(self.emitted_tokens() =~= crate::lexing::spec_scan_from(s, 0).0);
        }
        let mut r: Vec<Token> = Vec::new();
        let mut i: usize = 0;
        let ghost snap = *self;
        while i < self.tokens.len()
            invariant
                *self == snap,
                i <= self.tokens@.len(),
                r@.len() == i,
                forall|k: int| 0 <= k < i ==> r@[k] == self.tokens@[k],
            decreases self.tokens@.len() - i,
        {
            let t = self.tokens[i].clone();
            r.push(t);
            i = i + 1;
        }
        proof {
            assert(r@ =~= self.tokens@);
            assert(r@.map_values(|t: Token| t@) =~= self.emitted_tokens());
        }
        r
    }

    /// The diagnostics reported so far, in the order they fired.
    pub fn diagnostics(&self) -> (r: &Vec<Diagnostic>)
        ensures
            r@.map_values(|d: Diagnostic| d@) == self.emitted_diagnostics(),
    {
        &self.diagnostics
    }

    /// Classifies and consumes one lexical unit starting at `start`
    /// (whose first character is the next unconsumed one), emitting
    /// its tokens and diagnostics: exactly one step of the scan.
    fn scan_token(&mut self)
        requires
            old(self).wf(),
            old(self).current < old(self).chars@.len(),
            old(self).start == old(self).current,
        ensures
            final(self).source == old(self).source,
            final(self).chars == old(self).chars,
            final(self).wf(),
            ({
                let step = spec_step(old(self).chars@, old(self).current as int);
                &&& final(self).current as int == step.next
                &&& final(self).emitted_tokens() == old(self).emitted_tokens() + step.tokens
                &&& final(self).emitted_diagnostics() == old(self).emitted_diagnostics()
                    + step.diagnostics
            }),
    {
        let ghost s = self.chars@;
        let ghost i0 = self.current as int;
        proof {
            lemma_step_next(s, i0);
        }
        let c = self.advance();
        proof {
            if s[i0] != '\n' {
                assert(newlines(s, 0, i0 + 1) == newlines(s, 0, i0));
            }
        }
        match c {
            '(' => self.add_token(TokenType::LeftParen),
            ')' => self.add_token(TokenType::RightParen),
            '{' => self.add_token(TokenType::LeftBrace),
            '}' => self.add_token(TokenType::RightBrace),
            ',' => self.add_token(TokenType::Comma),
            '.' => self.add_token(TokenType::Dot),
            '-' => self.add_token(TokenType::Minus),
            '+' => self.add_token(TokenType::Plus),
            ';' => self.add_token(TokenType::Semicolon),
            '*' => self.add_token(TokenType::Star),
            '!' => {
                let two = self.next_if_eq('=');
                proof {
                    if two {
                        assert(newlines(s, 0, i0 + 2) == newlines(s, 0, i0 + 1));
                    }
                }
                if two {
                    self.add_token(TokenType::BangEqual)
                } else {
                    self.add_token(TokenType::Bang)
                }
            },
            '=' => {
                let two = self.next_if_eq('=');
                proof {
                    if two {
                        assert(newlines(s, 0, i0 + 2) == newlines(s, 0, i0 + 1));
                    }
                }
                if two {
                    self.add_token(TokenType::EqualEqual)
                } else {
                    self.add_token(TokenType::Equal)
                }
            },
            '<' => {
                let two = self.next_if_eq('=');
                proof {
                    if two {
                        assert(newlines(s, 0, i0 + 2) == newlines(s, 0, i0 + 1));
                    }
                }
                if two {
                    self.add_token(TokenType::LessEqual)
                } else {
                    self.add_token(TokenType::Less)
                }
            },
            '>' => {
                let two = self.next_if_eq('=');
                proof {
                    if two {
                        assert(newlines(s, 0, i0 + 2) == newlines(s, 0, i0 + 1));
                    }
                }
                if two {
                    self.add_token(TokenType::GreaterEqual)
                } else {
                    self.add_token(TokenType::Greater)
                }
            },
            '/' => {
                if self.next_if_eq('/') {
                    // A line comment: discard everything up to, but not
                    // including, the next newline, so the scan loop still
                    // counts it.
                    let ghost ce = comment_end(s, i0 + 2);
                    proof {
                        lemma_comment_end(s, i0 + 2);
                    }
                    loop
                        invariant
                            self.source == old(self).source,
                            self.chars == old(self).chars,
                            self.tokens == old(self).tokens,
                            self.diagnostics == old(self).diagnostics,
                            self.start == old(self).start,
                            self.line == old(self).line,
                            s == self.chars@,
                            s.len() < 0xFFFF_FFFF,
                            ce == comment_end(s, i0 + 2),
                            ce <= s.len(),
                            i0 + 2 <= self.current as int <= ce,
                            comment_end(s, self.current as int) == ce,
                        ensures
                            self.current as int == ce,
                        decreases s.len() - self.current,
                    {
                        let p = self.peek();
                        let go = match p {
                            Some(ch) => ch != '\n',
                            None => false,
                        };
                        if !go {
                            proof {
                                assert(comment_end(s, self.current as int) == self.current as int);
                            }
                            break;
                        }
                        proof {
                            assert(comment_end(s, self.current as int) == comment_end(
                                s,
                                self.current + 1,
                            ));
                            lemma_comment_end(s, self.current + 1);
                        }
                        let _ = self.advance();
                    }
                    proof {
                        lemma_newlines_unchanged(s, i0, ce);
                    }
                } else {
                    self.add_token(TokenType::Slash)
                }
            },
            ' ' | '\r' | '\t' => {
                proof {
                    assert(newlines(s, 0, i0 + 1) == newlines(s, 0, i0));
                }
            },
            '\n' => {
                proof {
                    lemma_newlines_bounds(s, 0, i0);
                    assert(newlines(s, 0, i0 + 1) == newlines(s, 0, i0) + 1);
                }
                self.line = self.line + 1;
            },
            '"' => self.string(),
            other => {
                if is_digit_char(other) {
                    self.number();
                } else if is_alphabetic_char(other) {
                    self.identifier();
                } else {
                    proof {
                        assert(newlines(s, 0, i0 + 1) == newlines(s, 0, i0));
                    }
                    let d = error(self.line, "Unexpected characters.");
                    self.diagnostics.push(d);
                    proof {
                        assert(self.emitted_diagnostics() =~= old(self).emitted_diagnostics().push(
                            d@,
                        ));
                    }
                }
            },
        }
        proof {
            let step = spec_step(s, i0);
            assert(self.emitted_tokens() =~= old(self).emitted_tokens() + step.tokens);
            assert(self.emitted_diagnostics() =~= old(self).emitted_diagnostics()
                + step.diagnostics);
        }
    }
}

} // verus!
