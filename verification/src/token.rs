//! CSS lexical tokenizer: a pure left-to-right scanner from a character
//! sequence to a finite stream of typed tokens.
//!
//! The lexical grammar is written down as spec functions over the character
//! sequence ([`ws_end`], [`ident_end`], [`number_end`], [`string_end`],
//! [`token_at`], [`tokens_from`]); the scanner is proved to produce exactly
//! that token stream. The grammar is a deliberate narrowing of the full CSS
//! token set: there are no dimension or percentage tokens (a unit or `%`
//! after a number is scanned as its own token), and an identifier may begin
//! with `-` only when an identifier-start or an escape follows.

use vstd::prelude::*;

verus! {

broadcast use vstd::std_specs::vec::axiom_spec_len;

/// Mathematical model of a [`CssToken`]: string payloads as character
/// sequences.
pub enum CssTokenView {
    HashToken(Seq<char>),
    Delim(char),
    Number(Seq<char>),
    Colon,
    SemiColon,
    OpenParenthesis,
    CloseParenthesis,
    OpenCurly,
    CloseCurly,
    Ident(Seq<char>),
    StringToken(Seq<char>),
    AtKeyword(Seq<char>),
}

/// One CSS lexical token.
///
/// A numeric token carries the literal exactly as written in the source; the
/// conversion to a machine floating-point value is left to the consumer, so
/// that the scanner itself stays free of floating point.
#[derive(Debug, Clone, PartialEq)]
pub enum CssToken {
    HashToken(String),
    Delim(char),
    Number(String),
    Colon,
    SemiColon,
    OpenParenthesis,
    CloseParenthesis,
    OpenCurly,
    CloseCurly,
    Ident(String),
    StringToken(String),
    AtKeyword(String),
}

impl View for CssToken {
    type V = CssTokenView;

    open spec fn view(&self) -> CssTokenView {
        match self {
            CssToken::HashToken(s) => CssTokenView::HashToken(s@),
            CssToken::Delim(c) => CssTokenView::Delim(*c),
            CssToken::Number(s) => CssTokenView::Number(s@),
            CssToken::Colon => CssTokenView::Colon,
            CssToken::SemiColon => CssTokenView::SemiColon,
            CssToken::OpenParenthesis => CssTokenView::OpenParenthesis,
            CssToken::CloseParenthesis => CssTokenView::CloseParenthesis,
            CssToken::OpenCurly => CssTokenView::OpenCurly,
            CssToken::CloseCurly => CssTokenView::CloseCurly,
            CssToken::Ident(s) => CssTokenView::Ident(s@),
            CssToken::StringToken(s) => CssTokenView::StringToken(s@),
            CssToken::AtKeyword(s) => CssTokenView::AtKeyword(s@),
        }
    }
}

impl DeepView for CssToken {
    type V = CssTokenView;

    open spec fn deep_view(&self) -> CssTokenView {
        self@
    }
}

// ---------------------------------------------------------------------------
// Character classes
// ---------------------------------------------------------------------------

/// Whitespace code points: space, tab, line feed, carriage return, form feed.
pub open spec fn is_space(c: char) -> bool {
    c == ' ' || c == '\t' || c == '\n' || c == '\r' || c == '\u{0c}'
}

pub open spec fn is_digit(c: char) -> bool {
    48 <= (c as u32) && (c as u32) <= 57
}

pub open spec fn is_letter(c: char) -> bool {
    (65 <= (c as u32) && (c as u32) <= 90) || (97 <= (c as u32) && (c as u32) <= 122)
}

pub open spec fn is_non_ascii(c: char) -> bool {
    (c as u32) > 127
}

/// A code point allowed inside an identifier run (escapes aside).
pub open spec fn is_ident_char(c: char) -> bool {
    is_letter(c) || is_digit(c) || c == '-' || c == '_' || is_non_ascii(c)
}

/// A code point allowed to open an identifier on its own.
pub open spec fn is_ident_start_char(c: char) -> bool {
    is_letter(c) || c == '_' || is_non_ascii(c)
}

/// A valid identifier begins at `i`: an identifier-start, an escape, or `-`
/// followed by either of those.
pub open spec fn ident_begins(s: Seq<char>, i: int) -> bool {
    &&& 0 <= i < s.len()
    &&& (is_ident_start_char(s[i]) || s[i] == '\\' || (s[i] == '-' && i + 1 < s.len() && (
    is_ident_start_char(s[i + 1]) || s[i + 1] == '\\')))
}

/// An identifier run follows at `i` (the looser condition used after `#`).
pub open spec fn hash_follows(s: Seq<char>, i: int) -> bool {
    0 <= i < s.len() && (is_ident_char(s[i]) || s[i] == '\\')
}

/// A numeric literal begins at `i`: a digit, or a sign or `.` immediately
/// followed by a digit.
pub open spec fn number_begins(s: Seq<char>, i: int) -> bool {
    &&& 0 <= i < s.len()
    &&& (is_digit(s[i]) || ((s[i] == '+' || s[i] == '-' || s[i] == '.') && i + 1 < s.len()
        && is_digit(s[i + 1])))
}

// ---------------------------------------------------------------------------
// Scanning, as spec functions
// ---------------------------------------------------------------------------

/// The position of the first non-whitespace code point at or after `i`.
pub open spec fn ws_end(s: Seq<char>, i: int) -> int
    decreases s.len() - i
    when 0 <= i <= s.len()
{
    if i < s.len() && is_space(s[i]) {
        ws_end(s, i + 1)
    } else {
        i
    }
}

/// The end of the maximal digit run starting at `i`.
pub open spec fn digits_end(s: Seq<char>, i: int) -> int
    decreases s.len() - i
    when 0 <= i <= s.len()
{
    if i < s.len() && is_digit(s[i]) {
        digits_end(s, i + 1)
    } else {
        i
    }
}

/// The end of the maximal identifier run starting at `i`. An escape consumes
/// the backslash and the following code point; a backslash at end of input is
/// consumed alone.
pub open spec fn ident_end(s: Seq<char>, i: int) -> int
    decreases s.len() - i
    when 0 <= i <= s.len()
{
    if i < s.len() {
        if s[i] == '\\' {
            if i + 1 < s.len() {
                ident_end(s, i + 2)
            } else {
                i + 1
            }
        } else if is_ident_char(s[i]) {
            ident_end(s, i + 1)
        } else {
            i
        }
    } else {
        i
    }
}

/// The content of the identifier run starting at `i`: an escaped code point
/// stands for itself, without the backslash.
pub open spec fn ident_value(s: Seq<char>, i: int) -> Seq<char>
    decreases s.len() - i
    when 0 <= i <= s.len()
{
    if i < s.len() {
        if s[i] == '\\' {
            if i + 1 < s.len() {
                seq![s[i + 1]] + ident_value(s, i + 2)
            } else {
                Seq::empty()
            }
        } else if is_ident_char(s[i]) {
            seq![s[i]] + ident_value(s, i + 1)
        } else {
            Seq::empty()
        }
    } else {
        Seq::empty()
    }
}

/// The position just past the string literal whose content starts at `i`
/// (after the opening quote `q`): past the matching unescaped quote, or the
/// end of input if the literal is unterminated.
pub open spec fn string_end(s: Seq<char>, i: int, q: char) -> int
    decreases s.len() - i
    when 0 <= i <= s.len()
{
    if i < s.len() {
        if s[i] == q {
            i + 1
        } else if s[i] == '\\' {
            if i + 1 < s.len() {
                string_end(s, i + 2, q)
            } else {
                i + 1
            }
        } else {
            string_end(s, i + 1, q)
        }
    } else {
        i
    }
}

/// The content of the string literal starting at `i` (after the opening
/// quote `q`): escapes stand for the escaped code point; an unterminated
/// literal keeps the partial content.
pub open spec fn string_value(s: Seq<char>, i: int, q: char) -> Seq<char>
    decreases s.len() - i
    when 0 <= i <= s.len()
{
    if i < s.len() {
        if s[i] == q {
            Seq::empty()
        } else if s[i] == '\\' {
            if i + 1 < s.len() {
                seq![s[i + 1]] + string_value(s, i + 2, q)
            } else {
                Seq::empty()
            }
        } else {
            seq![s[i]] + string_value(s, i + 1, q)
        }
    } else {
        Seq::empty()
    }
}

/// The end of the numeric literal starting at `i`: optional sign, integer
/// digits, optional `.` plus fractional digits, optional exponent whose
/// marker counts only when digits (after an optional sign) follow it.
pub open spec fn number_end(s: Seq<char>, i: int) -> int {
    let a = if i < s.len() && (s[i] == '+' || s[i] == '-') {
        i + 1
    } else {
        i
    };
    let b = digits_end(s, a);
    let c = if b < s.len() && s[b] == '.' && b + 1 < s.len() && is_digit(s[b + 1]) {
        digits_end(s, b + 1)
    } else {
        b
    };
    if c < s.len() && (s[c] == 'e' || s[c] == 'E') {
        if c + 1 < s.len() && is_digit(s[c + 1]) {
            digits_end(s, c + 1)
        } else if c + 2 < s.len() && (s[c + 1] == '+' || s[c + 1] == '-') && is_digit(s[c + 2]) {
            digits_end(s, c + 2)
        } else {
            c
        }
    } else {
        c
    }
}

/// The token that begins at position `j` (a non-whitespace position).
pub open spec fn token_at(s: Seq<char>, j: int) -> CssTokenView {
    let c = s[j];
    if c == '#' {
        if hash_follows(s, j + 1) {
            CssTokenView::HashToken(ident_value(s, j + 1))
        } else {
            CssTokenView::Delim('#')
        }
    } else if number_begins(s, j) {
        CssTokenView::Number(s.subrange(j, number_end(s, j)))
    } else if c == ':' {
        CssTokenView::Colon
    } else if c == ';' {
        CssTokenView::SemiColon
    } else if c == '(' {
        CssTokenView::OpenParenthesis
    } else if c == ')' {
        CssTokenView::CloseParenthesis
    } else if c == '{' {
        CssTokenView::OpenCurly
    } else if c == '}' {
        CssTokenView::CloseCurly
    } else if c == '@' && ident_begins(s, j + 1) {
        CssTokenView::AtKeyword(ident_value(s, j + 1))
    } else if ident_begins(s, j) {
        CssTokenView::Ident(ident_value(s, j))
    } else if c == '"' || c == '\'' {
        CssTokenView::StringToken(string_value(s, j + 1, c))
    } else {
        CssTokenView::Delim(c)
    }
}

/// The position just past the token that begins at position `j`.
pub open spec fn token_end_at(s: Seq<char>, j: int) -> int {
    let c = s[j];
    if c == '#' {
        if hash_follows(s, j + 1) {
            ident_end(s, j + 1)
        } else {
            j + 1
        }
    } else if number_begins(s, j) {
        number_end(s, j)
    } else if c == ':' || c == ';' || c == '(' || c == ')' || c == '{' || c == '}' {
        j + 1
    } else if c == '@' && ident_begins(s, j + 1) {
        ident_end(s, j + 1)
    } else if ident_begins(s, j) {
        ident_end(s, j)
    } else if c == '"' || c == '\'' {
        string_end(s, j + 1, c)
    } else {
        j + 1
    }
}

/// Whether another token follows at or after position `i`.
pub open spec fn has_next(s: Seq<char>, i: int) -> bool {
    ws_end(s, i) < s.len()
}

/// The next token at or after position `i`.
pub open spec fn next_tok(s: Seq<char>, i: int) -> CssTokenView {
    token_at(s, ws_end(s, i))
}

/// The position just past the next token at or after position `i`.
pub open spec fn next_pos(s: Seq<char>, i: int) -> int {
    token_end_at(s, ws_end(s, i))
}

// ---------------------------------------------------------------------------
// Bounds and progress
// ---------------------------------------------------------------------------

pub proof fn lemma_ws_end(s: Seq<char>, i: int)
    requires
        0 <= i <= s.len(),
    ensures
        i <= ws_end(s, i) <= s.len(),
    decreases s.len() - i,
{
    if i < s.len() && is_space(s[i]) {
        lemma_ws_end(s, i + 1);
    }
}

pub proof fn lemma_digits_end(s: Seq<char>, i: int)
    requires
        0 <= i <= s.len(),
    ensures
        i <= digits_end(s, i) <= s.len(),
    decreases s.len() - i,
{
    if i < s.len() && is_digit(s[i]) {
        lemma_digits_end(s, i + 1);
    }
}

pub proof fn lemma_ident_end(s: Seq<char>, i: int)
    requires
        0 <= i <= s.len(),
    ensures
        i <= ident_end(s, i) <= s.len(),
    decreases s.len() - i,
{
    if i < s.len() {
        if s[i] == '\\' {
            if i + 1 < s.len() {
                lemma_ident_end(s, i + 2);
            }
        } else if is_ident_char(s[i]) {
            lemma_ident_end(s, i + 1);
        }
    }
}

pub proof fn lemma_string_end(s: Seq<char>, i: int, q: char)
    requires
        0 <= i <= s.len(),
    ensures
        i <= string_end(s, i, q) <= s.len(),
    decreases s.len() - i,
{
    if i < s.len() {
        if s[i] == q {
        } else if s[i] == '\\' {
            if i + 1 < s.len() {
                lemma_string_end(s, i + 2, q);
            }
        } else {
            lemma_string_end(s, i + 1, q);
        }
    }
}

pub proof fn lemma_number_end(s: Seq<char>, i: int)
    requires
        number_begins(s, i),
    ensures
        i < number_end(s, i) <= s.len(),
{
    let a = if i < s.len() && (s[i] == '+' || s[i] == '-') {
        i + 1
    } else {
        i
    };
    lemma_digits_end(s, a);
    let b = digits_end(s, a);
    if is_digit(s[i]) && a == i {
        assert(digits_end(s, i) == digits_end(s, i + 1));
        lemma_digits_end(s, i + 1);
    }
    let c = if b < s.len() && s[b] == '.' && b + 1 < s.len() && is_digit(s[b + 1]) {
        lemma_digits_end(s, b + 1);
        assert(digits_end(s, b + 1) == digits_end(s, b + 2));
        lemma_digits_end(s, b + 2);
        digits_end(s, b + 1)
    } else {
        b
    };
    if c < s.len() && (s[c] == 'e' || s[c] == 'E') {
        if c + 1 < s.len() && is_digit(s[c + 1]) {
            lemma_digits_end(s, c + 1);
        } else if c + 2 < s.len() && (s[c + 1] == '+' || s[c + 1] == '-') && is_digit(s[c + 2]) {
            lemma_digits_end(s, c + 2);
        }
    }
}

/// Every token occupies at least one code point: scanning makes progress.
pub proof fn lemma_token_progress(s: Seq<char>, i: int)
    requires
        0 <= i <= s.len(),
        has_next(s, i),
    ensures
        i <= ws_end(s, i) < next_pos(s, i) <= s.len(),
{
    lemma_ws_end(s, i);
    let j = ws_end(s, i);
    let c = s[j];
    if c == '#' {
        if hash_follows(s, j + 1) {
            lemma_ident_end(s, j + 1);
        }
    } else if number_begins(s, j) {
        lemma_number_end(s, j);
    } else if c == ':' || c == ';' || c == '(' || c == ')' || c == '{' || c == '}' {
    } else if c == '@' && ident_begins(s, j + 1) {
        lemma_ident_end(s, j + 1);
    } else if ident_begins(s, j) {
        if s[j] == '\\' {
            if j + 1 < s.len() {
                lemma_ident_end(s, j + 2);
            }
        } else {
            lemma_ident_end(s, j + 1);
        }
    } else if c == '"' || c == '\'' {
        lemma_string_end(s, j + 1, c);
    }
}

/// The whole token stream from position `i` to the end of the input.
pub open spec fn tokens_from(s: Seq<char>, i: int) -> Seq<CssTokenView>
    decreases s.len() - i
    when 0 <= i <= s.len()
    via tokens_from_decreases
{
    if has_next(s, i) {
        seq![next_tok(s, i)] + tokens_from(s, next_pos(s, i))
    } else {
        Seq::empty()
    }
}

#[via_fn]
proof fn tokens_from_decreases(s: Seq<char>, i: int) {
    if has_next(s, i) {
        lemma_token_progress(s, i);
    }
}

/// Input consisting only of whitespace yields an empty token sequence.
pub proof fn lemma_whitespace_only(s: Seq<char>)
    requires
        forall|k: int| 0 <= k < s.len() ==> is_space(#[trigger] s[k]),
    ensures
        tokens_from(s, 0) == Seq::<CssTokenView>::empty(),
{
    lemma_ws_end_all_space(s, 0);
}

proof fn lemma_ws_end_all_space(s: Seq<char>, i: int)
    requires
        0 <= i <= s.len(),
        forall|k: int| 0 <= k < s.len() ==> is_space(#[trigger] s[k]),
    ensures
        ws_end(s, i) == s.len(),
    decreases s.len() - i,
{
    if i < s.len() {
        lemma_ws_end_all_space(s, i + 1);
    }
}

// ---------------------------------------------------------------------------
// The executable tokenizer
// ---------------------------------------------------------------------------

/// Mathematical model of a [`CssTokenizer`]: the cursor and the input.
pub struct CssTokenizerView {
    pub pos: int,
    pub input: Seq<char>,
}

/// The tokenizer state: an immutable character sequence and a cursor that
/// only ever advances. The stream is drained by calling
/// [`CssTokenizer::next_token`]; restarting requires a new tokenizer.
#[derive(Debug, Clone, PartialEq)]
pub struct CssTokenizer {
    pos: usize,
    input: Vec<char>,
}

impl View for CssTokenizer {
    type V = CssTokenizerView;

    closed spec fn view(&self) -> CssTokenizerView {
        CssTokenizerView { pos: self.pos as int, input: self.input@ }
    }
}

/// Relies on String::push: appends the given character to the end of the
/// string.
#[verifier::external_body]
fn push_char(s: &mut String, c: char)
    ensures
        final(s)@ == old(s)@.push(c),
{
    s.push(c);
}

fn is_space_char(c: char) -> (r: bool)
    ensures
        r == is_space(c),
{
    c == ' ' || c == '\t' || c == '\n' || c == '\r' || c == '\u{0c}'
}

fn is_digit_char(c: char) -> (r: bool)
    ensures
        r == is_digit(c),
{
    let u = c as u32;
    48 <= u && u <= 57
}

fn is_ident_char_exec(c: char) -> (r: bool)
    ensures
        r == is_ident_char(c),
{
    let u = c as u32;
    (65 <= u && u <= 90) || (97 <= u && u <= 122) || (48 <= u && u <= 57) || c == '-' || c == '_'
        || u > 127
}

fn is_ident_start_char_exec(c: char) -> (r: bool)
    ensures
        r == is_ident_start_char(c),
{
    let u = c as u32;
    (65 <= u && u <= 90) || (97 <= u && u <= 122) || c == '_' || u > 127
}

impl CssTokenizer {
    /// The cursor never leaves the input.
    pub open spec fn inv(&self) -> bool {
        0 <= self@.pos <= self@.input.len()
    }

    /// A tokenizer over the code points of `input`, with the cursor at the
    /// start.
    pub fn new(input: String) -> (t: CssTokenizer)
        ensures
            t.inv(),
            t@.pos == 0,
            t@.input == input@,
    {
        let n = input.as_str().unicode_len();
        let mut v: Vec<char> = Vec::new();
        let mut i: usize = 0;
        while i < n
            invariant
                i <= n,
                n == input@.len(),
                v@ == input@.subrange(0, i as int),
            decreases n - i,
        {
            v.push(input.as_str().get_char(i));
            proof {
                assert(v@ =~= input@.subrange(0, i + 1 as int));
            }
            i += 1;
        }
        proof {
            assert(v@ =~= input@);
        }
        CssTokenizer { pos: 0, input: v }
    }

    /// Move the cursor to the first non-whitespace code point.
    fn skip_whitespace(&mut self)
        requires
            old(self).inv(),
        ensures
            final(self).inv(),
            final(self)@.input == old(self)@.input,
            final(self)@.pos == ws_end(old(self)@.input, old(self)@.pos),
    {
        while self.pos < self.input.len() && is_space_char(self.input[self.pos])
            invariant
                self.inv(),
                self@.input == old(self)@.input,
                ws_end(self@.input, old(self)@.pos) == ws_end(self@.input, self@.pos),
            decreases self@.input.len() - self@.pos,
        {
            self.pos = self.pos + 1;
        }
    }

    /// Whether a numeric literal begins at position `i`.
    fn number_begins_at(&self, i: usize) -> (r: bool)
        ensures
            r == number_begins(self@.input, i as int),
    {
        if i >= self.input.len() {
            return false;
        }
        let c = self.input[i];
        if is_digit_char(c) {
            return true;
        }
        if (c == '+' || c == '-' || c == '.') && i + 1 < self.input.len() {
            return is_digit_char(self.input[i + 1]);
        }
        false
    }

    /// Whether a valid identifier begins at position `i`.
    fn ident_begins_at(&self, i: usize) -> (r: bool)
        ensures
            r == ident_begins(self@.input, i as int),
    {
        if i >= self.input.len() {
            return false;
        }
        let c = self.input[i];
        if is_ident_start_char_exec(c) || c == '\\' {
            return true;
        }
        if c == '-' && i + 1 < self.input.len() {
            let d = self.input[i + 1];
            return is_ident_start_char_exec(d) || d == '\\';
        }
        false
    }

    /// Consume the maximal identifier run at the cursor, resolving escapes.
    fn consume_ident(&mut self) -> (r: String)
        requires
            old(self).inv(),
        ensures
            final(self).inv(),
            final(self)@.input == old(self)@.input,
            final(self)@.pos == ident_end(old(self)@.input, old(self)@.pos),
            r@ == ident_value(old(self)@.input, old(self)@.pos),
    {
        let ghost s = self@.input;
        let ghost p0 = self@.pos;
        let mut out = String::new();
        while self.pos < self.input.len() && (self.input[self.pos] == '\\' || is_ident_char_exec(
            self.input[self.pos],
        ))
            invariant
                self.inv(),
                self@.input == s,
                ident_end(s, p0) == ident_end(s, self@.pos),
                ident_value(s, p0) == out@ + ident_value(s, self@.pos),
            decreases s.len() - self@.pos,
        {
            let c = self.input[self.pos];
            let ghost p = self@.pos;
            let ghost outpre = out@;
            if c == '\\' {
                if self.pos + 1 < self.input.len() {
                    let d = self.input[self.pos + 1];
                    push_char(&mut out, d);
                    self.pos = self.pos + 2;
                    proof {
                        assert(ident_value(s, p) == seq![s[p + 1]] + ident_value(s, p + 2));
                        assert(outpre + (seq![s[p + 1]] + ident_value(s, p + 2)) =~= out@
                            + ident_value(s, self@.pos));
                    }
                } else {
                    self.pos = self.pos + 1;
                    proof {
                        assert(ident_value(s, p) =~= Seq::<char>::empty());
                        assert(ident_end(s, p) == p + 1);
                        assert(outpre + Seq::<char>::empty() =~= out@ + ident_value(
                            s,
                            self@.pos,
                        ));
                    }
                }
            } else {
                push_char(&mut out, c);
                self.pos = self.pos + 1;
                proof {
                    assert(ident_value(s, p) == seq![s[p]] + ident_value(s, p + 1));
                    assert(outpre + (seq![s[p]] + ident_value(s, p + 1)) =~= out@ + ident_value(
                        s,
                        self@.pos,
                    ));
                }
            }
        }
        proof {
            assert(ident_value(s, self@.pos) =~= Seq::<char>::empty());
            assert(out@ + Seq::<char>::empty() =~= out@);
        }
        out
    }

    /// Consume the maximal digit run at the cursor, appending it to `out`.
    fn consume_digits(&mut self, out: &mut String)
        requires
            old(self).inv(),
        ensures
            final(self).inv(),
            final(self)@.input == old(self)@.input,
            final(self)@.pos == digits_end(old(self)@.input, old(self)@.pos),
            final(out)@ == old(out)@ + old(self)@.input.subrange(
                old(self)@.pos,
                digits_end(old(self)@.input, old(self)@.pos),
            ),
    {
        let ghost s = self@.input;
        let ghost p0 = self@.pos;
        let ghost out0 = out@;
        proof {
            assert(out0 + s.subrange(p0, p0) =~= out0);
        }
        while self.pos < self.input.len() && is_digit_char(self.input[self.pos])
            invariant
                self.inv(),
                self@.input == s,
                0 <= p0 <= self@.pos,
                digits_end(s, p0) == digits_end(s, self@.pos),
                out@ == out0 + s.subrange(p0, self@.pos),
            decreases s.len() - self@.pos,
        {
            let c = self.input[self.pos];
            let ghost p = self@.pos;
            push_char(out, c);
            self.pos = self.pos + 1;
            proof {
                assert(0 <= p0 <= p < s.len());
                assert(out@ == (out0 + s.subrange(p0, p)).push(s[p]));
                assert(s.subrange(p0, p).push(s[p]) =~= s.subrange(p0, p + 1));
                assert((out0 + s.subrange(p0, p)).push(s[p]) =~= out0 + s.subrange(p0, p).push(
                    s[p],
                ));
            }
        }
    }

    /// Consume a string literal body at the cursor (just past the opening
    /// quote), up to and including the matching unescaped quote, or to the
    /// end of input if the literal is unterminated.
    fn consume_string(&mut self, quote: char) -> (r: String)
        requires
            old(self).inv(),
        ensures
            final(self).inv(),
            final(self)@.input == old(self)@.input,
            final(self)@.pos == string_end(old(self)@.input, old(self)@.pos, quote),
            r@ == string_value(old(self)@.input, old(self)@.pos, quote),
    {
        let ghost s = self@.input;
        let ghost p0 = self@.pos;
        let mut out = String::new();
        while self.pos < self.input.len() && self.input[self.pos] != quote
            invariant
                self.inv(),
                self@.input == s,
                string_end(s, p0, quote) == string_end(s, self@.pos, quote),
                string_value(s, p0, quote) == out@ + string_value(s, self@.pos, quote),
            decreases s.len() - self@.pos,
        {
            let c = self.input[self.pos];
            let ghost p = self@.pos;
            let ghost outpre = out@;
            if c == '\\' {
                if self.pos + 1 < self.input.len() {
                    let d = self.input[self.pos + 1];
                    push_char(&mut out, d);
                    self.pos = self.pos + 2;
                    proof {
                        assert(string_value(s, p, quote) == seq![s[p + 1]] + string_value(
                            s,
                            p + 2,
                            quote,
                        ));
                        assert(outpre + (seq![s[p + 1]] + string_value(s, p + 2, quote)) =~= out@
                            + string_value(s, self@.pos, quote));
                    }
                } else {
                    self.pos = self.pos + 1;
                    proof {
                        assert(string_value(s, p, quote) =~= Seq::<char>::empty());
                        assert(string_end(s, p, quote) == p + 1);
                        assert(outpre + Seq::<char>::empty() =~= out@ + string_value(
                            s,
                            self@.pos,
                            quote,
                        ));
                    }
                }
            } else {
                push_char(&mut out, c);
                self.pos = self.pos + 1;
                proof {
                    assert(string_value(s, p, quote) == seq![s[p]] + string_value(
                        s,
                        p + 1,
                        quote,
                    ));
                    assert(outpre + (seq![s[p]] + string_value(s, p + 1, quote)) =~= out@
                        + string_value(s, self@.pos, quote));
                }
            }
        }
        if self.pos < self.input.len() {
            // at the matching quote: consume it, it is not part of the value
            self.pos = self.pos + 1;
        }
        proof {
            assert(out@ + Seq::<char>::empty() =~= out@);
        }
        out
    }

    /// Consume the numeric literal at the cursor, returning it exactly as
    /// written.
    #[verifier::rlimit(60)]
    fn consume_number(&mut self) -> (r: String)
        requires
            old(self).inv(),
            number_begins(old(self)@.input, old(self)@.pos),
        ensures
            final(self).inv(),
            final(self)@.input == old(self)@.input,
            final(self)@.pos == number_end(old(self)@.input, old(self)@.pos),
            r@ == old(self)@.input.subrange(
                old(self)@.pos,
                number_end(old(self)@.input, old(self)@.pos),
            ),
    {
        let ghost s = self@.input;
        let ghost p0 = self@.pos;
        let n = self.input.len();
        let mut out = String::new();
        let c0 = self.input[self.pos];
        if c0 == '+' || c0 == '-' {
            push_char(&mut out, c0);
            self.pos = self.pos + 1;
            proof {
                assert(out@ =~= s.subrange(p0, p0 + 1));
            }
        }
        let ghost a = self@.pos;
        proof {
            assert(out@ =~= s.subrange(p0, a));
        }
        self.consume_digits(&mut out);
        let ghost b = self@.pos;
        proof {
            lemma_digits_end(s, a);
            assert(out@ =~= s.subrange(p0, b));
        }
        if self.pos < self.input.len() && self.input[self.pos] == '.' && self.pos + 1
            < self.input.len() && is_digit_char(self.input[self.pos + 1]) {
            push_char(&mut out, '.');
            self.pos = self.pos + 1;
            proof {
                assert(out@ =~= s.subrange(p0, b + 1));
            }
            self.consume_digits(&mut out);
            proof {
                lemma_digits_end(s, b + 1);
                assert(out@ =~= s.subrange(p0, self@.pos));
            }
        }
        let ghost c = self@.pos;
        proof {
            assert(out@ =~= s.subrange(p0, c));
        }
        if self.pos < self.input.len() && (self.input[self.pos] == 'e' || self.input[self.pos]
            == 'E') {
            let marker = self.input[self.pos];
            if self.pos + 1 < self.input.len() && is_digit_char(self.input[self.pos + 1]) {
                push_char(&mut out, marker);
                self.pos = self.pos + 1;
                proof {
                    assert(out@ =~= s.subrange(p0, c + 1));
                }
                self.consume_digits(&mut out);
                proof {
                    lemma_digits_end(s, c + 1);
                    assert(out@ =~= s.subrange(p0, self@.pos));
                }
            } else if self.pos + 1 < self.input.len() && (self.input[self.pos + 1] == '+'
                || self.input[self.pos + 1] == '-') && self.pos + 2 < self.input.len()
                && is_digit_char(self.input[self.pos + 2]) {
                push_char(&mut out, marker);
                push_char(&mut out, self.input[self.pos + 1]);
                self.pos = self.pos + 2;
                proof {
                    assert(out@ =~= s.subrange(p0, c + 2));
                }
                self.consume_digits(&mut out);
                proof {
                    lemma_digits_end(s, c + 2);
                    assert(out@ =~= s.subrange(p0, self@.pos));
                }
            }
        }
        proof {
            assert(self@.pos == number_end(s, p0));
        }
        out
    }

    /// The next token of the stream, or nothing once the input is exhausted.
    /// Whitespace separates tokens and is never part of one. Every input
    /// yields some token sequence; scanning cannot fail.
    pub fn next_token(&mut self) -> (r: Option<CssToken>)
        requires
            old(self).inv(),
        ensures
            final(self).inv(),
            final(self)@.input == old(self)@.input,
            old(self)@.pos <= final(self)@.pos,
            !has_next(old(self)@.input, old(self)@.pos) ==> (r is None && final(self)@.pos == old(
                self,
            )@.input.len()),
            has_next(old(self)@.input, old(self)@.pos) ==> (r matches Some(t) && t@ == next_tok(
                old(self)@.input,
                old(self)@.pos,
            ) && final(self)@.pos == next_pos(old(self)@.input, old(self)@.pos)),
    {
        let ghost s = self@.input;
        let ghost i0 = self@.pos;
        self.skip_whitespace();
        proof {
            lemma_ws_end(s, i0);
        }
        if self.pos >= self.input.len() {
            return None;
        }
        proof {
            lemma_token_progress(s, i0);
        }
        let ghost j = self@.pos;
        let c = self.input[self.pos];
        if c == '#' {
            let follows = if self.pos + 1 < self.input.len() {
                let d = self.input[self.pos + 1];
                d == '\\' || is_ident_char_exec(d)
            } else {
                false
            };
            if follows {
                self.pos = self.pos + 1;
                let name = self.consume_ident();
                Some(CssToken::HashToken(name))
            } else {
                self.pos = self.pos + 1;
                Some(CssToken::Delim('#'))
            }
        } else if self.number_begins_at(self.pos) {
            let lexeme = self.consume_number();
            Some(CssToken::Number(lexeme))
        } else if c == ':' {
            self.pos = self.pos + 1;
            Some(CssToken::Colon)
        } else if c == ';' {
            self.pos = self.pos + 1;
            Some(CssToken::SemiColon)
        } else if c == '(' {
            self.pos = self.pos + 1;
            Some(CssToken::OpenParenthesis)
        } else if c == ')' {
            self.pos = self.pos + 1;
            Some(CssToken::CloseParenthesis)
        } else if c == '{' {
            self.pos = self.pos + 1;
            Some(CssToken::OpenCurly)
        } else if c == '}' {
            self.pos = self.pos + 1;
            Some(CssToken::CloseCurly)
        } else if c == '@' && self.ident_begins_at(self.pos + 1) {
            self.pos = self.pos + 1;
            let name = self.consume_ident();
            Some(CssToken::AtKeyword(name))
        } else if self.ident_begins_at(self.pos) {
            let name = self.consume_ident();
            Some(CssToken::Ident(name))
        } else if c == '"' || c == '\'' {
            self.pos = self.pos + 1;
            let value = self.consume_string(c);
            Some(CssToken::StringToken(value))
        } else {
            self.pos = self.pos + 1;
            Some(CssToken::Delim(c))
        }
    }

    /// Drain the whole stream: exactly the token sequence of the input from
    /// the current cursor on.
    pub fn tokenize(&mut self) -> (r: Vec<CssToken>)
        requires
            old(self).inv(),
        ensures
            final(self).inv(),
            final(self)@.input == old(self)@.input,
            final(self)@.pos == old(self)@.input.len(),
            r.deep_view() == tokens_from(old(self)@.input, old(self)@.pos),
    {
        let ghost s = self@.input;
        let ghost i0 = self@.pos;
        let mut out: Vec<CssToken> = Vec::new();
        while self.pos < self.input.len()
            invariant
                self.inv(),
                self@.input == s,
                i0 <= self@.pos,
                tokens_from(s, i0) == out.deep_view() + tokens_from(s, self@.pos),
            decreases s.len() - self@.pos,
        {
            let ghost p = self@.pos;
            let ghost outpre = out.deep_view();
            match self.next_token() {
                Some(t) => {
                    out.push(t);
                    proof {
                        lemma_token_progress(s, p);
                        assert(tokens_from(s, p) == seq![next_tok(s, p)] + tokens_from(
                            s,
                            next_pos(s, p),
                        ));
                        assert(out.deep_view() =~= outpre + seq![next_tok(s, p)]);
                        assert(outpre + (seq![next_tok(s, p)] + tokens_from(s, self@.pos)) =~= (
                        outpre + seq![next_tok(s, p)]) + tokens_from(s, self@.pos));
                    }
                },
                None => {
                    proof {
                        assert(tokens_from(s, p) =~= Seq::<CssTokenView>::empty());
                        assert(out.deep_view() + Seq::<CssTokenView>::empty()
                            =~= out.deep_view());
                    }
                },
            }
        }
        proof {
            assert(!has_next(s, self@.pos));
            assert(tokens_from(s, self@.pos) =~= Seq::<CssTokenView>::empty());
            assert(out.deep_view() + Seq::<CssTokenView>::empty() =~= out.deep_view());
        }
        out
    }
}

} // verus!
