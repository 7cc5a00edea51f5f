use crate::errors::son_error::SoNError;
use crate::services::text::{chars_of, decimal, push_decimal, string_of};
use vstd::prelude::*;
use vstd::string::*;

verus! {

/// White space: the characters that Unicode gives the property `White_Space`.
pub open spec fn is_space(c: char) -> bool {
    ||| '\u{9}' <= c <= '\u{d}'
    ||| c == ' '
    ||| c == '\u{85}'
    ||| c == '\u{a0}'
    ||| c == '\u{1680}'
    ||| '\u{2000}' <= c <= '\u{200a}'
    ||| c == '\u{2028}'
    ||| c == '\u{2029}'
    ||| c == '\u{202f}'
    ||| c == '\u{205f}'
    ||| c == '\u{3000}'
}

/// A decimal digit.
pub open spec fn is_digit(c: char) -> bool {
    '0' <= c <= '9'
}

/// A character that may start an identifier: a letter of `A-Z`, `a-z`, or `_`.
pub open spec fn is_id_start_char(c: char) -> bool {
    'a' <= c <= 'z' || 'A' <= c <= 'Z' || c == '_'
}

/// A character that may continue an identifier: a letter, a digit, or `_`.
pub open spec fn is_id_letter_char(c: char) -> bool {
    is_id_start_char(c) || is_digit(c)
}

/// The classes of characters that the lexer reads in runs.
pub enum CharClass {
    Space,
    Digit,
    IdLetter,
}

/// The character belongs to the class.
pub open spec fn in_class(c: char, class: CharClass) -> bool {
    match class {
        CharClass::Space => is_space(c),
        CharClass::Digit => is_digit(c),
        CharClass::IdLetter => is_id_letter_char(c),
    }
}

/// The position behind the longest run of characters of `class` that starts
/// at `p`; `p` itself where no such character stands there.
pub open spec fn run_end(s: Seq<char>, p: int, class: CharClass) -> int
    decreases s.len() - p,
{
    if 0 <= p < s.len() && in_class(s[p], class) {
        run_end(s, p + 1, class)
    } else {
        p
    }
}

/// `pat` stands in `s` at position `p`.
pub open spec fn starts_at(s: Seq<char>, p: int, pat: Seq<char>) -> bool {
    0 <= p && p + pat.len() <= s.len() && s.subrange(p, p + pat.len()) == pat
}

/// `pat` stands at `p` and no identifier character follows it.
pub open spec fn word_at(s: Seq<char>, p: int, pat: Seq<char>) -> bool {
    starts_at(s, p, pat) && !(p + pat.len() < s.len() && is_id_letter_char(s[p + pat.len()]))
}

/// Number of line feeds among the first `p` characters.
pub open spec fn newlines_before(s: Seq<char>, p: int) -> nat
    decreases p,
{
    if p <= 0 {
        0
    } else {
        newlines_before(s, p - 1) + if s[p - 1] == '\n' {
            1nat
        } else {
            0nat
        }
    }
}

/// The position at which the line that holds position `p` starts.
pub open spec fn line_start(s: Seq<char>, p: int) -> int
    decreases p,
{
    if p <= 0 {
        0
    } else if s[p - 1] == '\n' {
        p
    } else {
        line_start(s, p - 1)
    }
}

/// Line and column of position `p`, both counted from 1.
///
/// Lines end at a line feed, which still belongs to its line.  The position
/// behind the last character belongs to the last line unless that line is
/// empty.  There is no answer for a position outside the text, nor for a
/// column that no `usize` holds.
pub open spec fn line_col(s: Seq<char>, p: int) -> Option<(int, int)> {
    if 0 <= p <= s.len() && !(p == s.len() && (p == 0 || s[p - 1] == '\n')) && p - line_start(s, p)
        < usize::MAX {
        Some((newlines_before(s, p) as int + 1, p - line_start(s, p) + 1))
    } else {
        None
    }
}

/// The number that a sequence of decimal digits denotes.
pub open spec fn digits_value(d: Seq<char>) -> nat
    decreases d.len(),
{
    if d.len() == 0 {
        0
    } else {
        digits_value(d.drop_last()) * 10 + (d.last() as nat - '0' as nat) as nat
    }
}

/// The text between `from` and `to`, or nothing where that is no range of `s`.
pub open spec fn slice(s: Seq<char>, from: int, to: int) -> Seq<char> {
    if 0 <= from <= to <= s.len() {
        s.subrange(from, to)
    } else {
        Seq::empty()
    }
}

/// The position behind the token at `p`: an identifier or a number is passed,
/// any other character is not.
pub open spec fn token_end(s: Seq<char>, p: int) -> int {
    if !(0 <= p < s.len()) {
        p
    } else if is_id_start_char(s[p]) {
        run_end(s, p, CharClass::IdLetter)
    } else if is_digit(s[p]) {
        run_end(s, p, CharClass::Digit)
    } else {
        p
    }
}

/// The token at `p`: an identifier, a number, or else the single character
/// there; nothing at the end of the text.
pub open spec fn token_text(s: Seq<char>, p: int) -> Seq<char> {
    if !(0 <= p < s.len()) {
        Seq::empty()
    } else if is_id_start_char(s[p]) || is_digit(s[p]) {
        s.subrange(p, token_end(s, p))
    } else {
        seq![s[p]]
    }
}

/// A run ends at or behind its start and within the text, holds characters
/// of its class only, and is not followed by one.
pub proof fn lemma_run_end_bounds(s: Seq<char>, p: int, class: CharClass)
    ensures
        p <= run_end(s, p, class),
        0 <= p <= s.len() ==> run_end(s, p, class) <= s.len(),
        forall|k: int| p <= k < run_end(s, p, class) ==> 0 <= k < s.len() && in_class(s[k], class),
        0 <= run_end(s, p, class) < s.len() ==> !in_class(s[run_end(s, p, class)], class),
    decreases s.len() - p,
{
    if 0 <= p < s.len() && in_class(s[p], class) {
        lemma_run_end_bounds(s, p + 1, class);
    }
}

/// A line starts at or before each of its positions, and no more line feeds
/// precede a position than characters.
pub proof fn lemma_line_start_bounds(s: Seq<char>, p: int)
    requires
        0 <= p,
    ensures
        0 <= line_start(s, p) <= p,
        newlines_before(s, p) <= p,
    decreases p,
{
    if p > 0 {
        lemma_line_start_bounds(s, p - 1);
    }
}

/// The source text as a list of characters, with a cursor in it.
pub struct Lexer {
    input: Vec<char>,
    position: usize,
}

/// Whether the character is white space.
pub fn is_space_char(c: char) -> (r: bool)
    ensures
        r == is_space(c),
{
    ('\u{9}' <= c && c <= '\u{d}') || c == ' ' || c == '\u{85}' || c == '\u{a0}' || c == '\u{1680}'
        || ('\u{2000}' <= c && c <= '\u{200a}') || c == '\u{2028}' || c == '\u{2029}' || c
        == '\u{202f}' || c == '\u{205f}' || c == '\u{3000}'
}

fn class_holds(c: char, class: &CharClass) -> (r: bool)
    ensures
        r == in_class(c, *class),
{
    match class {
        CharClass::Space => is_space_char(c),
        CharClass::Digit => Lexer::is_number(&c),
        CharClass::IdLetter => Lexer::is_id_letter(&c),
    }
}

impl Lexer {
    /// The characters of the source text.
    pub closed spec fn text(&self) -> Seq<char> {
        self.input@
    }

    /// The position of the cursor, counted in characters.
    pub closed spec fn pos(&self) -> usize {
        self.position
    }

    /// The cursor stands behind the last character, or beyond.
    pub open spec fn at_end(&self) -> bool {
        self.pos() >= self.text().len()
    }

    /// Number of characters from the cursor to the end of the text.
    pub open spec fn remaining(&self) -> nat {
        if self.pos() <= self.text().len() {
            (self.text().len() - self.pos()) as nat
        } else {
            0
        }
    }

    /// The cursor after the white space at it was skipped.
    pub open spec fn after_space(&self) -> int {
        run_end(self.text(), self.pos() as int, CharClass::Space)
    }

    /// A lexer at the start of `input`.
    pub fn from_string(input: String) -> (r: Lexer)
        ensures
            r.text() == input@,
            r.pos() == 0,
    {
        Lexer { input: chars_of(input.as_str()), position: 0 }
    }

    /// A lexer at the start of `input`.
    pub fn from_str(input: &str) -> (r: Lexer)
        ensures
            r.text() == input@,
            r.pos() == 0,
    {
        Lexer { input: chars_of(input), position: 0 }
    }

    /// The whole source text.
    pub fn input(&self) -> (r: String)
        ensures
            r@ == self.text(),
    {
        let r = string_of(&self.input, 0, self.input.len());
        assert(self.input@.subrange(0, self.input@.len() as int) =~= self.input@);
        r
    }

    /// The text from the cursor on, or a note where the cursor lies beyond the text.
    pub fn to_string(&self) -> (r: String)
        ensures
            r@ == if self.pos() <= self.text().len() {
                self.text().subrange(self.pos() as int, self.text().len() as int)
            } else {
                "<invalid position>"@
            },
    {
        if self.position <= self.input.len() {
            string_of(&self.input, self.position, self.input.len())
        } else {
            String::from_str("<invalid position>")
        }
    }

    /// The position of the cursor, counted in characters.
    pub fn position(&self) -> (r: usize)
        ensures
            r == self.pos(),
    {
        self.position
    }

    /// Moves the cursor; any position may be given, also one beyond the text.
    pub fn set_position(&mut self, position: usize)
        ensures
            final(self).text() == old(self).text(),
            final(self).pos() == position,
    {
        self.position = position;
    }

    /// Line and column of the cursor.
    pub fn dbg_position(&self) -> (r: Option<(usize, usize)>)
        ensures
            match line_col(self.text(), self.pos() as int) {
                Some((l, c)) => r == Some((l as usize, c as usize)) && 1 <= l <= usize::MAX && 1
                    <= c <= usize::MAX,
                None => r is None,
            },
    {
        self.line_col_for(self.position())
    }

    /// The position of the cursor as `line:column`.
    pub fn dbg_position_string(&self) -> (r: String)
        ensures
            r@ == match line_col(self.text(), self.pos() as int) {
                Some((l, c)) => decimal(l as nat) + seq![':'] + decimal(c as nat),
                None => "out of bounds"@,
            },
    {
        if let Some((line, column)) = self.dbg_position() {
            let mut out = String::new();
            push_decimal(&mut out, line as u64);
            out.push(':');
            push_decimal(&mut out, column as u64);
            assert(out@ =~= decimal(line as nat) + seq![':'] + decimal(column as nat));
            out
        } else {
            String::from_str("out of bounds")
        }
    }

    /// Line and column of a position, both counted from 1.
    pub fn line_col_for(&self, position: usize) -> (r: Option<(usize, usize)>)
        ensures
            match line_col(self.text(), position as int) {
                Some((l, c)) => r == Some((l as usize, c as usize)) && 1 <= l <= usize::MAX && 1
                    <= c <= usize::MAX,
                None => r is None,
            },
    {
        let len = self.input.len();
        if position > len {
            return None;
        }
        proof {
            lemma_line_start_bounds(self.input@, position as int);
        }
        if position == len && (position == 0 || self.input[position - 1] == '\n') {
            return None;
        }
        let mut line: usize = 0;
        let mut start: usize = 0;
        let mut i: usize = 0;
        while i < position
            invariant
                i <= position <= len,
                len == self.input@.len(),
                position == len ==> position > 0 && self.input@[position - 1] != '\n',
                line == newlines_before(self.input@, i as int),
                start == line_start(self.input@, i as int),
                start <= i,
                line <= i,
                i == position && position == len ==> line < i,
            decreases position - i,
        {
            if self.input[i] == '\n' {
                line += 1;
                start = i + 1;
            }
            i += 1;
        }
        if position - start == usize::MAX {
            return None;
        }
        Some((line + 1, position - start + 1))
    }

    /// Whether the cursor stands behind the last character.
    pub fn is_eof(&self) -> (r: bool)
        ensures
            r == self.at_end(),
    {
        self.position >= self.input.len()
    }

    /// The character at the cursor.
    pub fn peek(&self) -> (r: Option<char>)
        ensures
            r == if self.at_end() {
                None
            } else {
                Some(self.text()[self.pos() as int])
            },
    {
        if self.position < self.input.len() {
            Some(self.input[self.position])
        } else {
            None
        }
    }

    /// The character at the cursor; the cursor moves behind it.
    pub fn next_char(&mut self) -> (r: Option<char>)
        ensures
            final(self).text() == old(self).text(),
            r == if old(self).at_end() {
                None
            } else {
                Some(old(self).text()[old(self).pos() as int])
            },
            final(self).pos() == if old(self).at_end() {
                old(self).pos() as int
            } else {
                old(self).pos() + 1
            },
    {
        let c = self.peek();
        if self.position < self.input.len() {
            self.position += 1;
        }
        c
    }

    /// Whether white space stands at the cursor.
    pub fn is_whitespace(&self) -> (r: bool)
        ensures
            r == (!self.at_end() && is_space(self.text()[self.pos() as int])),
    {
        match self.peek() {
            Some(c) => is_space_char(c),
            None => false,
        }
    }

    /// Moves the cursor behind the run of characters of `class` that starts at it.
    fn skip_run(&mut self, class: CharClass)
        ensures
            final(self).text() == old(self).text(),
            final(self).pos() == run_end(old(self).text(), old(self).pos() as int, class),
            old(self).pos() <= final(self).pos(),
            old(self).pos() <= old(self).text().len()
                ==> final(self).pos() <= old(self).text().len(),
    {
        proof {
            lemma_run_end_bounds(self.input@, self.position as int, class);
        }
        let len = self.input.len();
        let mut p = self.position;
        while p < len && class_holds(self.input[p], &class)
            invariant
                len == self.input@.len(),
                self.position <= p,
                run_end(self.input@, p as int, class) == run_end(
                    self.input@,
                    self.position as int,
                    class,
                ),
            decreases len - p,
        {
            p += 1;
        }
        self.position = p;
    }

    /// Moves the cursor to the next character that is no white space.
    pub fn skip_whitespace(&mut self)
        ensures
            final(self).text() == old(self).text(),
            final(self).pos() >= old(self).pos(),
            final(self).pos() == old(self).after_space(),
    {
        proof {
            lemma_run_end_bounds(self.input@, self.position as int, CharClass::Space);
        }
        self.skip_run(CharClass::Space);
    }

    /// Whether `syntax` comes next, white space aside.  The cursor is left where
    /// it was when it does, and behind the white space when it does not.
    pub fn peek_matsch(&mut self, syntax: &str) -> (r: bool)
        ensures
            final(self).text() == old(self).text(),
            final(self).pos() >= old(self).pos(),
            r == starts_at(old(self).text(), old(self).after_space(), syntax@),
            final(self).pos() == if r {
                old(self).pos() as int
            } else {
                old(self).after_space()
            },
    {
        proof {
            lemma_run_end_bounds(self.input@, self.position as int, CharClass::Space);
        }
        let prev_position = self.position;
        if self.matsch(syntax) {
            self.position = prev_position;
            true
        } else {
            false
        }
    }

    /// Whether `syntax` comes next as a whole word, white space aside.  The
    /// cursor is left where it was when it does, and behind the white space
    /// when it does not.
    pub fn peek_matschx(&mut self, syntax: &str) -> (r: bool)
        ensures
            final(self).text() == old(self).text(),
            final(self).pos() >= old(self).pos(),
            r == word_at(old(self).text(), old(self).after_space(), syntax@),
            final(self).pos() == if r {
                old(self).pos() as int
            } else {
                old(self).after_space()
            },
    {
        proof {
            lemma_run_end_bounds(self.input@, self.position as int, CharClass::Space);
        }
        let prev_position = self.position;
        if self.matschx(syntax) {
            self.position = prev_position;
            true
        } else {
            false
        }
    }

    /// Skips white space; if `syntax` stands there, moves the cursor behind it
    /// and returns true.
    pub fn matsch(&mut self, syntax: &str) -> (r: bool)
        ensures
            final(self).text() == old(self).text(),
            final(self).pos() >= old(self).pos(),
            r == starts_at(old(self).text(), old(self).after_space(), syntax@),
            final(self).pos() == if r {
                old(self).after_space() + syntax@.len()
            } else {
                old(self).after_space()
            },
    {
        proof {
            lemma_run_end_bounds(self.input@, self.position as int, CharClass::Space);
        }
        self.skip_whitespace();
        let pat = chars_of(syntax);
        let start = self.position;
        if start > self.input.len() || pat.len() > self.input.len() - start {
            return false;
        }
        let mut i: usize = 0;
        while i < pat.len()
            invariant
                self.input@ == old(self).input@,
                self.position == start,
                start == old(self).after_space(),
                start >= old(self).position,
                pat@ == syntax@,
                start + pat@.len() <= self.input@.len() <= usize::MAX,
                i <= pat@.len(),
                self.input@.subrange(start as int, start + i) == pat@.subrange(0, i as int),
            decreases pat.len() - i,
        {
            if self.input[start + i] != pat[i] {
                assert(self.input@.subrange(start as int, start
                    + pat@.len())[i as int] != pat@[i as int]);
                return false;
            }
            i += 1;
            assert(self.input@.subrange(start as int, start
                + i) =~= pat@.subrange(0, i as int)) by {
                assert(self.input@.subrange(start as int, start + i - 1) == pat@.subrange(
                    0,
                    i - 1,
                ));
                assert forall|k: int| 0 <= k < i implies self.input@.subrange(
                    start as int,
                    start + i,
                )[k] == pat@.subrange(0, i as int)[k] by {
                    if k < i - 1 {
                        assert(self.input@.subrange(start as int, start + i - 1)[k]
                            == pat@.subrange(
                            0,
                            i - 1,
                        )[k]);
                    }
                }
            }
        }
        assert(pat@.subrange(0, pat@.len() as int) =~= pat@);
        self.position = start + pat.len();
        true
    }

    /// As `matsch`, but `syntax` must stand there as a whole word: no
    /// identifier character may follow it.
    pub fn matschx(&mut self, syntax: &str) -> (r: bool)
        ensures
            final(self).text() == old(self).text(),
            final(self).pos() >= old(self).pos(),
            r == word_at(old(self).text(), old(self).after_space(), syntax@),
            final(self).pos() == if r {
                old(self).after_space() + syntax@.len()
            } else {
                old(self).after_space()
            },
    {
        proof {
            lemma_run_end_bounds(self.input@, self.position as int, CharClass::Space);
        }
        let ghost before = self.after_space();
        if !self.matsch(syntax) {
            return false;
        }
        let follows = match self.peek() {
            Some(ch) => Lexer::is_id_letter(&ch),
            None => false,
        };
        if follows {
            let n = syntax.unicode_len();
            self.position -= n;
            return false;
        }
        true
    }

    /// The token at the cursor, for error messages: an identifier or a number,
    /// which the cursor then passes, or else the single character at the
    /// cursor, which it does not pass.  Nothing at the end of the text.
    pub fn dbg_get_any_next_token(&mut self) -> (r: String)
        ensures
            final(self).text() == old(self).text(),
            final(self).pos() >= old(self).pos(),
            final(self).pos() == token_end(old(self).text(), old(self).pos() as int),
            r@ == token_text(old(self).text(), old(self).pos() as int),
    {
        proof {
            lemma_run_end_bounds(self.input@, self.position as int, CharClass::IdLetter);
            lemma_run_end_bounds(self.input@, self.position as int, CharClass::Digit);
        }
        let ch = match self.peek() {
            Some(c) => c,
            None => {
                return String::new();
            },
        };
        proof {
            lemma_run_end_bounds(self.input@, self.position as int, CharClass::IdLetter);
            lemma_run_end_bounds(self.input@, self.position as int, CharClass::Digit);
        }
        if Lexer::is_id_start(&ch) {
            return self.parse_id();
        }
        if Lexer::is_number(&ch) {
            return self.parse_number_string();
        }
        let mut out = String::new();
        out.push(ch);
        assert(out@ =~= seq![ch]);
        out
    }

    /// Reads the run of digits at the cursor as a number.  The cursor passes
    /// the digits whatever the outcome.  A leading zero before further digits
    /// is refused; so is a run that is empty or denotes a number above the
    /// largest signed 64-bit integer.
    pub fn parse_number(&mut self) -> (r: Result<i64, SoNError>)
        ensures
            final(self).text() == old(self).text(),
            final(self).pos() >= old(self).pos(),
            final(self).pos() == run_end(old(self).text(), old(self).pos() as int, CharClass::Digit),
            ({
                let d = slice(old(self).text(), old(self).pos() as int, final(self).pos() as int);
                match r {
                    Ok(v) => d.len() > 0 && !(d.len() > 1 && d[0] == '0') && v == digits_value(d),
                    Err(SoNError::NumberCannotStartWith0) => d.len() > 1 && d[0] == '0',
                    Err(SoNError::SyntaxExpected { expected, but_got }) => !(d.len() > 1 && d[0]
                        == '0') && (d.len() == 0 || digits_value(d) > i64::MAX) && expected@
                        == "Integer literal"@ && but_got@ == d,
                    Err(_) => false,
                }
            }),
    {
        let start = self.position;
        proof {
            lemma_run_end_bounds(self.input@, start as int, CharClass::Digit);
        }
        self.skip_run(CharClass::Digit);
        let end = self.position;
        if start > self.input.len() {
            return Err(
                SoNError::SyntaxExpected {
                    expected: String::from_str("Integer literal"),
                    but_got: String::new(),
                },
            );
        }
        let ghost d = self.input@.subrange(start as int, end as int);
        if end - start > 1 && self.input[start] == '0' {
            return Err(SoNError::NumberCannotStartWith0);
        }
        let mut value: i64 = 0;
        let mut fits = end > start;
        let mut i: usize = start;
        assert(self.input@.subrange(start as int, start as int) =~= Seq::<char>::empty());
        while i < end
            invariant
                start <= i <= end <= self.input@.len(),
                forall|k: int| start <= k < end ==> is_digit(self.input@[k]),
                fits ==> value == digits_value(self.input@.subrange(start as int, i as int)),
                !fits && end > start ==> digits_value(self.input@.subrange(start as int, i as int))
                    > i64::MAX,
                value >= 0,
                fits ==> end > start,
            decreases end - i,
        {
            let digit: i64 = (self.input[i] as u32 - '0' as u32) as i64;
            proof {
                let prefix = self.input@.subrange(start as int, i as int);
                let next = self.input@.subrange(start as int, i + 1);
                assert(next.drop_last() =~= prefix);
                assert(next.last() == self.input@[i as int]);
                assert(digits_value(next) == digits_value(prefix) * 10 + digit);
            }
            if fits {
                match value.checked_mul(10) {
                    Some(shifted) => match shifted.checked_add(digit) {
                        Some(sum) => {
                            value = sum;
                        },
                        None => {
                            fits = false;
                        },
                    },
                    None => {
                        fits = false;
                    },
                }
            }
            i += 1;
        }
        if fits {
            Ok(value)
        } else {
            Err(
                SoNError::SyntaxExpected {
                    expected: String::from_str("Integer literal"),
                    but_got: string_of(&self.input, start, end),
                },
            )
        }
    }

    /// The run of digits at the cursor, which the cursor passes.
    pub fn parse_number_string(&mut self) -> (r: String)
        ensures
            final(self).text() == old(self).text(),
            final(self).pos() >= old(self).pos(),
            final(self).pos() == run_end(old(self).text(), old(self).pos() as int, CharClass::Digit),
            r@ == slice(old(self).text(), old(self).pos() as int, final(self).pos() as int),
    {
        proof {
            lemma_run_end_bounds(self.input@, self.position as int, CharClass::Digit);
        }
        let start = self.position;
        self.skip_run(CharClass::Digit);
        if start <= self.input.len() {
            string_of(&self.input, start, self.position)
        } else {
            String::new()
        }
    }

    /// The run of identifier characters at the cursor, which the cursor passes.
    pub fn parse_id(&mut self) -> (r: String)
        ensures
            final(self).text() == old(self).text(),
            final(self).pos() >= old(self).pos(),
            final(self).pos() == run_end(
                old(self).text(),
                old(self).pos() as int,
                CharClass::IdLetter,
            ),
            r@ == slice(old(self).text(), old(self).pos() as int, final(self).pos() as int),
    {
        proof {
            lemma_run_end_bounds(self.input@, self.position as int, CharClass::IdLetter);
        }
        let start = self.position;
        self.skip_run(CharClass::IdLetter);
        if start <= self.input.len() {
            string_of(&self.input, start, self.position)
        } else {
            String::new()
        }
    }

    /// Any character of an identifier, as in `_x123`.
    pub fn is_id_letter(ch: &char) -> (r: bool)
        ensures
            r == is_id_letter_char(*ch),
    {
        Lexer::is_id_start(ch) || Lexer::is_number(ch)
    }

    /// A decimal digit.
    pub fn is_number(ch: &char) -> (r: bool)
        ensures
            r == is_digit(*ch),
    {
        '0' <= *ch && *ch <= '9'
    }

    /// Whether a digit stands at the cursor.
    pub fn peek_is_number(&self) -> (r: bool)
        ensures
            r == (!self.at_end() && is_digit(self.text()[self.pos() as int])),
    {
        match self.peek() {
            Some(c) => Lexer::is_number(&c),
            None => false,
        }
    }

    /// The first character of an identifier.
    pub fn is_id_start(ch: &char) -> (r: bool)
        ensures
            r == is_id_start_char(*ch),
    {
        ('a' <= *ch && *ch <= 'z') || ('A' <= *ch && *ch <= 'Z') || *ch == '_'
    }
}

} // verus!
