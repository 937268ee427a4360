//! Lexical tokens and the lazy tokenizer.
//!
//! The tokenizer owns the character buffer and a cursor that always stands on
//! a significant (non-whitespace) character or is exhausted.  Each call of
//! [`TokenParser::next`] reads one token at the cursor and advances the
//! cursor past it to the next significant character.  A number token is a
//! maximal run of contiguous decimal digits — whitespace ends the run — and
//! its value accumulates left to right with wraparound on overflow.  Leading
//! whitespace is skipped at construction, so an untrimmed input lexes the
//! same as a trimmed one.

use vstd::prelude::*;
use vstd::string::*;
use crate::errors::Error;
use crate::text::dec_digits;
use crate::text::int_text;
use crate::text::number_text;
use crate::text::push_char;

verus! {

/// One lexical unit: an operator, a parenthesis, or an integer literal.
#[derive(Clone, Copy, Debug, PartialEq, Eq, Structural)]
pub enum Token {
    Add,
    Sub,
    Mul,
    Div,
    LeftParen,
    RightParen,
    Number(i32),
}

/// The descriptive text of a token, for error messages.
pub open spec fn describe_token(t: Token) -> Seq<char> {
    match t {
        Token::Add => "'+'"@,
        Token::Sub => "'-'"@,
        Token::Mul => "'*'"@,
        Token::Div => "'/'"@,
        Token::LeftParen => "'('"@,
        Token::RightParen => "')'"@,
        Token::Number(v) => "number "@ + int_text(v),
    }
}

impl Token {
    /// The descriptive text of this token, as [`describe_token`] gives it.
    pub fn describe(&self) -> (r: String)
        ensures
            r@ == describe_token(*self),
    {
        match self {
            Token::Add => String::from_str("'+'"),
            Token::Sub => String::from_str("'-'"),
            Token::Mul => String::from_str("'*'"),
            Token::Div => String::from_str("'/'"),
            Token::LeftParen => String::from_str("'('"),
            Token::RightParen => String::from_str("')'"),
            Token::Number(v) => {
                let mut s = String::from_str("number ");
                let d = number_text(*v);
                s.append(d.as_str());
                s
            },
        }
    }
}

/// Whether `c` is whitespace: the Unicode `White_Space` set.
pub open spec fn is_space_char(c: char) -> bool {
    let u = c as u32;
    (9 <= u && u <= 13) || u == 32 || u == 0x85 || u == 0xA0 || u == 0x1680 || (0x2000 <= u
        && u <= 0x200A) || u == 0x2028 || u == 0x2029 || u == 0x202F || u == 0x205F || u == 0x3000
}

/// Whether `c` is a decimal digit.
pub open spec fn is_digit_char(c: char) -> bool {
    c == '0' || c == '1' || c == '2' || c == '3' || c == '4' || c == '5' || c == '6' || c == '7'
        || c == '8' || c == '9'
}

/// The numeric value of a decimal digit character.
pub open spec fn digit_value(c: char) -> i32 {
    if c == '0' {
        0
    } else if c == '1' {
        1
    } else if c == '2' {
        2
    } else if c == '3' {
        3
    } else if c == '4' {
        4
    } else if c == '5' {
        5
    } else if c == '6' {
        6
    } else if c == '7' {
        7
    } else if c == '8' {
        8
    } else {
        9
    }
}

/// The first significant (non-whitespace) position at or after `i`, or the
/// length of `s` if none remains.
pub open spec fn sig_from(s: Seq<char>, i: int) -> int
    decreases s.len() - i,
{
    if i >= s.len() {
        s.len() as int
    } else if is_space_char(s[i]) {
        sig_from(s, i + 1)
    } else {
        i
    }
}

/// The first position at or after `i` that ends a run of contiguous decimal
/// digits: the position of the first non-digit, or the length of `s`.
pub open spec fn digit_run_end(s: Seq<char>, i: int) -> int
    decreases s.len() - i,
{
    if i >= s.len() {
        s.len() as int
    } else if is_digit_char(s[i]) {
        digit_run_end(s, i + 1)
    } else {
        i
    }
}

/// The value of the digit run `s[i..j)`, accumulated left to right with
/// wraparound: each step multiplies by ten and adds the next digit.
pub open spec fn number_value(s: Seq<char>, i: int, j: int) -> i32
    decreases j - i,
{
    if j <= i {
        0
    } else {
        number_value(s, i, j - 1).wrapping_mul(10).wrapping_add(digit_value(s[j - 1]))
    }
}

/// The exact, unbounded value of the digit run `s[i..j)`, accumulated left
/// to right: what [`number_value`] computes when nothing wraps.
pub open spec fn literal_value(s: Seq<char>, i: int, j: int) -> int
    decreases j - i,
{
    if j <= i {
        0
    } else {
        literal_value(s, i, j - 1) * 10 + digit_value(s[j - 1])
    }
}

/// The value of a digit run is non-negative, grows with the run, and is at
/// least one — ten from two digits on — when its leading digit is not zero.
pub proof fn lemma_literal_value_bounds(s: Seq<char>, i: int, j: int)
    requires
        0 <= i <= j,
        forall|m: int| i <= m < j ==> is_digit_char(s[m]),
    ensures
        0 <= literal_value(s, i, j),
        i < j ==> literal_value(s, i, j - 1) * 10 <= literal_value(s, i, j),
        i < j && digit_value(s[i]) >= 1 ==> 1 <= literal_value(s, i, j),
        i + 1 < j && digit_value(s[i]) >= 1 ==> 10 <= literal_value(s, i, j),
    decreases j - i,
{
    if i < j {
        lemma_literal_value_bounds(s, i, j - 1);
        assert(is_digit_char(s[j - 1]));
    }
}

/// Where the exact value of a digit run fits the 32-bit range, the wrapping
/// accumulation computes exactly it.
pub proof fn lemma_number_value_exact(s: Seq<char>, i: int, j: int)
    requires
        0 <= i <= j,
        forall|m: int| i <= m < j ==> is_digit_char(s[m]),
        literal_value(s, i, j) <= i32::MAX,
    ensures
        number_value(s, i, j) == literal_value(s, i, j),
    decreases j - i,
{
    if i < j {
        lemma_literal_value_bounds(s, i, j - 1);
        lemma_literal_value_bounds(s, i, j);
        lemma_number_value_exact(s, i, j - 1);
        assert(is_digit_char(s[j - 1]));
        let prev = literal_value(s, i, j - 1);
        assert(0 <= prev * 10 <= literal_value(s, i, j));
        assert(number_value(s, i, j - 1) == prev);
        assert((prev as i32).wrapping_mul(10) == prev * 10);
        assert((prev * 10) as i32 == prev * 10);
    }
}

/// The decimal rendering of the value of a digit run gives back exactly the
/// run's characters, for a run with no leading zero.
pub proof fn lemma_dec_digits_roundtrip(s: Seq<char>, i: int, j: int)
    requires
        0 <= i < j <= s.len(),
        forall|m: int| i <= m < j ==> is_digit_char(s[m]),
        digit_value(s[i]) >= 1 || j == i + 1,
    ensures
        crate::text::dec_digits(literal_value(s, i, j)) =~= s.subrange(i, j),
    decreases j - i,
{
    lemma_literal_value_bounds(s, i, j);
    let v = literal_value(s, i, j);
    if j == i + 1 {
        assert(is_digit_char(s[i]));
        assert(v == digit_value(s[i]));
        assert(crate::text::digit_char(v) == s[i]);
    } else {
        let prev = literal_value(s, i, j - 1);
        let d: int = digit_value(s[j - 1]) as int;
        assert(is_digit_char(s[j - 1]));
        lemma_literal_value_bounds(s, i, j - 1);
        vstd::arithmetic::div_mod::lemma_fundamental_div_mod_converse(v, 10, prev, d);
        assert(v >= 10);
        lemma_dec_digits_roundtrip(s, i, j - 1);
        assert(crate::text::digit_char(d) == s[j - 1]);
        assert(crate::text::dec_digits(v) == crate::text::dec_digits(prev).push(
            crate::text::digit_char(d),
        ));
    }
}

/// The token read at significant position `i` of `s`, with the cursor
/// position that follows it; or the invalid character met there.
pub open spec fn token_at(s: Seq<char>, i: int) -> Result<(Token, int), Error> {
    let c = s[i];
    if c == '+' {
        Ok((Token::Add, sig_from(s, i + 1)))
    } else if c == '-' {
        Ok((Token::Sub, sig_from(s, i + 1)))
    } else if c == '*' {
        Ok((Token::Mul, sig_from(s, i + 1)))
    } else if c == '/' {
        Ok((Token::Div, sig_from(s, i + 1)))
    } else if c == '(' {
        Ok((Token::LeftParen, sig_from(s, i + 1)))
    } else if c == ')' {
        Ok((Token::RightParen, sig_from(s, i + 1)))
    } else if is_digit_char(c) {
        let j = digit_run_end(s, i);
        Ok((Token::Number(number_value(s, i, j)), sig_from(s, j)))
    } else {
        Err(Error::InvalidCharacter(i as usize, c))
    }
}

/// One pull from the token stream of `s` at cursor `i`: the next token and
/// the cursor after it, `None` at exhaustion, or the tokenizer's failure.
pub open spec fn next_token(s: Seq<char>, i: int) -> Result<(Option<Token>, int), Error> {
    if i >= s.len() {
        Ok((None, i))
    } else {
        match token_at(s, i) {
            Ok((t, j)) => Ok((Some(t), j)),
            Err(e) => Err(e),
        }
    }
}

/// `sig_from` stays within the buffer and never moves backward.
pub proof fn lemma_sig_from_bounds(s: Seq<char>, i: int)
    ensures
        sig_from(s, i) <= s.len(),
        i <= s.len() ==> i <= sig_from(s, i),
    decreases s.len() - i,
{
    if i < s.len() && is_space_char(s[i]) {
        lemma_sig_from_bounds(s, i + 1);
    }
}

/// `sig_from(s, i)` is exactly the first position `j >= i` holding a
/// significant character, given that `s[i..j)` is all whitespace.
pub proof fn lemma_sig_from_at(s: Seq<char>, i: int, j: int)
    requires
        0 <= i <= j <= s.len(),
        forall|m: int| i <= m < j ==> is_space_char(s[m]),
        j == s.len() || !is_space_char(s[j]),
    ensures
        sig_from(s, i) == j,
    decreases j - i,
{
    if i < j {
        lemma_sig_from_at(s, i + 1, j);
    }
}

/// `digit_run_end` stays within the buffer and never moves backward.
pub proof fn lemma_digit_run_bounds(s: Seq<char>, i: int)
    ensures
        digit_run_end(s, i) <= s.len(),
        i <= s.len() ==> i <= digit_run_end(s, i),
    decreases s.len() - i,
{
    if i < s.len() && is_digit_char(s[i]) {
        lemma_digit_run_bounds(s, i + 1);
    }
}

/// `digit_run_end(s, i)` is exactly the first position `j >= i` that does not
/// hold a digit, given that `s[i..j)` is all digits.
pub proof fn lemma_digit_run_at(s: Seq<char>, i: int, j: int)
    requires
        0 <= i <= j <= s.len(),
        forall|m: int| i <= m < j ==> is_digit_char(s[m]),
        j == s.len() || !is_digit_char(s[j]),
    ensures
        digit_run_end(s, i) == j,
    decreases j - i,
{
    if i < j {
        lemma_digit_run_at(s, i + 1, j);
    }
}

/// A token read at a position inside the buffer leaves the cursor strictly
/// further on, and still inside or at the end of the buffer.
pub proof fn lemma_token_at_progress(s: Seq<char>, i: int)
    requires
        0 <= i < s.len(),
    ensures
        match token_at(s, i) {
            Ok((t, j)) => i < j <= s.len(),
            Err(e) => true,
        },
{
    lemma_sig_from_bounds(s, i + 1);
    if is_digit_char(s[i]) {
        lemma_digit_run_bounds(s, i + 1);
        lemma_sig_from_bounds(s, digit_run_end(s, i));
    }
}

/// The lazy tokenizer: the input characters and a cursor that stands on a
/// significant character, or is exhausted (`None`).
pub struct TokenParser {
    pub input: Vec<char>,
    pub idx: Option<usize>,
}

impl TokenParser {
    /// The tokenizer's invariant: a live cursor is inside the buffer and on a
    /// significant character.
    pub open spec fn wf(self) -> bool {
        match self.idx {
            None => true,
            Some(i) => i < self.input.len() && !is_space_char(self.input@[i as int]),
        }
    }

    /// The cursor as a position in the buffer; exhaustion reads as the end.
    pub open spec fn cur(self) -> int {
        match self.idx {
            None => self.input.len() as int,
            Some(i) => i as int,
        }
    }

    /// Builds a tokenizer over `input` with the cursor on the first
    /// significant character, so that leading whitespace is insignificant
    /// like any other.
    pub fn new(input: String) -> (r: TokenParser)
        ensures
            r.wf(),
            r.input@ == input@,
            r.cur() == sig_from(input@, 0),
    {
        let n = input.as_str().unicode_len();
        let mut chars: Vec<char> = Vec::new();
        let mut i: usize = 0;
        while i < n
            invariant
                i <= n,
                n == input@.len(),
                chars@ =~= input@.subrange(0, i as int),
            decreases n - i,
        {
            let c = input.as_str().get_char(i);
            chars.push(c);
            i = i + 1;
            proof {
                assert(chars@ =~= input@.subrange(0, i as int));
            }
        }
        proof {
            assert(chars@ =~= input@);
        }
        let mut j: usize = 0;
        while j < n && is_space(chars[j])
            invariant
                j <= n,
                n == chars@.len(),
                chars@ == input@,
                forall|m: int| 0 <= m < j ==> is_space_char(chars@[m]),
            decreases n - j,
        {
            j = j + 1;
        }
        proof {
            lemma_sig_from_at(input@, 0, j as int);
        }
        if j < n {
            TokenParser { input: chars, idx: Some(j) }
        } else {
            TokenParser { input: chars, idx: None }
        }
    }

    /// The index of the next significant character strictly after the
    /// cursor, or `None` if none remains.
    pub fn next_char_idx(&self) -> (r: Option<usize>)
        requires
            self.wf(),
        ensures
            match self.idx {
                None => r is None,
                Some(i) => ({
                    let j = sig_from(self.input@, i + 1);
                    &&& i + 1 <= j <= self.input@.len()
                    &&& if j < self.input@.len() {
                        r == Some(j as usize) && !is_space_char(self.input@[j])
                    } else {
                        r is None
                    }
                }),
            },
    {
        let i = match self.idx {
            Some(i) => i,
            None => {
                return None;
            },
        };
        let n = self.input.len();
        let mut j: usize = i + 1;
        while j < n && is_space(self.input[j])
            invariant
                i + 1 <= j <= n,
                n == self.input@.len(),
                forall|m: int| i + 1 <= m < j ==> is_space_char(self.input@[m]),
            decreases n - j,
        {
            j = j + 1;
        }
        proof {
            lemma_sig_from_at(self.input@, i + 1, j as int);
        }
        if j < n {
            Some(j)
        } else {
            None
        }
    }

    /// Reads the token at the cursor and advances past it; `Ok(None)` at
    /// exhaustion, the tokenizer's failure on an invalid character.  The
    /// buffer never changes, and on a failure neither does the cursor.
    pub fn next(&mut self) -> (r: Result<Option<Token>, Error>)
        requires
            old(self).wf(),
        ensures
            final(self).wf(),
            final(self).input@ == old(self).input@,
            match next_token(old(self).input@, old(self).cur()) {
                Ok((t, j)) => r == Ok::<Option<Token>, Error>(t) && final(self).cur() == j,
                Err(e) => r == Err::<Option<Token>, Error>(e) && *final(self) == *old(self),
            },
    {
        let ghost s = self.input@;
        let i = match self.idx {
            Some(i) => i,
            None => {
                return Ok(None);
            },
        };
        let c = self.input[i];
        let token: Token;
        if c == '+' {
            token = Token::Add;
        } else if c == '-' {
            token = Token::Sub;
        } else if c == '*' {
            token = Token::Mul;
        } else if c == '/' {
            token = Token::Div;
        } else if c == '(' {
            token = Token::LeftParen;
        } else if c == ')' {
            token = Token::RightParen;
        } else if is_digit(c) {
            let n = self.input.len();
            let mut accum: i32 = digit_value_of(c);
            let mut k: usize = i;
            proof {
                assert(number_value(s, i as int, i as int) == 0);
                assert(number_value(s, i as int, i + 1) == accum);
            }
            while k + 1 < n && is_digit(self.input[k + 1])
                invariant
                    i <= k < n,
                    n == self.input@.len(),
                    s == self.input@,
                    forall|m: int| i <= m <= k ==> is_digit_char(s[m]),
                    accum == number_value(s, i as int, k + 1),
                decreases n - k,
            {
                k = k + 1;
                let d = digit_value_of(self.input[k]);
                accum = accum.wrapping_mul(10).wrapping_add(d);
            }
            proof {
                lemma_digit_run_at(s, i as int, k + 1);
            }
            self.idx = Some(k);
            token = Token::Number(accum);
        } else {
            return Err(Error::InvalidCharacter(i, c));
        }
        self.idx = self.next_char_idx();
        Ok(Some(token))
    }
}

/// Whether `c` is whitespace, as [`is_space_char`] defines it.
pub fn is_space(c: char) -> (r: bool)
    ensures
        r == is_space_char(c),
{
    let u = c as u32;
    (9 <= u && u <= 13) || u == 32 || u == 0x85 || u == 0xA0 || u == 0x1680 || (0x2000 <= u
        && u <= 0x200A) || u == 0x2028 || u == 0x2029 || u == 0x202F || u == 0x205F || u == 0x3000
}

/// Whether `c` is a decimal digit, as [`is_digit_char`] defines it.
pub fn is_digit(c: char) -> (r: bool)
    ensures
        r == is_digit_char(c),
{
    c == '0' || c == '1' || c == '2' || c == '3' || c == '4' || c == '5' || c == '6' || c == '7'
        || c == '8' || c == '9'
}

fn digit_value_of(c: char) -> (r: i32)
    requires
        is_digit_char(c),
    ensures
        r == digit_value(c),
{
    match c {
        '0' => 0,
        '1' => 1,
        '2' => 2,
        '3' => 3,
        '4' => 4,
        '5' => 5,
        '6' => 6,
        '7' => 7,
        '8' => 8,
        _ => 9,
    }
}

} // verus!
