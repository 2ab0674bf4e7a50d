//! Tokens and the tokenizer that cuts a text into them.
//!
//! What the tokenizer produces is defined on plain sequences of characters:
//! [`next_token`] and [`token_end`] say which token is found from a given
//! position and where the search stops, and [`token_stream`] lists every
//! token from a position on. [`Lexer`] computes these one token at a time.

use vstd::prelude::*;

verus! {

/// A lexical unit of an arithmetic expression.
#[derive(Debug, PartialEq, Eq, Clone, Copy, Structural)]
pub enum Token {
    /// A run of decimal digits, as the number it denotes.
    Number(i64),
    /// `+`
    Plus,
    /// `-`
    Minus,
    /// `*`
    Asterisk,
    /// `/`
    Slash,
    /// `(`
    Lparen,
    /// `)`
    Rparen,
}

/// Whether `c` is one of the ten decimal digits.
pub open spec fn is_digit(c: char) -> bool {
    '0' <= c <= '9'
}

/// The number that the digit `c` denotes; zero for any other character.
pub open spec fn digit_value(c: char) -> nat {
    if is_digit(c) {
        (c as int - '0' as int) as nat
    } else {
        0
    }
}

/// The token that the single character `c` stands for, if it stands for one.
pub open spec fn symbol(c: char) -> Option<Token> {
    if c == '+' {
        Some(Token::Plus)
    } else if c == '-' {
        Some(Token::Minus)
    } else if c == '*' {
        Some(Token::Asterisk)
    } else if c == '/' {
        Some(Token::Slash)
    } else if c == '(' {
        Some(Token::Lparen)
    } else if c == ')' {
        Some(Token::Rparen)
    } else {
        None
    }
}

/// Whether the tokenizer passes over `c` without producing anything: every
/// character that is neither a digit nor a symbol, white space among them.
pub open spec fn is_skipped(c: char) -> bool {
    !is_digit(c) && symbol(c) is None
}

/// White space as the text of an expression usually holds it.
pub open spec fn is_blank(c: char) -> bool {
    c == ' ' || c == '\t' || c == '\n' || c == '\r'
}

/// The number that a sequence of digits denotes in base ten, the first digit
/// being the most significant. The empty sequence denotes zero.
pub open spec fn decimal_value(digits: Seq<char>) -> nat
    decreases digits.len(),
{
    if digits.len() == 0 {
        0
    } else {
        10 * decimal_value(digits.drop_last()) + digit_value(digits.last())
    }
}

/// Whether every character of `s` is a digit.
pub open spec fn all_digits(s: Seq<char>) -> bool {
    forall|i: int| 0 <= i < s.len() ==> is_digit(#[trigger] s[i])
}

/// The first position at or after `i` that holds a character the tokenizer
/// does not pass over; `s.len()` when only skipped characters are left.
pub open spec fn token_start(s: Seq<char>, i: int) -> int
    decreases s.len() - i,
{
    if 0 <= i < s.len() && is_skipped(s[i]) {
        token_start(s, i + 1)
    } else {
        i
    }
}

/// The first position at or after `i` that holds no digit; `s.len()` when
/// only digits are left.
pub open spec fn digits_end(s: Seq<char>, i: int) -> int
    decreases s.len() - i,
{
    if 0 <= i < s.len() && is_digit(s[i]) {
        digits_end(s, i + 1)
    } else {
        i
    }
}

/// The number written in `s` from position `i` to the end of the digits that
/// follow it.
pub open spec fn literal_at(s: Seq<char>, i: int) -> nat {
    decimal_value(s.subrange(i, digits_end(s, i)))
}

/// Whether a run of digits begins at position `i`: a digit stands there and
/// none stands just before it.
pub open spec fn starts_literal(s: Seq<char>, i: int) -> bool {
    &&& 0 <= i < s.len()
    &&& is_digit(s[i])
    &&& (i == 0 || !is_digit(s[i - 1]))
}

/// Whether every number written in `s` can be held in an `i64`.
pub open spec fn literals_fit(s: Seq<char>) -> bool {
    forall|i: int| starts_literal(s, i) ==> #[trigger] literal_at(s, i) <= i64::MAX
}

/// The first token of `s` at or after position `i`; `None` when there is none.
pub open spec fn next_token(s: Seq<char>, i: int) -> Option<Token> {
    let k = token_start(s, i);
    if !(0 <= k < s.len()) {
        None
    } else if is_digit(s[k]) {
        Some(Token::Number(literal_at(s, k) as i64))
    } else {
        symbol(s[k])
    }
}

/// The position just behind the first token of `s` at or after position `i`.
/// When there is no such token, the end of `s` (or `i`, if that lies behind
/// the end already).
pub open spec fn token_end(s: Seq<char>, i: int) -> int {
    let k = token_start(s, i);
    if !(0 <= k < s.len()) {
        k
    } else if is_digit(s[k]) {
        digits_end(s, k)
    } else {
        k + 1
    }
}

/// All tokens of `s` from position `i` on, in the order in which they are
/// written.
pub open spec fn token_stream(s: Seq<char>, i: int) -> Seq<Token>
    decreases s.len() - i,
{
    match next_token(s, i) {
        None => Seq::empty(),
        Some(t) => {
            proof {
                lemma_token_bounds(s, i);
            }
            seq![t] + token_stream(s, token_end(s, i))
        },
    }
}

/// What is left of `ts` once its first `n` tokens are gone; nothing, if it
/// has no more than `n`.
pub open spec fn rest(ts: Seq<Token>, n: nat) -> Seq<Token> {
    if n <= ts.len() {
        ts.skip(n as int)
    } else {
        Seq::empty()
    }
}

/// Taking tokens away in two steps leaves what taking them away in one does.
pub proof fn lemma_rest_of_rest(ts: Seq<Token>, m: nat, n: nat)
    ensures
        rest(rest(ts, m), n) == rest(ts, m + n),
{
    assert(rest(rest(ts, m), n) =~= rest(ts, m + n));
}

/// The stream of tokens from a position is the token found from there,
/// followed by the stream from behind that token.
pub proof fn lemma_token_stream_step(s: Seq<char>, i: int)
    requires
        0 <= i <= s.len(),
    ensures
        next_token(s, i) == if token_stream(s, i).len() > 0 {
            Some(token_stream(s, i)[0])
        } else {
            None
        },
        token_stream(s, token_end(s, i)) == rest(token_stream(s, i), 1),
{
    lemma_token_bounds(s, i);
    match next_token(s, i) {
        None => {
            assert(next_token(s, s.len() as int) is None);
            assert(token_stream(s, s.len() as int) =~= Seq::<Token>::empty());
        },
        Some(t) => {
            let tail = token_stream(s, token_end(s, i));
            assert((seq![t] + tail).skip(1) =~= tail);
        },
    }
}

/// `token_start` never moves backwards nor past the end, and passes over
/// skipped characters only.
pub proof fn lemma_token_start(s: Seq<char>, i: int)
    requires
        0 <= i <= s.len(),
    ensures
        i <= token_start(s, i) <= s.len(),
        token_start(s, i) < s.len() ==> !is_skipped(s[token_start(s, i)]),
        forall|j: int| i <= j < token_start(s, i) ==> is_skipped(#[trigger] s[j]),
    decreases s.len() - i,
{
    if i < s.len() && is_skipped(s[i]) {
        lemma_token_start(s, i + 1);
    }
}

/// `digits_end` never moves backwards nor past the end, and passes over
/// digits only.
pub proof fn lemma_digits_end(s: Seq<char>, i: int)
    requires
        0 <= i <= s.len(),
    ensures
        i <= digits_end(s, i) <= s.len(),
        digits_end(s, i) < s.len() ==> !is_digit(s[digits_end(s, i)]),
        forall|j: int| i <= j < digits_end(s, i) ==> is_digit(#[trigger] s[j]),
    decreases s.len() - i,
{
    if i < s.len() && is_digit(s[i]) {
        lemma_digits_end(s, i + 1);
    }
}

/// A token, where one is found, ends behind the position the search began at
/// and within the text.
pub proof fn lemma_token_bounds(s: Seq<char>, i: int)
    ensures
        next_token(s, i) is Some ==> i < token_end(s, i) <= s.len(),
        0 <= i <= s.len() ==> i <= token_end(s, i) <= s.len(),
        0 <= i <= s.len() && next_token(s, i) is None ==> token_end(s, i) == s.len(),
{
    if 0 <= i <= s.len() {
        lemma_token_start(s, i);
        let k = token_start(s, i);
        if k < s.len() {
            lemma_digits_end(s, k);
        }
    }
}

/// Every position within a run of digits sees the same end of the run.
proof fn lemma_digits_end_within(s: Seq<char>, i: int, j: int)
    requires
        0 <= i <= j <= digits_end(s, i),
        i <= s.len(),
    ensures
        digits_end(s, j) == digits_end(s, i),
    decreases j - i,
{
    if i < j {
        lemma_digits_end_within(s, i + 1, j);
    }
}

/// Reading one digit more never makes the number smaller.
proof fn lemma_decimal_prefix(s: Seq<char>, i: int, j: int, e: int)
    requires
        0 <= i <= j <= e <= s.len(),
    ensures
        decimal_value(s.subrange(i, j)) <= decimal_value(s.subrange(i, e)),
    decreases e - j,
{
    if j < e {
        lemma_decimal_prefix(s, i, j, e - 1);
        assert(s.subrange(i, e).drop_last() =~= s.subrange(i, e - 1));
    }
}

/// Leaving out the leading digit never makes the number larger.
proof fn lemma_decimal_suffix(s: Seq<char>, i: int, e: int)
    requires
        0 <= i < e <= s.len(),
    ensures
        decimal_value(s.subrange(i + 1, e)) <= decimal_value(s.subrange(i, e)),
    decreases e - i,
{
    if i + 1 < e {
        lemma_decimal_suffix(s, i, e - 1);
        assert(s.subrange(i, e).drop_last() =~= s.subrange(i, e - 1));
        assert(s.subrange(i + 1, e).drop_last() =~= s.subrange(i + 1, e - 1));
    } else {
        assert(s.subrange(i + 1, e).len() == 0);
    }
}

/// Where every number of `s` fits in an `i64`, so does what is read from any
/// digit of `s` to the end of its run.
pub proof fn lemma_literal_fits(s: Seq<char>, i: int)
    requires
        literals_fit(s),
        0 <= i < s.len(),
        is_digit(s[i]),
    ensures
        literal_at(s, i) <= i64::MAX,
    decreases i,
{
    if starts_literal(s, i) {
    } else {
        lemma_literal_fits(s, i - 1);
        lemma_digits_end(s, i - 1);
        lemma_digits_end_within(s, i - 1, i);
        lemma_decimal_suffix(s, i - 1, digits_end(s, i - 1));
    }
}

/// White space is among the characters that the tokenizer passes over.
pub proof fn lemma_blank_is_skipped(c: char)
    requires
        is_blank(c),
    ensures
        is_skipped(c),
{
}

/// A text made of digits alone is one token: the number that the digits
/// denote in base ten. This holds of every non-empty text of digits whose
/// number fits in an `i64`; such a text is one that a [`Lexer`] takes.
pub proof fn lemma_digits_are_one_number(d: Seq<char>)
    requires
        d.len() > 0,
        all_digits(d),
        decimal_value(d) <= i64::MAX,
    ensures
        literals_fit(d),
        token_stream(d, 0) == seq![Token::Number(decimal_value(d) as i64)],
{
    lemma_digits_end(d, 0);
    assert(digits_end(d, 0) == d.len());
    assert(d.subrange(0, d.len() as int) =~= d);
    assert(token_start(d, 0) == 0);
    assert(token_end(d, 0) == d.len());
    assert(next_token(d, d.len() as int) is None);
    assert(token_stream(d, d.len() as int) =~= Seq::<Token>::empty());
    assert(token_stream(d, 0) =~= seq![Token::Number(decimal_value(d) as i64)]);
    assert forall|i: int| starts_literal(d, i) implies #[trigger] literal_at(d, i)
        <= i64::MAX by {
        if i > 0 {
            assert(is_digit(d[i - 1]));
        }
    }
}

/// A text that holds one symbol, and around it only characters that the
/// tokenizer passes over (white space, for one), is one token: the one that
/// the symbol stands for. Such a text is one that a [`Lexer`] takes.
pub proof fn lemma_lone_symbol_is_one_token(s: Seq<char>, k: int)
    requires
        0 <= k < s.len(),
        symbol(s[k]) is Some,
        forall|i: int| 0 <= i < s.len() && i != k ==> is_skipped(#[trigger] s[i]),
    ensures
        literals_fit(s),
        token_stream(s, 0) == seq![symbol(s[k]).unwrap()],
{
    lemma_token_start(s, 0);
    assert(token_start(s, 0) == k);
    assert(!is_digit(s[k]));
    assert(token_end(s, 0) == k + 1);
    lemma_token_start(s, k + 1);
    assert(token_start(s, k + 1) == s.len());
    assert(next_token(s, k + 1) is None);
    assert(token_stream(s, k + 1) =~= Seq::<Token>::empty());
    assert(token_stream(s, 0) =~= seq![symbol(s[k]).unwrap()]);
    assert forall|i: int| starts_literal(s, i) implies #[trigger] literal_at(s, i)
        <= i64::MAX by {
        assert(is_skipped(s[i]) || i == k);
    }
}

/// A tokenizer over a text, with a cursor that marks how far it has read.
#[derive(Debug)]
pub struct Lexer {
    str: Vec<char>,
    idx: usize,
}

impl Lexer {
    /// The text that is being cut into tokens.
    pub closed spec fn source(&self) -> Seq<char> {
        self.str@
    }

    /// The cursor: how many characters of the text lie behind it.
    pub closed spec fn position(&self) -> int {
        self.idx as int
    }

    /// The cursor lies within the text or at its end, and every number
    /// written in the text fits in an `i64`.
    pub open spec fn wf(&self) -> bool {
        &&& 0 <= self.position() <= self.source().len()
        &&& literals_fit(self.source())
    }

    /// The tokens that are still to come.
    pub open spec fn remaining(&self) -> Seq<Token> {
        token_stream(self.source(), self.position())
    }

    /// Reports whether a tokenizer can be made for `str`: whether every
    /// number written in it fits in an `i64`.
    pub fn accepts(str: &Vec<char>) -> (b: bool)
        ensures
            b == literals_fit(str@),
    {
        let ghost s = str@;
        let mut i: usize = 0;
        while i < str.len()
            invariant
                s == str@,
                0 <= i <= s.len(),
                i < s.len() && is_digit(s[i as int]) ==> starts_literal(s, i as int),
                forall|j: int| starts_literal(s, j) && j < i ==> #[trigger] literal_at(s, j)
                    <= i64::MAX,
            decreases str.len() - i,
        {
            if !Self::is_number(str[i]) {
                i += 1;
                continue ;
            }
            let ghost start = i as int;
            let mut num = Self::to_number(str[i]);
            i += 1;
            proof {
                lemma_digits_end(s, start);
                let first = s.subrange(start, start + 1);
                assert(first.drop_last() =~= Seq::<char>::empty());
                assert(decimal_value(first.drop_last()) == 0);
                assert(first.last() == s[start]);
            }
            while i < str.len() && Self::is_number(str[i])
                invariant
                    s == str@,
                    starts_literal(s, start),
                    start < i <= digits_end(s, start) <= s.len(),
                    num == decimal_value(s.subrange(start, i as int)),
                    forall|j: int| starts_literal(s, j) && j < start ==> #[trigger] literal_at(s, j)
                        <= i64::MAX,
                decreases str.len() - i,
            {
                let d = Self::to_number(str[i]);
                proof {
                    lemma_digits_end_within(s, start, i as int);
                    lemma_digits_end(s, i as int);
                    lemma_decimal_prefix(s, start, i + 1, digits_end(s, start));
                    assert(s.subrange(start, i + 1).drop_last() =~= s.subrange(start, i as int));
                }
                let appended = match num.checked_mul(10) {
                    Some(shifted) => shifted.checked_add(d),
                    None => None,
                };
                match appended {
                    Some(n) => {
                        num = n;
                    },
                    None => {
                        assert(literal_at(s, start) > i64::MAX);
                        return false;
                    },
                }
                i += 1;
            }
            proof {
                lemma_digits_end_within(s, start, i as int);
                assert(literal_at(s, start) == num);
                assert forall|j: int| starts_literal(s, j) && j < i implies #[trigger] literal_at(
                    s,
                    j,
                ) <= i64::MAX by {
                    if j > start {
                        lemma_digits_end(s, start);
                        assert(is_digit(s[j - 1]));
                    }
                }
            }
        }
        true
    }

    /// A tokenizer at the start of `str`.
    pub fn new(str: Vec<char>) -> (lexer: Lexer)
        requires
            literals_fit(str@),
        ensures
            lexer.wf(),
            lexer.source() == str@,
            lexer.position() == 0,
    {
        Lexer { str, idx: 0 }
    }

    /// Finds the next token and moves the cursor behind it. Characters that
    /// are neither digits nor symbols are passed over. Once the text is used
    /// up the answer is `None`, and stays so, with the cursor at rest at the
    /// end of the text.
    pub fn tokenize(&mut self) -> (token: Option<Token>)
        requires
            old(self).wf(),
        ensures
            final(self).wf(),
            final(self).source() == old(self).source(),
            token == next_token(old(self).source(), old(self).position()),
            final(self).position() == token_end(old(self).source(), old(self).position()),
            token == if old(self).remaining().len() > 0 {
                Some(old(self).remaining()[0])
            } else {
                None
            },
            final(self).remaining() == rest(old(self).remaining(), 1),
            token matches Some(Token::Number(n)) ==> n >= 0,
            token is None ==> final(self).position() == final(self).source().len(),
            old(self).position() == old(self).source().len() ==> token is None
                && final(self).position() == old(self).position(),
    {
        proof {
            lemma_token_bounds(self.source(), self.position());
            lemma_token_stream_step(self.source(), self.position());
        }
        while self.idx < self.str.len()
            invariant
                self.wf(),
                self.source() == old(self).source(),
                old(self).position() <= self.position(),
                token_start(self.source(), self.position()) == token_start(
                    old(self).source(),
                    old(self).position(),
                ),
            decreases self.str.len() - self.idx,
        {
            let c = self.str[self.idx];
            if Self::is_number(c) {
                let ghost start = self.position();
                proof {
                    lemma_literal_fits(self.source(), start);
                    lemma_digits_end(self.source(), start);
                }
                let mut num = Self::to_number(c);
                self.next();
                proof {
                    let first = self.source().subrange(start, start + 1);
                    assert(first.drop_last() =~= Seq::<char>::empty());
                    assert(decimal_value(first.drop_last()) == 0);
                    assert(first.last() == c);
                }
                while self.idx < self.str.len() && Self::is_number(self.str[self.idx])
                    invariant
                        self.wf(),
                        self.source() == old(self).source(),
                        0 <= start < self.position() <= digits_end(self.source(), start),
                        digits_end(self.source(), start) <= self.source().len(),
                        literal_at(self.source(), start) <= i64::MAX,
                        num == decimal_value(self.source().subrange(start, self.position())),
                    decreases self.str.len() - self.idx,
                {
                    let d = Self::to_number(self.str[self.idx]);
                    proof {
                        let s = self.source();
                        let p = self.position();
                        lemma_digits_end_within(s, start, p);
                        lemma_digits_end(s, p);
                        lemma_decimal_prefix(s, start, p + 1, digits_end(s, start));
                        assert(s.subrange(start, p + 1).drop_last() =~= s.subrange(start, p));
                    }
                    num = num * 10 + d;
                    self.next();
                }
                proof {
                    lemma_digits_end_within(self.source(), start, self.position());
                }
                return Some(Token::Number(num));
            }
            self.next();
            if c == '+' {
                return Some(Token::Plus);
            } else if c == '-' {
                return Some(Token::Minus);
            } else if c == '*' {
                return Some(Token::Asterisk);
            } else if c == '/' {
                return Some(Token::Slash);
            } else if c == '(' {
                return Some(Token::Lparen);
            } else if c == ')' {
                return Some(Token::Rparen);
            }
        }
        None
    }

    /// The character that stands `prefix` places after the cursor, if the
    /// text reaches that far.
    pub fn curr(&self, prefix: usize) -> (c: Option<&char>)
        requires
            self.wf(),
        ensures
            c == if self.position() + prefix < self.source().len() {
                Some(&self.source()[self.position() + prefix])
            } else {
                None
            },
    {
        if prefix < self.str.len() - self.idx {
            Some(&self.str[self.idx + prefix])
        } else {
            None
        }
    }

    /// Moves the cursor over one character, unless it is at the end already.
    pub fn next(&mut self)
        requires
            old(self).wf(),
        ensures
            final(self).wf(),
            final(self).source() == old(self).source(),
            final(self).position() == if old(self).position() < old(self).source().len() {
                old(self).position() + 1
            } else {
                old(self).position()
            },
    {
        if self.idx < self.str.len() {
            self.idx += 1;
        }
    }

    /// Reports whether `c` is a decimal digit.
    pub fn is_number(c: char) -> (b: bool)
        ensures
            b == is_digit(c),
    {
        c >= '0' && c <= '9'
    }

    /// The distance of `c` from `'0'`: for a digit, the number it denotes.
    pub fn to_number(c: char) -> (n: i64)
        ensures
            n == c as int - '0' as int,
            is_digit(c) ==> n == digit_value(c),
    {
        c as i64 - '0' as i64
    }
}

} // verus!
