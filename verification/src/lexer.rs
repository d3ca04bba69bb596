use vstd::prelude::*;
use crate::errors::{ErrReason, Error};
use crate::tokens::{eof_span, span, Operator, Span, Token, TokenKind};

verus! {

/// The ASCII decimal digits.
pub open spec fn is_digit(c: char) -> bool {
    '0' <= c && c <= '9'
}

/// The characters that separate tokens and yield none: those with the Unicode
/// property `White_Space`.
pub open spec fn is_space(c: char) -> bool {
    let u = c as u32;
    ||| 0x09 <= u <= 0x0D
    ||| u == 0x20
    ||| u == 0x85
    ||| u == 0xA0
    ||| u == 0x1680
    ||| 0x2000 <= u <= 0x200A
    ||| u == 0x2028
    ||| u == 0x2029
    ||| u == 0x202F
    ||| u == 0x205F
    ||| u == 0x3000
}

/// The number that a sequence of digits denotes in base ten; leading zeros count for nothing.
pub open spec fn decimal(digits: Seq<char>) -> nat
    decreases digits.len(),
{
    if digits.len() == 0 {
        0
    } else {
        decimal(digits.drop_last()) * 10 + (digits.last() as u32 - '0' as u32) as nat
    }
}

/// Where the run of digits that starts at `from` ends: the first offset from `from` on
/// that holds no digit, or the length of the text.
pub open spec fn number_end(src: Seq<char>, from: int) -> int
    decreases src.len() - from,
{
    if 0 <= from < src.len() && is_digit(src[from]) {
        number_end(src, from + 1)
    } else {
        from
    }
}

/// What the literal that starts at `from` lexes to: a number token over the whole run of
/// digits, or an overflow error over the same span when its value is not an `i32`.
pub open spec fn number_token(src: Seq<char>, from: int) -> Result<Token, Error> {
    let end = number_end(src, from);
    let value = decimal(src.subrange(from, end));
    if value <= i32::MAX {
        Ok(Token { kind: TokenKind::Number(value as i32), span: span(from, end) })
    } else {
        Err(Error { span: span(from, end), reason: ErrReason::NumOverflow { max_size: "2_147_483_647" } })
    }
}

/// The single token for the operator character at `at`.
pub open spec fn operator_token(op: Operator, at: int) -> Token {
    Token { kind: TokenKind::Op(op), span: span(at, at + 1) }
}

/// The token that closes every token sequence.
pub open spec fn eof_token() -> Token {
    Token { kind: TokenKind::Eof, span: eof_span() }
}

/// `first` followed by the tokens of `rest`, or the error of `rest`.
pub open spec fn prepend(first: Seq<Token>, rest: Result<Seq<Token>, Error>) -> Result<
    Seq<Token>,
    Error,
> {
    match rest {
        Ok(tokens) => Ok(first + tokens),
        Err(e) => Err(e),
    }
}

/// Tokens put before tokens that are put before a result are all put before it.
pub(crate) proof fn lemma_prepend_twice(a: Seq<Token>, b: Seq<Token>, rest: Result<Seq<Token>, Error>)
    ensures
        prepend(a, prepend(b, rest)) == prepend(a + b, rest),
{
    if let Ok(tokens) = rest {
        assert(a + (b + tokens) =~= (a + b) + tokens);
    }
}

/// A run of digits ends within the text, and after its first digit.
pub proof fn lemma_number_end_bounds(src: Seq<char>, from: int)
    requires
        0 <= from <= src.len(),
    ensures
        from <= number_end(src, from) <= src.len(),
        from < src.len() && is_digit(src[from]) ==> from < number_end(src, from),
    decreases src.len() - from,
{
    if from < src.len() && is_digit(src[from]) {
        lemma_number_end_bounds(src, from + 1);
    }
}

/// The tokens of the text from offset `pos` on, or the first error met from there.
pub open spec fn scan(src: Seq<char>, pos: int) -> Result<Seq<Token>, Error>
    decreases src.len() - pos,
{
    if !(0 <= pos < src.len()) {
        Ok(seq![eof_token()])
    } else if is_digit(src[pos]) {
        match number_token(src, pos) {
            Ok(token) => {
                proof {
                    lemma_number_end_bounds(src, pos);
                }
                prepend(seq![token], scan(src, number_end(src, pos)))
            },
            Err(e) => Err(e),
        }
    } else if is_space(src[pos]) {
        scan(src, pos + 1)
    } else {
        match Operator::of_char(src[pos]) {
            Some(op) => prepend(seq![operator_token(op, pos)], scan(src, pos + 1)),
            None => Err(Error { span: span(pos, pos + 1), reason: ErrReason::UnexpectedChar(src[pos]) }),
        }
    }
}

/// The tokens of a whole text, closed by the end token, or the first error in it.
pub open spec fn lex(src: Seq<char>) -> Result<Seq<Token>, Error> {
    scan(src, 0)
}

/// The tokens stand in reading order within `[from, to)`: each covers at least one
/// character and starts where the one before it ended, or later. The end token, which
/// has no place, comes last and only there.
pub open spec fn laid_out(tokens: Seq<Token>, from: int, to: int) -> bool
    decreases tokens.len(),
{
    if tokens.len() == 0 {
        false
    } else if tokens.len() == 1 {
        tokens[0] == eof_token()
    } else {
        let first = tokens.first();
        &&& !(first.kind is Eof)
        &&& from <= first.span.start < first.span.end <= to
        &&& laid_out(tokens.drop_first(), first.span.end as int, to)
    }
}

/// The span covers at least one character of a text of the length `len`.
pub open spec fn located(span: Span, len: int) -> bool {
    span.start < span.end <= len
}

/// The tokens of a text stand in reading order within the text, and an error of
/// lexing is located in it.
pub proof fn lemma_scan_laid_out(src: Seq<char>, pos: int)
    requires
        0 <= pos,
        src.len() <= usize::MAX,
    ensures
        match scan(src, pos) {
            Ok(tokens) => laid_out(tokens, pos, src.len() as int),
            Err(e) => pos <= e.span.start && located(e.span, src.len() as int),
        },
    decreases src.len() - pos,
{
    if pos < src.len() {
        lemma_number_end_bounds(src, pos);
        let next = if is_digit(src[pos]) {
            number_end(src, pos)
        } else {
            pos + 1
        };
        lemma_scan_laid_out(src, next);
        if let Ok(tokens) = scan(src, pos) {
            if is_digit(src[pos]) || !is_space(src[pos]) {
                assert(tokens.drop_first() =~= scan(src, next)->Ok_0);
            } else {
                lemma_laid_out_from(tokens, next, pos, src.len() as int);
            }
        }
    }
}

/// Tokens that stand in order from some offset on do so from any earlier offset on.
pub(crate) proof fn lemma_laid_out_from(tokens: Seq<Token>, from: int, earlier: int, to: int)
    requires
        laid_out(tokens, from, to),
        earlier <= from,
    ensures
        laid_out(tokens, earlier, to),
{
}

/// A lexing result with the tokens as a sequence.
pub open spec fn tokens_view(r: Result<Vec<Token>, Error>) -> Result<Seq<Token>, Error> {
    match r {
        Ok(tokens) => Ok(tokens@),
        Err(e) => Err(e),
    }
}

/// Whether a character is an ASCII decimal digit.
pub fn is_ascii_digit(c: char) -> (r: bool)
    ensures
        r == is_digit(c),
{
    '0' <= c && c <= '9'
}

/// Whether a character is white space, which separates tokens.
pub fn is_whitespace(c: char) -> (r: bool)
    ensures
        r == is_space(c),
{
    let u: u32 = c as u32;
    (0x09 <= u && u <= 0x0D) || u == 0x20 || u == 0x85 || u == 0xA0 || u == 0x1680 || (0x2000 <= u
        && u <= 0x200A) || u == 0x2028 || u == 0x2029 || u == 0x202F || u == 0x205F || u == 0x3000
}

/// A scanner over a text, one character at a time.
pub struct Lexer {
    source: Vec<char>,
    position: usize,
}

impl Lexer {
    #[verifier::type_invariant]
    spec fn in_bounds(&self) -> bool {
        self.position <= self.source@.len()
    }

    /// The text that is scanned.
    pub closed spec fn text(&self) -> Seq<char> {
        self.source@
    }

    /// How many characters have been consumed.
    pub closed spec fn offset(&self) -> int {
        self.position as int
    }

    /// A scanner at the start of `source`.
    pub fn new(source: &str) -> (lexer: Lexer)
        ensures
            lexer.text() == source@,
            lexer.offset() == 0,
            lexer.text().len() <= usize::MAX,
    {
        let mut chars: Vec<char> = Vec::new();
        for c in it: source.chars()
            invariant
                it.seq() == source@,
                chars@ == source@.take(it.index() as int),
        {
            chars.push(c);
        }
        assert(chars@.len() == chars.len());
        Lexer { source: chars, position: 0 }
    }

    /// Scans the rest of the text into tokens, the end token last, or stops at the
    /// first character that belongs to no token, or at the first literal that is too
    /// large. Spans count characters from the start of the text.
    pub fn tokenize(self) -> (r: Result<Vec<Token>, Error>)
        ensures
            tokens_view(r) == scan(self.text(), self.offset()),
            match r {
                Ok(tokens) => laid_out(tokens@, self.offset(), self.text().len() as int),
                Err(e) => located(e.span, self.text().len() as int),
            },
    {
        proof {
            assert(self.source@.len() == self.source.len());
            lemma_scan_laid_out(self.source@, self.position as int);
        }
        let mut lexer = self;
        let mut result_tokens: Vec<Token> = Vec::new();
        loop
            invariant
                lexer.source@ == self.source@,
                scan(self.source@, self.position as int) == prepend(
                    result_tokens@,
                    scan(self.source@, lexer.position as int),
                ),
            ensures
                lexer.position >= self.source@.len(),
            decreases lexer.source@.len() - lexer.position,
        {
            proof {
                use_type_invariant(&lexer);
                lemma_number_end_bounds(self.source@, lexer.position as int);
            }
            let ghost before = result_tokens@;
            match lexer.next() {
                Some(c) => {
                    if is_ascii_digit(c) {
                        match lexer.number(c) {
                            Ok(token) => {
                                result_tokens.push(token);
                                proof {
                                    lemma_prepend_twice(
                                        before,
                                        seq![token],
                                        scan(self.source@, lexer.position as int),
                                    );
                                    assert(before + seq![token] =~= result_tokens@);
                                }
                            },
                            Err(e) => {
                                return Err(e);
                            },
                        }
                    } else if is_whitespace(c) {
                    } else if c == '+' || c == '-' || c == '*' || c == '/' || c == '^' || c == '('
                        || c == ')' {
                        let token = Token {
                            span: lexer.position - 1..lexer.position,
                            kind: TokenKind::Op(Operator::from(c)),
                        };
                        result_tokens.push(token);
                        proof {
                            lemma_prepend_twice(
                                before,
                                seq![token],
                                scan(self.source@, lexer.position as int),
                            );
                            assert(before + seq![token] =~= result_tokens@);
                        }
                    } else {
                        return Err(
                            Error {
                                span: lexer.position - 1..lexer.position,
                                reason: ErrReason::UnexpectedChar(c),
                            },
                        );
                    }
                },
                None => {
                    break ;
                },
            }
        }
        let ghost before = result_tokens@;
        result_tokens.push(Token { span: usize::MAX..usize::MAX, kind: TokenKind::Eof });
        assert(result_tokens@ =~= before + seq![eof_token()]);
        Ok(result_tokens)
    }

    /// Scans the rest of the literal whose first digit has just been consumed.
    fn number(&mut self, first_char: char) -> (r: Result<Token, Error>)
        requires
            is_digit(first_char),
            1 <= old(self).position <= old(self).source@.len(),
            old(self).source@[old(self).position - 1] == first_char,
        ensures
            final(self).source@ == old(self).source@,
            final(self).position == number_end(old(self).source@, old(self).position - 1),
            r == number_token(old(self).source@, old(self).position - 1),
    {
        proof {
            use_type_invariant(&*self);
        }
        let start: usize = self.position - 1;
        let mut value: i32 = (first_char as u32 - '0' as u32) as i32;
        let mut fits: bool = true;
        assert(decimal(self.source@.subrange(start as int, self.position as int).drop_last())
            == 0);
        loop
            invariant
                self.source@ == old(self).source@,
                start + 1 == old(self).position,
                start < self.position <= self.source@.len(),
                number_end(self.source@, start as int) == number_end(
                    self.source@,
                    self.position as int,
                ),
                fits ==> value == decimal(self.source@.subrange(start as int, self.position as int)),
                !fits ==> decimal(self.source@.subrange(start as int, self.position as int))
                    > i32::MAX,
            ensures
                self.position < self.source@.len() ==> !is_digit(self.source@[self.position as int]),
            decreases self.source@.len() - self.position,
        {
            match self.peek() {
                Some(c) => {
                    if is_ascii_digit(c) {
                        let ghost so_far = self.source@.subrange(start as int, self.position as int);
                        self.next();
                        assert(self.source@.subrange(start as int, self.position as int).drop_last()
                            =~= so_far);
                        let digit: i32 = (c as u32 - '0' as u32) as i32;
                        if fits {
                            match value.checked_mul(10) {
                                Some(tens) => match tens.checked_add(digit) {
                                    Some(sum) => {
                                        value = sum;
                                    },
                                    None => {
                                        fits = false;
                                    },
                                },
                                None => {
                                    fits = false;
                                },
                            }
                        }
                    } else {
                        break ;
                    }
                },
                None => {
                    break ;
                },
            }
        }
        let span = start..self.position;
        if fits {
            Ok(Token { span, kind: TokenKind::Number(value) })
        } else {
            Err(Error { span, reason: ErrReason::NumOverflow { max_size: "2_147_483_647" } })
        }
    }

    /// Consumes the next character, if there is one.
    fn next(&mut self) -> (c: Option<char>)
        ensures
            final(self).source@ == old(self).source@,
            old(self).position < old(self).source@.len() ==> c == Some(
                old(self).source@[old(self).position as int],
            ) && final(self).position == old(self).position + 1,
            old(self).position >= old(self).source@.len() ==> c.is_none() && final(self).position
                == old(self).position,
    {
        proof {
            use_type_invariant(&*self);
        }
        if self.position < self.source.len() {
            let c = self.source[self.position];
            self.position += 1;
            Some(c)
        } else {
            None
        }
    }

    /// The next character, which is not consumed.
    fn peek(&self) -> (c: Option<char>)
        ensures
            self.position < self.source@.len() ==> c == Some(self.source@[self.position as int]),
            self.position >= self.source@.len() ==> c.is_none(),
    {
        if self.position < self.source.len() {
            Some(self.source[self.position])
        } else {
            None
        }
    }
}

} // verus!
