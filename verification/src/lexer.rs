use crate::errors::LexError;
use crate::token::{toks_dv, Token, TokenView};
use vstd::prelude::*;
use vstd::std_specs::iter::IteratorSpec;

verus! {

broadcast use vstd::string::axiom_spec_iter, vstd::string::next_postcondition;

/// Named result of `char::is_whitespace`: whether the character has the
/// Unicode `White_Space` property. It depends on the character alone.
pub uninterp spec fn whitespace_char(c: char) -> bool;

/// Relies on char::is_whitespace: true exactly for Unicode white space,
/// a function of the character alone.
pub assume_specification[ char::is_whitespace ](c: char) -> (r: bool)
    ensures
        r == whitespace_char(c),
;

/// Relies on String::push: appends the given character to the end of the
/// string.
pub assume_specification[ String::push ](s: &mut String, ch: char)
    ensures
        final(s)@ == old(s)@.push(ch),
;

/// Whether the character is an ASCII decimal digit.
pub open spec fn digit_char(c: char) -> bool {
    '0' <= c && c <= '9'
}

/// The token denoted by a single punctuation character, if any.
pub open spec fn punct_token(c: char) -> Option<TokenView> {
    if c == '(' {
        Some(TokenView::OpenParen)
    } else if c == ')' {
        Some(TokenView::CloseParen)
    } else if c == '[' {
        Some(TokenView::OpenSquare)
    } else if c == ']' {
        Some(TokenView::CloseSquare)
    } else if c == ',' {
        Some(TokenView::Comma)
    } else if c == '+' {
        Some(TokenView::Plus)
    } else if c == '-' {
        Some(TokenView::Dash)
    } else if c == ';' {
        Some(TokenView::Semicolon)
    } else if c == '/' {
        Some(TokenView::Slash)
    } else if c == '$' {
        Some(TokenView::Dollar)
    } else if c == '*' {
        Some(TokenView::Star)
    } else {
        None
    }
}

/// The length of the run of digits at the front of `s`.
pub open spec fn digit_run(s: Seq<char>) -> nat
    decreases s.len(),
{
    if s.len() == 0 || !digit_char(s[0]) {
        0
    } else {
        1 + digit_run(s.drop_first())
    }
}

/// The value of a sequence of digit characters read in base ten.
pub open spec fn digits_val(s: Seq<char>) -> int
    decreases s.len(),
{
    if s.len() == 0 {
        0
    } else {
        digits_val(s.drop_last()) * 10 + (s.last() as int - '0' as int)
    }
}

/// The index of the first double quote in `s`, if any.
pub open spec fn quote_idx(s: Seq<char>) -> Option<int>
    decreases s.len(),
{
    if s.len() == 0 {
        None
    } else if s[0] == '"' {
        Some(0int)
    } else {
        match quote_idx(s.drop_first()) {
            None => None,
            Some(i) => Some(i + 1),
        }
    }
}

/// Prepends a token to a lexing outcome.
pub open spec fn lex_cons(t: TokenView, r: Result<Seq<TokenView>, LexError>) -> Result<
    Seq<TokenView>,
    LexError,
> {
    match r {
        Ok(ts) => Ok(seq![t] + ts),
        Err(e) => Err(e),
    }
}

pub proof fn lemma_digit_run(s: Seq<char>)
    ensures
        digit_run(s) <= s.len(),
        forall|i: int| 0 <= i < digit_run(s) ==> digit_char(#[trigger] s[i]),
        digit_run(s) < s.len() ==> !digit_char(s[digit_run(s) as int]),
    decreases s.len(),
{
    if s.len() != 0 && digit_char(s[0]) {
        lemma_digit_run(s.drop_first());
        assert forall|i: int| 0 <= i < digit_run(s) implies digit_char(#[trigger] s[i]) by {
            if i > 0 {
                assert(digit_char(s.drop_first()[i - 1]));
            }
        }
        if digit_run(s) < s.len() {
            assert(!digit_char(s.drop_first()[digit_run(s) - 1]));
        }
    }
}

pub proof fn lemma_quote_idx(s: Seq<char>)
    ensures
        match quote_idx(s) {
            None => forall|i: int| 0 <= i < s.len() ==> s[i] != '"',
            Some(j) => 0 <= j < s.len() && s[j] == '"' && forall|i: int| 0 <= i < j ==> s[i] != '"',
        },
    decreases s.len(),
{
    if s.len() != 0 && s[0] != '"' {
        lemma_quote_idx(s.drop_first());
        match quote_idx(s.drop_first()) {
            None => {
                assert forall|i: int| 0 <= i < s.len() implies s[i] != '"' by {
                    if i > 0 {
                        assert(s.drop_first()[i - 1] != '"');
                    }
                }
            },
            Some(j) => {
                assert(s.drop_first()[j] == '"');
                assert forall|i: int| 0 <= i < j + 1 implies s[i] != '"' by {
                    if i > 0 {
                        assert(s.drop_first()[i - 1] != '"');
                    }
                }
            },
        }
    }
}

pub proof fn lemma_digits_val_nonneg(s: Seq<char>)
    requires
        forall|i: int| 0 <= i < s.len() ==> digit_char(#[trigger] s[i]),
    ensures
        digits_val(s) >= 0,
    decreases s.len(),
{
    if s.len() != 0 {
        lemma_digits_val_nonneg(s.drop_last());
    }
}

/// Extending a digit run never lowers its value.
pub proof fn lemma_digits_val_monotone(s: Seq<char>, i: int, j: int)
    requires
        forall|k: int| 0 <= k < s.len() ==> digit_char(#[trigger] s[k]),
        0 <= i <= j <= s.len(),
    ensures
        digits_val(s.take(i)) <= digits_val(s.take(j)),
    decreases j - i,
{
    if i < j {
        lemma_digits_val_monotone(s, i + 1, j);
        let t = s.take(i + 1);
        assert(t.drop_last() =~= s.take(i));
        lemma_digits_val_nonneg(s.take(i));
    }
}

/// The lexing of a character sequence: the token sequence it denotes, or the
/// first failure. Numbers are maximal digit runs; string literals run to the
/// next double quote; white space separates tokens and is dropped.
pub open spec fn lex_spec(s: Seq<char>) -> Result<Seq<TokenView>, LexError>
    decreases s.len(),
    when s.len() >= 0
    via lex_spec_decreases
{
    if s.len() == 0 {
        Ok(Seq::empty())
    } else if whitespace_char(s[0]) {
        lex_spec(s.drop_first())
    } else if digit_char(s[0]) {
        let k = digit_run(s) as int;
        if digits_val(s.take(k)) > i64::MAX {
            Err(LexError::NumberTooLarge)
        } else {
            lex_cons(TokenView::Number(digits_val(s.take(k)) as i64), lex_spec(s.skip(k)))
        }
    } else if s[0] == '"' {
        match quote_idx(s.drop_first()) {
            None => Err(LexError::UnterminatedString),
            Some(j) => lex_cons(TokenView::Str(s.subrange(1, 1 + j)), lex_spec(s.skip(j + 2))),
        }
    } else {
        match punct_token(s[0]) {
            Some(t) => lex_cons(t, lex_spec(s.drop_first())),
            None => Err(LexError::UnexpectedChar(s[0])),
        }
    }
}

#[via_fn]
proof fn lex_spec_decreases(s: Seq<char>) {
    if s.len() > 0 {
        lemma_digit_run(s);
        lemma_quote_idx(s.drop_first());
    }
}

/// Collects the characters of a string into a vector, one by one.
#[verifier::loop_isolation(false)]
pub fn chars_of(s: &str) -> (r: Vec<char>)
    ensures
        r@ == s@,
{
    let mut it = s.chars();
    let mut r: Vec<char> = Vec::new();
    loop
        invariant
            r@ + it.remaining() == s@,
            it.decrease() is Some,
        decreases it.decrease()->0,
    {
        let ghost prev = it.remaining();
        match it.next() {
            Some(c) => {
                r.push(c);
                proof {
                    assert(prev =~= seq![c] + it.remaining());
                    assert(r@ + it.remaining() =~= s@);
                }
            },
            None => {
                proof {
                    assert(r@ =~= s@);
                }
                return r;
            },
        }
    }
}

/// A cursor over the characters of a template, handing out one token at a
/// time.
pub struct Lexer {
    pub chars: Vec<char>,
    pub pos: usize,
}

impl Lexer {
    pub open spec fn wf(&self) -> bool {
        self.pos <= self.chars@.len()
    }

    /// The characters not yet consumed.
    pub open spec fn remaining(&self) -> Seq<char> {
        self.chars@.skip(self.pos as int)
    }

    pub fn new(input: &str) -> (r: Lexer)
        ensures
            r.wf(),
            r.chars@ == input@,
            r.pos == 0,
    {
        Lexer { chars: chars_of(input), pos: 0 }
    }

    /// Hands out the next token of the input, `None` at its end, or the
    /// lexing failure that the remaining input begins with.
    #[verifier::loop_isolation(false)]
    pub fn next(&mut self) -> (r: Result<Option<Token>, LexError>)
        requires
            old(self).wf(),
        ensures
            final(self).wf(),
            final(self).chars == old(self).chars,
            final(self).pos >= old(self).pos,
            match r {
                Ok(Some(t)) => final(self).pos > old(self).pos && lex_spec(old(self).remaining())
                    == lex_cons(t@, lex_spec(final(self).remaining())),
                Ok(None) => lex_spec(old(self).remaining()) == Ok::<Seq<TokenView>, LexError>(
                    Seq::empty(),
                ),
                Err(e) => lex_spec(old(self).remaining()) == Err::<Seq<TokenView>, LexError>(e),
            },
    {
        loop
            invariant
                self.wf(),
                self.chars == old(self).chars,
                self.pos >= old(self).pos,
                lex_spec(self.remaining()) == lex_spec(old(self).remaining()),
            decreases self.chars@.len() - self.pos,
        {
            if self.pos == self.chars.len() {
                proof {
                    assert(self.remaining() =~= Seq::<char>::empty());
                }
                return Ok(None);
            }
            let ghost rem0 = self.remaining();
            let c = self.chars[self.pos];
            assert(c == rem0[0]);
            if c.is_whitespace() {
                proof {
                    assert(rem0.drop_first() =~= self.chars@.skip(self.pos + 1));
                }
                self.pos = self.pos + 1;
            } else if '0' <= c && c <= '9' {
                return match self.next_number() {
                    Ok(t) => Ok(Some(t)),
                    Err(e) => Err(e),
                };
            } else if c == '"' {
                return self.next_string();
            } else {
                let t = match c {
                    '(' => Token::OpenParen,
                    ')' => Token::CloseParen,
                    '[' => Token::OpenSquare,
                    ']' => Token::CloseSquare,
                    ',' => Token::Comma,
                    '+' => Token::Plus,
                    '-' => Token::Dash,
                    ';' => Token::Semicolon,
                    '/' => Token::Slash,
                    '$' => Token::Dollar,
                    '*' => Token::Star,
                    _ => {
                        return Err(LexError::UnexpectedChar(c));
                    },
                };
                proof {
                    assert(rem0.drop_first() =~= self.chars@.skip(self.pos + 1));
                }
                self.pos = self.pos + 1;
                return Ok(Some(t));
            }
        }
    }

    /// Consumes the maximal digit run at the cursor and returns its value.
    fn next_number(&mut self) -> (r: Result<Token, LexError>)
        requires
            old(self).wf(),
            old(self).pos < old(self).chars@.len(),
            digit_char(old(self).chars@[old(self).pos as int]),
            !whitespace_char(old(self).chars@[old(self).pos as int]),
        ensures
            final(self).wf(),
            final(self).chars == old(self).chars,
            final(self).pos >= old(self).pos,
            match r {
                Ok(t) => final(self).pos > old(self).pos && lex_spec(old(self).remaining())
                    == lex_cons(t@, lex_spec(final(self).remaining())),
                Err(e) => lex_spec(old(self).remaining()) == Err::<Seq<TokenView>, LexError>(e),
            },
    {
        let ghost rem0 = old(self).remaining();
        let ghost run = digit_run(rem0) as int;
        proof {
            lemma_digit_run(rem0);
        }
        let start = self.pos;
        let mut val: i64 = 0;
        loop
            invariant
                self.chars == old(self).chars,
                start == old(self).pos,
                start <= self.pos <= self.chars@.len(),
                self.pos - start <= run,
                rem0 == old(self).remaining(),
                rem0.len() > 0,
                digit_char(rem0[0]),
                !whitespace_char(rem0[0]),
                rem0 == self.chars@.skip(start as int),
                run == digit_run(rem0),
                digit_run(rem0) <= rem0.len(),
                forall|i: int| 0 <= i < run ==> digit_char(#[trigger] rem0[i]),
                run < rem0.len() ==> !digit_char(rem0[run]),
                val == digits_val(rem0.take(self.pos - start)),
                0 <= val <= i64::MAX,
            ensures
                self.chars == old(self).chars,
                start == old(self).pos,
                self.pos - start == run,
                val == digits_val(rem0.take(run)),
                start <= self.pos <= self.chars@.len(),
                0 <= val <= i64::MAX,
            decreases self.chars@.len() - self.pos,
        {
            if self.pos == self.chars.len() || !('0' <= self.chars[self.pos] && self.chars[self.pos] <= '9') {
                proof {
                    // the scan stopped exactly at the end of the digit run
                    if self.pos - start < run {
                        assert(digit_char(rem0[self.pos - start]));
                        assert(rem0[self.pos - start] == self.chars@[self.pos as int]);
                    }
                    assert(self.pos - start == run);
                }
                break;
            }
            let c = self.chars[self.pos];
            assert(c == rem0[self.pos - start]);
            assert(self.pos - start < run);
            let d: i64 = ((c as u32) - 48) as i64;
            assert(0 <= d <= 9);
            let ghost val_next = digits_val(rem0.take(self.pos - start + 1));
            proof {
                assert(rem0.take(self.pos - start + 1).drop_last() =~= rem0.take(
                    self.pos - start,
                ));
                assert(val_next == val * 10 + d);
            }
            if val > 922337203685477580 || (val == 922337203685477580 && d > 7) {
                // the value of the full digit run can only be larger still
                proof {
                    assert(val * 10 + d > i64::MAX);
                    lemma_digits_val_monotone(rem0.take(run), self.pos - start + 1, run);
                    assert(rem0.take(run).take(self.pos - start + 1) =~= rem0.take(
                        self.pos - start + 1,
                    ));
                    assert(rem0.take(run).take(run) =~= rem0.take(run));
                    assert(digits_val(rem0.take(run)) > i64::MAX);
                    assert(rem0[0] == self.chars@[start as int]);
                    assert(rem0.len() > 0);
                    assert(!whitespace_char(rem0[0]) && digit_char(rem0[0]));
                    assert(lex_spec(rem0) == Err::<Seq<TokenView>, LexError>(
                        LexError::NumberTooLarge,
                    ));
                }
                return Err(LexError::NumberTooLarge);
            }
            proof {
                assert(val * 10 + d <= i64::MAX);
            }
            val = val * 10 + d;
            self.pos = self.pos + 1;
        }
        proof {
            assert(rem0[0] == self.chars@[start as int]);
            assert(self.remaining() =~= rem0.skip(run));
        }
        Ok(Token::Number(val))
    }

    /// Consumes a double-quoted string literal at the cursor.
    fn next_string(&mut self) -> (r: Result<Option<Token>, LexError>)
        requires
            old(self).wf(),
            old(self).pos < old(self).chars@.len(),
            old(self).chars@[old(self).pos as int] == '"',
            !whitespace_char('"'),
            !digit_char('"'),
        ensures
            final(self).wf(),
            final(self).chars == old(self).chars,
            final(self).pos >= old(self).pos,
            match r {
                Ok(Some(t)) => final(self).pos > old(self).pos && lex_spec(old(self).remaining())
                    == lex_cons(t@, lex_spec(final(self).remaining())),
                Ok(None) => false,
                Err(e) => lex_spec(old(self).remaining()) == Err::<Seq<TokenView>, LexError>(e),
            },
    {
        let ghost rem0 = old(self).remaining();
        let ghost tail = rem0.drop_first();
        proof {
            lemma_quote_idx(tail);
        }
        let start = self.pos;
        let n = self.chars.len();
        let mut j = self.pos + 1;
        loop
            invariant
                self == old(self),
                start == self.pos,
                start == old(self).pos,
                n == self.chars@.len(),
                start < j <= self.chars@.len(),
                rem0 == old(self).remaining(),
                rem0.len() > 0,
                rem0[0] == '"',
                !whitespace_char(rem0[0]),
                !digit_char(rem0[0]),
                rem0 == self.chars@.skip(start as int),
                tail == rem0.drop_first(),
                forall|i: int| 0 <= i < j - start - 1 ==> tail[i] != '"',
            ensures
                self == old(self),
                start == self.pos,
                start < j < self.chars@.len(),
                self.chars@[j as int] == '"',
                forall|i: int| 0 <= i < j - start - 1 ==> tail[i] != '"',
            decreases self.chars@.len() - j,
        {
            if j == n {
                proof {
                    assert(tail.len() == j - start - 1);
                    assert(forall|i: int| 0 <= i < tail.len() ==> tail[i] != '"');
                    lemma_quote_idx(tail);
                    assert(rem0[0] == self.chars@[start as int]);
                }
                return Err(LexError::UnterminatedString);
            }
            if self.chars[j] == '"' {
                break;
            }
            proof {
                assert(tail[j - start - 1] == self.chars@[j as int]);
            }
            j = j + 1;
        }
        // chars[j] is the closing quote; the literal is chars[start+1 .. j]
        let ghost qj = j - start - 1;
        proof {
            assert(tail[qj as int] == '"');
            lemma_quote_idx(tail);
            assert(quote_idx(tail) == Some(qj as int));
        }
        let mut content = String::new();
        let mut i = start + 1;
        while i < j
            invariant
                self == old(self),
                start == self.pos,
                start + 1 <= i <= j < self.chars@.len(),
                self.chars@[j as int] == '"',
                content@ == self.chars@.subrange(start + 1, i as int),
            decreases j - i,
        {
            content.push(self.chars[i]);
            proof {
                assert(content@ =~= self.chars@.subrange(start + 1, i + 1));
            }
            i = i + 1;
        }
        self.pos = j + 1;
        let t = Token::Str(content);
        proof {
            assert(t@ == TokenView::Str(rem0.subrange(1, 1 + qj))) by {
                assert(rem0.subrange(1, 1 + qj) =~= self.chars@.subrange(start + 1, j as int));
            }
            assert(self.remaining() =~= rem0.skip(qj + 2));
        }
        Ok(Some(t))
    }
}

/// Lexes as much of the input as lexes cleanly: the tokens before the
/// first failure, and that failure if there is one. With no failure the
/// tokens are exactly what `lex_spec` assigns to the input.
#[verifier::loop_isolation(false)]
pub fn lex_prefix(input: &str) -> (r: (Vec<Token>, Option<LexError>))
    ensures
        match r.1 {
            None => lex_spec(input@) == Ok::<Seq<TokenView>, LexError>(toks_dv(r.0@)),
            Some(e) => lex_spec(input@) == Err::<Seq<TokenView>, LexError>(e),
        },
{
    let mut lx = Lexer::new(input);
    let mut out: Vec<Token> = Vec::new();
    proof {
        assert(lx.remaining() =~= input@);
        if lex_spec(input@) is Ok {
            assert(toks_dv(out@) + lex_spec(input@)->Ok_0 =~= lex_spec(input@)->Ok_0);
        }
    }
    loop
        invariant
            lx.wf(),
            lex_spec(input@) == match lex_spec(lx.remaining()) {
                Ok(ts) => Ok::<Seq<TokenView>, LexError>(toks_dv(out@) + ts),
                Err(e) => Err::<Seq<TokenView>, LexError>(e),
            },
        decreases lx.chars@.len() - lx.pos,
    {
        let ghost out_before = out@;
        match lx.next() {
            Ok(Some(t)) => {
                out.push(t);
                proof {
                    if lex_spec(lx.remaining()) is Ok {
                        let ts = lex_spec(lx.remaining())->Ok_0;
                        assert(toks_dv(out_before) + (seq![t@] + ts) =~= toks_dv(out@) + ts) by {
                            assert(toks_dv(out@) =~= toks_dv(out_before).push(t@));
                        }
                    }
                }
            },
            Ok(None) => {
                proof {
                    assert(toks_dv(out@) + Seq::<TokenView>::empty() =~= toks_dv(out@));
                }
                return (out, None);
            },
            Err(e) => {
                return (out, Some(e));
            },
        }
    }
}

/// Lexes a whole template into its token sequence.
#[verifier::loop_isolation(false)]
pub fn lex_all(input: &str) -> (r: Result<Vec<Token>, LexError>)
    ensures
        match r {
            Ok(ts) => lex_spec(input@) == Ok::<Seq<TokenView>, LexError>(toks_dv(ts@)),
            Err(e) => lex_spec(input@) == Err::<Seq<TokenView>, LexError>(e),
        },
{
    let mut lx = Lexer::new(input);
    let mut out: Vec<Token> = Vec::new();
    proof {
        assert(lx.remaining() =~= input@);
        if lex_spec(input@) is Ok {
            assert(toks_dv(out@) + lex_spec(input@)->Ok_0 =~= lex_spec(input@)->Ok_0);
        }
    }
    loop
        invariant
            lx.wf(),
            lex_spec(input@) == match lex_spec(lx.remaining()) {
                Ok(ts) => Ok::<Seq<TokenView>, LexError>(toks_dv(out@) + ts),
                Err(e) => Err::<Seq<TokenView>, LexError>(e),
            },
        decreases lx.chars@.len() - lx.pos,
    {
        let ghost rem_before = lx.remaining();
        let ghost out_before = out@;
        match lx.next() {
            Ok(Some(t)) => {
                out.push(t);
                proof {
                    if lex_spec(lx.remaining()) is Ok {
                        let ts = lex_spec(lx.remaining())->Ok_0;
                        assert(toks_dv(out_before) + (seq![t@] + ts) =~= toks_dv(out@) + ts) by {
                            assert(toks_dv(out@) =~= toks_dv(out_before).push(t@));
                        }
                    }
                }
            },
            Ok(None) => {
                proof {
                    assert(toks_dv(out@) + Seq::<TokenView>::empty() =~= toks_dv(out@));
                }
                return Ok(out);
            },
            Err(e) => {
                return Err(e);
            },
        }
    }
}

} // verus!
