use vstd::prelude::*;

verus! {

/// An atomic lexical unit of a template: delimiters, operators, the
/// repetition marker `$`, the repetition terminator `*`, integer literals
/// and double-quoted string literals.
#[derive(Debug, PartialEq, Eq)]
pub enum Token {
    OpenParen,
    CloseParen,
    OpenSquare,
    CloseSquare,
    Comma,
    Plus,
    Dash,
    Semicolon,
    Slash,
    Dollar,
    Star,
    Number(i64),
    Str(String),
}

/// The mathematical value of a token: a string payload is its character
/// sequence, everything else is the token kind itself.
pub enum TokenView {
    OpenParen,
    CloseParen,
    OpenSquare,
    CloseSquare,
    Comma,
    Plus,
    Dash,
    Semicolon,
    Slash,
    Dollar,
    Star,
    Number(i64),
    Str(Seq<char>),
}

impl View for Token {
    type V = TokenView;

    open spec fn view(&self) -> TokenView {
        match self {
            Token::OpenParen => TokenView::OpenParen,
            Token::CloseParen => TokenView::CloseParen,
            Token::OpenSquare => TokenView::OpenSquare,
            Token::CloseSquare => TokenView::CloseSquare,
            Token::Comma => TokenView::Comma,
            Token::Plus => TokenView::Plus,
            Token::Dash => TokenView::Dash,
            Token::Semicolon => TokenView::Semicolon,
            Token::Slash => TokenView::Slash,
            Token::Dollar => TokenView::Dollar,
            Token::Star => TokenView::Star,
            Token::Number(n) => TokenView::Number(*n),
            Token::Str(s) => TokenView::Str(s@),
        }
    }
}

impl Clone for Token {
    fn clone(&self) -> (r: Self)
        ensures
            r == *self,
    {
        match self {
            Token::OpenParen => Token::OpenParen,
            Token::CloseParen => Token::CloseParen,
            Token::OpenSquare => Token::OpenSquare,
            Token::CloseSquare => Token::CloseSquare,
            Token::Comma => Token::Comma,
            Token::Plus => Token::Plus,
            Token::Dash => Token::Dash,
            Token::Semicolon => Token::Semicolon,
            Token::Slash => Token::Slash,
            Token::Dollar => Token::Dollar,
            Token::Star => Token::Star,
            Token::Number(n) => Token::Number(*n),
            Token::Str(s) => Token::Str(s.clone()),
        }
    }
}

/// The view of a token sequence, token by token.
pub open spec fn toks_dv(s: Seq<Token>) -> Seq<TokenView> {
    s.map_values(|t: Token| t@)
}

/// Whether two tokens denote the same lexical unit.
pub fn token_eq(a: &Token, b: &Token) -> (r: bool)
    ensures
        r == (a@ == b@),
{
    match (a, b) {
        (Token::OpenParen, Token::OpenParen) => true,
        (Token::CloseParen, Token::CloseParen) => true,
        (Token::OpenSquare, Token::OpenSquare) => true,
        (Token::CloseSquare, Token::CloseSquare) => true,
        (Token::Comma, Token::Comma) => true,
        (Token::Plus, Token::Plus) => true,
        (Token::Dash, Token::Dash) => true,
        (Token::Semicolon, Token::Semicolon) => true,
        (Token::Slash, Token::Slash) => true,
        (Token::Dollar, Token::Dollar) => true,
        (Token::Star, Token::Star) => true,
        (Token::Number(x), Token::Number(y)) => *x == *y,
        (Token::Str(x), Token::Str(y)) => x.eq(y),
        _ => false,
    }
}

/// Copies a run of tokens.
#[verifier::loop_isolation(false)]
pub fn clone_tokens(ts: &Vec<Token>) -> (r: Vec<Token>)
    ensures
        r@ == ts@,
{
    let mut r: Vec<Token> = Vec::new();
    let mut i: usize = 0;
    while i < ts.len()
        invariant
            i <= ts.len(),
            r@ == ts@.take(i as int),
        decreases ts.len() - i,
    {
        r.push(ts[i].clone());
        proof {
            assert(r@ =~= ts@.take(i + 1 as int));
        }
        i = i + 1;
    }
    proof {
        assert(ts@.take(ts@.len() as int) =~= ts@);
    }
    r
}

} // verus!
