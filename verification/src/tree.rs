use crate::errors::ParseError;
use crate::token::{toks_dv, Token, TokenView};
use vstd::prelude::*;

verus! {

/// A token tree: a single token, or a repetition group holding the trees of
/// its body and an optional separator token.
#[derive(Debug, PartialEq, Eq)]
pub enum TokenTree {
    Token(Token),
    Repetition(TokenRepetition),
}

/// The body and separator of a `$( body )sep*` repetition group.
#[derive(Debug, PartialEq, Eq)]
pub struct TokenRepetition {
    pub repeated: Vec<TokenTree>,
    pub separator: Option<Token>,
}

/// The mathematical value of a token tree.
pub enum TreeView {
    Token(TokenView),
    Repetition(Seq<TreeView>, Option<TokenView>),
}

pub open spec fn opt_tok_dv(o: Option<Token>) -> Option<TokenView> {
    match o {
        Option::None => None,
        Option::Some(t) => Some(t@),
    }
}

/// The view of a token tree.
pub open spec fn tree_dv(t: TokenTree) -> TreeView
    decreases t,
{
    match t {
        TokenTree::Token(tok) => TreeView::Token(tok@),
        TokenTree::Repetition(rep) => TreeView::Repetition(
            trees_dv(rep.repeated@),
            opt_tok_dv(rep.separator),
        ),
    }
}

/// The view of a token-tree sequence, tree by tree.
pub open spec fn trees_dv(s: Seq<TokenTree>) -> Seq<TreeView>
    decreases s,
{
    if s.len() == 0 {
        Seq::empty()
    } else {
        trees_dv(s.drop_last()).push(tree_dv(s.last()))
    }
}

pub proof fn lemma_trees_dv(s: Seq<TokenTree>)
    ensures
        trees_dv(s).len() == s.len(),
        forall|i: int| 0 <= i < s.len() ==> trees_dv(s)[i] == tree_dv(s[i]),
    decreases s.len(),
{
    if s.len() != 0 {
        lemma_trees_dv(s.drop_last());
    }
}

/// Scanning for the closing delimiter: the first index at or after `i` where
/// the nesting depth, starting at `depth`, returns to zero.
pub open spec fn scan_close(s: Seq<TokenView>, i: int, depth: nat) -> Option<int>
    decreases s.len() - i,
{
    if i < 0 || i >= s.len() {
        None
    } else if s[i] == TokenView::CloseParen {
        if depth == 1 {
            Some(i)
        } else {
            scan_close(s, i + 1, (depth - 1) as nat)
        }
    } else if s[i] == TokenView::OpenParen {
        scan_close(s, i + 1, depth + 1)
    } else {
        scan_close(s, i + 1, depth)
    }
}

pub proof fn lemma_scan_close(s: Seq<TokenView>, i: int, depth: nat)
    ensures
        match scan_close(s, i, depth) {
            Some(r) => i <= r < s.len() && s[r] == TokenView::CloseParen,
            None => true,
        },
    decreases s.len() - i,
{
    if 0 <= i < s.len() {
        lemma_scan_close(s, i + 1, (depth - 1) as nat);
        lemma_scan_close(s, i + 1, depth + 1);
        lemma_scan_close(s, i + 1, depth);
    }
}

/// Parsing one token tree from the front of `s`: the tree and the number of
/// tokens it occupies. A token that is not the repetition marker is a leaf.
/// After the marker there must come an opening delimiter, a body whose
/// delimiters balance, the matching closing delimiter, an optional single
/// separator token, and the terminator `*`.
pub open spec fn parse_tree_spec(s: Seq<TokenView>) -> Result<(TreeView, int), ParseError>
    decreases s.len(), 0int,
    when s.len() >= 0
    via parse_tree_spec_decreases
{
    if s.len() == 0 {
        Err(ParseError::UnexpectedEnd)
    } else if s[0] != TokenView::Dollar {
        Ok((TreeView::Token(s[0]), 1int))
    } else if s.len() < 2 || s[1] != TokenView::OpenParen {
        Err(ParseError::ExpectedOpenParen)
    } else {
        match scan_close(s, 2, 1) {
            None => Err(ParseError::Unbalanced),
            Some(ci) => {
                if ci + 1 >= s.len() {
                    Err(ParseError::ExpectedTerminator)
                } else if s[ci + 1] == TokenView::Star {
                    match parse_trees_spec(s.subrange(2, ci)) {
                        Ok(children) => Ok((TreeView::Repetition(children, None), ci + 2)),
                        Err(e) => Err(e),
                    }
                } else if ci + 2 >= s.len() || s[ci + 2] != TokenView::Star {
                    Err(ParseError::ExpectedTerminator)
                } else {
                    match parse_trees_spec(s.subrange(2, ci)) {
                        Ok(children) => Ok(
                            (TreeView::Repetition(children, Some(s[ci + 1])), ci + 3),
                        ),
                        Err(e) => Err(e),
                    }
                }
            },
        }
    }
}

/// Parsing token trees from the front of `s` until it is exhausted.
pub open spec fn parse_trees_spec(s: Seq<TokenView>) -> Result<Seq<TreeView>, ParseError>
    decreases s.len(), 1int,
{
    if s.len() == 0 {
        Ok(Seq::empty())
    } else {
        match parse_tree_spec(s) {
            Err(e) => Err(e),
            Ok((t, used)) => if 1 <= used <= s.len() {
                match parse_trees_spec(s.skip(used)) {
                    Ok(ts) => Ok(seq![t] + ts),
                    Err(e) => Err(e),
                }
            } else {
                Err(ParseError::UnexpectedEnd)
            },
        }
    }
}

#[via_fn]
proof fn parse_tree_spec_decreases(s: Seq<TokenView>) {
    lemma_scan_close(s, 2, 1);
}

/// A successful single-tree parse consumes between one token and the whole
/// input.
pub proof fn lemma_parse_tree_used(s: Seq<TokenView>)
    ensures
        parse_tree_spec(s) matches Ok((t, used)) ==> 1 <= used <= s.len(),
{
    lemma_scan_close(s, 2, 1);
}

/// Builds the sequence of token trees denoted by a flat token sequence, or
/// reports the first structural error.
pub fn parse_tokenstream(tokens: Vec<Token>) -> (r: Result<Vec<TokenTree>, ParseError>)
    ensures
        match r {
            Ok(trees) => parse_trees_spec(toks_dv(tokens@)) == Ok::<Seq<TreeView>, ParseError>(
                trees_dv(trees@),
            ),
            Err(e) => parse_trees_spec(toks_dv(tokens@)) == Err::<Seq<TreeView>, ParseError>(e),
        },
{
    let n = tokens.len();
    let ghost whole = toks_dv(tokens@);
    let mut trees: Vec<TokenTree> = Vec::new();
    let mut pos: usize = 0;
    proof {
        assert(whole.subrange(0, n as int) =~= whole);
        assert(trees_dv(trees@) + parse_trees_spec(whole)->Ok_0 =~= parse_trees_spec(whole)->Ok_0);
    }
    while pos < n
        invariant
            pos <= n,
            n == tokens@.len(),
            whole == toks_dv(tokens@),
            match parse_trees_spec(whole.subrange(pos as int, n as int)) {
                Ok(ts) => parse_trees_spec(whole) == Ok::<Seq<TreeView>, ParseError>(
                    trees_dv(trees@) + ts,
                ),
                Err(e) => parse_trees_spec(whole) == Err::<Seq<TreeView>, ParseError>(e),
            },
        decreases n - pos,
    {
        let ghost rest = whole.subrange(pos as int, n as int);
        let ghost trees_before = trees@;
        match parse_tokentree(&tokens, pos, n) {
            Ok((tree, next)) => {
                proof {
                    lemma_parse_tree_used(rest);
                    assert(rest.skip(next - pos) =~= whole.subrange(next as int, n as int));
                }
                trees.push(tree);
                proof {
                    assert(trees@.drop_last() =~= trees_before);
                    assert(trees_dv(trees@) == trees_dv(trees_before).push(tree_dv(tree)));
                    if parse_trees_spec(whole.subrange(next as int, n as int)) is Ok {
                        let ts = parse_trees_spec(whole.subrange(next as int, n as int))->Ok_0;
                        assert(trees_dv(trees_before) + (seq![tree_dv(tree)] + ts) =~= trees_dv(
                            trees@,
                        ) + ts);
                    }
                }
                pos = next;
            },
            Err(e) => {
                return Err(e);
            },
        }
    }
    proof {
        assert(whole.subrange(pos as int, n as int).len() == 0);
        assert(trees_dv(trees@) + Seq::<TreeView>::empty() =~= trees_dv(trees@));
    }
    Ok(trees)
}

/// Parses one token tree out of `tokens[lo..hi]`, returning the tree and the
/// index just past it.
pub fn parse_tokentree(tokens: &Vec<Token>, lo: usize, hi: usize) -> (r: Result<
    (TokenTree, usize),
    ParseError,
>)
    requires
        lo <= hi <= tokens@.len(),
    ensures
        ({
            let sub = toks_dv(tokens@).subrange(lo as int, hi as int);
            match r {
                Ok((tree, next)) => lo < next <= hi && parse_tree_spec(sub) == Ok::<
                    (TreeView, int),
                    ParseError,
                >((tree_dv(tree), next - lo)),
                Err(e) => parse_tree_spec(sub) == Err::<(TreeView, int), ParseError>(e),
            }
        }),
    decreases hi - lo,
{
    let ghost sub = toks_dv(tokens@).subrange(lo as int, hi as int);
    if lo == hi {
        return Err(ParseError::UnexpectedEnd);
    }
    assert(sub[0] == tokens@[lo as int]@);
    if !matches!(tokens[lo], Token::Dollar) {
        let t = tokens[lo].clone();
        return Ok((TokenTree::Token(t), lo + 1));
    }
    // the marker must be followed by the opening delimiter
    if lo + 1 == hi || !matches!(tokens[lo + 1], Token::OpenParen) {
        if lo + 1 < hi {
            assert(sub[1] == tokens@[lo + 1]@);
        }
        return Err(ParseError::ExpectedOpenParen);
    }
    assert(sub[1] == tokens@[lo + 1]@);
    // scan for the matching closing delimiter, tracking the nesting depth
    let mut depth: usize = 1;
    let mut j = lo + 2;
    loop
        invariant
            lo + 2 <= j <= hi <= tokens@.len(),
            1 <= depth <= j - lo,
            sub == toks_dv(tokens@).subrange(lo as int, hi as int),
            sub.len() == hi - lo,
            sub[0] == TokenView::Dollar,
            sub[1] == TokenView::OpenParen,
            scan_close(sub, 2, 1) == scan_close(sub, j - lo, depth as nat),
        ensures
            lo + 2 <= j < hi,
            scan_close(sub, 2, 1) == Some(j - lo),
        decreases hi - j,
    {
        if j == hi {
            proof {
                assert(scan_close(sub, j - lo, depth as nat) is None);
            }
            return Err(ParseError::Unbalanced);
        }
        assert(sub[j - lo] == tokens@[j as int]@);
        let is_close = matches!(tokens[j], Token::CloseParen);
        let is_open = matches!(tokens[j], Token::OpenParen);
        if is_close && depth == 1 {
            proof {
                assert(scan_close(sub, j - lo, depth as nat) == Some(j - lo));
            }
            break;
        }
        if is_close {
            depth = depth - 1;
        } else if is_open {
            depth = depth + 1;
        }
        j = j + 1;
    }
    let ghost ci = j - lo;
    // after the closing delimiter: an optional separator, then the terminator
    if j + 1 == hi {
        return Err(ParseError::ExpectedTerminator);
    }
    assert(sub[ci + 1] == tokens@[j + 1]@);
    let separator: Option<Token>;
    let next: usize;
    if matches!(tokens[j + 1], Token::Star) {
        separator = None;
        next = j + 2;
    } else {
        if j + 2 == hi || !matches!(tokens[j + 2], Token::Star) {
            if j + 2 < hi {
                assert(sub[ci + 2] == tokens@[j + 2]@);
            }
            return Err(ParseError::ExpectedTerminator);
        }
        assert(sub[ci + 2] == tokens@[j + 2]@);
        separator = Some(tokens[j + 1].clone());
        next = j + 3;
    }
    // parse the body between the delimiters into child trees
    let ghost inner = toks_dv(tokens@).subrange(lo + 2, j as int);
    proof {
        assert(inner =~= sub.subrange(2, ci));
    }
    let mut children: Vec<TokenTree> = Vec::new();
    let mut cur = lo + 2;
    proof {
        assert(trees_dv(children@) + parse_trees_spec(inner)->Ok_0 =~= parse_trees_spec(
            inner,
        )->Ok_0);
    }
    while cur < j
        invariant
            lo + 2 <= cur <= j < hi <= tokens@.len(),
            sub == toks_dv(tokens@).subrange(lo as int, hi as int),
            sub.len() == hi - lo,
            sub[0] == TokenView::Dollar,
            sub[1] == TokenView::OpenParen,
            ci == j - lo,
            ci + 1 < sub.len(),
            scan_close(sub, 2, 1) == Some(ci),
            inner == toks_dv(tokens@).subrange(lo + 2, j as int),
            inner =~= sub.subrange(2, ci),
            match separator {
                Option::None => sub[ci + 1] == TokenView::Star && next == j + 2,
                Option::Some(sep) => sub[ci + 1] != TokenView::Star && ci + 2 < sub.len()
                    && sub[ci + 2] == TokenView::Star && sub[ci + 1] == sep@ && next == j + 3,
            },
            match parse_trees_spec(toks_dv(tokens@).subrange(cur as int, j as int)) {
                Ok(ts) => parse_trees_spec(inner) == Ok::<Seq<TreeView>, ParseError>(
                    trees_dv(children@) + ts,
                ),
                Err(e) => parse_trees_spec(inner) == Err::<Seq<TreeView>, ParseError>(e),
            },
        decreases j - cur,
    {
        let ghost rest = toks_dv(tokens@).subrange(cur as int, j as int);
        let ghost children_before = children@;
        match parse_tokentree(tokens, cur, j) {
            Ok((tree, child_next)) => {
                proof {
                    lemma_parse_tree_used(rest);
                    assert(rest.skip(child_next - cur) =~= toks_dv(tokens@).subrange(
                        child_next as int,
                        j as int,
                    ));
                }
                children.push(tree);
                proof {
                    assert(children@.drop_last() =~= children_before);
                    if parse_trees_spec(toks_dv(tokens@).subrange(child_next as int, j as int))
                        is Ok {
                        let ts = parse_trees_spec(
                            toks_dv(tokens@).subrange(child_next as int, j as int),
                        )->Ok_0;
                        assert(trees_dv(children_before) + (seq![tree_dv(tree)] + ts)
                            =~= trees_dv(children@) + ts);
                    }
                }
                cur = child_next;
            },
            Err(e) => {
                proof {
                    assert(parse_trees_spec(rest) == Err::<Seq<TreeView>, ParseError>(e));
                    assert(parse_trees_spec(inner) == Err::<Seq<TreeView>, ParseError>(e));
                    assert(parse_tree_spec(sub) == Err::<(TreeView, int), ParseError>(e));
                }
                return Err(e);
            },
        }
    }
    proof {
        assert(toks_dv(tokens@).subrange(cur as int, j as int).len() == 0);
        assert(trees_dv(children@) + Seq::<TreeView>::empty() =~= trees_dv(children@));
        assert(parse_trees_spec(inner) == Ok::<Seq<TreeView>, ParseError>(trees_dv(children@)));
    }
    Ok((TokenTree::Repetition(TokenRepetition { repeated: children, separator }), next))
}

} // verus!
