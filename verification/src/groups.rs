use crate::token::{toks_dv, Token, TokenView};
use crate::tree::{opt_tok_dv, tree_dv, trees_dv, TokenTree, TreeView};
use vstd::prelude::*;

verus! {

/// A normalized view over a token-tree sequence: adjacent plain tokens are
/// merged into one `Simple` run; repetition groups keep their structure,
/// recursively collapsed.
#[derive(Debug, PartialEq, Eq)]
pub enum Group {
    Simple(Vec<Token>),
    Repetition { content: Vec<Group>, separator: Option<Token> },
}

/// The mathematical value of a group.
pub enum GroupView {
    Simple(Seq<TokenView>),
    Repetition(Seq<GroupView>, Option<TokenView>),
}

/// The view of a group.
pub open spec fn group_dv(g: Group) -> GroupView
    decreases g,
{
    match g {
        Group::Simple(ts) => GroupView::Simple(toks_dv(ts@)),
        Group::Repetition { content, separator } => GroupView::Repetition(
            groups_dv(content@),
            opt_tok_dv(separator),
        ),
    }
}

/// The view of a group sequence, group by group.
pub open spec fn groups_dv(s: Seq<Group>) -> Seq<GroupView>
    decreases s,
{
    if s.len() == 0 {
        Seq::empty()
    } else {
        groups_dv(s.drop_last()).push(group_dv(s.last()))
    }
}

pub proof fn lemma_groups_dv(s: Seq<Group>)
    ensures
        groups_dv(s).len() == s.len(),
        forall|i: int| 0 <= i < s.len() ==> groups_dv(s)[i] == group_dv(s[i]),
    decreases s.len(),
{
    if s.len() != 0 {
        lemma_groups_dv(s.drop_last());
    }
}

/// The weight of a token tree, used as a termination measure.
pub open spec fn tree_wt(t: TreeView) -> nat
    decreases t,
{
    match t {
        TreeView::Token(_) => 1,
        TreeView::Repetition(ch, _) => 2 + trees_wt(ch),
    }
}

/// The weight of a token-tree sequence.
pub open spec fn trees_wt(s: Seq<TreeView>) -> nat
    decreases s,
{
    if s.len() == 0 {
        0
    } else {
        tree_wt(s[0]) + trees_wt(s.drop_first())
    }
}

pub proof fn lemma_trees_wt_elem(s: Seq<TreeView>, i: int)
    requires
        0 <= i < s.len(),
    ensures
        tree_wt(s[i]) <= trees_wt(s),
    decreases i,
{
    if i > 0 {
        lemma_trees_wt_elem(s.drop_first(), i - 1);
    }
}

/// A pending run of plain tokens, flushed as one `Simple` group if nonempty.
pub open spec fn flush(pending: Seq<TokenView>) -> Seq<GroupView> {
    if pending.len() == 0 {
        Seq::empty()
    } else {
        seq![GroupView::Simple(pending)]
    }
}

/// Collapsing a tree sequence while carrying the pending run of plain
/// tokens accumulated so far.
pub open spec fn collapse_go(trees: Seq<TreeView>, pending: Seq<TokenView>) -> Seq<GroupView>
    decreases trees_wt(trees), trees.len(),
    when trees.len() >= 0
    via collapse_go_decreases
{
    if trees.len() == 0 {
        flush(pending)
    } else {
        match trees[0] {
            TreeView::Token(t) => collapse_go(trees.drop_first(), pending.push(t)),
            TreeView::Repetition(ch, sep) => flush(pending) + seq![
                GroupView::Repetition(collapse_go(ch, Seq::empty()), sep),
            ] + collapse_go(trees.drop_first(), Seq::empty()),
        }
    }
}

#[via_fn]
proof fn collapse_go_decreases(trees: Seq<TreeView>, pending: Seq<TokenView>) {
    if trees.len() > 0 {
        assert(trees_wt(trees) == tree_wt(trees[0]) + trees_wt(trees.drop_first()));
    }
}

/// The collapsing of a token-tree sequence into groups: maximal runs of
/// plain tokens become single `Simple` groups, repetitions are collapsed
/// recursively, and no two `Simple` groups are ever adjacent.
pub open spec fn collapse_spec(trees: Seq<TreeView>) -> Seq<GroupView> {
    collapse_go(trees, Seq::empty())
}

/// No two adjacent `Simple` groups: adjacency is always merged.
pub open spec fn adj_ok(gs: Seq<GroupView>) -> bool {
    forall|i: int|
        0 <= i < gs.len() - 1 ==> !((#[trigger] gs[i]) is Simple && gs[i + 1] is Simple)
}

/// A group is normalized when its `Simple` runs are nonempty and every
/// repetition body is itself a normalized group sequence.
pub open spec fn group_norm(g: GroupView) -> bool
    decreases crate::chunks::group_wt(g), 0int,
    when true
    via group_norm_decreases
{
    match g {
        GroupView::Simple(ts) => ts.len() > 0,
        GroupView::Repetition(content, _) => adj_ok(content) && groups_norm_list(content),
    }
}

pub open spec fn groups_norm_list(gs: Seq<GroupView>) -> bool
    decreases crate::chunks::groups_wt(gs), 1int,
    when true
    via groups_norm_list_decreases
{
    if gs.len() == 0 {
        true
    } else {
        groups_norm_list(gs.drop_last()) && group_norm(gs.last())
    }
}

#[via_fn]
proof fn group_norm_decreases(g: GroupView) {
    match g {
        GroupView::Simple(_) => {},
        GroupView::Repetition(content, _) => {
            assert(crate::chunks::group_wt(g) == 1 + crate::chunks::groups_wt(content));
        },
    }
}

#[via_fn]
proof fn groups_norm_list_decreases(gs: Seq<GroupView>) {
    if gs.len() > 0 {
        assert(crate::chunks::groups_wt(gs) == crate::chunks::groups_wt(gs.drop_last())
            + crate::chunks::group_wt(gs.last()));
        assert(crate::chunks::group_wt(gs.last()) >= 1) by {
            match gs.last() {
                GroupView::Simple(_) => {},
                GroupView::Repetition(_, _) => {},
            }
        }
    }
}

pub proof fn lemma_norm_list_all(gs: Seq<GroupView>)
    ensures
        groups_norm_list(gs) <==> (forall|i: int|
            0 <= i < gs.len() ==> group_norm(#[trigger] gs[i])),
    decreases gs.len(),
{
    if gs.len() > 0 {
        lemma_norm_list_all(gs.drop_last());
        if groups_norm_list(gs) {
            assert forall|i: int| 0 <= i < gs.len() implies group_norm(#[trigger] gs[i]) by {
                if i < gs.len() - 1 {
                    assert(group_norm(gs.drop_last()[i]));
                }
            }
        }
        if forall|i: int| 0 <= i < gs.len() ==> group_norm(#[trigger] gs[i]) {
            assert forall|i: int|
                0 <= i < gs.drop_last().len() implies group_norm(
                #[trigger] gs.drop_last()[i],
            ) by {
                assert(gs.drop_last()[i] == gs[i]);
            }
        }
    }
}

/// The invariant of the collapsing pass: the group sequence it produces
/// never holds two adjacent `Simple` groups, every `Simple` run is
/// nonempty, and the same holds recursively inside every repetition.
pub proof fn lemma_collapse_norm(trees: Seq<TreeView>, pending: Seq<TokenView>)
    ensures
        adj_ok(collapse_go(trees, pending)),
        groups_norm_list(collapse_go(trees, pending)),
    decreases trees_wt(trees), trees.len(),
{
    let out = collapse_go(trees, pending);
    if trees.len() == 0 {
        lemma_norm_list_all(out);
    } else {
        match trees[0] {
            TreeView::Token(t) => {
                lemma_collapse_norm(trees.drop_first(), pending.push(t));
            },
            TreeView::Repetition(ch, sep) => {
                assert(trees_wt(trees) == tree_wt(trees[0]) + trees_wt(trees.drop_first()));
                lemma_collapse_norm(ch, Seq::empty());
                lemma_collapse_norm(trees.drop_first(), Seq::empty());
                let g = GroupView::Repetition(collapse_go(ch, Seq::empty()), sep);
                let rest = collapse_go(trees.drop_first(), Seq::empty());
                assert(out == flush(pending) + seq![g] + rest);
                lemma_norm_list_all(out);
                lemma_norm_list_all(rest);
                assert(group_norm(g));
                assert forall|i: int| 0 <= i < out.len() implies group_norm(
                    #[trigger] out[i],
                ) by {
                    if i >= flush(pending).len() + 1 {
                        assert(out[i] == rest[i - flush(pending).len() - 1]);
                    } else if i == flush(pending).len() {
                        assert(out[i] == g);
                    }
                }
                assert forall|i: int|
                    0 <= i < out.len() - 1 implies !((#[trigger] out[i]) is Simple && out[i
                    + 1] is Simple) by {
                    let fl = flush(pending).len() as int;
                    if i == fl - 1 || i == fl {
                        assert(out[fl] == g);
                    } else if i > fl {
                        assert(out[i] == rest[i - fl - 1]);
                        assert(out[i + 1] == rest[i - fl]);
                    }
                }
            },
        }
    }
}

/// The sequences this library collapses are normalized: no two adjacent
/// `Simple` groups, nonempty runs, recursively.
pub proof fn lemma_collapse_spec_norm(trees: Seq<TreeView>)
    ensures
        adj_ok(collapse_spec(trees)),
        groups_norm_list(collapse_spec(trees)),
{
    lemma_collapse_norm(trees, Seq::empty());
}

/// Copies an optional separator token.
pub fn clone_opt_tok(o: &Option<Token>) -> (r: Option<Token>)
    ensures
        r == *o,
{
    match o {
        None => None,
        Some(t) => Some(t.clone()),
    }
}

/// Collapses a token-tree sequence into its group sequence.
pub fn create_groups(stream: Vec<TokenTree>) -> (r: Vec<Group>)
    ensures
        groups_dv(r@) == collapse_spec(trees_dv(stream@)),
{
    collapse_trees(&stream)
}

#[verifier::loop_isolation(false)]
fn collapse_trees(stream: &Vec<TokenTree>) -> (r: Vec<Group>)
    ensures
        groups_dv(r@) == collapse_spec(trees_dv(stream@)),
    decreases trees_wt(trees_dv(stream@)),
{
    let ghost whole = trees_dv(stream@);
    proof {
        crate::tree::lemma_trees_dv(stream@);
    }
    let mut result: Vec<Group> = Vec::new();
    let mut pending: Vec<Token> = Vec::new();
    let mut i: usize = 0;
    proof {
        assert(whole.skip(0) =~= whole);
        assert(toks_dv(pending@) =~= Seq::<TokenView>::empty());
        assert(groups_dv(result@) + collapse_go(whole, toks_dv(pending@)) =~= collapse_go(
            whole,
            toks_dv(pending@),
        ));
    }
    while i < stream.len()
        invariant
            i <= stream@.len(),
            collapse_spec(whole) == groups_dv(result@) + collapse_go(
                whole.skip(i as int),
                toks_dv(pending@),
            ),
        decreases stream@.len() - i,
    {
        let ghost rest = whole.skip(i as int);
        let ghost pend = toks_dv(pending@);
        let ghost result_before = result@;
        proof {
            assert(rest[0] == tree_dv(stream@[i as int]));
            assert(rest.drop_first() =~= whole.skip(i + 1));
        }
        match &stream[i] {
            TokenTree::Token(tok) => {
                let t = tok.clone();
                pending.push(t);
                proof {
                    assert(toks_dv(pending@) =~= pend.push(tok@));
                }
            },
            TokenTree::Repetition(rep) => {
                let ghost ch = trees_dv(rep.repeated@);
                let ghost sep_v = opt_tok_dv(rep.separator);
                let ghost g = GroupView::Repetition(collapse_go(ch, Seq::empty()), sep_v);
                proof {
                    lemma_trees_wt_elem(whole, i as int);
                    assert(trees_wt(ch) < trees_wt(whole));
                }
                if pending.len() > 0 {
                    let ghost rb = result@;
                    let ghost moved = pending@;
                    result.push(Group::Simple(pending));
                    pending = Vec::new();
                    proof {
                        assert(pend.len() == moved.len());
                        assert(result@.drop_last() =~= rb);
                        assert(group_dv(result@.last()) == GroupView::Simple(pend));
                        assert(groups_dv(result@) =~= groups_dv(rb) + flush(pend));
                    }
                } else {
                    proof {
                        assert(groups_dv(result@) =~= groups_dv(result_before) + flush(pend));
                    }
                }
                proof {
                    assert(groups_dv(result@) == groups_dv(result_before) + flush(pend));
                    assert(toks_dv(pending@) =~= Seq::<TokenView>::empty());
                }
                let sub = collapse_trees(&rep.repeated);
                let sep = clone_opt_tok(&rep.separator);
                let ghost rm = result@;
                result.push(Group::Repetition { content: sub, separator: sep });
                proof {
                    assert(result@.drop_last() =~= rm);
                    assert(group_dv(Group::Repetition { content: sub, separator: sep }) == g);
                    assert(groups_dv(result@) =~= (groups_dv(result_before) + flush(pend)).push(
                        g,
                    ));
                    assert(collapse_go(rest, pend) == flush(pend) + seq![g] + collapse_go(
                        whole.skip(i + 1),
                        Seq::empty(),
                    ));
                    assert(groups_dv(result_before) + (flush(pend) + seq![g] + collapse_go(
                        whole.skip(i + 1),
                        Seq::empty(),
                    )) =~= groups_dv(result@) + collapse_go(whole.skip(i + 1), Seq::empty()));
                }
            },
        }
        i = i + 1;
    }
    proof {
        assert(whole.skip(i as int).len() == 0);
    }
    if pending.len() > 0 {
        let ghost result_before = result@;
        let ghost moved = pending@;
        let ghost pend = toks_dv(pending@);
        result.push(Group::Simple(pending));
        proof {
            assert(pend.len() == moved.len());
            assert(result@.drop_last() =~= result_before);
            assert(group_dv(result@.last()) == GroupView::Simple(pend));
            assert(groups_dv(result@) =~= groups_dv(result_before) + flush(pend));
        }
    } else {
        proof {
            assert(groups_dv(result@) + flush(toks_dv(pending@)) =~= groups_dv(result@));
        }
    }
    result
}

} // verus!
