use crate::chunks::{
    build_group_spec, build_groups_spec, expand_spec, group_wt, groups_wt, ChunkView, ChunksView,
};
use crate::groups::{collapse_go, collapse_spec, flush, GroupView};
use crate::token::TokenView;
use crate::tree::{parse_tree_spec, parse_trees_spec, TreeView};
use vstd::prelude::*;

verus! {

/// Whether every identifier in `ids` lies in `0 .. n`.
pub open spec fn ids_below(ids: Seq<int>, n: int) -> bool {
    forall|k: int| 0 <= k < ids.len() ==> 0 <= #[trigger] ids[k] < n
}

/// Builds of a single group allocate chunks whose children only ever point
/// at strictly earlier chunks, and hand back attachment identifiers within
/// the arena built so far.
pub proof fn lemma_build_group_wf(g: GroupView, attach: Seq<int>, next: int)
    requires
        next >= 0,
        ids_below(attach, next),
    ensures
        ({
            let out = build_group_spec(g, attach, next);
            &&& ids_below(out.attach, next + out.chunks.len())
            &&& forall|i: int|
                0 <= i < out.chunks.len() ==> ids_below(#[trigger] out.chunks[i].childs, next + i)
        }),
    decreases group_wt(g), 0int,
{
    let out = build_group_spec(g, attach, next);
    match g {
        GroupView::Simple(toks) => {
            assert(out.chunks[0].childs == attach);
        },
        GroupView::Repetition(content, sep) => {
            let one = build_groups_spec(content, attach, next);
            let n1 = next + one.chunks.len();
            lemma_build_groups_wf(content, attach, next);
            match sep {
                None => {
                    let two = build_groups_spec(content, one.attach, n1);
                    lemma_build_groups_wf(content, one.attach, n1);
                    assert forall|i: int| 0 <= i < out.chunks.len() implies ids_below(
                        #[trigger] out.chunks[i].childs,
                        next + i,
                    ) by {
                        if i < one.chunks.len() {
                            assert(out.chunks[i] == one.chunks[i]);
                        } else {
                            assert(out.chunks[i] == two.chunks[i - one.chunks.len()]);
                        }
                    }
                    assert forall|k: int| 0 <= k < out.attach.len() implies 0 <= #[trigger] out
                        .attach[k] < next + out.chunks.len() by {
                        if k < attach.len() {
                            assert(out.attach[k] == attach[k]);
                        } else if k < attach.len() + one.attach.len() {
                            assert(out.attach[k] == one.attach[k - attach.len()]);
                        } else {
                            assert(out.attach[k] == two.attach[k - attach.len()
                                - one.attach.len()]);
                        }
                    }
                },
                Some(s) => {
                    let two = build_groups_spec(content, seq![n1], n1 + 1);
                    assert(ids_below(seq![n1], n1 + 1));
                    lemma_build_groups_wf(content, seq![n1], n1 + 1);
                    let sep_chunk = ChunkView { tokens: seq![s], childs: one.attach };
                    assert forall|i: int| 0 <= i < out.chunks.len() implies ids_below(
                        #[trigger] out.chunks[i].childs,
                        next + i,
                    ) by {
                        if i < one.chunks.len() {
                            assert(out.chunks[i] == one.chunks[i]);
                        } else if i == one.chunks.len() {
                            assert(out.chunks[i] == sep_chunk);
                        } else {
                            assert(out.chunks[i] == two.chunks[i - one.chunks.len() - 1]);
                        }
                    }
                    assert forall|k: int| 0 <= k < out.attach.len() implies 0 <= #[trigger] out
                        .attach[k] < next + out.chunks.len() by {
                        if k < attach.len() {
                            assert(out.attach[k] == attach[k]);
                        } else if k < attach.len() + one.attach.len() {
                            assert(out.attach[k] == one.attach[k - attach.len()]);
                        } else {
                            assert(out.attach[k] == two.attach[k - attach.len()
                                - one.attach.len()]);
                        }
                    }
                },
            }
        },
    }
}

/// As `lemma_build_group_wf`, for a whole group sequence.
pub proof fn lemma_build_groups_wf(gs: Seq<GroupView>, attach: Seq<int>, next: int)
    requires
        next >= 0,
        ids_below(attach, next),
    ensures
        ({
            let out = build_groups_spec(gs, attach, next);
            &&& ids_below(out.attach, next + out.chunks.len())
            &&& forall|i: int|
                0 <= i < out.chunks.len() ==> ids_below(#[trigger] out.chunks[i].childs, next + i)
        }),
    decreases groups_wt(gs), 1int,
{
    let out = build_groups_spec(gs, attach, next);
    if gs.len() > 0 {
        let o1 = build_group_spec(gs.last(), attach, next);
        let o2 = build_groups_spec(gs.drop_last(), o1.attach, next + o1.chunks.len());
        lemma_build_group_wf(gs.last(), attach, next);
        assert(groups_wt(gs) == groups_wt(gs.drop_last()) + group_wt(gs.last()));
        assert(group_wt(gs.last()) >= 1) by {
            match gs.last() {
                GroupView::Simple(_) => {},
                GroupView::Repetition(_, _) => {},
            }
        }
        lemma_build_groups_wf(gs.drop_last(), o1.attach, next + o1.chunks.len());
        assert forall|i: int| 0 <= i < out.chunks.len() implies ids_below(
            #[trigger] out.chunks[i].childs,
            next + i,
        ) by {
            if i < o1.chunks.len() {
                assert(out.chunks[i] == o1.chunks[i]);
            } else {
                assert(out.chunks[i] == o2.chunks[i - o1.chunks.len()]);
            }
        }
    }
}

/// An expanded template is well formed: every entry identifier names a
/// chunk of the arena, and every chunk's children strictly precede it in
/// allocation order.
pub proof fn lemma_expand_wf(s: Seq<char>)
    ensures
        expand_spec(s) matches Ok(c) ==> {
            &&& ids_below(c.firsts, c.chunks.len() as int)
            &&& forall|i: int|
                0 <= i < c.chunks.len() ==> ids_below(#[trigger] c.chunks[i].childs, i)
        },
{
    if expand_spec(s) is Ok {
        match crate::lexer::lex_spec(s) {
            Err(_) => {},
            Ok(toks) => {
                match parse_trees_spec(toks) {
                    Err(_) => {},
                    Ok(trees) => {
                        lemma_build_groups_wf(collapse_spec(trees), Seq::empty(), 0);
                    },
                }
            },
        }
    }
}

/// Whether the chunk `b` can be reached from the chunk `a` by following
/// child identifiers. The definition carries the bound `child < parent`
/// that holds in every arena this library builds (`lemma_expand_wf`), which
/// is what makes the traversal well founded.
pub open spec fn reaches(chunks: Seq<ChunkView>, a: int, b: int) -> bool
    decreases a,
    when a >= 0
{
    a == b || (0 <= a < chunks.len() && exists|k: int|
        0 <= k < chunks[a].childs.len() && 0 <= #[trigger] chunks[a].childs[k] < a && reaches(
            chunks,
            chunks[a].childs[k],
            b,
        ))
}

/// Acyclicity: whatever a traversal from `a` reaches, other than `a`
/// itself, has a strictly smaller identifier. No path can return to a
/// chunk, and every traversal terminates.
pub proof fn lemma_acyclic(chunks: Seq<ChunkView>, a: int, b: int)
    requires
        a >= 0,
        reaches(chunks, a, b),
        a != b,
    ensures
        b < a,
    decreases a,
{
    let k = choose|k: int|
        0 <= k < chunks[a].childs.len() && 0 <= #[trigger] chunks[a].childs[k] < a && reaches(
            chunks,
            chunks[a].childs[k],
            b,
        );
    if chunks[a].childs[k] != b {
        lemma_acyclic(chunks, chunks[a].childs[k], b);
    }
}

/// Reachability is transitive.
pub proof fn lemma_reaches_trans(chunks: Seq<ChunkView>, a: int, b: int, c: int)
    requires
        a >= 0,
        reaches(chunks, a, b),
        reaches(chunks, b, c),
    ensures
        reaches(chunks, a, c),
    decreases a,
{
    if a != b {
        let k = choose|k: int|
            0 <= k < chunks[a].childs.len() && 0 <= #[trigger] chunks[a].childs[k] < a && reaches(
                chunks,
                chunks[a].childs[k],
                b,
            );
        lemma_reaches_trans(chunks, chunks[a].childs[k], b, c);
    }
}

/// Extending the arena with further chunks breaks no existing path.
pub proof fn lemma_reaches_frame(chunks: Seq<ChunkView>, ext: Seq<ChunkView>, a: int, b: int)
    requires
        a >= 0,
        reaches(chunks, a, b),
    ensures
        reaches(chunks + ext, a, b),
    decreases a,
{
    if a != b {
        let k = choose|k: int|
            0 <= k < chunks[a].childs.len() && 0 <= #[trigger] chunks[a].childs[k] < a && reaches(
                chunks,
                chunks[a].childs[k],
                b,
            );
        lemma_reaches_frame(chunks, ext, chunks[a].childs[k], b);
        assert((chunks + ext)[a] == chunks[a]);
    }
}

/// Whether `e` reaches every identifier of `attach`.
pub open spec fn reach_all(chunks: Seq<ChunkView>, e: int, attach: Seq<int>) -> bool {
    forall|m: int| 0 <= m < attach.len() ==> reaches(chunks, e, #[trigger] attach[m])
}

/// Whether the entry `e` shares the continuation `attach`: it either is
/// one of its identifiers — the zero path keeps them as they are — or
/// reaches all of them through newly built chunks.
pub open spec fn shares(chunks: Seq<ChunkView>, attach: Seq<int>, e: int) -> bool {
    attach.contains(e) || reach_all(chunks, e, attach)
}

/// Whether, for every identifier of `attach`, `entries` holds one that is
/// it or reaches it.
/// Whether some entry is the identifier `a` or reaches it.
pub open spec fn covers_one(chunks: Seq<ChunkView>, entries: Seq<int>, a: int) -> bool {
    exists|k: int|
        0 <= k < entries.len() && ((#[trigger] entries[k]) == a || reaches(chunks, entries[k], a))
}

pub open spec fn covers(chunks: Seq<ChunkView>, entries: Seq<int>, attach: Seq<int>) -> bool {
    forall|m: int|
        0 <= m < attach.len() ==> covers_one(chunks, entries, #[trigger] attach[m])
}

/// An entry that reaches every middle entry, where the middle entries
/// cover the original set, reaches every original identifier.
pub proof fn lemma_reach_all_compose(
    chunks: Seq<ChunkView>,
    ext: Seq<ChunkView>,
    attach: Seq<int>,
    mid: Seq<int>,
    e: int,
)
    requires
        e >= 0,
        forall|k: int| 0 <= k < mid.len() ==> #[trigger] mid[k] >= 0,
        reach_all(chunks + ext, e, mid),
        covers(chunks, mid, attach),
    ensures
        reach_all(chunks + ext, e, attach),
{
    let arena = chunks + ext;
    assert forall|m: int| 0 <= m < attach.len() implies reaches(
        arena,
        e,
        #[trigger] attach[m],
    ) by {
        assert(covers_one(chunks, mid, attach[m]));
        let k = choose|k: int|
            0 <= k < mid.len() && ((#[trigger] mid[k]) == attach[m] || reaches(
                chunks,
                mid[k],
                attach[m],
            ));
        assert(reaches(arena, e, mid[k]));
        if mid[k] != attach[m] {
            lemma_reaches_frame(chunks, ext, mid[k], attach[m]);
            lemma_reaches_trans(arena, e, mid[k], attach[m]);
        }
    }
}

pub proof fn lemma_covers_group(base: Seq<ChunkView>, g: GroupView, attach: Seq<int>)
    requires
        ids_below(attach, base.len() as int),
    ensures
        ({
            let out = build_group_spec(g, attach, base.len() as int);
            covers(base + out.chunks, out.attach, attach)
        }),
    decreases group_wt(g), 0int,
{
    let next = base.len() as int;
    let out = build_group_spec(g, attach, next);
    let arena = base + out.chunks;
    match g {
        GroupView::Simple(toks) => {
            assert forall|m: int| 0 <= m < attach.len() implies covers_one(
                arena,
                out.attach,
                #[trigger] attach[m],
            ) by {
                assert(arena[next].childs == attach);
                assert(arena[next].childs[m] == attach[m]);
                assert(reaches(arena, attach[m], attach[m]));
                assert(0 <= arena[next].childs[m] < next);
                assert(reaches(arena, next, attach[m]));
                assert(out.attach[0] == next);
            }
        },
        GroupView::Repetition(content, sep) => {
            assert forall|m: int| 0 <= m < attach.len() implies covers_one(
                arena,
                out.attach,
                #[trigger] attach[m],
            ) by {
                assert(out.attach[m] == attach[m]);
            }
        },
    }
}

pub proof fn lemma_covers_groups(base: Seq<ChunkView>, gs: Seq<GroupView>, attach: Seq<int>)
    requires
        ids_below(attach, base.len() as int),
    ensures
        ({
            let out = build_groups_spec(gs, attach, base.len() as int);
            covers(base + out.chunks, out.attach, attach)
        }),
    decreases groups_wt(gs), 1int,
{
    let next = base.len() as int;
    let out = build_groups_spec(gs, attach, next);
    let arena = base + out.chunks;
    if gs.len() == 0 {
        assert forall|m: int| 0 <= m < attach.len() implies covers_one(
            arena,
            out.attach,
            #[trigger] attach[m],
        ) by {
            assert(out.attach[m] == attach[m]);
        }
    } else {
        let o1 = build_group_spec(gs.last(), attach, next);
        let base1 = base + o1.chunks;
        let o2 = build_groups_spec(gs.drop_last(), o1.attach, next + o1.chunks.len());
        lemma_build_group_wf(gs.last(), attach, next);
        lemma_covers_group(base, gs.last(), attach);
        assert(base1.len() as int == next + o1.chunks.len());
        assert(groups_wt(gs) == groups_wt(gs.drop_last()) + group_wt(gs.last()));
        assert(group_wt(gs.last()) >= 1) by {
            match gs.last() {
                GroupView::Simple(_) => {},
                GroupView::Repetition(_, _) => {},
            }
        }
        lemma_covers_groups(base1, gs.drop_last(), o1.attach);
        lemma_build_groups_wf(gs.drop_last(), o1.attach, next + o1.chunks.len());
        assert(base1 + o2.chunks =~= arena);
        assert forall|m: int| 0 <= m < attach.len() implies covers_one(
            arena,
            out.attach,
            #[trigger] attach[m],
        ) by {
            // an entry of the group build covers attach[m] ...
            assert(covers_one(base1, o1.attach, attach[m]));
            let k1 = choose|k1: int|
                0 <= k1 < o1.attach.len() && ((#[trigger] o1.attach[k1]) == attach[m] || reaches(
                    base1,
                    o1.attach[k1],
                    attach[m],
                ));
            // ... and an entry of the remaining build covers that entry
            let k2 = choose|k2: int|
                0 <= k2 < o2.attach.len() && ((#[trigger] o2.attach[k2]) == o1.attach[k1]
                    || reaches(arena, o2.attach[k2], o1.attach[k1]));
            assert(out.attach[k2] == o2.attach[k2]);
            if o1.attach[k1] == attach[m] {
                assert(out.attach[k2] == attach[m] || reaches(arena, out.attach[k2], attach[m]));
            } else {
                lemma_reaches_frame(base1, o2.chunks, o1.attach[k1], attach[m]);
                if o2.attach[k2] == o1.attach[k1] {
                    assert(reaches(arena, out.attach[k2], attach[m]));
                } else {
                    assert(o2.attach[k2] >= 0);
                    lemma_reaches_trans(arena, o2.attach[k2], o1.attach[k1], attach[m]);
                }
            }
        }
    }
}

/// Shared-tail property, for one group: every entry the build hands back
/// either belongs to the original attachment set itself — those
/// identifiers are kept, not copied — or reaches every identifier of that
/// set through the chunks just built. Identical continuations are thus
/// converged upon, never duplicated.
pub proof fn lemma_shares_group(base: Seq<ChunkView>, g: GroupView, attach: Seq<int>)
    requires
        ids_below(attach, base.len() as int),
    ensures
        ({
            let out = build_group_spec(g, attach, base.len() as int);
            forall|k: int|
                0 <= k < out.attach.len() ==> shares(
                    base + out.chunks,
                    attach,
                    #[trigger] out.attach[k],
                )
        }),
    decreases group_wt(g), 2int,
{
    let next = base.len() as int;
    let out = build_group_spec(g, attach, next);
    let arena = base + out.chunks;
    match g {
        GroupView::Simple(toks) => {
            assert forall|k: int| 0 <= k < out.attach.len() implies shares(
                arena,
                attach,
                #[trigger] out.attach[k],
            ) by {
                assert(out.attach[k] == next);
                assert(arena[next].childs == attach);
                assert forall|m: int| 0 <= m < attach.len() implies reaches(
                    arena,
                    next,
                    #[trigger] attach[m],
                ) by {
                    assert(reaches(arena, attach[m], attach[m]));
                    assert(0 <= arena[next].childs[m] < next);
                }
            }
        },
        GroupView::Repetition(content, sep) => {
            let one = build_groups_spec(content, attach, next);
            let base1 = base + one.chunks;
            let n1 = next + one.chunks.len();
            lemma_build_groups_wf(content, attach, next);
            lemma_shares_groups(base, content, attach);
            lemma_covers_groups(base, content, attach);
            match sep {
                None => {
                    let two = build_groups_spec(content, one.attach, n1);
                    assert(base1.len() as int == n1);
                    lemma_shares_groups(base1, content, one.attach);
                    lemma_build_groups_wf(content, one.attach, n1);
                    assert(base1 + two.chunks =~= arena);
                    assert(out.attach == attach + one.attach + two.attach);
                    assert forall|k: int| 0 <= k < out.attach.len() implies shares(
                        arena,
                        attach,
                        #[trigger] out.attach[k],
                    ) by {
                        let e = out.attach[k];
                        if k < attach.len() {
                            assert(attach[k] == e);
                        } else if k < attach.len() + one.attach.len() {
                            let k1 = k - attach.len();
                            assert(one.attach[k1] == e);
                            assert(shares(base1, attach, e));
                            lemma_shares_lift(base1, two.chunks, attach, e);
                        } else {
                            let k2 = k - attach.len() - one.attach.len();
                            assert(two.attach[k2] == e);
                            assert(shares(arena, one.attach, e));
                            if one.attach.contains(e) {
                                let k1 = choose|k1: int|
                                    0 <= k1 < one.attach.len() && one.attach[k1] == e;
                                assert(shares(base1, attach, e));
                                lemma_shares_lift(base1, two.chunks, attach, e);
                            } else {
                                assert(reach_all(arena, e, one.attach));
                                assert(e >= 0);
                                lemma_reach_all_compose(base1, two.chunks, attach, one.attach, e);
                            }
                        }
                    }
                },
                Some(s) => {
                    let two = build_groups_spec(content, seq![n1], n1 + 1);
                    let sep_chunk = ChunkView { tokens: seq![s], childs: one.attach };
                    let base2 = base1 + seq![sep_chunk];
                    assert(base2.len() as int == n1 + 1);
                    assert(base2 + two.chunks =~= arena);
                    assert(ids_below(seq![n1], n1 + 1));
                    lemma_shares_groups(base2, content, seq![n1]);
                    lemma_build_groups_wf(content, seq![n1], n1 + 1);
                    assert(out.attach == attach + one.attach + two.attach);
                    assert(base2[n1 as int] == sep_chunk);
                    lemma_sep_reach_all(base, content, attach, s);
                    assert(reach_all(base2, n1, attach));
                    assert forall|k: int| 0 <= k < out.attach.len() implies shares(
                        arena,
                        attach,
                        #[trigger] out.attach[k],
                    ) by {
                        let e = out.attach[k];
                        if k < attach.len() {
                            assert(attach[k] == e);
                        } else if k < attach.len() + one.attach.len() {
                            let k1 = k - attach.len();
                            assert(one.attach[k1] == e);
                            assert(shares(base1, attach, e));
                            lemma_shares_lift(base1, seq![sep_chunk] + two.chunks, attach, e);
                            assert(base1 + (seq![sep_chunk] + two.chunks) =~= arena);
                        } else {
                            let k2 = k - attach.len() - one.attach.len();
                            assert(two.attach[k2] == e);
                            assert(shares(base2 + two.chunks, seq![n1], e));
                            assert forall|m: int| 0 <= m < attach.len() implies reaches(
                                arena,
                                e,
                                #[trigger] attach[m],
                            ) by {
                                assert(reaches(base2, n1, attach[m]));
                                lemma_reaches_frame(base2, two.chunks, n1, attach[m]);
                                if e == n1 {
                                } else if (seq![n1]).contains(e) {
                                    assert(e == n1);
                                } else {
                                    assert(reach_all(arena, e, seq![n1]));
                                    assert((seq![n1])[0] == n1);
                                    assert(reaches(arena, e, n1));
                                    assert(e >= 0);
                                    lemma_reaches_trans(arena, e, n1, attach[m]);
                                }
                            }
                        }
                    }
                },
            }
        },
    }
}

/// A shared entry stays shared when the arena grows.
pub proof fn lemma_shares_lift(
    chunks: Seq<ChunkView>,
    ext: Seq<ChunkView>,
    attach: Seq<int>,
    e: int,
)
    requires
        e >= 0,
        shares(chunks, attach, e),
    ensures
        shares(chunks + ext, attach, e),
{
    if !attach.contains(e) {
        assert forall|m: int| 0 <= m < attach.len() implies reaches(
            chunks + ext,
            e,
            #[trigger] attach[m],
        ) by {
            lemma_reaches_frame(chunks, ext, e, attach[m]);
        }
    }
}

/// As `lemma_shares_group`, for a whole group sequence.
pub proof fn lemma_shares_groups(base: Seq<ChunkView>, gs: Seq<GroupView>, attach: Seq<int>)
    requires
        ids_below(attach, base.len() as int),
    ensures
        ({
            let out = build_groups_spec(gs, attach, base.len() as int);
            forall|k: int|
                0 <= k < out.attach.len() ==> shares(
                    base + out.chunks,
                    attach,
                    #[trigger] out.attach[k],
                )
        }),
    decreases groups_wt(gs), 3int,
{
    let next = base.len() as int;
    let out = build_groups_spec(gs, attach, next);
    let arena = base + out.chunks;
    if gs.len() == 0 {
        assert forall|k: int| 0 <= k < out.attach.len() implies shares(
            arena,
            attach,
            #[trigger] out.attach[k],
        ) by {
            assert(attach[k] == out.attach[k]);
        }
    } else {
        let o1 = build_group_spec(gs.last(), attach, next);
        let base1 = base + o1.chunks;
        let o2 = build_groups_spec(gs.drop_last(), o1.attach, next + o1.chunks.len());
        lemma_build_group_wf(gs.last(), attach, next);
        lemma_shares_group(base, gs.last(), attach);
        lemma_covers_group(base, gs.last(), attach);
        assert(base1.len() as int == next + o1.chunks.len());
        assert(groups_wt(gs) == groups_wt(gs.drop_last()) + group_wt(gs.last()));
        assert(group_wt(gs.last()) >= 1) by {
            match gs.last() {
                GroupView::Simple(_) => {},
                GroupView::Repetition(_, _) => {},
            }
        }
        lemma_shares_groups(base1, gs.drop_last(), o1.attach);
        lemma_build_groups_wf(gs.drop_last(), o1.attach, next + o1.chunks.len());
        assert(base1 + o2.chunks =~= arena);
        assert forall|k: int| 0 <= k < out.attach.len() implies shares(
            arena,
            attach,
            #[trigger] out.attach[k],
        ) by {
            let e = out.attach[k];
            assert(o2.attach[k] == e);
            assert(shares(arena, o1.attach, e));
            if o1.attach.contains(e) {
                let k1 = choose|k1: int| 0 <= k1 < o1.attach.len() && o1.attach[k1] == e;
                assert(shares(base1, attach, e));
                lemma_shares_lift(base1, o2.chunks, attach, e);
            } else {
                assert(reach_all(arena, e, o1.attach));
                assert(e >= 0);
                lemma_reach_all_compose(base1, o2.chunks, attach, o1.attach, e);
            }
        }
    }
}

/// Separator isolation, first half: the separator chunk of a repetition
/// group reaches every identifier of the original attachment set through
/// the one-occurrence entries it points at.
pub proof fn lemma_sep_reach_all(
    base: Seq<ChunkView>,
    content: Seq<GroupView>,
    attach: Seq<int>,
    s: TokenView,
)
    requires
        ids_below(attach, base.len() as int),
    ensures
        ({
            let one = build_groups_spec(content, attach, base.len() as int);
            let n1 = base.len() + one.chunks.len();
            let base2 = (base + one.chunks) + seq![
                ChunkView { tokens: seq![s], childs: one.attach },
            ];
            reach_all(base2, n1 as int, attach)
        }),
{
    let next = base.len() as int;
    let one = build_groups_spec(content, attach, next);
    let base1 = base + one.chunks;
    let n1 = next + one.chunks.len();
    let sep_chunk = ChunkView { tokens: seq![s], childs: one.attach };
    let base2 = base1 + seq![sep_chunk];
    lemma_build_groups_wf(content, attach, next);
    lemma_covers_groups(base, content, attach);
    assert(base2[n1] == sep_chunk);
    assert forall|m: int| 0 <= m < attach.len() implies reaches(
        base2,
        n1,
        #[trigger] attach[m],
    ) by {
        assert(covers_one(base1, one.attach, attach[m]));
        let k1 = choose|k1: int|
            0 <= k1 < one.attach.len() && ((#[trigger] one.attach[k1]) == attach[m] || reaches(
                base1,
                one.attach[k1],
                attach[m],
            ));
        assert(0 <= one.attach[k1] < n1);
        assert(base2[n1].childs[k1] == one.attach[k1]);
        if one.attach[k1] == attach[m] {
            assert(reaches(base2, attach[m], attach[m]));
        } else {
            lemma_reaches_frame(base1, seq![sep_chunk], one.attach[k1], attach[m]);
        }
    }
}

/// Shared-tail property: with the continuation after a repetition group
/// held fixed, the entry sets of its three multiplicity classes converge
/// on the identical continuation identifiers. The zero path keeps them
/// verbatim and in front; every one- or two-or-more entry reaches each of
/// them. No chunk is ever allocated anew for the shared continuation.
pub proof fn lemma_shared_tail(
    base: Seq<ChunkView>,
    content: Seq<GroupView>,
    sep: Option<TokenView>,
    attach: Seq<int>,
)
    requires
        ids_below(attach, base.len() as int),
    ensures
        ({
            let out = build_group_spec(
                GroupView::Repetition(content, sep),
                attach,
                base.len() as int,
            );
            &&& out.attach.take(attach.len() as int) == attach
            &&& forall|k: int|
                0 <= k < out.attach.len() ==> shares(
                    base + out.chunks,
                    attach,
                    #[trigger] out.attach[k],
                )
        }),
{
    lemma_zero_occurrence(content, sep, attach, base.len() as int);
    lemma_shares_group(base, GroupView::Repetition(content, sep), attach);
}

/// Separator isolation: when a repetition group declares a separator, the
/// build gives that one token a chunk of its own. Its children are exactly
/// the one-occurrence entries, and every two-or-more entry reaches it, so
/// each two-or-more path passes the separator strictly between content.
pub proof fn lemma_separator_isolation(
    base: Seq<ChunkView>,
    content: Seq<GroupView>,
    s: TokenView,
    attach: Seq<int>,
)
    requires
        ids_below(attach, base.len() as int),
    ensures
        ({
            let next = base.len() as int;
            let out = build_group_spec(GroupView::Repetition(content, Some(s)), attach, next);
            let one = build_groups_spec(content, attach, next);
            let two = build_groups_spec(
                content,
                seq![next + one.chunks.len()],
                next + one.chunks.len() + 1,
            );
            let n1 = next + one.chunks.len();
            let arena = base + out.chunks;
            &&& 0 <= n1 < arena.len()
            &&& arena[n1].tokens == seq![s]
            &&& arena[n1].childs == one.attach
            &&& out.attach == attach + one.attach + two.attach
            &&& forall|k: int|
                0 <= k < two.attach.len() ==> reaches(arena, #[trigger] two.attach[k], n1)
        }),
{
    let next = base.len() as int;
    let out = build_group_spec(GroupView::Repetition(content, Some(s)), attach, next);
    let one = build_groups_spec(content, attach, next);
    let n1 = next + one.chunks.len();
    let two = build_groups_spec(content, seq![n1], n1 + 1);
    let arena = base + out.chunks;
    let sep_chunk = ChunkView { tokens: seq![s], childs: one.attach };
    let base1 = base + one.chunks;
    let base2 = base1 + seq![sep_chunk];
    lemma_build_groups_wf(content, attach, next);
    assert(arena[n1] == sep_chunk);
    assert(base2 + two.chunks =~= arena);
    assert(ids_below(seq![n1], n1 + 1));
    lemma_shares_groups(base2, content, seq![n1]);
    lemma_build_groups_wf(content, seq![n1], n1 + 1);
    assert forall|k: int| 0 <= k < two.attach.len() implies reaches(
        arena,
        #[trigger] two.attach[k],
        n1,
    ) by {
        let e = two.attach[k];
        assert(shares(base2 + two.chunks, seq![n1], e));
        assert(e >= 0);
        if (seq![n1]).contains(e) {
            assert(e == n1);
        } else {
            assert(reach_all(arena, e, seq![n1]));
            assert((seq![n1])[0] == n1);
        }
    }
}

/// Zero-occurrence reachability: the attachment set in force before a
/// repetition group is kept unchanged, and in front, in the entry set the
/// group hands back. Skipping the group is always possible, on chunks that
/// the group's build did not touch.
pub proof fn lemma_zero_occurrence(
    content: Seq<GroupView>,
    sep: Option<TokenView>,
    attach: Seq<int>,
    next: int,
)
    requires
        next >= 0,
    ensures
        ({
            let out = build_group_spec(GroupView::Repetition(content, sep), attach, next);
            out.attach.take(attach.len() as int) == attach
        }),
{
    let out = build_group_spec(GroupView::Repetition(content, sep), attach, next);
    let one = build_groups_spec(content, attach, next);
    match sep {
        None => {
            let two = build_groups_spec(content, one.attach, next + one.chunks.len());
            assert(out.attach.take(attach.len() as int) =~= attach);
        },
        Some(_) => {
            assert(out.attach.take(attach.len() as int) =~= attach);
        },
    }
}

/// The leaves of a token sequence that holds no repetition marker.
pub open spec fn leaves(toks: Seq<TokenView>) -> Seq<TreeView> {
    toks.map_values(|t: TokenView| TreeView::Token(t))
}

pub proof fn lemma_parse_no_dollar(toks: Seq<TokenView>)
    requires
        forall|i: int| 0 <= i < toks.len() ==> toks[i] != TokenView::Dollar,
    ensures
        parse_trees_spec(toks) == Ok::<Seq<TreeView>, crate::errors::ParseError>(leaves(toks)),
    decreases toks.len(),
{
    if toks.len() == 0 {
        assert(leaves(toks) =~= Seq::<TreeView>::empty());
    } else {
        assert(parse_tree_spec(toks) == Ok::<(TreeView, int), crate::errors::ParseError>(
            (TreeView::Token(toks[0]), 1int),
        ));
        lemma_parse_no_dollar(toks.skip(1));
        assert(leaves(toks) =~= seq![TreeView::Token(toks[0])] + leaves(toks.skip(1)));
    }
}

pub proof fn lemma_collapse_leaves(toks: Seq<TokenView>, pending: Seq<TokenView>)
    ensures
        collapse_go(leaves(toks), pending) == flush(pending + toks),
    decreases toks.len(),
{
    if toks.len() == 0 {
        assert(pending + toks =~= pending);
    } else {
        assert(leaves(toks)[0] == TreeView::Token(toks[0]));
        assert(leaves(toks).drop_first() =~= leaves(toks.skip(1)));
        lemma_collapse_leaves(toks.skip(1), pending.push(toks[0]));
        assert(pending.push(toks[0]) + toks.skip(1) =~= pending + toks);
    }
}

/// Round trip on non-repeating templates: a nonempty token sequence with
/// no repetition marker expands to exactly one chunk that carries the whole
/// token sequence, has no children, and is the single entry point.
pub proof fn lemma_round_trip_no_repetition(toks: Seq<TokenView>)
    requires
        toks.len() > 0,
        forall|i: int| 0 <= i < toks.len() ==> toks[i] != TokenView::Dollar,
    ensures
        parse_trees_spec(toks) is Ok,
        ({
            let out = build_groups_spec(
                collapse_spec(parse_trees_spec(toks)->Ok_0),
                Seq::empty(),
                0,
            );
            &&& out.chunks == seq![ChunkView { tokens: toks, childs: Seq::<int>::empty() }]
            &&& out.attach == seq![0int]
        }),
{
    lemma_parse_no_dollar(toks);
    lemma_collapse_leaves(toks, Seq::empty());
    assert(Seq::<TokenView>::empty() + toks =~= toks);
    let gs = collapse_spec(leaves(toks));
    assert(gs == seq![GroupView::Simple(toks)]);
    let out = build_groups_spec(gs, Seq::<int>::empty(), 0);
    assert(gs.last() == GroupView::Simple(toks));
    assert(gs.drop_last() =~= Seq::<GroupView>::empty());
    let o1 = build_group_spec(GroupView::Simple(toks), Seq::<int>::empty(), 0);
    assert(o1.chunks == seq![ChunkView { tokens: toks, childs: Seq::<int>::empty() }]);
    assert(o1.attach == seq![0int]);
    let o2 = build_groups_spec(gs.drop_last(), o1.attach, o1.chunks.len() as int);
    assert(o2.chunks == Seq::<ChunkView>::empty());
    assert(o2.attach == o1.attach);
    assert(out.chunks == o1.chunks + o2.chunks);
    assert(out.chunks =~= seq![ChunkView { tokens: toks, childs: Seq::<int>::empty() }]);
    assert(out.attach == seq![0int]);
}

/// Round trip at the template level: a template that lexes to a nonempty
/// token sequence holding no repetition marker expands to exactly one
/// chunk that carries the whole token sequence, has no children, and is
/// the single entry point.
pub proof fn lemma_expand_round_trip(s: Seq<char>, toks: Seq<TokenView>)
    requires
        crate::lexer::lex_spec(s) == Ok::<Seq<TokenView>, crate::errors::LexError>(toks),
        toks.len() > 0,
        forall|i: int| 0 <= i < toks.len() ==> toks[i] != TokenView::Dollar,
    ensures
        expand_spec(s) == Ok::<ChunksView, crate::errors::Error>(
            ChunksView {
                chunks: seq![ChunkView { tokens: toks, childs: Seq::<int>::empty() }],
                firsts: seq![0int],
            },
        ),
{
    lemma_round_trip_no_repetition(toks);
}

/// A uniform shift of chunk identifiers.
pub open spec fn shift_ids(ids: Seq<int>, k: int) -> Seq<int> {
    ids.map_values(|i: int| i + k)
}

pub open spec fn shift_chunk(c: ChunkView, k: int) -> ChunkView {
    ChunkView { tokens: c.tokens, childs: shift_ids(c.childs, k) }
}

pub open spec fn shift_chunks(cs: Seq<ChunkView>, k: int) -> Seq<ChunkView> {
    cs.map_values(|c: ChunkView| shift_chunk(c, k))
}

/// Nesting: building a group against a uniformly shifted attachment set at
/// a shifted arena base yields the same chunks with every identifier
/// shifted by the same amount, and nothing else. The sub-graph an inner
/// repetition contributes inside a larger build is therefore structurally
/// identical to the graph it yields when built alone against the same
/// continuation.
pub proof fn lemma_build_group_shift(g: GroupView, attach: Seq<int>, next: int, k: int)
    requires
        next >= 0,
        next + k >= 0,
    ensures
        ({
            let o = build_group_spec(g, attach, next);
            let os = build_group_spec(g, shift_ids(attach, k), next + k);
            &&& os.chunks == shift_chunks(o.chunks, k)
            &&& os.attach == shift_ids(o.attach, k)
        }),
    decreases group_wt(g), 0int,
{
    let o = build_group_spec(g, attach, next);
    let os = build_group_spec(g, shift_ids(attach, k), next + k);
    match g {
        GroupView::Simple(toks) => {
            assert(os.chunks =~= shift_chunks(o.chunks, k));
            assert(os.attach =~= shift_ids(o.attach, k));
        },
        GroupView::Repetition(content, sep) => {
            let one = build_groups_spec(content, attach, next);
            let ones = build_groups_spec(content, shift_ids(attach, k), next + k);
            lemma_build_groups_shift(content, attach, next, k);
            let n1 = next + one.chunks.len();
            match sep {
                None => {
                    lemma_build_groups_shift(content, one.attach, n1, k);
                    let two = build_groups_spec(content, one.attach, n1);
                    let twos = build_groups_spec(content, shift_ids(one.attach, k), n1 + k);
                    assert(os.chunks =~= shift_chunks(o.chunks, k));
                    assert(os.attach =~= shift_ids(o.attach, k));
                },
                Some(s) => {
                    assert(shift_ids(seq![n1], k) =~= seq![n1 + k]);
                    lemma_build_groups_shift(content, seq![n1], n1 + 1, k);
                    let two = build_groups_spec(content, seq![n1], n1 + 1);
                    let twos = build_groups_spec(content, seq![n1 + k], n1 + 1 + k);
                    assert(os.chunks =~= shift_chunks(o.chunks, k));
                    assert(os.attach =~= shift_ids(o.attach, k));
                },
            }
        },
    }
}

/// As `lemma_build_group_shift`, for a whole group sequence.
pub proof fn lemma_build_groups_shift(gs: Seq<GroupView>, attach: Seq<int>, next: int, k: int)
    requires
        next >= 0,
        next + k >= 0,
    ensures
        ({
            let o = build_groups_spec(gs, attach, next);
            let os = build_groups_spec(gs, shift_ids(attach, k), next + k);
            &&& os.chunks == shift_chunks(o.chunks, k)
            &&& os.attach == shift_ids(o.attach, k)
        }),
    decreases groups_wt(gs), 1int,
{
    let o = build_groups_spec(gs, attach, next);
    let os = build_groups_spec(gs, shift_ids(attach, k), next + k);
    if gs.len() == 0 {
        assert(os.chunks =~= shift_chunks(o.chunks, k));
    } else {
        let o1 = build_group_spec(gs.last(), attach, next);
        lemma_build_group_shift(gs.last(), attach, next, k);
        lemma_build_groups_shift(gs.drop_last(), o1.attach, next + o1.chunks.len(), k);
        assert(os.chunks =~= shift_chunks(o.chunks, k));
    }
}

} // verus!
