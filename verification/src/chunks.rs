use crate::errors::Error;
use crate::groups::{create_groups, group_dv, groups_dv, lemma_groups_dv, collapse_spec, Group, GroupView};
use crate::lexer::{lex_all, lex_spec};
use crate::token::{clone_tokens, toks_dv, Token, TokenView};
use crate::tree::{parse_tokenstream, parse_trees_spec, trees_dv};
use vstd::prelude::*;

verus! {

/// The identifier of a chunk: its index in the arena, assigned in strict
/// allocation order.
#[derive(Clone, Copy, Debug, PartialEq, Eq, PartialOrd, Ord, Hash, Structural)]
pub struct ChunkId(pub usize);

/// A non-empty run of concrete tokens, plus the identifiers of the chunks
/// that may legally follow it in some expansion.
#[derive(Debug, PartialEq, Eq)]
pub struct Chunk {
    pub tokens: Vec<Token>,
    pub childs: Vec<ChunkId>,
}

/// The arena owning every chunk, plus the entry points ("firsts") from
/// which a consumer may begin walking the graph.
#[derive(Debug, PartialEq, Eq)]
pub struct Chunks {
    pub inner: Vec<Chunk>,
    pub firsts: Vec<ChunkId>,
}

/// The view of a chunk-identifier sequence as plain integers.
pub open spec fn ids_dv(s: Seq<ChunkId>) -> Seq<int> {
    s.map_values(|c: ChunkId| c.0 as int)
}

/// The mathematical value of a chunk.
pub struct ChunkView {
    pub tokens: Seq<TokenView>,
    pub childs: Seq<int>,
}

/// The view of a chunk.
pub open spec fn chunk_dv(c: Chunk) -> ChunkView {
    ChunkView { tokens: toks_dv(c.tokens@), childs: ids_dv(c.childs@) }
}

/// The view of a chunk sequence.
pub open spec fn chunks_dv(s: Seq<Chunk>) -> Seq<ChunkView> {
    s.map_values(|c: Chunk| chunk_dv(c))
}

/// The mathematical value of a chunk arena.
pub struct ChunksView {
    pub chunks: Seq<ChunkView>,
    pub firsts: Seq<int>,
}

impl View for Chunks {
    type V = ChunksView;

    open spec fn view(&self) -> ChunksView {
        ChunksView { chunks: chunks_dv(self.inner@), firsts: ids_dv(self.firsts@) }
    }
}

impl Chunks {
    /// An empty arena with no entry points.
    pub fn new() -> (r: Chunks)
        ensures
            r.inner@.len() == 0,
            r.firsts@.len() == 0,
    {
        Chunks { inner: Vec::new(), firsts: Vec::new() }
    }

    /// The chunk with the given identifier.
    pub fn get(&self, id: ChunkId) -> (r: &Chunk)
        requires
            id.0 < self.inner@.len(),
        ensures
            *r == self.inner@[id.0 as int],
    {
        &self.inner[id.0]
    }

    /// The entry points of the graph, in order.
    pub fn firsts(&self) -> (r: &Vec<ChunkId>)
        ensures
            ids_dv(r@) == self@.firsts,
    {
        &self.firsts
    }

    /// Appends a chunk to the arena and hands back its identifier.
    pub fn allocate(&mut self, chunk: Chunk) -> (id: ChunkId)
        ensures
            final(self).inner@ == old(self).inner@.push(chunk),
            final(self).firsts == old(self).firsts,
            id.0 == old(self).inner@.len(),
    {
        let id = ChunkId(self.inner.len());
        self.inner.push(chunk);
        id
    }
}

/// What one build step produces: the chunks allocated, in allocation order,
/// and the resulting attachment set handed to the group that precedes.
pub struct BuildOut {
    pub chunks: Seq<ChunkView>,
    pub attach: Seq<int>,
}

/// The weight of a group, used as a termination measure.
pub open spec fn group_wt(g: GroupView) -> nat
    decreases g,
{
    match g {
        GroupView::Simple(_) => 1,
        GroupView::Repetition(content, _) => 1 + groups_wt(content),
    }
}

/// The weight of a group sequence.
pub open spec fn groups_wt(s: Seq<GroupView>) -> nat
    decreases s,
{
    if s.len() == 0 {
        0
    } else {
        groups_wt(s.drop_last()) + group_wt(s.last())
    }
}

pub proof fn lemma_groups_wt_elem(s: Seq<GroupView>, i: int)
    requires
        0 <= i < s.len(),
    ensures
        group_wt(s[i]) <= groups_wt(s),
    decreases s.len(),
{
    if i < s.len() - 1 {
        lemma_groups_wt_elem(s.drop_last(), i);
    }
}

/// Building the chunks of one group against the attachment set `attach`,
/// allocating identifiers from `next` on.
///
/// A `Simple` group becomes one chunk whose children are `attach`. A
/// `Repetition` group contributes entry points for its three multiplicity
/// classes: zero occurrences keep `attach` as it is; one occurrence builds
/// the content against `attach`; two or more occurrences build the content
/// against the one-occurrence entries, with the separator, when present, in
/// a single-token chunk of its own between the two.
pub open spec fn build_group_spec(g: GroupView, attach: Seq<int>, next: int) -> BuildOut
    decreases group_wt(g), 0int,
    when next >= 0
    via build_group_spec_decreases
{
    match g {
        GroupView::Simple(toks) => BuildOut {
            chunks: seq![ChunkView { tokens: toks, childs: attach }],
            attach: seq![next],
        },
        GroupView::Repetition(content, sep) => {
            let one = build_groups_spec(content, attach, next);
            let n1 = next + one.chunks.len();
            match sep {
                None => {
                    let two = build_groups_spec(content, one.attach, n1);
                    BuildOut {
                        chunks: one.chunks + two.chunks,
                        attach: attach + one.attach + two.attach,
                    }
                },
                Some(s) => {
                    let two = build_groups_spec(content, seq![n1], n1 + 1);
                    BuildOut {
                        chunks: one.chunks + seq![
                            ChunkView { tokens: seq![s], childs: one.attach },
                        ] + two.chunks,
                        attach: attach + one.attach + two.attach,
                    }
                },
            }
        },
    }
}

/// Building the chunks of a group sequence in reverse order: the last group
/// is built against `attach`, and each group before it against the
/// attachment set its successor produced.
pub open spec fn build_groups_spec(gs: Seq<GroupView>, attach: Seq<int>, next: int) -> BuildOut
    decreases groups_wt(gs), 1int,
    when next >= 0
    via build_groups_spec_decreases
{
    if gs.len() == 0 {
        BuildOut { chunks: Seq::empty(), attach }
    } else {
        let o1 = build_group_spec(gs.last(), attach, next);
        let o2 = build_groups_spec(gs.drop_last(), o1.attach, next + o1.chunks.len());
        BuildOut { chunks: o1.chunks + o2.chunks, attach: o2.attach }
    }
}

#[via_fn]
proof fn build_group_spec_decreases(g: GroupView, attach: Seq<int>, next: int) {
    match g {
        GroupView::Simple(_) => {},
        GroupView::Repetition(content, _) => {
            assert(group_wt(g) == 1 + groups_wt(content));
        },
    }
}

#[via_fn]
proof fn build_groups_spec_decreases(gs: Seq<GroupView>, attach: Seq<int>, next: int) {
    if gs.len() > 0 {
        assert(groups_wt(gs) == groups_wt(gs.drop_last()) + group_wt(gs.last()));
        assert(group_wt(gs.last()) >= 1) by {
            match gs.last() {
                GroupView::Simple(_) => {},
                GroupView::Repetition(content, _) => {},
            }
        }
    }
}

/// Copies an attachment set.
#[verifier::loop_isolation(false)]
pub fn clone_ids(v: &Vec<ChunkId>) -> (r: Vec<ChunkId>)
    ensures
        r@ == v@,
{
    let mut r: Vec<ChunkId> = Vec::new();
    let mut i: usize = 0;
    while i < v.len()
        invariant
            i <= v@.len(),
            r@ == v@.take(i as int),
        decreases v@.len() - i,
    {
        r.push(v[i]);
        proof {
            assert(r@ =~= v@.take(i + 1));
        }
        i = i + 1;
    }
    proof {
        assert(v@.take(v@.len() as int) =~= v@);
    }
    r
}

/// Appends the identifiers of `src` to `dst`.
#[verifier::loop_isolation(false)]
pub fn append_ids(dst: &mut Vec<ChunkId>, src: &Vec<ChunkId>)
    ensures
        final(dst)@ == old(dst)@ + src@,
{
    let mut i: usize = 0;
    while i < src.len()
        invariant
            i <= src@.len(),
            dst@ == old(dst)@ + src@.take(i as int),
        decreases src@.len() - i,
    {
        dst.push(src[i]);
        proof {
            assert(dst@ =~= old(dst)@ + src@.take(i + 1));
        }
        i = i + 1;
    }
    proof {
        assert(old(dst)@ + src@.take(src@.len() as int) =~= old(dst)@ + src@);
    }
}

/// Builds the chunks of `groups` in reverse order, attaching the last group
/// to `attach_to`, and returns the attachment set that precedes the first
/// group: the entry points of everything built.
#[verifier::loop_isolation(false)]
pub fn create_chunks(chunks: &mut Chunks, groups: &Vec<Group>, attach_to: Vec<ChunkId>) -> (r:
    Vec<ChunkId>)
    ensures
        ({
            let out = build_groups_spec(
                groups_dv(groups@),
                ids_dv(attach_to@),
                old(chunks).inner@.len() as int,
            );
            &&& chunks_dv(final(chunks).inner@) == chunks_dv(old(chunks).inner@) + out.chunks
            &&& final(chunks).firsts == old(chunks).firsts
            &&& ids_dv(r@) == out.attach
        }),
    decreases groups_wt(groups_dv(groups@)),
{
    let ghost gs = groups_dv(groups@);
    let ghost ids0 = ids_dv(attach_to@);
    let ghost n0 = old(chunks).inner@.len() as int;
    let ghost out = build_groups_spec(gs, ids0, n0);
    proof {
        lemma_groups_dv(groups@);
    }
    let mut attach = attach_to;
    let mut i = groups.len();
    proof {
        assert(gs.take(i as int) =~= gs);
        assert(chunks_dv(chunks.inner@) + out.chunks =~= chunks_dv(old(chunks).inner@)
            + out.chunks);
    }
    while i > 0
        invariant
            i <= groups@.len(),
            ({
                let cur = build_groups_spec(
                    gs.take(i as int),
                    ids_dv(attach@),
                    chunks.inner@.len() as int,
                );
                &&& chunks_dv(chunks.inner@) + cur.chunks == chunks_dv(old(chunks).inner@)
                    + out.chunks
                &&& cur.attach == out.attach
            }),
            chunks.firsts == old(chunks).firsts,
        decreases i,
    {
        let ghost pre = gs.take(i as int);
        let ghost a_cur = ids_dv(attach@);
        let ghost n_cur = chunks.inner@.len() as int;
        let ghost o1 = build_group_spec(gs[i - 1], a_cur, n_cur);
        proof {
            assert(pre.last() == gs[i - 1]);
            assert(pre.drop_last() =~= gs.take(i - 1));
        }
        i = i - 1;
        match &groups[i] {
            Group::Simple(ts) => {
                let body = clone_tokens(ts);
                let ghost arena_before = chunks.inner@;
                let ghost attach_before = attach@;
                let id = chunks.allocate(Chunk { tokens: body, childs: attach });
                attach = Vec::new();
                attach.push(id);
                proof {
                    assert(gs[i as int] == group_dv(groups@[i as int]));
                    assert(o1.chunks == seq![
                        ChunkView { tokens: toks_dv(ts@), childs: ids_dv(attach_before) },
                    ]);
                    assert(o1.attach == seq![n_cur]);
                    assert(chunks_dv(chunks.inner@) =~= chunks_dv(arena_before) + o1.chunks);
                    assert(ids_dv(attach@) =~= o1.attach);
                    assert(chunks_dv(chunks.inner@) + build_groups_spec(
                        gs.take(i as int),
                        ids_dv(attach@),
                        chunks.inner@.len() as int,
                    ).chunks =~= chunks_dv(arena_before) + (o1.chunks + build_groups_spec(
                        gs.take(i as int),
                        ids_dv(attach@),
                        chunks.inner@.len() as int,
                    ).chunks));
                }
            },
            Group::Repetition { content, separator } => {
                proof {
                    assert(gs[i as int] == group_dv(groups@[i as int]));
                    lemma_groups_wt_elem(gs, i as int);
                    assert(groups_wt(groups_dv(content@)) < groups_wt(gs));
                }
                let ghost arena_before = chunks.inner@;
                let ghost attach_before = attach@;
                let ghost content_v = groups_dv(content@);
                let ghost one = build_groups_spec(content_v, a_cur, n_cur);
                let one_ids = create_chunks(chunks, content, clone_ids(&attach));
                append_ids(&mut attach, &one_ids);
                let ghost n1 = n_cur + one.chunks.len();
                proof {
                    assert(ids_dv(one_ids@) == one.attach);
                    assert(chunks.inner@.len() as int == n1) by {
                        assert(chunks_dv(chunks.inner@).len() == chunks_dv(arena_before).len()
                            + one.chunks.len());
                    }
                }
                match separator {
                    Some(sep) => {
                        let ghost two = build_groups_spec(content_v, seq![n1], n1 + 1);
                        let mut sep_tokens: Vec<Token> = Vec::new();
                        sep_tokens.push(sep.clone());
                        let ghost sep_chunk_v = ChunkView {
                            tokens: seq![sep@],
                            childs: one.attach,
                        };
                        proof {
                            assert(toks_dv(sep_tokens@) =~= seq![sep@]);
                        }
                        let ghost arena_mid = chunks.inner@;
                        let d = chunks.allocate(Chunk { tokens: sep_tokens, childs: one_ids });
                        let ghost arena_sep = chunks.inner@;
                        let mut second_attach: Vec<ChunkId> = Vec::new();
                        second_attach.push(d);
                        proof {
                            assert(ids_dv(second_attach@) =~= seq![n1]);
                            assert(chunk_dv(arena_sep.last()) == sep_chunk_v);
                            assert(chunks_dv(arena_sep) =~= chunks_dv(arena_mid) + seq![
                                sep_chunk_v,
                            ]);
                            assert(arena_sep.len() as int == n1 + 1);
                        }
                        let two_ids = create_chunks(chunks, content, second_attach);
                        append_ids(&mut attach, &two_ids);
                        proof {
                            assert(ids_dv(two_ids@) == two.attach);
                            assert(chunks_dv(chunks.inner@) == chunks_dv(arena_sep) + two.chunks);
                            assert(o1.chunks == one.chunks + seq![sep_chunk_v] + two.chunks);
                            assert(o1.attach == a_cur + one.attach + two.attach);
                            assert(chunks_dv(chunks.inner@) =~= chunks_dv(arena_before)
                                + o1.chunks);
                            assert(ids_dv(attach@) =~= a_cur + one.attach + two.attach);
                        }
                    },
                    None => {
                        let ghost two = build_groups_spec(content_v, one.attach, n1);
                        let two_ids = create_chunks(chunks, content, one_ids);
                        append_ids(&mut attach, &two_ids);
                        proof {
                            assert(ids_dv(two_ids@) == two.attach);
                            assert(o1.chunks == one.chunks + two.chunks);
                            assert(o1.attach == a_cur + one.attach + two.attach);
                            assert(chunks_dv(chunks.inner@) =~= chunks_dv(arena_before)
                                + o1.chunks);
                            assert(ids_dv(attach@) =~= a_cur + one.attach + two.attach);
                        }
                    },
                }
                proof {
                    assert(chunks_dv(chunks.inner@) + build_groups_spec(
                        gs.take(i as int),
                        ids_dv(attach@),
                        chunks.inner@.len() as int,
                    ).chunks =~= chunks_dv(arena_before) + (o1.chunks + build_groups_spec(
                        gs.take(i as int),
                        ids_dv(attach@),
                        chunks.inner@.len() as int,
                    ).chunks));
                }
            },
        }
        proof {
            assert(chunks.inner@.len() as int == n_cur + o1.chunks.len()) by {
                assert(chunks_dv(chunks.inner@).len() == chunks_dv(chunks.inner@).len());
            }
            assert(build_groups_spec(pre, a_cur, n_cur) == BuildOut {
                chunks: o1.chunks + build_groups_spec(
                    gs.take(i as int),
                    o1.attach,
                    n_cur + o1.chunks.len(),
                ).chunks,
                attach: build_groups_spec(gs.take(i as int), o1.attach, n_cur + o1.chunks.len())
                    .attach,
            });
        }
    }
    proof {
        assert(gs.take(0) =~= Seq::<GroupView>::empty());
        assert(chunks_dv(chunks.inner@) + Seq::<ChunkView>::empty() =~= chunks_dv(chunks.inner@));
    }
    attach
}

/// The whole pipeline on a character sequence: lex, build token trees,
/// collapse into groups, and build the chunk graph with no continuation
/// after the final group.
pub open spec fn expand_spec(s: Seq<char>) -> Result<ChunksView, Error> {
    match lex_spec(s) {
        Err(e) => Err(Error::Lex(e)),
        Ok(toks) => match parse_trees_spec(toks) {
            Err(e) => Err(Error::Parse(e)),
            Ok(trees) => {
                let out = build_groups_spec(collapse_spec(trees), Seq::empty(), 0);
                Ok(ChunksView { chunks: out.chunks, firsts: out.attach })
            },
        },
    }
}

/// Expands a template into its chunk graph, or reports the first failure.
pub fn of(input: &str) -> (r: Result<Chunks, Error>)
    ensures
        match r {
            Ok(c) => expand_spec(input@) == Ok::<ChunksView, Error>(c@),
            Err(e) => expand_spec(input@) == Err::<ChunksView, Error>(e),
        },
{
    let tokens = match lex_all(input) {
        Ok(t) => t,
        Err(e) => {
            return Err(Error::Lex(e));
        },
    };
    let ghost toks = toks_dv(tokens@);
    let stream = match parse_tokenstream(tokens) {
        Ok(s) => s,
        Err(e) => {
            return Err(Error::Parse(e));
        },
    };
    let ghost trees = trees_dv(stream@);
    let groups = create_groups(stream);
    let mut chunks = Chunks::new();
    let ghost empty_arena = chunks.inner@;
    let result = create_chunks(&mut chunks, &groups, Vec::new());
    proof {
        assert(ids_dv(Seq::<ChunkId>::empty()) =~= Seq::<int>::empty());
        let out = build_groups_spec(collapse_spec(trees), Seq::empty(), 0);
        assert(chunks_dv(chunks.inner@) =~= out.chunks) by {
            assert(chunks_dv(empty_arena) + out.chunks =~= out.chunks);
        }
    }
    chunks.firsts = result;
    Ok(chunks)
}

} // verus!
