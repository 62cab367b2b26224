use crate::errors::LexError;
use crate::lexer::{lex_prefix, lex_spec};
use crate::token::{toks_dv, Token};
use vstd::prelude::*;

verus! {

/// The set denoted by a duplicate-free list of pause identifiers.
pub open spec fn pset_of(s: Seq<usize>) -> Set<usize> {
    Set::new(|p: usize| s.contains(p))
}

/// One token stream: the tokens its program lexed to, a cursor, the lexing
/// failure the program ends in if it does not lex to the end, and the pause
/// identifiers currently holding the stream.
pub struct Stream {
    pub tokens: Vec<Token>,
    pub pos: usize,
    pub bad: Option<LexError>,
    pub id: usize,
    pub pauses: Vec<usize>,
}

impl Stream {
    pub open spec fn wf(&self) -> bool {
        &&& self.pos <= self.tokens@.len()
        &&& self.pauses@.no_duplicates()
    }

    /// Whether the stream is held by at least one pause identifier.
    pub open spec fn paused(&self) -> bool {
        self.pauses@.len() > 0
    }

    /// The set of pause identifiers holding the stream.
    pub open spec fn pset(&self) -> Set<usize> {
        pset_of(self.pauses@)
    }

    /// The tokens not yet consumed.
    pub open spec fn rem(&self) -> nat {
        if self.pos <= self.tokens@.len() {
            (self.tokens@.len() - self.pos) as nat
        } else {
            0
        }
    }

    /// Whether every pause identifier of the stream lies below `n`.
    pub open spec fn pauses_below(&self, n: usize) -> bool {
        forall|k: int| 0 <= k < self.pauses@.len() ==> #[trigger] self.pauses@[k] < n
    }

    pub fn id(&self) -> (r: usize)
        ensures
            r == self.id,
    {
        self.id
    }

    /// Whether the stream is supposed to be paused. A paused stream takes
    /// no part in parsing until every pause holding it is removed.
    pub fn is_paused(&self) -> (r: bool)
        ensures
            r == self.paused(),
    {
        self.pauses.len() > 0
    }

    /// Marks the stream as paused by `p`. Pausing twice with the same
    /// identifier holds the stream once.
    #[verifier::loop_isolation(false)]
    pub fn pause(&mut self, p: usize)
        requires
            old(self).wf(),
        ensures
            final(self).wf(),
            final(self).tokens == old(self).tokens,
            final(self).pos == old(self).pos,
            final(self).bad == old(self).bad,
            final(self).id == old(self).id,
            final(self).pset() == old(self).pset().insert(p),
            final(self).paused(),
            forall|n: usize| old(self).pauses_below(n) && p < n ==> final(self).pauses_below(n),
    {
        let mut found = false;
        let mut i: usize = 0;
        while i < self.pauses.len()
            invariant
                i <= self.pauses@.len(),
                self == old(self),
                found == exists|k: int| 0 <= k < i && #[trigger] self.pauses@[k] == p,
            decreases self.pauses@.len() - i,
        {
            if self.pauses[i] == p {
                found = true;
            }
            i = i + 1;
        }
        if !found {
            let ghost before = self.pauses@;
            self.pauses.push(p);
            proof {
                assert(!before.contains(p));
                assert forall|q: usize|
                    self.pauses@.contains(q) <==> (before.contains(q) || q == p) by {
                    if self.pauses@.contains(q) {
                        let k = choose|k: int|
                            0 <= k < self.pauses@.len() && self.pauses@[k] == q;
                        if k < before.len() {
                            assert(before[k] == q);
                        } else {
                            assert(q == p);
                        }
                    }
                    if before.contains(q) {
                        let k = choose|k: int| 0 <= k < before.len() && before[k] == q;
                        assert(self.pauses@[k] == q);
                    }
                    if q == p {
                        assert(self.pauses@[before.len() as int] == p);
                    }
                }
                assert(final(self).pset() =~= old(self).pset().insert(p));
            }
        } else {
            proof {
                assert(self.pauses@.contains(p));
                assert(final(self).pset() =~= old(self).pset().insert(p));
            }
        }
    }

    /// If the stream is held by `p`, releases that one pause; any other
    /// pause keeps holding it.
    #[verifier::loop_isolation(false)]
    pub fn maybe_unpause(&mut self, p: usize)
        requires
            old(self).wf(),
        ensures
            final(self).wf(),
            final(self).tokens == old(self).tokens,
            final(self).pos == old(self).pos,
            final(self).bad == old(self).bad,
            final(self).id == old(self).id,
            final(self).pset() == old(self).pset().remove(p),
            forall|n: usize| old(self).pauses_below(n) ==> final(self).pauses_below(n),
    {
        let ghost before = self.pauses@;
        let mut kept: Vec<usize> = Vec::new();
        let mut i: usize = 0;
        while i < self.pauses.len()
            invariant
                i <= self.pauses@.len(),
                self == old(self),
                before == self.pauses@,
                kept@.no_duplicates(),
                forall|q: usize|
                    #[trigger] kept@.contains(q) <==> (before.take(i as int).contains(q) && q
                        != p),
            decreases self.pauses@.len() - i,
        {
            let q0 = self.pauses[i];
            if q0 != p {
                let ghost kept_before = kept@;
                proof {
                    assert(!kept@.contains(q0)) by {
                        if before.take(i as int).contains(q0) {
                            let k = choose|k: int|
                                0 <= k < i && #[trigger] before.take(i as int)[k] == q0;
                            assert(before[k] == q0 && before[i as int] == q0);
                        }
                    }
                }
                kept.push(q0);
                proof {
                    assert forall|q: usize|
                        #[trigger] kept@.contains(q) <==> (before.take(i + 1).contains(q) && q
                            != p) by {
                        if kept@.contains(q) {
                            let k = choose|k: int| 0 <= k < kept@.len() && kept@[k] == q;
                            if k < kept_before.len() {
                                assert(kept_before[k] == q);
                                assert(kept_before.contains(q));
                                let k2 = choose|k2: int|
                                    0 <= k2 < i && #[trigger] before.take(i as int)[k2] == q;
                                assert(before.take(i + 1)[k2] == q);
                            } else {
                                assert(q == q0);
                                assert(before.take(i + 1)[i as int] == q0);
                            }
                        }
                        if before.take(i + 1).contains(q) && q != p {
                            let k = choose|k: int| 0 <= k < i + 1 && #[trigger] before.take(i + 1)[k] == q;
                            if k < i {
                                assert(before.take(i as int)[k] == q);
                                assert(kept_before.contains(q));
                                let k2 = choose|k2: int|
                                    0 <= k2 < kept_before.len() && kept_before[k2] == q;
                                assert(kept@[k2] == q);
                            } else {
                                assert(q == q0);
                                assert(kept@[kept_before.len() as int] == q0);
                            }
                        }
                    }
                }
            } else {
                proof {
                    assert forall|q: usize|
                        #[trigger] kept@.contains(q) <==> (before.take(i + 1).contains(q) && q
                            != p) by {
                        if before.take(i + 1).contains(q) && q != p {
                            let k = choose|k: int| 0 <= k < i + 1 && #[trigger] before.take(i + 1)[k] == q;
                            assert(k < i);
                            assert(before.take(i as int)[k] == q);
                        }
                        if kept@.contains(q) {
                            let k = choose|k: int|
                                0 <= k < i && #[trigger] before.take(i as int)[k] == q;
                            assert(before.take(i + 1)[k] == q);
                        }
                    }
                }
            }
            i = i + 1;
        }
        proof {
            assert(before.take(before.len() as int) =~= before);
        }
        self.pauses = kept;
        proof {
            assert(final(self).pset() =~= old(self).pset().remove(p));
            assert forall|n: usize| old(self).pauses_below(n) implies final(self).pauses_below(
                n,
            ) by {
                assert forall|k: int|
                    0 <= k < self.pauses@.len() implies #[trigger] self.pauses@[k] < n by {
                    let q = self.pauses@[k];
                    assert(self.pauses@.contains(q));
                    assert(before.contains(q));
                    let k2 = choose|k2: int| 0 <= k2 < before.len() && before[k2] == q;
                    assert(before[k2] < n);
                }
            }
        }
    }
}

/// The collection of streams driven in lockstep by the parser.
pub struct Streams {
    pub streams: Vec<Stream>,
}

impl Streams {
    pub open spec fn wf(&self) -> bool {
        forall|i: int|
            0 <= i < self.streams@.len() ==> (#[trigger] self.streams@[i]).wf()
                && self.streams@[i].id == i
    }

    /// Whether no stream is held by any pause identifier yet.
    pub open spec fn fresh(&self) -> bool {
        forall|i: int|
            0 <= i < self.streams@.len() ==> (#[trigger] self.streams@[i]).pauses@.len() == 0
    }

    pub fn new() -> (r: Streams)
        ensures
            r.wf(),
            r.fresh(),
            r.streams@.len() == 0,
    {
        Streams { streams: Vec::new() }
    }

    /// Adds a stream for `program`. The stream holds the tokens the program
    /// lexes to; if the program does not lex to the end, the stream ends in
    /// that lexing failure instead of running dry silently.
    pub fn add(&mut self, program: &str)
        requires
            old(self).wf(),
        ensures
            final(self).wf(),
            final(self).streams@.len() == old(self).streams@.len() + 1,
            final(self).streams@.drop_last() == old(self).streams@,
            ({
                let s = final(self).streams@.last();
                &&& s.pos == 0
                &&& s.pauses@.len() == 0
                &&& match s.bad {
                    None => lex_spec(program@) == Ok::<_, LexError>(toks_dv(s.tokens@)),
                    Some(e) => lex_spec(program@) == Err::<Seq<crate::token::TokenView>, LexError>(
                        e,
                    ),
                }
            }),
            old(self).fresh() ==> final(self).fresh(),
    {
        let (tokens, bad) = lex_prefix(program);
        let id = self.streams.len();
        let ghost before = self.streams@;
        self.streams.push(Stream { tokens, pos: 0, bad, id, pauses: Vec::new() });
        proof {
            assert(final(self).streams@.drop_last() =~= before);
        }
    }
}

} // verus!
