use crate::errors::Error;
use crate::state::{
    element_end_rel, lemma_mu_strict, lemma_srem_le, lemma_srem_strict, mu_seq, op_step_rel,
    pauses_preserved, pos_mono, srem_seq, stable, stream_mu, State, TAG_ARRAY, TAG_CLOSE,
    TAG_FALLBACK, TAG_NESTED, TAG_OTHER, TAG_REPEAT,
};

use crate::streams::Stream;
use crate::token::Token;
use vstd::prelude::*;

verus! {

/// What a whole parsing pass guarantees: stream contents and identities
/// are untouched, cursors only move forward, and pause identifiers handed
/// out before the pass are neither added to nor removed from any stream.
pub open spec fn parse_frame(a: State, b: State) -> bool {
    &&& stable(a.ss(), b.ss())
    &&& pos_mono(a.ss(), b.ss())
    &&& b.next_pause >= a.next_pause
    &&& pauses_preserved(a.ss(), b.ss(), a.next_pause)
}

/// The one-sided variant: pause identifiers handed out before `a` are
/// never removed, though steps in between may add pauses of their own.
pub open spec fn kept_frame(a: State, b: State) -> bool {
    &&& stable(a.ss(), b.ss())
    &&& pos_mono(a.ss(), b.ss())
    &&& b.next_pause >= a.next_pause
    &&& forall|i: int, q: usize|
        0 <= i < a.ss().len() && q < a.next_pause && (#[trigger] a.ss()[i].pset().contains(q))
            ==> b.ss()[i].pset().contains(q)
}

pub proof fn lemma_frame_implies_kept(a: State, b: State)
    requires
        parse_frame(a, b),
    ensures
        kept_frame(a, b),
{
    assert forall|i: int, q: usize|
        0 <= i < a.ss().len() && q < a.next_pause && (#[trigger] a.ss()[i].pset().contains(
        q,
    )) implies b.ss()[i].pset().contains(q) by {
        assert(b.ss()[i].pset().contains(q) <==> a.ss()[i].pset().contains(q));
    }
}

pub proof fn lemma_frame_trans(a: State, b: State, c: State)
    requires
        parse_frame(a, b),
        parse_frame(b, c),
    ensures
        parse_frame(a, c),
{
    assert forall|i: int, p: usize|
        0 <= i < a.ss().len() && p < a.next_pause implies ((#[trigger] c.ss()[i].pset().contains(
        p,
    )) <==> a.ss()[i].pset().contains(p)) by {
        assert(b.ss()[i].pset().contains(p) <==> a.ss()[i].pset().contains(p));
        assert(c.ss()[i].pset().contains(p) <==> b.ss()[i].pset().contains(p));
    }
}

pub proof fn lemma_kept_trans(a: State, b: State, c: State)
    requires
        kept_frame(a, b),
        kept_frame(b, c),
    ensures
        kept_frame(a, c),
{
    assert forall|i: int, q: usize|
        0 <= i < a.ss().len() && q < a.next_pause && (#[trigger] a.ss()[i].pset().contains(
        q,
    )) implies c.ss()[i].pset().contains(q) by {
        assert(b.ss()[i].pset().contains(q));
    }
}

/// A step that leaves every pause set alone extends the frame.
pub proof fn lemma_frame_eq_step(a: State, b: State, c: State)
    requires
        parse_frame(a, b),
        stable(b.ss(), c.ss()),
        pos_mono(b.ss(), c.ss()),
        c.next_pause >= b.next_pause,
        forall|i: int|
            0 <= i < b.ss().len() ==> (#[trigger] c.ss()[i]).pset() == b.ss()[i].pset(),
    ensures
        parse_frame(a, c),
        kept_frame(b, c),
{
    assert forall|i: int, p: usize|
        0 <= i < a.ss().len() && p < a.next_pause implies ((#[trigger] c.ss()[i].pset().contains(
        p,
    )) <==> a.ss()[i].pset().contains(p)) by {
        assert(b.ss()[i].pset().contains(p) <==> a.ss()[i].pset().contains(p));
    }
}

/// A step that at most adds one pause identifier from beyond `a`'s range
/// extends the frame.
pub proof fn lemma_frame_insert_step(a: State, b: State, c: State, p: usize)
    requires
        parse_frame(a, b),
        stable(b.ss(), c.ss()),
        pos_mono(b.ss(), c.ss()),
        c.next_pause >= b.next_pause,
        p >= a.next_pause,
        forall|i: int|
            0 <= i < b.ss().len() ==> ((#[trigger] c.ss()[i]).pset() == b.ss()[i].pset() || c.ss()[
                i].pset() == b.ss()[i].pset().insert(p)),
    ensures
        parse_frame(a, c),
        kept_frame(b, c),
{
    assert forall|i: int, q: usize|
        0 <= i < a.ss().len() && q < a.next_pause implies ((#[trigger] c.ss()[i].pset().contains(
        q,
    )) <==> a.ss()[i].pset().contains(q)) by {
        assert(b.ss()[i].pset().contains(q) <==> a.ss()[i].pset().contains(q));
    }
    assert forall|i: int, q: usize|
        0 <= i < b.ss().len() && q < b.next_pause && (#[trigger] b.ss()[i].pset().contains(
        q,
    )) implies c.ss()[i].pset().contains(q) by {}
}

/// A step that only adds pauses — with any identifier — keeps every pause
/// that was in force.
pub proof fn lemma_kept_insert_step(a: State, b: State, c: State, p: usize)
    requires
        kept_frame(a, b),
        stable(b.ss(), c.ss()),
        pos_mono(b.ss(), c.ss()),
        c.next_pause >= b.next_pause,
        forall|i: int|
            0 <= i < b.ss().len() ==> ((#[trigger] c.ss()[i]).pset() == b.ss()[i].pset() || c.ss()[
                i].pset() == b.ss()[i].pset().insert(p)),
    ensures
        kept_frame(a, c),
{
    assert forall|i: int, q: usize|
        0 <= i < a.ss().len() && q < a.next_pause && (#[trigger] a.ss()[i].pset().contains(
        q,
    )) implies c.ss()[i].pset().contains(q) by {
        assert(b.ss()[i].pset().contains(q));
    }
}

/// A step that removes one pause identifier from beyond `a`'s range
/// extends the frame.
pub proof fn lemma_frame_remove_step(a: State, b: State, c: State, p: usize)
    requires
        parse_frame(a, b),
        stable(b.ss(), c.ss()),
        pos_mono(b.ss(), c.ss()),
        c.next_pause >= b.next_pause,
        p >= a.next_pause,
        forall|i: int|
            0 <= i < b.ss().len() ==> (#[trigger] c.ss()[i]).pset() == b.ss()[i].pset().remove(p),
    ensures
        parse_frame(a, c),
{
    assert forall|i: int, q: usize|
        0 <= i < a.ss().len() && q < a.next_pause implies ((#[trigger] c.ss()[i].pset().contains(
        q,
    )) <==> a.ss()[i].pset().contains(q)) by {
        assert(b.ss()[i].pset().contains(q) <==> a.ss()[i].pset().contains(q));
    }
}

/// The same, one-sided, for pauses in force at `a`.
pub proof fn lemma_kept_remove_step(a: State, b: State, c: State, p: usize)
    requires
        kept_frame(a, b),
        stable(b.ss(), c.ss()),
        pos_mono(b.ss(), c.ss()),
        c.next_pause >= b.next_pause,
        p >= a.next_pause,
        forall|i: int|
            0 <= i < b.ss().len() ==> (#[trigger] c.ss()[i]).pset() == b.ss()[i].pset().remove(p),
    ensures
        kept_frame(a, c),
{
    assert forall|i: int, q: usize|
        0 <= i < a.ss().len() && q < a.next_pause && (#[trigger] a.ss()[i].pset().contains(
        q,
    )) implies c.ss()[i].pset().contains(q) by {
        assert(b.ss()[i].pset().contains(q));
    }
}

/// Every stream that is still awake consumed a token this round, paused
/// streams stayed paused, and at least one stream was awake: the loop
/// measure shrinks.
pub proof fn lemma_iteration_mu(a: Seq<Stream>, b: Seq<Stream>, j: int)
    requires
        a.len() == b.len(),
        0 <= j < a.len(),
        !a[j].paused(),
        stable(a, b),
        pos_mono(a, b),
        forall|i: int| 0 <= i < a.len() ==> (#[trigger] a[i]).pos <= a[i].tokens@.len(),
        forall|i: int| 0 <= i < b.len() ==> (#[trigger] b[i]).pos <= b[i].tokens@.len(),
        forall|i: int| 0 <= i < a.len() && (#[trigger] a[i]).paused() ==> b[i].paused(),
        forall|i: int| 0 <= i < a.len() && !(#[trigger] b[i]).paused() ==> b[i].pos > a[i].pos,
    ensures
        mu_seq(b) < mu_seq(a),
{
    assert forall|i: int| 0 <= i < a.len() implies stream_mu(#[trigger] b[i]) <= stream_mu(
        a[i],
    ) by {
        if !b[i].paused() {
            assert(!a[i].paused());
        }
    }
    assert(stream_mu(b[j]) < stream_mu(a[j])) by {
        if !b[j].paused() {
            assert(b[j].pos > a[j].pos);
        }
    }
    lemma_mu_strict(a, b, j);
}

/// Cursors only moved forward, so no stream has more work than before.
pub proof fn lemma_srem_from_frame(a: State, b: State)
    requires
        stable(a.ss(), b.ss()),
        pos_mono(a.ss(), b.ss()),
    ensures
        srem_seq(b.ss()) <= srem_seq(a.ss()),
{
    assert forall|i: int| 0 <= i < a.ss().len() implies (#[trigger] b.ss()[i]).rem() <= a.ss()[
        i].rem() by {}
    lemma_srem_le(a.ss(), b.ss());
}

/// One stream is known to have consumed a token: strictly less work
/// remains overall.
pub proof fn lemma_srem_strict_from_frame(a: State, b: State, j: int)
    requires
        stable(a.ss(), b.ss()),
        pos_mono(a.ss(), b.ss()),
        0 <= j < a.ss().len(),
        b.ss()[j].pos > a.ss()[j].pos,
        a.ss()[j].pos < a.ss()[j].tokens@.len(),
    ensures
        srem_seq(b.ss()) < srem_seq(a.ss()),
{
    assert forall|i: int| 0 <= i < a.ss().len() implies (#[trigger] b.ss()[i]).rem() <= a.ss()[
        i].rem() by {}
    lemma_srem_strict(a.ss(), b.ss(), j);
}

/// Whether any stream carries the given class.
pub fn contains_tag(tags: &Vec<u8>, t: u8) -> (r: bool)
    ensures
        r == tags@.contains(t),
{
    let mut i: usize = 0;
    while i < tags.len()
        invariant
            i <= tags@.len(),
            forall|k: int| 0 <= k < i ==> tags@[k] != t,
        decreases tags@.len() - i,
    {
        if tags[i] == t {
            proof {
                assert(tags@[i as int] == t);
            }
            return true;
        }
        i = i + 1;
    }
    proof {
        if tags@.contains(t) {
            let k = choose|k: int| 0 <= k < tags@.len() && tags@[k] == t;
        }
    }
    false
}

/// Parses one expression — a value, a parenthesized expression or an array,
/// followed by any run of binary operators — from every unpaused stream in
/// lockstep. Streams whose expression ends fall silent until the whole
/// round is over; a stream whose next token fits no rule fails the parse.
#[verifier::loop_isolation(false)]
pub fn parse_expression(state: &mut State) -> (r: Result<(), Error>)
    requires
        old(state).wf(),
    ensures
        final(state).wf(),
        parse_frame(*old(state), *final(state)),
    decreases srem_seq(old(state).ss()), 1int,
{
    let ghost s0 = *state;
    let pause = match state.fresh_pause() {
        Ok(p) => p,
        Err(e) => {
            return Err(e);
        },
    };
    while state.is_any_unpaused()
        invariant
            state.wf(),
            parse_frame(s0, *state),
            pause >= s0.next_pause,
            pause < state.next_pause,
        decreases mu_seq(state.ss()),
    {
        let ghost it0 = *state;
        let ghost jw = choose|j: int|
            0 <= j < it0.ss().len() && !(#[trigger] it0.ss()[j]).paused();
        let tags = match state.classify_expr() {
            Ok(t) => t,
            Err(e) => {
                return Err(e);
            },
        };
        // plain values first, then parenthesized expressions, then arrays
        if contains_tag(&tags, TAG_FALLBACK) {
            let p = match state.fresh_pause() {
                Ok(p) => p,
                Err(e) => {
                    return Err(e);
                },
            };
            let ghost g1 = *state;
            state.pause_others(&tags, TAG_FALLBACK, p);
            proof {
                lemma_frame_insert_step(s0, g1, *state, p);
                lemma_kept_insert_step(it0, g1, *state, p);
            }
            let ghost g2 = *state;
            match state.next_value() {
                Ok(()) => {
                    proof {
                        lemma_frame_eq_step(s0, g2, *state);
                        lemma_kept_trans(it0, g2, *state);
                    }
                },
                Err(e) => {
                    proof {
                        lemma_frame_eq_step(s0, g2, *state);
                    }
                    return Err(e);
                },
            }
            let ghost g3 = *state;
            state.unpause(p);
            proof {
                lemma_frame_remove_step(s0, g3, *state, p);
                lemma_kept_remove_step(it0, g3, *state, p);
            }
        }
        if contains_tag(&tags, TAG_NESTED) {
            let p = match state.fresh_pause() {
                Ok(p) => p,
                Err(e) => {
                    return Err(e);
                },
            };
            let ghost g1 = *state;
            state.pause_others(&tags, TAG_NESTED, p);
            proof {
                lemma_frame_insert_step(s0, g1, *state, p);
                lemma_kept_insert_step(it0, g1, *state, p);
            }
            let ghost g2 = *state;
            match state.expect(&Token::OpenParen) {
                Ok(()) => {
                    proof {
                        lemma_frame_eq_step(s0, g2, *state);
                        lemma_kept_trans(it0, g2, *state);
                    }
                },
                Err(e) => {
                    proof {
                        lemma_frame_eq_step(s0, g2, *state);
                    }
                    return Err(e);
                },
            }
            if state.is_any_unpaused() {
                proof {
                    let j = choose|j: int|
                        0 <= j < state.ss().len() && !(#[trigger] state.ss()[j]).paused();
                    assert(g2.ss()[j].pauses == state.ss()[j].pauses);
                    assert(!g2.ss()[j].paused());
                    assert(state.ss()[j].pos == g2.ss()[j].pos + 1);
                    lemma_srem_strict_from_frame(g2, *state, j);
                    lemma_srem_from_frame(s0, g2);
                }
                let ghost g3 = *state;
                match parse_expression(state) {
                    Ok(()) => {
                        proof {
                            lemma_frame_trans(s0, g3, *state);
                            lemma_frame_implies_kept(g3, *state);
                            lemma_kept_trans(it0, g3, *state);
                        }
                    },
                    Err(e) => {
                        proof {
                            lemma_frame_trans(s0, g3, *state);
                        }
                        return Err(e);
                    },
                }
            }
            let ghost g4 = *state;
            match state.expect(&Token::CloseParen) {
                Ok(()) => {
                    proof {
                        lemma_frame_eq_step(s0, g4, *state);
                        lemma_kept_trans(it0, g4, *state);
                    }
                },
                Err(e) => {
                    proof {
                        lemma_frame_eq_step(s0, g4, *state);
                    }
                    return Err(e);
                },
            }
            let ghost g5 = *state;
            state.unpause(p);
            proof {
                lemma_frame_remove_step(s0, g5, *state, p);
                lemma_kept_remove_step(it0, g5, *state, p);
            }
        }
        if contains_tag(&tags, TAG_ARRAY) {
            let p = match state.fresh_pause() {
                Ok(p) => p,
                Err(e) => {
                    return Err(e);
                },
            };
            let ghost g1 = *state;
            state.pause_others(&tags, TAG_ARRAY, p);
            proof {
                lemma_frame_insert_step(s0, g1, *state, p);
                lemma_kept_insert_step(it0, g1, *state, p);
                lemma_srem_from_frame(s0, *state);
            }
            let ghost g2 = *state;
            match parse_array(state) {
                Ok(()) => {
                    proof {
                        lemma_frame_trans(s0, g2, *state);
                        lemma_frame_implies_kept(g2, *state);
                        lemma_kept_trans(it0, g2, *state);
                    }
                },
                Err(e) => {
                    proof {
                        lemma_frame_trans(s0, g2, *state);
                    }
                    return Err(e);
                },
            }
            let ghost g3 = *state;
            state.unpause(p);
            proof {
                lemma_frame_remove_step(s0, g3, *state, p);
                lemma_kept_remove_step(it0, g3, *state, p);
            }
        }
        let ghost g_op = *state;
        match state.op_step(pause) {
            Ok(()) => {
                proof {
                    lemma_frame_insert_step(s0, g_op, *state, pause);
                    lemma_kept_insert_step(it0, g_op, *state, pause);
                }
            },
            Err(e) => {
                proof {
                    lemma_frame_insert_step(s0, g_op, *state, pause);
                }
                return Err(e);
            },
        }
        proof {
            // the loop measure shrinks: nothing woke up, and whatever is
            // still awake consumed a token in the operator step
            assert forall|i: int|
                0 <= i < it0.ss().len() && (#[trigger] it0.ss()[i]).paused() implies state.ss()[
                i].paused() by {
                let q = it0.ss()[i].pauses@[0];
                assert(it0.ss()[i].pset().contains(q));
                assert(it0.ss()[i].pauses_below(it0.next_pause));
                assert(state.ss()[i].pset().contains(q));
            }
            assert forall|i: int|
                0 <= i < it0.ss().len() && !(#[trigger] state.ss()[i]).paused() implies state.ss()[
                i].pos > it0.ss()[i].pos by {
                assert(op_step_rel(g_op.ss()[i], state.ss()[i], pause));
                assert(!g_op.ss()[i].paused());
                assert(state.ss()[i].pos == g_op.ss()[i].pos + 1);
                assert(g_op.ss()[i].pos >= it0.ss()[i].pos);
            }
            lemma_iteration_mu(it0.ss(), state.ss(), jw);
        }
    }
    let ghost g_end = *state;
    state.unpause(pause);
    proof {
        lemma_frame_remove_step(s0, g_end, *state, pause);
    }
    Ok(())
}

/// Parses one array — `[]`, `[expr; count]`, or a comma-separated element
/// list with an optional trailing comma — from every unpaused stream in
/// lockstep. On success every stream that took part consumed at least its
/// opening bracket.
#[verifier::loop_isolation(false)]
pub fn parse_array(state: &mut State) -> (r: Result<(), Error>)
    requires
        old(state).wf(),
    ensures
        final(state).wf(),
        parse_frame(*old(state), *final(state)),
        r is Ok ==> forall|i: int|
            0 <= i < old(state).ss().len() && !(#[trigger] old(state).ss()[i]).paused()
                ==> final(state).ss()[i].pos > old(state).ss()[i].pos,
    decreases srem_seq(old(state).ss()), 0int,
{
    let ghost s0 = *state;
    let pause = match state.fresh_pause() {
        Ok(p) => p,
        Err(e) => {
            return Err(e);
        },
    };
    let ghost g_in = *state;
    match state.expect(&Token::OpenSquare) {
        Ok(()) => {},
        Err(e) => {
            proof {
                lemma_frame_eq_step(s0, g_in, *state);
            }
            return Err(e);
        },
    }
    proof {
        lemma_frame_eq_step(s0, g_in, *state);
    }
    // from here on, every stream that was awake at entry has consumed `[`
    let ghost consumed = |st: State|
        forall|i: int|
            0 <= i < s0.ss().len() && !(#[trigger] s0.ss()[i]).paused() ==> st.ss()[i].pos > s0.ss()[
                i].pos && s0.ss()[i].pos < s0.ss()[i].tokens@.len();
    proof {
        assert(consumed(*state));
    }
    let ghost g_open = *state;
    match state.close_step(pause) {
        Ok(()) => {},
        Err(e) => {
            proof {
                lemma_frame_insert_step(s0, g_open, *state, pause);
            }
            return Err(e);
        },
    }
    proof {
        lemma_frame_insert_step(s0, g_open, *state, pause);
        assert(consumed(*state));
    }
    if state.is_any_unpaused() {
        proof {
            let j = choose|j: int|
                0 <= j < state.ss().len() && !(#[trigger] state.ss()[j]).paused();
            assert(!s0.ss()[j].paused()) by {
                if s0.ss()[j].paused() {
                    let q = s0.ss()[j].pauses@[0];
                    assert(s0.ss()[j].pset().contains(q));
                    assert(s0.ss()[j].pauses_below(s0.next_pause));
                    assert(state.ss()[j].pset().contains(q));
                }
            }
            lemma_srem_strict_from_frame(s0, *state, j);
        }
        let ghost g_e1 = *state;
        match parse_expression(state) {
            Ok(()) => {},
            Err(e) => {
                proof {
                    lemma_frame_trans(s0, g_e1, *state);
                }
                return Err(e);
            },
        }
        proof {
            lemma_frame_trans(s0, g_e1, *state);
            assert(consumed(*state));
        }
    }
    let tags = match state.classify_array() {
        Ok(t) => t,
        Err(e) => {
            return Err(e);
        },
    };
    // a repeat expression: `[ element ; count ]`
    if contains_tag(&tags, TAG_REPEAT) {
        let p = match state.fresh_pause() {
            Ok(p) => p,
            Err(e) => {
                return Err(e);
            },
        };
        let ghost g1 = *state;
        state.pause_others(&tags, TAG_REPEAT, p);
        proof {
            lemma_frame_insert_step(s0, g1, *state, p);
            assert(consumed(*state));
        }
        let ghost g2 = *state;
        match state.expect(&Token::Semicolon) {
            Ok(()) => {},
            Err(e) => {
                proof {
                    lemma_frame_eq_step(s0, g2, *state);
                }
                return Err(e);
            },
        }
        proof {
            lemma_frame_eq_step(s0, g2, *state);
            assert(consumed(*state));
        }
        if state.is_any_unpaused() {
            proof {
                let j = choose|j: int|
                    0 <= j < state.ss().len() && !(#[trigger] state.ss()[j]).paused();
                assert(!s0.ss()[j].paused()) by {
                    if s0.ss()[j].paused() {
                        let q = s0.ss()[j].pauses@[0];
                        assert(s0.ss()[j].pset().contains(q));
                        assert(s0.ss()[j].pauses_below(s0.next_pause));
                        assert(state.ss()[j].pset().contains(q));
                    }
                }
                lemma_srem_strict_from_frame(s0, *state, j);
            }
            let ghost g3 = *state;
            match parse_expression(state) {
                Ok(()) => {},
                Err(e) => {
                    proof {
                        lemma_frame_trans(s0, g3, *state);
                    }
                    return Err(e);
                },
            }
            proof {
                lemma_frame_trans(s0, g3, *state);
                assert(consumed(*state));
            }
        }
        let ghost g4 = *state;
        match state.expect(&Token::CloseSquare) {
            Ok(()) => {},
            Err(e) => {
                proof {
                    lemma_frame_eq_step(s0, g4, *state);
                }
                return Err(e);
            },
        }
        proof {
            lemma_frame_eq_step(s0, g4, *state);
        }
        let ghost g5 = *state;
        state.unpause(p);
        proof {
            lemma_frame_remove_step(s0, g5, *state, p);
            assert(consumed(*state));
        }
    }
    // a one-element array without a trailing comma
    if contains_tag(&tags, TAG_CLOSE) {
        let p = match state.fresh_pause() {
            Ok(p) => p,
            Err(e) => {
                return Err(e);
            },
        };
        let ghost g1 = *state;
        state.pause_others(&tags, TAG_CLOSE, p);
        proof {
            lemma_frame_insert_step(s0, g1, *state, p);
        }
        let ghost g2 = *state;
        match state.expect(&Token::CloseSquare) {
            Ok(()) => {},
            Err(e) => {
                proof {
                    lemma_frame_eq_step(s0, g2, *state);
                }
                return Err(e);
            },
        }
        proof {
            lemma_frame_eq_step(s0, g2, *state);
        }
        let ghost g3 = *state;
        state.unpause(p);
        proof {
            lemma_frame_remove_step(s0, g3, *state, p);
            assert(consumed(*state));
        }
    }
    // a regular element list, with or without a trailing comma
    if contains_tag(&tags, TAG_OTHER) {
        let p = match state.fresh_pause() {
            Ok(p) => p,
            Err(e) => {
                return Err(e);
            },
        };
        let ghost g1 = *state;
        state.pause_others(&tags, TAG_OTHER, p);
        proof {
            lemma_frame_insert_step(s0, g1, *state, p);
        }
        let ghost g2 = *state;
        match state.expect(&Token::Comma) {
            Ok(()) => {},
            Err(e) => {
                proof {
                    lemma_frame_eq_step(s0, g2, *state);
                }
                return Err(e);
            },
        }
        proof {
            lemma_frame_eq_step(s0, g2, *state);
        }
        let p2 = match state.fresh_pause() {
            Ok(p) => p,
            Err(e) => {
                return Err(e);
            },
        };
        while state.is_any_unpaused()
            invariant
                state.wf(),
                parse_frame(s0, *state),
                consumed(*state),
                p2 >= s0.next_pause,
                p2 < state.next_pause,
            decreases mu_seq(state.ss()),
        {
            let ghost it0 = *state;
            let ghost jw = choose|j: int|
                0 <= j < it0.ss().len() && !(#[trigger] it0.ss()[j]).paused();
            let ghost g_c = *state;
            match state.close_step(p2) {
                Ok(()) => {
                    proof {
                        lemma_frame_insert_step(s0, g_c, *state, p2);
                        lemma_kept_insert_step(it0, g_c, *state, p2);
                    }
                },
                Err(e) => {
                    proof {
                        lemma_frame_insert_step(s0, g_c, *state, p2);
                    }
                    return Err(e);
                },
            }
            if state.is_any_unpaused() {
                proof {
                    let j = choose|j: int|
                        0 <= j < state.ss().len() && !(#[trigger] state.ss()[j]).paused();
                    assert(!s0.ss()[j].paused()) by {
                        if s0.ss()[j].paused() {
                            let q = s0.ss()[j].pauses@[0];
                            assert(s0.ss()[j].pset().contains(q));
                            assert(s0.ss()[j].pauses_below(s0.next_pause));
                            assert(state.ss()[j].pset().contains(q));
                        }
                    }
                    lemma_srem_strict_from_frame(s0, *state, j);
                }
                let ghost g_e = *state;
                match parse_expression(state) {
                    Ok(()) => {
                        proof {
                            lemma_frame_trans(s0, g_e, *state);
                            lemma_frame_implies_kept(g_e, *state);
                            lemma_kept_trans(it0, g_e, *state);
                        }
                    },
                    Err(e) => {
                        proof {
                            lemma_frame_trans(s0, g_e, *state);
                        }
                        return Err(e);
                    },
                }
            }
            let ghost g_n = *state;
            match state.element_end(p2) {
                Ok(()) => {
                    proof {
                        lemma_frame_insert_step(s0, g_n, *state, p2);
                        lemma_kept_insert_step(it0, g_n, *state, p2);
                    }
                },
                Err(e) => {
                    proof {
                        lemma_frame_insert_step(s0, g_n, *state, p2);
                    }
                    return Err(e);
                },
            }
            proof {
                assert forall|i: int|
                    0 <= i < it0.ss().len() && (#[trigger] it0.ss()[i]).paused()
                    implies state.ss()[i].paused() by {
                    let q = it0.ss()[i].pauses@[0];
                    assert(it0.ss()[i].pset().contains(q));
                    assert(it0.ss()[i].pauses_below(it0.next_pause));
                    assert(state.ss()[i].pset().contains(q));
                }
                assert forall|i: int|
                    0 <= i < it0.ss().len() && !(#[trigger] state.ss()[i]).paused()
                    implies state.ss()[i].pos > it0.ss()[i].pos by {
                    assert(element_end_rel(g_n.ss()[i], state.ss()[i], p2));
                    assert(!g_n.ss()[i].paused());
                    assert(state.ss()[i].pos == g_n.ss()[i].pos + 1);
                    assert(g_n.ss()[i].pos >= it0.ss()[i].pos);
                }
                lemma_iteration_mu(it0.ss(), state.ss(), jw);
            }
        }
        let ghost g_u1 = *state;
        state.unpause(p2);
        proof {
            lemma_frame_remove_step(s0, g_u1, *state, p2);
        }
        let ghost g_u2 = *state;
        state.unpause(p);
        proof {
            lemma_frame_remove_step(s0, g_u2, *state, p);
            assert(consumed(*state));
        }
    }
    let ghost g_end = *state;
    state.unpause(pause);
    proof {
        lemma_frame_remove_step(s0, g_end, *state, pause);
        assert(consumed(*state));
    }
    Ok(())
}

} // verus!
