use crate::errors::Error;
use crate::streams::{Stream, Streams};
use crate::token::{token_eq, Token, TokenView};
use vstd::prelude::*;

verus! {

/// Stream classes while parsing an expression.
pub const TAG_SKIP: u8 = 0;

pub const TAG_ARRAY: u8 = 1;

pub const TAG_NESTED: u8 = 2;

pub const TAG_FALLBACK: u8 = 3;

/// Stream classes after the first element of an array.
pub const TAG_REPEAT: u8 = 1;

pub const TAG_CLOSE: u8 = 2;

pub const TAG_OTHER: u8 = 3;

/// The lockstep parsing state: the streams driven in parallel, and the
/// source of fresh pause identifiers.
pub struct State {
    pub streams: Streams,
    pub next_pause: usize,
}

/// Tokens, lexing outcome and identity of every stream are untouched.
pub open spec fn stable(a: Seq<Stream>, b: Seq<Stream>) -> bool {
    &&& a.len() == b.len()
    &&& forall|i: int|
        0 <= i < a.len() ==> {
            &&& (#[trigger] b[i]).tokens == a[i].tokens
            &&& b[i].bad == a[i].bad
            &&& b[i].id == a[i].id
        }
}

/// No stream ever moves backwards.
pub open spec fn pos_mono(a: Seq<Stream>, b: Seq<Stream>) -> bool {
    a.len() == b.len() && forall|i: int| 0 <= i < a.len() ==> (#[trigger] b[i]).pos >= a[i].pos
}

/// Pause identifiers below `n` are neither added nor removed.
pub open spec fn pauses_preserved(a: Seq<Stream>, b: Seq<Stream>, n: usize) -> bool {
    a.len() == b.len() && forall|i: int, p: usize|
        0 <= i < a.len() && p < n ==> ((#[trigger] b[i].pset().contains(p))
            <==> a[i].pset().contains(p))
}

impl State {
    pub open spec fn ss(&self) -> Seq<Stream> {
        self.streams.streams@
    }

    pub open spec fn wf(&self) -> bool {
        &&& self.streams.wf()
        &&& forall|i: int|
            0 <= i < self.ss().len() ==> (#[trigger] self.ss()[i]).pauses_below(self.next_pause)
    }

    /// Builds the parsing state over the given streams.
    pub fn new(streams: Streams) -> (r: State)
        requires
            streams.wf(),
            streams.fresh(),
        ensures
            r.wf(),
            r.streams == streams,
            r.next_pause == 0,
    {
        State { streams, next_pause: 0 }
    }

    /// Releases the pause `p` on every stream. A stream also held by
    /// another pause stays paused.
    #[verifier::loop_isolation(false)]
    pub fn unpause(&mut self, p: usize)
        requires
            old(self).wf(),
        ensures
            final(self).wf(),
            final(self).next_pause == old(self).next_pause,
            stable(old(self).ss(), final(self).ss()),
            forall|i: int|
                0 <= i < old(self).ss().len() ==> (#[trigger] final(self).ss()[i]).pos == old(self).ss()[i].pos,
            forall|i: int|
                0 <= i < old(self).ss().len() ==> (#[trigger] final(self).ss()[i]).pset() == old(self).ss()[i].pset().remove(p),
    {
        let n = self.streams.streams.len();
        let mut i: usize = 0;
        while i < n
            invariant
                i <= n,
                n == self.ss().len(),
                self.next_pause == old(self).next_pause,
                forall|k: int| i <= k < n ==> self.ss()[k] == old(self).ss()[k],
                forall|k: int|
                    0 <= k < i ==> {
                        let s0 = old(self).ss()[k];
                        let s1 = #[trigger] self.ss()[k];
                        &&& s1.wf()
                        &&& s1.tokens == s0.tokens
                        &&& s1.pos == s0.pos
                        &&& s1.bad == s0.bad
                        &&& s1.id == s0.id
                        &&& s1.pset() == s0.pset().remove(p)
                        &&& s1.pauses_below(self.next_pause)
                    },
            decreases n - i,
        {
            self.streams.streams[i].maybe_unpause(p);
            i = i + 1;
        }
    }

    /// Hands out a pause identifier never used before in this state.
    pub fn fresh_pause(&mut self) -> (r: Result<usize, Error>)
        requires
            old(self).wf(),
        ensures
            final(self).wf(),
            final(self).streams == old(self).streams,
            match r {
                Ok(p) => p == old(self).next_pause && final(self).next_pause == old(self).next_pause + 1,
                Err(_) => final(self).next_pause == old(self).next_pause,
            },
    {
        if self.next_pause == usize::MAX {
            return Err(Error::PausesExhausted);
        }
        let p = self.next_pause;
        self.next_pause = p + 1;
        proof {
            assert forall|i: int|
                0 <= i < self.ss().len() implies (#[trigger] self.ss()[i]).pauses_below(
                self.next_pause,
            ) by {
                assert(old(self).ss()[i].pauses_below(old(self).next_pause));
            }
        }
        Ok(p)
    }

    /// Whether any stream is unpaused.
    #[verifier::loop_isolation(false)]
    pub fn is_any_unpaused(&self) -> (r: bool)
        ensures
            r == exists|i: int| 0 <= i < self.ss().len() && !(#[trigger] self.ss()[i]).paused(),
    {
        let n = self.streams.streams.len();
        let mut i: usize = 0;
        while i < n
            invariant
                i <= n,
                n == self.ss().len(),
                forall|k: int| 0 <= k < i ==> (#[trigger] self.ss()[k]).paused(),
            decreases n - i,
        {
            if !self.streams.streams[i].is_paused() {
                return true;
            }
            i = i + 1;
        }
        false
    }

    /// Consumes the next token of every unpaused stream and demands that it
    /// equal `expected`; fails on the first stream whose next token differs
    /// or that has no token left.
    #[verifier::loop_isolation(false)]
    pub fn expect(&mut self, expected: &Token) -> (r: Result<(), Error>)
        requires
            old(self).wf(),
        ensures
            final(self).wf(),
            final(self).next_pause == old(self).next_pause,
            stable(old(self).ss(), final(self).ss()),
            pos_mono(old(self).ss(), final(self).ss()),
            forall|i: int|
                0 <= i < old(self).ss().len() ==> (#[trigger] final(self).ss()[i]).pset() == old(self).ss()[i].pset(),
            forall|i: int|
                0 <= i < old(self).ss().len() ==> (#[trigger] final(self).ss()[i]).pauses == old(self).ss()[i].pauses,
            forall|i: int|
                0 <= i < old(self).ss().len() && (#[trigger] old(self).ss()[i]).paused() ==> final(self).ss()[i].pos == old(self).ss()[i].pos,
            r is Ok ==> forall|i: int|
                0 <= i < old(self).ss().len() && !(#[trigger] old(self).ss()[i]).paused() ==> {
                    let s0 = old(self).ss()[i];
                    &&& final(self).ss()[i].pos == s0.pos + 1
                    &&& s0.pos < s0.tokens@.len()
                    &&& s0.tokens@[s0.pos as int]@ == expected@
                },
    {
        let n = self.streams.streams.len();
        let mut i: usize = 0;
        while i < n
            invariant
                i <= n,
                n == self.ss().len(),
                self.next_pause == old(self).next_pause,
                forall|k: int| i <= k < n ==> self.ss()[k] == old(self).ss()[k],
                forall|k: int|
                    0 <= k < i ==> {
                        let s0 = old(self).ss()[k];
                        let s1 = #[trigger] self.ss()[k];
                        &&& s1.wf()
                        &&& s1.tokens == s0.tokens
                        &&& s1.bad == s0.bad
                        &&& s1.id == s0.id
                        &&& s1.pset() == s0.pset()
                        &&& s1.pauses == s0.pauses
                        &&& s1.pauses_below(self.next_pause)
                        &&& if s0.paused() {
                            s1.pos == s0.pos
                        } else {
                            &&& s1.pos == s0.pos + 1
                            &&& s0.pos < s0.tokens@.len()
                            &&& s0.tokens@[s0.pos as int]@ == expected@
                        }
                    },
            decreases n - i,
        {
            if !self.streams.streams[i].is_paused() {
                let pos = self.streams.streams[i].pos;
                let len = self.streams.streams[i].tokens.len();
                if pos == len {
                    return Err(
                        match self.streams.streams[i].bad {
                            Some(e) => Error::Lex(e),
                            None => Error::EndOfInput,
                        },
                    );
                }
                let ok = token_eq(&self.streams.streams[i].tokens[pos], expected);
                if !ok {
                    return Err(Error::Mismatch);
                }
                self.streams.streams[i].pos = pos + 1;
            }
            i = i + 1;
        }
        Ok(())
    }

    /// For every unpaused stream whose next token is the closing bracket:
    /// consumes it and pauses the stream with `p`. Other streams are left
    /// alone. Fails only where a stream's text stops lexing at the cursor.
    #[verifier::loop_isolation(false)]
    pub fn close_step(&mut self, p: usize) -> (r: Result<(), Error>)
        requires
            old(self).wf(),
            p < old(self).next_pause,
        ensures
            final(self).wf(),
            final(self).next_pause == old(self).next_pause,
            stable(old(self).ss(), final(self).ss()),
            pos_mono(old(self).ss(), final(self).ss()),
            forall|i: int|
                0 <= i < old(self).ss().len() ==> ((#[trigger] final(self).ss()[i]).pset() == old(self).ss()[i].pset()
                    || final(self).ss()[i].pset() == old(self).ss()[i].pset().insert(p)),
            r is Ok ==> forall|i: int|
                0 <= i < old(self).ss().len() ==> close_step_rel(
                    old(self).ss()[i],
                    #[trigger] final(self).ss()[i],
                    p,
                ),
    {
        let n = self.streams.streams.len();
        let mut i: usize = 0;
        while i < n
            invariant
                i <= n,
                n == self.ss().len(),
                self.next_pause == old(self).next_pause,
                forall|k: int| i <= k < n ==> self.ss()[k] == old(self).ss()[k],
                forall|k: int|
                    0 <= k < i ==> {
                        let s0 = old(self).ss()[k];
                        let s1 = #[trigger] self.ss()[k];
                        &&& s1.wf()
                        &&& s1.id == s0.id
                        &&& s1.pauses_below(self.next_pause)
                        &&& close_step_rel(s0, s1, p)
                    },
            decreases n - i,
        {
            if !self.streams.streams[i].is_paused() {
                let pos = self.streams.streams[i].pos;
                let len = self.streams.streams[i].tokens.len();
                if pos == len {
                    if let Some(e) = self.streams.streams[i].bad {
                        return Err(Error::Lex(e));
                    }
                } else {
                    if matches!(self.streams.streams[i].tokens[pos], Token::CloseSquare) {
                        self.streams.streams[i].pos = pos + 1;
                        self.streams.streams[i].pause(p);
                    }
                }
            }
            i = i + 1;
        }
        Ok(())
    }

    /// The binary-operator step of expression parsing: every unpaused
    /// stream either consumes a `+` or `-` and stays active, or is paused
    /// with `p` because its expression is over.
    #[verifier::loop_isolation(false)]
    pub fn op_step(&mut self, p: usize) -> (r: Result<(), Error>)
        requires
            old(self).wf(),
            p < old(self).next_pause,
        ensures
            final(self).wf(),
            final(self).next_pause == old(self).next_pause,
            stable(old(self).ss(), final(self).ss()),
            pos_mono(old(self).ss(), final(self).ss()),
            forall|i: int|
                0 <= i < old(self).ss().len() ==> ((#[trigger] final(self).ss()[i]).pset() == old(self).ss()[i].pset()
                    || final(self).ss()[i].pset() == old(self).ss()[i].pset().insert(p)),
            r is Ok ==> forall|i: int|
                0 <= i < old(self).ss().len() ==> op_step_rel(
                    old(self).ss()[i],
                    #[trigger] final(self).ss()[i],
                    p,
                ),
    {
        let n = self.streams.streams.len();
        let mut i: usize = 0;
        while i < n
            invariant
                i <= n,
                n == self.ss().len(),
                self.next_pause == old(self).next_pause,
                forall|k: int| i <= k < n ==> self.ss()[k] == old(self).ss()[k],
                forall|k: int|
                    0 <= k < i ==> {
                        let s0 = old(self).ss()[k];
                        let s1 = #[trigger] self.ss()[k];
                        &&& s1.wf()
                        &&& s1.id == s0.id
                        &&& s1.pauses_below(self.next_pause)
                        &&& op_step_rel(s0, s1, p)
                    },
            decreases n - i,
        {
            if !self.streams.streams[i].is_paused() {
                let pos = self.streams.streams[i].pos;
                let len = self.streams.streams[i].tokens.len();
                if pos < len && matches!(self.streams.streams[i].tokens[pos], Token::Plus | Token::Dash) {
                    self.streams.streams[i].pos = pos + 1;
                } else {
                    if pos == len {
                        if let Some(e) = self.streams.streams[i].bad {
                            return Err(Error::Lex(e));
                        }
                    }
                    self.streams.streams[i].pause(p);
                }
            }
            i = i + 1;
        }
        Ok(())
    }

    /// Consumes one plain value token (a number or a string literal) from
    /// every unpaused stream; anything else is a mismatch.
    #[verifier::loop_isolation(false)]
    pub fn next_value(&mut self) -> (r: Result<(), Error>)
        requires
            old(self).wf(),
        ensures
            final(self).wf(),
            final(self).next_pause == old(self).next_pause,
            stable(old(self).ss(), final(self).ss()),
            pos_mono(old(self).ss(), final(self).ss()),
            forall|i: int|
                0 <= i < old(self).ss().len() ==> (#[trigger] final(self).ss()[i]).pset() == old(self).ss()[i].pset(),
            forall|i: int|
                0 <= i < old(self).ss().len() ==> (#[trigger] final(self).ss()[i]).pauses == old(self).ss()[i].pauses,
            r is Ok ==> forall|i: int|
                0 <= i < old(self).ss().len() ==> value_step_rel(
                    old(self).ss()[i],
                    #[trigger] final(self).ss()[i],
                ),
    {
        let n = self.streams.streams.len();
        let mut i: usize = 0;
        while i < n
            invariant
                i <= n,
                n == self.ss().len(),
                self.next_pause == old(self).next_pause,
                forall|k: int| i <= k < n ==> self.ss()[k] == old(self).ss()[k],
                forall|k: int|
                    0 <= k < i ==> {
                        let s0 = old(self).ss()[k];
                        let s1 = #[trigger] self.ss()[k];
                        &&& s1.wf()
                        &&& s1.id == s0.id
                        &&& s1.pauses == s0.pauses
                        &&& s1.pauses_below(self.next_pause)
                        &&& value_step_rel(s0, s1)
                    },
            decreases n - i,
        {
            if !self.streams.streams[i].is_paused() {
                let pos = self.streams.streams[i].pos;
                let len = self.streams.streams[i].tokens.len();
                if pos == len {
                    return Err(
                        match self.streams.streams[i].bad {
                            Some(e) => Error::Lex(e),
                            None => Error::EndOfInput,
                        },
                    );
                }
                if !matches!(self.streams.streams[i].tokens[pos], Token::Number(_) | Token::Str(_)) {
                    return Err(Error::Mismatch);
                }
                self.streams.streams[i].pos = pos + 1;
            }
            i = i + 1;
        }
        Ok(())
    }

    /// Ends one array element on every unpaused stream: a closing bracket
    /// finishes the array and pauses the stream with `p`, a comma moves on
    /// to the next element, anything else is a mismatch.
    #[verifier::loop_isolation(false)]
    pub fn element_end(&mut self, p: usize) -> (r: Result<(), Error>)
        requires
            old(self).wf(),
            p < old(self).next_pause,
        ensures
            final(self).wf(),
            final(self).next_pause == old(self).next_pause,
            stable(old(self).ss(), final(self).ss()),
            pos_mono(old(self).ss(), final(self).ss()),
            forall|i: int|
                0 <= i < old(self).ss().len() ==> ((#[trigger] final(self).ss()[i]).pset() == old(self).ss()[i].pset()
                    || final(self).ss()[i].pset() == old(self).ss()[i].pset().insert(p)),
            r is Ok ==> forall|i: int|
                0 <= i < old(self).ss().len() ==> element_end_rel(
                    old(self).ss()[i],
                    #[trigger] final(self).ss()[i],
                    p,
                ),
    {
        let n = self.streams.streams.len();
        let mut i: usize = 0;
        while i < n
            invariant
                i <= n,
                n == self.ss().len(),
                self.next_pause == old(self).next_pause,
                forall|k: int| i <= k < n ==> self.ss()[k] == old(self).ss()[k],
                forall|k: int|
                    0 <= k < i ==> {
                        let s0 = old(self).ss()[k];
                        let s1 = #[trigger] self.ss()[k];
                        &&& s1.wf()
                        &&& s1.id == s0.id
                        &&& s1.pauses_below(self.next_pause)
                        &&& element_end_rel(s0, s1, p)
                    },
            decreases n - i,
        {
            if !self.streams.streams[i].is_paused() {
                let pos = self.streams.streams[i].pos;
                let len = self.streams.streams[i].tokens.len();
                if pos == len {
                    return Err(
                        match self.streams.streams[i].bad {
                            Some(e) => Error::Lex(e),
                            None => Error::EndOfInput,
                        },
                    );
                }
                if matches!(self.streams.streams[i].tokens[pos], Token::CloseSquare) {
                    self.streams.streams[i].pos = pos + 1;
                    self.streams.streams[i].pause(p);
                } else if matches!(self.streams.streams[i].tokens[pos], Token::Comma) {
                    self.streams.streams[i].pos = pos + 1;
                } else {
                    return Err(Error::Mismatch);
                }
            }
            i = i + 1;
        }
        Ok(())
    }

    /// Classifies every stream by the kind of expression its next token
    /// begins. Fails only where a stream's text stops lexing at the cursor.
    #[verifier::loop_isolation(false)]
    pub fn classify_expr(&self) -> (r: Result<Vec<u8>, Error>)
        requires
            self.wf(),
        ensures
            r matches Ok(tags) ==> tags@.len() == self.ss().len() && forall|i: int|
                0 <= i < self.ss().len() ==> tags@[i] == expr_tag(#[trigger] self.ss()[i]),
    {
        let n = self.streams.streams.len();
        let mut tags: Vec<u8> = Vec::new();
        let mut i: usize = 0;
        while i < n
            invariant
                i <= n,
                n == self.ss().len(),
                tags@.len() == i,
                forall|k: int| 0 <= k < i ==> tags@[k] == expr_tag(#[trigger] self.ss()[k]),
            decreases n - i,
        {
            let tag: u8;
            if self.streams.streams[i].is_paused() {
                tag = TAG_SKIP;
            } else {
                let pos = self.streams.streams[i].pos;
                let len = self.streams.streams[i].tokens.len();
                if pos == len {
                    if let Some(e) = self.streams.streams[i].bad {
                        return Err(Error::Lex(e));
                    }
                    tag = TAG_SKIP;
                } else if matches!(self.streams.streams[i].tokens[pos], Token::OpenSquare) {
                    tag = TAG_ARRAY;
                } else if matches!(self.streams.streams[i].tokens[pos], Token::OpenParen) {
                    tag = TAG_NESTED;
                } else {
                    tag = TAG_FALLBACK;
                }
            }
            tags.push(tag);
            i = i + 1;
        }
        Ok(tags)
    }

    /// Classifies every stream by what follows the first element of an
    /// array: a repeat count, the end of the array, or further elements.
    #[verifier::loop_isolation(false)]
    pub fn classify_array(&self) -> (r: Result<Vec<u8>, Error>)
        requires
            self.wf(),
        ensures
            r matches Ok(tags) ==> tags@.len() == self.ss().len() && forall|i: int|
                0 <= i < self.ss().len() ==> tags@[i] == array_tag(#[trigger] self.ss()[i]),
    {
        let n = self.streams.streams.len();
        let mut tags: Vec<u8> = Vec::new();
        let mut i: usize = 0;
        while i < n
            invariant
                i <= n,
                n == self.ss().len(),
                tags@.len() == i,
                forall|k: int| 0 <= k < i ==> tags@[k] == array_tag(#[trigger] self.ss()[k]),
            decreases n - i,
        {
            let tag: u8;
            if self.streams.streams[i].is_paused() {
                tag = TAG_SKIP;
            } else {
                let pos = self.streams.streams[i].pos;
                let len = self.streams.streams[i].tokens.len();
                if pos == len {
                    if let Some(e) = self.streams.streams[i].bad {
                        return Err(Error::Lex(e));
                    }
                    tag = TAG_SKIP;
                } else if matches!(self.streams.streams[i].tokens[pos], Token::Semicolon) {
                    tag = TAG_REPEAT;
                } else if matches!(self.streams.streams[i].tokens[pos], Token::CloseSquare) {
                    tag = TAG_CLOSE;
                } else {
                    tag = TAG_OTHER;
                }
            }
            tags.push(tag);
            i = i + 1;
        }
        Ok(tags)
    }

    /// Pauses with `p` every stream whose class is not `keep`, so that a
    /// handler acts only on the streams of its own class.
    #[verifier::loop_isolation(false)]
    pub fn pause_others(&mut self, tags: &Vec<u8>, keep: u8, p: usize)
        requires
            old(self).wf(),
            p < old(self).next_pause,
            tags@.len() == old(self).ss().len(),
        ensures
            final(self).wf(),
            final(self).next_pause == old(self).next_pause,
            stable(old(self).ss(), final(self).ss()),
            forall|i: int|
                0 <= i < old(self).ss().len() ==> (#[trigger] final(self).ss()[i]).pos == old(self).ss()[i].pos,
            forall|i: int|
                0 <= i < old(self).ss().len() ==> if tags@[i] == keep {
                    (#[trigger] final(self).ss()[i]) == old(self).ss()[i]
                } else {
                    final(self).ss()[i].pset() == old(self).ss()[i].pset().insert(p)
                        && final(self).ss()[i].paused()
                },
    {
        let n = self.streams.streams.len();
        let mut i: usize = 0;
        while i < n
            invariant
                i <= n,
                n == self.ss().len(),
                self.next_pause == old(self).next_pause,
                forall|k: int| i <= k < n ==> self.ss()[k] == old(self).ss()[k],
                forall|k: int|
                    0 <= k < i ==> {
                        let s0 = old(self).ss()[k];
                        let s1 = #[trigger] self.ss()[k];
                        &&& s1.wf()
                        &&& s1.tokens == s0.tokens
                        &&& s1.bad == s0.bad
                        &&& s1.id == s0.id
                        &&& s1.pos == s0.pos
                        &&& s1.pauses_below(self.next_pause)
                        &&& if tags@[k] == keep {
                            s1 == s0
                        } else {
                            s1.pset() == s0.pset().insert(p) && s1.paused()
                        }
                    },
            decreases n - i,
        {
            if tags[i] != keep {
                self.streams.streams[i].pause(p);
            }
            i = i + 1;
        }
    }
}

/// The class of a stream while choosing how to parse an expression, by its
/// next token: arrays, parenthesized expressions and plain values follow
/// different rules. Paused or exhausted streams take no part.
pub open spec fn expr_tag(s: Stream) -> u8 {
    if s.paused() || s.pos >= s.tokens@.len() {
        TAG_SKIP
    } else if s.tokens@[s.pos as int]@ == TokenView::OpenSquare {
        TAG_ARRAY
    } else if s.tokens@[s.pos as int]@ == TokenView::OpenParen {
        TAG_NESTED
    } else {
        TAG_FALLBACK
    }
}

/// The class of a stream after the first element of an array: a repeat
/// expression, a one-element array, or a regular element list.
pub open spec fn array_tag(s: Stream) -> u8 {
    if s.paused() || s.pos >= s.tokens@.len() {
        TAG_SKIP
    } else if s.tokens@[s.pos as int]@ == TokenView::Semicolon {
        TAG_REPEAT
    } else if s.tokens@[s.pos as int]@ == TokenView::CloseSquare {
        TAG_CLOSE
    } else {
        TAG_OTHER
    }
}

/// The effect on one stream of the step that consumes a closing bracket
/// and pauses the stream, and leaves every other stream alone.
pub open spec fn close_step_rel(s0: Stream, s1: Stream, p: usize) -> bool {
    if s0.paused() {
        s1 == s0
    } else {
        &&& s1.tokens == s0.tokens
        &&& s1.bad == s0.bad
        &&& s1.id == s0.id
        &&& if s0.pos < s0.tokens@.len() && s0.tokens@[s0.pos as int]@
            == TokenView::CloseSquare {
            &&& s1.pos == s0.pos + 1
            &&& s1.pset() == s0.pset().insert(p)
            &&& s1.paused()
        } else {
            s1 == s0
        }
    }
}

/// The effect on one stream of the binary-operator step: a `+` or `-` is
/// consumed and the expression goes on; anything else pauses the stream.
pub open spec fn op_step_rel(s0: Stream, s1: Stream, p: usize) -> bool {
    if s0.paused() {
        s1 == s0
    } else {
        &&& s1.tokens == s0.tokens
        &&& s1.bad == s0.bad
        &&& s1.id == s0.id
        &&& if s0.pos < s0.tokens@.len() && (s0.tokens@[s0.pos as int]@ == TokenView::Plus
            || s0.tokens@[s0.pos as int]@ == TokenView::Dash) {
            &&& s1.pos == s0.pos + 1
            &&& s1.pset() == s0.pset()
            &&& !s1.paused()
        } else {
            &&& s1.pos == s0.pos
            &&& s1.pset() == s0.pset().insert(p)
            &&& s1.paused()
        }
    }
}

/// The effect on one stream of consuming a plain value token.
pub open spec fn value_step_rel(s0: Stream, s1: Stream) -> bool {
    if s0.paused() {
        s1 == s0
    } else {
        &&& s1.tokens == s0.tokens
        &&& s1.bad == s0.bad
        &&& s1.id == s0.id
        &&& s1.pset() == s0.pset()
        &&& s1.pos == s0.pos + 1
        &&& s0.pos < s0.tokens@.len()
        &&& (s0.tokens@[s0.pos as int]@ matches TokenView::Number(_) || s0.tokens@[s0.pos as int]@
            matches TokenView::Str(_))
    }
}

/// The effect on one stream of the step that ends one array element: a
/// closing bracket consumes and pauses, a comma consumes and goes on.
pub open spec fn element_end_rel(s0: Stream, s1: Stream, p: usize) -> bool {
    if s0.paused() {
        s1 == s0
    } else {
        &&& s1.tokens == s0.tokens
        &&& s1.bad == s0.bad
        &&& s1.id == s0.id
        &&& s1.pos == s0.pos + 1
        &&& s0.pos < s0.tokens@.len()
        &&& if s0.tokens@[s0.pos as int]@ == TokenView::CloseSquare {
            s1.pset() == s0.pset().insert(p) && s1.paused()
        } else {
            s0.tokens@[s0.pos as int]@ == TokenView::Comma && s1.pset() == s0.pset()
        }
    }
}

/// The remaining-token count of a stream sequence.
pub open spec fn srem_seq(ss: Seq<Stream>) -> nat
    decreases ss.len(),
{
    if ss.len() == 0 {
        0
    } else {
        ss.last().rem() + srem_seq(ss.drop_last())
    }
}

/// The loop measure of one stream: its remaining tokens, plus one while it
/// is unpaused.
pub open spec fn stream_mu(s: Stream) -> nat {
    s.rem() + if s.paused() {
        0nat
    } else {
        1nat
    }
}

/// The loop measure of a stream sequence.
pub open spec fn mu_seq(ss: Seq<Stream>) -> nat
    decreases ss.len(),
{
    if ss.len() == 0 {
        0
    } else {
        stream_mu(ss.last()) + mu_seq(ss.drop_last())
    }
}

pub proof fn lemma_srem_le(a: Seq<Stream>, b: Seq<Stream>)
    requires
        a.len() == b.len(),
        forall|i: int| 0 <= i < a.len() ==> (#[trigger] b[i]).rem() <= a[i].rem(),
    ensures
        srem_seq(b) <= srem_seq(a),
    decreases a.len(),
{
    if a.len() > 0 {
        lemma_srem_le(a.drop_last(), b.drop_last());
    }
}

pub proof fn lemma_srem_strict(a: Seq<Stream>, b: Seq<Stream>, j: int)
    requires
        a.len() == b.len(),
        0 <= j < a.len(),
        forall|i: int| 0 <= i < a.len() ==> (#[trigger] b[i]).rem() <= a[i].rem(),
        b[j].rem() < a[j].rem(),
    ensures
        srem_seq(b) < srem_seq(a),
    decreases a.len(),
{
    if j == a.len() - 1 {
        lemma_srem_le(a.drop_last(), b.drop_last());
    } else {
        lemma_srem_strict(a.drop_last(), b.drop_last(), j);
    }
}

pub proof fn lemma_mu_le(a: Seq<Stream>, b: Seq<Stream>)
    requires
        a.len() == b.len(),
        forall|i: int| 0 <= i < a.len() ==> stream_mu(#[trigger] b[i]) <= stream_mu(a[i]),
    ensures
        mu_seq(b) <= mu_seq(a),
    decreases a.len(),
{
    if a.len() > 0 {
        lemma_mu_le(a.drop_last(), b.drop_last());
    }
}

pub proof fn lemma_mu_strict(a: Seq<Stream>, b: Seq<Stream>, j: int)
    requires
        a.len() == b.len(),
        0 <= j < a.len(),
        forall|i: int| 0 <= i < a.len() ==> stream_mu(#[trigger] b[i]) <= stream_mu(a[i]),
        stream_mu(b[j]) < stream_mu(a[j]),
    ensures
        mu_seq(b) < mu_seq(a),
    decreases a.len(),
{
    if j == a.len() - 1 {
        lemma_mu_le(a.drop_last(), b.drop_last());
    } else {
        lemma_mu_strict(a.drop_last(), b.drop_last(), j);
    }
}

} // verus!
