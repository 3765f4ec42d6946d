//! The two-level result of applying a parser.

use vstd::prelude::*;

verus! {

/// The outcome of one parser application.
#[derive(Debug, PartialEq, Eq)]
pub enum Reply<'a, O> {
    /// Success with a value and the input that is left.
    Success(O, &'a [u8]),
    /// Failure at the given point of the input.
    Failure(&'a [u8]),
}

/// A `Reply` tagged with whether any input was consumed to reach it.
#[derive(Debug, PartialEq, Eq)]
pub enum Consumed<'a, O> {
    /// At least one byte was consumed before the reply was reached.
    Consumed(Reply<'a, O>),
    /// No byte was consumed: the input is as it was given.
    Empty(Reply<'a, O>),
}

/// `s` is what is left of `t` after some prefix of it.
pub open spec fn is_suffix(s: Seq<u8>, t: Seq<u8>) -> bool {
    s.len() <= t.len() && s =~= t.subrange(t.len() - s.len(), t.len() as int)
}

/// A suffix of a suffix of `t` is a suffix of `t`.
pub proof fn lemma_suffix_trans(s: Seq<u8>, m: Seq<u8>, t: Seq<u8>)
    requires
        is_suffix(s, m),
        is_suffix(m, t),
    ensures
        is_suffix(s, t),
{
    assert forall|k: int| 0 <= k < s.len() implies s[k] == t[t.len() - s.len() + k] by {
        assert(s[k] == m[m.len() - s.len() + k]);
        assert(m[m.len() - s.len() + k] == t[t.len() - m.len() + (m.len() - s.len() + k)]);
    }
}

impl<'a, O> Reply<'a, O> {
    /// The input that is left, on success or failure alike.
    pub open spec fn rest(self) -> &'a [u8] {
        match self {
            Reply::Success(_, r) => r,
            Reply::Failure(r) => r,
        }
    }
}

impl<'a, O> Consumed<'a, O> {
    /// Whether input was consumed to reach the reply.
    pub open spec fn is_consumed(self) -> bool {
        self is Consumed
    }

    /// The reply, whichever way it was tagged.
    pub open spec fn reply(self) -> Reply<'a, O> {
        match self {
            Consumed::Consumed(r) => r,
            Consumed::Empty(r) => r,
        }
    }

    /// Whether the reply is a success.
    pub open spec fn is_ok(self) -> bool {
        self.reply() is Success
    }

    /// The input that is left.
    pub open spec fn rest(self) -> &'a [u8] {
        self.reply().rest()
    }

    /// The value of a success.
    pub open spec fn value(self) -> O
        recommends
            self.is_ok(),
    {
        match self.reply() {
            Reply::Success(v, _) => v,
            Reply::Failure(_) => arbitrary(),
        }
    }

    /// The outcome is a sound answer to a parse of `input`: what is left is a
    /// suffix of `input`, all of it when nothing was consumed, and strictly
    /// less of it after a success that consumed.
    pub open spec fn fits(self, input: Seq<u8>) -> bool {
        let r = self.rest()@;
        &&& is_suffix(r, input)
        &&& !self.is_consumed() ==> r == input
        &&& self.is_consumed() && self.is_ok() ==> r.len() < input.len()
    }
}

} // verus!
