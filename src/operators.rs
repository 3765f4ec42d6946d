//! Sequencing and alternation over parse outcomes.

use vstd::prelude::*;
use crate::structs::{Consumed, Reply, lemma_suffix_trans};

verus! {

impl<'a, A> Consumed<'a, A> {
    /// The outcome of a successful first step followed by a step that gave
    /// `next`: once the first step consumed, the whole is consumed.
    pub open spec fn then_with<B>(self, next: Consumed<'a, B>) -> Consumed<'a, B> {
        if self.is_consumed() {
            Consumed::Consumed(next.reply())
        } else {
            next
        }
    }

    /// A failed outcome carried over unchanged to another output type.
    pub open spec fn failed<B>(self) -> Consumed<'a, B> {
        if self.is_consumed() {
            Consumed::Consumed(Reply::Failure(self.rest()))
        } else {
            Consumed::Empty(Reply::Failure(self.rest()))
        }
    }

    /// The outcome of trying an alternative that gave `alt` after this one.
    /// A consumed outcome is final; a failure that consumed nothing gives way
    /// to the alternative; a success that consumed nothing gives way only to
    /// an alternative that consumed.
    pub open spec fn or_else(self, alt: Consumed<'a, A>) -> Consumed<'a, A> {
        match self {
            Consumed::Consumed(_) => self,
            Consumed::Empty(Reply::Failure(_)) => alt,
            Consumed::Empty(Reply::Success(_, _)) => if alt.is_consumed() || !alt.is_ok() {
                alt
            } else {
                self
            },
        }
    }

    /// Runs the continuation `f` on the value and the rest of a success;
    /// a failure is passed on without calling it.
    pub fn bind<F, B>(self, f: F) -> (res: Consumed<'a, B>) where
        F: FnOnce(A, &'a [u8]) -> Consumed<'a, B>,

        requires
            self.reply() matches Reply::Success(a, r) ==> f.requires((a, r)),
        ensures
            self.reply() matches Reply::Success(a, r) ==> exists|next: Consumed<'a, B>|
                #[trigger] f.ensures((a, r), next) && res == self.then_with(next),
            self.reply() is Failure ==> res == self.failed::<B>(),
    {
        match self {
            Consumed::Empty(Reply::Success(o, i)) => f(o, i),
            Consumed::Consumed(Reply::Success(o, i)) => match f(o, i) {
                Consumed::Consumed(reply) => Consumed::Consumed(reply),
                Consumed::Empty(reply) => Consumed::Consumed(reply),
            },
            Consumed::Empty(Reply::Failure(i)) => Consumed::Empty(Reply::Failure(i)),
            Consumed::Consumed(Reply::Failure(i)) => Consumed::Consumed(Reply::Failure(i)),
        }
    }

    /// Tries the alternative `f` at the same point when this outcome
    /// consumed nothing; an outcome that consumed is returned as it is and
    /// `f` is never called.
    pub fn choice<F>(self, f: F) -> (res: Consumed<'a, A>) where
        F: FnOnce(&'a [u8]) -> Consumed<'a, A>,

        requires
            !self.is_consumed() ==> f.requires((self.rest(),)),
        ensures
            self.is_consumed() ==> res == self,
            !self.is_consumed() ==> exists|alt: Consumed<'a, A>|
                #[trigger] f.ensures((self.rest(),), alt) && res == self.or_else(alt),
    {
        match self {
            Consumed::Empty(Reply::Failure(i)) => f(i),
            Consumed::Empty(Reply::Success(o, i)) => match f(i) {
                Consumed::Empty(Reply::Success(_, _)) => Consumed::Empty(Reply::Success(o, i)),
                other => other,
            },
            consumed => consumed,
        }
    }
}

/// Sequencing consumes exactly when one of its steps did. After a first
/// step that succeeded, the outcome has the continuation's reply and is
/// consumed if and only if the first step or the continuation consumed;
/// after a first step that failed, it is that failure, consumed as it was.
pub proof fn lemma_bind_consumption<'a, A, B>(first: Consumed<'a, A>, next: Consumed<'a, B>)
    ensures
        first.is_ok() ==> first.then_with(next).is_consumed() == (first.is_consumed()
            || next.is_consumed()),
        first.is_ok() ==> first.then_with(next).reply() == next.reply(),
        !first.is_ok() ==> first.failed::<B>().is_consumed() == first.is_consumed(),
        !first.is_ok() ==> !first.failed::<B>().is_ok(),
{
}

/// When both alternatives succeed without consuming, the first one's
/// outcome is kept.
pub proof fn lemma_choice_tie<'a, A>(first: Consumed<'a, A>, alt: Consumed<'a, A>)
    requires
        !first.is_consumed() && first.is_ok(),
        !alt.is_consumed() && alt.is_ok(),
    ensures
        first.or_else(alt) == first,
{
}

/// Sequencing keeps outcomes sound: when the first step fits `input` and
/// the continuation fits what the first step left, the whole fits `input`.
/// In particular an outcome that consumed nothing leaves `input` as it was.
pub proof fn lemma_bind_fits<'a, A, B>(first: Consumed<'a, A>, next: Consumed<'a, B>, input: Seq<u8>)
    requires
        first.fits(input),
        first.is_ok() ==> next.fits(first.rest()@),
    ensures
        first.is_ok() ==> first.then_with(next).fits(input),
        !first.is_ok() ==> first.failed::<B>().fits(input),
{
    if first.is_ok() {
        lemma_suffix_trans(next.rest()@, first.rest()@, input);
    }
}

/// Alternation keeps outcomes sound: when the first alternative fits
/// `input` and the second fits the same point, the choice fits `input`.
/// In particular an outcome that consumed nothing leaves `input` as it was.
pub proof fn lemma_choice_fits<'a, A>(first: Consumed<'a, A>, alt: Consumed<'a, A>, input: Seq<u8>)
    requires
        first.fits(input),
        !first.is_consumed() ==> alt.fits(first.rest()@),
    ensures
        first.or_else(alt).fits(input),
{
}

} // verus!
