//! Parsers that read bytes, and repetition.

use vstd::prelude::*;
use vstd::slice::slice_subrange;
use crate::structs::{Consumed, Reply, is_suffix, lemma_suffix_trans};
use crate::predicates::{ascii_alpha, ascii_digit, is_alpha, is_digit};

verus! {

/// What `satisfy` answers on `input` when the predicate's verdict on the
/// first byte is `accept`: the byte and the input after it, or a failure
/// that consumed nothing.
pub open spec fn satisfy_outcome<'a>(accept: bool, input: &'a [u8], res: Consumed<'a, u8>) -> bool {
    if input@.len() > 0 && accept {
        res matches Consumed::Consumed(Reply::Success(b, r)) && b == input@[0] && r@
            == input@.drop_first()
    } else {
        res == Consumed::Empty(Reply::<u8>::Failure(input))
    }
}

/// Takes the first byte of `input` if `f` accepts it. Only a byte that is
/// taken counts as consumed: a refused byte was only looked at.
pub fn satisfy<'a, F>(f: F, input: &'a [u8]) -> (res: Consumed<'a, u8>) where
    F: FnOnce(u8) -> bool,

    requires
        input@.len() > 0 ==> f.requires((input@[0],)),
    ensures
        res.fits(input@),
        input@.len() == 0 ==> satisfy_outcome(false, input, res),
        input@.len() > 0 ==> f.ensures((input@[0],), res.is_consumed()) && satisfy_outcome(
            res.is_consumed(),
            input,
            res,
        ),
{
    if input.len() == 0 {
        return Consumed::Empty(Reply::Failure(input));
    }
    let b = input[0];
    if f(b) {
        let rest = slice_subrange(input, 1, input.len());
        proof {
            assert(rest@ =~= input@.subrange(1, input@.len() as int));
        }
        Consumed::Consumed(Reply::Success(b, rest))
    } else {
        Consumed::Empty(Reply::Failure(input))
    }
}

/// One ASCII decimal digit.
pub fn digit<'a>(i: &'a [u8]) -> (res: Consumed<'a, u8>)
    ensures
        res.fits(i@),
        satisfy_outcome(i@.len() > 0 && ascii_digit(i@[0]), i, res),
{
    satisfy(is_digit, i)
}

/// One ASCII letter.
pub fn character<'a>(i: &'a [u8]) -> (res: Consumed<'a, u8>)
    ensures
        res.fits(i@),
        satisfy_outcome(i@.len() > 0 && ascii_alpha(i@[0]), i, res),
{
    satisfy(is_alpha, i)
}

/// `p` can be applied to any input, and each of its outcomes fits the
/// input it was given.
pub open spec fn is_parser<'a, O, P: Fn(&'a [u8]) -> Consumed<'a, O>>(p: P) -> bool {
    &&& forall|i: &'a [u8]| #[trigger] p.requires((i,))
    &&& forall|i: &'a [u8], c: Consumed<'a, O>| #[trigger] p.ensures((i,), c) ==> c.fits(i@)
}

/// The input that attempt `k` of a repetition started on `input` is given,
/// where `outs` are the outcomes of the attempts.
pub open spec fn attempt_input<'a, O>(input: &'a [u8], outs: Seq<Consumed<'a, O>>, k: int) -> &'a [u8] {
    if k == 0 {
        input
    } else {
        outs[k - 1].rest()
    }
}

/// `outs` is a run of `p` repeated from `input`: each attempt starts where
/// the one before it stopped, every attempt but the last consumed and
/// succeeded, and the last did not.
pub open spec fn is_run<'a, O, P: Fn(&'a [u8]) -> Consumed<'a, O>>(
    p: P,
    input: &'a [u8],
    outs: Seq<Consumed<'a, O>>,
) -> bool {
    &&& outs.len() >= 1
    &&& forall|k: int|
        0 <= k < outs.len() ==> p.ensures((#[trigger] attempt_input(input, outs, k),), outs[k])
    &&& forall|k: int| 0 <= k < outs.len() - 1 ==> (#[trigger] outs[k]).is_consumed() && outs[k].is_ok()
    &&& !(outs.last().is_consumed() && outs.last().is_ok())
}

/// The values of the successful attempts of a run.
pub open spec fn run_values<'a, O>(outs: Seq<Consumed<'a, O>>) -> Seq<O> {
    Seq::new((outs.len() - 1) as nat, |k: int| outs[k].value())
}

/// What a repetition answers after the run `outs`. With no success before
/// the last attempt, the last outcome is passed on, a success that consumed
/// nothing becoming the empty sequence. Otherwise the values gathered are a
/// success that consumed, and the rest is where the last attempt stopped.
pub open spec fn many_outcome<'a, O>(outs: Seq<Consumed<'a, O>>, res: Consumed<'a, Vec<O>>) -> bool {
    let last = outs.last();
    &&& res.rest() == last.rest()
    &&& if outs.len() == 1 {
        &&& res.is_consumed() == last.is_consumed()
        &&& res.is_ok() == last.is_ok()
        &&& res.is_ok() ==> res.value()@ == Seq::<O>::empty()
    } else {
        &&& res.is_consumed()
        &&& res.is_ok()
        &&& res.value()@ == run_values(outs)
    }
}

/// Applies `p` again and again from `i`, gathering the values of the
/// attempts that consume and succeed, until one does not. An attempt that
/// succeeds without consuming ends the repetition as a failure would:
/// trying again at the same point could go on forever.
pub fn many<'a, P, O>(p: P, i: &'a [u8]) -> (res: Consumed<'a, Vec<O>>) where
    P: Fn(&'a [u8]) -> Consumed<'a, O>,

    requires
        is_parser(p),
    ensures
        res.fits(i@),
        exists|outs: Seq<Consumed<'a, O>>| #[trigger] is_run(p, i, outs) && many_outcome(outs, res),
{
    let mut matches: Vec<O> = Vec::new();
    let mut changing_input = i;
    let ghost mut outs: Seq<Consumed<'a, O>> = Seq::empty();
    loop
        invariant
            is_parser(p),
            outs.len() == matches@.len(),
            changing_input == attempt_input(i, outs, outs.len() as int),
            is_suffix(changing_input@, i@),
            outs.len() > 0 ==> changing_input@.len() < i@.len(),
            forall|k: int|
                0 <= k < outs.len() ==> p.ensures((#[trigger] attempt_input(i, outs, k),), outs[k]),
            forall|k: int|
                0 <= k < outs.len() ==> (#[trigger] outs[k]).is_consumed() && outs[k].is_ok()
                    && outs[k].value() == matches@[k],
        decreases changing_input@.len(),
    {
        let c = p(changing_input);
        let ghost all = outs.push(c);
        proof {
            assert forall|k: int| 0 <= k < all.len() implies p.ensures(
                (#[trigger] attempt_input(i, all, k),),
                all[k],
            ) by {
                if k < outs.len() {
                    assert(all[k] == outs[k]);
                    assert(attempt_input(i, all, k) == attempt_input(i, outs, k));
                }
            }
            lemma_suffix_trans(c.rest()@, changing_input@, i@);
            if !(c.is_consumed() && c.is_ok()) {
                assert(is_run(p, i, all));
                assert(matches@ =~= run_values(all));
            }
        }
        match c {
            Consumed::Consumed(Reply::Success(value, rest)) => {
                matches.push(value);
                changing_input = rest;
                proof {
                    outs = all;
                }
            },
            Consumed::Consumed(Reply::Failure(rest)) => {
                if matches.len() == 0 {
                    return Consumed::Consumed(Reply::Failure(rest));
                } else {
                    return Consumed::Consumed(Reply::Success(matches, rest));
                }
            },
            Consumed::Empty(Reply::Failure(rest)) => {
                if matches.len() == 0 {
                    return Consumed::Empty(Reply::Failure(rest));
                } else {
                    return Consumed::Consumed(Reply::Success(matches, rest));
                }
            },
            Consumed::Empty(Reply::Success(_, rest)) => {
                if matches.len() == 0 {
                    return Consumed::Empty(Reply::Success(Vec::new(), rest));
                } else {
                    return Consumed::Consumed(Reply::Success(matches, rest));
                }
            },
        }
    }
}

/// The number of leading bytes of `s` that are in `class`.
pub open spec fn prefix_len(s: Seq<u8>, class: spec_fn(u8) -> bool) -> nat
    decreases s.len(),
{
    if s.len() > 0 && class(s[0]) {
        1 + prefix_len(s.drop_first(), class)
    } else {
        0
    }
}

/// The class of ASCII decimal digits.
pub open spec fn digit_class() -> spec_fn(u8) -> bool {
    |b: u8| ascii_digit(b)
}

/// The class of ASCII letters.
pub open spec fn alpha_class() -> spec_fn(u8) -> bool {
    |b: u8| ascii_alpha(b)
}

/// `p` takes one byte of `class`, as `satisfy` does with a predicate that
/// decides membership in it.
pub open spec fn takes_one_of<'a, P: Fn(&'a [u8]) -> Consumed<'a, u8>>(
    p: P,
    class: spec_fn(u8) -> bool,
) -> bool {
    forall|j: &'a [u8], c: Consumed<'a, u8>| #[trigger] p.ensures((j,), c) ==> satisfy_outcome(
        j@.len() > 0 && class(j@[0]),
        j,
        c,
    )
}

proof fn lemma_prefix_len(s: Seq<u8>, class: spec_fn(u8) -> bool, m: int)
    requires
        0 <= m <= s.len(),
        forall|k: int| 0 <= k < m ==> class(#[trigger] s[k]),
        m == s.len() || !class(s[m]),
    ensures
        prefix_len(s, class) == m,
    decreases m,
{
    if m > 0 {
        assert forall|k: int| 0 <= k < m - 1 implies class(#[trigger] s.drop_first()[k]) by {
            assert(s.drop_first()[k] == s[k + 1]);
        }
        lemma_prefix_len(s.drop_first(), class, m - 1);
    }
}

/// A run of a parser that takes one byte of `class` stops at the first byte
/// outside it, and gathers the bytes before it.
proof fn lemma_class_run<'a, P: Fn(&'a [u8]) -> Consumed<'a, u8>>(
    p: P,
    class: spec_fn(u8) -> bool,
    i: &'a [u8],
    outs: Seq<Consumed<'a, u8>>,
)
    requires
        takes_one_of(p, class),
        is_run(p, i, outs),
    ensures
        outs.len() == prefix_len(i@, class) + 1,
        run_values(outs) == i@.take(outs.len() - 1),
        outs.last() == Consumed::Empty(Reply::<u8>::Failure(attempt_input(i, outs, outs.len() - 1))),
        attempt_input(i, outs, outs.len() - 1)@ == i@.skip(outs.len() - 1),
{
    let m = outs.len() - 1;
    assert forall|k: int| 0 <= k <= m implies k <= i@.len() && #[trigger] attempt_input(i, outs, k)@
        == i@.skip(k) && (k < m ==> class(i@[k]) && outs[k].value() == i@[k]) by {
        lemma_attempts(p, class, i, outs, k);
    }
    assert(p.ensures((attempt_input(i, outs, m),), outs[m]));
    lemma_take_one(p, class, attempt_input(i, outs, m), outs[m]);
    assert forall|k: int| 0 <= k < m implies class(#[trigger] i@[k]) && outs[k].value() == i@[k] by {
        assert(attempt_input(i, outs, k)@ == i@.skip(k));
    }
    let last = attempt_input(i, outs, m);
    assert(last@ == i@.skip(m));
    if m < i@.len() {
        assert(last@[0] == i@[m]);
    }
    lemma_prefix_len(i@, class, m);
    assert(run_values(outs) =~= i@.take(m));
}

proof fn lemma_take_one<'a, P: Fn(&'a [u8]) -> Consumed<'a, u8>>(
    p: P,
    class: spec_fn(u8) -> bool,
    j: &'a [u8],
    c: Consumed<'a, u8>,
)
    requires
        takes_one_of(p, class),
        p.ensures((j,), c),
    ensures
        c.is_consumed() && c.is_ok() ==> j@.len() > 0 && class(j@[0]) && c.value() == j@[0]
            && c.rest()@ == j@.drop_first(),
        !(c.is_consumed() && c.is_ok()) ==> (j@.len() == 0 || !class(j@[0])) && c
            == Consumed::Empty(Reply::<u8>::Failure(j)),
{
    assert(satisfy_outcome(j@.len() > 0 && class(j@[0]), j, c));
}

proof fn lemma_attempts<'a, P: Fn(&'a [u8]) -> Consumed<'a, u8>>(
    p: P,
    class: spec_fn(u8) -> bool,
    i: &'a [u8],
    outs: Seq<Consumed<'a, u8>>,
    k: int,
)
    requires
        takes_one_of(p, class),
        is_run(p, i, outs),
        0 <= k < outs.len(),
    ensures
        k <= i@.len(),
        attempt_input(i, outs, k)@ == i@.skip(k),
        k < outs.len() - 1 ==> class(i@[k]) && outs[k].value() == i@[k],
    decreases k,
{
    if k > 0 {
        lemma_attempts(p, class, i, outs, k - 1);
        let prev = attempt_input(i, outs, k - 1);
        let c = outs[k - 1];
        assert(p.ensures((prev,), c));
        assert(c.is_consumed() && c.is_ok());
        lemma_take_one(p, class, prev, c);
        assert(attempt_input(i, outs, k) == c.rest());
        assert(i@.skip(k - 1).drop_first() =~= i@.skip(k));
    }
    if k < outs.len() - 1 {
        let j = attempt_input(i, outs, k);
        let c = outs[k];
        assert(p.ensures((j,), c));
        assert(c.is_consumed() && c.is_ok());
        lemma_take_one(p, class, j, c);
        assert(j@[0] == i@[k]);
    }
}

/// What repeating a parser that takes one byte of `class` answers on `i`:
/// the longest leading run of such bytes and the input after it, or, when
/// there is none, a failure that consumed nothing.
pub open spec fn class_run_outcome<'a>(
    class: spec_fn(u8) -> bool,
    i: &'a [u8],
    res: Consumed<'a, Vec<u8>>,
) -> bool {
    let n = prefix_len(i@, class);
    if n == 0 {
        res == Consumed::Empty(Reply::<Vec<u8>>::Failure(i))
    } else {
        &&& res.is_consumed()
        &&& res.is_ok()
        &&& res.value()@ == i@.take(n as int)
        &&& res.rest()@ == i@.skip(n as int)
    }
}

proof fn lemma_many_class<'a, P: Fn(&'a [u8]) -> Consumed<'a, u8>>(
    p: P,
    class: spec_fn(u8) -> bool,
    i: &'a [u8],
    res: Consumed<'a, Vec<u8>>,
)
    requires
        takes_one_of(p, class),
        exists|outs: Seq<Consumed<'a, u8>>| #[trigger] is_run(p, i, outs) && many_outcome(outs, res),
    ensures
        class_run_outcome(class, i, res),
{
    let outs = choose|outs: Seq<Consumed<'a, u8>>| #[trigger] is_run(p, i, outs) && many_outcome(outs, res);
    lemma_class_run(p, class, i, outs);
    if outs.len() == 1 {
        assert(attempt_input(i, outs, 0) == i);
        assert(res.rest() == i);
    }
}

/// The longest leading run of ASCII letters.
pub fn many_char<'a>(i: &'a [u8]) -> (res: Consumed<'a, Vec<u8>>)
    ensures
        res.fits(i@),
        class_run_outcome(alpha_class(), i, res),
{
    let res = many(character, i);
    proof {
        lemma_many_class(character, alpha_class(), i, res);
    }
    res
}

/// The longest leading run of ASCII decimal digits.
pub fn many_digit<'a>(i: &'a [u8]) -> (res: Consumed<'a, Vec<u8>>)
    ensures
        res.fits(i@),
        class_run_outcome(digit_class(), i, res),
{
    let res = many(digit, i);
    proof {
        lemma_many_class(digit, digit_class(), i, res);
    }
    res
}

} // verus!
