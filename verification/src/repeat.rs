//! Counted sequences: the same element decoded a given number of times.

use crate::error::{agrees, cut_law, DecodeError, Parsed};
use vstd::prelude::*;

verus! {

/// A decoder of one kind of element.
pub trait Reader {
    /// What the decoder returns.
    type Out: DeepView;

    /// What decoding yields at `pos` of the input `s`.
    spec fn spec_read(&self, s: Seq<u8>, pos: int) -> Parsed<<Self::Out as DeepView>::V>;

    /// Decodes one element at `pos`.
    fn read(&self, input: &[u8], pos: usize) -> (r: Result<(Self::Out, usize), DecodeError>)
        ensures
            agrees(r, self.spec_read(input@, pos as int)),
    ;

    /// Decoding depends on the bytes it reads and on no others.
    proof fn lemma_cut(&self, s: Seq<u8>, pos: int, k: int)
        requires
            0 <= pos <= k <= s.len(),
        ensures
            cut_law(self.spec_read(s, pos), self.spec_read(s.take(k), pos), pos, k, s.len() as int),
    ;
}

/// What decoding `n` elements in a row yields, from `pos` on.
///
/// The first element that fails ends the sequence with its error.
pub open spec fn spec_repeat<R: Reader>(r: R, s: Seq<u8>, pos: int, n: nat) -> Parsed<
    Seq<<R::Out as DeepView>::V>,
>
    decreases n,
{
    if n == 0 {
        Ok((Seq::empty(), pos))
    } else {
        match spec_repeat(r, s, pos, (n - 1) as nat) {
            Err(e) => Err(e),
            Ok((items, at)) => match r.spec_read(s, at) {
                Err(e) => Err(e),
                Ok((item, next)) => Ok((items.push(item), next)),
            },
        }
    }
}

/// Once a sequence has failed, asking for more elements changes nothing.
pub proof fn lemma_repeat_failed<R: Reader>(r: R, s: Seq<u8>, pos: int, i: nat, n: nat)
    requires
        i <= n,
        spec_repeat(r, s, pos, i) is Err,
    ensures
        spec_repeat(r, s, pos, n) == spec_repeat(r, s, pos, i),
    decreases n,
{
    if i < n {
        lemma_repeat_failed(r, s, pos, i, (n - 1) as nat);
    }
}

/// A sequence of elements depends on the bytes it reads and on no others.
pub proof fn lemma_repeat_cut<R: Reader>(r: R, s: Seq<u8>, pos: int, n: nat, k: int)
    requires
        0 <= pos <= k <= s.len(),
    ensures
        cut_law(
            spec_repeat(r, s, pos, n),
            spec_repeat(r, s.take(k), pos, n),
            pos,
            k,
            s.len() as int,
        ),
    decreases n,
{
    if n > 0 {
        lemma_repeat_cut(r, s, pos, (n - 1) as nat, k);
        match spec_repeat(r, s, pos, (n - 1) as nat) {
            Err(e) => {},
            Ok((items, at)) => {
                if at <= k {
                    r.lemma_cut(s, at, k);
                } else {
                    r.lemma_cut(s, at, s.len() as int);
                }
            },
        }
    }
}

/// The value of a vector that has grown by one item.
pub proof fn lemma_deep_push<T: DeepView>(before: Vec<T>, after: Vec<T>, item: T)
    requires
        after@ == before@.push(item),
    ensures
        after.deep_view() == before.deep_view().push(item.deep_view()),
{
    assert(after.deep_view() =~= before.deep_view().push(item.deep_view()));
}

/// The value of an empty vector.
pub proof fn lemma_deep_empty<T: DeepView>(v: Vec<T>)
    requires
        v@.len() == 0,
    ensures
        v.deep_view() == Seq::<T::V>::empty(),
{
    assert(v.deep_view() =~= Seq::<T::V>::empty());
}

/// The value of a vector that has lost its last item, and of that item.
pub proof fn lemma_deep_pop<T: DeepView>(before: Vec<T>, after: Vec<T>, item: T)
    requires
        before@.len() > 0,
        after@ == before@.drop_last(),
        item == before@.last(),
    ensures
        after.deep_view() == before.deep_view().drop_last(),
        item.deep_view() == before.deep_view().last(),
{
    assert(after.deep_view() =~= before.deep_view().drop_last());
}

/// Decodes `n` elements in a row.
pub fn repeat<R: Reader>(r: &R, input: &[u8], pos: usize, n: u64) -> (out: Result<
    (Vec<R::Out>, usize),
    DecodeError,
>)
    ensures
        agrees(out, spec_repeat(*r, input@, pos as int, n as nat)),
{
    let mut items: Vec<R::Out> = Vec::new();
    let mut at: usize = pos;
    let mut i: u64 = 0;
    proof {
        lemma_deep_empty(items);
    }
    while i < n
        invariant
            i <= n,
            spec_repeat(*r, input@, pos as int, i as nat) == Ok::<
                (Seq<<R::Out as DeepView>::V>, int),
                crate::error::ErrorView,
            >((items.deep_view(), at as int)),
        decreases n - i,
    {
        match r.read(input, at) {
            Err(e) => {
                proof {
                    lemma_repeat_failed(*r, input@, pos as int, (i + 1) as nat, n as nat);
                }
                return Err(e);
            },
            Ok((item, next)) => {
                let ghost before = items;
                items.push(item);
                proof {
                    lemma_deep_push(before, items, item);
                }
                at = next;
                i += 1;
            },
        }
    }
    Ok((items, at))
}

} // verus!
