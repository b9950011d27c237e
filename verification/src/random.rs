//! The calls into the `rand` crate. The generator is carried through the
//! library as it is; what a call hands back is held to the few facts that
//! are true of every outcome.

use rand::rngs::StdRng;
use rand::seq::SliceRandom;
use vstd::prelude::*;

verus! {

/// The seedable generator of `rand`. The library never looks inside it.
#[verifier::external_type_specification]
#[verifier::external_body]
pub struct ExStdRng(StdRng);

/// Calls `SliceRandom::shuffle` on the items. Taken on trust: the items come
/// back rearranged, none lost, none added. Nothing is said of the order.
#[verifier::external_body]
pub(crate) fn shuffle<T>(items: &mut Vec<T>, rng: &mut StdRng)
    ensures
        final(items)@.to_multiset() == old(items)@.to_multiset(),
{
    items.shuffle(rng);
}

/// Calls `rand::seq::index::sample`. Taken on trust: it hands back exactly
/// `amount` indices below `length`, no two of them equal. Nothing is said of
/// which ones, nor of their order. It is asked for no more indices than
/// there are, and for fewer where `length` does not fit in 32 bits: `rand`
/// panics on the one and, in a debug build, on the other.
#[verifier::external_body]
pub(crate) fn sample(rng: &mut StdRng, length: usize, amount: usize) -> (picked: Vec<usize>)
    requires
        amount <= length,
        amount < length || length <= u32::MAX,
    ensures
        picked@.len() == amount,
        picked@.no_duplicates(),
        forall|i: int| 0 <= i < picked@.len() ==> picked@[i] < length,
{
    rand::seq::index::sample(rng, length, amount).into_vec()
}

/// Two sequences that hold the same items, each as often as the other, have
/// the same length and the same members, and if no item occurs twice in one,
/// none does in the other.
pub proof fn lemma_rearranged<A>(a: Seq<A>, b: Seq<A>)
    requires
        a.to_multiset() == b.to_multiset(),
    ensures
        a.len() == b.len(),
        forall|x: A| a.contains(x) <==> b.contains(x),
        a.no_duplicates() ==> b.no_duplicates(),
{
    vstd::seq_lib::to_multiset_len(a);
    vstd::seq_lib::to_multiset_len(b);
    assert forall|x: A| a.contains(x) <==> b.contains(x) by {
        vstd::seq_lib::to_multiset_contains(a, x);
        vstd::seq_lib::to_multiset_contains(b, x);
    }
    if a.no_duplicates() {
        a.lemma_multiset_has_no_duplicates();
        b.lemma_multiset_has_no_duplicates_conv();
    }
}

/// Two sequences that hold the same items, each as often as the other, still
/// do so after the same function was applied to every item.
pub proof fn lemma_map_keeps_rearrangement<A, B>(a: Seq<A>, b: Seq<A>, f: spec_fn(A) -> B)
    requires
        a.to_multiset() == b.to_multiset(),
    ensures
        a.map_values(f).to_multiset() == b.map_values(f).to_multiset(),
    decreases a.len(),
{
    broadcast use vstd::seq_lib::group_to_multiset_ensures;

    assert(a.len() == b.len()) by {
        vstd::seq_lib::to_multiset_len(a);
        vstd::seq_lib::to_multiset_len(b);
    }
    if a.len() == 0 {
        assert(a.map_values(f) =~= b.map_values(f));
    } else {
        let x = a.last();
        assert(a.contains(x));
        assert(b.to_multiset().count(x) > 0);
        assert(b.contains(x));
        let j = choose|j: int| 0 <= j < b.len() && b[j] == x;
        let a_rest = a.drop_last();
        let b_rest = b.remove(j);
        assert(a_rest.push(x) =~= a);
        assert(a_rest.to_multiset() =~= a.to_multiset().remove(x));
        assert(b_rest.to_multiset() =~= b.to_multiset().remove(x));
        lemma_map_keeps_rearrangement(a_rest, b_rest, f);
        assert(a.map_values(f) =~= a_rest.map_values(f).push(f(x)));
        assert(b.map_values(f) =~= b_rest.map_values(f).insert(j, f(x)));
    }
}

} // verus!
