//! The calls into the `rand` and `hashbrown` crates, with what is relied on of each.
use crate::game_data::names_view;
use hashbrown::HashSet;
use rand::rngs::StdRng;
use rand::seq::SliceRandom;
use vstd::prelude::*;

verus! {

/// `rand::rngs::StdRng`, the source of randomness. Nothing is known of its state.
#[verifier::external_type_specification]
#[verifier::external_body]
pub struct ExStdRng(StdRng);

/// Calls `rand::seq::SliceRandom::shuffle` on the elements of `values`, with a copy of `rng`.
/// The elements come back in their new order, with the state in which the call leaves the copy.
///
/// Claimed: the elements afterwards are the elements before, each as often as it was.
/// Which of their orders comes out depends on the state of `rng` and is left unsaid, and
/// so is the state that comes back.
#[verifier::external_body]
fn shuffled<T>(values: Vec<T>, rng: &StdRng) -> (out: (Vec<T>, StdRng))
    ensures
        out.0@.to_multiset() == values@.to_multiset(),
{
    let mut values = values;
    let mut rng = rng.clone();
    values.shuffle(&mut rng);
    (values, rng)
}

/// A shuffle of `before` with a generator in the state `rng` may give the order `after`, and
/// leave the generator in the state `next`.
pub closed spec fn may_shuffle<T>(
    before: Seq<T>,
    rng: StdRng,
    after: Seq<T>,
    next: StdRng,
) -> bool {
    exists|values: Vec<T>, out: (Vec<T>, StdRng)|
        {
            &&& #[trigger] call_ensures(shuffled::<T>, (values, &rng), out)
            &&& values@ == before
            &&& out.0@ == after
            &&& out.1 == next
        }
}

/// A shuffle gives one order for the same elements and the same state of the generator, and
/// leaves the generator in one state.
pub open spec fn shuffles_alike<T>() -> bool {
    forall|
        before: Seq<T>,
        rng: StdRng,
        a: Seq<T>,
        next_a: StdRng,
        b: Seq<T>,
        next_b: StdRng,
    | #[trigger]
        may_shuffle(before, rng, a, next_a) && #[trigger] may_shuffle(before, rng, b, next_b) ==> a
            == b && next_a == next_b
}

/// Shuffling keeps the elements.
pub proof fn law_shuffling_keeps_the_elements<T>(before: Seq<T>, rng: StdRng, after: Seq<T>, next: StdRng)
    requires
        may_shuffle(before, rng, after, next),
    ensures
        after.to_multiset() == before.to_multiset(),
{
}

/// Brings `values` into a random order.
pub fn shuffle<T>(values: &mut Vec<T>, rng: &mut StdRng)
    ensures
        may_shuffle(old(values)@, *old(rng), final(values)@, *final(rng)),
        final(values)@.to_multiset() == old(values)@.to_multiset(),
{
    let mut taken: Vec<T> = Vec::new();
    taken.append(values);
    assert(taken@ =~= old(values)@);
    let (mut order, next) = shuffled(taken, &*rng);
    let ghost after = order@;
    values.append(&mut order);
    assert(values@ =~= after);
    *rng = next;
}

/// A set of names, held in a `hashbrown::HashSet`.
#[verifier::external_body]
pub struct NameSet {
    names: HashSet<String>,
}

/// The names that a set holds.
pub uninterp spec fn names_held(set: NameSet) -> Set<Seq<char>>;

/// Collects `names` into a `hashbrown::HashSet` through its `FromIterator`.
///
/// Claimed: the set holds the names listed in `names`, and no others.
#[verifier::external_body]
pub(crate) fn collect_names(names: &Vec<String>) -> (set: NameSet)
    ensures
        names_held(set) == names_view(names@).to_set(),
{
    NameSet { names: names.iter().cloned().collect() }
}

/// Calls `hashbrown::HashSet::contains`.
///
/// Claimed: the answer says whether `name` is among the names that the set holds.
#[verifier::external_body]
pub(crate) fn holds_name(set: &NameSet, name: &String) -> (held: bool)
    ensures
        held == names_held(*set).contains(name@),
{
    set.names.contains(name)
}

}
