//! What a choice of items is: which key items it takes, how often each item is among the others,
//! and in which order they come. Everything is said of the counts and lists themselves.
use crate::counting::{deducted, occurrences};
use crate::items::{all_items, lemma_ids_items, lemma_item_ids, Item, ITEM_COUNT};
use crate::outside::may_shuffle;
use crate::selection::{lemma_occurrences_stock, lemma_stock_bounded, stock, unique_items, Plan};
use crate::single::{law_share_is_rounded_up, law_share_of_a_power_of_two_is_exact, single_share};
use crate::state::{total, ItemPlacementStrategy, Randomizer, SelectItemsOutput, StateView};
use rand::rngs::StdRng;
use vstd::arithmetic::power2::pow2;
use vstd::prelude::*;

verus! {

/// Totals add up: nothing has none, and one more count adds what it counts.
pub proof fn law_totals_add_up(counts: Seq<usize>, count: usize)
    ensures
        total(Seq::empty()) == 0,
        total(counts.push(count)) == total(counts) + count,
{
    assert(counts.push(count).drop_last() =~= counts);
}

/// Taking items leaves of each item what there was, less the copies taken.
pub proof fn law_taking_leaves_the_rest(counts: Seq<usize>, items: Seq<Item>, item: Item)
    requires
        counts.len() == ITEM_COUNT,
        items.to_multiset().count(item) <= counts[item.id()],
    ensures
        deducted(counts, items).len() == counts.len(),
        deducted(counts, items)[item.id()] == counts[item.id()] - items.to_multiset().count(item),
{
    lemma_item_ids(item);
}

/// The types that are mixed and those that are delayed are told apart by the strategy, and with
/// the semiclosed one by whether a copy has been placed.
proof fn lemma_types_by_strategy(randomizer: Randomizer, remaining: Seq<usize>)
    ensures
        ({
            let mixed = randomizer.types_to_mix(remaining);
            let delayed = randomizer.types_to_delay(remaining);
            let initial = randomizer.initial_items_remaining@;
            let supers = remaining[Item::Super.id()] < initial[Item::Super.id()];
            let bombs = remaining[Item::PowerBomb.id()] < initial[Item::PowerBomb.id()];
            &&& mixed.no_duplicates()
            &&& delayed.no_duplicates()
            &&& mixed.contains(Item::Missile) && !delayed.contains(Item::Missile)
            &&& forall|item: Item|
                item == Item::ETank || item == Item::ReserveTank ==> {
                    &&& #[trigger] mixed.contains(item)
                        == (randomizer.difficulty.item_placement_strategy
                        != ItemPlacementStrategy::Closed)
                    &&& delayed.contains(item) == !mixed.contains(item)
                }
            &&& mixed.contains(Item::Super)
                == match randomizer.difficulty.item_placement_strategy {
                ItemPlacementStrategy::Open => true,
                ItemPlacementStrategy::Semiclosed => supers,
                ItemPlacementStrategy::Closed => false,
            }
            &&& delayed.contains(Item::Super) == !mixed.contains(Item::Super)
            &&& mixed.contains(Item::PowerBomb)
                == match randomizer.difficulty.item_placement_strategy {
                ItemPlacementStrategy::Open => true,
                ItemPlacementStrategy::Semiclosed => bombs,
                ItemPlacementStrategy::Closed => false,
            }
            &&& delayed.contains(Item::PowerBomb) == !mixed.contains(Item::PowerBomb)
            &&& forall|item: Item|
                item != Item::Missile && item != Item::ETank && item != Item::ReserveTank && item
                    != Item::Super && item != Item::PowerBomb ==> !#[trigger] mixed.contains(item)
                    && !delayed.contains(item)
        }),
{
    let mixed = randomizer.types_to_mix(remaining);
    let delayed = randomizer.types_to_delay(remaining);
    assert(mixed.len() <= 5);
    assert(delayed.len() <= 4);
    assert(mixed[0] == Item::Missile);
    assert forall|item: Item| #[trigger] mixed.contains(item) == ((0 < mixed.len() && mixed[0]
        == item) || (1 < mixed.len() && mixed[1] == item) || (2 < mixed.len() && mixed[2] == item)
        || (3 < mixed.len() && mixed[3] == item) || (4 < mixed.len() && mixed[4] == item)) by {
        if mixed.contains(item) {
            let i = choose|i: int| 0 <= i < mixed.len() && mixed[i] == item;
            assert(i == 0 || i == 1 || i == 2 || i == 3 || i == 4);
        }
    }
    assert forall|item: Item| #[trigger] delayed.contains(item) == ((0 < delayed.len()
        && delayed[0] == item) || (1 < delayed.len() && delayed[1] == item) || (2 < delayed.len()
        && delayed[2] == item) || (3 < delayed.len() && delayed[3] == item)) by {
        if delayed.contains(item) {
            let i = choose|i: int| 0 <= i < delayed.len() && delayed[i] == item;
            assert(i == 0 || i == 1 || i == 2 || i == 3);
        }
    }
    assert forall|i: int, j: int| 0 <= i < j < mixed.len() implies mixed[i] != mixed[j] by {
        assert(i == 0 || i == 1 || i == 2 || i == 3);
        assert(j == 1 || j == 2 || j == 3 || j == 4);
    }
    assert forall|i: int, j: int| 0 <= i < j < delayed.len() implies delayed[i] != delayed[j] by {
        assert(i == 0 || i == 1 || i == 2);
        assert(j == 1 || j == 2 || j == 3);
    }
}

/// Of every item the copies left once the key items are taken are in the mix, or delayed, or,
/// if the item occurs once, neither. Missiles are always mixed. Tanks are mixed unless the
/// strategy is closed. Supers and power bombs are mixed with the open strategy and delayed with
/// the closed one. With the semiclosed one they are mixed just when a copy has been placed, each
/// for itself.
pub proof fn law_plans_split_the_copies<T>(
    randomizer: Randomizer,
    s: StateView<T>,
    num_bireachable: int,
    num_oneway: int,
    attempt_num: int,
    plan: Plan,
    item: Item,
)
    requires
        randomizer.choosable(s, num_bireachable, num_oneway),
        attempt_num >= 0,
        !randomizer.exhausted(s, num_bireachable, num_oneway, attempt_num),
        randomizer.plans(s, num_bireachable, num_oneway, attempt_num, plan),
    ensures
        ({
            let strategy = randomizer.difficulty.item_placement_strategy;
            let left = plan.remaining@[item.id()];
            let initial = randomizer.initial_items_remaining@[item.id()];
            let in_mix = plan.mix@.to_multiset().count(item);
            let in_delayed = plan.delayed@.to_multiset().count(item);
            &&& left == s.remaining[item.id()] - plan.key_items@.to_multiset().count(item)
            &&& plan.num_other_items == num_bireachable + num_oneway - plan.key_items@.len()
            &&& plan.mix@ == stock(randomizer.types_to_mix(plan.remaining@), plan.remaining@)
            &&& plan.delayed@ == stock(randomizer.types_to_delay(plan.remaining@), plan.remaining@)
            &&& item == Item::Missile ==> in_mix == left && in_delayed == 0
            &&& item == Item::ETank || item == Item::ReserveTank ==> match strategy {
                ItemPlacementStrategy::Closed => in_mix == 0 && in_delayed == left,
                _ => in_mix == left && in_delayed == 0,
            }
            &&& item == Item::Super || item == Item::PowerBomb ==> match strategy {
                ItemPlacementStrategy::Open => in_mix == left && in_delayed == 0,
                ItemPlacementStrategy::Semiclosed => if left < initial {
                    in_mix == left && in_delayed == 0
                } else {
                    in_mix == 0 && in_delayed == left
                },
                ItemPlacementStrategy::Closed => in_mix == 0 && in_delayed == left,
            }
            &&& item != Item::Missile && item != Item::ETank && item != Item::ReserveTank && item
                != Item::Super && item != Item::PowerBomb ==> in_mix == 0 && in_delayed == 0
        }),
{
    lemma_item_ids(item);
    randomizer.lemma_key_items(s, num_bireachable, num_oneway, attempt_num);
    assert(occurrences(plan.key_items@, item) <= s.remaining[item.id()]);
    let remaining = plan.remaining@;
    lemma_types_by_strategy(randomizer, remaining);
    lemma_occurrences_stock(randomizer.types_to_mix(remaining), remaining, item);
    lemma_occurrences_stock(randomizer.types_to_delay(remaining), remaining, item);
    assert(randomizer.types_to_mix(remaining).contains(item)
        || !randomizer.types_to_mix(remaining).contains(item));
}

/// Copies of a type that is listed earlier come earlier.
pub proof fn lemma_stock_order(items: Seq<Item>, counts: Seq<usize>, i: int, j: int) -> (places: (
    int,
    int,
))
    requires
        0 <= i <= j < stock(items, counts).len(),
    ensures
        0 <= places.0 <= places.1 < items.len(),
        items[places.0] == stock(items, counts)[i],
        items[places.1] == stock(items, counts)[j],
    decreases items.len(),
{
    let rest = stock(items.drop_last(), counts);
    let last = items.len() - 1;
    if j < rest.len() {
        lemma_stock_order(items.drop_last(), counts, i, j)
    } else if i < rest.len() {
        let places = lemma_stock_order(items.drop_last(), counts, i, i);
        (places.0, last)
    } else {
        (last, last)
    }
}

/// The order of the delayed copies. With the semiclosed strategy supers come before power bombs.
/// With the closed one tanks come first, reserve tanks after the others, and of supers and power
/// bombs those come first of which a copy has been placed, or supers.
pub proof fn law_delayed_copies_are_in_order(
    randomizer: Randomizer,
    remaining: Seq<usize>,
    i: int,
    j: int,
)
    requires
        0 <= i < j < stock(randomizer.types_to_delay(remaining), remaining).len(),
    ensures
        ({
            let delayed = stock(randomizer.types_to_delay(remaining), remaining);
            let initial = randomizer.initial_items_remaining@;
            let bombs_first = remaining[Item::PowerBomb.id()] < initial[Item::PowerBomb.id()]
                && remaining[Item::Super.id()] == initial[Item::Super.id()];
            match randomizer.difficulty.item_placement_strategy {
                ItemPlacementStrategy::Open => false,
                ItemPlacementStrategy::Semiclosed => !(delayed[i] == Item::PowerBomb && delayed[j]
                    == Item::Super),
                ItemPlacementStrategy::Closed => {
                    &&& delayed[j] == Item::ETank ==> delayed[i] == Item::ETank
                    &&& delayed[j] == Item::ReserveTank ==> delayed[i] == Item::ETank || delayed[i]
                        == Item::ReserveTank
                    &&& bombs_first ==> !(delayed[i] == Item::Super && delayed[j]
                        == Item::PowerBomb)
                    &&& !bombs_first ==> !(delayed[i] == Item::PowerBomb && delayed[j]
                        == Item::Super)
                },
            }
        }),
{
    let types = randomizer.types_to_delay(remaining);
    let (p, q) = lemma_stock_order(types, remaining, i, j);
    assert(types.len() <= 4);
    assert(p == 0 || p == 1 || p == 2 || p == 3);
    assert(q == 0 || q == 1 || q == 2 || q == 3);
}

/// Before it is shuffled, the mix holds missiles, then tanks, reserve tanks, supers and power
/// bombs.
pub proof fn law_mix_is_in_order(
    randomizer: Randomizer,
    remaining: Seq<usize>,
    i: int,
    j: int,
)
    requires
        0 <= i < j < stock(randomizer.types_to_mix(remaining), remaining).len(),
    ensures
        ({
            let mix = stock(randomizer.types_to_mix(remaining), remaining);
            &&& mix[j] == Item::Missile ==> mix[i] == Item::Missile
            &&& mix[j] == Item::ETank ==> mix[i] == Item::Missile || mix[i] == Item::ETank
            &&& mix[i] == Item::PowerBomb ==> mix[j] == Item::PowerBomb
            &&& mix[i] == Item::Super ==> mix[j] == Item::Super || mix[j] == Item::PowerBomb
        }),
{
    let types = randomizer.types_to_mix(remaining);
    let (p, q) = lemma_stock_order(types, remaining, i, j);
    assert(types.len() <= 5);
    assert(p == 0 || p == 1 || p == 2 || p == 3 || p == 4);
    assert(q == 0 || q == 1 || q == 2 || q == 3 || q == 4);
}

proof fn lemma_unique_prefix(n: nat)
    requires
        n <= ITEM_COUNT,
    ensures
        ({
            let unique = all_items().take(n as int).filter(|item: Item| !item.is_expansion());
            &&& unique.len() == (if n <= 4 {
                0
            } else if n <= 20 {
                n - 4
            } else {
                16
            })
            &&& forall|j: int| 0 <= j < unique.len() ==> (#[trigger] unique[j]).id() == j + 4
        }),
    decreases n,
{
    reveal(Seq::filter);
    if n > 0 {
        lemma_unique_prefix((n - 1) as nat);
        lemma_ids_items(n - 1);
        assert(all_items().take(n as int).drop_last() =~= all_items().take(n - 1));
    }
}

/// The items that occur once are those numbered from four to nineteen, in that order.
pub proof fn law_unique_items_go_by_number(j: int)
    ensures
        unique_items().len() == 16,
        0 <= j < 16 ==> unique_items()[j].id() == j + 4,
{
    lemma_unique_prefix(ITEM_COUNT as nat);
    assert(all_items().take(ITEM_COUNT as int) =~= all_items());
}

/// The other items of a choice, one for each place that no key item takes: first the mix in the
/// order drawn, then the delayed copies, then the items that occur once, by number.
pub proof fn law_other_items_come_in_order<T>(
    randomizer: Randomizer,
    s: StateView<T>,
    num_bireachable: int,
    num_oneway: int,
    attempt_num: int,
    mixed: Seq<Item>,
    out: SelectItemsOutput,
    k: int,
)
    requires
        randomizer.choosable(s, num_bireachable, num_oneway),
        attempt_num >= 0,
        !randomizer.exhausted(s, num_bireachable, num_oneway, attempt_num),
        randomizer.selects_in_order(s, num_bireachable, num_oneway, attempt_num, mixed, out),
        0 <= k < out.other_items@.len(),
    ensures
        out.key_items@.len() + out.other_items@.len() == num_bireachable + num_oneway,
        ({
            let left = deducted(s.remaining, out.key_items@);
            let delayed = stock(randomizer.types_to_delay(left), left);
            if k < mixed.len() {
                out.other_items@[k] == mixed[k]
            } else if k < mixed.len() + delayed.len() {
                out.other_items@[k] == delayed[k - mixed.len()]
            } else {
                out.other_items@[k].id() == 4 + k - mixed.len() - delayed.len()
            }
        }),
{
    randomizer.lemma_key_items(s, num_bireachable, num_oneway, attempt_num);
    randomizer.lemma_other_items(s, num_bireachable, num_oneway, attempt_num, mixed);
    let left = deducted(s.remaining, out.key_items@);
    let delayed = stock(randomizer.types_to_delay(left), left);
    law_unique_items_go_by_number(k - mixed.len() - delayed.len());
}

/// In the mix of a choice and among its delayed copies every item is as often as the strategy
/// has it.
pub proof fn law_choices_split_the_copies<T>(
    randomizer: Randomizer,
    s: StateView<T>,
    num_bireachable: int,
    num_oneway: int,
    attempt_num: int,
    mixed: Seq<Item>,
    out: SelectItemsOutput,
    item: Item,
)
    requires
        randomizer.choosable(s, num_bireachable, num_oneway),
        attempt_num >= 0,
        !randomizer.exhausted(s, num_bireachable, num_oneway, attempt_num),
        randomizer.selects_in_order(s, num_bireachable, num_oneway, attempt_num, mixed, out),
    ensures
        ({
            let strategy = randomizer.difficulty.item_placement_strategy;
            let left = s.remaining[item.id()] - out.key_items@.to_multiset().count(item);
            let initial = randomizer.initial_items_remaining@[item.id()];
            let counts = deducted(s.remaining, out.key_items@);
            let in_mix = mixed.to_multiset().count(item);
            let in_delayed = stock(
                randomizer.types_to_delay(counts),
                counts,
            ).to_multiset().count(item);
            &&& left >= 0
            &&& item == Item::Missile ==> in_mix == left && in_delayed == 0
            &&& item == Item::ETank || item == Item::ReserveTank ==> match strategy {
                ItemPlacementStrategy::Closed => in_mix == 0 && in_delayed == left,
                _ => in_mix == left && in_delayed == 0,
            }
            &&& item == Item::Super || item == Item::PowerBomb ==> match strategy {
                ItemPlacementStrategy::Open => in_mix == left && in_delayed == 0,
                ItemPlacementStrategy::Semiclosed => if left < initial {
                    in_mix == left && in_delayed == 0
                } else {
                    in_mix == 0 && in_delayed == left
                },
                ItemPlacementStrategy::Closed => in_mix == 0 && in_delayed == left,
            }
            &&& item != Item::Missile && item != Item::ETank && item != Item::ReserveTank && item
                != Item::Super && item != Item::PowerBomb ==> in_mix == 0 && in_delayed == 0
        }),
{
    lemma_item_ids(item);
    randomizer.lemma_key_items(s, num_bireachable, num_oneway, attempt_num);
    assert(occurrences(out.key_items@, item) <= s.remaining[item.id()]);
    let remaining = deducted(s.remaining, out.key_items@);
    lemma_types_by_strategy(randomizer, remaining);
    lemma_occurrences_stock(randomizer.types_to_mix(remaining), remaining, item);
    lemma_occurrences_stock(randomizer.types_to_delay(remaining), remaining, item);
    assert(randomizer.types_to_mix(remaining).contains(item)
        || !randomizer.types_to_mix(remaining).contains(item));
}

/// The order of the mix is drawn with the generator, from a list that holds the same copies.
pub proof fn law_mix_is_drawn<T>(
    randomizer: Randomizer,
    s: StateView<T>,
    num_bireachable: int,
    num_oneway: int,
    attempt_num: int,
    rng: StdRng,
    out: SelectItemsOutput,
    next: StdRng,
)
    requires
        randomizer.selects_drawing(
            s,
            num_bireachable,
            num_oneway,
            attempt_num,
            rng,
            out,
            next,
        ),
    ensures
        ({
            let left = deducted(s.remaining, out.key_items@);
            exists|mixed: Seq<Item>|
                {
                    &&& #[trigger] may_shuffle(
                        stock(randomizer.types_to_mix(left), left),
                        rng,
                        mixed,
                        next,
                    )
                    &&& randomizer.selects_in_order(
                        s,
                        num_bireachable,
                        num_oneway,
                        attempt_num,
                        mixed,
                        out,
                    )
                }
        }),
{
    let mixed = choose|mixed: Seq<Item>|
        {
            &&& #[trigger] randomizer.selects_in_order(
                s,
                num_bireachable,
                num_oneway,
                attempt_num,
                mixed,
                out,
            )
            &&& may_shuffle(
                randomizer.mix(s, num_bireachable, num_oneway, attempt_num),
                rng,
                mixed,
                next,
            )
        };
    let left = deducted(s.remaining, out.key_items@);
    assert(may_shuffle(stock(randomizer.types_to_mix(left), left), rng, mixed, next));
}

/// The element of a filtered list that comes after `m` others.
proof fn lemma_filter_rank(items: Seq<Item>, pred: spec_fn(Item) -> bool, m: int) -> (q: int)
    requires
        0 <= m < items.filter(pred).len(),
    ensures
        0 <= q < items.len(),
        items[q] == items.filter(pred)[m],
        pred(items[q]),
        items.take(q).filter(pred).len() == m,
    decreases items.len(),
{
    reveal(Seq::filter);
    let rest = items.drop_last();
    if m < rest.filter(pred).len() {
        let q = lemma_filter_rank(rest, pred, m);
        assert(rest.take(q) =~= items.take(q));
        q
    } else {
        assert(items.take(items.len() - 1) =~= rest);
        items.len() - 1
    }
}

/// Which key items a choice takes. An item is fresh if no copy of it has been placed. All key
/// items are fresh. All but the last come first of the fresh items in the order of precedence,
/// one after the other; before the last one as many more have been passed over as attempts were
/// made before.
pub proof fn law_key_items_go_by_rank<T>(
    randomizer: Randomizer,
    s: StateView<T>,
    num_bireachable: int,
    num_oneway: int,
    attempt_num: int,
    out: SelectItemsOutput,
    j: int,
)
    requires
        randomizer.choosable(s, num_bireachable, num_oneway),
        attempt_num >= 0,
        !randomizer.exhausted(s, num_bireachable, num_oneway, attempt_num),
        randomizer.selects(s, num_bireachable, num_oneway, attempt_num, out),
        0 <= j < out.key_items@.len(),
    ensures
        s.remaining[out.key_items@[j].id()] == randomizer.initial_items_remaining@[
            out.key_items@[j].id()
        ],
        exists|q: int|
            {
                &&& 0 <= q < s.item_precedence.len()
                &&& #[trigger] s.item_precedence[q] == out.key_items@[j]
                &&& s.item_precedence.take(q).filter(
                    |item: Item|
                        s.remaining[item.id()] == randomizer.initial_items_remaining@[item.id()],
                ).len() == (if j == out.key_items@.len() - 1 {
                    j + attempt_num
                } else {
                    j
                })
            },
{
    let fresh = |item: Item|
        s.remaining[item.id()] == randomizer.initial_items_remaining@[item.id()];
    randomizer.lemma_key_item_count(s, num_bireachable, num_oneway);
    randomizer.lemma_key_items(s, num_bireachable, num_oneway, attempt_num);
    let m = if j == out.key_items@.len() - 1 {
        j + attempt_num
    } else {
        j
    };
    assert(randomizer.key_candidates(s) == s.item_precedence.filter(fresh));
    let q = lemma_filter_rank(s.item_precedence, fresh, m);
    assert(s.item_precedence[q] == out.key_items@[j]);
}

/// How many key items a choice takes: at least one, no more than there are fresh items or
/// locations that can be left again. If fewer than twenty locations would stay free, that many.
/// Otherwise one, but with the open strategy the share of the places that the fresh items are of
/// all copies, rounded up: exactly so where the number of copies is a power of two.
pub proof fn law_how_many_key_items<T>(
    randomizer: Randomizer,
    s: StateView<T>,
    num_bireachable: int,
    num_oneway: int,
    attempt_num: int,
    out: SelectItemsOutput,
)
    requires
        randomizer.choosable(s, num_bireachable, num_oneway),
        attempt_num >= 0,
        !randomizer.exhausted(s, num_bireachable, num_oneway, attempt_num),
        randomizer.selects(s, num_bireachable, num_oneway, attempt_num, out),
    ensures
        ({
            let count = out.key_items@.len() as int;
            let fresh = s.item_precedence.filter(
                |item: Item|
                    s.remaining[item.id()] == randomizer.initial_items_remaining@[item.id()],
            ).len() as int;
            let places = num_bireachable + num_oneway;
            let copies = total(s.remaining) as int;
            &&& 1 <= count <= num_bireachable
            &&& count <= fresh
            &&& copies < places + 20 ==> count == num_bireachable || count == fresh
            &&& copies >= places + 20 && !(
            randomizer.difficulty.item_placement_strategy is Open) ==> count == 1
            &&& copies >= places + 20 && randomizer.difficulty.item_placement_strategy is Open ==> {
                &&& (count - 1) * copies <= fresh * places
                &&& (exists|n: nat| copies == #[trigger] pow2(n)) ==> (count - 1) * copies < fresh
                    * places
                &&& count == num_bireachable || count == fresh || count * copies >= fresh * places
            }
        }),
{
    let fresh = |item: Item|
        s.remaining[item.id()] == randomizer.initial_items_remaining@[item.id()];
    let places = num_bireachable + num_oneway;
    let copies = total(s.remaining) as int;
    let candidates = randomizer.key_candidates(s).len() as int;
    let count = out.key_items@.len() as int;
    randomizer.lemma_key_item_count(s, num_bireachable, num_oneway);
    randomizer.lemma_key_items(s, num_bireachable, num_oneway, attempt_num);
    randomizer.lemma_candidates(s);
    assert(randomizer.key_candidates(s) == s.item_precedence.filter(fresh));
    lemma_stock_bounded(s.remaining, randomizer.initial_items_remaining@);
    if copies >= places + 20 && randomizer.difficulty.item_placement_strategy is Open {
        let share = single_share(candidates, copies, places);
        assert(copies * places < 0x40_0000) by (nonlinear_arith)
            requires
                1 <= places <= copies <= 966,
        ;
        law_share_is_rounded_up(candidates, copies, places);
        if exists|n: nat| copies == #[trigger] pow2(n) {
            let n = choose|n: nat| copies == #[trigger] pow2(n);
            law_share_of_a_power_of_two_is_exact(candidates, n, places);
        }
        assert((count - 1) * copies <= (share - 1) * copies) by (nonlinear_arith)
            requires
                count <= share,
                copies >= 1,
        ;
    }
}

/// When there is no choice: once as many attempts have been made as there are fresh items beside
/// the key items of the first attempt, and one more.
pub proof fn law_choices_run_out<T>(
    randomizer: Randomizer,
    s: StateView<T>,
    num_bireachable: int,
    num_oneway: int,
    attempt_num: int,
    first: SelectItemsOutput,
)
    requires
        randomizer.choosable(s, num_bireachable, num_oneway),
        randomizer.selects(s, num_bireachable, num_oneway, 0, first),
        attempt_num >= 0,
    ensures
        randomizer.exhausted(s, num_bireachable, num_oneway, attempt_num) <==> attempt_num
            > s.item_precedence.filter(
            |item: Item|
                s.remaining[item.id()] == randomizer.initial_items_remaining@[item.id()],
        ).len() - first.key_items@.len(),
{
    let fresh = |item: Item|
        s.remaining[item.id()] == randomizer.initial_items_remaining@[item.id()];
    randomizer.lemma_key_item_count(s, num_bireachable, num_oneway);
    randomizer.lemma_key_items(s, num_bireachable, num_oneway, 0);
    assert(randomizer.key_candidates(s) == s.item_precedence.filter(fresh));
}

/// A choice is overdrawn just when it would take more copies of some item than are left.
pub proof fn law_overdrawn_choices_lack_a_copy<T>(
    randomizer: Randomizer,
    s: StateView<T>,
    num_bireachable: int,
    num_oneway: int,
    attempt_num: int,
    mixed: Seq<Item>,
    out: SelectItemsOutput,
)
    requires
        randomizer.choosable(s, num_bireachable, num_oneway),
        attempt_num >= 0,
        !randomizer.exhausted(s, num_bireachable, num_oneway, attempt_num),
        randomizer.selects_in_order(s, num_bireachable, num_oneway, attempt_num, mixed, out),
    ensures
        randomizer.overdrawn(s, num_bireachable, num_oneway, attempt_num) <==> exists|item: Item|
            #![trigger out.other_items@.to_multiset().count(item)]
            out.key_items@.to_multiset().count(item) + out.other_items@.to_multiset().count(item)
                > s.remaining[item.id()],
        !randomizer.overdrawn(s, num_bireachable, num_oneway, attempt_num) ==> forall|item: Item|
            #![trigger out.other_items@.to_multiset().count(item)]
            out.new_items_remaining@[item.id()] + out.key_items@.to_multiset().count(item)
                + out.other_items@.to_multiset().count(item) == s.remaining[item.id()],
{
    randomizer.lemma_key_items(s, num_bireachable, num_oneway, attempt_num);
    randomizer.lemma_other_items(s, num_bireachable, num_oneway, attempt_num, mixed);
    let left = deducted(s.remaining, out.key_items@);
    assert forall|item: Item|
        #![trigger out.other_items@.to_multiset().count(item)]
        left[item.id()] == s.remaining[item.id()] - out.key_items@.to_multiset().count(
            item,
        ) by {
        lemma_item_ids(item);
        assert(occurrences(out.key_items@, item) <= s.remaining[item.id()]);
    }
    if randomizer.overdrawn(s, num_bireachable, num_oneway, attempt_num) {
        let item = choose|item: Item| !(
        #[trigger] occurrences(out.other_items@, item) <= left[item.id()]);
        assert(out.other_items@.to_multiset().count(item) > left[item.id()]);
    } else {
        assert forall|item: Item|
            #![trigger out.other_items@.to_multiset().count(item)]
            out.new_items_remaining@[item.id()] + out.key_items@.to_multiset().count(item)
                + out.other_items@.to_multiset().count(item) == s.remaining[item.id()] by {
            lemma_item_ids(item);
            assert(occurrences(out.other_items@, item) <= left[item.id()]);
        }
    }
}

}
