//! The order in which the rounds of a schedule are played.
//!
//! The generator turns out rounds in the order of the sit-out rotation. The
//! rounds are then shuffled: from the last position down to the second, each
//! round changes places with one at or before it, chosen by the next word of
//! a source that steps through an arithmetic sequence. The same seed gives the
//! same order.

use vstd::prelude::*;
use vstd::arithmetic::div_mod::lemma_mod_bound;
use vstd::seq_lib::{to_multiset_contains, to_multiset_len, to_multiset_update};

use crate::generate::{generate, round_complete};
use crate::seating::{schedule_view, Round, RoundView};

verus! {

/// The first word of the source that orders the rounds of [`shuffle`].
pub const SEED_INITIAL: u64 = 2;

/// The step of the source that orders the rounds of [`shuffle`].
pub const SEED_INCREMENT: u64 = 13;

/// A source of 64-bit words that form an arithmetic sequence: each word is
/// the one before plus the increment, wrapping round at the end of the range.
#[derive(Clone, Copy, Debug, PartialEq, Eq, Structural)]
pub struct StepSource {
    /// The next word.
    pub value: u64,
    /// The difference between one word and the next.
    pub increment: u64,
}

impl StepSource {
    /// The source after it has given one word.
    pub open spec fn stepped(self) -> StepSource {
        StepSource { value: self.value.wrapping_add(self.increment), increment: self.increment }
    }

    /// The source after it has given `words` words.
    pub open spec fn after(self, words: nat) -> StepSource
        decreases words,
    {
        if words == 0 {
            self
        } else {
            self.stepped().after((words - 1) as nat)
        }
    }

    /// The position below `bound` that the next word chooses.
    pub open spec fn choice(self, bound: nat) -> int {
        self.value as int % bound as int
    }

    /// A source that starts at `initial` and steps by `increment`.
    pub fn new(initial: u64, increment: u64) -> (source: StepSource)
        ensures
            source == (StepSource { value: initial, increment }),
    {
        StepSource { value: initial, increment }
    }

    /// Gives the next word.
    pub fn next_word(&mut self) -> (word: u64)
        ensures
            word == old(self).value,
            *final(self) == old(self).stepped(),
    {
        let word: u64 = self.value;
        self.value = word.wrapping_add(self.increment);
        word
    }

    /// Spends the next word on a position below `bound`: the word's remainder.
    /// Where the words are spread evenly over their range, so are the
    /// positions, but for the few words left over at the top of the range.
    pub fn next_below(&mut self, bound: usize) -> (position: usize)
        requires
            bound > 0,
        ensures
            position == old(self).choice(bound as nat),
            position < bound,
            *final(self) == old(self).stepped(),
    {
        let word: u64 = self.next_word();
        (word % (bound as u64)) as usize
    }
}

/// `items` with the items at positions `i` and `j` changing places.
pub open spec fn swapped<A>(items: Seq<A>, i: int, j: int) -> Seq<A> {
    items.update(i, items[j]).update(j, items[i])
}

/// `items` after the positions from `top` down to 1 have each changed places
/// with the position at or before them that the source's next word chooses.
pub open spec fn dealt<A>(items: Seq<A>, source: StepSource, top: nat) -> Seq<A>
    decreases top,
{
    if top == 0 {
        items
    } else {
        dealt(
            swapped(items, top as int, source.choice(top + 1)),
            source.stepped(),
            (top - 1) as nat,
        )
    }
}

/// `items` shuffled by the words of `source`.
pub open spec fn shuffled<A>(items: Seq<A>, source: StepSource) -> Seq<A> {
    if items.len() == 0 {
        items
    } else {
        dealt(items, source, (items.len() - 1) as nat)
    }
}

/// How many words a shuffle of `count` items takes from its source.
pub open spec fn words_spent(count: nat) -> nat {
    if count == 0 {
        0
    } else {
        (count - 1) as nat
    }
}

/// The positions `0..count` in order.
pub open spec fn positions(count: nat) -> Seq<usize> {
    Seq::new(count, |i: int| i as usize)
}

/// `order` names each of the positions `0..count` exactly once.
pub open spec fn is_order(order: Seq<usize>, count: nat) -> bool {
    order.to_multiset() == positions(count).to_multiset()
}

/// `rounds` laid out in `order`.
pub open spec fn arranged(rounds: Seq<RoundView>, order: Seq<usize>) -> Seq<RoundView> {
    Seq::new(order.len(), |i: int| rounds[order[i] as int])
}

/// Two items that change places stay in the sequence, each as often.
pub proof fn lemma_swapped_same_items<A>(items: Seq<A>, i: int, j: int)
    requires
        0 <= i < items.len(),
        0 <= j < items.len(),
    ensures
        swapped(items, i, j).len() == items.len(),
        swapped(items, i, j).to_multiset() == items.to_multiset(),
{
    let once = items.update(i, items[j]);
    to_multiset_update(items, i, items[j]);
    to_multiset_update(once, j, items[i]);
    to_multiset_contains(items, items[i]);
    to_multiset_contains(items, items[j]);
    assert(items.contains(items[i]));
    assert(items.contains(items[j]));
    assert(once[j] == items[j]);
    assert(swapped(items, i, j).to_multiset() =~= items.to_multiset());
}

/// A shuffle permutes: whatever the source, the outcome holds the same items
/// as went in, each as often.
pub proof fn lemma_dealt_same_items<A>(items: Seq<A>, source: StepSource, top: nat)
    requires
        top < items.len(),
    ensures
        dealt(items, source, top).len() == items.len(),
        dealt(items, source, top).to_multiset() == items.to_multiset(),
    decreases top,
{
    if top > 0 {
        let j = source.choice(top + 1);
        lemma_mod_bound(source.value as int, top as int + 1);
        lemma_swapped_same_items(items, top as int, j);
        lemma_dealt_same_items(swapped(items, top as int, j), source.stepped(), (top - 1) as nat);
    }
}

/// A shuffle permutes: the outcome holds the same items as went in, each as
/// often, in whatever order.
pub proof fn lemma_shuffled_is_permutation<A>(items: Seq<A>, source: StepSource)
    ensures
        shuffled(items, source).len() == items.len(),
        shuffled(items, source).to_multiset() == items.to_multiset(),
{
    if items.len() > 0 {
        lemma_dealt_same_items(items, source, (items.len() - 1) as nat);
    }
}

/// An order of `count` positions has `count` entries, each a position.
pub proof fn lemma_order_in_range(order: Seq<usize>, count: nat)
    requires
        is_order(order, count),
        count <= usize::MAX,
    ensures
        order.len() == count,
        forall|i: int| 0 <= i < order.len() ==> (#[trigger] order[i]) < count,
{
    to_multiset_len(order);
    to_multiset_len(positions(count));
    assert forall|i: int| 0 <= i < order.len() implies (#[trigger] order[i]) < count by {
        to_multiset_contains(order, order[i]);
        to_multiset_contains(positions(count), order[i]);
        assert(order.contains(order[i]));
        let k = choose|k: int| 0 <= k < count && positions(count)[k] == order[i];
        assert(order[i] == k);
    }
}

/// Laying rounds out in positions that have changed places is the same as
/// laying them out and then changing the places.
proof fn lemma_arranged_dealt(rounds: Seq<RoundView>, order: Seq<usize>, source: StepSource, top: nat)
    requires
        top < order.len(),
    ensures
        arranged(rounds, dealt(order, source, top)) == dealt(arranged(rounds, order), source, top),
    decreases top,
{
    if top > 0 {
        let j = source.choice(top + 1);
        lemma_mod_bound(source.value as int, top as int + 1);
        assert(arranged(rounds, swapped(order, top as int, j)) =~= swapped(
            arranged(rounds, order),
            top as int,
            j,
        ));
        lemma_arranged_dealt(rounds, swapped(order, top as int, j), source.stepped(), (top - 1) as nat);
    }
}

/// The order of a shuffle depends on the source and on the number of items
/// alone: the same source shuffles any two schedules of one length alike,
/// putting at each place the round from the position that it puts there when
/// it shuffles the positions themselves.
pub proof fn lemma_shuffled_by_positions(rounds: Seq<RoundView>, source: StepSource)
    requires
        rounds.len() <= usize::MAX,
    ensures
        is_order(shuffled(positions(rounds.len()), source), rounds.len()),
        shuffled(rounds, source) == arranged(rounds, shuffled(positions(rounds.len()), source)),
{
    let places = positions(rounds.len());
    lemma_shuffled_is_permutation(places, source);
    assert(arranged(rounds, places) =~= rounds);
    if rounds.len() > 0 {
        lemma_arranged_dealt(rounds, places, source, (rounds.len() - 1) as nat);
    }
}

/// The same seed gives the same order: two shuffles of one schedule by
/// sources in the same state come out alike and leave the sources alike.
pub proof fn lemma_same_seed_same_order(
    rounds: Seq<RoundView>,
    first: StepSource,
    second: StepSource,
)
    requires
        first.value == second.value,
        first.increment == second.increment,
    ensures
        shuffled(rounds, first) == shuffled(rounds, second),
        first.after(words_spent(rounds.len())) == second.after(words_spent(rounds.len())),
{
}

/// The source after one word more.
proof fn lemma_after_one_more(source: StepSource, words: nat)
    ensures
        source.after(words + 1) == source.after(words).stepped(),
    decreases words,
{
    assert(source.after(words + 1) == source.stepped().after(words));
    if words > 0 {
        lemma_after_one_more(source.stepped(), (words - 1) as nat);
        assert(source.after(words) == source.stepped().after((words - 1) as nat));
    } else {
        assert(source.stepped().after(0) == source.stepped());
    }
}

/// Shuffles the positions `0..count` by the words of `source`.
pub fn deal_order(count: usize, source: &mut StepSource) -> (order: Vec<usize>)
    ensures
        order@ == shuffled(positions(count as nat), *old(source)),
        is_order(order@, count as nat),
        *final(source) == old(source).after(words_spent(count as nat)),
{
    let mut order: Vec<usize> = Vec::new();
    let mut i: usize = 0;
    while i < count
        invariant
            i <= count,
            order@ == positions(i as nat),
        decreases count - i,
    {
        order.push(i);
        i += 1;
        assert(order@ =~= positions(i as nat));
    }
    proof {
        lemma_shuffled_is_permutation(positions(count as nat), *old(source));
    }
    if count == 0 {
        return order;
    }
    let mut top: usize = count - 1;
    while top > 0
        invariant
            top < count,
            order.len() == count,
            dealt(order@, *source, top as nat) == shuffled(positions(count as nat), *old(source)),
            *source == old(source).after((count - 1 - top) as nat),
        decreases top,
    {
        proof {
            lemma_after_one_more(*old(source), (count - 1 - top) as nat);
        }
        let chosen: usize = source.next_below(top + 1);
        let upper: usize = order[top];
        let lower: usize = order[chosen];
        order.set(top, lower);
        order.set(chosen, upper);
        top -= 1;
    }
    order
}

/// Lays the rounds of `schedule` out in `order`: the round at place `i` of the
/// outcome is a copy of the round at position `order[i]`.
pub fn arrange(schedule: &Vec<Round>, order: &Vec<usize>) -> (laid: Vec<Round>)
    requires
        forall|i: int| 0 <= i < order.len() ==> (#[trigger] order[i]) < schedule.len(),
    ensures
        laid.len() == order.len(),
        schedule_view(laid@) == arranged(schedule_view(schedule@), order@),
{
    let mut laid: Vec<Round> = Vec::new();
    let mut i: usize = 0;
    while i < order.len()
        invariant
            i <= order.len(),
            forall|k: int| 0 <= k < order.len() ==> (#[trigger] order[k]) < schedule.len(),
            laid.len() == i,
            forall|k: int| 0 <= k < i ==> (#[trigger] laid@[k])@ == schedule@[order@[k] as int]@,
        decreases order.len() - i,
    {
        let from: usize = order[i];
        let copy = schedule[from].duplicate();
        laid.push(copy);
        i += 1;
    }
    assert(schedule_view(laid@) =~= arranged(schedule_view(schedule@), order@));
    laid
}

/// Shuffles the rounds of `schedule` by the words of `source`. No round is
/// changed, lost or repeated; only their order differs, and it is the order
/// that the same source gives to any schedule of that length.
pub fn reorder(schedule: Vec<Round>, source: &mut StepSource) -> (dealt: Vec<Round>)
    ensures
        schedule_view(dealt@) == shuffled(schedule_view(schedule@), *old(source)),
        dealt.len() == schedule.len(),
        schedule_view(dealt@).to_multiset() == schedule_view(schedule@).to_multiset(),
        *final(source) == old(source).after(words_spent(schedule.len() as nat)),
{
    let order = deal_order(schedule.len(), source);
    proof {
        lemma_order_in_range(order@, schedule.len() as nat);
        lemma_shuffled_by_positions(schedule_view(schedule@), *old(source));
        lemma_shuffled_is_permutation(schedule_view(schedule@), *old(source));
    }
    arrange(&schedule, &order)
}

/// The order into which [`shuffle`] puts `round_count` generated rounds: at
/// place `i` stands the round generated as number `shuffle_order(..)[i]`.
pub open spec fn shuffle_order(round_count: nat) -> Seq<usize> {
    shuffled(positions(round_count), StepSource { value: SEED_INITIAL, increment: SEED_INCREMENT })
}

/// Generates a schedule and shuffles its rounds by the fixed seed
/// `SEED_INITIAL`, `SEED_INCREMENT`.
///
/// The outcome has `round_count` rounds. The round at place `i` is the one
/// generated as round number `shuffle_order(..)[i]`: its sit-outs are those
/// of that turn of the rotation, and it places every player exactly once.
/// Every turn of the rotation has its place.
pub fn shuffle(
    player_count: usize,
    table_count: usize,
    round_count: usize,
    bye_count: usize,
) -> (schedule: Vec<Round>)
    requires
        player_count >= 4,
        table_count == player_count / 4,
        bye_count == player_count % 4,
    ensures
        schedule.len() == round_count,
        is_order(shuffle_order(round_count as nat), round_count as nat),
        forall|i: int|
            0 <= i < round_count ==> round_complete(
                (#[trigger] schedule@[i])@,
                player_count as nat,
                table_count as nat,
                bye_count as nat,
                shuffle_order(round_count as nat)[i] as nat,
            ),
{
    let generated = generate(player_count, table_count, round_count, bye_count);
    let ghost turns = generated@;
    let mut source = StepSource::new(SEED_INITIAL, SEED_INCREMENT);
    let ghost seed = source;
    let schedule = reorder(generated, &mut source);
    proof {
        let order = shuffle_order(round_count as nat);
        lemma_shuffled_by_positions(schedule_view(turns), seed);
        lemma_order_in_range(order, round_count as nat);
        assert forall|i: int| 0 <= i < round_count implies round_complete(
            (#[trigger] schedule@[i])@,
            player_count as nat,
            table_count as nat,
            bye_count as nat,
            order[i] as nat,
        ) by {
            assert(schedule_view(schedule@)[i] == schedule@[i]@);
            assert(schedule_view(turns)[order[i] as int] == turns[order[i] as int]@);
        }
    }
    schedule
}

} // verus!
