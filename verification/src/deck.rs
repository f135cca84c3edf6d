use vstd::prelude::*;
use crate::components::Team;
use vstd::multiset::Multiset;

verus! {

broadcast use vstd::seq_lib::group_to_multiset_ensures, vstd::multiset::group_multiset_axioms;

/// Multiplier of the deck-shuffling linear congruential generator.
pub const LCG_MULTIPLIER: u64 = 6364136223846793005;

/// Increment of the deck-shuffling linear congruential generator.
pub const LCG_INCREMENT: u64 = 1442695040888963407;

/// The next seed of the shuffling generator.
pub open spec fn lcg_next(seed: u64) -> u64 {
    vstd::wrapping::u64_specs::wrapping_add(
        vstd::wrapping::u64_specs::wrapping_mul(seed, LCG_MULTIPLIER),
        LCG_INCREMENT,
    )
}

/// `cards` with the entries at `i` and `j` exchanged.
pub open spec fn swapped<A>(cards: Seq<A>, i: int, j: int) -> Seq<A> {
    cards.update(i, cards[j]).update(j, cards[i])
}

/// The Fisher-Yates pass over positions `i, i - 1, ..., 1`: position `i` is
/// exchanged with position `seed' mod (i + 1)`, where `seed'` is the next seed.
pub open spec fn shuffle_from<A>(cards: Seq<A>, seed: u64, i: int) -> Seq<A>
    decreases i,
{
    if i <= 0 {
        cards
    } else {
        let s = lcg_next(seed);
        let j = ((s as usize) % ((i + 1) as usize)) as int;
        shuffle_from(swapped(cards, i, j), s, i - 1)
    }
}

/// The eight cards every deck is built from, in their unshuffled order.
pub open spec fn starter_cards() -> Seq<Seq<char>> {
    seq![
        "knight"@,
        "archer"@,
        "minions"@,
        "arrows"@,
        "fireball"@,
        "giant"@,
        "musketeer"@,
        "mini_pekka"@,
    ]
}

/// The order of the starter cards after shuffling with a clock reading and a salt.
pub open spec fn shuffled_starter(clock_nanos: u32, salt: u64) -> Seq<Seq<char>> {
    shuffle_from(
        starter_cards(),
        vstd::wrapping::u64_specs::wrapping_add(clock_nanos as u64, salt),
        7,
    )
}

/// Exchanging two entries keeps the same cards.
pub proof fn lemma_swapped_same_cards<A>(cards: Seq<A>, i: int, j: int)
    requires
        0 <= i < cards.len(),
        0 <= j < cards.len(),
    ensures
        swapped(cards, i, j).to_multiset() == cards.to_multiset(),
        swapped(cards, i, j).len() == cards.len(),
{
    broadcast use vstd::seq_lib::to_multiset_update, vstd::multiset::group_multiset_properties;

    let c1 = cards.update(i, cards[j]);
    assert(c1.to_multiset() =~= cards.to_multiset().insert(cards[j]).remove(cards[i]));
    assert(c1.update(j, cards[i]).to_multiset() =~= c1.to_multiset().insert(cards[i]).remove(c1[j]));
    if i == j {
        assert(c1 =~= cards);
        assert(swapped(cards, i, j) =~= cards);
    } else {
        assert(c1[j] == cards[j]);
    }
    assert(swapped(cards, i, j).to_multiset() =~= cards.to_multiset());
}

/// Shuffling only reorders the cards: it is a permutation.
pub proof fn lemma_shuffle_same_cards<A>(cards: Seq<A>, seed: u64, i: int)
    requires
        i < cards.len(),
        i < usize::MAX,
    ensures
        shuffle_from(cards, seed, i).to_multiset() == cards.to_multiset(),
        shuffle_from(cards, seed, i).len() == cards.len(),
    decreases i,
{
    if i > 0 {
        let s = lcg_next(seed);
        let m = (i + 1) as usize;
        let j = ((s as usize) % m) as int;
        assert(m as int == i + 1);
        assert(0 <= j < m);
        lemma_swapped_same_cards(cards, i, j);
        lemma_shuffle_same_cards(swapped(cards, i, j), s, i - 1);
    }
}

proof fn lemma_hand_cards_replace(hand: Seq<Option<String>>, slot: int, c: String, x: String)
    requires
        0 <= slot < hand.len(),
        hand[slot] == Some(c),
    ensures
        hand_cards(hand.update(slot, Some(x))).to_multiset() == hand_cards(hand).to_multiset().remove(
            c,
        ).insert(x),
    decreases hand.len(),
{
    broadcast use vstd::multiset::group_multiset_properties;

    let h2 = hand.update(slot, Some(x));
    if slot == hand.len() - 1 {
        assert(h2.drop_last() =~= hand.drop_last());
        assert(hand_cards(h2) == hand_cards(hand.drop_last()).push(x));
        assert(hand_cards(hand) == hand_cards(hand.drop_last()).push(c));
        assert(hand_cards(hand).to_multiset() =~= hand_cards(hand.drop_last()).to_multiset().insert(c));
        assert(hand_cards(h2).to_multiset() =~= hand_cards(hand).to_multiset().remove(c).insert(x));
    } else {
        assert(h2.drop_last() =~= hand.drop_last().update(slot, Some(x)));
        lemma_hand_cards_replace(hand.drop_last(), slot, c, x);
        assert(h2.last() == hand.last());
        match hand.last() {
            Some(d) => {
                assert(hand_cards(h2).to_multiset() =~= hand_cards(h2.drop_last()).to_multiset().insert(d));
                assert(hand_cards(hand).to_multiset() =~= hand_cards(hand.drop_last()).to_multiset().insert(
                    d,
                ));
                assert(hand_cards(hand.drop_last()).to_multiset().count(c) > 0) by {
                    assert(hand_cards(hand.drop_last().update(slot, Some(x))).to_multiset() =~= hand_cards(
                        hand.drop_last(),
                    ).to_multiset().remove(c).insert(x));
                    lemma_hand_holds(hand.drop_last(), slot, c);
                }
                assert(hand_cards(h2).to_multiset() =~= hand_cards(hand).to_multiset().remove(c).insert(
                    x,
                ));
            },
            None => {},
        }
    }
}

proof fn lemma_hand_holds(hand: Seq<Option<String>>, slot: int, c: String)
    requires
        0 <= slot < hand.len(),
        hand[slot] == Some(c),
    ensures
        hand_cards(hand).to_multiset().count(c) > 0,
    decreases hand.len(),
{
    if slot < hand.len() - 1 {
        lemma_hand_holds(hand.drop_last(), slot, c);
        match hand.last() {
            Some(d) => {
                assert(hand_cards(hand).to_multiset() =~= hand_cards(hand.drop_last()).to_multiset().insert(d));
            },
            None => {},
        }
    } else {
        assert(hand_cards(hand).to_multiset() =~= hand_cards(hand.drop_last()).to_multiset().insert(c));
    }
}

/// Playing a card never adds or loses a card: the deck keeps the same cards.
pub proof fn law_play_keeps_cards(hand: Seq<Option<String>>, queue: Seq<String>, slot: int)
    requires
        0 <= slot < hand.len(),
    ensures
        all_cards(play_result(hand, queue, slot).0, play_result(hand, queue, slot).1) == all_cards(
            hand,
            queue,
        ),
{
    broadcast use vstd::multiset::group_multiset_properties;

    match hand[slot] {
        Some(c) => {
            let q1 = queue.push(c);
            let x = q1[0];
            lemma_hand_cards_replace(hand, slot, c, x);
            lemma_hand_holds(hand, slot, c);
            assert(q1.drop_first() =~= q1.remove(0));
            assert(q1.drop_first().to_multiset() =~= queue.to_multiset().insert(c).remove(x));
            assert(q1.to_multiset().count(x) > 0) by {
                assert(q1.contains(x)) by {
                    assert(q1[0] == x);
                }
            }
            assert(all_cards(play_result(hand, queue, slot).0, play_result(hand, queue, slot).1)
                =~= all_cards(hand, queue));
        },
        None => {},
    }
}

/// Playing a card sends it to the back of the queue and brings the front of the
/// queue into the emptied hand slot.
pub proof fn law_played_card_cycles_to_back(hand: Seq<Option<String>>, queue: Seq<String>, slot: int)
    requires
        0 <= slot < hand.len(),
        hand[slot] is Some,
        queue.len() > 0,
    ensures
        play_result(hand, queue, slot).1.last() == hand[slot]->0,
        play_result(hand, queue, slot).0[slot] == Some(queue[0]),
        play_result(hand, queue, slot).1.len() == queue.len(),
        forall|k: int| 0 <= k < hand.len() && k != slot ==> #[trigger] play_result(hand, queue, slot).0[k] == hand[k],
{
}

/// Every shuffle deals the same eight starter cards, each exactly as often as
/// in the unshuffled deck.
pub proof fn law_shuffle_is_permutation(clock_nanos: u32, salt: u64)
    ensures
        shuffled_starter(clock_nanos, salt).to_multiset() == starter_cards().to_multiset(),
        shuffled_starter(clock_nanos, salt).len() == 8,
{
    lemma_shuffle_same_cards(starter_cards(), vstd::wrapping::u64_specs::wrapping_add(clock_nanos as u64, salt), 7);
}

/// A player's cards: four in hand and the rest waiting in a queue.
#[derive(Debug, Clone)]
pub struct Deck {
    pub hand: [Option<String>; 4],
    pub queue: Vec<String>,
}

/// The cards held in a hand, slot by slot, skipping empty slots.
pub open spec fn hand_cards(hand: Seq<Option<String>>) -> Seq<String>
    decreases hand.len(),
{
    if hand.len() == 0 {
        Seq::empty()
    } else {
        let rest = hand_cards(hand.drop_last());
        match hand.last() {
            Some(c) => rest.push(c),
            None => rest,
        }
    }
}

/// Every card of a deck, in hand or queued, counted with multiplicity.
pub open spec fn all_cards(hand: Seq<Option<String>>, queue: Seq<String>) -> Multiset<String> {
    hand_cards(hand).to_multiset().add(queue.to_multiset())
}

/// The hand and queue after the card in `slot` is played: the played card
/// goes to the back of the queue and the card at the front of the queue takes
/// its place in the hand. Playing an empty slot changes nothing.
pub open spec fn play_result(hand: Seq<Option<String>>, queue: Seq<String>, slot: int) -> (
    Seq<Option<String>>,
    Seq<String>,
) {
    match hand[slot] {
        Some(c) => (hand.update(slot, Some(queue.push(c)[0])), queue.push(c).drop_first()),
        None => (hand, queue),
    }
}

impl Deck {
    /// Shuffles the eight starter cards with a generator seeded by a clock
    /// reading plus a salt, deals the first four into the hand and queues the rest.
    pub fn new_shuffled(clock_nanos: u32, salt: u64) -> (deck: Deck)
        ensures
            deck.hand@.len() == 4,
            forall|k: int|
                0 <= k < 4 ==> (#[trigger] deck.hand@[k]) is Some && deck.hand@[k]->0@ == shuffled_starter(
                    clock_nanos,
                    salt,
                )[k],
            deck.queue@.len() == 4,
            forall|k: int| 0 <= k < 4 ==> (#[trigger] deck.queue@[k])@ == shuffled_starter(clock_nanos, salt)[k + 4],
    {
        let mut cards: Vec<String> = Vec::new();
        cards.push("knight".to_owned());
        cards.push("archer".to_owned());
        cards.push("minions".to_owned());
        cards.push("arrows".to_owned());
        cards.push("fireball".to_owned());
        cards.push("giant".to_owned());
        cards.push("musketeer".to_owned());
        cards.push("mini_pekka".to_owned());
        let ghost names = cards@.map_values(|c: String| c@);
        assert(names =~= starter_cards());
        let mut seed: u64 = (clock_nanos as u64).wrapping_add(salt);
        let mut i: usize = 7;
        while i >= 1
            invariant
                i <= 7,
                cards@.len() == 8,
                shuffle_from(cards@.map_values(|c: String| c@), seed, i as int) == shuffled_starter(
                    clock_nanos,
                    salt,
                ),
            decreases i,
        {
            let ghost before = cards@.map_values(|c: String| c@);
            seed = seed.wrapping_mul(LCG_MULTIPLIER).wrapping_add(LCG_INCREMENT);
            let j: usize = (seed as usize) % (i + 1);
            let a = cards[i].clone();
            let b = cards[j].clone();
            cards[i] = b;
            cards[j] = a;
            proof {
                assert(cards@.map_values(|c: String| c@) =~= swapped(before, i as int, j as int));
            }
            i = i - 1;
        }
        let c0 = cards.remove(0);
        let c1 = cards.remove(0);
        let c2 = cards.remove(0);
        let c3 = cards.remove(0);
        let hand = [Some(c0), Some(c1), Some(c2), Some(c3)];
        Deck { hand, queue: cards }
    }

    /// Plays the card in hand slot `slot` (see `play_result`).
    pub fn play_card(&mut self, slot: usize)
        requires
            slot < 4,
        ensures
            (final(self).hand@, final(self).queue@) == play_result(old(self).hand@, old(self).queue@, slot as int),
    {
        let taken = self.hand[slot].clone();
        match taken {
            Some(card) => {
                self.queue.push(card);
                let next = self.queue.remove(0);
                self.hand[slot] = Some(next);
            },
            None => {},
        }
    }
}

/// Both players' decks and the hand slot each has selected, if any.
#[derive(Debug, Clone)]
pub struct PlayerDeck {
    pub blue: Deck,
    pub red: Deck,
    pub blue_selected: Option<usize>,
    pub red_selected: Option<usize>,
}

impl PlayerDeck {
    /// Shuffles a deck for each side (salts 0 for Blue and 99999 for Red), with
    /// nothing selected.
    pub fn new_shuffled(blue_clock_nanos: u32, red_clock_nanos: u32) -> (d: PlayerDeck)
        ensures
            d.blue.hand@.len() == 4,
            forall|k: int|
                0 <= k < 4 ==> (#[trigger] d.blue.hand@[k]) is Some && d.blue.hand@[k]->0@
                    == shuffled_starter(blue_clock_nanos, 0)[k],
            d.blue.queue@.len() == 4,
            forall|k: int|
                0 <= k < 4 ==> (#[trigger] d.blue.queue@[k])@ == shuffled_starter(blue_clock_nanos, 0)[k + 4],
            d.red.hand@.len() == 4,
            forall|k: int|
                0 <= k < 4 ==> (#[trigger] d.red.hand@[k]) is Some && d.red.hand@[k]->0@
                    == shuffled_starter(red_clock_nanos, 99999)[k],
            d.red.queue@.len() == 4,
            forall|k: int|
                0 <= k < 4 ==> (#[trigger] d.red.queue@[k])@ == shuffled_starter(red_clock_nanos, 99999)[k + 4],
            d.blue_selected is None,
            d.red_selected is None,
    {
        PlayerDeck {
            blue: Deck::new_shuffled(blue_clock_nanos, 0),
            red: Deck::new_shuffled(red_clock_nanos, 99999),
            blue_selected: None,
            red_selected: None,
        }
    }

    /// The slot `team` has selected.
    pub open spec fn selected(&self, team: Team) -> Option<usize> {
        match team {
            Team::Blue => self.blue_selected,
            Team::Red => self.red_selected,
        }
    }

    /// After `team` deploys a card: the selected card of that team (if any) is
    /// played and its selection cleared. The other side is untouched.
    pub fn play_selected(&mut self, team: Team)
        requires
            old(self).selected(team) matches Some(s) ==> s < 4,
        ensures
            final(self).selected(team) is None,
            final(self).selected(team.spec_opponent()) == old(self).selected(team.spec_opponent()),
            team == Team::Blue ==> final(self).red.hand@ == old(self).red.hand@ && final(self).red.queue@ == old(self).red.queue@,
            team == Team::Red ==> final(self).blue.hand@ == old(self).blue.hand@ && final(self).blue.queue@ == old(self).blue.queue@,
            team == Team::Blue ==> (final(self).blue.hand@, final(self).blue.queue@) == match old(self).blue_selected {
                Some(s) => play_result(old(self).blue.hand@, old(self).blue.queue@, s as int),
                None => (old(self).blue.hand@, old(self).blue.queue@),
            },
            team == Team::Red ==> (final(self).red.hand@, final(self).red.queue@) == match old(self).red_selected {
                Some(s) => play_result(old(self).red.hand@, old(self).red.queue@, s as int),
                None => (old(self).red.hand@, old(self).red.queue@),
            },
    {
        match team {
            Team::Blue => {
                if let Some(s) = self.blue_selected {
                    self.blue.play_card(s);
                }
                self.blue_selected = None;
            },
            Team::Red => {
                if let Some(s) = self.red_selected {
                    self.red.play_card(s);
                }
                self.red_selected = None;
            },
        }
    }
}

} // verus!
