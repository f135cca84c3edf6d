use rust_royale::components::Team;
use rust_royale::deck::{Deck, PlayerDeck};

fn names(deck: &Deck) -> (Vec<String>, Vec<String>) {
    let hand = deck.hand.iter().map(|c| c.clone().unwrap_or_default()).collect();
    (hand, deck.queue.clone())
}

fn sorted(mut v: Vec<String>) -> Vec<String> {
    v.sort();
    v
}

#[test]
fn shuffle_is_deterministic_for_a_seed() {
    let d = Deck::new_shuffled(0, 0);
    let (hand, queue) = names(&d);
    assert_eq!(hand, vec!["minions", "giant", "fireball", "arrows"]);
    assert_eq!(queue, vec!["knight", "musketeer", "archer", "mini_pekka"]);

    let r = Deck::new_shuffled(0, 99999);
    let (hand, queue) = names(&r);
    assert_eq!(hand, vec!["fireball", "knight", "arrows", "giant"]);
    assert_eq!(queue, vec!["musketeer", "mini_pekka", "archer", "minions"]);

    let t = Deck::new_shuffled(123456789, 0);
    let (hand, queue) = names(&t);
    assert_eq!(hand, vec!["giant", "arrows", "archer", "fireball"]);
    assert_eq!(queue, vec!["musketeer", "minions", "mini_pekka", "knight"]);
}

#[test]
fn shuffle_deals_every_starter_card_once() {
    let expected = sorted(
        ["knight", "archer", "minions", "arrows", "fireball", "giant", "musketeer", "mini_pekka"]
            .iter()
            .map(|s| s.to_string())
            .collect(),
    );
    for seed in [0u32, 1, 7, 99, 4_000_000_000] {
        for salt in [0u64, 99999, u64::MAX] {
            let d = Deck::new_shuffled(seed, salt);
            let (mut hand, queue) = names(&d);
            hand.extend(queue);
            assert_eq!(sorted(hand), expected);
        }
    }
}

#[test]
fn playing_a_card_rotates_it_to_the_back() {
    let mut d = Deck::new_shuffled(0, 0);
    d.play_card(1);
    let (hand, queue) = names(&d);
    assert_eq!(hand, vec!["minions", "knight", "fireball", "arrows"]);
    assert_eq!(queue, vec!["musketeer", "archer", "mini_pekka", "giant"]);
}

#[test]
fn playing_an_empty_slot_changes_nothing() {
    let mut d = Deck::new_shuffled(0, 0);
    d.hand[2] = None;
    let before_queue = d.queue.clone();
    d.play_card(2);
    assert!(d.hand[2].is_none());
    assert_eq!(d.queue, before_queue);
}

#[test]
fn eight_plays_cycle_the_deck() {
    let mut d = Deck::new_shuffled(5, 5);
    let (h0, q0) = names(&d);
    for _ in 0..8 {
        d.play_card(0);
    }
    let (h1, q1) = names(&d);
    let mut all0 = h0.clone();
    all0.extend(q0);
    let mut all1 = h1.clone();
    all1.extend(q1);
    assert_eq!(sorted(all0), sorted(all1));
}

#[test]
fn player_deck_plays_only_the_selected_card_of_the_team() {
    let mut pd = PlayerDeck::new_shuffled(0, 0);
    let red_before = names(&pd.red);
    pd.blue_selected = Some(0);
    pd.red_selected = Some(3);
    pd.play_selected(Team::Blue);
    assert_eq!(pd.blue_selected, None);
    assert_eq!(pd.red_selected, Some(3));
    assert_eq!(names(&pd.red), red_before);
    let (hand, queue) = names(&pd.blue);
    assert_eq!(hand[0], "knight");
    assert_eq!(queue.last().unwrap(), "minions");

    // nothing selected: nothing is played
    let blue_before = names(&pd.blue);
    pd.play_selected(Team::Blue);
    assert_eq!(names(&pd.blue), blue_before);
}
