use pixo::ask::Ask;
use pixo::card::{Card, Tip};
use pixo::deck::Deck;
use rand::rngs::StdRng;
use rand::SeedableRng;

fn plain_card(n: usize, only_recto: bool) -> Card {
    Card::new(vec![format!("q{}", n)], vec![format!("a{}", n)], Tip::Absent, only_recto)
}

fn deck_of(len: usize) -> Deck {
    Deck::new((0..len).map(|n| plain_card(n, false)).collect())
}

fn fronts(deck: &Deck) -> Vec<String> {
    (0..deck.len()).map(|i| deck.get_card_by_index(i).unwrap().recto[0].clone()).collect()
}

fn flipped_places(deck: &Deck) -> Vec<usize> {
    (0..deck.len()).filter(|i| deck.get_card_by_index(*i).unwrap().recto[0].starts_with('a')).collect()
}

#[test]
fn new_deck_starts_at_its_first_card() {
    let deck = deck_of(3);
    assert_eq!(deck.len(), 3);
    assert_eq!(deck.question_index(), 0);
    let (card, index) = deck.get_card();
    assert_eq!(card.recto[0], "q0");
    assert_eq!(index, 0);
}

#[test]
fn empty_deck_has_no_card() {
    let deck = Deck::new(Vec::new());
    assert_eq!(deck.len(), 0);
    assert_eq!(deck.question_index(), 0);
    assert!(deck.get_card_by_index(0).is_none());
    assert!(deck.is_complete());
}

#[test]
fn advance_goes_round() {
    let mut deck = deck_of(3);
    deck.advance();
    assert_eq!(deck.question_index(), 1);
    assert_eq!(deck.get_card().0.recto[0], "q1");
    deck.advance();
    assert_eq!(deck.question_index(), 2);
    deck.advance();
    assert_eq!(deck.question_index(), 0);
    assert_eq!(deck.get_card().0.recto[0], "q0");
}

#[test]
fn advance_on_a_single_card_stays() {
    let mut deck = deck_of(1);
    deck.advance();
    assert_eq!(deck.question_index(), 0);
}

#[test]
fn get_card_by_index_in_and_out_of_range() {
    let deck = deck_of(3);
    assert_eq!(deck.get_card_by_index(2).unwrap().recto[0], "q2");
    assert!(deck.get_card_by_index(3).is_none());
    assert!(deck.get_card_by_index(usize::MAX).is_none());
}

#[test]
fn push_adds_at_the_end() {
    let mut deck = deck_of(2);
    deck.advance();
    deck.push(plain_card(9, false));
    assert_eq!(deck.len(), 3);
    assert_eq!(deck.question_index(), 1);
    assert_eq!(fronts(&deck), vec!["q0", "q1", "q9"]);
}

#[test]
fn flip_all_turns_every_card() {
    let mut deck = deck_of(5);
    deck.advance();
    deck.flip_all();
    assert_eq!(fronts(&deck), vec!["a0", "a1", "a2", "a3", "a4"]);
    assert_eq!(deck.question_index(), 1);
}

#[test]
fn flip_all_skips_only_recto_cards() {
    let mut deck = Deck::new(vec![plain_card(0, false), plain_card(1, true), plain_card(2, false)]);
    deck.flip_all();
    assert_eq!(fronts(&deck), vec!["a0", "q1", "a2"]);
}

#[test]
fn flip_nth_turns_one_card() {
    let mut deck = deck_of(3);
    assert_eq!(deck.flip_nth(1), Some(()));
    assert_eq!(fronts(&deck), vec!["q0", "a1", "q2"]);
}

#[test]
fn flip_nth_past_the_end_does_nothing() {
    let mut deck = deck_of(3);
    assert_eq!(deck.flip_nth(3), None);
    assert_eq!(fronts(&deck), vec!["q0", "q1", "q2"]);
}

#[test]
fn flip_each_turns_the_listed_cards() {
    let mut deck = deck_of(5);
    deck.flip_each(&vec![4, 0, 2]);
    assert_eq!(fronts(&deck), vec!["a0", "q1", "a2", "q3", "a4"]);
}

#[test]
fn flip_each_takes_an_index_as_often_as_listed() {
    let mut deck = deck_of(3);
    deck.flip_each(&vec![1, 7, 1, 2]);
    assert_eq!(fronts(&deck), vec!["q0", "q1", "a2"]);
    deck.flip_each(&Vec::new());
    assert_eq!(fronts(&deck), vec!["q0", "q1", "a2"]);
}

#[test]
fn flip_random_turns_a_quarter_of_the_cards() {
    for len in 0..40 {
        for seed in 0..5 {
            let mut rng = StdRng::seed_from_u64(seed);
            let mut deck = deck_of(len);
            deck.flip_random(&mut rng);
            assert_eq!(flipped_places(&deck).len(), len / 4, "{} cards, seed {}", len, seed);
            assert_eq!(deck.len(), len);
        }
    }
}

#[test]
fn flip_random_of_eight_turns_exactly_two() {
    let mut rng = StdRng::seed_from_u64(11);
    let mut deck = deck_of(8);
    deck.flip_random(&mut rng);
    let places = flipped_places(&deck);
    assert_eq!(places.len(), 2);
    assert_ne!(places[0], places[1]);
    for (i, front) in fronts(&deck).iter().enumerate() {
        let side = if places.contains(&i) { 'a' } else { 'q' };
        assert_eq!(front, &format!("{}{}", side, i));
    }
}

#[test]
fn flip_random_of_a_large_deck() {
    let mut rng = StdRng::seed_from_u64(3);
    let mut deck = deck_of(1000);
    deck.flip_random(&mut rng);
    assert_eq!(flipped_places(&deck).len(), 250);
}

#[test]
fn flip_random_picks_differently_with_another_seed() {
    let mut first = deck_of(40);
    first.flip_random(&mut StdRng::seed_from_u64(1));
    let mut second = deck_of(40);
    second.flip_random(&mut StdRng::seed_from_u64(2));
    assert_ne!(flipped_places(&first), flipped_places(&second));
}

#[test]
fn suffle_keeps_the_cards() {
    let mut rng = StdRng::seed_from_u64(5);
    let mut deck = deck_of(30);
    deck.advance();
    deck.suffle(&mut rng);
    assert_eq!(deck.len(), 30);
    assert_eq!(deck.question_index(), 1);
    let mut after = fronts(&deck);
    after.sort();
    let mut before = fronts(&deck_of(30));
    before.sort();
    assert_eq!(after, before);
}

#[test]
fn suffle_changes_the_order() {
    let mut rng = StdRng::seed_from_u64(5);
    let mut deck = deck_of(30);
    deck.suffle(&mut rng);
    assert_ne!(fronts(&deck), fronts(&deck_of(30)));
}

#[test]
fn suffle_is_told_by_the_seed() {
    let mut first = deck_of(30);
    first.suffle(&mut StdRng::seed_from_u64(8));
    let mut second = deck_of(30);
    second.suffle(&mut StdRng::seed_from_u64(8));
    assert_eq!(fronts(&first), fronts(&second));
}

#[test]
fn is_complete_finds_a_card_without_a_side() {
    let mut deck = deck_of(3);
    assert!(deck.is_complete());
    deck.push(Card::new(Vec::new(), vec!["a".to_string()], Tip::Absent, false));
    assert!(!deck.is_complete());
}
