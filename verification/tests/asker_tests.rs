use pixo::ask::{Ask, Asker, AskerBuilder, FlipMode, Reply, Stat};
use pixo::card::{Card, Tip};
use pixo::deck::Deck;
use rand::rngs::StdRng;
use rand::SeedableRng;

fn plain_card(n: usize) -> Card {
    Card::new(vec![format!("q{}", n)], vec![format!("a{}", n)], Tip::Absent, false)
}

fn deck_of(len: usize) -> Deck {
    Deck::new((0..len).map(plain_card).collect())
}

fn asker(len: usize, max_cycle: u32, tries: u32, flip_mode: FlipMode, seed: u64) -> Asker {
    let mut builder = AskerBuilder::new(deck_of(len), StdRng::seed_from_u64(seed));
    builder.max_cycle(max_cycle);
    builder.tries(tries);
    builder.flip_mode(flip_mode);
    builder.build()
}

/// The prompt of the card that is asked, its index, and an answer to it that is right.
fn question(asker: &Asker) -> (String, usize, String) {
    let (card, index) = asker.get_card();
    (card.recto[0].clone(), index, card.verso[0].clone())
}

fn flipped(asker: &Asker) -> usize {
    let deck = asker.deck();
    (0..deck.len()).filter(|i| deck.get_card_by_index(*i).unwrap().recto[0].starts_with('a')).count()
}

fn sorted<T: Ord>(mut items: Vec<T>) -> Vec<T> {
    items.sort();
    items
}

#[test]
fn built_asker_is_ready_for_its_first_question() {
    let asker = asker(4, 1, 1, FlipMode::Recto, 1);
    assert_eq!(asker.cycle_counter(), 0);
    assert_eq!(asker.stat(), Stat::New);
    assert!(!asker.is_over());
    assert!(!asker.is_answered());
    assert!(asker.failed().is_empty());
    assert_eq!(asker.deck().len(), 4);
    assert_eq!(asker.deck().question_index(), 0);
    assert_eq!(asker.get_card().1, 0);
}

#[test]
fn builder_defaults_to_one_cycle_and_one_try() {
    let mut asker = AskerBuilder::new(deck_of(1), StdRng::seed_from_u64(1)).build();
    assert_eq!(flipped(&asker), 0);
    assert!(matches!(asker.ask("wrong"), Reply::Revealed(answer) if answer == "a0"));
    asker.advance();
    let (_, _, right) = question(&asker);
    assert!(matches!(asker.ask(&right), Reply::Correct));
    asker.advance();
    assert!(asker.is_over());
    assert_eq!(asker.cycle_counter(), 1);
}

#[test]
fn build_shuffles_the_deck() {
    let asker = asker(30, 1, 1, FlipMode::Recto, 4);
    let deck = asker.deck();
    let fronts: Vec<String> =
        (0..30).map(|i| deck.get_card_by_index(i).unwrap().recto[0].clone()).collect();
    let given: Vec<String> = (0..30).map(|i| format!("q{}", i)).collect();
    assert_ne!(fronts, given);
    assert_eq!(sorted(fronts), sorted(given));
}

#[test]
fn recto_mode_turns_no_card() {
    assert_eq!(flipped(&asker(8, 1, 1, FlipMode::Recto, 2)), 0);
}

#[test]
fn verso_mode_turns_every_card() {
    assert_eq!(flipped(&asker(8, 1, 1, FlipMode::Verso, 2)), 8);
}

#[test]
fn random_mode_turns_a_quarter_of_the_cards() {
    for len in 1..20 {
        assert_eq!(flipped(&asker(len, 1, 1, FlipMode::Random(false), 2)), len / 4);
        assert_eq!(flipped(&asker(len, 1, 1, FlipMode::Random(true), 2)), len / 4);
    }
}

#[test]
fn right_answer_settles_the_question() {
    let mut asker = asker(3, 1, 3, FlipMode::Recto, 3);
    let (_, _, right) = question(&asker);
    assert!(matches!(asker.ask(&format!("  {}\n", right)), Reply::Correct));
    assert!(asker.is_answered());
    assert!(asker.failed().is_empty());
}

#[test]
fn wrong_answers_get_the_hint_until_the_last_try() {
    let card = Card::new(
        vec!["Felis catus".to_string()],
        vec!["cat".to_string(), "feline".to_string()],
        Tip::One("it purrs".to_string()),
        false,
    );
    let mut builder = AskerBuilder::new(Deck::new(vec![card]), StdRng::seed_from_u64(1));
    builder.tries(3);
    let mut asker = builder.build();
    assert!(matches!(asker.ask("dog"), Reply::Hint(hint) if hint == "Tip : it purrs."));
    assert!(!asker.is_answered());
    assert!(matches!(asker.ask("dog"), Reply::Hint(hint) if hint == "Tip : it purrs."));
    assert!(!asker.is_answered());
    assert!(asker.failed().is_empty());
    assert!(matches!(asker.ask("dog"), Reply::Revealed(answer) if answer == "cat OR feline"));
    assert!(asker.is_answered());
    assert!(!asker.failed().is_empty());
}

#[test]
fn right_answer_at_a_later_try_settles_the_question() {
    let mut asker = asker(2, 1, 2, FlipMode::Recto, 3);
    let (_, _, right) = question(&asker);
    assert!(matches!(asker.ask("no"), Reply::Hint(hint) if hint == "Wrong answer."));
    assert!(matches!(asker.ask(&right), Reply::Correct));
    assert!(asker.is_answered());
    assert!(asker.failed().is_empty());
}

#[test]
fn each_question_gets_its_own_tries() {
    let mut asker = asker(2, 1, 2, FlipMode::Recto, 3);
    assert!(matches!(asker.ask("no"), Reply::Hint(_)));
    assert!(matches!(asker.ask("no"), Reply::Revealed(_)));
    asker.advance();
    assert!(matches!(asker.ask("no"), Reply::Hint(_)));
    assert!(matches!(asker.ask("no"), Reply::Revealed(_)));
}

#[test]
fn card_with_two_answers_is_revealed_with_or() {
    let card = Card::new(
        vec!["Felis catus".to_string()],
        vec!["cat".to_string(), "feline".to_string()],
        Tip::Absent,
        false,
    );
    assert!(card.test("cat"));
    assert!(card.test("feline"));
    assert!(!card.test("dog"));
    let mut builder = AskerBuilder::new(Deck::new(vec![card]), StdRng::seed_from_u64(1));
    builder.tries(2);
    let mut asker = builder.build();
    assert!(matches!(asker.ask("dog"), Reply::Hint(hint) if hint == "Wrong answer."));
    assert!(matches!(asker.ask("dog"), Reply::Revealed(answer) if answer == "cat OR feline"));
}

#[test]
fn three_cards_all_missed_are_asked_again_in_one_retry_pass() {
    let mut asker = asker(3, 1, 1, FlipMode::Recto, 9);
    let mut new_pass = Vec::new();
    for _ in 0..3 {
        assert_eq!(asker.stat(), Stat::New);
        let (front, index, _) = question(&asker);
        assert_eq!(index, new_pass.len());
        new_pass.push(front);
        assert!(matches!(asker.ask("wrong"), Reply::Revealed(_)));
        assert_eq!(asker.cycle_counter(), 0);
        asker.advance();
    }
    assert_eq!(sorted(new_pass.clone()), vec!["q0", "q1", "q2"]);
    assert_eq!(asker.stat(), Stat::Failed);
    assert_eq!(asker.cycle_counter(), 0);
    assert!(!asker.failed().is_empty());

    let mut retry_pass = Vec::new();
    for _ in 0..3 {
        assert_eq!(asker.stat(), Stat::Failed);
        let (front, index, right) = question(&asker);
        assert_eq!(front, new_pass[index]);
        retry_pass.push(index);
        assert!(matches!(asker.ask(&right), Reply::Correct));
        assert_eq!(asker.cycle_counter(), 0);
        assert!(!asker.is_over());
        asker.advance();
    }
    assert_eq!(sorted(retry_pass), vec![0, 1, 2]);
    assert_eq!(asker.cycle_counter(), 1);
    assert_eq!(asker.stat(), Stat::New);
    assert!(asker.failed().is_empty());
    assert!(asker.is_over());
}

#[test]
fn cards_missed_again_fill_the_next_retry_pass() {
    let mut asker = asker(3, 1, 1, FlipMode::Recto, 9);
    for pass in 0..4 {
        let mut asked = Vec::new();
        for _ in 0..3 {
            assert_eq!(asker.stat(), if pass == 0 { Stat::New } else { Stat::Failed });
            asked.push(question(&asker).1);
            assert!(matches!(asker.ask("wrong"), Reply::Revealed(_)));
            asker.advance();
        }
        assert_eq!(sorted(asked), vec![0, 1, 2]);
        assert_eq!(asker.cycle_counter(), 0);
        assert_eq!(asker.stat(), Stat::Failed);
        assert!(!asker.is_over());
    }
}

#[test]
fn one_card_two_cycles_all_right_shows_two_prompts() {
    let mut asker = asker(1, 2, 1, FlipMode::Recto, 5);
    let mut prompts = 0;
    while !asker.is_over() {
        assert!(asker.failed().is_empty());
        assert_eq!(asker.stat(), Stat::New);
        let (front, index, right) = question(&asker);
        assert_eq!(front, "q0");
        assert_eq!(index, 0);
        prompts += 1;
        assert!(matches!(asker.ask(&right), Reply::Correct));
        assert!(asker.failed().is_empty());
        asker.advance();
        assert!(asker.failed().is_empty());
    }
    assert_eq!(prompts, 2);
    assert_eq!(asker.cycle_counter(), 2);
}

#[test]
fn a_cycle_without_a_miss_asks_each_card_once() {
    let mut asker = asker(5, 3, 1, FlipMode::Recto, 6);
    for cycle in 0..3 {
        let mut asked = Vec::new();
        for place in 0..5 {
            assert_eq!(asker.cycle_counter(), cycle);
            let (front, index, right) = question(&asker);
            assert_eq!(index, place);
            asked.push(front);
            assert!(matches!(asker.ask(&right), Reply::Correct));
            asker.advance();
        }
        assert_eq!(sorted(asked), vec!["q0", "q1", "q2", "q3", "q4"]);
    }
    assert!(asker.is_over());
    assert_eq!(asker.cycle_counter(), 3);
}

#[test]
fn a_missed_card_is_asked_in_every_retry_pass_until_it_is_answered() {
    let mut asker = asker(5, 1, 1, FlipMode::Recto, 7);
    let mut misses_left = 3;
    let mut retries = Vec::new();
    let mut steps = 0;
    while !asker.is_over() {
        steps += 1;
        assert!(steps < 100);
        let (front, _, right) = question(&asker);
        if asker.stat() == Stat::Failed {
            // Only one card is ever missed, so each retry pass is one question long.
            retries.push(front.clone());
        }
        if front == "q2" && misses_left > 0 {
            misses_left -= 1;
            assert!(matches!(asker.ask("wrong"), Reply::Revealed(answer) if answer == "a2"));
        } else {
            assert!(matches!(asker.ask(&right), Reply::Correct));
        }
        asker.advance();
    }
    assert_eq!(retries, vec!["q2", "q2", "q2"]);
    assert_eq!(steps, 8);
    assert_eq!(asker.cycle_counter(), 1);
    assert!(asker.failed().is_empty());
}

#[test]
fn retry_passes_ask_only_what_was_missed() {
    let mut asker = asker(6, 2, 1, FlipMode::Recto, 8);
    let mut asked_new = Vec::new();
    let mut asked_failed = Vec::new();
    let mut missed_once = Vec::new();
    let mut steps = 0;
    while !asker.is_over() {
        steps += 1;
        assert!(steps < 100);
        let (front, _, right) = question(&asker);
        let cycle = asker.cycle_counter();
        match asker.stat() {
            Stat::New => asked_new.push((cycle, front.clone())),
            Stat::Failed => asked_failed.push((cycle, front.clone())),
        }
        let odd = front == "q1" || front == "q3" || front == "q5";
        if cycle == 0 && odd && !missed_once.contains(&front) {
            missed_once.push(front);
            assert!(matches!(asker.ask("wrong"), Reply::Revealed(_)));
        } else {
            assert!(matches!(asker.ask(&right), Reply::Correct));
        }
        asker.advance();
    }
    assert_eq!(asked_new.len(), 12);
    assert_eq!(
        sorted(asked_failed),
        vec![(0, "q1".to_string()), (0, "q3".to_string()), (0, "q5".to_string())]
    );
    assert_eq!(asker.cycle_counter(), 2);
}

#[test]
fn the_retry_pass_starts_after_the_last_card_of_the_deck() {
    let mut asker = asker(3, 1, 1, FlipMode::Recto, 2);
    assert!(matches!(asker.ask("wrong"), Reply::Revealed(_)));
    asker.advance();
    assert_eq!(asker.stat(), Stat::New);
    assert_eq!(asker.get_card().1, 1);
    let (_, _, right) = question(&asker);
    assert!(matches!(asker.ask(&right), Reply::Correct));
    asker.advance();
    assert_eq!(asker.stat(), Stat::New);
    assert_eq!(asker.get_card().1, 2);
    let (_, _, right) = question(&asker);
    assert!(matches!(asker.ask(&right), Reply::Correct));
    asker.advance();
    assert_eq!(asker.stat(), Stat::Failed);
    assert_eq!(asker.get_card().1, 0);
    assert_eq!(asker.cycle_counter(), 0);
}

#[test]
fn all_cases_turns_the_deck_at_each_new_cycle() {
    let mut asker = asker(8, 3, 1, FlipMode::Random(true), 10);
    assert_eq!(flipped(&asker), 2);
    for expected in [6, 2, 6] {
        for _ in 0..8 {
            let (_, _, right) = question(&asker);
            assert!(matches!(asker.ask(&right), Reply::Correct));
            asker.advance();
        }
        assert_eq!(flipped(&asker), expected);
    }
    assert!(asker.is_over());
}

#[test]
fn without_all_cases_the_sides_stay_over_the_cycles() {
    let mut asker = asker(8, 2, 1, FlipMode::Random(false), 10);
    assert_eq!(flipped(&asker), 2);
    for _ in 0..2 {
        for _ in 0..8 {
            let (_, _, right) = question(&asker);
            assert!(matches!(asker.ask(&right), Reply::Correct));
            asker.advance();
        }
        assert_eq!(flipped(&asker), 2);
    }
    assert!(asker.is_over());
}

#[test]
fn a_new_cycle_asks_in_another_order() {
    let mut asker = asker(30, 2, 1, FlipMode::Recto, 12);
    let mut cycles: Vec<Vec<String>> = vec![Vec::new(), Vec::new()];
    while !asker.is_over() {
        let cycle = asker.cycle_counter() as usize;
        let (front, _, right) = question(&asker);
        cycles[cycle].push(front);
        assert!(matches!(asker.ask(&right), Reply::Correct));
        asker.advance();
    }
    assert_ne!(cycles[0], cycles[1]);
    assert_eq!(sorted(cycles[0].clone()), sorted(cycles[1].clone()));
}
