use scratchcards::ledger::cascade_counts;
use scratchcards::{
    establish_score_based_on_winning_selection, generate_card_store, parse_line,
    replicate_card_instance, total_winning_score_of_multiple_scratch_cards, InstanceOverflow,
    ParseError, ScratchCardGame,
};

fn sample_lines() -> Vec<&'static str> {
    vec![
        "Card 1: 41 48 83 86 17 | 83 86  6 31 17  9 48 53",
        "Card 2: 13 32 20 16 61 | 61 30 68 82 17 32 24 19",
        "Card 3:  1 21 53 59 44 | 69 82 63 72 16 21 14  1",
        "Card 4: 41 92 73 84 69 | 59 84 76 51 58  5 54 83",
        "Card 5: 87 83 26 28 32 | 88 30 70 12 93 22 82 36",
        "Card 6: 31 18 13 56 72 | 74 77 10 23 35 67 36 11",
    ]
}

fn tokens(n: usize) -> Vec<String> {
    (0..n).map(|i| format!("{}", i)).collect()
}

fn sorted(mut v: Vec<String>) -> Vec<String> {
    v.sort();
    v
}

#[test]
fn match_count_ignores_which_side_wins() {
    let a = parse_line("Card 1: 1 2 3 4 | 3 4 5").unwrap();
    let b = parse_line("Card 1: 3 4 5 | 1 2 3 4").unwrap();
    assert_eq!(a.match_count(), 2);
    assert_eq!(b.match_count(), 2);
    let c = parse_line("Card 9: 41 48 83 86 17 | 83 86  6 31 17  9 48 53").unwrap();
    let d = parse_line("Card 9: 83 86  6 31 17  9 48 53 | 41 48 83 86 17").unwrap();
    assert_eq!(c.match_count(), d.match_count());
}

#[test]
fn score_doubles_per_match() {
    assert_eq!(establish_score_based_on_winning_selection(&tokens(0)), 0);
    assert_eq!(establish_score_based_on_winning_selection(&tokens(1)), 1);
    assert_eq!(establish_score_based_on_winning_selection(&tokens(2)), 2);
    assert_eq!(establish_score_based_on_winning_selection(&tokens(5)), 16);
    assert_eq!(establish_score_based_on_winning_selection(&tokens(31)), 1 << 30);
    for n in 2..=31 {
        assert_eq!(
            establish_score_based_on_winning_selection(&tokens(n)),
            2 * establish_score_based_on_winning_selection(&tokens(n - 1))
        );
    }
}

#[test]
fn single_card_scenario() {
    let card = parse_line("Card 1: 41 48 83 86 17 | 83 86 6 31 17 9 48 53").unwrap();
    assert_eq!(card.match_count(), 4);
    let shared = card.establish_winning_player_selection();
    assert_eq!(establish_score_based_on_winning_selection(&shared), 8);
}

#[test]
fn six_card_scenario() {
    let cards: Vec<ScratchCardGame> = sample_lines().iter().map(|l| parse_line(l).unwrap()).collect();
    assert_eq!(total_winning_score_of_multiple_scratch_cards(&cards), Some(13));
    let mut ledger = generate_card_store(sample_lines()).unwrap();
    assert_eq!(ledger.len(), 6);
    assert_eq!(ledger.cascade(), Ok(()));
    let counts: Vec<usize> = (1..=6).map(|p| ledger.instances_at(p)).collect();
    assert_eq!(counts, vec![1, 2, 4, 8, 14, 1]);
    assert_eq!(ledger.total_instances(), Some(30));
}

#[test]
fn total_instances_at_least_card_count() {
    let mut ledger = generate_card_store(sample_lines()).unwrap();
    assert_eq!(ledger.total_instances(), Some(6));
    ledger.cascade().unwrap();
    assert!(ledger.total_instances().unwrap() >= ledger.len());
    let mut lonely = generate_card_store(vec!["Card 1: 1 | 2", "Card 2: 3 | 4"]).unwrap();
    lonely.cascade().unwrap();
    assert_eq!(lonely.total_instances(), Some(2));
}

#[test]
fn cascade_twice_changes_nothing() {
    let mut ledger = generate_card_store(sample_lines()).unwrap();
    ledger.cascade().unwrap();
    let once: Vec<usize> = (1..=6).map(|p| ledger.instances_at(p)).collect();
    ledger.cascade().unwrap();
    let twice: Vec<usize> = (1..=6).map(|p| ledger.instances_at(p)).collect();
    assert_eq!(once, twice);
}

#[test]
fn card_without_matches_grants_nothing() {
    let mut ledger =
        generate_card_store(vec!["Card 1: 1 2 | 3 4", "Card 2: 5 | 6", "Card 3: 7 | 7"]).unwrap();
    assert_eq!(ledger.card_at(1).match_count(), 0);
    ledger.cascade().unwrap();
    assert_eq!(ledger.instances_at(1), 1);
    assert_eq!(ledger.instances_at(2), 1);
    assert_eq!(ledger.instances_at(3), 1);
    assert_eq!(cascade_counts(&vec![0, 0, 0]), Some(vec![1, 1, 1]));
}

#[test]
fn copies_stop_at_the_last_card() {
    assert_eq!(cascade_counts(&vec![5, 1, 0]), Some(vec![1, 2, 4]));
    assert_eq!(cascade_counts(&vec![]), Some(vec![]));
    let mut ledger = generate_card_store(vec!["Card 1: 1 2 3 | 1 2 3", "Card 2: 4 | 5"]).unwrap();
    ledger.cascade().unwrap();
    assert_eq!(ledger.instances_at(2), 2);
    assert_eq!(ledger.total_instances(), Some(3));
}

#[test]
fn cascade_overflow_leaves_ledger_unchanged() {
    assert_eq!(cascade_counts(&vec![usize::MAX; 66]), None);
    let numbers = tokens(70).join(" ");
    let lines: Vec<String> = (1..=66).map(|i| format!("Card {}: {} | {}", i, numbers, numbers)).collect();
    let refs: Vec<&str> = lines.iter().map(|l| l.as_str()).collect();
    let mut ledger = generate_card_store(refs).unwrap();
    assert_eq!(ledger.cascade(), Err(InstanceOverflow));
    assert_eq!(ledger.instances_at(66), 1);
}

#[test]
fn missing_bar_is_an_error() {
    assert_eq!(parse_line("Card 1: 41 48 83 86 17 83 86").err(), Some(ParseError::ListSeparator));
    let lines = vec!["Card 1: 1 | 1", "Card 2: 41 48 83", "Card 3 1 | 2"];
    assert_eq!(generate_card_store(lines).err(), Some(ParseError::ListSeparator));
}

#[test]
fn every_parse_error() {
    assert_eq!(parse_line("Card 1 41 48 | 83").err(), Some(ParseError::LabelSeparator));
    assert_eq!(parse_line("Card 1: 41: 48 | 83").err(), Some(ParseError::LabelSeparator));
    assert_eq!(parse_line("Card 1: 41 | 48 | 83").err(), Some(ParseError::ListSeparator));
    assert_eq!(parse_line("Card 1:   | 83").err(), Some(ParseError::NoWinningNumbers));
    assert_eq!(parse_line("Card 1: 5 |  x y ").err(), Some(ParseError::NoPlayedNumbers));
    assert_eq!(parse_line("").err(), Some(ParseError::LabelSeparator));
}

#[test]
fn tokens_are_words_with_a_digit() {
    let card = parse_line("Card 1:\t7  7 x 12\t| 07 a1 -- 7").unwrap();
    assert_eq!(sorted(card.winning_numbers()), vec!["12", "7"]);
    assert_eq!(sorted(card.played_numbers()), vec!["07", "7", "a1"]);
    assert_eq!(card.match_count(), 1);
}

#[test]
fn large_match_count_score_does_not_fit() {
    let numbers = tokens(32).join(" ");
    let line = format!("Card 1: {} | {}", numbers, numbers);
    let card = parse_line(&line).unwrap();
    assert_eq!(card.match_count(), 32);
    assert_eq!(total_winning_score_of_multiple_scratch_cards(&vec![card]), None);
    let numbers = tokens(31).join(" ");
    let line = format!("Card 1: {} | {}", numbers, numbers);
    let card = parse_line(&line).unwrap();
    assert_eq!(total_winning_score_of_multiple_scratch_cards(&vec![card]), Some(1 << 30));
    let two = vec![parse_line(&line).unwrap(), parse_line(&line).unwrap()];
    assert_eq!(total_winning_score_of_multiple_scratch_cards(&two), None);
}

#[test]
fn replicate_gives_cascaded_copies() {
    let cards: Vec<ScratchCardGame> = sample_lines().iter().map(|l| parse_line(l).unwrap()).collect();
    let copies = replicate_card_instance(&cards).unwrap();
    assert_eq!(copies.len(), 6);
    let counts: Vec<usize> = copies.iter().map(|c| c.instances()).collect();
    assert_eq!(counts, vec![1, 2, 4, 8, 14, 1]);
    assert_eq!(counts.iter().sum::<usize>(), 30);
    for (copy, card) in copies.iter().zip(cards.iter()) {
        assert_eq!(copy.winning_numbers(), card.winning_numbers());
        assert_eq!(copy.played_numbers(), card.played_numbers());
    }
    let again = replicate_card_instance(&copies).unwrap();
    let counts_again: Vec<usize> = again.iter().map(|c| c.instances()).collect();
    assert_eq!(counts_again, counts);
    assert_eq!(replicate_card_instance(&vec![]).unwrap().len(), 0);
}

#[test]
fn replicate_clips_at_the_last_card() {
    let cards = vec![
        parse_line("Card 1: 1 2 3 | 1 2 3").unwrap(),
        parse_line("Card 2: 4 | 5").unwrap(),
    ];
    let counts: Vec<usize> = replicate_card_instance(&cards).unwrap().iter().map(|c| c.instances()).collect();
    assert_eq!(counts, vec![1, 2]);
    let cards = vec![
        parse_line("Card 1: 1 2 | 3 4").unwrap(),
        parse_line("Card 2: 5 | 5").unwrap(),
    ];
    let counts: Vec<usize> = replicate_card_instance(&cards).unwrap().iter().map(|c| c.instances()).collect();
    assert_eq!(counts, vec![1, 1]);
}

#[test]
fn replicate_overflow_is_none() {
    let numbers = tokens(70).join(" ");
    let cards: Vec<ScratchCardGame> = (1..=66)
        .map(|i| parse_line(&format!("Card {}: {} | {}", i, numbers, numbers)).unwrap())
        .collect();
    assert!(replicate_card_instance(&cards).is_none());
}

#[test]
fn cards_compare_by_their_sets() {
    let a = parse_line("Card 1: 41 48 83 | 6 31").unwrap();
    let b = parse_line("Card 2: 83 41 48 48 | 31 6").unwrap();
    let c = parse_line("Card 3: 41 48 | 6 31").unwrap();
    assert!(a == b);
    assert!(a != c);
    assert!(a.clone() == a);
}
