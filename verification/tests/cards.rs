use board_reader::{Card, CardError};

#[test]
fn load_cards() {
    let cards = Card::all();
    assert_eq!(cards.len(), 9);

    let names = ["6", "7", "8", "9", "10", "V", "D", "K", "T"];
    for (card, expected_name) in cards.iter().zip(names.iter()) {
        assert_eq!(&card.label(), expected_name);
    }
}

#[test]
fn catalog_is_ordered_by_rank() {
    let cards = Card::all();
    let ranks: Vec<u8> = cards.iter().map(|card| card.rank()).collect();
    assert_eq!(ranks, vec![6, 7, 8, 9, 10, 11, 12, 13, 14]);
    assert_eq!(
        cards,
        vec![
            Card::Six,
            Card::Seven,
            Card::Eight,
            Card::Nine,
            Card::Ten,
            Card::Jack,
            Card::Queen,
            Card::King,
            Card::Ace,
        ]
    );
}

#[test]
fn every_rank_reads_back() {
    for rank in 6u8..=14 {
        let card = Card::from_rank(rank).unwrap();
        assert_eq!(card.rank(), rank);
        assert_eq!(Card::from_label(card.label()), Ok(card));
    }
}

#[test]
fn every_label_reads_back() {
    let pairs = [
        ("6", 6u8),
        ("7", 7),
        ("8", 8),
        ("9", 9),
        ("10", 10),
        ("V", 11),
        ("D", 12),
        ("K", 13),
        ("T", 14),
    ];
    for (label, rank) in pairs.iter() {
        let card = Card::from_label(label).unwrap();
        assert_eq!(card.label(), *label);
        assert_eq!(card.rank(), *rank);
        assert_eq!(Card::from_rank(*rank), Ok(card));
        assert_eq!(Card::from_rank(*rank).unwrap().label(), *label);
    }
}

#[test]
fn numbers_outside_six_to_fourteen_are_no_ranks() {
    for value in [0u8, 1, 5, 15, 16, 100, 255] {
        assert_eq!(Card::from_rank(value), Err(CardError::InvalidRank(value)));
    }
    assert_eq!(Card::from_rank(6), Ok(Card::Six));
    assert_eq!(Card::from_rank(14), Ok(Card::Ace));
}

#[test]
fn other_texts_are_no_labels() {
    let texts = [
        "", "1", "0", "5", "11", "01", "100", "v", "d", "k", "t", "J", "Q", "A", " 6", "6 ", "10 ",
        "VD", "Ten", "\u{442}",
    ];
    for text in texts {
        assert_eq!(
            Card::from_label(text),
            Err(CardError::InvalidLabel(text.to_string()))
        );
    }
}

#[test]
fn court_cards_and_ace_carry_letters() {
    assert_eq!(Card::Jack.label(), "V");
    assert_eq!(Card::Queen.label(), "D");
    assert_eq!(Card::King.label(), "K");
    assert_eq!(Card::Ace.label(), "T");
    assert_eq!(Card::Ten.label(), "10");
    assert_eq!(Card::from_label("V"), Ok(Card::Jack));
    assert_eq!(Card::from_label("D"), Ok(Card::Queen));
    assert_eq!(Card::from_label("K"), Ok(Card::King));
    assert_eq!(Card::from_label("T"), Ok(Card::Ace));
    assert_eq!(Card::from_label("10"), Ok(Card::Ten));
}

#[test]
fn a_card_turns_into_its_rank() {
    let rank: u8 = Card::King.into();
    assert_eq!(rank, 13);
    assert_eq!(u8::from(Card::Six), 6);
    assert_eq!(u8::from(Card::Ace), 14);
}

#[test]
fn cards_are_ordered_by_strength() {
    assert!(Card::Six < Card::Seven);
    assert!(Card::Ten < Card::Jack);
    assert!(Card::Jack < Card::Queen);
    assert!(Card::Queen < Card::King);
    assert!(Card::King < Card::Ace);
}
