use board_reader::{is_hit, Card, CardMatch, ScoreMap, PERFECT, THRESHOLD};

fn found(card: Card, x: usize, y: usize) -> CardMatch {
    CardMatch { card, x, y }
}

#[test]
fn the_threshold_itself_is_a_hit() {
    assert_eq!(THRESHOLD, 900);
    assert_eq!(PERFECT, 1000);
    assert!(is_hit(900));
    assert!(!is_hit(899));
    assert!(is_hit(901));
    assert!(is_hit(1000));
    assert!(!is_hit(0));
    assert!(!is_hit(-1000));
    assert!(!is_hit(i32::MIN));
    assert!(is_hit(i32::MAX));
}

#[test]
fn hits_are_listed_row_after_row() {
    let map = ScoreMap {
        card: Card::Queen,
        rows: vec![
            vec![100, 900, 899, 950],
            vec![1000, 0, 0, 0],
            vec![0, 0, 0, 0],
            vec![-5, 905, 910, 899],
        ],
    };
    assert_eq!(
        map.hits(),
        vec![
            found(Card::Queen, 1, 0),
            found(Card::Queen, 3, 0),
            found(Card::Queen, 0, 1),
            found(Card::Queen, 1, 3),
            found(Card::Queen, 2, 3),
        ]
    );
}

#[test]
fn a_score_just_below_the_threshold_is_no_hit() {
    let map = ScoreMap { card: Card::Six, rows: vec![vec![899, 899], vec![899, 899]] };
    assert_eq!(map.hits(), Vec::<CardMatch>::new());
    let map = ScoreMap { card: Card::Six, rows: vec![vec![899, 900], vec![899, 899]] };
    assert_eq!(map.hits(), vec![found(Card::Six, 1, 0)]);
}

#[test]
fn a_map_without_rows_has_no_hits() {
    let map = ScoreMap { card: Card::Ace, rows: vec![] };
    assert_eq!(map.hits(), Vec::<CardMatch>::new());
    let map = ScoreMap { card: Card::Ace, rows: vec![vec![], vec![], vec![]] };
    assert_eq!(map.hits(), Vec::<CardMatch>::new());
}

#[test]
fn rows_of_different_length_are_read_to_their_end() {
    let map = ScoreMap {
        card: Card::Seven,
        rows: vec![vec![950], vec![], vec![0, 0, 0, 0, 999], vec![0, 930]],
    };
    assert_eq!(
        map.hits(),
        vec![found(Card::Seven, 0, 0), found(Card::Seven, 4, 2), found(Card::Seven, 1, 3)]
    );
}

#[test]
fn neighbouring_hits_are_all_listed() {
    let map = ScoreMap {
        card: Card::Nine,
        rows: vec![vec![0, 0, 0, 0], vec![0, 940, 960, 0], vec![0, 935, 0, 0]],
    };
    assert_eq!(
        map.hits(),
        vec![found(Card::Nine, 1, 1), found(Card::Nine, 2, 1), found(Card::Nine, 1, 2)]
    );
}
