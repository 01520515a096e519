use board_reader::{collect, select, sort_stably, Card, CardMatch, Order, ScoreMap, SLOTS};

fn found(card: Card, x: usize, y: usize) -> CardMatch {
    CardMatch { card, x, y }
}

#[test]
fn keys_of_the_two_orders() {
    let m = found(Card::Ten, 5, 2);
    assert_eq!(Order::Row.key(m), 2);
    assert_eq!(Order::Reading.key(m), 45);
    let m = found(Card::Ten, 0, 0);
    assert_eq!(Order::Row.key(m), 0);
    assert_eq!(Order::Reading.key(m), 0);
    let m = found(Card::Ten, 19, 3);
    assert_eq!(Order::Reading.key(m), 79);
    let m = found(Card::Ten, usize::MAX, usize::MAX);
    assert_eq!(Order::Row.key(m), usize::MAX as u128);
    assert_eq!(Order::Reading.key(m), 21 * (usize::MAX as u128));
}

#[test]
fn sorting_by_row_keeps_ties_as_they_came() {
    let items = vec![
        found(Card::Six, 9, 2),
        found(Card::Seven, 1, 1),
        found(Card::Eight, 0, 2),
        found(Card::Nine, 7, 0),
        found(Card::Ten, 3, 1),
        found(Card::Jack, 5, 2),
    ];
    assert_eq!(
        sort_stably(&items, Order::Row),
        vec![
            found(Card::Nine, 7, 0),
            found(Card::Seven, 1, 1),
            found(Card::Ten, 3, 1),
            found(Card::Six, 9, 2),
            found(Card::Eight, 0, 2),
            found(Card::Jack, 5, 2),
        ]
    );
}

#[test]
fn sorting_in_reading_order_goes_by_x_plus_twenty_y() {
    let items = vec![
        found(Card::Six, 30, 0),
        found(Card::Seven, 0, 1),
        found(Card::Eight, 19, 0),
        found(Card::Nine, 20, 0),
        found(Card::Ten, 10, 1),
        found(Card::Jack, 0, 0),
    ];
    assert_eq!(
        sort_stably(&items, Order::Reading),
        vec![
            found(Card::Jack, 0, 0),
            found(Card::Eight, 19, 0),
            found(Card::Seven, 0, 1),
            found(Card::Nine, 20, 0),
            found(Card::Six, 30, 0),
            found(Card::Ten, 10, 1),
        ]
    );
}

#[test]
fn sorting_nothing_gives_nothing() {
    let nothing: Vec<CardMatch> = Vec::new();
    assert_eq!(sort_stably(&nothing, Order::Row), nothing);
    assert_eq!(sort_stably(&nothing, Order::Reading), nothing);
    assert_eq!(select(&nothing), nothing);
}

#[test]
fn sorting_matches_the_standard_stable_sort() {
    let mut items = Vec::new();
    let mut seed: usize = 12345;
    for i in 0..200 {
        seed = seed.wrapping_mul(1103515245).wrapping_add(12345) % 2147483648;
        let x = seed % 50;
        seed = seed.wrapping_mul(1103515245).wrapping_add(12345) % 2147483648;
        let y = seed % 7;
        items.push(found(Card::all()[i % 9], x, y));
    }
    let mut by_row = items.clone();
    by_row.sort_by_key(|m| m.y);
    assert_eq!(sort_stably(&items, Order::Row), by_row);
    let mut reading = items.clone();
    reading.sort_by_key(|m| m.x + 20 * m.y);
    assert_eq!(sort_stably(&items, Order::Reading), reading);

    let mut expected = items.clone();
    expected.sort_by_key(|m| m.y);
    expected.truncate(36);
    expected.sort_by_key(|m| m.x + 20 * m.y);
    assert_eq!(select(&items), expected);
}

#[test]
fn fewer_candidates_than_places_are_all_kept() {
    let items = vec![
        found(Card::Six, 50, 3),
        found(Card::Seven, 10, 3),
        found(Card::Eight, 0, 9),
        found(Card::Nine, 5, 0),
    ];
    assert_eq!(
        select(&items),
        vec![
            found(Card::Nine, 5, 0),
            found(Card::Seven, 10, 3),
            found(Card::Six, 50, 3),
            found(Card::Eight, 0, 9),
        ]
    );
}

#[test]
fn the_cut_keeps_the_thirty_six_topmost() {
    assert_eq!(SLOTS, 36);
    let mut items = Vec::new();
    // Forty candidates, the lowest first: rows 39 down to 0.
    for i in 0..40usize {
        items.push(found(Card::Six, 0, 39 - i));
    }
    let chosen = select(&items);
    assert_eq!(chosen.len(), 36);
    for (i, m) in chosen.iter().enumerate() {
        assert_eq!(*m, found(Card::Six, 0, i));
    }
}

#[test]
fn a_dropped_candidate_stays_out_whatever_its_column() {
    let mut items = Vec::new();
    // A candidate far to the left in the lowest row comes first in the list
    // and would lead in reading order if the rows did not count.
    items.push(found(Card::Ace, 0, 6));
    for row in 0..6usize {
        for column in 0..6usize {
            items.push(found(Card::Seven, 100 + 10 * column, row));
        }
    }
    let chosen = select(&items);
    assert_eq!(chosen.len(), 36);
    assert!(chosen.iter().all(|m| m.card == Card::Seven));
    assert!(!chosen.contains(&found(Card::Ace, 0, 6)));
}

#[test]
fn of_equal_rows_the_first_collected_survive() {
    let mut items = Vec::new();
    for i in 0..35usize {
        items.push(found(Card::Eight, i, 0));
    }
    // Three candidates in the last surviving row: only the first of them fits.
    items.push(found(Card::Nine, 500, 1));
    items.push(found(Card::Ten, 0, 1));
    items.push(found(Card::Jack, 1, 1));
    let chosen = select(&items);
    assert_eq!(chosen.len(), 36);
    assert!(chosen.contains(&found(Card::Nine, 500, 1)));
    assert!(!chosen.contains(&found(Card::Ten, 0, 1)));
    assert!(!chosen.contains(&found(Card::Jack, 1, 1)));
    assert_eq!(chosen[35], found(Card::Nine, 500, 1));
}

#[test]
fn the_second_sort_sees_the_survivors_only() {
    // Thirty-six candidates in row 0 and one in row 1 with the smallest key
    // of its row: the cut comes before the reading order.
    let mut items = Vec::new();
    items.push(found(Card::King, 3, 1));
    for i in 0..36usize {
        items.push(found(Card::Six, 40 + i, 0));
    }
    let chosen = select(&items);
    assert_eq!(chosen.len(), 36);
    assert!(chosen.iter().all(|m| m.y == 0));
    // With one candidate less the one in row 1 is kept, and its key 23
    // puts it first.
    items.pop();
    let chosen = select(&items);
    assert_eq!(chosen.len(), 36);
    assert_eq!(chosen[0], found(Card::King, 3, 1));
}

#[test]
fn candidates_are_collected_map_after_map() {
    let maps = vec![
        ScoreMap { card: Card::King, rows: vec![vec![0, 0, 910], vec![905, 0, 0]] },
        ScoreMap { card: Card::Six, rows: vec![] },
        ScoreMap { card: Card::Ten, rows: vec![vec![900, 899, 0], vec![0, 1000, 0]] },
    ];
    assert_eq!(
        collect(&maps),
        vec![
            found(Card::King, 2, 0),
            found(Card::King, 0, 1),
            found(Card::Ten, 0, 0),
            found(Card::Ten, 1, 1),
        ]
    );
    assert_eq!(collect(&Vec::new()), Vec::<CardMatch>::new());
}

#[test]
fn two_cards_found_at_one_place_are_both_candidates() {
    let maps = vec![
        ScoreMap { card: Card::Queen, rows: vec![vec![950]] },
        ScoreMap { card: Card::King, rows: vec![vec![990]] },
    ];
    assert_eq!(
        select(&collect(&maps)),
        vec![found(Card::Queen, 0, 0), found(Card::King, 0, 0)]
    );
}
