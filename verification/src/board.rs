use crate::aggregate::{
    candidates_of, collect, lemma_select_keeps_top_rows, select, selected, survivors,
};
use crate::card::{is_rank, Card, MAX_RANK, MIN_RANK};
use crate::matcher::{CardMatch, ScoreMap};
use vstd::prelude::*;

verus! {

/// The number of columns of a board.
pub const COLUMNS: usize = 6;

/// How many of the first `total` places of a deal fall to `column`: the
/// places `column`, `column + 6`, `column + 12` and so on.
pub open spec fn share(total: nat, column: int) -> nat {
    if 0 <= column < total {
        ((total - column + 5) / 6) as nat
    } else {
        0
    }
}

/// What `column` receives when `items` are dealt out in turn over six
/// columns: the items at `column`, `column + 6`, `column + 12` and so on.
pub open spec fn dealt_to(items: Seq<u8>, column: int) -> Seq<u8> {
    Seq::new(share(items.len(), column), |k: int| items[column + 6 * k])
}

/// The test that picks the numbers which are ranks of cards.
pub open spec fn rank_test() -> spec_fn(u8) -> bool {
    |value: u8| is_rank(value as int)
}

/// The six columns that come of dealing out a flat list of numbers. Each
/// number has its turn, so the number at place `i` belongs to column
/// `i % 6`; a number that is not a rank is left out of its column.
pub open spec fn flat_columns(values: Seq<u8>) -> Seq<Seq<u8>> {
    Seq::new(6, |column: int| dealt_to(values, column).filter(rank_test()))
}

/// The ranks of the cards of `matches`, in the same order.
pub open spec fn ranks_of(matches: Seq<CardMatch>) -> Seq<u8> {
    Seq::new(matches.len(), |i: int| matches[i].card.spec_rank())
}

/// The six columns that come of dealing out matches: the match at place `i`
/// puts the rank of its card on column `i % 6`.
pub open spec fn dealt_columns(matches: Seq<CardMatch>) -> Seq<Seq<u8>> {
    Seq::new(6, |column: int| dealt_to(ranks_of(matches), column))
}

/// The length of the longest of the first `count` columns.
pub open spec fn tallest(columns: Seq<Seq<u8>>, count: nat) -> nat
    decreases count,
{
    if count == 0 {
        0
    } else {
        let before = tallest(columns, (count - 1) as nat);
        if columns[count - 1].len() > before {
            columns[count - 1].len()
        } else {
            before
        }
    }
}

/// The cell that shows a card of the given rank: four characters wide, the
/// label of the card set to the right in the middle two.
pub open spec fn card_cell(rank: u8) -> Seq<char> {
    match Card::of_rank(rank as int) {
        Some(card) => if card.spec_label().len() < 2 {
            seq![' ', ' '] + card.spec_label() + seq![' ']
        } else {
            seq![' '] + card.spec_label() + seq![' ']
        },
        None => seq![' ', ' ', ' ', ' '],
    }
}

/// The cell of a column at a depth: that of the card which lies there, or
/// four blanks where the column has ended.
pub open spec fn cell(column: Seq<u8>, depth: int) -> Seq<char> {
    if 0 <= depth < column.len() {
        card_cell(column[depth])
    } else {
        seq![' ', ' ', ' ', ' ']
    }
}

/// The cells of the first `count` columns at a depth, side by side.
pub open spec fn cells(columns: Seq<Seq<u8>>, depth: int, count: nat) -> Seq<char>
    decreases count,
{
    if count == 0 {
        Seq::empty()
    } else {
        cells(columns, depth, (count - 1) as nat) + cell(columns[count - 1], depth)
    }
}

/// The first `count` lines of a board: each holds the cells of all columns
/// at one depth and ends with a line feed.
pub open spec fn lines(columns: Seq<Seq<u8>>, count: nat) -> Seq<char>
    decreases count,
{
    if count == 0 {
        Seq::empty()
    } else {
        lines(columns, (count - 1) as nat) + cells(columns, count - 1, columns.len()) + seq!['\n']
    }
}

/// A board as text: one line for each depth, down to the end of the longest
/// column.
pub open spec fn rendered(columns: Seq<Seq<u8>>) -> Seq<char> {
    lines(columns, tallest(columns, columns.len()))
}

/// A board: six columns of cards, each card held as its rank. The first
/// entry of a column is its topmost card.
#[derive(Debug, PartialEq, Eq)]
pub struct Board {
    columns: [Vec<u8>; 6],
}

impl View for Board {
    type V = Seq<Seq<u8>>;

    /// The six columns, each from its topmost card down.
    closed spec fn view(&self) -> Seq<Seq<u8>> {
        Seq::new(6, |column: int| self.columns@[column]@)
    }
}

impl Board {
    #[verifier::type_invariant]
    spec fn only_ranks(self) -> bool {
        forall|column: int, depth: int|
            0 <= column < 6 && 0 <= depth < self.columns@[column]@.len() ==> is_rank(
                #[trigger] self.columns@[column]@[depth] as int,
            )
    }

    /// The six columns. Every entry is the rank of a card.
    pub fn columns(&self) -> (columns: &[Vec<u8>; 6])
        ensures
            self@.len() == 6,
            forall|column: int| 0 <= column < 6 ==> (#[trigger] columns@[column])@ == self@[column],
            forall|column: int, depth: int|
                0 <= column < 6 && 0 <= depth < self@[column].len() ==> is_rank(
                    #[trigger] self@[column][depth] as int,
                ),
    {
        proof {
            use_type_invariant(self);
        }
        &self.columns
    }

    /// Deals matches onto a board: the first onto the first column, the
    /// second onto the second, the seventh onto the first again below the
    /// card that lies there, and so on.
    pub fn from_matches(matches: &Vec<CardMatch>) -> (board: Board)
        ensures
            board@ == dealt_columns(matches@),
    {
        let mut columns: [Vec<u8>; 6] = [
            Vec::new(),
            Vec::new(),
            Vec::new(),
            Vec::new(),
            Vec::new(),
            Vec::new(),
        ];
        let mut turn: usize = 0;
        while turn < matches.len()
            invariant
                turn <= matches.len(),
                forall|column: int|
                    0 <= column < 6 ==> (#[trigger] columns@[column])@ == dealt_to(
                        ranks_of(matches@.take(turn as int)),
                        column,
                    ),
                forall|column: int, depth: int|
                    0 <= column < 6 && 0 <= depth < columns@[column]@.len() ==> is_rank(
                        #[trigger] columns@[column]@[depth] as int,
                    ),
            decreases matches.len() - turn,
        {
            let rank = matches[turn].card.rank();
            let ghost before = ranks_of(matches@.take(turn as int));
            let ghost earlier = columns@;
            columns[turn % COLUMNS].push(rank);
            proof {
                assert(ranks_of(matches@.take(turn + 1)) =~= before.push(rank));
                assert forall|column: int| 0 <= column < 6 implies (#[trigger] columns@[column])@
                    == dealt_to(ranks_of(matches@.take(turn + 1)), column) by {
                    lemma_deal_one(before, rank, column);
                    assert(earlier[column]@ == dealt_to(before, column));
                }
            }
            turn += 1;
        }
        assert(matches@.take(turn as int) =~= matches@);
        let board = Board { columns };
        assert(board@ =~= dealt_columns(matches@));
        board
    }

    /// Reads a board from the score maps of the cards. The hits of all maps
    /// are collected, map after map; the 36 that stand first from the top of
    /// the image down are kept and arranged in reading order; and these are
    /// dealt onto the six columns. With fewer than 36 hits the columns come
    /// out short.
    pub fn from_scores(maps: &Vec<ScoreMap>) -> (board: Board)
        ensures
            board@ == dealt_columns(selected(candidates_of(maps@))),
            forall|column: int| 0 <= column < 6 ==> (#[trigger] board@[column]).len() <= 6,
    {
        let candidates = collect(maps);
        let chosen = select(&candidates);
        let board = Board::from_matches(&chosen);
        assert forall|column: int| 0 <= column < 6 implies (#[trigger] board@[column]).len()
            <= 6 by {
            assert(board@[column] == dealt_to(ranks_of(chosen@), column));
        }
        board
    }

    /// The board as text, for the eye: one line for each depth down to the
    /// end of the longest column, and in each line one cell of four
    /// characters for each column. A cell shows the label of the card that
    /// lies there, and is blank where the column has ended.
    pub fn render(&self) -> (text: String)
        ensures
            text@ == rendered(self@),
    {
        proof {
            use_type_invariant(self);
        }
        let mut height: usize = 0;
        let mut column: usize = 0;
        while column < COLUMNS
            invariant
                column <= 6,
                height == tallest(self@, column as nat),
            decreases 6 - column,
        {
            if self.columns[column].len() > height {
                height = self.columns[column].len();
            }
            column += 1;
        }
        let mut text = String::new();
        let mut depth: usize = 0;
        while depth < height
            invariant
                depth <= height,
                self.only_ranks(),
                text@ == lines(self@, depth as nat),
            decreases height - depth,
        {
            let ghost above = text@;
            let mut column: usize = 0;
            while column < COLUMNS
                invariant
                    column <= 6,
                    self.only_ranks(),
                    text@ == above + cells(self@, depth as int, column as nat),
                decreases 6 - column,
            {
                if depth < self.columns[column].len() {
                    text.append(cell_of(self.columns[column][depth]));
                } else {
                    proof {
                        reveal_strlit("    ");
                    }
                    text.append("    ");
                }
                proof {
                    assert(text@ =~= above + cells(self@, depth as int, (column + 1) as nat));
                }
                column += 1;
            }
            proof {
                reveal_strlit("\n");
            }
            text.append("\n");
            proof {
                assert(text@ =~= lines(self@, (depth + 1) as nat));
            }
            depth += 1;
        }
        text
    }
}

impl From<Vec<u8>> for Board {
    /// Deals a flat list of numbers onto a board. Every number has its turn:
    /// the number at place `i` belongs to column `i % 6`. A number that is
    /// not the rank of a card is left out, and the turn passes on.
    fn from(values: Vec<u8>) -> (board: Board)
        ensures
            board@ == flat_columns(values@),
    {
        let mut columns: [Vec<u8>; 6] = [
            Vec::new(),
            Vec::new(),
            Vec::new(),
            Vec::new(),
            Vec::new(),
            Vec::new(),
        ];
        let mut turn: usize = 0;
        proof {
            assert forall|column: int| 0 <= column < 6 implies (#[trigger] columns@[column])@
                == dealt_to(values@.take(0), column).filter(rank_test()) by {
                reveal(Seq::filter);
                assert(dealt_to(values@.take(0), column) =~= Seq::<u8>::empty());
            }
        }
        while turn < values.len()
            invariant
                turn <= values.len(),
                forall|column: int|
                    0 <= column < 6 ==> (#[trigger] columns@[column])@ == dealt_to(
                        values@.take(turn as int),
                        column,
                    ).filter(rank_test()),
                forall|column: int, depth: int|
                    0 <= column < 6 && 0 <= depth < columns@[column]@.len() ==> is_rank(
                        #[trigger] columns@[column]@[depth] as int,
                    ),
            decreases values.len() - turn,
        {
            let value = values[turn];
            let ghost before = values@.take(turn as int);
            let ghost earlier = columns@;
            if MIN_RANK <= value && value <= MAX_RANK {
                columns[turn % COLUMNS].push(value);
            }
            proof {
                assert(values@.take(turn + 1) =~= before.push(value));
                assert forall|column: int| 0 <= column < 6 implies (#[trigger] columns@[column])@
                    == dealt_to(values@.take(turn + 1), column).filter(rank_test()) by {
                    lemma_place_one(before, value, column);
                    assert(earlier[column]@ == dealt_to(before, column).filter(rank_test()));
                }
            }
            turn += 1;
        }
        assert(values@.take(turn as int) =~= values@);
        let board = Board { columns };
        assert(board@ =~= flat_columns(values@));
        board
    }
}

/// A board is known by its view, and two boards of one view need not be
/// one value. So the contract of `from` speaks of the view of its result, and
/// `from_spec` names some board of that view without claiming that `from`
/// returns this very one.
impl vstd::std_specs::convert::FromSpecImpl<Vec<u8>> for Board {
    open spec fn obeys_from_spec() -> bool {
        false
    }

    open spec fn from_spec(values: Vec<u8>) -> Board {
        choose|board: Board| board@ == flat_columns(values@)
    }
}

/// What column `column` holds after one more number of a flat list had its
/// turn.
spec fn placed_after(values: Seq<u8>, next: u8, column: int) -> Seq<u8> {
    if column == values.len() % 6 && is_rank(next as int) {
        dealt_to(values, column).filter(rank_test()).push(next)
    } else {
        dealt_to(values, column).filter(rank_test())
    }
}

/// One more number of a flat list goes to the column whose turn it is if it
/// is a rank, and nowhere if it is not.
proof fn lemma_place_one(values: Seq<u8>, next: u8, column: int)
    requires
        0 <= column < 6,
    ensures
        dealt_to(values.push(next), column).filter(rank_test()) == placed_after(
            values,
            next,
            column,
        ),
{
    reveal(Seq::filter);
    lemma_deal_one(values, next, column);
    if column == values.len() % 6 {
        assert(dealt_to(values, column).push(next).drop_last() =~= dealt_to(values, column));
    }
}

/// What column `column` holds after one more item was dealt.
spec fn dealt_after(items: Seq<u8>, next: u8, column: int) -> Seq<u8> {
    if column == items.len() % 6 {
        dealt_to(items, column).push(next)
    } else {
        dealt_to(items, column)
    }
}

/// One more item goes to the column whose turn it is, and to no other.
proof fn lemma_deal_one(items: Seq<u8>, next: u8, column: int)
    requires
        0 <= column < 6,
    ensures
        dealt_to(items.push(next), column) == dealt_after(items, next, column),
{
    assert(dealt_to(items.push(next), column) =~= dealt_after(items, next, column));
}

/// Where a dealt item lies: the item at place `i` lies in column `i % 6`
/// at depth `i / 6`. So the first six items are the topmost cards of the
/// six columns from left to right, the next six lie below them, and so on.
pub proof fn lemma_dealt_place(items: Seq<u8>, i: int)
    requires
        0 <= i < items.len(),
    ensures
        i / 6 < dealt_to(items, i % 6).len(),
        dealt_to(items, i % 6)[i / 6] == items[i],
{
}

/// The cards on a board are those of the matches that were dealt: the card
/// in `column` at `depth` is that of the match at place `column + 6 * depth`.
pub proof fn lemma_board_holds_the_dealt(matches: Seq<CardMatch>, column: int, depth: int)
    requires
        0 <= column < 6,
        0 <= depth < dealt_columns(matches)[column].len(),
    ensures
        column + 6 * depth < matches.len(),
        dealt_columns(matches)[column][depth] == matches[column + 6 * depth].card.spec_rank(),
{
}

/// The board that is read from candidates holds survivors of the cut only:
/// the card in `column` at `depth` is that of a candidate which is among
/// the 36 topmost.
pub proof fn lemma_board_holds_survivors(candidates: Seq<CardMatch>, column: int, depth: int)
    requires
        0 <= column < 6,
        0 <= depth < dealt_columns(selected(candidates))[column].len(),
    ensures
        column + 6 * depth < selected(candidates).len(),
        dealt_columns(selected(candidates))[column][depth] == selected(candidates)[column + 6
            * depth].card.spec_rank(),
        survivors(candidates).contains(selected(candidates)[column + 6 * depth]),
        candidates.contains(selected(candidates)[column + 6 * depth]),
{
    broadcast use vstd::seq_lib::group_to_multiset_ensures;

    let chosen = selected(candidates);
    let m = chosen[column + 6 * depth];
    lemma_board_holds_the_dealt(chosen, column, depth);
    lemma_select_keeps_top_rows(candidates);
    assert(chosen.contains(m));
    assert(chosen.to_multiset().count(m) > 0);
    assert(survivors(candidates).to_multiset().count(m) > 0);
    assert(candidates.to_multiset().count(m) > 0);
}

/// A list of ranks passes the rank test whole.
proof fn lemma_ranks_pass(items: Seq<u8>)
    requires
        forall|i: int| 0 <= i < items.len() ==> is_rank(#[trigger] items[i] as int),
    ensures
        items.filter(rank_test()) == items,
    decreases items.len(),
{
    reveal(Seq::filter);
    if items.len() > 0 {
        assert forall|i: int| 0 <= i < items.drop_last().len() implies is_rank(
            #[trigger] items.drop_last()[i] as int,
        ) by {
            assert(items.drop_last()[i] == items[i]);
        }
        lemma_ranks_pass(items.drop_last());
        assert(items.drop_last().push(items.last()) =~= items);
    }
}

/// How a flat list fills a board, one number at a time. An empty list
/// leaves six empty columns. A number that is a rank goes to the bottom of
/// the column whose turn it is: the column `values.len() % 6`, which counts
/// every number before it, those that were left out too. A number that is
/// not a rank changes nothing, and still the turn passes on.
pub proof fn lemma_flat_columns_step(values: Seq<u8>, next: u8)
    ensures
        flat_columns(Seq::empty()) == Seq::new(6, |column: int| Seq::<u8>::empty()),
        !is_rank(next as int) ==> flat_columns(values.push(next)) == flat_columns(values),
        is_rank(next as int) ==> flat_columns(values.push(next)) == flat_columns(values).update(
            (values.len() % 6) as int,
            flat_columns(values)[(values.len() % 6) as int].push(next),
        ),
{
    assert(flat_columns(Seq::empty()) =~= Seq::new(6, |column: int| Seq::<u8>::empty())) by {
        reveal(Seq::filter);
        assert forall|column: int| 0 <= column < 6 implies #[trigger] dealt_to(
            Seq::empty(),
            column,
        ).filter(rank_test()) == Seq::<u8>::empty() by {
            assert(dealt_to(Seq::empty(), column) =~= Seq::<u8>::empty());
        }
    }
    assert forall|column: int| 0 <= column < 6 implies #[trigger] flat_columns(
        values.push(next),
    )[column] == placed_after(values, next, column) by {
        lemma_place_one(values, next, column);
    }
    if is_rank(next as int) {
        assert(flat_columns(values.push(next)) =~= flat_columns(values).update(
            (values.len() % 6) as int,
            flat_columns(values)[(values.len() % 6) as int].push(next),
        ));
    } else {
        assert(flat_columns(values.push(next)) =~= flat_columns(values));
    }
}

/// Thirty-six ranks fill the board: column `c` holds the ranks at the
/// places `c`, `c + 6`, `c + 12`, `c + 18`, `c + 24` and `c + 30`, from
/// its top down.
pub proof fn lemma_full_deal(values: Seq<u8>, column: int)
    requires
        values.len() == 36,
        forall|i: int| 0 <= i < 36 ==> is_rank(#[trigger] values[i] as int),
        0 <= column < 6,
    ensures
        flat_columns(values)[column] == seq![
            values[column],
            values[column + 6],
            values[column + 12],
            values[column + 18],
            values[column + 24],
            values[column + 30],
        ],
{
    let dealt = dealt_to(values, column);
    assert(dealt.len() == 6);
    assert forall|k: int| 0 <= k < dealt.len() implies is_rank(#[trigger] dealt[k] as int) by {
        assert(dealt[k] == values[column + 6 * k]);
    }
    lemma_ranks_pass(dealt);
    assert(dealt =~= seq![
        values[column],
        values[column + 6],
        values[column + 12],
        values[column + 18],
        values[column + 24],
        values[column + 30],
    ]);
}

/// Dealing matches is dealing the ranks of their cards as a flat list: a
/// card's rank is never left out.
pub proof fn lemma_dealt_columns_are_flat(matches: Seq<CardMatch>)
    ensures
        dealt_columns(matches) == flat_columns(ranks_of(matches)),
{
    assert forall|column: int| 0 <= column < 6 implies #[trigger] dealt_to(
        ranks_of(matches),
        column,
    ).filter(rank_test()) == dealt_to(ranks_of(matches), column) by {
        lemma_ranks_pass(dealt_to(ranks_of(matches), column));
    }
    assert(dealt_columns(matches) =~= flat_columns(ranks_of(matches)));
}

/// A board that comes of a flat list has six columns and holds ranks only,
/// and none of its columns is longer than its share of the list.
pub proof fn lemma_flat_columns_shape(values: Seq<u8>)
    ensures
        flat_columns(values).len() == 6,
        forall|column: int, depth: int|
            0 <= column < 6 && 0 <= depth < flat_columns(values)[column].len() ==> is_rank(
                #[trigger] flat_columns(values)[column][depth] as int,
            ),
        forall|column: int|
            0 <= column < 6 ==> (#[trigger] flat_columns(values)[column]).len() <= share(
                values.len(),
                column,
            ),
{
    assert forall|column: int| 0 <= column < 6 implies (#[trigger] flat_columns(
        values,
    )[column]).len() <= share(values.len(), column) by {
        dealt_to(values, column).lemma_filter_len(rank_test());
    }
    assert forall|column: int, depth: int|
        0 <= column < 6 && 0 <= depth < flat_columns(values)[column].len() implies is_rank(
        #[trigger] flat_columns(values)[column][depth] as int,
    ) by {
        dealt_to(values, column).lemma_filter_pred(rank_test(), depth);
    }
}

/// The cell that shows a card of the given rank.
fn cell_of(rank: u8) -> (text: &'static str)
    requires
        is_rank(rank as int),
    ensures
        text@ == card_cell(rank),
{
    proof {
        reveal_strlit("  6 ");
        reveal_strlit("  7 ");
        reveal_strlit("  8 ");
        reveal_strlit("  9 ");
        reveal_strlit(" 10 ");
        reveal_strlit("  V ");
        reveal_strlit("  D ");
        reveal_strlit("  K ");
        reveal_strlit("  T ");
    }
    let text = match rank {
        6 => "  6 ",
        7 => "  7 ",
        8 => "  8 ",
        9 => "  9 ",
        10 => " 10 ",
        11 => "  V ",
        12 => "  D ",
        13 => "  K ",
        _ => "  T ",
    };
    assert(text@ =~= card_cell(rank));
    text
}

} // verus!

