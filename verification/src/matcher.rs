use crate::card::Card;
use vstd::prelude::*;

verus! {

/// A place in an image where a card was found: the card, and the pixel
/// column `x` and pixel row `y` of the hit.
#[derive(Clone, Copy, Debug, PartialEq, Eq, Structural)]
pub struct CardMatch {
    pub card: Card,
    pub x: usize,
    pub y: usize,
}

/// The score of a perfect match. Scores are similarities in thousandths,
/// rounded down.
pub const PERFECT: i32 = 1000;

/// The least score that counts as a hit: nine tenths of a perfect match.
pub const THRESHOLD: i32 = 900;

/// Whether a score counts as a hit. The threshold itself does.
pub open spec fn spec_is_hit(score: i32) -> bool {
    score >= THRESHOLD
}

/// Whether a score counts as a hit. The threshold itself does.
#[verifier::when_used_as_spec(spec_is_hit)]
pub fn is_hit(score: i32) -> (hit: bool)
    ensures
        hit == spec_is_hit(score),
        hit <==> score >= 900,
{
    score >= THRESHOLD
}

/// The places `(0, y)`, `(1, y)`, up to `(width - 1, y)` of pixel row `y`,
/// from left to right, each as a hit of `card`.
pub open spec fn places(card: Card, y: int, width: nat) -> Seq<CardMatch> {
    Seq::new(width, |x: int| CardMatch { card, x: x as usize, y: y as usize })
}

/// The test that picks the places of a row at which the score is a hit.
pub open spec fn scores_high(row: Seq<i32>) -> spec_fn(CardMatch) -> bool {
    |m: CardMatch| m.x < row.len() && spec_is_hit(row[m.x as int])
}

/// The hits among the first `width` scores of pixel row `y`, from left to
/// right.
pub open spec fn hits_in_row(card: Card, row: Seq<i32>, y: int, width: nat) -> Seq<CardMatch> {
    places(card, y, width).filter(scores_high(row))
}

/// The hits in the first `height` rows of scores, row after row from the
/// top, each row from left to right.
pub open spec fn hits_in_rows(card: Card, rows: Seq<Seq<i32>>, height: nat) -> Seq<CardMatch> {
    Seq::new(height, |y: int| hits_in_row(card, rows[y], y, rows[y].len())).flatten()
}

/// How well one card's picture fits at each place of an image.
///
/// `rows[y][x]` is the similarity between the card's picture and the part of
/// the image whose top left corner is the pixel `(x, y)`, in thousandths
/// and rounded down, so that `PERFECT` is a perfect match. A map with no rows
/// stands for a card that could not be compared with the image.
#[derive(Debug, PartialEq, Eq)]
pub struct ScoreMap {
    pub card: Card,
    pub rows: Vec<Vec<i32>>,
}

impl ScoreMap {
    /// The scores as sequences: one for each pixel row, from the top.
    pub open spec fn scores(&self) -> Seq<Seq<i32>> {
        Seq::new(self.rows@.len(), |y: int| self.rows@[y]@)
    }

    /// The hits of the card: every place whose score is at least
    /// `THRESHOLD`, row after row from the top, each row from left to right.
    pub open spec fn spec_hits(&self) -> Seq<CardMatch> {
        hits_in_rows(self.card, self.scores(), self.scores().len())
    }

    /// Lists the hits of the card: every place whose score is at least
    /// `THRESHOLD`, row after row from the top, each row from left to right.
    /// Neighbouring places that score high are all listed.
    pub fn hits(&self) -> (found: Vec<CardMatch>)
        ensures
            found@ == self.spec_hits(),
    {
        let card = self.card;
        let ghost scores = self.scores();
        let mut found: Vec<CardMatch> = Vec::new();
        let mut y: usize = 0;
        proof {
            lemma_no_rows(card, scores);
        }
        while y < self.rows.len()
            invariant
                y <= self.rows.len(),
                scores == self.scores(),
                card == self.card,
                found@ == hits_in_rows(card, scores, y as nat),
            decreases self.rows.len() - y,
        {
            let row = &self.rows[y];
            let ghost above = found@;
            let mut x: usize = 0;
            proof {
                lemma_no_places(card, row@, y as int);
            }
            while x < row.len()
                invariant
                    x <= row.len(),
                    found@ == above + hits_in_row(card, row@, y as int, x as nat),
                decreases row.len() - x,
            {
                proof {
                    lemma_next_place(card, row@, y as int, x as nat);
                }
                if is_hit(row[x]) {
                    found.push(CardMatch { card, x, y });
                }
                x += 1;
            }
            proof {
                lemma_next_row(card, scores, y as nat);
            }
            y += 1;
        }
        found
    }
}

/// No rows hold no hits.
proof fn lemma_no_rows(card: Card, rows: Seq<Seq<i32>>)
    ensures
        hits_in_rows(card, rows, 0) == Seq::<CardMatch>::empty(),
{
    let none = Seq::new(0, |y: int| hits_in_row(card, rows[y], y, rows[y].len()));
    assert(none =~= Seq::<Seq<CardMatch>>::empty());
    assert(Seq::<Seq<CardMatch>>::empty().flatten() =~= Seq::<CardMatch>::empty());
}

/// No places hold no hits.
proof fn lemma_no_places(card: Card, row: Seq<i32>, y: int)
    ensures
        hits_in_row(card, row, y, 0) == Seq::<CardMatch>::empty(),
{
    reveal(Seq::filter);
    assert(places(card, y, 0) =~= Seq::<CardMatch>::empty());
}

/// One more place of a row adds that place to the hits if its score is a
/// hit, and nothing if not.
proof fn lemma_next_place(card: Card, row: Seq<i32>, y: int, x: nat)
    requires
        x < row.len(),
        x <= usize::MAX,
    ensures
        hits_in_row(card, row, y, x + 1) == if spec_is_hit(row[x as int]) {
            hits_in_row(card, row, y, x).push(CardMatch { card, x: x as usize, y: y as usize })
        } else {
            hits_in_row(card, row, y, x)
        },
{
    reveal(Seq::filter);
    let wider = places(card, y, x + 1);
    assert(wider.drop_last() =~= places(card, y, x));
    assert(wider.last() == CardMatch { card, x: x as usize, y: y as usize });
}

/// One more row adds its hits behind those of the rows above.
proof fn lemma_next_row(card: Card, rows: Seq<Seq<i32>>, y: nat)
    requires
        y < rows.len(),
    ensures
        hits_in_rows(card, rows, y + 1) == hits_in_rows(card, rows, y) + hits_in_row(
            card,
            rows[y as int],
            y as int,
            rows[y as int].len(),
        ),
{
    let each = |k: int| hits_in_row(card, rows[k], k, rows[k].len());
    let above = Seq::new(y, each);
    let with_row = Seq::new(y + 1, each);
    assert(with_row =~= above.push(each(y as int)));
    above.lemma_flatten_push(each(y as int));
}

/// Whether `a` comes before `b` when an image is read row after row from
/// the top, each row from left to right.
pub open spec fn reads_before(a: CardMatch, b: CardMatch) -> bool {
    a.y < b.y || (a.y == b.y && a.x < b.x)
}

/// The hits of a row are its places with a high score, from left to right.
proof fn lemma_hits_in_row(card: Card, row: Seq<i32>, y: int, width: nat)
    requires
        width <= row.len() <= usize::MAX,
        0 <= y <= usize::MAX,
    ensures
        forall|m: CardMatch| #[trigger]
            hits_in_row(card, row, y, width).contains(m) <==> m.card == card && m.y == y && m.x
                < width && row[m.x as int] >= THRESHOLD,
        forall|i: int, j: int|
            0 <= i < j < hits_in_row(card, row, y, width).len() ==> (#[trigger] hits_in_row(
                card,
                row,
                y,
                width,
            )[i]).x < (#[trigger] hits_in_row(card, row, y, width)[j]).x,
    decreases width,
{
    broadcast use vstd::seq_lib::lemma_seq_contains_after_push;

    let hits = hits_in_row(card, row, y, width);
    if width == 0 {
        lemma_no_places(card, row, y);
    } else {
        let left = (width - 1) as nat;
        let before = hits_in_row(card, row, y, left);
        let place = CardMatch { card, x: left as usize, y: y as usize };
        lemma_hits_in_row(card, row, y, left);
        lemma_next_place(card, row, y, left);
        if spec_is_hit(row[left as int]) {
            assert(hits == before.push(place));
            assert forall|i: int, j: int| 0 <= i < j < hits.len() implies (#[trigger] hits[i]).x < (
            #[trigger] hits[j]).x by {
                assert(before.contains(before[i]));
                if j < before.len() {
                    assert(hits[i] == before[i] && hits[j] == before[j]);
                }
            }
        }
    }
}

/// The hits of a map are its places with a high score: a place is listed
/// exactly when it lies in the map and its score is at least `THRESHOLD`.
/// Each is listed with the card of the map.
pub proof fn lemma_hits_are_the_high_scores(card: Card, rows: Seq<Seq<i32>>, height: nat)
    requires
        height <= rows.len() <= usize::MAX,
        forall|y: int| 0 <= y < rows.len() ==> (#[trigger] rows[y]).len() <= usize::MAX,
    ensures
        forall|m: CardMatch| #[trigger]
            hits_in_rows(card, rows, height).contains(m) <==> m.card == card && m.y < height && m.x
                < rows[m.y as int].len() && rows[m.y as int][m.x as int] >= THRESHOLD,
    decreases height,
{
    broadcast use vstd::seq_lib::lemma_seq_concat_contains_all_elements;

    if height == 0 {
        lemma_no_rows(card, rows);
    } else {
        let top = (height - 1) as nat;
        lemma_hits_are_the_high_scores(card, rows, top);
        lemma_next_row(card, rows, top);
        lemma_hits_in_row(card, rows[top as int], top as int, rows[top as int].len());
    }
}

/// The hits of a map are listed in reading order, so none is listed twice.
pub proof fn lemma_hits_in_reading_order(card: Card, rows: Seq<Seq<i32>>, height: nat)
    requires
        height <= rows.len() <= usize::MAX,
        forall|y: int| 0 <= y < rows.len() ==> (#[trigger] rows[y]).len() <= usize::MAX,
    ensures
        forall|i: int, j: int|
            0 <= i < j < hits_in_rows(card, rows, height).len() ==> reads_before(
                #[trigger] hits_in_rows(card, rows, height)[i],
                #[trigger] hits_in_rows(card, rows, height)[j],
            ),
    decreases height,
{
    if height == 0 {
        lemma_no_rows(card, rows);
    } else {
        let top = (height - 1) as nat;
        let above = hits_in_rows(card, rows, top);
        let last = hits_in_row(card, rows[top as int], top as int, rows[top as int].len());
        let hits = hits_in_rows(card, rows, height);
        lemma_hits_in_reading_order(card, rows, top);
        lemma_hits_are_the_high_scores(card, rows, top);
        lemma_next_row(card, rows, top);
        lemma_hits_in_row(card, rows[top as int], top as int, rows[top as int].len());
        assert forall|i: int, j: int| 0 <= i < j < hits.len() implies reads_before(
            #[trigger] hits[i],
            #[trigger] hits[j],
        ) by {
            if i < above.len() {
                assert(hits[i] == above[i]);
                assert(above.contains(above[i]));
            } else {
                assert(hits[i] == last[i - above.len()]);
                assert(last.contains(last[i - above.len()]));
            }
            if j < above.len() {
                assert(hits[j] == above[j]);
            } else {
                assert(hits[j] == last[j - above.len()]);
                assert(last.contains(last[j - above.len()]));
            }
        }
    }
}

} // verus!
