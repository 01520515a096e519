use crate::matcher::{CardMatch, ScoreMap};
use vstd::prelude::*;

verus! {

/// The two orders in which matches are arranged.
#[derive(Clone, Copy, Debug, PartialEq, Eq, Structural)]
pub enum Order {
    /// From the top of the image down: by pixel row alone.
    Row,
    /// As one reads: by `x + 20 * y`, which runs left to right within a band
    /// of rows and then goes on to the next band.
    Reading,
}

impl Order {
    /// The number by which this order ranks a match.
    pub open spec fn spec_key(self, m: CardMatch) -> int {
        match self {
            Order::Row => m.y as int,
            Order::Reading => m.x + 20 * m.y,
        }
    }

    /// The number by which this order ranks a match. It is computed in 128
    /// bits, so that it is exact for every position.
    pub fn key(self, m: CardMatch) -> (key: u128)
        ensures
            key == self.spec_key(m),
    {
        match self {
            Order::Row => m.y as u128,
            Order::Reading => m.x as u128 + 20 * (m.y as u128),
        }
    }
}

/// `sorted` with `item` put in behind every entry that does not rank above
/// it: the entries at the end that rank above `item` move one place up.
pub open spec fn inserted(sorted: Seq<CardMatch>, item: CardMatch, order: Order) -> Seq<CardMatch>
    decreases sorted.len(),
{
    if sorted.len() > 0 && order.spec_key(sorted.last()) > order.spec_key(item) {
        inserted(sorted.drop_last(), item, order).push(sorted.last())
    } else {
        sorted.push(item)
    }
}

/// The stable arrangement of `items` in ascending `order`: the items are
/// put in one after the other, each behind those that do not rank above it.
/// `lemma_sorted_stably_ascends` and `lemma_sorted_stably_keeps_ties` say
/// what this amounts to, and by `lemma_sorted_stably_unique` no other
/// sequence has both properties.
pub open spec fn sorted_stably(items: Seq<CardMatch>, order: Order) -> Seq<CardMatch>
    decreases items.len(),
{
    if items.len() == 0 {
        Seq::empty()
    } else {
        inserted(sorted_stably(items.drop_last(), order), items.last(), order)
    }
}

/// Whether the entries of `items` never go down in `order`.
pub open spec fn ascends(items: Seq<CardMatch>, order: Order) -> bool {
    forall|i: int, j: int|
        0 <= i < j < items.len() ==> order.spec_key(#[trigger] items[i]) <= order.spec_key(
            #[trigger] items[j],
        )
}

/// The test that picks the matches which `order` ranks at `key`.
pub open spec fn ranks_at(order: Order, key: int) -> spec_fn(CardMatch) -> bool {
    |m: CardMatch| order.spec_key(m) == key
}

/// The place at which `inserted` puts an item: behind the last entry that
/// does not rank above it.
proof fn lemma_inserted_place(sorted: Seq<CardMatch>, item: CardMatch, order: Order) -> (at: int)
    ensures
        0 <= at <= sorted.len(),
        forall|k: int|
            at <= k < sorted.len() ==> order.spec_key(#[trigger] sorted[k]) > order.spec_key(item),
        at > 0 ==> order.spec_key(sorted[at - 1]) <= order.spec_key(item),
        inserted(sorted, item, order) == sorted.insert(at, item),
    decreases sorted.len(),
{
    if sorted.len() > 0 && order.spec_key(sorted.last()) > order.spec_key(item) {
        let at = lemma_inserted_place(sorted.drop_last(), item, order);
        assert(sorted.insert(at, item) =~= sorted.drop_last().insert(at, item).push(sorted.last()));
        assert forall|k: int| at <= k < sorted.len() implies order.spec_key(#[trigger] sorted[k])
            > order.spec_key(item) by {
            if k < sorted.len() - 1 {
                assert(sorted[k] == sorted.drop_last()[k]);
            }
        }
        at
    } else {
        assert(sorted.insert(sorted.len() as int, item) =~= sorted.push(item));
        sorted.len() as int
    }
}

/// Putting an item in adds that item and nothing else.
proof fn lemma_inserted_adds(sorted: Seq<CardMatch>, item: CardMatch, order: Order)
    ensures
        inserted(sorted, item, order).len() == sorted.len() + 1,
        inserted(sorted, item, order).to_multiset() == sorted.to_multiset().insert(item),
    decreases sorted.len(),
{
    broadcast use vstd::seq_lib::group_to_multiset_ensures;

    if sorted.len() > 0 && order.spec_key(sorted.last()) > order.spec_key(item) {
        let rest = sorted.drop_last();
        lemma_inserted_adds(rest, item, order);
        assert(sorted =~= rest.push(sorted.last()));
        assert(rest.push(sorted.last()).to_multiset() =~= rest.to_multiset().insert(sorted.last()));
        assert(inserted(sorted, item, order).to_multiset() =~= sorted.to_multiset().insert(item));
    } else {
        assert(sorted.push(item).to_multiset() =~= sorted.to_multiset().insert(item));
    }
}

/// Putting an item into an ascending sequence leaves it ascending.
proof fn lemma_inserted_ascends(sorted: Seq<CardMatch>, item: CardMatch, order: Order)
    requires
        ascends(sorted, order),
    ensures
        ascends(inserted(sorted, item, order), order),
{
    let at = lemma_inserted_place(sorted, item, order);
    let after = sorted.insert(at, item);
    assert forall|i: int, j: int| 0 <= i < j < after.len() implies order.spec_key(
        #[trigger] after[i],
    ) <= order.spec_key(#[trigger] after[j]) by {
        if i < at {
            assert(after[i] == sorted[i]);
            if at > 0 && i < at - 1 {
                assert(order.spec_key(sorted[i]) <= order.spec_key(sorted[at - 1]));
            }
        } else if i > at {
            assert(after[i] == sorted[i - 1]);
        }
        if j < at {
            assert(after[j] == sorted[j]);
        } else if j > at {
            assert(after[j] == sorted[j - 1]);
        }
    }
}

/// Among the matches of one rank, putting an item in appends it if it has
/// that rank and changes nothing if it has not.
proof fn lemma_inserted_keeps_ties(sorted: Seq<CardMatch>, item: CardMatch, order: Order, key: int)
    ensures
        inserted(sorted, item, order).filter(ranks_at(order, key)) == if order.spec_key(item)
            == key {
            sorted.filter(ranks_at(order, key)).push(item)
        } else {
            sorted.filter(ranks_at(order, key))
        },
    decreases sorted.len(),
{
    reveal(Seq::filter);
    let test = ranks_at(order, key);
    if sorted.len() > 0 && order.spec_key(sorted.last()) > order.spec_key(item) {
        let rest = sorted.drop_last();
        let inner = inserted(rest, item, order);
        lemma_inserted_keeps_ties(rest, item, order, key);
        assert(inner.push(sorted.last()).drop_last() =~= inner);
        assert(inner.push(sorted.last()).last() == sorted.last());
    } else {
        assert(sorted.push(item).drop_last() =~= sorted);
        assert(sorted.push(item).last() == item);
    }
}

/// A stable arrangement holds the items that it was given, each as often
/// as it was given.
pub proof fn lemma_sorted_stably_permutes(items: Seq<CardMatch>, order: Order)
    ensures
        sorted_stably(items, order).len() == items.len(),
        sorted_stably(items, order).to_multiset() == items.to_multiset(),
    decreases items.len(),
{
    broadcast use vstd::seq_lib::group_to_multiset_ensures;

    if items.len() > 0 {
        let rest = items.drop_last();
        lemma_sorted_stably_permutes(rest, order);
        lemma_inserted_adds(sorted_stably(rest, order), items.last(), order);
        assert(items =~= rest.push(items.last()));
        assert(rest.push(items.last()).to_multiset() =~= rest.to_multiset().insert(items.last()));
    } else {
        assert(sorted_stably(items, order) =~= items);
    }
}

/// A stable arrangement never goes down in its order.
pub proof fn lemma_sorted_stably_ascends(items: Seq<CardMatch>, order: Order)
    ensures
        ascends(sorted_stably(items, order), order),
    decreases items.len(),
{
    if items.len() > 0 {
        lemma_sorted_stably_ascends(items.drop_last(), order);
        lemma_inserted_ascends(sorted_stably(items.drop_last(), order), items.last(), order);
    }
}

/// A stable arrangement keeps ties as they came: the matches of any one
/// rank stand in it in the order in which they were given.
pub proof fn lemma_sorted_stably_keeps_ties(items: Seq<CardMatch>, order: Order, key: int)
    ensures
        sorted_stably(items, order).filter(ranks_at(order, key)) == items.filter(
            ranks_at(order, key),
        ),
    decreases items.len(),
{
    reveal(Seq::filter);
    if items.len() > 0 {
        lemma_sorted_stably_keeps_ties(items.drop_last(), order, key);
        lemma_inserted_keeps_ties(
            sorted_stably(items.drop_last(), order),
            items.last(),
            order,
            key,
        );
    }
}

/// Two ascending sequences that hold, for every rank, the same matches of
/// that rank in the same order are one sequence.
proof fn lemma_same_ties_same_sequence(a: Seq<CardMatch>, b: Seq<CardMatch>, order: Order)
    requires
        ascends(a, order),
        ascends(b, order),
        forall|key: int| #[trigger]
            a.filter(ranks_at(order, key)) == b.filter(ranks_at(order, key)),
    ensures
        a == b,
    decreases a.len(),
{
    reveal(Seq::filter);
    if a.len() == 0 {
        if b.len() > 0 {
            let key = order.spec_key(b.last());
            assert(a.filter(ranks_at(order, key)) == b.filter(ranks_at(order, key)));
        }
        assert(a =~= b);
    } else {
        let last = a.last();
        let key = order.spec_key(last);
        assert(a.filter(ranks_at(order, key)) == b.filter(ranks_at(order, key)));
        assert(b.len() > 0);
        let other = b.last();
        let other_key = order.spec_key(other);
        assert(a.filter(ranks_at(order, other_key)) == b.filter(ranks_at(order, other_key)));
        assert(other_key <= key) by {
            let ties = a.filter(ranks_at(order, other_key));
            a.lemma_filter_pred(ranks_at(order, other_key), ties.len() - 1);
            a.lemma_filter_contains_rev(ranks_at(order, other_key), ties.last());
            let i = choose|i: int| 0 <= i < a.len() && a[i] == ties.last();
            if i < a.len() - 1 {
                assert(order.spec_key(a[i]) <= order.spec_key(a[a.len() - 1]));
            }
        }
        assert(key <= other_key) by {
            let ties = b.filter(ranks_at(order, key));
            b.lemma_filter_pred(ranks_at(order, key), ties.len() - 1);
            b.lemma_filter_contains_rev(ranks_at(order, key), ties.last());
            let i = choose|i: int| 0 <= i < b.len() && b[i] == ties.last();
            if i < b.len() - 1 {
                assert(order.spec_key(b[i]) <= order.spec_key(b[b.len() - 1]));
            }
        }
        assert(last == other) by {
            assert(a.filter(ranks_at(order, key)).last() == last);
            assert(b.filter(ranks_at(order, key)).last() == other);
        }
        let a_rest = a.drop_last();
        let b_rest = b.drop_last();
        assert forall|k: int| #[trigger]
            a_rest.filter(ranks_at(order, k)) == b_rest.filter(ranks_at(order, k)) by {
            let test = ranks_at(order, k);
            assert(a.filter(test) == b.filter(test));
            if k == key {
                assert(a_rest.filter(test).push(last).drop_last() =~= a_rest.filter(test));
                assert(b_rest.filter(test).push(last).drop_last() =~= b_rest.filter(test));
            }
        }
        assert(ascends(a_rest, order)) by {
            assert forall|i: int, j: int| 0 <= i < j < a_rest.len() implies order.spec_key(
                #[trigger] a_rest[i],
            ) <= order.spec_key(#[trigger] a_rest[j]) by {
                assert(a_rest[i] == a[i] && a_rest[j] == a[j]);
            }
        }
        assert(ascends(b_rest, order)) by {
            assert forall|i: int, j: int| 0 <= i < j < b_rest.len() implies order.spec_key(
                #[trigger] b_rest[i],
            ) <= order.spec_key(#[trigger] b_rest[j]) by {
                assert(b_rest[i] == b[i] && b_rest[j] == b[j]);
            }
        }
        lemma_same_ties_same_sequence(a_rest, b_rest, order);
        assert(a =~= a_rest.push(last));
        assert(b =~= b_rest.push(other));
    }
}

/// The stable arrangement is the only sequence that ascends and keeps the
/// ties of `items` as they came.
pub proof fn lemma_sorted_stably_unique(items: Seq<CardMatch>, other: Seq<CardMatch>, order: Order)
    requires
        ascends(other, order),
        forall|key: int| #[trigger]
            other.filter(ranks_at(order, key)) == items.filter(ranks_at(order, key)),
    ensures
        other == sorted_stably(items, order),
{
    lemma_sorted_stably_ascends(items, order);
    assert forall|key: int| #[trigger]
        sorted_stably(items, order).filter(ranks_at(order, key)) == other.filter(
            ranks_at(order, key),
        ) by {
        lemma_sorted_stably_keeps_ties(items, order, key);
        assert(other.filter(ranks_at(order, key)) == items.filter(ranks_at(order, key)));
    }
    lemma_same_ties_same_sequence(sorted_stably(items, order), other, order);
}

/// Arranges `items` in ascending `order`. Items of equal rank stay in the
/// order in which they came. Each item is put in from the end, so the time
/// grows with the square of the number of items that come out of order.
pub fn sort_stably(items: &Vec<CardMatch>, order: Order) -> (sorted: Vec<CardMatch>)
    ensures
        sorted@ == sorted_stably(items@, order),
{
    let mut sorted: Vec<CardMatch> = Vec::new();
    let mut done: usize = 0;
    while done < items.len()
        invariant
            done <= items.len(),
            sorted@ == sorted_stably(items@.take(done as int), order),
        decreases items.len() - done,
    {
        let item = items[done];
        let item_key = order.key(item);
        let mut at: usize = sorted.len();
        while at > 0 && order.key(sorted[at - 1]) > item_key
            invariant
                at <= sorted.len(),
                item_key == order.spec_key(item),
                forall|k: int|
                    at <= k < sorted.len() ==> order.spec_key(#[trigger] sorted@[k])
                        > order.spec_key(item),
            decreases at,
        {
            at -= 1;
        }
        proof {
            let place = lemma_inserted_place(sorted@, item, order);
            if place < at {
                assert(order.spec_key(sorted@[at - 1]) <= order.spec_key(item));
            } else if at < place {
                assert(order.spec_key(sorted@[place - 1]) > order.spec_key(item));
            }
            assert(items@.take(done + 1).drop_last() =~= items@.take(done as int));
        }
        sorted.insert(at, item);
        done += 1;
    }
    assert(items@.take(done as int) =~= items@);
    sorted
}

/// The candidates of several score maps: the hits of the first map, then
/// those of the second, and so on.
pub open spec fn candidates_of(maps: Seq<ScoreMap>) -> Seq<CardMatch> {
    Seq::new(maps.len(), |i: int| maps[i].spec_hits()).flatten()
}

/// Collects the hits of all score maps into one list of candidates, map
/// after map.
pub fn collect(maps: &Vec<ScoreMap>) -> (candidates: Vec<CardMatch>)
    ensures
        candidates@ == candidates_of(maps@),
{
    let mut candidates: Vec<CardMatch> = Vec::new();
    let mut done: usize = 0;
    proof {
        assert(Seq::new(0, |i: int| maps@[i].spec_hits()) =~= Seq::<Seq<CardMatch>>::empty());
        assert(Seq::<Seq<CardMatch>>::empty().flatten() =~= Seq::<CardMatch>::empty());
    }
    while done < maps.len()
        invariant
            done <= maps.len(),
            candidates@ == Seq::new(done as nat, |i: int| maps@[i].spec_hits()).flatten(),
        decreases maps.len() - done,
    {
        let mut found = maps[done].hits();
        proof {
            let each = |i: int| maps@[i].spec_hits();
            assert(Seq::new((done + 1) as nat, each) =~= Seq::new(done as nat, each).push(found@));
            Seq::new(done as nat, each).lemma_flatten_push(found@);
        }
        candidates.append(&mut found);
        done += 1;
    }
    candidates
}

/// The candidates are the hits of the maps: a match is a candidate exactly
/// when one of the maps lists it as a hit.
pub proof fn lemma_candidates_are_the_hits(maps: Seq<ScoreMap>, m: CardMatch)
    ensures
        candidates_of(maps).contains(m) <==> exists|i: int|
            0 <= i < maps.len() && (#[trigger] maps[i]).spec_hits().contains(m),
    decreases maps.len(),
{
    broadcast use vstd::seq_lib::lemma_seq_concat_contains_all_elements;

    let each = |i: int| maps[i].spec_hits();
    if maps.len() == 0 {
        assert(Seq::new(0, each) =~= Seq::<Seq<CardMatch>>::empty());
        assert(Seq::<Seq<CardMatch>>::empty().flatten() =~= Seq::<CardMatch>::empty());
    } else {
        let rest = maps.drop_last();
        let each_of_rest = |i: int| rest[i].spec_hits();
        lemma_candidates_are_the_hits(rest, m);
        assert(Seq::new(rest.len(), each_of_rest) =~= Seq::new(rest.len(), each));
        assert(Seq::new(maps.len(), each) =~= Seq::new(rest.len(), each).push(
            maps.last().spec_hits(),
        ));
        Seq::new(rest.len(), each).lemma_flatten_push(maps.last().spec_hits());
        assert(candidates_of(maps) == candidates_of(rest) + maps.last().spec_hits());
        if candidates_of(rest).contains(m) {
            let i = choose|i: int|
                0 <= i < rest.len() && (#[trigger] rest[i]).spec_hits().contains(m);
            assert(maps[i] == rest[i]);
        }
        if exists|i: int| 0 <= i < maps.len() && (#[trigger] maps[i]).spec_hits().contains(m) {
            let i = choose|i: int|
                0 <= i < maps.len() && (#[trigger] maps[i]).spec_hits().contains(m);
            if i < rest.len() {
                assert(rest[i] == maps[i]);
            }
        }
    }
}

/// The number of places on a board: six columns of six cards.
pub const SLOTS: usize = 36;

/// The first `count` entries of `items`, or all of them if there are fewer.
pub open spec fn leading(items: Seq<CardMatch>, count: int) -> Seq<CardMatch> {
    if 0 <= count < items.len() {
        items.take(count)
    } else {
        items
    }
}

/// The candidates that are kept for a board: the first 36 from the top of
/// the image down, candidates of one pixel row in the order in which they
/// were collected.
pub open spec fn survivors(candidates: Seq<CardMatch>) -> Seq<CardMatch> {
    leading(sorted_stably(candidates, Order::Row), SLOTS as int)
}

/// The matches that make up a board, in the order in which they are dealt
/// onto it: the survivors, arranged in reading order.
pub open spec fn selected(candidates: Seq<CardMatch>) -> Seq<CardMatch> {
    sorted_stably(survivors(candidates), Order::Reading)
}

/// Whether `a` and `b` hold, place by place, the same card in the same
/// pixel row.
pub open spec fn same_rows(a: Seq<CardMatch>, b: Seq<CardMatch>) -> bool {
    &&& a.len() == b.len()
    &&& forall|i: int|
        0 <= i < a.len() ==> (#[trigger] a[i]).card == (#[trigger] b[i]).card && a[i].y == b[i].y
}

/// Picks from all candidates the matches that make up a board. They are
/// arranged from the top down, cut to the number of places on a board, and
/// then arranged in reading order. Fewer candidates than places are all
/// kept.
pub fn select(candidates: &Vec<CardMatch>) -> (chosen: Vec<CardMatch>)
    ensures
        chosen@ == selected(candidates@),
        chosen@.len() == if candidates@.len() < SLOTS {
            candidates@.len()
        } else {
            SLOTS as nat
        },
{
    let mut by_row = sort_stably(candidates, Order::Row);
    by_row.truncate(SLOTS);
    proof {
        lemma_sorted_stably_permutes(candidates@, Order::Row);
        assert(by_row@ =~= survivors(candidates@));
        lemma_sorted_stably_permutes(by_row@, Order::Reading);
    }
    sort_stably(&by_row, Order::Reading)
}

/// What the cut to 36 keeps and what it drops. The result has 36 matches,
/// or all candidates if there are fewer. It holds the survivors and nothing
/// else, whatever their place in reading order. Survivors and dropped
/// candidates together are the candidates; no survivor lies in a lower
/// pixel row than a dropped candidate; and of the candidates of one pixel
/// row, those collected first survive.
pub proof fn lemma_select_keeps_top_rows(candidates: Seq<CardMatch>)
    ensures
        selected(candidates).len() == if candidates.len() < 36 {
            candidates.len()
        } else {
            36
        },
        selected(candidates).to_multiset() == survivors(candidates).to_multiset(),
        ({
            let kept = survivors(candidates);
            let dropped = sorted_stably(candidates, Order::Row).skip(kept.len() as int);
            &&& kept.to_multiset().add(dropped.to_multiset()) == candidates.to_multiset()
            &&& forall|i: int, j: int|
                0 <= i < kept.len() && 0 <= j < dropped.len() ==> (#[trigger] kept[i]).y <= (
                #[trigger] dropped[j]).y
            &&& forall|row: int|
                (#[trigger] kept.filter(ranks_at(Order::Row, row))).is_prefix_of(
                    candidates.filter(ranks_at(Order::Row, row)),
                )
        }),
{
    let by_row = sorted_stably(candidates, Order::Row);
    let kept = survivors(candidates);
    let dropped = by_row.skip(kept.len() as int);
    lemma_sorted_stably_permutes(candidates, Order::Row);
    lemma_sorted_stably_ascends(candidates, Order::Row);
    lemma_sorted_stably_permutes(kept, Order::Reading);
    assert(by_row =~= kept + dropped);
    vstd::seq_lib::lemma_multiset_commutative(kept, dropped);
    assert forall|i: int, j: int| 0 <= i < kept.len() && 0 <= j < dropped.len() implies (
    #[trigger] kept[i]).y <= (#[trigger] dropped[j]).y by {
        assert(kept[i] == by_row[i]);
        assert(dropped[j] == by_row[kept.len() + j]);
    }
    assert forall|row: int|
        (#[trigger] kept.filter(ranks_at(Order::Row, row))).is_prefix_of(
            candidates.filter(ranks_at(Order::Row, row)),
        ) by {
        let test = ranks_at(Order::Row, row);
        lemma_sorted_stably_keeps_ties(candidates, Order::Row, row);
        Seq::filter_distributes_over_add(kept, dropped, test);
        let ties = kept.filter(test);
        assert((ties + dropped.filter(test)).subrange(0, ties.len() as int) =~= ties);
    }
}

/// Putting matches that agree in card and row into sequences that agree in
/// card and row, place by place, gives sequences that agree in the same way.
proof fn lemma_inserted_same_rows(
    a: Seq<CardMatch>,
    b: Seq<CardMatch>,
    item_a: CardMatch,
    item_b: CardMatch,
)
    requires
        same_rows(a, b),
        item_a.card == item_b.card,
        item_a.y == item_b.y,
    ensures
        same_rows(inserted(a, item_a, Order::Row), inserted(b, item_b, Order::Row)),
    decreases a.len(),
{
    if a.len() > 0 && Order::Row.spec_key(a.last()) > Order::Row.spec_key(item_a) {
        assert(a.last().y == b.last().y);
        assert(same_rows(a.drop_last(), b.drop_last())) by {
            assert forall|i: int| 0 <= i < a.drop_last().len() implies (
            #[trigger] a.drop_last()[i]).card == (#[trigger] b.drop_last()[i]).card
                && a.drop_last()[i].y == b.drop_last()[i].y by {
                assert(a.drop_last()[i] == a[i]);
                assert(b.drop_last()[i] == b[i]);
            }
        }
        lemma_inserted_same_rows(a.drop_last(), b.drop_last(), item_a, item_b);
    } else {
        if a.len() > 0 {
            assert(a.last().y == b.last().y);
        }
    }
}

/// Which candidates survive does not depend on their pixel columns: two
/// sequences of candidates that agree, place by place, in card and pixel
/// row have survivors that agree in the same way.
pub proof fn lemma_survivors_ignore_columns(a: Seq<CardMatch>, b: Seq<CardMatch>)
    requires
        same_rows(a, b),
    ensures
        same_rows(sorted_stably(a, Order::Row), sorted_stably(b, Order::Row)),
        same_rows(survivors(a), survivors(b)),
    decreases a.len(),
{
    if a.len() > 0 {
        assert(same_rows(a.drop_last(), b.drop_last())) by {
            assert forall|i: int| 0 <= i < a.drop_last().len() implies (
            #[trigger] a.drop_last()[i]).card == (#[trigger] b.drop_last()[i]).card
                && a.drop_last()[i].y == b.drop_last()[i].y by {
                assert(a.drop_last()[i] == a[i]);
                assert(b.drop_last()[i] == b[i]);
            }
        }
        lemma_survivors_ignore_columns(a.drop_last(), b.drop_last());
        assert(a.last().card == b.last().card && a.last().y == b.last().y);
        lemma_inserted_same_rows(
            sorted_stably(a.drop_last(), Order::Row),
            sorted_stably(b.drop_last(), Order::Row),
            a.last(),
            b.last(),
        );
    }
    let sa = sorted_stably(a, Order::Row);
    let sb = sorted_stably(b, Order::Row);
    assert(same_rows(survivors(a), survivors(b))) by {
        assert forall|i: int| 0 <= i < survivors(a).len() implies (#[trigger] survivors(a)[i]).card
            == (#[trigger] survivors(b)[i]).card && survivors(a)[i].y == survivors(b)[i].y by {
            assert(survivors(a)[i] == sa[i]);
            assert(survivors(b)[i] == sb[i]);
        }
    }
}

} // verus!
