use vstd::prelude::*;

verus! {

/// One of the nine card faces that can lie on a board, weakest first.
///
/// Every face has a rank between 6 and 14 and a short label. The numbered
/// faces are labelled by their numeral, the court cards and the ace by one
/// letter.
#[derive(Clone, Copy, Debug, PartialEq, Eq, Structural, PartialOrd, Ord, Hash)]
pub enum Card {
    Six,
    Seven,
    Eight,
    Nine,
    Ten,
    Jack,
    Queen,
    King,
    Ace,
}

/// Why a value could not be read as a card.
#[derive(Debug, PartialEq, Eq)]
pub enum CardError {
    /// The number is not a rank between 6 and 14.
    InvalidRank(u8),
    /// The text is not the label of any card.
    InvalidLabel(String),
}

/// The lowest rank, that of the six.
pub const MIN_RANK: u8 = 6;

/// The highest rank, that of the ace.
pub const MAX_RANK: u8 = 14;

/// Whether `value` is the rank of a card.
pub open spec fn is_rank(value: int) -> bool {
    MIN_RANK <= value <= MAX_RANK
}

impl Card {
    /// All nine cards in their fixed order, weakest first.
    pub open spec fn catalog() -> Seq<Card> {
        seq![
            Card::Six,
            Card::Seven,
            Card::Eight,
            Card::Nine,
            Card::Ten,
            Card::Jack,
            Card::Queen,
            Card::King,
            Card::Ace,
        ]
    }

    /// The rank of the card as a number.
    pub open spec fn spec_rank(self) -> u8 {
        match self {
            Card::Six => 6,
            Card::Seven => 7,
            Card::Eight => 8,
            Card::Nine => 9,
            Card::Ten => 10,
            Card::Jack => 11,
            Card::Queen => 12,
            Card::King => 13,
            Card::Ace => 14,
        }
    }

    /// The label of the card as a sequence of characters.
    pub open spec fn spec_label(self) -> Seq<char> {
        match self {
            Card::Six => seq!['6'],
            Card::Seven => seq!['7'],
            Card::Eight => seq!['8'],
            Card::Nine => seq!['9'],
            Card::Ten => seq!['1', '0'],
            Card::Jack => seq!['V'],
            Card::Queen => seq!['D'],
            Card::King => seq!['K'],
            Card::Ace => seq!['T'],
        }
    }

    /// The card of the given rank: the catalog is ordered by rank and starts
    /// at the six, so it is the entry at `rank - 6`. No card has a rank
    /// outside 6 to 14.
    pub open spec fn of_rank(rank: int) -> Option<Card> {
        if is_rank(rank) {
            Some(Self::catalog()[rank - 6])
        } else {
            None
        }
    }

    /// The card that carries the given label, if there is one.
    pub open spec fn of_label(label: Seq<char>) -> Option<Card> {
        if label == seq!['6'] {
            Some(Card::Six)
        } else if label == seq!['7'] {
            Some(Card::Seven)
        } else if label == seq!['8'] {
            Some(Card::Eight)
        } else if label == seq!['9'] {
            Some(Card::Nine)
        } else if label == seq!['1', '0'] {
            Some(Card::Ten)
        } else if label == seq!['V'] {
            Some(Card::Jack)
        } else if label == seq!['D'] {
            Some(Card::Queen)
        } else if label == seq!['K'] {
            Some(Card::King)
        } else if label == seq!['T'] {
            Some(Card::Ace)
        } else {
            None
        }
    }

    /// The nine cards, one entry for each, in catalog order.
    pub fn all() -> (cards: Vec<Card>)
        ensures
            cards@ == Self::catalog(),
    {
        let cards = vec![
            Card::Six,
            Card::Seven,
            Card::Eight,
            Card::Nine,
            Card::Ten,
            Card::Jack,
            Card::Queen,
            Card::King,
            Card::Ace,
        ];
        assert(cards@ =~= Self::catalog());
        cards
    }

    /// The rank of the card, from 6 for the six up to 14 for the ace.
    #[verifier::when_used_as_spec(spec_rank)]
    pub fn rank(self) -> (rank: u8)
        ensures
            rank == self.spec_rank(),
            is_rank(rank as int),
    {
        match self {
            Card::Six => 6,
            Card::Seven => 7,
            Card::Eight => 8,
            Card::Nine => 9,
            Card::Ten => 10,
            Card::Jack => 11,
            Card::Queen => 12,
            Card::King => 13,
            Card::Ace => 14,
        }
    }

    /// The label of the card: `"6"` to `"10"` for the numbered cards, then
    /// `"V"`, `"D"`, `"K"` and `"T"`.
    pub fn label(self) -> (label: &'static str)
        ensures
            label@ == self.spec_label(),
    {
        proof {
            reveal_strlit("6");
            reveal_strlit("7");
            reveal_strlit("8");
            reveal_strlit("9");
            reveal_strlit("10");
            reveal_strlit("V");
            reveal_strlit("D");
            reveal_strlit("K");
            reveal_strlit("T");
        }
        let label = match self {
            Card::Six => "6",
            Card::Seven => "7",
            Card::Eight => "8",
            Card::Nine => "9",
            Card::Ten => "10",
            Card::Jack => "V",
            Card::Queen => "D",
            Card::King => "K",
            Card::Ace => "T",
        };
        assert(label@ =~= self.spec_label());
        label
    }

    /// Reads a rank as a card. Every number from 6 to 14 gives its card; any
    /// other number is handed back in the error.
    pub fn from_rank(rank: u8) -> (card: Result<Card, CardError>)
        ensures
            match card {
                Ok(c) => Self::of_rank(rank as int) == Some(c),
                Err(e) => Self::of_rank(rank as int).is_none() && e == CardError::InvalidRank(rank),
            },
    {
        match rank {
            6 => Ok(Card::Six),
            7 => Ok(Card::Seven),
            8 => Ok(Card::Eight),
            9 => Ok(Card::Nine),
            10 => Ok(Card::Ten),
            11 => Ok(Card::Jack),
            12 => Ok(Card::Queen),
            13 => Ok(Card::King),
            14 => Ok(Card::Ace),
            _ => Err(CardError::InvalidRank(rank)),
        }
    }

    /// Reads a label as a card. Each of the nine labels gives its card; any
    /// other text is handed back in the error.
    pub fn from_label(label: &str) -> (card: Result<Card, CardError>)
        ensures
            match card {
                Ok(c) => Self::of_label(label@) == Some(c),
                Err(CardError::InvalidLabel(text)) => Self::of_label(label@).is_none() && text@
                    == label@,
                Err(CardError::InvalidRank(_)) => false,
            },
    {
        let length = label.unicode_len();
        if length == 1 {
            let only = label.get_char(0);
            assert(label@ =~= seq![only]);
            match only {
                '6' => { return Ok(Card::Six); },
                '7' => { return Ok(Card::Seven); },
                '8' => { return Ok(Card::Eight); },
                '9' => { return Ok(Card::Nine); },
                'V' => { return Ok(Card::Jack); },
                'D' => { return Ok(Card::Queen); },
                'K' => { return Ok(Card::King); },
                'T' => { return Ok(Card::Ace); },
                _ => {
                    assert(seq![only][0] == only);
                },
            }
        } else if length == 2 {
            let first = label.get_char(0);
            let second = label.get_char(1);
            assert(label@ =~= seq![first, second]);
            if first == '1' && second == '0' {
                return Ok(Card::Ten);
            }
            assert(seq!['1', '0'][0] == '1' && seq!['1', '0'][1] == '0');
        }
        Err(CardError::InvalidLabel(String::from_str(label)))
    }
}

impl From<Card> for u8 {
    /// The rank of the card.
    fn from(card: Card) -> (rank: u8) {
        card.rank()
    }
}

impl vstd::std_specs::convert::FromSpecImpl<Card> for u8 {
    open spec fn obeys_from_spec() -> bool {
        true
    }

    open spec fn from_spec(card: Card) -> u8 {
        card.spec_rank()
    }
}

/// Rank and card determine each other: the card read from a card's rank is
/// that card, a number is read as a card exactly when it lies between 6 and
/// 14, and the card read from such a number has that number as its rank.
pub proof fn lemma_rank_round_trip(card: Card, rank: int)
    ensures
        Card::of_rank(card.spec_rank() as int) == Some(card),
        Card::of_rank(rank).is_some() <==> 6 <= rank <= 14,
        Card::of_rank(rank) matches Some(c) ==> c.spec_rank() == rank,
{
}

/// Label and card determine each other: the card read from a card's label is
/// that card, a text is read as a card exactly when some card carries it, and
/// the card read from such a text has that text as its label.
pub proof fn lemma_label_round_trip(card: Card, label: Seq<char>)
    ensures
        Card::of_label(card.spec_label()) == Some(card),
        Card::of_label(label).is_some() <==> exists|c: Card| c.spec_label() == label,
        Card::of_label(label) matches Some(c) ==> c.spec_label() == label,
{
    assert(card.spec_label().len() > 0);
    assert(card.spec_label()[0] == card.spec_label().first());
    assert(seq!['6'][0] == '6');
    assert(seq!['7'][0] == '7');
    assert(seq!['8'][0] == '8');
    assert(seq!['9'][0] == '9');
    assert(seq!['1', '0'][0] == '1');
    assert(seq!['V'][0] == 'V');
    assert(seq!['D'][0] == 'D');
    assert(seq!['K'][0] == 'K');
    assert(seq!['T'][0] == 'T');
    match Card::of_label(label) {
        Some(c) => {
            assert(c.spec_label() == label);
        },
        None => {
            assert forall|c: Card| #[trigger] c.spec_label() != label by {}
        },
    }
}

/// The catalog is complete: it has nine entries, it holds every card, each
/// at the place `rank - 6` and nowhere else, and its labels read `6`, `7`,
/// `8`, `9`, `10`, `V`, `D`, `K`, `T` in this order.
pub proof fn lemma_catalog_complete(card: Card, at: int)
    ensures
        Card::catalog().len() == 9,
        Card::catalog()[card.spec_rank() - 6] == card,
        0 <= at < 9 && Card::catalog()[at] == card ==> at == card.spec_rank() - 6,
        Seq::new(9, |i: int| Card::catalog()[i].spec_label()) == seq![
            seq!['6'],
            seq!['7'],
            seq!['8'],
            seq!['9'],
            seq!['1', '0'],
            seq!['V'],
            seq!['D'],
            seq!['K'],
            seq!['T'],
        ],
{
    assert(Seq::new(9, |i: int| Card::catalog()[i].spec_label()) =~= seq![
        seq!['6'],
        seq!['7'],
        seq!['8'],
        seq!['9'],
        seq!['1', '0'],
        seq!['V'],
        seq!['D'],
        seq!['K'],
        seq!['T'],
    ]);
}

/// Rank and label determine each other. The label of the card of a rank,
/// read as a card, gives that rank again; and the rank of the card of a
/// label, read as a card, gives that label again.
pub proof fn lemma_rank_label_round_trip(rank: int, label: Seq<char>)
    ensures
        is_rank(rank) ==> Card::of_label(
            Card::of_rank(rank).unwrap().spec_label(),
        ).unwrap().spec_rank() == rank,
        Card::of_label(label).is_some() ==> Card::of_rank(
            Card::of_label(label).unwrap().spec_rank() as int,
        ).unwrap().spec_label() == label,
{
    if is_rank(rank) {
        let card = Card::of_rank(rank).unwrap();
        lemma_rank_round_trip(card, rank);
        lemma_label_round_trip(card, label);
    }
    if Card::of_label(label).is_some() {
        let card = Card::of_label(label).unwrap();
        lemma_label_round_trip(card, label);
        lemma_rank_round_trip(card, rank);
    }
}

} // verus!
