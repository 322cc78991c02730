//! French playing cards: a rank paired with one of four suites, the suites'
//! colors, and the two standard deck compositions.

use vstd::prelude::*;
use crate::cards::Deck;

verus! {

/// Rank of an ace.
pub const ACE: u8 = 1;

/// Rank of a jack.
pub const JACK: u8 = 11;

/// Rank of a queen.
pub const QUEEN: u8 = 12;

/// Rank of a king, the highest rank.
pub const KING: u8 = 13;

/// One of the four French suites.
#[derive(Copy, Clone, Debug, PartialEq, Eq, Structural)]
pub enum Suite {
    Hearts,
    Diamonds,
    Clubs,
    Spades,
}

/// The color of a suite: hearts and diamonds are red, clubs and spades are
/// black.
#[derive(Copy, Clone, Debug, PartialEq, Eq, Structural)]
pub enum Color {
    Red,
    Black,
}

impl Suite {
    /// The color of this suite.
    pub open spec fn spec_color(self) -> Color {
        match self {
            Suite::Hearts | Suite::Diamonds => Color::Red,
            Suite::Clubs | Suite::Spades => Color::Black,
        }
    }

    /// Returns the color of this suite.
    pub fn color(&self) -> (c: Color)
        ensures
            c == self.spec_color(),
    {
        match self {
            Suite::Hearts | Suite::Diamonds => Color::Red,
            Suite::Clubs | Suite::Spades => Color::Black,
        }
    }
}

/// A playing card: a rank (1 = ace through 13 = king) and a suite.
#[derive(Copy, Clone, Debug, PartialEq, Eq, Structural)]
pub struct Card {
    pub rank: u8,
    pub suite: Suite,
}

impl Card {
    /// A card is valid when its rank lies between ace and king.
    pub open spec fn valid(self) -> bool {
        ACE <= self.rank <= KING
    }

    /// Builds a card without checking that the rank is meaningful.
    pub fn new_unchecked(rank: u8, suite: Suite) -> (c: Card)
        ensures
            c == (Card { rank, suite }),
    {
        Card { rank, suite }
    }

    /// Builds a card from a rank between ace and king.
    pub fn new(rank: u8, suite: Suite) -> (c: Card)
        requires
            ACE <= rank <= KING,
        ensures
            c == (Card { rank, suite }),
            c.valid(),
    {
        Card::new_unchecked(rank, suite)
    }

    /// Returns the rank of this card.
    pub fn rank(&self) -> (r: u8)
        ensures
            r == self.rank,
    {
        self.rank
    }

    /// Returns the suite of this card.
    pub fn suite(&self) -> (s: Suite)
        ensures
            s == self.suite,
    {
        self.suite
    }
}

/// The suite that the standard deck deals in position `i` of its four
/// blocks: hearts, then diamonds, clubs and spades.
pub open spec fn suite_of_block(i: int) -> Suite {
    if i == 0 {
        Suite::Hearts
    } else if i == 1 {
        Suite::Diamonds
    } else if i == 2 {
        Suite::Clubs
    } else {
        Suite::Spades
    }
}

/// The 52-card standard deck as a sequence: thirteen ascending ranks of
/// hearts, then of diamonds, clubs and spades.
pub open spec fn standard_52_seq() -> Seq<Card> {
    Seq::new(52, |i: int| Card { rank: (i % 13 + 1) as u8, suite: suite_of_block(i / 13) })
}

/// Every card of the standard deck is valid.
pub proof fn lemma_standard_52_valid()
    ensures
        forall|i: int| 0 <= i < 52 ==> #[trigger] standard_52_seq()[i].valid(),
{
}

/// Returns the suite dealt in block `b` of the standard deck.
fn block_suite(b: usize) -> (s: Suite)
    ensures
        s == suite_of_block(b as int),
{
    if b == 0 {
        Suite::Hearts
    } else if b == 1 {
        Suite::Diamonds
    } else if b == 2 {
        Suite::Clubs
    } else {
        Suite::Spades
    }
}

/// Builds the full 52-card deck, thirteen ascending ranks of each suite,
/// hearts first, then diamonds, clubs and spades.
pub fn standard_52_deck() -> (d: Deck<Card>)
    ensures
        d@ == standard_52_seq(),
        d@.len() == 52,
{
    let mut cards: Vec<Card> = Vec::new();
    let mut i: usize = 0;
    while i < 52
        invariant
            i <= 52,
            cards@.len() == i,
            forall|k: int| 0 <= k < i ==> cards@[k] == #[trigger] standard_52_seq()[k],
        decreases 52 - i,
    {
        let rank = (i % 13 + 1) as u8;
        let suite = block_suite(i / 13);
        cards.push(Card { rank, suite });
        i = i + 1;
    }
    let d = Deck::from_vec(cards);
    proof {
        assert(d@ =~= standard_52_seq());
    }
    d
}

/// The 32-card piquet deck as a sequence: for each suite the ace, then the
/// ranks seven through king.
pub open spec fn standard_32_seq() -> Seq<Card> {
    Seq::new(
        32,
        |i: int|
            Card {
                rank: (if i % 8 == 0 {
                    1
                } else {
                    i % 8 + 6
                }) as u8,
                suite: suite_of_block(i / 8),
            },
    )
}

/// Builds the 32-card piquet deck: the standard deck without the ranks two
/// through six.
pub fn standard_32_deck() -> (d: Deck<Card>)
    ensures
        d@ == standard_32_seq(),
        d@.len() == 32,
{
    let mut cards: Vec<Card> = Vec::new();
    let mut i: usize = 0;
    while i < 32
        invariant
            i <= 32,
            cards@.len() == i,
            forall|k: int| 0 <= k < i ==> cards@[k] == #[trigger] standard_32_seq()[k],
        decreases 32 - i,
    {
        let rank = if i % 8 == 0 {
            1
        } else {
            (i % 8 + 6) as u8
        };
        let suite = block_suite(i / 8);
        cards.push(Card { rank, suite });
        i = i + 1;
    }
    let d = Deck::from_vec(cards);
    proof {
        assert(d@ =~= standard_32_seq());
    }
    d
}

} // verus!
