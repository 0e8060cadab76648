use vstd::prelude::*;

verus! {

/// The four suits, in index order.
#[derive(Debug, Clone, Copy, PartialEq, Eq, PartialOrd, Ord, Structural)]
pub enum Suit {
    Spade,
    Club,
    Diamond,
    Heart,
}

/// The thirteen ranks, from weakest (three) to strongest (two).
#[derive(Debug, Clone, Copy, PartialEq, Eq, PartialOrd, Ord, Structural)]
pub enum Rank {
    Three,
    Four,
    Five,
    Six,
    Seven,
    Eight,
    Nine,
    Ten,
    Jack,
    Queen,
    King,
    Ace,
    Two,
}

/// A playing card: one of the 52 suited cards or one of the two jokers.
#[derive(Debug, Clone, Copy, PartialEq, Eq, PartialOrd, Ord, Structural)]
pub enum Card {
    Normal { suit: Suit, rank: Rank },
    Joker1,
    Joker2,
}

/// The index of a suit (spade 0 .. heart 3).
pub open spec fn suit_index(s: Suit) -> nat {
    match s {
        Suit::Spade => 0,
        Suit::Club => 1,
        Suit::Diamond => 2,
        Suit::Heart => 3,
    }
}

/// The index of a rank (three 0 .. two 12).
pub open spec fn rank_index(r: Rank) -> nat {
    match r {
        Rank::Three => 0,
        Rank::Four => 1,
        Rank::Five => 2,
        Rank::Six => 3,
        Rank::Seven => 4,
        Rank::Eight => 5,
        Rank::Nine => 6,
        Rank::Ten => 7,
        Rank::Jack => 8,
        Rank::Queen => 9,
        Rank::King => 10,
        Rank::Ace => 11,
        Rank::Two => 12,
    }
}

pub open spec fn suit_of_index(i: int) -> Suit {
    if i == 0 {
        Suit::Spade
    } else if i == 1 {
        Suit::Club
    } else if i == 2 {
        Suit::Diamond
    } else {
        Suit::Heart
    }
}

pub open spec fn rank_of_index(i: int) -> Rank {
    if i == 0 {
        Rank::Three
    } else if i == 1 {
        Rank::Four
    } else if i == 2 {
        Rank::Five
    } else if i == 3 {
        Rank::Six
    } else if i == 4 {
        Rank::Seven
    } else if i == 5 {
        Rank::Eight
    } else if i == 6 {
        Rank::Nine
    } else if i == 7 {
        Rank::Ten
    } else if i == 8 {
        Rank::Jack
    } else if i == 9 {
        Rank::Queen
    } else if i == 10 {
        Rank::King
    } else if i == 11 {
        Rank::Ace
    } else {
        Rank::Two
    }
}

/// The card that a deck index (0..54) stands for: `suit * 13 + rank` for
/// suited cards, 52 and 53 for the two jokers.
pub open spec fn card_of_index(i: int) -> Card {
    if i == 52 {
        Card::Joker1
    } else if i == 53 {
        Card::Joker2
    } else {
        Card::Normal { suit: suit_of_index(i / 13), rank: rank_of_index(i % 13) }
    }
}

/// The deck index of a card.
pub open spec fn index_of_card(c: Card) -> nat {
    match c {
        Card::Joker1 => 52,
        Card::Joker2 => 53,
        Card::Normal { suit, rank } => suit_index(suit) * 13 + rank_index(rank),
    }
}

pub open spec fn suit_symbol(s: Suit) -> Seq<char> {
    match s {
        Suit::Spade => "♠"@,
        Suit::Club => "♣"@,
        Suit::Diamond => "♦"@,
        Suit::Heart => "♥"@,
    }
}

pub open spec fn rank_symbol(r: Rank) -> Seq<char> {
    match r {
        Rank::Three => "3"@,
        Rank::Four => "4"@,
        Rank::Five => "5"@,
        Rank::Six => "6"@,
        Rank::Seven => "7"@,
        Rank::Eight => "8"@,
        Rank::Nine => "9"@,
        Rank::Ten => "10"@,
        Rank::Jack => "J"@,
        Rank::Queen => "Q"@,
        Rank::King => "K"@,
        Rank::Ace => "A"@,
        Rank::Two => "2"@,
    }
}

/// How a card is shown: suit symbol followed by rank symbol, or "Joker(1)" / "Joker(2)".
pub open spec fn display_of_card(c: Card) -> Seq<char> {
    match c {
        Card::Joker1 => "Joker(1)"@,
        Card::Joker2 => "Joker(2)"@,
        Card::Normal { suit, rank } => suit_symbol(suit) + rank_symbol(rank),
    }
}

fn suit_str(s: Suit) -> (res: &'static str)
    ensures
        res@ == suit_symbol(s),
{
    match s {
        Suit::Spade => "♠",
        Suit::Club => "♣",
        Suit::Diamond => "♦",
        Suit::Heart => "♥",
    }
}

fn rank_str(r: Rank) -> (res: &'static str)
    ensures
        res@ == rank_symbol(r),
{
    match r {
        Rank::Three => "3",
        Rank::Four => "4",
        Rank::Five => "5",
        Rank::Six => "6",
        Rank::Seven => "7",
        Rank::Eight => "8",
        Rank::Nine => "9",
        Rank::Ten => "10",
        Rank::Jack => "J",
        Rank::Queen => "Q",
        Rank::King => "K",
        Rank::Ace => "A",
        Rank::Two => "2",
    }
}

impl Card {
    /// The card with the given deck index; indices past 53 are not cards.
    pub fn from_index(index: usize) -> (res: Card)
        requires
            index < 54,
        ensures
            res == card_of_index(index as int),
            index_of_card(res) == index,
    {
        if index == 52 {
            Card::Joker1
        } else if index == 53 {
            Card::Joker2
        } else {
            let suit_idx = index / 13;
            let num_idx = index % 13;
            let suit = if suit_idx == 0 {
                Suit::Spade
            } else if suit_idx == 1 {
                Suit::Club
            } else if suit_idx == 2 {
                Suit::Diamond
            } else {
                Suit::Heart
            };
            let rank = if num_idx == 0 {
                Rank::Three
            } else if num_idx == 1 {
                Rank::Four
            } else if num_idx == 2 {
                Rank::Five
            } else if num_idx == 3 {
                Rank::Six
            } else if num_idx == 4 {
                Rank::Seven
            } else if num_idx == 5 {
                Rank::Eight
            } else if num_idx == 6 {
                Rank::Nine
            } else if num_idx == 7 {
                Rank::Ten
            } else if num_idx == 8 {
                Rank::Jack
            } else if num_idx == 9 {
                Rank::Queen
            } else if num_idx == 10 {
                Rank::King
            } else if num_idx == 11 {
                Rank::Ace
            } else {
                Rank::Two
            };
            Card::Normal { suit, rank }
        }
    }

    /// The deck index of this card (0..54).
    pub fn to_index(&self) -> (res: usize)
        ensures
            res == index_of_card(*self),
            res < 54,
    {
        match self {
            Card::Joker1 => 52,
            Card::Joker2 => 53,
            Card::Normal { suit, rank } => {
                let suit_idx: usize = match suit {
                    Suit::Spade => 0,
                    Suit::Club => 1,
                    Suit::Diamond => 2,
                    Suit::Heart => 3,
                };
                let rank_idx: usize = match rank {
                    Rank::Three => 0,
                    Rank::Four => 1,
                    Rank::Five => 2,
                    Rank::Six => 3,
                    Rank::Seven => 4,
                    Rank::Eight => 5,
                    Rank::Nine => 6,
                    Rank::Ten => 7,
                    Rank::Jack => 8,
                    Rank::Queen => 9,
                    Rank::King => 10,
                    Rank::Ace => 11,
                    Rank::Two => 12,
                };
                suit_idx * 13 + rank_idx
            },
        }
    }

    /// The card as shown to a player, such as "♠3" or "Joker(1)".
    pub fn to_display_string(&self) -> (res: String)
        ensures
            res@ == display_of_card(*self),
    {
        match self {
            Card::Joker1 => String::from_str("Joker(1)"),
            Card::Joker2 => String::from_str("Joker(2)"),
            Card::Normal { suit, rank } => {
                let s = String::from_str(suit_str(*suit));
                s.concat(rank_str(*rank))
            },
        }
    }
}

/// The short form of the card at a deck index: like the display form, but
/// "J1" and "J2" for the jokers.
pub open spec fn short_name(index: int) -> Seq<char> {
    match card_of_index(index) {
        Card::Joker1 => "J1"@,
        Card::Joker2 => "J2"@,
        c => display_of_card(c),
    }
}

/// The short form of the card at deck index `card`, such as "♠3" or "J1".
pub fn card_to_string(card: u8) -> (res: String)
    requires
        card < 54,
    ensures
        res@ == short_name(card as int),
{
    match Card::from_index(card as usize) {
        Card::Joker1 => String::from_str("J1"),
        Card::Joker2 => String::from_str("J2"),
        Card::Normal { suit, rank } => {
            let s = String::from_str(suit_str(suit));
            s.concat(rank_str(rank))
        },
    }
}

/// Every deck index names a card, and that card's index is the one it came from.
pub proof fn lemma_index_roundtrip(i: int)
    requires
        0 <= i < 54,
    ensures
        index_of_card(card_of_index(i)) == i,
{
}

/// Every card has an index below 54, and the card at that index is the card itself.
pub proof fn lemma_card_roundtrip(c: Card)
    ensures
        index_of_card(c) < 54,
        card_of_index(index_of_card(c) as int) == c,
{
}

/// The first character of a rank's symbol tells the ranks apart.
proof fn lemma_rank_symbol_first(r1: Rank, r2: Rank)
    requires
        r1 != r2,
    ensures
        rank_symbol(r1).len() >= 1,
        rank_symbol(r1)[0] != rank_symbol(r2)[0],
{
    reveal_strlit("3");
    reveal_strlit("4");
    reveal_strlit("5");
    reveal_strlit("6");
    reveal_strlit("7");
    reveal_strlit("8");
    reveal_strlit("9");
    reveal_strlit("10");
    reveal_strlit("J");
    reveal_strlit("Q");
    reveal_strlit("K");
    reveal_strlit("A");
    reveal_strlit("2");
}

/// A suited card is shown as its one-character suit symbol, then its rank
/// symbol.
proof fn lemma_suited_display(suit: Suit, rank: Rank)
    ensures
        suit_symbol(suit).len() == 1,
        suit_symbol(suit)[0] != 'J',
        rank_symbol(rank).len() >= 1,
        display_of_card(Card::Normal { suit, rank })[0] == suit_symbol(suit)[0],
        display_of_card(Card::Normal { suit, rank })[1] == rank_symbol(rank)[0],
{
    reveal_strlit("♠");
    reveal_strlit("♣");
    reveal_strlit("♦");
    reveal_strlit("♥");
    lemma_rank_symbol_first(rank, if rank == Rank::Two { Rank::Three } else { Rank::Two });
}

/// Distinct cards are shown differently: the 54 cards have 54 labels.
pub proof fn lemma_display_distinct(c1: Card, c2: Card)
    requires
        c1 != c2,
    ensures
        display_of_card(c1) != display_of_card(c2),
{
    reveal_strlit("Joker(1)");
    reveal_strlit("Joker(2)");
    reveal_strlit("♠");
    reveal_strlit("♣");
    reveal_strlit("♦");
    reveal_strlit("♥");
    let d1 = display_of_card(c1);
    let d2 = display_of_card(c2);
    match (c1, c2) {
        (Card::Normal { suit: s1, rank: r1 }, Card::Normal { suit: s2, rank: r2 }) => {
            lemma_suited_display(s1, r1);
            lemma_suited_display(s2, r2);
            if s1 != s2 {
                assert(d1[0] != d2[0]);
            } else {
                lemma_rank_symbol_first(r1, r2);
                assert(d1[1] != d2[1]);
            }
        },
        (Card::Normal { suit, rank }, _) => {
            lemma_suited_display(suit, rank);
            assert(d1[0] != d2[0]);
        },
        (_, Card::Normal { suit, rank }) => {
            lemma_suited_display(suit, rank);
            assert(d1[0] != d2[0]);
        },
        _ => {
            assert(d1[6] != d2[6]);
        },
    }
}

} // verus!
