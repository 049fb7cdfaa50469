//! The standard strategy: no wildcard substitution, `J` at its natural
//! mid-strength position.

use vstd::prelude::*;

use crate::day7::{
    Card, Hand, HandType, Mode, ParseError, card_rank, classify_spec, cmp_int, cmp_hands_spec,
    hand_err, hand_view_of, parse_hand,
};

verus! {

/// The category of a hand under the standard rules.
pub fn hand_type(hand: &Hand) -> (t: HandType)
    requires
        hand.wf(),
    ensures
        t == classify_spec(hand.cards@, Mode::Standard),
{
    hand.hand_type(Mode::Standard)
}

/// Compare two cards under the standard order.
pub fn cmp_cards(a: &Card, b: &Card) -> (r: core::cmp::Ordering)
    ensures
        r == cmp_int(card_rank(*a, Mode::Standard), card_rank(*b, Mode::Standard)),
{
    crate::day7::cmp_cards(a, b, Mode::Standard)
}

/// A hand bound to the standard rules.
#[derive(Debug, Clone)]
pub struct Part1Hand {
    pub hand: Hand,
}

impl Part1Hand {
    /// A well-formed hand holds exactly five cards.
    pub open spec fn wf(&self) -> bool {
        self.hand.wf()
    }

    /// Parse one line into a standard-rules hand.
    pub fn parse(line: &str) -> (r: Result<Part1Hand, ParseError>)
        ensures
            match r {
                Ok(h) => hand_err(line@) is None && h.hand@ == hand_view_of(line@) && h.wf(),
                Err(e) => hand_err(line@) == Some(e),
            },
    {
        match parse_hand(line) {
            Ok(hand) => Ok(Part1Hand { hand }),
            Err(e) => Err(e),
        }
    }

    /// The category of this hand.
    pub fn hand_type(&self) -> (t: HandType)
        requires
            self.wf(),
        ensures
            t == classify_spec(self.hand.cards@, Mode::Standard),
    {
        self.hand.hand_type(Mode::Standard)
    }

    /// The stake this hand was entered with.
    pub fn bid(&self) -> (r: u32)
        ensures
            r == self.hand.bid,
    {
        self.hand.bid
    }

    /// Compare two hands under the standard rules.
    pub fn cmp(&self, other: &Part1Hand) -> (r: core::cmp::Ordering)
        requires
            self.wf(),
            other.wf(),
        ensures
            r == cmp_hands_spec(self.hand.cards@, other.hand.cards@, Mode::Standard),
    {
        crate::day7::cmp_hands(&self.hand, &other.hand, Mode::Standard)
    }
}

} // verus!
