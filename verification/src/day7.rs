//! The hand-ranking engine: five-symbol hands with stakes are parsed,
//! classified into seven ranked categories, ordered by a strict total order
//! and reduced to a weighted sum (stake times 1-based rank after sorting).
//!
//! Classification and comparison exist in two variants, selected by a
//! [`Mode`] value: `Standard`, and `Wildcard`, in which the `J` symbol is
//! the weakest symbol for tie-breaks but reinforces the strongest group
//! during classification.

pub mod part1;
pub mod part2;

use vstd::prelude::*;

use crate::parse::{chars_of, find_char, find_first, is_numeral, num_val, parse_u32, copy_range};
use vstd::multiset::Multiset;

verus! {

/// One of the 13 card symbols, in ascending standard strength.
#[derive(PartialEq, Eq, Structural, Clone, Copy, Debug)]
pub enum Card {
    Two,
    Three,
    Four,
    Five,
    Six,
    Seven,
    Eight,
    Nine,
    T,
    J,
    Q,
    K,
    A,
}

/// The seven ranked hand categories, in ascending strength.
#[derive(PartialEq, Eq, Structural, Clone, Copy, Debug)]
pub enum HandType {
    HighCard,
    OnePair,
    TwoPair,
    ThreeOfAKind,
    FullHouse,
    FourOfAKind,
    FiveOfAKind,
}

/// Which rules the classifier and comparator follow.
#[derive(PartialEq, Eq, Structural, Clone, Copy, Debug)]
pub enum Mode {
    Standard,
    Wildcard,
}

/// Why a line failed to parse as a hand.
#[derive(PartialEq, Eq, Structural, Clone, Copy, Debug)]
pub enum ParseError {
    MissingSeparator,
    InvalidSymbol,
    WrongLength,
    InvalidInteger,
}

/// An ordered sequence of exactly five cards plus a non-negative stake.
#[derive(Debug, Clone)]
pub struct Hand {
    pub cards: Vec<Card>,
    pub bid: u32,
}

/// The mathematical model of a hand.
#[verifier::ext_equal]
pub struct HandView {
    pub cards: Seq<Card>,
    pub bid: u32,
}

impl View for Hand {
    type V = HandView;

    open spec fn view(&self) -> HandView {
        HandView { cards: self.cards@, bid: self.bid }
    }
}

impl Hand {
    /// A well-formed hand holds exactly five cards.
    pub open spec fn wf(&self) -> bool {
        self.cards@.len() == 5
    }
}

/// The standard ordinal of a card, `Two` lowest, `A` highest.
pub open spec fn card_index(c: Card) -> int {
    match c {
        Card::Two => 0,
        Card::Three => 1,
        Card::Four => 2,
        Card::Five => 3,
        Card::Six => 4,
        Card::Seven => 5,
        Card::Eight => 6,
        Card::Nine => 7,
        Card::T => 8,
        Card::J => 9,
        Card::Q => 10,
        Card::K => 11,
        Card::A => 12,
    }
}

/// The card with the given standard ordinal.
pub open spec fn index_card(k: int) -> Card {
    if k == 0 {
        Card::Two
    } else if k == 1 {
        Card::Three
    } else if k == 2 {
        Card::Four
    } else if k == 3 {
        Card::Five
    } else if k == 4 {
        Card::Six
    } else if k == 5 {
        Card::Seven
    } else if k == 6 {
        Card::Eight
    } else if k == 7 {
        Card::Nine
    } else if k == 8 {
        Card::T
    } else if k == 9 {
        Card::J
    } else if k == 10 {
        Card::Q
    } else {
        if k == 11 {
            Card::K
        } else {
            Card::A
        }
    }
}

/// How many times `c` occurs in `s`.
pub open spec fn count_card(s: Seq<Card>, c: Card) -> nat
    decreases s.len(),
{
    if s.len() == 0 {
        0
    } else {
        count_card(s.drop_last(), c) + (if s.last() == c {
            1nat
        } else {
            0nat
        })
    }
}

/// The number of distinct card ordinals below `n` that occur in `s`;
/// with `skip_j` the wildcard's own group is left out.
pub open spec fn distinct_upto(s: Seq<Card>, skip_j: bool, n: int) -> int
    decreases n,
{
    if n <= 0 {
        0
    } else {
        distinct_upto(s, skip_j, n - 1) + (if (skip_j && n - 1 == card_index(Card::J))
            || count_card(s, index_card(n - 1)) == 0 {
            0int
        } else {
            1int
        })
    }
}

/// The largest occurrence count among card ordinals below `n`;
/// with `skip_j` the wildcard's own group is left out.
pub open spec fn maxcnt_upto(s: Seq<Card>, skip_j: bool, n: int) -> nat
    decreases n,
{
    if n <= 0 {
        0
    } else {
        let m = maxcnt_upto(s, skip_j, n - 1);
        let c: nat = if skip_j && n - 1 == card_index(Card::J) {
            0
        } else {
            count_card(s, index_card(n - 1))
        };
        if c > m {
            c
        } else {
            m
        }
    }
}

/// The sum of the occurrence counts of card ordinals below `n`;
/// with `skip_j` the wildcard's own group is left out.
pub open spec fn sumcnt_upto(s: Seq<Card>, skip_j: bool, n: int) -> int
    decreases n,
{
    if n <= 0 {
        0
    } else {
        sumcnt_upto(s, skip_j, n - 1) + (if skip_j && n - 1 == card_index(Card::J) {
            0int
        } else {
            count_card(s, index_card(n - 1)) as int
        })
    }
}

/// The classification rules over the multiset shape of a five-card hand:
/// `d` distinct symbol groups whose largest group has `m` members.
pub open spec fn classify_counts(d: int, m: int) -> HandType {
    if d <= 1 {
        HandType::FiveOfAKind
    } else if d == 2 {
        if m == 4 {
            HandType::FourOfAKind
        } else {
            HandType::FullHouse
        }
    } else if d == 3 {
        if m == 3 {
            HandType::ThreeOfAKind
        } else {
            HandType::TwoPair
        }
    } else if d == 4 {
        HandType::OnePair
    } else {
        HandType::HighCard
    }
}

/// The category of a five-card sequence under the given mode.  In wildcard
/// mode the `J` cards are removed from the count mapping and their number is
/// added to the largest remaining group (an all-wildcard hand is five of a
/// kind outright); which group of a tied maximum absorbs them does not
/// change the category, since only the resulting count matters.
pub open spec fn classify_spec(s: Seq<Card>, mode: Mode) -> HandType {
    match mode {
        Mode::Standard => classify_counts(distinct_upto(s, false, 13), maxcnt_upto(s, false, 13) as int),
        Mode::Wildcard => {
            let w = count_card(s, Card::J);
            let d = distinct_upto(s, true, 13);
            if d == 0 {
                HandType::FiveOfAKind
            } else {
                classify_counts(d, maxcnt_upto(s, true, 13) + w as int)
            }
        },
    }
}

/// The ascending strength order of the seven categories.
pub open spec fn type_rank(t: HandType) -> int {
    match t {
        HandType::HighCard => 0,
        HandType::OnePair => 1,
        HandType::TwoPair => 2,
        HandType::ThreeOfAKind => 3,
        HandType::FullHouse => 4,
        HandType::FourOfAKind => 5,
        HandType::FiveOfAKind => 6,
    }
}

proof fn lemma_card_index_roundtrip(c: Card)
    ensures
        index_card(card_index(c)) == c,
        0 <= card_index(c) < 13,
{
}

/// A count never exceeds the length counted over.
proof fn lemma_count_le_len(s: Seq<Card>, c: Card)
    ensures
        count_card(s, c) <= s.len(),
    decreases s.len(),
{
    if s.len() > 0 {
        lemma_count_le_len(s.drop_last(), c);
    }
}

/// The standard ordinal of each card, as a value.
fn card_ordinal(c: &Card) -> (r: usize)
    ensures
        r == card_index(*c),
{
    match c {
        Card::Two => 0,
        Card::Three => 1,
        Card::Four => 2,
        Card::Five => 3,
        Card::Six => 4,
        Card::Seven => 5,
        Card::Eight => 6,
        Card::Nine => 7,
        Card::T => 8,
        Card::J => 9,
        Card::Q => 10,
        Card::K => 11,
        Card::A => 12,
    }
}

/// Tally how often each of the 13 symbols occurs in `cards`.
#[verifier::loop_isolation(false)]
fn count_cards(cards: &Vec<Card>) -> (r: Vec<u8>)
    requires
        cards@.len() <= 255,
    ensures
        r@.len() == 13,
        forall|k: int| 0 <= k < 13 ==> #[trigger] r@[k] == count_card(cards@, index_card(k)),
{
    let mut r: Vec<u8> = Vec::new();
    let mut k: usize = 0;
    while k < 13
        invariant
            r@.len() == k <= 13,
            forall|j: int| 0 <= j < k ==> #[trigger] r@[j] == 0,
        decreases 13 - k,
    {
        r.push(0);
        k = k + 1;
    }
    assert(forall|j: int| 0 <= j < 13 ==> count_card(cards@.take(0), index_card(j)) == 0);
    let mut i: usize = 0;
    while i < cards.len()
        invariant
            i <= cards@.len(),
            r@.len() == 13,
            forall|k: int| 0 <= k < 13 ==> #[trigger] r@[k] == count_card(
                cards@.take(i as int),
                index_card(k),
            ),
        decreases cards@.len() - i,
    {
        let idx = card_ordinal(&cards[i]);
        proof {
            lemma_card_index_roundtrip(cards@[i as int]);
            lemma_count_le_len(cards@.take(i as int), cards@[i as int]);
        }
        let cur = r[idx];
        r.set(idx, cur + 1);
        i = i + 1;
        proof {
            let t = cards@.take(i as int);
            assert(t.drop_last() =~= cards@.take(i - 1));
            assert(t.last() == cards@[i - 1]);
            assert forall|k: int| 0 <= k < 13 implies #[trigger] r@[k] == count_card(
                t,
                index_card(k),
            ) by {
                lemma_card_index_roundtrip(index_card(k));
                if index_card(k) == cards@[i - 1] {
                    assert(k == card_index(cards@[i - 1]));
                } else {
                    assert(count_card(t, index_card(k)) == count_card(t.drop_last(), index_card(k)));
                }
            }
        }
    }
    assert(cards@.take(cards@.len() as int) =~= cards@);
    r
}

/// The number of non-empty groups and the largest group size among the
/// tallies, leaving the wildcard's group out when `skip_j` is set.
#[verifier::loop_isolation(false)]
fn distinct_and_max(counts: &Vec<u8>, skip_j: bool, s: Ghost<Seq<Card>>) -> (r: (u8, u8))
    requires
        counts@.len() == 13,
        forall|k: int| 0 <= k < 13 ==> #[trigger] counts@[k] == count_card(s@, index_card(k)),
    ensures
        r.0 == distinct_upto(s@, skip_j, 13),
        r.1 == maxcnt_upto(s@, skip_j, 13),
{
    let mut d: u8 = 0;
    let mut m: u8 = 0;
    let mut k: usize = 0;
    while k < 13
        invariant
            k <= 13,
            d <= k,
            d == distinct_upto(s@, skip_j, k as int),
            m == maxcnt_upto(s@, skip_j, k as int),
        decreases 13 - k,
    {
        if !(skip_j && k == 9) {
            let c = counts[k];
            if c > 0 {
                d = d + 1;
            }
            if c > m {
                m = c;
            }
        }
        k = k + 1;
    }
    (d, m)
}

impl Hand {
    /// The category of this hand under the given mode.
    pub fn hand_type(&self, mode: Mode) -> (t: HandType)
        requires
            self.wf(),
        ensures
            t == classify_spec(self.cards@, mode),
    {
        let counts = count_cards(&self.cards);
        match mode {
            Mode::Standard => {
                let (d, m) = distinct_and_max(&counts, false, Ghost(self.cards@));
                classify_from_counts(d, m)
            },
            Mode::Wildcard => {
                let w = counts[9];
                proof {
                    lemma_count_le_len(self.cards@, Card::J);
                }
                let (d, m) = distinct_and_max(&counts, true, Ghost(self.cards@));
                if d == 0 {
                    HandType::FiveOfAKind
                } else {
                    proof {
                        lemma_maxcnt_le_sum(self.cards@, true, 13);
                        lemma_sumcnt_split(self.cards@, 13);
                        lemma_sumcnt_all(self.cards@, 13);
                    }
                    classify_from_counts(d, m + w)
                }
            },
        }
    }
}

/// The classification table, as a value.
fn classify_from_counts(d: u8, m: u8) -> (t: HandType)
    ensures
        t == classify_counts(d as int, m as int),
{
    if d <= 1 {
        HandType::FiveOfAKind
    } else if d == 2 {
        if m == 4 {
            HandType::FourOfAKind
        } else {
            HandType::FullHouse
        }
    } else if d == 3 {
        if m == 3 {
            HandType::ThreeOfAKind
        } else {
            HandType::TwoPair
        }
    } else if d == 4 {
        HandType::OnePair
    } else {
        HandType::HighCard
    }
}

/// The largest group is no larger than the total counted.
proof fn lemma_maxcnt_le_sum(s: Seq<Card>, skip_j: bool, n: int)
    ensures
        maxcnt_upto(s, skip_j, n) <= sumcnt_upto(s, skip_j, n),
        sumcnt_upto(s, skip_j, n) >= 0,
    decreases n,
{
    if n > 0 {
        lemma_maxcnt_le_sum(s, skip_j, n - 1);
    }
}

/// Leaving the wildcard group out removes exactly its count from the total.
proof fn lemma_sumcnt_split(s: Seq<Card>, n: int)
    ensures
        sumcnt_upto(s, false, n) == sumcnt_upto(s, true, n) + (if 0 <= card_index(Card::J) < n {
            count_card(s, Card::J) as int
        } else {
            0int
        }),
    decreases n,
{
    if n > 0 {
        lemma_sumcnt_split(s, n - 1);
    }
}

/// Counting one card per ordinal group accounts for every card once.
proof fn lemma_sumcnt_all(s: Seq<Card>, n: int)
    requires
        0 <= n <= 13,
    ensures
        sumcnt_upto(s, false, n) <= s.len(),
        n == 13 ==> sumcnt_upto(s, false, 13) == s.len(),
    decreases s.len(),
{
    if s.len() == 0 {
        lemma_sumcnt_zero(s, n);
    } else {
        let t = s.drop_last();
        lemma_sumcnt_all(t, n);
        lemma_card_index_roundtrip(s.last());
        lemma_sumcnt_step(s, t, n);
    }
}

/// Extending a sequence by one card raises exactly that card's group count.
proof fn lemma_sumcnt_step(s: Seq<Card>, t: Seq<Card>, n: int)
    requires
        s.len() > 0,
        t == s.drop_last(),
        0 <= n <= 13,
    ensures
        sumcnt_upto(s, false, n) == sumcnt_upto(t, false, n) + (if card_index(s.last()) < n {
            1int
        } else {
            0int
        }),
    decreases n,
{
    if n > 0 {
        lemma_sumcnt_step(s, t, n - 1);
        lemma_card_index_roundtrip(s.last());
        let c = index_card(n - 1);
        if c == s.last() {
            assert(count_card(s, c) == count_card(t, c) + 1);
        } else {
            assert(count_card(s, c) == count_card(t, c));
        }
    }
}

/// An empty sequence has empty groups.
proof fn lemma_sumcnt_zero(s: Seq<Card>, n: int)
    requires
        s.len() == 0,
    ensures
        sumcnt_upto(s, false, n) == 0,
    decreases n,
{
    if n > 0 {
        lemma_sumcnt_zero(s, n - 1);
    }
}

/// Leaving the wildcard group out removes exactly one distinct group when
/// the hand holds a wildcard, and nothing otherwise.
proof fn lemma_distinct_split(s: Seq<Card>, n: int)
    ensures
        distinct_upto(s, false, n) == distinct_upto(s, true, n) + (if 0 <= card_index(Card::J) < n
            && count_card(s, Card::J) > 0 {
            1int
        } else {
            0int
        }),
    decreases n,
{
    if n > 0 {
        lemma_distinct_split(s, n - 1);
    }
}

/// The overall largest group is the larger of the wildcard group and the
/// largest non-wildcard group.
proof fn lemma_maxcnt_split(s: Seq<Card>, n: int)
    ensures
        maxcnt_upto(s, false, n) == if 0 <= card_index(Card::J) < n && count_card(s, Card::J)
            > maxcnt_upto(s, true, n) {
            count_card(s, Card::J)
        } else {
            maxcnt_upto(s, true, n)
        },
    decreases n,
{
    if n > 0 {
        lemma_maxcnt_split(s, n - 1);
    }
}

/// Pigeonhole: `d` groups of at most `m` members each hold at most `m * d`
/// cards.
proof fn lemma_pigeonhole(s: Seq<Card>, skip_j: bool, n: int)
    ensures
        maxcnt_upto(s, skip_j, n) * distinct_upto(s, skip_j, n) >= sumcnt_upto(s, skip_j, n),
        distinct_upto(s, skip_j, n) >= 0,
    decreases n,
{
    if n > 0 {
        lemma_pigeonhole(s, skip_j, n - 1);
        let m = maxcnt_upto(s, skip_j, n - 1);
        let d = distinct_upto(s, skip_j, n - 1);
        let sum = sumcnt_upto(s, skip_j, n - 1);
        let m2 = maxcnt_upto(s, skip_j, n);
        let d2 = distinct_upto(s, skip_j, n);
        let c: nat = if skip_j && n - 1 == card_index(Card::J) {
            0
        } else {
            count_card(s, index_card(n - 1))
        };
        if c > 0 {
            assert(m2 * d2 >= sum + c) by (nonlinear_arith)
                requires
                    m2 >= m,
                    m2 >= c,
                    d2 == d + 1,
                    d >= 0,
                    m * d >= sum,
            ;
        }
    }
}

/// Every non-empty group contributes at least one card beyond the largest
/// group, so `sum >= max + d - 1`, and `sum >= d`.
proof fn lemma_sum_spread(s: Seq<Card>, skip_j: bool, n: int)
    ensures
        distinct_upto(s, skip_j, n) >= 0,
        sumcnt_upto(s, skip_j, n) >= distinct_upto(s, skip_j, n),
        distinct_upto(s, skip_j, n) == 0 ==> maxcnt_upto(s, skip_j, n) == 0,
        distinct_upto(s, skip_j, n) >= 1 ==> sumcnt_upto(s, skip_j, n) >= maxcnt_upto(
            s,
            skip_j,
            n,
        ) + distinct_upto(s, skip_j, n) - 1,
    decreases n,
{
    if n > 0 {
        lemma_sum_spread(s, skip_j, n - 1);
    }
}

/// Substituting the wildcards into the strongest remaining group never
/// weakens a hand: for every five-card hand the wildcard-mode category is at
/// least as strong as the standard-mode category.
pub proof fn lemma_wildcard_monotonic(s: Seq<Card>)
    requires
        s.len() == 5,
    ensures
        type_rank(classify_spec(s, Mode::Wildcard)) >= type_rank(classify_spec(s, Mode::Standard)),
{
    let w = count_card(s, Card::J) as int;
    let d1 = distinct_upto(s, false, 13);
    let m1 = maxcnt_upto(s, false, 13) as int;
    let d0 = distinct_upto(s, true, 13);
    let m0 = maxcnt_upto(s, true, 13) as int;
    lemma_sumcnt_all(s, 13);
    lemma_sumcnt_split(s, 13);
    lemma_distinct_split(s, 13);
    lemma_maxcnt_split(s, 13);
    lemma_pigeonhole(s, true, 13);
    lemma_pigeonhole(s, false, 13);
    lemma_sum_spread(s, true, 13);
    lemma_sum_spread(s, false, 13);
    lemma_count_le_len(s, Card::J);
    assert(sumcnt_upto(s, false, 13) == 5);
    assert(sumcnt_upto(s, true, 13) == 5 - w);
    if d0 == 0 {
        assert(classify_spec(s, Mode::Wildcard) == HandType::FiveOfAKind);
    } else {
        assert(m0 * d0 >= 5 - w);
        assert(m1 * d1 >= 5);
        if w == 0 {
            assert(d1 == d0 && m1 == m0);
        } else {
            assert(d1 == d0 + 1);
            assert(m1 == if w > m0 {
                w
            } else {
                m0
            });
            assert(m0 + d0 - 1 <= 5 - w);
            assert(m1 + d1 - 1 <= 5);
        }
    }
}

/// The comparison ordinal of a card: its standard ordinal, except that in
/// wildcard mode the `J` is strictly the weakest symbol.
pub open spec fn card_rank(c: Card, mode: Mode) -> int {
    match mode {
        Mode::Standard => card_index(c),
        Mode::Wildcard => if c is J {
            0
        } else {
            card_index(c) + 1
        },
    }
}

/// The order of two integers.
pub open spec fn cmp_int(x: int, y: int) -> core::cmp::Ordering {
    if x < y {
        core::cmp::Ordering::Less
    } else if x == y {
        core::cmp::Ordering::Equal
    } else {
        core::cmp::Ordering::Greater
    }
}

/// The mirror image of an ordering.
pub open spec fn flip(o: core::cmp::Ordering) -> core::cmp::Ordering {
    match o {
        core::cmp::Ordering::Less => core::cmp::Ordering::Greater,
        core::cmp::Ordering::Equal => core::cmp::Ordering::Equal,
        core::cmp::Ordering::Greater => core::cmp::Ordering::Less,
    }
}

/// Position-by-position comparison of two card sequences from index `i` on,
/// by the card ranks of the given mode.
pub open spec fn lex_cmp(a: Seq<Card>, b: Seq<Card>, mode: Mode, i: int) -> core::cmp::Ordering
    decreases a.len() - i,
{
    if i < 0 || i >= a.len() || i >= b.len() {
        core::cmp::Ordering::Equal
    } else {
        let o = cmp_int(card_rank(a[i], mode), card_rank(b[i], mode));
        if o is Equal {
            lex_cmp(a, b, mode, i + 1)
        } else {
            o
        }
    }
}

/// The total order on hands: pointwise-equal hands are equal; otherwise the
/// category order decides, and equal categories fall back to the positional
/// comparison.
pub open spec fn cmp_hands_spec(a: Seq<Card>, b: Seq<Card>, mode: Mode) -> core::cmp::Ordering {
    if a == b {
        core::cmp::Ordering::Equal
    } else {
        let ta = type_rank(classify_spec(a, mode));
        let tb = type_rank(classify_spec(b, mode));
        if ta != tb {
            cmp_int(ta, tb)
        } else {
            lex_cmp(a, b, mode, 0)
        }
    }
}

/// Card ranks identify cards: equal ranks under one mode mean equal cards.
proof fn lemma_card_rank_injective(x: Card, y: Card, mode: Mode)
    ensures
        card_rank(x, mode) == card_rank(y, mode) ==> x == y,
{
}

/// The comparison ordinal of a card, as a value.
fn card_rank_val(c: &Card, mode: Mode) -> (r: usize)
    ensures
        r == card_rank(*c, mode),
{
    match mode {
        Mode::Standard => card_ordinal(c),
        Mode::Wildcard => match c {
            Card::J => 0,
            _ => card_ordinal(c) + 1,
        },
    }
}

/// Compare two cards under the given mode.
pub fn cmp_cards(a: &Card, b: &Card, mode: Mode) -> (r: core::cmp::Ordering)
    ensures
        r == cmp_int(card_rank(*a, mode), card_rank(*b, mode)),
{
    let ra = card_rank_val(a, mode);
    let rb = card_rank_val(b, mode);
    if ra < rb {
        core::cmp::Ordering::Less
    } else if ra == rb {
        core::cmp::Ordering::Equal
    } else {
        core::cmp::Ordering::Greater
    }
}

/// Whether two card sequences are pointwise equal.
#[verifier::loop_isolation(false)]
fn eq_cards(a: &Vec<Card>, b: &Vec<Card>) -> (r: bool)
    ensures
        r == (a@ == b@),
{
    if a.len() != b.len() {
        return false;
    }
    let mut i: usize = 0;
    while i < a.len()
        invariant
            i <= a@.len(),
            forall|j: int| 0 <= j < i ==> a@[j] == b@[j],
        decreases a@.len() - i,
    {
        let ca = a[i];
        let cb = b[i];
        let same = match (ca, cb) {
            (Card::Two, Card::Two) => true,
            (Card::Three, Card::Three) => true,
            (Card::Four, Card::Four) => true,
            (Card::Five, Card::Five) => true,
            (Card::Six, Card::Six) => true,
            (Card::Seven, Card::Seven) => true,
            (Card::Eight, Card::Eight) => true,
            (Card::Nine, Card::Nine) => true,
            (Card::T, Card::T) => true,
            (Card::J, Card::J) => true,
            (Card::Q, Card::Q) => true,
            (Card::K, Card::K) => true,
            (Card::A, Card::A) => true,
            _ => false,
        };
        if !same {
            assert(a@[i as int] != b@[i as int]);
            return false;
        }
        i = i + 1;
    }
    proof {
        assert(a@ =~= b@);
    }
    true
}

/// The strength ordinal of a category, as a value.
fn type_ordinal(t: &HandType) -> (r: usize)
    ensures
        r == type_rank(*t),
{
    match t {
        HandType::HighCard => 0,
        HandType::OnePair => 1,
        HandType::TwoPair => 2,
        HandType::ThreeOfAKind => 3,
        HandType::FullHouse => 4,
        HandType::FourOfAKind => 5,
        HandType::FiveOfAKind => 6,
    }
}

/// Compare two hands under the given mode: category first, then the
/// positional tie-break.
#[verifier::loop_isolation(false)]
pub fn cmp_hands(a: &Hand, b: &Hand, mode: Mode) -> (r: core::cmp::Ordering)
    requires
        a.wf(),
        b.wf(),
    ensures
        r == cmp_hands_spec(a.cards@, b.cards@, mode),
{
    if eq_cards(&a.cards, &b.cards) {
        return core::cmp::Ordering::Equal;
    }
    let ta = a.hand_type(mode);
    let tb = b.hand_type(mode);
    let ra = type_ordinal(&ta);
    let rb = type_ordinal(&tb);
    if ra < rb {
        return core::cmp::Ordering::Less;
    }
    if ra > rb {
        return core::cmp::Ordering::Greater;
    }
    let mut i: usize = 0;
    while i < 5
        invariant
            0 <= i <= 5,
            lex_cmp(a.cards@, b.cards@, mode, 0) == lex_cmp(a.cards@, b.cards@, mode, i as int),
        decreases 5 - i,
    {
        let o = cmp_cards(&a.cards[i], &b.cards[i], mode);
        match o {
            core::cmp::Ordering::Equal => {
                i = i + 1;
            },
            _ => {
                return o;
            },
        }
    }
    core::cmp::Ordering::Equal
}

/// Swapping the sides of the positional comparison mirrors its result.
proof fn lemma_lex_flip(a: Seq<Card>, b: Seq<Card>, mode: Mode, i: int)
    requires
        a.len() == b.len(),
    ensures
        lex_cmp(b, a, mode, i) == flip(lex_cmp(a, b, mode, i)),
    decreases a.len() - i,
{
    if 0 <= i < a.len() {
        lemma_lex_flip(a, b, mode, i + 1);
    }
}

/// The positional comparison is `Equal` exactly on pointwise-equal tails.
proof fn lemma_lex_eq(a: Seq<Card>, b: Seq<Card>, mode: Mode, i: int)
    requires
        0 <= i,
        a.len() == b.len(),
    ensures
        (lex_cmp(a, b, mode, i) is Equal) <==> (forall|j: int|
            i <= j < a.len() ==> a[j] == b[j]),
    decreases a.len() - i,
{
    if 0 <= i < a.len() {
        lemma_lex_eq(a, b, mode, i + 1);
        lemma_card_rank_injective(a[i], b[i], mode);
    }
}

/// The positional comparison is transitive on `not Greater`.
proof fn lemma_lex_trans(a: Seq<Card>, b: Seq<Card>, c: Seq<Card>, mode: Mode, i: int)
    requires
        a.len() == b.len() == c.len(),
        !(lex_cmp(a, b, mode, i) is Greater),
        !(lex_cmp(b, c, mode, i) is Greater),
    ensures
        !(lex_cmp(a, c, mode, i) is Greater),
        (lex_cmp(a, b, mode, i) is Less) || (lex_cmp(b, c, mode, i) is Less) ==> lex_cmp(
            a,
            c,
            mode,
            i,
        ) is Less,
    decreases a.len() - i,
{
    if 0 <= i < a.len() {
        if card_rank(a[i], mode) == card_rank(b[i], mode) && card_rank(b[i], mode) == card_rank(
            c[i],
            mode,
        ) {
            lemma_lex_trans(a, b, c, mode, i + 1);
        }
    }
}

/// The hand order is consistent with hand equality: two five-card hands
/// compare `Equal` exactly when they are pointwise equal.
pub proof fn lemma_cmp_hands_consistent(a: Seq<Card>, b: Seq<Card>, mode: Mode)
    requires
        a.len() == 5,
        b.len() == 5,
    ensures
        (cmp_hands_spec(a, b, mode) is Equal) <==> a == b,
{
    if a != b {
        let ta = type_rank(classify_spec(a, mode));
        let tb = type_rank(classify_spec(b, mode));
        if ta == tb {
            lemma_lex_eq(a, b, mode, 0);
            if lex_cmp(a, b, mode, 0) is Equal {
                assert(a =~= b);
            }
        }
    }
}

/// The hand order is antisymmetric: swapping the sides mirrors the result.
pub proof fn lemma_cmp_hands_antisym(a: Seq<Card>, b: Seq<Card>, mode: Mode)
    requires
        a.len() == 5,
        b.len() == 5,
    ensures
        cmp_hands_spec(b, a, mode) == flip(cmp_hands_spec(a, b, mode)),
{
    if a != b {
        lemma_lex_flip(a, b, mode, 0);
    }
}

/// The hand order is transitive, both weakly and strictly.
pub proof fn lemma_cmp_hands_trans(a: Seq<Card>, b: Seq<Card>, c: Seq<Card>, mode: Mode)
    requires
        a.len() == 5,
        b.len() == 5,
        c.len() == 5,
        !(cmp_hands_spec(a, b, mode) is Greater),
        !(cmp_hands_spec(b, c, mode) is Greater),
    ensures
        !(cmp_hands_spec(a, c, mode) is Greater),
        (cmp_hands_spec(a, b, mode) is Less) || (cmp_hands_spec(b, c, mode) is Less)
            ==> cmp_hands_spec(a, c, mode) is Less,
{
    lemma_cmp_hands_consistent(a, b, mode);
    lemma_cmp_hands_consistent(b, c, mode);
    lemma_cmp_hands_consistent(a, c, mode);
    if a == b || b == c || a == c {
        if a == c && a != b {
            // le both ways between a and b would make cmp(a, b) Equal
            lemma_cmp_hands_antisym(a, b, mode);
        }
    } else {
        let ta = type_rank(classify_spec(a, mode));
        let tb = type_rank(classify_spec(b, mode));
        let tc = type_rank(classify_spec(c, mode));
        if ta == tb && tb == tc {
            lemma_lex_trans(a, b, c, mode, 0);
            lemma_lex_eq(a, c, mode, 0);
            if lex_cmp(a, c, mode, 0) is Equal {
                assert(a =~= c);
            }
        }
    }
}

impl HandView {
    /// A well-formed hand model holds exactly five cards.
    pub open spec fn wf(&self) -> bool {
        self.cards.len() == 5
    }
}

/// All hands of a batch are well formed.
pub open spec fn all_wf(s: Seq<HandView>) -> bool {
    forall|i: int| 0 <= i < s.len() ==> (#[trigger] s[i]).wf()
}

/// The models of a batch of hands.
pub open spec fn hviews(s: Seq<Hand>) -> Seq<HandView> {
    s.map_values(|h: Hand| h@)
}

/// Place `x` behind every hand of `t` that does not exceed it: the result
/// keeps `t`'s order and `x` stands before the first strictly greater hand.
pub open spec fn insert_after(x: HandView, t: Seq<HandView>, mode: Mode) -> Seq<HandView>
    decreases t.len(),
{
    if t.len() == 0 {
        seq![x]
    } else if cmp_hands_spec(x.cards, t[0].cards, mode) is Less {
        seq![x] + t
    } else {
        seq![t[0]] + insert_after(x, t.drop_first(), mode)
    }
}

/// The stable ascending sort of a batch: each hand in turn is placed behind
/// the already-sorted hands that do not exceed it, so hands that compare
/// equal keep their original relative order.
pub open spec fn sort_spec(s: Seq<HandView>, mode: Mode) -> Seq<HandView>
    decreases s.len(),
{
    if s.len() == 0 {
        Seq::empty()
    } else {
        insert_after(s.last(), sort_spec(s.drop_last(), mode), mode)
    }
}

/// The batch is in ascending order.
pub open spec fn sorted_by(s: Seq<HandView>, mode: Mode) -> bool {
    forall|i: int, j: int|
        0 <= i < j < s.len() ==> !(#[trigger] cmp_hands_spec(s[i].cards, s[j].cards, mode)
            is Greater)
}

/// Where the first strictly greater hand stands, `insert_after` splits `t`
/// there.
proof fn lemma_insert_after_at(x: HandView, t: Seq<HandView>, mode: Mode, j: int)
    requires
        0 <= j <= t.len(),
        forall|k: int| 0 <= k < j ==> !(#[trigger] cmp_hands_spec(x.cards, t[k].cards, mode)
            is Less),
        j < t.len() ==> cmp_hands_spec(x.cards, t[j].cards, mode) is Less,
    ensures
        insert_after(x, t, mode) == t.subrange(0, j) + seq![x] + t.subrange(j, t.len() as int),
    decreases t.len(),
{
    if t.len() == 0 {
        assert(insert_after(x, t, mode) =~= t.subrange(0, j) + seq![x] + t.subrange(
            j,
            t.len() as int,
        ));
    } else if j == 0 {
        assert(insert_after(x, t, mode) =~= t.subrange(0, j) + seq![x] + t.subrange(
            j,
            t.len() as int,
        ));
    } else {
        let t2 = t.drop_first();
        assert(forall|k: int| 0 <= k < j - 1 ==> t2[k] == t[k + 1]);
        lemma_insert_after_at(x, t2, mode, j - 1);
        assert(seq![t[0]] + (t2.subrange(0, j - 1) + seq![x] + t2.subrange(j - 1, t2.len() as int))
            =~= t.subrange(0, j) + seq![x] + t.subrange(j, t.len() as int));
    }
}

/// The index before which `x` is placed: the first position of `t` holding a
/// strictly greater hand.
pub open spec fn first_greater(x: HandView, t: Seq<HandView>, mode: Mode) -> int
    decreases t.len(),
{
    if t.len() == 0 {
        0
    } else if cmp_hands_spec(x.cards, t[0].cards, mode) is Less {
        0
    } else {
        1 + first_greater(x, t.drop_first(), mode)
    }
}

proof fn lemma_first_greater(x: HandView, t: Seq<HandView>, mode: Mode)
    ensures
        0 <= first_greater(x, t, mode) <= t.len(),
        forall|k: int| 0 <= k < first_greater(x, t, mode) ==> !(#[trigger] cmp_hands_spec(
            x.cards,
            t[k].cards,
            mode,
        ) is Less),
        first_greater(x, t, mode) < t.len() ==> cmp_hands_spec(
            x.cards,
            t[first_greater(x, t, mode)].cards,
            mode,
        ) is Less,
    decreases t.len(),
{
    if t.len() > 0 && !(cmp_hands_spec(x.cards, t[0].cards, mode) is Less) {
        let t2 = t.drop_first();
        lemma_first_greater(x, t2, mode);
        let j = first_greater(x, t, mode);
        assert forall|k: int| 0 <= k < j implies !(#[trigger] cmp_hands_spec(
            x.cards,
            t[k].cards,
            mode,
        ) is Less) by {
            if k > 0 {
                assert(t[k] == t2[k - 1]);
            }
        }
        if j < t.len() {
            assert(t[j] == t2[j - 1]);
        }
    }
}

/// Inserting into a sorted batch keeps it sorted and well formed.
proof fn lemma_insert_after_sorted(x: HandView, t: Seq<HandView>, mode: Mode)
    requires
        x.wf(),
        all_wf(t),
        sorted_by(t, mode),
    ensures
        sorted_by(insert_after(x, t, mode), mode),
        all_wf(insert_after(x, t, mode)),
        insert_after(x, t, mode).len() == t.len() + 1,
{
    let j = first_greater(x, t, mode);
    lemma_first_greater(x, t, mode);
    lemma_insert_after_at(x, t, mode, j);
    let r = insert_after(x, t, mode);
    assert forall|p: int, q: int| 0 <= p < q < r.len() implies !(#[trigger] cmp_hands_spec(
        r[p].cards,
        r[q].cards,
        mode,
    ) is Greater) by {
        if p < j && q == j {
            // t[p] does not exceed x
            lemma_cmp_hands_antisym(x.cards, t[p].cards, mode);
        } else if p == j && q > j {
            // x is strictly below t[j] <= t[q-1]
            if q - 1 > j {
                lemma_cmp_hands_trans(x.cards, t[j].cards, t[q - 1].cards, mode);
            }
        } else if p < j && q > j {
            assert(!(cmp_hands_spec(t[p].cards, t[q - 1].cards, mode) is Greater));
        }
    }
}

/// The sort of a batch of well-formed hands is sorted and well formed.
pub proof fn lemma_sort_spec_sorted(s: Seq<HandView>, mode: Mode)
    requires
        all_wf(s),
    ensures
        sorted_by(sort_spec(s, mode), mode),
        all_wf(sort_spec(s, mode)),
        sort_spec(s, mode).len() == s.len(),
    decreases s.len(),
{
    if s.len() > 0 {
        assert(all_wf(s.drop_last()));
        lemma_sort_spec_sorted(s.drop_last(), mode);
        lemma_insert_after_sorted(s.last(), sort_spec(s.drop_last(), mode), mode);
    }
}

/// Sorting an already-sorted batch leaves it unchanged.
proof fn lemma_sorted_fixed(s: Seq<HandView>, mode: Mode)
    requires
        all_wf(s),
        sorted_by(s, mode),
    ensures
        sort_spec(s, mode) == s,
    decreases s.len(),
{
    if s.len() > 0 {
        let t = s.drop_last();
        assert(all_wf(t));
        assert(sorted_by(t, mode));
        lemma_sorted_fixed(t, mode);
        let x = s.last();
        assert forall|k: int| 0 <= k < t.len() implies !(#[trigger] cmp_hands_spec(
            x.cards,
            t[k].cards,
            mode,
        ) is Less) by {
            assert(!(cmp_hands_spec(t[k].cards, s[s.len() - 1].cards, mode) is Greater));
            lemma_cmp_hands_antisym(t[k].cards, x.cards, mode);
        }
        lemma_insert_after_at(x, t, mode, t.len() as int);
        assert(t.subrange(0, t.len() as int) + seq![x] + t.subrange(t.len() as int, t.len() as int)
            =~= s);
    }
}

/// Sorting is idempotent: sorting a batch a second time under the same mode
/// yields the same order.
pub proof fn lemma_sort_idempotent(s: Seq<HandView>, mode: Mode)
    requires
        all_wf(s),
    ensures
        sort_spec(sort_spec(s, mode), mode) == sort_spec(s, mode),
{
    lemma_sort_spec_sorted(s, mode);
    lemma_sorted_fixed(sort_spec(s, mode), mode);
}


/// Inserting adds exactly the new hand to the batch's contents.
proof fn lemma_insert_after_multiset(x: HandView, t: Seq<HandView>, mode: Mode)
    ensures
        insert_after(x, t, mode).to_multiset() == t.to_multiset().insert(x),
{
    broadcast use vstd::seq_lib::group_to_multiset_ensures;

    let j = first_greater(x, t, mode);
    lemma_first_greater(x, t, mode);
    lemma_insert_after_at(x, t, mode, j);
    let r = insert_after(x, t, mode);
    vstd::seq_lib::lemma_multiset_commutative(t.take(j) + seq![x], t.skip(j));
    vstd::seq_lib::lemma_multiset_commutative(t.take(j), seq![x]);
    vstd::seq_lib::lemma_multiset_commutative(t.take(j), t.skip(j));
    assert(t.take(j) + t.skip(j) =~= t);
    assert(seq![x] =~= Seq::<HandView>::empty().push(x));
    assert(Seq::<HandView>::empty().to_multiset() =~= Multiset::<HandView>::empty());
    assert(r.to_multiset() =~= t.to_multiset().insert(x));
}

/// Sorting permutes the batch: the same hands come out that went in.
pub proof fn lemma_sort_permutes(s: Seq<HandView>, mode: Mode)
    ensures
        sort_spec(s, mode).to_multiset() == s.to_multiset(),
    decreases s.len(),
{
    broadcast use vstd::seq_lib::group_to_multiset_ensures;

    if s.len() > 0 {
        lemma_sort_permutes(s.drop_last(), mode);
        lemma_insert_after_multiset(s.last(), sort_spec(s.drop_last(), mode), mode);
        assert(s.drop_last().push(s.last()) =~= s);
    }
}

/// The weighted sum of a batch in its current order: each hand's stake times
/// its 1-based position.
pub open spec fn winnings_spec(s: Seq<HandView>) -> int
    decreases s.len(),
{
    if s.len() == 0 {
        0
    } else {
        winnings_spec(s.drop_last()) + s.last().bid * s.len()
    }
}

proof fn lemma_winnings_nonneg(s: Seq<HandView>)
    ensures
        winnings_spec(s) >= 0,
    decreases s.len(),
{
    if s.len() > 0 {
        lemma_winnings_nonneg(s.drop_last());
    }
}

/// A prefix of a batch never wins more than the whole batch.
proof fn lemma_winnings_prefix(s: Seq<HandView>, i: int)
    requires
        0 <= i <= s.len(),
    ensures
        winnings_spec(s.take(i)) <= winnings_spec(s),
    decreases s.len() - i,
{
    if i < s.len() {
        lemma_winnings_prefix(s, i + 1);
        let t = s.take(i + 1);
        assert(t.drop_last() =~= s.take(i));
        lemma_winnings_nonneg(s.take(i));
        assert(winnings_spec(t) == winnings_spec(s.take(i)) + t.last().bid * t.len());
    } else {
        assert(s.take(i) =~= s);
    }
}

/// Insert `x` behind the hands of the sorted `v` that do not exceed it.
#[verifier::loop_isolation(false)]
fn insert_hand(v: &mut Vec<Hand>, x: Hand, mode: Mode)
    requires
        x.wf(),
        all_wf(hviews(old(v)@)),
    ensures
        hviews(final(v)@) == insert_after(x@, hviews(old(v)@), mode),
        all_wf(hviews(final(v)@)),
{
    let ghost t = hviews(old(v)@);
    let mut j: usize = 0;
    let mut found = false;
    while j < v.len() && !found
        invariant
            0 <= j <= v@.len(),
            v@ == old(v)@,
            found ==> j < v@.len() && cmp_hands_spec(x.cards@, t[j as int].cards, mode) is Less,
            forall|k: int| 0 <= k < j ==> !(#[trigger] cmp_hands_spec(x.cards@, t[k].cards, mode)
                is Less),
        decreases v@.len() - j + (if found {
            0int
        } else {
            1int
        }),
    {
        let o = cmp_hands(&x, &v[j], mode);
        match o {
            core::cmp::Ordering::Less => {
                found = true;
            },
            _ => {
                j = j + 1;
            },
        }
    }
    proof {
        lemma_insert_after_at(x@, t, mode, j as int);
    }
    let ghost xv = x@;
    v.insert(j, x);
    proof {
        let r = t.subrange(0, j as int) + seq![xv] + t.subrange(j as int, t.len() as int);
        assert forall|k: int| 0 <= k < v@.len() implies hviews(v@)[k] == r[k] by {
            assert(hviews(v@)[k] == v@[k]@);
            if k < j {
                assert(v@[k] == old(v)@[k]);
                assert(t[k] == old(v)@[k]@);
            } else if k > j {
                assert(v@[k] == old(v)@[k - 1]);
                assert(t[k - 1] == old(v)@[k - 1]@);
            }
        }
        assert(hviews(v@) =~= r);
    }
}

/// Stable-sort the batch ascending under the given mode.
#[verifier::loop_isolation(false)]
pub fn sort_hands(v: &mut Vec<Hand>, mode: Mode)
    requires
        all_wf(hviews(old(v)@)),
    ensures
        hviews(final(v)@) == sort_spec(hviews(old(v)@), mode),
        all_wf(hviews(final(v)@)),
{
    let ghost s = hviews(old(v)@);
    proof {
        assert(s.skip(0) =~= s);
    }
    let mut out: Vec<Hand> = Vec::new();
    let ghost mut i: int = 0;
    while v.len() > 0
        invariant
            0 <= i <= s.len(),
            v@.len() == s.len() - i,
            hviews(v@) == s.skip(i),
            hviews(out@) == sort_spec(s.take(i), mode),
            all_wf(hviews(out@)),
            all_wf(hviews(v@)),
        decreases v@.len(),
    {
        let ghost vpre = v@;
        let x = v.remove(0);
        proof {
            assert(hviews(vpre)[0] == vpre[0]@);
            assert(s.skip(i)[0] == s[i]);
            assert(x@ == s[i]);
            assert forall|k: int| 0 <= k < v@.len() implies hviews(v@)[k] == s.skip(i + 1)[k] by {
                assert(v@[k] == vpre[k + 1]);
                assert(hviews(vpre)[k + 1] == vpre[k + 1]@);
                assert(s.skip(i)[k + 1] == s[i + 1 + k]);
            }
            assert(hviews(v@) =~= s.skip(i + 1));
            assert(s.take(i + 1).drop_last() =~= s.take(i));
            assert(s.take(i + 1).last() == s[i]);
        }
        insert_hand(&mut out, x, mode);
        proof {
            i = i + 1;
        }
    }
    proof {
        assert(s.take(s.len() as int) =~= s);
    }
    *v = out;
}

/// Sort the batch ascending and return the sum over all hands of stake times
/// 1-based rank.  The caller keeps the weighted sum within `u32`; machine
/// limits force that bound, nothing else does.
#[verifier::loop_isolation(false)]
pub fn total_winnings(hands: &mut Vec<Hand>, mode: Mode) -> (r: u32)
    requires
        all_wf(hviews(old(hands)@)),
        winnings_spec(sort_spec(hviews(old(hands)@), mode)) <= u32::MAX,
    ensures
        hviews(final(hands)@) == sort_spec(hviews(old(hands)@), mode),
        sorted_by(hviews(final(hands)@), mode),
        hviews(final(hands)@).to_multiset() == hviews(old(hands)@).to_multiset(),
        r == winnings_spec(hviews(final(hands)@)),
{
    proof {
        lemma_sort_spec_sorted(hviews(hands@), mode);
        lemma_sort_permutes(hviews(hands@), mode);
    }
    sort_hands(hands, mode);
    let ghost s = hviews(hands@);
    let mut sum: u64 = 0;
    let mut i: usize = 0;
    while i < hands.len()
        invariant
            0 <= i <= hands@.len(),
            s == hviews(hands@),
            s.len() == hands@.len(),
            sum == winnings_spec(s.take(i as int)),
            sum <= u32::MAX,
        decreases hands@.len() - i,
    {
        proof {
            lemma_winnings_prefix(s, i + 1);
            lemma_winnings_nonneg(s.take(i as int));
            assert(s.take(i + 1).drop_last() =~= s.take(i as int));
            assert(s.take(i + 1).last() == s[i as int]);
        }
        let term: u64 = (hands[i].bid as u64) * ((i as u64) + 1);
        assert(term == s[i as int].bid * (i + 1));
        sum = sum + term;
        i = i + 1;
    }
    proof {
        assert(s.take(s.len() as int) =~= s);
    }
    sum as u32
}

/// Which card a symbol character denotes, if any.
pub open spec fn symbol_of(c: char) -> Option<Card> {
    if c == '2' {
        Some(Card::Two)
    } else if c == '3' {
        Some(Card::Three)
    } else if c == '4' {
        Some(Card::Four)
    } else if c == '5' {
        Some(Card::Five)
    } else if c == '6' {
        Some(Card::Six)
    } else if c == '7' {
        Some(Card::Seven)
    } else if c == '8' {
        Some(Card::Eight)
    } else if c == '9' {
        Some(Card::Nine)
    } else if c == 'T' {
        Some(Card::T)
    } else if c == 'J' {
        Some(Card::J)
    } else if c == 'Q' {
        Some(Card::Q)
    } else if c == 'K' {
        Some(Card::K)
    } else if c == 'A' {
        Some(Card::A)
    } else {
        None
    }
}

/// Every character of `s` is a card symbol.
pub open spec fn all_symbols(s: Seq<char>) -> bool {
    forall|i: int| 0 <= i < s.len() ==> (#[trigger] symbol_of(s[i])) is Some
}

/// The cards denoted by a run of symbol characters.
pub open spec fn cards_of(s: Seq<char>) -> Seq<Card> {
    Seq::new(
        s.len(),
        |i: int|
            match symbol_of(s[i]) {
                Some(c) => c,
                None => Card::Two,
            },
    )
}

/// Why a line fails to parse, if it does: the line must hold a separator,
/// then only card symbols before it, exactly five of them, and an unsigned
/// decimal stake that fits in `u32` after it.
pub open spec fn hand_err(s: Seq<char>) -> Option<ParseError> {
    match find_first(s, ' ') {
        None => Some(ParseError::MissingSeparator),
        Some(k) => {
            let cs = s.take(k);
            let bs = s.skip(k + 1);
            if !all_symbols(cs) {
                Some(ParseError::InvalidSymbol)
            } else if cs.len() != 5 {
                Some(ParseError::WrongLength)
            } else if !(is_numeral(bs) && num_val(bs) <= u32::MAX) {
                Some(ParseError::InvalidInteger)
            } else {
                None
            }
        },
    }
}

/// The hand a well-formed line denotes.
pub open spec fn hand_view_of(s: Seq<char>) -> HandView {
    match find_first(s, ' ') {
        Some(k) => HandView { cards: cards_of(s.take(k)), bid: num_val(s.skip(k + 1)) as u32 },
        None => HandView { cards: Seq::empty(), bid: 0 },
    }
}

/// The card a symbol character denotes, as a value.
fn card_of_char(c: char) -> (r: Option<Card>)
    ensures
        r == symbol_of(c),
{
    match c {
        '2' => Some(Card::Two),
        '3' => Some(Card::Three),
        '4' => Some(Card::Four),
        '5' => Some(Card::Five),
        '6' => Some(Card::Six),
        '7' => Some(Card::Seven),
        '8' => Some(Card::Eight),
        '9' => Some(Card::Nine),
        'T' => Some(Card::T),
        'J' => Some(Card::J),
        'Q' => Some(Card::Q),
        'K' => Some(Card::K),
        'A' => Some(Card::A),
        _ => None,
    }
}

/// Parse one line into a hand, or say exactly why it is malformed.
#[verifier::loop_isolation(false)]
pub fn parse_hand(line: &str) -> (r: Result<Hand, ParseError>)
    ensures
        match r {
            Ok(h) => hand_err(line@) is None && h@ == hand_view_of(line@) && h.wf(),
            Err(e) => hand_err(line@) == Some(e),
        },
{
    let v = chars_of(line);
    let sep = find_char(&v, 0, ' ');
    match sep {
        None => {
            proof {
                crate::parse::lemma_find_first_none(v@, ' ');
            }
            Err(ParseError::MissingSeparator)
        },
        Some(k) => {
            proof {
                crate::parse::lemma_find_first_at(v@, ' ', k as int);
            }
            let ghost cs = v@.take(k as int);
            let ghost bs = v@.skip(k + 1);
            let mut cards: Vec<Card> = Vec::new();
            let mut i: usize = 0;
            while i < k
                invariant
                    0 <= i <= k,
                    cards@.len() == i,
                    forall|j: int| 0 <= j < i ==> (#[trigger] symbol_of(cs[j])) is Some
                        && cards@[j] == cards_of(cs)[j],
                decreases k - i,
            {
                match card_of_char(v[i]) {
                    Some(c) => {
                        cards.push(c);
                    },
                    None => {
                        assert(symbol_of(cs[i as int]) is None);
                        return Err(ParseError::InvalidSymbol);
                    },
                }
                i = i + 1;
            }
            assert(all_symbols(cs));
            assert(cards@ =~= cards_of(cs));
            if cards.len() != 5 {
                return Err(ParseError::WrongLength);
            }
            let bid_digits = copy_range(&v, k + 1, v.len());
            assert(bid_digits@ =~= bs);
            match parse_u32(&bid_digits) {
                Some(b) => {
                    proof {
                        crate::parse::lemma_num_val_nonneg(bs);
                    }
                    Ok(Hand { cards, bid: b })
                },
                None => Err(ParseError::InvalidInteger),
            }
        },
    }
}

/// Every line of the batch is a well-formed hand line.
pub open spec fn all_lines_ok(ls: Seq<String>) -> bool {
    forall|i: int| 0 <= i < ls.len() ==> (#[trigger] hand_err(ls[i]@)) is None
}

/// The hands the batch denotes, line by line.
pub open spec fn parsed_views(ls: Seq<String>) -> Seq<HandView> {
    Seq::new(ls.len(), |i: int| hand_view_of(ls[i]@))
}

/// The batch fails fast with `e`: some line is malformed with reason `e`,
/// and every line before it is well formed.
pub open spec fn fails_first_with(ls: Seq<String>, e: ParseError) -> bool {
    exists|i: int|
        0 <= i < ls.len() && #[trigger] hand_err(ls[i]@) == Some(e) && (forall|j: int|
            0 <= j < i ==> (#[trigger] hand_err(ls[j]@)) is None)
}

/// Parse a whole batch, aborting on the first malformed line.
#[verifier::loop_isolation(false)]
pub fn parse_hands(lines: &Vec<String>) -> (r: Result<Vec<Hand>, ParseError>)
    ensures
        match r {
            Ok(hs) => all_lines_ok(lines@) && hviews(hs@) == parsed_views(lines@) && all_wf(
                hviews(hs@),
            ),
            Err(e) => fails_first_with(lines@, e),
        },
{
    let mut hands: Vec<Hand> = Vec::new();
    let mut i: usize = 0;
    while i < lines.len()
        invariant
            0 <= i <= lines@.len(),
            hands@.len() == i,
            forall|j: int| 0 <= j < i ==> (#[trigger] hand_err(lines@[j]@)) is None,
            forall|j: int| 0 <= j < i ==> #[trigger] hviews(hands@)[j] == parsed_views(lines@)[j],
            all_wf(hviews(hands@)),
        decreases lines@.len() - i,
    {
        match parse_hand(lines[i].as_str()) {
            Ok(h) => {
                let ghost pre = hands@;
                hands.push(h);
                proof {
                    assert forall|j: int| 0 <= j < i + 1 implies #[trigger] hviews(hands@)[j]
                        == parsed_views(lines@)[j] by {
                        if j < i {
                            assert(hands@[j] == pre[j]);
                            assert(hviews(pre)[j] == pre[j]@);
                        }
                    }
                    assert forall|j: int| 0 <= j < hviews(hands@).len() implies (#[trigger] hviews(
                        hands@,
                    )[j]).wf() by {
                        if j < i {
                            assert(hviews(pre)[j].wf());
                            assert(hands@[j] == pre[j]);
                            assert(hviews(pre)[j] == pre[j]@);
                            assert(hviews(hands@)[j] == hands@[j]@);
                        } else {
                            assert(hviews(hands@)[j] == h@);
                        }
                    }
                }
            },
            Err(e) => {
                return Err(e);
            },
        }
        i = i + 1;
    }
    proof {
        assert(hviews(hands@) =~= parsed_views(lines@));
    }
    Ok(hands)
}

/// The weighted sums that part 1 and part 2 ask for fit in `u32`; machine
/// limits force this bound on the caller, nothing else does.
pub open spec fn winnings_fit(ls: Seq<String>, mode: Mode) -> bool {
    all_lines_ok(ls) ==> winnings_spec(sort_spec(parsed_views(ls), mode)) <= u32::MAX
}

/// Parse the batch and return its total winnings under the given mode, or
/// the first line's parse error.
pub fn run_mode(lines: &Vec<String>, mode: Mode) -> (r: Result<u32, ParseError>)
    requires
        winnings_fit(lines@, mode),
    ensures
        match r {
            Ok(w) => all_lines_ok(lines@) && w == winnings_spec(
                sort_spec(parsed_views(lines@), mode),
            ),
            Err(e) => fails_first_with(lines@, e),
        },
{
    match parse_hands(lines) {
        Ok(mut hands) => Ok(total_winnings(&mut hands, mode)),
        Err(e) => Err(e),
    }
}

/// Evaluate the batch: part 1 uses the standard rules, part 2 the wildcard
/// rules, and any other part is 0.  The first malformed line aborts the
/// whole evaluation.
pub fn challenge(part: u32, lines: &Vec<String>) -> (r: Result<u32, ParseError>)
    requires
        part == 1 ==> winnings_fit(lines@, Mode::Standard),
        part == 2 ==> winnings_fit(lines@, Mode::Wildcard),
    ensures
        match r {
            Ok(w) => if part == 1 {
                all_lines_ok(lines@) && w == winnings_spec(
                    sort_spec(parsed_views(lines@), Mode::Standard),
                )
            } else if part == 2 {
                all_lines_ok(lines@) && w == winnings_spec(
                    sort_spec(parsed_views(lines@), Mode::Wildcard),
                )
            } else {
                w == 0
            },
            Err(e) => (part == 1 || part == 2) && fails_first_with(lines@, e),
        },
{
    if part == 1 {
        run_mode(lines, Mode::Standard)
    } else if part == 2 {
        run_mode(lines, Mode::Wildcard)
    } else {
        Ok(0)
    }
}

} // verus!
