//! Scratchcards: each card lists winning numbers and played numbers; the
//! match count scores part 1 exponentially, and in part 2 each card wins
//! copies of the following cards.

use vstd::prelude::*;

use crate::Error;
use crate::parse::{all_numerals_u32, chars_of, copy_range, find_char, find_first, nonempty_of, nonempty_tokens, num_val, parse_u32_all, split_chars, split_spec, trim_chars, trim_spec};

verus! {

/// One scratchcard: its winning numbers and its played numbers.
#[derive(Debug, Clone)]
pub struct Card {
    pub winning_numbers: Vec<u32>,
    pub playing_numbers: Vec<u32>,
}

/// The winning-number pieces of a card line: between the first `:` and the
/// first `|` after it, trimmed and split on blanks.
pub open spec fn win_toks(s: Seq<char>) -> Seq<Seq<char>> {
    match find_first(s, ':') {
        Some(k) => {
            let rest = s.skip(k + 1);
            match find_first(rest, '|') {
                Some(m) => nonempty_tokens(split_spec(trim_spec(rest.take(m)), ' ')),
                None => Seq::empty(),
            }
        },
        None => Seq::empty(),
    }
}

/// The played-number pieces of a card line: after the first `|`.
pub open spec fn play_toks(s: Seq<char>) -> Seq<Seq<char>> {
    match find_first(s, ':') {
        Some(k) => {
            let rest = s.skip(k + 1);
            match find_first(rest, '|') {
                Some(m) => nonempty_tokens(split_spec(trim_spec(rest.skip(m + 1)), ' ')),
                None => Seq::empty(),
            }
        },
        None => Seq::empty(),
    }
}

/// The line has the `Card n: w.. | p..` shape with numeric pieces.
pub open spec fn card_ok(s: Seq<char>) -> bool {
    &&& find_first(s, ':') is Some
    &&& find_first(s.skip(find_first(s, ':')->0 + 1), '|') is Some
    &&& all_numerals_u32(win_toks(s))
    &&& all_numerals_u32(play_toks(s))
}

pub open spec fn win_vals(s: Seq<char>) -> Seq<int> {
    Seq::new(win_toks(s).len(), |i: int| num_val(win_toks(s)[i]))
}

pub open spec fn play_vals(s: Seq<char>) -> Seq<int> {
    Seq::new(play_toks(s).len(), |i: int| num_val(play_toks(s)[i]))
}

/// How many played numbers occur among the winning numbers, each played
/// occurrence counted.
pub open spec fn count_matches(win: Seq<int>, play: Seq<int>) -> int
    decreases play.len(),
{
    if play.len() == 0 {
        0
    } else {
        count_matches(win, play.drop_last()) + (if win.contains(play.last()) {
            1int
        } else {
            0int
        })
    }
}

/// The match count of a card line.
pub open spec fn wc_of(s: Seq<char>) -> int {
    count_matches(win_vals(s), play_vals(s))
}

proof fn lemma_count_matches_bound(win: Seq<int>, play: Seq<int>)
    ensures
        0 <= count_matches(win, play) <= play.len(),
    decreases play.len(),
{
    if play.len() > 0 {
        lemma_count_matches_bound(win, play.drop_last());
    }
}

/// Parse one card line.
pub fn parse_card(line: &str) -> (r: Result<Card, Error>)
    ensures
        match r {
            Ok(c) => card_ok(line@) && c.winning_numbers@.map_values(|x: u32| x as int) == win_vals(
                line@,
            ) && c.playing_numbers@.map_values(|x: u32| x as int) == play_vals(line@),
            Err(_) => !card_ok(line@),
        },
{
    let v = chars_of(line);
    let k = match find_char(&v, 0, ':') {
        Some(k) => k,
        None => {
            proof {
                crate::parse::lemma_find_first_none(v@, ':');
            }
            return Err(Error::InvalidInput(String::from_str("missing ':' in card input")));
        },
    };
    proof {
        crate::parse::lemma_find_first_at(v@, ':', k as int);
    }
    let n = v.len();
    let rest = copy_range(&v, k + 1, n);
    proof {
        assert(rest@ =~= v@.skip(k + 1));
    }
    let m = match find_char(&rest, 0, '|') {
        Some(m) => m,
        None => {
            proof {
                crate::parse::lemma_find_first_none(rest@, '|');
            }
            return Err(Error::InvalidInput(String::from_str("missing '|' in card input")));
        },
    };
    proof {
        crate::parse::lemma_find_first_at(rest@, '|', m as int);
    }
    let rn = rest.len();
    let win_part = copy_range(&rest, 0, m);
    let play_part = copy_range(&rest, m + 1, rn);
    proof {
        assert(win_part@ =~= rest@.take(m as int));
        assert(play_part@ =~= rest@.skip(m + 1));
    }
    let win_trimmed = trim_chars(&win_part);
    let play_trimmed = trim_chars(&play_part);
    let win_pieces = nonempty_of(split_chars(&win_trimmed, ' '));
    let play_pieces = nonempty_of(split_chars(&play_trimmed, ' '));
    let winning_numbers = match parse_u32_all(&win_pieces) {
        Some(ns) => ns,
        None => {
            return Err(Error::InvalidInput(String::from_str("failed to parse winning numbers")));
        },
    };
    let playing_numbers = match parse_u32_all(&play_pieces) {
        Some(ns) => ns,
        None => {
            return Err(Error::InvalidInput(String::from_str("failed to parse playing numbers")));
        },
    };
    proof {
        assert(winning_numbers@.map_values(|x: u32| x as int) =~= win_vals(line@));
        assert(playing_numbers@.map_values(|x: u32| x as int) =~= play_vals(line@));
    }
    Ok(Card { winning_numbers, playing_numbers })
}

impl Card {
    /// How many played numbers are winning numbers.
    #[verifier::loop_isolation(false)]
    pub fn winning_count(&self) -> (r: u32)
        requires
            self.playing_numbers@.len() <= u32::MAX,
        ensures
            r == count_matches(
                self.winning_numbers@.map_values(|x: u32| x as int),
                self.playing_numbers@.map_values(|x: u32| x as int),
            ),
    {
        let ghost win = self.winning_numbers@.map_values(|x: u32| x as int);
        let ghost play = self.playing_numbers@.map_values(|x: u32| x as int);
        let mut count: u32 = 0;
        let mut i: usize = 0;
        proof {
            lemma_count_matches_bound(win, play);
        }
        while i < self.playing_numbers.len()
            invariant
                0 <= i <= play.len(),
                count == count_matches(win, play.take(i as int)),
                count <= i,
            decreases play.len() - i,
        {
            proof {
                assert(play.take(i + 1).drop_last() =~= play.take(i as int));
                assert(play.take(i + 1).last() == play[i as int]);
                lemma_count_matches_bound(win, play.take(i as int));
            }
            let x = self.playing_numbers[i];
            let mut j: usize = 0;
            let mut found = false;
            while j < self.winning_numbers.len()
                invariant
                    0 <= j <= win.len(),
                    found ==> win.contains(x as int),
                    !found ==> forall|t: int| 0 <= t < j ==> win[t] != x as int,
                decreases win.len() - j + (if found {
                    0int
                } else {
                    1int
                }),
            {
                if found {
                    break ;
                }
                if self.winning_numbers[j] == x {
                    found = true;
                    assert(win[j as int] == x as int);
                } else {
                    j = j + 1;
                }
            }
            if found {
                count = count + 1;
            } else {
                assert(!win.contains(x as int));
            }
            i = i + 1;
        }
        proof {
            assert(play.take(play.len() as int) =~= play);
        }
        count
    }
}

/// Two to the power `n`.
pub open spec fn pow2(n: nat) -> int
    decreases n,
{
    if n == 0 {
        1
    } else {
        2 * pow2((n - 1) as nat)
    }
}

proof fn lemma_pow2_mono(a: nat, b: nat)
    requires
        a <= b,
    ensures
        0 < pow2(a) <= pow2(b),
    decreases b,
{
    if a == b {
        if b > 0 {
            lemma_pow2_mono((b - 1) as nat, (b - 1) as nat);
        }
    } else {
        lemma_pow2_mono(a, (b - 1) as nat);
    }
}

/// The score of one card: nothing without a match, else doubling from one.
pub open spec fn card_score(wc: int) -> int {
    if wc <= 0 {
        0
    } else {
        pow2((wc - 1) as nat)
    }
}

/// The score of a card's match count, as a value.
#[verifier::loop_isolation(false)]
fn score_of(wc: u32) -> (r: u32)
    requires
        wc <= 31,
    ensures
        r == card_score(wc as int),
{
    if wc == 0 {
        return 0;
    }
    proof {
        assert(pow2(31) == 0x8000_0000) by {
            reveal_with_fuel(pow2, 32);
        }
    }
    let mut r: u32 = 1;
    let mut k: u32 = 0;
    while k < wc - 1
        invariant
            0 <= k <= wc - 1 <= 30,
            r == pow2(k as nat),
        decreases wc - k,
    {
        proof {
            lemma_pow2_mono((k + 1) as nat, 31);
        }
        r = r * 2;
        k = k + 1;
    }
    r
}

/// Every line is a card.
pub open spec fn cards_ok(ls: Seq<String>) -> bool {
    forall|i: int| 0 <= i < ls.len() ==> card_ok(#[trigger] ls[i]@)
}

/// Parse every line, aborting on the first malformed card.
#[verifier::loop_isolation(false)]
fn parse_cards(lines: &Vec<String>) -> (r: Result<Vec<Card>, Error>)
    ensures
        match r {
            Ok(cs) => cards_ok(lines@) && cs@.len() == lines@.len() && forall|i: int|
                0 <= i < cs@.len() ==> (#[trigger] cs@[i]).winning_numbers@.map_values(
                    |x: u32| x as int,
                ) == win_vals(lines@[i]@) && cs@[i].playing_numbers@.map_values(|x: u32| x as int)
                    == play_vals(lines@[i]@),
            Err(_) => !cards_ok(lines@),
        },
{
    let mut cs: Vec<Card> = Vec::new();
    let mut i: usize = 0;
    while i < lines.len()
        invariant
            0 <= i <= lines@.len(),
            cs@.len() == i,
            forall|k: int| 0 <= k < i ==> card_ok(#[trigger] lines@[k]@),
            forall|k: int|
                0 <= k < i ==> (#[trigger] cs@[k]).winning_numbers@.map_values(|x: u32| x as int)
                    == win_vals(lines@[k]@) && cs@[k].playing_numbers@.map_values(|x: u32| x as int)
                    == play_vals(lines@[k]@),
        decreases lines@.len() - i,
    {
        match parse_card(lines[i].as_str()) {
            Ok(c) => {
                let ghost pre = cs@;
                cs.push(c);
                proof {
                    assert(forall|k: int| 0 <= k < i ==> cs@[k] == pre[k]);
                }
            },
            Err(e) => {
                return Err(e);
            },
        }
        i = i + 1;
    }
    Ok(cs)
}

/// The summed score of the first `n` cards.
pub open spec fn score_sum(ls: Seq<String>, n: int) -> int
    decreases n,
{
    if n <= 0 {
        0
    } else {
        score_sum(ls, n - 1) + card_score(wc_of(ls[n - 1]@))
    }
}

/// The machine bounds part 1 needs: match counts stay below 32 so the score
/// fits, play lists fit `u32`, and every partial score sum fits `u32`.
pub open spec fn part1_fits(ls: Seq<String>) -> bool {
    cards_ok(ls) ==> {
        &&& forall|i: int| 0 <= i < ls.len() ==> wc_of(#[trigger] ls[i]@) <= 31
        &&& forall|i: int| 0 <= i < ls.len() ==> play_toks(#[trigger] ls[i]@).len() <= u32::MAX
        &&& forall|n: int| 0 <= n <= ls.len() ==> score_sum(ls, n) <= u32::MAX
    }
}

proof fn lemma_score_sum_nonneg(ls: Seq<String>, n: int)
    ensures
        score_sum(ls, n) >= 0,
    decreases n,
{
    if n > 0 {
        lemma_score_sum_nonneg(ls, n - 1);
        if wc_of(ls[n - 1]@) > 0 {
            lemma_pow2_mono(0, (wc_of(ls[n - 1]@) - 1) as nat);
        }
    }
}

/// Sum the scores of all cards.
#[verifier::loop_isolation(false)]
fn sum_winning_cards(lines: &Vec<String>) -> (r: Result<u32, Error>)
    requires
        part1_fits(lines@),
    ensures
        match r {
            Ok(w) => cards_ok(lines@) && w == score_sum(lines@, lines@.len() as int),
            Err(_) => !cards_ok(lines@),
        },
{
    let cards = match parse_cards(lines) {
        Ok(cs) => cs,
        Err(e) => {
            return Err(e);
        },
    };
    let mut sum: u32 = 0;
    let mut i: usize = 0;
    while i < cards.len()
        invariant
            0 <= i <= cards@.len(),
            sum == score_sum(lines@, i as int),
        decreases cards@.len() - i,
    {
        let card = &cards[i];
        proof {
            assert(card.playing_numbers@.map_values(|x: u32| x as int).len() == play_vals(
                lines@[i as int]@,
            ).len());
        }
        let wc = card.winning_count();
        proof {
            assert(wc == wc_of(lines@[i as int]@));
            lemma_count_matches_bound(win_vals(lines@[i as int]@), play_vals(lines@[i as int]@));
            lemma_score_sum_nonneg(lines@, i as int);
            assert(score_sum(lines@, i + 1) <= u32::MAX);
        }
        let s = score_of(wc);
        sum = sum + s;
        i = i + 1;
    }
    Ok(sum)
}

/// No copies of any card yet.
pub open spec fn zero_counts(n: int) -> Seq<int> {
    Seq::new(n as nat, |k: int| 0int)
}

/// Add `amt` to the counts with indices in `[from, to)`.
pub open spec fn add_range(c: Seq<int>, from: int, to: int, amt: int) -> Seq<int> {
    Seq::new(c.len(), |k: int| if from <= k < to {
        c[k] + amt
    } else {
        c[k]
    })
}

/// The copy counts after the first `i` cards were processed: card `j` is
/// counted once itself, and each of its copies adds one copy of the next
/// `wc(j)` cards.
pub open spec fn counts_after(ls: Seq<String>, i: int) -> Seq<int>
    decreases i,
{
    if i <= 0 {
        zero_counts(ls.len() as int)
    } else {
        let c = counts_after(ls, i - 1);
        let cnt = c[i - 1] + 1;
        add_range(c.update(i - 1, cnt), i, i + wc_of(ls[i - 1]@), cnt)
    }
}

/// The sum of all counts.
pub open spec fn seq_sum(c: Seq<int>) -> int
    decreases c.len(),
{
    if c.len() == 0 {
        0
    } else {
        seq_sum(c.drop_last()) + c.last()
    }
}

proof fn lemma_counts_nonneg(ls: Seq<String>, i: int)
    requires
        0 <= i <= ls.len(),
    ensures
        counts_after(ls, i).len() == ls.len(),
        forall|k: int|
            0 <= k < counts_after(ls, i).len() ==> #[trigger] counts_after(ls, i)[k] >= 0,
    decreases i,
{
    if i > 0 {
        lemma_counts_nonneg(ls, i - 1);
        let c = counts_after(ls, i - 1);
        let cnt = c[i - 1] + 1;
        let u = c.update(i - 1, cnt);
        assert forall|k: int|
            0 <= k < counts_after(ls, i).len() implies #[trigger] counts_after(ls, i)[k]
            >= 0 by {
            assert(c.len() == ls.len());
            assert(c[i - 1] >= 0);
            assert(counts_after(ls, i)[k] == if i <= k < i + wc_of(ls[i - 1]@) {
                u[k] + cnt
            } else {
                u[k]
            });
            if k == i - 1 {
                assert(u[k] == cnt);
            } else {
                assert(u[k] == c[k]);
                assert(c[k] >= 0);
            }
        }
    }
}

proof fn lemma_seq_sum_nonneg(c: Seq<int>)
    requires
        forall|k: int| 0 <= k < c.len() ==> #[trigger] c[k] >= 0,
    ensures
        seq_sum(c) >= 0,
    decreases c.len(),
{
    if c.len() > 0 {
        lemma_seq_sum_nonneg(c.drop_last());
    }
}

proof fn lemma_seq_sum_prefix(c: Seq<int>, i: int)
    requires
        0 <= i <= c.len(),
        forall|k: int| 0 <= k < c.len() ==> #[trigger] c[k] >= 0,
    ensures
        0 <= seq_sum(c.take(i)) <= seq_sum(c),
    decreases c.len() - i,
{
    assert(forall|k: int| 0 <= k < c.take(i).len() ==> #[trigger] c.take(i)[k] >= 0);
    lemma_seq_sum_nonneg(c.take(i));
    if i < c.len() {
        lemma_seq_sum_prefix(c, i + 1);
        assert(c.take(i + 1).drop_last() =~= c.take(i));
        assert(c.take(i + 1).last() == c[i]);
    } else {
        assert(c.take(i) =~= c);
    }
}

/// The machine bounds part 2 needs: copy counts and the total stay within
/// `u32`, and play lists fit `u32`.
pub open spec fn part2_fits(ls: Seq<String>) -> bool {
    cards_ok(ls) ==> {
        &&& forall|i: int, k: int|
            0 <= i <= ls.len() && 0 <= k < ls.len() ==> #[trigger] counts_after(ls, i)[k]
                < u32::MAX
        &&& forall|i: int| 0 <= i < ls.len() ==> play_toks(#[trigger] ls[i]@).len() <= u32::MAX
        &&& seq_sum(counts_after(ls, ls.len() as int)) <= u32::MAX
    }
}

/// Count how many cards, originals and copies, the batch ends with.
#[verifier::loop_isolation(false)]
fn count_winning_cards(lines: &Vec<String>) -> (r: Result<u32, Error>)
    requires
        part2_fits(lines@),
    ensures
        match r {
            Ok(w) => cards_ok(lines@) && w == seq_sum(
                counts_after(lines@, lines@.len() as int),
            ),
            Err(_) => !cards_ok(lines@),
        },
{
    let cards = match parse_cards(lines) {
        Ok(cs) => cs,
        Err(e) => {
            return Err(e);
        },
    };
    let n = lines.len();
    let mut counts: Vec<u32> = Vec::new();
    let mut k: usize = 0;
    while k < n
        invariant
            counts@.len() == k <= n,
            forall|t: int| 0 <= t < k ==> #[trigger] counts@[t] == 0,
        decreases n - k,
    {
        counts.push(0);
        k = k + 1;
    }
    proof {
        assert(counts@.map_values(|x: u32| x as int) =~= zero_counts(lines@.len() as int));
    }
    let mut i: usize = 0;
    while i < n
        invariant
            0 <= i <= n == lines@.len(),
            cards@.len() == n,
            counts@.len() == n,
            counts@.map_values(|x: u32| x as int) == counts_after(lines@, i as int),
        decreases n - i,
    {
        let card = &cards[i];
        proof {
            assert(card.playing_numbers@.map_values(|x: u32| x as int).len() == play_vals(
                lines@[i as int]@,
            ).len());
        }
        let wc = card.winning_count();
        proof {
            assert(wc == wc_of(lines@[i as int]@));
            lemma_counts_nonneg(lines@, i as int);
            assert(counts_after(lines@, i as int)[i as int] < u32::MAX);
        }
        let ghost base = counts_after(lines@, i as int).update(
            i as int,
            counts_after(lines@, i as int)[i as int] + 1,
        );
        let cnt = counts[i] + 1;
        counts.set(i, cnt);
        proof {
            assert(counts@.map_values(|x: u32| x as int) =~= base);
            assert(counts@.map_values(|x: u32| x as int) =~= add_range(base, i + 1, i + 1, cnt as int));
        }
        let mut off: u64 = 1;
        while off <= wc as u64
            invariant
                1 <= off <= wc + 1,
                counts@.len() == n == lines@.len(),
                cnt as int == base[i as int],
                i < n,
                wc == wc_of(lines@[i as int]@),
                counts@.map_values(|x: u32| x as int) == add_range(
                    base,
                    i + 1,
                    i + off,
                    cnt as int,
                ),
            decreases wc - off + 1,
        {
            let idx: u128 = (i as u128) + (off as u128);
            let ghost pre = counts@.map_values(|x: u32| x as int);
            if idx < (n as u128) {
                let ui = idx as usize;
                proof {
                    lemma_counts_nonneg(lines@, i + 1);
                    assert(counts_after(lines@, i + 1) == add_range(
                        base,
                        i + 1,
                        i + 1 + wc_of(lines@[i as int]@),
                        cnt as int,
                    ));
                    assert(counts_after(lines@, i + 1)[idx as int] < u32::MAX);
                    assert(counts_after(lines@, i + 1)[idx as int] == base[idx as int] + cnt);
                    assert(pre[idx as int] == base[idx as int]);
                }
                let cur = counts[ui];
                counts.set(ui, cur + cnt);
                proof {
                    let ghost post = counts@.map_values(|x: u32| x as int);
                    assert forall|t: int| 0 <= t < n implies post[t] == #[trigger] add_range(
                        base,
                        i + 1,
                        i + off + 1,
                        cnt as int,
                    )[t] by {
                        if t != idx as int {
                            assert(post[t] == pre[t]);
                        }
                    }
                    assert(counts@.map_values(|x: u32| x as int) =~= add_range(
                        base,
                        i + 1,
                        i + off + 1,
                        cnt as int,
                    ));
                }
            } else {
                proof {
                    assert(counts@.map_values(|x: u32| x as int) =~= add_range(
                        base,
                        i + 1,
                        i + off + 1,
                        cnt as int,
                    ));
                }
            }
            off = off + 1;
        }
        proof {
            assert(add_range(base, i + 1, i + wc + 1, cnt as int) == counts_after(lines@, i + 1));
        }
        i = i + 1;
    }
    let ghost fin = counts_after(lines@, lines@.len() as int);
    let mut sum: u32 = 0;
    let mut t: usize = 0;
    proof {
        lemma_counts_nonneg(lines@, lines@.len() as int);
    }
    while t < n
        invariant
            0 <= t <= n,
            counts@.len() == n == fin.len(),
            counts@.map_values(|x: u32| x as int) == fin,
            sum == seq_sum(fin.take(t as int)),
        decreases n - t,
    {
        proof {
            lemma_seq_sum_prefix(fin, t + 1);
            lemma_seq_sum_prefix(fin, t as int);
            assert(fin.take(t + 1).drop_last() =~= fin.take(t as int));
            assert(fin.take(t + 1).last() == fin[t as int]);
        }
        sum = sum + counts[t];
        t = t + 1;
    }
    proof {
        assert(fin.take(fin.len() as int) =~= fin);
    }
    Ok(sum)
}

/// Evaluate the batch: part 1 sums the card scores, part 2 counts all won
/// card copies, and any other part is 0.
pub fn challenge(part: u32, lines: &Vec<String>) -> (r: Result<u32, Error>)
    requires
        part == 1 ==> part1_fits(lines@),
        part == 2 ==> part2_fits(lines@),
    ensures
        match r {
            Ok(w) => if part == 1 {
                cards_ok(lines@) && w == score_sum(lines@, lines@.len() as int)
            } else if part == 2 {
                cards_ok(lines@) && w == seq_sum(counts_after(lines@, lines@.len() as int))
            } else {
                w == 0
            },
            Err(_) => (part == 1 || part == 2) && !cards_ok(lines@),
        },
{
    if part == 1 {
        sum_winning_cards(lines)
    } else if part == 2 {
        count_winning_cards(lines)
    } else {
        Ok(0)
    }
}

} // verus!
