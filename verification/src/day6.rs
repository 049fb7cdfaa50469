//! Race records: for each race, how many whole-unit hold times beat the
//! record distance (holding `h` of `t` time units travels `h * (t - h)`);
//! part 1 multiplies the counts of several races, part 2 reads the two
//! lines as one big race by ignoring the blanks.

use vstd::prelude::*;

use crate::Error;
use crate::parse::{
    chars_of, copy_range, find_char, find_first, is_numeral, lemma_find_first, num_line_ok,
    num_line_tokens, num_val, parse_num_line_with_prefix, parse_u64,
};

verus! {

/// One race: a time budget and a record distance.
#[derive(Debug, Clone, Copy)]
pub struct Race {
    pub time: u64,
    pub distance: u64,
}

/// How many hold times below `h` beat the record: the number of integers
/// `1 <= hold < h` with `hold * (t - hold) > d`.
pub open spec fn ways_upto(t: int, d: int, h: int) -> int
    decreases h,
{
    if h <= 1 {
        0
    } else {
        ways_upto(t, d, h - 1) + (if (h - 1) * (t - (h - 1)) > d {
            1int
        } else {
            0int
        })
    }
}

/// How many hold times of a race beat its record.
pub open spec fn num_ways_spec(t: int, d: int) -> int {
    ways_upto(t, d, t)
}

proof fn lemma_ways_bound(t: int, d: int, h: int)
    ensures
        0 <= ways_upto(t, d, h) < (if h >= 1 {
            h
        } else {
            1int
        }),
    decreases h,
{
    if h > 1 {
        lemma_ways_bound(t, d, h - 1);
    }
}

impl Race {
    /// The number of whole-unit hold times that beat the record.  The time
    /// budget stays within `u32` so the travelled distances fit the machine.
    pub fn num_ways_to_beat(&self) -> (r: u64)
        requires
            self.time <= u32::MAX,
        ensures
            r == num_ways_spec(self.time as int, self.distance as int),
    {
        let t = self.time;
        let d = self.distance;
        let mut sum: u64 = 0;
        let mut hold: u64 = 1;
        proof {
            lemma_ways_bound(t as int, d as int, t as int);
        }
        if t == 0 {
            return 0;
        }
        while hold < t
            invariant
                1 <= hold <= t <= u32::MAX,
                sum == ways_upto(t as int, d as int, hold as int),
                sum < hold,
            decreases t - hold,
        {
            proof {
                assert(hold * (t - hold) <= u64::MAX) by (nonlinear_arith)
                    requires
                        1 <= hold <= 0xffff_ffffu64,
                        0 <= t - hold <= 0xffff_ffffu64,
                ;
            }
            let travelled = hold * (t - hold);
            if travelled > d {
                sum = sum + 1;
            }
            hold = hold + 1;
        }
        sum
    }
}

/// The races the two header lines describe: the i-th time paired with the
/// i-th distance, as far as both lists reach.
pub open spec fn races_ok(ls: Seq<String>) -> bool {
    ls.len() >= 2 && num_line_ok(ls[0]@) && num_line_ok(ls[1]@)
}

pub open spec fn spec_race_count(ls: Seq<String>) -> int {
    vstd::math::min(num_line_tokens(ls[0]@).len() as int, num_line_tokens(ls[1]@).len() as int)
}

pub open spec fn spec_race_time(ls: Seq<String>, i: int) -> int {
    num_val(num_line_tokens(ls[0]@)[i])
}

pub open spec fn spec_race_distance(ls: Seq<String>, i: int) -> int {
    num_val(num_line_tokens(ls[1]@)[i])
}

/// Read the `Time:` and `Distance:` lines into races.
#[verifier::loop_isolation(false)]
pub fn parse_races(lines: &Vec<String>) -> (r: Result<Vec<Race>, Error>)
    ensures
        match r {
            Ok(rs) => races_ok(lines@) && rs@.len() == spec_race_count(lines@) && forall|i: int|
                0 <= i < rs@.len() ==> (#[trigger] rs@[i]).time == spec_race_time(lines@, i)
                    && rs@[i].distance == spec_race_distance(lines@, i),
            Err(_) => !races_ok(lines@),
        },
{
    if lines.len() < 2 {
        return Err(Error::InvalidInput(String::from_str("number line is missing")));
    }
    let times = match parse_num_line_with_prefix(lines[0].as_str()) {
        Ok(ts) => ts,
        Err(e) => {
            return Err(e);
        },
    };
    let distances = match parse_num_line_with_prefix(lines[1].as_str()) {
        Ok(ds) => ds,
        Err(e) => {
            return Err(e);
        },
    };
    let n = if times.len() < distances.len() {
        times.len()
    } else {
        distances.len()
    };
    let mut rs: Vec<Race> = Vec::new();
    let mut i: usize = 0;
    while i < n
        invariant
            0 <= i <= n,
            rs@.len() == i,
            forall|k: int| 0 <= k < i ==> (#[trigger] rs@[k]).time == spec_race_time(lines@, k)
                && rs@[k].distance == spec_race_distance(lines@, k),
        decreases n - i,
    {
        rs.push(Race { time: times[i], distance: distances[i] });
        i = i + 1;
    }
    Ok(rs)
}

/// The product of the beat counts of the races described by the two lines,
/// taken over the first `n` races.
pub open spec fn ways_product(ls: Seq<String>, n: int) -> int
    decreases n,
{
    if n <= 0 {
        1
    } else {
        ways_product(ls, n - 1) * num_ways_spec(spec_race_time(ls, n - 1), spec_race_distance(
            ls,
            n - 1,
        ))
    }
}

/// Every race time of the batch fits `u32`, and every partial product of
/// beat counts fits `u64`: the bounds the machine forces on part 1.
pub open spec fn part1_fits(ls: Seq<String>) -> bool {
    races_ok(ls) ==> (forall|i: int|
        0 <= i < spec_race_count(ls) ==> spec_race_time(ls, i) <= u32::MAX) && (forall|n: int|
        0 <= n <= spec_race_count(ls) ==> ways_product(ls, n) <= u64::MAX)
}

proof fn lemma_ways_product_nonneg(ls: Seq<String>, n: int)
    ensures
        ways_product(ls, n) >= 0,
    decreases n,
{
    if n > 0 {
        lemma_ways_product_nonneg(ls, n - 1);
        lemma_ways_bound(spec_race_time(ls, n - 1), spec_race_distance(ls, n - 1), spec_race_time(
            ls,
            n - 1,
        ));
        assert(ways_product(ls, n) >= 0) by (nonlinear_arith)
            requires
                ways_product(ls, n - 1) >= 0,
                num_ways_spec(spec_race_time(ls, n - 1), spec_race_distance(ls, n - 1)) >= 0,
                ways_product(ls, n) == ways_product(ls, n - 1) * num_ways_spec(
                    spec_race_time(ls, n - 1),
                    spec_race_distance(ls, n - 1),
                ),
        ;
    }
}

/// Multiply the beat counts of all races.
#[verifier::loop_isolation(false)]
fn num_beat_races(lines: &Vec<String>) -> (r: Result<u64, Error>)
    requires
        part1_fits(lines@),
    ensures
        match r {
            Ok(w) => races_ok(lines@) && w == ways_product(lines@, spec_race_count(lines@)),
            Err(_) => !races_ok(lines@),
        },
{
    let races = match parse_races(lines) {
        Ok(rs) => rs,
        Err(e) => {
            return Err(e);
        },
    };
    let mut prod: u64 = 1;
    let mut i: usize = 0;
    while i < races.len()
        invariant
            0 <= i <= races@.len(),
            prod == ways_product(lines@, i as int),
        decreases races@.len() - i,
    {
        proof {
            lemma_ways_product_nonneg(lines@, i as int);
            lemma_ways_bound(
                spec_race_time(lines@, i as int),
                spec_race_distance(lines@, i as int),
                spec_race_time(lines@, i as int),
            );
        }
        let w = races[i].num_ways_to_beat();
        proof {
            assert(i + 1 <= spec_race_count(lines@));
            assert(ways_product(lines@, i + 1) <= u64::MAX);
            assert(prod * w == ways_product(lines@, i + 1));
        }
        prod = prod * w;
        i = i + 1;
    }
    Ok(prod)
}

/// The digits of `s` with the blanks removed.
pub open spec fn strip_blanks(s: Seq<char>) -> Seq<char>
    decreases s.len(),
{
    if s.len() == 0 {
        Seq::empty()
    } else {
        strip_blanks(s.drop_last()) + (if s.last() == ' ' {
            Seq::empty()
        } else {
            seq![s.last()]
        })
    }
}

/// The one number a header line denotes once its blanks are removed.
pub open spec fn joined_ok(s: Seq<char>) -> bool {
    match find_first(s, ':') {
        Some(k) => is_numeral(strip_blanks(s.skip(k + 1))) && num_val(strip_blanks(s.skip(k + 1)))
            <= u64::MAX,
        None => false,
    }
}

pub open spec fn joined_val(s: Seq<char>) -> int {
    match find_first(s, ':') {
        Some(k) => num_val(strip_blanks(s.skip(k + 1))),
        None => 0,
    }
}

/// Read one header line as a single number, ignoring the blanks between the
/// digit groups.
#[verifier::loop_isolation(false)]
fn parse_line(line: &str) -> (r: Result<u64, Error>)
    ensures
        match r {
            Ok(n) => joined_ok(line@) && n == joined_val(line@),
            Err(_) => !joined_ok(line@),
        },
{
    let v = chars_of(line);
    proof {
        lemma_find_first(v@, ':');
    }
    match find_char(&v, 0, ':') {
        None => Err(Error::InvalidInput(String::from_str("number line is missing its ':' prefix"))),
        Some(k) => {
            proof {
                crate::parse::lemma_find_first_at(v@, ':', k as int);
            }
            let n = v.len();
            let tail = copy_range(&v, k + 1, n);
            proof {
                assert(tail@ =~= v@.skip(k + 1));
            }
            let mut digits: Vec<char> = Vec::new();
            let mut i: usize = 0;
            while i < tail.len()
                invariant
                    0 <= i <= tail@.len(),
                    digits@ == strip_blanks(tail@.take(i as int)),
                decreases tail@.len() - i,
            {
                proof {
                    assert(tail@.take(i + 1).drop_last() =~= tail@.take(i as int));
                    assert(tail@.take(i + 1).last() == tail@[i as int]);
                }
                let c = tail[i];
                if c != ' ' {
                    digits.push(c);
                    proof {
                        assert(digits@ =~= strip_blanks(tail@.take(i as int)) + seq![
                            tail@[i as int],
                        ]);
                    }
                } else {
                    proof {
                        assert(digits@ =~= strip_blanks(tail@.take(i as int))
                            + Seq::<char>::empty());
                    }
                }
                i = i + 1;
            }
            proof {
                assert(tail@.take(tail@.len() as int) =~= tail@);
            }
            match parse_u64(&digits) {
                Some(val) => Ok(val),
                None => Err(
                    Error::InvalidInput(String::from_str("number line holds a non-numeric piece")),
                ),
            }
        },
    }
}

/// Part 2 reads both header lines as one race; its time fits `u32`, as the
/// machine forces.
pub open spec fn part2_fits(ls: Seq<String>) -> bool {
    ls.len() >= 2 && joined_ok(ls[0]@) ==> joined_val(ls[0]@) <= u32::MAX
}

/// Count the ways to beat the single race the two lines denote.
fn num_beat_race(lines: &Vec<String>) -> (r: Result<u64, Error>)
    requires
        part2_fits(lines@),
    ensures
        match r {
            Ok(w) => lines@.len() >= 2 && joined_ok(lines@[0]@) && joined_ok(lines@[1]@) && w
                == num_ways_spec(joined_val(lines@[0]@), joined_val(lines@[1]@)),
            Err(_) => !(lines@.len() >= 2 && joined_ok(lines@[0]@) && joined_ok(lines@[1]@)),
        },
{
    if lines.len() < 2 {
        return Err(Error::InvalidInput(String::from_str("number line is missing")));
    }
    let time = match parse_line(lines[0].as_str()) {
        Ok(t) => t,
        Err(e) => {
            return Err(e);
        },
    };
    let distance = match parse_line(lines[1].as_str()) {
        Ok(d) => d,
        Err(e) => {
            return Err(e);
        },
    };
    let race = Race { time, distance };
    Ok(race.num_ways_to_beat())
}

/// Evaluate the race batch: part 1 multiplies each race's beat count, part 2
/// reads the lines as one race, and any other part is 0.
pub fn challenge(part: u32, lines: &Vec<String>) -> (r: Result<u64, Error>)
    requires
        part == 1 ==> part1_fits(lines@),
        part == 2 ==> part2_fits(lines@),
    ensures
        match r {
            Ok(w) => if part == 1 {
                races_ok(lines@) && w == ways_product(lines@, spec_race_count(lines@))
            } else if part == 2 {
                lines@.len() >= 2 && joined_ok(lines@[0]@) && joined_ok(lines@[1]@) && w
                    == num_ways_spec(joined_val(lines@[0]@), joined_val(lines@[1]@))
            } else {
                w == 0
            },
            Err(_) => if part == 1 {
                !races_ok(lines@)
            } else if part == 2 {
                !(lines@.len() >= 2 && joined_ok(lines@[0]@) && joined_ok(lines@[1]@))
            } else {
                false
            },
        },
{
    if part == 1 {
        num_beat_races(lines)
    } else if part == 2 {
        num_beat_race(lines)
    } else {
        Ok(0)
    }
}

} // verus!
