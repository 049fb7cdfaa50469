//! Calibration values: the first and last digit of each line form a
//! two-digit number, and the batch sums them.  The advanced variant also
//! recognises the spelled-out digits `one` through `nine`.

use vstd::prelude::*;

use crate::parse::{chars_of, digit_val, is_digit};

verus! {

/// The word `w` stands at position `i` of `s`.
pub open spec fn word_at(s: Seq<char>, i: int, w: Seq<char>) -> bool {
    0 <= i && i + w.len() <= s.len() && (forall|k: int| 0 <= k < w.len() ==> s[i + k] == w[k])
}

/// The digit denoted at position `i` of `s`: a digit character, or in the
/// advanced variant also a spelled-out digit word (and only the characters
/// `1` through `9`, as the word list has no zero).
pub open spec fn digit_at(s: Seq<char>, i: int, advanced: bool) -> Option<u32> {
    if advanced {
        if word_at(s, i, "one"@) {
            Some(1u32)
        } else if word_at(s, i, "two"@) {
            Some(2u32)
        } else if word_at(s, i, "three"@) {
            Some(3u32)
        } else if word_at(s, i, "four"@) {
            Some(4u32)
        } else if word_at(s, i, "five"@) {
            Some(5u32)
        } else if word_at(s, i, "six"@) {
            Some(6u32)
        } else if word_at(s, i, "seven"@) {
            Some(7u32)
        } else if word_at(s, i, "eight"@) {
            Some(8u32)
        } else if word_at(s, i, "nine"@) {
            Some(9u32)
        } else if 0 <= i < s.len() && '1' <= s[i] && s[i] <= '9' {
            Some(digit_val(s[i]) as u32)
        } else {
            None
        }
    } else {
        if 0 <= i < s.len() && is_digit(s[i]) {
            Some(digit_val(s[i]) as u32)
        } else {
            None
        }
    }
}

/// The first position below `i` that denotes a digit.
pub open spec fn first_digit_in(s: Seq<char>, i: int, advanced: bool) -> Option<int>
    decreases i,
{
    if i <= 0 {
        None
    } else if first_digit_in(s, i - 1, advanced) is Some {
        first_digit_in(s, i - 1, advanced)
    } else if digit_at(s, i - 1, advanced) is Some {
        Some(i - 1)
    } else {
        None
    }
}

/// The last position below `i` that denotes a digit.
pub open spec fn last_digit_in(s: Seq<char>, i: int, advanced: bool) -> Option<int>
    decreases i,
{
    if i <= 0 {
        None
    } else if digit_at(s, i - 1, advanced) is Some {
        Some(i - 1)
    } else {
        last_digit_in(s, i - 1, advanced)
    }
}

/// The calibration value of a line: ten times its first digit plus its last
/// digit, if the line holds any digit.
pub open spec fn cal_value(s: Seq<char>, advanced: bool) -> Option<u32> {
    match (first_digit_in(s, s.len() as int, advanced), last_digit_in(
        s,
        s.len() as int,
        advanced,
    )) {
        (Some(f), Some(l)) => Some(
            (digit_at(s, f, advanced)->0 * 10 + digit_at(s, l, advanced)->0) as u32,
        ),
        _ => None,
    }
}

/// The word `w` stands at position `i` of `v`.
#[verifier::loop_isolation(false)]
fn check_word(v: &Vec<char>, i: usize, w: &str) -> (r: bool)
    ensures
        r == word_at(v@, i as int, w@),
{
    let n = w.unicode_len();
    if v.len() < n || i > v.len() - n {
        return false;
    }
    let mut k: usize = 0;
    while k < n
        invariant
            0 <= k <= n,
            i + n <= v@.len(),
            n == w@.len(),
            forall|j: int| 0 <= j < k ==> v@[i + j] == w@[j],
        decreases n - k,
    {
        if v[i + k] != w.get_char(k) {
            return false;
        }
        k = k + 1;
    }
    true
}

/// The digit denoted at position `index` of `line`, if any.
fn get_digit(index: usize, line: &Vec<char>) -> (r: Option<u32>)
    requires
        index <= line@.len(),
    ensures
        r == digit_at(line@, index as int, true),
{
    if check_word(line, index, "one") {
        return Some(1);
    }
    if check_word(line, index, "two") {
        return Some(2);
    }
    if check_word(line, index, "three") {
        return Some(3);
    }
    if check_word(line, index, "four") {
        return Some(4);
    }
    if check_word(line, index, "five") {
        return Some(5);
    }
    if check_word(line, index, "six") {
        return Some(6);
    }
    if check_word(line, index, "seven") {
        return Some(7);
    }
    if check_word(line, index, "eight") {
        return Some(8);
    }
    if check_word(line, index, "nine") {
        return Some(9);
    }
    if index < line.len() {
        let c = line[index];
        if '1' <= c && c <= '9' {
            return Some((c as u32) - 48);
        }
    }
    None
}

/// Scan a line for its first and last digit and combine them.
#[verifier::loop_isolation(false)]
fn scan_value(v: &Vec<char>, advanced: bool) -> (r: Option<u32>)
    ensures
        r == cal_value(v@, advanced),
{
    let mut first: Option<u32> = None;
    let mut last: u32 = 0;
    let mut i: usize = 0;
    while i < v.len()
        invariant
            0 <= i <= v@.len(),
            match first {
                Some(f) => f <= 9,
                None => true,
            },
            last <= 9,
            match first_digit_in(v@, i as int, advanced) {
                Some(f) => first == Some(digit_at(v@, f, advanced)->0),
                None => first is None,
            },
            match last_digit_in(v@, i as int, advanced) {
                Some(l) => last == digit_at(v@, l, advanced)->0,
                None => true,
            },
            (first_digit_in(v@, i as int, advanced) is Some) == (last_digit_in(
                v@,
                i as int,
                advanced,
            ) is Some),
        decreases v@.len() - i,
    {
        let d = if advanced {
            get_digit(i, v)
        } else {
            let c = v[i];
            if '0' <= c && c <= '9' {
                Some((c as u32) - 48)
            } else {
                None
            }
        };
        match d {
            Some(val) => {
                if first.is_none() {
                    first = Some(val);
                }
                last = val;
            },
            None => {},
        }
        i = i + 1;
    }
    match first {
        Some(f) => Some(f * 10 + last),
        None => None,
    }
}

/// The sum of the calibration values of a batch; lines without a digit
/// count as zero.
pub open spec fn cal_sum(ls: Seq<String>, advanced: bool) -> int
    decreases ls.len(),
{
    if ls.len() == 0 {
        0
    } else {
        cal_sum(ls.drop_last(), advanced) + (match cal_value(ls.last()@, advanced) {
            Some(v) => v as int,
            None => 0int,
        })
    }
}

proof fn lemma_cal_sum_nonneg(ls: Seq<String>, advanced: bool)
    ensures
        cal_sum(ls, advanced) >= 0,
    decreases ls.len(),
{
    if ls.len() > 0 {
        lemma_cal_sum_nonneg(ls.drop_last(), advanced);
    }
}

proof fn lemma_cal_sum_prefix(ls: Seq<String>, advanced: bool, i: int)
    requires
        0 <= i <= ls.len(),
    ensures
        cal_sum(ls.take(i), advanced) <= cal_sum(ls, advanced),
    decreases ls.len() - i,
{
    if i < ls.len() {
        lemma_cal_sum_prefix(ls, advanced, i + 1);
        let t = ls.take(i + 1);
        assert(t.drop_last() =~= ls.take(i));
        assert(t.last() == ls[i]);
        lemma_cal_sum_nonneg(ls.take(i), advanced);
    } else {
        assert(ls.take(i) =~= ls);
    }
}

/// Sum the calibration values of every line.
#[verifier::loop_isolation(false)]
fn sum_values(lines: &Vec<String>, advanced: bool) -> (r: u32)
    requires
        cal_sum(lines@, advanced) <= u32::MAX,
    ensures
        r == cal_sum(lines@, advanced),
{
    let mut sum: u32 = 0;
    let mut i: usize = 0;
    while i < lines.len()
        invariant
            0 <= i <= lines@.len(),
            sum == cal_sum(lines@.take(i as int), advanced),
        decreases lines@.len() - i,
    {
        proof {
            lemma_cal_sum_prefix(lines@, advanced, i + 1);
            lemma_cal_sum_nonneg(lines@.take(i as int), advanced);
            assert(lines@.take(i + 1).drop_last() =~= lines@.take(i as int));
            assert(lines@.take(i + 1).last() == lines@[i as int]);
        }
        let v = chars_of(lines[i].as_str());
        match scan_value(&v, advanced) {
            Some(val) => {
                sum = sum + val;
            },
            None => {},
        }
        i = i + 1;
    }
    assert(lines@.take(lines@.len() as int) =~= lines@);
    sum
}

/// The digit-only calibration value of one line.
pub fn parse_calibration_value(line: &str) -> (r: Option<u32>)
    ensures
        r == cal_value(line@, false),
{
    let v = chars_of(line);
    scan_value(&v, false)
}

/// The calibration value of one line, spelled-out digits included.
pub fn parse_calibration_value_advanced(line: &str) -> (r: Option<u32>)
    ensures
        r == cal_value(line@, true),
{
    let v = chars_of(line);
    scan_value(&v, true)
}

/// Sum the calibration values of the batch: part 1 reads digit characters
/// only, part 2 also reads spelled-out digits, and any other part is 0.
/// Machine limits force the caller to keep the sum within `u32`.
pub fn sum_calibration_values(part: u32, lines: &Vec<String>) -> (r: u32)
    requires
        part == 1 ==> cal_sum(lines@, false) <= u32::MAX,
        part == 2 ==> cal_sum(lines@, true) <= u32::MAX,
    ensures
        part == 1 ==> r == cal_sum(lines@, false),
        part == 2 ==> r == cal_sum(lines@, true),
        part != 1 && part != 2 ==> r == 0,
{
    if part == 1 {
        sum_values(lines, false)
    } else if part == 2 {
        sum_values(lines, true)
    } else {
        0
    }
}

} // verus!
