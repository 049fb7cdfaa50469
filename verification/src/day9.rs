//! Series extrapolation: each line is a sequence of integers; repeatedly
//! taking difference rows reaches an all-zero row, and the next (or
//! previous) value of the series is rebuilt from the rows' edge values.

use vstd::prelude::*;

use crate::Error;
use crate::parse::{
    chars_of, copy_range, is_numeral, nonempty_of, nonempty_tokens, num_val, parse_u64,
    split_chars, split_spec, views_of,
};

verus! {

/// The value of an optionally negated numeral.
pub open spec fn is_signed_numeral(s: Seq<char>) -> bool {
    if s.len() > 0 && s[0] == '-' {
        is_numeral(s.skip(1))
    } else {
        is_numeral(s)
    }
}

pub open spec fn signed_val(s: Seq<char>) -> int {
    if s.len() > 0 && s[0] == '-' {
        -num_val(s.skip(1))
    } else {
        num_val(s)
    }
}

/// Parse an optionally negated numeral whose value fits in `i32`.
pub fn parse_i32(v: &Vec<char>) -> (r: Option<i32>)
    ensures
        match r {
            Some(n) => is_signed_numeral(v@) && n == signed_val(v@),
            None => !(is_signed_numeral(v@) && i32::MIN <= signed_val(v@) <= i32::MAX),
        },
{
    if v.len() > 0 && v[0] == '-' {
        let digits = copy_range(v, 1, v.len());
        proof {
            assert(digits@ =~= v@.skip(1));
        }
        match parse_u64(&digits) {
            Some(n) => {
                if n <= 0x8000_0000u64 {
                    Some((0i64 - (n as i64)) as i32)
                } else {
                    proof {
                        crate::parse::lemma_num_val_nonneg(digits@);
                    }
                    None
                }
            },
            None => {
                proof {
                    if is_numeral(digits@) {
                        crate::parse::lemma_num_val_nonneg(digits@);
                    }
                }
                None
            },
        }
    } else {
        match parse_u64(v) {
            Some(n) => {
                if n <= 0x7fff_ffffu64 {
                    Some(n as i32)
                } else {
                    None
                }
            },
            None => {
                proof {
                    if is_numeral(v@) {
                        crate::parse::lemma_num_val_nonneg(v@);
                    }
                }
                None
            },
        }
    }
}

/// The integers one line denotes: its blank-separated pieces, each an
/// optionally negated numeral.
pub open spec fn line_vals(s: Seq<char>) -> Seq<int> {
    Seq::new(
        nonempty_tokens(split_spec(s, ' ')).len(),
        |i: int| signed_val(nonempty_tokens(split_spec(s, ' '))[i]),
    )
}

pub open spec fn line_ok(s: Seq<char>) -> bool {
    forall|i: int|
        0 <= i < nonempty_tokens(split_spec(s, ' ')).len() ==> is_signed_numeral(
            #[trigger] nonempty_tokens(split_spec(s, ' '))[i],
        ) && i32::MIN <= signed_val(nonempty_tokens(split_spec(s, ' '))[i]) <= i32::MAX
}

/// The series of the whole batch, line by line.
pub open spec fn series_spec(ls: Seq<String>) -> Seq<Seq<int>> {
    Seq::new(ls.len(), |i: int| line_vals(ls[i]@))
}

pub open spec fn series_ok(ls: Seq<String>) -> bool {
    forall|i: int| 0 <= i < ls.len() ==> line_ok(#[trigger] ls[i]@)
}

/// Parse one line of blank-separated integers.
#[verifier::loop_isolation(false)]
pub fn parse_series_line(line: &str) -> (r: Result<Vec<i32>, Error>)
    ensures
        match r {
            Ok(ns) => line_ok(line@) && ns@.len() == line_vals(line@).len() && forall|i: int|
                0 <= i < ns@.len() ==> #[trigger] ns@[i] == line_vals(line@)[i],
            Err(_) => !line_ok(line@),
        },
{
    let v = chars_of(line);
    let pieces = split_chars(&v, ' ');
    let toks = nonempty_of(pieces);
    let ghost all = nonempty_tokens(split_spec(line@, ' '));
    let mut ns: Vec<i32> = Vec::new();
    let mut i: usize = 0;
    while i < toks.len()
        invariant
            0 <= i <= toks@.len(),
            views_of(toks@) == all,
            ns@.len() == i,
            forall|k: int|
                0 <= k < i ==> is_signed_numeral(#[trigger] all[k]) && i32::MIN <= signed_val(
                    all[k],
                ) <= i32::MAX,
            forall|k: int| 0 <= k < i ==> #[trigger] ns@[k] == signed_val(all[k]),
        decreases toks@.len() - i,
    {
        match parse_i32(&toks[i]) {
            Some(n) => {
                ns.push(n);
            },
            None => {
                proof {
                    assert(views_of(toks@)[i as int] == toks@[i as int]@);
                    assert(!(is_signed_numeral(all[i as int]) && i32::MIN <= signed_val(
                        all[i as int],
                    ) <= i32::MAX));
                }
                return Err(
                    Error::InvalidInput(String::from_str("series line holds a non-numeric piece")),
                );
            },
        }
        i = i + 1;
    }
    Ok(ns)
}

/// Parse every line of the batch into its series.
#[verifier::loop_isolation(false)]
pub fn parse_series(lines: &Vec<String>) -> (r: Result<Vec<Vec<i32>>, Error>)
    ensures
        match r {
            Ok(ss) => series_ok(lines@) && ss@.len() == lines@.len() && forall|i: int|
                0 <= i < ss@.len() ==> (#[trigger] ss@[i])@.map_values(|x: i32| x as int)
                    == series_spec(lines@)[i],
            Err(_) => !series_ok(lines@),
        },
{
    let mut ss: Vec<Vec<i32>> = Vec::new();
    let mut i: usize = 0;
    while i < lines.len()
        invariant
            0 <= i <= lines@.len(),
            ss@.len() == i,
            forall|k: int| 0 <= k < i ==> line_ok(#[trigger] lines@[k]@),
            forall|k: int|
                0 <= k < i ==> (#[trigger] ss@[k])@.map_values(|x: i32| x as int) == series_spec(
                    lines@,
                )[k],
        decreases lines@.len() - i,
    {
        match parse_series_line(lines[i].as_str()) {
            Ok(ns) => {
                let ghost pre = ss@;
                ss.push(ns);
                proof {
                    assert(ns@.map_values(|x: i32| x as int) =~= series_spec(lines@)[i as int]);
                    assert(forall|k: int| 0 <= k < i ==> ss@[k] == pre[k]);
                }
            },
            Err(e) => {
                return Err(e);
            },
        }
        i = i + 1;
    }
    Ok(ss)
}

/// Every value of `s` is zero.
pub open spec fn all_zero(s: Seq<int>) -> bool {
    forall|i: int| 0 <= i < s.len() ==> #[trigger] s[i] == 0
}

/// The difference row of `s`.
pub open spec fn diff_row(s: Seq<int>) -> Seq<int> {
    Seq::new((s.len() - 1) as nat, |i: int| s[i + 1] - s[i])
}

/// The next value of the series: zero once the rows have degraded to zero,
/// else the last value plus the next value of the difference row.
pub open spec fn predict_next_spec(s: Seq<int>) -> int
    decreases s.len(),
{
    if all_zero(s) {
        0
    } else {
        s.last() + predict_next_spec(diff_row(s))
    }
}

/// The previous value of the series: zero once the rows have degraded to
/// zero, else the first value minus the previous value of the difference
/// row.
pub open spec fn predict_prev_spec(s: Seq<int>) -> int
    decreases s.len(),
{
    if all_zero(s) {
        0
    } else {
        s[0] - predict_prev_spec(diff_row(s))
    }
}

pub open spec fn in_i64(x: int) -> bool {
    i64::MIN <= x <= i64::MAX
}

/// Every value met while extrapolating fits in `i64`: the difference rows,
/// and the running edge sums of both directions.  Machine limits force this
/// bound, nothing else does.
pub open spec fn calc_ok(s: Seq<int>) -> bool
    decreases s.len(),
{
    if all_zero(s) {
        true
    } else {
        &&& (forall|i: int| 0 <= i < diff_row(s).len() ==> in_i64(#[trigger] diff_row(s)[i]))
        &&& in_i64(s.last() + predict_next_spec(diff_row(s)))
        &&& in_i64(s[0] - predict_prev_spec(diff_row(s)))
        &&& calc_ok(diff_row(s))
    }
}

/// Whether every value of `v` is zero.
fn all_zero_exec(v: &Vec<i64>) -> (r: bool)
    ensures
        r == all_zero(v@.map_values(|x: i64| x as int)),
{
    let mut i: usize = 0;
    while i < v.len()
        invariant
            0 <= i <= v@.len(),
            forall|k: int| 0 <= k < i ==> #[trigger] v@[k] == 0,
        decreases v@.len() - i,
    {
        if v[i] != 0 {
            assert(v@.map_values(|x: i64| x as int)[i as int] != 0);
            return false;
        }
        i = i + 1;
    }
    true
}

/// The difference row of `v`.
#[verifier::loop_isolation(false)]
fn diff_exec(v: &Vec<i64>, s: Ghost<Seq<int>>) -> (r: Vec<i64>)
    requires
        v@.len() > 0,
        s@ == v@.map_values(|x: i64| x as int),
        forall|i: int| 0 <= i < diff_row(s@).len() ==> in_i64(#[trigger] diff_row(s@)[i]),
    ensures
        r@.map_values(|x: i64| x as int) == diff_row(s@),
{
    let ghost s = s@;
    let mut r: Vec<i64> = Vec::new();
    let mut i: usize = 1;
    while i < v.len()
        invariant
            1 <= i <= v@.len(),
            r@.len() == i - 1,
            forall|k: int| 0 <= k < i - 1 ==> #[trigger] r@[k] == diff_row(s)[k],
        decreases v@.len() - i,
    {
        assert(diff_row(s)[i - 1] == s[i as int] - s[i - 1]);
        r.push(v[i] - v[i - 1]);
        i = i + 1;
    }
    proof {
        assert(r@.map_values(|x: i64| x as int) =~= diff_row(s));
    }
    r
}

/// The next value of one series.
pub fn predict_next(serie: Vec<i64>) -> (r: i64)
    requires
        calc_ok(serie@.map_values(|x: i64| x as int)),
    ensures
        r == predict_next_spec(serie@.map_values(|x: i64| x as int)),
    decreases serie@.len(),
{
    let ghost s = serie@.map_values(|x: i64| x as int);
    if all_zero_exec(&serie) {
        return 0;
    }
    assert(serie@.len() > 0);
    let d = diff_exec(&serie, Ghost(s));
    let t = predict_next(d);
    serie[serie.len() - 1] + t
}

/// The previous value of one series.
pub fn predict_prev(serie: Vec<i64>) -> (r: i64)
    requires
        calc_ok(serie@.map_values(|x: i64| x as int)),
    ensures
        r == predict_prev_spec(serie@.map_values(|x: i64| x as int)),
    decreases serie@.len(),
{
    let ghost s = serie@.map_values(|x: i64| x as int);
    if all_zero_exec(&serie) {
        return 0;
    }
    assert(serie@.len() > 0);
    let d = diff_exec(&serie, Ghost(s));
    let t = predict_prev(d);
    serie[0] - t
}

/// The sum of the next values over the first `n` series.
pub open spec fn next_sum(ser: Seq<Seq<int>>, n: int) -> int
    decreases n,
{
    if n <= 0 {
        0
    } else {
        next_sum(ser, n - 1) + predict_next_spec(ser[n - 1])
    }
}

/// The sum of the previous values over the first `n` series.
pub open spec fn prev_sum(ser: Seq<Seq<int>>, n: int) -> int
    decreases n,
{
    if n <= 0 {
        0
    } else {
        prev_sum(ser, n - 1) + predict_prev_spec(ser[n - 1])
    }
}

/// The machine bounds part 1 needs: each series extrapolates within `i64`,
/// each partial sum fits `i64`, and the total fits the `i32` result.
pub open spec fn part1_fits(ls: Seq<String>) -> bool {
    series_ok(ls) ==> {
        &&& forall|i: int| 0 <= i < ls.len() ==> calc_ok(#[trigger] series_spec(ls)[i])
        &&& forall|n: int| 0 <= n <= ls.len() ==> in_i64(#[trigger] next_sum(series_spec(ls), n))
        &&& i32::MIN <= next_sum(series_spec(ls), ls.len() as int) <= i32::MAX
    }
}

/// The machine bounds part 2 needs, for the previous-value sums.
pub open spec fn part2_fits(ls: Seq<String>) -> bool {
    series_ok(ls) ==> {
        &&& forall|i: int| 0 <= i < ls.len() ==> calc_ok(#[trigger] series_spec(ls)[i])
        &&& forall|n: int| 0 <= n <= ls.len() ==> in_i64(#[trigger] prev_sum(series_spec(ls), n))
        &&& i32::MIN <= prev_sum(series_spec(ls), ls.len() as int) <= i32::MAX
    }
}

/// Widen a parsed series to the working width.
fn widen(v: &Vec<i32>) -> (r: Vec<i64>)
    ensures
        r@.map_values(|x: i64| x as int) == v@.map_values(|x: i32| x as int),
{
    let mut r: Vec<i64> = Vec::new();
    let mut i: usize = 0;
    while i < v.len()
        invariant
            0 <= i <= v@.len(),
            r@.len() == i,
            forall|k: int| 0 <= k < i ==> #[trigger] r@[k] == v@[k] as i64,
        decreases v@.len() - i,
    {
        r.push(v[i] as i64);
        i = i + 1;
    }
    proof {
        assert(r@.map_values(|x: i64| x as int) =~= v@.map_values(|x: i32| x as int));
    }
    r
}

/// Evaluate the batch: part 1 sums each series' next value, part 2 sums
/// each series' previous value, and any other part is 0.
#[verifier::loop_isolation(false)]
pub fn challenge(part: u32, lines: &Vec<String>) -> (r: Result<i32, Error>)
    requires
        part == 1 ==> part1_fits(lines@),
        part == 2 ==> part2_fits(lines@),
    ensures
        match r {
            Ok(w) => if part == 1 {
                series_ok(lines@) && w == next_sum(series_spec(lines@), lines@.len() as int)
            } else if part == 2 {
                series_ok(lines@) && w == prev_sum(series_spec(lines@), lines@.len() as int)
            } else {
                w == 0
            },
            Err(_) => (part == 1 || part == 2) && !series_ok(lines@),
        },
{
    if part != 1 && part != 2 {
        return Ok(0);
    }
    let series = match parse_series(lines) {
        Ok(ss) => ss,
        Err(e) => {
            return Err(e);
        },
    };
    let ghost ser = series_spec(lines@);
    let mut sum: i64 = 0;
    let mut i: usize = 0;
    while i < series.len()
        invariant
            0 <= i <= series@.len(),
            part == 1 ==> sum == next_sum(ser, i as int),
            part == 2 ==> sum == prev_sum(ser, i as int),
        decreases series@.len() - i,
    {
        let wide = widen(&series[i]);
        proof {
            assert(ser[i as int] == series_spec(lines@)[i as int]);
        }
        let v = if part == 1 {
            predict_next(wide)
        } else {
            predict_prev(wide)
        };
        proof {
            if part == 1 {
                assert(in_i64(next_sum(ser, i + 1)));
                assert(sum + v == next_sum(ser, i + 1));
            } else {
                assert(in_i64(prev_sum(ser, i + 1)));
                assert(sum + v == prev_sum(ser, i + 1));
            }
        }
        sum = sum + v;
        i = i + 1;
    }
    Ok(sum as i32)
}

} // verus!
