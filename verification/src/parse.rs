//! Shared, fully verified text-parsing primitives: character extraction,
//! searching, splitting, trimming and decimal-number parsing, each specified
//! against a small mathematical model over `Seq<char>`.

use vstd::prelude::*;

use crate::Error;

verus! {

/// `c` is a decimal digit.
pub open spec fn is_digit(c: char) -> bool {
    '0' <= c && c <= '9'
}

/// The value of a decimal digit.
pub open spec fn digit_val(c: char) -> int {
    c as int - '0' as int
}

/// Every character of `s` is a decimal digit.
pub open spec fn all_digits(s: Seq<char>) -> bool {
    forall|i: int| 0 <= i < s.len() ==> is_digit(#[trigger] s[i])
}

/// The numeric value of a digit string, most significant digit first.
pub open spec fn num_val(s: Seq<char>) -> int
    decreases s.len(),
{
    if s.len() == 0 {
        0
    } else {
        num_val(s.drop_last()) * 10 + digit_val(s.last())
    }
}

/// `s` is a well-formed unsigned decimal numeral.
pub open spec fn is_numeral(s: Seq<char>) -> bool {
    s.len() > 0 && all_digits(s)
}

pub proof fn lemma_num_val_nonneg(s: Seq<char>)
    requires
        all_digits(s),
    ensures
        num_val(s) >= 0,
    decreases s.len(),
{
    if s.len() > 0 {
        assert(all_digits(s.drop_last()));
        lemma_num_val_nonneg(s.drop_last());
    }
}

/// A digit string is worth at least its prefixes: dropping trailing digits
/// can only shrink the value.
pub proof fn lemma_num_val_prefix_le(s: Seq<char>, i: int)
    requires
        all_digits(s),
        0 <= i <= s.len(),
    ensures
        num_val(s.take(i)) <= num_val(s),
    decreases s.len() - i,
{
    if i < s.len() {
        lemma_num_val_prefix_le(s, i + 1);
        let t = s.take(i + 1);
        assert(t.drop_last() =~= s.take(i));
        assert(all_digits(s.take(i)));
        lemma_num_val_nonneg(s.take(i));
        assert(num_val(t) == num_val(s.take(i)) * 10 + digit_val(t.last()));
    } else {
        assert(s.take(i) =~= s);
    }
}

/// The characters of a string, in order (O(n^2), fine for short lines).
pub fn chars_of(s: &str) -> (r: Vec<char>)
    ensures
        r@ == s@,
{
    let n = s.unicode_len();
    let mut r: Vec<char> = Vec::new();
    let mut i: usize = 0;
    while i < n
        invariant
            i <= n,
            n == s@.len(),
            r@ == s@.take(i as int),
        decreases n - i,
    {
        r.push(s.get_char(i));
        i = i + 1;
        assert(r@ =~= s@.take(i as int));
    }
    assert(r@ =~= s@);
    r
}

/// The first occurrence of `c` in `s`, if any.
pub open spec fn find_first(s: Seq<char>, c: char) -> Option<int>
    decreases s.len(),
{
    if s.len() == 0 {
        None
    } else if s[0] == c {
        Some(0)
    } else {
        match find_first(s.drop_first(), c) {
            Some(i) => Some(i + 1),
            None => None,
        }
    }
}

/// `find_first` returns exactly the least index holding `c`.
pub proof fn lemma_find_first(s: Seq<char>, c: char)
    ensures
        match find_first(s, c) {
            Some(i) => 0 <= i < s.len() && s[i] == c && forall|j: int|
                0 <= j < i ==> s[j] != c,
            None => forall|j: int| 0 <= j < s.len() ==> s[j] != c,
        },
    decreases s.len(),
{
    if s.len() > 0 && s[0] != c {
        let t = s.drop_first();
        lemma_find_first(t, c);
        match find_first(t, c) {
            Some(i) => {
                assert forall|j: int| 0 <= j < i + 1 implies s[j] != c by {
                    if j >= 1 {
                        assert(s[j] == t[j - 1]);
                    }
                }
            },
            None => {
                assert forall|j: int| 0 <= j < s.len() implies s[j] != c by {
                    if j >= 1 {
                        assert(s[j] == t[j - 1]);
                    }
                }
            },
        }
    }
}


/// The first occurrence characterizes `find_first`: a hit at `i` with none
/// before it is the result.
pub proof fn lemma_find_first_at(s: Seq<char>, c: char, i: int)
    requires
        0 <= i < s.len(),
        s[i] == c,
        forall|j: int| 0 <= j < i ==> s[j] != c,
    ensures
        find_first(s, c) == Some(i),
{
    lemma_find_first(s, c);
    match find_first(s, c) {
        Some(f) => {
            if f < i {
                assert(s[f] == c);
                assert(false);
            }
            if i < f {
                assert(false);
            }
        },
        None => {
            assert(false);
        },
    }
}

/// A character that occurs nowhere is not found.
pub proof fn lemma_find_first_none(s: Seq<char>, c: char)
    requires
        forall|j: int| 0 <= j < s.len() ==> s[j] != c,
    ensures
        find_first(s, c) is None,
{
    lemma_find_first(s, c);
    if find_first(s, c) is Some {
        assert(false);
    }
}

/// The first index `i >= from` with `v[i] == c`, if any.
pub fn find_char(v: &Vec<char>, from: usize, c: char) -> (r: Option<usize>)
    requires
        from <= v@.len(),
    ensures
        match r {
            Some(i) => from <= i < v@.len() && v@[i as int] == c && forall|j: int|
                from <= j < i ==> v@[j] != c,
            None => forall|j: int| from <= j < v@.len() ==> v@[j] != c,
        },
{
    let mut i: usize = from;
    while i < v.len()
        invariant
            from <= i <= v@.len(),
            forall|j: int| from <= j < i ==> v@[j] != c,
        decreases v@.len() - i,
    {
        if v[i] == c {
            return Some(i);
        }
        i = i + 1;
    }
    None
}

/// A copy of `v[from..to]`.
pub fn copy_range(v: &Vec<char>, from: usize, to: usize) -> (r: Vec<char>)
    requires
        from <= to <= v@.len(),
    ensures
        r@ == v@.subrange(from as int, to as int),
{
    let mut r: Vec<char> = Vec::new();
    let mut i: usize = from;
    while i < to
        invariant
            from <= i <= to <= v@.len(),
            r@ == v@.subrange(from as int, i as int),
        decreases to - i,
    {
        r.push(v[i]);
        i = i + 1;
        assert(r@ =~= v@.subrange(from as int, i as int));
    }
    r
}

/// Parse an unsigned decimal numeral: `Some` exactly on well-formed numerals
/// whose value fits in `u64`.
pub fn parse_u64(v: &Vec<char>) -> (r: Option<u64>)
    ensures
        match r {
            Some(n) => is_numeral(v@) && n == num_val(v@),
            None => !(is_numeral(v@) && num_val(v@) <= u64::MAX),
        },
{
    if v.len() == 0 {
        return None;
    }
    let mut acc: u64 = 0;
    let mut i: usize = 0;
    while i < v.len()
        invariant
            i <= v@.len(),
            all_digits(v@.take(i as int)),
            acc == num_val(v@.take(i as int)),
        decreases v@.len() - i,
    {
        let c = v[i];
        if !('0' <= c && c <= '9') {
            assert(!is_digit(v@[i as int]));
            return None;
        }
        let d: u64 = (c as u32 as u64) - 48;
        assert(d == digit_val(v@[i as int]));
        proof {
            lemma_num_val_nonneg(v@.take(i as int));
        }
        if acc > (u64::MAX - d) / 10 {
            proof {
                let t = v@.take(i + 1);
                assert(t.drop_last() =~= v@.take(i as int));
                assert(num_val(t) == acc * 10 + d > u64::MAX);
                if is_numeral(v@) {
                    lemma_num_val_prefix_le(v@, i + 1);
                }
            }
            return None;
        }
        acc = acc * 10 + d;
        i = i + 1;
        assert(v@.take(i as int).drop_last() =~= v@.take(i - 1));
    }
    assert(v@.take(v@.len() as int) =~= v@);
    Some(acc)
}

/// `c` is one of the whitespace characters these inputs use.
pub open spec fn is_space(c: char) -> bool {
    c == ' ' || c == '\t' || c == '\n' || c == '\r'
}

/// `s` without its leading whitespace.
pub open spec fn trim_front(s: Seq<char>) -> Seq<char>
    decreases s.len(),
{
    if s.len() > 0 && is_space(s[0]) {
        trim_front(s.drop_first())
    } else {
        s
    }
}

/// `s` without its trailing whitespace.
pub open spec fn trim_back(s: Seq<char>) -> Seq<char>
    decreases s.len(),
{
    if s.len() > 0 && is_space(s.last()) {
        trim_back(s.drop_last())
    } else {
        s
    }
}

/// `s` without leading and trailing whitespace.
pub open spec fn trim_spec(s: Seq<char>) -> Seq<char> {
    trim_back(trim_front(s))
}

proof fn lemma_trim_front_at(s: Seq<char>, a: int)
    requires
        0 <= a <= s.len(),
        forall|j: int| 0 <= j < a ==> is_space(#[trigger] s[j]),
        a < s.len() ==> !is_space(s[a]),
    ensures
        trim_front(s) == s.skip(a),
    decreases a,
{
    if a == 0 {
        assert(s.skip(0) =~= s);
    } else {
        let t = s.drop_first();
        assert(forall|j: int| 0 <= j < a - 1 ==> #[trigger] t[j] == s[j + 1]);
        assert(a - 1 < t.len() ==> t[a - 1] == s[a]);
        lemma_trim_front_at(t, a - 1);
        assert(t.skip(a - 1) =~= s.skip(a));
    }
}

proof fn lemma_trim_back_at(s: Seq<char>, b: int)
    requires
        0 <= b <= s.len(),
        forall|j: int| b <= j < s.len() ==> is_space(#[trigger] s[j]),
        b > 0 ==> !is_space(s[b - 1]),
    ensures
        trim_back(s) == s.take(b),
    decreases s.len(),
{
    if b == s.len() {
        assert(s.take(b) =~= s);
    } else {
        let t = s.drop_last();
        assert(forall|j: int| 0 <= j < t.len() ==> #[trigger] t[j] == s[j]);
        lemma_trim_back_at(t, b);
        assert(t.take(b) =~= s.take(b));
    }
}

/// Whether `c` is whitespace, as a value.
fn is_space_char(c: char) -> (r: bool)
    ensures
        r == is_space(c),
{
    c == ' ' || c == '\t' || c == '\n' || c == '\r'
}

/// A copy of `v` without leading and trailing whitespace.
#[verifier::loop_isolation(false)]
pub fn trim_chars(v: &Vec<char>) -> (r: Vec<char>)
    ensures
        r@ == trim_spec(v@),
{
    let mut a: usize = 0;
    while a < v.len() && is_space_char(v[a])
        invariant
            0 <= a <= v@.len(),
            forall|j: int| 0 <= j < a ==> is_space(#[trigger] v@[j]),
        decreases v@.len() - a,
    {
        a = a + 1;
    }
    proof {
        lemma_trim_front_at(v@, a as int);
    }
    let mut b: usize = v.len();
    while b > a && is_space_char(v[b - 1])
        invariant
            a <= b <= v@.len(),
            forall|j: int| b <= j < v@.len() ==> is_space(#[trigger] v@[j]),
        decreases b,
    {
        b = b - 1;
    }
    let r = copy_range(v, a, b);
    proof {
        let t = v@.skip(a as int);
        assert(forall|j: int| 0 <= j < t.len() ==> #[trigger] t[j] == v@[j + a]);
        lemma_trim_back_at(t, b - a);
        assert(t.take(b - a) =~= v@.subrange(a as int, b as int));
    }
    r
}

/// `s` split on `sep`: the runs between separators, empty runs kept.
pub open spec fn split_spec(s: Seq<char>, sep: char) -> Seq<Seq<char>>
    decreases s.len(),
    via split_spec_decreases
{
    match find_first(s, sep) {
        None => seq![s],
        Some(i) => seq![s.take(i)] + split_spec(s.skip(i + 1), sep),
    }
}

#[via_fn]
proof fn split_spec_decreases(s: Seq<char>, sep: char) {
    lemma_find_first(s, sep);
}

/// The views of a sequence of character buffers.
pub open spec fn views_of(s: Seq<Vec<char>>) -> Seq<Seq<char>> {
    s.map_values(|p: Vec<char>| p@)
}

/// Split `v` on `sep`, empty pieces kept.
#[verifier::loop_isolation(false)]
pub fn split_chars(v: &Vec<char>, sep: char) -> (r: Vec<Vec<char>>)
    ensures
        views_of(r@) == split_spec(v@, sep),
{
    let mut r: Vec<Vec<char>> = Vec::new();
    let mut start: usize = 0;
    let mut done = false;
    proof {
        assert(v@.skip(0) =~= v@);
        assert(views_of(r@) + split_spec(v@, sep) =~= split_spec(v@, sep));
        assert(v@.len() <= usize::MAX) by {
            assert(v.len() == v@.len());
        }
    }
    while !done
        invariant
            0 <= start <= v@.len(),
            !done ==> views_of(r@) + split_spec(v@.skip(start as int), sep) == split_spec(
                v@,
                sep,
            ),
            done ==> views_of(r@) == split_spec(v@, sep),
        decreases v@.len() - start + (if done {
            0int
        } else {
            1int
        }),
    {
        let ghost pre = r@;
        let ghost rest = v@.skip(start as int);
        proof {
            lemma_find_first(rest, sep);
            assert(forall|k: int| 0 <= k < rest.len() ==> #[trigger] rest[k] == v@[k + start]);
        }
        match find_char(v, start, sep) {
            Some(i) => {
                proof {
                    match find_first(rest, sep) {
                        Some(f) => {
                            if f < i - start {
                                assert(rest[f] == sep);
                                assert(v@[f + start] == sep);
                                assert(false);
                            }
                            if i - start < f {
                                assert(rest[i - start] == v@[i as int]);
                                assert(false);
                            }
                        },
                        None => {
                            assert(rest[i - start] == v@[i as int]);
                            assert(false);
                        },
                    }
                }
                let piece = copy_range(v, start, i);
                proof {
                    assert(piece@ =~= rest.take(i - start));
                    assert(rest.skip(i - start + 1) =~= v@.skip(i + 1));
                }
                r.push(piece);
                proof {
                    assert(views_of(r@) =~= views_of(pre) + seq![rest.take(i - start)]);
                    assert((views_of(pre) + seq![rest.take(i - start)]) + split_spec(
                        v@.skip(i + 1),
                        sep,
                    ) =~= views_of(pre) + (seq![rest.take(i - start)] + split_spec(
                        v@.skip(i + 1),
                        sep,
                    )));
                }
                start = i + 1;
            },
            None => {
                proof {
                    match find_first(rest, sep) {
                        Some(f) => {
                            assert(rest[f] == sep);
                            assert(v@[f + start] == sep);
                            assert(false);
                        },
                        None => {},
                    }
                }
                let piece = copy_range(v, start, v.len());
                proof {
                    assert(piece@ =~= rest);
                }
                r.push(piece);
                proof {
                    assert(views_of(r@) =~= views_of(pre) + seq![rest]);
                }
                done = true;
            },
        }
    }
    r
}

/// The non-empty runs among the pieces, in order.
pub open spec fn nonempty_tokens(toks: Seq<Seq<char>>) -> Seq<Seq<char>>
    decreases toks.len(),
{
    if toks.len() == 0 {
        Seq::empty()
    } else {
        nonempty_tokens(toks.drop_last()) + (if toks.last().len() > 0 {
            seq![toks.last()]
        } else {
            Seq::empty()
        })
    }
}

/// Keep only the non-empty pieces.
#[verifier::loop_isolation(false)]
pub fn nonempty_of(toks: Vec<Vec<char>>) -> (r: Vec<Vec<char>>)
    ensures
        views_of(r@) == nonempty_tokens(views_of(toks@)),
{
    let ghost all = views_of(toks@);
    let mut toks = toks;
    let mut r: Vec<Vec<char>> = Vec::new();
    let ghost mut i: int = 0;
    proof {
        assert(nonempty_tokens(all.take(0)) =~= Seq::<Seq<char>>::empty());
        assert(views_of(r@) =~= Seq::<Seq<char>>::empty());
    }
    while toks.len() > 0
        invariant
            0 <= i <= all.len(),
            toks@.len() == all.len() - i,
            forall|k: int| 0 <= k < toks@.len() ==> #[trigger] toks@[k]@ == all[k + i],
            views_of(r@) == nonempty_tokens(all.take(i)),
        decreases toks@.len(),
    {
        let ghost pre = r@;
        let ghost tpre = toks@;
        let t = toks.remove(0);
        proof {
            assert(t@ == all[i]);
            assert(forall|k: int| 0 <= k < toks@.len() ==> toks@[k] == tpre[k + 1]);
            assert(all.take(i + 1).drop_last() =~= all.take(i));
            assert(all.take(i + 1).last() == all[i]);
        }
        if t.len() > 0 {
            r.push(t);
            proof {
                assert(views_of(r@) =~= views_of(pre) + seq![all[i]]);
            }
        } else {
            proof {
                assert(views_of(pre) + Seq::<Seq<char>>::empty() =~= views_of(pre));
            }
        }
        proof {
            i = i + 1;
        }
    }
    proof {
        assert(all.take(all.len() as int) =~= all);
    }
    r
}

/// Every piece is a numeral that fits in `u64`.
pub open spec fn all_numerals_u64(toks: Seq<Seq<char>>) -> bool {
    forall|i: int|
        0 <= i < toks.len() ==> is_numeral(#[trigger] toks[i]) && num_val(toks[i]) <= u64::MAX
}

/// Parse every piece as a `u64` numeral; `Some` exactly when all parse.
#[verifier::loop_isolation(false)]
pub fn parse_u64_all(toks: &Vec<Vec<char>>) -> (r: Option<Vec<u64>>)
    ensures
        match r {
            Some(ns) => all_numerals_u64(views_of(toks@)) && ns@.len() == toks@.len() && forall|
                i: int,
            | 0 <= i < ns@.len() ==> #[trigger] ns@[i] == num_val(views_of(toks@)[i]),
            None => !all_numerals_u64(views_of(toks@)),
        },
{
    let ghost all = views_of(toks@);
    let mut r: Vec<u64> = Vec::new();
    let mut i: usize = 0;
    while i < toks.len()
        invariant
            0 <= i <= toks@.len(),
            r@.len() == i,
            forall|k: int|
                0 <= k < i ==> is_numeral(#[trigger] all[k]) && num_val(all[k]) <= u64::MAX,
            forall|k: int| 0 <= k < i ==> #[trigger] r@[k] == num_val(all[k]),
        decreases toks@.len() - i,
    {
        match parse_u64(&toks[i]) {
            Some(n) => {
                r.push(n);
            },
            None => {
                proof {
                    if is_numeral(all[i as int]) {
                        lemma_num_val_nonneg(all[i as int]);
                    }
                }
                return None;
            },
        }
        i = i + 1;
    }
    Some(r)
}


/// Every piece is a numeral that fits in `u32`.
pub open spec fn all_numerals_u32(toks: Seq<Seq<char>>) -> bool {
    forall|i: int|
        0 <= i < toks.len() ==> is_numeral(#[trigger] toks[i]) && num_val(toks[i]) <= u32::MAX
}

/// Parse every piece as a `u32` numeral; `Some` exactly when all parse.
#[verifier::loop_isolation(false)]
pub fn parse_u32_all(toks: &Vec<Vec<char>>) -> (r: Option<Vec<u32>>)
    ensures
        match r {
            Some(ns) => all_numerals_u32(views_of(toks@)) && ns@.len() == toks@.len() && forall|
                i: int,
            | 0 <= i < ns@.len() ==> #[trigger] ns@[i] == num_val(views_of(toks@)[i]),
            None => !all_numerals_u32(views_of(toks@)),
        },
{
    let ghost all = views_of(toks@);
    let mut r: Vec<u32> = Vec::new();
    let mut i: usize = 0;
    while i < toks.len()
        invariant
            0 <= i <= toks@.len(),
            r@.len() == i,
            forall|k: int|
                0 <= k < i ==> is_numeral(#[trigger] all[k]) && num_val(all[k]) <= u32::MAX,
            forall|k: int| 0 <= k < i ==> #[trigger] r@[k] == num_val(all[k]),
        decreases toks@.len() - i,
    {
        match parse_u32(&toks[i]) {
            Some(n) => {
                r.push(n);
            },
            None => {
                proof {
                    if is_numeral(all[i as int]) {
                        lemma_num_val_nonneg(all[i as int]);
                    }
                }
                return None;
            },
        }
        i = i + 1;
    }
    Some(r)
}

/// The numeric pieces of a prefixed number line: what follows the first
/// `:`, trimmed and split on blanks.
pub open spec fn num_line_tokens(s: Seq<char>) -> Seq<Seq<char>> {
    match find_first(s, ':') {
        Some(k) => nonempty_tokens(split_spec(trim_spec(s.skip(k + 1)), ' ')),
        None => Seq::empty(),
    }
}

/// The line has a `:` and every piece after it is a `u64` numeral.
pub open spec fn num_line_ok(s: Seq<char>) -> bool {
    find_first(s, ':') is Some && all_numerals_u64(num_line_tokens(s))
}

/// Parse a line of the shape `Prefix: 1 2 3` into its numbers.  Fails
/// exactly when the `:` is missing or a piece after it is not a `u64`
/// numeral.
pub fn parse_num_line_with_prefix(line: &str) -> (r: Result<Vec<u64>, Error>)
    ensures
        match r {
            Ok(ns) => num_line_ok(line@) && ns@.len() == num_line_tokens(line@).len() && forall|
                i: int,
            |
                0 <= i < ns@.len() ==> #[trigger] ns@[i] == num_val(num_line_tokens(line@)[i]),
            Err(_) => !num_line_ok(line@),
        },
{
    let v = chars_of(line);
    match find_char(&v, 0, ':') {
        None => {
            proof {
                lemma_find_first_none(v@, ':');
            }
            Err(Error::InvalidInput(String::from_str("number line is missing its ':' prefix")))
        },
        Some(k) => {
            proof {
                lemma_find_first_at(v@, ':', k as int);
            }
            let n = v.len();
            let tail = copy_range(&v, k + 1, n);
            proof {
                assert(tail@ =~= v@.skip(k + 1));
            }
            let trimmed = trim_chars(&tail);
            let pieces = split_chars(&trimmed, ' ');
            let nums = nonempty_of(pieces);
            match parse_u64_all(&nums) {
                Some(ns) => Ok(ns),
                None => Err(
                    Error::InvalidInput(String::from_str("number line holds a non-numeric piece")),
                ),
            }
        },
    }
}

/// Parse an unsigned decimal numeral into `u32`.
pub fn parse_u32(v: &Vec<char>) -> (r: Option<u32>)
    ensures
        match r {
            Some(n) => is_numeral(v@) && n == num_val(v@),
            None => !(is_numeral(v@) && num_val(v@) <= u32::MAX),
        },
{
    match parse_u64(v) {
        Some(n) => {
            if n <= 0xffff_ffff {
                Some(n as u32)
            } else {
                None
            }
        },
        None => {
            proof {
                if is_numeral(v@) {
                    lemma_num_val_nonneg(v@);
                }
            }
            None
        },
    }
}

} // verus!
