//! Desert navigation: a direction string and a node map; part 1 walks from
//! `AAA` until a node ending in `Z`, part 2 combines the walk lengths of all
//! `A`-nodes through their prime factors.

use vstd::prelude::*;

use crate::Error;
use crate::parse::{chars_of, copy_range, find_char, find_first, trim_chars, trim_spec};
use vstd::arithmetic::div_mod::lemma_fundamental_div_mod;

verus! {

/// The node names of the map entries.
pub open spec fn entry_views(es: Seq<(Vec<char>, Vec<char>, Vec<char>)>) -> Seq<
    (Seq<char>, Seq<char>, Seq<char>),
> {
    es.map_values(|e: (Vec<char>, Vec<char>, Vec<char>)| (e.0@, e.1@, e.2@))
}

/// The left/right pair stored for a node; with the same node listed twice,
/// the later entry wins.
pub open spec fn lookup(
    es: Seq<(Seq<char>, Seq<char>, Seq<char>)>,
    node: Seq<char>,
) -> Option<(Seq<char>, Seq<char>)>
    decreases es.len(),
{
    if es.len() == 0 {
        None
    } else if es.last().0 == node {
        Some((es.last().1, es.last().2))
    } else {
        lookup(es.drop_last(), node)
    }
}

/// `s` without any parentheses characters.
pub open spec fn strip_parens(s: Seq<char>) -> Seq<char>
    decreases s.len(),
{
    if s.len() == 0 {
        Seq::empty()
    } else {
        strip_parens(s.drop_last()) + (if s.last() == '(' || s.last() == ')' {
            Seq::empty()
        } else {
            seq![s.last()]
        })
    }
}

/// The first position of `", "` in `s`, if any.
pub open spec fn find_comma_space(s: Seq<char>) -> Option<int>
    decreases s.len(),
{
    if s.len() < 2 {
        None
    } else if s[0] == ',' && s[1] == ' ' {
        Some(0)
    } else {
        match find_comma_space(s.drop_first()) {
            Some(i) => Some(i + 1),
            None => None,
        }
    }
}

proof fn lemma_find_comma_space(s: Seq<char>)
    ensures
        match find_comma_space(s) {
            Some(i) => 0 <= i && i + 2 <= s.len() && s[i] == ',' && s[i + 1] == ' ' && forall|
                j: int,
            | 0 <= j < i ==> !((#[trigger] s[j]) == ',' && s[j + 1] == ' '),
            None => forall|j: int|
                0 <= j && j + 1 < s.len() ==> !((#[trigger] s[j]) == ',' && s[j + 1] == ' '),
        },
    decreases s.len(),
{
    if s.len() >= 2 && !(s[0] == ',' && s[1] == ' ') {
        let t = s.drop_first();
        lemma_find_comma_space(t);
        assert(forall|j: int| 0 <= j < s.len() - 1 ==> s[j + 1] == #[trigger] t[j]);
        match find_comma_space(t) {
            Some(i) => {
                assert forall|j: int| 0 <= j < i + 1 implies !((#[trigger] s[j]) == ',' && s[j
                    + 1] == ' ') by {
                    if j >= 1 {
                        assert(s[j] == t[j - 1] && s[j + 1] == t[j]);
                    }
                }
            },
            None => {
                assert forall|j: int| 0 <= j && j + 1 < s.len() implies !((#[trigger] s[j]) == ','
                    && s[j + 1] == ' ') by {
                    if j >= 1 {
                        assert(s[j] == t[j - 1] && s[j + 1] == t[j]);
                    }
                }
            },
        }
    }
}

/// The trimmed, paren-stripped right-hand side of an entry line.
pub open spec fn entry_rhs(s: Seq<char>) -> Seq<char> {
    match find_first(s, '=') {
        Some(k) => trim_spec(strip_parens(s.skip(k + 1))),
        None => Seq::empty(),
    }
}

/// The line is a well-formed map entry: `NODE = (LEFT, RIGHT)`.
pub open spec fn entry_ok(s: Seq<char>) -> bool {
    find_first(s, '=') is Some && find_comma_space(entry_rhs(s)) is Some
}

/// The node, left and right names an entry line denotes.
pub open spec fn entry_of(s: Seq<char>) -> (Seq<char>, Seq<char>, Seq<char>) {
    let node = trim_spec(s.take(find_first(s, '=')->0));
    let t = entry_rhs(s);
    let m = find_comma_space(t)->0;
    (node, t.take(m), t.skip(m + 2))
}

/// Every line from the third on is a map entry.
pub open spec fn map_ok(ls: Seq<String>) -> bool {
    forall|i: int| 2 <= i < ls.len() ==> entry_ok(#[trigger] ls[i]@)
}

/// The entries the input denotes, in line order.
pub open spec fn entries_spec(ls: Seq<String>) -> Seq<(Seq<char>, Seq<char>, Seq<char>)> {
    Seq::new(
        if ls.len() >= 2 {
            (ls.len() - 2) as nat
        } else {
            0
        },
        |i: int| entry_of(ls[i + 2]@),
    )
}

/// Parse one entry line.
#[verifier::loop_isolation(false)]
fn parse_entry(line: &str) -> (r: Result<(Vec<char>, Vec<char>, Vec<char>), Error>)
    ensures
        match r {
            Ok(e) => entry_ok(line@) && (e.0@, e.1@, e.2@) == entry_of(line@),
            Err(_) => !entry_ok(line@),
        },
{
    let v = chars_of(line);
    let k = match find_char(&v, 0, '=') {
        Some(k) => k,
        None => {
            proof {
                crate::parse::lemma_find_first_none(v@, '=');
            }
            return Err(Error::InvalidInput(String::from_str("invalid format on line")));
        },
    };
    proof {
        crate::parse::lemma_find_first_at(v@, '=', k as int);
    }
    let head = copy_range(&v, 0, k);
    proof {
        assert(head@ =~= v@.take(k as int));
    }
    let node_chars = trim_chars(&head);
    let n = v.len();
    let rhs_raw = copy_range(&v, k + 1, n);
    proof {
        assert(rhs_raw@ =~= v@.skip(k + 1));
    }
    // strip the parentheses
    let mut stripped: Vec<char> = Vec::new();
    let mut i: usize = 0;
    while i < rhs_raw.len()
        invariant
            0 <= i <= rhs_raw@.len(),
            stripped@ == strip_parens(rhs_raw@.take(i as int)),
        decreases rhs_raw@.len() - i,
    {
        proof {
            assert(rhs_raw@.take(i + 1).drop_last() =~= rhs_raw@.take(i as int));
            assert(rhs_raw@.take(i + 1).last() == rhs_raw@[i as int]);
        }
        let c = rhs_raw[i];
        if c != '(' && c != ')' {
            stripped.push(c);
            proof {
                assert(stripped@ =~= strip_parens(rhs_raw@.take(i as int)) + seq![
                    rhs_raw@[i as int],
                ]);
            }
        } else {
            proof {
                assert(stripped@ =~= strip_parens(rhs_raw@.take(i as int)) + Seq::<char>::empty());
            }
        }
        i = i + 1;
    }
    proof {
        assert(rhs_raw@.take(rhs_raw@.len() as int) =~= rhs_raw@);
    }
    let t = trim_chars(&stripped);
    let ghost ts = entry_rhs(line@);
    proof {
        assert(t@ == ts);
        lemma_find_comma_space(ts);
    }
    // find ", "
    let mut m: usize = 0;
    let mut found = false;
    while !found && t.len() - m > 1
        invariant
            0 <= m,
            t@ == ts,
            !found ==> m <= ts.len(),
            forall|j: int| 0 <= j < m ==> !((#[trigger] ts[j]) == ',' && ts[j + 1] == ' '),
            found ==> m + 2 <= ts.len() && ts[m as int] == ',' && ts[m + 1] == ' ',
        decreases ts.len() - m + (if found {
            0int
        } else {
            1int
        }),
    {
        if t[m] == ',' && t[m + 1] == ' ' {
            found = true;
        } else {
            m = m + 1;
        }
    }
    if !found {
        proof {
            match find_comma_space(ts) {
                Some(f) => {
                    assert(!(ts[f] == ',' && ts[f + 1] == ' '));
                    assert(false);
                },
                None => {},
            }
        }
        return Err(Error::InvalidInput(String::from_str("invalid format on line")));
    }
    proof {
        match find_comma_space(ts) {
            Some(f) => {
                if f < m {
                    assert(ts[f] == ',' && ts[f + 1] == ' ');
                    assert(false);
                }
                if m < f {
                    assert(!(ts[m as int] == ',' && ts[m + 1] == ' '));
                    assert(false);
                }
            },
            None => {
                assert(false);
            },
        }
    }
    let tn = t.len();
    let left = copy_range(&t, 0, m);
    let right = copy_range(&t, m + 2, tn);
    proof {
        assert(left@ =~= ts.take(m as int));
        assert(right@ =~= ts.skip(m + 2));
    }
    Ok((node_chars, left, right))
}

/// Whether two character buffers hold the same characters.
#[verifier::loop_isolation(false)]
fn eq_chars(a: &Vec<char>, b: &Vec<char>) -> (r: bool)
    ensures
        r == (a@ == b@),
{
    if a.len() != b.len() {
        return false;
    }
    let mut i: usize = 0;
    while i < a.len()
        invariant
            0 <= i <= a@.len(),
            a@.len() == b@.len(),
            forall|j: int| 0 <= j < i ==> a@[j] == b@[j],
        decreases a@.len() - i,
    {
        if a[i] != b[i] {
            return false;
        }
        i = i + 1;
    }
    proof {
        assert(a@ =~= b@);
    }
    true
}

/// Parse the direction line and the node map.  The input holds at least the
/// direction line; machine limits aside, a malformed entry line is the one
/// failure.
#[verifier::loop_isolation(false)]
pub fn parse_map(lines: &Vec<String>) -> (r: Result<(String, Vec<(Vec<char>, Vec<char>, Vec<char>)>), Error>)
    requires
        lines@.len() >= 1,
    ensures
        match r {
            Ok((dirs, es)) => map_ok(lines@) && dirs@ == lines@[0]@ && entry_views(es@)
                == entries_spec(lines@),
            Err(_) => !map_ok(lines@),
        },
{
    let directions = lines[0].clone();
    let mut es: Vec<(Vec<char>, Vec<char>, Vec<char>)> = Vec::new();
    let mut i: usize = 2;
    while i < lines.len()
        invariant
            2 <= i <= lines@.len() || (lines@.len() < 2 && i == 2),
            es@.len() == (if i >= 2 {
                i - 2
            } else {
                0
            }),
            forall|k: int| 2 <= k < i ==> entry_ok(#[trigger] lines@[k]@),
            forall|k: int|
                0 <= k < es@.len() ==> (#[trigger] entry_views(es@)[k]) == entry_of(
                    lines@[k + 2]@,
                ),
        decreases lines@.len() - i,
    {
        match parse_entry(lines[i].as_str()) {
            Ok(e) => {
                let ghost pre = es@;
                let ghost ev = (e.0@, e.1@, e.2@);
                es.push(e);
                proof {
                    assert forall|k: int| 0 <= k < es@.len() implies (#[trigger] entry_views(
                        es@,
                    )[k]) == entry_of(lines@[k + 2]@) by {
                        if k < pre.len() {
                            assert(es@[k] == pre[k]);
                            assert(entry_views(pre)[k] == entry_of(lines@[k + 2]@));
                        } else {
                            assert(entry_views(es@)[k] == ev);
                        }
                    }
                }
            },
            Err(e) => {
                return Err(e);
            },
        }
        i = i + 1;
    }
    proof {
        assert(entry_views(es@) =~= entries_spec(lines@));
    }
    Ok((directions, es))
}

/// One step from `node` under the direction at `di`: the stored left or
/// right neighbour; missing nodes, exhausted directions and unknown
/// direction characters fail.
pub open spec fn step_spec(
    es: Seq<(Seq<char>, Seq<char>, Seq<char>)>,
    dirs: Seq<char>,
    node: Seq<char>,
    di: int,
) -> Option<Seq<char>> {
    match lookup(es, node) {
        None => None,
        Some(lr) => if 0 <= di < dirs.len() {
            if dirs[di] == 'R' {
                Some(lr.1)
            } else if dirs[di] == 'L' {
                Some(lr.0)
            } else {
                None
            }
        } else {
            None
        },
    }
}

/// Find a node's stored pair, the later of two equal keys winning.
#[verifier::loop_isolation(false)]
fn lookup_exec(es: &Vec<(Vec<char>, Vec<char>, Vec<char>)>, node: &Vec<char>) -> (r: Option<
    (Vec<char>, Vec<char>),
>)
    ensures
        match r {
            Some(lr) => lookup(entry_views(es@), node@) == Some((lr.0@, lr.1@)),
            None => lookup(entry_views(es@), node@) is None,
        },
{
    let ghost evs = entry_views(es@);
    let mut k: usize = es.len();
    proof {
        assert(evs.take(es@.len() as int) =~= evs);
    }
    while k > 0
        invariant
            0 <= k <= es@.len(),
            lookup(evs, node@) == lookup(evs.take(k as int), node@),
        decreases k,
    {
        proof {
            assert(evs.take(k as int).drop_last() =~= evs.take(k - 1));
            assert(evs.take(k as int).last() == evs[k - 1]);
        }
        let e = &es[k - 1];
        if eq_chars(&e.0, node) {
            proof {
                assert(evs[k - 1].0 == node@);
            }
            let l = copy_range(&e.1, 0, e.1.len());
            let r = copy_range(&e.2, 0, e.2.len());
            proof {
                assert(l@ =~= e.1@);
                assert(r@ =~= e.2@);
            }
            return Some((l, r));
        }
        proof {
            assert(evs[k - 1].0 != node@);
        }
        k = k - 1;
    }
    proof {
        assert(evs.take(0) =~= Seq::<(Seq<char>, Seq<char>, Seq<char>)>::empty());
    }
    None
}

/// Take one step through the map.
pub fn take_step(
    node: &Vec<char>,
    directions: &String,
    direction_index: usize,
    map: &Vec<(Vec<char>, Vec<char>, Vec<char>)>,
) -> (r: Result<Vec<char>, Error>)
    ensures
        match r {
            Ok(next) => step_spec(entry_views(map@), directions@, node@, direction_index as int)
                == Some(next@),
            Err(_) => step_spec(entry_views(map@), directions@, node@, direction_index as int)
                is None,
        },
{
    let lr = match lookup_exec(map, node) {
        Some(lr) => lr,
        None => {
            return Err(Error::InvalidInput(String::from_str("node is not in map")));
        },
    };
    let dn = directions.as_str().unicode_len();
    if direction_index >= dn {
        return Err(Error::InvalidInput(String::from_str("direction index out of range")));
    }
    let c = directions.as_str().get_char(direction_index);
    if c == 'R' {
        Ok(lr.1)
    } else if c == 'L' {
        Ok(lr.0)
    } else {
        Err(Error::InvalidInput(String::from_str("invalid direction character")))
    }
}

/// The node name ends in the given letter.
pub open spec fn ends_in(s: Seq<char>, c: char) -> bool {
    s.len() > 0 && s.last() == c
}

/// Whether the node name ends in `c`.
fn ends_in_exec(node: &Vec<char>, c: char) -> (r: bool)
    ensures
        r == ends_in(node@, c),
{
    let n = node.len();
    if n == 0 {
        return false;
    }
    node[n - 1] == c
}

/// How many steps a walk from `node` takes to reach a name ending in `Z`,
/// stepping with the direction at `di` and wrapping around, with at most
/// `fuel` steps allowed; `None` when a step fails or the fuel runs out.
pub open spec fn sleep_rec(
    es: Seq<(Seq<char>, Seq<char>, Seq<char>)>,
    dirs: Seq<char>,
    node: Seq<char>,
    di: int,
    fuel: nat,
) -> Option<int>
    decreases fuel,
{
    if ends_in(node, 'Z') {
        Some(0)
    } else if fuel == 0 {
        None
    } else {
        match step_spec(es, dirs, node, di) {
            None => None,
            Some(next) => {
                let ndi = if dirs.len() > 0 {
                    (di + 1) % (dirs.len() as int)
                } else {
                    0
                };
                match sleep_rec(es, dirs, next, ndi, (fuel - 1) as nat) {
                    Some(k) => Some(k + 1),
                    None => None,
                }
            },
        }
    }
}

/// The step budget given to one walk: enough to visit every node at every
/// direction position once.
pub open spec fn walk_fuel(es_len: int, dirs_len: int) -> int {
    es_len * dirs_len + es_len + dirs_len
}

/// Walk from `start` until a node ending in `Z`, counting the steps.  A walk
/// that runs longer than the step budget cannot terminate and fails, as does
/// a walk off the map.
#[verifier::loop_isolation(false)]
pub fn find_sleep(
    start: Vec<char>,
    directions: &String,
    map: &Vec<(Vec<char>, Vec<char>, Vec<char>)>,
) -> (r: Result<u64, Error>)
    ensures
        ({
            let fuel = walk_fuel(map@.len() as int, directions@.len() as int) as nat;
            match r {
                Ok(steps) => sleep_rec(entry_views(map@), directions@, start@, 0, fuel) == Some(
                    steps as int,
                ),
                Err(_) => (sleep_rec(entry_views(map@), directions@, start@, 0, fuel) is None || !(
                sleep_rec(entry_views(map@), directions@, start@, 0, fuel)->0 <= u64::MAX)),
            }
        }),
{
    let ghost evs = entry_views(map@);
    let ghost dirs = directions@;
    let ghost fuel0 = walk_fuel(map@.len() as int, directions@.len() as int) as nat;
    proof {
        assert(walk_fuel(map@.len() as int, directions@.len() as int) >= 0) by (nonlinear_arith)
            requires
                map@.len() >= 0,
                directions@.len() >= 0,
        ;
    }
    let m128: u128 = map.len() as u128;
    let d128: u128 = directions.as_str().unicode_len() as u128;
    proof {
        assert(m128 * d128 + m128 + d128 <= u128::MAX && m128 * d128 >= 0) by (nonlinear_arith)
            requires
                0 <= m128 < 0x1_0000_0000_0000_0000,
                0 <= d128 < 0x1_0000_0000_0000_0000,
        ;
    }
    let bound: u128 = m128 * d128 + m128 + d128;
    proof {
        assert(bound == fuel0);
    }
    let mut current = start;
    let mut direction_index: usize = 0;
    let mut steps: u128 = 0;
    while steps < bound
        invariant
            0 <= steps <= bound == fuel0,
            sleep_rec(evs, dirs, start@, 0, fuel0) == (match sleep_rec(
                evs,
                dirs,
                current@,
                direction_index as int,
                (fuel0 - steps) as nat,
            ) {
                Some(k) => Some(k + steps),
                None => None,
            }),
        decreases bound - steps,
    {
        if ends_in_exec(&current, 'Z') {
            proof {
                assert(sleep_rec(evs, dirs, current@, direction_index as int, (fuel0
                    - steps) as nat) == Some(0int));
            }
            if steps > u64::MAX as u128 {
                return Err(Error::InvalidInput(String::from_str("walk is too long")));
            }
            return Ok(steps as u64);
        }
        let next = match take_step(&current, directions, direction_index, map) {
            Ok(n) => n,
            Err(e) => {
                proof {
                    assert(sleep_rec(evs, dirs, current@, direction_index as int, (fuel0
                        - steps) as nat) is None);
                }
                return Err(e);
            },
        };
        // a successful step pins the direction index inside the string
        proof {
            assert(0 <= direction_index < dirs.len());
        }
        let dn = directions.as_str().unicode_len();
        current = next;
        steps = steps + 1;
        direction_index = (direction_index + 1) % dn;
    }
    proof {
        assert(sleep_rec(evs, dirs, current@, direction_index as int, (fuel0 - steps) as nat)
            is None || ends_in(current@, 'Z'));
    }
    if ends_in_exec(&current, 'Z') {
        if steps > u64::MAX as u128 {
            return Err(Error::InvalidInput(String::from_str("walk is too long")));
        }
        return Ok(steps as u64);
    }
    Err(Error::InvalidInput(String::from_str("no end node reached within the step budget")))
}


/// `n` has no divisor other than one and itself.
pub open spec fn spec_prime(n: int) -> bool {
    n >= 2 && forall|d: int| 2 <= d < n ==> #[trigger] (n % d) != 0
}

/// Divisibility carries across: a divisor of a divisor of `n` divides `n`.
proof fn lemma_mod_trans(n: int, a: int, b: int)
    requires
        a >= 1,
        b >= 1,
        a % b == 0,
        n % a == 0,
    ensures
        n % b == 0,
{
    lemma_fundamental_div_mod(n, a);
    lemma_fundamental_div_mod(a, b);
    assert(n == ((a / b) * (n / a)) * b) by (nonlinear_arith)
        requires
            n == a * (n / a) + n % a,
            n % a == 0,
            a == b * (a / b) + a % b,
            a % b == 0,
    ;
    vstd::arithmetic::div_mod::lemma_mod_multiples_basic((a / b) * (n / a), b);
}

/// A proper divisor pairs with a cofactor, and the smaller of the two
/// squares to at most `n`.
proof fn lemma_small_divisor(n: int, d: int)
    requires
        2 <= d < n,
        n % d == 0,
    ensures
        exists|e: int| 2 <= e && e * e <= n && #[trigger] (n % e) == 0,
{
    lemma_fundamental_div_mod(n, d);
    let e = n / d;
    assert(n == d * e);
    assert(e >= 1) by (nonlinear_arith)
        requires
            n == d * e,
            n > d,
            d >= 2,
    ;
    if e == 1 {
        assert(n == d) by (nonlinear_arith)
            requires
                n == d * e,
                e == 1,
        ;
        assert(false);
    }
    assert(n % e == 0) by {
        vstd::arithmetic::div_mod::lemma_mod_multiples_basic(d, e);
        assert(d * e == n);
    }
    if d * d <= n {
        assert(2 <= d && d * d <= n && n % d == 0);
    } else {
        assert(e * e <= n) by (nonlinear_arith)
            requires
                n == d * e,
                d * d > n,
                d >= 2,
                e >= 2,
        ;
        assert(2 <= e && e * e <= n && n % e == 0);
    }
}

/// Whether `n` is prime.
#[verifier::loop_isolation(false)]
pub fn is_prime(n: u64) -> (r: bool)
    ensures
        r == spec_prime(n as int),
{
    if n == 2 || n == 3 {
        assert(spec_prime(n as int)) by {
            assert(forall|d: int| 2 <= d < n as int ==> #[trigger] (n as int % d) != 0) by {
                assert(n as int == 2 || n as int == 3);
                assert(n as int == 3 ==> (3int % 2int) != 0);
            }
        }
        return true;
    }
    if n <= 1 {
        return false;
    }
    if n % 2 == 0 {
        assert((n as int) % 2int != 0 ==> false);
        return false;
    }
    if n % 3 == 0 {
        return false;
    }
    proof {
        assert forall|d: int| 2 <= d < 5 implies #[trigger] ((n as int) % d) != 0 by {
            if d == 4 && (n as int) % 4int == 0 {
                lemma_mod_trans(n as int, 4, 2);
            }
        }
    }
    let mut i: u64 = 5;
    while i <= n / i
        invariant
            5 <= i,
            i % 6 == 5,
            n >= 5,
            n % 2 != 0,
            n % 3 != 0,
            forall|d: int| 2 <= d < i ==> #[trigger] ((n as int) % d) != 0,
        decreases n + 6 - i,
    {
        proof {
            lemma_fundamental_div_mod(n as int, i as int);
            vstd::arithmetic::div_mod::lemma_mod_bound(n as int, i as int);
            assert(i * i <= n) by (nonlinear_arith)
                requires
                    i >= 1,
                    (n as int) / (i as int) >= (i as int),
                    n as int == (i as int) * (n as int / i as int) + (n as int) % (i as int),
                    (n as int) % (i as int) >= 0,
            ;
        }
        if n % i == 0 {
            proof {
                assert(i < n) by (nonlinear_arith)
                    requires
                        i >= 5,
                        i * i <= n,
                ;
            }
            return false;
        }
        if n % (i + 2) == 0 {
            proof {
                assert(i + 2 < n) by (nonlinear_arith)
                    requires
                        i >= 5,
                        i * i <= n as int,
                ;
            }
            return false;
        }
        proof {
            // the four skipped candidates in [i, i + 6) share a factor with 6
            assert forall|d: int| 2 <= d < i + 6 implies #[trigger] ((n as int) % d) != 0 by {
                if d >= i {
                    if d == i || d == i + 2 {
                    } else {
                        // d is i+1, i+3 or i+5 (even) or i+4 (multiple of 3)
                        if d % 2 == 0 {
                            if (n as int) % d == 0 {
                                lemma_mod_trans(n as int, d, 2);
                            }
                        } else {
                            assert(d == i + 4 || d == i + 1 || d == i + 3 || d == i + 5);
                            assert(d % 2 != 0 ==> d == i + 4 || d == i + 1 || d == i + 3 || d == i
                                + 5);
                            // with i = 6k + 5: i+1, i+3, i+5 are even; i+4 = 6k + 9
                            assert(i % 6 == 5 ==> (i + 1) % 2 == 0 && (i + 3) % 2 == 0 && (i + 5)
                                % 2 == 0 && (i + 4) % 3 == 0) by (nonlinear_arith)
                                requires
                                    i % 6 == 5,
                                    i >= 5,
                            ;
                            assert(d == i + 4);
                            if (n as int) % d == 0 {
                                lemma_mod_trans(n as int, d, 3);
                            }
                        }
                    }
                }
            }
        }
        proof {
            assert(i <= 0x1_0000_0000u64) by (nonlinear_arith)
                requires
                    i as int * i as int <= 0xffff_ffff_ffff_ffffu64,
                    i >= 0,
            ;
        }
        i = i + 6;
    }
    proof {
        assert((n as int) / (i as int) < i);
        lemma_fundamental_div_mod(n as int, i as int);
        vstd::arithmetic::div_mod::lemma_mod_bound(n as int, i as int);
        assert((i as int) * (i as int) > n as int) by (nonlinear_arith)
            requires
                i >= 1,
                (n as int) / (i as int) < (i as int),
                n as int == (i as int) * (n as int / i as int) + (n as int) % (i as int),
                (n as int) % (i as int) < i as int,
        ;
        assert forall|d: int| 2 <= d < n as int implies #[trigger] ((n as int) % d) != 0 by {
            if (n as int) % d == 0 {
                lemma_small_divisor(n as int, d);
                let e = choose|e: int| 2 <= e && e * e <= n as int && #[trigger] ((n as int) % e)
                    == 0;
                assert(e < i) by (nonlinear_arith)
                    requires
                        e * e <= n as int,
                        (i as int) * (i as int) > n as int,
                        e >= 2,
                        i >= 5,
                ;
            }
        }
    }
    true
}

/// The cofactor of `maybe_factor` in `number`, when it divides evenly.
pub fn is_factor(number: u64, maybe_factor: u64) -> (r: Option<u64>)
    requires
        maybe_factor >= 1,
    ensures
        match r {
            Some(q) => number as int % maybe_factor as int == 0 && q == number as int
                / maybe_factor as int,
            None => number as int % maybe_factor as int != 0,
        },
{
    if number % maybe_factor == 0 {
        Some(number / maybe_factor)
    } else {
        None
    }
}

/// The prime factors the scan collects: counting `mf` up while it does not
/// pass `rest`, a prime `mf` dividing `number` is recorded and shrinks
/// `rest` to the cofactor.
pub open spec fn factors_rec(number: int, mf: int, rest: int) -> Seq<int>
    decreases vstd::math::max(rest + 1 - mf, 0) when mf >= 2 via factors_rec_decreases
{
    if mf > rest {
        Seq::empty()
    } else if spec_prime(mf) && number % mf == 0 {
        seq![mf] + factors_rec(number, mf + 1, vstd::math::min(number / mf, rest))
    } else {
        seq![] + factors_rec(number, mf + 1, rest)
    }
}

#[via_fn]
proof fn factors_rec_decreases(number: int, mf: int, rest: int) {
}

/// The distinct prime factors the counting scan records for `number`.
#[verifier::loop_isolation(false)]
pub fn find_factors(number: u64) -> (r: Vec<u64>)
    ensures
        r@.map_values(|x: u64| x as int) == factors_rec(number as int, 2, number as int),
{
    let mut maybe_factor: u128 = 2;
    let mut rest: u64 = number;
    let mut factors: Vec<u64> = Vec::new();
    while (rest as u128) >= maybe_factor
        invariant
            2 <= maybe_factor <= u64::MAX as u128 + 1,
            rest <= number,
            (maybe_factor as int) * (rest as int) >= number as int,
            factors@.map_values(|x: u64| x as int) + factors_rec(
                number as int,
                maybe_factor as int,
                rest as int,
            ) == factors_rec(number as int, 2, number as int),
        decreases vstd::math::max(rest as int + 2 - maybe_factor as int, 0),
    {
        let ghost pre = factors@.map_values(|x: u64| x as int);
        let mf64: u64 = maybe_factor as u64;
        proof {
            assert(mf64 == maybe_factor);
        }
        if is_prime(mf64) {
            match is_factor(number, mf64) {
                Some(new_rest) => {
                    proof {
                        lemma_fundamental_div_mod(number as int, maybe_factor as int);
                        vstd::arithmetic::div_mod::lemma_div_pos_is_pos(
                            number as int,
                            maybe_factor as int,
                        );
                        assert(number as int / maybe_factor as int <= rest as int) by (
                        nonlinear_arith)
                            requires
                                number as int == (maybe_factor as int) * (number as int
                                    / maybe_factor as int),
                                (maybe_factor as int) * (rest as int) >= number as int,
                                maybe_factor >= 2,
                                number as int / maybe_factor as int >= 0,
                                rest >= 0,
                        ;
                        assert((maybe_factor as int + 1) * ((number as int) / (
                        maybe_factor as int)) >= number as int) by (nonlinear_arith)
                            requires
                                number as int == (maybe_factor as int) * (number as int
                                    / maybe_factor as int),
                                number as int / maybe_factor as int >= 0,
                        ;
                        assert(vstd::math::min(
                            number as int / maybe_factor as int,
                            rest as int,
                        ) == number as int / maybe_factor as int);
                    }
                    rest = new_rest;
                    factors.push(mf64);
                    proof {
                        assert(factors@.map_values(|x: u64| x as int) =~= pre + seq![
                            maybe_factor as int,
                        ]);
                        assert((pre + seq![maybe_factor as int]) + factors_rec(
                            number as int,
                            maybe_factor as int + 1,
                            rest as int,
                        ) =~= pre + (seq![maybe_factor as int] + factors_rec(
                            number as int,
                            maybe_factor as int + 1,
                            rest as int,
                        )));
                    }
                },
                None => {
                    proof {
                        assert(seq![] + factors_rec(
                            number as int,
                            maybe_factor as int + 1,
                            rest as int,
                        ) =~= factors_rec(number as int, maybe_factor as int + 1, rest as int));
                        assert((maybe_factor as int + 1) * (rest as int) >= number as int) by (
                        nonlinear_arith)
                            requires
                                (maybe_factor as int) * (rest as int) >= number as int,
                                rest >= 0,
                        ;
                    }
                },
            }
        } else {
            proof {
                assert(seq![] + factors_rec(number as int, maybe_factor as int + 1, rest as int)
                    =~= factors_rec(number as int, maybe_factor as int + 1, rest as int));
                assert((maybe_factor as int + 1) * (rest as int) >= number as int) by (
                nonlinear_arith)
                    requires
                        (maybe_factor as int) * (rest as int) >= number as int,
                        rest >= 0,
                ;
            }
        }
        maybe_factor = maybe_factor + 1;
    }
    proof {
        assert(factors_rec(number as int, maybe_factor as int, rest as int)
            =~= Seq::<int>::empty());
        assert(factors@.map_values(|x: u64| x as int) + Seq::<int>::empty() =~= factors@.map_values(
            |x: u64| x as int,
        ));
    }
    factors
}


/// The walk length budgeted for this input.
pub open spec fn gsleep(
    evs: Seq<(Seq<char>, Seq<char>, Seq<char>)>,
    dirs: Seq<char>,
    node: Seq<char>,
) -> Option<int> {
    sleep_rec(evs, dirs, node, 0, walk_fuel(evs.len() as int, dirs.len() as int) as nat)
}

/// The start nodes: the distinct names ending in `A`, in entry order.
pub open spec fn starts_spec(evs: Seq<(Seq<char>, Seq<char>, Seq<char>)>) -> Seq<Seq<char>>
    decreases evs.len(),
{
    if evs.len() == 0 {
        Seq::empty()
    } else {
        let p = starts_spec(evs.drop_last());
        if ends_in(evs.last().0, 'A') && !p.contains(evs.last().0) {
            p.push(evs.last().0)
        } else {
            p
        }
    }
}

/// Every start node's walk resolves within the budget and fits `u64`.
pub open spec fn sleeps_ok(evs: Seq<(Seq<char>, Seq<char>, Seq<char>)>, dirs: Seq<char>) -> bool {
    forall|k: int|
        0 <= k < starts_spec(evs).len() ==> {
            let r = #[trigger] gsleep(evs, dirs, starts_spec(evs)[k]);
            r is Some && 0 <= r->0 <= u64::MAX
        }
}

/// Append the values of `xs` that `acc` does not hold yet.
pub open spec fn push_new(acc: Seq<int>, xs: Seq<int>) -> Seq<int>
    decreases xs.len(),
{
    if xs.len() == 0 {
        acc
    } else {
        let a2 = if acc.contains(xs[0]) {
            acc
        } else {
            acc.push(xs[0])
        };
        push_new(a2, xs.drop_first())
    }
}

/// The distinct prime factors over the walk lengths of the first `n` start
/// nodes, in discovery order.
pub open spec fn union_spec(
    evs: Seq<(Seq<char>, Seq<char>, Seq<char>)>,
    dirs: Seq<char>,
    n: int,
) -> Seq<int>
    decreases n,
{
    if n <= 0 {
        Seq::empty()
    } else {
        let len = gsleep(evs, dirs, starts_spec(evs)[n - 1])->0;
        push_new(union_spec(evs, dirs, n - 1), factors_rec(len, 2, len))
    }
}

/// The product of the first `n` collected factors.
pub open spec fn prod_upto(s: Seq<int>, n: int) -> int
    decreases n,
{
    if n <= 0 {
        1
    } else {
        prod_upto(s, n - 1) * s[n - 1]
    }
}

proof fn lemma_prod_nonneg(s: Seq<int>, n: int)
    requires
        forall|k: int| 0 <= k < n ==> #[trigger] s[k] >= 0,
        n <= s.len(),
    ensures
        prod_upto(s, n) >= 0,
    decreases n,
{
    if n > 0 {
        lemma_prod_nonneg(s, n - 1);
        assert(prod_upto(s, n) >= 0) by (nonlinear_arith)
            requires
                prod_upto(s, n) == prod_upto(s, n - 1) * s[n - 1],
                prod_upto(s, n - 1) >= 0,
                s[n - 1] >= 0,
        ;
    }
}

/// The machine bound part 2 needs: every partial product of the collected
/// factors fits `u128`.
pub open spec fn ghost_fits(evs: Seq<(Seq<char>, Seq<char>, Seq<char>)>, dirs: Seq<char>) -> bool {
    sleeps_ok(evs, dirs) ==> forall|n: int|
        0 <= n <= starts_spec(evs).len() ==> forall|m: int|
            0 <= m <= union_spec(evs, dirs, n).len() ==> prod_upto(
                #[trigger] union_spec(evs, dirs, n),
                m,
            ) <= u128::MAX
}

/// Whether one of the collected names equals `x`.
#[verifier::loop_isolation(false)]
fn contains_chars(v: &Vec<Vec<char>>, x: &Vec<char>) -> (r: bool)
    ensures
        r == crate::parse::views_of(v@).contains(x@),
{
    let ghost vs = crate::parse::views_of(v@);
    let mut j: usize = 0;
    while j < v.len()
        invariant
            0 <= j <= v@.len(),
            forall|t: int| 0 <= t < j ==> vs[t] != x@,
        decreases v@.len() - j,
    {
        if eq_chars(&v[j], x) {
            assert(vs[j as int] == x@);
            return true;
        }
        j = j + 1;
    }
    proof {
        if vs.contains(x@) {
            let w = choose|w: int| 0 <= w < vs.len() && vs[w] == x@;
            assert(false);
        }
    }
    false
}

/// Whether one of the collected factors equals `x`.
#[verifier::loop_isolation(false)]
fn contains_u64(v: &Vec<u64>, x: u64) -> (r: bool)
    ensures
        r == v@.map_values(|t: u64| t as int).contains(x as int),
{
    let ghost vs = v@.map_values(|t: u64| t as int);
    let mut j: usize = 0;
    while j < v.len()
        invariant
            0 <= j <= v@.len(),
            forall|t: int| 0 <= t < j ==> vs[t] != x as int,
        decreases v@.len() - j,
    {
        if v[j] == x {
            assert(vs[j as int] == x as int);
            return true;
        }
        j = j + 1;
    }
    proof {
        if vs.contains(x as int) {
            let w = choose|w: int| 0 <= w < vs.len() && vs[w] == x as int;
            assert(false);
        }
    }
    false
}

/// Walk every `A`-node to its end and multiply the distinct prime factors of
/// the walk lengths.
#[verifier::loop_isolation(false)]
pub fn find_ghost_sleep(
    directions: &String,
    map: &Vec<(Vec<char>, Vec<char>, Vec<char>)>,
) -> (r: Result<u128, Error>)
    requires
        ghost_fits(entry_views(map@), directions@),
    ensures
        ({
            let evs = entry_views(map@);
            let dirs = directions@;
            match r {
                Ok(p) => sleeps_ok(evs, dirs) && p == prod_upto(
                    union_spec(evs, dirs, starts_spec(evs).len() as int),
                    union_spec(evs, dirs, starts_spec(evs).len() as int).len() as int,
                ),
                Err(_) => !sleeps_ok(evs, dirs),
            }
        }),
{
    let ghost evs = entry_views(map@);
    let ghost dirs = directions@;
    // collect the distinct start nodes, in entry order
    let mut starts: Vec<Vec<char>> = Vec::new();
    let mut i: usize = 0;
    proof {
        assert(starts_spec(evs.take(0)) =~= Seq::<Seq<char>>::empty());
        assert(crate::parse::views_of(starts@) =~= Seq::<Seq<char>>::empty());
    }
    while i < map.len()
        invariant
            0 <= i <= map@.len(),
            evs.len() == map@.len(),
            crate::parse::views_of(starts@) == starts_spec(evs.take(i as int)),
        decreases map@.len() - i,
    {
        let ghost pre = starts@;
        proof {
            assert(evs.take(i + 1).drop_last() =~= evs.take(i as int));
            assert(evs.take(i + 1).last() == evs[i as int]);
            assert(evs[i as int].0 == map@[i as int].0@);
        }
        let e = &map[i];
        if ends_in_exec(&e.0, 'A') && !contains_chars(&starts, &e.0) {
            let node = copy_range(&e.0, 0, e.0.len());
            proof {
                assert(node@ =~= evs[i as int].0);
            }
            starts.push(node);
            proof {
                assert(crate::parse::views_of(starts@) =~= starts_spec(evs.take(i as int)).push(
                    evs[i as int].0,
                ));
            }
        }
        i = i + 1;
    }
    proof {
        assert(evs.take(evs.len() as int) =~= evs);
    }
    let ghost sts = starts_spec(evs);
    // walk each start node and union the prime factors of the lengths
    let mut all_factors: Vec<u64> = Vec::new();
    let mut k: usize = 0;
    while k < starts.len()
        invariant
            0 <= k <= starts@.len(),
            crate::parse::views_of(starts@) == sts,
            starts@.len() == sts.len(),
            forall|t: int|
                0 <= t < k ==> {
                    let rr = #[trigger] gsleep(evs, dirs, sts[t]);
                    rr is Some && 0 <= rr->0 <= u64::MAX
                },
            all_factors@.map_values(|x: u64| x as int) == union_spec(evs, dirs, k as int),
        decreases starts@.len() - k,
    {
        let start = copy_range(&starts[k], 0, starts[k].len());
        proof {
            assert(start@ =~= sts[k as int]);
        }
        let len = match find_sleep(start, directions, map) {
            Ok(len) => len,
            Err(e) => {
                proof {
                    assert(!(gsleep(evs, dirs, sts[k as int]) is Some && 0 <= gsleep(
                        evs,
                        dirs,
                        sts[k as int],
                    )->0 <= u64::MAX));
                }
                return Err(e);
            },
        };
        let factors = find_factors(len);
        let ghost fseq = factors_rec(len as int, 2, len as int);
        let ghost base = all_factors@.map_values(|x: u64| x as int);
        proof {
            assert(fseq.skip(0) =~= fseq);
        }
        let mut j: usize = 0;
        while j < factors.len()
            invariant
                0 <= j <= factors@.len(),
                factors@.map_values(|x: u64| x as int) == fseq,
                push_new(
                    all_factors@.map_values(|x: u64| x as int),
                    fseq.skip(j as int),
                ) == push_new(base, fseq),
            decreases factors@.len() - j,
        {
            let ghost cur = all_factors@.map_values(|x: u64| x as int);
            proof {
                assert(fseq.skip(j as int)[0] == fseq[j as int]);
                assert(fseq.skip(j as int).drop_first() =~= fseq.skip(j + 1));
                assert(fseq.skip(j as int).len() > 0);
            }
            let f = factors[j];
            if !contains_u64(&all_factors, f) {
                all_factors.push(f);
                proof {
                    assert(all_factors@.map_values(|x: u64| x as int) =~= cur.push(f as int));
                }
            }
            j = j + 1;
        }
        proof {
            assert(fseq.skip(factors@.len() as int) =~= Seq::<int>::empty());
        }
        k = k + 1;
    }
    // multiply the collected factors
    let ghost uni = union_spec(evs, dirs, sts.len() as int);
    let mut product: u128 = 1;
    let mut t: usize = 0;
    while t < all_factors.len()
        invariant
            0 <= t <= all_factors@.len(),
            all_factors@.map_values(|x: u64| x as int) == uni,
            all_factors@.len() == uni.len(),
            product == prod_upto(uni, t as int),
        decreases all_factors@.len() - t,
    {
        proof {
            assert(forall|w: int| 0 <= w < uni.len() ==> #[trigger] uni[w] >= 0);
            lemma_prod_nonneg(uni, t as int);
            assert(prod_upto(uni, t + 1) <= u128::MAX);
        }
        let f = all_factors[t];
        proof {
            assert(product * f == prod_upto(uni, t + 1));
        }
        product = product * f as u128;
        t = t + 1;
    }
    Ok(product)
}

/// Evaluate the map: part 1 walks from `AAA` to a `Z`-node, part 2 combines
/// all `A`-walks through their prime factors, and any other part is 0.  The
/// input holds at least the direction line.
pub fn challenge(part: u32, lines: &Vec<String>) -> (r: Result<u128, Error>)
    requires
        lines@.len() >= 1,
        part == 2 ==> (map_ok(lines@) ==> ghost_fits(entries_spec(lines@), lines@[0]@)),
    ensures
        ({
            let evs = entries_spec(lines@);
            let dirs = lines@[0]@;
            match r {
                Ok(w) => map_ok(lines@) && if part == 1 {
                    gsleep(evs, dirs, "AAA"@) == Some(w as int) && w <= u64::MAX
                } else if part == 2 {
                    sleeps_ok(evs, dirs) && w == prod_upto(
                        union_spec(evs, dirs, starts_spec(evs).len() as int),
                        union_spec(evs, dirs, starts_spec(evs).len() as int).len() as int,
                    )
                } else {
                    w == 0
                },
                Err(_) => !map_ok(lines@) || (part == 1 && !(gsleep(evs, dirs, "AAA"@) is Some && 0
                    <= gsleep(evs, dirs, "AAA"@)->0 <= u64::MAX)) || (part == 2 && !sleeps_ok(
                    evs,
                    dirs,
                )),
            }
        }),
{
    let (directions, map) = match parse_map(lines) {
        Ok(p) => p,
        Err(e) => {
            return Err(e);
        },
    };
    if part == 1 {
        let aaa = chars_of("AAA");
        match find_sleep(aaa, &directions, &map) {
            Ok(steps) => Ok(steps as u128),
            Err(e) => Err(e),
        }
    } else if part == 2 {
        find_ghost_sleep(&directions, &map)
    } else {
        Ok(0)
    }
}

} // verus!
