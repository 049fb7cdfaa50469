//! Cube games: each line lists a game id and several drawn cube sets; part 1
//! sums the ids of games possible with a fixed bag, part 2 sums the powers
//! of each game's minimal bag.

use vstd::prelude::*;

use crate::Error;
use crate::parse::{chars_of, copy_range, find_char, find_first, is_numeral, num_val, parse_u32, split_chars, split_spec, trim_chars, trim_spec, views_of};

verus! {

/// One drawn handful of cubes.
#[derive(Debug, Clone, Copy, PartialEq, Eq, Structural)]
pub struct CubeSet {
    pub blue: u32,
    pub green: u32,
    pub red: u32,
}

/// One game: its id and its drawn cube sets.
#[derive(Debug, Clone)]
pub struct Game {
    pub id: u32,
    pub sets: Vec<CubeSet>,
}

/// One `count color` piece is well formed: after trimming it holds a blank,
/// a `u32` numeral before it and a known color after it.
pub open spec fn cube_ok(piece: Seq<char>) -> bool {
    let t = trim_spec(piece);
    match find_first(t, ' ') {
        Some(sp) => {
            let cs = t.take(sp);
            let color = t.skip(sp + 1);
            is_numeral(cs) && num_val(cs) <= u32::MAX && (color == "blue"@ || color == "red"@
                || color == "green"@)
        },
        None => false,
    }
}

/// Record one `count color` piece in the set: the named color takes the
/// count, later pieces overwrite earlier ones.
pub open spec fn apply_cube(cs: CubeSet, piece: Seq<char>) -> CubeSet {
    let t = trim_spec(piece);
    match find_first(t, ' ') {
        Some(sp) => {
            let cnt = num_val(t.take(sp)) as u32;
            let color = t.skip(sp + 1);
            if color == "blue"@ {
                CubeSet { blue: cnt, ..cs }
            } else if color == "red"@ {
                CubeSet { red: cnt, ..cs }
            } else {
                CubeSet { green: cnt, ..cs }
            }
        },
        None => cs,
    }
}

/// The cube set one `;`-piece denotes: its `,`-pieces applied in order to an
/// empty set.
pub open spec fn set_fold(ps: Seq<Seq<char>>) -> CubeSet
    decreases ps.len(),
{
    if ps.len() == 0 {
        CubeSet { blue: 0, green: 0, red: 0 }
    } else {
        apply_cube(set_fold(ps.drop_last()), ps.last())
    }
}

/// The `;`-pieces after the first `:`.
pub open spec fn set_pieces(s: Seq<char>) -> Seq<Seq<char>> {
    match find_first(s, ':') {
        Some(k) => split_spec(s.skip(k + 1), ';'),
        None => Seq::empty(),
    }
}

/// The id digits: between the first blank and the `:`.
pub open spec fn id_digits(s: Seq<char>) -> Seq<char> {
    match find_first(s, ':') {
        Some(k) => {
            let head = s.take(k);
            match find_first(head, ' ') {
                Some(sp) => head.skip(sp + 1),
                None => Seq::empty(),
            }
        },
        None => Seq::empty(),
    }
}

/// The line is a well-formed game.
pub open spec fn game_ok(s: Seq<char>) -> bool {
    &&& find_first(s, ':') is Some
    &&& find_first(s.take(find_first(s, ':')->0), ' ') is Some
    &&& is_numeral(id_digits(s)) && num_val(id_digits(s)) <= u32::MAX
    &&& forall|i: int|
        0 <= i < set_pieces(s).len() ==> forall|j: int|
            0 <= j < split_spec(#[trigger] set_pieces(s)[i], ',').len() ==> cube_ok(
                #[trigger] split_spec(set_pieces(s)[i], ',')[j],
            )
}

pub open spec fn game_id(s: Seq<char>) -> int {
    num_val(id_digits(s))
}

pub open spec fn game_sets(s: Seq<char>) -> Seq<CubeSet> {
    Seq::new(set_pieces(s).len(), |i: int| set_fold(split_spec(set_pieces(s)[i], ',')))
}

/// The characters `v[from..to]` spell exactly `w`.
#[verifier::loop_isolation(false)]
fn range_is(v: &Vec<char>, from: usize, to: usize, w: &str) -> (r: bool)
    requires
        from <= to <= v@.len(),
    ensures
        r == (v@.subrange(from as int, to as int) == w@),
{
    let n = w.unicode_len();
    if to - from != n {
        proof {
            assert(v@.subrange(from as int, to as int).len() != w@.len());
        }
        return false;
    }
    let mut k: usize = 0;
    while k < n
        invariant
            0 <= k <= n,
            to - from == n == w@.len(),
            forall|j: int| 0 <= j < k ==> v@[from + j] == w@[j],
        decreases n - k,
    {
        if v[from + k] != w.get_char(k) {
            proof {
                assert(v@.subrange(from as int, to as int)[k as int] != w@[k as int]);
            }
            return false;
        }
        k = k + 1;
    }
    proof {
        assert(v@.subrange(from as int, to as int) =~= w@);
    }
    true
}

/// Fold one `count color` piece into the set.
fn apply_cube_exec(cs: CubeSet, piece: &Vec<char>) -> (r: Result<CubeSet, Error>)
    ensures
        match r {
            Ok(c) => cube_ok(piece@) && c == apply_cube(cs, piece@),
            Err(_) => !cube_ok(piece@),
        },
{
    let t = trim_chars(piece);
    let sp = match find_char(&t, 0, ' ') {
        Some(sp) => sp,
        None => {
            proof {
                crate::parse::lemma_find_first_none(trim_spec(piece@), ' ');
            }
            return Err(
                Error::InvalidInput(String::from_str("missing whitespace in cube count")),
            );
        },
    };
    proof {
        crate::parse::lemma_find_first_at(t@, ' ', sp as int);
    }
    let count_part = copy_range(&t, 0, sp);
    proof {
        assert(count_part@ =~= trim_spec(piece@).take(sp as int));
    }
    let count = match parse_u32(&count_part) {
        Some(c) => c,
        None => {
            return Err(Error::InvalidInput(String::from_str("invalid cube count")));
        },
    };
    let tn = t.len();
    proof {
        assert(t@.subrange(sp + 1, tn as int) =~= trim_spec(piece@).skip(sp + 1));
    }
    if range_is(&t, sp + 1, tn, "blue") {
        Ok(CubeSet { blue: count, ..cs })
    } else if range_is(&t, sp + 1, tn, "red") {
        Ok(CubeSet { red: count, ..cs })
    } else if range_is(&t, sp + 1, tn, "green") {
        Ok(CubeSet { green: count, ..cs })
    } else {
        Err(Error::InvalidInput(String::from_str("invalid color in cube count")))
    }
}

/// Parse one game line.
#[verifier::loop_isolation(false)]
pub fn parse_game(line: &str) -> (r: Result<Game, Error>)
    ensures
        match r {
            Ok(g) => game_ok(line@) && g.id == game_id(line@) && g.sets@ == game_sets(line@),
            Err(_) => !game_ok(line@),
        },
{
    let v = chars_of(line);
    let k = match find_char(&v, 0, ':') {
        Some(k) => k,
        None => {
            proof {
                crate::parse::lemma_find_first_none(v@, ':');
            }
            return Err(Error::InvalidInput(String::from_str("missing ':'")));
        },
    };
    proof {
        crate::parse::lemma_find_first_at(v@, ':', k as int);
    }
    let head = copy_range(&v, 0, k);
    proof {
        assert(head@ =~= v@.take(k as int));
    }
    let sp = match find_char(&head, 0, ' ') {
        Some(sp) => sp,
        None => {
            proof {
                crate::parse::lemma_find_first_none(head@, ' ');
            }
            return Err(
                Error::InvalidInput(String::from_str("missing whitespace in game id")),
            );
        },
    };
    proof {
        crate::parse::lemma_find_first_at(head@, ' ', sp as int);
    }
    let hn = head.len();
    let digits = copy_range(&head, sp + 1, hn);
    proof {
        assert(digits@ =~= id_digits(line@));
    }
    let id = match parse_u32(&digits) {
        Some(n) => n,
        None => {
            return Err(Error::InvalidInput(String::from_str("invalid game id")));
        },
    };
    let n = v.len();
    let rest = copy_range(&v, k + 1, n);
    proof {
        assert(rest@ =~= v@.skip(k + 1));
    }
    let pieces = split_chars(&rest, ';');
    let ghost sp_all = set_pieces(line@);
    proof {
        assert(views_of(pieces@) == sp_all);
    }
    let mut sets: Vec<CubeSet> = Vec::new();
    let mut i: usize = 0;
    while i < pieces.len()
        invariant
            0 <= i <= pieces@.len(),
            views_of(pieces@) == sp_all,
            sets@.len() == i,
            forall|t: int|
                0 <= t < i ==> (forall|j: int|
                    0 <= j < split_spec(#[trigger] sp_all[t], ',').len() ==> cube_ok(
                        #[trigger] split_spec(sp_all[t], ',')[j],
                    )),
            forall|t: int| 0 <= t < i ==> #[trigger] sets@[t] == set_fold(
                split_spec(sp_all[t], ','),
            ),
        decreases pieces@.len() - i,
    {
        let cubes = split_chars(&pieces[i], ',');
        let ghost cp_all = split_spec(sp_all[i as int], ',');
        proof {
            assert(pieces@[i as int]@ == sp_all[i as int]);
            assert(views_of(cubes@) == cp_all);
        }
        let mut cs = CubeSet { blue: 0, green: 0, red: 0 };
        let mut j: usize = 0;
        while j < cubes.len()
            invariant
                0 <= j <= cubes@.len(),
                views_of(cubes@) == cp_all,
                cs == set_fold(cp_all.take(j as int)),
                forall|t: int| 0 <= t < j ==> cube_ok(#[trigger] cp_all[t]),
            decreases cubes@.len() - j,
        {
            proof {
                assert(cp_all.take(j + 1).drop_last() =~= cp_all.take(j as int));
                assert(cp_all.take(j + 1).last() == cp_all[j as int]);
                assert(cubes@[j as int]@ == cp_all[j as int]);
            }
            match apply_cube_exec(cs, &cubes[j]) {
                Ok(next) => {
                    cs = next;
                },
                Err(e) => {
                    return Err(e);
                },
            }
            j = j + 1;
        }
        proof {
            assert(cp_all.take(cp_all.len() as int) =~= cp_all);
        }
        let ghost pre = sets@;
        sets.push(cs);
        proof {
            assert(forall|t: int| 0 <= t < i ==> sets@[t] == pre[t]);
        }
        i = i + 1;
    }
    proof {
        assert(sets@ =~= game_sets(line@));
    }
    Ok(Game { id, sets })
}

/// Every line is a game.
pub open spec fn games_ok(ls: Seq<String>) -> bool {
    forall|i: int| 0 <= i < ls.len() ==> game_ok(#[trigger] ls[i]@)
}

/// Parse every line, aborting on the first malformed game.
#[verifier::loop_isolation(false)]
pub fn parse_games(lines: &Vec<String>) -> (r: Result<Vec<Game>, Error>)
    ensures
        match r {
            Ok(gs) => games_ok(lines@) && gs@.len() == lines@.len() && forall|i: int|
                0 <= i < gs@.len() ==> (#[trigger] gs@[i]).id == game_id(lines@[i]@)
                    && gs@[i].sets@ == game_sets(lines@[i]@),
            Err(_) => !games_ok(lines@),
        },
{
    let mut gs: Vec<Game> = Vec::new();
    let mut i: usize = 0;
    while i < lines.len()
        invariant
            0 <= i <= lines@.len(),
            gs@.len() == i,
            forall|k: int| 0 <= k < i ==> game_ok(#[trigger] lines@[k]@),
            forall|k: int|
                0 <= k < i ==> (#[trigger] gs@[k]).id == game_id(lines@[k]@) && gs@[k].sets@
                    == game_sets(lines@[k]@),
        decreases lines@.len() - i,
    {
        match parse_game(lines[i].as_str()) {
            Ok(g) => {
                let ghost pre = gs@;
                gs.push(g);
                proof {
                    assert(forall|k: int| 0 <= k < i ==> gs@[k] == pre[k]);
                }
            },
            Err(e) => {
                return Err(e);
            },
        }
        i = i + 1;
    }
    Ok(gs)
}

/// A game is possible with the fixed bag: no draw exceeds 14 blue, 13 green
/// or 12 red cubes.
pub open spec fn valid_game(sets: Seq<CubeSet>) -> bool {
    forall|i: int|
        0 <= i < sets.len() ==> (#[trigger] sets[i]).blue <= 14 && sets[i].green <= 13
            && sets[i].red <= 12
}

/// The summed ids of the possible games among the first `n`.
pub open spec fn ids_sum(ls: Seq<String>, n: int) -> int
    decreases n,
{
    if n <= 0 {
        0
    } else {
        ids_sum(ls, n - 1) + (if valid_game(game_sets(ls[n - 1]@)) {
            game_id(ls[n - 1]@)
        } else {
            0int
        })
    }
}

proof fn lemma_ids_sum_nonneg(ls: Seq<String>, n: int)
    requires
        forall|k: int| 0 <= k < n ==> game_ok(#[trigger] ls[k]@),
    ensures
        ids_sum(ls, n) >= 0,
    decreases n,
{
    if n > 0 {
        lemma_ids_sum_nonneg(ls, n - 1);
        if valid_game(game_sets(ls[n - 1]@)) {
            assert(game_ok(ls[n - 1]@));
            crate::parse::lemma_num_val_nonneg(id_digits(ls[n - 1]@));
        }
    }
}

/// Whether every drawn set stays within the fixed bag.
#[verifier::loop_isolation(false)]
fn is_valid_game(sets: &Vec<CubeSet>) -> (r: bool)
    ensures
        r == valid_game(sets@),
{
    let mut i: usize = 0;
    while i < sets.len()
        invariant
            0 <= i <= sets@.len(),
            forall|k: int|
                0 <= k < i ==> (#[trigger] sets@[k]).blue <= 14 && sets@[k].green <= 13
                    && sets@[k].red <= 12,
        decreases sets@.len() - i,
    {
        let s = &sets[i];
        if !(s.blue <= 14 && s.green <= 13 && s.red <= 12) {
            return false;
        }
        i = i + 1;
    }
    true
}

/// The machine bounds part 1 needs: games parse and every partial id sum
/// fits `u32`.
pub open spec fn part1_fits(ls: Seq<String>) -> bool {
    games_ok(ls) ==> forall|n: int| 0 <= n <= ls.len() ==> ids_sum(ls, n) <= u32::MAX
}

/// Sum the ids of the possible games.
#[verifier::loop_isolation(false)]
fn sum_valid_ids(lines: &Vec<String>) -> (r: Result<u32, Error>)
    requires
        part1_fits(lines@),
    ensures
        match r {
            Ok(w) => games_ok(lines@) && w == ids_sum(lines@, lines@.len() as int),
            Err(_) => !games_ok(lines@),
        },
{
    let games = match parse_games(lines) {
        Ok(gs) => gs,
        Err(e) => {
            return Err(e);
        },
    };
    let mut sum: u32 = 0;
    let mut i: usize = 0;
    while i < games.len()
        invariant
            0 <= i <= games@.len(),
            sum == ids_sum(lines@, i as int),
        decreases games@.len() - i,
    {
        proof {
            lemma_ids_sum_nonneg(lines@, i as int);
            assert(ids_sum(lines@, i + 1) <= u32::MAX);
            if game_ok(lines@[i as int]@) {
                crate::parse::lemma_num_val_nonneg(id_digits(lines@[i as int]@));
            }
        }
        if is_valid_game(&games[i].sets) {
            sum = sum + games[i].id;
        }
        i = i + 1;
    }
    Ok(sum)
}

/// Which cube color a query asks for.
#[derive(Debug, Clone, Copy)]
pub enum Color {
    Blue,
    Green,
    Red,
}

pub open spec fn field_of(cs: CubeSet, color: Color) -> int {
    match color {
        Color::Blue => cs.blue as int,
        Color::Green => cs.green as int,
        Color::Red => cs.red as int,
    }
}

/// The largest draw of one color over the sets.
pub open spec fn max_field(sets: Seq<CubeSet>, color: Color) -> int
    decreases sets.len(),
{
    if sets.len() == 0 {
        0
    } else {
        let m = max_field(sets.drop_last(), color);
        if field_of(sets.last(), color) > m {
            field_of(sets.last(), color)
        } else {
            m
        }
    }
}

/// The fewest cubes of one color that make the game possible; at least one.
pub open spec fn min_needed(sets: Seq<CubeSet>, color: Color) -> int {
    if max_field(sets, color) == 0 {
        1
    } else {
        max_field(sets, color)
    }
}

/// The largest draw of one color, clamped up to one.
#[verifier::loop_isolation(false)]
fn max_by(sets: &Vec<CubeSet>, color: Color) -> (r: u32)
    ensures
        r == min_needed(sets@, color),
{
    let mut m: u32 = 0;
    let mut i: usize = 0;
    while i < sets.len()
        invariant
            0 <= i <= sets@.len(),
            m == max_field(sets@.take(i as int), color),
        decreases sets@.len() - i,
    {
        proof {
            assert(sets@.take(i + 1).drop_last() =~= sets@.take(i as int));
            assert(sets@.take(i + 1).last() == sets@[i as int]);
        }
        let f = match color {
            Color::Blue => sets[i].blue,
            Color::Green => sets[i].green,
            Color::Red => sets[i].red,
        };
        if f > m {
            m = f;
        }
        i = i + 1;
    }
    proof {
        assert(sets@.take(sets@.len() as int) =~= sets@);
    }
    if m == 0 {
        1
    } else {
        m
    }
}

/// The power of one game: the product of its three minimal cube counts.
pub open spec fn game_power(s: Seq<char>) -> int {
    min_needed(game_sets(s), Color::Red) * min_needed(game_sets(s), Color::Green) * min_needed(
        game_sets(s),
        Color::Blue,
    )
}

/// The summed powers of the first `n` games.
pub open spec fn powers_sum(ls: Seq<String>, n: int) -> int
    decreases n,
{
    if n <= 0 {
        0
    } else {
        powers_sum(ls, n - 1) + game_power(ls[n - 1]@)
    }
}

proof fn lemma_max_field_bounds(sets: Seq<CubeSet>, color: Color)
    ensures
        0 <= max_field(sets, color) <= u32::MAX,
        1 <= min_needed(sets, color) <= u32::MAX,
    decreases sets.len(),
{
    if sets.len() > 0 {
        lemma_max_field_bounds(sets.drop_last(), color);
    }
}

proof fn lemma_powers_sum_nonneg(ls: Seq<String>, n: int)
    ensures
        powers_sum(ls, n) >= 0,
    decreases n,
{
    if n > 0 {
        lemma_powers_sum_nonneg(ls, n - 1);
        let s = ls[n - 1]@;
        lemma_max_field_bounds(game_sets(s), Color::Red);
        lemma_max_field_bounds(game_sets(s), Color::Green);
        lemma_max_field_bounds(game_sets(s), Color::Blue);
        assert(game_power(s) >= 0) by (nonlinear_arith)
            requires
                min_needed(game_sets(s), Color::Red) >= 1,
                min_needed(game_sets(s), Color::Green) >= 1,
                min_needed(game_sets(s), Color::Blue) >= 1,
                game_power(s) == min_needed(game_sets(s), Color::Red) * min_needed(
                    game_sets(s),
                    Color::Green,
                ) * min_needed(game_sets(s), Color::Blue),
        ;
    }
}

/// The machine bounds part 2 needs: each game's power and every partial
/// power sum fit `u32`.
pub open spec fn part2_fits(ls: Seq<String>) -> bool {
    games_ok(ls) ==> {
        &&& forall|i: int| 0 <= i < ls.len() ==> game_power(#[trigger] ls[i]@) <= u32::MAX
        &&& forall|n: int| 0 <= n <= ls.len() ==> powers_sum(ls, n) <= u32::MAX
    }
}

/// Sum the powers of the games' minimal bags.
#[verifier::loop_isolation(false)]
fn power_of_min(lines: &Vec<String>) -> (r: Result<u32, Error>)
    requires
        part2_fits(lines@),
    ensures
        match r {
            Ok(w) => games_ok(lines@) && w == powers_sum(lines@, lines@.len() as int),
            Err(_) => !games_ok(lines@),
        },
{
    let games = match parse_games(lines) {
        Ok(gs) => gs,
        Err(e) => {
            return Err(e);
        },
    };
    let mut sum: u32 = 0;
    let mut i: usize = 0;
    while i < games.len()
        invariant
            0 <= i <= games@.len(),
            sum == powers_sum(lines@, i as int),
        decreases games@.len() - i,
    {
        let ghost s = lines@[i as int]@;
        let red = max_by(&games[i].sets, Color::Red);
        let green = max_by(&games[i].sets, Color::Green);
        let blue = max_by(&games[i].sets, Color::Blue);
        proof {
            lemma_powers_sum_nonneg(lines@, i as int);
            assert(powers_sum(lines@, i + 1) <= u32::MAX);
            assert(game_power(s) <= u32::MAX);
            lemma_powers_sum_nonneg(lines@, i + 1);
            assert(game_power(s) >= 0) by {
                lemma_max_field_bounds(game_sets(s), Color::Red);
                lemma_max_field_bounds(game_sets(s), Color::Green);
                lemma_max_field_bounds(game_sets(s), Color::Blue);
                assert(game_power(s) >= 0) by (nonlinear_arith)
                    requires
                        min_needed(game_sets(s), Color::Red) >= 1,
                        min_needed(game_sets(s), Color::Green) >= 1,
                        min_needed(game_sets(s), Color::Blue) >= 1,
                        game_power(s) == min_needed(game_sets(s), Color::Red) * min_needed(
                            game_sets(s),
                            Color::Green,
                        ) * min_needed(game_sets(s), Color::Blue),
                ;
            }
        }
        proof {
            assert((red as int) * (green as int) < 0x1_0000_0000_0000_0000 && (red as int) * (
            green as int) * (blue as int) < 0x1_0000_0000_0000_0000_0000_0000) by (nonlinear_arith)
                requires
                    0 <= red as int <= 0xffff_ffffu64,
                    0 <= green as int <= 0xffff_ffffu64,
                    0 <= blue as int <= 0xffff_ffffu64,
            ;
        }
        let rg: u128 = (red as u128) * (green as u128);
        let power128: u128 = rg * (blue as u128);
        proof {
            assert(power128 == (red as int) * (green as int) * (blue as int));
        }
        proof {
            assert(power128 == game_power(s));
        }
        let power: u32 = power128 as u32;
        sum = sum + power;
        i = i + 1;
    }
    Ok(sum)
}

/// Evaluate the batch: part 1 sums the ids of the possible games, part 2
/// sums the game powers, and any other part is 0.
pub fn elf_challenge(part: u32, lines: Vec<String>) -> (r: Result<u32, Error>)
    requires
        part == 1 ==> part1_fits(lines@),
        part == 2 ==> part2_fits(lines@),
    ensures
        match r {
            Ok(w) => if part == 1 {
                games_ok(lines@) && w == ids_sum(lines@, lines@.len() as int)
            } else if part == 2 {
                games_ok(lines@) && w == powers_sum(lines@, lines@.len() as int)
            } else {
                w == 0
            },
            Err(_) => (part == 1 || part == 2) && !games_ok(lines@),
        },
{
    if part == 1 {
        sum_valid_ids(&lines)
    } else if part == 2 {
        power_of_min(&lines)
    } else {
        Ok(0)
    }
}

} // verus!
