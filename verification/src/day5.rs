//! The almanac: a seed list followed by blocks of interval remappings; each
//! block maps a category value through its first matching range, and part 1
//! asks for the lowest final location over all seeds.

use vstd::prelude::*;

use crate::Error;
use crate::parse::{
    all_numerals_u32, chars_of, find_char, num_val, parse_u32_all, split_chars, split_spec,
    trim_chars, trim_spec, views_of,
};

verus! {

/// One remapping range: sources `[source_start, source_start + len)` map to
/// destinations starting at `destination_start`.
#[derive(Debug, Clone, Copy, PartialEq, Eq, Structural)]
pub struct Range {
    pub source_start: u32,
    pub destination_start: u32,
    pub len: u32,
}

impl Range {
    /// The destinations this range writes stay within `u32`.
    pub open spec fn wf(&self) -> bool {
        self.destination_start + self.len <= 0x1_0000_0000
    }
}

/// Where `input` goes through one range, if it is covered.
pub open spec fn convert_spec(r: Range, input: int) -> Option<int> {
    if r.source_start <= input < r.source_start + r.len {
        Some(r.destination_start + (input - r.source_start))
    } else {
        None
    }
}

impl Range {
    /// Map `input` through this range, if it is covered.
    pub fn convert(&self, input: u32) -> (res: Option<u32>)
        requires
            self.wf(),
        ensures
            match res {
                Some(v) => convert_spec(*self, input as int) == Some(v as int),
                None => convert_spec(*self, input as int) is None,
            },
    {
        if input < self.source_start {
            return None;
        }
        let start_diff = input - self.source_start;
        if start_diff >= self.len {
            return None;
        }
        Some(self.destination_start + start_diff)
    }
}

/// One category's remapping: an ordered list of ranges.
#[derive(Debug, Clone)]
pub struct CategoryMap {
    pub ranges: Vec<Range>,
}

/// Where `input` goes through a list of ranges: the first covering range
/// decides, and an uncovered input passes through unchanged.
pub open spec fn map_convert(ranges: Seq<Range>, input: int) -> int
    decreases ranges.len(),
{
    if ranges.len() == 0 {
        input
    } else {
        match convert_spec(ranges[0], input) {
            Some(v) => v,
            None => map_convert(ranges.drop_first(), input),
        }
    }
}

proof fn lemma_map_convert_skip(ranges: Seq<Range>, input: int, i: int)
    requires
        0 <= i <= ranges.len(),
        forall|k: int| 0 <= k < i ==> (#[trigger] convert_spec(ranges[k], input)) is None,
    ensures
        map_convert(ranges, input) == map_convert(ranges.skip(i), input),
    decreases i,
{
    if i > 0 {
        let t = ranges.drop_first();
        assert(convert_spec(ranges[0], input) is None);
        assert forall|k: int| 0 <= k < i - 1 implies (#[trigger] convert_spec(t[k], input))
            is None by {
            assert(t[k] == ranges[k + 1]);
            assert(convert_spec(ranges[k + 1], input) is None);
        }
        lemma_map_convert_skip(t, input, i - 1);
        assert(t.skip(i - 1) =~= ranges.skip(i));
    } else {
        assert(ranges.skip(0) =~= ranges);
    }
}

/// Every range of the list writes within `u32`.
pub open spec fn ranges_wf(ranges: Seq<Range>) -> bool {
    forall|i: int| 0 <= i < ranges.len() ==> (#[trigger] ranges[i]).wf()
}

impl CategoryMap {
    /// Map `input` through the first covering range, or pass it through.
    #[verifier::loop_isolation(false)]
    pub fn convert(&self, source: u32) -> (res: u32)
        requires
            ranges_wf(self.ranges@),
        ensures
            res == map_convert(self.ranges@, source as int),
    {
        let mut i: usize = 0;
        while i < self.ranges.len()
            invariant
                0 <= i <= self.ranges@.len(),
                forall|k: int| 0 <= k < i ==> (#[trigger] convert_spec(
                    self.ranges@[k],
                    source as int,
                )) is None,
            decreases self.ranges@.len() - i,
        {
            match self.ranges[i].convert(source) {
                Some(converted) => {
                    proof {
                        lemma_map_convert_skip(self.ranges@, source as int, i as int);
                        assert(self.ranges@.skip(i as int)[0] == self.ranges@[i as int]);
                        assert(self.ranges@.skip(i as int).len() > 0);
                    }
                    return converted;
                },
                None => {
                    i = i + 1;
                },
            }
        }
        proof {
            lemma_map_convert_skip(self.ranges@, source as int, i as int);
            assert(self.ranges@.skip(i as int).len() == 0);
        }
        source
    }
}

/// The whole almanac: the seeds and the category maps, in order.
#[derive(Debug, Clone)]
pub struct Almenac {
    pub seeds: Vec<u32>,
    pub category_maps: Vec<CategoryMap>,
}

/// The range lists of the maps.
pub open spec fn cmap_views(ms: Seq<CategoryMap>) -> Seq<Seq<Range>> {
    ms.map_values(|m: CategoryMap| m.ranges@)
}

/// Where `seed` ends after passing through the first `n` maps, in order.
pub open spec fn through_maps(ms: Seq<Seq<Range>>, seed: int, n: int) -> int
    decreases n,
{
    if n <= 0 {
        seed
    } else {
        map_convert(ms[n - 1], through_maps(ms, seed, n - 1))
    }
}

pub open spec fn maps_wf(ms: Seq<Seq<Range>>) -> bool {
    forall|i: int| 0 <= i < ms.len() ==> ranges_wf(#[trigger] ms[i])
}

impl Almenac {
    /// The final location of one seed.
    #[verifier::loop_isolation(false)]
    pub fn seed_to_location(&self, seed: u32) -> (res: u32)
        requires
            maps_wf(cmap_views(self.category_maps@)),
        ensures
            res == through_maps(
                cmap_views(self.category_maps@),
                seed as int,
                self.category_maps@.len() as int,
            ),
    {
        let ghost ms = cmap_views(self.category_maps@);
        let mut current = seed;
        let mut i: usize = 0;
        while i < self.category_maps.len()
            invariant
                0 <= i <= self.category_maps@.len(),
                current == through_maps(ms, seed as int, i as int),
            decreases self.category_maps@.len() - i,
        {
            proof {
                assert(cmap_views(self.category_maps@)[i as int]
                    == self.category_maps@[i as int].ranges@);
            }
            current = self.category_maps[i].convert(current);
            i = i + 1;
        }
        current
    }
}

/// The seed numbers of the header line: its blank-split pieces after the
/// `seeds:` word.
pub open spec fn seed_toks(s: Seq<char>) -> Seq<Seq<char>> {
    split_spec(trim_spec(s), ' ').drop_first()
}

pub open spec fn seeds_ok(s: Seq<char>) -> bool {
    all_numerals_u32(seed_toks(s))
}

pub open spec fn seed_vals(s: Seq<char>) -> Seq<int> {
    Seq::new(seed_toks(s).len(), |i: int| num_val(seed_toks(s)[i]))
}

/// A range line: three or more blank-split `u32` numerals, destination
/// start, source start and length first.
pub open spec fn range_ok(s: Seq<char>) -> bool {
    all_numerals_u32(split_spec(s, ' ')) && split_spec(s, ' ').len() >= 3
}

pub open spec fn range_of(s: Seq<char>) -> Range {
    Range {
        destination_start: num_val(split_spec(s, ' ')[0]) as u32,
        source_start: num_val(split_spec(s, ' ')[1]) as u32,
        len: num_val(split_spec(s, ' ')[2]) as u32,
    }
}

/// Parse one range line.
pub fn parse_range(line: &str) -> (r: Result<Range, Error>)
    ensures
        match r {
            Ok(rg) => range_ok(line@) && rg == range_of(line@),
            Err(_) => !range_ok(line@),
        },
{
    let v = chars_of(line);
    let pieces = split_chars(&v, ' ');
    let nums = match parse_u32_all(&pieces) {
        Some(ns) => ns,
        None => {
            return Err(Error::InvalidInput(String::from_str("unable to parse range")));
        },
    };
    if nums.len() < 3 {
        return Err(
            Error::InvalidInput(
                String::from_str("range contains too few numbers to be able to parse"),
            ),
        );
    }
    Ok(Range { destination_start: nums[0], source_start: nums[1], len: nums[2] })
}

/// The first line index `j >= i` holding an empty line, or the line count.
pub open spec fn block_end(ls: Seq<String>, i: int) -> int
    decreases ls.len() - i,
{
    if i < 0 {
        0
    } else if i >= ls.len() {
        ls.len() as int
    } else if ls[i]@.len() == 0 {
        i
    } else {
        block_end(ls, i + 1)
    }
}

proof fn lemma_block_end(ls: Seq<String>, i: int)
    requires
        0 <= i <= ls.len(),
    ensures
        i <= block_end(ls, i) <= ls.len(),
        forall|j: int| i <= j < block_end(ls, i) ==> (#[trigger] ls[j]@).len() != 0,
        block_end(ls, i) < ls.len() ==> ls[block_end(ls, i)]@.len() == 0,
    decreases ls.len() - i,
{
    if i < ls.len() && ls[i]@.len() != 0 {
        lemma_block_end(ls, i + 1);
    }
}

/// The ranges of the block that spans lines `[i, j)`.
pub open spec fn block_ranges(ls: Seq<String>, i: int, j: int) -> Seq<Range> {
    Seq::new((j - i) as nat, |k: int| range_of(ls[i + k]@))
}

/// The range blocks from line `i` on: a line holding `:` opens a block of
/// range lines that runs to the next empty line; other lines are skipped.
pub open spec fn blocks_from(ls: Seq<String>, i: int) -> Seq<Seq<Range>>
    decreases vstd::math::max(ls.len() - i, 0) when 0 <= i via blocks_from_decreases
{
    if i >= ls.len() {
        Seq::empty()
    } else if ls[i]@.len() == 0 || !(crate::parse::find_first(ls[i]@, ':') is Some) {
        blocks_from(ls, i + 1)
    } else {
        seq![block_ranges(ls, i + 1, block_end(ls, i + 1))] + blocks_from(
            ls,
            block_end(ls, i + 1) + 1,
        )
    }
}

#[via_fn]
proof fn blocks_from_decreases(ls: Seq<String>, i: int) {
    if 0 <= i < ls.len() {
        lemma_block_end(ls, i + 1);
    }
}

/// Every range line of every block from line `i` on is well formed.
pub open spec fn blocks_ok(ls: Seq<String>, i: int) -> bool
    decreases vstd::math::max(ls.len() - i, 0) when 0 <= i via blocks_ok_decreases
{
    if i >= ls.len() {
        true
    } else if ls[i]@.len() == 0 || !(crate::parse::find_first(ls[i]@, ':') is Some) {
        blocks_ok(ls, i + 1)
    } else {
        (forall|j: int|
            i + 1 <= j < block_end(ls, i + 1) ==> range_ok(#[trigger] ls[j]@)) && blocks_ok(
            ls,
            block_end(ls, i + 1) + 1,
        )
    }
}

#[via_fn]
proof fn blocks_ok_decreases(ls: Seq<String>, i: int) {
    if 0 <= i < ls.len() {
        lemma_block_end(ls, i + 1);
    }
}

/// The whole input parses: a seeds line, then well-formed blocks.
pub open spec fn almanac_ok(ls: Seq<String>) -> bool {
    ls.len() >= 1 && seeds_ok(ls[0]@) && blocks_ok(ls, 1)
}

/// Parse the whole almanac: the seeds line, then each `:`-headed block of
/// range lines up to the next empty line.
#[verifier::loop_isolation(false)]
pub fn parse_almenac(lines: &Vec<String>) -> (r: Result<Almenac, Error>)
    ensures
        match r {
            Ok(a) => almanac_ok(lines@) && a.seeds@.map_values(|x: u32| x as int) == seed_vals(
                lines@[0]@,
            ) && cmap_views(a.category_maps@) == blocks_from(lines@, 1),
            Err(_) => !almanac_ok(lines@),
        },
{
    if lines.len() == 0 {
        return Err(Error::InvalidInput(String::from_str("seeds line missing")));
    }
    let v0 = chars_of(lines[0].as_str());
    let trimmed = trim_chars(&v0);
    let mut pieces = split_chars(&trimmed, ' ');
    let ghost allp = views_of(pieces@);
    assert(allp.len() > 0);
    let _first = pieces.remove(0);
    proof {
        assert(views_of(pieces@) =~= allp.drop_first());
    }
    let seeds = match parse_u32_all(&pieces) {
        Some(ns) => ns,
        None => {
            return Err(Error::InvalidInput(String::from_str("unable to parse seeds")));
        },
    };
    proof {
        assert(seeds@.map_values(|x: u32| x as int) =~= seed_vals(lines@[0]@));
    }
    let n = lines.len();
    let mut category_maps: Vec<CategoryMap> = Vec::new();
    let mut i: usize = 1;
    while i < n
        invariant
            1 <= i <= n == lines@.len(),
            cmap_views(category_maps@) + blocks_from(lines@, i as int) == blocks_from(lines@, 1),
            blocks_ok(lines@, i as int) <==> blocks_ok(lines@, 1),
        decreases n - i,
    {
        let ghost pre = category_maps@;
        let vline = chars_of(lines[i].as_str());
        let has_colon = match find_char(&vline, 0, ':') {
            Some(_) => true,
            None => false,
        };
        proof {
            crate::parse::lemma_find_first(lines@[i as int]@, ':');
            match crate::parse::find_first(lines@[i as int]@, ':') {
                Some(f) => {
                    assert(lines@[i as int]@[f] == ':');
                    assert(has_colon);
                },
                None => {
                    assert(!has_colon);
                },
            }
        }
        if vline.len() == 0 || !has_colon {
            proof {
                assert(vline@.len() == lines@[i as int]@.len());
            }
            i = i + 1;
            continue ;
        }
        // a block header: read range lines until an empty line
        proof {
            lemma_block_end(lines@, i + 1);
        }
        let ghost bend = block_end(lines@, i + 1);
        let mut ranges: Vec<Range> = Vec::new();
        let mut j: usize = i + 1;
        let mut hit_empty = false;
        while j < n && !hit_empty
            invariant
                i + 1 <= j <= n,
                !hit_empty ==> j <= bend,
                hit_empty ==> j == bend + 1,
                ranges@.len() == (if hit_empty {
                    bend - (i + 1)
                } else {
                    j - (i + 1)
                }),
                forall|t: int|
                    0 <= t < ranges@.len() ==> range_ok(#[trigger] lines@[i + 1 + t]@)
                        && ranges@[t] == range_of(lines@[i + 1 + t]@),
            decreases n - j + (if hit_empty {
                0int
            } else {
                1int
            }),
        {
            let line = &lines[j];
            if line.as_str().is_empty() {
                proof {
                    if (j as int) < bend {
                        assert(lines@[j as int]@.len() != 0);
                        assert(false);
                    }
                }
                hit_empty = true;
                j = j + 1;
            } else {
                proof {
                    if j as int == bend {
                        assert(lines@[bend]@.len() == 0);
                        assert(false);
                    }
                }
                match parse_range(line.as_str()) {
                    Ok(rg) => {
                        ranges.push(rg);
                    },
                    Err(_) => {
                        proof {
                            assert(!range_ok(lines@[j as int]@));
                            assert(!blocks_ok(lines@, i as int));
                        }
                        return Err(
                            Error::InvalidInput(String::from_str("unable to parse range")),
                        );
                    },
                }
                j = j + 1;
            }
        }
        proof {
            if !hit_empty {
                assert(j == n);
                if bend < n {
                    assert(lines@[bend]@.len() == 0);
                }
                assert(bend == n);
            }
            assert(ranges@.len() == bend - (i + 1));
            assert(ranges@ =~= block_ranges(lines@, i + 1, bend));
        }
        category_maps.push(CategoryMap { ranges });
        proof {
            assert(blocks_from(lines@, i as int) == seq![block_ranges(lines@, i + 1, bend)]
                + blocks_from(lines@, bend + 1));
            assert(blocks_ok(lines@, i as int) == ((forall|t: int|
                i + 1 <= t < bend ==> range_ok(#[trigger] lines@[t]@)) && blocks_ok(
                lines@,
                bend + 1,
            )));
            assert forall|t: int| i + 1 <= t < bend implies range_ok(#[trigger] lines@[t]@) by {
                assert(ranges@[t - (i + 1)] == range_of(lines@[t]@));
                assert(range_ok(lines@[t - (i + 1) + (i + 1)]@));
            }
            assert(blocks_ok(lines@, i as int) <==> blocks_ok(lines@, bend + 1));
            assert(cmap_views(category_maps@) =~= cmap_views(pre) + seq![
                block_ranges(lines@, i + 1, bend),
            ]);
            assert((cmap_views(pre) + seq![block_ranges(lines@, i + 1, bend)]) + blocks_from(
                lines@,
                bend + 1,
            ) =~= cmap_views(pre) + (seq![block_ranges(lines@, i + 1, bend)] + blocks_from(
                lines@,
                bend + 1,
            )));
        }
        if hit_empty {
            i = j;
            proof {
                assert(i as int == bend + 1);
            }
        } else {
            i = j;
            proof {
                assert(blocks_from(lines@, bend + 1) =~= Seq::<Seq<Range>>::empty());
                assert(blocks_from(lines@, i as int) =~= Seq::<Seq<Range>>::empty());
                assert(cmap_views(category_maps@) + blocks_from(lines@, i as int) =~= cmap_views(
                    category_maps@,
                ));
                assert(blocks_ok(lines@, bend + 1));
                assert(blocks_ok(lines@, i as int));
            }
        }
    }
    proof {
        assert(blocks_from(lines@, n as int) =~= Seq::<Seq<Range>>::empty());
        assert(cmap_views(category_maps@) + blocks_from(lines@, n as int) =~= cmap_views(
            category_maps@,
        ));
        assert(blocks_ok(lines@, n as int));
    }
    Ok(Almenac { seeds, category_maps })
}

/// The lowest location over the first `n` seeds.
pub open spec fn min_loc(ls: Seq<String>, n: int) -> int
    decreases n,
{
    let loc = through_maps(
        blocks_from(ls, 1),
        seed_vals(ls[0]@)[n - 1],
        blocks_from(ls, 1).len() as int,
    );
    if n <= 1 {
        loc
    } else {
        if min_loc(ls, n - 1) <= loc {
            min_loc(ls, n - 1)
        } else {
            loc
        }
    }
}

/// Every parsed range writes within `u32`: the bound the machine forces on
/// the remapping arithmetic.
pub open spec fn part1_fits(ls: Seq<String>) -> bool {
    almanac_ok(ls) ==> maps_wf(blocks_from(ls, 1))
}

/// The lowest final location over all seeds.
#[verifier::loop_isolation(false)]
fn lowest_location(lines: &Vec<String>, almenac: Almenac) -> (r: Result<u32, Error>)
    requires
        almanac_ok(lines@),
        maps_wf(cmap_views(almenac.category_maps@)),
        almenac.seeds@.map_values(|x: u32| x as int) == seed_vals(lines@[0]@),
        cmap_views(almenac.category_maps@) == blocks_from(lines@, 1),
    ensures
        match r {
            Ok(w) => almenac.seeds@.len() > 0 && w == min_loc(
                lines@,
                almenac.seeds@.len() as int,
            ),
            Err(_) => almenac.seeds@.len() == 0,
        },
{
    if almenac.seeds.len() == 0 {
        return Err(Error::InvalidInput(String::from_str("no seeds in input")));
    }
    let mut best: u32 = almenac.seed_to_location(almenac.seeds[0]);
    let mut i: usize = 1;
    while i < almenac.seeds.len()
        invariant
            1 <= i <= almenac.seeds@.len(),
            best == min_loc(lines@, i as int),
        decreases almenac.seeds@.len() - i,
    {
        let loc = almenac.seed_to_location(almenac.seeds[i]);
        if loc < best {
            best = loc;
        }
        i = i + 1;
    }
    Ok(best)
}

/// Evaluate the almanac: part 1 returns the lowest location over the seeds,
/// and any other part is 0.  A malformed line or an empty seed list is an
/// error.
pub fn challenge(part: u32, lines: &Vec<String>) -> (r: Result<u32, Error>)
    requires
        part1_fits(lines@),
    ensures
        match r {
            Ok(w) => almanac_ok(lines@) && if part == 1 {
                seed_vals(lines@[0]@).len() > 0 && w == min_loc(
                    lines@,
                    seed_vals(lines@[0]@).len() as int,
                )
            } else {
                w == 0
            },
            Err(_) => !almanac_ok(lines@) || (part == 1 && seed_vals(lines@[0]@).len() == 0),
        },
{
    let almenac = match parse_almenac(lines) {
        Ok(a) => a,
        Err(e) => {
            return Err(e);
        },
    };
    if part == 1 {
        let ghost sv = seed_vals(lines@[0]@);
        proof {
            assert(almenac.seeds@.len() == sv.len());
        }
        lowest_location(lines, almenac)
    } else {
        Ok(0)
    }
}

} // verus!
