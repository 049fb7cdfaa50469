//! Engine schematics: a grid of digits, symbols and dots; numbers adjacent
//! to a symbol (diagonals included) are part numbers, and part 1 sums them.

use vstd::prelude::*;

use crate::Error;
use crate::math::Point;

verus! {

/// A number found in the grid: where it starts, how many digits, its value.
#[derive(Debug, Clone, Copy, PartialEq, Eq, Structural)]
pub struct EngineNumber {
    pub start: Point,
    pub len: u32,
    pub value: u32,
}

/// One grid item: a number or a symbol character at a position.
#[derive(Debug, Clone, Copy, PartialEq, Eq, Structural)]
pub enum SchematicPart {
    Number(EngineNumber),
    Symbol(Point, char),
}

/// `b` is an ASCII digit byte.
pub open spec fn is_dig(b: u8) -> bool {
    48 <= b <= 57
}

/// The numeric value of a digit-byte string, most significant first.
pub open spec fn bnum_val(s: Seq<u8>) -> int
    decreases s.len(),
{
    if s.len() == 0 {
        0
    } else {
        bnum_val(s.drop_last()) * 10 + (s.last() - 48)
    }
}

proof fn lemma_bnum_nonneg(s: Seq<u8>)
    requires
        forall|i: int| 0 <= i < s.len() ==> is_dig(#[trigger] s[i]),
    ensures
        bnum_val(s) >= 0,
    decreases s.len(),
{
    if s.len() > 0 {
        lemma_bnum_nonneg(s.drop_last());
    }
}

proof fn lemma_bnum_prefix_le(s: Seq<u8>, i: int)
    requires
        forall|k: int| 0 <= k < s.len() ==> is_dig(#[trigger] s[k]),
        0 <= i <= s.len(),
    ensures
        bnum_val(s.take(i)) <= bnum_val(s),
    decreases s.len() - i,
{
    if i < s.len() {
        lemma_bnum_prefix_le(s, i + 1);
        let t = s.take(i + 1);
        assert(t.drop_last() =~= s.take(i));
        lemma_bnum_nonneg(s.take(i));
        assert(bnum_val(t) == bnum_val(s.take(i)) * 10 + (t.last() - 48));
    } else {
        assert(s.take(i) =~= s);
    }
}

/// The digit value of a byte, if it is one.
pub fn to_digit(byte: u8) -> (r: Option<u32>)
    ensures
        match r {
            Some(d) => is_dig(byte) && d == byte - 48,
            None => !is_dig(byte),
        },
{
    if 48 <= byte && byte <= 57 {
        Some(((byte - 48) as u8) as u32)
    } else {
        None
    }
}

/// The first index `j >= i` that is not a dot, or the line length.
pub open spec fn next_start(s: Seq<u8>, i: int) -> int
    decreases s.len() - i when 0 <= i
{
    if i >= s.len() {
        s.len() as int
    } else if s[i] == 46 {
        next_start(s, i + 1)
    } else {
        i
    }
}

proof fn lemma_next_start(s: Seq<u8>, i: int)
    requires
        0 <= i <= s.len(),
    ensures
        i <= next_start(s, i) <= s.len(),
        forall|j: int| i <= j < next_start(s, i) ==> s[j] == 46,
        next_start(s, i) < s.len() ==> s[next_start(s, i)] != 46,
    decreases s.len() - i,
{
    if i < s.len() && s[i] == 46 {
        lemma_next_start(s, i + 1);
    }
}

/// The first index `j >= i` that is not a digit, or the line length.
pub open spec fn run_end(s: Seq<u8>, i: int) -> int
    decreases s.len() - i when 0 <= i
{
    if i >= s.len() {
        s.len() as int
    } else if is_dig(s[i]) {
        run_end(s, i + 1)
    } else {
        i
    }
}

proof fn lemma_run_end(s: Seq<u8>, i: int)
    requires
        0 <= i <= s.len(),
    ensures
        i <= run_end(s, i) <= s.len(),
        forall|j: int| i <= j < run_end(s, i) ==> is_dig(#[trigger] s[j]),
        run_end(s, i) < s.len() ==> !is_dig(s[run_end(s, i)]),
    decreases s.len() - i,
{
    if i < s.len() && is_dig(s[i]) {
        lemma_run_end(s, i + 1);
    }
}

/// What the next part of the line is and where scanning resumes, starting at
/// `start`: dots are skipped; a digit opens a number run, anything else is a
/// symbol.  The positions and the value must fit their fields.
pub open spec fn part_fits(s: Seq<u8>, start: int, y: int) -> bool {
    let j = next_start(s, start);
    if j == s.len() {
        true
    } else {
        j <= i32::MAX && y <= i32::MAX && (is_dig(s[j]) ==> {
            let e = run_end(s, j);
            e - j <= u32::MAX && bnum_val(s.subrange(j, e)) <= u32::MAX
        })
    }
}

/// The part found at the scan position, if any.
pub open spec fn part_at(s: Seq<u8>, start: int, y: int) -> Option<SchematicPart> {
    let j = next_start(s, start);
    if j == s.len() {
        None
    } else if is_dig(s[j]) {
        let e = run_end(s, j);
        Some(
            SchematicPart::Number(
                EngineNumber {
                    start: Point { x: j as i32, y: y as i32 },
                    len: (e - j) as u32,
                    value: bnum_val(s.subrange(j, e)) as u32,
                },
            ),
        )
    } else {
        Some(SchematicPart::Symbol(Point { x: j as i32, y: y as i32 }, s[j] as char))
    }
}

/// Where scanning resumes after the part at `start`.
pub open spec fn part_next(s: Seq<u8>, start: int) -> int {
    let j = next_start(s, start);
    if j == s.len() {
        s.len() as int
    } else if is_dig(s[j]) {
        run_end(s, j)
    } else {
        j + 1
    }
}

/// Scan one part of the line from `start_index`: `None` past the last part.
/// Fails exactly when a position or a number does not fit its field.
#[verifier::loop_isolation(false)]
pub fn parse_schematic_part(line: &[u8], start_index: usize, y: u32) -> (r: Result<
    (Option<SchematicPart>, usize),
    Error,
>)
    requires
        start_index <= line@.len(),
    ensures
        match r {
            Ok((part, next)) => part_fits(line@, start_index as int, y as int) && part == part_at(
                line@,
                start_index as int,
                y as int,
            ) && next == part_next(line@, start_index as int),
            Err(_) => !part_fits(line@, start_index as int, y as int),
        },
{
    proof {
        lemma_next_start(line@, start_index as int);
    }
    let n = line.len();
    let mut i: usize = start_index;
    while i < n && line[i] == 46
        invariant
            start_index <= i <= n,
            next_start(line@, start_index as int) >= i,
        decreases n - i,
    {
        i = i + 1;
    }
    proof {
        if (i as int) < next_start(line@, start_index as int) {
            assert(line@[i as int] == 46);
            assert(false);
        }
        assert(i as int == next_start(line@, start_index as int));
    }
    if i == n {
        return Ok((None, n));
    }
    if i > i32::MAX as usize {
        return Err(Error::InvalidInput(String::from_str("position does not fit")));
    }
    if y > i32::MAX as u32 {
        return Err(Error::InvalidInput(String::from_str("position does not fit")));
    }
    let b = line[i];
    if 48 <= b && b <= 57 {
        proof {
            lemma_run_end(line@, i as int);
        }
        let mut e: usize = i;
        while e < n && 48 <= line[e] && line[e] <= 57
            invariant
                i <= e <= n,
                run_end(line@, i as int) >= e,
            decreases n - e,
        {
            e = e + 1;
        }
        proof {
            if (e as int) < run_end(line@, i as int) {
                assert(is_dig(line@[e as int]));
                assert(false);
            }
            assert(e as int == run_end(line@, i as int));
        }
        let ghost digits = line@.subrange(i as int, e as int);
        proof {
            lemma_bnum_nonneg(digits);
        }
        let mut value: u32 = 0;
        let mut d: usize = i;
        while d < e
            invariant
                i <= d <= e,
                value == bnum_val(line@.subrange(i as int, d as int)),
            decreases e - d,
        {
            let dig = line[d] - 48;
            proof {
                let t = line@.subrange(i as int, d + 1);
                assert(t.drop_last() =~= line@.subrange(i as int, d as int));
                assert(t.last() == line@[d as int]);
                lemma_bnum_nonneg(line@.subrange(i as int, d as int));
            }
            if value > (u32::MAX - (dig as u32)) / 10 {
                proof {
                    assert(bnum_val(line@.subrange(i as int, d + 1)) > u32::MAX);
                    lemma_bnum_prefix_le(digits, d + 1 - i);
                    assert(digits.take(d + 1 - i) =~= line@.subrange(i as int, d + 1));
                }
                return Err(Error::InvalidInput(String::from_str("number does not fit")));
            }
            value = value * 10 + (dig as u32);
            d = d + 1;
        }
        if e - i > u32::MAX as usize {
            return Err(Error::InvalidInput(String::from_str("number run does not fit")));
        }
        Ok(
            (
                Some(
                    SchematicPart::Number(
                        EngineNumber {
                            start: Point { x: i as i32, y: y as i32 },
                            len: (e - i) as u32,
                            value,
                        },
                    ),
                ),
                e,
            ),
        )
    } else {
        Ok((Some(SchematicPart::Symbol(Point { x: i as i32, y: y as i32 }, b as char)), i + 1))
    }
}

/// The parts of one line from scan position `i` on with their row, in
/// order.
pub open spec fn line_parts_y(s: Seq<u8>, i: int, y: int) -> Seq<SchematicPart>
    decreases vstd::math::max(s.len() - i, 0) when 0 <= i via line_parts_y_decreases
{
    if next_start(s, i) == s.len() {
        Seq::empty()
    } else {
        seq![part_at(s, i, y)->0] + line_parts_y(s, part_next(s, i), y)
    }
}

#[via_fn]
proof fn line_parts_y_decreases(s: Seq<u8>, i: int, y: int) {
    if 0 <= i {
        lemma_part_next(s, i);
    }
}

proof fn lemma_part_next(s: Seq<u8>, i: int)
    requires
        0 <= i,
    ensures
        next_start(s, i) < s.len() ==> i < part_next(s, i) <= s.len(),
{
    if i <= s.len() {
        lemma_next_start(s, i);
        let j = next_start(s, i);
        if j < s.len() && is_dig(s[j]) {
            lemma_run_end(s, j);
        }
    }
}

/// Every part of the line from scan position `i` on fits its fields.
pub open spec fn line_fits(s: Seq<u8>, i: int, y: int) -> bool
    decreases vstd::math::max(s.len() - i, 0) when 0 <= i via line_fits_decreases
{
    if next_start(s, i) == s.len() {
        true
    } else {
        part_fits(s, i, y) && line_fits(s, part_next(s, i), y)
    }
}

#[via_fn]
proof fn line_fits_decreases(s: Seq<u8>, i: int, y: int) {
    if 0 <= i {
        lemma_part_next(s, i);
    }
}

/// The numbers among the parts, in order.
pub open spec fn numbers_of(ps: Seq<SchematicPart>) -> Seq<EngineNumber>
    decreases ps.len(),
{
    if ps.len() == 0 {
        Seq::empty()
    } else {
        (match ps[0] {
            SchematicPart::Number(num) => seq![num],
            SchematicPart::Symbol(_, _) => Seq::empty(),
        }) + numbers_of(ps.drop_first())
    }
}

/// The symbols among the parts with their positions, in order.
pub open spec fn symbols_of(ps: Seq<SchematicPart>) -> Seq<(Point, char)>
    decreases ps.len(),
{
    if ps.len() == 0 {
        Seq::empty()
    } else {
        (match ps[0] {
            SchematicPart::Number(_) => Seq::empty(),
            SchematicPart::Symbol(p, c) => seq![(p, c)],
        }) + symbols_of(ps.drop_first())
    }
}

/// The bytes of a line.
pub open spec fn line_bytes(l: String) -> Seq<u8> {
    vstd::utf8::encode_utf8(l@)
}

/// All numbers of the grid, scanned row by row.
pub open spec fn grid_numbers(ls: Seq<String>, n: int) -> Seq<EngineNumber>
    decreases n,
{
    if n <= 0 {
        Seq::empty()
    } else {
        grid_numbers(ls, n - 1) + numbers_of(line_parts_y(line_bytes(ls[n - 1]), 0, n - 1))
    }
}

/// All symbols of the grid, scanned row by row.
pub open spec fn grid_symbols(ls: Seq<String>, n: int) -> Seq<(Point, char)>
    decreases n,
{
    if n <= 0 {
        Seq::empty()
    } else {
        grid_symbols(ls, n - 1) + symbols_of(line_parts_y(line_bytes(ls[n - 1]), 0, n - 1))
    }
}

/// Every part of the grid fits its fields.
pub open spec fn grid_fits(ls: Seq<String>) -> bool {
    forall|y: int| 0 <= y < ls.len() ==> line_fits(line_bytes(#[trigger] ls[y]), 0, y)
}

/// Prepending one part extends the number and symbol projections in front.
proof fn lemma_numsyms_unfold(p: SchematicPart, tail: Seq<SchematicPart>)
    ensures
        numbers_of(seq![p] + tail) == (match p {
            SchematicPart::Number(num) => seq![num],
            SchematicPart::Symbol(_, _) => Seq::<EngineNumber>::empty(),
        }) + numbers_of(tail),
        symbols_of(seq![p] + tail) == (match p {
            SchematicPart::Number(_) => Seq::<(Point, char)>::empty(),
            SchematicPart::Symbol(pos, c) => seq![(pos, c)],
        }) + symbols_of(tail),
{
    let whole = seq![p] + tail;
    assert(whole[0] == p);
    assert(whole.drop_first() =~= tail);
}

/// Scan the whole grid into its numbers and symbols.
#[verifier::loop_isolation(false)]
pub fn parse_schematic(lines: &Vec<String>) -> (r: Result<
    (Vec<EngineNumber>, Vec<(Point, char)>),
    Error,
>)
    requires
        lines@.len() <= u32::MAX,
    ensures
        match r {
            Ok((nums, syms)) => grid_fits(lines@) && nums@ == grid_numbers(
                lines@,
                lines@.len() as int,
            ) && syms@ == grid_symbols(lines@, lines@.len() as int),
            Err(_) => !grid_fits(lines@),
        },
{
    let mut numbers: Vec<EngineNumber> = Vec::new();
    let mut symbols: Vec<(Point, char)> = Vec::new();
    let mut y: usize = 0;
    while y < lines.len()
        invariant
            0 <= y <= lines@.len(),
            forall|t: int| 0 <= t < y ==> line_fits(line_bytes(#[trigger] lines@[t]), 0, t),
            numbers@ == grid_numbers(lines@, y as int),
            symbols@ == grid_symbols(lines@, y as int),
        decreases lines@.len() - y,
    {
        let byte_line: Vec<u8> = lines[y].as_str().as_bytes_vec();
        let ghost s = line_bytes(lines@[y as int]);
        proof {
            assert(byte_line@ == s);
        }
        let ghost pren = numbers@;
        let ghost pres = symbols@;
        let mut index: usize = 0;
        let mut done = false;
        while !done
            invariant
                0 <= index <= byte_line@.len(),
                byte_line@ == s,
                y < lines@.len(),
                !done ==> (line_fits(s, index as int, y as int) <==> line_fits(s, 0, y as int)),
                !done ==> numbers@ + numbers_of(line_parts_y(s, index as int, y as int)) == pren
                    + numbers_of(line_parts_y(s, 0, y as int)),
                !done ==> symbols@ + symbols_of(line_parts_y(s, index as int, y as int)) == pres
                    + symbols_of(line_parts_y(s, 0, y as int)),
                done ==> line_fits(s, 0, y as int) && numbers@ == pren + numbers_of(
                    line_parts_y(s, 0, y as int),
                ) && symbols@ == pres + symbols_of(line_parts_y(s, 0, y as int)),
            decreases byte_line@.len() - index + (if done {
                0int
            } else {
                1int
            }),
        {
            let ghost oldidx = index as int;
            proof {
                lemma_part_next(s, oldidx);
                lemma_next_start(s, oldidx);
            }
            match parse_schematic_part(byte_line.as_slice(), index, y as u32) {
                Ok((part, next_index)) => {
                    match part {
                        Some(p) => {
                            let ghost tailparts = line_parts_y(s, part_next(s, oldidx), y as int);
                            proof {
                                assert(next_start(s, oldidx) != s.len());
                                assert(line_parts_y(s, oldidx, y as int) == seq![p] + tailparts);
                                lemma_numsyms_unfold(p, tailparts);
                            }
                            let ghost prenums = numbers@;
                            let ghost presyms = symbols@;
                            match p {
                                SchematicPart::Number(num) => {
                                    numbers.push(num);
                                    proof {
                                        assert(numbers@ =~= prenums + seq![num]);
                                        assert((prenums + seq![num]) + numbers_of(tailparts)
                                            =~= prenums + (seq![num] + numbers_of(tailparts)));
                                    }
                                },
                                SchematicPart::Symbol(pos, symbol) => {
                                    symbols.push((pos, symbol));
                                    proof {
                                        assert(symbols@ =~= presyms + seq![(pos, symbol)]);
                                        assert((presyms + seq![(pos, symbol)]) + symbols_of(
                                            tailparts,
                                        ) =~= presyms + (seq![(pos, symbol)] + symbols_of(
                                            tailparts,
                                        )));
                                    }
                                },
                            }
                            index = next_index;
                        },
                        None => {
                            proof {
                                assert(next_start(s, oldidx) == s.len());
                                assert(line_parts_y(s, oldidx, y as int)
                                    =~= Seq::<SchematicPart>::empty());
                                assert(numbers@ + numbers_of(Seq::<SchematicPart>::empty())
                                    =~= numbers@);
                                assert(symbols@ + symbols_of(Seq::<SchematicPart>::empty())
                                    =~= symbols@);
                                assert(line_fits(s, oldidx, y as int));
                            }
                            done = true;
                        },
                    }
                },
                Err(e) => {
                    proof {
                        assert(next_start(s, oldidx) != s.len());
                        assert(!line_fits(s, oldidx, y as int));
                        assert(!line_fits(s, 0, y as int));
                        assert(!grid_fits(lines@)) by {
                            assert(!line_fits(line_bytes(lines@[y as int]), 0, y as int));
                        }
                    }
                    return Err(e);
                },
            }
        }
        y = y + 1;
    }
    Ok((numbers, symbols))
}

/// A symbol stands at the given grid position.
pub open spec fn has_symbol_at(syms: Seq<(Point, char)>, x: int, y: int) -> bool {
    exists|k: int| 0 <= k < syms.len() && (#[trigger] syms[k]).0.x == x && syms[k].0.y == y
}

/// The number touches a symbol: some position from one left of its start to
/// one past its end, on its own row or the rows beside it, holds a symbol.
pub open spec fn is_part_spec(num: EngineNumber, syms: Seq<(Point, char)>) -> bool {
    exists|dx: int, dy: int|
        -1 <= dx <= num.len && -1 <= dy <= 1 && #[trigger] has_symbol_at(
            syms,
            num.start.x + dx,
            num.start.y + dy,
        )
}

/// Whether a symbol stands at the position.
#[verifier::loop_isolation(false)]
fn symbol_at(symbols: &Vec<(Point, char)>, x: i64, y: i64) -> (r: bool)
    ensures
        r == has_symbol_at(symbols@, x as int, y as int),
{
    let mut k: usize = 0;
    while k < symbols.len()
        invariant
            0 <= k <= symbols@.len(),
            forall|t: int|
                0 <= t < k ==> !((#[trigger] symbols@[t]).0.x == x && symbols@[t].0.y == y),
        decreases symbols@.len() - k,
    {
        let p = symbols[k].0;
        if (p.x as i64) == x && (p.y as i64) == y {
            return true;
        }
        k = k + 1;
    }
    false
}

/// Whether the number touches any symbol.
#[verifier::loop_isolation(false)]
pub fn is_part_number(number: &EngineNumber, symbols: &Vec<(Point, char)>) -> (r: bool)
    ensures
        r == is_part_spec(*number, symbols@),
{
    let x0 = number.start.x as i64;
    let y0 = number.start.y as i64;
    let mut dx: i64 = -1;
    while dx <= number.len as i64
        invariant
            -1 <= dx <= number.len + 1,
            forall|a: int, b: int|
                -1 <= a < dx && -1 <= b <= 1 ==> !(#[trigger] has_symbol_at(
                    symbols@,
                    number.start.x + a,
                    number.start.y + b,
                )),
        decreases number.len as i64 - dx + 1,
    {
        if symbol_at(symbols, x0 + dx, y0 - 1) {
            proof {
                assert(has_symbol_at(symbols@, number.start.x + dx as int, number.start.y + (-1)));
            }
            return true;
        }
        if symbol_at(symbols, x0 + dx, y0) {
            proof {
                assert(has_symbol_at(symbols@, number.start.x + dx as int, number.start.y + 0));
            }
            return true;
        }
        if symbol_at(symbols, x0 + dx, y0 + 1) {
            proof {
                assert(has_symbol_at(symbols@, number.start.x + dx as int, number.start.y + 1));
            }
            return true;
        }
        proof {
            assert forall|b: int| -1 <= b <= 1 implies !(#[trigger] has_symbol_at(
                symbols@,
                number.start.x + dx,
                number.start.y + b,
            )) by {
                if b == -1 {
                    assert(!has_symbol_at(symbols@, (x0 + dx) as int, (y0 - 1) as int));
                } else if b == 0 {
                    assert(!has_symbol_at(symbols@, (x0 + dx) as int, y0 as int));
                } else {
                    assert(!has_symbol_at(symbols@, (x0 + dx) as int, (y0 + 1) as int));
                }
            }
        }
        dx = dx + 1;
    }
    false
}

/// The summed values of the part numbers among the first `n` numbers.
pub open spec fn part_sum(nums: Seq<EngineNumber>, syms: Seq<(Point, char)>, n: int) -> int
    decreases n,
{
    if n <= 0 {
        0
    } else {
        part_sum(nums, syms, n - 1) + (if is_part_spec(nums[n - 1], syms) {
            nums[n - 1].value as int
        } else {
            0int
        })
    }
}

proof fn lemma_part_sum_nonneg(nums: Seq<EngineNumber>, syms: Seq<(Point, char)>, n: int)
    ensures
        part_sum(nums, syms, n) >= 0,
    decreases n,
{
    if n > 0 {
        lemma_part_sum_nonneg(nums, syms, n - 1);
    }
}

/// The machine bounds part 1 needs: the grid scan fits its fields and every
/// partial part-number sum fits `u32`.
pub open spec fn part1_fits(ls: Seq<String>) -> bool {
    grid_fits(ls) ==> forall|n: int|
        0 <= n <= grid_numbers(ls, ls.len() as int).len() ==> part_sum(
            grid_numbers(ls, ls.len() as int),
            grid_symbols(ls, ls.len() as int),
            n,
        ) <= u32::MAX
}

/// Sum the values of the numbers that touch a symbol.
#[verifier::loop_isolation(false)]
pub fn sum_part_numbers(lines: &Vec<String>) -> (r: Result<u32, Error>)
    requires
        lines@.len() <= u32::MAX,
        part1_fits(lines@),
    ensures
        match r {
            Ok(w) => grid_fits(lines@) && w == part_sum(
                grid_numbers(lines@, lines@.len() as int),
                grid_symbols(lines@, lines@.len() as int),
                grid_numbers(lines@, lines@.len() as int).len() as int,
            ),
            Err(_) => !grid_fits(lines@),
        },
{
    let (numbers, symbols) = match parse_schematic(lines) {
        Ok(p) => p,
        Err(e) => {
            return Err(e);
        },
    };
    let ghost nums = numbers@;
    let ghost syms = symbols@;
    let mut sum: u32 = 0;
    let mut i: usize = 0;
    while i < numbers.len()
        invariant
            0 <= i <= nums.len(),
            numbers@ == nums,
            symbols@ == syms,
            sum == part_sum(nums, syms, i as int),
        decreases nums.len() - i,
    {
        proof {
            lemma_part_sum_nonneg(nums, syms, i as int);
            assert(part_sum(nums, syms, i + 1) <= u32::MAX);
        }
        if is_part_number(&numbers[i], &symbols) {
            sum = sum + numbers[i].value;
        }
        i = i + 1;
    }
    Ok(sum)
}

/// Evaluate the grid: part 1 sums the part numbers, and any other part is 0.
pub fn challenge(part: u32, lines: &Vec<String>) -> (r: Result<u32, Error>)
    requires
        lines@.len() <= u32::MAX,
        part == 1 ==> part1_fits(lines@),
    ensures
        match r {
            Ok(w) => if part == 1 {
                grid_fits(lines@) && w == part_sum(
                    grid_numbers(lines@, lines@.len() as int),
                    grid_symbols(lines@, lines@.len() as int),
                    grid_numbers(lines@, lines@.len() as int).len() as int,
                )
            } else {
                w == 0
            },
            Err(_) => part == 1 && !grid_fits(lines@),
        },
{
    if part == 1 {
        sum_part_numbers(lines)
    } else {
        Ok(0)
    }
}

} // verus!
