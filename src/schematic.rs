use vstd::prelude::*;

use crate::text::{lines, lines_of, trimmed, views};

verus! {

pub const FILLER: char = '.';

pub open spec fn is_digit(c: char) -> bool {
    '0' <= c && c <= '9'
}

/// Neither a decimal digit nor the filler character.
pub open spec fn is_symbol(c: char) -> bool {
    !is_digit(c) && c != FILLER
}

pub open spec fn digit_value(c: char) -> int {
    c as int - '0' as int
}

/// Column `c` of `row` begins a maximal run of digits.
pub open spec fn is_run_start(row: Seq<char>, c: int) -> bool {
    &&& 0 <= c < row.len()
    &&& is_digit(row[c])
    &&& (c == 0 || !is_digit(row[c - 1]))
}

/// The first column at or after `c` that holds no digit (or the width).
pub open spec fn run_end(row: Seq<char>, c: int) -> int
    decreases row.len() - c,
{
    if 0 <= c < row.len() && is_digit(row[c]) {
        run_end(row, c + 1)
    } else {
        c
    }
}

/// The starts of the runs of `row` at or after column `c`, left to right.
pub open spec fn run_starts(row: Seq<char>, c: int) -> Seq<int>
    decreases row.len() - c,
{
    if 0 <= c < row.len() {
        if is_run_start(row, c) {
            seq![c].add(run_starts(row, c + 1))
        } else {
            run_starts(row, c + 1)
        }
    } else {
        Seq::empty()
    }
}

/// The base-10 value of the digits `row[start..end]`.
pub open spec fn decimal(row: Seq<char>, start: int, end: int) -> int
    decreases end - start,
{
    if end <= start {
        0
    } else {
        decimal(row, start, end - 1) * 10 + digit_value(row[end - 1])
    }
}

pub open spec fn has_symbol(s: Seq<char>) -> bool {
    exists|i: int| 0 <= i < s.len() && is_symbol(#[trigger] s[i])
}

pub open spec fn window_lo(start: int) -> int {
    if start > 0 {
        start - 1
    } else {
        0
    }
}

pub open spec fn window_hi(end: int, width: int) -> int {
    if end + 1 <= width {
        end + 1
    } else {
        width
    }
}

/// Row `r` of `g` over the window around columns `start..end`, if that row exists.
pub open spec fn window_slice(g: Seq<Seq<char>>, r: int, start: int, end: int) -> Option<
    Seq<char>,
> {
    if 0 <= r < g.len() {
        Some(g[r].subrange(window_lo(start), window_hi(end, g[r].len() as int)))
    } else {
        None
    }
}

pub open spec fn slice_has_symbol(s: Option<Seq<char>>) -> bool {
    match s {
        Some(x) => has_symbol(x),
        None => false,
    }
}

/// The run at `row r, start..end` has a symbol among its eight neighbours.
pub open spec fn is_part(g: Seq<Seq<char>>, r: int, start: int, end: int) -> bool {
    ||| slice_has_symbol(window_slice(g, r - 1, start, end))
    ||| slice_has_symbol(window_slice(g, r, start, end))
    ||| slice_has_symbol(window_slice(g, r + 1, start, end))
}

/// What the run that starts at `row r, column s` adds to the sum.
pub open spec fn contribution(g: Seq<Seq<char>>, r: int, s: int) -> int {
    let e = run_end(g[r], s);
    if is_part(g, r, s, e) {
        decimal(g[r], s, e)
    } else {
        0
    }
}

/// Every run of the rows before `h`, as `(row, start)`, row by row and left to right.
pub open spec fn grid_runs(g: Seq<Seq<char>>, h: int) -> Seq<(int, int)>
    decreases h,
{
    if h <= 0 {
        Seq::empty()
    } else {
        grid_runs(g, h - 1) + run_starts(g[h - 1], 0).map_values(|s: int| (h - 1, s))
    }
}

pub open spec fn all_runs(g: Seq<Seq<char>>) -> Seq<(int, int)> {
    grid_runs(g, g.len() as int)
}

/// The sum of the contributions of the runs in `runs`.
pub open spec fn runs_total(g: Seq<Seq<char>>, runs: Seq<(int, int)>) -> int
    decreases runs.len(),
{
    if runs.len() == 0 {
        0
    } else {
        runs_total(g, runs.drop_last()) + contribution(g, runs.last().0, runs.last().1)
    }
}

/// The sum of all part numbers of the grid.
pub open spec fn part_sum(g: Seq<Seq<char>>) -> int {
    runs_total(g, all_runs(g))
}

pub open spec fn is_rectangular(g: Seq<Seq<char>>) -> bool {
    forall|i: int| 0 <= i < g.len() ==> #[trigger] g[i].len() == g[0].len()
}

/// Some run of the grid is too large for a `u64`.
pub open spec fn has_oversized_run(g: Seq<Seq<char>>) -> bool {
    exists|r: int, s: int|
        0 <= r < g.len() && #[trigger] is_run_start(g[r], s) && decimal(g[r], s, run_end(g[r], s))
            > u64::MAX
}

pub proof fn lemma_run_end_bounds(row: Seq<char>, c: int)
    requires
        0 <= c <= row.len(),
    ensures
        c <= run_end(row, c) <= row.len(),
        run_end(row, c) < row.len() ==> !is_digit(row[run_end(row, c)]),
        forall|j: int| c <= j < run_end(row, c) ==> is_digit(#[trigger] row[j]),
    decreases row.len() - c,
{
    if c < row.len() && is_digit(row[c]) {
        lemma_run_end_bounds(row, c + 1);
    }
}

pub proof fn lemma_run_starts(row: Seq<char>, c: int)
    requires
        0 <= c <= row.len(),
    ensures
        run_starts(row, c).len() <= row.len() - c,
        forall|k: int|
            0 <= k < run_starts(row, c).len() ==> c <= #[trigger] run_starts(row, c)[k]
                && is_run_start(row, run_starts(row, c)[k]),
        forall|s: int| c <= s && is_run_start(row, s) ==> run_starts(row, c).contains(s),
    decreases row.len() - c,
{
    if c < row.len() {
        lemma_run_starts(row, c + 1);
        let rest = run_starts(row, c + 1);
        if is_run_start(row, c) {
            let all = seq![c].add(rest);
            assert forall|k: int| 0 <= k < all.len() implies c <= #[trigger] all[k] && is_run_start(
                row,
                all[k],
            ) by {
                if k > 0 {
                    assert(all[k] == rest[k - 1]);
                }
            }
            assert forall|s: int| c <= s && is_run_start(row, s) implies all.contains(s) by {
                if s == c {
                    assert(all[0] == c);
                } else {
                    let k = choose|k: int| 0 <= k < rest.len() && rest[k] == s;
                    assert(all[k + 1] == s);
                }
            }
        }
    }
}

pub proof fn lemma_decimal_grows(row: Seq<char>, start: int, i: int, end: int)
    requires
        start <= i <= end,
        forall|j: int| start <= j < end ==> is_digit(#[trigger] row[j]),
    ensures
        decimal(row, start, i) <= decimal(row, start, end),
    decreases end - i,
{
    if i < end {
        lemma_decimal_grows(row, start, i + 1, end);
        assert(decimal(row, start, i + 1) == decimal(row, start, i) * 10 + digit_value(row[i]));
        assert(0 <= decimal(row, start, i)) by {
            lemma_decimal_nonneg(row, start, i);
        }
    }
}

pub proof fn lemma_decimal_nonneg(row: Seq<char>, start: int, end: int)
    requires
        forall|j: int| start <= j < end ==> is_digit(#[trigger] row[j]),
    ensures
        0 <= decimal(row, start, end),
    decreases end - start,
{
    if start < end {
        lemma_decimal_nonneg(row, start, end - 1);
    }
}

/// A maximal run of digits: `row`, and the columns `start..end`.
#[derive(Clone, Copy, Debug, PartialEq, Eq)]
pub struct DigitRun {
    pub row: usize,
    pub start: usize,
    pub end: usize,
}

pub fn is_digit_char(c: char) -> (r: bool)
    ensures
        r == is_digit(c),
{
    '0' <= c && c <= '9'
}

pub fn is_symbol_char(c: char) -> (r: bool)
    ensures
        r == is_symbol(c),
{
    !is_digit_char(c) && c != FILLER
}

/// The maximal runs of digits in `line`, left to right, tagged with `row`.
pub fn locate_runs(line: &Vec<char>, row: usize) -> (r: Vec<DigitRun>)
    ensures
        r@.len() == run_starts(line@, 0).len(),
        forall|k: int|
            0 <= k < r@.len() ==> {
                &&& (#[trigger] r@[k]).row == row
                &&& r@[k].start == run_starts(line@, 0)[k]
                &&& r@[k].end == run_end(line@, r@[k].start as int)
            },
{
    let n = line.len();
    let mut out: Vec<DigitRun> = Vec::new();
    let mut in_run = false;
    let mut start: usize = 0;
    let mut j: usize = 0;
    while j < n
        invariant
            j <= n == line@.len(),
            in_run ==> start < j && is_run_start(line@, start as int) && run_end(
                line@,
                start as int,
            ) == run_end(line@, j as int),
            in_run <==> (j > 0 && is_digit(line@[j - 1])),
            out@.map_values(|d: DigitRun| d.start as int) + (if in_run {
                seq![start as int]
            } else {
                Seq::empty()
            }) + run_starts(line@, j as int) == run_starts(line@, 0),
            forall|k: int|
                0 <= k < out@.len() ==> {
                    &&& (#[trigger] out@[k]).row == row
                    &&& out@[k].end == run_end(line@, out@[k].start as int)
                },
        decreases n - j,
    {
        let ghost pre = out@.map_values(|d: DigitRun| d.start as int);
        if is_digit_char(line[j]) {
            if !in_run {
                start = j;
                in_run = true;
                assert(run_starts(line@, j as int) =~= seq![j as int].add(
                    run_starts(line@, j + 1),
                ));
                assert(pre + seq![start as int] + run_starts(line@, j + 1) =~= pre + Seq::<
                    int,
                >::empty() + run_starts(line@, j as int));
            } else {
                assert(pre + seq![start as int] + run_starts(line@, j + 1) =~= pre
                    + seq![start as int] + run_starts(line@, j as int));
            }
        } else {
            if in_run {
                out.push(DigitRun { row, start, end: j });
                in_run = false;
                assert(out@.map_values(|d: DigitRun| d.start as int) =~= pre + seq![start as int]);
                assert(out@.map_values(|d: DigitRun| d.start as int) + Seq::<int>::empty()
                    + run_starts(line@, j + 1) =~= pre + seq![start as int] + run_starts(
                    line@,
                    j as int,
                ));
            } else {
                assert(pre + Seq::<int>::empty() + run_starts(line@, j + 1) =~= pre
                    + Seq::<int>::empty() + run_starts(line@, j as int));
            }
        }
        j = j + 1;
    }
    let ghost pre = out@.map_values(|d: DigitRun| d.start as int);
    if in_run {
        out.push(DigitRun { row, start, end: n });
        assert(out@.map_values(|d: DigitRun| d.start as int) =~= pre + seq![start as int]);
    }
    assert(out@.map_values(|d: DigitRun| d.start as int) =~= run_starts(line@, 0));
    assert forall|k: int| 0 <= k < out@.len() implies out@[k].start == run_starts(line@, 0)[k] by {
        assert(out@.map_values(|d: DigitRun| d.start as int)[k] == out@[k].start as int);
    }
    out
}

/// The base-10 value of `line[start..end]`, or `None` where it is too large for a `u64`.
pub fn run_value(line: &Vec<char>, start: usize, end: usize) -> (r: Option<u64>)
    requires
        start <= end <= line@.len(),
        forall|j: int| start <= j < end ==> is_digit(#[trigger] line@[j]),
    ensures
        r == (if decimal(line@, start as int, end as int) <= u64::MAX {
            Some(decimal(line@, start as int, end as int) as u64)
        } else {
            None::<u64>
        }),
{
    let mut v: u64 = 0;
    let mut i: usize = start;
    while i < end
        invariant
            start <= i <= end <= line@.len(),
            forall|j: int| start <= j < end ==> is_digit(#[trigger] line@[j]),
            v == decimal(line@, start as int, i as int),
        decreases end - i,
    {
        let d = (line[i] as u32 - '0' as u32) as u64;
        proof {
            lemma_decimal_nonneg(line@, start as int, i as int);
            lemma_decimal_grows(line@, start as int, i + 1, end as int);
        }
        match v.checked_mul(10) {
            Some(t) => match t.checked_add(d) {
                Some(u) => {
                    v = u;
                },
                None => {
                    return None;
                },
            },
            None => {
                return None;
            },
        }
        i = i + 1;
    }
    Some(v)
}

/// Why a text cannot be scanned.
#[derive(Clone, Copy, Debug, PartialEq, Eq, Structural)]
pub enum SchematicError {
    /// The text is empty, or its rows differ in length.
    MalformedGrid,
    /// A run of digits is too large for a `u64`.
    NumberParse,
}

/// A text that can be read as a grid: not blank, all rows of one length.
pub open spec fn is_grid_text(s: Seq<char>) -> bool {
    trimmed(s).len() > 0 && is_rectangular(lines_of(s))
}

/// A rectangular grid of characters, one `Vec` per row.
pub struct Schematic {
    lines: Vec<Vec<char>>,
}

impl View for Schematic {
    type V = Seq<Seq<char>>;

    closed spec fn view(&self) -> Seq<Seq<char>> {
        views(self.lines@)
    }
}

pub open spec fn opt_view(o: Option<Vec<char>>) -> Option<Seq<char>> {
    match o {
        Some(v) => Some(v@),
        None => None,
    }
}

/// `v[lo..hi]` as a new vector.
fn slice_of(v: &Vec<char>, lo: usize, hi: usize) -> (r: Vec<char>)
    requires
        lo <= hi <= v@.len(),
    ensures
        r@ == v@.subrange(lo as int, hi as int),
{
    let mut out: Vec<char> = Vec::new();
    let mut i: usize = lo;
    while i < hi
        invariant
            lo <= i <= hi <= v@.len(),
            out@ == v@.subrange(lo as int, i as int),
        decreases hi - i,
    {
        out.push(v[i]);
        assert(out@ =~= v@.subrange(lo as int, i + 1));
        i = i + 1;
    }
    out
}

impl Schematic {
    pub open spec fn wf(&self) -> bool {
        self@.len() >= 1 && is_rectangular(self@)
    }

    /// Reads `schematic` as a grid: trimmed, one row per line.
    pub fn new(schematic: String) -> (r: Result<Schematic, SchematicError>)
        ensures
            r is Ok <==> is_grid_text(schematic@),
            match r {
                Ok(g) => g.wf() && g@ == lines_of(schematic@),
                Err(e) => e == SchematicError::MalformedGrid,
            },
    {
        let rows = lines(schematic.as_str());
        if rows[0].len() == 0 {
            return Err(SchematicError::MalformedGrid);
        }
        let w = rows[0].len();
        let mut i: usize = 1;
        while i < rows.len()
            invariant
                1 <= i <= rows@.len(),
                views(rows@) == lines_of(schematic@),
                w == rows@[0]@.len(),
                forall|k: int| 0 <= k < i ==> #[trigger] rows@[k]@.len() == w,
            decreases rows@.len() - i,
        {
            if rows[i].len() != w {
                assert(views(rows@)[i as int] == rows@[i as int]@);
                assert(views(rows@)[0] == rows@[0]@);
                assert(views(rows@)[i as int].len() != views(rows@)[0].len());
                assert(!is_rectangular(views(rows@)));
                return Err(SchematicError::MalformedGrid);
            }
            i = i + 1;
        }
        let g = Schematic { lines: rows };
        assert forall|k: int| 0 <= k < g@.len() implies #[trigger] g@[k].len() == g@[0].len() by {
            assert(views(rows@)[k] == rows@[k]@);
            assert(views(rows@)[0] == rows@[0]@);
        }
        Ok(g)
    }

    pub fn height(&self) -> (r: usize)
        ensures
            r == self@.len(),
    {
        self.lines.len()
    }

    pub fn width(&self) -> (r: usize)
        requires
            self.wf(),
        ensures
            r == self@[0].len(),
    {
        assert(views(self.lines@)[0] == self.lines@[0]@);
        self.lines[0].len()
    }

    /// The characters of row `r`.
    pub fn line(&self, r: usize) -> (l: &Vec<char>)
        requires
            r < self@.len(),
        ensures
            l@ == self@[r as int],
    {
        assert(views(self.lines@)[r as int] == self.lines@[r as int]@);
        &self.lines[r]
    }

    /// Row `r` over the window around columns `start..end`.
    fn window(&self, r: usize, start: usize, end: usize) -> (w: Vec<char>)
        requires
            r < self@.len(),
            start <= end <= self@[r as int].len(),
        ensures
            window_slice(self@, r as int, start as int, end as int) == Some(w@),
    {
        let line = self.line(r);
        let lo = if start > 0 {
            start - 1
        } else {
            0
        };
        let hi = if end < line.len() {
            end + 1
        } else {
            line.len()
        };
        slice_of(line, lo, hi)
    }

    /// The context of every run of the grid, row by row and left to right.
    pub fn to_numbers(&self) -> (r: Result<Vec<Number>, SchematicError>)
        requires
            self.wf(),
        ensures
            r is Ok <==> !has_oversized_run(self@),
            match r {
                Ok(ns) => {
                    &&& ns@.len() == all_runs(self@).len()
                    &&& forall|k: int|
                        0 <= k < ns@.len() ==> (#[trigger] ns@[k]).is_context_of(
                            self@,
                            all_runs(self@)[k].0,
                            all_runs(self@)[k].1,
                        )
                },
                Err(e) => e == SchematicError::NumberParse,
            },
    {
        let ghost g = self@;
        let h = self.height();
        let mut out: Vec<Number> = Vec::new();
        let mut r: usize = 0;
        while r < h
            invariant
                self.wf(),
                g == self@,
                r <= h == g.len(),
                out@.len() == grid_runs(g, r as int).len(),
                forall|k: int|
                    0 <= k < out@.len() ==> (#[trigger] out@[k]).is_context_of(
                        g,
                        grid_runs(g, r as int)[k].0,
                        grid_runs(g, r as int)[k].1,
                    ),
                forall|q: int, c: int|
                    0 <= q < r && #[trigger] is_run_start(g[q], c) ==> decimal(
                        g[q],
                        c,
                        run_end(g[q], c),
                    ) <= u64::MAX,
            decreases h - r,
        {
            let line = self.line(r);
            let runs = locate_runs(line, r);
            let ghost row = g[r as int];
            let ghost starts = run_starts(row, 0);
            let ghost next = grid_runs(g, r + 1);
            proof {
                lemma_run_starts(row, 0);
                assert(next == grid_runs(g, r as int) + starts.map_values(|c: int| (r as int, c)));
            }
            let mut k: usize = 0;
            while k < runs.len()
                invariant
                    self.wf(),
                    g == self@,
                    r < h == g.len(),
                    row == g[r as int],
                    starts == run_starts(row, 0),
                    next == grid_runs(g, r as int) + starts.map_values(|c: int| (r as int, c)),
                    k <= runs@.len() == starts.len(),
                    forall|j: int|
                        0 <= j < runs@.len() ==> {
                            &&& (#[trigger] runs@[j]).row == r
                            &&& runs@[j].start == starts[j]
                            &&& runs@[j].end == run_end(row, runs@[j].start as int)
                        },
                    forall|j: int|
                        0 <= j < starts.len() ==> 0 <= #[trigger] starts[j] && is_run_start(
                            row,
                            starts[j],
                        ),
                    out@.len() == grid_runs(g, r as int).len() + k,
                    forall|j: int|
                        0 <= j < out@.len() ==> (#[trigger] out@[j]).is_context_of(
                            g,
                            next[j].0,
                            next[j].1,
                        ),
                    forall|j: int|
                        0 <= j < k ==> decimal(
                            row,
                            #[trigger] starts[j],
                            run_end(row, starts[j]),
                        ) <= u64::MAX,
                decreases runs@.len() - k,
            {
                let run = runs[k];
                assert(next[grid_runs(g, r as int).len() + k] == (r as int, starts[k as int]));
                match Number::new(self, &run) {
                    Ok(n) => {
                        out.push(n);
                    },
                    Err(e) => {
                        assert(is_run_start(g[r as int], run.start as int));
                        return Err(e);
                    },
                }
                k = k + 1;
            }
            proof {
                assert forall|q: int, c: int|
                    0 <= q < r + 1 && #[trigger] is_run_start(g[q], c) implies decimal(
                    g[q],
                    c,
                    run_end(g[q], c),
                ) <= u64::MAX by {
                    if q == r {
                        assert(starts.contains(c));
                        let j = choose|j: int| 0 <= j < starts.len() && starts[j] == c;
                        assert(decimal(row, starts[j], run_end(row, starts[j])) <= u64::MAX);
                    }
                }
            }
            r = r + 1;
        }
        Ok(out)
    }
}

/// What a run of digits needs to be judged: its value, and the rows above, at and below it
/// over the window of one column on each side, clipped to the grid.
pub struct Number {
    pub prev_line: Option<Vec<char>>,
    pub line: Vec<char>,
    pub next_line: Option<Vec<char>>,
    pub number: u64,
}

impl Number {
    /// The context of the run of `g` that starts at `row r, column s`.
    pub open spec fn is_context_of(&self, g: Seq<Seq<char>>, r: int, s: int) -> bool {
        let e = run_end(g[r], s);
        &&& opt_view(self.prev_line) == window_slice(g, r - 1, s, e)
        &&& Some(self.line@) == window_slice(g, r, s, e)
        &&& opt_view(self.next_line) == window_slice(g, r + 1, s, e)
        &&& self.number == decimal(g[r], s, e)
    }

    /// Some slice holds a symbol.
    pub open spec fn is_part(&self) -> bool {
        ||| slice_has_symbol(opt_view(self.prev_line))
        ||| has_symbol(self.line@)
        ||| slice_has_symbol(opt_view(self.next_line))
    }

    /// The context of `run`; `NumberParse` where its value does not fit a `u64`.
    pub fn new(schematic: &Schematic, run: &DigitRun) -> (r: Result<Number, SchematicError>)
        requires
            schematic.wf(),
            run.row < schematic@.len(),
            is_run_start(schematic@[run.row as int], run.start as int),
            run.end == run_end(schematic@[run.row as int], run.start as int),
        ensures
            r is Ok <==> decimal(
                schematic@[run.row as int],
                run.start as int,
                run.end as int,
            ) <= u64::MAX,
            match r {
                Ok(n) => n.is_context_of(schematic@, run.row as int, run.start as int),
                Err(e) => e == SchematicError::NumberParse,
            },
    {
        let ghost g = schematic@;
        let line = schematic.line(run.row);
        proof {
            lemma_run_end_bounds(g[run.row as int], run.start as int);
            lemma_decimal_nonneg(g[run.row as int], run.start as int, run.end as int);
        }
        let number = match run_value(line, run.start, run.end) {
            Some(v) => v,
            None => {
                return Err(SchematicError::NumberParse);
            },
        };
        let h = schematic.height();
        let r = run.row;
        let prev_line = if r > 0 {
            Some(schematic.window(r - 1, run.start, run.end))
        } else {
            None
        };
        let next_line = if r + 1 < h {
            Some(schematic.window(r + 1, run.start, run.end))
        } else {
            None
        };
        let line = schematic.window(r, run.start, run.end);
        Ok(Number { prev_line, line, next_line, number })
    }

    /// The number, where a symbol lies among its neighbours.
    pub fn part_number(&self) -> (r: Option<u64>)
        ensures
            r == (if self.is_part() {
                Some(self.number)
            } else {
                None::<u64>
            }),
    {
        if !has_punctuation(&self.prev_line) && !has_punctuation(&self.next_line)
            && !slice_has_punctuation(&self.line) {
            return None;
        }
        Some(self.number)
    }
}

fn slice_has_punctuation(line: &Vec<char>) -> (r: bool)
    ensures
        r == has_symbol(line@),
{
    let mut i: usize = 0;
    while i < line.len()
        invariant
            i <= line@.len(),
            forall|j: int| 0 <= j < i ==> !is_symbol(#[trigger] line@[j]),
        decreases line@.len() - i,
    {
        if is_symbol_char(line[i]) {
            return true;
        }
        i = i + 1;
    }
    false
}

/// Whether `line` is present and holds a symbol.
pub fn has_punctuation(line: &Option<Vec<char>>) -> (r: bool)
    ensures
        r == slice_has_symbol(opt_view(*line)),
{
    match line {
        Some(l) => slice_has_punctuation(l),
        None => false,
    }
}

pub proof fn lemma_runs_total_step(g: Seq<Seq<char>>, runs: Seq<(int, int)>, k: int)
    requires
        0 <= k < runs.len(),
    ensures
        runs_total(g, runs.take(k + 1)) == runs_total(g, runs.take(k)) + contribution(
            g,
            runs[k].0,
            runs[k].1,
        ),
{
    assert(runs.take(k + 1).drop_last() =~= runs.take(k));
}

/// The sum of the part numbers of the grid that `schematic_string` holds.
pub fn part1(schematic_string: String) -> (r: Result<u128, SchematicError>)
    ensures
        !is_grid_text(schematic_string@) ==> r == Err::<u128, SchematicError>(
            SchematicError::MalformedGrid,
        ),
        is_grid_text(schematic_string@) && has_oversized_run(lines_of(schematic_string@)) ==> r
            == Err::<u128, SchematicError>(SchematicError::NumberParse),
        is_grid_text(schematic_string@) && !has_oversized_run(lines_of(schematic_string@)) ==> r
            == Ok::<u128, SchematicError>(part_sum(lines_of(schematic_string@)) as u128)
            && part_sum(lines_of(schematic_string@)) <= u128::MAX,
{
    let schematic = match Schematic::new(schematic_string) {
        Ok(g) => g,
        Err(e) => {
            return Err(e);
        },
    };
    let numbers = match schematic.to_numbers() {
        Ok(ns) => ns,
        Err(e) => {
            return Err(e);
        },
    };
    let ghost g = schematic@;
    let ghost runs = all_runs(g);
    let mut total: u128 = 0;
    let mut k: usize = 0;
    while k < numbers.len()
        invariant
            k <= numbers@.len() == runs.len(),
            forall|j: int|
                0 <= j < numbers@.len() ==> (#[trigger] numbers@[j]).is_context_of(
                    g,
                    runs[j].0,
                    runs[j].1,
                ),
            total == runs_total(g, runs.take(k as int)),
            total <= k * (u64::MAX as int),
        decreases numbers@.len() - k,
    {
        proof {
            lemma_runs_total_step(g, runs, k as int);
            assert(k + 1 <= usize::MAX);
            assert((k + 1) * (u64::MAX as int) <= (usize::MAX as int) * (u64::MAX as int))
                by (nonlinear_arith)
                requires
                    k + 1 <= usize::MAX,
            ;
            assert((k + 1) * (u64::MAX as int) == k * (u64::MAX as int) + u64::MAX)
                by (nonlinear_arith);
        }
        match numbers[k].part_number() {
            Some(v) => {
                total = total + v as u128;
            },
            None => {},
        }
        k = k + 1;
    }
    assert(runs.take(numbers@.len() as int) =~= runs);
    Ok(total)
}

pub proof fn lemma_grid_runs_valid(g: Seq<Seq<char>>, h: int)
    requires
        0 <= h <= g.len(),
    ensures
        forall|k: int|
            0 <= k < grid_runs(g, h).len() ==> 0 <= (#[trigger] grid_runs(g, h)[k]).0 < h
                && is_run_start(g[grid_runs(g, h)[k].0], grid_runs(g, h)[k].1),
    decreases h,
{
    if h > 0 {
        lemma_grid_runs_valid(g, h - 1);
        lemma_run_starts(g[h - 1], 0);
        let pre = grid_runs(g, h - 1);
        let row = run_starts(g[h - 1], 0).map_values(|c: int| (h - 1, c));
        assert forall|k: int| 0 <= k < grid_runs(g, h).len() implies 0 <= (
        #[trigger] grid_runs(g, h)[k]).0 < h && is_run_start(
            g[grid_runs(g, h)[k].0],
            grid_runs(g, h)[k].1,
        ) by {
            if k >= pre.len() {
                assert(grid_runs(g, h)[k] == row[k - pre.len()]);
                assert(run_starts(g[h - 1], 0).contains(run_starts(g[h - 1], 0)[k - pre.len()]));
            } else {
                assert(grid_runs(g, h)[k] == pre[k]);
            }
        }
    }
}

/// A run is a part number exactly when a symbol stands in a cell of the grid that touches
/// it, diagonals included; a run at the edge of the grid looks at the cells that exist there
/// and at nothing beyond them.
pub proof fn lemma_part_iff_symbol_touches(g: Seq<Seq<char>>, r: int, s: int)
    requires
        is_rectangular(g),
        0 <= r < g.len(),
        is_run_start(g[r], s),
    ensures
        is_part(g, r, s, run_end(g[r], s)) <==> exists|q: int, c: int|
            r - 1 <= q <= r + 1 && 0 <= q < g.len() && s - 1 <= c <= run_end(g[r], s) && 0 <= c
                < g[q].len() && is_symbol(#[trigger] g[q][c]),
{
    let e = run_end(g[r], s);
    lemma_run_end_bounds(g[r], s);
    let lo = window_lo(s);
    let hi = window_hi(e, g[r].len() as int);
    assert forall|q: int| r - 1 <= q <= r + 1 && 0 <= q < g.len() implies window_slice(
        g,
        q,
        s,
        e,
    ) == Some(#[trigger] g[q].subrange(lo, hi)) && g[q].len() == g[r].len() by {
        assert(g[q].len() == g[0].len());
        assert(g[r].len() == g[0].len());
    }
    if is_part(g, r, s, e) {
        let q = if slice_has_symbol(window_slice(g, r - 1, s, e)) {
            r - 1
        } else if slice_has_symbol(window_slice(g, r, s, e)) {
            r
        } else {
            r + 1
        };
        let sub = g[q].subrange(lo, hi);
        assert(window_slice(g, q, s, e) == Some(sub));
        let i = choose|i: int| 0 <= i < sub.len() && is_symbol(#[trigger] sub[i]);
        assert(sub[i] == g[q][lo + i]);
    }
    if exists|q: int, c: int|
        r - 1 <= q <= r + 1 && 0 <= q < g.len() && s - 1 <= c <= e && 0 <= c < g[q].len()
            && is_symbol(#[trigger] g[q][c]) {
        let (q, c) = choose|q: int, c: int|
            r - 1 <= q <= r + 1 && 0 <= q < g.len() && s - 1 <= c <= e && 0 <= c < g[q].len()
                && is_symbol(#[trigger] g[q][c]);
        let sub = g[q].subrange(lo, hi);
        assert(window_slice(g, q, s, e) == Some(sub));
        assert(sub[c - lo] == g[q][c]);
        assert(has_symbol(sub));
    }
}

/// In a grid where no character is a symbol, the sum of part numbers is zero.
pub proof fn lemma_no_symbol_sum_zero(g: Seq<Seq<char>>)
    requires
        is_rectangular(g),
        forall|r: int, c: int|
            0 <= r < g.len() && 0 <= c < g[r].len() ==> !is_symbol(#[trigger] g[r][c]),
    ensures
        part_sum(g) == 0,
{
    let runs = all_runs(g);
    lemma_grid_runs_valid(g, g.len() as int);
    assert forall|k: int| 0 <= k <= runs.len() implies runs_total(g, #[trigger] runs.take(k))
        == 0 by {
        lemma_no_symbol_prefix(g, runs, k);
    }
    assert(runs.take(runs.len() as int) =~= runs);
}

proof fn lemma_no_symbol_prefix(g: Seq<Seq<char>>, runs: Seq<(int, int)>, k: int)
    requires
        is_rectangular(g),
        forall|r: int, c: int|
            0 <= r < g.len() && 0 <= c < g[r].len() ==> !is_symbol(#[trigger] g[r][c]),
        runs == all_runs(g),
        forall|j: int|
            0 <= j < runs.len() ==> 0 <= (#[trigger] runs[j]).0 < g.len() && is_run_start(
                g[runs[j].0],
                runs[j].1,
            ),
        0 <= k <= runs.len(),
    ensures
        runs_total(g, runs.take(k)) == 0,
    decreases k,
{
    if k > 0 {
        lemma_no_symbol_prefix(g, runs, k - 1);
        lemma_runs_total_step(g, runs, k - 1);
        let (r, s) = runs[k - 1];
        lemma_part_iff_symbol_touches(g, r, s);
    } else {
        assert(runs.take(0).len() == 0);
    }
}

/// In a grid without digits there are no runs, and the sum of part numbers is zero.
pub proof fn lemma_no_digit_sum_zero(g: Seq<Seq<char>>)
    requires
        forall|r: int, c: int|
            0 <= r < g.len() && 0 <= c < g[r].len() ==> !is_digit(#[trigger] g[r][c]),
    ensures
        all_runs(g).len() == 0,
        part_sum(g) == 0,
{
    lemma_grid_runs_valid(g, g.len() as int);
    if all_runs(g).len() > 0 {
        let (r, s) = all_runs(g)[0];
        assert(is_digit(g[r][s]));
    }
}

/// A one-digit run with a symbol right before or right after it in its row is a part number.
pub proof fn lemma_flanked_digit_is_part(g: Seq<Seq<char>>, r: int, c: int)
    requires
        is_rectangular(g),
        0 <= r < g.len(),
        is_run_start(g[r], c),
        c + 1 == g[r].len() || !is_digit(g[r][c + 1]),
        (c > 0 && is_symbol(g[r][c - 1])) || (c + 1 < g[r].len() && is_symbol(g[r][c + 1])),
    ensures
        run_end(g[r], c) == c + 1,
        contribution(g, r, c) == digit_value(g[r][c]),
{
    assert(run_end(g[r], c + 1) == c + 1);
    lemma_part_iff_symbol_touches(g, r, c);
    if c > 0 && is_symbol(g[r][c - 1]) {
        assert(is_symbol(g[r][c - 1]));
    } else {
        assert(is_symbol(g[r][c + 1]));
    }
    assert(decimal(g[r], c, c) == 0);
}

/// A run with a symbol diagonally above its first digit's left, or diagonally below its
/// last digit's right, is a part number.
pub proof fn lemma_diagonal_symbol_is_part(g: Seq<Seq<char>>, r: int, s: int)
    requires
        is_rectangular(g),
        0 <= r < g.len(),
        is_run_start(g[r], s),
        ({
            let e = run_end(g[r], s);
            ||| (r > 0 && s > 0 && is_symbol(g[r - 1][s - 1]))
            ||| (r + 1 < g.len() && e < g[r].len() && is_symbol(g[r + 1][e]))
        }),
    ensures
        contribution(g, r, s) == decimal(g[r], s, run_end(g[r], s)),
{
    let e = run_end(g[r], s);
    lemma_run_end_bounds(g[r], s);
    lemma_part_iff_symbol_touches(g, r, s);
    if r > 0 && s > 0 && is_symbol(g[r - 1][s - 1]) {
        assert(g[r - 1].len() == g[0].len() && g[r].len() == g[0].len());
        assert(is_symbol(g[r - 1][s - 1]));
    } else {
        assert(g[r + 1].len() == g[0].len() && g[r].len() == g[0].len());
        assert(is_symbol(g[r + 1][e]));
    }
}

} // verus!
