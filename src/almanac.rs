use vstd::prelude::*;

use crate::schematic::{is_digit, is_digit_char};
use crate::text::{
    is_number, lines, lines_of, number_of, parse_number, same_chars, split_words, views, words,
};

verus! {

/// The source numbers `start..=last` move by `jump`.
#[derive(Clone, Copy, Debug, PartialEq, Eq, Structural)]
pub struct MapRange {
    pub start: i64,
    pub last: i64,
    pub jump: i64,
}

pub open spec fn in_i64(v: int) -> bool {
    i64::MIN <= v <= i64::MAX
}

pub open spec fn covers(m: MapRange, v: int) -> bool {
    m.start <= v <= m.last
}

/// The first index at or after `i` whose range covers `v` (or the length).
pub open spec fn first_cover(map: Seq<MapRange>, v: int, i: int) -> int
    decreases map.len() - i,
{
    if 0 <= i < map.len() {
        if covers(map[i], v) {
            i
        } else {
            first_cover(map, v, i + 1)
        }
    } else {
        i
    }
}

/// Where `map` sends `v`: moved by the jump of the first range that covers it, else unchanged.
pub open spec fn mapped(map: Seq<MapRange>, v: int) -> int {
    let i = first_cover(map, v, 0);
    if 0 <= i < map.len() {
        v + map[i].jump
    } else {
        v
    }
}

/// `seed` sent through every map in turn; `None` once a value leaves `i64`.
pub open spec fn walk(maps: Seq<Seq<MapRange>>, seed: int) -> Option<int>
    decreases maps.len(),
{
    if maps.len() == 0 {
        if in_i64(seed) {
            Some(seed)
        } else {
            None
        }
    } else {
        match walk(maps.drop_last(), seed) {
            Some(v) => if in_i64(mapped(maps.last(), v)) {
                Some(mapped(maps.last(), v))
            } else {
                None
            },
            None => None,
        }
    }
}

/// Where `map` sends `seed`, or `None` where that leaves `i64`.
pub fn get(map: &Vec<MapRange>, seed: i64) -> (r: Option<i64>)
    ensures
        r == (if in_i64(mapped(map@, seed as int)) {
            Some(mapped(map@, seed as int) as i64)
        } else {
            None::<i64>
        }),
{
    let mut i: usize = 0;
    while i < map.len()
        invariant
            i <= map@.len(),
            first_cover(map@, seed as int, i as int) == first_cover(map@, seed as int, 0),
        decreases map@.len() - i,
    {
        let m = map[i];
        if m.start <= seed && seed <= m.last {
            return seed.checked_add(m.jump);
        }
        i = i + 1;
    }
    Some(seed)
}

/// Seeds, and the maps that send each seed, one after the other, to its location.
#[derive(Clone, Debug)]
pub struct Almanac {
    pub seeds: Vec<i64>,
    pub maps: Vec<Vec<MapRange>>,
}

impl Almanac {
    pub open spec fn maps_view(&self) -> Seq<Seq<MapRange>> {
        self.maps@.map_values(|m: Vec<MapRange>| m@)
    }

    /// Where the maps send `seed`.
    pub fn locate(&self, seed: i64) -> (r: Option<i64>)
        ensures
            r == (match walk(self.maps_view(), seed as int) {
                Some(v) => Some(v as i64),
                None => None::<i64>,
            }),
    {
        let ghost ms = self.maps_view();
        let mut v: i64 = seed;
        let mut i: usize = 0;
        assert(ms.take(0) =~= Seq::<Seq<MapRange>>::empty());
        while i < self.maps.len()
            invariant
                i <= self.maps@.len() == ms.len(),
                ms == self.maps_view(),
                walk(ms.take(i as int), seed as int) == Some(v as int),
            decreases self.maps@.len() - i,
        {
            assert(ms.take(i + 1).drop_last() =~= ms.take(i as int));
            assert(ms.take(i + 1).last() == self.maps@[i as int]@);
            match get(&self.maps[i], v) {
                Some(w) => {
                    v = w;
                },
                None => {
                    proof {
                        lemma_walk_stays_none(ms, i + 1, seed as int);
                    }
                    return None;
                },
            }
            i = i + 1;
        }
        assert(ms.take(i as int) =~= ms);
        Some(v)
    }

    /// The location of every seed, in the order of the seeds; `None` where one leaves `i64`.
    pub fn traverse(&self) -> (r: Option<Vec<i64>>)
        ensures
            r is Some <==> forall|i: int|
                0 <= i < self.seeds@.len() ==> walk(self.maps_view(), #[trigger] self.seeds@[i] as int) is Some,
            r matches Some(ls) ==> ls@.len() == self.seeds@.len() && forall|i: int|
                0 <= i < ls@.len() ==> walk(self.maps_view(), #[trigger] self.seeds@[i] as int)
                    == Some(ls@[i] as int),
    {
        let mut out: Vec<i64> = Vec::new();
        let mut i: usize = 0;
        while i < self.seeds.len()
            invariant
                i <= self.seeds@.len(),
                out@.len() == i,
                forall|j: int|
                    0 <= j < i ==> walk(self.maps_view(), #[trigger] self.seeds@[j] as int) == Some(
                        out@[j] as int,
                    ),
            decreases self.seeds@.len() - i,
        {
            match self.locate(self.seeds[i]) {
                Some(l) => {
                    out.push(l);
                },
                None => {
                    return None;
                },
            }
            i = i + 1;
        }
        Some(out)
    }

    /// The lowest location of any seed; `None` where there is no seed or a location
    /// leaves `i64`.
    pub fn lowest_location(&self) -> (r: Option<i64>)
        ensures
            r matches Some(m) ==> {
                &&& exists|i: int|
                    0 <= i < self.seeds@.len() && walk(self.maps_view(), #[trigger] self.seeds@[i] as int)
                        == Some(m as int)
                &&& forall|i: int|
                    0 <= i < self.seeds@.len() ==> (walk(self.maps_view(), #[trigger] self.seeds@[i] as int) matches Some(l) && m <= l)
            },
            r is None <==> (self.seeds@.len() == 0 || exists|i: int|
                0 <= i < self.seeds@.len() && walk(self.maps_view(), #[trigger] self.seeds@[i] as int) is None),
    {
        let locations = match self.traverse() {
            Some(ls) => ls,
            None => {
                return None;
            },
        };
        if locations.len() == 0 {
            return None;
        }
        let mut m: i64 = locations[0];
        let mut k: usize = 0;
        let mut i: usize = 1;
        while i < locations.len()
            invariant
                1 <= i <= locations@.len(),
                k < i,
                m == locations@[k as int],
                forall|j: int| 0 <= j < i ==> m <= #[trigger] locations@[j],
            decreases locations@.len() - i,
        {
            if locations[i] < m {
                m = locations[i];
                k = i;
            }
            i = i + 1;
        }
        assert(walk(self.maps_view(), self.seeds@[k as int] as int) == Some(m as int));
        Some(m)
    }
}

proof fn lemma_walk_stays_none(ms: Seq<Seq<MapRange>>, k: int, seed: int)
    requires
        0 <= k <= ms.len(),
        walk(ms.take(k), seed) is None,
    ensures
        walk(ms, seed) is None,
    decreases ms.len() - k,
{
    if k < ms.len() {
        assert(ms.take(k + 1).drop_last() =~= ms.take(k));
        lemma_walk_stays_none(ms, k + 1, seed);
    } else {
        assert(ms.take(k) =~= ms);
    }
}

pub open spec fn seeds_label() -> Seq<char> {
    seq!['s', 'e', 'e', 'd', 's', ':']
}

/// The words of the first line that stand for seeds: all of them but a leading `seeds:`.
pub open spec fn seed_words(text: Seq<char>) -> Seq<Seq<char>> {
    let ws = words(lines_of(text)[0]);
    if ws.len() > 0 && ws[0] == seeds_label() {
        ws.drop_first()
    } else {
        ws
    }
}

pub open spec fn all_numbers(ws: Seq<Seq<char>>, bound: int) -> bool {
    forall|k: int| 0 <= k < ws.len() ==> is_number(#[trigger] ws[k], bound)
}

fn is_seeds_label(w: &Vec<char>) -> (r: bool)
    ensures
        r == (w@ == seeds_label()),
{
    let label: Vec<char> = vec!['s', 'e', 'e', 'd', 's', ':'];
    assert(label@ =~= seeds_label());
    same_chars(w, &label)
}

/// Parses every word of `ws[from..]` as a number no larger than `i64::MAX`.
fn parse_numbers(ws: &Vec<Vec<char>>, from: usize) -> (r: Option<Vec<i64>>)
    requires
        from <= ws@.len(),
    ensures
        r is Some <==> all_numbers(views(ws@).skip(from as int), i64::MAX as int),
        r matches Some(ns) ==> ns@.len() == ws@.len() - from && forall|k: int|
            0 <= k < ns@.len() ==> #[trigger] ns@[k] == number_of(ws@[from + k]@),
{
    let ghost rest = views(ws@).skip(from as int);
    let mut out: Vec<i64> = Vec::new();
    let mut i: usize = from;
    while i < ws.len()
        invariant
            from <= i <= ws@.len(),
            rest == views(ws@).skip(from as int),
            rest.len() == ws@.len() - from,
            out@.len() == i - from,
            forall|k: int| 0 <= k < i - from ==> is_number(#[trigger] rest[k], i64::MAX as int),
            forall|k: int| 0 <= k < out@.len() ==> #[trigger] out@[k] == number_of(ws@[from + k]@),
        decreases ws@.len() - i,
    {
        assert(rest[i - from] == ws@[i as int]@);
        match parse_number(&ws[i], i64::MAX as u64) {
            Some(v) => {
                out.push(v as i64);
            },
            None => {
                return None;
            },
        }
        i = i + 1;
    }
    Some(out)
}

/// The seeds on the first line of an almanac, such as `"seeds: 79 14 55 13"`.
pub fn get_seeds(almanac_lines: &str) -> (r: Option<Vec<i64>>)
    ensures
        r is Some <==> all_numbers(seed_words(almanac_lines@), i64::MAX as int),
        r matches Some(ns) ==> ns@.len() == seed_words(almanac_lines@).len() && forall|k: int|
            0 <= k < ns@.len() ==> #[trigger] ns@[k] == number_of(seed_words(almanac_lines@)[k]),
{
    let ls = lines(almanac_lines);
    assert(views(ls@)[0] == ls@[0]@);
    let ws = split_words(&ls[0]);
    let from: usize = if ws.len() > 0 && is_seeds_label(&ws[0]) {
        1
    } else {
        0
    };
    assert(views(ws@).len() == ws@.len());
    assert(ws@.len() > 0 ==> views(ws@)[0] == ws@[0]@);
    assert(views(ws@).skip(from as int) == seed_words(almanac_lines@));
    let r = parse_numbers(&ws, from);
    proof {
        if r is Some {
            assert forall|k: int| 0 <= k < ws@.len() - from implies ws@[from + k]@ == #[trigger] seed_words(almanac_lines@)[k] by {
                assert(views(ws@)[from + k] == ws@[from + k]@);
            }
        }
    }
    r
}

/// One line of a map block: destination, source and length, all numbers.
pub open spec fn is_range_line(l: Seq<char>) -> bool {
    let ws = words(l);
    &&& ws.len() == 3
    &&& is_number(ws[0], i64::MAX as int)
    &&& is_number(ws[1], i64::MAX as int)
    &&& is_number(ws[2], i64::MAX as int)
    &&& number_of(ws[1]) + number_of(ws[2]) - 1 <= i64::MAX
}

/// The range that a line `dest source len` stands for.
pub open spec fn range_of(l: Seq<char>) -> MapRange {
    let ws = words(l);
    let dest = number_of(ws[0]);
    let source = number_of(ws[1]);
    MapRange {
        start: source as i64,
        last: (source + number_of(ws[2]) - 1) as i64,
        jump: (dest - source) as i64,
    }
}

/// A title line without digits, then lines of ranges.
pub open spec fn is_map_block(block: Seq<Seq<char>>) -> bool {
    &&& block.len() >= 1
    &&& forall|i: int| 0 <= i < block[0].len() ==> !is_digit(#[trigger] block[0][i])
    &&& forall|k: int| 1 <= k < block.len() ==> is_range_line(#[trigger] block[k])
}

/// The map of a block of lines: a title, then one `dest source len` line per range.
pub fn create_map(map_lines: &Vec<Vec<char>>) -> (r: Option<Vec<MapRange>>)
    ensures
        r is Some <==> is_map_block(views(map_lines@)),
        r matches Some(m) ==> m@.len() == map_lines@.len() - 1 && forall|k: int|
            0 <= k < m@.len() ==> #[trigger] m@[k] == range_of(map_lines@[k + 1]@),
{
    let ghost b = views(map_lines@);
    assert(b.len() == map_lines@.len());
    if map_lines.len() == 0 {
        return None;
    }
    assert(b[0] == map_lines@[0]@);
    let title = &map_lines[0];
    let mut i: usize = 0;
    while i < title.len()
        invariant
            i <= title@.len(),
            b == views(map_lines@),
            b[0] == title@,
            forall|j: int| 0 <= j < i ==> !is_digit(#[trigger] title@[j]),
        decreases title@.len() - i,
    {
        if is_digit_char(title[i]) {
            assert(b[0][i as int] == title@[i as int]);
            return None;
        }
        i = i + 1;
    }
    let mut out: Vec<MapRange> = Vec::new();
    let mut k: usize = 1;
    while k < map_lines.len()
        invariant
            1 <= k <= map_lines@.len(),
            b == views(map_lines@),
            b.len() == map_lines@.len(),
            b[0] == map_lines@[0]@,
            forall|j: int| 0 <= j < b[0].len() ==> !is_digit(#[trigger] b[0][j]),
            out@.len() == k - 1,
            forall|j: int| 1 <= j < k ==> is_range_line(#[trigger] b[j]),
            forall|j: int| 0 <= j < out@.len() ==> #[trigger] out@[j] == range_of(map_lines@[j + 1]@),
        decreases map_lines@.len() - k,
    {
        assert(b[k as int] == map_lines@[k as int]@);
        let ws = split_words(&map_lines[k]);
        assert(views(ws@).len() == ws@.len());
        if ws.len() != 3 {
            return None;
        }
        assert(views(ws@)[0] == ws@[0]@ && views(ws@)[1] == ws@[1]@ && views(ws@)[2] == ws@[2]@);
        let dest = match parse_number(&ws[0], i64::MAX as u64) {
            Some(v) => v as i64,
            None => {
                return None;
            },
        };
        let source = match parse_number(&ws[1], i64::MAX as u64) {
            Some(v) => v as i64,
            None => {
                return None;
            },
        };
        let len = match parse_number(&ws[2], i64::MAX as u64) {
            Some(v) => v as i64,
            None => {
                return None;
            },
        };
        if source - 1 > i64::MAX - len {
            return None;
        }
        out.push(MapRange { start: source, last: source + (len - 1), jump: dest - source });
        k = k + 1;
    }
    Some(out)
}

/// `ls` cut at every empty line; `k` empty lines give `k + 1` blocks.
pub open spec fn split_blocks(ls: Seq<Seq<char>>) -> Seq<Seq<Seq<char>>>
    decreases ls.len(),
{
    if ls.len() == 0 {
        seq![Seq::empty()]
    } else {
        let init = split_blocks(ls.drop_last());
        if ls.last().len() == 0 {
            init.push(Seq::empty())
        } else {
            init.update(init.len() - 1, init.last().push(ls.last()))
        }
    }
}

/// The blocks of maps: the lines after the seeds and the empty line below them.
pub open spec fn map_blocks(text: Seq<char>) -> Seq<Seq<Seq<char>>> {
    split_blocks(lines_of(text).skip(2))
}

pub open spec fn is_maps_text(text: Seq<char>) -> bool {
    &&& lines_of(text).len() >= 3
    &&& forall|k: int| 0 <= k < map_blocks(text).len() ==> is_map_block(#[trigger] map_blocks(text)[k])
}

pub proof fn lemma_split_blocks_nonempty(ls: Seq<Seq<char>>)
    ensures
        split_blocks(ls).len() >= 1,
    decreases ls.len(),
{
    if ls.len() > 0 {
        lemma_split_blocks_nonempty(ls.drop_last());
    }
}

/// The blocks of `ls[from..]`, split at empty lines.
fn blocks_of(ls: &Vec<Vec<char>>, from: usize) -> (r: Vec<Vec<Vec<char>>>)
    requires
        from <= ls@.len(),
    ensures
        r@.len() == split_blocks(views(ls@).skip(from as int)).len(),
        forall|k: int| 0 <= k < r@.len() ==> views(#[trigger] r@[k]@) == split_blocks(views(ls@).skip(from as int))[k],
{
    let ghost all = views(ls@).skip(from as int);
    let mut done: Vec<Vec<Vec<char>>> = Vec::new();
    let mut cur: Vec<Vec<char>> = Vec::new();
    let mut i: usize = from;
    while i < ls.len()
        invariant
            from <= i <= ls@.len(),
            all == views(ls@).skip(from as int),
            split_blocks(all.take(i - from)).len() == done@.len() + 1,
            forall|k: int| 0 <= k < done@.len() ==> views(#[trigger] done@[k]@) == split_blocks(all.take(i - from))[k],
            views(cur@) == split_blocks(all.take(i - from)).last(),
        decreases ls@.len() - i,
    {
        let ghost p = all.take(i - from);
        let ghost q = all.take(i + 1 - from);
        assert(q.drop_last() =~= p);
        assert(q.last() == ls@[i as int]@);
        proof {
            lemma_split_blocks_nonempty(p);
        }
        let line = ls[i].clone();
        if ls[i].len() == 0 {
            done.push(cur);
            cur = Vec::new();
            assert(views(cur@) =~= split_blocks(q).last());
        } else {
            let ghost before = views(cur@);
            cur.push(line);
            assert(views(cur@) =~= before.push(ls@[i as int]@));
        }
        i = i + 1;
    }
    assert(all.take(i - from) =~= all);
    proof {
        lemma_split_blocks_nonempty(all);
    }
    done.push(cur);
    done
}

/// The maps of an almanac: one per block of lines after the seeds.
pub fn get_maps(almanac_lines: &str) -> (r: Option<Vec<Vec<MapRange>>>)
    ensures
        r is Some <==> is_maps_text(almanac_lines@),
        r matches Some(ms) ==> ms@.len() == map_blocks(almanac_lines@).len() && forall|k: int|
            0 <= k < ms@.len() ==> {
                &&& (#[trigger] ms@[k])@.len() == map_blocks(almanac_lines@)[k].len() - 1
                &&& forall|j: int|
                    0 <= j < ms@[k]@.len() ==> #[trigger] ms@[k]@[j] == range_of(
                        map_blocks(almanac_lines@)[k][j + 1],
                    )
            },
{
    let ghost text = almanac_lines@;
    let ls = lines(almanac_lines);
    assert(views(ls@).len() == ls@.len());
    if ls.len() < 3 {
        return None;
    }
    let blocks = blocks_of(&ls, 2);
    let ghost bs = map_blocks(text);
    let mut out: Vec<Vec<MapRange>> = Vec::new();
    let mut k: usize = 0;
    while k < blocks.len()
        invariant
            k <= blocks@.len() == bs.len(),
            text == almanac_lines@,
            bs == map_blocks(text),
            lines_of(text).len() >= 3,
            forall|j: int| 0 <= j < blocks@.len() ==> views(#[trigger] blocks@[j]@) == bs[j],
            out@.len() == k,
            forall|j: int| 0 <= j < k ==> is_map_block(#[trigger] bs[j]),
            forall|j: int|
                0 <= j < k ==> {
                    &&& (#[trigger] out@[j])@.len() == bs[j].len() - 1
                    &&& forall|i: int|
                        0 <= i < out@[j]@.len() ==> #[trigger] out@[j]@[i] == range_of(bs[j][i + 1])
                },
        decreases blocks@.len() - k,
    {
        assert(views(blocks@[k as int]@) == bs[k as int]);
        match create_map(&blocks[k]) {
            Some(m) => {
                proof {
                    assert forall|i: int| 0 <= i < m@.len() implies #[trigger] m@[i] == range_of(bs[k as int][i + 1]) by {
                        assert(views(blocks@[k as int]@)[i + 1] == blocks@[k as int]@[i + 1]@);
                    }
                }
                out.push(m);
            },
            None => {
                return None;
            },
        }
        k = k + 1;
    }
    Some(out)
}

impl Almanac {
    /// The seeds and maps of an almanac text.
    pub fn from(almanac: String) -> (r: Option<Almanac>)
        ensures
            r is Some <==> all_numbers(seed_words(almanac@), i64::MAX as int) && is_maps_text(
                almanac@,
            ),
            r matches Some(a) ==> {
                &&& a.seeds@.len() == seed_words(almanac@).len()
                &&& forall|k: int|
                    0 <= k < a.seeds@.len() ==> #[trigger] a.seeds@[k] == number_of(
                        seed_words(almanac@)[k],
                    )
                &&& a.maps@.len() == map_blocks(almanac@).len()
                &&& forall|k: int|
                    0 <= k < a.maps@.len() ==> forall|j: int|
                        0 <= j < (#[trigger] a.maps@[k])@.len() ==> #[trigger] a.maps@[k]@[j]
                            == range_of(map_blocks(almanac@)[k][j + 1])
            },
    {
        let seeds = match get_seeds(almanac.as_str()) {
            Some(s) => s,
            None => {
                return None;
            },
        };
        let maps = match get_maps(almanac.as_str()) {
            Some(m) => m,
            None => {
                return None;
            },
        };
        Some(Almanac { seeds, maps })
    }
}

} // verus!
