use vstd::prelude::*;

use crate::text::{is_number, lines, lines_of, number_of, parse_number, split_words, views, words};

verus! {

/// A race: how long it lasts, and the farthest distance travelled in it so far.
#[derive(Clone, Copy, Debug, PartialEq, Eq, Structural)]
pub struct Race {
    pub duration: u64,
    pub record_distance: u64,
}

/// Holding the button for `hold` of `duration` travels farther than `record`.
pub open spec fn beats(duration: int, record: int, hold: int) -> bool {
    hold * (duration - hold) > record
}

/// How many holding times below `n` beat the record.
pub open spec fn wins_below(duration: int, record: int, n: int) -> int
    decreases n,
{
    if n <= 0 {
        0
    } else {
        wins_below(duration, record, n - 1) + if beats(duration, record, n - 1) {
            1int
        } else {
            0int
        }
    }
}

/// The product of the ways to win of each race of `rs`.
pub open spec fn margin(rs: Seq<Race>) -> int
    decreases rs.len(),
{
    if rs.len() == 0 {
        1
    } else {
        margin(rs.drop_last()) * wins_below(
            rs.last().duration as int,
            rs.last().record_distance as int,
            rs.last().duration + 1,
        )
    }
}

/// The number of whole holding times, from `0` to the race's duration, that beat the record.
pub fn beat(race: &Race) -> (r: u64)
    ensures
        r == wins_below(race.duration as int, race.record_distance as int, race.duration + 1),
{
    let t = race.duration;
    let mut amount: u64 = 0;
    let mut d: u64 = 0;
    while d < t
        invariant
            d <= t == race.duration,
            amount <= d,
            amount == wins_below(t as int, race.record_distance as int, d as int),
        decreases t - d,
    {
        let rest = t - d;
        assert(d as int * rest as int <= 0xffff_ffff_ffff_ffff * 0xffff_ffff_ffff_ffff)
            by (nonlinear_arith)
            requires
                d <= 0xffff_ffff_ffff_ffff,
                rest <= 0xffff_ffff_ffff_ffff,
        ;
        if (d as u128) * (rest as u128) > race.record_distance as u128 {
            amount = amount + 1;
        }
        d = d + 1;
    }
    assert(t as int * (t - t) == 0);
    amount
}

pub open spec fn wins(race: Race) -> int {
    wins_below(race.duration as int, race.record_distance as int, race.duration + 1)
}

/// The product of the ways to win of each race, or `None` where it does not fit a `u64`.
pub fn margin_of_error(races: &Vec<Race>) -> (r: Option<u64>)
    ensures
        r == (if margin(races@) <= u64::MAX {
            Some(margin(races@) as u64)
        } else {
            None::<u64>
        }),
{
    let mut i: usize = 0;
    while i < races.len()
        invariant
            i <= races@.len(),
            forall|j: int| 0 <= j < i ==> wins(#[trigger] races@[j]) >= 1,
        decreases races@.len() - i,
    {
        if beat(&races[i]) == 0 {
            proof {
                lemma_margin_zero(races@, i as int);
            }
            return Some(0);
        }
        i = i + 1;
    }
    let mut acc: u64 = 1;
    let mut i: usize = 0;
    while i < races.len()
        invariant
            i <= races@.len(),
            forall|j: int| 0 <= j < races@.len() ==> wins(#[trigger] races@[j]) >= 1,
            acc == margin(races@.take(i as int)),
        decreases races@.len() - i,
    {
        assert(races@.take(i + 1).drop_last() =~= races@.take(i as int));
        let w = beat(&races[i]);
        match acc.checked_mul(w) {
            Some(p) => {
                acc = p;
            },
            None => {
                proof {
                    lemma_margin_prefix(races@, i + 1);
                }
                return None;
            },
        }
        i = i + 1;
    }
    assert(races@.take(i as int) =~= races@);
    Some(acc)
}

pub proof fn lemma_margin_zero(rs: Seq<Race>, j: int)
    requires
        0 <= j < rs.len(),
        wins(rs[j]) == 0,
    ensures
        margin(rs) == 0,
    decreases rs.len(),
{
    if j < rs.len() - 1 {
        assert(rs.drop_last()[j] == rs[j]);
        lemma_margin_zero(rs.drop_last(), j);
        let w = wins(rs.last());
        assert(0 * w == 0);
    } else {
        assert(rs.last() == rs[j]);
        let m = margin(rs.drop_last());
        assert(m * 0 == 0);
    }
}

/// Where every race can be won, a longer prefix has no smaller product.
pub proof fn lemma_margin_prefix(rs: Seq<Race>, k: int)
    requires
        0 <= k <= rs.len(),
        forall|j: int| 0 <= j < rs.len() ==> wins(#[trigger] rs[j]) >= 1,
    ensures
        1 <= margin(rs.take(k)) <= margin(rs),
    decreases rs.len(),
{
    if rs.len() == 0 {
        assert(rs.take(k) =~= rs);
    } else if k == rs.len() {
        assert(rs.take(k) =~= rs);
        lemma_margin_prefix(rs.drop_last(), k - 1);
        assert(rs.drop_last().take(k - 1) =~= rs.drop_last());
        assert(rs.last() == rs[rs.len() - 1]);
        let m = margin(rs.drop_last());
        let w = wins(rs.last());
        assert(m * w >= m) by (nonlinear_arith)
            requires
                m >= 1,
                w >= 1,
        ;
    } else {
        lemma_margin_prefix(rs.drop_last(), k);
        assert(rs.drop_last().take(k) =~= rs.take(k));
        lemma_margin_prefix(rs.drop_last(), rs.len() - 1);
        assert(rs.drop_last().take(rs.len() - 1) =~= rs.drop_last());
        assert(rs.last() == rs[rs.len() - 1]);
        let m = margin(rs.drop_last());
        let w = wins(rs.last());
        assert(m * w >= m) by (nonlinear_arith)
            requires
                m >= 1,
                w >= 1,
        ;
    }
}

/// The text has a line of durations and a line of records, each after a label, and a
/// record for every duration.
pub open spec fn is_races_text(text: Seq<char>) -> bool {
    &&& lines_of(text).len() >= 2
    &&& race_words_ok(words(lines_of(text)[0]), words(lines_of(text)[1]))
}

/// Each number after the label of `times` is a `u64` with a `u64` below it in `dists`.
pub open spec fn race_words_ok(times: Seq<Seq<char>>, dists: Seq<Seq<char>>) -> bool {
    forall|k: int|
        1 <= k < times.len() ==> is_number(#[trigger] times[k], u64::MAX as int) && k < dists.len()
            && is_number(dists[k], u64::MAX as int)
}

/// The number of races: one for each word after the label of the first line.
pub open spec fn race_count(text: Seq<char>) -> int {
    let n = words(lines_of(text)[0]).len();
    if n > 0 {
        n - 1
    } else {
        0
    }
}

/// The `k`-th race of the text: its `k + 1`-th words of the first two lines.
pub open spec fn race_of(text: Seq<char>, k: int) -> Race {
    let ls = lines_of(text);
    Race {
        duration: number_of(words(ls[0])[k + 1]) as u64,
        record_distance: number_of(words(ls[1])[k + 1]) as u64,
    }
}

/// The races of a text such as `"Time: 7 15\nDistance: 9 40"`, one for each number on the
/// first line, paired with the number below it.
pub fn get_races(file_content: String) -> (r: Option<Vec<Race>>)
    ensures
        r is Some <==> is_races_text(file_content@),
        r matches Some(rs) ==> {
            &&& rs@.len() == race_count(file_content@)
            &&& forall|k: int| 0 <= k < rs@.len() ==> #[trigger] rs@[k] == race_of(file_content@, k)
        },
{
    let ghost text = file_content@;
    let ls = lines(file_content.as_str());
    assert(views(ls@).len() == ls@.len());
    if ls.len() < 2 {
        return None;
    }
    assert(views(ls@)[0] == ls@[0]@ && views(ls@)[1] == ls@[1]@);
    let times = split_words(&ls[0]);
    let dists = split_words(&ls[1]);
    let ghost tw = words(lines_of(text)[0]);
    let ghost dw = words(lines_of(text)[1]);
    let mut out: Vec<Race> = Vec::new();
    let mut k: usize = 1;
    assert(views(times@).len() == times@.len());
    assert(views(dists@).len() == dists@.len());
    if times.len() == 0 {
        return Some(out);
    }
    while k < times.len()
        invariant
            1 <= k <= times@.len(),
            text == file_content@,
            views(times@) == tw,
            views(dists@) == dw,
            times@.len() == tw.len(),
            dists@.len() == dw.len(),
            tw == words(lines_of(text)[0]),
            dw == words(lines_of(text)[1]),
            lines_of(text).len() >= 2,
            out@.len() == k - 1,
            forall|j: int|
                1 <= j < k ==> is_number(#[trigger] tw[j], u64::MAX as int) && j < dw.len()
                    && is_number(dw[j], u64::MAX as int),
            forall|j: int| 0 <= j < out@.len() ==> #[trigger] out@[j] == race_of(text, j),
        decreases times@.len() - k,
    {
        assert(views(times@)[k as int] == times@[k as int]@);
        if k >= dists.len() {
            assert(!is_races_text(text));
            return None;
        }
        assert(views(dists@)[k as int] == dists@[k as int]@);
        let d = match parse_number(&times[k], u64::MAX) {
            Some(v) => v,
            None => {
                assert(!is_races_text(text));
                return None;
            },
        };
        let rec = match parse_number(&dists[k], u64::MAX) {
            Some(v) => v,
            None => {
                assert(!is_races_text(text));
                return None;
            },
        };
        out.push(Race { duration: d, record_distance: rec });
        k = k + 1;
    }
    assert(race_words_ok(tw, dw));
    Some(out)
}

} // verus!
