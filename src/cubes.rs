use vstd::prelude::*;

use crate::text::{
    chars_of, is_number, lines, lines_of, number_of, parse_number, same_chars, split_at_char,
    split_on, split_words, views, words,
};

verus! {

pub const MAX_RED: u16 = 12;

pub const MAX_GREEN: u16 = 13;

pub const MAX_BLUE: u16 = 14;

/// The cubes of each colour shown in one round of a game.
#[derive(Clone, Copy, Debug, PartialEq, Eq, Structural)]
pub struct Round {
    pub red: u16,
    pub green: u16,
    pub blue: u16,
}

/// A game: its index and its rounds.
#[derive(Clone, Debug)]
pub struct Game {
    pub index: u16,
    pub rounds: Vec<Round>,
}

pub open spec fn max16(a: u16, b: u16) -> u16 {
    if a >= b {
        a
    } else {
        b
    }
}

pub open spec fn round_valid(r: Round) -> bool {
    r.red <= MAX_RED && r.green <= MAX_GREEN && r.blue <= MAX_BLUE
}

/// The fewest cubes of each colour that make every round of `rs` possible.
pub open spec fn fewest(rs: Seq<Round>) -> Round
    decreases rs.len(),
{
    if rs.len() == 0 {
        Round { red: 0, green: 0, blue: 0 }
    } else {
        let m = fewest(rs.drop_last());
        let l = rs.last();
        Round { red: max16(l.red, m.red), green: max16(l.green, m.green), blue: max16(l.blue, m.blue) }
    }
}

impl Round {
    /// A round with no cubes.
    pub fn new() -> (r: Round)
        ensures
            r == (Round { red: 0, green: 0, blue: 0 }),
    {
        Round { red: 0, green: 0, blue: 0 }
    }

    /// The round is possible with 12 red, 13 green and 14 blue cubes.
    pub fn is_valid(&self) -> (r: bool)
        ensures
            r == round_valid(*self),
    {
        self.red <= MAX_RED && self.green <= MAX_GREEN && self.blue <= MAX_BLUE
    }

    /// The larger count of each colour, of `self` and `other`.
    pub fn get_min_required(&self, other: Round) -> (r: Round)
        ensures
            r == (Round {
                red: max16(self.red, other.red),
                green: max16(self.green, other.green),
                blue: max16(self.blue, other.blue),
            }),
    {
        Round {
            red: if self.red >= other.red {
                self.red
            } else {
                other.red
            },
            green: if self.green >= other.green {
                self.green
            } else {
                other.green
            },
            blue: if self.blue >= other.blue {
                self.blue
            } else {
                other.blue
            },
        }
    }

    /// The product of the three counts.
    pub fn power(&self) -> (r: u64)
        ensures
            r == self.red as int * self.green as int * self.blue as int,
            r < 0x1_0000_0000_0000,
    {
        assert(self.red as int * self.green as int <= 0xffff * 0xffff) by (nonlinear_arith)
            requires
                self.red <= 0xffff,
                self.green <= 0xffff,
        ;
        let rg = self.red as u64 * self.green as u64;
        assert(rg * self.blue as int <= 0xffff * 0xffff * 0xffff) by (nonlinear_arith)
            requires
                rg <= 0xffff * 0xffff,
                self.blue <= 0xffff,
                rg >= 0,
        ;
        rg * self.blue as u64
    }
}

impl Game {
    /// Every round of the game is possible.
    pub fn is_valid(&self) -> (r: bool)
        ensures
            r == forall|i: int| 0 <= i < self.rounds@.len() ==> round_valid(#[trigger] self.rounds@[i]),
    {
        let mut i: usize = 0;
        while i < self.rounds.len()
            invariant
                i <= self.rounds@.len(),
                forall|j: int| 0 <= j < i ==> round_valid(#[trigger] self.rounds@[j]),
            decreases self.rounds@.len() - i,
        {
            if !self.rounds[i].is_valid() {
                return false;
            }
            i = i + 1;
        }
        true
    }

    /// The fewest cubes of each colour with which every round is possible.
    pub fn get_max(&self) -> (r: Round)
        ensures
            r == fewest(self.rounds@),
    {
        let mut acc = Round::new();
        let mut i: usize = 0;
        while i < self.rounds.len()
            invariant
                i <= self.rounds@.len(),
                acc == fewest(self.rounds@.take(i as int)),
            decreases self.rounds@.len() - i,
        {
            assert(self.rounds@.take(i + 1).drop_last() =~= self.rounds@.take(i as int));
            acc = self.rounds[i].get_min_required(acc);
            i = i + 1;
        }
        assert(self.rounds@.take(i as int) =~= self.rounds@);
        acc
    }
}

/// A round that does not read as `count colour, ...`.
#[derive(Clone, Copy, Debug, PartialEq, Eq, Structural)]
pub struct ParseRoundError;

/// A game that does not read as `Game index: round; round; ...`.
#[derive(Clone, Copy, Debug, PartialEq, Eq, Structural)]
pub struct ParseGameError;

pub open spec fn red_word() -> Seq<char> {
    seq!['r', 'e', 'd']
}

pub open spec fn green_word() -> Seq<char> {
    seq!['g', 'r', 'e', 'e', 'n']
}

pub open spec fn blue_word() -> Seq<char> {
    seq!['b', 'l', 'u', 'e']
}

/// A part of a round: a count, then a word naming its colour.
pub open spec fn is_piece(p: Seq<char>) -> bool {
    words(p).len() >= 2 && is_number(words(p)[0], u16::MAX as int)
}

/// `r` with the count of the colour that `p` names set to `p`'s count; other names change
/// nothing.
pub open spec fn apply_piece(r: Round, p: Seq<char>) -> Round {
    let v = number_of(words(p)[0]) as u16;
    let name = words(p)[1];
    if name == red_word() {
        Round { red: v, ..r }
    } else if name == green_word() {
        Round { green: v, ..r }
    } else if name == blue_word() {
        Round { blue: v, ..r }
    } else {
        r
    }
}

/// The round that the parts `ps` describe, read left to right.
pub open spec fn round_of(ps: Seq<Seq<char>>) -> Round
    decreases ps.len(),
{
    if ps.len() == 0 {
        Round { red: 0, green: 0, blue: 0 }
    } else {
        apply_piece(round_of(ps.drop_last()), ps.last())
    }
}

pub open spec fn is_round_text(s: Seq<char>) -> bool {
    forall|k: int| 0 <= k < split_on(s, ',').len() ==> is_piece(#[trigger] split_on(s, ',')[k])
}

/// The parts of a game line: before and after its first `:`.
pub open spec fn game_parts(s: Seq<char>) -> Seq<Seq<char>> {
    split_on(s, ':')
}

/// The rounds of a game line: the parts after its first `:`, cut at `;`.
pub open spec fn game_rounds(s: Seq<char>) -> Seq<Round> {
    split_on(game_parts(s)[1], ';').map_values(|t: Seq<char>| round_of(split_on(t, ',')))
}

/// The index of a game line: the second word before its first `:`.
pub open spec fn game_index(s: Seq<char>) -> int {
    number_of(words(game_parts(s)[0])[1])
}

pub open spec fn is_game_text(s: Seq<char>) -> bool {
    let parts = game_parts(s);
    &&& parts.len() >= 2
    &&& words(parts[0]).len() >= 2
    &&& is_number(words(parts[0])[1], u16::MAX as int)
    &&& forall|k: int|
        0 <= k < split_on(parts[1], ';').len() ==> is_round_text(
            #[trigger] split_on(parts[1], ';')[k],
        )
}

impl Round {
    /// Reads a round such as `"3 blue, 4 red"`; a colour that is not named stays at zero.
    pub fn from_str(s: &str) -> (r: Result<Round, ParseRoundError>)
        ensures
            r is Ok <==> is_round_text(s@),
            r matches Ok(round) ==> round == round_of(split_on(s@, ',')),
    {
        let cs = chars_of(s);
        Round::from_chars(&cs)
    }

    fn from_chars(cs: &Vec<char>) -> (r: Result<Round, ParseRoundError>)
        ensures
            r is Ok <==> is_round_text(cs@),
            r matches Ok(round) ==> round == round_of(split_on(cs@, ',')),
    {
        let pieces = split_at_char(cs, ',');
        let ghost ps = split_on(cs@, ',');
        let red: Vec<char> = vec!['r', 'e', 'd'];
        let green: Vec<char> = vec!['g', 'r', 'e', 'e', 'n'];
        let blue: Vec<char> = vec!['b', 'l', 'u', 'e'];
        assert(red@ =~= red_word() && green@ =~= green_word() && blue@ =~= blue_word());
        let mut round = Round::new();
        let mut k: usize = 0;
        assert(ps.take(0) =~= Seq::<Seq<char>>::empty());
        while k < pieces.len()
            invariant
                k <= pieces@.len() == ps.len(),
                views(pieces@) == ps,
                ps == split_on(cs@, ','),
                red@ == red_word() && green@ == green_word() && blue@ == blue_word(),
                forall|j: int| 0 <= j < k ==> is_piece(#[trigger] ps[j]),
                round == round_of(ps.take(k as int)),
            decreases pieces@.len() - k,
        {
            assert(views(pieces@)[k as int] == pieces@[k as int]@);
            assert(ps.take(k + 1).drop_last() =~= ps.take(k as int));
            let ws = split_words(&pieces[k]);
            assert(views(ws@).len() == ws@.len());
            if ws.len() < 2 {
                return Err(ParseRoundError);
            }
            assert(views(ws@)[0] == ws@[0]@ && views(ws@)[1] == ws@[1]@);
            let v = match parse_number(&ws[0], u16::MAX as u64) {
                Some(v) => v as u16,
                None => {
                    return Err(ParseRoundError);
                },
            };
            if same_chars(&ws[1], &red) {
                round = Round { red: v, ..round };
            } else if same_chars(&ws[1], &green) {
                round = Round { green: v, ..round };
            } else if same_chars(&ws[1], &blue) {
                round = Round { blue: v, ..round };
            }
            k = k + 1;
        }
        assert(ps.take(k as int) =~= ps);
        Ok(round)
    }
}

impl Game {
    /// Reads a game such as `"Game 3: 1 red, 2 blue; 4 green"`.
    pub fn from_str(s: &str) -> (r: Result<Game, ParseGameError>)
        ensures
            r is Ok <==> is_game_text(s@),
            r matches Ok(g) ==> g.index == game_index(s@) && g.rounds@ == game_rounds(s@),
    {
        let cs = chars_of(s);
        Game::from_chars(&cs)
    }

    fn from_chars(cs: &Vec<char>) -> (r: Result<Game, ParseGameError>)
        ensures
            r is Ok <==> is_game_text(cs@),
            r matches Ok(g) ==> g.index == game_index(cs@) && g.rounds@ == game_rounds(cs@),
    {
        let parts = split_at_char(cs, ':');
        let ghost ps = game_parts(cs@);
        assert(views(parts@).len() == parts@.len());
        if parts.len() < 2 {
            return Err(ParseGameError);
        }
        assert(views(parts@)[0] == parts@[0]@ && views(parts@)[1] == parts@[1]@);
        let head = split_words(&parts[0]);
        assert(views(head@).len() == head@.len());
        if head.len() < 2 {
            return Err(ParseGameError);
        }
        assert(views(head@)[1] == head@[1]@);
        let index = match parse_number(&head[1], u16::MAX as u64) {
            Some(v) => v as u16,
            None => {
                return Err(ParseGameError);
            },
        };
        let texts = split_at_char(&parts[1], ';');
        let ghost rs = split_on(ps[1], ';');
        assert(views(texts@).len() == texts@.len());
        let mut rounds: Vec<Round> = Vec::new();
        let mut k: usize = 0;
        while k < texts.len()
            invariant
                k <= texts@.len() == rs.len(),
                views(texts@) == rs,
                rs == split_on(ps[1], ';'),
                ps == game_parts(cs@),
                rounds@.len() == k,
                forall|j: int| 0 <= j < k ==> is_round_text(#[trigger] rs[j]),
                forall|j: int|
                    0 <= j < k ==> #[trigger] rounds@[j] == round_of(split_on(rs[j], ',')),
            decreases texts@.len() - k,
        {
            assert(views(texts@)[k as int] == texts@[k as int]@);
            match Round::from_chars(&texts[k]) {
                Ok(r) => {
                    rounds.push(r);
                },
                Err(_) => {
                    return Err(ParseGameError);
                },
            }
            k = k + 1;
        }
        assert(rounds@ =~= game_rounds(cs@));
        Ok(Game { index, rounds })
    }
}

/// The games of a text, one per line.
pub fn games_of(text: &str) -> (r: Result<Vec<Game>, ParseGameError>)
    ensures
        r is Ok <==> forall|k: int|
            0 <= k < lines_of(text@).len() ==> is_game_text(#[trigger] lines_of(text@)[k]),
        r matches Ok(gs) ==> gs@.len() == lines_of(text@).len() && forall|k: int|
            0 <= k < gs@.len() ==> (#[trigger] gs@[k]).index == game_index(lines_of(text@)[k])
                && gs@[k].rounds@ == game_rounds(lines_of(text@)[k]),
{
    let ls = lines(text);
    let ghost l = lines_of(text@);
    assert(views(ls@).len() == ls@.len());
    let mut out: Vec<Game> = Vec::new();
    let mut k: usize = 0;
    while k < ls.len()
        invariant
            k <= ls@.len() == l.len(),
            views(ls@) == l,
            l == lines_of(text@),
            out@.len() == k,
            forall|j: int| 0 <= j < k ==> is_game_text(#[trigger] l[j]),
            forall|j: int|
                0 <= j < k ==> (#[trigger] out@[j]).index == game_index(l[j])
                    && out@[j].rounds@ == game_rounds(l[j]),
        decreases ls@.len() - k,
    {
        assert(views(ls@)[k as int] == ls@[k as int]@);
        match Game::from_chars(&ls[k]) {
            Ok(g) => {
                out.push(g);
            },
            Err(e) => {
                return Err(e);
            },
        }
        k = k + 1;
    }
    Ok(out)
}

pub open spec fn possible_sum(gs: Seq<Game>) -> int
    decreases gs.len(),
{
    if gs.len() == 0 {
        0
    } else {
        possible_sum(gs.drop_last()) + if forall|i: int|
            0 <= i < gs.last().rounds@.len() ==> round_valid(#[trigger] gs.last().rounds@[i]) {
            gs.last().index as int
        } else {
            0
        }
    }
}

pub open spec fn power_of(r: Round) -> int {
    r.red as int * r.green as int * r.blue as int
}

pub open spec fn power_total(gs: Seq<Game>) -> int
    decreases gs.len(),
{
    if gs.len() == 0 {
        0
    } else {
        power_total(gs.drop_last()) + power_of(fewest(gs.last().rounds@))
    }
}

/// The sum of the indices of the games whose every round is possible.
pub fn possible_games_sum(games: &Vec<Game>) -> (r: u128)
    ensures
        r == possible_sum(games@),
{
    let mut total: u128 = 0;
    let mut k: usize = 0;
    while k < games.len()
        invariant
            k <= games@.len(),
            total == possible_sum(games@.take(k as int)),
            total <= k * 0xffff,
        decreases games@.len() - k,
    {
        assert(games@.take(k + 1).drop_last() =~= games@.take(k as int));
        assert(games@.take(k + 1).last() == games@[k as int]);
        if games[k].is_valid() {
            total = total + games[k].index as u128;
        }
        k = k + 1;
    }
    assert(games@.take(k as int) =~= games@);
    total
}

/// The sum, over the games, of the power of the fewest cubes that make the game possible.
pub fn power_sum(games: &Vec<Game>) -> (r: u128)
    ensures
        r == power_total(games@),
{
    let mut total: u128 = 0;
    let mut k: usize = 0;
    while k < games.len()
        invariant
            k <= games@.len(),
            total == power_total(games@.take(k as int)),
            total <= k * 0x1_0000_0000_0000,
        decreases games@.len() - k,
    {
        assert(games@.take(k + 1).drop_last() =~= games@.take(k as int));
        assert(games@.take(k + 1).last() == games@[k as int]);
        let p = games[k].get_max().power();
        total = total + p as u128;
        k = k + 1;
    }
    assert(games@.take(k as int) =~= games@);
    total
}

} // verus!
