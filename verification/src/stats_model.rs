//! Plain-data models of what the viewer reads from the stats service, and
//! the small decision functions that work on them: orderings for player
//! tables, schedule filtering, and game-time formatting.

use vstd::prelude::*;
use crate::keybytes::{count_until, dec_min, dec_val, find_byte, is_digit};
use crate::search::KeyOrder;

verus! {

/// The ASCII colon that separates hours from minutes in a timestamp.
pub const COLON_BYTE: u8 = 0x3a;

/// The ASCII full stop in an innings-pitched figure.
pub const DOT_BYTE: u8 = 0x2e;

/// A player reference as the stats service returns it.
#[allow(non_snake_case)]
pub struct Player {
    pub fullName: String,
}

/// The season label used when a stat split carries none.
pub fn default_season() -> (r: String)
    ensures
        r@ == "Career"@,
{
    "Career".to_owned()
}

/// The placeholder player used when a stat split names nobody.
pub fn no_name() -> (r: Player)
    ensures
        r.fullName@ == ""@,
{
    Player { fullName: "".to_owned() }
}

/// What the hitter ordering reads from a hitter's season stats: the
/// plate appearances of the first split.
#[allow(non_snake_case)]
pub struct BasicHittingStats {
    pub plateAppearances: i32,
}

/// Orders two hitters for a team table: the one with more plate
/// appearances comes first (the comparison is reversed on purpose, so an
/// ascending sort yields a descending table).
pub fn hitter_comparator(player0: &BasicHittingStats, player1: &BasicHittingStats) -> (r: KeyOrder)
    ensures
        r == KeyOrder::Less <==> player1.plateAppearances < player0.plateAppearances,
        r == KeyOrder::Equal <==> player1.plateAppearances == player0.plateAppearances,
        r == KeyOrder::Greater <==> player1.plateAppearances > player0.plateAppearances,
{
    if player1.plateAppearances < player0.plateAppearances {
        KeyOrder::Less
    } else if player1.plateAppearances == player0.plateAppearances {
        KeyOrder::Equal
    } else {
        KeyOrder::Greater
    }
}

/// What the pitcher ordering reads from a pitcher's season stats: the
/// innings-pitched figure of the first split, a decimal such as `181.2`.
#[allow(non_snake_case)]
pub struct PitchingStats {
    pub inningsPitched: Vec<u8>,
}

/// An innings-pitched figure the ordering accepts: one to fifteen integer
/// digits, optionally followed by a full stop and one more digit.
pub open spec fn valid_innings(s: Seq<u8>) -> bool {
    let c = count_until(s, DOT_BYTE) as int;
    &&& 1 <= c <= 15
    &&& forall|i: int| 0 <= i < c ==> is_digit(#[trigger] s[i])
    &&& (c == s.len() || (c + 2 == s.len() && is_digit(s[c + 1])))
}

/// The numeric value of an innings-pitched figure, in tenths of an
/// inning.
pub open spec fn innings_tenths(s: Seq<u8>) -> int {
    let c = count_until(s, DOT_BYTE) as int;
    if c == s.len() {
        dec_val(s) * 10
    } else {
        dec_val(s.take(c)) * 10 + s[c + 1] - 0x30
    }
}

/// Parses an innings-pitched figure into tenths of an inning.
#[verifier::loop_isolation(false)]
fn parse_innings(s: &Vec<u8>) -> (r: u64)
    requires
        valid_innings(s@),
    ensures
        r as int == innings_tenths(s@),
{
    proof {
        crate::keybytes::lemma_pow10_u64();
    }
    let c = find_byte(s, DOT_BYTE);
    let ghost intpart = s@.take(c as int);
    let mut acc: u64 = 0;
    let mut i: usize = 0;
    while i < c
        invariant
            0 <= i <= c,
            c as nat == count_until(s@, DOT_BYTE),
            valid_innings(s@),
            intpart == s@.take(c as int),
            acc as int == dec_val(intpart.take(i as int)),
            (acc as nat) < crate::keybytes::pow10(i as nat),
            crate::keybytes::pow10(19) == 10_000_000_000_000_000_000,
        decreases c - i,
    {
        let b = s[i];
        proof {
            assert(is_digit(s@[i as int]));
            crate::keybytes::lemma_pow10_increases(i as nat, 15);
            assert(crate::keybytes::pow10(16) == 10 * crate::keybytes::pow10(15));
            crate::keybytes::lemma_pow10_increases(16, 19);
            assert(intpart.take(i + 1).drop_last() =~= intpart.take(i as int));
            assert(intpart.take(i + 1).last() == s@[i as int]);
            assert(crate::keybytes::pow10((i + 1) as nat) == 10 * crate::keybytes::pow10(i as nat));
        }
        acc = 10 * acc + ((b - 0x30) as u64);
        i = i + 1;
    }
    proof {
        assert(intpart.take(c as int) =~= intpart);
        crate::keybytes::lemma_dec_val_bound(intpart);
        crate::keybytes::lemma_pow10_increases(intpart.len(), 15);
        assert(crate::keybytes::pow10(16) == 10 * crate::keybytes::pow10(15));
        crate::keybytes::lemma_pow10_increases(16, 19);
    }
    if c == s.len() {
        proof {
            assert(intpart =~= s@);
        }
        acc * 10
    } else {
        let frac = s[c + 1];
        assert(is_digit(s@[c as int + 1]));
        acc * 10 + ((frac - 0x30) as u64)
    }
}

/// Orders two pitchers for a team table by their innings pitched, most
/// innings first (again reversed on purpose).  The figures are compared
/// as exact decimal values in tenths of an inning.
pub fn pitcher_comparator(player0: &PitchingStats, player1: &PitchingStats) -> (r: KeyOrder)
    requires
        valid_innings(player0.inningsPitched@),
        valid_innings(player1.inningsPitched@),
    ensures
        r == KeyOrder::Less <==> innings_tenths(player1.inningsPitched@) < innings_tenths(
            player0.inningsPitched@,
        ),
        r == KeyOrder::Equal <==> innings_tenths(player1.inningsPitched@) == innings_tenths(
            player0.inningsPitched@,
        ),
        r == KeyOrder::Greater <==> innings_tenths(player1.inningsPitched@) > innings_tenths(
            player0.inningsPitched@,
        ),
{
    let v0 = parse_innings(&player0.inningsPitched);
    let v1 = parse_innings(&player1.inningsPitched);
    if v1 < v0 {
        KeyOrder::Less
    } else if v1 == v0 {
        KeyOrder::Equal
    } else {
        KeyOrder::Greater
    }
}

/// A timestamp the conversion accepts: a first colon preceded by two hour
/// digits and followed by at least the two minute digits.
pub open spec fn est_ok(s: Seq<u8>) -> bool {
    let c = count_until(s, COLON_BYTE) as int;
    &&& 2 <= c
    &&& c + 3 <= s.len()
    &&& is_digit(s[c - 2])
    &&& is_digit(s[c - 1])
}

/// The Eastern time of day for a UTC timestamp: the two hour digits
/// before the first colon are shifted by the fixed offset, rendered in
/// twelve-hour form, and followed by the colon, the two minute bytes and
/// `AM` or `PM`.
pub open spec fn est_spec(s: Seq<u8>) -> Seq<u8> {
    let c = count_until(s, COLON_BYTE) as int;
    let hour24 = (dec_val(s.subrange(c - 2, c)) + 20) % 24;
    let hour12 = (hour24 + 11) % 12 + 1;
    dec_min(hour12 as nat) + s.subrange(c, c + 3) + (if hour24 < 12 {
        seq![0x41u8, 0x4du8]  // AM
    } else {
        seq![0x50u8, 0x4du8]  // PM
    })
}

/// Renders the Eastern time of day of a UTC game timestamp such as
/// `2024-05-01T23:05:00Z`.
pub fn get_eastern_standard_time(date_time: &Vec<u8>) -> (r: Vec<u8>)
    requires
        est_ok(date_time@),
    ensures
        r@ == est_spec(date_time@),
{
    let ghost s = date_time@;
    let n = date_time.len();
    let c = find_byte(date_time, COLON_BYTE);
    proof {
        assert(2 <= c && c as int + 3 <= n as int);
        assert(is_digit(s[c as int - 2]) && is_digit(s[c as int - 1]));
    }
    let d1 = date_time[c - 2];
    let d0 = date_time[c - 1];
    proof {
        let hh = s.subrange(c as int - 2, c as int);
        assert(hh.len() == 2);
        assert(hh.last() == s[c as int - 1]);
        let one = seq![s[c as int - 2]];
        assert(hh.drop_last() =~= one);
        assert(one.drop_last() =~= Seq::<u8>::empty());
        assert(dec_val(Seq::<u8>::empty()) == 0);
        assert(one.len() == 1 && one.last() == s[c as int - 2]);
        assert(dec_val(one) == 10 * dec_val(one.drop_last()) + one.last() - 0x30);
        assert(dec_val(one) == s[c as int - 2] - 0x30);
        assert(dec_val(hh) == 10 * dec_val(hh.drop_last()) + hh.last() - 0x30);
        assert(dec_val(hh) == 10 * (s[c as int - 2] - 0x30) + (s[c as int - 1] - 0x30));
    }
    let hour24: u32 = ((d1 - 0x30) as u32 * 10 + (d0 - 0x30) as u32 + 20) % 24;
    let hour12: u32 = (hour24 + 11) % 12 + 1;
    let mut r = crate::keybytes::dec_min_exec(hour12 as u64);
    r.push(date_time[c]);
    r.push(date_time[c + 1]);
    r.push(date_time[c + 2]);
    if hour24 < 12 {
        r.push(0x41);
        r.push(0x4d);
    } else {
        r.push(0x50);
        r.push(0x4d);
    }
    proof {
        assert(s.subrange(c as int, c as int + 3) =~= seq![s[c as int], s[c as int + 1], s[c as int + 2]]);
        assert(r@ =~= est_spec(s));
    }
    r
}

/// Where a game stands, as far as the schedule views care.
#[derive(Clone, Copy, PartialEq, Eq, Structural, Debug)]
pub enum GameState {
    Preview,
    Live,
    Final,
    Other,
}

/// One side of a game: the team, its score and its season record.
#[derive(Clone, Copy, PartialEq, Eq, Structural, Debug)]
pub struct PlayingTeam {
    pub team_id: i32,
    pub score: i32,
    pub wins: i32,
    pub losses: i32,
}

/// The two sides of a game.
#[derive(Clone, Copy, PartialEq, Eq, Structural, Debug)]
pub struct PlayingTeams {
    pub away: PlayingTeam,
    pub home: PlayingTeam,
}

/// One scheduled game, reduced to what the schedule views read.
#[derive(Clone, Copy, PartialEq, Eq, Structural, Debug)]
pub struct Game {
    pub game_pk: i32,
    pub abstract_state: GameState,
    pub detailed_state: GameState,
    pub teams: PlayingTeams,
}

/// The games of one calendar day.
pub struct GameDate {
    pub games: Vec<Game>,
}

/// A schedule: days of games, in order.
pub struct Schedule {
    pub dates: Vec<GameDate>,
}

/// The two ways the viewer selects games from a schedule.
#[derive(Clone, Copy, PartialEq, Eq, Structural, Debug)]
pub enum GameFilter {
    /// Games whose detailed state is final: past results.
    DetailedFinal,
    /// Games whose abstract state is a preview: the upcoming schedule.
    AbstractPreview,
}

/// Whether one game passes a filter.
pub open spec fn game_passes(g: Game, f: GameFilter) -> bool {
    match f {
        GameFilter::DetailedFinal => g.detailed_state == GameState::Final,
        GameFilter::AbstractPreview => g.abstract_state == GameState::Preview,
    }
}

/// All games of a schedule, in schedule order.
pub open spec fn flat_games(dates: Seq<GameDate>) -> Seq<Game>
    decreases dates.len(),
{
    if dates.len() == 0 {
        Seq::empty()
    } else {
        flat_games(dates.drop_last()) + dates.last().games@
    }
}

/// The games a filter keeps, in schedule order.
pub open spec fn matching_games(dates: Seq<GameDate>, f: GameFilter) -> Seq<Game> {
    flat_games(dates).filter(|g: Game| game_passes(g, f))
}

/// Flattens a schedule and keeps the games that pass the filter, in
/// schedule order.
#[verifier::loop_isolation(false)]
pub fn filter_games(schedule: Schedule, predicate: GameFilter) -> (r: Vec<Game>)
    ensures
        r@ == matching_games(schedule.dates@, predicate),
{
    broadcast use vstd::seq_lib::group_filter_ensures;

    let ghost dates = schedule.dates@;
    let mut games: Vec<Game> = Vec::new();
    let mut i: usize = 0;
    proof {
        reveal(Seq::filter);
        assert(dates.take(0) =~= Seq::<GameDate>::empty());
        assert(games@ =~= matching_games(dates.take(0), predicate));
    }
    while i < schedule.dates.len()
        invariant
            0 <= i <= dates.len(),
            games@ == matching_games(dates.take(i as int), predicate),
        decreases dates.len() - i,
    {
        let day = &schedule.dates[i];
        let ghost day_games = day.games@;
        let mut j: usize = 0;
        while j < day.games.len()
            invariant
                0 <= j <= day_games.len(),
                day_games == schedule.dates@[i as int].games@,
                0 <= i < dates.len(),
                games@ == matching_games(dates.take(i as int), predicate) + day_games.take(
                    j as int,
                ).filter(|g: Game| game_passes(g, predicate)),
            decreases day_games.len() - j,
        {
            proof {
                reveal(Seq::filter);
                assert(day_games.take(j + 1).drop_last() =~= day_games.take(j as int));
                assert(day_games.take(j + 1).last() == day_games[j as int]);
            }
            let g = day.games[j];
            if match predicate {
                GameFilter::DetailedFinal => matches!(g.detailed_state, GameState::Final),
                GameFilter::AbstractPreview => matches!(g.abstract_state, GameState::Preview),
            } {
                games.push(g);
            }
            j = j + 1;
        }
        proof {
            assert(day_games.take(day_games.len() as int) =~= day_games);
            assert(flat_games(dates.take(i + 1)).drop_last()
                =~= flat_games(dates.take(i + 1)).drop_last());
            assert(dates.take(i + 1).drop_last() =~= dates.take(i as int));
            assert(dates.take(i + 1).last() == dates[i as int]);
            assert(flat_games(dates.take(i + 1)) == flat_games(dates.take(i as int)) + day_games);
            Seq::filter_distributes_over_add(
                flat_games(dates.take(i as int)),
                day_games,
                |g: Game| game_passes(g, predicate),
            );
        }
        i = i + 1;
    }
    proof {
        assert(dates.take(dates.len() as int) =~= dates);
    }
    games
}

/// Splits a game into the viewpoint team, its opponent, and the symbol a
/// schedule row shows (`@ ` away, `vs` at home).
pub fn get_team_and_opp<'a>(team_id: i32, game: &'a Game) -> (r: (
    &'a PlayingTeam,
    &'a PlayingTeam,
    &'a str,
))
    ensures
        game.teams.away.team_id == team_id ==> *r.0 == game.teams.away && *r.1 == game.teams.home
            && r.2@ == "@ "@,
        game.teams.away.team_id != team_id ==> *r.0 == game.teams.home && *r.1 == game.teams.away
            && r.2@ == "vs"@,
{
    if game.teams.away.team_id == team_id {
        (&game.teams.away, &game.teams.home, "@ ")
    } else {
        (&game.teams.home, &game.teams.away, "vs")
    }
}

} // verus!
