//! Turning a raw command-line query into a plan.
//!
//! A query is the argument vector as byte strings.  Each function here
//! decides what a query asks for and hands back a plan of plain values;
//! fetching, file access and rendering happen elsewhere, against these
//! plans.

use vstd::prelude::*;
use crate::keybytes::{bytes_eq, dec_val, fold, fold_bytes, is_digit};
use crate::layout::{wf_index, Lookup};
use crate::search::lookup;

verus! {

/// Why a query was refused.
#[derive(Clone, Copy, PartialEq, Eq, Structural, Debug)]
pub enum QueryError {
    /// The query names no subject (no player, no team).
    QueryTooShort,
    /// No game matched the query.
    GameError,
    /// The index stores no entry for the key.
    EntryError,
    /// The dataset name of an update query names no known dataset.
    DataBaseError,
    /// The index file violates its layout.
    MalformedIndex,
}

/// Which dataset an update query rebuilds.
#[derive(Clone, Copy, PartialEq, Eq, Structural, Debug)]
pub enum UpdateTarget {
    Players,
    Teams,
}

/// The season selection of a player-stats query.
#[derive(Clone, Copy, PartialEq, Eq, Structural, Debug)]
pub enum SeasonType {
    Career,
    YearByYear,
    Season,
}

/// What a player-stats query asks for.
#[derive(PartialEq, Eq, Debug)]
pub struct StatsPlan {
    pub player: Vec<u8>,
    pub season_type: SeasonType,
}

/// What a games query asks for.
#[derive(PartialEq, Eq, Debug)]
pub enum GamesPlan {
    /// No team given: today's games across the league.
    Today,
    /// One team's game, on the given date (empty: today).
    TeamGame { team: Vec<u8>, date: Vec<u8> },
}

/// Whether a season-games query asks for results or the schedule.
#[derive(Clone, Copy, PartialEq, Eq, Structural, Debug)]
pub enum SeasonGamesKind {
    Results,
    Schedule,
}

/// What a season-games query asks for.
#[derive(PartialEq, Eq, Debug)]
pub struct SeasonGamesPlan {
    pub team: Vec<u8>,
    pub kind: SeasonGamesKind,
    pub limit: u64,
}

/// What a team-stats query asks for.
#[derive(PartialEq, Eq, Debug)]
pub struct TeamStatsPlan {
    pub team: Vec<u8>,
    pub hitting: bool,
    pub pitching: bool,
}

/// The query parameter at `i`, or the empty string when the query is too
/// short: every parameter of these queries defaults to empty.
pub open spec fn param_at(q: Seq<Seq<u8>>, i: int) -> Seq<u8> {
    if 0 <= i < q.len() {
        q[i]
    } else {
        Seq::empty()
    }
}

/// Reads the query parameter at `i`, case folded, with the empty string
/// as the default.
#[verifier::loop_isolation(false)]
fn folded_param(query: &Vec<Vec<u8>>, i: usize) -> (r: Vec<u8>)
    ensures
        r@ == fold(param_at(query.deep_view(), i as int)),
{
    let ghost qd = query.deep_view();
    proof {
        assert(forall|t: int| 0 <= t < qd.len() ==> #[trigger] qd[t] == query@[t]@);
    }
    if i < query.len() {
        fold_bytes(&query[i])
    } else {
        let r: Vec<u8> = Vec::new();
        proof {
            assert(fold(Seq::<u8>::empty()) =~= Seq::<u8>::empty());
        }
        r
    }
}

/// True when `s` is the single byte `b`.
pub open spec fn is_byte(s: Seq<u8>, b: u8) -> bool {
    s.len() == 1 && s[0] == b
}

/// Which dataset an update query rebuilds: `p` asks for the player index,
/// `t` for the team index, anything else is refused.
pub open spec fn spec_update_target(q: Seq<Seq<u8>>) -> Result<UpdateTarget, QueryError> {
    let d = fold(param_at(q, 2));
    if is_byte(d, 0x70) {
        Ok(UpdateTarget::Players)
    } else if is_byte(d, 0x74) {
        Ok(UpdateTarget::Teams)
    } else {
        Err(QueryError::DataBaseError)
    }
}

/// Decides which dataset an update query rebuilds.
pub fn update_database(query: &Vec<Vec<u8>>) -> (r: Result<UpdateTarget, QueryError>)
    ensures
        r == spec_update_target(query.deep_view()),
{
    let d = folded_param(query, 2);
    if d.len() == 1 && d[0] == 0x70 {
        Ok(UpdateTarget::Players)
    } else if d.len() == 1 && d[0] == 0x74 {
        Ok(UpdateTarget::Teams)
    } else {
        Err(QueryError::DataBaseError)
    }
}

/// The season selection of a stats query: `c` career, `y` year by year,
/// anything else (including nothing) the current season.
pub open spec fn spec_season_type(p: Seq<u8>) -> SeasonType {
    let d = fold(p);
    if is_byte(d, 0x63) {
        SeasonType::Career
    } else if is_byte(d, 0x79) {
        SeasonType::YearByYear
    } else {
        SeasonType::Season
    }
}

/// Plans a player-stats query: the player key is the third argument, the
/// optional fourth selects the season range.  A query without a player is
/// refused.
pub fn stats_query(query: &Vec<Vec<u8>>) -> (r: Result<StatsPlan, QueryError>)
    ensures
        query.deep_view().len() < 3 ==> r == Err::<StatsPlan, QueryError>(
            QueryError::QueryTooShort,
        ),
        query.deep_view().len() >= 3 ==> match r {
            Ok(plan) => plan.player@ == param_at(query.deep_view(), 2) && plan.season_type
                == spec_season_type(param_at(query.deep_view(), 3)),
            Err(_) => false,
        },
{
    let ghost qd = query.deep_view();
    proof {
        assert(forall|t: int| 0 <= t < qd.len() ==> #[trigger] qd[t] == query@[t]@);
    }
    if query.len() < 3 {
        return Err(QueryError::QueryTooShort);
    }
    let d = folded_param(query, 3);
    let season_type = if d.len() == 1 && d[0] == 0x63 {
        SeasonType::Career
    } else if d.len() == 1 && d[0] == 0x79 {
        SeasonType::YearByYear
    } else {
        SeasonType::Season
    };
    Ok(StatsPlan { player: crate::keybytes::copy_bytes(&query[2]), season_type })
}

/// Plans a games query: without a team it shows today's games, with one
/// it shows that team's game on the (optionally) given date.
pub fn games_query(query: &Vec<Vec<u8>>) -> (r: GamesPlan)
    ensures
        fold(param_at(query.deep_view(), 2)).len() == 0 ==> r == GamesPlan::Today,
        fold(param_at(query.deep_view(), 2)).len() != 0 ==> match r {
            GamesPlan::Today => false,
            GamesPlan::TeamGame { team, date } => team@ == fold(param_at(query.deep_view(), 2))
                && date@ == param_at(query.deep_view(), 3),
        },
{
    let ghost qd = query.deep_view();
    proof {
        assert(forall|t: int| 0 <= t < qd.len() ==> #[trigger] qd[t] == query@[t]@);
    }
    let team = folded_param(query, 2);
    if team.len() == 0 {
        GamesPlan::Today
    } else {
        let date = if query.len() > 3 {
            crate::keybytes::copy_bytes(&query[3])
        } else {
            Vec::new()
        };
        proof {
            if !(3 < qd.len()) {
                assert(param_at(qd, 3) =~= Seq::<u8>::empty());
            }
        }
        GamesPlan::TeamGame { team, date }
    }
}

/// The numeric value of a query parameter: defined exactly for non-empty
/// all-digit strings whose value fits a `u64`.
pub open spec fn spec_parse_dec(s: Seq<u8>) -> Option<int> {
    if s.len() >= 1 && (forall|i: int| 0 <= i < s.len() ==> is_digit(#[trigger] s[i])) && dec_val(s)
        <= u64::MAX as int {
        Some(dec_val(s))
    } else {
        None
    }
}

/// Extending a digit string cannot shrink its value.
proof fn lemma_dec_val_extend(s: Seq<u8>, i: int)
    requires
        0 <= i <= s.len(),
        forall|j: int| 0 <= j < s.len() ==> is_digit(#[trigger] s[j]),
    ensures
        dec_val(s) >= dec_val(s.take(i)),
    decreases s.len() - i,
{
    if i < s.len() {
        assert(forall|j: int| 0 <= j < i ==> is_digit(#[trigger] s.take(i)[j]));
        crate::keybytes::lemma_dec_val_bound(s.take(i));
        assert(s.take(i + 1).drop_last() =~= s.take(i));
        assert(s.take(i + 1).last() == s[i]);
        assert(dec_val(s.take(i + 1)) == 10 * dec_val(s.take(i)) + s[i] - 0x30);
        lemma_dec_val_extend(s, i + 1);
        assert(s.take(s.len() as int) =~= s);
    } else {
        assert(s.take(i) =~= s);
    }
}

/// Parses a decimal query parameter, refusing empty or non-numeric text
/// and values beyond `u64`.
#[verifier::loop_isolation(false)]
fn parse_dec(s: &Vec<u8>) -> (r: Option<u64>)
    ensures
        match r {
            Some(v) => spec_parse_dec(s@) == Some(v as int),
            None => spec_parse_dec(s@) == None::<int>,
        },
{
    if s.len() == 0 {
        return None;
    }
    let mut acc: u64 = 0;
    let mut i: usize = 0;
    while i < s.len()
        invariant
            0 <= i <= s@.len(),
            s@.len() >= 1,
            forall|j: int| 0 <= j < i ==> is_digit(#[trigger] s@[j]),
            acc as int == dec_val(s@.take(i as int)),
        decreases s@.len() - i,
    {
        let b = s[i];
        if !(0x30 <= b && b <= 0x39) {
            return None;
        }
        let d: u64 = (b - 0x30) as u64;
        proof {
            assert(s@.take(i + 1).drop_last() =~= s@.take(i as int));
            assert(s@.take(i + 1).last() == s@[i as int]);
            vstd::arithmetic::div_mod::lemma_fundamental_div_mod(
                u64::MAX as int - d as int,
                10,
            );
        }
        if acc > (u64::MAX - d) / 10 {
            // the value has already outgrown a u64, and more digits can
            // only make it larger
            proof {
                assert(10 * (acc as int) + d > u64::MAX as int);
                if forall|j: int| 0 <= j < s@.len() ==> is_digit(#[trigger] s@[j]) {
                    lemma_dec_val_extend(s@, i + 1);
                }
            }
            return None;
        }
        proof {
            assert(10 * (acc as int) + d <= u64::MAX as int);
        }
        acc = 10 * acc + d;
        i = i + 1;
    }
    proof {
        assert(s@.take(s@.len() as int) =~= s@);
    }
    Some(acc)
}

/// The row limit of a season-games query: its (optional) fourth argument
/// as a number, with a default of eight for anything unusable.
pub open spec fn spec_limit(q: Seq<Seq<u8>>) -> int {
    if 3 < q.len() {
        match spec_parse_dec(q[3]) {
            Some(v) => v,
            None => 8,
        }
    } else {
        8
    }
}

/// Plans a season-games query (`results` or the upcoming schedule for one
/// team): the second argument picks the kind, the third names the team,
/// the optional fourth limits the rows.
pub fn season_games_query(query: &Vec<Vec<u8>>) -> (r: SeasonGamesPlan)
    requires
        query.deep_view().len() >= 2,
    ensures
        r.team@ == fold(param_at(query.deep_view(), 2)),
        ({
            let d = fold(param_at(query.deep_view(), 1));
            (r.kind == SeasonGamesKind::Results <==> (is_byte(d, 0x72) || d
                == seq![0x72u8, 0x65u8, 0x73u8, 0x75u8, 0x6cu8, 0x74u8, 0x73u8]))
        }),
        r.limit as int == spec_limit(query.deep_view()),
{
    let ghost qd = query.deep_view();
    proof {
        assert(forall|t: int| 0 <= t < qd.len() ==> #[trigger] qd[t] == query@[t]@);
    }
    let team = folded_param(query, 2);
    let kind_word = folded_param(query, 1);
    let mut results_word: Vec<u8> = Vec::new();
    results_word.push(0x72);
    results_word.push(0x65);
    results_word.push(0x73);
    results_word.push(0x75);
    results_word.push(0x6c);
    results_word.push(0x74);
    results_word.push(0x73);
    proof {
        assert(results_word@ =~= seq![0x72u8, 0x65u8, 0x73u8, 0x75u8, 0x6cu8, 0x74u8, 0x73u8]);
    }
    let kind = if (kind_word.len() == 1 && kind_word[0] == 0x72) || bytes_eq(
        &kind_word,
        &results_word,
    ) {
        SeasonGamesKind::Results
    } else {
        SeasonGamesKind::Schedule
    };
    let limit: u64 = if query.len() > 3 {
        match parse_dec(&query[3]) {
            Some(v) => v,
            None => 8,
        }
    } else {
        8
    };
    proof {
        if !(3 < qd.len()) {
            assert(spec_limit(qd) == 8);
        }
    }
    SeasonGamesPlan { team, kind, limit }
}

/// Plans a team-stats query: the third argument names the team, the
/// optional fourth narrows the tables to hitting (`h`/`hitting`) or
/// pitching (`p`/`pitching`).  A query without a team is refused.
pub fn display_team_stats(query: &Vec<Vec<u8>>) -> (r: Result<TeamStatsPlan, QueryError>)
    ensures
        query.deep_view().len() < 3 ==> r == Err::<TeamStatsPlan, QueryError>(
            QueryError::QueryTooShort,
        ),
        query.deep_view().len() >= 3 ==> match r {
            Ok(plan) => {
                let d = fold(param_at(query.deep_view(), 3));
                &&& plan.team@ == param_at(query.deep_view(), 2)
                &&& ((is_byte(d, 0x68) || d == seq![
                    0x68u8,
                    0x69u8,
                    0x74u8,
                    0x74u8,
                    0x69u8,
                    0x6eu8,
                    0x67u8,
                ]) ==> plan.hitting && !plan.pitching)
                &&& ((is_byte(d, 0x70) || d == seq![
                    0x70u8,
                    0x69u8,
                    0x74u8,
                    0x63u8,
                    0x68u8,
                    0x69u8,
                    0x6eu8,
                    0x67u8,
                ]) ==> !plan.hitting && plan.pitching)
                &&& (!(is_byte(d, 0x68) || d == seq![
                    0x68u8,
                    0x69u8,
                    0x74u8,
                    0x74u8,
                    0x69u8,
                    0x6eu8,
                    0x67u8,
                ] || is_byte(d, 0x70) || d == seq![
                    0x70u8,
                    0x69u8,
                    0x74u8,
                    0x63u8,
                    0x68u8,
                    0x69u8,
                    0x6eu8,
                    0x67u8,
                ]) ==> plan.hitting && plan.pitching)
            },
            Err(_) => false,
        },
{
    let ghost qd = query.deep_view();
    proof {
        assert(forall|t: int| 0 <= t < qd.len() ==> #[trigger] qd[t] == query@[t]@);
    }
    if query.len() < 3 {
        return Err(QueryError::QueryTooShort);
    }
    let d = folded_param(query, 3);
    let mut hitting_word: Vec<u8> = Vec::new();
    hitting_word.push(0x68);
    hitting_word.push(0x69);
    hitting_word.push(0x74);
    hitting_word.push(0x74);
    hitting_word.push(0x69);
    hitting_word.push(0x6e);
    hitting_word.push(0x67);
    let mut pitching_word: Vec<u8> = Vec::new();
    pitching_word.push(0x70);
    pitching_word.push(0x69);
    pitching_word.push(0x74);
    pitching_word.push(0x63);
    pitching_word.push(0x68);
    pitching_word.push(0x69);
    pitching_word.push(0x6e);
    pitching_word.push(0x67);
    proof {
        assert(hitting_word@ =~= seq![0x68u8, 0x69u8, 0x74u8, 0x74u8, 0x69u8, 0x6eu8, 0x67u8]);
        assert(pitching_word@ =~= seq![
            0x70u8,
            0x69u8,
            0x74u8,
            0x63u8,
            0x68u8,
            0x69u8,
            0x6eu8,
            0x67u8,
        ]);
    }
    let (hitting, pitching) = if (d.len() == 1 && d[0] == 0x68) || bytes_eq(&d, &hitting_word) {
        (true, false)
    } else if (d.len() == 1 && d[0] == 0x70) || bytes_eq(&d, &pitching_word) {
        (false, true)
    } else {
        (true, true)
    };
    Ok(TeamStatsPlan { team: crate::keybytes::copy_bytes(&query[2]), hitting, pitching })
}

/// The identifier width of the team index.
pub const TEAM_ID_WIDTH: usize = 3;

/// Looks a team abbreviation up in an in-memory image of the team index
/// and returns its flag byte and numeric identifier.  A key that is
/// absent (or cannot fit the key field) is an `EntryError`; a file that
/// breaks the layout is a `MalformedIndex`.
pub fn get_team(data: &Vec<u8>, abbreviation: &Vec<u8>) -> (r: Result<(u8, u64), QueryError>)
    ensures
        match crate::layout::lookup_spec(data@, abbreviation@, TEAM_ID_WIDTH as int) {
            Lookup::Found { aux, id } => wf_index(data@, TEAM_ID_WIDTH as int) ==> r == Ok::<
                (u8, u64),
                QueryError,
            >((aux, id)),
            Lookup::NotFound => wf_index(data@, TEAM_ID_WIDTH as int) ==> r == Err::<
                (u8, u64),
                QueryError,
            >(QueryError::EntryError),
            Lookup::KeyTooLong => wf_index(data@, TEAM_ID_WIDTH as int) ==> r == Err::<
                (u8, u64),
                QueryError,
            >(QueryError::EntryError),
            Lookup::Malformed => true,
        },
        r matches Err(e) ==> (e == QueryError::EntryError || e == QueryError::MalformedIndex),
{
    let res = lookup(data, abbreviation, TEAM_ID_WIDTH);
    match res.outcome {
        Lookup::Found { aux, id } => Ok((aux, id)),
        Lookup::NotFound => Err(QueryError::EntryError),
        Lookup::KeyTooLong => Err(QueryError::EntryError),
        Lookup::Malformed => Err(QueryError::MalformedIndex),
    }
}

} // verus!
