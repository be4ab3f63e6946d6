//! Tally of the scorelines drawn by a match simulation, and of who went
//! through in each knockout draw.

use vstd::prelude::*;
use crate::params::MAX_GOALS;
use crate::ranking::{rank_desc, ranks_before, is_ranking};
use crate::knockout::{Tie, knockout_result, lemma_knockout_always_decided, lemma_regulation_winner_advances};

verus! {

/// Sides of the scoreline grid: `0..=MAX_GOALS` goals each.
pub const GRID_SIDE: usize = 11;

/// Cells of the scoreline grid.
pub const GRID_CELLS: usize = 121;

/// Most scorelines (and most knockout results) one tally records, so that no
/// counter, goal totals included, can overflow.
pub const MAX_RECORDS: u64 = 0x0800_0000_0000_0000;

/// Most scorelines that `top_scorelines` lists.
pub const TOP_SCORELINES: usize = 6;

/// A drawn scoreline: home goals, away goals.
pub type Score = (usize, usize);

/// Row-major position of scoreline `home`-`away` in the grid.
pub open spec fn cell_index(home: int, away: int) -> int {
    home * GRID_SIDE + away
}

/// Row-major order: for scorelines in the grid, one comes earlier exactly when
/// it has fewer home goals, or as many and fewer away goals; distinct
/// scorelines have distinct positions, all within the grid.
pub proof fn lemma_cell_index_row_major(h1: int, a1: int, h2: int, a2: int)
    requires
        0 <= h1 <= MAX_GOALS,
        0 <= a1 <= MAX_GOALS,
        0 <= h2 <= MAX_GOALS,
        0 <= a2 <= MAX_GOALS,
    ensures
        cell_index(h1, a1) < cell_index(h2, a2) <==> (h1 < h2 || (h1 == h2 && a1 < a2)),
        cell_index(h1, a1) == cell_index(h2, a2) <==> (h1 == h2 && a1 == a2),
        0 <= cell_index(h1, a1) < GRID_CELLS,
{
    assert(cell_index(h1, a1) < cell_index(h2, a2) <==> (h1 < h2 || (h1 == h2 && a1 < a2)))
        by (nonlinear_arith)
        requires
            0 <= h1 <= 10,
            0 <= a1 <= 10,
            0 <= h2 <= 10,
            0 <= a2 <= 10,
    ;
    assert(cell_index(h1, a1) == cell_index(h2, a2) <==> (h1 == h2 && a1 == a2))
        by (nonlinear_arith)
        requires
            0 <= h1 <= 10,
            0 <= a1 <= 10,
            0 <= h2 <= 10,
            0 <= a2 <= 10,
    ;
}

/// Whether a scoreline fits the grid.
pub open spec fn in_grid(s: Score) -> bool {
    s.0 <= MAX_GOALS && s.1 <= MAX_GOALS
}

/// How many scorelines of `s` satisfy `p`.
pub open spec fn count_where(s: Seq<Score>, p: spec_fn(Score) -> bool) -> nat
    decreases s.len(),
{
    if s.len() == 0 {
        0
    } else {
        count_where(s.drop_last(), p) + if p(s.last()) {
            1nat
        } else {
            0nat
        }
    }
}

/// A home win.
pub open spec fn home_win() -> spec_fn(Score) -> bool {
    |x: Score| x.0 > x.1
}

/// A draw.
pub open spec fn draw() -> spec_fn(Score) -> bool {
    |x: Score| x.0 == x.1
}

/// An away win.
pub open spec fn away_win() -> spec_fn(Score) -> bool {
    |x: Score| x.0 < x.1
}

/// Three goals or more (over 2.5 goals).
pub open spec fn over_2_5() -> spec_fn(Score) -> bool {
    |x: Score| x.0 + x.1 > 2
}

/// Both sides score.
pub open spec fn both_score() -> spec_fn(Score) -> bool {
    |x: Score| x.0 > 0 && x.1 > 0
}

/// Exactly `home`-`away`.
pub open spec fn scoreline_is(home: usize, away: usize) -> spec_fn(Score) -> bool {
    |x: Score| x.0 == home && x.1 == away
}

/// Home wins among `s`.
pub open spec fn home_wins_in(s: Seq<Score>) -> nat {
    count_where(s, home_win())
}

/// Draws among `s`.
pub open spec fn draws_in(s: Seq<Score>) -> nat {
    count_where(s, draw())
}

/// Away wins among `s`.
pub open spec fn away_wins_in(s: Seq<Score>) -> nat {
    count_where(s, away_win())
}

/// Scorelines of `s` with three goals or more.
pub open spec fn over_2_5_in(s: Seq<Score>) -> nat {
    count_where(s, over_2_5())
}

/// Scorelines of `s` in which both sides score.
pub open spec fn both_score_in(s: Seq<Score>) -> nat {
    count_where(s, both_score())
}

/// How often `home`-`away` occurs in `s`.
pub open spec fn scoreline_count(s: Seq<Score>, home: usize, away: usize) -> nat {
    count_where(s, scoreline_is(home, away))
}

/// Home goals over all of `s`.
pub open spec fn home_goals_in(s: Seq<Score>) -> nat
    decreases s.len(),
{
    if s.len() == 0 {
        0
    } else {
        home_goals_in(s.drop_last()) + s.last().0 as nat
    }
}

/// Away goals over all of `s`.
pub open spec fn away_goals_in(s: Seq<Score>) -> nat
    decreases s.len(),
{
    if s.len() == 0 {
        0
    } else {
        away_goals_in(s.drop_last()) + s.last().1 as nat
    }
}

/// Knockout draws of `a` in which the home side went through.
pub open spec fn advances_in(a: Seq<bool>) -> nat
    decreases a.len(),
{
    if a.len() == 0 {
        0
    } else {
        advances_in(a.drop_last()) + if a.last() {
            1nat
        } else {
            0nat
        }
    }
}

proof fn lemma_count_push(s: Seq<Score>, x: Score, p: spec_fn(Score) -> bool)
    ensures
        count_where(s.push(x), p) == count_where(s, p) + if p(x) {
            1nat
        } else {
            0nat
        },
{
    assert(s.push(x).drop_last() =~= s);
}

proof fn lemma_count_bounded(s: Seq<Score>, p: spec_fn(Score) -> bool)
    ensures
        count_where(s, p) <= s.len(),
    decreases s.len(),
{
    if s.len() > 0 {
        lemma_count_bounded(s.drop_last(), p);
    }
}

proof fn lemma_goals_push(s: Seq<Score>, x: Score)
    ensures
        home_goals_in(s.push(x)) == home_goals_in(s) + x.0,
        away_goals_in(s.push(x)) == away_goals_in(s) + x.1,
{
    assert(s.push(x).drop_last() =~= s);
}

proof fn lemma_advances_push(a: Seq<bool>, b: bool)
    ensures
        advances_in(a.push(b)) == advances_in(a) + if b {
            1nat
        } else {
            0nat
        },
{
    assert(a.push(b).drop_last() =~= a);
}

proof fn lemma_advances_bounded(a: Seq<bool>)
    ensures
        advances_in(a) <= a.len(),
    decreases a.len(),
{
    if a.len() > 0 {
        lemma_advances_bounded(a.drop_last());
    }
}

/// What recording one scoreline `home`-`away` does to every count: a home win
/// exactly when `home > away`, a draw exactly when `home == away`, an away win
/// exactly when `away > home`; over 2.5 goals exactly when `home + away >= 3`;
/// both sides scoring exactly when `home >= 1` and `away >= 1`; the goal totals
/// grow by `home` and `away`; and the count of `h`-`w` grows exactly when
/// `h`-`w` is the scoreline recorded.
pub proof fn lemma_recording_one_scoreline(s: Seq<Score>, home: usize, away: usize)
    ensures
        home_wins_in(s.push((home, away))) == home_wins_in(s) + if home > away {
            1int
        } else {
            0int
        },
        draws_in(s.push((home, away))) == draws_in(s) + if home == away {
            1int
        } else {
            0int
        },
        away_wins_in(s.push((home, away))) == away_wins_in(s) + if away > home {
            1int
        } else {
            0int
        },
        over_2_5_in(s.push((home, away))) == over_2_5_in(s) + if home + away >= 3 {
            1int
        } else {
            0int
        },
        both_score_in(s.push((home, away))) == both_score_in(s) + if home >= 1 && away >= 1 {
            1int
        } else {
            0int
        },
        home_goals_in(s.push((home, away))) == home_goals_in(s) + home,
        away_goals_in(s.push((home, away))) == away_goals_in(s) + away,
        forall|h: usize, w: usize|
            #[trigger] scoreline_count(s.push((home, away)), h, w) == scoreline_count(s, h, w)
                + if h == home && w == away {
                1int
            } else {
                0int
            },
{
    let x: Score = (home, away);
    lemma_count_push(s, x, home_win());
    lemma_count_push(s, x, draw());
    lemma_count_push(s, x, away_win());
    lemma_count_push(s, x, over_2_5());
    lemma_count_push(s, x, both_score());
    lemma_goals_push(s, x);
    assert forall|h: usize, w: usize|
        #[trigger] scoreline_count(s.push(x), h, w) == scoreline_count(s, h, w) + if h == home && w
            == away {
            1int
        } else {
            0int
        } by {
        lemma_count_push(s, x, scoreline_is(h, w));
    }
}

/// Nothing recorded counts nothing.
pub proof fn lemma_nothing_recorded()
    ensures
        home_wins_in(Seq::<Score>::empty()) == 0,
        draws_in(Seq::<Score>::empty()) == 0,
        away_wins_in(Seq::<Score>::empty()) == 0,
        over_2_5_in(Seq::<Score>::empty()) == 0,
        both_score_in(Seq::<Score>::empty()) == 0,
        home_goals_in(Seq::<Score>::empty()) == 0,
        away_goals_in(Seq::<Score>::empty()) == 0,
        advances_in(Seq::<bool>::empty()) == 0,
        forall|h: usize, w: usize| #[trigger] scoreline_count(Seq::<Score>::empty(), h, w) == 0,
{
}

/// Recording one knockout result raises the home advances by one exactly when
/// the home side went through.
pub proof fn lemma_recording_one_knockout(a: Seq<bool>, home_through: bool)
    ensures
        advances_in(a.push(home_through)) == advances_in(a) + if home_through {
            1int
        } else {
            0int
        },
{
    lemma_advances_push(a, home_through);
}

/// Every recorded scoreline is a home win, a draw or an away win, and only
/// one of them: the three outcome counts add up to the number of scorelines.
pub proof fn lemma_outcomes_partition(s: Seq<Score>)
    ensures
        home_wins_in(s) + draws_in(s) + away_wins_in(s) == s.len(),
    decreases s.len(),
{
    if s.len() > 0 {
        let t = s.drop_last();
        lemma_outcomes_partition(t);
        assert(t.push(s.last()) =~= s);
        lemma_count_push(t, s.last(), home_win());
        lemma_count_push(t, s.last(), draw());
        lemma_count_push(t, s.last(), away_win());
    }
}

/// Whether a knockout draw that ended `score` in regulation time can end
/// with the home side through exactly when `home_through`: some extra time and
/// shootout settle it so.
pub open spec fn settles(score: Score, home_through: bool) -> bool {
    exists|et_home: usize, et_away: usize, home_wins_shootout: bool|
        #[trigger] knockout_result(score.0, score.1, et_home, et_away, home_wins_shootout)
            .home_through_spec() == Some(home_through)
}

/// In a knockout simulation, where each draw's scoreline is settled by extra
/// time and penalties when level, the home side goes through at least as often
/// as it wins in regulation time and at most as often as it wins or draws:
/// P(home win) <= P(home advances) <= P(home win) + P(draw).
pub proof fn lemma_advances_between_wins_and_draws(s: Seq<Score>, advances: Seq<bool>)
    requires
        advances.len() == s.len(),
        forall|k: int| 0 <= k < s.len() ==> settles(#[trigger] s[k], advances[k]),
    ensures
        home_wins_in(s) <= advances_in(advances) <= home_wins_in(s) + draws_in(s),
    decreases s.len(),
{
    if s.len() > 0 {
        let n: int = s.len() - 1;
        let t = s.drop_last();
        let a = advances.drop_last();
        assert forall|k: int| 0 <= k < t.len() implies settles(#[trigger] t[k], a[k]) by {
            assert(t[k] == s[k] && a[k] == advances[k]);
        }
        lemma_advances_between_wins_and_draws(t, a);
        assert(t.push(s.last()) =~= s);
        assert(a.push(advances.last()) =~= advances);
        lemma_count_push(t, s.last(), home_win());
        lemma_count_push(t, s.last(), draw());
        lemma_advances_push(a, advances.last());
        assert(settles(s[n], advances[n]));
        let (eh, ea, p) = choose|eh: usize, ea: usize, p: bool|
            #[trigger] knockout_result(s[n].0, s[n].1, eh, ea, p).home_through_spec()
                == Some(advances[n]);
        if s[n].0 != s[n].1 {
            lemma_regulation_winner_advances(s[n].0, s[n].1, eh, ea, p);
        }
    }
}

/// Sum of the counts of the first `n` cells of the grid, in row-major order.
pub open spec fn grid_total(s: Seq<Score>, n: nat) -> nat
    decreases n,
{
    if n == 0 {
        0
    } else {
        grid_total(s, (n - 1) as nat) + scoreline_count(
            s,
            ((n - 1) / (GRID_SIDE as int)) as usize,
            ((n - 1) % (GRID_SIDE as int)) as usize,
        )
    }
}

proof fn lemma_grid_total_push(t: Seq<Score>, x: Score, n: nat)
    requires
        in_grid(x),
        n <= GRID_CELLS,
    ensures
        grid_total(t.push(x), n) == grid_total(t, n) + if cell_index(x.0 as int, x.1 as int) < n {
            1nat
        } else {
            0nat
        },
    decreases n,
{
    if n > 0 {
        let k = (n - 1) as nat;
        lemma_grid_total_push(t, x, k);
        let h = (k / GRID_SIDE as nat) as usize;
        let w = (k % GRID_SIDE as nat) as usize;
        lemma_count_push(t, x, scoreline_is(h, w));
        assert((x.0 == h && x.1 == w) <==> cell_index(x.0 as int, x.1 as int) == k)
            by (nonlinear_arith)
            requires
                x.0 <= 10,
                x.1 <= 10,
                k < 121,
                h == k / 11,
                w == k % 11,
        ;
    }
}

/// The scoreline grid accounts for every recorded scoreline exactly once: its
/// cells add up to the number of scorelines, so the scoreline frequencies form
/// a full distribution.
pub proof fn lemma_grid_counts_every_scoreline(s: Seq<Score>)
    requires
        forall|k: int| 0 <= k < s.len() ==> in_grid(#[trigger] s[k]),
    ensures
        grid_total(s, GRID_CELLS as nat) == s.len(),
    decreases s.len(),
{
    if s.len() == 0 {
        assert(s =~= Seq::<Score>::empty());
        lemma_grid_total_empty(GRID_CELLS as nat);
    } else {
        let t = s.drop_last();
        assert forall|k: int| 0 <= k < t.len() implies in_grid(#[trigger] t[k]) by {
            assert(t[k] == s[k]);
        }
        lemma_grid_counts_every_scoreline(t);
        assert(t.push(s.last()) =~= s);
        assert(in_grid(s[s.len() - 1]));
        lemma_grid_total_push(t, s.last(), GRID_CELLS as nat);
        assert(cell_index(s.last().0 as int, s.last().1 as int) < GRID_CELLS);
    }
}

proof fn lemma_grid_total_empty(n: nat)
    ensures
        grid_total(Seq::<Score>::empty(), n) == 0,
    decreases n,
{
    if n > 0 {
        lemma_grid_total_empty((n - 1) as nat);
    }
}

/// What a tally has recorded: the scorelines drawn, in order, and for each
/// knockout draw whether the home side went through.
pub struct TallyView {
    pub scorelines: Seq<Score>,
    pub advances: Seq<bool>,
}

/// Counts kept while a match simulation draws scorelines.
pub struct MatchTally {
    cells: Vec<u64>,
    recorded: u64,
    home_wins: u64,
    draws: u64,
    away_wins: u64,
    over_2_5: u64,
    both_score: u64,
    goals_home: u64,
    goals_away: u64,
    knockouts: u64,
    home_advances: u64,
    scorelines: Ghost<Seq<Score>>,
    advances: Ghost<Seq<bool>>,
}

impl View for MatchTally {
    type V = TallyView;

    closed spec fn view(&self) -> TallyView {
        TallyView { scorelines: self.scorelines@, advances: self.advances@ }
    }
}

/// One scoreline with how often it was drawn.
pub struct ScorelineCount {
    pub home: usize,
    pub away: usize,
    pub count: u64,
}

/// Whether scoreline count `x` lists ahead of `y`: drawn more often, or as
/// often and earlier in row-major order.
pub open spec fn listed_before(x: ScorelineCount, y: ScorelineCount) -> bool {
    x.count > y.count || (x.count == y.count && cell_index(x.home as int, x.away as int)
        < cell_index(y.home as int, y.away as int))
}

/// Scoreline counts are listed most frequent first, and among equally frequent
/// ones by fewer home goals, then fewer away goals.
pub proof fn lemma_listing_order(x: ScorelineCount, y: ScorelineCount)
    requires
        x.home <= MAX_GOALS,
        x.away <= MAX_GOALS,
        y.home <= MAX_GOALS,
        y.away <= MAX_GOALS,
    ensures
        listed_before(x, y) <==> (x.count > y.count || (x.count == y.count && (x.home < y.home || (
        x.home == y.home && x.away < y.away)))),
{
    lemma_cell_index_row_major(x.home as int, x.away as int, y.home as int, y.away as int);
}

impl MatchTally {
    /// The tally's counters agree with what it recorded.
    pub closed spec fn wf(&self) -> bool {
        let s = self.scorelines@;
        let a = self.advances@;
        &&& self.cells@.len() == GRID_CELLS
        &&& forall|k: int| 0 <= k < s.len() ==> in_grid(#[trigger] s[k])
        &&& forall|h: usize, w: usize|
            h <= MAX_GOALS && w <= MAX_GOALS ==> self.cells@[cell_index(h as int, w as int)]
                == #[trigger] scoreline_count(s, h, w)
        &&& s.len() <= MAX_RECORDS
        &&& a.len() <= MAX_RECORDS
        &&& self.recorded == s.len()
        &&& self.home_wins == home_wins_in(s)
        &&& self.draws == draws_in(s)
        &&& self.away_wins == away_wins_in(s)
        &&& self.over_2_5 == over_2_5_in(s)
        &&& self.both_score == both_score_in(s)
        &&& self.goals_home == home_goals_in(s)
        &&& self.goals_away == away_goals_in(s)
        &&& home_goals_in(s) <= MAX_GOALS * s.len()
        &&& away_goals_in(s) <= MAX_GOALS * s.len()
        &&& self.knockouts == a.len()
        &&& self.home_advances == advances_in(a)
        &&& a.len() <= s.len()
        &&& forall|k: int| 0 <= k < a.len() ==> settles(#[trigger] s[k], a[k])
    }

    /// An empty tally.
    pub fn new() -> (t: MatchTally)
        ensures
            t.wf(),
            t@.scorelines == Seq::<Score>::empty(),
            t@.advances == Seq::<bool>::empty(),
    {
        let mut cells: Vec<u64> = Vec::new();
        let mut k: usize = 0;
        while k < GRID_CELLS
            invariant
                k <= GRID_CELLS,
                cells@.len() == k,
                forall|i: int| 0 <= i < k ==> cells@[i] == 0,
            decreases GRID_CELLS - k,
        {
            cells.push(0);
            k = k + 1;
        }
        let t = MatchTally {
            cells,
            recorded: 0,
            home_wins: 0,
            draws: 0,
            away_wins: 0,
            over_2_5: 0,
            both_score: 0,
            goals_home: 0,
            goals_away: 0,
            knockouts: 0,
            home_advances: 0,
            scorelines: Ghost(Seq::empty()),
            advances: Ghost(Seq::empty()),
        };
        proof {
            assert forall|h: usize, w: usize|
                h <= MAX_GOALS && w <= MAX_GOALS implies t.cells@[cell_index(h as int, w as int)]
                == #[trigger] scoreline_count(t.scorelines@, h, w) by {
                assert(0 <= cell_index(h as int, w as int) < GRID_CELLS);
            }
        }
        t
    }

    /// Records one drawn scoreline, `home`-`away`.
    pub fn record(&mut self, home: usize, away: usize)
        requires
            old(self).wf(),
            home <= MAX_GOALS,
            away <= MAX_GOALS,
            old(self)@.scorelines.len() < MAX_RECORDS,
        ensures
            final(self).wf(),
            final(self)@.scorelines == old(self)@.scorelines.push((home, away)),
            final(self)@.advances == old(self)@.advances,
    {
        let ghost s = self.scorelines@;
        let ghost x: Score = (home, away);
        proof {
            lemma_count_push(s, x, home_win());
            lemma_count_push(s, x, draw());
            lemma_count_push(s, x, away_win());
            lemma_count_push(s, x, over_2_5());
            lemma_count_push(s, x, both_score());
            lemma_count_bounded(s, home_win());
            lemma_count_bounded(s, draw());
            lemma_count_bounded(s, away_win());
            lemma_count_bounded(s, over_2_5());
            lemma_count_bounded(s, both_score());
            lemma_goals_push(s, x);
        }
        let idx: usize = home * GRID_SIDE + away;
        proof {
            lemma_count_bounded(s, scoreline_is(home, away));
            assert(self.cells@[idx as int] == scoreline_count(s, home, away));
        }
        let c: u64 = self.cells[idx];
        self.cells.set(idx, c + 1);
        self.recorded = self.recorded + 1;
        if home > away {
            self.home_wins = self.home_wins + 1;
        } else if away > home {
            self.away_wins = self.away_wins + 1;
        } else {
            self.draws = self.draws + 1;
        }
        if home + away > 2 {
            self.over_2_5 = self.over_2_5 + 1;
        }
        if home > 0 && away > 0 {
            self.both_score = self.both_score + 1;
        }
        self.goals_home = self.goals_home + home as u64;
        self.goals_away = self.goals_away + away as u64;
        self.scorelines = Ghost(s.push(x));
        proof {
            let s2 = s.push(x);
            assert forall|k: int| 0 <= k < s2.len() implies in_grid(#[trigger] s2[k]) by {
                if k < s.len() {
                    assert(s2[k] == s[k]);
                }
            }
            let a = self.advances@;
            assert forall|k: int| 0 <= k < a.len() implies settles(#[trigger] s2[k], a[k]) by {
                assert(s2[k] == s[k]);
            }
            assert forall|h: usize, w: usize|
                h <= MAX_GOALS && w <= MAX_GOALS implies self.cells@[cell_index(h as int, w as int)]
                == #[trigger] scoreline_count(s2, h, w) by {
                lemma_count_push(s, x, scoreline_is(h, w));
                assert(scoreline_count(s, h, w) == old(self).cells@[cell_index(h as int, w as int)]);
                if h == home && w == away {
                    assert(cell_index(h as int, w as int) == idx);
                } else {
                    assert(cell_index(h as int, w as int) != idx) by (nonlinear_arith)
                        requires
                            h <= 10,
                            w <= 10,
                            home <= 10,
                            away <= 10,
                            idx == home * 11 + away,
                            !(h == home && w == away),
                    ;
                }
            }
        }
    }

    /// Records how the knockout draw of the last recorded scoreline was
    /// settled: `tie` is that scoreline's tie after extra time and penalties.
    pub fn record_knockout(&mut self, tie: &Tie)
        requires
            old(self).wf(),
            old(self)@.advances.len() + 1 == old(self)@.scorelines.len(),
            exists|et_home: usize, et_away: usize, home_wins_shootout: bool|
                *tie == #[trigger] knockout_result(
                    old(self)@.scorelines.last().0,
                    old(self)@.scorelines.last().1,
                    et_home,
                    et_away,
                    home_wins_shootout,
                ),
        ensures
            final(self).wf(),
            final(self)@.advances == old(self)@.advances.push(tie.home_through_spec() == Some(true)),
            final(self)@.scorelines == old(self)@.scorelines,
    {
        let ghost a = self.advances@;
        let ghost s = self.scorelines@;
        let home_through: bool = match tie.home_through() {
            Some(b) => b,
            None => false,
        };
        proof {
            let (eh, ea, p) = choose|eh: usize, ea: usize, p: bool|
                *tie == #[trigger] knockout_result(s.last().0, s.last().1, eh, ea, p);
            lemma_knockout_always_decided(s.last().0, s.last().1, eh, ea, p);
            assert(tie.home_through_spec() == Some(home_through));
            assert(knockout_result(s.last().0, s.last().1, eh, ea, p).home_through_spec()
                == Some(home_through));
            lemma_advances_push(a, home_through);
            lemma_advances_bounded(a);
        }
        self.knockouts = self.knockouts + 1;
        if home_through {
            self.home_advances = self.home_advances + 1;
        }
        self.advances = Ghost(a.push(home_through));
        proof {
            let a2 = a.push(home_through);
            assert forall|k: int| 0 <= k < a2.len() implies settles(#[trigger] s[k], a2[k]) by {
                if k < a.len() {
                    assert(a2[k] == a[k]);
                } else {
                    assert(s[k] == s.last());
                }
            }
        }
    }

    /// What every tally keeps: each recorded scoreline fits the grid and the
    /// grid accounts for each of them once; the outcomes partition the
    /// scorelines; each knockout result settles the scoreline at its position;
    /// and once every scoreline has its knockout result, home advances lie
    /// between home wins and home wins plus draws.
    pub proof fn lemma_tally_facts(&self)
        requires
            self.wf(),
        ensures
            forall|k: int| 0 <= k < self@.scorelines.len() ==> in_grid(#[trigger] self@.scorelines[k]),
            grid_total(self@.scorelines, GRID_CELLS as nat) == self@.scorelines.len(),
            home_wins_in(self@.scorelines) + draws_in(self@.scorelines) + away_wins_in(
                self@.scorelines,
            ) == self@.scorelines.len(),
            self@.advances.len() <= self@.scorelines.len(),
            forall|k: int|
                0 <= k < self@.advances.len() ==> settles(
                    #[trigger] self@.scorelines[k],
                    self@.advances[k],
                ),
            self@.advances.len() == self@.scorelines.len() ==> home_wins_in(self@.scorelines)
                <= advances_in(self@.advances) <= home_wins_in(self@.scorelines) + draws_in(
                self@.scorelines,
            ),
    {
        lemma_grid_counts_every_scoreline(self@.scorelines);
        lemma_outcomes_partition(self@.scorelines);
        if self@.advances.len() == self@.scorelines.len() {
            lemma_advances_between_wins_and_draws(self@.scorelines, self@.advances);
        }
    }

    /// Number of scorelines recorded.
    pub fn recorded(&self) -> (n: u64)
        requires
            self.wf(),
        ensures
            n == self@.scorelines.len(),
    {
        self.recorded
    }

    /// Number of knockout results recorded.
    pub fn knockouts_recorded(&self) -> (n: u64)
        requires
            self.wf(),
        ensures
            n == self@.advances.len(),
    {
        self.knockouts
    }

    /// Recorded scorelines won by the home side.
    pub fn home_wins(&self) -> (n: u64)
        requires
            self.wf(),
        ensures
            n == home_wins_in(self@.scorelines),
    {
        self.home_wins
    }

    /// Recorded scorelines that are draws.
    pub fn draws(&self) -> (n: u64)
        requires
            self.wf(),
        ensures
            n == draws_in(self@.scorelines),
    {
        self.draws
    }

    /// Recorded scorelines won by the away side.
    pub fn away_wins(&self) -> (n: u64)
        requires
            self.wf(),
        ensures
            n == away_wins_in(self@.scorelines),
    {
        self.away_wins
    }

    /// Recorded scorelines with three goals or more.
    pub fn over_2_5(&self) -> (n: u64)
        requires
            self.wf(),
        ensures
            n == over_2_5_in(self@.scorelines),
    {
        self.over_2_5
    }

    /// Recorded scorelines in which both sides scored.
    pub fn both_score(&self) -> (n: u64)
        requires
            self.wf(),
        ensures
            n == both_score_in(self@.scorelines),
    {
        self.both_score
    }

    /// Home goals over all recorded scorelines.
    pub fn goals_home(&self) -> (n: u64)
        requires
            self.wf(),
        ensures
            n == home_goals_in(self@.scorelines),
    {
        self.goals_home
    }

    /// Away goals over all recorded scorelines.
    pub fn goals_away(&self) -> (n: u64)
        requires
            self.wf(),
        ensures
            n == away_goals_in(self@.scorelines),
    {
        self.goals_away
    }

    /// Recorded knockout draws in which the home side went through.
    pub fn home_advances(&self) -> (n: u64)
        requires
            self.wf(),
        ensures
            n == advances_in(self@.advances),
    {
        self.home_advances
    }

    /// How often `home`-`away` was recorded.
    pub fn scoreline(&self, home: usize, away: usize) -> (n: u64)
        requires
            self.wf(),
            home <= MAX_GOALS,
            away <= MAX_GOALS,
        ensures
            n == scoreline_count(self@.scorelines, home, away),
    {
        self.cells[home * GRID_SIDE + away]
    }

    /// The scorelines drawn most often, at most `TOP_SCORELINES` of them,
    /// most frequent first and equally frequent ones in row-major order; only
    /// scorelines drawn at least once are listed.
    pub fn top_scorelines(&self) -> (top: Vec<ScorelineCount>)
        requires
            self.wf(),
        ensures
            top.len() <= TOP_SCORELINES,
            forall|k: int|
                0 <= k < top.len() ==> {
                    let e = #[trigger] top@[k];
                    &&& e.home <= MAX_GOALS
                    &&& e.away <= MAX_GOALS
                    &&& e.count == scoreline_count(self@.scorelines, e.home, e.away)
                    &&& e.count > 0
                },
            forall|k: int, l: int|
                0 <= k < l < top.len() ==> listed_before(#[trigger] top@[k], #[trigger] top@[l]),
            forall|k: int, l: int|
                0 <= k < l < top.len() ==> #[trigger] top@[k].count > #[trigger] top@[l].count || (
                top@[k].count == top@[l].count && (top@[k].home < top@[l].home || (top@[k].home
                == top@[l].home && top@[k].away < top@[l].away))),
            forall|h: usize, w: usize|
                h <= MAX_GOALS && w <= MAX_GOALS && #[trigger] scoreline_count(self@.scorelines, h, w)
                    > 0 && !(exists|k: int| 0 <= k < top.len() && top@[k].home == h && top@[k].away == w)
                    ==> top.len() == TOP_SCORELINES && forall|k: int|
                    0 <= k < top.len() ==> listed_before(
                        #[trigger] top@[k],
                        ScorelineCount {
                            home: h,
                            away: w,
                            count: scoreline_count(self@.scorelines, h, w) as u64,
                        },
                    ),
    {
        let order = rank_desc(&self.cells);
        let mut top: Vec<ScorelineCount> = Vec::new();
        let mut k: usize = 0;
        while k < TOP_SCORELINES && self.cells[order[k]] > 0
            invariant
                self.wf(),
                is_ranking(self.cells@, order@),
                k <= TOP_SCORELINES,
                top.len() == k,
                forall|m: int|
                    0 <= m < k ==> {
                        let e = #[trigger] top@[m];
                        &&& e.home <= MAX_GOALS
                        &&& e.away <= MAX_GOALS
                        &&& cell_index(e.home as int, e.away as int) == order@[m]
                        &&& e.count == self.cells@[order@[m] as int]
                        &&& e.count > 0
                    },
            decreases TOP_SCORELINES - k,
        {
            let idx: usize = order[k];
            let home: usize = idx / GRID_SIDE;
            let away: usize = idx % GRID_SIDE;
            proof {
                assert(idx < GRID_CELLS);
                assert(home <= MAX_GOALS && away <= MAX_GOALS && home * 11 + away == idx)
                    by (nonlinear_arith)
                    requires
                        idx < 121,
                        home == idx / 11,
                        away == idx % 11,
                ;
            }
            top.push(ScorelineCount { home, away, count: self.cells[idx] });
            k = k + 1;
        }
        proof {
            let s = self.scorelines@;
            assert forall|m: int| 0 <= m < top.len() implies {
                let e = #[trigger] top@[m];
                &&& e.home <= MAX_GOALS
                &&& e.away <= MAX_GOALS
                &&& e.count == scoreline_count(s, e.home, e.away)
                &&& e.count > 0
            } by {
                let e = top@[m];
                assert(self.cells@[cell_index(e.home as int, e.away as int)] == scoreline_count(s, e.home, e.away));
            }
            assert forall|m: int, l: int| 0 <= m < l < top.len() implies listed_before(
                #[trigger] top@[m],
                #[trigger] top@[l],
            ) by {
                assert(ranks_before(self.cells@, order@[m] as int, order@[l] as int));
            }
            assert forall|m: int, l: int| 0 <= m < l < top.len() implies #[trigger] top@[m].count
                > #[trigger] top@[l].count || (top@[m].count == top@[l].count && (top@[m].home
                < top@[l].home || (top@[m].home == top@[l].home && top@[m].away < top@[l].away))) by {
                assert(ranks_before(self.cells@, order@[m] as int, order@[l] as int));
                lemma_cell_index_row_major(
                    top@[m].home as int,
                    top@[m].away as int,
                    top@[l].home as int,
                    top@[l].away as int,
                );
            }
            assert forall|h: usize, w: usize|
                h <= MAX_GOALS && w <= MAX_GOALS && #[trigger] scoreline_count(s, h, w) > 0
                    && !(exists|m: int| 0 <= m < top.len() && top@[m].home == h && top@[m].away == w)
                implies top.len() == TOP_SCORELINES && forall|m: int|
                0 <= m < top.len() ==> listed_before(
                    #[trigger] top@[m],
                    ScorelineCount { home: h, away: w, count: scoreline_count(s, h, w) as u64 },
                ) by {
                let c = cell_index(h as int, w as int);
                assert(0 <= c < GRID_CELLS);
                assert(self.cells@[c] == scoreline_count(s, h, w));
                assert(order@.contains(c as usize));
                let q = choose|q: int| 0 <= q < order@.len() && order@[q] == c as usize;
                if q < top.len() {
                    let e = top@[q];
                    assert(cell_index(e.home as int, e.away as int) == c);
                    assert(e.home == h && e.away == w) by (nonlinear_arith)
                        requires
                            e.home <= 10,
                            e.away <= 10,
                            h <= 10,
                            w <= 10,
                            e.home * 11 + e.away == h * 11 + w,
                    ;
                    assert(false);
                }
                if top.len() < TOP_SCORELINES {
                    assert(self.cells@[order@[top.len() as int] as int] == 0);
                    if q > top.len() {
                        assert(ranks_before(self.cells@, order@[top.len() as int] as int, order@[q] as int));
                    }
                    assert(false);
                }
                assert forall|m: int| 0 <= m < top.len() implies listed_before(
                    #[trigger] top@[m],
                    ScorelineCount { home: h, away: w, count: scoreline_count(s, h, w) as u64 },
                ) by {
                    assert(ranks_before(self.cells@, order@[m] as int, order@[q] as int));
                }
            }
        }
        top
    }
}

} // verus!
