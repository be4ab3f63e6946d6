//! Single-elimination bracket: the team-count rule, the advance of the field
//! tie by tie, and the tally of titles over many rollouts.

use vstd::prelude::*;
use crate::decimal::{decimal, decimal_string};
use vstd::arithmetic::power::pow;
use vstd::arithmetic::power2::{is_pow2, is_pow2_equiv};

verus! {

/// Whether `n` is a power of two (`1`, `2`, `4`, ...).
pub open spec fn is_power_of_two(n: nat) -> bool
    decreases n,
{
    if n == 1 {
        true
    } else if n >= 2 && n % 2 == 0 {
        is_power_of_two(n / 2)
    } else {
        false
    }
}

proof fn lemma_same_as_is_pow2(n: nat)
    ensures
        is_power_of_two(n) == is_pow2(n as int),
    decreases n,
{
    reveal(is_pow2);
    if n >= 2 && n % 2 == 0 {
        lemma_same_as_is_pow2(n / 2);
    }
}

/// `is_power_of_two(n)` holds exactly when `n` is `2` raised to some power.
pub proof fn lemma_power_of_two_is_pow(n: nat)
    ensures
        is_power_of_two(n) <==> exists|i: nat| pow(2, i) == n,
{
    lemma_same_as_is_pow2(n);
    is_pow2_equiv(n as int);
}

/// For a positive `x`, clearing its lowest set bit leaves zero exactly when
/// `x` is a power of two.
pub proof fn lemma_power_of_two_bits(x: usize)
    requires
        x >= 1,
    ensures
        (x & ((x - 1) as usize) == 0) <==> is_power_of_two(x as nat),
    decreases x,
{
    if x == 1 {
        assert(x & ((x - 1) as usize) == 0) by (bit_vector)
            requires
                x == 1,
        ;
    } else if x % 2 == 1 {
        assert(x & ((x - 1) as usize) != 0) by (bit_vector)
            requires
                x % 2 == 1,
                x > 1,
        ;
    } else {
        let y: usize = x / 2;
        assert((x & ((x - 1) as usize) == 0) <==> (y & ((y - 1) as usize) == 0)) by (bit_vector)
            requires
                x % 2 == 0,
                x >= 2,
                y == x / 2,
        ;
        lemma_power_of_two_bits(y);
    }
}

/// Message of a tournament refused for its team count.
pub open spec fn bracket_size_error(team_count: nat) -> Seq<char> {
    "[goal-digger] tournament needs a power-of-two team count, got "@ + decimal(team_count)
}

/// Accepts a tournament of `team_count` teams only when that count is a power
/// of two and at least two; otherwise says why.
pub fn check_bracket_size(team_count: usize) -> (r: Result<(), String>)
    ensures
        r is Ok <==> (team_count >= 2 && is_power_of_two(team_count as nat)),
        r matches Err(m) ==> m@ == bracket_size_error(team_count as nat),
        r matches Err(m) ==> m@ == "[goal-digger] tournament needs a power-of-two team count, got "@
            + decimal(team_count as nat),
{
    if team_count < 2 || (team_count & (team_count - 1)) != 0 {
        proof {
            if team_count >= 2 {
                lemma_power_of_two_bits(team_count);
            }
        }
        let mut m = String::from_str("[goal-digger] tournament needs a power-of-two team count, got ");
        let digits = decimal_string(team_count);
        m.append(digits.as_str());
        Err(m)
    } else {
        proof {
            lemma_power_of_two_bits(team_count);
        }
        Ok(())
    }
}

proof fn lemma_half_power_of_two(n: nat)
    requires
        is_power_of_two(n),
        n > 1,
    ensures
        is_power_of_two(n / 2),
        n % 2 == 0,
        n / 2 >= 1,
{
}

/// A bracket as it stands: the teams still in, in bracket order, and the
/// winners of the ties already played in the current round.
pub struct BracketView {
    pub field: Seq<usize>,
    pub winners: Seq<usize>,
    pub team_count: nat,
}

/// One rollout of a single-elimination bracket, played tie by tie.
pub struct Bracket {
    field: Vec<usize>,
    winners: Vec<usize>,
    team_count: usize,
}

impl View for Bracket {
    type V = BracketView;

    closed spec fn view(&self) -> BracketView {
        BracketView { field: self.field@, winners: self.winners@, team_count: self.team_count as nat }
    }
}

/// The two positions of the field that meet in tie `k` of a round.
pub open spec fn tie_sides(field: Seq<usize>, k: int) -> (usize, usize) {
    (field[2 * k], field[2 * k + 1])
}

impl Bracket {
    /// The bracket is in a state that play can reach.
    pub closed spec fn wf(&self) -> bool {
        let f = self.field@;
        let w = self.winners@;
        &&& is_power_of_two(f.len())
        &&& f.len() == 1 ==> w.len() == 0
        &&& f.len() > 1 ==> w.len() < f.len() / 2
        &&& forall|k: int|
            0 <= k < w.len() ==> #[trigger] w[k] == f[2 * k] || w[k] == f[2 * k + 1]
        &&& forall|k: int| 0 <= k < f.len() ==> #[trigger] f[k] < self.team_count
        &&& forall|a: int, b: int| 0 <= a < b < f.len() ==> #[trigger] f[a] != #[trigger] f[b]
    }

    /// Ties still to be played before the bracket has a champion.
    pub open spec fn ties_left(&self) -> nat {
        (self@.field.len() - 1 - self@.winners.len()) as nat
    }

    /// A bracket of `team_count` teams, numbered `0..team_count` in seeded
    /// bracket order, before any tie is played.
    pub fn new(team_count: usize) -> (b: Bracket)
        requires
            is_power_of_two(team_count as nat),
        ensures
            b.wf(),
            b@.team_count == team_count,
            b@.field == Seq::new(team_count as nat, |i: int| i as usize),
            b@.winners == Seq::<usize>::empty(),
            b.ties_left() == team_count - 1,
    {
        let mut field: Vec<usize> = Vec::new();
        let mut i: usize = 0;
        while i < team_count
            invariant
                i <= team_count,
                field@ == Seq::new(i as nat, |k: int| k as usize),
            decreases team_count - i,
        {
            field.push(i);
            i = i + 1;
            proof {
                assert(field@ =~= Seq::new(i as nat, |k: int| k as usize));
            }
        }
        Bracket { field, winners: Vec::new(), team_count }
    }

    /// The next tie to play, `(home, away)`, or `None` once a champion stands.
    pub fn next_tie(&self) -> (t: Option<(usize, usize)>)
        requires
            self.wf(),
        ensures
            t is None <==> self.ties_left() == 0,
            t matches Some(p) ==> p == tie_sides(self@.field, self@.winners.len() as int),
            t matches Some(p) ==> p.0 == self@.field[2 * self@.winners.len() as int] && p.1
                == self@.field[2 * self@.winners.len() as int + 1],
    {
        if self.field.len() == 1 {
            None
        } else {
            proof {
                lemma_half_power_of_two(self.field@.len());
            }
            let w: usize = self.winners.len();
            Some((self.field[2 * w], self.field[2 * w + 1]))
        }
    }

    /// Plays the next tie: the home side goes through when `home_won`, the
    /// away side otherwise. When it was the last tie of the round, the
    /// winners become the field of the next round.
    pub fn report(&mut self, home_won: bool)
        requires
            old(self).wf(),
            old(self).ties_left() > 0,
        ensures
            final(self).wf(),
            final(self)@.team_count == old(self)@.team_count,
            final(self).ties_left() == old(self).ties_left() - 1,
            ({
                let w = old(self)@.winners.len() as int;
                let winner = if home_won {
                    old(self)@.field[2 * w]
                } else {
                    old(self)@.field[2 * w + 1]
                };
                if w + 1 == old(self)@.field.len() / 2 {
                    &&& final(self)@.field == old(self)@.winners.push(winner)
                    &&& final(self)@.winners == Seq::<usize>::empty()
                } else {
                    &&& final(self)@.field == old(self)@.field
                    &&& final(self)@.winners == old(self)@.winners.push(winner)
                }
            }),
    {
        proof {
            assert(self.field@.len() != 0);
            if self.field@.len() == 1 {
                assert(self.ties_left() == 0);
            }
            lemma_half_power_of_two(self.field@.len());
        }
        let ghost f = self.field@;
        let ghost w0 = self.winners@;
        let w: usize = self.winners.len();
        let half: usize = self.field.len() / 2;
        let winner = if home_won {
            self.field[2 * w]
        } else {
            self.field[2 * w + 1]
        };
        self.winners.push(winner);
        if self.winners.len() == half {
            let mut next: Vec<usize> = Vec::new();
            std::mem::swap(&mut next, &mut self.winners);
            self.field = next;
            proof {
                let nf = self.field@;
                assert(nf == w0.push(winner));
                assert forall|a: int, b: int| 0 <= a < b < nf.len() implies #[trigger] nf[a]
                    != #[trigger] nf[b] by {
                    assert(nf[a] == f[2 * a] || nf[a] == f[2 * a + 1]);
                    assert(nf[b] == f[2 * b] || nf[b] == f[2 * b + 1]);
                    if nf[a] == f[2 * a] {
                        if nf[b] == f[2 * b] {
                            assert(f[2 * a] != f[2 * b]);
                        } else {
                            assert(f[2 * a] != f[2 * b + 1]);
                        }
                    } else {
                        if nf[b] == f[2 * b] {
                            assert(f[2 * a + 1] != f[2 * b]);
                        } else {
                            assert(f[2 * a + 1] != f[2 * b + 1]);
                        }
                    }
                }
                assert forall|k: int| 0 <= k < nf.len() implies #[trigger] nf[k] < self.team_count by {
                    assert(nf[k] == f[2 * k] || nf[k] == f[2 * k + 1]);
                }
                lemma_half_power_of_two(f.len());
            }
        } else {
            proof {
                let nw = self.winners@;
                assert(nw == w0.push(winner));
                assert forall|k: int| 0 <= k < nw.len() implies #[trigger] nw[k] == f[2 * k] || nw[k]
                    == f[2 * k + 1] by {
                    if k < w0.len() {
                        assert(nw[k] == w0[k]);
                    }
                }
            }
        }
    }

    /// The champion, once every tie is played.
    pub fn champion(&self) -> (c: Option<usize>)
        requires
            self.wf(),
        ensures
            c is Some <==> self.ties_left() == 0,
            c matches Some(t) ==> t == self@.field[0] && t < self@.team_count,
    {
        if self.field.len() == 1 {
            Some(self.field[0])
        } else {
            None
        }
    }

    /// No team holds two places in the bracket: the field never repeats a team,
    /// and every team in it is one of the bracket's teams.
    pub proof fn lemma_field_distinct(&self)
        requires
            self.wf(),
        ensures
            forall|a: int, b: int|
                0 <= a < b < self@.field.len() ==> #[trigger] self@.field[a] != #[trigger] self@.field[b],
            forall|k: int| 0 <= k < self@.field.len() ==> #[trigger] self@.field[k] < self@.team_count,
            forall|k: int|
                0 <= k < self@.winners.len() ==> #[trigger] self@.winners[k] == tie_sides(
                    self@.field,
                    k,
                ).0 || self@.winners[k] == tie_sides(self@.field, k).1,
    {
    }
}

/// How often team `team` appears in `champions`.
pub open spec fn title_count(champions: Seq<usize>, team: int) -> nat
    decreases champions.len(),
{
    if champions.len() == 0 {
        0
    } else {
        title_count(champions.drop_last(), team) + if champions.last() == team {
            1nat
        } else {
            0nat
        }
    }
}

/// Recording one more champion adds one title to that team and none to any
/// other.
pub proof fn lemma_recording_one_title(s: Seq<usize>, champion: usize, team: int)
    ensures
        title_count(s.push(champion), team) == title_count(s, team) + if champion == team {
            1int
        } else {
            0int
        },
        title_count(Seq::<usize>::empty(), team) == 0,
{
    lemma_title_count_push(s, champion, team);
}

proof fn lemma_title_count_push(s: Seq<usize>, c: usize, team: int)
    ensures
        title_count(s.push(c), team) == title_count(s, team) + if c == team {
            1nat
        } else {
            0nat
        },
{
    assert(s.push(c).drop_last() =~= s);
}

proof fn lemma_title_count_bounded(s: Seq<usize>, team: int)
    ensures
        title_count(s, team) <= s.len(),
    decreases s.len(),
{
    if s.len() > 0 {
        lemma_title_count_bounded(s.drop_last(), team);
    }
}

/// Titles won by teams `0..n` together.
pub open spec fn titles_total(champions: Seq<usize>, n: nat) -> nat
    decreases n,
{
    if n == 0 {
        0
    } else {
        titles_total(champions, (n - 1) as nat) + title_count(champions, n - 1)
    }
}

proof fn lemma_titles_total_push(s: Seq<usize>, c: usize, n: nat)
    ensures
        titles_total(s.push(c), n) == titles_total(s, n) + if c < n {
            1nat
        } else {
            0nat
        },
    decreases n,
{
    if n > 0 {
        lemma_titles_total_push(s, c, (n - 1) as nat);
        lemma_title_count_push(s, c, n - 1);
    }
}

proof fn lemma_titles_total_empty(n: nat)
    ensures
        titles_total(Seq::<usize>::empty(), n) == 0,
    decreases n,
{
    if n > 0 {
        lemma_titles_total_empty((n - 1) as nat);
    }
}

/// Every rollout crowns exactly one of the teams: when all champions are among
/// teams `0..n`, their titles add up to the number of rollouts.
pub proof fn lemma_titles_add_up(champions: Seq<usize>, n: nat)
    requires
        forall|k: int| 0 <= k < champions.len() ==> #[trigger] champions[k] < n,
    ensures
        titles_total(champions, n) == champions.len(),
    decreases champions.len(),
{
    if champions.len() == 0 {
        assert(champions =~= Seq::<usize>::empty());
        lemma_titles_total_empty(n);
    } else {
        let t = champions.drop_last();
        assert forall|k: int| 0 <= k < t.len() implies #[trigger] t[k] < n by {
            assert(t[k] == champions[k]);
        }
        lemma_titles_add_up(t, n);
        assert(t.push(champions.last()) =~= champions);
        assert(champions[champions.len() - 1] < n);
        lemma_titles_total_push(t, champions.last(), n);
    }
}

/// Titles won by each team over the rollouts recorded so far.
pub struct TitleTally {
    titles: Vec<u64>,
    champions: Ghost<Seq<usize>>,
}

impl View for TitleTally {
    type V = Seq<usize>;

    /// The champions recorded, one per rollout, in order.
    closed spec fn view(&self) -> Seq<usize> {
        self.champions@
    }
}

impl TitleTally {
    /// The tally agrees with the champions it recorded.
    pub closed spec fn wf(&self) -> bool {
        &&& forall|k: int| 0 <= k < self.champions@.len() ==> #[trigger] self.champions@[k]
            < self.titles@.len()
        &&& forall|i: int|
            0 <= i < self.titles@.len() ==> #[trigger] self.titles@[i] == title_count(
                self.champions@,
                i,
            )
        &&& self.champions@.len() <= u64::MAX
    }

    /// Number of teams the tally counts titles for.
    pub closed spec fn team_count(&self) -> nat {
        self.titles@.len()
    }

    /// No titles yet for any of `team_count` teams.
    pub fn new(team_count: usize) -> (t: TitleTally)
        ensures
            t.wf(),
            t.team_count() == team_count,
            t@ == Seq::<usize>::empty(),
    {
        let mut titles: Vec<u64> = Vec::new();
        let mut i: usize = 0;
        while i < team_count
            invariant
                i <= team_count,
                titles@.len() == i,
                forall|k: int| 0 <= k < i ==> titles@[k] == 0,
            decreases team_count - i,
        {
            titles.push(0);
            i = i + 1;
        }
        TitleTally { titles, champions: Ghost(Seq::empty()) }
    }

    /// Records one rollout won by `champion`.
    pub fn record(&mut self, champion: usize)
        requires
            old(self).wf(),
            champion < old(self).team_count(),
            old(self)@.len() < u64::MAX,
        ensures
            final(self).wf(),
            final(self).team_count() == old(self).team_count(),
            final(self)@ == old(self)@.push(champion),
            forall|k: int| 0 <= k < final(self)@.len() ==> #[trigger] final(self)@[k] < final(self).team_count(),
    {
        let ghost s = self.champions@;
        proof {
            lemma_title_count_bounded(s, champion as int);
            assert(self.titles@[champion as int] == title_count(s, champion as int));
        }
        let c: u64 = self.titles[champion];
        self.titles.set(champion, c + 1);
        self.champions = Ghost(s.push(champion));
        proof {
            let s2 = s.push(champion);
            assert forall|k: int| 0 <= k < s2.len() implies #[trigger] s2[k] < self.titles@.len() by {
                if k < s.len() {
                    assert(s2[k] == s[k]);
                }
            }
            assert forall|i: int| 0 <= i < self.titles@.len() implies #[trigger] self.titles@[i]
                == title_count(s2, i) by {
                lemma_title_count_push(s, champion, i);
                assert(old(self).titles@[i] == title_count(s, i));
            }
        }
    }

    /// Titles of each team, team `i` at position `i`. Every recorded champion
    /// is one of the teams, so the titles add up to the rollouts recorded.
    pub fn titles(&self) -> (t: &Vec<u64>)
        requires
            self.wf(),
        ensures
            t@.len() == self.team_count(),
            forall|i: int| 0 <= i < t@.len() ==> #[trigger] t@[i] == title_count(self@, i),
            forall|k: int| 0 <= k < self@.len() ==> #[trigger] self@[k] < self.team_count(),
            titles_total(self@, self.team_count()) == self@.len(),
    {
        proof {
            lemma_titles_add_up(self.champions@, self.titles@.len());
        }
        &self.titles
    }
}

} // verus!
