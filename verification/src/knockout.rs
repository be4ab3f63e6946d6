//! Resolution of a knockout tie: regulation time, then extra time, then
//! penalties, each played only while the tie is level.

use vstd::prelude::*;

verus! {

/// Where a knockout tie stands.
pub enum Tie {
    /// One side is through.
    Decided { home_through: bool },
    /// Level at `goals` each after regulation time: extra time is played.
    LevelAfterRegulation { goals: usize },
    /// Still level after extra time: penalties are taken.
    LevelAfterExtraTime,
}

/// The tie after regulation time ended `home`-`away`.
pub open spec fn after_regulation_spec(home: usize, away: usize) -> Tie {
    if home > away {
        Tie::Decided { home_through: true }
    } else if away > home {
        Tie::Decided { home_through: false }
    } else {
        Tie::LevelAfterRegulation { goals: home }
    }
}

impl Tie {
    /// The tie after `et_home` and `et_away` extra-time goals: only a tie
    /// level after regulation time plays extra time; any other stays as it is.
    pub open spec fn after_extra_time_spec(self, et_home: usize, et_away: usize) -> Tie {
        match self {
            Tie::LevelAfterRegulation { goals } => {
                let home = goals + et_home;
                let away = goals + et_away;
                if home > away {
                    Tie::Decided { home_through: true }
                } else if away > home {
                    Tie::Decided { home_through: false }
                } else {
                    Tie::LevelAfterExtraTime
                }
            },
            _ => self,
        }
    }

    /// The tie after a shootout that the home side won when `home_wins`:
    /// only a tie still level after extra time goes to penalties.
    pub open spec fn after_shootout_spec(self, home_wins: bool) -> Tie {
        match self {
            Tie::LevelAfterExtraTime => Tie::Decided { home_through: home_wins },
            _ => self,
        }
    }

    /// Whether the home side is through, once the tie is decided.
    pub open spec fn home_through_spec(self) -> Option<bool> {
        match self {
            Tie::Decided { home_through } => Some(home_through),
            _ => None,
        }
    }

    /// The tie after regulation time ended `home`-`away`.
    pub fn after_regulation(home: usize, away: usize) -> (t: Tie)
        ensures
            t == after_regulation_spec(home, away),
            home > away ==> t == (Tie::Decided { home_through: true }),
            away > home ==> t == (Tie::Decided { home_through: false }),
            home == away ==> t == (Tie::LevelAfterRegulation { goals: home }),
    {
        if home > away {
            Tie::Decided { home_through: true }
        } else if away > home {
            Tie::Decided { home_through: false }
        } else {
            Tie::LevelAfterRegulation { goals: home }
        }
    }

    /// Whether extra time is still to be played.
    pub fn needs_extra_time(&self) -> (b: bool)
        ensures
            b == (*self is LevelAfterRegulation),
    {
        match self {
            Tie::LevelAfterRegulation { .. } => true,
            _ => false,
        }
    }

    /// Whether penalties are still to be taken.
    pub fn needs_penalties(&self) -> (b: bool)
        ensures
            b == (*self is LevelAfterExtraTime),
    {
        match self {
            Tie::LevelAfterExtraTime => true,
            _ => false,
        }
    }

    /// The tie after `et_home` and `et_away` extra-time goals.
    pub fn after_extra_time(self, et_home: usize, et_away: usize) -> (t: Tie)
        ensures
            t == self.after_extra_time_spec(et_home, et_away),
            (self is LevelAfterRegulation) && et_home > et_away ==> t == (Tie::Decided {
                home_through: true,
            }),
            (self is LevelAfterRegulation) && et_away > et_home ==> t == (Tie::Decided {
                home_through: false,
            }),
            (self is LevelAfterRegulation) && et_home == et_away ==> t == Tie::LevelAfterExtraTime,
            !(self is LevelAfterRegulation) ==> t == self,
    {
        match self {
            Tie::LevelAfterRegulation { goals } => {
                // Both sides start extra time on `goals`, so the totals
                // compare as the extra-time goals do.
                if et_home > et_away {
                    Tie::Decided { home_through: true }
                } else if et_away > et_home {
                    Tie::Decided { home_through: false }
                } else {
                    Tie::LevelAfterExtraTime
                }
            },
            other => other,
        }
    }

    /// The tie after a shootout that the home side won when `home_wins`.
    pub fn after_shootout(self, home_wins: bool) -> (t: Tie)
        ensures
            t == self.after_shootout_spec(home_wins),
            (self is LevelAfterExtraTime) ==> t == (Tie::Decided { home_through: home_wins }),
            !(self is LevelAfterExtraTime) ==> t == self,
    {
        match self {
            Tie::LevelAfterExtraTime => Tie::Decided { home_through: home_wins },
            other => other,
        }
    }

    /// Whether the home side is through, once the tie is decided.
    pub fn home_through(&self) -> (r: Option<bool>)
        ensures
            r == self.home_through_spec(),
            r == match *self {
                (Tie::Decided { home_through }) => Some(home_through),
                _ => None,
            },
    {
        match self {
            Tie::Decided { home_through } => Some(*home_through),
            _ => None,
        }
    }
}

/// Each stage names the side through by the goals: after regulation time the
/// tie is decided with the home side through exactly when it scored more, and
/// level (on the goals each side scored) exactly when the scores are equal;
/// after extra time a level tie is decided for the side with more extra-time
/// goals and stays level otherwise; a shootout decides a tie still level for
/// its winner; and a decided tie reports the side that its own field names.
pub proof fn lemma_stages_name_the_winner(
    home: usize,
    away: usize,
    goals: usize,
    et_home: usize,
    et_away: usize,
    home_wins: bool,
    home_through: bool,
)
    ensures
        (after_regulation_spec(home, away) == (Tie::Decided { home_through })) <==> (home != away
            && (home_through <==> home > away)),
        (after_regulation_spec(home, away) == (Tie::LevelAfterRegulation { goals })) <==> (home
            == away && away == goals),
        (Tie::LevelAfterRegulation { goals }.after_extra_time_spec(et_home, et_away)
            == (Tie::Decided { home_through })) <==> (et_home != et_away && (home_through
            <==> et_home > et_away)),
        (Tie::LevelAfterRegulation { goals }.after_extra_time_spec(et_home, et_away)
            == Tie::LevelAfterExtraTime) <==> et_home == et_away,
        Tie::LevelAfterExtraTime.after_shootout_spec(home_wins) == (Tie::Decided {
            home_through: home_wins,
        }),
        (Tie::Decided { home_through }).after_extra_time_spec(et_home, et_away) == (Tie::Decided {
            home_through,
        }),
        (Tie::Decided { home_through }).after_shootout_spec(home_wins) == (Tie::Decided {
            home_through,
        }),
        (Tie::Decided { home_through }).home_through_spec() == Some(home_through),
        (Tie::LevelAfterRegulation { goals }).home_through_spec() == None::<bool>,
        Tie::LevelAfterExtraTime.home_through_spec() == None::<bool>,
{
}

/// The whole of a knockout tie: regulation score, extra-time goals and the
/// shootout, each stage counting only while the tie is level.
pub open spec fn knockout_result(
    home: usize,
    away: usize,
    et_home: usize,
    et_away: usize,
    home_wins_shootout: bool,
) -> Tie {
    after_regulation_spec(home, away).after_extra_time_spec(et_home, et_away).after_shootout_spec(
        home_wins_shootout,
    )
}

/// A knockout tie always ends with one side through: no draw is allowed.
pub proof fn lemma_knockout_always_decided(
    home: usize,
    away: usize,
    et_home: usize,
    et_away: usize,
    home_wins_shootout: bool,
)
    ensures
        knockout_result(home, away, et_home, et_away, home_wins_shootout) is Decided,
{
}

/// A side that wins in regulation time goes through, whatever extra time or a
/// shootout would have brought.
pub proof fn lemma_regulation_winner_advances(
    home: usize,
    away: usize,
    et_home: usize,
    et_away: usize,
    home_wins_shootout: bool,
)
    requires
        home != away,
    ensures
        knockout_result(home, away, et_home, et_away, home_wins_shootout).home_through_spec()
            == Some(home > away),
{
}

/// A tie level after regulation time goes to the side with more goals after
/// extra time, and to the shootout winner when extra time leaves it level.
pub proof fn lemma_level_tie_resolution(
    goals: usize,
    et_home: usize,
    et_away: usize,
    home_wins_shootout: bool,
)
    ensures
        knockout_result(goals, goals, et_home, et_away, home_wins_shootout).home_through_spec()
            == Some(
            if et_home != et_away {
                et_home > et_away
            } else {
                home_wins_shootout
            },
        ),
{
}

/// Swapping the two sides, and the shootout result with them, hands the tie
/// to the other side.
pub proof fn lemma_knockout_symmetric(
    home: usize,
    away: usize,
    et_home: usize,
    et_away: usize,
    home_wins_shootout: bool,
)
    ensures
        knockout_result(home, away, et_home, et_away, home_wins_shootout).home_through_spec()
            == Some(
            !knockout_result(
                away,
                home,
                et_away,
                et_home,
                !home_wins_shootout,
            ).home_through_spec().unwrap(),
        ),
{
}

} // verus!
