use playground_example::knockout::Tie;
use playground_example::bracket::{Bracket, TitleTally};
use playground_example::tally::{MatchTally, ScorelineCount, TOP_SCORELINES};

fn tally_of(scores: &[(usize, usize)]) -> MatchTally {
    let mut t = MatchTally::new();
    for &(h, a) in scores {
        t.record(h, a);
    }
    t
}

#[test]
fn tally_counts_outcomes_goals_and_markets() {
    let t = tally_of(&[(1, 0), (2, 2), (0, 3), (1, 1), (3, 1), (0, 0)]);
    assert_eq!(t.recorded(), 6);
    assert_eq!(t.home_wins(), 2);
    assert_eq!(t.draws(), 3);
    assert_eq!(t.away_wins(), 1);
    assert_eq!(t.home_wins() + t.draws() + t.away_wins(), t.recorded());
    assert_eq!(t.over_2_5(), 3);
    assert_eq!(t.both_score(), 3);
    assert_eq!(t.goals_home(), 7);
    assert_eq!(t.goals_away(), 7);
    assert_eq!(t.scoreline(1, 1), 1);
    assert_eq!(t.scoreline(10, 10), 0);
}

#[test]
fn tally_grid_adds_up_to_recorded() {
    let t = tally_of(&[(1, 0), (1, 0), (10, 10), (0, 10), (4, 2)]);
    let mut total = 0;
    for h in 0..=10 {
        for a in 0..=10 {
            total += t.scoreline(h, a);
        }
    }
    assert_eq!(total, t.recorded());
}

#[test]
fn tally_knockout_results() {
    let mut t = MatchTally::new();
    t.record(2, 0);
    t.record_knockout(&Tie::after_regulation(2, 0));
    t.record(1, 1);
    t.record_knockout(&Tie::after_regulation(1, 1).after_extra_time(0, 1));
    t.record(0, 0);
    t.record_knockout(&Tie::after_regulation(0, 0).after_extra_time(0, 0).after_shootout(true));
    assert_eq!(t.knockouts_recorded(), 3);
    assert_eq!(t.home_advances(), 2);
    assert_eq!(t.recorded(), 3);
}

fn cells(top: &[ScorelineCount]) -> Vec<(usize, usize, u64)> {
    top.iter().map(|c| (c.home, c.away, c.count)).collect()
}

#[test]
fn top_scorelines_most_frequent_first_ties_row_major() {
    let t = tally_of(&[
        (2, 1), (1, 1), (2, 1), (0, 0), (1, 1), (3, 0), (1, 0), (0, 1), (4, 4), (2, 1),
    ]);
    assert_eq!(
        cells(&t.top_scorelines()),
        vec![(2, 1, 3), (1, 1, 2), (0, 0, 1), (0, 1, 1), (1, 0, 1), (3, 0, 1)]
    );
}

#[test]
fn top_scorelines_lists_only_drawn_scorelines() {
    let t = tally_of(&[(0, 2), (0, 2), (5, 1)]);
    assert_eq!(cells(&t.top_scorelines()), vec![(0, 2, 2), (5, 1, 1)]);
    assert!(MatchTally::new().top_scorelines().is_empty());
    assert_eq!(TOP_SCORELINES, 6);
}

fn play(n: usize, decisions: &[bool]) -> (Option<usize>, usize) {
    let mut b = Bracket::new(n);
    let mut ties = 0;
    let mut d = decisions.iter();
    while let Some((_home, _away)) = b.next_tie() {
        b.report(*d.next().unwrap());
        ties += 1;
    }
    (b.champion(), ties)
}

#[test]
fn bracket_plays_pairs_in_order() {
    let mut b = Bracket::new(4);
    assert_eq!(b.champion(), None);
    assert_eq!(b.next_tie(), Some((0, 1)));
    b.report(false);
    assert_eq!(b.next_tie(), Some((2, 3)));
    b.report(true);
    assert_eq!(b.next_tie(), Some((1, 2)));
    b.report(false);
    assert_eq!(b.next_tie(), None);
    assert_eq!(b.champion(), Some(2));
}

#[test]
fn bracket_takes_n_minus_one_ties() {
    assert_eq!(play(8, &[true; 7]), (Some(0), 7));
    assert_eq!(play(8, &[false; 7]), (Some(7), 7));
    assert_eq!(play(2, &[false]), (Some(1), 1));
    assert_eq!(play(1, &[]), (Some(0), 0));
    assert_eq!(play(16, &[true, false, true, false, true, false, true, false, true, true, true, true, false, false, false]).1, 15);
}

#[test]
fn title_tally_counts_champions() {
    let mut t = TitleTally::new(4);
    for c in [2usize, 0, 2, 3, 2] {
        t.record(c);
    }
    assert_eq!(t.titles(), &vec![1, 0, 3, 1]);
    assert_eq!(t.titles().iter().sum::<u64>(), 5);
}

#[test]
fn knockout_advances_lie_between_wins_and_wins_plus_draws() {
    let draws = [(1usize, 0usize, 0usize, 0usize, false), (0, 0, 1, 0, false), (2, 2, 0, 0, true),
        (0, 2, 3, 0, true), (1, 1, 0, 1, true), (3, 3, 0, 0, false)];
    let mut t = MatchTally::new();
    for (h, a, eh, ea, p) in draws {
        t.record(h, a);
        let mut tie = Tie::after_regulation(h, a);
        if tie.needs_extra_time() {
            tie = tie.after_extra_time(eh, ea);
        }
        if tie.needs_penalties() {
            tie = tie.after_shootout(p);
        }
        t.record_knockout(&tie);
    }
    assert_eq!(t.home_wins(), 1);
    assert_eq!(t.draws(), 4);
    assert_eq!(t.home_advances(), 3);
    assert!(t.home_wins() <= t.home_advances());
    assert!(t.home_advances() <= t.home_wins() + t.draws());
}

#[test]
fn one_rollout_crowns_exactly_one_team() {
    let mut titles = TitleTally::new(8);
    let mut b = Bracket::new(8);
    let mut home = true;
    while b.next_tie().is_some() {
        b.report(home);
        home = !home;
    }
    titles.record(b.champion().unwrap());
    let t = titles.titles();
    assert_eq!(t.iter().sum::<u64>(), 1);
    assert_eq!(t.iter().filter(|&&c| c == 1).count(), 1);
}
