use playground_example::knockout::Tie;
use playground_example::ranking::rank_desc;

fn resolve(home: usize, away: usize, et_home: usize, et_away: usize, pens: bool) -> Option<bool> {
    let mut tie = Tie::after_regulation(home, away);
    if tie.needs_extra_time() {
        tie = tie.after_extra_time(et_home, et_away);
    }
    if tie.needs_penalties() {
        tie = tie.after_shootout(pens);
    }
    tie.home_through()
}

#[test]
fn regulation_winner_goes_through() {
    assert_eq!(resolve(2, 1, 0, 5, false), Some(true));
    assert_eq!(resolve(0, 3, 4, 0, true), Some(false));
    assert!(!Tie::after_regulation(2, 1).needs_extra_time());
}

#[test]
fn level_tie_goes_to_extra_time_then_penalties() {
    let tie = Tie::after_regulation(1, 1);
    assert!(tie.needs_extra_time());
    assert_eq!(tie.home_through(), None);
    assert_eq!(resolve(1, 1, 1, 0, false), Some(true));
    assert_eq!(resolve(1, 1, 0, 2, true), Some(false));
    let tie = Tie::after_regulation(0, 0).after_extra_time(1, 1);
    assert!(tie.needs_penalties());
    assert_eq!(tie.home_through(), None);
    assert_eq!(resolve(0, 0, 1, 1, true), Some(true));
    assert_eq!(resolve(0, 0, 0, 0, false), Some(false));
}

#[test]
fn later_stages_leave_a_decided_tie_alone() {
    let tie = Tie::after_regulation(3, 0).after_extra_time(0, 9).after_shootout(false);
    assert_eq!(tie.home_through(), Some(true));
}

#[test]
fn knockout_is_symmetric() {
    for (h, a, eh, ea, p) in [(1, 1, 2, 1, true), (0, 0, 0, 0, true), (2, 3, 0, 0, false)] {
        assert_eq!(resolve(h, a, eh, ea, p), resolve(a, h, ea, eh, !p).map(|b| !b));
    }
}

#[test]
fn rank_desc_is_a_stable_descending_order() {
    assert_eq!(rank_desc(&vec![3, 5, 5, 0, 5]), vec![1, 2, 4, 0, 3]);
    assert_eq!(rank_desc(&vec![]), Vec::<usize>::new());
    assert_eq!(rank_desc(&vec![7]), vec![0]);
    assert_eq!(rank_desc(&vec![0, 0, 0]), vec![0, 1, 2]);
    assert_eq!(rank_desc(&vec![1, 2, 3, 4]), vec![3, 2, 1, 0]);
}

#[test]
fn rank_desc_agrees_with_std_stable_sort() {
    let keys: Vec<u64> = (0..60u64).map(|i| (i * 37 + 11) % 13).collect();
    let mut expected: Vec<usize> = (0..keys.len()).collect();
    expected.sort_by(|a, b| keys[*b].cmp(&keys[*a]));
    assert_eq!(rank_desc(&keys), expected);
}
