use wm2026::model::{Data, Result, ResultsFile, Team, TeamsFile};
use wm2026::sim::Tally;
use wm2026::tournament::{Outcome, Step, TournamentRun};

fn all_teams() -> Vec<Team> {
    let mut v = Vec::new();
    for g in "ABCDEFGHIJKL".chars() {
        for pos in 1..=4 {
            v.push(Team { name: format!("Team {g}{pos}"), code: format!("{g}{pos}X"), group: g.to_string(), pos });
        }
    }
    v
}

fn data_with(results: Vec<Result>) -> Data {
    Data::build(TeamsFile { hosts: vec![], teams: all_teams() }, ResultsFile { results }).unwrap()
}

fn idx(d: &Data, code: &str) -> usize {
    d.teams.iter().position(|t| t.code == code).unwrap()
}

/// Plays a whole tournament: every group match 1-0 to the home side, tie numbers 10..50 by
/// draw position, every knockout match 1-0 to the home side.
fn run_all(d: &Data) -> TournamentRun {
    let mut run = TournamentRun::new(d);
    let mut steps = 0;
    loop {
        steps += 1;
        assert!(steps < 1000);
        match run.next_step(d) {
            Step::Group { .. } => run.advance(d, Outcome::Score(1, 0)),
            Step::Ties { .. } => run.advance(d, Outcome::Ties(vec![10, 20, 30, 40, 50])),
            Step::Knockout { .. } => run.advance(d, Outcome::Knockout(1, 0, true)),
            Step::NoThirdSlotting => panic!("no valid third-place assignment"),
            Step::Done => break,
        }
    }
    run
}

#[test]
fn steps_come_in_tournament_order() {
    let d = data_with(vec![]);
    let mut run = TournamentRun::new(&d);
    match run.next_step(&d) {
        Step::Group { group, fixture, home, away, known } => {
            assert_eq!((group, fixture), (0, 0));
            assert_eq!(d.teams[home].code, "A1X");
            assert_eq!(d.teams[away].code, "A2X");
            assert_eq!(known, None);
        }
        s => panic!("unexpected {s:?}"),
    }
    for _ in 0..6 {
        run.advance(&d, Outcome::Score(2, 2));
    }
    match run.next_step(&d) {
        Step::Ties { group } => assert_eq!(group, 0),
        s => panic!("unexpected {s:?}"),
    }
    run.advance(&d, Outcome::Ties(vec![1, 2, 3, 4, 5]));
    match run.next_step(&d) {
        Step::Group { group, fixture, .. } => assert_eq!((group, fixture), (1, 0)),
        s => panic!("unexpected {s:?}"),
    }
}

#[test]
fn a_whole_tournament_with_fixed_outcomes() {
    let d = data_with(vec![]);
    let run = run_all(&d);
    assert_eq!(run.scores.len(), 12);
    assert_eq!(run.winners.len(), 31);
    // Group order with home wins 1-0: positions 4 and 1 on 6 points (tie numbers put 4 first),
    // then 3 and 2 on 3 points.
    let order_a: Vec<usize> = run.orders[0].clone();
    assert_eq!(order_a, vec![3, 0, 2, 1]);
    // Every R32 home side wins, so the champion is the winner of group E (match 74's side A).
    assert_eq!(run.winners[30], idx(&d, "E4X"));
    assert_eq!(run.sides[0], (idx(&d, "A1X"), idx(&d, "B1X")));
}

#[test]
fn real_results_are_kept() {
    let mut m74 = Result { match_id: "M74".into(), home: 0, away: 3, winner: None, decided: None };
    m74.decided = Some("90".into());
    let d = data_with(vec![
        Result { match_id: "A:1v2".into(), home: 0, away: 5, winner: None, decided: None },
        m74,
    ]);
    let run = run_all(&d);
    assert_eq!(run.scores[0][0], (0, 5));
    assert_eq!(run.scores[0][1], (1, 0));
    assert_eq!(run.ko[1], (0, 3, false));
    assert_eq!(run.winners[1], run.sides[1].1);
    assert_ne!(run.winners[30], idx(&d, "E4X"));
}

#[test]
fn level_knockout_ties_go_to_the_shootout_winner() {
    let d = data_with(vec![]);
    let mut run = TournamentRun::new(&d);
    loop {
        match run.next_step(&d) {
            Step::Group { .. } => run.advance(&d, Outcome::Score(0, 0)),
            Step::Ties { .. } => run.advance(&d, Outcome::Ties(vec![4, 3, 2, 1, 0])),
            Step::Knockout { .. } => run.advance(&d, Outcome::Knockout(2, 2, false)),
            Step::NoThirdSlotting => panic!("no valid third-place assignment"),
            Step::Done => break,
        }
    }
    for j in 0..31 {
        assert_eq!(run.winners[j], run.sides[j].1);
        assert_eq!(run.ko[j], (2, 2, true));
    }
}

#[test]
fn tally_starts_empty() {
    let t = Tally::new(48);
    assert_eq!(t.sims, 0);
    assert_eq!(t.champion, vec![0; 48]);
    assert_eq!(t.group_pos.len(), 48);
    assert_eq!(t.win.len(), 31);
    assert_eq!(t.slot_a.len(), 16);
    assert_eq!(t.slot_b.len(), 16);
    assert_eq!(t.opp.len(), 48);
    assert!(t.opp.iter().all(|o| o.iter().all(|v| v.len() == 48 && v.iter().all(|&x| x == 0))));
}

#[test]
fn recording_a_tournament_adds_one_of_each() {
    let d = data_with(vec![]);
    let run = run_all(&d);
    let mut t = Tally::new(d.teams.len());
    t.record(&d, &run);
    t.record(&d, &run);
    assert_eq!(t.sims, 2);
    let sum = |v: &Vec<u64>| v.iter().sum::<u64>();
    assert_eq!(sum(&t.group_winner), 24);
    assert_eq!(sum(&t.runner_up), 24);
    assert_eq!(sum(&t.third_through), 16);
    assert_eq!(sum(&t.reach_r16), 32);
    assert_eq!(sum(&t.reach_qf), 16);
    assert_eq!(sum(&t.reach_sf), 8);
    assert_eq!(sum(&t.reach_final), 4);
    assert_eq!(sum(&t.champion), 2);
    let e4 = idx(&d, "E4X");
    assert_eq!(t.champion[e4], 2);
    assert_eq!(t.group_winner[e4], 2);
    assert_eq!(t.group_pos[e4], [2, 0, 0, 0]);
    // E4 won 2 group games 1-0 and lost one: 6 points per tournament.
    assert_eq!(t.points_sum[e4], 12);
    assert_eq!(t.win[&104][e4], 2);
    let a1 = idx(&d, "A1X");
    let b1 = idx(&d, "B1X");
    assert_eq!(t.slot_a[&73][a1], 2);
    assert_eq!(t.slot_b[&73][b1], 2);
    assert_eq!(t.opp[a1][0][b1], 2);
    assert_eq!(t.opp[b1][0][a1], 2);
    let runner = run.sides[30].1;
    assert_eq!(t.opp[e4][4][runner], 2);
    for team in 0..d.teams.len() {
        assert_eq!(t.group_pos[team].iter().sum::<u64>(), 2);
    }
}

/// Group results with no two teams level on points, goal difference and goals, in any group
/// or among the thirds: (1,2) 3-0, (3,4) (2+g)-0, (1,3) 1-0, (4,2) 2-1, (4,1) 0-0, (2,3) 1-1.
fn untied_groups() -> Vec<Result> {
    let mut v = Vec::new();
    for (gi, g) in "ABCDEFGHIJKL".chars().enumerate() {
        let scores = [(3, 0), (2 + gi as u32, 0), (1, 0), (2, 1), (0, 0), (1, 1)];
        for (k, &(h, a)) in wm2026::bracket::GROUP_FIXTURES.iter().enumerate() {
            let id = wm2026::bracket::group_match_id(g, h, a);
            v.push(Result { match_id: id, home: scores[k].0, away: scores[k].1, winner: None, decided: None });
        }
    }
    v
}

#[test]
fn simulations_keep_what_real_results_settle() {
    let mut rs = untied_groups();
    rs.push(Result { match_id: "M73".into(), home: 2, away: 1, winner: None, decided: None });
    let d = data_with(rs);
    let determined = wm2026::analysis::determined_matches(&d);
    assert_eq!(determined.len(), 72 + 16);
    let mut run = TournamentRun::new(&d);
    loop {
        match run.next_step(&d) {
            // tie numbers that would reverse every group if they counted
            Step::Group { .. } => run.advance(&d, Outcome::Score(0, 0)),
            Step::Ties { .. } => run.advance(&d, Outcome::Ties(vec![1, 2, 3, 4, 99])),
            Step::Knockout { .. } => run.advance(&d, Outcome::Knockout(0, 2, true)),
            Step::NoThirdSlotting => panic!("no valid third-place assignment"),
            Step::Done => break,
        }
    }
    for j in 0..16 {
        assert_eq!(run.sides[j], (determined[72 + j].1, determined[72 + j].2));
    }
    assert_eq!(run.winners[0], determined[72].1);
    assert_eq!(run.winners[1], determined[73].2);
    assert_eq!(run.orders[0], vec![0, 2, 3, 1]);
}

#[test]
fn tally_maps_hold_exactly_the_knockout_matches() {
    let t = Tally::new(48);
    let mut win_keys: Vec<u32> = t.win.keys().copied().collect();
    win_keys.sort();
    let mut expected: Vec<u32> = (73..=102).collect();
    expected.push(104);
    assert_eq!(win_keys, expected);
    for m in [&t.slot_a, &t.slot_b] {
        let mut keys: Vec<u32> = m.keys().copied().collect();
        keys.sort();
        assert_eq!(keys, (73..=88).collect::<Vec<u32>>());
        assert!(m.values().all(|v| *v == vec![0u64; 48]));
    }
    assert!(t.win.values().all(|v| *v == vec![0u64; 48]));
}

#[test]
fn recorded_tallies_stay_consistent() {
    let d = data_with(vec![]);
    let d2 = data_with(untied_groups());
    let first = run_all(&d);
    let second = run_all(&d2);
    let mut t = Tally::new(d.teams.len());
    t.record(&d, &first);
    t.record(&d2, &second);
    t.record(&d, &first);
    assert_eq!(t.sims, 3);
    for a in 0..d.teams.len() {
        assert_eq!(t.group_winner[a], t.group_pos[a][0]);
        assert_eq!(t.runner_up[a], t.group_pos[a][1]);
        assert!(t.third_through[a] <= t.group_pos[a][2]);
        assert_eq!(t.group_pos[a].iter().sum::<u64>(), t.sims);
        assert!(t.champion[a] <= t.reach_final[a]);
        assert!(t.reach_final[a] <= t.reach_sf[a]);
        assert!(t.reach_sf[a] <= t.reach_qf[a]);
        assert!(t.reach_qf[a] <= t.reach_r16[a]);
        assert!(t.reach_r16[a] <= t.group_winner[a] + t.runner_up[a] + t.third_through[a]);
        assert!(t.group_winner[a] + t.runner_up[a] + t.third_through[a] <= t.sims);
        assert!(t.points_sum[a] <= 9 * t.sims);
        let row = |r: usize| t.opp[a][r].iter().sum::<u64>();
        assert_eq!(row(0), t.group_winner[a] + t.runner_up[a] + t.third_through[a]);
        assert_eq!(row(1), t.reach_r16[a]);
        assert_eq!(row(2), t.reach_qf[a]);
        assert_eq!(row(3), t.reach_sf[a]);
        assert_eq!(row(4), t.reach_final[a]);
        for r in 0..5 {
            assert_eq!(t.opp[a][r][a], 0);
            for b in 0..d.teams.len() {
                assert_eq!(t.opp[a][r][b], t.opp[b][r][a]);
            }
        }
    }
}
