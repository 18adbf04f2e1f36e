use wm2026::analysis::{determined_matches, group_stage, played_matches, stage_name, thirds_can_be_placed};
use wm2026::bracket::{group_match_id, GROUP_FIXTURES};
use wm2026::model::{Data, Result, ResultsFile, Team, TeamsFile};
use wm2026::standings::{group_keys, rank, real_group_standings, real_thirds_order, RankKey};

fn all_teams() -> Vec<Team> {
    let mut v = Vec::new();
    for g in "ABCDEFGHIJKL".chars() {
        for pos in 1..=4 {
            v.push(Team { name: format!("Team {g}{pos}"), code: format!("{g}{pos}X"), group: g.to_string(), pos });
        }
    }
    v
}

fn res(id: &str, h: u32, a: u32) -> Result {
    Result { match_id: id.to_string(), home: h, away: a, winner: None, decided: None }
}

fn data_with(results: Vec<Result>) -> Data {
    Data::build(TeamsFile { hosts: vec![], teams: all_teams() }, ResultsFile { results }).unwrap()
}

fn idx(d: &Data, code: &str) -> usize {
    d.teams.iter().position(|t| t.code == code).unwrap()
}

/// All 72 group results: in every group the home side wins 1-0, except that group `g`'s
/// fixture `k` gets `extra` goals for the home side.
fn full_groups(extra: u32) -> Vec<Result> {
    let mut v = Vec::new();
    for (gi, g) in "ABCDEFGHIJKL".chars().enumerate() {
        for (k, &(h, a)) in GROUP_FIXTURES.iter().enumerate() {
            let bonus = if k == 1 { (gi as u32) % 3 * extra } else { 0 };
            v.push(res(&group_match_id(g, h, a), 1 + bonus, 0));
        }
    }
    v
}

#[test]
fn stage_names() {
    assert_eq!(stage_name(73), "Round of 32");
    assert_eq!(stage_name(88), "Round of 32");
    assert_eq!(stage_name(89), "Round of 16");
    assert_eq!(stage_name(100), "Quarterfinal");
    assert_eq!(stage_name(102), "Semifinal");
    assert_eq!(stage_name(104), "Final");
    assert_eq!(stage_name(5), "Final");
    assert_eq!(group_stage('A', 1), "Group A · MD1");
    assert_eq!(group_stage('L', 3), "Group L · MD3");
}

#[test]
fn ranking_by_points_goal_difference_goals_then_tie() {
    let k = |pts, gd, gf, tie| RankKey { pts, gd, gf, tie };
    let keys = vec![k(3, 0, 1, 0), k(6, -1, 2, 0), k(6, 2, 3, 0), k(3, 0, 1, 9), k(3, 0, 2, 0)];
    assert_eq!(rank(&keys), vec![2, 1, 4, 3, 0]);
    let level = vec![k(1, 0, 0, 0); 4];
    assert_eq!(rank(&level), vec![0, 1, 2, 3]);
}

#[test]
fn group_keys_sum_the_fixtures() {
    // fixtures (1,2) (3,4) (1,3) (4,2) (4,1) (2,3)
    let scores = [(2, 0), (1, 1), (0, 1), (3, 2), (0, 0), (1, 4)];
    let keys = group_keys(&scores, &[7, 8, 9, 10]);
    assert_eq!(keys[0], RankKey { pts: 4, gd: 1, gf: 2, tie: 7 });
    assert_eq!(keys[1], RankKey { pts: 0, gd: -6, gf: 3, tie: 8 });
    assert_eq!(keys[2], RankKey { pts: 7, gd: 4, gf: 6, tie: 9 });
    assert_eq!(keys[3], RankKey { pts: 5, gd: 1, gf: 4, tie: 10 });
}

#[test]
fn real_standings_need_all_six_results() {
    let d = data_with(vec![res("A:1v2", 1, 0)]);
    assert_eq!(real_group_standings(&d, 'A'), None);
    assert_eq!(real_thirds_order(&d), None);
    let d = data_with(full_groups(0));
    // home wins 1-0 everywhere: positions 1 and 4 on 6 points and 2 and 3 on 3 points, level on
    // goals too, so the draw position decides within each pair.
    let s = real_group_standings(&d, 'A').unwrap();
    assert_eq!(s, [idx(&d, "A1X"), idx(&d, "A4X"), idx(&d, "A2X"), idx(&d, "A3X")]);
}

#[test]
fn best_thirds_by_goals_then_letter() {
    let d = data_with(full_groups(2));
    // groups whose index is 1 or 2 modulo 3 get a 3-0 / 5-0 win for position 3 over 4.
    let order = real_thirds_order(&d).unwrap();
    assert_eq!(order.len(), 8);
    assert_eq!(order.iter().collect::<String>(), "CFILBEHK");
    assert!(thirds_can_be_placed(&d));
}

#[test]
fn thirds_placeable_until_groups_are_done() {
    assert!(thirds_can_be_placed(&data_with(vec![])));
}

#[test]
fn determined_before_any_result() {
    let d = data_with(vec![]);
    let m = determined_matches(&d);
    assert_eq!(m.len(), 72);
    assert_eq!(m[0], ("A:1v2".to_string(), idx(&d, "A1X"), idx(&d, "A2X")));
    assert_eq!(m[5], ("A:2v3".to_string(), idx(&d, "A2X"), idx(&d, "A3X")));
    assert_eq!(m[71].0, "L:2v3");
}

#[test]
fn determined_after_the_groups() {
    let d = data_with(full_groups(0));
    let m = determined_matches(&d);
    // all 16 round-of-32 matches become known; later rounds need knockout results
    assert_eq!(m.len(), 72 + 16);
    assert_eq!(m[72], ("M73".to_string(), idx(&d, "A4X"), idx(&d, "B4X")));
    assert_eq!(m[73].1, idx(&d, "E1X"));
}

#[test]
fn determined_follows_knockout_winners() {
    let mut rs = full_groups(0);
    rs.push(res("M74", 0, 2));
    let mut m77 = res("M77", 1, 1);
    m77.winner = Some("home".into());
    rs.push(m77);
    let d = data_with(rs);
    let m = determined_matches(&d);
    assert_eq!(m.len(), 72 + 17);
    let r16 = &m[88];
    assert_eq!(r16.0, "M89");
    let m74 = &m[73];
    let m77 = &m[76];
    assert_eq!(r16.1, m74.2);
    assert_eq!(r16.2, m77.1);
}

#[test]
fn played_lists_group_then_knockout_results() {
    let mut rs = vec![res("B:4v1", 2, 3), res("A:3v4", 0, 0)];
    rs.push(res("M73", 1, 0));
    let d = data_with(rs);
    let p = played_matches(&d);
    // M73's sides are not decided by real results yet, so it is left out
    assert_eq!(p.len(), 2);
    assert_eq!(p[0].stage, "Group A · MD1");
    assert_eq!((p[0].home, p[0].away, p[0].gh, p[0].ga), (idx(&d, "A3X"), idx(&d, "A4X"), 0, 0));
    assert_eq!(p[1].stage, "Group B · MD3");
    assert_eq!((p[1].gh, p[1].ga), (2, 3));

    let mut rs = full_groups(0);
    rs.push(res("M73", 1, 2));
    let d = data_with(rs);
    let p = played_matches(&d);
    assert_eq!(p.len(), 73);
    assert_eq!(p[72].stage, "Round of 32");
    assert_eq!((p[72].home, p[72].away), (idx(&d, "A4X"), idx(&d, "B4X")));
}

#[test]
fn played_matches_on_hand_built_data() {
    // Four teams of group A, listed as every group; one result, A's matchday-2 fixture 4 v 2.
    let teams: Vec<Team> = (0..4)
        .map(|i| Team { name: format!("T{i}"), code: format!("T{i}"), group: "A".to_string(), pos: i + 1 })
        .collect();
    let results = vec![res("A:4v2", 0, 3)];
    let mut group_scores = vec![vec![None; 6]; 12];
    group_scores[0][3] = Some((0, 3));
    let data = Data {
        teams,
        hosts: vec![],
        results,
        group_index: vec![vec![0, 1, 2, 3]; 12],
        group_scores,
        ko_scores: vec![None; 31],
    };
    assert!(thirds_can_be_placed(&data));
    let r = played_matches(&data);
    assert_eq!(r.len(), 1);
    assert_eq!(r[0].stage, "Group A \u{b7} MD2");
    assert_eq!((r[0].home, r[0].away, r[0].gh, r[0].ga), (3, 1, 0, 3));
}
