use wm2026::model::{dedup_results, Data, LoadError, Result, ResultsFile, Team, TeamsFile};

fn team(g: char, pos: usize) -> Team {
    Team {
        name: format!("Team {g}{pos}"),
        code: format!("{g}{pos}X"),
        group: g.to_string(),
        pos,
    }
}

fn all_teams() -> Vec<Team> {
    let mut v = Vec::new();
    for g in "ABCDEFGHIJKL".chars() {
        // listed out of draw order, to check the ordering
        for pos in [3, 1, 4, 2] {
            v.push(team(g, pos));
        }
    }
    v
}

fn res(id: &str, h: u32, a: u32) -> Result {
    Result { match_id: id.to_string(), home: h, away: a, winner: None, decided: None }
}

#[test]
fn build_indexes_groups_by_draw_position() {
    let tf = TeamsFile { hosts: vec!["A1X".to_string()], teams: all_teams() };
    let d = Data::build(tf, ResultsFile { results: vec![] }).unwrap();
    let a = d.group_teams('A');
    let codes: Vec<&str> = a.iter().map(|&i| d.teams[i].code.as_str()).collect();
    assert_eq!(codes, vec!["A1X", "A2X", "A3X", "A4X"]);
    let l = d.group_teams('L');
    assert_eq!(d.teams[l[0]].code, "L1X");
    assert_eq!(d.teams[l[3]].code, "L4X");
}

#[test]
fn is_host_checks_the_code() {
    let tf = TeamsFile { hosts: vec!["A1X".to_string(), "B2X".to_string()], teams: all_teams() };
    let d = Data::build(tf, ResultsFile { results: vec![] }).unwrap();
    let a1 = d.teams.iter().position(|t| t.code == "A1X").unwrap();
    let b2 = d.teams.iter().position(|t| t.code == "B2X").unwrap();
    let c1 = d.teams.iter().position(|t| t.code == "C1X").unwrap();
    assert!(d.is_host(a1));
    assert!(d.is_host(b2));
    assert!(!d.is_host(c1));
}

#[test]
fn build_refuses_an_empty_group_name() {
    let mut teams = all_teams();
    teams[5].group = String::new();
    let r = Data::build(TeamsFile { hosts: vec![], teams }, ResultsFile { results: vec![] });
    assert_eq!(r.err(), Some(LoadError::EmptyGroup));
}

#[test]
fn build_refuses_a_missing_group() {
    let teams: Vec<Team> = all_teams().into_iter().filter(|t| t.group != "C").collect();
    let r = Data::build(TeamsFile { hosts: vec![], teams }, ResultsFile { results: vec![] });
    assert_eq!(r.err(), Some(LoadError::GroupMissing('C')));
}

#[test]
fn build_refuses_a_group_of_the_wrong_size() {
    let mut teams = all_teams();
    teams.push(team('B', 5));
    let r = Data::build(TeamsFile { hosts: vec![], teams }, ResultsFile { results: vec![] });
    assert_eq!(r.err(), Some(LoadError::GroupSize('B', 5)));
    let mut teams = all_teams();
    teams.retain(|t| !(t.group == "D" && t.pos == 2));
    let r = Data::build(TeamsFile { hosts: vec![], teams }, ResultsFile { results: vec![] });
    assert_eq!(r.err(), Some(LoadError::GroupSize('D', 3)));
}

#[test]
fn build_checks_groups_in_letter_order() {
    let teams: Vec<Team> = all_teams()
        .into_iter()
        .filter(|t| t.group != "K" && !(t.group == "E" && t.pos == 1))
        .collect();
    let r = Data::build(TeamsFile { hosts: vec![], teams }, ResultsFile { results: vec![] });
    assert_eq!(r.err(), Some(LoadError::GroupSize('E', 3)));
}

#[test]
fn group_names_use_their_first_letter() {
    let mut teams = all_teams();
    for t in teams.iter_mut() {
        t.group = format!("{}-group", t.group);
    }
    let d = Data::build(TeamsFile { hosts: vec![], teams }, ResultsFile { results: vec![] }).unwrap();
    assert_eq!(d.group_teams('F').len(), 4);
}

#[test]
fn later_results_replace_earlier_ones() {
    let out = dedup_results(vec![res("A:1v2", 1, 0), res("M73", 2, 2), res("A:1v2", 3, 3)]);
    assert_eq!(out.len(), 2);
    let a = out.iter().find(|r| r.match_id == "A:1v2").unwrap();
    assert_eq!((a.home, a.away), (3, 3));
}

#[test]
fn fixture_scores_come_from_the_results() {
    let rs = vec![res("A:1v2", 2, 1), res("A:4v2", 0, 3), res("B:1v2", 1, 1), res("A:1v2", 5, 0)];
    let mut w = res("M74", 1, 1);
    w.winner = Some("away".to_string());
    let mut rs = rs;
    rs.push(w);
    let mut h = res("M73", 2, 2);
    h.winner = Some("home".to_string());
    rs.push(h);
    let d = Data::build(TeamsFile { hosts: vec![], teams: all_teams() }, ResultsFile { results: rs }).unwrap();
    assert_eq!(d.group_score(0, 0), Some((5, 0)));
    assert_eq!(d.group_score(0, 1), None);
    assert_eq!(d.group_score(0, 3), Some((0, 3)));
    assert_eq!(d.group_score(1, 0), Some((1, 1)));
    assert_eq!(d.ko_score(0), Some((2, 2, false)));
    assert_eq!(d.ko_score(1), Some((1, 1, true)));
    assert_eq!(d.ko_score(30), None);
    assert_eq!(d.results.len(), 5);
}

#[test]
fn result_for_finds_the_kept_result() {
    let mut k = res("M73", 1, 1);
    k.decided = Some("pens".into());
    let d = Data::build(
        TeamsFile { hosts: vec![], teams: all_teams() },
        ResultsFile { results: vec![res("M73", 0, 0), k] },
    )
    .unwrap();
    let r = d.result_for(&"M73".to_string()).unwrap();
    assert_eq!((r.home, r.away), (1, 1));
    assert_eq!(r.decided.as_deref(), Some("pens"));
    assert!(d.result_for(&"M74".to_string()).is_none());
}
