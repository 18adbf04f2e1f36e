use wm2026::bracket::{group_match_id, GROUP_FIXTURES};
use wm2026::history::{result_tags, signature_text, snapshot, stage_label, History, Snapshot};
use wm2026::model::{Data, Result, ResultsFile, Team, TeamsFile};
use wm2026::sim::Tally;
use wm2026::tournament::{Outcome, Step, TournamentRun};

fn all_teams() -> Vec<Team> {
    let mut v = Vec::new();
    for g in "ABCDEFGHIJKL".chars() {
        for pos in 1..=4 {
            v.push(Team { name: format!("Team {g}{pos}"), code: format!("{g}{pos}X"), group: g.to_string(), pos });
        }
    }
    v
}

fn res(id: &str, h: u32, a: u32) -> Result {
    Result { match_id: id.to_string(), home: h, away: a, winner: None, decided: None }
}

fn data_with(results: Vec<Result>) -> Data {
    Data::build(TeamsFile { hosts: vec![], teams: all_teams() }, ResultsFile { results }).unwrap()
}

fn group_results(n: usize) -> Vec<Result> {
    let mut v = Vec::new();
    for g in "ABCDEFGHIJKL".chars() {
        for &(h, a) in GROUP_FIXTURES.iter() {
            v.push(res(&group_match_id(g, h, a), 1, 0));
        }
    }
    v.truncate(n);
    v
}

fn snap(sig: &str, results: usize, tag: u32) -> Snapshot<u32> {
    Snapshot { sig: sig.to_string(), label: String::new(), results, shares: tag }
}

fn sigs(h: &History<u32>) -> Vec<(String, usize, u32)> {
    h.snapshots.iter().map(|s| (s.sig.clone(), s.results, s.shares)).collect()
}

#[test]
fn upsert_adds_a_new_state_in_order() {
    let mut h = History { snapshots: vec![snap("0:a", 0, 1), snap("5:b", 5, 2)] };
    h.upsert(snap("3:c", 3, 3));
    assert_eq!(sigs(&h), vec![("0:a".into(), 0, 1), ("3:c".into(), 3, 3), ("5:b".into(), 5, 2)]);
}

#[test]
fn upsert_refreshes_the_same_state() {
    let mut h = History { snapshots: vec![snap("0:a", 0, 1), snap("3:c", 3, 3)] };
    h.upsert(snap("3:c", 3, 9));
    assert_eq!(sigs(&h), vec![("0:a".into(), 0, 1), ("3:c".into(), 3, 9)]);
    h.upsert(snap("3:c", 3, 9));
    assert_eq!(sigs(&h), vec![("0:a".into(), 0, 1), ("3:c".into(), 3, 9)]);
}

#[test]
fn upsert_keeps_equal_counts_in_place() {
    let mut h = History { snapshots: vec![snap("2:x", 2, 1), snap("2:y", 2, 2), snap("1:z", 1, 3)] };
    h.upsert(snap("2:w", 2, 4));
    assert_eq!(
        sigs(&h),
        vec![("1:z".into(), 1, 3), ("2:x".into(), 2, 1), ("2:y".into(), 2, 2), ("2:w".into(), 2, 4)]
    );
}

#[test]
fn upsert_replaces_only_the_first_of_a_signature() {
    let mut h = History { snapshots: vec![snap("s", 4, 1), snap("s", 1, 2)] };
    h.upsert(snap("s", 2, 3));
    assert_eq!(sigs(&h), vec![("s".into(), 1, 2), ("s".into(), 2, 3)]);
}

#[test]
fn upsert_into_an_empty_history() {
    let mut h: History<u32> = History { snapshots: vec![] };
    h.upsert(snap("0:0", 0, 7));
    assert_eq!(sigs(&h), vec![("0:0".into(), 0, 7)]);
}

#[test]
fn stage_labels_before_and_during_the_groups() {
    assert_eq!(stage_label(&data_with(vec![])), "Pre");
    assert_eq!(stage_label(&data_with(group_results(1))), "MD1");
    assert_eq!(stage_label(&data_with(group_results(24))), "MD1");
    assert_eq!(stage_label(&data_with(group_results(25))), "MD2");
    assert_eq!(stage_label(&data_with(group_results(48))), "MD2");
    assert_eq!(stage_label(&data_with(group_results(49))), "MD3");
    assert_eq!(stage_label(&data_with(group_results(71))), "MD3");
    assert_eq!(stage_label(&data_with(group_results(72))), "Groups");
}

#[test]
fn stage_labels_in_the_knockouts() {
    let with = |ids: &[&str]| {
        let mut v = group_results(72);
        for id in ids {
            v.push(res(id, 1, 0));
        }
        stage_label(&data_with(v))
    };
    assert_eq!(with(&["M73"]), "R32");
    assert_eq!(with(&["M88", "M73"]), "R32");
    assert_eq!(with(&["M73", "M89"]), "R16");
    assert_eq!(with(&["M100"]), "QF");
    assert_eq!(with(&["M101", "M102"]), "SF");
    assert_eq!(with(&["M104"]), "Final");
    assert_eq!(with(&["M103"]), "Final");
    assert_eq!(with(&["M+74"]), "R32");
    assert_eq!(with(&["Mx", "M"]), "Groups");
    assert_eq!(stage_label(&data_with(vec![res("M5", 0, 0)])), "Final");
}

#[test]
fn signature_text_format() {
    assert_eq!(signature_text(0, 0), "0:0");
    assert_eq!(signature_text(3, 255), "3:ff");
    assert_eq!(signature_text(72, 0x1234abcd), "72:1234abcd");
}

#[test]
fn result_tags_are_sorted() {
    let mut k = res("M73", 1, 1);
    k.winner = Some("home".into());
    let d = data_with(vec![k, res("A:1v2", 2, 0), res("B:3v4", 10, 3)]);
    assert_eq!(result_tags(&d), vec!["A:1v2=2-0-", "B:3v4=10-3-", "M73=1-1-home"]);
    let d2 = data_with(vec![res("B:3v4", 10, 3), res("A:1v2", 2, 0), {
        let mut k = res("M73", 1, 1);
        k.winner = Some("home".into());
        k
    }]);
    assert_eq!(result_tags(&d), result_tags(&d2));
}

fn one_run(d: &Data) -> TournamentRun {
    let mut run = TournamentRun::new(d);
    loop {
        match run.next_step(d) {
            Step::Group { .. } => run.advance(d, Outcome::Score(1, 0)),
            Step::Ties { .. } => run.advance(d, Outcome::Ties(vec![10, 20, 30, 40, 50])),
            Step::Knockout { .. } => run.advance(d, Outcome::Knockout(1, 0, true)),
            Step::NoThirdSlotting => panic!("no valid third-place assignment"),
            Step::Done => break,
        }
    }
    run
}

#[test]
fn snapshot_of_a_state() {
    let d = data_with(group_results(30));
    let run = one_run(&d);
    let mut t = Tally::new(d.teams.len());
    t.record(&d, &run);
    let s = snapshot(&d, &t);
    assert!(s.sig.starts_with("30:"));
    assert!(s.sig.len() > 3);
    assert_eq!(s.label, "MD2");
    assert_eq!(s.results, 30);
    assert_eq!(s.shares.sims, 1);
    assert_eq!(s.shares.champion.len(), 48);
    assert_eq!(s.shares.champion.iter().map(|c| c.1).sum::<u64>(), 1);
    assert_eq!(s.shares.advance.iter().map(|c| c.1).sum::<u64>(), 32);
    assert_eq!(s.shares.champion[0].0, "A1X");
    let again = snapshot(&d, &t);
    assert_eq!(again.sig, s.sig);
}
