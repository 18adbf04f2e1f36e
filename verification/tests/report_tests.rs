use wm2026::bracket::{group_match_id, GROUP_FIXTURES};
use wm2026::model::{Data, Result, ResultsFile, Team, TeamsFile};
use wm2026::report::{
    bracket_children, card_order, collect_leaves, count_order, current_table, flag, ko_started, modal,
    result_label, round_col, Child, TableRow,
};

fn all_teams() -> Vec<Team> {
    let mut v = Vec::new();
    for g in "ABCDEFGHIJKL".chars() {
        for pos in 1..=4 {
            v.push(Team { name: format!("Team {g}{pos}"), code: format!("{g}{pos}X"), group: g.to_string(), pos });
        }
    }
    v
}

fn res(id: &str, h: u32, a: u32) -> Result {
    Result { match_id: id.to_string(), home: h, away: a, winner: None, decided: None }
}

fn data_with(results: Vec<Result>) -> Data {
    Data::build(TeamsFile { hosts: vec![], teams: all_teams() }, ResultsFile { results }).unwrap()
}

#[test]
fn children_of_every_match() {
    let ch = bracket_children();
    assert_eq!(ch.len(), 31);
    assert_eq!(ch[&73], (Child::LeafA(73), Child::LeafB(73)));
    assert_eq!(ch[&89], (Child::Match(74), Child::Match(77)));
    assert_eq!(ch[&104], (Child::Match(101), Child::Match(102)));
    assert!(!ch.contains_key(&103));
}

#[test]
fn leaves_in_drawing_order() {
    let ch = bracket_children();
    let mut out = Vec::new();
    collect_leaves(104, &ch, &mut out);
    assert_eq!(out.len(), 32);
    let ids: Vec<u32> = out.iter().step_by(2).map(|l| l.0).collect();
    assert_eq!(ids, vec![74, 77, 73, 75, 83, 84, 81, 82, 76, 78, 79, 80, 86, 88, 85, 87]);
    for (k, l) in out.iter().enumerate() {
        assert_eq!(l.1, k % 2 == 1);
    }
    let mut sorted = out.clone();
    sorted.sort();
    sorted.dedup();
    assert_eq!(sorted.len(), 32);
    let mut sub = vec![(1, true)];
    collect_leaves(97, &ch, &mut sub);
    assert_eq!(sub, vec![(1, true), (74, false), (74, true), (77, false), (77, true), (73, false), (73, true), (75, false), (75, true)]);
}

#[test]
fn drawing_columns() {
    assert_eq!(round_col(73), 1);
    assert_eq!(round_col(88), 1);
    assert_eq!(round_col(89), 2);
    assert_eq!(round_col(96), 2);
    assert_eq!(round_col(97), 3);
    assert_eq!(round_col(100), 3);
    assert_eq!(round_col(101), 4);
    assert_eq!(round_col(102), 4);
    assert_eq!(round_col(104), 5);
    assert_eq!(round_col(1), 5);
}

#[test]
fn modal_takes_the_last_largest_count() {
    assert_eq!(modal(&[]), None);
    assert_eq!(modal(&[0, 0, 0]), None);
    assert_eq!(modal(&[1, 5, 2]), Some((1, 5)));
    assert_eq!(modal(&[5, 1, 5, 0]), Some((2, 5)));
    let v = [3u64, 9, 9, 1];
    assert_eq!(modal(&v), v.iter().enumerate().max_by_key(|(_, &c)| c).map(|(i, &c)| (i, c)));
}

#[test]
fn flags() {
    assert_eq!(flag("MEX"), "🇲🇽");
    assert_eq!(flag("GER"), "🇩🇪");
    assert_eq!(flag("USA"), "🇺🇸");
    assert_eq!(flag("ENG"), "🏴\u{E0067}\u{E0062}\u{E0065}\u{E006E}\u{E0067}\u{E007F}");
    assert_eq!(flag("SCO"), "🏴\u{E0067}\u{E0062}\u{E0073}\u{E0063}\u{E0074}\u{E007F}");
    assert_eq!(flag("XYZ"), "🏳️");
    assert_eq!(flag(""), "🏳️");
    assert_eq!(flag("MEXI"), "🏳️");
}

#[test]
fn a_partial_group_table() {
    let d = data_with(vec![res("A:1v2", 3, 1), res("A:3v4", 2, 2), res("A:1v3", 0, 1)]);
    let rows = current_table(&d, 'A');
    let t = |team, pld, w, dr, l, gd, pts| TableRow { team, pld, w, d: dr, l, gd, pts };
    let a = d.group_teams('A');
    assert_eq!(rows[0], t(a[0], 2, 1, 0, 1, 1, 3));
    assert_eq!(rows[1], t(a[1], 1, 0, 0, 1, -2, 0));
    assert_eq!(rows[2], t(a[2], 2, 1, 1, 0, 1, 4));
    assert_eq!(rows[3], t(a[3], 1, 0, 1, 0, 0, 1));
    let empty = current_table(&d, 'B');
    assert!(empty.iter().all(|r| r.pld == 0 && r.pts == 0 && r.gd == 0));
}

#[test]
fn card_order_by_table_or_by_chances() {
    let d = data_with(vec![res("A:1v2", 3, 1), res("A:3v4", 2, 2), res("A:1v3", 0, 1)]);
    let rows = current_table(&d, 'A');
    assert_eq!(card_order(&rows, &vec![0, 0, 0, 0]), vec![2, 0, 3, 1]);
    let fresh = current_table(&d, 'B');
    assert_eq!(card_order(&fresh, &vec![5, 9, 5, 1]), vec![1, 0, 2, 3]);
}

#[test]
fn counts_ordered_descending_then_by_index() {
    assert_eq!(count_order(&[3, 7, 3, 0], &[0, 0, 0, 0]), vec![1, 0, 2, 3]);
    assert_eq!(count_order(&[3, 7, 3, 0], &[1, 0, 2, 9]), vec![1, 2, 0, 3]);
    assert_eq!(count_order(&[], &[]), Vec::<usize>::new());
}

#[test]
fn knockouts_start_after_the_groups_or_with_a_knockout_result() {
    assert!(!ko_started(&data_with(vec![])));
    let mut all = Vec::new();
    for g in "ABCDEFGHIJKL".chars() {
        for &(h, a) in GROUP_FIXTURES.iter() {
            all.push(res(&group_match_id(g, h, a), 0, 0));
        }
    }
    let partial: Vec<Result> = all.iter().take(71).map(|r| res(&r.match_id, 0, 0)).collect();
    assert!(!ko_started(&data_with(partial)));
    assert!(ko_started(&data_with(all)));
    assert!(ko_started(&data_with(vec![res("M73", 1, 0)])));
    assert!(ko_started(&data_with(vec![res("Mystery", 1, 0)])));
}

#[test]
fn counts_beyond_the_signed_range_keep_their_order() {
    let big = u64::MAX;
    assert_eq!(count_order(&[1, big, big - 1, 0], &[0, 0, 0, 0]), vec![1, 2, 0, 3]);
    assert_eq!(count_order(&[5, 5], &[big, 1 << 63]), vec![0, 1]);
}

fn played(home: u32, away: u32, decided: Option<&str>) -> Result {
    Result { match_id: "M90".to_string(), home, away, winner: None, decided: decided.map(|d| d.to_string()) }
}

#[test]
fn result_labels_tell_how_a_match_was_decided() {
    assert_eq!(result_label(&played(2, 1, None)), "2\u{2013}1");
    assert_eq!(result_label(&played(1, 1, Some("aet"))), "1\u{2013}1 a.e.t.");
    assert_eq!(result_label(&played(0, 0, Some("pens"))), "0\u{2013}0 pens");
    assert_eq!(result_label(&played(10, 3, Some("other"))), "10\u{2013}3");
}
