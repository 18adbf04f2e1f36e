use wm2026::bracket::{
    all_groups, fixture, group_match_id, knockout, ko_match_id, third_slots, Round, Source,
    GROUP_FIXTURES,
};

#[test]
fn group_match_ids_follow_the_format() {
    assert_eq!(group_match_id('A', 1, 2), "A:1v2");
    assert_eq!(group_match_id('L', 4, 1), "L:4v1");
    assert_eq!(group_match_id('C', 10, 3), "C:10v3");
}

#[test]
fn knockout_match_ids_follow_the_format() {
    assert_eq!(ko_match_id(73), "M73");
    assert_eq!(ko_match_id(104), "M104");
    assert_eq!(ko_match_id(0), "M0");
}

#[test]
fn all_twelve_groups_in_order() {
    let g = all_groups();
    assert_eq!(g.iter().collect::<String>(), "ABCDEFGHIJKL");
}

#[test]
fn fixtures_are_played_in_matchday_order() {
    let expected = [(1, 2), (3, 4), (1, 3), (4, 2), (4, 1), (2, 3)];
    for k in 0..6 {
        assert_eq!(fixture(k), expected[k]);
        assert_eq!(GROUP_FIXTURES[k], expected[k]);
    }
}

#[test]
fn fixtures_form_a_round_robin() {
    let mut pairs = Vec::new();
    for k in 0..6 {
        let (h, a) = fixture(k);
        assert_ne!(h, a);
        pairs.push(if h < a { (h, a) } else { (a, h) });
    }
    pairs.sort();
    pairs.dedup();
    assert_eq!(pairs.len(), 6);
    for md in 0..3 {
        let (a, b) = fixture(2 * md);
        let (c, d) = fixture(2 * md + 1);
        let mut all = vec![a, b, c, d];
        all.sort();
        assert_eq!(all, vec![1, 2, 3, 4]);
    }
}

#[test]
fn knockout_bracket_shape() {
    let ko = knockout();
    assert_eq!(ko.len(), 31);
    let ids: Vec<u32> = ko.iter().map(|m| m.id).collect();
    let mut expected: Vec<u32> = (73..=102).collect();
    expected.push(104);
    assert_eq!(ids, expected);
    assert_eq!(ko.iter().filter(|m| m.round == Round::R32).count(), 16);
    assert_eq!(ko.iter().filter(|m| m.round == Round::R16).count(), 8);
    assert_eq!(ko.iter().filter(|m| m.round == Round::Qf).count(), 4);
    assert_eq!(ko.iter().filter(|m| m.round == Round::Sf).count(), 2);
    assert_eq!(ko.iter().filter(|m| m.round == Round::Final).count(), 1);
    let fin = ko[30];
    assert_eq!(fin.a, Source::MatchWinner(101));
    assert_eq!(fin.b, Source::MatchWinner(102));
    assert_eq!(ko[0].a, Source::RunnerUp('A'));
    assert_eq!(ko[1].b, Source::Third);
}

#[test]
fn every_later_side_is_an_earlier_winner() {
    let ko = knockout();
    for (i, m) in ko.iter().enumerate() {
        for s in [m.a, m.b] {
            match s {
                Source::MatchWinner(n) => {
                    assert!(i >= 16);
                    let j = ko.iter().position(|k| k.id == n).unwrap();
                    assert!(j < i);
                }
                _ => assert!(i < 16),
            }
        }
    }
}

#[test]
fn third_slots_match_the_bracket() {
    let slots = third_slots();
    assert_eq!(slots.len(), 8);
    let ko = knockout();
    let third_ids: Vec<u32> = ko.iter().filter(|m| m.b == Source::Third).map(|m| m.id).collect();
    let slot_ids: Vec<u32> = slots.iter().map(|s| s.0).collect();
    assert_eq!(third_ids, slot_ids);
    assert_eq!(slots[0], (74, vec!['A', 'B', 'C', 'D', 'F']));
    assert_eq!(slots[7], (87, vec!['D', 'E', 'I', 'J', 'L']));
}
