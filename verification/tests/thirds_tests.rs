use wm2026::bracket::third_slots;
use wm2026::sim::{match_thirds, slot_thirds};

fn check_valid(thirds: &[char], slots: &[(u32, Vec<char>)], got: &[(u32, char)]) {
    assert_eq!(got.len(), slots.len());
    let mut used: Vec<char> = Vec::new();
    for (k, (id, g)) in got.iter().enumerate() {
        assert_eq!(*id, slots[k].0);
        assert!(slots[k].1.contains(g));
        assert!(thirds.contains(g));
        assert!(!used.contains(g));
        used.push(*g);
    }
}

#[test]
fn every_set_of_eight_thirds_can_be_slotted() {
    let letters: Vec<char> = "ABCDEFGHIJKL".chars().collect();
    let slots = third_slots();
    let mut n = 0;
    for mask in 0u32..(1 << 12) {
        if mask.count_ones() != 8 {
            continue;
        }
        let thirds: Vec<char> = (0..12).filter(|i| mask & (1 << i) != 0).map(|i| letters[i]).collect();
        let got = match_thirds(&thirds, &slots).expect("assignable");
        check_valid(&thirds, &slots, &got);
        n += 1;
    }
    assert_eq!(n, 495);
}

#[test]
fn the_first_assignment_in_search_order() {
    let slots = vec![(1u32, vec!['A', 'B']), (2u32, vec!['A'])];
    let got = match_thirds(&['A', 'B'], &slots).unwrap();
    assert_eq!(got, vec![(1, 'B'), (2, 'A')]);
    let slots = vec![(1u32, vec!['A', 'B']), (2u32, vec!['A', 'B'])];
    assert_eq!(match_thirds(&['B', 'A'], &slots).unwrap(), vec![(1, 'B'), (2, 'A')]);
    assert_eq!(match_thirds(&['A', 'B'], &slots).unwrap(), vec![(1, 'A'), (2, 'B')]);
}

#[test]
fn no_assignment_gives_none() {
    let slots = vec![(1u32, vec!['A']), (2u32, vec!['A'])];
    assert_eq!(match_thirds(&['A', 'B'], &slots), None);
    let slots = vec![(1u32, vec!['C'])];
    assert_eq!(match_thirds(&['A', 'B'], &slots), None);
    assert_eq!(match_thirds(&[], &slots), None);
}

#[test]
fn no_slots_need_no_thirds() {
    assert_eq!(match_thirds(&['A'], &[]), Some(vec![]));
}

#[test]
fn known_real_order_slotting() {
    let slots = third_slots();
    let thirds = ['A', 'B', 'C', 'D', 'E', 'F', 'G', 'H'];
    let got = match_thirds(&thirds, &slots).unwrap();
    check_valid(&thirds, &slots, &got);
    assert_eq!(got[0], (74, 'A'));
}

#[test]
fn slotting_depends_only_on_the_qualified_groups() {
    let slots = third_slots();
    let a = slot_thirds(&['A', 'B', 'C', 'D', 'E', 'F', 'G', 'H']).unwrap();
    let b = slot_thirds(&['B', 'A', 'C', 'D', 'E', 'F', 'G', 'H']).unwrap();
    let c = slot_thirds(&['H', 'G', 'F', 'E', 'D', 'C', 'B', 'A']).unwrap();
    assert_eq!(a, b);
    assert_eq!(a, c);
    assert_eq!(a[0], (74, 'A'));
    check_valid(&['A', 'B', 'C', 'D', 'E', 'F', 'G', 'H'], &slots, &a);
    // The groups are tried alphabetically, whatever order they are given in.
    assert_eq!(a, match_thirds(&['A', 'B', 'C', 'D', 'E', 'F', 'G', 'H'], &slots).unwrap());
    let d = slot_thirds(&['L', 'E', 'J', 'C', 'I', 'D', 'F', 'H']).unwrap();
    assert_eq!(d, match_thirds(&['C', 'D', 'E', 'F', 'H', 'I', 'J', 'L'], &slots).unwrap());
    check_valid(&['C', 'D', 'E', 'F', 'H', 'I', 'J', 'L'], &slots, &d);
}

#[test]
fn every_set_is_slotted_the_same_in_any_order() {
    let letters: Vec<char> = "ABCDEFGHIJKL".chars().collect();
    let slots = third_slots();
    for mask in 0u32..(1 << 12) {
        if mask.count_ones() != 8 {
            continue;
        }
        let thirds: Vec<char> = (0..12).filter(|g| mask & (1 << g) != 0).map(|g| letters[g]).collect();
        let mut reversed = thirds.clone();
        reversed.reverse();
        let mut rotated = thirds.clone();
        rotated.rotate_left(3);
        let got = slot_thirds(&thirds).unwrap();
        assert_eq!(got, slot_thirds(&reversed).unwrap());
        assert_eq!(got, slot_thirds(&rotated).unwrap());
        check_valid(&thirds, &slots, &got);
    }
}
