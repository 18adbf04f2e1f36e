use vstd::prelude::*;
use crate::text::{decimal, push_char, push_decimal};

verus! {

/// The twelve group letters, in order.
pub const GROUPS: [char; 12] = ['A', 'B', 'C', 'D', 'E', 'F', 'G', 'H', 'I', 'J', 'K', 'L'];

/// The letter of the group with index `g` (0 = 'A').
pub open spec fn group_letter(g: int) -> char {
    (65 + g) as char
}

/// `c` is one of the twelve group letters.
pub open spec fn is_group(c: char) -> bool {
    'A' <= c <= 'L'
}

/// All twelve group letters, in order.
pub fn all_groups() -> (r: [char; 12])
    ensures
        forall|g: int| 0 <= g < 12 ==> #[trigger] r[g] == group_letter(g),
{
    let r = GROUPS;
    assert(r[0] == 'A' && r[1] == 'B' && r[2] == 'C' && r[3] == 'D' && r[4] == 'E' && r[5] == 'F');
    assert(r[6] == 'G' && r[7] == 'H' && r[8] == 'I' && r[9] == 'J' && r[10] == 'K' && r[11] == 'L');
    r
}

/// Order in which the six matches of a four-team group are played (home position, away
/// position, both 1-based), two per matchday.
pub const GROUP_FIXTURES: [(usize, usize); 6] = [(1, 2), (3, 4), (1, 3), (4, 2), (4, 1), (2, 3)];

/// Fixture `k` of a group: (home position, away position), 1-based.
pub open spec fn group_fixture(k: int) -> (int, int) {
    if k == 0 {
        (1, 2)
    } else if k == 1 {
        (3, 4)
    } else if k == 2 {
        (1, 3)
    } else if k == 3 {
        (4, 2)
    } else if k == 4 {
        (4, 1)
    } else {
        (2, 3)
    }
}

/// Fixture `k` of a group as (home, away) draw positions, 1-based.
pub fn fixture(k: usize) -> (r: (usize, usize))
    requires
        k < 6,
    ensures
        r.0 == group_fixture(k as int).0,
        r.1 == group_fixture(k as int).1,
        r == GROUP_FIXTURES[k as int],
{
    let f = GROUP_FIXTURES;
    assert(f[0] == (1usize, 2usize) && f[1] == (3usize, 4usize) && f[2] == (1usize, 3usize));
    assert(f[3] == (4usize, 2usize) && f[4] == (4usize, 1usize) && f[5] == (2usize, 3usize));
    f[k]
}

/// Draw position `p` (1-based) plays in fixture `k`.
pub open spec fn fixture_has(k: int, p: int) -> bool {
    group_fixture(k).0 == p || group_fixture(k).1 == p
}

/// The six fixtures form a round robin of the four draw positions: each fixture pairs two
/// different positions, no two fixtures pair the same two, and on each matchday (fixtures
/// `2m` and `2m + 1`) every position plays exactly once.
pub proof fn lemma_fixtures_round_robin()
    ensures
        forall|k: int|
            0 <= k < 6 ==> 1 <= #[trigger] group_fixture(k).0 <= 4 && 1 <= group_fixture(k).1 <= 4
                && group_fixture(k).0 != group_fixture(k).1,
        forall|k1: int, k2: int|
            0 <= k1 < k2 < 6 ==> !(#[trigger] fixture_has(k1, group_fixture(k2).0) && #[trigger] fixture_has(
                k1,
                group_fixture(k2).1,
            )),
        forall|m: int, p: int| 0 <= m < 3 && 1 <= p <= 4 ==> #[trigger] fixture_has(2 * m, p) != fixture_has(2 * m + 1, p),
{
}

/// The match id of a group fixture: "<group>:<home pos>v<away pos>".
pub open spec fn group_match_id_spec(group: char, home_pos: nat, away_pos: nat) -> Seq<char> {
    seq![group, ':'] + decimal(home_pos) + seq!['v'] + decimal(away_pos)
}

/// The match id of a knockout match: "M<number>".
pub open spec fn ko_match_id_spec(id: nat) -> Seq<char> {
    seq!['M'] + decimal(id)
}

/// The match id of a group fixture, such as "A:1v2".
pub fn group_match_id(group: char, home_pos: usize, away_pos: usize) -> (r: String)
    ensures
        r@ == group_match_id_spec(group, home_pos as nat, away_pos as nat),
{
    let mut s = String::new();
    push_char(&mut s, group);
    push_char(&mut s, ':');
    push_decimal(&mut s, home_pos as u64);
    push_char(&mut s, 'v');
    push_decimal(&mut s, away_pos as u64);
    assert(s@ =~= group_match_id_spec(group, home_pos as nat, away_pos as nat));
    s
}

/// The match id of a knockout match, such as "M73".
pub fn ko_match_id(id: u32) -> (r: String)
    ensures
        r@ == ko_match_id_spec(id as nat),
{
    let mut s = String::new();
    push_char(&mut s, 'M');
    push_decimal(&mut s, id as u64);
    assert(s@ =~= ko_match_id_spec(id as nat));
    s
}

/// What feeds one side of a knockout match.
#[derive(Clone, Copy, Debug, PartialEq, Eq, Structural)]
pub enum Source {
    /// The winner of a group.
    Winner(char),
    /// The runner-up of a group.
    RunnerUp(char),
    /// One of the eight best third-placed teams; which group feeds which slot depends only on
    /// which eight groups qualified, and is set by `third_slots` and `slot_thirds`.
    Third,
    /// The winner of an earlier knockout match.
    MatchWinner(u32),
}

/// Knockout round.
#[derive(Clone, Copy, Debug, PartialEq, Eq, Structural)]
pub enum Round {
    R32,
    R16,
    Qf,
    Sf,
    Final,
}

/// One knockout match: its number, its round and what feeds its two sides.
#[derive(Clone, Copy, Debug, PartialEq, Eq, Structural)]
pub struct KoMatch {
    pub id: u32,
    pub round: Round,
    pub a: Source,
    pub b: Source,
}

/// The 2026 knockout bracket, matches 73 to 104 in playing order (the third-place play-off,
/// match 103, is not part of it).
pub open spec fn knockout_spec() -> Seq<KoMatch> {
    seq![
        KoMatch { id: 73, round: Round::R32, a: Source::RunnerUp('A'), b: Source::RunnerUp('B') },
        KoMatch { id: 74, round: Round::R32, a: Source::Winner('E'), b: Source::Third },
        KoMatch { id: 75, round: Round::R32, a: Source::Winner('F'), b: Source::RunnerUp('C') },
        KoMatch { id: 76, round: Round::R32, a: Source::Winner('C'), b: Source::RunnerUp('F') },
        KoMatch { id: 77, round: Round::R32, a: Source::Winner('I'), b: Source::Third },
        KoMatch { id: 78, round: Round::R32, a: Source::RunnerUp('E'), b: Source::RunnerUp('I') },
        KoMatch { id: 79, round: Round::R32, a: Source::Winner('A'), b: Source::Third },
        KoMatch { id: 80, round: Round::R32, a: Source::Winner('L'), b: Source::Third },
        KoMatch { id: 81, round: Round::R32, a: Source::Winner('D'), b: Source::Third },
        KoMatch { id: 82, round: Round::R32, a: Source::Winner('G'), b: Source::Third },
        KoMatch { id: 83, round: Round::R32, a: Source::RunnerUp('K'), b: Source::RunnerUp('L') },
        KoMatch { id: 84, round: Round::R32, a: Source::Winner('H'), b: Source::RunnerUp('J') },
        KoMatch { id: 85, round: Round::R32, a: Source::Winner('B'), b: Source::Third },
        KoMatch { id: 86, round: Round::R32, a: Source::Winner('J'), b: Source::RunnerUp('H') },
        KoMatch { id: 87, round: Round::R32, a: Source::Winner('K'), b: Source::Third },
        KoMatch { id: 88, round: Round::R32, a: Source::RunnerUp('D'), b: Source::RunnerUp('G') },
        KoMatch { id: 89, round: Round::R16, a: Source::MatchWinner(74), b: Source::MatchWinner(77) },
        KoMatch { id: 90, round: Round::R16, a: Source::MatchWinner(73), b: Source::MatchWinner(75) },
        KoMatch { id: 91, round: Round::R16, a: Source::MatchWinner(76), b: Source::MatchWinner(78) },
        KoMatch { id: 92, round: Round::R16, a: Source::MatchWinner(79), b: Source::MatchWinner(80) },
        KoMatch { id: 93, round: Round::R16, a: Source::MatchWinner(83), b: Source::MatchWinner(84) },
        KoMatch { id: 94, round: Round::R16, a: Source::MatchWinner(81), b: Source::MatchWinner(82) },
        KoMatch { id: 95, round: Round::R16, a: Source::MatchWinner(86), b: Source::MatchWinner(88) },
        KoMatch { id: 96, round: Round::R16, a: Source::MatchWinner(85), b: Source::MatchWinner(87) },
        KoMatch { id: 97, round: Round::Qf, a: Source::MatchWinner(89), b: Source::MatchWinner(90) },
        KoMatch { id: 98, round: Round::Qf, a: Source::MatchWinner(93), b: Source::MatchWinner(94) },
        KoMatch { id: 99, round: Round::Qf, a: Source::MatchWinner(91), b: Source::MatchWinner(92) },
        KoMatch { id: 100, round: Round::Qf, a: Source::MatchWinner(95), b: Source::MatchWinner(96) },
        KoMatch { id: 101, round: Round::Sf, a: Source::MatchWinner(97), b: Source::MatchWinner(98) },
        KoMatch { id: 102, round: Round::Sf, a: Source::MatchWinner(99), b: Source::MatchWinner(100) },
        KoMatch { id: 104, round: Round::Final, a: Source::MatchWinner(101), b: Source::MatchWinner(102) }
    ]
}

/// The full 2026 knockout bracket (matches 73-104, third-place play-off M103 omitted).
pub fn knockout() -> (v: Vec<KoMatch>)
    ensures
        v@ == knockout_spec(),
{
    let mut v: Vec<KoMatch> = Vec::new();
    v.push(KoMatch { id: 73, round: Round::R32, a: Source::RunnerUp('A'), b: Source::RunnerUp('B') });
    v.push(KoMatch { id: 74, round: Round::R32, a: Source::Winner('E'), b: Source::Third });
    v.push(KoMatch { id: 75, round: Round::R32, a: Source::Winner('F'), b: Source::RunnerUp('C') });
    v.push(KoMatch { id: 76, round: Round::R32, a: Source::Winner('C'), b: Source::RunnerUp('F') });
    v.push(KoMatch { id: 77, round: Round::R32, a: Source::Winner('I'), b: Source::Third });
    v.push(KoMatch { id: 78, round: Round::R32, a: Source::RunnerUp('E'), b: Source::RunnerUp('I') });
    v.push(KoMatch { id: 79, round: Round::R32, a: Source::Winner('A'), b: Source::Third });
    v.push(KoMatch { id: 80, round: Round::R32, a: Source::Winner('L'), b: Source::Third });
    v.push(KoMatch { id: 81, round: Round::R32, a: Source::Winner('D'), b: Source::Third });
    v.push(KoMatch { id: 82, round: Round::R32, a: Source::Winner('G'), b: Source::Third });
    v.push(KoMatch { id: 83, round: Round::R32, a: Source::RunnerUp('K'), b: Source::RunnerUp('L') });
    v.push(KoMatch { id: 84, round: Round::R32, a: Source::Winner('H'), b: Source::RunnerUp('J') });
    v.push(KoMatch { id: 85, round: Round::R32, a: Source::Winner('B'), b: Source::Third });
    v.push(KoMatch { id: 86, round: Round::R32, a: Source::Winner('J'), b: Source::RunnerUp('H') });
    v.push(KoMatch { id: 87, round: Round::R32, a: Source::Winner('K'), b: Source::Third });
    v.push(KoMatch { id: 88, round: Round::R32, a: Source::RunnerUp('D'), b: Source::RunnerUp('G') });
    v.push(KoMatch { id: 89, round: Round::R16, a: Source::MatchWinner(74), b: Source::MatchWinner(77) });
    v.push(KoMatch { id: 90, round: Round::R16, a: Source::MatchWinner(73), b: Source::MatchWinner(75) });
    v.push(KoMatch { id: 91, round: Round::R16, a: Source::MatchWinner(76), b: Source::MatchWinner(78) });
    v.push(KoMatch { id: 92, round: Round::R16, a: Source::MatchWinner(79), b: Source::MatchWinner(80) });
    v.push(KoMatch { id: 93, round: Round::R16, a: Source::MatchWinner(83), b: Source::MatchWinner(84) });
    v.push(KoMatch { id: 94, round: Round::R16, a: Source::MatchWinner(81), b: Source::MatchWinner(82) });
    v.push(KoMatch { id: 95, round: Round::R16, a: Source::MatchWinner(86), b: Source::MatchWinner(88) });
    v.push(KoMatch { id: 96, round: Round::R16, a: Source::MatchWinner(85), b: Source::MatchWinner(87) });
    v.push(KoMatch { id: 97, round: Round::Qf, a: Source::MatchWinner(89), b: Source::MatchWinner(90) });
    v.push(KoMatch { id: 98, round: Round::Qf, a: Source::MatchWinner(93), b: Source::MatchWinner(94) });
    v.push(KoMatch { id: 99, round: Round::Qf, a: Source::MatchWinner(91), b: Source::MatchWinner(92) });
    v.push(KoMatch { id: 100, round: Round::Qf, a: Source::MatchWinner(95), b: Source::MatchWinner(96) });
    v.push(KoMatch { id: 101, round: Round::Sf, a: Source::MatchWinner(97), b: Source::MatchWinner(98) });
    v.push(KoMatch { id: 102, round: Round::Sf, a: Source::MatchWinner(99), b: Source::MatchWinner(100) });
    v.push(KoMatch { id: 104, round: Round::Final, a: Source::MatchWinner(101), b: Source::MatchWinner(102) });
    assert(v@ =~= knockout_spec());
    v
}

/// The slots as plain values: (match number, accepted group letters).
pub open spec fn slots_view(slots: Seq<(u32, Vec<char>)>) -> Seq<(u32, Seq<char>)> {
    slots.map_values(|p: (u32, Vec<char>)| (p.0, p.1@))
}

/// The eight round-of-32 slots that take a third-placed team, with the groups whose third
/// each slot may take.
pub open spec fn third_slots_spec() -> Seq<(u32, Seq<char>)> {
    seq![
        (74u32, seq!['A', 'B', 'C', 'D', 'F']),
        (77u32, seq!['C', 'D', 'F', 'G', 'H']),
        (79u32, seq!['C', 'E', 'F', 'H', 'I']),
        (80u32, seq!['E', 'H', 'I', 'J', 'K']),
        (81u32, seq!['B', 'E', 'F', 'I', 'J']),
        (82u32, seq!['A', 'E', 'H', 'I', 'J']),
        (85u32, seq!['E', 'F', 'G', 'I', 'J']),
        (87u32, seq!['D', 'E', 'I', 'J', 'L'])
    ]
}

/// The round-of-32 slots that take a third-placed team: (match number, groups whose third
/// may be placed there).
pub fn third_slots() -> (v: Vec<(u32, Vec<char>)>)
    ensures
        slots_view(v@) == third_slots_spec(),
        v@.len() == third_slots_spec().len(),
        forall|i: int| 0 <= i < v@.len() ==> #[trigger] v@[i].0 == third_slots_spec()[i].0
            && v@[i].1@ == third_slots_spec()[i].1,
{
    let mut v: Vec<(u32, Vec<char>)> = Vec::new();
    v.push((74, vec!['A', 'B', 'C', 'D', 'F']));
    v.push((77, vec!['C', 'D', 'F', 'G', 'H']));
    v.push((79, vec!['C', 'E', 'F', 'H', 'I']));
    v.push((80, vec!['E', 'H', 'I', 'J', 'K']));
    v.push((81, vec!['B', 'E', 'F', 'I', 'J']));
    v.push((82, vec!['A', 'E', 'H', 'I', 'J']));
    v.push((85, vec!['E', 'F', 'G', 'I', 'J']));
    v.push((87, vec!['D', 'E', 'I', 'J', 'L']));
    assert(slots_view(v@) =~= third_slots_spec());
    v
}

/// Position in the bracket of knockout match number `id` (73..=102 and 104).
pub open spec fn ko_index(id: u32) -> int {
    if id == 104 {
        30
    } else {
        id as int - 73
    }
}

/// Round by bracket position: 16 matches in the round of 32, then 8, 4, 2 and the final.
pub open spec fn round_at(i: int) -> Round {
    if i < 16 {
        Round::R32
    } else if i < 24 {
        Round::R16
    } else if i < 28 {
        Round::Qf
    } else if i < 30 {
        Round::Sf
    } else {
        Round::Final
    }
}

/// A side of a knockout match that the bracket allows at position `i`: in the round of 32 a
/// group winner, runner-up or third; later the winner of an earlier match.
pub open spec fn side_ok(src: Source, i: int) -> bool {
    match src {
        Source::Winner(g) => i < 16 && is_group(g),
        Source::RunnerUp(g) => i < 16 && is_group(g),
        Source::Third => i < 16,
        Source::MatchWinner(n) => 16 <= i && 0 <= ko_index(n) < i && knockout_spec()[ko_index(n)].id == n,
    }
}

/// The third-place slot list names match `id`.
pub open spec fn is_third_slot(id: u32) -> bool {
    exists|k: int| 0 <= k < 8 && #[trigger] third_slots_spec()[k].0 == id
}

/// The bracket is well formed: 31 matches; positions number them in order; match `i` is in
/// round `round_at(i)`; each side is allowed at its position; round-of-32 slots that take a
/// third are exactly the slots of the third-place table.
pub proof fn lemma_bracket_shape()
    ensures
        knockout_spec().len() == 31,
        third_slots_spec().len() == 8,
        forall|i: int| 0 <= i < 31 ==> ko_index(#[trigger] knockout_spec()[i].id) == i,
        forall|i: int| 0 <= i < 31 ==> (#[trigger] knockout_spec()[i]).round == round_at(i),
        forall|i: int| 0 <= i < 31 ==> side_ok((#[trigger] knockout_spec()[i]).a, i),
        forall|i: int| 0 <= i < 31 ==> side_ok((#[trigger] knockout_spec()[i]).b, i),
        forall|i: int| 0 <= i < 31 && (#[trigger] knockout_spec()[i]).a == Source::Third ==> is_third_slot(knockout_spec()[i].id),
        forall|i: int| 0 <= i < 31 && (#[trigger] knockout_spec()[i]).b == Source::Third ==> is_third_slot(knockout_spec()[i].id),
        forall|i: int| 0 <= i < 31 ==> (#[trigger] knockout_spec()[i]).a != Source::Third,
{
    let ko = knockout_spec();
    let ts = third_slots_spec();
    assert forall|i: int| 0 <= i < 31 implies ko_index(#[trigger] ko[i].id) == i && ko[i].round == round_at(i)
        && side_ok(ko[i].a, i) && side_ok(ko[i].b, i) && ko[i].a != Source::Third by {
        if i == 0 {} else if i == 1 {} else if i == 2 {} else if i == 3 {} else if i == 4 {} else if i == 5 {} else if i == 6 {} else if i == 7 {} else if i == 8 {} else if i == 9 {} else if i == 10 {} else if i == 11 {} else if i == 12 {} else if i == 13 {} else if i == 14 {} else if i == 15 {} else if i == 16 {} else if i == 17 {} else if i == 18 {} else if i == 19 {} else if i == 20 {} else if i == 21 {} else if i == 22 {} else if i == 23 {} else if i == 24 {} else if i == 25 {} else if i == 26 {} else if i == 27 {} else if i == 28 {} else if i == 29 {} else if i == 30 {}
    }
    assert forall|i: int| 0 <= i < 31 && (#[trigger] ko[i]).b == Source::Third implies is_third_slot(ko[i].id) by {
        if i == 1 {
            assert(ts[0].0 == ko[i].id);
        } else if i == 4 {
            assert(ts[1].0 == ko[i].id);
        } else if i == 6 {
            assert(ts[2].0 == ko[i].id);
        } else if i == 7 {
            assert(ts[3].0 == ko[i].id);
        } else if i == 8 {
            assert(ts[4].0 == ko[i].id);
        } else if i == 9 {
            assert(ts[5].0 == ko[i].id);
        } else if i == 12 {
            assert(ts[6].0 == ko[i].id);
        } else if i == 14 {
            assert(ts[7].0 == ko[i].id);
        } else {
            if i == 0 {} else if i == 1 {} else if i == 2 {} else if i == 3 {} else if i == 4 {} else if i == 5 {} else if i == 6 {} else if i == 7 {} else if i == 8 {} else if i == 9 {} else if i == 10 {} else if i == 11 {} else if i == 12 {} else if i == 13 {} else if i == 14 {} else if i == 15 {} else if i == 16 {} else if i == 17 {} else if i == 18 {} else if i == 19 {} else if i == 20 {} else if i == 21 {} else if i == 22 {} else if i == 23 {} else if i == 24 {} else if i == 25 {} else if i == 26 {} else if i == 27 {} else if i == 28 {} else if i == 29 {} else if i == 30 {}
        }
    }
}

} // verus!
