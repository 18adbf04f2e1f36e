use vstd::prelude::*;
use std::collections::HashMap;
use crate::bracket::{knockout, knockout_spec, ko_index, lemma_bracket_shape, KoMatch, Round, Source};
use crate::sim::{kid, lemma_kid_values};
use crate::model::{group_score_spec, Data};
use crate::bracket::{fixture, group_fixture, is_group};
use crate::standings::{points, rank, ranking, RankKey};
use crate::history::group_played;
use crate::text::{decimal, push_char, push_decimal, str_equal};

verus! {

/// What feeds one side of a match in the drawn bracket: an earlier match, or side A / side B
/// of a round-of-32 match.
#[derive(Clone, Copy, Debug, PartialEq, Eq, Structural)]
pub enum Child {
    Match(u32),
    LeafA(u32),
    LeafB(u32),
}

/// The child drawn for a side fed by the winner of an earlier match.
pub open spec fn feeder(s: Source) -> Child {
    match s {
        Source::MatchWinner(n) => Child::Match(n),
        _ => Child::Match(0),
    }
}

/// The two children of a knockout match: its two participants in the round of 32, else
/// the two matches that feed it.
pub open spec fn children_of(km: KoMatch) -> (Child, Child) {
    if km.round == Round::R32 {
        (Child::LeafA(km.id), Child::LeafB(km.id))
    } else {
        (feeder(km.a), feeder(km.b))
    }
}

/// `id` numbers a match of the bracket.
pub open spec fn is_ko_id(id: u32) -> bool {
    0 <= ko_index(id) < 31 && kid(ko_index(id)) == id
}

/// The children map of the bracket: every bracket match, and nothing else, with its children.
pub open spec fn is_children_map(m: Map<u32, (Child, Child)>) -> bool {
    &&& forall|id: u32| #[trigger] m.contains_key(id) <==> is_ko_id(id)
    &&& forall|j: int| 0 <= j < 31 ==> #[trigger] m[kid(j)] == children_of(knockout_spec()[j])
}

/// For each knockout match, what feeds its two sides.
pub fn bracket_children() -> (ch: HashMap<u32, (Child, Child)>)
    ensures
        is_children_map(ch@),
        feeds_down(ch@),
        ch@.len() == 31,
{
    broadcast use vstd::std_specs::hash::group_hash_axioms;

    proof {
        lemma_bracket_shape();
    }
    let ko = knockout();
    let mut ch: HashMap<u32, (Child, Child)> = HashMap::new();
    let mut i: usize = 0;
    while i < ko.len()
        invariant
            i <= 31,
            ko@ == knockout_spec(),
            ko@.len() == 31,
            forall|j: int| 0 <= j < 31 ==> ko_index(#[trigger] kid(j)) == j,
            forall|j: int| 0 <= j < 31 ==> (#[trigger] knockout_spec()[j]).round == crate::bracket::round_at(j),
            forall|id: u32| #[trigger] ch@.contains_key(id) <==> (is_ko_id(id) && ko_index(id) < i),
            forall|j: int| 0 <= j < i ==> #[trigger] ch@[kid(j)] == children_of(knockout_spec()[j]),
        decreases 31 - i,
    {
        let km = ko[i];
        let entry = if km.round == Round::R32 {
            (Child::LeafA(km.id), Child::LeafB(km.id))
        } else {
            let a = match km.a {
                Source::MatchWinner(n) => Child::Match(n),
                _ => Child::Match(0),
            };
            let b = match km.b {
                Source::MatchWinner(n) => Child::Match(n),
                _ => Child::Match(0),
            };
            (a, b)
        };
        ch.insert(km.id, entry);
        proof {
            assert(kid(i as int) == km.id);
            assert forall|id: u32| #[trigger] ch@.contains_key(id) <==> (is_ko_id(id) && ko_index(id) < i + 1) by {
                if id == km.id {
                    assert(is_ko_id(id));
                }
            }
            assert forall|j: int| 0 <= j < i + 1 implies #[trigger] ch@[kid(j)] == children_of(knockout_spec()[j]) by {
                if j < i {
                    assert(kid(j) != kid(i as int));
                }
            }
        }
        i = i + 1;
    }
    proof {
        lemma_children_leaves(ch@);
        lemma_kid_values();
        let ids = Seq::new(31, |j: int| kid(j));
        assert(ids.no_duplicates()) by {
            assert forall|a: int, b: int| 0 <= a < ids.len() && 0 <= b < ids.len() && a != b implies ids[a]
                != ids[b] by {
                assert(ko_index(kid(a)) == a && ko_index(kid(b)) == b);
            }
        }
        ids.unique_seq_to_set();
        assert(ch@.dom() =~= ids.to_set()) by {
            assert forall|id: u32| ch@.dom().contains(id) <==> ids.to_set().contains(id) by {
                if ch@.contains_key(id) {
                    assert(ids[ko_index(id)] == id);
                }
                if ids.to_set().contains(id) {
                    let j = choose|j: int| 0 <= j < ids.len() && ids[j] == id;
                    assert(ko_index(kid(j)) == j);
                }
            }
        }
    }
    ch
}

/// The round-of-32 sides under the match at bracket position `j`, top to bottom: (match
/// number, whether it is side B).
pub open spec fn leaves_at(j: int) -> Seq<(u32, bool)>
    decreases j,
{
    if j < 0 || j >= 31 {
        seq![]
    } else {
        let km = knockout_spec()[j];
        if km.round == Round::R32 {
            seq![(km.id, false), (km.id, true)]
        } else {
            let left = match km.a {
                Source::MatchWinner(n) => if 0 <= ko_index(n) < j {
                    leaves_at(ko_index(n))
                } else {
                    seq![]
                },
                _ => seq![],
            };
            let right = match km.b {
                Source::MatchWinner(n) => if 0 <= ko_index(n) < j {
                    leaves_at(ko_index(n))
                } else {
                    seq![]
                },
                _ => seq![],
            };
            left + right
        }
    }
}

/// Every match child in `m` names a match of `m` with a smaller number, so that following
/// feeders down always ends.
pub open spec fn feeds_down(m: Map<u32, (Child, Child)>) -> bool {
    forall|k: u32| #[trigger] m.contains_key(k) ==> child_ok(m, m[k].0, k) && child_ok(m, m[k].1, k)
}

/// A match child of match `k` names a match of `m` with a smaller number.
pub open spec fn child_ok(m: Map<u32, (Child, Child)>, c: Child, k: u32) -> bool {
    match c {
        Child::Match(x) => m.contains_key(x) && x < k,
        _ => true,
    }
}

/// The round-of-32 sides under match `id` of the children map `m`, top to bottom: (match
/// number, whether it is side B).
pub open spec fn leaves_of(m: Map<u32, (Child, Child)>, id: u32) -> Seq<(u32, bool)>
    decreases id,
{
    if !m.contains_key(id) {
        seq![]
    } else {
        let left = match m[id].0 {
            Child::Match(x) => if x < id {
                leaves_of(m, x)
            } else {
                seq![]
            },
            Child::LeafA(x) => seq![(x, false)],
            Child::LeafB(x) => seq![(x, true)],
        };
        let right = match m[id].1 {
            Child::Match(x) => if x < id {
                leaves_of(m, x)
            } else {
                seq![]
            },
            Child::LeafA(x) => seq![(x, false)],
            Child::LeafB(x) => seq![(x, true)],
        };
        left + right
    }
}

/// Appends, top to bottom, the round-of-32 sides under match `m`.
pub fn collect_leaves(m: u32, ch: &HashMap<u32, (Child, Child)>, out: &mut Vec<(u32, bool)>)
    requires
        feeds_down(ch@),
        ch@.contains_key(m),
    ensures
        final(out)@ == old(out)@ + leaves_of(ch@, m),
    decreases m,
{
    broadcast use vstd::std_specs::hash::group_hash_axioms;

    let (a, b) = *ch.get(&m).unwrap();
    assert(child_ok(ch@, a, m) && child_ok(ch@, b, m));
    let ghost o0 = out@;
    match a {
        Child::Match(x) => {
            collect_leaves(x, ch, out);
        },
        Child::LeafA(x) => {
            out.push((x, false));
        },
        Child::LeafB(x) => {
            out.push((x, true));
        },
    }
    match b {
        Child::Match(x) => {
            collect_leaves(x, ch, out);
        },
        Child::LeafA(x) => {
            out.push((x, false));
        },
        Child::LeafB(x) => {
            out.push((x, true));
        },
    }
    assert(out@ =~= o0 + leaves_of(ch@, m));
}

/// The bracket's children map feeds down, and under each match it has the sides that the
/// bracket places there.
pub proof fn lemma_children_leaves(m: Map<u32, (Child, Child)>)
    requires
        is_children_map(m),
    ensures
        feeds_down(m),
        forall|j: int| 0 <= j < 31 ==> #[trigger] leaves_of(m, kid(j)) == leaves_at(j),
{
    lemma_bracket_shape();
    lemma_kid_values();
    assert forall|k: u32| #[trigger] m.contains_key(k) implies child_ok(m, m[k].0, k) && child_ok(m, m[k].1, k) by {
        let j = ko_index(k);
        assert(is_ko_id(k));
        let km = knockout_spec()[j];
        assert(m[kid(j)] == children_of(km));
        assert(crate::bracket::side_ok(km.a, j));
        assert(crate::bracket::side_ok(km.b, j));
        if km.round != Round::R32 {
            match km.a {
                Source::MatchWinner(n) => {
                    assert(kid(ko_index(n)) == n);
                    assert(is_ko_id(n));
                },
                _ => {},
            }
            match km.b {
                Source::MatchWinner(n) => {
                    assert(kid(ko_index(n)) == n);
                    assert(is_ko_id(n));
                },
                _ => {},
            }
        }
    }
    assert forall|j: int| 0 <= j < 31 implies #[trigger] leaves_of(m, kid(j)) == leaves_at(j) by {
        lemma_leaves_match(m, j);
    }
}

proof fn lemma_leaves_match(m: Map<u32, (Child, Child)>, j: int)
    requires
        is_children_map(m),
        0 <= j < 31,
    ensures
        leaves_of(m, kid(j)) == leaves_at(j),
    decreases j,
{
    lemma_bracket_shape();
    lemma_kid_values();
    let k = kid(j);
    let km = knockout_spec()[j];
    assert(ko_index(k) == j);
    assert(is_ko_id(k));
    assert(m.contains_key(k));
    assert(m[k] == children_of(km));
    assert(crate::bracket::side_ok(km.a, j));
    assert(crate::bracket::side_ok(km.b, j));
    if km.round != Round::R32 {
        match km.a {
            Source::MatchWinner(n) => {
                assert(kid(ko_index(n)) == n);
                lemma_leaves_match(m, ko_index(n));
            },
            _ => {},
        }
        match km.b {
            Source::MatchWinner(n) => {
                assert(kid(ko_index(n)) == n);
                lemma_leaves_match(m, ko_index(n));
            },
            _ => {},
        }
    }
}

/// The drawing column of match `id`: 1 for the round of 32 (73-88), 2 for the round of 16
/// (89-96), 3 for the quarter-finals (97-100), 4 for the semi-finals (101-102), else 5.
pub fn round_col(id: u32) -> (c: usize)
    ensures
        c == (if 73 <= id <= 88 {
            1usize
        } else if 89 <= id <= 96 {
            2
        } else if 97 <= id <= 100 {
            3
        } else if 101 <= id <= 102 {
            4
        } else {
            5
        }),
{
    if 73 <= id && id <= 88 {
        1
    } else if 89 <= id && id <= 96 {
        2
    } else if 97 <= id && id <= 100 {
        3
    } else if 101 <= id && id <= 102 {
        4
    } else {
        5
    }
}

/// The round-of-32 sides in drawing order, top to bottom.
pub open spec fn drawn_leaves() -> Seq<(u32, bool)> {
    seq![(74u32, false), (74u32, true), (77u32, false), (77u32, true), (73u32, false), (73u32, true), (75u32, false), (75u32, true), (83u32, false), (83u32, true), (84u32, false), (84u32, true), (81u32, false), (81u32, true), (82u32, false), (82u32, true), (76u32, false), (76u32, true), (78u32, false), (78u32, true), (79u32, false), (79u32, true), (80u32, false), (80u32, true), (86u32, false), (86u32, true), (88u32, false), (88u32, true), (85u32, false), (85u32, true), (87u32, false), (87u32, true)]
}

/// In the bracket's children map, the sides under the final are the drawing order.
pub proof fn lemma_drawn_leaves(m: Map<u32, (Child, Child)>)
    requires
        is_children_map(m),
    ensures
        feeds_down(m),
        m.contains_key(104),
        leaves_of(m, 104) == drawn_leaves(),
{
    lemma_children_leaves(m);
    lemma_kid_values();
    lemma_leaves_cover();
    assert(kid(30) == 104);
    assert(is_ko_id(104));
}

/// Under the final lie all 32 round-of-32 sides, each exactly once, in the drawing order.
pub proof fn lemma_leaves_cover()
    ensures
        leaves_at(30) == drawn_leaves(),
        leaves_at(30).len() == 32,
        forall|a: int, b: int| 0 <= a < b < 32 ==> leaves_at(30)[a] != leaves_at(30)[b],
        forall|j: int, side: bool| 0 <= j < 16 ==> leaves_at(30).contains((kid(j), side)),
{
    lemma_bracket_shape();
    assert(leaves_at(0) =~= seq![(73u32, false), (73u32, true)]);
    assert(leaves_at(1) =~= seq![(74u32, false), (74u32, true)]);
    assert(leaves_at(2) =~= seq![(75u32, false), (75u32, true)]);
    assert(leaves_at(3) =~= seq![(76u32, false), (76u32, true)]);
    assert(leaves_at(4) =~= seq![(77u32, false), (77u32, true)]);
    assert(leaves_at(5) =~= seq![(78u32, false), (78u32, true)]);
    assert(leaves_at(6) =~= seq![(79u32, false), (79u32, true)]);
    assert(leaves_at(7) =~= seq![(80u32, false), (80u32, true)]);
    assert(leaves_at(8) =~= seq![(81u32, false), (81u32, true)]);
    assert(leaves_at(9) =~= seq![(82u32, false), (82u32, true)]);
    assert(leaves_at(10) =~= seq![(83u32, false), (83u32, true)]);
    assert(leaves_at(11) =~= seq![(84u32, false), (84u32, true)]);
    assert(leaves_at(12) =~= seq![(85u32, false), (85u32, true)]);
    assert(leaves_at(13) =~= seq![(86u32, false), (86u32, true)]);
    assert(leaves_at(14) =~= seq![(87u32, false), (87u32, true)]);
    assert(leaves_at(15) =~= seq![(88u32, false), (88u32, true)]);
    assert(leaves_at(16) =~= seq![(74u32, false), (74u32, true), (77u32, false), (77u32, true)]);
    assert(leaves_at(17) =~= seq![(73u32, false), (73u32, true), (75u32, false), (75u32, true)]);
    assert(leaves_at(18) =~= seq![(76u32, false), (76u32, true), (78u32, false), (78u32, true)]);
    assert(leaves_at(19) =~= seq![(79u32, false), (79u32, true), (80u32, false), (80u32, true)]);
    assert(leaves_at(20) =~= seq![(83u32, false), (83u32, true), (84u32, false), (84u32, true)]);
    assert(leaves_at(21) =~= seq![(81u32, false), (81u32, true), (82u32, false), (82u32, true)]);
    assert(leaves_at(22) =~= seq![(86u32, false), (86u32, true), (88u32, false), (88u32, true)]);
    assert(leaves_at(23) =~= seq![(85u32, false), (85u32, true), (87u32, false), (87u32, true)]);
    assert(leaves_at(24) =~= seq![(74u32, false), (74u32, true), (77u32, false), (77u32, true), (73u32, false), (73u32, true), (75u32, false), (75u32, true)]);
    assert(leaves_at(25) =~= seq![(83u32, false), (83u32, true), (84u32, false), (84u32, true), (81u32, false), (81u32, true), (82u32, false), (82u32, true)]);
    assert(leaves_at(26) =~= seq![(76u32, false), (76u32, true), (78u32, false), (78u32, true), (79u32, false), (79u32, true), (80u32, false), (80u32, true)]);
    assert(leaves_at(27) =~= seq![(86u32, false), (86u32, true), (88u32, false), (88u32, true), (85u32, false), (85u32, true), (87u32, false), (87u32, true)]);
    assert(leaves_at(28) =~= seq![(74u32, false), (74u32, true), (77u32, false), (77u32, true), (73u32, false), (73u32, true), (75u32, false), (75u32, true), (83u32, false), (83u32, true), (84u32, false), (84u32, true), (81u32, false), (81u32, true), (82u32, false), (82u32, true)]);
    assert(leaves_at(29) =~= seq![(76u32, false), (76u32, true), (78u32, false), (78u32, true), (79u32, false), (79u32, true), (80u32, false), (80u32, true), (86u32, false), (86u32, true), (88u32, false), (88u32, true), (85u32, false), (85u32, true), (87u32, false), (87u32, true)]);
    assert(leaves_at(30) =~= seq![(74u32, false), (74u32, true), (77u32, false), (77u32, true), (73u32, false), (73u32, true), (75u32, false), (75u32, true), (83u32, false), (83u32, true), (84u32, false), (84u32, true), (81u32, false), (81u32, true), (82u32, false), (82u32, true), (76u32, false), (76u32, true), (78u32, false), (78u32, true), (79u32, false), (79u32, true), (80u32, false), (80u32, true), (86u32, false), (86u32, true), (88u32, false), (88u32, true), (85u32, false), (85u32, true), (87u32, false), (87u32, true)]);
    assert(leaves_at(30) =~= drawn_leaves());
    let l = drawn_leaves();
    assert forall|a: int, b: int| 0 <= a < b < 32 implies l[a] != l[b] by {
        assert(l[a].0 as int * 2 + (if l[a].1 { 1int } else { 0int }) != l[b].0 as int * 2 + (if l[b].1 { 1int } else { 0int }));
    }
    assert forall|j: int, side: bool| 0 <= j < 16 implies l.contains((kid(j), side)) by {
        let p: int = if j == 0 { 4 } else if j == 1 { 0 } else if j == 2 { 6 } else if j == 3 { 16 } else if j == 4 { 2 } else if j == 5 { 18 } else if j == 6 { 20 } else if j == 7 { 22 } else if j == 8 { 12 } else if j == 9 { 14 } else if j == 10 { 8 } else if j == 11 { 10 } else if j == 12 { 28 } else if j == 13 { 24 } else if j == 14 { 30 } else { 26 };
        let q: int = if side { p + 1 } else { p };
        assert(l[q] == (kid(j), side));
    }
}

/// The most common entry of `counts`: (index, count) of the last largest one, or `None` when
/// every count is zero.
pub fn modal(counts: &[u64]) -> (r: Option<(usize, u64)>)
    ensures
        r is None <==> forall|k: int| 0 <= k < counts@.len() ==> counts@[k] == 0,
        r matches Some(p) ==> {
            &&& p.0 < counts@.len()
            &&& p.1 == counts@[p.0 as int]
            &&& p.1 > 0
            &&& forall|k: int| 0 <= k < counts@.len() ==> counts@[k] <= p.1
            &&& forall|k: int| p.0 < k < counts@.len() ==> counts@[k] < p.1
        },
{
    let mut best: usize = 0;
    let mut i: usize = 0;
    while i < counts.len()
        invariant
            i <= counts@.len(),
            best < counts@.len() || counts@.len() == 0,
            i > 0 ==> best < i,
            i == 0 ==> best == 0,
            forall|k: int| 0 <= k < i ==> counts@[k] <= counts@[best as int],
            forall|k: int| best < k < i ==> counts@[k] < counts@[best as int],
        decreases counts@.len() - i,
    {
        if counts[i] >= counts[best] {
            best = i;
        }
        i = i + 1;
    }
    if counts.len() == 0 || counts[best] == 0 {
        return None;
    }
    Some((best, counts[best]))
}

/// The regional indicator symbol for an upper-case letter.
pub open spec fn regional_spec(c: char) -> char {
    (0x1F1E6 + (c as int - 65)) as char
}

fn regional(c: char) -> (r: char)
    requires
        'A' <= c <= 'Z',
    ensures
        r == regional_spec(c),
{
    match c {
        'A' => '\u{1F1E6}',
        'B' => '\u{1F1E7}',
        'C' => '\u{1F1E8}',
        'D' => '\u{1F1E9}',
        'E' => '\u{1F1EA}',
        'F' => '\u{1F1EB}',
        'G' => '\u{1F1EC}',
        'H' => '\u{1F1ED}',
        'I' => '\u{1F1EE}',
        'J' => '\u{1F1EF}',
        'K' => '\u{1F1F0}',
        'L' => '\u{1F1F1}',
        'M' => '\u{1F1F2}',
        'N' => '\u{1F1F3}',
        'O' => '\u{1F1F4}',
        'P' => '\u{1F1F5}',
        'Q' => '\u{1F1F6}',
        'R' => '\u{1F1F7}',
        'S' => '\u{1F1F8}',
        'T' => '\u{1F1F9}',
        'U' => '\u{1F1FA}',
        'V' => '\u{1F1FB}',
        'W' => '\u{1F1FC}',
        'X' => '\u{1F1FD}',
        'Y' => '\u{1F1FE}',
        'Z' => '\u{1F1FF}',
        _ => '\u{1F1FF}',
    }
}

/// The two-letter country code of a team code, for the teams that have one.
pub open spec fn iso_of(a: char, b: char, c: char) -> Option<(char, char)> {
    match (a, b, c) {
        ('M', 'E', 'X') => Some(('M', 'X')),
        ('R', 'S', 'A') => Some(('Z', 'A')),
        ('K', 'O', 'R') => Some(('K', 'R')),
        ('C', 'Z', 'E') => Some(('C', 'Z')),
        ('C', 'A', 'N') => Some(('C', 'A')),
        ('B', 'I', 'H') => Some(('B', 'A')),
        ('Q', 'A', 'T') => Some(('Q', 'A')),
        ('S', 'U', 'I') => Some(('C', 'H')),
        ('B', 'R', 'A') => Some(('B', 'R')),
        ('M', 'A', 'R') => Some(('M', 'A')),
        ('H', 'A', 'I') => Some(('H', 'T')),
        ('U', 'S', 'A') => Some(('U', 'S')),
        ('P', 'A', 'R') => Some(('P', 'Y')),
        ('A', 'U', 'S') => Some(('A', 'U')),
        ('T', 'U', 'R') => Some(('T', 'R')),
        ('G', 'E', 'R') => Some(('D', 'E')),
        ('C', 'U', 'W') => Some(('C', 'W')),
        ('C', 'I', 'V') => Some(('C', 'I')),
        ('E', 'C', 'U') => Some(('E', 'C')),
        ('N', 'E', 'D') => Some(('N', 'L')),
        ('J', 'P', 'N') => Some(('J', 'P')),
        ('S', 'W', 'E') => Some(('S', 'E')),
        ('T', 'U', 'N') => Some(('T', 'N')),
        ('B', 'E', 'L') => Some(('B', 'E')),
        ('E', 'G', 'Y') => Some(('E', 'G')),
        ('I', 'R', 'N') => Some(('I', 'R')),
        ('N', 'Z', 'L') => Some(('N', 'Z')),
        ('E', 'S', 'P') => Some(('E', 'S')),
        ('C', 'P', 'V') => Some(('C', 'V')),
        ('K', 'S', 'A') => Some(('S', 'A')),
        ('U', 'R', 'U') => Some(('U', 'Y')),
        ('F', 'R', 'A') => Some(('F', 'R')),
        ('S', 'E', 'N') => Some(('S', 'N')),
        ('I', 'R', 'Q') => Some(('I', 'Q')),
        ('N', 'O', 'R') => Some(('N', 'O')),
        ('A', 'R', 'G') => Some(('A', 'R')),
        ('A', 'L', 'G') => Some(('D', 'Z')),
        ('A', 'U', 'T') => Some(('A', 'T')),
        ('J', 'O', 'R') => Some(('J', 'O')),
        ('P', 'O', 'R') => Some(('P', 'T')),
        ('C', 'O', 'D') => Some(('C', 'D')),
        ('U', 'Z', 'B') => Some(('U', 'Z')),
        ('C', 'O', 'L') => Some(('C', 'O')),
        ('C', 'R', 'O') => Some(('H', 'R')),
        ('G', 'H', 'A') => Some(('G', 'H')),
        ('P', 'A', 'N') => Some(('P', 'A')),
        _ => None,
    }
}

fn iso_code(a: char, b: char, c: char) -> (r: Option<(char, char)>)
    ensures
        r == iso_of(a, b, c),
{
    match (a, b, c) {
        ('M', 'E', 'X') => Some(('M', 'X')),
        ('R', 'S', 'A') => Some(('Z', 'A')),
        ('K', 'O', 'R') => Some(('K', 'R')),
        ('C', 'Z', 'E') => Some(('C', 'Z')),
        ('C', 'A', 'N') => Some(('C', 'A')),
        ('B', 'I', 'H') => Some(('B', 'A')),
        ('Q', 'A', 'T') => Some(('Q', 'A')),
        ('S', 'U', 'I') => Some(('C', 'H')),
        ('B', 'R', 'A') => Some(('B', 'R')),
        ('M', 'A', 'R') => Some(('M', 'A')),
        ('H', 'A', 'I') => Some(('H', 'T')),
        ('U', 'S', 'A') => Some(('U', 'S')),
        ('P', 'A', 'R') => Some(('P', 'Y')),
        ('A', 'U', 'S') => Some(('A', 'U')),
        ('T', 'U', 'R') => Some(('T', 'R')),
        ('G', 'E', 'R') => Some(('D', 'E')),
        ('C', 'U', 'W') => Some(('C', 'W')),
        ('C', 'I', 'V') => Some(('C', 'I')),
        ('E', 'C', 'U') => Some(('E', 'C')),
        ('N', 'E', 'D') => Some(('N', 'L')),
        ('J', 'P', 'N') => Some(('J', 'P')),
        ('S', 'W', 'E') => Some(('S', 'E')),
        ('T', 'U', 'N') => Some(('T', 'N')),
        ('B', 'E', 'L') => Some(('B', 'E')),
        ('E', 'G', 'Y') => Some(('E', 'G')),
        ('I', 'R', 'N') => Some(('I', 'R')),
        ('N', 'Z', 'L') => Some(('N', 'Z')),
        ('E', 'S', 'P') => Some(('E', 'S')),
        ('C', 'P', 'V') => Some(('C', 'V')),
        ('K', 'S', 'A') => Some(('S', 'A')),
        ('U', 'R', 'U') => Some(('U', 'Y')),
        ('F', 'R', 'A') => Some(('F', 'R')),
        ('S', 'E', 'N') => Some(('S', 'N')),
        ('I', 'R', 'Q') => Some(('I', 'Q')),
        ('N', 'O', 'R') => Some(('N', 'O')),
        ('A', 'R', 'G') => Some(('A', 'R')),
        ('A', 'L', 'G') => Some(('D', 'Z')),
        ('A', 'U', 'T') => Some(('A', 'T')),
        ('J', 'O', 'R') => Some(('J', 'O')),
        ('P', 'O', 'R') => Some(('P', 'T')),
        ('C', 'O', 'D') => Some(('C', 'D')),
        ('U', 'Z', 'B') => Some(('U', 'Z')),
        ('C', 'O', 'L') => Some(('C', 'O')),
        ('C', 'R', 'O') => Some(('H', 'R')),
        ('G', 'H', 'A') => Some(('G', 'H')),
        ('P', 'A', 'N') => Some(('P', 'A')),
        _ => None,
    }
}

/// England's flag.
pub open spec fn flag_eng() -> Seq<char> {
    seq!['\u{1F3F4}', '\u{E0067}', '\u{E0062}', '\u{E0065}', '\u{E006E}', '\u{E0067}', '\u{E007F}']
}

/// Scotland's flag.
pub open spec fn flag_sco() -> Seq<char> {
    seq!['\u{1F3F4}', '\u{E0067}', '\u{E0062}', '\u{E0073}', '\u{E0063}', '\u{E0074}', '\u{E007F}']
}

/// The white flag, for a team without a flag of its own.
pub open spec fn flag_white() -> Seq<char> {
    seq!['\u{1F3F3}', '\u{FE0F}']
}

/// The flag of a team code: England's and Scotland's own flags, the two regional indicators
/// of the country code where the team has one, else the white flag.
pub open spec fn flag_spec(code: Seq<char>) -> Seq<char> {
    if code == seq!['E', 'N', 'G'] {
        flag_eng()
    } else if code == seq!['S', 'C', 'O'] {
        flag_sco()
    } else if code.len() == 3 && iso_of(code[0], code[1], code[2]) is Some {
        let p = iso_of(code[0], code[1], code[2])->0;
        seq![regional_spec(p.0), regional_spec(p.1)]
    } else {
        flag_white()
    }
}

fn push_all(s: &mut String, cs: &[char])
    ensures
        final(s)@ == old(s)@ + cs@,
{
    let mut i: usize = 0;
    while i < cs.len()
        invariant
            i <= cs@.len(),
            s@ == old(s)@ + cs@.take(i as int),
        decreases cs@.len() - i,
    {
        assert(cs@.take(i + 1) =~= cs@.take(i as int).push(cs@[i as int]));
        push_char(s, cs[i]);
        i = i + 1;
    }
    assert(cs@.take(i as int) =~= cs@);
}

/// Flag emoji for a team code (see `flag_spec`).
pub fn flag(code: &str) -> (f: String)
    ensures
        f@ == flag_spec(code@),
{
    let mut f = String::new();
    let n = code.unicode_len();
    if n == 3 {
        let a = code.get_char(0);
        let b = code.get_char(1);
        let c = code.get_char(2);
        if a == 'E' && b == 'N' && c == 'G' {
            assert(code@ =~= seq!['E', 'N', 'G']);
            let cs: [char; 7] = ['\u{1F3F4}', '\u{E0067}', '\u{E0062}', '\u{E0065}', '\u{E006E}', '\u{E0067}', '\u{E007F}'];
            push_all(&mut f, &cs);
            assert(f@ =~= flag_eng());
            return f;
        }
        if a == 'S' && b == 'C' && c == 'O' {
            assert(code@ =~= seq!['S', 'C', 'O']);
            let cs: [char; 7] = ['\u{1F3F4}', '\u{E0067}', '\u{E0062}', '\u{E0073}', '\u{E0063}', '\u{E0074}', '\u{E007F}'];
            push_all(&mut f, &cs);
            assert(f@ =~= flag_sco());
            return f;
        }
        assert(code@ != seq!['E', 'N', 'G']);
        assert(code@ != seq!['S', 'C', 'O']);
        match iso_code(a, b, c) {
            Some((x, y)) => {
                push_char(&mut f, regional(x));
                push_char(&mut f, regional(y));
                assert(f@ =~= flag_spec(code@));
                return f;
            },
            None => {},
        }
    }
    push_char(&mut f, '\u{1F3F3}');
    push_char(&mut f, '\u{FE0F}');
    assert(f@ =~= flag_white());
    f
}

/// One row of a group table from the results entered so far.
#[derive(Clone, Copy, Debug, PartialEq, Eq, Structural)]
pub struct TableRow {
    pub team: usize,
    pub pld: u32,
    pub w: u32,
    pub d: u32,
    pub l: u32,
    pub gd: i64,
    pub pts: u32,
}

/// What fixture `k` adds to the team at draw position `i` (0-based) of a group, given its
/// result if entered: (played, won, drawn, lost, points, goal difference).
pub open spec fn row_step(sc: Option<(u32, u32)>, k: int, i: int) -> (int, int, int, int, int, int) {
    match sc {
        None => (0, 0, 0, 0, 0, 0),
        Some((h, a)) => {
            let (hp, ap) = group_fixture(k);
            if i == hp - 1 {
                (1, if h > a { 1 } else { 0 }, if h == a { 1 } else { 0 }, if h < a { 1 } else { 0 }, points(h, a), h - a)
            } else if i == ap - 1 {
                (1, if a > h { 1 } else { 0 }, if h == a { 1 } else { 0 }, if a < h { 1 } else { 0 }, points(a, h), a - h)
            } else {
                (0, 0, 0, 0, 0, 0)
            }
        },
    }
}

/// (played, won, drawn, lost, points, goal difference) of the team at draw position `i` of
/// group `g` over fixtures `0..n` with results entered.
pub open spec fn row_upto(data: Data, g: int, n: int, i: int) -> (int, int, int, int, int, int)
    decreases n,
{
    if n <= 0 {
        (0, 0, 0, 0, 0, 0)
    } else {
        let p = row_upto(data, g, n - 1, i);
        let d = row_step(group_score_spec(data.results@, g, n - 1), n - 1, i);
        (p.0 + d.0, p.1 + d.1, p.2 + d.2, p.3 + d.3, p.4 + d.4, p.5 + d.5)
    }
}

proof fn lemma_row_bounds(data: Data, g: int, n: int, i: int)
    requires
        0 <= n <= 6,
    ensures
        0 <= row_upto(data, g, n, i).0 <= n,
        0 <= row_upto(data, g, n, i).1 <= n,
        0 <= row_upto(data, g, n, i).2 <= n,
        0 <= row_upto(data, g, n, i).3 <= n,
        0 <= row_upto(data, g, n, i).4 <= 3 * n,
        -n * u32::MAX <= row_upto(data, g, n, i).5 <= n * u32::MAX,
    decreases n,
{
    if n > 0 {
        lemma_row_bounds(data, g, n - 1, i);
    }
}

/// A group with one result in: the team at the home position of that fixture (named first
/// in the match id) is credited with the home goals, a win, draw or loss and its points by
/// that score, the away position with the converse, and the other two teams with nothing.
pub proof fn lemma_table_single_result(data: Data, g: int, k: int)
    requires
        0 <= k < 6,
        group_score_spec(data.results@, g, k) is Some,
        forall|k2: int| 0 <= k2 < 6 && k2 != k ==> #[trigger] group_score_spec(data.results@, g, k2) is None,
    ensures
        ({
            let (h, a) = group_score_spec(data.results@, g, k)->0;
            let (hp, ap) = group_fixture(k);
            &&& row_upto(data, g, 6, hp - 1) == (1int, if h > a { 1int } else { 0int }, if h == a { 1int } else {
                0int }, if h < a { 1int } else { 0int }, points(h, a), h - a)
            &&& row_upto(data, g, 6, ap - 1) == (1int, if a > h { 1int } else { 0int }, if h == a { 1int } else {
                0int }, if a < h { 1int } else { 0int }, points(a, h), a - h)
            &&& forall|i: int| 0 <= i < 4 && i != hp - 1 && i != ap - 1 ==> #[trigger] row_upto(data, g, 6, i) == (0int, 0int, 0int, 0int, 0int, 0int)
        }),
{
    reveal_with_fuel(row_upto, 7);
    assert(group_fixture(k).0 != group_fixture(k).1);
    assert forall|k2: int| 0 <= k2 < 6 && k2 != k implies #[trigger] row_step(group_score_spec(data.results@, g, k2), k2, 0) == (0int, 0int, 0int, 0int, 0int, 0int) by {
        assert(group_score_spec(data.results@, g, k2) is None);
    }
    if k == 0 {} else if k == 1 {} else if k == 2 {} else if k == 3 {} else if k == 4 {} else {}
}

proof fn lemma_row_vs_stats(data: Data, g: int, scores: Seq<(u32, u32)>, n: int, i: int)
    requires
        0 <= n <= 6,
        scores.len() == 6,
        forall|k: int| 0 <= k < 6 ==> #[trigger] group_score_spec(data.results@, g, k) == Some(scores[k]),
    ensures
        row_upto(data, g, n, i).4 == crate::standings::stats_upto(scores, n, i).0,
        row_upto(data, g, n, i).5 == crate::standings::stats_upto(scores, n, i).1 - crate::standings::stats_upto(
            scores,
            n,
            i,
        ).2,
    decreases n,
{
    if n > 0 {
        lemma_row_vs_stats(data, g, scores, n - 1, i);
        assert(group_score_spec(data.results@, g, n - 1) == Some(scores[n - 1]));
    }
}

/// Once all six results of a group are in, the live table agrees with the ranking keys of
/// the group: each team's points and goal difference in the table are those its ranking key
/// (`group_key`, which orders the final standings) is built from.
pub proof fn lemma_table_agrees_with_ranking(data: Data, g: int, i: int, tie: u64)
    requires
        0 <= i < 4,
        forall|k: int| 0 <= k < 6 ==> #[trigger] group_score_spec(data.results@, g, k) is Some,
    ensures
        ({
            let scores = Seq::new(6, |k: int| group_score_spec(data.results@, g, k)->0);
            &&& row_upto(data, g, 6, i).4 == crate::standings::group_key(scores, i, tie).pts
            &&& row_upto(data, g, 6, i).5 == crate::standings::group_key(scores, i, tie).gd
        }),
{
    let scores = Seq::new(6, |k: int| group_score_spec(data.results@, g, k)->0);
    assert forall|k: int| 0 <= k < 6 implies #[trigger] group_score_spec(data.results@, g, k) == Some(scores[k]) by {
        assert(group_score_spec(data.results@, g, k) is Some);
    }
    lemma_row_vs_stats(data, g, scores, 6, i);
    crate::standings::lemma_stats_bounds(scores, 6, i);
}

/// The table of group `g` from the results entered so far (a partial group too): its four
/// teams in draw order with games played, won, drawn, lost, goal difference and points.
pub fn current_table(data: &Data, g: char) -> (rows: Vec<TableRow>)
    requires
        data.indexed(),
        is_group(g),
    ensures
        rows@.len() == 4,
        forall|i: int| 0 <= i < 4 ==> {
            let st = row_upto(*data, g as int - 65, 6, i);
            &&& (#[trigger] rows@[i]).team == data.member(g as int - 65, i)
            &&& rows@[i].pld == st.0 && rows@[i].w == st.1 && rows@[i].d == st.2 && rows@[i].l == st.3
            &&& rows@[i].pts == st.4 && rows@[i].gd == st.5
        },
{
    let gi = (g as u32 - 65) as usize;
    let teams = data.group_teams(g);
    let mut rows: Vec<TableRow> = Vec::new();
    let mut i: usize = 0;
    while i < 4
        invariant
            i <= 4,
            teams@.len() == 4,
            gi == g as int - 65,
            teams@ == data.group_index@[gi as int]@,
            rows@.len() == i,
            forall|m: int| 0 <= m < i ==> #[trigger] rows@[m] == (TableRow {
                team: teams@[m],
                pld: 0,
                w: 0,
                d: 0,
                l: 0,
                gd: 0,
                pts: 0,
            }),
        decreases 4 - i,
    {
        rows.push(TableRow { team: teams[i], pld: 0, w: 0, d: 0, l: 0, gd: 0, pts: 0 });
        i = i + 1;
    }
    let mut k: usize = 0;
    while k < 6
        invariant
            k <= 6,
            data.indexed(),
            gi < 12,
            gi == g as int - 65,
            teams@ == data.group_index@[gi as int]@,
            rows@.len() == 4,
            forall|m: int| 0 <= m < 4 ==> {
                let st = row_upto(*data, gi as int, k as int, m);
                &&& (#[trigger] rows@[m]).team == teams@[m]
                &&& rows@[m].pld == st.0 && rows@[m].w == st.1 && rows@[m].d == st.2 && rows@[m].l == st.3
                &&& rows@[m].pts == st.4 && rows@[m].gd == st.5
            },
        decreases 6 - k,
    {
        let sc = data.group_score(gi, k);
        let ghost r0 = rows@;
        match sc {
            Some((h, a)) => {
                let (hp, ap) = fixture(k);
                let hi = hp - 1;
                let ai = ap - 1;
                proof {
                    lemma_row_bounds(*data, gi as int, k as int, hi as int);
                    lemma_row_bounds(*data, gi as int, k as int, ai as int);
                }
                let mut rh = rows[hi];
                let mut ra = rows[ai];
                rh.pld = rh.pld + 1;
                ra.pld = ra.pld + 1;
                rh.gd = rh.gd + h as i64 - a as i64;
                ra.gd = ra.gd + a as i64 - h as i64;
                if h > a {
                    rh.w = rh.w + 1;
                    rh.pts = rh.pts + 3;
                    ra.l = ra.l + 1;
                } else if h < a {
                    ra.w = ra.w + 1;
                    ra.pts = ra.pts + 3;
                    rh.l = rh.l + 1;
                } else {
                    rh.d = rh.d + 1;
                    ra.d = ra.d + 1;
                    rh.pts = rh.pts + 1;
                    ra.pts = ra.pts + 1;
                }
                rows.set(hi, rh);
                rows.set(ai, ra);
            },
            None => {},
        }
        proof {
            assert forall|m: int| 0 <= m < 4 implies {
                let st = row_upto(*data, gi as int, k + 1, m);
                &&& (#[trigger] rows@[m]).team == teams@[m]
                &&& rows@[m].pld == st.0 && rows@[m].w == st.1 && rows@[m].d == st.2 && rows@[m].l == st.3
                &&& rows@[m].pts == st.4 && rows@[m].gd == st.5
            } by {
                let st0 = row_upto(*data, gi as int, k as int, m);
                assert(r0[m].team == teams@[m]);
            }
        }
        k = k + 1;
    }
    rows
}

/// The key under which a count is ranked: the count less 2^63, so that every `u64` fits an
/// `i64` and the order of counts is kept.
pub open spec fn count_key(c: u64) -> i64 {
    (c as int - 0x8000_0000_0000_0000) as i64
}

fn shifted(c: u64) -> (r: i64)
    ensures
        r == count_key(c),
        r as int == c as int - 0x8000_0000_0000_0000,
{
    if c >= 0x8000_0000_0000_0000 {
        (c - 0x8000_0000_0000_0000) as i64
    } else {
        (c as i64) - 0x7fff_ffff_ffff_ffff - 1
    }
}

/// Ranking keys that order entries by one count, then another, both descending.
pub open spec fn count_keys(primary: Seq<u64>, secondary: Seq<u64>) -> Seq<RankKey> {
    Seq::new(
        primary.len(),
        |i: int| RankKey { pts: 0, gd: count_key(primary[i]), gf: count_key(secondary[i]), tie: 0 },
    )
}

/// Entry `i` comes before entry `j`: a larger primary count, or an equal one and a larger
/// secondary count, or both equal and a lower index.
pub open spec fn counts_before(primary: Seq<u64>, secondary: Seq<u64>, i: usize, j: usize) -> bool {
    ||| primary[i as int] > primary[j as int]
    ||| (primary[i as int] == primary[j as int] && secondary[i as int] > secondary[j as int])
    ||| (primary[i as int] == primary[j as int] && secondary[i as int] == secondary[j as int] && i < j)
}

/// `r` lists every entry once, in the order of `counts_before`.
pub open spec fn is_count_order(primary: Seq<u64>, secondary: Seq<u64>, r: Seq<usize>) -> bool {
    &&& r.len() == primary.len()
    &&& forall|a: int| 0 <= a < r.len() ==> #[trigger] r[a] < primary.len()
    &&& forall|x: usize| x < primary.len() ==> #[trigger] r.contains(x)
    &&& forall|a: int, b: int| 0 <= a < b < r.len() ==> counts_before(primary, secondary, r[a], r[b])
}

/// Indices ordered by `primary` descending, then `secondary` descending, then by index (the
/// order a stable sort on those counts gives).
pub fn count_order(primary: &[u64], secondary: &[u64]) -> (r: Vec<usize>)
    requires
        primary@.len() == secondary@.len(),
    ensures
        is_count_order(primary@, secondary@, r@),
{
    let mut keys: Vec<RankKey> = Vec::new();
    let mut i: usize = 0;
    while i < primary.len()
        invariant
            i <= primary@.len(),
            primary@.len() == secondary@.len(),
            keys@.len() == i,
            forall|k: int| 0 <= k < i ==> #[trigger] keys@[k] == count_keys(primary@, secondary@)[k],
        decreases primary@.len() - i,
    {
        keys.push(RankKey { pts: 0, gd: shifted(primary[i]), gf: shifted(secondary[i]), tie: 0 });
        i = i + 1;
    }
    assert(keys@ =~= count_keys(primary@, secondary@));
    let r = rank(&keys);
    proof {
        let ks = count_keys(primary@, secondary@);
        assert forall|a: int, b: int| 0 <= a < b < r@.len() implies counts_before(
            primary@,
            secondary@,
            r@[a],
            r@[b],
        ) by {
            assert(crate::standings::ranks_before(ks, r@[a], r@[b]));
            assert(r@[a] < primary@.len() && r@[b] < primary@.len());
            assert(ks[r@[a] as int].gd as int == primary@[r@[a] as int] as int - 0x8000_0000_0000_0000);
            assert(ks[r@[b] as int].gd as int == primary@[r@[b] as int] as int - 0x8000_0000_0000_0000);
            assert(ks[r@[a] as int].gf as int == secondary@[r@[a] as int] as int - 0x8000_0000_0000_0000);
            assert(ks[r@[b] as int].gf as int == secondary@[r@[b] as int] as int - 0x8000_0000_0000_0000);
        }
    }
    r
}

/// Ranking keys for the rows of a group card: points then goal difference once any game is
/// played, else the teams' knockout counts.
pub open spec fn card_keys(rows: Seq<TableRow>, qualify: Seq<u64>) -> Seq<RankKey> {
    if exists|i: int| 0 <= i < rows.len() && #[trigger] rows[i].pld > 0 {
        Seq::new(rows.len(), |i: int| RankKey { pts: rows[i].pts, gd: rows[i].gd, gf: 0, tie: 0 })
    } else {
        Seq::new(rows.len(), |i: int| RankKey { pts: 0, gd: count_key(qualify[i]), gf: 0, tie: 0 })
    }
}

/// The order in which a group card lists its rows: by points, then goal difference, once any
/// game of the group is played; before that by the teams' knockout counts (`qualify`, one per
/// row), larger first; equal rows keep their draw order.
pub fn card_order(rows: &Vec<TableRow>, qualify: &Vec<u64>) -> (r: Vec<usize>)
    requires
        qualify@.len() == rows@.len(),
    ensures
        r@ == ranking(card_keys(rows@, qualify@)),
        crate::standings::is_ranking(card_keys(rows@, qualify@), r@),
        (exists|i: int| 0 <= i < rows@.len() && #[trigger] rows@[i].pld > 0) ==> table_ordered(rows@, r@),
        (forall|i: int| 0 <= i < rows@.len() ==> #[trigger] rows@[i].pld == 0) ==> counts_ordered(qualify@, r@),
{
    let mut any = false;
    let mut i: usize = 0;
    while i < rows.len()
        invariant
            i <= rows@.len(),
            any <==> exists|k: int| 0 <= k < i && #[trigger] rows@[k].pld > 0,
        decreases rows@.len() - i,
    {
        if rows[i].pld > 0 {
            any = true;
        }
        i = i + 1;
    }
    let mut keys: Vec<RankKey> = Vec::new();
    let mut i: usize = 0;
    while i < rows.len()
        invariant
            i <= rows@.len(),
            qualify@.len() == rows@.len(),
            any <==> exists|k: int| 0 <= k < rows@.len() && #[trigger] rows@[k].pld > 0,
            keys@.len() == i,
            forall|k: int| 0 <= k < i ==> #[trigger] keys@[k] == card_keys(rows@, qualify@)[k],
        decreases rows@.len() - i,
    {
        if any {
            keys.push(RankKey { pts: rows[i].pts, gd: rows[i].gd, gf: 0, tie: 0 });
        } else {
            keys.push(RankKey { pts: 0, gd: shifted(qualify[i]), gf: 0, tie: 0 });
        }
        i = i + 1;
    }
    assert(keys@ =~= card_keys(rows@, qualify@));
    let r = rank(&keys);
    proof {
        lemma_card_order_laws(rows@, qualify@, r@);
    }
    r
}

/// `r` lists rows by points, then goal difference, both descending; rows level on both keep
/// their draw order.
pub open spec fn table_ordered(rows: Seq<TableRow>, r: Seq<usize>) -> bool {
    forall|a: int, b: int|
        0 <= a < b < r.len() ==> {
            let x = rows[#[trigger] r[a] as int];
            let y = rows[#[trigger] r[b] as int];
            ||| x.pts > y.pts
            ||| (x.pts == y.pts && x.gd > y.gd)
            ||| (x.pts == y.pts && x.gd == y.gd && r[a] < r[b])
        }
}

/// `r` lists entries by their count, larger first; equal counts keep their order.
pub open spec fn counts_ordered(counts: Seq<u64>, r: Seq<usize>) -> bool {
    forall|a: int, b: int|
        0 <= a < b < r.len() ==> {
            ||| counts[#[trigger] r[a] as int] > counts[#[trigger] r[b] as int]
            ||| (counts[r[a] as int] == counts[r[b] as int] && r[a] < r[b])
        }
}

/// How a group card orders its rows, for any rows and counts: once a game of the group is
/// played, by points, then goal difference (both descending), then draw order; before that,
/// by the knockout counts, larger first, then draw order.
pub proof fn lemma_card_order_laws(rows: Seq<TableRow>, qualify: Seq<u64>, r: Seq<usize>)
    requires
        qualify.len() == rows.len(),
        crate::standings::is_ranking(card_keys(rows, qualify), r),
    ensures
        (exists|i: int| 0 <= i < rows.len() && #[trigger] rows[i].pld > 0) ==> table_ordered(rows, r),
        (forall|i: int| 0 <= i < rows.len() ==> #[trigger] rows[i].pld == 0) ==> counts_ordered(qualify, r),
{
    let keys = card_keys(rows, qualify);
    if exists|i: int| 0 <= i < rows.len() && #[trigger] rows[i].pld > 0 {
        assert forall|a: int, b: int| 0 <= a < b < r.len() implies {
            let x = rows[#[trigger] r[a] as int];
            let y = rows[#[trigger] r[b] as int];
            ||| x.pts > y.pts
            ||| (x.pts == y.pts && x.gd > y.gd)
            ||| (x.pts == y.pts && x.gd == y.gd && r[a] < r[b])
        } by {
            assert(crate::standings::ranks_before(keys, r[a], r[b]));
            assert(r[a] < rows.len() && r[b] < rows.len());
        }
    } else {
        assert forall|a: int, b: int| 0 <= a < b < r.len() implies {
            ||| qualify[#[trigger] r[a] as int] > qualify[#[trigger] r[b] as int]
            ||| (qualify[r[a] as int] == qualify[r[b] as int] && r[a] < r[b])
        } by {
            assert(crate::standings::ranks_before(keys, r[a], r[b]));
            assert(r[a] < rows.len() && r[b] < rows.len());
            let ca = qualify[r[a] as int];
            let cb = qualify[r[b] as int];
            assert(count_key(ca) as int == ca as int - 0x8000_0000_0000_0000);
            assert(count_key(cb) as int == cb as int - 0x8000_0000_0000_0000);
        }
    }
}

/// The knockout stage has begun: 72 or more group results, or any result with an id that
/// starts with 'M'.
pub open spec fn ko_started_spec(data: Data) -> bool {
    group_played(data.results@) >= 72 || exists|i: int|
        0 <= i < data.results@.len() && #[trigger] data.results@[i].match_id@.len() > 0
            && data.results@[i].match_id@[0] == 'M'
}

/// Whether the knockout stage has begun (see `ko_started_spec`); the report opens on the
/// bracket then, and on the groups before.
pub fn ko_started(data: &Data) -> (r: bool)
    ensures
        r == ko_started_spec(*data),
{
    let mut count: usize = 0;
    let mut any_m = false;
    let mut i: usize = 0;
    while i < data.results.len()
        invariant
            i <= data.results@.len(),
            count == group_played(data.results@.take(i as int)),
            count <= i,
            any_m <==> exists|k: int|
                0 <= k < i && #[trigger] data.results@[k].match_id@.len() > 0 && data.results@[k].match_id@[0] == 'M',
        decreases data.results@.len() - i,
    {
        let id = data.results[i].match_id.as_str();
        assert(data.results@.take(i + 1).drop_last() =~= data.results@.take(i as int));
        if crate::history::id_has_colon(id) {
            count = count + 1;
        }
        let n = id.unicode_len();
        if n > 0 && id.get_char(0) == 'M' {
            any_m = true;
        }
        i = i + 1;
    }
    assert(data.results@.take(i as int) =~= data.results@);
    count >= 72 || any_m
}

/// How a played knockout match was decided, as a suffix of its score: " a.e.t." after extra
/// time, " pens" after a shootout, nothing otherwise.
pub open spec fn decided_suffix(decided: Option<String>) -> Seq<char> {
    match decided {
        Some(d) => if d@ == "aet"@ {
            " a.e.t."@
        } else if d@ == "pens"@ {
            " pens"@
        } else {
            Seq::empty()
        },
        None => Seq::empty(),
    }
}

/// The label of a played match in the bracket: its score, home goals, an en dash and away
/// goals, then how it was decided.
pub fn result_label(r: &crate::model::Result) -> (s: String)
    ensures
        s@ == decimal(r.home as nat) + seq!['\u{2013}'] + decimal(r.away as nat) + decided_suffix(r.decided),
{
    let mut s = String::new();
    push_decimal(&mut s, r.home as u64);
    push_char(&mut s, '\u{2013}');
    push_decimal(&mut s, r.away as u64);
    match &r.decided {
        Some(d) => {
            if str_equal(d.as_str(), "aet") {
                s.append(" a.e.t.");
            } else if str_equal(d.as_str(), "pens") {
                s.append(" pens");
            }
        },
        None => {},
    }
    assert(s@ =~= decimal(r.home as nat) + seq!['\u{2013}'] + decimal(r.away as nat) + decided_suffix(r.decided));
    s
}

} // verus!
