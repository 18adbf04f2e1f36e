use vstd::prelude::*;
use crate::bracket::{
    fixture, group_fixture, group_letter, group_match_id, group_match_id_spec, is_group,
    knockout, knockout_spec, ko_index, ko_match_id, ko_match_id_spec, third_slots_spec, KoMatch,
    Source,
};
use crate::model::{ko_score_spec, group_score_spec, Data};
use crate::sim::{slot_thirds, slotting};
use crate::standings::{
    group_complete, real_group_standings, real_order, real_thirds_order, real_thirds_spec,
};
use crate::text::{push_char, push_decimal, decimal, lemma_parse_decimal};
use crate::history::ko_number;
use crate::model::result_lookup;

verus! {

/// Winner of a knockout tie: the side with more goals; when level, the away side if it won
/// the shootout, else the home side.
pub open spec fn ko_winner_of(home: usize, away: usize, gh: u32, ga: u32, away_won: bool) -> usize {
    if gh != ga {
        if gh > ga {
            home
        } else {
            away
        }
    } else if away_won {
        away
    } else {
        home
    }
}

/// Every group has all six real results in.
pub open spec fn all_groups_complete(data: Data) -> bool {
    forall|g: int| 0 <= g < 12 ==> #[trigger] group_complete(data, g)
}

/// The team that finished in place `p` (0-based) of group `g`, from real results.
pub open spec fn real_place(data: Data, g: char, p: int) -> Option<usize> {
    if is_group(g) && group_complete(data, g as int - 65) {
        Some(data.member(g as int - 65, real_order(data, g as int - 65)[p] as int))
    } else {
        None
    }
}

/// Which slot gets which third-placed group, from real results (once all groups are done).
pub open spec fn real_third_assignment(data: Data) -> Option<Seq<(u32, char)>> {
    if all_groups_complete(data) {
        slotting(real_thirds_spec(data))
    } else {
        None
    }
}

/// From real results too, the slotting depends only on which eight groups qualified: two
/// sets of complete results whose eight best thirds come from the same groups, ranked in
/// whatever order, slot the same group into every third-place match.
pub proof fn lemma_real_slotting_by_set(d1: Data, d2: Data)
    requires
        all_groups_complete(d1),
        all_groups_complete(d2),
        real_thirds_spec(d1).to_set() == real_thirds_spec(d2).to_set(),
    ensures
        real_third_assignment(d1) == real_third_assignment(d2),
        real_third_assignment(d1) == slotting(real_thirds_spec(d1)),
{
    crate::sim::lemma_slotting_by_set(real_thirds_spec(d1), real_thirds_spec(d2));
}

/// The group assigned to the slot of match `id`.
pub open spec fn assigned_group(a: Seq<(u32, char)>, id: u32) -> Option<char>
    decreases a.len(),
{
    if a.len() == 0 {
        None
    } else if a[0].0 == id {
        Some(a[0].1)
    } else {
        assigned_group(a.drop_first(), id)
    }
}

/// The third-placed team that plays in match `id`, from real results.
pub open spec fn real_third_for(data: Data, id: u32) -> Option<usize> {
    match real_third_assignment(data) {
        Some(a) => match assigned_group(a, id) {
            Some(c) => real_place(data, c, 2),
            None => None,
        },
        None => None,
    }
}

/// The team that fills a side of knockout match `i` (bracket order), from real results.
pub open spec fn real_source(data: Data, src: Source, i: int) -> Option<usize>
    decreases i, 0int,
{
    match src {
        Source::Winner(g) => real_place(data, g, 0),
        Source::RunnerUp(g) => real_place(data, g, 1),
        Source::Third => real_third_for(data, knockout_spec()[i].id),
        Source::MatchWinner(n) => if 0 <= ko_index(n) < i && i >= 0 {
            real_winner(data, ko_index(n))
        } else {
            None
        },
    }
}

/// Both sides of knockout match `i`, once real results decide them.
pub open spec fn real_sides(data: Data, i: int) -> Option<(usize, usize)>
    decreases i, 1int,
{
    if 0 <= i < knockout_spec().len() {
        match (
            real_source(data, knockout_spec()[i].a, i),
            real_source(data, knockout_spec()[i].b, i),
        ) {
            (Some(h), Some(a)) => Some((h, a)),
            _ => None,
        }
    } else {
        None
    }
}

/// The winner of knockout match `i`, once its sides are decided and its result is in.
pub open spec fn real_winner(data: Data, i: int) -> Option<usize>
    decreases i, 2int,
{
    match real_sides(data, i) {
        Some((h, a)) => match ko_score_spec(data.results@, i) {
            Some((gh, ga, aw)) => Some(ko_winner_of(h, a, gh, ga, aw)),
            None => None,
        },
        None => None,
    }
}

/// Real results leave the third-place slotting possible: either not all groups are done,
/// or the eight best thirds can be placed.
pub open spec fn thirds_placeable(data: Data) -> bool {
    all_groups_complete(data) ==> slotting(real_thirds_spec(data)) is Some
}

/// Whether the real results leave the third-place slotting possible: true until every group
/// is complete, then true exactly when the eight best thirds can be placed in the bracket.
pub fn thirds_can_be_placed(data: &Data) -> (r: bool)
    requires
        data.indexed(),
    ensures
        r == thirds_placeable(*data),
{
    match real_thirds_order(data) {
        None => true,
        Some(order) => {
            let a = slot_thirds(order.as_slice());
            a.is_some()
        },
    }
}

/// The places of every group from real results (`None` for an unfinished group).
fn real_places(data: &Data) -> (r: Vec<Option<[usize; 4]>>)
    requires
        data.indexed(),
    ensures
        r@.len() == 12,
        forall|g: int|
            0 <= g < 12 ==> (#[trigger] r@[g] is Some <==> group_complete(*data, g)),
        forall|g: int, p: int|
            0 <= g < 12 && 0 <= p < 4 && r@[g] is Some ==> #[trigger] r@[g]->0[p] == real_place(
                *data,
                group_letter(g),
                p,
            )->0,
{
    let letters = crate::bracket::all_groups();
    let mut out: Vec<Option<[usize; 4]>> = Vec::new();
    let mut g: usize = 0;
    while g < 12
        invariant
            g <= 12,
            data.indexed(),
            forall|h: int| 0 <= h < 12 ==> #[trigger] letters[h] == group_letter(h),
            out@.len() == g,
            forall|h: int| 0 <= h < g ==> (#[trigger] out@[h] is Some <==> group_complete(*data, h)),
            forall|h: int, p: int|
                0 <= h < g && 0 <= p < 4 && out@[h] is Some ==> #[trigger] out@[h]->0[p]
                    == real_place(*data, group_letter(h), p)->0,
        decreases 12 - g,
    {
        let st = real_group_standings(data, letters[g]);
        out.push(st);
        g = g + 1;
    }
    out
}

/// Finds the team assigned to match `id` in a (match id, team) list.
pub(crate) fn lookup_pair(v: &Vec<(u32, usize)>, id: u32) -> (r: Option<usize>)
    ensures
        r == pair_lookup(v@, id),
{
    let mut i: usize = 0;
    assert(v@.skip(0) =~= v@);
    while i < v.len()
        invariant
            i <= v@.len(),
            pair_lookup(v@, id) == pair_lookup(v@.skip(i as int), id),
        decreases v@.len() - i,
    {
        assert(v@.skip(i as int).drop_first() =~= v@.skip(i + 1));
        if v[i].0 == id {
            return Some(v[i].1);
        }
        i = i + 1;
    }
    None
}

/// The team paired with `id` in a (match id, team) list: the first one.
pub open spec fn pair_lookup(v: Seq<(u32, usize)>, id: u32) -> Option<usize>
    decreases v.len(),
{
    if v.len() == 0 {
        None
    } else if v[0].0 == id {
        Some(v[0].1)
    } else {
        pair_lookup(v.drop_first(), id)
    }
}

proof fn lemma_pair_lookup_assigned(out: Seq<(u32, usize)>, a: Seq<(u32, char)>, id: u32, data: Data)
    requires
        out.len() == a.len(),
        all_groups_complete(data),
        forall|k: int| 0 <= k < a.len() ==> is_group(#[trigger] a[k].1),
        forall|k: int|
            0 <= k < a.len() ==> #[trigger] out[k].0 == a[k].0 && out[k].1 == real_place(
                data,
                a[k].1,
                2,
            )->0,
    ensures
        pair_lookup(out, id) == match assigned_group(a, id) {
            Some(c) => real_place(data, c, 2),
            None => None,
        },
    decreases a.len(),
{
    if a.len() > 0 {
        assert(out[0].0 == a[0].0);
        assert(is_group(a[0].1));
        assert(group_complete(data, a[0].1 as int - 65));
        lemma_pair_lookup_assigned(out.drop_first(), a.drop_first(), id, data);
    }
}

/// (match id, third-placed team) for each third slot, from real results; empty until all
/// groups are done.
fn real_third_teams(data: &Data) -> (r: Vec<(u32, usize)>)
    requires
        data.indexed(),
        thirds_placeable(*data),
    ensures
        forall|id: u32| #[trigger] pair_lookup(r@, id) == real_third_for(*data, id),
{
    let order = match real_thirds_order(data) {
        Some(o) => o,
        None => {
            return Vec::new();
        },
    };
    let assigned = match slot_thirds(order.as_slice()) {
        Some(a) => a,
        None => {
            return Vec::new();
        },
    };
    let ghost a = assigned@;
    let mut out: Vec<(u32, usize)> = Vec::new();
    let mut i: usize = 0;
    while i < assigned.len()
        invariant
            data.indexed(),
            i <= assigned@.len(),
            assigned@ == a,
            real_third_assignment(*data) == Some(a),
            a.len() == 8,
            forall|k: int| 0 <= k < 8 ==> is_group(#[trigger] a[k].1),
            out@.len() == i,
            forall|k: int| 0 <= k < i ==> #[trigger] out@[k].0 == a[k].0 && out@[k].1 == real_place(*data, a[k].1, 2)->0,
        decreases assigned@.len() - i,
    {
        let (mid, g) = assigned[i];
        let st = real_group_standings(data, g);
        let team = match st {
            Some(s) => s[2],
            None => 0,
        };
        out.push((mid, team));
        i = i + 1;
    }
    proof {
        assert forall|id: u32| #[trigger] pair_lookup(out@, id) == real_third_for(*data, id) by {
            lemma_pair_lookup_assigned(out@, a, id, *data);
        }
    }
    out
}


/// The full name of a knockout round.
pub open spec fn round_title(r: crate::bracket::Round) -> Seq<char> {
    match r {
        crate::bracket::Round::R32 => seq!['R', 'o', 'u', 'n', 'd', ' ', 'o', 'f', ' ', '3', '2'],
        crate::bracket::Round::R16 => seq!['R', 'o', 'u', 'n', 'd', ' ', 'o', 'f', ' ', '1', '6'],
        crate::bracket::Round::Qf => seq!['Q', 'u', 'a', 'r', 't', 'e', 'r', 'f', 'i', 'n', 'a', 'l'],
        crate::bracket::Round::Sf => seq!['S', 'e', 'm', 'i', 'f', 'i', 'n', 'a', 'l'],
        crate::bracket::Round::Final => seq!['F', 'i', 'n', 'a', 'l'],
    }
}

/// The stage name of every bracket match is the name of the round it belongs to in the
/// bracket.
pub proof fn lemma_stage_name_by_round(j: int)
    requires
        0 <= j < 31,
    ensures
        stage_name_spec(knockout_spec()[j].id) == round_title(knockout_spec()[j].round),
{
    if j == 0 {} else if j == 1 {} else if j == 2 {} else if j == 3 {} else if j == 4 {} else if j == 5 {} else if j == 6 {} else if j == 7 {} else if j == 8 {} else if j == 9 {} else if j == 10 {} else if j == 11 {} else if j == 12 {} else if j == 13 {} else if j == 14 {} else if j == 15 {} else if j == 16 {} else if j == 17 {} else if j == 18 {} else if j == 19 {} else if j == 20 {} else if j == 21 {} else if j == 22 {} else if j == 23 {} else if j == 24 {} else if j == 25 {} else if j == 26 {} else if j == 27 {} else if j == 28 {} else if j == 29 {} else {}
}

/// Name of the knockout stage of match `id`.
pub open spec fn stage_name_spec(id: u32) -> Seq<char> {
    if 73 <= id && id <= 88 {
        seq!['R', 'o', 'u', 'n', 'd', ' ', 'o', 'f', ' ', '3', '2']
    } else if 73 <= id && id <= 96 {
        seq!['R', 'o', 'u', 'n', 'd', ' ', 'o', 'f', ' ', '1', '6']
    } else if 73 <= id && id <= 100 {
        seq!['Q', 'u', 'a', 'r', 't', 'e', 'r', 'f', 'i', 'n', 'a', 'l']
    } else if 73 <= id && id <= 102 {
        seq!['S', 'e', 'm', 'i', 'f', 'i', 'n', 'a', 'l']
    } else {
        seq!['F', 'i', 'n', 'a', 'l']
    }
}

/// Name of the knockout stage of match `id`: "Round of 32" (73-88), "Round of 16"
/// (89-96), "Quarterfinal" (97-100), "Semifinal" (101-102), else "Final".
pub fn stage_name(id: u32) -> (s: String)
    ensures
        s@ == stage_name_spec(id),
{
    let mut s = String::new();
    if 73 <= id && id <= 88 {
        let lit = "Round of 32";
        proof {
            reveal_strlit("Round of 32");
        }
        s.append(lit);
    } else if 73 <= id && id <= 96 {
        let lit = "Round of 16";
        proof {
            reveal_strlit("Round of 16");
        }
        s.append(lit);
    } else if 73 <= id && id <= 100 {
        let lit = "Quarterfinal";
        proof {
            reveal_strlit("Quarterfinal");
        }
        s.append(lit);
    } else if 73 <= id && id <= 102 {
        let lit = "Semifinal";
        proof {
            reveal_strlit("Semifinal");
        }
        s.append(lit);
    } else {
        let lit = "Final";
        proof {
            reveal_strlit("Final");
        }
        s.append(lit);
    }
    assert(s@ =~= stage_name_spec(id));
    s
}

/// Label of a group match: "Group <letter> · MD<matchday>".
pub open spec fn group_stage_spec(g: char, md: nat) -> Seq<char> {
    seq!['G', 'r', 'o', 'u', 'p', ' '].push(g) + seq![' ', '·', ' ', 'M', 'D'] + decimal(md)
}

/// Label of a group match, such as "Group A · MD1".
pub fn group_stage(g: char, md: u64) -> (s: String)
    ensures
        s@ == group_stage_spec(g, md as nat),
{
    let mut s = String::new();
    let a = "Group ";
    let b = " · MD";
    proof {
        reveal_strlit("Group ");
        reveal_strlit(" · MD");
    }
    s.append(a);
    push_char(&mut s, g);
    s.append(b);
    push_decimal(&mut s, md);
    assert(s@ =~= group_stage_spec(g, md as nat));
    s
}

/// The team that fills side `src` of knockout match `i`, given the real group places, the
/// third-placed teams per slot, and the winners of earlier matches.
fn resolve_real(
    data: &Data,
    src: Source,
    i: usize,
    places: &Vec<Option<[usize; 4]>>,
    thirds: &Vec<(u32, usize)>,
    won: &Vec<Option<usize>>,
) -> (r: Option<usize>)
    requires
        data.indexed(),
        i < 31,
        places@.len() == 12,
        forall|g: int| 0 <= g < 12 ==> (#[trigger] places@[g] is Some <==> group_complete(*data, g)),
        forall|g: int, p: int|
            0 <= g < 12 && 0 <= p < 4 && places@[g] is Some ==> #[trigger] places@[g]->0[p]
                == real_place(*data, group_letter(g), p)->0,
        forall|id: u32| #[trigger] pair_lookup(thirds@, id) == real_third_for(*data, id),
        won@.len() == i,
        forall|j: int| 0 <= j < i ==> #[trigger] won@[j] == real_winner(*data, j),
    ensures
        r == real_source(*data, src, i as int),
{
    match src {
        Source::Winner(g) => {
            if 'A' <= g && g <= 'L' {
                let gi = (g as u32 - 65) as usize;
                match places[gi] {
                    Some(st) => Some(st[0]),
                    None => None,
                }
            } else {
                None
            }
        },
        Source::RunnerUp(g) => {
            if 'A' <= g && g <= 'L' {
                let gi = (g as u32 - 65) as usize;
                match places[gi] {
                    Some(st) => Some(st[1]),
                    None => None,
                }
            } else {
                None
            }
        },
        Source::Third => {
            let ko = knockout();
            lookup_pair(thirds, ko[i].id)
        },
        Source::MatchWinner(n) => {
            if n >= 73 && n <= 102 && ((n - 73) as usize) < i {
                won[(n - 73) as usize]
            } else {
                None
            }
        },
    }
}

/// Both sides of every knockout match, in bracket order, once real results decide them.
fn real_ko_sides(data: &Data) -> (r: Vec<Option<(usize, usize)>>)
    requires
        data.indexed(),
        thirds_placeable(*data),
    ensures
        r@.len() == 31,
        forall|i: int| 0 <= i < 31 ==> #[trigger] r@[i] == real_sides(*data, i),
{
    let places = real_places(data);
    let thirds = real_third_teams(data);
    let ko = knockout();
    let mut won: Vec<Option<usize>> = Vec::new();
    let mut sides: Vec<Option<(usize, usize)>> = Vec::new();
    let mut i: usize = 0;
    while i < ko.len()
        invariant
            data.indexed(),
            ko@ == knockout_spec(),
            i <= 31,
            places@.len() == 12,
            forall|g: int| 0 <= g < 12 ==> (#[trigger] places@[g] is Some <==> group_complete(*data, g)),
            forall|g: int, p: int|
                0 <= g < 12 && 0 <= p < 4 && places@[g] is Some ==> #[trigger] places@[g]->0[p]
                    == real_place(*data, group_letter(g), p)->0,
            forall|id: u32| #[trigger] pair_lookup(thirds@, id) == real_third_for(*data, id),
            won@.len() == i,
            forall|j: int| 0 <= j < i ==> #[trigger] won@[j] == real_winner(*data, j),
            sides@.len() == i,
            forall|j: int| 0 <= j < i ==> #[trigger] sides@[j] == real_sides(*data, j),
        decreases 31 - i,
    {
        let km = ko[i];
        let a = resolve_real(data, km.a, i, &places, &thirds, &won);
        let b = resolve_real(data, km.b, i, &places, &thirds, &won);
        let s = match (a, b) {
            (Some(h), Some(w)) => Some((h, w)),
            _ => None,
        };
        assert(s == real_sides(*data, i as int));
        let w = match s {
            Some((h, aw)) => match data.ko_score(i) {
                Some((gh, ga, away_won)) => {
                    if gh != ga {
                        if gh > ga {
                            Some(h)
                        } else {
                            Some(aw)
                        }
                    } else if away_won {
                        Some(aw)
                    } else {
                        Some(h)
                    }
                },
                None => None,
            },
            None => None,
        };
        assert(w == real_winner(*data, i as int));
        won.push(w);
        sides.push(s);
        i = i + 1;
    }
    sides
}

/// One group fixture as listed by `determined_matches`: (id, home team, away team).
pub open spec fn group_entry(data: Data, g: int, k: int) -> (Seq<char>, usize, usize) {
    let (hp, ap) = group_fixture(k);
    (
        group_match_id_spec(group_letter(g), hp as nat, ap as nat),
        data.member(g, hp - 1),
        data.member(g, ap - 1),
    )
}

/// All fixtures of groups `0..g`, in order.
pub open spec fn group_entries(data: Data, g: int) -> Seq<(Seq<char>, usize, usize)>
    decreases g,
{
    if g <= 0 {
        seq![]
    } else {
        group_entries(data, g - 1) + Seq::new(6, |k: int| group_entry(data, g - 1, k))
    }
}

/// Knockout matches `0..n` whose two sides are decided by real results: (id, home, away).
pub open spec fn ko_entries(data: Data, n: int) -> Seq<(Seq<char>, usize, usize)>
    decreases n,
{
    if n <= 0 {
        seq![]
    } else {
        let prev = ko_entries(data, n - 1);
        match real_sides(data, n - 1) {
            Some((h, a)) => prev.push((ko_match_id_spec(knockout_spec()[n - 1].id as nat), h, a)),
            None => prev,
        }
    }
}

/// Every fixture whose participants are determined: all group matches, then the knockout
/// matches whose feeders are decided by real results.
pub open spec fn determined_spec(data: Data) -> Seq<(Seq<char>, usize, usize)> {
    group_entries(data, 12) + ko_entries(data, 31)
}

/// Every fixture whose participants are determined: all group matches, plus knockout matches
/// once their feeders are decided by real results. Returns (match_id, home_idx, away_idx).
pub fn determined_matches(data: &Data) -> (r: Vec<(String, usize, usize)>)
    requires
        data.indexed(),
        thirds_placeable(*data),
    ensures
        r@.len() == determined_spec(*data).len(),
        forall|i: int|
            0 <= i < r@.len() ==> {
                let e = #[trigger] determined_spec(*data)[i];
                &&& r@[i].0@ == e.0
                &&& r@[i].1 == e.1
                &&& r@[i].2 == e.2
            },
{
    let letters = crate::bracket::all_groups();
    let mut out: Vec<(String, usize, usize)> = Vec::new();
    let ghost mut model: Seq<(Seq<char>, usize, usize)> = seq![];
    let mut g: usize = 0;
    while g < 12
        invariant
            g <= 12,
            data.indexed(),
            forall|h: int| 0 <= h < 12 ==> #[trigger] letters[h] == group_letter(h),
            model == group_entries(*data, g as int),
            out@.len() == model.len(),
            forall|i: int|
                0 <= i < out@.len() ==> {
                    let e = #[trigger] model[i];
                    &&& out@[i].0@ == e.0
                    &&& out@[i].1 == e.1
                    &&& out@[i].2 == e.2
                },
        decreases 12 - g,
    {
        let teams = data.group_teams(letters[g]);
        let ghost base = model;
        let mut k: usize = 0;
        while k < 6
            invariant
                k <= 6,
                g < 12,
                data.indexed(),
                letters[g as int] == group_letter(g as int),
                teams@ == data.group_index@[g as int]@,
                teams@.len() == 4,
                model == base + Seq::new(k as nat, |m: int| group_entry(*data, g as int, m)),
                out@.len() == model.len(),
                forall|i: int|
                    0 <= i < out@.len() ==> {
                        let e = #[trigger] model[i];
                        &&& out@[i].0@ == e.0
                        &&& out@[i].1 == e.1
                        &&& out@[i].2 == e.2
                    },
            decreases 6 - k,
        {
            let (hp, ap) = fixture(k);
            let id = group_match_id(letters[g], hp, ap);
            out.push((id, teams[hp - 1], teams[ap - 1]));
            proof {
                let m2 = base + Seq::new((k + 1) as nat, |m: int| group_entry(*data, g as int, m));
                assert(m2 =~= model.push(group_entry(*data, g as int, k as int)));
                model = m2;
            }
            k = k + 1;
        }
        proof {
            assert(group_entries(*data, g + 1) =~= base + Seq::new(6, |m: int| group_entry(*data, g as int, m)));
        }
        g = g + 1;
    }
    let sides = real_ko_sides(data);
    let ko = knockout();
    let ghost gpart = model;
    let mut i: usize = 0;
    while i < 31
        invariant
            i <= 31,
            data.indexed(),
            ko@ == knockout_spec(),
            sides@.len() == 31,
            forall|j: int| 0 <= j < 31 ==> #[trigger] sides@[j] == real_sides(*data, j),
            gpart == group_entries(*data, 12),
            model == gpart + ko_entries(*data, i as int),
            out@.len() == model.len(),
            forall|m: int|
                0 <= m < out@.len() ==> {
                    let e = #[trigger] model[m];
                    &&& out@[m].0@ == e.0
                    &&& out@[m].1 == e.1
                    &&& out@[m].2 == e.2
                },
        decreases 31 - i,
    {
        match sides[i] {
            Some((h, a)) => {
                let id = ko_match_id(ko[i].id);
                out.push((id, h, a));
                proof {
                    let m2 = gpart + ko_entries(*data, i + 1);
                    assert(m2 =~= model.push((ko_match_id_spec(knockout_spec()[i as int].id as nat), h, a)));
                    model = m2;
                }
            },
            None => {
                proof {
                    assert(ko_entries(*data, i + 1) == ko_entries(*data, i as int));
                }
            },
        }
        i = i + 1;
    }
    out
}

/// A match with a real result: stage label, home and away team, and the score. The
/// model's pre-match odds for it are computed by the caller.
#[derive(Debug)]
pub struct Played {
    pub stage: String,
    pub home: usize,
    pub away: usize,
    pub gh: u32,
    pub ga: u32,
}

impl View for Played {
    type V = (Seq<char>, usize, usize, u32, u32);

    open spec fn view(&self) -> Self::V {
        (self.stage@, self.home, self.away, self.gh, self.ga)
    }
}

/// The played entry for fixture `k` of group `g`, if its result is in.
pub open spec fn played_group_entry(data: Data, g: int, k: int) -> Seq<(Seq<char>, usize, usize, u32, u32)> {
    let (hp, ap) = group_fixture(k);
    match group_score_spec(data.results@, g, k) {
        Some((h, a)) => seq![
            (
                group_stage_spec(group_letter(g), (k / 2 + 1) as nat),
                data.member(g, hp - 1),
                data.member(g, ap - 1),
                h,
                a,
            ),
        ],
        None => seq![],
    }
}

/// Played fixtures `0..k` of group `g`, in order.
pub open spec fn played_in_group(data: Data, g: int, k: int) -> Seq<(Seq<char>, usize, usize, u32, u32)>
    decreases k,
{
    if k <= 0 {
        seq![]
    } else {
        played_in_group(data, g, k - 1) + played_group_entry(data, g, k - 1)
    }
}

/// Played fixtures of groups `0..g`, in order.
pub open spec fn played_groups(data: Data, g: int) -> Seq<(Seq<char>, usize, usize, u32, u32)>
    decreases g,
{
    if g <= 0 {
        seq![]
    } else {
        played_groups(data, g - 1) + played_in_group(data, g - 1, 6)
    }
}

/// Played knockout matches among `0..n` whose sides are decided by real results.
pub open spec fn played_ko(data: Data, n: int) -> Seq<(Seq<char>, usize, usize, u32, u32)>
    decreases n,
{
    if n <= 0 {
        seq![]
    } else {
        let prev = played_ko(data, n - 1);
        match (real_sides(data, n - 1), ko_score_spec(data.results@, n - 1)) {
            (Some((h, a)), Some((gh, ga, _))) => prev.push(
                (stage_name_spec(knockout_spec()[n - 1].id), h, a, gh, ga),
            ),
            _ => prev,
        }
    }
}

/// All matches with a real result, group matches first.
pub open spec fn played_spec(data: Data) -> Seq<(Seq<char>, usize, usize, u32, u32)> {
    played_groups(data, 12) + played_ko(data, 31)
}

/// All matches that have a real result: every played group match (group by group, in
/// fixture order), then every played knockout match whose sides real results decide.
pub fn played_matches(data: &Data) -> (r: Vec<Played>)
    requires
        data.indexed(),
        thirds_placeable(*data),
    ensures
        r@.len() == played_spec(*data).len(),
        forall|i: int| 0 <= i < r@.len() ==> #[trigger] r@[i]@ == played_spec(*data)[i],
{
    let letters = crate::bracket::all_groups();
    let mut out: Vec<Played> = Vec::new();
    let ghost mut model: Seq<(Seq<char>, usize, usize, u32, u32)> = seq![];
    let mut g: usize = 0;
    while g < 12
        invariant
            g <= 12,
            data.indexed(),
            forall|h: int| 0 <= h < 12 ==> #[trigger] letters[h] == group_letter(h),
            model == played_groups(*data, g as int),
            out@.len() == model.len(),
            forall|i: int| 0 <= i < out@.len() ==> #[trigger] out@[i]@ == model[i],
        decreases 12 - g,
    {
        let teams = data.group_teams(letters[g]);
        let ghost base = model;
        let mut k: usize = 0;
        while k < 6
            invariant
                k <= 6,
                g < 12,
                data.indexed(),
                letters[g as int] == group_letter(g as int),
                teams@ == data.group_index@[g as int]@,
                teams@.len() == 4,
                model == base + played_in_group(*data, g as int, k as int),
                out@.len() == model.len(),
                forall|i: int| 0 <= i < out@.len() ==> #[trigger] out@[i]@ == model[i],
            decreases 6 - k,
        {
            let (hp, ap) = fixture(k);
            match data.group_score(g, k) {
                Some((h, a)) => {
                    let stage = group_stage(letters[g], (k / 2 + 1) as u64);
                    let p = Played { stage, home: teams[hp - 1], away: teams[ap - 1], gh: h, ga: a };
                    let ghost pv = p@;
                    out.push(p);
                    proof {
                        assert(played_group_entry(*data, g as int, k as int) =~= seq![pv]);
                        assert(base + played_in_group(*data, g as int, k + 1) =~= model.push(pv));
                        model = model.push(pv);
                    }
                },
                None => {
                    proof {
                        assert(played_group_entry(*data, g as int, k as int) =~= seq![]);
                        assert(base + played_in_group(*data, g as int, k + 1) =~= model);
                    }
                },
            }
            k = k + 1;
        }
        g = g + 1;
    }
    let sides = real_ko_sides(data);
    let ko = knockout();
    let ghost gpart = model;
    let mut i: usize = 0;
    while i < 31
        invariant
            i <= 31,
            data.indexed(),
            ko@ == knockout_spec(),
            sides@.len() == 31,
            forall|j: int| 0 <= j < 31 ==> #[trigger] sides@[j] == real_sides(*data, j),
            gpart == played_groups(*data, 12),
            model == gpart + played_ko(*data, i as int),
            out@.len() == model.len(),
            forall|m: int| 0 <= m < out@.len() ==> #[trigger] out@[m]@ == model[m],
        decreases 31 - i,
    {
        match (sides[i], data.ko_score(i)) {
            (Some((h, a)), Some((gh, ga, _))) => {
                let stage = stage_name(ko[i].id);
                let p = Played { stage, home: h, away: a, gh, ga };
                let ghost pv = p@;
                out.push(p);
                proof {
                    assert(gpart + played_ko(*data, i + 1) =~= model.push(pv));
                    model = model.push(pv);
                }
            },
            _ => {
                proof {
                    assert(played_ko(*data, i + 1) == played_ko(*data, i as int));
                }
            },
        }
        i = i + 1;
    }
    out
}

/// The played entries that a list of determined knockout fixtures gives: each fixture whose
/// id has a real result, in order, with its stage name, its two teams and the real score.
pub open spec fn played_from(data: Data, e: Seq<(Seq<char>, usize, usize)>) -> Seq<
    (Seq<char>, usize, usize, u32, u32),
>
    decreases e.len(),
{
    if e.len() == 0 {
        seq![]
    } else {
        let prev = played_from(data, e.drop_last());
        let (id, h, a) = e.last();
        match result_lookup(data.results@, id) {
            Some(r) => prev.push((stage_name_spec(ko_number(id)->0), h, a, r.home, r.away)),
            None => prev,
        }
    }
}

proof fn lemma_group_entries_len(data: Data, g: int)
    requires
        0 <= g,
    ensures
        group_entries(data, g).len() == 6 * g,
    decreases g,
{
    if g > 0 {
        lemma_group_entries_len(data, g - 1);
    }
}

proof fn lemma_played_ko_from(data: Data, n: int)
    requires
        0 <= n <= 31,
    ensures
        played_ko(data, n) == played_from(data, ko_entries(data, n)),
    decreases n,
{
    if n > 0 {
        lemma_played_ko_from(data, n - 1);
        let id = knockout_spec()[n - 1].id;
        lemma_parse_decimal(id);
        assert(ko_match_id_spec(id as nat).drop_first() =~= decimal(id as nat));
        match real_sides(data, n - 1) {
            Some((h, a)) => {
                let e = ko_entries(data, n);
                assert(e.drop_last() == ko_entries(data, n - 1));
            },
            None => {},
        }
    }
}

/// After the group matches, the played matches are exactly the determined knockout fixtures
/// that have a real result, in the same order, with the same teams, the real score and the
/// stage name of the match.
pub proof fn lemma_played_follows_determined(data: Data)
    ensures
        determined_spec(data).len() >= 72,
        played_spec(data) == played_groups(data, 12) + played_from(data, determined_spec(data).skip(72)),
{
    lemma_group_entries_len(data, 12);
    assert(determined_spec(data).skip(72) =~= ko_entries(data, 31));
    lemma_played_ko_from(data, 31);
}

} // verus!
