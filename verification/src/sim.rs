use vstd::prelude::*;
use crate::bracket::{knockout, knockout_spec, slots_view, Round};
use std::collections::HashMap;
use crate::model::Data;
use crate::standings::{group_keys, is_ranking, lemma_stats_bounds, rank, ranks_before};
use crate::tournament::{count, round_index, span, TournamentRun};
use crate::bracket::{group_letter, is_group, ko_index, lemma_bracket_shape, round_at, third_slots_spec, Source};
use crate::standings::{lemma_points_at_most_nine, lemma_ranking_exists};

verus! {

/// `c` chooses, for each slot from `s` on, a distinct third-placed group (by index into
/// `thirds`) that is not yet `used` and that the slot accepts.
pub open spec fn valid_choice(
    thirds: Seq<char>,
    slots: Seq<(u32, Seq<char>)>,
    s: int,
    used: Seq<bool>,
    c: Seq<usize>,
) -> bool {
    &&& c.len() == slots.len() - s
    &&& forall|k: int|
        0 <= k < c.len() ==> {
            &&& #[trigger] c[k] < thirds.len()
            &&& !used[c[k] as int]
            &&& slots[s + k].1.contains(thirds[c[k] as int])
        }
    &&& forall|k1: int, k2: int| 0 <= k1 < c.len() && 0 <= k2 < c.len() && k1 != k2 ==> c[k1] != c[k2]
}

/// A complete valid assignment of all slots exists.
pub open spec fn assignable(thirds: Seq<char>, slots: Seq<(u32, Seq<char>)>) -> bool {
    exists|c: Seq<usize>| #[trigger] valid_choice(thirds, slots, 0, none_used(thirds.len()), c)
}

/// No group used yet.
pub open spec fn none_used(n: nat) -> Seq<bool> {
    Seq::new(n, |i: int| false)
}

/// `r` is the assignment described by the index choice `c`: slot `i` gets group `thirds[c[i]]`.
pub open spec fn describes(
    thirds: Seq<char>,
    slots: Seq<(u32, Seq<char>)>,
    c: Seq<usize>,
    r: Seq<(u32, char)>,
) -> bool {
    &&& r.len() == slots.len()
    &&& c.len() == slots.len()
    &&& forall|i: int| 0 <= i < r.len() ==> #[trigger] r[i] == (slots[i].0, thirds[c[i] as int])
}

/// `c1` comes before `c2` in lexicographic order.
pub open spec fn lex_less(c1: Seq<usize>, c2: Seq<usize>) -> bool {
    exists|i: int|
        0 <= i < c1.len() && i < c2.len() && c1.subrange(0, i) == c2.subrange(0, i) && #[trigger] c1[i]
            < c2[i]
}

/// `c` is the lexicographically first valid choice for slots `s..` given `used`.
pub open spec fn least_choice(
    thirds: Seq<char>,
    slots: Seq<(u32, Seq<char>)>,
    s: int,
    used: Seq<bool>,
    c: Seq<usize>,
) -> bool {
    &&& valid_choice(thirds, slots, s, used, c)
    &&& forall|c2: Seq<usize>| #[trigger]
        valid_choice(thirds, slots, s, used, c2) ==> c2 == c || lex_less(c, c2)
}

/// The first valid choice for all slots, trying slots in order and groups in the given order.
pub open spec fn third_choice(thirds: Seq<char>, slots: Seq<(u32, Seq<char>)>) -> Seq<usize> {
    choose|c: Seq<usize>| least_choice(thirds, slots, 0, none_used(thirds.len()), c)
}

/// The assignment that `match_thirds` returns: the first valid one in the order that the
/// search tries (slots in order, groups in the given order), or `None` if there is none.
pub open spec fn third_assignment(thirds: Seq<char>, slots: Seq<(u32, Seq<char>)>) -> Option<
    Seq<(u32, char)>,
> {
    if assignable(thirds, slots) {
        Some(
            Seq::new(
                slots.len(),
                |i: int| (slots[i].0, thirds[third_choice(thirds, slots)[i] as int]),
            ),
        )
    } else {
        None
    }
}

proof fn lemma_least_unique(
    thirds: Seq<char>,
    slots: Seq<(u32, Seq<char>)>,
    s: int,
    used: Seq<bool>,
    c1: Seq<usize>,
    c2: Seq<usize>,
)
    requires
        least_choice(thirds, slots, s, used, c1),
        least_choice(thirds, slots, s, used, c2),
    ensures
        c1 == c2,
{
    if c1 != c2 {
        assert(lex_less(c1, c2));
        assert(lex_less(c2, c1));
        let i1 = choose|i: int|
            0 <= i < c1.len() && i < c2.len() && c1.subrange(0, i) == c2.subrange(0, i) && #[trigger] c1[i]
                < c2[i];
        let i2 = choose|i: int|
            0 <= i < c2.len() && i < c1.len() && c2.subrange(0, i) == c1.subrange(0, i) && #[trigger] c2[i]
                < c1[i];
        if i2 < i1 {
            assert(c1.subrange(0, i1)[i2] == c2.subrange(0, i1)[i2]);
        } else if i1 < i2 {
            assert(c2.subrange(0, i2)[i1] == c1.subrange(0, i2)[i1]);
        }
    }
}

/// `r` gives every slot, in order, a distinct accepted group from `thirds`.
pub open spec fn is_third_assignment(
    thirds: Seq<char>,
    slots: Seq<(u32, Seq<char>)>,
    r: Seq<(u32, char)>,
) -> bool {
    exists|c: Seq<usize>|
        valid_choice(thirds, slots, 0, none_used(thirds.len()), c) && #[trigger] describes(
            thirds,
            slots,
            c,
            r,
        )
}

fn vec_has_char(v: &Vec<char>, x: char) -> (r: bool)
    ensures
        r == v@.contains(x),
{
    let mut i: usize = 0;
    while i < v.len()
        invariant
            i <= v.len(),
            forall|k: int| 0 <= k < i ==> v@[k] != x,
        decreases v.len() - i,
    {
        if v[i] == x {
            return true;
        }
        i = i + 1;
    }
    false
}

proof fn lemma_choice_tail(
    thirds: Seq<char>,
    slots: Seq<(u32, Seq<char>)>,
    s: int,
    used: Seq<bool>,
    c: Seq<usize>,
)
    requires
        0 <= s < slots.len(),
        used.len() == thirds.len(),
        valid_choice(thirds, slots, s, used, c),
    ensures
        valid_choice(thirds, slots, s + 1, used.update(c[0] as int, true), c.drop_first()),
{
    let t = c.drop_first();
    let u = used.update(c[0] as int, true);
    assert forall|k: int| 0 <= k < t.len() implies {
        &&& #[trigger] t[k] < thirds.len()
        &&& !u[t[k] as int]
        &&& slots[s + 1 + k].1.contains(thirds[t[k] as int])
    } by {
        assert(t[k] == c[k + 1]);
        assert(c[k + 1] != c[0]);
    }
}

proof fn lemma_choice_cons(
    thirds: Seq<char>,
    slots: Seq<(u32, Seq<char>)>,
    s: int,
    used: Seq<bool>,
    j: usize,
    t: Seq<usize>,
)
    requires
        0 <= s < slots.len(),
        used.len() == thirds.len(),
        j < thirds.len(),
        !used[j as int],
        slots[s].1.contains(thirds[j as int]),
        valid_choice(thirds, slots, s + 1, used.update(j as int, true), t),
    ensures
        valid_choice(thirds, slots, s, used, seq![j].add(t)),
{
    let c = seq![j].add(t);
    let u = used.update(j as int, true);
    assert forall|k: int| 0 <= k < c.len() implies {
        &&& #[trigger] c[k] < thirds.len()
        &&& !used[c[k] as int]
        &&& slots[s + k].1.contains(thirds[c[k] as int])
    } by {
        if k > 0 {
            assert(c[k] == t[k - 1]);
            assert(!u[t[k - 1] as int]);
        }
    }
    assert forall|k1: int, k2: int| 0 <= k1 < c.len() && 0 <= k2 < c.len() && k1 != k2 implies c[k1]
        != c[k2] by {
        if k1 > 0 && k2 > 0 {
            assert(c[k1] == t[k1 - 1]);
            assert(c[k2] == t[k2 - 1]);
        } else if k1 == 0 {
            assert(c[k2] == t[k2 - 1]);
            assert(!u[t[k2 - 1] as int]);
        } else {
            assert(c[k1] == t[k1 - 1]);
            assert(!u[t[k1 - 1] as int]);
        }
    }
}

/// Backtracking search: fill slots `s..` with distinct unused accepted groups.
fn solve_thirds(
    s: usize,
    slots: &[(u32, Vec<char>)],
    thirds: &[char],
    used: &mut Vec<bool>,
    assignment: &mut Vec<usize>,
) -> (found: bool)
    requires
        s <= slots@.len(),
        old(used)@.len() == thirds@.len(),
        old(assignment)@.len() == slots@.len(),
    ensures
        final(assignment)@.len() == slots@.len(),
        final(used)@.len() == thirds@.len(),
        final(assignment)@.subrange(0, s as int) == old(assignment)@.subrange(0, s as int),
        found ==> least_choice(
            thirds@,
            slots_view(slots@),
            s as int,
            old(used)@,
            final(assignment)@.subrange(s as int, slots@.len() as int),
        ),
        !found ==> final(used)@ == old(used)@,
        !found ==> forall|c: Seq<usize>| !valid_choice(thirds@, slots_view(slots@), s as int, old(used)@, c),
    decreases slots@.len() - s,
{
    if s == slots.len() {
        assert(valid_choice(thirds@, slots_view(slots@), s as int, old(used)@, assignment@.subrange(s as int, slots@.len() as int)));
        assert forall|c2: Seq<usize>| #[trigger]
            valid_choice(thirds@, slots_view(slots@), s as int, old(used)@, c2) implies c2
            == assignment@.subrange(s as int, slots@.len() as int) || lex_less(
            assignment@.subrange(s as int, slots@.len() as int),
            c2,
        ) by {
            assert(c2 =~= assignment@.subrange(s as int, slots@.len() as int));
        }
        return true;
    }
    let ghost used0 = used@;
    let ghost asg0 = assignment@;
    assert(used0 == old(used)@ && asg0 == old(assignment)@);
    let mut j: usize = 0;
    while j < thirds.len()
        invariant
            s < slots@.len(),
            j <= thirds@.len(),
            used@ == used0,
            used0 == old(used)@,
            asg0 == old(assignment)@,
            used0.len() == thirds@.len(),
            assignment@.len() == slots@.len(),
            assignment@.subrange(0, s as int) == asg0.subrange(0, s as int),
            forall|c: Seq<usize>| #[trigger]
                valid_choice(thirds@, slots_view(slots@), s as int, used0, c) ==> c[0] >= j,
        decreases thirds@.len() - j,
    {
        let g = thirds[j];
        assert(slots_view(slots@)[s as int].1 == slots@[s as int].1@);
        if !used[j] && vec_has_char(&slots[s].1, g) {
            used.set(j, true);
            assignment.set(s, j);
            let ghost asg1 = assignment@;
            let ok = solve_thirds(s + 1, slots, thirds, used, assignment);
            if ok {
                proof {
                    let t = assignment@.subrange(s + 1, slots@.len() as int);
                    lemma_choice_cons(thirds@, slots_view(slots@), s as int, used0, j, t);
                    let pre = assignment@.subrange(0, s + 1);
                    assert(pre[s as int] == asg1.subrange(0, s + 1)[s as int]);
                    assert(assignment@[s as int] == asg1[s as int]);
                    assert(assignment@.subrange(0, s as int) =~= pre.subrange(0, s as int));
                    assert(asg1.subrange(0, s as int) =~= asg0.subrange(0, s as int));
                    assert(assignment@.subrange(s as int, slots@.len() as int) =~= seq![j].add(t));
                    assert(assignment@.subrange(0, s as int) =~= asg1.subrange(0, s as int));
                    assert(assignment@.subrange(0, s as int) =~= old(assignment)@.subrange(0, s as int));
                    let res = assignment@.subrange(s as int, slots@.len() as int);
                    assert(valid_choice(thirds@, slots_view(slots@), s as int, old(used)@, res));
                    assert forall|c2: Seq<usize>| #[trigger]
                        valid_choice(thirds@, slots_view(slots@), s as int, used0, c2) implies c2 == res
                        || lex_less(res, c2) by {
                        if c2[0] > j {
                            assert(res.subrange(0, 0) =~= c2.subrange(0, 0));
                            assert(res[0] < c2[0]);
                        } else {
                            lemma_choice_tail(thirds@, slots_view(slots@), s as int, used0, c2);
                            assert(used0.update(j as int, true) =~= asg_used(used0, j));
                            let t2 = c2.drop_first();
                            assert(valid_choice(thirds@, slots_view(slots@), s + 1, used0.update(j as int, true), t2));
                            assert(c2 =~= seq![j].add(t2));
                            if t2 != t {
                                assert(lex_less(t, t2));
                                let i = choose|i: int|
                                    0 <= i < t.len() && i < t2.len() && t.subrange(0, i) == t2.subrange(0, i)
                                        && #[trigger] t[i] < t2[i];
                                assert(res[i + 1] == t[i]);
                                assert(c2[i + 1] == t2[i]);
                                assert(res.subrange(0, i + 1) =~= c2.subrange(0, i + 1)) by {
                                    assert forall|m: int| 0 <= m < i + 1 implies #[trigger] res.subrange(0, i + 1)[m] == c2.subrange(0, i + 1)[m] by {
                                        if m > 0 {
                                            assert(t.subrange(0, i)[m - 1] == t2.subrange(0, i)[m - 1]);
                                        }
                                    }
                                }
                                assert(res[i + 1] < c2[i + 1]);
                            } else {
                                assert(c2 =~= res);
                            }
                        }
                    }
                }
                return true;
            }
            used.set(j, false);
            proof {
                assert(used@ =~= used0);
                assert(assignment@.subrange(0, s as int) =~= asg1.subrange(0, s as int));
                assert forall|c: Seq<usize>| #[trigger]
                    valid_choice(thirds@, slots_view(slots@), s as int, used0, c) implies c[0] >= j + 1 by {
                    if c[0] == j {
                        lemma_choice_tail(thirds@, slots_view(slots@), s as int, used0, c);
                        assert(used0.update(j as int, true) =~= asg_used(used0, j));
                    }
                }
            }
        } else {
            proof {
                assert forall|c: Seq<usize>| #[trigger]
                    valid_choice(thirds@, slots_view(slots@), s as int, used0, c) implies c[0] >= j + 1 by {
                    if c[0] == j {
                        assert(c[0 as int] < thirds@.len());
                        assert(slots_view(slots@)[s as int + 0].1.contains(thirds@[c[0] as int]));
                    }
                }
            }
        }
        j = j + 1;
    }
    proof {
        assert forall|c: Seq<usize>| !valid_choice(thirds@, slots_view(slots@), s as int, used0, c) by {
            if valid_choice(thirds@, slots_view(slots@), s as int, used0, c) {
                assert(c[0 as int] < thirds@.len());
            }
        }
    }
    false
}

spec fn asg_used(used: Seq<bool>, j: usize) -> Seq<bool> {
    used.update(j as int, true)
}

/// Assigns the qualified third-placed groups to the bracket slots that accept them: a perfect
/// matching in which every slot gets a distinct group from `third_groups` that the slot lists.
/// `None` exactly when no such matching exists.
pub fn match_thirds(third_groups: &[char], slots: &[(u32, Vec<char>)]) -> (r: Option<Vec<(u32, char)>>)
    ensures
        r is None <==> !assignable(third_groups@, slots_view(slots@)),
        r matches Some(v) ==> is_third_assignment(third_groups@, slots_view(slots@), v@),
        r matches Some(v) ==> third_assignment(third_groups@, slots_view(slots@)) == Some(v@),
{
    let mut used: Vec<bool> = Vec::new();
    let mut k: usize = 0;
    while k < third_groups.len()
        invariant
            k <= third_groups@.len(),
            used@ == Seq::new(k as nat, |i: int| false),
        decreases third_groups@.len() - k,
    {
        used.push(false);
        k = k + 1;
        assert(used@ =~= Seq::new(k as nat, |i: int| false));
    }
    let mut assignment: Vec<usize> = Vec::new();
    let mut k: usize = 0;
    while k < slots.len()
        invariant
            k <= slots@.len(),
            assignment@.len() == k,
        decreases slots@.len() - k,
    {
        assignment.push(0);
        k = k + 1;
    }
    let ghost used0 = used@;
    assert(used0 =~= none_used(third_groups@.len()));
    let found = solve_thirds(0, slots, third_groups, &mut used, &mut assignment);
    if !found {
        assert(!assignable(third_groups@, slots_view(slots@)));
        return None;
    }
    let ghost c = assignment@.subrange(0, slots@.len() as int);
    assert(c =~= assignment@);
    let mut out: Vec<(u32, char)> = Vec::new();
    let mut i: usize = 0;
    while i < slots.len()
        invariant
            i <= slots@.len(),
            assignment@ == c,
            valid_choice(third_groups@, slots_view(slots@), 0, used0, c),
            least_choice(third_groups@, slots_view(slots@), 0, used0, c),
            used0 == none_used(third_groups@.len()),
            out@.len() == i,
            forall|m: int| 0 <= m < i ==> #[trigger] out@[m] == (slots@[m].0, third_groups@[c[m] as int]),
        decreases slots@.len() - i,
    {
        let j = assignment[i];
        assert(c[i as int] < third_groups@.len());
        out.push((slots[i].0, third_groups[j]));
        i = i + 1;
    }
    assert(describes(third_groups@, slots_view(slots@), c, out@));
    proof {
        assert(least_choice(third_groups@, slots_view(slots@), 0, none_used(third_groups@.len()), c));
        lemma_least_unique(
            third_groups@,
            slots_view(slots@),
            0,
            none_used(third_groups@.len()),
            c,
            third_choice(third_groups@, slots_view(slots@)),
        );
        assert(out@ =~= third_assignment(third_groups@, slots_view(slots@))->0);
    }
    assert(valid_choice(third_groups@, slots_view(slots@), 0, none_used(third_groups@.len()), c));
    Some(out)
}

/// Which of the twelve groups occur in `groups` (index 0 = group A).
pub open spec fn group_mask(groups: Seq<char>) -> Seq<bool> {
    Seq::new(12, |g: int| groups.contains(group_letter(g)))
}

/// The letters of the groups `0..m` that `mask` marks, in alphabetical order.
pub open spec fn letters_in(mask: Seq<bool>, m: int) -> Seq<char>
    decreases m,
{
    if m <= 0 {
        Seq::empty()
    } else if mask[m - 1] {
        letters_in(mask, m - 1).push(group_letter(m - 1))
    } else {
        letters_in(mask, m - 1)
    }
}

/// The qualified third-placed groups in the order the slotting tries them: alphabetical,
/// whatever order `groups` lists them in.
#[verifier::opaque]
pub open spec fn canonical_thirds(groups: Seq<char>) -> Seq<char> {
    letters_in(group_mask(groups), 12)
}

/// Which slot gets which third-placed group, given the groups whose thirds went through:
/// the first valid assignment with the groups tried in alphabetical order, or `None` if
/// there is none. It depends only on which groups qualified (see `lemma_slotting_by_set`).
pub open spec fn slotting(groups: Seq<char>) -> Option<Seq<(u32, char)>> {
    third_assignment(canonical_thirds(groups), third_slots_spec())
}

/// `letters_in` lists group letters of marked groups, each once, in increasing order, and
/// every marked group.
pub proof fn lemma_letters_in(mask: Seq<bool>, m: int)
    requires
        0 <= m <= 12,
    ensures
        forall|j: int|
            0 <= j < letters_in(mask, m).len() ==> {
                let c = #[trigger] letters_in(mask, m)[j];
                &&& 0 <= c as int - 65 < m
                &&& is_group(c)
                &&& mask[c as int - 65]
                &&& c == group_letter(c as int - 65)
            },
        forall|j1: int, j2: int|
            0 <= j1 < j2 < letters_in(mask, m).len() ==> (#[trigger] letters_in(mask, m)[j1] as int) < (
            #[trigger] letters_in(mask, m)[j2] as int),
        forall|g: int| 0 <= g < m && mask[g] ==> #[trigger] letters_in(mask, m).contains(group_letter(g)),
    decreases m,
{
    if m > 0 {
        lemma_letters_in(mask, m - 1);
        let prev = letters_in(mask, m - 1);
        let cur = letters_in(mask, m);
        if mask[m - 1] {
            assert(cur == prev.push(group_letter(m - 1)));
            assert(cur[prev.len() as int] == group_letter(m - 1));
            assert forall|g: int| 0 <= g < m && mask[g] implies #[trigger] cur.contains(group_letter(g)) by {
                if g < m - 1 {
                    assert(prev.contains(group_letter(g)));
                    let j = choose|j: int| 0 <= j < prev.len() && prev[j] == group_letter(g);
                    assert(cur[j] == group_letter(g));
                } else {
                    assert(cur[prev.len() as int] == group_letter(g));
                }
            }
        }
    }
}

/// The slotting depends only on the set of groups whose thirds went through.
pub proof fn lemma_slotting_by_set(groups1: Seq<char>, groups2: Seq<char>)
    requires
        groups1.to_set() == groups2.to_set(),
    ensures
        slotting(groups1) == slotting(groups2),
{
    assert forall|g: int| 0 <= g < 12 implies #[trigger] group_mask(groups1)[g] == group_mask(groups2)[g] by {
        assert(groups1.contains(group_letter(g)) == groups1.to_set().contains(group_letter(g)));
        assert(groups2.contains(group_letter(g)) == groups2.to_set().contains(group_letter(g)));
    }
    assert(group_mask(groups1) =~= group_mask(groups2));
    reveal(canonical_thirds);
}

fn slice_has_char(v: &[char], x: char) -> (r: bool)
    ensures
        r == v@.contains(x),
{
    let mut i: usize = 0;
    while i < v.len()
        invariant
            i <= v@.len(),
            forall|k: int| 0 <= k < i ==> v@[k] != x,
        decreases v@.len() - i,
    {
        if v[i] == x {
            return true;
        }
        i = i + 1;
    }
    false
}

/// Slots the thirds of the given groups into the round of 32: the groups are put in
/// alphabetical order and the first valid assignment in that order is taken, so the result
/// depends only on which groups are given, not on their order. `None` exactly when no valid
/// assignment exists.
pub fn slot_thirds(groups: &[char]) -> (r: Option<Vec<(u32, char)>>)
    ensures
        r is None <==> slotting(groups@) is None,
        r matches Some(v) ==> slotting(groups@) == Some(v@),
        r matches Some(v) ==> is_third_assignment(canonical_thirds(groups@), third_slots_spec(), v@),
        r matches Some(v) ==> v@.len() == 8 && forall|k: int| 0 <= k < 8 ==> is_group(#[trigger] v@[k].1),
{
    let all = crate::bracket::all_groups();
    let ghost mask = group_mask(groups@);
    let mut sorted: Vec<char> = Vec::new();
    let mut g: usize = 0;
    while g < 12
        invariant
            g <= 12,
            mask == group_mask(groups@),
            forall|h: int| 0 <= h < 12 ==> #[trigger] all[h] == group_letter(h),
            sorted@ == letters_in(mask, g as int),
        decreases 12 - g,
    {
        if slice_has_char(groups, all[g]) {
            sorted.push(all[g]);
        }
        g = g + 1;
    }
    let slots = crate::bracket::third_slots();
    proof {
        lemma_bracket_shape();
        lemma_letters_in(mask, 12);
        reveal(canonical_thirds);
    }
    let r = match_thirds(sorted.as_slice(), slots.as_slice());
    proof {
        if r is Some {
            let v = r->0@;
            let c = choose|c: Seq<usize>|
                valid_choice(sorted@, slots_view(slots@), 0, none_used(sorted@.len()), c) && #[trigger] describes(
                    sorted@,
                    slots_view(slots@),
                    c,
                    v,
                );
            assert forall|k: int| 0 <= k < 8 implies is_group(#[trigger] v[k].1) by {
                assert(c[k] < sorted@.len());
                assert(v[k].1 == sorted@[c[k] as int]);
            }
        }
    }
    r
}

/// Sum of the entries.
pub open spec fn sum(v: Seq<u64>) -> int
    decreases v.len(),
{
    if v.len() == 0 {
        0
    } else {
        sum(v.drop_last()) + v.last()
    }
}

/// Every entry is at most `b`.
pub open spec fn bounded(v: Seq<u64>, b: int) -> bool {
    forall|i: int| 0 <= i < v.len() ==> #[trigger] v[i] <= b
}

/// `n` zeros.
pub open spec fn zeros(n: nat) -> Seq<u64> {
    Seq::new(n, |i: int| 0u64)
}

/// Knockout match number at bracket position `j`.
pub open spec fn kid(j: int) -> u32 {
    knockout_spec()[j].id
}

/// Bracket positions 0 to 29 hold matches 73 to 102, and position 30 the final, match 104.
pub proof fn lemma_kid_values()
    ensures
        forall|j: int| 0 <= j < 31 ==> #[trigger] kid(j) == if j < 30 { 73 + j } else { 104 },
{
    assert forall|j: int| 0 <= j < 31 implies #[trigger] kid(j) == if j < 30 { 73 + j } else { 104 } by {
        if j == 0 {} else if j == 1 {} else if j == 2 {} else if j == 3 {} else if j == 4 {} else if j == 5 {} else if j == 6 {} else if j == 7 {} else if j == 8 {} else if j == 9 {} else if j == 10 {} else if j == 11 {} else if j == 12 {} else if j == 13 {} else if j == 14 {} else if j == 15 {} else if j == 16 {} else if j == 17 {} else if j == 18 {} else if j == 19 {} else if j == 20 {} else if j == 21 {} else if j == 22 {} else if j == 23 {} else if j == 24 {} else if j == 25 {} else if j == 26 {} else if j == 27 {} else if j == 28 {} else if j == 29 {} else if j == 30 {}
    }
}

/// The number of a knockout match of the bracket: 73 to 102, or 104.
pub open spec fn is_knockout_number(id: u32) -> bool {
    73 <= id <= 102 || id == 104
}

/// The number of a round-of-32 match: 73 to 88.
pub open spec fn is_round_of_32_number(id: u32) -> bool {
    73 <= id <= 88
}

/// Counts over many simulated tournaments: how often each team won its group, finished
/// second, went through as a third, reached each knockout round and won the title; its
/// group finishing places and group points; per knockout match how often each team stood on
/// each side (round of 32) and won it; and per team and round how often it met each opponent.
pub struct Tally {
    pub sims: u64,
    pub n: usize,
    pub group_winner: Vec<u64>,
    pub runner_up: Vec<u64>,
    pub third_through: Vec<u64>,
    pub reach_r16: Vec<u64>,
    pub reach_qf: Vec<u64>,
    pub reach_sf: Vec<u64>,
    pub reach_final: Vec<u64>,
    pub champion: Vec<u64>,
    /// Per team: how often it finished 1st/2nd/3rd/4th in its group.
    pub group_pos: Vec<[u64; 4]>,
    /// Per team: total group points (for the average).
    pub points_sum: Vec<u64>,
    /// Per round-of-32 match: how often each team appeared on side A / side B.
    pub slot_a: HashMap<u32, Vec<u64>>,
    pub slot_b: HashMap<u32, Vec<u64>>,
    /// Per knockout match: how often each team won it.
    pub win: HashMap<u32, Vec<u64>>,
    /// opp[team][round 0=R32..4=Final][opponent] = times faced.
    pub opp: Vec<[Vec<u64>; 5]>,
}

/// The most tournaments a tally can hold: each adds at most 9 to a count (see `cap`), and
/// every count, with what one more tournament adds on the way, stays within `u64`.
pub const MAX_SIMS: u64 = 2_049_638_230_412_172_000;

/// Largest count a tally may reach after `sims` tournaments: nine group points each.
pub open spec fn cap(sims: int) -> int {
    9 * sims
}

impl Tally {
    /// Shapes and totals: every per-team list has one entry per team; the maps hold every
    /// knockout match (round-of-32 matches for the side maps); each tournament adds 12 group
    /// winners, 12 runners-up, 8 thirds, 16 round-of-16 places, 8 quarter-final places, 4
    /// semi-final places, 2 finalists and 1 champion; no count exceeds `cap(sims)`.
    pub open spec fn wf(&self) -> bool {
        let n = self.n as nat;
        let b = cap(self.sims as int);
        &&& self.group_winner@.len() == n && self.runner_up@.len() == n
        &&& self.third_through@.len() == n && self.reach_r16@.len() == n
        &&& self.reach_qf@.len() == n && self.reach_sf@.len() == n
        &&& self.reach_final@.len() == n && self.champion@.len() == n
        &&& self.group_pos@.len() == n && self.points_sum@.len() == n && self.opp@.len() == n
        &&& forall|t: int, r: int| 0 <= t < n && 0 <= r < 5 ==> #[trigger] self.opp@[t][r]@.len() == n
        &&& forall|j: int|
            0 <= j < 31 ==> #[trigger] self.win@.contains_key(kid(j)) && self.win@[kid(j)]@.len() == n
                && bounded(self.win@[kid(j)]@, b)
        &&& forall|j: int|
            0 <= j < 16 ==> #[trigger] self.slot_a@.contains_key(kid(j)) && self.slot_a@[kid(j)]@.len() == n
                && bounded(self.slot_a@[kid(j)]@, b)
        &&& forall|j: int|
            0 <= j < 16 ==> #[trigger] self.slot_b@.contains_key(kid(j)) && self.slot_b@[kid(j)]@.len() == n
                && bounded(self.slot_b@[kid(j)]@, b)
        &&& bounded(self.group_winner@, b) && bounded(self.runner_up@, b) && bounded(self.third_through@, b)
        &&& bounded(self.reach_r16@, b) && bounded(self.reach_qf@, b) && bounded(self.reach_sf@, b)
        &&& bounded(self.reach_final@, b) && bounded(self.champion@, b) && bounded(self.points_sum@, b)
        &&& forall|t: int, k: int| 0 <= t < n && 0 <= k < 4 ==> #[trigger] self.group_pos@[t][k] <= b
        &&& forall|t: int, r: int, o: int|
            0 <= t < n && 0 <= r < 5 && 0 <= o < n ==> #[trigger] self.opp@[t][r]@[o] <= b
        &&& sum(self.group_winner@) == 12 * self.sims
        &&& sum(self.runner_up@) == 12 * self.sims
        &&& sum(self.third_through@) == 8 * self.sims
        &&& sum(self.reach_r16@) == 16 * self.sims
        &&& sum(self.reach_qf@) == 8 * self.sims
        &&& sum(self.reach_sf@) == 4 * self.sims
        &&& sum(self.reach_final@) == 2 * self.sims
        &&& sum(self.champion@) == self.sims
    }

    /// The meeting counts have one entry per team, round and opponent, none above `cap(sims)`.
    pub open spec fn opp_ready(&self) -> bool {
        let n = self.n as nat;
        &&& self.opp@.len() == n
        &&& forall|t: int, r: int| 0 <= t < n && 0 <= r < 5 ==> #[trigger] self.opp@[t][r]@.len() == n
        &&& forall|t: int, r: int, o: int|
            0 <= t < n && 0 <= r < 5 && 0 <= o < n ==> #[trigger] self.opp@[t][r]@[o] <= cap(self.sims as int)
    }

    /// The per-match maps hold every knockout match (round-of-32 matches for the side maps),
    /// one entry per team each, none above `cap(sims)`.
    pub open spec fn maps_ready(&self) -> bool {
        let n = self.n as nat;
        let b = cap(self.sims as int);
        &&& forall|j: int|
            0 <= j < 31 ==> #[trigger] self.win@.contains_key(kid(j)) && self.win@[kid(j)]@.len() == n
                && bounded(self.win@[kid(j)]@, b)
        &&& forall|j: int|
            0 <= j < 16 ==> #[trigger] self.slot_a@.contains_key(kid(j)) && self.slot_a@[kid(j)]@.len() == n
                && bounded(self.slot_a@[kid(j)]@, b)
        &&& forall|j: int|
            0 <= j < 16 ==> #[trigger] self.slot_b@.contains_key(kid(j)) && self.slot_b@[kid(j)]@.len() == n
                && bounded(self.slot_b@[kid(j)]@, b)
    }

    /// The knockout reach lists have one entry per team, none above `cap(sims)`.
    pub open spec fn reach_ready(&self) -> bool {
        let n = self.n as nat;
        let b = cap(self.sims as int);
        &&& self.reach_r16@.len() == n && self.reach_qf@.len() == n && self.reach_sf@.len() == n
        &&& self.reach_final@.len() == n && self.champion@.len() == n
        &&& bounded(self.reach_r16@, b) && bounded(self.reach_qf@, b) && bounded(self.reach_sf@, b)
        &&& bounded(self.reach_final@, b) && bounded(self.champion@, b)
    }
}

impl Tally {
    /// What the counts of whole tournaments satisfy: group winners and runners-up are the
    /// first and second group places, qualified thirds are among the third places; a team
    /// goes through its group (and takes a group place) at most once per tournament; a team
    /// wins the title at most as often as it reaches the final, the final at most as often as
    /// the semi-finals, and so on down to the round of 16, which it reaches at most as often
    /// as it goes through its group; who met whom is symmetric, no team meets itself, and a
    /// team's meetings in a round add up to how often it played there; and a team collects at
    /// most nine group points per tournament.
    pub open spec fn consistent(&self) -> bool {
        let n = self.n as int;
        &&& forall|t: int|
            0 <= t < n ==> #[trigger] self.group_winner@[t] == self.group_pos@[t][0] && self.runner_up@[t]
                == self.group_pos@[t][1] && self.third_through@[t] <= self.group_pos@[t][2]
        &&& forall|t: int|
            0 <= t < n ==> #[trigger] self.group_winner@[t] + self.runner_up@[t] + self.third_through@[t]
                <= self.sims
        &&& forall|t: int|
            0 <= t < n ==> #[trigger] self.group_pos@[t][0] + self.group_pos@[t][1] + self.group_pos@[t][2]
                + self.group_pos@[t][3] <= self.sims
        &&& forall|t: int|
            #![trigger self.champion@[t]]
            0 <= t < n ==> self.champion@[t] <= self.reach_final@[t] && self.reach_final@[t]
                <= self.reach_sf@[t] && self.reach_sf@[t] <= self.reach_qf@[t] && self.reach_qf@[t]
                <= self.reach_r16@[t]
        &&& forall|a: int, r: int, b: int|
            0 <= a < n && 0 <= r < 5 && 0 <= b < n ==> #[trigger] self.opp@[a][r]@[b] == self.opp@[b][r]@[a]
        &&& forall|t: int|
            0 <= t < n ==> #[trigger] self.reach_r16@[t] <= self.group_winner@[t] + self.runner_up@[t]
                + self.third_through@[t]
        &&& forall|t: int, r: int| 0 <= t < n && 0 <= r < 5 ==> #[trigger] self.opp@[t][r]@[t] == 0
        &&& forall|t: int| 0 <= t < n ==> #[trigger] self.opp_rows_match(t)
        &&& forall|t: int| 0 <= t < n ==> #[trigger] self.points_sum@[t] <= 9 * self.sims
    }

    /// Team `t`'s meetings in each round, summed over its opponents: in the round of 32 as
    /// often as it went through its group, in each later round as often as it reached it.
    pub open spec fn opp_rows_match(&self, t: int) -> bool {
        &&& sum(self.opp@[t][0]@) == self.group_winner@[t] + self.runner_up@[t] + self.third_through@[t]
        &&& sum(self.opp@[t][1]@) == self.reach_r16@[t]
        &&& sum(self.opp@[t][2]@) == self.reach_qf@[t]
        &&& sum(self.opp@[t][3]@) == self.reach_sf@[t]
        &&& sum(self.opp@[t][4]@) == self.reach_final@[t]
    }

    /// Every team of one of the twelve groups took one of the four places of its group in
    /// every tournament, and any other team took none.
    pub open spec fn places_complete(&self, data: Data) -> bool {
        forall|t: int|
            #![trigger self.group_pos@[t]]
            0 <= t < self.n ==> self.group_pos@[t][0] + self.group_pos@[t][1] + self.group_pos@[t][2]
                + self.group_pos@[t][3] == if crate::bracket::is_group(crate::model::team_group(data.teams@[t])) {
                self.sims as int
            } else {
                0
            }
    }
}

proof fn lemma_sum_zeros(n: nat)
    ensures
        sum(zeros(n)) == 0,
    decreases n,
{
    if n > 0 {
        assert(zeros(n).drop_last() =~= zeros((n - 1) as nat));
        lemma_sum_zeros((n - 1) as nat);
    }
}

/// `n` zeros.
fn zero_vec(n: usize) -> (v: Vec<u64>)
    ensures
        v@ == zeros(n as nat),
{
    let mut v: Vec<u64> = Vec::new();
    let mut i: usize = 0;
    while i < n
        invariant
            i <= n,
            v@ == zeros(i as nat),
        decreases n - i,
    {
        v.push(0);
        i = i + 1;
        assert(v@ =~= zeros(i as nat));
    }
    v
}

impl Tally {
    /// An empty tally for `n` teams.
    #[verifier::spinoff_prover]
    pub fn new(n: usize) -> (t: Tally)
        ensures
            t.wf(),
            t.sims == 0,
            t.n == n,
            t.group_winner@ == zeros(n as nat),
            t.runner_up@ == zeros(n as nat),
            t.third_through@ == zeros(n as nat),
            t.reach_r16@ == zeros(n as nat),
            t.reach_qf@ == zeros(n as nat),
            t.reach_sf@ == zeros(n as nat),
            t.reach_final@ == zeros(n as nat),
            t.champion@ == zeros(n as nat),
            t.points_sum@ == zeros(n as nat),
            forall|u: int, k: int| 0 <= u < n && 0 <= k < 4 ==> #[trigger] t.group_pos@[u][k] == 0,
            forall|u: int, r: int| 0 <= u < n && 0 <= r < 5 ==> #[trigger] t.opp@[u][r]@ == zeros(n as nat),
            forall|j: int| 0 <= j < 31 ==> #[trigger] t.win@[kid(j)]@ == zeros(n as nat),
            forall|j: int| 0 <= j < 16 ==> #[trigger] t.slot_a@[kid(j)]@ == zeros(n as nat),
            forall|j: int| 0 <= j < 16 ==> #[trigger] t.slot_b@[kid(j)]@ == zeros(n as nat),
            t.consistent(),
            forall|d: Data| #[trigger] t.places_complete(d),
            t.win@.dom() == Set::new(|id: u32| is_knockout_number(id)),
            t.slot_a@.dom() == Set::new(|id: u32| is_round_of_32_number(id)),
            t.slot_b@.dom() == Set::new(|id: u32| is_round_of_32_number(id)),
    {
        broadcast use vstd::std_specs::hash::group_hash_axioms;
        let ko = knockout();
        let mut slot_a: HashMap<u32, Vec<u64>> = HashMap::new();
        let mut slot_b: HashMap<u32, Vec<u64>> = HashMap::new();
        let mut win: HashMap<u32, Vec<u64>> = HashMap::new();
        let mut i: usize = 0;
        proof {
            crate::bracket::lemma_bracket_shape();
        }
        while i < ko.len()
            invariant
                i <= 31,
                ko@ == knockout_spec(),
                ko@.len() == 31,
                forall|j: int| 0 <= j < 31 ==> (#[trigger] knockout_spec()[j]).round == crate::bracket::round_at(j),
                forall|j: int| 0 <= j < 31 ==> crate::bracket::ko_index(#[trigger] kid(j)) == j,
                forall|j: int|
                    0 <= j < i ==> #[trigger] win@.contains_key(kid(j)) && win@[kid(j)]@ == zeros(n as nat),
                forall|j: int|
                    0 <= j < i && j < 16 ==> #[trigger] slot_a@.contains_key(kid(j)) && slot_a@[kid(j)]@ == zeros(n as nat),
                forall|j: int|
                    0 <= j < i && j < 16 ==> #[trigger] slot_b@.contains_key(kid(j)) && slot_b@[kid(j)]@ == zeros(n as nat),
                forall|id: u32| #[trigger] win@.contains_key(id) ==> exists|j: int| 0 <= j < i && kid(j) == id,
                forall|id: u32| #[trigger] slot_a@.contains_key(id) ==> exists|j: int| 0 <= j < i && j < 16 && kid(j) == id,
                forall|id: u32| #[trigger] slot_b@.contains_key(id) ==> exists|j: int| 0 <= j < i && j < 16 && kid(j) == id,
            decreases 31 - i,
        {
            let km = ko[i];
            win.insert(km.id, zero_vec(n));
            if km.round == Round::R32 {
                slot_a.insert(km.id, zero_vec(n));
                slot_b.insert(km.id, zero_vec(n));
            }
            proof {
                assert forall|j: int| 0 <= j < i implies kid(j) != kid(i as int) by {
                    assert(crate::bracket::ko_index(kid(j)) == j);
                }
                assert(km.id == kid(i as int));
                assert forall|id: u32| #[trigger] win@.contains_key(id) implies exists|j: int| 0 <= j < i + 1 && kid(j) == id by {
                    if id == km.id {
                        assert(kid(i as int) == id);
                    }
                }
                assert forall|id: u32| #[trigger] slot_a@.contains_key(id) implies exists|j: int| 0 <= j < i + 1 && j < 16 && kid(j) == id by {
                    if id == km.id {
                        assert(kid(i as int) == id);
                    }
                }
                assert forall|id: u32| #[trigger] slot_b@.contains_key(id) implies exists|j: int| 0 <= j < i + 1 && j < 16 && kid(j) == id by {
                    if id == km.id {
                        assert(kid(i as int) == id);
                    }
                }
            }
            i = i + 1;
        }
        let mut opp: Vec<[Vec<u64>; 5]> = Vec::new();
        let mut t: usize = 0;
        while t < n
            invariant
                t <= n,
                opp@.len() == t,
                forall|u: int, r: int| 0 <= u < t && 0 <= r < 5 ==> #[trigger] opp@[u][r]@ == zeros(n as nat),
            decreases n - t,
        {
            opp.push([zero_vec(n), zero_vec(n), zero_vec(n), zero_vec(n), zero_vec(n)]);
            t = t + 1;
        }
        let mut group_pos: Vec<[u64; 4]> = Vec::new();
        let mut t: usize = 0;
        while t < n
            invariant
                t <= n,
                group_pos@.len() == t,
                forall|u: int, k: int| 0 <= u < t && 0 <= k < 4 ==> #[trigger] group_pos@[u][k] == 0,
            decreases n - t,
        {
            group_pos.push([0, 0, 0, 0]);
            t = t + 1;
        }
        proof {
            lemma_sum_zeros(n as nat);
        }
        proof {
            lemma_kid_values();
            assert forall|id: u32| #[trigger] win@.dom().contains(id) <==> is_knockout_number(id) by {
                if is_knockout_number(id) {
                    let j: int = if id == 104 { 30 } else { id - 73 };
                    assert(kid(j) == id);
                }
            }
            assert forall|id: u32| #[trigger] slot_a@.dom().contains(id) <==> is_round_of_32_number(id) by {
                if is_round_of_32_number(id) {
                    assert(kid(id - 73) == id);
                }
            }
            assert forall|id: u32| #[trigger] slot_b@.dom().contains(id) <==> is_round_of_32_number(id) by {
                if is_round_of_32_number(id) {
                    assert(kid(id - 73) == id);
                }
            }
        }
        assert forall|u: int, r: int, b: int| 0 <= u < n && 0 <= r < 5 && 0 <= b < n implies #[trigger] opp@[u][r]@[b]
            == opp@[b][r]@[u] by {
            assert(opp@[u][r]@ == zeros(n as nat));
            assert(opp@[b][r]@ == zeros(n as nat));
        }
        assert(win@.dom() =~= Set::new(|id: u32| is_knockout_number(id)));
        assert(slot_a@.dom() =~= Set::new(|id: u32| is_round_of_32_number(id)));
        assert(slot_b@.dom() =~= Set::new(|id: u32| is_round_of_32_number(id)));
        let ghost wv = win@;
        let ghost sav = slot_a@;
        let ghost sbv = slot_b@;
        assert(forall|j: int| 0 <= j < 31 ==> #[trigger] wv.contains_key(kid(j)) && wv[kid(j)]@ == zeros(n as nat));
        assert(forall|j: int| 0 <= j < 16 ==> #[trigger] sav.contains_key(kid(j)) && sav[kid(j)]@ == zeros(n as nat));
        assert(forall|j: int| 0 <= j < 16 ==> #[trigger] sbv.contains_key(kid(j)) && sbv[kid(j)]@ == zeros(n as nat));
        let t = Tally {
            sims: 0,
            n,
            group_winner: zero_vec(n),
            runner_up: zero_vec(n),
            third_through: zero_vec(n),
            reach_r16: zero_vec(n),
            reach_qf: zero_vec(n),
            reach_sf: zero_vec(n),
            reach_final: zero_vec(n),
            champion: zero_vec(n),
            group_pos,
            points_sum: zero_vec(n),
            slot_a,
            slot_b,
            win,
            opp,
        };
        assert forall|u: int, r: int, o: int|
            0 <= u < n && 0 <= r < 5 && 0 <= o < n implies #[trigger] t.opp@[u][r]@[o] <= cap(t.sims as int) by {
            assert(t.opp@[u][r]@ == zeros(n as nat));
        }
        assert forall|j: int| 0 <= j < 31 implies #[trigger] t.win@.contains_key(kid(j)) && t.win@[kid(j)]@.len() == n
            && bounded(t.win@[kid(j)]@, cap(t.sims as int)) by {
            assert(wv.contains_key(kid(j)));
            assert(t.win@ == wv);
            assert(t.win@[kid(j)]@ == zeros(n as nat));
        }
        assert forall|j: int| 0 <= j < 16 implies #[trigger] t.slot_a@.contains_key(kid(j)) && t.slot_a@[kid(j)]@.len() == n
            && bounded(t.slot_a@[kid(j)]@, cap(t.sims as int)) by {
            assert(sav.contains_key(kid(j)));
            assert(t.slot_a@ == sav);
            assert(t.slot_a@[kid(j)]@ == zeros(n as nat));
        }
        assert forall|j: int| 0 <= j < 16 implies #[trigger] t.slot_b@.contains_key(kid(j)) && t.slot_b@[kid(j)]@.len() == n
            && bounded(t.slot_b@[kid(j)]@, cap(t.sims as int)) by {
            assert(sbv.contains_key(kid(j)));
            assert(t.slot_b@ == sbv);
            assert(t.slot_b@[kid(j)]@ == zeros(n as nat));
        }
        assert forall|u: int, k: int| 0 <= u < n && 0 <= k < 4 implies #[trigger] t.group_pos@[u][k] <= cap(t.sims as int) by {
            assert(t.group_pos@[u][k] == 0);
        }
        assert forall|u: int, r: int| 0 <= u < n && 0 <= r < 5 implies #[trigger] t.opp@[u][r]@.len() == n by {
            assert(t.opp@[u][r]@ == zeros(n as nat));
        }
        assert forall|j: int| 0 <= j < 31 implies #[trigger] t.win@[kid(j)]@ == zeros(n as nat) by {
            assert(wv.contains_key(kid(j)));
        }
        assert forall|j: int| 0 <= j < 16 implies #[trigger] t.slot_a@[kid(j)]@ == zeros(n as nat) by {
            assert(sav.contains_key(kid(j)));
        }
        assert forall|j: int| 0 <= j < 16 implies #[trigger] t.slot_b@[kid(j)]@ == zeros(n as nat) by {
            assert(sbv.contains_key(kid(j)));
        }
        assert forall|u: int| 0 <= u < n implies #[trigger] t.opp_rows_match(u) by {
            lemma_sum_zeros(n as nat);
            assert(t.opp@[u][0]@ == zeros(n as nat));
            assert(t.opp@[u][1]@ == zeros(n as nat));
            assert(t.opp@[u][2]@ == zeros(n as nat));
            assert(t.opp@[u][3]@ == zeros(n as nat));
            assert(t.opp@[u][4]@ == zeros(n as nat));
        }
        assert forall|d: Data| #[trigger] t.places_complete(d) by {
            assert forall|u: int| #![trigger t.group_pos@[u]] 0 <= u < t.n implies t.group_pos@[u][0] + t.group_pos@[u][1]
                + t.group_pos@[u][2] + t.group_pos@[u][3] == 0 by {
                assert(t.group_pos@[u][0] == 0 && t.group_pos@[u][1] == 0);
                assert(t.group_pos@[u][2] == 0 && t.group_pos@[u][3] == 0);
            }
        }
        t
    }
}

proof fn lemma_sum_update(v: Seq<u64>, i: int, x: u64)
    requires
        0 <= i < v.len(),
    ensures
        sum(v.update(i, x)) == sum(v) - v[i] + x,
    decreases v.len(),
{
    if i < v.len() - 1 {
        assert(v.update(i, x).drop_last() =~= v.drop_last().update(i, x));
        lemma_sum_update(v.drop_last(), i, x);
    } else {
        assert(v.update(i, x).drop_last() =~= v.drop_last());
    }
}

proof fn lemma_count_push(s: Seq<usize>, x: usize, t: usize)
    ensures
        crate::tournament::count(s.push(x), t) == crate::tournament::count(s, t) + if x == t {
            1nat
        } else {
            0nat
        },
{
    assert(s.push(x).drop_last() =~= s);
}

proof fn lemma_count_le(s: Seq<usize>, t: usize)
    ensures
        crate::tournament::count(s, t) <= s.len(),
    decreases s.len(),
{
    if s.len() > 0 {
        lemma_count_le(s.drop_last(), t);
    }
}

proof fn lemma_count_update(s: Seq<usize>, k: int, v: usize, t: usize)
    requires
        0 <= k < s.len(),
    ensures
        count(s.update(k, v), t) + (if s[k] == t { 1int } else { 0int }) == count(s, t) + (if v == t {
            1int
        } else {
            0int
        }),
    decreases s.len(),
{
    if k < s.len() - 1 {
        assert(s.update(k, v).drop_last() =~= s.drop_last().update(k, v));
        lemma_count_update(s.drop_last(), k, v, t);
    } else {
        assert(s.update(k, v).drop_last() =~= s.drop_last());
    }
}

/// A list whose entries can be found, each at its own position, in a second list holds each
/// value at most as often as the second list does.
proof fn lemma_count_le_map(s1: Seq<usize>, s2: Seq<usize>, f: spec_fn(int) -> int, t: usize)
    requires
        forall|i: int| 0 <= i < s1.len() ==> 0 <= #[trigger] f(i) < s2.len() && s1[i] == s2[f(i)],
        forall|i: int, j: int| 0 <= i < s1.len() && 0 <= j < s1.len() && i != j ==> #[trigger] f(i) != #[trigger] f(j),
    ensures
        count(s1, t) <= count(s2, t),
    decreases s1.len(),
{
    if s1.len() > 0 {
        let m = s1.len() - 1;
        let other: usize = if t == 0 { 1 } else { 0 };
        let s2b = s2.update(f(m), other);
        let d = s1.drop_last();
        assert forall|i: int| 0 <= i < d.len() implies 0 <= #[trigger] f(i) < s2b.len() && d[i] == s2b[f(i)] by {
            assert(f(i) != f(m));
            assert(s1[i] == s2[f(i)]);
        }
        assert forall|i: int, j: int| 0 <= i < d.len() && 0 <= j < d.len() && i != j implies #[trigger] f(i)
            != #[trigger] f(j) by {}
        lemma_count_le_map(d, s2b, f, t);
        lemma_count_update(s2, f(m), other, t);
        assert(s1[m] == s2[f(m)]);
    }
}

/// Adds one to entry `t`.
fn bump(v: &mut Vec<u64>, t: usize)
    requires
        t < old(v)@.len(),
        old(v)@[t as int] < u64::MAX,
    ensures
        final(v)@ == old(v)@.update(t as int, (old(v)@[t as int] + 1) as u64),
        sum(final(v)@) == sum(old(v)@) + 1,
{
    proof {
        lemma_sum_update(v@, t as int, (v@[t as int] + 1) as u64);
    }
    v.set(t, v[t] + 1);
}

impl TournamentRun {
    /// Teams in places are real team indices, and group points are at most 18.
    pub proof fn lemma_place_facts(&self, data: Data, g: int, k: int)
        requires
            self.wf(data),
            0 <= g < self.scores@.len(),
            0 <= k < 4,
        ensures
            self.place(data, g, k) < data.teams@.len(),
            self.order(g)[k] < 4,
            self.orders@[g]@ == self.order(g),
            self.order(g).len() == 4,
            data.group_index@[g]@.len() == 4,
            self.ties@[g]@.len() == 5,
            0 <= self.pts_at(g, k) <= 18,
    {
        assert(self.scores@[g]@.len() == 6);
        assert(is_ranking(self.keys(g), self.orders@[g]@));
        assert(self.order(g)[k] < 4);
        assert(crate::model::is_group_listing(data.teams@, crate::bracket::group_letter(g), data.group_index@[g]@));
        lemma_stats_bounds(self.scores@[g]@, 6, self.order(g)[k] as int);
    }
}

impl Tally {
    /// Adds the group finishes of one group: its winner, runner-up, each team's finishing
    /// place and points.
    fn record_group(&mut self, data: &Data, run: &TournamentRun, g: usize, Ghost(extra): Ghost<int>)
        requires
            run.wf(*data),
            run.scores@.len() == 12,
            g < 12,
            old(self).n == data.teams@.len(),
            old(self).group_winner@.len() == old(self).n,
            old(self).runner_up@.len() == old(self).n,
            old(self).points_sum@.len() == old(self).n,
            old(self).group_pos@.len() == old(self).n,
            0 <= extra,
            forall|t: int| 0 <= t < old(self).n ==> #[trigger] old(self).group_winner@[t] <= extra,
            forall|t: int| 0 <= t < old(self).n ==> #[trigger] old(self).runner_up@[t] <= extra,
            forall|t: int| 0 <= t < old(self).n ==> #[trigger] old(self).points_sum@[t] <= extra,
            forall|t: int, q: int| 0 <= t < old(self).n && 0 <= q < 4 ==> #[trigger] old(self).group_pos@[t][q] <= extra,
            extra + 100 < u64::MAX,
        ensures
            final(self).n == old(self).n,
            final(self).sims == old(self).sims,
            final(self).group_winner@.len() == old(self).n,
            final(self).runner_up@.len() == old(self).n,
            final(self).points_sum@.len() == old(self).n,
            final(self).group_pos@.len() == old(self).n,
            forall|t: int| 0 <= t < old(self).n ==> #[trigger] final(self).group_winner@[t] == old(self).group_winner@[t]
                + if run.place(*data, g as int, 0) == t { 1int } else { 0int },
            forall|t: int| 0 <= t < old(self).n ==> #[trigger] final(self).runner_up@[t] == old(self).runner_up@[t]
                + if run.place(*data, g as int, 1) == t { 1int } else { 0int },
            forall|t: int| 0 <= t < old(self).n ==> #[trigger] final(self).points_sum@[t] == old(self).points_sum@[t]
                + run.points_in(*data, t as usize, g as int, 4),
            forall|t: int, q: int| 0 <= t < old(self).n && 0 <= q < 4 ==> #[trigger] final(self).group_pos@[t][q]
                == old(self).group_pos@[t][q] + if run.place(*data, g as int, q) == t { 1int } else { 0int },
            sum(final(self).group_winner@) == sum(old(self).group_winner@) + 1,
            sum(final(self).runner_up@) == sum(old(self).runner_up@) + 1,
            forall|t: int| 0 <= t < old(self).n ==> 0 <= #[trigger] run.points_in(*data, t as usize, g as int, 4) <= 72,
            final(self).third_through == old(self).third_through,
            final(self).reach_r16 == old(self).reach_r16,
            final(self).reach_qf == old(self).reach_qf,
            final(self).reach_sf == old(self).reach_sf,
            final(self).reach_final == old(self).reach_final,
            final(self).champion == old(self).champion,
            final(self).slot_a == old(self).slot_a,
            final(self).slot_b == old(self).slot_b,
            final(self).win == old(self).win,
            final(self).opp == old(self).opp,
    {
        assert(run.scores@[g as int]@.len() == 6);
        let t4: Vec<u64> = vec![run.ties[g][0], run.ties[g][1], run.ties[g][2], run.ties[g][3]];
        let keys = group_keys(run.scores[g].as_slice(), t4.as_slice());
        assert(keys@ =~= run.keys(g as int));
        let mut k: usize = 0;
        while k < 4
            invariant
                run.wf(*data),
                run.scores@.len() == 12,
                g < 12,
                keys@ == run.keys(g as int),
                k <= 4,
                self.n == old(self).n,
                self.sims == old(self).sims,
                self.group_winner@.len() == old(self).n,
                self.runner_up@.len() == old(self).n,
                self.points_sum@.len() == old(self).n,
                self.group_pos@.len() == old(self).n,
                self.n == data.teams@.len(),
                0 <= extra,
                extra + 100 < u64::MAX,
                forall|t: int| 0 <= t < old(self).n ==> #[trigger] self.group_winner@[t] == old(self).group_winner@[t]
                    + if k > 0 && run.place(*data, g as int, 0) == t { 1int } else { 0int },
                forall|t: int| 0 <= t < old(self).n ==> #[trigger] self.runner_up@[t] == old(self).runner_up@[t]
                    + if k > 1 && run.place(*data, g as int, 1) == t { 1int } else { 0int },
                forall|t: int| 0 <= t < old(self).n ==> #[trigger] self.points_sum@[t] == old(self).points_sum@[t]
                    + run.points_in(*data, t as usize, g as int, k as int),
                forall|t: int, q: int| 0 <= t < old(self).n && 0 <= q < 4 ==> #[trigger] self.group_pos@[t][q]
                    == old(self).group_pos@[t][q] + if q < k && run.place(*data, g as int, q) == t { 1int } else { 0int },
                forall|t: int| 0 <= t < old(self).n ==> #[trigger] old(self).group_winner@[t] <= extra,
                forall|t: int| 0 <= t < old(self).n ==> #[trigger] old(self).runner_up@[t] <= extra,
                forall|t: int| 0 <= t < old(self).n ==> #[trigger] old(self).points_sum@[t] <= extra,
                forall|t: int, q: int| 0 <= t < old(self).n && 0 <= q < 4 ==> #[trigger] old(self).group_pos@[t][q] <= extra,
                forall|t: int| 0 <= t < old(self).n ==> 0 <= #[trigger] run.points_in(*data, t as usize, g as int, k as int) <= 18 * k,
                sum(self.group_winner@) == sum(old(self).group_winner@) + if k > 0 { 1int } else { 0int },
                sum(self.runner_up@) == sum(old(self).runner_up@) + if k > 1 { 1int } else { 0int },
                self.third_through == old(self).third_through,
                self.reach_r16 == old(self).reach_r16,
                self.reach_qf == old(self).reach_qf,
                self.reach_sf == old(self).reach_sf,
                self.reach_final == old(self).reach_final,
                self.champion == old(self).champion,
                self.slot_a == old(self).slot_a,
                self.slot_b == old(self).slot_b,
                self.win == old(self).win,
                self.opp == old(self).opp,
            decreases 4 - k,
        {
            proof {
                run.lemma_place_facts(*data, g as int, k as int);
            }
            let pos = run.orders[g][k];
            let team = data.group_index[g][pos];
            assert(team == run.place(*data, g as int, k as int));
            let pts = keys[pos].pts;
            assert(pts == run.pts_at(g as int, k as int));
            let ghost gp0 = self.group_pos@;
            let ghost ps0 = self.points_sum@;
            assert(self.group_pos@[team as int][k as int] <= extra + 4);
            self.group_pos[team][k] = self.group_pos[team][k] + 1;
            assert(self.points_sum@[team as int] <= extra + 18 * k);
            self.points_sum.set(team, self.points_sum[team] + pts as u64);
            if k == 0 {
                bump(&mut self.group_winner, team);
            } else if k == 1 {
                bump(&mut self.runner_up, team);
            }
            proof {
                assert forall|t: int, q: int| 0 <= t < old(self).n && 0 <= q < 4 implies #[trigger] self.group_pos@[t][q]
                    == old(self).group_pos@[t][q] + if q < k + 1 && run.place(*data, g as int, q) == t { 1int } else { 0int } by {
                    assert(gp0[t][q] == old(self).group_pos@[t][q] + if q < k && run.place(*data, g as int, q) == t { 1int } else { 0int });
                }
                assert forall|t: int| 0 <= t < old(self).n implies 0 <= #[trigger] run.points_in(*data, t as usize, g as int, k + 1) <= 18 * (k + 1) by {
                    assert(0 <= run.points_in(*data, t as usize, g as int, k as int) <= 18 * k);
                }
            }
            k = k + 1;
        }
    }
}

/// How many of the four places of group `g` team `t` takes.
spec fn places_in(run: TournamentRun, data: Data, g: int, t: usize) -> nat {
    count(Seq::new(4, |q: int| run.place(data, g, q)), t)
}

/// How many places of groups `0..m` team `t` takes.
spec fn places_upto(run: TournamentRun, data: Data, m: int, t: usize) -> nat
    decreases m,
{
    if m <= 0 {
        0
    } else {
        places_upto(run, data, m - 1, t) + places_in(run, data, m - 1, t)
    }
}

proof fn lemma_count_four(s: Seq<usize>, t: usize)
    requires
        s.len() == 4,
    ensures
        count(s, t) == (if s[0] == t { 1int } else { 0int }) + (if s[1] == t { 1int } else { 0int }) + (if s[2]
            == t { 1int } else { 0int }) + (if s[3] == t { 1int } else { 0int }),
{
    let s3 = s.drop_last();
    let s2 = s3.drop_last();
    let s1 = s2.drop_last();
    let s0 = s1.drop_last();
    assert(s0 =~= Seq::<usize>::empty());
    assert(s.last() == s[3] && s3.last() == s[2] && s2.last() == s[1] && s1.last() == s[0]);
    assert(count(s0, t) == 0);
    assert(count(s1, t) == count(s0, t) + if s[0] == t { 1nat } else { 0nat });
    assert(count(s2, t) == count(s1, t) + if s[1] == t { 1nat } else { 0nat });
    assert(count(s3, t) == count(s2, t) + if s[2] == t { 1nat } else { 0nat });
}

proof fn lemma_places_swap(run: TournamentRun, data: Data, m: int, t: usize)
    requires
        0 <= m <= 12,
    ensures
        count(run.place_seq(data, 0, m), t) + count(run.place_seq(data, 1, m), t) + count(run.place_seq(data, 2, m), t)
            + count(run.place_seq(data, 3, m), t) == places_upto(run, data, m, t),
    decreases m,
{
    if m > 0 {
        lemma_places_swap(run, data, m - 1, t);
        assert forall|q: int| 0 <= q < 4 implies #[trigger] run.place_seq(data, q, m) =~= run.place_seq(data, q, m - 1).push(
            run.place(data, m - 1, q),
        ) by {}
        lemma_count_push(run.place_seq(data, 0, m - 1), run.place(data, m - 1, 0), t);
        lemma_count_push(run.place_seq(data, 1, m - 1), run.place(data, m - 1, 1), t);
        lemma_count_push(run.place_seq(data, 2, m - 1), run.place(data, m - 1, 2), t);
        lemma_count_push(run.place_seq(data, 3, m - 1), run.place(data, m - 1, 3), t);
        lemma_count_four(Seq::new(4, |q: int| run.place(data, m - 1, q)), t);
    }
}

proof fn lemma_places_in_group(run: TournamentRun, data: Data, g: int, t: usize)
    requires
        run.wf(data),
        run.scores@.len() == 12,
        0 <= g < 12,
        t < data.teams@.len(),
    ensures
        places_in(run, data, g, t) == if crate::model::team_group(data.teams@[t as int])
            == crate::bracket::group_letter(g) {
            1nat
        } else {
            0nat
        },
{
    let o = run.order(g);
    let l = data.group_index@[g]@;
    assert(run.scores@[g]@.len() == 6);
    assert(is_ranking(run.keys(g), run.orders@[g]@));
    assert(l.len() == 4);
    assert(crate::model::is_group_listing(data.teams@, crate::bracket::group_letter(g), l));
    assert forall|a: int, b: int| 0 <= a < 4 && 0 <= b < 4 && a != b implies l[a] != l[b] by {
        if a < b {
            assert(data.teams@[l[a] as int].pos < data.teams@[l[b] as int].pos || l[a] < l[b]);
        } else {
            assert(data.teams@[l[b] as int].pos < data.teams@[l[a] as int].pos || l[b] < l[a]);
        }
    }
    assert forall|a: int, b: int| 0 <= a < 4 && 0 <= b < 4 && a != b implies o[a] != o[b] by {
        if a < b {
            assert(ranks_before(run.keys(g), o[a], o[b]));
        } else {
            assert(ranks_before(run.keys(g), o[b], o[a]));
        }
    }
    assert(o[0] < 4 && o[1] < 4 && o[2] < 4 && o[3] < 4);
    let s = Seq::new(4, |q: int| run.place(data, g, q));
    lemma_count_four(s, t);
    assert forall|q: int| 0 <= q < 4 implies #[trigger] s[q] == l[o[q] as int] by {}
    if crate::model::team_group(data.teams@[t as int]) == crate::bracket::group_letter(g) {
        assert(l.contains((t as int) as usize));
        assert(l.contains(t));
        let p = choose|p: int| 0 <= p < 4 && l[p] == t;
        assert(o.contains(p as usize)) by {
            assert(forall|x: usize| x < 4 ==> #[trigger] o.contains(x));
        }
        let q = choose|q: int| 0 <= q < 4 && o[q] == p as usize;
        assert(s[q] == t);
        assert forall|q2: int| 0 <= q2 < 4 && q2 != q implies s[q2] != t by {
            assert(o[q2] != o[q]);
        }
    } else {
        assert forall|q: int| 0 <= q < 4 implies s[q] != t by {
            assert(team_group_of(data, l[o[q] as int]) == crate::bracket::group_letter(g));
        }
    }
}

spec fn team_group_of(data: Data, t: usize) -> char {
    crate::model::team_group(data.teams@[t as int])
}

proof fn lemma_places_total(run: TournamentRun, data: Data, m: int, t: usize)
    requires
        run.wf(data),
        run.scores@.len() == 12,
        0 <= m <= 12,
        t < data.teams@.len(),
    ensures
        places_upto(run, data, m, t) == if 65 <= team_group_of(data, t) as int && team_group_of(data, t) as int
            - 65 < m {
            1nat
        } else {
            0nat
        },
    decreases m,
{
    if m > 0 {
        lemma_places_total(run, data, m - 1, t);
        lemma_places_in_group(run, data, m - 1, t);
        assert((crate::bracket::group_letter(m - 1) == team_group_of(data, t)) == (team_group_of(data, t) as int
            == 65 + m - 1));
    }
}

impl TournamentRun {
    /// In a finished group stage every team of one of the twelve groups takes exactly one
    /// place in its group's table, and any other team takes none: over the four places, the
    /// team's counts sum to one or to zero.
    pub proof fn lemma_one_place_each(&self, data: Data, t: usize)
        requires
            self.wf(data),
            self.scores@.len() == 12,
            t < data.teams@.len(),
        ensures
            count(self.place_seq(data, 0, 12), t) + count(self.place_seq(data, 1, 12), t) + count(
                self.place_seq(data, 2, 12),
                t,
            ) + count(self.place_seq(data, 3, 12), t) == if crate::bracket::is_group(
                crate::model::team_group(data.teams@[t as int]),
            ) {
                1int
            } else {
                0int
            },
    {
        lemma_places_swap(*self, data, 12, t);
        lemma_places_total(*self, data, 12, t);
    }
}

/// Bracket position of the match whose winner fills side A of the match at position `j`
/// (from the round of 16 on).
spec fn feeder_a(j: int) -> int {
    if j == 16 { 1 } else if j == 17 { 0 } else if j == 18 { 3 } else if j == 19 { 6 } else if j == 20 { 10 } else if j == 21 { 8 } else if j == 22 { 13 } else if j == 23 { 12 } else if j == 24 { 16 } else if j == 25 { 20 } else if j == 26 { 18 } else if j == 27 { 22 } else if j == 28 { 24 } else if j == 29 { 26 } else { 28 }
}

/// Bracket position of the match whose winner fills side B of the match at position `j`.
spec fn feeder_b(j: int) -> int {
    if j == 16 { 4 } else if j == 17 { 2 } else if j == 18 { 5 } else if j == 19 { 7 } else if j == 20 { 11 } else if j == 21 { 9 } else if j == 22 { 15 } else if j == 23 { 14 } else if j == 24 { 17 } else if j == 25 { 21 } else if j == 26 { 19 } else if j == 27 { 23 } else if j == 28 { 25 } else if j == 29 { 27 } else { 29 }
}

/// The match that the winner at bracket position `x` goes on to.
spec fn next_match(x: int) -> int {
    if x == 0 { 17 } else if x == 1 { 16 } else if x == 2 { 17 } else if x == 3 { 18 } else if x == 4 { 16 } else if x == 5 { 18 } else if x == 6 { 19 } else if x == 7 { 19 } else if x == 8 { 21 } else if x == 9 { 21 } else if x == 10 { 20 } else if x == 11 { 20 } else if x == 12 { 23 } else if x == 13 { 22 } else if x == 14 { 23 } else if x == 15 { 22 } else if x == 16 { 24 } else if x == 17 { 24 } else if x == 18 { 26 } else if x == 19 { 26 } else if x == 20 { 25 } else if x == 21 { 25 } else if x == 22 { 27 } else if x == 23 { 27 } else if x == 24 { 28 } else if x == 25 { 28 } else if x == 26 { 29 } else if x == 27 { 29 } else if x == 28 { 30 } else { 30 }
}

proof fn lemma_feeders()
    ensures
        forall|j: int|
            16 <= j < 31 ==> (#[trigger] knockout_spec()[j]).a == Source::MatchWinner(kid(feeder_a(j)))
                && knockout_spec()[j].b == Source::MatchWinner(kid(feeder_b(j))),
        forall|j: int|
            16 <= j < 31 ==> 0 <= #[trigger] feeder_a(j) < j && 0 <= feeder_b(j) < j && next_match(feeder_a(j)) == j
                && next_match(feeder_b(j)) == j && feeder_a(j) != feeder_b(j)
                && reach_range(round_index(round_at(j)) - 1).0 <= feeder_a(j) < reach_range(round_index(round_at(j)) - 1).0
                + reach_range(round_index(round_at(j)) - 1).1
                && reach_range(round_index(round_at(j)) - 1).0 <= feeder_b(j) < reach_range(round_index(round_at(j)) - 1).0
                + reach_range(round_index(round_at(j)) - 1).1,
        forall|x: int| 0 <= x < 31 ==> ko_index(#[trigger] kid(x)) == x,
{
    lemma_kid_values();
    lemma_bracket_shape();
    assert forall|j: int| 16 <= j < 31 implies (#[trigger] knockout_spec()[j]).a == Source::MatchWinner(kid(feeder_a(j)))
        && knockout_spec()[j].b == Source::MatchWinner(kid(feeder_b(j))) by {
        if j == 16 {} else if j == 17 {} else if j == 18 {} else if j == 19 {} else if j == 20 {} else if j == 21 {} else if j == 22 {} else if j == 23 {} else if j == 24 {} else if j == 25 {} else if j == 26 {} else if j == 27 {} else if j == 28 {} else if j == 29 {} else if j == 30 {}
    }
}

impl TournamentRun {
    /// The qualified thirds are third-placed teams of different groups, so a team is among
    /// them at most as often as it finished third.
    proof fn lemma_thirds_among_places(&self, data: Data, t: usize)
        requires
            self.wf(data),
            self.scores@.len() == 12,
        ensures
            count(self.third_seq(data, 8), t) <= count(self.place_seq(data, 2, 12), t),
    {
        let keys = Seq::new(12, |g: int| self.third_key(g));
        let r = lemma_ranking_exists(keys);
        assert(self.third_rank() == r);
        let f = |i: int| r[i] as int;
        assert forall|i: int| 0 <= i < 8 implies 0 <= #[trigger] f(i) < 12 && self.third_seq(data, 8)[i]
            == self.place_seq(data, 2, 12)[f(i)] by {
            assert(r[i] < 12);
        }
        assert forall|i: int, j: int| 0 <= i < 8 && 0 <= j < 8 && i != j implies #[trigger] f(i) != #[trigger] f(j) by {
            if i < j {
                assert(ranks_before(keys, r[i], r[j]));
            } else {
                assert(ranks_before(keys, r[j], r[i]));
            }
        }
        lemma_count_le_map(self.third_seq(data, 8), self.place_seq(data, 2, 12), f, t);
    }

    /// The winners of a knockout round come from the winners of the round before, each
    /// earlier match feeding one later match, so a team wins a round at most as often as it
    /// won the round before.
    proof fn lemma_round_winners(&self, data: Data, r: int, t: usize)
        requires
            self.wf(data),
            self.finished(),
            1 <= r < 5,
        ensures
            count(self.winner_seq(data, reach_range(r).0, reach_range(r).1), t) <= count(
                self.winner_seq(data, reach_range(r - 1).0, reach_range(r - 1).1),
                t,
            ),
    {
        lemma_feeders();
        let lo1 = reach_range(r).0;
        let len1 = reach_range(r).1;
        let lo0 = reach_range(r - 1).0;
        let len0 = reach_range(r - 1).1;
        let s1 = self.winner_seq(data, lo1, len1);
        let s0 = self.winner_seq(data, lo0, len0);
        let f = |k: int|
            if self.winner(data, lo1 + k)->0 == self.winner(data, feeder_a(lo1 + k))->0 {
                feeder_a(lo1 + k) - lo0
            } else {
                feeder_b(lo1 + k) - lo0
            };
        assert forall|k: int| 0 <= k < s1.len() implies 0 <= #[trigger] f(k) < s0.len() && s1[k] == s0[f(k)] by {
            let j = lo1 + k;
            assert(16 <= j < 31);
            assert(round_index(round_at(j)) == r);
            let km = knockout_spec()[j];
            assert(self.sides_of(data, j) is Some);
            assert(self.source(data, km.a, j) == self.winner(data, feeder_a(j)));
            assert(self.source(data, km.b, j) == self.winner(data, feeder_b(j)));
        }
        assert forall|k1: int, k2: int| 0 <= k1 < s1.len() && 0 <= k2 < s1.len() && k1 != k2 implies #[trigger] f(k1)
            != #[trigger] f(k2) by {
            assert(next_match(f(k1) + lo0) == lo1 + k1);
            assert(next_match(f(k2) + lo0) == lo1 + k2);
        }
        lemma_count_le_map(s1, s0, f, t);
    }
}

/// Adds one to entry `t` of the list that `m` holds under `id`.
fn bump_map(m: &mut HashMap<u32, Vec<u64>>, id: u32, t: usize)
    requires
        old(m)@.contains_key(id),
        t < old(m)@[id]@.len(),
        old(m)@[id]@[t as int] < u64::MAX,
    ensures
        final(m)@.dom() == old(m)@.dom(),
        final(m)@[id]@ == old(m)@[id]@.update(t as int, (old(m)@[id]@[t as int] + 1) as u64),
        forall|k: u32| k != id && old(m)@.contains_key(k) ==> final(m)@[k] == old(m)@[k],
{
    broadcast use vstd::std_specs::hash::group_hash_axioms;
    let mut row = m.remove(&id).unwrap();
    row.set(t, row[t] + 1);
    m.insert(id, row);
    assert(m@.dom() =~= old(m)@.dom());
}

impl TournamentRun {
    proof fn lemma_meetings_bound(&self, data: Data, a: usize, r: int, b: usize, m: int)
        requires
            0 <= m,
        ensures
            0 <= self.meetings(data, a, r, b, m) <= 2 * m,
        decreases m,
    {
        if m > 0 {
            self.lemma_meetings_bound(data, a, r, b, m - 1);
        }
    }

    proof fn lemma_points_before_bound(&self, data: Data, t: usize, g: int)
        requires
            self.wf(data),
            self.scores@.len() == 12,
            0 <= g <= 12,
        ensures
            0 <= self.points_before(data, t, g) <= 72 * g,
        decreases g,
    {
        if g > 0 {
            self.lemma_points_before_bound(data, t, g - 1);
            self.lemma_points_in_bound(data, t, g - 1, 4);
        }
    }

    proof fn lemma_points_in_bound(&self, data: Data, t: usize, g: int, k: int)
        requires
            self.wf(data),
            self.scores@.len() == 12,
            0 <= g < 12,
            0 <= k <= 4,
        ensures
            0 <= self.points_in(data, t, g, k) <= 18 * k,
        decreases k,
    {
        if k > 0 {
            self.lemma_points_in_bound(data, t, g, k - 1);
            self.lemma_place_facts(data, g, k - 1);
        }
    }
}

/// The teams that enter the round of 32 in one tournament: the twelve group winners, the
/// twelve runners-up (both by group) and the eight qualified thirds (best first).
spec fn entrants(run: TournamentRun, data: Data) -> Seq<usize> {
    run.place_seq(data, 0, 12) + run.place_seq(data, 1, 12) + run.third_seq(data, 8)
}

proof fn lemma_count_concat(s1: Seq<usize>, s2: Seq<usize>, t: usize)
    ensures
        count(s1 + s2, t) == count(s1, t) + count(s2, t),
    decreases s2.len(),
{
    if s2.len() > 0 {
        lemma_count_concat(s1, s2.drop_last(), t);
        assert((s1 + s2).drop_last() =~= s1 + s2.drop_last());
    }
}

/// `src` names the group winner or runner-up at position `p` of `entrants`.
spec fn names_entrant(src: Source, p: int) -> bool {
    match src {
        Source::Winner(g) => is_group(g) && g as int - 65 == p,
        Source::RunnerUp(g) => is_group(g) && 12 + g as int - 65 == p,
        _ => false,
    }
}

/// Position in `entrants` of side A of round-of-32 match `j`.
spec fn r32_pos_a(j: int) -> int {
    if j == 0 { 12 } else if j == 1 { 4 } else if j == 2 { 5 } else if j == 3 { 2 } else if j == 4 { 8 } else if j == 5 { 16 } else if j == 6 { 0 } else if j == 7 { 11 } else if j == 8 { 3 } else if j == 9 { 6 } else if j == 10 { 22 } else if j == 11 { 7 } else if j == 12 { 1 } else if j == 13 { 9 } else if j == 14 { 10 } else { 15 }
}

/// Position in `entrants` of side B of round-of-32 match `j`, where that side is no third.
spec fn r32_pos_b(j: int) -> int {
    if j == 0 { 13 } else if j == 2 { 14 } else if j == 3 { 17 } else if j == 5 { 20 } else if j == 10 { 23 } else if j == 11 { 21 } else if j == 13 { 19 } else { 18 }
}

/// The third-place slot (index into the slot table) of round-of-32 match `j`, or -1.
spec fn r32_third_slot(j: int) -> int {
    if j == 1 { 0 } else if j == 4 { 1 } else if j == 6 { 2 } else if j == 7 { 3 } else if j == 8 { 4 } else if j == 9 { 5 } else if j == 12 { 6 } else if j == 14 { 7 } else { -1 }
}

/// The round-of-32 match of third-place slot `k`.
spec fn r32_third_match(k: int) -> int {
    if k == 0 { 1 } else if k == 1 { 4 } else if k == 2 { 6 } else if k == 3 { 7 } else if k == 4 { 8 } else if k == 5 { 9 } else if k == 6 { 12 } else { 14 }
}

/// The round-of-32 match in which the group winner or runner-up at position `p` plays.
spec fn r32_owner(p: int) -> int {
    if p == 0 { 6 } else if p == 1 { 12 } else if p == 2 { 3 } else if p == 3 { 8 } else if p == 4 { 1 } else if p == 5 { 2 } else if p == 6 { 9 } else if p == 7 { 11 } else if p == 8 { 4 } else if p == 9 { 13 } else if p == 10 { 14 } else if p == 11 { 7 } else if p == 12 { 0 } else if p == 13 { 0 } else if p == 14 { 2 } else if p == 15 { 15 } else if p == 16 { 5 } else if p == 17 { 3 } else if p == 18 { 15 } else if p == 19 { 13 } else if p == 20 { 5 } else if p == 21 { 11 } else if p == 22 { 10 } else { 10 }
}

/// The round-of-32 position tables agree with the bracket: every group winner and runner-up
/// stands on one side of one match, and the third-place slots are the sides B of their
/// matches, with match numbers in increasing order.
proof fn lemma_r32_table()
    ensures
        forall|j: int|
            0 <= j < 16 ==> {
                &&& 0 <= #[trigger] r32_pos_a(j) < 24
                &&& r32_owner(r32_pos_a(j)) == j
                &&& names_entrant(knockout_spec()[j].a, r32_pos_a(j))
                &&& -1 <= r32_third_slot(j) < 8
                &&& r32_third_slot(j) >= 0 ==> knockout_spec()[j].b == Source::Third && knockout_spec()[j].id
                    == third_slots_spec()[r32_third_slot(j)].0 && r32_third_match(r32_third_slot(j)) == j
                &&& r32_third_slot(j) < 0 ==> 0 <= r32_pos_b(j) < 24 && r32_owner(r32_pos_b(j)) == j
                    && names_entrant(knockout_spec()[j].b, r32_pos_b(j)) && r32_pos_b(j) != r32_pos_a(j)
            },
        forall|i: int, k: int| 0 <= i < k < 8 ==> #[trigger] third_slots_spec()[i].0 < #[trigger] third_slots_spec()[k].0,
        forall|p: int|
            0 <= p < 24 ==> 0 <= #[trigger] r32_owner(p) < 16 && (r32_pos_a(r32_owner(p)) == p || (r32_third_slot(
                r32_owner(p),
            ) < 0 && r32_pos_b(r32_owner(p)) == p)),
        forall|k: int| 0 <= k < 8 ==> 0 <= #[trigger] r32_third_match(k) < 16 && r32_third_slot(r32_third_match(k)) == k,
{
    let ts = third_slots_spec();
    assert(ts[0].0 == 74 && ts[1].0 == 77 && ts[2].0 == 79 && ts[3].0 == 80);
    assert(ts[4].0 == 81 && ts[5].0 == 82 && ts[6].0 == 85 && ts[7].0 == 87);
    assert forall|j: int| 0 <= j < 16 implies {
        &&& 0 <= #[trigger] r32_pos_a(j) < 24
        &&& r32_owner(r32_pos_a(j)) == j
        &&& names_entrant(knockout_spec()[j].a, r32_pos_a(j))
        &&& -1 <= r32_third_slot(j) < 8
        &&& r32_third_slot(j) >= 0 ==> knockout_spec()[j].b == Source::Third && knockout_spec()[j].id
            == third_slots_spec()[r32_third_slot(j)].0 && r32_third_match(r32_third_slot(j)) == j
        &&& r32_third_slot(j) < 0 ==> 0 <= r32_pos_b(j) < 24 && r32_owner(r32_pos_b(j)) == j
            && names_entrant(knockout_spec()[j].b, r32_pos_b(j)) && r32_pos_b(j) != r32_pos_a(j)
    } by {
        if j == 0 {} else if j == 1 {} else if j == 2 {} else if j == 3 {} else if j == 4 {} else if j == 5 {} else if j == 6 {} else if j == 7 {} else if j == 8 {} else if j == 9 {} else if j == 10 {} else if j == 11 {} else if j == 12 {} else if j == 13 {} else if j == 14 {} else {}
    }
    assert forall|p: int| 0 <= p < 24 implies 0 <= #[trigger] r32_owner(p) < 16 && (r32_pos_a(r32_owner(p)) == p || (
    r32_third_slot(r32_owner(p)) < 0 && r32_pos_b(r32_owner(p)) == p)) by {
        if p == 0 {} else if p == 1 {} else if p == 2 {} else if p == 3 {} else if p == 4 {} else if p == 5 {} else if p == 6 {} else if p == 7 {} else if p == 8 {} else if p == 9 {} else if p == 10 {} else if p == 11 {} else if p == 12 {} else if p == 13 {} else if p == 14 {} else if p == 15 {} else if p == 16 {} else if p == 17 {} else if p == 18 {} else if p == 19 {} else if p == 20 {} else if p == 21 {} else if p == 22 {} else {}
    }
}

/// In a slotting whose match numbers are distinct, the group slotted into the match number at
/// position `k` is the one listed there.
proof fn lemma_assigned_group_at(a: Seq<(u32, char)>, id: u32, k: int)
    requires
        0 <= k < a.len(),
        a[k].0 == id,
        forall|i: int| 0 <= i < k ==> #[trigger] a[i].0 != id,
    ensures
        crate::analysis::assigned_group(a, id) == Some(a[k].1),
    decreases k,
{
    if k > 0 {
        assert(a[0].0 != id);
        assert forall|i: int| 0 <= i < k - 1 implies #[trigger] a.drop_first()[i].0 != id by {
            assert(a.drop_first()[i] == a[i + 1]);
        }
        lemma_assigned_group_at(a.drop_first(), id, k - 1);
    }
}

/// Both sides of knockout matches `lo..lo+len`: first every side A, then every side B.
spec fn side_seq(run: TournamentRun, data: Data, lo: int, len: int) -> Seq<usize> {
    Seq::new(
        (2 * len) as nat,
        |i: int|
            if i < len {
                (run.sides_of(data, lo + i)->0).0
            } else {
                (run.sides_of(data, lo + i - len)->0).1
            },
    )
}

/// The position among the first eight of ranking `r` that holds group `g`.
spec fn rank_pos(r: Seq<usize>, g: int) -> int {
    choose|i: int| 0 <= i < 8 && r[i] as int == g
}

/// The slotting of a finished run as positions among the qualified thirds: slot `k` of the
/// third-place table gets the third at position `c[k]` of the ranking, each position once.
proof fn lemma_third_positions(run: TournamentRun, data: Data) -> (c: Seq<usize>)
    requires
        run.wf(data),
        run.finished(),
    ensures
        c.len() == 8,
        forall|k: int| 0 <= k < 8 ==> #[trigger] c[k] < 8,
        forall|k1: int, k2: int| 0 <= k1 < 8 && 0 <= k2 < 8 && k1 != k2 ==> #[trigger] c[k1] != #[trigger] c[k2],
        forall|q: usize| q < 8 ==> #[trigger] c.contains(q),
        forall|k: int| 0 <= k < 8 ==> #[trigger] run.third_for(data, third_slots_spec()[k].0) == Some(
            entrants(run, data)[24 + c[k] as int],
        ),
{
    lemma_r32_table();
    lemma_bracket_shape();
    let slots = third_slots_spec();
    let ranked = run.third_letters();
    let mask = group_mask(ranked);
    reveal(canonical_thirds);
    let letters = canonical_thirds(ranked);
    assert(letters == letters_in(mask, 12));
    lemma_letters_in(mask, 12);
    let a = run.assignment()->0;
    assert(is_third_assignment(letters, slots, a));
    let c0 = choose|c: Seq<usize>|
        valid_choice(letters, slots, 0, none_used(letters.len()), c) && #[trigger] describes(letters, slots, c, a);
    let keys = Seq::new(12, |g: int| run.third_key(g));
    let r = lemma_ranking_exists(keys);
    assert(run.third_rank() == r);
    let e = entrants(run, data);
    assert(e.len() == 32);
    let c = Seq::new(8, |k: int| rank_pos(r, letters[c0[k] as int] as int - 65) as usize);
    assert forall|k: int| 0 <= k < 8 implies #[trigger] c[k] < 8 && r[c[k] as int] as int == letters[c0[k] as int] as int
        - 65 by {
        assert(c0[k] < letters.len());
        let g = letters[c0[k] as int] as int - 65;
        assert(mask[g]);
        assert(ranked.contains(group_letter(g)));
        let i = choose|i: int| 0 <= i < ranked.len() && ranked[i] == group_letter(g);
        assert(r[i] < 12);
        assert(group_letter(r[i] as int) == group_letter(g));
        assert(r[i] as int == g);
        assert(0 <= i < 8 && r[i] as int == g);
    }
    assert forall|k: int| 0 <= k < 8 implies #[trigger] run.third_for(data, slots[k].0) == Some(
        e[24 + c[k] as int],
    ) by {
        assert forall|i: int| 0 <= i < k implies #[trigger] a[i].0 != slots[k].0 by {
            assert(a[i] == (slots[i].0, letters[c0[i] as int]));
            assert(slots[i].0 < slots[k].0);
        }
        assert(a[k] == (slots[k].0, letters[c0[k] as int]));
        lemma_assigned_group_at(a, slots[k].0, k);
        assert(c[k] < 8 && r[c[k] as int] as int == letters[c0[k] as int] as int - 65);
        assert(c0[k] < letters.len());
    }
    assert forall|k1: int, k2: int| 0 <= k1 < 8 && 0 <= k2 < 8 && k1 != k2 implies #[trigger] c[k1] != #[trigger] c[k2] by {
        assert(c[k1] < 8 && r[c[k1] as int] as int == letters[c0[k1] as int] as int - 65);
        assert(c[k2] < 8 && r[c[k2] as int] as int == letters[c0[k2] as int] as int - 65);
        assert(c0[k1] != c0[k2]);
        assert(c0[k1] < letters.len() && c0[k2] < letters.len());
        if c0[k1] < c0[k2] {
            assert((letters[c0[k1] as int] as int) < (letters[c0[k2] as int] as int));
        } else {
            assert((letters[c0[k2] as int] as int) < (letters[c0[k1] as int] as int));
        }
    }
    let ci = Seq::new(8, |k: int| c[k] as int);
    assert(ci.no_duplicates()) by {
        assert forall|i: int, j: int| 0 <= i < ci.len() && 0 <= j < ci.len() && i != j implies ci[i] != ci[j] by {
            assert(c[i] != c[j]);
        }
    }
    ci.unique_seq_to_set();
    vstd::set_lib::lemma_int_range(0, 8);
    assert(ci.to_set().subset_of(vstd::set_lib::set_int_range(0, 8))) by {
        assert forall|x: int| ci.to_set().contains(x) implies vstd::set_lib::set_int_range(0, 8).contains(x) by {
            let k = choose|k: int| 0 <= k < ci.len() && ci[k] == x;
            assert(c[k] < 8);
        }
    }
    vstd::set_lib::lemma_subset_equality(ci.to_set(), vstd::set_lib::set_int_range(0, 8));
    assert forall|q: usize| q < 8 implies #[trigger] c.contains(q) by {
        assert(vstd::set_lib::set_int_range(0, 8).contains(q as int));
        assert(ci.to_set().contains(q as int));
        let k = choose|k: int| 0 <= k < ci.len() && ci[k] == q as int;
        assert(c[k] == q);
    }
    c
}

/// Each round-of-32 match is played between two entrants (group winners, runners-up and
/// qualified thirds), each entrant on one side of one match: a team stands on a round-of-32
/// side exactly as often as it enters.
proof fn lemma_r32_sides_entered(run: TournamentRun, data: Data, t: usize)
    requires
        run.wf(data),
        run.finished(),
    ensures
        count(side_seq(run, data, 0, 16), t) == count(entrants(run, data), t),
{
    lemma_r32_table();
    lemma_bracket_shape();
    let c = lemma_third_positions(run, data);
    let slots = third_slots_spec();
    let e = entrants(run, data);
    assert(e.len() == 32);
    let pos = |i: int|
        if i < 16 {
            r32_pos_a(i)
        } else if r32_third_slot(i - 16) >= 0 {
            24 + c[r32_third_slot(i - 16)] as int
        } else {
            r32_pos_b(i - 16)
        };
    let s1 = side_seq(run, data, 0, 16);
    assert forall|i: int| 0 <= i < s1.len() implies 0 <= #[trigger] pos(i) < e.len() && s1[i] == e[pos(i)]
        && (i < 16 ==> pos(i) < 24 && r32_owner(pos(i)) == i) && (i >= 16 && pos(i) < 24 ==> r32_owner(pos(i))
        == i - 16 && r32_third_slot(i - 16) < 0 && pos(i) == r32_pos_b(i - 16)) && (pos(i) >= 24 ==> i >= 16
        && r32_third_slot(i - 16) >= 0 && pos(i) == 24 + c[r32_third_slot(i - 16)] as int) by {
        let k = if i < 16 { i } else { i - 16 };
        assert(run.sides_of(data, k) is Some);
        let km = knockout_spec()[k];
        let h = (run.sides_of(data, k)->0).0;
        let aw = (run.sides_of(data, k)->0).1;
        assert(run.source(data, km.a, k) == Some(h));
        assert(run.source(data, km.b, k) == Some(aw));
        assert(names_entrant(km.a, r32_pos_a(k)));
        if r32_third_slot(k) >= 0 {
            let sl = r32_third_slot(k);
            assert(run.third_for(data, slots[sl].0) == Some(e[24 + c[sl] as int]));
            assert(c[sl] < 8);
        } else {
            assert(names_entrant(km.b, r32_pos_b(k)));
        }
    }
    assert forall|i1: int, i2: int| 0 <= i1 < s1.len() && 0 <= i2 < s1.len() && i1 != i2 implies #[trigger] pos(i1)
        != #[trigger] pos(i2) by {
        if pos(i1) == pos(i2) {
            if pos(i1) >= 24 {
                assert(c[r32_third_slot(i1 - 16)] == c[r32_third_slot(i2 - 16)]);
                assert(r32_third_slot(i1 - 16) == r32_third_slot(i2 - 16));
                assert(r32_third_match(r32_third_slot(i1 - 16)) == i1 - 16);
                assert(r32_third_match(r32_third_slot(i2 - 16)) == i2 - 16);
            } else if i1 < 16 && i2 >= 16 {
                assert(r32_pos_b(i1) != r32_pos_a(i1));
            } else if i2 < 16 && i1 >= 16 {
                assert(r32_pos_b(i2) != r32_pos_a(i2));
            }
        }
    }
    lemma_count_le_map(s1, e, pos, t);
    let back = |p: int|
        if p < 24 {
            if r32_pos_a(r32_owner(p)) == p {
                r32_owner(p)
            } else {
                16 + r32_owner(p)
            }
        } else {
            16 + r32_third_match(choose|k: int| 0 <= k < c.len() && c[k] == (p - 24) as usize)
        };
    assert forall|p: int| 0 <= p < e.len() implies 0 <= #[trigger] back(p) < s1.len() && e[p] == s1[back(p)]
        && (p < 24 ==> r32_third_slot(back(p) % 16) < 0 || back(p) < 16) && (p >= 24 ==> back(p) >= 16
        && r32_third_slot(back(p) - 16) >= 0 && c[r32_third_slot(back(p) - 16)] == p - 24) by {
        if p < 24 {
            let k = r32_owner(p);
            assert(0 <= k < 16);
            assert(pos(k) == r32_pos_a(k));
            if r32_pos_a(k) != p {
                assert(r32_third_slot(k) < 0 && r32_pos_b(k) == p);
                assert(pos(16 + k) == p);
            }
        } else {
            assert(c.contains((p - 24) as usize));
            let sl = choose|k: int| 0 <= k < c.len() && c[k] == (p - 24) as usize;
            let k = r32_third_match(sl);
            assert(r32_third_slot(k) == sl);
            assert(pos(16 + k) == 24 + c[sl] as int);
        }
    }
    assert forall|p1: int, p2: int| 0 <= p1 < e.len() && 0 <= p2 < e.len() && p1 != p2 implies #[trigger] back(p1)
        != #[trigger] back(p2) by {
        if back(p1) == back(p2) {
            let i = back(p1);
            if p1 < 24 && p2 < 24 {
                if i < 16 {
                    assert(r32_pos_a(r32_owner(p1)) == p1);
                    assert(r32_pos_a(r32_owner(p2)) == p2);
                } else {
                    assert(r32_pos_b(i - 16) == p1);
                    assert(r32_pos_b(i - 16) == p2);
                }
            }
        }
    }
    lemma_count_le_map(e, s1, back, t);
}

/// The winner of a match is one of its two sides.
proof fn lemma_winners_among_sides(run: TournamentRun, data: Data, r: int, t: usize)
    requires
        run.wf(data),
        run.finished(),
        0 <= r < 5,
    ensures
        count(run.winner_seq(data, reach_range(r).0, reach_range(r).1), t) <= count(
            side_seq(run, data, reach_range(r).0, reach_range(r).1),
            t,
        ),
{
    let lo = reach_range(r).0;
    let len = reach_range(r).1;
    let s1 = run.winner_seq(data, lo, len);
    let s2 = side_seq(run, data, lo, len);
    let f = |k: int| if run.winner(data, lo + k)->0 == (run.sides_of(data, lo + k)->0).0 { k } else { len + k };
    assert forall|k: int| 0 <= k < s1.len() implies 0 <= #[trigger] f(k) < s2.len() && s1[k] == s2[f(k)] by {
        assert(run.sides_of(data, lo + k) is Some);
        assert(s2[len + k] == (run.sides_of(data, lo + k)->0).1);
    }
    assert forall|k1: int, k2: int| 0 <= k1 < s1.len() && 0 <= k2 < s1.len() && k1 != k2 implies #[trigger] f(k1)
        != #[trigger] f(k2) by {}
    lemma_count_le_map(s1, s2, f, t);
}

/// Every knockout match but the final feeds one side of a match of the next round.
proof fn lemma_next_match_feeds()
    ensures
        forall|x: int|
            0 <= x < 30 ==> 16 <= #[trigger] next_match(x) < 31 && (feeder_a(next_match(x)) == x || feeder_b(
                next_match(x),
            ) == x) && round_index(round_at(next_match(x))) == round_index(round_at(x)) + 1,
{
    assert forall|x: int| 0 <= x < 30 implies 16 <= #[trigger] next_match(x) < 31 && (feeder_a(next_match(x)) == x
        || feeder_b(next_match(x)) == x) && round_index(round_at(next_match(x))) == round_index(round_at(x)) + 1 by {
        if x == 0 {} else if x == 1 {} else if x == 2 {} else if x == 3 {} else if x == 4 {} else if x == 5 {} else if x == 6 {} else if x == 7 {} else if x == 8 {} else if x == 9 {} else if x == 10 {} else if x == 11 {} else if x == 12 {} else if x == 13 {} else if x == 14 {} else if x == 15 {} else if x == 16 {} else if x == 17 {} else if x == 18 {} else if x == 19 {} else if x == 20 {} else if x == 21 {} else if x == 22 {} else if x == 23 {} else if x == 24 {} else if x == 25 {} else if x == 26 {} else if x == 27 {} else if x == 28 {} else {}
    }
}

/// From the round of 16 on, each side is the winner of one match of the round before, and
/// each such match feeds one side: a team stands on a side of a round exactly as often as it
/// won a match of the round before.
#[verifier::rlimit(40)]
proof fn lemma_sides_from_winners(run: TournamentRun, data: Data, r: int, t: usize)
    requires
        run.wf(data),
        run.finished(),
        1 <= r < 5,
    ensures
        count(side_seq(run, data, reach_range(r).0, reach_range(r).1), t) == count(
            run.winner_seq(data, reach_range(r - 1).0, reach_range(r - 1).1),
            t,
        ),
{
    lemma_feeders();
    lemma_next_match_feeds();
    let lo1 = reach_range(r).0;
    let len1 = reach_range(r).1;
    let lo0 = reach_range(r - 1).0;
    let len0 = reach_range(r - 1).1;
    let s1 = side_seq(run, data, lo1, len1);
    let s0 = run.winner_seq(data, lo0, len0);
    let f = |i: int| if i < len1 { feeder_a(lo1 + i) - lo0 } else { feeder_b(lo1 + i - len1) - lo0 };
    assert forall|i: int| 0 <= i < s1.len() implies 0 <= #[trigger] f(i) < s0.len() && s1[i] == s0[f(i)] by {
        let j = if i < len1 { lo1 + i } else { lo1 + i - len1 };
        assert(16 <= j < 31);
        assert(round_index(round_at(j)) == r);
        let km = knockout_spec()[j];
        assert(run.sides_of(data, j) is Some);
        assert(run.source(data, km.a, j) == run.winner(data, feeder_a(j)));
        assert(run.source(data, km.b, j) == run.winner(data, feeder_b(j)));
    }
    assert forall|i1: int, i2: int| 0 <= i1 < s1.len() && 0 <= i2 < s1.len() && i1 != i2 implies #[trigger] f(i1)
        != #[trigger] f(i2) by {
        let j1 = if i1 < len1 { lo1 + i1 } else { lo1 + i1 - len1 };
        let j2 = if i2 < len1 { lo1 + i2 } else { lo1 + i2 - len1 };
        assert(next_match(f(i1) + lo0) == j1);
        assert(next_match(f(i2) + lo0) == j2);
    }
    lemma_count_le_map(s1, s0, f, t);
    let g = |k: int|
        if feeder_a(next_match(lo0 + k)) == lo0 + k {
            next_match(lo0 + k) - lo1
        } else {
            len1 + next_match(lo0 + k) - lo1
        };
    assert forall|k: int| 0 <= k < s0.len() implies 0 <= #[trigger] g(k) < s1.len() && s0[k] == s1[g(k)] by {
        let x = lo0 + k;
        assert(round_index(round_at(x)) == r - 1);
        let j = next_match(x);
        assert(round_index(round_at(j)) == r);
        assert(lo1 <= j < lo1 + len1);
        let km = knockout_spec()[j];
        assert(run.sides_of(data, j) is Some);
        assert(run.source(data, km.a, j) == run.winner(data, feeder_a(j)));
        assert(run.source(data, km.b, j) == run.winner(data, feeder_b(j)));
    }
    assert forall|k1: int, k2: int| 0 <= k1 < s0.len() && 0 <= k2 < s0.len() && k1 != k2 implies #[trigger] g(k1)
        != #[trigger] g(k2) by {
        assert(round_index(round_at(next_match(lo0 + k1))) == r);
        assert(round_index(round_at(next_match(lo0 + k2))) == r);
    }
    lemma_count_le_map(s0, s1, g, t);
}

/// How often `a` stands on a side of a round-`r` match among knockout matches `0..m` with an
/// opponent below `n`.
spec fn hits(run: TournamentRun, data: Data, a: usize, r: int, n: int, m: int) -> int
    decreases m,
{
    if m <= 0 {
        0
    } else {
        let s = run.sides_of(data, m - 1)->0;
        hits(run, data, a, r, n, m - 1) + if round_index(round_at(m - 1)) == r {
            (if s.0 == a && s.1 < n {
                1int
            } else {
                0int
            }) + (if s.1 == a && s.0 < n {
                1int
            } else {
                0int
            })
        } else {
            0
        }
    }
}

/// How often `a` met any of the teams `0..n` in round `r`.
spec fn meetings_upto(run: TournamentRun, data: Data, a: usize, r: int, n: int) -> int
    decreases n,
{
    if n <= 0 {
        0
    } else {
        meetings_upto(run, data, a, r, n - 1) + run.meetings(data, a, r, (n - 1) as usize, 31)
    }
}

proof fn lemma_hits_none(run: TournamentRun, data: Data, a: usize, r: int, m: int)
    ensures
        hits(run, data, a, r, 0, m) == 0,
    decreases m,
{
    if m > 0 {
        lemma_hits_none(run, data, a, r, m - 1);
    }
}

proof fn lemma_hits_step(run: TournamentRun, data: Data, a: usize, r: int, b: usize, m: int)
    ensures
        hits(run, data, a, r, b + 1, m) == hits(run, data, a, r, b as int, m) + run.meetings(data, a, r, b, m),
    decreases m,
{
    if m > 0 {
        lemma_hits_step(run, data, a, r, b, m - 1);
    }
}

proof fn lemma_meetings_hits(run: TournamentRun, data: Data, a: usize, r: int, n: int)
    requires
        0 <= n <= usize::MAX,
    ensures
        meetings_upto(run, data, a, r, n) == hits(run, data, a, r, n, 31),
    decreases n,
{
    if n > 0 {
        lemma_meetings_hits(run, data, a, r, n - 1);
        lemma_hits_step(run, data, a, r, (n - 1) as usize, 31);
    } else {
        lemma_hits_none(run, data, a, r, 31);
    }
}

proof fn lemma_hits_sides(run: TournamentRun, data: Data, a: usize, r: int, m: int)
    requires
        run.wf(data),
        run.finished(),
        0 <= r < 5,
        0 <= m <= 31,
    ensures
        hits(run, data, a, r, data.teams@.len() as int, m) == count(
            Seq::new(
                span(m, reach_range(r).0, reach_range(r).1) as nat,
                |i: int| (run.sides_of(data, reach_range(r).0 + i)->0).0,
            ),
            a,
        ) + count(
            Seq::new(
                span(m, reach_range(r).0, reach_range(r).1) as nat,
                |i: int| (run.sides_of(data, reach_range(r).0 + i)->0).1,
            ),
            a,
        ),
    decreases m,
{
    let lo = reach_range(r).0;
    let len = reach_range(r).1;
    let fa = |i: int| (run.sides_of(data, lo + i)->0).0;
    let fb = |i: int| (run.sides_of(data, lo + i)->0).1;
    if m > 0 {
        lemma_hits_sides(run, data, a, r, m - 1);
        let j = m - 1;
        assert(run.sides_of(data, j) is Some);
        assert(run.sides@[j] == run.sides_of(data, j)->0);
        let k0 = span(m - 1, lo, len);
        if round_index(round_at(j)) == r {
            assert(lo <= j < lo + len);
            assert(span(m, lo, len) == k0 + 1);
            assert(Seq::new((k0 + 1) as nat, fa) =~= Seq::new(k0 as nat, fa).push(fa(k0)));
            assert(Seq::new((k0 + 1) as nat, fb) =~= Seq::new(k0 as nat, fb).push(fb(k0)));
            lemma_count_push(Seq::new(k0 as nat, fa), fa(k0), a);
            lemma_count_push(Seq::new(k0 as nat, fb), fb(k0), a);
        } else {
            assert(!(lo <= j < lo + len));
            assert(span(m, lo, len) == k0);
        }
    } else {
        assert(Seq::new(span(m, lo, len) as nat, fa) =~= Seq::<usize>::empty());
        assert(Seq::new(span(m, lo, len) as nat, fb) =~= Seq::<usize>::empty());
    }
}

/// In round `r` a team meets, over all opponents, as many teams as it stands on sides.
proof fn lemma_meetings_are_sides(run: TournamentRun, data: Data, a: usize, r: int)
    requires
        run.wf(data),
        run.finished(),
        0 <= r < 5,
        data.teams@.len() <= usize::MAX,
    ensures
        meetings_upto(run, data, a, r, data.teams@.len() as int) == count(
            side_seq(run, data, reach_range(r).0, reach_range(r).1),
            a,
        ),
{
    let lo = reach_range(r).0;
    let len = reach_range(r).1;
    lemma_meetings_hits(run, data, a, r, data.teams@.len() as int);
    lemma_hits_sides(run, data, a, r, 31);
    let sa = Seq::new(len as nat, |i: int| (run.sides_of(data, lo + i)->0).0);
    let sb = Seq::new(len as nat, |i: int| (run.sides_of(data, lo + i)->0).1);
    assert(span(31, lo, len) == len);
    assert(side_seq(run, data, lo, len) =~= sa + sb);
    lemma_count_concat(sa, sb, a);
}

/// One opponent's meetings are part of the meetings with all opponents.
proof fn lemma_meeting_in_row(run: TournamentRun, data: Data, a: usize, r: int, b: usize, n: int)
    requires
        0 <= b < n,
    ensures
        run.meetings(data, a, r, b, 31) <= meetings_upto(run, data, a, r, n),
    decreases n,
{
    run.lemma_meetings_bound(data, a, r, (n - 1) as usize, 31);
    if b < n - 1 {
        lemma_meeting_in_row(run, data, a, r, b, n - 1);
        lemma_meetings_upto_nonneg(run, data, a, r, n - 1);
    } else {
        lemma_meetings_upto_nonneg(run, data, a, r, n - 1);
    }
}

proof fn lemma_meetings_upto_nonneg(run: TournamentRun, data: Data, a: usize, r: int, n: int)
    ensures
        0 <= meetings_upto(run, data, a, r, n),
    decreases n,
{
    if n > 0 {
        lemma_meetings_upto_nonneg(run, data, a, r, n - 1);
        run.lemma_meetings_bound(data, a, r, (n - 1) as usize, 31);
    }
}

impl TournamentRun {
    /// What one finished tournament adds for a team: at most one group place of each kind,
    /// one qualified third, nine group points, one win per knockout round and one meeting
    /// with any one opponent per round.
    proof fn lemma_one_tournament_bounds(&self, data: Data, t: usize)
        requires
            self.wf(data),
            self.finished(),
            t < data.teams@.len(),
            data.teams@.len() <= usize::MAX,
        ensures
            forall|q: int| 0 <= q < 4 ==> #[trigger] count(self.place_seq(data, q, 12), t) <= 1,
            count(self.third_seq(data, 8), t) <= 1,
            self.points_before(data, t, 12) <= 9,
            forall|r: int| 0 <= r < 5 ==> #[trigger] count(self.winner_seq(data, reach_range(r).0, reach_range(r).1), t) <= 1,
            forall|r: int, y: int| 0 <= r < 5 && 0 <= y < data.teams@.len() ==> #[trigger] self.meetings(data, t, r, y as usize, 31) <= 1,
    {
        self.lemma_one_place_each(data, t);
        self.lemma_thirds_among_places(data, t);
        self.lemma_points_total_nine(data, t);
        assert forall|r: int| 0 <= r < 5 implies #[trigger] count(self.winner_seq(data, reach_range(r).0, reach_range(r).1), t) <= 1 by {
            lemma_winners_among_sides(*self, data, r, t);
            lemma_round_sides_once(*self, data, r, t);
        }
        assert forall|r: int, y: int| 0 <= r < 5 && 0 <= y < data.teams@.len() implies #[trigger] self.meetings(data, t, r, y as usize, 31) <= 1 by {
            lemma_meeting_in_row(*self, data, t, r, y as usize, data.teams@.len() as int);
            lemma_meetings_are_sides(*self, data, t, r);
            lemma_round_sides_once(*self, data, r, t);
        }
    }
}

/// Adding each opponent's meetings to a row of meeting counts adds their total to the row's
/// sum.
proof fn lemma_sum_meetings(v0: Seq<u64>, v1: Seq<u64>, run: TournamentRun, data: Data, a: usize, r: int, n: int)
    requires
        0 <= n,
        v0.len() == n,
        v1.len() == n,
        forall|b: int| 0 <= b < n ==> #[trigger] v1[b] == v0[b] + run.meetings(data, a, r, b as usize, 31),
    ensures
        sum(v1) == sum(v0) + meetings_upto(run, data, a, r, n),
    decreases n,
{
    if n > 0 {
        lemma_sum_meetings(v0.drop_last(), v1.drop_last(), run, data, a, r, n - 1);
        assert(v1[n - 1] == v0[n - 1] + run.meetings(data, a, r, (n - 1) as usize, 31));
    }
}

/// A team stands on at most one side of the matches of any knockout round.
proof fn lemma_round_sides_once(run: TournamentRun, data: Data, r: int, t: usize)
    requires
        run.wf(data),
        run.finished(),
        0 <= r < 5,
        t < data.teams@.len(),
    ensures
        count(side_seq(run, data, reach_range(r).0, reach_range(r).1), t) <= 1,
    decreases r,
{
    if r == 0 {
        lemma_r32_sides_entered(run, data, t);
        let p0 = run.place_seq(data, 0, 12);
        let p1 = run.place_seq(data, 1, 12);
        lemma_count_concat(p0 + p1, run.third_seq(data, 8), t);
        lemma_count_concat(p0, p1, t);
        run.lemma_thirds_among_places(data, t);
        run.lemma_one_place_each(data, t);
    } else {
        lemma_round_sides_once(run, data, r - 1, t);
        lemma_winners_among_sides(run, data, r - 1, t);
        lemma_sides_from_winners(run, data, r, t);
    }
}

/// No team meets itself.
proof fn lemma_no_self_match(run: TournamentRun, data: Data, j: int)
    requires
        run.wf(data),
        run.finished(),
        0 <= j < 31,
    ensures
        (run.sides_of(data, j)->0).0 != (run.sides_of(data, j)->0).1,
{
    let r = round_index(round_at(j));
    let lo = reach_range(r).0;
    let len = reach_range(r).1;
    assert(lo <= j < lo + len);
    let h = (run.sides_of(data, j)->0).0;
    if h == (run.sides_of(data, j)->0).1 {
        let s = side_seq(run, data, lo, len);
        let k = j - lo;
        assert(s[k] == h && s[len + k] == h);
        let two = seq![h, h];
        let f = |i: int| if i == 0 { k } else { len + k };
        assert forall|i: int| 0 <= i < two.len() implies 0 <= #[trigger] f(i) < s.len() && two[i] == s[f(i)] by {}
        lemma_count_le_map(two, s, f, h);
        let one = seq![h];
        assert(one.drop_last() =~= Seq::<usize>::empty());
        assert(count(Seq::<usize>::empty(), h) == 0);
        assert(count(one, h) == count(one.drop_last(), h) + 1);
        assert(two.drop_last() =~= one);
        assert(count(two, h) == count(one, h) + 1);
        assert(h == run.sides@[j].0);
        lemma_round_sides_once(run, data, r, h);
    }
}

impl TournamentRun {
    /// In a finished tournament no team meets itself, in any round.
    proof fn lemma_no_self_meetings(&self, data: Data, a: usize, r: int, m: int)
        requires
            self.wf(data),
            self.finished(),
            0 <= m <= 31,
        ensures
            self.meetings(data, a, r, a, m) == 0,
        decreases m,
    {
        if m > 0 {
            self.lemma_no_self_meetings(data, a, r, m - 1);
            lemma_no_self_match(*self, data, m - 1);
        }
    }
}

impl TournamentRun {
    /// A team collects at most nine points in each group place it takes.
    proof fn lemma_points_in_nine(&self, data: Data, t: usize, g: int, k: int)
        requires
            self.wf(data),
            self.scores@.len() == 12,
            0 <= g < 12,
            0 <= k <= 4,
        ensures
            self.points_in(data, t, g, k) <= 9 * count(Seq::new(k as nat, |q: int| self.place(data, g, q)), t),
        decreases k,
    {
        if k > 0 {
            self.lemma_points_in_nine(data, t, g, k - 1);
            self.lemma_place_facts(data, g, k - 1);
            let i = self.order(g)[k - 1] as int;
            lemma_points_at_most_nine(self.scores@[g]@, i);
            assert(self.pts_at(g, k - 1) <= 9);
            let prev = Seq::new((k - 1) as nat, |q: int| self.place(data, g, q));
            assert(Seq::new(k as nat, |q: int| self.place(data, g, q)) =~= prev.push(self.place(data, g, k - 1)));
            lemma_count_push(prev, self.place(data, g, k - 1), t);
        }
    }

    /// Over groups `0..g` a team collects at most nine points per group place it takes.
    proof fn lemma_points_before_nine(&self, data: Data, t: usize, g: int)
        requires
            self.wf(data),
            self.scores@.len() == 12,
            0 <= g <= 12,
        ensures
            self.points_before(data, t, g) <= 9 * places_upto(*self, data, g, t),
        decreases g,
    {
        if g > 0 {
            self.lemma_points_before_nine(data, t, g - 1);
            self.lemma_points_in_nine(data, t, g - 1, 4);
            assert(Seq::new(4int as nat, |q: int| self.place(data, g - 1, q)) =~= Seq::new(
                4,
                |q: int| self.place(data, g - 1, q),
            ));
        }
    }

    /// A team collects at most nine group points in a finished group stage.
    proof fn lemma_points_total_nine(&self, data: Data, t: usize)
        requires
            self.wf(data),
            self.scores@.len() == 12,
            t < data.teams@.len(),
        ensures
            self.points_before(data, t, 12) <= 9,
    {
        self.lemma_points_before_nine(data, t, 12);
        lemma_places_total(*self, data, 12, t);
    }
}

impl Tally {
    #[verifier::spinoff_prover]
    fn record_groups(&mut self, data: &Data, run: &TournamentRun)
        requires
            old(self).wf(),
            run.wf(*data),
            run.finished(),
            old(self).n == data.teams@.len(),
            old(self).sims < MAX_SIMS,
        ensures
            final(self).n == old(self).n,
            final(self).sims == old(self).sims,
            final(self).group_winner@.len() == old(self).n,
            final(self).runner_up@.len() == old(self).n,
            final(self).points_sum@.len() == old(self).n,
            final(self).group_pos@.len() == old(self).n,
            forall|t: int| 0 <= t < old(self).n ==> #[trigger] final(self).group_winner@[t] == old(self).group_winner@[t]
                + count(run.place_seq(*data, 0, 12), t as usize),
            forall|t: int| 0 <= t < old(self).n ==> #[trigger] final(self).runner_up@[t] == old(self).runner_up@[t]
                + count(run.place_seq(*data, 1, 12), t as usize),
            forall|t: int| 0 <= t < old(self).n ==> #[trigger] final(self).points_sum@[t] == old(self).points_sum@[t]
                + run.points_before(*data, t as usize, 12),
            forall|t: int, q: int| 0 <= t < old(self).n && 0 <= q < 4 ==> #[trigger] final(self).group_pos@[t][q]
                == old(self).group_pos@[t][q] + count(run.place_seq(*data, q, 12), t as usize),
            sum(final(self).group_winner@) == sum(old(self).group_winner@) + 12,
            sum(final(self).runner_up@) == sum(old(self).runner_up@) + 12,
            final(self).third_through == old(self).third_through,
            final(self).reach_r16 == old(self).reach_r16,
            final(self).reach_qf == old(self).reach_qf,
            final(self).reach_sf == old(self).reach_sf,
            final(self).reach_final == old(self).reach_final,
            final(self).champion == old(self).champion,
            final(self).slot_a == old(self).slot_a,
            final(self).slot_b == old(self).slot_b,
            final(self).win == old(self).win,
            final(self).opp == old(self).opp,
    {
        let ghost e = cap(old(self).sims as int);
        let mut g: usize = 0;
        while g < 12
            invariant
                g <= 12,
                run.wf(*data),
                run.finished(),
                self.n == old(self).n,
                self.n == data.teams@.len(),
                self.sims == old(self).sims,
                e == cap(old(self).sims as int),
                old(self).wf(),
                old(self).sims < MAX_SIMS,
                self.group_winner@.len() == old(self).n,
                self.runner_up@.len() == old(self).n,
                self.points_sum@.len() == old(self).n,
                self.group_pos@.len() == old(self).n,
                bounded(old(self).group_winner@, e),
                bounded(old(self).runner_up@, e),
                bounded(old(self).points_sum@, e),
                forall|t: int, k: int| 0 <= t < old(self).n && 0 <= k < 4 ==> #[trigger] old(self).group_pos@[t][k] <= e,
                forall|t: int| 0 <= t < old(self).n ==> #[trigger] self.group_winner@[t] == old(self).group_winner@[t]
                    + count(run.place_seq(*data, 0, g as int), t as usize),
                forall|t: int| 0 <= t < old(self).n ==> #[trigger] self.runner_up@[t] == old(self).runner_up@[t]
                    + count(run.place_seq(*data, 1, g as int), t as usize),
                forall|t: int| 0 <= t < old(self).n ==> #[trigger] self.points_sum@[t] == old(self).points_sum@[t]
                    + run.points_before(*data, t as usize, g as int),
                forall|t: int, q: int| 0 <= t < old(self).n && 0 <= q < 4 ==> #[trigger] self.group_pos@[t][q]
                    == old(self).group_pos@[t][q] + count(run.place_seq(*data, q, g as int), t as usize),
                sum(self.group_winner@) == sum(old(self).group_winner@) + g,
                sum(self.runner_up@) == sum(old(self).runner_up@) + g,
                self.third_through == old(self).third_through,
                self.reach_r16 == old(self).reach_r16,
                self.reach_qf == old(self).reach_qf,
                self.reach_sf == old(self).reach_sf,
                self.reach_final == old(self).reach_final,
                self.champion == old(self).champion,
                self.slot_a == old(self).slot_a,
                self.slot_b == old(self).slot_b,
                self.win == old(self).win,
                self.opp == old(self).opp,
            decreases 12 - g,
        {
            let ghost extra = e + 72 * g;
            let ghost before = *self;
            proof {
                assert forall|t: int| 0 <= t < old(self).n implies #[trigger] self.group_winner@[t] <= extra by {
                    lemma_count_le(run.place_seq(*data, 0, g as int), t as usize);
                    assert(old(self).group_winner@[t] <= e);
                    assert(self.group_winner@[t] == old(self).group_winner@[t] + count(run.place_seq(*data, 0, g as int), t as usize));
                }
                assert forall|t: int| 0 <= t < old(self).n implies #[trigger] self.runner_up@[t] <= extra by {
                    lemma_count_le(run.place_seq(*data, 1, g as int), t as usize);
                    assert(old(self).runner_up@[t] <= e);
                    assert(self.runner_up@[t] == old(self).runner_up@[t] + count(run.place_seq(*data, 1, g as int), t as usize));
                }
                assert forall|t: int| 0 <= t < old(self).n implies #[trigger] self.points_sum@[t] <= extra by {
                    run.lemma_points_before_bound(*data, t as usize, g as int);
                }
                assert forall|t: int, q: int| 0 <= t < old(self).n && 0 <= q < 4 implies #[trigger] self.group_pos@[t][q] <= extra by {
                    lemma_count_le(run.place_seq(*data, q, g as int), t as usize);
                }
            }
            self.record_group(data, run, g, Ghost(extra));
            proof {
                assert forall|q: int| 0 <= q < 4 implies #[trigger] run.place_seq(*data, q, g + 1) =~= run.place_seq(*data, q, g as int).push(run.place(*data, g as int, q)) by {}
                assert forall|t: int| 0 <= t < old(self).n implies #[trigger] self.group_winner@[t] == old(self).group_winner@[t]
                    + count(run.place_seq(*data, 0, g + 1), t as usize) by {
                    assert(run.place_seq(*data, 0, g + 1) =~= run.place_seq(*data, 0, g as int).push(run.place(*data, g as int, 0)));
                    lemma_count_push(run.place_seq(*data, 0, g as int), run.place(*data, g as int, 0), t as usize);
                    assert(before.group_winner@[t] == old(self).group_winner@[t] + count(run.place_seq(*data, 0, g as int), t as usize));
                }
                assert forall|t: int| 0 <= t < old(self).n implies #[trigger] self.runner_up@[t] == old(self).runner_up@[t]
                    + count(run.place_seq(*data, 1, g + 1), t as usize) by {
                    assert(run.place_seq(*data, 1, g + 1) =~= run.place_seq(*data, 1, g as int).push(run.place(*data, g as int, 1)));
                    lemma_count_push(run.place_seq(*data, 1, g as int), run.place(*data, g as int, 1), t as usize);
                    assert(before.runner_up@[t] == old(self).runner_up@[t] + count(run.place_seq(*data, 1, g as int), t as usize));
                }
                assert forall|t: int| 0 <= t < old(self).n implies #[trigger] self.points_sum@[t] == old(self).points_sum@[t]
                    + run.points_before(*data, t as usize, g + 1) by {
                    assert(before.points_sum@[t] == old(self).points_sum@[t] + run.points_before(*data, t as usize, g as int));
                }
                assert forall|t: int, q: int| 0 <= t < old(self).n && 0 <= q < 4 implies #[trigger] self.group_pos@[t][q]
                    == old(self).group_pos@[t][q] + count(run.place_seq(*data, q, g + 1), t as usize) by {
                    assert(run.place_seq(*data, q, g + 1) =~= run.place_seq(*data, q, g as int).push(run.place(*data, g as int, q)));
                    lemma_count_push(run.place_seq(*data, q, g as int), run.place(*data, g as int, q), t as usize);
                    assert(before.group_pos@[t][q] == old(self).group_pos@[t][q] + count(run.place_seq(*data, q, g as int), t as usize));
                }
            }
            g = g + 1;
        }
    }
}

impl Tally {
    #[verifier::spinoff_prover]
    fn record_thirds(&mut self, data: &Data, run: &TournamentRun)
        requires
            old(self).third_through@.len() == old(self).n,
            old(self).n == data.teams@.len(),
            bounded(old(self).third_through@, cap(old(self).sims as int)),
            old(self).sims < MAX_SIMS,
            run.wf(*data),
            run.finished(),
        ensures
            final(self).third_through@.len() == old(self).n,
            forall|t: int| 0 <= t < old(self).n ==> #[trigger] final(self).third_through@[t]
                == old(self).third_through@[t] + count(run.third_seq(*data, 8), t as usize),
            sum(final(self).third_through@) == sum(old(self).third_through@) + 8,
            final(self).n == old(self).n,
            final(self).sims == old(self).sims,
            final(self).group_winner == old(self).group_winner,
            final(self).runner_up == old(self).runner_up,
            final(self).points_sum == old(self).points_sum,
            final(self).group_pos == old(self).group_pos,
            final(self).reach_r16 == old(self).reach_r16,
            final(self).reach_qf == old(self).reach_qf,
            final(self).reach_sf == old(self).reach_sf,
            final(self).reach_final == old(self).reach_final,
            final(self).champion == old(self).champion,
            final(self).slot_a == old(self).slot_a,
            final(self).slot_b == old(self).slot_b,
            final(self).win == old(self).win,
            final(self).opp == old(self).opp,
    {
        proof {
            assert forall|g: int| 0 <= g < 12 implies #[trigger] run.third_keys@[g] == run.third_key(g) by {
                assert(run.scores@[g]@.len() == 6);
            }
            assert(run.third_keys@ =~= Seq::new(12, |g: int| run.third_key(g)));
        }
        let order = rank(&run.third_keys);
        let ghost e = cap(old(self).sims as int);
        let mut i: usize = 0;
        while i < 8
            invariant
                i <= 8,
                run.wf(*data),
                run.finished(),
                order@ == run.third_rank(),
                is_ranking(Seq::new(12, |g: int| run.third_key(g)), order@),
                self.n == old(self).n,
                self.n == data.teams@.len(),
                self.sims == old(self).sims,
                old(self).third_through@.len() == old(self).n,
                e == cap(old(self).sims as int),
                old(self).sims < MAX_SIMS,
                bounded(old(self).third_through@, e),
                self.third_through@.len() == old(self).n,
                forall|t: int| 0 <= t < old(self).n ==> #[trigger] self.third_through@[t]
                    == old(self).third_through@[t] + count(run.third_seq(*data, i as int), t as usize),
                sum(self.third_through@) == sum(old(self).third_through@) + i,
                self.group_winner == old(self).group_winner,
                self.runner_up == old(self).runner_up,
                self.points_sum == old(self).points_sum,
                self.group_pos == old(self).group_pos,
                self.reach_r16 == old(self).reach_r16,
                self.reach_qf == old(self).reach_qf,
                self.reach_sf == old(self).reach_sf,
                self.reach_final == old(self).reach_final,
                self.champion == old(self).champion,
                self.slot_a == old(self).slot_a,
                self.slot_b == old(self).slot_b,
                self.win == old(self).win,
                self.opp == old(self).opp,
            decreases 8 - i,
        {
            let g = order[i];
            assert(g < 12);
            proof {
                run.lemma_place_facts(*data, g as int, 2);
            }
            let pos = run.orders[g][2];
            let team = data.group_index[g][pos];
            assert(team == run.place(*data, g as int, 2));
            proof {
                lemma_count_le(run.third_seq(*data, i as int), team);
                assert(old(self).third_through@[team as int] <= e);
            }
            let ghost before = self.third_through@;
            bump(&mut self.third_through, team);
            proof {
                assert(run.third_seq(*data, i + 1) =~= run.third_seq(*data, i as int).push(team));
                assert forall|t: int| 0 <= t < old(self).n implies #[trigger] self.third_through@[t]
                    == old(self).third_through@[t] + count(run.third_seq(*data, i + 1), t as usize) by {
                    lemma_count_push(run.third_seq(*data, i as int), team, t as usize);
                    assert(before[t] == old(self).third_through@[t] + count(run.third_seq(*data, i as int), t as usize));
                }
            }
            i = i + 1;
        }
    }
}

/// Reach counts for round `r`: (list, first bracket position of the round, its size).
pub open spec fn reach_range(r: int) -> (int, int) {
    if r == 0 {
        (0, 16)
    } else if r == 1 {
        (16, 8)
    } else if r == 2 {
        (24, 4)
    } else if r == 3 {
        (28, 2)
    } else {
        (30, 1)
    }
}

impl Tally {
    /// The list of counts of teams winning a match of round `r` (0 = round of 32).
    pub open spec fn reach_list(&self, r: int) -> Seq<u64> {
        if r == 0 {
            self.reach_r16@
        } else if r == 1 {
            self.reach_qf@
        } else if r == 2 {
            self.reach_sf@
        } else if r == 3 {
            self.reach_final@
        } else {
            self.champion@
        }
    }

    #[verifier::spinoff_prover]
    fn record_meetings(&mut self, data: &Data, run: &TournamentRun)
        requires
            old(self).opp_ready(),
            run.wf(*data),
            run.finished(),
            old(self).n == data.teams@.len(),
            old(self).sims < MAX_SIMS,
        ensures
            final(self).opp@.len() == old(self).n,
            forall|x: int, r: int| 0 <= x < old(self).n && 0 <= r < 5 ==> #[trigger] final(self).opp@[x][r]@.len() == old(self).n,
            forall|x: int, r: int, y: int| 0 <= x < old(self).n && 0 <= r < 5 && 0 <= y < old(self).n ==> #[trigger] final(self).opp@[x][r]@[y]
                == old(self).opp@[x][r]@[y] + run.meetings(*data, x as usize, r, y as usize, 31),
            *final(self) == (Tally { opp: final(self).opp, ..*old(self) }),
    {
        proof {
            lemma_bracket_shape();
        }
        let ghost e = cap(old(self).sims as int);
        let ko = knockout();
        let mut i: usize = 0;
        while i < 31
            invariant
                i <= 31,
                ko@ == knockout_spec(),
                forall|j: int| 0 <= j < 31 ==> (#[trigger] knockout_spec()[j]).round == round_at(j),
                run.wf(*data),
                run.finished(),
                old(self).opp_ready(),
                e == cap(old(self).sims as int),
                old(self).sims < MAX_SIMS,
                old(self).n == data.teams@.len(),
                *self == (Tally { opp: self.opp, ..*old(self) }),
                self.opp@.len() == old(self).n,
                forall|x: int, r: int| 0 <= x < old(self).n && 0 <= r < 5 ==> #[trigger] self.opp@[x][r]@.len() == old(self).n,
                forall|x: int, r: int, y: int| 0 <= x < old(self).n && 0 <= r < 5 && 0 <= y < old(self).n ==> #[trigger] self.opp@[x][r]@[y]
                    == old(self).opp@[x][r]@[y] + run.meetings(*data, x as usize, r, y as usize, i as int),
            decreases 31 - i,
        {
            let km = ko[i];
            let (a, b) = run.sides[i];
            assert(run.sides_of(*data, i as int) is Some);
            assert(a < old(self).n && b < old(self).n);
            let r: usize = match km.round {
                Round::R32 => 0,
                Round::R16 => 1,
                Round::Qf => 2,
                Round::Sf => 3,
                Round::Final => 4,
            };
            assert(r as int == round_index(round_at(i as int)));
            let ghost s0 = *self;
            proof {
                run.lemma_meetings_bound(*data, a, r as int, b, i as int);
                run.lemma_meetings_bound(*data, b, r as int, a, i as int);
                assert(old(self).opp@[a as int][r as int]@[b as int] <= e);
                assert(old(self).opp@[b as int][r as int]@[a as int] <= e);
                assert(s0.opp@[a as int][r as int]@.len() == old(self).n);
                assert(s0.opp@[b as int][r as int]@.len() == old(self).n);
            }
            self.opp[a][r][b] = self.opp[a][r][b] + 1;
            self.opp[b][r][a] = self.opp[b][r][a] + 1;
            proof {
                assert forall|x: int, rr: int, y: int| 0 <= x < old(self).n && 0 <= rr < 5 && 0 <= y < old(self).n implies #[trigger] self.opp@[x][rr]@[y]
                    == old(self).opp@[x][rr]@[y] + run.meetings(*data, x as usize, rr, y as usize, i + 1) by {
                    assert(s0.opp@[x][rr]@[y] == old(self).opp@[x][rr]@[y] + run.meetings(*data, x as usize, rr, y as usize, i as int));
                }
                assert forall|x: int, rr: int| 0 <= x < old(self).n && 0 <= rr < 5 implies #[trigger] self.opp@[x][rr]@.len() == old(self).n by {
                    assert(s0.opp@[x][rr]@.len() == old(self).n);
                }
            }
            i = i + 1;
        }
    }
}

impl Tally {
    #[verifier::spinoff_prover]
    fn record_match_maps(&mut self, data: &Data, run: &TournamentRun)
        requires
            old(self).maps_ready(),
            run.wf(*data),
            run.finished(),
            old(self).n == data.teams@.len(),
            old(self).sims < MAX_SIMS,
        ensures
            *final(self) == (Tally { win: final(self).win, slot_a: final(self).slot_a, slot_b: final(self).slot_b, ..*old(self) }),
            forall|j: int| 0 <= j < 31 ==> #[trigger] final(self).win@.contains_key(kid(j)) && final(self).win@[kid(j)]@.len() == old(self).n,
            forall|j: int, t: int| 0 <= j < 31 && 0 <= t < old(self).n ==> #[trigger] final(self).win@[kid(j)]@[t]
                == old(self).win@[kid(j)]@[t] + if run.winner(*data, j)->0 == t { 1int } else { 0int },
            forall|j: int| 0 <= j < 16 ==> #[trigger] final(self).slot_a@.contains_key(kid(j)) && final(self).slot_a@[kid(j)]@.len() == old(self).n,
            forall|j: int, t: int| 0 <= j < 16 && 0 <= t < old(self).n ==> #[trigger] final(self).slot_a@[kid(j)]@[t]
                == old(self).slot_a@[kid(j)]@[t] + if (run.sides_of(*data, j)->0).0 == t { 1int } else { 0int },
            forall|j: int| 0 <= j < 16 ==> #[trigger] final(self).slot_b@.contains_key(kid(j)) && final(self).slot_b@[kid(j)]@.len() == old(self).n,
            forall|j: int, t: int| 0 <= j < 16 && 0 <= t < old(self).n ==> #[trigger] final(self).slot_b@[kid(j)]@[t]
                == old(self).slot_b@[kid(j)]@[t] + if (run.sides_of(*data, j)->0).1 == t { 1int } else { 0int },
    {
        proof {
            lemma_bracket_shape();
        }
        let ghost e = cap(old(self).sims as int);
        let ko = knockout();
        let mut i: usize = 0;
        while i < 31
            invariant
                i <= 31,
                ko@ == knockout_spec(),
                forall|j: int| 0 <= j < 31 ==> ko_index(#[trigger] kid(j)) == j,
                run.wf(*data),
                run.finished(),
                old(self).maps_ready(),
                e == cap(old(self).sims as int),
                old(self).sims < MAX_SIMS,
                old(self).n == data.teams@.len(),
                *self == (Tally { win: self.win, slot_a: self.slot_a, slot_b: self.slot_b, ..*old(self) }),
                forall|j: int| 0 <= j < 31 ==> #[trigger] self.win@.contains_key(kid(j)) && self.win@[kid(j)]@.len() == old(self).n,
                forall|j: int, t: int| 0 <= j < 31 && 0 <= t < old(self).n ==> #[trigger] self.win@[kid(j)]@[t]
                    == old(self).win@[kid(j)]@[t] + if j < i && run.winner(*data, j)->0 == t { 1int } else { 0int },
                forall|j: int| 0 <= j < 16 ==> #[trigger] self.slot_a@.contains_key(kid(j)) && self.slot_a@[kid(j)]@.len() == old(self).n,
                forall|j: int, t: int| 0 <= j < 16 && 0 <= t < old(self).n ==> #[trigger] self.slot_a@[kid(j)]@[t]
                    == old(self).slot_a@[kid(j)]@[t] + if j < i && (run.sides_of(*data, j)->0).0 == t { 1int } else { 0int },
                forall|j: int| 0 <= j < 16 ==> #[trigger] self.slot_b@.contains_key(kid(j)) && self.slot_b@[kid(j)]@.len() == old(self).n,
                forall|j: int, t: int| 0 <= j < 16 && 0 <= t < old(self).n ==> #[trigger] self.slot_b@[kid(j)]@[t]
                    == old(self).slot_b@[kid(j)]@[t] + if j < i && (run.sides_of(*data, j)->0).1 == t { 1int } else { 0int },
            decreases 31 - i,
        {
            let km = ko[i];
            let (a, b) = run.sides[i];
            let w = run.winners[i];
            assert(run.sides_of(*data, i as int) is Some);
            let ghost s0 = *self;
            proof {
                assert(w < old(self).n && a < old(self).n && b < old(self).n);
                assert(km.id == kid(i as int));
                assert(old(self).win@.contains_key(kid(i as int)));
                assert(bounded(old(self).win@[kid(i as int)]@, e));
                assert(s0.win@.contains_key(kid(i as int)));
                assert(s0.win@[kid(i as int)]@[w as int] == old(self).win@[kid(i as int)]@[w as int]);
            }
            bump_map(&mut self.win, km.id, w);
            proof {
                assert forall|j: int, t: int| 0 <= j < 31 && 0 <= t < old(self).n implies #[trigger] self.win@[kid(j)]@[t]
                    == old(self).win@[kid(j)]@[t] + if j < i + 1 && run.winner(*data, j)->0 == t { 1int } else { 0int } by {
                    assert(s0.win@.contains_key(kid(j)));
                    assert(s0.win@[kid(j)]@[t] == old(self).win@[kid(j)]@[t] + if j < i && run.winner(*data, j)->0 == t { 1int } else { 0int });
                    if j != i {
                        assert(kid(j) != kid(i as int));
                    }
                }
                assert forall|j: int| 0 <= j < 31 implies #[trigger] self.win@.contains_key(kid(j)) && self.win@[kid(j)]@.len() == old(self).n by {
                    assert(s0.win@.contains_key(kid(j)));
                    if j != i {
                        assert(kid(j) != kid(i as int));
                    }
                }
            }
            let ghost sw = *self;
            if i < 16 {
                let ghost s1 = *self;
                proof {
                    assert(old(self).slot_a@.contains_key(kid(i as int)));
                    assert(old(self).slot_b@.contains_key(kid(i as int)));
                    assert(bounded(old(self).slot_a@[kid(i as int)]@, e));
                    assert(bounded(old(self).slot_b@[kid(i as int)]@, e));
                    assert(s1.slot_a@.contains_key(kid(i as int)));
                    assert(s1.slot_b@.contains_key(kid(i as int)));
                    assert(s1.slot_a@[kid(i as int)]@[a as int] == old(self).slot_a@[kid(i as int)]@[a as int]);
                    assert(s1.slot_b@[kid(i as int)]@[b as int] == old(self).slot_b@[kid(i as int)]@[b as int]);
                }
                bump_map(&mut self.slot_a, km.id, a);
                bump_map(&mut self.slot_b, km.id, b);
                proof {
                    assert forall|j: int, t: int| 0 <= j < 16 && 0 <= t < old(self).n implies #[trigger] self.slot_a@[kid(j)]@[t]
                        == old(self).slot_a@[kid(j)]@[t] + if j < i + 1 && (run.sides_of(*data, j)->0).0 == t { 1int } else { 0int } by {
                        assert(s1.slot_a@.contains_key(kid(j)));
                        assert(s1.slot_a@[kid(j)]@[t] == old(self).slot_a@[kid(j)]@[t] + if j < i && (run.sides_of(*data, j)->0).0 == t { 1int } else { 0int });
                        if j != i {
                            assert(kid(j) != kid(i as int));
                        }
                    }
                    assert forall|j: int, t: int| 0 <= j < 16 && 0 <= t < old(self).n implies #[trigger] self.slot_b@[kid(j)]@[t]
                        == old(self).slot_b@[kid(j)]@[t] + if j < i + 1 && (run.sides_of(*data, j)->0).1 == t { 1int } else { 0int } by {
                        assert(s1.slot_b@.contains_key(kid(j)));
                        assert(s1.slot_b@[kid(j)]@[t] == old(self).slot_b@[kid(j)]@[t] + if j < i && (run.sides_of(*data, j)->0).1 == t { 1int } else { 0int });
                        if j != i {
                            assert(kid(j) != kid(i as int));
                        }
                    }
                    assert forall|j: int| 0 <= j < 16 implies #[trigger] self.slot_a@.contains_key(kid(j)) && self.slot_a@[kid(j)]@.len() == old(self).n by {
                        assert(s1.slot_a@.contains_key(kid(j)));
                        if j != i {
                            assert(kid(j) != kid(i as int));
                        }
                    }
                    assert forall|j: int| 0 <= j < 16 implies #[trigger] self.slot_b@.contains_key(kid(j)) && self.slot_b@[kid(j)]@.len() == old(self).n by {
                        assert(s1.slot_b@.contains_key(kid(j)));
                        if j != i {
                            assert(kid(j) != kid(i as int));
                        }
                    }
                }
            }
            proof {
                assert(self.win == sw.win);
                assert forall|j: int, t: int| 0 <= j < 31 && 0 <= t < old(self).n implies #[trigger] self.win@[kid(j)]@[t]
                    == old(self).win@[kid(j)]@[t] + if j < i + 1 && run.winner(*data, j)->0 == t { 1int } else { 0int } by {
                    assert(sw.win@[kid(j)]@[t] == old(self).win@[kid(j)]@[t] + if j < i + 1 && run.winner(*data, j)->0 == t { 1int } else { 0int });
                }
            }
            i = i + 1;
        }
    }
}

impl Tally {
    #[verifier::spinoff_prover]
    fn record_reach(&mut self, data: &Data, run: &TournamentRun)
        requires
            old(self).reach_ready(),
            run.wf(*data),
            run.finished(),
            old(self).n == data.teams@.len(),
            old(self).sims < MAX_SIMS,
        ensures
            *final(self) == (Tally {
                reach_r16: final(self).reach_r16,
                reach_qf: final(self).reach_qf,
                reach_sf: final(self).reach_sf,
                reach_final: final(self).reach_final,
                champion: final(self).champion,
                ..*old(self)
            }),
            forall|r: int| 0 <= r < 5 ==> (#[trigger] final(self).reach_list(r)).len() == old(self).n,
            forall|r: int, t: int| 0 <= r < 5 && 0 <= t < old(self).n ==> #[trigger] final(self).reach_list(r)[t]
                == old(self).reach_list(r)[t] + count(run.winner_seq(*data, reach_range(r).0, reach_range(r).1), t as usize),
            forall|r: int| 0 <= r < 5 ==> sum(#[trigger] final(self).reach_list(r)) == sum(old(self).reach_list(r)) + reach_range(r).1,
    {
        proof {
            lemma_bracket_shape();
        }
        let ghost e = cap(old(self).sims as int);
        let ko = knockout();
        let mut i: usize = 0;
        while i < 31
            invariant
                i <= 31,
                ko@ == knockout_spec(),
                forall|j: int| 0 <= j < 31 ==> (#[trigger] knockout_spec()[j]).round == round_at(j),
                run.wf(*data),
                run.finished(),
                old(self).reach_ready(),
                e == cap(old(self).sims as int),
                old(self).sims < MAX_SIMS,
                old(self).n == data.teams@.len(),
                *self == (Tally {
                    reach_r16: self.reach_r16,
                    reach_qf: self.reach_qf,
                    reach_sf: self.reach_sf,
                    reach_final: self.reach_final,
                    champion: self.champion,
                    ..*old(self)
                }),
                forall|r: int| 0 <= r < 5 ==> (#[trigger] self.reach_list(r)).len() == old(self).n,
                forall|r: int, t: int| 0 <= r < 5 && 0 <= t < old(self).n ==> #[trigger] self.reach_list(r)[t]
                    == old(self).reach_list(r)[t] + count(run.winner_seq(*data, reach_range(r).0, span(i as int, reach_range(r).0, reach_range(r).1)), t as usize),
                forall|r: int| 0 <= r < 5 ==> sum(#[trigger] self.reach_list(r)) == sum(old(self).reach_list(r)) + span(i as int, reach_range(r).0, reach_range(r).1),
            decreases 31 - i,
        {
            let km = ko[i];
            let w = run.winners[i];
            assert(run.sides_of(*data, i as int) is Some);
            assert(w < old(self).n);
            assert(run.winner(*data, i as int)->0 == w);
            let r: usize = match km.round {
                Round::R32 => 0,
                Round::R16 => 1,
                Round::Qf => 2,
                Round::Sf => 3,
                Round::Final => 4,
            };
            let ghost s2 = *self;
            let ghost lo = reach_range(r as int).0;
            let ghost len = reach_range(r as int).1;
            proof {
                assert(lo <= i < lo + len);
                lemma_count_le(run.winner_seq(*data, lo, span(i as int, lo, len)), w);
                assert(bounded(old(self).reach_list(r as int), e));
                assert(old(self).reach_list(r as int)[w as int] <= e);
                assert(self.reach_list(r as int)[w as int] == old(self).reach_list(r as int)[w as int] + count(run.winner_seq(*data, lo, span(i as int, lo, len)), w));
            }
            match km.round {
                Round::R32 => bump(&mut self.reach_r16, w),
                Round::R16 => bump(&mut self.reach_qf, w),
                Round::Qf => bump(&mut self.reach_sf, w),
                Round::Sf => bump(&mut self.reach_final, w),
                Round::Final => bump(&mut self.champion, w),
            }
            proof {
                assert(self.reach_list(r as int) == s2.reach_list(r as int).update(w as int, (s2.reach_list(r as int)[w as int] + 1) as u64));
                assert forall|rr: int| 0 <= rr < 5 && rr != r implies #[trigger] self.reach_list(rr) == s2.reach_list(rr) by {}
                assert forall|rr: int, t: int| 0 <= rr < 5 && 0 <= t < old(self).n implies #[trigger] self.reach_list(rr)[t]
                    == old(self).reach_list(rr)[t] + count(run.winner_seq(*data, reach_range(rr).0, span(i + 1, reach_range(rr).0, reach_range(rr).1)), t as usize) by {
                    assert(s2.reach_list(rr)[t] == old(self).reach_list(rr)[t] + count(run.winner_seq(*data, reach_range(rr).0, span(i as int, reach_range(rr).0, reach_range(rr).1)), t as usize));
                    if rr == r {
                        assert(run.winner_seq(*data, lo, span(i + 1, lo, len)) =~= run.winner_seq(*data, lo, span(i as int, lo, len)).push(w));
                        lemma_count_push(run.winner_seq(*data, lo, span(i as int, lo, len)), w, t as usize);
                    } else {
                        assert(span(i + 1, reach_range(rr).0, reach_range(rr).1) == span(i as int, reach_range(rr).0, reach_range(rr).1));
                    }
                }
                assert forall|rr: int| 0 <= rr < 5 implies sum(#[trigger] self.reach_list(rr)) == sum(old(self).reach_list(rr)) + span(i + 1, reach_range(rr).0, reach_range(rr).1) by {
                    assert(sum(s2.reach_list(rr)) == sum(old(self).reach_list(rr)) + span(i as int, reach_range(rr).0, reach_range(rr).1));
                }
                assert forall|rr: int| 0 <= rr < 5 implies (#[trigger] self.reach_list(rr)).len() == old(self).n by {
                    assert(s2.reach_list(rr).len() == old(self).n);
                }
            }
            i = i + 1;
        }
    }
}

impl TournamentRun {
    proof fn lemma_meetings_symmetric(&self, data: Data, a: usize, r: int, b: usize, m: int)
        ensures
            self.meetings(data, a, r, b, m) == self.meetings(data, b, r, a, m),
        decreases m,
    {
        if m > 0 {
            self.lemma_meetings_symmetric(data, a, r, b, m - 1);
        }
    }
}

/// Recording one finished tournament keeps each team's meeting rows in step with its
/// group and knockout counts.
proof fn lemma_record_rows(t0: Tally, t1: Tally, run: TournamentRun, data: Data, t: int)
    requires
        t0.wf(),
        t1.wf(),
        t0.opp_rows_match(t),
        run.wf(data),
        run.finished(),
        t0.n == data.teams@.len(),
        t1.n == t0.n,
        0 <= t < t0.n,
        t1.group_winner@[t] == t0.group_winner@[t] + count(run.place_seq(data, 0, 12), t as usize),
        t1.runner_up@[t] == t0.runner_up@[t] + count(run.place_seq(data, 1, 12), t as usize),
        t1.third_through@[t] == t0.third_through@[t] + count(run.third_seq(data, 8), t as usize),
        forall|r: int| 0 <= r < 5 ==> #[trigger] t1.reach_list(r)[t] == t0.reach_list(r)[t] + count(
            run.winner_seq(data, reach_range(r).0, reach_range(r).1),
            t as usize,
        ),
        forall|r: int, y: int| 0 <= r < 5 && 0 <= y < t0.n ==> #[trigger] t1.opp@[t][r]@[y] == t0.opp@[t][r]@[y]
            + run.meetings(data, t as usize, r, y as usize, 31),
    ensures
        t1.opp_rows_match(t),
{
    let n = t0.n as int;
    let a = t as usize;
    assert forall|r: int| 0 <= r < 5 implies #[trigger] sum(t1.opp@[t][r]@) == sum(t0.opp@[t][r]@) + count(
        side_seq(run, data, reach_range(r).0, reach_range(r).1),
        a,
    ) by {
        assert(t0.opp@[t][r]@.len() == n);
        assert(t1.opp@[t][r]@.len() == n);
        assert forall|b: int| 0 <= b < n implies #[trigger] t1.opp@[t][r]@[b] == t0.opp@[t][r]@[b] + run.meetings(
            data,
            a,
            r,
            b as usize,
            31,
        ) by {}
        lemma_sum_meetings(t0.opp@[t][r]@, t1.opp@[t][r]@, run, data, a, r, n);
        lemma_meetings_are_sides(run, data, a, r);
    }
    lemma_r32_sides_entered(run, data, a);
    let p0 = run.place_seq(data, 0, 12);
    let p1 = run.place_seq(data, 1, 12);
    lemma_count_concat(p0 + p1, run.third_seq(data, 8), a);
    lemma_count_concat(p0, p1, a);
    lemma_sides_from_winners(run, data, 1, a);
    lemma_sides_from_winners(run, data, 2, a);
    lemma_sides_from_winners(run, data, 3, a);
    lemma_sides_from_winners(run, data, 4, a);
    assert(sum(t1.opp@[t][0]@) == sum(t0.opp@[t][0]@) + count(side_seq(run, data, reach_range(0).0, reach_range(0).1), a));
    assert(sum(t1.opp@[t][1]@) == sum(t0.opp@[t][1]@) + count(side_seq(run, data, reach_range(1).0, reach_range(1).1), a));
    assert(sum(t1.opp@[t][2]@) == sum(t0.opp@[t][2]@) + count(side_seq(run, data, reach_range(2).0, reach_range(2).1), a));
    assert(sum(t1.opp@[t][3]@) == sum(t0.opp@[t][3]@) + count(side_seq(run, data, reach_range(3).0, reach_range(3).1), a));
    assert(sum(t1.opp@[t][4]@) == sum(t0.opp@[t][4]@) + count(side_seq(run, data, reach_range(4).0, reach_range(4).1), a));
    assert(t1.reach_list(0)[t] == t0.reach_list(0)[t] + count(run.winner_seq(data, reach_range(0).0, reach_range(0).1), a));
    assert(t1.reach_list(1)[t] == t0.reach_list(1)[t] + count(run.winner_seq(data, reach_range(1).0, reach_range(1).1), a));
    assert(t1.reach_list(2)[t] == t0.reach_list(2)[t] + count(run.winner_seq(data, reach_range(2).0, reach_range(2).1), a));
    assert(t1.reach_list(3)[t] == t0.reach_list(3)[t] + count(run.winner_seq(data, reach_range(3).0, reach_range(3).1), a));
}

/// Recording one finished tournament keeps the tally consistent.
proof fn lemma_record_consistent(t0: Tally, t1: Tally, run: TournamentRun, data: Data)
    requires
        t0.wf(),
        t1.wf(),
        t0.consistent(),
        run.wf(data),
        run.finished(),
        t0.n == data.teams@.len(),
        t1.n == t0.n,
        t1.sims == t0.sims + 1,
        forall|t: int| 0 <= t < t0.n ==> #[trigger] t1.group_winner@[t] == t0.group_winner@[t]
            + count(run.place_seq(data, 0, 12), t as usize),
        forall|t: int| 0 <= t < t0.n ==> #[trigger] t1.runner_up@[t] == t0.runner_up@[t]
            + count(run.place_seq(data, 1, 12), t as usize),
        forall|t: int| 0 <= t < t0.n ==> #[trigger] t1.third_through@[t]
            == t0.third_through@[t] + count(run.third_seq(data, 8), t as usize),
        forall|t: int, q: int| 0 <= t < t0.n && 0 <= q < 4 ==> #[trigger] t1.group_pos@[t][q]
            == t0.group_pos@[t][q] + count(run.place_seq(data, q, 12), t as usize),
        forall|r: int, t: int| 0 <= r < 5 && 0 <= t < t0.n ==> #[trigger] t1.reach_list(r)[t]
            == t0.reach_list(r)[t] + count(run.winner_seq(data, reach_range(r).0, reach_range(r).1), t as usize),
        forall|x: int, r: int, y: int| 0 <= x < t0.n && 0 <= r < 5 && 0 <= y < t0.n ==> #[trigger] t1.opp@[x][r]@[y]
            == t0.opp@[x][r]@[y] + run.meetings(data, x as usize, r, y as usize, 31),
        forall|t: int| 0 <= t < t0.n ==> #[trigger] t1.points_sum@[t] == t0.points_sum@[t]
            + run.points_before(data, t as usize, 12),
    ensures
        t1.consistent(),
{
    let n = t0.n as int;
    assert forall|t: int| 0 <= t < n implies #[trigger] t1.group_winner@[t] == t1.group_pos@[t][0]
        && t1.runner_up@[t] == t1.group_pos@[t][1] && t1.third_through@[t] <= t1.group_pos@[t][2] by {
        assert(t0.group_winner@[t] == t0.group_pos@[t][0]);
        run.lemma_thirds_among_places(data, t as usize);
        assert(t1.group_pos@[t][0] == t0.group_pos@[t][0] + count(run.place_seq(data, 0, 12), t as usize));
        assert(t1.group_pos@[t][1] == t0.group_pos@[t][1] + count(run.place_seq(data, 1, 12), t as usize));
        assert(t1.group_pos@[t][2] == t0.group_pos@[t][2] + count(run.place_seq(data, 2, 12), t as usize));
    }
    assert forall|t: int| 0 <= t < n implies #[trigger] t1.group_winner@[t] + t1.runner_up@[t]
        + t1.third_through@[t] <= t1.sims && t1.group_pos@[t][0] + t1.group_pos@[t][1] + t1.group_pos@[t][2]
        + t1.group_pos@[t][3] <= t1.sims by {
        assert(t0.group_winner@[t] + t0.runner_up@[t] + t0.third_through@[t] <= t0.sims);
        assert(t0.group_pos@[t][0] + t0.group_pos@[t][1] + t0.group_pos@[t][2] + t0.group_pos@[t][3] <= t0.sims);
        run.lemma_thirds_among_places(data, t as usize);
        run.lemma_one_place_each(data, t as usize);
        assert(t1.group_pos@[t][0] == t0.group_pos@[t][0] + count(run.place_seq(data, 0, 12), t as usize));
        assert(t1.group_pos@[t][1] == t0.group_pos@[t][1] + count(run.place_seq(data, 1, 12), t as usize));
        assert(t1.group_pos@[t][2] == t0.group_pos@[t][2] + count(run.place_seq(data, 2, 12), t as usize));
        assert(t1.group_pos@[t][3] == t0.group_pos@[t][3] + count(run.place_seq(data, 3, 12), t as usize));
    }
    assert forall|t: int| #![trigger t1.champion@[t]] 0 <= t < n implies t1.champion@[t] <= t1.reach_final@[t] && t1.reach_final@[t]
        <= t1.reach_sf@[t] && t1.reach_sf@[t] <= t1.reach_qf@[t] && t1.reach_qf@[t] <= t1.reach_r16@[t] by {
        assert(t0.champion@[t] == t0.champion@[t]);
        assert(0 <= t < t0.n);
        assert(t0.champion@[t] <= t0.reach_final@[t]);
        assert(t0.champion@[t] <= t0.reach_final@[t] && t0.reach_final@[t] <= t0.reach_sf@[t]
            && t0.reach_sf@[t] <= t0.reach_qf@[t] && t0.reach_qf@[t] <= t0.reach_r16@[t]);
        run.lemma_round_winners(data, 1, t as usize);
        run.lemma_round_winners(data, 2, t as usize);
        run.lemma_round_winners(data, 3, t as usize);
        run.lemma_round_winners(data, 4, t as usize);
        assert(t1.reach_list(0)[t] == t0.reach_list(0)[t] + count(run.winner_seq(data, reach_range(0).0, reach_range(0).1), t as usize));
        assert(t1.reach_list(1)[t] == t0.reach_list(1)[t] + count(run.winner_seq(data, reach_range(1).0, reach_range(1).1), t as usize));
        assert(t1.reach_list(2)[t] == t0.reach_list(2)[t] + count(run.winner_seq(data, reach_range(2).0, reach_range(2).1), t as usize));
        assert(t1.reach_list(3)[t] == t0.reach_list(3)[t] + count(run.winner_seq(data, reach_range(3).0, reach_range(3).1), t as usize));
        assert(t1.reach_list(4)[t] == t0.reach_list(4)[t] + count(run.winner_seq(data, reach_range(4).0, reach_range(4).1), t as usize));
    }
    assert forall|a: int, r: int, b: int| 0 <= a < n && 0 <= r < 5 && 0 <= b < n implies #[trigger] t1.opp@[a][r]@[b]
        == t1.opp@[b][r]@[a] by {
        assert(t0.opp@[a][r]@[b] == t0.opp@[b][r]@[a]);
        run.lemma_meetings_symmetric(data, a as usize, r, b as usize, 31);
        assert(t1.opp@[b][r]@[a] == t0.opp@[b][r]@[a] + run.meetings(data, b as usize, r, a as usize, 31));
    }
    assert forall|t: int| 0 <= t < n implies #[trigger] t1.group_pos@[t][0] + t1.group_pos@[t][1]
        + t1.group_pos@[t][2] + t1.group_pos@[t][3] <= t1.sims by {
        assert(t1.group_winner@[t] + t1.runner_up@[t] + t1.third_through@[t] <= t1.sims);
    }
    assert forall|t: int| 0 <= t < n implies #[trigger] t1.reach_r16@[t] <= t1.group_winner@[t] + t1.runner_up@[t]
        + t1.third_through@[t] by {
        assert(t0.reach_r16@[t] <= t0.group_winner@[t] + t0.runner_up@[t] + t0.third_through@[t]);
        lemma_winners_among_sides(run, data, 0, t as usize);
        lemma_r32_sides_entered(run, data, t as usize);
        let p0 = run.place_seq(data, 0, 12);
        let p1 = run.place_seq(data, 1, 12);
        lemma_count_concat(p0 + p1, run.third_seq(data, 8), t as usize);
        lemma_count_concat(p0, p1, t as usize);
        assert(t1.reach_list(0)[t] == t0.reach_list(0)[t] + count(run.winner_seq(data, reach_range(0).0, reach_range(0).1), t as usize));
    }
    assert forall|t: int, r: int| 0 <= t < n && 0 <= r < 5 implies #[trigger] t1.opp@[t][r]@[t] == 0 by {
        assert(t0.opp@[t][r]@[t] == 0);
        run.lemma_no_self_meetings(data, t as usize, r, 31);
    }
    assert forall|t: int| 0 <= t < n implies #[trigger] t1.opp_rows_match(t) by {
        assert(t0.opp_rows_match(t));
        assert(t1.group_winner@[t] == t0.group_winner@[t] + count(run.place_seq(data, 0, 12), t as usize));
        assert(t1.runner_up@[t] == t0.runner_up@[t] + count(run.place_seq(data, 1, 12), t as usize));
        assert(t1.third_through@[t] == t0.third_through@[t] + count(run.third_seq(data, 8), t as usize));
        lemma_record_rows(t0, t1, run, data, t);
    }
    assert forall|t: int| 0 <= t < n implies #[trigger] t1.points_sum@[t] <= 9 * t1.sims by {
        assert(t0.points_sum@[t] <= 9 * t0.sims);
        run.lemma_points_total_nine(data, t as usize);
    }
}

/// Recording one finished tournament adds one group place to each team of the twelve groups.
proof fn lemma_record_places(t0: Tally, t1: Tally, run: TournamentRun, data: Data)
    requires
        t0.places_complete(data),
        run.wf(data),
        run.finished(),
        t0.n == data.teams@.len(),
        t1.n == t0.n,
        t1.sims == t0.sims + 1,
        forall|t: int, q: int| 0 <= t < t0.n && 0 <= q < 4 ==> #[trigger] t1.group_pos@[t][q]
            == t0.group_pos@[t][q] + count(run.place_seq(data, q, 12), t as usize),
    ensures
        t1.places_complete(data),
{
    assert forall|t: int| #![trigger t1.group_pos@[t]] 0 <= t < t1.n implies t1.group_pos@[t][0] + t1.group_pos@[t][1]
        + t1.group_pos@[t][2] + t1.group_pos@[t][3] == if crate::bracket::is_group(
        crate::model::team_group(data.teams@[t]),
    ) {
        t1.sims as int
    } else {
        0
    } by {
        assert(t0.group_pos@[t] == t0.group_pos@[t]);
        run.lemma_one_place_each(data, t as usize);
        assert(t1.group_pos@[t][0] == t0.group_pos@[t][0] + count(run.place_seq(data, 0, 12), t as usize));
        assert(t1.group_pos@[t][1] == t0.group_pos@[t][1] + count(run.place_seq(data, 1, 12), t as usize));
        assert(t1.group_pos@[t][2] == t0.group_pos@[t][2] + count(run.place_seq(data, 2, 12), t as usize));
        assert(t1.group_pos@[t][3] == t0.group_pos@[t][3] + count(run.place_seq(data, 3, 12), t as usize));
    }
}

impl Tally {
    /// Adds one finished tournament: the group winners, runners-up and qualified thirds, each
    /// team's group finishing place and points, the winners of each knockout round, each
    /// round-of-32 side, each knockout winner, and who met whom in which round.
    #[verifier::spinoff_prover]
    pub fn record(&mut self, data: &Data, run: &TournamentRun)
        requires
            old(self).wf(),
            run.wf(*data),
            run.finished(),
            old(self).n == data.teams@.len(),
            old(self).sims < MAX_SIMS,
        ensures
            final(self).wf(),
            old(self).consistent() ==> final(self).consistent(),
            old(self).places_complete(*data) ==> final(self).places_complete(*data),
            final(self).sims == old(self).sims + 1,
            final(self).n == old(self).n,
            forall|t: int| 0 <= t < old(self).n ==> #[trigger] final(self).group_winner@[t] == old(self).group_winner@[t]
                + count(run.place_seq(*data, 0, 12), t as usize),
            forall|t: int| 0 <= t < old(self).n ==> #[trigger] final(self).runner_up@[t] == old(self).runner_up@[t]
                + count(run.place_seq(*data, 1, 12), t as usize),
            forall|t: int| 0 <= t < old(self).n ==> #[trigger] final(self).third_through@[t]
                == old(self).third_through@[t] + count(run.third_seq(*data, 8), t as usize),
            forall|t: int| 0 <= t < old(self).n ==> #[trigger] final(self).points_sum@[t] == old(self).points_sum@[t]
                + run.points_before(*data, t as usize, 12),
            forall|t: int, q: int| 0 <= t < old(self).n && 0 <= q < 4 ==> #[trigger] final(self).group_pos@[t][q]
                == old(self).group_pos@[t][q] + count(run.place_seq(*data, q, 12), t as usize),
            forall|r: int, t: int| 0 <= r < 5 && 0 <= t < old(self).n ==> #[trigger] final(self).reach_list(r)[t]
                == old(self).reach_list(r)[t] + count(run.winner_seq(*data, reach_range(r).0, reach_range(r).1), t as usize),
            forall|x: int, r: int, y: int| 0 <= x < old(self).n && 0 <= r < 5 && 0 <= y < old(self).n ==> #[trigger] final(self).opp@[x][r]@[y]
                == old(self).opp@[x][r]@[y] + run.meetings(*data, x as usize, r, y as usize, 31),
            forall|j: int, t: int| 0 <= j < 31 && 0 <= t < old(self).n ==> #[trigger] final(self).win@[kid(j)]@[t]
                == old(self).win@[kid(j)]@[t] + if run.winner(*data, j)->0 == t { 1int } else { 0int },
            forall|j: int, t: int| 0 <= j < 16 && 0 <= t < old(self).n ==> #[trigger] final(self).slot_a@[kid(j)]@[t]
                == old(self).slot_a@[kid(j)]@[t] + if (run.sides_of(*data, j)->0).0 == t { 1int } else { 0int },
            forall|j: int, t: int| 0 <= j < 16 && 0 <= t < old(self).n ==> #[trigger] final(self).slot_b@[kid(j)]@[t]
                == old(self).slot_b@[kid(j)]@[t] + if (run.sides_of(*data, j)->0).1 == t { 1int } else { 0int },
    {
        let ghost t0 = *self;
        self.record_groups(data, run);
        let ghost t1 = *self;
        self.record_thirds(data, run);
        let ghost t2 = *self;
        assert(t2.opp == t0.opp && t2.sims == t0.sims && t2.n == t0.n);
        self.record_meetings(data, run);
        let ghost t3 = *self;
        assert(t3.win == t0.win && t3.slot_a == t0.slot_a && t3.slot_b == t0.slot_b);
        assert(t3.sims == t0.sims && t3.n == t0.n);
        assert(t3.maps_ready());
        self.record_match_maps(data, run);
        let ghost t4 = *self;
        assert(t4.reach_r16 == t0.reach_r16 && t4.reach_qf == t0.reach_qf && t4.reach_sf == t0.reach_sf);
        assert(t4.reach_final == t0.reach_final && t4.champion == t0.champion);
        assert(t4.sims == t0.sims && t4.n == t0.n);
        assert(t4.reach_ready());
        self.record_reach(data, run);
        let ghost t5 = *self;
        self.sims = self.sims + 1;
        proof {
            let e = cap(t0.sims as int);
            assert(bounded(t0.reach_list(0), e));
            assert(bounded(t0.reach_list(1), e));
            assert(bounded(t0.reach_list(2), e));
            assert(bounded(t0.reach_list(3), e));
            assert(bounded(t0.reach_list(4), e));
            assert(cap(self.sims as int) == e + 9);
            let b = e + 9;
            assert forall|t: int| 0 <= t < t0.n implies #[trigger] self.group_winner@[t] <= b by {
                run.lemma_one_tournament_bounds(*data, t as usize);
                assert(count(run.place_seq(*data, 0, 12), t as usize) <= 1);
                assert(t0.group_winner@[t] <= e);
            }
            assert forall|t: int| 0 <= t < t0.n implies #[trigger] self.runner_up@[t] <= b by {
                run.lemma_one_tournament_bounds(*data, t as usize);
                assert(count(run.place_seq(*data, 1, 12), t as usize) <= 1);
                assert(t0.runner_up@[t] <= e);
            }
            assert forall|t: int| 0 <= t < t0.n implies #[trigger] self.third_through@[t] <= b by {
                run.lemma_one_tournament_bounds(*data, t as usize);
                assert(t0.third_through@[t] <= e);
            }
            assert forall|t: int| 0 <= t < t0.n implies #[trigger] self.points_sum@[t] <= b by {
                run.lemma_one_tournament_bounds(*data, t as usize);
                assert(t0.points_sum@[t] <= e);
            }
            assert forall|t: int, q: int| 0 <= t < t0.n && 0 <= q < 4 implies #[trigger] self.group_pos@[t][q] <= b by {
                run.lemma_one_tournament_bounds(*data, t as usize);
                assert(count(run.place_seq(*data, q, 12), t as usize) <= 1);
                assert(t0.group_pos@[t][q] <= e);
            }
            assert forall|r: int, t: int| 0 <= r < 5 && 0 <= t < t0.n implies #[trigger] self.reach_list(r)[t] <= b by {
                run.lemma_one_tournament_bounds(*data, t as usize);
                assert(count(run.winner_seq(*data, reach_range(r).0, reach_range(r).1), t as usize) <= 1);
                assert(t4.reach_list(r) == t0.reach_list(r));
                assert(self.reach_list(r) == t5.reach_list(r));
                assert(t5.reach_list(r)[t] == t4.reach_list(r)[t] + count(
                    run.winner_seq(*data, reach_range(r).0, reach_range(r).1),
                    t as usize,
                ));
                assert(self.reach_list(r)[t] == t0.reach_list(r)[t] + count(
                    run.winner_seq(*data, reach_range(r).0, reach_range(r).1),
                    t as usize,
                ));
                assert(bounded(t0.reach_list(r), e));
                assert(t0.reach_list(r)[t] <= e);
                assert(reach_range(r).1 <= 16);
            }
            assert forall|r: int| 0 <= r < 5 implies (#[trigger] self.reach_list(r)).len() == t0.n by {
                assert(self.reach_list(r) == t5.reach_list(r));
            }
            assert(self.reach_list(0).len() == t0.n);
            assert(self.reach_list(1).len() == t0.n);
            assert(self.reach_list(2).len() == t0.n);
            assert(self.reach_list(3).len() == t0.n);
            assert(self.reach_list(4).len() == t0.n);
            assert(bounded(self.reach_r16@, b)) by {
                assert forall|t: int| 0 <= t < self.reach_r16@.len() implies #[trigger] self.reach_r16@[t] <= b by {
                    assert(self.reach_list(0)[t] <= b);
                }
            }
            assert(bounded(self.reach_qf@, b)) by {
                assert forall|t: int| 0 <= t < self.reach_qf@.len() implies #[trigger] self.reach_qf@[t] <= b by {
                    assert(self.reach_list(1)[t] <= b);
                }
            }
            assert(bounded(self.reach_sf@, b)) by {
                assert forall|t: int| 0 <= t < self.reach_sf@.len() implies #[trigger] self.reach_sf@[t] <= b by {
                    assert(self.reach_list(2)[t] <= b);
                }
            }
            assert(bounded(self.reach_final@, b)) by {
                assert forall|t: int| 0 <= t < self.reach_final@.len() implies #[trigger] self.reach_final@[t] <= b by {
                    assert(self.reach_list(3)[t] <= b);
                }
            }
            assert(bounded(self.champion@, b)) by {
                assert forall|t: int| 0 <= t < self.champion@.len() implies #[trigger] self.champion@[t] <= b by {
                    assert(self.reach_list(4)[t] <= b);
                }
            }
            assert forall|x: int, r: int, y: int| 0 <= x < t0.n && 0 <= r < 5 && 0 <= y < t0.n implies #[trigger] self.opp@[x][r]@[y] <= b by {
                run.lemma_one_tournament_bounds(*data, x as usize);
                assert(run.meetings(*data, x as usize, r, y as usize, 31) <= 1);
                assert(t0.opp@[x][r]@[y] <= e);
            }
            assert forall|j: int| 0 <= j < 31 implies #[trigger] self.win@.contains_key(kid(j)) && self.win@[kid(j)]@.len() == t0.n
                && bounded(self.win@[kid(j)]@, b) by {
                assert(t0.win@.contains_key(kid(j)));
                assert(bounded(t0.win@[kid(j)]@, e));
                assert(self.win == t4.win);
                assert(t4.win@.contains_key(kid(j)));
                assert(t3.win == t0.win);
                assert(self.win@[kid(j)]@.len() == t0.n);
                assert forall|t: int| 0 <= t < self.win@[kid(j)]@.len() implies #[trigger] self.win@[kid(j)]@[t] <= b by {
                    assert(t0.win@[kid(j)]@[t] <= e);
                }
            }
            assert forall|j: int| 0 <= j < 16 implies #[trigger] self.slot_a@.contains_key(kid(j)) && self.slot_a@[kid(j)]@.len() == t0.n
                && bounded(self.slot_a@[kid(j)]@, b) by {
                assert(t0.slot_a@.contains_key(kid(j)));
                assert(bounded(t0.slot_a@[kid(j)]@, e));
                assert(self.slot_a == t4.slot_a);
                assert(t4.slot_a@.contains_key(kid(j)));
                assert(t3.slot_a == t0.slot_a);
                assert(self.slot_a@[kid(j)]@.len() == t0.n);
                assert forall|t: int| 0 <= t < self.slot_a@[kid(j)]@.len() implies #[trigger] self.slot_a@[kid(j)]@[t] <= b by {
                    assert(t0.slot_a@[kid(j)]@[t] <= e);
                }
            }
            assert forall|j: int| 0 <= j < 16 implies #[trigger] self.slot_b@.contains_key(kid(j)) && self.slot_b@[kid(j)]@.len() == t0.n
                && bounded(self.slot_b@[kid(j)]@, b) by {
                assert(t0.slot_b@.contains_key(kid(j)));
                assert(bounded(t0.slot_b@[kid(j)]@, e));
                assert(self.slot_b == t4.slot_b);
                assert(t4.slot_b@.contains_key(kid(j)));
                assert(t3.slot_b == t0.slot_b);
                assert(self.slot_b@[kid(j)]@.len() == t0.n);
                assert forall|t: int| 0 <= t < self.slot_b@[kid(j)]@.len() implies #[trigger] self.slot_b@[kid(j)]@[t] <= b by {
                    assert(t0.slot_b@[kid(j)]@[t] <= e);
                }
            }
            assert forall|r: int, t: int| 0 <= r < 5 && 0 <= t < t0.n implies #[trigger] self.reach_list(r)[t]
                == t0.reach_list(r)[t] + count(run.winner_seq(*data, reach_range(r).0, reach_range(r).1), t as usize) by {
                assert(t4.reach_list(r) == t0.reach_list(r));
                assert(self.reach_list(r) == t5.reach_list(r));
                assert(t5.reach_list(r)[t] == t4.reach_list(r)[t] + count(
                    run.winner_seq(*data, reach_range(r).0, reach_range(r).1),
                    t as usize,
                ));
            }
            assert forall|r: int| 0 <= r < 5 implies sum(#[trigger] self.reach_list(r)) == sum(t0.reach_list(r))
                + reach_range(r).1 by {
                assert(t4.reach_list(r) == t0.reach_list(r));
                assert(self.reach_list(r) == t5.reach_list(r));
                assert(sum(t5.reach_list(r)) == sum(t4.reach_list(r)) + reach_range(r).1);
            }
            assert(sum(self.reach_list(0)) == sum(t0.reach_list(0)) + 16);
            assert(sum(self.reach_list(1)) == sum(t0.reach_list(1)) + 8);
            assert(sum(self.reach_list(2)) == sum(t0.reach_list(2)) + 4);
            assert(sum(self.reach_list(3)) == sum(t0.reach_list(3)) + 2);
            assert(sum(self.reach_list(4)) == sum(t0.reach_list(4)) + 1);
            assert(sum(self.reach_r16@) == sum(self.reach_list(0)));
            assert(sum(self.reach_qf@) == sum(self.reach_list(1)));
            assert(sum(self.reach_sf@) == sum(self.reach_list(2)));
            assert(sum(self.reach_final@) == sum(self.reach_list(3)));
            assert(sum(self.champion@) == sum(self.reach_list(4)));
            assert(sum(t0.reach_r16@) == sum(t0.reach_list(0)));
        }
        proof {
            if t0.consistent() {
                lemma_record_consistent(t0, *self, *run, *data);
            }
            if t0.places_complete(*data) {
                lemma_record_places(t0, *self, *run, *data);
            }
        }
    }
}

} // verus!
