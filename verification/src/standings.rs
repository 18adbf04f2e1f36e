use vstd::prelude::*;
use crate::bracket::{fixture, group_fixture, group_letter, is_group};
use crate::model::{group_score_spec, Data};

verus! {

/// What a table is ranked by: points, then goal difference, then goals scored, then a
/// tie-break number (random in a simulation, zero for real standings). Higher is better.
#[derive(Clone, Copy, Debug, PartialEq, Eq, Structural)]
pub struct RankKey {
    pub pts: u32,
    pub gd: i64,
    pub gf: i64,
    pub tie: u64,
}

/// `a` ranks strictly above `b` on the keys.
pub open spec fn better(a: RankKey, b: RankKey) -> bool {
    ||| a.pts > b.pts
    ||| (a.pts == b.pts && a.gd > b.gd)
    ||| (a.pts == b.pts && a.gd == b.gd && a.gf > b.gf)
    ||| (a.pts == b.pts && a.gd == b.gd && a.gf == b.gf && a.tie > b.tie)
}

/// Entry `i` is placed before entry `j`: better keys, or equal keys and a lower index.
pub open spec fn ranks_before(keys: Seq<RankKey>, i: usize, j: usize) -> bool {
    ||| better(keys[i as int], keys[j as int])
    ||| (keys[i as int] == keys[j as int] && i < j)
}

/// `r` lists every entry of `keys` once, best first.
pub open spec fn is_ranking(keys: Seq<RankKey>, r: Seq<usize>) -> bool {
    &&& r.len() == keys.len()
    &&& forall|a: int| 0 <= a < r.len() ==> #[trigger] r[a] < keys.len()
    &&& forall|x: usize| x < keys.len() ==> #[trigger] r.contains(x)
    &&& forall|a: int, b: int| 0 <= a < b < r.len() ==> ranks_before(keys, r[a], r[b])
}

proof fn lemma_ranks_before_trans(keys: Seq<RankKey>, i: usize, j: usize, k: usize)
    requires
        ranks_before(keys, i, j),
        ranks_before(keys, j, k),
    ensures
        ranks_before(keys, i, k),
{
}

proof fn lemma_ranks_before_total(keys: Seq<RankKey>, i: usize, j: usize)
    requires
        i != j,
    ensures
        ranks_before(keys, i, j) != ranks_before(keys, j, i),
{
}

/// The ranking of a list of keys is unique.
pub proof fn lemma_ranking_unique(keys: Seq<RankKey>, r1: Seq<usize>, r2: Seq<usize>)
    requires
        is_ranking(keys, r1),
        is_ranking(keys, r2),
    ensures
        r1 == r2,
{
    assert forall|a: int| 0 <= a < r1.len() implies r1[a] == r2[a] by {
        lemma_ranking_prefix(keys, r1, r2, a);
    }
    assert(r1 =~= r2);
}

proof fn lemma_ranking_prefix(keys: Seq<RankKey>, r1: Seq<usize>, r2: Seq<usize>, a: int)
    requires
        is_ranking(keys, r1),
        is_ranking(keys, r2),
        0 <= a < r1.len(),
    ensures
        r1[a] == r2[a],
    decreases a,
{
    assert forall|b: int| 0 <= b < a implies r1[b] == r2[b] by {
        lemma_ranking_prefix(keys, r1, r2, b);
    }
    let x1 = r1[a];
    let x2 = r2[a];
    if x1 != x2 {
        assert(r1.contains(x2));
        let c = choose|c: int| 0 <= c < r1.len() && r1[c] == x2;
        assert(r2.contains(x1));
        let d = choose|d: int| 0 <= d < r2.len() && r2[d] == x1;
        if c < a {
            assert(r2[c] == x2);
            assert(ranks_before(keys, r2[c], r2[a]) || ranks_before(keys, r2[a], r2[c]));
            assert(false);
        }
        if d < a {
            assert(r1[d] == x1);
            assert(ranks_before(keys, r1[d], r1[a]) || ranks_before(keys, r1[a], r1[d]));
            assert(false);
        }
        assert(c > a && d > a);
        assert(ranks_before(keys, x1, x2));
        assert(ranks_before(keys, x2, x1));
        lemma_ranks_before_total(keys, x1, x2);
    }
}

/// How many entries at the front of `r` the entry `x` does not beat.
spec fn lead(keys: Seq<RankKey>, r: Seq<usize>, x: usize) -> nat
    decreases r.len(),
{
    if r.len() == 0 {
        0
    } else if !better(keys[x as int], keys[r[0] as int]) {
        1 + lead(keys, r.drop_first(), x)
    } else {
        0
    }
}

proof fn lemma_lead(keys: Seq<RankKey>, r: Seq<usize>, x: usize)
    ensures
        lead(keys, r, x) <= r.len(),
        forall|q: int| 0 <= q < lead(keys, r, x) ==> !better(keys[x as int], keys[#[trigger] r[q] as int]),
        lead(keys, r, x) < r.len() ==> better(keys[x as int], keys[r[lead(keys, r, x) as int] as int]),
    decreases r.len(),
{
    if r.len() > 0 && !better(keys[x as int], keys[r[0] as int]) {
        lemma_lead(keys, r.drop_first(), x);
        assert forall|q: int| 0 <= q < lead(keys, r, x) implies !better(keys[x as int], keys[#[trigger] r[q] as int]) by {
            if q > 0 {
                assert(r[q] == r.drop_first()[q - 1]);
            }
        }
    }
}

/// Every list of keys (indexable by `usize`) has a ranking.
pub proof fn lemma_ranking_exists(keys: Seq<RankKey>) -> (r: Seq<usize>)
    requires
        keys.len() <= usize::MAX,
    ensures
        is_ranking(keys, r),
        ranking(keys) == r,
    decreases keys.len(),
{
    if keys.len() == 0 {
        let r = Seq::<usize>::empty();
        assert(is_ranking(keys, r));
        lemma_ranking_unique(keys, r, ranking(keys));
        return r;
    }
    let n = (keys.len() - 1) as usize;
    let d = keys.drop_last();
    let r0 = lemma_ranking_exists(d);
    lemma_lead(keys, r0, n);
    let p = lead(keys, r0, n) as int;
    let r = r0.insert(p, n);
    assert forall|a: int| 0 <= a < r0.len() implies #[trigger] r0[a] < n by {}
    assert forall|a: int| 0 <= a < r.len() implies #[trigger] r[a] < keys.len() by {
        if a < p {
            assert(r[a] == r0[a]);
        } else if a > p {
            assert(r[a] == r0[a - 1]);
        }
    }
    assert forall|x: usize| x < keys.len() implies #[trigger] r.contains(x) by {
        if x == n {
            assert(r[p] == n);
        } else {
            assert(r0.contains(x));
            let a = choose|a: int| 0 <= a < r0.len() && r0[a] == x;
            if a < p {
                assert(r[a] == x);
            } else {
                assert(r[a + 1] == x);
            }
        }
    }
    assert forall|a: int, b: int| 0 <= a < b < r0.len() implies ranks_before(keys, r0[a], r0[b]) by {
        assert(ranks_before(d, r0[a], r0[b]));
        assert(d[r0[a] as int] == keys[r0[a] as int]);
        assert(d[r0[b] as int] == keys[r0[b] as int]);
    }
    assert forall|a: int, b: int| 0 <= a < b < r.len() implies ranks_before(keys, r[a], r[b]) by {
        if b < p {
            assert(r[a] == r0[a] && r[b] == r0[b]);
        } else if b == p {
            assert(r[a] == r0[a]);
            assert(!better(keys[n as int], keys[r0[a] as int]));
        } else if a == p {
            assert(r[b] == r0[b - 1]);
            assert(better(keys[n as int], keys[r0[p] as int]));
            if b - 1 > p {
                assert(ranks_before(keys, r0[p], r0[b - 1]));
                lemma_ranks_before_trans(keys, n, r0[p], r0[b - 1]);
            }
        } else if a < p {
            assert(r[a] == r0[a] && r[b] == r0[b - 1]);
        } else {
            assert(r[a] == r0[a - 1] && r[b] == r0[b - 1]);
        }
    }
    assert(is_ranking(keys, r));
    lemma_ranking_unique(keys, r, ranking(keys));
    r
}

/// The ranking of `keys`.
pub open spec fn ranking(keys: Seq<RankKey>) -> Seq<usize> {
    choose|r: Seq<usize>| is_ranking(keys, r)
}

/// Ranks entries best first: by points, goal difference, goals scored and tie-break number,
/// all descending, and then by index.
pub fn rank(keys: &Vec<RankKey>) -> (r: Vec<usize>)
    ensures
        is_ranking(keys@, r@),
        r@ == ranking(keys@),
{
    let n = keys.len();
    let mut out: Vec<usize> = Vec::new();
    let mut k: usize = 0;
    while k < n
        invariant
            k <= n,
            n == keys@.len(),
            out@.len() == k,
            forall|a: int| 0 <= a < out@.len() ==> #[trigger] out@[a] < k,
            forall|x: usize| x < k ==> #[trigger] out@.contains(x),
            forall|a: int, b: int| 0 <= a < b < out@.len() ==> ranks_before(keys@, out@[a], out@[b]),
        decreases n - k,
    {
        let mut p: usize = 0;
        while p < out.len() && !better_exec(&keys[k], &keys[out[p]])
            invariant
                p <= out@.len(),
                k < n,
                n == keys@.len(),
                forall|a: int| 0 <= a < out@.len() ==> #[trigger] out@[a] < k,
                forall|q: int| 0 <= q < p ==> !better(keys@[k as int], keys@[#[trigger] out@[q] as int]),
            decreases out@.len() - p,
        {
            p = p + 1;
        }
        let ghost out0 = out@;
        out.insert(p, k);
        proof {
            assert forall|a: int| 0 <= a < out@.len() implies #[trigger] out@[a] < k + 1 by {
                if a < p {
                    assert(out@[a] == out0[a]);
                } else if a > p {
                    assert(out@[a] == out0[a - 1]);
                }
            }
            assert forall|x: usize| x < k + 1 implies #[trigger] out@.contains(x) by {
                if x == k {
                    assert(out@[p as int] == k);
                } else {
                    assert(out0.contains(x));
                    let a = choose|a: int| 0 <= a < out0.len() && out0[a] == x;
                    if a < p {
                        assert(out@[a] == x);
                    } else {
                        assert(out@[a + 1] == x);
                    }
                }
            }
            assert forall|a: int, b: int| 0 <= a < b < out@.len() implies ranks_before(
                keys@,
                out@[a],
                out@[b],
            ) by {
                if b < p {
                    assert(out@[a] == out0[a] && out@[b] == out0[b]);
                } else if b == p {
                    assert(out@[a] == out0[a]);
                    assert(out0[a] < k);
                } else if a == p {
                    assert(out@[b] == out0[b - 1]);
                    assert(better(keys@[k as int], keys@[out0[p as int] as int]));
                    if b - 1 > p {
                        assert(ranks_before(keys@, out0[p as int], out0[b - 1]));
                        lemma_ranks_before_trans(keys@, k, out0[p as int], out0[b - 1]);
                    }
                } else if a < p {
                    assert(out@[a] == out0[a] && out@[b] == out0[b - 1]);
                } else {
                    assert(out@[a] == out0[a - 1] && out@[b] == out0[b - 1]);
                }
            }
        }
        k = k + 1;
    }
    proof {
        assert(is_ranking(keys@, out@));
        lemma_ranking_unique(keys@, out@, ranking(keys@));
    }
    out
}

fn better_exec(a: &RankKey, b: &RankKey) -> (r: bool)
    ensures
        r == better(*a, *b),
{
    if a.pts != b.pts {
        return a.pts > b.pts;
    }
    if a.gd != b.gd {
        return a.gd > b.gd;
    }
    if a.gf != b.gf {
        return a.gf > b.gf;
    }
    a.tie > b.tie
}

/// Points for a side that scored `f` and conceded `a`: 3 for a win, 1 for a draw.
pub open spec fn points(f: u32, a: u32) -> int {
    if f > a {
        3
    } else if f == a {
        1
    } else {
        0
    }
}

/// What fixture `k` with score `sc` adds to the team at draw position `i` (0-based):
/// (points, goals for, goals against).
pub open spec fn fixture_stat(sc: (u32, u32), k: int, i: int) -> (int, int, int) {
    let (hp, ap) = group_fixture(k);
    if i == hp - 1 {
        (points(sc.0, sc.1), sc.0 as int, sc.1 as int)
    } else if i == ap - 1 {
        (points(sc.1, sc.0), sc.1 as int, sc.0 as int)
    } else {
        (0, 0, 0)
    }
}

/// (points, goals for, goals against) of the team at position `i` after fixtures `0..n`.
pub open spec fn stats_upto(scores: Seq<(u32, u32)>, n: int, i: int) -> (int, int, int)
    decreases n,
{
    if n <= 0 {
        (0, 0, 0)
    } else {
        let prev = stats_upto(scores, n - 1, i);
        let d = fixture_stat(scores[n - 1], n - 1, i);
        (prev.0 + d.0, prev.1 + d.1, prev.2 + d.2)
    }
}

/// The ranking key of the team at position `i` after the six fixtures.
pub open spec fn group_key(scores: Seq<(u32, u32)>, i: int, tie: u64) -> RankKey {
    let st = stats_upto(scores, 6, i);
    RankKey { pts: st.0 as u32, gd: (st.1 - st.2) as i64, gf: st.1 as i64, tie }
}

pub proof fn lemma_stats_bounds(scores: Seq<(u32, u32)>, n: int, i: int)
    requires
        0 <= n <= 6,
    ensures
        0 <= stats_upto(scores, n, i).0 <= 3 * n,
        0 <= stats_upto(scores, n, i).1 <= n * u32::MAX,
        0 <= stats_upto(scores, n, i).2 <= n * u32::MAX,
    decreases n,
{
    if n > 0 {
        lemma_stats_bounds(scores, n - 1, i);
    }
}

/// Each draw position plays three of the six fixtures, so it ends the group stage with at
/// most nine points.
pub proof fn lemma_points_at_most_nine(scores: Seq<(u32, u32)>, i: int)
    ensures
        0 <= stats_upto(scores, 6, i).0 <= 9,
{
    reveal_with_fuel(stats_upto, 7);
    assert(points(scores[0].0, scores[0].1) <= 3 && points(scores[0].1, scores[0].0) <= 3);
    assert(points(scores[1].0, scores[1].1) <= 3 && points(scores[1].1, scores[1].0) <= 3);
    assert(points(scores[2].0, scores[2].1) <= 3 && points(scores[2].1, scores[2].0) <= 3);
    assert(points(scores[3].0, scores[3].1) <= 3 && points(scores[3].1, scores[3].0) <= 3);
    assert(points(scores[4].0, scores[4].1) <= 3 && points(scores[4].1, scores[4].0) <= 3);
    assert(points(scores[5].0, scores[5].1) <= 3 && points(scores[5].1, scores[5].0) <= 3);
    lemma_stats_bounds(scores, 6, i);
}

/// The ranking keys of the four teams of a group (by draw position) from the six fixture
/// scores (in `GROUP_FIXTURES` order) and four tie-break numbers.
pub fn group_keys(scores: &[(u32, u32)], ties: &[u64]) -> (r: Vec<RankKey>)
    requires
        scores@.len() == 6,
        ties@.len() == 4,
    ensures
        r@.len() == 4,
        forall|i: int| 0 <= i < 4 ==> #[trigger] r@[i] == group_key(scores@, i, ties@[i]),
{
    let mut pts: Vec<u32> = vec![0, 0, 0, 0];
    let mut gf: Vec<i64> = vec![0, 0, 0, 0];
    let mut ga: Vec<i64> = vec![0, 0, 0, 0];
    let mut k: usize = 0;
    while k < 6
        invariant
            k <= 6,
            scores@.len() == 6,
            pts@.len() == 4 && gf@.len() == 4 && ga@.len() == 4,
            forall|i: int|
                0 <= i < 4 ==> {
                    &&& #[trigger] pts@[i] == stats_upto(scores@, k as int, i).0
                    &&& gf@[i] == stats_upto(scores@, k as int, i).1
                    &&& ga@[i] == stats_upto(scores@, k as int, i).2
                },
        decreases 6 - k,
    {
        let (hp, ap) = fixture(k);
        let (hi, ai) = (hp - 1, ap - 1);
        proof {
            lemma_stats_bounds(scores@, k as int, hi as int);
            lemma_stats_bounds(scores@, k as int, ai as int);
            assert(pts@[hi as int] == stats_upto(scores@, k as int, hi as int).0);
            assert(pts@[ai as int] == stats_upto(scores@, k as int, ai as int).0);
        }
        let (h, a) = scores[k];
        let ghost p0 = pts@;
        let ghost f0 = gf@;
        let ghost a0 = ga@;
        assert forall|i: int| 0 <= i < 4 implies {
            &&& #[trigger] p0[i] == stats_upto(scores@, k as int, i).0
            &&& f0[i] == stats_upto(scores@, k as int, i).1
            &&& a0[i] == stats_upto(scores@, k as int, i).2
        } by {
            assert(pts@[i] == stats_upto(scores@, k as int, i).0);
        }
        gf.set(hi, gf[hi] + h as i64);
        ga.set(hi, ga[hi] + a as i64);
        gf.set(ai, gf[ai] + a as i64);
        ga.set(ai, ga[ai] + h as i64);
        if h > a {
            pts.set(hi, pts[hi] + 3);
        } else if h < a {
            pts.set(ai, pts[ai] + 3);
        } else {
            pts.set(hi, pts[hi] + 1);
            pts.set(ai, pts[ai] + 1);
        }
        k = k + 1;
        proof {
            assert forall|i: int| 0 <= i < 4 implies {
                &&& #[trigger] pts@[i] == stats_upto(scores@, k as int, i).0
                &&& gf@[i] == stats_upto(scores@, k as int, i).1
                &&& ga@[i] == stats_upto(scores@, k as int, i).2
            } by {
                assert(p0[i] == stats_upto(scores@, k - 1, i).0);
                assert(hi != ai);
                assert(stats_upto(scores@, k as int, i) == {
                    let prev = stats_upto(scores@, k - 1, i);
                    let d = fixture_stat(scores@[k - 1], k - 1, i);
                    (prev.0 + d.0, prev.1 + d.1, prev.2 + d.2)
                });
            }
        }
    }
    let mut out: Vec<RankKey> = Vec::new();
    let mut i: usize = 0;
    while i < 4
        invariant
            i <= 4,
            scores@.len() == 6,
            ties@.len() == 4,
            pts@.len() == 4 && gf@.len() == 4 && ga@.len() == 4,
            forall|j: int|
                0 <= j < 4 ==> {
                    &&& #[trigger] pts@[j] == stats_upto(scores@, 6, j).0
                    &&& gf@[j] == stats_upto(scores@, 6, j).1
                    &&& ga@[j] == stats_upto(scores@, 6, j).2
                },
            out@.len() == i,
            forall|j: int| 0 <= j < i ==> #[trigger] out@[j] == group_key(scores@, j, ties@[j]),
        decreases 4 - i,
    {
        proof {
            lemma_stats_bounds(scores@, 6, i as int);
        }
        out.push(RankKey { pts: pts[i], gd: gf[i] - ga[i], gf: gf[i], tie: ties[i] });
        i = i + 1;
    }
    out
}

/// All six fixtures of group `g` (0-based) have a real result.
pub open spec fn group_complete(data: Data, g: int) -> bool {
    forall|k: int| 0 <= k < 6 ==> #[trigger] group_score_spec(data.results@, g, k) is Some
}

/// The six real scores of group `g`.
pub open spec fn real_scores(data: Data, g: int) -> Seq<(u32, u32)> {
    Seq::new(6, |k: int| group_score_spec(data.results@, g, k)->0)
}

/// Ranking keys of the four teams of group `g` from its real results (no random tie-break).
pub open spec fn real_keys(data: Data, g: int) -> Seq<RankKey> {
    Seq::new(4, |i: int| group_key(real_scores(data, g), i, 0))
}

/// Draw positions (0-based) of group `g` in final order, from real results.
pub open spec fn real_order(data: Data, g: int) -> Seq<usize> {
    ranking(real_keys(data, g))
}

/// Collects the six real scores of group `gi`, or `None` if one is missing.
fn real_group_scores(data: &Data, gi: usize) -> (r: Option<Vec<(u32, u32)>>)
    requires
        data.indexed(),
        gi < 12,
    ensures
        r is Some <==> group_complete(*data, gi as int),
        r matches Some(v) ==> v@ == real_scores(*data, gi as int),
{
    let mut v: Vec<(u32, u32)> = Vec::new();
    let mut k: usize = 0;
    while k < 6
        invariant
            k <= 6,
            gi < 12,
            data.indexed(),
            v@.len() == k,
            forall|m: int| 0 <= m < k ==> group_score_spec(data.results@, gi as int, m) is Some,
            forall|m: int| 0 <= m < k ==> #[trigger] v@[m] == real_scores(*data, gi as int)[m],
        decreases 6 - k,
    {
        match data.group_score(gi, k) {
            Some(sc) => v.push(sc),
            None => return None,
        }
        k = k + 1;
    }
    assert(v@ =~= real_scores(*data, gi as int));
    Some(v)
}

/// Final group order from real results only: the four team indices ranked 1st to 4th by
/// points, goal difference, goals scored, then draw position. `None` unless all six games of
/// the group have been played.
pub fn real_group_standings(data: &Data, g: char) -> (r: Option<[usize; 4]>)
    requires
        data.indexed(),
        is_group(g),
    ensures
        r is Some <==> group_complete(*data, g as int - 65),
        r matches Some(o) ==> forall|p: int|
            0 <= p < 4 ==> #[trigger] o[p] == data.member(
                g as int - 65,
                real_order(*data, g as int - 65)[p] as int,
            ),
{
    let gi = (g as u32 - 65) as usize;
    let scores = match real_group_scores(data, gi) {
        Some(v) => v,
        None => return None,
    };
    let ties: Vec<u64> = vec![0, 0, 0, 0];
    let keys = group_keys(scores.as_slice(), ties.as_slice());
    assert(keys@ =~= real_keys(*data, gi as int));
    let order = rank(&keys);
    let teams = data.group_teams(g);
    Some([teams[order[0]], teams[order[1]], teams[order[2]], teams[order[3]]])
}

/// The ranking key of the third-placed team of group `g`, from real results.
pub open spec fn real_third_key(data: Data, g: int) -> RankKey {
    real_keys(data, g)[real_order(data, g)[2] as int]
}

/// Ranking keys of the twelve third-placed teams, by group.
pub open spec fn real_third_keys(data: Data) -> Seq<RankKey> {
    Seq::new(12, |g: int| real_third_key(data, g))
}

/// The eight best third-placed groups, best first, from real results.
pub open spec fn real_thirds_spec(data: Data) -> Seq<char> {
    Seq::new(8, |i: int| group_letter(ranking(real_third_keys(data))[i] as int))
}

/// The 8 best third-placed groups (in ranking order) from real results: ranked by points,
/// goal difference, goals scored, then group letter. `None` unless all 12 groups are
/// complete.
pub fn real_thirds_order(data: &Data) -> (r: Option<Vec<char>>)
    requires
        data.indexed(),
    ensures
        r is Some <==> forall|g: int| 0 <= g < 12 ==> #[trigger] group_complete(*data, g),
        r matches Some(v) ==> v@ == real_thirds_spec(*data),
        r matches Some(v) ==> v@.len() == 8 && forall|i: int| 0 <= i < 8 ==> is_group(#[trigger] v@[i]),
{
    let letters = crate::bracket::all_groups();
    let mut keys: Vec<RankKey> = Vec::new();
    let mut g: usize = 0;
    while g < 12
        invariant
            g <= 12,
            data.indexed(),
            forall|h: int| 0 <= h < 12 ==> #[trigger] letters[h] == group_letter(h),
            forall|h: int| 0 <= h < g ==> #[trigger] group_complete(*data, h),
            keys@.len() == g,
            forall|h: int| 0 <= h < g ==> #[trigger] keys@[h] == real_third_key(*data, h),
        decreases 12 - g,
    {
        let scores = match real_group_scores(data, g) {
            Some(v) => v,
            None => return None,
        };
        let ties: Vec<u64> = vec![0, 0, 0, 0];
        let gk = group_keys(scores.as_slice(), ties.as_slice());
        assert(gk@ =~= real_keys(*data, g as int));
        let order = rank(&gk);
        keys.push(gk[order[2]]);
        g = g + 1;
    }
    assert(keys@ =~= real_third_keys(*data));
    let order = rank(&keys);
    let mut out: Vec<char> = Vec::new();
    let mut i: usize = 0;
    while i < 8
        invariant
            i <= 8,
            order@ == ranking(real_third_keys(*data)),
            order@.len() == 12,
            forall|a: int| 0 <= a < 12 ==> #[trigger] order@[a] < 12,
            forall|h: int| 0 <= h < 12 ==> #[trigger] letters[h] == group_letter(h),
            out@.len() == i,
            forall|j: int| 0 <= j < i ==> #[trigger] out@[j] == real_thirds_spec(*data)[j],
        decreases 8 - i,
    {
        out.push(letters[order[i]]);
        i = i + 1;
    }
    assert(out@ =~= real_thirds_spec(*data));
    assert forall|i: int| 0 <= i < 8 implies is_group(#[trigger] out@[i]) by {
        assert(order@[i] < 12);
    }
    Some(out)
}

} // verus!
