use vstd::prelude::*;
use crate::analysis::{
    all_groups_complete, real_place, real_sides, real_source, real_third_assignment,
    real_third_for, real_winner,
};
use crate::bracket::{group_letter, knockout_spec, ko_index, lemma_bracket_shape, Source};
use crate::model::{group_score_spec, ko_score_spec, Data};
use crate::standings::{
    group_complete, is_ranking, lemma_ranking_exists, lemma_ranking_unique, ranking, ranks_before,
    real_keys, real_order, real_scores, real_third_keys, real_thirds_spec, RankKey,
};
use crate::tournament::TournamentRun;

verus! {

/// Same points, goal difference and goals scored.
pub open spec fn same_record(a: RankKey, b: RankKey) -> bool {
    a.pts == b.pts && a.gd == b.gd && a.gf == b.gf
}

/// No two entries are level on points, goal difference and goals scored.
pub open spec fn no_full_ties(keys: Seq<RankKey>) -> bool {
    forall|i: int, j: int|
        0 <= i < keys.len() && 0 <= j < keys.len() && i != j ==> !same_record(
            #[trigger] keys[i],
            #[trigger] keys[j],
        )
}

/// The real results leave no level records: in no finished group are two teams level on
/// points, goal difference and goals, and, once every group is finished, no two
/// third-placed teams are.
pub open spec fn settled_without_ties(data: Data) -> bool {
    &&& forall|g: int| 0 <= g < 12 && #[trigger] group_complete(data, g) ==> no_full_ties(real_keys(data, g))
    &&& all_groups_complete(data) ==> no_full_ties(real_third_keys(data))
}

/// A ranking of one list of keys ranks a second list the same way when the second has the
/// same records and no two of its entries are level on them.
proof fn lemma_ranking_transfer(k1: Seq<RankKey>, k2: Seq<RankKey>, r: Seq<usize>)
    requires
        is_ranking(k1, r),
        k1.len() == k2.len(),
        k1.len() <= 12,
        forall|i: int| 0 <= i < k1.len() ==> same_record(#[trigger] k1[i], k2[i]),
        no_full_ties(k2),
    ensures
        ranking(k2) == r,
{
    assert forall|a: int, b: int| 0 <= a < b < r.len() implies ranks_before(k2, r[a], r[b]) by {
        assert(ranks_before(k1, r[a], r[b]));
        let x = r[a] as int;
        let y = r[b] as int;
        assert(r[a] < k1.len() && r[b] < k1.len());
        assert(same_record(k1[x], k2[x]));
        assert(same_record(k1[y], k2[y]));
        assert(x != y);
        assert(!same_record(k2[x], k2[y]));
    }
    assert(is_ranking(k2, r));
    let r2 = lemma_ranking_exists(k2);
    lemma_ranking_unique(k2, r, r2);
}

/// A group whose six real results are in finishes in the run as it did in reality, when no
/// two of its teams are level on points, goal difference and goals.
proof fn lemma_group_settled(run: TournamentRun, data: Data, g: int)
    requires
        run.wf(data),
        0 <= g < run.scores@.len(),
        group_complete(data, g),
        no_full_ties(real_keys(data, g)),
    ensures
        run.order(g) == real_order(data, g),
        run.order(g).len() == 4,
        forall|i: int| 0 <= i < 4 ==> #[trigger] run.order(g)[i] < 4,
        forall|i: int| 0 <= i < 4 ==> same_record(#[trigger] run.keys(g)[i], real_keys(data, g)[i]),
{
    assert(run.scores@[g]@.len() == 6);
    assert forall|k: int| 0 <= k < 6 implies #[trigger] run.scores@[g]@[k] == real_scores(data, g)[k] by {
        assert(group_score_spec(data.results@, g, k) is Some);
    }
    assert(run.scores@[g]@ =~= real_scores(data, g));
    assert forall|i: int| 0 <= i < 4 implies same_record(#[trigger] run.keys(g)[i], real_keys(data, g)[i]) by {}
    assert(is_ranking(run.keys(g), run.orders@[g]@));
    lemma_ranking_transfer(run.keys(g), real_keys(data, g), run.orders@[g]@);
}

/// Once every group is finished in reality without level records, the run qualifies the
/// same eight thirds in the same order and slots them as reality does.
proof fn lemma_thirds_settled(run: TournamentRun, data: Data)
    requires
        run.wf(data),
        run.scores@.len() == 12,
        all_groups_complete(data),
        settled_without_ties(data),
    ensures
        run.third_letters() == real_thirds_spec(data),
        run.assignment() == real_third_assignment(data),
{
    let k1 = Seq::new(12, |g: int| run.third_key(g));
    let k2 = real_third_keys(data);
    assert forall|g: int| 0 <= g < 12 implies same_record(#[trigger] k1[g], k2[g]) by {
        assert(group_complete(data, g));
        lemma_group_settled(run, data, g);
        let o = run.order(g);
        assert(o[2] < 4);
        assert(same_record(run.keys(g)[o[2] as int], real_keys(data, g)[o[2] as int]));
    }
    let r = lemma_ranking_exists(k1);
    lemma_ranking_transfer(k1, k2, r);
    assert(run.third_rank() == r);
    assert(run.third_letters() =~= real_thirds_spec(data));
}

proof fn lemma_source_settled(run: TournamentRun, data: Data, src: Source, j: int)
    requires
        run.wf(data),
        run.scores@.len() == 12,
        settled_without_ties(data),
        0 <= j < 31,
        j <= run.ko@.len(),
    ensures
        real_source(data, src, j) is Some ==> run.source(data, src, j) == real_source(data, src, j),
    decreases j, 0int,
{
    if real_source(data, src, j) is Some {
        match src {
            Source::Winner(c) => {
                assert(group_complete(data, c as int - 65));
                lemma_group_settled(run, data, c as int - 65);
            },
            Source::RunnerUp(c) => {
                assert(group_complete(data, c as int - 65));
                lemma_group_settled(run, data, c as int - 65);
            },
            Source::Third => {
                let id = knockout_spec()[j].id;
                assert(real_third_assignment(data) is Some);
                assert(all_groups_complete(data));
                lemma_thirds_settled(run, data);
                let a = real_third_assignment(data)->0;
                let c = crate::analysis::assigned_group(a, id)->0;
                assert(real_place(data, c, 2) is Some);
                assert(group_complete(data, c as int - 65));
                lemma_group_settled(run, data, c as int - 65);
            },
            Source::MatchWinner(n) => {
                lemma_sides_settled(run, data, ko_index(n));
            },
        }
    }
}

proof fn lemma_sides_settled(run: TournamentRun, data: Data, j: int)
    requires
        run.wf(data),
        run.scores@.len() == 12,
        settled_without_ties(data),
        0 <= j < 31,
        j <= run.ko@.len(),
    ensures
        real_sides(data, j) is Some ==> run.sides_of(data, j) == real_sides(data, j),
        real_winner(data, j) is Some && j < run.ko@.len() ==> run.winner(data, j) == real_winner(data, j),
    decreases j, 1int,
{
    lemma_bracket_shape();
    let km = knockout_spec()[j];
    lemma_source_settled(run, data, km.a, j);
    lemma_source_settled(run, data, km.b, j);
    if real_winner(data, j) is Some && j < run.ko@.len() {
        assert(ko_score_spec(data.results@, j) is Some);
        assert(run.ko@[j] == ko_score_spec(data.results@, j)->0);
    }
}

/// What real results settle, every simulated tournament keeps, once its group stage is over
/// and as long as reality leaves no level records (`settled_without_ties`): a finished
/// group's places are the real ones; a knockout match that the run has reached has the
/// sides that real results decide for it, where they decide them; and a knockout match that
/// the run has played sends through the team that its real result sends through.
pub proof fn lemma_real_results_settle(run: TournamentRun, data: Data)
    requires
        run.wf(data),
        run.scores@.len() == 12,
        settled_without_ties(data),
    ensures
        forall|g: int, p: int|
            0 <= g < 12 && 0 <= p < 4 && #[trigger] real_place(data, group_letter(g), p) is Some ==> Some(
                run.place(data, g, p),
            ) == real_place(data, group_letter(g), p),
        forall|j: int|
            0 <= j < 31 && j <= run.ko@.len() && #[trigger] real_sides(data, j) is Some ==> run.sides_of(
                data,
                j,
            ) == real_sides(data, j),
        forall|j: int|
            0 <= j < run.ko@.len() && #[trigger] real_winner(data, j) is Some ==> run.winner(data, j)
                == real_winner(data, j),
{
    assert forall|g: int, p: int|
        0 <= g < 12 && 0 <= p < 4 && #[trigger] real_place(data, group_letter(g), p) is Some implies Some(
            run.place(data, g, p),
        ) == real_place(data, group_letter(g), p) by {
        assert(group_letter(g) as int - 65 == g);
        assert(group_complete(data, g));
        lemma_group_settled(run, data, g);
    }
    assert forall|j: int|
        0 <= j < 31 && j <= run.ko@.len() && #[trigger] real_sides(data, j) is Some implies run.sides_of(
            data,
            j,
        ) == real_sides(data, j) by {
        lemma_sides_settled(run, data, j);
    }
    assert forall|j: int|
        0 <= j < run.ko@.len() && #[trigger] real_winner(data, j) is Some implies run.winner(data, j)
            == real_winner(data, j) by {
        assert(run.ko@.len() <= 31);
        lemma_sides_settled(run, data, j);
    }
}

} // verus!
