use vstd::prelude::*;
use crate::analysis::{assigned_group, ko_winner_of, lookup_pair, pair_lookup};
use crate::bracket::{
    fixture, group_fixture, group_letter, is_group, is_third_slot, knockout, knockout_spec,
    ko_index, lemma_bracket_shape, round_at, side_ok, third_slots_spec, Round, Source,
};
use crate::model::{group_score_spec, is_group_listing, ko_score_spec, Data};
use crate::sim::{canonical_thirds, is_third_assignment, slot_thirds, slotting};
use crate::standings::{group_key, group_keys, is_ranking, rank, ranking, RankKey};

verus! {

/// What a simulated tournament needs next.
#[derive(Debug)]
pub enum Step {
    /// Play fixture `fixture` (0-based, in `GROUP_FIXTURES` order) of group `group` (0-based)
    /// between `home` and `away`; `known` is its real score if entered, which is then used.
    Group { group: usize, fixture: usize, home: usize, away: usize, known: Option<(u32, u32)> },
    /// Draw five tie-break numbers for group `group`: one per draw position for its table,
    /// then one for its third-placed team.
    Ties { group: usize },
    /// Play knockout match `index` (bracket order), number `id`; `known` is its real result if
    /// entered (score, away side won the shootout), which is then used.
    Knockout {
        index: usize,
        id: u32,
        round: Round,
        home: usize,
        away: usize,
        known: Option<(u32, u32, bool)>,
    },
    /// The eight best third-placed groups cannot be slotted into the bracket.
    NoThirdSlotting,
    /// The tournament is over.
    Done,
}

/// What the caller reports back for a step.
pub enum Outcome {
    /// A group match score (home, away).
    Score(u32, u32),
    /// Five tie-break numbers (higher ranks first).
    Ties(Vec<u64>),
    /// A knockout score (home, away) and whether the home side wins a shootout if level.
    Knockout(u32, u32, bool),
}

/// The score recorded for a group match: the real one if entered, else the reported one.
pub open spec fn recorded_score(known: Option<(u32, u32)>, h: u32, a: u32) -> (u32, u32) {
    match known {
        Some(x) => x,
        None => (h, a),
    }
}

/// The result recorded for a knockout match: the real one if entered, else the reported
/// score with the shootout won by the home side exactly when it says so.
pub open spec fn recorded_ko(known: Option<(u32, u32, bool)>, h: u32, a: u32, home_wins: bool) -> (
    u32,
    u32,
    bool,
) {
    match known {
        Some(x) => x,
        None => (h, a, !home_wins),
    }
}

/// One simulated tournament in progress: the recorded group scores and tie-break numbers,
/// the slotting of the best thirds, and the recorded knockout results.
pub struct TournamentRun {
    pub scores: Vec<Vec<(u32, u32)>>,
    pub current: Vec<(u32, u32)>,
    pub ties: Vec<Vec<u64>>,
    pub orders: Vec<Vec<usize>>,
    pub third_keys: Vec<RankKey>,
    pub third_team: Vec<(u32, usize)>,
    pub failed: bool,
    pub ko: Vec<(u32, u32, bool)>,
    pub sides: Vec<(usize, usize)>,
    pub winners: Vec<usize>,
}

impl TournamentRun {
    /// Ranking keys of finished group `g`.
    pub open spec fn keys(&self, g: int) -> Seq<RankKey> {
        Seq::new(4, |i: int| group_key(self.scores@[g]@, i, self.ties@[g]@[i]))
    }

    /// Draw positions (0-based) of finished group `g`, best first.
    pub open spec fn order(&self, g: int) -> Seq<usize> {
        ranking(self.keys(g))
    }

    /// The team in place `p` of finished group `g`.
    pub open spec fn place(&self, data: Data, g: int, p: int) -> usize {
        data.member(g, self.order(g)[p] as int)
    }

    /// Ranking key of the third-placed team of group `g`, with its own tie-break number.
    pub open spec fn third_key(&self, g: int) -> RankKey {
        let k = self.keys(g)[self.order(g)[2] as int];
        RankKey { pts: k.pts, gd: k.gd, gf: k.gf, tie: self.ties@[g]@[4] }
    }

    /// The twelve groups ranked by their third-placed teams.
    pub open spec fn third_rank(&self) -> Seq<usize> {
        ranking(Seq::new(12, |g: int| self.third_key(g)))
    }

    /// The eight groups whose third-placed teams go through, best first.
    pub open spec fn third_letters(&self) -> Seq<char> {
        Seq::new(8, |i: int| group_letter(self.third_rank()[i] as int))
    }

    /// The slotting of the qualified thirds: a function of which eight groups qualified.
    pub open spec fn assignment(&self) -> Option<Seq<(u32, char)>> {
        slotting(self.third_letters())
    }

    /// The third-placed team slotted into match `id`.
    pub open spec fn third_for(&self, data: Data, id: u32) -> Option<usize> {
        match self.assignment() {
            Some(a) => match assigned_group(a, id) {
                Some(c) => Some(self.place(data, c as int - 65, 2)),
                None => None,
            },
            None => None,
        }
    }

    /// The team that fills side `src` of knockout match `i`.
    pub open spec fn source(&self, data: Data, src: Source, i: int) -> Option<usize>
        decreases i, 0int,
    {
        match src {
            Source::Winner(g) => if is_group(g) {
                Some(self.place(data, g as int - 65, 0))
            } else {
                None
            },
            Source::RunnerUp(g) => if is_group(g) {
                Some(self.place(data, g as int - 65, 1))
            } else {
                None
            },
            Source::Third => self.third_for(data, knockout_spec()[i].id),
            Source::MatchWinner(n) => if 0 <= ko_index(n) < i {
                self.winner(data, ko_index(n))
            } else {
                None
            },
        }
    }

    /// Both sides of knockout match `i`.
    pub open spec fn sides_of(&self, data: Data, i: int) -> Option<(usize, usize)>
        decreases i, 1int,
    {
        if 0 <= i < 31 {
            match (
                self.source(data, knockout_spec()[i].a, i),
                self.source(data, knockout_spec()[i].b, i),
            ) {
                (Some(h), Some(a)) => Some((h, a)),
                _ => None,
            }
        } else {
            None
        }
    }

    /// The winner of knockout match `i`, once it is recorded.
    pub open spec fn winner(&self, data: Data, i: int) -> Option<usize>
        decreases i, 2int,
    {
        match self.sides_of(data, i) {
            Some((h, a)) => if 0 <= i < self.ko@.len() {
                Some(ko_winner_of(h, a, self.ko@[i].0, self.ko@[i].1, self.ko@[i].2))
            } else {
                None
            },
            None => None,
        }
    }

    /// The recorded scores of the finished groups, as plain values.
    pub open spec fn scores_view(&self) -> Seq<Seq<(u32, u32)>> {
        Seq::new(self.scores@.len(), |g: int| self.scores@[g]@)
    }

    /// The tie-break numbers of the finished groups, as plain values.
    pub open spec fn ties_view(&self) -> Seq<Seq<u64>> {
        Seq::new(self.ties@.len(), |g: int| self.ties@[g]@)
    }

    /// Consistent state: the cached orders, keys, slotting, sides and winners agree with the
    /// recorded results, and every recorded result of a match with a real result is that
    /// real result.
    pub open spec fn wf(&self, data: Data) -> bool {
        &&& data.wf()
        &&& self.scores@.len() <= 12
        &&& self.ties@.len() == self.scores@.len()
        &&& self.orders@.len() == self.scores@.len()
        &&& self.third_keys@.len() == self.scores@.len()
        &&& forall|g: int|
            0 <= g < self.scores@.len() ==> {
                &&& #[trigger] self.scores@[g]@.len() == 6
                &&& self.ties@[g]@.len() == 5
                &&& self.orders@[g]@ == self.order(g)
                &&& is_ranking(self.keys(g), self.orders@[g]@)
                &&& self.third_keys@[g] == self.third_key(g)
            }
        &&& self.current@.len() <= 6
        &&& self.scores@.len() == 12 ==> self.current@.len() == 0
        &&& forall|g: int, k: int|
            0 <= g < self.scores@.len() && 0 <= k < 6 && group_score_spec(data.results@, g, k) is Some
                ==> #[trigger] self.scores@[g]@[k] == group_score_spec(data.results@, g, k)->0
        &&& forall|k: int|
            0 <= k < self.current@.len() && group_score_spec(
                data.results@,
                self.scores@.len() as int,
                k,
            ) is Some ==> #[trigger] self.current@[k] == group_score_spec(
                data.results@,
                self.scores@.len() as int,
                k,
            )->0
        &&& self.ko@.len() > 0 ==> self.scores@.len() == 12 && !self.failed
        &&& self.scores@.len() < 12 ==> !self.failed
        &&& self.scores@.len() == 12 ==> (self.failed <==> self.assignment() is None)
        &&& self.scores@.len() == 12 && !self.failed ==> is_third_assignment(
            canonical_thirds(self.third_letters()),
            third_slots_spec(),
            self.assignment()->0,
        )
        &&& self.scores@.len() == 12 && !self.failed ==> forall|id: u32| #[trigger]
            pair_lookup(self.third_team@, id) == self.third_for(data, id)
        &&& self.ko@.len() <= 31
        &&& self.sides@.len() == self.ko@.len()
        &&& self.winners@.len() == self.ko@.len()
        &&& forall|k: int| 0 <= k < self.third_team@.len() ==> #[trigger] self.third_team@[k].1 < data.teams@.len()
        &&& forall|j: int|
            0 <= j < self.ko@.len() ==> {
                &&& self.sides@[j].0 < data.teams@.len()
                &&& self.sides@[j].1 < data.teams@.len()
                &&& self.winners@[j] < data.teams@.len()
                &&& #[trigger] self.sides_of(data, j) is Some
                &&& self.sides@[j] == self.sides_of(data, j)->0
                &&& self.winners@[j] == self.winner(data, j)->0
            }
        &&& forall|j: int|
            0 <= j < self.ko@.len() && ko_score_spec(data.results@, j) is Some ==> #[trigger] self.ko@[j]
                == ko_score_spec(data.results@, j)->0
    }

    /// What the tournament needs next.
    pub open spec fn step_spec(&self, data: Data) -> Step {
        if self.scores@.len() < 12 {
            let g = self.scores@.len() as int;
            if self.current@.len() < 6 {
                let k = self.current@.len() as int;
                let (hp, ap) = group_fixture(k);
                Step::Group {
                    group: g as usize,
                    fixture: k as usize,
                    home: data.member(g, hp - 1),
                    away: data.member(g, ap - 1),
                    known: group_score_spec(data.results@, g, k),
                }
            } else {
                Step::Ties { group: g as usize }
            }
        } else if self.failed {
            Step::NoThirdSlotting
        } else if self.ko@.len() < 31 {
            let i = self.ko@.len() as int;
            let s = self.sides_of(data, i)->0;
            Step::Knockout {
                index: i as usize,
                id: knockout_spec()[i].id,
                round: knockout_spec()[i].round,
                home: s.0,
                away: s.1,
                known: ko_score_spec(data.results@, i),
            }
        } else {
            Step::Done
        }
    }

    /// A fresh tournament: nothing played yet.
    pub fn new(data: &Data) -> (r: TournamentRun)
        requires
            data.wf(),
        ensures
            r.wf(*data),
            r.scores@.len() == 0,
            r.current@.len() == 0,
            r.ties@.len() == 0,
            r.orders@.len() == 0,
            r.third_keys@.len() == 0,
            r.third_team@.len() == 0,
            !r.failed,
            r.ko@.len() == 0,
            r.sides@.len() == 0,
            r.winners@.len() == 0,
    {
        TournamentRun {
            scores: Vec::new(),
            current: Vec::new(),
            ties: Vec::new(),
            orders: Vec::new(),
            third_keys: Vec::new(),
            third_team: Vec::new(),
            failed: false,
            ko: Vec::new(),
            sides: Vec::new(),
            winners: Vec::new(),
        }
    }
}

/// Runs that agree on everything but the knockout results, where the first one's are a
/// prefix of the second one's, agree on every knockout side and winner decided so far.
proof fn lemma_ko_prefix(r1: TournamentRun, r2: TournamentRun, data: Data, j: int)
    requires
        r1.scores@ == r2.scores@,
        r1.ties@ == r2.ties@,
        r1.ko@.len() <= r2.ko@.len(),
        forall|m: int| 0 <= m < r1.ko@.len() ==> #[trigger] r1.ko@[m] == r2.ko@[m],
        0 <= j <= r1.ko@.len(),
    ensures
        r1.sides_of(data, j) == r2.sides_of(data, j),
        j < r1.ko@.len() ==> r1.winner(data, j) == r2.winner(data, j),
    decreases j,
{
    assert forall|m: int| 0 <= m < j implies r1.winner(data, m) == r2.winner(data, m) by {
        lemma_ko_prefix(r1, r2, data, m);
    }
    assert(r1.keys(0) == r2.keys(0));
    assert forall|g: int| #![auto] r1.keys(g) == r2.keys(g) by {
        assert(r1.keys(g) =~= r2.keys(g));
    }
    assert(r1.third_rank() == r2.third_rank()) by {
        assert(Seq::new(12, |g: int| r1.third_key(g)) =~= Seq::new(12, |g: int| r2.third_key(g)));
    }
    assert(r1.third_letters() =~= r2.third_letters());
    assert(r1.assignment() == r2.assignment());
    assert forall|id: u32| r1.third_for(data, id) == r2.third_for(data, id) by {
        match r1.assignment() {
            Some(a) => match assigned_group(a, id) {
                Some(c) => {
                    assert(r1.order(c as int - 65) == r2.order(c as int - 65));
                },
                None => {},
            },
            None => {},
        }
    }
    assert forall|src: Source| #[trigger] r1.source(data, src, j) == r2.source(data, src, j) by {
        match src {
            Source::Winner(g) => {
                assert(r1.order(g as int - 65) == r2.order(g as int - 65));
                assert(r1.source(data, src, j) == r2.source(data, src, j));
            },
            Source::RunnerUp(g) => {
                assert(r1.order(g as int - 65) == r2.order(g as int - 65));
                assert(r1.source(data, src, j) == r2.source(data, src, j));
            },
            Source::Third => {
                assert(r1.source(data, src, j) == r2.source(data, src, j));
            },
            Source::MatchWinner(n) => {
                if 0 <= ko_index(n) < j {
                    assert(r1.winner(data, ko_index(n)) == r2.winner(data, ko_index(n)));
                }
                assert(r1.source(data, src, j) == r2.source(data, src, j));
            },
        }
    }
    if 0 <= j < 31 {
        let km = knockout_spec()[j];
        assert(r1.source(data, km.a, j) == r2.source(data, km.a, j));
        assert(r1.source(data, km.b, j) == r2.source(data, km.b, j));
    }
}

/// Runs with the same group results agree on everything the groups decide.
proof fn lemma_group_frame(r1: TournamentRun, r2: TournamentRun, data: Data)
    requires
        r1.scores@ == r2.scores@,
        r1.ties@ == r2.ties@,
    ensures
        forall|g: int| #![auto] r1.keys(g) == r2.keys(g) && r1.order(g) == r2.order(g),
        forall|g: int, p: int| #![auto] r1.place(data, g, p) == r2.place(data, g, p),
        r1.third_rank() == r2.third_rank(),
        r1.third_letters() == r2.third_letters(),
        r1.assignment() == r2.assignment(),
        forall|id: u32| #![auto] r1.third_for(data, id) == r2.third_for(data, id),
{
    assert forall|g: int| #![auto] r1.keys(g) == r2.keys(g) && r1.order(g) == r2.order(g) by {
        assert(r1.keys(g) =~= r2.keys(g));
    }
    assert forall|g: int, p: int| #![auto] r1.place(data, g, p) == r2.place(data, g, p) by {
        assert(r1.order(g) == r2.order(g));
    }
    assert(Seq::new(12, |g: int| r1.third_key(g)) =~= Seq::new(12, |g: int| r2.third_key(g))) by {
        assert forall|g: int| 0 <= g < 12 implies r1.third_key(g) == r2.third_key(g) by {
            assert(r1.keys(g) == r2.keys(g) && r1.order(g) == r2.order(g));
        }
    }
    assert(r1.third_letters() =~= r2.third_letters());
    assert forall|id: u32| #![auto] r1.third_for(data, id) == r2.third_for(data, id) by {
        match r1.assignment() {
            Some(a) => match assigned_group(a, id) {
                Some(c) => {
                    assert(r1.place(data, c as int - 65, 2) == r2.place(data, c as int - 65, 2));
                },
                None => {},
            },
            None => {},
        }
    }
}

proof fn lemma_pair_lookup_places(
    out: Seq<(u32, usize)>,
    a: Seq<(u32, char)>,
    id: u32,
    run: TournamentRun,
    data: Data,
)
    requires
        out.len() == a.len(),
        forall|m: int|
            0 <= m < a.len() ==> #[trigger] out[m].0 == a[m].0 && out[m].1 == run.place(
                data,
                a[m].1 as int - 65,
                2,
            ),
    ensures
        pair_lookup(out, id) == match assigned_group(a, id) {
            Some(c) => Some(run.place(data, c as int - 65, 2)),
            None => None,
        },
    decreases a.len(),
{
    if a.len() > 0 {
        assert(out[0].0 == a[0].0);
        lemma_pair_lookup_places(out.drop_first(), a.drop_first(), id, run, data);
    }
}

proof fn lemma_pair_lookup_in(v: Seq<(u32, usize)>, id: u32)
    ensures
        pair_lookup(v, id) matches Some(t) ==> exists|k: int| 0 <= k < v.len() && #[trigger] v[k].1 == t,
    decreases v.len(),
{
    if v.len() > 0 && v[0].0 != id {
        lemma_pair_lookup_in(v.drop_first(), id);
        if pair_lookup(v, id) is Some {
            let k = choose|k: int| 0 <= k < v.drop_first().len() && #[trigger] v.drop_first()[k].1 == pair_lookup(v, id)->0;
            assert(v[k + 1].1 == pair_lookup(v, id)->0);
        }
    }
}

proof fn lemma_assigned_found(a: Seq<(u32, char)>, id: u32, k: int)
    requires
        0 <= k < a.len(),
        a[k].0 == id,
    ensures
        assigned_group(a, id) is Some,
    decreases a.len(),
{
    if a[0].0 != id {
        lemma_assigned_found(a.drop_first(), id, k - 1);
    }
}

impl TournamentRun {
    /// Once the groups are done and the thirds are slotted, the sides of the next knockout
    /// match are decided.
    proof fn lemma_next_sides(&self, data: Data)
        requires
            self.wf(data),
            self.scores@.len() == 12,
            !self.failed,
            self.ko@.len() < 31,
        ensures
            self.sides_of(data, self.ko@.len() as int) is Some,
    {
        lemma_bracket_shape();
        let i = self.ko@.len() as int;
        let km = knockout_spec()[i];
        assert(side_ok(km.a, i));
        assert(side_ok(km.b, i));
        let a = self.assignment()->0;
        assert(a.len() == 8);
        if km.b == Source::Third {
            assert(is_third_slot(km.id));
            let k = choose|k: int| 0 <= k < 8 && #[trigger] third_slots_spec()[k].0 == km.id;
            assert(a[k].0 == third_slots_spec()[k].0);
            lemma_assigned_found(a, km.id, k);
        }
        match km.a {
            Source::MatchWinner(n) => {
                assert(self.sides_of(data, ko_index(n)) is Some);
            },
            _ => {},
        }
        match km.b {
            Source::MatchWinner(n) => {
                assert(self.sides_of(data, ko_index(n)) is Some);
            },
            _ => {},
        }
    }

    /// The team that fills side `src` of knockout match `i`.
    fn resolve(&self, data: &Data, src: Source, i: usize) -> (r: Option<usize>)
        requires
            self.wf(*data),
            self.scores@.len() == 12,
            !self.failed,
            i <= self.ko@.len(),
            i < 31,
        ensures
            r == self.source(*data, src, i as int),
            r matches Some(t) ==> t < data.teams@.len(),
    {
        match src {
            Source::Winner(g) => {
                if 'A' <= g && g <= 'L' {
                    let gi = (g as u32 - 65) as usize;
                    assert(self.scores@[gi as int]@.len() == 6);
                    assert(self.orders@[gi as int]@[0] < 4);
                    let t = data.group_index[gi][self.orders[gi][0]];
                    assert(is_group_listing(data.teams@, group_letter(gi as int), data.group_index@[gi as int]@));
                    assert(t == self.place(*data, gi as int, 0));
                    assert(gi as int == g as int - 65);
                    Some(t)
                } else {
                    None
                }
            },
            Source::RunnerUp(g) => {
                if 'A' <= g && g <= 'L' {
                    let gi = (g as u32 - 65) as usize;
                    assert(self.scores@[gi as int]@.len() == 6);
                    assert(self.orders@[gi as int]@[1] < 4);
                    let t = data.group_index[gi][self.orders[gi][1]];
                    assert(is_group_listing(data.teams@, group_letter(gi as int), data.group_index@[gi as int]@));
                    assert(t == self.place(*data, gi as int, 1));
                    assert(gi as int == g as int - 65);
                    Some(t)
                } else {
                    None
                }
            },
            Source::Third => {
                let ko = knockout();
                let r = lookup_pair(&self.third_team, ko[i].id);
                proof {
                    lemma_pair_lookup_in(self.third_team@, ko[i as int].id);
                }
                r
            },
            Source::MatchWinner(n) => {
                if n >= 73 && n <= 102 && ((n - 73) as usize) < i {
                    let j = (n - 73) as usize;
                    assert(self.sides_of(*data, j as int) is Some);
                    assert(self.winner(*data, j as int) is Some);
                    Some(self.winners[j])
                } else {
                    None
                }
            },
        }
    }

    /// What the tournament needs next.
    pub fn next_step(&self, data: &Data) -> (r: Step)
        requires
            self.wf(*data),
        ensures
            r == self.step_spec(*data),
    {
        if self.scores.len() < 12 {
            let g = self.scores.len();
            if self.current.len() < 6 {
                let k = self.current.len();
                let (hp, ap) = fixture(k);
                Step::Group {
                    group: g,
                    fixture: k,
                    home: data.group_index[g][hp - 1],
                    away: data.group_index[g][ap - 1],
                    known: data.group_score(g, k),
                }
            } else {
                Step::Ties { group: g }
            }
        } else if self.failed {
            Step::NoThirdSlotting
        } else if self.ko.len() < 31 {
            let i = self.ko.len();
            proof {
                self.lemma_next_sides(*data);
            }
            let ko = knockout();
            let km = ko[i];
            let h = self.resolve(data, km.a, i);
            let a = self.resolve(data, km.b, i);
            match (h, a) {
                (Some(h), Some(a)) => Step::Knockout {
                    index: i,
                    id: km.id,
                    round: km.round,
                    home: h,
                    away: a,
                    known: data.ko_score(i),
                },
                _ => {
                    assert(false);
                    Step::Done
                },
            }
        } else {
            Step::Done
        }
    }
}

/// The outcome reported is of the kind the step asks for.
pub open spec fn outcome_fits(step: Step, ev: Outcome) -> bool {
    match step {
        Step::Group { .. } => ev is Score,
        Step::Ties { .. } => ev matches Outcome::Ties(v) && v@.len() == 5,
        Step::Knockout { .. } => ev is Knockout,
        _ => false,
    }
}

impl TournamentRun {
    /// Slots the eight best thirds once all groups are done (or records that it is impossible).
    fn place_thirds(&mut self, data: &Data)
        requires
            old(self).scores@.len() == 12,
            old(self).third_keys@.len() == 12,
            forall|g: int| 0 <= g < 12 ==> #[trigger] old(self).third_keys@[g] == old(self).third_key(g),
            forall|g: int|
                0 <= g < 12 ==> #[trigger] old(self).orders@[g]@ == old(self).order(g) && is_ranking(
                    old(self).keys(g),
                    old(self).orders@[g]@,
                ),
            old(self).orders@.len() == 12,
            data.wf(),
        ensures
            final(self).scores == old(self).scores,
            final(self).ties == old(self).ties,
            final(self).orders == old(self).orders,
            final(self).third_keys == old(self).third_keys,
            final(self).current == old(self).current,
            final(self).ko == old(self).ko,
            final(self).sides == old(self).sides,
            final(self).winners == old(self).winners,
            final(self).failed <==> final(self).assignment() is None,
            !final(self).failed ==> is_third_assignment(
                canonical_thirds(final(self).third_letters()),
                third_slots_spec(),
                final(self).assignment()->0,
            ),
            !final(self).failed ==> forall|id: u32| #[trigger]
                pair_lookup(final(self).third_team@, id) == final(self).third_for(*data, id),
            forall|k: int| 0 <= k < final(self).third_team@.len() ==> #[trigger] final(self).third_team@[k].1 < data.teams@.len(),
    {
        let letters_all = crate::bracket::all_groups();
        let order = rank(&self.third_keys);
        assert(self.third_keys@ =~= Seq::new(12, |g: int| self.third_key(g)));
        let mut letters: Vec<char> = Vec::new();
        let mut i: usize = 0;
        while i < 8
            invariant
                i <= 8,
                order@ == self.third_rank(),
                is_ranking(Seq::new(12, |g: int| self.third_key(g)), order@),
                forall|h: int| 0 <= h < 12 ==> #[trigger] letters_all[h] == group_letter(h),
                letters@.len() == i,
                forall|j: int| 0 <= j < i ==> #[trigger] letters@[j] == self.third_letters()[j],
            decreases 8 - i,
        {
            letters.push(letters_all[order[i]]);
            i = i + 1;
        }
        assert(letters@ =~= self.third_letters());
        let ghost before = *self;
        match slot_thirds(letters.as_slice()) {
            Some(assigned) => {
                let ghost a = assigned@;
                assert(self.assignment() == Some(a));
                let mut out: Vec<(u32, usize)> = Vec::new();
                let mut k: usize = 0;
                while k < assigned.len()
                    invariant
                        data.wf(),
                        self.scores@.len() == 12,
                        self.orders@.len() == 12,
                        forall|g: int|
                            0 <= g < 12 ==> #[trigger] self.orders@[g]@ == self.order(g) && is_ranking(
                                self.keys(g),
                                self.orders@[g]@,
                            ),
                        assigned@ == a,
                        a.len() == 8,
                        self.assignment() == Some(a),
                        forall|m: int| 0 <= m < 8 ==> is_group(#[trigger] a[m].1),
                        k <= 8,
                        out@.len() == k,
                        forall|m: int| 0 <= m < k ==> #[trigger] out@[m].1 < data.teams@.len(),
                        forall|m: int|
                            0 <= m < k ==> #[trigger] out@[m].0 == a[m].0 && out@[m].1 == self.place(
                                *data,
                                a[m].1 as int - 65,
                                2,
                            ),
                    decreases 8 - k,
                {
                    let (mid, c) = assigned[k];
                    let gi = (c as u32 - 65) as usize;
                    assert(self.orders@[gi as int]@ == self.order(gi as int));
                    assert(self.orders@[gi as int]@[2] < 4);
                    let team = data.group_index[gi][self.orders[gi][2]];
                    assert(is_group_listing(data.teams@, group_letter(gi as int), data.group_index@[gi as int]@));
                    out.push((mid, team));
                    k = k + 1;
                }
                let ghost mid_self = *self;
                self.third_team = out;
                self.failed = false;
                proof {
                    lemma_group_frame(*self, mid_self, *data);
                    assert forall|id: u32| #[trigger]
                        pair_lookup(self.third_team@, id) == self.third_for(*data, id) by {
                        lemma_pair_lookup_places(self.third_team@, a, id, mid_self, *data);
                    }
                }
            },
            None => {
                self.failed = true;
                self.third_team = Vec::new();
                proof {
                    lemma_group_frame(*self, before, *data);
                }
            },
        }
    }

    fn advance_ties(&mut self, data: &Data, v: Vec<u64>)
        requires
            old(self).wf(*data),
            old(self).scores@.len() < 12,
            old(self).current@.len() == 6,
            v@.len() == 5,
        ensures
            final(self).wf(*data),
            final(self).scores_view() == old(self).scores_view().push(old(self).current@),
            final(self).ties_view() == old(self).ties_view().push(v@),
            final(self).current@ == Seq::<(u32, u32)>::empty(),
            final(self).ko@ == old(self).ko@,
    {
        let ghost g = self.scores@.len() as int;
        let t4: Vec<u64> = vec![v[0], v[1], v[2], v[3]];
        let keys = group_keys(self.current.as_slice(), t4.as_slice());
        let order = rank(&keys);
        let tk = keys[order[2]];
        let third = RankKey { pts: tk.pts, gd: tk.gd, gf: tk.gf, tie: v[4] };
        let mut cur: Vec<(u32, u32)> = Vec::new();
        std::mem::swap(&mut cur, &mut self.current);
        let ghost old_scores = self.scores@;
        let ghost old_ties = self.ties@;
        self.scores.push(cur);
        self.ties.push(v);
        self.orders.push(order);
        self.third_keys.push(third);
        proof {
            assert forall|h: int| 0 <= h < g implies #[trigger] self.keys(h) == old(self).keys(h) by {
                assert(self.scores@[h] == old_scores[h]);
                assert(self.ties@[h] == old_ties[h]);
                assert(self.keys(h) =~= old(self).keys(h));
            }
            assert(keys@ =~= self.keys(g));
            assert forall|h: int| 0 <= h < self.scores@.len() implies {
                &&& #[trigger] self.scores@[h]@.len() == 6
                &&& self.ties@[h]@.len() == 5
                &&& self.orders@[h]@ == self.order(h)
                &&& is_ranking(self.keys(h), self.orders@[h]@)
                &&& self.third_keys@[h] == self.third_key(h)
            } by {
                if h < g {
                    assert(old(self).scores@[h]@.len() == 6);
                    assert(self.orders@[h] == old(self).orders@[h]);
                    assert(self.third_keys@[h] == old(self).third_keys@[h]);
                }
            }
            assert forall|h: int, k: int|
                0 <= h < self.scores@.len() && 0 <= k < 6 && group_score_spec(data.results@, h, k) is Some
                    implies #[trigger] self.scores@[h]@[k] == group_score_spec(data.results@, h, k)->0 by {
                if h < g {
                    assert(self.scores@[h] == old_scores[h]);
                } else {
                    assert(old(self).current@[k] == group_score_spec(data.results@, g, k)->0);
                }
            }
            assert(self.scores_view() =~= old(self).scores_view().push(old(self).current@));
            assert(self.ties_view() =~= old(self).ties_view().push(v@));
        }
        proof {
            assert forall|h: int|
                0 <= h < self.scores@.len() implies #[trigger] self.orders@[h]@ == self.order(h) && is_ranking(
                    self.keys(h),
                    self.orders@[h]@,
                ) by {
                assert(self.scores@[h]@.len() == 6);
            }
            assert forall|h: int| 0 <= h < self.scores@.len() implies #[trigger] self.third_keys@[h] == self.third_key(h) by {
                assert(self.scores@[h]@.len() == 6);
            }
        }
        if self.scores.len() == 12 {
            self.place_thirds(data);
        }
    }
}

impl TournamentRun {
    fn advance_group(&mut self, data: &Data, h: u32, a: u32)
        requires
            old(self).wf(*data),
            old(self).scores@.len() < 12,
            old(self).current@.len() < 6,
        ensures
            final(self).wf(*data),
            final(self).current@ == old(self).current@.push(
                recorded_score(
                    group_score_spec(data.results@, old(self).scores@.len() as int, old(self).current@.len() as int),
                    h,
                    a,
                ),
            ),
            final(self).scores_view() == old(self).scores_view(),
            final(self).ties_view() == old(self).ties_view(),
            final(self).ko@ == old(self).ko@,
    {
        let g = self.scores.len();
        let k = self.current.len();
        let rec = match data.group_score(g, k) {
            Some(x) => x,
            None => (h, a),
        };
        let ghost before = *self;
        self.current.push(rec);
        proof {
            lemma_group_frame(*self, before, *data);
            assert(self.scores_view() =~= before.scores_view());
            assert(self.ties_view() =~= before.ties_view());
            assert forall|j: int| 0 <= j < self.ko@.len() implies #[trigger] self.sides_of(*data, j)
                == before.sides_of(*data, j) by {
                lemma_ko_prefix(*self, before, *data, j);
            }
        }
    }

    #[verifier::spinoff_prover]
    fn advance_ko(&mut self, data: &Data, h: u32, a: u32, home_wins: bool)
        requires
            old(self).wf(*data),
            old(self).scores@.len() == 12,
            !old(self).failed,
            old(self).ko@.len() < 31,
        ensures
            final(self).wf(*data),
            final(self).ko@ == old(self).ko@.push(
                recorded_ko(ko_score_spec(data.results@, old(self).ko@.len() as int), h, a, home_wins),
            ),
            final(self).scores_view() == old(self).scores_view(),
            final(self).ties_view() == old(self).ties_view(),
            final(self).current@ == old(self).current@,
    {
        let i = self.ko.len();
        proof {
            self.lemma_next_sides(*data);
        }
        let ko = knockout();
        let km = ko[i];
        let hs = self.resolve(data, km.a, i);
        let aws = self.resolve(data, km.b, i);
        let (home, away) = match (hs, aws) {
            (Some(x), Some(y)) => (x, y),
            _ => {
                assert(false);
                (0, 0)
            },
        };
        let rec = match data.ko_score(i) {
            Some(x) => x,
            None => (h, a, !home_wins),
        };
        let w = if rec.0 != rec.1 {
            if rec.0 > rec.1 {
                home
            } else {
                away
            }
        } else if rec.2 {
            away
        } else {
            home
        };
        let ghost before = *self;
        assert(before.sides_of(*data, i as int) == Some((home, away)));
        self.ko.push(rec);
        self.sides.push((home, away));
        self.winners.push(w);
        proof {
            lemma_group_frame(*self, before, *data);
            lemma_ko_prefix(before, *self, *data, i as int);
            assert(self.sides_of(*data, i as int) == Some((home, away)));
            assert(self.ko@[i as int] == rec);
            assert(w == ko_winner_of(home, away, rec.0, rec.1, rec.2));
            assert forall|j: int| 0 <= j <= i implies #[trigger] self.sides_of(*data, j)
                == before.sides_of(*data, j) by {
                lemma_ko_prefix(before, *self, *data, j);
            }
            assert forall|j: int| 0 <= j < i implies #[trigger] self.winner(*data, j)
                == before.winner(*data, j) by {
                lemma_ko_prefix(before, *self, *data, j);
            }
            assert(self.winner(*data, i as int) == Some(w));
            assert forall|j: int|
                0 <= j < self.ko@.len() implies {
                    &&& #[trigger] self.sides_of(*data, j) is Some
                    &&& self.sides@[j] == self.sides_of(*data, j)->0
                    &&& self.winners@[j] == self.winner(*data, j)->0
                } by {
                if j < i {
                    assert(before.sides_of(*data, j) is Some);
                }
            }
            assert forall|j: int|
                0 <= j < self.ko@.len() && ko_score_spec(data.results@, j) is Some implies #[trigger] self.ko@[j]
                    == ko_score_spec(data.results@, j)->0 by {
                if j < i {
                    assert(self.ko@[j] == before.ko@[j]);
                }
            }
            assert(self.scores_view() =~= before.scores_view());
            assert(self.ties_view() =~= before.ties_view());
            assert(is_third_assignment(canonical_thirds(before.third_letters()), third_slots_spec(), before.assignment()->0));
            assert(self.scores@.len() == 12 && !self.failed);
            assert(self.third_letters() == before.third_letters());
            assert(self.assignment() == before.assignment());
            assert(is_third_assignment(canonical_thirds(self.third_letters()), third_slots_spec(), self.assignment()->0));
            assert(self.failed <==> self.assignment() is None);
            assert(forall|id: u32| #[trigger] pair_lookup(self.third_team@, id) == self.third_for(*data, id));
            assert(forall|g: int| 0 <= g < self.scores@.len() ==> {
                &&& #[trigger] self.scores@[g]@.len() == 6
                &&& self.ties@[g]@.len() == 5
                &&& self.orders@[g]@ == self.order(g)
                &&& is_ranking(self.keys(g), self.orders@[g]@)
                &&& self.third_keys@[g] == self.third_key(g)
            });
        }
    }

    /// Records the outcome of the current step: for a group or knockout match the real
    /// result if one is entered, else the reported one; for tie-break numbers, ranks the
    /// group (and, after the last group, slots the eight best thirds).
    pub fn advance(&mut self, data: &Data, ev: Outcome)
        requires
            old(self).wf(*data),
            outcome_fits(old(self).step_spec(*data), ev),
        ensures
            final(self).wf(*data),
            match old(self).step_spec(*data) {
                Step::Group { known, .. } => ev matches Outcome::Score(h, a) && final(self).current@
                    == old(self).current@.push(recorded_score(known, h, a)) && final(self).scores_view()
                    == old(self).scores_view() && final(self).ties_view() == old(self).ties_view()
                    && final(self).ko@ == old(self).ko@,
                Step::Ties { .. } => ev matches Outcome::Ties(v) && final(self).scores_view()
                    == old(self).scores_view().push(old(self).current@) && final(self).ties_view()
                    == old(self).ties_view().push(v@) && final(self).current@ == Seq::<(u32, u32)>::empty()
                    && final(self).ko@ == old(self).ko@,
                Step::Knockout { known, .. } => ev matches Outcome::Knockout(h, a, hw) && final(self).ko@
                    == old(self).ko@.push(recorded_ko(known, h, a, hw)) && final(self).scores_view()
                    == old(self).scores_view() && final(self).ties_view() == old(self).ties_view()
                    && final(self).current@ == old(self).current@,
                _ => false,
            },
    {
        match ev {
            Outcome::Score(h, a) => {
                self.advance_group(data, h, a);
            },
            Outcome::Ties(v) => {
                self.advance_ties(data, v);
            },
            Outcome::Knockout(h, a, hw) => {
                self.advance_ko(data, h, a, hw);
            },
        }
    }

    /// The tournament is over.
    pub open spec fn finished(&self) -> bool {
        &&& self.scores@.len() == 12
        &&& !self.failed
        &&& self.ko@.len() == 31
    }
}

/// Real results are never re-simulated: in a consistent run, every group match and every
/// knockout match recorded so far that has a real result is recorded with that result, and
/// the team that went through a knockout match is the one that its recorded result sends on.
pub proof fn lemma_played_fixed(run: TournamentRun, data: Data)
    requires
        run.wf(data),
    ensures
        forall|g: int, k: int|
            0 <= g < run.scores@.len() && 0 <= k < 6 && group_score_spec(data.results@, g, k) is Some
                ==> #[trigger] run.scores@[g]@[k] == group_score_spec(data.results@, g, k)->0,
        forall|j: int|
            0 <= j < run.ko@.len() && ko_score_spec(data.results@, j) is Some ==> #[trigger] run.ko@[j]
                == ko_score_spec(data.results@, j)->0,
        forall|j: int|
            0 <= j < run.ko@.len() ==> #[trigger] run.winners@[j] == ko_winner_of(
                run.sides@[j].0,
                run.sides@[j].1,
                run.ko@[j].0,
                run.ko@[j].1,
                run.ko@[j].2,
            ),
{
    assert forall|j: int| 0 <= j < run.ko@.len() implies #[trigger] run.winners@[j] == ko_winner_of(
        run.sides@[j].0,
        run.sides@[j].1,
        run.ko@[j].0,
        run.ko@[j].1,
        run.ko@[j].2,
    ) by {
        assert(run.sides_of(data, j) is Some);
    }
}

/// The slotting of the qualified thirds depends on nothing but which eight groups qualified:
/// runs whose qualified thirds come from the same groups, in whatever ranking order, slot the
/// same group into every third-place match, and each slot takes the third-placed team of its
/// group.
pub proof fn lemma_slotting_by_qualified_groups(r1: TournamentRun, r2: TournamentRun, data: Data)
    requires
        r1.third_letters().to_set() == r2.third_letters().to_set(),
    ensures
        r1.assignment() == r2.assignment(),
        r1.assignment() == slotting(r1.third_letters()),
        forall|id: u32| #[trigger] r1.third_for(data, id) == match r1.assignment() {
            Some(a) => match assigned_group(a, id) {
                Some(c) => Some(r1.place(data, c as int - 65, 2)),
                None => None,
            },
            None => None,
        },
{
    crate::sim::lemma_slotting_by_set(r1.third_letters(), r2.third_letters());
}

/// How often `t` occurs in `s`.
pub open spec fn count(s: Seq<usize>, t: usize) -> nat
    decreases s.len(),
{
    if s.len() == 0 {
        0
    } else {
        count(s.drop_last(), t) + if s.last() == t {
            1nat
        } else {
            0nat
        }
    }
}

/// The number `0..=len` of positions of the range `lo..lo+len` that come before `i`.
pub open spec fn span(i: int, lo: int, len: int) -> int {
    if i <= lo {
        0
    } else if i >= lo + len {
        len
    } else {
        i - lo
    }
}

/// The index of a round: 0 for the round of 32 up to 4 for the final.
pub open spec fn round_index(r: Round) -> int {
    match r {
        Round::R32 => 0,
        Round::R16 => 1,
        Round::Qf => 2,
        Round::Sf => 3,
        Round::Final => 4,
    }
}

impl TournamentRun {
    /// The teams in place `k` of groups `0..g`.
    pub open spec fn place_seq(&self, data: Data, k: int, g: int) -> Seq<usize> {
        Seq::new(g as nat, |h: int| self.place(data, h, k))
    }

    /// The first `m` qualified third-placed teams, best first.
    pub open spec fn third_seq(&self, data: Data, m: int) -> Seq<usize> {
        Seq::new(m as nat, |i: int| self.place(data, self.third_rank()[i] as int, 2))
    }

    /// Winners of knockout matches `lo..lo+len`.
    pub open spec fn winner_seq(&self, data: Data, lo: int, len: int) -> Seq<usize> {
        Seq::new(len as nat, |i: int| self.winner(data, lo + i)->0)
    }

    /// Group points of the team in place `k` of group `g`.
    pub open spec fn pts_at(&self, g: int, k: int) -> int {
        self.keys(g)[self.order(g)[k] as int].pts as int
    }

    /// Group points that team `t` collected in places `0..k` of group `g`.
    pub open spec fn points_in(&self, data: Data, t: usize, g: int, k: int) -> int
        decreases k,
    {
        if k <= 0 {
            0
        } else {
            self.points_in(data, t, g, k - 1) + if self.place(data, g, k - 1) == t {
                self.pts_at(g, k - 1)
            } else {
                0
            }
        }
    }

    /// Group points that team `t` collected in groups `0..g`.
    pub open spec fn points_before(&self, data: Data, t: usize, g: int) -> int
        decreases g,
    {
        if g <= 0 {
            0
        } else {
            self.points_before(data, t, g - 1) + self.points_in(data, t, g - 1, 4)
        }
    }

    /// How often `a` met `b` in round `r` among knockout matches `0..m` (a meeting of a team
    /// with itself counting twice).
    pub open spec fn meetings(&self, data: Data, a: usize, r: int, b: usize, m: int) -> int
        decreases m,
    {
        if m <= 0 {
            0
        } else {
            let s = self.sides_of(data, m - 1)->0;
            self.meetings(data, a, r, b, m - 1) + if round_index(round_at(m - 1)) == r {
                (if s == (a, b) {
                    1int
                } else {
                    0int
                }) + (if s == (b, a) {
                    1int
                } else {
                    0int
                })
            } else {
                0
            }
        }
    }
}

} // verus!
