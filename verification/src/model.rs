use vstd::prelude::*;
use crate::bracket::{
    fixture, group_fixture, group_letter, group_match_id, group_match_id_spec, is_group,
    knockout, knockout_spec, ko_match_id, ko_match_id_spec,
};
use crate::text::str_equal;

verus! {

/// A team: name, three-letter code, group letter (as a string) and draw position (1-4).
/// Its rating (Elo and form) is kept by the caller, next to the team's index.
#[derive(Debug)]
pub struct Team {
    pub name: String,
    pub code: String,
    pub group: String,
    pub pos: usize,
}

/// A real result as entered: the match id ("A:1v2" or "M73"), the score, and for a
/// knockout tie level after the score the shootout winner ("home"/"away"); `decided` is
/// "90", "aet" or "pens".
#[derive(Debug)]
pub struct Result {
    pub match_id: String,
    pub home: u32,
    pub away: u32,
    pub winner: Option<String>,
    pub decided: Option<String>,
}

/// The teams file: host nations (by code) and the teams.
pub struct TeamsFile {
    pub hosts: Vec<String>,
    pub teams: Vec<Team>,
}

/// The results file: the real results entered so far.
pub struct ResultsFile {
    pub results: Vec<Result>,
}

/// Why a teams file was refused.
#[derive(Debug, Clone, Copy, PartialEq, Eq, Structural)]
pub enum LoadError {
    /// A team has an empty group name.
    EmptyGroup,
    /// No team is in this group.
    GroupMissing(char),
    /// This group has a number of teams other than four.
    GroupSize(char, usize),
}

/// The word that names the away side as shootout winner.
pub open spec fn away_word() -> Seq<char> {
    seq!['a', 'w', 'a', 'y']
}

/// The result that a lookup by match id finds: the last one entered with that id.
pub open spec fn result_lookup(rs: Seq<Result>, id: Seq<char>) -> Option<Result>
    decreases rs.len(),
{
    if rs.len() == 0 {
        None
    } else if rs.last().match_id@ == id {
        Some(rs.last())
    } else {
        result_lookup(rs.drop_last(), id)
    }
}

/// No two results share a match id.
pub open spec fn unique_ids(rs: Seq<Result>) -> bool {
    forall|i: int, j: int|
        0 <= i < rs.len() && 0 <= j < rs.len() && i != j ==> rs[i].match_id@ != rs[j].match_id@
}

/// The score of a group fixture, if its real result is in.
pub open spec fn group_score_spec(rs: Seq<Result>, g: int, k: int) -> Option<(u32, u32)> {
    let (h, a) = group_fixture(k);
    match result_lookup(rs, group_match_id_spec(group_letter(g), h as nat, a as nat)) {
        Some(r) => Some((r.home, r.away)),
        None => None,
    }
}

/// A knockout result as the bracket reads it: score and whether the away side won the
/// shootout (only "away" names the away side; anything else leaves the home side through).
pub open spec fn ko_score_of(r: Result) -> (u32, u32, bool) {
    (r.home, r.away, r.winner matches Some(w) && w@ == away_word())
}

/// The real result of knockout match number `i` in bracket order, if it is in.
pub open spec fn ko_score_spec(rs: Seq<Result>, i: int) -> Option<(u32, u32, bool)> {
    match result_lookup(rs, ko_match_id_spec(knockout_spec()[i].id as nat)) {
        Some(r) => Some(ko_score_of(r)),
        None => None,
    }
}

/// The group letter of a team: the first character of its group name.
pub open spec fn team_group(t: Team) -> char {
    t.group@[0]
}

/// `idx` lists, without repeats, exactly the teams whose group letter is `c`, ordered by
/// draw position and, for equal positions, by index.
pub open spec fn is_group_listing(teams: Seq<Team>, c: char, idx: Seq<usize>) -> bool {
    &&& forall|a: int| 0 <= a < idx.len() ==> #[trigger] idx[a] < teams.len()
    &&& forall|a: int| 0 <= a < idx.len() ==> team_group(teams[#[trigger] idx[a] as int]) == c
    &&& forall|i: int|
        0 <= i < teams.len() && team_group(teams[i]) == c ==> #[trigger] idx.contains(i as usize)
    &&& forall|a: int, b: int|
        0 <= a < b < idx.len() ==> {
            ||| teams[idx[a] as int].pos < teams[idx[b] as int].pos
            ||| (teams[idx[a] as int].pos == teams[idx[b] as int].pos && idx[a] < idx[b])
        }
}

/// All the teams, the host codes, the real results (one per match id) and, per group, its
/// four teams in draw order; plus the real result of every fixture, looked up once.
pub struct Data {
    pub teams: Vec<Team>,
    pub hosts: Vec<String>,
    pub results: Vec<Result>,
    pub group_index: Vec<Vec<usize>>,
    pub group_scores: Vec<Vec<Option<(u32, u32)>>>,
    pub ko_scores: Vec<Option<(u32, u32, bool)>>,
}

impl Data {
    /// What lookups by group and fixture need: twelve groups of four team indices in range,
    /// results unique by id, and the per-fixture results in step with `results`. Unlike
    /// `wf`, it does not ask that a group lists exactly the teams carrying its letter.
    pub open spec fn indexed(&self) -> bool {
        &&& self.group_index@.len() == 12
        &&& forall|g: int|
            0 <= g < 12 ==> {
                &&& #[trigger] self.group_index@[g]@.len() == 4
                &&& forall|k: int| 0 <= k < 4 ==> #[trigger] self.group_index@[g]@[k] < self.teams@.len()
            }
        &&& unique_ids(self.results@)
        &&& self.group_scores@.len() == 12
        &&& forall|g: int|
            0 <= g < 12 ==> {
                &&& #[trigger] self.group_scores@[g]@.len() == 6
                &&& forall|k: int|
                    0 <= k < 6 ==> #[trigger] self.group_scores@[g]@[k] == group_score_spec(
                        self.results@,
                        g,
                        k,
                    )
            }
        &&& self.ko_scores@.len() == knockout_spec().len()
        &&& forall|i: int|
            0 <= i < knockout_spec().len() ==> #[trigger] self.ko_scores@[i] == ko_score_spec(
                self.results@,
                i,
            )
    }

    /// Well-formed: indexed, and group `g` lists exactly the teams that carry its letter, in
    /// draw order.
    pub open spec fn wf(&self) -> bool {
        &&& self.indexed()
        &&& forall|g: int|
            #![trigger self.group_index@[g]]
            0 <= g < 12 ==> is_group_listing(self.teams@, group_letter(g), self.group_index@[g]@)
    }

    /// The team index at draw position `p` (0-based) of group `g` (0-based).
    pub open spec fn member(&self, g: int, p: int) -> usize {
        self.group_index@[g]@[p]
    }

    /// Team indices of a group ordered by their draw position (1..=4).
    pub fn group_teams(&self, g: char) -> (r: &[usize])
        requires
            self.indexed(),
            is_group(g),
        ensures
            r@ == self.group_index@[g as int - 65]@,
    {
        let gi = (g as u32 - 65) as usize;
        self.group_index[gi].as_slice()
    }

    /// Whether the team is one of the host nations.
    pub fn is_host(&self, team: usize) -> (r: bool)
        requires
            team < self.teams@.len(),
        ensures
            r == self.hosts@.map_values(|h: String| h@).contains(self.teams@[team as int].code@),
    {
        let code = &self.teams[team].code;
        let mut i: usize = 0;
        while i < self.hosts.len()
            invariant
                i <= self.hosts@.len(),
                team < self.teams@.len(),
                *code == self.teams@[team as int].code,
                forall|k: int| 0 <= k < i ==> self.hosts@[k]@ != code@,
            decreases self.hosts@.len() - i,
        {
            if self.hosts[i] == *code {
                assert(self.hosts@.map_values(|h: String| h@)[i as int] == code@);
                return true;
            }
            i = i + 1;
        }
        proof {
            let hv = self.hosts@.map_values(|h: String| h@);
            if hv.contains(code@) {
                let k = choose|k: int| 0 <= k < hv.len() && hv[k] == code@;
                assert(self.hosts@[k]@ == code@);
            }
        }
        false
    }

    /// The real result entered for match `id`, if any.
    pub fn result_for(&self, id: &String) -> (r: Option<&Result>)
        requires
            self.indexed(),
        ensures
            match r {
                Some(x) => result_lookup(self.results@, id@) == Some(*x),
                None => result_lookup(self.results@, id@) is None,
            },
    {
        match find_result(&self.results, id) {
            Some(i) => Some(&self.results[i]),
            None => None,
        }
    }

    /// The real score of fixture `k` of group `g` (both 0-based), if it is in.
    pub fn group_score(&self, g: usize, k: usize) -> (r: Option<(u32, u32)>)
        requires
            self.indexed(),
            g < 12,
            k < 6,
        ensures
            r == group_score_spec(self.results@, g as int, k as int),
    {
        self.group_scores[g][k]
    }

    /// The real result of knockout match `i` in bracket order, if it is in.
    pub fn ko_score(&self, i: usize) -> (r: Option<(u32, u32, bool)>)
        requires
            self.indexed(),
            i < knockout_spec().len(),
        ensures
            r == ko_score_spec(self.results@, i as int),
    {
        self.ko_scores[i]
    }
}

proof fn lemma_lookup_unique(rs: Seq<Result>, i: int)
    requires
        unique_ids(rs),
        0 <= i < rs.len(),
    ensures
        result_lookup(rs, rs[i].match_id@) == Some(rs[i]),
    decreases rs.len(),
{
    if i < rs.len() - 1 {
        let p = rs.drop_last();
        assert(unique_ids(p));
        assert(p[i] == rs[i]);
        lemma_lookup_unique(p, i);
    }
}

proof fn lemma_lookup_absent(rs: Seq<Result>, id: Seq<char>)
    requires
        forall|i: int| 0 <= i < rs.len() ==> rs[i].match_id@ != id,
    ensures
        result_lookup(rs, id) is None,
    decreases rs.len(),
{
    if rs.len() > 0 {
        lemma_lookup_absent(rs.drop_last(), id);
    }
}

proof fn lemma_lookup_found(rs: Seq<Result>, id: Seq<char>)
    requires
        result_lookup(rs, id) is Some,
    ensures
        exists|i: int| 0 <= i < rs.len() && rs[i] == result_lookup(rs, id)->0 && rs[i].match_id@ == id,
    decreases rs.len(),
{
    if rs.last().match_id@ != id {
        lemma_lookup_found(rs.drop_last(), id);
        let i = choose|i: int| 0 <= i < rs.drop_last().len() && rs.drop_last()[i] == result_lookup(rs.drop_last(), id)->0 && rs.drop_last()[i].match_id@ == id;
        assert(rs[i] == rs.drop_last()[i]);
    }
}

/// Finds the result with the given id in a list without repeated ids.
fn find_result(rs: &Vec<Result>, id: &String) -> (r: Option<usize>)
    requires
        unique_ids(rs@),
    ensures
        r matches Some(i) ==> i < rs@.len() && rs@[i as int].match_id@ == id@,
        r is None ==> forall|i: int| 0 <= i < rs@.len() ==> rs@[i].match_id@ != id@,
        r matches Some(i) ==> result_lookup(rs@, id@) == Some(rs@[i as int]),
        r is None ==> result_lookup(rs@, id@) is None,
{
    let mut i: usize = 0;
    while i < rs.len()
        invariant
            i <= rs@.len(),
            unique_ids(rs@),
            forall|k: int| 0 <= k < i ==> rs@[k].match_id@ != id@,
        decreases rs@.len() - i,
    {
        if rs[i].match_id == *id {
            proof {
                lemma_lookup_unique(rs@, i as int);
            }
            return Some(i);
        }
        i = i + 1;
    }
    proof {
        lemma_lookup_absent(rs@, id@);
    }
    None
}

/// Keeps one result per match id, the last one entered (as collecting into a map keyed by id
/// does).
pub fn dedup_results(results: Vec<Result>) -> (out: Vec<Result>)
    ensures
        unique_ids(out@),
        forall|id: Seq<char>| #[trigger] result_lookup(out@, id) == result_lookup(results@, id),
{
    let mut rs = results;
    let mut out: Vec<Result> = Vec::new();
    while rs.len() > 0
        invariant
            unique_ids(out@),
            forall|id: Seq<char>| #[trigger]
                result_lookup(results@, id) == if result_lookup(out@, id) is Some {
                    result_lookup(out@, id)
                } else {
                    result_lookup(rs@, id)
                },
        decreases rs@.len(),
    {
        let ghost rs0 = rs@;
        let ghost out0 = out@;
        let r = rs.pop().unwrap();
        assert(rs@ == rs0.drop_last());
        let found = find_result(&out, &r.match_id);
        if found.is_none() {
            let ghost rid = r.match_id@;
            out.push(r);
            proof {
                assert(unique_ids(out@));
                assert forall|id: Seq<char>| #[trigger]
                    result_lookup(results@, id) == if result_lookup(out@, id) is Some {
                        result_lookup(out@, id)
                    } else {
                        result_lookup(rs@, id)
                    } by {
                    assert(out@.drop_last() =~= out0);
                    if id == rid {
                        assert(result_lookup(rs0, id) == Some(r));
                    } else {
                        assert(result_lookup(rs0, id) == result_lookup(rs@, id));
                    }
                }
            }
        } else {
            proof {
                assert forall|id: Seq<char>| #[trigger]
                    result_lookup(results@, id) == if result_lookup(out@, id) is Some {
                        result_lookup(out@, id)
                    } else {
                        result_lookup(rs@, id)
                    } by {
                    if id != r.match_id@ {
                        assert(result_lookup(rs0, id) == result_lookup(rs@, id));
                    }
                }
            }
        }
    }
    proof {
        assert forall|id: Seq<char>| #[trigger] result_lookup(out@, id) == result_lookup(results@, id) by {
            assert(result_lookup(rs@, id) is None);
        }
    }
    out
}

/// Indices below `n` of the teams whose group letter is `c`, in increasing order.
pub open spec fn members(teams: Seq<Team>, c: char, n: int) -> Seq<usize>
    decreases n,
{
    if n <= 0 {
        seq![]
    } else {
        let p = members(teams, c, n - 1);
        if teams[n - 1].group@.len() > 0 && team_group(teams[n - 1]) == c {
            p.push((n - 1) as usize)
        } else {
            p
        }
    }
}

/// How many teams are in group `g` (0-based).
pub open spec fn group_count(teams: Seq<Team>, g: int) -> nat {
    members(teams, group_letter(g), teams.len() as int).len()
}

/// The team's group name is empty.
pub open spec fn empty_group_name(t: Team) -> bool {
    t.group@.len() == 0
}

/// Some team has an empty group name.
pub open spec fn has_empty_group(teams: Seq<Team>) -> bool {
    exists|i: int| 0 <= i < teams.len() && #[trigger] empty_group_name(teams[i])
}

/// Every group before `g` has exactly four teams.
pub open spec fn groups_full_before(teams: Seq<Team>, g: int) -> bool {
    forall|h: int| 0 <= h < g ==> #[trigger] group_count(teams, h) == 4
}

proof fn lemma_members(teams: Seq<Team>, c: char, n: int)
    requires
        0 <= n <= teams.len(),
        teams.len() <= usize::MAX,
    ensures
        forall|a: int| 0 <= a < members(teams, c, n).len() ==> #[trigger] members(teams, c, n)[a] < n,
        forall|a: int, b: int|
            0 <= a < b < members(teams, c, n).len() ==> members(teams, c, n)[a] < members(
                teams,
                c,
                n,
            )[b],
        forall|x: usize|
            x < n ==> (#[trigger] members(teams, c, n).contains(x) <==> (teams[x as int].group@.len()
                > 0 && team_group(teams[x as int]) == c)),
    decreases n,
{
    if n > 0 {
        lemma_members(teams, c, n - 1);
        let p = members(teams, c, n - 1);
        let m = members(teams, c, n);
        let last = (n - 1) as usize;
        if teams[n - 1].group@.len() > 0 && team_group(teams[n - 1]) == c {
            assert(m == p.push(last));
            assert forall|a: int, b: int| 0 <= a < b < m.len() implies m[a] < m[b] by {
                if b < p.len() {
                    assert(m[a] == p[a] && m[b] == p[b]);
                } else {
                    assert(m[a] == p[a]);
                }
            }
            assert forall|x: usize| x < n implies (#[trigger] m.contains(x) <==> (
            teams[x as int].group@.len() > 0 && team_group(teams[x as int]) == c)) by {
                if p.contains(x) {
                    let a = choose|a: int| 0 <= a < p.len() && p[a] == x;
                    assert(m[a] == p[a]);
                }
                if m.contains(x) {
                    let a = choose|a: int| 0 <= a < m.len() && m[a] == x;
                    if a < p.len() {
                        assert(m[a] == p[a]);
                    }
                }
                if x == last {
                    assert(m[m.len() - 1] == x);
                }
            }
        } else {
            assert(m == p);
        }
    }
}

/// `a` is listed before `b`: lower draw position, or same position and lower index.
pub open spec fn listed_before(teams: Seq<Team>, a: usize, b: usize) -> bool {
    ||| teams[a as int].pos < teams[b as int].pos
    ||| (teams[a as int].pos == teams[b as int].pos && a < b)
}

/// The teams of the group with letter `c`, ordered by draw position (stable).
fn group_listing(teams: &Vec<Team>, c: char) -> (idx: Vec<usize>)
    requires
        forall|i: int| 0 <= i < teams@.len() ==> #[trigger] teams@[i].group@.len() > 0,
    ensures
        is_group_listing(teams@, c, idx@),
        idx@.len() == members(teams@, c, teams@.len() as int).len(),
{
    let nteams = teams.len();
    proof {
        lemma_members(teams@, c, teams@.len() as int);
    }
    let ghost mem = members(teams@, c, teams@.len() as int);
    let mut sel: Vec<usize> = Vec::new();
    let mut i: usize = 0;
    while i < teams.len()
        invariant
            i <= teams@.len(),
            sel@ == members(teams@, c, i as int),
            forall|k: int| 0 <= k < teams@.len() ==> #[trigger] teams@[k].group@.len() > 0,
        decreases teams@.len() - i,
    {
        let first = teams[i].group.as_str().get_char(0);
        if first == c {
            sel.push(i);
        }
        i = i + 1;
    }
    assert(sel@ == mem);
    let mut out: Vec<usize> = Vec::new();
    let mut k: usize = 0;
    while k < sel.len()
        invariant
            k <= sel@.len(),
            sel@ == mem,
            mem.len() == members(teams@, c, teams@.len() as int).len(),
            forall|a: int| 0 <= a < mem.len() ==> #[trigger] mem[a] < teams@.len(),
            forall|a: int, b: int| 0 <= a < b < mem.len() ==> mem[a] < mem[b],
            out@.len() == k,
            forall|x: usize| #[trigger] out@.contains(x) <==> mem.take(k as int).contains(x),
            forall|a: int, b: int| 0 <= a < b < out@.len() ==> listed_before(teams@, out@[a], out@[b]),
            forall|a: int| 0 <= a < out@.len() ==> #[trigger] out@[a] < teams@.len(),
        decreases sel@.len() - k,
    {
        let x = sel[k];
        let px = teams[x].pos;
        let mut p: usize = 0;
        while p < out.len() && teams[out[p]].pos <= px
            invariant
                p <= out@.len(),
                x < teams@.len(),
                px == teams@[x as int].pos,
                forall|a: int| 0 <= a < out@.len() ==> #[trigger] out@[a] < teams@.len(),
                forall|q: int| 0 <= q < p ==> teams@[#[trigger] out@[q] as int].pos <= px,
            decreases out@.len() - p,
        {
            p = p + 1;
        }
        let ghost out0 = out@;
        proof {
            assert forall|q: int| 0 <= q < out0.len() implies out0[q] < x by {
                assert(out0.contains(out0[q]));
                assert(mem.take(k as int).contains(out0[q]));
                let a = choose|a: int| 0 <= a < k && mem.take(k as int)[a] == out0[q];
                assert(mem[a] < mem[k as int]);
            }
        }
        out.insert(p, x);
        proof {
            assert(mem.take(k + 1) =~= mem.take(k as int).push(x));
            assert forall|y: usize| #[trigger] out@.contains(y) <==> mem.take(k + 1).contains(y) by {
                if out@.contains(y) {
                    let a = choose|a: int| 0 <= a < out@.len() && out@[a] == y;
                    if a < p {
                        assert(out0[a] == y);
                        assert(out0.contains(y));
                        assert(mem.take(k as int).contains(y));
                        let b = choose|b: int| 0 <= b < k && mem.take(k as int)[b] == y;
                        assert(mem.take(k + 1)[b] == y);
                    } else if a > p {
                        assert(out0[a - 1] == y);
                        assert(out0.contains(y));
                        assert(mem.take(k as int).contains(y));
                        let b = choose|b: int| 0 <= b < k && mem.take(k as int)[b] == y;
                        assert(mem.take(k + 1)[b] == y);
                    } else {
                        assert(y == x);
                        assert(mem.take(k + 1)[k as int] == y);
                    }
                }
                if mem.take(k + 1).contains(y) {
                    if y == x {
                        assert(out@[p as int] == x);
                        assert(out@.contains(x));
                    } else {
                        let b = choose|b: int| 0 <= b < k + 1 && #[trigger] mem.take(k + 1)[b] == y;
                        assert(b < k);
                        assert(mem.take(k as int)[b] == y);
                        assert(mem.take(k as int).contains(y));
                        assert(out0.contains(y));
                        let a = choose|a: int| 0 <= a < out0.len() && out0[a] == y;
                        if a < p {
                            assert(out@[a] == y);
                        } else {
                            assert(out@[a + 1] == y);
                        }
                    }
                }
            }
            assert forall|a: int, b: int| 0 <= a < b < out@.len() implies listed_before(
                teams@,
                out@[a],
                out@[b],
            ) by {
                if b < p {
                    assert(out@[a] == out0[a] && out@[b] == out0[b]);
                } else if b == p {
                    assert(out@[a] == out0[a]);
                } else if a == p {
                    assert(out@[b] == out0[b - 1]);
                    assert(teams@[out0[p as int] as int].pos > px);
                    if b - 1 > p {
                        assert(listed_before(teams@, out0[p as int], out0[b - 1]));
                    }
                } else if a < p {
                    assert(out@[a] == out0[a] && out@[b] == out0[b - 1]);
                } else {
                    assert(out@[a] == out0[a - 1] && out@[b] == out0[b - 1]);
                }
            }
        }
        k = k + 1;
    }
    proof {
        assert(mem.take(mem.len() as int) =~= mem);
        assert forall|i: int|
            0 <= i < teams@.len() && team_group(teams@[i]) == c implies #[trigger] out@.contains(
            i as usize) by {
            assert(mem.contains(i as usize));
        }
        assert forall|a: int, b: int| 0 <= a < b < out@.len() implies {
            ||| teams@[out@[a] as int].pos < teams@[out@[b] as int].pos
            ||| (teams@[out@[a] as int].pos == teams@[out@[b] as int].pos && out@[a] < out@[b])
        } by {
            assert(listed_before(teams@, out@[a], out@[b]));
        }
        assert forall|a: int| 0 <= a < out@.len() implies team_group(teams@[#[trigger] out@[a] as int]) == c by {
            assert(out@.contains(out@[a]));
            assert(mem.contains(out@[a]));
        }
    }
    out
}

fn group_score_row(results: &Vec<Result>, c: char, g: usize) -> (row: Vec<Option<(u32, u32)>>)
    requires
        unique_ids(results@),
        g < 12,
        c == group_letter(g as int),
    ensures
        row@.len() == 6,
        forall|m: int| 0 <= m < 6 ==> #[trigger] row@[m] == group_score_spec(results@, g as int, m),
{
    let mut row: Vec<Option<(u32, u32)>> = Vec::new();
    let mut k: usize = 0;
    while k < 6
        invariant
            k <= 6,
            g < 12,
            c == group_letter(g as int),
            unique_ids(results@),
            row@.len() == k,
            forall|m: int| 0 <= m < k ==> #[trigger] row@[m] == group_score_spec(results@, g as int, m),
        decreases 6 - k,
    {
        let (hp, ap) = fixture(k);
        let id = group_match_id(c, hp, ap);
        let found = find_result(results, &id);
        let cell = match found {
            Some(j) => Some((results[j].home, results[j].away)),
            None => None,
        };
        row.push(cell);
        k = k + 1;
    }
    row
}

impl Data {
    /// Indexes the teams by group and the real results by fixture. Refuses a team with an
    /// empty group name, and then, checking groups A to L in order, the first group that has
    /// no team or a number of teams other than four.
    pub fn build(teams_file: TeamsFile, results_file: ResultsFile) -> (r: core::result::Result<
        Data,
        LoadError,
    >)
        ensures
            (r matches Err(LoadError::EmptyGroup)) <==> has_empty_group(teams_file.teams@),
            r matches Err(LoadError::GroupMissing(c)) ==> !has_empty_group(teams_file.teams@)
                && exists|g: int|
                0 <= g < 12 && c == group_letter(g) && groups_full_before(teams_file.teams@, g)
                    && #[trigger] group_count(teams_file.teams@, g) == 0,
            r matches Err(LoadError::GroupSize(c, n)) ==> !has_empty_group(teams_file.teams@)
                && exists|g: int|
                0 <= g < 12 && c == group_letter(g) && groups_full_before(teams_file.teams@, g)
                    && #[trigger] group_count(teams_file.teams@, g) == n && n != 0 && n != 4,
            r is Ok <==> !has_empty_group(teams_file.teams@) && groups_full_before(
                teams_file.teams@,
                12,
            ),
            r matches Ok(d) ==> {
                &&& d.wf()
                &&& d.teams@ == teams_file.teams@
                &&& d.hosts@ == teams_file.hosts@
                &&& forall|id: Seq<char>| #[trigger]
                    result_lookup(d.results@, id) == result_lookup(results_file.results@, id)
            },
    {
        let ghost teams0 = teams_file.teams@;
        let teams = teams_file.teams;
        assert(teams@ == teams0);
        let mut i: usize = 0;
        while i < teams.len()
            invariant
                i <= teams@.len(),
                teams@ == teams0,
                teams0 == teams_file.teams@,
                forall|k: int| 0 <= k < i ==> #[trigger] teams@[k].group@.len() > 0,
            decreases teams@.len() - i,
        {
            if teams[i].group.as_str().unicode_len() == 0 {
                assert(empty_group_name(teams@[i as int]));
                assert(has_empty_group(teams_file.teams@));
                return Err(LoadError::EmptyGroup);
            }
            i = i + 1;
        }
        let letters = crate::bracket::all_groups();
        let mut group_index: Vec<Vec<usize>> = Vec::new();
        let mut g: usize = 0;
        while g < 12
            invariant
                g <= 12,
                teams@ == teams0,
                teams0 == teams_file.teams@,
                forall|k: int| 0 <= k < teams@.len() ==> #[trigger] teams@[k].group@.len() > 0,
                forall|h: int| 0 <= h < 12 ==> #[trigger] letters[h] == group_letter(h),
                groups_full_before(teams@, g as int),
                group_index@.len() == g,
                forall|h: int|
                    0 <= h < g ==> {
                        &&& #[trigger] group_index@[h]@.len() == 4
                        &&& is_group_listing(teams@, group_letter(h), group_index@[h]@)
                    },
            decreases 12 - g,
        {
            let c = letters[g];
            let listing = group_listing(&teams, c);
            let n = listing.len();
            assert(!has_empty_group(teams@)) by {
                if has_empty_group(teams@) {
                    let k = choose|k: int| 0 <= k < teams@.len() && #[trigger] empty_group_name(teams@[k]);
                    assert(teams@[k].group@.len() > 0);
                }
            }
            assert(group_count(teams@, g as int) == n);
            if n == 0 {
                return Err(LoadError::GroupMissing(c));
            }
            if n != 4 {
                return Err(LoadError::GroupSize(c, n));
            }
            group_index.push(listing);
            g = g + 1;
        }
        let results = dedup_results(results_file.results);
        let mut group_scores: Vec<Vec<Option<(u32, u32)>>> = Vec::new();
        let mut g: usize = 0;
        while g < 12
            invariant
                g <= 12,
                unique_ids(results@),
                forall|h: int| 0 <= h < 12 ==> #[trigger] letters[h] == group_letter(h),
                group_scores@.len() == g,
                forall|h: int|
                    0 <= h < g ==> {
                        &&& #[trigger] group_scores@[h]@.len() == 6
                        &&& forall|k: int|
                            0 <= k < 6 ==> #[trigger] group_scores@[h]@[k] == group_score_spec(
                                results@,
                                h,
                                k,
                            )
                    },
            decreases 12 - g,
        {
            let row = group_score_row(&results, letters[g], g);
            group_scores.push(row);
            g = g + 1;
        }
        let ko = knockout();
        let mut ko_scores: Vec<Option<(u32, u32, bool)>> = Vec::new();
        let mut m: usize = 0;
        while m < ko.len()
            invariant
                m <= ko@.len(),
                ko@ == knockout_spec(),
                unique_ids(results@),
                ko_scores@.len() == m,
                forall|q: int| 0 <= q < m ==> #[trigger] ko_scores@[q] == ko_score_spec(results@, q),
            decreases ko@.len() - m,
        {
            let id = ko_match_id(ko[m].id);
            let found = find_result(&results, &id);
            let cell = match found {
                Some(j) => {
                    let r = &results[j];
                    let away_won = match &r.winner {
                        Some(w) => {
                            let away = "away";
                            proof {
                                reveal_strlit("away");
                            }
                            let e = str_equal(w.as_str(), away);
                            assert(away@ =~= away_word());
                            e
                        },
                        None => false,
                    };
                    Some((r.home, r.away, away_won))
                },
                None => None,
            };
            ko_scores.push(cell);
            m = m + 1;
        }
        Ok(Data { teams, hosts: teams_file.hosts, results, group_index, group_scores, ko_scores })
    }
}

} // verus!
