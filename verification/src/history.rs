use vstd::prelude::*;
use std::collections::hash_map::DefaultHasher;
use std::hash::{Hash, Hasher};
use crate::model::{Data, Result};
use crate::sim::Tally;
use crate::text::{
    decimal, hexadecimal, lemma_lex_basic, lemma_lex_trans, lex_lt, parse_u32, parse_u32_spec,
    push_char, push_decimal, push_hex, str_equal, str_less,
};

verus! {

/// One saved stage of the tournament: a signature of the results entered, a short label
/// for the timeline, how many results were in, and the per-team shares computed then.
pub struct Snapshot<P> {
    pub sig: String,
    pub label: String,
    pub results: usize,
    pub shares: P,
}

/// The saved stages, oldest first.
pub struct History<P> {
    pub snapshots: Vec<Snapshot<P>>,
}

/// `s` with `snap` in place of the first snapshot that has its signature, or with `snap`
/// added at the end if none has.
pub open spec fn put<P>(s: Seq<Snapshot<P>>, snap: Snapshot<P>) -> Seq<Snapshot<P>>
    decreases s.len(),
{
    if s.len() == 0 {
        seq![snap]
    } else if s[0].sig@ == snap.sig@ {
        s.update(0, snap)
    } else {
        seq![s[0]] + put(s.drop_first(), snap)
    }
}

/// `s` (already in order) with `x` placed after every snapshot with at most as many results.
pub open spec fn insert_by_results<P>(s: Seq<Snapshot<P>>, x: Snapshot<P>) -> Seq<Snapshot<P>>
    decreases s.len(),
{
    if s.len() == 0 {
        seq![x]
    } else if s.last().results <= x.results {
        s.push(x)
    } else {
        insert_by_results(s.drop_last(), x).push(s.last())
    }
}

/// `s` in order of the number of results, stable: snapshots with equal counts keep their order.
pub open spec fn sort_by_results<P>(s: Seq<Snapshot<P>>) -> Seq<Snapshot<P>>
    decreases s.len(),
{
    if s.len() == 0 {
        s
    } else {
        insert_by_results(sort_by_results(s.drop_last()), s.last())
    }
}

/// What `upsert` leaves: the snapshot put in, then everything in order of results.
pub open spec fn upsert_spec<P>(s: Seq<Snapshot<P>>, snap: Snapshot<P>) -> Seq<Snapshot<P>> {
    sort_by_results(put(s, snap))
}

/// Snapshots are in order of the number of results.
pub open spec fn sorted_by_results<P>(s: Seq<Snapshot<P>>) -> bool {
    forall|i: int, j: int| 0 <= i < j < s.len() ==> s[i].results <= s[j].results
}

/// No two snapshots share a signature.
pub open spec fn unique_sigs<P>(s: Seq<Snapshot<P>>) -> bool {
    forall|i: int, j: int| 0 <= i < s.len() && 0 <= j < s.len() && i != j ==> s[i].sig@ != s[j].sig@
}

/// Some snapshot has this signature.
pub open spec fn has_sig<P>(s: Seq<Snapshot<P>>, sig: Seq<char>) -> bool {
    exists|i: int| 0 <= i < s.len() && #[trigger] s[i].sig@ == sig
}

proof fn lemma_insert_at<P>(s: Seq<Snapshot<P>>, x: Snapshot<P>, p: int)
    requires
        0 <= p <= s.len(),
        forall|k: int| p <= k < s.len() ==> #[trigger] s[k].results > x.results,
        p > 0 ==> s[p - 1].results <= x.results,
    ensures
        insert_by_results(s, x) == s.take(p).push(x) + s.skip(p),
    decreases s.len(),
{
    if s.len() == 0 {
        assert(s.take(p).push(x) + s.skip(p) =~= seq![x]);
    } else if s.last().results <= x.results {
        assert(p == s.len());
        assert(s.take(p).push(x) + s.skip(p) =~= s.push(x));
    } else {
        let d = s.drop_last();
        lemma_insert_at(d, x, p);
        assert(s.take(p).push(x) + s.skip(p) =~= (d.take(p).push(x) + d.skip(p)).push(s.last()));
    }
}

proof fn lemma_insert_sorted<P>(s: Seq<Snapshot<P>>, x: Snapshot<P>)
    requires
        sorted_by_results(s),
    ensures
        sorted_by_results(insert_by_results(s, x)),
        insert_by_results(s, x).len() == s.len() + 1,
        insert_by_results(s, x).to_multiset() == s.to_multiset().insert(x),
    decreases s.len(),
{
    broadcast use vstd::seq_lib::group_to_multiset_ensures;

    if s.len() == 0 {
        assert(seq![x] =~= s.push(x));
    } else if s.last().results <= x.results {
    } else {
        let d = s.drop_last();
        lemma_insert_sorted(d, x);
        let r = insert_by_results(d, x);
        assert forall|i: int, j: int| 0 <= i < j < r.push(s.last()).len() implies r.push(
            s.last(),
        )[i].results <= r.push(s.last())[j].results by {
            if j == r.len() {
                assert(r.to_multiset().count(r[i]) > 0);
                assert(d.to_multiset().insert(x).count(r[i]) > 0);
                if r[i] != x {
                    assert(d.to_multiset().count(r[i]) > 0);
                    assert(d.contains(r[i]));
                    let k = choose|k: int| 0 <= k < d.len() && d[k] == r[i];
                    assert(s[k] == d[k]);
                }
            }
        }
        assert(s =~= d.push(s.last()));
        assert(r.push(s.last()).to_multiset() == r.to_multiset().insert(s.last()));
        assert(d.push(s.last()).to_multiset() == d.to_multiset().insert(s.last()));
        assert(r.push(s.last()).to_multiset() =~= s.to_multiset().insert(x));
    }
}

/// Sorting gives an ordered rearrangement of the same snapshots.
proof fn lemma_sort<P>(s: Seq<Snapshot<P>>)
    ensures
        sorted_by_results(sort_by_results(s)),
        sort_by_results(s).len() == s.len(),
        sort_by_results(s).to_multiset() == s.to_multiset(),
    decreases s.len(),
{
    broadcast use vstd::seq_lib::group_to_multiset_ensures;

    if s.len() > 0 {
        lemma_sort(s.drop_last());
        lemma_insert_sorted(sort_by_results(s.drop_last()), s.last());
        assert(s =~= s.drop_last().push(s.last()));
    }
}

/// Sorting what is already in order changes nothing.
proof fn lemma_sort_sorted<P>(s: Seq<Snapshot<P>>)
    requires
        sorted_by_results(s),
    ensures
        sort_by_results(s) == s,
    decreases s.len(),
{
    if s.len() > 0 {
        let d = s.drop_last();
        assert(sorted_by_results(d));
        lemma_sort_sorted(d);
        assert(d.push(s.last()) =~= s);
        if d.len() > 0 {
            assert(d.last() == s[s.len() - 2]);
        }
    }
}

proof fn lemma_put<P>(s: Seq<Snapshot<P>>, snap: Snapshot<P>)
    ensures
        has_sig(s, snap.sig@) ==> exists|k: int|
            0 <= k < s.len() && #[trigger] s[k].sig@ == snap.sig@ && (forall|j: int|
                0 <= j < k ==> s[j].sig@ != snap.sig@) && put(s, snap) == s.update(k, snap),
        !has_sig(s, snap.sig@) ==> put(s, snap) == s.push(snap),
    decreases s.len(),
{
    if s.len() == 0 {
        assert(seq![snap] =~= s.push(snap));
    } else if s[0].sig@ == snap.sig@ {
        assert(s[0].sig@ == snap.sig@);
    } else {
        let d = s.drop_first();
        lemma_put(d, snap);
        if has_sig(s, snap.sig@) {
            let i = choose|i: int| 0 <= i < s.len() && #[trigger] s[i].sig@ == snap.sig@;
            assert(d[i - 1].sig@ == snap.sig@);
            let k = choose|k: int|
                0 <= k < d.len() && #[trigger] d[k].sig@ == snap.sig@ && (forall|j: int|
                    0 <= j < k ==> d[j].sig@ != snap.sig@) && put(d, snap) == d.update(k, snap);
            assert(seq![s[0]] + d.update(k, snap) =~= s.update(k + 1, snap));
            assert(s[k + 1].sig@ == snap.sig@);
            assert forall|j: int| 0 <= j < k + 1 implies s[j].sig@ != snap.sig@ by {
                if j > 0 {
                    assert(s[j] == d[j - 1]);
                }
            }
        } else {
            assert forall|i: int| 0 <= i < d.len() implies #[trigger] d[i].sig@ != snap.sig@ by {
                assert(s[i + 1] == d[i]);
            }
            assert(seq![s[0]] + d.push(snap) =~= s.push(snap));
        }
    }
}

proof fn lemma_insert_members<P>(s: Seq<Snapshot<P>>, x: Snapshot<P>)
    ensures
        forall|i: int|
            0 <= i < insert_by_results(s, x).len() ==> #[trigger] insert_by_results(s, x)[i] == x
                || s.contains(insert_by_results(s, x)[i]),
        unique_sigs(s) && !has_sig(s, x.sig@) ==> unique_sigs(insert_by_results(s, x)),
    decreases s.len(),
{
    if s.len() == 0 {
    } else if s.last().results <= x.results {
        assert forall|i: int| 0 <= i < s.push(x).len() implies #[trigger] s.push(x)[i] == x || s.contains(
            s.push(x)[i],
        ) by {
            if i < s.len() {
                assert(s.push(x)[i] == s[i]);
            }
        }
        if unique_sigs(s) && !has_sig(s, x.sig@) {
            assert forall|i: int, j: int|
                0 <= i < s.push(x).len() && 0 <= j < s.push(x).len() && i != j implies s.push(x)[i].sig@
                != s.push(x)[j].sig@ by {
                if i == s.len() {
                    assert(s[j].sig@ != x.sig@);
                } else if j == s.len() {
                    assert(s[i].sig@ != x.sig@);
                }
            }
        }
    } else {
        let d = s.drop_last();
        let l = s.last();
        lemma_insert_members(d, x);
        let r = insert_by_results(d, x);
        assert forall|i: int| 0 <= i < r.push(l).len() implies #[trigger] r.push(l)[i] == x || s.contains(
            r.push(l)[i],
        ) by {
            if i < r.len() {
                if r[i] != x {
                    assert(d.contains(r[i]));
                    let k = choose|k: int| 0 <= k < d.len() && d[k] == r[i];
                    assert(s[k] == d[k]);
                }
            } else {
                assert(s[s.len() - 1] == l);
            }
        }
        if unique_sigs(s) && !has_sig(s, x.sig@) {
            assert(unique_sigs(d));
            assert(!has_sig(d, x.sig@)) by {
                if has_sig(d, x.sig@) {
                    let k = choose|k: int| 0 <= k < d.len() && #[trigger] d[k].sig@ == x.sig@;
                    assert(s[k].sig@ == x.sig@);
                }
            }
            assert forall|i: int, j: int|
                0 <= i < r.push(l).len() && 0 <= j < r.push(l).len() && i != j implies r.push(l)[i].sig@
                != r.push(l)[j].sig@ by {
                if i == r.len() || j == r.len() {
                    let m = if i == r.len() { j } else { i };
                    assert(s[s.len() - 1].sig@ != x.sig@);
                    if r[m] != x {
                        assert(d.contains(r[m]));
                        let k = choose|k: int| 0 <= k < d.len() && d[k] == r[m];
                        assert(s[k] == d[k]);
                        assert(s[k].sig@ != s[s.len() - 1].sig@);
                    }
                }
            }
        }
    }
}

proof fn lemma_sort_members<P>(s: Seq<Snapshot<P>>)
    ensures
        forall|i: int| 0 <= i < sort_by_results(s).len() ==> s.contains(#[trigger] sort_by_results(s)[i]),
        unique_sigs(s) ==> unique_sigs(sort_by_results(s)),
    decreases s.len(),
{
    if s.len() > 0 {
        let d = s.drop_last();
        let x = s.last();
        lemma_sort_members(d);
        let r = sort_by_results(d);
        lemma_insert_members(r, x);
        assert forall|i: int| 0 <= i < sort_by_results(s).len() implies s.contains(
            #[trigger] sort_by_results(s)[i],
        ) by {
            let e = sort_by_results(s)[i];
            if e == x {
                assert(s[s.len() - 1] == x);
            } else {
                assert(r.contains(e));
                let k = choose|k: int| 0 <= k < r.len() && r[k] == e;
                assert(d.contains(r[k]));
                let m = choose|m: int| 0 <= m < d.len() && d[m] == e;
                assert(s[m] == d[m]);
            }
        }
        if unique_sigs(s) {
            assert(unique_sigs(d));
            assert(!has_sig(r, x.sig@)) by {
                if has_sig(r, x.sig@) {
                    let k = choose|k: int| 0 <= k < r.len() && #[trigger] r[k].sig@ == x.sig@;
                    assert(d.contains(r[k]));
                    let m = choose|m: int| 0 <= m < d.len() && d[m] == r[k];
                    assert(s[m] == d[m]);
                    assert(s[m].sig@ == s[s.len() - 1].sig@);
                }
            }
        }
    }
}

/// After an upsert the snapshots are in order of the number of results; the new snapshot
/// is among them; they are the earlier snapshots with the new one put in (in place of the
/// first with its signature, else added), rearranged; and there is one more of them exactly
/// when no earlier snapshot had its signature.
pub proof fn lemma_upsert_ordered<P>(s: Seq<Snapshot<P>>, snap: Snapshot<P>)
    ensures
        sorted_by_results(upsert_spec(s, snap)),
        upsert_spec(s, snap).contains(snap),
        upsert_spec(s, snap).to_multiset() == put(s, snap).to_multiset(),
        upsert_spec(s, snap).len() == if has_sig(s, snap.sig@) {
            s.len()
        } else {
            s.len() + 1
        },
{
    broadcast use vstd::seq_lib::group_to_multiset_ensures;

    lemma_put(s, snap);
    lemma_sort(put(s, snap));
    let t = put(s, snap);
    if has_sig(s, snap.sig@) {
        let k = choose|k: int|
            0 <= k < s.len() && #[trigger] s[k].sig@ == snap.sig@ && (forall|j: int|
                0 <= j < k ==> s[j].sig@ != snap.sig@) && put(s, snap) == s.update(k, snap);
        assert(t[k] == snap);
    } else {
        assert(t[s.len() as int] == snap);
    }
    assert(t.contains(snap));
    assert(t.to_multiset().count(snap) > 0);
    assert(upsert_spec(s, snap).to_multiset().count(snap) > 0);
}

/// When the saved snapshots have distinct signatures, they still do after an upsert.
pub proof fn lemma_upsert_unique<P>(s: Seq<Snapshot<P>>, snap: Snapshot<P>)
    requires
        unique_sigs(s),
    ensures
        unique_sigs(upsert_spec(s, snap)),
{
    lemma_put(s, snap);
    let t = put(s, snap);
    if has_sig(s, snap.sig@) {
        let k = choose|k: int|
            0 <= k < s.len() && #[trigger] s[k].sig@ == snap.sig@ && (forall|j: int|
                0 <= j < k ==> s[j].sig@ != snap.sig@) && put(s, snap) == s.update(k, snap);
        assert forall|i: int, j: int| 0 <= i < t.len() && 0 <= j < t.len() && i != j implies t[i].sig@
            != t[j].sig@ by {
            if i != k && j != k {
                assert(t[i] == s[i] && t[j] == s[j]);
            } else if i == k {
                assert(t[j] == s[j]);
                assert(s[j].sig@ != s[k].sig@);
            } else {
                assert(t[i] == s[i]);
                assert(s[i].sig@ != s[k].sig@);
            }
        }
    } else {
        assert forall|i: int, j: int| 0 <= i < t.len() && 0 <= j < t.len() && i != j implies t[i].sig@
            != t[j].sig@ by {
            if i == s.len() {
                assert(s[j].sig@ != snap.sig@);
            } else if j == s.len() {
                assert(s[i].sig@ != snap.sig@);
            } else {
                assert(t[i] == s[i] && t[j] == s[j]);
            }
        }
    }
    lemma_sort_members(t);
}

/// Upserting the same snapshot twice leaves what upserting it once left, when the saved
/// snapshots have distinct signatures.
pub proof fn lemma_upsert_idempotent<P>(s: Seq<Snapshot<P>>, snap: Snapshot<P>)
    requires
        unique_sigs(s),
    ensures
        upsert_spec(upsert_spec(s, snap), snap) == upsert_spec(s, snap),
{
    let t = upsert_spec(s, snap);
    lemma_upsert_ordered(s, snap);
    lemma_upsert_unique(s, snap);
    let k = choose|k: int| 0 <= k < t.len() && t[k] == snap;
    assert(t[k].sig@ == snap.sig@);
    assert(has_sig(t, snap.sig@));
    lemma_put(t, snap);
    let k2 = choose|k2: int|
        0 <= k2 < t.len() && #[trigger] t[k2].sig@ == snap.sig@ && (forall|j: int|
            0 <= j < k2 ==> t[j].sig@ != snap.sig@) && put(t, snap) == t.update(k2, snap);
    assert(k2 == k);
    assert(t.update(k, snap) =~= t);
    lemma_sort_sorted(t);
}

/// Sorts snapshots by the number of results, keeping the order of equal counts.
fn sort_snapshots<P>(v: Vec<Snapshot<P>>) -> (r: Vec<Snapshot<P>>)
    ensures
        r@ == sort_by_results(v@),
{
    let ghost v0 = v@;
    let mut rest = v;
    let mut out: Vec<Snapshot<P>> = Vec::new();
    let ghost mut i: int = 0;
    assert(v0.take(0) =~= Seq::<Snapshot<P>>::empty());
    assert(v0.skip(0) =~= v0);
    while rest.len() > 0
        invariant
            0 <= i <= v0.len(),
            rest@ == v0.skip(i),
            out@ == sort_by_results(v0.take(i)),
        decreases rest@.len(),
    {
        proof {
            lemma_sort(v0.take(i));
        }
        let x = rest.remove(0);
        assert(x == v0[i]);
        let mut p: usize = out.len();
        while p > 0 && out[p - 1].results > x.results
            invariant
                p <= out@.len(),
                forall|k: int| p <= k < out@.len() ==> #[trigger] out@[k].results > x.results,
            decreases p,
        {
            p = p - 1;
        }
        proof {
            lemma_insert_at(out@, x, p as int);
            assert(v0.take(i + 1).drop_last() =~= v0.take(i));
            assert(v0.take(i + 1).last() == x);
        }
        let ghost before = out@;
        out.insert(p, x);
        assert(out@ =~= before.take(p as int).push(x) + before.skip(p as int));
        proof {
            i = i + 1;
            assert(rest@ =~= v0.skip(i));
        }
    }
    assert(v0.take(i) =~= v0);
    out
}

impl<P> History<P> {
    /// Inserts the snapshot for the current state, replacing the first one with the same
    /// signature if there is one, and keeps the snapshots in order of the number of results.
    pub fn upsert(&mut self, snap: Snapshot<P>)
        ensures
            final(self).snapshots@ == upsert_spec(old(self).snapshots@, snap),
    {
        let ghost s0 = self.snapshots@;
        let mut i: usize = 0;
        let mut found = false;
        assert(s0.take(0) + s0.skip(0) =~= s0);
        assert(s0.take(0) + put(s0.skip(0), snap) =~= put(s0, snap));
        while i < self.snapshots.len()
            invariant_except_break
                !found,
            invariant
                i <= self.snapshots@.len(),
                self.snapshots@ == s0,
                put(s0, snap) == s0.take(i as int) + put(s0.skip(i as int), snap),
            ensures
                i <= s0.len(),
                self.snapshots@ == s0,
                put(s0, snap) == s0.take(i as int) + put(s0.skip(i as int), snap),
                found ==> i < s0.len() && s0[i as int].sig@ == snap.sig@,
                !found ==> i == s0.len(),
            decreases self.snapshots@.len() - i,
        {
            if str_equal(self.snapshots[i].sig.as_str(), snap.sig.as_str()) {
                found = true;
                break;
            }
            proof {
                let t = s0.skip(i as int);
                assert(t[0] == s0[i as int]);
                assert(t.drop_first() =~= s0.skip(i + 1));
                assert(s0.take(i + 1) =~= s0.take(i as int).push(s0[i as int]));
                assert(s0.take(i as int) + (seq![t[0]] + put(t.drop_first(), snap)) =~= s0.take(i + 1) + put(
                    s0.skip(i + 1),
                    snap,
                ));
            }
            i = i + 1;
        }
        if found {
            let ghost t = s0.skip(i as int);
            assert(t[0] == s0[i as int]);
            self.snapshots.set(i, snap);
            assert(self.snapshots@ =~= s0.take(i as int) + t.update(0, snap));
        } else {
            assert(s0.skip(i as int) =~= Seq::<Snapshot<P>>::empty());
            self.snapshots.push(snap);
            assert(self.snapshots@ =~= s0.take(i as int) + seq![snap]);
        }
        let mut all: Vec<Snapshot<P>> = Vec::new();
        std::mem::swap(&mut all, &mut self.snapshots);
        self.snapshots = sort_snapshots(all);
    }
}

/// The tag of one result in the signature: "<id>=<home goals>-<away goals>-<shootout
/// winner, or nothing>".
pub open spec fn result_tag(r: Result) -> Seq<char> {
    r.match_id@ + seq!['='] + decimal(r.home as nat) + seq!['-'] + decimal(r.away as nat) + seq!['-']
        + match r.winner {
        Some(w) => w@,
        None => Seq::<char>::empty(),
    }
}

/// The tags of the results, in the order they are stored.
pub open spec fn result_tags_spec(rs: Seq<Result>) -> Seq<Seq<char>> {
    rs.map_values(|r: Result| result_tag(r))
}

/// Strings in lexicographic order (equal ones side by side).
pub open spec fn sorted_strs(s: Seq<Seq<char>>) -> bool {
    forall|i: int, j: int| 0 <= i < j < s.len() ==> !lex_lt(s[j], s[i])
}

/// What a signature hashes does not depend on the order of the results: for two lists of
/// results with the same tags (match id, score and winner), each as often, the sorted tag
/// lists (what `result_tags` returns) are equal.
pub proof fn lemma_tags_order_free(rs1: Seq<Result>, rs2: Seq<Result>, t1: Seq<Seq<char>>, t2: Seq<Seq<char>>)
    requires
        result_tags_spec(rs1).to_multiset() == result_tags_spec(rs2).to_multiset(),
        sorted_strs(t1),
        t1.to_multiset() == result_tags_spec(rs1).to_multiset(),
        sorted_strs(t2),
        t2.to_multiset() == result_tags_spec(rs2).to_multiset(),
    ensures
        t1 == t2,
{
    lemma_sorted_strs_unique(t1, t2);
}

fn tag_of(r: &Result) -> (t: String)
    ensures
        t@ == result_tag(*r),
{
    let mut t = String::new();
    t.append(r.match_id.as_str());
    push_char(&mut t, '=');
    push_decimal(&mut t, r.home as u64);
    push_char(&mut t, '-');
    push_decimal(&mut t, r.away as u64);
    push_char(&mut t, '-');
    match &r.winner {
        Some(w) => t.append(w.as_str()),
        None => {},
    }
    assert(t@ =~= result_tag(*r));
    t
}

proof fn lemma_insert_str_sorted(s: Seq<Seq<char>>, x: Seq<char>, p: int)
    requires
        sorted_strs(s),
        0 <= p <= s.len(),
        forall|k: int| p <= k < s.len() ==> lex_lt(x, #[trigger] s[k]),
        p > 0 ==> !lex_lt(x, s[p - 1]),
    ensures
        sorted_strs(s.insert(p, x)),
{
    let r = s.insert(p, x);
    assert forall|i: int, j: int| 0 <= i < j < r.len() implies !lex_lt(r[j], r[i]) by {
        if j == p {
            assert(r[i] == s[i]);
            lemma_lex_basic(s[i], s[p - 1]);
            lemma_lex_basic(x, s[p - 1]);
            if lex_lt(x, s[i]) {
                if s[i] != s[p - 1] {
                    assert(!lex_lt(s[p - 1], s[i]));
                    lemma_lex_trans(x, s[i], s[p - 1]);
                }
            }
        } else if i == p {
            assert(r[j] == s[j - 1]);
            lemma_lex_basic(x, s[j - 1]);
        } else {
            let a = if i < p { i } else { i - 1 };
            let b = if j < p { j } else { j - 1 };
            assert(r[i] == s[a] && r[j] == s[b]);
        }
    }
}

/// The tags of all results, sorted: the same tags whatever order the results are stored in.
pub fn result_tags(data: &Data) -> (r: Vec<String>)
    ensures
        sorted_strs(r@.map_values(|t: String| t@)),
        r@.map_values(|t: String| t@).to_multiset() == result_tags_spec(data.results@).to_multiset(),
{
    broadcast use vstd::seq_lib::group_to_multiset_ensures;

    let mut out: Vec<String> = Vec::new();
    let mut i: usize = 0;
    let ghost tags = result_tags_spec(data.results@);
    assert(tags.take(0) =~= Seq::<Seq<char>>::empty());
    assert(out@.map_values(|t: String| t@) =~= Seq::<Seq<char>>::empty());
    while i < data.results.len()
        invariant
            i <= data.results@.len(),
            tags == result_tags_spec(data.results@),
            sorted_strs(out@.map_values(|t: String| t@)),
            out@.map_values(|t: String| t@).to_multiset() == tags.take(i as int).to_multiset(),
        decreases data.results@.len() - i,
    {
        let tag = tag_of(&data.results[i]);
        let ghost ov = out@.map_values(|t: String| t@);
        let mut p: usize = out.len();
        while p > 0 && str_less(tag.as_str(), out[p - 1].as_str())
            invariant
                p <= out@.len(),
                ov == out@.map_values(|t: String| t@),
                forall|k: int| p <= k < ov.len() ==> lex_lt(tag@, #[trigger] ov[k]),
            decreases p,
        {
            p = p - 1;
        }
        proof {
            lemma_insert_str_sorted(ov, tag@, p as int);
            assert(tags[i as int] == tag@);
            assert(tags.take(i + 1) =~= tags.take(i as int).push(tag@));
            vstd::seq_lib::to_multiset_build(tags.take(i as int), tag@);
            vstd::seq_lib::to_multiset_insert(ov, p as int, tag@);
        }
        out.insert(p, tag);
        assert(out@.map_values(|t: String| t@) =~= ov.insert(p as int, tag@));
        i = i + 1;
    }
    assert(tags.take(i as int) =~= tags);
    out
}

/// Two lists of strings in lexicographic order with the same entries are the same list.
pub proof fn lemma_sorted_strs_unique(a: Seq<Seq<char>>, b: Seq<Seq<char>>)
    requires
        sorted_strs(a),
        sorted_strs(b),
        a.to_multiset() == b.to_multiset(),
    ensures
        a == b,
    decreases a.len(),
{
    broadcast use vstd::seq_lib::group_to_multiset_ensures;

    assert(a.to_multiset().len() == a.len());
    assert(b.to_multiset().len() == b.len());
    if a.len() == 0 {
        assert(b.len() == 0);
        assert(a =~= b);
    } else {
        assert(b.len() == a.len());
        let x = a.last();
        let y = b.last();
        assert(a.to_multiset().count(y) > 0);
        assert(b.to_multiset().count(x) > 0);
        let i = choose|i: int| 0 <= i < a.len() && a[i] == y;
        let j = choose|j: int| 0 <= j < b.len() && b[j] == x;
        lemma_lex_basic(x, y);
        if x != y {
            if lex_lt(x, y) {
                assert(!lex_lt(a[a.len() - 1], a[i]) || i == a.len() - 1);
            } else {
                assert(!lex_lt(b[b.len() - 1], b[j]) || j == b.len() - 1);
            }
        }
        assert(x == y);
        assert(a =~= a.drop_last().push(x));
        assert(b =~= b.drop_last().push(x));
        assert(a.drop_last().to_multiset() =~= a.to_multiset().remove(x));
        assert(b.drop_last().to_multiset() =~= b.to_multiset().remove(x));
        lemma_sorted_strs_unique(a.drop_last(), b.drop_last());
    }
}

/// The signature text: the number of results, a colon, and a hash in lower-case hexadecimal.
pub open spec fn signature_spec(count: nat, hash: u64) -> Seq<char> {
    decimal(count) + seq![':'] + hexadecimal(hash as nat)
}

/// The signature text for `count` results whose sorted tags hashed to `hash`.
pub fn signature_text(count: usize, hash: u64) -> (s: String)
    ensures
        s@ == signature_spec(count as nat, hash),
{
    let mut s = String::new();
    push_decimal(&mut s, count as u64);
    push_char(&mut s, ':');
    push_hex(&mut s, hash);
    s
}

/// Feeds the tags to the hasher: std's `Hash` for `Vec<String>` (a length prefix, then each
/// string). What it writes depends on the platform's `usize` width and on std's version, so
/// nothing is stated of the hasher afterwards.
#[verifier::external_body]
fn hash_tags(tags: &Vec<String>, h: &mut DefaultHasher) {
    tags.hash(h)
}

/// Signature of the entered results: their count and a hash of their sorted tags.
fn signature(data: &Data) -> (s: String)
    ensures
        exists|h: u64| s@ == signature_spec(data.results@.len(), h),
{
    let tags = result_tags(data);
    let mut h = DefaultHasher::new();
    hash_tags(&tags, &mut h);
    let code = h.finish();
    signature_text(data.results.len(), code)
}

/// How many results are group matches (their id contains ':').
pub open spec fn group_played(rs: Seq<Result>) -> nat
    decreases rs.len(),
{
    if rs.len() == 0 {
        0
    } else {
        group_played(rs.drop_last()) + if rs.last().match_id@.contains(':') {
            1nat
        } else {
            0nat
        }
    }
}

/// The knockout number in a match id: what follows a leading 'M', read as a `u32`.
pub open spec fn ko_number(id: Seq<char>) -> Option<u32> {
    if id.len() > 0 && id[0] == 'M' {
        parse_u32_spec(id.drop_first())
    } else {
        None
    }
}

/// The highest knockout number among the results, if any.
pub open spec fn max_ko(rs: Seq<Result>) -> Option<u32>
    decreases rs.len(),
{
    if rs.len() == 0 {
        None
    } else {
        match (max_ko(rs.drop_last()), ko_number(rs.last().match_id@)) {
            (Some(a), Some(b)) => Some(if a >= b { a } else { b }),
            (Some(a), None) => Some(a),
            (None, x) => x,
        }
    }
}

/// The round that knockout number `n` belongs to: "R32" (73-88), "R16" (89-96), "QF"
/// (97-100), "SF" (101-102), else "Final".
pub open spec fn round_label(n: u32) -> Seq<char> {
    if 73 <= n <= 88 {
        seq!['R', '3', '2']
    } else if 89 <= n <= 96 {
        seq!['R', '1', '6']
    } else if 97 <= n <= 100 {
        seq!['Q', 'F']
    } else if 101 <= n <= 102 {
        seq!['S', 'F']
    } else {
        seq!['F', 'i', 'n', 'a', 'l']
    }
}

/// The short name of a knockout round.
pub open spec fn round_tag(r: crate::bracket::Round) -> Seq<char> {
    match r {
        crate::bracket::Round::R32 => seq!['R', '3', '2'],
        crate::bracket::Round::R16 => seq!['R', '1', '6'],
        crate::bracket::Round::Qf => seq!['Q', 'F'],
        crate::bracket::Round::Sf => seq!['S', 'F'],
        crate::bracket::Round::Final => seq!['F', 'i', 'n', 'a', 'l'],
    }
}

/// Once a knockout result is in, the timeline label names the bracket round of the latest
/// knockout match with a result: for every bracket match `j`, if it is the highest-numbered
/// knockout match among the results, the label is the short name of its round.
pub proof fn lemma_label_names_latest_round(rs: Seq<Result>, j: int)
    requires
        0 <= j < 31,
        max_ko(rs) == Some(crate::bracket::knockout_spec()[j].id),
    ensures
        stage_label_spec(rs) == round_tag(crate::bracket::knockout_spec()[j].round),
{
    if j == 0 {} else if j == 1 {} else if j == 2 {} else if j == 3 {} else if j == 4 {} else if j == 5 {} else if j == 6 {} else if j == 7 {} else if j == 8 {} else if j == 9 {} else if j == 10 {} else if j == 11 {} else if j == 12 {} else if j == 13 {} else if j == 14 {} else if j == 15 {} else if j == 16 {} else if j == 17 {} else if j == 18 {} else if j == 19 {} else if j == 20 {} else if j == 21 {} else if j == 22 {} else if j == 23 {} else if j == 24 {} else if j == 25 {} else if j == 26 {} else if j == 27 {} else if j == 28 {} else if j == 29 {} else {}
}

/// The timeline label: the latest knockout round with a result; else "Pre" with no group
/// result, "Groups" with 72 or more, and otherwise "MD1", "MD2" or "MD3" (24 results a
/// matchday).
pub open spec fn stage_label_spec(rs: Seq<Result>) -> Seq<char> {
    match max_ko(rs) {
        Some(m) => round_label(m),
        None => {
            let c = group_played(rs);
            if c == 0 {
                seq!['P', 'r', 'e']
            } else if c >= 72 {
                seq!['G', 'r', 'o', 'u', 'p', 's']
            } else {
                let md = (c - 1) / 24 + 1;
                seq!['M', 'D'] + decimal(if md > 3 { 3 } else { md as nat })
            }
        },
    }
}

/// Whether a match id contains ':' (a group match).
pub fn id_has_colon(s: &str) -> (r: bool)
    ensures
        r == s@.contains(':'),
{
    let n = s.unicode_len();
    let mut i: usize = 0;
    while i < n
        invariant
            i <= n,
            n == s@.len(),
            forall|k: int| 0 <= k < i ==> s@[k] != ':',
        decreases n - i,
    {
        if s.get_char(i) == ':' {
            return true;
        }
        i = i + 1;
    }
    false
}

fn ko_number_of(s: &str) -> (r: Option<u32>)
    ensures
        r == ko_number(s@),
{
    let n = s.unicode_len();
    if n > 0 && s.get_char(0) == 'M' {
        let rest = s.substring_char(1, n);
        assert(rest@ =~= s@.drop_first());
        parse_u32(rest)
    } else {
        None
    }
}

fn append_lit(s: &mut String, lit: &str)
    ensures
        final(s)@ == old(s)@ + lit@,
{
    s.append(lit);
}

/// Short timeline label for the current state (see `stage_label_spec`).
pub fn stage_label(data: &Data) -> (r: String)
    ensures
        r@ == stage_label_spec(data.results@),
{
    let mut count: usize = 0;
    let mut best: Option<u32> = None;
    let mut i: usize = 0;
    while i < data.results.len()
        invariant
            i <= data.results@.len(),
            count == group_played(data.results@.take(i as int)),
            count <= i,
            best == max_ko(data.results@.take(i as int)),
        decreases data.results@.len() - i,
    {
        let id = data.results[i].match_id.as_str();
        assert(data.results@.take(i + 1).drop_last() =~= data.results@.take(i as int));
        if id_has_colon(id) {
            count = count + 1;
        }
        match ko_number_of(id) {
            Some(b) => {
                best = match best {
                    Some(a) => Some(if a >= b { a } else { b }),
                    None => Some(b),
                };
            },
            None => {},
        }
        i = i + 1;
    }
    assert(data.results@.take(i as int) =~= data.results@);
    let mut s = String::new();
    match best {
        Some(m) => {
            if 73 <= m && m <= 88 {
                proof { reveal_strlit("R32"); }
                append_lit(&mut s, "R32");
            } else if 89 <= m && m <= 96 {
                proof { reveal_strlit("R16"); }
                append_lit(&mut s, "R16");
            } else if 97 <= m && m <= 100 {
                proof { reveal_strlit("QF"); }
                append_lit(&mut s, "QF");
            } else if 101 <= m && m <= 102 {
                proof { reveal_strlit("SF"); }
                append_lit(&mut s, "SF");
            } else {
                proof { reveal_strlit("Final"); }
                append_lit(&mut s, "Final");
            }
        },
        None => {
            if count == 0 {
                proof { reveal_strlit("Pre"); }
                append_lit(&mut s, "Pre");
            } else if count >= 72 {
                proof { reveal_strlit("Groups"); }
                append_lit(&mut s, "Groups");
            } else {
                let md = (count - 1) / 24 + 1;
                proof { reveal_strlit("MD"); }
                append_lit(&mut s, "MD");
                push_decimal(&mut s, if md > 3 { 3 } else { md as u64 });
            }
        },
    }
    assert(s@ =~= stage_label_spec(data.results@));
    s
}

/// Per-team counts behind a snapshot: how many tournaments were simulated, and per team (by
/// code, in team order) how often it won the title and how often it reached the knockouts.
pub struct TeamCounts {
    pub sims: u64,
    pub champion: Vec<(String, u64)>,
    pub advance: Vec<(String, u64)>,
}

/// The snapshot of the current state: the signature and label of the results entered, their
/// number, and per team its title count and its knockout count (group winner, runner-up or
/// qualified third).
pub fn snapshot(data: &Data, t: &Tally) -> (s: Snapshot<TeamCounts>)
    requires
        t.wf(),
        t.consistent(),
        t.n <= data.teams@.len(),
    ensures
        exists|h: u64| s.sig@ == signature_spec(data.results@.len(), h),
        s.label@ == stage_label_spec(data.results@),
        s.results == data.results@.len(),
        s.shares.sims == t.sims,
        s.shares.champion@.len() == t.n,
        s.shares.advance@.len() == t.n,
        forall|i: int|
            0 <= i < t.n ==> (#[trigger] s.shares.champion@[i]).0@ == data.teams@[i].code@
                && s.shares.champion@[i].1 == t.champion@[i],
        forall|i: int|
            0 <= i < t.n ==> (#[trigger] s.shares.advance@[i]).0@ == data.teams@[i].code@
                && s.shares.advance@[i].1 == t.group_winner@[i] + t.runner_up@[i] + t.third_through@[i],
{
    let mut champion: Vec<(String, u64)> = Vec::new();
    let mut advance: Vec<(String, u64)> = Vec::new();
    let mut i: usize = 0;
    while i < t.n
        invariant
            i <= t.n,
            t.wf(),
            t.consistent(),
            t.n <= data.teams@.len(),
            champion@.len() == i,
            advance@.len() == i,
            forall|k: int|
                0 <= k < i ==> (#[trigger] champion@[k]).0@ == data.teams@[k].code@ && champion@[k].1
                    == t.champion@[k],
            forall|k: int|
                0 <= k < i ==> (#[trigger] advance@[k]).0@ == data.teams@[k].code@ && advance@[k].1
                    == t.group_winner@[k] + t.runner_up@[k] + t.third_through@[k],
        decreases t.n - i,
    {
        let code = data.teams[i].code.clone();
        let code2 = data.teams[i].code.clone();
        assert(t.group_winner@[i as int] + t.runner_up@[i as int] + t.third_through@[i as int] <= t.sims);
        champion.push((code, t.champion[i]));
        advance.push((code2, t.group_winner[i] + t.runner_up[i] + t.third_through[i]));
        i = i + 1;
    }
    Snapshot {
        sig: signature(data),
        label: stage_label(data),
        results: data.results.len(),
        shares: TeamCounts { sims: t.sims, champion, advance },
    }
}

} // verus!
