use vstd::prelude::*;

use crate::models::{image_url_spec, is_blank, tally_fits, with_tally, President, PresidentIndexItem};
use crate::persist::{lemma_record_round_trip, parse_record, parse_record_spec, record_line, render_record};
use crate::slug::slug_spec;

verus! {

/// The mathematical picture of the store: its entries, each a slug and its candidate,
/// in the order in which the slugs first came in.
pub type Table = Seq<(Seq<char>, President)>;

/// The slugs of a table, in order.
pub open spec fn keys(t: Table) -> Seq<Seq<char>> {
    t.map_values(|e: (Seq<char>, President)| e.0)
}

/// The character sequences of a sequence of strings.
pub open spec fn views_of(v: Seq<String>) -> Seq<Seq<char>> {
    v.map_values(|s: String| s@)
}

/// Slugs are unique and every score fits in an `isize`.
pub open spec fn table_wf(t: Table) -> bool {
    &&& keys(t).no_duplicates()
    &&& forall|i: int| 0 <= i < t.len() ==> tally_fits(#[trigger] t[i].1)
}

/// The position of slug `s` in `t` (meaningful when `t` holds it).
pub open spec fn slot(t: Table, s: Seq<char>) -> int {
    keys(t).index_of(s)
}

/// The candidate stored under `s`, if any.
pub open spec fn lookup(t: Table, s: Seq<char>) -> Option<President> {
    if keys(t).contains(s) {
        Some(t[slot(t, s)].1)
    } else {
        None
    }
}

/// Inserts `p` under `s` with zero counters, or replaces the descriptive fields of
/// the candidate already there and keeps its counters.
pub open spec fn upsert_spec(t: Table, s: Seq<char>, p: President) -> Table {
    if keys(t).contains(s) {
        let i = slot(t, s);
        t.update(i, (s, with_tally(p, t[i].1.hot, t[i].1.not)))
    } else {
        t.push((s, with_tally(p, 0, 0)))
    }
}

/// Upserts each candidate of `batch`, in order, under the slug of its name.
pub open spec fn merge_spec(t: Table, batch: Seq<President>) -> Table
    decreases batch.len(),
{
    if batch.len() == 0 {
        t
    } else {
        upsert_spec(
            merge_spec(t, batch.drop_last()),
            slug_spec(batch.last().name@),
            batch.last(),
        )
    }
}

/// The counters that the last record for `s` in `recs` carries, if any record is for `s`.
pub open spec fn last_record(recs: Seq<(Seq<char>, nat, nat)>, s: Seq<char>) -> Option<(nat, nat)>
    decreases recs.len(),
{
    if recs.len() == 0 {
        None
    } else if recs.last().0 == s {
        Some((recs.last().1, recs.last().2))
    } else {
        last_record(recs.drop_last(), s)
    }
}

/// The records that the well-formed lines among `lines` hold, in order.
pub open spec fn records_of(lines: Seq<String>) -> Seq<(Seq<char>, nat, nat)>
    decreases lines.len(),
{
    if lines.len() == 0 {
        Seq::<(Seq<char>, nat, nat)>::empty()
    } else {
        let front = records_of(lines.drop_last());
        match parse_record_spec(lines.last()@) {
            Some(r) => front.push(r),
            None => front,
        }
    }
}

/// `t2` is `t` after the counters of `recs` were set, one record after another: the slugs
/// of `t` stay in place with their descriptive fields, a new slug comes in as a blank
/// placeholder, and each slug carries the counters of its last record, or else its own.
pub open spec fn loaded(t: Table, recs: Seq<(Seq<char>, nat, nat)>, t2: Table) -> bool {
    &&& t.len() <= t2.len()
    &&& forall|i: int| 0 <= i < t.len() ==> #[trigger] t2[i].0 == t[i].0
    &&& forall|i: int| 0 <= i < t.len() ==> with_tally(t[i].1, t2[i].1.hot, t2[i].1.not) == #[trigger] t2[i].1
    &&& forall|i: int| t.len() <= i < t2.len() ==> is_blank(#[trigger] t2[i].1)
    &&& forall|i: int| t.len() <= i < t2.len() ==> #[trigger] last_record(recs, t2[i].0) is Some
    &&& forall|k: int| 0 <= k < recs.len() ==> keys(t2).contains(#[trigger] recs[k].0)
    &&& forall|i: int| 0 <= i < t2.len() ==> match #[trigger] last_record(recs, t2[i].0) {
        Some((h, n)) => t2[i].1.hot == h && t2[i].1.not == n,
        None => t2[i].1.hot == t[i].1.hot && t2[i].1.not == t[i].1.not,
    }
}

/// The two directions of a vote.
#[derive(Clone, Copy, Debug, PartialEq, Eq, Structural)]
pub enum Vote {
    Hot,
    Not,
}

/// Why a vote was not counted.
#[derive(Clone, Copy, Debug, PartialEq, Eq, Structural)]
pub enum VoteError {
    /// No candidate has this slug.
    NotFound,
    /// The counter is at the largest value whose score still fits in an `isize`.
    Overflow,
}

/// `p` after one vote in direction `v`.
pub open spec fn vote_spec(p: President, v: Vote) -> President {
    match v {
        Vote::Hot => with_tally(p, (p.hot + 1) as usize, p.not),
        Vote::Not => with_tally(p, p.hot, (p.not + 1) as usize),
    }
}

/// Whether the counter that a vote in direction `v` raises can still be raised.
pub open spec fn vote_fits(p: President, v: Vote) -> bool {
    match v {
        Vote::Hot => p.hot < isize::MAX,
        Vote::Not => p.not < isize::MAX,
    }
}

/// `t` after a counted vote in direction `v` for the candidate under `s`.
pub open spec fn cast_spec(t: Table, s: Seq<char>, v: Vote) -> Table {
    t.update(slot(t, s), (s, vote_spec(t[slot(t, s)].1, v)))
}

/// The vote named by a label: "hot" or "not".
pub open spec fn vote_label(s: Seq<char>) -> Option<Vote> {
    if s == seq!['h', 'o', 't'] {
        Some(Vote::Hot)
    } else if s == seq!['n', 'o', 't'] {
        Some(Vote::Not)
    } else {
        None
    }
}

impl Vote {
    /// Reads a vote direction from its label.
    pub fn from_label(s: &str) -> (r: Option<Vote>)
        ensures
            r == vote_label(s@),
    {
        let label = s.to_owned();
        let hot = "hot".to_owned();
        let not = "not".to_owned();
        proof {
            reveal_strlit("hot");
            reveal_strlit("not");
            assert("hot"@ =~= seq!['h', 'o', 't']);
            assert("not"@ =~= seq!['n', 'o', 't']);
        }
        if label == hot {
            Some(Vote::Hot)
        } else if label == not {
            Some(Vote::Not)
        } else {
            None
        }
    }
}

/// The last candidate of `batch` whose name has slug `s`, if any.
pub open spec fn last_named(batch: Seq<President>, s: Seq<char>) -> Option<President>
    decreases batch.len(),
{
    if batch.len() == 0 {
        None
    } else if slug_spec(batch.last().name@) == s {
        Some(batch.last())
    } else {
        last_named(batch.drop_last(), s)
    }
}

/// In a table whose slugs are unique, the slot of the slug at `i` is `i`.
proof fn lemma_slot_unique(t: Table, i: int)
    requires
        keys(t).no_duplicates(),
        0 <= i < t.len(),
    ensures
        keys(t)[i] == t[i].0,
        keys(t).contains(t[i].0),
        slot(t, t[i].0) == i,
{
    assert(keys(t)[i] == t[i].0);
    let j = slot(t, t[i].0);
    assert(keys(t)[j] == t[i].0);
}

/// A merge removes nothing and keeps every slug in its place: each slug held before keeps
/// its counters, and takes the descriptive fields of the last fetched candidate with that
/// slug, or keeps its own where the batch has none. Every fetched slug is held after the
/// merge, and slugs stay unique.
pub proof fn lemma_merge_entries(t: Table, batch: Seq<President>)
    requires
        keys(t).no_duplicates(),
    ensures
        merge_spec(t, batch).len() >= t.len(),
        keys(merge_spec(t, batch)).no_duplicates(),
        forall|k: int| 0 <= k < batch.len() ==> keys(merge_spec(t, batch)).contains(
            slug_spec(#[trigger] batch[k].name@),
        ),
        forall|i: int| 0 <= i < t.len() ==> (#[trigger] merge_spec(t, batch)[i]).0 == t[i].0,
        forall|i: int| 0 <= i < t.len() ==> (#[trigger] merge_spec(t, batch)[i]).1 == match last_named(
            batch,
            t[i].0,
        ) {
            Some(p) => with_tally(p, t[i].1.hot, t[i].1.not),
            None => t[i].1,
        },
    decreases batch.len(),
{
    if batch.len() > 0 {
        let front = batch.drop_last();
        lemma_merge_entries(t, front);
        let m0 = merge_spec(t, front);
        let p = batch.last();
        let s = slug_spec(p.name@);
        let m = merge_spec(t, batch);
        assert(m == upsert_spec(m0, s, p));
        if keys(m0).contains(s) {
            let j = slot(m0, s);
            assert(keys(m0)[j] == s);
            assert(keys(m) =~= keys(m0));
            assert(m[j].0 == s);
        } else {
            assert(keys(m) =~= keys(m0).push(s));
            assert(keys(m)[m0.len() as int] == s);
        }
        assert forall|k: int| 0 <= k < batch.len() implies keys(m).contains(
            slug_spec(#[trigger] batch[k].name@),
        ) by {
            if k < front.len() {
                assert(front[k] == batch[k]);
                let q = slug_spec(batch[k].name@);
                assert(keys(m0).contains(q));
                let a = choose|a: int| 0 <= a < keys(m0).len() && keys(m0)[a] == q;
                assert(keys(m)[a] == q);
            } else {
                assert(batch[k] == p);
                if keys(m0).contains(s) {
                    assert(m[slot(m0, s)].0 == s);
                    assert(keys(m)[slot(m0, s)] == s);
                }
            }
        }
        assert forall|i: int| 0 <= i < t.len() implies (#[trigger] m[i]).0 == t[i].0 && m[i].1 == match last_named(batch, t[i].0) {
            Some(q) => with_tally(q, t[i].1.hot, t[i].1.not),
            None => t[i].1,
        } by {
            assert(m0[i].0 == t[i].0);
            lemma_slot_unique(m0, i);
            if s == t[i].0 {
                assert(slot(m0, s) == i);
                assert(last_named(batch, t[i].0) == Some(p));
                assert(m0[i].1.hot == t[i].1.hot && m0[i].1.not == t[i].1.not);
            } else {
                assert(last_named(batch, t[i].0) == last_named(front, t[i].0));
                if keys(m0).contains(s) {
                    let j = slot(m0, s);
                    assert(keys(m0)[j] == s);
                    assert(j != i);
                }
                assert(m[i] == m0[i]);
            }
        }
    }
}

/// Two merges in turn are one merge of the two batches, one after the other; so what
/// holds of one merge holds of any sequence of merges.
pub proof fn lemma_merge_concat(t: Table, b1: Seq<President>, b2: Seq<President>)
    ensures
        merge_spec(merge_spec(t, b1), b2) == merge_spec(t, b1 + b2),
    decreases b2.len(),
{
    if b2.len() == 0 {
        assert(b1 + b2 =~= b1);
    } else {
        lemma_merge_concat(t, b1, b2.drop_last());
        assert((b1 + b2).drop_last() =~= b1 + b2.drop_last());
        assert((b1 + b2).last() == b2.last());
    }
}

/// Votes in turn for two different candidates are both counted, in either order.
pub proof fn lemma_votes_distinct(t: Table, s1: Seq<char>, v1: Vote, s2: Seq<char>, v2: Vote)
    requires
        keys(t).no_duplicates(),
        keys(t).contains(s1),
        keys(t).contains(s2),
        s1 != s2,
    ensures
        lookup(cast_spec(cast_spec(t, s1, v1), s2, v2), s1) == Some(vote_spec(lookup(t, s1)->0, v1)),
        lookup(cast_spec(cast_spec(t, s1, v1), s2, v2), s2) == Some(vote_spec(lookup(t, s2)->0, v2)),
        cast_spec(cast_spec(t, s1, v1), s2, v2) == cast_spec(cast_spec(t, s2, v2), s1, v1),
{
    let i1 = slot(t, s1);
    let i2 = slot(t, s2);
    assert(keys(t)[i1] == s1);
    assert(keys(t)[i2] == s2);
    let a = cast_spec(t, s1, v1);
    let b = cast_spec(t, s2, v2);
    assert(keys(a) =~= keys(t));
    assert(keys(b) =~= keys(t));
    lemma_slot_unique(t, i1);
    lemma_slot_unique(t, i2);
    lemma_slot_unique(a, i2);
    lemma_slot_unique(b, i1);
    let ab = cast_spec(a, s2, v2);
    let ba = cast_spec(b, s1, v1);
    assert(keys(ab) =~= keys(t));
    lemma_slot_unique(ab, i1);
    lemma_slot_unique(ab, i2);
    assert(ab =~= ba);
}

/// Two votes in turn for one candidate both count.
pub proof fn lemma_votes_same(t: Table, s: Seq<char>, v1: Vote, v2: Vote)
    requires
        keys(t).no_duplicates(),
        keys(t).contains(s),
    ensures
        lookup(cast_spec(cast_spec(t, s, v1), s, v2), s) == Some(
            vote_spec(vote_spec(lookup(t, s)->0, v1), v2),
        ),
{
    let i = slot(t, s);
    assert(keys(t)[i] == s);
    lemma_slot_unique(t, i);
    let a = cast_spec(t, s, v1);
    assert(keys(a) =~= keys(t));
    lemma_slot_unique(a, i);
    let b = cast_spec(a, s, v2);
    assert(keys(b) =~= keys(t));
    lemma_slot_unique(b, i);
}

/// `p` after the votes of `vs`, one after another.
pub open spec fn apply_votes(p: President, vs: Seq<Vote>) -> President
    decreases vs.len(),
{
    if vs.len() == 0 {
        p
    } else {
        vote_spec(apply_votes(p, vs.drop_last()), vs.last())
    }
}

/// How many of the votes of `vs` go in direction `v`.
pub open spec fn count_votes(vs: Seq<Vote>, v: Vote) -> nat
    decreases vs.len(),
{
    if vs.len() == 0 {
        0
    } else {
        count_votes(vs.drop_last(), v) + if vs.last() == v {
            1nat
        } else {
            0nat
        }
    }
}

/// After a run of votes, each counter has grown by the number of votes in its direction,
/// so from zero the score is the "hot" votes less the "not" votes; nothing else changes.
pub proof fn lemma_vote_score(p: President, vs: Seq<Vote>)
    requires
        p.hot + vs.len() <= usize::MAX,
        p.not + vs.len() <= usize::MAX,
    ensures
        apply_votes(p, vs).hot == p.hot + count_votes(vs, Vote::Hot),
        apply_votes(p, vs).not == p.not + count_votes(vs, Vote::Not),
        apply_votes(p, vs) == with_tally(p, apply_votes(p, vs).hot, apply_votes(p, vs).not),
        apply_votes(p, vs).hot - apply_votes(p, vs).not == p.hot - p.not + count_votes(vs, Vote::Hot)
            - count_votes(vs, Vote::Not),
    decreases vs.len(),
{
    if vs.len() > 0 {
        lemma_vote_count_bound(vs.drop_last(), Vote::Hot);
        lemma_vote_count_bound(vs.drop_last(), Vote::Not);
        lemma_vote_score(p, vs.drop_last());
    }
}

/// No more votes go in one direction than there are votes.
proof fn lemma_vote_count_bound(vs: Seq<Vote>, v: Vote)
    ensures
        count_votes(vs, v) <= vs.len(),
    decreases vs.len(),
{
    if vs.len() > 0 {
        lemma_vote_count_bound(vs.drop_last(), v);
    }
}

/// The records that the snapshot lines of `t` hold are its slugs with their counters.
proof fn lemma_records_of_snapshot(t: Table, lines: Seq<String>)
    requires
        lines.len() == t.len(),
        forall|i: int| 0 <= i < t.len() ==> tally_fits(#[trigger] t[i].1),
        forall|i: int, k: int| 0 <= i < t.len() && 0 <= k < t[i].0.len() ==> #[trigger] t[i].0[k] != ',',
        forall|i: int| 0 <= i < t.len() ==> #[trigger] lines[i]@ == record_line(
            t[i].0,
            t[i].1.hot as nat,
            t[i].1.not as nat,
        ),
    ensures
        records_of(lines) == Seq::new(
            t.len(),
            |i: int| (t[i].0, t[i].1.hot as nat, t[i].1.not as nat),
        ),
    decreases lines.len(),
{
    let r = Seq::new(t.len(), |i: int| (t[i].0, t[i].1.hot as nat, t[i].1.not as nat));
    if lines.len() > 0 {
        let n = lines.len() - 1;
        let t0 = t.drop_last();
        let l0 = lines.drop_last();
        assert forall|i: int| 0 <= i < t0.len() implies #[trigger] l0[i]@ == record_line(
            t0[i].0,
            t0[i].1.hot as nat,
            t0[i].1.not as nat,
        ) by {
            assert(l0[i] == lines[i]);
            assert(t0[i] == t[i]);
        }
        assert forall|i: int| 0 <= i < t0.len() implies tally_fits(#[trigger] t0[i].1) by {
            assert(t0[i] == t[i]);
        }
        assert forall|i: int, k: int| 0 <= i < t0.len() && 0 <= k < t0[i].0.len() implies #[trigger] t0[i].0[k] != ',' by {
            assert(t0[i] == t[i]);
        }
        lemma_records_of_snapshot(t0, l0);
        assert(tally_fits(t[n].1));
        assert forall|k: int| 0 <= k < t[n].0.len() implies t[n].0[k] != ',' by {
            assert(t[n].0[k] != ',');
        }
        lemma_record_round_trip(t[n].0, t[n].1.hot as nat, t[n].1.not as nat);
        assert(lines.last()@ == record_line(t[n].0, t[n].1.hot as nat, t[n].1.not as nat));
        assert(records_of(lines) =~= r);
    } else {
        assert(records_of(lines) =~= r);
    }
}

/// With distinct slugs, the last record for the slug of record `i` is record `i`.
proof fn lemma_last_record_distinct(r: Seq<(Seq<char>, nat, nat)>, i: int)
    requires
        0 <= i < r.len(),
        forall|a: int, b: int| 0 <= a < r.len() && 0 <= b < r.len() && a != b ==> r[a].0 != r[b].0,
    ensures
        last_record(r, r[i].0) == Some((r[i].1, r[i].2)),
    decreases r.len(),
{
    if i < r.len() - 1 {
        let r0 = r.drop_last();
        assert(r0[i] == r[i]);
        assert(r.last().0 != r[i].0);
        lemma_last_record_distinct(r0, i);
    }
}

/// Loading the snapshot lines of a store into a store restores, for every slug of the
/// first, the counters that were written.
pub proof fn lemma_snapshot_load(t: Table, lines: Seq<String>, b: Table, b2: Table)
    requires
        table_wf(t),
        table_wf(b2),
        forall|i: int, k: int| 0 <= i < t.len() && 0 <= k < t[i].0.len() ==> #[trigger] t[i].0[k] != ',',
        lines.len() == t.len(),
        forall|i: int| 0 <= i < lines.len() ==> #[trigger] lines[i]@ == record_line(
            t[i].0,
            t[i].1.hot as nat,
            t[i].1.not as nat,
        ),
        loaded(b, records_of(lines), b2),
    ensures
        forall|i: int| 0 <= i < t.len() ==> (#[trigger] lookup(b2, t[i].0) matches Some(p) && p.hot
            == t[i].1.hot && p.not == t[i].1.not),
{
    lemma_records_of_snapshot(t, lines);
    let r = records_of(lines);
    assert forall|a: int, c: int| 0 <= a < r.len() && 0 <= c < r.len() && a != c implies r[a].0 != r[c].0 by {
        assert(keys(t)[a] == t[a].0);
        assert(keys(t)[c] == t[c].0);
    }
    assert forall|i: int| 0 <= i < t.len() implies (#[trigger] lookup(b2, t[i].0) matches Some(p)
        && p.hot == t[i].1.hot && p.not == t[i].1.not) by {
        lemma_last_record_distinct(r, i);
        assert(r[i].0 == t[i].0);
        assert(keys(b2).contains(r[i].0));
        let j = slot(b2, t[i].0);
        assert(keys(b2)[j] == t[i].0);
        assert(b2[j].0 == t[i].0);
        assert(last_record(r, b2[j].0) == Some((t[i].1.hot as nat, t[i].1.not as nat)));
    }
}

/// Slugs mapped to candidates, with the vote counters.
pub struct Presidents {
    slugs: Vec<String>,
    items: Vec<President>,
}

impl View for Presidents {
    type V = Table;

    closed spec fn view(&self) -> Table {
        Seq::new(self.items@.len(), |i: int| (self.slugs@[i]@, self.items@[i]))
    }
}

impl Presidents {
    /// The store's internal invariant.
    pub closed spec fn wf(&self) -> bool {
        &&& self.slugs@.len() == self.items@.len()
        &&& table_wf(self@)
    }

    /// What the internal invariant gives to callers.
    pub proof fn lemma_wf(&self)
        requires
            self.wf(),
        ensures
            table_wf(self@),
    {
    }

    /// An empty store.
    pub fn new() -> (r: Presidents)
        ensures
            r.wf(),
            r@ == Seq::<(Seq<char>, President)>::empty(),
    {
        let r = Presidents { slugs: Vec::new(), items: Vec::new() };
        assert(r@ =~= Seq::<(Seq<char>, President)>::empty());
        r
    }

    /// The number of candidates.
    pub fn len(&self) -> (r: usize)
        requires
            self.wf(),
        ensures
            r == self@.len(),
    {
        self.items.len()
    }

    /// The position of `slug`, or `None` where the store does not hold it.
    pub fn find(&self, slug: &str) -> (r: Option<usize>)
        requires
            self.wf(),
        ensures
            match r {
                Some(i) => keys(self@).contains(slug@) && i == slot(self@, slug@),
                None => !keys(self@).contains(slug@),
            },
    {
        let key = slug.to_owned();
        let mut i: usize = 0;
        while i < self.slugs.len()
            invariant
                self.wf(),
                key@ == slug@,
                i <= self.slugs@.len(),
                forall|k: int| 0 <= k < i ==> keys(self@)[k] != slug@,
            decreases self.slugs@.len() - i,
        {
            if self.slugs[i] == key {
                proof {
                    assert(keys(self@)[i as int] == slug@);
                    assert(keys(self@).contains(slug@));
                    let j = slot(self@, slug@);
                    assert(keys(self@)[j] == slug@);
                }
                return Some(i);
            }
            i = i + 1;
        }
        proof {
            if keys(self@).contains(slug@) {
                let j = keys(self@).index_of(slug@);
                assert(keys(self@)[j] == slug@);
            }
        }
        None
    }

    /// The candidate stored under `slug`, or `None`.
    pub fn get(&self, slug: &str) -> (r: Option<&President>)
        requires
            self.wf(),
        ensures
            match r {
                Some(p) => lookup(self@, slug@) == Some(*p),
                None => lookup(self@, slug@) is None,
            },
    {
        match self.find(slug) {
            Some(i) => Some(&self.items[i]),
            None => None,
        }
    }

    /// Stores `p` under `slug`: a new slug gets zero counters, an existing one keeps its
    /// counters and takes every descriptive field of `p`.
    pub fn upsert(&mut self, slug: String, p: President)
        requires
            old(self).wf(),
        ensures
            final(self).wf(),
            final(self)@ == upsert_spec(old(self)@, slug@, p),
    {
        let mut p = p;
        match self.find(slug.as_str()) {
            Some(i) => {
                p.hot = self.items[i].hot;
                p.not = self.items[i].not;
                self.items.set(i, p);
                proof {
                    let t = old(self)@;
                    assert(self@ =~= t.update(i as int, (slug@, with_tally(p, t[i as int].1.hot, t[i as int].1.not))));
                    assert(keys(self@) =~= keys(t));
                }
            },
            None => {
                p.hot = 0;
                p.not = 0;
                self.slugs.push(slug);
                self.items.push(p);
                proof {
                    let t = old(self)@;
                    assert(self@ =~= t.push((slug@, with_tally(p, 0, 0))));
                    assert(keys(self@) =~= keys(t).push(slug@));
                }
            },
        }
    }


    /// Counts one vote for the candidate under `slug`.
    pub fn cast_vote(&mut self, slug: &str, vote: Vote) -> (r: Result<(), VoteError>)
        requires
            old(self).wf(),
        ensures
            final(self).wf(),
            !keys(old(self)@).contains(slug@) ==> r == Err::<(), VoteError>(VoteError::NotFound)
                && final(self)@ == old(self)@,
            keys(old(self)@).contains(slug@) && !vote_fits(old(self)@[slot(old(self)@, slug@)].1, vote)
                ==> r == Err::<(), VoteError>(VoteError::Overflow) && final(self)@ == old(self)@,
            keys(old(self)@).contains(slug@) && vote_fits(old(self)@[slot(old(self)@, slug@)].1, vote)
                ==> r == Ok::<(), VoteError>(()) && final(self)@ == cast_spec(old(self)@, slug@, vote),
    {
        match self.find(slug) {
            None => Err(VoteError::NotFound),
            Some(i) => {
                let hot = self.items[i].hot;
                let not = self.items[i].not;
                match vote {
                    Vote::Hot => {
                        if hot >= isize::MAX as usize {
                            return Err(VoteError::Overflow);
                        }
                    },
                    Vote::Not => {
                        if not >= isize::MAX as usize {
                            return Err(VoteError::Overflow);
                        }
                    },
                }
                let mut p = self.items.remove(i);
                match vote {
                    Vote::Hot => p.hot_vote(),
                    Vote::Not => p.not_vote(),
                }
                self.items.insert(i, p);
                proof {
                    let t = old(self)@;
                    assert(self.items@ =~= old(self).items@.update(i as int, vote_spec(old(self).items@[i as int], vote)));
                    assert(self@ =~= t.update(i as int, (slug@, vote_spec(t[i as int].1, vote))));
                    assert(keys(self@) =~= keys(t));
                }
                Ok(())
            },
        }
    }


    /// The slugs in store order.
    pub fn slugs_cloned(&self) -> (r: Vec<String>)
        requires
            self.wf(),
        ensures
            views_of(r@) == keys(self@),
    {
        let mut out: Vec<String> = Vec::new();
        let mut i: usize = 0;
        while i < self.slugs.len()
            invariant
                self.wf(),
                i <= self@.len(),
                out@.len() == i,
                forall|k: int| 0 <= k < i ==> #[trigger] out@[k]@ == self.slugs@[k]@,
            decreases self@.len() - i,
        {
            out.push(self.slugs[i].clone());
            i = i + 1;
        }
        assert forall|k: int| 0 <= k < out@.len() implies views_of(out@)[k] == #[trigger] keys(self@)[k] by {
            assert(self@[k].0 == self.slugs@[k]@);
        }
        assert(views_of(out@) =~= keys(self@));
        out
    }

    /// Sets the counters of `slug`; an unknown slug comes in as a blank placeholder.
    pub fn set_tally(&mut self, slug: String, hot: usize, not: usize)
        requires
            old(self).wf(),
            hot <= isize::MAX,
            not <= isize::MAX,
        ensures
            final(self).wf(),
            keys(old(self)@).contains(slug@) ==> final(self)@ == old(self)@.update(
                slot(old(self)@, slug@),
                (slug@, with_tally(old(self)@[slot(old(self)@, slug@)].1, hot, not)),
            ),
            !keys(old(self)@).contains(slug@) ==> {
                &&& final(self)@.len() == old(self)@.len() + 1
                &&& final(self)@.drop_last() == old(self)@
                &&& final(self)@.last().0 == slug@
                &&& is_blank(final(self)@.last().1)
                &&& final(self)@.last().1.hot == hot
                &&& final(self)@.last().1.not == not
            },
    {
        match self.find(slug.as_str()) {
            Some(i) => {
                let mut p = self.items.remove(i);
                p.hot = hot;
                p.not = not;
                self.items.insert(i, p);
                proof {
                    let t = old(self)@;
                    assert(self.items@ =~= old(self).items@.update(i as int, with_tally(old(self).items@[i as int], hot, not)));
                    assert(self@ =~= t.update(i as int, (slug@, with_tally(t[i as int].1, hot, not))));
                    assert(keys(self@) =~= keys(t));
                }
            },
            None => {
                let mut p = President::default();
                p.hot = hot;
                p.not = not;
                self.slugs.push(slug);
                self.items.push(p);
                proof {
                    let t = old(self)@;
                    assert(self@ =~= t.push((slug@, p)));
                    assert(self@.drop_last() =~= t);
                    assert(keys(self@) =~= keys(t).push(slug@));
                }
            },
        }
    }

    /// The snapshot lines of the store, one `slug,hot,not` line per candidate, in order.
    pub fn snapshot(&self) -> (r: Vec<String>)
        requires
            self.wf(),
        ensures
            r@.len() == self@.len(),
            forall|i: int| 0 <= i < r@.len() ==> #[trigger] r@[i]@ == record_line(
                self@[i].0,
                self@[i].1.hot as nat,
                self@[i].1.not as nat,
            ),
    {
        let mut out: Vec<String> = Vec::new();
        let mut i: usize = 0;
        while i < self.items.len()
            invariant
                self.wf(),
                i <= self@.len(),
                out@.len() == i,
                forall|k: int| 0 <= k < i ==> #[trigger] out@[k]@ == record_line(
                    self@[k].0,
                    self@[k].1.hot as nat,
                    self@[k].1.not as nat,
                ),
            decreases self@.len() - i,
        {
            let line = render_record(self.slugs[i].as_str(), self.items[i].hot, self.items[i].not);
            out.push(line);
            i = i + 1;
        }
        out
    }

    /// Sets the counters of each well-formed snapshot line in turn, and returns how many
    /// lines were skipped as malformed.
    pub fn load(&mut self, lines: &Vec<String>) -> (skipped: usize)
        requires
            old(self).wf(),
        ensures
            final(self).wf(),
            loaded(old(self)@, records_of(lines@), final(self)@),
            skipped == lines@.len() - records_of(lines@).len(),
    {
        let mut k: usize = 0;
        let mut skipped: usize = 0;
        assert(lines@.subrange(0, 0) =~= Seq::<String>::empty());
        while k < lines.len()
            invariant
                self.wf(),
                k <= lines@.len(),
                loaded(old(self)@, records_of(lines@.subrange(0, k as int)), self@),
                skipped == k - records_of(lines@.subrange(0, k as int)).len(),
                records_of(lines@.subrange(0, k as int)).len() <= k,
            decreases lines@.len() - k,
        {
            let ghost pre = lines@.subrange(0, k as int);
            let ghost t = self@;
            proof {
                assert(lines@.subrange(0, k as int + 1).drop_last() =~= pre);
                assert(lines@.subrange(0, k as int + 1).last() == lines@[k as int]);
            }
            match parse_record(lines[k].as_str()) {
                Some(rec) => {
                    self.set_tally(rec.slug, rec.hot, rec.not);
                    proof {
                        let recs = records_of(pre);
                        let r = (rec.slug@, rec.hot as nat, rec.not as nat);
                        let recs2 = recs.push(r);
                        assert(records_of(lines@.subrange(0, k as int + 1)) == recs2);
                        assert(recs2.drop_last() =~= recs);
                        let o = old(self)@;
                        let t2 = self@;
                        assert forall|i: int| 0 <= i < t2.len() implies match #[trigger] last_record(recs2, t2[i].0) {
                            Some((h, n)) => t2[i].1.hot == h && t2[i].1.not == n,
                            None => t2[i].1.hot == o[i].1.hot && t2[i].1.not == o[i].1.not,
                        } by {
                            assert(recs2.last() == r);
                            if t2[i].0 == r.0 {
                                assert(last_record(recs2, r.0) == Some((r.1, r.2)));
                                if keys(t).contains(r.0) {
                                    let j = slot(t, r.0);
                                    assert(keys(t2)[j] == r.0);
                                    assert(keys(t2)[i] == r.0);
                                    assert(i == j);
                                } else {
                                    assert(keys(t2)[t.len() as int] == r.0);
                                    assert(keys(t2)[i] == r.0);
                                    assert(i == t.len());
                                }
                            } else {
                                assert(last_record(recs2, t2[i].0) == last_record(recs, t2[i].0));
                                if keys(t).contains(r.0) {
                                    assert(i < t.len());
                                    assert(i != slot(t, r.0));
                                } else {
                                    assert(i < t.len());
                                    assert(t2[i] == t.push(t2.last())[i]);
                                }
                                assert(t2[i] == t[i]);
                                assert(match last_record(recs, t[i].0) {
                                    Some((h, n)) => t[i].1.hot == h && t[i].1.not == n,
                                    None => t[i].1.hot == o[i].1.hot && t[i].1.not == o[i].1.not,
                                });
                            }
                        }
                        assert forall|i: int| o.len() <= i < t2.len() implies #[trigger] last_record(recs2, t2[i].0) is Some by {
                            if t2[i].0 != r.0 {
                                assert(t2[i] == t[i]);
                                assert(last_record(recs, t[i].0) is Some);
                            }
                        }
                        assert forall|m: int| 0 <= m < recs2.len() implies keys(t2).contains(#[trigger] recs2[m].0) by {
                            if m < recs.len() {
                                assert(recs2[m] == recs[m]);
                                assert(keys(t).contains(recs[m].0));
                                let j = choose|j: int| 0 <= j < keys(t).len() && keys(t)[j] == recs[m].0;
                                assert(keys(t2)[j] == recs[m].0);
                            } else {
                                let j = if keys(t).contains(r.0) { slot(t, r.0) } else { t.len() as int };
                                assert(keys(t2)[j] == r.0);
                            }
                        }
                        assert(t.len() <= t2.len());
                        assert forall|i: int| 0 <= i < o.len() implies #[trigger] t2[i].0 == o[i].0
                            && with_tally(o[i].1, t2[i].1.hot, t2[i].1.not) == t2[i].1 by {
                            assert(t[i].0 == o[i].0);
                            assert(with_tally(o[i].1, t[i].1.hot, t[i].1.not) == t[i].1);
                            if keys(t).contains(r.0) {
                                let j = slot(t, r.0);
                                assert(keys(t)[j] == r.0);
                                if i != j {
                                    assert(t2[i] == t[i]);
                                }
                            } else {
                                assert(t2[i] == t.push(t2.last())[i]);
                            }
                        }
                        assert forall|i: int| o.len() <= i < t2.len() implies is_blank(#[trigger] t2[i].1) by {
                            if i < t.len() {
                                assert(is_blank(t[i].1));
                                if keys(t).contains(r.0) {
                                    let j = slot(t, r.0);
                                    if i != j {
                                        assert(t2[i] == t[i]);
                                    }
                                } else {
                                    assert(t2[i] == t.push(t2.last())[i]);
                                }
                            } else {
                                assert(!keys(t).contains(r.0));
                                assert(t2[i] == t2.last());
                            }
                        }
                        assert(forall|i: int| 0 <= i < o.len() ==> #[trigger] t2[i].0 == o[i].0);
                        assert forall|i: int| 0 <= i < o.len() implies with_tally(o[i].1, t2[i].1.hot, t2[i].1.not) == #[trigger] t2[i].1 by {
                            assert(t2[i].0 == o[i].0);
                        }
                        assert(loaded(o, recs2, t2));
                    }
                },
                None => {
                    skipped = skipped + 1;
                    assert(records_of(lines@.subrange(0, k as int + 1)) == records_of(pre));
                },
            }
            k = k + 1;
        }
        assert(lines@.subrange(0, lines@.len() as int) =~= lines@);
        skipped
    }

    /// Upserts each fetched candidate in turn under the slug of its name. Nothing is
    /// removed, and the counters of a slug already held are kept.
    pub fn merge(&mut self, batch: Vec<President>)
        requires
            old(self).wf(),
        ensures
            final(self).wf(),
            final(self)@ == merge_spec(old(self)@, batch@),
    {
        let ghost all = batch@;
        let mut rest = batch;
        let mut k: usize = 0;
        let n = rest.len();
        while rest.len() > 0
            invariant
                self.wf(),
                0 <= k <= n == all.len(),
                rest@ == all.subrange(k as int, n as int),
                self@ == merge_spec(old(self)@, all.subrange(0, k as int)),
            decreases rest@.len(),
        {
            let p = rest.remove(0);
            let slug = p.short_name();
            self.upsert(slug, p);
            proof {
                let pre = all.subrange(0, k as int + 1);
                assert(pre.drop_last() =~= all.subrange(0, k as int));
                assert(pre.last() == p);
            }
            k = k + 1;
            assert(rest@ =~= all.subrange(k as int, n as int));
        }
        assert(all.subrange(0, n as int) =~= all);
    }
}

/// The rows of the index page, one per candidate, in store order.
pub fn to_index_items(p: &Presidents) -> (r: Vec<PresidentIndexItem>)
    requires
        p.wf(),
    ensures
        r@.len() == p@.len(),
        forall|i: int| 0 <= i < r@.len() ==> {
            let c = #[trigger] p@[i].1;
            &&& r@[i].name@ == c.name@
            &&& r@[i].short_name@ == slug_spec(c.name@)
            &&& r@[i].score == c.hot - c.not
            &&& r@[i].image_url@ == image_url_spec(c)
        },
{
    let mut out: Vec<PresidentIndexItem> = Vec::new();
    let mut i: usize = 0;
    while i < p.items.len()
        invariant
            p.wf(),
            i <= p@.len(),
            out@.len() == i,
            forall|k: int| 0 <= k < i ==> {
                let c = #[trigger] p@[k].1;
                &&& out@[k].name@ == c.name@
                &&& out@[k].short_name@ == slug_spec(c.name@)
                &&& out@[k].score == c.hot - c.not
                &&& out@[k].image_url@ == image_url_spec(c)
            },
        decreases p@.len() - i,
    {
        assert(tally_fits(p@[i as int].1));
        out.push(p.items[i].template_item());
        i = i + 1;
    }
    out
}

} // verus!
