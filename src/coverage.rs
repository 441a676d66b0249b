use vstd::prelude::*;

use crate::models::President;
use crate::slug::slug_spec;
use crate::store::{keys, lemma_merge_entries, merge_spec, views_of, Presidents, Table};

verus! {

/// The number of positions that a coverage token can record.
pub const COVERAGE_BITS: usize = 128;

/// Whether bit `i` of `bits` is set.
pub open spec fn bit_set(bits: u128, i: u128) -> bool {
    (bits >> i) & 1u128 == 1u128
}

/// Whether position `i` is marked in `bits`.
pub open spec fn visited(bits: u128, i: int) -> bool {
    bit_set(bits, i as u128)
}

/// The positions below `n` whose bit is clear, in increasing order.
pub open spec fn unvisited(bits: u128, n: nat) -> Seq<int>
    decreases n,
{
    if n == 0 {
        Seq::<int>::empty()
    } else {
        let front = unvisited(bits, (n - 1) as nat);
        if visited(bits, n - 1) {
            front
        } else {
            front.push(n - 1)
        }
    }
}

/// Setting bit `i` keeps every other bit.
pub proof fn lemma_bit_or(bits: u128, i: u128, j: u128)
    requires
        i < 128,
        j < 128,
    ensures
        bit_set(bits | (1u128 << i), j) == (bit_set(bits, j) || i == j),
{
    assert(((bits | (1u128 << i)) >> j) & 1u128 == 1u128 <==> (((bits >> j) & 1u128 == 1u128)
        || i == j)) by (bit_vector)
        requires
            i < 128,
            j < 128,
    ;
}

/// No bit of zero is set.
pub proof fn lemma_bit_zero(j: u128)
    requires
        j < 128,
    ensures
        !bit_set(0u128, j),
{
    assert((0u128 >> j) & 1u128 != 1u128) by (bit_vector);
}

/// The positions of `unvisited` are below `n`, increasing, and exactly those whose bit is clear.
pub proof fn lemma_unvisited(bits: u128, n: nat)
    requires
        n <= 128,
    ensures
        forall|k: int| 0 <= k < unvisited(bits, n).len() ==> 0 <= #[trigger] unvisited(bits, n)[k] < n
            && !visited(bits, unvisited(bits, n)[k]),
        forall|i: int| 0 <= i < n && !visited(bits, i) ==> #[trigger] unvisited(bits, n).contains(i),
        unvisited(bits, n).len() == 0 <==> forall|i: int| 0 <= i < n ==> #[trigger] visited(bits, i),
    decreases n,
{
    if n > 0 {
        lemma_unvisited(bits, (n - 1) as nat);
        let front = unvisited(bits, (n - 1) as nat);
        if !visited(bits, n - 1) {
            assert(unvisited(bits, n)[front.len() as int] == n - 1);
        }
        assert forall|i: int| 0 <= i < n && !visited(bits, i) implies #[trigger] unvisited(bits, n).contains(i) by {
            if i < n - 1 {
                assert(front.contains(i));
                let k = choose|k: int| 0 <= k < front.len() && front[k] == i;
                assert(unvisited(bits, n)[k] == i);
            } else {
                assert(unvisited(bits, n)[front.len() as int] == i);
            }
        }
        if unvisited(bits, n).len() == 0 {
            assert forall|i: int| 0 <= i < n implies #[trigger] visited(bits, i) by {
                if !visited(bits, i) {
                    assert(unvisited(bits, n).contains(i));
                }
            }
        } else {
            let k = 0;
            assert(!visited(bits, unvisited(bits, n)[k]));
        }
    }
}

/// The bit positions of the candidates: position `i` belongs to the `i`-th slug of the
/// store, and the version is the number of candidates the store held. A store only
/// grows, so two assignments of one store with equal versions hold the same slugs.
pub struct Assignment {
    order: Vec<String>,
    version: u64,
}

/// The store holds more candidates than a coverage token can record.
#[derive(Clone, Copy, Debug, PartialEq, Eq, Structural)]
pub struct CapacityError {
    pub count: usize,
}

impl Assignment {
    /// The slugs, by bit position.
    pub closed spec fn order(&self) -> Seq<Seq<char>> {
        views_of(self.order@)
    }

    /// The version tag.
    pub closed spec fn version(&self) -> u64 {
        self.version
    }

    /// At most as many slugs as bits, each once, and the version is their number.
    pub open spec fn wf(&self) -> bool {
        &&& self.order().len() <= 128
        &&& self.order().no_duplicates()
        &&& self.version() == self.order().len()
    }

    /// The version tag.
    pub fn version_tag(&self) -> (r: u64)
        ensures
            r == self.version(),
    {
        self.version
    }

    /// The number of positions in use.
    pub fn len(&self) -> (r: usize)
        ensures
            r == self.order().len(),
    {
        self.order.len()
    }
}

/// A session's record of the candidates it has been shown: one bit per position, and the
/// version of the assignment that the positions refer to.
#[derive(Clone, Copy, Debug, PartialEq, Eq, Structural)]
pub struct Coverage {
    pub bits: u128,
    pub version: u64,
}

/// Every candidate has been shown.
#[derive(Clone, Copy, Debug, PartialEq, Eq, Structural)]
pub struct Exhausted;

/// The bits that count: those of `c` where its version is the assignment's, none otherwise.
pub open spec fn live_bits(c: Coverage, version: u64) -> u128 {
    if c.version == version {
        c.bits
    } else {
        0u128
    }
}

/// Every one of the first `n` positions is marked.
pub open spec fn fully_visited(bits: u128, n: nat) -> bool {
    forall|i: int| 0 <= i < n ==> #[trigger] visited(bits, i)
}

/// The position that a draw selects among the unmarked ones.
pub open spec fn pick_position(bits: u128, n: nat, draw: u64) -> int {
    let u = unvisited(bits, n);
    u[(draw as int) % (u.len() as int)]
}

impl Assignment {
    /// The position of `slug`, or `None` where it has none.
    pub fn position(&self, slug: &str) -> (r: Option<usize>)
        requires
            self.wf(),
        ensures
            match r {
                Some(i) => self.order().contains(slug@) && i == self.order().index_of(slug@),
                None => !self.order().contains(slug@),
            },
    {
        let key = slug.to_owned();
        let mut i: usize = 0;
        while i < self.order.len()
            invariant
                self.wf(),
                key@ == slug@,
                i <= self.order().len(),
                forall|k: int| 0 <= k < i ==> self.order()[k] != slug@,
            decreases self.order().len() - i,
        {
            if self.order[i] == key {
                proof {
                    assert(self.order()[i as int] == slug@);
                    let j = self.order().index_of(slug@);
                    assert(self.order()[j] == slug@);
                }
                return Some(i);
            }
            i = i + 1;
        }
        proof {
            if self.order().contains(slug@) {
                let j = self.order().index_of(slug@);
                assert(self.order()[j] == slug@);
            }
        }
        None
    }
}

impl Coverage {
    /// An empty coverage at the assignment's version.
    pub fn new(a: &Assignment) -> (r: Coverage)
        ensures
            r.bits == 0,
            r.version == a.version(),
    {
        Coverage { bits: 0, version: a.version_tag() }
    }

    /// Whether this coverage was made against another version of the assignment; such a
    /// coverage counts as empty.
    pub fn is_stale(&self, a: &Assignment) -> (r: bool)
        ensures
            r == (self.version != a.version()),
    {
        self.version != a.version_tag()
    }

    /// Marks `slug` as shown. A stale coverage is first reset to an empty one at the
    /// assignment's version; an unknown slug marks nothing.
    pub fn mark_visited(&self, slug: &str, a: &Assignment) -> (r: Coverage)
        requires
            a.wf(),
        ensures
            r.version == a.version(),
            a.order().contains(slug@) ==> r.bits == live_bits(*self, a.version()) | (1u128 << (
            a.order().index_of(slug@) as u128)),
            !a.order().contains(slug@) ==> r.bits == live_bits(*self, a.version()),
            forall|j: int| 0 <= j < 128 ==> #[trigger] visited(r.bits, j) == (visited(
                live_bits(*self, a.version()),
                j,
            ) || (a.order().contains(slug@) && j == a.order().index_of(slug@))),
    {
        let base: u128 = if self.is_stale(a) {
            0
        } else {
            self.bits
        };
        match a.position(slug) {
            Some(i) => {
                let sh: u128 = i as u128;
                proof {
                    assert forall|j: int| 0 <= j < 128 implies #[trigger] visited(base | (1u128 << sh), j)
                        == (visited(base, j) || j == i) by {
                        lemma_bit_or(base, sh, j as u128);
                    }
                }
                Coverage { bits: base | (1u128 << sh), version: a.version_tag() }
            },
            None => Coverage { bits: base, version: a.version_tag() },
        }
    }

    /// Whether every candidate of the assignment is marked.
    pub fn is_fully_visited(&self, a: &Assignment) -> (r: bool)
        requires
            a.wf(),
        ensures
            r == fully_visited(live_bits(*self, a.version()), a.order().len()),
    {
        let bits: u128 = if self.is_stale(a) {
            0
        } else {
            self.bits
        };
        let n = a.len();
        let mut i: usize = 0;
        while i < n
            invariant
                a.wf(),
                n == a.order().len(),
                i <= n,
                bits == live_bits(*self, a.version()),
                forall|k: int| 0 <= k < i ==> #[trigger] visited(bits, k),
            decreases n - i,
        {
            let sh: u128 = i as u128;
            if (bits >> sh) & 1u128 != 1u128 {
                assert(!visited(bits, i as int));
                return false;
            }
            i = i + 1;
        }
        true
    }

    /// Picks an unmarked candidate: among the unmarked positions in increasing order, the
    /// one at `draw` modulo their number. Fails with `Exhausted` where none is unmarked.
    pub fn pick_next(&self, a: &Assignment, draw: u64) -> (r: Result<String, Exhausted>)
        requires
            a.wf(),
        ensures
            r is Err <==> fully_visited(live_bits(*self, a.version()), a.order().len()),
            r matches Ok(s) ==> s@ == a.order()[pick_position(
                live_bits(*self, a.version()),
                a.order().len(),
                draw,
            )],
    {
        let bits: u128 = if self.is_stale(a) {
            0
        } else {
            self.bits
        };
        let n = a.len();
        let mut free: Vec<usize> = Vec::new();
        let mut i: usize = 0;
        while i < n
            invariant
                a.wf(),
                n == a.order().len(),
                i <= n,
                bits == live_bits(*self, a.version()),
                free@.len() == unvisited(bits, i as nat).len(),
                forall|k: int| 0 <= k < free@.len() ==> #[trigger] free@[k] == unvisited(bits, i as nat)[k],
            decreases n - i,
        {
            let sh: u128 = i as u128;
            if (bits >> sh) & 1u128 != 1u128 {
                free.push(i);
            }
            i = i + 1;
        }
        proof {
            lemma_unvisited(bits, n as nat);
        }
        if free.len() == 0 {
            return Err(Exhausted);
        }
        let k = (draw % (free.len() as u64)) as usize;
        let pos = free[k];
        Ok(a.order[pos].clone())
    }
}

/// A pick is never a marked position: where some position is unmarked, the draw selects
/// an unmarked position among those in use.
pub proof fn lemma_pick_unvisited(bits: u128, n: nat, draw: u64)
    requires
        n <= 128,
        !fully_visited(bits, n),
    ensures
        0 <= pick_position(bits, n, draw) < n,
        !visited(bits, pick_position(bits, n, draw)),
{
    lemma_unvisited(bits, n);
    let u = unvisited(bits, n);
    assert(u.len() > 0);
    let k = (draw as int) % (u.len() as int);
    assert(0 <= k < u.len());
    assert(0 <= u[k] < n && !visited(bits, u[k]));
}

/// With no bit set, the unmarked positions are all the positions in order.
proof fn lemma_unvisited_empty(n: nat)
    requires
        n <= 128,
    ensures
        unvisited(0u128, n) == Seq::new(n, |i: int| i),
    decreases n,
{
    if n > 0 {
        lemma_unvisited_empty((n - 1) as nat);
        lemma_bit_zero((n - 1) as u128);
        assert(unvisited(0u128, n) =~= Seq::new(n, |i: int| i));
    } else {
        assert(unvisited(0u128, n) =~= Seq::new(n, |i: int| i));
    }
}

/// After a reset to an empty coverage, every candidate can be picked again: the draw `i`
/// picks position `i`.
pub proof fn lemma_reset_selectable(n: nat, i: int)
    requires
        n <= 128,
        0 <= i < n,
    ensures
        !fully_visited(0u128, n),
        pick_position(0u128, n, i as u64) == i,
{
    lemma_unvisited_empty(n);
    lemma_unvisited(0u128, n);
    assert(unvisited(0u128, n).len() == n);
    assert((i as u64) as int == i);
    assert(i % (n as int) == i) by (nonlinear_arith)
        requires
            0 <= i < n,
    ;
    lemma_bit_zero(i as u128);
    assert(!visited(0u128, i));
}

/// A coverage made before a merge that brought in a new slug counts as empty against the
/// assignment of the merged store: the versions differ.
pub proof fn lemma_reload_stale(t: Table, batch: Seq<President>, c: Coverage, k: int)
    requires
        keys(t).no_duplicates(),
        c.version == t.len(),
        0 <= k < batch.len(),
        !keys(t).contains(slug_spec(batch[k].name@)),
        merge_spec(t, batch).len() <= 128,
    ensures
        c.version != merge_spec(t, batch).len(),
        live_bits(c, merge_spec(t, batch).len() as u64) == 0,
{
    lemma_merge_entries(t, batch);
    let m = merge_spec(t, batch);
    let s = slug_spec(batch[k].name@);
    assert(keys(m).contains(s));
    let j = choose|j: int| 0 <= j < keys(m).len() && keys(m)[j] == s;
    if m.len() == t.len() {
        assert(m[j].0 == t[j].0);
        assert(keys(t)[j] == s);
    }
}

impl Presidents {
    /// Assigns bit positions to the candidates in store order; fails where there are more
    /// candidates than bits.
    pub fn assignment(&self) -> (r: Result<Assignment, CapacityError>)
        requires
            self.wf(),
        ensures
            match r {
                Ok(a) => self@.len() <= 128 && a.wf() && a.order() == keys(self@),
                Err(e) => self@.len() > 128 && e.count == self@.len(),
            },
    {
        let n = self.len();
        if n > COVERAGE_BITS {
            return Err(CapacityError { count: n });
        }
        let order = self.slugs_cloned();
        proof {
            self.lemma_wf();
        }
        Ok(Assignment { order, version: n as u64 })
    }
}

} // verus!
