//! The value-table store: a collection of action-value tables, one per
//! configuration key (observation radius).
//!
//! The store itself is a plain value; callers that share one store across
//! training workers wrap it in their own synchronization and hand each
//! operation exclusive access, as the concurrency model asks.

use vstd::prelude::*;

use crate::snake::Action;
use crate::table::lemma_table_merge_pairs;
use crate::table::table_merge;
use crate::table::table_pairs_match;
use crate::table::table_pairs_preserved;
use crate::table::ActionValues;
use crate::table::ObsKey;
use crate::table::Table;

verus! {

/// The map described by a list of radius-keyed tables (later entries win;
/// the store invariant rules duplicates out).
pub open spec fn tables_map(s: Seq<(u32, Table)>) -> Map<int, Map<ObsKey, ActionValues>>
    decreases s.len(),
{
    if s.len() == 0 {
        Map::empty()
    } else {
        tables_map(s.drop_last()).insert(s.last().0 as int, s.last().1.as_map())
    }
}

/// Whether some entry among the first `n` carries the given radius.
pub open spec fn tables_have_key(s: Seq<(u32, Table)>, n: int, k: int) -> bool {
    exists|j: int| 0 <= j < n && (#[trigger] s[j]).0 as int == k
}

/// The store changed only by merge-writes under `bound`: every radius
/// survives, every other radius's table is unchanged in value, and the
/// `bound` table keeps every observation/action pair it recorded (values
/// may be updated).
pub open spec fn store_evolves(
    s0: Map<int, Map<ObsKey, ActionValues>>,
    s1: Map<int, Map<ObsKey, ActionValues>>,
    bound: int,
) -> bool {
    &&& forall|k: int| #[trigger] s0.contains_key(k) ==> s1.contains_key(k)
    &&& forall|k: int| k != bound && #[trigger] s0.contains_key(k) ==> s1[k] == s0[k]
    &&& (s0.contains_key(bound) ==> table_pairs_preserved(s0[bound], s1[bound]))
}

/// A store evolves from itself.
pub proof fn lemma_store_evolves_refl(s: Map<int, Map<ObsKey, ActionValues>>, bound: int)
    ensures
        store_evolves(s, s, bound),
{
}

/// Evolution under one radius is transitive.
pub proof fn lemma_store_evolves_trans(
    s0: Map<int, Map<ObsKey, ActionValues>>,
    s1: Map<int, Map<ObsKey, ActionValues>>,
    s2: Map<int, Map<ObsKey, ActionValues>>,
    bound: int,
)
    requires
        store_evolves(s0, s1, bound),
        store_evolves(s1, s2, bound),
    ensures
        store_evolves(s0, s2, bound),
{
    if s0.contains_key(bound) {
        assert forall|k: ObsKey, a: Action|
            s0[bound].contains_key(k) && (#[trigger] s0[bound][k].spec_get(a)) is Some
            implies s2[bound].contains_key(k) && s2[bound][k].spec_get(a) is Some by {
            assert(s1[bound].contains_key(k) && s1[bound][k].spec_get(a) is Some);
        }
    }
}

/// The persisted collection of action-value tables, keyed by observation
/// radius.
pub struct Store {
    tables: Vec<(u32, Table)>,
}

proof fn lemma_tables_map_contains(s: Seq<(u32, Table)>)
    ensures
        forall|k: int| #[trigger] tables_map(s).contains_key(k) <==> tables_have_key(s, s.len() as int, k),
    decreases s.len(),
{
    if s.len() > 0 {
        let pre = s.drop_last();
        lemma_tables_map_contains(pre);
        assert forall|k: int| #[trigger] tables_map(s).contains_key(k) implies tables_have_key(
            s,
            s.len() as int,
            k,
        ) by {
            if k == s.last().0 as int {
                assert((s[s.len() - 1]).0 as int == k);
            } else {
                assert(tables_map(pre).contains_key(k));
                assert(tables_have_key(pre, pre.len() as int, k));
                let j = choose|j: int| 0 <= j < pre.len() && (#[trigger] pre[j]).0 as int == k;
                assert(s[j] == pre[j]);
                assert((s[j]).0 as int == k);
            }
        }
        assert forall|k: int| tables_have_key(s, s.len() as int, k) implies #[trigger] tables_map(
            s,
        ).contains_key(k) by {
            let j = choose|j: int| 0 <= j < s.len() && (#[trigger] s[j]).0 as int == k;
            if j < s.len() - 1 {
                assert(pre[j] == s[j]);
                assert((pre[j]).0 as int == k);
                assert(tables_have_key(pre, pre.len() as int, k));
                assert(tables_map(pre).contains_key(k));
            }
        }
    }
}

proof fn lemma_tables_map_value(s: Seq<(u32, Table)>, i: int)
    requires
        forall|a: int, b: int| 0 <= a < b < s.len() ==> (#[trigger] s[a]).0 != (#[trigger] s[b]).0,
        0 <= i < s.len(),
    ensures
        tables_map(s).contains_key(s[i].0 as int),
        tables_map(s)[s[i].0 as int] == s[i].1.as_map(),
    decreases s.len(),
{
    if i == s.len() - 1 {
    } else {
        lemma_tables_map_value(s.drop_last(), i);
        assert(s.drop_last()[i] == s[i]);
        assert(s[i].0 != s.last().0);
    }
}

proof fn lemma_tables_map_update(s: Seq<(u32, Table)>, i: int, e: (u32, Table))
    requires
        forall|a: int, b: int| 0 <= a < b < s.len() ==> (#[trigger] s[a]).0 != (#[trigger] s[b]).0,
        0 <= i < s.len(),
        e.0 == s[i].0,
    ensures
        tables_map(s.update(i, e)) == tables_map(s).insert(e.0 as int, e.1.as_map()),
        forall|a: int, b: int|
            0 <= a < b < s.update(i, e).len() ==> (#[trigger] s.update(i, e)[a]).0
                != (#[trigger] s.update(i, e)[b]).0,
    decreases s.len(),
{
    assert forall|a: int, b: int|
        0 <= a < b < s.update(i, e).len() implies (#[trigger] s.update(i, e)[a]).0
        != (#[trigger] s.update(i, e)[b]).0 by {
        assert(s.update(i, e)[a] == if a == i { e } else { s[a] });
        assert(s.update(i, e)[b] == if b == i { e } else { s[b] });
    }
    if i == s.len() - 1 {
        assert(s.update(i, e).drop_last() =~= s.drop_last());
        assert(s.update(i, e).last() == e);
        assert(tables_map(s.update(i, e)) =~= tables_map(s).insert(e.0 as int, e.1.as_map()));
    } else {
        assert(s.update(i, e).drop_last() =~= s.drop_last().update(i, e));
        assert(s.update(i, e).last() == s.last());
        lemma_tables_map_update(s.drop_last(), i, e);
        assert(s.drop_last()[i] == s[i]);
        assert(s.last().0 != e.0);
        assert(tables_map(s.update(i, e)) =~= tables_map(s).insert(e.0 as int, e.1.as_map()));
    }
}

proof fn lemma_tables_map_push(s: Seq<(u32, Table)>, e: (u32, Table))
    ensures
        tables_map(s.push(e)) == tables_map(s).insert(e.0 as int, e.1.as_map()),
{
    assert(s.push(e).drop_last() =~= s);
    assert(s.push(e).last() == e);
}

impl Store {
    /// The store's table list, one radius per entry.
    pub closed spec fn spec_tables(self) -> Seq<(u32, Table)> {
        self.tables@
    }

    /// The store as a mathematical map from radius to that radius's table
    /// map.
    pub open spec fn as_map(self) -> Map<int, Map<ObsKey, ActionValues>> {
        tables_map(self.spec_tables())
    }

    /// The store invariant: one table per radius, each table well-formed.
    pub open spec fn wf(self) -> bool {
        &&& forall|a: int, b: int|
            0 <= a < b < self.spec_tables().len() ==> (#[trigger] self.spec_tables()[a]).0
                != (#[trigger] self.spec_tables()[b]).0
        &&& forall|i: int|
            0 <= i < self.spec_tables().len() ==> (#[trigger] self.spec_tables()[i]).1.wf()
    }

    /// Every recorded value of every table stays within the saturation
    /// limit.
    pub open spec fn bounded(self) -> bool {
        forall|i: int|
            0 <= i < self.spec_tables().len() ==> (#[trigger] self.spec_tables()[i]).1.bounded()
    }

    /// An empty store.
    pub fn new() -> (s: Store)
        ensures
            s.wf(),
            s.bounded(),
            s.as_map() == Map::<int, Map<ObsKey, ActionValues>>::empty(),
            s.spec_tables().len() == 0,
    {
        Store { tables: Vec::new() }
    }

    /// How many configurations the store records.
    pub fn len(&self) -> (n: usize)
        ensures
            n == self.spec_tables().len(),
    {
        self.tables.len()
    }

    /// The radius of one entry.
    pub fn radius_at(&self, i: usize) -> (r: u32)
        requires
            i < self.spec_tables().len(),
        ensures
            r == self.spec_tables()[i as int].0,
    {
        self.tables[i].0
    }

    /// The table of one entry.
    pub fn table_at(&self, i: usize) -> (r: &Table)
        requires
            i < self.spec_tables().len(),
        ensures
            *r == self.spec_tables()[i as int].1,
    {
        &self.tables[i].1
    }

    /// Builds a store from a table list with pairwise distinct radii and
    /// well-formed tables.
    pub(crate) fn from_tables(tables: Vec<(u32, Table)>) -> (s: Store)
        requires
            forall|a: int, b: int|
                0 <= a < b < tables@.len() ==> (#[trigger] tables@[a]).0 != (#[trigger] tables@[b]).0,
            forall|i: int| 0 <= i < tables@.len() ==> (#[trigger] tables@[i]).1.wf(),
        ensures
            s.spec_tables() == tables@,
            s.wf(),
    {
        Store { tables }
    }

    /// The index of the entry for this radius, if any.
    fn find_index(&self, bound: u32) -> (r: Option<usize>)
        ensures
            match r {
                Some(i) => i < self.spec_tables().len() && self.spec_tables()[i as int].0 == bound,
                None => forall|i: int|
                    0 <= i < self.spec_tables().len() ==> (#[trigger] self.spec_tables()[i]).0
                        != bound,
            },
    {
        let mut i: usize = 0;
        while i < self.tables.len()
            invariant
                i <= self.tables@.len(),
                forall|j: int| 0 <= j < i ==> (#[trigger] self.tables@[j]).0 != bound,
            decreases self.tables@.len() - i,
        {
            if self.tables[i].0 == bound {
                return Some(i);
            }
            i = i + 1;
        }
        None
    }

    /// A snapshot copy of the table persisted for this radius, or an empty
    /// table when the radius has never been written.
    pub fn read(&self, bound: u32) -> (t: Table)
        requires
            self.wf(),
        ensures
            t.wf(),
            t.as_map() == if self.as_map().contains_key(bound as int) {
                self.as_map()[bound as int]
            } else {
                Map::<ObsKey, ActionValues>::empty()
            },
            self.bounded() ==> t.bounded(),
    {
        proof {
            lemma_tables_map_contains(self.spec_tables());
        }
        match self.find_index(bound) {
            Some(i) => {
                proof {
                    lemma_tables_map_value(self.spec_tables(), i as int);
                    assert((self.spec_tables()[i as int]).0 == bound);
                    assert(tables_have_key(
                        self.spec_tables(),
                        self.spec_tables().len() as int,
                        bound as int,
                    ));
                }
                let t = self.tables[i].1.clone();
                proof {
                    if self.bounded() {
                        assert(self.spec_tables()[i as int].1.bounded());
                        assert forall|k: ObsKey| #[trigger] t.as_map().contains_key(k) implies t
                            .as_map()[k].bounded() by {
                            assert(self.spec_tables()[i as int].1.as_map().contains_key(k));
                        }
                    }
                }
                t
            },
            None => {
                proof {
                    assert(!tables_have_key(
                        self.spec_tables(),
                        self.spec_tables().len() as int,
                        bound as int,
                    ));
                }
                Table::new()
            },
        }
    }

    /// Merge-writes a delta table into the table persisted for this
    /// radius: per-action values recorded in the delta win, values recorded
    /// only on file are preserved, new observations are inserted whole.
    pub fn merge_write(&mut self, bound: u32, delta: &Table)
        requires
            old(self).wf(),
            delta.wf(),
        ensures
            final(self).wf(),
            forall|k: int|
                #[trigger] final(self).as_map().contains_key(k) <==> (old(self).as_map().contains_key(k)
                    || k == bound as int),
            forall|k: int|
                #[trigger] old(self).as_map().contains_key(k) && k != bound as int ==> final(self).as_map()[k] == old(self).as_map()[k],
            final(self).as_map()[bound as int] == table_merge(
                if old(self).as_map().contains_key(bound as int) {
                    old(self).as_map()[bound as int]
                } else {
                    Map::<ObsKey, ActionValues>::empty()
                },
                delta.as_map(),
            ),
            old(self).bounded() && delta.bounded() ==> final(self).bounded(),
            old(self).as_map().contains_key(bound as int) ==> table_pairs_preserved(
                old(self).as_map()[bound as int],
                final(self).as_map()[bound as int],
            ),
            table_pairs_match(delta.as_map(), final(self).as_map()[bound as int]),
            store_evolves(old(self).as_map(), final(self).as_map(), bound as int),
    {
        proof {
            lemma_tables_map_contains(self.spec_tables());
        }
        match self.find_index(bound) {
            Some(i) => {
                proof {
                    lemma_tables_map_value(self.spec_tables(), i as int);
                    assert((self.spec_tables()[i as int]).0 == bound);
                    assert(tables_have_key(
                        self.spec_tables(),
                        self.spec_tables().len() as int,
                        bound as int,
                    ));
                }
                let ghost pre = self.spec_tables();
                let ghost base = self.spec_tables()[i as int].1.as_map();
                proof {
                    if old(self).bounded() {
                        assert(self.spec_tables()[i as int].1.bounded());
                    }
                }
                let entry: &mut (u32, Table) = &mut self.tables[i];
                proof {
                    assert(entry.1.as_map() == base);
                    assert(entry.1.wf());
                }
                entry.1.merge_from(delta);
                proof {
                    assert(final(entry).0 == pre[i as int].0);
                    assert(self.spec_tables() == pre.update(i as int, (pre[i as int].0, final(entry).1)));
                    lemma_tables_map_update(
                        pre,
                        i as int,
                        (pre[i as int].0, self.spec_tables()[i as int].1),
                    );
                    assert(self.as_map()[bound as int] =~= table_merge(base, delta.as_map()));
                    lemma_table_merge_pairs(base, delta.as_map());
                    if old(self).bounded() && delta.bounded() {
                        assert forall|j: int|
                            0 <= j < self.spec_tables().len() implies (#[trigger] self
                            .spec_tables()[j]).1.bounded() by {
                            if j != i as int {
                                assert(self.spec_tables()[j] == pre[j]);
                                assert(old(self).spec_tables()[j].1.bounded());
                            }
                        }
                    }
                }
            },
            None => {
                proof {
                    assert(!tables_have_key(
                        self.spec_tables(),
                        self.spec_tables().len() as int,
                        bound as int,
                    ));
                    assert(!self.as_map().contains_key(bound as int));
                }
                let mut t = Table::new();
                t.merge_from(delta);
                let ghost pre = self.spec_tables();
                self.tables.push((bound, t));
                proof {
                    lemma_tables_map_push(pre, self.spec_tables().last());
                    assert(self.as_map()[bound as int] =~= table_merge(
                        Map::<ObsKey, ActionValues>::empty(),
                        delta.as_map(),
                    ));
                    lemma_table_merge_pairs(Map::<ObsKey, ActionValues>::empty(), delta.as_map());
                    assert forall|a: int, b: int|
                        0 <= a < b < self.spec_tables().len() implies (#[trigger] self
                        .spec_tables()[a]).0 != (#[trigger] self.spec_tables()[b]).0 by {
                        if b == self.spec_tables().len() - 1 {
                            assert(self.spec_tables()[a] == pre[a]);
                        }
                    }
                    if old(self).bounded() && delta.bounded() {
                        assert forall|j: int|
                            0 <= j < self.spec_tables().len() implies (#[trigger] self
                            .spec_tables()[j]).1.bounded() by {
                            if j < self.spec_tables().len() - 1 {
                                assert(self.spec_tables()[j] == pre[j]);
                                assert(old(self).spec_tables()[j].1.bounded());
                            }
                        }
                    }
                }
            },
        }
    }
}


/// A store's table list always fits the machine's word range.
pub proof fn lemma_store_len_bound(s: Store)
    ensures
        s.spec_tables().len() < 0x1_0000_0000_0000_0000,
{
    assert(vstd::std_specs::vec::spec_vec_len(&s.tables) == s.tables@.len());
}

} // verus!
