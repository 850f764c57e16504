//! The per-request result of an extraction: a mapping from gym name to
//! member count, built fresh for every request and discarded after it.

use vstd::prelude::*;

verus! {

/// The mapping held by a list of (name, count) entries: entries are folded in
/// order, so of two entries with the same name the later one wins.
pub open spec fn map_of_entries(entries: Seq<(String, u32)>) -> Map<Seq<char>, u32>
    decreases entries.len(),
{
    if entries.len() == 0 {
        Map::empty()
    } else {
        map_of_entries(entries.drop_last()).insert(entries.last().0@, entries.last().1)
    }
}

/// No two entries of the list share a name.
pub open spec fn distinct_names(entries: Seq<(String, u32)>) -> bool {
    forall|i: int, j: int|
        0 <= i < j < entries.len() ==> (#[trigger] entries[i]).0@ != (#[trigger] entries[j]).0@
}

/// A mapping from gym name to member count. Keys are unique; insertion
/// overwrites the count already held under the same name.
#[derive(Debug)]
pub struct GymState {
    entries: Vec<(String, u32)>,
}

impl View for GymState {
    type V = Map<Seq<char>, u32>;

    closed spec fn view(&self) -> Map<Seq<char>, u32> {
        map_of_entries(self.entries@)
    }
}

/// The mapping of an entry list contains exactly the names of its entries.
pub proof fn lemma_map_of_entries_contains(entries: Seq<(String, u32)>, k: Seq<char>)
    ensures
        map_of_entries(entries).contains_key(k) <==> exists|i: int|
            0 <= i < entries.len() && (#[trigger] entries[i]).0@ == k,
    decreases entries.len(),
{
    if entries.len() > 0 {
        lemma_map_of_entries_contains(entries.drop_last(), k);
        if entries.last().0@ == k {
            assert(entries[entries.len() - 1].0@ == k);
        } else if map_of_entries(entries).contains_key(k) {
            let i = choose|i: int| 0 <= i < entries.drop_last().len() && (#[trigger] entries.drop_last()[i]).0@ == k;
            assert(entries[i].0@ == k);
        } else {
            assert forall|i: int| 0 <= i < entries.len() && (#[trigger] entries[i]).0@ == k implies false by {
                assert(i < entries.len() - 1);
                assert(entries.drop_last()[i].0@ == k);
            }
        }
    }
}

/// The domain of an entry list's mapping is finite.
pub proof fn lemma_map_of_entries_finite(entries: Seq<(String, u32)>)
    ensures
        map_of_entries(entries).dom().finite(),
    decreases entries.len(),
{
    if entries.len() > 0 {
        lemma_map_of_entries_finite(entries.drop_last());
    }
}

/// With distinct names, the mapping holds exactly one key per entry.
pub proof fn lemma_map_of_entries_len(entries: Seq<(String, u32)>)
    requires
        distinct_names(entries),
    ensures
        map_of_entries(entries).dom().len() == entries.len(),
    decreases entries.len(),
{
    if entries.len() > 0 {
        let pre = entries.drop_last();
        assert(distinct_names(pre)) by {
            assert forall|i: int, j: int| 0 <= i < j < pre.len() implies (#[trigger] pre[i]).0@
                != (#[trigger] pre[j]).0@ by {
                assert(entries[i].0@ != entries[j].0@);
            }
        }
        lemma_map_of_entries_len(pre);
        lemma_map_of_entries_finite(pre);
        lemma_map_of_entries_contains(pre, entries.last().0@);
        assert(!map_of_entries(pre).contains_key(entries.last().0@)) by {
            assert forall|i: int| 0 <= i < pre.len() implies (#[trigger] pre[i]).0@
                != entries.last().0@ by {
                assert(entries[i].0@ != entries[entries.len() - 1].0@);
            }
        }
        assert(map_of_entries(entries).dom() =~= map_of_entries(pre).dom().insert(
            entries.last().0@,
        ));
    }
}

impl GymState {
    /// The names of the entries are pairwise distinct, so the entry list and
    /// the mapping are the same size.
    pub closed spec fn wf(&self) -> bool {
        distinct_names(self.entries@)
    }

    /// An empty mapping.
    pub fn new() -> (r: GymState)
        ensures
            r@ == Map::<Seq<char>, u32>::empty(),
            r.wf(),
    {
        GymState { entries: Vec::new() }
    }

    /// Record `count` under `name`, overwriting any count already held there.
    pub fn insert(&mut self, name: String, count: u32)
        requires
            old(self).wf(),
        ensures
            final(self).wf(),
            final(self)@ == old(self)@.insert(name@, count),
    {
        let ghost nv = name@;
        let n: usize = self.entries.len();
        let mut j: usize = 0;
        while j < n
            invariant
                n == self.entries@.len(),
                self.entries@ == old(self).entries@,
                distinct_names(self.entries@),
                0 <= j <= n,
                nv == name@,
                forall|i: int| 0 <= i < j ==> (#[trigger] self.entries@[i]).0@ != nv,
            decreases n - j,
        {
            if self.entries[j].0 == name {
                let ghost old_entries = self.entries@;
                self.entries[j] = (name, count);
                proof {
                    let e = self.entries@[j as int];
                    assert(self.entries@ == old_entries.update(j as int, e));
                    assert(e.0@ == nv && e.1 == count);
                    lemma_update_matching_entry(old_entries, j as int, e);
                }
                return;
            }
            j = j + 1;
        }
        let ghost old_entries = self.entries@;
        self.entries.push((name, count));
        proof {
            let pushed = self.entries@;
            assert(pushed.drop_last() =~= old_entries);
            assert(pushed.last().0@ == nv && pushed.last().1 == count);
            assert(distinct_names(pushed)) by {
                assert forall|a: int, b: int| 0 <= a < b < pushed.len() implies (
                #[trigger] pushed[a]).0@ != (#[trigger] pushed[b]).0@ by {
                    if b == pushed.len() - 1 {
                        assert(old_entries[a].0@ != nv);
                    } else {
                        assert(old_entries[a].0@ != old_entries[b].0@);
                    }
                }
            }
        }
    }

    /// The count recorded under `name`, if any.
    pub fn get(&self, name: &String) -> (r: Option<u32>)
        requires
            self.wf(),
        ensures
            r == if self@.contains_key(name@) {
                Some(self@[name@])
            } else {
                None::<u32>
            },
    {
        let n: usize = self.entries.len();
        let mut j: usize = 0;
        while j < n
            invariant
                self.wf(),
                n == self.entries@.len(),
                0 <= j <= n,
                forall|i: int| 0 <= i < j ==> (#[trigger] self.entries@[i]).0@ != name@,
            decreases n - j,
        {
            if self.entries[j].0 == *name {
                proof {
                    lemma_lookup_matching_entry(self.entries@, j as int);
                }
                return Some(self.entries[j].1);
            }
            j = j + 1;
        }
        proof {
            lemma_map_of_entries_contains(self.entries@, name@);
        }
        None
    }

    /// How many gyms the mapping holds.
    pub fn len(&self) -> (r: usize)
        requires
            self.wf(),
        ensures
            r == self@.dom().len(),
    {
        proof {
            lemma_map_of_entries_len(self.entries@);
        }
        self.entries.len()
    }

    /// The entries as a list of (name, count) pairs: one per gym, holding
    /// exactly the mapping.
    pub fn entries(&self) -> (r: &Vec<(String, u32)>)
        ensures
            map_of_entries(r@) == self@,
            self.wf() ==> distinct_names(r@),
    {
        &self.entries
    }
}

/// Overwriting the entry whose name an update keeps amounts to inserting into
/// the mapping.
proof fn lemma_update_matching_entry(entries: Seq<(String, u32)>, j: int, e: (String, u32))
    requires
        distinct_names(entries),
        0 <= j < entries.len(),
        entries[j].0@ == e.0@,
    ensures
        distinct_names(entries.update(j, e)),
        map_of_entries(entries.update(j, e)) == map_of_entries(entries).insert(e.0@, e.1),
    decreases entries.len(),
{
    let updated = entries.update(j, e);
    assert(distinct_names(updated)) by {
        assert forall|a: int, b: int| 0 <= a < b < updated.len() implies (#[trigger] updated[a]).0@
            != (#[trigger] updated[b]).0@ by {
            assert(entries[a].0@ != entries[b].0@);
        }
    }
    if j == entries.len() - 1 {
        assert(updated.drop_last() =~= entries.drop_last());
        assert(map_of_entries(updated) == map_of_entries(entries.drop_last()).insert(e.0@, e.1));
        assert(map_of_entries(entries).insert(e.0@, e.1) =~= map_of_entries(
            entries.drop_last(),
        ).insert(entries.last().0@, entries.last().1).insert(e.0@, e.1));
        assert(map_of_entries(entries.drop_last()).insert(entries.last().0@, entries.last().1)
            .insert(e.0@, e.1) =~= map_of_entries(entries.drop_last()).insert(e.0@, e.1));
    } else {
        let pre = entries.drop_last();
        assert(distinct_names(pre)) by {
            assert forall|a: int, b: int| 0 <= a < b < pre.len() implies (#[trigger] pre[a]).0@
                != (#[trigger] pre[b]).0@ by {
                assert(entries[a].0@ != entries[b].0@);
            }
        }
        lemma_update_matching_entry(pre, j, e);
        assert(updated.drop_last() =~= pre.update(j, e));
        assert(updated.last() == entries.last());
        // the final entry's name differs from the overwritten one, so the two
        // inserts commute
        assert(entries.last().0@ != e.0@) by {
            assert(entries[j].0@ != entries[entries.len() - 1].0@);
        }
        assert(map_of_entries(pre).insert(e.0@, e.1).insert(entries.last().0@, entries.last().1)
            =~= map_of_entries(pre).insert(entries.last().0@, entries.last().1).insert(e.0@, e.1));
    }
}

/// Under distinct names, the entry found by a scan holds the mapping's value.
proof fn lemma_lookup_matching_entry(entries: Seq<(String, u32)>, j: int)
    requires
        distinct_names(entries),
        0 <= j < entries.len(),
    ensures
        map_of_entries(entries).contains_key(entries[j].0@),
        map_of_entries(entries)[entries[j].0@] == entries[j].1,
    decreases entries.len(),
{
    if j == entries.len() - 1 {
    } else {
        let pre = entries.drop_last();
        assert(distinct_names(pre)) by {
            assert forall|a: int, b: int| 0 <= a < b < pre.len() implies (#[trigger] pre[a]).0@
                != (#[trigger] pre[b]).0@ by {
                assert(entries[a].0@ != entries[b].0@);
            }
        }
        lemma_lookup_matching_entry(pre, j);
        assert(entries.last().0@ != entries[j].0@) by {
            assert(entries[j].0@ != entries[entries.len() - 1].0@);
        }
    }
}

} // verus!
