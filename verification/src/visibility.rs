//! The lighting engine's output artifact: a finite mapping from tiles
//! to clamped illumination factors, stored as an association list with
//! pairwise-distinct keys and viewed as a `Map` from grid points to
//! factors.

use vstd::prelude::*;

use crate::tile::TileTransform;

verus! {

/// The mapping described by an association list: later entries win,
/// though a well-formed `VisibilityMap` never repeats a key.
pub open spec fn entries_map(s: Seq<(TileTransform, u32)>) -> Map<(int, int), int>
    decreases s.len(),
{
    if s.len() == 0 {
        Map::empty()
    } else {
        entries_map(s.drop_last()).insert(s.last().0@, s.last().1 as int)
    }
}

/// No two entries name the same tile.
pub open spec fn distinct_keys(s: Seq<(TileTransform, u32)>) -> bool {
    forall|i: int, j: int|
        0 <= i < j < s.len() ==> (#[trigger] s[i]).0@ != (#[trigger] s[j]).0@
}

proof fn lemma_entries_map_dom(s: Seq<(TileTransform, u32)>)
    ensures
        forall|p: (int, int)|
            entries_map(s).dom().contains(p) <==> exists|i: int|
                0 <= i < s.len() && (#[trigger] s[i]).0@ == p,
        entries_map(s).dom().finite(),
    decreases s.len(),
{
    if s.len() == 0 {
    } else {
        lemma_entries_map_dom(s.drop_last());
        assert forall|p: (int, int)| entries_map(s).dom().contains(p) implies exists|i: int|
            0 <= i < s.len() && (#[trigger] s[i]).0@ == p by {
            if p == s.last().0@ {
                assert(s[s.len() - 1].0@ == p);
            } else {
                let i = choose|i: int| 0 <= i < s.drop_last().len() && (#[trigger] s.drop_last()[i]).0@ == p;
                assert(s[i].0@ == p);
            }
        }
        assert forall|p: (int, int)| (exists|i: int| 0 <= i < s.len() && (#[trigger] s[i]).0@ == p)
            implies entries_map(s).dom().contains(p) by {
            let i = choose|i: int| 0 <= i < s.len() && (#[trigger] s[i]).0@ == p;
            if i < s.len() - 1 {
                assert(s.drop_last()[i].0@ == p);
            }
        }
    }
}

proof fn lemma_entries_map_at(s: Seq<(TileTransform, u32)>, i: int)
    requires
        distinct_keys(s),
        0 <= i < s.len(),
    ensures
        entries_map(s).dom().contains(s[i].0@),
        entries_map(s)[s[i].0@] == s[i].1 as int,
    decreases s.len(),
{
    if i == s.len() - 1 {
        lemma_entries_map_dom(s);
    } else {
        lemma_entries_map_at(s.drop_last(), i);
        assert(s[i].0@ != s.last().0@);
    }
}

proof fn lemma_entries_map_len(s: Seq<(TileTransform, u32)>)
    requires
        distinct_keys(s),
    ensures
        entries_map(s).dom().finite(),
        entries_map(s).dom().len() == s.len(),
    decreases s.len(),
{
    lemma_entries_map_dom(s);
    if s.len() > 0 {
        lemma_entries_map_len(s.drop_last());
        lemma_entries_map_dom(s.drop_last());
        assert(!entries_map(s.drop_last()).dom().contains(s.last().0@));
    }
}

proof fn lemma_entries_map_update(s: Seq<(TileTransform, u32)>, i: int, e: (TileTransform, u32))
    requires
        distinct_keys(s),
        0 <= i < s.len(),
        e.0@ == s[i].0@,
    ensures
        entries_map(s.update(i, e)) == entries_map(s).insert(e.0@, e.1 as int),
    decreases s.len(),
{
    if i == s.len() - 1 {
        assert(s.update(i, e).drop_last() =~= s.drop_last());
        assert(s.update(i, e).last() == e);
        assert(entries_map(s.update(i, e)) =~= entries_map(s).insert(e.0@, e.1 as int));
    } else {
        assert(s.update(i, e).drop_last() =~= s.drop_last().update(i, e));
        lemma_entries_map_update(s.drop_last(), i, e);
        assert(s.update(i, e).last() == s.last());
        assert(e.0@ != s.last().0@);
        assert(entries_map(s.update(i, e)) =~= entries_map(s).insert(e.0@, e.1 as int));
    }
}

/// Tile-to-factor mapping produced by the lighting engine.  Factors are
/// fixed-point fractions of `FACTOR_ONE`; tiles absent from the map
/// received no light at all.
pub struct VisibilityMap {
    entries: Vec<(TileTransform, u32)>,
}

impl View for VisibilityMap {
    type V = Map<(int, int), int>;

    closed spec fn view(&self) -> Map<(int, int), int> {
        entries_map(self.entries@)
    }
}

impl VisibilityMap {
    #[verifier::type_invariant]
    spec fn wf(self) -> bool {
        distinct_keys(self.entries@)
    }

    pub fn new() -> (m: Self)
        ensures
            m@ == Map::<(int, int), int>::empty(),
    {
        VisibilityMap { entries: Vec::new() }
    }

    /// Index of the entry for `tile`, if one exists.
    fn find(&self, tile: TileTransform) -> (r: Option<usize>)
        ensures
            match r {
                Some(i) => i < self.entries@.len() && self.entries@[i as int].0@ == tile@,
                None => forall|i: int|
                    0 <= i < self.entries@.len() ==> (#[trigger] self.entries@[i]).0@ != tile@,
            },
    {
        let mut i: usize = 0;
        while i < self.entries.len()
            invariant
                i <= self.entries@.len(),
                forall|k: int| 0 <= k < i ==> (#[trigger] self.entries@[k]).0@ != tile@,
            decreases self.entries@.len() - i,
        {
            if self.entries[i].0 == tile {
                return Some(i);
            }
            i = i + 1;
        }
        None
    }

    /// The factor recorded for `tile`, or `None` where the map has no
    /// entry for it.
    pub fn get(&self, tile: TileTransform) -> (r: Option<u32>)
        ensures
            match r {
                Some(f) => self@.dom().contains(tile@) && self@[tile@] == f as int,
                None => !self@.dom().contains(tile@),
            },
    {
        proof {
            use_type_invariant(self);
            lemma_entries_map_dom(self.entries@);
        }
        match self.find(tile) {
            Some(i) => {
                proof {
                    lemma_entries_map_at(self.entries@, i as int);
                }
                Some(self.entries[i].1)
            },
            None => None,
        }
    }

    /// Records `factor` for `tile`, replacing any earlier entry.
    pub fn insert(&mut self, tile: TileTransform, factor: u32)
        ensures
            final(self)@ == old(self)@.insert(tile@, factor as int),
    {
        proof {
            use_type_invariant(&*self);
            lemma_entries_map_dom(self.entries@);
        }
        let ghost s0 = self.entries@;
        let found = self.find(tile);
        let ghost target = (match found {
            Some(i) => s0.update(i as int, (tile, factor)),
            None => s0.push((tile, factor)),
        });
        let mut entries: Vec<(TileTransform, u32)> = Vec::new();
        let mut j: usize = 0;
        while j < self.entries.len()
            invariant
                j <= self.entries@.len(),
                self.entries@ == s0,
                (match found {
                    Some(i) => i < s0.len() && target == s0.update(i as int, (tile, factor)),
                    None => target == s0.push((tile, factor)),
                }),
                entries@ =~= target.subrange(0, j as int),
            decreases self.entries@.len() - j,
        {
            match found {
                Some(i) if i == j => entries.push((tile, factor)),
                _ => entries.push(self.entries[j]),
            }
            proof {
                assert(target.subrange(0, j + 1) =~= target.subrange(0, j as int).push(
                    target[j as int],
                ));
            }
            j = j + 1;
        }
        if found.is_none() {
            entries.push((tile, factor));
        }
        proof {
            assert(entries@ =~= target);
            match found {
                Some(i) => {
                    lemma_entries_map_update(s0, i as int, (tile, factor));
                    assert forall|a: int, b: int| 0 <= a < b < target.len() implies (
                    #[trigger] target[a]).0@ != (#[trigger] target[b]).0@ by {
                        assert(s0[a].0@ != s0[b].0@);
                    }
                },
                None => {
                    assert(target.drop_last() =~= s0);
                    assert(entries_map(target) =~= old(self)@.insert(tile@, factor as int));
                    assert forall|a: int, b: int| 0 <= a < b < target.len() implies (
                    #[trigger] target[a]).0@ != (#[trigger] target[b]).0@ by {
                        if b < target.len() - 1 {
                            assert(s0[a].0@ != s0[b].0@);
                        } else {
                            assert(s0[a].0@ != tile@);
                        }
                    }
                },
            }
        }
        self.entries = entries;
    }

    /// How many tiles have an entry.
    pub fn len(&self) -> (n: usize)
        ensures
            n == self@.dom().len(),
    {
        proof {
            use_type_invariant(self);
            lemma_entries_map_len(self.entries@);
        }
        self.entries.len()
    }
}

impl Clone for VisibilityMap {
    fn clone(&self) -> (res: Self)
        ensures
            res@ == self@,
    {
        proof {
            use_type_invariant(self);
        }
        let mut entries: Vec<(TileTransform, u32)> = Vec::new();
        let mut i: usize = 0;
        while i < self.entries.len()
            invariant
                i <= self.entries@.len(),
                entries@ =~= self.entries@.subrange(0, i as int),
            decreases self.entries@.len() - i,
        {
            entries.push(self.entries[i]);
            i = i + 1;
        }
        proof {
            assert(entries@ =~= self.entries@);
        }
        VisibilityMap { entries }
    }
}

impl Default for VisibilityMap {
    fn default() -> (m: Self)
        ensures
            m@ == Map::<(int, int), int>::empty(),
    {
        VisibilityMap::new()
    }
}

} // verus!
