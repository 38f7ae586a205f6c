//! The tile feature cache: for each tile file name, the identity of the file
//! the features were computed from and, per color space, the feature values
//! (each the bit pattern of an `f32`).
//!
//! Reading, writing and the JSON form of the cache are the application's;
//! this module holds what the cache answers and how a write changes it.

use vstd::prelude::*;
use crate::text::{hex, push_hex, push_char};

verus! {

/// The features of one tile in one color space.
pub struct FeatureSet {
    pub colorspace: String,
    pub values: Vec<u32>,
}

/// What the cache holds for one tile file.
pub struct CacheEntry {
    pub name: String,
    pub id: String,
    pub sets: Vec<FeatureSet>,
}

/// The cache of tile features.
pub struct TileCache {
    pub entries: Vec<CacheEntry>,
}

/// The index of the first feature set of color space `cs`, or -1.
pub open spec fn find_set(sets: Seq<FeatureSet>, cs: Seq<char>) -> int
    decreases sets.len(),
{
    if sets.len() == 0 {
        -1
    } else if sets[0].colorspace@ == cs {
        0
    } else {
        let r = find_set(sets.drop_first(), cs);
        if r < 0 {
            -1
        } else {
            r + 1
        }
    }
}

/// The index of the first entry of tile file `name`, or -1.
pub open spec fn find_entry(entries: Seq<CacheEntry>, name: Seq<char>) -> int
    decreases entries.len(),
{
    if entries.len() == 0 {
        -1
    } else if entries[0].name@ == name {
        0
    } else {
        let r = find_entry(entries.drop_first(), name);
        if r < 0 {
            -1
        } else {
            r + 1
        }
    }
}

/// The features cached for tile file `name` in color space `cs`, provided
/// that they were computed from the file of identity `id`.
pub open spec fn cached(entries: Seq<CacheEntry>, name: Seq<char>, id: Seq<char>, cs: Seq<char>) -> Option<
    Seq<u32>,
> {
    let i = find_entry(entries, name);
    if i < 0 || entries[i].id@ != id {
        None
    } else {
        let j = find_set(entries[i].sets@, cs);
        if j < 0 {
            None
        } else {
            Some(entries[i].sets@[j].values@)
        }
    }
}

/// A feature set as plain values: color space and values.
pub open spec fn set_view(f: FeatureSet) -> (Seq<char>, Seq<u32>) {
    (f.colorspace@, f.values@)
}

/// An entry as plain values: file name, file identity and feature sets.
pub open spec fn entry_view(e: CacheEntry) -> (Seq<char>, Seq<char>, Seq<(Seq<char>, Seq<u32>)>) {
    (e.name@, e.id@, e.sets@.map_values(|f: FeatureSet| set_view(f)))
}

/// The entries as plain values.
pub open spec fn entries_view(es: Seq<CacheEntry>) -> Seq<(Seq<char>, Seq<char>, Seq<(Seq<char>, Seq<u32>)>)> {
    es.map_values(|e: CacheEntry| entry_view(e))
}

/// The entries after recording `values` for `name` in color space `cs`,
/// computed from the file of identity `id`: a new entry at the end for a
/// new name; otherwise the first entry of the name takes the identity, keeps
/// its feature sets only if it had that identity already, and has the set of
/// `cs` replaced, or added at the end.
pub open spec fn entries_after_set(
    es: Seq<CacheEntry>,
    name: Seq<char>,
    id: Seq<char>,
    cs: Seq<char>,
    values: Seq<u32>,
) -> Seq<(Seq<char>, Seq<char>, Seq<(Seq<char>, Seq<u32>)>)> {
    let ov = entries_view(es);
    let i = find_entry(es, name);
    if i < 0 {
        ov.push((name, id, seq![(cs, values)]))
    } else {
        let e = ov[i];
        let j = find_set(es[i].sets@, cs);
        let sets = if e.1 == id {
            if j >= 0 {
                e.2.update(j, (cs, values))
            } else {
                e.2.push((cs, values))
            }
        } else {
            seq![(cs, values)]
        };
        ov.update(i, (e.0, id, sets))
    }
}

/// The bit pattern of a finite `f32` (its exponent bits are not all ones).
pub open spec fn is_finite_bits(b: u32) -> bool {
    (b >> 23u32) & 0xffu32 != 0xffu32
}

/// The finite values of `s`, in order: the values that the cache's JSON form
/// keeps (it writes a non-finite number as `null`, and reading skips it).
pub open spec fn finite_only(s: Seq<u32>) -> Seq<u32> {
    s.filter(|b: u32| is_finite_bits(b))
}

proof fn lemma_find_set(sets: Seq<FeatureSet>, cs: Seq<char>)
    ensures
        -1 <= find_set(sets, cs) < sets.len(),
        find_set(sets, cs) >= 0 ==> sets[find_set(sets, cs)].colorspace@ == cs,
        forall|k: int|
            0 <= k < sets.len() && (find_set(sets, cs) < 0 || k < find_set(sets, cs)) ==> (#[trigger] sets[k]).colorspace@
                != cs,
    decreases sets.len(),
{
    if sets.len() > 0 {
        lemma_find_set(sets.drop_first(), cs);
        assert forall|k: int|
            0 <= k < sets.len() && (find_set(sets, cs) < 0 || k < find_set(sets, cs)) implies (#[trigger] sets[k]).colorspace@
            != cs by {
            if k > 0 {
                assert(sets[k] == sets.drop_first()[k - 1]);
            }
        }
    }
}

proof fn lemma_find_set_is(sets: Seq<FeatureSet>, cs: Seq<char>, i: int)
    requires
        -1 <= i < sets.len(),
        i >= 0 ==> sets[i].colorspace@ == cs,
        forall|k: int| 0 <= k < sets.len() && (i < 0 || k < i) ==> (#[trigger] sets[k]).colorspace@ != cs,
    ensures
        find_set(sets, cs) == i,
{
    lemma_find_set(sets, cs);
    let r = find_set(sets, cs);
    if r >= 0 && (i < 0 || r < i) {
        assert(sets[r].colorspace@ != cs);
    }
    if i >= 0 && (r < 0 || i < r) {
        assert(sets[i].colorspace@ != cs);
    }
}

proof fn lemma_find_entry(entries: Seq<CacheEntry>, name: Seq<char>)
    ensures
        -1 <= find_entry(entries, name) < entries.len(),
        find_entry(entries, name) >= 0 ==> entries[find_entry(entries, name)].name@ == name,
        forall|k: int|
            0 <= k < entries.len() && (find_entry(entries, name) < 0 || k < find_entry(entries, name))
                ==> (#[trigger] entries[k]).name@ != name,
    decreases entries.len(),
{
    if entries.len() > 0 {
        lemma_find_entry(entries.drop_first(), name);
        assert forall|k: int|
            0 <= k < entries.len() && (find_entry(entries, name) < 0 || k < find_entry(entries, name))
                implies (#[trigger] entries[k]).name@ != name by {
            if k > 0 {
                assert(entries[k] == entries.drop_first()[k - 1]);
            }
        }
    }
}

proof fn lemma_find_entry_is(entries: Seq<CacheEntry>, name: Seq<char>, i: int)
    requires
        -1 <= i < entries.len(),
        i >= 0 ==> entries[i].name@ == name,
        forall|k: int| 0 <= k < entries.len() && (i < 0 || k < i) ==> (#[trigger] entries[k]).name@ != name,
    ensures
        find_entry(entries, name) == i,
{
    lemma_find_entry(entries, name);
    let r = find_entry(entries, name);
    if r >= 0 && (i < 0 || r < i) {
        assert(entries[r].name@ != name);
    }
    if i >= 0 && (r < 0 || i < r) {
        assert(entries[i].name@ != name);
    }
}

fn locate_entry(entries: &Vec<CacheEntry>, name: &str) -> (r: Option<usize>)
    ensures
        match r {
            Some(i) => i < entries.len() && find_entry(entries@, name@) == i,
            None => find_entry(entries@, name@) == -1,
        },
{
    let key = String::from_str(name);
    let mut i: usize = 0;
    while i < entries.len()
        invariant
            i <= entries.len(),
            key@ == name@,
            forall|k: int| 0 <= k < i ==> (#[trigger] entries@[k]).name@ != name@,
        decreases entries.len() - i,
    {
        if entries[i].name == key {
            proof {
                lemma_find_entry_is(entries@, name@, i as int);
            }
            return Some(i);
        }
        i = i + 1;
    }
    proof {
        lemma_find_entry_is(entries@, name@, -1);
    }
    None
}

fn locate_set(sets: &Vec<FeatureSet>, cs: &str) -> (r: Option<usize>)
    ensures
        match r {
            Some(j) => j < sets.len() && find_set(sets@, cs@) == j,
            None => find_set(sets@, cs@) == -1,
        },
{
    let key = String::from_str(cs);
    let mut j: usize = 0;
    while j < sets.len()
        invariant
            j <= sets.len(),
            key@ == cs@,
            forall|k: int| 0 <= k < j ==> (#[trigger] sets@[k]).colorspace@ != cs@,
        decreases sets.len() - j,
    {
        if sets[j].colorspace == key {
            proof {
                lemma_find_set_is(sets@, cs@, j as int);
            }
            return Some(j);
        }
        j = j + 1;
    }
    proof {
        lemma_find_set_is(sets@, cs@, -1);
    }
    None
}

fn copy_values(v: &Vec<u32>) -> (r: Vec<u32>)
    ensures
        r@ == v@,
{
    let mut r: Vec<u32> = Vec::new();
    let mut i: usize = 0;
    while i < v.len()
        invariant
            i <= v.len(),
            r@ == v@.take(i as int),
        decreases v.len() - i,
    {
        r.push(v[i]);
        assert(v@.take(i + 1) =~= v@.take(i as int).push(v@[i as int]));
        i = i + 1;
    }
    assert(v@.take(v.len() as int) =~= v@);
    r
}

fn finite_values(features: &[u32]) -> (r: Vec<u32>)
    ensures
        r@ == finite_only(features@),
{
    let mut r: Vec<u32> = Vec::new();
    let mut i: usize = 0;
    while i < features.len()
        invariant
            i <= features.len(),
            r@ == finite_only(features@.take(i as int)),
        decreases features.len() - i,
    {
        let b = features[i];
        assert(features@.take(i + 1).drop_last() =~= features@.take(i as int));
        reveal_with_fuel(Seq::filter, 1);
        if (b >> 23u32) & 0xffu32 != 0xffu32 {
            r.push(b);
        }
        i = i + 1;
    }
    assert(features@.take(features.len() as int) =~= features@);
    r
}

impl TileCache {
    /// The entries of the cache, in the order they were added.
    pub open spec fn spec_entries(&self) -> Seq<CacheEntry> {
        self.entries@
    }

    /// An empty cache.
    pub fn new() -> (c: TileCache)
        ensures
            c.spec_entries().len() == 0,
            forall|name: Seq<char>, id: Seq<char>, cs: Seq<char>|
                #[trigger] cached(c.spec_entries(), name, id, cs) is None,
    {
        TileCache { entries: Vec::new() }
    }

    /// The features cached for `filename` in `colorspace`, if they were
    /// computed from the file of identity `file_id`.
    pub fn get_features(&self, filename: &str, file_id: &str, colorspace: &str) -> (r: Option<Vec<u32>>)
        ensures
            match r {
                Some(v) => cached(self.spec_entries(), filename@, file_id@, colorspace@) == Some(v@),
                None => cached(self.spec_entries(), filename@, file_id@, colorspace@) is None,
            },
    {
        match locate_entry(&self.entries, filename) {
            None => None,
            Some(i) => {
                let id = String::from_str(file_id);
                if self.entries[i].id != id {
                    return None;
                }
                match locate_set(&self.entries[i].sets, colorspace) {
                    None => None,
                    Some(j) => Some(copy_values(&self.entries[i].sets[j].values)),
                }
            },
        }
    }

    /// Records `features` for `filename` in `colorspace`, computed from the
    /// file of identity `file_id`. An entry of another identity loses its
    /// features in every color space. Only finite values are kept.
    pub fn set_features(&mut self, filename: &str, file_id: &str, colorspace: &str, features: &[u32])
        ensures
            entries_view(final(self).spec_entries()) == entries_after_set(
                old(self).spec_entries(),
                filename@,
                file_id@,
                colorspace@,
                finite_only(features@),
            ),
            cached(final(self).spec_entries(), filename@, file_id@, colorspace@) == Some(
                finite_only(features@),
            ),
            forall|name: Seq<char>, id: Seq<char>, cs: Seq<char>|
                name != filename@ ==> #[trigger] cached(final(self).spec_entries(), name, id, cs)
                    == cached(old(self).spec_entries(), name, id, cs),
            forall|id: Seq<char>, cs: Seq<char>|
                cs != colorspace@ ==> #[trigger] cached(final(self).spec_entries(), filename@, id, cs)
                    == if id == file_id@ && find_entry(old(self).spec_entries(), filename@) >= 0
                    && old(self).spec_entries()[find_entry(old(self).spec_entries(), filename@)].id@
                    == file_id@ {
                    cached(old(self).spec_entries(), filename@, id, cs)
                } else {
                    None
                },
    {
        let ghost old_entries = self.entries@;
        let values = finite_values(features);
        let new_set = FeatureSet { colorspace: String::from_str(colorspace), values };
        match locate_entry(&self.entries, filename) {
            None => {
                let mut sets: Vec<FeatureSet> = Vec::new();
                sets.push(new_set);
                self.entries.push(CacheEntry { name: String::from_str(filename), id: String::from_str(file_id), sets });
                proof {
                    let es = self.entries@;
                    let i = old_entries.len() as int;
                    assert(es[i].sets@.map_values(|f: FeatureSet| set_view(f)) =~= seq![(colorspace@, finite_only(features@))]);
                    assert(entries_view(es) =~= entries_view(old_entries).push(entry_view(es[i])));
                    lemma_find_entry(old_entries, filename@);
                    assert(entry_view(es[i]) == (filename@, file_id@, seq![(colorspace@, finite_only(features@))]));
                    assert(entries_view(es) == entries_after_set(old_entries, filename@, file_id@, colorspace@, finite_only(features@)));
                    assert forall|k: int| 0 <= k < es.len() && k < i implies (#[trigger] es[k]).name@ != filename@ by {
                        assert(es[k] == old_entries[k]);
                        lemma_find_entry(old_entries, filename@);
                    }
                    lemma_find_entry_is(es, filename@, i);
                    lemma_find_set_is(es[i].sets@, colorspace@, 0);
                    assert forall|name: Seq<char>, id: Seq<char>, cs: Seq<char>|
                        name != filename@ implies #[trigger] cached(es, name, id, cs) == cached(old_entries, name, id, cs) by {
                        lemma_find_entry(old_entries, name);
                        let r = find_entry(old_entries, name);
                        if r >= 0 {
                            assert forall|k: int| 0 <= k < es.len() && k < r implies (#[trigger] es[k]).name@ != name by {
                                assert(es[k] == old_entries[k]);
                            }
                            lemma_find_entry_is(es, name, r);
                            assert(es[r] == old_entries[r]);
                        } else {
                            assert forall|k: int| 0 <= k < es.len() implies (#[trigger] es[k]).name@ != name by {
                                if k < i {
                                    assert(es[k] == old_entries[k]);
                                }
                            }
                            lemma_find_entry_is(es, name, -1);
                        }
                    }
                    assert forall|id: Seq<char>, cs: Seq<char>| cs != colorspace@ implies #[trigger] cached(es, filename@, id, cs)
                        is None by {
                        let s = es[i].sets@;
                        assert forall|k: int| 0 <= k < s.len() implies (#[trigger] s[k]).colorspace@ != cs by {}
                        lemma_find_set_is(s, cs, -1);
                    }
                }
            },
            Some(i) => {
                let id = String::from_str(file_id);
                let same_id = self.entries[i].id == id;
                let mut entry = self.entries.remove(i);
                let ghost old_sets = entry.sets@;
                if !same_id {
                    entry.id = id;
                    entry.sets = Vec::new();
                }
                let ghost base_sets = entry.sets@;
                match locate_set(&entry.sets, colorspace) {
                    None => {
                        entry.sets.push(new_set);
                    },
                    Some(j) => {
                        entry.sets.set(j, new_set);
                    },
                }
                self.entries.insert(i, entry);
                proof {
                    let es = self.entries@;
                    assert(es =~= old_entries.update(i as int, es[i as int]));
                    let sv = |f: FeatureSet| set_view(f);
                    let oe = old_entries[i as int];
                    let ns = es[i as int].sets@;
                    if same_id {
                        assert(base_sets == oe.sets@);
                    } else {
                        assert(base_sets.len() == 0);
                    }
                    let fjb = find_set(base_sets, colorspace@);
                    if fjb >= 0 {
                        assert(ns =~= base_sets.update(fjb, new_set));
                        assert(ns.map_values(sv) =~= base_sets.map_values(sv).update(fjb, (colorspace@, finite_only(features@))));
                    } else {
                        assert(ns =~= base_sets.push(new_set));
                        assert(ns.map_values(sv) =~= base_sets.map_values(sv).push((colorspace@, finite_only(features@))));
                    }
                    assert(entries_view(es) =~= entries_view(old_entries).update(i as int, entry_view(es[i as int])));
                    let nsv = (colorspace@, finite_only(features@));
                    let j = find_set(oe.sets@, colorspace@);
                    let sets2 = if oe.id@ == file_id@ {
                        if j >= 0 {
                            oe.sets@.map_values(sv).update(j, nsv)
                        } else {
                            oe.sets@.map_values(sv).push(nsv)
                        }
                    } else {
                        seq![nsv]
                    };
                    if !same_id {
                        assert(base_sets.map_values(sv) =~= Seq::<(Seq<char>, Seq<u32>)>::empty());
                        assert(ns.map_values(sv) =~= seq![nsv]);
                    }
                    assert(entry_view(es[i as int]) == (oe.name@, file_id@, sets2));
                    assert(entries_view(es) == entries_after_set(old_entries, filename@, file_id@, colorspace@, finite_only(features@)));
                    lemma_find_entry(old_entries, filename@);
                    assert forall|k: int| 0 <= k < es.len() && k < i implies (#[trigger] es[k]).name@ != filename@ by {
                        assert(es[k] == old_entries[k]);
                    }
                    lemma_find_entry_is(es, filename@, i as int);
                    let s = es[i as int].sets@;
                    lemma_find_set(base_sets, colorspace@);
                    let fj = find_set(base_sets, colorspace@);
                    let nj = if fj < 0 { base_sets.len() as int } else { fj };
                    assert forall|k: int| 0 <= k < s.len() && k < nj implies (#[trigger] s[k]).colorspace@ != colorspace@ by {
                        assert(s[k] == base_sets[k]);
                    }
                    lemma_find_set_is(s, colorspace@, nj);
                    assert forall|name: Seq<char>, id: Seq<char>, cs: Seq<char>|
                        name != filename@ implies #[trigger] cached(es, name, id, cs) == cached(old_entries, name, id, cs) by {
                        lemma_find_entry(old_entries, name);
                        let r = find_entry(old_entries, name);
                        assert forall|k: int| 0 <= k < es.len() && (r < 0 || k < r) implies (#[trigger] es[k]).name@ != name by {
                            if k != i {
                                assert(es[k] == old_entries[k]);
                            }
                        }
                        if r >= 0 {
                            assert(r != i);
                            assert(es[r] == old_entries[r]);
                        }
                        lemma_find_entry_is(es, name, r);
                    }
                    assert forall|id2: Seq<char>, cs: Seq<char>| cs != colorspace@ implies #[trigger] cached(es, filename@, id2, cs)
                        == if id2 == file_id@ && find_entry(old_entries, filename@) >= 0
                        && old_entries[find_entry(old_entries, filename@)].id@ == file_id@ {
                        cached(old_entries, filename@, id2, cs)
                    } else {
                        None
                    } by {
                        lemma_find_set(base_sets, cs);
                        let bj = find_set(base_sets, cs);
                        assert forall|k: int| 0 <= k < s.len() && (bj < 0 || k < bj) implies (#[trigger] s[k]).colorspace@ != cs by {
                            if k < base_sets.len() {
                                assert(s[k] == base_sets[k] || k == nj);
                            }
                        }
                        if bj >= 0 {
                            assert(s[bj] == base_sets[bj]);
                        }
                        lemma_find_set_is(s, cs, bj);
                        if !same_id {
                            assert(base_sets.len() == 0);
                        }
                    }
                }
            },
        }
    }
}

/// The identity of a tile file, from its size and modification time in
/// seconds: both in lower-case hexadecimal, joined by `_`.
pub open spec fn file_id_text(size: u64, mtime: u64) -> Seq<char> {
    hex(size as nat) + seq!['_'] + hex(mtime as nat)
}

/// Writes the identity of a tile file of `size` bytes modified at `mtime`.
pub fn format_file_id(size: u64, mtime: u64) -> (id: String)
    ensures
        id@ == file_id_text(size, mtime),
{
    let mut id = String::new();
    push_hex(&mut id, size);
    push_char(&mut id, '_');
    push_hex(&mut id, mtime);
    id
}

} // verus!
