use vstd::prelude::*;

use crate::flags::OpenFlags;
use crate::path::{starts_with_at, str_eq};
use crate::record::LibRecord;

verus! {

/// The outside ordered map used for name lookup: `indexmap::IndexMap`.
#[verifier::external_type_specification]
#[verifier::external_body]
#[verifier::reject_recursive_types(K)]
#[verifier::reject_recursive_types(V)]
#[verifier::reject_recursive_types(S)]
pub struct ExIndexMap<K, V, S>(indexmap::IndexMap<K, V, S>);

/// What the name index holds: its key-value pairs in insertion order.
pub uninterp spec fn index_entries(
    m: indexmap::IndexMap<String, usize, std::hash::RandomState>,
) -> Seq<(Seq<char>, usize)>;

/// Relies on `indexmap::IndexMap::new`: the new map is empty.
#[verifier::external_body]
fn im_new() -> (r: indexmap::IndexMap<String, usize, std::hash::RandomState>)
    ensures
        index_entries(r) == Seq::<(Seq<char>, usize)>::empty(),
{
    indexmap::IndexMap::new()
}

/// Relies on `indexmap::IndexMap::insert`: a pair with a fresh key is
/// appended, last in insertion order.
#[verifier::external_body]
fn im_insert(
    m: &mut indexmap::IndexMap<String, usize, std::hash::RandomState>,
    k: String,
    v: usize,
)
    requires
        forall|i: int|
            0 <= i < index_entries(*old(m)).len() ==> (#[trigger] index_entries(*old(m))[i].0)
                != k@,
    ensures
        index_entries(*final(m)) == index_entries(*old(m)).push((k@, v)),
{
    m.insert(k, v);
}

/// Relies on `indexmap::IndexMap::get`: returns the value stored under the
/// key, and `None` exactly when no entry carries the key.
#[verifier::external_body]
fn im_get(m: &indexmap::IndexMap<String, usize, std::hash::RandomState>, k: &str) -> (r: Option<
    usize,
>)
    ensures
        match r {
            Some(v) => exists|i: int|
                0 <= i < index_entries(*m).len() && (#[trigger] index_entries(*m)[i]) == (k@, v),
            None => forall|i: int|
                0 <= i < index_entries(*m).len() ==> (#[trigger] index_entries(*m)[i].0) != k@,
        },
{
    m.get(k).copied()
}

/// Relies on `indexmap::IndexMap::truncate`: keeps the first `n` entries in
/// insertion order; a longer `n` leaves the map unchanged.
#[verifier::external_body]
fn im_truncate(m: &mut indexmap::IndexMap<String, usize, std::hash::RandomState>, n: usize)
    ensures
        index_entries(*final(m)) == if n < index_entries(*old(m)).len() {
            index_entries(*old(m)).take(n as int)
        } else {
            index_entries(*old(m))
        },
{
    m.truncate(n);
}

/// Relies on `indexmap::IndexMap::clear`: removes every entry.
#[verifier::external_body]
fn im_clear(m: &mut indexmap::IndexMap<String, usize, std::hash::RandomState>)
    ensures
        index_entries(*final(m)) == Seq::<(Seq<char>, usize)>::empty(),
{
    m.clear();
}

/// The short names of a sequence of records, in order.
pub open spec fn names_of(all: Seq<LibRecord>) -> Seq<Seq<char>> {
    all.map_values(|r: LibRecord| r.shortname@)
}

/// The name index a record sequence should induce: each short name mapped to
/// its position, in insertion order.
pub open spec fn index_model(all: Seq<LibRecord>) -> Seq<(Seq<char>, usize)> {
    Seq::new(all.len(), |i: int| (all[i].shortname@, i as usize))
}

/// True when `sub` occurs somewhere in `s`.
pub open spec fn spec_contains_sub(s: Seq<char>, sub: Seq<char>) -> bool {
    exists|i: int| starts_with_at(s, i, sub)
}

/// A short name of a runtime library that must never be unloaded.
pub open spec fn is_runtime_name(n: Seq<char>) -> bool {
    ||| spec_contains_sub(n, "libc.so"@)
    ||| spec_contains_sub(n, "libpthread.so"@)
    ||| spec_contains_sub(n, "libdl.so"@)
    ||| spec_contains_sub(n, "libgcc_s.so"@)
    ||| spec_contains_sub(n, "ld-linux"@)
    ||| spec_contains_sub(n, "ld-musl"@)
}

/// The record as registration stores it: runtime libraries are implicitly
/// promoted to `NODELETE`.
pub open spec fn spec_runtime_promoted(rec: LibRecord) -> LibRecord {
    if is_runtime_name(rec.shortname@) {
        LibRecord { flags: rec.flags.spec_with(OpenFlags { bits: 4096 }), ..rec }
    } else {
        rec
    }
}

/// The process-wide registry of loaded libraries.
///
/// `all` holds every record in insertion order; `index` is the name-to-slot
/// map kept in step with it; `global` holds, in insertion order, the short
/// names whose symbols take part in global resolution.
pub struct Registry {
    /// Every known library, in insertion order.
    pub all: Vec<LibRecord>,
    /// Maps a short name to its slot in `all`.
    pub index: indexmap::IndexMap<String, usize, std::hash::RandomState>,
    /// The short names in the global scope, in insertion order.
    pub global: Vec<String>,
    /// How many records have been added over the registry's lifetime.
    pub adds: u64,
    /// How many records have been removed over the registry's lifetime.
    pub subs: u64,
}

impl Registry {
    /// The global scope as a sequence of names.
    pub open spec fn global_names(self) -> Seq<Seq<char>> {
        self.global@.map_values(|s: String| s@)
    }

    /// The name at global slot `g` belongs to a record among the first
    /// `alen` of `all`.
    pub open spec fn global_resolves_within(self, g: int, alen: int) -> bool {
        exists|i: int| 0 <= i < alen && self.global@[g]@ == (#[trigger] self.all@[i].shortname@)
    }

    /// Internal consistency: short names are unique, the name index mirrors
    /// `all`, and the global scope names registered records, once each.
    pub open spec fn wf(self) -> bool {
        &&& forall|i: int, j: int|
            0 <= i < j < self.all@.len() ==> (#[trigger] self.all@[i].shortname@) != (
            #[trigger] self.all@[j].shortname@)
        &&& index_entries(self.index) == index_model(self.all@)
        &&& forall|g: int|
            0 <= g < self.global@.len() ==> #[trigger] self.global_resolves_within(
                g,
                self.all@.len() as int,
            )
        &&& forall|g: int, h: int|
            0 <= g < h < self.global@.len() ==> (#[trigger] self.global@[g]@) != (
            #[trigger] self.global@[h]@)
    }

    /// An empty registry.
    pub fn new() -> (r: Registry)
        ensures
            r.wf(),
            r.all@.len() == 0,
            r.global@.len() == 0,
            r.adds == 0,
            r.subs == 0,
    {
        let r = Registry { all: Vec::new(), index: im_new(), global: Vec::new(), adds: 0, subs: 0 };
        proof {
            assert(index_entries(r.index) =~= index_model(r.all@));
        }
        r
    }

    /// Finds the slot registered under a short name.
    pub fn lookup(&self, name: &str) -> (r: Option<usize>)
        requires
            self.wf(),
        ensures
            match r {
                Some(i) => i < self.all@.len() && self.all@[i as int].shortname@ == name@,
                None => forall|i: int|
                    0 <= i < self.all@.len() ==> (#[trigger] self.all@[i].shortname@) != name@,
            },
    {
        let len = self.all.len();
        let r = im_get(&self.index, name);
        proof {
            assert(self.all@.len() == len);
            match r {
                Some(v) => {
                    let i = choose|i: int|
                        0 <= i < index_entries(self.index).len() && (#[trigger] index_entries(
                            self.index,
                        )[i]) == (name@, v);
                    assert(index_model(self.all@)[i] == (self.all@[i].shortname@, i as usize));
                },
                None => {
                    assert forall|i: int|
                        0 <= i < self.all@.len() implies (#[trigger] self.all@[i].shortname@)
                        != name@ by {
                        assert(index_entries(self.index)[i].0 == self.all@[i].shortname@);
                    }
                },
            }
        }
        r
    }

    /// Whether the global scope already names `name`.
    pub fn global_contains(&self, name: &str) -> (r: bool)
        ensures
            r == self.global_names().contains(name@),
    {
        let mut g: usize = 0;
        while g < self.global.len()
            invariant
                g <= self.global@.len(),
                forall|h: int| 0 <= h < g ==> (#[trigger] self.global@[h]@) != name@,
            decreases self.global@.len() - g,
        {
            if str_eq(self.global[g].as_str(), name) {
                proof {
                    assert(self.global_names()[g as int] == name@);
                }
                return true;
            }
            g = g + 1;
        }
        proof {
            assert forall|h: int| 0 <= h < self.global_names().len() implies self.global_names()[h]
                != name@ by {
                assert(self.global@[h]@ != name@);
            }
        }
        false
    }

    /// Registers a record under its short name, appending it to `all` and,
    /// when it is global or the main executable, to the global scope.
    /// Runtime libraries are implicitly promoted to `NODELETE`.
    ///
    /// A record whose flags ask to bypass the registry is not stored.
    pub fn register(&mut self, rec: LibRecord)
        requires
            old(self).wf(),
            old(self).adds < u64::MAX,
            forall|i: int|
                0 <= i < old(self).all@.len() ==> (#[trigger] old(self).all@[i].shortname@)
                    != rec.shortname@,
        ensures
            final(self).wf(),
            rec.flags.spec_contains(OpenFlags { bits: 1024 }) ==> {
                &&& final(self).all@ == old(self).all@
                &&& final(self).global@ == old(self).global@
                &&& final(self).adds == old(self).adds
                &&& final(self).subs == old(self).subs
            },
            !rec.flags.spec_contains(OpenFlags { bits: 1024 }) ==> {
                &&& final(self).all@ == old(self).all@.push(spec_runtime_promoted(rec))
                &&& final(self).adds == old(self).adds + 1
                &&& final(self).subs == old(self).subs
                &&& final(self).global_names() == if rec.flags.spec_contains(
                    OpenFlags { bits: 256 },
                ) || rec.full_name@.len() == 0 {
                    old(self).global_names().push(rec.shortname@)
                } else {
                    old(self).global_names()
                }
            },
    {
        if rec.flags.contains(OpenFlags { bits: 1024 }) {
            return ;
        }
        let is_main = rec.full_name.as_str().unicode_len() == 0;
        let is_global = rec.flags.contains(OpenFlags { bits: 256 });
        let runtime = str_contains(rec.shortname.as_str(), "libc.so") || str_contains(
            rec.shortname.as_str(),
            "libpthread.so",
        ) || str_contains(rec.shortname.as_str(), "libdl.so") || str_contains(
            rec.shortname.as_str(),
            "libgcc_s.so",
        ) || str_contains(rec.shortname.as_str(), "ld-linux") || str_contains(
            rec.shortname.as_str(),
            "ld-musl",
        );
        let flags = if runtime {
            rec.flags.with(OpenFlags { bits: 4096 })
        } else {
            rec.flags
        };
        let shortname = rec.shortname.clone();
        let stored = LibRecord { flags, ..rec };
        proof {
            assert(stored == spec_runtime_promoted(rec));
        }
        let slot = self.all.len();
        im_insert(&mut self.index, shortname.clone(), slot);
        self.all.push(stored);
        self.adds = self.adds + 1;
        proof {
            assert(index_entries(self.index) =~= index_model(self.all@));
        }
        if is_global || is_main {
            let ghost pre = self.global_names();
            self.global.push(shortname);
            proof {
                assert(self.global_names() =~= pre.push(rec.shortname@));
            }
        }
        proof {
            assert forall|g: int|
                0 <= g < self.global@.len() implies #[trigger] self.global_resolves_within(
                g,
                self.all@.len() as int,
            ) by {
                if g < old(self).global@.len() {
                    assert(old(self).global_resolves_within(g, old(self).all@.len() as int));
                    let i = choose|i: int|
                        0 <= i < old(self).all@.len() && old(self).global@[g]@ == (
                        #[trigger] old(self).all@[i].shortname@);
                    assert(self.global@[g]@ == old(self).global@[g]@);
                    assert(self.all@[i].shortname@ == old(self).all@[i].shortname@);
                } else {
                    let last = self.all@.len() - 1;
                    assert(self.global@[g]@ == self.all@[last].shortname@);
                }
            }
            assert forall|g: int, h: int|
                0 <= g < h < self.global@.len() implies (#[trigger] self.global@[g]@) != (
            #[trigger] self.global@[h]@) by {
                if h >= old(self).global@.len() {
                    // the new name differs from every registered name, so from
                    // every name the old global scope holds
                    assert(old(self).global_resolves_within(g, old(self).all@.len() as int));
                    let i = choose|i: int|
                        0 <= i < old(self).all@.len() && old(self).global@[g]@ == (
                        #[trigger] old(self).all@[i].shortname@);
                    assert(old(self).all@[i].shortname@ != rec.shortname@);
                }
            }
        }
    }

    /// Shrinks `all` and the global scope back to saved checkpoint lengths,
    /// undoing every registration made since.
    pub fn truncate(&mut self, all_len: usize, global_len: usize)
        requires
            old(self).wf(),
            all_len <= old(self).all@.len(),
            global_len <= old(self).global@.len(),
            forall|g: int|
                0 <= g < global_len ==> #[trigger] old(self).global_resolves_within(
                    g,
                    all_len as int,
                ),
        ensures
            final(self).wf(),
            final(self).all@ == old(self).all@.take(all_len as int),
            final(self).global_names() == old(self).global_names().take(global_len as int),
            final(self).adds == old(self).adds,
            final(self).subs == old(self).subs,
    {
        self.all.truncate(all_len);
        im_truncate(&mut self.index, all_len);
        self.global.truncate(global_len);
        proof {
            assert(index_entries(self.index) =~= index_model(self.all@));
            assert(self.global_names() =~= old(self).global_names().take(global_len as int));
            assert forall|g: int|
                0 <= g < self.global@.len() implies #[trigger] self.global_resolves_within(
                g,
                self.all@.len() as int,
            ) by {
                assert(old(self).global_resolves_within(g, all_len as int));
                let i = choose|i: int|
                    0 <= i < all_len && old(self).global@[g]@ == (#[trigger] old(
                        self,
                    ).all@[i].shortname@);
                assert(self.global@[g]@ == old(self).global@[g]@);
                assert(self.all@[i].shortname@ == old(self).all@[i].shortname@);
            }
        }
    }
}

/// Tests whether `sub` occurs anywhere in `s`.
pub fn str_contains(s: &str, sub: &str) -> (r: bool)
    ensures
        r == spec_contains_sub(s@, sub@),
{
    let n = s.unicode_len();
    let m = sub.unicode_len();
    if m > n {
        return false;
    }
    if m == 0 {
        proof {
            assert(s@.subrange(0, 0) =~= sub@);
            assert(starts_with_at(s@, 0, sub@));
        }
        return true;
    }
    let mut i: usize = 0;
    while i <= n - m
        invariant
            1 <= m <= n,
            n == s@.len(),
            m == sub@.len(),
            i <= n - m + 1,
            forall|k: int| 0 <= k < i ==> !starts_with_at(s@, k, sub@),
        decreases n - i,
    {
        if crate::path::matches_at(s, i, sub) {
            return true;
        }
        i = i + 1;
    }
    proof {
        assert forall|k: int| !starts_with_at(s@, k, sub@) by {
            if 0 <= k < i {
                assert(!starts_with_at(s@, k, sub@));
            }
        }
    }
    false
}

} // verus!

verus! {

impl Registry {
    /// Removes the record at slot `i` from `all` and its name from the global
    /// scope, counting one removal.
    pub fn remove(&mut self, i: usize)
        requires
            old(self).wf(),
            i < old(self).all@.len(),
            old(self).subs < u64::MAX,
        ensures
            final(self).wf(),
            final(self).all@ == old(self).all@.remove(i as int),
            final(self).subs == old(self).subs + 1,
            final(self).adds == old(self).adds,
            !final(self).global_names().contains(old(self).all@[i as int].shortname@),
            forall|n: Seq<char>|
                n != old(self).all@[i as int].shortname@ ==> (
                #[trigger] final(self).global_names().contains(n) <==> old(
                    self,
                ).global_names().contains(n)),
            forall|j: int|
                0 <= j < i ==> #[trigger] final(self).all@[j] == old(self).all@[j],
    {
        let name = self.all[i].shortname.clone();
        let ghost removed_name = self.all@[i as int].shortname@;
        self.all.remove(i);

        // Drop the name from the global scope, where it stands at most once.
        let mut g: usize = 0;
        let ghost old_global = self.global@;
        while g < self.global.len()
            invariant
                g <= self.global@.len(),
                self.global@ == old_global,
                self.all@ == old(self).all@.remove(i as int),
                self.adds == old(self).adds,
                self.subs == old(self).subs,
                name@ == removed_name,
                forall|h: int| 0 <= h < g ==> (#[trigger] self.global@[h]@) != name@,
            ensures
                self.global@ == old_global,
                self.all@ == old(self).all@.remove(i as int),
                self.adds == old(self).adds,
                self.subs == old(self).subs,
                name@ == removed_name,
                g <= self.global@.len(),
                forall|h: int| 0 <= h < g ==> (#[trigger] self.global@[h]@) != name@,
                g == self.global@.len() || self.global@[g as int]@ == name@,
            decreases self.global@.len() - g,
        {
            if str_eq(self.global[g].as_str(), name.as_str()) {
                break;
            }
            g = g + 1;
        }
        let ghost global_before = self.global@;
        if g < self.global.len() {
            self.global.remove(g);
            proof {
                assert(self.global@ =~= global_before.remove(g as int));
            }
        }
        self.subs = self.subs + 1;

        // Rebuild the name index to match the shifted slots.
        im_clear(&mut self.index);
        let ghost all_after = self.all@;
        let ghost global_after = self.global@;
        let ghost adds_after = self.adds;
        let ghost subs_after = self.subs;
        let mut j: usize = 0;
        while j < self.all.len()
            invariant
                j <= self.all@.len(),
                self.all@ == all_after,
                self.global@ == global_after,
                self.adds == adds_after,
                self.subs == subs_after,
                index_entries(self.index) == index_model(self.all@.take(j as int)),
                forall|a: int, b: int|
                    0 <= a < b < self.all@.len() ==> (#[trigger] self.all@[a].shortname@) != (
                    #[trigger] self.all@[b].shortname@),
            decreases self.all@.len() - j,
        {
            proof {
                assert forall|e: int|
                    0 <= e < index_entries(self.index).len() implies (#[trigger] index_entries(
                    self.index,
                )[e].0) != self.all@[j as int].shortname@ by {
                    assert(index_entries(self.index)[e].0 == self.all@[e].shortname@);
                }
            }
            let ghost pre = index_entries(self.index);
            im_insert(&mut self.index, self.all[j].shortname.clone(), j);
            proof {
                assert(index_entries(self.index) =~= index_model(self.all@.take(j + 1)));
            }
            j = j + 1;
        }
        proof {
            assert(self.all@.take(self.all@.len() as int) =~= self.all@);

            // well-formedness of the shrunk registry
            assert forall|gg: int|
                0 <= gg < self.global@.len() implies #[trigger] self.global_resolves_within(
                gg,
                self.all@.len() as int,
            ) by {
                let g0: int = if g < global_before.len() && gg >= g {
                    gg + 1
                } else {
                    gg
                };
                assert(global_before == old(self).global@);
                assert(0 <= g0 < old(self).global@.len());
                assert(old(self).global_resolves_within(g0, old(self).all@.len() as int));
                let w = choose|w: int|
                    0 <= w < old(self).all@.len() && old(self).global@[g0]@ == (#[trigger] old(
                        self,
                    ).all@[w].shortname@);
                assert(self.global@[gg]@ == old(self).global@[g0]@);
                assert(old(self).global@[g0]@ != removed_name);
                assert(w != i);
                if w < i {
                    assert(self.all@[w].shortname@ == old(self).all@[w].shortname@);
                } else {
                    assert(self.all@[w - 1].shortname@ == old(self).all@[w].shortname@);
                }
            }

            // the removed name is out of the global scope
            assert forall|h: int|
                0 <= h < self.global_names().len() implies self.global_names()[h]
                != removed_name by {
                if g < global_before.len() && h >= g {
                    assert(self.global@[h]@ == global_before[h + 1]@);
                } else {
                    assert(self.global@[h]@ == global_before[h]@);
                }
            }

            // every other name keeps its membership
            assert forall|n: Seq<char>|
                n != removed_name implies (#[trigger] self.global_names().contains(n) <==> old(
                self,
            ).global_names().contains(n)) by {
                if self.global_names().contains(n) {
                    let h = choose|h: int|
                        0 <= h < self.global_names().len() && self.global_names()[h] == n;
                    let h0: int = if g < global_before.len() && h >= g {
                        h + 1
                    } else {
                        h
                    };
                    assert(old(self).global_names()[h0] == n);
                }
                if old(self).global_names().contains(n) {
                    let h0 = choose|h0: int|
                        0 <= h0 < old(self).global_names().len() && old(self).global_names()[h0]
                            == n;
                    if g < global_before.len() {
                        if h0 < g {
                            assert(self.global_names()[h0] == n);
                        } else if h0 > g {
                            assert(self.global_names()[h0 - 1] == n);
                        } else {
                            assert(n == removed_name);
                        }
                    } else {
                        assert(self.global_names()[h0] == n);
                    }
                }
            }
        }
    }

    /// Whether the global-scope entry at slot `g` names a record that defines
    /// the symbol.
    pub open spec fn global_defines(self, g: int, sym: Seq<char>) -> bool {
        exists|i: int|
            0 <= i < self.all@.len() && (#[trigger] self.all@[i].shortname@) == self.global@[g]@
                && self.all@[i].spec_has_symbol(sym)
    }

    /// Walks the global scope in insertion order and returns the slot in
    /// `all` of the first library defining `name`, with the symbol's value:
    /// the earliest-inserted global definition wins.
    pub fn global_find(&self, name: &str) -> (r: Option<(usize, usize)>)
        requires
            self.wf(),
        ensures
            match r {
                Some((idx, val)) => exists|g: int|
                    {
                        &&& 0 <= g < self.global@.len()
                        &&& idx < self.all@.len()
                        &&& self.all@[idx as int].shortname@ == self.global@[g]@
                        &&& self.all@[idx as int].spec_has_symbol(name@)
                        &&& val == self.all@[idx as int].spec_symbol_value(name@)
                        &&& forall|h: int| 0 <= h < g ==> !(#[trigger] self.global_defines(h, name@))
                    },
                None => forall|g: int|
                    0 <= g < self.global@.len() ==> !(#[trigger] self.global_defines(g, name@)),
            },
    {
        let mut g: usize = 0;
        while g < self.global.len()
            invariant
                self.wf(),
                g <= self.global@.len(),
                forall|h: int| 0 <= h < g ==> !(#[trigger] self.global_defines(h, name@)),
            decreases self.global@.len() - g,
        {
            match self.lookup(self.global[g].as_str()) {
                Some(idx) => {
                    match self.all[idx].get_symbol(name) {
                        Some(val) => {
                            return Some((idx, val));
                        },
                        None => {
                            proof {
                                assert forall|i: int|
                                    0 <= i < self.all@.len() && (#[trigger] self.all@[i].shortname@)
                                        == self.global@[g as int]@ implies !self.all@[i].spec_has_symbol(
                                    name@,
                                ) by {
                                    if i != idx as int {
                                        assert(self.all@[i].shortname@ != self.all@[idx as int].shortname@);
                                    }
                                }
                            }
                        },
                    }
                },
                None => {
                    proof {
                        assert(self.global_resolves_within(g as int, self.all@.len() as int));
                        let w = choose|w: int|
                            0 <= w < self.all@.len() && self.global@[g as int]@ == (
                            #[trigger] self.all@[w].shortname@);
                        assert(false);
                    }
                },
            }
            g = g + 1;
        }
        None
    }
}

} // verus!

verus! {

/// Well-formedness survives any change that keeps the short names, the name
/// index, and the global scope as they are.
pub proof fn lemma_wf_preserved(a: Registry, b: Registry)
    requires
        a.wf(),
        b.all@.len() == a.all@.len(),
        forall|k: int|
            0 <= k < a.all@.len() ==> (#[trigger] b.all@[k].shortname@) == a.all@[k].shortname@,
        index_entries(b.index) == index_entries(a.index),
        b.global@ == a.global@,
    ensures
        b.wf(),
{
    assert(index_model(b.all@) =~= index_model(a.all@));
    assert forall|g: int|
        0 <= g < b.global@.len() implies #[trigger] b.global_resolves_within(
        g,
        b.all@.len() as int,
    ) by {
        assert(a.global_resolves_within(g, a.all@.len() as int));
        let w = choose|w: int|
            0 <= w < a.all@.len() && a.global@[g]@ == (#[trigger] a.all@[w].shortname@);
        assert(b.all@[w].shortname@ == a.all@[w].shortname@);
    }
}

} // verus!

verus! {

impl Registry {
    /// Adds `RTLD_GLOBAL` to the record at slot `i` and enters its name into
    /// the global scope; a name already in scope keeps its position.
    pub fn promote_global(&mut self, i: usize)
        requires
            old(self).wf(),
            i < old(self).all@.len(),
        ensures
            final(self).wf(),
            final(self).all@ == old(self).all@.update(
                i as int,
                LibRecord {
                    flags: old(self).all@[i as int].flags.spec_with(OpenFlags { bits: 256 }),
                    ..old(self).all@[i as int]
                },
            ),
            final(self).adds == old(self).adds,
            final(self).subs == old(self).subs,
            final(self).global_names() == if old(self).global_names().contains(
                old(self).all@[i as int].shortname@,
            ) {
                old(self).global_names()
            } else {
                old(self).global_names().push(old(self).all@[i as int].shortname@)
            },
    {
        let ghost orig = *old(self);
        let name = self.all[i].shortname.clone();
        let entry = &mut self.all[i];
        entry.flags = entry.flags.with(OpenFlags { bits: 256 });
        proof {
            assert(self.all@ =~= orig.all@.update(
                i as int,
                LibRecord {
                    flags: orig.all@[i as int].flags.spec_with(OpenFlags { bits: 256 }),
                    ..orig.all@[i as int]
                },
            ));
            assert(index_model(self.all@) =~= index_model(orig.all@));
        }
        if !self.global_contains(name.as_str()) {
            let ghost pre = self.global_names();
            self.global.push(name);
            proof {
                assert(self.global_names() =~= pre.push(orig.all@[i as int].shortname@));
            }
        }
        proof {
            assert forall|g: int|
                0 <= g < self.global@.len() implies #[trigger] self.global_resolves_within(
                g,
                self.all@.len() as int,
            ) by {
                if g < orig.global@.len() {
                    assert(orig.global_resolves_within(g, orig.all@.len() as int));
                    let w = choose|w: int|
                        0 <= w < orig.all@.len() && orig.global@[g]@ == (
                        #[trigger] orig.all@[w].shortname@);
                    assert(self.all@[w].shortname@ == orig.all@[w].shortname@);
                } else {
                    assert(self.global@[g]@ == self.all@[i as int].shortname@);
                }
            }
            assert forall|g: int, h: int|
                0 <= g < h < self.global@.len() implies (#[trigger] self.global@[g]@) != (
            #[trigger] self.global@[h]@) by {
                if h >= orig.global@.len() {
                    assert(!orig.global_names().contains(orig.all@[i as int].shortname@));
                    assert(orig.global_names()[g] == orig.global@[g]@);
                }
            }
        }
    }
}

} // verus!
