use vstd::prelude::*;

use crate::error::{find_lib_error, Error};
use crate::flags::OpenFlags;
use crate::path::last_index_of;
use crate::record::{LibRecord, LoadedObject};
use crate::registry::{index_entries, index_model, Registry};
use crate::state::LifeState;

verus! {

/// The basename of a path: everything after the last `/`, or the whole
/// string when it holds no `/`.
pub open spec fn spec_short_name(path: Seq<char>) -> Seq<char> {
    if last_index_of(path, '/') >= 0 {
        path.subrange(last_index_of(path, '/') + 1, path.len() as int)
    } else {
        path
    }
}

/// Computes the registry key for a path: its basename.
pub fn short_name_of(path: &str) -> (r: String)
    ensures
        r@ == spec_short_name(path@),
{
    proof {
        crate::path::lemma_last_index_of(path@, '/');
    }
    match crate::path::rfind_char(path, '/') {
        Some(i) => {
            let n = path.unicode_len();
            path.substring_char(i + 1, n).to_owned()
        },
        None => path.to_owned(),
    }
}

/// A user-visible handle onto an opened library.
pub struct OpenHandle {
    /// The short name of the root library.
    pub shortname: String,
    /// The flags this open call settled on.
    pub flags: OpenFlags,
    /// The root's Searchlist: the short names its symbol lookups walk.
    pub deps: Vec<String>,
}

/// Copies a list of names.
fn clone_names(v: &Vec<String>) -> (r: Vec<String>)
    ensures
        r@.map_values(|s: String| s@) == v@.map_values(|s: String| s@),
{
    let mut r: Vec<String> = Vec::new();
    let mut i: usize = 0;
    while i < v.len()
        invariant
            i <= v@.len(),
            r@.map_values(|s: String| s@) == v@.take(i as int).map_values(|s: String| s@),
        decreases v@.len() - i,
    {
        let ghost pre = r@.map_values(|s: String| s@);
        r.push(v[i].clone());
        proof {
            assert(r@.map_values(|s: String| s@) =~= pre.push(v@[i as int]@));
            assert(v@.take(i + 1).map_values(|s: String| s@) =~= v@.take(i as int).map_values(
                |s: String| s@,
            ).push(v@[i as int]@));
        }
        i = i + 1;
    }
    proof {
        assert(v@.take(v@.len() as int) =~= v@);
    }
    r
}

/// Every record of the registry is fully relocated: no transaction is in
/// flight.
pub open spec fn quiescent(reg: Registry) -> bool {
    forall|k: int|
        0 <= k < reg.all@.len() ==> (#[trigger] reg.all@[k].state)@ is Relocated
}

/// Every name any record requires is itself registered.
pub open spec fn needed_closed(reg: Registry) -> bool {
    forall|k: int, n: int|
        0 <= k < reg.all@.len() && 0 <= n < reg.all@[k].needed@.len() ==> exists|j: int|
            0 <= j < reg.all@.len() && (#[trigger] reg.all@[j].shortname@) == (
            #[trigger] reg.all@[k].needed@[n]@)
}

/// A handle count one higher, held at the type's ceiling.
pub open spec fn spec_sat_inc(h: usize) -> usize {
    if h < usize::MAX {
        (h + 1) as usize
    } else {
        h
    }
}

/// The flag bits a repeated open may add to an existing record:
/// `RTLD_GLOBAL` and `RTLD_NODELETE`.
pub open spec fn spec_promotion(existing: OpenFlags, requested: OpenFlags) -> OpenFlags {
    existing.spec_with(requested.spec_intersection(OpenFlags { bits: 256u32 | 4096u32 }))
}

/// What the dedup path finds.
pub enum ExistingResult {
    /// The name is registered and relocated; this handle refers to it.
    Found(OpenHandle),
    /// The name is registered but a transaction is still loading it; the
    /// caller must retry once that transaction has finished.
    Busy,
    /// The name is not registered.
    Absent,
}

/// Checks whether `shortname` is already registered, and on a relocated
/// record applies the monotone flag promotion and returns a handle to it.
///
/// Promotion only ever adds `RTLD_GLOBAL` or `RTLD_NODELETE`; a promotion to
/// global inserts the name into the global scope. Nothing is ever removed:
/// a later open without `RTLD_GLOBAL` leaves the global scope as it is.
#[verifier::spinoff_prover]
pub fn try_existing(reg: &mut Registry, shortname: &str, flags: OpenFlags) -> (r: ExistingResult)
    requires
        old(reg).wf(),
    ensures
        final(reg).wf(),
        final(reg).all@.len() == old(reg).all@.len(),
        final(reg).adds == old(reg).adds,
        final(reg).subs == old(reg).subs,
        forall|n: Seq<char>|
            old(reg).global_names().contains(n) ==> #[trigger] final(reg).global_names().contains(
                n,
            ),
        final(reg).global_names() == old(reg).global_names() || (final(reg).global_names() == old(
            reg,
        ).global_names().push(shortname@) && !old(reg).global_names().contains(shortname@)),
        match r {
            ExistingResult::Found(h) => exists|i: int|
                {
                    &&& 0 <= i < old(reg).all@.len()
                    &&& old(reg).all@[i].shortname@ == shortname@
                    &&& old(reg).all@[i].state@ is Relocated
                    &&& final(reg).all@ == old(reg).all@.update(
                        i,
                        LibRecord {
                            flags: spec_promotion(old(reg).all@[i].flags, flags),
                            handles: spec_sat_inc(old(reg).all@[i].handles),
                            ..old(reg).all@[i]
                        },
                    )
                    &&& h.shortname@ == shortname@
                    &&& h.flags == spec_promotion(old(reg).all@[i].flags, flags)
                    &&& h.deps@.map_values(|s: String| s@) == (match old(reg).all@[i].deps {
                        Some(d) => d@.map_values(|s: String| s@),
                        None => Seq::<Seq<char>>::empty(),
                    })
                    &&& (flags.spec_contains(OpenFlags { bits: 256 })
                        ==> final(reg).global_names().contains(shortname@))
                },
            ExistingResult::Busy => {
                &&& final(reg).all@ == old(reg).all@
                &&& final(reg).global@ == old(reg).global@
                &&& exists|i: int|
                    0 <= i < old(reg).all@.len() && (#[trigger] old(reg).all@[i].shortname@)
                        == shortname@ && !(old(reg).all@[i].state@ is Relocated)
            },
            ExistingResult::Absent => {
                &&& final(reg).all@ == old(reg).all@
                &&& final(reg).global@ == old(reg).global@
                &&& forall|i: int|
                    0 <= i < old(reg).all@.len() ==> (#[trigger] old(reg).all@[i].shortname@)
                        != shortname@
            },
        },
{
    let idx = match reg.lookup(shortname) {
        Some(i) => i,
        None => {
            return ExistingResult::Absent;
        },
    };
    if !reg.all[idx].state.is_relocated() {
        return ExistingResult::Busy;
    }
    let ghost old_reg = *reg;

    let promoted = reg.all[idx].flags.with(
        flags.intersection(OpenFlags { bits: 256u32 | 4096u32 }),
    );
    let now_global = promoted.contains(OpenFlags { bits: 256 });

    let entry = &mut reg.all[idx];
    entry.flags = promoted;
    if entry.handles < usize::MAX {
        entry.handles = entry.handles + 1;
    }

    let handle_deps = match &reg.all[idx].deps {
        Some(d) => clone_names(d),
        None => Vec::new(),
    };

    proof {
        assert(reg.all@ =~= old_reg.all@.update(
            idx as int,
            LibRecord {
                flags: spec_promotion(old_reg.all@[idx as int].flags, flags),
                handles: spec_sat_inc(old_reg.all@[idx as int].handles),
                ..old_reg.all@[idx as int]
            },
        ));
    }

    if now_global && !reg.global_contains(shortname) {
        let ghost pre = reg.global_names();
        reg.global.push(short_owned(shortname));
        proof {
            assert(reg.global_names() =~= pre.push(shortname@));
        }
    }

    proof {
        // the registry stays well-formed: names and the index are untouched,
        // and a pushed global name belongs to the record at idx
        assert(index_entries(reg.index) == index_model(old_reg.all@));
        assert forall|a: int, b: int|
            0 <= a < b < reg.all@.len() implies (#[trigger] reg.all@[a].shortname@) != (
        #[trigger] reg.all@[b].shortname@) by {
            assert(reg.all@[a].shortname@ == old_reg.all@[a].shortname@);
            assert(reg.all@[b].shortname@ == old_reg.all@[b].shortname@);
        }
        assert(index_model(old_reg.all@) =~= index_model(
            reg.all@,
        ));
        assert forall|g: int|
            0 <= g < reg.global@.len() implies #[trigger] reg.global_resolves_within(
            g,
            reg.all@.len() as int,
        ) by {
            if g < old_reg.global@.len() {
                assert(old_reg.global_resolves_within(g, old_reg.all@.len() as int));
                let w = choose|w: int|
                    0 <= w < old_reg.all@.len() && old_reg.global@[g]@ == (
                    #[trigger] old_reg.all@[w].shortname@);
                assert(reg.all@[w].shortname@ == old_reg.all@[w].shortname@);
            } else {
                assert(reg.global@[g]@ == shortname@);
                assert(reg.all@[idx as int].shortname@ == shortname@);
            }
        }
        assert forall|g: int, h: int|
            0 <= g < h < reg.global@.len() implies (#[trigger] reg.global@[g]@) != (
        #[trigger] reg.global@[h]@) by {
            if h >= old_reg.global@.len() {
                assert(!old_reg.global_names().contains(shortname@));
                assert(old_reg.global_names()[g] == old_reg.global@[g]@);
            }
        }
        assert forall|n: Seq<char>|
            old_reg.global_names().contains(n) implies #[trigger] reg.global_names().contains(
            n,
        ) by {
            let w = choose|w: int|
                0 <= w < old_reg.global_names().len() && old_reg.global_names()[w] == n;
            assert(reg.global_names()[w] == n);
        }
        if flags.spec_contains(OpenFlags { bits: 256 }) {
            let p = spec_promotion(old_reg.all@[idx as int].flags, flags);
            let a = old_reg.all@[idx as int].flags.bits;
            let b = flags.bits;
            assert((a | (b & (256u32 | 4096u32))) & 256u32 == 256u32 ==> true);
            assert(b & 256 == 256 ==> (a | (b & (256u32 | 4096u32))) & 256u32 == 256u32)
                by (bit_vector);
        }
    }

    proof {
        let i = idx as int;
        assert(reg.all@ == old(reg).all@.update(
            i,
            LibRecord {
                flags: spec_promotion(old(reg).all@[i].flags, flags),
                handles: spec_sat_inc(old(reg).all@[i].handles),
                ..old(reg).all@[i]
            },
        ));
        match old(reg).all@[i].deps {
            Some(d) => {},
            None => {
                assert(handle_deps@.map_values(|s: String| s@) =~= Seq::<Seq<char>>::empty());
            },
        }
        if flags.spec_contains(OpenFlags { bits: 256u32 }) {
            assert(now_global);
            if old_reg.global_names().contains(shortname@) {
                assert(reg.global_names().contains(shortname@));
            } else {
                assert(reg.global_names().last() == shortname@);
                assert(reg.global_names().contains(shortname@));
            }
        }
    }
    ExistingResult::Found(
        OpenHandle { shortname: short_owned(shortname), flags: promoted, deps: handle_deps },
    )
}

/// Copies a borrowed name into an owned string.
fn short_owned(s: &str) -> (r: String)
    ensures
        r@ == s@,
{
    s.to_owned()
}

} // verus!

verus! {

/// The member names of a name list, as character sequences.
pub open spec fn name_views(v: Seq<String>) -> Seq<Seq<char>> {
    v.map_values(|s: String| s@)
}

/// `name` is the short name of some registered record.
pub open spec fn resolvable(reg: Registry, name: Seq<char>) -> bool {
    exists|j: int| 0 <= j < reg.all@.len() && (#[trigger] reg.all@[j].shortname@) == name
}

/// A list of distinct names, each naming a registered record, cannot hold
/// more names than the registry holds records.
proof fn lemma_members_bound(reg: Registry, views: Seq<Seq<char>>)
    requires
        reg.wf(),
        views.no_duplicates(),
        forall|m: int| 0 <= m < views.len() ==> resolvable(reg, #[trigger] views[m]),
    ensures
        views.len() <= reg.all@.len(),
{
    broadcast use vstd::seq_lib::seq_to_set_is_finite;
    broadcast use vstd::set::group_set_axioms;

    let n = reg.all@.len() as int;
    let idx_of = |m: int|
        choose|j: int| 0 <= j < reg.all@.len() && reg.all@[j].shortname@ == views[m];
    let idxs = Seq::new(views.len(), idx_of);
    assert forall|m1: int, m2: int| 0 <= m1 < m2 < idxs.len() implies idxs[m1] != idxs[m2] by {
        assert(resolvable(reg, views[m1]));
        assert(resolvable(reg, views[m2]));
        assert(reg.all@[idxs[m1]].shortname@ == views[m1]);
        assert(reg.all@[idxs[m2]].shortname@ == views[m2]);
    }
    assert(idxs.no_duplicates());
    idxs.unique_seq_to_set();
    assert forall|x: int| idxs.to_set().contains(x) implies vstd::set_lib::set_int_range(
        0,
        n,
    ).contains(x) by {
        let m = choose|m: int| 0 <= m < idxs.len() && idxs[m] == x;
        assert(resolvable(reg, views[m]));
        assert(0 <= idxs[m] < n);
    }
    vstd::set_lib::lemma_int_range(0, n);
    vstd::set_lib::lemma_len_subset(idxs.to_set(), vstd::set_lib::set_int_range(0, n));
}

/// Tests whether the list already holds `name`.
fn contains_name(list: &Vec<String>, name: &str) -> (r: bool)
    ensures
        r == name_views(list@).contains(name@),
{
    let mut m: usize = 0;
    while m < list.len()
        invariant
            m <= list@.len(),
            forall|h: int| 0 <= h < m ==> (#[trigger] list@[h]@) != name@,
        decreases list@.len() - m,
    {
        if crate::path::str_eq(list[m].as_str(), name) {
            proof {
                assert(name_views(list@)[m as int] == name@);
            }
            return true;
        }
        m = m + 1;
    }
    proof {
        assert forall|h: int| 0 <= h < name_views(list@).len() implies name_views(list@)[h]
            != name@ by {
            assert(list@[h]@ != name@);
        }
    }
    false
}

/// Every dependency name the record at slot `k` carries is registered.
pub open spec fn record_needed_resolved(reg: Registry, k: int) -> bool {
    forall|n: int|
        0 <= n < reg.all@[k].needed@.len() ==> resolvable(reg, #[trigger] reg.all@[k].needed@[n]@)
}

/// The member at position `m` of `views` was brought in as a dependency of
/// an earlier member: some record named by a position before `m` requires it.
pub open spec fn discovered_by_earlier(reg: Registry, views: Seq<Seq<char>>, m: int) -> bool {
    exists|m2: int, k: int, q: int|
        {
            &&& 0 <= m2 < m
            &&& 0 <= k < reg.all@.len()
            &&& (#[trigger] reg.all@[k].shortname@) == (#[trigger] views[m2])
            &&& 0 <= q < reg.all@[k].needed@.len()
            &&& (#[trigger] reg.all@[k].needed@[q]@) == views[m]
        }
}

/// The record at slot `k` reaches, for every dependency name it carries that
/// is registered at all, a member of `views`.
pub open spec fn record_needed_covered(reg: Registry, k: int, views: Seq<Seq<char>>) -> bool {
    forall|n: int|
        0 <= n < reg.all@[k].needed@.len() && resolvable(reg, #[trigger] reg.all@[k].needed@[n]@)
            ==> views.contains(reg.all@[k].needed@[n]@)
}

/// Computes the Searchlist of a registered root: the breadth-first,
/// first-visit-ordered, deduplicated list of the root and its transitive
/// dependencies, by short name.
///
/// Every member names a registered record; the root stands first; every
/// later member was discovered as a dependency of an earlier member (the
/// queue grows in first-visit order); and for every member, every dependency
/// name it carries that is registered at all is itself a member. On a
/// registry whose records' dependencies are all registered, the list is
/// therefore closed under `needed`.
#[verifier::spinoff_prover]
pub fn compute_searchlist(reg: &Registry, root: &str) -> (r: Vec<String>)
    requires
        reg.wf(),
        resolvable(*reg, root@),
    ensures
        name_views(r@).len() >= 1,
        name_views(r@)[0] == root@,
        name_views(r@).no_duplicates(),
        forall|m: int| 0 <= m < r@.len() ==> resolvable(*reg, #[trigger] name_views(r@)[m]),
        forall|m: int, k: int|
            0 <= m < r@.len() && 0 <= k < reg.all@.len() && (#[trigger] reg.all@[k].shortname@)
                == (#[trigger] name_views(r@)[m]) ==> record_needed_covered(
                *reg,
                k,
                name_views(r@),
            ),
        forall|m: int| 1 <= m < r@.len() ==> #[trigger] discovered_by_earlier(
            *reg,
            name_views(r@),
            m,
        ),
{
    let mut list: Vec<String> = Vec::new();
    list.push(short_owned(root));
    proof {
        assert(name_views(list@) =~= seq![root@]);
    }
    let mut cursor: usize = 0;
    while cursor < list.len()
        invariant
            reg.wf(),
            1 <= list@.len(),
            cursor <= list@.len(),
            name_views(list@)[0] == root@,
            name_views(list@).no_duplicates(),
            forall|m: int|
                0 <= m < list@.len() ==> resolvable(*reg, #[trigger] name_views(list@)[m]),
            forall|m: int, k: int|
                0 <= m < cursor && 0 <= k < reg.all@.len() && (#[trigger] reg.all@[k].shortname@)
                    == (#[trigger] name_views(list@)[m]) ==> record_needed_covered(
                    *reg,
                    k,
                    name_views(list@),
                ),
            forall|m: int| 1 <= m < list@.len() ==> #[trigger] discovered_by_earlier(
                *reg,
                name_views(list@),
                m,
            ),
        decreases reg.all@.len() - cursor,
    {
        proof {
            lemma_members_bound(*reg, name_views(list@));
        }
        let k = match reg.lookup(list[cursor].as_str()) {
            Some(k) => k,
            None => {
                proof {
                    assert(resolvable(*reg, name_views(list@)[cursor as int]));
                    let w = choose|j: int|
                        0 <= j < reg.all@.len() && reg.all@[j].shortname@ == name_views(
                            list@,
                        )[cursor as int];
                    assert(false);
                }
                return list;
            },
        };
        let needed_len = reg.all[k].needed.len();
        let mut n: usize = 0;
        while n < needed_len
            invariant
                reg.wf(),
                k < reg.all@.len(),
                reg.all@[k as int].shortname@ == name_views(list@)[cursor as int],
                needed_len == reg.all@[k as int].needed@.len(),
                n <= needed_len,
                1 <= list@.len(),
                cursor < list@.len(),
                name_views(list@)[0] == root@,
                name_views(list@).no_duplicates(),
                forall|m: int|
                    0 <= m < list@.len() ==> resolvable(*reg, #[trigger] name_views(list@)[m]),
                forall|m: int, kk: int|
                    0 <= m < cursor && 0 <= kk < reg.all@.len() && (
                    #[trigger] reg.all@[kk].shortname@) == (#[trigger] name_views(list@)[m])
                        ==> record_needed_covered(*reg, kk, name_views(list@)),
                forall|nn: int|
                    0 <= nn < n && resolvable(*reg, #[trigger] reg.all@[k as int].needed@[nn]@)
                        ==> name_views(list@).contains(reg.all@[k as int].needed@[nn]@),
                forall|m: int| 1 <= m < list@.len() ==> #[trigger] discovered_by_earlier(
                    *reg,
                    name_views(list@),
                    m,
                ),
            decreases needed_len - n,
        {
            let dep = &reg.all[k].needed[n];
            match reg.lookup(dep.as_str()) {
                Some(_) => {
                    if !contains_name(&list, dep.as_str()) {
                        let ghost pre = name_views(list@);
                        list.push(dep.clone());
                        proof {
                            assert(name_views(list@) =~= pre.push(
                                reg.all@[k as int].needed@[n as int]@,
                            ));
                            assert forall|m: int|
                                0 <= m < list@.len() implies resolvable(
                                *reg,
                                #[trigger] name_views(list@)[m],
                            ) by {
                                if m < pre.len() {
                                    assert(name_views(list@)[m] == pre[m]);
                                }
                            }
                            assert forall|m: int, kk: int|
                                0 <= m < cursor && 0 <= kk < reg.all@.len() && (
                            #[trigger] reg.all@[kk].shortname@) == (#[trigger] name_views(
                                list@,
                            )[m]) implies record_needed_covered(*reg, kk, name_views(list@)) by {
                                assert(name_views(list@)[m] == pre[m]);
                                assert(record_needed_covered(*reg, kk, pre));
                                assert forall|q: int|
                                    0 <= q < reg.all@[kk].needed@.len() && resolvable(
                                    *reg,
                                    #[trigger] reg.all@[kk].needed@[q]@,
                                ) implies name_views(list@).contains(
                                    reg.all@[kk].needed@[q]@,
                                ) by {
                                    let w = choose|w: int|
                                        0 <= w < pre.len() && pre[w] == reg.all@[kk].needed@[q]@;
                                    assert(name_views(list@)[w] == reg.all@[kk].needed@[q]@);
                                }
                            }
                            assert forall|nn: int|
                                0 <= nn < n + 1 && resolvable(
                                *reg,
                                #[trigger] reg.all@[k as int].needed@[nn]@,
                            ) implies name_views(list@).contains(
                                reg.all@[k as int].needed@[nn]@,
                            ) by {
                                if nn < n {
                                    let w = choose|w: int|
                                        0 <= w < pre.len() && pre[w]
                                            == reg.all@[k as int].needed@[nn]@;
                                    assert(name_views(list@)[w]
                                        == reg.all@[k as int].needed@[nn]@);
                                } else {
                                    assert(name_views(list@).last()
                                        == reg.all@[k as int].needed@[nn]@);
                                }
                            }
                            // the pushed name was discovered by the member
                            // under the cursor
                            assert forall|m: int|
                                1 <= m < list@.len() implies #[trigger] discovered_by_earlier(
                                *reg,
                                name_views(list@),
                                m,
                            ) by {
                                if m < pre.len() {
                                    assert(discovered_by_earlier(*reg, pre, m));
                                    let (m2, kk, q) = choose|m2: int, kk: int, q: int|
                                        {
                                            &&& 0 <= m2 < m
                                            &&& 0 <= kk < reg.all@.len()
                                            &&& (#[trigger] reg.all@[kk].shortname@) == (
                                            #[trigger] pre[m2])
                                            &&& 0 <= q < reg.all@[kk].needed@.len()
                                            &&& (#[trigger] reg.all@[kk].needed@[q]@) == pre[m]
                                        };
                                    assert(name_views(list@)[m2] == pre[m2]);
                                    assert(name_views(list@)[m] == pre[m]);
                                } else {
                                    assert(name_views(list@)[cursor as int] == pre[cursor as int]);
                                    assert(reg.all@[k as int].shortname@ == name_views(
                                        list@,
                                    )[cursor as int]);
                                    assert(reg.all@[k as int].needed@[n as int]@ == name_views(
                                        list@,
                                    )[m]);
                                }
                            }
                        }
                    }
                },
                None => {
                    proof {
                        assert(!resolvable(*reg, reg.all@[k as int].needed@[n as int]@));
                    }
                },
            }
            n = n + 1;
        }
        proof {
            assert forall|m: int, kk: int|
                0 <= m < cursor + 1 && 0 <= kk < reg.all@.len() && (
            #[trigger] reg.all@[kk].shortname@) == (#[trigger] name_views(list@)[m])
                implies record_needed_covered(*reg, kk, name_views(list@)) by {
                if m == cursor {
                    assert(reg.all@[kk].shortname@ == reg.all@[k as int].shortname@);
                    assert(kk == k as int);
                }
            }
        }
        cursor = cursor + 1;
    }
    list
}

} // verus!

verus! {

/// How many records of `s` still sit in a `New` lifecycle state.
pub open spec fn count_new(s: Seq<LibRecord>) -> int
    decreases s.len(),
{
    if s.len() == 0 {
        0
    } else {
        count_new(s.drop_last()) + if s.last().state@ is New {
            1int
        } else {
            0int
        }
    }
}

/// Flipping one `New` record to another state lowers the count by one.
proof fn lemma_count_new_update(s: Seq<LibRecord>, i: int, rec: LibRecord)
    requires
        0 <= i < s.len(),
        s[i].state@ is New,
        !(rec.state@ is New),
    ensures
        count_new(s.update(i, rec)) == count_new(s) - 1,
    decreases s.len(),
{
    let t = s.update(i, rec);
    if i == s.len() - 1 {
        assert(t.drop_last() =~= s.drop_last());
    } else {
        assert(t.drop_last() =~= s.drop_last().update(i, rec));
        lemma_count_new_update(s.drop_last(), i, rec);
    }
}

/// The count is never negative.
proof fn lemma_count_new_nonneg(s: Seq<LibRecord>)
    ensures
        count_new(s) >= 0,
    decreases s.len(),
{
    if s.len() > 0 {
        lemma_count_new_nonneg(s.drop_last());
    }
}

/// Removes and returns the first object registered under `name`.
fn take_object(objects: &mut Vec<LoadedObject>, name: &str) -> (r: Option<LoadedObject>)
    ensures
        match r {
            Some(o) => exists|ri: int|
                {
                    &&& 0 <= ri < old(objects)@.len()
                    &&& o == old(objects)@[ri]
                    &&& o.shortname@ == name@
                    &&& final(objects)@ == old(objects)@.remove(ri)
                },
            None => {
                &&& final(objects)@ == old(objects)@
                &&& forall|ri: int|
                    0 <= ri < old(objects)@.len() ==> (#[trigger] old(
                        objects,
                    )@[ri].shortname@) != name@
            },
        },
{
    let mut ri: usize = 0;
    while ri < objects.len()
        invariant
            ri <= objects@.len(),
            objects@ == old(objects)@,
            forall|j: int| 0 <= j < ri ==> (#[trigger] objects@[j].shortname@) != name@,
        decreases objects@.len() - ri,
    {
        if crate::path::str_eq(objects[ri].shortname.as_str(), name) {
            let o = objects.remove(ri);
            return Some(o);
        }
        ri = ri + 1;
    }
    None
}

/// The record `r` with its lifecycle state set as `mark_states` sets it.
pub open spec fn spec_marked(r: LibRecord, relocated: bool) -> LibRecord {
    LibRecord {
        state: if relocated {
            crate::state::DylibState { code: 255 }
        } else {
            crate::state::DylibState { code: 254 }
        },
        ..r
    }
}

/// Sets the lifecycle state of every record named in `names`.
///
/// Everything but those records' states is left as it is.
#[verifier::spinoff_prover]
pub fn mark_states(reg: &mut Registry, names: &Vec<String>, relocated: bool)
    requires
        old(reg).wf(),
    ensures
        final(reg).wf(),
        final(reg).global@ == old(reg).global@,
        final(reg).adds == old(reg).adds,
        final(reg).subs == old(reg).subs,
        final(reg).all@.len() == old(reg).all@.len(),
        forall|k: int|
            0 <= k < old(reg).all@.len() ==> #[trigger] final(reg).all@[k] == (if name_views(
                names@,
            ).contains(old(reg).all@[k].shortname@) {
                spec_marked(old(reg).all@[k], relocated)
            } else {
                old(reg).all@[k]
            }),
{
    let ghost orig = *old(reg);
    let mut m: usize = 0;
    while m < names.len()
        invariant
            reg.wf(),
            orig == *old(reg),
            orig.wf(),
            m <= names@.len(),
            reg.global@ == orig.global@,
            reg.adds == orig.adds,
            reg.subs == orig.subs,
            reg.all@.len() == orig.all@.len(),
            index_entries(reg.index) == index_entries(orig.index),
            forall|k: int|
                0 <= k < orig.all@.len() ==> #[trigger] reg.all@[k] == (if name_views(
                    names@.take(m as int),
                ).contains(orig.all@[k].shortname@) {
                    spec_marked(orig.all@[k], relocated)
                } else {
                    orig.all@[k]
                }),
        decreases names@.len() - m,
    {
        let ghost pre = reg.all@;
        let found = reg.lookup(names[m].as_str());
        match found {
            Some(i) => {
                let entry = &mut reg.all[i];
                if relocated {
                    entry.state.set_relocated();
                } else {
                    entry.state.set_relocating();
                }
                proof {
                    assert(reg.all@ =~= pre.update(
                        i as int,
                        spec_marked(pre[i as int], relocated),
                    ));
                    assert(spec_marked(pre[i as int], relocated) == spec_marked(
                        orig.all@[i as int],
                        relocated,
                    ));
                }
            },
            None => {},
        }
        proof {
            assert forall|k: int|
                0 <= k < orig.all@.len() implies #[trigger] reg.all@[k] == (if name_views(
                names@.take(m + 1),
            ).contains(orig.all@[k].shortname@) {
                spec_marked(orig.all@[k], relocated)
            } else {
                orig.all@[k]
            }) by {
                let nm = orig.all@[k].shortname@;
                let tk = name_views(names@.take(m as int));
                let tk1 = name_views(names@.take(m + 1));
                assert(tk1 =~= tk.push(names@[m as int]@));
                assert(pre[k] == (if tk.contains(nm) {
                    spec_marked(orig.all@[k], relocated)
                } else {
                    orig.all@[k]
                }));
                assert(pre[k].shortname@ == nm);
                if tk.contains(nm) {
                    let w = choose|w: int| 0 <= w < tk.len() && tk[w] == nm;
                    assert(tk1[w] == nm);
                    assert(tk1.contains(nm));
                }
                if nm == names@[m as int]@ {
                    assert(tk1[m as int] == nm);
                    assert(tk1.contains(nm));
                }
                if !tk.contains(nm) && nm != names@[m as int]@ {
                    assert forall|w: int| 0 <= w < tk1.len() implies tk1[w] != nm by {
                        if w < m {
                            assert(tk1[w] == tk[w]);
                        }
                    }
                    assert(!tk1.contains(nm));
                }
                match found {
                    Some(i) => {
                        assert(pre[i as int].shortname@ == names@[m as int]@);
                        assert(orig.all@[i as int].shortname@ == names@[m as int]@);
                        if k == i {
                            assert(reg.all@[k] == spec_marked(pre[k], relocated));
                        } else {
                            assert(reg.all@[k] == pre[k]);
                            assert(nm != names@[m as int]@);
                        }
                    },
                    None => {
                        assert(reg.all@[k] == pre[k]);
                        assert(nm != names@[m as int]@);
                    },
                }
            }
            assert forall|k: int|
                0 <= k < orig.all@.len() implies #[trigger] reg.all@[k].shortname@
                == orig.all@[k].shortname@ by {}
            assert(index_model(reg.all@) =~= index_model(orig.all@));
            assert forall|g: int|
                0 <= g < reg.global@.len() implies #[trigger] reg.global_resolves_within(
                g,
                reg.all@.len() as int,
            ) by {
                assert(0 <= g < orig.global@.len());
                assert(orig.global_resolves_within(g, orig.all@.len() as int));
                let w = choose|w: int|
                    0 <= w < orig.all@.len() && orig.global@[g]@ == (
                    #[trigger] orig.all@[w].shortname@);
                assert(reg.all@[w].shortname@ == orig.all@[w].shortname@);
            }
        }
        m = m + 1;
    }
    proof {
        assert(names@.take(names@.len() as int) =~= names@);
    }
}

} // verus!

verus! {

/// Scans the dependency names of the record at `slot`, starting at position
/// `from`, for the first one that resolves to a record still in a `New`
/// state.
fn find_new_dep(reg: &Registry, slot: usize, from: usize) -> (r: Option<(usize, usize)>)
    requires
        reg.wf(),
        slot < reg.all@.len(),
    ensures
        match r {
            Some(p) => {
                &&& from <= p.0 < reg.all@[slot as int].needed@.len()
                &&& p.0 < usize::MAX
                &&& p.1 < reg.all@.len()
                &&& reg.all@[p.1 as int].state@ is New
                &&& reg.all@[p.1 as int].shortname@ == reg.all@[slot as int].needed@[p.0 as int]@
                &&& forall|j: int, dd: int|
                    from <= j < p.0 && 0 <= dd < reg.all@.len() && (
                    #[trigger] reg.all@[dd].shortname@) == (
                    #[trigger] reg.all@[slot as int].needed@[j]@) ==> !(reg.all@[dd].state@
                        is New)
            },
            None => forall|j: int, dd: int|
                from <= j < reg.all@[slot as int].needed@.len() && 0 <= dd < reg.all@.len() && (
                #[trigger] reg.all@[dd].shortname@) == (
                #[trigger] reg.all@[slot as int].needed@[j]@) ==> !(reg.all@[dd].state@ is New),
        },
{
    let needed_len = reg.all[slot].needed.len();
    let mut j = from;
    while j < needed_len
        invariant
            reg.wf(),
            slot < reg.all@.len(),
            from <= j,
            needed_len == reg.all@[slot as int].needed@.len(),
            forall|jj: int, dd: int|
                from <= jj < j && 0 <= dd < reg.all@.len() && (#[trigger] reg.all@[dd].shortname@)
                    == (#[trigger] reg.all@[slot as int].needed@[jj]@) ==> !(reg.all@[dd].state@
                    is New),
        decreases needed_len - j,
    {
        match reg.lookup(reg.all[slot].needed[j].as_str()) {
            Some(d) => {
                if reg.all[d].state.get_new_idx().is_some() {
                    return Some((j, d));
                }
                proof {
                    assert forall|dd: int|
                        0 <= dd < reg.all@.len() && (#[trigger] reg.all@[dd].shortname@)
                            == reg.all@[slot as int].needed@[j as int]@ implies !(
                    reg.all@[dd].state@ is New) by {
                        if dd != d as int {
                            assert(reg.all@[dd].shortname@ != reg.all@[d as int].shortname@);
                        }
                    }
                }
            },
            None => {},
        }
        j = j + 1;
    }
    None
}

/// The record at slot `a` directly requires the record at slot `b`: one of
/// `a`'s dependency names is `b`'s short name.
pub open spec fn needs_edge(s: Seq<LibRecord>, a: int, b: int) -> bool {
    exists|q: int|
        0 <= q < s[a].needed@.len() && (#[trigger] s[a].needed@[q]@) == s[b].shortname@
}

/// `path` walks batch slots (at or above `chk`) along direct requirements.
pub open spec fn needs_path(s: Seq<LibRecord>, chk: int, path: Seq<int>) -> bool {
    &&& path.len() >= 1
    &&& forall|i: int| 0 <= i < path.len() ==> chk <= (#[trigger] path[i]) < s.len()
    &&& forall|i: int| 0 <= i < path.len() - 1 ==> needs_edge(s, #[trigger] path[i], path[i + 1])
}

/// Slot `a` requires slot `b`, possibly through other batch slots (a slot
/// trivially reaches itself).
pub open spec fn batch_reaches(s: Seq<LibRecord>, chk: int, a: int, b: int) -> bool {
    exists|path: Seq<int>|
        needs_path(s, chk, path) && path[0] == a && path[path.len() - 1] == b
}

/// Produces the order in which the libraries of the current load batch —
/// the records from `chk_all` on — are to be relocated: a depth-first
/// post-order over their dependency graph, the transaction root first and
/// cycles broken at the second visit; any batch slot the root does not reach
/// is scheduled by a sweep afterwards. Visited records are flipped from
/// `New` to `Relocated`.
///
/// The schedule lists exactly the batch slots that were in a `New` state,
/// each once, as offsets from `chk_all`; and each scheduled library comes
/// after every batch library it requires, except across a requirement cycle.
#[verifier::rlimit(100)]
#[verifier::spinoff_prover]
pub fn compute_order(reg: &mut Registry, chk_all: usize) -> (r: Vec<usize>)
    requires
        old(reg).wf(),
        chk_all < old(reg).all@.len(),
        forall|k: int| 0 <= k < chk_all ==> !((#[trigger] old(reg).all@[k].state)@ is New),
    ensures
        final(reg).wf(),
        final(reg).all@.len() == old(reg).all@.len(),
        final(reg).global@ == old(reg).global@,
        final(reg).adds == old(reg).adds,
        final(reg).subs == old(reg).subs,
        forall|k: int|
            0 <= k < old(reg).all@.len() ==> #[trigger] final(reg).all@[k] == old(reg).all@[k] || (
            chk_all <= k && old(reg).all@[k].state@ is New && final(reg).all@[k] == LibRecord {
                state: crate::state::DylibState { code: 255 },
                ..old(reg).all@[k]
            }),
        forall|e: int| 0 <= e < r@.len() ==> (#[trigger] r@[e]) < old(reg).all@.len() - chk_all,
        r@.no_duplicates(),
        // only libraries of the batch that were awaiting relocation are scheduled
        forall|e: int|
            0 <= e < r@.len() ==> (#[trigger] old(reg).all@[chk_all + r@[e]].state)@ is New,
        // and every one of them is scheduled, and ends up relocated
        forall|k: int|
            chk_all <= k < old(reg).all@.len() && (#[trigger] old(reg).all@[k].state)@ is New
                ==> r@.contains((k - chk_all) as usize) && final(reg).all@[k].state@ is Relocated,
        // a scheduled library follows each batch library it requires, unless
        // that library requires it back (a cycle)
        forall|e1: int, q: int, d: int|
            0 <= e1 < r@.len() && 0 <= q < old(reg).all@[chk_all + r@[e1]].needed@.len() && chk_all
                <= d < old(reg).all@.len() && (#[trigger] old(reg).all@[d].shortname@) == (
            #[trigger] old(reg).all@[chk_all + r@[e1]].needed@[q]@) && old(reg).all@[d].state@
                is New ==> (exists|e2: int| 0 <= e2 < e1 && r@[e2] == (d - chk_all) as usize)
                || batch_reaches(old(reg).all@, chk_all as int, d, chk_all + r@[e1]),
{
    let ghost orig = *old(reg);
    let mut order: Vec<usize> = Vec::new();
    let mut stack: Vec<(usize, usize)> = Vec::new();
    let total = reg.all.len();

    // the transaction root first, then a sweep over anything it cannot reach
    let mut k = chk_all;
    while k < total
        invariant
            reg.wf(),
            orig.wf(),
            orig == *old(reg),
            chk_all <= k <= total,
            chk_all < total,
            total == reg.all@.len(),
            reg.all@.len() == orig.all@.len(),
            reg.global@ == orig.global@,
            reg.adds == orig.adds,
            reg.subs == orig.subs,
            index_entries(reg.index) == index_entries(orig.index),
            stack@.len() == 0,
            forall|kk: int|
                0 <= kk < orig.all@.len() ==> #[trigger] reg.all@[kk] == orig.all@[kk] || (chk_all
                    <= kk && orig.all@[kk].state@ is New && reg.all@[kk] == LibRecord {
                    state: crate::state::DylibState { code: 255 },
                    ..orig.all@[kk]
                }),
            forall|kk: int| 0 <= kk < chk_all ==> !((#[trigger] reg.all@[kk].state)@ is New),
            // everything swept so far has been relocated
            forall|kk: int|
                chk_all <= kk < k && (#[trigger] orig.all@[kk].state)@ is New
                    ==> reg.all@[kk].state@ is Relocated,
            // the schedule lists distinct batch offsets of once-New libraries
            forall|e: int| 0 <= e < order@.len() ==> (#[trigger] order@[e]) < total - chk_all,
            order@.no_duplicates(),
            forall|e: int|
                0 <= e < order@.len() ==> (#[trigger] orig.all@[chk_all + order@[e]].state)@
                    is New && reg.all@[chk_all + order@[e]].state@ is Relocated,
            // everything flipped so far is on the schedule
            forall|off: int|
                0 <= off < total - chk_all && (#[trigger] orig.all@[chk_all + off].state)@ is New
                    && reg.all@[chk_all + off].state@ is Relocated ==> order@.contains(
                    off as usize,
                ),
            // the dependency-order property, in its final form
            forall|e1: int, q: int, d: int|
                0 <= e1 < order@.len() && 0 <= q < orig.all@[chk_all + order@[e1]].needed@.len()
                    && chk_all <= d < orig.all@.len() && (#[trigger] orig.all@[d].shortname@) == (
                #[trigger] orig.all@[chk_all + order@[e1]].needed@[q]@) && orig.all@[d].state@
                    is New ==> (exists|e2: int|
                    0 <= e2 < e1 && order@[e2] == (d - chk_all) as usize) || batch_reaches(
                    orig.all@,
                    chk_all as int,
                    d,
                    chk_all + order@[e1],
                ),
        decreases total - k,
    {
        if reg.all[k].state.get_new_idx().is_some() {
            let ghost pre0 = *reg;
            let entry = &mut reg.all[k];
            entry.state.set_relocated();
            stack.push((k - chk_all, 0));
            proof {
                assert(reg.all@ =~= pre0.all@.update(
                    k as int,
                    LibRecord {
                        state: crate::state::DylibState { code: 255 },
                        ..pre0.all@[k as int]
                    },
                ));
                crate::registry::lemma_wf_preserved(pre0, *reg);
                lemma_count_new_update(
                    pre0.all@,
                    k as int,
                    LibRecord {
                        state: crate::state::DylibState { code: 255 },
                        ..pre0.all@[k as int]
                    },
                );
                assert(orig.all@[k as int].state@ is New);
                // the slot at hand was not yet relocated, so not yet scheduled
                assert forall|e: int|
                    0 <= e < order@.len() implies (#[trigger] order@[e]) != (k
                    - chk_all) as usize by {
                    if order@[e] == (k - chk_all) as usize {
                        assert(pre0.all@[chk_all + order@[e]].state@ is Relocated);
                    }
                }
                assert forall|off: int|
                    0 <= off < total - chk_all && (#[trigger] orig.all@[chk_all + off].state)@
                        is New && reg.all@[chk_all + off].state@ is Relocated implies
                    order@.contains(off as usize) || exists|s: int|
                    0 <= s < stack@.len() && (#[trigger] stack@[s]).0 == off as usize by {
                    if chk_all + off == k {
                        assert(stack@[0].0 == off as usize);
                    } else {
                        assert(pre0.all@[chk_all + off].state@ is Relocated);
                    }
                }
            }

            while stack.len() > 0
                invariant
                    reg.wf(),
                    orig.wf(),
                    orig == *old(reg),
                    chk_all < total,
                    total == reg.all@.len(),
                    reg.all@.len() == orig.all@.len(),
                    reg.global@ == orig.global@,
                    reg.adds == orig.adds,
                    reg.subs == orig.subs,
                    index_entries(reg.index) == index_entries(orig.index),
                    forall|kk: int|
                        0 <= kk < orig.all@.len() ==> #[trigger] reg.all@[kk] == orig.all@[kk] || (
                        chk_all <= kk && orig.all@[kk].state@ is New && reg.all@[kk] == LibRecord {
                            state: crate::state::DylibState { code: 255 },
                            ..orig.all@[kk]
                        }),
                    forall|kk: int|
                        0 <= kk < chk_all ==> !((#[trigger] reg.all@[kk].state)@ is New),
                    chk_all <= k < total,
                    reg.all@[k as int].state@ is Relocated,
                    forall|kk: int|
                        chk_all <= kk < k && (#[trigger] orig.all@[kk].state)@ is New
                            ==> reg.all@[kk].state@ is Relocated,
                    forall|e: int|
                        0 <= e < order@.len() ==> (#[trigger] order@[e]) < total - chk_all,
                    forall|s: int|
                        0 <= s < stack@.len() ==> (#[trigger] stack@[s]).0 < total - chk_all,
                    order@.no_duplicates(),
                    forall|s: int, t: int|
                        0 <= s < t < stack@.len() ==> (#[trigger] stack@[s]).0 != (
                        #[trigger] stack@[t]).0,
                    forall|e: int, s: int|
                        0 <= e < order@.len() && 0 <= s < stack@.len() ==> (#[trigger] order@[e])
                            != (#[trigger] stack@[s]).0,
                    forall|e: int|
                        0 <= e < order@.len() ==> (#[trigger] orig.all@[chk_all
                            + order@[e]].state)@ is New && reg.all@[chk_all + order@[e]].state@
                            is Relocated,
                    forall|s: int|
                        0 <= s < stack@.len() ==> (#[trigger] orig.all@[chk_all
                            + stack@[s].0].state)@ is New && reg.all@[chk_all
                            + stack@[s].0].state@ is Relocated,
                    // everything flipped is on the schedule or still on the stack
                    forall|off: int|
                        0 <= off < total - chk_all && (#[trigger] orig.all@[chk_all
                            + off].state)@ is New && reg.all@[chk_all + off].state@ is Relocated
                            ==> order@.contains(off as usize) || exists|s: int|
                            0 <= s < stack@.len() && (#[trigger] stack@[s]).0 == off as usize,
                    // consecutive stack entries are requirement edges
                    forall|s: int|
                        0 <= s < stack@.len() - 1 ==> needs_edge(
                            orig.all@,
                            chk_all + (#[trigger] stack@[s]).0,
                            chk_all + stack@[s + 1].0,
                        ),
                    // dependency names already walked past are all flipped
                    forall|s: int, j2: int, d: int|
                        0 <= s < stack@.len() && 0 <= j2 < (#[trigger] stack@[s]).1 && j2
                            < orig.all@[chk_all + stack@[s].0].needed@.len() && chk_all <= d
                            < orig.all@.len() && (#[trigger] orig.all@[d].shortname@) == (
                        #[trigger] orig.all@[chk_all + stack@[s].0].needed@[j2]@)
                            && orig.all@[d].state@ is New ==> reg.all@[d].state@ is Relocated,
                    forall|e1: int, q: int, d: int|
                        0 <= e1 < order@.len() && 0 <= q < orig.all@[chk_all
                            + order@[e1]].needed@.len() && chk_all <= d < orig.all@.len() && (
                        #[trigger] orig.all@[d].shortname@) == (#[trigger] orig.all@[chk_all
                            + order@[e1]].needed@[q]@) && orig.all@[d].state@ is New ==> (exists|
                            e2: int,
                        | 0 <= e2 < e1 && order@[e2] == (d - chk_all) as usize) || batch_reaches(
                            orig.all@,
                            chk_all as int,
                            d,
                            chk_all + order@[e1],
                        ),
                decreases 2 * count_new(reg.all@) + stack@.len(),
            {
                proof {
                    lemma_count_new_nonneg(reg.all@);
                }
                let ghost pre_stack = stack@;
                let (idx, next) = stack[stack.len() - 1];
                let _ = stack.pop();
                assert(idx < total - chk_all);
                let slot = chk_all + idx;
                proof {
                    assert(reg.all@[slot as int].needed == orig.all@[slot as int].needed);
                }
                match find_new_dep(reg, slot, next) {
                    Some((j, d)) => {
                        let ghost pre = *reg;
                        let entry = &mut reg.all[d];
                        entry.state.set_relocated();
                        proof {
                            assert(reg.all@ =~= pre.all@.update(
                                d as int,
                                LibRecord {
                                    state: crate::state::DylibState { code: 255 },
                                    ..pre.all@[d as int]
                                },
                            ));
                            crate::registry::lemma_wf_preserved(pre, *reg);
                            lemma_count_new_update(
                                pre.all@,
                                d as int,
                                LibRecord {
                                    state: crate::state::DylibState { code: 255 },
                                    ..pre.all@[d as int]
                                },
                            );
                        }
                        stack.push((idx, j + 1));
                        stack.push((d - chk_all, 0));
                        proof {
                            // the fresh top pair is a requirement edge
                            assert(orig.all@[d as int].shortname@ == orig.all@[slot as int].needed@[j as int]@);
                            assert(needs_edge(orig.all@, slot as int, d as int));
                            assert forall|s: int|
                                0 <= s < stack@.len() - 1 implies needs_edge(
                                orig.all@,
                                chk_all + (#[trigger] stack@[s]).0,
                                chk_all + stack@[s + 1].0,
                            ) by {
                                if s < stack@.len() - 2 {
                                    assert(stack@[s] == pre_stack[s]);
                                    assert(stack@[s + 1].0 == pre_stack[s + 1].0);
                                }
                            }
                            // everything flipped stays on the schedule or stack
                            assert forall|off: int|
                                0 <= off < total - chk_all && (#[trigger] orig.all@[chk_all
                                    + off].state)@ is New && reg.all@[chk_all + off].state@
                                    is Relocated implies order@.contains(off as usize) || exists|
                                s: int,
                            | 0 <= s < stack@.len() && (#[trigger] stack@[s]).0 == off as usize by {
                                if chk_all + off == d {
                                    assert(stack@[stack@.len() - 1].0 == off as usize);
                                } else {
                                    assert(pre.all@[chk_all + off].state@ is Relocated);
                                    if !order@.contains(off as usize) {
                                        let s0 = choose|s0: int|
                                            0 <= s0 < pre_stack.len() && (
                                            #[trigger] pre_stack[s0]).0 == off as usize;
                                        if s0 < pre_stack.len() - 1 {
                                            assert(stack@[s0].0 == off as usize);
                                        } else {
                                            assert(pre_stack[s0].0 == idx);
                                            assert(stack@[stack@.len() - 2].0 == off as usize);
                                        }
                                    }
                                }
                            }
                        }
                    },
                    None => {
                        let ghost pre_order = order@;
                        order.push(idx);
                        proof {
                            // the completed library: each of its once-New
                            // requirements is scheduled earlier or cyclic
                            let c = orig.all@;
                            let e1 = pre_order.len() as int;
                            assert(order@[e1] == idx);
                            assert forall|q: int, d: int|
                                0 <= q < c[slot as int].needed@.len() && chk_all <= d < c.len()
                                    && (#[trigger] c[d].shortname@) == (
                                #[trigger] c[slot as int].needed@[q]@) && c[d].state@ is New
                                    implies (exists|e2: int|
                                    0 <= e2 < e1 && order@[e2] == (d - chk_all) as usize)
                                    || batch_reaches(c, chk_all as int, d, slot as int) by {
                                // every requirement of the completed library is flipped
                                assert(reg.all@[d].state@ is Relocated);
                                let offi = d - chk_all;
                                assert((orig.all@[chk_all + offi].state)@ is New);
                                assert(reg.all@[chk_all + offi].state@ is Relocated);
                                if d == slot as int {
                                    let path = seq![d];
                                    assert(path.len() == 1 && path[0] == d && path[path.len()
                                        - 1] == d);
                                    assert(needs_path(c, chk_all as int, path) && path[0] == d
                                        && path[path.len() - 1] == slot as int);
                                    assert(batch_reaches(c, chk_all as int, d, slot as int));
                                } else {
                                    let off = (d - chk_all) as usize;
                                    if pre_order.contains(off) {
                                        let e2 = choose|e2: int|
                                            0 <= e2 < pre_order.len() && pre_order[e2] == off;
                                        assert(order@[e2] == off);
                                    } else {
                                        // it sits on the stack: an ancestor, so a cycle
                                        assert(exists|s: int|
                                            0 <= s < pre_stack.len() && (
                                            #[trigger] pre_stack[s]).0 == off);
                                        let s = choose|s: int|
                                            0 <= s < pre_stack.len() && (
                                            #[trigger] pre_stack[s]).0 == off;
                                        assert(s < pre_stack.len() - 1);
                                        let m = pre_stack.len() - 1 - s;
                                        let path = Seq::new(
                                            (m + 1) as nat,
                                            |t: int|
                                                if t < m {
                                                    chk_all + pre_stack[s + t].0
                                                } else {
                                                    slot as int
                                                },
                                        );
                                        assert(path[0] == d);
                                        assert(path[path.len() - 1] == slot as int);
                                        assert forall|i: int|
                                            0 <= i < path.len() - 1 implies needs_edge(
                                            c,
                                            #[trigger] path[i],
                                            path[i + 1],
                                        ) by {
                                            if i < m - 1 {
                                                assert(path[i] == chk_all + pre_stack[s + i].0);
                                                assert(path[i + 1] == chk_all + pre_stack[s + i
                                                    + 1].0);
                                                assert(s + i < pre_stack.len() - 1);
                                            } else {
                                                assert(s + i == pre_stack.len() - 2);
                                                assert(path[i] == chk_all + pre_stack[
                                                    pre_stack.len() - 2].0);
                                                assert(path[i + 1] == slot as int);
                                                assert(pre_stack[pre_stack.len() - 1].0 == idx);
                                            }
                                        }
                                        assert(needs_path(c, chk_all as int, path));
                                        assert(batch_reaches(c, chk_all as int, d, slot as int));
                                    }
                                }
                            }
                            // earlier schedule entries keep their property
                            assert forall|e1b: int, q: int, d: int|
                                0 <= e1b < order@.len() && 0 <= q < c[chk_all
                                    + order@[e1b]].needed@.len() && chk_all <= d < c.len() && (
                                #[trigger] c[d].shortname@) == (#[trigger] c[chk_all
                                    + order@[e1b]].needed@[q]@) && c[d].state@ is New implies (
                            exists|e2: int| 0 <= e2 < e1b && order@[e2] == (d - chk_all) as usize)
                                || batch_reaches(c, chk_all as int, d, chk_all + order@[e1b]) by {
                                if e1b < pre_order.len() {
                                    assert(order@[e1b] == pre_order[e1b]);
                                    if exists|e2: int|
                                        0 <= e2 < e1b && pre_order[e2] == (d - chk_all) as usize {
                                        let e2 = choose|e2: int|
                                            0 <= e2 < e1b && pre_order[e2] == (d
                                                - chk_all) as usize;
                                        assert(order@[e2] == (d - chk_all) as usize);
                                    }
                                }
                            }
                            // everything flipped is still on the schedule or stack
                            assert forall|off: int|
                                0 <= off < total - chk_all && (#[trigger] orig.all@[chk_all
                                    + off].state)@ is New && reg.all@[chk_all + off].state@
                                    is Relocated implies order@.contains(off as usize) || exists|
                                s: int,
                            | 0 <= s < stack@.len() && (#[trigger] stack@[s]).0 == off as usize by {
                                if off as usize == idx {
                                    assert(order@[order@.len() - 1] == idx);
                                    assert(order@.contains(off as usize));
                                } else {
                                    if pre_order.contains(off as usize) {
                                        let e2 = choose|e2: int|
                                            0 <= e2 < pre_order.len() && pre_order[e2]
                                                == off as usize;
                                        assert(order@[e2] == off as usize);
                                    } else {
                                        let s = choose|s: int|
                                            0 <= s < pre_stack.len() && (
                                            #[trigger] pre_stack[s]).0 == off as usize;
                                        assert(s < pre_stack.len() - 1);
                                        assert(stack@[s].0 == off as usize);
                                    }
                                }
                            }
                        }
                    },
                }
            }
        }
        proof {
            // the slot at hand is settled either way
            if orig.all@[k as int].state@ is New {
                if reg.all@[k as int] == orig.all@[k as int] {
                    assert(reg.all@[k as int].state@ is New);
                }
                assert(reg.all@[k as int].state@ is Relocated);
            }
        }
        k = k + 1;
    }
    proof {
        // an empty stack leaves every flipped library on the schedule
        assert forall|kk: int|
            chk_all <= kk < orig.all@.len() && (#[trigger] orig.all@[kk].state)@ is New
                implies order@.contains(((kk - chk_all) as usize)) && reg.all@[kk].state@
            is Relocated by {
            assert(reg.all@[kk].state@ is Relocated);
            let off = kk - chk_all;
            assert(orig.all@[chk_all + off].state@ is New);
        }
    }
    order
}

} // verus!

verus! {

/// The record carries exactly the parsed facts of the object: same key,
/// path, mapping, dependencies and symbols.
pub open spec fn record_matches_object(rec: LibRecord, o: LoadedObject) -> bool {
    &&& rec.shortname == o.shortname
    &&& rec.full_name == o.full_name
    &&& rec.base == o.base
    &&& rec.mapped_len == o.mapped_len
    &&& rec.needed == o.needed
    &&& rec.rpath == o.rpath
    &&& rec.runpath == o.runpath
    &&& rec.symbols == o.symbols
}

/// `b` is `a`, possibly promoted to the global scope.
pub open spec fn flags_promoted_from(a: LibRecord, b: LibRecord) -> bool {
    b == a || b == LibRecord { flags: a.flags.spec_with(OpenFlags { bits: 256 }), ..a }
}

/// `b` is `a` with at most its Searchlist changed.
pub open spec fn same_but_deps(a: LibRecord, b: LibRecord) -> bool {
    b == LibRecord { deps: b.deps, ..a }
}

/// Some object in `objs` is registered under `n`.
pub open spec fn object_named(objs: Seq<LoadedObject>, n: Seq<char>) -> bool {
    exists|i: int| 0 <= i < objs.len() && (#[trigger] objs[i].shortname@) == n
}

/// `n` is required by some registered record or by some provided object.
pub open spec fn needed_name(reg: Registry, objs: Seq<LoadedObject>, n: Seq<char>) -> bool {
    ||| exists|k: int, q: int|
        0 <= k < reg.all@.len() && 0 <= q < reg.all@[k].needed@.len() && (
        #[trigger] reg.all@[k].needed@[q]@) == n
    ||| exists|o: int, q: int|
        0 <= o < objs.len() && 0 <= q < objs[o].needed@.len() && (#[trigger] objs[o].needed@[q]@)
            == n
}

/// The standing state of a load transaction over the registry: records below
/// the checkpoint keep their identity (at most promoted to global), records
/// above it are this transaction's new libraries, and the global scope has
/// only grown.
pub open spec fn tx_inv(orig: Registry, reg: Registry, chk_all: int, chk_glob: int) -> bool {
    &&& reg.wf()
    &&& chk_all == orig.all@.len()
    &&& chk_glob == orig.global@.len()
    &&& chk_all <= reg.all@.len()
    &&& chk_glob <= reg.global@.len()
    &&& forall|k: int|
        0 <= k < chk_all ==> flags_promoted_from(orig.all@[k], #[trigger] reg.all@[k])
    &&& reg.global_names().take(chk_glob) == orig.global_names()
    &&& reg.subs == orig.subs
    &&& forall|k: int|
        chk_all <= k < reg.all@.len() ==> ((#[trigger] reg.all@[k].state)@ is New)
}

/// Under the transaction invariant, the checkpointed global prefix resolves
/// among the checkpointed records, so the registry can be truncated back.
proof fn lemma_rollback_pre(orig: Registry, reg: Registry, chk_all: int, chk_glob: int)
    requires
        orig.wf(),
        tx_inv(orig, reg, chk_all, chk_glob),
    ensures
        forall|g: int| 0 <= g < chk_glob ==> #[trigger] reg.global_resolves_within(g, chk_all),
{
    assert forall|g: int| 0 <= g < chk_glob implies #[trigger] reg.global_resolves_within(
        g,
        chk_all,
    ) by {
        assert(orig.global_resolves_within(g, orig.all@.len() as int));
        let w = choose|w: int|
            0 <= w < orig.all@.len() && orig.global@[g]@ == (#[trigger] orig.all@[w].shortname@);
        assert(flags_promoted_from(orig.all@[w], reg.all@[w]));
        assert(reg.all@[w].shortname@ == orig.all@[w].shortname@);
        assert(reg.global_names().take(chk_glob)[g] == orig.global_names()[g]);
        assert(reg.global@[g]@ == orig.global@[g]@);
    }
}

/// Undoes a failed transaction: every record and global name registered
/// since the checkpoints is dropped again.
fn rollback(reg: &mut Registry, chk_all: usize, chk_glob: usize, Ghost(orig): Ghost<Registry>)
    requires
        orig.wf(),
        tx_inv(orig, *old(reg), chk_all as int, chk_glob as int),
    ensures
        final(reg).wf(),
        final(reg).all@.len() == orig.all@.len(),
        final(reg).global_names() == orig.global_names(),
        final(reg).adds == old(reg).adds,
        final(reg).subs == orig.subs,
        forall|k: int|
            0 <= k < chk_all ==> flags_promoted_from(orig.all@[k], #[trigger] final(reg).all@[k]),
{
    proof {
        lemma_rollback_pre(orig, *reg, chk_all as int, chk_glob as int);
        assert(reg.global_names().take(chk_glob as int) == orig.global_names());
    }
    reg.truncate(chk_all, chk_glob);
    proof {
        assert forall|k: int|
            0 <= k < chk_all implies flags_promoted_from(
            orig.all@[k],
            #[trigger] reg.all@[k],
        ) by {
            assert(reg.all@[k] == old(reg).all@.take(chk_all as int)[k]);
        }
    }
}

} // verus!

verus! {

/// Opens a library through the full transaction, drawing any object that is
/// not yet registered from `objects` — the loader collaborator's parses,
/// keyed by short name.
///
/// The phases follow the lifecycle engine: dedup against the registry with
/// monotone flag promotion; breadth-first loading of every transitively
/// needed object; Searchlist computation for each new library; a depth-first
/// post-order relocation schedule; and the state walk to `Relocated`. Any
/// failure rolls the registry back to its checkpointed lengths; flag
/// promotions on already-resident libraries persist, as they do in the
/// running process.
#[verifier::rlimit(100)]
#[verifier::spinoff_prover]
pub fn dlopen_resolved(
    reg: &mut Registry,
    path: &str,
    flags: OpenFlags,
    ld_bind_now: bool,
    objects: Vec<LoadedObject>,
) -> (r: Result<OpenHandle, Error>)
    requires
        old(reg).wf(),
        quiescent(*old(reg)),
        old(reg).adds + objects@.len() + 1 <= u64::MAX,
    ensures
        final(reg).wf(),
        quiescent(*final(reg)),
        final(reg).subs == old(reg).subs,
        // rollback atomicity: on failure the registry keeps its sizes and
        // its global scope; records keep their names
        r is Err ==> final(reg).all@.len() == old(reg).all@.len() && final(reg).global_names()
            == old(reg).global_names() && (forall|k: int|
            0 <= k < old(reg).all@.len() ==> flags_promoted_from(
                old(reg).all@[k],
                #[trigger] final(reg).all@[k],
            )),
        // the global scope only ever grows
        forall|n: Seq<char>|
            old(reg).global_names().contains(n) ==> #[trigger] final(reg).global_names().contains(
                n,
            ),
        // the handle names the root
        r matches Ok(h) ==> h.shortname@ == spec_short_name(path@),
        // dedup: a registered, relocated root is reused and the registry
        // does not grow
        resolvable(*old(reg), spec_short_name(path@)) && !flags.spec_contains(
            OpenFlags { bits: 1024 },
        ) ==> r is Ok && final(reg).all@.len() == old(reg).all@.len(),
        // a global (re-)open leaves the root in the global scope
        r is Ok && flags.spec_contains(OpenFlags { bits: 256 }) && !flags.spec_contains(
            OpenFlags { bits: 1024 },
        ) ==> final(reg).global_names().contains(spec_short_name(path@)),
        // RTLD_NOLOAD never loads
        !resolvable(*old(reg), spec_short_name(path@)) && flags.spec_contains(
            OpenFlags { bits: 4 },
        ) && !flags.spec_contains(OpenFlags { bits: 1024 }) ==> r is Err,
        // the handle walks the searchlist its registry record holds
        !flags.spec_contains(OpenFlags { bits: 1024 }) ==> match r {
            Ok(h) => exists|i: int|
                {
                    &&& 0 <= i < final(reg).all@.len()
                    &&& (#[trigger] final(reg).all@[i].shortname@) == h.shortname@
                    &&& (match final(reg).all@[i].deps {
                        Some(d) => name_views(d@) == name_views(h.deps@),
                        None => name_views(h.deps@) == Seq::<Seq<char>>::empty(),
                    })
                },
            Err(e) => true,
        },
        // failure has a reason, and the error says which name failed:
        // NOLOAD on an absent root, a batch past the encodable size, or a
        // name that neither the registry nor the given objects can supply
        r matches Err(e) ==> e matches Error::FindLibError { msg } && ((flags.spec_contains(
            OpenFlags { bits: 4 },
        ) && !resolvable(*old(reg), spec_short_name(path@)) && msg@ == spec_short_name(path@)) || (
        objects@.len() >= 254 && msg@ == spec_short_name(path@)) || {
            &&& (msg@ == spec_short_name(path@) || needed_name(*old(reg), objects@, msg@))
            &&& !resolvable(*old(reg), msg@)
            &&& !object_named(objects@, msg@)
        }),
        // every newly registered record is built from the object of its name
        !flags.spec_contains(OpenFlags { bits: 1024 }) && r is Ok ==> forall|k: int|
            old(reg).all@.len() <= k < final(reg).all@.len() ==> exists|oi: int|
                0 <= oi < objects@.len() && record_matches_object(
                    #[trigger] final(reg).all@[k],
                    objects@[oi],
                ),
        // reusing a resident root reshapes the global scope by at most its
        // own promotion, and not at all when it is already global
        resolvable(*old(reg), spec_short_name(path@)) && !flags.spec_contains(
            OpenFlags { bits: 1024 },
        ) ==> final(reg).global_names() == old(reg).global_names() || final(reg).global_names()
            == old(reg).global_names().push(spec_short_name(path@)),
        resolvable(*old(reg), spec_short_name(path@)) && !flags.spec_contains(
            OpenFlags { bits: 1024 },
        ) && old(reg).global_names().contains(spec_short_name(path@)) ==> final(reg).global_names() == old(reg).global_names(),
        // dependency closure is kept
        needed_closed(*old(reg)) && r is Ok && !flags.spec_contains(OpenFlags { bits: 1024 })
            ==> needed_closed(*final(reg)),
{
    let ghost orig = *old(reg);
    let ghost orig_objs = objects@;
    let mut remaining = objects;

    let effective = if ld_bind_now {
        flags.with(OpenFlags { bits: 2 })
    } else {
        flags
    };
    proof {
        let f = flags.bits;
        assert((f | 2u32) & 256u32 == f & 256u32) by (bit_vector);
        assert((f | 2u32) & 1024u32 == f & 1024u32) by (bit_vector);
        assert((f | 2u32) & 4u32 == f & 4u32) by (bit_vector);
        assert(effective.spec_contains(OpenFlags { bits: 256 }) == flags.spec_contains(
            OpenFlags { bits: 256 },
        ));
        assert(effective.spec_contains(OpenFlags { bits: 1024 }) == flags.spec_contains(
            OpenFlags { bits: 1024 },
        ));
        assert(effective.spec_contains(OpenFlags { bits: 4 }) == flags.spec_contains(
            OpenFlags { bits: 4 },
        ));
    }
    let root_name = short_name_of(path);

    // A handle asked to stay out of the registry binds only to itself.
    if effective.contains(OpenFlags { bits: 1024 }) {
        let mut deps: Vec<String> = Vec::new();
        deps.push(root_name.clone());
        return Ok(OpenHandle { shortname: root_name, flags: effective, deps });
    }

    match try_existing(reg, root_name.as_str(), effective) {
        ExistingResult::Found(h) => {
            proof {
                let i = choose|i: int|
                    {
                        &&& 0 <= i < orig.all@.len()
                        &&& orig.all@[i].shortname@ == root_name@
                        &&& orig.all@[i].state@ is Relocated
                        &&& reg.all@ == orig.all@.update(
                            i,
                            LibRecord {
                                flags: spec_promotion(orig.all@[i].flags, effective),
                                handles: spec_sat_inc(orig.all@[i].handles),
                                ..orig.all@[i]
                            },
                        )
                        &&& h.shortname@ == root_name@
                        &&& h.flags == spec_promotion(orig.all@[i].flags, effective)
                        &&& (h.deps@.map_values(|s: String| s@) == match orig.all@[i].deps {
                            Some(d) => d@.map_values(|s: String| s@),
                            None => Seq::<Seq<char>>::empty(),
                        })
                        &&& (effective.spec_contains(OpenFlags { bits: 256 })
                            ==> reg.global_names().contains(root_name@))
                    };
                assert(reg.all@[i].shortname@ == h.shortname@);
                assert(match reg.all@[i].deps {
                    Some(d) => name_views(d@) == name_views(h.deps@),
                    None => name_views(h.deps@) == Seq::<Seq<char>>::empty(),
                });
                assert forall|k: int|
                    0 <= k < reg.all@.len() implies (#[trigger] reg.all@[k].state)@
                    is Relocated by {
                    if k != i {
                        assert(reg.all@[k] == orig.all@[k]);
                    }
                }
                if needed_closed(orig) {
                    assert forall|k: int, n: int|
                        0 <= k < reg.all@.len() && 0 <= n < reg.all@[k].needed@.len()
                            implies exists|j: int|
                        0 <= j < reg.all@.len() && (#[trigger] reg.all@[j].shortname@) == (
                        #[trigger] reg.all@[k].needed@[n]@) by {
                        assert(reg.all@[k].needed@ == orig.all@[k].needed@);
                        let j = choose|j: int|
                            0 <= j < orig.all@.len() && (#[trigger] orig.all@[j].shortname@)
                                == orig.all@[k].needed@[n]@;
                        assert(reg.all@[j].shortname@ == orig.all@[j].shortname@);
                    }
                }
            }
            return Ok(h);
        },
        ExistingResult::Busy => {
            proof {
                assert(false);
            }
            return Err(find_lib_error(root_name.as_str()));
        },
        ExistingResult::Absent => {},
    }

    if effective.contains(OpenFlags { bits: 4 }) {
        return Err(find_lib_error(root_name.as_str()));
    }

    let chk_all = reg.all.len();
    let chk_glob = reg.global.len();
    proof {
        assert(reg.global_names().take(chk_glob as int) =~= reg.global_names());
    }

    // Load the root object.
    let root_obj = match take_object(&mut remaining, root_name.as_str()) {
        Some(o) => o,
        None => {
            proof {
                assert(!object_named(orig_objs, root_name@));
            }
            return Err(find_lib_error(root_name.as_str()));
        },
    };
    let ghost root_obj_g = root_obj;
    let root_rec = LibRecord::from_object(root_obj, effective, crate::state::DylibState::new());
    let ghost root_rec_g = root_rec;
    reg.register(root_rec);

    let mut dep_list: Vec<String> = Vec::new();
    dep_list.push(root_name.clone());
    proof {
        assert(name_views(dep_list@) =~= seq![root_name@]);
    }

    let mut cursor: usize = 0;
    let mut q: usize = 0;
    let ghost olen = orig_objs.len() as int;
    proof {
        assert(reg.global_names().take(chk_glob as int) =~= orig.global_names());
        // the freshly registered root establishes the working-list facts
        assert(reg.all@[chk_all as int].shortname@ == root_name@);
        assert(resolvable(*reg, root_name@));
        assert(name_views(dep_list@)[0] == root_name@);
        assert(name_views(dep_list@).contains(root_name@));
        assert(exists|ri: int|
            {
                &&& 0 <= ri < orig_objs.len()
                &&& root_obj_g == orig_objs[ri]
                &&& root_obj_g.shortname@ == root_name@
                &&& remaining@ == orig_objs.remove(ri)
            });
        let ri = choose|ri: int|
            {
                &&& 0 <= ri < orig_objs.len()
                &&& root_obj_g == orig_objs[ri]
                &&& root_obj_g.shortname@ == root_name@
                &&& remaining@ == orig_objs.remove(ri)
            };
        assert(record_matches_object(reg.all@[chk_all as int], orig_objs[ri]));
        if effective.spec_contains(OpenFlags { bits: 256 }) {
            assert(reg.global_names().last() == root_name@);
            assert(reg.global_names().contains(root_name@));
        }
        assert forall|oi: int|
            0 <= oi < orig_objs.len() implies resolvable(
            *reg,
            (#[trigger] orig_objs[oi]).shortname@,
        ) || exists|ri2: int|
            0 <= ri2 < remaining@.len() && (#[trigger] remaining@[ri2].shortname@)
                == orig_objs[oi].shortname@ by {
            if oi == ri {
                assert(resolvable(*reg, orig_objs[oi].shortname@));
            } else if oi < ri {
                assert(remaining@[oi].shortname@ == orig_objs[oi].shortname@);
            } else {
                assert(remaining@[oi - 1].shortname@ == orig_objs[oi].shortname@);
            }
        }
    }
    proof {
        // the transaction invariant holds as the search starts
        assert(reg.wf());
        assert(root_rec_g.flags == effective);
        assert(!root_rec_g.flags.spec_contains(OpenFlags { bits: 1024 }));
        assert(reg.global_names().len() == reg.global@.len());
        assert(chk_all == orig.all@.len());
        assert(chk_glob == orig.global@.len());
        assert(chk_all <= reg.all@.len());
        assert(chk_glob <= reg.global@.len());
        assert forall|k: int|
            0 <= k < chk_all implies flags_promoted_from(
            orig.all@[k],
            #[trigger] reg.all@[k],
        ) by {
            assert(reg.all@[k] == orig.all@[k]);
        }
        assert(reg.global_names().take(chk_glob as int) == orig.global_names());
        assert(reg.subs == orig.subs);
        assert forall|k: int|
            chk_all <= k < reg.all@.len() implies ((#[trigger] reg.all@[k].state)@ is New) by {
            assert(k == chk_all as int);
        }
        assert(tx_inv(orig, *reg, chk_all as int, chk_glob as int));
    }

    while cursor < dep_list.len()
        invariant
            orig.wf(),
            orig == *old(reg),
            orig_objs == objects@,
            quiescent(orig),
            !resolvable(orig, root_name@),
            root_name@ == spec_short_name(path@),
            !effective.spec_contains(OpenFlags { bits: 1024 }),
            effective.spec_contains(OpenFlags { bits: 256 }) == flags.spec_contains(
                OpenFlags { bits: 256 },
            ),
            effective.spec_contains(OpenFlags { bits: 256 }) ==> reg.global_names().contains(
                root_name@,
            ),
            orig.adds + orig_objs.len() + 1 <= u64::MAX,
            olen == orig_objs.len(),
            tx_inv(orig, *reg, chk_all as int, chk_glob as int),
            chk_all < reg.all@.len(),
            reg.all@[chk_all as int].shortname@ == root_name@,
            reg.adds == orig.adds + reg.all@.len() - chk_all,
            reg.all@.len() - chk_all == olen - remaining@.len(),
            reg.all@.len() - chk_all <= 254,
            1 <= dep_list@.len(),
            cursor <= dep_list@.len(),
            name_views(dep_list@)[0] == root_name@,
            name_views(dep_list@).no_duplicates(),
            forall|m: int|
                0 <= m < dep_list@.len() ==> resolvable(*reg, #[trigger] name_views(dep_list@)[m]),
            forall|k: int|
                chk_all <= k < reg.all@.len() ==> name_views(dep_list@).contains(
                    (#[trigger] reg.all@[k]).shortname@,
                ),
            forall|k: int|
                chk_all <= k < reg.all@.len() ==> exists|oi: int|
                    0 <= oi < orig_objs.len() && record_matches_object(
                        #[trigger] reg.all@[k],
                        orig_objs[oi],
                    ),
            forall|ri: int|
                0 <= ri < remaining@.len() ==> exists|oi: int|
                    0 <= oi < orig_objs.len() && (#[trigger] remaining@[ri]) == orig_objs[oi],
            forall|oi: int|
                0 <= oi < orig_objs.len() ==> resolvable(
                    *reg,
                    (#[trigger] orig_objs[oi]).shortname@,
                ) || exists|ri: int|
                    0 <= ri < remaining@.len() && (#[trigger] remaining@[ri].shortname@)
                        == orig_objs[oi].shortname@,
            forall|m: int, kk: int|
                0 <= m < cursor && 0 <= kk < reg.all@.len() && (
                #[trigger] reg.all@[kk].shortname@) == (#[trigger] name_views(dep_list@)[m])
                    ==> record_needed_covered(*reg, kk, name_views(dep_list@))
                    && record_needed_resolved(*reg, kk),
            forall|kk: int, q2: int|
                0 <= kk < reg.all@.len() && reg.all@[kk].shortname@ == name_views(
                    dep_list@,
                )[cursor as int] && 0 <= q2 < q && q2 < reg.all@[kk].needed@.len() ==> resolvable(
                    *reg,
                    (#[trigger] reg.all@[kk].needed@[q2]@),
                ) && name_views(dep_list@).contains(reg.all@[kk].needed@[q2]@),
        decreases chk_all + olen + 1 - cursor, (usize::MAX - q) as int,
    {
        proof {
            lemma_members_bound(*reg, name_views(dep_list@));
        }
        let ghost iter_reg = *reg;
        let ghost iter_list = name_views(dep_list@);
        let ghost iter_rem = remaining@;
        let member = dep_list[cursor].clone();
        let k = match reg.lookup(member.as_str()) {
            Some(k) => k,
            None => {
                proof {
                    assert(resolvable(*reg, name_views(dep_list@)[cursor as int]));
                    let w = choose|j: int|
                        0 <= j < reg.all@.len() && reg.all@[j].shortname@ == name_views(
                            dep_list@,
                        )[cursor as int];
                    assert(false);
                }
                return Err(find_lib_error(member.as_str()));
            },
        };
        let needed_len = reg.all[k].needed.len();
        if q >= needed_len {
            proof {
                assert forall|m: int, kk: int|
                    0 <= m < cursor + 1 && 0 <= kk < reg.all@.len() && (
                #[trigger] reg.all@[kk].shortname@) == (#[trigger] name_views(dep_list@)[m])
                    implies record_needed_covered(*reg, kk, name_views(dep_list@))
                    && record_needed_resolved(*reg, kk) by {
                    if m == cursor {
                        assert(reg.all@[kk].shortname@ == reg.all@[k as int].shortname@);
                        assert(kk == k as int);
                    }
                }
            }
            cursor = cursor + 1;
            q = 0;
            continue ;
        }
        let dep_name = reg.all[k].needed[q].clone();
        let ghost mut pushed = false;
        let ghost mut taken: int = 0;
        match reg.lookup(dep_name.as_str()) {
            Some(dslot) => {
                // already resident: link it, promoting to global if asked
                if effective.contains(OpenFlags { bits: 256 }) && dslot < chk_all {
                    let ghost pre_reg = *reg;
                    reg.promote_global(dslot);
                    proof {
                        assert(reg.global_names().take(chk_glob as int) =~= orig.global_names());
                        let b0 = orig.all@[dslot as int].flags.bits;
                        assert((b0 | 256u32) | 256u32 == b0 | 256u32) by (bit_vector);
                        assert(flags_promoted_from(orig.all@[dslot as int], reg.all@[dslot as int]));
                    }
                }
                if !contains_name(&dep_list, dep_name.as_str()) {
                    dep_list.push(dep_name.clone());
                    proof {
                        pushed = true;
                        assert(name_views(dep_list@) =~= iter_list.push(dep_name@));
                    }
                }
                proof {
                    assert(reg.all@[dslot as int].shortname@ == dep_name@);
                    assert(resolvable(*reg, dep_name@));
                }
            },
            None => {
                // not resident: it must come from the given objects
                match take_object(&mut remaining, dep_name.as_str()) {
                    Some(o) => {
                        let new_count = reg.all.len() - chk_all;
                        if new_count >= 254 {
                            proof {
                                assert(orig_objs.len() >= 254);
                            }
                            rollback(reg, chk_all, chk_glob, Ghost(orig));
                            return Err(find_lib_error(root_name.as_str()));
                        }
                        let ghost o_g = o;
                        let mut st = crate::state::DylibState::new();
                        st.set_new_idx(new_count as u8);
                        let rec = LibRecord::from_object(o, effective, st);
                        reg.register(rec);
                        dep_list.push(dep_name.clone());
                        proof {
                            pushed = true;
                            assert(name_views(dep_list@) =~= iter_list.push(dep_name@));
                            assert(reg.global_names().take(chk_glob as int)
                                =~= orig.global_names());
                            assert(reg.all@[reg.all@.len() - 1].shortname@ == dep_name@);
                            assert(resolvable(*reg, dep_name@));
                            assert(!iter_list.contains(dep_name@));
                            // the registered object is one of the originals
                            taken = choose|rr: int|
                                {
                                    &&& 0 <= rr < iter_rem.len()
                                    &&& o_g == iter_rem[rr]
                                    &&& o_g.shortname@ == dep_name@
                                    &&& remaining@ == iter_rem.remove(rr)
                                };
                            assert(0 <= taken < iter_rem.len() && remaining@ == iter_rem.remove(
                                taken,
                            ) && iter_rem[taken].shortname@ == dep_name@);
                            assert(record_matches_object(reg.all@[reg.all@.len() - 1], o_g));
                            assert(exists|oi: int|
                                0 <= oi < orig_objs.len() && iter_rem[taken] == orig_objs[oi]);
                        }
                    },
                    None => {
                        proof {
                            assert(!resolvable(*reg, dep_name@));
                            assert forall|kk: int|
                                0 <= kk < orig.all@.len() implies (
                            #[trigger] orig.all@[kk].shortname@) != dep_name@ by {
                                assert(flags_promoted_from(orig.all@[kk], reg.all@[kk]));
                                assert(reg.all@[kk].shortname@ != dep_name@);
                            }
                            assert(!resolvable(orig, dep_name@));
                            assert forall|oi: int|
                                0 <= oi < orig_objs.len() implies (
                            #[trigger] orig_objs[oi].shortname@) != dep_name@ by {
                                if !resolvable(*reg, orig_objs[oi].shortname@) {
                                    let ri = choose|ri: int|
                                        0 <= ri < remaining@.len() && remaining@[ri].shortname@
                                            == orig_objs[oi].shortname@;
                                }
                            }
                            assert(!object_named(orig_objs, dep_name@));
                            if k < chk_all {
                                assert(flags_promoted_from(orig.all@[k as int], reg.all@[k as int]));
                                assert(orig.all@[k as int].needed@[q as int]@ == dep_name@);
                                assert(needed_name(orig, orig_objs, dep_name@));
                            } else {
                                let oi = choose|oi: int|
                                    0 <= oi < orig_objs.len() && record_matches_object(
                                        reg.all@[k as int],
                                        orig_objs[oi],
                                    );
                                assert(orig_objs[oi].needed@[q as int]@ == dep_name@);
                                assert(needed_name(orig, orig_objs, dep_name@));
                            }
                        }
                        rollback(reg, chk_all, chk_glob, Ghost(orig));
                        return Err(find_lib_error(dep_name.as_str()));
                    },
                }
            },
        }
        proof {
            let now_list = name_views(dep_list@);
            assert(names_preserved(iter_reg, *reg));
            lemma_mono(iter_reg, *reg);
            if pushed {
                assert(now_list =~= iter_list.push(dep_name@));
            } else {
                assert(now_list == iter_list);
            }
            assert(resolvable(*reg, dep_name@));
            if pushed {
                assert(!iter_list.contains(dep_name@));
            } else {
                assert(iter_list.contains(dep_name@));
            }

            // duplicates stay excluded
            assert forall|i1: int, j1: int|
                0 <= i1 < j1 < now_list.len() implies now_list[i1] != now_list[j1] by {
                if j1 < iter_list.len() {
                } else {
                    assert(now_list[j1] == dep_name@);
                    assert(now_list[i1] == iter_list[i1]);
                    if iter_list.contains(dep_name@) {
                    } else {
                        assert(iter_list[i1] != dep_name@);
                    }
                }
            }
            assert(now_list.no_duplicates());

            // every member still resolves
            assert forall|m: int|
                0 <= m < dep_list@.len() implies resolvable(
                *reg,
                #[trigger] name_views(dep_list@)[m],
            ) by {
                if m < iter_list.len() {
                    assert(resolvable(iter_reg, iter_list[m]));
                } else {
                    assert(name_views(dep_list@)[m] == dep_name@);
                }
            }

            // new records stay on the list, and their needs come from objects
            assert forall|k2: int|
                chk_all <= k2 < reg.all@.len() implies name_views(dep_list@).contains(
                (#[trigger] reg.all@[k2]).shortname@,
            ) by {
                if k2 < iter_reg.all@.len() {
                    assert(iter_list.contains(iter_reg.all@[k2].shortname@));
                    if pushed {
                        lemma_contains_push(iter_list, iter_reg.all@[k2].shortname@, dep_name@);
                    }
                    assert(reg.all@[k2].shortname@ == iter_reg.all@[k2].shortname@);
                } else {
                    assert(reg.all@[k2].shortname@ == dep_name@);
                    assert(now_list[now_list.len() - 1] == dep_name@);
                }
            }
            assert forall|k2: int|
                chk_all <= k2 < reg.all@.len() implies exists|oi: int|
                0 <= oi < orig_objs.len() && record_matches_object(
                    #[trigger] reg.all@[k2],
                    orig_objs[oi],
                ) by {
                if k2 < iter_reg.all@.len() {
                    assert(reg.all@[k2] == iter_reg.all@[k2]);
                }
            }

            // objects not yet spent still come from the originals
            assert forall|ri: int|
                0 <= ri < remaining@.len() implies exists|oi: int|
                0 <= oi < orig_objs.len() && (#[trigger] remaining@[ri]) == orig_objs[oi] by {
                if remaining@ == iter_rem {
                    assert(iter_rem[ri] == remaining@[ri]);
                } else {
                    if ri < taken {
                        assert(remaining@[ri] == iter_rem[ri]);
                    } else {
                        assert(remaining@[ri] == iter_rem[ri + 1]);
                    }
                }
            }

            // each original object is either registered or still on hand
            assert forall|oi: int|
                0 <= oi < orig_objs.len() implies resolvable(
                *reg,
                (#[trigger] orig_objs[oi]).shortname@,
            ) || exists|ri: int|
                0 <= ri < remaining@.len() && (#[trigger] remaining@[ri].shortname@)
                    == orig_objs[oi].shortname@ by {
                if resolvable(iter_reg, orig_objs[oi].shortname@) {
                } else {
                    let ri = choose|ri: int|
                        0 <= ri < iter_rem.len() && iter_rem[ri].shortname@
                            == orig_objs[oi].shortname@;
                    if remaining@ == iter_rem {
                        assert(remaining@[ri].shortname@ == orig_objs[oi].shortname@);
                    } else {
                        if ri < taken {
                            assert(remaining@[ri].shortname@ == orig_objs[oi].shortname@);
                        } else if ri > taken {
                            assert(remaining@[ri - 1].shortname@ == orig_objs[oi].shortname@);
                        } else {
                            assert(iter_rem[taken].shortname@ == dep_name@);
                        }
                    }
                }
            }

            // closure facts for processed members carry over
            assert forall|m: int, kk: int|
                0 <= m < cursor && 0 <= kk < reg.all@.len() && (
            #[trigger] reg.all@[kk].shortname@) == (#[trigger] name_views(dep_list@)[m])
                implies record_needed_covered(*reg, kk, name_views(dep_list@))
                && record_needed_resolved(*reg, kk) by {
                assert(now_list[m] == iter_list[m]);
                if kk < iter_reg.all@.len() {
                    assert(iter_reg.all@[kk].shortname@ == iter_list[m]);
                    assert(record_needed_covered(iter_reg, kk, iter_list));
                    assert(record_needed_resolved(iter_reg, kk));
                    assert(reg.all@[kk].needed == iter_reg.all@[kk].needed);
                    assert forall|n: int|
                        0 <= n < reg.all@[kk].needed@.len() implies resolvable(
                        *reg,
                        #[trigger] reg.all@[kk].needed@[n]@,
                    ) && (resolvable(*reg, reg.all@[kk].needed@[n]@) ==> now_list.contains(
                        reg.all@[kk].needed@[n]@,
                    )) by {
                        assert(resolvable(iter_reg, iter_reg.all@[kk].needed@[n]@));
                        assert(iter_list.contains(iter_reg.all@[kk].needed@[n]@));
                        if pushed {
                            lemma_contains_push(
                                iter_list,
                                iter_reg.all@[kk].needed@[n]@,
                                dep_name@,
                            );
                        }
                    }
                } else {
                    // a just-registered record carries the pushed name, which
                    // no processed member can share
                    assert(reg.all@[kk].shortname@ == dep_name@);
                    assert(pushed);
                    assert(now_list[now_list.len() - 1] == dep_name@);
                    assert(m < now_list.len() - 1);
                    assert(false);
                }
            }

            // progress on the current member
            assert forall|kk: int, q2: int|
                0 <= kk < reg.all@.len() && reg.all@[kk].shortname@ == name_views(
                    dep_list@,
                )[cursor as int] && 0 <= q2 < q + 1 && q2 < reg.all@[kk].needed@.len()
                implies resolvable(*reg, (#[trigger] reg.all@[kk].needed@[q2]@))
                && name_views(dep_list@).contains(reg.all@[kk].needed@[q2]@) by {
                assert(now_list[cursor as int] == iter_list[cursor as int]);
                assert(iter_reg.all@[k as int].shortname@ == iter_list[cursor as int]);
                if kk < iter_reg.all@.len() {
                    assert(iter_reg.all@[kk].shortname@ == iter_list[cursor as int]);
                    assert(kk == k as int);
                    assert(reg.all@[kk].needed == iter_reg.all@[kk].needed);
                    if q2 < q {
                        assert(resolvable(iter_reg, iter_reg.all@[kk].needed@[q2]@));
                        assert(iter_list.contains(iter_reg.all@[kk].needed@[q2]@));
                        if pushed {
                            lemma_contains_push(
                                iter_list,
                                iter_reg.all@[kk].needed@[q2]@,
                                dep_name@,
                            );
                        }
                    } else {
                        assert(reg.all@[kk].needed@[q2]@ == dep_name@);
                        if pushed {
                            assert(now_list[now_list.len() - 1] == dep_name@);
                        } else {
                            assert(iter_list.contains(dep_name@));
                        }
                    }
                } else {
                    assert(reg.all@[kk].shortname@ == dep_name@);
                    assert(pushed);
                    assert(!iter_list.contains(dep_name@));
                    assert(iter_list[cursor as int] == now_list[cursor as int]);
                    assert(false);
                }
            }

            // the checkpointed prefix keeps its promotion discipline
            assert forall|k3: int|
                0 <= k3 < chk_all implies flags_promoted_from(
                orig.all@[k3],
                #[trigger] reg.all@[k3],
            ) by {
                assert(flags_promoted_from(orig.all@[k3], iter_reg.all@[k3]));
            }
            assert forall|k3: int|
                chk_all <= k3 < reg.all@.len() implies ((#[trigger] reg.all@[k3].state)@
                is New) by {
                if k3 < iter_reg.all@.len() {
                    assert(iter_reg.all@[k3].state@ is New);
                }
            }
            assert(reg.global_names().take(chk_glob as int) == orig.global_names());

            // the root stays in the global scope once it entered it
            if effective.spec_contains(OpenFlags { bits: 256 }) {
                let w = choose|w: int|
                    0 <= w < iter_reg.global_names().len() && iter_reg.global_names()[w]
                        == root_name@;
                assert(reg.global_names()[w] == root_name@);
            }
            // and the transaction invariant is whole again
            assert(reg.wf());
            assert(iter_reg.global_names().len() == iter_reg.global@.len());
            assert(reg.global_names().len() == reg.global@.len());
            assert(chk_all <= reg.all@.len());
            assert(chk_glob <= reg.global@.len());
            assert(reg.subs == orig.subs);
            assert(tx_inv(orig, *reg, chk_all as int, chk_glob as int));
        }
        q = q + 1;
    }

    // Every transitive dependency is resident: compute the per-library
    // Searchlists for the new batch.
    let ghost after_bfs = *reg;
    let mut k2 = chk_all;
    while k2 < reg.all.len()
        invariant
            reg.wf(),
            after_bfs.wf(),
            chk_all <= k2,
            chk_all < after_bfs.all@.len(),
            reg.all@.len() == after_bfs.all@.len(),
            reg.global@ == after_bfs.global@,
            reg.adds == after_bfs.adds,
            reg.subs == after_bfs.subs,
            index_entries(reg.index) == index_entries(after_bfs.index),
            forall|j: int|
                0 <= j < reg.all@.len() ==> same_but_deps(
                    after_bfs.all@[j],
                    #[trigger] reg.all@[j],
                ),
        decreases reg.all@.len() - k2,
    {
        let nm = reg.all[k2].shortname.clone();
        proof {
            assert(reg.all@[k2 as int].shortname@ == nm@);
            assert(resolvable(*reg, nm@));
        }
        let sl = compute_searchlist(reg, nm.as_str());
        let ghost pre = *reg;
        let e = &mut reg.all[k2];
        e.deps = Some(sl);
        proof {
            assert(reg.all@ =~= pre.all@.update(
                k2 as int,
                LibRecord { deps: reg.all@[k2 as int].deps, ..pre.all@[k2 as int] },
            ));
            crate::registry::lemma_wf_preserved(pre, *reg);
        }
        k2 = k2 + 1;
    }

    // Schedule the batch for relocation (flipping the visit marks), then
    // walk the whole dependency set through Relocating to Relocated.
    let ghost after_deps = *reg;
    proof {
        assert forall|kx: int| 0 <= kx < chk_all implies !((#[trigger] reg.all@[kx].state)@
            is New) by {
            assert(same_but_deps(after_bfs.all@[kx], reg.all@[kx]));
            assert(flags_promoted_from(orig.all@[kx], after_bfs.all@[kx]));
            assert(orig.all@[kx].state@ is Relocated);
        }
    }
    // The schedule orders the machine-level relocation an embedding performs
    // through the public phase; this sequential model completes the walk to
    // Relocated directly below, so the schedule itself is not consumed here.
    let _schedule = compute_order(reg, chk_all);
    let ghost after_order = *reg;
    mark_states(reg, &dep_list, false);
    let ghost after_m1 = *reg;
    mark_states(reg, &dep_list, true);

    // Hand out the root handle.
    let root_deps = match &reg.all[chk_all].deps {
        Some(d) => clone_names(d),
        None => Vec::new(),
    };
    let ghost pre5 = *reg;
    let e = &mut reg.all[chk_all];
    if e.handles < usize::MAX {
        e.handles = e.handles + 1;
    }
    let h = OpenHandle {
        shortname: reg.all[chk_all].shortname.clone(),
        flags: effective,
        deps: root_deps,
    };
    proof {
        assert(reg.all@ =~= pre5.all@.update(
            chk_all as int,
            LibRecord { handles: reg.all@[chk_all as int].handles, ..pre5.all@[chk_all as int] },
        ));
        crate::registry::lemma_wf_preserved(pre5, *reg);

        // trace each record through the phases
        assert forall|kx: int|
            0 <= kx < reg.all@.len() implies (#[trigger] reg.all@[kx].shortname@)
            == after_bfs.all@[kx].shortname@ && (name_views(dep_list@).contains(
            after_bfs.all@[kx].shortname@,
        ) ==> reg.all@[kx].state@ is Relocated) && (kx < chk_all && !name_views(
            dep_list@,
        ).contains(after_bfs.all@[kx].shortname@) ==> reg.all@[kx].state
            == after_bfs.all@[kx].state) by {
            assert(same_but_deps(after_bfs.all@[kx], after_deps.all@[kx]));
        }
        // quiescence: every record ends relocated
        assert forall|kx: int| 0 <= kx < reg.all@.len() implies (#[trigger] reg.all@[kx].state)@
            is Relocated by {
            if kx >= chk_all {
                assert(name_views(dep_list@).contains(after_bfs.all@[kx].shortname@));
            } else {
                if !name_views(dep_list@).contains(after_bfs.all@[kx].shortname@) {
                    assert(same_but_deps(after_bfs.all@[kx], after_deps.all@[kx]));
                    assert(flags_promoted_from(orig.all@[kx], after_bfs.all@[kx]));
                    assert(orig.all@[kx].state@ is Relocated);
                }
            }
        }
        // the handle matches its record
        assert(reg.all@[chk_all as int].shortname@ == root_name@);
        assert(match reg.all@[chk_all as int].deps {
            Some(d) => name_views(d@) == name_views(h.deps@),
            None => name_views(h.deps@) == Seq::<Seq<char>>::empty(),
        }) by {
            if after_deps.all@[chk_all as int].deps is None {
                assert(name_views(h.deps@) =~= Seq::<Seq<char>>::empty());
            }
        }
        // new records keep their parsed facts through every phase
        assert forall|kx: int|
            chk_all <= kx < reg.all@.len() implies exists|oi: int|
            0 <= oi < orig_objs.len() && record_matches_object(
                #[trigger] reg.all@[kx],
                orig_objs[oi],
            ) by {
            assert(exists|oi: int|
                0 <= oi < orig_objs.len() && record_matches_object(
                    after_bfs.all@[kx],
                    orig_objs[oi],
                ));
            let oi = choose|oi: int|
                0 <= oi < orig_objs.len() && record_matches_object(
                    after_bfs.all@[kx],
                    orig_objs[oi],
                );
            assert(same_but_deps(after_bfs.all@[kx], after_deps.all@[kx]));
            assert(after_order.all@[kx] == after_deps.all@[kx] || after_order.all@[kx]
                == LibRecord {
                state: crate::state::DylibState { code: 255 },
                ..after_deps.all@[kx]
            });
            assert(after_m1.all@[kx] == after_order.all@[kx] || after_m1.all@[kx] == spec_marked(
                after_order.all@[kx],
                false,
            ));
            assert(pre5.all@[kx] == after_m1.all@[kx] || pre5.all@[kx] == spec_marked(
                after_m1.all@[kx],
                true,
            ));
            assert(record_matches_object(reg.all@[kx], orig_objs[oi]));
        }
        // the global scope through the phases
        assert(reg.global@ == after_bfs.global@);
        assert forall|n: Seq<char>|
            orig.global_names().contains(n) implies #[trigger] reg.global_names().contains(
            n,
        ) by {
            let w = choose|w: int|
                0 <= w < orig.global_names().len() && orig.global_names()[w] == n;
            assert(after_bfs.global_names().take(chk_glob as int)[w] == n);
            assert(reg.global_names()[w] == n);
        }
        if effective.spec_contains(OpenFlags { bits: 256 }) {
            let w = choose|w: int|
                0 <= w < after_bfs.global_names().len() && after_bfs.global_names()[w]
                    == root_name@;
            assert(reg.global_names()[w] == root_name@);
        }
        // dependency closure, if it held before, holds now
        if needed_closed(orig) {
            assert forall|kx: int, n: int|
                0 <= kx < reg.all@.len() && 0 <= n < reg.all@[kx].needed@.len() implies exists|
                j: int,
            |
                0 <= j < reg.all@.len() && (#[trigger] reg.all@[j].shortname@) == (
                #[trigger] reg.all@[kx].needed@[n]@) by {
                assert(same_but_deps(after_bfs.all@[kx], after_deps.all@[kx]));
                assert(reg.all@[kx].needed == after_bfs.all@[kx].needed);
                if kx < chk_all {
                    assert(flags_promoted_from(orig.all@[kx], after_bfs.all@[kx]));
                    assert(after_bfs.all@[kx].needed == orig.all@[kx].needed);
                    let j = choose|j: int|
                        0 <= j < orig.all@.len() && (#[trigger] orig.all@[j].shortname@)
                            == orig.all@[kx].needed@[n]@;
                    assert(flags_promoted_from(orig.all@[j], after_bfs.all@[j]));
                    assert(reg.all@[j].shortname@ == orig.all@[j].shortname@);
                } else {
                    // new records were processed by the search loop
                    let m = choose|m: int|
                        0 <= m < name_views(dep_list@).len() && name_views(dep_list@)[m]
                            == after_bfs.all@[kx].shortname@;
                    assert(record_needed_resolved(after_bfs, kx));
                    assert(resolvable(after_bfs, after_bfs.all@[kx].needed@[n]@));
                    let j = choose|j: int|
                        0 <= j < after_bfs.all@.len() && (#[trigger] after_bfs.all@[j].shortname@)
                            == after_bfs.all@[kx].needed@[n]@;
                    assert(reg.all@[j].shortname@ == after_bfs.all@[j].shortname@);
                }
            }
        }
    }
    Ok(h)
}

} // verus!

verus! {

/// `b` holds at least the records of `a`, under the same names and with the
/// same dependency names.
pub open spec fn names_preserved(a: Registry, b: Registry) -> bool {
    &&& a.all@.len() <= b.all@.len()
    &&& forall|k: int|
        0 <= k < a.all@.len() ==> (#[trigger] b.all@[k].shortname@) == a.all@[k].shortname@
            && b.all@[k].needed == a.all@[k].needed
}

/// Whatever resolves before a name-preserving growth still resolves after.
proof fn lemma_mono(a: Registry, b: Registry)
    requires
        names_preserved(a, b),
    ensures
        forall|n: Seq<char>| #[trigger] resolvable(a, n) ==> resolvable(b, n),
{
    assert forall|n: Seq<char>| #[trigger] resolvable(a, n) implies resolvable(b, n) by {
        let w = choose|j: int| 0 <= j < a.all@.len() && (#[trigger] a.all@[j].shortname@) == n;
        assert(b.all@[w].shortname@ == n);
    }
}

/// Membership survives a push.
proof fn lemma_contains_push(views: Seq<Seq<char>>, x: Seq<char>, y: Seq<char>)
    requires
        views.contains(x),
    ensures
        views.push(y).contains(x),
{
    let w = choose|w: int| 0 <= w < views.len() && views[w] == x;
    assert(views.push(y)[w] == x);
}

} // verus!

verus! {

/// The slot holding the record named `name`, when one is registered.
pub open spec fn slot_of(reg: Registry, name: Seq<char>) -> int {
    choose|i: int| 0 <= i < reg.all@.len() && (#[trigger] reg.all@[i].shortname@) == name
}

/// Whether any record other than the one named `name` holds `name` in its
/// Searchlist — the model of an outstanding strong reference.
pub open spec fn spec_referenced_by_other(reg: Registry, name: Seq<char>) -> bool {
    exists|k: int|
        0 <= k < reg.all@.len() && (#[trigger] reg.all@[k].shortname@) != name && match reg.all@[k].deps {
            Some(d) => name_views(d@).contains(name),
            None => false,
        }
}

/// Scans the registry for another record whose Searchlist pins `name`.
fn referenced_by_other(reg: &Registry, name: &str) -> (r: bool)
    ensures
        r == spec_referenced_by_other(*reg, name@),
{
    let mut k: usize = 0;
    while k < reg.all.len()
        invariant
            k <= reg.all@.len(),
            forall|j: int|
                0 <= j < k ==> !((#[trigger] reg.all@[j].shortname@) != name@ && match reg.all@[j].deps {
                    Some(d) => name_views(d@).contains(name@),
                    None => false,
                }),
        decreases reg.all@.len() - k,
    {
        if !crate::path::str_eq(reg.all[k].shortname.as_str(), name) {
            match &reg.all[k].deps {
                Some(d) => {
                    if contains_name(d, name) {
                        return true;
                    }
                },
                None => {},
            }
        }
        k = k + 1;
    }
    false
}

/// The record is one of the given registry's records.
pub open spec fn record_from(base: Registry, rec: LibRecord) -> bool {
    exists|j0: int| 0 <= j0 < base.all@.len() && rec == (#[trigger] base.all@[j0])
}

/// Sweeps a dropped library's Searchlist: every member that carries no user
/// handle, is not `NODELETE`, and is pinned by no other library's Searchlist
/// is removed from the registry and counted.
#[verifier::rlimit(100)]
#[verifier::spinoff_prover]
fn sweep_deps(reg: &mut Registry, dep_names: &Vec<String>, Ghost(avoid): Ghost<Seq<char>>)
    requires
        old(reg).wf(),
        old(reg).subs + old(reg).all@.len() <= u64::MAX,
        !resolvable(*old(reg), avoid),
        !old(reg).global_names().contains(avoid),
    ensures
        final(reg).wf(),
        final(reg).adds == old(reg).adds,
        final(reg).all@.len() <= old(reg).all@.len(),
        final(reg).subs == old(reg).subs + (old(reg).all@.len() - final(reg).all@.len()),
        !resolvable(*final(reg), avoid),
        !final(reg).global_names().contains(avoid),
        dep_names@.len() <= 1 ==> final(reg).all@.len() == old(reg).all@.len() && final(reg).subs
            == old(reg).subs,
        // a removed name was a listed member whose record held no user
        // handles and no NODELETE
        forall|n: Seq<char>|
            #[trigger] resolvable(*old(reg), n) && !resolvable(*final(reg), n) ==> exists|
                m: int,
                j: int,
            |
                {
                    &&& 1 <= m < dep_names@.len()
                    &&& (#[trigger] dep_names@[m]@) == n
                    &&& 0 <= j < old(reg).all@.len()
                    &&& (#[trigger] old(reg).all@[j].shortname@) == n
                    &&& old(reg).all@[j].handles == 0
                    &&& !old(reg).all@[j].flags.spec_contains(OpenFlags { bits: 4096 })
                },
        // with a duplicate-free list, every member whose record holds no
        // handles, is not NODELETE and is pinned by nothing else is removed
        name_views(dep_names@).no_duplicates() ==> forall|m: int, j: int|
            1 <= m < dep_names@.len() && 0 <= j < old(reg).all@.len() && (#[trigger] old(
                reg,
            ).all@[j].shortname@) == (#[trigger] dep_names@[m]@) && old(reg).all@[j].handles == 0
                && !old(reg).all@[j].flags.spec_contains(OpenFlags { bits: 4096 })
                && !spec_referenced_by_other(*old(reg), dep_names@[m]@) ==> !resolvable(
                *final(reg),
                dep_names@[m]@,
            ),
{
    let ghost base = *old(reg);
    let ghost nodup = name_views(dep_names@).no_duplicates();
    let mut m: usize = 1;
    proof {
        assert forall|j: int|
            0 <= j < reg.all@.len() implies record_from(base, #[trigger] reg.all@[j]) by {
            assert(reg.all@[j] == base.all@[j]);
        }
    }
    while m < dep_names.len()
        invariant
            1 <= m,
            m <= dep_names@.len() || (dep_names@.len() <= 1 && m == 1),
            reg.wf(),
            base.wf(),
            base == *old(reg),
            nodup == name_views(dep_names@).no_duplicates(),
            base.subs + base.all@.len() <= u64::MAX,
            reg.adds == base.adds,
            reg.all@.len() <= base.all@.len(),
            reg.subs == base.subs + (base.all@.len() - reg.all@.len()),
            dep_names@.len() <= 1 ==> reg.all@.len() == base.all@.len(),
            !resolvable(*reg, avoid),
            !reg.global_names().contains(avoid),
            // every record still here is a record of the starting state
            forall|j: int| 0 <= j < reg.all@.len() ==> record_from(base, #[trigger] reg.all@[j]),
            // soundness of the removals so far
            forall|n: Seq<char>|
                #[trigger] resolvable(base, n) && !resolvable(*reg, n) ==> exists|m2: int, j: int|
                    {
                        &&& 1 <= m2 < m
                        &&& (#[trigger] dep_names@[m2]@) == n
                        &&& 0 <= j < base.all@.len()
                        &&& (#[trigger] base.all@[j].shortname@) == n
                        &&& base.all@[j].handles == 0
                        &&& !base.all@[j].flags.spec_contains(OpenFlags { bits: 4096 })
                    },
            // completeness of the removals so far
            nodup ==> forall|m2: int, j: int|
                1 <= m2 < m && 0 <= j < base.all@.len() && (#[trigger] base.all@[j].shortname@)
                    == (#[trigger] dep_names@[m2]@) && base.all@[j].handles == 0
                    && !base.all@[j].flags.spec_contains(OpenFlags { bits: 4096 })
                    && !spec_referenced_by_other(base, dep_names@[m2]@) ==> !resolvable(
                    *reg,
                    dep_names@[m2]@,
                ),
        decreases dep_names@.len() - m,
    {
        let dep = &dep_names[m];
        let ghost n_m = dep_names@[m as int]@;
        let ghost pre = *reg;
        match reg.lookup(dep.as_str()) {
            Some(j) => {
                if reg.all[j].handles == 0 && !reg.all[j].flags.contains(OpenFlags { bits: 4096 })
                    && !referenced_by_other(reg, dep.as_str()) {
                    proof {
                        if pre.all@[j as int].shortname@ == avoid {
                            assert(resolvable(pre, avoid));
                            assert(false);
                        }
                    }
                    reg.remove(j);
                    proof {
                        // the swept name is gone; every other record survives
                        assert forall|jj: int|
                            0 <= jj < reg.all@.len() implies exists|j1: int|
                            0 <= j1 < pre.all@.len() && (#[trigger] reg.all@[jj])
                                == pre.all@[j1] by {
                            if jj < j as int {
                                assert(reg.all@[jj] == pre.all@[jj]);
                            } else {
                                assert(reg.all@[jj] == pre.all@[jj + 1]);
                            }
                        }
                        assert forall|jj: int|
                            0 <= jj < reg.all@.len() implies (#[trigger] reg.all@[jj].shortname@)
                            != avoid && reg.all@[jj].shortname@ != n_m by {
                            if jj < j as int {
                                assert(reg.all@[jj] == pre.all@[jj]);
                                assert(pre.all@[jj].shortname@ != pre.all@[j as int].shortname@);
                            } else {
                                assert(reg.all@[jj] == pre.all@[jj + 1]);
                                assert(pre.all@[jj + 1].shortname@
                                    != pre.all@[j as int].shortname@);
                            }
                        }
                        assert(!resolvable(*reg, avoid));
                        assert(!reg.global_names().contains(avoid));
                        assert(!resolvable(*reg, n_m));
                        lemma_sweep_step(base, pre, *reg, dep_names@, m as int, j as int);
                    }
                } else {
                    proof {
                        lemma_sweep_skip(base, *reg, dep_names@, m as int, nodup, j as int);
                    }
                }
            },
            None => {
                proof {
                    if nodup {
                        // under a duplicate-free list an eligible member is
                        // still present, so an absent one was never eligible
                        assert forall|j0: int|
                            0 <= j0 < base.all@.len() && (#[trigger] base.all@[j0].shortname@)
                                == n_m implies !(base.all@[j0].handles == 0
                            && !base.all@[j0].flags.spec_contains(OpenFlags { bits: 4096 })
                            && !spec_referenced_by_other(base, n_m)) by {
                            if !resolvable(*reg, n_m) && resolvable(base, n_m) {
                                let (m2, j2) = choose|m2: int, j2: int|
                                    {
                                        &&& 1 <= m2 < m
                                        &&& (#[trigger] dep_names@[m2]@) == n_m
                                        &&& 0 <= j2 < base.all@.len()
                                        &&& (#[trigger] base.all@[j2].shortname@) == n_m
                                        &&& base.all@[j2].handles == 0
                                        &&& !base.all@[j2].flags.spec_contains(
                                            OpenFlags { bits: 4096 },
                                        )
                                    };
                                assert(name_views(dep_names@)[m2] == name_views(
                                    dep_names@,
                                )[m as int]);
                                assert(false);
                            }
                        }
                    }
                }
            },
        }
        m = m + 1;
    }
    proof {
        assert forall|n: Seq<char>|
            #[trigger] resolvable(base, n) && !resolvable(*reg, n) implies exists|m2: int, j: int|
            {
                &&& 1 <= m2 < dep_names@.len()
                &&& (#[trigger] dep_names@[m2]@) == n
                &&& 0 <= j < base.all@.len()
                &&& (#[trigger] base.all@[j].shortname@) == n
                &&& base.all@[j].handles == 0
                &&& !base.all@[j].flags.spec_contains(OpenFlags { bits: 4096 })
            } by {
            assert(exists|m2: int, j: int|
                {
                    &&& 1 <= m2 < m
                    &&& (#[trigger] dep_names@[m2]@) == n
                    &&& 0 <= j < base.all@.len()
                    &&& (#[trigger] base.all@[j].shortname@) == n
                    &&& base.all@[j].handles == 0
                    &&& !base.all@[j].flags.spec_contains(OpenFlags { bits: 4096 })
                });
            let (m2, j) = choose|m2: int, j: int|
                {
                    &&& 1 <= m2 < m
                    &&& (#[trigger] dep_names@[m2]@) == n
                    &&& 0 <= j < base.all@.len()
                    &&& (#[trigger] base.all@[j].shortname@) == n
                    &&& base.all@[j].handles == 0
                    &&& !base.all@[j].flags.spec_contains(OpenFlags { bits: 4096 })
                };
            if dep_names@.len() > 1 {
                assert(m == dep_names@.len());
            }
            assert(1 <= m2 < dep_names@.len());
        }
    }
}

/// After one sweep removal, the sweep's running guarantees still hold.
proof fn lemma_sweep_step(
    base: Registry,
    pre: Registry,
    cur: Registry,
    dep_names: Seq<String>,
    m: int,
    j: int,
)
    requires
        base.wf(),
        pre.wf(),
        1 <= m < dep_names.len(),
        0 <= j < pre.all@.len(),
        pre.all@[j].shortname@ == dep_names[m]@,
        pre.all@[j].handles == 0,
        !pre.all@[j].flags.spec_contains(OpenFlags { bits: 4096 }),
        cur.all@ == pre.all@.remove(j),
        forall|jj: int| 0 <= jj < pre.all@.len() ==> record_from(base, #[trigger] pre.all@[jj]),
        forall|n: Seq<char>|
            #[trigger] resolvable(base, n) && !resolvable(pre, n) ==> exists|m2: int, j2: int|
                {
                    &&& 1 <= m2 < m
                    &&& (#[trigger] dep_names[m2]@) == n
                    &&& 0 <= j2 < base.all@.len()
                    &&& (#[trigger] base.all@[j2].shortname@) == n
                    &&& base.all@[j2].handles == 0
                    &&& !base.all@[j2].flags.spec_contains(OpenFlags { bits: 4096 })
                },
    ensures
        forall|jj: int| 0 <= jj < cur.all@.len() ==> record_from(base, #[trigger] cur.all@[jj]),
        forall|n: Seq<char>|
            #[trigger] resolvable(base, n) && !resolvable(cur, n) ==> exists|m2: int, j2: int|
                {
                    &&& 1 <= m2 < m + 1
                    &&& (#[trigger] dep_names[m2]@) == n
                    &&& 0 <= j2 < base.all@.len()
                    &&& (#[trigger] base.all@[j2].shortname@) == n
                    &&& base.all@[j2].handles == 0
                    &&& !base.all@[j2].flags.spec_contains(OpenFlags { bits: 4096 })
                },
{
    assert forall|jj: int|
        0 <= jj < cur.all@.len() implies record_from(base, #[trigger] cur.all@[jj]) by {
        if jj < j {
            assert(cur.all@[jj] == pre.all@[jj]);
            assert(record_from(base, pre.all@[jj]));
        } else {
            assert(cur.all@[jj] == pre.all@[jj + 1]);
            assert(record_from(base, pre.all@[jj + 1]));
        }
    }
    assert forall|n: Seq<char>|
        #[trigger] resolvable(base, n) && !resolvable(cur, n) implies exists|m2: int, j2: int|
        {
            &&& 1 <= m2 < m + 1
            &&& (#[trigger] dep_names[m2]@) == n
            &&& 0 <= j2 < base.all@.len()
            &&& (#[trigger] base.all@[j2].shortname@) == n
            &&& base.all@[j2].handles == 0
            &&& !base.all@[j2].flags.spec_contains(OpenFlags { bits: 4096 })
        } by {
        if resolvable(pre, n) {
            let jp = choose|jp: int|
                0 <= jp < pre.all@.len() && (#[trigger] pre.all@[jp].shortname@) == n;
            if jp != j {
                // the record survives the removal, at a possibly shifted slot
                if jp < j {
                    assert(cur.all@[jp] == pre.all@[jp]);
                    assert(resolvable(cur, n));
                } else {
                    assert(cur.all@[jp - 1] == pre.all@[jp]);
                    assert(resolvable(cur, n));
                }
                assert(false);
            } else {
                // the removed record itself: the listed member at this step
                assert(n == dep_names[m]@);
                assert(record_from(base, pre.all@[j]));
                let j0 = choose|j0: int|
                    0 <= j0 < base.all@.len() && pre.all@[j] == (#[trigger] base.all@[j0]);
                assert(base.all@[j0].shortname@ == n && base.all@[j0].handles == 0
                    && !base.all@[j0].flags.spec_contains(OpenFlags { bits: 4096 }));
            }
        }
    }
}

/// A member left in place was not eligible: its record holds a handle, is
/// NODELETE, or something else pins it.
proof fn lemma_sweep_skip(
    base: Registry,
    cur: Registry,
    dep_names: Seq<String>,
    m: int,
    nodup: bool,
    j: int,
)
    requires
        base.wf(),
        cur.wf(),
        1 <= m < dep_names.len(),
        0 <= j < cur.all@.len(),
        cur.all@[j].shortname@ == dep_names[m]@,
        !(cur.all@[j].handles == 0 && !cur.all@[j].flags.spec_contains(OpenFlags { bits: 4096 })
            && !spec_referenced_by_other(cur, dep_names[m]@)),
        forall|jj: int| 0 <= jj < cur.all@.len() ==> record_from(base, #[trigger] cur.all@[jj]),
    ensures
        nodup ==> forall|j0: int|
            0 <= j0 < base.all@.len() && (#[trigger] base.all@[j0].shortname@) == dep_names[m]@
                ==> !(base.all@[j0].handles == 0 && !base.all@[j0].flags.spec_contains(
                OpenFlags { bits: 4096 },
            ) && !spec_referenced_by_other(base, dep_names[m]@)),
{
    let n = dep_names[m]@;
    assert forall|j0: int|
        0 <= j0 < base.all@.len() && (#[trigger] base.all@[j0].shortname@) == n implies !(
    base.all@[j0].handles == 0 && !base.all@[j0].flags.spec_contains(OpenFlags { bits: 4096 })
        && !spec_referenced_by_other(base, n)) by {
        // the member's current record is one of the starting records, and
        // names are unique there
        assert(record_from(base, cur.all@[j]));
        let jb = choose|jb: int|
            0 <= jb < base.all@.len() && cur.all@[j] == (#[trigger] base.all@[jb]);
        assert(base.all@[jb].shortname@ == n);
        if jb != j0 {
            assert(base.all@[jb].shortname@ != base.all@[j0].shortname@);
        }
        assert(cur.all@[j].handles == base.all@[j0].handles);
        assert(cur.all@[j].flags == base.all@[j0].flags);
        if spec_referenced_by_other(cur, n) {
            let kp = choose|kp: int|
                0 <= kp < cur.all@.len() && (#[trigger] cur.all@[kp].shortname@) != n && match cur.all@[kp].deps {
                    Some(d) => name_views(d@).contains(n),
                    None => false,
                };
            assert(record_from(base, cur.all@[kp]));
            let kb = choose|kb: int|
                0 <= kb < base.all@.len() && cur.all@[kp] == (#[trigger] base.all@[kb]);
            assert(base.all@[kb].shortname@ != n && match base.all@[kb].deps {
                Some(d) => name_views(d@).contains(n),
                None => false,
            });
            assert(spec_referenced_by_other(base, n));
        }
    }
}

/// Drops a user handle. When the last handle on a library goes and the
/// library is not `NODELETE`, the library leaves the registry and the global
/// scope, one removal is counted, and each member of its Searchlist that no
/// other library pins (and that is not `NODELETE`, and has no handles of its
/// own) is dropped the same way.
#[verifier::spinoff_prover]
pub fn dlclose(reg: &mut Registry, handle: OpenHandle)
    requires
        old(reg).wf(),
        old(reg).subs + old(reg).all@.len() + 1 <= u64::MAX,
    ensures
        final(reg).wf(),
        final(reg).adds == old(reg).adds,
        final(reg).subs >= old(reg).subs,
        // a NODELETE or unregistered handle changes nothing
        handle.flags.spec_contains(OpenFlags { bits: 4096 }) || handle.flags.spec_contains(
            OpenFlags { bits: 1024 },
        ) ==> final(reg).all@ == old(reg).all@ && final(reg).global@ == old(reg).global@ && final(reg).subs == old(reg).subs,
        // a still-referenced library only loses one handle
        ({
            let i = slot_of(*old(reg), handle.shortname@);
            !handle.flags.spec_contains(OpenFlags { bits: 4096 }) && !handle.flags.spec_contains(
                OpenFlags { bits: 1024 },
            ) && resolvable(*old(reg), handle.shortname@) && old(reg).all@[i].handles > 1 ==> final(reg).subs == old(reg).subs && final(reg).global@ == old(reg).global@ && final(reg).all@.len() == old(reg).all@.len()
        }),
        // reference-count destruction of the root
        ({
            let i = slot_of(*old(reg), handle.shortname@);
            !handle.flags.spec_contains(OpenFlags { bits: 4096 }) && !handle.flags.spec_contains(
                OpenFlags { bits: 1024 },
            ) && resolvable(*old(reg), handle.shortname@) && old(reg).all@[i].handles == 1 && !old(reg).all@[i].flags.spec_contains(OpenFlags { bits: 4096 }) ==> !resolvable(
                *final(reg),
                handle.shortname@,
            ) && !final(reg).global_names().contains(handle.shortname@) && final(reg).subs >= old(reg).subs + 1 && ((match old(reg).all@[i].deps {
                Some(d) => d@.len() <= 1,
                None => true,
            }) ==> final(reg).subs == old(reg).subs + 1 && final(reg).all@.len() == old(reg).all@.len() - 1)
        }),
        // any library removed besides the root was a Searchlist member whose
        // record held no user handles and no NODELETE
        forall|n: Seq<char>|
            n != handle.shortname@ && #[trigger] resolvable(*old(reg), n) && !resolvable(
                *final(reg),
                n,
            ) ==> exists|j: int|
                {
                    &&& 0 <= j < old(reg).all@.len()
                    &&& (#[trigger] old(reg).all@[j].shortname@) == n
                    &&& old(reg).all@[j].handles == 0
                    &&& !old(reg).all@[j].flags.spec_contains(OpenFlags { bits: 4096 })
                    &&& (match old(reg).all@[slot_of(*old(reg), handle.shortname@)].deps {
                        Some(dl) => exists|m: int| 1 <= m < dl@.len() && (#[trigger] dl@[m]@) == n,
                        None => false,
                    })
                },
        // and, on the destruction path with a duplicate-free Searchlist, a
        // member goes exactly when no user handle, no NODELETE and no other
        // library's Searchlist pins it
        ({
            let i = slot_of(*old(reg), handle.shortname@);
            (!handle.flags.spec_contains(OpenFlags { bits: 4096 }) && !handle.flags.spec_contains(
                OpenFlags { bits: 1024 },
            ) && resolvable(*old(reg), handle.shortname@) && old(reg).all@[i].handles == 1 && !old(reg).all@[i].flags.spec_contains(OpenFlags { bits: 4096 })) ==> (match old(reg).all@[i].deps {
                Some(dl) => name_views(dl@).no_duplicates() ==> forall|m: int, j: int|
                    1 <= m < dl@.len() && 0 <= j < old(reg).all@.len() && (#[trigger] old(reg).all@[j].shortname@) == (#[trigger] dl@[m]@) && dl@[m]@ != handle.shortname@ && old(reg).all@[j].handles == 0 && !old(reg).all@[j].flags.spec_contains(OpenFlags { bits: 4096 }) && (forall|k: int|
                        0 <= k < old(reg).all@.len() && (#[trigger] old(reg).all@[k].shortname@) != dl@[m]@ && old(reg).all@[k].shortname@ != handle.shortname@ ==> !(match old(reg).all@[k].deps {
                            Some(dk) => name_views(dk@).contains(dl@[m]@),
                            None => false,
                        })) ==> !resolvable(*final(reg), dl@[m]@),
                None => true,
            })
        }),
{
    if handle.flags.contains(OpenFlags { bits: 4096 }) || handle.flags.contains(
        OpenFlags { bits: 1024 },
    ) {
        return ;
    }
    let ghost orig = *old(reg);
    let i = match reg.lookup(handle.shortname.as_str()) {
        Some(i) => i,
        None => {
            proof {
                assert(!resolvable(orig, handle.shortname@));
            }
            return ;
        },
    };
    proof {
        assert(resolvable(orig, handle.shortname@));
        assert(orig.all@[slot_of(orig, handle.shortname@)].shortname@ == handle.shortname@);
        if slot_of(orig, handle.shortname@) != i as int {
            assert(orig.all@[slot_of(orig, handle.shortname@)].shortname@
                != orig.all@[i as int].shortname@);
        }
        assert(slot_of(orig, handle.shortname@) == i as int);
    }
    let hcount = reg.all[i].handles;
    if hcount > 1 {
        let ghost pre = *reg;
        let e = &mut reg.all[i];
        e.handles = e.handles - 1;
        proof {
            assert(reg.all@ =~= pre.all@.update(
                i as int,
                LibRecord { handles: reg.all@[i as int].handles, ..pre.all@[i as int] },
            ));
            crate::registry::lemma_wf_preserved(pre, *reg);
            assert forall|n: Seq<char>| #[trigger] resolvable(pre, n) implies resolvable(
                *reg,
                n,
            ) by {
                let w = choose|w: int|
                    0 <= w < pre.all@.len() && (#[trigger] pre.all@[w].shortname@) == n;
                assert(reg.all@[w].shortname@ == n);
            }
        }
        return ;
    }
    if hcount == 0 {
        // no outstanding handle is recorded; nothing to drop
        return ;
    }
    if reg.all[i].flags.contains(OpenFlags { bits: 4096 }) {
        return ;
    }
    let dep_names = match &reg.all[i].deps {
        Some(d) => clone_names(d),
        None => Vec::new(),
    };
    reg.remove(i);
    proof {
        assert forall|j: int|
            0 <= j < reg.all@.len() implies (#[trigger] reg.all@[j].shortname@)
            != handle.shortname@ by {
            if j < i as int {
                assert(reg.all@[j] == orig.all@[j]);
                assert(orig.all@[j].shortname@ != orig.all@[i as int].shortname@);
            } else {
                assert(reg.all@[j] == orig.all@[j + 1]);
                assert(orig.all@[j + 1].shortname@ != orig.all@[i as int].shortname@);
            }
        }
        assert(!resolvable(*reg, handle.shortname@));
    }
    let ghost base = *reg;
    sweep_deps(reg, &dep_names, Ghost(handle.shortname@));
    proof {
        // the cloned list carries the root Searchlist's names
        match orig.all@[i as int].deps {
            Some(dl) => {
                assert(name_views(dep_names@) == name_views(dl@));
            },
            None => {
                assert(name_views(dep_names@) =~= Seq::<Seq<char>>::empty());
            },
        }
        // what the sweep removed, read back against the starting registry
        assert forall|n: Seq<char>|
            n != handle.shortname@ && #[trigger] resolvable(orig, n) && !resolvable(
                *reg,
                n,
            ) implies exists|j: int|
            {
                &&& 0 <= j < orig.all@.len()
                &&& (#[trigger] orig.all@[j].shortname@) == n
                &&& orig.all@[j].handles == 0
                &&& !orig.all@[j].flags.spec_contains(OpenFlags { bits: 4096 })
                &&& (match orig.all@[slot_of(orig, handle.shortname@)].deps {
                    Some(dl) => exists|m: int| 1 <= m < dl@.len() && (#[trigger] dl@[m]@) == n,
                    None => false,
                })
            } by {
            let jo = choose|jo: int|
                0 <= jo < orig.all@.len() && (#[trigger] orig.all@[jo].shortname@) == n;
            assert(jo != i as int);
            if jo < i as int {
                assert(base.all@[jo] == orig.all@[jo]);
            } else {
                assert(base.all@[jo - 1] == orig.all@[jo]);
            }
            assert(resolvable(base, n));
            let (m2, j2) = choose|m2: int, j2: int|
                {
                    &&& 1 <= m2 < dep_names@.len()
                    &&& (#[trigger] dep_names@[m2]@) == n
                    &&& 0 <= j2 < base.all@.len()
                    &&& (#[trigger] base.all@[j2].shortname@) == n
                    &&& base.all@[j2].handles == 0
                    &&& !base.all@[j2].flags.spec_contains(OpenFlags { bits: 4096 })
                };
            let j = if j2 < i as int {
                j2
            } else {
                j2 + 1
            };
            if j2 < i as int {
                assert(base.all@[j2] == orig.all@[j2]);
            } else {
                assert(base.all@[j2] == orig.all@[j2 + 1]);
            }
            assert(orig.all@[j].shortname@ == n && orig.all@[j].handles == 0
                && !orig.all@[j].flags.spec_contains(OpenFlags { bits: 4096 }));
            match orig.all@[i as int].deps {
                Some(dl) => {
                    assert(name_views(dl@)[m2] == name_views(dep_names@)[m2]);
                    assert(dl@[m2]@ == n);
                },
                None => {
                    assert(dep_names@.len() == 0);
                },
            }
        }
        // an unpinned member is indeed gone
        match orig.all@[i as int].deps {
            Some(dl) => {
                if name_views(dl@).no_duplicates() {
                    assert(name_views(dep_names@).no_duplicates());
                    assert forall|m: int, j: int|
                        1 <= m < dl@.len() && 0 <= j < orig.all@.len() && (
                    #[trigger] orig.all@[j].shortname@) == (#[trigger] dl@[m]@) && dl@[m]@
                        != handle.shortname@ && orig.all@[j].handles == 0
                        && !orig.all@[j].flags.spec_contains(OpenFlags { bits: 4096 }) && (forall|
                        k: int,
                    |
                        0 <= k < orig.all@.len() && (#[trigger] orig.all@[k].shortname@) != dl@[m]@
                            && orig.all@[k].shortname@ != handle.shortname@ ==> !(
                        match orig.all@[k].deps {
                            Some(dk) => name_views(dk@).contains(dl@[m]@),
                            None => false,
                        })) implies !resolvable(*reg, dl@[m]@) by {
                        let nm = dl@[m]@;
                        assert(name_views(dep_names@)[m] == name_views(dl@)[m]);
                        assert(dep_names@[m]@ == nm);
                        // the member's record survives the root removal
                        let jb = if j < i as int {
                            j
                        } else {
                            j - 1
                        };
                        assert(j != i as int);
                        if j < i as int {
                            assert(base.all@[j] == orig.all@[j]);
                        } else {
                            assert(base.all@[j - 1] == orig.all@[j]);
                        }
                        assert(base.all@[jb].shortname@ == nm && base.all@[jb].handles == 0
                            && !base.all@[jb].flags.spec_contains(OpenFlags { bits: 4096 }));
                        // nothing in the shrunk registry pins it
                        assert forall|kb: int|
                            0 <= kb < base.all@.len() && (#[trigger] base.all@[kb].shortname@)
                                != nm implies !(match base.all@[kb].deps {
                            Some(dk) => name_views(dk@).contains(nm),
                            None => false,
                        }) by {
                            let ko = if kb < i as int {
                                kb
                            } else {
                                kb + 1
                            };
                            if kb < i as int {
                                assert(base.all@[kb] == orig.all@[kb]);
                            } else {
                                assert(base.all@[kb + 1 - 1] == orig.all@[kb + 1]);
                            }
                            assert(orig.all@[ko].shortname@ != handle.shortname@);
                        }
                        assert(!spec_referenced_by_other(base, nm));
                        assert(!resolvable(*reg, nm));
                    }
                }
            },
            None => {},
        }
        match orig.all@[i as int].deps {
            Some(d) => {
                assert(dep_names@.map_values(|s: String| s@).len() == d@.map_values(
                    |s: String| s@,
                ).len());
                assert(dep_names@.len() == d@.len());
            },
            None => {
                assert(dep_names@.len() == 0);
            },
        }
    }
}

} // verus!

verus! {

/// Returns a handle to the main executable: the registry's first record,
/// as `dlopen` with a null name does. One more user handle is counted on it.
pub fn this(reg: &mut Registry) -> (r: Result<OpenHandle, Error>)
    requires
        old(reg).wf(),
    ensures
        final(reg).wf(),
        final(reg).global@ == old(reg).global@,
        final(reg).adds == old(reg).adds,
        final(reg).subs == old(reg).subs,
        final(reg).all@.len() == old(reg).all@.len(),
        match r {
            Ok(h) => {
                &&& old(reg).all@.len() > 0
                &&& h.shortname@ == old(reg).all@[0].shortname@
                &&& h.flags == old(reg).all@[0].flags
                &&& (match old(reg).all@[0].deps {
                    Some(d) => name_views(h.deps@) == name_views(d@),
                    None => name_views(h.deps@) == Seq::<Seq<char>>::empty(),
                })
                &&& final(reg).all@ == old(reg).all@.update(
                    0,
                    LibRecord {
                        handles: spec_sat_inc(old(reg).all@[0].handles),
                        ..old(reg).all@[0]
                    },
                )
            },
            Err(e) => old(reg).all@.len() == 0 && e is FindLibError && final(reg).all@ == old(
                reg,
            ).all@,
        },
{
    if reg.all.len() == 0 {
        return Err(find_lib_error("main"));
    }
    let ghost pre = *reg;
    let e = &mut reg.all[0];
    if e.handles < usize::MAX {
        e.handles = e.handles + 1;
    }
    proof {
        assert(reg.all@ =~= pre.all@.update(
            0,
            LibRecord { handles: spec_sat_inc(pre.all@[0].handles), ..pre.all@[0] },
        ));
        crate::registry::lemma_wf_preserved(pre, *reg);
    }
    let handle_deps = match &reg.all[0].deps {
        Some(d) => clone_names(d),
        None => Vec::new(),
    };
    let h = OpenHandle {
        shortname: reg.all[0].shortname.clone(),
        flags: reg.all[0].flags,
        deps: handle_deps,
    };
    proof {
        match pre.all@[0].deps {
            Some(d) => {},
            None => {
                assert(name_views(h.deps@) =~= Seq::<Seq<char>>::empty());
            },
        }
    }
    Ok(h)
}

/// Decides whether an object's PLT must be bound eagerly, by the flag
/// precedence of the engine: the `LD_BIND_NOW` environment overrides the
/// caller's `RTLD_NOW`, which overrides the caller's `RTLD_LAZY`, which
/// overrides the object's own request for lazy binding.
pub fn bind_now_effective(flags: OpenFlags, ld_bind_now: bool, object_lazy: bool) -> (r: bool)
    ensures
        r == (ld_bind_now || flags.spec_contains(OpenFlags { bits: 2 }) || (!flags.spec_contains(
            OpenFlags { bits: 1 },
        ) && !object_lazy)),
{
    if ld_bind_now {
        true
    } else if flags.contains(OpenFlags { bits: 2 }) {
        true
    } else if flags.contains(OpenFlags { bits: 1 }) {
        false
    } else {
        !object_lazy
    }
}

} // verus!
