use vstd::prelude::*;

use crate::flags::OpenFlags;
use crate::open::{name_views, resolvable};
use crate::record::{LibRecord, LoadedObject};
use crate::registry::{index_entries, Registry};
use crate::state::DylibState;

verus! {

/// A dynamic-table entry: a tag and its value.
#[derive(Clone, Copy, PartialEq, Eq, Structural, Debug)]
pub struct DynEntry {
    /// The `DT_*` tag.
    pub d_tag: u64,
    /// The tag's value: an address, an offset or a plain number.
    pub d_un: u64,
}

/// Tags whose values the host linker rewrites in place from file-relative
/// offsets to absolute addresses: the pointer-bearing entries of the dynamic
/// table.
pub open spec fn is_addr_tag(tag: u64) -> bool {
    ||| tag == 3  // DT_PLTGOT
    ||| tag == 4  // DT_HASH
    ||| tag == 5  // DT_STRTAB
    ||| tag == 6  // DT_SYMTAB
    ||| tag == 7  // DT_RELA
    ||| tag == 12  // DT_INIT
    ||| tag == 13  // DT_FINI
    ||| tag == 17  // DT_REL
    ||| tag == 23  // DT_JMPREL
    ||| tag == 25  // DT_INIT_ARRAY
    ||| tag == 26  // DT_FINI_ARRAY
    ||| tag == 36  // DT_RELR
    ||| tag == 0x6ffffef5  // DT_GNU_HASH
    ||| tag == 0x6ffffef4  // DT_TLSDESC_PLT
    ||| tag == 0x6ffffff9  // DT_RELACOUNT
    ||| tag == 0x6ffffff0  // DT_VERSYM
    ||| tag == 0x6ffffffc  // DT_VERDEF
    ||| tag == 0x6ffffffe  // DT_VERNEED
}

/// Tests whether a tag carries an address.
pub fn addr_tag(tag: u64) -> (r: bool)
    ensures
        r == is_addr_tag(tag),
{
    tag == 3 || tag == 4 || tag == 5 || tag == 6 || tag == 7 || tag == 12 || tag == 13 || tag == 17
        || tag == 23 || tag == 25 || tag == 26 || tag == 36 || tag == 0x6ffffef5 || tag
        == 0x6ffffef4 || tag == 0x6ffffff9 || tag == 0x6ffffff0 || tag == 0x6ffffffc || tag
        == 0x6ffffffe
}

/// What recovering one entry against a base address yields: address-bearing
/// values above the base become base-relative again.
pub open spec fn spec_recovered(e: DynEntry, base: u64) -> DynEntry {
    if is_addr_tag(e.d_tag) && e.d_un > base {
        DynEntry { d_tag: e.d_tag, d_un: (e.d_un - base) as u64 }
    } else {
        e
    }
}

/// Recovers a dynamic table copied out of a host-adopted object: the host
/// linker rewrites the address-bearing entries to absolute addresses, and
/// this undoes it by subtracting the object's base from every such value
/// that exceeds the base.
pub fn recover_dynamic_table(table: Vec<DynEntry>, base: u64) -> (r: Vec<DynEntry>)
    ensures
        r@.len() == table@.len(),
        forall|k: int| 0 <= k < table@.len() ==> r@[k] == spec_recovered(#[trigger] table@[k], base),
{
    let mut out: Vec<DynEntry> = Vec::new();
    let mut k: usize = 0;
    while k < table.len()
        invariant
            k <= table@.len(),
            out@.len() == k,
            forall|j: int|
                0 <= j < k ==> out@[j] == spec_recovered(#[trigger] table@[j], base),
        decreases table@.len() - k,
    {
        let e = table[k];
        if addr_tag(e.d_tag) && e.d_un > base {
            out.push(DynEntry { d_tag: e.d_tag, d_un: e.d_un - base });
        } else {
            out.push(e);
        }
        k = k + 1;
    }
    out
}

/// Adopts the objects the host interpreter has already mapped: each one that
/// is not yet registered enters the registry fully relocated, global and
/// `NODELETE`, and every record's Searchlist is then recomputed. Adoption is
/// idempotent: names already present are not registered again.
#[verifier::rlimit(100)]
#[verifier::spinoff_prover]
pub fn init(reg: &mut Registry, adopted: Vec<LoadedObject>)
    requires
        old(reg).wf(),
        old(reg).adds + adopted@.len() <= u64::MAX,
        forall|k: int|
            0 <= k < old(reg).all@.len() ==> (#[trigger] old(reg).all@[k].state)@ is Relocated,
    ensures
        final(reg).wf(),
        final(reg).subs == old(reg).subs,
        forall|k: int|
            0 <= k < final(reg).all@.len() ==> (#[trigger] final(reg).all@[k].state)@
                is Relocated,
        // every adopted name resolves afterwards
        forall|oi: int|
            0 <= oi < adopted@.len() ==> resolvable(
                *final(reg),
                (#[trigger] adopted@[oi]).shortname@,
            ),
        // nothing already registered is lost
        forall|n: Seq<char>| #[trigger] resolvable(*old(reg), n) ==> resolvable(*final(reg), n),
        // a freshly adopted record is global and NODELETE, and its name
        // enters the global scope
        forall|k: int|
            old(reg).all@.len() <= k < final(reg).all@.len() ==> (
            #[trigger] final(reg).all@[k].flags).spec_contains(
                OpenFlags { bits: 256u32 | 4096u32 },
            ) && final(reg).global_names().contains(final(reg).all@[k].shortname@),
        // the already-resident prefix is untouched
        forall|k: int|
            0 <= k < old(reg).all@.len() ==> #[trigger] crate::open::same_but_deps(
                old(reg).all@[k],
                final(reg).all@[k],
            ),
        // adopting a second time changes neither the records, the counters,
        // nor the global scope
        (forall|oi: int|
            0 <= oi < adopted@.len() ==> resolvable(
                *old(reg),
                (#[trigger] adopted@[oi]).shortname@,
            )) ==> final(reg).all@.len() == old(reg).all@.len() && final(reg).adds == old(
            reg,
        ).adds && final(reg).global@ == old(reg).global@,
{
    let ghost orig = *old(reg);
    let ghost orig_adopted = adopted@;
    let ghost total = adopted@.len() as int;
    let mut pending = adopted;
    let host_flags = OpenFlags { bits: 256u32 | 4096u32 };
    let mut st = DylibState::new();
    st.set_relocated();

    while pending.len() > 0
        invariant
            reg.wf(),
            orig.wf(),
            orig == *old(reg),
            st@ is Relocated,
            host_flags == (OpenFlags { bits: 256u32 | 4096u32 }),
            total == orig_adopted.len(),
            pending@.len() <= total,
            pending@ == orig_adopted.skip(total - pending@.len()),
            reg.subs == orig.subs,
            reg.adds + pending@.len() <= u64::MAX,
            orig.all@.len() <= reg.all@.len(),
            reg.all@.take(orig.all@.len() as int) == orig.all@,
            forall|k: int|
                0 <= k < reg.all@.len() ==> (#[trigger] reg.all@[k].state)@ is Relocated,
            forall|j2: int|
                0 <= j2 < total - pending@.len() ==> resolvable(
                    *reg,
                    (#[trigger] orig_adopted[j2]).shortname@,
                ),
            (forall|oi2: int|
                0 <= oi2 < orig_adopted.len() ==> resolvable(
                    orig,
                    (#[trigger] orig_adopted[oi2]).shortname@,
                )) ==> reg.all@.len() == orig.all@.len() && reg.adds == orig.adds && reg.global@
                == orig.global@,
            forall|k: int|
                orig.all@.len() <= k < reg.all@.len() ==> (
                #[trigger] reg.all@[k].flags).spec_contains(OpenFlags { bits: 256u32 | 4096u32 })
                    && reg.global_names().contains(reg.all@[k].shortname@),
            orig.global@.len() <= reg.global@.len(),
            reg.global_names().take(orig.global@.len() as int) == orig.global_names(),
        decreases pending@.len(),
    {
        let ghost done = total - pending@.len();
        let o = pending.remove(0);
        let ghost o_g = o;
        proof {
            assert(o_g == orig_adopted[done]);
            assert(pending@ =~= orig_adopted.skip(total - pending@.len()));
        }
        let ghost pre = *reg;
        match reg.lookup(o.shortname.as_str()) {
            Some(_) => {
                proof {
                    assert(resolvable(*reg, o_g.shortname@));
                    assert forall|k: int|
                        orig.all@.len() <= k < reg.all@.len() implies (
                    #[trigger] reg.all@[k].flags).spec_contains(OpenFlags { bits: 256u32 | 4096u32 })
                        && reg.global_names().contains(reg.all@[k].shortname@) by {
                        assert(reg.all@[k] == pre.all@[k]);
                    }
                }
            },
            None => {
                let rec = LibRecord::from_object(o, host_flags, st);
                let ghost rec_g = rec;
                proof {
                    assert((256u32 | 4096u32) & 1024u32 == 0u32) by (bit_vector);
                    assert(!rec.flags.spec_contains(OpenFlags { bits: 1024 }));
                }
                reg.register(rec);
                proof {
                    assert(reg.all@[reg.all@.len() - 1].shortname@ == o_g.shortname@);
                    assert(resolvable(*reg, o_g.shortname@));
                    assert(reg.all@.take(orig.all@.len() as int) =~= pre.all@.take(
                        orig.all@.len() as int,
                    ));
                    // the new record keeps the host flags and enters the scope
                    assert(((256u32 | 4096u32) | 4096u32) & (256u32 | 4096u32) == (256u32
                        | 4096u32)) by (bit_vector);
                    assert((256u32 | 4096u32) & (256u32 | 4096u32) == (256u32 | 4096u32))
                        by (bit_vector);
                    assert((256u32 | 4096u32) & 256u32 == 256u32) by (bit_vector);
                    assert(reg.global_names().last() == o_g.shortname@);
                    assert(reg.all@[reg.all@.len() - 1]
                        == crate::registry::spec_runtime_promoted(rec_g));
                    assert(rec_g.flags == host_flags);
                    if crate::registry::is_runtime_name(rec_g.shortname@) {
                        assert(reg.all@[reg.all@.len() - 1].flags == OpenFlags {
                            bits: (256u32 | 4096u32) | 4096u32,
                        });
                    } else {
                        assert(reg.all@[reg.all@.len() - 1].flags == OpenFlags {
                            bits: 256u32 | 4096u32,
                        });
                    }
                    assert(reg.all@[reg.all@.len() - 1].flags.spec_contains(
                        OpenFlags { bits: 256u32 | 4096u32 },
                    ));
                    assert(reg.global_names().take(orig.global@.len() as int)
                        =~= pre.global_names().take(orig.global@.len() as int));
                    assert forall|k: int|
                        orig.all@.len() <= k < reg.all@.len() implies (
                    #[trigger] reg.all@[k].flags).spec_contains(OpenFlags { bits: 256u32 | 4096u32 })
                        && reg.global_names().contains(reg.all@[k].shortname@) by {
                        if k < pre.all@.len() {
                            assert(pre.all@[k].flags.spec_contains(
                                OpenFlags { bits: 256u32 | 4096u32 },
                            ));
                            assert(pre.global_names().contains(pre.all@[k].shortname@));
                            assert(reg.all@[k] == pre.all@[k]);
                            let w = choose|w: int|
                                0 <= w < pre.global_names().len() && pre.global_names()[w]
                                    == pre.all@[k].shortname@;
                            assert(reg.global_names()[w] == pre.global_names()[w]);
                        } else {
                            assert(reg.global_names().contains(o_g.shortname@));
                        }
                    }
                    // a fresh registration means the name was never registered
                    if forall|oi2: int|
                        0 <= oi2 < orig_adopted.len() ==> resolvable(
                            orig,
                            (#[trigger] orig_adopted[oi2]).shortname@,
                        ) {
                        assert(resolvable(orig, o_g.shortname@));
                        let w = choose|w: int|
                            0 <= w < orig.all@.len() && (#[trigger] orig.all@[w].shortname@)
                                == o_g.shortname@;
                        assert(pre.all@.take(orig.all@.len() as int)[w] == orig.all@[w]);
                        assert(pre.all@[w].shortname@ == o_g.shortname@);
                        assert(false);
                    }
                }
            },
        }
        proof {
            assert forall|j2: int|
                0 <= j2 < total - pending@.len() implies resolvable(
                *reg,
                (#[trigger] orig_adopted[j2]).shortname@,
            ) by {
                if j2 < done {
                    assert(resolvable(pre, orig_adopted[j2].shortname@));
                    let w = choose|w: int|
                        0 <= w < pre.all@.len() && (#[trigger] pre.all@[w].shortname@)
                            == orig_adopted[j2].shortname@;
                    assert(reg.all@[w].shortname@ == pre.all@[w].shortname@);
                }
            }
        }
    }

    // Recompute every record's Searchlist against the adopted world.
    let ghost after_adopt = *reg;
    let mut k2: usize = 0;
    while k2 < reg.all.len()
        invariant
            reg.wf(),
            after_adopt.wf(),
            reg.all@.len() == after_adopt.all@.len(),
            reg.global@ == after_adopt.global@,
            reg.adds == after_adopt.adds,
            reg.subs == after_adopt.subs,
            index_entries(reg.index) == index_entries(after_adopt.index),
            forall|j: int|
                0 <= j < reg.all@.len() ==> crate::open::same_but_deps(
                    after_adopt.all@[j],
                    #[trigger] reg.all@[j],
                ),
        decreases reg.all@.len() - k2,
    {
        let nm = reg.all[k2].shortname.clone();
        proof {
            assert(reg.all@[k2 as int].shortname@ == nm@);
            assert(resolvable(*reg, nm@));
        }
        let sl = crate::open::compute_searchlist(reg, nm.as_str());
        let ghost pre = *reg;
        let e = &mut reg.all[k2];
        e.deps = Some(sl);
        proof {
            assert(reg.all@ =~= pre.all@.update(
                k2 as int,
                LibRecord { deps: reg.all@[k2 as int].deps, ..pre.all@[k2 as int] },
            ));
            crate::registry::lemma_wf_preserved(pre, *reg);
        }
        k2 = k2 + 1;
    }

    proof {
        assert forall|k: int|
            0 <= k < reg.all@.len() implies (#[trigger] reg.all@[k].state)@ is Relocated by {
            assert(crate::open::same_but_deps(after_adopt.all@[k], reg.all@[k]));
        }
        assert forall|oi: int|
            0 <= oi < adopted@.len() implies resolvable(
            *reg,
            (#[trigger] adopted@[oi]).shortname@,
        ) by {
            assert(resolvable(after_adopt, orig_adopted[oi].shortname@));
            let w = choose|w: int|
                0 <= w < after_adopt.all@.len() && (#[trigger] after_adopt.all@[w].shortname@)
                    == orig_adopted[oi].shortname@;
            assert(reg.all@[w].shortname@ == after_adopt.all@[w].shortname@);
        }
        assert forall|n: Seq<char>| #[trigger] resolvable(orig, n) implies resolvable(
            *reg,
            n,
        ) by {
            let w = choose|w: int|
                0 <= w < orig.all@.len() && (#[trigger] orig.all@[w].shortname@) == n;
            assert(after_adopt.all@.take(orig.all@.len() as int)[w] == orig.all@[w]);
            assert(after_adopt.all@[w].shortname@ == n);
            assert(reg.all@[w].shortname@ == after_adopt.all@[w].shortname@);
        }
    }
}

} // verus!
