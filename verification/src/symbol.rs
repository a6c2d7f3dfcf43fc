use vstd::prelude::*;

use crate::error::{find_symbol_error, Error};
use crate::open::name_views;
use crate::record::LibRecord;
use crate::registry::Registry;

verus! {

/// Whether the Searchlist member at position `m` names a record that defines
/// the symbol.
pub open spec fn member_defines(reg: Registry, names: Seq<Seq<char>>, m: int, sym: Seq<char>) -> bool {
    exists|i: int|
        0 <= i < reg.all@.len() && (#[trigger] reg.all@[i].shortname@) == names[m]
            && reg.all@[i].spec_has_symbol(sym)
}

/// Walks a Searchlist in order and returns, for the first member that
/// defines `name`, that record's slot and the symbol's value.
pub fn find_symbol(reg: &Registry, searchlist: &Vec<String>, name: &str) -> (r: Result<
    (usize, usize),
    Error,
>)
    requires
        reg.wf(),
    ensures
        match r {
            Ok(p) => exists|m: int|
                {
                    &&& 0 <= m < searchlist@.len()
                    &&& p.0 < reg.all@.len()
                    &&& reg.all@[p.0 as int].shortname@ == name_views(searchlist@)[m]
                    &&& reg.all@[p.0 as int].spec_has_symbol(name@)
                    &&& p.1 == reg.all@[p.0 as int].spec_symbol_value(name@)
                    &&& forall|h: int|
                        0 <= h < m ==> !(#[trigger] member_defines(
                            *reg,
                            name_views(searchlist@),
                            h,
                            name@,
                        ))
                },
            Err(e) => (e matches Error::FindSymbolError { msg } && msg@ == name@) && forall|h: int|
                0 <= h < searchlist@.len() ==> !(#[trigger] member_defines(
                    *reg,
                    name_views(searchlist@),
                    h,
                    name@,
                )),
        },
{
    let mut m: usize = 0;
    while m < searchlist.len()
        invariant
            reg.wf(),
            m <= searchlist@.len(),
            forall|h: int|
                0 <= h < m ==> !(#[trigger] member_defines(
                    *reg,
                    name_views(searchlist@),
                    h,
                    name@,
                )),
        decreases searchlist@.len() - m,
    {
        match reg.lookup(searchlist[m].as_str()) {
            Some(i) => {
                match reg.all[i].get_symbol(name) {
                    Some(v) => {
                        proof {
                            assert(name_views(searchlist@)[m as int] == searchlist@[m as int]@);
                            assert(reg.all@[i as int].shortname@ == name_views(
                                searchlist@,
                            )[m as int]);
                            assert(reg.all@[i as int].spec_has_symbol(name@));
                        }
                        return Ok((i, v));
                    },
                    None => {
                        proof {
                            assert forall|i2: int|
                                0 <= i2 < reg.all@.len() && (#[trigger] reg.all@[i2].shortname@)
                                    == name_views(searchlist@)[m as int] implies !reg.all@[i2].spec_has_symbol(
                                name@,
                            ) by {
                                if i2 != i as int {
                                    assert(reg.all@[i2].shortname@ != reg.all@[i as int].shortname@);
                                }
                            }
                        }
                    },
                }
            },
            None => {
                proof {
                    assert(!member_defines(*reg, name_views(searchlist@), m as int, name@));
                }
            },
        }
        m = m + 1;
    }
    Err(find_symbol_error(name))
}

/// The address lies inside the record's mapping.
pub open spec fn addr_in_record(rec: LibRecord, addr: usize) -> bool {
    rec.base <= addr < rec.base + rec.mapped_len
}

/// Finds the first registered library whose mapping covers `addr`.
pub fn addr2dso(reg: &Registry, addr: usize) -> (r: Option<usize>)
    ensures
        match r {
            Some(i) => i < reg.all@.len() && addr_in_record(reg.all@[i as int], addr) && forall|
                j: int,
            | 0 <= j < i ==> !addr_in_record(#[trigger] reg.all@[j], addr),
            None => forall|j: int|
                0 <= j < reg.all@.len() ==> !addr_in_record(#[trigger] reg.all@[j], addr),
        },
{
    let mut i: usize = 0;
    while i < reg.all.len()
        invariant
            i <= reg.all@.len(),
            forall|j: int| 0 <= j < i ==> !addr_in_record(#[trigger] reg.all@[j], addr),
        decreases reg.all@.len() - i,
    {
        let rec = &reg.all[i];
        if rec.base <= addr && addr - rec.base < rec.mapped_len {
            return Some(i);
        }
        i = i + 1;
    }
    None
}

/// What `dladdr` reports for a code address: the covering object and, when
/// one exists, the nearest exported symbol at or below the address.
pub struct DlInfo {
    /// Path of the covering object.
    pub dli_fname: String,
    /// Base address of the covering object.
    pub dli_fbase: usize,
    /// Name of the nearest symbol at or below the address, if any.
    pub dli_sname: Option<String>,
    /// Absolute address of that symbol.
    pub dli_saddr: usize,
}

/// Reverse-looks-up a code address: finds the covering object and the
/// exported symbol with the greatest value not above the address.
pub fn dladdr(reg: &Registry, addr: usize) -> (r: Option<DlInfo>)
    ensures
        match r {
            Some(info) => exists|i: int|
                {
                    &&& 0 <= i < reg.all@.len()
                    &&& addr_in_record(reg.all@[i], addr)
                    &&& info.dli_fname@ == reg.all@[i].full_name@
                    &&& info.dli_fbase == reg.all@[i].base
                    &&& (match info.dli_sname {
                        Some(s) => (exists|k: int|
                            {
                                &&& 0 <= k < reg.all@[i].symbols@.len()
                                &&& (#[trigger] reg.all@[i].symbols@[k].name@) == s@
                                &&& reg.all@[i].base + reg.all@[i].symbols@[k].value
                                    == info.dli_saddr
                                &&& info.dli_saddr <= addr
                            }) && (forall|k: int|
                            0 <= k < reg.all@[i].symbols@.len() && reg.all@[i].base + (
                            #[trigger] reg.all@[i].symbols@[k].value) <= addr ==> reg.all@[i].base
                                + reg.all@[i].symbols@[k].value <= info.dli_saddr),
                        None => info.dli_saddr == 0 && forall|k: int|
                            0 <= k < reg.all@[i].symbols@.len() ==> reg.all@[i].base + (
                            #[trigger] reg.all@[i].symbols@[k].value) > addr,
                    })
                },
            None => forall|j: int|
                0 <= j < reg.all@.len() ==> !addr_in_record(#[trigger] reg.all@[j], addr),
        },
{
    let i = match addr2dso(reg, addr) {
        Some(i) => i,
        None => {
            return None;
        },
    };
    let rec = &reg.all[i];
    let mut best: Option<usize> = None;
    let mut best_addr: usize = 0;
    let mut k: usize = 0;
    while k < rec.symbols.len()
        invariant
            i < reg.all@.len(),
            rec == reg.all@[i as int],
            k <= rec.symbols@.len(),
            match best {
                Some(b) => b < k && rec.base + rec.symbols@[b as int].value == best_addr
                    && best_addr <= addr && forall|k2: int|
                    0 <= k2 < k && rec.base + (#[trigger] rec.symbols@[k2].value) <= addr
                        ==> rec.base + rec.symbols@[k2].value <= best_addr,
                None => best_addr == 0 && forall|k2: int|
                    0 <= k2 < k ==> rec.base + (#[trigger] rec.symbols@[k2].value) > addr,
            },
        decreases rec.symbols@.len() - k,
    {
        let v = rec.symbols[k].value;
        if v <= usize::MAX - rec.base {
            let a = rec.base + v;
            if a <= addr {
                match best {
                    Some(_) => {
                        if a >= best_addr {
                            best = Some(k);
                            best_addr = a;
                        }
                    },
                    None => {
                        best = Some(k);
                        best_addr = a;
                    },
                }
            }
        }
        k = k + 1;
    }
    let (sname, saddr): (Option<String>, usize) = match best {
        Some(b) => (Some(rec.symbols[b].name.clone()), best_addr),
        None => (None, 0),
    };
    let info = DlInfo {
        dli_fname: rec.full_name.clone(),
        dli_fbase: rec.base,
        dli_sname: sname,
        dli_saddr: saddr,
    };
    proof {
        assert(addr_in_record(reg.all@[i as int], addr));
        assert(info.dli_fname@ == reg.all@[i as int].full_name@);
        match best {
            Some(b) => {
                assert(0 <= b < reg.all@[i as int].symbols@.len());
                assert(reg.all@[i as int].symbols@[b as int].name@ == info.dli_sname->Some_0@);
                assert(reg.all@[i as int].base + reg.all@[i as int].symbols@[b as int].value
                    == info.dli_saddr);
            },
            None => {},
        }
    }
    Some(info)
}

/// One row of a phdr iteration: what the callback of `dl_iterate_phdr` sees
/// for one object.
pub struct PhdrInfo {
    /// Base address of the object.
    pub dlpi_addr: usize,
    /// The object's registered path.
    pub dlpi_name: String,
    /// Insertions counted when the snapshot was taken.
    pub dlpi_adds: u64,
    /// Removals counted when the snapshot was taken.
    pub dlpi_subs: u64,
}

/// Snapshots every registered object in insertion order, carrying the
/// add/remove epoch, for a caller-driven phdr iteration.
pub fn dl_iterate_phdr(reg: &Registry) -> (r: Vec<PhdrInfo>)
    ensures
        r@.len() == reg.all@.len(),
        forall|i: int|
            0 <= i < r@.len() ==> {
                &&& (#[trigger] r@[i]).dlpi_addr == reg.all@[i].base
                &&& r@[i].dlpi_name@ == reg.all@[i].full_name@
                &&& r@[i].dlpi_adds == reg.adds
                &&& r@[i].dlpi_subs == reg.subs
            },
{
    let mut out: Vec<PhdrInfo> = Vec::new();
    let mut i: usize = 0;
    while i < reg.all.len()
        invariant
            i <= reg.all@.len(),
            out@.len() == i,
            forall|j: int|
                0 <= j < i ==> {
                    &&& (#[trigger] out@[j]).dlpi_addr == reg.all@[j].base
                    &&& out@[j].dlpi_name@ == reg.all@[j].full_name@
                    &&& out@[j].dlpi_adds == reg.adds
                    &&& out@[j].dlpi_subs == reg.subs
                },
        decreases reg.all@.len() - i,
    {
        out.push(
            PhdrInfo {
                dlpi_addr: reg.all[i].base,
                dlpi_name: reg.all[i].full_name.clone(),
                dlpi_adds: reg.adds,
                dlpi_subs: reg.subs,
            },
        );
        i = i + 1;
    }
    out
}

} // verus!

verus! {

/// Some member of the name list names a record defining the symbol.
pub open spec fn any_member_defines(reg: Registry, names: Seq<Seq<char>>, sym: Seq<char>) -> bool {
    exists|h: int| 0 <= h < names.len() && member_defines(reg, names, h, sym)
}

/// Some global-scope entry names a record defining the symbol.
pub open spec fn any_global_defines(reg: Registry, sym: Seq<char>) -> bool {
    exists|g: int| 0 <= g < reg.global@.len() && reg.global_defines(g, sym)
}

/// The pair is the first hit of a Searchlist walk.
pub open spec fn local_hit(
    reg: Registry,
    names: Seq<Seq<char>>,
    sym: Seq<char>,
    p: (usize, usize),
) -> bool {
    exists|m: int|
        {
            &&& 0 <= m < names.len()
            &&& p.0 < reg.all@.len()
            &&& reg.all@[p.0 as int].shortname@ == names[m]
            &&& reg.all@[p.0 as int].spec_has_symbol(sym)
            &&& p.1 == reg.all@[p.0 as int].spec_symbol_value(sym)
            &&& forall|h: int| 0 <= h < m ==> !(#[trigger] member_defines(reg, names, h, sym))
        }
}

/// The pair is the first hit of a global-scope walk.
pub open spec fn global_hit(reg: Registry, sym: Seq<char>, p: (usize, usize)) -> bool {
    exists|g: int|
        {
            &&& 0 <= g < reg.global@.len()
            &&& p.0 < reg.all@.len()
            &&& reg.all@[p.0 as int].shortname@ == reg.global@[g]@
            &&& reg.all@[p.0 as int].spec_has_symbol(sym)
            &&& p.1 == reg.all@[p.0 as int].spec_symbol_value(sym)
            &&& forall|h: int| 0 <= h < g ==> !(#[trigger] reg.global_defines(h, sym))
        }
}

/// Resolves a name against the composite scope an object is relocated with:
/// under `RTLD_DEEPBIND` the object's own Searchlist is walked before the
/// global scope, otherwise the global scope comes first.
pub fn lookup_composite(
    reg: &Registry,
    searchlist: &Vec<String>,
    name: &str,
    deepbind: bool,
) -> (r: Option<(usize, usize)>)
    requires
        reg.wf(),
    ensures
        deepbind && any_member_defines(*reg, name_views(searchlist@), name@) ==> (r matches Some(
            p,
        ) && local_hit(*reg, name_views(searchlist@), name@, p)),
        deepbind && !any_member_defines(*reg, name_views(searchlist@), name@)
            && any_global_defines(*reg, name@) ==> (r matches Some(p) && global_hit(
            *reg,
            name@,
            p,
        )),
        !deepbind && any_global_defines(*reg, name@) ==> (r matches Some(p) && global_hit(
            *reg,
            name@,
            p,
        )),
        !deepbind && !any_global_defines(*reg, name@) && any_member_defines(
            *reg,
            name_views(searchlist@),
            name@,
        ) ==> (r matches Some(p) && local_hit(*reg, name_views(searchlist@), name@, p)),
        !any_member_defines(*reg, name_views(searchlist@), name@) && !any_global_defines(
            *reg,
            name@,
        ) ==> r is None,
{
    if deepbind {
        match find_symbol(reg, searchlist, name) {
            Ok(p) => {
                proof {
                    lemma_local_bridge(*reg, name_views(searchlist@), name@, p);
                }
                Some(p)
            },
            Err(_) => {
                match reg.global_find(name) {
                    Some(p) => {
                        proof {
                            lemma_global_bridge(*reg, name@, p);
                        }
                        Some(p)
                    },
                    None => None,
                }
            },
        }
    } else {
        match reg.global_find(name) {
            Some(p) => {
                proof {
                    lemma_global_bridge(*reg, name@, p);
                }
                Some(p)
            },
            None => {
                match find_symbol(reg, searchlist, name) {
                    Ok(p) => {
                        proof {
                            lemma_local_bridge(*reg, name_views(searchlist@), name@, p);
                        }
                        Some(p)
                    },
                    Err(_) => None,
                }
            },
        }
    }
}

/// A first local hit witnesses that some member defines the symbol.
proof fn lemma_local_bridge(reg: Registry, names: Seq<Seq<char>>, sym: Seq<char>, p: (usize, usize))
    requires
        local_hit(reg, names, sym, p),
    ensures
        any_member_defines(reg, names, sym),
{
    let m = choose|m: int|
        {
            &&& 0 <= m < names.len()
            &&& p.0 < reg.all@.len()
            &&& reg.all@[p.0 as int].shortname@ == names[m]
            &&& reg.all@[p.0 as int].spec_has_symbol(sym)
            &&& p.1 == reg.all@[p.0 as int].spec_symbol_value(sym)
            &&& forall|h: int| 0 <= h < m ==> !(#[trigger] member_defines(reg, names, h, sym))
        };
    assert(member_defines(reg, names, m, sym));
}

/// A first global hit witnesses that some global entry defines the symbol.
proof fn lemma_global_bridge(reg: Registry, sym: Seq<char>, p: (usize, usize))
    requires
        global_hit(reg, sym, p),
    ensures
        any_global_defines(reg, sym),
{
    let g = choose|g: int|
        {
            &&& 0 <= g < reg.global@.len()
            &&& p.0 < reg.all@.len()
            &&& reg.all@[p.0 as int].shortname@ == reg.global@[g]@
            &&& reg.all@[p.0 as int].spec_has_symbol(sym)
            &&& p.1 == reg.all@[p.0 as int].spec_symbol_value(sym)
            &&& forall|h: int| 0 <= h < g ==> !(#[trigger] reg.global_defines(h, sym))
        };
    assert(reg.global_defines(g, sym));
}

/// Continues the global-scope walk after the library containing the caller's
/// return address, as `dlsym` with the next-handle value does: the result is
/// the first global definer strictly after the caller's own scope entry.
pub fn next_find(reg: &Registry, caller: usize, name: &str) -> (r: Option<(usize, usize)>)
    requires
        reg.wf(),
    ensures
        match r {
            Some(p) => exists|ci: int, g0: int, g: int|
                {
                    &&& 0 <= ci < reg.all@.len()
                    &&& addr_in_record(reg.all@[ci], caller)
                    &&& forall|j: int| 0 <= j < ci ==> !addr_in_record(#[trigger] reg.all@[j], caller)
                    &&& 0 <= g0 < reg.global@.len()
                    &&& reg.global@[g0]@ == reg.all@[ci].shortname@
                    &&& g0 < g < reg.global@.len()
                    &&& p.0 < reg.all@.len()
                    &&& reg.all@[p.0 as int].shortname@ == reg.global@[g]@
                    &&& reg.all@[p.0 as int].spec_has_symbol(name@)
                    &&& p.1 == reg.all@[p.0 as int].spec_symbol_value(name@)
                    &&& forall|h: int| g0 < h < g ==> !(#[trigger] reg.global_defines(h, name@))
                },
            None => (forall|j: int|
                0 <= j < reg.all@.len() ==> !addr_in_record(#[trigger] reg.all@[j], caller))
                || exists|ci: int|
                {
                    &&& 0 <= ci < reg.all@.len()
                    &&& addr_in_record(reg.all@[ci], caller)
                    &&& (!reg.global_names().contains(reg.all@[ci].shortname@) || exists|g0: int|
                        {
                            &&& 0 <= g0 < reg.global@.len()
                            &&& reg.global@[g0]@ == reg.all@[ci].shortname@
                            &&& forall|h: int|
                                g0 < h < reg.global@.len() ==> !(#[trigger] reg.global_defines(
                                    h,
                                    name@,
                                ))
                        })
                },
        },
{
    let ci = match addr2dso(reg, caller) {
        Some(i) => i,
        None => {
            return None;
        },
    };

    // the caller's own position in the global scope
    let g0 = match global_position(reg, ci) {
        Some(g0) => g0,
        None => {
            return None;
        },
    };

    // walk the global scope strictly after the caller
    let glen = reg.global.len();
    assert(g0 < glen);
    let mut h = g0 + 1;
    while h < reg.global.len()
        invariant
            reg.wf(),
            ci < reg.all@.len(),
            addr_in_record(reg.all@[ci as int], caller),
            forall|j: int| 0 <= j < ci ==> !addr_in_record(#[trigger] reg.all@[j], caller),
            g0 < reg.global@.len(),
            reg.global@[g0 as int]@ == reg.all@[ci as int].shortname@,
            g0 < h,
            h <= reg.global@.len() + 1,
            forall|h2: int| g0 < h2 < h ==> !(#[trigger] reg.global_defines(h2, name@)),
        decreases reg.global@.len() - h,
    {
        match reg.lookup(reg.global[h].as_str()) {
            Some(idx) => {
                match reg.all[idx].get_symbol(name) {
                    Some(val) => {
                        proof {
                            assert(addr_in_record(reg.all@[ci as int], caller));
                            assert(reg.global@[g0 as int]@ == reg.all@[ci as int].shortname@);
                            assert(reg.all@[idx as int].shortname@ == reg.global@[h as int]@);
                            assert(reg.all@[idx as int].spec_has_symbol(name@));
                        }
                        return Some((idx, val));
                    },
                    None => {
                        proof {
                            assert forall|i2: int|
                                0 <= i2 < reg.all@.len() && (#[trigger] reg.all@[i2].shortname@)
                                    == reg.global@[h as int]@ implies !reg.all@[i2].spec_has_symbol(
                                name@,
                            ) by {
                                if i2 != idx as int {
                                    assert(reg.all@[i2].shortname@ != reg.all@[idx as int].shortname@);
                                }
                            }
                        }
                    },
                }
            },
            None => {
                proof {
                    assert(reg.global_resolves_within(h as int, reg.all@.len() as int));
                    let w = choose|w: int|
                        0 <= w < reg.all@.len() && reg.global@[h as int]@ == (
                        #[trigger] reg.all@[w].shortname@);
                    assert(false);
                }
            },
        }
        h = h + 1;
    }
    None
}

/// Finds the global-scope position of the record at slot `ci`, if its name
/// takes part in global resolution.
fn global_position(reg: &Registry, ci: usize) -> (r: Option<usize>)
    requires
        ci < reg.all@.len(),
    ensures
        match r {
            Some(g0) => g0 < reg.global@.len() && reg.global@[g0 as int]@
                == reg.all@[ci as int].shortname@,
            None => !reg.global_names().contains(reg.all@[ci as int].shortname@),
        },
{
    let mut g: usize = 0;
    while g < reg.global.len()
        invariant
            ci < reg.all@.len(),
            g <= reg.global@.len(),
            forall|h: int|
                0 <= h < g ==> (#[trigger] reg.global@[h]@) != reg.all@[ci as int].shortname@,
        decreases reg.global@.len() - g,
    {
        if crate::path::str_eq(reg.global[g].as_str(), reg.all[ci].shortname.as_str()) {
            return Some(g);
        }
        g = g + 1;
    }
    proof {
        assert forall|h: int|
            0 <= h < reg.global_names().len() implies reg.global_names()[h]
            != reg.all@[ci as int].shortname@ by {
            assert(reg.global@[h]@ != reg.all@[ci as int].shortname@);
        }
    }
    None
}

} // verus!
