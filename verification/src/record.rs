use vstd::prelude::*;

use crate::flags::OpenFlags;
use crate::state::DylibState;

verus! {

/// One exported symbol of a loaded object: its name and the address-like
/// value the object's symbol table assigns it, relative to the base.
pub struct SymEntry {
    /// The symbol's name, as the dynamic symbol table spells it.
    pub name: String,
    /// The symbol's value: its offset from the object's base address.
    pub value: usize,
}

/// What the object loader reports for one mapped ELF object, before any
/// dependency of it has been resolved: the parsed facts the lifecycle engine
/// works on.
pub struct LoadedObject {
    /// The registry key: the basename of the path or the SONAME; the main
    /// executable uses `main`.
    pub shortname: String,
    /// Canonical path; empty for the main executable and the vDSO.
    pub full_name: String,
    /// Virtual address at which the object is mapped.
    pub base: usize,
    /// Length of the reserved address range.
    pub mapped_len: usize,
    /// Short names of the objects this one directly requires (`DT_NEEDED`).
    pub needed: Vec<String>,
    /// The `DT_RPATH` string, if the dynamic table carries one.
    pub rpath: Option<String>,
    /// The `DT_RUNPATH` string, if the dynamic table carries one.
    pub runpath: Option<String>,
    /// The exported symbols.
    pub symbols: Vec<SymEntry>,
    /// Whether the object itself asks for lazy PLT binding (no `DF_BIND_NOW`).
    pub lazy: bool,
}

/// A library registered in the process-wide registry, with its lifecycle
/// metadata.
pub struct LibRecord {
    /// The registry key.
    pub shortname: String,
    /// Canonical path; empty for the main executable and the vDSO.
    pub full_name: String,
    /// Virtual address at which the object is mapped.
    pub base: usize,
    /// Length of the reserved address range.
    pub mapped_len: usize,
    /// Short names of the objects this one directly requires.
    pub needed: Vec<String>,
    /// The `DT_RPATH` string, if any.
    pub rpath: Option<String>,
    /// The `DT_RUNPATH` string, if any.
    pub runpath: Option<String>,
    /// The exported symbols.
    pub symbols: Vec<SymEntry>,
    /// The open flags that govern this registration.
    pub flags: OpenFlags,
    /// Where the record stands in the load/relocate lifecycle.
    pub state: DylibState,
    /// Once relocated: the Searchlist, the BFS-ordered deduplicated short
    /// names used for symbol resolution from this library, self first.
    pub deps: Option<Vec<String>>,
    /// Outstanding user handles onto this library.
    pub handles: usize,
}

impl LibRecord {
    /// Builds the registry record for a freshly loaded object.
    pub fn from_object(obj: LoadedObject, flags: OpenFlags, state: DylibState) -> (r: LibRecord)
        ensures
            r == (LibRecord {
                shortname: obj.shortname,
                full_name: obj.full_name,
                base: obj.base,
                mapped_len: obj.mapped_len,
                needed: obj.needed,
                rpath: obj.rpath,
                runpath: obj.runpath,
                symbols: obj.symbols,
                flags,
                state,
                deps: None::<Vec<String>>,
                handles: 0usize,
            }),
    {
        LibRecord {
            shortname: obj.shortname,
            full_name: obj.full_name,
            base: obj.base,
            mapped_len: obj.mapped_len,
            needed: obj.needed,
            rpath: obj.rpath,
            runpath: obj.runpath,
            symbols: obj.symbols,
            flags,
            state,
            deps: None,
            handles: 0,
        }
    }

    /// True when some exported symbol carries this name.
    pub open spec fn spec_has_symbol(self, name: Seq<char>) -> bool {
        exists|k: int| 0 <= k < self.symbols@.len() && (#[trigger] self.symbols@[k].name@) == name
    }

    /// The value of the first exported symbol carrying this name.
    pub open spec fn spec_symbol_value(self, name: Seq<char>) -> usize
        recommends
            self.spec_has_symbol(name),
    {
        self.symbols@[self.spec_symbol_index(name)].value
    }

    /// The index of the first exported symbol carrying this name.
    pub open spec fn spec_symbol_index(self, name: Seq<char>) -> int
        recommends
            self.spec_has_symbol(name),
    {
        choose|k: int|
            0 <= k < self.symbols@.len() && (#[trigger] self.symbols@[k].name@) == name && forall|
                j: int,
            | 0 <= j < k ==> (#[trigger] self.symbols@[j].name@) != name
    }

    /// Finds this record's symbol named `name`, returning its value.
    pub fn get_symbol(&self, name: &str) -> (r: Option<usize>)
        ensures
            match r {
                Some(v) => self.spec_has_symbol(name@) && v == self.spec_symbol_value(name@),
                None => !self.spec_has_symbol(name@),
            },
    {
        let mut k: usize = 0;
        while k < self.symbols.len()
            invariant
                k <= self.symbols@.len(),
                forall|j: int| 0 <= j < k ==> (#[trigger] self.symbols@[j].name@) != name@,
            decreases self.symbols@.len() - k,
        {
            if crate::path::str_eq(self.symbols[k].name.as_str(), name) {
                proof {
                    let kk = k as int;
                    assert(0 <= kk < self.symbols@.len() && self.symbols@[kk].name@ == name@
                        && forall|j: int| 0 <= j < kk ==> (#[trigger] self.symbols@[j].name@)
                        != name@);
                    assert(self.spec_symbol_index(name@) == kk);
                }
                return Some(self.symbols[k].value);
            }
            k = k + 1;
        }
        None
    }
}

/// Facts every loaded-object shape of the library exposes: the dependency
/// names and the registry key.
pub trait DylibExt {
    /// The dependency names, as sequences of characters.
    spec fn spec_needed(&self) -> Seq<Seq<char>>;

    /// The registry key, as a sequence of characters.
    spec fn spec_shortname(&self) -> Seq<char>;

    /// The names of the objects this one directly requires.
    fn needed_libs(&self) -> (r: &Vec<String>)
        ensures
            r@.map_values(|s: String| s@) == self.spec_needed(),
    ;

    /// The short name under which this object is keyed.
    fn shortname(&self) -> (r: &str)
        ensures
            r@ == self.spec_shortname(),
    ;
}

impl DylibExt for LibRecord {
    open spec fn spec_needed(&self) -> Seq<Seq<char>> {
        self.needed@.map_values(|s: String| s@)
    }

    open spec fn spec_shortname(&self) -> Seq<char> {
        self.shortname@
    }

    fn needed_libs(&self) -> (r: &Vec<String>) {
        &self.needed
    }

    fn shortname(&self) -> (r: &str) {
        self.shortname.as_str()
    }
}

impl DylibExt for LoadedObject {
    open spec fn spec_needed(&self) -> Seq<Seq<char>> {
        self.needed@.map_values(|s: String| s@)
    }

    open spec fn spec_shortname(&self) -> Seq<char> {
        self.shortname@
    }

    fn needed_libs(&self) -> (r: &Vec<String>) {
        &self.needed
    }

    fn shortname(&self) -> (r: &str) {
        self.shortname.as_str()
    }
}

} // verus!
