use vstd::prelude::*;

mod atexit;
mod cache;
mod debug;
mod error;
mod flags;
mod host;
mod open;
mod path;
mod record;
mod registry;
mod state;
mod symbol;

verus! {

pub use atexit::{Destructor, DestructorQueue};
pub use cache::LdCache;
pub use debug::{DebugState, LinkMapNode};
pub use error::{find_lib_error, find_symbol_error, iterate_phdr_error, parse_ld_cache_error, Error};
pub use flags::OpenFlags;
pub use host::{addr_tag, init, recover_dynamic_table, DynEntry};
pub use open::{
    bind_now_effective,
    compute_order,
    compute_searchlist,
    dlclose,
    dlopen_resolved,
    mark_states,
    short_name_of,
    this,
    try_existing,
    ExistingResult,
    OpenHandle,
};
pub use path::{
    default_paths,
    find_library,
    fixup_rpath,
    get_parent_path,
    parse_path_list,
    str_eq,
    ElfPath,
};
pub use record::{DylibExt, LibRecord, LoadedObject, SymEntry};
pub use registry::{str_contains, Registry};
pub use state::{DylibState, LifeState};
pub use symbol::{addr2dso, dl_iterate_phdr, dladdr, find_symbol, lookup_composite, next_find, DlInfo, PhdrInfo};

} // verus!
