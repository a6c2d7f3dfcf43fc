use dlopen_rs::{
    addr2dso, addr_tag, dl_iterate_phdr, dladdr, init, recover_dynamic_table, DestructorQueue,
    DylibState, DynEntry, LibRecord, LoadedObject, OpenFlags, Registry, SymEntry,
};

fn obj(shortname: &str, full_name: &str, base: usize) -> LoadedObject {
    LoadedObject {
        shortname: shortname.to_string(),
        full_name: full_name.to_string(),
        base,
        mapped_len: 0x1000,
        needed: Vec::new(),
        rpath: None,
        runpath: None,
        symbols: vec![SymEntry { name: "probe".to_string(), value: 0x10 }],
        lazy: false,
    }
}

fn relocated() -> DylibState {
    let mut st = DylibState::new();
    st.set_relocated();
    st
}

#[test]
fn register_and_lookup() {
    let mut reg = Registry::new();
    let rec = LibRecord::from_object(
        obj("libone.so", "/x/libone.so", 0x1000),
        OpenFlags::rtld_local(),
        relocated(),
    );
    reg.register(rec);
    assert_eq!(reg.all.len(), 1);
    assert_eq!(reg.adds, 1);
    let i = reg.lookup("libone.so").expect("registered");
    assert_eq!(reg.all[i].base, 0x1000);
    assert!(reg.lookup("libtwo.so").is_none());
    // a local library is not in the global scope
    assert!(!reg.global_contains("libone.so"));
}

#[test]
fn main_executable_is_global() {
    let mut reg = Registry::new();
    // the main executable carries an empty full name and always enters the
    // global scope
    let rec = LibRecord::from_object(obj("main", "", 0x400000), OpenFlags::rtld_local(), relocated());
    reg.register(rec);
    assert!(reg.global_contains("main"));
}

#[test]
fn runtime_names_become_nodelete() {
    let mut reg = Registry::new();
    let rec = LibRecord::from_object(
        obj("libc.so.6", "/lib/libc.so.6", 0x2000),
        OpenFlags::rtld_local(),
        relocated(),
    );
    reg.register(rec);
    let i = reg.lookup("libc.so.6").unwrap();
    assert!(reg.all[i].flags.contains(OpenFlags::rtld_nodelete()));
}

#[test]
fn truncate_rolls_registrations_back() {
    let mut reg = Registry::new();
    reg.register(LibRecord::from_object(
        obj("liba.so", "/x/liba.so", 0x1000),
        OpenFlags::rtld_global(),
        relocated(),
    ));
    let chk_all = reg.all.len();
    let chk_glob = reg.global.len();
    reg.register(LibRecord::from_object(
        obj("libb.so", "/x/libb.so", 0x2000),
        OpenFlags::rtld_global(),
        relocated(),
    ));
    reg.truncate(chk_all, chk_glob);
    assert_eq!(reg.all.len(), 1);
    assert!(reg.lookup("liba.so").is_some());
    assert!(reg.lookup("libb.so").is_none());
    assert!(!reg.global_contains("libb.so"));
}

#[test]
fn host_adoption_is_idempotent() {
    let mut reg = Registry::new();
    let world = || {
        vec![
            obj("main", "", 0x400000),
            obj("libc.so.6", "/lib/libc.so.6", 0x7f000000),
        ]
    };
    init(&mut reg, world());
    let len1 = reg.all.len();
    assert_eq!(len1, 2);
    assert!(reg.global_contains("libc.so.6"));
    let i = reg.lookup("libc.so.6").unwrap();
    assert!(reg.all[i].flags.contains(OpenFlags::rtld_nodelete()));
    assert!(reg.all[i].state.is_relocated());

    // adopting the same world again adds nothing
    init(&mut reg, world());
    assert_eq!(reg.all.len(), len1);
}

#[test]
fn dynamic_table_recovery() {
    let table = vec![
        DynEntry { d_tag: 5, d_un: 0x7f000200 },  // DT_STRTAB, rewritten
        DynEntry { d_tag: 1, d_un: 0x300 },  // DT_NEEDED, untouched
        DynEntry { d_tag: 6, d_un: 0x80 },  // DT_SYMTAB already relative
        DynEntry { d_tag: 0, d_un: 0 },
    ];
    let out = recover_dynamic_table(table, 0x7f000000);
    assert_eq!(out[0].d_un, 0x200);
    assert_eq!(out[1].d_un, 0x300);
    assert_eq!(out[2].d_un, 0x80);
    assert_eq!(out[3].d_un, 0);
    assert!(addr_tag(0x6ffffef5));
    assert!(!addr_tag(1));
}

#[test]
fn address_reverse_lookup() {
    let mut reg = Registry::new();
    reg.register(LibRecord::from_object(
        obj("liba.so", "/x/liba.so", 0x1000),
        OpenFlags::rtld_local(),
        relocated(),
    ));
    reg.register(LibRecord::from_object(
        obj("libb.so", "/x/libb.so", 0x9000),
        OpenFlags::rtld_local(),
        relocated(),
    ));
    let i = addr2dso(&reg, 0x9234).expect("address inside libb");
    assert_eq!(reg.all[i].shortname, "libb.so");
    assert!(addr2dso(&reg, 0x8000).is_none());

    let info = dladdr(&reg, 0x9020).expect("dladdr hit");
    assert_eq!(info.dli_fname, "/x/libb.so");
    assert_eq!(info.dli_fbase, 0x9000);
    assert_eq!(info.dli_sname.as_deref(), Some("probe"));
    assert_eq!(info.dli_saddr, 0x9010);
}

#[test]
fn phdr_iteration_reports_epoch() {
    let mut reg = Registry::new();
    reg.register(LibRecord::from_object(
        obj("liba.so", "/x/liba.so", 0x1000),
        OpenFlags::rtld_local(),
        relocated(),
    ));
    let rows = dl_iterate_phdr(&reg);
    assert_eq!(rows.len(), 1);
    assert_eq!(rows[0].dlpi_addr, 0x1000);
    assert_eq!(rows[0].dlpi_name, "/x/liba.so");
    assert_eq!(rows[0].dlpi_adds, 1);
    assert_eq!(rows[0].dlpi_subs, 0);
}

#[test]
fn destructors_run_in_reverse_registration_order() {
    let mut q = DestructorQueue::new();
    q.register_atexit(0x1000, 1);
    q.register_atexit(0x1000, 2);
    q.register_atexit(0x5000, 9);
    q.register_atexit(0x1000, 3);

    // draining one object's range runs its entries newest-first
    let run = q.finalize(0x1000, Some((0x1000, 0x2000)));
    let tokens: Vec<u64> = run.iter().map(|d| d.token).collect();
    assert_eq!(tokens, vec![3, 2, 1]);
    // the unrelated entry stays queued
    assert_eq!(q.entries.len(), 1);
    assert_eq!(q.entries[0].token, 9);

    // a null handle drains everything
    let rest = q.finalize(0, None);
    assert_eq!(rest.len(), 1);
    assert_eq!(q.entries.len(), 0);
}

#[test]
fn error_values_carry_their_cause() {
    let e = dlopen_rs::find_lib_error("libz.so");
    assert!(matches!(e, dlopen_rs::Error::FindLibError { ref msg } if msg == "libz.so"));
    assert_eq!(e.message(), "libz.so");
    let e = dlopen_rs::find_symbol_error("cos");
    assert!(matches!(e, dlopen_rs::Error::FindSymbolError { ref msg } if msg == "cos"));
    let e = dlopen_rs::iterate_phdr_error(7);
    assert!(matches!(e, dlopen_rs::Error::IteratorPhdrError { code: 7 }));
}

#[test]
fn flag_bit_operations() {
    let f = OpenFlags::rtld_lazy().with(OpenFlags::rtld_global());
    assert!(f.contains(OpenFlags::rtld_lazy()));
    assert!(f.contains(OpenFlags::rtld_global()));
    assert!(!f.contains(OpenFlags::rtld_now()));
    assert_eq!(f.difference(OpenFlags::rtld_global()).bits, OpenFlags::rtld_lazy().bits);
    assert_eq!(f.intersection(OpenFlags::rtld_global()).bits, 256);
    assert_eq!(OpenFlags::rtld_local().bits, 0);
}

#[test]
fn lifecycle_state_encoding() {
    let mut st = DylibState::new();
    assert_eq!(st.get_new_idx(), Some(0));
    assert!(!st.is_relocated());
    st.set_new_idx(7);
    assert_eq!(st.get_new_idx(), Some(7));
    st.set_relocating();
    assert_eq!(st.get_new_idx(), None);
    assert!(!st.is_relocated());
    st.set_relocated();
    assert!(st.is_relocated());
}

#[test]
fn link_map_chain_stays_consistent() {
    let mut d = dlopen_rs::DebugState::new();
    assert_eq!(d.r_state, 0);
    let a = d.add_link_map(0x1000, "/x/liba.so".to_string());
    let b = d.add_link_map(0x2000, "/x/libb.so".to_string());
    let c = d.add_link_map(0x3000, "/x/libc.so".to_string());
    assert_eq!(d.r_state, 0);
    assert_eq!(d.head, Some(a));
    assert_eq!(d.tail, Some(c));

    // walk forward and backward: both traversals visit the same nodes
    let mut fwd = Vec::new();
    let mut cur = d.head;
    while let Some(n) = cur {
        fwd.push(n);
        cur = d.nodes[n].l_next;
    }
    let mut bwd = Vec::new();
    let mut cur = d.tail;
    while let Some(n) = cur {
        bwd.push(n);
        cur = d.nodes[n].l_prev;
    }
    bwd.reverse();
    assert_eq!(fwd, bwd);
    assert_eq!(fwd, vec![a, b, c]);

    // removing the middle node rejoins its neighbors and stays consistent
    d.remove_link_map(b);
    assert_eq!(d.r_state, 0);
    assert_eq!(d.nodes[a].l_next, Some(c));
    assert_eq!(d.nodes[c].l_prev, Some(a));
    assert!(!d.nodes[b].live);
    assert_eq!(d.head, Some(a));
    assert_eq!(d.tail, Some(c));

    // removing the ends leaves an empty, consistent chain
    d.remove_link_map(a);
    d.remove_link_map(c);
    assert_eq!(d.head, None);
    assert_eq!(d.tail, None);
    assert_eq!(d.r_state, 0);
}
