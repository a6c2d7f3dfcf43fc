use dlopen_rs::{
    bind_now_effective, compute_order, dlclose, dlopen_resolved, find_symbol, lookup_composite,
    next_find, this, DylibExt, LoadedObject, OpenFlags, Registry, SymEntry,
};

fn obj(
    shortname: &str,
    full_name: &str,
    base: usize,
    needed: &[&str],
    symbols: &[(&str, usize)],
) -> LoadedObject {
    LoadedObject {
        shortname: shortname.to_string(),
        full_name: full_name.to_string(),
        base,
        mapped_len: 0x1000,
        needed: needed.iter().map(|s| s.to_string()).collect(),
        rpath: None,
        runpath: None,
        symbols: symbols
            .iter()
            .map(|(n, v)| SymEntry { name: n.to_string(), value: *v })
            .collect(),
        lazy: false,
    }
}

fn libexample() -> LoadedObject {
    obj(
        "libexample.so",
        "/tmp/libexample.so",
        0x7000_0000,
        &[],
        &[("add", 0x100), ("print", 0x200)],
    )
}

#[test]
fn dedup_idempotence() {
    let mut reg = Registry::new();
    let flags = OpenFlags::rtld_local();
    let h1 = dlopen_resolved(&mut reg, "libexample.so", flags, false, vec![libexample()])
        .expect("first open must succeed");
    let size1 = reg.all.len();
    // the second open finds the record and loads nothing
    let h2 = dlopen_resolved(&mut reg, "libexample.so", flags, false, Vec::new())
        .expect("second open must reuse the record");
    assert_eq!(reg.all.len(), size1);
    assert_eq!(h1.shortname, "libexample.so");
    assert_eq!(h2.shortname, "libexample.so");
}

#[test]
fn flag_monotonic_promotion() {
    let mut reg = Registry::new();
    dlopen_resolved(
        &mut reg,
        "libexample.so",
        OpenFlags::rtld_local(),
        false,
        vec![libexample()],
    )
    .expect("local open");
    assert!(!reg.global_contains("libexample.so"));

    dlopen_resolved(&mut reg, "libexample.so", OpenFlags::rtld_global(), false, Vec::new())
        .expect("global re-open");
    assert!(reg.global_contains("libexample.so"));

    // a later local open never demotes
    dlopen_resolved(&mut reg, "libexample.so", OpenFlags::rtld_local(), false, Vec::new())
        .expect("local re-open");
    assert!(reg.global_contains("libexample.so"));
}

#[test]
fn searchlist_closure() {
    let mut reg = Registry::new();
    let a = obj("libA.so", "/x/libA.so", 0x1000, &["libB.so"], &[]);
    let b = obj("libB.so", "/x/libB.so", 0x2000, &["libC.so"], &[]);
    let c = obj("libC.so", "/x/libC.so", 0x3000, &[], &[("leaf", 4)]);
    let h = dlopen_resolved(
        &mut reg,
        "/x/libA.so",
        OpenFlags::rtld_now(),
        false,
        vec![a, b, c],
    )
    .expect("transitive load");
    // the Searchlist starts with the root and is closed under needed
    assert_eq!(h.deps[0], "libA.so");
    let names: Vec<String> = h.deps.clone();
    for member in &names {
        let slot = reg.lookup(member.as_str()).expect("member registered");
        for n in reg.all[slot].needed_libs().clone() {
            assert!(names.iter().any(|m| *m == n), "needed {} missing from searchlist", n);
        }
    }
    assert_eq!(names.len(), 3);
}

#[test]
fn rollback_atomicity() {
    let mut reg = Registry::new();
    dlopen_resolved(
        &mut reg,
        "libexample.so",
        OpenFlags::rtld_global(),
        false,
        vec![libexample()],
    )
    .expect("seed the registry");
    let all_len = reg.all.len();
    let global_len = reg.global.len();

    // libA needs libB, which nobody supplies
    let a = obj("libA.so", "/x/libA.so", 0x1000, &["libB.so"], &[]);
    let r = dlopen_resolved(&mut reg, "/x/libA.so", OpenFlags::rtld_now(), false, vec![a]);
    assert!(r.is_err());
    assert_eq!(reg.all.len(), all_len);
    assert_eq!(reg.global.len(), global_len);
}

#[test]
fn reference_count_destruction() {
    let mut reg = Registry::new();
    let h = dlopen_resolved(
        &mut reg,
        "libexample.so",
        OpenFlags::rtld_global(),
        false,
        vec![libexample()],
    )
    .expect("open");
    let subs0 = reg.subs;
    dlclose(&mut reg, h);
    assert!(reg.lookup("libexample.so").is_none());
    assert!(!reg.global_contains("libexample.so"));
    assert_eq!(reg.subs, subs0 + 1);
}

#[test]
fn nodelete_survives_close() {
    let mut reg = Registry::new();
    let h = dlopen_resolved(
        &mut reg,
        "libexample.so",
        OpenFlags::rtld_global().with(OpenFlags::rtld_nodelete()),
        false,
        vec![libexample()],
    )
    .expect("open");
    dlclose(&mut reg, h);
    assert!(reg.lookup("libexample.so").is_some());
}

#[test]
fn global_scope_ordering() {
    let mut reg = Registry::new();
    let first = obj("libfirst.so", "/x/libfirst.so", 0x1000, &[], &[("dup", 0x11)]);
    let second = obj("libsecond.so", "/x/libsecond.so", 0x2000, &[], &[("dup", 0x22)]);
    dlopen_resolved(&mut reg, "libfirst.so", OpenFlags::rtld_global(), false, vec![first])
        .expect("first");
    dlopen_resolved(&mut reg, "libsecond.so", OpenFlags::rtld_global(), false, vec![second])
        .expect("second");
    // the earliest-inserted global definition wins
    let (idx, val) = reg.global_find("dup").expect("dup resolves globally");
    assert_eq!(reg.all[idx].shortname, "libfirst.so");
    assert_eq!(val, 0x11);
}

#[test]
fn noload_fails_on_absent() {
    let mut reg = Registry::new();
    let r = dlopen_resolved(
        &mut reg,
        "libexample.so",
        OpenFlags::rtld_noload(),
        false,
        vec![libexample()],
    );
    assert!(r.is_err());
    assert_eq!(reg.all.len(), 0);
}

#[test]
fn lazy_global_then_default_lookup() {
    // the model of loading with LAZY|GLOBAL and then resolving through the
    // default (global) scope
    let mut reg = Registry::new();
    dlopen_resolved(
        &mut reg,
        "libexample.so",
        OpenFlags::rtld_lazy().with(OpenFlags::rtld_global()),
        false,
        vec![libexample()],
    )
    .expect("open");
    let (idx, val) = reg.global_find("add").expect("add visible in the global scope");
    assert_eq!(reg.all[idx].shortname, "libexample.so");
    assert_eq!(val, 0x100);
}

#[test]
fn repeated_open_shares_one_record() {
    // two opens of the same name refer to the same base and one record
    let mut reg = Registry::new();
    let h1 = dlopen_resolved(
        &mut reg,
        "libexample.so",
        OpenFlags::rtld_now(),
        false,
        vec![libexample()],
    )
    .expect("first");
    let h2 = dlopen_resolved(&mut reg, "libexample.so", OpenFlags::rtld_now(), false, Vec::new())
        .expect("second");
    let i1 = reg.lookup(h1.shortname.as_str()).unwrap();
    let i2 = reg.lookup(h2.shortname.as_str()).unwrap();
    assert_eq!(i1, i2);
    assert_eq!(reg.all[i1].base, 0x7000_0000);
    let count = reg
        .all
        .iter()
        .filter(|r| r.shortname == "libexample.so")
        .count();
    assert_eq!(count, 1);
}

#[test]
fn handle_symbol_lookup_walks_searchlist() {
    let mut reg = Registry::new();
    let h = dlopen_resolved(
        &mut reg,
        "libexample.so",
        OpenFlags::rtld_now(),
        false,
        vec![libexample()],
    )
    .expect("open");
    let (idx, val) = find_symbol(&reg, &h.deps, "add").expect("add found through the handle");
    assert_eq!(reg.all[idx].shortname, "libexample.so");
    assert_eq!(val, 0x100);
    assert!(find_symbol(&reg, &h.deps, "non_existent_symbol").is_err());
}

#[test]
fn relocation_schedule_orders_dependencies() {
    let mut reg = Registry::new();
    // a chain: libA needs libB needs libC, all awaiting relocation
    let names = ["libA.so", "libB.so", "libC.so"];
    let mut st = dlopen_rs::DylibState::new();
    for (ix, n) in names.iter().enumerate() {
        st.set_new_idx(ix as u8);
        let needed: &[&str] = if ix < 2 { &[names[ix + 1]] } else { &[] };
        reg.register(dlopen_rs::LibRecord::from_object(
            obj(n, &format!("/x/{}", n), 0x1000 * (ix + 1), needed, &[]),
            OpenFlags::rtld_now(),
            st,
        ));
    }
    let schedule = compute_order(&mut reg, 0);
    // every library is scheduled exactly once, dependencies first
    assert_eq!(schedule.len(), 3);
    let pos = |off: usize| schedule.iter().position(|e| *e == off).unwrap();
    assert!(pos(2) < pos(1), "libC before libB");
    assert!(pos(1) < pos(0), "libB before libA");
    for off in 0..3 {
        assert!(reg.all[off].state.is_relocated());
    }
}

#[test]
fn main_handle_and_binding_mode() {
    let mut reg = Registry::new();
    assert!(this(&mut reg).is_err());
    dlopen_resolved(&mut reg, "libexample.so", OpenFlags::rtld_now(), false, vec![libexample()])
        .expect("open");
    let h = this(&mut reg).expect("first record");
    assert_eq!(h.shortname, "libexample.so");

    // LD_BIND_NOW overrides everything; NOW overrides LAZY; LAZY overrides
    // the object's own request; otherwise the object decides
    assert!(bind_now_effective(OpenFlags::rtld_lazy(), true, true));
    assert!(bind_now_effective(OpenFlags::rtld_now().with(OpenFlags::rtld_lazy()), false, true));
    assert!(!bind_now_effective(OpenFlags::rtld_lazy(), false, false));
    assert!(!bind_now_effective(OpenFlags::rtld_local(), false, true));
    assert!(bind_now_effective(OpenFlags::rtld_local(), false, false));
}

#[test]
fn next_and_composite_lookups() {
    let mut reg = Registry::new();
    let first = obj("libfirst.so", "/x/libfirst.so", 0x1000, &[], &[("dup", 0x11)]);
    let second = obj("libsecond.so", "/x/libsecond.so", 0x2000, &[], &[("dup", 0x22)]);
    dlopen_resolved(&mut reg, "libfirst.so", OpenFlags::rtld_global(), false, vec![first])
        .expect("first");
    let h2 = dlopen_resolved(&mut reg, "libsecond.so", OpenFlags::rtld_global(), false, vec![
        second,
    ])
    .expect("second");

    // a caller inside libfirst skips its own definition
    let (idx, val) = next_find(&reg, 0x1234, "dup").expect("next definer");
    assert_eq!(reg.all[idx].shortname, "libsecond.so");
    assert_eq!(val, 0x22);
    // a caller inside libsecond has nothing after itself
    assert!(next_find(&reg, 0x2234, "dup").is_none());

    // without DEEPBIND the earliest global definition shadows the local one;
    // with DEEPBIND the caller's own searchlist wins
    let (gi, gv) = lookup_composite(&reg, &h2.deps, "dup", false).expect("global first");
    assert_eq!(reg.all[gi].shortname, "libfirst.so");
    assert_eq!(gv, 0x11);
    let (li, lv) = lookup_composite(&reg, &h2.deps, "dup", true).expect("deepbind local");
    assert_eq!(reg.all[li].shortname, "libsecond.so");
    assert_eq!(lv, 0x22);
    assert!(lookup_composite(&reg, &h2.deps, "absent", false).is_none());
}

#[test]
fn close_sweeps_unpinned_dependencies() {
    let mut reg = Registry::new();
    let a = obj("libA.so", "/x/libA.so", 0x1000, &["libB.so"], &[]);
    let b = obj("libB.so", "/x/libB.so", 0x2000, &[], &[]);
    let h = dlopen_resolved(&mut reg, "/x/libA.so", OpenFlags::rtld_now(), false, vec![a, b])
        .expect("load chain");
    assert_eq!(reg.all.len(), 2);
    let subs0 = reg.subs;
    dlclose(&mut reg, h);
    // the root goes, and the dependency nothing else pins goes with it
    assert!(reg.lookup("libA.so").is_none());
    assert!(reg.lookup("libB.so").is_none());
    assert_eq!(reg.subs, subs0 + 2);
}

#[test]
fn close_keeps_dependencies_pinned_elsewhere() {
    let mut reg = Registry::new();
    let a = obj("libA.so", "/x/libA.so", 0x1000, &["libB.so"], &[]);
    let b = obj("libB.so", "/x/libB.so", 0x2000, &[], &[]);
    let c = obj("libC.so", "/x/libC.so", 0x3000, &["libB.so"], &[]);
    let ha = dlopen_resolved(&mut reg, "/x/libA.so", OpenFlags::rtld_now(), false, vec![a, b])
        .expect("chain A");
    dlopen_resolved(&mut reg, "/x/libC.so", OpenFlags::rtld_now(), false, vec![c])
        .expect("chain C");
    dlclose(&mut reg, ha);
    // libB stays: libC's searchlist still pins it
    assert!(reg.lookup("libA.so").is_none());
    assert!(reg.lookup("libB.so").is_some());
    assert!(reg.lookup("libC.so").is_some());
}

#[test]
fn dedup_keeps_global_scope_size() {
    let mut reg = Registry::new();
    dlopen_resolved(
        &mut reg,
        "libexample.so",
        OpenFlags::rtld_global(),
        false,
        vec![libexample()],
    )
    .expect("first");
    let glen = reg.global.len();
    dlopen_resolved(&mut reg, "libexample.so", OpenFlags::rtld_global(), false, Vec::new())
        .expect("second");
    assert_eq!(reg.global.len(), glen);
}
