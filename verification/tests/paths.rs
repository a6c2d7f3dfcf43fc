use dlopen_rs::{
    default_paths, find_library, fixup_rpath, get_parent_path, parse_path_list, short_name_of,
    ElfPath,
};

fn views(v: &Vec<ElfPath>) -> Vec<String> {
    v.iter().map(|p| p.as_str().to_string()).collect()
}

#[test]
fn path_list_drops_empty_segments() {
    let v = parse_path_list("/a:/b::/c:");
    assert_eq!(views(&v), vec!["/a", "/b", "/c"]);
    assert_eq!(parse_path_list("").len(), 0);
    assert_eq!(parse_path_list(":::").len(), 0);
}

#[test]
fn join_inserts_separator_once() {
    let d = ElfPath::from_str("/usr/lib").unwrap();
    assert_eq!(d.join("libm.so.6").as_str(), "/usr/lib/libm.so.6");
    let slashed = ElfPath::from_str("/usr/lib/").unwrap();
    assert_eq!(slashed.join("libm.so.6").as_str(), "/usr/lib/libm.so.6");
    let empty = ElfPath::from_str("").unwrap();
    assert_eq!(empty.join("x").as_str(), "x");
}

#[test]
fn origin_expansion() {
    // the RUNPATH of a library at /opt/app/lib expands against its directory
    let v = fixup_rpath("/opt/app/lib/libA.so", "$ORIGIN/../ext");
    assert_eq!(views(&v), vec!["/opt/app/lib/../ext"]);

    let v = fixup_rpath("/opt/app/lib/libA.so", "$ORIGIN");
    assert_eq!(views(&v), vec!["/opt/app/lib"]);

    // a library without a directory expands to `.`
    let v = fixup_rpath("libA.so", "$ORIGIN/sub");
    assert_eq!(views(&v), vec!["./sub"]);

    // a `$` that does not introduce ORIGIN poisons the whole list
    let v = fixup_rpath("/opt/app/lib/libA.so", "$HOME/lib");
    assert_eq!(v.len(), 0);

    // no `$` at all: a plain colon list
    let v = fixup_rpath("/opt/app/lib/libA.so", "/one:/two");
    assert_eq!(views(&v), vec!["/one", "/two"]);
}

#[test]
fn search_order_prefers_origin_runpath_over_defaults() {
    // a library whose RUNPATH is $ORIGIN/../ext searches there before the
    // default system paths
    let runpath = fixup_rpath("/opt/app/lib/libA.so", "$ORIGIN/../ext");
    let rpath: Vec<ElfPath> = Vec::new();
    let ld_path: Vec<ElfPath> = Vec::new();
    let candidates = find_library(&rpath, &runpath, &ld_path, &None, "libB.so");
    let names = views(&candidates);
    assert_eq!(names[0], "/opt/app/lib/../ext/libB.so");
    let first_default = names
        .iter()
        .position(|c| c == "/lib/libB.so")
        .expect("default path candidate present");
    assert!(first_default > 0);
}

#[test]
fn runpath_disables_rpath() {
    let rpath = parse_path_list("/from-rpath");
    let runpath = parse_path_list("/from-runpath");
    let ld_path: Vec<ElfPath> = Vec::new();

    // with a RUNPATH present, RPATH contributes nothing
    let with_runpath = views(&find_library(&rpath, &runpath, &ld_path, &None, "libZ.so"));
    assert!(!with_runpath.contains(&"/from-rpath/libZ.so".to_string()));
    assert!(with_runpath.contains(&"/from-runpath/libZ.so".to_string()));

    // without one, RPATH is searched first
    let no_runpath: Vec<ElfPath> = Vec::new();
    let with_rpath = views(&find_library(&rpath, &no_runpath, &ld_path, &None, "libZ.so"));
    assert_eq!(with_rpath[0], "/from-rpath/libZ.so");
}

#[test]
fn cache_hit_precedes_defaults_and_follows_runpath() {
    let runpath = parse_path_list("/rp");
    let rpath: Vec<ElfPath> = Vec::new();
    let ld_path = parse_path_list("/ld");
    let hit = Some(ElfPath::from_str("/from-cache/libZ.so").unwrap());
    let names = views(&find_library(&rpath, &runpath, &ld_path, &hit, "libZ.so"));
    let ld = names.iter().position(|c| c == "/ld/libZ.so").unwrap();
    let rp = names.iter().position(|c| c == "/rp/libZ.so").unwrap();
    let ca = names.iter().position(|c| c == "/from-cache/libZ.so").unwrap();
    let de = names.iter().position(|c| c == "/lib/libZ.so").unwrap();
    assert!(ld < rp && rp < ca && ca < de);
}

#[test]
fn default_paths_order() {
    let d = views(&default_paths());
    assert_eq!(d[0], "/lib");
    assert_eq!(d[1], "/usr/lib");
    assert_eq!(d[2], "/lib64");
    assert_eq!(d[3], "/usr/lib64");
    assert_eq!(d.len(), 12);
}

#[test]
fn parent_and_short_names() {
    assert_eq!(get_parent_path("/usr/lib/libm.so.6").unwrap(), "/usr/lib");
    assert_eq!(get_parent_path("/libm.so.6").unwrap(), "/");
    assert!(get_parent_path("libm.so.6").is_none());
    assert_eq!(short_name_of("/usr/lib/libm.so.6"), "libm.so.6");
    assert_eq!(short_name_of("libm.so.6"), "libm.so.6");
}
