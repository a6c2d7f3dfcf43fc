use dlopen_rs::LdCache;

const ARCH_X86_64: u32 = 0x0100;

fn push_u32(v: &mut Vec<u8>, x: u32) {
    v.extend_from_slice(&x.to_le_bytes());
}

/// Builds a `glibc-ld.so.cache1.1` image holding the given (name, path)
/// entries, whose string offsets are header-relative, with `libc6` + x86_64
/// flags. Names must be given in ascending order.
fn build_cache(entries: &[(&str, &str)]) -> Vec<u8> {
    let nlibs = entries.len();
    let header = 48usize;
    let table_start = header + nlibs * 24;

    // lay out the string table
    let mut strings: Vec<u8> = Vec::new();
    let mut offsets: Vec<(usize, usize)> = Vec::new();
    for (name, path) in entries {
        let name_off = table_start + strings.len();
        strings.extend_from_slice(name.as_bytes());
        strings.push(0);
        let path_off = table_start + strings.len();
        strings.extend_from_slice(path.as_bytes());
        strings.push(0);
        offsets.push((name_off, path_off));
    }

    let mut out: Vec<u8> = Vec::new();
    out.extend_from_slice(b"glibc-ld.so.cache1.1");
    push_u32(&mut out, nlibs as u32);
    push_u32(&mut out, strings.len() as u32);
    while out.len() < header {
        out.push(0);
    }
    for (name_off, path_off) in &offsets {
        push_u32(&mut out, 0x0103); // libc6 | x86_64
        push_u32(&mut out, *name_off as u32);
        push_u32(&mut out, *path_off as u32);
        push_u32(&mut out, 0);
        push_u32(&mut out, 0);
        push_u32(&mut out, 0);
    }
    out.extend_from_slice(&strings);
    out
}

#[test]
fn test_cache_lookup() {
    let bytes = build_cache(&[
        ("libc.so.6", "/usr/lib/libc.so.6"),
        ("libm.so.6", "/usr/lib/libm.so.6"),
    ]);
    let cache = LdCache::new(bytes, ARCH_X86_64).expect("cache parses");
    let res = cache.lookup("libm.so.6");
    assert!(res.is_some(), "Failed to load libm.so.6 from cache: {:?}", res);
    assert_eq!(res.unwrap(), "/usr/lib/libm.so.6");
}

#[test]
fn lookup_misses_absent_names() {
    let bytes = build_cache(&[
        ("libc.so.6", "/usr/lib/libc.so.6"),
        ("libm.so.6", "/usr/lib/libm.so.6"),
    ]);
    let cache = LdCache::new(bytes, ARCH_X86_64).expect("cache parses");
    assert!(cache.lookup("libz.so").is_none());
    assert!(cache.lookup("aaa").is_none());
    assert!(cache.lookup("zzz").is_none());
}

#[test]
fn wrong_architecture_is_filtered() {
    let bytes = build_cache(&[("libm.so.6", "/usr/lib/libm.so.6")]);
    // entries carry the x86_64 bit; asking for the aarch64 bit finds nothing
    let cache = LdCache::new(bytes, 0x0200).expect("cache parses");
    assert!(cache.lookup("libm.so.6").is_none());
}

#[test]
fn entry_fields_decode() {
    let bytes = build_cache(&[
        ("libc.so.6", "/usr/lib/libc.so.6"),
        ("libm.so.6", "/usr/lib/libm.so.6"),
    ]);
    let cache = LdCache::new(bytes, ARCH_X86_64).expect("cache parses");
    assert_eq!(cache.nlibs, 2);
    assert_eq!(cache.entry_size, 24);
    assert_eq!(cache.get_name(0).unwrap(), "libc.so.6");
    assert_eq!(cache.get_name(1).unwrap(), "libm.so.6");
    assert_eq!(cache.get_path(0).unwrap(), "/usr/lib/libc.so.6");
    assert!(cache.check_flags(0));
    assert!(cache.check_flags(1));
}

#[test]
fn magic_found_mid_file() {
    // junk before the magic: the header is located by scanning
    let mut bytes = vec![1u8, 2, 3, 4, 5, 6, 7];
    let junk = bytes.len();
    bytes.extend_from_slice(&build_cache(&[("libm.so.6", "/usr/lib/libm.so.6")]));
    let cache = LdCache::new(bytes, ARCH_X86_64).expect("cache parses");
    assert_eq!(cache.header_offset, junk);
    assert_eq!(cache.lookup("libm.so.6").unwrap(), "/usr/lib/libm.so.6");
}

#[test]
fn malformed_caches_are_refused() {
    // no magic anywhere
    assert!(LdCache::new(vec![0u8; 64], ARCH_X86_64).is_err());
    // magic present but fewer than 48 bytes follow
    let mut small: Vec<u8> = Vec::new();
    small.extend_from_slice(b"glibc-ld.so.cache1.1");
    small.extend_from_slice(&[0u8; 10]);
    assert!(LdCache::new(small, ARCH_X86_64).is_err());
}

#[test]
fn duplicate_names_yield_first_usable_entry() {
    // two entries with the same name: the earlier one wins
    let bytes = build_cache(&[
        ("libdup.so", "/first/libdup.so"),
        ("libdup.so", "/second/libdup.so"),
    ]);
    let cache = LdCache::new(bytes, ARCH_X86_64).expect("cache parses");
    assert_eq!(cache.lookup("libdup.so").unwrap(), "/first/libdup.so");
}
