use vstd::prelude::*;

use crate::error::Error;

verus! {

/// True when `c` occurs somewhere in `s`.
pub open spec fn contains_char(s: Seq<char>, c: char) -> bool {
    exists|i: int| 0 <= i < s.len() && s[i] == c
}

/// The position of the first occurrence of `c` in `s` at or after `from`,
/// or `s.len()` if there is none.
pub open spec fn seg_end(s: Seq<char>, from: int, c: char) -> int
    decreases s.len() - from,
{
    if from < 0 || from >= s.len() {
        s.len() as int
    } else if s[from] == c {
        from
    } else {
        seg_end(s, from + 1, c)
    }
}

/// The first occurrence is within bounds and everything before it differs from `c`.
pub proof fn lemma_seg_end(s: Seq<char>, from: int, c: char)
    requires
        0 <= from <= s.len(),
    ensures
        from <= seg_end(s, from, c) <= s.len(),
        seg_end(s, from, c) < s.len() ==> s[seg_end(s, from, c)] == c,
        forall|j: int| from <= j < seg_end(s, from, c) ==> s[j] != c,
    decreases s.len() - from,
{
    if from < s.len() && s[from] != c {
        lemma_seg_end(s, from + 1, c);
    }
}

/// The non-empty `c`-separated segments of `s`, starting at `from`.
pub open spec fn segments_from(s: Seq<char>, from: int, c: char) -> Seq<Seq<char>>
    decreases s.len() - from,
    when 0 <= from
    via segments_from_decreases
{
    if from >= s.len() {
        Seq::empty()
    } else {
        let e = seg_end(s, from, c);
        let rest = segments_from(s, if e + 1 > s.len() { s.len() as int } else { e + 1 }, c);
        if from < e <= s.len() {
            seq![s.subrange(from, e)] + rest
        } else {
            rest
        }
    }
}

#[via_fn]
proof fn segments_from_decreases(s: Seq<char>, from: int, c: char) {
    if 0 <= from < s.len() {
        lemma_seg_end(s, from, c);
    }
}

/// The non-empty `c`-separated segments of the whole of `s`.
pub open spec fn split_segments(s: Seq<char>, c: char) -> Seq<Seq<char>> {
    segments_from(s, 0, c)
}

/// A filesystem path under which shared objects are looked up.
#[derive(Debug)]
pub struct ElfPath {
    path: String,
}

impl View for ElfPath {
    type V = Seq<char>;

    closed spec fn view(&self) -> Seq<char> {
        self.path@
    }
}

impl Clone for ElfPath {
    fn clone(&self) -> (r: ElfPath)
        ensures
            r@ == self@,
    {
        ElfPath { path: self.path.clone() }
    }
}

/// What joining a file name onto a directory path yields: a `/` separator is
/// inserted unless the path is empty or already ends in `/`.
pub open spec fn spec_join(dir: Seq<char>, file: Seq<char>) -> Seq<char> {
    if dir.len() > 0 && dir[dir.len() - 1] != '/' {
        dir + seq!['/'] + file
    } else {
        dir + file
    }
}

impl ElfPath {
    /// Wraps a string as a search path.
    pub fn from_str(path: &str) -> (r: Result<ElfPath, Error>)
        ensures
            r matches Ok(p) && p@ == path@,
    {
        Ok(ElfPath { path: path.to_owned() })
    }

    /// Appends a file name to the path, ensuring a separator is present.
    pub fn join(&self, file_name: &str) -> (r: ElfPath)
        ensures
            r@ == spec_join(self@, file_name@),
    {
        let mut new = self.path.clone();
        let n = new.as_str().unicode_len();
        if n != 0 && new.as_str().get_char(n - 1) != '/' {
            new.append("/");
            proof {
                reveal_strlit("/");
                assert(new@ =~= self@ + seq!['/']);
            }
        }
        new.append(file_name);
        proof {
            if self@.len() > 0 && self@[self@.len() - 1] != '/' {
                assert(new@ =~= self@ + seq!['/'] + file_name@);
            }
        }
        ElfPath { path: new }
    }

    /// The path as a string slice.
    pub fn as_str(&self) -> (r: &str)
        ensures
            r@ == self@,
    {
        self.path.as_str()
    }
}

/// Finds the first occurrence of `c` in `s` at or after `from`.
fn find_char_from(s: &str, from: usize, c: char) -> (r: usize)
    requires
        from <= s@.len(),
    ensures
        r == seg_end(s@, from as int, c),
        from <= r <= s@.len(),
{
    let n = s.unicode_len();
    let mut i = from;
    while i < n
        invariant
            from <= i <= n,
            n == s@.len(),
            seg_end(s@, from as int, c) == seg_end(s@, i as int, c),
        decreases n - i,
    {
        if s.get_char(i) == c {
            proof {
                lemma_seg_end(s@, i as int, c);
            }
            return i;
        }
        i = i + 1;
    }
    proof {
        lemma_seg_end(s@, i as int, c);
    }
    i
}

/// Parses a colon-separated list of paths, dropping empty entries.
pub fn parse_path_list(s: &str) -> (r: Vec<ElfPath>)
    ensures
        r@.map_values(|p: ElfPath| p@) == split_segments(s@, ':'),
{
    let mut out: Vec<ElfPath> = Vec::new();
    let n = s.unicode_len();
    let mut from: usize = 0;
    while from < n
        invariant
            from <= n,
            n == s@.len(),
            split_segments(s@, ':') == out@.map_values(|p: ElfPath| p@) + segments_from(
                s@,
                from as int,
                ':',
            ),
        decreases n - from,
    {
        let e = find_char_from(s, from, ':');
        let ghost pre = out@.map_values(|p: ElfPath| p@);
        proof {
            lemma_seg_end(s@, from as int, ':');
        }
        if e > from {
            let seg = s.substring_char(from, e);
            out.push(ElfPath { path: seg.to_owned() });
            proof {
                assert(out@.map_values(|p: ElfPath| p@) =~= pre + seq![s@.subrange(
                    from as int,
                    e as int,
                )]);
            }
        }
        if e < n {
            from = e + 1;
        } else {
            proof {
                assert(segments_from(s@, e + 1, ':') =~= Seq::<Seq<char>>::empty());
                assert(segments_from(s@, n as int, ':') =~= Seq::<Seq<char>>::empty());
            }
            from = n;
        }
    }
    proof {
        assert(segments_from(s@, from as int, ':') =~= Seq::<Seq<char>>::empty());
        assert(out@.map_values(|p: ElfPath| p@) =~= out@.map_values(|p: ElfPath| p@)
            + Seq::<Seq<char>>::empty());
    }
    out
}

} // verus!

verus! {

/// The position of the last occurrence of `c` in `s`, or `-1` if none.
pub open spec fn last_index_of(s: Seq<char>, c: char) -> int
    decreases s.len(),
{
    if s.len() == 0 {
        -1
    } else if s[s.len() - 1] == c {
        s.len() - 1
    } else {
        last_index_of(s.drop_last(), c)
    }
}

/// Bounds and characterisation of [`last_index_of`].
pub proof fn lemma_last_index_of(s: Seq<char>, c: char)
    ensures
        -1 <= last_index_of(s, c) < s.len(),
        last_index_of(s, c) >= 0 ==> s[last_index_of(s, c)] == c,
        forall|j: int| last_index_of(s, c) < j < s.len() ==> s[j] != c,
    decreases s.len(),
{
    if s.len() > 0 && s[s.len() - 1] != c {
        lemma_last_index_of(s.drop_last(), c);
        let lio = last_index_of(s, c);
        if lio >= 0 {
            assert(s[lio] == s.drop_last()[lio]);
        }
        assert forall|j: int| lio < j < s.len() implies s[j] != c by {
            if j < s.len() - 1 {
                assert(s.drop_last()[j] == s[j]);
            }
        }
    }
}

/// Finds the last occurrence of `c` in `s`.
pub(crate) fn rfind_char(s: &str, c: char) -> (r: Option<usize>)
    ensures
        match r {
            Some(i) => last_index_of(s@, c) == i as int,
            None => last_index_of(s@, c) == -1,
        },
{
    let n = s.unicode_len();
    let mut i = n;
    proof {
        assert(s@.take(n as int) =~= s@);
    }
    while i > 0
        invariant
            i <= n,
            n == s@.len(),
            last_index_of(s@, c) == last_index_of(s@.take(i as int), c),
        decreases i,
    {
        if s.get_char(i - 1) == c {
            proof {
                assert(s@.take(i as int).len() == i);
                assert(s@.take(i as int)[i - 1] == s@[i - 1]);
            }
            return Some(i - 1);
        }
        proof {
            assert(s@.take(i as int)[i - 1] == s@[i - 1]);
            assert(s@.take(i as int).drop_last() =~= s@.take(i - 1));
        }
        i = i - 1;
    }
    proof {
        assert(s@.take(0int) =~= Seq::<char>::empty());
    }
    None
}

/// The directory portion of a library path: everything before the last `/`,
/// or `.` when the path holds no `/` at all.
pub open spec fn dir_of(path: Seq<char>) -> Seq<char> {
    if last_index_of(path, '/') >= 0 {
        path.subrange(0, last_index_of(path, '/'))
    } else {
        seq!['.']
    }
}

/// The directory portion of a path string, as the object loader records it.
///
/// Returns `None` when the path holds no `/`; the root directory stays `/`.
pub fn get_parent_path(path: &str) -> (r: Option<String>)
    ensures
        match r {
            Some(p) => last_index_of(path@, '/') >= 0 && (if last_index_of(path@, '/') == 0 {
                p@ == seq!['/']
            } else {
                p@ == path@.subrange(0, last_index_of(path@, '/'))
            }),
            None => last_index_of(path@, '/') == -1,
        },
{
    proof {
        lemma_last_index_of(path@, '/');
    }
    match rfind_char(path, '/') {
        Some(last_slash) => {
            if last_slash > 0 {
                Some(path.substring_char(0, last_slash).to_owned())
            } else {
                let root = String::from_str("/");
                proof {
                    reveal_strlit("/");
                    assert(root@ =~= seq!['/']);
                }
                Some(root)
            }
        },
        None => None,
    }
}

/// True when the characters of `pat` occur in `s` starting at position `i`.
pub open spec fn starts_with_at(s: Seq<char>, i: int, pat: Seq<char>) -> bool {
    0 <= i && i + pat.len() <= s.len() && s.subrange(i, i + pat.len()) == pat
}

/// Tests whether `pat` occurs in `s` at position `i`.
pub(crate) fn matches_at(s: &str, i: usize, pat: &str) -> (r: bool)
    requires
        i <= s@.len(),
    ensures
        r == starts_with_at(s@, i as int, pat@),
{
    let n = s.unicode_len();
    let m = pat.unicode_len();
    if m > n - i {
        assert(!starts_with_at(s@, i as int, pat@));
        return false;
    }
    let mut j: usize = 0;
    while j < m
        invariant
            j <= m,
            i + m <= n,
            n == s@.len(),
            m == pat@.len(),
            forall|k: int| 0 <= k < j ==> s@[i + k] == pat@[k],
        decreases m - j,
    {
        if s.get_char(i + j) != pat.get_char(j) {
            proof {
                let sub = s@.subrange(i as int, i + m);
                assert(sub[j as int] == s@[i + j]);
            }
            return false;
        }
        j = j + 1;
    }
    proof {
        assert(s@.subrange(i as int, i + m) =~= pat@);
    }
    true
}

} // verus!

verus! {

/// The literal `$ORIGIN` token that RPATH/RUNPATH entries may carry.
pub open spec fn origin_token() -> Seq<char> {
    seq!['$', 'O', 'R', 'I', 'G', 'I', 'N']
}

/// A well-formed `$`-substitution: every `$` is followed by `ORIGIN` or `{ORIGIN}`.
pub open spec fn origin_ok(s: Seq<char>) -> bool {
    forall|i: int|
        0 <= i < s.len() && s[i] == '$' ==> starts_with_at(
            s,
            i + 1,
            seq!['O', 'R', 'I', 'G', 'I', 'N'],
        ) || starts_with_at(s, i + 1, seq!['{', 'O', 'R', 'I', 'G', 'I', 'N', '}'])
}

/// `s` with every occurrence of `$ORIGIN` replaced by `dir`, left to right.
pub open spec fn replace_origin(s: Seq<char>, dir: Seq<char>) -> Seq<char>
    decreases s.len(),
{
    if s.len() == 0 {
        Seq::empty()
    } else if starts_with_at(s, 0, origin_token()) {
        dir + replace_origin(s.skip(7), dir)
    } else {
        seq![s[0]] + replace_origin(s.skip(1), dir)
    }
}

/// What expanding and splitting an RPATH/RUNPATH string yields:
/// - with no `$` token, the string splits as a plain path list;
/// - with a malformed `$` substitution, the result is empty;
/// - otherwise `$ORIGIN` expands to the directory of the requesting library.
pub open spec fn spec_fixup_rpath(lib_path: Seq<char>, rpath: Seq<char>) -> Seq<Seq<char>> {
    if !contains_char(rpath, '$') {
        split_segments(rpath, ':')
    } else if !origin_ok(rpath) {
        Seq::empty()
    } else {
        split_segments(replace_origin(rpath, dir_of(lib_path)), ':')
    }
}

/// Replaces every `$ORIGIN` occurrence in `s` by `dir`.
fn replace_origin_exec(s: &str, dir: &str) -> (r: String)
    ensures
        r@ == replace_origin(s@, dir@),
{
    let mut out = String::new();
    let n = s.unicode_len();
    let mut i: usize = 0;
    proof {
        reveal_strlit("$ORIGIN");
        assert("$ORIGIN"@ =~= origin_token());
        assert(s@.skip(0int) =~= s@);
        assert(out@ + replace_origin(s@, dir@) =~= replace_origin(s@, dir@));
    }
    while i < n
        invariant
            i <= n,
            n == s@.len(),
            "$ORIGIN"@ == origin_token(),
            replace_origin(s@, dir@) == out@ + replace_origin(s@.skip(i as int), dir@),
        decreases n - i,
    {
        let ghost pre = out@;
        let ghost suffix = s@.skip(i as int);
        if matches_at(s, i, "$ORIGIN") {
            proof {
                assert(suffix.subrange(0, 7) =~= s@.subrange(i as int, i + 7));
                assert(starts_with_at(suffix, 0, origin_token()));
                assert(suffix.skip(7) =~= s@.skip(i + 7));
            }
            out.append(dir);
            i = i + 7;
        } else {
            proof {
                if starts_with_at(suffix, 0, origin_token()) {
                    assert(suffix.subrange(0, 7) =~= s@.subrange(i as int, i + 7));
                }
                assert(suffix[0] == s@[i as int]);
                assert(suffix.skip(1) =~= s@.skip(i + 1));
            }
            let one = s.substring_char(i, i + 1);
            out.append(one);
            proof {
                assert(out@ =~= pre + seq![s@[i as int]]);
            }
            i = i + 1;
        }
    }
    proof {
        assert(s@.skip(n as int) =~= Seq::<char>::empty());
        assert(out@ =~= out@ + Seq::<char>::empty());
    }
    out
}

/// Expands `$ORIGIN` in an RPATH/RUNPATH string against the requesting
/// library's path and splits the result into its search directories.
///
/// A malformed substitution (a `$` not introducing `ORIGIN` or `{ORIGIN}`)
/// yields an empty list.
pub fn fixup_rpath(lib_path: &str, rpath: &str) -> (r: Vec<ElfPath>)
    ensures
        r@.map_values(|p: ElfPath| p@) == spec_fixup_rpath(lib_path@, rpath@),
{
    let n = rpath.unicode_len();
    let dollar = find_char_from(rpath, 0, '$');
    proof {
        lemma_seg_end(rpath@, 0, '$');
    }
    if dollar == n {
        proof {
            assert(!contains_char(rpath@, '$'));
        }
        return parse_path_list(rpath);
    }
    assert(contains_char(rpath@, '$'));

    // Validate every `$` occurrence.
    let mut i: usize = 0;
    proof {
        reveal_strlit("ORIGIN");
        reveal_strlit("{ORIGIN}");
        assert("ORIGIN"@ =~= seq!['O', 'R', 'I', 'G', 'I', 'N']);
        assert("{ORIGIN}"@ =~= seq!['{', 'O', 'R', 'I', 'G', 'I', 'N', '}']);
    }
    while i < n
        invariant
            i <= n,
            n == rpath@.len(),
            "ORIGIN"@ == seq!['O', 'R', 'I', 'G', 'I', 'N'],
            "{ORIGIN}"@ == seq!['{', 'O', 'R', 'I', 'G', 'I', 'N', '}'],
            forall|k: int|
                0 <= k < i && rpath@[k] == '$' ==> starts_with_at(
                    rpath@,
                    k + 1,
                    seq!['O', 'R', 'I', 'G', 'I', 'N'],
                ) || starts_with_at(rpath@, k + 1, seq!['{', 'O', 'R', 'I', 'G', 'I', 'N', '}']),
        decreases n - i,
    {
        if rpath.get_char(i) == '$' {
            let ok = matches_at(rpath, i + 1, "ORIGIN") || matches_at(rpath, i + 1, "{ORIGIN}");
            if !ok {
                assert(!origin_ok(rpath@));
                return Vec::new();
            }
        }
        i = i + 1;
    }
    assert(origin_ok(rpath@));

    let dir = match rfind_char(lib_path, '/') {
        Some(slash) => {
            proof {
                lemma_last_index_of(lib_path@, '/');
            }
            lib_path.substring_char(0, slash).to_owned()
        },
        None => {
            let d = String::from_str(".");
            proof {
                reveal_strlit(".");
                assert(d@ =~= seq!['.']);
            }
            d
        },
    };
    assert(dir@ == dir_of(lib_path@));
    let replaced = replace_origin_exec(rpath, dir.as_str());
    parse_path_list(replaced.as_str())
}

} // verus!

verus! {

/// The default system search directories, in the order they are tried.
pub open spec fn spec_default_paths() -> Seq<Seq<char>> {
    seq![
        "/lib"@,
        "/usr/lib"@,
        "/lib64"@,
        "/usr/lib64"@,
        "/lib/x86_64-linux-gnu"@,
        "/usr/lib/x86_64-linux-gnu"@,
        "/lib/aarch64-linux-gnu"@,
        "/usr/lib/aarch64-linux-gnu"@,
        "/lib/riscv64-linux-gnu"@,
        "/usr/lib/riscv64-linux-gnu"@,
        "/usr/lib/aarch64-linux-gnu"@,
        "/usr/aarch64-linux-gnu/lib"@,
    ]
}

/// Builds the default system search directories.
pub fn default_paths() -> (r: Vec<ElfPath>)
    ensures
        r@.map_values(|p: ElfPath| p@) == spec_default_paths(),
{
    let mut v: Vec<ElfPath> = Vec::new();
    v.push(ElfPath { path: String::from_str("/lib") });
    v.push(ElfPath { path: String::from_str("/usr/lib") });
    v.push(ElfPath { path: String::from_str("/lib64") });
    v.push(ElfPath { path: String::from_str("/usr/lib64") });
    v.push(ElfPath { path: String::from_str("/lib/x86_64-linux-gnu") });
    v.push(ElfPath { path: String::from_str("/usr/lib/x86_64-linux-gnu") });
    v.push(ElfPath { path: String::from_str("/lib/aarch64-linux-gnu") });
    v.push(ElfPath { path: String::from_str("/usr/lib/aarch64-linux-gnu") });
    v.push(ElfPath { path: String::from_str("/lib/riscv64-linux-gnu") });
    v.push(ElfPath { path: String::from_str("/usr/lib/riscv64-linux-gnu") });
    v.push(ElfPath { path: String::from_str("/usr/lib/aarch64-linux-gnu") });
    v.push(ElfPath { path: String::from_str("/usr/aarch64-linux-gnu/lib") });
    proof {
        assert(v@.map_values(|p: ElfPath| p@) =~= spec_default_paths());
    }
    v
}

/// The file-path candidates a set of directories contributes for `name`.
pub open spec fn joined_candidates(dirs: Seq<Seq<char>>, name: Seq<char>) -> Seq<Seq<char>> {
    dirs.map_values(|d: Seq<char>| spec_join(d, name))
}

/// The full candidate order the path resolver tries for a short name:
/// DT_RPATH (only when DT_RUNPATH is absent), then `LD_LIBRARY_PATH`, then
/// DT_RUNPATH, then the `ld.so.cache` hit, then the default directories.
pub open spec fn spec_search_order(
    rpath: Seq<Seq<char>>,
    runpath: Seq<Seq<char>>,
    ld_library_path: Seq<Seq<char>>,
    cache_hit: Option<Seq<char>>,
    name: Seq<char>,
) -> Seq<Seq<char>> {
    (if runpath.len() == 0 {
        joined_candidates(rpath, name)
    } else {
        Seq::empty()
    }) + joined_candidates(ld_library_path, name) + joined_candidates(runpath, name) + (match cache_hit {
        Some(p) => seq![p],
        None => Seq::empty(),
    }) + joined_candidates(spec_default_paths(), name)
}

/// Appends `dir.join(name)` for every directory in `dirs`.
fn push_joined(out: &mut Vec<ElfPath>, dirs: &Vec<ElfPath>, name: &str)
    ensures
        final(out)@.map_values(|p: ElfPath| p@) == old(out)@.map_values(|p: ElfPath| p@)
            + joined_candidates(dirs@.map_values(|p: ElfPath| p@), name@),
{
    let ghost base = out@.map_values(|p: ElfPath| p@);
    let mut i: usize = 0;
    while i < dirs.len()
        invariant
            i <= dirs.len(),
            out@.map_values(|p: ElfPath| p@) == base + joined_candidates(
                dirs@.take(i as int).map_values(|p: ElfPath| p@),
                name@,
            ),
        decreases dirs.len() - i,
    {
        let ghost pre = out@.map_values(|p: ElfPath| p@);
        out.push(dirs[i].join(name));
        proof {
            assert(out@.map_values(|p: ElfPath| p@) =~= pre + seq![
                spec_join(dirs@[i as int]@, name@),
            ]);
            assert(dirs@.take(i + 1).map_values(|p: ElfPath| p@) =~= dirs@.take(
                i as int,
            ).map_values(|p: ElfPath| p@) + seq![dirs@[i as int]@]);
            assert(joined_candidates(dirs@.take(i + 1).map_values(|p: ElfPath| p@), name@) =~= joined_candidates(
                dirs@.take(i as int).map_values(|p: ElfPath| p@),
                name@,
            ) + seq![spec_join(dirs@[i as int]@, name@)]);
            assert(out@.map_values(|p: ElfPath| p@) =~= base + joined_candidates(
                dirs@.take(i + 1).map_values(|p: ElfPath| p@),
                name@,
            ));
        }
        i = i + 1;
    }
    proof {
        assert(dirs@.take(dirs@.len() as int) =~= dirs@);
    }
}

/// Produces, in order, every file path at which the resolver would look for
/// `lib_name`, given the requesting parent's expanded RPATH and RUNPATH, the
/// process's `LD_LIBRARY_PATH` directories, and the `ld.so.cache` answer.
///
/// The presence of a RUNPATH disables the (deprecated) RPATH, per the ELF gABI.
pub fn find_library(
    rpath: &Vec<ElfPath>,
    runpath: &Vec<ElfPath>,
    ld_library_path: &Vec<ElfPath>,
    cache_hit: &Option<ElfPath>,
    lib_name: &str,
) -> (r: Vec<ElfPath>)
    ensures
        r@.map_values(|p: ElfPath| p@) == spec_search_order(
            rpath@.map_values(|p: ElfPath| p@),
            runpath@.map_values(|p: ElfPath| p@),
            ld_library_path@.map_values(|p: ElfPath| p@),
            match cache_hit {
                Some(p) => Some(p@),
                None => None,
            },
            lib_name@,
        ),
{
    let mut out: Vec<ElfPath> = Vec::new();
    proof {
        assert(out@.map_values(|p: ElfPath| p@) =~= Seq::<Seq<char>>::empty());
    }
    if runpath.len() == 0 {
        push_joined(&mut out, rpath, lib_name);
        proof {
            assert(Seq::<Seq<char>>::empty() + joined_candidates(
                rpath@.map_values(|p: ElfPath| p@),
                lib_name@,
            ) =~= joined_candidates(rpath@.map_values(|p: ElfPath| p@), lib_name@));
        }
    }
    push_joined(&mut out, ld_library_path, lib_name);
    push_joined(&mut out, runpath, lib_name);
    if let Some(hit) = cache_hit {
        let ghost pre = out@.map_values(|p: ElfPath| p@);
        out.push(hit.clone());
        proof {
            assert(out@.map_values(|p: ElfPath| p@) =~= pre + seq![hit@]);
        }
    }
    let defaults = default_paths();
    push_joined(&mut out, &defaults, lib_name);
    proof {
        assert(out@.map_values(|p: ElfPath| p@) =~= spec_search_order(
            rpath@.map_values(|p: ElfPath| p@),
            runpath@.map_values(|p: ElfPath| p@),
            ld_library_path@.map_values(|p: ElfPath| p@),
            match cache_hit {
                Some(p) => Some(p@),
                None => None,
            },
            lib_name@,
        ));
    }
    out
}

} // verus!

verus! {

/// Tests two strings for equality of their character sequences.
pub fn str_eq(a: &str, b: &str) -> (r: bool)
    ensures
        r == (a@ == b@),
{
    let alen = a.unicode_len();
    let blen = b.unicode_len();
    if alen != blen {
        return false;
    }
    let mut i: usize = 0;
    while i < alen
        invariant
            i <= alen,
            alen == a@.len(),
            alen == b@.len(),
            forall|j: int| 0 <= j < i ==> a@[j] == b@[j],
        decreases alen - i,
    {
        if a.get_char(i) != b.get_char(i) {
            return false;
        }
        i = i + 1;
    }
    proof {
        assert(a@ =~= b@);
    }
    true
}

} // verus!
