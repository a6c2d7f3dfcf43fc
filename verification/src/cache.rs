use vstd::prelude::*;

use crate::error::{parse_ld_cache_error, Error};

verus! {

/// A little-endian 32-bit value read out of a byte sequence.
pub open spec fn le32(d: Seq<u8>, o: int) -> int {
    d[o] + 256 * d[o + 1] + 65536 * d[o + 2] + 16777216 * d[o + 3]
}

/// Reads a little-endian `u32` at offset `o`.
fn read_u32_le(data: &Vec<u8>, o: usize) -> (r: u32)
    requires
        o + 4 <= data@.len(),
    ensures
        r as int == le32(data@, o as int),
{
    let n = data.len();
    assert(o + 4 <= n);
    data[o] as u32 + data[o + 1] as u32 * 256 + data[o + 2] as u32 * 65536 + data[o + 3] as u32
        * 16777216
}

/// The position of the first zero byte in `d` at or after `from`, or `d.len()`.
pub open spec fn nul_end(d: Seq<u8>, from: int) -> int
    decreases d.len() - from,
{
    if from < 0 || from >= d.len() {
        d.len() as int
    } else if d[from] == 0 {
        from
    } else {
        nul_end(d, from + 1)
    }
}

/// Bounds and characterisation of [`nul_end`].
pub proof fn lemma_nul_end(d: Seq<u8>, from: int)
    requires
        0 <= from <= d.len(),
    ensures
        from <= nul_end(d, from) <= d.len(),
        nul_end(d, from) < d.len() ==> d[nul_end(d, from)] == 0,
        forall|j: int| from <= j < nul_end(d, from) ==> d[j] != 0,
    decreases d.len() - from,
{
    if from < d.len() && d[from] != 0 {
        lemma_nul_end(d, from + 1);
    }
}

/// Relies on `core::str::from_utf8`: returns the string whose UTF-8 encoding
/// is exactly the given bytes, and fails exactly on invalid UTF-8.
#[verifier::external_body]
fn str_from_utf8(b: &[u8]) -> (r: Option<&str>)
    ensures
        match r {
            Some(s) => vstd::utf8::valid_utf8(b@) && s@ == vstd::utf8::decode_utf8(b@),
            None => !vstd::utf8::valid_utf8(b@),
        },
{
    core::str::from_utf8(b).ok()
}

/// The string stored at `offset` within the table starting at `table_start`:
/// the bytes up to the next `NUL` (or the end of the data), decoded as UTF-8.
/// `None` when the offset lies outside the table or the bytes are not UTF-8.
pub open spec fn spec_extract_str(d: Seq<u8>, table_start: int, offset: int) -> Option<Seq<char>> {
    if table_start + offset >= d.len() {
        None
    } else {
        let abs = table_start + offset;
        let bytes = d.subrange(abs, nul_end(d, abs));
        if vstd::utf8::valid_utf8(bytes) {
            Some(vstd::utf8::decode_utf8(bytes))
        } else {
            None
        }
    }
}

/// Extracts the `NUL`-terminated string at `offset` within the table starting
/// at `table_start`.
pub fn extract_str(data: &Vec<u8>, table_start: usize, offset: usize) -> (r: Option<String>)
    requires
        table_start <= data@.len(),
    ensures
        match r {
            Some(s) => spec_extract_str(data@, table_start as int, offset as int) == Some(s@),
            None => spec_extract_str(data@, table_start as int, offset as int) is None,
        },
{
    if offset >= data.len() - table_start {
        return None;
    }
    let abs = table_start + offset;
    proof {
        lemma_nul_end(data@, abs as int);
    }
    let mut end = abs;
    while end < data.len() && data[end] != 0
        invariant
            abs <= end <= data@.len(),
            nul_end(data@, abs as int) == nul_end(data@, end as int),
        decreases data@.len() - end,
    {
        end = end + 1;
        proof {
            lemma_nul_end(data@, end as int);
        }
    }
    proof {
        lemma_nul_end(data@, end as int);
        assert(nul_end(data@, abs as int) == end as int);
    }
    let mut bytes: Vec<u8> = Vec::new();
    let mut j = abs;
    while j < end
        invariant
            abs <= j <= end <= data@.len(),
            bytes@ == data@.subrange(abs as int, j as int),
        decreases end - j,
    {
        let ghost pre = bytes@;
        bytes.push(data[j]);
        proof {
            assert(bytes@ =~= data@.subrange(abs as int, j + 1));
        }
        j = j + 1;
    }
    match str_from_utf8(bytes.as_slice()) {
        Some(s) => Some(s.to_owned()),
        None => None,
    }
}

/// The 20 magic bytes `glibc-ld.so.cache1.1` that open the new cache format.
pub open spec fn cache_magic() -> Seq<u8> {
    seq![
        103u8,
        108u8,
        105u8,
        98u8,
        99u8,
        45u8,
        108u8,
        100u8,
        46u8,
        115u8,
        111u8,
        46u8,
        99u8,
        97u8,
        99u8,
        104u8,
        101u8,
        49u8,
        46u8,
        49u8,
    ]
}

/// Builds the magic bytes as a vector.
fn cache_magic_exec() -> (r: Vec<u8>)
    ensures
        r@ == cache_magic(),
{
    let mut v: Vec<u8> = Vec::new();
    v.push(103);
    v.push(108);
    v.push(105);
    v.push(98);
    v.push(99);
    v.push(45);
    v.push(108);
    v.push(100);
    v.push(46);
    v.push(115);
    v.push(111);
    v.push(46);
    v.push(99);
    v.push(97);
    v.push(99);
    v.push(104);
    v.push(101);
    v.push(49);
    v.push(46);
    v.push(49);
    proof {
        assert(v@ =~= cache_magic());
    }
    v
}

/// The first position at or after `from` where `pat` occurs in `d`, or `-1`.
pub open spec fn first_match_from(d: Seq<u8>, pat: Seq<u8>, from: int) -> int
    decreases d.len() - from,
{
    if from < 0 || pat.len() == 0 || from + pat.len() > d.len() {
        -1
    } else if d.subrange(from, from + pat.len()) == pat {
        from
    } else {
        first_match_from(d, pat, from + 1)
    }
}

/// Tests whether `pat` occurs in `d` at position `i`.
fn bytes_match_at(d: &Vec<u8>, i: usize, pat: &Vec<u8>) -> (r: bool)
    requires
        i + pat@.len() <= d@.len(),
    ensures
        r == (d@.subrange(i as int, i + pat@.len()) == pat@),
{
    let m = pat.len();
    let n = d.len();
    assert(i + m <= n);
    let mut j: usize = 0;
    while j < m
        invariant
            j <= m,
            i + m <= n,
            n == d@.len(),
            m == pat@.len(),
            forall|k: int| 0 <= k < j ==> d@[i + k] == pat@[k],
        decreases m - j,
    {
        if d[i + j] != pat[j] {
            proof {
                let sub = d@.subrange(i as int, i + m);
                assert(sub[j as int] == d@[i + j]);
            }
            return false;
        }
        j = j + 1;
    }
    proof {
        assert(d@.subrange(i as int, i + m) =~= pat@);
    }
    true
}

/// Finds the first occurrence of `pat` in `d`.
fn find_first_match(d: &Vec<u8>, pat: &Vec<u8>) -> (r: Option<usize>)
    requires
        pat@.len() >= 1,
    ensures
        match r {
            Some(i) => first_match_from(d@, pat@, 0) == i as int,
            None => first_match_from(d@, pat@, 0) == -1,
        },
{
    let m = pat.len();
    let dlen = d.len();
    if m > dlen {
        return None;
    }
    let mut i: usize = 0;
    while i <= dlen - m
        invariant
            1 <= m <= dlen,
            i <= dlen - m + 1,
            m == pat@.len(),
            dlen == d@.len(),
            first_match_from(d@, pat@, 0) == first_match_from(d@, pat@, i as int),
        decreases dlen - i,
    {
        if bytes_match_at(d, i, pat) {
            return Some(i);
        }
        i = i + 1;
    }
    None
}

} // verus!

verus! {

/// A parsed view of `/etc/ld.so.cache` in the `glibc-ld.so.cache1.1` format.
///
/// The raw bytes are kept; entries are decoded on demand, exactly as the
/// fields lie in the file.
pub struct LdCache {
    /// The raw cache file bytes.
    pub data: Vec<u8>,
    /// Where the magic (and thus the header) starts within `data`.
    pub header_offset: usize,
    /// Number of entries the header declares.
    pub nlibs: usize,
    /// Size of one entry record: 24, 32 or 64 bytes.
    pub entry_size: usize,
    /// Where the string table starts within `data`.
    pub string_table_offset: usize,
    /// The architecture bit entries must carry; `0` accepts every entry.
    pub arch_flag: u32,
}

impl LdCache {
    /// Structural soundness: the entry table layout is consistent, so entry
    /// offsets can be computed without overflow.
    pub open spec fn wf(self) -> bool {
        &&& self.header_offset + 48 <= self.data@.len()
        &&& (self.entry_size == 24 || self.entry_size == 32 || self.entry_size == 64)
        &&& self.string_table_offset == self.header_offset + 48 + self.nlibs * self.entry_size
    }

    /// The offset of entry `i`'s record within the data.
    pub open spec fn entry_off(self, i: int) -> int {
        self.header_offset + 48 + i * self.entry_size
    }

    /// The short name entry `i` carries, if it can be decoded: the key string
    /// is tried relative to the header first, and, where that yields an empty
    /// or absolute string, relative to the string table.
    pub open spec fn spec_name(self, i: int) -> Option<Seq<char>> {
        if self.entry_off(i) + 8 > self.data@.len() {
            None
        } else {
            let key_idx = le32(self.data@, self.entry_off(i) + 4);
            let first = spec_extract_str(self.data@, self.header_offset as int, key_idx);
            match first {
                Some(s) => if s.len() > 0 && s[0] != '/' {
                    Some(s)
                } else {
                    spec_extract_str(self.data@, self.string_table_offset as int, key_idx)
                },
                None => spec_extract_str(self.data@, self.string_table_offset as int, key_idx),
            }
        }
    }

    /// The absolute path entry `i` carries, if it can be decoded, found the
    /// same two-step way as the name.
    pub open spec fn spec_path(self, i: int) -> Option<Seq<char>> {
        if self.entry_off(i) + 12 > self.data@.len() {
            None
        } else {
            let val_idx = le32(self.data@, self.entry_off(i) + 8);
            let first = spec_extract_str(self.data@, self.header_offset as int, val_idx);
            match first {
                Some(s) => if s.len() > 0 && s[0] == '/' {
                    Some(s)
                } else {
                    spec_extract_str(self.data@, self.string_table_offset as int, val_idx)
                },
                None => spec_extract_str(self.data@, self.string_table_offset as int, val_idx),
            }
        }
    }

    /// Whether entry `i` is usable: its type field says `libc6` and it carries
    /// the required architecture bit.
    pub open spec fn spec_flags_ok(self, i: int) -> bool {
        &&& self.entry_off(i) + 4 <= self.data@.len()
        &&& (le32(self.data@, self.entry_off(i)) as u32) & 0xff == 3
        &&& (self.arch_flag == 0 || (le32(self.data@, self.entry_off(i)) as u32) & self.arch_flag
            != 0)
    }

    /// Entry offsets of indices below `nlibs` stay within `usize` range.
    proof fn lemma_entry_off_bounds(self, i: int)
        requires
            self.wf(),
            0 <= i < self.nlibs,
        ensures
            self.header_offset + 48 <= self.entry_off(i),
            self.entry_off(i) + self.entry_size <= self.string_table_offset,
    {
        assert(0 <= i * self.entry_size && (i + 1) * self.entry_size <= self.nlibs
            * self.entry_size) by (nonlinear_arith)
            requires
                0 <= i < self.nlibs,
                0 < self.entry_size,
        ;
        assert((i + 1) * self.entry_size == i * self.entry_size + self.entry_size)
            by (nonlinear_arith);
    }

    /// Decodes the short name of entry `idx`.
    pub fn get_name(&self, idx: usize) -> (r: Option<String>)
        requires
            self.wf(),
            idx < self.nlibs,
        ensures
            match r {
                Some(s) => self.spec_name(idx as int) == Some(s@),
                None => self.spec_name(idx as int) is None,
            },
    {
        proof {
            self.lemma_entry_off_bounds(idx as int);
        }
        let entry_offset = self.header_offset + 48 + idx * self.entry_size;
        if self.data.len() < entry_offset + 8 {
            return None;
        }
        let key_idx = read_u32_le(&self.data, entry_offset + 4) as usize;
        match extract_str(&self.data, self.header_offset, key_idx) {
            Some(s) => {
                let n = s.as_str().unicode_len();
                if n > 0 && s.as_str().get_char(0) != '/' {
                    return Some(s);
                }
                if self.string_table_offset <= self.data.len() {
                    extract_str(&self.data, self.string_table_offset, key_idx)
                } else {
                    assert(self.string_table_offset + key_idx >= self.data@.len());
                    None
                }
            },
            None => {
                if self.string_table_offset <= self.data.len() {
                    extract_str(&self.data, self.string_table_offset, key_idx)
                } else {
                    assert(self.string_table_offset + key_idx >= self.data@.len());
                    None
                }
            },
        }
    }

    /// Decodes the absolute path of entry `idx`.
    pub fn get_path(&self, idx: usize) -> (r: Option<String>)
        requires
            self.wf(),
            idx < self.nlibs,
        ensures
            match r {
                Some(s) => self.spec_path(idx as int) == Some(s@),
                None => self.spec_path(idx as int) is None,
            },
    {
        proof {
            self.lemma_entry_off_bounds(idx as int);
        }
        let entry_offset = self.header_offset + 48 + idx * self.entry_size;
        if self.data.len() < entry_offset + 12 {
            return None;
        }
        let val_idx = read_u32_le(&self.data, entry_offset + 8) as usize;
        match extract_str(&self.data, self.header_offset, val_idx) {
            Some(s) => {
                let n = s.as_str().unicode_len();
                if n > 0 && s.as_str().get_char(0) == '/' {
                    return Some(s);
                }
                if self.string_table_offset <= self.data.len() {
                    extract_str(&self.data, self.string_table_offset, val_idx)
                } else {
                    assert(self.string_table_offset + val_idx >= self.data@.len());
                    None
                }
            },
            None => {
                if self.string_table_offset <= self.data.len() {
                    extract_str(&self.data, self.string_table_offset, val_idx)
                } else {
                    assert(self.string_table_offset + val_idx >= self.data@.len());
                    None
                }
            },
        }
    }

    /// Tests the type and architecture bits of entry `idx`.
    pub fn check_flags(&self, idx: usize) -> (r: bool)
        requires
            self.wf(),
            idx < self.nlibs,
        ensures
            r == self.spec_flags_ok(idx as int),
    {
        proof {
            self.lemma_entry_off_bounds(idx as int);
        }
        let entry_offset = self.header_offset + 48 + idx * self.entry_size;
        if self.data.len() < entry_offset + 4 {
            return false;
        }
        let flags = read_u32_le(&self.data, entry_offset);
        if flags & 0xff != 3 {
            return false;
        }
        if self.arch_flag != 0 && flags & self.arch_flag == 0 {
            return false;
        }
        true
    }
}

} // verus!

verus! {

/// Whether probing with entry size `e` succeeds: the first entry's value
/// offset, read relative to a string table laid out with `e`-byte entries,
/// lands on an absolute path.
pub open spec fn spec_probe_ok(d: Seq<u8>, start: int, nlibs: int, e: int) -> bool {
    &&& start + 60 <= d.len()
    &&& start + 48 + nlibs * e + le32(d, start + 56) < d.len()
    &&& match spec_extract_str(d, start + 48 + nlibs * e, le32(d, start + 56)) {
        Some(s) => s.len() > 0 && s[0] == '/',
        None => false,
    }
}

/// The entry size the format detection settles on: the first of 24, 32, 64
/// whose probe succeeds, or 24 when none does.
pub open spec fn spec_entry_size(d: Seq<u8>, start: int, nlibs: int) -> int {
    if spec_probe_ok(d, start, nlibs, 24) {
        24
    } else if spec_probe_ok(d, start, nlibs, 32) {
        32
    } else if spec_probe_ok(d, start, nlibs, 64) {
        64
    } else {
        24
    }
}

/// Probes one candidate entry size.
fn probe_entry_size(data: &Vec<u8>, start: usize, nlibs: usize, e: usize) -> (r: bool)
    requires
        start + 48 <= data@.len(),
        e == 24 || e == 32 || e == 64,
    ensures
        r == spec_probe_ok(data@, start as int, nlibs as int, e as int),
{
    let n = data.len();
    if n - start < 60 {
        return false;
    }
    let val_idx = read_u32_le(&data, start + 56) as usize;
    proof {
        assert(le32(data@, start + 56) >= 0);
        assert(data@.len() <= usize::MAX);
    }
    let Some(table) = nlibs.checked_mul(e) else {
        proof {
            assert(start + 48 + nlibs * e + le32(data@, start + 56) > usize::MAX);
        }
        return false;
    };
    let Some(st48) = start.checked_add(48) else {
        return false;
    };
    let Some(st) = st48.checked_add(table) else {
        return false;
    };
    let Some(probe) = st.checked_add(val_idx) else {
        return false;
    };
    if probe < n {
        match extract_str(&data, st, val_idx) {
            Some(s) => {
                let sl = s.as_str().unicode_len();
                sl > 0 && s.as_str().get_char(0) == '/'
            },
            None => false,
        }
    } else {
        false
    }
}

impl LdCache {
    /// Parses a `glibc-ld.so.cache1.1` image.
    ///
    /// `arch_flag` is the architecture bit that usable entries must carry
    /// (`0x0100` on x86_64, `0x0200` on aarch64, `0x0500` on riscv64; `0`
    /// accepts every entry).
    ///
    /// Fails exactly when the magic is absent, fewer than 48 bytes follow it,
    /// or the entry table size overflows the address space.
    pub fn new(data: Vec<u8>, arch_flag: u32) -> (r: Result<LdCache, Error>)
        ensures
            match r {
                Ok(c) => {
                    &&& c.wf()
                    &&& c.data@ == data@
                    &&& c.arch_flag == arch_flag
                    &&& first_match_from(data@, cache_magic(), 0) == c.header_offset as int
                    &&& c.header_offset + 48 <= data@.len()
                    &&& c.nlibs as int == le32(data@, c.header_offset + 20)
                    &&& c.entry_size as int == spec_entry_size(
                        data@,
                        c.header_offset as int,
                        c.nlibs as int,
                    )
                },
                Err(e) => {
                    &&& e is ParseLdCacheError
                    &&& (first_match_from(data@, cache_magic(), 0) == -1 || first_match_from(
                        data@,
                        cache_magic(),
                        0,
                    ) + 48 > data@.len() || first_match_from(data@, cache_magic(), 0) + 48 + le32(
                        data@,
                        first_match_from(data@, cache_magic(), 0) + 20,
                    ) * spec_entry_size(
                        data@,
                        first_match_from(data@, cache_magic(), 0),
                        le32(data@, first_match_from(data@, cache_magic(), 0) + 20),
                    ) > usize::MAX)
                },
            },
    {
        let magic = cache_magic_exec();
        let n = data.len();
        let Some(start) = find_first_match(&data, &magic) else {
            return Err(parse_ld_cache_error("Could not find glibc-ld.so.cache1.1 magic"));
        };
        proof {
            // the match lies within the data, so at least the magic fits
            lemma_first_match_bounds(data@, cache_magic(), 0);
        }
        if n - start < 48 {
            return Err(parse_ld_cache_error("Cache file too small for header"));
        }
        let nlibs = read_u32_le(&data, start + 20) as usize;

        let entry_size: usize = if probe_entry_size(&data, start, nlibs, 24) {
            24
        } else if probe_entry_size(&data, start, nlibs, 32) {
            32
        } else if probe_entry_size(&data, start, nlibs, 64) {
            64
        } else {
            24
        };

        let Some(table) = nlibs.checked_mul(entry_size) else {
            return Err(parse_ld_cache_error("Cache entry table exceeds the address space"));
        };
        let Some(st48) = start.checked_add(48) else {
            return Err(parse_ld_cache_error("Cache entry table exceeds the address space"));
        };
        let Some(string_table_offset) = st48.checked_add(table) else {
            return Err(parse_ld_cache_error("Cache entry table exceeds the address space"));
        };
        Ok(
            LdCache {
                data,
                header_offset: start,
                nlibs,
                entry_size,
                string_table_offset,
                arch_flag,
            },
        )
    }
}

/// A successful match starts within the data and leaves room for the pattern.
pub proof fn lemma_first_match_bounds(d: Seq<u8>, pat: Seq<u8>, from: int)
    requires
        0 <= from,
    ensures
        first_match_from(d, pat, from) == -1 || (from <= first_match_from(d, pat, from)
            && first_match_from(d, pat, from) + pat.len() <= d.len()),
    decreases d.len() - from,
{
    if !(from < 0 || pat.len() == 0 || from + pat.len() > d.len()) {
        if d.subrange(from, from + pat.len()) != pat {
            lemma_first_match_bounds(d, pat, from + 1);
        }
    }
}

} // verus!

verus! {

/// Three-way lexicographic comparison of two character sequences by code
/// point: `-1`, `0` or `1`.
pub open spec fn lex_cmp(a: Seq<char>, b: Seq<char>) -> int
    decreases a.len(),
{
    if a.len() == 0 && b.len() == 0 {
        0
    } else if a.len() == 0 {
        -1
    } else if b.len() == 0 {
        1
    } else if (a[0] as u32) < (b[0] as u32) {
        -1
    } else if (b[0] as u32) < (a[0] as u32) {
        1
    } else {
        lex_cmp(a.skip(1), b.skip(1))
    }
}

/// Characters with the same code point are the same character.
proof fn lemma_char_eq(x: char, y: char)
    requires
        x as u32 == y as u32,
    ensures
        x == y,
{
    vstd::utf8::char_u32_cast(x, x as u32);
    vstd::utf8::char_u32_cast(y, y as u32);
}

/// Two sequences compare equal exactly when they are equal.
pub proof fn lemma_lex_eq(a: Seq<char>, b: Seq<char>)
    ensures
        (lex_cmp(a, b) == 0) <==> (a == b),
    decreases a.len(),
{
    if a.len() == 0 || b.len() == 0 {
        if a.len() == 0 && b.len() == 0 {
            assert(a =~= b);
        }
    } else {
        lemma_lex_eq(a.skip(1), b.skip(1));
        if lex_cmp(a, b) == 0 {
            lemma_char_eq(a[0], b[0]);
            assert(a =~= seq![a[0]] + a.skip(1));
            assert(b =~= seq![b[0]] + b.skip(1));
        } else {
            if a == b {
                assert(a.skip(1) =~= b.skip(1));
            }
        }
    }
}

/// Swapping the arguments negates the comparison.
pub proof fn lemma_lex_antisym(a: Seq<char>, b: Seq<char>)
    ensures
        lex_cmp(a, b) == -lex_cmp(b, a),
    decreases a.len(),
{
    if a.len() > 0 && b.len() > 0 && !((a[0] as u32) < (b[0] as u32)) && !((b[0] as u32) < (a[0]
        as u32)) {
        lemma_lex_antisym(a.skip(1), b.skip(1));
    }
}

/// The comparison is transitive, strictly so when either link is strict.
pub proof fn lemma_lex_trans(a: Seq<char>, b: Seq<char>, c: Seq<char>)
    requires
        lex_cmp(a, b) <= 0,
        lex_cmp(b, c) <= 0,
    ensures
        lex_cmp(a, c) <= 0,
        lex_cmp(a, b) < 0 || lex_cmp(b, c) < 0 ==> lex_cmp(a, c) < 0,
    decreases a.len() + b.len() + c.len(),
{
    if a.len() == 0 {
        if c.len() == 0 {
            // lex(b, c) <= 0 with c empty forces b empty, so both links are equalities
            assert(b.len() == 0);
        }
    } else {
        // a non-empty: lex(a, b) <= 0 forces b non-empty, and so c non-empty
        assert(b.len() > 0);
        assert(c.len() > 0);
        if (a[0] as u32) < (c[0] as u32) {
        } else {
            assert((a[0] as u32) <= (b[0] as u32));
            assert((b[0] as u32) <= (c[0] as u32));
            lemma_char_eq(a[0], b[0]);
            lemma_char_eq(b[0], c[0]);
            lemma_lex_trans(a.skip(1), b.skip(1), c.skip(1));
        }
    }
}

/// Three-way comparison of two strings by code point.
fn cmp_str(a: &str, b: &str) -> (r: i32)
    ensures
        r as int == lex_cmp(a@, b@),
{
    let alen = a.unicode_len();
    let blen = b.unicode_len();
    let mut i: usize = 0;
    proof {
        assert(a@.skip(0int) =~= a@);
        assert(b@.skip(0int) =~= b@);
    }
    while i < alen && i < blen
        invariant
            i <= alen,
            i <= blen,
            alen == a@.len(),
            blen == b@.len(),
            lex_cmp(a@, b@) == lex_cmp(a@.skip(i as int), b@.skip(i as int)),
        decreases alen - i,
    {
        let ca = a.get_char(i);
        let cb = b.get_char(i);
        proof {
            assert(a@.skip(i as int)[0] == a@[i as int]);
            assert(b@.skip(i as int)[0] == b@[i as int]);
        }
        if (ca as u32) < (cb as u32) {
            return -1;
        }
        if (cb as u32) < (ca as u32) {
            return 1;
        }
        proof {
            assert(a@.skip(i as int).skip(1) =~= a@.skip(i + 1));
            assert(b@.skip(i as int).skip(1) =~= b@.skip(i + 1));
        }
        i = i + 1;
    }
    if i < blen {
        -1
    } else if i < alen {
        1
    } else {
        0
    }
}

impl LdCache {
    /// All `nlibs` entries decode to a name and the names come sorted in
    /// ascending code-point order — the layout `ldconfig` writes.
    pub open spec fn names_sorted(self) -> bool {
        &&& forall|i: int| 0 <= i < self.nlibs ==> (#[trigger] self.spec_name(i)) is Some
        &&& forall|i: int, j: int|
            0 <= i <= j < self.nlibs ==> lex_cmp(
                #[trigger] self.spec_name(i)->Some_0,
                #[trigger] self.spec_name(j)->Some_0,
            ) <= 0
    }

    /// Entry `i` satisfies a lookup for `name`: it decodes to that name, its
    /// flags match, and it carries a path.
    pub open spec fn spec_match_at(self, name: Seq<char>, i: int) -> bool {
        &&& 0 <= i < self.nlibs
        &&& self.spec_name(i) == Some(name)
        &&& self.spec_flags_ok(i)
        &&& self.spec_path(i) is Some
    }

    /// Scans the contiguous run of entries around `mid` that share `name`,
    /// returning the path of the first usable one.
    #[verifier::rlimit(100)]
    fn run_scan(&self, mid: usize, name: &String) -> (r: Option<String>)
        requires
            self.wf(),
            mid < self.nlibs,
            self.spec_name(mid as int) == Some(name@),
        ensures
            match r {
                Some(p) => exists|i: int|
                    #[trigger] self.spec_match_at(name@, i) && self.spec_path(i) == Some(p@),
                None => true,
            },
            self.names_sorted() ==> match r {
                Some(p) => exists|i: int|
                    {
                        &&& #[trigger] self.spec_match_at(name@, i)
                        &&& self.spec_path(i) == Some(p@)
                        &&& forall|j: int| 0 <= j < i ==> !self.spec_match_at(name@, j)
                    },
                None => forall|i: int|
                    0 <= i < self.nlibs ==> !(#[trigger] self.spec_match_at(name@, i)),
            },
    {
        let ghost t = name@;
        let ghost sorted = self.names_sorted();
        // Search backward to the first entry carrying the same name.
        let mut start = mid;
        while start > 0
            invariant
                self.wf(),
                start <= mid < self.nlibs,
                t == name@,
                forall|k: int| start <= k <= mid ==> #[trigger] self.spec_name(k) == Some(t),
            ensures
                start <= mid,
                forall|k: int| start <= k <= mid ==> #[trigger] self.spec_name(k) == Some(t),
                start == 0 || self.spec_name(start - 1) != Some(t),
            decreases start,
        {
            let matched = match self.get_name(start - 1) {
                Some(prev) => prev.eq(name),
                None => false,
            };
            if !matched {
                break;
            }
            start = start - 1;
        }
        proof {
            if sorted {
                assert forall|k: int| 0 <= k < start implies !(#[trigger] self.spec_match_at(
                    t,
                    k,
                )) by {
                    let prev = self.spec_name(start - 1)->Some_0;
                    lemma_lex_eq(prev, t);
                    assert(lex_cmp(prev, self.spec_name(start as int)->Some_0) <= 0);
                    assert(lex_cmp(prev, t) < 0);
                    if k < start - 1 {
                        lemma_lex_trans(self.spec_name(k)->Some_0, prev, t);
                    }
                    lemma_lex_eq(self.spec_name(k)->Some_0, t);
                }
            }
        }
        // Scan forward over the run for the first usable entry.
        let mut i = start;
        while i < self.nlibs
            invariant
                self.wf(),
                start <= i <= self.nlibs,
                start <= mid < self.nlibs,
                t == name@,
                sorted == self.names_sorted(),
                sorted ==> forall|k: int|
                    0 <= k < start ==> !(#[trigger] self.spec_match_at(t, k)),
                self.spec_name(start as int) == Some(t),
                i > start ==> self.spec_name(i - 1) == Some(t),
                forall|k: int| start <= k < i ==> !(#[trigger] self.spec_match_at(t, k)),
            ensures
                start <= i <= self.nlibs,
                i > start ==> self.spec_name(i - 1) == Some(t),
                self.spec_name(start as int) == Some(t),
                sorted ==> forall|k: int|
                    0 <= k < start ==> !(#[trigger] self.spec_match_at(t, k)),
                forall|k: int| start <= k < i ==> !(#[trigger] self.spec_match_at(t, k)),
                i == self.nlibs || self.spec_name(i as int) != Some(t),
            decreases self.nlibs - i,
        {
            let matched = match self.get_name(i) {
                Some(cur) => cur.eq(name),
                None => false,
            };
            if !matched {
                break;
            }
            if self.check_flags(i) {
                if let Some(path) = self.get_path(i) {
                    proof {
                        assert(self.spec_match_at(t, i as int));
                        assert(self.spec_path(i as int) == Some(path@));
                    }
                    return Some(path);
                }
            }
            i = i + 1;
        }
        proof {
            if sorted {
                assert forall|k: int| 0 <= k < self.nlibs implies !(#[trigger] self.spec_match_at(
                    t,
                    k,
                )) by {
                    if k >= i {
                        // the run ended before i, so entries from i on sit above t
                        let cur = self.spec_name(i as int)->Some_0;
                        assert(i < self.nlibs);
                        assert(i > start);
                        assert(lex_cmp(t, cur) <= 0);
                        lemma_lex_eq(t, cur);
                        assert(lex_cmp(t, cur) < 0);
                        if k > i {
                            lemma_lex_trans(t, cur, self.spec_name(k)->Some_0);
                        }
                        lemma_lex_eq(self.spec_name(k)->Some_0, t);
                        lemma_lex_antisym(self.spec_name(k)->Some_0, t);
                    }
                }
            }
        }
        None
    }

    /// Looks a short library name up by binary search, returning the stored
    /// absolute path of the first matching entry.
    ///
    /// Whatever the bytes hold, a returned path belongs to an entry whose name
    /// and flags match. On a cache whose names are sorted ascending (as
    /// `ldconfig` produces), the lookup is also complete: it returns the path
    /// of the first matching entry, and `None` only when no entry matches.
    #[verifier::rlimit(100)]
    pub fn lookup(&self, lib_name: &str) -> (r: Option<String>)
        requires
            self.wf(),
        ensures
            match r {
                Some(p) => exists|i: int|
                    #[trigger] self.spec_match_at(lib_name@, i) && self.spec_path(i) == Some(p@),
                None => true,
            },
            self.names_sorted() ==> match r {
                Some(p) => exists|i: int|
                    {
                        &&& #[trigger] self.spec_match_at(lib_name@, i)
                        &&& self.spec_path(i) == Some(p@)
                        &&& forall|j: int| 0 <= j < i ==> !self.spec_match_at(lib_name@, j)
                    },
                None => forall|i: int|
                    0 <= i < self.nlibs ==> !(#[trigger] self.spec_match_at(lib_name@, i)),
            },
    {
        let ghost t = lib_name@;
        let ghost sorted = self.names_sorted();
        if self.nlibs == 0 {
            return None;
        }

        let mut left: usize = 0;
        let mut right: usize = self.nlibs;
        while left < right
            invariant
                self.wf(),
                left <= right <= self.nlibs,
                t == lib_name@,
                sorted == self.names_sorted(),
                sorted ==> forall|k: int|
                    0 <= k < left ==> lex_cmp(#[trigger] self.spec_name(k)->Some_0, t) < 0,
                sorted ==> forall|k: int|
                    right <= k < self.nlibs ==> lex_cmp(t, #[trigger] self.spec_name(k)->Some_0)
                        < 0,
            decreases right - left,
        {
            let mid = left + (right - left) / 2;
            let Some(name) = self.get_name(mid) else {
                return None;
            };
            let cmp = cmp_str(lib_name, name.as_str());
            if cmp == 0 {
                proof {
                    lemma_lex_eq(t, name@);
                    lemma_lex_eq(name@, t);
                    assert(name@ == t);
                    assert(self.spec_name(mid as int) == Some(t));
                }
                return self.run_scan(mid, &name);
            } else if cmp < 0 {
                proof {
                    if sorted {
                        // ascending: the target sits below entry mid, so below [mid, nlibs)
                        let nm = name@;
                        assert(lex_cmp(t, nm) < 0);
                        assert forall|k: int|
                            mid <= k < self.nlibs implies lex_cmp(
                            t,
                            #[trigger] self.spec_name(k)->Some_0,
                        ) < 0 by {
                            assert(self.spec_name(mid as int)->Some_0 == nm);
                            if k > mid {
                                assert(lex_cmp(nm, self.spec_name(k)->Some_0) <= 0);
                                lemma_lex_trans(t, nm, self.spec_name(k)->Some_0);
                            }
                        }
                    }
                }
                right = mid;
            } else {
                proof {
                    if sorted {
                        let nm = name@;
                        lemma_lex_antisym(t, nm);
                        assert(lex_cmp(nm, t) < 0);
                        assert forall|k: int| 0 <= k <= mid implies lex_cmp(
                            #[trigger] self.spec_name(k)->Some_0,
                            t,
                        ) < 0 by {
                            assert(self.spec_name(mid as int)->Some_0 == nm);
                            if k < mid {
                                assert(lex_cmp(self.spec_name(k)->Some_0, nm) <= 0);
                                lemma_lex_trans(self.spec_name(k)->Some_0, nm, t);
                            }
                        }
                    }
                }
                left = mid + 1;
            }
        }
        proof {
            if sorted {
                assert forall|k: int| 0 <= k < self.nlibs implies !(#[trigger] self.spec_match_at(
                    t,
                    k,
                )) by {
                    lemma_lex_eq(self.spec_name(k)->Some_0, t);
                    lemma_lex_antisym(self.spec_name(k)->Some_0, t);
                }
            }
        }
        None
    }
}

} // verus!
