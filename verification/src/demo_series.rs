//! Demo sources made of one file or of a numbered segment series
//! (`match-p1.dem`, `match-p2.dem`, ...), and the identity hash of a series.
use crate::error::{invalid_demo, invalid_demo_str, Error};
use crate::model::ParsedGameEvent;
use crate::text::{
    ascii_lower, chars_of, ends_with, eq_ignore_ascii_case, lower_char, lower_vec,
    string_from_chars, string_of, trim_end, vec_ends_with, vec_slice, vec_trim_end,
};
use vstd::prelude::*;
use vstd::string::*;

verus! {

// ---------------------------------------------------------------------------
// File names
// ---------------------------------------------------------------------------

/// `name` without a `.dem.zst` or `.dem` extension (matched ignoring ASCII
/// case), or `None` for another extension.
pub open spec fn spec_strip_demo_extension(name: Seq<char>) -> Option<Seq<char>> {
    let lower = ascii_lower(name);
    if ends_with(lower, ".dem.zst"@) {
        Some(name.subrange(0, name.len() - 8))
    } else if ends_with(lower, ".dem"@) {
        Some(name.subrange(0, name.len() - 4))
    } else {
        None
    }
}

/// A `.dem` or `.dem.zst` file name, ignoring ASCII case.
pub open spec fn spec_is_supported_demo_name(name: Seq<char>) -> bool {
    spec_strip_demo_extension(name) is Some
}

/// A `.dem.zst` file name, ignoring ASCII case.
pub open spec fn spec_is_zstd_demo_name(name: Seq<char>) -> bool {
    ends_with(ascii_lower(name), ".dem.zst"@)
}

/// Strips the demo extension from a file name.
pub fn strip_demo_extension(name: &str) -> (r: Option<String>)
    ensures
        match r {
            Some(s) => spec_strip_demo_extension(name@) == Some(s@),
            None => spec_strip_demo_extension(name@) is None,
        },
{
    let chars = chars_of(name);
    let lower = lower_vec(&chars);
    let zst = chars_of(".dem.zst");
    let dem = chars_of(".dem");
    proof {
        reveal_strlit(".dem.zst");
        reveal_strlit(".dem");
    }
    if vec_ends_with(&lower, &zst) {
        let stem = vec_slice(&chars, 0, chars.len() - 8);
        Some(string_from_chars(&stem))
    } else if vec_ends_with(&lower, &dem) {
        let stem = vec_slice(&chars, 0, chars.len() - 4);
        Some(string_from_chars(&stem))
    } else {
        None
    }
}

/// Whether a file name is a `.dem` or `.dem.zst` demo, ignoring ASCII case.
pub fn is_supported_demo_path(file_name: Option<&str>) -> (r: bool)
    ensures
        r == match file_name {
            Some(name) => spec_is_supported_demo_name(name@),
            None => false,
        },
{
    match file_name {
        Some(name) => strip_demo_extension(name).is_some(),
        None => false,
    }
}

/// Whether a file name is a zstd-compressed demo (`.dem.zst`), ignoring ASCII case.
pub fn is_zstd_demo_path(file_name: Option<&str>) -> (r: bool)
    ensures
        r == match file_name {
            Some(name) => spec_is_zstd_demo_name(name@),
            None => false,
        },
{
    match file_name {
        Some(name) => {
            let chars = chars_of(name);
            let lower = lower_vec(&chars);
            let zst = chars_of(".dem.zst");
            vec_ends_with(&lower, &zst)
        },
        None => false,
    }
}

/// Logical stem of a demo file: its name without the demo extension; a
/// missing name counts as `demo.dem`.
pub open spec fn spec_demo_stem(file_name: Option<Seq<char>>) -> Seq<char> {
    let name = match file_name {
        Some(n) => n,
        None => "demo.dem"@,
    };
    match spec_strip_demo_extension(name) {
        Some(stem) => stem,
        None => name,
    }
}

/// The logical stem of a demo file name.
pub fn demo_stem(file_name: Option<&str>) -> (r: String)
    ensures
        r@ == spec_demo_stem(
            match file_name {
                Some(n) => Some(n@),
                None => None,
            },
        ),
{
    let name = match file_name {
        Some(n) => string_of(n),
        None => string_of("demo.dem"),
    };
    match strip_demo_extension(name.as_str()) {
        Some(stem) => stem,
        None => name,
    }
}

/// An ASCII decimal digit.
pub open spec fn is_digit(c: char) -> bool {
    '0' <= c && c <= '9'
}

/// Value of a run of decimal digits.
pub open spec fn digits_value(s: Seq<char>) -> nat
    decreases s.len(),
{
    if s.len() == 0 {
        0
    } else {
        digits_value(s.drop_last()) * 10 + ((s.last() as u32) - 48) as nat
    }
}

/// A `-p` marker (the `p` in either case) at position `k`.
pub open spec fn is_part_marker(s: Seq<char>, k: int) -> bool {
    0 <= k && k + 1 < s.len() && s[k] == '-' && lower_char(s[k + 1]) == 'p'
}

/// Position of the last `-p` marker that starts before `end - 1`.
pub open spec fn last_marker_before(s: Seq<char>, end: int) -> Option<int>
    decreases end,
{
    if end < 2 {
        None
    } else if is_part_marker(s, end - 2) {
        Some(end - 2)
    } else {
        last_marker_before(s, end - 1)
    }
}

/// The base name and part number of a segment file name `<base>-p<N>.dem[.zst]`.
pub struct SegmentFileName {
    pub base: String,
    pub part: u32,
}

/// Base and part number of a segment file name: the stem is split at its last
/// `-p` marker, the rest must be decimal digits giving a number from 1 to
/// `u32::MAX`, and the base (trailing whitespace removed) must not be empty.
pub open spec fn spec_segment_file_name(name: Seq<char>) -> Option<(Seq<char>, u32)> {
    match spec_strip_demo_extension(name) {
        None => None,
        Some(stem) => match last_marker_before(stem, stem.len() as int) {
            None => None,
            Some(k) => {
                let digits = stem.subrange(k + 2, stem.len() as int);
                let base = trim_end(stem.subrange(0, k));
                if digits.len() == 0 || !(forall|i: int| 0 <= i < digits.len() ==> is_digit(#[trigger] digits[i]))
                    || digits_value(digits) == 0 || digits_value(digits) > u32::MAX || base.len()
                    == 0 {
                    None
                } else {
                    Some((base, digits_value(digits) as u32))
                }
            },
        },
    }
}

proof fn lemma_last_marker(s: Seq<char>, end: int)
    requires
        end <= s.len(),
    ensures
        match last_marker_before(s, end) {
            Some(k) => is_part_marker(s, k) && k + 2 <= end && forall|j: int|
                k < j && j + 2 <= end ==> !is_part_marker(s, j),
            None => forall|j: int| 0 <= j && j + 2 <= end ==> !is_part_marker(s, j),
        },
    decreases end,
{
    if end >= 2 && !is_part_marker(s, end - 2) {
        lemma_last_marker(s, end - 1);
    }
}

/// Finds the last `-p` marker of a stem.
fn find_last_marker(stem: &Vec<char>) -> (r: Option<usize>)
    ensures
        match r {
            Some(k) => last_marker_before(stem@, stem.len() as int) == Some(k as int),
            None => last_marker_before(stem@, stem.len() as int) is None,
        },
{
    let mut end: usize = stem.len();
    while end >= 2
        invariant
            end <= stem.len(),
            last_marker_before(stem@, stem.len() as int) == last_marker_before(stem@, end as int),
        decreases end,
    {
        if stem[end - 2] == '-' && to_lower(stem[end - 1]) == 'p' {
            return Some(end - 2);
        }
        end = end - 1;
    }
    None
}

fn to_lower(c: char) -> (r: char)
    ensures
        r == lower_char(c),
{
    crate::text::to_lower_char(c)
}

/// Parses a non-empty run of decimal digits into a `u32`; `None` when a
/// character is not a digit or the value exceeds `u32::MAX`.
fn parse_part_number(digits: &Vec<char>) -> (r: Option<u32>)
    ensures
        match r {
            Some(v) => (forall|i: int| 0 <= i < digits.len() ==> is_digit(#[trigger] digits@[i]))
                && digits_value(digits@) == v as nat,
            None => !(forall|i: int| 0 <= i < digits.len() ==> is_digit(#[trigger] digits@[i]))
                || digits_value(digits@) > u32::MAX,
        },
{
    let mut value: u64 = 0;
    let mut i: usize = 0;
    while i < digits.len()
        invariant
            i <= digits.len(),
            forall|j: int| 0 <= j < i ==> is_digit(#[trigger] digits@[j]),
            value as nat == digits_value(digits@.subrange(0, i as int)),
            value <= u32::MAX,
        decreases digits.len() - i,
    {
        let c = digits[i];
        if !('0' <= c && c <= '9') {
            return None;
        }
        let d = (c as u32 - 48) as u64;
        proof {
            let pre = digits@.subrange(0, i as int + 1);
            assert(pre.drop_last() =~= digits@.subrange(0, i as int));
            assert(pre.last() == c);
        }
        value = value * 10 + d;
        i = i + 1;
        if value > 4_294_967_295u64 {
            proof {
                lemma_digits_value_prefix_monotone(digits@, i as int);
            }
            return None;
        }
    }
    proof {
        assert(digits@.subrange(0, digits.len() as int) =~= digits@);
    }
    Some(value as u32)
}

/// A longer run of digits never has a smaller value than its prefix.
proof fn lemma_digits_value_prefix_monotone(s: Seq<char>, n: int)
    requires
        0 <= n <= s.len(),
        forall|j: int| 0 <= j < n ==> is_digit(#[trigger] s[j]),
    ensures
        digits_value(s) >= digits_value(s.subrange(0, n)) || exists|j: int|
            n <= j < s.len() && !is_digit(#[trigger] s[j]),
    decreases s.len(),
{
    if s.len() == n {
        assert(s.subrange(0, n) =~= s);
    } else if !is_digit(s.last()) {
        assert(!is_digit(s[s.len() - 1]));
    } else {
        lemma_digits_value_prefix_monotone(s.drop_last(), n);
        assert(s.drop_last().subrange(0, n) =~= s.subrange(0, n));
        if exists|j: int| n <= j < s.drop_last().len() && !is_digit(#[trigger] s.drop_last()[j]) {
            let j = choose|j: int| n <= j < s.drop_last().len() && !is_digit(#[trigger] s.drop_last()[j]);
            assert(!is_digit(s[j]));
        }
    }
}

/// Splits a segment file name into its base and part number.
pub fn segment_file_name(file_name: &str) -> (r: Option<SegmentFileName>)
    ensures
        match r {
            Some(seg) => spec_segment_file_name(file_name@) == Some((seg.base@, seg.part)),
            None => spec_segment_file_name(file_name@) is None,
        },
{
    let stem_string = match strip_demo_extension(file_name) {
        Some(s) => s,
        None => return None,
    };
    let stem = chars_of(stem_string.as_str());
    let marker = match find_last_marker(&stem) {
        Some(k) => k,
        None => return None,
    };
    proof {
        lemma_last_marker(stem@, stem.len() as int);
    }
    let digits = vec_slice(&stem, marker + 2, stem.len());
    if digits.len() == 0 {
        return None;
    }
    let part = match parse_part_number(&digits) {
        Some(v) => v,
        None => return None,
    };
    if part == 0 {
        return None;
    }
    let head = vec_slice(&stem, 0, marker);
    let base = vec_trim_end(&head);
    if base.len() == 0 {
        return None;
    }
    Some(SegmentFileName { base: string_from_chars(&base), part })
}

// ---------------------------------------------------------------------------
// Source sets
// ---------------------------------------------------------------------------

/// One file of a demo source, with its part number (1 for a plain demo).
#[derive(Clone, Debug, PartialEq, Eq)]
pub struct DemoSourcePart {
    pub part: u32,
    pub path: String,
}

/// A logical demo: one file, or the ordered parts of a segment series.
#[derive(Clone, Debug, PartialEq, Eq)]
pub struct DemoSourceSet {
    pub logical_stem: String,
    pub parts: Vec<DemoSourcePart>,
}

impl DemoSourceSet {
    /// The path of the first part.
    pub fn primary_path(&self) -> (r: &str)
        requires
            self.parts.len() > 0,
        ensures
            r@ == self.parts[0].path@,
    {
        self.parts[0].path.as_str()
    }

    /// Whether the source has more than one part.
    pub fn is_segmented(&self) -> (r: bool)
        ensures
            r == (self.parts.len() > 1),
    {
        self.parts.len() > 1
    }

    /// The paths of the parts, in part order.
    pub fn paths(&self) -> (r: Vec<&str>)
        ensures
            r.len() == self.parts.len(),
            forall|i: int| 0 <= i < r.len() ==> (#[trigger] r[i])@ == self.parts[i].path@,
    {
        let mut r: Vec<&str> = Vec::new();
        let mut i: usize = 0;
        while i < self.parts.len()
            invariant
                i <= self.parts.len(),
                r.len() == i,
                forall|j: int| 0 <= j < i ==> (#[trigger] r[j])@ == self.parts[j].path@,
            decreases self.parts.len() - i,
        {
            r.push(self.parts[i].path.as_str());
            i = i + 1;
        }
        r
    }
}

/// The source made of one file only, as part 1.
pub open spec fn spec_single_source(path: Seq<char>, file_name: Option<Seq<char>>) -> (Seq<char>, Seq<(u32, Seq<char>)>) {
    (spec_demo_stem(file_name), seq![(1u32, path)])
}

/// The view of a source set: its logical stem and its (part, path) pairs.
pub open spec fn source_view(s: DemoSourceSet) -> (Seq<char>, Seq<(u32, Seq<char>)>) {
    (s.logical_stem@, Seq::new(s.parts@.len(), |i: int| (s.parts[i].part, s.parts[i].path@)))
}

pub open spec fn opt_view(o: Option<&str>) -> Option<Seq<char>> {
    match o {
        Some(s) => Some(s@),
        None => None,
    }
}

/// The source made of one file only.
pub fn single_source(path: &str, file_name: Option<&str>) -> (r: DemoSourceSet)
    ensures
        source_view(r) == spec_single_source(path@, opt_view(file_name)),
{
    let part = DemoSourcePart { part: 1, path: string_of(path) };
    let r = DemoSourceSet { logical_stem: demo_stem(file_name), parts: vec![part] };
    assert(source_view(r).1 =~= seq![(1u32, path@)]);
    r
}

// ---------------------------------------------------------------------------
// Size and time of a source
// ---------------------------------------------------------------------------

/// Size and modification time of one file.
#[derive(Clone, Copy, Debug)]
pub struct PartMetadata {
    pub len: u64,
    /// Modification time in nanoseconds from the Unix epoch, when known.
    pub modified_nanos: Option<i128>,
}

/// Combined size and latest modification time of a source.
#[derive(Clone, Copy, Debug, Default)]
pub struct DemoSourceMetadata {
    pub size_bytes: u64,
    /// Latest modification time in nanoseconds from the Unix epoch, when known.
    pub modified_nanos: Option<i128>,
}

pub open spec fn total_len(parts: Seq<PartMetadata>) -> nat
    decreases parts.len(),
{
    if parts.len() == 0 {
        0
    } else {
        total_len(parts.drop_last()) + parts.last().len as nat
    }
}

pub open spec fn latest_modified(parts: Seq<PartMetadata>) -> Option<int>
    decreases parts.len(),
{
    if parts.len() == 0 {
        None
    } else {
        let rest = latest_modified(parts.drop_last());
        match parts.last().modified_nanos {
            None => rest,
            Some(t) => match rest {
                None => Some(t as int),
                Some(u) => Some(if t > u { t as int } else { u }),
            },
        }
    }
}

proof fn lemma_total_len_monotone(parts: Seq<PartMetadata>, i: int)
    requires
        0 <= i <= parts.len(),
    ensures
        total_len(parts.subrange(0, i)) <= total_len(parts),
    decreases parts.len(),
{
    if i < parts.len() {
        lemma_total_len_monotone(parts.drop_last(), i);
        assert(parts.drop_last().subrange(0, i) =~= parts.subrange(0, i));
    } else {
        assert(parts.subrange(0, i) =~= parts);
    }
}

/// Sums the sizes of the parts and keeps the latest modification time. The
/// sum must fit in a `u64`.
pub fn combine_part_metadata(parts: &Vec<PartMetadata>) -> (r: Result<DemoSourceMetadata, Error>)
    ensures
        match r {
            Ok(m) => total_len(parts@) <= u64::MAX && m.size_bytes == total_len(parts@) && match m.modified_nanos {
                Some(t) => latest_modified(parts@) == Some(t as int),
                None => latest_modified(parts@) is None,
            },
            Err(e) => total_len(parts@) > u64::MAX && e is InvalidDemo && e.demo_detail()
                == "combined demo source size exceeds the supported range"@,
        },
{
    let mut size_bytes: u64 = 0;
    let mut modified: Option<i128> = None;
    let mut i: usize = 0;
    while i < parts.len()
        invariant
            i <= parts.len(),
            size_bytes == total_len(parts@.subrange(0, i as int)),
            match modified {
                Some(t) => latest_modified(parts@.subrange(0, i as int)) == Some(t as int),
                None => latest_modified(parts@.subrange(0, i as int)) is None,
            },
        decreases parts.len() - i,
    {
        let part = parts[i];
        proof {
            assert(parts@.subrange(0, i + 1).drop_last() =~= parts@.subrange(0, i as int));
        }
        if part.len > u64::MAX - size_bytes {
            proof {
                lemma_total_len_monotone(parts@, i + 1);
            }
            return Err(invalid_demo_str("combined demo source size exceeds the supported range"));
        }
        size_bytes = size_bytes + part.len;
        modified = match part.modified_nanos {
            None => modified,
            Some(t) => match modified {
                None => Some(t),
                Some(u) => Some(if t > u { t } else { u }),
            },
        };
        i = i + 1;
    }
    proof {
        assert(parts@.subrange(0, parts.len() as int) =~= parts@);
    }
    Ok(DemoSourceMetadata { size_bytes, modified_nanos: modified })
}

// ---------------------------------------------------------------------------
// Identity hash of a series
// ---------------------------------------------------------------------------

/// An ASCII hex digit of either case.
pub open spec fn is_hex_char(c: char) -> bool {
    ('0' <= c && c <= '9') || ('a' <= c && c <= 'f') || ('A' <= c && c <= 'F')
}

/// A content hash as the series hash accepts it: 64 hex digits.
pub open spec fn valid_content_hash(s: Seq<char>) -> bool {
    s.len() == 64 && forall|i: int| 0 <= i < s.len() ==> is_hex_char(#[trigger] s[i])
}

/// The bytes of an ASCII text.
pub open spec fn ascii_bytes(s: Seq<char>) -> Seq<u8> {
    Seq::new(s.len(), |i: int| s[i] as u8)
}

/// Domain separator that starts the hashed input of a series.
pub open spec fn series_domain() -> Seq<u8> {
    ascii_bytes("cs2-demotracer-segment-set-v1\0"@)
}

/// Each part hash preceded by its 1-based position, as 32-bit little endian.
pub open spec fn series_entries(hashes: Seq<Seq<char>>) -> Seq<u8>
    decreases hashes.len(),
{
    if hashes.len() == 0 {
        seq![]
    } else {
        series_entries(hashes.drop_last()) + crate::inspect_link::le32(hashes.len() as u32)
            + ascii_bytes(hashes.last())
    }
}

/// The bytes hashed for a series: domain, part count, then the entries.
pub open spec fn series_hash_input(hashes: Seq<Seq<char>>) -> Seq<u8> {
    series_domain() + crate::inspect_link::le32(hashes.len() as u32) + series_entries(hashes)
}

pub open spec fn hash_views(hashes: Seq<String>) -> Seq<Seq<char>> {
    Seq::new(hashes.len(), |i: int| hashes[i]@)
}

/// The identity hash of a source from the hashes of its parts: a single part
/// keeps its own hash; a series hashes its domain-separated, position-tagged
/// part hashes.
pub open spec fn spec_compound_hash(hashes: Seq<Seq<char>>) -> Seq<char> {
    if hashes.len() == 1 {
        hashes[0]
    } else {
        crate::digest::hex_lower(crate::digest::sha256(series_hash_input(hashes)))
    }
}

/// When the compound hash is refused: no part, or a series whose part hashes
/// are not all 64 hex digits.
pub open spec fn compound_hash_refused(hashes: Seq<Seq<char>>) -> bool {
    hashes.len() == 0 || (hashes.len() > 1 && !(forall|i: int|
        0 <= i < hashes.len() ==> valid_content_hash(#[trigger] hashes[i])))
}

fn push_ascii_bytes(out: &mut Vec<u8>, s: &str)
    ensures
        final(out)@ == old(out)@ + ascii_bytes(s@),
{
    let chars = chars_of(s);
    let ghost start = out@;
    let mut i: usize = 0;
    while i < chars.len()
        invariant
            i <= chars.len(),
            chars@ == s@,
            out@ == start + ascii_bytes(s@.subrange(0, i as int)),
        decreases chars.len() - i,
    {
        out.push(chars[i] as u8);
        i = i + 1;
        assert(out@ =~= start + ascii_bytes(s@.subrange(0, i as int)));
    }
    assert(s@.subrange(0, chars.len() as int) =~= s@);
}

fn is_hex_digit_char(c: char) -> (r: bool)
    ensures
        r == is_hex_char(c),
{
    ('0' <= c && c <= '9') || ('a' <= c && c <= 'f') || ('A' <= c && c <= 'F')
}

fn is_valid_content_hash(s: &str) -> (r: bool)
    ensures
        r == valid_content_hash(s@),
{
    let chars = chars_of(s);
    if chars.len() != 64 {
        return false;
    }
    let mut i: usize = 0;
    while i < chars.len()
        invariant
            i <= chars.len(),
            chars@ == s@,
            forall|j: int| 0 <= j < i ==> is_hex_char(#[trigger] s@[j]),
        decreases chars.len() - i,
    {
        if !is_hex_digit_char(chars[i]) {
            return false;
        }
        i = i + 1;
    }
    true
}

/// The identity hash of a source from its part hashes.
pub fn compound_demo_sha256(hashes: &Vec<String>) -> (r: Result<String, Error>)
    ensures
        match r {
            Ok(h) => !compound_hash_refused(hash_views(hashes@)) && h@ == spec_compound_hash(
                hash_views(hashes@),
            ) && (hashes@.len() > 1 ==> h@.len() == 64),
            Err(e) => compound_hash_refused(hash_views(hashes@)) && e is InvalidDemo && e.demo_detail()
                == (if hashes.len() == 0 {
                "demo segment set is empty"@
            } else {
                "demo segment contains an invalid content hash"@
            }),
        },
{
    let ghost views = hash_views(hashes@);
    if hashes.len() == 0 {
        return Err(invalid_demo_str("demo segment set is empty"));
    }
    if hashes.len() == 1 {
        return Ok(hashes[0].clone());
    }
    let mut k: usize = 0;
    while k < hashes.len()
        invariant
            k <= hashes.len(),
            hashes.len() > 1,
            views == hash_views(hashes@),
            forall|j: int| 0 <= j < k ==> valid_content_hash(#[trigger] views[j]),
        decreases hashes.len() - k,
    {
        if !is_valid_content_hash(hashes[k].as_str()) {
            proof {
                assert(!valid_content_hash(views[k as int]));
                assert(compound_hash_refused(views));
            }
            return Err(invalid_demo_str("demo segment contains an invalid content hash"));
        }
        k = k + 1;
    }
    let mut data: Vec<u8> = Vec::new();
    push_ascii_bytes(&mut data, "cs2-demotracer-segment-set-v1\0");
    crate::inspect_link::push_le32(&mut data, hashes.len() as u32);
    let mut i: usize = 0;
    while i < hashes.len()
        invariant
            i <= hashes.len(),
            views == hash_views(hashes@),
            data@ == series_domain() + crate::inspect_link::le32(hashes.len() as u32) + series_entries(
                views.subrange(0, i as int),
            ),
        decreases hashes.len() - i,
    {
        let ghost before = data@;
        crate::inspect_link::push_le32(&mut data, (i + 1) as u32);
        push_ascii_bytes(&mut data, hashes[i].as_str());
        proof {
            let next = views.subrange(0, i + 1);
            assert(next.drop_last() =~= views.subrange(0, i as int));
            assert(next.last() == hashes[i as int]@);
            assert(data@ =~= series_domain() + crate::inspect_link::le32(hashes.len() as u32)
                + series_entries(next));
        }
        i = i + 1;
    }
    proof {
        assert(views.subrange(0, hashes.len() as int) =~= views);
    }
    Ok(crate::digest::sha256_hex(data.as_slice()))
}

/// The identity hash of a source, from the content hashes of its parts in
/// part order.
pub fn demo_source_sha256(part_hashes: &Vec<String>) -> (r: Result<String, Error>)
    ensures
        match r {
            Ok(h) => !compound_hash_refused(hash_views(part_hashes@)) && h@ == spec_compound_hash(
                hash_views(part_hashes@),
            ) && (part_hashes@.len() > 1 ==> h@.len() == 64),
            Err(e) => compound_hash_refused(hash_views(part_hashes@)) && e is InvalidDemo && e.demo_detail()
                == (if part_hashes.len() == 0 {
                "demo segment set is empty"@
            } else {
                "demo segment contains an invalid content hash"@
            }),
        },
{
    compound_demo_sha256(part_hashes)
}

/// A single part keeps its own content hash as the identity of the source.
pub proof fn lemma_singleton_hash_is_content_hash(hash: Seq<char>)
    ensures
        !compound_hash_refused(seq![hash]),
        spec_compound_hash(seq![hash]) == hash,
{
}

// ---------------------------------------------------------------------------
// Resolving the series of a selected demo file
// ---------------------------------------------------------------------------

/// A file found in the directory of a selected demo, with its file name when
/// the name is valid UTF-8.
#[derive(Clone, Debug)]
pub struct SegmentCandidate {
    pub path: String,
    pub file_name: Option<String>,
}

/// Part number, path and base of a candidate that belongs to the series
/// `base` (its base equal to `base` ignoring ASCII case).
pub open spec fn series_member(c: SegmentCandidate, base: Seq<char>) -> Option<(u32, Seq<char>, Seq<char>)> {
    match c.file_name {
        None => None,
        Some(n) => match spec_segment_file_name(n@) {
            None => None,
            Some(seg) => if eq_ignore_ascii_case(seg.0, base) {
                Some((seg.1, c.path@, seg.0))
            } else {
                None
            },
        },
    }
}

/// The members of the series `base` among the candidates, in candidate order.
pub open spec fn series_members(cands: Seq<SegmentCandidate>, base: Seq<char>) -> Seq<(u32, Seq<char>, Seq<char>)>
    decreases cands.len(),
{
    if cands.len() == 0 {
        seq![]
    } else {
        let rest = series_members(cands.drop_last(), base);
        match series_member(cands.last(), base) {
            Some(m) => rest.push(m),
            None => rest,
        }
    }
}

pub open spec fn has_part(m: Seq<(u32, Seq<char>, Seq<char>)>, p: u32) -> bool {
    exists|i: int| 0 <= i < m.len() && (#[trigger] m[i]).0 == p
}

pub open spec fn distinct_parts(m: Seq<(u32, Seq<char>, Seq<char>)>) -> bool {
    forall|i: int, j: int| 0 <= i < j < m.len() ==> (#[trigger] m[i]).0 != (#[trigger] m[j]).0
}

pub open spec fn max_part(m: Seq<(u32, Seq<char>, Seq<char>)>) -> u32
    decreases m.len(),
{
    if m.len() == 0 {
        0
    } else {
        let rest = max_part(m.drop_last());
        if m.last().0 > rest {
            m.last().0
        } else {
            rest
        }
    }
}

/// Every part from 1 to `last` is present.
pub open spec fn parts_complete(m: Seq<(u32, Seq<char>, Seq<char>)>, last: u32) -> bool {
    forall|k: u32| 1 <= k <= last ==> #[trigger] has_part(m, k)
}

/// Some member has part number `part` and path `path`.
pub open spec fn has_member_path(m: Seq<(u32, Seq<char>, Seq<char>)>, part: int, path: Seq<char>) -> bool {
    exists|j: int| 0 <= j < m.len() && (#[trigger] m[j]).0 == part && m[j].1 == path
}

/// The source set holds parts `1..=last` in order, each with the path of the
/// member of that number, and the base of part 1 as its stem.
pub open spec fn is_series_of(src: (Seq<char>, Seq<(u32, Seq<char>)>), m: Seq<(u32, Seq<char>, Seq<char>)>) -> bool {
    let last = max_part(m);
    &&& src.1.len() == last
    &&& forall|i: int|
        0 <= i < last ==> (#[trigger] src.1[i]).0 == i + 1 && has_member_path(m, i + 1, src.1[i].1)
    &&& exists|j: int| 0 <= j < m.len() && m[j].0 == 1 && m[j].2 == src.0
}

pub open spec fn unsupported_message(path: Seq<char>) -> Seq<char> {
    "demo source does not exist or has an unsupported extension: "@ + path
}

pub open spec fn ambiguous_message(part: u32, first: Seq<char>, second: Seq<char>) -> Seq<char> {
    "ambiguous demo segment p"@ + crate::text::decimal(part as nat) + ": "@ + first + " and "@ + second
}

pub open spec fn missing_first_message(path: Seq<char>) -> Seq<char> {
    "demo segment "@ + path + " is missing its p1 sibling"@
}

pub open spec fn missing_part_message(base: Seq<char>, part: u32) -> Seq<char> {
    "demo segment set "@ + base + " is missing p"@ + crate::text::decimal(part as nat)
}

pub open spec fn seg_base(seg: Option<(Seq<char>, u32)>) -> Seq<char> {
    match seg {
        Some(x) => x.0,
        None => Seq::empty(),
    }
}

pub open spec fn seg_part(seg: Option<(Seq<char>, u32)>) -> u32 {
    match seg {
        Some(x) => x.1,
        None => 0,
    }
}

/// The first repeated part number of the members is at `j`, repeating `i`.
pub open spec fn first_repeat(m: Seq<(u32, Seq<char>, Seq<char>)>, i: int, j: int) -> bool {
    0 <= i < j < m.len() && m[i].0 == m[j].0 && distinct_parts(m.subrange(0, j))
}

/// `k` is the smallest part from 1 to the last that is missing.
pub open spec fn first_missing(m: Seq<(u32, Seq<char>, Seq<char>)>, k: u32) -> bool {
    1 <= k <= max_part(m) && !has_part(m, k) && forall|q: u32| 1 <= q < k ==> #[trigger] has_part(m, q)
}

proof fn lemma_members_prefix(cands: Seq<SegmentCandidate>, base: Seq<char>, n: int)
    requires
        0 <= n <= cands.len(),
    ensures
        ({
            let a = series_members(cands.subrange(0, n), base);
            let b = series_members(cands, base);
            a.len() <= b.len() && b.subrange(0, a.len() as int) == a
        }),
    decreases cands.len(),
{
    if n == cands.len() {
        assert(cands.subrange(0, n) =~= cands);
        let b = series_members(cands, base);
        assert(b.subrange(0, b.len() as int) =~= b);
    } else {
        lemma_members_prefix(cands.drop_last(), base, n);
        assert(cands.drop_last().subrange(0, n) =~= cands.subrange(0, n));
        let a = series_members(cands.subrange(0, n), base);
        let b = series_members(cands, base);
        let c = series_members(cands.drop_last(), base);
        assert(c.subrange(0, a.len() as int) == a);
        match series_member(cands.last(), base) {
            Some(x) => {
                assert(b == c.push(x));
                assert(b.subrange(0, a.len() as int) =~= c.subrange(0, a.len() as int));
            },
            None => {},
        }
    }
}

proof fn lemma_max_part(m: Seq<(u32, Seq<char>, Seq<char>)>)
    ensures
        forall|i: int| 0 <= i < m.len() ==> (#[trigger] m[i]).0 <= max_part(m),
        m.len() > 0 ==> has_part(m, max_part(m)),
    decreases m.len(),
{
    if m.len() > 0 {
        lemma_max_part(m.drop_last());
        let rest = m.drop_last();
        assert forall|i: int| 0 <= i < m.len() implies (#[trigger] m[i]).0 <= max_part(m) by {
            if i < m.len() - 1 {
                assert(m[i] == rest[i]);
            }
        }
        if m.last().0 > max_part(rest) {
            assert(m[m.len() - 1].0 == max_part(m));
        } else if rest.len() > 0 {
            let i = choose|i: int| 0 <= i < rest.len() && (#[trigger] rest[i]).0 == max_part(rest);
            assert(m[i] == rest[i]);
        } else {
            assert(m[0].0 == max_part(m));
        }
    }
}

fn members_have_part(members: &Vec<(u32, String, String)>, p: u32) -> (r: Option<usize>)
    ensures
        match r {
            Some(i) => i < members.len() && members[i as int].0 == p,
            None => forall|i: int| 0 <= i < members.len() ==> (#[trigger] members[i]).0 != p,
        },
{
    let mut i: usize = 0;
    while i < members.len()
        invariant
            i <= members.len(),
            forall|j: int| 0 <= j < i ==> (#[trigger] members[j]).0 != p,
        decreases members.len() - i,
    {
        if members[i].0 == p {
            return Some(i);
        }
        i = i + 1;
    }
    None
}

pub open spec fn member_views(members: Seq<(u32, String, String)>) -> Seq<(u32, Seq<char>, Seq<char>)> {
    Seq::new(members.len(), |i: int| (members[i].0, members[i].1@, members[i].2@))
}

fn ambiguous_error(part: u32, first: &str, second: &str) -> (e: Error)
    ensures
        e is InvalidDemo,
        e.demo_detail() == ambiguous_message(part, first@, second@),
{
    let m = string_of("ambiguous demo segment p");
    let m = crate::text::concat_str(m, crate::text::u64_decimal(part as u64).as_str());
    let m = crate::text::concat_str(m, ": ");
    let m = crate::text::concat_str(m, first);
    let m = crate::text::concat_str(m, " and ");
    let m = crate::text::concat_str(m, second);
    invalid_demo(m)
}

fn missing_part_error(base: &str, part: u32) -> (e: Error)
    ensures
        e is InvalidDemo,
        e.demo_detail() == missing_part_message(base@, part),
{
    let m = string_of("demo segment set ");
    let m = crate::text::concat_str(m, base);
    let m = crate::text::concat_str(m, " is missing p");
    let m = crate::text::concat_str(m, crate::text::u64_decimal(part as u64).as_str());
    invalid_demo(m)
}

/// Segment name of the selected file, when it has one.
pub open spec fn selected_segment(file_name: Option<Seq<char>>) -> Option<(Seq<char>, u32)> {
    match file_name {
        Some(n) => spec_segment_file_name(n),
        None => None,
    }
}

/// The selected file is an existing `.dem` or `.dem.zst` file.
pub open spec fn is_selectable(file_name: Option<Seq<char>>, is_file: bool) -> bool {
    file_name is Some && spec_is_supported_demo_name(file_name->0) && is_file
}

/// The members of the series of the selected file among its siblings.
pub open spec fn selected_members(file_name: Option<Seq<char>>, siblings: Seq<SegmentCandidate>) -> Seq<
    (u32, Seq<char>, Seq<char>),
> {
    series_members(siblings, seg_base(selected_segment(file_name)))
}

/// A series is refused for a repeated part, for a later part found alone
/// without its first part, or for a gap before its last part.
pub open spec fn series_refused(selected_part: u32, m: Seq<(u32, Seq<char>, Seq<char>)>) -> bool {
    !distinct_parts(m) || (m.len() < 2 && selected_part > 1 && !has_part(m, 1)) || (m.len() >= 2
        && !parts_complete(m, max_part(m)))
}

/// When resolving the selected file is refused.
pub open spec fn resolve_refused(
    file_name: Option<Seq<char>>,
    is_file: bool,
    siblings: Seq<SegmentCandidate>,
) -> bool {
    !is_selectable(file_name, is_file) || (selected_segment(file_name) is Some && series_refused(
        seg_part(selected_segment(file_name)),
        selected_members(file_name, siblings),
    ))
}

/// The resolved source: the file alone, or the whole series.
pub open spec fn resolved_source(
    path: Seq<char>,
    file_name: Option<Seq<char>>,
    siblings: Seq<SegmentCandidate>,
    src: (Seq<char>, Seq<(u32, Seq<char>)>),
) -> bool {
    let m = selected_members(file_name, siblings);
    if selected_segment(file_name) is None || m.len() < 2 {
        src == spec_single_source(path, file_name)
    } else {
        is_series_of(src, m)
    }
}

/// The text of the refusal.
pub open spec fn resolve_error_detail(
    path: Seq<char>,
    file_name: Option<Seq<char>>,
    is_file: bool,
    siblings: Seq<SegmentCandidate>,
    detail: Seq<char>,
) -> bool {
    let m = selected_members(file_name, siblings);
    if !is_selectable(file_name, is_file) {
        detail == unsupported_message(path)
    } else if !distinct_parts(m) {
        exists|i: int, j: int|
            #[trigger] first_repeat(m, i, j) && detail == ambiguous_message(m[j].0, m[i].1, m[j].1)
    } else if m.len() < 2 {
        detail == missing_first_message(path)
    } else {
        exists|k: u32|
            #[trigger] first_missing(m, k) && detail == missing_part_message(
                seg_base(selected_segment(file_name)),
                k,
            )
    }
}

/// The members of the series `base` among `siblings`, refused at the first
/// repeated part number.
fn collect_series_members(siblings: &Vec<SegmentCandidate>, selected_base: &Vec<char>) -> (r: Result<
    Vec<(u32, String, String)>,
    Error,
>)
    ensures
        ({
            let m = series_members(siblings@, selected_base@);
            match r {
                Ok(members) => member_views(members@) == m && distinct_parts(m) && forall|t: int|
                    0 <= t < members.len() ==> (#[trigger] members[t]).0 >= 1,
                Err(e) => e is InvalidDemo && !distinct_parts(m) && exists|i: int, j: int|
                    #[trigger] first_repeat(m, i, j) && e.demo_detail() == ambiguous_message(
                        m[j].0,
                        m[i].1,
                        m[j].1,
                    ),
            }
        }),
{
    let ghost base = selected_base@;
    let mut members: Vec<(u32, String, String)> = Vec::new();
    let mut i: usize = 0;
    while i < siblings.len()
        invariant
            i <= siblings.len(),
            base == selected_base@,
            member_views(members@) == series_members(siblings@.subrange(0, i as int), base),
            distinct_parts(member_views(members@)),
            forall|t: int| 0 <= t < members.len() ==> (#[trigger] members[t]).0 >= 1,
        decreases siblings.len() - i,
    {
        let ghost before = members@;
        proof {
            assert(siblings@.subrange(0, i + 1).drop_last() =~= siblings@.subrange(0, i as int));
            assert(siblings@.subrange(0, i + 1).last() == siblings@[i as int]);
        }
        let sib = &siblings[i];
        match &sib.file_name {
            None => {},
            Some(n) => {
                match segment_file_name(n.as_str()) {
                    None => {},
                    Some(seg) => {
                        let member_base = chars_of(seg.base.as_str());
                        if crate::text::vec_eq_ignore_ascii_case(&member_base, selected_base) {
                            match members_have_part(&members, seg.part) {
                                Some(prev) => {
                                    let e = ambiguous_error(
                                        seg.part,
                                        members[prev].1.as_str(),
                                        sib.path.as_str(),
                                    );
                                    proof {
                                        let full = series_members(siblings@, base);
                                        let pre = series_members(siblings@.subrange(0, i + 1), base);
                                        lemma_members_prefix(siblings@, base, i + 1);
                                        let j = members.len() as int;
                                        assert(pre == member_views(members@).push(
                                            (seg.part, sib.path@, seg.base@),
                                        ));
                                        assert(full[prev as int] == pre[prev as int]);
                                        assert(full[j] == pre[j]);
                                        assert(full.subrange(0, j) =~= member_views(members@));
                                        assert(first_repeat(full, prev as int, j));
                                        assert(full[prev as int].1 == members@[prev as int].1@);
                                        assert(full[j].1 == sib.path@ && full[j].0 == seg.part);
                                    }
                                    return Err(e);
                                },
                                None => {
                                    members.push((seg.part, sib.path.clone(), seg.base));
                                    proof {
                                        assert(member_views(members@) =~= member_views(before).push(
                                            (seg.part, sib.path@, seg.base@),
                                        ));
                                    }
                                },
                            }
                        }
                    },
                }
            },
        }
        i = i + 1;
        proof {
            assert(member_views(members@) =~= series_members(
                siblings@.subrange(0, i as int),
                base,
            ));
        }
    }
    proof {
        assert(siblings@.subrange(0, siblings.len() as int) =~= siblings@);
    }
    Ok(members)
}

/// The largest part number of the members.
fn last_member_part(members: &Vec<(u32, String, String)>) -> (last: u32)
    ensures
        last == max_part(member_views(members@)),
{
    let ghost m = member_views(members@);
    let mut last: u32 = 0;
    let mut k: usize = 0;
    while k < members.len()
        invariant
            k <= members.len(),
            m == member_views(members@),
            last == max_part(m.subrange(0, k as int)),
        decreases members.len() - k,
    {
        proof {
            assert(m.subrange(0, k + 1).drop_last() =~= m.subrange(0, k as int));
        }
        if members[k].0 > last {
            last = members[k].0;
        }
        k = k + 1;
    }
    proof {
        assert(m.subrange(0, members.len() as int) =~= m);
    }
    last
}

/// The smallest part from 1 to `last` that no member has.
fn first_missing_member_part(members: &Vec<(u32, String, String)>, last: u32) -> (r: Option<u32>)
    requires
        last == max_part(member_views(members@)),
    ensures
        match r {
            Some(k) => first_missing(member_views(members@), k),
            None => parts_complete(member_views(members@), last),
        },
{
    let ghost m = member_views(members@);
    let mut p: u64 = 1;
    while p <= last as u64
        invariant
            1 <= p,
            p <= last + 1,
            last == max_part(m),
            m == member_views(members@),
            forall|q: u32| 1 <= q < p ==> #[trigger] has_part(m, q),
        decreases last + 1 - p,
    {
        let pp = p as u32;
        match members_have_part(members, pp) {
            None => {
                proof {
                    assert forall|t: int| 0 <= t < m.len() implies (#[trigger] m[t]).0 != pp by {
                        assert(m[t] == member_views(members@)[t]);
                    }
                }
                return Some(pp);
            },
            Some(t) => {
                proof {
                    assert(m[t as int].0 == pp);
                }
            },
        }
        p = p + 1;
    }
    None
}

/// The parts `1..=last`, each with the path of its member.
fn series_parts(members: &Vec<(u32, String, String)>, last: u32) -> (parts: Vec<DemoSourcePart>)
    requires
        last == max_part(member_views(members@)),
        parts_complete(member_views(members@), last),
    ensures
        parts.len() == last,
        forall|x: int|
            0 <= x < parts.len() ==> (#[trigger] parts[x]).part == x + 1 && has_member_path(
                member_views(members@),
                x + 1,
                parts[x].path@,
            ),
{
    let ghost m = member_views(members@);
    let mut parts: Vec<DemoSourcePart> = Vec::new();
    let mut q: u64 = 1;
    while q <= last as u64
        invariant
            1 <= q,
            q <= last + 1,
            m == member_views(members@),
            parts_complete(m, last),
            parts.len() == q - 1,
            forall|x: int|
                0 <= x < parts.len() ==> (#[trigger] parts[x]).part == x + 1 && has_member_path(
                    m,
                    x + 1,
                    parts[x].path@,
                ),
        decreases last + 1 - q,
    {
        let qq = q as u32;
        proof {
            assert(has_part(m, qq));
        }
        let found = members_have_part(members, qq);
        let t: usize = match found {
            Some(t) => t,
            None => {
                proof {
                    let j = choose|j: int| 0 <= j < m.len() && (#[trigger] m[j]).0 == qq;
                    assert(member_views(members@)[j].0 == qq);
                    assert(members[j].0 == qq);
                }
                0
            },
        };
        let ghost before = parts@;
        parts.push(DemoSourcePart { part: qq, path: members[t].1.clone() });
        proof {
            assert(m[t as int].0 == qq && m[t as int].1 == members@[t as int].1@);
            assert(has_member_path(m, q as int, parts[before.len() as int].path@));
            assert forall|x: int| 0 <= x < parts.len() implies (#[trigger] parts[x]).part == x + 1
                && has_member_path(m, x + 1, parts[x].path@) by {
                if x < before.len() {
                    assert(parts[x] == before[x]);
                }
            }
        }
        q = q + 1;
    }
    parts
}

/// The source of a selected demo file. A file named `<base>-p<N>.dem[.zst]`
/// joins the other parts of its series among `siblings` (the files of its
/// directory): the series must have no repeated part number and no gap from
/// part 1 to its last part; a series of one file is the file alone, unless it
/// is a later part whose first part is missing.
pub fn resolve_demo_source(
    path: &str,
    file_name: Option<&str>,
    is_file: bool,
    siblings: &Vec<SegmentCandidate>,
) -> (r: Result<DemoSourceSet, Error>)
    ensures
        r is Err <==> resolve_refused(opt_view(file_name), is_file, siblings@),
        r is Ok ==> resolved_source(path@, opt_view(file_name), siblings@, source_view(r->Ok_0)),
        r is Err ==> r->Err_0 is InvalidDemo && resolve_error_detail(
            path@,
            opt_view(file_name),
            is_file,
            siblings@,
            r->Err_0.demo_detail(),
        ),
{
    if !is_supported_demo_path(file_name) || !is_file {
        let m = crate::text::concat_str(
            string_of("demo source does not exist or has an unsupported extension: "),
            path,
        );
        return Err(invalid_demo(m));
    }
    let name = match file_name {
        Some(n) => n,
        None => return Err(invalid_demo_str("")),
    };
    let selected = match segment_file_name(name) {
        Some(seg) => seg,
        None => return Ok(single_source(path, file_name)),
    };
    let selected_base = chars_of(selected.base.as_str());
    let ghost m = series_members(siblings@, selected.base@);
    let members = match collect_series_members(siblings, &selected_base) {
        Ok(members) => members,
        Err(e) => {
            proof {
                assert(spec_segment_file_name(name@) == Some((selected.base@, selected.part)));
                assert(selected_base@ == selected.base@);
                let i = choose|i: int, j: int| #[trigger] first_repeat(m, i, j) && e.demo_detail()
                    == ambiguous_message(m[j].0, m[i].1, m[j].1);
            }
            return Err(e);
        },
    };
    if members.len() < 2 {
        if selected.part > 1 && members_have_part(&members, 1).is_none() {
            proof {
                assert forall|k: int| 0 <= k < m.len() implies (#[trigger] m[k]).0 != 1 by {
                    assert(m[k] == member_views(members@)[k]);
                }
            }
            let msg = string_of("demo segment ");
            let msg = crate::text::concat_str(msg, path);
            let msg = crate::text::concat_str(msg, " is missing its p1 sibling");
            return Err(invalid_demo(msg));
        }
        proof {
            if selected.part > 1 {
                let k = choose|k: int| 0 <= k < members.len() && (#[trigger] members@[k]).0 == 1u32;
                assert(m[k].0 == 1);
            }
        }
        return Ok(single_source(path, file_name));
    }
    let last = last_member_part(&members);
    match first_missing_member_part(&members, last) {
        Some(k) => {
            let e = missing_part_error(selected.base.as_str(), k);
            proof {
                assert(spec_segment_file_name(name@) == Some((selected.base@, selected.part)));
                assert(first_missing(m, k));
            }
            return Err(e);
        },
        None => {},
    }
    proof {
        lemma_max_part(m);
        assert(m[0] == member_views(members@)[0]);
        assert(m[0].0 >= 1);
        assert(has_part(m, 1u32));
    }
    let parts = series_parts(&members, last);
    let first = members_have_part(&members, 1);
    let logical_stem = match first {
        Some(t) => members[t].2.clone(),
        None => {
            proof {
                let j = choose|j: int| 0 <= j < m.len() && (#[trigger] m[j]).0 == 1u32;
                assert(member_views(members@)[j].0 == 1);
            }
            return Err(invalid_demo_str(""));
        },
    };
    let src = DemoSourceSet { logical_stem, parts };
    proof {
        let t = first->0 as int;
        assert(m[t].0 == 1 && m[t].2 == src.logical_stem@);
        let v = source_view(src);
        assert(src.parts.len() == last);
        assert forall|i: int| 0 <= i < last implies (#[trigger] v.1[i]).0 == i + 1 && has_member_path(
            m,
            i + 1,
            v.1[i].1,
        ) by {
            assert(v.1[i] == (src.parts[i].part, src.parts[i].path@));
        }
        assert(v.1.len() == max_part(m));
        assert(exists|j: int| 0 <= j < m.len() && m[j].0 == 1 && m[j].2 == v.0) by {
            assert(0 <= t < m.len() && m[t].0 == 1 && m[t].2 == v.0);
        }
        assert(is_series_of(v, m));
    }
    Ok(src)
}

// ---------------------------------------------------------------------------
// Grouping the sources of several selected files
// ---------------------------------------------------------------------------

/// `\\` replaced by `/`.
pub open spec fn forward_slashes(p: Seq<char>) -> Seq<char> {
    Seq::new(p.len(), |i: int| if p[i] == '\\' { '/' } else { p[i] })
}

/// The key that identifies a source among others: its primary path with
/// forward slashes, in ASCII lower case.
pub open spec fn source_key(s: DemoSourceSet) -> Seq<char> {
    ascii_lower(forward_slashes(s.parts[0].path@))
}

fn source_key_chars(s: &DemoSourceSet) -> (k: Vec<char>)
    requires
        s.parts.len() > 0,
    ensures
        k@ == source_key(*s),
{
    let path = chars_of(s.primary_path());
    let mut slashed: Vec<char> = Vec::new();
    let mut i: usize = 0;
    while i < path.len()
        invariant
            i <= path.len(),
            path@ == s.parts[0].path@,
            slashed@ == forward_slashes(path@).subrange(0, i as int),
        decreases path.len() - i,
    {
        let c = path[i];
        slashed.push(if c == '\\' { '/' } else { c });
        i = i + 1;
        assert(slashed@ =~= forward_slashes(path@).subrange(0, i as int));
    }
    assert(forward_slashes(path@).subrange(0, path.len() as int) =~= forward_slashes(path@));
    lower_vec(&slashed)
}

pub open spec fn keys_sorted(keys: Seq<Seq<char>>) -> bool {
    forall|i: int, j: int| 0 <= i < j < keys.len() ==> crate::text::lex_lt(#[trigger] keys[i], #[trigger] keys[j])
}

/// `out[j]` is the first source of `sources` with its key.
pub open spec fn first_with_key(sources: Seq<DemoSourceSet>, s: DemoSourceSet) -> bool {
    exists|i: int|
        0 <= i < sources.len() && #[trigger] sources[i] == s && forall|q: int|
            0 <= q < i ==> source_key(#[trigger] sources[q]) != source_key(s)
}

/// Some kept source has the key of `s`.
pub open spec fn key_kept(kept: Seq<DemoSourceSet>, s: DemoSourceSet) -> bool {
    exists|j: int| 0 <= j < kept.len() && source_key(#[trigger] kept[j]) == source_key(s)
}

/// One source per key, the first given with that key, ordered by key.
pub fn group_demo_sources(sources: Vec<DemoSourceSet>) -> (r: Vec<DemoSourceSet>)
    requires
        forall|i: int| 0 <= i < sources.len() ==> (#[trigger] sources[i]).parts.len() > 0,
    ensures
        forall|i: int, j: int|
            0 <= i < j < r.len() ==> crate::text::lex_lt(
                source_key(#[trigger] r[i]),
                source_key(#[trigger] r[j]),
            ),
        forall|j: int| 0 <= j < r.len() ==> first_with_key(sources@, #[trigger] r[j]),
        forall|i: int| 0 <= i < sources.len() ==> key_kept(r@, #[trigger] sources[i]),
{
    let ghost orig = sources@;
    let mut rest = sources;
    let mut out: Vec<DemoSourceSet> = Vec::new();
    let mut keys: Vec<Vec<char>> = Vec::new();
    let ghost mut done: int = 0;
    while rest.len() > 0
        invariant
            0 <= done <= orig.len(),
            rest@ == orig.subrange(done, orig.len() as int),
            forall|i: int| 0 <= i < orig.len() ==> (#[trigger] orig[i]).parts.len() > 0,
            keys.len() == out.len(),
            forall|j: int| 0 <= j < out.len() ==> (#[trigger] keys[j])@ == source_key(out[j]),
            forall|i: int, j: int| 0 <= i < j < keys.len() ==> crate::text::lex_lt(#[trigger] keys[i]@, #[trigger] keys[j]@),
            forall|j: int| 0 <= j < out.len() ==> first_with_key(orig, #[trigger] out[j]),
            forall|i: int|
                0 <= i < done ==> exists|j: int|
                    0 <= j < keys.len() && (#[trigger] keys[j])@ == source_key(#[trigger] orig[i]),
        decreases rest.len(),
    {
        let s = rest.remove(0);
        proof {
            assert(s == orig[done]);
        }
        let k = source_key_chars(&s);
        let mut pos: usize = 0;
        while pos < keys.len() && crate::text::lex_compare(&keys[pos], &k) < 0
            invariant
                pos <= keys.len(),
                forall|j: int| 0 <= j < pos ==> crate::text::lex_lt(#[trigger] keys[j]@, k@),
            decreases keys.len() - pos,
        {
            pos = pos + 1;
        }
        let same = pos < keys.len() && crate::text::lex_compare(&keys[pos], &k) == 0;
        if same {
            proof {
                assert(keys[pos as int]@ == source_key(orig[done]));
                assert forall|i: int| 0 <= i < done + 1 implies exists|j: int|
                    0 <= j < keys.len() && (#[trigger] keys[j])@ == source_key(#[trigger] orig[i]) by {
                    if i == done {
                        assert(keys[pos as int]@ == source_key(orig[i]));
                    }
                }
            }
        } else {
            proof {
                if pos < keys.len() {
                    crate::text::lemma_lex_total(keys[pos as int]@, k@);
                    assert(crate::text::lex_lt(k@, keys[pos as int]@));
                }
                // no kept source has this key
                assert forall|j: int| 0 <= j < keys.len() implies (#[trigger] keys[j])@ != k@ by {
                    if j < pos {
                        crate::text::lemma_lex_irreflexive(k@);
                    } else {
                        crate::text::lemma_lex_irreflexive(k@);
                        if j > pos {
                            crate::text::lemma_lex_transitive(k@, keys[pos as int]@, keys[j]@);
                        }
                    }
                }
                // so no earlier source has it either
                assert forall|q: int| 0 <= q < done implies source_key(#[trigger] orig[q]) != k@ by {
                    let j = choose|j: int| 0 <= j < keys.len() && (#[trigger] keys[j])@ == source_key(orig[q]);
                }
                assert(first_with_key(orig, s));
            }
            let ghost old_keys = keys@;
            let ghost old_out = out@;
            out.insert(pos, s);
            keys.insert(pos, k);
            proof {
                assert forall|j: int| 0 <= j < out.len() implies (#[trigger] keys[j])@ == source_key(out[j]) by {
                    if j < pos {
                        assert(keys[j] == old_keys[j] && out[j] == old_out[j]);
                    } else if j > pos {
                        assert(keys[j] == old_keys[j - 1] && out[j] == old_out[j - 1]);
                    }
                }
                assert forall|j: int| 0 <= j < out.len() implies first_with_key(orig, #[trigger] out[j]) by {
                    if j < pos {
                        assert(out[j] == old_out[j]);
                    } else if j > pos {
                        assert(out[j] == old_out[j - 1]);
                    }
                }
                assert forall|a: int, b: int| 0 <= a < b < keys.len() implies crate::text::lex_lt(
                    #[trigger] keys[a]@,
                    #[trigger] keys[b]@,
                ) by {
                    if b < pos {
                        assert(keys[a] == old_keys[a] && keys[b] == old_keys[b]);
                    } else if b == pos {
                        assert(keys[a] == old_keys[a]);
                    } else if a > pos {
                        assert(keys[a] == old_keys[a - 1] && keys[b] == old_keys[b - 1]);
                    } else if a == pos {
                        assert(keys[b] == old_keys[b - 1]);
                        if b - 1 > pos {
                            assert(crate::text::lex_lt(old_keys[pos as int]@, old_keys[b - 1]@));
                            crate::text::lemma_lex_transitive(k@, old_keys[pos as int]@, old_keys[b - 1]@);
                        }
                    } else {
                        assert(keys[a] == old_keys[a] && keys[b] == old_keys[b - 1]);
                        assert(crate::text::lex_lt(old_keys[a]@, k@));
                        if b - 1 >= pos {
                            if b - 1 > pos {
                                assert(crate::text::lex_lt(old_keys[pos as int]@, old_keys[b - 1]@));
                                crate::text::lemma_lex_transitive(k@, old_keys[pos as int]@, old_keys[b - 1]@);
                            }
                            crate::text::lemma_lex_transitive(old_keys[a]@, k@, old_keys[b - 1]@);
                        }
                    }
                }
                assert forall|i: int| 0 <= i < done + 1 implies exists|j: int|
                    0 <= j < keys.len() && (#[trigger] keys[j])@ == source_key(#[trigger] orig[i]) by {
                    if i == done {
                        assert(keys[pos as int]@ == source_key(orig[i]));
                    } else {
                        let j = choose|j: int| 0 <= j < old_keys.len() && (#[trigger] old_keys[j])@ == source_key(orig[i]);
                        if j < pos {
                            assert(keys[j] == old_keys[j]);
                        } else {
                            assert(keys[j + 1] == old_keys[j]);
                        }
                    }
                }
            }
        }
        proof {
            done = done + 1;
            assert(rest@ =~= orig.subrange(done, orig.len() as int));
        }
    }
    proof {
        assert(done == orig.len());
        assert forall|i: int, j: int| 0 <= i < j < out.len() implies crate::text::lex_lt(
            source_key(#[trigger] out[i]),
            source_key(#[trigger] out[j]),
        ) by {
            assert(keys[i]@ == source_key(out[i]) && keys[j]@ == source_key(out[j]));
        }
        assert forall|i: int| 0 <= i < orig.len() implies key_kept(out@, #[trigger] orig[i]) by {
            let j = choose|j: int| 0 <= j < keys.len() && (#[trigger] keys[j])@ == source_key(orig[i]);
            assert(source_key(out@[j]) == keys[j]@);
        }
    }
    out
}

// ---------------------------------------------------------------------------
// Finding the source that has an expected identity hash
// ---------------------------------------------------------------------------

/// A part of a segmented source is the selected file and has the expected hash.
pub open spec fn selected_part_matches(
    file_name: Option<Seq<char>>,
    parts: Seq<(u32, Seq<char>)>,
    hashes: Seq<Seq<char>>,
    expected: Seq<char>,
) -> bool {
    selected_segment(file_name) is Some && exists|i: int|
        0 <= i < parts.len() && i < hashes.len() && (#[trigger] parts[i]).0 == seg_part(
            selected_segment(file_name),
        ) && eq_ignore_ascii_case(hashes[i], expected)
}

/// The source of a file that resolved to `source`, when its identity matches
/// `expected` (ignoring ASCII case): the whole source when its compound hash
/// matches; the selected file alone when it is a part of a segmented source
/// whose own content hash matches; otherwise none. `part_hashes` are the
/// content hashes of the parts in part order.
#[verifier::loop_isolation(false)]
pub fn resolve_demo_source_for_sha256(
    path: &str,
    file_name: Option<&str>,
    source: DemoSourceSet,
    part_hashes: &Vec<String>,
    expected: &str,
) -> (r: Result<Option<DemoSourceSet>, Error>)
    ensures
        ({
            let hashes = hash_views(part_hashes@);
            match r {
                Err(e) => compound_hash_refused(hashes) && e is InvalidDemo,
                Ok(found) => !compound_hash_refused(hashes) && if eq_ignore_ascii_case(
                    spec_compound_hash(hashes),
                    expected@,
                ) {
                    found == Some(source)
                } else if source.parts.len() > 1 && selected_part_matches(
                    opt_view(file_name),
                    source_view(source).1,
                    hashes,
                    expected@,
                ) {
                    found is Some && source_view(found->0) == spec_single_source(
                        path@,
                        opt_view(file_name),
                    )
                } else {
                    found is None
                },
            }
        }),
{
    let compound = match compound_demo_sha256(part_hashes) {
        Ok(h) => h,
        Err(e) => return Err(e),
    };
    let expected_chars = chars_of(expected);
    let compound_chars = chars_of(compound.as_str());
    if crate::text::vec_eq_ignore_ascii_case(&compound_chars, &expected_chars) {
        return Ok(Some(source));
    }
    if source.is_segmented() {
        let selected_part = match file_name {
            Some(n) => match segment_file_name(n) {
                Some(seg) => Some(seg.part),
                None => None,
            },
            None => None,
        };
        if let Some(sel) = selected_part {
            let ghost parts = source_view(source).1;
            let mut i: usize = 0;
            while i < source.parts.len() && i < part_hashes.len()
                invariant
                    i <= source.parts.len(),
                    parts == source_view(source).1,
                    expected_chars@ == expected@,
                    seg_part(selected_segment(opt_view(file_name))) == sel,
                    forall|j: int|
                        0 <= j < i ==> !((#[trigger] parts[j]).0 == sel && eq_ignore_ascii_case(
                            hash_views(part_hashes@)[j],
                            expected@,
                        )),
                decreases source.parts.len() - i,
            {
                let hash_chars = chars_of(part_hashes[i].as_str());
                if source.parts[i].part == sel && crate::text::vec_eq_ignore_ascii_case(
                    &hash_chars,
                    &expected_chars,
                ) {
                    proof {
                        assert(parts[i as int].0 == sel);
                        assert(hash_views(part_hashes@)[i as int] == part_hashes@[i as int]@);
                    }
                    return Ok(Some(single_source(path, file_name)));
                }
                i = i + 1;
            }
            proof {
                assert forall|j: int|
                    0 <= j < parts.len() && j < part_hashes.len() implies !((#[trigger] parts[j]).0
                    == sel && eq_ignore_ascii_case(hash_views(part_hashes@)[j], expected@)) by {}
            }
        }
    }
    Ok(None)
}

/// A part's own content hash keeps identifying it once its siblings are
/// gone: a source of that part alone has the part's hash as its identity and
/// is never refused, so looking it up by that hash gives the source back
/// (while the siblings are present, `resolve_demo_source_for_sha256` gives
/// the selected part alone for the same hash).
pub proof fn law_part_hash_survives_lost_siblings(hash: Seq<char>)
    ensures
        !compound_hash_refused(seq![hash]),
        spec_compound_hash(seq![hash]) == hash,
        eq_ignore_ascii_case(spec_compound_hash(seq![hash]), hash),
{
}

/// The source of a file that could not be resolved as a series: the file
/// alone when its own content hash matches `expected` (ignoring ASCII case),
/// otherwise the error of the resolution.
pub fn unresolved_source_for_sha256<E>(
    path: &str,
    file_name: Option<&str>,
    resolve_error: E,
    content_hash: &str,
    expected: &str,
) -> (r: Result<Option<DemoSourceSet>, E>)
    ensures
        match r {
            Ok(found) => eq_ignore_ascii_case(content_hash@, expected@) && found is Some
                && source_view(found->0) == spec_single_source(path@, opt_view(file_name)),
            Err(e) => !eq_ignore_ascii_case(content_hash@, expected@) && e == resolve_error,
        },
{
    let a = chars_of(content_hash);
    let b = chars_of(expected);
    if crate::text::vec_eq_ignore_ascii_case(&a, &b) {
        Ok(Some(single_source(path, file_name)))
    } else {
        Err(resolve_error)
    }
}

// ---------------------------------------------------------------------------
// Rounds that a segment completes
// ---------------------------------------------------------------------------

/// A round that a segment plays from its freeze end to its `round_end`.
#[derive(Clone, Copy, Debug, PartialEq, Eq, Structural)]
pub struct CompletedRound {
    pub row_min_tick: i32,
    pub row_max_tick: i32,
    pub freeze_end_tick: i32,
    pub round_end_tick: i32,
    pub winner_side: u8,
    pub start_score_total: Option<u32>,
}

/// The tick lies in the row span of the round.
pub open spec fn tick_in_round(tick: i32, round: CompletedRound) -> bool {
    round.row_min_tick <= tick && tick <= round.row_max_tick
}

/// Index of the first round (in round order) whose row span holds `tick`.
pub open spec fn first_round_for_tick(tick: i32, rounds: Seq<(u32, CompletedRound)>) -> Option<int>
    decreases rounds.len(),
{
    if rounds.len() == 0 {
        None
    } else {
        match first_round_for_tick(tick, rounds.drop_last()) {
            Some(i) => Some(i),
            None => if tick_in_round(tick, rounds.last().1) {
                Some(rounds.len() - 1)
            } else {
                None
            },
        }
    }
}

proof fn lemma_first_round_for_tick(tick: i32, rounds: Seq<(u32, CompletedRound)>)
    ensures
        match first_round_for_tick(tick, rounds) {
            Some(i) => 0 <= i < rounds.len() && tick_in_round(tick, rounds[i].1) && forall|j: int|
                0 <= j < i ==> !tick_in_round(tick, (#[trigger] rounds[j]).1),
            None => forall|j: int| 0 <= j < rounds.len() ==> !tick_in_round(tick, (#[trigger] rounds[j]).1),
        },
    decreases rounds.len(),
{
    if rounds.len() > 0 {
        lemma_first_round_for_tick(tick, rounds.drop_last());
        let rest = rounds.drop_last();
        assert forall|j: int| 0 <= j < rest.len() implies rest[j] == rounds[j] by {}
    }
}

/// The first completed round, in round order, whose row span holds `tick`.
pub fn round_for_tick(tick: i32, rounds: &Vec<(u32, CompletedRound)>) -> (r: Option<CompletedRound>)
    ensures
        match first_round_for_tick(tick, rounds@) {
            Some(i) => r == Some(rounds@[i].1),
            None => r is None,
        },
{
    let mut i: usize = 0;
    while i < rounds.len()
        invariant
            i <= rounds.len(),
            forall|j: int| 0 <= j < i ==> !tick_in_round(tick, (#[trigger] rounds@[j]).1),
        decreases rounds.len() - i,
    {
        let round = rounds[i].1;
        if tick >= round.row_min_tick && tick <= round.row_max_tick {
            proof {
                lemma_first_round_for_tick(tick, rounds@);
                let f = first_round_for_tick(tick, rounds@);
                if f is None {
                    assert(!tick_in_round(tick, rounds@[i as int].1));
                } else {
                    let k = f->0;
                    if k < i {
                        assert(!tick_in_round(tick, rounds@[k].1));
                    } else if k > i {
                        assert(!tick_in_round(tick, rounds@[i as int].1));
                    }
                }
            }
            return Some(round);
        }
        i = i + 1;
    }
    proof {
        lemma_first_round_for_tick(tick, rounds@);
        let f = first_round_for_tick(tick, rounds@);
        if f is Some {
            assert(!tick_in_round(tick, rounds@[f->0].1));
        }
    }
    None
}

/// Whether some completed round's row span holds `tick`.
pub fn tick_in_completed_round(tick: i32, rounds: &Vec<(u32, CompletedRound)>) -> (r: bool)
    ensures
        r == exists|j: int| 0 <= j < rounds.len() && tick_in_round(tick, (#[trigger] rounds@[j]).1),
{
    let found = round_for_tick(tick, rounds);
    proof {
        lemma_first_round_for_tick(tick, rounds@);
    }
    found.is_some()
}

/// An event is kept in the merged match: match start and match end events
/// never (the canonical ones are added back), a `round_end` only when it ends
/// a completed round with its winner, any other event inside a completed
/// round's row span.
pub open spec fn event_retained(event: ParsedGameEvent, rounds: Seq<(u32, CompletedRound)>) -> bool {
    if event.name@ == "round_announce_match_start"@ || event.name@ == "cs_win_panel_match"@ {
        false
    } else if event.name@ == "round_end"@ {
        exists|j: int|
            0 <= j < rounds.len() && event.tick == (#[trigger] rounds[j]).1.round_end_tick
                && event.winner_side == Some(rounds[j].1.winner_side)
    } else {
        exists|j: int| 0 <= j < rounds.len() && tick_in_round(event.tick, (#[trigger] rounds[j]).1)
    }
}

fn ends_completed_round(tick: i32, winner: Option<u8>, rounds: &Vec<(u32, CompletedRound)>) -> (r: bool)
    ensures
        r == exists|j: int|
            0 <= j < rounds.len() && tick == (#[trigger] rounds@[j]).1.round_end_tick && winner
                == Some(rounds@[j].1.winner_side),
{
    let mut i: usize = 0;
    while i < rounds.len()
        invariant
            i <= rounds.len(),
            forall|j: int|
                0 <= j < i ==> !(tick == (#[trigger] rounds@[j]).1.round_end_tick && winner == Some(
                    rounds@[j].1.winner_side,
                )),
        decreases rounds.len() - i,
    {
        let round = rounds[i].1;
        let same_winner = match winner {
            Some(w) => w == round.winner_side,
            None => false,
        };
        if tick == round.round_end_tick && same_winner {
            return true;
        }
        i = i + 1;
    }
    false
}

/// The events of a segment that the merged match keeps, in their order,
/// followed by the canonical match start and match end when given.
pub fn retained_events(
    source: Vec<ParsedGameEvent>,
    rounds: &Vec<(u32, CompletedRound)>,
    match_start: Option<ParsedGameEvent>,
    match_end: Option<ParsedGameEvent>,
) -> (r: Vec<ParsedGameEvent>)
    ensures
        r@ == source@.filter(|e: ParsedGameEvent| event_retained(e, rounds@)) + (match match_start {
            Some(e) => seq![e],
            None => seq![],
        }) + (match match_end {
            Some(e) => seq![e],
            None => seq![],
        }),
{
    let ghost orig = source@;
    let mut rest = source;
    let mut kept: Vec<ParsedGameEvent> = Vec::new();
    let ghost mut done: int = 0;
    while rest.len() > 0
        invariant
            0 <= done <= orig.len(),
            rest@ == orig.subrange(done, orig.len() as int),
            kept@ == orig.subrange(0, done).filter(|e: ParsedGameEvent| event_retained(e, rounds@)),
        decreases rest.len(),
    {
        let event = rest.remove(0);
        let name = chars_of(event.name.as_str());
        let keep = if crate::model::eq_lit(&name, "round_announce_match_start") || crate::model::eq_lit(
            &name,
            "cs_win_panel_match",
        ) {
            false
        } else if crate::model::eq_lit(&name, "round_end") {
            ends_completed_round(event.tick, event.winner_side, rounds)
        } else {
            tick_in_completed_round(event.tick, rounds)
        };
        proof {
            assert(event == orig[done]);
            assert(keep == event_retained(event, rounds@));
            let next = orig.subrange(0, done + 1);
            assert(next.drop_last() =~= orig.subrange(0, done));
            assert(next.last() == event);
            reveal(Seq::filter);
        }
        if keep {
            kept.push(event);
        }
        proof {
            done = done + 1;
            assert(rest@ =~= orig.subrange(done, orig.len() as int));
        }
    }
    proof {
        assert(orig.subrange(0, orig.len() as int) =~= orig);
    }
    let ghost filtered = kept@;
    match match_start {
        Some(e) => kept.push(e),
        None => {},
    }
    let ghost with_start = kept@;
    match match_end {
        Some(e) => kept.push(e),
        None => {},
    }
    proof {
        assert(with_start =~= filtered + (match match_start {
            Some(e) => seq![e],
            None => seq![],
        }));
        assert(kept@ =~= with_start + (match match_end {
            Some(e) => seq![e],
            None => seq![],
        }));
    }
    kept
}

pub open spec fn shift_message(part_number: u32) -> Seq<char> {
    "demo segment p"@ + crate::text::decimal(part_number as nat)
        + " tick rebasing exceeds the supported range"@
}

/// A tick moved by `offset`, when the result still fits an `i32`.
pub fn checked_shift_tick(tick: i32, offset: i64, part_number: u32) -> (r: Result<i32, Error>)
    requires
        i64::MIN <= tick + offset <= i64::MAX,
    ensures
        match r {
            Ok(t) => t == tick + offset,
            Err(e) => !(i32::MIN <= tick + offset <= i32::MAX) && e is InvalidDemo && e.demo_detail()
                == shift_message(part_number),
        },
{
    let shifted = tick as i64 + offset;
    if shifted < i32::MIN as i64 || shifted > i32::MAX as i64 {
        let m = string_of("demo segment p");
        let m = crate::text::concat_str(m, crate::text::u64_decimal(part_number as u64).as_str());
        let m = crate::text::concat_str(m, " tick rebasing exceeds the supported range");
        return Err(invalid_demo(m));
    }
    Ok(shifted as i32)
}

// ---------------------------------------------------------------------------
// Modal values
// ---------------------------------------------------------------------------

/// `s` is the key of an entry with the largest count, the smallest key among
/// entries of that count.
pub open spec fn is_mode(values: Seq<(u32, usize)>, s: u32) -> bool {
    exists|i: int|
        0 <= i < values.len() && (#[trigger] values[i]).0 == s && forall|j: int|
            0 <= j < values.len() ==> (#[trigger] values[j]).1 < values[i].1 || (values[j].1
                == values[i].1 && values[j].0 >= s)
}

/// The value seen most often, the smallest one on a tie; `None` for no value.
pub fn mode_score(values: &Vec<(u32, usize)>) -> (r: Option<u32>)
    ensures
        match r {
            Some(s) => is_mode(values@, s),
            None => values.len() == 0,
        },
{
    if values.len() == 0 {
        return None;
    }
    let mut best: usize = 0;
    let mut i: usize = 1;
    while i < values.len()
        invariant
            1 <= i <= values.len(),
            best < i,
            forall|j: int|
                0 <= j < i ==> (#[trigger] values@[j]).1 < values@[best as int].1 || (values@[j].1
                    == values@[best as int].1 && values@[j].0 >= values@[best as int].0),
        decreases values.len() - i,
    {
        let (score, count) = values[i];
        let (best_score, best_count) = values[best];
        if count > best_count || (count == best_count && score < best_score) {
            best = i;
        }
        i = i + 1;
    }
    Some(values[best].0)
}

/// The modal round of the rows at a tick: the round with most rows there,
/// the smallest round on a tie. `rounds_by_tick` lists each tick once.
pub fn modal_round_at_tick(rounds_by_tick: &Vec<(i32, Vec<(u32, usize)>)>, tick: i32) -> (r: Option<u32>)
    ensures
        match r {
            Some(round) => exists|k: int|
                0 <= k < rounds_by_tick.len() && (#[trigger] rounds_by_tick@[k]).0 == tick && is_mode(
                    rounds_by_tick@[k].1@,
                    round,
                ) && forall|q: int| 0 <= q < k ==> (#[trigger] rounds_by_tick@[q]).0 != tick,
            None => forall|k: int|
                0 <= k < rounds_by_tick.len() && (#[trigger] rounds_by_tick@[k]).0 == tick && (forall|q: int|
                    0 <= q < k ==> (#[trigger] rounds_by_tick@[q]).0 != tick) ==> rounds_by_tick@[k].1.len()
                    == 0,
        },
{
    let mut k: usize = 0;
    while k < rounds_by_tick.len()
        invariant
            k <= rounds_by_tick.len(),
            forall|q: int| 0 <= q < k ==> (#[trigger] rounds_by_tick@[q]).0 != tick,
        decreases rounds_by_tick.len() - k,
    {
        if rounds_by_tick[k].0 == tick {
            return mode_score(&rounds_by_tick[k].1);
        }
        k = k + 1;
    }
    None
}

/// The modal round at the last tick before `tick`. `rounds_by_tick` is in
/// increasing tick order.
pub fn predecessor_round(rounds_by_tick: &Vec<(i32, Vec<(u32, usize)>)>, tick: i32) -> (r: Option<u32>)
    requires
        forall|a: int, b: int|
            0 <= a < b < rounds_by_tick.len() ==> (#[trigger] rounds_by_tick@[a]).0 < (
            #[trigger] rounds_by_tick@[b]).0,
    ensures
        match r {
            Some(round) => exists|k: int|
                0 <= k < rounds_by_tick.len() && (#[trigger] rounds_by_tick@[k]).0 < tick && is_mode(
                    rounds_by_tick@[k].1@,
                    round,
                ) && (k + 1 == rounds_by_tick.len() || rounds_by_tick@[k + 1].0 >= tick),
            None => forall|k: int|
                0 <= k < rounds_by_tick.len() && (#[trigger] rounds_by_tick@[k]).0 < tick ==> (k + 1
                    < rounds_by_tick.len() && rounds_by_tick@[k + 1].0 < tick) || rounds_by_tick@[k].1.len()
                    == 0,
        },
{
    let mut k: usize = 0;
    while k < rounds_by_tick.len() && rounds_by_tick[k].0 < tick
        invariant
            k <= rounds_by_tick.len(),
            forall|q: int| 0 <= q < k ==> (#[trigger] rounds_by_tick@[q]).0 < tick,
        decreases rounds_by_tick.len() - k,
    {
        k = k + 1;
    }
    if k == 0 {
        proof {
            assert forall|q: int| 0 <= q < rounds_by_tick.len() && (#[trigger] rounds_by_tick@[q]).0 < tick implies (q + 1
                < rounds_by_tick.len() && rounds_by_tick@[q + 1].0 < tick) || rounds_by_tick@[q].1.len() == 0 by {
                if q > 0 {
                    assert(rounds_by_tick@[0].0 < rounds_by_tick@[q].0);
                }
            }
        }
        return None;
    }
    let r = mode_score(&rounds_by_tick[k - 1].1);
    proof {
        let last = (k - 1) as int;
        if k < rounds_by_tick.len() {
            assert(rounds_by_tick@[k as int].0 >= tick);
        }
        assert forall|q: int| 0 <= q < rounds_by_tick.len() && (#[trigger] rounds_by_tick@[q]).0 < tick && q != last
            implies q + 1 < rounds_by_tick.len() && rounds_by_tick@[q + 1].0 < tick by {
            if q > last {
                assert(rounds_by_tick@[k as int].0 <= rounds_by_tick@[q].0);
            }
        }
    }
    r
}

// ---------------------------------------------------------------------------
// Header agreement between segments
// ---------------------------------------------------------------------------

/// Rust's `Debug` text of a string: the text in double quotes, with the
/// escapes of `str::escape_debug`.
pub uninterp spec fn debug_quoted(s: Seq<char>) -> Seq<char>;

/// Formats `s` with `{:?}`, that is `<str as Debug>::fmt`. Trusted: the
/// result is the `Debug` text of exactly `s`; what that text is (quotes and
/// escapes) is left to the name.
#[verifier::external_body]
fn debug_str(s: &str) -> (r: String)
    ensures
        r@ == debug_quoted(s@),
{
    format!("{s:?}")
}

pub open spec fn mismatch_message(index: int, label: Seq<char>, left: Seq<char>, right: Seq<char>) -> Seq<char> {
    "demo segment p"@ + crate::text::decimal((index + 1) as nat) + " "@ + label + " mismatch: "@
        + debug_quoted(left) + " != "@ + debug_quoted(right)
}

/// The error for a header value of segment `index` (0-based) that differs
/// from the first segment's.
pub fn segment_mismatch(index: usize, label: &str, left: &str, right: &str) -> (e: Error)
    requires
        index < usize::MAX,
    ensures
        e is InvalidDemo,
        e.demo_detail() == mismatch_message(index as int, label@, left@, right@),
{
    let m = string_of("demo segment p");
    let m = crate::text::concat_str(m, crate::text::u64_decimal((index as u64) + 1).as_str());
    let m = crate::text::concat_str(m, " ");
    let m = crate::text::concat_str(m, label);
    let m = crate::text::concat_str(m, " mismatch: ");
    let m = crate::text::concat_str(m, debug_str(left).as_str());
    let m = crate::text::concat_str(m, " != ");
    let m = crate::text::concat_str(m, debug_str(right).as_str());
    invalid_demo(m)
}

/// Two optional numeric header values agree unless both are present and differ.
pub fn require_matching_optional(index: usize, label: &str, left: Option<i32>, right: Option<i32>) -> (r:
    Result<(), Error>)
    requires
        index < usize::MAX,
    ensures
        match r {
            Ok(()) => !(left is Some && right is Some && left != right),
            Err(e) => left is Some && right is Some && left != right && e is InvalidDemo && e.demo_detail()
                == mismatch_message(
                index as int,
                label@,
                crate::text::signed_decimal(left->0 as int),
                crate::text::signed_decimal(right->0 as int),
            ),
        },
{
    if let (Some(l), Some(r)) = (left, right) {
        if l != r {
            let ls = crate::text::i64_decimal(l as i64);
            let rs = crate::text::i64_decimal(r as i64);
            return Err(segment_mismatch(index, label, ls.as_str(), rs.as_str()));
        }
    }
    Ok(())
}

/// Two optional text header values agree unless both are present and differ
/// after trimming, ignoring ASCII case.
pub fn require_matching_optional_ref(
    index: usize,
    label: &str,
    left: Option<&str>,
    right: Option<&str>,
) -> (r: Result<(), Error>)
    requires
        index < usize::MAX,
    ensures
        match r {
            Ok(()) => !(left is Some && right is Some && !eq_ignore_ascii_case(
                crate::text::trim(left->0@),
                crate::text::trim(right->0@),
            )),
            Err(e) => left is Some && right is Some && !eq_ignore_ascii_case(
                crate::text::trim(left->0@),
                crate::text::trim(right->0@),
            ) && e is InvalidDemo && e.demo_detail() == mismatch_message(
                index as int,
                label@,
                left->0@,
                right->0@,
            ),
        },
{
    if let (Some(l), Some(r)) = (left, right) {
        let lc = chars_of(l);
        let rc = chars_of(r);
        let lt = crate::text::vec_trim(&lc);
        let rt = crate::text::vec_trim(&rc);
        if !crate::text::vec_eq_ignore_ascii_case(&lt, &rt) {
            return Err(segment_mismatch(index, label, l, r));
        }
    }
    Ok(())
}

} // verus!
