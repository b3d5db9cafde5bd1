//! Decisions taken while loading a demo file: is it zstd-compressed, does it
//! stay within the size limit, and what is its logical stem.
use crate::error::Error;
use crate::text::{chars_of, eq_ignore_ascii_case, string_from_chars, string_of, vec_slice};
use vstd::prelude::*;
use vstd::string::*;

verus! {

/// Hard ceiling for logical demo input (2 GiB): plain `.dem` files and
/// decompressed `.dem.zst` content alike.
pub const MAX_DECOMPRESSED_DEMO_BYTES: u64 = 2147483648;

/// Magic number of a zstd frame.
pub const ZSTD_FRAME_MAGIC: u32 = 0xFD2F_B528;

/// Magic numbers of skippable zstd frames, up to their low four bits.
pub const ZSTD_SKIPPABLE_MAGIC_BASE: u32 = 0x184D_2A50;

/// The first four bytes as a little-endian number.
pub open spec fn le_u32(b: Seq<u8>) -> int {
    b[0] as int + b[1] as int * 256 + b[2] as int * 65536 + b[3] as int * 16777216
}

/// The bytes start a zstd frame or a skippable frame.
pub open spec fn spec_has_zstd_magic(prefix: Seq<u8>) -> bool {
    prefix.len() >= 4 && {
        let m = le_u32(prefix);
        m == ZSTD_FRAME_MAGIC || (m - m % 16) == ZSTD_SKIPPABLE_MAGIC_BASE
    }
}

/// Whether a file prefix starts with a zstd frame magic number.
pub fn has_zstd_magic(prefix: &[u8]) -> (r: bool)
    ensures
        r == spec_has_zstd_magic(prefix@),
{
    if prefix.len() < 4 {
        return false;
    }
    let b0 = prefix[0] as u32;
    let b1 = prefix[1] as u32;
    let b2 = prefix[2] as u32;
    let b3 = prefix[3] as u32;
    let magic = b0 | (b1 << 8) | (b2 << 16) | (b3 << 24);
    assert(magic == b0 + b1 * 256 + b2 * 65536 + b3 * 16777216) by (bit_vector)
        requires
            b0 < 256,
            b1 < 256,
            b2 < 256,
            b3 < 256,
            magic == b0 | (b1 << 8u32) | (b2 << 16u32) | (b3 << 24u32),
    ;
    let masked = magic & 0xFFFF_FFF0;
    assert(masked == magic - magic % 16) by (bit_vector)
        requires
            masked == magic & 0xFFFF_FFF0u32,
    ;
    magic == ZSTD_FRAME_MAGIC || masked == ZSTD_SKIPPABLE_MAGIC_BASE
}

/// Refuses logical content larger than the limit.
pub fn enforce_demo_limit(path: &str, total: u64, limit: u64) -> (r: Result<(), Error>)
    ensures
        match r {
            Ok(()) => total <= limit,
            Err(e) => total > limit && (e matches Error::DecompressedDemoTooLarge { path: p, limit_bytes }
                && p@ == path@ && limit_bytes == limit),
        },
{
    if total > limit {
        return Err(Error::DecompressedDemoTooLarge { path: string_of(path), limit_bytes: limit });
    }
    Ok(())
}

/// Position of the last `.` of a name, when there is one.
pub open spec fn last_dot(name: Seq<char>) -> Option<int>
    decreases name.len(),
{
    if name.len() == 0 {
        None
    } else if name.last() == '.' {
        Some(name.len() - 1)
    } else {
        last_dot(name.drop_last())
    }
}

/// `Path::file_stem` of a file name: the part before the last `.`, or the
/// whole name when it has no `.`, when its only `.` leads it, or when it is `..`.
pub open spec fn spec_file_stem(name: Seq<char>) -> Seq<char> {
    if name == ".."@ {
        name
    } else {
        match last_dot(name) {
            None => name,
            Some(k) => if k == 0 {
                name
            } else {
                name.subrange(0, k)
            },
        }
    }
}

/// `Path::extension` of a file name (see `spec_file_stem`).
pub open spec fn spec_file_extension(name: Seq<char>) -> Option<Seq<char>> {
    if name == ".."@ {
        None
    } else {
        match last_dot(name) {
            None => None,
            Some(k) => if k == 0 {
                None
            } else {
                Some(name.subrange(k + 1, name.len() as int))
            },
        }
    }
}

/// The logical stem of a demo file: its file stem, and the stem of that again
/// for a `.zst` file (so `match.dem.zst` gives `match`); `demo` where there is
/// no name to take it from.
pub open spec fn spec_demo_input_stem(file_name: Option<Seq<char>>) -> Seq<char> {
    match file_name {
        None => "demo"@,
        Some(name) => {
            let first = spec_file_stem(name);
            match spec_file_extension(name) {
                Some(ext) => if eq_ignore_ascii_case(ext, "zst"@) {
                    if first == "."@ || first.len() == 0 || first == ".."@ {
                        "demo"@
                    } else {
                        spec_file_stem(first)
                    }
                } else {
                    first
                },
                None => first,
            }
        },
    }
}

fn find_last_dot(name: &Vec<char>) -> (r: Option<usize>)
    ensures
        match r {
            Some(k) => last_dot(name@) == Some(k as int) && k < name.len(),
            None => last_dot(name@) is None,
        },
{
    let mut end: usize = name.len();
    proof {
        assert(name@.subrange(0, end as int) =~= name@);
    }
    while end > 0
        invariant
            end <= name.len(),
            last_dot(name@) == last_dot(name@.subrange(0, end as int)),
        decreases end,
    {
        proof {
            let pre = name@.subrange(0, end as int);
            assert(pre.drop_last() =~= name@.subrange(0, end - 1));
            assert(pre.last() == name@[end - 1]);
        }
        if name[end - 1] == '.' {
            return Some(end - 1);
        }
        end = end - 1;
    }
    proof {
        assert(name@.subrange(0, 0) =~= Seq::<char>::empty());
    }
    None
}

proof fn lemma_last_dot_bound(name: Seq<char>)
    ensures
        last_dot(name) matches Some(k) ==> 0 <= k < name.len(),
    decreases name.len(),
{
    if name.len() > 0 && name.last() != '.' {
        lemma_last_dot_bound(name.drop_last());
    }
}

fn is_dot_dot(name: &Vec<char>) -> (r: bool)
    ensures
        r == (name@ == ".."@),
{
    let dots = chars_of("..");
    crate::text::vec_eq(name, &dots)
}

fn file_stem_chars(name: &Vec<char>) -> (r: Vec<char>)
    ensures
        r@ == spec_file_stem(name@),
{
    if is_dot_dot(name) {
        return vec_slice(name, 0, name.len());
    }
    proof {
        lemma_last_dot_bound(name@);
    }
    match find_last_dot(name) {
        None => vec_slice(name, 0, name.len()),
        Some(k) => if k == 0 {
            vec_slice(name, 0, name.len())
        } else {
            vec_slice(name, 0, k)
        },
    }
}

/// The logical stem of a demo file name (`None` when the path has no name or
/// the name is not UTF-8).
pub fn demo_input_stem(file_name: Option<&str>) -> (r: String)
    ensures
        r@ == spec_demo_input_stem(
            match file_name {
                Some(n) => Some(n@),
                None => None,
            },
        ),
{
    let name = match file_name {
        None => return string_of("demo"),
        Some(n) => chars_of(n),
    };
    proof {
        assert(name@.subrange(0, name.len() as int) =~= name@);
        lemma_last_dot_bound(name@);
    }
    let first = file_stem_chars(&name);
    let zst = chars_of("zst");
    let ext_is_zst = if is_dot_dot(&name) {
        false
    } else {
        match find_last_dot(&name) {
            None => false,
            Some(k) => if k == 0 {
                false
            } else {
                let ext = vec_slice(&name, k + 1, name.len());
                crate::text::vec_eq_ignore_ascii_case(&ext, &zst)
            },
        }
    };
    if ext_is_zst {
        let dot = chars_of(".");
        if crate::text::vec_eq(&first, &dot) || first.len() == 0 || is_dot_dot(&first) {
            return string_of("demo");
        }
        let second = file_stem_chars(&first);
        string_from_chars(&second)
    } else {
        string_from_chars(&first)
    }
}

} // verus!
