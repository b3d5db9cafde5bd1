//! Normalization of the texts a demo carries: chat lines and their message
//! names, crosshair codes, agent skins and custom item names.
use crate::cosmetics::{clean_text, kept_name_chars, keep_name_char, spec_clean_text};
use crate::text::{
    ascii_lower, char_is_control, chars_of, is_control, lower_vec, seq_contains, string_from_chars,
    string_of, trim, vec_contains_str, vec_slice, vec_trim,
};
use vstd::prelude::*;

verus! {

pub open spec fn opt_text(o: Option<String>) -> Option<Seq<char>> {
    match o {
        Some(s) => Some(s@),
        None => None,
    }
}

pub open spec fn opt_str_text(o: Option<&str>) -> Option<Seq<char>> {
    match o {
        Some(s) => Some(s@),
        None => None,
    }
}

/// A chat line: cleaned text of at most 256 characters.
pub fn normalize_chat_text(value: &str) -> (r: Option<String>)
    ensures
        opt_text(r) == spec_clean_text(value@, 256),
{
    clean_text(value, 256)
}

/// `char::is_ascii_alphanumeric`.
pub open spec fn is_ascii_alnum(c: char) -> bool {
    ('a' <= c && c <= 'z') || ('A' <= c && c <= 'Z') || ('0' <= c && c <= '9')
}

fn char_is_ascii_alnum(c: char) -> (r: bool)
    ensures
        r == is_ascii_alnum(c),
{
    ('a' <= c && c <= 'z') || ('A' <= c && c <= 'Z') || ('0' <= c && c <= '9')
}

pub open spec fn message_name_char(c: char) -> bool {
    is_ascii_alnum(c) || c == '_' || c == '#'
}

pub open spec fn kept_message_name_chars(s: Seq<char>) -> Seq<char>
    decreases s.len(),
{
    if s.len() == 0 {
        seq![]
    } else if message_name_char(s.last()) {
        kept_message_name_chars(s.drop_last()).push(s.last())
    } else {
        kept_message_name_chars(s.drop_last())
    }
}

/// A chat message name: the trimmed name's letters, digits, `_` and `#`, at
/// most 96 of them; empty means none.
pub open spec fn spec_chat_message_name(v: Seq<char>) -> Option<Seq<char>> {
    let kept = kept_message_name_chars(trim(v));
    let capped = if kept.len() > 96 {
        kept.take(96)
    } else {
        kept
    };
    if capped.len() > 0 {
        Some(capped)
    } else {
        None
    }
}

pub fn normalize_chat_message_name(value: &str) -> (r: Option<String>)
    ensures
        opt_text(r) == spec_chat_message_name(value@),
{
    let raw = chars_of(value);
    let trimmed = vec_trim(&raw);
    let mut kept: Vec<char> = Vec::new();
    let mut i: usize = 0;
    while i < trimmed.len()
        invariant
            i <= trimmed.len(),
            kept@ == kept_message_name_chars(trimmed@.subrange(0, i as int)),
        decreases trimmed.len() - i,
    {
        let c = trimmed[i];
        if char_is_ascii_alnum(c) || c == '_' || c == '#' {
            kept.push(c);
        }
        assert(trimmed@.subrange(0, i + 1).drop_last() =~= trimmed@.subrange(0, i as int));
        i = i + 1;
    }
    assert(trimmed@.subrange(0, trimmed.len() as int) =~= trimmed@);
    let capped = if kept.len() > 96 {
        vec_slice(&kept, 0, 96)
    } else {
        kept
    };
    if capped.len() > 0 {
        Some(string_from_chars(&capped))
    } else {
        None
    }
}

/// Number of leading `#` characters.
pub open spec fn leading_hashes(s: Seq<char>) -> nat
    decreases s.len(),
{
    if s.len() > 0 && s[0] == '#' {
        1 + leading_hashes(s.drop_first())
    } else {
        0
    }
}

proof fn lemma_leading_hashes(s: Seq<char>, n: int)
    requires
        0 <= n <= s.len(),
        forall|i: int| 0 <= i < n ==> #[trigger] s[i] == '#',
        n < s.len() ==> s[n] != '#',
    ensures
        leading_hashes(s) == n,
    decreases n,
{
    if n > 0 {
        assert forall|i: int| 0 <= i < n - 1 implies #[trigger] s.drop_first()[i] == '#' by {
            assert(s.drop_first()[i] == s[i + 1]);
        }
        if n < s.len() {
            assert(s.drop_first()[n - 1] == s[n]);
        }
        lemma_leading_hashes(s.drop_first(), n - 1);
    }
}

/// The message name without leading `#`, lower-cased; empty when there is
/// no name.
pub open spec fn message_kind_text(name: Option<Seq<char>>) -> Seq<char> {
    let n = match name {
        Some(v) => v,
        None => Seq::<char>::empty(),
    };
    ascii_lower(n.skip(leading_hashes(n) as int))
}

fn message_kind_chars(name: Option<&str>) -> (r: Vec<char>)
    ensures
        r@ == message_kind_text(opt_str_text(name)),
{
    let raw: Vec<char> = match name {
        Some(v) => chars_of(v),
        None => Vec::new(),
    };
    let mut n: usize = 0;
    while n < raw.len() && raw[n] == '#'
        invariant
            n <= raw.len(),
            forall|i: int| 0 <= i < n ==> #[trigger] raw@[i] == '#',
        decreases raw.len() - n,
    {
        n = n + 1;
    }
    proof {
        lemma_leading_hashes(raw@, n as int);
        assert(raw@.subrange(n as int, raw@.len() as int) =~= raw@.skip(n as int));
        match name {
            Some(v) => {},
            None => {
                assert(raw@ =~= Seq::<char>::empty());
            },
        }
    }
    let rest = vec_slice(&raw, n, raw.len());
    lower_vec(&rest)
}

/// A chat event is replayed when it says it is chat, or its message name
/// speaks of chat, the server or an admin.
pub open spec fn spec_supported_chat_message(name: Option<Seq<char>>, chat: Option<bool>) -> bool {
    let k = message_kind_text(name);
    chat == Some(true) || seq_contains(k, "chat"@) || seq_contains(k, "server"@) || seq_contains(k, "admin"@)
}

pub fn is_supported_chat_message(message_name: Option<&str>, chat: Option<bool>) -> (r: bool)
    ensures
        r == spec_supported_chat_message(opt_str_text(message_name), chat),
{
    if chat == Some(true) {
        return true;
    }
    let k = message_kind_chars(message_name);
    vec_contains_str(&k, "chat") || vec_contains_str(&k, "server") || vec_contains_str(&k, "admin")
}

/// The audience of a chat line from its message name: `server` for server
/// and admin messages, `all` for all-chat, `team` for team chat, else `all`.
pub open spec fn spec_chat_scope(name: Option<Seq<char>>) -> Seq<char> {
    let k = message_kind_text(name);
    if seq_contains(k, "server"@) || seq_contains(k, "admin"@) {
        "server"@
    } else if seq_contains(k, "all"@) {
        "all"@
    } else if seq_contains(k, "team"@) || seq_contains(k, "chat_t"@) || seq_contains(k, "chat_ct"@) {
        "team"@
    } else {
        "all"@
    }
}

pub fn infer_chat_scope(message_name: Option<&str>) -> (r: String)
    ensures
        r@ == spec_chat_scope(opt_str_text(message_name)),
{
    let k = message_kind_chars(message_name);
    if vec_contains_str(&k, "server") || vec_contains_str(&k, "admin") {
        string_of("server")
    } else if vec_contains_str(&k, "all") {
        string_of("all")
    } else if vec_contains_str(&k, "team") || vec_contains_str(&k, "chat_t") || vec_contains_str(&k, "chat_ct") {
        string_of("team")
    } else {
        string_of("all")
    }
}


/// Bytes of a character in UTF-8.
pub open spec fn utf8_width(c: char) -> nat {
    let u = c as u32;
    if u < 0x80 {
        1
    } else if u < 0x800 {
        2
    } else if u < 0x10000 {
        3
    } else {
        4
    }
}

/// Bytes of a character sequence in UTF-8 (`str::len`).
pub open spec fn utf8_len(s: Seq<char>) -> nat
    decreases s.len(),
{
    if s.len() == 0 {
        0
    } else {
        utf8_len(s.drop_last()) + utf8_width(s.last())
    }
}

proof fn lemma_utf8_len_prefix(s: Seq<char>, k: int)
    requires
        0 <= k <= s.len(),
    ensures
        utf8_len(s.take(k)) <= utf8_len(s),
    decreases s.len() - k,
{
    if k < s.len() {
        lemma_utf8_len_prefix(s, k + 1);
        assert(s.take(k + 1).drop_last() =~= s.take(k));
    } else {
        assert(s.take(k) =~= s);
    }
}

/// Whether the UTF-8 encoding of `s` is longer than `limit` bytes.
fn utf8_longer_than(s: &Vec<char>, limit: usize) -> (r: bool)
    requires
        limit <= 1024,
    ensures
        r == (utf8_len(s@) > limit),
{
    let mut total: usize = 0;
    let mut k: usize = 0;
    while k < s.len()
        invariant
            k <= s.len(),
            limit <= 1024,
            total == utf8_len(s@.take(k as int)),
            total <= limit,
        decreases s.len() - k,
    {
        let u = s[k] as u32;
        let w: usize = if u < 0x80 {
            1
        } else if u < 0x800 {
            2
        } else if u < 0x10000 {
            3
        } else {
            4
        };
        proof {
            assert(s@.take(k + 1).drop_last() =~= s@.take(k as int));
        }
        total = total + w;
        k = k + 1;
        if total > limit {
            proof {
                lemma_utf8_len_prefix(s@, k as int);
            }
            return true;
        }
    }
    proof {
        assert(s@.take(s@.len() as int) =~= s@);
    }
    false
}

/// A crosshair share code: trimmed, at most 128 bytes; empty means none.
pub open spec fn spec_crosshair_code(v: Seq<char>) -> Option<Seq<char>> {
    let t = trim(v);
    if t.len() == 0 || utf8_len(t) > 128 {
        None
    } else {
        Some(t)
    }
}

pub fn normalize_crosshair_code(value: &str) -> (r: Option<String>)
    ensures
        opt_text(r) == spec_crosshair_code(value@),
{
    let raw = chars_of(value);
    let trimmed = vec_trim(&raw);
    if trimmed.len() == 0 || utf8_longer_than(&trimmed, 128) {
        None
    } else {
        Some(string_from_chars(&trimmed))
    }
}

pub open spec fn agent_skin_char(c: char) -> bool {
    is_ascii_alnum(c) || c == '_'
}

/// An agent skin name: trimmed, non-empty, at most 128 bytes of letters,
/// digits and `_`, lower-cased.
pub open spec fn spec_agent_skin(v: Seq<char>) -> Option<Seq<char>> {
    let t = trim(v);
    if t.len() == 0 || utf8_len(t) > 128 || !(forall|i: int| 0 <= i < t.len() ==> agent_skin_char(#[trigger] t[i])) {
        None
    } else {
        Some(ascii_lower(t))
    }
}

pub fn normalize_agent_skin(value: &str) -> (r: Option<String>)
    ensures
        opt_text(r) == spec_agent_skin(value@),
{
    let raw = chars_of(value);
    let trimmed = vec_trim(&raw);
    if trimmed.len() == 0 || utf8_longer_than(&trimmed, 128) {
        return None;
    }
    let mut i: usize = 0;
    while i < trimmed.len()
        invariant
            i <= trimmed.len(),
            trimmed@ == trim(value@),
            trimmed@.len() > 0 && utf8_len(trimmed@) <= 128,
            forall|j: int| 0 <= j < i ==> agent_skin_char(#[trigger] trimmed@[j]),
        decreases trimmed.len() - i,
    {
        let c = trimmed[i];
        if !(char_is_ascii_alnum(c) || c == '_') {
            assert(!agent_skin_char(trimmed@[i as int]));
            return None;
        }
        i = i + 1;
    }
    let lower = lower_vec(&trimmed);
    Some(string_from_chars(&lower))
}

/// Number of leading NUL characters.
pub open spec fn leading_nuls(s: Seq<char>) -> nat
    decreases s.len(),
{
    if s.len() > 0 && s[0] == '\0' {
        1 + leading_nuls(s.drop_first())
    } else {
        0
    }
}

/// Number of trailing NUL characters.
pub open spec fn trailing_nuls(s: Seq<char>) -> nat
    decreases s.len(),
{
    if s.len() > 0 && s.last() == '\0' {
        1 + trailing_nuls(s.drop_last())
    } else {
        0
    }
}

proof fn lemma_leading_nuls(s: Seq<char>, n: int)
    requires
        0 <= n <= s.len(),
        forall|i: int| 0 <= i < n ==> #[trigger] s[i] == '\0',
        n < s.len() ==> s[n] != '\0',
    ensures
        leading_nuls(s) == n,
    decreases n,
{
    if n > 0 {
        assert forall|i: int| 0 <= i < n - 1 implies #[trigger] s.drop_first()[i] == '\0' by {
            assert(s.drop_first()[i] == s[i + 1]);
        }
        if n < s.len() {
            assert(s.drop_first()[n - 1] == s[n]);
        }
        lemma_leading_nuls(s.drop_first(), n - 1);
    }
}

proof fn lemma_trailing_nuls(s: Seq<char>, n: int)
    requires
        0 <= n <= s.len(),
        forall|i: int| s.len() - n <= i < s.len() ==> #[trigger] s[i] == '\0',
        n < s.len() ==> s[s.len() - n - 1] != '\0',
    ensures
        trailing_nuls(s) == n,
    decreases n,
{
    if n > 0 {
        assert forall|i: int| s.len() - 1 - (n - 1) <= i < s.len() - 1 implies #[trigger] s.drop_last()[i] == '\0' by {
            assert(s.drop_last()[i] == s[i]);
        }
        if n < s.len() {
            assert(s.drop_last()[s.len() - 1 - (n - 1) - 1] == s[s.len() - n - 1]);
        }
        lemma_trailing_nuls(s.drop_last(), n - 1);
    }
}

/// `str::trim_matches('\0')`.
pub open spec fn trim_nuls(s: Seq<char>) -> Seq<char> {
    let e = s.subrange(0, s.len() - trailing_nuls(s));
    e.subrange(leading_nuls(e) as int, e.len() as int)
}

fn vec_trim_nuls(s: &Vec<char>) -> (r: Vec<char>)
    ensures
        r@ == trim_nuls(s@),
{
    let mut t: usize = 0;
    while t < s.len() && s[s.len() - 1 - t] == '\0'
        invariant
            t <= s.len(),
            forall|i: int| s.len() - t <= i < s.len() ==> #[trigger] s@[i] == '\0',
        decreases s.len() - t,
    {
        t = t + 1;
    }
    proof {
        lemma_trailing_nuls(s@, t as int);
    }
    let e = vec_slice(s, 0, s.len() - t);
    let mut l: usize = 0;
    while l < e.len() && e[l] == '\0'
        invariant
            l <= e.len(),
            forall|i: int| 0 <= i < l ==> #[trigger] e@[i] == '\0',
        decreases e.len() - l,
    {
        l = l + 1;
    }
    proof {
        lemma_leading_nuls(e@, l as int);
    }
    vec_slice(&e, l, e.len())
}

/// A custom item name: trimmed of whitespace and NULs, without control
/// characters (tab kept), trimmed again, at most 128 characters; empty means
/// none.
pub open spec fn spec_custom_name_text(v: Seq<char>) -> Option<Seq<char>> {
    let t = trim(trim_nuls(trim(v)));
    let c = trim(kept_name_chars(t));
    if t.len() == 0 || c.len() == 0 {
        None
    } else if c.len() > 128 {
        Some(c.take(128))
    } else {
        Some(c)
    }
}

pub fn normalize_custom_name(value: &str) -> (r: Option<String>)
    ensures
        opt_text(r) == spec_custom_name_text(value@),
{
    let raw = chars_of(value);
    let first = vec_trim(&raw);
    let stripped = vec_trim_nuls(&first);
    let trimmed = vec_trim(&stripped);
    if trimmed.len() == 0 {
        return None;
    }
    let mut kept: Vec<char> = Vec::new();
    let mut i: usize = 0;
    while i < trimmed.len()
        invariant
            i <= trimmed.len(),
            kept@ == kept_name_chars(trimmed@.subrange(0, i as int)),
        decreases trimmed.len() - i,
    {
        let c = trimmed[i];
        if !char_is_control(c) || c == '\t' {
            kept.push(c);
        }
        assert(trimmed@.subrange(0, i + 1).drop_last() =~= trimmed@.subrange(0, i as int));
        i = i + 1;
    }
    assert(trimmed@.subrange(0, trimmed.len() as int) =~= trimmed@);
    let cleaned = vec_trim(&kept);
    if cleaned.len() == 0 {
        None
    } else if cleaned.len() > 128 {
        let capped = vec_slice(&cleaned, 0, 128);
        Some(string_from_chars(&capped))
    } else {
        Some(string_from_chars(&cleaned))
    }
}

} // verus!
