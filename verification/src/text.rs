//! Character-sequence helpers shared by the name and path rules.
use vstd::prelude::*;
use vstd::string::*;

verus! {

/// ASCII-only lower casing of one character, as `char::to_ascii_lowercase` does.
pub open spec fn lower_char(c: char) -> char {
    if 'A' <= c && c <= 'Z' {
        ((c as u32) + 32) as char
    } else {
        c
    }
}

/// ASCII-only lower casing of a character sequence.
pub open spec fn ascii_lower(s: Seq<char>) -> Seq<char> {
    Seq::new(s.len(), |i: int| lower_char(s[i]))
}

/// Case-insensitive (ASCII) equality, as `str::eq_ignore_ascii_case` does.
pub open spec fn eq_ignore_ascii_case(a: Seq<char>, b: Seq<char>) -> bool {
    ascii_lower(a) == ascii_lower(b)
}

/// `pat` occurs in `hay` as a contiguous run.
pub open spec fn seq_contains(hay: Seq<char>, pat: Seq<char>) -> bool {
    exists|i: int| 0 <= i && i + pat.len() <= hay.len() && #[trigger] hay.subrange(i, i + pat.len()) == pat
}

/// `s` ends with `suffix`.
pub open spec fn ends_with(s: Seq<char>, suffix: Seq<char>) -> bool {
    suffix.len() <= s.len() && s.subrange(s.len() - suffix.len(), s.len() as int) == suffix
}

/// `s` starts with `prefix`.
pub open spec fn starts_with(s: Seq<char>, prefix: Seq<char>) -> bool {
    prefix.len() <= s.len() && s.subrange(0, prefix.len() as int) == prefix
}

/// Unicode `White_Space`, the property behind `char::is_whitespace`.
pub open spec fn is_whitespace(c: char) -> bool {
    let u = c as u32;
    (0x09 <= u && u <= 0x0d) || u == 0x20 || u == 0x85 || u == 0xa0 || u == 0x1680 || (0x2000 <= u
        && u <= 0x200a) || u == 0x2028 || u == 0x2029 || u == 0x202f || u == 0x205f || u == 0x3000
}

/// General category `Cc`, the property behind `char::is_control`.
pub open spec fn is_control(c: char) -> bool {
    let u = c as u32;
    u <= 0x1f || (0x7f <= u && u <= 0x9f)
}

/// Number of leading whitespace characters.
pub open spec fn leading_ws(s: Seq<char>) -> nat
    decreases s.len(),
{
    if s.len() > 0 && is_whitespace(s[0]) {
        1 + leading_ws(s.drop_first())
    } else {
        0
    }
}

/// Number of trailing whitespace characters.
pub open spec fn trailing_ws(s: Seq<char>) -> nat
    decreases s.len(),
{
    if s.len() > 0 && is_whitespace(s.last()) {
        1 + trailing_ws(s.drop_last())
    } else {
        0
    }
}

/// `str::trim_end`: the sequence without its trailing whitespace.
pub open spec fn trim_end(s: Seq<char>) -> Seq<char> {
    s.subrange(0, s.len() - trailing_ws(s))
}

/// `str::trim`: the sequence without leading and trailing whitespace.
pub open spec fn trim(s: Seq<char>) -> Seq<char> {
    let t = trim_end(s);
    t.subrange(leading_ws(t) as int, t.len() as int)
}

pub proof fn lemma_leading_ws_bound(s: Seq<char>)
    ensures
        leading_ws(s) <= s.len(),
        forall|i: int| 0 <= i < leading_ws(s) ==> is_whitespace(#[trigger] s[i]),
        leading_ws(s) < s.len() ==> !is_whitespace(s[leading_ws(s) as int]),
    decreases s.len(),
{
    if s.len() > 0 && is_whitespace(s[0]) {
        lemma_leading_ws_bound(s.drop_first());
        assert forall|i: int| 0 <= i < leading_ws(s) implies is_whitespace(#[trigger] s[i]) by {
            if i > 0 {
                assert(s[i] == s.drop_first()[i - 1]);
            }
        }
    }
}

pub proof fn lemma_trailing_ws_bound(s: Seq<char>)
    ensures
        trailing_ws(s) <= s.len(),
        forall|i: int| s.len() - trailing_ws(s) <= i < s.len() ==> is_whitespace(#[trigger] s[i]),
        trailing_ws(s) < s.len() ==> !is_whitespace(s[s.len() - trailing_ws(s) - 1]),
    decreases s.len(),
{
    if s.len() > 0 && is_whitespace(s.last()) {
        lemma_trailing_ws_bound(s.drop_last());
        assert forall|i: int| s.len() - trailing_ws(s) <= i < s.len() implies is_whitespace(
            #[trigger] s[i],
        ) by {
            if i < s.len() - 1 {
                assert(s[i] == s.drop_last()[i]);
            }
        }
    }
}

/// Leading-whitespace count, characterised without recursion.
pub proof fn lemma_leading_ws_char(s: Seq<char>, n: int)
    requires
        0 <= n <= s.len(),
        forall|i: int| 0 <= i < n ==> is_whitespace(#[trigger] s[i]),
        n < s.len() ==> !is_whitespace(s[n]),
    ensures
        leading_ws(s) == n,
    decreases s.len(),
{
    if n > 0 {
        assert(is_whitespace(s[0]));
        assert forall|i: int| 0 <= i < n - 1 implies is_whitespace(#[trigger] s.drop_first()[i]) by {
            assert(s.drop_first()[i] == s[i + 1]);
        }
        if n < s.len() {
            assert(s.drop_first()[n - 1] == s[n]);
        }
        lemma_leading_ws_char(s.drop_first(), n - 1);
    }
}

/// Trailing-whitespace count, characterised without recursion.
pub proof fn lemma_trailing_ws_char(s: Seq<char>, n: int)
    requires
        0 <= n <= s.len(),
        forall|i: int| s.len() - n <= i < s.len() ==> is_whitespace(#[trigger] s[i]),
        n < s.len() ==> !is_whitespace(s[s.len() - n - 1]),
    ensures
        trailing_ws(s) == n,
    decreases s.len(),
{
    if n > 0 {
        assert(is_whitespace(s[s.len() - 1]));
        assert forall|i: int| s.drop_last().len() - (n - 1) <= i < s.drop_last().len() implies is_whitespace(
            #[trigger] s.drop_last()[i],
        ) by {
            assert(s.drop_last()[i] == s[i]);
        }
        if n < s.len() {
            assert(s.drop_last()[s.drop_last().len() - (n - 1) - 1] == s[s.len() - n - 1]);
        }
        lemma_trailing_ws_char(s.drop_last(), n - 1);
    }
}

pub fn char_is_whitespace(c: char) -> (b: bool)
    ensures
        b == is_whitespace(c),
{
    let u = c as u32;
    (0x09 <= u && u <= 0x0d) || u == 0x20 || u == 0x85 || u == 0xa0 || u == 0x1680 || (0x2000 <= u
        && u <= 0x200a) || u == 0x2028 || u == 0x2029 || u == 0x202f || u == 0x205f || u == 0x3000
}

pub fn char_is_control(c: char) -> (b: bool)
    ensures
        b == is_control(c),
{
    let u = c as u32;
    u <= 0x1f || (0x7f <= u && u <= 0x9f)
}

pub fn to_lower_char(c: char) -> (r: char)
    ensures
        r == lower_char(c),
{
    if 'A' <= c && c <= 'Z' {
        ((c as u8) + 32) as char
    } else {
        c
    }
}

/// The characters of a string slice.
pub fn chars_of(s: &str) -> (v: Vec<char>)
    ensures
        v@ == s@,
{
    let n = s.unicode_len();
    let mut v: Vec<char> = Vec::new();
    let mut i: usize = 0;
    while i < n
        invariant
            n == s@.len(),
            i <= n,
            v@ == s@.subrange(0, i as int),
        decreases n - i,
    {
        v.push(s.get_char(i));
        i = i + 1;
    }
    v
}

/// ASCII lower-cased characters of a sequence.
pub fn lower_vec(s: &Vec<char>) -> (v: Vec<char>)
    ensures
        v@ == ascii_lower(s@),
{
    let mut v: Vec<char> = Vec::new();
    let mut i: usize = 0;
    while i < s.len()
        invariant
            i <= s.len(),
            v@ == ascii_lower(s@.subrange(0, i as int)),
        decreases s.len() - i,
    {
        v.push(to_lower_char(s[i]));
        i = i + 1;
        assert(v@ =~= ascii_lower(s@.subrange(0, i as int)));
    }
    assert(s@.subrange(0, s.len() as int) =~= s@);
    v
}

/// ASCII lower-cased characters of a string slice.
pub fn lower_chars_of(s: &str) -> (v: Vec<char>)
    ensures
        v@ == ascii_lower(s@),
{
    let c = chars_of(s);
    lower_vec(&c)
}

/// `str::eq_ignore_ascii_case` on character sequences.
pub fn vec_eq_ignore_ascii_case(a: &Vec<char>, b: &Vec<char>) -> (r: bool)
    ensures
        r == eq_ignore_ascii_case(a@, b@),
{
    let la = lower_vec(a);
    let lb = lower_vec(b);
    vec_eq(&la, &lb)
}

/// Exact equality of two character sequences.
pub fn vec_eq(a: &Vec<char>, b: &Vec<char>) -> (r: bool)
    ensures
        r == (a@ == b@),
{
    if a.len() != b.len() {
        return false;
    }
    let mut i: usize = 0;
    while i < a.len()
        invariant
            a.len() == b.len(),
            i <= a.len(),
            forall|j: int| 0 <= j < i ==> a@[j] == b@[j],
        decreases a.len() - i,
    {
        if a[i] != b[i] {
            return false;
        }
        i = i + 1;
    }
    assert(a@ =~= b@);
    true
}

/// Whether `pat` occurs in `hay` starting at `at`.
pub fn matches_at(hay: &Vec<char>, pat: &Vec<char>, at: usize) -> (r: bool)
    requires
        at + pat.len() <= hay.len(),
    ensures
        r == (hay@.subrange(at as int, at + pat.len()) == pat@),
{
    let mut j: usize = 0;
    while j < pat.len()
        invariant
            at + pat.len() <= hay.len(),
            j <= pat.len(),
            forall|k: int| 0 <= k < j ==> hay@[at + k] == pat@[k],
        decreases pat.len() - j,
    {
        if hay[at + j] != pat[j] {
            assert(hay@.subrange(at as int, at + pat.len())[j as int] != pat@[j as int]);
            return false;
        }
        j = j + 1;
    }
    assert(hay@.subrange(at as int, at + pat.len()) =~= pat@);
    true
}

/// Whether `pat` occurs anywhere in `hay`.
pub fn vec_contains(hay: &Vec<char>, pat: &Vec<char>) -> (r: bool)
    ensures
        r == seq_contains(hay@, pat@),
{
    if pat.len() > hay.len() {
        return false;
    }
    if pat.len() == 0 {
        assert(hay@.subrange(0, 0 + pat.len()) =~= pat@);
        return true;
    }
    let count = hay.len() - pat.len() + 1;
    let mut i: usize = 0;
    while i < count
        invariant
            count == hay.len() - pat.len() + 1,
            1 <= pat.len() <= hay.len(),
            i <= count,
            forall|k: int| 0 <= k < i ==> #[trigger] hay@.subrange(k, k + pat.len()) != pat@,
        decreases count - i,
    {
        if matches_at(hay, pat, i) {
            return true;
        }
        i = i + 1;
    }
    false
}

/// Whether the literal-like text `pat` occurs in `hay`.
pub fn vec_contains_str(hay: &Vec<char>, pat: &str) -> (r: bool)
    ensures
        r == seq_contains(hay@, pat@),
{
    let p = chars_of(pat);
    vec_contains(hay, &p)
}

/// Whether `s` ends with `suffix`.
pub fn vec_ends_with(s: &Vec<char>, suffix: &Vec<char>) -> (r: bool)
    ensures
        r == ends_with(s@, suffix@),
{
    if suffix.len() > s.len() {
        return false;
    }
    matches_at(s, suffix, s.len() - suffix.len())
}

/// Whether `s` starts with `prefix`.
pub fn vec_starts_with(s: &Vec<char>, prefix: &Vec<char>) -> (r: bool)
    ensures
        r == starts_with(s@, prefix@),
{
    if prefix.len() > s.len() {
        return false;
    }
    matches_at(s, prefix, 0)
}

/// The run `s[from..to]`.
pub fn vec_slice(s: &Vec<char>, from: usize, to: usize) -> (r: Vec<char>)
    requires
        from <= to <= s.len(),
    ensures
        r@ == s@.subrange(from as int, to as int),
{
    let mut r: Vec<char> = Vec::new();
    let mut i: usize = from;
    while i < to
        invariant
            from <= i <= to <= s.len(),
            r@ == s@.subrange(from as int, i as int),
        decreases to - i,
    {
        r.push(s[i]);
        i = i + 1;
        assert(r@ =~= s@.subrange(from as int, i as int));
    }
    r
}

/// Count of trailing whitespace of `s`, computed.
pub fn trailing_ws_count(s: &Vec<char>) -> (n: usize)
    ensures
        n == trailing_ws(s@),
{
    let mut n: usize = 0;
    while n < s.len() && char_is_whitespace(s[s.len() - 1 - n])
        invariant
            n <= s.len(),
            forall|i: int| s.len() - n <= i < s.len() ==> is_whitespace(#[trigger] s@[i]),
        decreases s.len() - n,
    {
        n = n + 1;
    }
    proof {
        lemma_trailing_ws_char(s@, n as int);
    }
    n
}

/// Count of leading whitespace of `s`, computed.
pub fn leading_ws_count(s: &Vec<char>) -> (n: usize)
    ensures
        n == leading_ws(s@),
{
    let mut n: usize = 0;
    while n < s.len() && char_is_whitespace(s[n])
        invariant
            n <= s.len(),
            forall|i: int| 0 <= i < n ==> is_whitespace(#[trigger] s@[i]),
        decreases s.len() - n,
    {
        n = n + 1;
    }
    proof {
        lemma_leading_ws_char(s@, n as int);
    }
    n
}

/// `str::trim_end` on a character sequence.
pub fn vec_trim_end(s: &Vec<char>) -> (r: Vec<char>)
    ensures
        r@ == trim_end(s@),
{
    let n = trailing_ws_count(s);
    proof {
        lemma_trailing_ws_bound(s@);
    }
    vec_slice(s, 0, s.len() - n)
}

/// `str::trim` on a character sequence.
pub fn vec_trim(s: &Vec<char>) -> (r: Vec<char>)
    ensures
        r@ == trim(s@),
{
    let t = vec_trim_end(s);
    let n = leading_ws_count(&t);
    proof {
        lemma_leading_ws_bound(t@);
    }
    vec_slice(&t, n, t.len())
}

/// Appends one character to an owned string (`String::push`).
#[verifier::external_body]
pub(crate) fn push_char(s: &mut String, c: char)
    ensures
        final(s)@ == old(s)@.push(c),
{
    s.push(c);
}

/// The owned string holding exactly the given characters.
pub fn string_from_chars(v: &Vec<char>) -> (s: String)
    ensures
        s@ == v@,
{
    let mut s = String::new();
    let mut i: usize = 0;
    while i < v.len()
        invariant
            i <= v.len(),
            s@ == v@.subrange(0, i as int),
        decreases v.len() - i,
    {
        push_char(&mut s, v[i]);
        i = i + 1;
        assert(s@ =~= v@.subrange(0, i as int));
    }
    assert(v@.subrange(0, v.len() as int) =~= v@);
    s
}

/// An owned copy of a string slice.
pub fn string_of(s: &str) -> (r: String)
    ensures
        r@ == s@,
{
    String::from_str(s)
}

/// Concatenation of two owned texts.
pub fn concat_str(a: String, b: &str) -> (r: String)
    ensures
        r@ == a@ + b@,
{
    a.concat(b)
}

/// Decimal digits of a natural number, most significant first.
pub open spec fn decimal(n: nat) -> Seq<char>
    decreases n,
{
    if n < 10 {
        seq![(48 + n) as char]
    } else {
        decimal(n / 10).push((48 + n % 10) as char)
    }
}

/// Decimal text of an integer, with a leading `-` when negative.
pub open spec fn signed_decimal(n: int) -> Seq<char> {
    if n < 0 {
        seq!['-'] + decimal((-n) as nat)
    } else {
        decimal(n as nat)
    }
}

/// Appends the decimal digits of `n` to `out`.
fn push_decimal(out: &mut String, n: u64)
    ensures
        final(out)@ == old(out)@ + decimal(n as nat),
    decreases n,
{
    if n >= 10 {
        push_decimal(out, n / 10);
    }
    let d = (n % 10) as u8;
    let c = (48u8 + d) as char;
    proof {
        assert(c == (48 + (n as nat) % 10) as char);
    }
    push_char(out, c);
    proof {
        if n < 10 {
            assert(decimal(n as nat) == seq![c]);
        } else {
            assert(decimal(n as nat) == decimal((n / 10) as nat).push(c));
        }
    }
}

/// Decimal text of an unsigned number (`u64::to_string`).
pub fn u64_decimal(n: u64) -> (r: String)
    ensures
        r@ == decimal(n as nat),
{
    let mut out = String::new();
    push_decimal(&mut out, n);
    proof {
        assert(seq![] + decimal(n as nat) =~= decimal(n as nat));
    }
    out
}

/// Decimal text of a signed number (`i64::to_string`).
pub fn i64_decimal(n: i64) -> (r: String)
    ensures
        r@ == signed_decimal(n as int),
{
    if n < 0 {
        let magnitude: u64 = if n == i64::MIN {
            9_223_372_036_854_775_808u64
        } else {
            (-n) as u64
        };
        let digits = u64_decimal(magnitude);
        let minus = string_of("-");
        proof {
            reveal_strlit("-");
        }
        concat_str(minus, digits.as_str())
    } else {
        u64_decimal(n as u64)
    }
}

/// Lexicographic order of character sequences by code point, the order of
/// `String`'s `Ord` (UTF-8 byte order and code point order agree).
pub open spec fn lex_lt(a: Seq<char>, b: Seq<char>) -> bool
    decreases a.len(),
{
    if b.len() == 0 {
        false
    } else if a.len() == 0 {
        true
    } else if a[0] != b[0] {
        a[0] < b[0]
    } else {
        lex_lt(a.drop_first(), b.drop_first())
    }
}

pub proof fn lemma_lex_irreflexive(a: Seq<char>)
    ensures
        !lex_lt(a, a),
    decreases a.len(),
{
    if a.len() > 0 {
        lemma_lex_irreflexive(a.drop_first());
    }
}

pub proof fn lemma_lex_total(a: Seq<char>, b: Seq<char>)
    ensures
        a == b || lex_lt(a, b) || lex_lt(b, a),
        !(lex_lt(a, b) && lex_lt(b, a)),
    decreases a.len(),
{
    if a.len() > 0 && b.len() > 0 && a[0] == b[0] {
        lemma_lex_total(a.drop_first(), b.drop_first());
        if a.drop_first() == b.drop_first() {
            assert(a =~= seq![a[0]] + a.drop_first());
            assert(b =~= seq![b[0]] + b.drop_first());
        }
    } else if a.len() == 0 && b.len() == 0 {
        assert(a =~= b);
    } else if a.len() > 0 && b.len() > 0 {
        assert(a[0] != b[0]);
    }
}

pub proof fn lemma_lex_transitive(a: Seq<char>, b: Seq<char>, c: Seq<char>)
    requires
        lex_lt(a, b),
        lex_lt(b, c),
    ensures
        lex_lt(a, c),
    decreases a.len(),
{
    if a.len() > 0 && a[0] == b[0] && b[0] == c[0] {
        lemma_lex_transitive(a.drop_first(), b.drop_first(), c.drop_first());
    }
}

proof fn lemma_lex_skip(a: Seq<char>, b: Seq<char>, i: int)
    requires
        0 <= i <= a.len(),
        i <= b.len(),
        a.subrange(0, i) == b.subrange(0, i),
    ensures
        lex_lt(a, b) == lex_lt(a.subrange(i, a.len() as int), b.subrange(i, b.len() as int)),
    decreases i,
{
    if i > 0 {
        assert(a[0] == a.subrange(0, i)[0]);
        assert(b[0] == b.subrange(0, i)[0]);
        assert(a.drop_first().subrange(0, i - 1) =~= a.subrange(1, i));
        assert(b.drop_first().subrange(0, i - 1) =~= b.subrange(1, i));
        assert(a.subrange(1, i) =~= a.subrange(0, i).drop_first());
        assert(b.subrange(1, i) =~= b.subrange(0, i).drop_first());
        lemma_lex_skip(a.drop_first(), b.drop_first(), i - 1);
        assert(a.drop_first().subrange(i - 1, a.len() - 1) =~= a.subrange(i, a.len() as int));
        assert(b.drop_first().subrange(i - 1, b.len() - 1) =~= b.subrange(i, b.len() as int));
    } else {
        assert(a.subrange(0, a.len() as int) =~= a);
        assert(b.subrange(0, b.len() as int) =~= b);
    }
}

/// Three-way lexicographic comparison: negative, zero or positive.
pub fn lex_compare(a: &Vec<char>, b: &Vec<char>) -> (r: i8)
    ensures
        (r < 0) == lex_lt(a@, b@),
        (r == 0) == (a@ == b@),
        (r > 0) == lex_lt(b@, a@),
{
    let mut i: usize = 0;
    while i < a.len() && i < b.len() && a[i] == b[i]
        invariant
            i <= a.len(),
            i <= b.len(),
            a@.subrange(0, i as int) == b@.subrange(0, i as int),
        decreases a.len() - i,
    {
        assert(a@.subrange(0, i + 1) =~= a@.subrange(0, i as int).push(a@[i as int]));
        assert(b@.subrange(0, i + 1) =~= b@.subrange(0, i as int).push(b@[i as int]));
        i = i + 1;
    }
    proof {
        lemma_lex_skip(a@, b@, i as int);
        lemma_lex_skip(b@, a@, i as int);
        lemma_lex_total(a@, b@);
        lemma_lex_irreflexive(a@);
        let ta = a@.subrange(i as int, a.len() as int);
        let tb = b@.subrange(i as int, b.len() as int);
        if i < a.len() && i < b.len() {
            assert(ta[0] == a@[i as int] && tb[0] == b@[i as int]);
        }
        if i == a.len() && i == b.len() {
            assert(a@ =~= a@.subrange(0, i as int));
            assert(b@ =~= b@.subrange(0, i as int));
        }
        if a@ == b@ {
            assert(a.len() == b.len());
        }
    }
    if i < a.len() && i < b.len() {
        if a[i] < b[i] {
            -1
        } else {
            1
        }
    } else if i < b.len() {
        -1
    } else if i < a.len() {
        1
    } else {
        0
    }
}

} // verus!
