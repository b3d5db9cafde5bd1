//! Avatar overrides a server announces in a demo: an image per player, kept
//! only where the evidence names exactly one image, with a single default
//! image for the players who have none of their own.
use crate::cosmetics::Unique;
use crate::digest::{hex_lower, sha256, sha256_hex};
use crate::game_event::{parse_u64, spec_parse_u64};
use crate::model::{AvatarImageFormat, ParsedAvatarOverride};
use crate::text::{
    chars_of, eq_ignore_ascii_case, string_from_chars, string_of, trim, vec_eq, vec_eq_ignore_ascii_case,
    vec_trim,
};
use crate::weapon_evidence::{fold_obs, observe_opt};
use vstd::prelude::*;

verus! {

/// Where the overrides come from.
pub const AVATAR_SOURCE: &'static str = "ServerAvatarOverrides";

/// The image format by its signature: PNG, JPEG, or plain bytes.
pub open spec fn spec_avatar_format(b: Seq<u8>) -> AvatarImageFormat {
    if b.len() >= 8 && b[0] == 0x89 && b[1] == 0x50 && b[2] == 0x4e && b[3] == 0x47 && b[4] == 0x0d && b[5] == 0x0a
        && b[6] == 0x1a && b[7] == 0x0a {
        AvatarImageFormat::Png
    } else if b.len() >= 3 && b[0] == 0xff && b[1] == 0xd8 && b[2] == 0xff {
        AvatarImageFormat::Jpeg
    } else {
        AvatarImageFormat::Binary
    }
}

pub fn detect_avatar_image_format(bytes: &[u8]) -> (r: AvatarImageFormat)
    ensures
        r == spec_avatar_format(bytes@),
{
    if bytes.len() >= 8 && bytes[0] == 0x89 && bytes[1] == 0x50 && bytes[2] == 0x4e && bytes[3] == 0x47
        && bytes[4] == 0x0d && bytes[5] == 0x0a && bytes[6] == 0x1a && bytes[7] == 0x0a {
        AvatarImageFormat::Png
    } else if bytes.len() >= 3 && bytes[0] == 0xff && bytes[1] == 0xd8 && bytes[2] == 0xff {
        AvatarImageFormat::Jpeg
    } else {
        AvatarImageFormat::Binary
    }
}

/// The key names the default image (trimmed, ASCII case ignored).
pub open spec fn is_default_key(k: Seq<char>) -> bool {
    eq_ignore_ascii_case(trim(k), "default"@)
}

/// The player a key names: its trimmed text read as a SteamID.
pub open spec fn own_key(k: Seq<char>) -> Option<u64> {
    if is_default_key(k) {
        None
    } else {
        spec_parse_u64(trim(k))
    }
}

/// The hash of an entry's image, when it is a non-empty image of player `p`.
pub open spec fn own_image(e: (String, Vec<u8>), p: u64) -> Option<Seq<char>> {
    if e.1@.len() > 0 && own_key(e.0@) == Some(p) {
        Some(hex_lower(sha256(e.1@)))
    } else {
        None
    }
}

/// The hash of an entry's image, when it is a non-empty default image.
pub open spec fn default_image(e: (String, Vec<u8>)) -> Option<Seq<char>> {
    if e.1@.len() > 0 && is_default_key(e.0@) {
        Some(hex_lower(sha256(e.1@)))
    } else {
        None
    }
}

pub open spec fn own_obs(p: u64) -> spec_fn((String, Vec<u8>)) -> Option<Seq<char>> {
    |e: (String, Vec<u8>)| own_image(e, p)
}

pub open spec fn default_obs() -> spec_fn((String, Vec<u8>)) -> Option<Seq<char>> {
    |e: (String, Vec<u8>)| default_image(e)
}

/// The images given for player `p`: one hash, several, or none.
pub open spec fn own_evidence(raw: Seq<(String, Vec<u8>)>, p: u64) -> Unique<Seq<char>> {
    fold_obs(raw, own_obs(p))
}

/// The default images given: one hash, several, or none.
pub open spec fn default_evidence(raw: Seq<(String, Vec<u8>)>) -> Unique<Seq<char>> {
    fold_obs(raw, default_obs())
}

/// Index of the first entry whose observation is present.
pub open spec fn first_hit(raw: Seq<(String, Vec<u8>)>, f: spec_fn((String, Vec<u8>)) -> Option<Seq<char>>) -> Option<int>
    decreases raw.len(),
{
    if raw.len() == 0 {
        None
    } else {
        match first_hit(raw.drop_last(), f) {
            Some(i) => Some(i),
            None => if f(raw.last()) is Some {
                Some(raw.len() - 1)
            } else {
                None
            },
        }
    }
}

pub open spec fn first_own(raw: Seq<(String, Vec<u8>)>, p: u64) -> int {
    first_hit(raw, own_obs(p))->0
}

pub open spec fn first_default(raw: Seq<(String, Vec<u8>)>) -> int {
    first_hit(raw, default_obs())->0
}

/// `a` is player `p`'s override made from the image `bytes`.
pub open spec fn override_from(a: ParsedAvatarOverride, p: u64, bytes: Seq<u8>) -> bool {
    &&& a.steam_id == p
    &&& a.format == spec_avatar_format(bytes)
    &&& a.sha256@ == hex_lower(sha256(bytes))
    &&& a.source@ == AVATAR_SOURCE@
    &&& a.bytes@ == bytes
}

/// Player `p` gets an override: one image of its own, or else the single
/// default image when `p` is a non-zero listed player.
pub open spec fn gets_override(raw: Seq<(String, Vec<u8>)>, players: Seq<u64>, p: u64) -> bool {
    own_evidence(raw, p) is Value || (default_evidence(raw) is Value && p != 0 && players.contains(p))
}

/// The overrides in SteamID order: one per player that gets one, made from
/// the player's first own image, or else from the first default image.
pub open spec fn avatars_listed(r: Seq<ParsedAvatarOverride>, raw: Seq<(String, Vec<u8>)>, players: Seq<u64>) -> bool {
    &&& forall|a: int, b: int| 0 <= a < b < r.len() ==> (#[trigger] r[a]).steam_id < (#[trigger] r[b]).steam_id
    &&& forall|p: u64| #[trigger] gets_override(raw, players, p) <==> exists|a: int| 0 <= a < r.len() && (#[trigger] r[a]).steam_id == p
    &&& forall|a: int| 0 <= a < r.len() ==> if own_evidence(raw, (#[trigger] r[a]).steam_id) is Value {
        override_from(r[a], r[a].steam_id, raw[first_own(raw, r[a].steam_id)].1@)
    } else {
        override_from(r[a], r[a].steam_id, raw[first_default(raw)].1@)
    }
}

proof fn lemma_fold_push(raw: Seq<(String, Vec<u8>)>, k: int, f: spec_fn((String, Vec<u8>)) -> Option<Seq<char>>)
    requires
        0 <= k < raw.len(),
    ensures
        fold_obs(raw.take(k + 1), f) == observe_opt(fold_obs(raw.take(k), f), f(raw[k])),
        first_hit(raw.take(k + 1), f) == (match first_hit(raw.take(k), f) {
            Some(i) => Some(i),
            None => if f(raw[k]) is Some {
                Some(k)
            } else {
                None
            },
        }),
{
    assert(raw.take(k + 1).drop_last() =~= raw.take(k));
    assert(raw.take(k + 1).last() == raw[k]);
}

proof fn lemma_first_hit_facts(raw: Seq<(String, Vec<u8>)>, f: spec_fn((String, Vec<u8>)) -> Option<Seq<char>>)
    ensures
        first_hit(raw, f) matches Some(i) ==> 0 <= i < raw.len() && f(raw[i]) is Some,
        first_hit(raw, f) is None <==> fold_obs(raw, f) is Missing,
        fold_obs(raw, f) matches Unique::Value(h) ==> (first_hit(raw, f) matches Some(i) && f(raw[i]) == Some(h)),
    decreases raw.len(),
{
    if raw.len() > 0 {
        lemma_first_hit_facts(raw.drop_last(), f);
        let dl = raw.drop_last();
        if let Some(i) = first_hit(dl, f) {
            assert(raw[i] == dl[i]);
        }
    }
}

/// An own image seen so far: the player, the hash of its first image, that
/// entry's index, and whether another hash was seen for the player.
struct OwnImage {
    steam_id: u64,
    hash: String,
    first: usize,
    conflict: bool,
}

/// The state an image's observation leaves: `Value(h)` kept with the first
/// index while no other hash comes.
spec fn own_state_matches(o: OwnImage, raw: Seq<(String, Vec<u8>)>, k: int) -> bool {
    let ev = own_evidence(raw.take(k), o.steam_id);
    &&& first_hit(raw.take(k), own_obs(o.steam_id)) == Some(o.first as int)
    &&& (o.conflict <==> ev is Conflict)
    &&& (!o.conflict ==> ev == Unique::Value(o.hash@))
}

proof fn lemma_own_step(raw: Seq<(String, Vec<u8>)>, k: int, o_old: OwnImage, o_new: OwnImage)
    requires
        0 <= k < raw.len(),
        own_state_matches(o_old, raw, k),
        o_new.steam_id == o_old.steam_id,
        o_new.first == o_old.first,
        match own_image(raw[k], o_old.steam_id) {
            None => o_new.conflict == o_old.conflict && o_new.hash@ == o_old.hash@,
            Some(h) => o_new.conflict == (o_old.conflict || h != o_old.hash@) && (!o_new.conflict ==> o_new.hash@ == o_old.hash@),
        },
    ensures
        own_state_matches(o_new, raw, k + 1),
{
    lemma_fold_push(raw, k, own_obs(o_old.steam_id));
    assert(own_obs(o_old.steam_id)(raw[k]) == own_image(raw[k], o_old.steam_id));
}

proof fn lemma_own_new(raw: Seq<(String, Vec<u8>)>, k: int, o: OwnImage)
    requires
        0 <= k < raw.len(),
        own_evidence(raw.take(k), o.steam_id) is Missing,
        own_image(raw[k], o.steam_id) == Some(o.hash@),
        o.first == k,
        !o.conflict,
    ensures
        own_state_matches(o, raw, k + 1),
{
    lemma_fold_push(raw, k, own_obs(o.steam_id));
    lemma_first_hit_facts(raw.take(k), own_obs(o.steam_id));
    assert(own_obs(o.steam_id)(raw[k]) == own_image(raw[k], o.steam_id));
}

fn copy_bytes(b: &Vec<u8>) -> (r: Vec<u8>)
    ensures
        r@ == b@,
{
    let mut r: Vec<u8> = Vec::new();
    let mut i: usize = 0;
    while i < b.len()
        invariant
            i <= b@.len(),
            r@ == b@.take(i as int),
        decreases b.len() - i,
    {
        r.push(b[i]);
        proof {
            assert(b@.take(i + 1) =~= b@.take(i as int).push(b@[i as int]));
        }
        i = i + 1;
    }
    proof {
        assert(b@.take(b@.len() as int) =~= b@);
    }
    r
}

fn same_text(a: &String, b: &String) -> (r: bool)
    ensures
        r == (a@ == b@),
{
    let x = chars_of(a.as_str());
    let y = chars_of(b.as_str());
    vec_eq(&x, &y)
}

/// The key classified: default, a player, or neither.
fn classify_key(key: &String) -> (r: (bool, Option<u64>))
    ensures
        r.0 == is_default_key(key@),
        r.1 == own_key(key@),
{
    let raw = chars_of(key.as_str());
    let trimmed = vec_trim(&raw);
    let word = chars_of("default");
    if vec_eq_ignore_ascii_case(&trimmed, &word) {
        return (true, None);
    }
    let text = string_from_chars(&trimmed);
    (false, parse_u64(text.as_str()))
}

fn insert_id(v: &mut Vec<u64>, x: u64)
    requires
        forall|a: int, b: int| 0 <= a < b < old(v)@.len() ==> #[trigger] old(v)@[a] < #[trigger] old(v)@[b],
    ensures
        forall|a: int, b: int| 0 <= a < b < final(v)@.len() ==> #[trigger] final(v)@[a] < #[trigger] final(v)@[b],
        forall|y: u64| #[trigger] final(v)@.contains(y) <==> (old(v)@.contains(y) || y == x),
{
    let mut q: usize = 0;
    while q < v.len() && v[q] < x
        invariant
            q <= v@.len(),
            forall|a: int| 0 <= a < q ==> v@[a] < x,
        decreases v.len() - q,
    {
        q = q + 1;
    }
    if q < v.len() && v[q] == x {
        proof {
            assert(v@[q as int] == x);
        }
        return;
    }
    let ghost before = v@;
    v.insert(q, x);
    proof {
        assert(v@ == before.insert(q as int, x));
        assert forall|a: int, b: int| 0 <= a < b < v@.len() implies #[trigger] v@[a] < #[trigger] v@[b] by {
            if b < q {
            } else if a < q && b == q {
            } else if a < q {
                assert(v@[b] == before[b - 1]);
                if b - 1 > q {
                    assert(before[q as int] < before[b - 1]);
                }
            } else if a == q {
                assert(v@[b] == before[b - 1]);
                if b - 1 > q {
                    assert(before[q as int] < before[b - 1]);
                }
            } else {
                assert(v@[a] == before[a - 1] && v@[b] == before[b - 1]);
            }
        }
        assert forall|y: u64| #[trigger] v@.contains(y) <==> (before.contains(y) || y == x) by {
            if v@.contains(y) {
                let a = choose|a: int| 0 <= a < v@.len() && v@[a] == y;
                if a < q {
                    assert(before[a] == y);
                } else if a > q {
                    assert(before[a - 1] == y);
                }
            }
            if before.contains(y) {
                let a = choose|a: int| 0 <= a < before.len() && before[a] == y;
                if a < q {
                    assert(v@[a] == y);
                } else {
                    assert(v@[a + 1] == y);
                }
            }
            if y == x {
                assert(v@[q as int] == x);
            }
        }
    }
}

fn make_override(p: u64, bytes: &Vec<u8>) -> (r: ParsedAvatarOverride)
    ensures
        override_from(r, p, bytes@),
{
    ParsedAvatarOverride {
        steam_id: p,
        format: detect_avatar_image_format(bytes.as_slice()),
        sha256: sha256_hex(bytes.as_slice()),
        source: string_of(AVATAR_SOURCE),
        bytes: copy_bytes(bytes),
    }
}

/// The avatar overrides a demo announces, in SteamID order: a player's own
/// image when all its non-empty images agree on one hash, else the default
/// image (when all default images agree on one hash) for each non-zero
/// listed player.
pub fn parse_avatar_overrides(raw: Vec<(String, Vec<u8>)>, player_steam_ids: &Vec<u64>) -> (r: Vec<ParsedAvatarOverride>)
    ensures
        avatars_listed(r@, raw@, player_steam_ids@),
{
    let mut owns: Vec<OwnImage> = Vec::new();
    let mut default_hash: Option<String> = None;
    let mut default_first: usize = 0;
    let mut default_conflict = false;
    let mut k: usize = 0;
    while k < raw.len()
        invariant
            k <= raw@.len(),
            forall|a: int| 0 <= a < owns@.len() ==> own_state_matches(#[trigger] owns@[a], raw@, k as int),
            forall|a: int, b: int| 0 <= a < b < owns@.len() ==> (#[trigger] owns@[a]).steam_id != (#[trigger] owns@[b]).steam_id,
            forall|p: u64| !(own_evidence(raw@.take(k as int), p) is Missing) ==> exists|a: int| 0 <= a < owns@.len() && (#[trigger] owns@[a]).steam_id == p,
            forall|a: int| 0 <= a < owns@.len() ==> (#[trigger] owns@[a]).first < k,
            default_hash is None ==> default_evidence(raw@.take(k as int)) is Missing && !default_conflict,
            default_hash is Some ==> first_hit(raw@.take(k as int), default_obs()) == Some(default_first as int),
            default_hash is Some ==> default_first < k,
            default_hash is Some ==> (default_conflict <==> default_evidence(raw@.take(k as int)) is Conflict),
            default_hash matches Some(h) ==> (!default_conflict ==> default_evidence(raw@.take(k as int)) == Unique::Value(h@)),
        decreases raw.len() - k,
    {
        proof {
            lemma_fold_push(raw@, k as int, default_obs());
            lemma_first_hit_facts(raw@.take(k as int), default_obs());
        }
        let ghost old_owns = owns@;
        let entry = &raw[k];
        if entry.1.len() > 0 {
            let hash = sha256_hex(entry.1.as_slice());
            let (is_default, player) = classify_key(&entry.0);
            if is_default {
                match &default_hash {
                    None => {
                        default_hash = Some(hash);
                        default_first = k;
                    },
                    Some(h) => {
                        if !same_text(h, &hash) {
                            default_conflict = true;
                        }
                    },
                }
            } else if let Some(p) = player {
                let mut j: usize = 0;
                let mut found: Option<usize> = None;
                while j < owns.len()
                    invariant
                        j <= owns@.len(),
                        found matches Some(f) ==> f < owns@.len() && owns@[f as int].steam_id == p,
                        found is None ==> forall|a: int| 0 <= a < j ==> (#[trigger] owns@[a]).steam_id != p,
                    decreases owns.len() - j,
                {
                    if found.is_none() && owns[j].steam_id == p {
                        found = Some(j);
                    }
                    j = j + 1;
                }
                match found {
                    Some(f) => {
                        if !same_text(&owns[f].hash, &hash) && !owns[f].conflict {
                            let updated = OwnImage {
                                steam_id: owns[f].steam_id,
                                hash: string_of(owns[f].hash.as_str()),
                                first: owns[f].first,
                                conflict: true,
                            };
                            owns.set(f, updated);
                        }
                    },
                    None => {
                        proof {
                            if !(own_evidence(raw@.take(k as int), p) is Missing) {
                                let a = choose|a: int| 0 <= a < owns@.len() && (#[trigger] owns@[a]).steam_id == p;
                                assert(owns@[a].steam_id != p);
                            }
                        }
                        owns.push(OwnImage { steam_id: p, hash, first: k, conflict: false });
                    },
                }
            }
        }
        proof {
            let e = raw@[k as int];
            assert(default_obs()(e) == default_image(e));
            assert forall|a: int| 0 <= a < owns@.len() implies own_state_matches(#[trigger] owns@[a], raw@, k + 1) by {
                if a < old_owns.len() {
                    lemma_own_step(raw@, k as int, old_owns[a], owns@[a]);
                } else {
                    lemma_own_new(raw@, k as int, owns@[a]);
                }
            }
            let next = raw@.take(k + 1);
            assert forall|p: u64| !(#[trigger] own_evidence(next, p) is Missing) implies exists|a: int| 0 <= a < owns@.len() && (#[trigger] owns@[a]).steam_id == p by {
                lemma_fold_push(raw@, k as int, own_obs(p));
                assert(own_obs(p)(e) == own_image(e, p));
                if !(own_evidence(raw@.take(k as int), p) is Missing) {
                    let a = choose|a: int| 0 <= a < old_owns.len() && (#[trigger] old_owns[a]).steam_id == p;
                    assert(owns@[a].steam_id == p);
                } else {
                    assert(owns@[owns@.len() - 1].steam_id == p);
                }
            }
        }
        k = k + 1;
    }
    let ghost n = raw@.len() as int;
    proof {
        assert(raw@.take(n) =~= raw@);
        assert forall|p: u64| own_evidence(raw@, p) is Value <==> exists|b: int| 0 <= b < owns@.len() && (#[trigger] owns@[b]).steam_id == p && !owns@[b].conflict by {
            if own_evidence(raw@, p) is Value {
                assert(!(own_evidence(raw@.take(n), p) is Missing));
                let b = choose|b: int| 0 <= b < owns@.len() && (#[trigger] owns@[b]).steam_id == p;
                assert(own_state_matches(owns@[b], raw@, n));
            }
            if exists|b: int| 0 <= b < owns@.len() && (#[trigger] owns@[b]).steam_id == p && !owns@[b].conflict {
                let b = choose|b: int| 0 <= b < owns@.len() && (#[trigger] owns@[b]).steam_id == p && !owns@[b].conflict;
                assert(own_state_matches(owns@[b], raw@, n));
            }
        }
    }
    // The players that get an override, ascending.
    let mut ids: Vec<u64> = Vec::new();
    let mut a: usize = 0;
    while a < owns.len()
        invariant
            a <= owns@.len(),
            forall|x: int, y: int| 0 <= x < y < ids@.len() ==> #[trigger] ids@[x] < #[trigger] ids@[y],
            forall|p: u64| #[trigger] ids@.contains(p) <==> exists|b: int| 0 <= b < a && (#[trigger] owns@[b]).steam_id == p && !owns@[b].conflict,
        decreases owns.len() - a,
    {
        let ghost before = ids@;
        if !owns[a].conflict {
            insert_id(&mut ids, owns[a].steam_id);
        }
        proof {
            assert forall|p: u64| #[trigger] ids@.contains(p) <==> exists|b: int| 0 <= b < a + 1 && (#[trigger] owns@[b]).steam_id == p && !owns@[b].conflict by {
                if ids@.contains(p) && !before.contains(p) {
                    assert(owns@[a as int].steam_id == p && !owns@[a as int].conflict);
                }
            }
        }
        a = a + 1;
    }
    let default_single = default_hash.is_some() && !default_conflict;
    proof {
        assert(default_single <==> default_evidence(raw@) is Value);
        assert(forall|p: u64| #[trigger] ids@.contains(p) <==> own_evidence(raw@, p) is Value);
    }
    if default_single {
        let mut i: usize = 0;
        let ghost owned = ids@;
        while i < player_steam_ids.len()
            invariant
                i <= player_steam_ids@.len(),
                forall|x: int, y: int| 0 <= x < y < ids@.len() ==> #[trigger] ids@[x] < #[trigger] ids@[y],
                forall|p: u64| #[trigger] ids@.contains(p) <==> (owned.contains(p) || (p != 0 && exists|b: int| 0 <= b < i && player_steam_ids@[b] == p)),
            decreases player_steam_ids.len() - i,
        {
            let ghost before = ids@;
            let p = player_steam_ids[i];
            if p != 0 {
                insert_id(&mut ids, p);
            }
            proof {
                assert forall|q: u64| #[trigger] ids@.contains(q) <==> (owned.contains(q) || (q != 0 && exists|b: int| 0 <= b < i + 1 && player_steam_ids@[b] == q)) by {
                    if q != 0 && exists|b: int| 0 <= b < i + 1 && player_steam_ids@[b] == q {
                        let b = choose|b: int| 0 <= b < i + 1 && player_steam_ids@[b] == q;
                        if b < i {
                            assert(before.contains(q));
                        }
                    }
                }
            }
            i = i + 1;
        }
        proof {
            assert forall|p: u64| #[trigger] ids@.contains(p) <==> gets_override(raw@, player_steam_ids@, p) by {
                if player_steam_ids@.contains(p) {
                    let b = choose|b: int| 0 <= b < player_steam_ids@.len() && player_steam_ids@[b] == p;
                }
            }
        }
    }
    proof {
        assert forall|p: u64| #[trigger] ids@.contains(p) <==> gets_override(raw@, player_steam_ids@, p) by {}
        if default_single {
            assert(default_evidence(raw@.take(n)) is Value);
            lemma_first_hit_facts(raw@, default_obs());
        }
    }
    // One override per player, in SteamID order.
    let mut out: Vec<ParsedAvatarOverride> = Vec::new();
    let mut c: usize = 0;
    while c < ids.len()
        invariant
            c <= ids@.len(),
            n == raw@.len(),
            out@.len() == c,
            forall|x: int, y: int| 0 <= x < y < ids@.len() ==> #[trigger] ids@[x] < #[trigger] ids@[y],
            forall|p: u64| #[trigger] ids@.contains(p) <==> gets_override(raw@, player_steam_ids@, p),
            forall|p: u64| own_evidence(raw@, p) is Value <==> exists|b: int| 0 <= b < owns@.len() && (#[trigger] owns@[b]).steam_id == p && !owns@[b].conflict,
            forall|b: int| 0 <= b < owns@.len() ==> own_state_matches(#[trigger] owns@[b], raw@, n),
            forall|b: int| 0 <= b < owns@.len() ==> (#[trigger] owns@[b]).first < n,
            default_single <==> default_evidence(raw@) is Value,
            default_single ==> default_first == first_default(raw@) && default_first < n,
            raw@.take(n) == raw@,
            forall|x: int| 0 <= x < c ==> (#[trigger] out@[x]).steam_id == ids@[x],
            forall|x: int| 0 <= x < c ==> if own_evidence(raw@, (#[trigger] out@[x]).steam_id) is Value {
                override_from(out@[x], out@[x].steam_id, raw@[first_own(raw@, out@[x].steam_id)].1@)
            } else {
                override_from(out@[x], out@[x].steam_id, raw@[first_default(raw@)].1@)
            },
        decreases ids.len() - c,
    {
        let p = ids[c];
        let mut j: usize = 0;
        let mut mine: Option<usize> = None;
        while j < owns.len()
            invariant
                j <= owns@.len(),
                mine matches Some(f) ==> f < owns@.len() && owns@[f as int].steam_id == p && !owns@[f as int].conflict,
                mine is None ==> forall|b: int| 0 <= b < j ==> !((#[trigger] owns@[b]).steam_id == p && !owns@[b].conflict),
            decreases owns.len() - j,
        {
            if mine.is_none() && owns[j].steam_id == p && !owns[j].conflict {
                mine = Some(j);
            }
            j = j + 1;
        }
        proof {
            assert(ids@.contains(p));
        }
        let made = match mine {
            Some(f) => {
                proof {
                    assert(own_state_matches(owns@[f as int], raw@, n));
                }
                make_override(p, &raw[owns[f].first].1)
            },
            None => make_override(p, &raw[default_first].1),
        };
        out.push(made);
        proof {
            assert forall|x: int| 0 <= x < c + 1 implies (#[trigger] out@[x]).steam_id == ids@[x] by {}
        }
        c = c + 1;
    }
    proof {
        assert forall|p: u64| #[trigger] gets_override(raw@, player_steam_ids@, p) <==> exists|x: int| 0 <= x < out@.len() && (#[trigger] out@[x]).steam_id == p by {
            if gets_override(raw@, player_steam_ids@, p) {
                assert(ids@.contains(p));
                let x = choose|x: int| 0 <= x < ids@.len() && ids@[x] == p;
                assert(out@[x].steam_id == p);
            }
            if exists|x: int| 0 <= x < out@.len() && (#[trigger] out@[x]).steam_id == p {
                let x = choose|x: int| 0 <= x < out@.len() && (#[trigger] out@[x]).steam_id == p;
                assert(ids@[x] == p);
                assert(ids@.contains(p));
            }
        }
    }
    out
}

} // verus!
