//! CS2 item preview links: the preview payload is a protobuf-style record of
//! the item's appearance, framed by a zero byte and a CRC-derived checksum,
//! and written as upper-case hex.
use crate::model::{
    ReplayCosmeticInspect, ReplayItemCosmetic, ReplayWeaponCharm, ReplayWeaponCosmetic,
    ReplayWeaponSticker,
};
use crate::text::{concat_str, push_char, string_of};
use vstd::prelude::*;
use vstd::string::*;

verus! {

pub const PREVIEW_COMMAND: &'static str = "csgo_econ_action_preview ";

pub const PREVIEW_URL: &'static str = "steam://run/730/en/+csgo_econ_action_preview%20";

/// Base-128 varint: seven bits per byte, low group first, high bit marks continuation.
pub open spec fn varint(v: nat) -> Seq<u8>
    decreases v,
{
    if v < 128 {
        seq![v as u8]
    } else {
        seq![((v % 128) + 128) as u8] + varint(v / 128)
    }
}

/// Little-endian bytes of a 32-bit value.
pub open spec fn le32(v: u32) -> Seq<u8> {
    seq![
        (v % 256) as u8,
        ((v / 256) % 256) as u8,
        ((v / 65536) % 256) as u8,
        ((v / 16777216) % 256) as u8,
    ]
}

/// Big-endian bytes of a 32-bit value.
pub open spec fn be32(v: u32) -> Seq<u8> {
    seq![
        ((v / 16777216) % 256) as u8,
        ((v / 65536) % 256) as u8,
        ((v / 256) % 256) as u8,
        (v % 256) as u8,
    ]
}

/// Field tag (field number and wire type).
pub open spec fn tag(field: u32, wire: u32) -> nat {
    ((field << 3u32) | wire) as nat
}

pub open spec fn varint_field(field: u32, value: u32) -> Seq<u8> {
    varint(tag(field, 0)) + varint(value as nat)
}

pub open spec fn optional_varint_field(field: u32, value: Option<u32>) -> Seq<u8> {
    match value {
        Some(v) => varint_field(field, v),
        None => seq![],
    }
}

pub open spec fn fixed32_field(field: u32, value: u32) -> Seq<u8> {
    varint(tag(field, 5)) + le32(value)
}

pub open spec fn optional_fixed32_field(field: u32, value: Option<u32>) -> Seq<u8> {
    match value {
        Some(v) => fixed32_field(field, v),
        None => seq![],
    }
}

pub open spec fn bytes_field(field: u32, value: Seq<u8>) -> Seq<u8> {
    varint(tag(field, 2)) + varint(value.len()) + value
}

/// Encoding of one sticker record.
pub open spec fn sticker_bytes(s: ReplayWeaponSticker) -> Seq<u8> {
    varint_field(1, s.slot as u32) + varint_field(2, s.sticker_id) + fixed32_field(3, s.wear_bits)
        + optional_fixed32_field(4, s.scale_bits) + optional_fixed32_field(5, s.rotation_bits)
        + fixed32_field(7, s.offset_x_bits) + fixed32_field(8, s.offset_y_bits)
}

/// Encoding of one keychain record.
pub open spec fn keychain_bytes(k: ReplayWeaponCharm) -> Seq<u8> {
    varint_field(1, k.slot as u32) + varint_field(2, k.charm_id) + fixed32_field(7, k.offset_x_bits)
        + fixed32_field(8, k.offset_y_bits) + fixed32_field(9, k.offset_z_bits)
        + optional_varint_field(10, k.seed) + optional_varint_field(11, k.highlight)
        + optional_varint_field(12, k.sticker_id)
}

/// Sticker records, each nested as field 12.
pub open spec fn stickers_bytes(s: Seq<ReplayWeaponSticker>) -> Seq<u8>
    decreases s.len(),
{
    if s.len() == 0 {
        seq![]
    } else {
        stickers_bytes(s.drop_last()) + bytes_field(12, sticker_bytes(s.last()))
    }
}

/// Keychain records, each nested as field 20.
pub open spec fn keychains_bytes(k: Seq<ReplayWeaponCharm>) -> Seq<u8>
    decreases k.len(),
{
    if k.len() == 0 {
        seq![]
    } else {
        keychains_bytes(k.drop_last()) + bytes_field(20, keychain_bytes(k.last()))
    }
}

/// One CRC-32 (reflected, polynomial 0xEDB88320) shift step.
pub open spec fn crc_round(c: u32) -> u32 {
    if c % 2 == 1 {
        (c / 2) ^ 0xedb8_8320u32
    } else {
        c / 2
    }
}

pub open spec fn crc_rounds(c: u32, n: nat) -> u32
    decreases n,
{
    if n == 0 {
        c
    } else {
        crc_round(crc_rounds(c, (n - 1) as nat))
    }
}

/// CRC register after the bytes of `s`, starting from all ones.
pub open spec fn crc_state(s: Seq<u8>) -> u32
    decreases s.len(),
{
    if s.len() == 0 {
        0xffff_ffffu32
    } else {
        crc_rounds(crc_state(s.drop_last()) ^ (s.last() as u32), 8)
    }
}

/// CRC-32 of a byte sequence.
pub open spec fn spec_crc32(s: Seq<u8>) -> u32 {
    !crc_state(s)
}

/// Upper-case hex digit of a nibble.
pub open spec fn hex_digit(n: int) -> char {
    if n < 10 {
        (48 + n) as char
    } else {
        (55 + n) as char
    }
}

/// Upper-case hex of a byte sequence, two digits per byte.
pub open spec fn hex_upper(s: Seq<u8>) -> Seq<char>
    decreases s.len(),
{
    if s.len() == 0 {
        seq![]
    } else {
        hex_upper(s.drop_last()) + seq![hex_digit((s.last() / 16) as int), hex_digit((s.last() % 16) as int)]
    }
}

pub fn write_varint(output: &mut Vec<u8>, value: u64)
    ensures
        final(output)@ == old(output)@ + varint(value as nat),
{
    let ghost start = output@;
    let ghost orig = value;
    let mut value = value;
    while value >= 0x80
        invariant
            output@ + varint(value as nat) == start + varint(orig as nat),
        decreases value,
    {
        let byte = ((value as u8) & 0x7f) | 0x80;
        assert(byte == ((value % 128) + 128) as u8) by (bit_vector)
            requires
                byte == ((value as u8) & 0x7fu8) | 0x80u8,
        ;
        let ghost before = output@;
        output.push(byte);
        let next = value >> 7;
        assert(next == value / 128) by (bit_vector)
            requires
                next == value >> 7u64,
        ;
        assert(varint(value as nat) == seq![byte] + varint(next as nat));
        assert(output@ + varint(next as nat) =~= before + varint(value as nat));
        value = next;
    }
    output.push(value as u8);
    assert(varint(value as nat) == seq![value as u8]);
}

pub fn write_varint_field(output: &mut Vec<u8>, field: u32, value: u32)
    ensures
        final(output)@ == old(output)@ + varint_field(field, value),
{
    let t = (field << 3) | 0;
    write_varint(output, t as u64);
    write_varint(output, value as u64);
    assert(final(output)@ =~= old(output)@ + varint_field(field, value)) by {
        assert(t == (field << 3u32) | 0u32);
    }
}

pub fn write_optional_varint_field(output: &mut Vec<u8>, field: u32, value: Option<u32>)
    ensures
        final(output)@ == old(output)@ + optional_varint_field(field, value),
{
    if let Some(value) = value {
        write_varint_field(output, field, value);
    } else {
        assert(old(output)@ + optional_varint_field(field, None) =~= old(output)@);
    }
}

pub(crate) fn push_le32(output: &mut Vec<u8>, value: u32)
    ensures
        final(output)@ == old(output)@ + le32(value),
{
    let b0 = (value & 0xff) as u8;
    let b1 = ((value >> 8) & 0xff) as u8;
    let b2 = ((value >> 16) & 0xff) as u8;
    let b3 = ((value >> 24) & 0xff) as u8;
    assert(b0 == (value % 256) as u8 && b1 == ((value / 256) % 256) as u8 && b2 == ((value / 65536)
        % 256) as u8 && b3 == ((value / 16777216) % 256) as u8) by (bit_vector)
        requires
            b0 == (value & 0xffu32) as u8,
            b1 == ((value >> 8u32) & 0xffu32) as u8,
            b2 == ((value >> 16u32) & 0xffu32) as u8,
            b3 == ((value >> 24u32) & 0xffu32) as u8,
    ;
    output.push(b0);
    output.push(b1);
    output.push(b2);
    output.push(b3);
    assert(final(output)@ =~= old(output)@ + le32(value));
}

fn push_be32(output: &mut Vec<u8>, value: u32)
    ensures
        final(output)@ == old(output)@ + be32(value),
{
    let b0 = ((value >> 24) & 0xff) as u8;
    let b1 = ((value >> 16) & 0xff) as u8;
    let b2 = ((value >> 8) & 0xff) as u8;
    let b3 = (value & 0xff) as u8;
    assert(b3 == (value % 256) as u8 && b2 == ((value / 256) % 256) as u8 && b1 == ((value / 65536)
        % 256) as u8 && b0 == ((value / 16777216) % 256) as u8) by (bit_vector)
        requires
            b3 == (value & 0xffu32) as u8,
            b2 == ((value >> 8u32) & 0xffu32) as u8,
            b1 == ((value >> 16u32) & 0xffu32) as u8,
            b0 == ((value >> 24u32) & 0xffu32) as u8,
    ;
    output.push(b0);
    output.push(b1);
    output.push(b2);
    output.push(b3);
    assert(final(output)@ =~= old(output)@ + be32(value));
}

pub fn write_fixed32_field(output: &mut Vec<u8>, field: u32, value: u32)
    ensures
        final(output)@ == old(output)@ + fixed32_field(field, value),
{
    write_varint(output, ((field << 3) | 5) as u64);
    push_le32(output, value);
    assert(final(output)@ =~= old(output)@ + fixed32_field(field, value));
}

fn write_optional_fixed32_field(output: &mut Vec<u8>, field: u32, value: Option<u32>)
    ensures
        final(output)@ == old(output)@ + optional_fixed32_field(field, value),
{
    if let Some(value) = value {
        write_fixed32_field(output, field, value);
    } else {
        assert(old(output)@ + optional_fixed32_field(field, None) =~= old(output)@);
    }
}

fn append_bytes(output: &mut Vec<u8>, value: &[u8])
    ensures
        final(output)@ == old(output)@ + value@,
{
    let ghost start = output@;
    let mut i: usize = 0;
    while i < value.len()
        invariant
            i <= value@.len(),
            output@ == start + value@.subrange(0, i as int),
        decreases value@.len() - i,
    {
        output.push(value[i]);
        i = i + 1;
        assert(output@ =~= start + value@.subrange(0, i as int));
    }
    assert(value@.subrange(0, value@.len() as int) =~= value@);
}

pub fn write_bytes_field(output: &mut Vec<u8>, field: u32, value: &[u8])
    ensures
        final(output)@ == old(output)@ + bytes_field(field, value@),
{
    write_varint(output, ((field << 3) | 2) as u64);
    write_varint(output, value.len() as u64);
    append_bytes(output, value);
    assert(final(output)@ =~= old(output)@ + bytes_field(field, value@));
}

pub fn crc32(bytes: &[u8]) -> (r: u32)
    ensures
        r == spec_crc32(bytes@),
{
    let mut crc: u32 = 0xffff_ffff;
    let mut i: usize = 0;
    while i < bytes.len()
        invariant
            i <= bytes@.len(),
            crc == crc_state(bytes@.subrange(0, i as int)),
        decreases bytes@.len() - i,
    {
        let ghost start = crc ^ (bytes@[i as int] as u32);
        crc = crc ^ (bytes[i] as u32);
        let mut k: usize = 0;
        while k < 8
            invariant
                k <= 8,
                crc == crc_rounds(start, k as nat),
            decreases 8 - k,
        {
            let c = crc;
            assert((c & 1u32 != 0u32) == (c % 2 == 1)) by (bit_vector);
            assert(c >> 1u32 == c / 2) by (bit_vector);
            if c & 1 != 0 {
                crc = (c >> 1) ^ 0xedb8_8320;
            } else {
                crc = c >> 1;
            }
            k = k + 1;
        }
        assert(bytes@.subrange(0, i + 1).drop_last() =~= bytes@.subrange(0, i as int));
        i = i + 1;
    }
    assert(bytes@.subrange(0, bytes@.len() as int) =~= bytes@);
    !crc
}

fn hex_char(n: u8) -> (c: char)
    requires
        n < 16,
    ensures
        c == hex_digit(n as int),
{
    if n < 10 {
        (48u8 + n) as char
    } else {
        (55u8 + n) as char
    }
}

pub fn uppercase_hex(bytes: &[u8]) -> (r: String)
    ensures
        r@ == hex_upper(bytes@),
{
    let mut output = String::new();
    let mut i: usize = 0;
    while i < bytes.len()
        invariant
            i <= bytes@.len(),
            output@ == hex_upper(bytes@.subrange(0, i as int)),
        decreases bytes@.len() - i,
    {
        let byte = bytes[i];
        let hi = byte >> 4;
        let lo = byte & 0x0f;
        assert(hi == byte / 16 && lo == byte % 16 && hi < 16 && lo < 16) by (bit_vector)
            requires
                hi == byte >> 4u8,
                lo == byte & 0x0fu8,
        ;
        push_char(&mut output, hex_char(hi));
        push_char(&mut output, hex_char(lo));
        assert(bytes@.subrange(0, i + 1).drop_last() =~= bytes@.subrange(0, i as int));
        i = i + 1;
        assert(output@ =~= hex_upper(bytes@.subrange(0, i as int)));
    }
    assert(bytes@.subrange(0, bytes@.len() as int) =~= bytes@);
    output
}

pub fn encode_sticker(sticker: &ReplayWeaponSticker) -> (r: Vec<u8>)
    ensures
        r@ == sticker_bytes(*sticker),
{
    let mut output: Vec<u8> = Vec::new();
    write_varint_field(&mut output, 1, sticker.slot as u32);
    write_varint_field(&mut output, 2, sticker.sticker_id);
    write_fixed32_field(&mut output, 3, sticker.wear_bits);
    write_optional_fixed32_field(&mut output, 4, sticker.scale_bits);
    write_optional_fixed32_field(&mut output, 5, sticker.rotation_bits);
    write_fixed32_field(&mut output, 7, sticker.offset_x_bits);
    write_fixed32_field(&mut output, 8, sticker.offset_y_bits);
    assert(output@ =~= sticker_bytes(*sticker));
    output
}

pub fn encode_keychain(keychain: &ReplayWeaponCharm) -> (r: Vec<u8>)
    ensures
        r@ == keychain_bytes(*keychain),
{
    let mut output: Vec<u8> = Vec::new();
    write_varint_field(&mut output, 1, keychain.slot as u32);
    write_varint_field(&mut output, 2, keychain.charm_id);
    write_fixed32_field(&mut output, 7, keychain.offset_x_bits);
    write_fixed32_field(&mut output, 8, keychain.offset_y_bits);
    write_fixed32_field(&mut output, 9, keychain.offset_z_bits);
    write_optional_varint_field(&mut output, 10, keychain.seed);
    write_optional_varint_field(&mut output, 11, keychain.highlight);
    write_optional_varint_field(&mut output, 12, keychain.sticker_id);
    assert(output@ =~= keychain_bytes(*keychain));
    output
}

/// Name-tag grammar that preview consumers accept for field 11; an item whose
/// custom name breaks it is rejected whole, so such names are left out.
pub const NAME_TAG_PATTERN: &'static str = "\\A[A-Za-z0-9`!@#$%^&*\\-+=(){}\\[\\]/|\\\\,.?:;'_，。；！\\p{Han}\\p{Hiragana}\\p{Katakana}\\s]{0,20}\\z";

/// Whether `regex::Regex::new` accepts a pattern.
pub uninterp spec fn regex_compiles(pattern: Seq<char>) -> bool;

/// What `regex::Regex::is_match` answers for a compiled pattern and a text.
pub uninterp spec fn regex_matches(pattern: Seq<char>, text: Seq<char>) -> bool;

/// Compiles `pattern` with `regex::Regex::new` and, when that succeeds, asks
/// `Regex::is_match` about `text`. Claimed: `None` exactly when the pattern
/// does not compile, else the match answer, which depends on the two texts only.
#[verifier::external_body]
fn regex_is_match(pattern: &str, text: &str) -> (r: Option<bool>)
    ensures
        r == (if regex_compiles(pattern@) {
            Some(regex_matches(pattern@, text@))
        } else {
            None
        }),
{
    match regex::Regex::new(pattern) {
        Ok(re) => Some(re.is_match(text)),
        Err(_) => None,
    }
}

/// A custom name usable in a preview payload: not starting with a space,
/// and matching the name-tag grammar.
pub open spec fn spec_compatible_custom_name(name: Option<Seq<char>>) -> Option<Seq<char>> {
    match name {
        Some(n) => if n.len() > 0 && n[0] == ' ' {
            None
        } else if regex_compiles(NAME_TAG_PATTERN@) && regex_matches(NAME_TAG_PATTERN@, n) {
            Some(n)
        } else {
            None
        },
        None => None,
    }
}

pub fn inspect_compatible_custom_name(custom_name: Option<&str>) -> (r: Option<&str>)
    ensures
        (match r {
            Some(s) => Some(s@),
            None => None,
        }) == spec_compatible_custom_name(
            match custom_name {
                Some(s) => Some(s@),
                None => None,
            },
        ),
        r matches Some(s) ==> custom_name == Some(s),
{
    let custom_name = match custom_name {
        Some(s) => s,
        None => return None,
    };
    if custom_name.unicode_len() > 0 && custom_name.get_char(0) == ' ' {
        return None;
    }
    match regex_is_match(NAME_TAG_PATTERN, custom_name) {
        Some(true) => Some(custom_name),
        _ => None,
    }
}

/// Whether a wear's bit pattern is a finite value in `0.0..=1.0` (`-0.0` included).
pub open spec fn wear_bits_valid(bits: u32) -> bool {
    bits <= 0x3f80_0000 || bits == 0x8000_0000
}

pub fn valid_wear(wear_bits: u32) -> (r: bool)
    ensures
        r == wear_bits_valid(wear_bits),
{
    wear_bits <= 0x3f80_0000 || wear_bits == 0x8000_0000
}

/// The appearance fields a preview payload carries.
pub struct PreviewData<'a> {
    pub defindex: u32,
    pub paintindex: u32,
    pub rarity: Option<u32>,
    pub quality: Option<u32>,
    pub paintwear: u32,
    pub paintseed: u32,
    pub killeaterscoretype: Option<u32>,
    pub killeatervalue: Option<u32>,
    pub customname: Option<&'a str>,
    pub stickers: &'a [ReplayWeaponSticker],
    pub keychains: &'a [ReplayWeaponCharm],
}

/// Encoding of the preview fields, in field order.
pub open spec fn preview_bytes(p: PreviewData) -> Seq<u8> {
    varint_field(3, p.defindex) + varint_field(4, p.paintindex) + optional_varint_field(5, p.rarity)
        + optional_varint_field(6, p.quality) + varint_field(7, p.paintwear) + varint_field(
        8,
        p.paintseed,
    ) + optional_varint_field(9, p.killeaterscoretype) + optional_varint_field(10, p.killeatervalue)
        + (match p.customname {
        Some(n) => bytes_field(11, n.spec_bytes()),
        None => seq![],
    }) + stickers_bytes(p.stickers@) + keychains_bytes(p.keychains@)
}

/// Payload of a preview: a zero byte, the fields, and the big-endian
/// checksum `(crc & 0xffff) ^ (len * crc)` over the zero byte and fields.
pub open spec fn preview_payload(attributes: Seq<u8>) -> Seq<u8> {
    let body = seq![0u8] + attributes;
    let crc = spec_crc32(body);
    let xcrc = (crc & 0xffffu32) ^ vstd::wrapping::u32_specs::wrapping_mul(
        attributes.len() as u32,
        crc,
    );
    body + be32(xcrc)
}

/// The preview command and Steam link of an encoded field record.
pub open spec fn spec_inspect(attributes: Seq<u8>) -> (Seq<char>, Seq<char>) {
    let hex = hex_upper(preview_payload(attributes));
    (PREVIEW_COMMAND@ + hex, PREVIEW_URL@ + hex)
}

pub fn encode_preview(preview: &PreviewData) -> (r: Vec<u8>)
    ensures
        r@ == preview_bytes(*preview),
{
    let mut output: Vec<u8> = Vec::new();
    write_varint_field(&mut output, 3, preview.defindex);
    write_varint_field(&mut output, 4, preview.paintindex);
    write_optional_varint_field(&mut output, 5, preview.rarity);
    write_optional_varint_field(&mut output, 6, preview.quality);
    write_varint_field(&mut output, 7, preview.paintwear);
    write_varint_field(&mut output, 8, preview.paintseed);
    write_optional_varint_field(&mut output, 9, preview.killeaterscoretype);
    write_optional_varint_field(&mut output, 10, preview.killeatervalue);
    if let Some(customname) = preview.customname {
        write_bytes_field(&mut output, 11, customname.as_bytes());
    }
    let ghost head = output@;
    let mut i: usize = 0;
    while i < preview.stickers.len()
        invariant
            i <= preview.stickers@.len(),
            output@ == head + stickers_bytes(preview.stickers@.subrange(0, i as int)),
        decreases preview.stickers@.len() - i,
    {
        let nested = encode_sticker(&preview.stickers[i]);
        write_bytes_field(&mut output, 12, nested.as_slice());
        assert(preview.stickers@.subrange(0, i + 1).drop_last() =~= preview.stickers@.subrange(
            0,
            i as int,
        ));
        i = i + 1;
        assert(output@ =~= head + stickers_bytes(preview.stickers@.subrange(0, i as int)));
    }
    assert(preview.stickers@.subrange(0, preview.stickers@.len() as int) =~= preview.stickers@);
    let ghost mid = output@;
    let mut j: usize = 0;
    while j < preview.keychains.len()
        invariant
            j <= preview.keychains@.len(),
            output@ == mid + keychains_bytes(preview.keychains@.subrange(0, j as int)),
        decreases preview.keychains@.len() - j,
    {
        let nested = encode_keychain(&preview.keychains[j]);
        write_bytes_field(&mut output, 20, nested.as_slice());
        assert(preview.keychains@.subrange(0, j + 1).drop_last() =~= preview.keychains@.subrange(
            0,
            j as int,
        ));
        j = j + 1;
        assert(output@ =~= mid + keychains_bytes(preview.keychains@.subrange(0, j as int)));
    }
    assert(preview.keychains@.subrange(0, preview.keychains@.len() as int)
        =~= preview.keychains@);
    assert(output@ =~= preview_bytes(*preview));
    output
}

pub fn build_inspect(preview: &PreviewData) -> (r: ReplayCosmeticInspect)
    ensures
        r.command@ == spec_inspect(preview_bytes(*preview)).0,
        r.steam_url matches Some(url) && url@ == spec_inspect(preview_bytes(*preview)).1,
{
    let attributes = encode_preview(preview);
    let mut payload: Vec<u8> = Vec::new();
    payload.push(0u8);
    append_bytes(&mut payload, attributes.as_slice());
    let crc = crc32(payload.as_slice());
    let xcrc = (crc & 0xffff) ^ (attributes.len() as u32).wrapping_mul(crc);
    push_be32(&mut payload, xcrc);
    assert(payload@ =~= preview_payload(attributes@));
    let hex = uppercase_hex(payload.as_slice());
    let command = concat_str(string_of(PREVIEW_COMMAND), hex.as_str());
    let steam_url = Some(concat_str(string_of(PREVIEW_URL), hex.as_str()));
    ReplayCosmeticInspect { command, steam_url }
}

/// The custom name of an optional owned text, as a sequence.
pub open spec fn opt_string_view(v: Option<String>) -> Option<Seq<char>> {
    match v {
        Some(s) => Some(s@),
        None => None,
    }
}

/// Whether a weapon appearance gets a preview link: a positive definition
/// index, a paint, and a wear in `0.0..=1.0`.
pub open spec fn weapon_inspect_applies(c: ReplayWeaponCosmetic) -> bool {
    c.weapon_def_index > 0 && c.paint_kit != 0 && wear_bits_valid(c.wear_bits)
}

/// The preview fields of a weapon appearance (other than its custom name text).
pub open spec fn weapon_preview_matches(p: PreviewData, c: ReplayWeaponCosmetic, rarity: Option<u32>) -> bool {
    &&& p.defindex == c.weapon_def_index as u32
    &&& p.paintindex == c.paint_kit
    &&& p.rarity == rarity
    &&& p.quality == (match c.quality {
        Some(q) => if q >= 0 {
            Some(q as u32)
        } else {
            None
        },
        None => None,
    })
    &&& p.paintwear == c.wear_bits
    &&& p.paintseed == c.seed
    &&& (match c.stattrak_counter {
        Some(n) => if n >= 0 {
            p.killeaterscoretype == Some(0u32) && p.killeatervalue == Some(n as u32)
        } else {
            p.killeaterscoretype is None && p.killeatervalue is None
        },
        None => p.killeaterscoretype is None && p.killeatervalue is None,
    })
    &&& (match p.customname {
        Some(n) => Some(n@),
        None => None,
    }) == spec_compatible_custom_name(opt_string_view(c.custom_name))
    &&& p.stickers@ == c.stickers@
    &&& p.keychains@ == c.charms@
}

pub fn weapon_inspect(cosmetic: &ReplayWeaponCosmetic, rarity: Option<u32>) -> (r: Option<
    ReplayCosmeticInspect,
>)
    ensures
        r is Some <==> weapon_inspect_applies(*cosmetic),
        r matches Some(inspect) ==> exists|p: PreviewData|
            {
                &&& weapon_preview_matches(p, *cosmetic, rarity)
                &&& inspect.command@ == spec_inspect(preview_bytes(p)).0
                &&& (inspect.steam_url matches Some(url) && url@ == spec_inspect(
                    preview_bytes(p),
                ).1)
            },
{
    if cosmetic.weapon_def_index < 0 {
        return None;
    }
    let defindex = cosmetic.weapon_def_index as u32;
    if defindex == 0 || cosmetic.paint_kit == 0 || !valid_wear(cosmetic.wear_bits) {
        return None;
    }
    let quality = match cosmetic.quality {
        Some(q) => if q >= 0 {
            Some(q as u32)
        } else {
            None
        },
        None => None,
    };
    let (killeaterscoretype, killeatervalue) = match cosmetic.stattrak_counter {
        Some(n) => if n >= 0 {
            (Some(0u32), Some(n as u32))
        } else {
            (None, None)
        },
        None => (None, None),
    };
    let customname = match &cosmetic.custom_name {
        Some(name) => inspect_compatible_custom_name(Some(name.as_str())),
        None => inspect_compatible_custom_name(None),
    };
    let preview = PreviewData {
        defindex,
        paintindex: cosmetic.paint_kit,
        rarity,
        quality,
        paintwear: cosmetic.wear_bits,
        paintseed: cosmetic.seed,
        killeaterscoretype,
        killeatervalue,
        customname,
        stickers: cosmetic.stickers.as_slice(),
        keychains: cosmetic.charms.as_slice(),
    };
    let inspect = build_inspect(&preview);
    assert(weapon_preview_matches(preview, *cosmetic, rarity));
    Some(inspect)
}

/// Whether a knife or glove appearance gets a preview link: a positive
/// definition index, a paint, a seed not known to be made up, and a wear in `0.0..=1.0`.
pub open spec fn item_inspect_applies(c: ReplayItemCosmetic) -> bool {
    c.item_def_index matches Some(d) && d > 0 && c.paint_kit != 0 && c.seed_known != Some(false)
        && wear_bits_valid(c.wear_bits)
}

/// The preview fields of a knife or glove appearance.
pub open spec fn item_preview_matches(p: PreviewData, c: ReplayItemCosmetic, rarity: Option<u32>) -> bool {
    &&& p.defindex == c.item_def_index->0 as u32
    &&& p.paintindex == c.paint_kit
    &&& p.rarity == rarity
    &&& p.quality is None
    &&& p.paintwear == c.wear_bits
    &&& p.paintseed == c.seed
    &&& p.killeaterscoretype is None
    &&& p.killeatervalue is None
    &&& (match p.customname {
        Some(n) => Some(n@),
        None => None,
    }) == spec_compatible_custom_name(opt_string_view(c.custom_name))
    &&& p.stickers@.len() == 0
    &&& p.keychains@.len() == 0
}

pub fn item_inspect(cosmetic: &ReplayItemCosmetic, rarity: Option<u32>) -> (r: Option<
    ReplayCosmeticInspect,
>)
    ensures
        r is Some <==> item_inspect_applies(*cosmetic),
        r matches Some(inspect) ==> exists|p: PreviewData|
            {
                &&& item_preview_matches(p, *cosmetic, rarity)
                &&& inspect.command@ == spec_inspect(preview_bytes(p)).0
                &&& (inspect.steam_url matches Some(url) && url@ == spec_inspect(
                    preview_bytes(p),
                ).1)
            },
{
    let def = match cosmetic.item_def_index {
        Some(d) => d,
        None => return None,
    };
    if def < 0 {
        return None;
    }
    let defindex = def as u32;
    if defindex == 0 || cosmetic.paint_kit == 0 || cosmetic.seed_known == Some(false)
        || !valid_wear(cosmetic.wear_bits) {
        return None;
    }
    let customname = match &cosmetic.custom_name {
        Some(name) => inspect_compatible_custom_name(Some(name.as_str())),
        None => inspect_compatible_custom_name(None),
    };
    let no_stickers: Vec<ReplayWeaponSticker> = Vec::new();
    let no_keychains: Vec<ReplayWeaponCharm> = Vec::new();
    let preview = PreviewData {
        defindex,
        paintindex: cosmetic.paint_kit,
        rarity,
        quality: None,
        paintwear: cosmetic.wear_bits,
        paintseed: cosmetic.seed,
        killeaterscoretype: None,
        killeatervalue: None,
        customname,
        stickers: no_stickers.as_slice(),
        keychains: no_keychains.as_slice(),
    };
    let inspect = build_inspect(&preview);
    assert(item_preview_matches(preview, *cosmetic, rarity));
    Some(inspect)
}

} // verus!
