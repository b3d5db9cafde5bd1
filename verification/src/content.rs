//! The logical content of a demo file and its identity hash: plain bytes as
//! they are, zstd input decompressed, both under a size limit and hashed as
//! they stream.
use crate::demo_input::{enforce_demo_limit, has_zstd_magic};
use crate::digest::{hex_lower, lemma_hex_lower_len, lowercase_hex, sha256};
use crate::error::Error;
use crate::text::string_of;
use sha2::{Digest, Sha256};
use zstd::stream::raw::Operation;
use vstd::prelude::*;

verus! {

/// Largest zstd window the decoder accepts, as a power of two.
pub const MAX_ZSTD_WINDOW_LOG: u32 = 27;

/// Bytes of decompressed output asked for per decoding step.
pub const DECODE_CHUNK_BYTES: usize = 65536;

/// Bytes of a file's start that hold a zstd frame header.
pub const ZSTD_FRAME_HEADER_MAX_BYTES: usize = 18;

/// A running SHA-256 over the content absorbed so far.
#[verifier::external_body]
pub struct ContentHasher {
    inner: Sha256,
}

/// The bytes a hasher has absorbed, in order.
pub uninterp spec fn absorbed(h: ContentHasher) -> Seq<u8>;

/// Calls `Sha256::new`: a hasher that has absorbed nothing.
#[verifier::external_body]
pub(crate) fn hasher_new() -> (r: ContentHasher)
    ensures
        absorbed(r) == Seq::<u8>::empty(),
{
    ContentHasher { inner: Sha256::new() }
}

/// Calls `Digest::update`: the hasher has absorbed the chunk after what it
/// had before.
#[verifier::external_body]
pub(crate) fn hasher_update(h: &mut ContentHasher, chunk: &[u8])
    ensures
        absorbed(*final(h)) == absorbed(*old(h)) + chunk@,
{
    h.inner.update(chunk);
}

/// Calls `Digest::finalize`: the SHA-256 of all absorbed bytes, 32 bytes
/// long (as `Sha256::digest` of the same bytes gives).
#[verifier::external_body]
pub(crate) fn hasher_finish(h: ContentHasher) -> (r: Vec<u8>)
    ensures
        r@ == sha256(absorbed(h)),
        r@.len() == 32,
{
    h.inner.finalize().to_vec()
}

/// The lower-case hex SHA-256 of everything the hasher absorbed.
pub fn finish_hex(h: ContentHasher) -> (r: String)
    ensures
        r@ == hex_lower(sha256(absorbed(h))),
        r@.len() == 64,
{
    let digest = hasher_finish(h);
    let r = lowercase_hex(digest.as_slice());
    proof {
        lemma_hex_lower_len(digest@);
    }
    r
}

/// The content size a zstd frame header declares, if it declares one.
pub uninterp spec fn zstd_declared_size(prefix: Seq<u8>) -> Option<u64>;

/// Calls `zstd_safe::get_frame_content_size`; an unknown size and an
/// unreadable header both give `None`. The result depends on the bytes alone.
#[verifier::external_body]
fn zstd_frame_content_size(prefix: &[u8]) -> (r: Option<u64>)
    ensures
        r == zstd_declared_size(prefix@),
{
    match zstd::zstd_safe::get_frame_content_size(prefix) {
        Ok(size) => size,
        Err(_) => None,
    }
}

/// A streaming zstd decompression context.
#[verifier::external_body]
pub struct ZstdChunkDecoder {
    inner: zstd::stream::raw::Decoder<'static>,
}

/// The compressed bytes a decoding context has been handed and consumed so
/// far, in order.
pub uninterp spec fn zstd_consumed(d: ZstdChunkDecoder) -> Seq<u8>;

/// The decompressed bytes a decoding context has written so far, in order.
pub uninterp spec fn zstd_produced(d: ZstdChunkDecoder) -> Seq<u8>;

/// What zstd decompression makes of a run of compressed bytes (one or more
/// whole frames): the concatenated content, or `None` when the bytes are not
/// whole frames. It depends on the bytes alone.
pub uninterp spec fn zstd_decompressed(input: Seq<u8>) -> Option<Seq<u8>>;

/// Calls `zstd::stream::raw::Decoder::new` and sets its largest window
/// (`DParameter::WindowLogMax`); the error text when either fails. A new
/// context has consumed and produced nothing.
#[verifier::external_body]
fn zstd_decoder_new(window_log_max: u32) -> (r: Result<ZstdChunkDecoder, String>)
    ensures
        r matches Ok(d) ==> zstd_consumed(d) == Seq::<u8>::empty() && zstd_produced(d) == Seq::<u8>::empty(),
{
    let mut inner = match zstd::stream::raw::Decoder::new() {
        Ok(decoder) => decoder,
        Err(error) => return Err(error.to_string()),
    };
    match inner.set_parameter(zstd::zstd_safe::DParameter::WindowLogMax(window_log_max)) {
        Ok(()) => Ok(ZstdChunkDecoder { inner }),
        Err(error) => Err(error.to_string()),
    }
}

/// Calls `Operation::run_on_buffers` (`ZSTD_decompressStream`) with `input`
/// and an output buffer of `capacity` bytes: the input bytes it consumed,
/// the hint it returned, and the bytes it wrote; or the error text. The
/// context has then consumed the first `read` input bytes more and produced
/// the written bytes more; a hint of 0 means that a frame is completely
/// decoded and fully flushed, so everything consumed so far decompresses to
/// everything produced so far. Decoding is streaming: what has been produced
/// so far is the start of what any whole frames that continue the consumed
/// bytes decompress to.
#[verifier::external_body]
fn zstd_decode_step(dec: &mut ZstdChunkDecoder, input: &[u8], capacity: usize) -> (r: Result<(usize, usize, Vec<u8>), String>)
    ensures
        r matches Ok((read, hint, out)) ==> {
            &&& read <= input@.len()
            &&& out@.len() <= capacity
            &&& zstd_consumed(*final(dec)) == zstd_consumed(*old(dec)) + input@.take(read as int)
            &&& zstd_produced(*final(dec)) == zstd_produced(*old(dec)) + out@
            &&& hint == 0 ==> zstd_decompressed(zstd_consumed(*final(dec))) == Some(zstd_produced(*final(dec)))
            &&& forall|x: Seq<u8>|
                zstd_consumed(*final(dec)).is_prefix_of(x) && #[trigger] zstd_decompressed(x) is Some
                    ==> zstd_produced(*final(dec)).is_prefix_of(zstd_decompressed(x)->0)
        },
{
    let mut out = vec![0u8; capacity];
    match dec.inner.run_on_buffers(input, &mut out) {
        Ok(status) => {
            out.truncate(status.bytes_written);
            Ok((status.bytes_read, status.remaining, out))
        },
        Err(error) => Err(error.to_string()),
    }
}

/// The running total after `n` more bytes, saturated at `u64::MAX`.
pub open spec fn grown_total(total: u64, n: int) -> u64 {
    if total + n > u64::MAX {
        u64::MAX
    } else {
        (total + n) as u64
    }
}

pub open spec fn limit_error(e: Error, path: Seq<char>, limit: u64) -> bool {
    e matches Error::DecompressedDemoTooLarge { path: p, limit_bytes } && p@ == path && limit_bytes == limit
}

/// `Vec::try_reserve`: asks for room for `additional` more bytes. The bytes
/// held are unchanged either way; whether the allocator grants the room is
/// not stated. A refusal is handed back as its text.
#[verifier::external_body]
fn try_reserve_bytes(v: &mut Vec<u8>, additional: usize) -> (r: Result<(), String>)
    ensures
        final(v)@ == old(v)@,
{
    match v.try_reserve(additional) {
        Ok(()) => Ok(()),
        Err(error) => Err(format!("{}", error)),
    }
}

/// The error of a failed allocation while loading the demo at `path`.
pub open spec fn allocation_error(e: Error, path: Seq<char>, decoded_bytes: u64) -> bool {
    e matches Error::DemoAllocation { path: p, decoded_bytes: d, .. } && p@ == path && d == decoded_bytes
}

/// A failed allocation while loading the demo at `path`, after any count of
/// decoded bytes.
pub open spec fn any_allocation_error(e: Error, path: Seq<char>) -> bool {
    e matches Error::DemoAllocation { path: p, .. } && p@ == path
}

/// The zstd decoder refused the demo at `path`.
pub open spec fn decoder_error(e: Error, path: Seq<char>) -> bool {
    e matches Error::ZstdDemo { path: p, .. } && p@ == path
}

/// Compressed bytes whose content may be refused as too large: the frame
/// header declares more than the limit, or the bytes do not decompress to
/// content within the limit (too much content, or not whole frames).
pub open spec fn content_over_limit(raw: Seq<u8>, limit: u64) -> bool {
    declared_too_large(raw, limit) || !(zstd_decompressed(raw) matches Some(c) && c.len() <= limit)
}

/// Makes room in `output` for `additional` more bytes of demo content,
/// reporting a failed allocation (after `decoded_bytes` decoded bytes) as an
/// error in place of a panic. The bytes held are unchanged either way.
pub fn reserve_demo_capacity(output: &mut Vec<u8>, additional: usize, path: &str, decoded_bytes: u64) -> (r: Result<(), Error>)
    ensures
        final(output)@ == old(output)@,
        r matches Err(e) ==> allocation_error(e, path@, decoded_bytes),
{
    match try_reserve_bytes(output, additional) {
        Ok(()) => Ok(()),
        Err(detail) => Err(Error::DemoAllocation { path: string_of(path), decoded_bytes, detail }),
    }
}

/// Absorbs one chunk of logical content: the running total grows by its
/// length, and the chunk is hashed (and kept, when asked) only while the
/// total stays within the limit. Keeping the chunk fails, with nothing
/// absorbed, when no memory can be had for it.
pub fn absorb_content_chunk(
    hasher: &mut ContentHasher,
    kept: &mut Vec<u8>,
    keep: bool,
    total: &mut u64,
    chunk: &[u8],
    limit: u64,
    path: &str,
) -> (r: Result<(), Error>)
    ensures
        *final(total) == grown_total(*old(total), chunk@.len() as int),
        r is Ok ==> *final(total) <= limit,
        *final(total) > limit ==> (r matches Err(e) && limit_error(e, path@, limit)),
        !keep ==> (r is Ok <==> *final(total) <= limit),
        r is Ok ==> absorbed(*final(hasher)) == absorbed(*old(hasher)) + chunk@
            && final(kept)@ == (if keep { old(kept)@ + chunk@ } else { old(kept)@ }),
        r matches Err(e) ==> ((*final(total) > limit && limit_error(e, path@, limit)) || (*final(total) <= limit && keep
            && allocation_error(e, path@, *final(total)))) && absorbed(*final(hasher)) == absorbed(*old(hasher))
            && final(kept)@ == old(kept)@,
{
    let n = chunk.len() as u64;
    *total = if *total > u64::MAX - n {
        u64::MAX
    } else {
        *total + n
    };
    match enforce_demo_limit(path, *total, limit) {
        Err(e) => Err(e),
        Ok(()) => {
            if keep {
                match reserve_demo_capacity(kept, chunk.len(), path, *total) {
                    Err(e) => return Err(e),
                    Ok(()) => {},
                }
            }
            hasher_update(hasher, chunk);
            if keep {
                let mut i: usize = 0;
                let ghost before = kept@;
                while i < chunk.len()
                    invariant
                        i <= chunk@.len(),
                        kept@ == before + chunk@.take(i as int),
                    decreases chunk.len() - i,
                {
                    kept.push(chunk[i]);
                    proof {
                        assert(chunk@.take(i + 1) =~= chunk@.take(i as int).push(chunk@[i as int]));
                    }
                    i = i + 1;
                }
                proof {
                    assert(chunk@.take(chunk@.len() as int) =~= chunk@);
                }
            }
            Ok(())
        },
    }
}

/// The declared content size of a zstd frame is over the limit: the file
/// starts with a zstd magic number and its header declares a larger size.
pub open spec fn declared_too_large(raw: Seq<u8>, limit: u64) -> bool {
    let prefix = if raw.len() > ZSTD_FRAME_HEADER_MAX_BYTES {
        raw.take(ZSTD_FRAME_HEADER_MAX_BYTES as int)
    } else {
        raw
    };
    crate::demo_input::spec_has_zstd_magic(prefix) && (zstd_declared_size(prefix) matches Some(n) && n > limit)
}

fn zstd_error(path: &str, detail: String) -> (r: Error)
    ensures
        r matches Error::ZstdDemo { path: p, detail: d } && p@ == path@ && d@ == detail@,
{
    Error::ZstdDemo { path: string_of(path), detail }
}

/// Streams raw bytes through the content sink: decompressed for zstd input,
/// as they are otherwise, hashed (and kept, when asked) within the limit.
/// Plain input over the limit and zstd input whose header declares more than
/// the limit are refused before anything is absorbed; whatever is absorbed is
/// at most `limit` bytes.
fn stream_content(raw: &[u8], compressed: bool, limit: u64, path: &str, hasher: &mut ContentHasher, kept: &mut Vec<u8>, keep: bool) -> (r: Result<(), Error>)
    requires
        limit < u64::MAX,
        absorbed(*old(hasher)) == Seq::<u8>::empty(),
        old(kept)@ == Seq::<u8>::empty(),
    ensures
        !compressed && !keep ==> (r is Ok <==> raw@.len() <= limit),
        !compressed ==> (r is Ok ==> raw@.len() <= limit),
        !compressed && raw@.len() > limit ==> (r matches Err(e) && limit_error(e, path@, limit)),
        !compressed && r is Ok ==> absorbed(*final(hasher)) == raw@ && (keep ==> final(kept)@ == raw@),
        r is Ok ==> absorbed(*final(hasher)).len() <= limit && (keep ==> final(kept)@ == absorbed(*final(hasher))),
        compressed && declared_too_large(raw@, limit) ==> (r matches Err(e) && limit_error(e, path@, limit)),
        !compressed ==> (r matches Err(e) ==> limit_error(e, path@, limit) || (keep && allocation_error(e, path@, raw@.len() as u64))),
        !compressed && raw@.len() <= limit ==> (r is Ok || (r matches Err(e) && keep && allocation_error(e, path@, raw@.len() as u64))),
        compressed && r is Ok ==> zstd_decompressed(raw@) == Some(absorbed(*final(hasher))),
        compressed ==> (r matches Err(e) ==> limit_error(e, path@, limit) || decoder_error(e, path@) || (keep
            && any_allocation_error(e, path@))),
        compressed ==> (r matches Err(e) && limit_error(e, path@, limit) ==> content_over_limit(raw@, limit)),
{
    if !compressed {
        let mut total: u64 = 0;
        let r = absorb_content_chunk(hasher, kept, keep, &mut total, raw, limit, path);
        return r;
    }
    let prefix_len = if raw.len() > ZSTD_FRAME_HEADER_MAX_BYTES {
        ZSTD_FRAME_HEADER_MAX_BYTES
    } else {
        raw.len()
    };
    let prefix = vstd::slice::slice_subrange(raw, 0, prefix_len);
    proof {
        assert(prefix@ =~= (if raw@.len() > ZSTD_FRAME_HEADER_MAX_BYTES {
            raw@.take(ZSTD_FRAME_HEADER_MAX_BYTES as int)
        } else {
            raw@
        }));
    }
    if has_zstd_magic(prefix) {
        match zstd_frame_content_size(prefix) {
            Some(size) => {
                match enforce_demo_limit(path, size, limit) {
                    Err(e) => return Err(e),
                    Ok(()) => {},
                }
            },
            None => {},
        }
    }
    let mut dec = match zstd_decoder_new(MAX_ZSTD_WINDOW_LOG) {
        Ok(d) => d,
        Err(detail) => return Err(zstd_error(path, detail)),
    };
    let mut pos: usize = 0;
    let mut total: u64 = 0;
    let mut finished = false;
    let mut done = false;
    while !done
        invariant
            pos <= raw@.len(),
            compressed,
            !declared_too_large(raw@, limit),
            total <= limit,
            limit < u64::MAX,
            absorbed(*hasher).len() == total,
            keep ==> kept@ == absorbed(*hasher),
            zstd_consumed(dec) == raw@.take(pos as int),
            zstd_produced(dec) == absorbed(*hasher),
            finished ==> zstd_decompressed(zstd_consumed(dec)) == Some(zstd_produced(dec)),
            raw@.len() == raw.len(),
        decreases 2 * ((raw@.len() - pos) + (limit - total)) + (if done { 0int } else { 1int }),
    {
        let input = vstd::slice::slice_subrange(raw, pos, raw.len());
        let step = zstd_decode_step(&mut dec, input, DECODE_CHUNK_BYTES);
        let (read, hint, out) = match step {
            Ok(s) => s,
            Err(detail) => return Err(zstd_error(path, detail)),
        };
        proof {
            assert(raw@.take(pos as int) + input@.take(read as int) =~= raw@.take(pos + read));
        }
        if read > 0 || out.len() > 0 {
            finished = hint == 0;
        }
        pos = pos + read;
        if out.len() > 0 {
            let ghost before = absorbed(*hasher);
            let ghost old_total = total;
            match absorb_content_chunk(hasher, kept, keep, &mut total, out.as_slice(), limit, path) {
                Err(e) => {
                    proof {
                        if limit_error(e, path@, limit) {
                            assert(raw@.take(pos as int).is_prefix_of(raw@));
                            if zstd_decompressed(raw@) is Some {
                                let c = zstd_decompressed(raw@)->0;
                                assert(zstd_produced(dec).is_prefix_of(c));
                                assert(zstd_produced(dec) == before + out@);
                                assert(old_total + out@.len() > limit);
                            }
                        }
                    }
                    return Err(e);
                },
                Ok(()) => {},
            }
        } else {
            proof {
                assert(out@ =~= Seq::<u8>::empty());
                assert(zstd_produced(dec) =~= absorbed(*hasher));
            }
            if read == 0 {
                done = true;
            }
        }
    }
    if !finished || pos < raw.len() {
        return Err(zstd_error(path, string_of("incomplete frame")));
    }
    proof {
        assert(raw@.take(pos as int) =~= raw@);
    }
    Ok(())
}

/// The lower-case hex SHA-256 of a demo file's logical content, from the
/// file's raw bytes: as they are for plain input, decompressed for zstd
/// input. The hash is that of the plain bytes, or of what zstd decompresses
/// the compressed bytes to; plain input over the
/// limit, and zstd input whose header declares more than the limit, are
/// refused; decompressed content is at most `limit` bytes. The limit must
/// leave room to count past it.
pub fn demo_content_sha256(raw: &[u8], compressed: bool, limit: u64, path: &str) -> (r: Result<String, Error>)
    requires
        limit < u64::MAX,
    ensures
        !compressed ==> (r is Ok <==> raw@.len() <= limit),
        !compressed ==> (r matches Ok(h) ==> h@ == hex_lower(sha256(raw@))),
        r matches Ok(h) ==> h@.len() == 64,
        compressed ==> (r matches Ok(h) ==> (zstd_decompressed(raw@) matches Some(c) && c.len() <= limit
            && h@ == hex_lower(sha256(c)))),
        compressed && declared_too_large(raw@, limit) ==> (r matches Err(e) && limit_error(e, path@, limit)),
        !compressed ==> (r matches Err(e) ==> limit_error(e, path@, limit)),
        compressed ==> (r matches Err(e) ==> limit_error(e, path@, limit) || decoder_error(e, path@)),
        compressed ==> (r matches Err(e) && limit_error(e, path@, limit) ==> content_over_limit(raw@, limit)),
{
    let header_len = if raw.len() > ZSTD_FRAME_HEADER_MAX_BYTES {
        ZSTD_FRAME_HEADER_MAX_BYTES
    } else {
        raw.len()
    };
    let header = vstd::slice::slice_subrange(raw, 0, header_len);
    proof {
        assert(header@ =~= (if raw@.len() > ZSTD_FRAME_HEADER_MAX_BYTES {
            raw@.take(ZSTD_FRAME_HEADER_MAX_BYTES as int)
        } else {
            raw@
        }));
    }
    let mut stream = match ContentStream::start(compressed, header, limit, path) {
        Err(e) => return Err(e),
        Ok(s) => s,
    };
    match stream.feed(raw, path) {
        Err(e) => {
            proof {
                assert(Seq::<u8>::empty() + raw@ =~= raw@);
                assert(raw@.is_prefix_of(raw@));
            }
            return Err(e);
        },
        Ok(()) => {},
    }
    proof {
        assert(Seq::<u8>::empty() + raw@ =~= raw@);
    }
    stream.finish_sha256(path)
}

/// The logical content of a demo file from its raw bytes: the bytes
/// themselves for plain input, the decompressed bytes for zstd input, at most
/// `limit` of them. Memory for the content that cannot be had is reported as
/// an error.
pub fn decode_demo_content(raw: &[u8], compressed: bool, limit: u64, path: &str) -> (r: Result<Vec<u8>, Error>)
    requires
        limit < u64::MAX,
    ensures
        !compressed ==> (r is Ok ==> raw@.len() <= limit),
        !compressed && raw@.len() > limit ==> (r matches Err(e) && limit_error(e, path@, limit)),
        !compressed ==> (r matches Ok(c) ==> c@ == raw@),
        r matches Ok(c) ==> c@.len() <= limit,
        compressed ==> (r matches Ok(c) ==> zstd_decompressed(raw@) == Some(c@)),
        compressed && declared_too_large(raw@, limit) ==> (r matches Err(e) && limit_error(e, path@, limit)),
        !compressed ==> (r matches Err(e) ==> limit_error(e, path@, limit) || allocation_error(e, path@, raw@.len() as u64)),
        !compressed && raw@.len() <= limit ==> (r is Ok || (r matches Err(e) && allocation_error(e, path@, raw@.len() as u64))),
        compressed ==> (r matches Err(e) ==> limit_error(e, path@, limit) || decoder_error(e, path@) || any_allocation_error(e, path@)),
        compressed ==> (r matches Err(e) && limit_error(e, path@, limit) ==> content_over_limit(raw@, limit)),
{
    let mut hasher = hasher_new();
    let mut kept: Vec<u8> = Vec::new();
    match stream_content(raw, compressed, limit, path, &mut hasher, &mut kept, true) {
        Err(e) => Err(e),
        Ok(()) => Ok(kept),
    }
}

/// The header of a zstd file declares more content than the limit.
pub open spec fn header_declares_too_much(header: Seq<u8>, limit: u64) -> bool {
    crate::demo_input::spec_has_zstd_magic(header) && (zstd_declared_size(header) matches Some(n) && n > limit)
}

/// No whole zstd frames that continue `fed` decompress to content within the
/// limit.
pub open spec fn no_content_within_limit(fed: Seq<u8>, limit: u64) -> bool {
    forall|x: Seq<u8>| fed.is_prefix_of(x) ==> !(#[trigger] zstd_decompressed(x) matches Some(c) && c.len() <= limit)
}

/// The logical content of a demo file, taken in as the file is read: its raw
/// bytes are fed in order, decompressed when the file is zstd input, and
/// hashed within the size limit, so that neither the file nor its content is
/// held whole.
pub struct ContentStream {
    hasher: ContentHasher,
    decoder: Option<ZstdChunkDecoder>,
    compressed: bool,
    total: u64,
    limit: u64,
    finished: bool,
    fed: Ghost<Seq<u8>>,
}

impl ContentStream {
    /// The raw bytes fed so far.
    pub closed spec fn fed(&self) -> Seq<u8> {
        self.fed@
    }

    /// Whether the raw bytes are zstd input.
    pub closed spec fn is_compressed(&self) -> bool {
        self.compressed
    }

    /// The size limit of the content.
    pub closed spec fn content_limit(&self) -> u64 {
        self.limit
    }

    /// The stream's parts agree: the content taken in so far is what the
    /// raw bytes fed are (for zstd input, what the decoder made of them), it
    /// is within the limit, and a finished frame means the bytes fed
    /// decompress to it.
    pub closed spec fn wf(&self) -> bool {
        &&& self.limit < u64::MAX
        &&& self.total <= self.limit
        &&& absorbed(self.hasher).len() == self.total
        &&& self.compressed == (self.decoder is Some)
        &&& (!self.compressed ==> absorbed(self.hasher) == self.fed@)
        &&& (self.decoder matches Some(d) ==> {
            &&& zstd_consumed(d) == self.fed@
            &&& zstd_produced(d) == absorbed(self.hasher)
            &&& (self.finished ==> zstd_decompressed(self.fed@) == Some(absorbed(self.hasher)))
        })
    }

    /// Starts the content of a demo file from the first bytes of the file
    /// (its header). A zstd file whose header declares more content than the
    /// limit is refused; plain input is always accepted here, its size being
    /// checked as it is fed.
    pub fn start(compressed: bool, header: &[u8], limit: u64, path: &str) -> (r: Result<ContentStream, Error>)
        requires
            limit < u64::MAX,
        ensures
            r matches Ok(s) ==> s.wf() && s.fed() == Seq::<u8>::empty() && s.is_compressed() == compressed
                && s.content_limit() == limit,
            !compressed ==> r is Ok,
            compressed && header_declares_too_much(header@, limit) ==> (r matches Err(e) && limit_error(e, path@, limit)),
            r matches Err(e) ==> compressed && ((limit_error(e, path@, limit) && header_declares_too_much(header@, limit))
                || decoder_error(e, path@)),
    {
        let hasher = hasher_new();
        if !compressed {
            return Ok(ContentStream {
                hasher,
                decoder: None,
                compressed,
                total: 0,
                limit,
                finished: false,
                fed: Ghost(Seq::empty()),
            });
        }
        if has_zstd_magic(header) {
            match zstd_frame_content_size(header) {
                Some(size) => {
                    match enforce_demo_limit(path, size, limit) {
                        Err(e) => return Err(e),
                        Ok(()) => {},
                    }
                },
                None => {},
            }
        }
        match zstd_decoder_new(MAX_ZSTD_WINDOW_LOG) {
            Err(detail) => Err(zstd_error(path, detail)),
            Ok(d) => Ok(ContentStream {
                hasher,
                decoder: Some(d),
                compressed,
                total: 0,
                limit,
                finished: false,
                fed: Ghost(Seq::empty()),
            }),
        }
    }

    /// Feeds the next raw bytes of the file. Plain bytes are taken in as
    /// they are, and refused when the content grows past the limit; zstd
    /// bytes are decompressed and their content taken in, refused when it
    /// grows past the limit (then no whole frames continuing the bytes fed
    /// decompress to content within it), or when the decoder refuses them
    /// or cannot take all of them.
    #[verifier::loop_isolation(false)]
    pub fn feed(&mut self, chunk: &[u8], path: &str) -> (r: Result<(), Error>)
        requires
            old(self).wf(),
        ensures
            r is Ok ==> final(self).wf() && final(self).fed() == old(self).fed() + chunk@,
            final(self).is_compressed() == old(self).is_compressed(),
            final(self).content_limit() == old(self).content_limit(),
            !old(self).is_compressed() ==> (r is Ok <==> old(self).fed().len() + chunk@.len() <= old(self).content_limit()),
            !old(self).is_compressed() ==> (r matches Err(e) ==> limit_error(e, path@, old(self).content_limit())),
            old(self).is_compressed() ==> (r matches Err(e) ==> limit_error(e, path@, old(self).content_limit())
                || decoder_error(e, path@)),
            old(self).is_compressed() ==> (r matches Err(e) && limit_error(e, path@, old(self).content_limit())
                ==> no_content_within_limit(old(self).fed() + chunk@, old(self).content_limit())),
    {
        let limit = self.limit;
        let mut total = self.total;
        let mut kept: Vec<u8> = Vec::new();
        if !self.compressed {
            let r = absorb_content_chunk(&mut self.hasher, &mut kept, false, &mut total, chunk, limit, path);
            if r.is_ok() {
                self.total = total;
                self.fed = Ghost(self.fed@ + chunk@);
            }
            return r;
        }
        let ghost start_fed = self.fed@;
        let mut dec = match self.decoder.take() {
            Some(d) => d,
            None => return Ok(()),
        };
        let mut pos: usize = 0;
        let mut finished = self.finished;
        let mut done = false;
        while !done
            invariant
                pos <= chunk@.len(),
                total <= limit,
                limit < u64::MAX,
                limit == self.limit,
                self.compressed,
                self.decoder is None,
                absorbed(self.hasher).len() == total,
                zstd_consumed(dec) == start_fed + chunk@.take(pos as int),
                zstd_produced(dec) == absorbed(self.hasher),
                finished ==> zstd_decompressed(zstd_consumed(dec)) == Some(zstd_produced(dec)),
            decreases 2 * ((chunk@.len() - pos) + (limit - total)) + (if done { 0int } else { 1int }),
        {
            let input = vstd::slice::slice_subrange(chunk, pos, chunk.len());
            let step = zstd_decode_step(&mut dec, input, DECODE_CHUNK_BYTES);
            let (read, hint, out) = match step {
                Ok(s) => s,
                Err(detail) => return Err(zstd_error(path, detail)),
            };
            proof {
                assert(start_fed + chunk@.take(pos as int) + input@.take(read as int) =~= start_fed + chunk@.take(pos + read));
            }
            if read > 0 || out.len() > 0 {
                finished = hint == 0;
            }
            pos = pos + read;
            if out.len() > 0 {
                let ghost before = absorbed(self.hasher);
                let ghost old_total = total;
                match absorb_content_chunk(&mut self.hasher, &mut kept, false, &mut total, out.as_slice(), limit, path) {
                    Err(e) => {
                        proof {
                            assert forall|x: Seq<u8>| (start_fed + chunk@).is_prefix_of(x) implies !(
                            #[trigger] zstd_decompressed(x) matches Some(c) && c.len() <= limit) by {
                                assert((start_fed + chunk@.take(pos as int)).is_prefix_of(x)) by {
                                    assert(forall|i: int| 0 <= i < pos ==> chunk@.take(pos as int)[i] == chunk@[i]);
                                    assert((start_fed + chunk@.take(pos as int)) =~= (start_fed + chunk@).subrange(0, start_fed.len() + pos));
                                }
                                if zstd_decompressed(x) is Some {
                                    let c = zstd_decompressed(x)->0;
                                    assert(zstd_produced(dec).is_prefix_of(c));
                                    assert(zstd_produced(dec) == before + out@);
                                    assert(old_total + out@.len() > limit);
                                }
                            }
                        }
                        return Err(e);
                    },
                    Ok(()) => {},
                }
            } else {
                proof {
                    assert(out@ =~= Seq::<u8>::empty());
                    assert(zstd_produced(dec) =~= absorbed(self.hasher));
                }
                if read == 0 {
                    done = true;
                }
            }
        }
        if pos < chunk.len() {
            return Err(zstd_error(path, string_of("incomplete frame")));
        }
        proof {
            assert(chunk@.take(pos as int) =~= chunk@);
        }
        self.decoder = Some(dec);
        self.total = total;
        self.finished = finished;
        self.fed = Ghost(start_fed + chunk@);
        Ok(())
    }

    /// Ends the stream: the lower-case hex SHA-256 of the content. Plain
    /// content is the bytes fed; zstd bytes must have ended a frame, and the
    /// content is what they decompress to.
    pub fn finish_sha256(self, path: &str) -> (r: Result<String, Error>)
        requires
            self.wf(),
        ensures
            !self.is_compressed() ==> (r matches Ok(h) && h@ == hex_lower(sha256(self.fed()))
                && self.fed().len() <= self.content_limit()),
            self.is_compressed() ==> (r matches Ok(h) ==> (zstd_decompressed(self.fed()) matches Some(c)
                && c.len() <= self.content_limit() && h@ == hex_lower(sha256(c)))),
            r matches Err(e) ==> self.is_compressed() && decoder_error(e, path@),
            r matches Ok(h) ==> h@.len() == 64,
    {
        if self.compressed && !self.finished {
            return Err(zstd_error(path, string_of("incomplete frame")));
        }
        Ok(finish_hex(self.hasher))
    }
}

} // verus!
