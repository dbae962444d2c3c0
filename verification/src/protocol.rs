//! The chunk protocol (version 2).
//!
//! Every QR code carries one chunk: a 12-byte header (magic "CG", version,
//! flags, big-endian sequence number, big-endian total, big-endian CRC-32 of
//! the whole uncompressed text) followed by a slice of the compressed message.
use vstd::prelude::*;
use vstd::arithmetic::div_mod::{lemma_fundamental_div_mod, lemma_fundamental_div_mod_converse};
use vstd::arithmetic::mul::lemma_mul_inequality;
use vstd::slice::{slice_subrange, slice_to_vec};
use vstd::string::StringSliceAdditionalSpecFns;
use vstd::utf8::*;
use crate::codec::{lz4_compress_prepend_size, lz4_compressed, lz4_decompress_size_prepended, lz4_decompressed, lossy_text, string_from_utf8_lossy};

verus! {

pub const MAGIC: [u8; 2] = [0x43, 0x47];

pub const VERSION: u8 = 0x02;

pub const FLAG_COMPRESSED: u8 = 0x01;

pub const FLAG_COLOR: u8 = 0x02;

pub const HEADER_SIZE: usize = 12;

pub const MAX_CHUNKS: u16 = 100;

// ---------------------------------------------------------------------------
// CRC-32 (IEEE, reflected, polynomial 0xEDB88320)
// ---------------------------------------------------------------------------

/// One bit step of the reflected CRC-32 register.
pub open spec fn crc_bit_step(crc: u32) -> u32 {
    if crc & 1 != 0 {
        (crc >> 1) ^ 0xEDB88320u32
    } else {
        crc >> 1
    }
}

/// `n` bit steps of the register.
pub open spec fn crc_bit_steps(crc: u32, n: nat) -> u32
    decreases n,
{
    if n == 0 {
        crc
    } else {
        crc_bit_step(crc_bit_steps(crc, (n - 1) as nat))
    }
}

/// The register after absorbing one byte.
pub open spec fn crc_absorb(crc: u32, byte: u8) -> u32 {
    crc_bit_steps(crc ^ (byte as u32), 8)
}

/// The register after absorbing all of `data`, starting from all ones.
pub open spec fn crc_register(data: Seq<u8>) -> u32
    decreases data.len(),
{
    if data.len() == 0 {
        0xFFFF_FFFFu32
    } else {
        crc_absorb(crc_register(data.drop_last()), data.last())
    }
}

/// CRC-32 of a byte sequence: the final register, inverted.
pub open spec fn crc32_of(data: Seq<u8>) -> u32 {
    !crc_register(data)
}

/// Computes the CRC-32 (IEEE) checksum of `data`.
pub fn compute_crc32(data: &[u8]) -> (crc: u32)
    ensures
        crc == crc32_of(data@),
{
    let mut crc: u32 = 0xFFFF_FFFF;
    let mut i: usize = 0;
    while i < data.len()
        invariant
            i <= data.len(),
            crc == crc_register(data@.take(i as int)),
        decreases data.len() - i,
    {
        let byte = data[i];
        let ghost start = crc ^ (byte as u32);
        crc = crc ^ (byte as u32);
        let mut k: u32 = 0;
        while k < 8
            invariant
                k <= 8,
                crc == crc_bit_steps(start, k as nat),
            decreases 8 - k,
        {
            if crc & 1 != 0 {
                crc = (crc >> 1) ^ 0xEDB88320u32;
            } else {
                crc = crc >> 1;
            }
            k = k + 1;
        }
        assert(data@.take(i + 1).drop_last() =~= data@.take(i as int));
        i = i + 1;
    }
    assert(data@.take(data.len() as int) =~= data@);
    !crc
}

/// CRC-32 takes every byte into account: it is the register folded over all
/// of the input from the left, one `crc_absorb` per byte, starting from all
/// ones, and inverted.
pub proof fn lemma_crc32_is_fold(data: Seq<u8>)
    ensures
        crc32_of(data) == !data.fold_left(0xFFFF_FFFFu32, |r: u32, b: u8| crc_absorb(r, b)),
{
    lemma_crc_register_is_fold(data);
}

proof fn lemma_crc_register_is_fold(data: Seq<u8>)
    ensures
        crc_register(data) == data.fold_left(0xFFFF_FFFFu32, |r: u32, b: u8| crc_absorb(r, b)),
    decreases data.len(),
{
    let f = |r: u32, b: u8| crc_absorb(r, b);
    if data.len() > 0 {
        lemma_crc_register_is_fold(data.drop_last());
        assert(data.fold_left(0xFFFF_FFFFu32, f) == f(data.drop_last().fold_left(0xFFFF_FFFFu32, f), data.last()));
    }
}

/// Appending a byte absorbs it into the register, whatever came before (no
/// byte, at any position, is skipped).
pub proof fn lemma_crc_register_push(data: Seq<u8>, b: u8)
    ensures
        crc_register(data.push(b)) == crc_absorb(crc_register(data), b),
{
    assert(data.push(b).drop_last() =~= data);
}

/// The bytewise exclusive or of three sequences of one length.
pub open spec fn xor3_bytes(a: Seq<u8>, b: Seq<u8>, c: Seq<u8>) -> Seq<u8> {
    Seq::new(a.len(), |i: int| a[i] ^ b[i] ^ c[i])
}

proof fn lemma_crc_bit_steps_xor3(x: u32, y: u32, z: u32, n: nat)
    ensures
        crc_bit_steps(x ^ y ^ z, n) == crc_bit_steps(x, n) ^ crc_bit_steps(y, n) ^ crc_bit_steps(
            z,
            n,
        ),
    decreases n,
{
    if n > 0 {
        lemma_crc_bit_steps_xor3(x, y, z, (n - 1) as nat);
        let px = crc_bit_steps(x, (n - 1) as nat);
        let py = crc_bit_steps(y, (n - 1) as nat);
        let pz = crc_bit_steps(z, (n - 1) as nat);
        assert(crc_bit_step(px ^ py ^ pz) == crc_bit_step(px) ^ crc_bit_step(py) ^ crc_bit_step(pz))
            by (bit_vector);
    }
}

proof fn lemma_crc_register_xor3(a: Seq<u8>, b: Seq<u8>, c: Seq<u8>)
    requires
        a.len() == b.len(),
        b.len() == c.len(),
    ensures
        crc_register(xor3_bytes(a, b, c)) == crc_register(a) ^ crc_register(b) ^ crc_register(c),
    decreases a.len(),
{
    let d = xor3_bytes(a, b, c);
    if a.len() == 0 {
        assert(0xFFFF_FFFFu32 ^ 0xFFFF_FFFFu32 ^ 0xFFFF_FFFFu32 == 0xFFFF_FFFFu32) by (bit_vector);
    } else {
        assert(d.drop_last() =~= xor3_bytes(a.drop_last(), b.drop_last(), c.drop_last()));
        lemma_crc_register_xor3(a.drop_last(), b.drop_last(), c.drop_last());
        let ra = crc_register(a.drop_last());
        let rb = crc_register(b.drop_last());
        let rc = crc_register(c.drop_last());
        let la = a.last();
        let lb = b.last();
        let lc = c.last();
        assert(d.last() == la ^ lb ^ lc);
        assert((ra ^ rb ^ rc) ^ ((la ^ lb ^ lc) as u32) == (ra ^ (la as u32)) ^ (rb ^ (lb as u32)) ^ (
        rc ^ (lc as u32))) by (bit_vector);
        lemma_crc_bit_steps_xor3(ra ^ (la as u32), rb ^ (lb as u32), rc ^ (lc as u32), 8);
    }
}

/// CRC-32 is affine over GF(2) for a fixed length: the checksum of the
/// bytewise exclusive or of three sequences of one length is the exclusive
/// or of their checksums.
pub proof fn lemma_crc32_affine(a: Seq<u8>, b: Seq<u8>, c: Seq<u8>)
    requires
        a.len() == b.len(),
        b.len() == c.len(),
    ensures
        crc32_of(xor3_bytes(a, b, c)) == crc32_of(a) ^ crc32_of(b) ^ crc32_of(c),
{
    lemma_crc_register_xor3(a, b, c);
    let ra = crc_register(a);
    let rb = crc_register(b);
    let rc = crc_register(c);
    assert(!(ra ^ rb ^ rc) == !ra ^ !rb ^ !rc) by (bit_vector);
}

// ---------------------------------------------------------------------------
// Big-endian fields
// ---------------------------------------------------------------------------

/// The two big-endian bytes of `x`.
pub open spec fn be16_bytes(x: u16) -> Seq<u8> {
    seq![(x >> 8u16) as u8, (x & 0xffu16) as u8]
}

/// The four big-endian bytes of `x`.
pub open spec fn be32_bytes(x: u32) -> Seq<u8> {
    seq![(x >> 24u32) as u8, ((x >> 16u32) & 0xffu32) as u8, ((x >> 8u32) & 0xffu32) as u8, (x & 0xffu32) as u8]
}

/// The `u16` whose big-endian bytes are `hi`, `lo`.
pub open spec fn be16_value(hi: u8, lo: u8) -> u16 {
    ((hi as u16) << 8u16) | (lo as u16)
}

/// The `u32` whose big-endian bytes are `b0`, `b1`, `b2`, `b3`.
pub open spec fn be32_value(b0: u8, b1: u8, b2: u8, b3: u8) -> u32 {
    ((b0 as u32) << 24u32) | ((b1 as u32) << 16u32) | ((b2 as u32) << 8u32) | (b3 as u32)
}

proof fn lemma_be16_roundtrip(x: u16)
    ensures
        be16_value(be16_bytes(x)[0], be16_bytes(x)[1]) == x,
{
    let hi = (x >> 8u16) as u8;
    let lo = (x & 0xffu16) as u8;
    assert((((hi as u16) << 8u16) | (lo as u16)) == x) by (bit_vector)
        requires
            hi == (x >> 8u16) as u8,
            lo == (x & 0xffu16) as u8,
    ;
}

proof fn lemma_be16_bytes_of_value(hi: u8, lo: u8)
    ensures
        be16_bytes(be16_value(hi, lo)) == seq![hi, lo],
{
    let x = ((hi as u16) << 8u16) | (lo as u16);
    assert((x >> 8u16) as u8 == hi && (x & 0xffu16) as u8 == lo) by (bit_vector)
        requires
            x == ((hi as u16) << 8u16) | (lo as u16),
    ;
    assert(be16_bytes(x) =~= seq![hi, lo]);
}

proof fn lemma_be32_roundtrip(x: u32)
    ensures
        be32_value(be32_bytes(x)[0], be32_bytes(x)[1], be32_bytes(x)[2], be32_bytes(x)[3]) == x,
{
    let b0 = (x >> 24u32) as u8;
    let b1 = ((x >> 16u32) & 0xffu32) as u8;
    let b2 = ((x >> 8u32) & 0xffu32) as u8;
    let b3 = (x & 0xffu32) as u8;
    assert((((b0 as u32) << 24u32) | ((b1 as u32) << 16u32) | ((b2 as u32) << 8u32) | (b3 as u32))
        == x) by (bit_vector)
        requires
            b0 == (x >> 24u32) as u8,
            b1 == ((x >> 16u32) & 0xffu32) as u8,
            b2 == ((x >> 8u32) & 0xffu32) as u8,
            b3 == (x & 0xffu32) as u8,
    ;
}

proof fn lemma_be32_bytes_of_value(b0: u8, b1: u8, b2: u8, b3: u8)
    ensures
        be32_bytes(be32_value(b0, b1, b2, b3)) == seq![b0, b1, b2, b3],
{
    let x = ((b0 as u32) << 24u32) | ((b1 as u32) << 16u32) | ((b2 as u32) << 8u32) | (b3 as u32);
    assert((x >> 24u32) as u8 == b0 && ((x >> 16u32) & 0xffu32) as u8 == b1 && ((x >> 8u32)
        & 0xffu32) as u8 == b2 && (x & 0xffu32) as u8 == b3) by (bit_vector)
        requires
            x == ((b0 as u32) << 24u32) | ((b1 as u32) << 16u32) | ((b2 as u32) << 8u32) | (
            b3 as u32),
    ;
    assert(be32_bytes(x) =~= seq![b0, b1, b2, b3]);
}

// ---------------------------------------------------------------------------
// Chunks
// ---------------------------------------------------------------------------

/// One protocol chunk, as carried by one QR code.
#[derive(Debug, Clone, PartialEq, Eq)]
pub struct Chunk {
    pub version: u8,
    pub flags: u8,
    pub seq: u16,
    pub total: u16,
    pub crc32: u32,
    pub payload: Vec<u8>,
}

/// The mathematical value of a chunk.
pub struct ChunkView {
    pub version: u8,
    pub flags: u8,
    pub seq: u16,
    pub total: u16,
    pub crc32: u32,
    pub payload: Seq<u8>,
}

impl View for Chunk {
    type V = ChunkView;

    open spec fn view(&self) -> ChunkView {
        ChunkView {
            version: self.version,
            flags: self.flags,
            seq: self.seq,
            total: self.total,
            crc32: self.crc32,
            payload: self.payload@,
        }
    }
}

/// The wire bytes of a chunk: the 12-byte header, then the payload.
pub open spec fn chunk_bytes(c: ChunkView) -> Seq<u8> {
    seq![0x43u8, 0x47u8, c.version, c.flags] + be16_bytes(c.seq) + be16_bytes(c.total) + be32_bytes(
        c.crc32,
    ) + c.payload
}

/// What the wire bytes `d` decode to: `None` unless they hold a full header
/// with the right magic and the supported version.
pub open spec fn chunk_of_bytes(d: Seq<u8>) -> Option<ChunkView> {
    if d.len() < 12 || d[0] != 0x43u8 || d[1] != 0x47u8 || d[2] != VERSION {
        None
    } else {
        Some(
            ChunkView {
                version: d[2],
                flags: d[3],
                seq: be16_value(d[4], d[5]),
                total: be16_value(d[6], d[7]),
                crc32: be32_value(d[8], d[9], d[10], d[11]),
                payload: d.subrange(12, d.len() as int),
            },
        )
    }
}

fn push_slice(buf: &mut Vec<u8>, bytes: &[u8])
    ensures
        final(buf)@ == old(buf)@ + bytes@,
{
    let mut i: usize = 0;
    while i < bytes.len()
        invariant
            i <= bytes.len(),
            buf@ == old(buf)@ + bytes@.take(i as int),
        decreases bytes.len() - i,
    {
        buf.push(bytes[i]);
        assert(bytes@.take(i + 1) =~= bytes@.take(i as int).push(bytes@[i as int]));
        i = i + 1;
    }
    assert(bytes@.take(bytes.len() as int) =~= bytes@);
}

fn push_be16(buf: &mut Vec<u8>, x: u16)
    ensures
        final(buf)@ == old(buf)@ + be16_bytes(x),
{
    buf.push((x >> 8u16) as u8);
    buf.push((x & 0xffu16) as u8);
    assert(buf@ =~= old(buf)@ + be16_bytes(x));
}

fn push_be32(buf: &mut Vec<u8>, x: u32)
    ensures
        final(buf)@ == old(buf)@ + be32_bytes(x),
{
    buf.push((x >> 24u32) as u8);
    buf.push(((x >> 16u32) & 0xffu32) as u8);
    buf.push(((x >> 8u32) & 0xffu32) as u8);
    buf.push((x & 0xffu32) as u8);
    assert(buf@ =~= old(buf)@ + be32_bytes(x));
}

impl Chunk {
    /// A chunk of the current protocol version.
    pub fn new(seq: u16, total: u16, crc32: u32, flags: u8, payload: Vec<u8>) -> (c: Self)
        ensures
            c@ == (ChunkView { version: VERSION, flags, seq, total, crc32, payload: payload@ }),
    {
        Chunk { version: VERSION, flags, seq, total, crc32, payload }
    }

    /// The wire bytes of this chunk.
    pub fn encode(&self) -> (buf: Vec<u8>)
        ensures
            buf@ == chunk_bytes(self@),
    {
        let mut buf: Vec<u8> = Vec::new();
        buf.push(MAGIC[0]);
        buf.push(MAGIC[1]);
        buf.push(self.version);
        buf.push(self.flags);
        push_be16(&mut buf, self.seq);
        push_be16(&mut buf, self.total);
        push_be32(&mut buf, self.crc32);
        push_slice(&mut buf, self.payload.as_slice());
        assert(buf@ =~= chunk_bytes(self@));
        buf
    }

    /// Parses wire bytes; `None` for a short buffer, a wrong magic or an
    /// unsupported version.
    pub fn decode(data: &[u8]) -> (res: Option<Self>)
        ensures
            res matches Some(c) ==> chunk_of_bytes(data@) == Some(c@),
            res is None ==> chunk_of_bytes(data@) is None,
    {
        if data.len() < HEADER_SIZE {
            return None;
        }
        if data[0] != MAGIC[0] || data[1] != MAGIC[1] {
            return None;
        }
        let version = data[2];
        if version != VERSION {
            return None;
        }
        let flags = data[3];
        let seq = ((data[4] as u16) << 8u16) | (data[5] as u16);
        let total = ((data[6] as u16) << 8u16) | (data[7] as u16);
        let crc32 = ((data[8] as u32) << 24u32) | ((data[9] as u32) << 16u32) | ((data[10] as u32)
            << 8u32) | (data[11] as u32);
        let mut payload: Vec<u8> = Vec::new();
        let mut i: usize = HEADER_SIZE;
        while i < data.len()
            invariant
                HEADER_SIZE <= i <= data.len(),
                payload@ == data@.subrange(12, i as int),
            decreases data.len() - i,
        {
            payload.push(data[i]);
            assert(data@.subrange(12, i + 1) =~= data@.subrange(12, i as int).push(data@[i as int]));
            i = i + 1;
        }
        let c = Chunk { version, flags, seq, total, crc32, payload };
        assert(c@ == chunk_of_bytes(data@).unwrap());
        Some(c)
    }
}

/// Decoding the wire bytes of a chunk of the current version gives the chunk
/// back; a chunk of any other version does not decode.
pub proof fn lemma_decode_encode(c: ChunkView)
    ensures
        c.version == VERSION ==> chunk_of_bytes(chunk_bytes(c)) == Some(c),
        c.version != VERSION ==> chunk_of_bytes(chunk_bytes(c)) is None,
{
    let d = chunk_bytes(c);
    lemma_be16_roundtrip(c.seq);
    lemma_be16_roundtrip(c.total);
    lemma_be32_roundtrip(c.crc32);
    assert(d.len() == 12 + c.payload.len());
    assert(d[2] == c.version);
    if c.version == VERSION {
        let r = chunk_of_bytes(d).unwrap();
        assert(r.payload =~= c.payload);
        assert(d[4] == be16_bytes(c.seq)[0] && d[5] == be16_bytes(c.seq)[1]);
        assert(d[6] == be16_bytes(c.total)[0] && d[7] == be16_bytes(c.total)[1]);
        assert(d[8] == be32_bytes(c.crc32)[0] && d[9] == be32_bytes(c.crc32)[1] && d[10]
            == be32_bytes(c.crc32)[2] && d[11] == be32_bytes(c.crc32)[3]);
        assert(r == c);
    }
}

/// Whatever decodes re-encodes to the very same bytes.
pub proof fn lemma_encode_decode(d: Seq<u8>)
    requires
        chunk_of_bytes(d) is Some,
    ensures
        chunk_bytes(chunk_of_bytes(d).unwrap()) == d,
{
    let c = chunk_of_bytes(d).unwrap();
    lemma_be16_bytes_of_value(d[4], d[5]);
    lemma_be16_bytes_of_value(d[6], d[7]);
    lemma_be32_bytes_of_value(d[8], d[9], d[10], d[11]);
    assert(chunk_bytes(c) =~= d);
}

/// The number of chunks of `max_payload_size` bytes that `text_len` bytes
/// need (the ceiling of the quotient).
pub open spec fn chunk_count(text_len: nat, max_payload_size: nat) -> nat {
    if text_len == 0 {
        0
    } else {
        ((text_len + max_payload_size - 1) / max_payload_size as int) as nat
    }
}

/// Estimates how many chunks a text of `text_len` bytes needs.
pub fn estimate_chunks(text_len: usize, max_payload_size: usize) -> (n: usize)
    requires
        text_len > 0 ==> max_payload_size > 0 && text_len + max_payload_size - 1 <= usize::MAX,
    ensures
        n == chunk_count(text_len as nat, max_payload_size as nat),
{
    if text_len == 0 {
        return 0;
    }
    (text_len + (max_payload_size - 1)) / max_payload_size
}


// ---------------------------------------------------------------------------
// Splitting a message into chunks
// ---------------------------------------------------------------------------

/// The payload of chunk `i` when `comp` is cut into pieces of `m` bytes.
pub open spec fn payload_slice(comp: Seq<u8>, i: nat, m: nat) -> Seq<u8> {
    let end: int = if (i + 1) * m <= comp.len() {
        ((i + 1) * m) as int
    } else {
        comp.len() as int
    };
    comp.subrange((i * m) as int, end)
}

/// The chunks that `encode_message` produces for `text` with payloads of at
/// most `m` bytes: none for the empty text; otherwise the LZ4 form of the
/// UTF-8 bytes cut into `m`-byte pieces, each tagged with its index, the
/// count and the CRC-32 of the uncompressed bytes.
pub open spec fn message_chunks(text: Seq<char>, m: nat) -> Seq<ChunkView> {
    let bytes = encode_utf8(text);
    if bytes.len() == 0 {
        Seq::empty()
    } else {
        let comp = lz4_compressed(bytes);
        let n = chunk_count(comp.len(), m);
        Seq::new(
            n,
            |i: int|
                ChunkView {
                    version: VERSION,
                    flags: FLAG_COMPRESSED,
                    seq: i as u16,
                    total: n as u16,
                    crc32: crc32_of(bytes),
                    payload: payload_slice(comp, i as nat, m),
                },
        )
    }
}

/// The values of a sequence of chunks.
pub open spec fn chunk_views(chunks: Seq<Chunk>) -> Seq<ChunkView> {
    chunks.map_values(|c: Chunk| c@)
}

proof fn lemma_ceil_div(l: nat, m: nat)
    requires
        m > 0,
    ensures
        chunk_count(l, m) == l / m + if l % m != 0 { 1int } else { 0int },
        chunk_count(l, m) * m >= l,
        chunk_count(l, m) > 0 ==> (chunk_count(l, m) - 1) * m < l,
        chunk_count(l, m) <= l,
{
    let q = (l / m) as int;
    let r = (l % m) as int;
    lemma_fundamental_div_mod(l as int, m as int);
    assert(l == q * m + r) by (nonlinear_arith)
        requires
            l == m * q + r,
    ;
    if l > 0 {
        if r == 0 {
            lemma_fundamental_div_mod_converse(l + m - 1, m as int, q, m - 1);
            assert(q >= 1) by (nonlinear_arith)
                requires
                    l == q * m,
                    l > 0,
                    m > 0,
            ;
            assert((q - 1) * m < l && q <= l) by (nonlinear_arith)
                requires
                    l == q * m,
                    m > 0,
                    q >= 1,
            ;
        } else {
            assert((q + 1) * m >= l && q * m < l && (q + 1) * m == q * m + m && q + 1 <= l) by (nonlinear_arith)
                requires
                    l == q * m + r,
                    0 < r < m,
                    q >= 0,
            ;
            lemma_fundamental_div_mod_converse(l + m - 1, m as int, q + 1, r - 1);
        }
    } else {
        assert(q == 0 && r == 0);
    }
}

/// Every chunk of a message carries at most `m` payload bytes, so its wire
/// bytes are at most the header and `m` bytes.
pub proof fn lemma_message_chunk_size(text: Seq<char>, m: nat, k: int)
    requires
        m > 0,
        0 <= k < message_chunks(text, m).len(),
    ensures
        message_chunks(text, m)[k].payload.len() <= m,
        chunk_bytes(message_chunks(text, m)[k]).len() <= HEADER_SIZE + m,
{
    let comp = lz4_compressed(encode_utf8(text));
    let n = chunk_count(comp.len(), m);
    lemma_ceil_div(comp.len(), m);
    assert(k * m < comp.len()) by {
        lemma_mul_inequality(k, n - 1, m as int);
    }
    assert((k + 1) * m == k * m + m) by (nonlinear_arith);
}

/// Splits `text` into chunks with payloads of at most `max_payload_size`
/// bytes of its LZ4-compressed UTF-8 bytes.
///
/// The chunk count is taken as `chunk_count` (the ceiling of the quotient),
/// computed without the intermediate sum that could overflow.
pub fn encode_message(text: &str, max_payload_size: usize) -> (chunks: Vec<Chunk>)
    requires
        text@.len() > 0 ==> max_payload_size > 0,
        text.spec_bytes().len() * 110 <= usize::MAX,
    ensures
        chunk_views(chunks@) == message_chunks(text@, max_payload_size as nat),
        text@.len() > 0 ==> chunks@.len() >= 1,
        0 < text.spec_bytes().len() <= u32::MAX ==> lz4_decompressed(
            lz4_compressed(text.spec_bytes()),
        ) == Some(text.spec_bytes()),
{
    if text.is_empty() {
        let chunks: Vec<Chunk> = Vec::new();
        assert(chunk_views(chunks@) =~= message_chunks(text@, max_payload_size as nat));
        return chunks;
    }
    let bytes = text.as_bytes();
    proof {
        lemma_nonempty_encoding(text@);
    }
    let crc = compute_crc32(bytes);
    let compressed = lz4_compress_prepend_size(bytes);
    let total_len = compressed.len();
    proof {
        lemma_ceil_div(total_len as nat, max_payload_size as nat);
    }
    let data_chunks: usize = total_len / max_payload_size + if total_len % max_payload_size != 0 {
        1
    } else {
        0
    };
    let total = data_chunks as u16;
    let ghost spec_chunks = message_chunks(text@, max_payload_size as nat);
    let mut chunks: Vec<Chunk> = Vec::new();
    let mut i: usize = 0;
    while i < data_chunks
        invariant
            i <= data_chunks,
            data_chunks == chunk_count(total_len as nat, max_payload_size as nat),
            total == data_chunks as u16,
            max_payload_size > 0,
            total_len == compressed@.len(),
            compressed@ == lz4_compressed(bytes@),
            bytes@ == text.spec_bytes(),
            bytes@.len() > 0,
            crc == crc32_of(bytes@),
            spec_chunks == message_chunks(text@, max_payload_size as nat),
            spec_chunks.len() == data_chunks,
            chunk_views(chunks@) == spec_chunks.take(i as int),
            data_chunks > 0 ==> (data_chunks - 1) * max_payload_size < total_len,
        decreases data_chunks - i,
    {
        assert(i * max_payload_size < total_len) by {
            lemma_mul_inequality(i as int, data_chunks - 1, max_payload_size as int);
        }
        let start = i * max_payload_size;
        let end = if total_len - start > max_payload_size {
            start + max_payload_size
        } else {
            total_len
        };
        assert((i + 1) * max_payload_size == start + max_payload_size) by (nonlinear_arith)
            requires
                start == i * max_payload_size,
        ;
        let payload = slice_to_vec(slice_subrange(compressed.as_slice(), start, end));
        let c = Chunk::new(i as u16, total, crc, FLAG_COMPRESSED, payload);
        assert(c@ == spec_chunks[i as int]);
        let ghost before = chunks@;
        assert(chunk_views(before).len() == before.len());
        assert(before.len() == i);
        chunks.push(c);
        assert(chunks@ == before.push(c));
        assert forall|k: int| 0 <= k < i + 1 implies #[trigger] chunk_views(chunks@)[k] == spec_chunks[k] by {
            assert(chunk_views(chunks@)[k] == chunks@[k]@);
            if k < i {
                assert(chunks@[k] == before[k]);
                assert(chunk_views(before)[k] == before[k]@);
                assert(chunk_views(before)[k] == spec_chunks.take(i as int)[k]);
            } else {
                assert(chunks@[k] == c);
            }
        }
        assert(chunk_views(chunks@) =~= spec_chunks.take(i + 1));
        i = i + 1;
    }
    assert(spec_chunks.take(data_chunks as int) =~= spec_chunks);
    assert(data_chunks >= 1) by (nonlinear_arith)
        requires
            data_chunks * max_payload_size >= total_len,
            total_len >= 4,
    ;
    assert(chunks@.len() == chunk_views(chunks@).len());
    chunks
}

proof fn lemma_nonempty_encoding(text: Seq<char>)
    requires
        text.len() > 0,
    ensures
        encode_utf8(text).len() > 0,
{
    assert(encode_utf8(text) == encode_scalar(text[0] as u32) + encode_utf8(text.drop_first()));
}

// ---------------------------------------------------------------------------
// Reassembly
// ---------------------------------------------------------------------------

/// The state of the reassembler: whether a message is being collected, its
/// chunk count, CRC-32 and flags, and one slot per chunk index.
#[verifier::ext_equal]
pub struct AssemblerView {
    pub active: bool,
    pub total: u16,
    pub expected_crc: u32,
    pub flags: u8,
    pub slots: Seq<Option<Seq<u8>>>,
}

/// How many slots hold a payload.
pub open spec fn filled_slots(slots: Seq<Option<Seq<u8>>>) -> nat
    decreases slots.len(),
{
    if slots.len() == 0 {
        0
    } else {
        filled_slots(slots.drop_last()) + if slots.last() is Some {
            1nat
        } else {
            0nat
        }
    }
}

/// The payloads of the slots, concatenated in index order.
pub open spec fn joined_slots(slots: Seq<Option<Seq<u8>>>) -> Seq<u8>
    decreases slots.len(),
{
    if slots.len() == 0 {
        Seq::empty()
    } else {
        joined_slots(slots.drop_last()) + match slots.last() {
            Some(p) => p,
            None => Seq::empty(),
        }
    }
}

/// The idle state: no message, no slots.
pub open spec fn idle_state() -> AssemblerView {
    AssemblerView { active: false, total: 0, expected_crc: 0, flags: 0, slots: Seq::empty() }
}

/// The state that a chunk opens: a new message with its count, CRC-32 and
/// flags, and every slot empty.
pub open spec fn opened_by(c: ChunkView) -> AssemblerView {
    AssemblerView {
        active: true,
        total: c.total,
        expected_crc: c.crc32,
        flags: c.flags,
        slots: Seq::new(c.total as nat, |i: int| None),
    }
}

/// The state in which a chunk is filed: a chunk of another message (another
/// count or CRC-32) drops the one being collected, and when no message is
/// being collected the chunk opens one.
pub open spec fn admitting(s: AssemblerView, c: ChunkView) -> AssemblerView {
    if s.active && c.total == s.total && c.crc32 == s.expected_crc {
        s
    } else {
        opened_by(c)
    }
}

/// The text that a complete set of slots gives: their payloads joined,
/// LZ4-decompressed when the compression flag is set, decoded as UTF-8
/// (lossily), and accepted only when its CRC-32 matches.
pub open spec fn assembled_text(s: AssemblerView) -> Option<Seq<char>> {
    let raw = joined_slots(s.slots);
    let data = if s.flags & FLAG_COMPRESSED != 0 {
        lz4_decompressed(raw)
    } else {
        Some(raw)
    };
    match data {
        None => None,
        Some(d) => {
            let text = lossy_text(d);
            if crc32_of(encode_utf8(text)) == s.expected_crc {
                Some(text)
            } else {
                None
            }
        },
    }
}

/// One step of reassembly: the state after feeding chunk `c` to state `s`,
/// and the completed text, if this chunk completed one.
///
/// A chunk whose index is out of range or already filled changes nothing
/// more. When the last slot fills, the text is assembled; on success the
/// collection ends (inactive, slots kept), on failure the state goes idle.
pub open spec fn feed_step(s: AssemblerView, c: ChunkView) -> (AssemblerView, Option<Seq<char>>) {
    let s2 = admitting(s, c);
    let idx = c.seq as int;
    if idx >= s2.slots.len() || s2.slots[idx] is Some {
        (s2, None)
    } else {
        let s3 = AssemblerView { slots: s2.slots.update(idx, Some(c.payload)), ..s2 };
        if filled_slots(s3.slots) == s3.total as nat {
            match assembled_text(s3) {
                Some(t) => (AssemblerView { active: false, ..s3 }, Some(t)),
                None => (idle_state(), None),
            }
        } else {
            (s3, None)
        }
    }
}

/// The text of an optional `String`.
pub open spec fn text_of(o: Option<String>) -> Option<Seq<char>> {
    match o {
        Some(s) => Some(s@),
        None => None,
    }
}

/// The value of an optional payload.
pub open spec fn slot_of(o: Option<Vec<u8>>) -> Option<Seq<u8>> {
    match o {
        Some(v) => Some(v@),
        None => None,
    }
}

proof fn lemma_filled_le_len(slots: Seq<Option<Seq<u8>>>)
    ensures
        filled_slots(slots) <= slots.len(),
        filled_slots(slots) == slots.len() ==> forall|i: int|
            0 <= i < slots.len() ==> #[trigger] slots[i] is Some,
    decreases slots.len(),
{
    if slots.len() > 0 {
        lemma_filled_le_len(slots.drop_last());
        if filled_slots(slots) == slots.len() {
            assert forall|i: int| 0 <= i < slots.len() implies #[trigger] slots[i] is Some by {
                if i < slots.len() - 1 {
                    assert(slots[i] == slots.drop_last()[i]);
                }
            }
        }
    }
}

proof fn lemma_filled_update(slots: Seq<Option<Seq<u8>>>, i: int, p: Seq<u8>)
    requires
        0 <= i < slots.len(),
        slots[i] is None,
    ensures
        filled_slots(slots.update(i, Some(p))) == filled_slots(slots) + 1,
    decreases slots.len(),
{
    let u = slots.update(i, Some(p));
    if i == slots.len() - 1 {
        assert(u.drop_last() =~= slots.drop_last());
    } else {
        lemma_filled_update(slots.drop_last(), i, p);
        assert(u.drop_last() =~= slots.drop_last().update(i, Some(p)));
    }
}

proof fn lemma_filled_empty(n: nat)
    ensures
        filled_slots(Seq::new(n, |i: int| None::<Seq<u8>>)) == 0,
    decreases n,
{
    if n > 0 {
        lemma_filled_empty((n - 1) as nat);
        assert(Seq::new(n, |i: int| None::<Seq<u8>>).drop_last() =~= Seq::new(
            (n - 1) as nat,
            |i: int| None::<Seq<u8>>,
        ));
    }
}

/// The slots that a buffer of optional payloads holds.
pub open spec fn slots_of(buffer: Seq<Option<Vec<u8>>>) -> Seq<Option<Seq<u8>>> {
    buffer.map_values(|o: Option<Vec<u8>>| slot_of(o))
}

/// Collects the chunks of one message, in any order, and gives back the text
/// once every chunk has arrived.
#[derive(Debug)]
pub struct MessageAssembler {
    buffer: Vec<Option<Vec<u8>>>,
    total: u16,
    expected_crc: u32,
    flags: u8,
    filled_count: u16,
    active: bool,
}

impl View for MessageAssembler {
    type V = AssemblerView;

    closed spec fn view(&self) -> AssemblerView {
        AssemblerView {
            active: self.active,
            total: self.total,
            expected_crc: self.expected_crc,
            flags: self.flags,
            slots: slots_of(self.buffer@),
        }
    }
}

impl MessageAssembler {
    /// The invariant of every assembler: one slot per chunk, and the fill
    /// counter counts the filled slots.
    #[verifier::type_invariant]
    pub closed spec fn wf(&self) -> bool {
        &&& self.buffer@.len() == self.total as nat
        &&& self.filled_count as nat == filled_slots(self@.slots)
    }

    /// An idle assembler.
    pub fn new() -> (a: Self)
        ensures
            a@.slots.len() == a@.total as nat,
            a@ == idle_state(),
    {
        let a = MessageAssembler {
            buffer: Vec::new(),
            total: 0,
            expected_crc: 0,
            flags: 0,
            filled_count: 0,
            active: false,
        };
        assert(a@ =~= idle_state());
        a
    }

    /// Feeds one chunk; returns the text when this chunk completes a message
    /// whose CRC-32 checks out.
    pub fn feed(&mut self, chunk: &Chunk) -> (res: Option<String>)
        ensures
            final(self)@.slots.len() == final(self)@.total as nat,
            final(self)@ == feed_step(old(self)@, chunk@).0,
            text_of(res) == feed_step(old(self)@, chunk@).1,
    {
        proof {
            use_type_invariant(&*self);
        }
        let ghost s0 = self@;
        if self.active {
            if chunk.total != self.total || chunk.crc32 != self.expected_crc {
                self.reset();
            }
        }
        if !self.active {
            let mut buffer: Vec<Option<Vec<u8>>> = Vec::new();
            let mut k: u16 = 0;
            while k < chunk.total
                invariant
                    k <= chunk.total,
                    buffer@.len() == k,
                    forall|j: int| 0 <= j < k ==> #[trigger] buffer@[j] is None,
                decreases chunk.total - k,
            {
                buffer.push(None);
                k = k + 1;
            }
            proof {
                assert(slots_of(buffer@) =~= opened_by(chunk@).slots);
                lemma_filled_empty(chunk.total as nat);
            }
            *self = MessageAssembler {
                buffer,
                total: chunk.total,
                expected_crc: chunk.crc32,
                flags: chunk.flags,
                filled_count: 0,
                active: true,
            };
        }
        proof {
            use_type_invariant(&*self);
        }
        let ghost s2 = self@;
        assert(s2 =~= admitting(s0, chunk@));
        let idx = chunk.seq as usize;
        if idx >= self.buffer.len() {
            return None;
        }
        if self.buffer[idx].is_some() {
            return None;
        }
        proof {
            lemma_filled_update(s2.slots, idx as int, chunk@.payload);
            lemma_filled_le_len(s2.slots.update(idx as int, Some(chunk@.payload)));
        }
        let mut taken = MessageAssembler::new();
        std::mem::swap(&mut taken, self);
        proof {
            use_type_invariant(&taken);
        }
        let mut buffer = taken.buffer;
        let total = taken.total;
        let expected_crc = taken.expected_crc;
        let flags = taken.flags;
        let active = taken.active;
        buffer.set(idx, Some(slice_to_vec(chunk.payload.as_slice())));
        let filled_count = taken.filled_count + 1;
        let ghost slots3 = slots_of(buffer@);
        assert(slots3 =~= s2.slots.update(idx as int, Some(chunk@.payload)));
        let ghost s3 = AssemblerView { slots: slots3, ..s2 };
        if filled_count == total {
            proof {
                lemma_filled_le_len(slots3);
            }
            let mut raw: Vec<u8> = Vec::new();
            let mut j: usize = 0;
            while j < buffer.len()
                invariant
                    j <= buffer@.len(),
                    slots3 == slots_of(buffer@),
                    raw@ == joined_slots(slots3.take(j as int)),
                    forall|i: int| 0 <= i < slots3.len() ==> #[trigger] slots3[i] is Some,
                decreases buffer@.len() - j,
            {
                assert(slots3.take(j + 1).drop_last() =~= slots3.take(j as int));
                match &buffer[j] {
                    Some(p) => {
                        push_slice(&mut raw, p.as_slice());
                    },
                    None => {},
                }
                j = j + 1;
            }
            assert(slots3.take(buffer@.len() as int) =~= slots3);
            // On a failure below, the assembler stays idle, as `taken` left it.
            let data = if flags & FLAG_COMPRESSED != 0 {
                match lz4_decompress_size_prepended(raw.as_slice()) {
                    Some(d) => d,
                    None => {
                        return None;
                    },
                }
            } else {
                raw
            };
            let message = string_from_utf8_lossy(data.as_slice());
            assert(message@ == lossy_text(data@));
            if compute_crc32(message.as_str().as_bytes()) != expected_crc {
                return None;
            }
            *self = MessageAssembler { buffer, total, expected_crc, flags, filled_count, active: false };
            assert(self@ =~= AssemblerView { active: false, ..s3 });
            return Some(message);
        }
        *self = MessageAssembler { buffer, total, expected_crc, flags, filled_count, active };
        assert(self@ =~= s3);
        None
    }

    /// Whether a message is being collected.
    pub fn is_active(&self) -> (r: bool)
        ensures
            r == self@.active,
    {
        self.active
    }

    /// How many chunks of the current message have arrived.
    pub fn filled_count(&self) -> (r: u16)
        ensures
            r as nat == filled_slots(self@.slots),
            r <= self@.total,
    {
        proof {
            use_type_invariant(self);
            lemma_filled_le_len(self@.slots);
        }
        self.filled_count
    }

    /// The chunk count of the current message.
    pub fn total_chunks(&self) -> (r: u16)
        ensures
            r == self@.total,
            self@.slots.len() == r as nat,
    {
        proof {
            use_type_invariant(self);
        }
        self.total
    }

    /// Drops whatever is being collected.
    pub fn reset(&mut self)
        ensures
            final(self)@.slots.len() == final(self)@.total as nat,
            final(self)@ == idle_state(),
    {
        *self = MessageAssembler::new();
    }
}


/// Every assembler (its invariant, which `use_type_invariant` gives) has one
/// slot per chunk of the message being collected, so no more chunks than
/// that are ever counted.
pub proof fn lemma_wf_slots(a: &MessageAssembler)
    requires
        a.wf(),
    ensures
        a@.slots.len() == a@.total as nat,
        filled_slots(a@.slots) <= a@.total as nat,
{
    lemma_filled_le_len(a@.slots);
}

// ---------------------------------------------------------------------------
// Laws of reassembly
// ---------------------------------------------------------------------------

/// The state after feeding `cs`, in order, to state `s`.
pub open spec fn feed_all(s: AssemblerView, cs: Seq<ChunkView>) -> AssemblerView
    decreases cs.len(),
{
    if cs.len() == 0 {
        s
    } else {
        feed_step(feed_all(s, cs.drop_last()), cs.last()).0
    }
}

/// What the last feed of `cs` returns, when `cs`, in order, is fed to `s`.
pub open spec fn last_output(s: AssemblerView, cs: Seq<ChunkView>) -> Option<Seq<char>> {
    if cs.len() == 0 {
        None
    } else {
        feed_step(feed_all(s, cs.drop_last()), cs.last()).1
    }
}

/// The chunks of a message taken in the order given by `order`.
pub open spec fn reordered(chunks: Seq<ChunkView>, order: Seq<int>) -> Seq<ChunkView> {
    Seq::new(order.len(), |k: int| chunks[order[k]])
}

#[verifier::spinoff_prover]
proof fn lemma_joined_payloads(comp: Seq<u8>, m: nat, k: nat)
    requires
        m > 0,
        k <= chunk_count(comp.len(), m),
    ensures
        joined_slots(Seq::new(k, |j: int| Some(payload_slice(comp, j as nat, m)))) == comp.subrange(
            0,
            if k * m <= comp.len() {
                (k * m) as int
            } else {
                comp.len() as int
            },
        ),
    decreases k,
{
    lemma_ceil_div(comp.len(), m);
    if k == 0 {
        assert(comp.subrange(0, 0) =~= Seq::<u8>::empty());
    } else {
        let km1 = (k - 1) as nat;
        lemma_joined_payloads(comp, m, km1);
        let slots = Seq::new(k, |j: int| Some(payload_slice(comp, j as nat, m)));
        assert(slots.drop_last() =~= Seq::new(km1, |j: int| Some(payload_slice(comp, j as nat, m))));
        assert(km1 * m < comp.len()) by {
            lemma_mul_inequality(km1 as int, chunk_count(comp.len(), m) - 1, m as int);
        }
        assert(k * m == km1 * m + m) by (nonlinear_arith)
            requires
                k == km1 + 1,
        ;
        let e: int = if k * m <= comp.len() {
            (k * m) as int
        } else {
            comp.len() as int
        };
        assert(slots.last() == Some(comp.subrange((km1 * m) as int, e)));
        assert(joined_slots(slots) == joined_slots(slots.drop_last()) + comp.subrange(
            (km1 * m) as int,
            e,
        ));
        assert(comp.subrange(0, (km1 * m) as int) + comp.subrange((km1 * m) as int, e)
            =~= comp.subrange(0, e));
    }
}

/// Whether chunk index `j` is among the first `k` entries of `order`.
pub open spec fn fed_before(order: Seq<int>, k: int, j: int) -> bool {
    exists|i: int| 0 <= i < k && order[i] == j
}

/// Whether the first `k` entries of `order` include every chunk index below
/// `n`.
pub open spec fn covers_all(order: Seq<int>, k: int, n: nat) -> bool {
    forall|j: int| 0 <= j < n ==> #[trigger] fed_before(order, k, j)
}

/// The state while a message is being collected from `order`: after its
/// first `k` entries, exactly the slots of the indices fed so far hold their
/// payloads, and as many slots are filled as distinct indices were fed.
spec fn collecting(s: AssemblerView, chunks: Seq<ChunkView>, order: Seq<int>, k: nat) -> bool {
    let n = chunks.len();
    &&& s.active
    &&& s.total as nat == n
    &&& s.expected_crc == chunks[0].crc32
    &&& s.flags == chunks[0].flags
    &&& s.slots.len() == n
    &&& filled_slots(s.slots) == order.take(k as int).to_set().len()
    &&& forall|j: int| 0 <= j < n ==> (#[trigger] s.slots[j] is Some <==> fed_before(order, k as int, j))
    &&& forall|j: int| 0 <= j < n && #[trigger] s.slots[j] is Some ==> s.slots[j] == Some(chunks[j].payload)
}

spec fn reassembly_premise(text: Seq<char>, m: nat, order: Seq<int>) -> bool {
    let bytes = encode_utf8(text);
    let n = message_chunks(text, m).len();
    &&& m > 0
    &&& 1 <= n <= u16::MAX
    &&& forall|i: int| 0 <= i < order.len() ==> 0 <= #[trigger] order[i] < n
}

proof fn lemma_filled_all(slots: Seq<Option<Seq<u8>>>)
    requires
        forall|i: int| 0 <= i < slots.len() ==> #[trigger] slots[i] is Some,
    ensures
        filled_slots(slots) == slots.len(),
    decreases slots.len(),
{
    if slots.len() > 0 {
        assert forall|i: int| 0 <= i < slots.drop_last().len() implies #[trigger] slots.drop_last()[i] is Some by {
            assert(slots.drop_last()[i] == slots[i]);
        }
        lemma_filled_all(slots.drop_last());
    }
}

proof fn lemma_covers_all_monotone(order: Seq<int>, a: int, b: int, n: nat)
    requires
        0 <= a <= b,
        covers_all(order, a, n),
    ensures
        covers_all(order, b, n),
{
    assert forall|j: int| 0 <= j < n implies #[trigger] fed_before(order, b, j) by {
        assert(fed_before(order, a, j));
        let i = choose|i: int| 0 <= i < a && order[i] == j;
        assert(0 <= i < b && order[i] == j);
    }
}

proof fn lemma_distinct_step(order: Seq<int>, k: int)
    requires
        0 <= k < order.len(),
    ensures
        order.take(k + 1).to_set() == order.take(k).to_set().insert(order[k]),
        order.take(k).to_set().finite(),
        order.take(k).to_set().contains(order[k]) <==> fed_before(order, k, order[k]),
        order.take(k + 1).to_set().len() == order.take(k).to_set().len() + if fed_before(
            order,
            k,
            order[k],
        ) {
            0int
        } else {
            1int
        },
{
    let x = order[k];
    let t = order.take(k);
    assert(order.take(k + 1) =~= t.push(x));
    assert forall|y: int| #[trigger] t.push(x).contains(y) <==> t.contains(y) || y == x by {
        if t.push(x).contains(y) {
            let i = choose|i: int| 0 <= i < t.push(x).len() && t.push(x)[i] == y;
            if i < t.len() {
                assert(t[i] == y);
            }
        }
        if t.contains(y) {
            let i = choose|i: int| 0 <= i < t.len() && t[i] == y;
            assert(t.push(x)[i] == y);
        }
        if y == x {
            assert(t.push(x)[t.len() as int] == y);
        }
    }
    assert(order.take(k + 1).to_set() =~= t.to_set().insert(x));
    vstd::seq_lib::seq_to_set_is_finite(order.take(k));
    if fed_before(order, k, x) {
        let i = choose|i: int| 0 <= i < k && order[i] == x;
        assert(order.take(k)[i] == x);
    }
    if order.take(k).to_set().contains(x) {
        let i = choose|i: int| 0 <= i < order.take(k).len() && order.take(k)[i] == x;
        assert(order[i] == x);
    }
    vstd::set::axiom_set_insert_len(order.take(k).to_set(), x);
}

proof fn lemma_reassembly_step(text: Seq<char>, m: nat, order: Seq<int>, s: AssemblerView, k: nat)
    requires
        reassembly_premise(text, m, order),
        k < order.len(),
        !covers_all(order, k as int, message_chunks(text, m).len()),
        collecting(
            admitting(s, message_chunks(text, m)[order[k as int]]),
            message_chunks(text, m),
            order,
            k,
        ),
    ensures
        !covers_all(order, k as int + 1, message_chunks(text, m).len()) ==> collecting(
            feed_step(s, message_chunks(text, m)[order[k as int]]).0,
            message_chunks(text, m),
            order,
            k + 1,
        ) && feed_step(s, message_chunks(text, m)[order[k as int]]).1 is None,
        covers_all(order, k as int + 1, message_chunks(text, m).len()) && lz4_decompressed(
            lz4_compressed(encode_utf8(text)),
        ) == Some(encode_utf8(text)) ==> feed_step(
            s,
            message_chunks(text, m)[order[k as int]],
        ).1 == Some(text) && !feed_step(s, message_chunks(text, m)[order[k as int]]).0.active,
{
    let chunks = message_chunks(text, m);
    let n = chunks.len();
    let bytes = encode_utf8(text);
    let comp = lz4_compressed(bytes);
    let c = chunks[order[k as int]];
    let s2 = admitting(s, c);
    let idx = c.seq as int;
    assert(idx == order[k as int]);
    lemma_distinct_step(order, k as int);
    assert forall|j: int| #![trigger fed_before(order, k as int + 1, j)]
        fed_before(order, k as int + 1, j) <==> fed_before(order, k as int, j) || j == idx by {
        if fed_before(order, k as int + 1, j) {
            let i = choose|i: int| 0 <= i < k + 1 && order[i] == j;
            if i < k {
                assert(fed_before(order, k as int, j));
            }
        }
        if fed_before(order, k as int, j) {
            let i = choose|i: int| 0 <= i < k && order[i] == j;
            assert(0 <= i < k + 1 && order[i] == j);
        }
        if j == idx {
            assert(0 <= k < k + 1 && order[k as int] == j);
        }
    }
    if s2.slots[idx] is Some {
        // A repeated index: nothing changes.
        assert(fed_before(order, k as int, idx));
        assert(feed_step(s, c).0 == s2);
        assert forall|j: int| 0 <= j < n implies (#[trigger] s2.slots[j] is Some <==> fed_before(
            order,
            k as int + 1,
            j,
        )) by {
            assert(fed_before(order, k as int + 1, j) <==> fed_before(order, k as int, j) || j == idx);
        }
        if covers_all(order, k as int + 1, n) {
            assert forall|j: int| 0 <= j < n implies #[trigger] fed_before(order, k as int, j) by {
                assert(fed_before(order, k as int + 1, j));
                assert(fed_before(order, k as int + 1, j) <==> fed_before(order, k as int, j) || j == idx);
            }
            assert(false);
        }
        assert(collecting(s2, chunks, order, k + 1));
    } else {
        assert(!fed_before(order, k as int, idx));
        let s3 = AssemblerView { slots: s2.slots.update(idx, Some(c.payload)), ..s2 };
        lemma_filled_update(s2.slots, idx, c.payload);
        assert(s3.total as nat == n);
        assert forall|j: int| 0 <= j < n implies (#[trigger] s3.slots[j] is Some <==> fed_before(
            order,
            k as int + 1,
            j,
        )) by {
            assert(fed_before(order, k as int + 1, j) <==> fed_before(order, k as int, j) || j == idx);
        }
        assert forall|j: int| 0 <= j < n && #[trigger] s3.slots[j] is Some implies s3.slots[j]
            == Some(chunks[j].payload) by {
            if j != idx {
                assert(s2.slots[j] is Some);
            }
        }
        if covers_all(order, k as int + 1, n) {
            if lz4_decompressed(comp) == Some(bytes) {
                assert forall|j: int| 0 <= j < s3.slots.len() implies #[trigger] s3.slots[j] is Some by {
                    assert(fed_before(order, k as int + 1, j));
                }
                lemma_filled_all(s3.slots);
                lemma_ceil_div(comp.len(), m);
                lemma_joined_payloads(comp, m, n);
                assert(s3.slots =~= Seq::new(n, |j: int| Some(payload_slice(comp, j as nat, m))));
                assert(joined_slots(s3.slots) =~= comp);
                assert(s3.flags == FLAG_COMPRESSED);
                assert(FLAG_COMPRESSED & FLAG_COMPRESSED != 0) by (bit_vector);
                broadcast use encode_utf8_valid_utf8, encode_utf8_decode_utf8;

                assert(lossy_text(bytes) == text);
                assert(assembled_text(s3) == Some(text));
            }
        } else {
            let j0 = choose|j: int| 0 <= j < n && !#[trigger] fed_before(order, k as int + 1, j);
            assert(s3.slots[j0] is None);
            lemma_filled_le_len(s3.slots);
            assert(filled_slots(s3.slots) != s3.total as nat);
            assert(feed_step(s, c).0 == s3);
            assert(collecting(s3, chunks, order, k + 1));
        }
    }
}

proof fn lemma_reassembly_prefix(text: Seq<char>, m: nat, order: Seq<int>, s0: AssemblerView, k: nat)
    requires
        reassembly_premise(text, m, order),
        !s0.active,
        1 <= k <= order.len(),
        !covers_all(order, k - 1, message_chunks(text, m).len()),
    ensures
        !covers_all(order, k as int, message_chunks(text, m).len()) ==> collecting(
            feed_all(s0, reordered(message_chunks(text, m), order).take(k as int)),
            message_chunks(text, m),
            order,
            k,
        ) && last_output(s0, reordered(message_chunks(text, m), order).take(k as int)) is None,
        covers_all(order, k as int, message_chunks(text, m).len()) && lz4_decompressed(
            lz4_compressed(encode_utf8(text)),
        ) == Some(encode_utf8(text)) ==> last_output(
            s0,
            reordered(message_chunks(text, m), order).take(k as int),
        ) == Some(text) && !feed_all(
            s0,
            reordered(message_chunks(text, m), order).take(k as int),
        ).active,
    decreases k,
{
    let chunks = message_chunks(text, m);
    let n = chunks.len();
    let fed = reordered(chunks, order);
    let km1 = (k - 1) as nat;
    let prefix = fed.take(k as int);
    assert(prefix.drop_last() =~= fed.take(km1 as int));
    assert(prefix.last() == chunks[order[km1 as int]]);
    let c = chunks[order[km1 as int]];
    if k == 1 {
        assert(fed.take(0) =~= Seq::<ChunkView>::empty());
        let s = feed_all(s0, fed.take(0));
        assert(s == s0);
        let o = admitting(s0, c);
        assert(o == opened_by(c));
        lemma_filled_empty(c.total as nat);
        assert(c.total as nat == n);
        assert(chunks[0].crc32 == c.crc32 && chunks[0].flags == c.flags);
        assert(o.slots =~= Seq::new(n, |i: int| None::<Seq<u8>>));
        assert(order.take(0).to_set() =~= Set::<int>::empty());
        assert forall|j: int| 0 <= j < n implies (#[trigger] o.slots[j] is Some <==> fed_before(
            order,
            0,
            j,
        )) by {}
        assert(collecting(o, chunks, order, 0));
        lemma_reassembly_step(text, m, order, s, 0);
    } else {
        if covers_all(order, k - 2, n) {
            lemma_covers_all_monotone(order, k - 2, k - 1, n);
        }
        lemma_reassembly_prefix(text, m, order, s0, km1);
        let s = feed_all(s0, fed.take(km1 as int));
        assert(c.total as nat == n && c.crc32 == chunks[0].crc32);
        assert(admitting(s, c) == s);
        lemma_reassembly_step(text, m, order, s, km1);
    }
}

/// Reassembly gives back what was sent, from any start and with repeats:
/// feed an assembler that is not collecting the chunks of a message in the
/// order that `order` gives (any chunk indices, each any number of times).
/// Every feed returns nothing until the first one after which every index has
/// been fed; that one returns the text that was sent, and the assembler is no
/// longer collecting.
///
/// The compression fact in the premise is the one that `encode_message`
/// states of its own output.
pub proof fn lemma_reassembly_round_trip(
    text: Seq<char>,
    m: nat,
    order: Seq<int>,
    s0: AssemblerView,
    k: nat,
)
    requires
        m > 0,
        lz4_decompressed(lz4_compressed(encode_utf8(text))) == Some(encode_utf8(text)),
        1 <= message_chunks(text, m).len() <= u16::MAX,
        forall|i: int| 0 <= i < order.len() ==> 0 <= #[trigger] order[i] < message_chunks(text, m).len(),
        !s0.active,
        1 <= k <= order.len(),
        !covers_all(order, k - 1, message_chunks(text, m).len()),
    ensures
        !covers_all(order, k as int, message_chunks(text, m).len()) ==> last_output(
            s0,
            reordered(message_chunks(text, m), order).take(k as int),
        ) is None,
        covers_all(order, k as int, message_chunks(text, m).len()) ==> last_output(
            s0,
            reordered(message_chunks(text, m), order).take(k as int),
        ) == Some(text) && !feed_all(
            s0,
            reordered(message_chunks(text, m), order).take(k as int),
        ).active,
{
    lemma_reassembly_prefix(text, m, order, s0, k);
}

/// Progress while a message is collected: after the first `k` feeds of such
/// an order, when some index is still missing, the assembler is collecting a
/// message of `n` chunks and has filled one slot per distinct index fed.
pub proof fn lemma_reassembly_progress(
    text: Seq<char>,
    m: nat,
    order: Seq<int>,
    s0: AssemblerView,
    k: nat,
)
    requires
        m > 0,
        1 <= message_chunks(text, m).len() <= u16::MAX,
        forall|i: int| 0 <= i < order.len() ==> 0 <= #[trigger] order[i] < message_chunks(text, m).len(),
        !s0.active,
        1 <= k <= order.len(),
        !covers_all(order, k as int, message_chunks(text, m).len()),
    ensures
        feed_all(s0, reordered(message_chunks(text, m), order).take(k as int)).active,
        feed_all(s0, reordered(message_chunks(text, m), order).take(k as int)).total as nat
            == message_chunks(text, m).len(),
        filled_slots(feed_all(s0, reordered(message_chunks(text, m), order).take(k as int)).slots)
            == order.take(k as int).to_set().len(),
{
    let n = message_chunks(text, m).len();
    if covers_all(order, k - 1, n) {
        lemma_covers_all_monotone(order, k - 1, k as int, n);
    }
    lemma_reassembly_prefix(text, m, order, s0, k);
}

/// What one feed can do, from any state with one slot per chunk and for any
/// chunk: the new state again has one slot per chunk, and no more filled
/// slots than chunks; a returned text carries the CRC-32 of the chunk and
/// ends the collection; and a chunk that fills the last free slot without
/// giving a text (the payloads do not decompress, or the CRC-32 does not
/// match) leaves the assembler idle.
pub proof fn lemma_feed_outcome(s: AssemblerView, c: ChunkView)
    requires
        s.slots.len() == s.total as nat,
    ensures
        feed_step(s, c).0.slots.len() == feed_step(s, c).0.total as nat,
        filled_slots(feed_step(s, c).0.slots) <= feed_step(s, c).0.total as nat,
        feed_step(s, c).1 matches Some(t) ==> crc32_of(encode_utf8(t)) == c.crc32 && !feed_step(
            s,
            c,
        ).0.active,
        c.seq < admitting(s, c).slots.len() && admitting(s, c).slots[c.seq as int] is None
            && filled_slots(admitting(s, c).slots) + 1 == admitting(s, c).total as nat && feed_step(
            s,
            c,
        ).1 is None ==> feed_step(s, c).0 == idle_state(),
{
    let s2 = admitting(s, c);
    let idx = c.seq as int;
    assert(s2.slots.len() == s2.total as nat);
    lemma_filled_le_len(s2.slots);
    if idx < s2.slots.len() && s2.slots[idx] is None {
        let s3 = AssemblerView { slots: s2.slots.update(idx, Some(c.payload)), ..s2 };
        lemma_filled_update(s2.slots, idx, c.payload);
        lemma_filled_le_len(s3.slots);
        assert(s2.expected_crc == c.crc32);
    }
}

/// A chunk whose slot is already filled changes nothing and returns nothing.
pub proof fn lemma_duplicate_ignored(s: AssemblerView, c: ChunkView)
    requires
        s.active,
        c.total == s.total,
        c.crc32 == s.expected_crc,
        0 <= c.seq < s.slots.len(),
        s.slots[c.seq as int] is Some,
    ensures
        feed_step(s, c).0 == s,
        feed_step(s, c).1 is None,
{
}

/// A chunk of another message (another count or CRC-32) drops the message
/// being collected: the result is as if the assembler had been idle.
pub proof fn lemma_message_change_resets(s: AssemblerView, c: ChunkView)
    requires
        s.active,
        c.total != s.total || c.crc32 != s.expected_crc,
    ensures
        feed_step(s, c) == feed_step(idle_state(), c),
{
}

} // verus!
