//! On-disk entry format:
//! `| header | value (serialized, maybe compressed) | key (serialized) |`.

use vstd::bytes::*;
use vstd::prelude::*;

verus! {

#[verifier::external_type_specification]
#[verifier::external_body]
pub struct ExIoError(std::io::Error);

#[verifier::external_type_specification]
#[verifier::external_body]
pub struct ExBincodeErrorKind(bincode::ErrorKind);

/// How an entry's value is compressed on disk.
#[derive(Debug, Clone, Copy, PartialEq, Eq, Structural)]
pub enum Compression {
    Uncompressed,
    Zstd,
    Lz4,
}

impl Compression {
    pub open spec fn tag(self) -> u8 {
        match self {
            Compression::Uncompressed => 0,
            Compression::Zstd => 1,
            Compression::Lz4 => 2,
        }
    }

    pub open spec fn from_tag(t: u8) -> Option<Compression> {
        if t == 0 {
            Some(Compression::Uncompressed)
        } else if t == 1 {
            Some(Compression::Zstd)
        } else if t == 2 {
            Some(Compression::Lz4)
        } else {
            None
        }
    }

    pub fn to_u8(&self) -> (r: u8)
        ensures
            r == self.tag(),
    {
        match self {
            Compression::Uncompressed => 0,
            Compression::Zstd => 1,
            Compression::Lz4 => 2,
        }
    }

    pub fn from_u8(t: u8) -> (r: Option<Compression>)
        ensures
            r == Self::from_tag(t),
    {
        if t == 0 {
            Some(Compression::Uncompressed)
        } else if t == 1 {
            Some(Compression::Zstd)
        } else if t == 2 {
            Some(Compression::Lz4)
        } else {
            None
        }
    }
}

/// A failure of one of the encoders or decoders an entry passes through.
#[derive(Debug)]
pub enum BufferError {
    Io(std::io::Error),
    Bincode(Box<bincode::ErrorKind>),
}

/// A live entry: serialized key and value bytes, and the sequence number that
/// orders writes of the same key.
#[derive(Debug, Clone)]
pub struct Entry {
    pub key: Vec<u8>,
    pub value: Vec<u8>,
    pub sequence: u64,
    pub compression: Compression,
}

// ---------------------------------------------------------------------------
// Outside codecs.

/// A byte vector as bincode writes it: its length as a little-endian `u64`,
/// then the bytes.
pub open spec fn bincode_bytes(b: Seq<u8>) -> Seq<u8> {
    spec_u64_to_le_bytes(b.len() as u64) + b
}

/// The length that a bincode byte vector in `s` announces.
pub open spec fn bincode_len(s: Seq<u8>) -> int {
    spec_u64_from_le_bytes(s.subrange(0, 8)) as int
}

/// `s` starts with a complete bincode byte vector.
#[verifier::opaque]
pub open spec fn bincode_readable(s: Seq<u8>) -> bool {
    s.len() >= 8 && bincode_len(s) <= s.len() - 8
}

/// Relies on `bincode::serialize` (fixed-width little-endian integers, no
/// size limit): a byte vector, whose length is always known, becomes its
/// length as a `u64` followed by its bytes, written into a `Vec` that cannot
/// fail.
#[verifier::external_body]
fn bincode_serialize(b: &Vec<u8>) -> (r: Result<Vec<u8>, Box<bincode::ErrorKind>>)
    ensures
        r is Ok,
        r matches Ok(v) ==> v@ == bincode_bytes(b@),
{
    bincode::serialize(b)
}

/// Relies on `bincode::deserialize` into a byte vector: it reads the `u64`
/// length, then that many bytes, and allows trailing bytes.
#[verifier::external_body]
fn bincode_deserialize(s: &[u8]) -> (r: Result<Vec<u8>, Box<bincode::ErrorKind>>)
    ensures
        r is Ok <==> bincode_readable(s@),
        r matches Ok(v) ==> v@ == bincode_payload(s@),
{
    bincode::deserialize::<Vec<u8>>(s)
}

/// The zstd frame that `zstd::stream::encode_all` makes of `s` at the
/// default level; None where it fails.
pub uninterp spec fn zstd_compressed(s: Seq<u8>) -> Option<Seq<u8>>;

/// What `zstd::stream::decode_all` makes of the frames in `s`; None where it
/// fails.
pub uninterp spec fn zstd_decompressed(s: Seq<u8>) -> Option<Seq<u8>>;

/// The lz4 frame (no content checksum) that `lz4::Encoder` makes of `s`;
/// None where it fails.
pub uninterp spec fn lz4_compressed(s: Seq<u8>) -> Option<Seq<u8>>;

/// What `lz4::Decoder` makes of the frame in `s`; None where it fails.
pub uninterp spec fn lz4_decompressed(s: Seq<u8>) -> Option<Seq<u8>>;

/// Relies on `zstd::stream::encode_all` at level 0 (zstd's default level),
/// and on zstd being lossless: `decode_all` gives the input back.
#[verifier::external_body]
fn zstd_compress(b: &[u8]) -> (r: Result<Vec<u8>, std::io::Error>)
    ensures
        r is Ok <==> zstd_compressed(b@) is Some,
        r matches Ok(v) ==> zstd_compressed(b@) == Some(v@),
        r matches Ok(v) ==> zstd_decompressed(v@) == Some(b@),
{
    zstd::stream::encode_all(b, 0)
}

/// Relies on `zstd::stream::decode_all`.
#[verifier::external_body]
fn zstd_decompress(b: &[u8]) -> (r: Result<Vec<u8>, std::io::Error>)
    ensures
        r is Ok <==> zstd_decompressed(b@) is Some,
        r matches Ok(v) ==> zstd_decompressed(b@) == Some(v@),
{
    zstd::stream::decode_all(b)
}

/// Relies on `lz4::EncoderBuilder` (no content checksum, auto flush),
/// `Write::write_all` on the encoder and `Encoder::finish`, and on lz4 being
/// lossless: `lz4::Decoder` gives the input back.
#[verifier::external_body]
fn lz4_compress(b: &[u8]) -> (r: Result<Vec<u8>, std::io::Error>)
    ensures
        r is Ok <==> lz4_compressed(b@) is Some,
        r matches Ok(v) ==> lz4_compressed(b@) == Some(v@),
        r matches Ok(v) ==> lz4_decompressed(v@) == Some(b@),
{
    let mut encoder = lz4::EncoderBuilder::new()
        .checksum(lz4::ContentChecksum::NoChecksum)
        .auto_flush(true)
        .build(Vec::new())?;
    std::io::Write::write_all(&mut encoder, b)?;
    let (v, res) = encoder.finish();
    res.map(|_| v)
}

/// Relies on `lz4::Decoder` and `Read::read_to_end` on it.
#[verifier::external_body]
fn lz4_decompress(b: &[u8]) -> (r: Result<Vec<u8>, std::io::Error>)
    ensures
        r is Ok <==> lz4_decompressed(b@) is Some,
        r matches Ok(v) ==> lz4_decompressed(b@) == Some(v@),
{
    let mut decoder = lz4::Decoder::new(b)?;
    let mut v = Vec::new();
    std::io::Read::read_to_end(&mut decoder, &mut v)?;
    Ok(v)
}

// ---------------------------------------------------------------------------
// Checksum.

pub const CHECKSUM_SEED: u64 = 0xcbf29ce484222325;

pub const CHECKSUM_PRIME: u64 = 0x100000001b3;

/// 64-bit FNV-1a over `s`.
pub open spec fn checksum_spec(s: Seq<u8>) -> u64
    decreases s.len(),
{
    if s.len() == 0 {
        CHECKSUM_SEED
    } else {
        vstd::wrapping::u64_specs::wrapping_mul(
            checksum_spec(s.drop_last()) ^ (s.last() as u64),
            CHECKSUM_PRIME,
        )
    }
}

/// The checksum stored in an entry header.
pub fn checksum(b: &[u8]) -> (r: u64)
    ensures
        r == checksum_spec(b@),
{
    let mut h: u64 = CHECKSUM_SEED;
    let mut i: usize = 0;
    while i < b.len()
        invariant
            i <= b@.len(),
            h == checksum_spec(b@.subrange(0, i as int)),
        decreases b.len() - i,
    {
        proof {
            assert(b@.subrange(0, i + 1).drop_last() =~= b@.subrange(0, i as int));
        }
        h = (h ^ (b[i] as u64)).wrapping_mul(CHECKSUM_PRIME);
        i = i + 1;
    }
    proof {
        assert(b@.subrange(0, b@.len() as int) =~= b@);
    }
    h
}

// ---------------------------------------------------------------------------
// Entry header.

pub const ENTRY_HEADER_LEN: usize = 25;

/// Fixed-size prefix of every entry on disk.
#[derive(Debug, Clone, Copy, PartialEq, Eq, Structural)]
pub struct EntryHeader {
    pub key_len: u32,
    pub value_len: u32,
    pub sequence: u64,
    pub compression: Compression,
    pub checksum: u64,
}

impl EntryHeader {
    /// The header's bytes: lengths, sequence, compression tag and checksum,
    /// integers little-endian.
    pub open spec fn spec_bytes(self) -> Seq<u8> {
        spec_u32_to_le_bytes(self.key_len) + spec_u32_to_le_bytes(self.value_len)
            + spec_u64_to_le_bytes(self.sequence) + seq![self.compression.tag()]
            + spec_u64_to_le_bytes(self.checksum)
    }

    /// The header that `s` starts with, if any.
    pub open spec fn spec_parse(s: Seq<u8>) -> Option<EntryHeader> {
        if s.len() < ENTRY_HEADER_LEN {
            None
        } else {
            match Compression::from_tag(s[16]) {
                Some(c) => Some(
                    EntryHeader {
                        key_len: spec_u32_from_le_bytes(s.subrange(0, 4)),
                        value_len: spec_u32_from_le_bytes(s.subrange(4, 8)),
                        sequence: spec_u64_from_le_bytes(s.subrange(8, 16)),
                        compression: c,
                        checksum: spec_u64_from_le_bytes(s.subrange(17, 25)),
                    },
                ),
                None => None,
            }
        }
    }

    pub fn write(&self) -> (r: Vec<u8>)
        ensures
            r@ == self.spec_bytes(),
            r@.len() == ENTRY_HEADER_LEN,
    {
        let mut v = u32_to_le_bytes(self.key_len);
        let mut t = u32_to_le_bytes(self.value_len);
        v.append(&mut t);
        let mut t = u64_to_le_bytes(self.sequence);
        v.append(&mut t);
        v.push(self.compression.to_u8());
        let mut t = u64_to_le_bytes(self.checksum);
        v.append(&mut t);
        proof {
            assert(v@ =~= self.spec_bytes());
        }
        v
    }

    pub fn read(s: &[u8]) -> (r: Option<EntryHeader>)
        ensures
            r == Self::spec_parse(s@),
    {
        if s.len() < ENTRY_HEADER_LEN {
            return None;
        }
        let compression = match Compression::from_u8(s[16]) {
            Some(c) => c,
            None => return None,
        };
        Some(
            EntryHeader {
                key_len: u32_from_le_bytes(vstd::slice::slice_subrange(s, 0, 4)),
                value_len: u32_from_le_bytes(vstd::slice::slice_subrange(s, 4, 8)),
                sequence: u64_from_le_bytes(vstd::slice::slice_subrange(s, 8, 16)),
                compression,
                checksum: u64_from_le_bytes(vstd::slice::slice_subrange(s, 17, 25)),
            },
        )
    }
}

/// A written header parses back to itself, whatever follows it.
pub proof fn lemma_header_round_trip(h: EntryHeader, rest: Seq<u8>)
    ensures
        EntryHeader::spec_parse(h.spec_bytes() + rest) == Some(h),
{
    lemma_auto_spec_u32_to_from_le_bytes();
    lemma_auto_spec_u64_to_from_le_bytes();
    let s = h.spec_bytes() + rest;
    let a = spec_u32_to_le_bytes(h.key_len);
    let b = spec_u32_to_le_bytes(h.value_len);
    let c = spec_u64_to_le_bytes(h.sequence);
    let d = spec_u64_to_le_bytes(h.checksum);
    assert(s.subrange(0, 4) =~= a);
    assert(s.subrange(4, 8) =~= b);
    assert(s.subrange(8, 16) =~= c);
    assert(s[16] == h.compression.tag());
    assert(s.subrange(17, 25) =~= d);
}

// ---------------------------------------------------------------------------
// Whole entries.

/// The value bytes stored for `e`: serialized, then compressed as asked;
/// None where the compressor fails.
pub open spec fn stored_value_of(e: Entry) -> Option<Seq<u8>> {
    let vb = bincode_bytes(e.value@);
    match e.compression {
        Compression::Uncompressed => Some(vb),
        Compression::Zstd => zstd_compressed(vb),
        Compression::Lz4 => lz4_compressed(vb),
    }
}

/// The encoders accept `e`, and the stored value decompresses back to the
/// serialized value.
pub open spec fn encodable(e: Entry) -> bool {
    &&& stored_value_of(e) is Some
    &&& decompressed(e.compression, stored_value_of(e)->Some_0) == Some(bincode_bytes(e.value@))
}

/// The value bytes stored for an encodable `e`.
pub open spec fn stored_value(e: Entry) -> Seq<u8> {
    stored_value_of(e)->Some_0
}

/// The key bytes stored for `e`.
pub open spec fn stored_key(e: Entry) -> Seq<u8> {
    bincode_bytes(e.key@)
}

/// The header that describes value bytes `vb` and key bytes `kb`.
pub open spec fn header_for(sequence: u64, compression: Compression, vb: Seq<u8>, kb: Seq<u8>) -> EntryHeader {
    EntryHeader {
        key_len: kb.len() as u32,
        value_len: vb.len() as u32,
        sequence,
        compression,
        checksum: checksum_spec(vb + kb),
    }
}

/// An entry's bytes on disk, before padding.
pub open spec fn record_bytes(sequence: u64, compression: Compression, vb: Seq<u8>, kb: Seq<u8>) -> Seq<u8> {
    header_for(sequence, compression, vb, kb).spec_bytes() + vb + kb
}

/// The record of `e`.
pub open spec fn entry_record(e: Entry) -> Seq<u8> {
    record_bytes(e.sequence, e.compression, stored_value(e), stored_key(e))
}

/// A record is a header and the value and key bytes.
pub proof fn lemma_record_len(sequence: u64, compression: Compression, vb: Seq<u8>, kb: Seq<u8>)
    ensures
        header_for(sequence, compression, vb, kb).spec_bytes().len() == ENTRY_HEADER_LEN,
        record_bytes(sequence, compression, vb, kb).len() == ENTRY_HEADER_LEN + vb.len() + kb.len(),
{
    lemma_auto_spec_u32_to_from_le_bytes();
    lemma_auto_spec_u64_to_from_le_bytes();
}

/// Serializes (and compresses) the value and serializes the key of `e`.
/// Fails exactly where the compressor fails.
pub fn encode_payload(e: &Entry) -> (r: Result<(Vec<u8>, Vec<u8>), BufferError>)
    ensures
        r is Ok <==> encodable(*e),
        r matches Ok((v, k)) ==> v@ == stored_value(*e) && k@ == stored_key(*e),
{
    let vb = match bincode_serialize(&e.value) {
        Ok(v) => v,
        Err(err) => return Err(BufferError::Bincode(err)),
    };
    let v = match e.compression {
        Compression::Uncompressed => vb,
        Compression::Zstd => match zstd_compress(vb.as_slice()) {
            Ok(v) => v,
            Err(err) => return Err(BufferError::Io(err)),
        },
        Compression::Lz4 => match lz4_compress(vb.as_slice()) {
            Ok(v) => v,
            Err(err) => return Err(BufferError::Io(err)),
        },
    };
    let k = match bincode_serialize(&e.key) {
        Ok(k) => k,
        Err(err) => return Err(BufferError::Bincode(err)),
    };
    Ok((v, k))
}

/// Appends `b` to `out`.
fn extend(out: &mut Vec<u8>, b: &[u8])
    ensures
        final(out)@ == old(out)@ + b@,
{
    let mut i: usize = 0;
    while i < b.len()
        invariant
            i <= b@.len(),
            out@ == old(out)@ + b@.subrange(0, i as int),
        decreases b.len() - i,
    {
        out.push(b[i]);
        i = i + 1;
        proof {
            assert(out@ =~= old(out)@ + b@.subrange(0, i as int));
        }
    }
    proof {
        assert(b@.subrange(0, b@.len() as int) =~= b@);
    }
}

/// Appends the record made of value bytes `v` and key bytes `k` to `out`.
pub fn append_record(out: &mut Vec<u8>, sequence: u64, compression: Compression, v: &Vec<u8>, k: &Vec<u8>)
    requires
        v@.len() <= u32::MAX,
        k@.len() <= u32::MAX,
    ensures
        final(out)@ == old(out)@ + record_bytes(sequence, compression, v@, k@),
{
    let mut payload: Vec<u8> = Vec::new();
    extend(&mut payload, v.as_slice());
    extend(&mut payload, k.as_slice());
    let header = EntryHeader {
        key_len: k.len() as u32,
        value_len: v.len() as u32,
        sequence,
        compression,
        checksum: checksum(payload.as_slice()),
    };
    let h = header.write();
    extend(out, h.as_slice());
    extend(out, payload.as_slice());
    proof {
        assert(payload@ =~= v@ + k@);
        assert(final(out)@ =~= old(out)@ + record_bytes(sequence, compression, v@, k@));
    }
}

// ---------------------------------------------------------------------------
// Reading entries back.

/// Why bytes read back from a region do not give an entry.
#[derive(Debug)]
pub enum ReadError {
    /// No header, or lengths that run past the bytes read.
    Malformed,
    /// The checksum does not match the value and key bytes.
    ChecksumMismatch,
    /// The value or key bytes do not decode.
    Codec(BufferError),
}

/// An entry read back from disk.
#[derive(Debug)]
pub struct DecodedEntry {
    pub header: EntryHeader,
    pub key: Vec<u8>,
    pub value: Vec<u8>,
}

/// `s` starts with a header whose value and key bytes lie within `s`.
pub open spec fn record_fits(s: Seq<u8>) -> bool {
    match EntryHeader::spec_parse(s) {
        Some(h) => ENTRY_HEADER_LEN + h.value_len + h.key_len <= s.len(),
        None => false,
    }
}

/// The value bytes of the record that `s` starts with.
pub open spec fn value_part(s: Seq<u8>) -> Seq<u8> {
    let h = EntryHeader::spec_parse(s)->Some_0;
    s.subrange(ENTRY_HEADER_LEN as int, ENTRY_HEADER_LEN + h.value_len)
}

/// The key bytes of the record that `s` starts with.
pub open spec fn key_part(s: Seq<u8>) -> Seq<u8> {
    let h = EntryHeader::spec_parse(s)->Some_0;
    s.subrange(ENTRY_HEADER_LEN + h.value_len, ENTRY_HEADER_LEN + h.value_len + h.key_len)
}

/// The record fits and its checksum matches.
pub open spec fn record_intact(s: Seq<u8>) -> bool {
    record_fits(s) && checksum_spec(value_part(s) + key_part(s)) == EntryHeader::spec_parse(
        s,
    )->Some_0.checksum
}

/// The value bytes after the decompression that `c` names.
pub open spec fn decompressed(c: Compression, p: Seq<u8>) -> Option<Seq<u8>> {
    match c {
        Compression::Uncompressed => Some(p),
        Compression::Zstd => zstd_decompressed(p),
        Compression::Lz4 => lz4_decompressed(p),
    }
}

/// The bytes that a bincode byte vector at the start of `s` holds.
#[verifier::opaque]
pub open spec fn bincode_payload(s: Seq<u8>) -> Seq<u8> {
    s.subrange(8, 8 + bincode_len(s))
}

/// Parses the record that `s` starts with, checks its checksum, and decodes
/// its value and key.
pub fn decode_entry(s: &[u8]) -> (r: Result<DecodedEntry, ReadError>)
    ensures
        !record_fits(s@) ==> r matches Err(ReadError::Malformed),
        record_fits(s@) && !record_intact(s@) ==> r matches Err(ReadError::ChecksumMismatch),
        r matches Ok(d) ==> {
            &&& record_intact(s@)
            &&& Some(d.header) == EntryHeader::spec_parse(s@)
            &&& decompressed(d.header.compression, value_part(s@)) is Some
            &&& bincode_readable(decompressed(d.header.compression, value_part(s@))->Some_0)
            &&& d.value@ == bincode_payload(decompressed(d.header.compression, value_part(s@))->Some_0)
            &&& bincode_readable(key_part(s@))
            &&& d.key@ == bincode_payload(key_part(s@))
        },
        record_intact(s@) && decompressed(EntryHeader::spec_parse(s@)->Some_0.compression, value_part(s@))
            is Some && bincode_readable(
            decompressed(EntryHeader::spec_parse(s@)->Some_0.compression, value_part(s@))->Some_0,
        ) && bincode_readable(key_part(s@)) ==> r is Ok,
{
    let header = match EntryHeader::read(s) {
        Some(h) => h,
        None => return Err(ReadError::Malformed),
    };
    let vl = header.value_len as usize;
    let kl = header.key_len as usize;
    if s.len() - ENTRY_HEADER_LEN < vl || s.len() - ENTRY_HEADER_LEN - vl < kl {
        return Err(ReadError::Malformed);
    }
    let value_end = ENTRY_HEADER_LEN + vl;
    let end = value_end + kl;
    let payload = vstd::slice::slice_subrange(s, ENTRY_HEADER_LEN, end);
    if checksum(payload) != header.checksum {
        proof {
            assert(payload@ =~= value_part(s@) + key_part(s@));
        }
        return Err(ReadError::ChecksumMismatch);
    }
    proof {
        assert(payload@ =~= value_part(s@) + key_part(s@));
    }
    let vpart = vstd::slice::slice_subrange(s, ENTRY_HEADER_LEN, value_end);
    let kpart = vstd::slice::slice_subrange(s, value_end, end);
    let value_bytes = match header.compression {
        Compression::Uncompressed => {
            let mut v: Vec<u8> = Vec::new();
            extend(&mut v, vpart);
            v
        },
        Compression::Zstd => match zstd_decompress(vpart) {
            Ok(v) => v,
            Err(err) => return Err(ReadError::Codec(BufferError::Io(err))),
        },
        Compression::Lz4 => match lz4_decompress(vpart) {
            Ok(v) => v,
            Err(err) => return Err(ReadError::Codec(BufferError::Io(err))),
        },
    };
    let value = match bincode_deserialize(value_bytes.as_slice()) {
        Ok(v) => v,
        Err(err) => return Err(ReadError::Codec(BufferError::Bincode(err))),
    };
    let key = match bincode_deserialize(kpart) {
        Ok(k) => k,
        Err(err) => return Err(ReadError::Codec(BufferError::Bincode(err))),
    };
    Ok(DecodedEntry { header, key, value })
}

/// A serialized byte vector reads back, whatever follows it.
pub proof fn lemma_bincode_round_trip(b: Seq<u8>, rest: Seq<u8>)
    requires
        b.len() <= u64::MAX,
    ensures
        bincode_readable(bincode_bytes(b) + rest),
        bincode_payload(bincode_bytes(b) + rest) == b,
{
    reveal(bincode_readable);
    reveal(bincode_payload);
    lemma_auto_spec_u64_to_from_le_bytes();
    let s = bincode_bytes(b) + rest;
    assert(s.subrange(0, 8) =~= spec_u64_to_le_bytes(b.len() as u64));
    assert(s.subrange(8, 8 + b.len() as int) =~= b);
}

/// A serialized byte vector on its own reads back.
pub proof fn lemma_bincode_reads_back(b: Seq<u8>)
    requires
        b.len() <= u64::MAX,
    ensures
        bincode_readable(bincode_bytes(b)),
        bincode_payload(bincode_bytes(b)) == b,
{
    assert(bincode_bytes(b) =~= bincode_bytes(b) + Seq::<u8>::empty());
    lemma_bincode_round_trip(b, Seq::<u8>::empty());
}

/// A record, with any padding after it, parses back: its header, value
/// and key bytes within the record, and a matching checksum.
proof fn lemma_record_bytes_read_back(
    sequence: u64,
    compression: Compression,
    vb: Seq<u8>,
    kb: Seq<u8>,
    pad: Seq<u8>,
)
    requires
        vb.len() <= u32::MAX,
        kb.len() <= u32::MAX,
    ensures
        EntryHeader::spec_parse(record_bytes(sequence, compression, vb, kb) + pad) == Some(
            header_for(sequence, compression, vb, kb),
        ),
        record_intact(record_bytes(sequence, compression, vb, kb) + pad),
        value_part(record_bytes(sequence, compression, vb, kb) + pad) == vb,
        key_part(record_bytes(sequence, compression, vb, kb) + pad) == kb,
{
    let h = header_for(sequence, compression, vb, kb);
    let s = record_bytes(sequence, compression, vb, kb) + pad;
    lemma_record_len(sequence, compression, vb, kb);
    assert(s =~= h.spec_bytes() + (vb + kb + pad));
    lemma_header_round_trip(h, vb + kb + pad);
    assert(value_part(s) =~= vb);
    assert(key_part(s) =~= kb);
}

/// Reading an entry's record back, with any padding after it, finds the
/// header that describes it, value and key bytes within the record, a
/// matching checksum and the stored bytes; the stored value decompresses
/// to the serialized value.
pub proof fn lemma_record_reads_back(e: Entry, pad: Seq<u8>)
    requires
        encodable(e),
        stored_value(e).len() <= u32::MAX,
        stored_key(e).len() <= u32::MAX,
    ensures
        EntryHeader::spec_parse(entry_record(e) + pad) == Some(
            header_for(e.sequence, e.compression, stored_value(e), stored_key(e)),
        ),
        record_intact(entry_record(e) + pad),
        value_part(entry_record(e) + pad) == stored_value(e),
        key_part(entry_record(e) + pad) == stored_key(e),
        decompressed(e.compression, stored_value(e)) == Some(bincode_bytes(e.value@)),
{
    let vb = stored_value(e);
    let kb = stored_key(e);
    let s = entry_record(e) + pad;
    assert(s == record_bytes(e.sequence, e.compression, vb, kb) + pad);
    lemma_record_bytes_read_back(e.sequence, e.compression, vb, kb, pad);
}

} // verus!
