//! Packs entries into an aligned staging buffer for the region being written,
//! and hands out the positions of entries once their bytes are on disk.
//!
//! The buffer only plans I/O: [`FlushBuffer::flush_request`] says which bytes
//! go where, and [`FlushBuffer::complete_flush`] is called once the device
//! has accepted them.

use vstd::bytes::*;
use vstd::prelude::*;

use crate::bits::{align_up_spec, lemma_add_aligned, lemma_align_up, lemma_align_up_within, lemma_sub_aligned};
use crate::codec::{
    append_record, bincode_payload, bincode_readable, decompressed, encode_payload, entry_record, key_part,
    lemma_record_len, lemma_record_reads_back, record_intact, stored_key, stored_value, value_part, encodable,
    bincode_bytes, lemma_bincode_reads_back,
    BufferError, Compression, Entry, EntryHeader, ENTRY_HEADER_LEN,
};
use crate::config::FsDeviceConfig;

verus! {

pub const REGION_MAGIC: u64 = 0x1997_0327_1997_0327;

pub const REGION_VERSION: u16 = 1;

pub const REGION_HEADER_LEN: usize = 10;

/// `n` zero bytes.
pub open spec fn zeros(n: nat) -> Seq<u8> {
    Seq::new(n, |_i: int| 0u8)
}

/// The first block of a freshly rotated region: magic and version, then
/// zeros up to `align`.
pub open spec fn region_header_block(align: nat) -> Seq<u8> {
    spec_u64_to_le_bytes(REGION_MAGIC) + spec_u16_to_le_bytes(REGION_VERSION) + zeros(
        (align - REGION_HEADER_LEN) as nat,
    )
}

/// An entry whose bytes are staged (or were flushed) at `offset` of `region`,
/// taking `len` aligned bytes.
#[derive(Debug)]
pub struct PositionedEntry {
    pub entry: Entry,
    pub region: u32,
    pub offset: usize,
    pub len: usize,
}

/// One write for the device to make: `data` at `offset` of `region`.
#[derive(Debug)]
pub struct FlushRequest {
    pub region: u32,
    pub offset: usize,
    pub data: Vec<u8>,
}

/// What became of an entry handed to [`FlushBuffer::write`].
#[derive(Debug)]
pub enum WriteOutcome {
    /// The entry is staged; `flush` says that the buffer should be flushed now.
    Staged { flush: bool },
    /// The current region has no room (or there is none): rotate and retry.
    Rotate(Entry),
}

#[derive(Debug)]
pub struct FlushBuffer {
    buffer: Vec<u8>,
    region: Option<u32>,
    offset: usize,
    entries: Vec<PositionedEntry>,
    align: usize,
    region_size: usize,
    io_size: usize,
}

/// `p` lies within the aligned slot `[base, base + staged.len())` of a region
/// and the staged bytes at its place start with its record.
pub open spec fn placed(p: PositionedEntry, base: nat, staged: Seq<u8>, align: nat) -> bool {
    let rec = entry_record(p.entry);
    &&& encodable(p.entry)
    &&& p.offset as nat % align == 0
    &&& p.len as nat % align == 0
    &&& base <= p.offset
    &&& p.offset + p.len <= base + staged.len()
    &&& rec.len() <= p.len
    &&& staged.subrange(p.offset - base, p.offset - base + rec.len()) == rec
}

/// The bytes of a placed entry, read back at its view (its offset and
/// length within the flushed bytes `data` that start at offset `base` of the
/// region), hold a record whose header parses, whose value and key bytes lie
/// within the view and whose checksum matches; the key decodes to the
/// entry's key and the header gives the entry's sequence and compression;
/// the value, decompressed as the header says, decodes to the entry's value.
pub proof fn lemma_placed_entry_reads_back(p: PositionedEntry, base: nat, data: Seq<u8>, align: nat)
    requires
        align > 0,
        placed(p, base, data, align),
        data.len() <= u32::MAX,
    ensures
        ({
            let view = data.subrange(p.offset - base, p.offset - base + p.len);
            &&& record_intact(view)
            &&& EntryHeader::spec_parse(view)->Some_0.sequence == p.entry.sequence
            &&& EntryHeader::spec_parse(view)->Some_0.compression == p.entry.compression
            &&& value_part(view) == stored_value(p.entry)
            &&& bincode_readable(key_part(view))
            &&& bincode_payload(key_part(view)) == p.entry.key@
            &&& decompressed(p.entry.compression, value_part(view)) is Some
            &&& bincode_readable(decompressed(p.entry.compression, value_part(view))->Some_0)
            &&& bincode_payload(decompressed(p.entry.compression, value_part(view))->Some_0) == p.entry.value@
        }),
{
    let e = p.entry;
    let lo = p.offset - base;
    let rec = entry_record(e);
    let view = data.subrange(lo, lo + p.len);
    lemma_record_len(e.sequence, e.compression, stored_value(e), stored_key(e));
    let pad = view.subrange(rec.len() as int, p.len as int);
    assert(view =~= rec + pad);
    lemma_record_reads_back(e, pad);
    assert(e.key@.len() == e.key.len());
    assert(e.value@.len() == e.value.len());
    lemma_bincode_reads_back(e.key@);
    lemma_bincode_reads_back(e.value@);
}

/// Appends `n` zero bytes to `buf`.
fn push_zeros(buf: &mut Vec<u8>, n: usize)
    ensures
        final(buf)@ == old(buf)@ + zeros(n as nat),
{
    let mut j: usize = 0;
    while j < n
        invariant
            j <= n,
            buf@ == old(buf)@ + zeros(j as nat),
        decreases n - j,
    {
        buf.push(0u8);
        j = j + 1;
        proof {
            assert(buf@ =~= old(buf)@ + zeros(j as nat));
        }
    }
}

/// Staging a record, padded to the alignment, with its entry pushed
/// last, keeps the buffer well formed.
proof fn lemma_staged_wf(pre: FlushBuffer, post: FlushBuffer)
    requires
        pre.wf(),
        pre.region is Some,
        post.region == pre.region,
        post.offset == pre.offset,
        post.align == pre.align,
        post.region_size == pre.region_size,
        post.io_size == pre.io_size,
        pre.buffer@.len() <= post.buffer@.len(),
        forall|k: int| 0 <= k < pre.buffer@.len() ==> post.buffer@[k] == pre.buffer@[k],
        post.buffer@.len() % (post.align as nat) == 0,
        post.offset + post.buffer@.len() <= post.region_size,
        post.entries@.len() == pre.entries@.len() + 1,
        forall|i: int| 0 <= i < pre.entries@.len() ==> post.entries@[i] == pre.entries@[i],
        post.entries@.last().region == pre.region->Some_0,
        placed(post.entries@.last(), post.offset as nat, post.buffer@, post.align as nat),
    ensures
        post.wf(),
{
    let b = post.buffer@;
    assert forall|i: int| 0 <= i < post.entries@.len() implies {
        &&& #[trigger] post.spec_entries()[i].region == post.spec_region()->Some_0
        &&& placed(post.spec_entries()[i], post.spec_offset(), post.spec_buffer(), post.spec_align())
    } by {
        let p = post.entries@[i];
        if i < pre.entries@.len() {
            assert(pre.spec_entries()[i].region == pre.spec_region()->Some_0);
            let r = entry_record(p.entry);
            let lo = p.offset - post.offset;
            assert(b.subrange(lo, lo + r.len()) =~= pre.buffer@.subrange(lo, lo + r.len()));
        }
    }
}

/// How staging `entry` relates the buffer before (`pre`) and after (`post`)
/// to the outcome `r`.
pub open spec fn write_post(pre: FlushBuffer, post: FlushBuffer, entry: Entry, r: WriteOutcome) -> bool {
    &&& (pre.spec_region() is None ==> (r matches WriteOutcome::Rotate(e) && e == entry))
    &&& (r matches WriteOutcome::Rotate(e) ==> {
        &&& e == entry
        &&& post == pre
        &&& (pre.spec_region() is None || pre.spec_offset() + pre.spec_buffer().len() + entry_record(
            entry,
        ).len() > pre.spec_region_size())
    })
    &&& (r matches WriteOutcome::Staged { flush } ==> {
        let rec = entry_record(entry);
        let start = pre.spec_buffer().len();
        let len = align_up_spec(pre.spec_align(), rec.len());
        &&& pre.spec_region() is Some
        &&& pre.spec_offset() + start + rec.len() <= pre.spec_region_size()
        &&& post.spec_region() == pre.spec_region()
        &&& post.spec_offset() == pre.spec_offset()
        &&& post.spec_buffer() == pre.spec_buffer() + rec + zeros((len - rec.len()) as nat)
        &&& post.spec_entries() == pre.spec_entries().push(
            PositionedEntry {
                entry,
                region: pre.spec_region()->Some_0,
                offset: (pre.spec_offset() + start) as usize,
                len: len as usize,
            },
        )
        &&& flush == (post.spec_buffer().len() >= post.spec_io_size() || post.spec_remaining() == 0)
    })
}

/// How [`FlushBuffer::write`] relates the buffer before and after, and its
/// result: without a region the entry comes back; an encoder's failure
/// changes nothing; otherwise the entry is staged as [`write_post`] says.
pub open spec fn write_result_post(
    pre: FlushBuffer,
    post: FlushBuffer,
    entry: Entry,
    r: Result<WriteOutcome, BufferError>,
) -> bool {
    &&& (pre.spec_region() is None ==> (r matches Ok(WriteOutcome::Rotate(e)) && e == entry))
    &&& (r is Err ==> post == pre)
    &&& (pre.spec_region() is Some ==> (r is Ok <==> encodable(entry)))
    &&& (r matches Ok(o) ==> write_post(pre, post, entry, o))
}

impl FlushBuffer {
    pub closed spec fn spec_buffer(&self) -> Seq<u8> {
        self.buffer@
    }

    pub closed spec fn spec_region(&self) -> Option<u32> {
        self.region
    }

    pub closed spec fn spec_offset(&self) -> nat {
        self.offset as nat
    }

    pub closed spec fn spec_entries(&self) -> Seq<PositionedEntry> {
        self.entries@
    }

    pub closed spec fn spec_align(&self) -> nat {
        self.align as nat
    }

    pub closed spec fn spec_region_size(&self) -> nat {
        self.region_size as nat
    }

    pub closed spec fn spec_io_size(&self) -> nat {
        self.io_size as nat
    }

    /// Room left in the current region past the staged bytes.
    pub open spec fn spec_remaining(&self) -> nat {
        match self.spec_region() {
            None => 0,
            Some(_) => (self.spec_region_size() - self.spec_offset() - self.spec_buffer().len()) as nat,
        }
    }

    /// Nothing is staged.
    pub open spec fn spec_flushed(&self) -> bool {
        self.spec_buffer().len() == 0 && self.spec_entries().len() == 0
    }

    pub open spec fn wf(&self) -> bool {
        let align = self.spec_align();
        &&& align >= REGION_HEADER_LEN
        &&& self.spec_region_size() >= align
        &&& self.spec_region_size() % align == 0
        &&& self.spec_region_size() <= u32::MAX
        &&& self.spec_io_size() > 0
        &&& self.spec_offset() % align == 0
        &&& self.spec_buffer().len() % align == 0
        &&& self.spec_offset() + self.spec_buffer().len() <= self.spec_region_size()
        &&& self.spec_region() is None ==> self.spec_flushed()
        &&& forall|i: int|
            0 <= i < self.spec_entries().len() ==> {
                &&& #[trigger] self.spec_entries()[i].region == self.spec_region()->Some_0
                &&& placed(
                    self.spec_entries()[i],
                    self.spec_offset(),
                    self.spec_buffer(),
                    align,
                )
            }
    }

    /// An empty buffer, with no region, for a device of the given geometry.
    pub fn new(config: &FsDeviceConfig) -> (r: Self)
        requires
            config.spec_valid(),
            config.align >= REGION_HEADER_LEN,
            config.file_size <= u32::MAX,
            config.io_size > 0,
        ensures
            r.wf(),
            r.spec_region() is None,
            r.spec_flushed(),
            r.spec_offset() == 0,
            r.spec_remaining() == 0,
            r.spec_align() == config.align,
            r.spec_region_size() == config.file_size,
            r.spec_io_size() == config.io_size,
    {
        proof {
            assert(config.file_size >= config.align) by (nonlinear_arith)
                requires
                    config.file_size % config.align == 0,
                    config.file_size > 0,
                    config.align > 0,
            ;
        }
        let r = FlushBuffer {
            buffer: Vec::new(),
            region: None,
            offset: 0,
            entries: Vec::new(),
            align: config.align,
            region_size: config.file_size,
            io_size: config.io_size,
        };
        assert(r.buffer@.len() == 0);
        assert(r.entries@.len() == 0);
        assert(0nat % (config.align as nat) == 0);
        r
    }

    /// The region being written, if any.
    pub fn region(&self) -> (r: Option<u32>)
        ensures
            r == self.spec_region(),
    {
        self.region
    }

    /// Bytes left in the current region past what is staged; 0 without a region.
    pub fn remaining(&self) -> (r: usize)
        requires
            self.wf(),
        ensures
            r == self.spec_remaining(),
    {
        match self.region {
            None => 0,
            Some(_) => self.region_size - self.offset - self.buffer.len(),
        }
    }

    /// Whether nothing is staged, so that the buffer may be rotated.
    pub fn is_flushed(&self) -> (r: bool)
        ensures
            r == self.spec_flushed(),
    {
        self.buffer.len() == 0 && self.entries.len() == 0
    }

    /// The geometry is the same in `self` and `other`.
    pub open spec fn same_geometry(&self, other: &Self) -> bool {
        &&& self.spec_align() == other.spec_align()
        &&& self.spec_region_size() == other.spec_region_size()
        &&& self.spec_io_size() == other.spec_io_size()
    }

    /// Stages `entry` in the current region: its record, then zeros up to the
    /// alignment. Without a region, or where the record does not fit in what
    /// is left of it, the entry comes back to be retried after a rotation and
    /// nothing changes. The fit is decided on the encoded (and compressed)
    /// size. An encoder's failure also leaves the buffer as it was.
    pub fn write(&mut self, entry: Entry) -> (r: Result<WriteOutcome, BufferError>)
        requires
            old(self).wf(),
        ensures
            final(self).wf(),
            final(self).same_geometry(old(self)),
            write_result_post(*old(self), *final(self), entry, r),
    {
        if self.region.is_none() {
            return Ok(WriteOutcome::Rotate(entry));
        }
        match encode_payload(&entry) {
            Ok((v, k)) => Ok(self.stage_encoded(entry, v, k)),
            Err(err) => Err(err),
        }
    }

    /// Stages `entry` whose value and key are already encoded as
    /// `value_bytes` and `key_bytes`; see [`FlushBuffer::write`].
    pub fn stage_encoded(&mut self, entry: Entry, value_bytes: Vec<u8>, key_bytes: Vec<u8>) -> (r: WriteOutcome)
        requires
            old(self).wf(),
            encodable(entry),
            value_bytes@ == stored_value(entry),
            key_bytes@ == stored_key(entry),
        ensures
            final(self).wf(),
            final(self).same_geometry(old(self)),
            write_post(*old(self), *final(self), entry, r),
    {
        let v = value_bytes;
        let k = key_bytes;
        let region = match self.region {
            None => return WriteOutcome::Rotate(entry),
            Some(r) => r,
        };
        proof {
            lemma_record_len(entry.sequence, entry.compression, v@, k@);
        }
        let old_len = self.buffer.len();
        let room = self.region_size - self.offset - old_len;
        if v.len() > room || k.len() > room - v.len() || ENTRY_HEADER_LEN > room - v.len() - k.len() {
            return WriteOutcome::Rotate(entry);
        }
        let ghost pre = *self;
        append_record(&mut self.buffer, entry.sequence, entry.compression, &v, &k);
        let rec_len = ENTRY_HEADER_LEN + v.len() + k.len();
        let ghost rec = entry_record(entry);
        let ghost with_rec = self.buffer@;
        assert(with_rec == pre.buffer@ + rec);
        let rem = rec_len % self.align;
        let pad = if rem == 0 { 0 } else { self.align - rem };
        proof {
            lemma_align_up(self.align as nat, rec_len as nat);
            lemma_add_aligned(self.align as nat, self.offset as nat, old_len as nat);
            lemma_sub_aligned(self.align as nat, self.region_size as nat, (self.offset + old_len) as nat);
            lemma_align_up_within(self.align as nat, rec_len as nat, room as nat);
        }
        assert(rec_len + pad == align_up_spec(self.align as nat, rec_len as nat));
        push_zeros(&mut self.buffer, pad);
        let len = rec_len + pad;
        let positioned = PositionedEntry { entry, region, offset: self.offset + old_len, len };
        self.entries.push(positioned);
        proof {
            let b = self.buffer@;
            assert(b =~= pre.buffer@ + rec + zeros(pad as nat));
            assert(b.subrange(old_len as int, old_len + rec.len()) =~= rec);
            lemma_add_aligned(self.align as nat, old_len as nat, len as nat);
            lemma_staged_wf(pre, *self);
        }
        let flush = self.buffer.len() >= self.io_size || self.region_size - self.offset - self.buffer.len() == 0;
        WriteOutcome::Staged { flush }
    }

    /// Lets go of the current region; nothing may be staged.
    pub fn release(&mut self)
        requires
            old(self).wf(),
            old(self).spec_flushed(),
        ensures
            final(self).wf(),
            final(self).same_geometry(old(self)),
            final(self).spec_region() is None,
            final(self).spec_flushed(),
    {
        self.region = None;
    }

    /// Starts writing `region`: its header block is staged at offset 0.
    /// Whatever was staged must have been flushed first.
    pub fn rotate(&mut self, region: u32)
        requires
            old(self).wf(),
            old(self).spec_flushed(),
        ensures
            final(self).wf(),
            final(self).same_geometry(old(self)),
            final(self).spec_region() == Some(region),
            final(self).spec_offset() == 0,
            final(self).spec_buffer() == region_header_block(old(self).spec_align()),
            final(self).spec_entries().len() == 0,
            final(self).spec_buffer().len() == old(self).spec_align(),
    {
        let mut block = u64_to_le_bytes(REGION_MAGIC);
        let mut version = u16_to_le_bytes(REGION_VERSION);
        block.append(&mut version);
        let ghost head = block@;
        proof {
            lemma_auto_spec_u64_to_from_le_bytes();
            lemma_auto_spec_u16_to_from_le_bytes();
        }
        while block.len() < self.align
            invariant
                REGION_HEADER_LEN <= block@.len() <= self.align,
                head.len() == REGION_HEADER_LEN,
                block@ == head + zeros((block@.len() - REGION_HEADER_LEN) as nat),
            decreases self.align - block.len(),
        {
            block.push(0u8);
            proof {
                assert(block@ =~= head + zeros((block@.len() - REGION_HEADER_LEN) as nat));
            }
        }
        self.buffer = block;
        self.region = Some(region);
        self.offset = 0;
        proof {
            assert(self.buffer@.len() % (self.align as nat) == 0) by (nonlinear_arith)
                requires self.buffer@.len() == self.align, self.align > 0;
        }
    }

    /// The write that flushes the staged bytes: all of them, at the current
    /// offset of the current region. None without a region.
    pub fn flush_request(&self) -> (r: Option<FlushRequest>)
        requires
            self.wf(),
        ensures
            r is None <==> self.spec_region() is None,
            r matches Some(q) ==> {
                &&& Some(q.region) == self.spec_region()
                &&& q.offset == self.spec_offset()
                &&& q.data@ == self.spec_buffer()
                &&& q.offset as nat % self.spec_align() == 0
                &&& q.data@.len() % self.spec_align() == 0
                &&& q.offset + q.data@.len() <= self.spec_region_size()
            },
    {
        match self.region {
            None => None,
            Some(region) => {
                let mut data: Vec<u8> = Vec::new();
                let mut i: usize = 0;
                while i < self.buffer.len()
                    invariant
                        i <= self.buffer@.len(),
                        data@ == self.buffer@.subrange(0, i as int),
                    decreases self.buffer.len() - i,
                {
                    data.push(self.buffer[i]);
                    i = i + 1;
                    proof {
                        assert(data@ =~= self.buffer@.subrange(0, i as int));
                    }
                }
                proof {
                    assert(data@ =~= self.buffer@);
                }
                Some(FlushRequest { region, offset: self.offset, data })
            },
        }
    }

    /// Records that the device accepted the bytes of [`FlushBuffer::flush_request`]:
    /// the offset moves past them, a region that is now full is let go, and
    /// the entries staged in them are handed out.
    #[verifier::rlimit(40)]
    pub fn complete_flush(&mut self) -> (r: Vec<PositionedEntry>)
        requires
            old(self).wf(),
            old(self).spec_region() is Some,
        ensures
            final(self).wf(),
            final(self).same_geometry(old(self)),
            final(self).spec_flushed(),
            final(self).spec_offset() == old(self).spec_offset() + old(self).spec_buffer().len(),
            final(self).spec_region() == if final(self).spec_offset() == old(self).spec_region_size() {
                None
            } else {
                old(self).spec_region()
            },
            r@ == old(self).spec_entries(),
            forall|i: int|
                0 <= i < r@.len() ==> {
                    &&& #[trigger] r@[i].region == old(self).spec_region()->Some_0
                    &&& r@[i].offset as nat % old(self).spec_align() == 0
                    &&& r@[i].len as nat % old(self).spec_align() == 0
                    &&& r@[i].offset + r@[i].len <= old(self).spec_region_size()
                    &&& placed(
                        r@[i],
                        old(self).spec_offset(),
                        old(self).spec_buffer(),
                        old(self).spec_align(),
                    )
                },
    {
        let ghost pre = *self;
        proof {
            lemma_add_aligned(self.align as nat, self.offset as nat, self.buffer@.len());
        }
        self.offset = self.offset + self.buffer.len();
        self.buffer = Vec::new();
        if self.offset == self.region_size {
            self.region = None;
        }
        let mut entries: Vec<PositionedEntry> = Vec::new();
        std::mem::swap(&mut self.entries, &mut entries);
        assert(0nat % (self.align as nat) == 0);
        assert(pre == *old(self));
        assert forall|i: int| 0 <= i < entries@.len() implies {
            &&& #[trigger] entries@[i].region == pre.spec_region()->Some_0
            &&& entries@[i].offset as nat % pre.spec_align() == 0
            &&& entries@[i].len as nat % pre.spec_align() == 0
            &&& entries@[i].offset + entries@[i].len <= pre.spec_region_size()
            &&& placed(entries@[i], pre.spec_offset(), pre.spec_buffer(), pre.spec_align())
        } by {
            assert(pre.spec_entries()[i].region == pre.spec_region()->Some_0);
        }
        entries
    }
}

} // verus!
