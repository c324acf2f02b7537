//! The flusher's decisions: staging entries, publishing flushed entries to
//! the catalog, switching regions and evicting. The device writes themselves
//! are made by the caller between [`Flusher::flush_request`] and
//! [`Flusher::flushed`].

use vstd::prelude::*;

use crate::buffer::{lemma_placed_entry_reads_back, placed, write_post, write_result_post, FlushBuffer, FlushRequest, PositionedEntry, WriteOutcome, REGION_HEADER_LEN};
use crate::catalog::{insert_result, supersedes, without_region, Catalog, Item, RegionView};
use crate::codec::{
    bincode_payload, bincode_readable, decompressed, encodable, entry_record, key_part, record_intact,
    value_part, BufferError, Entry, EntryHeader,
};
use crate::config::FsDeviceConfig;
use crate::region::{Phase, RegionManager};

verus! {

/// The catalog item that publishes `p`.
pub open spec fn item_of(p: PositionedEntry) -> Item {
    Item {
        sequence: p.entry.sequence,
        view: RegionView { region: p.region, offset: p.offset as u32, len: p.len as u32 },
    }
}

/// Key `k`'s item after the entries `es` are published in order, starting
/// from `current`.
pub open spec fn published(current: Option<Item>, k: Seq<u8>, es: Seq<PositionedEntry>) -> Option<Item>
    decreases es.len(),
{
    if es.len() == 0 {
        current
    } else {
        let prev = published(current, k, es.drop_last());
        if es.last().entry.key@ == k {
            insert_result(prev, item_of(es.last()))
        } else {
            prev
        }
    }
}

/// Publishing never loses an entry: after entries `es` are published, the
/// key of each of them has an item at least as new as that entry.
pub proof fn lemma_published_keeps_every_entry(current: Option<Item>, es: Seq<PositionedEntry>, i: int)
    requires
        0 <= i < es.len(),
    ensures
        published(current, es[i].entry.key@, es) is Some,
        published(current, es[i].entry.key@, es)->Some_0.sequence >= es[i].entry.sequence,
    decreases es.len(),
{
    let k = es[i].entry.key@;
    if i < es.len() - 1 {
        lemma_published_keeps_every_entry(current, es.drop_last(), i);
        assert(es.drop_last()[i] == es[i]);
    }
}

/// The view that publishing a flushed entry records is the entry's place,
/// and the bytes found there meet every condition under which
/// `decode_entry` succeeds: the header parses and gives the entry's
/// sequence, the checksum matches, the value decompresses and decodes to the
/// entry's value, and the key decodes to the entry's key. `data` are the
/// bytes the flush wrote at offset `base` of the entry's region.
pub proof fn lemma_published_view_reads_back(p: PositionedEntry, base: nat, data: Seq<u8>, align: nat)
    requires
        align > 0,
        placed(p, base, data, align),
        base + data.len() <= u32::MAX,
    ensures
        item_of(p).sequence == p.entry.sequence,
        item_of(p).view.region == p.region,
        item_of(p).view.offset == p.offset,
        item_of(p).view.len == p.len,
        ({
            let v = item_of(p).view;
            let bytes = data.subrange(v.offset - base, v.offset - base + v.len);
            &&& record_intact(bytes)
            &&& EntryHeader::spec_parse(bytes)->Some_0.sequence == p.entry.sequence
            &&& EntryHeader::spec_parse(bytes)->Some_0.compression == p.entry.compression
            &&& decompressed(p.entry.compression, value_part(bytes)) is Some
            &&& bincode_readable(decompressed(p.entry.compression, value_part(bytes))->Some_0)
            &&& bincode_payload(decompressed(p.entry.compression, value_part(bytes))->Some_0) == p.entry.value@
            &&& bincode_readable(key_part(bytes))
            &&& bincode_payload(key_part(bytes)) == p.entry.key@
        }),
{
    lemma_placed_entry_reads_back(p, base, data, align);
}

/// Publishing entries in two batches is publishing them in one.
pub proof fn lemma_published_concat(
    current: Option<Item>,
    k: Seq<u8>,
    a: Seq<PositionedEntry>,
    b: Seq<PositionedEntry>,
)
    ensures
        published(current, k, a + b) == published(published(current, k, a), k, b),
    decreases b.len(),
{
    if b.len() == 0 {
        assert(a + b =~= a);
    } else {
        assert((a + b).drop_last() =~= a + b.drop_last());
        lemma_published_concat(current, k, a, b.drop_last());
    }
}

/// Of the published entries of key `k`, the one with the strictly greatest
/// sequence decides the key's item, whatever the order of the entries,
/// unless the key already held a still newer item.
pub proof fn lemma_newest_entry_wins(current: Option<Item>, k: Seq<u8>, es: Seq<PositionedEntry>, i: int)
    requires
        0 <= i < es.len(),
        es[i].entry.key@ == k,
        supersedes(item_of(es[i]), current),
        forall|j: int|
            0 <= j < es.len() && j != i && #[trigger] es[j].entry.key@ == k ==> es[j].entry.sequence
                < es[i].entry.sequence,
    ensures
        published(current, k, es) == Some(item_of(es[i])),
    decreases es.len(),
{
    let n = es.len() - 1;
    let d = es.drop_last();
    if n == i {
        lemma_published_from(current, k, d);
        let prev = published(current, k, d);
        if prev != current {
            let j = choose|j: int|
                0 <= j < d.len() && d[j].entry.key@ == k && prev == Some(#[trigger] item_of(d[j]));
            assert(es[j] == d[j]);
        }
    } else {
        assert forall|j: int|
            0 <= j < d.len() && j != i && #[trigger] d[j].entry.key@ == k implies d[j].entry.sequence
                < d[i].entry.sequence by {
            assert(es[j] == d[j]);
        }
        lemma_newest_entry_wins(current, k, d, i);
    }
}

/// A published item is the one a key held before, or the item of one of
/// the entries.
pub proof fn lemma_published_from(current: Option<Item>, k: Seq<u8>, es: Seq<PositionedEntry>)
    ensures
        published(current, k, es) == current || exists|j: int|
            0 <= j < es.len() && es[j].entry.key@ == k && published(current, k, es) == Some(
                #[trigger] item_of(es[j]),
            ),
    decreases es.len(),
{
    if es.len() > 0 {
        lemma_published_from(current, k, es.drop_last());
        let p = published(current, k, es);
        if p != published(current, k, es.drop_last()) {
            assert(p == Some(item_of(es[es.len() - 1])));
        } else if p != current {
            let j = choose|j: int|
                0 <= j < es.drop_last().len() && es.drop_last()[j].entry.key@ == k && p == Some(
                    #[trigger] item_of(es.drop_last()[j]),
                );
            assert(es[j] == es.drop_last()[j]);
        }
    }
}

/// Publishes `entries`, in order, to `catalog`. Each entry's view is its
/// region, offset and length.
pub fn update_catalog(catalog: &mut Catalog, entries: Vec<PositionedEntry>)
    requires
        old(catalog).wf(),
        forall|i: int|
            0 <= i < entries@.len() ==> #[trigger] entries@[i].offset + entries@[i].len <= u32::MAX,
    ensures
        final(catalog).wf(),
        forall|k: Seq<u8>|
            #[trigger] final(catalog).spec_lookup(k) == published(old(catalog).spec_lookup(k), k, entries@),
{
    let ghost all = entries@;
    let mut rest = entries;
    let ghost mut j: int = 0;
    while rest.len() > 0
        invariant
            0 <= j <= all.len(),
            rest@ == all.skip(j),
            catalog.wf(),
            forall|i: int| 0 <= i < all.len() ==> #[trigger] all[i].offset + all[i].len <= u32::MAX,
            forall|k: Seq<u8>|
                #[trigger] catalog.spec_lookup(k) == published(old(catalog).spec_lookup(k), k, all.take(j)),
        decreases rest.len(),
    {
        let ghost before = *catalog;
        let p = rest.remove(0);
        proof {
            assert(p == all[j]);
            assert(all.take(j + 1).drop_last() =~= all.take(j));
            assert(rest@ =~= all.skip(j + 1));
        }
        let item = Item {
            sequence: p.entry.sequence,
            view: RegionView { region: p.region, offset: p.offset as u32, len: p.len as u32 },
        };
        catalog.insert(p.entry.key, item);
        proof {
            assert forall|k: Seq<u8>| #[trigger] catalog.spec_lookup(k) == published(
                old(catalog).spec_lookup(k),
                k,
                all.take(j + 1),
            ) by {
                assert(all.take(j + 1).last() == p);
                assert(before.spec_lookup(k) == published(old(catalog).spec_lookup(k), k, all.take(j)));
            }
            j = j + 1;
        }
    }
    proof {
        assert(all.take(j) =~= all);
    }
}

/// Why the flusher could not stage an entry.
#[derive(Debug)]
pub enum FlushError {
    /// An encoder failed.
    Buffer(BufferError),
    /// The entry does not fit even in a freshly rotated region; it is dropped.
    Oversized(Entry),
    /// No region can be had now: every region is dirty and the oldest one is
    /// pinned. The entry comes back to be retried once readers finish.
    NoRegion(Entry),
}

/// The storage engine's single writer: the flush buffer, the catalog it
/// publishes to, the regions it writes, and the region it is writing.
#[derive(Debug)]
pub struct Flusher {
    buffer: FlushBuffer,
    catalog: Catalog,
    regions: RegionManager,
    current: Option<u32>,
}

impl Flusher {
    pub closed spec fn buf(&self) -> FlushBuffer {
        self.buffer
    }

    pub closed spec fn cat(&self) -> Catalog {
        self.catalog
    }

    pub closed spec fn mgr(&self) -> RegionManager {
        self.regions
    }

    /// The region the flusher holds for writing, if any.
    pub closed spec fn spec_current(&self) -> Option<u32> {
        self.current
    }

    pub open spec fn wf(&self) -> bool {
        &&& self.buf().wf()
        &&& self.cat().wf()
        &&& self.mgr().wf()
        &&& match self.spec_current() {
            Some(r) => r < self.mgr().spec_regions() && self.mgr().phase(r) == Phase::Writing,
            None => self.mgr().none_writing(),
        }
        &&& (self.buf().spec_region() is Some ==> self.buf().spec_region() == self.spec_current())
        &&& self.items_not_clean()
    }

    /// Every catalog item lies in a region that exists and is not clean:
    /// a region is handed out for writing only once nothing points into it.
    pub open spec fn items_not_clean(&self) -> bool {
        forall|k: Seq<u8>|
            #[trigger] self.cat().spec_lookup(k) is Some ==> {
                let it = self.cat().spec_lookup(k)->Some_0;
                &&& it.view.region < self.mgr().spec_regions()
                &&& self.mgr().phase(it.view.region) != Phase::Clean
            }
    }

    /// A flusher over a fresh device: every region clean, nothing staged,
    /// an empty catalog.
    pub fn new(config: &FsDeviceConfig) -> (r: Self)
        requires
            config.spec_valid(),
            config.align >= REGION_HEADER_LEN,
            config.file_size <= u32::MAX,
            config.capacity / config.file_size <= u32::MAX,
            config.io_size > 0,
        ensures
            r.wf(),
            r.spec_current() is None,
            r.buf().spec_region() is None,
            r.buf().spec_flushed(),
            r.mgr().spec_regions() == config.capacity / config.file_size,
            forall|k: Seq<u8>| r.cat().spec_lookup(k) is None,
    {
        let n = config.regions();
        Flusher {
            buffer: FlushBuffer::new(config),
            catalog: Catalog::new(),
            regions: RegionManager::new(n as u32),
            current: None,
        }
    }

    pub fn buffer(&self) -> (r: &FlushBuffer)
        ensures
            *r == self.buf(),
    {
        &self.buffer
    }

    pub fn catalog(&self) -> (r: &Catalog)
        ensures
            *r == self.cat(),
    {
        &self.catalog
    }

    pub fn region_manager(&self) -> (r: &RegionManager)
        ensures
            *r == self.mgr(),
    {
        &self.regions
    }

    /// Stages `entry` in the flush buffer; see [`FlushBuffer::write`].
    pub fn write(&mut self, entry: Entry) -> (r: Result<WriteOutcome, BufferError>)
        requires
            old(self).wf(),
        ensures
            final(self).wf(),
            write_result_post(old(self).buf(), final(self).buf(), entry, r),
            final(self).buf().same_geometry(&old(self).buf()),
            final(self).cat() == old(self).cat(),
            final(self).mgr() == old(self).mgr(),
            final(self).spec_current() == old(self).spec_current(),
    {
        self.buffer.write(entry)
    }

    /// Stages an entry again after a rotation. Where it still does not fit,
    /// it is larger than a region can hold and is reported as oversized.
    pub fn write_rotated(&mut self, entry: Entry) -> (r: Result<bool, FlushError>)
        requires
            old(self).wf(),
        ensures
            final(self).wf(),
            final(self).buf().same_geometry(&old(self).buf()),
            final(self).cat() == old(self).cat(),
            final(self).mgr() == old(self).mgr(),
            final(self).spec_current() == old(self).spec_current(),
            r matches Ok(flush) ==> write_post(
                old(self).buf(),
                final(self).buf(),
                entry,
                WriteOutcome::Staged { flush },
            ),
            r matches Err(FlushError::Oversized(e)) ==> e == entry && write_post(
                old(self).buf(),
                final(self).buf(),
                entry,
                WriteOutcome::Rotate(entry),
            ),
            r is Err ==> final(self).buf() == old(self).buf(),
            !(r matches Err(FlushError::NoRegion(_))),
            old(self).buf().spec_region() is Some && encodable(entry) && old(self).buf().spec_offset()
                + old(self).buf().spec_buffer().len() + entry_record(entry).len() <= old(
                self,
            ).buf().spec_region_size() ==> r is Ok,
    {
        match self.buffer.write(entry) {
            Ok(WriteOutcome::Staged { flush }) => Ok(flush),
            Ok(WriteOutcome::Rotate(e)) => Err(FlushError::Oversized(e)),
            Err(err) => Err(FlushError::Buffer(err)),
        }
    }

    /// Handles an entry that did not fit the current region, once everything
    /// staged is flushed: takes the next region (evicting if need be) and
    /// stages the entry there. Ok says whether to flush now.
    pub fn rotate_and_write(&mut self, entry: Entry) -> (r: Result<bool, FlushError>)
        requires
            old(self).wf(),
            old(self).buf().spec_flushed(),
        ensures
            final(self).wf(),
            final(self).buf().same_geometry(&old(self).buf()),
            r matches Err(FlushError::NoRegion(e)) ==> {
                &&& e == entry
                &&& final(self).spec_current() is None
                &&& final(self).mgr().spec_clean().len() == 0
                &&& (final(self).mgr().spec_dirty().len() == 0 || final(self).mgr().pins_of(
                    final(self).mgr().spec_dirty()[0],
                ) > 0)
            },
            !(r matches Err(FlushError::NoRegion(_))) ==> final(self).spec_current() is Some
                && final(self).buf().spec_offset() == 0,
            r matches Err(FlushError::Oversized(e)) ==> e == entry && old(self).buf().spec_align()
                + entry_record(entry).len() > old(self).buf().spec_region_size(),
            r matches Ok(_) ==> final(self).buf().spec_entries().len() == 1
                && final(self).buf().spec_entries()[0].entry == entry
                && final(self).buf().spec_entries()[0].offset == old(self).buf().spec_align(),
            final(self).spec_current() is Some && encodable(entry) && old(self).buf().spec_align()
                + entry_record(entry).len() <= old(self).buf().spec_region_size() ==> r is Ok,
    {
        match self.next_region() {
            None => Err(FlushError::NoRegion(entry)),
            Some(_) => self.write_rotated(entry),
        }
    }

    /// The device write that flushes the staged bytes; see
    /// [`FlushBuffer::flush_request`].
    pub fn flush_request(&self) -> (r: Option<FlushRequest>)
        requires
            self.wf(),
        ensures
            r is None <==> self.buf().spec_region() is None,
            r matches Some(q) ==> {
                &&& Some(q.region) == self.buf().spec_region()
                &&& q.offset == self.buf().spec_offset()
                &&& q.data@ == self.buf().spec_buffer()
            },
    {
        self.buffer.flush_request()
    }

    /// Records that the device accepted the flush request's bytes, and only
    /// then publishes the entries staged in them to the catalog.
    pub fn flushed(&mut self)
        requires
            old(self).wf(),
            old(self).buf().spec_region() is Some,
        ensures
            final(self).wf(),
            final(self).buf().spec_flushed(),
            final(self).buf().same_geometry(&old(self).buf()),
            final(self).buf().spec_offset() == old(self).buf().spec_offset() + old(
                self,
            ).buf().spec_buffer().len(),
            final(self).mgr() == old(self).mgr(),
            final(self).spec_current() == old(self).spec_current(),
            forall|k: Seq<u8>|
                #[trigger] final(self).cat().spec_lookup(k) == published(
                    old(self).cat().spec_lookup(k),
                    k,
                    old(self).buf().spec_entries(),
                ),
    {
        let ghost pre = self.buffer;
        assert(pre.spec_region_size() <= u32::MAX);
        let entries = self.buffer.complete_flush();
        proof {
            assert forall|i: int| 0 <= i < entries@.len() implies #[trigger] entries@[i].offset
                + entries@[i].len <= u32::MAX by {
                assert(entries@[i].region == pre.spec_region()->Some_0);
            }
        }
        let ghost es = entries@;
        let ghost old_cat = self.catalog;
        update_catalog(&mut self.catalog, entries);
        proof {
            let cur = pre.spec_region()->Some_0;
            assert(self.mgr().phase(cur) == Phase::Writing);
            assert forall|k: Seq<u8>| #[trigger] self.cat().spec_lookup(k) is Some implies {
                let it = self.cat().spec_lookup(k)->Some_0;
                &&& it.view.region < self.mgr().spec_regions()
                &&& self.mgr().phase(it.view.region) != Phase::Clean
            } by {
                lemma_published_from(old_cat.spec_lookup(k), k, es);
                if self.cat().spec_lookup(k) != old_cat.spec_lookup(k) {
                    let j = choose|j: int|
                        0 <= j < es.len() && self.cat().spec_lookup(k) == Some(#[trigger] item_of(es[j]));
                    assert(es[j].region == cur);
                } else {
                    assert(old_cat.spec_lookup(k) is Some);
                }
            }
        }
    }

    /// Lets go of the region being written, which joins the eviction queue,
    /// and rotates the buffer into the oldest clean region. Call it only once
    /// everything staged has been flushed. Without a clean region the
    /// flusher holds none and the result is None: evict, then call again.
    pub fn switch_region(&mut self) -> (r: Option<u32>)
        requires
            old(self).wf(),
            old(self).buf().spec_flushed(),
        ensures
            final(self).wf(),
            final(self).cat() == old(self).cat(),
            final(self).spec_current() == r,
            final(self).buf().spec_region() == r,
            final(self).buf().same_geometry(&old(self).buf()),
            r is Some <==> (old(self).mgr().spec_clean().len() > 0),
            r is None ==> final(self).mgr().spec_clean().len() == 0,
            r matches Some(id) ==> forall|k: Seq<u8>|
                #[trigger] final(self).cat().spec_lookup(k) is Some ==> final(self).cat().spec_lookup(
                    k,
                )->Some_0.view.region != id,
            r matches Some(id) ==> {
                &&& id == old(self).mgr().spec_clean()[0]
                &&& final(self).buf().spec_offset() == 0
                &&& final(self).buf().spec_buffer().len() == final(self).buf().spec_align()
                &&& final(self).buf().spec_entries().len() == 0
                &&& final(self).mgr().spec_clean() == old(self).mgr().spec_clean().drop_first()
            },
            old(self).spec_current() matches Some(prev) ==> final(self).mgr().spec_dirty() == old(
                self,
            ).mgr().spec_dirty().push(prev),
            old(self).spec_current() is None ==> final(self).mgr().spec_dirty() == old(self).mgr().spec_dirty(),
    {
        if let Some(prev) = self.current {
            self.regions.eviction_push(prev);
        }
        self.current = None;
        self.buffer.release();
        let r = self.regions.acquire();
        if let Some(id) = r {
            self.buffer.rotate(id);
            self.current = Some(id);
            proof {
                assert(self.mgr().phase(id) == Phase::Writing);
            }
        }
        r
    }

    /// Switches to a clean region as [`Flusher::switch_region`] does, evicting
    /// the oldest dirty region first when no clean one is left. None only
    /// when there is no clean region and the oldest dirty one is pinned (or
    /// there is none): the caller waits for readers and calls again.
    pub fn next_region(&mut self) -> (r: Option<u32>)
        requires
            old(self).wf(),
            old(self).buf().spec_flushed(),
        ensures
            final(self).wf(),
            final(self).spec_current() == r,
            final(self).buf().spec_region() == r,
            final(self).buf().same_geometry(&old(self).buf()),
            r matches Some(id) ==> final(self).buf().spec_offset() == 0 && final(self).mgr().phase(id)
                == Phase::Writing,
            r is Some ==> final(self).buf().spec_buffer().len() == final(self).buf().spec_align()
                && final(self).buf().spec_entries().len() == 0,
            r matches Some(id) ==> forall|k: Seq<u8>|
                #[trigger] final(self).cat().spec_lookup(k) is Some ==> final(self).cat().spec_lookup(
                    k,
                )->Some_0.view.region != id,
            old(self).mgr().spec_clean().len() > 0 ==> {
                &&& r == Some(old(self).mgr().spec_clean()[0])
                &&& final(self).cat() == old(self).cat()
                &&& final(self).mgr().spec_clean() == old(self).mgr().spec_clean().drop_first()
                &&& (old(self).spec_current() matches Some(prev) ==> final(self).mgr().spec_dirty() == old(
                    self,
                ).mgr().spec_dirty().push(prev))
                &&& (old(self).spec_current() is None ==> final(self).mgr().spec_dirty() == old(
                    self,
                ).mgr().spec_dirty())
            },
            r is None ==> {
                &&& final(self).mgr().spec_clean().len() == 0
                &&& (final(self).mgr().spec_dirty().len() == 0 || final(self).mgr().pins_of(
                    final(self).mgr().spec_dirty()[0],
                ) > 0)
            },
            old(self).mgr().spec_clean().len() == 0 && r is Some ==> forall|k: Seq<u8>|
                #[trigger] final(self).cat().spec_lookup(k) == without_region(
                    old(self).cat().spec_lookup(k),
                    r->Some_0,
                ),
    {
        let first = self.switch_region();
        if first.is_some() {
            return first;
        }
        match self.evict() {
            None => None,
            Some(_) => self.switch_region(),
        }
    }

    /// One step of the evictor: takes the oldest dirty region unless a
    /// reader pins it, drops the catalog's items in it, and makes it clean.
    pub fn evict(&mut self) -> (r: Option<u32>)
        requires
            old(self).wf(),
        ensures
            final(self).wf(),
            final(self).buf() == old(self).buf(),
            final(self).spec_current() == old(self).spec_current(),
            (old(self).mgr().spec_dirty().len() == 0 || old(self).mgr().pins_of(
                old(self).mgr().spec_dirty()[0],
            ) > 0) ==> r is None && final(self).cat() == old(self).cat() && final(self).mgr() == old(
                self,
            ).mgr(),
            r matches Some(id) ==> {
                &&& old(self).mgr().spec_dirty().len() > 0
                &&& id == old(self).mgr().spec_dirty()[0]
                &&& old(self).mgr().pins_of(id) == 0
                &&& final(self).mgr().spec_clean() == old(self).mgr().spec_clean().push(id)
                &&& final(self).mgr().phase(id) == Phase::Clean
                &&& final(self).mgr().spec_pins() == old(self).mgr().spec_pins()
                &&& final(self).mgr().spec_dirty() == old(self).mgr().spec_dirty().drop_first()
                &&& final(self).mgr().spec_phases() == old(self).mgr().spec_phases().update(
                    id as int,
                    Phase::Clean,
                )
                &&& forall|k: Seq<u8>|
                    #[trigger] final(self).cat().spec_lookup(k) == match old(self).cat().spec_lookup(k) {
                        Some(it) => if it.view.region == id {
                            None
                        } else {
                            Some(it)
                        },
                        None => None,
                    }
                &&& forall|k: Seq<u8>|
                    #[trigger] final(self).cat().spec_lookup(k) matches Some(it) ==> it.view.region != id
            },
            (old(self).mgr().spec_dirty().len() > 0 && old(self).mgr().pins_of(
                old(self).mgr().spec_dirty()[0],
            ) == 0) ==> r is Some,
    {
        let ghost pre = self.regions;
        match self.regions.begin_eviction() {
            None => None,
            Some(id) => {
                self.regions.finish_eviction(id, &mut self.catalog);
                proof {
                    assert(self.regions.spec_phases() == pre.spec_phases().update(id as int, Phase::Evicting).update(
                        id as int,
                        Phase::Clean,
                    ));
                    if let Some(c) = self.current {
                        assert(pre.phase(c) == Phase::Writing);
                        assert(c != id);
                        assert(self.regions.phase(c) == pre.phase(c));
                    } else {
                        assert forall|x: u32| x < self.regions.spec_regions() implies #[trigger] self.regions.phase(x)
                            != Phase::Writing by {
                            assert(pre.phase(x) != Phase::Writing);
                        }
                    }
                }
                Some(id)
            },
        }
    }

    /// The catalog's item for `key`.
    pub fn lookup(&self, key: &[u8]) -> (r: Option<Item>)
        requires
            self.wf(),
        ensures
            r == self.cat().spec_lookup(key@),
    {
        self.catalog.lookup(key)
    }

    /// Drops the catalog's item for `key`, as a reader does on a checksum
    /// mismatch.
    pub fn remove(&mut self, key: &[u8])
        requires
            old(self).wf(),
        ensures
            final(self).wf(),
            final(self).buf() == old(self).buf(),
            final(self).mgr() == old(self).mgr(),
            forall|k: Seq<u8>|
                #[trigger] final(self).cat().spec_lookup(k) == if k == key@ {
                    None
                } else {
                    old(self).cat().spec_lookup(k)
                },
    {
        self.catalog.remove(key);
        proof {
            assert forall|k: Seq<u8>| #[trigger] self.cat().spec_lookup(k) is Some implies {
                let it = self.cat().spec_lookup(k)->Some_0;
                &&& it.view.region < self.mgr().spec_regions()
                &&& self.mgr().phase(it.view.region) != Phase::Clean
            } by {
                assert(old(self).cat().spec_lookup(k) == old(self).cat().spec_lookup(k));
            }
        }
    }

    /// Pins region `id` for a read; see [`RegionManager::pin`].
    pub fn pin(&mut self, id: u32) -> (r: bool)
        requires
            old(self).wf(),
            id < old(self).mgr().spec_regions(),
        ensures
            final(self).wf(),
            r == (old(self).mgr().phase(id) != Phase::Evicting && old(self).mgr().pins_of(id) < u32::MAX),
            r ==> final(self).mgr().pins_of(id) == old(self).mgr().pins_of(id) + 1,
            final(self).buf() == old(self).buf(),
            final(self).cat() == old(self).cat(),
            final(self).mgr().spec_phases() == old(self).mgr().spec_phases(),
            final(self).mgr().spec_dirty() == old(self).mgr().spec_dirty(),
    {
        let r = self.regions.pin(id);
        proof {
            match self.current {
                Some(c) => {
                    assert(self.regions.phase(c) == old(self).regions.phase(c));
                },
                None => {
                    assert forall|x: u32| x < self.regions.spec_regions() implies #[trigger] self.regions.phase(x)
                        != Phase::Writing by {
                        assert(old(self).regions.phase(x) != Phase::Writing);
                    }
                },
            }
        }
        r
    }

    /// Ends a read of region `id`.
    pub fn unpin(&mut self, id: u32)
        requires
            old(self).wf(),
            id < old(self).mgr().spec_regions(),
            old(self).mgr().pins_of(id) > 0,
        ensures
            final(self).wf(),
            final(self).mgr().pins_of(id) == old(self).mgr().pins_of(id) - 1,
            final(self).buf() == old(self).buf(),
            final(self).cat() == old(self).cat(),
            final(self).mgr().spec_phases() == old(self).mgr().spec_phases(),
            final(self).mgr().spec_dirty() == old(self).mgr().spec_dirty(),
    {
        self.regions.unpin(id);
        proof {
            match self.current {
                Some(c) => {
                    assert(self.regions.phase(c) == old(self).regions.phase(c));
                },
                None => {
                    assert forall|x: u32| x < self.regions.spec_regions() implies #[trigger] self.regions.phase(x)
                        != Phase::Writing by {
                        assert(old(self).regions.phase(x) != Phase::Writing);
                    }
                },
            }
        }
    }
}

} // verus!
