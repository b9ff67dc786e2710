use vstd::prelude::*;
use memmap2::MmapMut;
use crate::codec::{
    le_bytes, le_value, push_le, read_le, lemma_le_bytes_len, lemma_le_round_trip, lemma_pow256_values,
};

verus! {

#[verifier::external_type_specification]
#[verifier::external_body]
pub struct ExMmapMut(memmap2::MmapMut);

/// The bytes of a mapped region.
pub uninterp spec fn region_bytes(m: MmapMut) -> Seq<u8>;

/// The CRC-32 (IEEE) checksum of a byte sequence.
pub uninterp spec fn crc32_of(data: Seq<u8>) -> u32;

/// Relies on `crc32fast::hash`: the CRC-32 of the bytes, which depends on
/// the bytes alone.
#[verifier::external_body]
fn crc32(data: &[u8]) -> (r: u32)
    ensures
        r == crc32_of(data@),
{
    crc32fast::hash(data)
}

/// Relies on `MmapMut` dereferencing to the mapped bytes: their count.
#[verifier::external_body]
fn region_len(m: &MmapMut) -> (r: usize)
    ensures
        r == region_bytes(*m).len(),
{
    m.len()
}

/// Relies on `MmapMut` dereferencing to the mapped bytes: a copy of
/// `[start, end)`.
#[verifier::external_body]
fn region_read(m: &MmapMut, start: usize, end: usize) -> (r: Vec<u8>)
    requires
        start <= end <= region_bytes(*m).len(),
    ensures
        r@ == region_bytes(*m).subrange(start as int, end as int),
{
    m[start..end].to_vec()
}

/// Relies on `MmapMut` dereferencing mutably to the mapped bytes: `data` is
/// copied in at `pos`, every other byte stays.
#[verifier::external_body]
fn region_write(m: &mut MmapMut, pos: usize, data: &[u8])
    requires
        pos + data@.len() <= region_bytes(*old(m)).len(),
    ensures
        region_bytes(*final(m)) == region_bytes(*old(m)).subrange(0, pos as int) + data@ + region_bytes(
            *old(m),
        ).subrange(pos + data@.len(), region_bytes(*old(m)).len() as int),
{
    m[pos..pos + data.len()].copy_from_slice(data)
}

/// Relies on `MmapMut` dereferencing mutably to the mapped bytes: every byte
/// becomes zero.
#[verifier::external_body]
fn region_zero(m: &mut MmapMut)
    ensures
        region_bytes(*final(m)) == Seq::new(region_bytes(*old(m)).len(), |i: int| 0u8),
{
    m.fill(0)
}

/// Size of an encoded journal header.
pub const JOURNAL_HEADER_SIZE: usize = 25;

/// Header of a journal entry, encoded little-endian and packed as
/// `[8: sequence_number][8: timestamp_ns][1: msg_type][4: payload_size][4: crc32]`.
/// The CRC covers the payload only.
#[derive(Debug, Clone, Copy, PartialEq, Eq, Structural)]
pub struct JournalHeader {
    pub sequence_number: u64,
    pub timestamp_ns: u64,
    pub msg_type: u8,
    pub payload_size: u32,
    pub crc32: u32,
}

/// One journal entry: its header and a copy of its payload.
#[derive(Debug, Clone)]
pub struct JournalEntry {
    pub header: JournalHeader,
    pub payload: Vec<u8>,
}

pub type EntryView = (JournalHeader, Seq<u8>);

pub open spec fn entry_view(e: JournalEntry) -> EntryView {
    (e.header, e.payload@)
}

/// The 25 bytes of a header.
pub open spec fn header_bytes(h: JournalHeader) -> Seq<u8> {
    le_bytes(h.sequence_number as nat, 8) + le_bytes(h.timestamp_ns as nat, 8) + seq![h.msg_type] + le_bytes(
        h.payload_size as nat,
        4,
    ) + le_bytes(h.crc32 as nat, 4)
}

/// The header that 25 bytes encode.
pub open spec fn header_of(b: Seq<u8>) -> JournalHeader {
    JournalHeader {
        sequence_number: le_value(b.subrange(0, 8)) as u64,
        timestamp_ns: le_value(b.subrange(8, 16)) as u64,
        msg_type: b[16],
        payload_size: le_value(b.subrange(17, 21)) as u32,
        crc32: le_value(b.subrange(21, 25)) as u32,
    }
}

pub proof fn lemma_header_round_trip(h: JournalHeader)
    ensures
        header_bytes(h).len() == 25,
        header_of(header_bytes(h)) == h,
{
    lemma_pow256_values();
    lemma_le_bytes_len(h.sequence_number as nat, 8);
    lemma_le_bytes_len(h.timestamp_ns as nat, 8);
    lemma_le_bytes_len(h.payload_size as nat, 4);
    lemma_le_bytes_len(h.crc32 as nat, 4);
    lemma_le_round_trip(h.sequence_number as nat, 8);
    lemma_le_round_trip(h.timestamp_ns as nat, 8);
    lemma_le_round_trip(h.payload_size as nat, 4);
    lemma_le_round_trip(h.crc32 as nat, 4);
    let b = header_bytes(h);
    assert(b.subrange(0, 8) =~= le_bytes(h.sequence_number as nat, 8));
    assert(b.subrange(8, 16) =~= le_bytes(h.timestamp_ns as nat, 8));
    assert(b.subrange(17, 21) =~= le_bytes(h.payload_size as nat, 4));
    assert(b.subrange(21, 25) =~= le_bytes(h.crc32 as nat, 4));
}

/// Little-endian bytes that are all zero read as zero.
pub proof fn lemma_le_zero(s: Seq<u8>)
    requires
        forall|i: int| 0 <= i < s.len() ==> s[i] == 0,
    ensures
        le_value(s) == 0,
    decreases s.len(),
{
    if s.len() > 0 {
        lemma_le_zero(s.drop_first());
    }
}

/// A valid entry starts at `pos`: its header fits, carries sequence number
/// `seq`, is not the all-zero tail marker, its payload fits, and the
/// payload's CRC matches.
pub open spec fn entry_ok(b: Seq<u8>, pos: int, seq: int) -> bool {
    &&& 0 <= pos
    &&& pos + 25 <= b.len()
    &&& header_of(b.subrange(pos, pos + 25)).sequence_number == seq
    &&& !(header_of(b.subrange(pos, pos + 25)).msg_type == 0 && header_of(b.subrange(pos, pos + 25)).payload_size == 0)
    &&& pos + 25 + header_of(b.subrange(pos, pos + 25)).payload_size <= b.len()
    &&& crc32_of(b.subrange(pos + 25, pos + 25 + header_of(b.subrange(pos, pos + 25)).payload_size))
        == header_of(b.subrange(pos, pos + 25)).crc32
}

/// The scan from `pos` expecting sequence number `seq`: where it stops, the
/// next sequence number, and the entries it passed.
pub open spec fn scan(b: Seq<u8>, pos: int, seq: int) -> (int, int, Seq<EntryView>)
    decreases b.len() - pos,
{
    if entry_ok(b, pos, seq) {
        let h = header_of(b.subrange(pos, pos + 25));
        let end = pos + 25 + h.payload_size;
        let r = scan(b, end, seq + 1);
        (r.0, r.1, seq![(h, b.subrange(pos + 25, end))] + r.2)
    } else {
        (pos, seq, Seq::empty())
    }
}

/// The scan moves forward by at least a header per entry, passes one entry
/// per sequence number, and every entry it passes carries the next sequence
/// number, its payload's size and a matching CRC.
pub proof fn lemma_scan_shape(b: Seq<u8>, pos: int, seq: int)
    requires
        0 <= pos,
    ensures
        ({
            let r = scan(b, pos, seq);
            &&& pos <= r.0
            &&& r.0 <= b.len() || r.0 == pos
            &&& r.1 - seq == r.2.len()
            &&& 25 * (r.1 - seq) <= r.0 - pos
            &&& forall|i: int|
                0 <= i < r.2.len() ==> (#[trigger] r.2[i]).0.sequence_number == seq + i && r.2[i].1.len()
                    == r.2[i].0.payload_size && crc32_of(r.2[i].1) == r.2[i].0.crc32
        }),
    decreases b.len() - pos,
{
    if entry_ok(b, pos, seq) {
        let h = header_of(b.subrange(pos, pos + 25));
        let end = pos + 25 + h.payload_size;
        lemma_scan_shape(b, end, seq + 1);
        let r = scan(b, pos, seq);
        let r2 = scan(b, end, seq + 1);
        assert forall|i: int| 0 <= i < r.2.len() implies (#[trigger] r.2[i]).0.sequence_number == seq + i && r.2[i].1.len()
            == r.2[i].0.payload_size && crc32_of(r.2[i].1) == r.2[i].0.crc32 by {
            if i > 0 {
                assert(r.2[i] == r2.2[i - 1]);
            }
        }
    }
}

/// Bytes past the point where a scan stops do not change what it passed:
/// on bytes that agree with `b1` up to that point the scan passes the same
/// entries and then continues from there.
pub proof fn lemma_scan_prefix(b1: Seq<u8>, b2: Seq<u8>, pos: int, seq: int)
    requires
        0 <= pos,
        b1.len() == b2.len(),
        scan(b1, pos, seq).0 <= b1.len(),
        b1.subrange(0, scan(b1, pos, seq).0) == b2.subrange(0, scan(b1, pos, seq).0),
    ensures
        ({
            let r1 = scan(b1, pos, seq);
            let r2 = scan(b2, r1.0, r1.1);
            scan(b2, pos, seq) == (r2.0, r2.1, r1.2 + r2.2)
        }),
    decreases b1.len() - pos,
{
    let r1 = scan(b1, pos, seq);
    let w = r1.0;
    if entry_ok(b1, pos, seq) {
        let h = header_of(b1.subrange(pos, pos + 25));
        let end = pos + 25 + h.payload_size;
        lemma_scan_shape(b1, end, seq + 1);
        assert(b1.subrange(pos, pos + 25) =~= b1.subrange(0, w).subrange(pos, pos + 25));
        assert(b2.subrange(pos, pos + 25) =~= b2.subrange(0, w).subrange(pos, pos + 25));
        assert(b1.subrange(pos + 25, end) =~= b1.subrange(0, w).subrange(pos + 25, end));
        assert(b2.subrange(pos + 25, end) =~= b2.subrange(0, w).subrange(pos + 25, end));
        assert(entry_ok(b2, pos, seq));
        lemma_scan_prefix(b1, b2, end, seq + 1);
        let r2 = scan(b2, w, r1.1);
        assert(seq![(h, b1.subrange(pos + 25, end))] + (scan(b1, end, seq + 1).2 + r2.2) =~= r1.2 + r2.2);
    } else {
        assert(r1.2 + scan(b2, pos, seq).2 =~= scan(b2, pos, seq).2);
    }
}

/// Why an append was refused.
#[derive(Debug, Clone, Copy, PartialEq, Eq, Structural)]
pub enum WalError {
    /// The entry does not fit in the remaining capacity.
    CapacityExhausted,
    /// Message type 0 marks the tail and is never written.
    ReservedMessageType,
    /// The payload is longer than a header can describe.
    PayloadTooLarge,
}


/// The 25 bytes of a header.
fn encode_header(h: &JournalHeader) -> (r: Vec<u8>)
    ensures
        r@ == header_bytes(*h),
{
    let mut out: Vec<u8> = Vec::new();
    push_le(&mut out, h.sequence_number, 8);
    push_le(&mut out, h.timestamp_ns, 8);
    out.push(h.msg_type);
    push_le(&mut out, h.payload_size as u64, 4);
    push_le(&mut out, h.crc32 as u64, 4);
    assert(out@ =~= header_bytes(*h));
    out
}

/// The header that 25 bytes encode.
fn decode_header(b: &Vec<u8>) -> (r: JournalHeader)
    requires
        b@.len() == 25,
    ensures
        r == header_of(b@),
{
    proof {
        lemma_pow256_values();
        crate::codec::lemma_le_value_bound(b@.subrange(17, 21));
        crate::codec::lemma_le_value_bound(b@.subrange(21, 25));
    }
    JournalHeader {
        sequence_number: read_le(b, 0, 8),
        timestamp_ns: read_le(b, 8, 8),
        msg_type: b[16],
        payload_size: read_le(b, 17, 4) as u32,
        crc32: read_le(b, 21, 4) as u32,
    }
}

/// The valid entry at `pos`, if there is one: its header, payload and end.
fn entry_at(m: &MmapMut, cap: usize, pos: usize, seq: u64) -> (r: Option<(JournalHeader, Vec<u8>, usize)>)
    requires
        cap == region_bytes(*m).len(),
        pos <= cap,
    ensures
        r is Some <==> entry_ok(region_bytes(*m), pos as int, seq as int),
        r matches Some((h, p, end)) ==> {
            &&& h == header_of(region_bytes(*m).subrange(pos as int, pos + 25))
            &&& end == pos + 25 + h.payload_size
            &&& p@ == region_bytes(*m).subrange(pos + 25, end as int)
        },
{
    if cap - pos < JOURNAL_HEADER_SIZE {
        return None;
    }
    let hb = region_read(m, pos, pos + JOURNAL_HEADER_SIZE);
    let h = decode_header(&hb);
    if h.sequence_number != seq {
        return None;
    }
    if h.msg_type == 0 && h.payload_size == 0 {
        return None;
    }
    let size = h.payload_size as usize;
    if cap - pos - JOURNAL_HEADER_SIZE < size {
        return None;
    }
    let start = pos + JOURNAL_HEADER_SIZE;
    let end = start + size;
    let payload = region_read(m, start, end);
    if crc32(payload.as_slice()) != h.crc32 {
        return None;
    }
    Some((h, payload, end))
}

/// The memory-mapped write-ahead journal: entries from offset 0, appends at
/// `write_pos`.
pub struct Sentinel {
    mmap: MmapMut,
    write_pos: usize,
    next_seq: u64,
    capacity: usize,
}

impl Sentinel {
    /// The bytes of the journal.
    pub closed spec fn bytes(&self) -> Seq<u8> {
        region_bytes(self.mmap)
    }

    /// The valid entries, in order.
    pub open spec fn entries(&self) -> Seq<EntryView> {
        scan(self.bytes(), 0, 0).2
    }

    pub closed spec fn spec_write_pos(&self) -> usize {
        self.write_pos
    }

    pub closed spec fn spec_next_seq(&self) -> u64 {
        self.next_seq
    }

    pub closed spec fn spec_capacity(&self) -> usize {
        self.capacity
    }

    /// The scan from offset 0 stops exactly at `write_pos` after `next_seq`
    /// entries: everything before `write_pos` is valid and contiguous, and
    /// what follows is not a valid next entry.
    pub open spec fn wf(&self) -> bool {
        &&& self.spec_capacity() == self.bytes().len()
        &&& scan(self.bytes(), 0, 0).0 == self.spec_write_pos()
        &&& scan(self.bytes(), 0, 0).1 == self.spec_next_seq()
    }

    /// Opens a journal over a mapped region, resuming after the last valid
    /// entry.
    pub fn open_region(mmap: MmapMut) -> (r: Sentinel)
        ensures
            r.wf(),
            r.bytes() == region_bytes(mmap),
            r.spec_capacity() == region_bytes(mmap).len(),
    {
        let capacity = region_len(&mmap);
        let (write_pos, next_seq) = Self::scan_entries(&mmap, capacity);
        Sentinel { mmap, write_pos, next_seq, capacity }
    }

    /// Gives the mapped region back.
    pub fn into_region(self) -> (r: MmapMut)
        ensures
            region_bytes(r) == self.bytes(),
    {
        self.mmap
    }

    /// The mapped region, for flushing.
    pub fn region(&self) -> (r: &MmapMut)
        ensures
            region_bytes(*r) == self.bytes(),
    {
        &self.mmap
    }

    /// Where the scan from offset 0 stops, and the sequence number it expects
    /// there.
    fn scan_entries(m: &MmapMut, cap: usize) -> (r: (usize, u64))
        requires
            cap == region_bytes(*m).len(),
        ensures
            r.0 as int == scan(region_bytes(*m), 0, 0).0,
            r.1 as int == scan(region_bytes(*m), 0, 0).1,
    {
        let ghost b = region_bytes(*m);
        let mut pos: usize = 0;
        let mut seq: u64 = 0;
        proof { lemma_scan_shape(b, 0, 0); }
        loop
            invariant
                cap == b.len(),
                b == region_bytes(*m),
                pos <= cap,
                seq <= pos,
                scan(b, pos as int, seq as int).0 == scan(b, 0, 0).0,
                scan(b, pos as int, seq as int).1 == scan(b, 0, 0).1,
            ensures
                scan(b, pos as int, seq as int).0 == pos,
                scan(b, pos as int, seq as int).1 == seq,
                scan(b, pos as int, seq as int).0 == scan(b, 0, 0).0,
                scan(b, pos as int, seq as int).1 == scan(b, 0, 0).1,
            decreases cap - pos,
        {
            match entry_at(m, cap, pos, seq) {
                None => {
                    break;
                },
                Some((_h, _p, end)) => {
                    pos = end;
                    seq = seq + 1;
                },
            }
        }
        (pos, seq)
    }
}


/// In a well-formed journal the entries carry sequence numbers 0, 1, ...,
/// `next_seq - 1` in order, each with its payload's size and a matching CRC.
pub proof fn lemma_journal_contiguous(j: &Sentinel)
    requires
        j.wf(),
    ensures
        j.entries().len() == j.spec_next_seq(),
        forall|i: int|
            0 <= i < j.entries().len() ==> (#[trigger] j.entries()[i]).0.sequence_number == i
                && j.entries()[i].1.len() == j.entries()[i].0.payload_size && crc32_of(j.entries()[i].1)
                == j.entries()[i].0.crc32,
{
    lemma_scan_shape(j.bytes(), 0, 0);
}

/// Appending an entry at the point where the scan stopped, followed by a
/// zeroed header slot (as far as capacity allows), extends the scan by
/// exactly that entry.
proof fn lemma_append_scan(b1: Seq<u8>, b2: Seq<u8>, h: JournalHeader, payload: Seq<u8>, z: int)
    requires
        scan(b1, 0, 0).0 + 25 + payload.len() <= b1.len(),
        b1.len() == b2.len(),
        h.sequence_number == scan(b1, 0, 0).1,
        h.msg_type != 0,
        h.payload_size == payload.len(),
        h.crc32 == crc32_of(payload),
        ({
            let wp = scan(b1, 0, 0).0;
            let end = wp + 25 + payload.len();
            &&& z == if b1.len() - end < 25 { b1.len() - end } else { 25 }
            &&& b2 == b1.subrange(0, wp) + header_bytes(h) + payload + Seq::new(z as nat, |i: int| 0u8) + b1.subrange(end + z, b1.len() as int)
        }),
    ensures
        scan(b2, 0, 0) == (
            scan(b1, 0, 0).0 + 25 + payload.len(),
            scan(b1, 0, 0).1 + 1,
            scan(b1, 0, 0).2.push((h, payload)),
        ),
{
    let r1 = scan(b1, 0, 0);
    let wp = r1.0;
    let end = wp + 25 + payload.len();
    lemma_scan_shape(b1, 0, 0);
    lemma_header_round_trip(h);
    assert(b1.subrange(0, wp) =~= b2.subrange(0, wp));
    lemma_scan_prefix(b1, b2, 0, 0);
    assert(b2.subrange(wp, wp + 25) =~= header_bytes(h));
    assert(b2.subrange(wp + 25, end) =~= payload);
    assert(entry_ok(b2, wp, r1.1));
    if end + 25 <= b2.len() {
        let zs = b2.subrange(end, end + 25);
        assert(zs.subrange(0, 8) =~= b2.subrange(end, end + 25).subrange(0, 8));
        assert forall|i: int| 0 <= i < zs.subrange(0, 8).len() implies zs.subrange(0, 8)[i] == 0 by {
            assert(zs.subrange(0, 8)[i] == b2[end + i]);
        }
        lemma_le_zero(zs.subrange(0, 8));
        assert(!entry_ok(b2, end, r1.1 + 1));
    }
    assert(scan(b2, end, r1.1 + 1) == (end, r1.1 + 1, Seq::<EntryView>::empty()));
    assert(scan(b2, wp, r1.1).2 =~= seq![(h, payload)]);
    assert(r1.2 + seq![(h, payload)] =~= r1.2.push((h, payload)));
}

impl Sentinel {
    /// Appends an entry with the next sequence number and the payload's CRC,
    /// and returns that sequence number. The header slot after the entry is
    /// zeroed where capacity allows, so no stale bytes can follow it.
    pub fn append(&mut self, msg_type: u8, payload: &[u8], timestamp_ns: u64) -> (r: Result<u64, WalError>)
        requires
            old(self).wf(),
        ensures
            final(self).wf(),
            final(self).spec_capacity() == old(self).spec_capacity(),
            msg_type == 0 ==> r == Err::<u64, WalError>(WalError::ReservedMessageType),
            msg_type != 0 && payload@.len() > u32::MAX ==> r == Err::<u64, WalError>(WalError::PayloadTooLarge),
            msg_type != 0 && payload@.len() <= u32::MAX && old(self).spec_write_pos() + 25 + payload@.len()
                > old(self).spec_capacity() ==> r == Err::<u64, WalError>(WalError::CapacityExhausted),
            r is Err ==> final(self).bytes() == old(self).bytes(),
            r is Ok <==> (msg_type != 0 && payload@.len() <= u32::MAX && old(self).spec_write_pos() + 25
                + payload@.len() <= old(self).spec_capacity()),
            r matches Ok(seq) ==> {
                &&& seq == old(self).spec_next_seq()
                &&& final(self).spec_next_seq() == seq + 1
                &&& final(self).spec_write_pos() == old(self).spec_write_pos() + 25 + payload@.len()
                &&& final(self).entries() == old(self).entries().push(
                    (
                        JournalHeader {
                            sequence_number: seq,
                            timestamp_ns,
                            msg_type,
                            payload_size: payload@.len() as u32,
                            crc32: crc32_of(payload@),
                        },
                        payload@,
                    ),
                )
            },
    {
        if msg_type == 0 {
            return Err(WalError::ReservedMessageType);
        }
        if payload.len() > u32::MAX as usize {
            return Err(WalError::PayloadTooLarge);
        }
        proof { lemma_scan_shape(self.bytes(), 0, 0); }
        if self.capacity - self.write_pos < JOURNAL_HEADER_SIZE || self.capacity - self.write_pos - JOURNAL_HEADER_SIZE
            < payload.len() {
            return Err(WalError::CapacityExhausted);
        }
        let ghost b1 = self.bytes();
        let seq = self.next_seq;
        let crc = crc32(payload);
        let header = JournalHeader {
            sequence_number: seq,
            timestamp_ns,
            msg_type,
            payload_size: payload.len() as u32,
            crc32: crc,
        };
        let hb = encode_header(&header);
        proof { lemma_header_round_trip(header); }
        let wp = self.write_pos;
        region_write(&mut self.mmap, wp, hb.as_slice());
        let start = wp + JOURNAL_HEADER_SIZE;
        region_write(&mut self.mmap, start, payload);
        let end = start + payload.len();
        let z: usize = if self.capacity - end < JOURNAL_HEADER_SIZE { self.capacity - end } else { JOURNAL_HEADER_SIZE };
        let zeros: Vec<u8> = vec![0u8; z];
        region_write(&mut self.mmap, end, zeros.as_slice());
        proof {
            let b2 = self.bytes();
            let cap = b1.len() as int;
            assert(b2 =~= b1.subrange(0, wp as int) + header_bytes(header) + payload@ + Seq::new(z as nat, |i: int| 0u8)
                + b1.subrange(end + z, cap));
            lemma_append_scan(b1, b2, header, payload@, z as int);
        }
        self.write_pos = end;
        self.next_seq = seq + 1;
        Ok(seq)
    }

    /// Erases the journal: every byte zero, nothing written.
    pub fn reset(&mut self)
        requires
            old(self).wf(),
        ensures
            final(self).wf(),
            final(self).spec_capacity() == old(self).spec_capacity(),
            final(self).spec_write_pos() == 0,
            final(self).spec_next_seq() == 0,
            final(self).entries().len() == 0,
    {
        region_zero(&mut self.mmap);
        self.write_pos = 0;
        self.next_seq = 0;
        proof {
            let b = self.bytes();
            if 25 <= b.len() {
                let hb = b.subrange(0, 25);
                assert forall|i: int| 0 <= i < hb.subrange(17, 21).len() implies hb.subrange(17, 21)[i] == 0 by {
                    assert(hb.subrange(17, 21)[i] == b[17 + i]);
                }
                lemma_le_zero(hb.subrange(17, 21));
                assert(hb[16] == b[16]);
                assert(!entry_ok(b, 0, 0));
            }
        }
    }

    /// Current write position (bytes used).
    pub fn write_pos(&self) -> (r: usize)
        ensures
            r == self.spec_write_pos(),
    {
        self.write_pos
    }

    /// Number of entries written.
    pub fn entry_count(&self) -> (r: u64)
        ensures
            r == self.spec_next_seq(),
    {
        self.next_seq
    }

    /// Copies of all valid entries, in order.
    pub fn read_all_entries(&self) -> (r: Vec<JournalEntry>)
        requires
            self.wf(),
        ensures
            r@.map_values(|e: JournalEntry| entry_view(e)) == self.entries(),
    {
        let ghost b = self.bytes();
        let mut entries: Vec<JournalEntry> = Vec::new();
        let mut pos: usize = 0;
        let mut seq: u64 = 0;
        proof { lemma_scan_shape(b, 0, 0); }
        loop
            invariant
                self.capacity == b.len(),
                b == self.bytes(),
                pos <= self.capacity,
                seq <= pos,
                entries@.map_values(|e: JournalEntry| entry_view(e)) + scan(b, pos as int, seq as int).2 == scan(b, 0, 0).2,
            ensures
                entries@.map_values(|e: JournalEntry| entry_view(e)) == scan(b, 0, 0).2,
            decreases self.capacity - pos,
        {
            match entry_at(&self.mmap, self.capacity, pos, seq) {
                None => {
                    assert(entries@.map_values(|e: JournalEntry| entry_view(e)) + Seq::<EntryView>::empty()
                        =~= entries@.map_values(|e: JournalEntry| entry_view(e)));
                    break;
                },
                Some((h, p, end)) => {
                    let ghost before = entries@.map_values(|e: JournalEntry| entry_view(e));
                    let ghost rest = scan(b, end as int, seq as int + 1).2;
                    entries.push(JournalEntry { header: h, payload: p });
                    proof {
                        assert(entries@.map_values(|e: JournalEntry| entry_view(e)) =~= before.push((h, b.subrange(pos + 25, end as int))));
                        assert(before.push((h, b.subrange(pos + 25, end as int))) + rest =~= before + (seq![(h, b.subrange(pos + 25, end as int))] + rest));
                    }
                    pos = end;
                    seq = seq + 1;
                },
            }
        }
        entries
    }
}

} // verus!
