//! The memory in a Mach-O core file.

use vstd::prelude::*;

use crate::mem::{copy_of, fill, Mem, MemError};
use crate::placement::{sort_by_start, HasStart, Placed};
use crate::pod::Pod;

verus! {

/// The first four bytes of a 64-bit little-endian Mach-O file.
pub const MH_MAGIC_64: u32 = 0xfeedfacf;

/// The type of core files.
pub const MH_CORE: u32 = 4;

/// The load command that maps a part of the file.
pub const LC_SEGMENT_64: u32 = 0x19;

/// Why bytes are no Mach-O core file.
#[derive(Clone, Copy, PartialEq, Eq, Debug, Structural)]
pub enum MachoError {
    /// There are fewer bytes than a header has.
    TooSmall,
    /// The file is not a 64-bit little-endian one.
    BadMagic { magic: u32 },
    /// The end of the load commands lies beyond what can be addressed.
    CommandsOverflow,
    /// The load commands end behind the file.
    CommandsPastEnd,
    /// The load commands end in the middle of one.
    TruncatedCommand { offset: usize },
    /// A load command is smaller than its header or ends behind the load commands.
    InvalidCommandSize { offset: usize },
    /// A load command that maps a part of the file is too small for that.
    SegmentCommandTooSmall { offset: usize },
    /// A part of the file that is mapped ends behind the file.
    SegmentPastEnd { vmaddr: u64, fileoff: u64 },
}

/// A part of the file that is mapped.
#[derive(Clone, Copy, PartialEq, Eq, Debug, Structural)]
pub struct MachoSegment {
    /// Where it is mapped to.
    pub vmaddr: u64,
    /// Where it begins in the file.
    pub fileoff: u64,
    /// How long it is.
    pub filesize: u64,
}

impl Placed for MachoSegment {
    open spec fn start(&self) -> u64 {
        self.vmaddr
    }
}

impl HasStart for MachoSegment {
    fn get_start(&self) -> (r: u64) {
        self.vmaddr
    }
}

impl MachoSegment {
    /// Whether the byte at an address is one of it.
    pub open spec fn holds(self, address: int) -> bool {
        self.vmaddr <= address < self.vmaddr + self.filesize
    }
}

/// The four bytes at `offset` as a number.
pub open spec fn u32_at(data: Seq<u8>, offset: int) -> u32 {
    crate::pod::le(data.subrange(offset, offset + 4)) as u32
}

/// The eight bytes at `offset` as a number.
pub open spec fn u64_at(data: Seq<u8>, offset: int) -> u64 {
    crate::pod::le(data.subrange(offset, offset + 8)) as u64
}

/// The part of the file that the load command at `offset` maps.
pub open spec fn segment_at(data: Seq<u8>, offset: int) -> MachoSegment {
    MachoSegment {
        vmaddr: u64_at(data, offset + 24),
        fileoff: u64_at(data, offset + 40),
        filesize: u64_at(data, offset + 48),
    }
}

/// The parts of the file that `left` load commands from `offset` on map, behind `seen`. The load
/// commands end at `end`. Parts without bytes are left out.
pub open spec fn segments_from(
    data: Seq<u8>,
    offset: int,
    end: int,
    left: nat,
    seen: Seq<MachoSegment>,
) -> Result<Seq<MachoSegment>, MachoError>
    decreases left,
{
    if left == 0 {
        Ok(seen)
    } else if offset + 8 > end {
        Err(MachoError::TruncatedCommand { offset: offset as usize })
    } else {
        let size = u32_at(data, offset + 4);
        let segment = segment_at(data, offset);
        if size < 8 || offset + size > end {
            Err(MachoError::InvalidCommandSize { offset: offset as usize })
        } else if u32_at(data, offset) != LC_SEGMENT_64 {
            segments_from(data, offset + size, end, (left - 1) as nat, seen)
        } else if size < 56 {
            Err(MachoError::SegmentCommandTooSmall { offset: offset as usize })
        } else if segment.filesize == 0 {
            segments_from(data, offset + size, end, (left - 1) as nat, seen)
        } else if segment.fileoff + segment.filesize > data.len() {
            Err(
                MachoError::SegmentPastEnd {
                    vmaddr: segment.vmaddr,
                    fileoff: segment.fileoff,
                },
            )
        } else {
            segments_from(data, offset + size, end, (left - 1) as nat, seen.push(segment))
        }
    }
}

/// The parts of the file that its load commands map.
pub open spec fn mapped(data: Seq<u8>) -> Result<Seq<MachoSegment>, MachoError> {
    if data.len() < 32 {
        Err(MachoError::TooSmall)
    } else if u32_at(data, 0) != MH_MAGIC_64 {
        Err(MachoError::BadMagic { magic: u32_at(data, 0) })
    } else {
        let end = 32 + u32_at(data, 20);
        if end > usize::MAX {
            Err(MachoError::CommandsOverflow)
        } else if end > data.len() {
            Err(MachoError::CommandsPastEnd)
        } else {
            segments_from(data, 32, end, u32_at(data, 16) as nat, Seq::empty())
        }
    }
}

/// The first of the segments from position `i` on that holds the byte at an address; the number
/// of segments where none does.
pub open spec fn holder(segments: Seq<MachoSegment>, address: int, i: int) -> int
    decreases segments.len() - i,
{
    if i < 0 || i >= segments.len() {
        segments.len() as int
    } else if segments[i].holds(address) {
        i
    } else {
        holder(segments, address, i + 1)
    }
}

/// The byte at an address: that of the first segment that holds one.
pub open spec fn byte_at(data: Seq<u8>, segments: Seq<MachoSegment>, address: int) -> Option<u8> {
    let i = holder(segments, address, 0);
    if i < segments.len() {
        Some(data[segments[i].fileoff + address - segments[i].vmaddr])
    } else {
        None
    }
}

/// How many of `len` bytes from an address on there are before the first that is none.
pub open spec fn backed_run(
    data: Seq<u8>,
    segments: Seq<MachoSegment>,
    address: int,
    len: nat,
) -> nat
    decreases len,
{
    if len == 0 || byte_at(data, segments, address) is None {
        0
    } else {
        1 + backed_run(data, segments, address + 1, (len - 1) as nat)
    }
}

/// What a read of `len` bytes at `address` gives: the bytes, or how many there are before the
/// first that is none.
pub open spec fn core_answer(
    data: Seq<u8>,
    segments: Seq<MachoSegment>,
    address: u64,
    len: nat,
) -> Result<Seq<u8>, MemError> {
    let run = backed_run(data, segments, address as int, len);
    if address + len > u64::MAX {
        Err(MemError::LengthOverflow)
    } else if run < len {
        Err(MemError::Short { read: run as usize, total: len as usize, address })
    } else {
        Ok(Seq::new(len, |i: int| byte_at(data, segments, address + i)->0))
    }
}

/// What a read into `buf` at `address` leaves in it: the bytes before the first that is none, and
/// behind them what was there; all that was there where the read would end beyond the address
/// space.
pub open spec fn core_filled(
    data: Seq<u8>,
    segments: Seq<MachoSegment>,
    address: u64,
    buf: Seq<u8>,
) -> Seq<u8> {
    let run = backed_run(data, segments, address as int, buf.len());
    Seq::new(
        buf.len(),
        |k: int|
            if address + buf.len() <= u64::MAX && k < run {
                byte_at(data, segments, address + k)->0
            } else {
                buf[k]
            },
    )
}

proof fn lemma_holder(segments: Seq<MachoSegment>, address: int, i: int)
    requires
        0 <= i <= segments.len(),
    ensures
        i <= holder(segments, address, i) <= segments.len(),
        holder(segments, address, i) < segments.len() ==> segments[holder(
            segments,
            address,
            i,
        )].holds(address),
        forall|k: int|
            i <= k < holder(segments, address, i) ==> !(#[trigger] segments[k]).holds(address),
    decreases segments.len() - i,
{
    if i < segments.len() && !segments[i].holds(address) {
        lemma_holder(segments, address, i + 1);
    }
}

proof fn lemma_run(data: Seq<u8>, segments: Seq<MachoSegment>, address: int, len: nat, k: nat)
    requires
        k <= len,
        forall|i: int|
            0 <= i < k ==> #[trigger] byte_at(data, segments, address + i) is Some,
        k < len ==> byte_at(data, segments, address + k) is None,
    ensures
        backed_run(data, segments, address, len) == k,
    decreases k,
{
    if k > 0 {
        assert(byte_at(data, segments, address + 0) is Some);
        assert forall|i: int| 0 <= i < k - 1 implies #[trigger] byte_at(
            data,
            segments,
            address + 1 + i,
        ) is Some by {
            assert(byte_at(data, segments, address + (i + 1)) is Some);
        }
        lemma_run(data, segments, address + 1, (len - 1) as nat, (k - 1) as nat);
    }
}

fn read_u32(data: &[u8], offset: usize) -> (r: u32)
    requires
        offset + 4 <= data@.len(),
    ensures
        r == u32_at(data@, offset as int),
{
    let total: usize = data.len();
    assert(offset + 4 <= total);
    match u32::try_from_bytes(vstd::slice::slice_subrange(data, offset, offset + 4)) {
        Ok(n) => n,
        Err(_) => vstd::pervasive::unreached(),
    }
}

fn read_u64(data: &[u8], offset: usize) -> (r: u64)
    requires
        offset + 8 <= data@.len(),
    ensures
        r == u64_at(data@, offset as int),
{
    let total: usize = data.len();
    assert(offset + 8 <= total);
    match u64::try_from_bytes(vstd::slice::slice_subrange(data, offset, offset + 8)) {
        Ok(n) => n,
        Err(_) => vstd::pervasive::unreached(),
    }
}

fn read_segments(data: &[u8], end: usize, count: u32) -> (r: Result<Vec<MachoSegment>, MachoError>)
    requires
        32 <= end <= data@.len(),
    ensures
        match r {
            Ok(v) => segments_from(data@, 32, end as int, count as nat, Seq::empty()) == Ok::<
                Seq<MachoSegment>,
                MachoError,
            >(v@),
            Err(e) => segments_from(data@, 32, end as int, count as nat, Seq::empty()) == Err::<
                Seq<MachoSegment>,
                MachoError,
            >(e),
        },
{
    let mut segments: Vec<MachoSegment> = Vec::new();
    let mut offset: usize = 32;
    let mut left: u32 = count;
    let total: usize = data.len();
    while left > 0
        invariant
            32 <= offset <= end,
            end <= total,
            total == data@.len(),
            segments_from(data@, 32, end as int, count as nat, Seq::empty()) == segments_from(
                data@,
                offset as int,
                end as int,
                left as nat,
                segments@,
            ),
        decreases left,
    {
        if end - offset < 8 {
            return Err(MachoError::TruncatedCommand { offset });
        }
        let command: u32 = read_u32(data, offset);
        let size: u32 = read_u32(data, offset + 4);
        if size < 8 || size as u64 > (end - offset) as u64 {
            return Err(MachoError::InvalidCommandSize { offset });
        }
        if command == LC_SEGMENT_64 {
            if size < 56 {
                return Err(MachoError::SegmentCommandTooSmall { offset });
            }
            let vmaddr: u64 = read_u64(data, offset + 24);
            let fileoff: u64 = read_u64(data, offset + 40);
            let filesize: u64 = read_u64(data, offset + 48);
            if filesize > 0 {
                let fits = match fileoff.checked_add(filesize) {
                    Some(file_end) => file_end <= total as u64,
                    None => false,
                };
                if !fits {
                    return Err(MachoError::SegmentPastEnd { vmaddr, fileoff });
                }
                segments.push(MachoSegment { vmaddr, fileoff, filesize });
            }
        }
        offset = offset + size as usize;
        left = left - 1;
    }
    Ok(segments)
}

/// Whether all segments lie in the file.
pub open spec fn within_file(data: Seq<u8>, segments: Seq<MachoSegment>) -> bool {
    forall|i: int|
        0 <= i < segments.len() ==> (#[trigger] segments[i]).fileoff + segments[i].filesize
            <= data.len()
}

/// Whether no segment is mapped beyond the address space.
pub open spec fn within_space(segments: Seq<MachoSegment>) -> bool {
    forall|i: int|
        0 <= i < segments.len() ==> (#[trigger] segments[i]).vmaddr + segments[i].filesize
            <= u64::MAX
}

proof fn lemma_segments_within_file(
    data: Seq<u8>,
    offset: int,
    end: int,
    left: nat,
    seen: Seq<MachoSegment>,
)
    requires
        within_file(data, seen),
    ensures
        segments_from(data, offset, end, left, seen) matches Ok(s) ==> within_file(data, s),
    decreases left,
{
    if left > 0 && offset + 8 <= end {
        let size = u32_at(data, offset + 4);
        let segment = segment_at(data, offset);
        let next = (left - 1) as nat;
        if size >= 8 && offset + size <= end {
            lemma_segments_within_file(data, offset + size, end, next, seen);
            if segment.fileoff + segment.filesize <= data.len() {
                lemma_segments_within_file(data, offset + size, end, next, seen.push(segment));
            }
        }
    }
}

/// Where the furthest of the first segments up to position `i` ends, or the end of the address
/// space.
spec fn reaches(segments: Seq<MachoSegment>, reach: Seq<u64>) -> bool {
    &&& reach.len() == segments.len()
    &&& forall|i: int, j: int|
        #![trigger segments[j], reach[i]]
        0 <= j <= i < reach.len() ==> segments[j].vmaddr + segments[j].filesize <= reach[i]
            || reach[i] == u64::MAX
}

fn reach_of(segments: &Vec<MachoSegment>) -> (r: Vec<u64>)
    ensures
        reaches(segments@, r@),
{
    let mut reach: Vec<u64> = Vec::new();
    let mut furthest: u64 = 0;
    let mut i: usize = 0;
    while i < segments.len()
        invariant
            i <= segments@.len(),
            reach@.len() == i,
            forall|k: int, j: int|
                #![trigger segments@[j], reach@[k]]
                0 <= j <= k < i ==> segments@[j].vmaddr + segments@[j].filesize <= reach@[k]
                    || reach@[k] == u64::MAX,
            forall|j: int|
                0 <= j < i ==> (#[trigger] segments@[j]).vmaddr + segments@[j].filesize <= furthest
                    || furthest == u64::MAX,
        decreases segments@.len() - i,
    {
        let end: u64 = segments[i].vmaddr.saturating_add(segments[i].filesize);
        if end > furthest {
            furthest = end;
        }
        reach.push(furthest);
        i = i + 1;
    }
    reach
}

/// The memory in a Mach-O core file.
pub struct MachoCoreMem<'a> {
    data: &'a [u8],
    segments: Vec<MachoSegment>,
    reach: Vec<u64>,
}

impl<'a> MachoCoreMem<'a> {
    #[verifier::type_invariant]
    spec fn valid(&self) -> bool {
        &&& within_file(self.data@, self.segments@)
        &&& crate::placement::starts_rise(self.segments@)
        &&& reaches(self.segments@, self.reach@)
        &&& self.data@.len() >= 32
    }

    /// The bytes of the file.
    pub closed spec fn spec_data(&self) -> Seq<u8> {
        self.data@
    }

    /// The segments in the order of their addresses.
    pub closed spec fn spec_segments(&self) -> Seq<MachoSegment> {
        self.segments@
    }

    /// The memory in a file with those bytes.
    pub fn open(data: &'a [u8]) -> (r: Result<Self, MachoError>)
        ensures
            match (r, mapped(data@)) {
                (Ok(m), Ok(segments)) => m.spec_data() == data@ && m.spec_segments()
                    == crate::placement::in_order(segments),
                (Err(e), Err(f)) => e == f,
                _ => false,
            },
    {
        let total: usize = data.len();
        if total < 32 {
            return Err(MachoError::TooSmall);
        }
        let magic: u32 = read_u32(data, 0);
        if magic != MH_MAGIC_64 {
            return Err(MachoError::BadMagic { magic });
        }
        let count: u32 = read_u32(data, 16);
        let size: u32 = read_u32(data, 20);
        let end: usize = match 32usize.checked_add(size as usize) {
            Some(end) => end,
            None => {
                return Err(MachoError::CommandsOverflow);
            },
        };
        if end > total {
            return Err(MachoError::CommandsPastEnd);
        }
        let segments = match read_segments(data, end, count) {
            Ok(segments) => segments,
            Err(e) => {
                return Err(e);
            },
        };
        let ghost unsorted = segments@;
        let segments = sort_by_start(segments);
        proof {
            lemma_segments_within_file(data@, 32, end as int, count as nat, Seq::empty());
            crate::placement::in_order_is_sorted(unsorted);
            lemma_same_items_within_file(data@, unsorted, segments@);
        }
        let reach = reach_of(&segments);
        Ok(MachoCoreMem { data, segments, reach })
    }

    /// What the header says that the file is.
    pub fn file_type(&self) -> (r: u32)
        ensures
            r == u32_at(self.spec_data(), 12),
    {
        proof {
            use_type_invariant(self);
        }
        read_u32(self.data, 12)
    }
}

proof fn lemma_same_items_within_file(data: Seq<u8>, a: Seq<MachoSegment>, b: Seq<MachoSegment>)
    requires
        within_file(data, a),
        a.to_multiset() == b.to_multiset(),
    ensures
        within_file(data, b),
{
    broadcast use vstd::seq_lib::group_to_multiset_ensures;

    assert forall|i: int| 0 <= i < b.len() implies (#[trigger] b[i]).fileoff + b[i].filesize
        <= data.len() by {
        assert(b.contains(b[i]));
        assert(b.to_multiset().count(b[i]) > 0);
        assert(a.contains(b[i]));
    }
}

impl<'a> Mem for MachoCoreMem<'a> {
    open spec fn admits(&self, address: u64, len: nat) -> bool {
        true
    }

    open spec fn admits_write(&self, address: u64, len: nat) -> bool {
        true
    }

    open spec fn may_answer(
        &self,
        address: u64,
        len: nat,
        answer: Result<Seq<u8>, MemError>,
    ) -> bool {
        answer == core_answer(self.spec_data(), self.spec_segments(), address, len)
    }

    open spec fn may_write(&self, address: u64, bytes: Seq<u8>, r: Result<(), MemError>) -> bool {
        crate::mem::refused(r)
    }

    fn can_read(&self, address: u64, len: usize) -> (r: bool) {
        true
    }

    fn write_buf(&self, address: u64, buf: &[u8]) -> (r: Result<(), MemError>) {
        Err(MemError::WriteUnsupported)
    }

    /// Fills `buf` with the bytes at `address`: all of them, or those before the first that is
    /// none, behind which `buf` stays as it is.
    fn read_buf(&self, address: u64, buf: &mut [u8]) -> (r: Result<(), MemError>)
        ensures
            final(buf)@ == core_filled(
                self.spec_data(),
                self.spec_segments(),
                address,
                old(buf)@,
            ),
    {
        proof {
            use_type_invariant(self);
        }
        let total: usize = buf.len();
        let read_end: u64 = match address.checked_add(total as u64) {
            Some(end) => end,
            None => {
                return Err(MemError::LengthOverflow);
            },
        };
        let ghost data = self.data@;
        let ghost segments = self.segments@;
        let mut lo: usize = 0;
        let mut hi: usize = self.segments.len();
        while lo < hi
            invariant
                segments == self.segments@,
                reaches(segments, self.reach@),
                lo <= hi <= segments.len(),
                forall|j: int|
                    0 <= j < lo ==> (#[trigger] segments[j]).vmaddr + segments[j].filesize
                        <= address,
            decreases hi - lo,
        {
            let mid: usize = lo + (hi - lo) / 2;
            if self.reach[mid] <= address && self.reach[mid] < u64::MAX {
                assert forall|j: int| 0 <= j < mid + 1 implies (#[trigger] segments[j]).vmaddr
                    + segments[j].filesize <= address by {
                    assert(segments[j].vmaddr + segments[j].filesize <= self.reach@[mid as int]
                        || self.reach@[mid as int] == u64::MAX);
                }
                lo = mid + 1;
            } else {
                hi = mid;
            }
        }
        let length: usize = self.data.len();
        let mut i: usize = lo;
        let mut bytes_read: usize = 0;
        let mut gap: bool = false;
        while i < self.segments.len() && bytes_read < total && !gap
            invariant
                data == self.data@,
                data.len() == length,
                segments == self.segments@,
                within_file(data, segments),
                crate::placement::starts_rise(segments),
                total == buf@.len(),
                total == old(buf)@.len(),
                read_end == address + total,
                i <= segments.len(),
                bytes_read <= total,
                forall|j: int|
                    0 <= j < i ==> (#[trigger] segments[j]).vmaddr + segments[j].filesize <= address
                        + bytes_read || bytes_read == total,
                forall|k: int|
                    0 <= k < bytes_read ==> byte_at(data, segments, address + k) == Some(
                        #[trigger] buf@[k],
                    ),
                forall|k: int| bytes_read <= k < total ==> #[trigger] buf@[k] == old(buf)@[k],
                gap ==> bytes_read < total && byte_at(data, segments, address + bytes_read) is None,
            decreases
                    segments.len() - i,
                    if gap {
                        0int
                    } else {
                        1int
                    },
        {
            let segment = self.segments[i];
            let cur: u64 = address + bytes_read as u64;
            if segment.vmaddr >= read_end || cur < segment.vmaddr {
                gap = true;
                proof {
                    lemma_holder(segments, cur as int, 0);
                    let h = holder(segments, cur as int, 0);
                    if h < segments.len() {
                        if h < i {
                            assert(segments[h].vmaddr + segments[h].filesize <= cur);
                        } else {
                            assert(segments[i as int].start() <= segments[h].start());
                        }
                    }
                }
            } else {
                let skipped: u64 = cur - segment.vmaddr;
                if skipped < segment.filesize {
                    let available: u64 = segment.filesize - skipped;
                    let want: usize = total - bytes_read;
                    let n: usize = if available < want as u64 {
                        available as usize
                    } else {
                        want
                    };
                    assert(segments[i as int].fileoff + segments[i as int].filesize <= length);
                    let from: u64 = segment.fileoff + skipped;
                    let part = copy_of(self.data, from as usize, n);
                    let ghost before = buf@;
                    fill(buf, bytes_read, part.as_slice());
                    proof {
                        assert forall|k: int| 0 <= k < bytes_read + n implies byte_at(
                            data,
                            segments,
                            address + k,
                        ) == Some(#[trigger] buf@[k]) by {
                            if k < bytes_read {
                                assert(buf@[k] == before[k]);
                            } else {
                                let a = address + k;
                                lemma_holder(segments, a, 0);
                                let h = holder(segments, a, 0);
                                assert(segments[i as int].holds(a));
                                if h < i {
                                    assert(segments[h].vmaddr + segments[h].filesize <= cur);
                                }
                                assert(h == i);
                                assert(buf@[k] == part@[k - bytes_read]);
                            }
                        }
                    }
                    bytes_read = bytes_read + n;
                }
                i = i + 1;
            }
        }
        proof {
            if bytes_read < total && !gap {
                let cur = address + bytes_read;
                lemma_holder(segments, cur, 0);
                let h = holder(segments, cur, 0);
                if h < segments.len() {
                    assert(segments[h].vmaddr + segments[h].filesize <= cur);
                }
            }
            assert forall|k: int| 0 <= k < bytes_read implies #[trigger] byte_at(
                data,
                segments,
                address + k,
            ) is Some by {
                assert(byte_at(data, segments, address + k) == Some(buf@[k]));
            }
            lemma_run(data, segments, address as int, total as nat, bytes_read as nat);
            assert(buf@ =~= core_filled(data, segments, address, old(buf)@));
        }
        if bytes_read < total {
            return Err(MemError::Short { read: bytes_read, total, address });
        }
        assert(buf@ =~= core_answer(data, segments, address, total as nat)->Ok_0);
        Ok(())
    }
}

/// A core file whose segments lie in the address space is memory that always has the same bytes:
/// a read gives them, or fails where one of them is none.
pub proof fn core_is_steady(core: MachoCoreMem<'_>)
    requires
        within_space(core.spec_segments()),
    ensures
        crate::cache::steady(
            core,
            |address: int| byte_at(core.spec_data(), core.spec_segments(), address),
        ),
{
    let data = core.spec_data();
    let segments = core.spec_segments();
    let bytes = |address: int| byte_at(data, segments, address);
    assert forall|address: u64, len: nat, answer: Result<Seq<u8>, MemError>| #[trigger]
        core.may_answer(address, len, answer) implies crate::cache::reflects(
        bytes,
        address as int,
        len,
        answer,
    ) by {
        lemma_run_is_maximal(data, segments, address as int, len);
        let run = backed_run(data, segments, address as int, len);
        if address + len > u64::MAX {
            let at = u64::MAX as int;
            lemma_holder(segments, at, 0);
            let h = holder(segments, at, 0);
            if h < segments.len() {
                assert(segments[h].vmaddr + segments[h].filesize <= u64::MAX);
            }
            assert(bytes(address + (at - address)) is None);
        } else if run < len {
            assert(bytes(address + run) is None);
        } else {
            let given = answer->Ok_0;
            assert forall|i: int| 0 <= i < len implies bytes(address + i) == Some(
                #[trigger] given[i],
            ) by {
                assert(byte_at(data, segments, address + i) is Some);
            }
        }
    }
}

proof fn lemma_run_is_maximal(data: Seq<u8>, segments: Seq<MachoSegment>, address: int, len: nat)
    ensures
        backed_run(data, segments, address, len) <= len,
        forall|i: int|
            0 <= i < backed_run(data, segments, address, len) ==> #[trigger] byte_at(
                data,
                segments,
                address + i,
            ) is Some,
        backed_run(data, segments, address, len) < len ==> byte_at(
            data,
            segments,
            address + backed_run(data, segments, address, len),
        ) is None,
    decreases len,
{
    if len > 0 && byte_at(data, segments, address) is Some {
        lemma_run_is_maximal(data, segments, address + 1, (len - 1) as nat);
        let rest = backed_run(data, segments, address + 1, (len - 1) as nat);
        assert forall|i: int| 0 <= i < 1 + rest implies #[trigger] byte_at(
            data,
            segments,
            address + i,
        ) is Some by {
            if i > 0 {
                assert(byte_at(data, segments, address + 1 + (i - 1)) is Some);
            }
        }
    }
}

/// The number that bytes from `from` to `to` of a file spell.
pub open spec fn spelled_at(data: Seq<u8>, from: int, to: int) -> int {
    crate::pod::spelled(data.subrange(from, to))
}

/// Whether load commands begin at those places: the first behind the header, each further one where
/// the one before it ends by its size, and all end where the header says.
pub open spec fn commands_at(data: Seq<u8>, places: Seq<int>, end: int) -> bool {
    &&& places.len() > 0
    &&& forall|i: int|
        #![trigger places[i]]
        0 <= i < places.len() - 1 ==> 32 <= places[i] && places[i] + 8 <= end && {
            let size = spelled_at(data, places[i] + 4, places[i] + 8);
            size >= 8 && places[i + 1] == places[i] + size && places[i + 1] <= end
        }
}

/// Whether a load command at a place maps a part of the file that has bytes.
pub open spec fn maps_bytes(data: Seq<u8>, place: int) -> bool {
    spelled_at(data, place, place + 4) == 0x19 && spelled_at(data, place + 48, place + 56) > 0
}

/// Whether a segment is what the load command at a place says: its address, its place in the file
/// and its size there.
pub open spec fn segment_told(data: Seq<u8>, place: int, segment: MachoSegment) -> bool {
    &&& segment.vmaddr == spelled_at(data, place + 24, place + 32)
    &&& segment.fileoff == spelled_at(data, place + 40, place + 48)
    &&& segment.filesize == spelled_at(data, place + 48, place + 56)
    &&& segment.fileoff + segment.filesize <= data.len()
}

/// Whether segments are those of the load commands at those places, one for each and in order.
pub open spec fn segments_told(data: Seq<u8>, places: Seq<int>, segments: Seq<MachoSegment>) -> bool {
    segments.len() == places.len() && forall|i: int|
        0 <= i < places.len() ==> segment_told(data, #[trigger] places[i], segments[i])
}

proof fn lemma_number_at(data: Seq<u8>, offset: int)
    ensures
        0 <= offset && offset + 4 <= data.len() ==> u32_at(data, offset) == spelled_at(
            data,
            offset,
            offset + 4,
        ),
        0 <= offset && offset + 8 <= data.len() ==> u64_at(data, offset) == spelled_at(
            data,
            offset,
            offset + 8,
        ),
{
    if 0 <= offset && offset + 4 <= data.len() {
        crate::pod::numbers_are_spelled_in_bytes(data.subrange(offset, offset + 4));
    }
    if 0 <= offset && offset + 8 <= data.len() {
        crate::pod::numbers_are_spelled_in_bytes(data.subrange(offset, offset + 8));
    }
}

proof fn lemma_segments_told(
    data: Seq<u8>,
    end: int,
    left: nat,
    places: Seq<int>,
    seen: Seq<MachoSegment>,
) -> (all: Seq<int>)
    requires
        end <= data.len(),
        commands_at(data, places, end),
        32 <= places.last() <= end,
        segments_told(
            data,
            places.drop_last().filter(|place: int| maps_bytes(data, place)),
            seen,
        ),
    ensures
        segments_from(data, places.last(), end, left, seen) matches Ok(segments) ==> {
            &&& all.len() == places.len() + left
            &&& all.take(places.len() as int) == places
            &&& commands_at(data, all, end)
            &&& segments_told(
                data,
                all.drop_last().filter(|place: int| maps_bytes(data, place)),
                segments,
            )
        },
    decreases left,
{
    reveal(Seq::filter);
    let offset = places.last();
    if left == 0 {
        assert(places.take(places.len() as int) =~= places);
        places
    } else if segments_from(data, offset, end, left, seen) is Err {
        places
    } else {
        lemma_number_at(data, offset);
        lemma_number_at(data, offset + 4);
        let size = u32_at(data, offset + 4);
        let more = places.push(offset + size);
        let segment = segment_at(data, offset);
        assert(more.drop_last() =~= places);
        assert forall|i: int|
            #![trigger more[i]]
            0 <= i < more.len() - 1 implies 32 <= more[i] && more[i] + 8 <= end && {
            let size = spelled_at(data, more[i] + 4, more[i] + 8);
            size >= 8 && more[i + 1] == more[i] + size && more[i + 1] <= end
        } by {
            if i < places.len() - 1 {
                assert(places[i] == more[i] && places[i + 1] == more[i + 1]);
            }
        }
        let next = if u32_at(data, offset) != LC_SEGMENT_64 {
            seen
        } else {
            lemma_number_at(data, offset + 24);
            lemma_number_at(data, offset + 40);
            lemma_number_at(data, offset + 48);
            if segment.filesize == 0 {
                seen
            } else {
                assert(segment_told(data, offset, segment));
                seen.push(segment)
            }
        };
        let all = lemma_segments_told(data, end, (left - 1) as nat, more, next);
        assert(all.take(places.len() as int) =~= all.take(more.len() as int).take(
            places.len() as int,
        ));
        assert(more.take(places.len() as int) =~= places);
        all
    }
}

/// The segments of a core file are what its load commands say: as many commands as the header
/// counts, one behind the other from behind the header on, and of these each that maps a part of
/// the file with bytes gives one segment.
pub proof fn segments_are_what_the_commands_say(data: Seq<u8>, segments: Seq<MachoSegment>) -> (
    places: Seq<int>)
    requires
        mapped(data) == Ok::<_, MachoError>(segments),
    ensures
        data.len() >= 32,
        spelled_at(data, 0, 4) == 0xfeed_facf,
        places.len() == spelled_at(data, 16, 20) + 1,
        places[0] == 32,
        32 + spelled_at(data, 20, 24) <= data.len(),
        commands_at(data, places, 32 + spelled_at(data, 20, 24)),
        segments_told(
            data,
            places.drop_last().filter(|place: int| maps_bytes(data, place)),
            segments,
        ),
{
    reveal(Seq::filter);
    lemma_number_at(data, 0);
    lemma_number_at(data, 16);
    lemma_number_at(data, 20);
    let first = seq![32int];
    assert(first.drop_last() =~= Seq::<int>::empty());
    let end = 32 + u32_at(data, 20);
    let places = lemma_segments_told(data, end, u32_at(data, 16) as nat, first, Seq::empty());
    assert(places[0] == places.take(1)[0]);
    places
}

/// Whether a load command that maps a part of the file has room for saying so, and the part lies in
/// the file where it has bytes.
pub open spec fn command_fits(data: Seq<u8>, place: int) -> bool {
    spelled_at(data, place, place + 4) == 0x19 ==> spelled_at(data, place + 4, place + 8) >= 56 && (
    spelled_at(data, place + 48, place + 56) > 0 ==> spelled_at(data, place + 40, place + 48)
        + spelled_at(data, place + 48, place + 56) <= data.len())
}

/// A core file is opened where its load commands follow each other as the header says and each that
/// maps a part of the file fits.
pub proof fn proper_core_files_are_opened(data: Seq<u8>, places: Seq<int>)
    requires
        data.len() >= 32,
        spelled_at(data, 0, 4) == 0xfeed_facf,
        32 + spelled_at(data, 20, 24) <= data.len(),
        32 + spelled_at(data, 20, 24) <= usize::MAX,
        places.len() == spelled_at(data, 16, 20) + 1,
        places[0] == 32,
        commands_at(data, places, 32 + spelled_at(data, 20, 24)),
        forall|i: int| 0 <= i < places.len() - 1 ==> command_fits(data, #[trigger] places[i]),
    ensures
        mapped(data) is Ok,
{
    lemma_number_at(data, 0);
    lemma_number_at(data, 16);
    lemma_number_at(data, 20);
    let end = 32 + u32_at(data, 20);
    lemma_opened(data, end, places, 0, Seq::empty());
}

proof fn lemma_opened(
    data: Seq<u8>,
    end: int,
    places: Seq<int>,
    i: int,
    seen: Seq<MachoSegment>,
)
    requires
        end <= data.len(),
        0 <= i < places.len(),
        commands_at(data, places, end),
        forall|k: int| 0 <= k < places.len() - 1 ==> command_fits(data, #[trigger] places[k]),
    ensures
        segments_from(data, places[i], end, (places.len() - 1 - i) as nat, seen) is Ok,
    decreases places.len() - i,
{
    if i < places.len() - 1 {
        let offset = places[i];
        lemma_number_at(data, offset);
        lemma_number_at(data, offset + 4);
        lemma_number_at(data, offset + 24);
        lemma_number_at(data, offset + 40);
        lemma_number_at(data, offset + 48);
        assert(command_fits(data, places[i]));
        lemma_opened(data, end, places, i + 1, seen);
        lemma_opened(data, end, places, i + 1, seen.push(segment_at(data, offset)));
    }
}

/// A core file is refused only for a reason: it is too short for a header, it is of another kind,
/// its load commands end behind it, one of them does not fit in, or a part that one maps ends
/// behind it.
pub proof fn core_files_are_refused_for_a_reason(data: Seq<u8>, e: MachoError)
    requires
        mapped(data) == Err::<Seq<MachoSegment>, MachoError>(e),
    ensures
        match e {
            MachoError::TooSmall => data.len() < 32,
            MachoError::BadMagic { magic } => data.len() >= 32 && magic == spelled_at(data, 0, 4)
                && magic != 0xfeed_facfu32,
            MachoError::CommandsOverflow => 32 + spelled_at(data, 20, 24) > usize::MAX,
            MachoError::CommandsPastEnd => 32 + spelled_at(data, 20, 24) > data.len(),
            MachoError::TruncatedCommand { .. } => true,
            MachoError::InvalidCommandSize { .. } => true,
            MachoError::SegmentCommandTooSmall { .. } => true,
            MachoError::SegmentPastEnd { vmaddr, fileoff } => exists|place: int|
                #![trigger segment_at(data, place)]
                segment_at(data, place).vmaddr == vmaddr && segment_at(data, place).fileoff
                    == fileoff && fileoff + segment_at(data, place).filesize > data.len(),
        },
{
    lemma_number_at(data, 0);
    lemma_number_at(data, 20);
    if data.len() >= 32 && u32_at(data, 0) == MH_MAGIC_64 {
        let end = 32 + u32_at(data, 20);
        lemma_refused(data, 32, end, u32_at(data, 16) as nat, Seq::empty());
    }
}

proof fn lemma_refused(
    data: Seq<u8>,
    offset: int,
    end: int,
    left: nat,
    seen: Seq<MachoSegment>,
)
    ensures
        segments_from(data, offset, end, left, seen) matches Err(e) ==> match e {
            MachoError::TruncatedCommand { .. } => true,
            MachoError::InvalidCommandSize { .. } => true,
            MachoError::SegmentCommandTooSmall { .. } => true,
            MachoError::SegmentPastEnd { vmaddr, fileoff } => exists|place: int|
                #![trigger segment_at(data, place)]
                segment_at(data, place).vmaddr == vmaddr && segment_at(data, place).fileoff
                    == fileoff && fileoff + segment_at(data, place).filesize > data.len(),
            _ => false,
        },
    decreases left,
{
    if left > 0 && offset + 8 <= end {
        let size = u32_at(data, offset + 4);
        let segment = segment_at(data, offset);
        lemma_refused(data, offset + size, end, (left - 1) as nat, seen);
        lemma_refused(data, offset + size, end, (left - 1) as nat, seen.push(segment));
    }
}

/// The byte of a core file at an address is that of the first segment that is mapped there: as far
/// into its part of the file as the address lies behind its own. There is none where no segment is.
pub proof fn bytes_are_those_of_segments(data: Seq<u8>, segments: Seq<MachoSegment>, address: int)
    ensures
        match byte_at(data, segments, address) {
            Some(b) => exists|i: int|
                #![trigger segments[i]]
                0 <= i < segments.len() && segments[i].vmaddr <= address < segments[i].vmaddr
                    + segments[i].filesize && b == data[segments[i].fileoff + (address
                    - segments[i].vmaddr)] && forall|j: int|
                    0 <= j < i ==> !((#[trigger] segments[j]).vmaddr <= address
                        < segments[j].vmaddr + segments[j].filesize),
            None => forall|j: int|
                0 <= j < segments.len() ==> !((#[trigger] segments[j]).vmaddr <= address
                    < segments[j].vmaddr + segments[j].filesize),
        },
{
    lemma_holder(segments, address, 0);
    let i = holder(segments, address, 0);
    if i < segments.len() {
        assert(segments[i].holds(address));
        assert forall|j: int| 0 <= j < i implies !((#[trigger] segments[j]).vmaddr <= address
            < segments[j].vmaddr + segments[j].filesize) by {
            assert(!segments[j].holds(address));
        }
    } else {
        assert forall|j: int| 0 <= j < segments.len() implies !((#[trigger] segments[j]).vmaddr
            <= address < segments[j].vmaddr + segments[j].filesize) by {
            assert(!segments[j].holds(address));
        }
    }
}

/// A read of a core file gives the bytes at the addresses, one for each. It fails where it would
/// end beyond the address space, and where a byte is none; then it says how many stand before that,
/// which are in the buffer, and leaves the rest of it as it was.
pub proof fn core_reads_stop_at_the_first_gap(
    data: Seq<u8>,
    segments: Seq<MachoSegment>,
    address: u64,
    buf: Seq<u8>,
)
    ensures
        ({
            let left = core_filled(data, segments, address, buf);
            &&& left.len() == buf.len()
            &&& match core_answer(data, segments, address, buf.len()) {
                Ok(bytes) => bytes == left && forall|k: int|
                    0 <= k < buf.len() ==> byte_at(data, segments, address + k) == Some(
                        #[trigger] bytes[k],
                    ),
                Err(MemError::LengthOverflow) => address + buf.len() > u64::MAX && left == buf,
                Err(MemError::Short { read, total, address: at }) => at == address && (buf.len()
                    <= usize::MAX ==> total == buf.len() && read < total && byte_at(
                    data,
                    segments,
                    address + read,
                ) is None && forall|k: int|
                    0 <= k < buf.len() ==> #[trigger] left[k] == if k < read {
                        byte_at(data, segments, address + k)->0
                    } else {
                        buf[k]
                    }),
                Err(_) => false,
            }
        }),
{
    let len = buf.len();
    let run = backed_run(data, segments, address as int, len);
    lemma_run_is_maximal(data, segments, address as int, len);
    let left = core_filled(data, segments, address, buf);
    if address + len > u64::MAX {
        assert(left =~= buf);
    } else if run == len {
        let bytes = core_answer(data, segments, address, len)->Ok_0;
        assert forall|k: int| 0 <= k < len implies byte_at(data, segments, address + k) == Some(
            #[trigger] bytes[k],
        ) by {
            assert(byte_at(data, segments, address + k) is Some);
        }
        assert(bytes =~= left);
    }
}

/// A file is a core file of the given bytes with the segments that its load commands map, in the
/// order of their addresses, and its type is the fourth number of its header.
pub proof fn core_files_are_what_is_opened<'a>(
    data: &'a [u8],
    r: Result<MachoCoreMem<'a>, MachoError>,
    file_type: u32,
)
    requires
        call_ensures(MachoCoreMem::<'a>::open, (data,), r),
        r matches Ok(core) ==> call_ensures(MachoCoreMem::<'a>::file_type, (&core,), file_type),
        data@.len() >= 16,
    ensures
        match r {
            Ok(core) => {
                &&& core.spec_data() == data@
                &&& file_type == spelled_at(data@, 12, 16)
                &&& crate::placement::starts_rise(core.spec_segments())
                &&& mapped(data@) matches Ok(segments) && core.spec_segments().to_multiset()
                    == segments.to_multiset()
            },
            Err(e) => mapped(data@) == Err::<Seq<MachoSegment>, MachoError>(e),
        },
{
    lemma_number_at(data@, 12);
    if let Ok(segments) = mapped(data@) {
        crate::placement::in_order_is_sorted(segments);
    }
}

} // verus!
