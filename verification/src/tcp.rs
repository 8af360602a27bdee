use std::collections::BTreeSet;
use std::ops::Range;
use vstd::prelude::*;
use vstd::slice::{slice_subrange, slice_to_vec};

verus! {

broadcast use {vstd::std_specs::btree::group_btree_axioms, vstd::laws_cmp::group_laws_cmp};

// ---------------------------------------------------------------------------
// Acknowledged ranges of sequence ids
// ---------------------------------------------------------------------------

/// The half-open range `start..end` as a value.
pub open spec fn range_of(start: u16, end: u16) -> Range<u16> {
    Range { start, end }
}

/// `x` lies in one of the acknowledged ranges.
pub open spec fn acked(ranges: Seq<Range<u16>>, x: int) -> bool {
    exists|i: int| 0 <= i < ranges.len() && #[trigger] ranges[i].start <= x < ranges[i].end
}

/// The acknowledged ranges are non-empty, sorted, and separated by at least one missing id.
pub open spec fn ranges_wf(ranges: Seq<Range<u16>>) -> bool {
    &&& forall|i: int| 0 <= i < ranges.len() ==> #[trigger] ranges[i].start < ranges[i].end
    &&& forall|i: int, j: int|
        0 <= i < j < ranges.len() ==> #[trigger] ranges[i].end < #[trigger] ranges[j].start
}

/// Index of the first range whose end is at least `id` (the number of ranges if there is none).
pub open spec fn ack_position(ranges: Seq<Range<u16>>, id: u16) -> int
    decreases ranges.len(),
{
    if ranges.len() == 0 {
        0
    } else if ranges[0].end >= id {
        0
    } else {
        1 + ack_position(ranges.drop_first(), id)
    }
}

/// What recording the acknowledgement of `id` does to the ranges: a new range at the back when
/// `id` is beyond every range, an extension (and a merge with the following range) when `id` is
/// the end of the first range that reaches it, and nothing otherwise.
pub open spec fn set_ack_spec(ranges: Seq<Range<u16>>, id: u16) -> Seq<Range<u16>> {
    let i = ack_position(ranges, id);
    if i == ranges.len() {
        ranges.push(range_of(id, (id + 1) as u16))
    } else if ranges[i].end == id {
        if i + 1 < ranges.len() && ranges[i + 1].start == id + 1 {
            ranges.update(i, range_of(ranges[i].start, ranges[i + 1].end)).remove(i + 1)
        } else {
            ranges.update(i, range_of(ranges[i].start, (id + 1) as u16))
        }
    } else {
        ranges
    }
}

/// Whether `set_ack` records `id`: it does unless `id` lies before the start of the first range
/// that reaches it.
pub open spec fn ack_accepted(ranges: Seq<Range<u16>>, id: u16) -> bool {
    let i = ack_position(ranges, id);
    i == ranges.len() || ranges[i].start <= id
}

/// The gaps between consecutive acknowledged ranges.
pub open spec fn ack_missing_spec(ranges: Seq<Range<u16>>) -> Seq<Range<u16>> {
    if ranges.len() == 0 {
        Seq::empty()
    } else {
        Seq::new((ranges.len() - 1) as nat, |i: int| range_of(ranges[i].end, ranges[i + 1].start))
    }
}

pub proof fn lemma_ack_position(ranges: Seq<Range<u16>>, id: u16)
    ensures
        0 <= ack_position(ranges, id) <= ranges.len(),
        forall|j: int| 0 <= j < ack_position(ranges, id) ==> #[trigger] ranges[j].end < id,
        ack_position(ranges, id) < ranges.len() ==> ranges[ack_position(ranges, id)].end >= id,
    decreases ranges.len(),
{
    if ranges.len() > 0 && ranges[0].end < id {
        let rest = ranges.drop_first();
        lemma_ack_position(rest, id);
        assert forall|j: int| 0 <= j < ack_position(ranges, id) implies #[trigger] ranges[j].end
            < id by {
            if j > 0 {
                assert(ranges[j] == rest[j - 1]);
            }
        }
    }
}

/// The first index that the scan stops at is `ack_position`.
proof fn lemma_ack_position_is(ranges: Seq<Range<u16>>, id: u16, i: int)
    requires
        0 <= i <= ranges.len(),
        forall|j: int| 0 <= j < i ==> #[trigger] ranges[j].end < id,
        i < ranges.len() ==> ranges[i].end >= id,
    ensures
        ack_position(ranges, id) == i,
{
    lemma_ack_position(ranges, id);
    let p = ack_position(ranges, id);
    if p < i {
        assert(ranges[p].end < id);
    } else if p > i {
        assert(ranges[i].end < id);
    }
}

/// Recording an acknowledgement keeps the ranges non-empty, sorted and separated.
pub proof fn lemma_set_ack_keeps_wf(ranges: Seq<Range<u16>>, id: u16)
    requires
        ranges_wf(ranges),
        id < u16::MAX,
    ensures
        ranges_wf(set_ack_spec(ranges, id)),
{
    lemma_ack_position(ranges, id);
    let i = ack_position(ranges, id);
    let r = set_ack_spec(ranges, id);
    if i == ranges.len() {
        assert forall|a: int, b: int| 0 <= a < b < r.len() implies #[trigger] r[a].end
            < #[trigger] r[b].start by {
            if b == ranges.len() {
                assert(ranges[a].end < id);
            }
        }
    } else if ranges[i].end == id {
        if i + 1 < ranges.len() && ranges[i + 1].start == id + 1 {
            assert forall|a: int, b: int| 0 <= a < b < r.len() implies #[trigger] r[a].end
                < #[trigger] r[b].start by {
                let a0 = if a <= i { a } else { a + 1 };
                let b0 = if b <= i { b } else { b + 1 };
                if a == i {
                    assert(r[a].end == ranges[i + 1].end);
                    assert(ranges[i + 1].end < ranges[b0].start);
                } else if b == i {
                    assert(ranges[a].end < ranges[i].start);
                } else {
                    assert(ranges[a0].end < ranges[b0].start);
                }
            }
            assert forall|a: int| 0 <= a < r.len() implies #[trigger] r[a].start < r[a].end by {
                if a == i {
                    assert(ranges[i].start < ranges[i].end);
                    assert(ranges[i].end < ranges[i + 1].start);
                    assert(ranges[i + 1].start < ranges[i + 1].end);
                } else if a > i {
                    assert(r[a] == ranges[a + 1]);
                }
            }
        } else {
            assert forall|a: int, b: int| 0 <= a < b < r.len() implies #[trigger] r[a].end
                < #[trigger] r[b].start by {
                if a == i {
                    assert(ranges[i].end < ranges[b].start);
                }
            }
        }
    }
}

/// Recording an acknowledgement adds exactly `id` to the acknowledged ids when it is accepted,
/// and changes nothing when it is not.
pub proof fn lemma_set_ack_acked(ranges: Seq<Range<u16>>, id: u16)
    requires
        ranges_wf(ranges),
        id < u16::MAX,
    ensures
        forall|x: int|
            acked(set_ack_spec(ranges, id), x) <==> (acked(ranges, x) || (x == id && ack_accepted(
                ranges,
                id,
            ))),
{
    lemma_ack_position(ranges, id);
    let i = ack_position(ranges, id);
    let r = set_ack_spec(ranges, id);
    assert forall|x: int| acked(r, x) <==> (acked(ranges, x) || (x == id && ack_accepted(ranges, id))) by {
        if i == ranges.len() {
            if acked(r, x) {
                let k = choose|k: int| 0 <= k < r.len() && #[trigger] r[k].start <= x < r[k].end;
                if k < ranges.len() {
                    assert(ranges[k].start <= x < ranges[k].end);
                }
            }
            if acked(ranges, x) {
                let k = choose|k: int|
                    0 <= k < ranges.len() && #[trigger] ranges[k].start <= x < ranges[k].end;
                assert(r[k] == ranges[k]);
            }
            if x == id {
                assert(r[ranges.len() as int].start <= x < r[ranges.len() as int].end);
            }
        } else if ranges[i].end == id {
            if i + 1 < ranges.len() && ranges[i + 1].start == id + 1 {
                if acked(r, x) {
                    let k = choose|k: int| 0 <= k < r.len() && #[trigger] r[k].start <= x < r[k].end;
                    if k < i {
                        assert(ranges[k].start <= x < ranges[k].end);
                    } else if k > i {
                        assert(ranges[k + 1].start <= x < ranges[k + 1].end);
                    } else {
                        if x < id {
                            assert(ranges[i].start <= x < ranges[i].end);
                        } else if x > id {
                            assert(ranges[i + 1].start <= x < ranges[i + 1].end);
                        }
                    }
                }
                if acked(ranges, x) {
                    let k = choose|k: int|
                        0 <= k < ranges.len() && #[trigger] ranges[k].start <= x < ranges[k].end;
                    if k < i {
                        assert(r[k] == ranges[k]);
                    } else if k > i + 1 {
                        assert(r[k - 1] == ranges[k]);
                    } else {
                        assert(r[i].start <= x < r[i].end);
                    }
                }
                if x == id {
                    assert(r[i].start <= x < r[i].end);
                }
            } else {
                if acked(r, x) {
                    let k = choose|k: int| 0 <= k < r.len() && #[trigger] r[k].start <= x < r[k].end;
                    if k != i {
                        assert(ranges[k].start <= x < ranges[k].end);
                    } else if x < id {
                        assert(ranges[i].start <= x < ranges[i].end);
                    }
                }
                if acked(ranges, x) {
                    let k = choose|k: int|
                        0 <= k < ranges.len() && #[trigger] ranges[k].start <= x < ranges[k].end;
                    if k != i {
                        assert(r[k] == ranges[k]);
                    } else {
                        assert(r[i].start <= x < r[i].end);
                    }
                }
                if x == id {
                    assert(r[i].start <= x < r[i].end);
                }
            }
        } else {
            if x == id && ack_accepted(ranges, id) {
                assert(ranges[i].start <= x < ranges[i].end);
            }
        }
    }
}

/// The receiving side of a transfer as a value.
#[verifier::ext_equal]
pub struct ReceivingView {
    pub data: Seq<u8>,
    pub ranges: Seq<Range<u16>>,
    pub count: u16,
}

/// What the receiving side of a transfer tracks.
#[derive(Debug)]
pub struct TCPReceivingStatus {
    pub data_received: Vec<u8>,
    /// Acknowledged sequence ids, as sorted ranges that are separated by missing ids.
    pub range_ack: Vec<Range<u16>>,
    pub sequence_count: u16,
}

impl View for TCPReceivingStatus {
    type V = ReceivingView;

    open spec fn view(&self) -> ReceivingView {
        ReceivingView {
            data: self.data_received@,
            ranges: self.range_ack@,
            count: self.sequence_count,
        }
    }
}

impl TCPReceivingStatus {
    /// Records that the segment `sequence_id` arrived.
    pub fn set_ack(&mut self, sequence_id: u16)
        requires
            sequence_id < u16::MAX,
        ensures
            final(self).range_ack@ == set_ack_spec(old(self).range_ack@, sequence_id),
            final(self).data_received@ == old(self).data_received@,
            final(self).sequence_count == old(self).sequence_count,
    {
        let len = self.range_ack.len();
        let mut i: usize = 0;
        while i < len && self.range_ack[i].end < sequence_id
            invariant
                len == self.range_ack.len(),
                0 <= i <= len,
                forall|j: int| 0 <= j < i ==> #[trigger] self.range_ack@[j].end < sequence_id,
            decreases len - i,
        {
            i += 1;
        }
        proof {
            lemma_ack_position_is(self.range_ack@, sequence_id, i as int);
        }
        if i == len {
            self.range_ack.push(sequence_id..sequence_id + 1);
        } else if self.range_ack[i].end == sequence_id {
            let start = self.range_ack[i].start;
            if i + 1 < len && self.range_ack[i + 1].start == sequence_id + 1 {
                let end = self.range_ack[i + 1].end;
                self.range_ack.set(i, start..end);
                self.range_ack.remove(i + 1);
            } else {
                self.range_ack.set(i, start..sequence_id + 1);
            }
        }
    }

    /// The gaps between consecutive acknowledged ranges, in order.
    pub fn get_ack_missing(&self) -> (missing: Vec<Range<u16>>)
        ensures
            missing@ == ack_missing_spec(self.range_ack@),
    {
        let mut missing: Vec<Range<u16>> = Vec::new();
        let len = self.range_ack.len();
        if len == 0 {
            return missing;
        }
        let mut i: usize = 0;
        while i + 1 < len
            invariant
                len == self.range_ack.len(),
                len > 0,
                0 <= i < len,
                missing@.len() == i,
                forall|j: int|
                    0 <= j < i ==> #[trigger] missing@[j] == range_of(
                        self.range_ack@[j].end,
                        self.range_ack@[j + 1].start,
                    ),
            decreases len - i,
        {
            missing.push(self.range_ack[i].end..self.range_ack[i + 1].start);
            i += 1;
        }
        assert(missing@ =~= ack_missing_spec(self.range_ack@));
        missing
    }

    /// The first acknowledged range reaches the sequence count.
    pub fn completed(&self) -> (r: bool)
        ensures
            r == (self.range_ack@.len() > 0 && self.range_ack@[0].end == self.sequence_count),
    {
        if self.range_ack.len() > 0 {
            if self.range_ack[0].end == self.sequence_count {
                return true;
            }
        }
        false
    }
}


// ---------------------------------------------------------------------------
// Packages of the transport layer
// ---------------------------------------------------------------------------

/// A selective acknowledgement: the gaps the receiver still misses and the last id it holds.
#[derive(PartialEq, Debug, Clone)]
pub struct SackPackage {
    pub missing_ranges: Vec<Range<u16>>,
    pub largest_confirmed_sequence_id: Option<u16>,
}

/// One segment of the data being transferred.
#[derive(PartialEq, Debug, Clone)]
pub struct DataPackage {
    pub sequence_id: u16,
    pub offset: u32,
    pub data: Vec<u8>,
}

/// Announces a transfer: how many sequence ids (the header included) and how many bytes.
#[derive(PartialEq, Debug, Clone)]
pub struct HeaderPackage {
    pub sequence_count: u16,
    pub data_length: u32,
}

/// A round-trip-time probe: the millisecond (within its second) at which it was sent.
#[derive(PartialEq, Debug, Clone)]
pub struct RTTPackage {
    pub rtt_start_millis: u16,
}

#[derive(PartialEq, Debug, Clone)]
pub enum TCPPackage {
    PeerVacant,
    Sack(SackPackage),
    Data(DataPackage),
    Header(HeaderPackage),
    RttRequest(RTTPackage),
    RttResponse(RTTPackage),
}

/// A transport package as a value.
pub enum PackageView {
    PeerVacant,
    Sack(Seq<Range<u16>>, Option<u16>),
    Data(u16, u32, Seq<u8>),
    Header(u16, u32),
    RttRequest(u16),
    RttResponse(u16),
}

impl View for TCPPackage {
    type V = PackageView;

    open spec fn view(&self) -> PackageView {
        match self {
            TCPPackage::PeerVacant => PackageView::PeerVacant,
            TCPPackage::Sack(p) => PackageView::Sack(
                p.missing_ranges@,
                p.largest_confirmed_sequence_id,
            ),
            TCPPackage::Data(p) => PackageView::Data(p.sequence_id, p.offset, p.data@),
            TCPPackage::Header(p) => PackageView::Header(p.sequence_count, p.data_length),
            TCPPackage::RttRequest(p) => PackageView::RttRequest(p.rtt_start_millis),
            TCPPackage::RttResponse(p) => PackageView::RttResponse(p.rtt_start_millis),
        }
    }
}

/// A copy of a package.
pub fn copy_package(p: &TCPPackage) -> (r: TCPPackage)
    ensures
        r@ == p@,
{
    match p {
        TCPPackage::PeerVacant => TCPPackage::PeerVacant,
        TCPPackage::Sack(s) => {
            let mut ranges: Vec<Range<u16>> = Vec::new();
            let mut i: usize = 0;
            while i < s.missing_ranges.len()
                invariant
                    i <= s.missing_ranges@.len(),
                    ranges@ =~= s.missing_ranges@.take(i as int),
                decreases s.missing_ranges@.len() - i,
            {
                let r = &s.missing_ranges[i];
                ranges.push(r.start..r.end);
                i += 1;
            }
            assert(s.missing_ranges@.take(s.missing_ranges@.len() as int) =~= s.missing_ranges@);
            TCPPackage::Sack(
                SackPackage {
                    missing_ranges: ranges,
                    largest_confirmed_sequence_id: s.largest_confirmed_sequence_id,
                },
            )
        },
        TCPPackage::Data(d) => TCPPackage::Data(
            DataPackage {
                sequence_id: d.sequence_id,
                offset: d.offset,
                data: slice_to_vec(d.data.as_slice()),
            },
        ),
        TCPPackage::Header(h) => TCPPackage::Header(
            HeaderPackage { sequence_count: h.sequence_count, data_length: h.data_length },
        ),
        TCPPackage::RttRequest(r) => TCPPackage::RttRequest(
            RTTPackage { rtt_start_millis: r.rtt_start_millis },
        ),
        TCPPackage::RttResponse(r) => TCPPackage::RttResponse(
            RTTPackage { rtt_start_millis: r.rtt_start_millis },
        ),
    }
}

// ---------------------------------------------------------------------------
// Sending side
// ---------------------------------------------------------------------------

/// The bytes of data segment `id` (ids start at 1; 0 is the header).
pub open spec fn segment_data(data: Seq<u8>, id: int, sl: int) -> Seq<u8> {
    let start = (id - 1) * sl;
    data.subrange(
        start,
        if start + sl <= data.len() {
            start + sl
        } else {
            data.len() as int
        },
    )
}

/// The header package of a transfer of `data` in `count` sequence ids.
pub open spec fn header_view(count: u16, data: Seq<u8>) -> PackageView {
    PackageView::Header(count, data.len() as u32)
}

/// The package of data segment `id`.
pub open spec fn data_view(data: Seq<u8>, id: u16, sl: nat) -> PackageView {
    PackageView::Data(id, ((id - 1) * sl) as u32, segment_data(data, id - 1 + 1, sl as int))
}

/// The smallest id of a set of ids.
pub open spec fn min_id(set: Set<u16>) -> u16 {
    choose|m: u16| set.contains(m) && forall|y: u16| set.contains(y) ==> m <= y
}

/// The data segment `id` starts within the data, at an offset that fits in 32 bits.
pub open spec fn segment_ok(data_len: nat, id: int, sl: nat) -> bool {
    id >= 1 ==> ((id - 1) * sl <= u32::MAX && (id - 1) * sl <= data_len)
}

/// The smallest id of a non-empty set of ids.
fn first_missing(set: &BTreeSet<u16>) -> (r: Option<u16>)
    ensures
        r is None <==> set@.is_empty(),
        r matches Some(x) ==> x == min_id(set@),
{
    let mut best: Option<u16> = None;
    for x in it: set.iter()
        invariant
            it.seq().unref().to_set() == set@,
            best is None <==> it.index() == 0,
            best matches Some(b) ==> set@.contains(b) && forall|j: int|
                0 <= j < it.index() ==> b <= *it.seq()[j],
            it.index() == it.seq().len() ==> (best matches Some(b) ==> forall|y: u16|
                set@.contains(y) ==> b <= y),
            it.index() == it.seq().len() && it.index() == 0 ==> set@.is_empty(),
    {
        match best {
            None => {
                best = Some(*x);
            },
            Some(b) => {
                if *x < b {
                    best = Some(*x);
                }
            },
        }
        assert(it.seq().unref()[it.index() as int] == *x);
        assert(it.index() + 1 == it.seq().len() ==> forall|y: u16|
            set@.contains(y) ==> best->0 <= y) by {
            assert forall|y: u16| it.index() + 1 == it.seq().len() && set@.contains(
                y,
            ) implies best->0 <= y by {
                assert(it.seq().unref().to_set().contains(y));
                assert(it.seq().unref().contains(y));
            }
        }
    }
    proof {
        if best is Some {
            let b = best->0;
            assert(set@.contains(b) && forall|y: u16| set@.contains(y) ==> b <= y);
            let m = min_id(set@);
            assert(m <= b && b <= m);
        }
    }
    best
}

/// The sending side of a transfer as a value.
#[verifier::ext_equal]
pub struct SendingView {
    pub data: Seq<u8>,
    pub next: Option<PackageView>,
    pub missing: Set<u16>,
    pub largest: Option<u16>,
    pub last: Option<u16>,
    pub count: u16,
}

/// The view of an optional package.
pub open spec fn package_option_view(p: Option<TCPPackage>) -> Option<PackageView> {
    match p {
        Some(p) => Some(p@),
        None => None,
    }
}

/// Choosing the next package from `s` cannot overflow or slice out of bounds.
pub open spec fn send_ok_spec(s: SendingView, sequence_length: nat) -> bool {
    match s.last {
        None => true,
        Some(sent) => if s.missing.is_empty() {
            &&& sent < u16::MAX
            &&& sent + 1 < s.count ==> segment_ok(s.data.len(), sent + 1, sequence_length)
        } else {
            segment_ok(s.data.len(), min_id(s.missing) as int, sequence_length)
        },
    }
}

/// The next package to send: the header first; then, while no segment is reported missing,
/// the segment after the last one sent (nothing once all are sent); otherwise the smallest
/// missing id (the header for id 0).
pub open spec fn next_send_spec(s: SendingView, sequence_length: nat) -> SendingView {
    match s.last {
        None => SendingView {
            next: Some(header_view(s.count, s.data)),
            last: Some(0u16),
            ..s
        },
        Some(sent) => if s.missing.is_empty() {
            if sent + 1 >= s.count {
                SendingView { next: None, ..s }
            } else {
                SendingView {
                    next: Some(data_view(s.data, (sent + 1) as u16, sequence_length)),
                    last: Some((sent + 1) as u16),
                    ..s
                }
            }
        } else {
            let m = min_id(s.missing);
            SendingView {
                next: Some(
                    if m == 0 {
                        header_view(s.count, s.data)
                    } else {
                        data_view(s.data, m, sequence_length)
                    },
                ),
                last: Some(m),
                ..s
            }
        },
    }
}

/// Every id of a set that holds `x` is at least the smallest one, which the set holds.
pub proof fn lemma_min_id(set: Set<u16>, x: u16)
    requires
        set.contains(x),
    ensures
        set.contains(min_id(set)),
        forall|y: u16| set.contains(y) ==> min_id(set) <= y,
    decreases x,
{
    if exists|y: u16| set.contains(y) && y < x {
        let y = choose|y: u16| set.contains(y) && y < x;
        lemma_min_id(set, y);
    } else {
        assert(set.contains(x) && forall|y: u16| set.contains(y) ==> x <= y);
    }
}

/// What the sending side of a transfer tracks.
#[derive(Debug)]
pub struct TCPSendingStatus {
    pub data_sending: Vec<u8>,
    pub next_package_to_send: Option<TCPPackage>,
    pub sequence_missing: BTreeSet<u16>,
    pub largest_confirmed_sequence_id: Option<u16>,
    pub last_send_segment_id: Option<u16>,
    pub sequence_count: u16,
}

impl View for TCPSendingStatus {
    type V = SendingView;

    open spec fn view(&self) -> SendingView {
        SendingView {
            data: self.data_sending@,
            next: package_option_view(self.next_package_to_send),
            missing: self.sequence_missing@,
            largest: self.largest_confirmed_sequence_id,
            last: self.last_send_segment_id,
            count: self.sequence_count,
        }
    }
}

impl TCPSendingStatus {
    /// Choosing the next package cannot overflow or slice out of bounds.
    pub open spec fn send_ok(&self, sequence_length: nat) -> bool {
        send_ok_spec(self@, sequence_length)
    }

    /// Picks the next package to send: the header first; then, while no segment is reported
    /// missing, the segment after the last one sent (nothing once all are sent); otherwise the
    /// smallest missing id (the header for id 0).
    pub fn set_next_send_package(&mut self, sequence_length: usize)
        requires
            old(self).send_ok(sequence_length as nat),
        ensures
            final(self)@ == next_send_spec(old(self)@, sequence_length as nat),
    {
        let (new_segment_id, new_package) = match self.last_send_segment_id {
            None => {
                (
                    0u16,
                    TCPPackage::Header(
                        HeaderPackage {
                            sequence_count: self.sequence_count,
                            data_length: self.data_sending.len() as u32,
                        },
                    ),
                )
            },
            Some(sent_segment_id) => {
                match first_missing(&self.sequence_missing) {
                    None => {
                        let next_segment_id = sent_segment_id + 1;
                        if next_segment_id >= self.sequence_count {
                            self.next_package_to_send = None;
                            return ;
                        }
                        (
                            next_segment_id,
                            TCPPackage::Data(
                                self.data_package(sent_segment_id, sequence_length),
                            ),
                        )
                    },
                    Some(next_segment_id) => {
                        if next_segment_id == 0 {
                            (
                                0,
                                TCPPackage::Header(
                                    HeaderPackage {
                                        sequence_count: self.sequence_count,
                                        data_length: self.data_sending.len() as u32,
                                    },
                                ),
                            )
                        } else {
                            (
                                next_segment_id,
                                TCPPackage::Data(
                                    self.data_package(next_segment_id - 1, sequence_length),
                                ),
                            )
                        }
                    },
                }
            },
        };
        self.next_package_to_send = Some(new_package);
        self.last_send_segment_id = Some(new_segment_id);
    }

    /// The package of data segment `index + 1`, which starts at byte `index * sequence_length`.
    fn data_package(&self, index: u16, sequence_length: usize) -> (r: DataPackage)
        requires
            index < u16::MAX,
            segment_ok(self.data_sending@.len(), index + 1, sequence_length as nat),
        ensures
            TCPPackage::Data(r)@ == data_view(
                self.data_sending@,
                (index + 1) as u16,
                sequence_length as nat,
            ),
    {
        let ghost sl = sequence_length as nat;
        let offset: u32 = if index == 0 {
            0
        } else {
            assert(sequence_length <= u32::MAX) by (nonlinear_arith)
                requires
                    index >= 1,
                    index * sl <= u32::MAX,
                    sl == sequence_length,
            ;
            index as u32 * sequence_length as u32
        };
        let start = index as usize * sequence_length;
        let len = self.data_sending.len();
        let end = if sequence_length <= len - start {
            start + sequence_length
        } else {
            len
        };
        let data = slice_to_vec(slice_subrange(self.data_sending.as_slice(), start, end));
        DataPackage { sequence_id: index + 1, offset, data }
    }

    /// Nothing is reported missing and the receiver confirmed the sequence count.
    pub fn completed(&self) -> (r: bool)
        ensures
            r == (self.sequence_missing@.is_empty() && self.largest_confirmed_sequence_id == Some(
                self.sequence_count,
            )),
    {
        self.sequence_missing.is_empty() && self.largest_confirmed_sequence_id == Some(
            self.sequence_count,
        )
    }
}

// ---------------------------------------------------------------------------
// Round trip time
// ---------------------------------------------------------------------------

/// The current time's milliseconds within its second (`SystemTime::now`, `duration_since`
/// the Unix epoch, `subsec_millis`): `None` where `duration_since` fails, which it does when
/// the clock is set before 1970. Which millisecond comes is not stated; it is below 1000.
#[verifier::external_body]
pub(crate) fn now_subsec_millis() -> (r: Option<u16>)
    ensures
        r matches Some(m) ==> m < 1000,
{
    match std::time::SystemTime::now().duration_since(std::time::SystemTime::UNIX_EPOCH) {
        Ok(elapsed) => Some(elapsed.subsec_millis() as u16),
        Err(_) => None,
    }
}

/// The smoothed round trip time, in milliseconds.
#[derive(Debug)]
pub struct TCPRTTStatus {
    pub rtt: u16,
}

impl TCPRTTStatus {
    /// Averages a new sample into the round trip time.
    pub fn update_rtt(&mut self, new_rtt: u16)
        requires
            old(self).rtt + new_rtt <= u16::MAX,
        ensures
            final(self).rtt == (old(self).rtt + new_rtt) / 2,
    {
        self.rtt = (self.rtt + new_rtt) / 2;
    }

    pub fn get_rtt(&self) -> (r: u16)
        ensures
            r == self.rtt,
    {
        self.rtt
    }

    /// A probe stamped with the current millisecond within the second; `None` when the clock
    /// cannot be read as a time after 1970.
    pub fn generate_rtt_package() -> (r: Option<RTTPackage>)
        ensures
            r matches Some(p) ==> p.rtt_start_millis < 1000,
    {
        match now_subsec_millis() {
            Some(now) => Some(RTTPackage { rtt_start_millis: now }),
            None => None,
        }
    }
}

/// The round trip time that a probe sent at `start` and answered at `now` measures, both taken
/// as milliseconds within a second.
pub open spec fn rtt_sample(start: u16, now: u16) -> u16 {
    ((1000 + now - start) % 1000) as u16
}
} // verus!
