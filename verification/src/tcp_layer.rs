use crate::tcp::{
    ack_missing_spec, acked, data_view, lemma_min_id, lemma_set_ack_keeps_wf, next_send_spec,
    ranges_wf, rtt_sample, segment_ok, send_ok_spec, set_ack_spec, DataPackage, HeaderPackage,
    PackageView, RTTPackage, ReceivingView, SackPackage, SendingView, TCPPackage,
    TCPRTTStatus, TCPReceivingStatus, TCPSendingStatus,
};
use std::collections::BTreeSet;
use std::ops::Range;
use vstd::prelude::*;

verus! {

broadcast use {vstd::std_specs::btree::group_btree_axioms, vstd::laws_cmp::group_laws_cmp};

/// The round trip time, in milliseconds, that a layer assumes before its first measurement.
pub const INITIAL_RTT: u16 = 55535;

/// What the transport layer is doing.
pub enum TCPState {
    Ready,
    Sending(TCPSendingStatus),
    Receiving(TCPReceivingStatus),
}

/// The state of the transport layer as a value.
#[verifier::ext_equal]
pub enum StateView {
    Ready,
    Sending(SendingView),
    Receiving(ReceivingView),
}

impl View for TCPState {
    type V = StateView;

    open spec fn view(&self) -> StateView {
        match self {
            TCPState::Ready => StateView::Ready,
            TCPState::Sending(s) => StateView::Sending(s@),
            TCPState::Receiving(r) => StateView::Receiving(r@),
        }
    }
}

/// What happens to the transport layer.
pub enum TCPEvent {
    /// The round trip timer ran out.
    RttTimeout,
    /// The selective acknowledgement timer ran out.
    SackTimeout,
    /// The application handed over data to transfer.
    AppData(Vec<u8>),
    /// The application will hand over nothing more.
    AppClosed,
    /// The package that `package_to_send` named went out.
    PackageSent,
    /// A package arrived from the peer.
    Received(TCPPackage),
}

/// An event as a value.
pub enum EventView {
    RttTimeout,
    SackTimeout,
    AppData(Seq<u8>),
    AppClosed,
    PackageSent,
    Received(PackageView),
}

impl View for TCPEvent {
    type V = EventView;

    open spec fn view(&self) -> EventView {
        match self {
            TCPEvent::RttTimeout => EventView::RttTimeout,
            TCPEvent::SackTimeout => EventView::SackTimeout,
            TCPEvent::AppData(d) => EventView::AppData(d@),
            TCPEvent::AppClosed => EventView::AppClosed,
            TCPEvent::PackageSent => EventView::PackageSent,
            TCPEvent::Received(p) => EventView::Received(p@),
        }
    }
}

/// What the transport layer asks of its surroundings, in the order given.
pub enum TCPAction {
    /// Send a package to the peer.
    Send(TCPPackage),
    /// Hand a completed transfer to the application; when the application is gone, stop
    /// before the actions that follow.
    Deliver(Vec<u8>),
    /// Restart the round trip timer with this many milliseconds.
    ResetRttTimeout(u64),
    /// Restart the selective acknowledgement timer with this many milliseconds.
    ResetSackTimeout(u64),
    /// Stop the layer.
    Stop,
}

/// An action as a value.
pub enum ActionView {
    Send(PackageView),
    Deliver(Seq<u8>),
    ResetRttTimeout(u64),
    ResetSackTimeout(u64),
    Stop,
}

impl View for TCPAction {
    type V = ActionView;

    open spec fn view(&self) -> ActionView {
        match self {
            TCPAction::Send(p) => ActionView::Send(p@),
            TCPAction::Deliver(d) => ActionView::Deliver(d@),
            TCPAction::ResetRttTimeout(ms) => ActionView::ResetRttTimeout(*ms),
            TCPAction::ResetSackTimeout(ms) => ActionView::ResetSackTimeout(*ms),
            TCPAction::Stop => ActionView::Stop,
        }
    }
}

/// A list of actions as values.
pub open spec fn actions_view(actions: Seq<TCPAction>) -> Seq<ActionView> {
    actions.map_values(|a: TCPAction| a@)
}

/// The decisions of the transport layer: one transfer at a time, in either direction.
pub struct TCPLayer {
    pub state: TCPState,
    pub rtt_status: TCPRTTStatus,
    pub sack_timeout_count: i32,
    pub sequence_length: u16,
}

/// The transport layer as a value.
#[verifier::ext_equal]
pub struct LayerView {
    pub state: StateView,
    pub rtt: u16,
    pub sack_timeouts: i32,
    pub sequence_length: u16,
}

impl View for TCPLayer {
    type V = LayerView;

    open spec fn view(&self) -> LayerView {
        LayerView {
            state: self.state@,
            rtt: self.rtt_status.rtt,
            sack_timeouts: self.sack_timeout_count,
            sequence_length: self.sequence_length,
        }
    }
}

// ---------------------------------------------------------------------------
// What a step does
// ---------------------------------------------------------------------------

/// The round trip timer: the round trip time taken a hundred times, in milliseconds.
pub open spec fn rtt_timeout_millis(rtt: u16) -> u64 {
    (rtt * 100) as u64
}

/// The selective acknowledgement timer: one and a half round trip timers.
pub open spec fn sack_timeout_millis(rtt: u16) -> u64 {
    (rtt * 150) as u64
}

/// The number of sequence ids of a transfer of `len` bytes: one per segment of `sl` bytes and
/// one for the header, as a `u16` (so modulo 65536).
pub open spec fn sequence_count_for(len: nat, sl: nat) -> u16 {
    (((len + sl - 1) / (sl as int) + 1) % 65536) as u16
}

/// A transfer of `data` that has sent nothing yet.
pub open spec fn new_sending(data: Seq<u8>, sl: nat) -> SendingView {
    SendingView {
        data,
        next: None,
        missing: Set::empty(),
        largest: None,
        last: None,
        count: sequence_count_for(data.len(), sl),
    }
}

/// The ids that a list of ranges covers.
pub open spec fn range_ids(ranges: Seq<Range<u16>>) -> Set<u16> {
    Set::new(|x: u16| acked(ranges, x as int))
}

/// The sender is done: nothing is missing and the peer confirmed the sequence count.
pub open spec fn sending_completed(s: SendingView) -> bool {
    s.missing.is_empty() && s.largest == Some(s.count)
}

/// The receiver is done: its first acknowledged range reaches the sequence count.
pub open spec fn receiving_completed(r: ReceivingView) -> bool {
    r.ranges.len() > 0 && r.ranges[0].end == r.count
}

/// The last id of the last acknowledged range, if there is one.
pub open spec fn last_confirmed(ranges: Seq<Range<u16>>) -> Option<u16> {
    if ranges.len() > 0 {
        Some((ranges.last().end - 1) as u16)
    } else {
        None
    }
}

/// `data` with `piece` written over it from `offset` on.
pub open spec fn write_at(data: Seq<u8>, offset: int, piece: Seq<u8>) -> Seq<u8> {
    Seq::new(
        data.len(),
        |i: int|
            if offset <= i < offset + piece.len() {
                piece[i - offset]
            } else {
                data[i]
            },
    )
}

/// How many missing ranges fit in one acknowledgement: each range takes four bytes, and four
/// more are the largest confirmed id and the list's length.
pub open spec fn sack_take_count(sl: u16) -> nat {
    ((sl - 4) / 4) as nat
}

/// The selective acknowledgement a receiver sends when its timer runs out.
pub open spec fn sack_of(r: ReceivingView, sl: u16) -> PackageView {
    let missing = ack_missing_spec(r.ranges);
    let n = if sack_take_count(sl) < missing.len() {
        sack_take_count(sl)
    } else {
        missing.len()
    };
    PackageView::Sack(missing.take(n as int), last_confirmed(r.ranges))
}

/// What a package from the peer does; `now` is the millisecond within the second.
pub open spec fn on_received_spec(l: LayerView, p: PackageView, now: u16) -> (
    LayerView,
    Seq<ActionView>,
) {
    match p {
        PackageView::PeerVacant => match l.state {
            StateView::Sending(_) => (LayerView { state: StateView::Ready, ..l }, Seq::empty()),
            _ => (l, Seq::empty()),
        },
        PackageView::Sack(ranges, largest) => match l.state {
            StateView::Sending(s) => {
                let s2 = SendingView { missing: s.missing.union(range_ids(ranges)), largest, ..s };
                (
                    LayerView {
                        state: if sending_completed(s2) {
                            StateView::Ready
                        } else {
                            StateView::Sending(s2)
                        },
                        ..l
                    },
                    seq![ActionView::ResetSackTimeout(sack_timeout_millis(l.rtt))],
                )
            },
            _ => (l, Seq::empty()),
        },
        PackageView::Data(id, offset, piece) => match l.state {
            StateView::Receiving(r) => {
                let r2 = ReceivingView {
                    data: write_at(r.data, offset as int, piece),
                    ranges: set_ack_spec(r.ranges, id),
                    ..r
                };
                if receiving_completed(r2) {
                    (
                        LayerView { state: StateView::Ready, ..l },
                        seq![
                            ActionView::Deliver(r2.data),
                            ActionView::Send(PackageView::Sack(Seq::empty(), last_confirmed(r2.ranges))),
                            ActionView::ResetSackTimeout(sack_timeout_millis(l.rtt)),
                        ],
                    )
                } else {
                    (LayerView { state: StateView::Receiving(r2), ..l }, Seq::empty())
                }
            },
            _ => (l, Seq::empty()),
        },
        PackageView::Header(count, len) => match l.state {
            StateView::Ready => (
                LayerView {
                    state: StateView::Receiving(
                        ReceivingView {
                            data: Seq::new(len as nat, |i: int| 0u8),
                            ranges: Seq::empty(),
                            count,
                        },
                    ),
                    ..l
                },
                Seq::empty(),
            ),
            _ => (l, Seq::empty()),
        },
        PackageView::RttRequest(start) => (
            l,
            seq![ActionView::Send(PackageView::RttResponse(start))],
        ),
        PackageView::RttResponse(start) => (
            LayerView { rtt: ((l.rtt + rtt_sample(start, now)) / 2) as u16, ..l },
            Seq::empty(),
        ),
    }
}

/// What the round trip timer asks for: a probe stamped `now`, a notice that this side is
/// vacant when it is ready, and the timer again.
pub open spec fn rtt_timeout_actions(l: LayerView, now: u16) -> Seq<ActionView> {
    seq![ActionView::Send(PackageView::RttRequest(now))] + (if l.state is Ready {
        seq![ActionView::Send(PackageView::PeerVacant)]
    } else {
        Seq::empty()
    }) + seq![ActionView::ResetRttTimeout(rtt_timeout_millis(l.rtt))]
}

/// What the selective acknowledgement timer does: a receiver reports what it misses, a sender
/// counts the timeout, and the timer starts again.
pub open spec fn sack_timeout_spec(l: LayerView) -> (LayerView, Seq<ActionView>) {
    match l.state {
        StateView::Receiving(r) => (
            l,
            seq![
                ActionView::Send(sack_of(r, l.sequence_length)),
                ActionView::ResetSackTimeout(sack_timeout_millis(l.rtt)),
            ],
        ),
        StateView::Sending(_) => (
            LayerView { sack_timeouts: (l.sack_timeouts + 1) as i32, ..l },
            seq![ActionView::ResetSackTimeout(sack_timeout_millis(l.rtt))],
        ),
        StateView::Ready => (l, seq![ActionView::ResetSackTimeout(sack_timeout_millis(l.rtt))]),
    }
}

/// A ready layer starts sending the application's data with its header.
pub open spec fn app_data_spec(l: LayerView, data: Seq<u8>) -> LayerView {
    let sl = l.sequence_length as nat;
    match l.state {
        StateView::Ready => LayerView {
            state: StateView::Sending(next_send_spec(new_sending(data, sl), sl)),
            ..l
        },
        _ => l,
    }
}

/// Once a package went out, the sender picks the next one.
pub open spec fn package_sent_spec(l: LayerView) -> LayerView {
    match l.state {
        StateView::Sending(s) => LayerView {
            state: StateView::Sending(next_send_spec(s, l.sequence_length as nat)),
            ..l
        },
        _ => l,
    }
}

/// The events whose step reads the clock: the round trip timer, which stamps a probe, and a
/// probe's answer, which measures a round trip.
pub open spec fn reads_clock(e: EventView) -> bool {
    e is RttTimeout || e matches EventView::Received(PackageView::RttResponse(_))
}

/// The step of an event that does not read the clock is the same at every time.
#[verifier::spinoff_prover]
pub proof fn lemma_step_ignores_clock(l: LayerView, e: EventView, now: u16)
    requires
        !reads_clock(e),
    ensures
        step_spec(l, e, now) == step_spec(l, e, 0),
{
    if let EventView::Received(p) = e {
        assert(on_received_spec(l, p, now) == on_received_spec(l, p, 0));
    }
}

/// What an event does to the layer, and what the layer asks for in return; `now` is the
/// millisecond within the second.
pub open spec fn step_spec(l: LayerView, e: EventView, now: u16) -> (LayerView, Seq<ActionView>) {
    match e {
        EventView::RttTimeout => (l, rtt_timeout_actions(l, now)),
        EventView::SackTimeout => sack_timeout_spec(l),
        EventView::AppData(data) => (app_data_spec(l, data), Seq::empty()),
        EventView::AppClosed => (l, seq![ActionView::Stop]),
        EventView::PackageSent => (package_sent_spec(l), Seq::empty()),
        EventView::Received(p) => on_received_spec(l, p, now),
    }
}

/// The events that the layer takes in a state: application data only when ready, a finished
/// send only while sending, and nothing on which the arithmetic or the slicing of a step
/// would fail.
pub open spec fn event_ok(l: LayerView, e: EventView, now: u16) -> bool {
    match e {
        EventView::SackTimeout => l.state is Sending ==> l.sack_timeouts < i32::MAX,
        EventView::AppData(_) => l.state is Ready,
        EventView::PackageSent => l.state is Sending,
        EventView::Received(p) => match p {
            PackageView::Sack(ranges, _) => l.state matches StateView::Sending(s) ==> forall|
                x: u16,
            |
                acked(ranges, x as int) ==> segment_ok(
                    s.data.len(),
                    x as int,
                    l.sequence_length as nat,
                ),
            PackageView::Data(id, offset, piece) => l.state matches StateView::Receiving(r) ==> (
            id < u16::MAX && offset + piece.len() <= r.data.len()),
            PackageView::RttResponse(start) => start <= 1000 + now,
            _ => true,
        },
        _ => true,
    }
}

/// A transfer being sent keeps every id it may send within its data.
pub open spec fn sending_wf(s: SendingView, sl: nat) -> bool {
    &&& forall|id: int| 1 <= id < s.count ==> #[trigger] segment_ok(s.data.len(), id, sl)
    &&& forall|m: u16| #[trigger] s.missing.contains(m) ==> segment_ok(s.data.len(), m as int, sl)
    &&& s.missing.is_empty() ==> (s.last matches Some(l) ==> l < u16::MAX)
}

/// The layer's invariant.
pub open spec fn layer_wf(l: LayerView) -> bool {
    &&& l.sequence_length >= 4
    &&& l.rtt <= INITIAL_RTT
    &&& match l.state {
        StateView::Sending(s) => sending_wf(s, l.sequence_length as nat),
        StateView::Receiving(r) => ranges_wf(r.ranges),
        StateView::Ready => true,
    }
}

// ---------------------------------------------------------------------------
// Lemmas on the sending side
// ---------------------------------------------------------------------------

/// Rounding `len / sl` up, as the sender counts its segments.
pub(crate) proof fn lemma_div_ceil(len: nat, sl: nat)
    requires
        sl > 0,
    ensures
        (len + sl - 1) / (sl as int) == len / sl + if len % sl == 0 {
            0int
        } else {
            1int
        },
{
    let q = len / sl;
    let r = len % sl;
    vstd::arithmetic::div_mod::lemma_fundamental_div_mod(len as int, sl as int);
    if r == 0 {
        vstd::arithmetic::div_mod::lemma_fundamental_div_mod_converse(
            len + sl - 1,
            sl as int,
            q as int,
            sl - 1,
        );
    } else {
        assert(len + sl - 1 == (q + 1) * sl + (r - 1)) by (nonlinear_arith)
            requires
                len == sl * q + r,
        ;
        vstd::arithmetic::div_mod::lemma_fundamental_div_mod_converse(
            len + sl - 1,
            sl as int,
            (q + 1) as int,
            r - 1,
        );
    }
}

/// A segment index below the rounded-up segment count starts inside the data.
pub(crate) proof fn lemma_segment_start(len: nat, sl: nat, k: nat)
    requires
        sl > 0,
        k < (len + sl - 1) / (sl as int),
    ensures
        k * sl < len,
{
    let q = (len + sl - 1) / (sl as int);
    vstd::arithmetic::div_mod::lemma_fundamental_div_mod((len + sl - 1) as int, sl as int);
    assert(k * sl < len) by (nonlinear_arith)
        requires
            sl > 0,
            k + 1 <= q,
            len + sl - 1 == sl * q + (len + sl - 1) % (sl as int),
            0 <= (len + sl - 1) % (sl as int),
    ;
}

/// A fresh transfer keeps every id it may send within its data.
proof fn lemma_new_sending_wf(data: Seq<u8>, sl: nat)
    requires
        4 <= sl <= u16::MAX,
    ensures
        sending_wf(new_sending(data, sl), sl),
{
    let s = new_sending(data, sl);
    let total = (data.len() + sl - 1) / (sl as int) + 1;
    assert(total >= 0) by (nonlinear_arith)
        requires
            sl > 0,
            total == (data.len() + sl - 1) / (sl as int) + 1,
    ;
    assert(s.count <= total);
    assert forall|id: int| 1 <= id < s.count implies #[trigger] segment_ok(
        data.len(),
        id,
        sl,
    ) by {
        lemma_segment_start(data.len(), sl, (id - 1) as nat);
        assert((id - 1) * sl <= u32::MAX) by (nonlinear_arith)
            requires
                0 <= id - 1 < 65535,
                sl <= 65535,
        ;
    }
}

/// A transfer that keeps its ids within its data can always pick its next package.
proof fn lemma_sending_send_ok(s: SendingView, sl: nat)
    requires
        sending_wf(s, sl),
    ensures
        send_ok_spec(s, sl),
{
    if !s.missing.is_empty() {
        let x = s.missing.choose();
        lemma_min_id(s.missing, x);
    }
}

/// Picking the next package keeps a transfer's ids within its data.
proof fn lemma_next_send_wf(s: SendingView, sl: nat)
    requires
        sending_wf(s, sl),
    ensures
        sending_wf(next_send_spec(s, sl), sl),
{
}

// ---------------------------------------------------------------------------
// Pieces of a step
// ---------------------------------------------------------------------------

/// Adds every id of the ranges to the set.
fn extend_missing(set: &mut BTreeSet<u16>, ranges: &Vec<Range<u16>>)
    ensures
        final(set)@ == old(set)@.union(range_ids(ranges@)),
{
    let ghost original = set@;
    let mut i: usize = 0;
    while i < ranges.len()
        invariant
            i <= ranges@.len(),
            set@ == original.union(range_ids(ranges@.take(i as int))),
        decreases ranges@.len() - i,
    {
        let start = ranges[i].start;
        let end = ranges[i].end;
        let mut x = start;
        let ghost before = set@;
        while x < end
            invariant
                start <= x,
                x == start || x <= end,
                set@ == before.union(Set::new(|y: u16| start <= y < x)),
            decreases end - x,
        {
            let ghost prev = set@;
            set.insert(x);
            assert(set@ == prev.insert(x));
            x = x + 1;
            assert(set@ =~= before.union(Set::new(|y: u16| start <= y < x)));
        }
        proof {
            let taken = ranges@.take(i as int);
            let next = ranges@.take(i + 1);
            assert(set@ =~= original.union(range_ids(next))) by {
                assert forall|y: u16| #[trigger] range_ids(next).contains(y) == (range_ids(
                    taken,
                ).contains(y) || (start <= y < end)) by {
                    if acked(next, y as int) {
                        let k = choose|k: int|
                            0 <= k < next.len() && #[trigger] next[k].start <= (y as int)
                                < next[k].end;
                        if k < i {
                            assert(taken[k] == next[k]);
                        }
                    }
                    if acked(taken, y as int) {
                        let k = choose|k: int|
                            0 <= k < taken.len() && #[trigger] taken[k].start <= (y as int)
                                < taken[k].end;
                        assert(next[k] == taken[k]);
                    }
                    if start <= y < end {
                        assert(next[i as int].start <= (y as int) < next[i as int].end);
                    }
                }
            }
        }
        i += 1;
    }
    assert(ranges@.take(ranges@.len() as int) =~= ranges@);
}

/// The last id of the last acknowledged range, if there is one.
fn last_confirmed_of(ranges: &Vec<Range<u16>>) -> (r: Option<u16>)
    requires
        ranges_wf(ranges@),
    ensures
        r == last_confirmed(ranges@),
{
    let len = ranges.len();
    if len > 0 {
        assert(ranges@[len - 1].start < ranges@[len - 1].end);
        Some(ranges[len - 1].end - 1)
    } else {
        None
    }
}

/// Writes `piece` over `data` from `offset` on.
fn write_piece(data: &mut Vec<u8>, offset: usize, piece: &Vec<u8>)
    requires
        offset + piece@.len() <= old(data)@.len(),
    ensures
        final(data)@ == write_at(old(data)@, offset as int, piece@),
{
    let ghost original = data@;
    let data_len = data.len();
    let mut i: usize = 0;
    while i < piece.len()
        invariant
            i <= piece@.len(),
            offset + piece@.len() <= original.len(),
            original.len() == data_len,
            data@.len() == original.len(),
            data@ == write_at(original, offset as int, piece@.take(i as int)),
        decreases piece@.len() - i,
    {
        data.set(offset + i, piece[i]);
        i += 1;
        assert(data@ =~= write_at(original, offset as int, piece@.take(i as int)));
    }
    assert(piece@.take(piece@.len() as int) =~= piece@);
}

// ---------------------------------------------------------------------------
// The layer
// ---------------------------------------------------------------------------

impl TCPLayer {
    /// A ready layer over frames of `byte_in_frame` bytes, of which twelve are taken by the
    /// layers below, as a `u16` (so modulo 65536).
    pub fn new(byte_in_frame: usize) -> (r: Self)
        requires
            byte_in_frame >= 12,
            (byte_in_frame - 12) % 65536 >= 4,
        ensures
            r@ == (LayerView {
                state: StateView::Ready,
                rtt: INITIAL_RTT,
                sack_timeouts: 0,
                sequence_length: ((byte_in_frame - 12) % 65536) as u16,
            }),
            layer_wf(r@),
    {
        TCPLayer {
            state: TCPState::Ready,
            rtt_status: TCPRTTStatus { rtt: INITIAL_RTT },
            sack_timeout_count: 0,
            sequence_length: ((byte_in_frame - 12) % 65536) as u16,
        }
    }

    /// The timers a layer starts with: the round trip timer runs out at once, the selective
    /// acknowledgement timer after one and a half round trip timers.
    pub fn start(&self) -> (r: Vec<TCPAction>)
        requires
            layer_wf(self@),
        ensures
            actions_view(r@) == seq![
                ActionView::ResetRttTimeout(0),
                ActionView::ResetSackTimeout(sack_timeout_millis(self@.rtt)),
            ],
    {
        let mut r: Vec<TCPAction> = Vec::new();
        r.push(TCPAction::ResetRttTimeout(0));
        r.push(TCPAction::ResetSackTimeout(self.sack_timeout()));
        assert(actions_view(r@) =~= seq![
            ActionView::ResetRttTimeout(0),
            ActionView::ResetSackTimeout(sack_timeout_millis(self@.rtt)),
        ]);
        r
    }

    /// The layer takes data from the application only when it is ready.
    pub fn is_ready(&self) -> (r: bool)
        ensures
            r == self@.state is Ready,
    {
        match &self.state {
            TCPState::Ready => true,
            _ => false,
        }
    }

    /// The layer is sending a transfer.
    pub fn is_sending(&self) -> (r: bool)
        ensures
            r == self@.state is Sending,
    {
        match &self.state {
            TCPState::Sending(_) => true,
            _ => false,
        }
    }

    /// The package the sender means to send next, if it is sending.
    pub fn package_to_send(&self) -> (r: Option<TCPPackage>)
        ensures
            crate::tcp::package_option_view(r) == match self@.state {
                StateView::Sending(s) => s.next,
                _ => None,
            },
    {
        match &self.state {
            TCPState::Sending(s) => match &s.next_package_to_send {
                Some(p) => Some(crate::tcp::copy_package(p)),
                None => None,
            },
            _ => None,
        }
    }

    fn rtt_timeout(&self) -> (r: u64)
        requires
            layer_wf(self@),
        ensures
            r == rtt_timeout_millis(self@.rtt),
    {
        self.rtt_status.rtt as u64 * 100
    }

    fn sack_timeout(&self) -> (r: u64)
        requires
            layer_wf(self@),
        ensures
            r == sack_timeout_millis(self@.rtt),
    {
        self.rtt_status.rtt as u64 * 150
    }

    fn on_rtt_timeout(&self, now_millis: u16) -> (r: Vec<TCPAction>)
        requires
            layer_wf(self@),
        ensures
            actions_view(r@) == rtt_timeout_actions(self@, now_millis),
    {
        let mut r: Vec<TCPAction> = Vec::new();
        r.push(TCPAction::Send(TCPPackage::RttRequest(RTTPackage { rtt_start_millis: now_millis })));
        if self.is_ready() {
            r.push(TCPAction::Send(TCPPackage::PeerVacant));
        }
        r.push(TCPAction::ResetRttTimeout(self.rtt_timeout()));
        assert(actions_view(r@) =~= rtt_timeout_actions(self@, now_millis));
        r
    }

    fn on_sack_timeout(&mut self) -> (r: Vec<TCPAction>)
        requires
            layer_wf(old(self)@),
            old(self)@.state is Sending ==> old(self)@.sack_timeouts < i32::MAX,
        ensures
            final(self)@ == sack_timeout_spec(old(self)@).0,
            actions_view(r@) == sack_timeout_spec(old(self)@).1,
    {
        let ms = self.sack_timeout();
        let mut r: Vec<TCPAction> = Vec::new();
        match &self.state {
            TCPState::Receiving(receiving) => {
                let mut missing = receiving.get_ack_missing();
                let take = ((self.sequence_length - 4) / 4) as usize;
                missing.truncate(take);
                let largest = last_confirmed_of(&receiving.range_ack);
                proof {
                    let all = ack_missing_spec(receiving@.ranges);
                    let n = if sack_take_count(self.sequence_length) < all.len() {
                        sack_take_count(self.sequence_length)
                    } else {
                        all.len()
                    };
                    assert(missing@ =~= all.take(n as int));
                }
                r.push(
                    TCPAction::Send(
                        TCPPackage::Sack(
                            SackPackage {
                                missing_ranges: missing,
                                largest_confirmed_sequence_id: largest,
                            },
                        ),
                    ),
                );
            },
            TCPState::Sending(_) => {
                self.sack_timeout_count = self.sack_timeout_count + 1;
            },
            TCPState::Ready => {},
        }
        r.push(TCPAction::ResetSackTimeout(ms));
        assert(actions_view(r@)[0] == sack_timeout_spec(old(self)@).1[0]);
        assert(actions_view(r@) =~= sack_timeout_spec(old(self)@).1);
        r
    }

    fn on_app_data(&mut self, data: Vec<u8>)
        requires
            layer_wf(old(self)@),
            old(self)@.state is Ready,
        ensures
            final(self)@ == app_data_spec(old(self)@, data@),
            layer_wf(final(self)@),
    {
        let sl = self.sequence_length as usize;
        let len = data.len();
        assert(len / sl <= len / 4) by {
            vstd::arithmetic::div_mod::lemma_div_is_ordered_by_denominator(len as int, 4, sl as int);
        }
        let segments = len / sl + if len % sl == 0 {
            0
        } else {
            1
        };
        let count = ((segments + 1) % 65536) as u16;
        proof {
            lemma_div_ceil(len as nat, sl as nat);
            lemma_new_sending_wf(data@, sl as nat);
            lemma_sending_send_ok(new_sending(data@, sl as nat), sl as nat);
            lemma_next_send_wf(new_sending(data@, sl as nat), sl as nat);
        }
        let mut sending = TCPSendingStatus {
            data_sending: data,
            next_package_to_send: None,
            sequence_missing: BTreeSet::new(),
            largest_confirmed_sequence_id: None,
            last_send_segment_id: None,
            sequence_count: count,
        };
        assert(sending@ =~= new_sending(data@, sl as nat));
        sending.set_next_send_package(sl);
        self.state = TCPState::Sending(sending);
    }

    fn on_package_sent(&mut self)
        requires
            layer_wf(old(self)@),
            old(self)@.state is Sending,
        ensures
            final(self)@ == package_sent_spec(old(self)@),
            layer_wf(final(self)@),
    {
        let sl = self.sequence_length as usize;
        let mut state = TCPState::Ready;
        std::mem::swap(&mut state, &mut self.state);
        match state {
            TCPState::Sending(mut sending) => {
                let ghost before = sending@;
                assert(old(self)@.state == StateView::Sending(before));
                proof {
                    lemma_sending_send_ok(before, sl as nat);
                    lemma_next_send_wf(before, sl as nat);
                }
                sending.set_next_send_package(sl);
                assert(sending@ == next_send_spec(before, sl as nat));
                self.state = TCPState::Sending(sending);
                assert(self@ =~= package_sent_spec(old(self)@));
            },
            other => {
                self.state = other;
            },
        }
    }

    fn on_sack(&mut self, sack: SackPackage)
        requires
            layer_wf(old(self)@),
            event_ok(old(self)@, EventView::Received(TCPPackage::Sack(sack)@), 0),
        ensures
            final(self)@ == on_received_spec(old(self)@, TCPPackage::Sack(sack)@, 0).0,
            layer_wf(final(self)@),
    {
        let mut state = TCPState::Ready;
        std::mem::swap(&mut state, &mut self.state);
        match state {
            TCPState::Sending(mut sending) => {
                extend_missing(&mut sending.sequence_missing, &sack.missing_ranges);
                sending.largest_confirmed_sequence_id = sack.largest_confirmed_sequence_id;
                if !sending.completed() {
                    self.state = TCPState::Sending(sending);
                }
            },
            other => {
                self.state = other;
            },
        }
    }

    fn on_data(&mut self, data: DataPackage) -> (r: Vec<TCPAction>)
        requires
            layer_wf(old(self)@),
            event_ok(old(self)@, EventView::Received(TCPPackage::Data(data)@), 0),
        ensures
            final(self)@ == on_received_spec(old(self)@, TCPPackage::Data(data)@, 0).0,
            actions_view(r@) == on_received_spec(old(self)@, TCPPackage::Data(data)@, 0).1,
            layer_wf(final(self)@),
    {
        let ms = self.sack_timeout();
        let mut r: Vec<TCPAction> = Vec::new();
        let mut state = TCPState::Ready;
        std::mem::swap(&mut state, &mut self.state);
        match state {
            TCPState::Receiving(mut receiving) => {
                write_piece(&mut receiving.data_received, data.offset as usize, &data.data);
                proof {
                    lemma_set_ack_keeps_wf(receiving.range_ack@, data.sequence_id);
                }
                receiving.set_ack(data.sequence_id);
                if receiving.completed() {
                    let largest = last_confirmed_of(&receiving.range_ack);
                    r.push(TCPAction::Deliver(receiving.data_received));
                    r.push(
                        TCPAction::Send(
                            TCPPackage::Sack(
                                SackPackage {
                                    missing_ranges: Vec::new(),
                                    largest_confirmed_sequence_id: largest,
                                },
                            ),
                        ),
                    );
                    r.push(TCPAction::ResetSackTimeout(ms));
                } else {
                    self.state = TCPState::Receiving(receiving);
                }
            },
            other => {
                self.state = other;
            },
        }
        assert(actions_view(r@) =~= on_received_spec(old(self)@, TCPPackage::Data(data)@, 0).1);
        r
    }

    fn on_header(&mut self, header: HeaderPackage)
        requires
            layer_wf(old(self)@),
        ensures
            final(self)@ == on_received_spec(old(self)@, TCPPackage::Header(header)@, 0).0,
            layer_wf(final(self)@),
    {
        if self.is_ready() {
            let n = header.data_length as usize;
            let mut zeros: Vec<u8> = Vec::new();
            let mut i: usize = 0;
            while i < n
                invariant
                    i <= n,
                    zeros@ == Seq::new(i as nat, |k: int| 0u8),
                decreases n - i,
            {
                zeros.push(0);
                i += 1;
                assert(zeros@ =~= Seq::new(i as nat, |k: int| 0u8));
            }
            self.state = TCPState::Receiving(
                TCPReceivingStatus {
                    data_received: zeros,
                    range_ack: Vec::new(),
                    sequence_count: header.sequence_count,
                },
            );
            assert(self@ =~= on_received_spec(old(self)@, TCPPackage::Header(header)@, 0).0);
        }
    }

    fn on_received(&mut self, package: TCPPackage, now_millis: u16) -> (r: Vec<TCPAction>)
        requires
            layer_wf(old(self)@),
            now_millis < 1000,
            event_ok(old(self)@, EventView::Received(package@), now_millis),
        ensures
            final(self)@ == on_received_spec(old(self)@, package@, now_millis).0,
            actions_view(r@) == on_received_spec(old(self)@, package@, now_millis).1,
            layer_wf(final(self)@),
    {
        let mut r: Vec<TCPAction> = Vec::new();
        match package {
            TCPPackage::PeerVacant => {
                if self.is_sending() {
                    self.state = TCPState::Ready;
                }
            },
            TCPPackage::Sack(sack) => {
                if self.is_sending() {
                    r.push(TCPAction::ResetSackTimeout(self.sack_timeout()));
                }
                self.on_sack(sack);
            },
            TCPPackage::Data(data) => {
                r = self.on_data(data);
            },
            TCPPackage::Header(header) => {
                self.on_header(header);
            },
            TCPPackage::RttRequest(rtt) => {
                r.push(TCPAction::Send(TCPPackage::RttResponse(rtt)));
            },
            TCPPackage::RttResponse(rtt) => {
                let sample = (1000 + now_millis - rtt.rtt_start_millis) % 1000;
                self.rtt_status.update_rtt(sample);
            },
        }
        assert(actions_view(r@) =~= on_received_spec(old(self)@, package@, now_millis).1);
        r
    }

    /// Takes one event, with `now_millis` the millisecond within the second, and returns what
    /// the layer asks for, in order.
    #[verifier::rlimit(40)]
    pub fn step_at(&mut self, event: TCPEvent, now_millis: u16) -> (r: Vec<TCPAction>)
        requires
            layer_wf(old(self)@),
            now_millis < 1000,
            event_ok(old(self)@, event@, now_millis),
        ensures
            final(self)@ == step_spec(old(self)@, event@, now_millis).0,
            actions_view(r@) == step_spec(old(self)@, event@, now_millis).1,
            layer_wf(final(self)@),
    {
        match event {
            TCPEvent::RttTimeout => self.on_rtt_timeout(now_millis),
            TCPEvent::SackTimeout => self.on_sack_timeout(),
            TCPEvent::AppData(data) => {
                self.on_app_data(data);
                Vec::new()
            },
            TCPEvent::AppClosed => {
                let mut r: Vec<TCPAction> = Vec::new();
                r.push(TCPAction::Stop);
                assert(actions_view(r@) =~= seq![ActionView::Stop]);
                r
            },
            TCPEvent::PackageSent => {
                self.on_package_sent();
                Vec::new()
            },
            TCPEvent::Received(package) => self.on_received(package, now_millis),
        }
    }

    /// Takes one event and returns what the layer asks for, in order. Only the round trip timer
    /// and a probe's answer read the clock; for them the result is `None`, with the layer
    /// unchanged, when the clock cannot be read as a time after 1970. Every other event is
    /// taken whatever the clock says (its step is the same at every time, see
    /// `lemma_step_ignores_clock`).
    #[verifier::spinoff_prover]
    pub fn step(&mut self, event: TCPEvent) -> (r: Option<Vec<TCPAction>>)
        requires
            layer_wf(old(self)@),
            forall|now: u16| now < 1000 ==> event_ok(old(self)@, event@, now),
        ensures
            !reads_clock(event@) ==> r is Some,
            r is None ==> final(self)@ == old(self)@,
            r matches Some(actions) ==> exists|now: u16|
                now < 1000 && final(self)@ == step_spec(old(self)@, event@, now).0
                    && actions_view(actions@) == step_spec(old(self)@, event@, now).1,
            !reads_clock(event@) ==> final(self)@ == step_spec(old(self)@, event@, 0).0
                && actions_view(r->Some_0@) == step_spec(old(self)@, event@, 0).1,
            layer_wf(final(self)@),
    {
        let clocked = match &event {
            TCPEvent::RttTimeout => true,
            TCPEvent::Received(TCPPackage::RttResponse(_)) => true,
            _ => false,
        };
        if clocked {
            match crate::tcp::now_subsec_millis() {
                Some(now) => Some(self.step_at(event, now)),
                None => None,
            }
        } else {
            Some(self.step_at(event, 0))
        }
    }
}

// ---------------------------------------------------------------------------
// A transfer without loss
// ---------------------------------------------------------------------------

/// The layer after it received data segments `from..to` of `data`, in order, and what it asked
/// for on the way.
pub open spec fn receive_segments(l: LayerView, data: Seq<u8>, sl: nat, from: nat, to: nat) -> (
    LayerView,
    Seq<ActionView>,
)
    decreases to - from,
{
    if from >= to {
        (l, Seq::empty())
    } else {
        let first = on_received_spec(l, data_view(data, from as u16, sl), 0);
        let rest = receive_segments(first.0, data, sl, from + 1, to);
        (rest.0, first.1 + rest.1)
    }
}

/// Every segment `from..to` is an event that the layer takes when it arrives.
pub open spec fn receive_segments_ok(l: LayerView, data: Seq<u8>, sl: nat, from: nat, to: nat) -> bool
    decreases to - from,
{
    from < to ==> {
        &&& event_ok(l, EventView::Received(data_view(data, from as u16, sl)), 0)
        &&& receive_segments_ok(
            on_received_spec(l, data_view(data, from as u16, sl), 0).0,
            data,
            sl,
            from + 1,
            to,
        )
    }
}

/// The receive buffer once the segments before `k` are written: the data up to byte
/// `(k - 1) * sl`, zeros after it.
pub open spec fn written_prefix(data: Seq<u8>, sl: nat, k: nat) -> Seq<u8> {
    Seq::new(data.len(), |i: int| if i < (k - 1) * sl { data[i] } else { 0u8 })
}

/// The acknowledged ranges once the segments before `k` arrived.
pub open spec fn acked_prefix(k: nat) -> Seq<Range<u16>> {
    if k <= 1 {
        Seq::empty()
    } else {
        seq![crate::tcp::range_of(1, k as u16)]
    }
}

/// The rounded-up segment count covers the data.
pub(crate) proof fn lemma_segments_cover(len: nat, sl: nat)
    requires
        sl > 0,
    ensures
        (len + sl - 1) / (sl as int) * sl >= len,
{
    vstd::arithmetic::div_mod::lemma_fundamental_div_mod((len + sl - 1) as int, sl as int);
    let q = (len + sl - 1) / (sl as int);
    assert(q * sl >= len) by (nonlinear_arith)
        requires
            len + sl - 1 == sl * q + (len + sl - 1) % (sl as int),
            (len + sl - 1) % (sl as int) < sl,
    ;
}

/// Writing segment `k` at its offset extends the written prefix by that segment.
proof fn lemma_write_segment(data: Seq<u8>, sl: nat, k: nat)
    requires
        sl > 0,
        k >= 1,
        (k - 1) * sl < data.len(),
    ensures
        write_at(
            written_prefix(data, sl, k),
            (k - 1) * sl,
            crate::tcp::segment_data(data, k as int, sl as int),
        ) =~= written_prefix(data, sl, k + 1),
{
    let len = data.len();
    let start = (k - 1) * sl;
    let piece = crate::tcp::segment_data(data, k as int, sl as int);
    let next_data = write_at(written_prefix(data, sl, k), start, piece);
    assert(k * sl == start + sl) by (nonlinear_arith)
        requires
            start == (k - 1) * sl,
    ;
    assert forall|i: int| 0 <= i < len implies next_data[i] == written_prefix(data, sl, k + 1)[i] by {
        if start <= i < start + piece.len() {
            assert(piece[i - start] == data[i]);
        }
    }
}

/// Receiving segments `k..count` in order, after those before `k` arrived, completes the
/// transfer with the data.
proof fn lemma_receive_rest(l: LayerView, data: Seq<u8>, sl: nat, k: nat, count: nat)
    requires
        sl > 0,
        0 < data.len() <= u32::MAX,
        1 <= k < count,
        count == (data.len() + sl - 1) / (sl as int) + 1,
        count < 65536,
        l.state == StateView::Receiving(
            ReceivingView {
                data: written_prefix(data, sl, k),
                ranges: acked_prefix(k),
                count: count as u16,
            },
        ),
    ensures
        receive_segments_ok(l, data, sl, k, count),
        receive_segments(l, data, sl, k, count).0 == (LayerView { state: StateView::Ready, ..l }),
        receive_segments(l, data, sl, k, count).1 == seq![
            ActionView::Deliver(data),
            ActionView::Send(PackageView::Sack(Seq::empty(), Some((count - 1) as u16))),
            ActionView::ResetSackTimeout(sack_timeout_millis(l.rtt)),
        ],
    decreases count - k,
{
    let len = data.len();
    lemma_segment_start(len, sl, (k - 1) as nat);
    let start = (k - 1) * sl;
    assert(start < len);
    let piece = crate::tcp::segment_data(data, k as int, sl as int);
    let p = data_view(data, k as u16, sl);
    assert(p == PackageView::Data(k as u16, start as u32, piece));
    assert((start as u32) as int == start);
    let next_data = write_at(written_prefix(data, sl, k), start as int, piece);
    lemma_write_segment(data, sl, k);
    let next_ranges = set_ack_spec(acked_prefix(k), k as u16);
    assert(next_ranges =~= acked_prefix(k + 1)) by {
        crate::tcp::lemma_ack_position(acked_prefix(k), k as u16);
    }
    assert(event_ok(l, EventView::Received(p), 0));
    let after = on_received_spec(l, p, 0);
    if k + 1 == count {
        lemma_segments_cover(len, sl);
        assert(written_prefix(data, sl, k + 1) =~= data);
        assert(receiving_completed(ReceivingView { data: next_data, ranges: next_ranges, count: count as u16 }));
        assert(after.0 == (LayerView { state: StateView::Ready, ..l }));
        assert(receive_segments(after.0, data, sl, k + 1, count) == (after.0, Seq::<ActionView>::empty()));
        assert(after.1 + Seq::<ActionView>::empty() =~= after.1);
        assert(receive_segments_ok(after.0, data, sl, k + 1, count));
    } else {
        assert(!receiving_completed(ReceivingView { data: next_data, ranges: next_ranges, count: count as u16 }));
        lemma_receive_rest(after.0, data, sl, k + 1, count);
        assert(after.1 =~= Seq::<ActionView>::empty());
        assert(after.1 + receive_segments(after.0, data, sl, k + 1, count).1 =~= receive_segments(after.0, data, sl, k + 1, count).1);
    }
}

/// A ready layer that receives a transfer's header and then each of its data segments, in
/// order and without loss, takes every one of these packages, hands exactly the transfer's
/// data to the application, confirms the last id, and is ready again.
#[verifier::rlimit(50)]
pub proof fn lemma_transfer_delivers(l: LayerView, data: Seq<u8>, sl: nat)
    requires
        l.state is Ready,
        0 < data.len() <= u32::MAX,
        0 < sl,
        (data.len() + sl - 1) / (sl as int) + 1 < 65536,
    ensures
        ({
            let count = sequence_count_for(data.len(), sl);
            let header = step_spec(
                l,
                EventView::Received(crate::tcp::header_view(count, data)),
                0,
            );
            let segments = receive_segments(header.0, data, sl, 1, count as nat);
            &&& header.1 == Seq::<ActionView>::empty()
            &&& receive_segments_ok(header.0, data, sl, 1, count as nat)
            &&& segments.0 == (LayerView { state: StateView::Ready, ..l })
            &&& segments.1 == seq![
                ActionView::Deliver(data),
                ActionView::Send(PackageView::Sack(Seq::empty(), Some((count - 1) as u16))),
                ActionView::ResetSackTimeout(sack_timeout_millis(l.rtt)),
            ]
        }),
{
    let len = data.len();
    let total = (len + sl - 1) / (sl as int) + 1;
    assert(total >= 2) by {
        lemma_segments_cover(len, sl);
        assert((len + sl - 1) / (sl as int) >= 1) by (nonlinear_arith)
            requires
                (len + sl - 1) / (sl as int) * sl >= len,
                len > 0,
                sl > 0,
        ;
    }
    let count = sequence_count_for(len, sl);
    assert(count == total);
    let header = on_received_spec(l, crate::tcp::header_view(count, data), 0);
    assert(crate::tcp::header_view(count, data) == PackageView::Header(count, len as u32));
    assert((len as u32) as nat == len);
    assert(header.1 =~= Seq::<ActionView>::empty());
    assert(written_prefix(data, sl, 1) =~= Seq::new((len as u32) as nat, |i: int| 0u8));
    assert(header.0 == (LayerView {
        state: StateView::Receiving(
            ReceivingView {
                data: written_prefix(data, sl, 1),
                ranges: acked_prefix(1),
                count: count,
            },
        ),
        ..l
    }));
    lemma_receive_rest(header.0, data, sl, 1, count as nat);
}

/// The layer after `n` of its packages went out.
pub open spec fn after_sent(l: LayerView, n: nat) -> LayerView
    decreases n,
{
    if n == 0 {
        l
    } else {
        package_sent_spec(after_sent(l, (n - 1) as nat))
    }
}

/// The package a loss-free sender has ready after `n` went out: the header, then the data
/// segments in order.
pub open spec fn nth_package(data: Seq<u8>, sl: nat, count: u16, n: nat) -> PackageView {
    if n == 0 {
        crate::tcp::header_view(count, data)
    } else {
        data_view(data, n as u16, sl)
    }
}

proof fn lemma_after_sent(l: LayerView, data: Seq<u8>, n: nat)
    requires
        l.state is Ready,
        l.sequence_length > 0,
        n < sequence_count_for(data.len(), l.sequence_length as nat),
    ensures
        ({
            let sl = l.sequence_length as nat;
            let count = sequence_count_for(data.len(), sl);
            after_sent(app_data_spec(l, data), n) == (LayerView {
                state: StateView::Sending(
                    SendingView {
                        data,
                        next: Some(nth_package(data, sl, count, n)),
                        missing: Set::empty(),
                        largest: None,
                        last: Some(n as u16),
                        count,
                    },
                ),
                ..l
            })
        }),
    decreases n,
{
    if n > 0 {
        lemma_after_sent(l, data, (n - 1) as nat);
    }
}

/// A ready layer handed data sends, while nothing is reported missing, the transfer's header
/// and then each data segment in order, and then has nothing more to send.
pub proof fn lemma_sender_order(l: LayerView, data: Seq<u8>)
    requires
        l.state is Ready,
        l.sequence_length > 0,
    ensures
        ({
            let sl = l.sequence_length as nat;
            let count = sequence_count_for(data.len(), sl);
            let sending = app_data_spec(l, data);
            &&& forall|n: nat|
                n < count ==> ((#[trigger] after_sent(sending, n)).state matches StateView::Sending(
                    s,
                ) && s.next == Some(nth_package(data, sl, count, n)))
            &&& count > 0 ==> (after_sent(sending, count as nat).state matches StateView::Sending(
                s,
            ) && s.next is None)
        }),
{
    let sl = l.sequence_length as nat;
    let count = sequence_count_for(data.len(), sl);
    let sending = app_data_spec(l, data);
    assert forall|n: nat| n < count implies ((#[trigger] after_sent(
        sending,
        n,
    )).state matches StateView::Sending(s) && s.next == Some(nth_package(data, sl, count, n))) by {
        lemma_after_sent(l, data, n);
    }
    if count > 0 {
        lemma_after_sent(l, data, (count - 1) as nat);
    }
}

// ---------------------------------------------------------------------------
// Laws of single packages
// ---------------------------------------------------------------------------

/// A selective acknowledgement adds the ranges it reports to what the sender misses and takes
/// its largest confirmed id. The sender is then done, and ready, exactly when nothing is
/// missing and that id is the transfer's sequence count; otherwise it goes on sending the same
/// data, with the same next package.
#[verifier::spinoff_prover]
pub proof fn lemma_sack_finishes_only_when_confirmed(
    l: LayerView,
    s: SendingView,
    ranges: Seq<Range<u16>>,
    largest: Option<u16>,
)
    requires
        l.state == StateView::Sending(s),
    ensures
        ({
            let (l2, _) = step_spec(l, EventView::Received(PackageView::Sack(ranges, largest)), 0);
            let now_missing = s.missing.union(range_ids(ranges));
            &&& (l2.state is Ready) <==> (now_missing.is_empty() && largest == Some(s.count))
            &&& !(l2.state is Ready) ==> (l2.state matches StateView::Sending(s2) && {
                &&& s2.data == s.data
                &&& s2.next == s.next
                &&& s2.count == s.count
                &&& s2.last == s.last
                &&& s2.largest == largest
                &&& forall|x: u16|
                    s2.missing.contains(x) <==> (s.missing.contains(x) || acked(ranges, x as int))
            })
            &&& l2.rtt == l.rtt
            &&& l2.sequence_length == l.sequence_length
        }),
{
    let now_missing = s.missing.union(range_ids(ranges));
    assert forall|x: u16| now_missing.contains(x) <==> (s.missing.contains(x) || acked(
        ranges,
        x as int,
    )) by {}
}

/// A receiver hands over a transfer only when, once the new segment's id is recorded, every
/// id from the smallest acknowledged one up to the last id of the transfer (one below the
/// sequence count) is acknowledged: no segment after the first one received is missing.
#[verifier::spinoff_prover]
#[verifier::rlimit(30)]
pub proof fn lemma_delivery_needs_no_gap(
    l: LayerView,
    r: ReceivingView,
    id: u16,
    offset: u32,
    piece: Seq<u8>,
)
    requires
        l.state == StateView::Receiving(r),
    ensures
        ({
            let (l2, acts) = step_spec(
                l,
                EventView::Received(PackageView::Data(id, offset, piece)),
                0,
            );
            let rs = set_ack_spec(r.ranges, id);
            (exists|k: int| 0 <= k < acts.len() && #[trigger] acts[k] is Deliver) ==> {
                &&& rs.len() > 0
                &&& forall|x: int| rs[0].start <= x < r.count ==> acked(rs, x)
                &&& l2.state is Ready
            }
        }),
{
    let rs = set_ack_spec(r.ranges, id);
    let p = PackageView::Data(id, offset, piece);
    assert(step_spec(l, EventView::Received(p), 0) == on_received_spec(l, p, 0));
    if rs.len() > 0 && rs[0].end == r.count {
        assert forall|x: int| rs[0].start <= x < r.count implies acked(rs, x) by {
            assert(rs[0].start <= x < rs[0].end);
        }
    }
}

/// A data segment is written into the receive buffer at its offset and nowhere else: the
/// bytes before the offset and after the segment keep their values, whether the receiver goes
/// on receiving or hands over the transfer.
#[verifier::spinoff_prover]
#[verifier::rlimit(30)]
pub proof fn lemma_segment_written_in_place(
    l: LayerView,
    r: ReceivingView,
    id: u16,
    offset: u32,
    piece: Seq<u8>,
)
    requires
        l.state == StateView::Receiving(r),
        offset + piece.len() <= r.data.len(),
    ensures
        ({
            let (l2, acts) = step_spec(
                l,
                EventView::Received(PackageView::Data(id, offset, piece)),
                0,
            );
            let expected = r.data.take(offset as int) + piece + r.data.skip(offset + piece.len());
            &&& l2.state matches StateView::Receiving(r2) ==> r2.data == expected
            &&& forall|k: int|
                0 <= k < acts.len() ==> (#[trigger] acts[k] matches ActionView::Deliver(d) ==> d
                    == expected)
        }),
{
    let expected = r.data.take(offset as int) + piece + r.data.skip(offset + piece.len());
    let p = PackageView::Data(id, offset, piece);
    assert(step_spec(l, EventView::Received(p), 0) == on_received_spec(l, p, 0));
    lemma_write_at_splice(r.data, offset as int, piece);
}

proof fn lemma_write_at_splice(data: Seq<u8>, offset: int, piece: Seq<u8>)
    requires
        0 <= offset,
        offset + piece.len() <= data.len(),
    ensures
        write_at(data, offset, piece) == data.take(offset) + piece + data.skip(offset + piece.len()),
{
    let w = write_at(data, offset, piece);
    let expected = data.take(offset) + piece + data.skip(offset + piece.len());
    assert forall|i: int| 0 <= i < w.len() implies w[i] == expected[i] by {
        if i < offset {
        } else if i < offset + piece.len() {
        } else {
        }
    }
    assert(w =~= expected);
}

/// Segments written at offsets that do not overlap give the same buffer in either order.
pub proof fn lemma_segments_commute(data: Seq<u8>, o1: int, p1: Seq<u8>, o2: int, p2: Seq<u8>)
    requires
        0 <= o1,
        0 <= o2,
        o1 + p1.len() <= o2 || o2 + p2.len() <= o1,
    ensures
        write_at(write_at(data, o1, p1), o2, p2) == write_at(write_at(data, o2, p2), o1, p1),
        o1 + p1.len() <= data.len() ==> write_at(data, o1, p1).subrange(o1, o1 + p1.len())
            == p1,
        forall|k: int|
            0 <= k < data.len() && !(o1 <= k < o1 + p1.len()) ==> #[trigger] write_at(
                data,
                o1,
                p1,
            )[k] == data[k],
{
    assert(write_at(write_at(data, o1, p1), o2, p2) =~= write_at(write_at(data, o2, p2), o1, p1));
    if o1 + p1.len() <= data.len() {
        assert(write_at(data, o1, p1).subrange(o1, o1 + p1.len()) =~= p1);
    }
}

/// `elapsed` milliseconds after millisecond `start`, the clock is at millisecond `now` within
/// its second, and less than a second has passed.
pub open spec fn elapsed_since(start: int, now: int, elapsed: int) -> bool {
    0 <= elapsed < 1000 && (start + elapsed) % 1000 == now
}

/// An answered probe measures the time elapsed since it was stamped: a number of milliseconds
/// below 1000 that, added to the stamp, gives the answer's millisecond within the second, so
/// the difference itself when the stamp is not later. The round trip time becomes the mean
/// of the old one and that measure; nothing else changes and nothing is asked for.
#[verifier::spinoff_prover]
#[verifier::rlimit(30)]
pub proof fn lemma_probe_measures_elapsed_time(l: LayerView, start: u16, now: u16)
    requires
        layer_wf(l),
        now < 1000,
        start <= 1000 + now,
    ensures
        ({
            let (l2, acts) = step_spec(l, EventView::Received(PackageView::RttResponse(start)), now);
            &&& acts == Seq::<ActionView>::empty()
            &&& l2 == (LayerView { rtt: l2.rtt, ..l })
            &&& exists|elapsed: int|
                #[trigger] elapsed_since(start as int, now as int, elapsed) && l2.rtt == (l.rtt + elapsed) / 2
            &&& start <= now ==> l2.rtt == (l.rtt + now - start) / 2
        }),
{
    let elapsed = (1000 + now - start) % 1000;
    let p = PackageView::RttResponse(start);
    assert(step_spec(l, EventView::Received(p), now) == on_received_spec(l, p, now));
    assert(0 <= elapsed < 1000);
    assert((start + elapsed) % 1000 == now) by {
        vstd::arithmetic::div_mod::lemma_fundamental_div_mod(1000 + now - start, 1000);
        vstd::arithmetic::div_mod::lemma_mod_multiples_vanish(
            (1000 + now - start) / 1000,
            now as int,
            1000,
        );
        assert(start + elapsed == now + 1000 * (1 - (1000 + now - start) / 1000)) by (
        nonlinear_arith)
            requires
                1000 + now - start == 1000 * ((1000 + now - start) / 1000) + elapsed,
        ;
        vstd::arithmetic::div_mod::lemma_mod_multiples_vanish(
            1 - (1000 + now - start) / 1000,
            now as int,
            1000,
        );
        vstd::arithmetic::div_mod::lemma_small_mod(now as nat, 1000);
    }
    assert(elapsed_since(start as int, now as int, elapsed));
    if start <= now {
        assert(elapsed == now - start) by {
            vstd::arithmetic::div_mod::lemma_mod_multiples_vanish(1, (now - start) as int, 1000);
            vstd::arithmetic::div_mod::lemma_small_mod((now - start) as nat, 1000);
        }
    }
}

} // verus!
