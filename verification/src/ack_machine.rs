use crate::ack::{ack_frame, flag_ack, flag_more, AckPackage};
use crate::padding::padding;
use crate::redundancy::length_field;
use vstd::prelude::*;
use vstd::slice::{slice_subrange, slice_to_vec};

verus! {

/// How long a side with nothing to send listens for a frame, in milliseconds.
pub const TIME_OUT_MILLIS: u64 = 1000;

/// How long a sender waits for an acknowledgement, in milliseconds.
pub const ACK_TIME_OUT_MILLIS: u64 = 150;

/// Acknowledgements that may go missing in a row before the link counts as broken.
pub const LINK_ERROR_THRESHOLD: usize = 15;

/// Where the stop-and-wait link stands.
pub enum AckState {
    /// Listening, or about to send the next frame.
    FrameDetection,
    /// Sending this frame until the peer acknowledges it.
    Tx(AckPackage),
    /// This frame arrived from the peer.
    Rx(AckPackage),
    /// About to acknowledge what arrived.
    TxAck,
}

/// The state of the link as a value.
pub enum AckStateView {
    FrameDetection,
    Tx(Seq<u8>),
    Rx(Seq<u8>),
    TxAck,
}

impl View for AckState {
    type V = AckStateView;

    open spec fn view(&self) -> AckStateView {
        match self {
            AckState::FrameDetection => AckStateView::FrameDetection,
            AckState::Tx(p) => AckStateView::Tx(p.data@),
            AckState::Rx(p) => AckStateView::Rx(p.data@),
            AckState::TxAck => AckStateView::TxAck,
        }
    }
}

/// What the link learns from its surroundings.
pub enum AckEvent {
    /// The link asked to go on without waiting for anything.
    Tick,
    /// A frame with a valid checksum arrived while listening.
    Received(AckPackage),
    /// Nothing arrived while listening.
    ReceiveTimeout,
    /// A frame arrived while waiting for an acknowledgement (its checksum is not checked).
    Frame(AckPackage),
    /// Nothing arrived while waiting for an acknowledgement.
    FrameTimeout,
}

/// An event as a value.
pub enum AckEventView {
    Tick,
    Received(Seq<u8>),
    ReceiveTimeout,
    Frame(Seq<u8>),
    FrameTimeout,
}

impl View for AckEvent {
    type V = AckEventView;

    open spec fn view(&self) -> AckEventView {
        match self {
            AckEvent::Tick => AckEventView::Tick,
            AckEvent::Received(p) => AckEventView::Received(p.data@),
            AckEvent::ReceiveTimeout => AckEventView::ReceiveTimeout,
            AckEvent::Frame(p) => AckEventView::Frame(p.data@),
            AckEvent::FrameTimeout => AckEventView::FrameTimeout,
        }
    }
}

/// What the link asks of its surroundings, in order; the last action of a step says what to
/// wait for next.
pub enum AckAction {
    /// Send this frame.
    Send(AckPackage),
    /// Listen for a valid frame this many milliseconds: `Received` or `ReceiveTimeout`.
    Receive(u64),
    /// Wait for any frame this many milliseconds: `Frame` or `FrameTimeout`.
    AwaitFrame(u64),
    /// Go on at once: `Tick`.
    Tick,
    /// The transfer is over.
    Finish,
    /// Too many acknowledgements went missing: the link is broken.
    LinkError,
}

/// An action as a value.
pub enum AckActionView {
    Send(Seq<u8>),
    Receive(u64),
    AwaitFrame(u64),
    Tick,
    Finish,
    LinkError,
}

impl View for AckAction {
    type V = AckActionView;

    open spec fn view(&self) -> AckActionView {
        match self {
            AckAction::Send(p) => AckActionView::Send(p.data@),
            AckAction::Receive(ms) => AckActionView::Receive(*ms),
            AckAction::AwaitFrame(ms) => AckActionView::AwaitFrame(*ms),
            AckAction::Tick => AckActionView::Tick,
            AckAction::Finish => AckActionView::Finish,
            AckAction::LinkError => AckActionView::LinkError,
        }
    }
}

/// A list of actions as values.
pub open spec fn ack_actions_view(actions: Seq<AckAction>) -> Seq<AckActionView> {
    actions.map_values(|a: AckAction| a@)
}

/// The decisions of a stop-and-wait link: it sends `tx` frame by frame, each until the peer
/// acknowledges it, and collects what the peer sends in `rx`.
pub struct AckStateMachine {
    pub tx_offset: usize,
    pub tx: Vec<u8>,
    pub rx_offset: usize,
    pub rx: Vec<u8>,
    pub state: AckState,
    pub address: u8,
    pub byte_in_frame: usize,
    pub lost_acks: usize,
}

/// The link as a value.
#[verifier::ext_equal]
pub struct AckMachineView {
    pub tx_offset: usize,
    pub tx: Seq<u8>,
    pub rx_offset: usize,
    pub rx: Seq<u8>,
    pub state: AckStateView,
    pub address: u8,
    pub byte_in_frame: usize,
    pub lost_acks: usize,
}

impl View for AckStateMachine {
    type V = AckMachineView;

    open spec fn view(&self) -> AckMachineView {
        AckMachineView {
            tx_offset: self.tx_offset,
            tx: self.tx@,
            rx_offset: self.rx_offset,
            rx: self.rx@,
            state: self.state@,
            address: self.address,
            byte_in_frame: self.byte_in_frame,
            lost_acks: self.lost_acks,
        }
    }
}

// ---------------------------------------------------------------------------
// What a step does
// ---------------------------------------------------------------------------

/// What to wait for after deciding to detect frames: nothing when there is data to send,
/// otherwise a frame from the peer.
pub open spec fn detection_wait(m: AckMachineView) -> Seq<AckActionView> {
    if m.tx.len() == 0 {
        seq![AckActionView::Receive(TIME_OUT_MILLIS)]
    } else {
        seq![AckActionView::Tick]
    }
}

/// The first byte of the frame `tx_offset` of the data.
pub open spec fn frame_begin(m: AckMachineView) -> int {
    m.tx_offset * m.byte_in_frame
}

/// The frame at `tx_offset` is the last one: it reaches (or passes) the end of the data.
pub open spec fn is_last_frame(m: AckMachineView) -> bool {
    frame_begin(m) + m.byte_in_frame >= m.tx.len()
}

/// How many padding bytes a step fills in: the rest of the last data frame, or the whole
/// body of an acknowledgement.
pub open spec fn padding_needed(m: AckMachineView, e: AckEventView) -> int {
    match (m.state, e) {
        (AckStateView::FrameDetection, AckEventView::Tick) => if is_last_frame(m) {
            m.byte_in_frame - (m.tx.len() - frame_begin(m))
        } else {
            0
        },
        (AckStateView::TxAck, AckEventView::Tick) => m.byte_in_frame as int,
        _ => 0,
    }
}

/// The frame at `tx_offset`: a full frame from this side's address that says more follow, or
/// the rest of the data filled up with `pad`, sent from address 0 as the last frame.
pub open spec fn tx_frame(m: AckMachineView, pad: Seq<u8>) -> Seq<u8> {
    let begin = frame_begin(m);
    if is_last_frame(m) {
        ack_frame(
            m.tx.subrange(begin, m.tx.len() as int) + pad,
            (m.tx.len() - begin) as nat,
            m.tx_offset as nat,
            false,
            false,
            0,
            0,
        )
    } else {
        ack_frame(
            m.tx.subrange(begin, begin + m.byte_in_frame),
            m.byte_in_frame as nat,
            m.tx_offset as nat,
            true,
            false,
            m.address,
            0,
        )
    }
}

/// The data bytes that a received frame adds: those its length field announces, as far as
/// the frame holds them.
pub open spec fn frame_data(p: Seq<u8>) -> Seq<u8> {
    let body = p.subrange(6, p.len() - 2);
    let n = length_field(p) - 8;
    if n < body.len() {
        body.take(n)
    } else {
        body
    }
}

/// What a step does; `pad` fills in what `padding_needed` asks for.
pub open spec fn ack_step_spec(m: AckMachineView, e: AckEventView, pad: Seq<u8>) -> (
    AckMachineView,
    Seq<AckActionView>,
) {
    match m.state {
        AckStateView::FrameDetection => match e {
            AckEventView::Tick => {
                let f = tx_frame(m, pad);
                (
                    AckMachineView { state: AckStateView::Tx(f), lost_acks: 0, ..m },
                    seq![AckActionView::Send(f), AckActionView::AwaitFrame(ACK_TIME_OUT_MILLIS)],
                )
            },
            AckEventView::Received(p) => (
                AckMachineView { state: AckStateView::Rx(p), ..m },
                seq![AckActionView::Tick],
            ),
            _ => (m, detection_wait(m)),
        },
        AckStateView::Tx(f) => match e {
            AckEventView::Frame(g) => if g[4] == m.address {
                (m, seq![AckActionView::AwaitFrame(ACK_TIME_OUT_MILLIS)])
            } else if flag_ack(g[3]) && g[2] >= m.tx_offset {
                let m2 = AckMachineView { tx_offset: (g[2] + 1) as usize, lost_acks: 0, ..m };
                if !flag_more(f[3]) {
                    (m2, seq![AckActionView::Finish])
                } else {
                    (
                        AckMachineView { state: AckStateView::FrameDetection, ..m2 },
                        detection_wait(m2),
                    )
                }
            } else {
                (
                    AckMachineView { lost_acks: 0, ..m },
                    seq![AckActionView::Send(f), AckActionView::AwaitFrame(ACK_TIME_OUT_MILLIS)],
                )
            },
            _ => {
                let m2 = AckMachineView { lost_acks: (m.lost_acks + 1) as usize, ..m };
                if m2.lost_acks > LINK_ERROR_THRESHOLD {
                    (m2, seq![AckActionView::LinkError])
                } else {
                    (
                        m2,
                        seq![
                            AckActionView::Send(f),
                            AckActionView::AwaitFrame(ACK_TIME_OUT_MILLIS),
                        ],
                    )
                }
            },
        },
        AckStateView::Rx(p) => if flag_ack(p[3]) {
            (AckMachineView { state: AckStateView::FrameDetection, ..m }, detection_wait(m))
        } else if m.rx_offset != p[2] {
            (AckMachineView { state: AckStateView::TxAck, ..m }, seq![AckActionView::Tick])
        } else {
            let m2 = AckMachineView {
                rx_offset: (p[2] + 1) as usize,
                rx: m.rx + frame_data(p),
                ..m
            };
            if !flag_more(p[3]) {
                (m2, seq![AckActionView::Finish])
            } else {
                (AckMachineView { state: AckStateView::TxAck, ..m2 }, seq![AckActionView::Tick])
            }
        },
        AckStateView::TxAck => (
            AckMachineView { state: AckStateView::FrameDetection, ..m },
            seq![
                AckActionView::Send(
                    ack_frame(pad, 0, (m.rx_offset - 1) as nat, false, true, 0, 0),
                ),
            ] + detection_wait(m),
        ),
    }
}

/// The events that the link takes in a state, and nothing on which the arithmetic or the
/// slicing of a step would fail.
pub open spec fn ack_event_ok(m: AckMachineView, e: AckEventView) -> bool {
    match m.state {
        AckStateView::FrameDetection => match e {
            AckEventView::Tick => {
                &&& m.tx.len() > 0
                &&& frame_begin(m) + m.byte_in_frame <= usize::MAX
                &&& is_last_frame(m) ==> frame_begin(m) <= m.tx.len()
            },
            AckEventView::Received(_) => m.tx.len() == 0,
            AckEventView::ReceiveTimeout => m.tx.len() == 0,
            _ => false,
        },
        AckStateView::Tx(_) => match e {
            AckEventView::Frame(g) => g.len() >= 6,
            AckEventView::FrameTimeout => m.lost_acks < usize::MAX,
            _ => false,
        },
        AckStateView::Rx(p) => {
            &&& e is Tick
            &&& p.len() >= 4
            &&& !flag_ack(p[3]) && m.rx_offset == p[2] ==> {
                &&& p.len() >= 8
                &&& length_field(p) >= 8
                &&& m.rx.len() + p.len() <= usize::MAX
            }
        },
        AckStateView::TxAck => e is Tick && m.rx_offset >= 1,
    }
}

/// The link's invariant: a frame fits the length arithmetic, and a frame being sent holds its
/// flag byte.
pub open spec fn ack_machine_wf(m: AckMachineView) -> bool {
    &&& m.byte_in_frame + 8 <= usize::MAX
    &&& m.state matches AckStateView::Tx(f) ==> f.len() >= 4
}

// ---------------------------------------------------------------------------
// The link
// ---------------------------------------------------------------------------

/// A copy of a frame.
fn copy_frame(p: &AckPackage) -> (r: AckPackage)
    ensures
        r.data@ == p.data@,
{
    AckPackage { data: slice_to_vec(p.data.as_slice()) }
}

impl AckStateMachine {
    /// A link that sends frames of `byte_in_frame` data bytes from `address`, with nothing to
    /// send and nothing received.
    pub fn new(byte_in_frame: usize, address: u8) -> (r: Self)
        requires
            byte_in_frame + 8 <= usize::MAX,
        ensures
            r@ == (AckMachineView {
                tx_offset: 0,
                tx: Seq::empty(),
                rx_offset: 0,
                rx: Seq::empty(),
                state: AckStateView::FrameDetection,
                address,
                byte_in_frame,
                lost_acks: 0,
            }),
            ack_machine_wf(r@),
    {
        AckStateMachine {
            tx_offset: 0,
            tx: Vec::new(),
            rx_offset: 0,
            rx: Vec::new(),
            state: AckState::FrameDetection,
            address,
            byte_in_frame,
            lost_acks: 0,
        }
    }

    /// Queues data to send.
    pub fn append(&mut self, data: &[u8])
        ensures
            final(self)@ == (AckMachineView { tx: old(self)@.tx + data@, ..old(self)@ }),
    {
        self.tx.extend_from_slice(data);
    }

    /// What a detecting link waits for.
    fn detection_wait_actions(&self) -> (r: Vec<AckAction>)
        ensures
            ack_actions_view(r@) == detection_wait(self@),
    {
        let mut r: Vec<AckAction> = Vec::new();
        if self.tx.len() == 0 {
            r.push(AckAction::Receive(TIME_OUT_MILLIS));
        } else {
            r.push(AckAction::Tick);
        }
        assert(ack_actions_view(r@) =~= detection_wait(self@));
        r
    }

    /// What the link waits for in its current state, before any event.
    pub fn resume(&self) -> (r: Vec<AckAction>)
        requires
            ack_machine_wf(self@),
        ensures
            ack_actions_view(r@) == match self@.state {
                AckStateView::FrameDetection => detection_wait(self@),
                AckStateView::Tx(f) => seq![
                    AckActionView::Send(f),
                    AckActionView::AwaitFrame(ACK_TIME_OUT_MILLIS),
                ],
                _ => seq![AckActionView::Tick],
            },
    {
        match &self.state {
            AckState::FrameDetection => self.detection_wait_actions(),
            AckState::Tx(f) => {
                let mut r: Vec<AckAction> = Vec::new();
                r.push(AckAction::Send(copy_frame(f)));
                r.push(AckAction::AwaitFrame(ACK_TIME_OUT_MILLIS));
                assert(ack_actions_view(r@) =~= seq![
                    AckActionView::Send(self@.state->Tx_0),
                    AckActionView::AwaitFrame(ACK_TIME_OUT_MILLIS),
                ]);
                r
            },
            _ => {
                let mut r: Vec<AckAction> = Vec::new();
                r.push(AckAction::Tick);
                assert(ack_actions_view(r@) =~= seq![AckActionView::Tick]);
                r
            },
        }
    }

    /// The frame at `tx_offset`, with `pad` filling up the last one.
    fn next_frame(&self, pad: &[u8]) -> (r: AckPackage)
        requires
            ack_machine_wf(self@),
            ack_event_ok(self@, AckEventView::Tick),
            self@.state is FrameDetection,
            pad@.len() == padding_needed(self@, AckEventView::Tick),
        ensures
            r.data@ == tx_frame(self@, pad@),
    {
        let bif = self.byte_in_frame;
        let begin = self.tx_offset * bif;
        let len = self.tx.len();
        if begin + bif >= len {
            let mut data = slice_to_vec(slice_subrange(self.tx.as_slice(), begin, len));
            data.extend_from_slice(pad);
            assert(data@ =~= self.tx@.subrange(begin as int, len as int) + pad@);
            AckPackage::new(data.as_slice(), len - begin, self.tx_offset, false, false, 0, 0)
        } else {
            assert(self.tx@.subrange(begin as int, begin + bif) =~= self.tx@.subrange(
                begin as int,
                begin + bif,
            ));
            AckPackage::new(
                slice_subrange(self.tx.as_slice(), begin, begin + bif),
                bif,
                self.tx_offset,
                true,
                false,
                self.address,
                0,
            )
        }
    }

    fn on_tx(&mut self, frame: AckPackage, event: AckEvent) -> (r: Vec<AckAction>)
        requires
            ack_machine_wf(old(self)@),
            old(self)@.state == AckStateView::Tx(frame.data@),
            ack_event_ok(old(self)@, event@),
        ensures
            final(self)@ == ack_step_spec(old(self)@, event@, Seq::empty()).0,
            ack_actions_view(r@) == ack_step_spec(old(self)@, event@, Seq::empty()).1,
            ack_machine_wf(final(self)@),
    {
        let mut r: Vec<AckAction> = Vec::new();
        match event {
            AckEvent::Frame(g) => {
                let (src, _dest) = g.address();
                if src == self.address {
                    r.push(AckAction::AwaitFrame(ACK_TIME_OUT_MILLIS));
                } else {
                    self.lost_acks = 0;
                    let has_ack = g.has_ack();
                    let now_offset = g.offset();
                    if has_ack && now_offset >= self.tx_offset {
                        self.tx_offset = now_offset + 1;
                        if !frame.has_more_fragments() {
                            r.push(AckAction::Finish);
                        } else {
                            self.state = AckState::FrameDetection;
                            r = self.detection_wait_actions();
                        }
                    } else {
                        r.push(AckAction::Send(copy_frame(&frame)));
                        r.push(AckAction::AwaitFrame(ACK_TIME_OUT_MILLIS));
                    }
                }
            },
            _ => {
                self.lost_acks = self.lost_acks + 1;
                if self.lost_acks > LINK_ERROR_THRESHOLD {
                    r.push(AckAction::LinkError);
                } else {
                    r.push(AckAction::Send(copy_frame(&frame)));
                    r.push(AckAction::AwaitFrame(ACK_TIME_OUT_MILLIS));
                }
            },
        }
        assert(ack_actions_view(r@) =~= ack_step_spec(old(self)@, event@, Seq::empty()).1);
        r
    }

    fn on_rx(&mut self, frame: AckPackage) -> (r: Vec<AckAction>)
        requires
            ack_machine_wf(old(self)@),
            old(self)@.state == AckStateView::Rx(frame.data@),
            ack_event_ok(old(self)@, AckEventView::Tick),
        ensures
            final(self)@ == ack_step_spec(old(self)@, AckEventView::Tick, Seq::empty()).0,
            ack_actions_view(r@) == ack_step_spec(old(self)@, AckEventView::Tick, Seq::empty()).1,
            ack_machine_wf(final(self)@),
    {
        let mut r: Vec<AckAction> = Vec::new();
        if frame.has_ack() {
            self.state = AckState::FrameDetection;
            r = self.detection_wait_actions();
        } else if self.rx_offset != frame.offset() {
            self.state = AckState::TxAck;
            r.push(AckAction::Tick);
        } else {
            self.rx_offset = frame.offset() + 1;
            let body = frame.extract();
            let n = frame.data_len();
            let take = if n < body.len() {
                n
            } else {
                body.len()
            };
            self.rx.extend_from_slice(slice_subrange(body.as_slice(), 0, take));
            if !frame.has_more_fragments() {
                self.state = AckState::Rx(frame);
                r.push(AckAction::Finish);
            } else {
                self.state = AckState::TxAck;
                r.push(AckAction::Tick);
            }
            assert(self@.rx =~= old(self)@.rx + frame_data(frame.data@));
        }
        assert(ack_actions_view(r@) =~= ack_step_spec(old(self)@, AckEventView::Tick, Seq::empty()).1);
        r
    }

    /// Takes one event, with `pad` as the padding the step fills in, and returns what the link
    /// asks for, in order.
    pub fn step_padded(&mut self, event: AckEvent, pad: &[u8]) -> (r: Vec<AckAction>)
        requires
            ack_machine_wf(old(self)@),
            ack_event_ok(old(self)@, event@),
            pad@.len() == padding_needed(old(self)@, event@),
        ensures
            final(self)@ == ack_step_spec(old(self)@, event@, pad@).0,
            ack_actions_view(r@) == ack_step_spec(old(self)@, event@, pad@).1,
            ack_machine_wf(final(self)@),
    {
        let mut state = AckState::FrameDetection;
        std::mem::swap(&mut state, &mut self.state);
        match state {
            AckState::FrameDetection => {
                match event {
                    AckEvent::Tick => {
                        let frame = self.next_frame(pad);
                        let mut r: Vec<AckAction> = Vec::new();
                        r.push(AckAction::Send(copy_frame(&frame)));
                        r.push(AckAction::AwaitFrame(ACK_TIME_OUT_MILLIS));
                        self.lost_acks = 0;
                        self.state = AckState::Tx(frame);
                        assert(ack_actions_view(r@) =~= ack_step_spec(old(self)@, event@, pad@).1);
                        r
                    },
                    AckEvent::Received(p) => {
                        self.state = AckState::Rx(p);
                        let mut r: Vec<AckAction> = Vec::new();
                        r.push(AckAction::Tick);
                        assert(ack_actions_view(r@) =~= ack_step_spec(old(self)@, event@, pad@).1);
                        r
                    },
                    _ => self.detection_wait_actions(),
                }
            },
            AckState::Tx(frame) => {
                self.state = AckState::Tx(copy_frame(&frame));
                self.on_tx(frame, event)
            },
            AckState::Rx(frame) => {
                self.state = AckState::Rx(copy_frame(&frame));
                self.on_rx(frame)
            },
            AckState::TxAck => {
                let ack = AckPackage::new(pad, 0, self.rx_offset - 1, false, true, 0, 0);
                let mut r: Vec<AckAction> = Vec::new();
                r.push(AckAction::Send(ack));
                let mut wait = self.detection_wait_actions();
                r.append(&mut wait);
                assert(ack_actions_view(r@) =~= ack_step_spec(old(self)@, event@, pad@).1);
                r
            },
        }
    }

    /// Takes one event, fills in fresh random padding where the step needs it, and returns
    /// what the link asks for, in order.
    pub fn step(&mut self, event: AckEvent) -> (r: Vec<AckAction>)
        requires
            ack_machine_wf(old(self)@),
            ack_event_ok(old(self)@, event@),
        ensures
            exists|pad: Seq<u8>|
                pad.len() == padding_needed(old(self)@, event@) && final(self)@ == ack_step_spec(
                    old(self)@,
                    event@,
                    pad,
                ).0 && ack_actions_view(r@) == ack_step_spec(old(self)@, event@, pad).1,
            ack_machine_wf(final(self)@),
    {
        let count: usize = match (&self.state, &event) {
            (AckState::FrameDetection, AckEvent::Tick) => {
                let begin = self.tx_offset * self.byte_in_frame;
                if begin + self.byte_in_frame >= self.tx.len() {
                    self.byte_in_frame - (self.tx.len() - begin)
                } else {
                    0
                }
            },
            (AckState::TxAck, AckEvent::Tick) => self.byte_in_frame,
            _ => 0,
        };
        let pad = padding(count);
        self.step_padded(event, pad.as_slice())
    }
}

// ---------------------------------------------------------------------------
// What a frame carries across the link
// ---------------------------------------------------------------------------

/// The data bytes of the frame at `tx_offset`.
pub open spec fn frame_payload(m: AckMachineView) -> Seq<u8> {
    let begin = frame_begin(m);
    if is_last_frame(m) {
        m.tx.subrange(begin, m.tx.len() as int)
    } else {
        m.tx.subrange(begin, begin + m.byte_in_frame)
    }
}

/// A receiver that expects the offset of the sender's next frame, and gets that frame, takes
/// it, appends exactly the frame's data bytes (never the padding) to what it received, expects
/// the next offset, and finishes after the last frame or goes on to acknowledge.
pub proof fn lemma_frame_carries_data(s: AckMachineView, pad: Seq<u8>, r: AckMachineView)
    requires
        s.state is FrameDetection,
        ack_event_ok(s, AckEventView::Tick),
        pad.len() == padding_needed(s, AckEventView::Tick),
        s.byte_in_frame + 8 < 65536,
        r.state == AckStateView::Rx(tx_frame(s, pad)),
        r.rx_offset == s.tx_offset % 256,
        r.rx.len() + s.byte_in_frame + 8 <= usize::MAX,
    ensures
        ack_event_ok(r, AckEventView::Tick),
        ({
            let (r2, actions) = ack_step_spec(r, AckEventView::Tick, Seq::empty());
            &&& r2.rx == r.rx + frame_payload(s)
            &&& r2.rx_offset == s.tx_offset % 256 + 1
            &&& if is_last_frame(s) {
                actions == seq![AckActionView::Finish]
            } else {
                r2.state is TxAck && actions == seq![AckActionView::Tick]
            }
        }),
{
    let begin = frame_begin(s);
    let len = s.tx.len();
    let bif = s.byte_in_frame;
    let f = tx_frame(s, pad);
    if is_last_frame(s) {
        let data = s.tx.subrange(begin, len as int) + pad;
        assert(data.len() == bif);
        crate::ack::lemma_ack_round_trip(data, (len - begin) as nat, s.tx_offset as nat, false, false, 0, 0);
        assert(frame_data(f) =~= s.tx.subrange(begin, len as int));
    } else {
        let data = s.tx.subrange(begin, begin + bif);
        crate::ack::lemma_ack_round_trip(data, bif as nat, s.tx_offset as nat, true, false, s.address, 0);
        assert(frame_data(f) =~= data);
    }
}

/// Sender `s` is about to send frame `k` of its data and receiver `r` expects it, holding the
/// data of the frames before it; neither has anything else to do.
pub open spec fn in_step(s: AckMachineView, r: AckMachineView, k: nat) -> bool {
    &&& s.state is FrameDetection
    &&& r.state is FrameDetection
    &&& ack_machine_wf(s)
    &&& ack_machine_wf(r)
    &&& s.tx_offset == k
    &&& r.rx_offset == k
    &&& k < 256
    &&& 0 < s.byte_in_frame
    &&& s.byte_in_frame + 8 < 65536
    &&& r.byte_in_frame == s.byte_in_frame
    &&& k * s.byte_in_frame < s.tx.len()
    &&& s.tx.len() + s.byte_in_frame + 8 <= usize::MAX
    &&& r.rx == s.tx.take(k * s.byte_in_frame)
    &&& r.tx.len() == 0
    &&& s.address != 0
}

/// One round of a loss-free exchange: the sender sends frame `k` (filled up with `pad_s`), the
/// receiver takes it, and unless it was the last frame, acknowledges it (with body `pad_r`) and
/// the sender takes the acknowledgement. Returns the sender, the receiver, and the actions of
/// the receiver's last step.
pub open spec fn ack_round(s: AckMachineView, r: AckMachineView, pad_s: Seq<u8>, pad_r: Seq<u8>) -> (
    AckMachineView,
    AckMachineView,
    Seq<AckActionView>,
) {
    let (s1, _) = ack_step_spec(s, AckEventView::Tick, pad_s);
    let f = tx_frame(s, pad_s);
    let (r1, _) = ack_step_spec(r, AckEventView::Received(f), Seq::empty());
    let (r2, b2) = ack_step_spec(r1, AckEventView::Tick, Seq::empty());
    if is_last_frame(s) {
        (s1, r2, b2)
    } else {
        let (r3, b3) = ack_step_spec(r2, AckEventView::Tick, pad_r);
        let ack = ack_frame(pad_r, 0, (r2.rx_offset - 1) as nat, false, true, 0, 0);
        let (s2, _) = ack_step_spec(s1, AckEventView::Frame(ack), Seq::empty());
        (s2, r3, b3)
    }
}

/// Every step of a round is one the machines take.
pub open spec fn ack_round_ok(s: AckMachineView, r: AckMachineView, pad_s: Seq<u8>, pad_r: Seq<u8>) -> bool {
    let (s1, _) = ack_step_spec(s, AckEventView::Tick, pad_s);
    let f = tx_frame(s, pad_s);
    let (r1, _) = ack_step_spec(r, AckEventView::Received(f), Seq::empty());
    let (r2, _) = ack_step_spec(r1, AckEventView::Tick, Seq::empty());
    let ack = ack_frame(pad_r, 0, (r2.rx_offset - 1) as nat, false, true, 0, 0);
    &&& ack_event_ok(s, AckEventView::Tick)
    &&& ack_event_ok(r, AckEventView::Received(f))
    &&& ack_event_ok(r1, AckEventView::Tick)
    &&& !is_last_frame(s) ==> {
        &&& ack_event_ok(r2, AckEventView::Tick)
        &&& ack_event_ok(s1, AckEventView::Frame(ack))
    }
}

/// A loss-free round moves both sides on by one frame: the receiver then holds the data of
/// the frames up to and including `k`; after the last frame it holds all of the sender's data
/// and finishes.
pub proof fn lemma_ack_round(s: AckMachineView, r: AckMachineView, k: nat, pad_s: Seq<u8>, pad_r: Seq<u8>)
    requires
        in_step(s, r, k),
        pad_s.len() == padding_needed(s, AckEventView::Tick),
        pad_r.len() == s.byte_in_frame,
    ensures
        ack_round_ok(s, r, pad_s, pad_r),
        ({
            let (s2, r2, actions) = ack_round(s, r, pad_s, pad_r);
            if is_last_frame(s) {
                &&& r2.rx == s.tx
                &&& actions == seq![AckActionView::Finish]
            } else {
                &&& actions == seq![
                    AckActionView::Send(ack_frame(pad_r, 0, k, false, true, 0, 0)),
                    AckActionView::Receive(TIME_OUT_MILLIS),
                ]
                &&& s2 == (AckMachineView { tx_offset: (k + 1) as usize, lost_acks: 0, ..s })
                &&& r2.state is FrameDetection
                &&& r2.rx_offset == k + 1
                &&& r2.rx == s.tx.take((k + 1) * s.byte_in_frame)
                &&& r2 == (AckMachineView { rx_offset: (k + 1) as usize, rx: r2.rx, ..r })
            }
        }),
{
    let bif = s.byte_in_frame;
    let len = s.tx.len();
    let begin = k * bif;
    assert(frame_begin(s) == begin);
    let f = tx_frame(s, pad_s);
    let (r1, _) = ack_step_spec(r, AckEventView::Received(f), Seq::empty());
    assert(r.rx.len() <= len);
    lemma_frame_carries_data(s, pad_s, r1);
    assert(k % 256 == k);
    let (r2, b2) = ack_step_spec(r1, AckEventView::Tick, Seq::empty());
    assert(r2.rx =~= r.rx + frame_payload(s));
    if is_last_frame(s) {
        assert(r.rx + frame_payload(s) =~= s.tx);
    } else {
        assert(begin + bif == (k + 1) * bif) by (nonlinear_arith)
            requires
                begin == k * bif,
        ;
        assert(r.rx + frame_payload(s) =~= s.tx.take((k + 1) * bif));
        let ack = ack_frame(pad_r, 0, k, false, true, 0, 0);
        crate::ack::lemma_ack_round_trip(pad_r, 0, k, false, true, 0, 0);
        let (s1, _) = ack_step_spec(s, AckEventView::Tick, pad_s);
        let f_len = f.len();
        crate::ack::lemma_ack_round_trip(
            s.tx.subrange(begin, begin + bif),
            bif as nat,
            k,
            true,
            false,
            s.address,
            0,
        );
        assert(flag_more(f[3]));
    }
}

/// The receiver after rounds `k..n` of a loss-free exchange, the sender filling up frame `j`
/// with `pads_s[j]` and the receiver acknowledging it with body `pads_r[j]`, and the actions of
/// the receiver's last step.
pub open spec fn ack_rounds(
    s: AckMachineView,
    r: AckMachineView,
    pads_s: Seq<Seq<u8>>,
    pads_r: Seq<Seq<u8>>,
    k: nat,
    n: nat,
) -> (AckMachineView, Seq<AckActionView>)
    decreases n - k,
{
    if k >= n {
        (r, Seq::empty())
    } else {
        let (s2, r2, actions) = ack_round(s, r, pads_s[k as int], pads_r[k as int]);
        if k + 1 == n {
            (r2, actions)
        } else {
            ack_rounds(s2, r2, pads_s, pads_r, k + 1, n)
        }
    }
}

/// Every step of rounds `k..n` is one the machines take.
pub open spec fn ack_rounds_ok(
    s: AckMachineView,
    r: AckMachineView,
    pads_s: Seq<Seq<u8>>,
    pads_r: Seq<Seq<u8>>,
    k: nat,
    n: nat,
) -> bool
    decreases n - k,
{
    k < n ==> {
        let (s2, r2, _) = ack_round(s, r, pads_s[k as int], pads_r[k as int]);
        &&& ack_round_ok(s, r, pads_s[k as int], pads_r[k as int])
        &&& ack_rounds_ok(s2, r2, pads_s, pads_r, k + 1, n)
    }
}

proof fn lemma_ack_rounds(
    s: AckMachineView,
    r: AckMachineView,
    pads_s: Seq<Seq<u8>>,
    pads_r: Seq<Seq<u8>>,
    k: nat,
    n: nat,
)
    requires
        in_step(s, r, k),
        k < n,
        n <= 256,
        n == (s.tx.len() + s.byte_in_frame - 1) / (s.byte_in_frame as int),
        pads_s.len() == n,
        pads_r.len() == n,
        forall|j: int| 0 <= j < n - 1 ==> (#[trigger] pads_s[j]).len() == 0,
        pads_s[n - 1].len() == n * s.byte_in_frame - s.tx.len(),
        forall|j: int| 0 <= j < n ==> (#[trigger] pads_r[j]).len() == s.byte_in_frame,
    ensures
        ack_rounds_ok(s, r, pads_s, pads_r, k, n),
        ack_rounds(s, r, pads_s, pads_r, k, n).0.rx == s.tx,
        ack_rounds(s, r, pads_s, pads_r, k, n).1 == seq![AckActionView::Finish],
    decreases n - k,
{
    let bif = s.byte_in_frame;
    let len = s.tx.len();
    crate::tcp_layer::lemma_segments_cover(len, bif as nat);
    if k + 1 < n {
        crate::tcp_layer::lemma_segment_start(len, bif as nat, k + 1);
        assert(k * bif + bif == (k + 1) * bif) by (nonlinear_arith);
        assert(!is_last_frame(s));
    } else {
        assert(k * bif + bif == n * bif) by (nonlinear_arith)
            requires
                k + 1 == n,
        ;
        assert(is_last_frame(s));
    }
    lemma_ack_round(s, r, k, pads_s[k as int], pads_r[k as int]);
    let (s2, r2, actions) = ack_round(s, r, pads_s[k as int], pads_r[k as int]);
    if k + 1 < n {
        assert((k + 1) * bif < len);
        assert(r2.rx.len() <= len);
        assert(in_step(s2, r2, k + 1));
        lemma_ack_rounds(s2, r2, pads_s, pads_r, k + 1, n);
    } else {
        assert(ack_rounds_ok(s2, r2, pads_s, pads_r, k + 1, n));
    }
}

/// A sender with data and a receiver that exchange frames without loss, starting at the first
/// frame, take every frame and acknowledgement; the receiver ends holding exactly the sender's
/// data (never the padding) and finishes.
pub proof fn lemma_ack_transfer(
    s: AckMachineView,
    r: AckMachineView,
    pads_s: Seq<Seq<u8>>,
    pads_r: Seq<Seq<u8>>,
)
    requires
        in_step(s, r, 0),
        (s.tx.len() + s.byte_in_frame - 1) / (s.byte_in_frame as int) <= 256,
        pads_s.len() == (s.tx.len() + s.byte_in_frame - 1) / (s.byte_in_frame as int),
        pads_r.len() == pads_s.len(),
        forall|j: int| 0 <= j < pads_s.len() - 1 ==> (#[trigger] pads_s[j]).len() == 0,
        pads_s[pads_s.len() - 1].len() == pads_s.len() * s.byte_in_frame - s.tx.len(),
        forall|j: int| 0 <= j < pads_r.len() ==> (#[trigger] pads_r[j]).len() == s.byte_in_frame,
    ensures
        ack_rounds_ok(s, r, pads_s, pads_r, 0, pads_s.len()),
        ack_rounds(s, r, pads_s, pads_r, 0, pads_s.len()).0.rx == s.tx,
        ack_rounds(s, r, pads_s, pads_r, 0, pads_s.len()).1 == seq![AckActionView::Finish],
{
    let n = pads_s.len();
    assert(n >= 1) by {
        vstd::arithmetic::div_mod::lemma_div_is_ordered(
            s.byte_in_frame as int,
            s.tx.len() + s.byte_in_frame - 1,
            s.byte_in_frame as int,
        );
        vstd::arithmetic::div_mod::lemma_div_by_self(s.byte_in_frame as int);
    }
    lemma_ack_rounds(s, r, pads_s, pads_r, 0, n);
}

// ---------------------------------------------------------------------------
// Any run of the link
// ---------------------------------------------------------------------------

/// The link after it took `events` in order, the step of `events[i]` filling in `pads[i]`.
pub open spec fn ack_run(m: AckMachineView, events: Seq<AckEventView>, pads: Seq<Seq<u8>>) -> AckMachineView
    decreases events.len(),
{
    if events.len() == 0 {
        m
    } else {
        let before = ack_run(m, events.drop_last(), pads.drop_last());
        ack_step_spec(before, events.last(), pads.last()).0
    }
}

/// The data bytes of `frames`, one frame after another.
pub open spec fn frames_data(frames: Seq<Seq<u8>>) -> Seq<u8>
    decreases frames.len(),
{
    if frames.len() == 0 {
        Seq::empty()
    } else {
        frames_data(frames.drop_last()) + frame_data(frames.last())
    }
}

/// `p` is a frame that the link was handed: the one it held on entering the run, or one that
/// arrived in a `Received` event.
pub open spec fn handed_frame(m: AckMachineView, events: Seq<AckEventView>, p: Seq<u8>) -> bool {
    m.state == AckStateView::Rx(p) || exists|j: int|
        0 <= j < events.len() && #[trigger] events[j] == AckEventView::Received(p)
}

/// `frames` is what the receiving side of the link took on its way from `m` to `m2`: frames it
/// was handed, not acknowledgements, in the order of their offsets starting at the offset `m`
/// expected; it appended exactly their data bytes and expects the offset after the last.
pub open spec fn took_in_order(
    m: AckMachineView,
    events: Seq<AckEventView>,
    m2: AckMachineView,
    frames: Seq<Seq<u8>>,
) -> bool {
    &&& m2.rx == m.rx + frames_data(frames)
    &&& m2.rx_offset == m.rx_offset + frames.len()
    &&& forall|i: int|
        0 <= i < frames.len() ==> {
            &&& (#[trigger] frames[i])[2] == m.rx_offset + i
            &&& !flag_ack(frames[i][3])
            &&& handed_frame(m, events, frames[i])
        }
}

/// Whatever events a link takes, what it received grows only by the data bytes of frames it
/// was handed, taken in the order of their offsets from the offset it expected: a frame out of
/// order, a repeated one or an acknowledgement adds nothing.
pub proof fn lemma_rx_in_order(m: AckMachineView, events: Seq<AckEventView>, pads: Seq<Seq<u8>>)
    requires
        pads.len() == events.len(),
    ensures
        exists|frames: Seq<Seq<u8>>| took_in_order(m, events, ack_run(m, events, pads), frames),
        ack_run(m, events, pads).state matches AckStateView::Rx(p) ==> handed_frame(m, events, p),
    decreases events.len(),
{
    if events.len() == 0 {
        assert(took_in_order(m, events, m, Seq::empty()));
    } else {
        let ev = events.drop_last();
        let pd = pads.drop_last();
        lemma_rx_in_order(m, ev, pd);
        let before = ack_run(m, ev, pd);
        let frames = choose|frames: Seq<Seq<u8>>| took_in_order(m, ev, before, frames);
        let after = ack_run(m, events, pads);
        assert(after == ack_step_spec(before, events.last(), pads.last()).0);
        assert forall|p: Seq<u8>| handed_frame(m, ev, p) implies handed_frame(m, events, p) by {
            if m.state != AckStateView::Rx(p) {
                let j = choose|j: int| 0 <= j < ev.len() && #[trigger] ev[j] == AckEventView::Received(p);
                assert(events[j] == AckEventView::Received(p));
            }
        }
        if let AckStateView::Rx(p) = after.state {
            if before.state is FrameDetection {
                assert(events[events.len() - 1] == AckEventView::Received(p));
            }
        }
        match before.state {
            AckStateView::Rx(p) => {
                if !flag_ack(p[3]) && before.rx_offset == p[2] {
                    let more = frames.push(p);
                    assert(more.drop_last() =~= frames);
                    assert(frames_data(more) == frames_data(frames) + frame_data(p));
                    assert(after.rx =~= m.rx + frames_data(more));
                    assert(handed_frame(m, events, p));
                    assert forall|i: int| 0 <= i < more.len() implies {
                        &&& (#[trigger] more[i])[2] == m.rx_offset + i
                        &&& !flag_ack(more[i][3])
                        &&& handed_frame(m, events, more[i])
                    } by {
                        if i < frames.len() {
                            assert(more[i] == frames[i]);
                        }
                    }
                    assert(took_in_order(m, events, after, more));
                } else {
                    assert(took_in_order(m, events, after, frames));
                }
            },
            _ => {
                assert(took_in_order(m, events, after, frames));
            },
        }
    }
}

/// Consecutive acknowledgement timeouts, one after another, and what the link asks for on the
/// way.
pub open spec fn timeouts(m: AckMachineView, k: nat) -> (AckMachineView, Seq<AckActionView>)
    decreases k,
{
    if k == 0 {
        (m, Seq::empty())
    } else {
        let (before, actions) = timeouts(m, (k - 1) as nat);
        let (after, more) = ack_step_spec(before, AckEventView::FrameTimeout, Seq::empty());
        (after, actions + more)
    }
}

/// `f` sent again and waited for, `k` times.
pub open spec fn resends(f: Seq<u8>, k: nat) -> Seq<AckActionView>
    decreases k,
{
    if k == 0 {
        Seq::empty()
    } else {
        resends(f, (k - 1) as nat) + seq![
            AckActionView::Send(f),
            AckActionView::AwaitFrame(ACK_TIME_OUT_MILLIS),
        ]
    }
}

/// A link waiting for the acknowledgement of frame `f`, after `k` timeouts in a row from a
/// fresh send, still holds `f` at the same offset and has sent it again each time, as long as
/// `k` stays within the threshold; the timeout after that reports the link broken.
pub proof fn lemma_resend_until_threshold(m: AckMachineView, f: Seq<u8>, k: nat)
    requires
        m.state == AckStateView::Tx(f),
        m.lost_acks == 0,
        k <= LINK_ERROR_THRESHOLD,
    ensures
        timeouts(m, k).0 == (AckMachineView { lost_acks: k as usize, ..m }),
        timeouts(m, k).1 == resends(f, k),
        k == LINK_ERROR_THRESHOLD ==> ack_step_spec(
            timeouts(m, k).0,
            AckEventView::FrameTimeout,
            Seq::empty(),
        ).1 == seq![AckActionView::LinkError],
    decreases k,
{
    if k > 0 {
        lemma_resend_until_threshold(m, f, (k - 1) as nat);
    }
}

/// `e` is an acknowledgement from the peer of the frame being sent or a later one.
pub open spec fn acknowledges(m: AckMachineView, e: AckEventView) -> bool {
    e matches AckEventView::Frame(g) && g[4] != m.address && flag_ack(g[3]) && g[2] >= m.tx_offset
}

/// A link waiting for the acknowledgement of frame `f` keeps it, at the same offset, on every
/// event but an acknowledgement from the peer of this frame or a later one, which moves the
/// offset past it. While it keeps it, it waits again, or sends `f` again and waits, or reports
/// the link broken when the missing acknowledgements pass the threshold.
pub proof fn lemma_sender_keeps_frame(m: AckMachineView, f: Seq<u8>, e: AckEventView, pad: Seq<u8>)
    requires
        m.state == AckStateView::Tx(f),
        ack_event_ok(m, e),
    ensures
        ({
            let (m2, actions) = ack_step_spec(m, e, pad);
            if acknowledges(m, e) {
                m2.tx_offset == e->Frame_0[2] + 1
            } else {
                &&& m2.state == AckStateView::Tx(f)
                &&& m2.tx_offset == m.tx_offset
                &&& m2.tx == m.tx
                &&& {
                    ||| actions == seq![AckActionView::AwaitFrame(ACK_TIME_OUT_MILLIS)]
                    ||| actions == seq![
                        AckActionView::Send(f),
                        AckActionView::AwaitFrame(ACK_TIME_OUT_MILLIS),
                    ]
                    ||| (e is FrameTimeout && m.lost_acks + 1 > LINK_ERROR_THRESHOLD && actions
                        == seq![AckActionView::LinkError])
                }
            }
        }),
{
}

/// A frame that arrived out of order leaves what was received as it is, and the link answers
/// it by acknowledging again the last frame it took in order (offset `rx_offset - 1`); an
/// acknowledgement that arrived while listening is ignored.
pub proof fn lemma_receiver_reacks(m: AckMachineView, p: Seq<u8>, pad: Seq<u8>)
    requires
        m.state == AckStateView::Rx(p),
    ensures
        ({
            let (m1, a1) = ack_step_spec(m, AckEventView::Tick, Seq::empty());
            &&& flag_ack(p[3]) ==> {
                &&& m1 == (AckMachineView { state: AckStateView::FrameDetection, ..m })
                &&& a1 == detection_wait(m)
            }
            &&& !flag_ack(p[3]) && m.rx_offset != p[2] ==> {
                let (m2, a2) = ack_step_spec(m1, AckEventView::Tick, pad);
                &&& m1 == (AckMachineView { state: AckStateView::TxAck, ..m })
                &&& a1 == seq![AckActionView::Tick]
                &&& m2 == (AckMachineView { state: AckStateView::FrameDetection, ..m })
                &&& a2 == seq![
                    AckActionView::Send(
                        ack_frame(pad, 0, (m.rx_offset - 1) as nat, false, true, 0, 0),
                    ),
                ] + detection_wait(m)
            }
        }),
{
}

} // verus!
