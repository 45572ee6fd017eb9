//! The per-connection protocol state machine: it consumes raw bytes at
//! arbitrary read boundaries, reassembles fragmented messages, reacts to
//! control frames, manages the keepalive flags and the two-priority send
//! queue, and hands back the dispatch outputs and immediate writes that the
//! surrounding I/O loop must perform.

use vstd::prelude::*;

verus! {

use vstd::utf8::{valid_utf8, decode_utf8};
use crate::frame::{
    Frame,
    FrameView,
    Opcode,
    CloseCode,
    frame_wf,
    frame_full,
    frame_views,
    frames_payload,
    mask_seq,
    spec_is_control,
    spec_closing_code,
    close_payload,
    encode_server,
    need_more,
    header_bad,
    parsed_frame,
    frame_consumed,
};
use crate::http::{HttpHeader, HttpView, render_response, response_101_fields};
use crate::handshake::{
    handshake_response,
    handshake_key,
    accept_field_name,
    accept_key_of,
};
use crate::packet::{Packet, packet_event, packet_payload};
use crate::{Message, MessageKind};

/// The life stages of one connection. The set is ordered; which stage a
/// connection is in decides whether bytes are handshake or frames, and
/// whether the send queue is live.
#[derive(Clone, Copy, Debug, PartialEq, Eq, Structural)]
pub enum ConnectionState {
    Disconnected,
    CloseFromServer,
    WaitingForConnection,
    WaitingForFrames,
    InDataPayload,
}

/// Whether the send queue is live: every state after a completed handshake
/// and before the disconnect, the server-initiated closing stage included,
/// so that a queued close frame still reaches the peer.
pub open spec fn queue_active(s: ConnectionState) -> bool {
    s != ConnectionState::Disconnected && s != ConnectionState::WaitingForConnection
}

/// One action or dispatch the engine hands back to its caller.
pub enum Output {
    /// Bytes to write to the socket at once, bypassing the send queue.
    Send(Vec<u8>),
    /// A completed text message, for the message callbacks.
    Message(Message),
    /// The parsed envelope of a completed text message, for the callbacks
    /// registered under its event name.
    Event(Packet),
    /// The reassembled payload of a completed binary message.
    Bytes(Vec<u8>),
    /// A processed close frame: its status code and reason text, for the
    /// close callbacks, handed out before the connection ends.
    Closed(CloseCode, String),
}

/// The mathematical value of an `Output`.
pub enum OutputView {
    Send(Seq<u8>),
    Message(Seq<char>),
    Event(Seq<char>, Seq<char>),
    Bytes(Seq<u8>),
    Closed(CloseCode, Seq<char>),
}

impl View for Output {
    type V = OutputView;

    open spec fn view(&self) -> OutputView {
        match self {
            Output::Send(b) => OutputView::Send(b@),
            Output::Message(m) => OutputView::Message(m.string@),
            Output::Event(p) => OutputView::Event(p.event@, p.payload@),
            Output::Bytes(b) => OutputView::Bytes(b@),
            Output::Closed(c, s) => OutputView::Closed(*c, s@),
        }
    }
}

pub open spec fn outs_view(v: Seq<Output>) -> Seq<OutputView> {
    v.map_values(|o: Output| o@)
}

/// The mathematical value of a connection.
#[verifier::ext_equal]
pub struct ConnView {
    pub state: ConnectionState,
    pub waiting_for_pong: bool,
    pub high: Seq<FrameView>,
    pub normal: Seq<FrameView>,
    pub frags: Seq<FrameView>,
    pub buffer: Seq<u8>,
    pub request: Option<HttpView>,
}

/// One server-side WebSocket connection, sans socket: the protocol state,
/// the fragment buffer of the in-progress message, the two-priority send
/// queue, and the unconsumed bytes carried across reads.
pub struct Connection {
    state: ConnectionState,
    waiting_for_pong: bool,
    send_queue: Vec<Frame>,
    send_queue_high_prio: Vec<Frame>,
    frames: Vec<Frame>,
    buffer: Vec<u8>,
    request_header: Option<HttpHeader>,
}

impl View for Connection {
    type V = ConnView;

    closed spec fn view(&self) -> ConnView {
        ConnView {
            state: self.state,
            waiting_for_pong: self.waiting_for_pong,
            high: frame_views(self.send_queue_high_prio@),
            normal: frame_views(self.send_queue@),
            frags: frame_views(self.frames@),
            buffer: self.buffer@,
            request: match self.request_header {
                Some(ref h) => Some(h@),
                None => None,
            },
        }
    }
}

/// The last frame of the fragment buffer is still filling.
pub open spec fn filling(c: ConnView) -> bool {
    c.frags.len() > 0 && !frame_full(c.frags.last())
}

/// The validated fragments of the buffer: every one complete, non-final,
/// the first a data opcode and the rest continuations.
pub open spec fn frag_prefix_ok(fs: Seq<FrameView>, k: int) -> bool {
    forall|i: int|
        0 <= i < k ==> {
            &&& frame_full(#[trigger] fs[i])
            &&& !fs[i].fin
            &&& if i == 0 {
                fs[i].opcode == Opcode::Text || fs[i].opcode == Opcode::Binary
            } else {
                fs[i].opcode == Opcode::Continuation
            }
        }
}

/// The connection invariant: queued frames are complete and well formed,
/// the fragment buffer holds validated fragments before an optional frame
/// still filling, and the state agrees with the buffer.
pub open spec fn conn_wf(c: ConnView) -> bool {
    &&& forall|i: int| 0 <= i < c.frags.len() ==> frame_wf(#[trigger] c.frags[i])
    &&& frag_prefix_ok(c.frags, c.frags.len() - (if filling(c) {
        1int
    } else {
        0int
    }))
    &&& (c.state == ConnectionState::InDataPayload ==> filling(c))
    &&& (filling(c) ==> c.state == ConnectionState::InDataPayload || c.state
        == ConnectionState::CloseFromServer)
    &&& (c.state == ConnectionState::WaitingForConnection ==> c.frags.len() == 0)
    &&& forall|i: int|
        0 <= i < c.high.len() ==> frame_wf(#[trigger] c.high[i]) && frame_full(c.high[i])
    &&& forall|i: int|
        0 <= i < c.normal.len() ==> frame_wf(#[trigger] c.normal[i]) && frame_full(c.normal[i])
}

/// The view of the close frame `Frame::closing` builds.
pub open spec fn closing_view(code: CloseCode) -> FrameView {
    FrameView {
        opcode: Opcode::ConnectionClose,
        fin: true,
        payload: close_payload(code),
        declared: 2,
        header: 0,
        mask: None,
    }
}

/// The view of the pong frame that answers a ping carrying `payload`.
pub open spec fn pong_view(payload: Seq<u8>) -> FrameView {
    FrameView {
        opcode: Opcode::Pong,
        fin: true,
        payload: payload,
        declared: payload.len(),
        header: 0,
        mask: None,
    }
}

/// The view of the ping frame the keepalive sends.
pub open spec fn ping_view() -> FrameView {
    FrameView {
        opcode: Opcode::Ping,
        fin: true,
        payload: Seq::empty(),
        declared: 0,
        header: 0,
        mask: None,
    }
}

/// Entering the server-initiated close: the state moves and a close frame
/// joins the normal queue, behind any queued data frames.
pub open spec fn close_step(c: ConnView, code: CloseCode) -> ConnView {
    ConnView {
        state: ConnectionState::CloseFromServer,
        normal: c.normal.push(closing_view(code)),
        ..c
    }
}

/// What a processed close-frame payload yields: the status code, with the
/// designated fallbacks for a short payload or a malformed reason.
pub open spec fn close_code_of(p: Seq<u8>) -> CloseCode {
    if p.len() < 2 {
        CloseCode::ProtocolError
    } else if !valid_utf8(p.skip(2)) {
        CloseCode::InvalidData
    } else {
        spec_closing_code(p)
    }
}

/// The reason text of a processed close-frame payload; empty when absent
/// or malformed.
pub open spec fn close_reason_of(p: Seq<u8>) -> Seq<char> {
    if p.len() >= 2 && valid_utf8(p.skip(2)) {
        decode_utf8(p.skip(2))
    } else {
        Seq::empty()
    }
}

/// The outcome of processing one complete frame.
pub struct Step {
    pub conn: ConnView,
    pub outs: Seq<OutputView>,
    pub done: bool,
}

/// The transition for one complete frame `f` against connection `c`, whose
/// fragment buffer holds the prior fragments only.
///
/// Control frames are handled without touching the fragment buffer; an
/// oversized or non-final control frame, a fresh data opcode mid-fragment
/// and a continuation with nothing to continue all close the connection
/// with a protocol error; a final data frame dispatches the reassembled
/// message and clears the buffer.
pub open spec fn frame_step(c: ConnView, f: FrameView) -> Step {
    if spec_is_control(f.opcode) {
        if f.payload.len() > 125 || !f.fin {
            Step { conn: close_step(c, CloseCode::ProtocolError), outs: Seq::empty(), done: true }
        } else if f.opcode == Opcode::ConnectionClose {
            let code = close_code_of(f.payload);
            let reason = close_reason_of(f.payload);
            let outs = if c.state == ConnectionState::CloseFromServer {
                seq![OutputView::Closed(code, reason)]
            } else {
                seq![
                    OutputView::Closed(code, reason),
                    OutputView::Send(encode_server(closing_view(code))),
                ]
            };
            Step { conn: ConnView { state: ConnectionState::Disconnected, ..c }, outs, done: true }
        } else if f.opcode == Opcode::Ping {
            Step {
                conn: ConnView { high: c.high.push(pong_view(f.payload)), ..c },
                outs: Seq::empty(),
                done: false,
            }
        } else {
            Step { conn: ConnView { waiting_for_pong: false, ..c }, outs: Seq::empty(), done: false }
        }
    } else {
        if c.frags.len() > 0 && f.opcode != Opcode::Continuation {
            Step { conn: close_step(c, CloseCode::ProtocolError), outs: Seq::empty(), done: true }
        } else if f.opcode == Opcode::Continuation && c.frags.len() == 0 {
            Step { conn: close_step(c, CloseCode::ProtocolError), outs: Seq::empty(), done: true }
        } else if !f.fin {
            Step { conn: ConnView { frags: c.frags.push(f), ..c }, outs: Seq::empty(), done: false }
        } else {
            let ftype = if f.opcode == Opcode::Continuation {
                c.frags[0].opcode
            } else {
                f.opcode
            };
            let data = frames_payload(c.frags.push(f));
            if ftype == Opcode::Text {
                if valid_utf8(data) {
                    let dec = decode_utf8(data);
                    Step {
                        conn: ConnView { frags: Seq::empty(), ..c },
                        outs: seq![
                            OutputView::Message(dec),
                            OutputView::Event(packet_event(dec), packet_payload(dec)),
                        ],
                        done: false,
                    }
                } else {
                    Step {
                        conn: close_step(c, CloseCode::InvalidData),
                        outs: Seq::empty(),
                        done: true,
                    }
                }
            } else {
                Step {
                    conn: ConnView { frags: Seq::empty(), ..c },
                    outs: seq![OutputView::Bytes(data)],
                    done: false,
                }
            }
        }
    }
}

/// The 101 response head a valid key earns.
pub open spec fn upgrade_view(k: Seq<u8>) -> HttpView {
    HttpView {
        status: 101,
        request_line: Seq::empty(),
        fields: response_101_fields().push((accept_field_name(), accept_key_of(k))),
    }
}

/// The 400 response head everything else earns.
pub open spec fn reject_view() -> HttpView {
    HttpView { status: 400, request_line: Seq::empty(), fields: Seq::empty() }
}

/// The outcome of one processing step over a raw buffer.
pub struct RawStep {
    pub conn: ConnView,
    pub outs: Seq<OutputView>,
    pub consumed: int,
    pub done: bool,
}

/// One processing step against the front of `buf`: handshake bytes while
/// waiting for the connection, else frame bytes — a new header, or more
/// payload for the frame still filling. `consumed` is the authoritative
/// cursor: how many bytes of `buf` this step used up.
pub open spec fn raw_step(c: ConnView, buf: Seq<u8>) -> RawStep {
    if c.state == ConnectionState::Disconnected {
        RawStep { conn: c, outs: Seq::empty(), consumed: 0, done: true }
    } else if c.state == ConnectionState::WaitingForConnection {
        match handshake_key(buf) {
            Some(k) => RawStep {
                conn: ConnView {
                    state: ConnectionState::WaitingForFrames,
                    request: Some(crate::http::spec_parse_http(buf)->Some_0),
                    ..c
                },
                outs: seq![OutputView::Send(render_response(upgrade_view(k)))],
                consumed: buf.len() as int,
                done: false,
            },
            None => RawStep {
                conn: ConnView { state: ConnectionState::Disconnected, ..c },
                outs: seq![OutputView::Send(render_response(reject_view()))],
                consumed: buf.len() as int,
                done: true,
            },
        }
    } else if filling(c) {
        let lf = c.frags.last();
        let need = if lf.declared >= lf.payload.len() {
            lf.declared - lf.payload.len()
        } else {
            0int
        };
        let used = if buf.len() < need {
            buf.len() as int
        } else {
            need
        };
        let lf2 = FrameView {
            payload: lf.payload + (match lf.mask {
                Some(k) => mask_seq(buf.take(used), k, lf.payload.len()),
                None => buf.take(used),
            }),
            ..lf
        };
        if !frame_full(lf2) {
            RawStep {
                conn: ConnView { frags: c.frags.update(c.frags.len() - 1, lf2), ..c },
                outs: Seq::empty(),
                consumed: used,
                done: false,
            }
        } else {
            let nstate = if c.state == ConnectionState::CloseFromServer {
                ConnectionState::CloseFromServer
            } else {
                ConnectionState::WaitingForFrames
            };
            let s = frame_step(
                ConnView { frags: c.frags.drop_last(), state: nstate, ..c },
                lf2,
            );
            RawStep { conn: s.conn, outs: s.outs, consumed: used, done: s.done }
        }
    } else {
        if need_more(buf) {
            RawStep { conn: c, outs: Seq::empty(), consumed: 0, done: false }
        } else if header_bad(buf) {
            RawStep {
                conn: close_step(c, CloseCode::ProtocolError),
                outs: Seq::empty(),
                consumed: buf.len() as int,
                done: true,
            }
        } else {
            let f = parsed_frame(buf);
            if !frame_full(f) {
                let nstate = if c.state == ConnectionState::CloseFromServer {
                    ConnectionState::CloseFromServer
                } else {
                    ConnectionState::InDataPayload
                };
                RawStep {
                    conn: ConnView { frags: c.frags.push(f), state: nstate, ..c },
                    outs: Seq::empty(),
                    consumed: frame_consumed(buf) as int,
                    done: false,
                }
            } else {
                let s = frame_step(c, f);
                RawStep {
                    conn: s.conn,
                    outs: s.outs,
                    consumed: frame_consumed(buf) as int,
                    done: s.done,
                }
            }
        }
    }
}

/// One processing step consumes no more than it was given.
pub proof fn lemma_raw_step_consumed(c: ConnView, buf: Seq<u8>)
    ensures
        0 <= raw_step(c, buf).consumed <= buf.len(),
{
    if c.state != ConnectionState::Disconnected && c.state != ConnectionState::WaitingForConnection
        && !filling(c) && !need_more(buf) {
        assert(crate::frame::header_len(buf) <= buf.len());
        assert(frame_consumed(buf) <= buf.len());
    }
}

/// Iterated processing of `data`, exactly as the read loop drives it: step
/// after step, stopping when a step is terminal, consumes nothing, or the
/// data runs out; what no step consumed stays in the carry-over buffer.
pub open spec fn feed_spec(c: ConnView, data: Seq<u8>) -> (ConnView, Seq<OutputView>, bool)
    decreases data.len() via feed_spec_decreases
{
    if data.len() == 0 {
        (ConnView { buffer: data, ..c }, Seq::empty(), false)
    } else {
        let s = raw_step(c, data);
        if s.done {
            (ConnView { buffer: data.skip(s.consumed), ..s.conn }, s.outs, true)
        } else if s.consumed == 0 {
            (ConnView { buffer: data, ..s.conn }, s.outs, false)
        } else {
            let rec = feed_spec(s.conn, data.skip(s.consumed));
            (rec.0, s.outs + rec.1, rec.2)
        }
    }
}

#[via_fn]
proof fn feed_spec_decreases(c: ConnView, data: Seq<u8>) {
    if data.len() > 0 {
        lemma_raw_step_consumed(c, data);
    }
}

/// The view of the text frame carrying `s`.
pub open spec fn text_view(s: Seq<char>) -> FrameView {
    FrameView {
        opcode: Opcode::Text,
        fin: true,
        payload: vstd::utf8::encode_utf8(s),
        declared: vstd::utf8::encode_utf8(s).len(),
        header: 0,
        mask: None,
    }
}

/// The view of the binary frame carrying `b`.
pub open spec fn bytes_view(b: Seq<u8>) -> FrameView {
    FrameView { opcode: Opcode::Binary, fin: true, payload: b, declared: b.len(), header: 0, mask: None }
}

impl Connection {
    /// A fresh connection awaiting its handshake, with empty queues and
    /// buffers.
    pub fn new() -> (c: Connection)
        ensures
            c@ == (ConnView {
                state: ConnectionState::WaitingForConnection,
                waiting_for_pong: false,
                high: Seq::empty(),
                normal: Seq::empty(),
                frags: Seq::empty(),
                buffer: Seq::empty(),
                request: None,
            }),
            conn_wf(c@),
    {
        let c = Connection {
            state: ConnectionState::WaitingForConnection,
            waiting_for_pong: false,
            send_queue: Vec::new(),
            send_queue_high_prio: Vec::new(),
            frames: Vec::new(),
            buffer: Vec::new(),
            request_header: None,
        };
        proof {
            assert(c@ =~~= (ConnView {
                state: ConnectionState::WaitingForConnection,
                waiting_for_pong: false,
                high: Seq::empty(),
                normal: Seq::empty(),
                frags: Seq::empty(),
                buffer: Seq::empty(),
                request: None,
            }));
        }
        c
    }

    /// The connection's current stage.
    pub fn state(&self) -> (r: ConnectionState)
        ensures
            r == self@.state,
    {
        self.state
    }

    /// Whether a ping is outstanding and its pong still owed.
    pub fn waiting_for_pong(&self) -> (r: bool)
        ensures
            r == self@.waiting_for_pong,
    {
        self.waiting_for_pong
    }

    /// The request head stored by a successful handshake.
    pub fn request_header(&self) -> (r: &Option<HttpHeader>)
        ensures
            match r {
                Some(h) => self@.request == Some(h@),
                None => self@.request is None,
            },
    {
        &self.request_header
    }

    /// Queue a complete frame at normal priority.
    pub fn send_frame(&mut self, frame: Frame)
        requires
            conn_wf(old(self)@),
            frame_wf(frame@),
            frame_full(frame@),
        ensures
            conn_wf(final(self)@),
            final(self)@ == (ConnView { normal: old(self)@.normal.push(frame@), ..old(self)@ }),
    {
        let ghost fv = frame@;
        self.send_queue.push(frame);
        proof {
            assert(frame_views(self.send_queue@) =~= frame_views(old(self).send_queue@).push(fv));
            assert(self@ =~~= (ConnView { normal: old(self)@.normal.push(fv), ..old(self)@ }));
        }
    }

    /// Queue a text frame carrying `message`.
    pub fn send_message(&mut self, message: String)
        requires
            conn_wf(old(self)@),
        ensures
            conn_wf(final(self)@),
            final(self)@ == (ConnView {
                normal: old(self)@.normal.push(text_view(message@)),
                ..old(self)@
            }),
    {
        let ghost m = message@;
        let f = Frame::text(message);
        proof {
            assert(f@ =~~= text_view(m));
        }
        self.send_frame(f);
    }

    /// Queue a binary frame carrying a copy of `bytes`.
    pub fn send_bytes(&mut self, bytes: &Vec<u8>)
        requires
            conn_wf(old(self)@),
        ensures
            conn_wf(final(self)@),
            final(self)@ == (ConnView {
                normal: old(self)@.normal.push(bytes_view(bytes@)),
                ..old(self)@
            }),
    {
        let mut data: Vec<u8> = Vec::new();
        crate::http::append_bytes(&mut data, bytes.as_slice());
        let f = Frame::bytes(data);
        proof {
            assert(f@ =~~= bytes_view(bytes@));
        }
        self.send_frame(f);
    }

    /// Queue a text frame carrying the envelope `"<event>:<payload>"`.
    pub fn emit(&mut self, event: String, payload: String)
        requires
            conn_wf(old(self)@),
        ensures
            conn_wf(final(self)@),
            final(self)@ == (ConnView {
                normal: old(self)@.normal.push(text_view(event@ + seq![':'] + payload@)),
                ..old(self)@
            }),
    {
        let s = Packet::to_string(event, payload);
        self.send_message(s);
    }

    /// Begin the server-initiated close: move to `CloseFromServer` and queue
    /// a close frame at normal priority, behind any queued data frames.
    pub fn close(&mut self, statuscode: CloseCode)
        requires
            conn_wf(old(self)@),
        ensures
            conn_wf(final(self)@),
            final(self)@ == close_step(old(self)@, statuscode),
    {
        self.state = ConnectionState::CloseFromServer;
        let f = Frame::closing(statuscode);
        proof {
            assert(f@ =~~= closing_view(statuscode));
        }
        let ghost fv = f@;
        self.send_queue.push(f);
        proof {
            assert(frame_views(self.send_queue@) =~= frame_views(old(self).send_queue@).push(fv));
            assert(self@ =~~= close_step(old(self)@, statuscode));
        }
    }

    /// Queue a keepalive ping at high priority and note that a pong is owed.
    fn send_ping(&mut self)
        requires
            conn_wf(old(self)@),
        ensures
            conn_wf(final(self)@),
            final(self)@ == (ConnView {
                waiting_for_pong: true,
                high: old(self)@.high.push(ping_view()),
                ..old(self)@
            }),
    {
        let f = Frame::ping();
        proof {
            assert(f@ =~~= ping_view());
        }
        let ghost fv = f@;
        self.waiting_for_pong = true;
        self.send_queue_high_prio.push(f);
        proof {
            assert(frame_views(self.send_queue_high_prio@) =~= frame_views(
                old(self).send_queue_high_prio@,
            ).push(fv));
            assert(self@ =~~= (ConnView {
                waiting_for_pong: true,
                high: old(self)@.high.push(ping_view()),
                ..old(self)@
            }));
        }
    }

    /// Queue the pong answering `frame` at high priority, echoing its
    /// payload.
    fn send_pong(&mut self, frame: &Frame)
        requires
            conn_wf(old(self)@),
            frame_wf(frame@),
        ensures
            conn_wf(final(self)@),
            final(self)@ == (ConnView {
                high: old(self)@.high.push(pong_view(frame@.payload)),
                ..old(self)@
            }),
    {
        let mut data: Vec<u8> = Vec::new();
        crate::http::append_bytes(&mut data, frame.payload().as_slice());
        let f = Frame::pong_with(data);
        proof {
            assert(f@ =~~= pong_view(frame@.payload));
        }
        let ghost fv = f@;
        self.send_queue_high_prio.push(f);
        proof {
            assert(frame_views(self.send_queue_high_prio@) =~= frame_views(
                old(self).send_queue_high_prio@,
            ).push(fv));
            assert(self@ =~~= (ConnView {
                high: old(self)@.high.push(pong_view(frame@.payload)),
                ..old(self)@
            }));
        }
    }

    /// The keepalive decision when a read times out idle: with a pong
    /// already outstanding the peer is presumed dead and the connection
    /// drops; otherwise exactly one ping is queued and reading goes on.
    pub fn on_idle_timeout(&mut self) -> (keep_going: bool)
        requires
            conn_wf(old(self)@),
        ensures
            conn_wf(final(self)@),
            old(self)@.waiting_for_pong ==> !keep_going && final(self)@ == old(self)@,
            !old(self)@.waiting_for_pong ==> keep_going && final(self)@ == (ConnView {
                waiting_for_pong: true,
                high: old(self)@.high.push(ping_view()),
                ..old(self)@
            }),
    {
        if self.waiting_for_pong {
            false
        } else {
            self.send_ping();
            true
        }
    }

    /// How long a read may wait: a tight bound while closing from this
    /// side, the idle keepalive timeout otherwise.
    pub fn read_timeout_secs(&self) -> (r: u64)
        ensures
            r == if self@.state == ConnectionState::CloseFromServer {
                2int
            } else {
                60int
            },
    {
        if self.state == ConnectionState::CloseFromServer {
            2
        } else {
            60
        }
    }

    /// Drain the send queue for one flush: every high-priority frame first,
    /// then every normal frame, each encoded for the wire, in FIFO order
    /// within each class; both queues are left empty. Before the handshake
    /// and after disconnect the queue is not live and nothing is drained.
    pub fn take_outgoing(&mut self) -> (r: Vec<Vec<u8>>)
        requires
            conn_wf(old(self)@),
        ensures
            conn_wf(final(self)@),
            queue_active(old(self)@.state) ==> ({
                let q = old(self)@.high + old(self)@.normal;
                &&& r@.len() == q.len()
                &&& (forall|i: int| 0 <= i < q.len() ==> #[trigger] r@[i]@ == encode_server(q[i]))
                &&& final(self)@ == (ConnView {
                    high: Seq::empty(),
                    normal: Seq::empty(),
                    ..old(self)@
                })
            }),
            !queue_active(old(self)@.state) ==> r@.len() == 0 && final(self)@ == old(self)@,
    {
        let mut out: Vec<Vec<u8>> = Vec::new();
        if self.state == ConnectionState::Disconnected || self.state
            == ConnectionState::WaitingForConnection {
            return out;
        }
        let ghost q = old(self)@.high + old(self)@.normal;
        let mut i: usize = 0;
        while i < self.send_queue_high_prio.len()
            invariant
                conn_wf(self@),
                self == old(self),
                0 <= i <= self.send_queue_high_prio@.len(),
                q == self@.high + self@.normal,
                out@.len() == i,
                forall|t: int| 0 <= t < i ==> #[trigger] out@[t]@ == encode_server(q[t]),
            decreases self.send_queue_high_prio@.len() - i,
        {
            proof {
                assert(self@.high[i as int] == self.send_queue_high_prio@[i as int]@);
            }
            out.push(self.send_queue_high_prio[i].as_bytes());
            i = i + 1;
        }
        let ghost nh = old(self)@.high.len();
        let mut j: usize = 0;
        while j < self.send_queue.len()
            invariant
                conn_wf(self@),
                self == old(self),
                0 <= j <= self.send_queue@.len(),
                q == self@.high + self@.normal,
                nh == self@.high.len(),
                out@.len() == nh + j,
                forall|t: int| 0 <= t < nh + j ==> #[trigger] out@[t]@ == encode_server(q[t]),
            decreases self.send_queue@.len() - j,
        {
            proof {
                assert(self@.normal[j as int] == self.send_queue@[j as int]@);
                assert(q[nh + j] == self@.normal[j as int]);
            }
            out.push(self.send_queue[j].as_bytes());
            j = j + 1;
        }
        self.send_queue_high_prio.clear();
        self.send_queue.clear();
        proof {
            assert(frame_views(self.send_queue_high_prio@) =~= Seq::<FrameView>::empty());
            assert(frame_views(self.send_queue@) =~= Seq::<FrameView>::empty());
            assert(self@ =~~= (ConnView {
                high: Seq::empty(),
                normal: Seq::empty(),
                ..old(self)@
            }));
        }
        out
    }
}

/// What the engine hands back for one processing step.
pub struct StepResult {
    pub consumed: usize,
    pub done: bool,
    pub outputs: Vec<Output>,
}

/// What the engine hands back for one chunk of read bytes.
pub struct FeedResult {
    pub done: bool,
    pub outputs: Vec<Output>,
}

impl Connection {
    /// Process one complete frame: the step `frame_step` describes.
    fn handle_frame(&mut self, f: Frame) -> (r: (bool, Vec<Output>))
        requires
            conn_wf(old(self)@),
            !filling(old(self)@),
            old(self)@.state == ConnectionState::WaitingForFrames || old(self)@.state
                == ConnectionState::CloseFromServer,
            frame_wf(f@),
            frame_full(f@),
        ensures
            conn_wf(final(self)@),
            ({
                let s = frame_step(old(self)@, f@);
                &&& final(self)@ == s.conn
                &&& outs_view(r.1@) == s.outs
                &&& r.0 == s.done
            }),
    {
        let mut outputs: Vec<Output> = Vec::new();
        proof {
            assert(outs_view(outputs@) =~= Seq::<OutputView>::empty());
        }
        if f.opcode().is_control() {
            if f.payload().len() > 125 || !f.fin() {
                self.close(CloseCode::ProtocolError);
                return (true, outputs);
            }
            match f.opcode() {
                Opcode::ConnectionClose => {
                    let mut code: CloseCode = f.get_closing_code();
                    let reason: String = match f.get_closing_reason() {
                        Ok(rs) => rs,
                        Err(e) => {
                            code = e;
                            String::new()
                        },
                    };
                    proof {
                        assert(code == close_code_of(f@.payload));
                        assert(reason@ =~= close_reason_of(f@.payload));
                    }
                    outputs.push(Output::Closed(code, reason));
                    if self.state == ConnectionState::CloseFromServer {
                        self.state = ConnectionState::Disconnected;
                        proof {
                            assert(self@ =~~= (ConnView {
                                state: ConnectionState::Disconnected,
                                ..old(self)@
                            }));
                            assert(outs_view(outputs@) =~= frame_step(old(self)@, f@).outs);
                        }
                    } else {
                        let echo = Frame::closing(code);
                        proof {
                            assert(echo@ =~~= closing_view(code));
                        }
                        outputs.push(Output::Send(echo.as_bytes()));
                        self.state = ConnectionState::Disconnected;
                        proof {
                            assert(self@ =~~= (ConnView {
                                state: ConnectionState::Disconnected,
                                ..old(self)@
                            }));
                            assert(outs_view(outputs@) =~= frame_step(old(self)@, f@).outs);
                        }
                    }
                    (true, outputs)
                },
                Opcode::Ping => {
                    self.send_pong(&f);
                    (false, outputs)
                },
                Opcode::Pong => {
                    self.waiting_for_pong = false;
                    proof {
                        assert(self@ =~~= (ConnView { waiting_for_pong: false, ..old(self)@ }));
                    }
                    (false, outputs)
                },
                _ => {
                    proof {
                        assert(false);
                    }
                    (false, outputs)
                },
            }
        } else {
            if self.frames.len() > 0 && f.opcode() != Opcode::Continuation {
                self.close(CloseCode::ProtocolError);
                return (true, outputs);
            }
            if f.opcode() == Opcode::Continuation && self.frames.len() == 0 {
                self.close(CloseCode::ProtocolError);
                return (true, outputs);
            }
            let ftype: Opcode = if f.opcode() == Opcode::Continuation {
                proof {
                    assert(self@.frags[0] == self.frames@[0]@);
                }
                self.frames[0].opcode()
            } else {
                f.opcode()
            };
            if !f.fin() {
                let ghost fv = f@;
                self.frames.push(f);
                proof {
                    assert(frame_views(self.frames@) =~= frame_views(old(self).frames@).push(fv));
                    assert(self@ =~~= (ConnView {
                        frags: old(self)@.frags.push(fv),
                        ..old(self)@
                    }));
                    let c2 = self@;
                    assert(!filling(c2));
                    assert forall|i: int|
                        0 <= i < c2.frags.len() implies frame_wf(#[trigger] c2.frags[i]) by {
                        if i < c2.frags.len() - 1 {
                            assert(c2.frags[i] == old(self)@.frags[i]);
                        }
                    }
                    assert(frag_prefix_ok(c2.frags, c2.frags.len() as int)) by {
                        assert forall|i: int| 0 <= i < c2.frags.len() implies {
                            &&& frame_full(#[trigger] c2.frags[i])
                            &&& !c2.frags[i].fin
                            &&& if i == 0 {
                                c2.frags[i].opcode == Opcode::Text || c2.frags[i].opcode
                                    == Opcode::Binary
                            } else {
                                c2.frags[i].opcode == Opcode::Continuation
                            }
                        } by {
                            if i < c2.frags.len() - 1 {
                                assert(c2.frags[i] == old(self)@.frags[i]);
                            }
                        }
                    }
                }
                return (false, outputs);
            }
            let ghost prior = self@.frags;
            let ghost fv = f@;
            self.frames.push(f);
            proof {
                assert(frame_views(self.frames@) =~= prior.push(fv));
            }
            if matches!(ftype, Opcode::Text) {
                match Frame::payload_as_string(&self.frames) {
                    Ok(s) => {
                        let packet = Packet::from_string(s.clone());
                        outputs.push(
                            Output::Message(Message { kind: MessageKind::String, string: s }),
                        );
                        outputs.push(Output::Event(packet));
                        self.frames.clear();
                        proof {
                            assert(frame_views(self.frames@) =~= Seq::<FrameView>::empty());
                            assert(self@ =~~= (ConnView { frags: Seq::empty(), ..old(self)@ }));
                            assert(outs_view(outputs@) =~= frame_step(old(self)@, fv).outs);
                        }
                        (false, outputs)
                    },
                    Err(_) => {
                        let _dropped = self.frames.pop();
                        proof {
                            assert(frame_views(self.frames@) =~= prior);
                        }
                        self.close(CloseCode::InvalidData);
                        (true, outputs)
                    },
                }
            } else {
                let data = Frame::payload_as_bytes(&self.frames);
                outputs.push(Output::Bytes(data));
                self.frames.clear();
                proof {
                    assert(frame_views(self.frames@) =~= Seq::<FrameView>::empty());
                    assert(self@ =~~= (ConnView { frags: Seq::empty(), ..old(self)@ }));
                    assert(outs_view(outputs@) =~= frame_step(old(self)@, fv).outs);
                }
                (false, outputs)
            }
        }
    }

    /// One processing step against the front of `buf`: the step `raw_step`
    /// describes. `consumed` reports how many bytes of `buf` were used up;
    /// zero means the buffer must grow before parsing can resume.
    pub fn handle_raw_data(&mut self, buf: &[u8]) -> (r: StepResult)
        requires
            conn_wf(old(self)@),
        ensures
            conn_wf(final(self)@),
            ({
                let s = raw_step(old(self)@, buf@);
                &&& final(self)@ == s.conn
                &&& outs_view(r.outputs@) == s.outs
                &&& r.consumed == s.consumed
                &&& r.done == s.done
            }),
    {
        let empty_outs: Vec<Output> = Vec::new();
        proof {
            assert(outs_view(empty_outs@) =~= Seq::<OutputView>::empty());
        }
        match self.state {
            ConnectionState::Disconnected => StepResult {
                consumed: 0,
                done: true,
                outputs: empty_outs,
            },
            ConnectionState::WaitingForConnection => {
                let (response, parsed) = handshake_response(buf);
                let bytes = response.as_vec();
                let mut outputs: Vec<Output> = Vec::new();
                outputs.push(Output::Send(bytes));
                match parsed {
                    Some(h) => {
                        self.request_header = Some(h);
                        self.state = ConnectionState::WaitingForFrames;
                        proof {
                            let s = raw_step(old(self)@, buf@);
                            assert(response@ =~~= upgrade_view(handshake_key(buf@)->Some_0));
                            assert(self@ =~~= s.conn);
                            assert(outs_view(outputs@) =~= s.outs);
                        }
                        StepResult { consumed: buf.len(), done: false, outputs }
                    },
                    None => {
                        self.state = ConnectionState::Disconnected;
                        proof {
                            let s = raw_step(old(self)@, buf@);
                            assert(response@ =~~= reject_view());
                            assert(self@ =~~= s.conn);
                            assert(outs_view(outputs@) =~= s.outs);
                        }
                        StepResult { consumed: buf.len(), done: true, outputs }
                    },
                }
            },
            _ => {
                let nframes: usize = self.frames.len();
                let partial: bool = nframes > 0 && !self.frames[nframes - 1].is_full();
                proof {
                    assert(partial == filling(old(self)@));
                }
                if partial {
                    let mut lf: Frame = match self.frames.pop() {
                        Some(x) => x,
                        None => {
                            proof {
                                assert(false);
                            }
                            return StepResult { consumed: 0, done: true, outputs: empty_outs };
                        },
                    };
                    proof {
                        assert(lf@ == old(self)@.frags.last());
                        assert(frame_views(self.frames@) =~= old(self)@.frags.drop_last());
                        assert(frame_wf(lf@));
                    }
                    let used = lf.add_payload(buf);
                    if !lf.is_full() {
                        let ghost lf2 = lf@;
                        self.frames.push(lf);
                        proof {
                            let s = raw_step(old(self)@, buf@);
                            assert(frame_views(self.frames@) =~= old(self)@.frags.drop_last().push(
                                lf2,
                            ));
                            assert(old(self)@.frags.update(
                                old(self)@.frags.len() - 1,
                                lf2,
                            ) =~= old(self)@.frags.drop_last().push(lf2));
                            assert(self@ =~~= s.conn);
                            let c2 = self@;
                            assert(filling(c2));
                            assert(frag_prefix_ok(c2.frags, c2.frags.len() - 1)) by {
                                assert forall|i: int| 0 <= i < c2.frags.len() - 1 implies {
                                    &&& frame_full(#[trigger] c2.frags[i])
                                    &&& !c2.frags[i].fin
                                    &&& if i == 0 {
                                        c2.frags[i].opcode == Opcode::Text || c2.frags[i].opcode
                                            == Opcode::Binary
                                    } else {
                                        c2.frags[i].opcode == Opcode::Continuation
                                    }
                                } by {
                                    assert(c2.frags[i] == old(self)@.frags[i]);
                                }
                            }
                            assert(conn_wf(c2));
                        }
                        StepResult { consumed: used, done: false, outputs: empty_outs }
                    } else {
                        if self.state != ConnectionState::CloseFromServer {
                            self.state = ConnectionState::WaitingForFrames;
                        }
                        proof {
                            let s = raw_step(old(self)@, buf@);
                            let mid = self@;
                            assert(!filling(mid)) by {
                                assert forall|i: int|
                                    0 <= i < mid.frags.len() implies frame_full(
                                    #[trigger] mid.frags[i],
                                ) by {
                                    assert(mid.frags[i] == old(self)@.frags[i]);
                                }
                            }
                            assert(conn_wf(mid)) by {
                                assert forall|i: int| 0 <= i < mid.frags.len() implies {
                                    &&& frame_wf(#[trigger] mid.frags[i])
                                    &&& frame_full(mid.frags[i])
                                    &&& !mid.frags[i].fin
                                    &&& if i == 0 {
                                        mid.frags[i].opcode == Opcode::Text || mid.frags[i].opcode
                                            == Opcode::Binary
                                    } else {
                                        mid.frags[i].opcode == Opcode::Continuation
                                    }
                                } by {
                                    assert(mid.frags[i] == old(self)@.frags[i]);
                                }
                            }
                        }
                        let (done, outputs) = self.handle_frame(lf);
                        StepResult { consumed: used, done, outputs }
                    }
                } else {
                    match Frame::from_raw(buf) {
                        Err(None) => StepResult { consumed: 0, done: false, outputs: empty_outs },
                        Err(Some(code)) => {
                            self.close(code);
                            StepResult { consumed: buf.len(), done: true, outputs: empty_outs }
                        },
                        Ok(f) => {
                            if !f.is_full() {
                                if self.state != ConnectionState::CloseFromServer {
                                    self.state = ConnectionState::InDataPayload;
                                }
                                let used = f.current_len();
                                let ghost fv = f@;
                                self.frames.push(f);
                                proof {
                                    let s = raw_step(old(self)@, buf@);
                                    assert(frame_views(self.frames@) =~= old(self)@.frags.push(
                                        fv,
                                    ));
                                    assert(self@ =~~= s.conn);
                                    let c2 = self@;
                                    assert(filling(c2));
                                    assert(frag_prefix_ok(c2.frags, c2.frags.len() - 1)) by {
                                        assert forall|i: int| 0 <= i < c2.frags.len() - 1 implies {
                                            &&& frame_full(#[trigger] c2.frags[i])
                                            &&& !c2.frags[i].fin
                                            &&& if i == 0 {
                                                c2.frags[i].opcode == Opcode::Text
                                                    || c2.frags[i].opcode == Opcode::Binary
                                            } else {
                                                c2.frags[i].opcode == Opcode::Continuation
                                            }
                                        } by {
                                            assert(c2.frags[i] == old(self)@.frags[i]);
                                        }
                                    }
                                    assert(conn_wf(c2));
                                }
                                StepResult { consumed: used, done: false, outputs: empty_outs }
                            } else {
                                let used = f.current_len();
                                proof {
                                    assert(used == frame_consumed(buf@));
                                }
                                let (done, outputs) = self.handle_frame(f);
                                StepResult { consumed: used, done, outputs }
                            }
                        },
                    }
                }
            },
        }
    }

    /// Process `data` from position `pos` on, step after step, exactly as
    /// `feed_spec` iterates `raw_step`; what no step consumed becomes the
    /// carry-over buffer.
    #[verifier::rlimit(100)]
    #[verifier::spinoff_prover]
    fn feed_from(&mut self, data: &[u8], pos: usize) -> (r: FeedResult)
        requires
            conn_wf(old(self)@),
            pos <= data@.len(),
        ensures
            conn_wf(final(self)@),
            ({
                let t = feed_spec(old(self)@, data@.skip(pos as int));
                &&& final(self)@ == t.0
                &&& outs_view(r.outputs@) == t.1
                &&& r.done == t.2
            }),
        decreases data@.len() - pos,
    {
        let n: usize = data.len();
        if pos == n {
            self.buffer = Vec::new();
            proof {
                assert(data@.skip(pos as int) =~= Seq::<u8>::empty());
                assert(self@ =~~= feed_spec(old(self)@, data@.skip(pos as int)).0);
                assert(outs_view(Seq::<Output>::empty()) =~= Seq::<OutputView>::empty());
            }
            FeedResult { done: false, outputs: Vec::new() }
        } else {
            let rest: &[u8] = &data[pos..n];
            proof {
                assert(rest@ =~= data@.skip(pos as int));
            }
            let step = self.handle_raw_data(rest);
            proof {
                lemma_raw_step_consumed(old(self)@, rest@);
            }
            if step.done {
                let tail = crate::http::copy_range(data, pos + step.consumed, n);
                self.buffer = tail;
                proof {
                    assert(data@.subrange(pos + step.consumed, n as int) =~= data@.skip(
                        pos as int,
                    ).skip(step.consumed as int));
                    assert(self@ =~~= feed_spec(old(self)@, data@.skip(pos as int)).0);
                }
                FeedResult { done: true, outputs: step.outputs }
            } else if step.consumed == 0 {
                let tail = crate::http::copy_range(data, pos, n);
                self.buffer = tail;
                proof {
                    assert(data@.subrange(pos as int, n as int) =~= data@.skip(pos as int));
                    assert(self@ =~~= feed_spec(old(self)@, data@.skip(pos as int)).0);
                }
                FeedResult { done: false, outputs: step.outputs }
            } else {
                let mut acc = step.outputs;
                let ghost mid = self@;
                let sub = self.feed_from(data, pos + step.consumed);
                let FeedResult { done: d2, outputs: mut o2 } = sub;
                acc.append(&mut o2);
                proof {
                    assert(data@.skip(pos as int).skip(step.consumed as int) =~= data@.skip(
                        pos + step.consumed,
                    ));
                    let s = raw_step(old(self)@, data@.skip(pos as int));
                    let rec = feed_spec(mid, data@.skip(pos + step.consumed));
                    assert(outs_view(acc@) =~= s.outs + rec.1);
                }
                FeedResult { done: d2, outputs: acc }
            }
        }
    }

    /// Feed one chunk of read bytes into the engine. The unconsumed bytes
    /// of earlier reads are prepended, every whole frame or handshake in the
    /// combined data is processed in order, and the trailing remainder is
    /// kept for the next read. The result carries the dispatch outputs in
    /// order and whether the connection is finished.
    pub fn feed(&mut self, chunk: &[u8]) -> (r: FeedResult)
        requires
            conn_wf(old(self)@),
        ensures
            conn_wf(final(self)@),
            ({
                let t = feed_spec(old(self)@, old(self)@.buffer + chunk@);
                &&& final(self)@ == t.0
                &&& outs_view(r.outputs@) == t.1
                &&& r.done == t.2
            }),
    {
        let mut data: Vec<u8> = Vec::new();
        data.append(&mut self.buffer);
        crate::http::append_bytes(&mut data, chunk);
        proof {
            assert(data@ =~= old(self)@.buffer + chunk@);
            assert(self@ =~~= (ConnView { buffer: Seq::<u8>::empty(), ..old(self)@ }));
            lemma_feed_spec_buffer(old(self)@, Seq::<u8>::empty(), data@);
        }
        let r = self.feed_from(data.as_slice(), 0);
        proof {
            assert(data@.skip(0) =~= data@);
        }
        r
    }
}

/// Control interjection: a ping arriving between the fragments of a message
/// leaves the fragment buffer untouched, is answered with a pong echoing
/// its payload, and processing continues.
pub proof fn lemma_control_interjection(c: ConnView, f: FrameView)
    requires
        f.opcode == Opcode::Ping,
        f.fin,
        f.payload.len() <= 125,
    ensures
        ({
            let s = frame_step(c, f);
            &&& s.conn.frags == c.frags
            &&& s.conn.high == c.high.push(pong_view(f.payload))
            &&& s.conn.state == c.state
            &&& s.conn.normal == c.normal
            &&& !s.done
            &&& s.outs == Seq::<OutputView>::empty()
        }),
{
}

/// An oversized or non-final control frame closes the connection with a
/// protocol error.
pub proof fn lemma_oversized_control(c: ConnView, f: FrameView)
    requires
        spec_is_control(f.opcode),
        f.payload.len() > 125 || !f.fin,
    ensures
        ({
            let s = frame_step(c, f);
            &&& s.done
            &&& s.conn.state == ConnectionState::CloseFromServer
            &&& s.conn.normal == c.normal.push(closing_view(CloseCode::ProtocolError))
            &&& s.conn.frags == c.frags
            &&& s.outs == Seq::<OutputView>::empty()
        }),
{
}

/// A continuation frame with no message to continue closes the connection
/// with a protocol error.
pub proof fn lemma_orphan_continuation(c: ConnView, f: FrameView)
    requires
        c.frags.len() == 0,
        f.opcode == Opcode::Continuation,
    ensures
        ({
            let s = frame_step(c, f);
            &&& s.done
            &&& s.conn.state == ConnectionState::CloseFromServer
            &&& s.conn.normal == c.normal.push(closing_view(CloseCode::ProtocolError))
        }),
{
}

/// A non-final fragment joins the buffer in order and dispatches nothing.
pub proof fn lemma_fragment_accumulates(c: ConnView, f: FrameView)
    requires
        !spec_is_control(f.opcode),
        !f.fin,
        c.frags.len() > 0 ==> f.opcode == Opcode::Continuation,
        c.frags.len() == 0 ==> f.opcode != Opcode::Continuation,
    ensures
        ({
            let s = frame_step(c, f);
            &&& s.conn.frags == c.frags.push(f)
            &&& s.outs == Seq::<OutputView>::empty()
            &&& !s.done
        }),
{
}

/// Reassembly: the final fragment of a text message dispatches, exactly
/// once, the concatenation of all fragment payloads in order, decoded as
/// UTF-8 — one message output and one event output — and clears the buffer.
pub proof fn lemma_text_reassembly(c: ConnView, f: FrameView)
    requires
        !spec_is_control(f.opcode),
        f.fin,
        c.frags.len() > 0 ==> f.opcode == Opcode::Continuation && c.frags[0].opcode
            == Opcode::Text,
        c.frags.len() == 0 ==> f.opcode == Opcode::Text,
        valid_utf8(frames_payload(c.frags.push(f))),
    ensures
        ({
            let s = frame_step(c, f);
            let dec = decode_utf8(frames_payload(c.frags.push(f)));
            &&& s.outs == seq![
                OutputView::Message(dec),
                OutputView::Event(packet_event(dec), packet_payload(dec)),
            ]
            &&& s.conn.frags == Seq::<FrameView>::empty()
            &&& !s.done
        }),
{
}

/// The close handshake: a close frame received while this side has not
/// initiated closing is echoed at once and ends the connection; one
/// received after `close` was called locally ends it without a second echo.
/// Close callbacks run in both cases, before the connection ends.
pub proof fn lemma_close_handshake(c: ConnView, f: FrameView)
    requires
        f.opcode == Opcode::ConnectionClose,
        f.fin,
        f.payload.len() <= 125,
    ensures
        ({
            let s = frame_step(c, f);
            &&& s.done
            &&& s.conn.state == ConnectionState::Disconnected
            &&& (c.state == ConnectionState::WaitingForFrames ==> s.outs == seq![
                OutputView::Closed(close_code_of(f.payload), close_reason_of(f.payload)),
                OutputView::Send(encode_server(closing_view(close_code_of(f.payload)))),
            ])
            &&& (c.state == ConnectionState::CloseFromServer ==> s.outs == seq![
                OutputView::Closed(close_code_of(f.payload), close_reason_of(f.payload)),
            ])
        }),
{
}

/// `feed_spec` never reads the carry-over buffer of the connection it is
/// given: every base case overwrites it.
pub proof fn lemma_feed_spec_buffer(c: ConnView, b2: Seq<u8>, data: Seq<u8>)
    ensures
        feed_spec(ConnView { buffer: b2, ..c }, data) == feed_spec(c, data),
    decreases data.len(),
{
    let c2 = ConnView { buffer: b2, ..c };
    if data.len() == 0 {
        assert(feed_spec(c2, data).0 =~~= feed_spec(c, data).0);
        assert(feed_spec(c2, data) == feed_spec(c, data));
    } else {
        let s1 = raw_step(c, data);
        let s2 = raw_step(c2, data);
        assert(s2.conn =~~= (ConnView { buffer: b2, ..s1.conn }));
        assert(s2.outs == s1.outs);
        assert(s2.consumed == s1.consumed);
        assert(s2.done == s1.done);
        if s1.done {
            assert(feed_spec(c2, data).0 =~~= feed_spec(c, data).0);
            assert(feed_spec(c2, data) == feed_spec(c, data));
        } else if s1.consumed == 0 {
            assert(feed_spec(c2, data).0 =~~= feed_spec(c, data).0);
            assert(feed_spec(c2, data) == feed_spec(c, data));
        } else {
            lemma_raw_step_consumed(c, data);
            lemma_feed_spec_buffer(s1.conn, b2, data.skip(s1.consumed));
            assert(feed_spec(c2, data) == feed_spec(c, data));
        }
    }
}

} // verus!
