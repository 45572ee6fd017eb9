//! RFC 6455 frame codec: the wire format of a single WebSocket frame, its
//! mathematical model, a decoder that tolerates arbitrary read boundaries,
//! and the server-side encoder.

use vstd::prelude::*;

verus! {

use vstd::utf8::{valid_utf8, decode_utf8, encode_utf8};

/// The 4-bit frame opcode. Control opcodes are numerically at or above 0x8.
#[derive(Clone, Copy, Debug, PartialEq, Eq, Structural)]
pub enum Opcode {
    Continuation,
    Text,
    Binary,
    ConnectionClose,
    Ping,
    Pong,
}

/// Close status codes per RFC 6455 section 7.4, carried big-endian in the
/// first two bytes of a close frame's payload.
#[derive(Clone, Copy, Debug, PartialEq, Eq, Structural)]
pub enum CloseCode {
    Normal,
    GoingAway,
    ProtocolError,
    UnsupportedData,
    InvalidData,
    PolicyViolation,
    MessageTooBig,
}

pub open spec fn opcode_value(op: Opcode) -> u8 {
    match op {
        Opcode::Continuation => 0,
        Opcode::Text => 1,
        Opcode::Binary => 2,
        Opcode::ConnectionClose => 8,
        Opcode::Ping => 9,
        Opcode::Pong => 10,
    }
}

/// The opcode a 4-bit wire nibble denotes, if any.
pub open spec fn spec_opcode_of(n: u8) -> Option<Opcode> {
    if n == 0 {
        Some(Opcode::Continuation)
    } else if n == 1 {
        Some(Opcode::Text)
    } else if n == 2 {
        Some(Opcode::Binary)
    } else if n == 8 {
        Some(Opcode::ConnectionClose)
    } else if n == 9 {
        Some(Opcode::Ping)
    } else if n == 10 {
        Some(Opcode::Pong)
    } else {
        None
    }
}

pub open spec fn spec_is_control(op: Opcode) -> bool {
    opcode_value(op) >= 8
}

impl Opcode {
    /// The numeric wire value of this opcode.
    pub fn value(&self) -> (r: u8)
        ensures
            r == opcode_value(*self),
    {
        match self {
            Opcode::Continuation => 0,
            Opcode::Text => 1,
            Opcode::Binary => 2,
            Opcode::ConnectionClose => 8,
            Opcode::Ping => 9,
            Opcode::Pong => 10,
        }
    }

    /// The opcode denoted by a 4-bit wire nibble, if it is one this engine
    /// knows.
    pub fn from_nibble(n: u8) -> (r: Option<Opcode>)
        ensures
            r == spec_opcode_of(n),
    {
        if n == 0 {
            Some(Opcode::Continuation)
        } else if n == 1 {
            Some(Opcode::Text)
        } else if n == 2 {
            Some(Opcode::Binary)
        } else if n == 8 {
            Some(Opcode::ConnectionClose)
        } else if n == 9 {
            Some(Opcode::Ping)
        } else if n == 10 {
            Some(Opcode::Pong)
        } else {
            None
        }
    }

    /// Whether this opcode marks a control frame (ping, pong, close).
    pub fn is_control(&self) -> (r: bool)
        ensures
            r == spec_is_control(*self),
    {
        matches!(self, Opcode::ConnectionClose | Opcode::Ping | Opcode::Pong)
    }
}

pub open spec fn close_code_value(c: CloseCode) -> u16 {
    match c {
        CloseCode::Normal => 1000,
        CloseCode::GoingAway => 1001,
        CloseCode::ProtocolError => 1002,
        CloseCode::UnsupportedData => 1003,
        CloseCode::InvalidData => 1007,
        CloseCode::PolicyViolation => 1008,
        CloseCode::MessageTooBig => 1009,
    }
}

pub open spec fn spec_close_code_of(v: u16) -> Option<CloseCode> {
    if v == 1000 {
        Some(CloseCode::Normal)
    } else if v == 1001 {
        Some(CloseCode::GoingAway)
    } else if v == 1002 {
        Some(CloseCode::ProtocolError)
    } else if v == 1003 {
        Some(CloseCode::UnsupportedData)
    } else if v == 1007 {
        Some(CloseCode::InvalidData)
    } else if v == 1008 {
        Some(CloseCode::PolicyViolation)
    } else if v == 1009 {
        Some(CloseCode::MessageTooBig)
    } else {
        None
    }
}

impl CloseCode {
    /// The numeric wire value of this close code.
    pub fn value(&self) -> (r: u16)
        ensures
            r == close_code_value(*self),
    {
        match self {
            CloseCode::Normal => 1000,
            CloseCode::GoingAway => 1001,
            CloseCode::ProtocolError => 1002,
            CloseCode::UnsupportedData => 1003,
            CloseCode::InvalidData => 1007,
            CloseCode::PolicyViolation => 1008,
            CloseCode::MessageTooBig => 1009,
        }
    }

    /// The close code denoted by a numeric status, if it is one this engine
    /// knows.
    pub fn from_value(v: u16) -> (r: Option<CloseCode>)
        ensures
            r == spec_close_code_of(v),
    {
        if v == 1000 {
            Some(CloseCode::Normal)
        } else if v == 1001 {
            Some(CloseCode::GoingAway)
        } else if v == 1002 {
            Some(CloseCode::ProtocolError)
        } else if v == 1003 {
            Some(CloseCode::UnsupportedData)
        } else if v == 1007 {
            Some(CloseCode::InvalidData)
        } else if v == 1008 {
            Some(CloseCode::PolicyViolation)
        } else if v == 1009 {
            Some(CloseCode::MessageTooBig)
        } else {
            None
        }
    }
}

/// The mathematical value of a frame, together with the header bookkeeping
/// that incremental decoding needs.
#[verifier::ext_equal]
pub struct FrameView {
    pub opcode: Opcode,
    pub fin: bool,
    pub payload: Seq<u8>,
    /// The payload length the header declared.
    pub declared: nat,
    /// How many header bytes the frame occupied on the wire.
    pub header: nat,
    /// The 4-byte masking key, for frames that arrived masked.
    pub mask: Option<Seq<u8>>,
}

/// One wire-level WebSocket frame. `payload` holds the unmasked bytes read
/// so far; a decoded frame is complete once `payload` reaches the length its
/// header declared.
pub struct Frame {
    pub opcode: Opcode,
    pub fin: bool,
    pub payload: Vec<u8>,
    pub(crate) declared_len: usize,
    pub(crate) mask: Option<[u8; 4]>,
    pub(crate) header_len: usize,
}

impl View for Frame {
    type V = FrameView;

    closed spec fn view(&self) -> FrameView {
        FrameView {
            opcode: self.opcode,
            fin: self.fin,
            payload: self.payload@,
            declared: self.declared_len as nat,
            header: self.header_len as nat,
            mask: match self.mask {
                Some(k) => Some(k@),
                None => None,
            },
        }
    }
}

/// Well-formedness of a frame value: the payload never exceeds the declared
/// length, a mask key has exactly four bytes, and the whole frame fits in a
/// machine-sized buffer.
pub open spec fn frame_wf(f: FrameView) -> bool {
    &&& f.payload.len() <= f.declared
    &&& f.header + f.declared <= usize::MAX
    &&& match f.mask {
        Some(k) => k.len() == 4,
        None => true,
    }
}

pub open spec fn frame_full(f: FrameView) -> bool {
    f.payload.len() == f.declared
}

/// XOR of a payload against a 4-byte key cycled from position `start`,
/// per RFC 6455 section 5.3. Applying it twice restores the original.
pub open spec fn mask_seq(p: Seq<u8>, key: Seq<u8>, start: nat) -> Seq<u8> {
    Seq::new(p.len(), |i: int| p[i] ^ key[((start + i) % 4) as int])
}

pub proof fn lemma_mask_involution(p: Seq<u8>, key: Seq<u8>, start: nat)
    requires
        key.len() == 4,
    ensures
        mask_seq(mask_seq(p, key, start), key, start) =~= p,
{
    assert forall|i: int| 0 <= i < p.len() implies mask_seq(mask_seq(p, key, start), key, start)[i]
        == p[i] by {
        let k = key[((start + i) % 4) as int];
        let b = p[i];
        assert((b ^ k) ^ k == b) by (bit_vector);
    }
}

/// The length field of a frame header: 7 bits, or 16 or 64 bits following an
/// escape value, big-endian.
pub open spec fn len_field(n: nat) -> Seq<u8> {
    if n < 126 {
        seq![n as u8]
    } else if n < 0x10000 {
        seq![126u8, ((n / 256) % 256) as u8, (n % 256) as u8]
    } else {
        seq![
            127u8,
            ((n / 0x100000000000000) % 256) as u8,
            ((n / 0x1000000000000) % 256) as u8,
            ((n / 0x10000000000) % 256) as u8,
            ((n / 0x100000000) % 256) as u8,
            ((n / 0x1000000) % 256) as u8,
            ((n / 0x10000) % 256) as u8,
            ((n / 0x100) % 256) as u8,
            (n % 256) as u8,
        ]
    }
}

pub open spec fn first_byte(f: FrameView) -> u8 {
    if f.fin {
        (128 + opcode_value(f.opcode)) as u8
    } else {
        opcode_value(f.opcode)
    }
}

/// A frame as the server sends it: never masked.
pub open spec fn encode_server(f: FrameView) -> Seq<u8> {
    seq![first_byte(f)] + len_field(f.payload.len()) + f.payload
}

/// A frame as a client sends it: the mask bit set, the 4-byte key after the
/// length field, and the payload XOR-masked.
pub open spec fn encode_client(f: FrameView, key: Seq<u8>) -> Seq<u8> {
    let lf = len_field(f.payload.len());
    seq![first_byte(f)] + seq![(lf[0] + 128) as u8] + lf.skip(1) + key + mask_seq(f.payload, key, 0)
}

/// Big-endian value of a byte sequence.
pub open spec fn be_value(s: Seq<u8>) -> nat
    decreases s.len(),
{
    if s.len() == 0 {
        0
    } else {
        (be_value(s.drop_last()) * 256 + s.last()) as nat
    }
}

pub open spec fn fin_bit(b: Seq<u8>) -> bool {
    b[0] >= 128
}

pub open spec fn opcode_nibble(b: Seq<u8>) -> u8 {
    (b[0] % 16) as u8
}

pub open spec fn is_masked(b: Seq<u8>) -> bool {
    b[1] >= 128
}

/// The 7-bit base length code.
pub open spec fn base_len(b: Seq<u8>) -> nat {
    (b[1] % 128) as nat
}

/// How many extended-length bytes the header uses.
pub open spec fn ext_len_bytes(b: Seq<u8>) -> nat {
    if base_len(b) == 126 {
        2
    } else if base_len(b) == 127 {
        8
    } else {
        0
    }
}

/// Total header length: two fixed bytes, the extended length, and the mask
/// key if present. Computable from the first two bytes alone.
pub open spec fn header_len(b: Seq<u8>) -> nat {
    2 + ext_len_bytes(b) + if is_masked(b) {
        4nat
    } else {
        0nat
    }
}

/// The declared payload length; meaningful once the header is present.
pub open spec fn payload_len(b: Seq<u8>) -> nat {
    if base_len(b) == 126 {
        be_value(b.subrange(2, 4))
    } else if base_len(b) == 127 {
        be_value(b.subrange(2, 10))
    } else {
        base_len(b)
    }
}

pub open spec fn mask_key(b: Seq<u8>) -> Seq<u8> {
    b.subrange(2 + ext_len_bytes(b) as int, 2 + ext_len_bytes(b) as int + 4)
}

/// The buffer is too short to hold even the frame header.
pub open spec fn need_more(b: Seq<u8>) -> bool {
    b.len() < 2 || b.len() < header_len(b)
}

/// The header is present but unusable: an opcode this engine does not know,
/// or a declared length no machine-sized buffer can hold.
pub open spec fn header_bad(b: Seq<u8>) -> bool {
    spec_opcode_of(opcode_nibble(b)) is None || header_len(b) + payload_len(b) > usize::MAX
}

/// How much of the declared payload the buffer already holds.
pub open spec fn avail_payload(b: Seq<u8>) -> nat {
    if b.len() - header_len(b) < payload_len(b) {
        (b.len() - header_len(b)) as nat
    } else {
        payload_len(b)
    }
}

/// The frame a successful parse of the front of `b` yields, its available
/// payload unmasked.
pub open spec fn parsed_frame(b: Seq<u8>) -> FrameView {
    let h = header_len(b) as int;
    let raw = b.subrange(h, h + avail_payload(b));
    FrameView {
        opcode: spec_opcode_of(opcode_nibble(b))->Some_0,
        fin: fin_bit(b),
        payload: if is_masked(b) {
            mask_seq(raw, mask_key(b), 0)
        } else {
            raw
        },
        declared: payload_len(b),
        header: header_len(b),
        mask: if is_masked(b) {
            Some(mask_key(b))
        } else {
            None
        },
    }
}

/// Bytes a successful parse consumes: the header plus the available payload.
pub open spec fn frame_consumed(b: Seq<u8>) -> nat {
    header_len(b) + avail_payload(b)
}

impl Frame {
    /// The payload bytes held so far.
    pub fn payload(&self) -> (r: &Vec<u8>)
        ensures
            r@ == self@.payload,
    {
        &self.payload
    }

    /// This frame's opcode.
    pub fn opcode(&self) -> (r: Opcode)
        ensures
            r == self@.opcode,
    {
        self.opcode
    }

    /// Whether this frame is the final fragment of its message.
    pub fn fin(&self) -> (r: bool)
        ensures
            r == self@.fin,
    {
        self.fin
    }

    /// Parse one frame from the front of `buf`.
    ///
    /// `Err(None)` means the buffer is too short to hold the header: buffer
    /// and retry. `Err(Some(code))` is a protocol violation to close with.
    /// On success the available payload bytes (possibly fewer than declared)
    /// are consumed and unmasked.
    #[verifier::rlimit(100)]
    pub fn from_raw(buf: &[u8]) -> (r: Result<Frame, Option<CloseCode>>)
        ensures
            need_more(buf@) ==> (r matches Err(c) && c is None),
            !need_more(buf@) && header_bad(buf@) ==> (r matches Err(c) && c == Some(
                CloseCode::ProtocolError,
            )),
            !need_more(buf@) && !header_bad(buf@) ==> (r matches Ok(f) && f@ == parsed_frame(
                buf@,
            ) && frame_wf(f@)),
    {
        if buf.len() < 2 {
            return Err(None);
        }
        let b0: u8 = buf[0];
        let b1: u8 = buf[1];
        let fin: bool = b0 >= 128;
        let nibble: u8 = b0 % 16;
        let masked: bool = b1 >= 128;
        let base: u8 = b1 % 128;
        let ext: usize = if base == 126 {
            2
        } else if base == 127 {
            8
        } else {
            0
        };
        let hlen: usize = 2 + ext + if masked {
            4
        } else {
            0
        };
        if buf.len() < hlen {
            return Err(None);
        }
        assert(!need_more(buf@));
        let opcode: Opcode = match Opcode::from_nibble(nibble) {
            Some(op) => op,
            None => {
                return Err(Some(CloseCode::ProtocolError));
            },
        };
        let mut plen: u64 = 0;
        if base == 126 {
            plen = (buf[2] as u64) * 256 + (buf[3] as u64);
            assert(plen == be_value(buf@.subrange(2, 4))) by {
                reveal_with_fuel(be_value, 3);
                assert(buf@.subrange(2, 4).drop_last() =~= buf@.subrange(2, 3));
                assert(buf@.subrange(2, 3).drop_last() =~= buf@.subrange(2, 2));
            }
        } else if base == 127 {
            plen = (buf[2] as u64) * 0x100000000000000 + (buf[3] as u64) * 0x1000000000000 + (
            buf[4] as u64) * 0x10000000000 + (buf[5] as u64) * 0x100000000 + (buf[6] as u64)
                * 0x1000000 + (buf[7] as u64) * 0x10000 + (buf[8] as u64) * 0x100 + (buf[9] as u64);
            assert(plen == be_value(buf@.subrange(2, 10))) by {
                reveal_with_fuel(be_value, 9);
                assert(buf@.subrange(2, 10).drop_last() =~= buf@.subrange(2, 9));
                assert(buf@.subrange(2, 9).drop_last() =~= buf@.subrange(2, 8));
                assert(buf@.subrange(2, 8).drop_last() =~= buf@.subrange(2, 7));
                assert(buf@.subrange(2, 7).drop_last() =~= buf@.subrange(2, 6));
                assert(buf@.subrange(2, 6).drop_last() =~= buf@.subrange(2, 5));
                assert(buf@.subrange(2, 5).drop_last() =~= buf@.subrange(2, 4));
                assert(buf@.subrange(2, 4).drop_last() =~= buf@.subrange(2, 3));
                assert(buf@.subrange(2, 3).drop_last() =~= buf@.subrange(2, 2));
            }
        } else {
            plen = base as u64;
        }
        assert(plen == payload_len(buf@));
        if plen > (usize::MAX - hlen) as u64 {
            return Err(Some(CloseCode::ProtocolError));
        }
        assert(!header_bad(buf@));
        let declared: usize = plen as usize;
        let mask: Option<[u8; 4]> = if masked {
            let k: [u8; 4] = [buf[2 + ext], buf[3 + ext], buf[4 + ext], buf[5 + ext]];
            assert(k@ =~= mask_key(buf@));
            Some(k)
        } else {
            None
        };
        let avail: usize = if buf.len() - hlen < declared {
            buf.len() - hlen
        } else {
            declared
        };
        assert(avail == avail_payload(buf@));
        let mut payload: Vec<u8> = Vec::new();
        let mut j: usize = 0;
        while j < avail
            invariant
                0 <= j <= avail,
                avail + hlen <= buf@.len(),
                buf@.len() <= usize::MAX,
                payload@.len() == j,
                masked == (mask is Some),
                masked ==> (mask matches Some(k) && k@ == mask_key(buf@) && k@.len() == 4),
                forall|t: int|
                    0 <= t < j ==> payload@[t] == if masked {
                        buf@[hlen + t] ^ mask_key(buf@)[t % 4]
                    } else {
                        buf@[hlen + t]
                    },
            decreases avail - j,
        {
            let byte: u8 = buf[hlen + j];
            match &mask {
                Some(k) => payload.push(byte ^ k[j % 4]),
                None => payload.push(byte),
            }
            proof {
                assert forall|t: int| 0 <= t < j + 1 implies payload@[t] == (if masked {
                    buf@[hlen + t] ^ mask_key(buf@)[t % 4]
                } else {
                    buf@[hlen + t]
                }) by {
                    if t == j {
                        assert(payload@[t] == if masked {
                            byte ^ mask_key(buf@)[j as int % 4]
                        } else {
                            byte
                        });
                    }
                }
            }
            j = j + 1;
        }
        let f = Frame { opcode, fin, payload, declared_len: declared, mask, header_len: hlen };
        proof {
            let b = buf@;
            let raw = b.subrange(
                header_len(b) as int,
                header_len(b) as int + avail_payload(b) as int,
            );
            if masked {
                assert(f@.payload =~= mask_seq(raw, mask_key(b), 0));
            } else {
                assert(f@.payload =~= raw);
            }
            assert(f@ == parsed_frame(b));
        }
        Ok(f)
    }

    /// Feed more payload bytes into a partially decoded frame; returns how
    /// many bytes of `buf` were consumed. Unmasking continues from the
    /// position already filled.
    pub fn add_payload(&mut self, buf: &[u8]) -> (used: usize)
        requires
            frame_wf(old(self)@),
            !frame_full(old(self)@),
        ensures
            used == if buf@.len() < old(self)@.declared - old(self)@.payload.len() {
                buf@.len() as int
            } else {
                old(self)@.declared - old(self)@.payload.len()
            },
            final(self)@ == (FrameView {
                payload: old(self)@.payload + match old(self)@.mask {
                    Some(k) => mask_seq(buf@.take(used as int), k, old(self)@.payload.len()),
                    None => buf@.take(used as int),
                },
                ..old(self)@
            }),
            frame_wf(final(self)@),
            frame_full(final(self)@) <==> buf@.len() >= old(self)@.declared
                - old(self)@.payload.len(),
    {
        let start: usize = self.payload.len();
        let need: usize = self.declared_len - start;
        let used: usize = if buf.len() < need {
            buf.len()
        } else {
            need
        };
        let mut j: usize = 0;
        while j < used
            invariant
                0 <= j <= used,
                used <= buf@.len(),
                start + used <= self.declared_len,
                self.payload@.len() == start + j,
                self.opcode == old(self).opcode,
                self.fin == old(self).fin,
                self.declared_len == old(self).declared_len,
                self.header_len == old(self).header_len,
                self.mask == old(self).mask,
                start == old(self)@.payload.len(),
                self.payload@.take(start as int) == old(self)@.payload,
                (self.mask matches Some(k)) == (old(self)@.mask is Some),
                forall|t: int|
                    0 <= t < j ==> #[trigger] self.payload@[start + t] == match old(self)@.mask {
                        Some(k) => buf@[t] ^ k[((start + t) % 4) as int],
                        None => buf@[t],
                    },
            decreases used - j,
        {
            let byte: u8 = buf[j];
            match &self.mask {
                Some(k) => {
                    proof {
                        assert(old(self)@.mask matches Some(km) && km.len() == 4);
                    }
                    self.payload.push(byte ^ k[(start + j) % 4]);
                },
                None => self.payload.push(byte),
            }
            proof {
                assert(self.payload@.take(start as int) =~= old(self)@.payload);
            }
            j = j + 1;
        }
        proof {
            let old_p = old(self)@.payload;
            let expect = old_p + match old(self)@.mask {
                Some(k) => mask_seq(buf@.take(used as int), k, old_p.len()),
                None => buf@.take(used as int),
            };
            assert(self.payload@.len() == expect.len());
            assert forall|t: int| 0 <= t < expect.len() implies self.payload@[t] == expect[t] by {
                if t < start {
                    assert(self.payload@.take(start as int)[t] == old_p[t]);
                } else {
                    let u = t - start;
                    assert(self.payload@[start + u] == match old(self)@.mask {
                        Some(k) => buf@[u] ^ k[((start + u) % 4) as int],
                        None => buf@[u],
                    });
                }
            }
            assert(self.payload@ =~= expect);
        }
        used
    }

    /// Whether the payload has reached the length the header declared.
    pub fn is_full(&self) -> (r: bool)
        ensures
            r == frame_full(self@),
    {
        self.payload.len() == self.declared_len
    }

    /// Header bytes plus payload bytes held so far: the size this frame
    /// occupies on the wire up to the current fill.
    pub fn current_len(&self) -> (r: usize)
        requires
            frame_wf(self@),
        ensures
            r == self@.header + self@.payload.len(),
    {
        self.header_len + self.payload.len()
    }

    /// Encode this frame as the server sends it: unmasked.
    pub fn as_bytes(&self) -> (r: Vec<u8>)
        requires
            frame_wf(self@),
            frame_full(self@),
        ensures
            r@ == encode_server(self@),
    {
        let mut out: Vec<u8> = Vec::new();
        let first: u8 = if self.fin {
            128 + self.opcode.value()
        } else {
            self.opcode.value()
        };
        out.push(first);
        self.push_len_field(&mut out, false);
        let mut j: usize = 0;
        while j < self.payload.len()
            invariant
                0 <= j <= self.payload@.len(),
                out@ == seq![first_byte(self@)] + len_field(self@.payload.len())
                    + self@.payload.take(j as int),
            decreases self.payload@.len() - j,
        {
            out.push(self.payload[j]);
            proof {
                assert(self@.payload.take(j + 1) =~= self@.payload.take(j as int).push(
                    self@.payload[j as int],
                ));
            }
            j = j + 1;
        }
        proof {
            assert(self@.payload.take(self@.payload.len() as int) =~= self@.payload);
            assert(out@ =~= encode_server(self@));
        }
        out
    }

    /// Encode this frame as a client sends it: the mask bit set and the
    /// payload XOR-masked with `key`.
    pub fn as_client_bytes(&self, key: &[u8; 4]) -> (r: Vec<u8>)
        requires
            frame_wf(self@),
            frame_full(self@),
        ensures
            r@ == encode_client(self@, key@),
    {
        let mut out: Vec<u8> = Vec::new();
        let first: u8 = if self.fin {
            128 + self.opcode.value()
        } else {
            self.opcode.value()
        };
        out.push(first);
        self.push_len_field(&mut out, true);
        out.push(key[0]);
        out.push(key[1]);
        out.push(key[2]);
        out.push(key[3]);
        proof {
            let lf = len_field(self@.payload.len());
            assert(out@ =~= seq![first_byte(self@)] + seq![(lf[0] + 128) as u8] + lf.skip(1)
                + key@);
        }
        let mut j: usize = 0;
        while j < self.payload.len()
            invariant
                0 <= j <= self.payload@.len(),
                key@.len() == 4,
                ({
                    let lf = len_field(self@.payload.len());
                    out@ == seq![first_byte(self@)] + seq![(lf[0] + 128) as u8] + lf.skip(1) + key@
                        + mask_seq(self@.payload.take(j as int), key@, 0)
                }),
            decreases self.payload@.len() - j,
        {
            out.push(self.payload[j] ^ key[j % 4]);
            proof {
                assert(mask_seq(self@.payload.take(j + 1), key@, 0) =~= mask_seq(
                    self@.payload.take(j as int),
                    key@,
                    0,
                ).push(self@.payload[j as int] ^ key@[(j % 4) as int]));
            }
            j = j + 1;
        }
        proof {
            assert(self@.payload.take(self@.payload.len() as int) =~= self@.payload);
            assert(out@ =~= encode_client(self@, key@));
        }
        out
    }

    /// Append the wire length field for this frame's payload, the mask bit
    /// set on the first byte when `masked` holds.
    fn push_len_field(&self, out: &mut Vec<u8>, masked: bool)
        requires
            frame_wf(self@),
            frame_full(self@),
        ensures
            final(out)@ == old(out)@ + if masked {
                ({
                    let lf = len_field(self@.payload.len());
                    seq![(lf[0] + 128) as u8] + lf.skip(1)
                })
            } else {
                len_field(self@.payload.len())
            },
    {
        let n: usize = self.payload.len();
        let m: u8 = if masked {
            128
        } else {
            0
        };
        if n < 126 {
            out.push(n as u8 + m);
            proof {
                let lf = len_field(self@.payload.len());
                if masked {
                    assert(out@ =~= old(out)@ + (seq![(lf[0] + 128) as u8] + lf.skip(1)));
                } else {
                    assert(out@ =~= old(out)@ + lf);
                }
            }
        } else if n < 0x10000 {
            out.push(126 + m);
            out.push(((n / 256) % 256) as u8);
            out.push((n % 256) as u8);
            proof {
                let lf = len_field(self@.payload.len());
                if masked {
                    assert(out@ =~= old(out)@ + (seq![(lf[0] + 128) as u8] + lf.skip(1)));
                } else {
                    assert(out@ =~= old(out)@ + lf);
                }
            }
        } else {
            let w: u64 = n as u64;
            out.push(127 + m);
            out.push(((w / 0x100000000000000) % 256) as u8);
            out.push(((w / 0x1000000000000) % 256) as u8);
            out.push(((w / 0x10000000000) % 256) as u8);
            out.push(((w / 0x100000000) % 256) as u8);
            out.push(((w / 0x1000000) % 256) as u8);
            out.push(((w / 0x10000) % 256) as u8);
            out.push(((w / 0x100) % 256) as u8);
            out.push((w % 256) as u8);
            proof {
                let lf = len_field(self@.payload.len());
                if masked {
                    assert(out@ =~= old(out)@ + (seq![(lf[0] + 128) as u8] + lf.skip(1)));
                } else {
                    assert(out@ =~= old(out)@ + lf);
                }
            }
        }
    }
}

/// The two-byte big-endian payload a close frame built from `c` carries.
pub open spec fn close_payload(c: CloseCode) -> Seq<u8> {
    seq![(close_code_value(c) / 256) as u8, (close_code_value(c) % 256) as u8]
}

/// The close code a close-frame payload denotes: too short or unknown
/// numeric codes fall back to a protocol error.
pub open spec fn spec_closing_code(p: Seq<u8>) -> CloseCode {
    if p.len() < 2 {
        CloseCode::ProtocolError
    } else {
        match spec_close_code_of((p[0] * 256 + p[1]) as u16) {
            Some(c) => c,
            None => CloseCode::ProtocolError,
        }
    }
}

/// The concatenation, in order, of the payloads of a fragment sequence.
pub open spec fn frames_payload(fs: Seq<FrameView>) -> Seq<u8>
    decreases fs.len(),
{
    if fs.len() == 0 {
        Seq::empty()
    } else {
        fs[0].payload + frames_payload(fs.drop_first())
    }
}

pub proof fn lemma_frames_payload_snoc(fs: Seq<FrameView>, i: int)
    requires
        0 <= i < fs.len(),
    ensures
        frames_payload(fs.take(i + 1)) =~= frames_payload(fs.take(i)) + fs[i].payload,
    decreases i,
{
    if i == 0 {
        assert(fs.take(1).drop_first() =~= Seq::<FrameView>::empty());
        assert(fs.take(0) =~= Seq::<FrameView>::empty());
    } else {
        let tl = fs.drop_first();
        lemma_frames_payload_snoc(tl, i - 1);
        assert(fs.take(i + 1).drop_first() =~= tl.take(i));
        assert(fs.take(i).drop_first() =~= tl.take(i - 1));
        assert(fs.take(i + 1)[0] == fs[0]);
        assert(fs.take(i)[0] == fs[0]);
        assert(tl[i - 1] == fs[i]);
    }
}

/// The views of a sequence of frames.
pub open spec fn frame_views(fs: Seq<Frame>) -> Seq<FrameView> {
    fs.map_values(|f: Frame| f@)
}

/// Relies on core::str::from_utf8: it returns Ok exactly on input that is
/// valid UTF-8, and then decodes the bytes to the characters that vstd's
/// UTF-8 model gives.
#[verifier::external_body]
fn utf8_decode(b: &[u8]) -> (r: Option<String>)
    ensures
        r is Some <==> valid_utf8(b@),
        r matches Some(s) ==> s@ == decode_utf8(b@),
{
    match core::str::from_utf8(b) {
        Ok(s) => Some(s.to_string()),
        Err(_) => None,
    }
}

impl Frame {
    /// A final text frame carrying the UTF-8 encoding of `message`.
    pub fn text(message: String) -> (f: Frame)
        ensures
            f@.opcode == Opcode::Text,
            f@.fin,
            f@.payload == encode_utf8(message@),
            f@.declared == f@.payload.len(),
            f@.header == 0,
            f@.mask is None,
            frame_wf(f@),
            frame_full(f@),
    {
        let payload: Vec<u8> = message.as_str().as_bytes_vec();
        let n: usize = payload.len();
        Frame { opcode: Opcode::Text, fin: true, payload, declared_len: n, mask: None, header_len: 0 }
    }

    /// A final binary frame carrying `data` as its payload.
    pub fn bytes(data: Vec<u8>) -> (f: Frame)
        ensures
            f@.opcode == Opcode::Binary,
            f@.fin,
            f@.payload == data@,
            f@.declared == f@.payload.len(),
            f@.header == 0,
            f@.mask is None,
            frame_wf(f@),
            frame_full(f@),
    {
        let n: usize = data.len();
        Frame { opcode: Opcode::Binary, fin: true, payload: data, declared_len: n, mask: None, header_len: 0 }
    }

    /// An empty ping frame.
    pub fn ping() -> (f: Frame)
        ensures
            f@.opcode == Opcode::Ping,
            f@.fin,
            f@.payload.len() == 0,
            f@.declared == f@.payload.len(),
            f@.header == 0,
            f@.mask is None,
            frame_wf(f@),
            frame_full(f@),
    {
        Frame {
            opcode: Opcode::Ping,
            fin: true,
            payload: Vec::new(),
            declared_len: 0,
            mask: None,
            header_len: 0,
        }
    }

    /// An empty pong frame.
    pub fn pong() -> (f: Frame)
        ensures
            f@.opcode == Opcode::Pong,
            f@.fin,
            f@.payload.len() == 0,
            f@.declared == f@.payload.len(),
            f@.header == 0,
            f@.mask is None,
            frame_wf(f@),
            frame_full(f@),
    {
        Frame {
            opcode: Opcode::Pong,
            fin: true,
            payload: Vec::new(),
            declared_len: 0,
            mask: None,
            header_len: 0,
        }
    }

    /// A pong frame echoing `payload`, as the reply to a ping.
    pub fn pong_with(payload: Vec<u8>) -> (f: Frame)
        ensures
            f@.opcode == Opcode::Pong,
            f@.fin,
            f@.payload == payload@,
            f@.declared == f@.payload.len(),
            f@.header == 0,
            f@.mask is None,
            frame_wf(f@),
            frame_full(f@),
    {
        let n: usize = payload.len();
        Frame { opcode: Opcode::Pong, fin: true, payload, declared_len: n, mask: None, header_len: 0 }
    }

    /// A close frame whose payload is the two-byte big-endian status code.
    pub fn closing(statuscode: CloseCode) -> (f: Frame)
        ensures
            f@.opcode == Opcode::ConnectionClose,
            f@.fin,
            f@.payload == close_payload(statuscode),
            f@.declared == f@.payload.len(),
            f@.header == 0,
            f@.mask is None,
            frame_wf(f@),
            frame_full(f@),
    {
        let v: u16 = statuscode.value();
        let mut payload: Vec<u8> = Vec::new();
        payload.push((v / 256) as u8);
        payload.push((v % 256) as u8);
        proof {
            assert(payload@ =~= close_payload(statuscode));
        }
        Frame {
            opcode: Opcode::ConnectionClose,
            fin: true,
            payload,
            declared_len: 2,
            mask: None,
            header_len: 0,
        }
    }

    /// The status code carried in this close frame's payload; a payload
    /// shorter than two bytes or an unknown code yields a protocol error.
    pub fn get_closing_code(&self) -> (r: CloseCode)
        ensures
            r == spec_closing_code(self@.payload),
    {
        if self.payload.len() < 2 {
            return CloseCode::ProtocolError;
        }
        let v: u16 = (self.payload[0] as u16) * 256 + (self.payload[1] as u16);
        match CloseCode::from_value(v) {
            Some(c) => c,
            None => CloseCode::ProtocolError,
        }
    }

    /// The UTF-8 reason text after the status code of this close frame's
    /// payload. A payload shorter than the status code yields a protocol
    /// error; malformed text yields an invalid-data error.
    pub fn get_closing_reason(&self) -> (r: Result<String, CloseCode>)
        ensures
            self@.payload.len() < 2 ==> r == Err::<String, CloseCode>(CloseCode::ProtocolError),
            self@.payload.len() >= 2 && valid_utf8(self@.payload.skip(2)) ==> (r matches Ok(s)
                && s@ == decode_utf8(self@.payload.skip(2))),
            self@.payload.len() >= 2 && !valid_utf8(self@.payload.skip(2)) ==> r == Err::<
                String,
                CloseCode,
            >(CloseCode::InvalidData),
    {
        if self.payload.len() < 2 {
            return Err(CloseCode::ProtocolError);
        }
        let tail: &[u8] = &self.payload.as_slice()[2..self.payload.len()];
        proof {
            assert(tail@ =~= self@.payload.skip(2));
        }
        match utf8_decode(tail) {
            Some(s) => Ok(s),
            None => Err(CloseCode::InvalidData),
        }
    }

    /// The payloads of `frames`, concatenated in order: the reassembled
    /// bytes of a fragmented message.
    pub fn payload_as_bytes(frames: &Vec<Frame>) -> (r: Vec<u8>)
        ensures
            r@ == frames_payload(frame_views(frames@)),
    {
        let views = Ghost(frame_views(frames@));
        let mut out: Vec<u8> = Vec::new();
        let mut i: usize = 0;
        while i < frames.len()
            invariant
                0 <= i <= frames@.len(),
                views@ == frame_views(frames@),
                views@.len() == frames@.len(),
                out@ == frames_payload(views@.take(i as int)),
            decreases frames@.len() - i,
        {
            let mut j: usize = 0;
            while j < frames[i].payload.len()
                invariant
                    0 <= i < frames@.len(),
                    0 <= j <= frames@[i as int]@.payload.len(),
                    views@ == frame_views(frames@),
                    views@.len() == frames@.len(),
                    out@ == frames_payload(views@.take(i as int)) + frames@[i as int]@.payload.take(
                        j as int,
                    ),
                decreases frames@[i as int]@.payload.len() - j,
            {
                out.push(frames[i].payload[j]);
                proof {
                    assert(frames@[i as int]@.payload.take(j + 1) =~= frames@[
                        i as int
                    ]@.payload.take(j as int).push(frames@[i as int]@.payload[j as int]));
                }
                j = j + 1;
            }
            proof {
                assert(frames@[i as int]@.payload.take(
                    frames@[i as int]@.payload.len() as int,
                ) =~= frames@[i as int]@.payload);
                lemma_frames_payload_snoc(views@, i as int);
                assert(views@[i as int] == frames@[i as int]@);
            }
            i = i + 1;
        }
        proof {
            assert(views@.take(frames@.len() as int) =~= views@);
        }
        out
    }

    /// The reassembled payload of `frames` decoded as UTF-8 text; malformed
    /// text yields an invalid-data error.
    pub fn payload_as_string(frames: &Vec<Frame>) -> (r: Result<String, CloseCode>)
        ensures
            valid_utf8(frames_payload(frame_views(frames@))) ==> (r matches Ok(s) && s@
                == decode_utf8(frames_payload(frame_views(frames@)))),
            !valid_utf8(frames_payload(frame_views(frames@))) ==> r == Err::<String, CloseCode>(
                CloseCode::InvalidData,
            ),
    {
        let bytes: Vec<u8> = Frame::payload_as_bytes(frames);
        match utf8_decode(bytes.as_slice()) {
            Some(s) => Ok(s),
            None => Err(CloseCode::InvalidData),
        }
    }
}

/// A client-encoded frame decodes back to the frame it came from: the
/// opcode, the fin flag and the payload survive the masked round trip.
#[verifier::rlimit(100)]
#[verifier::spinoff_prover]
pub proof fn lemma_client_round_trip(f: FrameView, key: Seq<u8>)
    requires
        frame_wf(f),
        frame_full(f),
        key.len() == 4,
        f.payload.len() + 14 <= usize::MAX,
    ensures
        ({
            let b = encode_client(f, key);
            &&& !need_more(b)
            &&& !header_bad(b)
            &&& parsed_frame(b).opcode == f.opcode
            &&& parsed_frame(b).fin == f.fin
            &&& parsed_frame(b).payload == f.payload
            &&& frame_full(parsed_frame(b))
            &&& frame_consumed(b) == b.len()
        }),
{
    let n = f.payload.len();
    let lf = len_field(n);
    let b = encode_client(f, key);
    let v = opcode_value(f.opcode);
    assert(v < 16);
    assert(b[0] == first_byte(f));
    assert(b[1] == (lf[0] + 128) as u8);
    assert(fin_bit(b) == f.fin);
    assert(opcode_nibble(b) == v);
    assert(spec_opcode_of(v) == Some(f.opcode));
    assert(is_masked(b));
    assert(lf[0] < 128);
    assert(base_len(b) == lf[0]);
    if n < 126 {
        assert(lf =~= seq![n as u8]);
        assert(b.len() == 6 + n);
        assert(header_len(b) == 6);
        assert(payload_len(b) == n);
    } else if n < 0x10000 {
        assert(base_len(b) == 126);
        assert(header_len(b) == 8);
        assert(lf.skip(1) =~= seq![((n / 256) % 256) as u8, (n % 256) as u8]);
        assert(b.len() == 8 + n);
        assert(b.subrange(2, 4) =~= lf.skip(1));
        assert(payload_len(b) == be_value(b.subrange(2, 4)));
        assert(be_value(b.subrange(2, 4)) == n) by {
            reveal_with_fuel(be_value, 3);
            assert(b.subrange(2, 4).drop_last() =~= b.subrange(2, 3));
            assert(b.subrange(2, 3).drop_last() =~= b.subrange(2, 2));
            assert(b.subrange(2, 2) =~= Seq::<u8>::empty());
            assert(b.subrange(2, 3)[0] == ((n / 256) % 256) as u8);
            assert(b.subrange(2, 4)[1] == (n % 256) as u8);
        }
    } else {
        assert(base_len(b) == 127);
        assert(header_len(b) == 14);
        assert(b.len() == 14 + n);
        assert(payload_len(b) == be_value(b.subrange(2, 10)));
        assert(be_value(b.subrange(2, 10)) == n) by {
            reveal_with_fuel(be_value, 9);
            assert(b.subrange(2, 10).drop_last() =~= b.subrange(2, 9));
            assert(b.subrange(2, 9).drop_last() =~= b.subrange(2, 8));
            assert(b.subrange(2, 8).drop_last() =~= b.subrange(2, 7));
            assert(b.subrange(2, 7).drop_last() =~= b.subrange(2, 6));
            assert(b.subrange(2, 6).drop_last() =~= b.subrange(2, 5));
            assert(b.subrange(2, 5).drop_last() =~= b.subrange(2, 4));
            assert(b.subrange(2, 4).drop_last() =~= b.subrange(2, 3));
            assert(b.subrange(2, 3).drop_last() =~= b.subrange(2, 2));
            assert(b.subrange(2, 2) =~= Seq::<u8>::empty());
            assert forall|t: int| 0 <= t < 8 implies b.subrange(2, 10)[t] == lf.skip(1)[t] by {}
            let w = n as u64;
            assert(((w / 0x100000000000000) % 256) * 0x100000000000000 + ((w / 0x1000000000000)
                % 256) * 0x1000000000000 + ((w / 0x10000000000) % 256) * 0x10000000000 + ((w
                / 0x100000000) % 256) * 0x100000000 + ((w / 0x1000000) % 256) * 0x1000000 + ((w
                / 0x10000) % 256) * 0x10000 + ((w / 0x100) % 256) * 0x100 + (w % 256) == w)
                by (bit_vector);
        }
    }
    assert(!need_more(b));
    assert(!header_bad(b));
    assert(mask_key(b) =~= key);
    assert(avail_payload(b) == n);
    let h = header_len(b) as int;
    let raw = b.subrange(h, h + avail_payload(b) as int);
    assert(raw =~= mask_seq(f.payload, key, 0));
    lemma_mask_involution(f.payload, key, 0);
    assert(parsed_frame(b).payload =~= f.payload);
    assert(frame_consumed(b) == b.len());
}

} // verus!
