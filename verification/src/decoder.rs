//! The framer: a per-flow state machine that pulls `(message_id, length)`
//! headers out of TCP payloads, reassembles message bodies that span several
//! segments, decodes each complete body, and queues the decoded records.
//!
//! `spec_run` is the single meaning of segment processing; `decode_packet_at`
//! is proved to follow it exactly.

use vstd::prelude::*;

use crate::bytespec::{be_value, lemma_be_value_bound};
use crate::cursor::ByteCursor;
use crate::deserialize::{spec_de_type, MAX_TYPE_DEPTH};
use crate::schema::{CatalogV, SchemaCatalog};
use crate::value::{Fields, FieldsV};

verus! {

/// Which side of the connection a message came from, derived from the TCP
/// source port: the server speaks from port 5555.
#[derive(Clone, Copy, Debug, PartialEq, Eq, Structural)]
pub enum Source {
    Server,
    Client,
}

/// One decoded message, ready for the consumer.
pub struct DofusPacket {
    pub source: Source,
    /// Unix timestamp taken when the message completed.
    pub time: i64,
    pub id: u16,
    pub name: String,
    /// The body bytes as declared by the header's length field.
    pub raw: Vec<u8>,
    pub body: Fields,
}

/// Mathematical form of a decoded message.
pub struct DofusPacketV {
    pub source: Source,
    pub time: i64,
    pub id: u16,
    pub name: Seq<char>,
    pub raw: Seq<u8>,
    pub body: FieldsV,
}

impl DofusPacket {
    pub open spec fn view(&self) -> DofusPacketV {
        DofusPacketV {
            source: self.source,
            time: self.time,
            id: self.id,
            name: self.name@,
            raw: self.raw@,
            body: self.body.view(),
        }
    }
}

/// Views of a sequence of packets, elementwise.
pub open spec fn packets_view(s: Seq<DofusPacket>) -> Seq<DofusPacketV> {
    Seq::new(s.len(), |i: int| s[i].view())
}

/// Mathematical form of the framer state.
pub struct DecoderV {
    pub cat: CatalogV,
    /// Body bytes accumulated for a message that spans segments.
    pub pending: Seq<u8>,
    pub split: bool,
    pub split_id: u16,
    pub split_len: int,
    pub split_port: u16,
    pub queue: Seq<DofusPacketV>,
}

pub open spec fn spec_source(port: u16) -> Source {
    if port == 5555 {
        Source::Server
    } else {
        Source::Client
    }
}

/// The record a complete message yields, if any: `None` when the id has no
/// message spec or the body does not decode. A zero-length body yields an
/// empty record without consulting the decoder.
pub open spec fn spec_record(
    bytes: Seq<u8>,
    start: int,
    raw: Seq<u8>,
    length: int,
    id: u16,
    port: u16,
    now: i64,
    cat: CatalogV,
) -> Option<DofusPacketV> {
    match cat.msg_name(id) {
        None => None,
        Some(nm) => {
            if length == 0 {
                Some(
                    DofusPacketV {
                        source: spec_source(port),
                        time: now,
                        id: id,
                        name: nm,
                        raw: raw,
                        body: Seq::empty(),
                    },
                )
            } else {
                match spec_de_type(bytes.skip(start), nm, cat, MAX_TYPE_DEPTH as nat) {
                    Ok((f, c)) => Some(
                        DofusPacketV {
                            source: spec_source(port),
                            time: now,
                            id: id,
                            name: nm,
                            raw: raw,
                            body: f,
                        },
                    ),
                    Err(e) => None,
                }
            }
        },
    }
}

/// What one pass over the segment at `pos` does: stop for this segment, or
/// continue at a later position with a new state.
pub enum StepV {
    Done(DecoderV),
    Next(DecoderV, int),
}

/// The width of the length field for each header length type.
pub open spec fn spec_len_width(lt: u16) -> int {
    if lt == 0 {
        0
    } else if lt == 1 {
        1
    } else if lt == 2 {
        2
    } else {
        3
    }
}

/// One step of the framer at `pos` in the segment.
///
/// Reassembling: move body bytes into the pending buffer; once the declared
/// length is reached, decode the pending body, queue the record, and go idle.
///
/// Idle: parse `u16 hi`, with `id = hi >> 2` and a length type `hi & 3`; a
/// client-sourced frame carries a `u32` instance id that is discarded. An
/// unknown id, a header underflow or a one-byte remainder ends the segment.
/// A body longer than the remainder starts reassembly; message id 0 is a
/// keepalive that ends the segment; otherwise the body is decoded in place
/// and the position moves to the declared end of the body, whatever the
/// decoder consumed.
pub open spec fn spec_step(st: DecoderV, seg: Seq<u8>, pos: int, port: u16, now: i64) -> StepV {
    if st.split {
        let avail = seg.len() - pos;
        if st.pending.len() + avail < st.split_len {
            StepV::Done(DecoderV { pending: st.pending + seg.skip(pos), ..st })
        } else {
            let need = st.split_len - st.pending.len();
            let take = if need < 0 {
                0
            } else {
                need
            };
            let body = st.pending + seg.subrange(pos, pos + take);
            let q2 = match spec_record(
                body,
                0,
                body,
                st.split_len,
                st.split_id,
                st.split_port,
                now,
                st.cat,
            ) {
                Some(r) => st.queue.push(r),
                None => st.queue,
            };
            StepV::Next(
                DecoderV {
                    pending: Seq::empty(),
                    split: false,
                    split_id: 0,
                    split_len: 0,
                    split_port: 0,
                    queue: q2,
                    ..st
                },
                pos + take,
            )
        }
    } else {
        let avail = seg.len() - pos;
        if avail < 2 {
            StepV::Done(st)
        } else {
            let hi = be_value(seg, pos, 2) as u16;
            let id = hi / 4;
            let lt = hi % 4;
            let p1 = pos + 2;
            if port != 5555 && seg.len() - p1 < 4 {
                StepV::Done(st)
            } else {
                let p2 = if port != 5555 {
                    p1 + 4
                } else {
                    p1
                };
                match st.cat.msg_name(id) {
                    None => StepV::Done(st),
                    Some(nm) => {
                        let w = spec_len_width(lt);
                        if seg.len() - p2 < w {
                            StepV::Done(st)
                        } else {
                            let length: int = if lt == 0 {
                                0
                            } else {
                                be_value(seg, p2, w as nat) as int
                            };
                            let p3 = p2 + w;
                            if length > seg.len() - p3 {
                                StepV::Done(
                                    DecoderV {
                                        pending: seg.skip(p3),
                                        split: true,
                                        split_id: id,
                                        split_len: length,
                                        split_port: port,
                                        ..st
                                    },
                                )
                            } else if id == 0 {
                                StepV::Done(st)
                            } else {
                                let raw = seg.subrange(p3, p3 + length);
                                let q2 = match spec_record(
                                    seg,
                                    p3,
                                    raw,
                                    length,
                                    id,
                                    port,
                                    now,
                                    st.cat,
                                ) {
                                    Some(r) => st.queue.push(r),
                                    None => st.queue,
                                };
                                StepV::Next(DecoderV { queue: q2, ..st }, p3 + length)
                            }
                        }
                    },
                }
            }
        }
    }
}

/// A continuing step lands inside the segment, and a step that does not move
/// the position leaves reassembly.
pub proof fn lemma_step_next_bounds(st: DecoderV, seg: Seq<u8>, pos: int, port: u16, now: i64)
    requires
        0 <= pos < seg.len(),
    ensures
        match spec_step(st, seg, pos, port, now) {
            StepV::Next(st2, p2) => pos <= p2 <= seg.len() && (p2 == pos ==> st.split
                && !st2.split),
            StepV::Done(_) => true,
        },
{
    if !st.split {
        let avail = seg.len() - pos;
        if avail >= 2 {
            let hi = be_value(seg, pos, 2) as u16;
            let lt = hi % 4;
            let w = spec_len_width(lt);
            assert(w >= 0);
        }
    }
}

/// Processing a whole segment from `pos` on: step until a step ends the
/// segment or the bytes run out.
pub open spec fn spec_run(st: DecoderV, seg: Seq<u8>, pos: int, port: u16, now: i64) -> DecoderV
    decreases
            seg.len() - pos,
            (if st.split {
                1int
            } else {
                0int
            }),
        via spec_run_dec
{
    if !(0 <= pos < seg.len()) {
        st
    } else {
        match spec_step(st, seg, pos, port, now) {
            StepV::Done(st2) => st2,
            StepV::Next(st2, p2) => spec_run(st2, seg, p2, port, now),
        }
    }
}

#[via_fn]
proof fn spec_run_dec(st: DecoderV, seg: Seq<u8>, pos: int, port: u16, now: i64) {
    if 0 <= pos < seg.len() {
        lemma_step_next_bounds(st, seg, pos, port, now);
    }
}

/// The framer's invariant: no pending bytes while idle, and fewer pending
/// bytes than the awaited length while reassembling.
pub open spec fn spec_decoder_inv(st: DecoderV) -> bool {
    &&& (st.split ==> st.pending.len() < st.split_len)
    &&& (!st.split ==> st.pending.len() == 0)
}

/// One decoder per flow direction: the immutable catalog, the reassembly
/// state, and the queue of decoded records awaiting the consumer.
pub struct PacketDecoder {
    catalog: SchemaCatalog,
    sba: ByteCursor,
    split_packet: bool,
    split_packet_id: u16,
    split_packet_length: usize,
    split_packet_port: u16,
    queue: Vec<DofusPacket>,
}

impl PacketDecoder {
    pub closed spec fn view(&self) -> DecoderV {
        DecoderV {
            cat: self.catalog.view(),
            pending: self.sba.bytes(),
            split: self.split_packet,
            split_id: self.split_packet_id,
            split_len: self.split_packet_length as int,
            split_port: self.split_packet_port,
            queue: packets_view(self.queue@),
        }
    }

    pub closed spec fn wf(&self) -> bool {
        &&& self.sba.wf()
        &&& self.sba.pos() == 0
        &&& spec_decoder_inv(self.view())
    }

    /// A fresh, idle decoder over the given catalog.
    pub fn new(catalog: SchemaCatalog) -> (r: PacketDecoder)
        ensures
            r.wf(),
            r.view() == (DecoderV {
                cat: catalog.view(),
                pending: Seq::<u8>::empty(),
                split: false,
                split_id: 0,
                split_len: 0,
                split_port: 0,
                queue: Seq::<DofusPacketV>::empty(),
            }),
    {
        let r = PacketDecoder {
            catalog,
            sba: ByteCursor::new(),
            split_packet: false,
            split_packet_id: 0,
            split_packet_length: 0,
            split_packet_port: 0,
            queue: Vec::new(),
        };
        proof {
            assert(packets_view(r.queue@) =~= Seq::<DofusPacketV>::empty());
        }
        r
    }

    /// Hands out the queued records, oldest first, and empties the queue.
    pub fn get_messages(&mut self) -> (r: Vec<DofusPacket>)
        requires
            old(self).wf(),
        ensures
            final(self).wf(),
            packets_view(r@) == old(self).view().queue,
            final(self).view() == (DecoderV { queue: Seq::<DofusPacketV>::empty(), ..old(
                self,
            ).view() }),
    {
        let mut q: Vec<DofusPacket> = Vec::new();
        proof {
            assert(packets_view(q@) =~= Seq::<DofusPacketV>::empty());
        }
        core::mem::swap(&mut self.queue, &mut q);
        q
    }

    /// Decodes one complete message body read at the cursor: the record, or
    /// `None` when the id has no message spec or the body does not decode.
    fn parse_record(
        cur: &mut ByteCursor,
        length: usize,
        id: u16,
        port: u16,
        now: i64,
        raw: Vec<u8>,
        cat: &SchemaCatalog,
    ) -> (r: Option<DofusPacket>)
        requires
            old(cur).wf(),
        ensures
            final(cur).wf(),
            final(cur).bytes() == old(cur).bytes(),
            old(cur).pos() <= final(cur).pos() <= old(cur).bytes().len(),
            match spec_record(
                old(cur).bytes(),
                old(cur).pos(),
                raw@,
                length as int,
                id,
                port,
                now,
                cat.view(),
            ) {
                Some(rv) => r matches Some(p) && p.view() == rv,
                None => r is None,
            },
    {
        let name = match cat.msg_name(id) {
            None => {
                return None;
            },
            Some(nm) => nm.clone(),
        };
        let source = if port == 5555 {
            Source::Server
        } else {
            Source::Client
        };
        if length == 0 {
            Some(DofusPacket { source, time: now, id, name, raw, body: Fields::new() })
        } else {
            match crate::deserialize::deserialize(cur, &name, cat) {
                Ok(body) => Some(DofusPacket { source, time: now, id, name, raw, body }),
                Err(_) => None,
            }
        }
    }

    /// One reassembling pass: keep buffering, or finish the pending message.
    fn step_reassemble(&mut self, ba: &mut ByteCursor, port: u16, now: i64) -> (cont: bool)
        requires
            old(self).wf(),
            old(ba).wf(),
            old(self).view().split,
            0 <= old(ba).pos() < old(ba).bytes().len(),
        ensures
            final(self).wf(),
            final(ba).wf(),
            final(ba).bytes() == old(ba).bytes(),
            old(ba).pos() <= final(ba).pos() <= final(ba).bytes().len(),
            match spec_step(old(self).view(), old(ba).bytes(), old(ba).pos(), port, now) {
                StepV::Done(st2) => !cont && final(self).view() == st2,
                StepV::Next(st2, p2) => cont && final(self).view() == st2 && final(ba).pos() == p2,
            },
    {
        let ghost st = old(self).view();
        let ghost seg = old(ba).bytes();
        let ghost pos = old(ba).pos();
        let avail = ba.bytes_available();
        let pend_len = self.sba.len();
        let need = self.split_packet_length - pend_len;
        if avail < need {
            ba.swap_bytes(&mut self.sba, avail);
            proof {
                assert(self.sba.bytes() =~= st.pending + seg.skip(pos));
            }
            false
        } else {
            ba.swap_bytes(&mut self.sba, need);
            proof {
                assert(self.sba.bytes() =~= st.pending + seg.subrange(pos, pos + need));
            }
            let body_len = self.sba.len();
            let raw = self.sba.peek_bytes(body_len);
            proof {
                assert(raw@ =~= self.sba.bytes());
            }
            let rec = Self::parse_record(
                &mut self.sba,
                self.split_packet_length,
                self.split_packet_id,
                self.split_packet_port,
                now,
                raw,
                &self.catalog,
            );
            let ghost q0 = self.queue@;
            match rec {
                Some(p) => {
                    self.queue.push(p);
                    proof {
                        assert(packets_view(self.queue@) =~= packets_view(q0).push(
                            self.queue@[self.queue@.len() - 1].view(),
                        ));
                    }
                },
                None => {},
            }
            self.sba = ByteCursor::new();
            self.split_packet = false;
            self.split_packet_id = 0;
            self.split_packet_length = 0;
            self.split_packet_port = 0;
            true
        }
    }

    /// One idle pass: parse a header and handle its message.
    #[verifier::rlimit(100)]
    fn step_idle(&mut self, ba: &mut ByteCursor, port: u16, now: i64) -> (cont: bool)
        requires
            old(self).wf(),
            old(ba).wf(),
            !old(self).view().split,
            0 <= old(ba).pos() < old(ba).bytes().len(),
        ensures
            final(self).wf(),
            final(ba).wf(),
            final(ba).bytes() == old(ba).bytes(),
            old(ba).pos() <= final(ba).pos() <= final(ba).bytes().len(),
            match spec_step(old(self).view(), old(ba).bytes(), old(ba).pos(), port, now) {
                StepV::Done(st2) => !cont && final(self).view() == st2,
                StepV::Next(st2, p2) => cont && final(self).view() == st2 && final(ba).pos() == p2,
            },
    {
        let ghost st = old(self).view();
        let ghost seg = old(ba).bytes();
        let ghost pos = old(ba).pos();
        if ba.bytes_available() < 2 {
            return false;
        }
        let hi = match ba.read_u16() {
            Ok(h) => h,
            Err(_) => {
                proof {
                    assert(false);
                }
                return false;
            },
        };
        let id = hi / 4;
        let lt = hi % 4;
        if port != 5555 {
            match ba.read_u32() {
                Ok(_) => {},
                Err(_) => {
                    return false;
                },
            }
        }
        match self.catalog.msg_name(id) {
            None => {
                return false;
            },
            Some(_) => {},
        }
        let ghost p2 = ba.pos();
        let length: usize = if lt == 0 {
            0
        } else if lt == 1 {
            proof {
                reveal_with_fuel(be_value, 2);
            }
            match ba.read_u8() {
                Ok(b) => b as usize,
                Err(_) => {
                    return false;
                },
            }
        } else if lt == 2 {
            proof {
                if ba.remaining() >= 2 {
                    lemma_be_value_bound(seg, p2, 2);
                }
            }
            match ba.read_u16() {
                Ok(v) => v as usize,
                Err(_) => {
                    return false;
                },
            }
        } else {
            if ba.bytes_available() < 3 {
                return false;
            }
            let b0 = match ba.read_u8() {
                Ok(b) => b,
                Err(_) => {
                    proof {
                        assert(false);
                    }
                    return false;
                },
            };
            let b1 = match ba.read_u8() {
                Ok(b) => b,
                Err(_) => {
                    proof {
                        assert(false);
                    }
                    return false;
                },
            };
            let b2 = match ba.read_u8() {
                Ok(b) => b,
                Err(_) => {
                    proof {
                        assert(false);
                    }
                    return false;
                },
            };
            proof {
                reveal_with_fuel(be_value, 4);
                lemma_be_value_bound(seg, p2, 3);
            }
            b0 as usize * 65536 + b1 as usize * 256 + b2 as usize
        };
        let ghost p3 = ba.pos();
        if length > ba.bytes_available() {
            self.split_packet = true;
            self.split_packet_port = port;
            self.split_packet_length = length;
            self.split_packet_id = id;
            let avail = ba.bytes_available();
            ba.swap_bytes(&mut self.sba, avail);
            proof {
                assert(self.sba.bytes() =~= st.pending + seg.skip(p3));
                assert(self.sba.bytes() =~= seg.skip(p3));
            }
            return false;
        }
        if id == 0 {
            return false;
        }
        let total = ba.len();
        let p0 = ba.get_rpos();
        proof {
            assert(p0 + length <= total);
        }
        let raw = ba.peek_bytes(length);
        let rec = Self::parse_record(ba, length, id, port, now, raw, &self.catalog);
        let ghost q0 = self.queue@;
        match rec {
            Some(p) => {
                self.queue.push(p);
                proof {
                    assert(packets_view(self.queue@) =~= packets_view(q0).push(
                        self.queue@[self.queue@.len() - 1].view(),
                    ));
                }
            },
            None => {},
        }
        ba.set_rpos(p0 + length);
        true
    }

    /// Feeds one TCP payload into the framer at the given timestamp: every
    /// message that completes is decoded and queued, exactly as `spec_run`
    /// describes.
    pub fn decode_packet_at(&mut self, tcp_content: &[u8], port: u16, now: i64)
        requires
            old(self).wf(),
        ensures
            final(self).wf(),
            final(self).view() == spec_run(old(self).view(), tcp_content@, 0, port, now),
    {
        let mut ba = ByteCursor::from_slice(tcp_content);
        while ba.bytes_available() > 0
            invariant
                self.wf(),
                ba.wf(),
                ba.bytes() == tcp_content@,
                spec_run(old(self).view(), tcp_content@, 0, port, now) == spec_run(
                    self.view(),
                    tcp_content@,
                    ba.pos(),
                    port,
                    now,
                ),
            decreases
                    ba.bytes().len() - ba.pos(),
                    (if self.view().split {
                        1int
                    } else {
                        0int
                    }),
        {
            let ghost st_pre = self.view();
            let ghost pos_pre = ba.pos();
            proof {
                lemma_step_next_bounds(st_pre, tcp_content@, pos_pre, port, now);
            }
            let cont = if self.split_packet {
                self.step_reassemble(&mut ba, port, now)
            } else {
                self.step_idle(&mut ba, port, now)
            };
            if !cont {
                return ;
            }
        }
    }

    /// Feeds one TCP payload into the framer, stamping completed messages
    /// with the current time.
    pub fn decode_packet(&mut self, tcp_content: &[u8], port: u16)
        requires
            old(self).wf(),
        ensures
            final(self).wf(),
            exists|t: i64|
                final(self).view() == spec_run(old(self).view(), tcp_content@, 0, port, t),
    {
        let now = now_timestamp();
        self.decode_packet_at(tcp_content, port, now);
    }
}

/// Relies on chrono's `Local::now`: the current local time as a Unix
/// timestamp. Nothing is promised of the value; it depends on the clock.
#[verifier::external_body]
fn now_timestamp() -> i64 {
    chrono::Local::now().timestamp()
}

} // verus!
