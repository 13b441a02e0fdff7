//! CTAPHID framing: splitting messages into fixed-size packets and reassembling
//! them per logical channel.
use std::collections::HashMap;
use vstd::prelude::*;

verus! {

broadcast use vstd::std_specs::hash::group_hash_axioms;

/// Size of every HID report on the CTAP interface.
pub const PACKET_SIZE: usize = 64;

/// Payload bytes carried by an initialisation packet.
pub const INIT_DATA: usize = 57;

/// Payload bytes carried by a continuation packet.
pub const CONT_DATA: usize = 59;

/// Largest message: one initialisation packet and 128 continuation packets.
pub const MAX_MESSAGE: usize = 7609;

/// Command byte of a CTAP2 (CBOR) message.
pub const CTAPHID_CBOR: u8 = 0x90;

/// Command byte of a transport error report.
pub const CTAPHID_ERROR: u8 = 0xBF;

/// A fully reassembled CTAPHID message.
pub struct Message {
    pub channel: u32,
    /// Command byte, high bit set.
    pub command: u8,
    pub payload: Vec<u8>,
}

pub struct MessageModel {
    pub channel: u32,
    pub command: u8,
    pub payload: Seq<u8>,
}

impl View for Message {
    type V = MessageModel;

    open spec fn view(&self) -> MessageModel {
        MessageModel { channel: self.channel, command: self.command, payload: self.payload@ }
    }
}

impl MessageModel {
    /// A message that can be framed: a command byte and a payload within bounds.
    pub open spec fn wf(self) -> bool {
        self.command >= 0x80 && self.payload.len() <= MAX_MESSAGE
    }
}

/// The bytes of a channel id, most significant first.
pub open spec fn channel_bytes(c: u32) -> Seq<u8> {
    seq![(c >> 24u32) as u8, (c >> 16u32) as u8, (c >> 8u32) as u8, c as u8]
}

/// The channel id read from the first four bytes of a packet.
pub open spec fn channel_of(p: Seq<u8>) -> u32 {
    ((p[0] as u32) << 24u32) | ((p[1] as u32) << 16u32) | ((p[2] as u32) << 8u32) | (p[3] as u32)
}

/// `n` payload bytes starting at `start`, zero past the end of the payload.
pub open spec fn padded_chunk(payload: Seq<u8>, start: int, n: int) -> Seq<u8> {
    Seq::new(n as nat, |j: int| if start + j < payload.len() { payload[start + j] } else { 0u8 })
}

/// Offset in the payload of the chunk carried by continuation packet `k`.
pub open spec fn cont_offset(k: int) -> int {
    INIT_DATA + CONT_DATA * k
}

/// Number of continuation packets a payload of `len` bytes needs.
pub open spec fn cont_count(len: nat) -> nat {
    if len <= INIT_DATA {
        0
    } else {
        ((len - INIT_DATA + CONT_DATA - 1) / (CONT_DATA as int)) as nat
    }
}

pub open spec fn init_packet(m: MessageModel) -> Seq<u8> {
    channel_bytes(m.channel) + seq![
        m.command,
        (m.payload.len() / 256) as u8,
        (m.payload.len() % 256) as u8,
    ] + padded_chunk(m.payload, 0, INIT_DATA as int)
}

pub open spec fn cont_packet(m: MessageModel, k: int) -> Seq<u8> {
    channel_bytes(m.channel) + seq![k as u8] + padded_chunk(
        m.payload,
        cont_offset(k),
        CONT_DATA as int,
    )
}

/// The packets that carry a message, in the order they are sent.
pub open spec fn fragment_spec(m: MessageModel) -> Seq<Seq<u8>> {
    seq![init_packet(m)] + Seq::new(cont_count(m.payload.len()), |k: int| cont_packet(m, k))
}

/// A message whose reassembly on a channel has begun and not yet finished.
pub struct PartialModel {
    pub command: u8,
    pub total: nat,
    pub data: Seq<u8>,
    pub next_seq: nat,
}

impl PartialModel {
    pub open spec fn wf(self) -> bool {
        &&& INIT_DATA < self.total <= MAX_MESSAGE
        &&& self.data.len() < self.total
        &&& self.data.len() == cont_offset(self.next_seq as int)
    }
}

/// What became of a packet handed to the reassembler.
pub enum IngestModel {
    Incomplete,
    Complete(MessageModel),
    Busy,
    Overflow,
    Malformed,
}

pub open spec fn is_init(p: Seq<u8>) -> bool {
    p[4] >= 0x80
}

pub open spec fn declared_length(p: Seq<u8>) -> nat {
    (p[5] as nat) * 256 + (p[6] as nat)
}

/// One reassembly step over the open buffers, keyed by channel.
pub open spec fn ingest_spec(bufs: Map<u32, PartialModel>, p: Seq<u8>) -> (Map<
    u32,
    PartialModel,
>, IngestModel) {
    if p.len() != PACKET_SIZE {
        (bufs, IngestModel::Malformed)
    } else {
        let cid = channel_of(p);
        if is_init(p) {
            let total = declared_length(p);
            if bufs.contains_key(cid) {
                (bufs.remove(cid), IngestModel::Busy)
            } else if total > MAX_MESSAGE {
                (bufs, IngestModel::Overflow)
            } else if total <= INIT_DATA {
                (
                    bufs,
                    IngestModel::Complete(
                        MessageModel { channel: cid, command: p[4], payload: p.subrange(7, 7 + total as int) },
                    ),
                )
            } else {
                (
                    bufs.insert(
                        cid,
                        PartialModel {
                            command: p[4],
                            total,
                            data: p.subrange(7, PACKET_SIZE as int),
                            next_seq: 0,
                        },
                    ),
                    IngestModel::Incomplete,
                )
            }
        } else if !bufs.contains_key(cid) {
            (bufs, IngestModel::Malformed)
        } else {
            let b = bufs[cid];
            if p[4] != b.next_seq {
                (bufs.remove(cid), IngestModel::Malformed)
            } else {
                let need = b.total - b.data.len();
                let n = if need < CONT_DATA { need } else { CONT_DATA as int };
                let data = b.data + p.subrange(5, 5 + n);
                if data.len() == b.total {
                    (
                        bufs.remove(cid),
                        IngestModel::Complete(
                            MessageModel { channel: cid, command: b.command, payload: data },
                        ),
                    )
                } else {
                    (
                        bufs.insert(cid, PartialModel { data, next_seq: b.next_seq + 1, ..b }),
                        IngestModel::Incomplete,
                    )
                }
            }
        }
    }
}

/// Feeds packets in order; the buffers afterwards and the outcome of the last one.
pub open spec fn ingest_all(bufs: Map<u32, PartialModel>, ps: Seq<Seq<u8>>) -> (Map<
    u32,
    PartialModel,
>, IngestModel)
    decreases ps.len(),
{
    if ps.len() == 0 {
        (bufs, IngestModel::Incomplete)
    } else {
        ingest_spec(ingest_all(bufs, ps.drop_last()).0, ps.last())
    }
}


/// An open reassembly buffer.
pub struct Partial {
    pub command: u8,
    pub total: usize,
    pub data: Vec<u8>,
    pub next_seq: u8,
}

impl View for Partial {
    type V = PartialModel;

    open spec fn view(&self) -> PartialModel {
        PartialModel {
            command: self.command,
            total: self.total as nat,
            data: self.data@,
            next_seq: self.next_seq as nat,
        }
    }
}

/// What became of a packet handed to [`Reassembler::ingest`].
pub enum Ingest {
    /// The packet was taken; the message is not complete yet.
    Incomplete,
    Complete(Message),
    /// An initialisation packet arrived while its channel had a message open.
    Busy,
    /// The declared length exceeds [`MAX_MESSAGE`].
    Overflow,
    /// Wrong packet size, a continuation with no open message, or a wrong sequence number.
    Malformed,
}

impl View for Ingest {
    type V = IngestModel;

    open spec fn view(&self) -> IngestModel {
        match self {
            Ingest::Incomplete => IngestModel::Incomplete,
            Ingest::Complete(m) => IngestModel::Complete(m@),
            Ingest::Busy => IngestModel::Busy,
            Ingest::Overflow => IngestModel::Overflow,
            Ingest::Malformed => IngestModel::Malformed,
        }
    }
}

/// Transport failures, reported back on the channel they happened on.
#[derive(Clone, Copy, Debug, PartialEq, Eq, Structural)]
pub enum TransportError {
    BufferOverflow,
    ChannelBusy,
    Malformed,
}

/// CTAPHID error code of a transport failure.
pub open spec fn transport_code(e: TransportError) -> u8 {
    match e {
        TransportError::BufferOverflow => 0x03,
        TransportError::Malformed => 0x04,
        TransportError::ChannelBusy => 0x06,
    }
}

impl TransportError {
    pub fn code(&self) -> (r: u8)
        ensures
            r == transport_code(*self),
    {
        match self {
            TransportError::BufferOverflow => 0x03,
            TransportError::Malformed => 0x04,
            TransportError::ChannelBusy => 0x06,
        }
    }
}

impl Ingest {
    /// The transport failure this outcome reports, if any.
    pub fn error(&self) -> (r: Option<TransportError>)
        ensures
            r == (match self@ {
                IngestModel::Busy => Some(TransportError::ChannelBusy),
                IngestModel::Overflow => Some(TransportError::BufferOverflow),
                IngestModel::Malformed => Some(TransportError::Malformed),
                _ => None,
            }),
    {
        match self {
            Ingest::Busy => Some(TransportError::ChannelBusy),
            Ingest::Overflow => Some(TransportError::BufferOverflow),
            Ingest::Malformed => Some(TransportError::Malformed),
            _ => None,
        }
    }
}

/// The error report for `e` on `channel`: one byte, the error code.
pub fn error_message(channel: u32, e: TransportError) -> (r: Message)
    ensures
        r@ == (MessageModel { channel, command: CTAPHID_ERROR, payload: seq![transport_code(e)] }),
        r@.wf(),
{
    let mut payload: Vec<u8> = Vec::new();
    payload.push(e.code());
    assert(payload@ =~= seq![transport_code(e)]);
    Message { channel, command: CTAPHID_ERROR, payload }
}

/// Per-channel reassembly state: at most one open message per channel.
pub struct Reassembler {
    bufs: HashMap<u32, Partial>,
}

impl View for Reassembler {
    type V = Map<u32, PartialModel>;

    closed spec fn view(&self) -> Map<u32, PartialModel> {
        self.bufs@.map_values(|p: Partial| p@)
    }
}

/// Appends `src[start..end]` to `dst`.
fn append_range(dst: &mut Vec<u8>, src: &[u8], start: usize, end: usize)
    requires
        start <= end <= src@.len(),
    ensures
        final(dst)@ == old(dst)@ + src@.subrange(start as int, end as int),
{
    let ghost base = dst@;
    let mut i: usize = start;
    while i < end
        invariant
            start <= i <= end <= src@.len(),
            dst@ == base + src@.subrange(start as int, i as int),
        decreases end - i,
    {
        dst.push(src[i]);
        i = i + 1;
        assert(dst@ =~= base + src@.subrange(start as int, i as int));
    }
}

/// Appends `n` payload bytes from `start`, zero-filled past the payload's end.
fn push_chunk(pkt: &mut Vec<u8>, payload: &Vec<u8>, start: usize, n: usize)
    requires
        start + n <= usize::MAX,
    ensures
        final(pkt)@ == old(pkt)@ + padded_chunk(payload@, start as int, n as int),
{
    let ghost base = pkt@;
    let mut j: usize = 0;
    while j < n
        invariant
            j <= n,
            start + n <= usize::MAX,
            pkt@ == base + padded_chunk(payload@, start as int, j as int),
        decreases n - j,
    {
        let b: u8 = if start + j < payload.len() {
            payload[start + j]
        } else {
            0
        };
        pkt.push(b);
        j = j + 1;
        assert(pkt@ =~= base + padded_chunk(payload@, start as int, j as int));
    }
}

fn push_channel(pkt: &mut Vec<u8>, c: u32)
    ensures
        final(pkt)@ == old(pkt)@ + channel_bytes(c),
{
    pkt.push((c >> 24u32) as u8);
    pkt.push((c >> 16u32) as u8);
    pkt.push((c >> 8u32) as u8);
    pkt.push(c as u8);
    assert(pkt@ =~= old(pkt)@ + channel_bytes(c));
}

/// The channel id a packet is addressed to.
pub fn packet_channel(packet: &[u8]) -> (r: u32)
    requires
        packet@.len() >= 4,
    ensures
        r == channel_of(packet@),
{
    ((packet[0] as u32) << 24u32) | ((packet[1] as u32) << 16u32) | ((packet[2] as u32) << 8u32) | (
    packet[3] as u32)
}

/// Splits a message into the packets that carry it: an initialisation packet,
/// then continuation packets numbered from 0, the last one zero-padded.
pub fn fragment(msg: &Message) -> (r: Vec<Vec<u8>>)
    requires
        msg@.wf(),
    ensures
        r@.len() == fragment_spec(msg@).len(),
        forall|i: int| 0 <= i < r@.len() ==> #[trigger] r@[i]@ == fragment_spec(msg@)[i],
        packet_views(r@) == fragment_spec(msg@),
{
    let len = msg.payload.len();
    let mut first: Vec<u8> = Vec::new();
    push_channel(&mut first, msg.channel);
    first.push(msg.command);
    first.push((len / 256) as u8);
    first.push((len % 256) as u8);
    push_chunk(&mut first, &msg.payload, 0, INIT_DATA);
    assert(first@ =~= init_packet(msg@));
    let mut out: Vec<Vec<u8>> = Vec::new();
    out.push(first);
    let count: usize = if len <= INIT_DATA {
        0
    } else {
        (len - INIT_DATA + CONT_DATA - 1) / CONT_DATA
    };
    assert(count <= 128);
    let mut k: usize = 0;
    while k < count
        invariant
            msg@.wf(),
            len == msg.payload@.len(),
            count == cont_count(len as nat),
            count <= 128,
            k <= count,
            out@.len() == k + 1,
            forall|i: int| 0 <= i < out@.len() ==> #[trigger] out@[i]@ == fragment_spec(msg@)[i],
        decreases count - k,
    {
        let mut pkt: Vec<u8> = Vec::new();
        push_channel(&mut pkt, msg.channel);
        pkt.push(k as u8);
        push_chunk(&mut pkt, &msg.payload, INIT_DATA + CONT_DATA * k, CONT_DATA);
        assert(pkt@ =~= cont_packet(msg@, k as int));
        out.push(pkt);
        k = k + 1;
    }
    assert(packet_views(out@) =~= fragment_spec(msg@));
    out
}

impl Reassembler {
    /// Every open buffer is consistent with its declared length and sequence.
    pub open spec fn wf(&self) -> bool {
        forall|c: u32| #[trigger] self@.contains_key(c) ==> self@[c].wf()
    }

    pub fn new() -> (r: Reassembler)
        ensures
            r.wf(),
            r@ == Map::<u32, PartialModel>::empty(),
    {
        let r = Reassembler { bufs: HashMap::new() };
        assert(r@ =~= Map::<u32, PartialModel>::empty());
        r
    }

    /// Drops every open buffer, as on a bus reset.
    pub fn reset(&mut self)
        ensures
            final(self).wf(),
            final(self)@ == Map::<u32, PartialModel>::empty(),
    {
        self.bufs.clear();
        assert(self@ =~= Map::<u32, PartialModel>::empty());
    }

    /// Whether `channel` has a message open.
    pub fn is_open(&self, channel: u32) -> (r: bool)
        ensures
            r == self@.contains_key(channel),
    {
        self.bufs.contains_key(&channel)
    }

    /// Takes one packet: opens, extends, completes or rejects the message of its channel.
    pub fn ingest(&mut self, packet: &[u8]) -> (r: Ingest)
        requires
            old(self).wf(),
        ensures
            final(self).wf(),
            (final(self)@, r@) == ingest_spec(old(self)@, packet@),
    {
        if packet.len() != PACKET_SIZE {
            return Ingest::Malformed;
        }
        let cid = packet_channel(packet);
        let kind = packet[4];
        if kind >= 0x80 {
            let total: usize = (packet[5] as usize) * 256 + (packet[6] as usize);
            if self.bufs.contains_key(&cid) {
                self.bufs.remove(&cid);
                assert(self@ =~= old(self)@.remove(cid));
                return Ingest::Busy;
            }
            if total > MAX_MESSAGE {
                return Ingest::Overflow;
            }
            if total <= INIT_DATA {
                let mut payload: Vec<u8> = Vec::new();
                append_range(&mut payload, packet, 7, 7 + total);
                assert(payload@ =~= packet@.subrange(7, 7 + total as int));
                return Ingest::Complete(Message { channel: cid, command: kind, payload });
            }
            let mut data: Vec<u8> = Vec::new();
            append_range(&mut data, packet, 7, PACKET_SIZE);
            assert(data@ =~= packet@.subrange(7, PACKET_SIZE as int));
            let b = Partial { command: kind, total, data, next_seq: 0 };
            self.bufs.insert(cid, b);
            assert(self@ =~= old(self)@.insert(cid, b@));
            Ingest::Incomplete
        } else {
            match self.bufs.remove(&cid) {
                None => {
                    assert(self@ =~= old(self)@);
                    Ingest::Malformed
                },
                Some(b) => {
                    assert(self@ =~= old(self)@.remove(cid));
                    assert(old(self).bufs@.contains_key(cid));
                    assert(old(self)@.contains_key(cid));
                    assert(old(self)@[cid] == b@);
                    assert(b@.wf());
                    if kind != b.next_seq {
                        return Ingest::Malformed;
                    }
                    let mut b = b;
                    let need = b.total - b.data.len();
                    let n = if need < CONT_DATA {
                        need
                    } else {
                        CONT_DATA
                    };
                    append_range(&mut b.data, packet, 5, 5 + n);
                    if b.data.len() == b.total {
                        Ingest::Complete(Message { channel: cid, command: b.command, payload: b.data })
                    } else {
                        b.next_seq = b.next_seq + 1;
                        self.bufs.insert(cid, b);
                        assert(self@ =~= old(self)@.insert(cid, b@));
                        Ingest::Incomplete
                    }
                },
            }
        }
    }
}

pub open spec fn packet_views(ps: Seq<Vec<u8>>) -> Seq<Seq<u8>> {
    ps.map_values(|p: Vec<u8>| p@)
}

/// Feeds `packets` in order to a reassembler with nothing open and returns
/// the message completed by the last one, if it completes one.
pub fn reassemble(packets: &Vec<Vec<u8>>) -> (r: Option<Message>)
    ensures
        match ingest_all(Map::<u32, PartialModel>::empty(), packet_views(packets@)).1 {
            IngestModel::Complete(m) => r is Some && r->0@ == m,
            _ => r is None,
        },
{
    let ghost ps = packet_views(packets@);
    let mut re = Reassembler::new();
    let mut last = Ingest::Incomplete;
    let mut i: usize = 0;
    while i < packets.len()
        invariant
            ps == packet_views(packets@),
            i <= packets@.len(),
            re.wf(),
            (re@, last@) == ingest_all(Map::<u32, PartialModel>::empty(), ps.take(i as int)),
        decreases packets@.len() - i,
    {
        assert(ps.take(i + 1).drop_last() =~= ps.take(i as int));
        assert(ps.take(i + 1).last() == packets@[i as int]@);
        last = re.ingest(packets[i].as_slice());
        i = i + 1;
    }
    assert(ps.take(i as int) =~= ps);
    match last {
        Ingest::Complete(m) => Some(m),
        _ => None,
    }
}

proof fn lemma_channel_prefix(c: u32, rest: Seq<u8>)
    ensures
        channel_of(channel_bytes(c) + rest) == c,
        (channel_bytes(c) + rest).len() == 4 + rest.len(),
{
    let p = channel_bytes(c) + rest;
    assert(p[0] == (c >> 24u32) as u8);
    assert(p[1] == (c >> 16u32) as u8);
    assert(p[2] == (c >> 8u32) as u8);
    assert(p[3] == c as u8);
    assert(((((c >> 24u32) as u8) as u32) << 24u32) | ((((c >> 16u32) as u8) as u32) << 16u32) | ((
    ((c >> 8u32) as u8) as u32) << 8u32) | ((c as u8) as u32) == c) by (bit_vector);
}

proof fn lemma_cont_count(len: nat, k: nat)
    requires
        INIT_DATA < len,
    ensures
        k < cont_count(len) <==> cont_offset(k as int) < len,
{
    let x = len - INIT_DATA;
    assert(cont_count(len) == (x + 58) / 59);
    assert(k < (x + 58) / 59 <==> 59 * k < x) by (nonlinear_arith)
        requires
            x > 0,
    ;
}

/// Partial state after the first `k + 1` packets of a long message.
pub open spec fn partial_after(m: MessageModel, k: nat) -> PartialModel {
    PartialModel {
        command: m.command,
        total: m.payload.len(),
        data: m.payload.take(cont_offset(k as int)),
        next_seq: k,
    }
}

proof fn lemma_reassemble_prefix(bufs: Map<u32, PartialModel>, m: MessageModel, k: nat)
    requires
        m.wf(),
        !bufs.contains_key(m.channel),
        k <= cont_count(m.payload.len()),
    ensures
        ingest_all(bufs, fragment_spec(m).take(k + 1 as int)) == (if k < cont_count(m.payload.len()) {
            (bufs.insert(m.channel, partial_after(m, k)), IngestModel::Incomplete)
        } else {
            (bufs, IngestModel::Complete(m))
        }),
    decreases k,
{
    let f = fragment_spec(m);
    let len = m.payload.len();
    let n = cont_count(len);
    assert(n <= 128);
    if k == 0 {
        let p = init_packet(m);
        let rest = seq![m.command, (len / 256) as u8, (len % 256) as u8] + padded_chunk(
            m.payload,
            0,
            INIT_DATA as int,
        );
        assert(p =~= channel_bytes(m.channel) + rest);
        lemma_channel_prefix(m.channel, rest);
        assert(f.take(1).drop_last() =~= Seq::<Seq<u8>>::empty());
        assert(f.take(1).last() == p);
        assert(ingest_all(bufs, Seq::<Seq<u8>>::empty()) == (bufs, IngestModel::Incomplete));
        assert(ingest_all(bufs, f.take(1)) == ingest_spec(bufs, p));
        assert(p[4] == m.command);
        assert(p[5] == (len / 256) as u8);
        assert(p[6] == (len % 256) as u8);
        assert(declared_length(p) == len);
        if len <= INIT_DATA {
            assert(n == 0);
            assert(p.subrange(7, 7 + len as int) =~= m.payload);
            assert(ingest_spec(bufs, p) == (bufs, IngestModel::Complete(m)));
        } else {
            lemma_cont_count(len, 0);
            assert(p.subrange(7, PACKET_SIZE as int) =~= m.payload.take(INIT_DATA as int));
            assert(ingest_spec(bufs, p) == (
                bufs.insert(m.channel, partial_after(m, 0)),
                IngestModel::Incomplete,
            ));
        }
    } else {
        let j = (k - 1) as nat;
        lemma_reassemble_prefix(bufs, m, j);
        lemma_cont_count(len, j);
        lemma_cont_count(len, k);
        let p = cont_packet(m, j as int);
        let off = cont_offset(j as int);
        let rest = seq![j as u8] + padded_chunk(m.payload, off, CONT_DATA as int);
        assert(p =~= channel_bytes(m.channel) + rest);
        lemma_channel_prefix(m.channel, rest);
        assert(f.take(k + 1 as int).drop_last() =~= f.take(j + 1 as int));
        assert(f.take(k + 1 as int).last() == p);
        assert(p[4] == j as u8);
        let b0 = bufs.insert(m.channel, partial_after(m, j));
        assert(b0[m.channel] == partial_after(m, j));
        let need = len - off;
        let c = if need < CONT_DATA { need } else { CONT_DATA as int };
        assert(p.subrange(5, 5 + c) =~= m.payload.subrange(off, off + c));
        assert(m.payload.take(off) + m.payload.subrange(off, off + c) =~= m.payload.take(off + c));
        assert(ingest_all(bufs, f.take(k + 1 as int)) == ingest_spec(b0, p));
        if k < n {
            assert(off + c == cont_offset(k as int));
            assert(b0.insert(m.channel, partial_after(m, k)) =~= bufs.insert(
                m.channel,
                partial_after(m, k),
            ));
        } else {
            assert(off + c == len);
            assert(m.payload.take(len as int) =~= m.payload);
            assert(b0.remove(m.channel) =~= bufs);
        }
    }
}

/// Reassembling the packets of a message on a channel with no open message
/// gives back exactly that message, and leaves the other channels as they
/// were; in particular `reassemble(fragment(m))` is `m`.
pub proof fn lemma_reassemble_fragment(bufs: Map<u32, PartialModel>, m: MessageModel)
    requires
        m.wf(),
        !bufs.contains_key(m.channel),
    ensures
        ingest_all(bufs, fragment_spec(m)) == (bufs, IngestModel::Complete(m)),
{
    let n = cont_count(m.payload.len());
    assert(n <= 128);
    lemma_reassemble_prefix(bufs, m, n);
    assert(fragment_spec(m).take(n + 1 as int) =~= fragment_spec(m));
}

/// Channels are independent: an initialisation packet on a channel that has a
/// message open is refused as busy, while one on a channel with nothing open is
/// taken exactly as if no other channel had anything open, and leaves the other
/// channels' open messages as they were.
pub proof fn lemma_busy_per_channel(bufs: Map<u32, PartialModel>, p: Seq<u8>, q: Seq<u8>)
    requires
        p.len() == PACKET_SIZE,
        q.len() == PACKET_SIZE,
        is_init(p),
        is_init(q),
        bufs.contains_key(channel_of(p)),
        !bufs.contains_key(channel_of(q)),
    ensures
        ingest_spec(bufs, p).1 == IngestModel::Busy,
        ingest_spec(bufs, q).1 != IngestModel::Busy,
        ingest_spec(bufs, q).1 == ingest_spec(Map::<u32, PartialModel>::empty(), q).1,
        forall|c: u32|
            c != channel_of(q) && #[trigger] bufs.contains_key(c) ==> ingest_spec(
                bufs,
                q,
            ).0.contains_key(c) && ingest_spec(bufs, q).0[c] == bufs[c],
{
}

} // verus!
