use vstd::prelude::*;
use crate::block::{bit_at, byte_bit, le_bytes, u64_from_le};
use crate::error::VoleError;
use crate::field::{all_wf, le_nat, modulus, values, Fe};

verus! {

/// A frame: the length as eight little-endian bytes, then the payload.
pub open spec fn frame(len: nat, payload: Seq<u8>) -> Seq<u8> {
    le_bytes(len, 8) + payload
}

/// The byte that packs bits `8 * j .. 8 * j + k` of `bits`, bit `8 * j + t` at weight `2^t`.
pub open spec fn pack_byte(bits: Seq<bool>, j: int, k: int) -> u8
    decreases k,
{
    if k <= 0 {
        0u8
    } else if 8 * j + k - 1 < bits.len() && bits[8 * j + k - 1] {
        pack_byte(bits, j, k - 1) | (1u8 << ((k - 1) as u8))
    } else {
        pack_byte(bits, j, k - 1)
    }
}

/// The bits packed eight to a byte, lowest bit first; the last byte is padded with zero bits.
pub open spec fn pack_bits(bits: Seq<bool>) -> Seq<u8> {
    Seq::new(((bits.len() + 7) / 8) as nat, |j: int| pack_byte(bits, j, 8))
}

/// The first `n` bits of a packed payload.
pub open spec fn unpack_bits(payload: Seq<u8>, n: nat) -> Seq<bool> {
    Seq::new(n, |i: int| bit_at(payload, i))
}

/// The bytes of 16-byte strings, one string after the other.
pub open spec fn flat16(blocks: Seq<Seq<u8>>) -> Seq<u8> {
    Seq::new(16 * blocks.len(), |i: int| blocks[i / 16][i % 16])
}

/// The bytes of 32-byte strings, one string after the other.
pub open spec fn flat32(blocks: Seq<Seq<u8>>) -> Seq<u8> {
    Seq::new(32 * blocks.len(), |i: int| blocks[i / 32][i % 32])
}

/// The canonical encodings of field values.
pub open spec fn field_encodings(vals: Seq<nat>) -> Seq<Seq<u8>> {
    Seq::new(vals.len(), |i: int| le_bytes(vals[i], 32))
}

/// The frame of a bit vector: its length in bits, then the packed bits.
pub open spec fn bits_frame(bits: Seq<bool>) -> Seq<u8> {
    frame(bits.len(), pack_bits(bits))
}

/// The frame of 16-byte blocks: their length in bytes, then the blocks.
pub open spec fn blocks16_frame(blocks: Seq<Seq<u8>>) -> Seq<u8> {
    frame(16 * blocks.len(), flat16(blocks))
}

/// The frame of 32-byte blocks: their length in bytes, then the blocks.
pub open spec fn blocks32_frame(blocks: Seq<Seq<u8>>) -> Seq<u8> {
    frame(32 * blocks.len(), flat32(blocks))
}

/// The frame of field elements: their length in bytes, then the canonical encodings of their values.
pub open spec fn field_frame(vals: Seq<nat>) -> Seq<u8> {
    frame(32 * vals.len(), flat32(field_encodings(vals)))
}

/// The frame of an encoded curve point: its length in bytes, then the encoding.
pub open spec fn point_frame(point: Seq<u8>) -> Seq<u8> {
    frame(point.len(), point)
}

/// What reading one frame with a payload of `payload_len(n)` bytes finds at the head of `s`, where `n` is the
/// number in the header: the header's number and the payload, or nothing if `s` ends too early.
pub open spec fn split_frame(s: Seq<u8>, bits: bool) -> Option<(nat, Seq<u8>)> {
    if s.len() < 8 {
        None
    } else {
        let n = le_nat(s.take(8));
        let len: int = if bits {
            (n as int + 7) / 8
        } else {
            n as int
        };
        if s.len() - 8 < len {
            None
        } else {
            Some((n, s.subrange(8, 8 + len)))
        }
    }
}

/// What `receive_bits` returns on unread bytes `s`.
pub open spec fn parse_bits(s: Seq<u8>) -> Result<Seq<bool>, VoleError> {
    match split_frame(s, true) {
        None => Err(VoleError::ShortRead),
        Some((n, payload)) => Ok(unpack_bits(payload, n)),
    }
}

/// The 16-byte blocks that a payload holds.
pub open spec fn chunks16(payload: Seq<u8>) -> Seq<Seq<u8>> {
    Seq::new((payload.len() / 16) as nat, |i: int| payload.subrange(16 * i, 16 * i + 16))
}

/// The 32-byte blocks that a payload holds.
pub open spec fn chunks32(payload: Seq<u8>) -> Seq<Seq<u8>> {
    Seq::new((payload.len() / 32) as nat, |i: int| payload.subrange(32 * i, 32 * i + 32))
}

/// What `receive_data` returns on unread bytes `s`, the blocks by their bytes.
pub open spec fn parse_blocks16(s: Seq<u8>) -> Result<Seq<Seq<u8>>, VoleError> {
    if s.len() < 8 {
        Err(VoleError::ShortRead)
    } else if le_nat(s.take(8)) % 16 != 0 {
        Err(VoleError::WireFormat)
    } else {
        match split_frame(s, false) {
            None => Err(VoleError::ShortRead),
            Some((n, payload)) => Ok(chunks16(payload)),
        }
    }
}

/// What `receive_32byte_block` returns on unread bytes `s`, the blocks by their bytes.
pub open spec fn parse_blocks32(s: Seq<u8>) -> Result<Seq<Seq<u8>>, VoleError> {
    if s.len() < 8 {
        Err(VoleError::ShortRead)
    } else if le_nat(s.take(8)) % 32 != 0 {
        Err(VoleError::WireFormat)
    } else {
        match split_frame(s, false) {
            None => Err(VoleError::ShortRead),
            Some((n, payload)) => Ok(chunks32(payload)),
        }
    }
}

/// Every 32-byte chunk of the payload stands for a number below the modulus.
pub open spec fn all_canonical(payload: Seq<u8>) -> bool {
    forall|i: int| 0 <= i < payload.len() / 32 ==> le_nat(#[trigger] chunks32(payload)[i]) < modulus()
}

/// The numbers that the 32-byte chunks of a payload stand for.
pub open spec fn chunk_values(payload: Seq<u8>) -> Seq<nat> {
    Seq::new((payload.len() / 32) as nat, |i: int| le_nat(chunks32(payload)[i]))
}

/// What `receive_stark252` returns on unread bytes `s` when `count` elements are expected, the elements by
/// their values.
pub open spec fn parse_field(s: Seq<u8>, count: nat) -> Result<Seq<nat>, VoleError> {
    if s.len() < 8 {
        Err(VoleError::ShortRead)
    } else if le_nat(s.take(8)) != 32 * count {
        Err(VoleError::WireFormat)
    } else {
        match split_frame(s, false) {
            None => Err(VoleError::ShortRead),
            Some((n, payload)) => if all_canonical(payload) {
                Ok(chunk_values(payload))
            } else {
                Err(VoleError::InvalidField)
            },
        }
    }
}

/// What `receive_point` returns on unread bytes `s`.
pub open spec fn parse_point(s: Seq<u8>) -> Result<Seq<u8>, VoleError> {
    match split_frame(s, false) {
        None => Err(VoleError::ShortRead),
        Some((n, payload)) => Ok(payload),
    }
}

/// How many bytes the frame at the head of `s` takes, header included.
pub open spec fn frame_size(s: Seq<u8>, bits: bool) -> nat {
    match split_frame(s, bits) {
        None => 0,
        Some((n, payload)) => 8 + payload.len(),
    }
}

/// The byte strings of a sequence of 16-byte blocks.
pub open spec fn views16(blocks: Seq<[u8; 16]>) -> Seq<Seq<u8>> {
    Seq::new(blocks.len(), |i: int| blocks[i]@)
}

/// The byte strings of a sequence of 32-byte blocks.
pub open spec fn views32(blocks: Seq<[u8; 32]>) -> Seq<Seq<u8>> {
    Seq::new(blocks.len(), |i: int| blocks[i]@)
}

/// A two-way byte channel held in memory. What the protocol sends is queued in `outgoing`; what the peer sent
/// is appended to `incoming` by whoever moves the bytes, and read from there frame by frame.
#[derive(Clone)]
pub struct CommunicationChannel {
    /// Every byte that the peer has delivered.
    pub incoming: Vec<u8>,
    /// How many of the delivered bytes have been read.
    pub read_pos: usize,
    /// The bytes written and not yet handed to the transport.
    pub outgoing: Vec<u8>,
    /// How many of the written bytes a flush has released to the transport.
    pub flushed: usize,
}

impl CommunicationChannel {
    /// The cursors lie inside their buffers.
    pub open spec fn wf(&self) -> bool {
        &&& self.read_pos <= self.incoming.len()
        &&& self.flushed <= self.outgoing.len()
    }

    /// The delivered bytes that have not been read yet.
    pub open spec fn unread(&self) -> Seq<u8> {
        self.incoming@.skip(self.read_pos as int)
    }

    /// The bytes written since the transport last took any.
    pub open spec fn written(&self) -> Seq<u8> {
        self.outgoing@
    }

    /// An empty channel: nothing delivered, nothing read, nothing written, nothing flushed.
    pub fn new() -> (r: Self)
        ensures
            r.wf(),
            r.incoming@ == Seq::<u8>::empty(),
            r.read_pos == 0,
            r.unread() == Seq::<u8>::empty(),
            r.written() == Seq::<u8>::empty(),
            r.flushed == 0,
    {
        let r = CommunicationChannel { incoming: Vec::new(), read_pos: 0, outgoing: Vec::new(), flushed: 0 };
        assert(r.incoming@ =~= Seq::<u8>::empty());
        assert(r.unread() =~= Seq::<u8>::empty());
        r
    }

    /// Delivers bytes that the peer has sent.
    pub fn feed(&mut self, bytes: &Vec<u8>)
        requires
            old(self).wf(),
        ensures
            final(self).wf(),
            final(self).unread() == old(self).unread() + bytes@,
            final(self).outgoing == old(self).outgoing,
            final(self).flushed == old(self).flushed,
    {
        let mut i: usize = 0;
        while i < bytes.len()
            invariant
                i <= bytes.len(),
                self.wf(),
                self.read_pos == old(self).read_pos,
                self.incoming@ == old(self).incoming@ + bytes@.take(i as int),
                self.outgoing == old(self).outgoing,
                self.flushed == old(self).flushed,
            decreases bytes.len() - i,
        {
            self.incoming.push(bytes[i]);
            assert(bytes@.take(i as int).push(bytes@[i as int]) =~= bytes@.take(i as int + 1));
            i += 1;
        }
        assert(bytes@.take(bytes.len() as int) =~= bytes@);
        assert(self.unread() =~= old(self).unread() + bytes@);
    }

    /// Releases everything written so far to the transport.
    pub fn flush(&mut self)
        requires
            old(self).wf(),
        ensures
            final(self).wf(),
            final(self).flushed == old(self).outgoing.len(),
            final(self).outgoing == old(self).outgoing,
            final(self).incoming == old(self).incoming,
            final(self).read_pos == old(self).read_pos,
    {
        self.flushed = self.outgoing.len();
    }

    /// Hands the released bytes to the transport and forgets them; what was written after the last flush
    /// stays queued.
    pub fn take_sent(&mut self) -> (r: Vec<u8>)
        requires
            old(self).wf(),
        ensures
            final(self).wf(),
            r@ == old(self).outgoing@.take(old(self).flushed as int),
            final(self).outgoing@ == old(self).outgoing@.skip(old(self).flushed as int),
            final(self).flushed == 0,
            final(self).incoming == old(self).incoming,
            final(self).read_pos == old(self).read_pos,
    {
        let mut head: Vec<u8> = Vec::new();
        let mut tail: Vec<u8> = Vec::new();
        let mut i: usize = 0;
        while i < self.outgoing.len()
            invariant
                i <= self.outgoing.len(),
                self.wf(),
                self.outgoing == old(self).outgoing,
                self.flushed == old(self).flushed,
                self.incoming == old(self).incoming,
                self.read_pos == old(self).read_pos,
                i <= self.flushed ==> head@ == self.outgoing@.take(i as int) && tail@.len() == 0,
                i > self.flushed ==> head@ == self.outgoing@.take(self.flushed as int) && tail@
                    == self.outgoing@.subrange(self.flushed as int, i as int),
            decreases self.outgoing.len() - i,
        {
            if i < self.flushed {
                head.push(self.outgoing[i]);
                assert(self.outgoing@.take(i as int).push(self.outgoing@[i as int]) =~= self.outgoing@.take(
                    i as int + 1,
                ));
            } else {
                tail.push(self.outgoing[i]);
                assert(self.outgoing@.subrange(self.flushed as int, i as int).push(self.outgoing@[i as int])
                    =~= self.outgoing@.subrange(self.flushed as int, i as int + 1));
            }
            i += 1;
        }
        proof {
            if self.flushed == self.outgoing.len() {
                assert(tail@ =~= self.outgoing@.skip(self.flushed as int));
            } else {
                assert(tail@ =~= self.outgoing@.skip(self.flushed as int));
            }
        }
        self.outgoing = tail;
        self.flushed = 0;
        head
    }

    /// Appends the eight little-endian bytes of `x` to the written bytes.
    fn put_len(&mut self, x: u64)
        requires
            old(self).wf(),
        ensures
            final(self).wf(),
            final(self).outgoing@ == old(self).outgoing@ + le_bytes(x as nat, 8),
            final(self).incoming == old(self).incoming,
            final(self).read_pos == old(self).read_pos,
            final(self).flushed == old(self).flushed,
    {
        let mut rest: u64 = x;
        let mut i: usize = 0;
        assert(self.outgoing@ + le_bytes(x as nat, 8) =~= old(self).outgoing@ + le_bytes(x as nat, 8));
        while i < 8
            invariant
                i <= 8,
                self.wf(),
                self.outgoing@ + le_bytes(rest as nat, (8 - i) as nat) == old(self).outgoing@ + le_bytes(
                    x as nat,
                    8,
                ),
                self.incoming == old(self).incoming,
                self.read_pos == old(self).read_pos,
                self.flushed == old(self).flushed,
            decreases 8 - i,
        {
            let b: u8 = (rest % 256) as u8;
            let ghost before = self.outgoing@;
            self.outgoing.push(b);
            proof {
                let tail = le_bytes((rest / 256) as nat, (7 - i) as nat);
                assert(le_bytes(rest as nat, (8 - i) as nat) == seq![b] + tail);
                assert(before.push(b) + tail =~= before + (seq![b] + tail));
            }
            rest = rest / 256;
            i += 1;
        }
        assert(le_bytes(rest as nat, 0) =~= Seq::<u8>::empty());
        assert(self.outgoing@ + Seq::<u8>::empty() =~= self.outgoing@);
    }

    /// Sends a bit vector: its length in bits, then the bits packed eight to a byte, lowest bit first.
    pub fn send_bits(&mut self, bits: &Vec<bool>)
        requires
            old(self).wf(),
            bits.len() <= u64::MAX,
        ensures
            final(self).wf(),
            final(self).written() == old(self).written() + bits_frame(bits@),
            final(self).incoming == old(self).incoming,
            final(self).read_pos == old(self).read_pos,
            final(self).flushed == old(self).flushed,
    {
        self.put_len(bits.len() as u64);
        let ghost base = self.outgoing@;
        let n = bits.len();
        let nbytes: usize = n / 8 + (if n % 8 == 0 {
            0
        } else {
            1
        });
        assert(nbytes == (n + 7) / 8);
        let mut j: usize = 0;
        while j < nbytes
            invariant
                j <= nbytes,
                n == bits.len(),
                nbytes == (n + 7) / 8,
                self.wf(),
                self.outgoing@ == base + pack_bits(bits@).take(j as int),
                self.incoming == old(self).incoming,
                self.read_pos == old(self).read_pos,
                self.flushed == old(self).flushed,
            decreases nbytes - j,
        {
            let mut cur: u8 = 0;
            let mut k: usize = 0;
            while k < 8
                invariant
                    k <= 8,
                    j < nbytes,
                    n == bits.len(),
                    nbytes == (n + 7) / 8,
                    cur == pack_byte(bits@, j as int, k as int),
                decreases 8 - k,
            {
                if 8 * j + k < n && bits[8 * j + k] {
                    cur = cur | (1u8 << (k as u8));
                }
                k += 1;
            }
            let ghost before = self.outgoing@;
            self.outgoing.push(cur);
            proof {
                assert(pack_bits(bits@).take(j as int).push(cur) =~= pack_bits(bits@).take(j as int + 1));
                assert(before.push(cur) =~= base + pack_bits(bits@).take(j as int + 1));
            }
            j += 1;
        }
        proof {
            assert(pack_bits(bits@).take(nbytes as int) =~= pack_bits(bits@));
            assert(self.outgoing@ =~= old(self).outgoing@ + bits_frame(bits@));
        }
    }

    /// Sends 16-byte blocks: their length in bytes, then the blocks.
    pub fn send_data(&mut self, data: &Vec<[u8; 16]>)
        requires
            old(self).wf(),
            16 * data.len() <= u64::MAX,
        ensures
            final(self).wf(),
            final(self).written() == old(self).written() + blocks16_frame(views16(data@)),
            final(self).incoming == old(self).incoming,
            final(self).read_pos == old(self).read_pos,
            final(self).flushed == old(self).flushed,
    {
        self.put_len((data.len() as u64) * 16);
        let ghost base = self.outgoing@;
        let mut i: usize = 0;
        while i < data.len()
            invariant
                i <= data.len(),
                self.wf(),
                self.outgoing@ == base + flat16(views16(data@)).take(16 * i as int),
                self.incoming == old(self).incoming,
                self.read_pos == old(self).read_pos,
                self.flushed == old(self).flushed,
            decreases data.len() - i,
        {
            let mut k: usize = 0;
            while k < 16
                invariant
                    k <= 16,
                    i < data.len(),
                    self.wf(),
                    self.outgoing@ == base + flat16(views16(data@)).take(16 * i as int + k as int),
                    self.incoming == old(self).incoming,
                    self.read_pos == old(self).read_pos,
                    self.flushed == old(self).flushed,
                decreases 16 - k,
            {
                let ghost before = self.outgoing@;
                self.outgoing.push(data[i][k]);
                proof {
                    let f = flat16(views16(data@));
                    let p = 16 * i as int + k as int;
                    assert(p / 16 == i as int && p % 16 == k as int);
                    assert(f[p] == data@[i as int][k as int]);
                    assert(f.take(p).push(f[p]) =~= f.take(p + 1));
                    assert(before.push(f[p]) =~= base + f.take(p + 1));
                }
                k += 1;
            }
            i += 1;
        }
        proof {
            assert(flat16(views16(data@)).take(16 * data.len() as int) =~= flat16(views16(data@)));
            assert(self.outgoing@ =~= old(self).outgoing@ + blocks16_frame(views16(data@)));
        }
    }

    /// Sends 32-byte blocks: their length in bytes, then the blocks.
    pub fn send_32byte_block(&mut self, data: &Vec<[u8; 32]>)
        requires
            old(self).wf(),
            32 * data.len() <= u64::MAX,
        ensures
            final(self).wf(),
            final(self).written() == old(self).written() + blocks32_frame(views32(data@)),
            final(self).incoming == old(self).incoming,
            final(self).read_pos == old(self).read_pos,
            final(self).flushed == old(self).flushed,
    {
        self.put_len((data.len() as u64) * 32);
        let ghost base = self.outgoing@;
        let mut i: usize = 0;
        while i < data.len()
            invariant
                i <= data.len(),
                self.wf(),
                self.outgoing@ == base + flat32(views32(data@)).take(32 * i as int),
                self.incoming == old(self).incoming,
                self.read_pos == old(self).read_pos,
                self.flushed == old(self).flushed,
            decreases data.len() - i,
        {
            let mut k: usize = 0;
            while k < 32
                invariant
                    k <= 32,
                    i < data.len(),
                    self.wf(),
                    self.outgoing@ == base + flat32(views32(data@)).take(32 * i as int + k as int),
                    self.incoming == old(self).incoming,
                    self.read_pos == old(self).read_pos,
                    self.flushed == old(self).flushed,
                decreases 32 - k,
            {
                let ghost before = self.outgoing@;
                self.outgoing.push(data[i][k]);
                proof {
                    let f = flat32(views32(data@));
                    let p = 32 * i as int + k as int;
                    assert(p / 32 == i as int && p % 32 == k as int);
                    assert(f[p] == data@[i as int][k as int]);
                    assert(f.take(p).push(f[p]) =~= f.take(p + 1));
                    assert(before.push(f[p]) =~= base + f.take(p + 1));
                }
                k += 1;
            }
            i += 1;
        }
        proof {
            assert(flat32(views32(data@)).take(32 * data.len() as int) =~= flat32(views32(data@)));
            assert(self.outgoing@ =~= old(self).outgoing@ + blocks32_frame(views32(data@)));
        }
    }

    /// Sends field elements: their length in bytes, then the canonical 32-byte encodings.
    pub fn send_stark252(&mut self, elements: &Vec<Fe>)
        requires
            old(self).wf(),
            32 * elements.len() <= u64::MAX,
        ensures
            final(self).wf(),
            final(self).written() == old(self).written() + field_frame(values(elements@)),
            final(self).incoming == old(self).incoming,
            final(self).read_pos == old(self).read_pos,
            final(self).flushed == old(self).flushed,
    {
        self.put_len((elements.len() as u64) * 32);
        let ghost base = self.outgoing@;
        let ghost encs = field_encodings(values(elements@));
        proof {
            assert forall|j: int| 0 <= j < elements.len() implies encs[j] == elements[j].bytes@ by {
                crate::block::lemma_fe_bytes(elements[j]);
            }
        }
        let mut i: usize = 0;
        while i < elements.len()
            invariant
                i <= elements.len(),
                self.wf(),
                encs == field_encodings(values(elements@)),
                forall|j: int| 0 <= j < elements.len() ==> encs[j] == elements[j].bytes@,
                self.outgoing@ == base + flat32(encs).take(32 * i as int),
                self.incoming == old(self).incoming,
                self.read_pos == old(self).read_pos,
                self.flushed == old(self).flushed,
            decreases elements.len() - i,
        {
            let mut k: usize = 0;
            while k < 32
                invariant
                    k <= 32,
                    i < elements.len(),
                    self.wf(),
                    encs == field_encodings(values(elements@)),
                    forall|j: int| 0 <= j < elements.len() ==> encs[j] == elements[j].bytes@,
                    self.outgoing@ == base + flat32(encs).take(32 * i as int + k as int),
                    self.incoming == old(self).incoming,
                    self.read_pos == old(self).read_pos,
                    self.flushed == old(self).flushed,
                decreases 32 - k,
            {
                let ghost before = self.outgoing@;
                self.outgoing.push(elements[i].bytes[k]);
                proof {
                    let f = flat32(encs);
                    let p = 32 * i as int + k as int;
                    assert(p / 32 == i as int && p % 32 == k as int);
                    assert(f[p] == elements@[i as int].bytes[k as int]);
                    assert(f.take(p).push(f[p]) =~= f.take(p + 1));
                    assert(before.push(f[p]) =~= base + f.take(p + 1));
                }
                k += 1;
            }
            i += 1;
        }
        proof {
            assert(flat32(encs).take(32 * elements.len() as int) =~= flat32(encs));
            assert(self.outgoing@ =~= old(self).outgoing@ + field_frame(values(elements@)));
        }
    }

    /// Sends an encoded curve point: its length in bytes, then the encoding.
    pub fn send_point(&mut self, point: &Vec<u8>)
        requires
            old(self).wf(),
            point.len() <= u64::MAX,
        ensures
            final(self).wf(),
            final(self).written() == old(self).written() + point_frame(point@),
            final(self).incoming == old(self).incoming,
            final(self).read_pos == old(self).read_pos,
            final(self).flushed == old(self).flushed,
    {
        self.put_len(point.len() as u64);
        let ghost base = self.outgoing@;
        let mut i: usize = 0;
        while i < point.len()
            invariant
                i <= point.len(),
                self.wf(),
                self.outgoing@ == base + point@.take(i as int),
                self.incoming == old(self).incoming,
                self.read_pos == old(self).read_pos,
                self.flushed == old(self).flushed,
            decreases point.len() - i,
        {
            self.outgoing.push(point[i]);
            assert(point@.take(i as int).push(point@[i as int]) =~= point@.take(i as int + 1));
            i += 1;
        }
        proof {
            assert(point@.take(point.len() as int) =~= point@);
            assert(self.outgoing@ =~= old(self).outgoing@ + point_frame(point@));
        }
    }

    /// Reads the header of the frame at the head of the unread bytes, without consuming anything: the number
    /// in it, or nothing if fewer than eight bytes are unread.
    fn peek_len(&self) -> (r: Option<u64>)
        requires
            self.wf(),
        ensures
            self.unread().len() < 8 ==> r.is_none(),
            self.unread().len() >= 8 ==> r == Some(le_nat(self.unread().take(8)) as u64) && le_nat(
                self.unread().take(8),
            ) <= u64::MAX,
    {
        if self.incoming.len() - self.read_pos < 8 {
            return None;
        }
        let mut h = [0u8; 8];
        let mut i: usize = 0;
        while i < 8
            invariant
                i <= 8,
                self.wf(),
                self.incoming.len() - self.read_pos >= 8,
                forall|j: int| 0 <= j < i ==> h[j] == self.incoming[self.read_pos + j],
            decreases 8 - i,
        {
            h[i] = self.incoming[self.read_pos + i];
            i += 1;
        }
        assert(h@ =~= self.unread().take(8));
        Some(u64_from_le(&h))
    }

    /// Copies `len` unread bytes that follow the eight header bytes, and consumes header and payload.
    fn take_payload(&mut self, len: usize) -> (r: Vec<u8>)
        requires
            old(self).wf(),
            old(self).unread().len() >= 8 + len,
        ensures
            final(self).wf(),
            r@ == old(self).unread().subrange(8, 8 + len),
            final(self).unread() == old(self).unread().skip(8 + len),
            final(self).read_pos == old(self).read_pos + 8 + len,
            final(self).incoming == old(self).incoming,
            final(self).outgoing == old(self).outgoing,
            final(self).flushed == old(self).flushed,
    {
        let start = self.read_pos + 8;
        let mut r: Vec<u8> = Vec::new();
        let mut i: usize = 0;
        while i < len
            invariant
                i <= len,
                self.wf(),
                start == self.read_pos + 8,
                self.incoming.len() - self.read_pos >= 8 + len,
                *self == *old(self),
                r@ == self.unread().subrange(8, 8 + i),
            decreases len - i,
        {
            r.push(self.incoming[start + i]);
            assert(self.unread().subrange(8, 8 + i).push(self.unread()[8 + i]) =~= self.unread().subrange(
                8,
                8 + i + 1,
            ));
            i += 1;
        }
        self.read_pos = start + len;
        assert(self.unread() =~= old(self).unread().skip(8 + len));
        r
    }

    /// Receives a bit vector. The stream ending inside the frame is a `ShortRead`, and leaves the channel as
    /// it was.
    pub fn receive_bits(&mut self) -> (r: Result<Vec<bool>, VoleError>)
        requires
            old(self).wf(),
        ensures
            final(self).wf(),
            final(self).incoming == old(self).incoming,
            final(self).outgoing == old(self).outgoing,
            final(self).flushed == old(self).flushed,
            match parse_bits(old(self).unread()) {
                Ok(bits) => r.is_ok() && r.unwrap()@ == bits && final(self).unread() == old(
                    self,
                ).unread().skip(frame_size(old(self).unread(), true) as int),
                Err(e) => r == Err::<Vec<bool>, VoleError>(e) && *final(self) == *old(self),
            },
    {
        let n = match self.peek_len() {
            None => {
                return Err(VoleError::ShortRead);
            },
            Some(n) => n,
        };
        let avail = self.incoming.len() - self.read_pos - 8;
        let nbytes: u64 = n / 8 + (if n % 8 == 0 {
            0
        } else {
            1
        });
        assert(nbytes == (n + 7) / 8);
        if nbytes > avail as u64 {
            return Err(VoleError::ShortRead);
        }
        let payload = self.take_payload(nbytes as usize);
        let mut bits: Vec<bool> = Vec::new();
        let mut i: u64 = 0;
        while i < n
            invariant
                i <= n,
                payload.len() == (n + 7) / 8,
                bits@ == unpack_bits(payload@, n as nat).take(i as int),
            decreases n - i,
        {
            let k: u8 = (i % 8) as u8;
            let b = (payload[(i / 8) as usize] >> k) & 1 == 1;
            bits.push(b);
            proof {
                let u = unpack_bits(payload@, n as nat);
                assert(u[i as int] == b);
                assert(u.take(i as int).push(b) =~= u.take(i as int + 1));
            }
            i += 1;
        }
        proof {
            assert(unpack_bits(payload@, n as nat).take(n as int) =~= unpack_bits(payload@, n as nat));
        }
        Ok(bits)
    }

    /// Receives an encoded curve point.  The stream ending inside the frame is a `ShortRead`, and leaves the
    /// channel as it was.
    pub fn receive_point(&mut self) -> (r: Result<Vec<u8>, VoleError>)
        requires
            old(self).wf(),
        ensures
            final(self).wf(),
            final(self).incoming == old(self).incoming,
            final(self).outgoing == old(self).outgoing,
            final(self).flushed == old(self).flushed,
            match parse_point(old(self).unread()) {
                Ok(point) => r.is_ok() && r.unwrap()@ == point && final(self).unread() == old(
                    self,
                ).unread().skip(frame_size(old(self).unread(), false) as int),
                Err(e) => r == Err::<Vec<u8>, VoleError>(e) && *final(self) == *old(self),
            },
    {
        let n = match self.peek_len() {
            None => {
                return Err(VoleError::ShortRead);
            },
            Some(n) => n,
        };
        let avail = self.incoming.len() - self.read_pos - 8;
        if n > avail as u64 {
            return Err(VoleError::ShortRead);
        }
        Ok(self.take_payload(n as usize))
    }

    /// Receives 16-byte blocks. A length that is no multiple of 16 is a `WireFormat` error, the stream
    /// ending inside the frame a `ShortRead`; either leaves the channel as it was.
    pub fn receive_data(&mut self) -> (r: Result<Vec<[u8; 16]>, VoleError>)
        requires
            old(self).wf(),
        ensures
            final(self).wf(),
            final(self).incoming == old(self).incoming,
            final(self).outgoing == old(self).outgoing,
            final(self).flushed == old(self).flushed,
            match parse_blocks16(old(self).unread()) {
                Ok(blocks) => r.is_ok() && views16(r.unwrap()@) == blocks && final(self).unread() == old(
                    self,
                ).unread().skip(frame_size(old(self).unread(), false) as int),
                Err(e) => r == Err::<Vec<[u8; 16]>, VoleError>(e) && *final(self) == *old(self),
            },
    {
        let n = match self.peek_len() {
            None => {
                return Err(VoleError::ShortRead);
            },
            Some(n) => n,
        };
        if n % 16 != 0 {
            return Err(VoleError::WireFormat);
        }
        let avail = self.incoming.len() - self.read_pos - 8;
        if n > avail as u64 {
            return Err(VoleError::ShortRead);
        }
        let payload = self.take_payload(n as usize);
        let count = payload.len() / 16;
        let mut blocks: Vec<[u8; 16]> = Vec::new();
        let mut i: usize = 0;
        while i < count
            invariant
                i <= count,
                count == payload.len() / 16,
                payload.len() % 16 == 0,
                blocks.len() == i,
                forall|j: int| 0 <= j < i ==> (#[trigger] blocks[j])@ == chunks16(payload@)[j],
            decreases count - i,
        {
            let mut b = [0u8; 16];
            let mut k: usize = 0;
            while k < 16
                invariant
                    k <= 16,
                    i < count,
                    count == payload.len() / 16,
                    forall|t: int| 0 <= t < k ==> b[t] == payload[16 * i + t],
                decreases 16 - k,
            {
                b[k] = payload[16 * i + k];
                k += 1;
            }
            assert(b@ =~= chunks16(payload@)[i as int]);
            blocks.push(b);
            i += 1;
        }
        assert(views16(blocks@) =~= chunks16(payload@));
        Ok(blocks)
    }

    /// Receives 32-byte blocks. A length that is no multiple of 32 is a `WireFormat` error, the stream
    /// ending inside the frame a `ShortRead`; either leaves the channel as it was.
    pub fn receive_32byte_block(&mut self) -> (r: Result<Vec<[u8; 32]>, VoleError>)
        requires
            old(self).wf(),
        ensures
            final(self).wf(),
            final(self).incoming == old(self).incoming,
            final(self).outgoing == old(self).outgoing,
            final(self).flushed == old(self).flushed,
            match parse_blocks32(old(self).unread()) {
                Ok(blocks) => r.is_ok() && views32(r.unwrap()@) == blocks && final(self).unread() == old(
                    self,
                ).unread().skip(frame_size(old(self).unread(), false) as int),
                Err(e) => r == Err::<Vec<[u8; 32]>, VoleError>(e) && *final(self) == *old(self),
            },
    {
        let n = match self.peek_len() {
            None => {
                return Err(VoleError::ShortRead);
            },
            Some(n) => n,
        };
        if n % 32 != 0 {
            return Err(VoleError::WireFormat);
        }
        let avail = self.incoming.len() - self.read_pos - 8;
        if n > avail as u64 {
            return Err(VoleError::ShortRead);
        }
        let payload = self.take_payload(n as usize);
        let blocks = split32(&payload);
        Ok(blocks)
    }

    /// Receives `count` field elements. A length other than `32 * count` is a `WireFormat` error, the stream
    /// ending inside the frame a `ShortRead`, an encoding that is not below the modulus an `InvalidField`;
    /// each leaves the channel as it was.
    pub fn receive_stark252(&mut self, count: usize) -> (r: Result<Vec<Fe>, VoleError>)
        requires
            old(self).wf(),
        ensures
            final(self).wf(),
            final(self).incoming == old(self).incoming,
            final(self).outgoing == old(self).outgoing,
            final(self).flushed == old(self).flushed,
            match parse_field(old(self).unread(), count as nat) {
                Ok(elements) => r.is_ok() && values(r.unwrap()@) == elements && all_wf(r.unwrap()@)
                    && r.unwrap().len() == count && final(self).unread() == old(self).unread().skip(
                    frame_size(old(self).unread(), false) as int,
                ),
                Err(e) => r == Err::<Vec<Fe>, VoleError>(e) && *final(self) == *old(self),
            },
    {
        let n = match self.peek_len() {
            None => {
                return Err(VoleError::ShortRead);
            },
            Some(n) => n,
        };
        if count as u64 > u64::MAX / 32 || n != (count as u64) * 32 {
            return Err(VoleError::WireFormat);
        }
        let avail = self.incoming.len() - self.read_pos - 8;
        if n > avail as u64 {
            return Err(VoleError::ShortRead);
        }
        let saved = self.read_pos;
        let ghost u = self.unread();
        let payload = self.take_payload(n as usize);
        let blocks = split32(&payload);
        let mut elements: Vec<Fe> = Vec::new();
        let mut i: usize = 0;
        while i < blocks.len()
            invariant
                i <= blocks.len(),
                u == old(self).unread(),
                u.len() >= 8 + n,
                le_nat(u.take(8)) == n,
                n == 32 * count,
                payload@ == u.subrange(8, 8 + n),
                self.unread() == u.skip(8 + n),
                blocks.len() == payload.len() / 32,
                views32(blocks@) == chunks32(payload@),
                elements.len() == i,
                forall|j: int| 0 <= j < i ==> (#[trigger] elements[j]).bytes@ == chunks32(payload@)[j],
                forall|j: int| 0 <= j < i ==> (#[trigger] elements[j]).wf(),
                self.wf(),
                saved == old(self).read_pos,
                saved <= self.read_pos,
                self.incoming == old(self).incoming,
                self.outgoing == old(self).outgoing,
                self.flushed == old(self).flushed,
            decreases blocks.len() - i,
        {
            assert(views32(blocks@)[i as int] == blocks[i as int]@);
            match Fe::from_bytes_le(&blocks[i]) {
                Ok(e) => {
                    elements.push(e);
                },
                Err(_) => {
                    self.read_pos = saved;
                    assert(le_nat(chunks32(payload@)[i as int]) >= modulus());
                    assert(!all_canonical(payload@));
                    return Err(VoleError::InvalidField);
                },
            }
            i += 1;
        }
        assert(values(elements@) =~= chunk_values(payload@));
        assert(all_canonical(payload@)) by {
            assert forall|j: int| 0 <= j < payload@.len() / 32 implies le_nat(
                #[trigger] chunks32(payload@)[j],
            ) < modulus() by {
                assert(elements[j].wf());
            }
        }
        Ok(elements)
    }
}

/// The byte strings of a sequence of byte vectors.
pub open spec fn vec_views(v: Seq<Vec<u8>>) -> Seq<Seq<u8>> {
    Seq::new(v.len(), |i: int| v[i]@)
}

/// A parse result with `ps` put in front of the items it found.
pub open spec fn prepend<T>(ps: Seq<T>, r: Result<(Seq<T>, Seq<u8>), VoleError>) -> Result<
    (Seq<T>, Seq<u8>),
    VoleError,
> {
    match r {
        Err(e) => Err(e),
        Ok((qs, rest)) => Ok((ps + qs, rest)),
    }
}

/// What reading `n` point frames in a row finds in `s`: the points and the bytes left over, or the first
/// error.
pub open spec fn parse_points(s: Seq<u8>, n: nat) -> Result<(Seq<Seq<u8>>, Seq<u8>), VoleError>
    decreases n,
{
    if n == 0 {
        Ok((Seq::empty(), s))
    } else {
        match parse_point(s) {
            Err(e) => Err(e),
            Ok(p) => prepend(seq![p], parse_points(s.skip(frame_size(s, false) as int), (n - 1) as nat)),
        }
    }
}

/// The frames of a sequence of points, one after the other.
pub open spec fn points_frames(points: Seq<Seq<u8>>) -> Seq<u8>
    decreases points.len(),
{
    if points.len() == 0 {
        Seq::empty()
    } else {
        points_frames(points.drop_last()) + point_frame(points.last())
    }
}

impl CommunicationChannel {
    /// Receives `n` encoded curve points, each in a frame of its own.
    pub fn receive_points(&mut self, n: usize) -> (r: Result<Vec<Vec<u8>>, VoleError>)
        requires
            old(self).wf(),
        ensures
            final(self).wf(),
            final(self).outgoing == old(self).outgoing,
            final(self).flushed == old(self).flushed,
            match parse_points(old(self).unread(), n as nat) {
                Ok((points, rest)) => r.is_ok() && vec_views(r.unwrap()@) == points && r.unwrap().len() == n
                    && final(self).unread() == rest,
                Err(e) => r == Err::<Vec<Vec<u8>>, VoleError>(e),
            },
    {
        let mut points: Vec<Vec<u8>> = Vec::new();
        let mut i: usize = 0;
        let ghost u0 = self.unread();
        proof {
            assert(vec_views(points@) =~= Seq::<Seq<u8>>::empty());
            let r0 = parse_points(u0, n as nat);
            match r0 {
                Ok((qs, rest)) => {
                    assert(Seq::<Seq<u8>>::empty() + qs =~= qs);
                },
                Err(e) => {},
            }
        }
        while i < n
            invariant
                i <= n,
                self.wf(),
                self.outgoing == old(self).outgoing,
                self.flushed == old(self).flushed,
                u0 == old(self).unread(),
                points.len() == i,
                parse_points(u0, n as nat) == prepend(vec_views(points@), parse_points(self.unread(), (n - i) as nat)),
            decreases n - i,
        {
            let ghost cur = self.unread();
            let ghost before = vec_views(points@);
            match self.receive_point() {
                Err(e) => {
                    return Err(e);
                },
                Ok(p) => {
                    points.push(p);
                    proof {
                        let tail = parse_points(self.unread(), (n - i - 1) as nat);
                        assert(vec_views(points@) =~= before + seq![p@]);
                        match tail {
                            Ok((qs, rest)) => {
                                assert(before + (seq![p@] + qs) =~= (before + seq![p@]) + qs);
                            },
                            Err(e) => {},
                        }
                    }
                },
            }
            i += 1;
        }
        proof {
            assert(vec_views(points@) + Seq::<Seq<u8>>::empty() =~= vec_views(points@));
        }
        Ok(points)
    }

    /// Sends encoded curve points, each in a frame of its own.
    pub fn send_points(&mut self, points: &Vec<Vec<u8>>)
        requires
            old(self).wf(),
        ensures
            final(self).wf(),
            final(self).written() == old(self).written() + points_frames(vec_views(points@)),
            final(self).incoming == old(self).incoming,
            final(self).read_pos == old(self).read_pos,
            final(self).flushed == old(self).flushed,
    {
        let mut i: usize = 0;
        assert(self.outgoing@ + Seq::<u8>::empty() =~= self.outgoing@);
        assert(vec_views(points@).take(0) =~= Seq::<Seq<u8>>::empty());
        while i < points.len()
            invariant
                i <= points.len(),
                self.wf(),
                self.written() == old(self).written() + points_frames(vec_views(points@).take(i as int)),
                self.incoming == old(self).incoming,
                self.read_pos == old(self).read_pos,
                self.flushed == old(self).flushed,
            decreases points.len() - i,
        {
            let ghost before = self.written();
            self.send_point(&points[i]);
            proof {
                let v = vec_views(points@);
                assert(v.take(i as int + 1).drop_last() =~= v.take(i as int));
                assert(v.take(i as int + 1).last() == points[i as int]@);
                assert(self.written() =~= old(self).written() + points_frames(v.take(i as int + 1)));
            }
            i += 1;
        }
        assert(vec_views(points@).take(points.len() as int) =~= vec_views(points@));
    }
}

/// Cuts a byte string into 32-byte blocks; bytes after the last whole block are left out.
pub fn split32(payload: &Vec<u8>) -> (blocks: Vec<[u8; 32]>)
    ensures
        blocks.len() == payload.len() / 32,
        views32(blocks@) == chunks32(payload@),
{
    let count = payload.len() / 32;
    let mut blocks: Vec<[u8; 32]> = Vec::new();
    let mut i: usize = 0;
    while i < count
        invariant
            i <= count,
            count == payload.len() / 32,
            blocks.len() == i,
            forall|j: int| 0 <= j < i ==> (#[trigger] blocks[j])@ == chunks32(payload@)[j],
        decreases count - i,
    {
        let mut b = [0u8; 32];
        let mut k: usize = 0;
        while k < 32
            invariant
                k <= 32,
                i < count,
                count == payload.len() / 32,
                forall|t: int| 0 <= t < k ==> b[t] == payload[32 * i + t],
            decreases 32 - k,
        {
            b[k] = payload[32 * i + k];
            k += 1;
        }
        assert(b@ =~= chunks32(payload@)[i as int]);
        blocks.push(b);
        i += 1;
    }
    assert(views32(blocks@) =~= chunks32(payload@));
    blocks
}


/// The header of a frame stands for the length that was framed.
pub proof fn lemma_frame_header(len: nat, payload: Seq<u8>, rest: Seq<u8>)
    requires
        len <= u64::MAX,
    ensures
        (frame(len, payload) + rest).len() == 8 + payload.len() + rest.len(),
        le_nat((frame(len, payload) + rest).take(8)) == len,
        (frame(len, payload) + rest).subrange(8, 8 + payload.len() as int) == payload,
        (frame(len, payload) + rest).skip(8 + payload.len() as int) == rest,
{
    crate::block::lemma_le_bytes(len, 8);
    let s = frame(len, payload) + rest;
    assert(s.take(8) =~= le_bytes(len, 8));
    assert(crate::field::pow256(8) == 0x1_0000_0000_0000_0000nat) by {
        reveal_with_fuel(crate::field::pow256, 9);
    }
    vstd::arithmetic::div_mod::lemma_small_mod(len, 0x1_0000_0000_0000_0000nat);
    assert(s.subrange(8, 8 + payload.len() as int) =~= payload);
    assert(s.skip(8 + payload.len() as int) =~= rest);
}

/// What was sent as 32-byte blocks is what is received: reading a frame of blocks gives the blocks back and
/// leaves what follows the frame.
pub proof fn lemma_blocks32_round_trip(blocks: Seq<Seq<u8>>, rest: Seq<u8>)
    requires
        32 * blocks.len() <= u64::MAX,
        forall|i: int| 0 <= i < blocks.len() ==> (#[trigger] blocks[i]).len() == 32,
    ensures
        parse_blocks32(blocks32_frame(blocks) + rest) == Ok::<Seq<Seq<u8>>, VoleError>(blocks),
        (blocks32_frame(blocks) + rest).skip(frame_size(blocks32_frame(blocks) + rest, false) as int) == rest,
{
    let payload = flat32(blocks);
    lemma_frame_header(32 * blocks.len(), payload, rest);
    let s = blocks32_frame(blocks) + rest;
    assert(split_frame(s, false) == Some((32 * blocks.len(), payload)));
    assert forall|i: int| 0 <= i < blocks.len() implies chunks32(payload)[i] == blocks[i] by {
        assert forall|k: int| 0 <= k < 32 implies payload[32 * i + k] == blocks[i][k] by {
            assert((32 * i + k) / 32 == i && (32 * i + k) % 32 == k);
        }
        assert(payload.subrange(32 * i, 32 * i + 32) =~= blocks[i]);
    }
    assert(chunks32(payload) =~= blocks);
}

/// What was sent as 16-byte blocks is what is received.
pub proof fn lemma_blocks16_round_trip(blocks: Seq<Seq<u8>>, rest: Seq<u8>)
    requires
        16 * blocks.len() <= u64::MAX,
        forall|i: int| 0 <= i < blocks.len() ==> (#[trigger] blocks[i]).len() == 16,
    ensures
        parse_blocks16(blocks16_frame(blocks) + rest) == Ok::<Seq<Seq<u8>>, VoleError>(blocks),
        (blocks16_frame(blocks) + rest).skip(frame_size(blocks16_frame(blocks) + rest, false) as int) == rest,
{
    let payload = flat16(blocks);
    lemma_frame_header(16 * blocks.len(), payload, rest);
    let s = blocks16_frame(blocks) + rest;
    assert(split_frame(s, false) == Some((16 * blocks.len(), payload)));
    assert forall|i: int| 0 <= i < blocks.len() implies chunks16(payload)[i] == blocks[i] by {
        assert forall|k: int| 0 <= k < 16 implies payload[16 * i + k] == blocks[i][k] by {
            assert((16 * i + k) / 16 == i && (16 * i + k) % 16 == k);
        }
        assert(payload.subrange(16 * i, 16 * i + 16) =~= blocks[i]);
    }
    assert(chunks16(payload) =~= blocks);
}

/// The canonical encoding of a field value stands for the value.
pub proof fn lemma_field_encoding(v: nat)
    requires
        v < modulus(),
    ensures
        le_nat(le_bytes(v, 32)) == v,
        le_bytes(v, 32).len() == 32,
{
    crate::block::lemma_le_bytes(v, 32);
    crate::lpn::lemma_pow256_add(8, 8);
    crate::lpn::lemma_pow256_add(16, 16);
    assert(crate::field::pow256(8) == 0x1_0000_0000_0000_0000nat) by {
        reveal_with_fuel(crate::field::pow256, 9);
    }
    let p8 = crate::field::pow256(8);
    let p16 = crate::field::pow256(16);
    assert(p16 == 0x1_0000_0000_0000_0000_0000_0000_0000_0000nat) by (nonlinear_arith)
        requires
            p16 == p8 * p8,
            p8 == 0x1_0000_0000_0000_0000nat,
    ;
    assert(crate::field::pow256(32) > modulus()) by (nonlinear_arith)
        requires
            crate::field::pow256(32) == p16 * p16,
            p16 == 0x1_0000_0000_0000_0000_0000_0000_0000_0000nat,
            modulus() == 0x0800000000000011000000000000000000000000000000000000000000000001nat,
    ;
    vstd::arithmetic::div_mod::lemma_small_mod(v, crate::field::pow256(32));
}

/// What was sent as field elements is what is received, where as many elements are expected as were sent.
pub proof fn lemma_field_round_trip(vals: Seq<nat>, rest: Seq<u8>)
    requires
        32 * vals.len() <= u64::MAX,
        forall|i: int| 0 <= i < vals.len() ==> #[trigger] vals[i] < modulus(),
    ensures
        parse_field(field_frame(vals) + rest, vals.len()) == Ok::<Seq<nat>, VoleError>(vals),
        (field_frame(vals) + rest).skip(frame_size(field_frame(vals) + rest, false) as int) == rest,
{
    let blocks = field_encodings(vals);
    assert forall|i: int| 0 <= i < blocks.len() implies (#[trigger] blocks[i]).len() == 32 && le_nat(blocks[i])
        == vals[i] by {
        lemma_field_encoding(vals[i]);
    }
    lemma_blocks32_round_trip(blocks, rest);
    let payload = flat32(blocks);
    lemma_frame_header(32 * vals.len(), payload, rest);
    let s = field_frame(vals) + rest;
    assert(s == blocks32_frame(blocks) + rest);
    assert(split_frame(s, false) == Some((32 * vals.len(), payload)));
    assert(payload.len() / 32 == vals.len());
    assert(chunks32(payload) == blocks);
    assert(chunk_values(payload) =~= vals);
    assert(all_canonical(payload));
}

/// What was sent as a point is what is received.
pub proof fn lemma_point_round_trip(point: Seq<u8>, rest: Seq<u8>)
    requires
        point.len() <= u64::MAX,
    ensures
        parse_point(point_frame(point) + rest) == Ok::<Seq<u8>, VoleError>(point),
        (point_frame(point) + rest).skip(frame_size(point_frame(point) + rest, false) as int) == rest,
{
    lemma_frame_header(point.len(), point, rest);
}

/// The bits of a packed byte are the bits that were packed.
pub proof fn lemma_pack_byte_bits(bits: Seq<bool>, j: int, k: int, m: int)
    requires
        0 <= k <= 8,
        0 <= m < 8,
        0 <= j,
    ensures
        byte_bit(pack_byte(bits, j, k), m) == (m < k && 8 * j + m < bits.len() && bits[8 * j + m]),
    decreases k,
{
    if k <= 0 {
        crate::block::lemma_byte_xor_bit(0, 0, m as u8);
    } else {
        lemma_pack_byte_bits(bits, j, k - 1, m);
        crate::block::lemma_byte_set_bit(pack_byte(bits, j, k - 1), (k - 1) as u8, m as u8);
    }
}

/// What was sent as bits is what is received.
pub proof fn lemma_bits_round_trip(bits: Seq<bool>, rest: Seq<u8>)
    requires
        bits.len() <= u64::MAX,
    ensures
        parse_bits(bits_frame(bits) + rest) == Ok::<Seq<bool>, VoleError>(bits),
        (bits_frame(bits) + rest).skip(frame_size(bits_frame(bits) + rest, true) as int) == rest,
{
    let payload = pack_bits(bits);
    lemma_frame_header(bits.len(), payload, rest);
    let s = bits_frame(bits) + rest;
    assert(split_frame(s, true) == Some((bits.len(), payload)));
    assert forall|i: int| 0 <= i < bits.len() implies unpack_bits(payload, bits.len())[i] == bits[i] by {
        lemma_pack_byte_bits(bits, i / 8, 8, i % 8);
        assert(8 * (i / 8) + i % 8 == i);
    }
    assert(unpack_bits(payload, bits.len()) =~= bits);
}

} // verus!
