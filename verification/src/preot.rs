use vstd::prelude::*;
use crate::block::{get_lsb, lemma_xor_seq_cancel, lsb, select_seq, xor_block, xor_seq, zeros};
use crate::comm_channel::{
    bits_frame, blocks32_frame, frame_size, parse_bits, parse_blocks32, views32, CommunicationChannel,
};
use crate::error::VoleError;
use crate::hash::{ccrh, CCRH};

verus! {

/// A buffer of precomputed random transfers, made from correlated transfers and used up slot by slot.
#[derive(Clone)]
pub struct OTPre {
    /// The hashes: the first `n` of the correlations, for the sender the second `n` of the correlations
    /// plus the key.
    pub pre_data: Vec<[u8; 32]>,
    /// For the receiver its choice bits of precomputation; for the sender the receiver's adjustment bits.
    pub bits: Vec<bool>,
    pub n: usize,
    /// How many bits of adjustment have been exchanged.
    pub count: usize,
    /// The number of transfers in a slot.
    pub length: usize,
    pub delta: Option<[u8; 32]>,
}

/// The bits that the receiver sends so that its precomputed choices `bits` serve for the choices it wants.
pub open spec fn adjusted_bits(choices: Seq<bool>, bits: Seq<bool>, count: int, length: int) -> Seq<bool> {
    Seq::new(length as nat, |i: int| choices[i] != bits[count + i])
}

/// The pads that the sender transmits for a slot that starts at `k`: pads `2 * i` and `2 * i + 1` hide the
/// two messages of transfer `i` under the two hashes of the slot's entry, swapped where the adjustment bit is
/// set.
pub open spec fn send_pads(
    pre_data: Seq<[u8; 32]>,
    bits: Seq<bool>,
    n: int,
    m0: Seq<Seq<u8>>,
    m1: Seq<Seq<u8>>,
    length: int,
    k: int,
) -> Seq<Seq<u8>> {
    Seq::new(
        (2 * length) as nat,
        |j: int|
            if j % 2 == 0 {
                xor_seq(m0[j / 2], pre_data[k + j / 2 + if bits[k + j / 2] {
                    n
                } else {
                    0
                }]@)
            } else {
                xor_seq(m1[j / 2], pre_data[k + j / 2 + if bits[k + j / 2] {
                    0
                } else {
                    n
                }]@)
            },
    )
}

/// What the receiver makes of the pads of a slot that starts at `k`: for each transfer, the pad that its
/// choice selects, opened with the hash of the slot's entry.
pub open spec fn recv_outputs(
    pre_data: Seq<[u8; 32]>,
    pads: Seq<Seq<u8>>,
    b: Seq<bool>,
    length: int,
    k: int,
) -> Seq<Seq<u8>> {
    Seq::new(length as nat, |i: int| xor_seq(pre_data[k + i]@, pads[2 * i + if b[i] {
        1int
    } else {
        0int
    }]))
}

impl OTPre {
    /// The buffers have the sizes that `n` asks for, and the cursor lies inside.
    pub open spec fn wf(&self) -> bool {
        &&& self.pre_data.len() == 2 * self.n
        &&& self.bits.len() == self.n
        &&& self.count <= self.n
    }

    /// A buffer for `times` slots of `length` transfers each, all zero.
    pub fn new(length: usize, times: usize) -> (r: Self)
        requires
            2 * length * times <= usize::MAX,
        ensures
            r.wf(),
            r.n == length * times,
            r.length == length,
            r.count == 0,
            r.delta.is_none(),
            forall|i: int| 0 <= i < r.bits.len() ==> !r.bits[i],
            forall|i: int| 0 <= i < r.pre_data.len() ==> (#[trigger] r.pre_data[i])@ == zeros(32),
    {
        assert(length * times <= 2 * length * times) by (nonlinear_arith);
        assert(2 * (length * times) == 2 * length * times) by (nonlinear_arith);
        let n = length * times;
        let mut pre_data: Vec<[u8; 32]> = Vec::new();
        let mut bits: Vec<bool> = Vec::new();
        let mut i: usize = 0;
        while i < n
            invariant
                i <= n,
                2 * n <= usize::MAX,
                pre_data.len() == 2 * i,
                bits.len() == i,
                forall|j: int| 0 <= j < bits.len() ==> !bits[j],
                forall|j: int| 0 <= j < pre_data.len() ==> (#[trigger] pre_data[j])@ == zeros(32),
            decreases n - i,
        {
            let z = [0u8; 32];
            assert(z@ =~= zeros(32));
            pre_data.push(z);
            pre_data.push(z);
            bits.push(false);
            i += 1;
        }
        OTPre { pre_data, bits, n, count: 0, length, delta: None }
    }

    /// The sender reads the receiver's adjustment bits for the next slot.
    pub fn choices_sender(&mut self, io: &mut CommunicationChannel) -> (r: Result<(), VoleError>)
        requires
            old(self).wf(),
            old(io).wf(),
            old(self).count + old(self).length <= old(self).n,
        ensures
            final(self).wf(),
            final(io).wf(),
            final(io).outgoing == old(io).outgoing,
            final(io).flushed == old(io).flushed,
            match parse_bits(old(io).unread()) {
                Err(e) => r == Err::<(), VoleError>(e) && *final(self) == *old(self),
                Ok(received) => if received.len() != old(self).length {
                    r == Err::<(), VoleError>(VoleError::WireFormat) && *final(self) == *old(self)
                } else {
                    &&& r == Ok::<(), VoleError>(())
                    &&& final(io).unread() == old(io).unread().skip(frame_size(old(io).unread(), true) as int)
                    &&& final(self).count == old(self).count + old(self).length
                    &&& final(self).bits@ == Seq::new(
                        old(self).n as nat,
                        |i: int|
                            if old(self).count <= i < old(self).count + old(self).length {
                                received[i - old(self).count]
                            } else {
                                old(self).bits[i]
                            },
                    )
                    &&& *final(self) == (OTPre { bits: final(self).bits, count: final(self).count, ..*old(self) })
                },
            },
    {
        let received = io.receive_bits()?;
        if received.len() != self.length {
            return Err(VoleError::WireFormat);
        }
        let mut i: usize = 0;
        while i < self.length
            invariant
                i <= self.length,
                self.wf(),
                received.len() == self.length,
                self.count + self.length <= self.n,
                *self == (OTPre { bits: self.bits, ..*old(self) }),
                forall|j: int|
                    0 <= j < self.n ==> self.bits[j] == (if self.count <= j < self.count + i {
                        received[j - self.count]
                    } else {
                        old(self).bits[j]
                    }),
            decreases self.length - i,
        {
            self.bits[self.count + i] = received[i];
            i += 1;
        }
        self.count = self.count + self.length;
        assert(self.bits@ =~= Seq::new(
            old(self).n as nat,
            |i: int|
                if old(self).count <= i < old(self).count + old(self).length {
                    received@[i - old(self).count]
                } else {
                    old(self).bits[i]
                },
        ));
        Ok(())
    }

    /// The receiver sends, for the next slot, the bits that adjust its precomputed choices to the choices
    /// it wants.
    pub fn choices_recver(&mut self, io: &mut CommunicationChannel, choices: &Vec<bool>)
        requires
            old(self).wf(),
            old(io).wf(),
            old(self).count + old(self).length <= old(self).n,
            choices.len() >= old(self).length,
        ensures
            final(self).wf(),
            final(io).wf(),
            final(io).incoming == old(io).incoming,
            final(io).read_pos == old(io).read_pos,
            final(io).flushed == old(io).flushed,
            final(io).written() == old(io).written() + bits_frame(
                adjusted_bits(choices@, old(self).bits@, old(self).count as int, old(self).length as int),
            ),
            *final(self) == (OTPre { count: (old(self).count + old(self).length) as usize, ..*old(self) }),
    {
        let mut adjusted: Vec<bool> = Vec::new();
        let mut i: usize = 0;
        while i < self.length
            invariant
                i <= self.length,
                *self == *old(self),
                self.wf(),
                self.count + self.length <= self.n,
                choices.len() >= self.length,
                adjusted.len() == i,
                forall|j: int| 0 <= j < i ==> adjusted[j] == (choices[j] != self.bits[self.count + j]),
            decreases self.length - i,
        {
            adjusted.push(choices[i] ^ self.bits[self.count + i]);
            i += 1;
        }
        assert(adjusted@ =~= adjusted_bits(choices@, self.bits@, self.count as int, self.length as int));
        io.send_bits(&adjusted);
        self.count = self.count + self.length;
    }

    /// The sender's precomputation: from its correlations and its key, the hashes of each correlation and
    /// of each correlation plus the key.
    pub fn send_pre(&mut self, data: &Vec<[u8; 32]>, delta: [u8; 32])
        requires
            old(self).wf(),
            data.len() == old(self).n,
        ensures
            final(self).wf(),
            final(self).delta == Some(delta),
            forall|i: int| 0 <= i < old(self).n ==> (#[trigger] final(self).pre_data[i])@ == ccrh(data[i]@),
            forall|i: int|
                0 <= i < old(self).n ==> (#[trigger] final(self).pre_data[old(self).n + i])@ == ccrh(
                    xor_seq(data[i]@, delta@),
                ),
            *final(self) == (OTPre { pre_data: final(self).pre_data, delta: Some(delta), ..*old(self) }),
    {
        let hasher = CCRH::new();
        self.delta = Some(delta);
        let n = self.n;
        let first = hasher.hn(data);
        let mut shifted: Vec<[u8; 32]> = Vec::new();
        let mut i: usize = 0;
        while i < n
            invariant
                i <= n,
                n == data.len(),
                shifted.len() == i,
                forall|j: int| 0 <= j < i ==> (#[trigger] shifted[j])@ == xor_seq(data[j]@, delta@),
            decreases n - i,
        {
            shifted.push(xor_block(&data[i], &delta));
            i += 1;
        }
        let second = hasher.hn(&shifted);
        let mut k: usize = 0;
        while k < n
            invariant
                k <= n,
                n == self.n,
                self.wf(),
                first.len() == n,
                second.len() == n,
                *self == (OTPre { pre_data: self.pre_data, delta: Some(delta), ..*old(self) }),
                forall|j: int| 0 <= j < k ==> #[trigger] self.pre_data[j] == first[j],
                forall|j: int| 0 <= j < k ==> #[trigger] self.pre_data[n + j] == second[j],
            decreases n - k,
        {
            self.pre_data[k] = first[k];
            self.pre_data[n + k] = second[k];
            k += 1;
        }
        proof {
            assert forall|i: int| 0 <= i < n implies (#[trigger] self.pre_data[i])@ == ccrh(data[i]@) by {
                assert(self.pre_data[i] == first[i]);
            }
            assert forall|i: int| 0 <= i < n implies (#[trigger] self.pre_data[n + i])@ == ccrh(
                xor_seq(data[i]@, delta@),
            ) by {
                assert(self.pre_data[n + i] == second[i]);
                assert(second[i]@ == ccrh(shifted[i]@));
            }
        }
    }

    /// The receiver's precomputation: from its correlations, the hash of each; its choice bits of
    /// precomputation are the given ones or, without, the lowest bit of each correlation.
    pub fn recv_pre(&mut self, data: &Vec<[u8; 32]>, bits: Option<&Vec<bool>>)
        requires
            old(self).wf(),
            data.len() == old(self).n,
            bits matches Some(b) ==> b.len() == old(self).n,
        ensures
            final(self).wf(),
            forall|i: int| 0 <= i < old(self).n ==> (#[trigger] final(self).pre_data[i])@ == ccrh(data[i]@),
            forall|i: int|
                old(self).n <= i < 2 * old(self).n ==> final(self).pre_data[i] == old(self).pre_data[i],
            forall|i: int|
                0 <= i < old(self).n ==> final(self).bits[i] == (match bits {
                    Some(b) => b[i],
                    None => lsb(data[i]@),
                }),
            *final(self) == (OTPre { pre_data: final(self).pre_data, bits: final(self).bits, ..*old(self) }),
    {
        let hasher = CCRH::new();
        let n = self.n;
        let hashes = hasher.hn(data);
        let mut i: usize = 0;
        while i < n
            invariant
                i <= n,
                n == self.n,
                n == data.len(),
                self.wf(),
                hashes.len() == n,
                bits matches Some(b) ==> b.len() == n,
                *self == (OTPre { pre_data: self.pre_data, bits: self.bits, ..*old(self) }),
                old(self).wf(),
                forall|j: int| 0 <= j < i ==> #[trigger] self.pre_data[j] == hashes[j],
                forall|j: int| i <= j < 2 * n ==> #[trigger] self.pre_data[j] == old(self).pre_data[j],
                forall|j: int|
                    0 <= j < i ==> self.bits[j] == (match bits {
                        Some(b) => b[j],
                        None => lsb(data[j]@),
                    }),
            decreases n - i,
        {
            let bit = match bits {
                Some(b) => b[i],
                None => {
                    proof {
                        lemma_lsb_bit(data[i as int]@);
                    }
                    get_lsb(&data[i])
                },
            };
            self.bits[i] = bit;
            self.pre_data[i] = hashes[i];
            i += 1;
        }
        proof {
            assert forall|i: int| 0 <= i < n implies (#[trigger] self.pre_data[i])@ == ccrh(data[i]@) by {
                assert(self.pre_data[i] == hashes[i]);
            }
        }
    }

    /// The sender transmits the pads of slot `s`: both messages of each of `length` transfers.
    pub fn send(
        &mut self,
        io: &mut CommunicationChannel,
        m0: &Vec<[u8; 32]>,
        m1: &Vec<[u8; 32]>,
        length: usize,
        s: usize,
    )
        requires
            old(self).wf(),
            old(io).wf(),
            s * length + length <= old(self).n,
            m0.len() >= length,
            m1.len() >= length,
            64 * length <= u64::MAX,
        ensures
            *final(self) == *old(self),
            final(io).wf(),
            final(io).incoming == old(io).incoming,
            final(io).read_pos == old(io).read_pos,
            final(io).flushed == old(io).flushed,
            final(io).written() == old(io).written() + blocks32_frame(
                send_pads(
                    old(self).pre_data@,
                    old(self).bits@,
                    old(self).n as int,
                    views32(m0@),
                    views32(m1@),
                    length as int,
                    s * length,
                ),
            ),
    {
        assert(s * length <= self.n) by (nonlinear_arith)
            requires
                s * length + length <= self.n,
        ;
        let k = s * length;
        let mut pads: Vec<[u8; 32]> = Vec::new();
        let mut i: usize = 0;
        while i < length
            invariant
                i <= length,
                *self == *old(self),
                self.wf(),
                k + length <= self.n,
                m0.len() >= length,
                m1.len() >= length,
                pads.len() == 2 * i,
                forall|j: int|
                    0 <= j < 2 * i ==> (#[trigger] pads[j])@ == send_pads(
                        self.pre_data@,
                        self.bits@,
                        self.n as int,
                        views32(m0@),
                        views32(m1@),
                        length as int,
                        k as int,
                    )[j],
            decreases length - i,
        {
            let idx = k + i;
            let ghost before = pads@;
            let (p0, p1) = if !self.bits[idx] {
                (xor_block(&m0[i], &self.pre_data[idx]), xor_block(&m1[i], &self.pre_data[idx + self.n]))
            } else {
                (xor_block(&m0[i], &self.pre_data[idx + self.n]), xor_block(&m1[i], &self.pre_data[idx]))
            };
            pads.push(p0);
            pads.push(p1);
            proof {
                assert((2 * i) / 2 == i as int && (2 * i) % 2 == 0);
                assert((2 * i + 1) / 2 == i as int && (2 * i + 1) % 2 == 1);
                assert forall|j: int| 0 <= j < 2 * i + 2 implies (#[trigger] pads[j])@ == send_pads(
                    self.pre_data@,
                    self.bits@,
                    self.n as int,
                    views32(m0@),
                    views32(m1@),
                    length as int,
                    k as int,
                )[j] by {
                    if j < 2 * i {
                        assert(pads[j] == before[j]);
                    }
                }
            }
            i += 1;
        }
        assert(views32(pads@) =~= send_pads(
            self.pre_data@,
            self.bits@,
            self.n as int,
            views32(m0@),
            views32(m1@),
            length as int,
            k as int,
        ));
        io.send_32byte_block(&pads);
    }

    /// The receiver reads the pads of slot `s` and opens, for each of `length` transfers, the one that its
    /// choice selects.
    pub fn recv(&mut self, io: &mut CommunicationChannel, b: &Vec<bool>, length: usize, s: usize) -> (r: Result<
        Vec<[u8; 32]>,
        VoleError,
    >)
        requires
            old(self).wf(),
            old(io).wf(),
            s * length + length <= old(self).n,
            b.len() >= length,
        ensures
            *final(self) == *old(self),
            final(io).wf(),
            final(io).outgoing == old(io).outgoing,
            final(io).flushed == old(io).flushed,
            match parse_blocks32(old(io).unread()) {
                Err(e) => r == Err::<Vec<[u8; 32]>, VoleError>(e),
                Ok(pads) => if pads.len() != 2 * length {
                    r == Err::<Vec<[u8; 32]>, VoleError>(VoleError::WireFormat)
                } else {
                    &&& r.is_ok()
                    &&& r.unwrap().len() == length
                    &&& views32(r.unwrap()@) == recv_outputs(old(self).pre_data@, pads, b@, length as int, s * length)
                    &&& final(io).unread() == old(io).unread().skip(frame_size(old(io).unread(), false) as int)
                },
            },
    {
        assert(s * length <= self.n) by (nonlinear_arith)
            requires
                s * length + length <= self.n,
        ;
        let k = s * length;
        let pads = io.receive_32byte_block()?;
        if pads.len() / 2 != length || pads.len() % 2 != 0 {
            return Err(VoleError::WireFormat);
        }
        let mut data: Vec<[u8; 32]> = Vec::new();
        let mut i: usize = 0;
        while i < length
            invariant
                i <= length,
                self.wf(),
                k + length <= self.n,
                b.len() >= length,
                pads.len() == 2 * length,
                data.len() == i,
                forall|j: int|
                    0 <= j < i ==> (#[trigger] data[j])@ == recv_outputs(
                        self.pre_data@,
                        views32(pads@),
                        b@,
                        length as int,
                        k as int,
                    )[j],
            decreases length - i,
        {
            let pick: usize = if b[i] {
                2 * i + 1
            } else {
                2 * i
            };
            data.push(xor_block(&self.pre_data[k + i], &pads[pick]));
            i += 1;
        }
        assert(views32(data@) =~= recv_outputs(self.pre_data@, views32(pads@), b@, length as int, k as int));
        Ok(data)
    }

    /// Moves the cursor back to the first slot.
    pub fn reset(&mut self)
        ensures
            *final(self) == (OTPre { count: 0, ..*old(self) }),
    {
        self.count = 0;
    }
}

/// The lowest bit of a block is its bit 0.
pub proof fn lemma_lsb_bit(s: Seq<u8>)
    requires
        s.len() > 0,
    ensures
        lsb(s) == crate::block::bit_at(s, 0),
{
    let b = s[0];
    assert((b & 1u8 == 1u8) == ((b >> 0u8) & 1u8 == 1u8)) by (bit_vector);
}


/// A transfer from precomputation delivers the chosen message. Let the sender's buffer hold the hashes of
/// its correlation `q` and of `q ^ delta`, the receiver's the hash of its correlation `t = q ^ r * delta`,
/// and let the sender's adjustment bit be the receiver's wanted choice `c` exclusive-or its precomputed
/// choice `r`. Then what the receiver opens in transfer `i` of the slot is `m1[i]` if its choice is set and
/// `m0[i]` if not.
pub proof fn lemma_preot_transfer(
    s_pre: Seq<[u8; 32]>,
    s_bits: Seq<bool>,
    r_pre: Seq<[u8; 32]>,
    r_bits: Seq<bool>,
    n: int,
    q: Seq<u8>,
    t: Seq<u8>,
    delta: Seq<u8>,
    m0: Seq<Seq<u8>>,
    m1: Seq<Seq<u8>>,
    c: Seq<bool>,
    length: int,
    k: int,
    i: int,
)
    requires
        0 <= k,
        0 <= i < length,
        k + length <= n,
        s_pre.len() == 2 * n,
        r_pre.len() >= n,
        m0[i].len() == 32,
        m1[i].len() == 32,
        q.len() == 32,
        delta.len() == 32,
        s_pre[k + i]@ == ccrh(q),
        s_pre[n + k + i]@ == ccrh(xor_seq(q, delta)),
        r_pre[k + i]@ == ccrh(t),
        t == xor_seq(q, select_seq(r_bits[k + i], delta)),
        s_bits[k + i] == (c[i] != r_bits[k + i]),
    ensures
        recv_outputs(r_pre, send_pads(s_pre, s_bits, n, m0, m1, length, k), c, length, k)[i] == (if c[i] {
            m1[i]
        } else {
            m0[i]
        }),
{
    let pads = send_pads(s_pre, s_bits, n, m0, m1, length, k);
    let j0 = 2 * i;
    let j1 = 2 * i + 1;
    assert(j0 / 2 == i && j0 % 2 == 0);
    assert(j1 / 2 == i && j1 % 2 == 1);
    lemma_xor_seq_cancel(q, delta);
    assert(xor_seq(q, zeros(32)) == q);
    let h = r_pre[k + i]@;
    if c[i] {
        lemma_xor_seq_cancel(m1[i], h);
        assert(pads[j1] == xor_seq(m1[i], h));
        assert(xor_seq(h, xor_seq(m1[i], h)) == xor_seq(xor_seq(m1[i], h), h)) by {
            lemma_xor_seq_cancel(h, xor_seq(m1[i], h));
        }
    } else {
        lemma_xor_seq_cancel(m0[i], h);
        assert(pads[j0] == xor_seq(m0[i], h));
        assert(xor_seq(h, xor_seq(m0[i], h)) == xor_seq(xor_seq(m0[i], h), h)) by {
            lemma_xor_seq_cancel(h, xor_seq(m0[i], h));
        }
    }
}

/// What `reset` makes of a buffer.
pub open spec fn reset_spec(s: OTPre) -> OTPre {
    OTPre { count: 0, ..s }
}

/// Resetting is idempotent, and a buffer that differs from a fresh one in nothing but its cursor is the fresh
/// one again after a reset. Sending and receiving pads and the receiver's exchange of adjustment bits move
/// nothing but the cursor.
pub proof fn lemma_reset_restores(fresh: OTPre, used: OTPre)
    requires
        fresh.count == 0,
        used == (OTPre { count: used.count, ..fresh }),
    ensures
        reset_spec(used) == fresh,
        reset_spec(reset_spec(used)) == reset_spec(used),
        reset_spec(fresh) == fresh,
{
}

} // verus!
