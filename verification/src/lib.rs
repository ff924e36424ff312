//! Driver logic for the SENT protocol (SAE J2716): frame timing on the
//! transmitting side, pulse decoding and CRC checking on the receiving side.

use vstd::prelude::*;

pub mod receiver;
pub mod sent;
pub mod transmitter;

verus! {

/// A SENT channel: the delay provider and the output pin that drive the line,
/// and the timing parameters of a frame, all in microseconds except
/// `nb_nibbles`, the number of data nibbles of a frame.
#[derive(Debug)]
pub struct Sent<DELAY, PIN> {
    pub delay: DELAY,
    pub pin: PIN,
    pub t_frame: u32,
    pub t_tick: u32,
    pub t_sync: u32,
    pub t_offset: u32,
    pub nb_nibbles: u32,
}

/// Sum of a sequence of bytes, as a mathematical integer.
pub open spec fn byte_sum(s: Seq<u8>) -> int
    decreases s.len(),
{
    if s.len() == 0 {
        0
    } else {
        byte_sum(s.drop_last()) + s.last()
    }
}

/// The checksum nibble of a frame: the complement to 15 of the low nibble of
/// the sum of the status and data nibbles.
pub open spec fn checksum_of(status: u8, data: Seq<u8>) -> int {
    15 - ((status + byte_sum(data)) % 16)
}

impl<DELAY, PIN> Sent<DELAY, PIN> {
    pub fn new(
        delay: DELAY,
        pin: PIN,
        t_frame: u32,
        t_tick: u32,
        t_sync: u32,
        t_offset: u32,
        nb_nibbles: u32,
    ) -> (s: Self)
        ensures
            s.delay == delay,
            s.pin == pin,
            s.t_frame == t_frame,
            s.t_tick == t_tick,
            s.t_sync == t_sync,
            s.t_offset == t_offset,
            s.nb_nibbles == nb_nibbles,
    {
        Self { delay, pin, t_frame, t_tick, t_sync, t_offset, nb_nibbles }
    }

    /// A channel with the usual timing: a 5000 us frame, a 15 us tick, a
    /// synchronisation pulse of 56 ticks, a low pulse of 12 ticks and six
    /// data nibbles.
    pub fn new_default(delay: DELAY, pin: PIN) -> (s: Self)
        ensures
            s.delay == delay,
            s.pin == pin,
            s.t_frame == 5000,
            s.t_tick == 15,
            s.t_sync == 56 * 15,
            s.t_offset == 12 * 15,
            s.nb_nibbles == 6,
    {
        Self::new(delay, pin, 5000, 15, 56 * 15, 12 * 15, 6)
    }
}

/// The checksum nibble of a frame with status `status` and data `data`.
/// The additions are those of `u8`, so the sum of the nibbles must fit in a
/// byte.
pub fn calcul_checksum(status: &u8, data: &[u8; 6]) -> (crc: u8)
    requires
        *status + byte_sum(data@) <= 255,
    ensures
        crc == checksum_of(*status, data@),
        crc == 15 - (*status + data[0] + data[1] + data[2] + data[3] + data[4] + data[5]) % 16,
        crc <= 15,
{
    proof {
        lemma_byte_sum_six(data@);
    }
    let mut total: u8 = 0;
    let mut i: usize = 0;
    while i < 6
        invariant
            0 <= i <= 6,
            total == byte_sum(data@.take(i as int)),
            *status + byte_sum(data@) <= 255,
        decreases 6 - i,
    {
        proof {
            lemma_byte_sum_prefix_le(data@, i as int + 1);
            assert(data@.take(i as int + 1).drop_last() =~= data@.take(i as int));
        }
        total = total + data[i];
        i = i + 1;
    }
    assert(data@.take(6) =~= data@);
    let crc_data: u8 = *status + total;
    assert(crc_data & 0xF == crc_data % 16) by (bit_vector);
    0xF - (crc_data & 0xF)
}

/// The sum of six bytes, term by term.
pub proof fn lemma_byte_sum_six(data: Seq<u8>)
    requires
        data.len() == 6,
    ensures
        byte_sum(data) == data[0] + data[1] + data[2] + data[3] + data[4] + data[5],
{
    assert(data.drop_last() =~= data.take(5));
    assert(data.take(5).drop_last() =~= data.take(4));
    assert(data.take(4).drop_last() =~= data.take(3));
    assert(data.take(3).drop_last() =~= data.take(2));
    assert(data.take(2).drop_last() =~= data.take(1));
    assert(data.take(1).drop_last() =~= Seq::<u8>::empty());
    assert(byte_sum(Seq::<u8>::empty()) == 0);
    assert(byte_sum(data.take(1)) == data[0]);
    assert(byte_sum(data.take(2)) == data[0] + data[1]);
    assert(byte_sum(data.take(3)) == data[0] + data[1] + data[2]);
    assert(byte_sum(data.take(4)) == data[0] + data[1] + data[2] + data[3]);
    assert(byte_sum(data.take(5)) == data[0] + data[1] + data[2] + data[3] + data[4]);
}

/// A prefix of a sequence of bytes sums to no more than the whole.
pub proof fn lemma_byte_sum_prefix_le(s: Seq<u8>, n: int)
    requires
        0 <= n <= s.len(),
    ensures
        0 <= byte_sum(s.take(n)) <= byte_sum(s),
    decreases s.len(),
{
    if s.len() > 0 {
        if n == s.len() {
            assert(s.take(n) =~= s);
            lemma_byte_sum_prefix_le(s.drop_last(), n - 1);
        } else {
            assert(s.drop_last().take(n) =~= s.take(n));
            lemma_byte_sum_prefix_le(s.drop_last(), n);
        }
    }
}

/// The checksum completes the nibble sum of a frame: status, data and
/// checksum together sum to 15 modulo 16.
pub proof fn lemma_checksum_completes_sum(status: u8, data: Seq<u8>)
    ensures
        (status + byte_sum(data) + checksum_of(status, data)) % 16 == 15,
        0 <= checksum_of(status, data) <= 15,
{
    lemma_byte_sum_prefix_le(data, 0);
    assert(data.take(0) =~= Seq::<u8>::empty());
    let s = status + byte_sum(data);
    assert(s >= 0);
    assert((s + (15 - s % 16)) % 16 == 15) by (nonlinear_arith)
        requires s >= 0;
}

} // verus!
