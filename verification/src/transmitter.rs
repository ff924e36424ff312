//! Transmitting side of a SENT channel.
//!
//! A frame is sent as ten pulses: synchronisation, status, the six data
//! nibbles, checksum and pause. Each pulse pulls the line low for `t_offset`
//! microseconds, then releases it for the time that carries the nibble. The
//! library computes the sequence of line actions of a frame; driving the pin
//! and waiting are left to the caller.

use vstd::prelude::*;

use crate::{byte_sum, calcul_checksum, checksum_of, Sent};

verus! {

/// One step of driving the SENT line.
#[derive(Clone, Copy, Debug, PartialEq, Eq, Structural)]
pub enum LineAction {
    /// Pull the line low.
    SetLow,
    /// Release the line high.
    SetHigh,
    /// Wait the given number of microseconds.
    DelayUs(u32),
}

/// The actions of one pulse: the line low for `offset` us, then high for
/// `time` us.
pub open spec fn pulse(offset: u32, time: u32) -> Seq<LineAction> {
    seq![LineAction::SetLow, LineAction::DelayUs(offset), LineAction::SetHigh, LineAction::DelayUs(time)]
}

/// The actions of a train of pulses, one per entry of `times`.
pub open spec fn pulse_train(offset: u32, times: Seq<u32>) -> Seq<LineAction>
    decreases times.len(),
{
    if times.len() == 0 {
        Seq::empty()
    } else {
        pulse_train(offset, times.drop_last()) + pulse(offset, times.last())
    }
}

/// The total time, in microseconds, that a sequence of actions waits.
pub open spec fn line_time(actions: Seq<LineAction>) -> int
    decreases actions.len(),
{
    if actions.len() == 0 {
        0
    } else {
        line_time(actions.drop_last()) + match actions.last() {
            LineAction::DelayUs(t) => t as int,
            _ => 0,
        }
    }
}

/// Sum of the entries of a sequence of durations.
pub open spec fn time_sum(times: Seq<u32>) -> int
    decreases times.len(),
{
    if times.len() == 0 {
        0
    } else {
        time_sum(times.drop_last()) + times.last()
    }
}

/// The sum of `data[i] * tick` over the first `n` entries of `data`.
pub open spec fn scaled_sum(data: Seq<u8>, n: int, tick: int) -> int
    decreases n,
{
    if n <= 0 {
        0
    } else {
        scaled_sum(data, n - 1, tick) + data[n - 1] * tick
    }
}

impl<DELAY, PIN> Sent<DELAY, PIN> {
    /// The time of data nibble `i`: its value in ticks for the first
    /// `nb_nibbles` nibbles, 0 for the others.
    pub open spec fn data_time(self, data: Seq<u8>, i: int) -> int {
        if i < self.nb_nibbles {
            data[i] * self.t_tick
        } else {
            0
        }
    }

    /// The part of the frame before the pause: synchronisation, status, data
    /// and checksum times, and the low time of `2 + nb_nibbles` pulses.
    pub open spec fn busy_time(self, status: u8, data: Seq<u8>) -> int {
        self.t_sync + status * self.t_tick + scaled_sum(data, self.nb_nibbles as int, self.t_tick as int)
            + checksum_of(status, data) * self.t_tick + (2 + self.nb_nibbles) * self.t_offset
    }

    /// Whether a frame with `status` and `data` can be computed: at most six
    /// data nibbles, the nibble sum fits in a byte, and the busy part of the
    /// frame fits in `t_frame`.
    pub open spec fn can_send(self, status: u8, data: Seq<u8>) -> bool {
        &&& self.nb_nibbles <= 6
        &&& status + byte_sum(data) <= 255
        &&& self.busy_time(status, data) <= self.t_frame
    }

    /// The high times of the ten pulses of a frame.
    pub open spec fn nibble_times(self, status: u8, data: Seq<u8>) -> Seq<u32> {
        seq![
            self.t_sync,
            (status * self.t_tick) as u32,
            self.data_time(data, 0) as u32,
            self.data_time(data, 1) as u32,
            self.data_time(data, 2) as u32,
            self.data_time(data, 3) as u32,
            self.data_time(data, 4) as u32,
            self.data_time(data, 5) as u32,
            (checksum_of(status, data) * self.t_tick) as u32,
            (self.t_frame - self.busy_time(status, data)) as u32,
        ]
    }

    /// The actions that send a frame with `status` and `data`.
    pub open spec fn frame_plan(self, status: u8, data: Seq<u8>) -> Seq<LineAction> {
        pulse_train(self.t_offset, self.nibble_times(status, data))
    }

    /// Whether `send_frame` accepts `status` and `data`.
    pub fn frame_fits(&self, status: u8, data: &[u8; 6]) -> (fits: bool)
        ensures
            fits == self.can_send(status, data@),
    {
        if self.nb_nibbles > 6 {
            return false;
        }
        let mut nibble_total: u64 = 0;
        let mut scaled: u64 = 0;
        let mut i: usize = 0;
        while i < 6
            invariant
                0 <= i <= 6,
                self.nb_nibbles <= 6,
                nibble_total == byte_sum(data@.take(i as int)),
                scaled == scaled_sum(data@, if i <= self.nb_nibbles { i as int } else { self.nb_nibbles as int }, self.t_tick as int),
                scaled <= i * 255 * 0xffff_ffff,
                nibble_total <= i * 255,
            decreases 6 - i,
        {
            proof {
                assert(data@.take(i as int + 1).drop_last() =~= data@.take(i as int));
                crate::lemma_byte_sum_prefix_le(data@, i as int);
            }
            nibble_total = nibble_total + data[i] as u64;
            if (i as u32) < self.nb_nibbles {
                proof {
                    lemma_mul_le(data@[i as int] as int, self.t_tick as int, 255, 0xffff_ffff);
                }
                let term: u64 = data[i] as u64 * self.t_tick as u64;
                scaled = scaled + term;
            }
            i = i + 1;
        }
        assert(data@.take(6) =~= data@);
        if status as u64 + nibble_total > 255 {
            return false;
        }
        let crc: u8 = calcul_checksum(&status, data);
        proof {
            lemma_mul_le(status as int, self.t_tick as int, 255, 0xffff_ffff);
            lemma_mul_le(crc as int, self.t_tick as int, 15, 0xffff_ffff);
            lemma_mul_le(2 + self.nb_nibbles, self.t_offset as int, 8, 0xffff_ffff);
        }
        let st: u64 = status as u64 * self.t_tick as u64;
        let ct: u64 = crc as u64 * self.t_tick as u64;
        let lows: u64 = (2 + self.nb_nibbles as u64) * self.t_offset as u64;
        let busy: u64 = self.t_sync as u64 + st + scaled + ct + lows;
        busy <= self.t_frame as u64
    }

    /// Appends one pulse to `plan`: the line low for `t_offset` us, then high
    /// for `nibble_time` us.
    fn send_nibble(&self, plan: &mut Vec<LineAction>, nibble_time: u32)
        ensures
            final(plan)@ == old(plan)@ + pulse(self.t_offset, nibble_time),
    {
        plan.push(LineAction::SetLow);
        plan.push(LineAction::DelayUs(self.t_offset));
        plan.push(LineAction::SetHigh);
        plan.push(LineAction::DelayUs(nibble_time));
    }

    /// The actions that send a frame: synchronisation, status, the six data
    /// nibbles, the checksum of `calcul_checksum`, and the pause that brings
    /// the busy part of the frame to `t_frame`. Data nibbles past
    /// `nb_nibbles` are sent with a high time of 0.
    pub fn send_frame(&self, status: u8, data: [u8; 6]) -> (plan: Vec<LineAction>)
        requires
            self.can_send(status, data@),
        ensures
            plan@ == self.frame_plan(status, data@),
    {
        let ghost nb = self.nb_nibbles as int;
        let ghost tick = self.t_tick as int;
        proof {
            lemma_scaled_sum_monotone(data@, nb, 6, tick);
            lemma_scaled_sum_monotone(data@, nb, nb, tick);
            lemma_scaled_sum_monotone(data@, 0, nb, tick);
        }
        assert(status * self.t_tick <= self.t_frame) by (nonlinear_arith)
            requires
                self.busy_time(status, data@) <= self.t_frame,
                self.busy_time(status, data@) == self.t_sync + status * self.t_tick
                    + scaled_sum(data@, nb, tick) + checksum_of(status, data@) * self.t_tick
                    + (2 + self.nb_nibbles) * self.t_offset,
                scaled_sum(data@, nb, tick) >= 0,
                0 <= checksum_of(status, data@),
        ;
        let t_status: u32 = status as u32 * self.t_tick;
        let mut t_data: [u32; 6] = [0; 6];
        let mut i: usize = 0;
        while i < self.nb_nibbles as usize
            invariant
                0 <= i <= nb,
                nb == self.nb_nibbles,
                nb <= 6,
                tick == self.t_tick,
                scaled_sum(data@, nb, tick) <= self.t_frame,
                forall|k: int| 0 <= k < i ==> #[trigger] t_data@[k] == data@[k] * self.t_tick,
                forall|k: int| i <= k < 6 ==> #[trigger] t_data@[k] == 0,
            decreases nb - i,
        {
            proof {
                lemma_scaled_sum_monotone(data@, i as int + 1, nb, tick);
                lemma_scaled_sum_monotone(data@, i as int, i as int, tick);
            }
            t_data[i] = data[i] as u32 * self.t_tick;
            i = i + 1;
        }
        let crc: u8 = calcul_checksum(&status, &data);
        assert(crc * self.t_tick <= self.t_frame) by (nonlinear_arith)
            requires
                self.busy_time(status, data@) <= self.t_frame,
                self.busy_time(status, data@) == self.t_sync + status * self.t_tick
                    + scaled_sum(data@, nb, tick) + checksum_of(status, data@) * self.t_tick
                    + (2 + self.nb_nibbles) * self.t_offset,
                scaled_sum(data@, nb, tick) >= 0,
                crc == checksum_of(status, data@),
        ;
        let t_checksum: u32 = crc as u32 * self.t_tick;
        let mut data_total: u32 = 0;
        let mut j: usize = 0;
        while j < 6
            invariant
                0 <= j <= 6,
                nb == self.nb_nibbles,
                nb <= 6,
                tick == self.t_tick,
                scaled_sum(data@, nb, tick) <= self.t_frame,
                forall|k: int| 0 <= k < nb ==> #[trigger] t_data@[k] == data@[k] * self.t_tick,
                forall|k: int| nb <= k < 6 ==> #[trigger] t_data@[k] == 0,
                data_total == scaled_sum(data@, if j <= nb { j as int } else { nb }, tick),
            decreases 6 - j,
        {
            proof {
                if j < nb {
                    lemma_scaled_sum_monotone(data@, j as int + 1, nb, tick);
                } else {
                    lemma_scaled_sum_monotone(data@, nb, nb, tick);
                }
            }
            data_total = data_total + t_data[j];
            j = j + 1;
        }
        let lows: u32 = (2 + self.nb_nibbles) * self.t_offset;
        let t_pause: u32 = self.t_frame - (self.t_sync + t_status + data_total + t_checksum + lows);
        let mut plan: Vec<LineAction> = Vec::new();
        let ghost times = self.nibble_times(status, data@);
        self.send_nibble(&mut plan, self.t_sync);
        proof {
            lemma_pulse_train_step(self.t_offset, times, 0);
            assert(times.take(0) =~= Seq::<u32>::empty());
            assert(plan@ =~= pulse_train(self.t_offset, times.take(1)));
        }
        self.send_nibble(&mut plan, t_status);
        proof {
            lemma_pulse_train_step(self.t_offset, times, 1);
        }
        let mut n: usize = 0;
        while n < 6
            invariant
                0 <= n <= 6,
                nb == self.nb_nibbles,
                tick == self.t_tick,
                times == self.nibble_times(status, data@),
                forall|k: int| 0 <= k < nb ==> #[trigger] t_data@[k] == data@[k] * self.t_tick,
                forall|k: int| nb <= k < 6 ==> #[trigger] t_data@[k] == 0,
                plan@ == pulse_train(self.t_offset, times.take(n as int + 2)),
            decreases 6 - n,
        {
            assert(times[n as int + 2] == t_data@[n as int]);
            self.send_nibble(&mut plan, t_data[n]);
            proof {
                lemma_pulse_train_step(self.t_offset, times, n as int + 2);
            }
            n = n + 1;
        }
        self.send_nibble(&mut plan, t_checksum);
        proof {
            lemma_pulse_train_step(self.t_offset, times, 8);
        }
        self.send_nibble(&mut plan, t_pause);
        proof {
            lemma_pulse_train_step(self.t_offset, times, 9);
            assert(times.take(10) =~= times);
        }
        plan
    }
}

/// A product of non-negative factors is bounded by the product of their bounds.
pub proof fn lemma_mul_le(a: int, b: int, a_max: int, b_max: int)
    requires
        0 <= a <= a_max,
        0 <= b <= b_max,
    ensures
        0 <= a * b <= a_max * b_max,
{
    assert(0 <= a * b <= a_max * b_max) by (nonlinear_arith)
        requires 0 <= a <= a_max, 0 <= b <= b_max;
}

/// A train of pulses holds four actions per pulse: the line low, the wait of
/// `offset`, the line high, the wait of the pulse's time.
pub proof fn lemma_pulse_train_shape(offset: u32, times: Seq<u32>, k: int)
    requires
        0 <= k < times.len(),
    ensures
        pulse_train(offset, times).len() == 4 * times.len(),
        pulse_train(offset, times)[4 * k] == LineAction::SetLow,
        pulse_train(offset, times)[4 * k + 1] == LineAction::DelayUs(offset),
        pulse_train(offset, times)[4 * k + 2] == LineAction::SetHigh,
        pulse_train(offset, times)[4 * k + 3] == LineAction::DelayUs(times[k]),
    decreases times.len(),
{
    let rest = times.drop_last();
    let prev = pulse_train(offset, rest);
    let train = pulse_train(offset, times);
    let last = pulse(offset, times.last());
    assert(train == prev + last);
    if k < times.len() - 1 {
        lemma_pulse_train_shape(offset, rest, k);
        assert(rest[k] == times[k]);
    } else {
        if rest.len() > 0 {
            lemma_pulse_train_shape(offset, rest, 0);
        } else {
            assert(prev.len() == 0);
        }
        assert(last[0] == LineAction::SetLow && last[1] == LineAction::DelayUs(offset)
            && last[2] == LineAction::SetHigh && last[3] == LineAction::DelayUs(times.last()));
    }
}

/// The pulses of a frame: ten pulses, each low for `t_offset` us; the
/// synchronisation pulse high for `t_sync` us; the status pulse for
/// `status * t_tick` us; data pulse `i` for `data[i] * t_tick` us when
/// `i < nb_nibbles` and 0 us otherwise; the checksum pulse for
/// `(15 - (status + data[0] + ... + data[5]) % 16) * t_tick` us. The pause,
/// the tenth pulse, is fixed by `lemma_frame_duration`.
pub proof fn lemma_send_frame_pulses<DELAY, PIN>(sent: Sent<DELAY, PIN>, status: u8, data: Seq<u8>)
    requires
        data.len() == 6,
        sent.can_send(status, data),
    ensures
        sent.frame_plan(status, data).len() == 40,
        forall|k: int|
            0 <= k < 10 ==> {
                &&& #[trigger] sent.frame_plan(status, data)[4 * k] == LineAction::SetLow
                &&& sent.frame_plan(status, data)[4 * k + 1] == LineAction::DelayUs(sent.t_offset)
                &&& sent.frame_plan(status, data)[4 * k + 2] == LineAction::SetHigh
            },
        sent.frame_plan(status, data)[3] == LineAction::DelayUs(sent.t_sync),
        sent.frame_plan(status, data)[7] == LineAction::DelayUs((status * sent.t_tick) as u32),
        forall|i: int|
            0 <= i < 6 ==> #[trigger] sent.frame_plan(status, data)[4 * (2 + i) + 3]
                == LineAction::DelayUs(
                if i < sent.nb_nibbles {
                    (data[i] * sent.t_tick) as u32
                } else {
                    0u32
                },
            ),
        sent.frame_plan(status, data)[35] == LineAction::DelayUs(
            ((15 - (status + data[0] + data[1] + data[2] + data[3] + data[4] + data[5]) % 16)
                * sent.t_tick) as u32,
        ),
{
    let times = sent.nibble_times(status, data);
    lemma_pulse_train_shape(sent.t_offset, times, 0);
    lemma_pulse_train_shape(sent.t_offset, times, 1);
    lemma_pulse_train_shape(sent.t_offset, times, 8);
    crate::lemma_byte_sum_six(data);
    let plan = sent.frame_plan(status, data);
    assert forall|k: int| 0 <= k < 10 implies {
        &&& #[trigger] plan[4 * k] == LineAction::SetLow
        &&& plan[4 * k + 1] == LineAction::DelayUs(sent.t_offset)
        &&& plan[4 * k + 2] == LineAction::SetHigh
    } by {
        lemma_pulse_train_shape(sent.t_offset, times, k);
    }
    assert(times[0] == sent.t_sync);
    assert forall|i: int| 0 <= i < 6 implies #[trigger] plan[4 * (2 + i) + 3] == LineAction::DelayUs(
        if i < sent.nb_nibbles {
            (data[i] * sent.t_tick) as u32
        } else {
            0u32
        },
    ) by {
        lemma_pulse_train_shape(sent.t_offset, times, 2 + i);
        assert(times[2 + i] == sent.data_time(data, i) as u32);
    }
}

/// When a frame can be sent: at most six data nibbles, the status and data
/// nibbles sum to at most 255, and the synchronisation, status, data and
/// checksum high times, with the low times of `2 + nb_nibbles` pulses, fit in
/// `t_frame`.
pub proof fn lemma_can_send_means<DELAY, PIN>(sent: Sent<DELAY, PIN>, status: u8, data: Seq<u8>)
    requires
        data.len() == 6,
    ensures
        sent.can_send(status, data) <==> {
            &&& sent.nb_nibbles <= 6
            &&& status + data[0] + data[1] + data[2] + data[3] + data[4] + data[5] <= 255
            &&& sent.t_sync + status * sent.t_tick
                + (if 0 < sent.nb_nibbles { data[0] * sent.t_tick } else { 0 })
                + (if 1 < sent.nb_nibbles { data[1] * sent.t_tick } else { 0 })
                + (if 2 < sent.nb_nibbles { data[2] * sent.t_tick } else { 0 })
                + (if 3 < sent.nb_nibbles { data[3] * sent.t_tick } else { 0 })
                + (if 4 < sent.nb_nibbles { data[4] * sent.t_tick } else { 0 })
                + (if 5 < sent.nb_nibbles { data[5] * sent.t_tick } else { 0 })
                + (15 - (status + data[0] + data[1] + data[2] + data[3] + data[4] + data[5]) % 16)
                * sent.t_tick + (2 + sent.nb_nibbles) * sent.t_offset <= sent.t_frame
        },
{
    crate::lemma_byte_sum_six(data);
    if sent.nb_nibbles <= 6 {
        reveal_with_fuel(scaled_sum, 7);
        assert(scaled_sum(data, sent.nb_nibbles as int, sent.t_tick as int)
            == (if 0 < sent.nb_nibbles { data[0] * sent.t_tick } else { 0 })
                + (if 1 < sent.nb_nibbles { data[1] * sent.t_tick } else { 0 })
                + (if 2 < sent.nb_nibbles { data[2] * sent.t_tick } else { 0 })
                + (if 3 < sent.nb_nibbles { data[3] * sent.t_tick } else { 0 })
                + (if 4 < sent.nb_nibbles { data[4] * sent.t_tick } else { 0 })
                + (if 5 < sent.nb_nibbles { data[5] * sent.t_tick } else { 0 }));
    }
}

/// Taking one more time into a train of pulses appends its pulse.
pub proof fn lemma_pulse_train_step(offset: u32, times: Seq<u32>, n: int)
    requires
        0 <= n < times.len(),
    ensures
        pulse_train(offset, times.take(n + 1)) == pulse_train(offset, times.take(n)) + pulse(
            offset,
            times[n],
        ),
{
    assert(times.take(n + 1).drop_last() =~= times.take(n));
}

/// `scaled_sum` is non-negative and grows with the number of terms.
pub proof fn lemma_scaled_sum_monotone(data: Seq<u8>, m: int, n: int, tick: int)
    requires
        0 <= m <= n,
        tick >= 0,
    ensures
        0 <= scaled_sum(data, m, tick) <= scaled_sum(data, n, tick),
        n > 0 ==> data[n - 1] * tick <= scaled_sum(data, n, tick),
    decreases n,
{
    if n > 0 {
        let x = data[n - 1];
        assert(x * tick >= 0) by (nonlinear_arith)
            requires tick >= 0, x >= 0;
        if m < n {
            lemma_scaled_sum_monotone(data, m, n - 1, tick);
        } else {
            lemma_scaled_sum_monotone(data, n - 1, n - 1, tick);
        }
    }
}

/// The time waited by two sequences of actions one after the other is the sum
/// of their times.
pub proof fn lemma_line_time_append(a: Seq<LineAction>, b: Seq<LineAction>)
    ensures
        line_time(a + b) == line_time(a) + line_time(b),
    decreases b.len(),
{
    if b.len() == 0 {
        assert(a + b =~= a);
    } else {
        assert((a + b).drop_last() =~= a + b.drop_last());
        assert((a + b).last() == b.last());
        lemma_line_time_append(a, b.drop_last());
    }
}

/// One pulse waits its low time and its high time.
pub proof fn lemma_line_time_pulse(offset: u32, time: u32)
    ensures
        line_time(pulse(offset, time)) == offset + time,
{
    let p = pulse(offset, time);
    let p3 = seq![LineAction::SetLow, LineAction::DelayUs(offset), LineAction::SetHigh];
    let p2 = seq![LineAction::SetLow, LineAction::DelayUs(offset)];
    let p1 = seq![LineAction::SetLow];
    assert(p.drop_last() =~= p3);
    assert(p3.drop_last() =~= p2);
    assert(p2.drop_last() =~= p1);
    assert(p1.drop_last() =~= Seq::<LineAction>::empty());
    assert(line_time(Seq::<LineAction>::empty()) == 0);
    assert(p1.last() == LineAction::SetLow);
    assert(line_time(p1) == 0);
    assert(line_time(p2) == offset);
    assert(line_time(p3) == offset);
}

/// A train of pulses waits, per pulse, its low time and its high time.
pub proof fn lemma_line_time_pulse_train(offset: u32, times: Seq<u32>)
    ensures
        line_time(pulse_train(offset, times)) == times.len() * offset + time_sum(times),
    decreases times.len(),
{
    if times.len() == 0 {
        assert(line_time(Seq::<LineAction>::empty()) == 0);
    } else {
        let rest = times.drop_last();
        lemma_line_time_pulse_train(offset, rest);
        lemma_line_time_append(pulse_train(offset, rest), pulse(offset, times.last()));
        lemma_line_time_pulse(offset, times.last());
        let n = times.len();
        assert(n * offset == (n - 1) * offset + offset) by (nonlinear_arith);
    }
}

/// Summing the first `n + 1` times adds time `n` to the sum of the first `n`.
pub proof fn lemma_time_sum_step(times: Seq<u32>, n: int)
    requires
        0 <= n < times.len(),
    ensures
        time_sum(times.take(n + 1)) == time_sum(times.take(n)) + times[n],
{
    assert(times.take(n + 1).drop_last() =~= times.take(n));
}

/// A frame lasts `t_frame` plus the low time of `8 - nb_nibbles` pulses: the
/// pause fills the frame up to `t_frame` counting the low time of
/// `2 + nb_nibbles` of the ten pulses.
pub proof fn lemma_frame_duration<DELAY, PIN>(sent: Sent<DELAY, PIN>, status: u8, data: Seq<u8>)
    requires
        data.len() == 6,
        sent.can_send(status, data),
    ensures
        line_time(sent.frame_plan(status, data)) == sent.t_frame + (8 - sent.nb_nibbles)
            * sent.t_offset,
{
    let nb = sent.nb_nibbles as int;
    let tick = sent.t_tick as int;
    let times = sent.nibble_times(status, data);
    lemma_line_time_pulse_train(sent.t_offset, times);
    lemma_time_sum_is_prefix_sum(times, 10);
    assert(times.take(10) =~= times);
    reveal_with_fuel(time_sum_prefix, 11);
    crate::lemma_checksum_completes_sum(status, data);
    lemma_scaled_sum_monotone(data, 0, nb, tick);
    assert forall|i: int| 0 <= i < 6 implies 0 <= #[trigger] sent.data_time(data, i) <= scaled_sum(
        data,
        nb,
        tick,
    ) by {
        if i < nb {
            lemma_scaled_sum_monotone(data, i + 1, nb, tick);
            lemma_scaled_sum_monotone(data, i + 1, i + 1, tick);
            lemma_mul_le(data[i] as int, tick, 255, tick);
        }
    }
    assert(0 <= status * tick <= sent.t_frame) by (nonlinear_arith)
        requires
            sent.busy_time(status, data) <= sent.t_frame,
            sent.busy_time(status, data) == sent.t_sync + status * sent.t_tick
                + scaled_sum(data, nb, tick) + checksum_of(status, data) * sent.t_tick
                + (2 + sent.nb_nibbles) * sent.t_offset,
            scaled_sum(data, nb, tick) >= 0,
            0 <= checksum_of(status, data),
            tick == sent.t_tick,
    ;
    assert(0 <= checksum_of(status, data) * tick <= sent.t_frame) by (nonlinear_arith)
        requires
            sent.busy_time(status, data) <= sent.t_frame,
            sent.busy_time(status, data) == sent.t_sync + status * sent.t_tick
                + scaled_sum(data, nb, tick) + checksum_of(status, data) * sent.t_tick
                + (2 + sent.nb_nibbles) * sent.t_offset,
            scaled_sum(data, nb, tick) >= 0,
            0 <= checksum_of(status, data),
            tick == sent.t_tick,
    ;
    assert(0 <= (2 + nb) * sent.t_offset) by (nonlinear_arith)
        requires nb >= 0;
    reveal_with_fuel(scaled_sum, 7);
    assert(sent.data_time(data, 0) + sent.data_time(data, 1) + sent.data_time(data, 2)
        + sent.data_time(data, 3) + sent.data_time(data, 4) + sent.data_time(data, 5)
        == scaled_sum(data, nb, tick));
    assert((8 - nb) * sent.t_offset == 10 * sent.t_offset - (2 + nb) * sent.t_offset)
        by (nonlinear_arith);
}

/// `time_sum` of the first `k` times is their sum term by term.
pub proof fn lemma_time_sum_is_prefix_sum(times: Seq<u32>, k: int)
    requires
        0 <= k <= times.len(),
    ensures
        time_sum(times.take(k)) == time_sum_prefix(times, k),
    decreases k,
{
    if k == 0 {
        assert(times.take(0) =~= Seq::<u32>::empty());
    } else {
        lemma_time_sum_is_prefix_sum(times, k - 1);
        lemma_time_sum_step(times, k - 1);
    }
}

/// The sum of the first `k` times, written out term by term.
pub open spec fn time_sum_prefix(times: Seq<u32>, k: int) -> int
    decreases k,
{
    if k <= 0 {
        0
    } else {
        time_sum_prefix(times, k - 1) + times[k - 1]
    }
}

} // verus!
