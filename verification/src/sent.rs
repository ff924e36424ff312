//! Decoding of captured SENT frames.
//!
//! The receiver captures the value of a free-running 16-bit timer at each
//! falling edge of the line. The time between two falling edges gives a
//! nibble; the synchronisation pulse is recognised by its length, and the
//! frame is validated with a 4-bit CRC.

use vstd::prelude::*;

verus! {

/// Number of timer captures stored for one frame.
pub const NB_CAPTURES: usize = 19;

/// A synchronisation pulse must end before this capture: from it on, fewer
/// than eight pulses follow among the captures, too few for a frame.
pub const SYNC_SEARCH_LIMIT: usize = 11;

/// Number of nibbles decoded after the synchronisation pulse: status, six data
/// nibbles and the CRC.
pub const NB_FRAME_NIBBLES: usize = 8;

/// Ticks elapsed from capture `x` to capture `y` of the timer, where a `y`
/// below `x` means that the timer went through its reload in between.
pub open spec fn elapsed(x: u16, y: u16) -> int {
    if x > y {
        65535 - x + y
    } else {
        y - x
    }
}

/// Whether a number of elapsed ticks is that of a synchronisation pulse
/// (56 ticks of the sensor).
pub open spec fn is_sync_length(diff: int) -> bool {
    1350 <= diff <= 1360
}

/// Whether the pulse that ends at capture `j` is a synchronisation pulse.
pub open spec fn sync_ends_at(tab_time: Seq<u16>, j: int) -> bool {
    is_sync_length(elapsed(tab_time[j - 1], tab_time[j]))
}

/// Whether a synchronisation pulse ends at some capture in
/// `(from, SYNC_SEARCH_LIMIT)`.
pub open spec fn sync_between(tab_time: Seq<u16>, from: int) -> bool {
    exists|j: int| from < j < SYNC_SEARCH_LIMIT && #[trigger] sync_ends_at(tab_time, j)
}

/// The capture reached by the search for a synchronisation pulse that starts
/// after capture `from`: the first capture in `(from, SYNC_SEARCH_LIMIT)` at
/// which one ends, else `SYNC_SEARCH_LIMIT`, or `from` itself when `from` is
/// already past the limit.
pub open spec fn sync_search(tab_time: Seq<u16>, from: int) -> int
    decreases SYNC_SEARCH_LIMIT - from,
{
    if from >= SYNC_SEARCH_LIMIT {
        from
    } else if from + 1 < SYNC_SEARCH_LIMIT && sync_ends_at(tab_time, from + 1) {
        from + 1
    } else {
        sync_search(tab_time, from + 1)
    }
}

/// The search stops at the first synchronisation pulse after `from`.
pub proof fn lemma_sync_search_first(tab_time: Seq<u16>, from: int, end: int)
    requires
        from < end < SYNC_SEARCH_LIMIT,
        sync_ends_at(tab_time, end),
        forall|j: int| from < j < end ==> !#[trigger] sync_ends_at(tab_time, j),
    ensures
        sync_search(tab_time, from) == end,
    decreases end - from,
{
    if from + 1 < end {
        assert(!sync_ends_at(tab_time, from + 1));
        lemma_sync_search_first(tab_time, from + 1, end);
    }
}

/// Without a synchronisation pulse after `from`, the search reaches the limit.
pub proof fn lemma_sync_search_none(tab_time: Seq<u16>, from: int)
    requires
        forall|j: int| from < j < SYNC_SEARCH_LIMIT ==> !#[trigger] sync_ends_at(tab_time, j),
    ensures
        sync_search(tab_time, from) == if from < SYNC_SEARCH_LIMIT {
            SYNC_SEARCH_LIMIT as int
        } else {
            from
        },
    decreases SYNC_SEARCH_LIMIT - from,
{
    if from < SYNC_SEARCH_LIMIT {
        if from + 1 < SYNC_SEARCH_LIMIT {
            assert(!sync_ends_at(tab_time, from + 1));
        }
        lemma_sync_search_none(tab_time, from + 1);
    }
}

/// The difference between timer capture `x` and the later capture `y`.
pub fn diff_calcul(x: u16, y: u16) -> (diff: u16)
    ensures
        diff == elapsed(x, y),
{
    if x > y {
        65535 - x + y
    } else {
        y - x
    }
}

/// The elapsed ticks from `x` to `y`, added to `x`, give back `y` modulo the
/// reload value of the timer.
pub proof fn lemma_elapsed_returns_to_capture(x: u16, y: u16)
    ensures
        0 <= elapsed(x, y) <= 65535,
        (x + elapsed(x, y)) % 65535 == y % 65535,
        x <= y ==> elapsed(x, y) == y - x,
        x > y ==> elapsed(x, y) < 65535,
{
    if x > y {
        assert((x + (65535 - x + y)) % 65535 == y % 65535) by (nonlinear_arith)
            requires 0 <= y < x;
    } else if y == 65535 {
        assert(x + elapsed(x, y) == 65535);
    }
}

/// The search for the synchronisation pulse after capture `from` stops at the
/// first capture before 11 where a pulse of 1350 to 1360 ticks ends; when
/// there is none it stops at 11, or at `from` when that is already past 11.
pub proof fn lemma_sync_search_finds_sync_length(tab_time: Seq<u16>, from: int)
    requires
        tab_time.len() == 19,
        0 <= from,
    ensures
        ({
            let e = sync_search(tab_time, from);
            &&& from < e < 11 ==> {
                &&& 1350 <= elapsed(tab_time[e - 1], tab_time[e]) <= 1360
                &&& forall|j: int|
                    #![trigger tab_time[j]]
                    from < j < e ==> !(1350 <= elapsed(tab_time[j - 1], tab_time[j]) <= 1360)
            }
            &&& (e <= from || e >= 11) ==> {
                &&& e == if from < 11 { 11 } else { from }
                &&& forall|j: int|
                    #![trigger tab_time[j]]
                    from < j < 11 ==> !(1350 <= elapsed(tab_time[j - 1], tab_time[j]) <= 1360)
            }
        }),
    decreases 11 - from,
{
    if from < 11 {
        lemma_sync_search_finds_sync_length(tab_time, from + 1);
    }
}

/// Looks for the end of the synchronisation pulse after capture `ind`.
///
/// Returns the first capture `j` in `(ind, SYNC_SEARCH_LIMIT)` at which a
/// pulse of synchronisation length ends, and leaves `status_trame` as it was.
/// When there is none, the frame is false: `status_trame` is set to false and
/// the result is the larger of `ind` and `SYNC_SEARCH_LIMIT`. A pulse that
/// ends at `SYNC_SEARCH_LIMIT` itself is followed by too few captures for a
/// frame, and counts as none.
pub fn synchro(tab_time: [u16; 19], ind: usize, status_trame: &mut bool) -> (end: usize)
    ensures
        end == sync_search(tab_time@, ind as int),
        *final(status_trame) == (*old(status_trame) && ind < end < 11),
        sync_between(tab_time@, ind as int) ==> {
            &&& ind < end < SYNC_SEARCH_LIMIT
            &&& sync_ends_at(tab_time@, end as int)
            &&& forall|j: int| ind < j < end ==> !#[trigger] sync_ends_at(tab_time@, j)
            &&& *final(status_trame) == *old(status_trame)
        },
        !sync_between(tab_time@, ind as int) ==> {
            &&& end == if ind < SYNC_SEARCH_LIMIT { SYNC_SEARCH_LIMIT } else { ind }
            &&& !*final(status_trame)
        },
{
    let mut pos: usize = ind;
    let mut diff: u16 = 0;
    while !(1350 <= diff && diff <= 1360)
        invariant
            ind <= pos,
            pos == ind || pos <= SYNC_SEARCH_LIMIT,
            pos > ind ==> diff == elapsed(tab_time@[pos - 1], tab_time@[pos as int]),
            pos == ind ==> diff == 0,
            forall|j: int| ind < j < pos ==> !#[trigger] sync_ends_at(tab_time@, j),
            *status_trame == *old(status_trame),
        decreases SYNC_SEARCH_LIMIT - pos,
    {
        if pos < SYNC_SEARCH_LIMIT {
            pos = pos + 1;
            diff = diff_calcul(tab_time[pos - 1], tab_time[pos]);
        } else {
            *status_trame = false;
            proof {
                lemma_sync_search_none(tab_time@, ind as int);
            }
            return pos;
        }
    }
    if pos >= SYNC_SEARCH_LIMIT {
        // only seven pulses follow this capture: no fair frame
        *status_trame = false;
        proof {
            lemma_sync_search_none(tab_time@, ind as int);
        }
        return pos;
    }
    proof {
        assert(sync_ends_at(tab_time@, pos as int));
        lemma_sync_search_first(tab_time@, ind as int, pos as int);
    }
    pos
}

/// The lookup table of the CRC of SENT (polynomial x^4 + x^3 + x^2 + 1).
pub open spec fn crc_table() -> Seq<u8> {
    seq![0u8, 13, 7, 10, 14, 3, 9, 4, 1, 12, 6, 11, 15, 2, 8, 5]
}

/// Whether every value of a sequence is a nibble.
pub open spec fn all_nibbles(s: Seq<u8>) -> bool {
    forall|i: int| 0 <= i < s.len() ==> #[trigger] s[i] < 16
}

/// The CRC register after the nibbles of `s` went through it, from the seed 5.
pub open spec fn crc_register(s: Seq<u8>) -> u8
    decreases s.len(),
{
    if s.len() == 0 {
        5
    } else {
        crc_table()[crc_register(s.drop_last()) as int] ^ s.last()
    }
}

/// The CRC nibble of a sequence of data nibbles: the register after the data,
/// run once more through the table (an implicit zero nibble).
pub open spec fn crc_of(s: Seq<u8>) -> u8 {
    crc_table()[crc_register(s) as int]
}

/// Every entry of the CRC table is a nibble.
pub proof fn lemma_crc_table_nibble(i: int)
    requires
        0 <= i < 16,
    ensures
        crc_table()[i] < 16,
{
    let t = crc_table();
    if i == 0 {
    } else if i == 1 {
    } else if i == 2 {
    } else if i == 3 {
    } else if i == 4 {
    } else if i == 5 {
    } else if i == 6 {
    } else if i == 7 {
    } else if i == 8 {
    } else if i == 9 {
    } else if i == 10 {
    } else if i == 11 {
    } else if i == 12 {
    } else if i == 13 {
    } else if i == 14 {
    } else {
        assert(t[15] == 5);
    }
}

/// The CRC register stays a nibble while nibbles go through it, so the CRC of
/// a sequence of nibbles is a nibble.
pub proof fn lemma_crc_is_nibble(s: Seq<u8>)
    requires
        all_nibbles(s),
    ensures
        crc_register(s) < 16,
        crc_of(s) < 16,
    decreases s.len(),
{
    if s.len() > 0 {
        assert(all_nibbles(s.drop_last())) by {
            assert forall|i: int| 0 <= i < s.drop_last().len() implies #[trigger] s.drop_last()[i]
                < 16 by {
                assert(s.drop_last()[i] == s[i]);
            }
        }
        lemma_crc_is_nibble(s.drop_last());
        let r = crc_register(s.drop_last());
        lemma_crc_table_nibble(r as int);
        let t = crc_table()[r as int];
        let a = s.last();
        assert(a < 16);
        assert(t < 16 && a < 16 ==> t ^ a < 16) by (bit_vector);
    }
    lemma_crc_table_nibble(crc_register(s) as int);
}

/// Multiplication by `x` of a 4-bit polynomial over GF(2), modulo
/// `x^4 + x^3 + x^2 + 1` (so `x^4` reduces to `x^3 + x^2 + 1`, 0b1101).
pub open spec fn poly_times_x(v: u8) -> u8 {
    if v & 8 == 8 {
        ((v << 1u8) & 15) ^ 13
    } else {
        (v << 1u8) & 15
    }
}

/// Multiplication by `x^4` modulo `x^4 + x^3 + x^2 + 1`.
pub open spec fn poly_times_x4(v: u8) -> u8 {
    poly_times_x(poly_times_x(poly_times_x(poly_times_x(v))))
}

/// The CRC table is that of the polynomial `x^4 + x^3 + x^2 + 1`: entry `r`
/// is `r * x^4` modulo the polynomial.
pub proof fn lemma_crc_table_is_polynomial(r: int)
    requires
        0 <= r < 16,
    ensures
        crc_table()[r] == poly_times_x4(r as u8),
{
    assert(poly_times_x4(0u8) == 0u8 && poly_times_x4(1u8) == 13u8 && poly_times_x4(2u8) == 7u8
        && poly_times_x4(3u8) == 10u8 && poly_times_x4(4u8) == 14u8 && poly_times_x4(5u8) == 3u8
        && poly_times_x4(6u8) == 9u8 && poly_times_x4(7u8) == 4u8 && poly_times_x4(8u8) == 1u8
        && poly_times_x4(9u8) == 12u8 && poly_times_x4(10u8) == 6u8 && poly_times_x4(11u8) == 11u8
        && poly_times_x4(12u8) == 15u8 && poly_times_x4(13u8) == 2u8 && poly_times_x4(14u8) == 8u8
        && poly_times_x4(15u8) == 5u8) by (bit_vector);
    let t = crc_table();
    assert(t[0] == 0 && t[1] == 13 && t[2] == 7 && t[3] == 10 && t[4] == 14 && t[5] == 3 && t[6]
        == 9 && t[7] == 4 && t[8] == 1 && t[9] == 12 && t[10] == 6 && t[11] == 11 && t[12] == 15
        && t[13] == 2 && t[14] == 8 && t[15] == 5);
    if r == 0 {
    } else if r == 1 {
    } else if r == 2 {
    } else if r == 3 {
    } else if r == 4 {
    } else if r == 5 {
    } else if r == 6 {
    } else if r == 7 {
    } else if r == 8 {
    } else if r == 9 {
    } else if r == 10 {
    } else if r == 11 {
    } else if r == 12 {
    } else if r == 13 {
    } else if r == 14 {
    } else {
    }
}

/// How the CRC is computed: the register starts at 5, each nibble `a` takes
/// it from `r` to `table[r] ^ a`, and the CRC is the table entry of the final
/// register.
pub proof fn lemma_crc_computation(s: Seq<u8>, a: u8)
    ensures
        crc_register(Seq::<u8>::empty()) == 5,
        crc_register(s.push(a)) == crc_table()[crc_register(s) as int] ^ a,
        crc_of(s) == crc_table()[crc_register(s) as int],
{
    assert(s.push(a).drop_last() =~= s);
}

/// Two different nibbles have different entries in the CRC table.
pub proof fn lemma_crc_table_injective(a: int, b: int)
    requires
        0 <= a < 16,
        0 <= b < 16,
        crc_table()[a] == crc_table()[b],
    ensures
        a == b,
{
    let inverse = seq![0int, 8, 13, 5, 7, 15, 10, 2, 14, 6, 3, 11, 9, 1, 4, 12];
    assert forall|r: int| 0 <= r < 16 implies #[trigger] inverse[crc_table()[r] as int] == r by {
        lemma_crc_table_is_polynomial(r);
        let t = crc_table();
        assert(t[0] == 0 && t[1] == 13 && t[2] == 7 && t[3] == 10 && t[4] == 14 && t[5] == 3
            && t[6] == 9 && t[7] == 4 && t[8] == 1 && t[9] == 12 && t[10] == 6 && t[11] == 11
            && t[12] == 15 && t[13] == 2 && t[14] == 8 && t[15] == 5);
    }
}

/// Once the registers of two nibble sequences differ, going through the same
/// further nibbles keeps them different.
proof fn lemma_crc_prefix_differs(s: Seq<u8>, i: int, v: u8, k: int)
    requires
        all_nibbles(s),
        0 <= i < s.len(),
        v < 16,
        v != s[i],
        i < k <= s.len(),
    ensures
        crc_register(s.update(i, v).take(k)) != crc_register(s.take(k)),
        crc_register(s.update(i, v).take(k)) < 16,
        crc_register(s.take(k)) < 16,
    decreases k,
{
    let t = s.update(i, v);
    let p = s.take(k - 1);
    let q = t.take(k - 1);
    assert(s.take(k).drop_last() =~= p);
    assert(t.take(k).drop_last() =~= q);
    assert(all_nibbles(p));
    assert(all_nibbles(q));
    lemma_crc_is_nibble(p);
    lemma_crc_is_nibble(q);
    let rp = crc_register(p);
    let rq = crc_register(q);
    lemma_crc_table_nibble(rp as int);
    lemma_crc_table_nibble(rq as int);
    let tp = crc_table()[rp as int];
    let tq = crc_table()[rq as int];
    if k - 1 == i {
        assert(q =~= p);
        let a = s[i];
        assert(a != v ==> tp ^ a != tp ^ v) by (bit_vector);
        assert(tp < 16 && a < 16 ==> tp ^ a < 16) by (bit_vector);
        assert(tp < 16 && v < 16 ==> tp ^ v < 16) by (bit_vector);
    } else {
        lemma_crc_prefix_differs(s, i, v, k - 1);
        let a = s[k - 1];
        assert(t[k - 1] == a);
        if tp == tq {
            lemma_crc_table_injective(rp as int, rq as int);
        }
        assert(tq != tp ==> tq ^ a != tp ^ a) by (bit_vector);
        assert(tp < 16 && a < 16 ==> tp ^ a < 16) by (bit_vector);
        assert(tq < 16 && a < 16 ==> tq ^ a < 16) by (bit_vector);
    }
}

/// The CRC detects every error in a single nibble: changing one nibble of the
/// data to another nibble changes the CRC.
pub proof fn lemma_crc_detects_single_nibble_error(s: Seq<u8>, i: int, v: u8)
    requires
        all_nibbles(s),
        0 <= i < s.len(),
        v < 16,
        v != s[i],
    ensures
        crc_of(s.update(i, v)) != crc_of(s),
{
    lemma_crc_prefix_differs(s, i, v, s.len() as int);
    assert(s.take(s.len() as int) =~= s);
    assert(s.update(i, v).take(s.len() as int) =~= s.update(i, v));
    let r1 = crc_register(s.update(i, v));
    let r2 = crc_register(s);
    if crc_table()[r1 as int] == crc_table()[r2 as int] {
        lemma_crc_table_injective(r1 as int, r2 as int);
    }
}

/// Checks a decoded frame: true when its last nibble is the CRC of its six
/// data nibbles (the status nibble, first, is not covered by the CRC).
pub fn check(tab_value: [u8; 8]) -> (valid: bool)
    requires
        all_nibbles(tab_value@.subrange(1, 7)),
    ensures
        valid == (tab_value@[7] == crc_of(tab_value@.subrange(1, 7))),
{
    let mut checksum: u8 = 5;
    let crclookup: [u8; 16] = [0, 13, 7, 10, 14, 3, 9, 4, 1, 12, 6, 11, 15, 2, 8, 5];
    assert(crclookup@ == crc_table());
    let mut i: usize = 1;
    while i < 7
        invariant
            1 <= i <= 7,
            crclookup@ == crc_table(),
            all_nibbles(tab_value@.subrange(1, 7)),
            checksum == crc_register(tab_value@.subrange(1, i as int)),
            checksum < 16,
        decreases 7 - i,
    {
        let ghost done = tab_value@.subrange(1, i as int + 1);
        assert(done.drop_last() =~= tab_value@.subrange(1, i as int));
        assert(tab_value@[i as int] == tab_value@.subrange(1, 7)[i - 1]);
        proof {
            lemma_crc_table_nibble(checksum as int);
        }
        let looked: u8 = crclookup[checksum as usize];
        let a: u8 = tab_value[i];
        assert(looked < 16 && a < 16 ==> looked ^ a < 16) by (bit_vector);
        checksum = looked ^ a;
        i = i + 1;
    }
    proof {
        lemma_crc_table_nibble(checksum as int);
    }
    checksum = crclookup[checksum as usize];
    tab_value[7] == checksum
}

/// Whether a pulse of `d` microseconds carries a nibble: 12 to 27 ticks of
/// 3 us.
pub open spec fn pulse_in_range(d: u8) -> bool {
    36 <= d <= 81
}

/// The nibble that a pulse of `d` microseconds carries.
pub open spec fn nibble_of_pulse(d: u8) -> int {
    (d - 36) / 3
}

/// Whether the pulse at index `i` of `durations` exists and carries a nibble.
pub open spec fn pulse_valid_at(durations: Seq<u8>, i: int) -> bool {
    0 <= i < durations.len() && pulse_in_range(durations[i])
}

/// Whether the `n` pulses from index `ind` on all carry a nibble.
pub open spec fn pulses_valid(durations: Seq<u8>, ind: int, n: int) -> bool {
    forall|i: int| ind <= i < ind + n ==> #[trigger] pulse_valid_at(durations, i)
}

/// Whether decoding from index `ind` stays within `durations`: decoding stops
/// advancing at the first pulse that carries no nibble, so either a whole
/// frame fits after `ind`, or such a pulse comes before the end.
pub open spec fn decoding_in_bounds(durations: Seq<u8>, ind: int) -> bool {
    &&& 0 <= ind < durations.len()
    &&& (ind + NB_FRAME_NIBBLES <= durations.len() || exists|i: int|
        ind <= i < durations.len() && !#[trigger] pulse_valid_at(durations, i))
}

/// When decoding from index `ind` stays within `durations`: `ind` is an index
/// of it, and either eight pulses follow from `ind` on, or some pulse from
/// `ind` on lasts less than 36 or more than 81 us.
pub proof fn lemma_decoding_in_bounds_means(durations: Seq<u8>, ind: int)
    ensures
        decoding_in_bounds(durations, ind) <==> {
            &&& 0 <= ind < durations.len()
            &&& (ind + 8 <= durations.len() || exists|i: int|
                #![trigger durations[i]]
                ind <= i && i < durations.len() && !(36 <= durations[i] && durations[i] <= 81))
        },
{
    if decoding_in_bounds(durations, ind) && ind + 8 > durations.len() {
        let i = choose|i: int|
            ind <= i < durations.len() && !#[trigger] pulse_valid_at(durations, i);
        assert(durations[i] == durations[i]);
    }
    if 0 <= ind < durations.len() && ind + 8 > durations.len() && exists|i: int|
        #![trigger durations[i]]
        ind <= i && i < durations.len() && !(36 <= durations[i] && durations[i] <= 81) {
        let i = choose|i: int|
            #![trigger durations[i]]
            ind <= i && i < durations.len() && !(36 <= durations[i] && durations[i] <= 81);
        assert(!pulse_valid_at(durations, i));
    }
}

/// Whether `convert_data` accepts `ind` for these durations.
pub fn decoding_fits(durations_us: &[u8; 18], ind: usize) -> (fits: bool)
    ensures
        fits == decoding_in_bounds(durations_us@, ind as int),
{
    if ind >= 18 {
        return false;
    }
    if ind + NB_FRAME_NIBBLES <= 18 {
        return true;
    }
    let mut i: usize = ind;
    while i < 18
        invariant
            ind <= i <= 18,
            ind < 18,
            forall|j: int| ind <= j < i ==> #[trigger] pulse_valid_at(durations_us@, j),
        decreases 18 - i,
    {
        let d: u8 = durations_us[i];
        if !(36 <= d && d <= 81) {
            assert(!pulse_valid_at(durations_us@, i as int));
            return true;
        }
        i = i + 1;
    }
    false
}

/// A pulse carries a nibble when it lasts 36 to 81 us, and the nibble is the
/// one whose nominal length `36 + 3 * n` us is the last one not above it.
pub proof fn lemma_pulse_decoding(d: u8)
    ensures
        pulse_in_range(d) <==> 36 <= d <= 81,
        pulse_in_range(d) ==> {
            &&& 0 <= nibble_of_pulse(d) <= 15
            &&& 36 + 3 * nibble_of_pulse(d) <= d < 39 + 3 * nibble_of_pulse(d)
        },
{
}

/// Whether the pulses from index `ind` that decoding `n` nibbles needs all
/// exist and last 36 to 81 us.
pub proof fn lemma_pulses_valid_means(durations: Seq<u8>, ind: int, n: int)
    ensures
        pulses_valid(durations, ind, n) <==> {
            &&& (n <= 0 || (0 <= ind && ind + n <= durations.len()))
            &&& forall|i: int|
                #![trigger durations[i]]
                ind <= i && i < ind + n ==> 36 <= durations[i] && durations[i] <= 81
        },
{
    if pulses_valid(durations, ind, n) {
        assert forall|i: int| #![trigger durations[i]] ind <= i && i < ind + n implies 36
            <= durations[i] && durations[i] <= 81 by {
            assert(pulse_valid_at(durations, i));
        }
        if n > 0 {
            assert(pulse_valid_at(durations, ind));
            assert(pulse_valid_at(durations, ind + n - 1));
        }
    } else {
        let i = choose|i: int| ind <= i < ind + n && !#[trigger] pulse_valid_at(durations, i);
        assert(durations[i] == durations[i]);
    }
}

/// Converts pulse durations into nibbles.
///
/// `durations_us[i]` is the time in microseconds between captures `i` and
/// `i + 1`. The eight pulses from index `ind` are decoded in turn; nibble `k`
/// is decoded when it and all the pulses before it carry a nibble, and is 0
/// otherwise. `status_trame` is set to false when any of the eight pulses
/// carries no nibble.
pub fn convert_data(durations_us: [u8; 18], ind: usize, status_trame: &mut bool) -> (tab_value: [u8; 8])
    requires
        decoding_in_bounds(durations_us@, ind as int),
    ensures
        forall|k: int|
            0 <= k < NB_FRAME_NIBBLES ==> #[trigger] tab_value@[k] == if pulses_valid(
                durations_us@,
                ind as int,
                k + 1,
            ) {
                nibble_of_pulse(durations_us@[ind + k])
            } else {
                0
            },
        *final(status_trame) == (*old(status_trame) && pulses_valid(
            durations_us@,
            ind as int,
            NB_FRAME_NIBBLES as int,
        )),
        all_nibbles(tab_value@),
{
    let mut tab_value: [u8; 8] = [0; 8];
    let mut pos: usize = ind;
    let mut k: usize = 0;
    while k < NB_FRAME_NIBBLES
        invariant
            0 <= k <= NB_FRAME_NIBBLES,
            decoding_in_bounds(durations_us@, ind as int),
            ind <= pos <= 18,
            pulses_valid(durations_us@, ind as int, pos - ind),
            pulses_valid(durations_us@, ind as int, k as int) ==> {
                &&& pos == ind + k
                &&& *status_trame == *old(status_trame)
            },
            !pulses_valid(durations_us@, ind as int, k as int) ==> {
                &&& !pulse_valid_at(durations_us@, pos as int)
                &&& !*status_trame
                &&& pos < ind + k
                &&& pos < 18
            },
            forall|j: int|
                0 <= j < k ==> #[trigger] tab_value@[j] == if pulses_valid(
                    durations_us@,
                    ind as int,
                    j + 1,
                ) {
                    nibble_of_pulse(durations_us@[ind + j])
                } else {
                    0
                },
            forall|j: int| k <= j < NB_FRAME_NIBBLES ==> #[trigger] tab_value@[j] == 0,
            all_nibbles(tab_value@),
        decreases NB_FRAME_NIBBLES - k,
    {
        let data: u8 = durations_us[pos];
        if !(36 <= data && data <= 81) {
            *status_trame = false;
            assert(!pulse_valid_at(durations_us@, pos as int));
            assert(!pulses_valid(durations_us@, ind as int, k as int + 1));
        } else {
            tab_value[k] = (data - 36) / 3;
            pos = pos + 1;
        }
        k = k + 1;
    }
    tab_value
}

/// A frame decoded by `convert_data` is accepted by `check`: all its values
/// are nibbles.
pub proof fn lemma_decoded_frame_checkable(tab_value: Seq<u8>)
    requires
        tab_value.len() == NB_FRAME_NIBBLES,
        all_nibbles(tab_value),
    ensures
        all_nibbles(tab_value.subrange(1, 7)),
{
    assert forall|i: int| 0 <= i < 6 implies #[trigger] tab_value.subrange(1, 7)[i] < 16 by {
        assert(tab_value.subrange(1, 7)[i] == tab_value[i + 1]);
    }
}

/// A synchronisation pulse that `synchro` accepts leaves room to decode a
/// whole frame after it.
pub proof fn lemma_sync_leaves_room_for_frame(durations: Seq<u8>, end: int)
    requires
        durations.len() == NB_CAPTURES - 1,
        0 < end < SYNC_SEARCH_LIMIT,
    ensures
        decoding_in_bounds(durations, end),
{
}

} // verus!
