//! Receiving side of a SENT channel.

use vstd::prelude::*;

use crate::sent::{
    all_nibbles, check, convert_data, crc_of, elapsed, lemma_decoded_frame_checkable,
    lemma_sync_leaves_room_for_frame, lemma_sync_search_finds_sync_length, nibble_of_pulse,
    pulse_valid_at, pulses_valid, sync_search, synchro, NB_FRAME_NIBBLES, SYNC_SEARCH_LIMIT,
};
use crate::Sent;

verus! {

/// The nibbles decoded from the eight pulses that follow capture `end`.
pub open spec fn frame_nibbles(durations: Seq<u8>, end: int) -> Seq<u8> {
    Seq::new(NB_FRAME_NIBBLES as nat, |k: int| nibble_of_pulse(durations[end + k]) as u8)
}

/// The frame received from the captures `tab_time` of a frame and the
/// durations `durations` of the pulses between them: the status nibble and
/// the six data nibbles that follow the first synchronisation pulse, when
/// there is one early enough, all eight pulses after it carry a nibble, and
/// the last nibble is the CRC of the data.
pub open spec fn received_frame(tab_time: Seq<u16>, durations: Seq<u8>) -> Option<(u8, Seq<u8>)> {
    let end = sync_search(tab_time, 0);
    let nibbles = frame_nibbles(durations, end);
    if end < SYNC_SEARCH_LIMIT && pulses_valid(durations, end, NB_FRAME_NIBBLES as int)
        && nibbles[7] == crc_of(nibbles.subrange(1, 7)) {
        Some((nibbles[0], nibbles.subrange(1, 7)))
    } else {
        None
    }
}

/// The data nibbles carried by the six pulses after the status pulse, which
/// follows the synchronisation pulse that ends at capture `j`.
pub open spec fn data_after_sync(durations: Seq<u8>, j: int) -> Seq<u8> {
    Seq::new(6, |i: int| ((durations[j + 1 + i] - 36) / 3) as u8)
}

/// A frame whose synchronisation pulse (1350 to 1360 ticks) first ends at a
/// capture `j` with `0 < j < 11` is received from the eight pulses after it:
/// when they all last 36 to 81 us and the last one carries the CRC of the six
/// data nibbles, the result is the status nibble and the data nibbles, each
/// pulse of `d` us carrying `(d - 36) / 3`; otherwise no frame is received.
pub proof fn lemma_receive_after_first_sync(tab_time: Seq<u16>, durations: Seq<u8>, j: int)
    requires
        tab_time.len() == 19,
        durations.len() == 18,
        0 < j < 11,
        1350 <= elapsed(tab_time[j - 1], tab_time[j]) <= 1360,
        forall|i: int|
            #![trigger tab_time[i]]
            0 < i < j ==> !(1350 <= elapsed(tab_time[i - 1], tab_time[i]) <= 1360),
    ensures
        received_frame(tab_time, durations) == if (forall|k: int|
            0 <= k < 8 ==> 36 <= #[trigger] durations[j + k] <= 81) && (durations[j + 7] - 36) / 3
            == crc_of(data_after_sync(durations, j)) {
            Some((((durations[j] - 36) / 3) as u8, data_after_sync(durations, j)))
        } else {
            None::<(u8, Seq<u8>)>
        },
{
    lemma_sync_search_finds_sync_length(tab_time, 0);
    let e = sync_search(tab_time, 0);
    if e != j {
        if e < j {
            assert(tab_time[e] == tab_time[e]);
        } else {
            assert(tab_time[j] == tab_time[j]);
        }
    }
    assert(e == j);
    let nibbles = frame_nibbles(durations, j);
    assert(nibbles.subrange(1, 7) =~= data_after_sync(durations, j));
    let all_in = forall|k: int| 0 <= k < 8 ==> 36 <= #[trigger] durations[j + k] <= 81;
    if all_in {
        assert(pulses_valid(durations, j, 8)) by {
            assert forall|i: int| j <= i < j + 8 implies #[trigger] pulse_valid_at(durations, i) by {
                assert(36 <= durations[j + (i - j)] <= 81);
            }
        }
    } else {
        let k = choose|k: int| 0 <= k < 8 && !(36 <= #[trigger] durations[j + k] <= 81);
        assert(!pulse_valid_at(durations, j + k));
    }
}

/// Without a synchronisation pulse (1350 to 1360 ticks) ending at a capture
/// `j` with `0 < j < 11`, no frame is received.
pub proof fn lemma_receive_needs_sync(tab_time: Seq<u16>, durations: Seq<u8>)
    requires
        tab_time.len() == 19,
        forall|i: int|
            #![trigger tab_time[i]]
            0 < i < 11 ==> !(1350 <= elapsed(tab_time[i - 1], tab_time[i]) <= 1360),
    ensures
        received_frame(tab_time, durations) is None,
{
    lemma_sync_search_finds_sync_length(tab_time, 0);
    let e = sync_search(tab_time, 0);
    if 0 < e < 11 {
        assert(tab_time[e] == tab_time[e]);
    }
}

impl<DELAY, PIN> Sent<DELAY, PIN> {
    /// Receives a frame from the captures of its falling edges.
    ///
    /// `tab_time` holds the timer captures of one frame, and `durations_us[i]`
    /// the time in microseconds between captures `i` and `i + 1`. The frame is
    /// found after the synchronisation pulse, decoded and checked against its
    /// CRC; the result is its status and data nibbles, or `None` when any of
    /// these steps fails.
    pub fn receive_frame(tab_time: [u16; 19], durations_us: [u8; 18]) -> (frame: Option<(u8, [u8; 6])>)
        ensures
            match frame {
                Some((status, data)) => received_frame(tab_time@, durations_us@) == Some(
                    (status, data@),
                ),
                None => received_frame(tab_time@, durations_us@) is None,
            },
            frame matches Some((status, data)) ==> status < 16 && all_nibbles(data@),
    {
        let mut status_trame: bool = true;
        let end: usize = synchro(tab_time, 0, &mut status_trame);
        if !status_trame {
            return None;
        }
        proof {
            lemma_sync_leaves_room_for_frame(durations_us@, end as int);
        }
        let values: [u8; 8] = convert_data(durations_us, end, &mut status_trame);
        let ghost nibbles = frame_nibbles(durations_us@, end as int);
        if !status_trame {
            return None;
        }
        assert(values@ =~= nibbles) by {
            assert forall|k: int| 0 <= k < 8 implies values@[k] == nibbles[k] by {
                assert(pulses_valid(durations_us@, end as int, k + 1));
            }
        }
        proof {
            lemma_decoded_frame_checkable(values@);
        }
        if !check(values) {
            return None;
        }
        let data: [u8; 6] = [values[1], values[2], values[3], values[4], values[5], values[6]];
        assert(data@ =~= values@.subrange(1, 7));
        assert(all_nibbles(data@)) by {
            lemma_decoded_frame_checkable(values@);
        }
        Some((values[0], data))
    }
}

} // verus!
