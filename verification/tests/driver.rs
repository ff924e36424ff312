use sent_driver::sent::{check, convert_data, decoding_fits, diff_calcul, synchro};
use sent_driver::transmitter::LineAction;
use sent_driver::{calcul_checksum, Sent};

fn default_channel() -> Sent<(), ()> {
    Sent::new_default((), ())
}

fn pulse(offset: u32, time: u32) -> Vec<LineAction> {
    vec![
        LineAction::SetLow,
        LineAction::DelayUs(offset),
        LineAction::SetHigh,
        LineAction::DelayUs(time),
    ]
}

fn total_delay(plan: &[LineAction]) -> u64 {
    plan.iter()
        .map(|a| match a {
            LineAction::DelayUs(t) => *t as u64,
            _ => 0,
        })
        .sum()
}

#[test]
fn new_keeps_parameters() {
    let s = Sent::new(1u8, 2u16, 4000, 10, 560, 120, 4);
    assert_eq!(s.delay, 1);
    assert_eq!(s.pin, 2);
    assert_eq!(s.t_frame, 4000);
    assert_eq!(s.t_tick, 10);
    assert_eq!(s.t_sync, 560);
    assert_eq!(s.t_offset, 120);
    assert_eq!(s.nb_nibbles, 4);
}

#[test]
fn new_default_timing() {
    let s = default_channel();
    assert_eq!(s.t_frame, 5000);
    assert_eq!(s.t_tick, 15);
    assert_eq!(s.t_sync, 840);
    assert_eq!(s.t_offset, 180);
    assert_eq!(s.nb_nibbles, 6);
}

#[test]
fn checksum_of_example_frame() {
    // 15 + 0 + 9 + 5 + 13 + 8 + 4 = 54, low nibble 6, complement 9
    assert_eq!(calcul_checksum(&15, &[0, 9, 5, 13, 8, 4]), 9);
}

#[test]
fn checksum_of_zero_frame() {
    assert_eq!(calcul_checksum(&0, &[0; 6]), 15);
}

#[test]
fn checksum_completes_nibble_sum() {
    for status in 0u8..16 {
        let data = [status, 3, 15, 0, 7, 1];
        let sum: u32 = status as u32 + data.iter().map(|&d| d as u32).sum::<u32>();
        let crc = calcul_checksum(&status, &data);
        assert!(crc <= 15);
        assert_eq!((sum + crc as u32) % 16, 15);
    }
}

fn captured_frame(sync_end: usize, values: [u8; 8]) -> ([u16; 19], [u8; 18]) {
    let mut tab = [0u16; 19];
    tab[sync_end - 1] = 1000;
    tab[sync_end] = 2355;
    let mut durations = [0u8; 18];
    for (k, v) in values.iter().enumerate() {
        if sync_end + k < 18 {
            durations[sync_end + k] = 36 + 3 * v;
        }
    }
    (tab, durations)
}

#[test]
fn receive_frame_decodes_checked_frame() {
    let (tab, durations) = captured_frame(3, [0, 1, 2, 3, 4, 5, 6, 2]);
    assert_eq!(
        Sent::<(), ()>::receive_frame(tab, durations),
        Some((0, [1, 2, 3, 4, 5, 6]))
    );
    let (tab, durations) = captured_frame(10, [9, 0, 0, 0, 0, 0, 0, 5]);
    assert_eq!(
        Sent::<(), ()>::receive_frame(tab, durations),
        Some((9, [0, 0, 0, 0, 0, 0]))
    );
}

#[test]
fn receive_frame_rejects_bad_crc() {
    let (tab, durations) = captured_frame(3, [0, 1, 2, 3, 4, 5, 6, 3]);
    assert_eq!(Sent::<(), ()>::receive_frame(tab, durations), None);
}

#[test]
fn receive_frame_rejects_missing_sync() {
    let (_, durations) = captured_frame(3, [0, 1, 2, 3, 4, 5, 6, 2]);
    assert_eq!(Sent::<(), ()>::receive_frame([0u16; 19], durations), None);
}

#[test]
fn receive_frame_rejects_late_sync() {
    let (tab, durations) = captured_frame(11, [0, 1, 2, 3, 4, 5, 6, 2]);
    assert_eq!(Sent::<(), ()>::receive_frame(tab, durations), None);
}

#[test]
fn receive_frame_rejects_bad_pulse() {
    let (tab, mut durations) = captured_frame(3, [0, 1, 2, 3, 4, 5, 6, 2]);
    durations[6] = 20;
    assert_eq!(Sent::<(), ()>::receive_frame(tab, durations), None);
}

#[test]
fn diff_without_reload() {
    assert_eq!(diff_calcul(100, 200), 100);
    assert_eq!(diff_calcul(5, 5), 0);
    assert_eq!(diff_calcul(0, 65535), 65535);
}

#[test]
fn diff_across_reload() {
    assert_eq!(diff_calcul(200, 100), 65435);
    assert_eq!(diff_calcul(65000, 820), 1355);
}

#[test]
fn diff_returns_to_capture_modulo_reload() {
    for (x, y) in [(100u16, 200u16), (200, 100), (65534, 3), (7, 7)] {
        let d = diff_calcul(x, y) as u32;
        assert_eq!((x as u32 + d) % 65535, y as u32 % 65535);
    }
}

#[test]
fn synchro_finds_first_sync_pulse() {
    let mut tab = [0u16; 19];
    tab[2] = 1000;
    tab[3] = 2355;
    tab[4] = 2355 + 1350;
    let mut status = true;
    assert_eq!(synchro(tab, 0, &mut status), 3);
    assert!(status);
}

#[test]
fn synchro_across_reload() {
    let mut tab = [0u16; 19];
    tab[5] = 65000;
    tab[6] = 820;
    let mut status = true;
    assert_eq!(synchro(tab, 0, &mut status), 6);
    assert!(status);
}

#[test]
fn synchro_starts_after_index() {
    let mut tab = [0u16; 19];
    tab[2] = 1000;
    tab[3] = 2355;
    tab[8] = 5000;
    tab[9] = 6360;
    let mut status = true;
    assert_eq!(synchro(tab, 3, &mut status), 9);
    assert!(status);
}

#[test]
fn synchro_without_sync_pulse() {
    let tab = [0u16; 19];
    let mut status = true;
    assert_eq!(synchro(tab, 0, &mut status), 11);
    assert!(!status);
}

#[test]
fn synchro_ignores_pulse_past_last_position() {
    let mut tab = [0u16; 19];
    tab[11] = 100;
    tab[12] = 1455;
    let mut status = true;
    assert_eq!(synchro(tab, 0, &mut status), 11);
    assert!(!status);
}

#[test]
fn synchro_rejects_sync_at_limit() {
    let mut tab = [0u16; 19];
    tab[10] = 100;
    tab[11] = 1455;
    let mut status = true;
    assert_eq!(synchro(tab, 0, &mut status), 11);
    assert!(!status);
}

#[test]
fn synchro_from_late_index() {
    let tab = [0u16; 19];
    let mut status = true;
    assert_eq!(synchro(tab, 15, &mut status), 15);
    assert!(!status);
}

#[test]
fn synchro_keeps_false_status() {
    let mut tab = [0u16; 19];
    tab[0] = 10;
    tab[1] = 1370;
    let mut status = false;
    assert_eq!(synchro(tab, 0, &mut status), 1);
    assert!(!status);
}

#[test]
fn convert_data_decodes_frame() {
    let mut durations = [0u8; 18];
    let values = [3u8, 0, 15, 7, 1, 9, 12, 4];
    for (k, v) in values.iter().enumerate() {
        durations[4 + k] = 36 + 3 * v;
    }
    let mut status = true;
    assert_eq!(convert_data(durations, 4, &mut status), values);
    assert!(status);
}

#[test]
fn convert_data_rounds_down() {
    let mut durations = [37u8; 18];
    durations[1] = 81;
    durations[2] = 80;
    let mut status = true;
    assert_eq!(convert_data(durations, 0, &mut status), [0, 15, 14, 0, 0, 0, 0, 0]);
    assert!(status);
}

#[test]
fn convert_data_stops_at_bad_pulse() {
    let mut durations = [36u8 + 3 * 5; 18];
    durations[3] = 90;
    let mut status = true;
    assert_eq!(convert_data(durations, 0, &mut status), [5, 5, 5, 0, 0, 0, 0, 0]);
    assert!(!status);
}

#[test]
fn convert_data_short_pulse() {
    let mut durations = [36u8; 18];
    durations[0] = 35;
    let mut status = true;
    assert_eq!(convert_data(durations, 0, &mut status), [0; 8]);
    assert!(!status);
}

#[test]
fn convert_data_late_start_with_bad_pulse() {
    let mut durations = [36u8; 18];
    durations[17] = 0;
    let mut status = true;
    assert_eq!(convert_data(durations, 15, &mut status), [0, 0, 0, 0, 0, 0, 0, 0]);
    assert!(!status);
}

#[test]
fn check_accepts_crc() {
    // register: 5 -> 2 -> 5 -> 0 -> 4 -> 11 -> 13, CRC = table[13] = 2
    assert!(check([0, 1, 2, 3, 4, 5, 6, 2]));
    assert!(check([9, 1, 2, 3, 4, 5, 6, 2]));
    assert!(!check([0, 1, 2, 3, 4, 5, 6, 3]));
}

#[test]
fn check_zero_data() {
    // register: 5 -> 3 -> 10 -> 6 -> 9 -> 12 -> 15, CRC = table[15] = 5
    assert!(check([0, 0, 0, 0, 0, 0, 0, 5]));
    assert!(!check([0, 0, 0, 0, 0, 0, 0, 0]));
}

#[test]
fn decoded_frame_is_checkable() {
    let mut durations = [0u8; 18];
    let values = [0u8, 1, 2, 3, 4, 5, 6, 2];
    for (k, v) in values.iter().enumerate() {
        durations[2 + k] = 36 + 3 * v;
    }
    let mut status = true;
    let frame = convert_data(durations, 2, &mut status);
    assert!(status);
    assert!(check(frame));
}

#[test]
fn send_frame_plan() {
    let s = default_channel();
    let plan = s.send_frame(15, [0, 9, 5, 13, 8, 4]);
    let mut expected = Vec::new();
    for t in [840, 225, 0, 135, 75, 195, 120, 60, 135, 1775] {
        expected.extend(pulse(180, t));
    }
    assert_eq!(plan, expected);
}

#[test]
fn send_frame_fewer_nibbles() {
    let s = Sent::new((), (), 5000, 15, 840, 180, 3);
    let plan = s.send_frame(1, [2, 3, 4, 5, 6, 7]);
    // checksum: 1 + 27 = 28, low nibble 12, complement 3
    // busy: 840 + 15 + 135 + 45 + 5 * 180 = 1935
    let mut expected = Vec::new();
    for t in [840, 15, 30, 45, 60, 0, 0, 0, 45, 3065] {
        expected.extend(pulse(180, t));
    }
    assert_eq!(plan, expected);
}

#[test]
fn frame_duration_law() {
    for nb in 0u32..=6 {
        let s = Sent::new((), (), 5000, 15, 840, 180, nb);
        let plan = s.send_frame(4, [1, 15, 2, 14, 3, 13]);
        assert_eq!(total_delay(&plan), 5000 + (8 - nb as u64) * 180);
        assert_eq!(plan.len(), 40);
    }
}

#[test]
fn frame_fits_limits() {
    let s = default_channel();
    assert!(s.frame_fits(15, &[0, 9, 5, 13, 8, 4]));
    let tight = Sent::new((), (), 3225, 15, 840, 180, 6);
    assert!(tight.frame_fits(15, &[0, 9, 5, 13, 8, 4]));
    let short = Sent::new((), (), 3224, 15, 840, 180, 6);
    assert!(!short.frame_fits(15, &[0, 9, 5, 13, 8, 4]));
    let many = Sent::new((), (), 5000, 15, 840, 180, 7);
    assert!(!many.frame_fits(0, &[0; 6]));
    assert!(!s.frame_fits(250, &[1, 1, 1, 1, 1, 1]));
    let huge_tick = Sent::new((), (), u32::MAX, u32::MAX, 0, 0, 6);
    assert!(!huge_tick.frame_fits(1, &[1, 0, 0, 0, 0, 0]));
}

#[test]
fn decoding_fits_bounds() {
    let mut durations = [36u8; 18];
    assert!(decoding_fits(&durations, 0));
    assert!(decoding_fits(&durations, 10));
    assert!(!decoding_fits(&durations, 11));
    assert!(!decoding_fits(&durations, 18));
    durations[15] = 100;
    assert!(decoding_fits(&durations, 11));
    assert!(decoding_fits(&durations, 15));
    assert!(!decoding_fits(&durations, 16));
}

#[test]
fn sync_before_last_position_leaves_room() {
    let durations = [40u8; 18];
    for end in 1..11 {
        assert!(decoding_fits(&durations, end));
        let mut status = true;
        let frame = convert_data(durations, end, &mut status);
        assert!(status);
        assert_eq!(frame, [1; 8]);
    }
}
