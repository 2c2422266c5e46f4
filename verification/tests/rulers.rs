use quspec::rulers::{db_ticks, freq_ticks};

#[test]
fn decibel_ticks() {
    // 300 px: 10 ticks at most, 12 dB apart at least: 20 dB steps
    assert_eq!(db_ticks(300), vec![-120, -100, -80, -60, -40, -20, 0]);
    // 40 px: 2 ticks at most: 60 dB steps
    assert_eq!(db_ticks(40), vec![-120, -60, 0]);
    // 900 px: 30 ticks: 5 dB steps
    assert_eq!(db_ticks(900).len(), 25);
    assert_eq!(db_ticks(900)[1], -115);
}

#[test]
fn frequency_ticks() {
    // 44.1 kHz, 300 px: 10 ticks over 22050 Hz: 5 kHz steps, the last one
    // more than 3.5 kHz below Nyquist
    assert_eq!(freq_ticks(44100, 300), vec![0, 5000, 10000, 15000]);
    // 48 kHz: 20 kHz is 4 kHz below 24 kHz: kept
    assert_eq!(freq_ticks(48000, 300), vec![0, 5000, 10000, 15000, 20000]);
    // 8 kHz, 600 px: 20 ticks over 4000 Hz: 200 Hz steps
    let t = freq_ticks(8000, 600);
    assert_eq!(t[1], 200);
    assert_eq!(*t.last().unwrap(), 3800);
    // a very high rate with a short ruler falls back to 20 kHz steps
    assert_eq!(freq_ticks(384000, 10)[1], 20000);
}
