use quspec::spectrogram::{
    plan_spectrogram, SpectrogramBuilder, SpectrogramData, SpectrogramState, SpectrogramUpdate,
};

fn column(x: usize, h: usize) -> Vec<u32> {
    (0..h).map(|y| (x * 100 + y) as u32).collect()
}

#[test]
fn builder_sends_chunks_of_sixteen_columns_and_the_last() {
    let (w, h) = (20usize, 3usize);
    let mut b = SpectrogramBuilder::new(w, h, 0u32);
    let mut sent = Vec::new();
    for x in 0..w {
        assert_eq!(b.next_column(), x);
        if let Some(u) = b.put_column(column(x, h)) {
            sent.push((x, u));
        }
    }
    assert_eq!(sent.len(), 2);
    match &sent[0] {
        (15, SpectrogramUpdate::Chunk { x_start: 0, pixels }) => assert_eq!(pixels.len(), 16 * h),
        _ => panic!("first chunk"),
    }
    match &sent[1] {
        (19, SpectrogramUpdate::Chunk { x_start: 16, pixels }) => {
            assert_eq!(pixels.len(), 4 * h);
            assert_eq!(pixels[0], 1600);
            assert_eq!(pixels[4 * h - 1], 1902);
        }
        _ => panic!("second chunk"),
    }
    let data = b.finish();
    assert_eq!((data.width, data.height), (w, h));
    // top row holds the last pixel of each column, bottom row the first
    assert_eq!(data.pixels[0], 2);
    assert_eq!(data.pixels[(h - 1) * w], 0);
    assert_eq!(data.pixels[(h - 1) * w + 7], 700);
    assert_eq!(data.pixels[w + 19], 1901);
}

#[test]
fn chunks_painted_onto_a_blank_image_rebuild_the_finished_image() {
    let (w, h) = (37usize, 5usize);
    let mut b = SpectrogramBuilder::new(w, h, 9u32);
    let mut state: SpectrogramState<u32> = SpectrogramState::new();
    let c = state.apply_update(SpectrogramUpdate::Started { width: w, height: h }, 9);
    assert!(c.repaint && !c.generation_over);
    assert_eq!(state.spectrogram.as_ref().unwrap().pixels, vec![9u32; w * h]);
    for x in 0..w {
        if let Some(u) = b.put_column(column(x, h)) {
            let c = state.apply_update(u, 9);
            assert!(c.repaint && !c.generation_over && c.error.is_none());
        }
    }
    let data = b.finish();
    assert_eq!(state.spectrogram.as_ref().unwrap().pixels, data.pixels);
    let c = state.apply_update(SpectrogramUpdate::Finished(data), 9);
    assert!(c.repaint && c.generation_over);
}

#[test]
fn a_partial_image_shows_the_columns_sent_so_far() {
    let (w, h) = (40usize, 2usize);
    let mut b = SpectrogramBuilder::new(w, h, 0u32);
    let mut state: SpectrogramState<u32> = SpectrogramState::new();
    state.apply_update(SpectrogramUpdate::Started { width: w, height: h }, 0);
    for x in 0..16 {
        if let Some(u) = b.put_column(column(x, h)) {
            state.apply_update(u, 0);
        }
    }
    let px = &state.spectrogram.as_ref().unwrap().pixels;
    assert_eq!(px[w + 15], 1500);
    assert_eq!(px[15], 1501);
    assert_eq!(px[w + 16], 0);
}

#[test]
fn chunks_past_the_right_edge_are_dropped_and_chunks_without_image_ignored() {
    let mut state: SpectrogramState<u8> = SpectrogramState::new();
    let c = state.apply_update(SpectrogramUpdate::Chunk { x_start: 0, pixels: vec![1, 2] }, 0);
    assert!(!c.repaint);
    assert!(state.spectrogram.is_none());
    state.apply_update(SpectrogramUpdate::Started { width: 2, height: 2 }, 0);
    state.apply_update(SpectrogramUpdate::Chunk { x_start: 1, pixels: vec![1, 2, 3, 4] }, 0);
    // column 1 gets [1, 2] (bottom first); column 2 is past the edge
    assert_eq!(state.spectrogram.as_ref().unwrap().pixels, vec![0, 2, 0, 1]);
}

#[test]
fn failures_end_generation_and_cancellations_are_not_reported() {
    let mut state: SpectrogramState<u8> = SpectrogramState::new();
    state.start_generation(10, 20);
    let c = state.apply_update(SpectrogramUpdate::Failed("Cancelled".to_string()), 0);
    assert!(c.generation_over && !c.repaint && c.error.is_none());
    assert_eq!(state.generating_size, None);
    state.start_generation(10, 20);
    let c = state.apply_update(SpectrogramUpdate::Failed("boom".to_string()), 0);
    assert_eq!(c.error, Some("boom".to_string()));
    assert_eq!(state.generating_size, None);
}

#[test]
fn generation_is_needed_when_the_size_changes() {
    let mut state: SpectrogramState<u8> = SpectrogramState::new();
    assert!(state.needs_generation(100, 50));
    assert_eq!(state.regeneration_size(), (800, 400));
    state.start_generation(100, 50);
    assert!(!state.needs_generation(100, 50));
    assert!(state.needs_generation(101, 50));
    state.apply_update(
        SpectrogramUpdate::Finished(SpectrogramData { width: 100, height: 50, pixels: vec![0; 5000] }),
        0,
    );
    assert!(!state.needs_generation(100, 50));
    assert_eq!(state.shown_size(), (100, 50));
    assert_eq!(state.regeneration_size(), (100, 50));
    state.reset();
    assert!(state.spectrogram.is_none());
}

#[test]
fn a_track_shorter_than_a_window_cannot_be_shown() {
    match plan_spectrogram(100, 2048, 800, 400) {
        Err(m) => assert_eq!(m, "Audio file is too short to generate a spectrogram."),
        Ok(_) => panic!("planned a short track"),
    }
    assert!(plan_spectrogram(2048, 2048, 800, 400).is_ok());
}

#[test]
fn short_tracks_get_one_overlapping_window_per_column() {
    let p = plan_spectrogram(10_000, 2048, 5, 10).ok().unwrap();
    assert_eq!(p.samples_per_col, 2000);
    // evenly spread from 0 to 10000 - 2048 = 7952
    let starts: Vec<usize> = (0..5).map(|c| p.column_windows(c)[0]).collect();
    assert_eq!(starts, vec![0, 1988, 3976, 5964, 7952]);
    for c in 0..5 {
        assert_eq!(p.column_windows(c).len(), 1);
    }
    // a single column holds every sample: its windows are averaged
    let one = plan_spectrogram(10_000, 2048, 1, 10).ok().unwrap();
    assert_eq!(one.column_windows(0), vec![0, 2048, 4096, 6144]);
}

#[test]
fn long_tracks_average_the_windows_of_each_column() {
    let p = plan_spectrogram(10_000, 1000, 3, 10).ok().unwrap();
    assert_eq!(p.samples_per_col, 3333);
    assert_eq!(p.column_windows(0), vec![0, 1000, 2000]);
    assert_eq!(p.column_windows(2), vec![6666, 7666, 8666]);
}

#[test]
fn rows_map_onto_bins_from_bottom_to_top() {
    let p = plan_spectrogram(10_000, 2048, 5, 5).ok().unwrap();
    assert_eq!(p.num_bins(), 1024);
    // y * 1023 / 4 rounded: 0, 255.75, 511.5, 767.25, 1023
    let bins: Vec<usize> = (0..5).map(|y| p.bin_for_row(y)).collect();
    assert_eq!(bins, vec![0, 256, 512, 767, 1023]);
    let flat = plan_spectrogram(10_000, 2048, 5, 1).ok().unwrap();
    assert_eq!(flat.bin_for_row(0), 0);
}
