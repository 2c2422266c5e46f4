use quspec::app::QuspecApp;

fn app(n: usize) -> (QuspecApp<String, u32>, Vec<usize>) {
    QuspecApp::new((0..n).map(|i| format!("t{i}.wav")).collect())
}

#[test]
fn a_new_viewer_starts_on_the_first_track() {
    let (a, load) = app(5);
    assert_eq!(a.current_index(), 0);
    assert_eq!(a.fft_size(), 2048);
    assert_eq!(a.current_channel(), 0);
    assert_eq!(load, vec![0, 1, 4]);
    assert!(a.current_track().is_none());
    assert_eq!(a.current_path(), "t0.wav");
}

#[test]
fn small_playlists_keep_fewer_tracks() {
    assert_eq!(app(0).1, Vec::<usize>::new());
    assert_eq!(app(1).1, vec![0]);
    assert_eq!(app(2).1, vec![0, 1]);
}

#[test]
fn moving_along_the_playlist_wraps_around_and_keeps_neighbours() {
    let (mut a, load) = app(5);
    for i in load {
        a.store_track(i, i as u32 * 10);
    }
    assert_eq!(a.current_track(), Some(&0));
    let m = a.next_track().unwrap();
    assert_eq!(a.current_index(), 1);
    assert_eq!(m, vec![2]);
    // track 4 is no longer a neighbour
    assert_eq!(a.take_track(4), None);
    assert_eq!(a.take_track(0), Some(0));
    a.store_track(0, 0);
    let m = a.previous_track().unwrap();
    assert_eq!(a.current_index(), 0);
    assert_eq!(m, vec![4]);
    let m = a.previous_track().unwrap();
    assert_eq!(a.current_index(), 4);
    assert_eq!(m, vec![4, 3]);
    let _ = a.next_track().unwrap();
    assert_eq!(a.current_index(), 0);
}

#[test]
fn a_single_track_does_not_move() {
    let (mut a, _) = app(1);
    assert!(a.next_track().is_none());
    assert!(a.previous_track().is_none());
    assert_eq!(a.current_index(), 0);
}

#[test]
fn loading_a_track_resets_the_channel_and_ignores_bad_indices() {
    let (mut a, _) = app(3);
    a.cycle_channel(2);
    assert_eq!(a.current_channel(), 1);
    assert!(a.load_track(7).is_none());
    assert_eq!(a.current_channel(), 1);
    let m = a.load_track(2).unwrap();
    assert_eq!(a.current_index(), 2);
    assert_eq!(a.current_channel(), 0);
    assert_eq!(m, vec![2, 0, 1]);
}

#[test]
fn channels_cycle() {
    let (mut a, _) = app(1);
    a.cycle_channel(3);
    a.cycle_channel(3);
    assert_eq!(a.current_channel(), 2);
    a.cycle_channel(3);
    assert_eq!(a.current_channel(), 0);
}

#[test]
fn window_size_steps_between_bounds() {
    let (mut a, _) = app(1);
    assert!(a.step_window_size(false));
    assert_eq!(a.fft_size(), 4096);
    assert!(a.step_window_size(false));
    assert!(a.step_window_size(false));
    assert_eq!(a.fft_size(), 16384);
    assert!(!a.step_window_size(false));
    assert_eq!(a.fft_size(), 16384);
    for _ in 0..6 {
        assert!(a.step_window_size(true));
    }
    assert_eq!(a.fft_size(), 256);
    assert!(!a.step_window_size(true));
    assert_eq!(a.fft_size(), 256);
}

#[test]
fn updating_the_cache_again_after_storing_changes_nothing() {
    let (mut a, load) = app(6);
    for i in load {
        a.store_track(i, 7);
    }
    let m = a.next_track().unwrap();
    for i in m {
        a.store_track(i, 8);
    }
    assert!(a.update_cache().is_empty());
    assert_eq!(a.take_track(0), Some(7));
    assert_eq!(a.take_track(1), Some(7));
    assert_eq!(a.take_track(2), Some(8));
    assert_eq!(a.take_track(5), None);
}
