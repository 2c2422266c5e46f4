use quspec::audio::{
    extract_channel, first_decodable_track, get_current_samples, track_format, view_window,
    DecodeSession, DecodedAudio, PacketDecode, PacketRead, PacketStep,
};

#[test]
fn the_first_track_with_a_known_codec_is_decoded() {
    assert_eq!(first_decodable_track(&vec![true, false, false]), Ok(1));
    assert_eq!(
        first_decodable_track(&vec![true, true]),
        Err("no supported audio track found".to_string())
    );
    assert!(first_decodable_track(&vec![]).is_err());
}

#[test]
fn the_track_format_must_be_known() {
    assert_eq!(track_format(Some(2), Some(44100)), Ok((2, 44100)));
    assert_eq!(track_format(None, Some(44100)), Err("No channels metadata".to_string()));
    assert_eq!(track_format(None, None), Err("No channels metadata".to_string()));
    assert_eq!(track_format(Some(2), None), Err("No sample rate metadata".to_string()));
}

#[test]
fn packets_of_the_chosen_track_are_decoded_and_damaged_ones_dropped() {
    let mut s: DecodeSession<f32> = DecodeSession::new(3);
    assert!(matches!(s.on_read(PacketRead::Packet { track_id: 3 }), PacketStep::Decode));
    assert!(matches!(s.on_read(PacketRead::Packet { track_id: 4 }), PacketStep::Skip));
    assert!(matches!(s.on_read(PacketRead::EndOfStream), PacketStep::Finish));
    match s.on_read(PacketRead::Failed("bad".to_string())) {
        PacketStep::Fail(m) => assert_eq!(m, "bad"),
        _ => panic!("read error"),
    }
    assert!(s.on_decoded(PacketDecode::Samples(vec![0.5, -0.5])).is_ok());
    assert!(s.on_decoded(PacketDecode::Damaged).is_ok());
    assert!(s.on_decoded(PacketDecode::Samples(vec![0.25])).is_ok());
    assert_eq!(s.on_decoded(PacketDecode::Failed("codec".to_string())), Err("codec".to_string()));
    let a = s.finish(1, 8000, Some(16)).ok().unwrap();
    assert_eq!(a.samples, vec![0.5, -0.5, 0.25]);
    assert_eq!((a.channels, a.sample_rate, a.bits_per_sample), (1, 8000, Some(16)));
}

#[test]
fn a_track_without_samples_is_an_error() {
    let s: DecodeSession<f32> = DecodeSession::new(0);
    match s.finish(2, 44100, None) {
        Err(m) => assert_eq!(m, "Could not parse any valid audio samples from the file."),
        Ok(_) => panic!("empty track accepted"),
    }
}

#[test]
fn one_channel_of_interleaved_samples() {
    let v = vec![1, 2, 3, 4, 5, 6, 7];
    assert_eq!(extract_channel(&v, 2, 0), vec![1, 3, 5]);
    assert_eq!(extract_channel(&v, 2, 1), vec![2, 4, 6]);
    assert_eq!(extract_channel(&v, 3, 2), vec![3, 6]);
    assert_eq!(extract_channel(&vec![1, 2], 3, 5), Vec::<i32>::new());
}

#[test]
fn view_windows_are_kept_inside_and_at_least_one_window_wide() {
    assert_eq!(view_window(10_000, 100, 5_000, 2048), (100, 5_000));
    assert_eq!(view_window(10_000, 100, 20_000, 2048), (100, 10_000));
    // too narrow, ending inside: widened towards the end
    assert_eq!(view_window(10_000, 100, 600, 2048), (100, 2148));
    // too narrow, ending at the last sample: widened towards the start
    assert_eq!(view_window(10_000, 9_500, 12_000, 2048), (7952, 10_000));
    // the channel is shorter than a window: left as it is
    assert_eq!(view_window(1_000, 100, 600, 2048), (100, 600));
}

#[test]
fn current_samples_follow_channel_and_zoom() {
    let audio = DecodedAudio {
        samples: (0..20).map(|i| i as f32).collect(),
        channels: 2,
        sample_rate: 10,
        bits_per_sample: None,
    };
    assert_eq!(
        get_current_samples(&audio, 1, None, 4),
        vec![1.0, 3.0, 5.0, 7.0, 9.0, 11.0, 13.0, 15.0, 17.0, 19.0]
    );
    assert_eq!(get_current_samples(&audio, 0, Some((2, 8)), 4), vec![4.0, 6.0, 8.0, 10.0, 12.0, 14.0]);
    assert_eq!(get_current_samples(&audio, 0, Some((2, 3)), 4), vec![4.0, 6.0, 8.0, 10.0]);
    assert_eq!(get_current_samples(&audio, 0, Some((9, 30)), 4), vec![12.0, 14.0, 16.0, 18.0]);
}
