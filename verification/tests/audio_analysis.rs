use vjnode::audio::{band_for_bin, split_ready_chunks, Band, ANALYZED_BINS, FFT_SIZE};

#[test]
fn chunks_take_full_windows_and_keep_the_rest() {
    let mut buffer: Vec<u32> = (0..2500).collect();
    let chunks = split_ready_chunks(&mut buffer, FFT_SIZE);
    assert_eq!(chunks.len(), 2);
    assert_eq!(chunks[0], (0..1024).collect::<Vec<u32>>());
    assert_eq!(chunks[1], (1024..2048).collect::<Vec<u32>>());
    assert_eq!(buffer, (2048..2500).collect::<Vec<u32>>());
}

#[test]
fn short_buffer_is_left_alone() {
    let mut buffer: Vec<f32> = vec![0.5; 1023];
    let chunks = split_ready_chunks(&mut buffer, FFT_SIZE);
    assert!(chunks.is_empty());
    assert_eq!(buffer.len(), 1023);
}

#[test]
fn exact_window_leaves_empty_buffer() {
    let mut buffer: Vec<f32> = vec![0.25; 2048];
    let chunks = split_ready_chunks(&mut buffer, FFT_SIZE);
    assert_eq!(chunks.len(), 2);
    assert!(buffer.is_empty());
}

#[test]
fn band_edges_at_44100_hz() {
    assert_eq!(band_for_bin(0, 44100), Band::Bass);
    assert_eq!(band_for_bin(5, 44100), Band::Bass);
    assert_eq!(band_for_bin(6, 44100), Band::Mid);
    assert_eq!(band_for_bin(92, 44100), Band::Mid);
    assert_eq!(band_for_bin(93, 44100), Band::Treble);
    assert_eq!(band_for_bin(ANALYZED_BINS - 1, 44100), Band::Treble);
}

#[test]
fn band_edges_exact_at_48000_hz() {
    // bin 16 at 48 kHz is exactly 750 Hz; bin 5 is 234.375 Hz, bin 6 281.25 Hz
    assert_eq!(band_for_bin(5, 48000), Band::Bass);
    assert_eq!(band_for_bin(6, 48000), Band::Mid);
    // 4000 Hz exactly: bin * 48000 == 4096000 has no integer solution; 85 -> 3984.375, 86 -> 4031.25
    assert_eq!(band_for_bin(85, 48000), Band::Mid);
    assert_eq!(band_for_bin(86, 48000), Band::Treble);
    // 256000 / 1000 = 256: at 1000 Hz rate bin 256 is exactly 250 Hz, the first mid bin
    assert_eq!(band_for_bin(255, 1000), Band::Bass);
    assert_eq!(band_for_bin(256, 1000), Band::Mid);
}

#[test]
fn bands_never_go_down_as_bins_go_up() {
    let mut rank = 0;
    for bin in 0..ANALYZED_BINS {
        let r = match band_for_bin(bin, 44100) {
            Band::Bass => 0,
            Band::Mid => 1,
            Band::Treble => 2,
        };
        assert!(r >= rank);
        rank = r;
    }
}
