use pyxel_core::music::Music;

#[test]
fn music_starts_without_sequences() {
    assert!(Music::new().seqs.is_empty());
}

#[test]
fn set_fills_missing_channels_with_empty_sequences() {
    let mut music = Music::new();
    music.set(&vec![vec![1, 2], vec![3]], 4);
    assert_eq!(music.seqs, vec![vec![1, 2], vec![3], vec![], vec![]]);
}

#[test]
fn set_drops_sequences_beyond_the_channels() {
    let mut music = Music::new();
    music.set(&vec![vec![1], vec![2], vec![3]], 2);
    assert_eq!(music.seqs, vec![vec![1], vec![2]]);
}
