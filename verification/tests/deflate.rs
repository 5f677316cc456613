use luna_nspire::deflate::{deflate_progress, deflate_room, Progress};

#[test]
fn room_for_compressed_problems() {
    assert_eq!(deflate_room(0), 64);
    assert_eq!(deflate_room(999), 1063);
    assert_eq!(deflate_room(1000), 1065);
    assert_eq!(deflate_room(123456), 123456 + 123 + 64);
}

#[test]
fn answers_of_the_compressor() {
    assert_eq!(deflate_progress(1), Progress::Finished);
    assert_eq!(deflate_progress(0), Progress::More);
    assert_eq!(deflate_progress(2), Progress::Failed);
    assert_eq!(deflate_progress(-5), Progress::Failed);
}
