use pm64::bgm::midi::is_midi;
use pm64::rw::{IoError, Reader};

#[test]
fn midi_header_is_recognised() {
    let data = [0x4D, 0x54, 0x68, 0x64, 0, 0, 0, 6, 0, 1];
    let mut r = Reader::new(&data);
    r.seek(7);
    assert_eq!(is_midi(&mut r), Ok(true));
    assert_eq!(r.position(), 7);
}

#[test]
fn song_file_is_not_midi() {
    let data = *b"BGM \0\0\0\x24";
    let mut r = Reader::new(&data);
    assert_eq!(is_midi(&mut r), Ok(false));
    assert_eq!(r.position(), 0);
    // A shorter text, or one cut by a NUL, is not the signature either.
    let short = *b"MTh";
    assert_eq!(is_midi(&mut Reader::new(&short)), Ok(false));
    let cut = *b"MT\0d";
    assert_eq!(is_midi(&mut Reader::new(&cut)), Ok(false));
}

#[test]
fn text_that_is_not_utf8_is_an_error() {
    let data = [0xFF, 0x54, 0x68, 0x64];
    assert_eq!(is_midi(&mut Reader::new(&data)), Err(IoError::InvalidData));
}
