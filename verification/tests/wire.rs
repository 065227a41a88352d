use mcutils::wire::{put_i32, put_u16, put_u32, read_i32, read_u16, read_u32, try_read_u32, Input};
use mcutils::Error;

#[test]
fn numbers_are_written_low_byte_first() {
    let mut out = Vec::new();
    put_u16(&mut out, 0xa3f9);
    put_u32(&mut out, 0x0102_0304);
    put_i32(&mut out, -2);
    put_i32(&mut out, i32::MIN);
    assert_eq!(
        out,
        vec![0xf9, 0xa3, 0x04, 0x03, 0x02, 0x01, 0xfe, 0xff, 0xff, 0xff, 0x00, 0x00, 0x00, 0x80]
    );
}

#[test]
fn written_numbers_match_the_standard_encoding() {
    for v in [0u32, 1, 255, 256, 65535, 65536, 0x7fff_ffff, 0x8000_0000, u32::MAX] {
        let mut out = Vec::new();
        put_u32(&mut out, v);
        assert_eq!(out, v.to_le_bytes().to_vec());
        assert_eq!(read_u32(&mut Input::new(out)), Ok(v));
    }
    for v in [0i32, 1, -1, 255, -256, i32::MAX, i32::MIN] {
        let mut out = Vec::new();
        put_i32(&mut out, v);
        assert_eq!(out, v.to_le_bytes().to_vec());
        assert_eq!(read_i32(&mut Input::new(out)), Ok(v));
    }
    for v in [0u16, 1, 255, 256, 0x0100, 0xa3f9, u16::MAX] {
        let mut out = Vec::new();
        put_u16(&mut out, v);
        assert_eq!(out, v.to_le_bytes().to_vec());
        assert_eq!(read_u16(&mut Input::new(out)), Ok(v));
    }
}

#[test]
fn reads_take_their_bytes_and_no_more() {
    let mut file = Input::new(vec![0x34, 0x12, 0xff, 0xff, 0xff, 0xff, 0x78, 0x56, 0x34, 0x12, 9]);
    assert_eq!(file.available(), 11);
    assert_eq!(read_u16(&mut file), Ok(0x1234));
    assert_eq!(file.available(), 9);
    assert_eq!(read_i32(&mut file), Ok(-1));
    assert_eq!(file.available(), 5);
    assert_eq!(read_u32(&mut file), Ok(0x1234_5678));
    assert_eq!(file.available(), 1);
}

#[test]
fn short_reads_fail_and_use_the_stream_up() {
    let mut file = Input::new(vec![1]);
    assert_eq!(read_u16(&mut file), Err(Error::Io));
    assert_eq!(file.available(), 0);
    let mut file = Input::new(vec![1, 2, 3]);
    assert_eq!(read_u32(&mut file), Err(Error::Io));
    assert_eq!(file.available(), 0);
    let mut file = Input::new(vec![1, 2, 3]);
    assert_eq!(read_i32(&mut file), Err(Error::Io));
    assert_eq!(file.available(), 0);
    let mut file = Input::new(Vec::new());
    assert_eq!(read_u16(&mut file), Err(Error::Io));
    assert_eq!(read_u32(&mut file), Err(Error::Io));
}

#[test]
fn try_read_u32_tells_the_end_from_a_cut() {
    let mut file = Input::new(Vec::new());
    assert_eq!(try_read_u32(&mut file), Ok(None));
    assert_eq!(try_read_u32(&mut file), Ok(None));
    for n in 1..4usize {
        let mut file = Input::new(vec![7; n]);
        assert_eq!(try_read_u32(&mut file), Err(Error::TruncatedRecord));
        assert_eq!(file.available(), 0);
    }
    let mut file = Input::new(vec![1, 0, 0, 0, 5]);
    assert_eq!(try_read_u32(&mut file), Ok(Some(1)));
    assert_eq!(file.available(), 1);
    assert_eq!(try_read_u32(&mut file), Err(Error::TruncatedRecord));
}

#[test]
fn error_messages() {
    assert_eq!(
        Error::FormatMismatch.message(),
        "Invalid file format (signature does not match)"
    );
    assert_eq!(
        Error::OutdatedFile.message(),
        "Outdated file format (try using an older version of mcutils)"
    );
    assert_eq!(Error::OutdatedProgram.message(), "Outdated program (try updating mcutils)");
    assert_eq!(Error::TruncatedRecord.message(), "Truncated data in file");
    assert_eq!(Error::Io.message(), "Unexpected end of file");
}
