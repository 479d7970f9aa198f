use gridpulse::cursor::ByteCursor;
use gridpulse::GridError;

#[test]
fn reads_little_endian_integers() {
    let data = [0x01, 0x34, 0x12, 0x78, 0x56, 0x34, 0x12, 1, 2, 3, 4, 5, 6, 7, 8];
    let mut c = ByteCursor::new(&data);
    assert_eq!(c.read_u8().unwrap(), 0x01);
    assert_eq!(c.read_u16_le().unwrap(), 0x1234);
    assert_eq!(c.read_u32_le().unwrap(), 0x1234_5678);
    assert_eq!(c.read_u64_le().unwrap(), 0x0807_0605_0403_0201);
    assert!(c.is_empty());
    assert_eq!(c.position(), 15);
    assert_eq!(c.len(), 15);
}

#[test]
fn reads_signed_integers() {
    let data = [0xff, 0xfe, 0xff, 0xfd, 0xff, 0xff, 0xff];
    let mut c = ByteCursor::new(&data);
    assert_eq!(c.read_i8().unwrap(), -1);
    assert_eq!(c.read_i16_le().unwrap(), -2);
    assert_eq!(c.read_i32_le().unwrap(), -3);
}

#[test]
fn truncated_reads_report_what_was_missing() {
    let data = [0x01];
    let mut c = ByteCursor::new(&data);
    assert_eq!(
        c.read_u16_le(),
        Err(GridError::Truncated { needed: 2, remaining: 1, context: "cursor take" })
    );
    assert_eq!(c.position(), 0);
    assert_eq!(c.read_u8().unwrap(), 1);
    assert_eq!(
        c.peek_u8(),
        Err(GridError::Truncated { needed: 1, remaining: 0, context: "peek_u8" })
    );
}

#[test]
fn varint_and_zigzag() {
    let data = [0xac, 0x02, 0x03, 0x04];
    let mut c = ByteCursor::new(&data);
    assert_eq!(c.read_var_u32().unwrap(), 300);
    assert_eq!(c.read_svar_i32().unwrap(), -2);
    assert_eq!(c.read_svar_i32().unwrap(), 2);
}

#[test]
fn varint_of_more_than_five_bytes_is_refused() {
    let data = [0x80, 0x80, 0x80, 0x80, 0x80, 0x01, 0x02];
    let mut c = ByteCursor::new(&data);
    assert_eq!(
        c.read_var_u32(),
        Err(GridError::InvalidLength { declared: 5, available: 2, context: "var_u32" })
    );
    assert_eq!(c.position(), 5);
}

#[test]
fn varint_high_bits_are_dropped() {
    let data = [0xff, 0xff, 0xff, 0xff, 0x7f];
    let mut c = ByteCursor::new(&data);
    assert_eq!(c.read_var_u32().unwrap(), u32::MAX);
}

#[test]
fn take_until_finds_marker_within_limit() {
    let data = [1, 2, 0, 3, 0];
    let mut c = ByteCursor::new(&data);
    assert_eq!(c.take_until(0, 10).unwrap(), &[1, 2]);
    assert_eq!(c.position(), 3);
    assert_eq!(
        c.take_until(9, 10),
        Err(GridError::InvalidLength { declared: 10, available: 2, context: "cursor take_until" })
    );
    assert_eq!(
        c.take_until(0, 1),
        Err(GridError::InvalidLength { declared: 1, available: 2, context: "cursor take_until" })
    );
    assert_eq!(c.take_until(0, 2).unwrap(), &[3]);
    assert_eq!(c.remaining(), 0);
}

#[test]
fn seek_and_take() {
    let data = [1, 2, 3, 4];
    let mut c = ByteCursor::new(&data);
    assert_eq!(
        c.seek(5),
        Err(GridError::InvalidLength { declared: 5, available: 4, context: "cursor seek" })
    );
    c.seek(2).unwrap();
    assert_eq!(c.remaining(), 2);
    assert_eq!(c.take(2).unwrap(), &[3, 4]);
    assert_eq!(
        c.take(1),
        Err(GridError::Truncated { needed: 1, remaining: 0, context: "cursor take" })
    );
}

fn leb128(mut z: u32) -> Vec<u8> {
    let mut out = Vec::new();
    loop {
        if z < 128 {
            out.push(z as u8);
            return out;
        }
        out.push((z % 128 + 128) as u8);
        z /= 128;
    }
}

#[test]
fn signed_varints_read_back() {
    for n in [0i32, 1, -1, -2, 63, -64, 1000, -1_000_000, i32::MAX, i32::MIN] {
        let z = ((n << 1) ^ (n >> 31)) as u32;
        let bytes = leb128(z);
        let mut c = ByteCursor::new(&bytes);
        assert_eq!(c.read_svar_i32().unwrap(), n);
        assert_eq!(c.position(), bytes.len());
    }
    assert_eq!(ByteCursor::new(&[0x03]).read_svar_i32().unwrap(), -2);
    assert_eq!(ByteCursor::new(&[0x02]).read_svar_i32().unwrap(), 1);
}
