use rtorch::wire::{cap_for, put_bytes, put_u16, put_u32, put_u64, rd_bytes, rd_u16, rd_u32, rd_u64, Field, RtwError};

#[test]
fn put_then_read_back() {
    let mut w = Vec::new();
    put_u16(&mut w, 0xbeef);
    put_u32(&mut w, 0x0102_0304);
    put_u64(&mut w, u64::MAX - 1);
    put_bytes(&mut w, b"xyz");
    assert_eq!(w.len(), 2 + 4 + 8 + 4 + 3);
    assert_eq!(&w[0..2], &[0xef, 0xbe]);
    assert_eq!(&w[2..6], &[4, 3, 2, 1]);
    let mut pos = 0usize;
    assert_eq!(rd_u16(&w, &mut pos), Ok(0xbeef));
    assert_eq!(rd_u32(&w, &mut pos), Ok(0x0102_0304));
    assert_eq!(rd_u64(&w, &mut pos), Ok(u64::MAX - 1));
    assert_eq!(rd_bytes(&w, &mut pos), Ok(b"xyz".to_vec()));
    assert_eq!(pos, w.len());
    assert_eq!(rd_u16(&w, &mut pos), Err(RtwError::Short(Field::U16)));
    assert_eq!(pos, w.len());
}

#[test]
fn short_reads_leave_cursor() {
    let b = [1u8, 2, 3];
    let mut pos = 0usize;
    assert_eq!(rd_u32(&b, &mut pos), Err(RtwError::Short(Field::U32)));
    assert_eq!(rd_u64(&b, &mut pos), Err(RtwError::Short(Field::U64)));
    assert_eq!(pos, 0);
    // A block that claims more bytes than remain.
    let b = [5u8, 0, 0, 0, 1, 2];
    let mut pos = 0usize;
    assert_eq!(rd_bytes(&b, &mut pos), Err(RtwError::Short(Field::Bytes)));
}

#[test]
fn hostile_counts_are_clamped() {
    assert_eq!(cap_for(10, 4, 100), 10);
    assert_eq!(cap_for(usize::MAX, 4, 100), 25);
    assert_eq!(cap_for(1000, 8, 100), 12);
    assert_eq!(cap_for(7, 0, 0), 7);
}

#[test]
fn error_messages() {
    assert_eq!(RtwError::BadMagic.message(), "rtw: bad or missing magic");
    assert_eq!(RtwError::UnsupportedVersion(7).message(), "rtw: unsupported version 7");
    assert_eq!(RtwError::UnsupportedVersion(65535).message(), "rtw: unsupported version 65535");
    assert_eq!(RtwError::Short(Field::KindDtype).message(), "rtw: missing kind/dtype");
    assert_eq!(RtwError::Short(Field::Flags).message(), "rtw: missing flags");
    assert_eq!(RtwError::Short(Field::OptFlag).message(), "rtw: short opt flag");
    assert_eq!(RtwError::BadUtf8.message(), "rtw: bad utf8");
    assert_eq!(RtwError::BadF32Block.message(), "rtw: bad f32 block");
    assert!(RtwError::Short(Field::Data).is_unexpected_eof());
    assert!(!RtwError::BadMagic.is_unexpected_eof());
    assert!(!RtwError::UnsupportedVersion(2).is_unexpected_eof());
}
