use pgbtree::{Tid, TidError};

#[test]
fn binary_form_is_big_endian_block_then_offset() {
    let t = Tid { block_number: 0x01020304, offset_number: 0x0506 };
    assert_eq!(t.encode_binary(), vec![1, 2, 3, 4, 5, 6]);
}

#[test]
fn binary_round_trip() {
    for t in [
        Tid { block_number: 0, offset_number: 0 },
        Tid { block_number: 7, offset_number: 3 },
        Tid { block_number: u32::MAX, offset_number: u16::MAX },
        Tid { block_number: 0x80000001, offset_number: 0x8001 },
    ] {
        assert_eq!(Tid::decode_binary(&t.encode_binary()), Ok(t));
    }
}

#[test]
fn binary_decode_ignores_trailing_bytes() {
    let r = Tid::decode_binary(&[0, 0, 1, 0, 0, 9, 42, 42]);
    assert_eq!(r, Ok(Tid { block_number: 256, offset_number: 9 }));
}

#[test]
fn binary_decode_rejects_short_input() {
    assert_eq!(Tid::decode_binary(&[0, 0, 0, 1, 0]), Err(TidError::Malformed));
    assert_eq!(Tid::decode_binary(&[]), Err(TidError::Malformed));
}

#[test]
fn text_form() {
    assert_eq!(Tid { block_number: 12, offset_number: 3 }.encode_text(), "(12,3)");
    assert_eq!(Tid { block_number: 0, offset_number: 0 }.encode_text(), "(0,0)");
    assert_eq!(
        Tid { block_number: u32::MAX, offset_number: u16::MAX }.encode_text(),
        "(4294967295,65535)"
    );
}

#[test]
fn text_round_trip() {
    for t in [
        Tid { block_number: 0, offset_number: 1 },
        Tid { block_number: 10, offset_number: 100 },
        Tid { block_number: u32::MAX, offset_number: u16::MAX },
    ] {
        assert_eq!(Tid::decode_text(&t.encode_text()), Ok(t));
    }
}

#[test]
fn text_decode_rejects_other_shapes() {
    for s in [
        "", "(1,2", "1,2)", "(1;2)", "(,2)", "(1,)", "(01,2)", "(1,02)", "( 1,2)", "(-1,2)",
        "(4294967296,1)", "(1,65536)", "(1,2,3)", "(12345678901,1)",
    ] {
        assert_eq!(Tid::decode_text(s), Err(TidError::Malformed), "{}", s);
    }
}
