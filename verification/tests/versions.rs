use mvsqlite::version::{
    decide_idempotency_check, decode_version, encode_version, mv_decide_idempotency_check,
    mv_version_conflicts, read_version_of, version_conflicts, version_from_parts, IdempotencyDecision, InvalidVersion,
    Version,
};
use mvsqlite::text::append_padded_decimal;
use mvsqlite::order::{be_u64, bytes_eq, bytes_lt, str_eq, str_lt};

#[test]
fn numbers_are_written_in_decimal() {
    let mut text = "n".to_string();
    append_padded_decimal(&mut text, 42, 4);
    assert_eq!(text, "n0042");
    append_padded_decimal(&mut text, u64::MAX, 1);
    assert_eq!(text, "n004218446744073709551615");
}

#[test]
fn bytes_are_ordered_lexicographically() {
    assert!(bytes_lt(b"", b"a"));
    assert!(bytes_lt(b"a", b"ab"));
    assert!(bytes_lt(b"ab", b"b"));
    assert!(!bytes_lt(b"b", b"ab"));
    assert!(!bytes_lt(b"same", b"same"));
    assert!(bytes_lt(&[0x7f], &[0x80]));
    assert!(bytes_eq(b"same", b"same"));
    assert!(!bytes_eq(b"same", b"some"));
    assert!(!bytes_eq(b"same", b"sam"));
    assert_eq!(be_u64(&[1, 2, 3, 4, 5, 6, 7, 8, 9]), 0x0102_0304_0506_0708);
}

#[test]
fn strings_are_ordered_by_their_bytes() {
    for (a, b) in [("", "a"), ("a", "b"), ("z", "\u{e9}"), ("\u{e9}", "\u{4e00}")] {
        assert!(str_lt(a, b));
        assert_eq!(str_lt(a, b), a < b);
        assert!(!str_lt(b, a));
        assert!(!str_eq(a, b));
        assert!(str_eq(a, a));
    }
}

#[test]
fn version_parts_are_big_endian() {
    assert_eq!(
        version_from_parts(0x0102_0304_0506_0708, 0x090a),
        [1, 2, 3, 4, 5, 6, 7, 8, 9, 10]
    );
    assert_eq!(version_from_parts(u64::MAX, u16::MAX), [0xff; 10]);
    assert_eq!(version_from_parts(0, 0), [0; 10]);
}

#[test]
fn later_version_conflicts() {
    assert!(version_conflicts(version_from_parts(2, 0), version_from_parts(1, 9)));
    assert!(!version_conflicts(version_from_parts(1, 9), version_from_parts(2, 0)));
    assert!(!version_conflicts(version_from_parts(1, 9), version_from_parts(1, 9)));
    assert_eq!(mv_version_conflicts(5, 1, 5, 0), 1);
    assert_eq!(mv_version_conflicts(5, 0, 5, 1), 0);
    assert_eq!(mv_version_conflicts(5, 5, 5, 5), 0);
    assert_eq!(mv_version_conflicts(6, 0, 5, 9), 1);
    assert_eq!(mv_version_conflicts(4, 9, 5, 0), 0);
    assert_eq!(mv_version_conflicts(1 << 63, 0, 1, 0), 1);
}

#[test]
fn version_text_is_twenty_hex_digits() {
    let v: Version = version_from_parts(0x0102_0304_0506_07ff, 0x0a0b);
    let text = encode_version(&v);
    assert_eq!(text, "01020304050607ff0a0b");
    assert_eq!(decode_version(&text), Ok(v));
    assert_eq!(decode_version("01020304050607FF0A0B"), Ok(v));
    assert_eq!(decode_version(""), Err(InvalidVersion));
    assert_eq!(InvalidVersion.message(), "invalid version");
    assert_eq!(decode_version("01020304050607ff0a0"), Err(InvalidVersion));
    assert_eq!(decode_version("01020304050607ff0a0b0c"), Err(InvalidVersion));
    assert_eq!(decode_version("0102030405060zff0a0b"), Err(InvalidVersion));
}

#[test]
fn version_texts_sort_as_versions() {
    let mut versions: Vec<Version> = Vec::new();
    for hi in [0u64, 1, 9, 10, 0xff, 0x100, u64::MAX] {
        for lo in [0u16, 9, 10, 0xffff] {
            versions.push(version_from_parts(hi, lo));
        }
    }
    for a in &versions {
        for b in &versions {
            assert_eq!(str_lt(&encode_version(a), &encode_version(b)), bytes_lt(a, b));
        }
    }
}

#[test]
fn read_version_is_signed() {
    assert_eq!(read_version_of(&version_from_parts(7, 3)), 7);
    assert_eq!(read_version_of(&version_from_parts(u64::MAX, 0)), -1);
    assert_eq!(read_version_of(&version_from_parts(1 << 63, 0)), i64::MIN);
}

#[test]
fn record_means_already_committed() {
    let ask = |_: bool, _: bool, _: Option<Version>, _: Version| -> bool { panic!() };
    assert_eq!(mv_decide_idempotency_check(ask, 1, 0, 1, 7, 0, 1, 9, 0, 3, 0), 2);
    for conflict in [false, true] {
        for flag in [1, 2, 255] {
            let answer = |_: bool, _: bool, _: Option<Version>, _: Version| conflict;
            assert_eq!(mv_decide_idempotency_check(answer, 0, 1, flag, 8, 1, 0, 5, 5, 3, 0), 2);
        }
    }
    match decide_idempotency_check(ask, true, true, Some([7; 10]), Some([9; 10]), [3; 10]) {
        IdempotencyDecision::AlreadyCommitted(v) => assert_eq!(v, [7; 10]),
        _ => panic!(),
    }
}

#[test]
fn conflict_decides_without_a_record() {
    let report = |conflict: bool, maybe: u8, lwv: u64| {
        mv_decide_idempotency_check(|_, _, _, _| conflict, maybe, 1, 0, 1, 1, 0, lwv, 1, 1, 1)
    };
    assert_eq!(report(false, 1, 4), 0);
    assert_eq!(report(true, 1, 4), 1);
    assert_eq!(report(true, 200, 5), 1);
}

#[test]
fn idempotency_check_gets_decoded_arguments() {
    let conflicts = |maybe: bool, plcc: bool, lwv: Option<Version>, assumed: Version| {
        assert!(maybe);
        assert!(!plcc);
        assert_eq!(lwv, Some(version_from_parts(12, 13)));
        assert_eq!(assumed, version_from_parts(20, 21));
        true
    };
    assert_eq!(mv_decide_idempotency_check(conflicts, 2, 0, 0, 10, 11, 255, 12, 13, 20, 21), 1);
    let absent = |_: bool, plcc: bool, lwv: Option<Version>, _: Version| {
        assert!(plcc);
        assert_eq!(lwv, None);
        false
    };
    assert_eq!(mv_decide_idempotency_check(absent, 2, 9, 0, 10, 11, 0, 12, 13, 20, 21), 0);
}
