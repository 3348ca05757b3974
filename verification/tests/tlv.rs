use sarena::tlv::{ParseError, Tag, TestStatus, next_tlv, parse_test};

#[test]
fn a_full_result_parses() {
    let data = [
        0u8, 1, 1, // version 1
        1, 2, b'o', b'k', // name
        2, 1, b'f', // file
        3, 1, 0, // status pass
        4, 3, b'x', b'%', b'd', // log format
        5, 4, 7, 0, 0, 0, // line 7
        6, 8, 5, 0, 0, 0, 0, 0, 0, 0, // argument 5
    ];
    let r = parse_test(&data).unwrap();
    assert_eq!(r.name, "ok");
    assert_eq!(r.file, "f");
    assert_eq!(r.status, TestStatus::Pass);
    assert_eq!(r.logs.len(), 1);
    assert_eq!(r.logs[0].fmt, "x%d");
    assert_eq!(r.logs[0].line, 7);
    assert_eq!(r.logs[0].args, vec![5]);
}

#[test]
fn malformed_results_are_reported() {
    assert_eq!(parse_test(&[1, 0]).unwrap_err(), ParseError::MissingVersionTag);
    assert_eq!(parse_test(&[0, 1, 9]).unwrap_err(), ParseError::IncompatibleVersion { found: 9 });
    assert_eq!(parse_test(&[0]).unwrap_err(), ParseError::TruncatedHeader { offset: 0 });
    assert_eq!(
        parse_test(&[0, 1, 1, 5, 4, 1, 0, 0, 0]).unwrap_err(),
        ParseError::OrphanLogField { offset: 3 }
    );
    assert_eq!(
        ParseError::BadTagLength { tag: 3, expected: 1, found: 2 }.message(),
        "tag 0x03 expects 1 bytes, found 2"
    );
    assert_eq!(
        ParseError::TruncatedValue { offset: 2, expected: 4 }.message(),
        "truncated TLV value at offset 2: need 4 bytes"
    );
}

#[test]
fn next_tlv_steps_over_records() {
    let data = [7u8, 2, 1, 2, 8, 0];
    let mut cur = 0usize;
    let (t, v) = next_tlv(&data, &mut cur).unwrap();
    assert_eq!((t, v), (7, &[1u8, 2][..]));
    assert_eq!(cur, 4);
    let (t, v) = next_tlv(&data, &mut cur).unwrap();
    assert_eq!((t, v.len()), (8, 0));
    assert_eq!(cur, 6);
    assert_eq!(
        next_tlv(&data, &mut cur).unwrap_err(),
        ParseError::TruncatedHeader { offset: 6 }
    );
}

#[test]
fn bad_lengths_and_truncated_values_are_reported() {
    assert_eq!(
        parse_test(&[0, 1, 1, 1, 5, b'a']).unwrap_err(),
        ParseError::TruncatedValue { offset: 5, expected: 5 }
    );
    assert_eq!(
        parse_test(&[0, 1, 1, 3, 2, 0, 0]).unwrap_err(),
        ParseError::BadTagLength { tag: 3, expected: 1, found: 2 }
    );
    assert_eq!(ParseError::MissingVersionTag.message(), "first record is not a Version tag");
    assert_eq!(
        ParseError::IncompatibleVersion { found: 2 }.message(),
        "incompatible wire version: found 2, expected 1"
    );
    assert_eq!(
        ParseError::OrphanLogField { offset: 9 }.message(),
        "LogLine/LogArg at offset 9 with no preceding LogFmt"
    );
    assert_eq!(ParseError::TruncatedHeader { offset: 4 }.message(), "truncated TLV header at offset 4");
}

#[test]
fn tag_codes_read_back_as_their_tags() {
    let tags = [
        Tag::Version,
        Tag::TestName,
        Tag::TestFile,
        Tag::TestStatus,
        Tag::LogFmt,
        Tag::LogLine,
        Tag::LogArg,
    ];
    for t in tags {
        assert_eq!(Tag::from_u8(t.code()), Some(t));
    }
    assert_eq!(Tag::from_u8(7), None);
    assert_eq!(Tag::from_u8(255), None);
}

#[test]
fn next_tlv_position_after_truncated_records() {
    let data = [7u8, 5, 1];
    let mut cur = 2usize;
    assert_eq!(
        next_tlv(&data, &mut cur).unwrap_err(),
        ParseError::TruncatedHeader { offset: 2 }
    );
    assert_eq!(cur, 2);
    let mut cur = 0usize;
    assert_eq!(
        next_tlv(&data, &mut cur).unwrap_err(),
        ParseError::TruncatedValue { offset: 2, expected: 5 }
    );
    assert_eq!(cur, 2);
}

#[test]
fn unknown_and_repeated_version_records_are_skipped() {
    let d0: Vec<u8> = vec![0, 1, 1, 1, 2, b'o', b'k', 3, 1, 1, 4, 1, b'x'];
    let mut d1 = d0.clone();
    // an unknown record between the name and the status
    d1.splice(7..7, [9u8, 2, 0xaa, 0xbb]);
    let mut d2 = d0.clone();
    // a second version record at the end
    d2.extend_from_slice(&[0u8, 1, 7]);
    let r0 = parse_test(&d0).unwrap();
    for d in [d1, d2] {
        let r = parse_test(&d).unwrap();
        assert_eq!(r.name, r0.name);
        assert_eq!(r.file, r0.file);
        assert_eq!(r.status, r0.status);
        assert_eq!(r.logs.len(), r0.logs.len());
        assert_eq!(r.logs[0].fmt, r0.logs[0].fmt);
        assert_eq!(r.logs[0].line, r0.logs[0].line);
        assert_eq!(r.logs[0].args, r0.logs[0].args);
    }
}

#[test]
fn next_tlv_past_the_end_is_a_truncated_header() {
    let data = [7u8, 0];
    let mut cur = 5usize;
    assert_eq!(
        next_tlv(&data, &mut cur).unwrap_err(),
        ParseError::TruncatedHeader { offset: 5 }
    );
    assert_eq!(cur, 5);
}
