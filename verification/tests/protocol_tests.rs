use syncer::protocol::{
    chunk_request_url, commit_request_url, encode_commit_result, format_decimal, join_chunk_ids,
    list_request_url, parse_commit_result, parse_decimal, split_chunk_ids, CommitResultStatus,
    SyncError,
};

#[test]
fn split_comma_joined_ids() {
    assert_eq!(
        split_chunk_ids("h1,h2"),
        vec!["h1".to_string(), "h2".to_string()]
    );
    assert_eq!(split_chunk_ids("h3"), vec!["h3".to_string()]);
    assert_eq!(split_chunk_ids(""), vec!["".to_string()]);
    assert_eq!(
        split_chunk_ids("a,,b"),
        vec!["a".to_string(), "".to_string(), "b".to_string()]
    );
    assert_eq!(
        split_chunk_ids(",x"),
        vec!["".to_string(), "x".to_string()]
    );
}

#[test]
fn join_ids_with_commas() {
    assert_eq!(
        join_chunk_ids(&vec!["h1".to_string(), "h2".to_string()]),
        "h1,h2"
    );
    assert_eq!(join_chunk_ids(&vec!["h3".to_string()]), "h3");
    assert_eq!(join_chunk_ids(&vec![]), "");
}

#[test]
fn split_join_round_trip() {
    let ids = vec!["c1".to_string(), "c2".to_string(), "c3".to_string()];
    assert_eq!(split_chunk_ids(&join_chunk_ids(&ids)), ids);
    let one = vec!["only".to_string()];
    assert_eq!(split_chunk_ids(&join_chunk_ids(&one)), one);
}

#[test]
fn decimal_formatting() {
    assert_eq!(format_decimal(0), "0");
    assert_eq!(format_decimal(7), "7");
    assert_eq!(format_decimal(12345), "12345");
    assert_eq!(format_decimal(u32::MAX), "4294967295");
}

#[test]
fn decimal_parsing() {
    assert_eq!(parse_decimal("0"), Some(0));
    assert_eq!(parse_decimal("12345"), Some(12345));
    assert_eq!(parse_decimal("007"), Some(7));
    assert_eq!(parse_decimal("4294967295"), Some(u32::MAX));
    assert_eq!(parse_decimal(""), None);
    assert_eq!(parse_decimal("12a"), None);
    assert_eq!(parse_decimal("-3"), None);
    assert_eq!(parse_decimal("4294967296"), None);
}

#[test]
fn decimal_round_trip() {
    for n in [0u32, 1, 9, 10, 99, 4096, u32::MAX] {
        assert_eq!(parse_decimal(&format_decimal(n)), Some(n));
    }
}

#[test]
fn commit_result_parses_success() {
    match parse_commit_result("ok:7") {
        Ok(CommitResultStatus::Success(jid)) => assert_eq!(jid, 7),
        _ => panic!("expected a success answer"),
    }
    match parse_commit_result("ok:2147483647") {
        Ok(CommitResultStatus::Success(jid)) => assert_eq!(jid, i32::MAX),
        _ => panic!("expected a success answer"),
    }
}

#[test]
fn commit_result_parses_need_chunks() {
    match parse_commit_result("need:h1,h2") {
        Ok(CommitResultStatus::NeedChunks(m)) => assert_eq!(m, "h1,h2"),
        _ => panic!("expected a negotiation answer"),
    }
}

#[test]
fn commit_result_rejects_malformed() {
    for bad in ["", "ok:", "ok:abc", "ok:2147483648", "yes:3", "need", "OK:3"] {
        match parse_commit_result(bad) {
            Err(e) => assert_eq!(e, SyncError::MalformedResponse),
            Ok(_) => panic!("payload should have been rejected"),
        }
    }
}

#[test]
fn commit_result_encode_round_trip() {
    let ok = encode_commit_result(&CommitResultStatus::Success(42));
    assert_eq!(ok, "ok:42");
    match parse_commit_result(&ok) {
        Ok(CommitResultStatus::Success(jid)) => assert_eq!(jid, 42),
        _ => panic!("round trip lost the success answer"),
    }
    let need = encode_commit_result(&CommitResultStatus::NeedChunks("c2,c4".to_string()));
    assert_eq!(need, "need:c2,c4");
    match parse_commit_result(&need) {
        Ok(CommitResultStatus::NeedChunks(m)) => assert_eq!(m, "c2,c4"),
        _ => panic!("round trip lost the negotiation answer"),
    }
}

#[test]
fn request_urls() {
    assert_eq!(
        chunk_request_url("http://host", "h1"),
        "http://host/chunks/h1"
    );
    assert_eq!(
        list_request_url("http://host", 5),
        "http://host/metadata/list?jid=5"
    );
    assert_eq!(list_request_url("e", 0), "e/metadata/list?jid=0");
    assert_eq!(commit_request_url("http://host"), "http://host/metadata/commit");
}

#[test]
fn file_record_form_fields() {
    let form = syncer::records::build_file_record("/a.txt", 6, 11, 1700000000);
    assert_eq!(form.jid, Some(6));
    assert_eq!(form.path, "/a.txt");
    assert_eq!(form.size, 11);
    assert_eq!(form.format, "t");
    assert_eq!(form.modified_at, 1700000000);
}
