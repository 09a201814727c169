use eolify::{Error, Normalize, CRLF, LF};

#[test]
fn crlf_capacity_is_exact() {
    // An all-LF input needs every byte doubled; the formula gives exactly
    // enough, and one byte less fails reporting exactly the same value.
    let input = b"\n\n\n";
    let required = CRLF::required_capacity(input.len(), false);
    assert_eq!(required, 6);
    let mut exact = vec![0u8; required];
    let st = CRLF::normalize_chunk(input, &mut exact, false, false).unwrap();
    assert_eq!(st.output_len(), 6);
    let mut small = vec![0u8; required - 1];
    let err = CRLF::normalize_chunk(input, &mut small, false, false).unwrap_err();
    assert_eq!(err, Error::OutputBufferTooSmall { required });
    assert_eq!(err.required_size(), required);
}

#[test]
fn crlf_capacity_last_chunk_has_one_extra() {
    let input = b"\r\r";
    let required = CRLF::required_capacity(input.len(), true);
    assert_eq!(required, 5);
    let mut small = vec![0u8; required - 1];
    let err = CRLF::normalize_chunk(input, &mut small, true, true).unwrap_err();
    assert_eq!(err.required_size(), required);
    let mut exact = vec![0u8; required];
    let st = CRLF::normalize_chunk(input, &mut exact, true, true).unwrap();
    // carried CR closed, two CRs doubled: "\n\r\n\r\n"
    assert_eq!(&exact[..st.output_len()], b"\n\r\n\r\n");
}

#[test]
fn lf_capacity_is_exact() {
    let input = b"abc\r\n";
    let required = LF::required_capacity(input.len(), true);
    assert_eq!(required, 5);
    let mut small = vec![0u8; required - 1];
    let err = LF::normalize_chunk(input, &mut small, false, true).unwrap_err();
    assert_eq!(err, Error::OutputBufferTooSmall { required });
    let mut exact = vec![0u8; required];
    let st = LF::normalize_chunk(input, &mut exact, false, true).unwrap();
    assert_eq!(&exact[..st.output_len()], b"abc\n");
}

#[test]
fn output_size_for_matches_formula() {
    assert_eq!(CRLF::output_size_for(b"abcd"), 9);
    assert_eq!(LF::output_size_for(b"abcd"), 4);
    assert_eq!(CRLF::output_size_for(b""), 1);
    assert_eq!(LF::output_size_for(b""), 0);
}

#[test]
fn empty_chunk_carries_state_through() {
    let mut out = vec![0u8; 1];
    let st = CRLF::normalize_chunk(b"", &mut out, true, false).unwrap();
    assert_eq!(st.output_len(), 0);
    assert_eq!(st.ended_with_cr(), true);
    let st2 = LF::normalize_chunk(b"", &mut out, true, false).unwrap();
    assert_eq!(st2.output_len(), 0);
    assert_eq!(st2.ended_with_cr(), true);
}
