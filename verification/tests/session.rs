use eolify::{Normalize, CRLF, LF};

// Run a chunked session: every chunk but the last with is_last_chunk false,
// threading the carried state, and concatenate the outputs.
fn run_session<N: Normalize>(chunks: &[&[u8]]) -> Vec<u8> {
    let mut out = Vec::new();
    let mut carried = false;
    for (i, chunk) in chunks.iter().enumerate() {
        let is_last = i + 1 == chunks.len();
        let mut buf = vec![0u8; chunk.len() * 2 + 1];
        let st = N::normalize_chunk(chunk, &mut buf, carried, is_last).unwrap();
        out.extend_from_slice(&buf[..st.output_len()]);
        carried = st.ended_with_cr();
    }
    out
}

// Every way of splitting the input into two chunks gives the bytes of the
// whole-input call.
fn check_all_splits<N: Normalize>(input: &[u8]) {
    let whole = N::normalize(input);
    for split in 0..=input.len() {
        let (a, b) = input.split_at(split);
        let chunked = run_session::<N>(&[a, b]);
        assert_eq!(chunked, whole, "split at {}", split);
    }
}

#[test]
fn chunking_is_invisible_crlf() {
    check_all_splits::<CRLF>(b"one\rtwo\r\nthree\nfour\r");
    check_all_splits::<CRLF>(b"\r\r\n\n\r");
    check_all_splits::<CRLF>(b"");
}

#[test]
fn chunking_is_invisible_lf() {
    check_all_splits::<LF>(b"one\rtwo\r\nthree\nfour\r");
    check_all_splits::<LF>(b"\r\r\n\n\r");
    check_all_splits::<LF>(b"");
}

#[test]
fn three_chunk_session_matches_whole() {
    let input = b"a\r\nb\rc\nd\r";
    let whole_crlf = CRLF::normalize(input);
    let whole_lf = LF::normalize(input);
    assert_eq!(run_session::<CRLF>(&[b"a\r", b"\nb\rc", b"\nd\r"]), whole_crlf);
    assert_eq!(run_session::<LF>(&[b"a\r", b"\nb\rc", b"\nd\r"]), whole_lf);
}

#[test]
fn crlf_output_has_no_lone_control_byte() {
    let inputs: [&[u8]; 4] = [b"\r\r\n", b"x\ry\nz", b"\n\n\r", b"mixed\r\n\r text\n"];
    for input in inputs.iter() {
        let out = CRLF::normalize(input);
        for i in 0..out.len() {
            if out[i] == b'\n' {
                assert!(i > 0 && out[i - 1] == b'\r', "lone LF at {} in {:?}", i, out);
            }
            if out[i] == b'\r' {
                assert!(i + 1 < out.len() && out[i + 1] == b'\n', "lone CR at {} in {:?}", i, out);
            }
        }
    }
}

#[test]
fn lf_output_has_no_cr_at_all() {
    let inputs: [&[u8]; 4] = [b"\r\r\n", b"x\ry\nz", b"\n\n\r", b"mixed\r\n\r text\n"];
    for input in inputs.iter() {
        let out = LF::normalize(input);
        for i in 0..out.len() {
            assert!(out[i] != b'\r', "CR at {} in {:?}", i, out);
        }
    }
}

#[test]
fn normalize_twice_is_normalize_once() {
    let inputs: [&[u8]; 5] = [b"", b"\r", b"\r\r\n", b"a\rb\nc\r\nd", b"\n\n"];
    for input in inputs.iter() {
        let once_crlf = CRLF::normalize(input);
        assert_eq!(CRLF::normalize(&once_crlf), once_crlf);
        let once_lf = LF::normalize(input);
        assert_eq!(LF::normalize(&once_lf), once_lf);
    }
}

#[test]
fn normalize_str_keeps_multibyte_text() {
    let s = "caf\u{e9}\r\nna\u{ef}ve\rsnowman \u{2603}\n";
    assert_eq!(CRLF::normalize_str(s), "caf\u{e9}\r\nna\u{ef}ve\r\nsnowman \u{2603}\r\n");
    assert_eq!(LF::normalize_str(s), "caf\u{e9}\nna\u{ef}ve\nsnowman \u{2603}\n");
}

#[test]
fn control_byte_search_is_really_used() {
    // If the search reported no hit, the bare LF would pass through
    // unchanged; if it reported the wrong position, neighbours would be
    // rewritten instead.
    let out = CRLF::normalize(b"ab\ncd");
    assert_eq!(out, b"ab\r\ncd".to_vec());
    let out = LF::normalize(b"ab\rcd");
    assert_eq!(out, b"ab\ncd".to_vec());
}
