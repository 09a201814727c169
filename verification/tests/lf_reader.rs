use eolify::io::NormalizingReader;
use eolify::mem::VecSource;
use eolify::{IoExt, ReadExt, LF};

fn read_all(mut r: NormalizingReader<VecSource, LF>) -> Vec<u8> {
    let mut out = Vec::new();
    loop {
        let mut buf = vec![0u8; 8];
        match r.read(&mut buf) {
            Ok(0) => break,
            Ok(n) => out.extend_from_slice(&buf[..n]),
            Err(_) => panic!("in-memory source cannot fail"),
        }
    }
    out
}

fn source(segments: Vec<&[u8]>) -> VecSource {
    let owned: Vec<Vec<u8>> = segments.into_iter().map(|s| s.to_vec()).collect();
    VecSource::new(owned)
}

#[test]
fn lf_reader_crlf_split_across_readers() {
    let nr = LF::wrap_reader_with_buffer_size(source(vec![b"foo\r", b"\nbar"]), 3);
    let out = read_all(nr);
    assert_eq!(out, b"foo\nbar".to_vec());
}

#[test]
fn lf_reader_crlf_split_across_three_readers() {
    let nr = LF::wrap_reader_with_buffer_size(source(vec![b"\r", b"", b"\n"]), 3);
    let out = read_all(nr);
    assert_eq!(out, b"\n".to_vec());
}

#[test]
fn lone_lf_in_first_reader_kept_as_lf() {
    let nr = LF::wrap_reader_with_buffer_size(source(vec![b"line1\n", b"line2"]), 4);
    let out = read_all(nr);
    assert_eq!(out, b"line1\nline2".to_vec());
}

#[test]
fn lf_reader_multiple_crs_and_crlf_mixed_across_boundaries() {
    let nr = LF::wrap_reader_with_buffer_size(source(vec![b"\r", b"\r\n"]), 2);
    let out = read_all(nr);
    assert_eq!(out, b"\n\n".to_vec());
}

#[test]
fn lf_reader_trailing_cr_at_eof_emits_lf() {
    let nr = LF::wrap_reader_with_buffer_size(source(vec![b"foo\r"]), 4);
    let out = read_all(nr);
    assert_eq!(out, b"foo\n".to_vec());
}

#[test]
fn lf_reader_chunk_holding_only_the_pair_completing_lf() {
    // The middle segment is just the LF that completes a split CR LF pair;
    // its transduction emits nothing, and the reader must go on to the next
    // segment rather than report the end of the stream.
    let nr = LF::wrap_reader_with_buffer_size(source(vec![b"x\r", b"\n", b"y"]), 4);
    let out = read_all(nr);
    assert_eq!(out, b"x\ny".to_vec());
}

#[test]
fn lf_reader_extension_trait() {
    let nr = source(vec![b"\r", b"\r\n"]).normalize_newlines(LF);
    let out = read_all(nr);
    assert_eq!(out, b"\n\n".to_vec());
}
