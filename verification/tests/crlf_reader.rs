use eolify::io::NormalizingReader;
use eolify::mem::VecSource;
use eolify::CRLF;

fn read_all(mut r: NormalizingReader<VecSource, CRLF>) -> Vec<u8> {
    let mut out = Vec::new();
    loop {
        let mut buf = vec![0u8; 8];
        match r.read(&mut buf) {
            Ok(0) => break,
            Ok(n) => out.extend_from_slice(&buf[..n]),
            Err(_) => panic!("in-memory source cannot fail"),
        }
    }
    out
}

fn source(segments: Vec<&[u8]>) -> VecSource {
    let owned: Vec<Vec<u8>> = segments.into_iter().map(|s| s.to_vec()).collect();
    VecSource::new(owned)
}

#[test]
fn crlf_reader_crlf_split_across_readers() {
    let nr = NormalizingReader::with_size(source(vec![b"foo\r", b"\nbar"]), 3);
    let out = read_all(nr);
    assert_eq!(out, b"foo\r\nbar".to_vec());
}

#[test]
fn crlf_reader_crlf_split_across_three_readers() {
    let nr = NormalizingReader::with_size(source(vec![b"\r", b"", b"\n"]), 3);
    let out = read_all(nr);
    assert_eq!(out, b"\r\n".to_vec());
}

#[test]
fn lone_lf_in_first_reader_converted_to_crlf() {
    let nr = NormalizingReader::with_size(source(vec![b"line1\n", b"line2"]), 4);
    let out = read_all(nr);
    assert_eq!(out, b"line1\r\nline2".to_vec());
}

#[test]
fn crlf_reader_multiple_crs_and_crlf_mixed_across_boundaries() {
    let nr = NormalizingReader::with_size(source(vec![b"\r", b"\r\n"]), 2);
    let out = read_all(nr);
    assert_eq!(out, b"\r\n\r\n".to_vec());
}

#[test]
fn crlf_reader_trailing_cr_at_eof_emits_crlf() {
    let nr = NormalizingReader::with_size(source(vec![b"foo\r"]), 4);
    let out = read_all(nr);
    assert_eq!(out, b"foo\r\n".to_vec());
}
