use eolify::io::NormalizingWriter;
use eolify::mem::VecSink;
use eolify::{IoExt, WriteExt, CRLF};

fn writer(buf_size: usize) -> NormalizingWriter<VecSink, CRLF> {
    CRLF::wrap_writer_with_buffer_size(VecSink::new(), buf_size)
}

#[test]
fn crlf_writer_crlf_split_across_chunks() {
    let mut w = writer(4);
    w.write(b"foo\r").unwrap();
    w.write(b"\nbar").unwrap();
    let out = w.finish().unwrap().into_inner();
    assert_eq!(out, b"foo\r\nbar".to_vec());
}

#[test]
fn crlf_writer_crlf_split_across_three_chunks() {
    let mut w = writer(4);
    w.write(b"foo\r").unwrap();
    w.flush().unwrap();
    w.write(b"\nbar").unwrap();
    let out = w.finish().unwrap().into_inner();
    assert_eq!(out, b"foo\r\nbar".to_vec());
}

#[test]
fn lone_lf_in_first_chunk_converted_to_crlf() {
    let mut w = writer(5);
    w.write(b"line1\n").unwrap();
    w.write(b"line2").unwrap();
    let out = w.finish().unwrap().into_inner();
    assert_eq!(out, b"line1\r\nline2".to_vec());
}

#[test]
fn crlf_writer_multiple_crs_and_crlf_mixed_across_boundaries() {
    let mut w = writer(1);
    w.write(b"\r").unwrap();
    w.write(b"\r\n").unwrap();
    let out = w.finish().unwrap().into_inner();
    assert_eq!(out, b"\r\n\r\n".to_vec());
}

#[test]
fn crlf_writer_trailing_cr_at_eof_emits_crlf() {
    let mut w = writer(16);
    w.write(b"foo\r").unwrap();
    let out = w.finish().unwrap().into_inner();
    assert_eq!(out, b"foo\r\n".to_vec());
}

#[test]
fn crlf_writer_extension_trait() {
    let mut w = VecSink::new().normalize_newlines(CRLF);
    w.write(b"\r").unwrap();
    w.write(b"\r\n").unwrap();
    let out = w.finish().unwrap().into_inner();
    assert_eq!(out, b"\r\n\r\n".to_vec());
}
