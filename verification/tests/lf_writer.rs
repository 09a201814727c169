use eolify::io::NormalizingWriter;
use eolify::mem::VecSink;
use eolify::{IoExt, WriteExt, LF};

fn writer(buf_size: usize) -> NormalizingWriter<VecSink, LF> {
    LF::wrap_writer_with_buffer_size(VecSink::new(), buf_size)
}

#[test]
fn lf_writer_crlf_split_across_chunks() {
    let mut w = writer(4);
    w.write(b"foo\r").unwrap();
    w.write(b"\nbar").unwrap();
    let out = w.finish().unwrap().into_inner();
    assert_eq!(out, b"foo\nbar".to_vec());
}

#[test]
fn lf_writer_crlf_split_across_three_chunks() {
    let mut w = writer(4);
    w.write(b"foo\r").unwrap();
    w.flush().unwrap();
    w.write(b"\nbar").unwrap();
    let out = w.finish().unwrap().into_inner();
    assert_eq!(out, b"foo\nbar".to_vec());
}

#[test]
fn lone_lf_in_first_chunk_kept_as_lf() {
    let mut w = writer(5);
    w.write(b"line1\n").unwrap();
    w.write(b"line2").unwrap();
    let out = w.finish().unwrap().into_inner();
    assert_eq!(out, b"line1\nline2".to_vec());
}

#[test]
fn lf_writer_multiple_crs_and_crlf_mixed_across_boundaries() {
    let mut w = writer(1);
    w.write(b"\r").unwrap();
    w.write(b"\r\n").unwrap();
    let out = w.finish().unwrap().into_inner();
    assert_eq!(out, b"\n\n".to_vec());
}

#[test]
fn lf_writer_trailing_cr_at_eof_emits_lf() {
    let mut w = writer(16);
    w.write(b"foo\r").unwrap();
    let out = w.finish().unwrap().into_inner();
    assert_eq!(out, b"foo\n".to_vec());
}

#[test]
fn lf_writer_extension_trait() {
    let mut w = VecSink::new().normalize_newlines(LF);
    w.write(b"\r").unwrap();
    w.write(b"\r\n").unwrap();
    let out = w.finish().unwrap().into_inner();
    assert_eq!(out, b"\n\n".to_vec());
}
