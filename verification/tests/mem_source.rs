use eolify::compat::{ReadCompat, WriteCompat};
use eolify::mem::{VecSink, VecSource};

#[test]
fn vec_source_delivers_segments_in_order() {
    let mut src = VecSource::new(vec![b"ab".to_vec(), Vec::new(), b"cde".to_vec()]);
    let mut out = Vec::new();
    loop {
        let mut buf = vec![0u8; 2];
        match src.read(&mut buf) {
            Ok(0) => break,
            Ok(n) => out.extend_from_slice(&buf[..n]),
            Err(_) => panic!("in-memory source cannot fail"),
        }
    }
    assert_eq!(out, b"abcde".to_vec());
    assert!(src.is_done());
}

#[test]
fn vec_source_read_stops_at_segment_boundary() {
    let mut src = VecSource::new(vec![b"ab".to_vec(), b"cd".to_vec()]);
    let mut buf = vec![0u8; 4];
    let n = src.read(&mut buf).unwrap();
    assert_eq!(n, 2);
    assert_eq!(&buf[..n], b"ab");
}

#[test]
fn vec_sink_collects_everything() {
    let mut sink = VecSink::new();
    sink.write_all(b"ab").unwrap();
    sink.write_all(b"cd").unwrap();
    sink.flush().unwrap();
    assert_eq!(sink.len(), 4);
    assert_eq!(sink.into_inner(), b"abcd".to_vec());
}
