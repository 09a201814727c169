use eolify::async_core::{ReadBuffer, WriteBuffer};
use eolify::compat::Poll;
use eolify::mem::{VecSink, VecSource};
use eolify::{CRLF, LF};

fn poll_read_all<N: eolify::Normalize>(mut src: VecSource, buf_size: usize) -> Vec<u8> {
    let mut rb: ReadBuffer<N> = ReadBuffer::new(buf_size);
    let mut out = Vec::new();
    loop {
        let mut buf = vec![0u8; 8];
        match rb.poll_read(&mut src, &mut buf) {
            Poll::Ready(Ok(0)) => break,
            Poll::Ready(Ok(n)) => out.extend_from_slice(&buf[..n]),
            Poll::Ready(Err(_)) => panic!("in-memory source cannot fail"),
            Poll::Pending => panic!("in-memory source is always ready"),
        }
    }
    out
}

fn segments(parts: Vec<&[u8]>) -> VecSource {
    VecSource::new(parts.into_iter().map(|p| p.to_vec()).collect())
}

#[test]
fn poll_reader_crlf_split_across_chunks() {
    let out = poll_read_all::<CRLF>(segments(vec![b"foo\r", b"\nbar"]), 3);
    assert_eq!(out, b"foo\r\nbar".to_vec());
}

#[test]
fn poll_reader_lf_mixed_chunks() {
    let out = poll_read_all::<LF>(segments(vec![b"\r", b"\r\n"]), 2);
    assert_eq!(out, b"\n\n".to_vec());
}

fn unwrap_write(r: Poll<Result<usize, ()>>) -> usize {
    match r {
        Poll::Ready(Ok(n)) => n,
        _ => panic!("in-memory sink is always ready"),
    }
}

fn write_everything<N: eolify::Normalize>(
    wb: &mut WriteBuffer<N>,
    sink: &mut VecSink,
    mut data: &[u8],
) {
    while !data.is_empty() {
        let n = unwrap_write(wb.poll_write(sink, data));
        assert!(n > 0);
        data = &data[n..];
    }
}

#[test]
fn poll_writer_two_phase_finish() {
    let mut sink = VecSink::new();
    let mut wb: WriteBuffer<CRLF> = WriteBuffer::new(4);
    write_everything(&mut wb, &mut sink, b"foo\r");
    write_everything(&mut wb, &mut sink, b"\nbar\n");
    match wb.poll_finish(&mut sink) {
        Poll::Ready(Ok(())) => {}
        _ => panic!("in-memory sink is always ready"),
    }
    // A second completion poll is idempotent.
    match wb.poll_finish(&mut sink) {
        Poll::Ready(Ok(())) => {}
        _ => panic!("in-memory sink is always ready"),
    }
    assert_eq!(sink.into_inner(), b"foo\r\nbar\r\n".to_vec());
}

#[test]
fn poll_writer_flush_defers_trailing_cr() {
    let mut sink = VecSink::new();
    let mut wb: WriteBuffer<CRLF> = WriteBuffer::new(8);
    write_everything(&mut wb, &mut sink, b"x\r");
    match wb.poll_flush(&mut sink, false) {
        Poll::Ready(Ok(())) => {}
        _ => panic!("in-memory sink is always ready"),
    }
    assert_eq!(sink.len(), 2);
    write_everything(&mut wb, &mut sink, b"\ny");
    match wb.poll_finish(&mut sink) {
        Poll::Ready(Ok(())) => {}
        _ => panic!("in-memory sink is always ready"),
    }
    assert_eq!(sink.into_inner(), b"x\r\ny".to_vec());
}

#[test]
fn poll_writer_lf_session() {
    let mut sink = VecSink::new();
    let mut wb: WriteBuffer<LF> = WriteBuffer::new(1);
    write_everything(&mut wb, &mut sink, b"\r");
    write_everything(&mut wb, &mut sink, b"\r\n");
    match wb.poll_finish(&mut sink) {
        Poll::Ready(Ok(())) => {}
        _ => panic!("in-memory sink is always ready"),
    }
    assert_eq!(sink.into_inner(), b"\n\n".to_vec());
}
