use bytes::Bytes;
use ringest::ctx::IoContext;
use ringest::error::Error;
use ringest::positional::{
    after_read, after_write, MemoryFile, PositionalFile, PositionalIo, RFileExt, ReadStep,
};
use ringest::target::IoTarget;
use std::time::Duration;

struct Broken {
    accept: usize,
}

impl RFileExt for Broken {
    fn read_at_sync(&self, _buf: &mut [u8], _offset: u64) -> Result<usize, std::io::Error> {
        Err(std::io::Error::from(std::io::ErrorKind::PermissionDenied))
    }

    fn write_at_sync(&mut self, buf: &[u8], _offset: u64) -> Result<usize, std::io::Error> {
        let n = self.accept.min(buf.len());
        self.accept -= n;
        Ok(n)
    }
}

#[test]
fn short_reads_are_repeated_until_the_range_is_full() {
    let data: Vec<u8> = (0..100u8).collect();
    let file = PositionalFile::new(MemoryFile::new(data.clone(), 7));
    let got = file.read_at_pos(10, 50).unwrap();
    assert_eq!(got, data[10..60].to_vec());
    let bytes = file.read_at(0, 100).unwrap();
    assert_eq!(bytes.as_ref(), data.as_slice());
}

#[test]
fn reads_past_the_end_are_zero_filled() {
    let file = PositionalFile::new(MemoryFile::new(vec![1, 2, 3], 2));
    assert_eq!(file.read_at_pos(1, 5).unwrap(), vec![2, 3, 0, 0, 0]);
    assert_eq!(file.read_at_pos(10, 2).unwrap(), vec![0, 0]);
    assert_eq!(file.read_at_pos(0, 0).unwrap(), Vec::<u8>::new());
}

#[test]
fn short_writes_are_repeated_until_all_is_stored() {
    let mut file = PositionalFile::new(MemoryFile::new(Vec::new(), 3));
    file.write_at_pos(2, &[9, 8, 7, 6, 5, 4, 3, 2]).unwrap();
    assert_eq!(file.file().contents(), &vec![0, 0, 9, 8, 7, 6, 5, 4, 3, 2]);
    file.write_at(Bytes::from(vec![1u8, 1, 1, 1]), 0).unwrap();
    assert_eq!(file.into_inner().contents(), &vec![1, 1, 1, 1, 7, 6, 5, 4, 3, 2]);
}

#[test]
fn a_write_that_makes_no_progress_fails_with_write_zero() {
    let mut file = PositionalFile::new(Broken { accept: 3 });
    let err = file.write_at_pos(0, &[1, 2, 3, 4, 5]).unwrap_err();
    assert_eq!(err.kind(), std::io::ErrorKind::WriteZero);
    let mut file = PositionalFile::new(Broken { accept: 5 });
    file.write_at_pos(0, &[1, 2, 3, 4, 5]).unwrap();
}

#[test]
fn a_failing_handle_surfaces_as_an_io_error() {
    let file = PositionalFile::new(Broken { accept: 0 });
    match file.read_at(0, 4) {
        Err(Error::Io(e)) => assert_eq!(e.kind(), std::io::ErrorKind::PermissionDenied),
        other => panic!("unexpected result: {:?}", other),
    }
    let mut file = PositionalFile::new(Broken { accept: 0 });
    match file.write_at(Bytes::from(vec![1u8]), 0) {
        Err(Error::Io(e)) => assert_eq!(e.kind(), std::io::ErrorKind::WriteZero),
        other => panic!("unexpected result: {:?}", other),
    }
}

#[test]
fn a_context_over_a_chunked_file_reads_its_writes() {
    let file = PositionalFile::new(MemoryFile::new(vec![0xFF; 64], 5));
    let mut ctx = IoContext::new(file, Duration::from_millis(50), Duration::from_millis(50));
    ctx.write_at(8, Bytes::from(vec![1u8; 8]), 1).unwrap();
    ctx.write_at(16, Bytes::from(vec![2u8; 8]), 2).unwrap();
    let mut expected = vec![0xFFu8; 64];
    expected[8..16].copy_from_slice(&[1; 8]);
    expected[16..24].copy_from_slice(&[2; 8]);
    assert_eq!(ctx.read_at(0, 64).unwrap().as_ref(), expected.as_slice());
    ctx.flush(3).unwrap();
    assert_eq!(ctx.target.file().contents(), &expected);
    assert_eq!(ctx.read_at(0, 64).unwrap().as_ref(), expected.as_slice());
}

#[test]
fn empty_transfers_succeed_without_asking_the_handle() {
    let mut file = PositionalFile::new(Broken { accept: 0 });
    assert!(file.read_at(7, 0).unwrap().is_empty());
    file.write_at(Bytes::new(), 7).unwrap();
    assert!(file.read_at_pos(7, 0).unwrap().is_empty());
    file.write_at_pos(7, &[]).unwrap();
}

#[test]
fn a_read_goes_on_behind_a_short_answer_and_ends_on_an_empty_one() {
    assert!(matches!(after_read(3, 10, Ok(0)), ReadStep::Done));
    assert!(matches!(after_read(0, 10, Ok(0)), ReadStep::Done));
    assert!(matches!(after_read(3, 10, Ok(4)), ReadStep::More(7)));
    assert!(matches!(after_read(3, 10, Ok(7)), ReadStep::More(10)));
    let failed = std::io::Error::from(std::io::ErrorKind::TimedOut);
    match after_read(3, 10, Err(failed)) {
        ReadStep::Fail(e) => assert_eq!(e.kind(), std::io::ErrorKind::TimedOut),
        _ => panic!("expected the failure"),
    }
}

#[test]
fn a_write_goes_on_behind_a_short_answer_and_fails_on_an_empty_one() {
    assert_eq!(after_write(0, Ok(5)).unwrap(), 5);
    assert_eq!(after_write(7, Ok(1)).unwrap(), 8);
    assert_eq!(after_write(7, Ok(0)).unwrap_err().kind(), std::io::ErrorKind::WriteZero);
    let failed = std::io::Error::from(std::io::ErrorKind::BrokenPipe);
    assert_eq!(after_write(7, Err(failed)).unwrap_err().kind(), std::io::ErrorKind::BrokenPipe);
}
