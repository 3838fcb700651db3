use heatshrink::io::{ReadResult, Readable};

#[test]
fn can_read_all_bytes_slice() {
    let data = [1, 2, 3, 4, 5];
    let mut buf = [0; 5];
    let slice = &data[..];
    let res = slice.read(&mut buf);
    assert_eq!(res, ReadResult::Read(&[1, 2, 3, 4, 5]));
}

fn read_one<'a, 'b>(slice: &'a [u8], buf: &'b mut [u8], assertion: impl Fn(&'b [u8])) -> &'a [u8] {
    let buf = match slice.read(buf) {
        ReadResult::Read(buf) => buf,
        e => panic!("Expected Read, got {:?}", e),
    };
    assertion(buf);
    &slice[buf.len()..]
}

#[test]
fn can_read_one_byte_at_a_time_slice() {
    let data = [1, 2, 3, 4, 5];
    let mut buf = [0; 1];
    let buf = &mut buf;
    let mut slice = &data[..];
    for i in 1..=5 {
        slice = read_one(slice, buf, |buf| assert_eq!(buf, &[i]));
    }
}

#[test]
fn can_read_into_zero_bytes() {
    let data = [1, 2, 3, 4, 5];
    let mut buf = [0; 0];
    let slice = &data[..];
    let res = slice.read(&mut buf);
    assert_eq!(res, ReadResult::Read(&[]));
}

#[test]
fn can_read_from_zero_bytes() {
    let data = [];
    let mut buf = [0; 5];
    let slice = &data[..];
    let res = slice.read(&mut buf);
    assert_eq!(res, ReadResult::Read(&[]));
}

#[test]
fn can_read_from_vec() {
    let data = vec![1u8, 2, 3, 4, 5];
    let mut buf = [0; 5];
    let res = data.as_slice().read(&mut buf);
    assert_eq!(res, ReadResult::Read(&[1, 2, 3, 4, 5]));
}

#[test]
fn read_takes_the_shorter_of_source_and_buffer() {
    let data = [9u8, 8, 7];
    let mut buf = [0u8; 8];
    let slice = &data[..];
    let res = slice.read(&mut buf);
    assert_eq!(res, ReadResult::Read(&[9, 8, 7]));
}
