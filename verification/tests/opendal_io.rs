use std::io::Read;

use rg_opendal::opendal_io::BufReader;
use rg_opendal::run::make_reader;

#[test]
fn reads_all_bytes() {
    let mut r = BufReader::new(b"hello world".to_vec());
    let mut out = Vec::new();
    r.read_to_end(&mut out).unwrap();
    assert_eq!(out, b"hello world");
}

#[test]
fn reads_in_chunks() {
    let mut r = BufReader::new(b"abcdef".to_vec());
    let mut buf = [0u8; 2];
    assert_eq!(r.read(&mut buf).unwrap(), 2);
    assert_eq!(&buf, b"ab");
    assert_eq!(r.read(&mut buf).unwrap(), 2);
    assert_eq!(&buf, b"cd");
    assert_eq!(r.read(&mut buf).unwrap(), 2);
    assert_eq!(&buf, b"ef");
    assert_eq!(r.read(&mut buf).unwrap(), 0);
}

#[test]
fn empty_buffer_returns_zero() {
    let mut r = BufReader::new(Vec::new());
    let mut buf = [0u8; 8];
    assert_eq!(r.read(&mut buf).unwrap(), 0);
}

#[test]
fn bufreader_basic() {
    let mut r = BufReader::new(b"hello world".to_vec());
    let mut out = Vec::new();
    r.read_to_end(&mut out).unwrap();
    assert_eq!(out, b"hello world");
}

#[test]
fn bufreader_chunked() {
    let mut r = BufReader::new(b"abcdef".to_vec());
    let mut buf = [0u8; 2];
    assert_eq!(r.read(&mut buf).unwrap(), 2);
    assert_eq!(&buf, b"ab");
    assert_eq!(r.read(&mut buf).unwrap(), 2);
    assert_eq!(&buf, b"cd");
    assert_eq!(r.read(&mut buf).unwrap(), 2);
    assert_eq!(&buf, b"ef");
    assert_eq!(r.read(&mut buf).unwrap(), 0);
}

#[test]
fn short_last_read_leaves_tail_of_buffer() {
    let mut r = BufReader::new(b"abcde".to_vec());
    let mut buf = [b'x'; 4];
    assert_eq!(r.read_into(&mut buf), 4);
    assert_eq!(&buf, b"abcd");
    assert_eq!(r.read_into(&mut buf), 1);
    assert_eq!(&buf, b"ebcd");
    assert_eq!(r.read_into(&mut buf), 0);
    assert_eq!(r.read_into(&mut buf), 0);
    assert_eq!(&buf, b"ebcd");
}

#[test]
fn empty_destination_reads_nothing() {
    let mut r = BufReader::new(b"abc".to_vec());
    let mut empty: [u8; 0] = [];
    assert_eq!(r.read_into(&mut empty), 0);
    let mut buf = [0u8; 3];
    assert_eq!(r.read_into(&mut buf), 3);
    assert_eq!(&buf, b"abc");
}

#[test]
fn reads_concatenate_to_the_data() {
    let data: Vec<u8> = (0u8..=250).collect();
    let mut r = make_reader(data.clone());
    let mut out = Vec::new();
    let mut buf = [0u8; 7];
    loop {
        let n = r.read_into(&mut buf);
        if n == 0 {
            break;
        }
        out.extend_from_slice(&buf[..n]);
    }
    assert_eq!(out, data);
}

#[test]
fn reads_until_exhausted_take_ceiling_of_len_over_buffer() {
    for len in 0usize..20 {
        for l in 1usize..7 {
            let mut r = BufReader::new(vec![7u8; len]);
            let mut buf = vec![0u8; l];
            let mut sizes = Vec::new();
            loop {
                let n = r.read_into(&mut buf);
                sizes.push(n);
                if n == 0 {
                    break;
                }
            }
            let expected_reads = (len + l - 1) / l;
            assert_eq!(sizes.len(), expected_reads + 1);
            for (k, n) in sizes.iter().enumerate() {
                if (k + 1) * l <= len {
                    assert_eq!(*n, l);
                } else if k < expected_reads {
                    assert_eq!(*n, len - k * l);
                } else {
                    assert_eq!(*n, 0);
                }
            }
        }
    }
}
