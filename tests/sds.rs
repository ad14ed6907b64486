use redis_rust::{
    sds_req_type, sds_type_max_size, z_malloc_usable, z_realloc_usable, z_try_malloc_usable, Sds,
    SdsHdr, SDS_TYPE_16, SDS_TYPE_32, SDS_TYPE_64, SDS_TYPE_8,
};

fn check_header(flags: u8) {
    let mut hdr = SdsHdr { len: 0, alloc: 0, flags };
    assert_eq!(hdr.sds_len(), 0);
    assert_eq!(hdr.sds_alloc(), 0);
    assert_eq!(hdr.sds_avail(), 0);

    hdr.set_len_uncheck(1);
    assert_eq!(hdr.sds_len(), 1);
    assert_eq!(hdr.sds_alloc(), 0);

    hdr.set_alloc_uncheck(2);
    assert_eq!(hdr.sds_len(), 1);
    assert_eq!(hdr.sds_alloc(), 2);
    assert_eq!(hdr.sds_avail(), 1);

    hdr.inc_len_uncheck(1);
    assert_eq!(hdr.sds_len(), 2);
    assert_eq!(hdr.sds_alloc(), 2);
    assert_eq!(hdr.sds_avail(), 0);
}

#[test]
fn test_all_sds_basic() {
    check_header(SDS_TYPE_8);
    check_header(SDS_TYPE_16);
    check_header(SDS_TYPE_32);
    check_header(SDS_TYPE_64);
}

#[test]
fn test_sample() {
    let mut my_string = Sds::from_str("Hello World!");
    println!("{}", my_string.as_str_uncheck());

    let buf = ['A' as u8, 'B' as u8, 'C' as u8];
    my_string = Sds::from_slice(&buf);
    println!("{} of len {}", my_string.as_str_uncheck(), my_string.len());

    my_string = Sds::empty();
    println!("{}", my_string.len());

    my_string.push_str("Hello ").push_str("World!");
    println!("{}", my_string.as_str_uncheck());

    let my_string2 = my_string.clone();
    println!("{} == {}", my_string.as_str_uncheck(), my_string2.as_str_uncheck());

    my_string = Sds::from_str(" Hello World! ");
    let my_string_trim = my_string.as_str_uncheck().trim();
    println!("{}", my_string_trim);
    println!(
        "{} {}",
        my_string.as_slice().starts_with(&[' ' as u8]),
        my_string_trim.starts_with('H')
    );
}

#[test]
fn test_sds() {
    let empty1 = Sds::empty();
    let empty2 = Sds::empty();
    assert_eq!(empty1, empty2);

    let s = "get/set";
    let mut sds = Sds::from_str(s);
    assert_eq!(sds.as_str_uncheck(), s);
    assert_ne!(sds, empty1);
    assert!(sds > empty1);
    assert!(sds.as_slice().starts_with("get".as_bytes()));

    sds = Sds::from_slice(&sds.as_slice().to_ascii_uppercase());
    assert_eq!(sds.as_str_uncheck(), &s.to_ascii_uppercase());

    let s = [1u8, 2, 4, 6];
    let mut sds = Sds::from_slice(&s);
    assert_eq!(sds.as_slice(), &s);
    assert_ne!(sds, empty1);
    assert!(sds > empty1);

    sds.clear();
    assert_eq!(sds, empty1);

    let len = u16::max_value();
    let batch_size = 1024;
    let batch = [9u8].repeat(batch_size);
    let mut total = 0;
    for _ in 0..(len as usize / batch_size) {
        sds.push_slice(batch.as_slice());
        total += batch.len();
    }

    for _ in 0..batch_size {
        sds.push_u8(batch[0]);
        total += 1;
    }

    assert_eq!(sds.len(), total);
    assert_eq!(
        sds.as_slice().iter().fold(0u64, |per, item| per + (*item as u64)),
        total as u64 * 9
    );
}

#[test]
fn test_z_malloc_size() {
    let (mut block, len) = z_try_malloc_usable(9);
    block[0] = 31;
    assert_eq!(len, block.len());
    assert!(len >= 9);
}

#[test]
fn sds_end_to_end() {
    let mut s = Sds::from_str("Hi, ");
    s.push_str("redis ").push_str("rust.");
    assert_eq!(s.as_slice(), "Hi, redis rust.".as_bytes());
    assert_eq!(s.as_str_uncheck(), "Hi, redis rust.");
    assert_eq!(s.len(), 15);
}

#[test]
fn sds_appends_keep_bytes() {
    let mut s = Sds::empty();
    let mut expected: Vec<u8> = Vec::new();
    for i in 0..300u32 {
        let piece = [(i % 251) as u8, (i % 7) as u8];
        s.push_slice(&piece);
        expected.extend_from_slice(&piece);
        assert_eq!(s.as_slice(), expected.as_slice());
    }
    assert_eq!(s.len(), 600);
    assert!(s.capacity() >= s.len());
}

#[test]
fn sds_clear_keeps_capacity() {
    let mut s = Sds::from_str("some bytes");
    s.push_str(" and more");
    let cap = s.capacity();
    s.clear();
    assert_eq!(s.len(), 0);
    assert!(s.is_empty());
    assert_eq!(s.capacity(), cap);
}

#[test]
fn sds_equal_regardless_of_capacity() {
    let a = Sds::from_str("abc");
    let mut b = Sds::from_str("a");
    b.push_str("bc");
    assert!(b.capacity() >= 6);
    assert_eq!(a, b);
    assert!(Sds::from_str("abd") > a);
    assert!(Sds::from_str("ab") < a);
}

#[test]
fn sds_shared_empty_is_not_written() {
    let mut e = Sds::empty();
    assert!(e.is_global_empty());
    assert_eq!(e.capacity(), 0);
    assert_eq!(e.type_code(), SDS_TYPE_8);
    e.clear();
    assert!(e.is_global_empty());
    e.push_u8(b'x');
    assert!(!e.is_global_empty());
    assert_eq!(e.as_slice(), b"x");
    assert!(Sds::empty().is_global_empty());
    assert!(Sds::from_slice(&[]).is_global_empty());
    assert!(Sds::try_from_slice(&[]).unwrap().is_global_empty());
}

#[test]
fn sds_growth_policy() {
    let mut s = Sds::from_str("abc");
    s.push_str("de");
    assert!(s.capacity() >= 10);
    let mut big = Sds::from_slice(&vec![1u8; 300]);
    assert_eq!(big.type_code(), SDS_TYPE_16);
    big.clear();
    assert_eq!(big.type_code(), SDS_TYPE_16);
    let mut small = Sds::from_str("x");
    assert_eq!(small.type_code(), SDS_TYPE_8);
    small.push_slice(&vec![0u8; 200]);
    assert_eq!(small.type_code(), SDS_TYPE_16);
    assert!(small.capacity() >= 402);
}

#[test]
fn sds_header_types() {
    assert_eq!(sds_req_type(0), SDS_TYPE_8);
    assert_eq!(sds_req_type(255), SDS_TYPE_8);
    assert_eq!(sds_req_type(256), SDS_TYPE_16);
    assert_eq!(sds_req_type(65535), SDS_TYPE_16);
    assert_eq!(sds_req_type(65536), SDS_TYPE_32);
    assert_eq!(sds_type_max_size(SDS_TYPE_8), 255);
    assert_eq!(sds_type_max_size(SDS_TYPE_16), 65535);
    assert_eq!(sds_type_max_size(SDS_TYPE_32), 4294967295);
    assert_eq!(sds_type_max_size(SDS_TYPE_64), usize::MAX);
}

#[test]
fn sds_clone_is_independent() {
    let mut a = Sds::from_str("left");
    let b = a.clone();
    a.push_str("-changed");
    assert_eq!(b.as_str_uncheck(), "left");
    assert_eq!(a.as_str_uncheck(), "left-changed");
    assert!(b.capacity() >= 4);
}

#[test]
fn sds_invalid_utf8_reads_as_empty_text() {
    let s = Sds::from_slice(&[0xff, 0xfe]);
    assert_eq!(s.as_str_uncheck(), "");
    assert_eq!(s.len(), 2);
}

#[test]
fn sds_push_other_buffer() {
    let mut a = Sds::from_str("ab");
    let b = Sds::from_str("cd");
    a.push(&b);
    assert_eq!(a.as_str_uncheck(), "abcd");
}

#[test]
fn allocator_blocks() {
    let (block, usable) = z_malloc_usable(16);
    assert!(usable >= 16);
    assert_eq!(block.len(), usable);
    assert!(block.iter().all(|b| *b == 0));
    let mut block = block;
    block[0] = 7;
    let (grown, size) = z_realloc_usable(block, 40);
    assert_eq!(size, 40);
    assert_eq!(grown.len(), 40);
    assert_eq!(grown[0], 7);
    let (shrunk, size) = z_realloc_usable(grown, 1);
    assert_eq!(size, 1);
    assert_eq!(shrunk, vec![7]);
}

#[test]
fn sds_empty_input_has_no_capacity() {
    let s = Sds::from_slice(&[]);
    assert_eq!(s.capacity(), 0);
    assert_eq!(Sds::from_str("").capacity(), 0);
    let mut grown = Sds::from_str("abcd");
    grown.push_str("e");
    assert!(grown.capacity() >= 10);
    let cap = grown.capacity();
    grown.push_str("f");
    assert_eq!(grown.capacity(), cap);
}
