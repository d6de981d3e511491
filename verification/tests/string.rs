use rusl::string::has_zero;
use rusl::string::mem::{bcmp, bcopy, bzero};
use rusl::string::strchr::{index, memrchr, rindex, strchr, strchrnul, strrchr};
use rusl::string::strcmp::{char_diff, strcmp};
use rusl::string::strcpy::{stpcpy, strcpy, strdup};
use rusl::string::strlen::strlen;
use rusl::string::strspn::strspn;

#[test]
fn has_zero_finds_a_zero_byte() {
    assert!(has_zero(0x0101_0101_0101_0100));
    assert!(has_zero(0x0001_0101_0101_0101));
    assert!(!has_zero(0x0101_0101_0101_0101));
    assert!(!has_zero(0x8080_8080_8080_8080));
    assert!(has_zero(0));
}

#[test]
fn strlen_counts_to_the_terminator() {
    assert_eq!(strlen(b"\0"), 0);
    assert_eq!(strlen(b"hello\0"), 5);
    assert_eq!(strlen(b"abcdefghijklmnopqrstuvwxyz\0junk"), 26);
    assert_eq!(strlen(b"abcdefg\0"), 7);
    assert_eq!(strlen(b"abcdefgh\0"), 8);
}

#[test]
fn strchrnul_stops_at_byte_or_terminator() {
    let s = b"hello, world\0";
    assert_eq!(strchrnul(s, b'o' as i32), 4);
    assert_eq!(strchrnul(s, b'z' as i32), 12);
    assert_eq!(strchrnul(s, 0), 12);
    assert_eq!(strchrnul(b"abcdefghijklmnopq\0", b'q' as i32), 16);
    // only the low byte of `c` counts
    assert_eq!(strchrnul(s, 0x100 + b'w' as i32), 7);
}

#[test]
fn strchr_and_index_find_the_first_occurrence() {
    let s = b"banana\0";
    assert_eq!(strchr(s, b'a' as i32), Some(1));
    assert_eq!(strchr(s, b'x' as i32), None);
    assert_eq!(strchr(s, 0), Some(6));
    assert_eq!(index(s, b'n' as i32), Some(2));
    assert_eq!(index(s, b'q' as i32), None);
}

#[test]
fn strrchr_and_rindex_find_the_last_occurrence() {
    let s = b"banana\0tail";
    assert_eq!(strrchr(s, b'a' as i32), Some(5));
    assert_eq!(strrchr(s, b'b' as i32), Some(0));
    assert_eq!(strrchr(s, b't' as i32), None);
    assert_eq!(strrchr(s, 0), Some(6));
    assert_eq!(rindex(s, b'n' as i32), Some(4));
}

#[test]
fn memrchr_searches_the_first_n_bytes_backwards() {
    let m = b"abcabc";
    assert_eq!(memrchr(m, b'a' as i32, 6), Some(3));
    assert_eq!(memrchr(m, b'a' as i32, 3), Some(0));
    assert_eq!(memrchr(m, b'c' as i32, 2), None);
    assert_eq!(memrchr(m, b'a' as i32, 0), None);
}

#[test]
fn strcmp_returns_the_unsigned_byte_difference() {
    assert_eq!(strcmp(b"abc\0", b"abc\0"), 0);
    assert_eq!(strcmp(b"abc\0", b"abd\0"), -1);
    assert_eq!(strcmp(b"abd\0", b"abc\0"), 1);
    assert_eq!(strcmp(b"ab\0", b"abc\0"), -(b'c' as i32));
    assert_eq!(strcmp(b"abc\0", b"ab\0"), b'c' as i32);
    // bytes compare as unsigned characters: 0xff sorts after 'a'
    assert_eq!(strcmp(b"\xff\0", b"a\0"), 0xff - 97);
    assert_eq!(strcmp(b"a\0", b"\xff\0"), 97 - 0xff);
    assert_eq!(strcmp(b"\x80\0", b"\0"), 128);
    assert_eq!(char_diff(0x80, b'a'), 128 - 97);
    assert_eq!(char_diff(0, 0xff), -255);
}

#[test]
fn strcpy_copies_the_terminator_and_keeps_the_rest() {
    let mut d = [b'x'; 10];
    assert_eq!(strcpy(&mut d, b"hey\0"), 0);
    assert_eq!(&d, b"hey\0xxxxxx");
    let mut e = [b'y'; 4];
    // stpcpy hands back the position of the copied terminator
    assert_eq!(stpcpy(&mut e, b"ab\0"), 2);
    let mut g = [0u8; 4];
    assert_eq!(stpcpy(&mut g, b"abc\0"), 3);
    assert_eq!(&g, b"abc\0");
    assert_eq!(&e, b"ab\0y");
    let mut f = [7u8; 1];
    strcpy(&mut f, b"\0");
    assert_eq!(f, [0]);
}

#[test]
fn strdup_copies_up_to_the_terminator() {
    assert_eq!(strdup(b"dup\0rest"), b"dup\0".to_vec());
    assert_eq!(strdup(b"\0"), vec![0u8]);
    let d = strdup(b"some string\0");
    assert_eq!(strlen(&d), strlen(b"some string\0"));
    assert_eq!(strcmp(&d, b"some string\0"), 0);
}

#[test]
fn strspn_with_no_or_one_character() {
    assert_eq!(strspn(b"abc\0", b"\0"), 0);
    assert_eq!(strspn(b"aaab\0", b"a\0"), 3);
    assert_eq!(strspn(b"aaa\0", b"a\0"), 3);
    assert_eq!(strspn(b"baa\0", b"a\0"), 0);
}

#[test]
fn strspn_with_several_characters_spans_exactly_those_bytes() {
    assert_eq!(strspn(b"abcab\0", b"ab\0"), 2);
    assert_eq!(strspn(b"abba!\0", b"ab\0"), 4);
    assert_eq!(strspn(b"abba-\0", b"ab\0"), 4);
    assert_eq!(strspn(b"\0", b"ab\0"), 0);
    // bytes that agree modulo 32 are still different bytes
    assert_eq!(strspn(b"Aa\0", b"ab\0"), 0);
    assert_eq!(strspn(b"aA!a-\0", b"A!\0"), 0);
    assert_eq!(strspn(b"A!A-\0", b"A!\0"), 3);
    // bytes above 127 have bits of their own
    assert_eq!(strspn(b"\xff\x80\xffa\0", b"\x80\xff\0"), 3);
    assert_eq!(strspn(b"\x7f\0", b"\xff\x80\0"), 0);
}

#[test]
fn bcmp_compares_unsigned_bytes() {
    assert_eq!(bcmp(b"abc", b"abc", 3), 0);
    assert_eq!(bcmp(b"abc", b"abd", 3), -1);
    assert_eq!(bcmp(b"abc", b"abd", 2), 0);
    assert_eq!(bcmp(&[0xff], &[0x01], 1), 254);
    assert_eq!(bcmp(&[0x01], &[0xff], 1), -254);
    assert_eq!(bcmp(b"", b"", 0), 0);
}

#[test]
fn bcopy_moves_overlapping_ranges() {
    let mut buf = *b"abcdefgh";
    bcopy(&mut buf, 0, 2, 4);
    assert_eq!(&buf, b"ababcdgh");
    let mut buf = *b"abcdefgh";
    bcopy(&mut buf, 2, 0, 4);
    assert_eq!(&buf, b"cdefefgh");
    let mut buf = *b"abcdefgh";
    bcopy(&mut buf, 5, 5, 3);
    assert_eq!(&buf, b"abcdefgh");
    let mut buf = *b"abcdefgh";
    bcopy(&mut buf, 0, 4, 4);
    assert_eq!(bcmp(&buf[4..], b"abcd", 4), 0);
}

#[test]
fn bzero_clears_the_first_n_bytes() {
    let mut buf = [9u8; 6];
    bzero(&mut buf, 4);
    assert_eq!(buf, [0, 0, 0, 0, 9, 9]);
    bzero(&mut buf, 0);
    assert_eq!(buf, [0, 0, 0, 0, 9, 9]);
}

#[test]
fn strcmp_is_reflexive_and_antisymmetric() {
    let words: [&[u8]; 7] = [b"\0", b"a\0", b"abc\0", b"abd\0", b"zz\0", b"\x80\0", b"\xff\0"];
    for a in words.iter() {
        assert_eq!(strcmp(a, a), 0);
        for b in words.iter() {
            assert_eq!(strcmp(a, b), -strcmp(b, a));
        }
    }
}

#[test]
fn a_copy_compares_equal() {
    let mut d = [0xffu8; 16];
    strcpy(&mut d, b"copy me\0");
    assert_eq!(strcmp(&d, b"copy me\0"), 0);
    assert_eq!(strlen(&d), 7);
}

#[test]
fn first_occurrence_comes_before_last() {
    let s = b"mississippi\0";
    for c in [b'm', b's', b'i', b'p', b'x', 0u8].iter() {
        let first = strchr(s, *c as i32);
        let last = strrchr(s, *c as i32);
        assert_eq!(first.is_none(), last.is_none());
        if let (Some(f), Some(l)) = (first, last) {
            assert!(f <= l);
        }
    }
}

#[test]
fn strchr_follows_strchrnul() {
    let s = b"hello\0";
    for c in [b'h', b'l', b'o', b'z'].iter() {
        let k = strchrnul(s, *c as i32);
        let expected = if s[k] == *c { Some(k) } else { None };
        assert_eq!(strchr(s, *c as i32), expected);
    }
}

#[test]
fn bcmp_is_antisymmetric_and_zero_on_equal_bytes() {
    let a = b"abcdef";
    let b = b"abcxef";
    assert_eq!(bcmp(a, b, 6), -bcmp(b, a, 6));
    assert_eq!(bcmp(a, b, 3), 0);
    assert_ne!(bcmp(a, b, 4), 0);
    let mut buf = *b"abcdefgh";
    bcopy(&mut buf, 0, 4, 4);
    assert_eq!(bcmp(&buf[4..], &buf[..4], 4), 0);
    let mut z = [5u8; 4];
    bzero(&mut z, 4);
    assert_eq!(bcmp(&z, &[0, 0, 0, 0], 4), 0);
}

#[test]
fn strcmp_is_zero_exactly_for_the_same_characters() {
    assert_eq!(strcmp(b"abc\0x", b"abc\0yz"), 0);
    assert_ne!(strcmp(b"abc\0", b"abd\0"), 0);
    assert_ne!(strcmp(b"ab\0", b"abc\0"), 0);
    assert_eq!(strcmp(b"\0a", b"\0b"), 0);
}
