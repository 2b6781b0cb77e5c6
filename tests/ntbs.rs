use c_scape::context::CallContext;
use c_scape::ntbs::{
    index, rindex, stpcpy, stpncpy, strcasecmp, strcat, strchr, strcmp, strcpy, strcspn, strdup,
    strlen, strncasecmp, strncat, strncmp, strncpy, strndup, strnlen, strpbrk, strrchr, strspn,
    strstr, strtok_all, strtok_r, fill_dup,
};
use c_scape::context::strtok;

fn z(s: &str) -> Vec<u8> {
    let mut v = s.as_bytes().to_vec();
    v.push(0);
    v
}

#[test]
fn compare_scenarios() {
    assert_eq!(strcmp(&z("abc"), &z("abd")), -1);
    assert_eq!(strcmp(&z("abc"), &z("abc")), 0);
    assert_eq!(strncmp(&z("abcxyz"), &z("abcdef"), 3), 0);
}

#[test]
fn compare_stops_at_terminator() {
    assert_eq!(strcmp(&z("ab"), &z("abc")), -(b'c' as i32));
    assert_eq!(strcmp(&z("abc"), &z("ab")), b'c' as i32);
    assert_eq!(strcmp(&z(""), &z("")), 0);
    assert_eq!(strncmp(&z("abcxyz"), &z("abcdef"), 4), b'x' as i32 - b'd' as i32);
    assert_eq!(strncmp(&z("a"), &z("b"), 0), 0);
}

#[test]
fn compare_reads_bytes_as_signed_char() {
    let a = vec![0x80u8, 0];
    let b = vec![0x01u8, 0];
    assert_eq!(strcmp(&a, &b), -128 - 1);
}

#[test]
fn compare_without_case() {
    assert_eq!(strcasecmp(&z("HeLLo"), &z("hello")), 0);
    assert_eq!(strcasecmp(&z("ABC"), &z("abd")), -1);
    assert_eq!(strncasecmp(&z("ABCx"), &z("abcy"), 3), 0);
    assert_eq!(strncasecmp(&z("ABCx"), &z("abcy"), 4), -1);
}

#[test]
fn copy_then_compare_is_zero() {
    let s = z("hello");
    let mut d = vec![7u8; 10];
    let end = stpcpy(&mut d, &s);
    assert_eq!(end, 5);
    assert_eq!(d[end], 0);
    assert_eq!(strcmp(&d, &s), 0);
    assert_eq!(&d[6..], &[7u8, 7, 7, 7]);
}

#[test]
fn strcpy_and_strcat() {
    let mut d = vec![9u8; 12];
    strcpy(&mut d, &z("foo"));
    strcat(&mut d, &z("bar"));
    assert_eq!(&d[..7], b"foobar\0");
    assert_eq!(strlen(&d), 6);
    strncat(&mut d, &z("xyz"), 2);
    assert_eq!(&d[..9], b"foobarxy\0");
}

#[test]
fn bounded_copy_pads_short_source() {
    let mut d = vec![7u8; 8];
    let end = stpncpy(&mut d, &z("ab"), 6);
    assert_eq!(end, 2);
    assert_eq!(d, vec![b'a', b'b', 0, 0, 0, 0, 7, 7]);
}

#[test]
fn bounded_copy_writes_no_terminator_for_long_source() {
    let mut d = vec![7u8; 5];
    let end = stpncpy(&mut d, &z("abcdef"), 3);
    assert_eq!(end, 3);
    assert_eq!(d, vec![b'a', b'b', b'c', 7, 7]);
    let mut e = vec![7u8; 4];
    strncpy(&mut e, b"xyz", 3);
    assert_eq!(e, vec![b'x', b'y', b'z', 7]);
}

#[test]
fn bounded_length() {
    assert_eq!(strnlen(&z("hello"), 3), 3);
    assert_eq!(strnlen(&z("hi"), 10), 2);
    assert_eq!(strnlen(b"abc", 3), 3);
}

#[test]
fn search_first() {
    let s = z("banana");
    assert_eq!(strchr(&s, b'n' as i32), Some(2));
    assert_eq!(strchr(&s, b'q' as i32), None);
    assert_eq!(strchr(&s, 0), Some(6));
    assert_eq!(strchr(&s, 0x100 + b'b' as i32), Some(0));
    assert_eq!(index(&s, b'a' as i32), Some(1));
}

#[test]
fn search_last_scenarios() {
    assert_eq!(strrchr(&z("banana"), b'a' as i32), Some(5));
    assert_eq!(strrchr(&z("xyz"), b'q' as i32), None);
    assert_eq!(rindex(&z("banana"), b'n' as i32), Some(4));
    assert_eq!(strrchr(&z("ab"), 0), Some(2));
}

#[test]
fn search_stops_at_terminator() {
    let s = vec![b'a', 0, b'q', 0];
    assert_eq!(strchr(&s, b'q' as i32), None);
    assert_eq!(strrchr(&s, b'q' as i32), None);
    assert_eq!(strstr(&s, &z("q")), None);
}

#[test]
fn spans() {
    assert_eq!(strspn(&z("aabxa"), &z("ab")), 3);
    assert_eq!(strcspn(&z("hello, world"), &z(" ,")), 5);
    assert_eq!(strcspn(&z("hello"), &z("")), 5);
    assert_eq!(strspn(&z("hello"), &z("")), 0);
    assert_eq!(strpbrk(&z("hello, world"), &z(" ,")), Some(5));
    assert_eq!(strpbrk(&z("hello"), &z("xyz")), None);
}

#[test]
fn substring_search() {
    assert_eq!(strstr(&z("hello world"), &z("o w")), Some(4));
    assert_eq!(strstr(&z("hello"), &z("")), Some(0));
    assert_eq!(strstr(&z("aaab"), &z("aab")), Some(1));
    assert_eq!(strstr(&z("abc"), &z("abcd")), None);
    assert_eq!(strstr(&z(""), &z("a")), None);
}

#[test]
fn tokenizer_collapses_delimiter_runs() {
    let mut buf = z(",,ab,,,c,d,,");
    let m = z(",");
    let mut p = None;
    let mut tokens = Vec::new();
    let mut r = strtok_r(&mut buf, Some(0), &m, &mut p);
    while let Some(t) = r {
        let end = t + strlen(&buf[t..]);
        tokens.push(buf[t..end].to_vec());
        r = strtok_r(&mut buf, None, &m, &mut p);
    }
    assert_eq!(tokens, vec![b"ab".to_vec(), b"c".to_vec(), b"d".to_vec()]);
    assert_eq!(tokens.join(&b","[..]), b"ab,c,d".to_vec());
    assert_eq!(p, None);
    assert_eq!(strtok_r(&mut buf, None, &m, &mut p), None);
}

#[test]
fn tokenizer_on_delimiters_only() {
    let mut buf = z(" \t ");
    let mut p = Some(3);
    assert_eq!(strtok_r(&mut buf, Some(0), &z(" \t"), &mut p), None);
    assert_eq!(p, None);
}

#[test]
fn tokenizer_with_shared_cursor() {
    let mut ctx = CallContext::new();
    let mut buf = z("a b");
    let m = z(" ");
    assert_eq!(strtok(&mut ctx, &mut buf, Some(0), &m), Some(0));
    assert_eq!(ctx.token_next, Some(2));
    assert_eq!(strtok(&mut ctx, &mut buf, None, &m), Some(2));
    assert_eq!(ctx.token_next, None);
    assert_eq!(strtok(&mut ctx, &mut buf, None, &m), None);
    assert_eq!(buf, vec![b'a', 0, b'b', 0]);
}

#[test]
fn duplicates() {
    assert_eq!(strdup(&z("abc")), Some(z("abc")));
    assert_eq!(strdup(&z("")), Some(vec![0]));
    assert_eq!(strndup(&z("abcdef"), 2), Some(z("ab")));
    assert_eq!(strndup(&z("ab"), 9), Some(z("ab")));
    assert_eq!(strndup(b"xyz", 3), Some(z("xyz")));
}

#[test]
fn tokenizer_run_to_the_end() {
    let mut buf = z(",,ab,,,c,d,,");
    let starts = strtok_all(&mut buf, &z(","));
    assert_eq!(starts, vec![2, 7, 9]);
    let words: Vec<Vec<u8>> = starts
        .iter()
        .map(|&t| buf[t..t + strlen(&buf[t..])].to_vec())
        .collect();
    assert_eq!(words.join(&b","[..]), b"ab,c,d".to_vec());
    let mut only = z(" ; ");
    assert_eq!(strtok_all(&mut only, &z(" ;")), Vec::<usize>::new());
    let mut plain = z("word");
    assert_eq!(strtok_all(&mut plain, &z(",")), vec![0]);
}

#[test]
fn fill_copies_prefix_and_terminates() {
    assert_eq!(fill_dup(Vec::new(), b"abc\0", 2), z("ab"));
    assert_eq!(fill_dup(Vec::new(), b"xyz", 3), z("xyz"));
    assert_eq!(fill_dup(Vec::new(), b"", 0), vec![0]);
}
