use yz_string_utils::{count_str_bytes, slice_between, AdvanPeekIter, SplitAtWhile, StrLexerBase};

#[test]
fn basic() {
    let mut it0 = AdvanPeekIter::new((0..10).collect::<Vec<i32>>());
    let a = it0.intell_take_while(|i| i < 5).count();
    let b = it0.count();
    assert_eq!(a, 5);
    assert_eq!(b, 5);
}

#[test]
fn take_while_never_matching_consumes_nothing() {
    let mut it0 = AdvanPeekIter::new(vec![3, 1, 4, 1, 5]);
    let a = it0.intell_take_while(|i| i > 10).count();
    let b = it0.count();
    assert_eq!(a, 0);
    assert_eq!(b, 5);
}

#[test]
fn take_while_all_matching_consumes_all() {
    let mut it0 = AdvanPeekIter::new(vec![1, 2, 3]);
    let a = it0.intell_take_while(|i| i < 10).count();
    let b = it0.count();
    assert_eq!(a, 3);
    assert_eq!(b, 0);
}

#[test]
fn test_consume_ident() {
    let mut slb = StrLexerBase {
        inp: "hello ",
        offset: 0,
    };
    assert_eq!(slb.try_consume_ident(), Some("hello".to_string()));
    assert_eq!(slb.offset, 5);

    let mut slb = StrLexerBase {
        inp: "\u{f6} ",
        offset: 0,
    };
    assert_eq!(slb.try_consume_ident(), Some("\u{f6}".to_string()));
    assert_eq!(slb.offset, 2);

    let mut slb = StrLexerBase {
        inp: ".\u{f6} ",
        offset: 0,
    };
    assert_eq!(slb.try_consume_ident(), None);
    assert_eq!(slb.offset, 0);
}

#[test]
fn consume_splits_and_advances_offset() {
    let mut slb = StrLexerBase {
        inp: "hello world",
        offset: 0,
    };
    let a = slb.consume(5);
    assert_eq!(a, "hello");
    assert_eq!(slb.inp, " world");
    assert_eq!(slb.offset, 5);
}

#[test]
fn consume_select_takes_longest_prefix() {
    let mut slb = StrLexerBase {
        inp: "abc123 rest",
        offset: 2,
    };
    let a = slb.consume_select(|c| c.is_ascii_alphanumeric());
    assert_eq!(a, "abc123");
    assert_eq!(slb.inp, " rest");
    assert_eq!(slb.offset, 8);
}

#[test]
fn count_str_bytes_counts_the_accepted_prefix() {
    assert_eq!(count_str_bytes("hello world", |c| c != ' '), 5);
    assert_eq!(count_str_bytes("", |_| true), 0);
    assert_eq!(count_str_bytes("abc", |_| true), 3);
    // a two-byte character counts as two bytes
    assert_eq!(count_str_bytes("\u{f6}x y", |c| c != ' '), 3);
}

#[test]
fn split_at_while_segments_by_category() {
    let (a, b) = "abc123".split_at_while(|c: &char| c.is_alphabetic());
    assert_eq!(a, "abc");
    assert_eq!(b, "123");
    let (a, b) = "xyz".split_at_while(|c: &char| *c != 'q');
    assert_eq!(a, "xyz");
    assert_eq!(b, "");
    let (a, b) = "\u{f6}\u{f6} x".split_at_while(|c: &char| !c.is_whitespace());
    assert_eq!(a, "\u{f6}\u{f6}");
    assert_eq!(b, " x");
}

#[test]
fn split_at_while_segments_slices() {
    let xs: &[i32] = &[2, 4, 6, 7, 8];
    let (a, b) = xs.split_at_while(|v: &i32| v % 2 == 0);
    assert_eq!(a, &[2, 4, 6][..]);
    assert_eq!(b, &[7, 8][..]);
    let (a, b) = xs.split_at_while(|v: &i32| *v > 100);
    assert_eq!(a, &[][..]);
    assert_eq!(b, xs);
}

#[test]
fn slice_between_yields_the_leading_part() {
    let whole: &[u8] = &[10, 20, 30, 40];
    assert_eq!(slice_between(whole, 2), &[10, 20][..]);
    assert_eq!(slice_between(whole, 0), &[][..]);
    assert_eq!(slice_between(whole, 4), whole);
}
