use std::borrow::Cow;
use yz_string_utils::{Shard, ShellwordSplitter, SyntaxError};

fn split(x: &str) -> Result<Vec<String>, SyntaxError> {
    let mut sp = ShellwordSplitter::new(x);
    let mut out: Vec<String> = Vec::new();
    loop {
        match sp.next() {
            None => return Ok(out),
            Some(Ok(c)) => out.push(c.into_owned()),
            Some(Err(e)) => return Err(e),
        }
    }
}

#[test]
fn nothing_special() {
    assert_eq!(split("a b c d").unwrap(), ["a", "b", "c", "d"]);
}

#[test]
fn quoted_strings() {
    assert_eq!(split("a \"b b\" a").unwrap(), ["a", "b b", "a"]);
}

#[test]
fn escaped_double_quotes() {
    assert_eq!(split("a \"\\\"b\\\" c\" d").unwrap(), ["a", "\"b\" c", "d"]);
}

#[test]
fn escaped_single_quotes() {
    assert_eq!(split("a \"'b' c\" d").unwrap(), ["a", "'b' c", "d"]);
}

#[test]
fn escaped_spaces() {
    assert_eq!(split("a b\\ c d").unwrap(), ["a", "b c", "d"]);
}

#[test]
fn start_with_qspaces() {
    assert_eq!(split("\"  \" b c").unwrap(), ["  ", "b", "c"]);
}

#[test]
fn bad_double_quotes() {
    split("a \"b c d e").unwrap_err();
}

#[test]
fn bad_single_quotes() {
    split("a 'b c d e").unwrap_err();
}

#[test]
fn bad_quotes() {
    split("one '\"\"\"").unwrap_err();
}

#[test]
fn trailing_whitespace() {
    assert_eq!(split("a b c d ").unwrap(), ["a", "b", "c", "d"]);
}

#[test]
fn leading_and_trailing_whitespace_ignored() {
    assert_eq!(split("a b c d ").unwrap(), split("a b c d").unwrap());
    assert_eq!(split("  a b c d").unwrap(), split("a b c d").unwrap());
    assert_eq!(split("\t a b c d \n").unwrap(), split("a b c d").unwrap());
}

#[test]
fn plain_tokens_are_borrowed_slices() {
    let input = "alpha beta gamma";
    let mut sp = ShellwordSplitter::new(input);
    let mut count = 0;
    while let Some(r) = sp.next() {
        let c = r.unwrap();
        assert!(matches!(c, Cow::Borrowed(_)));
        if let Cow::Borrowed(s) = c {
            let base = input.as_ptr() as usize;
            let sub = s.as_ptr() as usize;
            assert!(base <= sub && sub + s.len() <= base + input.len());
        }
        count += 1;
    }
    assert_eq!(count, 3);
}

#[test]
fn quote_adjacency_concatenates() {
    assert_eq!(split("\"foo\"'bar'").unwrap(), ["foobar"]);
    assert_eq!(split("a 'b b'\"c\" d").unwrap(), ["a", "b bc", "d"]);
    assert_eq!(split("'ab'cd").unwrap(), ["abcd"]);
}

#[test]
fn escape_letters_map_to_controls() {
    assert_eq!(split("a\\nb a\\tb a\\rb a\\xb").unwrap(), ["a\nb", "a\tb", "a\rb", "axb"]);
}

#[test]
fn escaped_whitespace_in_quotes_is_dropped() {
    assert_eq!(split("\"a\\ b\"").unwrap(), ["ab"]);
    assert_eq!(split("'a\\ b' c").unwrap(), ["ab", "c"]);
}

#[test]
fn trailing_backslash_is_an_error() {
    split("\\").unwrap_err();
    split("abc\\").unwrap_err();
    split("a b\\").unwrap_err();
}

#[test]
fn error_is_terminal() {
    let mut sp = ShellwordSplitter::new("a \"b c");
    let first = sp.next().unwrap().unwrap();
    assert_eq!(first, "a");
    assert!(matches!(sp.next(), Some(Err(SyntaxError))));
    assert!(sp.next().is_none());
    assert!(sp.next().is_none());
}

#[test]
fn empty_quotes_token_is_skipped() {
    // A bare empty quoted argument yields no token at all, so a fail-fast
    // collecting caller stops right there: documented behavior.
    assert_eq!(split("\"\" b c").unwrap(), Vec::<String>::new());
}

#[test]
fn multibyte_content_splits_cleanly() {
    assert_eq!(
        split("gr\u{fc}n \"bl\u{e4}u von\" r\u{f6}t").unwrap(),
        ["gr\u{fc}n", "bl\u{e4}u von", "r\u{f6}t"]
    );
    assert_eq!(split("\u{f6}\\ \u{e4}").unwrap(), ["\u{f6} \u{e4}"]);
}

#[test]
fn quote_in_the_middle_of_a_word() {
    assert_eq!(split("ab\"cd ef\"gh").unwrap(), ["abcd efgh"]);
}

#[test]
fn empty_input_yields_nothing() {
    assert_eq!(split("").unwrap(), Vec::<String>::new());
    assert_eq!(split("   \t\n").unwrap(), Vec::<String>::new());
}

#[test]
fn shard_stays_borrowed_on_matching_pushes() {
    let mut sh = Shard::new("abcdef");
    sh.push('a');
    sh.push('b');
    sh.push('c');
    assert_eq!(sh.len(), 3);
    assert!(!sh.is_empty());
    let out = sh.finish();
    assert!(matches!(out, Cow::Borrowed(_)));
    assert_eq!(out, "abc");
}

#[test]
fn shard_promotes_on_diverging_push() {
    let mut sh = Shard::new("abcdef");
    sh.push('a');
    sh.push('x');
    let out = sh.finish();
    assert!(matches!(out, Cow::Owned(_)));
    assert_eq!(out, "ax");
}

#[test]
fn shard_push_owned_always_promotes() {
    let mut sh = Shard::new("abc");
    sh.push_owned('a');
    let out = sh.finish();
    assert!(matches!(out, Cow::Owned(_)));
    assert_eq!(out, "a");
}

#[test]
fn shard_skip_drops_leading_quote() {
    let mut sh = Shard::new("\"ab");
    sh.skip(1);
    sh.push('a');
    sh.push('b');
    let out = sh.finish();
    assert!(matches!(out, Cow::Borrowed(_)));
    assert_eq!(out, "ab");
}

#[test]
fn shard_counts_bytes_not_characters() {
    // a two-byte character adds two to the length
    let mut sh = Shard::new("xyz");
    sh.push_owned('\u{f6}');
    assert_eq!(sh.len(), 2);
    assert!(!sh.is_empty());

    // a matching push of a two-byte character keeps the shard borrowed
    // and confirms both of its bytes
    let mut sh = Shard::new("\u{f6}x");
    sh.push('\u{f6}');
    assert_eq!(sh.len(), 2);
    sh.push('x');
    assert_eq!(sh.len(), 3);
    let out = sh.finish();
    assert!(matches!(out, Cow::Borrowed(_)));
    assert_eq!(out, "\u{f6}x");
}

#[test]
fn shard_skip_drops_bytes() {
    // skipping two bytes passes exactly one two-byte character
    let mut sh = Shard::new("\u{f6}x");
    sh.skip(2);
    sh.push('x');
    let out = sh.finish();
    assert!(matches!(out, Cow::Borrowed(_)));
    assert_eq!(out, "x");
}

#[test]
fn shard_empty_finish_is_borrowed_empty() {
    let sh = Shard::new("xyz");
    let out = sh.finish();
    assert!(matches!(out, Cow::Borrowed(_)));
    assert_eq!(out, "");
}
