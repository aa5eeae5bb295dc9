use vstd::prelude::*;
use std::borrow::Cow;
use crate::shard::Shard;

verus! {

/// The Unicode white-space classification of a character, as decided by
/// `char::is_whitespace`; left abstract because the full table is part of the
/// Unicode character database.
pub uninterp spec fn is_whitespace_char(c: char) -> bool;

/// Relies on `char::is_whitespace` from std: it decides the `White_Space`
/// property of the character, a function of the character alone.
pub assume_specification[ char::is_whitespace ](c: char) -> (b: bool)
    ensures
        b == is_whitespace_char(c),
;

/// The quote-opened-but-never-closed / escape-with-nothing-after signal.
/// It carries no position and no message; once it is produced the splitter's
/// remaining input has been forced to empty.
#[derive(Clone, Copy, Debug)]
pub struct SyntaxError;

/// True of the two characters that open or close a quoted region.
pub open spec fn spec_ch_is_quote(ch: char) -> bool {
    ch == '"' || ch == '\''
}

fn ch_is_quote(ch: char) -> (r: bool)
    ensures
        r == spec_ch_is_quote(ch),
{
    ch == '"' || ch == '\''
}

/// The input with its leading white space removed.
pub open spec fn spec_skip_ws(s: Seq<char>) -> Seq<char>
    decreases s.len(),
{
    if s.len() == 0 {
        s
    } else if is_whitespace_char(s[0]) {
        spec_skip_ws(s.skip(1))
    } else {
        s
    }
}

/// An empty token is skipped rather than emitted.
pub open spec fn spec_finalize(acc: Seq<char>) -> Option<Result<Seq<char>, SyntaxError>> {
    if acc.len() == 0 {
        None
    } else {
        Some(Ok(acc))
    }
}

/// One step short of the whole story of a single pull: scanning `s` with the
/// quote context `q` and the token content `acc` gathered so far, this gives
/// the outcome of the pull and the input left for the next one.
pub open spec fn spec_scan(s: Seq<char>, q: Option<char>, acc: Seq<char>) -> (Option<
    Result<Seq<char>, SyntaxError>,
>, Seq<char>)
    decreases s.len(),
{
    if s.len() == 0 {
        if q is Some {
            (Some(Err(SyntaxError)), Seq::empty())
        } else {
            (spec_finalize(acc), Seq::empty())
        }
    } else {
        let c = s[0];
        if c == '\\' {
            if s.len() == 1 {
                (Some(Err(SyntaxError)), Seq::empty())
            } else {
                let x = s[1];
                if x == 'n' {
                    spec_scan(s.skip(2), q, acc.push('\n'))
                } else if x == 't' {
                    spec_scan(s.skip(2), q, acc.push('\t'))
                } else if x == 'r' {
                    spec_scan(s.skip(2), q, acc.push('\r'))
                } else if q is Some && is_whitespace_char(x) {
                    spec_scan(s.skip(2), q, acc)
                } else {
                    spec_scan(s.skip(2), q, acc.push(x))
                }
            }
        } else if q is None {
            if spec_ch_is_quote(c) {
                spec_scan(s.skip(1), Some(c), acc)
            } else if is_whitespace_char(c) {
                (spec_finalize(acc), s)
            } else {
                spec_scan(s.skip(1), Option::None, acc.push(c))
            }
        } else if c == q.unwrap() {
            if s.len() == 1 {
                (spec_finalize(acc), Seq::empty())
            } else {
                let x = s[1];
                if is_whitespace_char(x) {
                    (spec_finalize(acc), s.skip(1))
                } else if spec_ch_is_quote(x) {
                    spec_scan(s.skip(2), Some(x), acc)
                } else {
                    spec_scan(s.skip(2), Option::None, acc.push(x))
                }
            }
        } else {
            spec_scan(s.skip(1), q, acc.push(c))
        }
    }
}

/// What one pull of the splitter produces on `s`, and the input it leaves:
/// leading white space is skipped, then the input is scanned outside any
/// quote with an empty token.
pub open spec fn spec_pull(s: Seq<char>) -> (Option<Result<Seq<char>, SyntaxError>>, Seq<char>) {
    spec_scan(spec_skip_ws(s), Option::None, Seq::empty())
}

/// True of input that holds no quote delimiter and no backslash, so that
/// every token of it is a verbatim slice of it.
pub open spec fn spec_is_plain(s: Seq<char>) -> bool {
    forall|j: int| 0 <= j < s.len() ==> !spec_ch_is_quote(#[trigger] s[j]) && s[j] != '\\'
}

proof fn lemma_skip_ws_len(s: Seq<char>)
    ensures
        spec_skip_ws(s).len() <= s.len(),
    decreases s.len(),
{
    if s.len() > 0 && is_whitespace_char(s[0]) {
        lemma_skip_ws_len(s.skip(1));
    }
}

proof fn lemma_scan_rest_len(s: Seq<char>, q: Option<char>, acc: Seq<char>)
    ensures
        spec_scan(s, q, acc).1.len() <= s.len(),
    decreases s.len(),
{
    if s.len() > 0 {
        let c = s[0];
        if c == '\\' {
            if s.len() > 1 {
                let x = s[1];
                if x == 'n' {
                    lemma_scan_rest_len(s.skip(2), q, acc.push('\n'));
                } else if x == 't' {
                    lemma_scan_rest_len(s.skip(2), q, acc.push('\t'));
                } else if x == 'r' {
                    lemma_scan_rest_len(s.skip(2), q, acc.push('\r'));
                } else if q is Some && is_whitespace_char(x) {
                    lemma_scan_rest_len(s.skip(2), q, acc);
                } else {
                    lemma_scan_rest_len(s.skip(2), q, acc.push(x));
                }
            }
        } else if q is None {
            if spec_ch_is_quote(c) {
                lemma_scan_rest_len(s.skip(1), Some(c), acc);
            } else if !is_whitespace_char(c) {
                lemma_scan_rest_len(s.skip(1), Option::None, acc.push(c));
            }
        } else if c == q.unwrap() {
            if s.len() > 1 {
                let x = s[1];
                if !is_whitespace_char(x) {
                    if spec_ch_is_quote(x) {
                        lemma_scan_rest_len(s.skip(2), Some(x), acc);
                    } else {
                        lemma_scan_rest_len(s.skip(2), Option::None, acc.push(x));
                    }
                }
            }
        } else {
            lemma_scan_rest_len(s.skip(1), q, acc.push(c));
        }
    }
}

/// The remaining input never grows across a pull, and shrinks strictly
/// whenever the pull produces a token or the error; every finite input is
/// therefore exhausted after finitely many pulls.
pub proof fn lemma_pull_consumes(s: Seq<char>)
    ensures
        spec_pull(s).1.len() <= s.len(),
        spec_pull(s).0 is Some ==> spec_pull(s).1.len() < s.len(),
{
    lemma_skip_ws_len(s);
    let g = spec_skip_ws(s);
    lemma_scan_rest_len(g, Option::None, Seq::empty());
    if g.len() > 0 {
        let c = g[0];
        if c == '\\' {
            if g.len() > 1 {
                let x = g[1];
                if x == 'n' {
                    lemma_scan_rest_len(g.skip(2), Option::None, Seq::empty().push('\n'));
                } else if x == 't' {
                    lemma_scan_rest_len(g.skip(2), Option::None, Seq::empty().push('\t'));
                } else if x == 'r' {
                    lemma_scan_rest_len(g.skip(2), Option::None, Seq::empty().push('\r'));
                } else {
                    lemma_scan_rest_len(g.skip(2), Option::None, Seq::empty().push(x));
                }
            }
        } else if spec_ch_is_quote(c) {
            lemma_scan_rest_len(g.skip(1), Some(c), Seq::empty());
        } else if !is_whitespace_char(c) {
            lemma_scan_rest_len(g.skip(1), Option::None, Seq::empty().push(c));
        }
    }
}

/// The words of the whole input, in order, pulled until nothing is left;
/// the single syntax error aborts the list, exactly as a fail-fast caller
/// collecting the pulls would see it.
pub open spec fn spec_tokens(s: Seq<char>) -> Result<Seq<Seq<char>>, SyntaxError>
    decreases s.len(),
{
    let (out, rest) = spec_pull(s);
    match out {
        None => Ok(Seq::empty()),
        Some(Err(e)) => Err(e),
        Some(Ok(t)) => if rest.len() < s.len() {
            match spec_tokens(rest) {
                Ok(ts) => Ok(seq![t] + ts),
                Err(e) => Err(e),
            }
        } else {
            Ok(Seq::empty())
        },
    }
}

proof fn lemma_scan_token_nonempty(s: Seq<char>, q: Option<char>, acc: Seq<char>)
    ensures
        spec_scan(s, q, acc).0 matches Some(Ok(t)) ==> t.len() > 0,
    decreases s.len(),
{
    if s.len() > 0 {
        let c = s[0];
        if c == '\\' {
            if s.len() > 1 {
                let x = s[1];
                if x == 'n' {
                    lemma_scan_token_nonempty(s.skip(2), q, acc.push('\n'));
                } else if x == 't' {
                    lemma_scan_token_nonempty(s.skip(2), q, acc.push('\t'));
                } else if x == 'r' {
                    lemma_scan_token_nonempty(s.skip(2), q, acc.push('\r'));
                } else if q is Some && is_whitespace_char(x) {
                    lemma_scan_token_nonempty(s.skip(2), q, acc);
                } else {
                    lemma_scan_token_nonempty(s.skip(2), q, acc.push(x));
                }
            }
        } else if q is None {
            if spec_ch_is_quote(c) {
                lemma_scan_token_nonempty(s.skip(1), Some(c), acc);
            } else if !is_whitespace_char(c) {
                lemma_scan_token_nonempty(s.skip(1), Option::None, acc.push(c));
            }
        } else if c == q.unwrap() {
            if s.len() > 1 {
                let x = s[1];
                if !is_whitespace_char(x) {
                    if spec_ch_is_quote(x) {
                        lemma_scan_token_nonempty(s.skip(2), Some(x), acc);
                    } else {
                        lemma_scan_token_nonempty(s.skip(2), Option::None, acc.push(x));
                    }
                }
            }
        } else {
            lemma_scan_token_nonempty(s.skip(1), q, acc.push(c));
        }
    }
}

/// White space around or between words never yields an empty word: every
/// word of a successfully split input is nonempty.
pub proof fn lemma_tokens_nonempty(s: Seq<char>)
    ensures
        spec_tokens(s) matches Ok(ts) ==> forall|j: int|
            0 <= j < ts.len() ==> (#[trigger] ts[j]).len() > 0,
    decreases s.len(),
{
    let (out, rest) = spec_pull(s);
    lemma_scan_token_nonempty(spec_skip_ws(s), Option::None, Seq::empty());
    if out matches Some(Ok(t)) {
        lemma_pull_consumes(s);
        if rest.len() < s.len() {
            lemma_tokens_nonempty(rest);
        }
    }
}

/// Leading white space is ignored: one more white-space character in front
/// of the input changes neither the words nor the error.
pub proof fn lemma_leading_ws_ignored(c: char, s: Seq<char>)
    requires
        is_whitespace_char(c),
    ensures
        spec_tokens(seq![c] + s) == spec_tokens(s),
{
    assert((seq![c] + s).skip(1) =~= s);
    assert(spec_skip_ws(seq![c] + s) == spec_skip_ws(s));
    lemma_pull_consumes(s);
}

proof fn lemma_scan_err_terminal(s: Seq<char>, q: Option<char>, acc: Seq<char>)
    ensures
        spec_scan(s, q, acc).0 matches Some(Err(_)) ==> spec_scan(s, q, acc).1 =~= Seq::<
            char,
        >::empty(),
    decreases s.len(),
{
    if s.len() > 0 {
        let c = s[0];
        if c == '\\' {
            if s.len() > 1 {
                let x = s[1];
                if x == 'n' {
                    lemma_scan_err_terminal(s.skip(2), q, acc.push('\n'));
                } else if x == 't' {
                    lemma_scan_err_terminal(s.skip(2), q, acc.push('\t'));
                } else if x == 'r' {
                    lemma_scan_err_terminal(s.skip(2), q, acc.push('\r'));
                } else if q is Some && is_whitespace_char(x) {
                    lemma_scan_err_terminal(s.skip(2), q, acc);
                } else {
                    lemma_scan_err_terminal(s.skip(2), q, acc.push(x));
                }
            }
        } else if q is None {
            if spec_ch_is_quote(c) {
                lemma_scan_err_terminal(s.skip(1), Some(c), acc);
            } else if !is_whitespace_char(c) {
                lemma_scan_err_terminal(s.skip(1), Option::None, acc.push(c));
            }
        } else if c == q.unwrap() {
            if s.len() > 1 {
                let x = s[1];
                if !is_whitespace_char(x) {
                    if spec_ch_is_quote(x) {
                        lemma_scan_err_terminal(s.skip(2), Some(x), acc);
                    } else {
                        lemma_scan_err_terminal(s.skip(2), Option::None, acc.push(x));
                    }
                }
            }
        } else {
            lemma_scan_err_terminal(s.skip(1), q, acc.push(c));
        }
    }
}

/// The syntax error is final: the pull that produces it leaves no input
/// behind, and a pull on empty input produces nothing, so no word ever
/// follows the error.
pub proof fn lemma_error_is_terminal(s: Seq<char>)
    ensures
        spec_pull(s).0 matches Some(Err(_)) ==> spec_pull(s).1 =~= Seq::<char>::empty(),
        spec_pull(Seq::<char>::empty()).0 is None,
{
    lemma_scan_err_terminal(spec_skip_ws(s), Option::None, Seq::empty());
}

/// Whether scanning `s` in the quote context `q` runs into a backslash that
/// stands as the very last character, with nothing left to escape.
pub open spec fn spec_scan_dangling(s: Seq<char>, q: Option<char>) -> bool
    decreases s.len(),
{
    if s.len() == 0 {
        false
    } else {
        let c = s[0];
        if c == '\\' {
            if s.len() == 1 {
                true
            } else {
                spec_scan_dangling(s.skip(2), q)
            }
        } else if q is None {
            if spec_ch_is_quote(c) {
                spec_scan_dangling(s.skip(1), Some(c))
            } else if is_whitespace_char(c) {
                false
            } else {
                spec_scan_dangling(s.skip(1), q)
            }
        } else if c == q.unwrap() {
            if s.len() == 1 {
                false
            } else {
                let x = s[1];
                if is_whitespace_char(x) {
                    false
                } else if spec_ch_is_quote(x) {
                    spec_scan_dangling(s.skip(2), Some(x))
                } else {
                    spec_scan_dangling(s.skip(2), Option::None)
                }
            }
        } else {
            spec_scan_dangling(s.skip(1), q)
        }
    }
}

/// Whether no pull of the whole input, first to last, runs into a trailing
/// lone backslash.
pub open spec fn spec_tokens_clean(s: Seq<char>) -> bool
    decreases s.len(),
{
    let (out, rest) = spec_pull(s);
    &&& !spec_scan_dangling(spec_skip_ws(s), Option::None)
    &&& match out {
        Some(Ok(_)) => if rest.len() < s.len() {
            spec_tokens_clean(rest)
        } else {
            true
        },
        _ => true,
    }
}

proof fn lemma_skip_ws_append(s: Seq<char>, c: char)
    requires
        is_whitespace_char(c),
    ensures
        spec_skip_ws(s).len() > 0 ==> spec_skip_ws(s + seq![c]) == spec_skip_ws(s) + seq![c],
        spec_skip_ws(s).len() == 0 ==> spec_skip_ws(s + seq![c]) =~= Seq::<char>::empty(),
    decreases s.len(),
{
    if s.len() == 0 {
        assert(s + seq![c] =~= seq![c]);
        assert((seq![c]).skip(1) =~= Seq::<char>::empty());
        assert(spec_skip_ws((seq![c]).skip(1)) =~= Seq::<char>::empty());
    } else if is_whitespace_char(s[0]) {
        assert((s + seq![c])[0] == s[0]);
        assert((s + seq![c]).skip(1) =~= s.skip(1) + seq![c]);
        lemma_skip_ws_append(s.skip(1), c);
    } else {
        assert((s + seq![c])[0] == s[0]);
        assert(spec_skip_ws(s + seq![c]) == s + seq![c]);
    }
}

proof fn lemma_scan_append_ws(s: Seq<char>, q: Option<char>, acc: Seq<char>, c: char)
    requires
        is_whitespace_char(c),
        !spec_ch_is_quote(c),
        c != '\\',
        q matches Some(qq) ==> spec_ch_is_quote(qq),
        !spec_scan_dangling(s, q),
    ensures
        ({
            let (o1, r1) = spec_scan(s, q, acc);
            let (o2, r2) = spec_scan(s + seq![c], q, acc);
            &&& o2 == o1
            &&& (r2 == r1 || r2 == r1 + seq![c])
        }),
    decreases s.len(),
{
    let t = s + seq![c];
    if s.len() == 0 {
        assert(t =~= seq![c]);
        assert(t[0] == c);
        if q is Some {
            assert(t.skip(1) =~= Seq::<char>::empty());
            assert(spec_scan(t.skip(1), q, acc.push(c)) == (
                Some(Result::<Seq<char>, SyntaxError>::Err(SyntaxError)),
                Seq::<char>::empty(),
            ));
        } else {
            assert(Seq::<char>::empty() + seq![c] =~= t);
        }
    } else {
        let ch = s[0];
        assert(t[0] == ch);
        if ch == '\\' {
            let x = s[1];
            assert(t[1] == x);
            assert(t.skip(2) =~= s.skip(2) + seq![c]);
            if x == 'n' {
                lemma_scan_append_ws(s.skip(2), q, acc.push('\n'), c);
            } else if x == 't' {
                lemma_scan_append_ws(s.skip(2), q, acc.push('\t'), c);
            } else if x == 'r' {
                lemma_scan_append_ws(s.skip(2), q, acc.push('\r'), c);
            } else if q is Some && is_whitespace_char(x) {
                lemma_scan_append_ws(s.skip(2), q, acc, c);
            } else {
                lemma_scan_append_ws(s.skip(2), q, acc.push(x), c);
            }
        } else if q is None {
            if spec_ch_is_quote(ch) {
                assert(t.skip(1) =~= s.skip(1) + seq![c]);
                lemma_scan_append_ws(s.skip(1), Some(ch), acc, c);
            } else if is_whitespace_char(ch) {
                assert(spec_scan(t, q, acc).1 == t);
            } else {
                assert(t.skip(1) =~= s.skip(1) + seq![c]);
                lemma_scan_append_ws(s.skip(1), Option::None, acc.push(ch), c);
            }
        } else if ch == q.unwrap() {
            if s.len() == 1 {
                assert(t[1] == c);
                assert(t.skip(1) =~= seq![c]);
                assert(Seq::<char>::empty() + seq![c] =~= seq![c]);
            } else {
                let x = s[1];
                assert(t[1] == x);
                if is_whitespace_char(x) {
                    assert(t.skip(1) =~= s.skip(1) + seq![c]);
                } else if spec_ch_is_quote(x) {
                    assert(t.skip(2) =~= s.skip(2) + seq![c]);
                    lemma_scan_append_ws(s.skip(2), Some(x), acc, c);
                } else {
                    assert(t.skip(2) =~= s.skip(2) + seq![c]);
                    lemma_scan_append_ws(s.skip(2), Option::None, acc.push(x), c);
                }
            }
        } else {
            assert(t.skip(1) =~= s.skip(1) + seq![c]);
            lemma_scan_append_ws(s.skip(1), q, acc.push(ch), c);
        }
    }
}

/// Trailing white space is ignored: one more white-space character at the
/// end of the input changes neither the words nor the error, as long as no
/// pull of the input ends in a trailing lone backslash.  (On input that
/// does, the added character would be consumed by that backslash instead of
/// leaving the error in place.)
pub proof fn lemma_trailing_ws_ignored(s: Seq<char>, c: char)
    requires
        is_whitespace_char(c),
        !spec_ch_is_quote(c),
        c != '\\',
        spec_tokens_clean(s),
    ensures
        spec_tokens(s + seq![c]) == spec_tokens(s),
    decreases s.len(),
{
    lemma_skip_ws_append(s, c);
    let g = spec_skip_ws(s);
    if g.len() == 0 {
        assert(spec_skip_ws(s + seq![c]) =~= Seq::<char>::empty());
    } else {
        lemma_scan_append_ws(g, Option::None, Seq::empty(), c);
        let (out, rest) = spec_pull(s);
        let (out2, rest2) = spec_pull(s + seq![c]);
        lemma_pull_consumes(s);
        lemma_pull_consumes(s + seq![c]);
        if out matches Some(Ok(_)) {
            if rest2 == rest + seq![c] {
                lemma_trailing_ws_ignored(rest, c);
            }
        }
    }
}

proof fn lemma_scan_quoted_run(seg: Seq<char>, rest: Seq<char>, q: char, acc: Seq<char>)
    requires
        spec_ch_is_quote(q),
        forall|j: int| 0 <= j < seg.len() ==> #[trigger] seg[j] != q && seg[j] != '\\',
    ensures
        spec_scan(seg + rest, Some(q), acc) == spec_scan(rest, Some(q), acc + seg),
    decreases seg.len(),
{
    if seg.len() == 0 {
        assert(seg + rest =~= rest);
        assert(acc + seg =~= acc);
    } else {
        let s = seg + rest;
        assert(s[0] == seg[0]);
        assert(s.skip(1) =~= seg.skip(1) + rest);
        lemma_scan_quoted_run(seg.skip(1), rest, q, acc.push(seg[0]));
        assert(acc.push(seg[0]) + seg.skip(1) =~= acc + seg);
    }
}

proof fn lemma_scan_unquoted_run(seg: Seq<char>, rest: Seq<char>, acc: Seq<char>)
    requires
        forall|j: int|
            0 <= j < seg.len() ==> !spec_ch_is_quote(#[trigger] seg[j]) && seg[j] != '\\'
                && !is_whitespace_char(seg[j]),
    ensures
        spec_scan(seg + rest, Option::None, acc) == spec_scan(rest, Option::None, acc + seg),
    decreases seg.len(),
{
    if seg.len() == 0 {
        assert(seg + rest =~= rest);
        assert(acc + seg =~= acc);
    } else {
        let s = seg + rest;
        assert(s[0] == seg[0]);
        assert(s.skip(1) =~= seg.skip(1) + rest);
        lemma_scan_unquoted_run(seg.skip(1), rest, acc.push(seg[0]));
        assert(acc.push(seg[0]) + seg.skip(1) =~= acc + seg);
    }
}

/// Two adjacent, possibly differently-quoted segments within one word
/// concatenate into a single word with no separator in between: scanning
/// `q1 a q1 q2 b q2` as one word yields exactly the content `a + b`
/// (skipped, as every empty word is, when both segments are empty).
pub proof fn lemma_quote_adjacent_concat(q1: char, a: Seq<char>, q2: char, b: Seq<char>)
    requires
        spec_ch_is_quote(q1),
        spec_ch_is_quote(q2),
        !is_whitespace_char(q2),
        forall|j: int| 0 <= j < a.len() ==> #[trigger] a[j] != q1 && a[j] != '\\',
        forall|j: int| 0 <= j < b.len() ==> #[trigger] b[j] != q2 && b[j] != '\\',
    ensures
        spec_scan(seq![q1] + a + seq![q1, q2] + b + seq![q2], Option::None, Seq::empty()) == (
            spec_finalize(a + b),
            Seq::<char>::empty(),
        ),
{
    let s = seq![q1] + a + seq![q1, q2] + b + seq![q2];
    assert(s[0] == q1);
    assert(s.skip(1) =~= a + (seq![q1, q2] + b + seq![q2]));
    lemma_scan_quoted_run(a, seq![q1, q2] + b + seq![q2], q1, Seq::empty());
    let s2 = seq![q1, q2] + b + seq![q2];
    assert(s2[0] == q1);
    assert(s2[1] == q2);
    assert(s2.skip(2) =~= b + seq![q2]);
    lemma_scan_quoted_run(b, seq![q2], q2, Seq::empty() + a);
    assert((seq![q2])[0] == q2);
    assert((Seq::empty() + a) + b =~= a + b);
    assert(Seq::empty() + a =~= a);
}

/// A quote that is never closed yields the syntax error and leaves no
/// input: scanning a word that opens with `q` and never holds `q` again
/// ends in the error, whatever else the word holds.
pub proof fn lemma_unterminated_quote(q: char, t: Seq<char>)
    requires
        spec_ch_is_quote(q),
        forall|j: int| 0 <= j < t.len() ==> #[trigger] t[j] != q && t[j] != '\\',
    ensures
        spec_scan(seq![q] + t, Option::None, Seq::empty()) == (
            Some(Result::<Seq<char>, SyntaxError>::Err(SyntaxError)),
            Seq::<char>::empty(),
        ),
{
    let s = seq![q] + t;
    assert(s[0] == q);
    assert(s.skip(1) =~= t + Seq::<char>::empty());
    lemma_scan_quoted_run(t, Seq::empty(), q, Seq::empty());
}

/// A lone backslash at the very end of a word yields the syntax error and
/// leaves no input.
pub proof fn lemma_trailing_backslash(t: Seq<char>)
    requires
        forall|j: int|
            0 <= j < t.len() ==> !spec_ch_is_quote(#[trigger] t[j]) && t[j] != '\\'
                && !is_whitespace_char(t[j]),
    ensures
        spec_scan(t + seq!['\\'], Option::None, Seq::empty()) == (
            Some(Result::<Seq<char>, SyntaxError>::Err(SyntaxError)),
            Seq::<char>::empty(),
        ),
{
    lemma_scan_unquoted_run(t, seq!['\\'], Seq::empty());
    assert((seq!['\\'])[0] == '\\');
    assert((seq!['\\']).len() == 1);
}

/// A lazy, pull-based splitter of a command line into shell-style words.
/// Its only state is the input not yet consumed.
pub struct ShellwordSplitter<'a> {
    input: &'a str,
}

impl<'a> View for ShellwordSplitter<'a> {
    type V = Seq<char>;

    /// The remaining unconsumed input.
    closed spec fn view(&self) -> Seq<char> {
        self.input@
    }
}

proof fn lemma_skip_ws_at(s: Seq<char>, k: int)
    requires
        0 <= k <= s.len(),
        forall|j: int| 0 <= j < k ==> is_whitespace_char(#[trigger] s[j]),
        k < s.len() ==> !is_whitespace_char(s[k]),
    ensures
        spec_skip_ws(s) == s.skip(k),
    decreases k,
{
    if k == 0 {
        assert(s.skip(0) =~= s);
    } else {
        lemma_skip_ws_at(s.skip(1), k - 1);
        assert(s.skip(1).skip(k - 1) =~= s.skip(k));
    }
}

proof fn lemma_plain_skip_ws(s: Seq<char>)
    requires
        spec_is_plain(s),
    ensures
        spec_is_plain(spec_skip_ws(s)),
    decreases s.len(),
{
    if s.len() > 0 && is_whitespace_char(s[0]) {
        assert(spec_is_plain(s.skip(1)));
        lemma_plain_skip_ws(s.skip(1));
    }
}

impl<'a> ShellwordSplitter<'a> {
    /// Starts a splitter over the whole of `input`.
    pub fn new(input: &'a str) -> (r: Self)
        ensures
            r@ == input@,
    {
        ShellwordSplitter { input }
    }

    fn skip_whitespace(&mut self)
        ensures
            final(self)@ == spec_skip_ws(old(self)@),
    {
        let s: &'a str = self.input;
        let n = s.unicode_len();
        let mut i: usize = 0;
        while i < n && s.get_char(i).is_whitespace()
            invariant
                i <= n,
                n == s@.len(),
                forall|j: int| 0 <= j < i ==> is_whitespace_char(#[trigger] s@[j]),
            decreases n - i,
        {
            i += 1;
        }
        proof {
            lemma_skip_ws_at(s@, i as int);
        }
        let rest = s.substring_char(i, n);
        proof {
            assert(rest@ =~= s@.skip(i as int));
        }
        self.input = rest;
    }

    /// Produces the next word of the input, `None` once nothing is left, or
    /// the syntax error for an unterminated quote or a trailing backslash.
    /// On input free of quotes and backslashes every produced word is a
    /// borrowed, allocation-free slice of the input.
    pub fn next(&mut self) -> (r: Option<Result<Cow<'a, str>, SyntaxError>>)
        ensures
            final(self)@ == spec_pull(old(self)@).1,
            match r {
                None => spec_pull(old(self)@).0 is None,
                Some(Ok(c)) => spec_pull(old(self)@).0 == Some(
                    Result::<Seq<char>, SyntaxError>::Ok(c@),
                ),
                Some(Err(_)) => spec_pull(old(self)@).0 == Some(
                    Result::<Seq<char>, SyntaxError>::Err(SyntaxError),
                ),
            },
            spec_is_plain(old(self)@) ==> match r {
                Some(Ok(c)) => c matches Cow::Borrowed(_),
                _ => true,
            },
    {
        proof {
            if spec_is_plain(old(self)@) {
                lemma_plain_skip_ws(old(self)@);
            }
        }
        self.skip_whitespace();
        let rem: &'a str = self.input;
        let ghost g: Seq<char> = rem@;
        proof {
            assert(g == spec_skip_ws(old(self)@));
        }
        let ghost goal = spec_scan(g, Option::None, Seq::empty());
        proof {
            assert(goal == spec_pull(old(self)@));
        }
        let n = rem.unicode_len();
        let mut i: usize = 0;
        let mut quotec: Option<char> = None;
        let mut ret = Shard::new(rem);
        let ghost mut d: int = 0;
        proof {
            assert(g.skip(0) =~= g);
        }
        while i < n
            invariant
                i <= n,
                n == g.len(),
                rem@ == g,
                goal == spec_pull(old(self)@),
                spec_is_plain(old(self)@) ==> spec_is_plain(g),
                ret.wf(),
                spec_scan(g.skip(i as int), quotec, ret@) == goal,
                ret.is_borrowed() ==> {
                    &&& 0 <= d
                    &&& d + ret@.len() <= i
                    &&& ret.src() == g.skip(d)
                },
                (quotec is None && ret.is_borrowed() && ret.spec_slen() == 0) ==> d == i,
                spec_is_plain(g) ==> {
                    &&& quotec is None
                    &&& ret.is_borrowed()
                    &&& d == 0
                    &&& ret@.len() == i
                },
            decreases n - i,
        {
            let ghost s_i = g.skip(i as int);
            proof {
                assert(s_i.len() == n - i);
                assert(s_i[0] == g[i as int]);
            }
            let cx = rem.get_char(i);
            if cx == '\\' {
                if i + 1 >= n {
                    let rest = rem.substring_char(n, n);
                    proof {
                        assert(rest@ =~= Seq::<char>::empty());
                        assert(s_i.len() == 1);
                        assert(spec_scan(s_i, quotec, ret@) == (
                            Some(Result::<Seq<char>, SyntaxError>::Err(SyntaxError)),
                            Seq::<char>::empty(),
                        ));
                    }
                    self.input = rest;
                    return Some(Err(SyntaxError));
                }
                let x = rem.get_char(i + 1);
                proof {
                    assert(s_i[1] == g[i + 1]);
                    assert(g.skip(i as int).skip(2) =~= g.skip(i + 2));
                }
                if x == 'n' {
                    ret.push_owned('\n');
                } else if x == 't' {
                    ret.push_owned('\t');
                } else if x == 'r' {
                    ret.push_owned('\r');
                } else if quotec.is_some() && x.is_whitespace() {
                    // the escaped white space is dropped entirely
                } else {
                    ret.push_owned(x);
                }
                i += 2;
            } else if quotec.is_none() {
                if ch_is_quote(cx) {
                    proof {
                        broadcast use vstd::utf8::encode_utf8_decode_utf8;

                        assert(g.skip(i as int).skip(1) =~= g.skip(i + 1));
                        if ret.is_borrowed() && ret.spec_slen() == 0 {
                            // the window still starts at the cursor, whose first
                            // character is the one-byte quote delimiter
                            let src = ret.src();
                            assert(src == g.skip(i as int));
                            assert(src[0] == cx);
                            assert(src.take(1) =~= seq![cx]);
                            crate::lemma_encode_singleton(cx);
                            assert(vstd::utf8::encode_scalar(cx as u32).len() == 1);
                            crate::lemma_take_boundary(src, 1);
                            crate::lemma_encode_take_skip(src, 1);
                            assert(vstd::utf8::encode_utf8(src).skip(1)
                                =~= vstd::utf8::encode_utf8(src.skip(1)));
                            assert(vstd::utf8::decode_utf8(
                                vstd::utf8::encode_utf8(src.skip(1)),
                            ) == src.skip(1));
                            assert(g.skip(d).skip(1) =~= g.skip(d + 1));
                        }
                    }
                    quotec = Some(cx);
                    ret.skip(1);
                    proof {
                        if ret.is_borrowed() && ret.spec_slen() == 0 {
                            d = d + 1;
                        }
                    }
                    i += 1;
                } else if cx.is_whitespace() {
                    let t = ret.finish_cvg();
                    let rest = rem.substring_char(i, n);
                    proof {
                        assert(rest@ =~= g.skip(i as int));
                    }
                    self.input = rest;
                    return match t {
                        Some(c) => Some(Ok(c)),
                        None => None,
                    };
                } else {
                    proof {
                        assert(g.skip(i as int).skip(1) =~= g.skip(i + 1));
                    }
                    ret.push(cx);
                    i += 1;
                }
            } else {
                let qc = *quotec.as_ref().unwrap();
                if cx == qc {
                    // the quote closes; look one character ahead
                    if i + 1 >= n {
                        let t = ret.finish_cvg();
                        let rest = rem.substring_char(n, n);
                        proof {
                            assert(rest@ =~= Seq::<char>::empty());
                        }
                        self.input = rest;
                        return match t {
                            Some(c) => Some(Ok(c)),
                            None => None,
                        };
                    }
                    let nx = rem.get_char(i + 1);
                    proof {
                        assert(s_i[1] == g[i + 1]);
                        assert(g.skip(i as int).skip(2) =~= g.skip(i + 2));
                        assert(g.skip(i as int).skip(1) =~= g.skip(i + 1));
                    }
                    if nx.is_whitespace() {
                        let t = ret.finish_cvg();
                        let rest = rem.substring_char(i + 1, n);
                        proof {
                            assert(rest@ =~= g.skip(i + 1));
                        }
                        self.input = rest;
                        return match t {
                            Some(c) => Some(Ok(c)),
                            None => None,
                        };
                    } else if ch_is_quote(nx) {
                        quotec = Some(nx);
                        i += 2;
                    } else {
                        quotec = None;
                        ret.push_owned(nx);
                        i += 2;
                    }
                } else {
                    proof {
                        assert(g.skip(i as int).skip(1) =~= g.skip(i + 1));
                    }
                    ret.push(cx);
                    i += 1;
                }
            }
        }
        proof {
            assert(g.skip(i as int).len() == 0);
            assert(g.skip(i as int) =~= Seq::<char>::empty());
        }
        let rest = rem.substring_char(n, n);
        proof {
            assert(rest@ =~= Seq::<char>::empty());
        }
        self.input = rest;
        if quotec.is_some() {
            return Some(Err(SyntaxError));
        }
        let t = ret.finish_cvg();
        match t {
            Some(c) => Some(Ok(c)),
            None => None,
        }
    }
}

} // verus!
