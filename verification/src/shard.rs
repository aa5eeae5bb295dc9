use vstd::prelude::*;
use vstd::string::StringSliceAdditionalSpecFns;
use vstd::string::StrSliceExecFns;
use vstd::utf8::is_char_boundary;
use vstd::utf8::encode_utf8;
use vstd::utf8::encode_scalar;
use vstd::utf8::decode_utf8;
use vstd::utf8::valid_utf8;
use vstd::utf8::encode_utf8_valid_utf8;
use vstd::utf8::encode_utf8_decode_utf8;
use vstd::utf8::decode_utf8_encode_utf8;
use vstd::utf8::valid_utf8_split;
use vstd::utf8::decode_utf8_split;
use crate::lemma_encode_concat;
use crate::lemma_encode_take_skip;
use crate::lemma_take_boundary;
use crate::lemma_encode_len_zero;
use crate::lemma_encode_singleton;
use crate::char_utf8_len;
use std::borrow::Cow;

verus! {

/// Relies on `String::push` from std: it appends the given character to the
/// end of the string, as its documentation states.
pub assume_specification[ String::push ](s: &mut String, ch: char)
    ensures
        final(s)@ == old(s)@.push(ch),
;

/// A copy-on-write accumulator for one token.
///
/// While the token's content is a verbatim prefix of the text the shard was
/// anchored at, the shard stays `Borrowed` and records in `slen` how many of
/// the leading bytes of that text are confirmed part of the token.  As soon
/// as the content diverges from the source text, the shard is promoted to
/// `Owned` and never reverts.  `slen`, `len` and `skip` all count bytes.
pub enum Shard<'a> {
    Borrowed { whole: &'a str, slen: usize },
    Owned(String),
}

impl<'a> Shard<'a> {
    /// A borrowed shard claims no more bytes than its source holds, its
    /// claim ends on a character boundary, and `slen` is exactly the encoded
    /// byte length of the confirmed content.
    pub open spec fn wf(&self) -> bool {
        match *self {
            Shard::Borrowed { whole, slen } => slen <= whole.spec_bytes().len()
                && is_char_boundary(whole.spec_bytes(), slen as int) && slen == encode_utf8(
                decode_utf8(whole.spec_bytes().subrange(0, slen as int)),
            ).len(),
            Shard::Owned(_) => true,
        }
    }

    /// Whether the accumulated content is still a verbatim prefix of the source.
    pub open spec fn is_borrowed(&self) -> bool {
        self matches Shard::Borrowed { .. }
    }

    /// The source text the borrowed window currently starts at.
    pub open spec fn src(&self) -> Seq<char> {
        match *self {
            Shard::Borrowed { whole, .. } => whole@,
            Shard::Owned(_) => Seq::empty(),
        }
    }

    /// The number of confirmed bytes of a borrowed shard.
    pub open spec fn spec_slen(&self) -> nat {
        match *self {
            Shard::Borrowed { slen, .. } => slen as nat,
            Shard::Owned(_) => 0,
        }
    }
}

impl<'a> View for Shard<'a> {
    type V = Seq<char>;

    /// The token content accumulated so far: the characters of the confirmed
    /// bytes, or the owned buffer.
    open spec fn view(&self) -> Seq<char> {
        match *self {
            Shard::Borrowed { whole, slen } => decode_utf8(
                whole.spec_bytes().subrange(0, slen as int),
            ),
            Shard::Owned(ref owned) => owned@,
        }
    }
}

/// What splitting the encoding of `w` at the byte boundary `slen` yields:
/// the two halves are valid, decode to a prefix and the matching suffix of
/// `w`, and encode back to themselves.
proof fn lemma_split_facts(w: Seq<char>, slen: int)
    requires
        0 <= slen <= encode_utf8(w).len(),
        is_char_boundary(encode_utf8(w), slen),
    ensures
        ({
            let bytes = encode_utf8(w);
            let pre = bytes.subrange(0, slen);
            let suf = bytes.subrange(slen, bytes.len() as int);
            let k = decode_utf8(pre).len() as int;
            &&& valid_utf8(bytes) && valid_utf8(pre) && valid_utf8(suf)
            &&& encode_utf8(decode_utf8(pre)) == pre
            &&& encode_utf8(decode_utf8(suf)) == suf
            &&& 0 <= k <= w.len()
            &&& decode_utf8(pre) == w.take(k)
            &&& decode_utf8(suf) == w.skip(k)
        }),
{
    broadcast use
        encode_utf8_valid_utf8,
        encode_utf8_decode_utf8,
        decode_utf8_encode_utf8,
        valid_utf8_split,
        decode_utf8_split,
    ;

    let bytes = encode_utf8(w);
    let pre = bytes.subrange(0, slen);
    let suf = bytes.subrange(slen, bytes.len() as int);
    assert(decode_utf8(bytes) == w);
    assert(w =~= decode_utf8(pre) + decode_utf8(suf));
    let k = decode_utf8(pre).len() as int;
    assert(decode_utf8(pre) =~= w.take(k));
    assert(decode_utf8(suf) =~= w.skip(k));
}

impl<'a> Shard<'a> {
    /// Starts an empty token anchored at `whole`.
    pub fn new(whole: &'a str) -> (r: Self)
        ensures
            r.wf(),
            r@ =~= Seq::<char>::empty(),
            r.is_borrowed(),
            r.src() == whole@,
            r.spec_slen() == 0,
    {
        proof {
            broadcast use encode_utf8_valid_utf8;

            lemma_split_facts(whole@, 0);
            assert(whole@.take(0) =~= Seq::<char>::empty());
        }
        Shard::Borrowed { whole, slen: 0 }
    }

    /// The length of the accumulated content, in bytes: the confirmed `slen`
    /// of a borrowed shard, the buffer's byte length of an owned one.
    pub fn len(&self) -> (r: usize)
        requires
            self.wf(),
        ensures
            r == encode_utf8(self@).len(),
    {
        match self {
            Shard::Borrowed { whole, slen } => {
                proof {
                    lemma_split_facts(whole@, *slen as int);
                }
                *slen
            },
            Shard::Owned(owned) => {
                let r = owned.as_str().as_bytes().len();
                proof {
                    broadcast use vstd::slice::axiom_spec_len;

                }
                r
            },
        }
    }

    /// Whether no content has been accumulated yet.
    pub fn is_empty(&self) -> (r: bool)
        requires
            self.wf(),
        ensures
            r == (self@.len() == 0),
    {
        proof {
            lemma_encode_len_zero(self@);
        }
        self.len() == 0
    }

    /// Advances the borrowed window past `len` bytes without adding them to
    /// the token.  Meaningful only while still borrowed with no confirmed
    /// content (used to drop an opening quote); otherwise it does nothing.
    pub fn skip(&mut self, len: usize)
        requires
            old(self).wf(),
            (old(self).is_borrowed() && old(self).spec_slen() == 0) ==> (len <= encode_utf8(
                old(self).src(),
            ).len() && is_char_boundary(encode_utf8(old(self).src()), len as int)),
        ensures
            final(self).wf(),
            final(self)@ == old(self)@,
            final(self).is_borrowed() == old(self).is_borrowed(),
            final(self).spec_slen() == old(self).spec_slen(),
            final(self).is_borrowed() ==> final(self).src() == (if old(self).spec_slen() == 0 {
                decode_utf8(encode_utf8(old(self).src()).skip(len as int))
            } else {
                old(self).src()
            }),
    {
        let mut tmp = Shard::Owned(String::new());
        std::mem::swap(self, &mut tmp);
        *self = match tmp {
            Shard::Borrowed { whole, slen } => {
                if slen == 0 {
                    let (_, rest) = whole.split_at(len);
                    proof {
                        broadcast use encode_utf8_valid_utf8, encode_utf8_decode_utf8;

                        lemma_split_facts(whole@, len as int);
                        let bytes = encode_utf8(whole@);
                        assert(rest.spec_bytes() =~= bytes.skip(len as int));
                        assert(decode_utf8(encode_utf8(rest@)) == rest@);
                        lemma_split_facts(rest@, 0);
                        assert(rest@.take(0) =~= Seq::<char>::empty());
                        assert(whole@.take(0) =~= Seq::<char>::empty());
                    }
                    Shard::Borrowed { whole: rest, slen: 0 }
                } else {
                    Shard::Borrowed { whole, slen }
                }
            },
            Shard::Owned(owned) => Shard::Owned(owned),
        };
    }

    /// Appends `ch`, promoting the shard to `Owned` first if it is not already.
    pub fn push_owned(&mut self, ch: char)
        requires
            old(self).wf(),
        ensures
            final(self).wf(),
            final(self)@ == old(self)@.push(ch),
            !final(self).is_borrowed(),
    {
        let mut tmp = Shard::Owned(String::new());
        std::mem::swap(self, &mut tmp);
        let mut owned: String = match tmp {
            Shard::Borrowed { whole, slen } => {
                let (pre, _) = whole.split_at(slen);
                proof {
                    broadcast use encode_utf8_decode_utf8;

                    lemma_split_facts(whole@, slen as int);
                    assert(decode_utf8(encode_utf8(pre@)) == pre@);
                }
                pre.to_owned()
            },
            Shard::Owned(owned) => owned,
        };
        owned.push(ch);
        *self = Shard::Owned(owned);
    }

    /// Appends `ch`, staying borrowed exactly when `ch` is the next source
    /// character after the confirmed prefix (growing `slen` by the encoded
    /// width of `ch`); otherwise promotes to `Owned`.
    pub fn push(&mut self, ch: char)
        requires
            old(self).wf(),
        ensures
            final(self).wf(),
            final(self)@ == old(self)@.push(ch),
            final(self).is_borrowed() <==> (old(self).is_borrowed()
                && old(self)@.len() < old(self).src().len()
                && old(self).src()[old(self)@.len() as int] == ch),
            final(self).is_borrowed() ==> {
                &&& final(self).src() == old(self).src()
                &&& final(self).spec_slen() == old(self).spec_slen() + encode_scalar(
                    ch as u32,
                ).len()
                &&& final(self).spec_slen() >= old(self).spec_slen() + 1
            },
    {
        let mut tmp = Shard::Owned(String::new());
        std::mem::swap(self, &mut tmp);
        *self = match tmp {
            Shard::Borrowed { whole, slen } => {
                let total = whole.as_bytes().len();
                proof {
                    broadcast use vstd::slice::axiom_spec_len, encode_utf8_decode_utf8;

                    lemma_split_facts(whole@, slen as int);
                }
                let (pre, rest) = whole.split_at(slen);
                let restb = rest.as_bytes().len();
                proof {
                    assert(decode_utf8(encode_utf8(rest@)) == rest@);
                    assert(decode_utf8(encode_utf8(pre@)) == pre@);
                    lemma_encode_len_zero(rest@);
                }
                if restb > 0 && rest.get_char(0) == ch {
                    let w0 = char_utf8_len(ch);
                    proof {
                        let w = whole@;
                        let k = old(self)@.len() as int;
                        assert(rest@ == w.skip(k));
                        assert(w[k] == ch);
                        assert(w.take(k + 1) =~= w.take(k).push(ch));
                        assert(w.take(k).push(ch) =~= w.take(k) + seq![ch]);
                        lemma_encode_concat(w.take(k), seq![ch]);
                        lemma_encode_singleton(ch);
                        assert(encode_utf8(w.take(k + 1)).len() == slen + w0);
                        lemma_encode_take_skip(w, k + 1);
                        lemma_take_boundary(w, k + 1);
                        let bytes = encode_utf8(w);
                        assert(bytes.subrange(0, slen + w0) =~= encode_utf8(w.take(k + 1)));
                        assert(decode_utf8(encode_utf8(w.take(k + 1))) == w.take(k + 1));
                    }
                    Shard::Borrowed { whole, slen: slen + w0 }
                } else {
                    let mut owned = pre.to_owned();
                    owned.push(ch);
                    Shard::Owned(owned)
                }
            },
            Shard::Owned(mut owned) => {
                owned.push(ch);
                Shard::Owned(owned)
            },
        };
    }

    /// Finalizes the token as a copy-on-write string: the confirmed borrowed
    /// slice where no divergence occurred, the owned buffer otherwise, and a
    /// borrowed empty string for an empty token.
    pub fn finish(self) -> (r: Cow<'a, str>)
        requires
            self.wf(),
        ensures
            r@ == self@,
            (r matches Cow::Borrowed(_)) <==> (self.is_borrowed() || self@.len() == 0),
    {
        match self {
            Shard::Borrowed { whole, slen } => {
                let (pre, _) = whole.split_at(slen);
                proof {
                    broadcast use encode_utf8_decode_utf8;

                    lemma_split_facts(whole@, slen as int);
                    assert(decode_utf8(encode_utf8(pre@)) == pre@);
                }
                Cow::Borrowed(pre)
            },
            Shard::Owned(owned) => {
                let b = owned.as_str().as_bytes().len();
                proof {
                    broadcast use vstd::slice::axiom_spec_len;

                    lemma_encode_len_zero(owned@);
                }
                if b == 0 {
                    proof {
                        reveal_strlit("");
                        assert(owned@ =~= ""@);
                    }
                    Cow::Borrowed("")
                } else {
                    Cow::Owned(owned)
                }
            },
        }
    }

    /// Finalizes like `finish`, but yields nothing for an empty token, so that
    /// a token that ends up empty is skipped rather than emitted.
    pub(crate) fn finish_cvg(self) -> (r: Option<Cow<'a, str>>)
        requires
            self.wf(),
        ensures
            self@.len() == 0 <==> r is None,
            r matches Some(c) ==> c@ == self@,
            r matches Some(c) ==> ((c matches Cow::Borrowed(_)) <==> self.is_borrowed()),
    {
        if self.is_empty() {
            None
        } else {
            Some(self.finish())
        }
    }
}

} // verus!

