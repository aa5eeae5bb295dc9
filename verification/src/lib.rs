use vstd::prelude::*;
use vstd::string::StringSliceAdditionalSpecFns;
use vstd::string::StrSliceExecFns;
use vstd::utf8::is_char_boundary;
use vstd::utf8::encode_utf8;
use vstd::utf8::encode_scalar;
use vstd::utf8::pop_first_scalar;
use vstd::utf8::encode_utf8_first_scalar;
use vstd::utf8::encode_utf8_valid_utf8;
use vstd::utf8::encode_utf8_decode_utf8;
use vstd::utf8::char_is_scalar;
use vstd::utf8::decode_utf8;
use unicode_normalization::UnicodeNormalization;

mod shard;
pub use shard::Shard;

mod shwsplit;
pub use shwsplit::{ShellwordSplitter, SyntaxError, SyntaxError as SimpleSyntaxError};

mod advanpeekiter;
pub use advanpeekiter::{AdvanPeekIter, TakeWhile};

verus! {

/// Membership of a character in `XID_Start`, as decided by
/// `unicode_ident::is_xid_start`; left abstract because the table is part of
/// the Unicode character database.
pub uninterp spec fn xid_start(c: char) -> bool;

/// Membership of a character in `XID_Continue`, as decided by
/// `unicode_ident::is_xid_continue`; left abstract for the same reason.
pub uninterp spec fn xid_continue(c: char) -> bool;

/// Relies on `unicode_ident::is_xid_start`: it decides the `XID_Start`
/// property of the character, a function of the character alone.  Every
/// `XID_Start` character is also `XID_Continue` (Unicode Standard Annex 31,
/// on which the crate documents itself): an identifier may continue with any
/// character it may start with.
pub assume_specification[ unicode_ident::is_xid_start ](ch: char) -> (r: bool)
    ensures
        r == xid_start(ch),
        r ==> xid_continue(ch),
;

/// Relies on `unicode_ident::is_xid_continue`: it decides the `XID_Continue`
/// property of the character, a function of the character alone.
pub assume_specification[ unicode_ident::is_xid_continue ](ch: char) -> (r: bool)
    ensures
        r == xid_continue(ch),
;

/// The NFKC normalization of a character sequence, as computed by
/// `unicode_normalization`; left abstract because normalization is defined by
/// the full Unicode character database, and it depends on the characters
/// alone.
pub uninterp spec fn nfkc_of(s: Seq<char>) -> Seq<char>;

/// Relies on `UnicodeNormalization::nfkc` of the `unicode-normalization`
/// crate: it yields the characters of the string recomposed in Normalization
/// Form KC, a function of the characters alone.  Normalizing nonempty text
/// gives nonempty text: no decomposition mapping is empty, and composition
/// never removes all characters (Unicode Standard Annex 15).
#[verifier::external_body]
fn nfkc_str(s: &str) -> (r: String)
    ensures
        r@ == nfkc_of(s@),
        s@.len() > 0 ==> r@.len() > 0,
{
    s.nfkc().collect()
}

pub(crate) proof fn lemma_encode_concat(a: Seq<char>, b: Seq<char>)
    ensures
        encode_utf8(a + b) == encode_utf8(a) + encode_utf8(b),
    decreases a.len(),
{
    if a.len() == 0 {
        assert(a + b =~= b);
        assert(encode_utf8(a) + encode_utf8(b) =~= encode_utf8(b));
    } else {
        let ab = a + b;
        assert(ab[0] == a[0]);
        assert(ab.drop_first() =~= a.drop_first() + b);
        lemma_encode_concat(a.drop_first(), b);
        assert(encode_scalar(a[0] as u32) + (encode_utf8(a.drop_first()) + encode_utf8(b)) =~= (
        encode_scalar(a[0] as u32) + encode_utf8(a.drop_first())) + encode_utf8(b));
    }
}

pub(crate) proof fn lemma_encode_take_skip(s: Seq<char>, k: int)
    requires
        0 <= k <= s.len(),
    ensures
        encode_utf8(s) == encode_utf8(s.take(k)) + encode_utf8(s.skip(k)),
        encode_utf8(s.take(k)).len() <= encode_utf8(s).len(),
{
    assert(s =~= s.take(k) + s.skip(k));
    lemma_encode_concat(s.take(k), s.skip(k));
}

pub(crate) proof fn lemma_encode_scalar_len(c: char)
    ensures
        1 <= encode_scalar(c as u32).len() <= 4,
{
}

pub(crate) proof fn lemma_take_boundary(s: Seq<char>, k: int)
    requires
        0 <= k <= s.len(),
    ensures
        is_char_boundary(encode_utf8(s), encode_utf8(s.take(k)).len() as int),
    decreases k,
{
    broadcast use encode_utf8_valid_utf8;

    if k == 0 {
        assert(s.take(0) =~= Seq::<char>::empty());
    } else {
        let bytes = encode_utf8(s);
        encode_utf8_first_scalar(s);
        assert(pop_first_scalar(bytes) =~= encode_utf8(s.drop_first()));
        lemma_take_boundary(s.drop_first(), k - 1);
        assert(s.take(k)[0] == s[0]);
        assert(s.take(k).drop_first() =~= s.drop_first().take(k - 1));
        lemma_encode_take_skip(s, k);
        lemma_encode_scalar_len(s[0]);
    }
}

pub(crate) proof fn lemma_encode_len_zero(s: Seq<char>)
    ensures
        (encode_utf8(s).len() == 0) <==> (s.len() == 0),
{
    if s.len() > 0 {
        lemma_encode_scalar_len(s[0]);
    }
}

pub(crate) proof fn lemma_encode_singleton(c: char)
    ensures
        encode_utf8(seq![c]) == encode_scalar(c as u32),
{
    assert((seq![c]).drop_first() =~= Seq::<char>::empty());
    assert(encode_utf8(Seq::<char>::empty()) =~= Seq::<u8>::empty());
    assert(encode_utf8(seq![c]) =~= encode_scalar(c as u32));
}

/// The number of bytes of the UTF-8 encoding of `c`.
pub(crate) fn char_utf8_len(c: char) -> (r: usize)
    ensures
        r == encode_scalar(c as u32).len(),
        1 <= r <= 4,
{
    proof {
        char_is_scalar(c);
    }
    let u = c as u32;
    if u < 0x80 {
        1
    } else if u < 0x800 {
        2
    } else if u < 0x10000 {
        3
    } else {
        4
    }
}

/// Counts the number of bytes of the longest prefix of `inp` whose
/// characters all got accepted by `f`; the count always falls on a character
/// boundary of `inp`.
pub fn count_str_bytes<F: Fn(char) -> bool>(inp: &str, f: F) -> (r: usize)
    requires
        forall|c: char| #[trigger] call_requires(f, (c,)),
    ensures
        is_char_boundary(inp.spec_bytes(), r as int),
        r <= inp.spec_bytes().len(),
        exists|k: int|
            {
                &&& 0 <= k <= inp@.len()
                &&& r == encode_utf8(#[trigger] inp@.take(k)).len()
                &&& (forall|j: int| 0 <= j < k ==> call_ensures(f, (inp@[j],), true))
                &&& (k < inp@.len() ==> call_ensures(f, (inp@[k],), false))
            },
{
    let bytes_total = inp.as_bytes().len();
    proof {
        broadcast use vstd::slice::axiom_spec_len;

        assert(bytes_total == inp.spec_bytes().len());
    }
    let n = inp.unicode_len();
    let mut i: usize = 0;
    let mut r: usize = 0;
    loop
        invariant
            0 <= i <= n,
            n == inp@.len(),
            bytes_total == inp.spec_bytes().len(),
            r == encode_utf8(inp@.take(i as int)).len(),
            r <= bytes_total,
            forall|j: int| 0 <= j < i ==> call_ensures(f, (inp@[j],), true),
            forall|c: char| #[trigger] call_requires(f, (c,)),
        decreases n - i,
    {
        if i >= n {
            proof {
                lemma_take_boundary(inp@, i as int);
                assert(inp@.take(i as int) =~= inp@.take(n as int));
            }
            return r;
        }
        let c = inp.get_char(i);
        if !f(c) {
            proof {
                lemma_take_boundary(inp@, i as int);
            }
            return r;
        }
        proof {
            assert(inp@.take(i + 1) =~= inp@.take(i as int) + seq![inp@[i as int]]);
            lemma_encode_concat(inp@.take(i as int), seq![inp@[i as int]]);
            assert((seq![inp@[i as int]]).drop_first() =~= Seq::<char>::empty());
            assert(encode_utf8(Seq::<char>::empty()) =~= Seq::<u8>::empty());
            assert(encode_utf8(seq![inp@[i as int]]) =~= encode_scalar(inp@[i as int] as u32));
            lemma_encode_take_skip(inp@, i + 1);
        }
        r = r + char_utf8_len(c);
        i = i + 1;
    }
}

/// Everything of `whole_buffer_start` which comes before its sub-slice that
/// starts at `post_part_offset`.
pub fn slice_between<'a>(whole_buffer_start: &'a [u8], post_part_offset: usize) -> (r: &'a [u8])
    requires
        post_part_offset <= whole_buffer_start@.len(),
    ensures
        r@ == whole_buffer_start@.subrange(0, post_part_offset as int),
{
    &whole_buffer_start[0..post_part_offset]
}

/// Splitting text at the first point after which `f` returns false, usually
/// used to segment input according to character categories: first the
/// longest prefix on which `f` holds, then the rest.
pub trait SplitAtWhile: View<V = Seq<<Self as SplitAtWhile>::Item>> {
    type Item;

    /// Whether `f` may be called on every item.
    open spec fn accepts_any<F: Fn(&<Self as SplitAtWhile>::Item) -> bool>(f: F) -> bool {
        forall|x: <Self as SplitAtWhile>::Item| #[trigger] call_requires(f, (&x,))
    }

    /// What the split yields: the two halves partition `self` at some point
    /// `k`, everything before `k` got accepted by `f`, and the item at `k`,
    /// if any, got rejected.
    open spec fn splits_at<F: Fn(&<Self as SplitAtWhile>::Item) -> bool>(
        &self,
        f: F,
        r: (&Self, &Self),
        k: int,
    ) -> bool {
        &&& 0 <= k <= self@.len()
        &&& r.0@ == self@.take(k)
        &&& r.1@ == self@.skip(k)
        &&& (forall|j: int| 0 <= j < k ==> call_ensures(f, (&self@[j],), true))
        &&& (k < self@.len() ==> call_ensures(f, (&self@[k],), false))
    }

    open spec fn is_split_at_while<F: Fn(&<Self as SplitAtWhile>::Item) -> bool>(
        &self,
        f: F,
        r: (&Self, &Self),
    ) -> bool {
        exists|k: int| #[trigger] self.splits_at(f, r, k)
    }

    fn split_at_while<F: Fn(&<Self as SplitAtWhile>::Item) -> bool>(&self, f: F) -> (r: (
        &Self,
        &Self,
    ))
        requires
            Self::accepts_any(f),
        ensures
            self.is_split_at_while(f, r),
    ;
}

impl<T> SplitAtWhile for [T] {
    type Item = T;

    fn split_at_while<F: Fn(&T) -> bool>(&self, f: F) -> (r: (&Self, &Self)) {
        proof {
            broadcast use vstd::slice::axiom_spec_len;

            assert(Self::accepts_any(f));
            assert(forall|x: T| #[trigger] call_requires(f, (&x,)));
        }
        let n = self.len();
        let mut i: usize = 0;
        loop
            invariant
                0 <= i <= n,
                n == self@.len(),
                forall|j: int| 0 <= j < i ==> call_ensures(f, (&self@[j],), true),
                forall|x: T| #[trigger] call_requires(f, (&x,)),
            ensures
                0 <= i <= n,
                n == self@.len(),
                forall|j: int| 0 <= j < i ==> call_ensures(f, (&self@[j],), true),
                i < n ==> call_ensures(f, (&self@[i as int],), false),
            decreases n - i,
        {
            if i >= n {
                break;
            }
            let x = vstd::slice::slice_index_get(self, i);
            if !f(x) {
                break;
            }
            i = i + 1;
        }
        let r = self.split_at(i);
        proof {
            assert(r.0@ =~= self@.take(i as int));
            assert(r.1@ =~= self@.skip(i as int));
            assert({
                let k = i as int;
                &&& 0 <= k <= self@.len()
                &&& r.0@ == self@.take(k)
                &&& r.1@ == self@.skip(k)
                &&& (forall|j: int| 0 <= j < k ==> call_ensures(f, (&self@[j],), true))
                &&& (k < self@.len() ==> call_ensures(f, (&self@[k],), false))
            });
            assert(self.splits_at(f, r, i as int));
            assert(self.is_split_at_while(f, r));
        }
        r
    }
}

impl SplitAtWhile for str {
    type Item = char;

    fn split_at_while<F: Fn(&char) -> bool>(&self, f: F) -> (r: (&Self, &Self)) {
        let bytes_total = self.as_bytes().len();
        proof {
            broadcast use vstd::slice::axiom_spec_len;

            assert(bytes_total == self.spec_bytes().len());
        }
        let n = self.unicode_len();
        let mut i: usize = 0;
        let mut l: usize = 0;
        loop
            invariant
                0 <= i <= n,
                n == self@.len(),
                bytes_total == self.spec_bytes().len(),
                l == encode_utf8(self@.take(i as int)).len(),
                l <= bytes_total,
                forall|j: int| 0 <= j < i ==> call_ensures(f, (&self@[j],), true),
                forall|x: char| #[trigger] call_requires(f, (&x,)),
            ensures
                0 <= i <= n,
                l == encode_utf8(self@.take(i as int)).len(),
                forall|j: int| 0 <= j < i ==> call_ensures(f, (&self@[j],), true),
                i < n ==> call_ensures(f, (&self@[i as int],), false),
            decreases n - i,
        {
            if i >= n {
                break;
            }
            let c = self.get_char(i);
            if !f(&c) {
                break;
            }
            proof {
                assert(self@.take(i + 1) =~= self@.take(i as int) + seq![self@[i as int]]);
                lemma_encode_concat(self@.take(i as int), seq![self@[i as int]]);
                assert((seq![self@[i as int]]).drop_first() =~= Seq::<char>::empty());
                assert(encode_utf8(Seq::<char>::empty()) =~= Seq::<u8>::empty());
                assert(encode_utf8(seq![self@[i as int]]) =~= encode_scalar(
                    self@[i as int] as u32,
                ));
                lemma_encode_take_skip(self@, i + 1);
            }
            l = l + char_utf8_len(c);
            i = i + 1;
        }
        proof {
            lemma_take_boundary(self@, i as int);
        }
        let r = self.split_at(l);
        proof {
            broadcast use encode_utf8_valid_utf8, encode_utf8_decode_utf8;

            lemma_encode_take_skip(self@, i as int);
            assert(r.0.spec_bytes() =~= encode_utf8(self@.take(i as int)));
            assert(r.1.spec_bytes() =~= encode_utf8(self@.skip(i as int)));
            assert(decode_utf8(r.0.spec_bytes()) == r.0@);
            assert(decode_utf8(r.1.spec_bytes()) == r.1@);
            assert(r.0@ == self@.take(i as int));
            assert(r.1@ == self@.skip(i as int));
            assert(self.splits_at(f, r, i as int));
            assert(self.is_split_at_while(f, r));
        }
        r
    }
}

/// A minimal base for lexers over text: the input not yet consumed, and the
/// byte offset of that input within the text the lexer started on.
#[derive(Copy, Clone)]
pub struct StrLexerBase<'a> {
    pub inp: &'a str,
    pub offset: usize,
}

impl<'a> StrLexerBase<'a> {
    /// Consumes the first `l` bytes of the input and returns them; `l` must
    /// fall on a character boundary.
    pub fn consume(&mut self, l: usize) -> (a: &'a str)
        requires
            is_char_boundary(old(self).inp.spec_bytes(), l as int),
            l <= old(self).inp.spec_bytes().len(),
            old(self).offset + l <= usize::MAX,
        ensures
            a.spec_bytes() == old(self).inp.spec_bytes().subrange(0, l as int),
            final(self).inp.spec_bytes() == old(self).inp.spec_bytes().subrange(
                l as int,
                old(self).inp.spec_bytes().len() as int,
            ),
            a@ + final(self).inp@ == old(self).inp@,
            final(self).offset == old(self).offset + l,
    {
        let (a, b) = self.inp.split_at(l);
        self.inp = b;
        self.offset = self.offset + l;
        proof {
            broadcast use encode_utf8_valid_utf8, encode_utf8_decode_utf8;

            vstd::utf8::decode_utf8_split(old(self).inp.spec_bytes(), l as int);
            assert(a@ + self.inp@ =~= old(self).inp@);
        }
        a
    }

    /// Consumes and returns the longest prefix of the input whose characters
    /// all got accepted by `f`.
    pub fn consume_select<F: Fn(char) -> bool>(&mut self, f: F) -> (a: &'a str)
        requires
            forall|c: char| #[trigger] call_requires(f, (c,)),
            old(self).offset + old(self).inp.spec_bytes().len() <= usize::MAX,
        ensures
            exists|k: int|
                {
                    &&& 0 <= k <= old(self).inp@.len()
                    &&& a@ == old(self).inp@.take(k)
                    &&& final(self).inp@ == old(self).inp@.skip(k)
                    &&& final(self).offset == old(self).offset + encode_utf8(
                        old(self).inp@.take(k),
                    ).len()
                    &&& (forall|j: int| 0 <= j < k ==> call_ensures(f, (#[trigger] old(self).inp@[j],), true))
                    &&& (k < old(self).inp@.len() ==> call_ensures(f, (old(self).inp@[k],), false))
                },
    {
        let l = count_str_bytes(self.inp, f);
        let ghost s = self.inp@;
        let a = self.consume(l);
        proof {
            broadcast use encode_utf8_valid_utf8, encode_utf8_decode_utf8;

            let k = choose|k: int|
                {
                    &&& 0 <= k <= s.len()
                    &&& l == encode_utf8(#[trigger] s.take(k)).len()
                    &&& (forall|j: int| 0 <= j < k ==> call_ensures(f, (s[j],), true))
                    &&& (k < s.len() ==> call_ensures(f, (s[k],), false))
                };
            lemma_encode_take_skip(s, k);
            assert(a.spec_bytes() =~= encode_utf8(s.take(k)));
            assert(self.inp.spec_bytes() =~= encode_utf8(s.skip(k)));
            assert(decode_utf8(a.spec_bytes()) == a@);
            assert(a@ == s.take(k));
            assert(self.inp@ == s.skip(k));
        }
        a
    }

    /// Consumes the longest `XID_Continue` prefix of the input and returns it
    /// normalized to NFKC; the input must start with an `XID_Continue`
    /// character.
    pub fn consume_ident(&mut self) -> (r: String)
        requires
            old(self).inp@.len() > 0,
            xid_continue(old(self).inp@[0]),
            old(self).offset + old(self).inp.spec_bytes().len() <= usize::MAX,
        ensures
            r@.len() > 0,
            exists|k: int|
                {
                    &&& 1 <= k <= old(self).inp@.len()
                    &&& r@ == nfkc_of(old(self).inp@.take(k))
                    &&& final(self).inp@ == old(self).inp@.skip(k)
                    &&& final(self).offset == old(self).offset + encode_utf8(
                        old(self).inp@.take(k),
                    ).len()
                    &&& (forall|j: int| 0 <= j < k ==> xid_continue(#[trigger] old(self).inp@[j]))
                    &&& (k < old(self).inp@.len() ==> !xid_continue(old(self).inp@[k]))
                },
    {
        let pred = |ch: char| -> (b: bool)
            ensures
                b == xid_continue(ch),
            { unicode_ident::is_xid_continue(ch) };
        let s = self.consume_select(pred);
        proof {
            let ghost s0 = old(self).inp@;
            let k = choose|k: int|
                {
                    &&& 0 <= k <= s0.len()
                    &&& s@ == s0.take(k)
                    &&& self.inp@ == s0.skip(k)
                    &&& self.offset == old(self).offset + encode_utf8(s0.take(k)).len()
                    &&& (forall|j: int| 0 <= j < k ==> call_ensures(pred, (#[trigger] s0[j],), true))
                    &&& (k < s0.len() ==> call_ensures(pred, (s0[k],), false))
                };
            assert(k >= 1) by {
                if k == 0 {
                    assert(call_ensures(pred, (s0[0],), false));
                }
            }
        }
        nfkc_str(s)
    }

    /// Consumes an identifier as `consume_ident` does, if the input starts
    /// with an `XID_Start` character; otherwise consumes nothing.
    pub fn try_consume_ident(&mut self) -> (r: Option<String>)
        requires
            old(self).offset + old(self).inp.spec_bytes().len() <= usize::MAX,
        ensures
            match r {
                None => {
                    &&& final(self).inp@ == old(self).inp@
                    &&& final(self).offset == old(self).offset
                    &&& (old(self).inp@.len() > 0 ==> !xid_start(old(self).inp@[0]))
                },
                Some(id) => {
                    &&& old(self).inp@.len() > 0
                    &&& xid_start(old(self).inp@[0])
                    &&& id@.len() > 0
                    &&& exists|k: int|
                        {
                            &&& 1 <= k <= old(self).inp@.len()
                            &&& id@ == nfkc_of(old(self).inp@.take(k))
                            &&& final(self).inp@ == old(self).inp@.skip(k)
                            &&& final(self).offset == old(self).offset + encode_utf8(
                                old(self).inp@.take(k),
                            ).len()
                            &&& (forall|j: int|
                                0 <= j < k ==> xid_continue(#[trigger] old(self).inp@[j]))
                            &&& (k < old(self).inp@.len() ==> !xid_continue(old(self).inp@[k]))
                        }
                },
            },
    {
        if self.inp.unicode_len() > 0 {
            let c0 = self.inp.get_char(0);
            if unicode_ident::is_xid_start(c0) {
                return Some(self.consume_ident());
            }
        }
        None
    }
}

} // verus!


