//! Types representing single extended grapheme clusters: a borrowed cluster
//! slice ([`Gc`]) and an owned cluster ([`GcBuf`]), together with the
//! segmentation oracle the whole crate relies on.

use crate::util::{
    first_scalar_len, lemma_encode_utf8_concat, lemma_encode_utf8_injective,
    lemma_encode_utf8_len, lemma_first_scalar_boundary, lex_cmp_bytes, lex_compare_bytes,
    str_content_eq,
};
use unicode_segmentation::UnicodeSegmentation;
use vstd::prelude::*;
use vstd::string::StringSliceAdditionalSpecFns;
use vstd::utf8::*;

verus! {

/// Byte length of the first extended grapheme cluster of the text whose UTF-8
/// encoding is `b` (zero only for empty text).
pub uninterp spec fn front_cluster_len(b: Seq<u8>) -> nat;

/// Byte length of the last extended grapheme cluster of the text whose UTF-8
/// encoding is `b` (zero only for empty text).
pub uninterp spec fn back_cluster_len(b: Seq<u8>) -> nat;

/// True when the given UTF-8 bytes hold exactly one extended grapheme cluster.
pub open spec fn is_cluster(b: Seq<u8>) -> bool {
    b.len() > 0 && front_cluster_len(b) == b.len()
}

/// Relies on `unicode_segmentation::UnicodeSegmentation::graphemes` in
/// extended mode: the iterator yields the extended grapheme clusters of the
/// string as nonempty substrings laid end to end, and segmentation depends on
/// the text alone.  So the first item is a nonempty prefix of the string, its
/// end falls on a code-point boundary, it covers at least the first code
/// point, and taken alone it is a single cluster.
#[verifier::external_body]
pub(crate) fn front_cluster_len_exec(s: &str) -> (n: usize)
    ensures
        n == front_cluster_len(s.spec_bytes()),
        n == 0 <==> s@.len() == 0,
        s@.len() > 0 ==> length_of_first_scalar(s.spec_bytes()) <= n <= s.spec_bytes().len(),
        is_char_boundary(s.spec_bytes(), n as int),
        s@.len() > 0 ==> front_cluster_len(s.spec_bytes().subrange(0, n as int)) == n,
{
    match s.graphemes(true).next() {
        Some(g) => g.len(),
        None => 0,
    }
}

/// Relies on `unicode_segmentation::UnicodeSegmentation::graphemes` in
/// extended mode, iterated from the back: the last item is a nonempty suffix
/// of the string, its start falls on a code-point boundary, and it covers at
/// least the last code point.  Segmentation depends on the text alone.
#[verifier::external_body]
pub(crate) fn back_cluster_len_exec(s: &str) -> (n: usize)
    ensures
        n == back_cluster_len(s.spec_bytes()),
        n == 0 <==> s@.len() == 0,
        s@.len() > 0 ==> length_of_last_scalar(s.spec_bytes()) <= n <= s.spec_bytes().len(),
        is_char_boundary(s.spec_bytes(), s.spec_bytes().len() - n as int),
{
    match s.graphemes(true).next_back() {
        Some(g) => g.len(),
        None => 0,
    }
}

/// Relies on `str::to_lowercase`: the lowercase mapping of the text, which
/// depends on the characters alone.
pub uninterp spec fn lower_of(s: Seq<char>) -> Seq<char>;

/// Relies on `str::to_uppercase`: the uppercase mapping of the text, which
/// depends on the characters alone.
pub uninterp spec fn upper_of(s: Seq<char>) -> Seq<char>;

/// Relies on `str::to_lowercase` (see [`lower_of`]).
#[verifier::external_body]
fn lowercase_str(s: &str) -> (r: String)
    ensures
        r@ == lower_of(s@),
{
    s.to_lowercase()
}

/// Relies on `str::to_uppercase` (see [`upper_of`]).
#[verifier::external_body]
fn uppercase_str(s: &str) -> (r: String)
    ensures
        r@ == upper_of(s@),
{
    s.to_uppercase()
}

/// Relies on `String::push`: appends the given character to the end of the
/// string.
pub assume_specification[ String::push ](s: &mut String, ch: char)
    ensures
        final(s)@ == old(s)@.push(ch),
;

/// A slice of a single Unicode grapheme cluster (akin to `str`).
///
/// A grapheme cluster is a single visual "unit" of Unicode text, composed of
/// at least one code point, possibly more.  The constructors only hand out
/// values whose fragment is exactly one extended grapheme cluster, which makes
/// operations such as extracting the base code point meaningful.
#[derive(Clone, Copy, Debug)]
pub struct Gc<'a> {
    s: &'a str,
}

impl<'a> View for Gc<'a> {
    type V = Seq<char>;

    closed spec fn view(&self) -> Seq<char> {
        self.s@
    }
}

impl<'a> Gc<'a> {
    /// Every cluster slice holds at least one code point.
    pub open spec fn wf(self) -> bool {
        self@.len() > 0
    }

    /// The UTF-8 bytes of this cluster.
    pub open spec fn cluster_bytes(self) -> Seq<u8> {
        encode_utf8(self@)
    }

    /// Create a new `Gc` from the given string slice.
    ///
    /// The slice must contain exactly one grapheme cluster.  In the event
    /// that the input is empty, or contains more than one grapheme cluster,
    /// this function returns `None`.
    pub fn from_str(s: &'a str) -> (r: Option<Gc<'a>>)
        ensures
            r is Some <==> is_cluster(s.spec_bytes()),
            r matches Some(g) ==> g@ == s@ && g.wf(),
    {
        proof {
            lemma_encode_utf8_len(s@);
        }
        match Gc::split_from(s) {
            Some((gc, tail)) => {
                if tail.as_bytes().len() == 0 {
                    proof {
                        let bs = s.spec_bytes();
                        let n = front_cluster_len(bs) as int;
                        assert(bs.subrange(n, bs.len() as int).len() == 0);
                        assert(encode_utf8(gc@) =~= bs);
                        lemma_encode_utf8_injective(gc@, s@);
                    }
                    Some(gc)
                } else {
                    proof {
                        let bs = s.spec_bytes();
                        let n = front_cluster_len(bs) as int;
                        assert(bs.subrange(n, bs.len() as int).len() > 0);
                    }
                    None
                }
            },
            None => None,
        }
    }

    /// Try to split a single grapheme cluster from the start of `s`.
    ///
    /// Returns `None` if the given string is empty; otherwise the first
    /// cluster together with the rest of the text.
    pub fn split_from(s: &'a str) -> (r: Option<(Gc<'a>, &'a str)>)
        ensures
            r is Some <==> s@.len() > 0,
            r matches Some((g, rest)) ==> {
                let bs = s.spec_bytes();
                let n = front_cluster_len(bs) as int;
                &&& 0 < n <= bs.len()
                &&& encode_utf8(g@) == bs.subrange(0, n)
                &&& encode_utf8(rest@) == bs.subrange(n, bs.len() as int)
                &&& g@ + rest@ == s@
                &&& is_cluster(encode_utf8(g@))
                &&& g.wf()
            },
    {
        broadcast use encode_utf8_valid_utf8;

        proof {
            lemma_encode_utf8_len(s@);
        }
        let n = front_cluster_len_exec(s);
        if n == 0 {
            return None;
        }
        let (head, tail) = s.split_at(n);
        proof {
            let bs = s.spec_bytes();
            encode_utf8_decode_utf8(s@);
            decode_utf8_split(bs, n as int);
            encode_utf8_decode_utf8(head@);
            encode_utf8_decode_utf8(tail@);
            decode_utf8_encode_utf8(bs.subrange(0, n as int));
            decode_utf8_encode_utf8(bs.subrange(n as int, bs.len() as int));
            lemma_encode_utf8_injective(head@, decode_utf8(bs.subrange(0, n as int)));
            lemma_encode_utf8_injective(
                tail@,
                decode_utf8(bs.subrange(n as int, bs.len() as int)),
            );
            lemma_encode_utf8_len(head@);
        }
        Some((Gc { s: head }, tail))
    }

    /// Returns the length of this grapheme cluster in bytes.
    pub fn len(&self) -> (r: usize)
        ensures
            r == self.cluster_bytes().len(),
    {
        self.s.as_bytes().len()
    }

    /// Converts this to a string slice.
    pub fn as_str(&self) -> (r: &'a str)
        ensures
            r@ == self@,
    {
        self.s
    }

    /// Converts this to a byte slice.
    pub fn as_bytes(&self) -> (r: &'a [u8])
        ensures
            r@ == self.cluster_bytes(),
    {
        self.s.as_bytes()
    }

    /// Does this grapheme cluster have additional marks applied to it?
    ///
    /// This is `true` exactly when the cluster is comprised of more than a
    /// single code point.
    pub fn has_marks(&self) -> (r: bool)
        requires
            self.wf(),
        ensures
            r == (self@.len() > 1),
    {
        broadcast use encode_utf8_valid_utf8;

        let l = first_scalar_len(self.s);
        let n = self.s.as_bytes().len();
        proof {
            encode_utf8_first_scalar(self@);
            lemma_encode_utf8_len(self@.drop_first());
            assert(self.cluster_bytes() == encode_scalar(self@[0] as u32) + encode_utf8(
                self@.drop_first(),
            ));
        }
        l != n
    }

    /// Returns the "base" code point: the first code point in the cluster.
    pub fn base_char(&self) -> (r: char)
        requires
            self.wf(),
        ensures
            r == self@[0],
    {
        broadcast use vstd::string::axiom_spec_iter;
        broadcast use vstd::string::next_postcondition;

        let mut it = self.s.chars();
        match it.next() {
            Some(c) => c,
            None => {
                proof {
                    assert(false);
                }
                '\u{0}'
            },
        }
    }

    /// Returns the "base" code point as a grapheme cluster of its own.
    pub fn base(&self) -> (r: Gc<'a>)
        requires
            self.wf(),
        ensures
            r@ == seq![self@[0]],
            r.wf(),
    {
        broadcast use encode_utf8_valid_utf8;

        let l = first_scalar_len(self.s);
        proof {
            lemma_first_scalar_boundary(self.cluster_bytes());
            encode_utf8_first_scalar(self@);
            assert(self.cluster_bytes() == encode_scalar(self@[0] as u32) + encode_utf8(
                self@.drop_first(),
            ));
            assert(self.cluster_bytes().subrange(0, l as int) =~= encode_scalar(self@[0] as u32));
            crate::util::lemma_encode_single(self@[0]);
        }
        let (head, _) = self.s.split_at(l);
        proof {
            lemma_encode_utf8_injective(head@, seq![self@[0]]);
        }
        Gc { s: head }
    }

    /// Returns the combining marks as a string slice.
    ///
    /// The result may be empty, or of arbitrary length.
    pub fn mark_str(&self) -> (r: &'a str)
        requires
            self.wf(),
        ensures
            r@ == self@.drop_first(),
    {
        broadcast use encode_utf8_valid_utf8;

        let l = first_scalar_len(self.s);
        proof {
            lemma_first_scalar_boundary(self.cluster_bytes());
            encode_utf8_first_scalar(self@);
            assert(self.cluster_bytes() == encode_scalar(self@[0] as u32) + encode_utf8(
                self@.drop_first(),
            ));
        }
        let (_, tail) = self.s.split_at(l);
        proof {
            let bs = self.cluster_bytes();
            assert(bs.subrange(l as int, bs.len() as int) =~= encode_utf8(self@.drop_first()));
            lemma_encode_utf8_injective(tail@, self@.drop_first());
        }
        tail
    }

    /// Checks the given predicate against a non-composed cluster.
    ///
    /// If the cluster carries combining marks this always returns `false`;
    /// otherwise the predicate is applied to the base code point.
    pub fn is_base<P: FnOnce(char) -> bool>(&self, predicate: P) -> (r: bool)
        requires
            self.wf(),
            self@.len() == 1 ==> call_requires(predicate, (self@[0],)),
        ensures
            r ==> self@.len() == 1 && call_ensures(predicate, (self@[0],), true),
            !r ==> self@.len() > 1 || call_ensures(predicate, (self@[0],), false),
    {
        if self.has_marks() {
            false
        } else {
            let cp = self.base_char();
            predicate(cp)
        }
    }

    /// An iterator over the code points of this grapheme cluster.
    pub fn chars(&self) -> (r: core::str::Chars<'a>)
        ensures
            vstd::std_specs::iter::IteratorSpec::remaining(&r) == self@,
    {
        broadcast use vstd::string::axiom_spec_iter;

        self.s.chars()
    }

    /// The code points of this grapheme cluster with their byte offsets.
    pub fn char_indices(&self) -> (r: Vec<(usize, char)>)
        ensures
            r@.len() == self@.len(),
            forall|i: int|
                0 <= i < r@.len() ==> r@[i].1 == self@[i] && r@[i].0 == encode_utf8(
                    self@.subrange(0, i),
                ).len(),
    {
        let r = char_offsets(self.s);
        proof {
            assert(self@ == self.s@);
        }
        r
    }

    /// The bytes of this grapheme cluster, as an owned vector.
    pub fn bytes(&self) -> (r: Vec<u8>)
        ensures
            r@ == self.cluster_bytes(),
    {
        vstd::string::StrSliceExecFns::as_bytes_vec(self.s)
    }

    /// The lowercase mapping of this grapheme cluster.
    pub fn to_lowercase(&self) -> (r: String)
        ensures
            r@ == lower_of(self@),
    {
        lowercase_str(self.s)
    }

    /// The uppercase mapping of this grapheme cluster.
    pub fn to_uppercase(&self) -> (r: String)
        ensures
            r@ == upper_of(self@),
    {
        uppercase_str(self.s)
    }

    /// Equality against a bare character: true exactly when the cluster has no
    /// marks and its base code point is the given character.
    pub fn eq_char(&self, other: char) -> (r: bool)
        requires
            self.wf(),
        ensures
            r == (self@ == seq![other]),
    {
        let no_marks = !self.has_marks();
        let r = no_marks && self.base_char() == other;
        proof {
            if r {
                assert(self@ =~= seq![other]);
            }
            if self@ == seq![other] {
                assert(self@.len() == 1 && self@[0] == other);
            }
        }
        r
    }

    /// Ordering against a bare character: the base code points are compared;
    /// on equal base code points a cluster carrying marks sorts strictly after
    /// the bare character.
    pub fn cmp_char(&self, other: char) -> (r: core::cmp::Ordering)
        requires
            self.wf(),
        ensures
            r == cmp_cluster_char(self@, other),
    {
        let b = self.base_char();
        if (b as u32) < (other as u32) {
            core::cmp::Ordering::Less
        } else if (b as u32) > (other as u32) {
            proof {
                broadcast use char_u32_cast;

                assert(b != other);
            }
            core::cmp::Ordering::Greater
        } else {
            proof {
                broadcast use char_u32_cast;

                assert((b as u32) as char == b && (other as u32) as char == other);
                assert(b == other);
            }
            if self.has_marks() {
                core::cmp::Ordering::Greater
            } else {
                core::cmp::Ordering::Equal
            }
        }
    }

    /// Equality against raw text: plain content equality.
    pub fn eq_str(&self, other: &str) -> (r: bool)
        ensures
            r == (self@ == other@),
    {
        str_content_eq(self.s, other)
    }

    /// Ordering against raw text: the lexicographic order of the UTF-8 bytes,
    /// which for valid UTF-8 is also the code-point order `str` comparison
    /// uses.
    pub fn cmp_str(&self, other: &str) -> (r: core::cmp::Ordering)
        ensures
            r == lex_cmp_bytes(self.cluster_bytes(), other.spec_bytes()),
    {
        lex_compare_bytes(self.s.as_bytes(), other.as_bytes())
    }

    /// Equality against another cluster slice: plain content equality.
    pub fn eq_gc(&self, other: &Gc<'_>) -> (r: bool)
        ensures
            r == (self@ == other@),
    {
        str_content_eq(self.s, other.s)
    }

    /// Ordering against another cluster slice, in the order of [`Gc::cmp_str`].
    pub fn cmp_gc(&self, other: &Gc<'_>) -> (r: core::cmp::Ordering)
        ensures
            r == lex_cmp_bytes(self.cluster_bytes(), other.cluster_bytes()),
    {
        lex_compare_bytes(self.s.as_bytes(), other.s.as_bytes())
    }
}

/// The ordering [`Gc::cmp_char`] returns: base code points decide, and on a
/// tie a cluster with marks sorts strictly after the bare character.
pub open spec fn cmp_cluster_char(g: Seq<char>, c: char) -> core::cmp::Ordering
    recommends
        g.len() > 0,
{
    if (g[0] as u32) < (c as u32) {
        core::cmp::Ordering::Less
    } else if (g[0] as u32) > (c as u32) {
        core::cmp::Ordering::Greater
    } else if g.len() > 1 {
        core::cmp::Ordering::Greater
    } else {
        core::cmp::Ordering::Equal
    }
}

/// The code points of a string with their byte offsets.
fn char_offsets(s: &str) -> (r: Vec<(usize, char)>)
    ensures
        r@.len() == s@.len(),
        forall|i: int|
            0 <= i < r@.len() ==> r@[i].1 == s@[i] && r@[i].0 == encode_utf8(
                s@.subrange(0, i),
            ).len(),
{
    broadcast use encode_utf8_valid_utf8;
    broadcast use vstd::string::axiom_spec_iter;
    broadcast use vstd::string::next_postcondition;

    let mut out: Vec<(usize, char)> = Vec::new();
    let mut rest: &str = s;
    let mut off: usize = 0;
    let total = s.as_bytes().len();
    proof {
        assert(s@.subrange(0, 0) =~= Seq::<char>::empty());
        assert(encode_utf8(Seq::<char>::empty()) =~= Seq::<u8>::empty());
        assert(rest@ =~= s@.subrange(0, s@.len() as int));
    }
    loop
        invariant
            out@.len() <= s@.len(),
            off == encode_utf8(s@.subrange(0, out@.len() as int)).len(),
            total == s.spec_bytes().len(),
            off + encode_utf8(rest@).len() == total,
            rest@ == s@.subrange(out@.len() as int, s@.len() as int),
            forall|i: int|
                0 <= i < out@.len() ==> out@[i].1 == s@[i] && out@[i].0 == encode_utf8(
                    s@.subrange(0, i),
                ).len(),
        decreases s@.len() - out@.len(),
    {
        if rest.as_bytes().len() == 0 {
            proof {
                lemma_encode_utf8_len(rest@);
                assert(rest@.len() == 0);
                assert(out@.len() == s@.len());
                assert forall|i: int| 0 <= i < out@.len() implies out@[i].1 == s@[i] && out@[i].0
                    == encode_utf8(s@.subrange(0, i)).len() by {}
            }
            return out;
        }
        proof {
            lemma_encode_utf8_len(rest@);
            assert(rest@.len() > 0);
        }
        let ghost k = out@.len() as int;
        let mut it = rest.chars();
        let c = match it.next() {
            Some(c) => c,
            None => {
                proof {
                    assert(false);
                }
                '\u{0}'
            },
        };
        let l = first_scalar_len(rest);
        proof {
            encode_utf8_valid_utf8(rest@);
            lemma_first_scalar_boundary(rest.spec_bytes());
            encode_utf8_first_scalar(rest@);
            assert(rest.spec_bytes() == encode_scalar(rest@[0] as u32) + encode_utf8(
                rest@.drop_first(),
            ));
            assert(c == rest@[0] && rest@[0] == s@[k]);
            // the prefix one char longer encodes to `off + l` bytes
            assert(s@.subrange(0, k + 1) =~= s@.subrange(0, k) + seq![s@[k]]);
            lemma_encode_utf8_concat(s@.subrange(0, k), seq![s@[k]]);
            crate::util::lemma_encode_single(s@[k]);
            // the whole suffix encoding fits after `off`
            assert(s@ =~= s@.subrange(0, k) + rest@);
            lemma_encode_utf8_concat(s@.subrange(0, k), rest@);
        }
        out.push((off, c));
        off = off + l;
        let (_, tail) = rest.split_at(l);
        proof {
            let rbs = rest.spec_bytes();
            assert(rbs.subrange(l as int, rbs.len() as int) =~= encode_utf8(rest@.drop_first()));
            lemma_encode_utf8_injective(tail@, rest@.drop_first());
            assert(tail@ =~= s@.subrange(k + 1, s@.len() as int));
        }
        rest = tail;
    }
}

/// An owned, single Unicode grapheme cluster (akin to `String`).
///
/// See [`Gc`] for more details.
#[derive(Clone, Debug)]
pub struct GcBuf {
    s: String,
}

impl View for GcBuf {
    type V = Seq<char>;

    closed spec fn view(&self) -> Seq<char> {
        self.s@
    }
}

impl GcBuf {
    /// Every owned cluster holds at least one code point.
    pub open spec fn wf(self) -> bool {
        self@.len() > 0
    }

    /// Returns a borrowed grapheme cluster slice.
    pub fn as_gc<'b>(&'b self) -> (r: Gc<'b>)
        requires
            self.wf(),
        ensures
            r@ == self@,
            r.wf(),
    {
        Gc { s: self.s.as_str() }
    }

    /// An owned copy of the given cluster slice.
    pub fn from_gc(g: &Gc<'_>) -> (r: GcBuf)
        requires
            g.wf(),
        ensures
            r@ == g@,
            r.wf(),
    {
        GcBuf { s: g.as_str().to_owned() }
    }

    /// The cluster holding exactly the given character.
    pub fn from_char(c: char) -> (r: GcBuf)
        ensures
            r@ == seq![c],
            r.wf(),
    {
        let mut t = String::new();
        t.push(c);
        proof {
            assert(Seq::<char>::empty().push(c) =~= seq![c]);
        }
        GcBuf { s: t }
    }

    /// Converts this into the owned text of the cluster.
    pub fn into_string(self) -> (r: String)
        ensures
            r@ == self@,
    {
        self.s
    }

    /// Converts this into the owned UTF-8 bytes of the cluster.
    pub fn into_bytes(self) -> (r: Vec<u8>)
        ensures
            r@ == encode_utf8(self@),
    {
        vstd::string::StrSliceExecFns::as_bytes_vec(self.s.as_str())
    }

    /// Equality against a bare character, as [`Gc::eq_char`].
    pub fn eq_char(&self, other: char) -> (r: bool)
        requires
            self.wf(),
        ensures
            r == (self@ == seq![other]),
    {
        self.as_gc().eq_char(other)
    }

    /// Ordering against a bare character, as [`Gc::cmp_char`].
    pub fn cmp_char(&self, other: char) -> (r: core::cmp::Ordering)
        requires
            self.wf(),
        ensures
            r == cmp_cluster_char(self@, other),
    {
        self.as_gc().cmp_char(other)
    }

    /// Equality against raw text, as [`Gc::eq_str`].
    pub fn eq_str(&self, other: &str) -> (r: bool)
        requires
            self.wf(),
        ensures
            r == (self@ == other@),
    {
        self.as_gc().eq_str(other)
    }

    /// Ordering against raw text, as [`Gc::cmp_str`].
    pub fn cmp_str(&self, other: &str) -> (r: core::cmp::Ordering)
        requires
            self.wf(),
        ensures
            r == lex_cmp_bytes(encode_utf8(self@), other.spec_bytes()),
    {
        self.as_gc().cmp_str(other)
    }

    /// Equality against a cluster slice, as [`Gc::eq_gc`].
    pub fn eq_gc(&self, other: &Gc<'_>) -> (r: bool)
        requires
            self.wf(),
        ensures
            r == (self@ == other@),
    {
        self.as_gc().eq_gc(other)
    }

    /// Ordering against a cluster slice, as [`Gc::cmp_gc`].
    pub fn cmp_gc(&self, other: &Gc<'_>) -> (r: core::cmp::Ordering)
        requires
            self.wf(),
        ensures
            r == lex_cmp_bytes(encode_utf8(self@), encode_utf8(other@)),
    {
        self.as_gc().cmp_gc(other)
    }
}

impl Default for GcBuf {
    /// The cluster holding the single NUL character.
    fn default() -> (r: Self)
        ensures
            r@ == seq!['\u{0}'],
            r.wf(),
    {
        GcBuf::from_char('\u{0}')
    }
}

/// Comparison law over cluster values, in the terms the methods' contracts
/// use ([`Gc::eq_char`] returns `g@ == seq![c]`, [`Gc::has_marks`] returns
/// `g@.len() > 1`, [`Gc::base_char`] returns `g@[0]`, [`Gc::cmp_char`] returns
/// [`cmp_cluster_char`]): a cluster equals a bare character exactly when it
/// has no marks and its base is that character, so a cluster with marks is
/// never equal to its own base character while a cluster holding only the
/// base character is equal to it; and on a tied base, a marked cluster sorts
/// strictly after the bare character.
pub proof fn lemma_comparison_law(g: Gc<'_>, c: char)
    requires
        g.wf(),
    ensures
        (g@ == seq![c]) == (g@.len() == 1 && g@[0] == c),
        (g@ == seq![g@[0]]) == (g@.len() == 1),
        g@.len() > 1 && g@[0] == c ==> cmp_cluster_char(g@, c) == core::cmp::Ordering::Greater,
        g@ == seq![c] ==> cmp_cluster_char(g@, c) == core::cmp::Ordering::Equal,
{
    assert(seq![c].len() == 1);
    if g@.len() == 1 && g@[0] == c {
        assert(g@ =~= seq![c]);
    }
    if g@.len() == 1 {
        assert(g@ =~= seq![g@[0]]);
    }
    if g@ == seq![c] {
        assert(g@[0] == c);
    }
}

} // verus!
