//! The cursor: a (buffer, byte offset) pair whose offset always lies on a
//! code-point boundary, with movement one code point or one extended grapheme
//! cluster at a time, and slicing that can never produce invalid UTF-8.

use crate::grapheme::{back_cluster_len, back_cluster_len_exec, front_cluster_len, Gc};
use crate::util::{
    cp_reaches, lemma_boundary_in_prefix, lemma_boundary_in_suffix, lemma_cp_steps_reach_boundary,
    lemma_encode_utf8_len, lemma_next_boundary_is_first_scalar, lemma_prev_boundary_is_last_scalar,
    lemma_snap_left_props, lemma_snap_right_props, seek_utf8_cp_start_left,
    seek_utf8_cp_start_right, snap_left, snap_right, str_content_eq, str_eq_literal,
};
use vstd::prelude::*;
use vstd::string::StringSliceAdditionalSpecFns;
use vstd::utf8::*;

verus! {

/// A cursor into a string slice: the string together with a current position
/// between its two ends.
///
/// The cursor guarantees at all times that its position cannot lie outside the
/// string, nor between the bytes of one code point's encoding, so a slice
/// taken at the cursor is always valid UTF-8.  If only the grapheme-cluster
/// methods are used, the position also stays on grapheme-cluster boundaries;
/// the code-point methods can place it inside a cluster, in which case the
/// cluster-level methods still behave safely but on the locally re-segmented
/// text.
#[derive(Clone, Copy, Debug)]
pub struct StrCursor<'a> {
    s: &'a str,
    at: usize,
}

impl<'a> StrCursor<'a> {
    /// The characters of the underlying buffer.
    pub closed spec fn buf(self) -> Seq<char> {
        self.s@
    }

    /// The UTF-8 bytes of the underlying buffer.
    pub open spec fn buf_bytes(self) -> Seq<u8> {
        encode_utf8(self.buf())
    }

    /// The cursor's byte offset into the buffer.
    pub closed spec fn pos(self) -> int {
        self.at as int
    }

    /// The cursor is inside the buffer, on a code-point boundary.
    pub open spec fn wf(self) -> bool {
        0 <= self.pos() <= self.buf_bytes().len() && is_char_boundary(self.buf_bytes(), self.pos())
    }

    /// The bytes before the cursor.
    pub open spec fn before_bytes(self) -> Seq<u8> {
        self.buf_bytes().subrange(0, self.pos())
    }

    /// The bytes after the cursor.
    pub open spec fn after_bytes(self) -> Seq<u8> {
        self.buf_bytes().subrange(self.pos(), self.buf_bytes().len() as int)
    }

    /// The characters before the cursor.
    pub open spec fn before_text(self) -> Seq<char> {
        decode_utf8(self.before_bytes())
    }

    /// The characters after the cursor.
    pub open spec fn after_text(self) -> Seq<char> {
        decode_utf8(self.after_bytes())
    }

    /// Where one grapheme-cluster step to the left lands.
    pub open spec fn prev_gr_pos(self) -> int {
        self.pos() - back_cluster_len(self.before_bytes())
    }

    /// Where one grapheme-cluster step to the right lands.
    pub open spec fn next_gr_pos(self) -> int {
        self.pos() + front_cluster_len(self.after_bytes())
    }

    /// Where one code-point step to the left lands.
    pub open spec fn prev_cp_pos(self) -> int {
        snap_left(self.buf_bytes(), self.pos() - 1)
    }

    /// Where one code-point step to the right lands.
    pub open spec fn next_cp_pos(self) -> int {
        snap_right(self.buf_bytes(), self.pos() + 1)
    }

    /// Where the grapheme cluster seen immediately to the left of the cursor
    /// ends: the cluster is re-read forward from [`Self::prev_gr_pos`].
    pub open spec fn before_cluster_end(self) -> int {
        let q = self.prev_gr_pos();
        q + front_cluster_len(self.buf_bytes().subrange(q, self.buf_bytes().len() as int))
    }
}

/// Where the cursor created at the first grapheme cluster at or left of `p`
/// lands: `p` is snapped to a code-point boundary on the left; if the cluster
/// before that boundary reaches past `p`, its start is the answer, otherwise
/// the snapped boundary already was one.
pub open spec fn gr_left_pos(b: Seq<u8>, p: int) -> int {
    let c = snap_left(b, p);
    if c == 0 {
        0
    } else {
        let q = c - back_cluster_len(b.subrange(0, c));
        if q + front_cluster_len(b.subrange(q, b.len() as int)) > p {
            q
        } else {
            c
        }
    }
}

/// Where the cursor created at the first grapheme cluster at or right of `p`
/// lands: the left-of answer itself when it already sits at `p`, else one
/// grapheme step forward from it.
pub open spec fn gr_right_pos(b: Seq<u8>, p: int) -> int {
    let c = gr_left_pos(b, p);
    if c == p {
        p
    } else {
        c + front_cluster_len(b.subrange(c, b.len() as int))
    }
}

/// Every grapheme cluster from `lo` up to `hi`, read forward, satisfied the
/// predicate: each step consumes the front cluster of the remaining text, and
/// for each step there is a witness cluster value covering exactly that span
/// on which the predicate returned true.
pub open spec fn clusters_passed_right<'a, P: Fn(Gc<'a>) -> bool>(
    p: P,
    b: Seq<u8>,
    lo: int,
    hi: int,
) -> bool
    decreases hi - lo,
{
    if lo >= hi {
        lo == hi
    } else {
        let n = front_cluster_len(b.subrange(lo, b.len() as int)) as int;
        if 0 < n && lo + n <= hi {
            (exists|g: Gc<'a>|
                g.wf() && encode_utf8(g@) == b.subrange(lo, lo + n) && call_ensures(
                    p,
                    (g,),
                    true,
                )) && clusters_passed_right(p, b, lo + n, hi)
        } else {
            false
        }
    }
}

/// Every grapheme cluster from `hi` down to `lo`, read backward, satisfied the
/// predicate: each step moves to the start of the last cluster of the text so
/// far, and for each step there is a witness cluster value, re-read forward
/// from that start as the scan sees it, on which the predicate returned true.
pub open spec fn clusters_passed_left<'a, P: Fn(Gc<'a>) -> bool>(
    p: P,
    b: Seq<u8>,
    lo: int,
    hi: int,
) -> bool
    decreases hi - lo,
{
    if hi <= lo {
        lo == hi
    } else {
        let q = hi - back_cluster_len(b.subrange(0, hi));
        if lo <= q && q < hi {
            (exists|g: Gc<'a>|
                g.wf() && encode_utf8(g@) == b.subrange(
                    q,
                    q + front_cluster_len(b.subrange(q, b.len() as int)),
                ) && call_ensures(p, (g,), true)) && clusters_passed_left(p, b, lo, q)
        } else {
            false
        }
    }
}

/// Every code point from `lo` up to `hi`, read forward, satisfied the
/// predicate: each step consumes the first scalar of the remaining text, and
/// the predicate returned true on the character it decodes to.
pub open spec fn cps_passed_right<P: Fn(char) -> bool>(p: P, b: Seq<u8>, lo: int, hi: int) -> bool
    decreases hi - lo,
{
    if lo >= hi {
        lo == hi
    } else {
        let n = length_of_first_scalar(b.subrange(lo, b.len() as int));
        if 0 < n && lo + n <= hi {
            call_ensures(p, (decode_utf8(b.subrange(lo, b.len() as int))[0],), true)
                && cps_passed_right(p, b, lo + n, hi)
        } else {
            false
        }
    }
}

/// Every code point from `hi` down to `lo`, read backward, satisfied the
/// predicate: each step moves to the previous code-point boundary, and the
/// predicate returned true on the character read forward from there.
pub open spec fn cps_passed_left<P: Fn(char) -> bool>(p: P, b: Seq<u8>, lo: int, hi: int) -> bool
    decreases hi - lo,
{
    if hi <= lo {
        lo == hi
    } else {
        let q = snap_left(b, hi - 1);
        if lo <= q && q < hi {
            call_ensures(p, (decode_utf8(b.subrange(q, b.len() as int))[0],), true)
                && cps_passed_left(p, b, lo, q)
        } else {
            false
        }
    }
}

/// A forward-scanned range stays scanned when one more passed cluster is
/// appended at its high end.
proof fn lemma_clusters_passed_right_extend<'a, P: Fn(Gc<'a>) -> bool>(
    p: P,
    b: Seq<u8>,
    lo: int,
    mid: int,
    hi: int,
)
    requires
        0 <= lo <= mid < hi <= b.len(),
        clusters_passed_right(p, b, lo, mid),
        hi == mid + front_cluster_len(b.subrange(mid, b.len() as int)),
        exists|g: Gc<'a>|
            g.wf() && encode_utf8(g@) == b.subrange(mid, hi) && call_ensures(p, (g,), true),
    ensures
        clusters_passed_right(p, b, lo, hi),
    decreases mid - lo,
{
    if lo == mid {
        assert(clusters_passed_right(p, b, hi, hi));
    } else {
        let n = front_cluster_len(b.subrange(lo, b.len() as int)) as int;
        assert(0 < n && lo + n <= mid && clusters_passed_right(p, b, lo + n, mid));
        lemma_clusters_passed_right_extend(p, b, lo + n, mid, hi);
    }
}

/// A backward-scanned range stays scanned when one more passed cluster is
/// appended at its low end.
proof fn lemma_clusters_passed_left_extend<'a, P: Fn(Gc<'a>) -> bool>(
    p: P,
    b: Seq<u8>,
    q: int,
    mid: int,
    hi: int,
)
    requires
        0 <= q < mid <= hi <= b.len(),
        clusters_passed_left(p, b, mid, hi),
        q == mid - back_cluster_len(b.subrange(0, mid)),
        exists|g: Gc<'a>|
            g.wf() && encode_utf8(g@) == b.subrange(
                q,
                q + front_cluster_len(b.subrange(q, b.len() as int)),
            ) && call_ensures(p, (g,), true),
    ensures
        clusters_passed_left(p, b, q, hi),
    decreases hi - mid,
{
    if mid == hi {
        assert(clusters_passed_left(p, b, q, q));
    } else {
        let q2 = hi - back_cluster_len(b.subrange(0, hi));
        assert(mid <= q2 < hi && clusters_passed_left(p, b, mid, q2));
        lemma_clusters_passed_left_extend(p, b, q, mid, q2);
    }
}

/// A forward code-point scan stays scanned when one more passed code point is
/// appended at its high end.
proof fn lemma_cps_passed_right_extend<P: Fn(char) -> bool>(
    p: P,
    b: Seq<u8>,
    lo: int,
    mid: int,
    hi: int,
)
    requires
        0 <= lo <= mid < hi <= b.len(),
        cps_passed_right(p, b, lo, mid),
        hi == mid + length_of_first_scalar(b.subrange(mid, b.len() as int)),
        call_ensures(p, (decode_utf8(b.subrange(mid, b.len() as int))[0],), true),
    ensures
        cps_passed_right(p, b, lo, hi),
    decreases mid - lo,
{
    if lo == mid {
        assert(cps_passed_right(p, b, hi, hi));
    } else {
        let n = length_of_first_scalar(b.subrange(lo, b.len() as int));
        assert(0 < n && lo + n <= mid && cps_passed_right(p, b, lo + n, mid));
        lemma_cps_passed_right_extend(p, b, lo + n, mid, hi);
    }
}

/// A backward code-point scan stays scanned when one more passed code point is
/// appended at its low end.
proof fn lemma_cps_passed_left_extend<P: Fn(char) -> bool>(
    p: P,
    b: Seq<u8>,
    q: int,
    mid: int,
    hi: int,
)
    requires
        0 <= q < mid <= hi <= b.len(),
        cps_passed_left(p, b, mid, hi),
        q == snap_left(b, mid - 1),
        call_ensures(p, (decode_utf8(b.subrange(q, b.len() as int))[0],), true),
    ensures
        cps_passed_left(p, b, q, hi),
    decreases hi - mid,
{
    if mid == hi {
        assert(cps_passed_left(p, b, q, q));
    } else {
        let q2 = snap_left(b, hi - 1);
        assert(mid <= q2 < hi && cps_passed_left(p, b, mid, q2));
        lemma_cps_passed_left_extend(p, b, q, mid, q2);
    }
}

impl<'a> StrCursor<'a> {
    /// Create a new cursor at the start of `s`.
    pub fn new_at_start(s: &'a str) -> (r: StrCursor<'a>)
        ensures
            r.wf(),
            r.buf() == s@,
            r.pos() == 0,
    {
        proof {
            encode_utf8_valid_utf8(s@);
            is_char_boundary_start_end_of_seq(s.spec_bytes());
        }
        StrCursor { s, at: 0 }
    }

    /// Create a new cursor past the end of `s`.
    pub fn new_at_end(s: &'a str) -> (r: StrCursor<'a>)
        ensures
            r.wf(),
            r.buf() == s@,
            r.pos() == r.buf_bytes().len(),
    {
        proof {
            encode_utf8_valid_utf8(s@);
            is_char_boundary_start_end_of_seq(s.spec_bytes());
        }
        StrCursor { s, at: s.as_bytes().len() }
    }

    /// Create a new cursor at the first code point which begins at or to the
    /// left of the given byte position.
    pub fn new_at_cp_left_of_byte_pos(s: &'a str, byte_pos: usize) -> (r: StrCursor<'a>)
        requires
            byte_pos <= s.spec_bytes().len(),
        ensures
            r.wf(),
            r.buf() == s@,
            r.pos() == snap_left(s.spec_bytes(), byte_pos as int),
    {
        proof {
            encode_utf8_valid_utf8(s@);
            lemma_snap_left_props(s.spec_bytes(), byte_pos as int);
        }
        StrCursor { s, at: seek_utf8_cp_start_left(s, byte_pos) }
    }

    /// Create a new cursor at the first code point which begins at or to the
    /// right of the given byte position.
    pub fn new_at_cp_right_of_byte_pos(s: &'a str, byte_pos: usize) -> (r: StrCursor<'a>)
        requires
            byte_pos <= s.spec_bytes().len(),
        ensures
            r.wf(),
            r.buf() == s@,
            r.pos() == snap_right(s.spec_bytes(), byte_pos as int),
    {
        proof {
            encode_utf8_valid_utf8(s@);
            lemma_snap_right_props(s.spec_bytes(), byte_pos as int);
        }
        StrCursor { s, at: seek_utf8_cp_start_right(s, byte_pos) }
    }

    /// Create a new cursor at the first grapheme cluster which begins at or to
    /// the left of the given byte position.
    pub fn new_at_left_of_byte_pos(s: &'a str, byte_pos: usize) -> (r: StrCursor<'a>)
        requires
            byte_pos <= s.spec_bytes().len(),
        ensures
            r.wf(),
            r.buf() == s@,
            r.pos() == gr_left_pos(s.spec_bytes(), byte_pos as int),
    {
        // materializes that the byte length fits a machine word, so the
        // position sum below cannot overflow
        let _buf_len = s.as_bytes().len();
        let cur = StrCursor::new_at_cp_left_of_byte_pos(s, byte_pos);
        let prev = match cur.at_prev() {
            None => {
                return cur;
            },
            Some(c) => c,
        };
        let g = match prev.after() {
            Some(g) => g,
            None => {
                proof {
                    assert(false);
                }
                return cur;
            },
        };
        if prev.byte_pos() + g.len() > byte_pos {
            prev
        } else {
            cur
        }
    }

    /// Create a new cursor at the first grapheme cluster which begins at or to
    /// the right of the given byte position.
    pub fn new_at_right_of_byte_pos(s: &'a str, byte_pos: usize) -> (r: StrCursor<'a>)
        requires
            byte_pos <= s.spec_bytes().len(),
        ensures
            r.wf(),
            r.buf() == s@,
            r.pos() == gr_right_pos(s.spec_bytes(), byte_pos as int),
    {
        // Stepping forward from a known-good boundary is reliable where
        // backward probing from an arbitrary point is not, so the answer is
        // derived from the left-of constructor.
        let cur = StrCursor::new_at_left_of_byte_pos(s, byte_pos);
        if cur.byte_pos() == byte_pos {
            return cur;
        }
        match cur.at_next() {
            Some(c) => c,
            None => {
                proof {
                    encode_utf8_valid_utf8(s@);
                    lemma_snap_left_props(s.spec_bytes(), byte_pos as int);
                    assert(false);
                }
                cur
            },
        }
    }
}

impl<'a> StrCursor<'a> {
    /// Returns the grapheme cluster immediately to the left of the cursor, or
    /// `None` if the cursor is at the start of the string.
    pub fn before(&self) -> (r: Option<Gc<'a>>)
        requires
            self.wf(),
        ensures
            r is Some <==> self.pos() > 0,
            r matches Some(g) ==> g.wf() && crate::grapheme::is_cluster(encode_utf8(g@))
                && encode_utf8(g@) == self.buf_bytes().subrange(
                self.prev_gr_pos(),
                self.before_cluster_end(),
            ),
    {
        match self.at_prev() {
            None => None,
            Some(c) => c.after(),
        }
    }

    /// Returns the grapheme cluster immediately to the right of the cursor, or
    /// `None` if the cursor is at the end of the string.
    pub fn after(&self) -> (r: Option<Gc<'a>>)
        requires
            self.wf(),
        ensures
            r is Some <==> self.pos() < self.buf_bytes().len(),
            r matches Some(g) ==> g.wf() && crate::grapheme::is_cluster(encode_utf8(g@))
                && encode_utf8(g@) == self.buf_bytes().subrange(
                self.pos(),
                self.next_gr_pos(),
            ) && self.pos() < self.next_gr_pos() <= self.buf_bytes().len(),
    {
        proof {
            lemma_encode_utf8_len(self.buf());
        }
        match Gc::split_from(self.slice_after()) {
            Some((g, _)) => {
                proof {
                    let bs = self.buf_bytes();
                    let n = front_cluster_len(self.after_bytes()) as int;
                    assert(self.after_bytes().subrange(0, n) =~= bs.subrange(
                        self.pos(),
                        self.pos() + n,
                    ));
                }
                Some(g)
            },
            None => None,
        }
    }

    /// Returns the code point immediately to the left of the cursor, or `None`
    /// if the cursor is at the start of the string.
    pub fn cp_before(&self) -> (r: Option<char>)
        requires
            self.wf(),
        ensures
            r is Some <==> self.pos() > 0,
            r matches Some(c) ==> c == decode_utf8(
                self.buf_bytes().subrange(self.prev_cp_pos(), self.buf_bytes().len() as int),
            )[0] && c == decode_last_scalar(self.before_bytes()) as char,
    {
        match self.at_prev_cp() {
            None => None,
            Some(cur) => {
                let r = cur.cp_after();
                proof {
                    encode_utf8_valid_utf8(self.buf());
                    lemma_prev_boundary_is_last_scalar(self.buf_bytes(), self.pos());
                    valid_utf8_split(self.buf_bytes(), cur.pos());
                    let suf = self.buf_bytes().subrange(
                        self.prev_cp_pos(),
                        self.buf_bytes().len() as int,
                    );
                    assert(decode_utf8(suf)[0] == decode_first_scalar(suf) as char);
                }
                r
            },
        }
    }

    /// Returns the code point immediately to the right of the cursor, or
    /// `None` if the cursor is at the end of the string.
    pub fn cp_after(&self) -> (r: Option<char>)
        requires
            self.wf(),
        ensures
            r is Some <==> self.pos() < self.buf_bytes().len(),
            r matches Some(c) ==> c == self.after_text()[0] && self.after_text().len() > 0,
    {
        broadcast use vstd::string::axiom_spec_iter;
        broadcast use vstd::string::next_postcondition;

        let after = self.slice_after();
        let ghost ab = self.after_bytes();
        proof {
            encode_utf8_valid_utf8(self.buf());
            valid_utf8_split(self.buf_bytes(), self.pos());
            decode_utf8_encode_utf8(ab);
            lemma_encode_utf8_len(after@);
            lemma_encode_utf8_len(self.buf());
        }
        let mut it = after.chars();
        it.next()
    }

    /// Returns the contents of the string to the left of the cursor.
    pub fn slice_before(&self) -> (r: &'a str)
        requires
            self.wf(),
        ensures
            r.spec_bytes() == self.before_bytes(),
            r@ == self.before_text(),
    {
        proof {
            encode_utf8_valid_utf8(self.buf());
            valid_utf8_split(self.buf_bytes(), self.pos());
            decode_utf8_encode_utf8(self.before_bytes());
        }
        let (head, _) = self.s.split_at(self.at);
        proof {
            crate::util::lemma_encode_utf8_injective(head@, self.before_text());
        }
        head
    }

    /// Returns the contents of the string to the right of the cursor.
    pub fn slice_after(&self) -> (r: &'a str)
        requires
            self.wf(),
        ensures
            r.spec_bytes() == self.after_bytes(),
            r@ == self.after_text(),
    {
        proof {
            encode_utf8_valid_utf8(self.buf());
            valid_utf8_split(self.buf_bytes(), self.pos());
            decode_utf8_encode_utf8(self.after_bytes());
        }
        let (_, tail) = self.s.split_at(self.at);
        proof {
            crate::util::lemma_encode_utf8_injective(tail@, self.after_text());
        }
        tail
    }

    /// Returns the entire string slice behind the cursor.
    pub fn slice_all(&self) -> (r: &'a str)
        ensures
            r@ == self.buf(),
            r.spec_bytes() == self.buf_bytes(),
    {
        self.s
    }

    /// Returns the contents of the string between this cursor and another
    /// cursor, in either order.
    ///
    /// Returns `None` if the cursors are from different buffers, even
    /// different buffers of equal content.
    pub fn slice_between(&self, other: StrCursor<'a>) -> (r: Option<&'a str>)
        requires
            self.wf(),
            other.wf(),
        ensures
            self.buf() != other.buf() ==> r is None,
            r matches Some(t) ==> self.buf() == other.buf() && t.spec_bytes()
                == self.buf_bytes().subrange(
                if self.pos() <= other.pos() {
                    self.pos()
                } else {
                    other.pos()
                },
                if self.pos() <= other.pos() {
                    other.pos()
                } else {
                    self.pos()
                },
            ),
    {
        if !str_eq_literal(self.s, other.s) {
            None
        } else {
            let lo = if self.at <= other.at {
                self.at
            } else {
                other.at
            };
            let hi = if self.at <= other.at {
                other.at
            } else {
                self.at
            };
            proof {
                encode_utf8_valid_utf8(self.buf());
            }
            Some(slice_range(self.s, lo, hi))
        }
    }

    /// Returns the contents of the string starting at this cursor and ending
    /// at another cursor, or the empty string when the other cursor lies
    /// before this one.
    ///
    /// Returns `None` if the cursors are from different buffers, even
    /// different buffers of equal content.
    pub fn slice_until(&self, end: StrCursor<'a>) -> (r: Option<&'a str>)
        requires
            self.wf(),
            end.wf(),
        ensures
            self.buf() != end.buf() ==> r is None,
            r matches Some(t) ==> self.buf() == end.buf() && t.spec_bytes() == (
            if self.pos() <= end.pos() {
                self.buf_bytes().subrange(self.pos(), end.pos())
            } else {
                Seq::<u8>::empty()
            }),
    {
        if !str_eq_literal(self.s, end.s) {
            None
        } else {
            proof {
                encode_utf8_valid_utf8(self.buf());
            }
            if self.at <= end.at {
                Some(slice_range(self.s, self.at, end.at))
            } else {
                let r = slice_range(self.s, self.at, self.at);
                proof {
                    assert(self.buf_bytes().subrange(self.pos(), self.pos())
                        =~= Seq::<u8>::empty());
                }
                Some(r)
            }
        }
    }

    /// Returns the cursor's current position as the number of UTF-8 code
    /// units from the beginning of the string.
    pub fn byte_pos(&self) -> (r: usize)
        ensures
            r == self.pos(),
    {
        self.at
    }
}

impl<'a> StrCursor<'a> {
    /// Returns a new cursor at the beginning of the previous grapheme
    /// cluster, or `None` if the cursor is at the beginning of the string.
    pub fn at_prev(self) -> (r: Option<StrCursor<'a>>)
        requires
            self.wf(),
        ensures
            r is Some <==> self.pos() > 0,
            r matches Some(c) ==> c.wf() && c.buf() == self.buf() && c.pos() == self.prev_gr_pos()
                && 0 <= c.pos() < self.pos(),
    {
        let mut cur = self;
        if cur.try_seek_left_gr() {
            Some(cur)
        } else {
            None
        }
    }

    /// Returns a new cursor at the beginning of the next grapheme cluster, or
    /// `None` if the cursor is at the end of the string.
    ///
    /// The consumed span runs between grapheme boundaries that are also
    /// code-point boundaries, so code-point stepping across it lands exactly
    /// on the same end offset, which `cp_reaches` records.
    pub fn at_next(self) -> (r: Option<StrCursor<'a>>)
        requires
            self.wf(),
        ensures
            r is Some <==> self.pos() < self.buf_bytes().len(),
            r matches Some(c) ==> c.wf() && c.buf() == self.buf() && c.pos() == self.next_gr_pos()
                && self.pos() < c.pos() <= self.buf_bytes().len() && cp_reaches(
                self.buf_bytes(),
                self.pos(),
                c.pos(),
            ),
    {
        let mut cur = self;
        if cur.try_seek_right_gr() {
            proof {
                encode_utf8_valid_utf8(self.buf());
                lemma_cp_steps_reach_boundary(self.buf_bytes(), self.pos(), cur.pos());
            }
            Some(cur)
        } else {
            None
        }
    }

    /// Returns a new cursor at the beginning of the previous code point, or
    /// `None` if the cursor is at the beginning of the string.
    pub fn at_prev_cp(self) -> (r: Option<StrCursor<'a>>)
        requires
            self.wf(),
        ensures
            r is Some <==> self.pos() > 0,
            r matches Some(c) ==> c.wf() && c.buf() == self.buf() && c.pos() == self.prev_cp_pos()
                && c.pos() == self.pos() - length_of_last_scalar(self.before_bytes())
                && 0 <= c.pos() < self.pos(),
    {
        let mut cur = self;
        if cur.try_seek_left_cp() {
            proof {
                encode_utf8_valid_utf8(self.buf());
                lemma_prev_boundary_is_last_scalar(self.buf_bytes(), self.pos());
            }
            Some(cur)
        } else {
            None
        }
    }

    /// Returns a new cursor at the beginning of the next code point, or
    /// `None` if the cursor is at the end of the string.
    pub fn at_next_cp(self) -> (r: Option<StrCursor<'a>>)
        requires
            self.wf(),
        ensures
            r is Some <==> self.pos() < self.buf_bytes().len(),
            r matches Some(c) ==> c.wf() && c.buf() == self.buf() && c.pos() == self.next_cp_pos()
                && c.pos() == self.pos() + length_of_first_scalar(self.after_bytes())
                && self.pos() < c.pos() <= self.buf_bytes().len(),
    {
        let mut cur = self;
        if cur.try_seek_right_cp() {
            proof {
                encode_utf8_valid_utf8(self.buf());
                lemma_next_boundary_is_first_scalar(self.buf_bytes(), self.pos());
            }
            Some(cur)
        } else {
            None
        }
    }

    /// Returns both the previous grapheme cluster and the cursor having
    /// seeked before it.
    pub fn prev(self) -> (r: Option<(Gc<'a>, StrCursor<'a>)>)
        requires
            self.wf(),
        ensures
            r is Some <==> self.pos() > 0,
            r matches Some((g, c)) ==> g.wf() && crate::grapheme::is_cluster(encode_utf8(g@))
                && encode_utf8(g@) == self.buf_bytes().subrange(
                self.prev_gr_pos(),
                self.before_cluster_end(),
            ) && c.wf() && c.buf() == self.buf() && c.pos() == self.prev_gr_pos() && c.pos()
                < self.pos(),
    {
        match self.at_prev() {
            None => None,
            Some(c) => match c.after() {
                Some(g) => Some((g, c)),
                None => {
                    proof {
                        assert(false);
                    }
                    None
                },
            },
        }
    }

    /// Returns both the next grapheme cluster and the cursor having seeked
    /// past it.
    pub fn next(self) -> (r: Option<(Gc<'a>, StrCursor<'a>)>)
        requires
            self.wf(),
        ensures
            r is Some <==> self.pos() < self.buf_bytes().len(),
            r matches Some((g, c)) ==> g.wf() && crate::grapheme::is_cluster(encode_utf8(g@))
                && encode_utf8(g@) == self.buf_bytes().subrange(
                self.pos(),
                self.next_gr_pos(),
            ) && c.wf() && c.buf() == self.buf() && c.pos() == self.next_gr_pos() && c.pos()
                > self.pos(),
    {
        match self.after() {
            None => None,
            Some(g) => match self.at_next() {
                Some(c) => Some((g, c)),
                None => {
                    proof {
                        assert(false);
                    }
                    None
                },
            },
        }
    }

    /// Returns both the previous code point and the cursor having seeked
    /// before it.
    pub fn prev_cp(self) -> (r: Option<(char, StrCursor<'a>)>)
        requires
            self.wf(),
        ensures
            r is Some <==> self.pos() > 0,
            r matches Some((ch, c)) ==> ch == decode_utf8(
                self.buf_bytes().subrange(self.prev_cp_pos(), self.buf_bytes().len() as int),
            )[0] && ch == decode_last_scalar(self.before_bytes()) as char && c.wf() && c.buf()
                == self.buf() && c.pos() == self.prev_cp_pos() && c.pos() < self.pos(),
    {
        match self.at_prev_cp() {
            None => None,
            Some(c) => match c.cp_after() {
                Some(ch) => {
                    proof {
                        encode_utf8_valid_utf8(self.buf());
                        lemma_prev_boundary_is_last_scalar(self.buf_bytes(), self.pos());
                        valid_utf8_split(self.buf_bytes(), c.pos());
                        let suf = self.buf_bytes().subrange(
                            self.prev_cp_pos(),
                            self.buf_bytes().len() as int,
                        );
                        assert(decode_utf8(suf)[0] == decode_first_scalar(suf) as char);
                    }
                    Some((ch, c))
                },
                None => {
                    proof {
                        assert(false);
                    }
                    None
                },
            },
        }
    }

    /// Returns both the next code point and the cursor having seeked past it.
    pub fn next_cp(self) -> (r: Option<(char, StrCursor<'a>)>)
        requires
            self.wf(),
        ensures
            r is Some <==> self.pos() < self.buf_bytes().len(),
            r matches Some((ch, c)) ==> ch == self.after_text()[0] && c.wf() && c.buf()
                == self.buf() && c.pos() == self.next_cp_pos() && c.pos() > self.pos(),
    {
        match self.cp_after() {
            None => None,
            Some(ch) => match self.at_next_cp() {
                Some(c) => Some((ch, c)),
                None => {
                    proof {
                        assert(false);
                    }
                    None
                },
            },
        }
    }

    /// Seeks the cursor to the beginning of the previous grapheme cluster.
    ///
    /// The cursor must not be at the start of the string: that would exceed
    /// the buffer's boundary, so callers range-check first or use
    /// [`Self::at_prev`].
    pub fn seek_prev(&mut self)
        requires
            old(self).wf(),
            old(self).pos() > 0,
        ensures
            final(self).wf(),
            final(self).buf() == old(self).buf(),
            final(self).pos() == old(self).prev_gr_pos(),
    {
        let moved = self.try_seek_left_gr();
        proof {
            assert(moved);
        }
    }

    /// Seeks the cursor to the beginning of the next grapheme cluster.
    ///
    /// The cursor must not be at the end of the string: that would exceed the
    /// buffer's boundary, so callers range-check first or use
    /// [`Self::at_next`].
    pub fn seek_next(&mut self)
        requires
            old(self).wf(),
            old(self).pos() < old(self).buf_bytes().len(),
        ensures
            final(self).wf(),
            final(self).buf() == old(self).buf(),
            final(self).pos() == old(self).next_gr_pos(),
    {
        let moved = self.try_seek_right_gr();
        proof {
            assert(moved);
        }
    }

    /// Seeks the cursor to the beginning of the previous code point.
    ///
    /// The cursor must not be at the start of the string: that would exceed
    /// the buffer's boundary, so callers range-check first or use
    /// [`Self::at_prev_cp`].
    pub fn seek_prev_cp(&mut self)
        requires
            old(self).wf(),
            old(self).pos() > 0,
        ensures
            final(self).wf(),
            final(self).buf() == old(self).buf(),
            final(self).pos() == old(self).prev_cp_pos(),
    {
        let moved = self.try_seek_left_cp();
        proof {
            assert(moved);
        }
    }

    /// Seeks the cursor to the beginning of the next code point.
    ///
    /// The cursor must not be at the end of the string: that would exceed the
    /// buffer's boundary, so callers range-check first or use
    /// [`Self::at_next_cp`].
    pub fn seek_next_cp(&mut self)
        requires
            old(self).wf(),
            old(self).pos() < old(self).buf_bytes().len(),
        ensures
            final(self).wf(),
            final(self).buf() == old(self).buf(),
            final(self).pos() == old(self).next_cp_pos(),
    {
        let moved = self.try_seek_right_cp();
        proof {
            assert(moved);
        }
    }
}

impl<'a> StrCursor<'a> {
    /// Steps one grapheme cluster left; false exactly at the start.
    fn try_seek_left_gr(&mut self) -> (r: bool)
        requires
            old(self).wf(),
        ensures
            final(self).buf() == old(self).buf(),
            final(self).wf(),
            r <==> old(self).pos() > 0,
            r ==> final(self).pos() == old(self).prev_gr_pos() && 0 <= final(self).pos() < old(self).pos(),
            !r ==> *final(self) == *old(self),
    {
        let before = self.slice_before();
        let n = back_cluster_len_exec(before);
        proof {
            lemma_encode_utf8_len(before@);
            lemma_encode_utf8_len(self.buf());
            encode_utf8_valid_utf8(self.buf());
            if n > 0 {
                lemma_boundary_in_prefix(
                    self.buf_bytes(),
                    self.pos(),
                    self.pos() - n as int,
                );
            }
        }
        if n == 0 {
            false
        } else {
            self.at = self.at - n;
            true
        }
    }

    /// Steps one grapheme cluster right; false exactly at the end.
    fn try_seek_right_gr(&mut self) -> (r: bool)
        requires
            old(self).wf(),
        ensures
            final(self).buf() == old(self).buf(),
            final(self).wf(),
            r <==> old(self).pos() < old(self).buf_bytes().len(),
            r ==> final(self).pos() == old(self).next_gr_pos() && old(self).pos() < final(self).pos() <= old(self).buf_bytes().len(),
            !r ==> *final(self) == *old(self),
    {
        // materializes that the byte length fits a machine word, so the
        // position sum below cannot overflow
        let _buf_len = self.s.as_bytes().len();
        let after = self.slice_after();
        let n = crate::grapheme::front_cluster_len_exec(after);
        proof {
            lemma_encode_utf8_len(after@);
            lemma_encode_utf8_len(self.buf());
            encode_utf8_valid_utf8(self.buf());
            if n > 0 {
                lemma_boundary_in_suffix(self.buf_bytes(), self.pos(), n as int);
            }
        }
        if n == 0 {
            false
        } else {
            self.at = self.at + n;
            true
        }
    }

    /// Steps one code point left; false exactly at the start.
    fn try_seek_left_cp(&mut self) -> (r: bool)
        requires
            old(self).wf(),
        ensures
            final(self).buf() == old(self).buf(),
            final(self).wf(),
            r <==> old(self).pos() > 0,
            r ==> final(self).pos() == old(self).prev_cp_pos() && 0 <= final(self).pos() < old(self).pos(),
            !r ==> *final(self) == *old(self),
    {
        proof {
            encode_utf8_valid_utf8(self.buf());
            lemma_encode_utf8_len(self.buf());
        }
        if self.at == 0 {
            false
        } else {
            proof {
                lemma_snap_left_props(self.buf_bytes(), self.pos() - 1);
            }
            self.at = seek_utf8_cp_start_left(self.s, self.at - 1);
            true
        }
    }

    /// Steps one code point right; false exactly at the end.
    fn try_seek_right_cp(&mut self) -> (r: bool)
        requires
            old(self).wf(),
        ensures
            final(self).buf() == old(self).buf(),
            final(self).wf(),
            r <==> old(self).pos() < old(self).buf_bytes().len(),
            r ==> final(self).pos() == old(self).next_cp_pos() && old(self).pos() < final(self).pos() <= old(self).buf_bytes().len(),
            !r ==> *final(self) == *old(self),
    {
        proof {
            encode_utf8_valid_utf8(self.buf());
            lemma_encode_utf8_len(self.buf());
        }
        let n = self.s.as_bytes().len();
        if self.at == n {
            false
        } else {
            proof {
                lemma_snap_right_props(self.buf_bytes(), self.pos() + 1);
            }
            self.at = seek_utf8_cp_start_right(self.s, self.at + 1);
            true
        }
    }
}

impl<'a> StrCursor<'a> {
    /// Steps left over grapheme clusters while the predicate holds of them,
    /// returning the consumed slice and the cursor at the first failing
    /// cluster or at the start of the buffer.  Every cluster inside the
    /// consumed slice satisfied the predicate.
    pub fn before_while<P: Fn(Gc<'a>) -> bool>(self, predicate: P) -> (r: (&'a str, StrCursor<'a>))
        requires
            self.wf(),
            forall|g: Gc<'a>| g.wf() ==> call_requires(predicate, (g,)),
        ensures
            r.1.wf(),
            r.1.buf() == self.buf(),
            0 <= r.1.pos() <= self.pos(),
            r.0.spec_bytes() == self.buf_bytes().subrange(r.1.pos(), self.pos()),
            clusters_passed_left(predicate, self.buf_bytes(), r.1.pos(), self.pos()),
            r.1.pos() > 0 ==> exists|g: Gc<'a>|
                g.wf() && encode_utf8(g@) == self.buf_bytes().subrange(
                    r.1.prev_gr_pos(),
                    r.1.before_cluster_end(),
                ) && call_ensures(predicate, (g,), false),
    {
        let start = self;
        let mut at = self;
        loop
            invariant
                self.wf(),
                at.wf(),
                at.buf() == self.buf(),
                0 <= at.pos() <= self.pos(),
                clusters_passed_left(predicate, self.buf_bytes(), at.pos(), self.pos()),
                forall|g: Gc<'a>| g.wf() ==> call_requires(predicate, (g,)),
            ensures
                at.wf(),
                at.buf() == self.buf(),
                0 <= at.pos() <= self.pos(),
                clusters_passed_left(predicate, self.buf_bytes(), at.pos(), self.pos()),
                at.pos() > 0 ==> exists|g: Gc<'a>|
                    g.wf() && encode_utf8(g@) == self.buf_bytes().subrange(
                        at.prev_gr_pos(),
                        at.before_cluster_end(),
                    ) && call_ensures(predicate, (g,), false),
            decreases at.pos(),
        {
            match at.prev() {
                None => {
                    break ;
                },
                Some((gc, at2)) => {
                    if predicate(gc) {
                        proof {
                            lemma_clusters_passed_left_extend(
                                predicate,
                                self.buf_bytes(),
                                at2.pos(),
                                at.pos(),
                                self.pos(),
                            );
                        }
                        at = at2;
                    } else {
                        break ;
                    }
                },
            }
        }
        proof {
            encode_utf8_valid_utf8(self.buf());
        }
        let consumed = slice_range(self.s, at.at, start.at);
        (consumed, at)
    }

    /// Steps right over grapheme clusters while the predicate holds of them,
    /// returning the consumed slice and the cursor at the first failing
    /// cluster or at the end of the buffer.  Every cluster inside the consumed
    /// slice satisfied the predicate.
    pub fn after_while<P: Fn(Gc<'a>) -> bool>(self, predicate: P) -> (r: (&'a str, StrCursor<'a>))
        requires
            self.wf(),
            forall|g: Gc<'a>| g.wf() ==> call_requires(predicate, (g,)),
        ensures
            r.1.wf(),
            r.1.buf() == self.buf(),
            self.pos() <= r.1.pos() <= self.buf_bytes().len(),
            r.0.spec_bytes() == self.buf_bytes().subrange(self.pos(), r.1.pos()),
            clusters_passed_right(predicate, self.buf_bytes(), self.pos(), r.1.pos()),
            r.1.pos() < self.buf_bytes().len() ==> exists|g: Gc<'a>|
                g.wf() && encode_utf8(g@) == self.buf_bytes().subrange(
                    r.1.pos(),
                    r.1.next_gr_pos(),
                ) && call_ensures(predicate, (g,), false),
    {
        let start = self;
        let mut at = self;
        loop
            invariant
                self.wf(),
                at.wf(),
                at.buf() == self.buf(),
                self.pos() <= at.pos() <= self.buf_bytes().len(),
                clusters_passed_right(predicate, self.buf_bytes(), self.pos(), at.pos()),
                forall|g: Gc<'a>| g.wf() ==> call_requires(predicate, (g,)),
            ensures
                at.wf(),
                at.buf() == self.buf(),
                self.pos() <= at.pos() <= self.buf_bytes().len(),
                clusters_passed_right(predicate, self.buf_bytes(), self.pos(), at.pos()),
                at.pos() < self.buf_bytes().len() ==> exists|g: Gc<'a>|
                    g.wf() && encode_utf8(g@) == self.buf_bytes().subrange(
                        at.pos(),
                        at.next_gr_pos(),
                    ) && call_ensures(predicate, (g,), false),
            decreases self.buf_bytes().len() - at.pos(),
        {
            match at.next() {
                None => {
                    break ;
                },
                Some((gc, at2)) => {
                    if predicate(gc) {
                        proof {
                            lemma_clusters_passed_right_extend(
                                predicate,
                                self.buf_bytes(),
                                self.pos(),
                                at.pos(),
                                at2.pos(),
                            );
                        }
                        at = at2;
                    } else {
                        break ;
                    }
                },
            }
        }
        proof {
            encode_utf8_valid_utf8(self.buf());
        }
        let consumed = slice_range(self.s, start.at, at.at);
        (consumed, at)
    }

    /// Steps left over code points while the predicate holds of them,
    /// returning the consumed slice and the cursor at the first failing code
    /// point or at the start of the buffer.  Every code point inside the
    /// consumed slice satisfied the predicate.
    pub fn cp_before_while<P: Fn(char) -> bool>(self, predicate: P) -> (r: (
        &'a str,
        StrCursor<'a>,
    ))
        requires
            self.wf(),
            forall|c: char| call_requires(predicate, (c,)),
        ensures
            r.1.wf(),
            r.1.buf() == self.buf(),
            0 <= r.1.pos() <= self.pos(),
            r.0.spec_bytes() == self.buf_bytes().subrange(r.1.pos(), self.pos()),
            cps_passed_left(predicate, self.buf_bytes(), r.1.pos(), self.pos()),
            r.1.pos() > 0 ==> call_ensures(
                predicate,
                (decode_utf8(
                    self.buf_bytes().subrange(r.1.prev_cp_pos(), self.buf_bytes().len() as int),
                )[0],),
                false,
            ),
    {
        let start = self;
        let mut at = self;
        loop
            invariant
                self.wf(),
                at.wf(),
                at.buf() == self.buf(),
                0 <= at.pos() <= self.pos(),
                cps_passed_left(predicate, self.buf_bytes(), at.pos(), self.pos()),
                forall|c: char| call_requires(predicate, (c,)),
            ensures
                at.wf(),
                at.buf() == self.buf(),
                0 <= at.pos() <= self.pos(),
                cps_passed_left(predicate, self.buf_bytes(), at.pos(), self.pos()),
                at.pos() > 0 ==> call_ensures(
                    predicate,
                    (decode_utf8(
                        self.buf_bytes().subrange(at.prev_cp_pos(), self.buf_bytes().len() as int),
                    )[0],),
                    false,
                ),
            decreases at.pos(),
        {
            match at.prev_cp() {
                None => {
                    break ;
                },
                Some((cp, at2)) => {
                    if predicate(cp) {
                        proof {
                            lemma_cps_passed_left_extend(
                                predicate,
                                self.buf_bytes(),
                                at2.pos(),
                                at.pos(),
                                self.pos(),
                            );
                        }
                        at = at2;
                    } else {
                        break ;
                    }
                },
            }
        }
        proof {
            encode_utf8_valid_utf8(self.buf());
        }
        let consumed = slice_range(self.s, at.at, start.at);
        (consumed, at)
    }

    /// Steps right over code points while the predicate holds of them,
    /// returning the consumed slice and the cursor at the first failing code
    /// point or at the end of the buffer.  Every code point inside the
    /// consumed slice satisfied the predicate.
    pub fn cp_after_while<P: Fn(char) -> bool>(self, predicate: P) -> (r: (&'a str, StrCursor<'a>))
        requires
            self.wf(),
            forall|c: char| call_requires(predicate, (c,)),
        ensures
            r.1.wf(),
            r.1.buf() == self.buf(),
            self.pos() <= r.1.pos() <= self.buf_bytes().len(),
            r.0.spec_bytes() == self.buf_bytes().subrange(self.pos(), r.1.pos()),
            cps_passed_right(predicate, self.buf_bytes(), self.pos(), r.1.pos()),
            r.1.pos() < self.buf_bytes().len() ==> call_ensures(
                predicate,
                (r.1.after_text()[0],),
                false,
            ),
    {
        let start = self;
        let mut at = self;
        loop
            invariant
                self.wf(),
                at.wf(),
                at.buf() == self.buf(),
                self.pos() <= at.pos() <= self.buf_bytes().len(),
                cps_passed_right(predicate, self.buf_bytes(), self.pos(), at.pos()),
                forall|c: char| call_requires(predicate, (c,)),
            ensures
                at.wf(),
                at.buf() == self.buf(),
                self.pos() <= at.pos() <= self.buf_bytes().len(),
                cps_passed_right(predicate, self.buf_bytes(), self.pos(), at.pos()),
                at.pos() < self.buf_bytes().len() ==> call_ensures(
                    predicate,
                    (at.after_text()[0],),
                    false,
                ),
            decreases self.buf_bytes().len() - at.pos(),
        {
            match at.next_cp() {
                None => {
                    break ;
                },
                Some((cp, at2)) => {
                    if predicate(cp) {
                        proof {
                            encode_utf8_valid_utf8(self.buf());
                            lemma_next_boundary_is_first_scalar(self.buf_bytes(), at.pos());
                            lemma_cps_passed_right_extend(
                                predicate,
                                self.buf_bytes(),
                                self.pos(),
                                at.pos(),
                                at2.pos(),
                            );
                        }
                        at = at2;
                    } else {
                        break ;
                    }
                },
            }
        }
        proof {
            encode_utf8_valid_utf8(self.buf());
        }
        let consumed = slice_range(self.s, start.at, at.at);
        (consumed, at)
    }
}

impl<'a> StrCursor<'a> {
    /// Iterates over grapheme clusters right-to-left, starting at the cursor.
    pub fn iter_before(self) -> (r: crate::iter::IterBefore<'a>)
        ensures
            r.0 == self,
    {
        crate::iter::IterBefore(self)
    }

    /// Iterates over grapheme clusters left-to-right, starting at the cursor.
    pub fn iter_after(self) -> (r: crate::iter::IterAfter<'a>)
        ensures
            r.0 == self,
    {
        crate::iter::IterAfter(self)
    }

    /// Iterates over code points right-to-left, starting at the cursor.
    pub fn iter_cp_before(self) -> (r: crate::iter::IterCpBefore<'a>)
        ensures
            r.0 == self,
    {
        crate::iter::IterCpBefore(self)
    }

    /// Iterates over code points left-to-right, starting at the cursor.
    pub fn iter_cp_after(self) -> (r: crate::iter::IterCpAfter<'a>)
        ensures
            r.0 == self,
    {
        crate::iter::IterCpAfter(self)
    }
}

impl<'a> PartialEq for StrCursor<'a> {
    /// Two cursors are equal when they hold equal text and sit at the same
    /// offset.
    fn eq(&self, other: &StrCursor<'a>) -> (r: bool) {
        self.at == other.at && str_content_eq(self.s, other.s)
    }
}

impl<'a> vstd::std_specs::cmp::PartialEqSpecImpl for StrCursor<'a> {
    open spec fn obeys_eq_spec() -> bool {
        true
    }

    open spec fn eq_spec(&self, other: &StrCursor<'a>) -> bool {
        self.pos() == other.pos() && self.buf() == other.buf()
    }
}

/// Round-trip: the text before the cursor and the text after it concatenate
/// back to the whole buffer, both as bytes and as characters.
pub proof fn lemma_roundtrip(c: StrCursor<'_>)
    requires
        c.wf(),
    ensures
        c.before_bytes() + c.after_bytes() == c.buf_bytes(),
        c.before_text() + c.after_text() == c.buf(),
{
    assert(c.before_bytes() + c.after_bytes() =~= c.buf_bytes());
    encode_utf8_valid_utf8(c.buf());
    decode_utf8_split(c.buf_bytes(), c.pos());
    encode_utf8_decode_utf8(c.buf());
    assert(c.before_text() + c.after_text() =~= c.buf());
}

/// The byte-range slice of `s` between two code-point boundaries.
fn slice_range<'a>(s: &'a str, lo: usize, hi: usize) -> (r: &'a str)
    requires
        lo <= hi <= s.spec_bytes().len(),
        is_char_boundary(s.spec_bytes(), lo as int),
        is_char_boundary(s.spec_bytes(), hi as int),
    ensures
        r.spec_bytes() == s.spec_bytes().subrange(lo as int, hi as int),
{
    proof {
        encode_utf8_valid_utf8(s@);
        lemma_boundary_in_suffix(s.spec_bytes(), lo as int, hi as int - lo as int);
    }
    let (_, tail) = s.split_at(lo);
    let (mid, _) = tail.split_at(hi - lo);
    proof {
        let bs = s.spec_bytes();
        assert(tail.spec_bytes().subrange(0, hi as int - lo as int) =~= bs.subrange(
            lo as int,
            hi as int,
        ));
    }
    mid
}

} // verus!
