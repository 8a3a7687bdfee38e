//! Boundary utilities: code-point boundary search over the UTF-8 bytes of a
//! string, raw scalar encoding, and buffer-identity comparison.

use vstd::prelude::*;
use vstd::string::StringSliceAdditionalSpecFns;
use vstd::utf8::*;

verus! {

/// The nearest code-point boundary at or to the left of `p`.
pub open spec fn snap_left(b: Seq<u8>, p: int) -> int
    recommends
        valid_utf8(b),
        0 <= p <= b.len(),
    decreases p,
{
    if p <= 0 {
        0
    } else if is_char_boundary(b, p) {
        p
    } else {
        snap_left(b, p - 1)
    }
}

/// The nearest code-point boundary at or to the right of `p`.
pub open spec fn snap_right(b: Seq<u8>, p: int) -> int
    recommends
        valid_utf8(b),
        0 <= p <= b.len(),
    decreases b.len() - p,
{
    if p < 0 {
        0
    } else if p >= b.len() {
        b.len() as int
    } else if is_char_boundary(b, p) {
        p
    } else {
        snap_right(b, p + 1)
    }
}

/// `snap_left` lands on a boundary and no later boundary exists up to `p`.
pub proof fn lemma_snap_left_props(b: Seq<u8>, p: int)
    requires
        valid_utf8(b),
        0 <= p <= b.len(),
    ensures
        0 <= snap_left(b, p) <= p,
        is_char_boundary(b, snap_left(b, p)),
        forall|j: int| snap_left(b, p) < j <= p ==> !is_char_boundary(b, j),
    decreases p,
{
    broadcast use is_char_boundary_start_end_of_seq;

    if p <= 0 {
    } else if is_char_boundary(b, p) {
    } else {
        lemma_snap_left_props(b, p - 1);
    }
}

/// `snap_right` lands on a boundary and no earlier boundary exists from `p` on.
pub proof fn lemma_snap_right_props(b: Seq<u8>, p: int)
    requires
        valid_utf8(b),
        0 <= p <= b.len(),
    ensures
        p <= snap_right(b, p) <= b.len(),
        is_char_boundary(b, snap_right(b, p)),
        forall|j: int| p <= j < snap_right(b, p) ==> !is_char_boundary(b, j),
    decreases b.len() - p,
{
    broadcast use is_char_boundary_start_end_of_seq;

    if p >= b.len() {
    } else if is_char_boundary(b, p) {
    } else {
        lemma_snap_right_props(b, p + 1);
    }
}

/// Snapping left is idempotent: snapping the snapped position moves nowhere.
pub proof fn lemma_snap_left_idempotent(b: Seq<u8>, p: int)
    requires
        valid_utf8(b),
        0 <= p <= b.len(),
    ensures
        snap_left(b, snap_left(b, p)) == snap_left(b, p),
{
    lemma_snap_left_props(b, p);
}

/// A position within a prefix cut at a code-point boundary is a boundary of
/// the prefix exactly when it is a boundary of the whole sequence.
pub proof fn lemma_boundary_in_prefix(b: Seq<u8>, c: int, j: int)
    requires
        valid_utf8(b),
        is_char_boundary(b, c),
        0 <= c <= b.len(),
        0 <= j <= c,
    ensures
        is_char_boundary(b.subrange(0, c), j) <==> is_char_boundary(b, j),
{
    broadcast use is_char_boundary_start_end_of_seq;

    valid_utf8_split(b, c);
    let pre = b.subrange(0, c);
    if j == c {
        assert(is_char_boundary(pre, j));
    } else if j == 0 {
    } else {
        is_char_boundary_iff_not_is_continuation_byte(pre, j);
        is_char_boundary_iff_not_is_continuation_byte(b, j);
        assert(pre[j] == b[j]);
    }
}

/// A position within a suffix cut at a code-point boundary is a boundary of
/// the suffix exactly when the corresponding position is a boundary of the
/// whole sequence.
pub proof fn lemma_boundary_in_suffix(b: Seq<u8>, c: int, j: int)
    requires
        valid_utf8(b),
        is_char_boundary(b, c),
        0 <= c <= b.len(),
        0 <= j <= b.len() - c,
    ensures
        is_char_boundary(b.subrange(c, b.len() as int), j) <==> is_char_boundary(b, c + j),
{
    broadcast use is_char_boundary_start_end_of_seq;

    valid_utf8_split(b, c);
    let suf = b.subrange(c, b.len() as int);
    if j == 0 {
        assert(is_char_boundary(suf, j));
    } else if c + j == b.len() {
        assert(is_char_boundary(suf, j));
        assert(is_char_boundary(b, c + j));
    } else {
        is_char_boundary_iff_not_is_continuation_byte(suf, j);
        is_char_boundary_iff_not_is_continuation_byte(b, c + j);
        assert(suf[j] == b[c + j]);
    }
}

/// All bytes of the first scalar's encoding past the leading byte are
/// continuation bytes, and the encoding fits in the sequence.
pub proof fn lemma_first_scalar_continuations(s: Seq<u8>)
    requires
        valid_utf8(s),
        s.len() > 0,
    ensures
        length_of_first_scalar(s) <= s.len(),
        forall|k: int| 1 <= k < length_of_first_scalar(s) ==> is_continuation_byte(#[trigger] s[k]),
{
    assert(valid_first_scalar(s));
}

/// From a code-point boundary, the next boundary to the right lies exactly one
/// scalar encoding away.
pub proof fn lemma_next_boundary_is_first_scalar(b: Seq<u8>, p: int)
    requires
        valid_utf8(b),
        is_char_boundary(b, p),
        0 <= p < b.len(),
    ensures
        p + length_of_first_scalar(b.subrange(p, b.len() as int)) <= b.len(),
        snap_right(b, p + 1) == p + length_of_first_scalar(b.subrange(p, b.len() as int)),
{
    broadcast use is_char_boundary_start_end_of_seq;

    valid_utf8_split(b, p);
    let suf = b.subrange(p, b.len() as int);
    let l = length_of_first_scalar(suf);
    lemma_first_scalar_continuations(suf);
    lemma_first_scalar_boundary(suf);
    lemma_boundary_in_suffix(b, p, l);
    assert(is_char_boundary(b, p + l));
    assert forall|k: int| p < k < p + l implies !is_char_boundary(b, k) by {
        lemma_boundary_in_suffix(b, p, k - p);
        is_char_boundary_iff_not_is_continuation_byte(suf, k - p);
        assert(is_continuation_byte(suf[k - p]));
    }
    lemma_snap_right_props(b, p + 1);
    let r = snap_right(b, p + 1);
    if r < p + l {
        assert(!is_char_boundary(b, r));
        assert(false);
    }
    if r > p + l {
        assert(!is_char_boundary(b, p + l));
        assert(false);
    }
}

/// From a code-point boundary, the previous boundary to the left lies exactly
/// one scalar encoding away: the last scalar of the bytes before it.  The
/// value read forward from that previous boundary is that same scalar.
pub proof fn lemma_prev_boundary_is_last_scalar(b: Seq<u8>, p: int)
    requires
        valid_utf8(b),
        is_char_boundary(b, p),
        0 < p <= b.len(),
    ensures
        1 <= length_of_last_scalar(b.subrange(0, p)) <= p,
        snap_left(b, p - 1) == p - length_of_last_scalar(b.subrange(0, p)),
        decode_last_scalar(b.subrange(0, p)) == decode_first_scalar(
            b.subrange(snap_left(b, p - 1), b.len() as int),
        ),
{
    let pre = b.subrange(0, p);
    lemma_snap_left_props(b, p - 1);
    let s0 = snap_left(b, p - 1);
    lemma_next_boundary_is_first_scalar(b, s0);
    lemma_snap_right_props(b, s0 + 1);
    let suf = b.subrange(s0, b.len() as int);
    let lf = length_of_first_scalar(suf);
    // the next boundary after s0 is p itself
    if s0 + lf < p {
        assert(!is_char_boundary(b, s0 + lf));
        assert(false);
    }
    if s0 + lf > p {
        assert(!is_char_boundary(b, p));
        assert(false);
    }
    let d = p - s0;
    assert(d == lf);
    // bytes strictly between the two boundaries are continuation bytes
    assert forall|k: int| s0 < k < p implies is_continuation_byte(#[trigger] b[k]) by {
        is_char_boundary_iff_not_is_continuation_byte(b, k);
    }
    if s0 < b.len() {
        is_char_boundary_iff_not_is_continuation_byte(b, s0);
    }
    valid_utf8_split(b, s0);
    assert(valid_first_scalar(suf));
    lemma_first_scalar_continuations(suf);
    // the trailing continuation pattern of the prefix therefore has length d
    assert(pre.len() == p);
    assert(forall|i: int| 0 <= i < p ==> pre[i] == b[i]);
    if d == 1 {
        assert(!is_continuation_byte(pre[p - 1]));
        assert(length_of_last_scalar(pre) == 1);
    } else if d == 2 {
        assert(is_continuation_byte(pre[p - 1]) && !is_continuation_byte(pre[p - 2]));
        assert(length_of_last_scalar(pre) == 2);
    } else if d == 3 {
        assert(is_continuation_byte(pre[p - 1]) && is_continuation_byte(pre[p - 2])
            && !is_continuation_byte(pre[p - 3]));
        assert(length_of_last_scalar(pre) == 3);
    } else {
        assert(d == 4);
        assert(is_continuation_byte(pre[p - 1]) && is_continuation_byte(pre[p - 2])
            && is_continuation_byte(pre[p - 3]));
        assert(length_of_last_scalar(pre) == 4);
    }
    // both decodings read the same byte window between the two boundaries
    assert(suf[0] == b[s0]);
    if d >= 2 {
        assert(suf[1] == b[s0 + 1]);
    }
    if d >= 3 {
        assert(suf[2] == b[s0 + 2]);
    }
    if d >= 4 {
        assert(suf[3] == b[s0 + 3]);
    }
    assert(decode_last_scalar(pre) == decode_first_scalar(suf));
}

/// True when stepping right one code point at a time from `p` lands exactly on
/// `q`, never overshooting it.
pub open spec fn cp_reaches(b: Seq<u8>, p: int, q: int) -> bool
    decreases q - p,
    when 0 <= p && q <= b.len() && valid_utf8(b)
    via cp_reaches_decreases
{
    if p >= q {
        p == q
    } else {
        let p2 = snap_right(b, p + 1);
        if p2 <= q {
            cp_reaches(b, p2, q)
        } else {
            false
        }
    }
}

#[via_fn]
proof fn cp_reaches_decreases(b: Seq<u8>, p: int, q: int) {
    if p < q {
        lemma_snap_right_props(b, p + 1);
    }
}

/// Between any two code-point boundaries, repeated code-point stepping to the
/// right walks from the lower one exactly onto the higher one.
pub proof fn lemma_cp_steps_reach_boundary(b: Seq<u8>, p: int, q: int)
    requires
        valid_utf8(b),
        is_char_boundary(b, p),
        is_char_boundary(b, q),
        0 <= p <= q <= b.len(),
    ensures
        cp_reaches(b, p, q),
    decreases q - p,
{
    if p == q {
    } else {
        lemma_snap_right_props(b, p + 1);
        let p2 = snap_right(b, p + 1);
        if q < p2 {
            assert(!is_char_boundary(b, q));
            assert(false);
        }
        lemma_cp_steps_reach_boundary(b, p2, q);
    }
}

/// Seeks the given byte position left to the first code-point boundary of `s`.
///
/// If `from` is already on a code-point boundary, it is returned unchanged.
pub fn seek_utf8_cp_start_left(s: &str, from: usize) -> (r: usize)
    requires
        from <= s.spec_bytes().len(),
    ensures
        r == snap_left(s.spec_bytes(), from as int),
{
    broadcast use encode_utf8_valid_utf8;
    broadcast use is_char_boundary_start_end_of_seq;

    let b = s.as_bytes();
    let n = b.len();
    let ghost bs = s.spec_bytes();
    let mut i = from;
    while i > 0 && i < n && (b[i] & 0xC0) == 0x80
        invariant
            b@ == bs,
            n == bs.len(),
            valid_utf8(bs),
            0 <= i <= from <= n,
            snap_left(bs, from as int) == snap_left(bs, i as int),
        decreases i,
    {
        proof {
            let x = bs[i as int];
            assert((x & 0xC0) == 0x80 ==> (0x80 <= x && x <= 0xbf)) by (bit_vector);
            assert(is_continuation_byte(x));
            is_char_boundary_iff_not_is_continuation_byte(bs, i as int);
            assert(!is_char_boundary(bs, i as int));
        }
        i = i - 1;
    }
    proof {
        if i > 0 && i < n {
            let x = bs[i as int];
            assert(!((x & 0xC0) == 0x80) ==> !(0x80 <= x && x <= 0xbf)) by (bit_vector);
            assert(!is_continuation_byte(x));
            is_char_boundary_iff_not_is_continuation_byte(bs, i as int);
            assert(is_char_boundary(bs, i as int));
        }
        assert(snap_left(bs, i as int) == i);
    }
    i
}

/// Seeks the given byte position right to the first code-point boundary of
/// `s`.  The very end of the string counts as a boundary.
///
/// If `from` is already on a code-point boundary, it is returned unchanged.
pub fn seek_utf8_cp_start_right(s: &str, from: usize) -> (r: usize)
    requires
        from <= s.spec_bytes().len(),
    ensures
        r == snap_right(s.spec_bytes(), from as int),
{
    broadcast use encode_utf8_valid_utf8;
    broadcast use is_char_boundary_start_end_of_seq;

    let b = s.as_bytes();
    let n = b.len();
    let ghost bs = s.spec_bytes();
    let mut i = from;
    while i < n && (b[i] & 0xC0) == 0x80
        invariant
            b@ == bs,
            n == bs.len(),
            valid_utf8(bs),
            from <= i <= n,
            snap_right(bs, from as int) == snap_right(bs, i as int),
        decreases n - i,
    {
        proof {
            let x = bs[i as int];
            assert((x & 0xC0) == 0x80 ==> (0x80 <= x && x <= 0xbf)) by (bit_vector);
            assert(is_continuation_byte(x));
            is_char_boundary_iff_not_is_continuation_byte(bs, i as int);
            assert(!is_char_boundary(bs, i as int));
        }
        i = i + 1;
    }
    proof {
        if i < n {
            let x = bs[i as int];
            assert(!((x & 0xC0) == 0x80) ==> !(0x80 <= x && x <= 0xbf)) by (bit_vector);
            assert(!is_continuation_byte(x));
            is_char_boundary_iff_not_is_continuation_byte(bs, i as int);
            assert(is_char_boundary(bs, i as int));
        }
        assert(snap_right(bs, i as int) == i);
    }
    i
}

/// The UTF-8 encoding of a character sequence is at least as long as the
/// sequence and at most four times as long.
pub proof fn lemma_encode_utf8_len(chars: Seq<char>)
    ensures
        chars.len() <= encode_utf8(chars).len() <= 4 * chars.len(),
    decreases chars.len(),
{
    if chars.len() == 0 {
    } else {
        broadcast use char_is_scalar;

        lemma_encode_utf8_len(chars.drop_first());
        assert(1 <= encode_scalar(chars[0] as u32).len() <= 4);
    }
}

/// UTF-8 encoding distributes over concatenation of character sequences.
pub proof fn lemma_encode_utf8_concat(c1: Seq<char>, c2: Seq<char>)
    ensures
        encode_utf8(c1 + c2) == encode_utf8(c1) + encode_utf8(c2),
    decreases c1.len(),
{
    if c1.len() == 0 {
        assert(c1 + c2 =~= c2);
        assert(encode_utf8(c1) + encode_utf8(c2) =~= encode_utf8(c2));
    } else {
        lemma_encode_utf8_concat(c1.drop_first(), c2);
        assert((c1 + c2).drop_first() =~= c1.drop_first() + c2);
        assert((c1 + c2)[0] == c1[0]);
        assert(encode_utf8(c1 + c2) =~= encode_utf8(c1) + encode_utf8(c2));
    }
}

/// The UTF-8 encoding of a one-character sequence is that character's scalar
/// encoding.
pub proof fn lemma_encode_single(c: char)
    ensures
        encode_utf8(seq![c]) == encode_scalar(c as u32),
{
    assert(seq![c].drop_first() =~= Seq::<char>::empty());
    assert(encode_utf8(Seq::<char>::empty()) =~= Seq::<u8>::empty());
    assert(encode_utf8(seq![c]) =~= encode_scalar(c as u32) + encode_utf8(seq![c].drop_first()));
    assert(encode_utf8(seq![c]) =~= encode_scalar(c as u32));
}

/// UTF-8 encoding is injective on character sequences.
pub proof fn lemma_encode_utf8_injective(c1: Seq<char>, c2: Seq<char>)
    requires
        encode_utf8(c1) == encode_utf8(c2),
    ensures
        c1 == c2,
{
    encode_utf8_decode_utf8(c1);
    encode_utf8_decode_utf8(c2);
}

/// In a valid nonempty UTF-8 sequence, the end of the first scalar's encoding
/// is a code-point boundary.
pub proof fn lemma_first_scalar_boundary(b: Seq<u8>)
    requires
        valid_utf8(b),
        b.len() > 0,
    ensures
        is_char_boundary(b, length_of_first_scalar(b)),
{
    broadcast use is_char_boundary_start_end_of_seq;

    assert(is_char_boundary(b, length_of_first_scalar(b)) == is_char_boundary(
        pop_first_scalar(b),
        0,
    ));
}

/// Byte length of the leading code point of a nonempty string.
pub fn first_scalar_len(s: &str) -> (r: usize)
    requires
        s@.len() > 0,
    ensures
        r == length_of_first_scalar(s.spec_bytes()),
        1 <= r <= s.spec_bytes().len(),
{
    broadcast use encode_utf8_valid_utf8;

    let b = s.as_bytes();
    let ghost bs = s.spec_bytes();
    proof {
        lemma_encode_utf8_len(s@);
        assert(valid_first_scalar(bs));
    }
    let x = b[0];
    if x < 0x80 {
        1
    } else if x < 0xE0 {
        proof {
            assert(!(x < 0x80) && x < 0xE0 ==> !(0x00 <= x <= 0x7f) && !(0xe0 <= x <= 0xef) && !(
            0xf0 <= x <= 0xf7)) by (bit_vector);
        }
        2
    } else if x < 0xF0 {
        3
    } else {
        4
    }
}

/// Exact equality of two byte slices.
pub fn bytes_eq(a: &[u8], b: &[u8]) -> (r: bool)
    ensures
        r == (a@ == b@),
{
    let n = a.len();
    if n != b.len() {
        return false;
    }
    let mut i: usize = 0;
    while i < n
        invariant
            n == a@.len() == b@.len(),
            0 <= i <= n,
            forall|j: int| 0 <= j < i ==> a@[j] == b@[j],
        decreases n - i,
    {
        if a[i] != b[i] {
            return false;
        }
        i = i + 1;
    }
    proof {
        assert(a@ =~= b@);
    }
    true
}

/// Exact content equality of two strings.
pub fn str_content_eq(a: &str, b: &str) -> (r: bool)
    ensures
        r == (a@ == b@),
{
    let r = bytes_eq(a.as_bytes(), b.as_bytes());
    proof {
        if a.spec_bytes() == b.spec_bytes() {
            lemma_encode_utf8_injective(a@, b@);
        }
    }
    r
}

/// Lexicographic order of two byte sequences.
pub open spec fn lex_cmp_bytes(a: Seq<u8>, b: Seq<u8>) -> core::cmp::Ordering
    decreases a.len(),
{
    if a.len() == 0 && b.len() == 0 {
        core::cmp::Ordering::Equal
    } else if a.len() == 0 {
        core::cmp::Ordering::Less
    } else if b.len() == 0 {
        core::cmp::Ordering::Greater
    } else if a[0] < b[0] {
        core::cmp::Ordering::Less
    } else if a[0] > b[0] {
        core::cmp::Ordering::Greater
    } else {
        lex_cmp_bytes(a.drop_first(), b.drop_first())
    }
}

/// Lexicographic comparison of two byte slices, the order `str` comparison
/// uses.
pub fn lex_compare_bytes(a: &[u8], b: &[u8]) -> (r: core::cmp::Ordering)
    ensures
        r == lex_cmp_bytes(a@, b@),
{
    let na = a.len();
    let nb = b.len();
    proof {
        assert(a@.subrange(0, na as int) =~= a@);
        assert(b@.subrange(0, nb as int) =~= b@);
    }
    let mut i: usize = 0;
    while i < na && i < nb && a[i] == b[i]
        invariant
            na == a@.len(),
            nb == b@.len(),
            0 <= i <= na,
            0 <= i <= nb,
            forall|j: int| 0 <= j < i ==> a@[j] == b@[j],
            lex_cmp_bytes(a@, b@) == lex_cmp_bytes(
                a@.subrange(i as int, na as int),
                b@.subrange(i as int, nb as int),
            ),
        decreases na - i,
    {
        proof {
            let sa = a@.subrange(i as int, na as int);
            let sb = b@.subrange(i as int, nb as int);
            assert(sa.drop_first() =~= a@.subrange(i + 1, na as int));
            assert(sb.drop_first() =~= b@.subrange(i + 1, nb as int));
        }
        i = i + 1;
    }
    let ghost sa = a@.subrange(i as int, na as int);
    let ghost sb = b@.subrange(i as int, nb as int);
    if i == na && i == nb {
        core::cmp::Ordering::Equal
    } else if i == na {
        core::cmp::Ordering::Less
    } else if i == nb {
        core::cmp::Ordering::Greater
    } else if a[i] < b[i] {
        core::cmp::Ordering::Less
    } else {
        proof {
            assert(a@[i as int] > b@[i as int]);
        }
        core::cmp::Ordering::Greater
    }
}

/// The number of bytes the raw encoder emits for a 32-bit value, by the
/// standard UTF-8 thresholds.
pub open spec fn encoded_width(code: u32) -> int {
    if code < 0x80 {
        1
    } else if code < 0x800 {
        2
    } else if code < 0x10000 {
        3
    } else {
        4
    }
}

/// The bytes the raw encoder emits for a 32-bit value.
pub open spec fn encoded_bytes(code: u32) -> Seq<u8> {
    if code < 0x80 {
        seq![code as u8]
    } else if code < 0x800 {
        seq![(((code >> 6) & 0x1F) as u8) | 0xC0, ((code & 0x3F) as u8) | 0x80]
    } else if code < 0x10000 {
        seq![
            (((code >> 12) & 0x0F) as u8) | 0xE0,
            (((code >> 6) & 0x3F) as u8) | 0x80,
            ((code & 0x3F) as u8) | 0x80,
        ]
    } else {
        seq![
            (((code >> 18) & 0x07) as u8) | 0xF0,
            (((code >> 12) & 0x3F) as u8) | 0x80,
            (((code >> 6) & 0x3F) as u8) | 0x80,
            ((code & 0x3F) as u8) | 0x80,
        ]
    }
}

/// On a Unicode scalar value the raw encoder agrees with the standard UTF-8
/// encoding of that scalar.
pub proof fn lemma_encoded_bytes_is_encode_scalar(code: u32)
    requires
        is_scalar(code),
    ensures
        encoded_bytes(code) == encode_scalar(code),
{
    if code < 0x80 {
        assert(code & 0x7F == code) by (bit_vector)
            requires
                code < 0x80,
        ;
        assert(encoded_bytes(code) =~= encode_scalar(code));
    } else if code < 0x800 {
        assert((((code >> 6) & 0x1F) as u8) | 0xC0 == 0xC0 | (((code >> 6) & 0x1F) as u8))
            by (bit_vector);
        assert(((code & 0x3F) as u8) | 0x80 == 0x80 | ((code & 0x3F) as u8)) by (bit_vector);
        assert(encoded_bytes(code) =~= encode_scalar(code));
    } else if code < 0x10000 {
        assert((((code >> 12) & 0x0F) as u8) | 0xE0 == 0xE0 | (((code >> 12) & 0x0F) as u8))
            by (bit_vector);
        assert((((code >> 6) & 0x3F) as u8) | 0x80 == 0x80 | (((code >> 6) & 0x3F) as u8))
            by (bit_vector);
        assert(((code & 0x3F) as u8) | 0x80 == 0x80 | ((code & 0x3F) as u8)) by (bit_vector);
        assert(encoded_bytes(code) =~= encode_scalar(code));
    } else {
        assert((((code >> 18) & 0x07) as u8) | 0xF0 == 0xF0 | (((code >> 18) & 0x7) as u8))
            by (bit_vector);
        assert((((code >> 12) & 0x3F) as u8) | 0x80 == 0x80 | (((code >> 12) & 0x3F) as u8))
            by (bit_vector);
        assert((((code >> 6) & 0x3F) as u8) | 0x80 == 0x80 | (((code >> 6) & 0x3F) as u8))
            by (bit_vector);
        assert(((code & 0x3F) as u8) | 0x80 == 0x80 | ((code & 0x3F) as u8)) by (bit_vector);
        assert(encoded_bytes(code) =~= encode_scalar(code));
    }
}

/// Encodes a 32-bit code point into the front of `dst` using the standard
/// UTF-8 thresholds, returning how many bytes were written, or nothing when
/// `dst` is too small to hold the encoding.
pub fn encode_utf8_raw(code: u32, dst: &mut Vec<u8>) -> (r: Option<usize>)
    ensures
        final(dst)@.len() == old(dst)@.len(),
        r is Some <==> old(dst)@.len() >= encoded_width(code),
        r matches Some(n) ==> n == encoded_width(code) && final(dst)@ =~= encoded_bytes(code)
            + old(dst)@.subrange(n as int, old(dst)@.len() as int),
        r matches Some(n) ==> (is_scalar(code) ==> final(dst)@.subrange(0, n as int)
            == encode_scalar(code)),
        r is None ==> final(dst)@ == old(dst)@,
{
    proof {
        if is_scalar(code) {
            lemma_encoded_bytes_is_encode_scalar(code);
            assert(encoded_bytes(code).len() == encoded_width(code));
        }
    }
    let len = dst.len();
    if code < 0x80 && len >= 1 {
        assert(code < 0x80 ==> code & 0xFF == code) by (bit_vector);
        dst[0] = (code & 0xFF) as u8;
        assert(dst@ =~= encoded_bytes(code) + old(dst)@.subrange(1, old(dst)@.len() as int));
        Some(1)
    } else if code < 0x800 && len >= 2 {
        assert((code >> 6) & 0x1F < 0x100 && code & 0x3F < 0x100) by (bit_vector);
        dst[0] = (((code >> 6) & 0x1F) as u8) | 0xC0;
        dst[1] = ((code & 0x3F) as u8) | 0x80;
        assert(dst@ =~= encoded_bytes(code) + old(dst)@.subrange(2, old(dst)@.len() as int));
        Some(2)
    } else if code < 0x10000 && len >= 3 {
        assert((code >> 12) & 0x0F < 0x100 && (code >> 6) & 0x3F < 0x100 && code & 0x3F < 0x100)
            by (bit_vector);
        dst[0] = (((code >> 12) & 0x0F) as u8) | 0xE0;
        dst[1] = (((code >> 6) & 0x3F) as u8) | 0x80;
        dst[2] = ((code & 0x3F) as u8) | 0x80;
        assert(dst@ =~= encoded_bytes(code) + old(dst)@.subrange(3, old(dst)@.len() as int));
        Some(3)
    } else if code >= 0x10000 && len >= 4 {
        assert((code >> 18) & 0x07 < 0x100 && (code >> 12) & 0x3F < 0x100 && (code >> 6) & 0x3F
            < 0x100 && code & 0x3F < 0x100) by (bit_vector);
        dst[0] = (((code >> 18) & 0x07) as u8) | 0xF0;
        dst[1] = (((code >> 12) & 0x3F) as u8) | 0x80;
        dst[2] = (((code >> 6) & 0x3F) as u8) | 0x80;
        dst[3] = ((code & 0x3F) as u8) | 0x80;
        assert(dst@ =~= encoded_bytes(code) + old(dst)@.subrange(4, old(dst)@.len() as int));
        Some(4)
    } else {
        None
    }
}

/// Compares two string slices for buffer identity rather than content.
///
/// Relies on `str::as_ptr` and `str::len`: the result is `true` only when the
/// two slices start at the same memory location and have the same length, in
/// which case they are views of the very same bytes and therefore hold equal
/// text.  Which distinct slices compare unequal depends on where the host
/// placed them, so nothing more is promised.
#[verifier::external_body]
pub fn str_eq_literal(a: &str, b: &str) -> (r: bool)
    ensures
        r ==> a@ == b@,
{
    a.as_bytes().as_ptr() == b.as_bytes().as_ptr() && a.len() == b.len()
}

} // verus!
