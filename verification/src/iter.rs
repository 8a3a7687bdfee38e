//! Iteration adapters: four lazy sequences (grapheme cluster or code point,
//! forward or backward), each driving a cursor one step at a time, with a
//! variant that also yields the cursor reached after each step.

use crate::cursor::StrCursor;
use crate::grapheme::Gc;
use vstd::prelude::*;
use vstd::utf8::*;

verus! {

/// A right-to-left iterator over grapheme clusters.
pub struct IterBefore<'a>(
    /// The current cursor position.
    pub StrCursor<'a>,
);

impl<'a> IterBefore<'a> {
    /// Add the post-movement cursor position to the iterator items.
    pub fn with_cursor(self) -> (r: IterBeforeCursor<'a>)
        ensures
            r.0 == self.0,
    {
        IterBeforeCursor(self.0)
    }

    /// The next grapheme cluster to the left, stepping the cursor over it;
    /// `None` once the cursor sits at the start.
    pub fn next(&mut self) -> (r: Option<Gc<'a>>)
        requires
            old(self).0.wf(),
        ensures
            final(self).0.wf(),
            final(self).0.buf() == old(self).0.buf(),
            r is Some <==> old(self).0.pos() > 0,
            r matches Some(g) ==> g.wf() && encode_utf8(g@) == old(self).0.buf_bytes().subrange(
                old(self).0.prev_gr_pos(),
                old(self).0.before_cluster_end(),
            ) && final(self).0.pos() == old(self).0.prev_gr_pos(),
            r is None ==> *final(self) == *old(self),
    {
        match self.0.prev() {
            Some((gc, cur)) => {
                self.0 = cur;
                Some(gc)
            },
            None => None,
        }
    }
}

/// A right-to-left iterator over grapheme clusters and cursor positions.
///
/// The pairs yielded are those [`StrCursor::prev`] returns at the current
/// position.
pub struct IterBeforeCursor<'a>(
    /// The current cursor position.
    pub StrCursor<'a>,
);

impl<'a> IterBeforeCursor<'a> {
    /// The next grapheme cluster to the left together with the cursor having
    /// stepped over it; `None` once the cursor sits at the start.
    pub fn next(&mut self) -> (r: Option<(Gc<'a>, StrCursor<'a>)>)
        requires
            old(self).0.wf(),
        ensures
            final(self).0.wf(),
            final(self).0.buf() == old(self).0.buf(),
            r is Some <==> old(self).0.pos() > 0,
            r matches Some((g, c)) ==> g.wf() && encode_utf8(g@) == old(self).0.buf_bytes().subrange(old(self).0.prev_gr_pos(), old(self).0.before_cluster_end())
                && c == final(self).0 && final(self).0.pos() == old(self).0.prev_gr_pos(),
            r is None ==> *final(self) == *old(self),
    {
        match self.0.prev() {
            Some((gc, cur)) => {
                self.0 = cur;
                Some((gc, cur))
            },
            None => None,
        }
    }
}

/// A left-to-right iterator over grapheme clusters.
pub struct IterAfter<'a>(
    /// The current cursor position.
    pub StrCursor<'a>,
);

impl<'a> IterAfter<'a> {
    /// Add the post-movement cursor position to the iterator items.
    pub fn with_cursor(self) -> (r: IterAfterCursor<'a>)
        ensures
            r.0 == self.0,
    {
        IterAfterCursor(self.0)
    }

    /// The next grapheme cluster to the right, stepping the cursor over it;
    /// `None` once the cursor sits at the end.
    pub fn next(&mut self) -> (r: Option<Gc<'a>>)
        requires
            old(self).0.wf(),
        ensures
            final(self).0.wf(),
            final(self).0.buf() == old(self).0.buf(),
            r is Some <==> old(self).0.pos() < old(self).0.buf_bytes().len(),
            r matches Some(g) ==> g.wf() && encode_utf8(g@) == old(self).0.buf_bytes().subrange(
                old(self).0.pos(),
                old(self).0.next_gr_pos(),
            ) && final(self).0.pos() == old(self).0.next_gr_pos(),
            r is None ==> *final(self) == *old(self),
    {
        match self.0.next() {
            Some((gc, cur)) => {
                self.0 = cur;
                Some(gc)
            },
            None => None,
        }
    }
}

/// A left-to-right iterator over grapheme clusters and cursor positions.
///
/// The pairs yielded are those [`StrCursor::next`] returns at the current
/// position.
pub struct IterAfterCursor<'a>(
    /// The current cursor position.
    pub StrCursor<'a>,
);

impl<'a> IterAfterCursor<'a> {
    /// The next grapheme cluster to the right together with the cursor having
    /// stepped over it; `None` once the cursor sits at the end.
    pub fn next(&mut self) -> (r: Option<(Gc<'a>, StrCursor<'a>)>)
        requires
            old(self).0.wf(),
        ensures
            final(self).0.wf(),
            final(self).0.buf() == old(self).0.buf(),
            r is Some <==> old(self).0.pos() < old(self).0.buf_bytes().len(),
            r matches Some((g, c)) ==> g.wf() && encode_utf8(g@) == old(self).0.buf_bytes().subrange(old(self).0.pos(), old(self).0.next_gr_pos()) && c == final(self).0 && final(self).0.pos() == old(self).0.next_gr_pos(),
            r is None ==> *final(self) == *old(self),
    {
        match self.0.next() {
            Some((gc, cur)) => {
                self.0 = cur;
                Some((gc, cur))
            },
            None => None,
        }
    }
}

/// A right-to-left iterator over code points.
pub struct IterCpBefore<'a>(
    /// The current cursor position.
    pub StrCursor<'a>,
);

impl<'a> IterCpBefore<'a> {
    /// Add the post-movement cursor position to the iterator items.
    pub fn with_cursor(self) -> (r: IterCpBeforeCursor<'a>)
        ensures
            r.0 == self.0,
    {
        IterCpBeforeCursor(self.0)
    }

    /// The next code point to the left, stepping the cursor over it; `None`
    /// once the cursor sits at the start.
    pub fn next(&mut self) -> (r: Option<char>)
        requires
            old(self).0.wf(),
        ensures
            final(self).0.wf(),
            final(self).0.buf() == old(self).0.buf(),
            r is Some <==> old(self).0.pos() > 0,
            r matches Some(ch) ==> ch == decode_utf8(
                old(self).0.buf_bytes().subrange(
                    old(self).0.prev_cp_pos(),
                    old(self).0.buf_bytes().len() as int,
                ),
            )[0] && final(self).0.pos() == old(self).0.prev_cp_pos(),
            r is None ==> *final(self) == *old(self),
    {
        match self.0.prev_cp() {
            Some((cp, cur)) => {
                self.0 = cur;
                Some(cp)
            },
            None => None,
        }
    }
}

/// A right-to-left iterator over code points and cursor positions.
///
/// The pairs yielded are those [`StrCursor::prev_cp`] returns at the current
/// position.
pub struct IterCpBeforeCursor<'a>(
    /// The current cursor position.
    pub StrCursor<'a>,
);

impl<'a> IterCpBeforeCursor<'a> {
    /// The next code point to the left together with the cursor having
    /// stepped over it; `None` once the cursor sits at the start.
    pub fn next(&mut self) -> (r: Option<(char, StrCursor<'a>)>)
        requires
            old(self).0.wf(),
        ensures
            final(self).0.wf(),
            final(self).0.buf() == old(self).0.buf(),
            r is Some <==> old(self).0.pos() > 0,
            r matches Some((ch, c)) ==> ch == decode_utf8(
                old(self).0.buf_bytes().subrange(
                    old(self).0.prev_cp_pos(),
                    old(self).0.buf_bytes().len() as int,
                ),
            )[0] && c == final(self).0 && final(self).0.pos() == old(self).0.prev_cp_pos(),
            r is None ==> *final(self) == *old(self),
    {
        match self.0.prev_cp() {
            Some((cp, cur)) => {
                self.0 = cur;
                Some((cp, cur))
            },
            None => None,
        }
    }
}

/// A left-to-right iterator over code points.
pub struct IterCpAfter<'a>(
    /// The current cursor position.
    pub StrCursor<'a>,
);

impl<'a> IterCpAfter<'a> {
    /// Add the post-movement cursor position to the iterator items.
    pub fn with_cursor(self) -> (r: IterCpAfterCursor<'a>)
        ensures
            r.0 == self.0,
    {
        IterCpAfterCursor(self.0)
    }

    /// The next code point to the right, stepping the cursor over it; `None`
    /// once the cursor sits at the end.
    pub fn next(&mut self) -> (r: Option<char>)
        requires
            old(self).0.wf(),
        ensures
            final(self).0.wf(),
            final(self).0.buf() == old(self).0.buf(),
            r is Some <==> old(self).0.pos() < old(self).0.buf_bytes().len(),
            r matches Some(ch) ==> ch == old(self).0.after_text()[0] && final(self).0.pos() == old(self).0.next_cp_pos(),
            r is None ==> *final(self) == *old(self),
    {
        match self.0.next_cp() {
            Some((cp, cur)) => {
                self.0 = cur;
                Some(cp)
            },
            None => None,
        }
    }
}

/// A left-to-right iterator over code points and cursor positions.
///
/// The pairs yielded are those [`StrCursor::next_cp`] returns at the current
/// position.
pub struct IterCpAfterCursor<'a>(
    /// The current cursor position.
    pub StrCursor<'a>,
);

impl<'a> IterCpAfterCursor<'a> {
    /// The next code point to the right together with the cursor having
    /// stepped over it; `None` once the cursor sits at the end.
    pub fn next(&mut self) -> (r: Option<(char, StrCursor<'a>)>)
        requires
            old(self).0.wf(),
        ensures
            final(self).0.wf(),
            final(self).0.buf() == old(self).0.buf(),
            r is Some <==> old(self).0.pos() < old(self).0.buf_bytes().len(),
            r matches Some((ch, c)) ==> ch == old(self).0.after_text()[0] && c == final(self).0
                && final(self).0.pos() == old(self).0.next_cp_pos(),
            r is None ==> *final(self) == *old(self),
    {
        match self.0.next_cp() {
            Some((cp, cur)) => {
                self.0 = cur;
                Some((cp, cur))
            },
            None => None,
        }
    }
}

} // verus!
