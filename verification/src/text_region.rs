//! Byte-offset positions and spans, and an index of a source text's line
//! breaks for mapping offsets to line numbers.
use vstd::prelude::*;

verus! {

/// A single absolute byte offset into a source text.
#[derive(Debug, PartialEq, Eq, Hash, Clone, Copy, Structural)]
pub struct TextPosition {
    pub idx: usize,
}

/// A half-open byte range `[idx, idx + len)` of a source text.
#[derive(Debug, PartialEq, Eq, Hash, Clone, Copy, Structural)]
pub struct TextSpan {
    pub len: usize,
    pub idx: usize,
}

/// The positions of every line-feed byte of `s`, in increasing order.
pub open spec fn line_breaks(s: Seq<u8>) -> Seq<usize>
    decreases s.len(),
{
    if s.len() == 0 {
        Seq::empty()
    } else if s.last() == 10u8 {
        line_breaks(s.drop_last()).push((s.len() - 1) as usize)
    } else {
        line_breaks(s.drop_last())
    }
}

/// Every recorded line break lies inside `s`, marks a line-feed byte, the
/// sequence is strictly increasing, and no line-feed byte is missing from it.
pub proof fn lemma_line_breaks_props(s: Seq<u8>)
    requires
        s.len() <= usize::MAX,
    ensures
        forall|i: int|
            0 <= i < line_breaks(s).len() ==> (#[trigger] line_breaks(s)[i]) < s.len()
                && s[line_breaks(s)[i] as int] == 10u8,
        forall|i: int, j: int|
            0 <= i < j < line_breaks(s).len() ==> #[trigger] line_breaks(s)[i]
                < #[trigger] line_breaks(s)[j],
        forall|p: int|
            0 <= p < s.len() && s[p] == 10u8 ==> exists|i: int|
                0 <= i < line_breaks(s).len() && #[trigger] line_breaks(s)[i] == p,
    decreases s.len(),
{
    if s.len() > 0 {
        lemma_line_breaks_props(s.drop_last());
        let t = s.drop_last();
        assert forall|i: int|
            0 <= i < line_breaks(s).len() implies (#[trigger] line_breaks(s)[i]) < s.len()
            && s[line_breaks(s)[i] as int] == 10u8 by {
            if i < line_breaks(t).len() {
                assert(line_breaks(s)[i] == line_breaks(t)[i]);
                assert(t[line_breaks(t)[i] as int] == s[line_breaks(t)[i] as int]);
            }
        }
        assert forall|p: int|
            0 <= p < s.len() && s[p] == 10u8 implies exists|i: int|
            0 <= i < line_breaks(s).len() && #[trigger] line_breaks(s)[i] == p by {
            if p == s.len() - 1 {
                assert(line_breaks(s)[line_breaks(s).len() - 1] == p);
            } else {
                assert(t[p] == s[p]);
                let i = choose|i: int|
                    0 <= i < line_breaks(t).len() && #[trigger] line_breaks(t)[i] == p;
                assert(line_breaks(s)[i] == p);
            }
        }
    }
}

/// Where line `n` of a text with line-feed positions `lfs` starts: offset 0
/// for line 0, else one past the preceding line feed.
pub open spec fn line_start_of(lfs: Seq<usize>, n: int) -> int {
    if n == 0 {
        0
    } else {
        lfs[n - 1] + 1
    }
}

/// Where line `n` ends: one past its own line feed, or the end of the text
/// for the final line.
pub open spec fn line_end_of(text: Seq<u8>, lfs: Seq<usize>, n: int) -> int {
    if n < lfs.len() {
        lfs[n] + 1
    } else {
        text.len() as int
    }
}

/// Whether line `n` exists: lines ending in a line feed always do, and the
/// final line only when it is not the empty tail after a terminating line
/// feed.
pub open spec fn line_exists_of(text: Seq<u8>, lfs: Seq<usize>, n: int) -> bool {
    0 <= n <= lfs.len() && line_start_of(lfs, n) < text.len()
}

/// A source text together with the sorted positions of its line feeds, for
/// turning byte offsets into line numbers and retrieving single lines.
#[derive(Debug, PartialEq, Eq, Hash, Clone)]
pub struct Text<'t> {
    inner: &'t [u8],
    line_feed_indices: Vec<usize>,
}

impl<'t> Text<'t> {
    /// The indexed source text.
    pub closed spec fn text(self) -> Seq<u8> {
        self.inner@
    }

    /// The recorded line-feed positions.
    pub closed spec fn lfs(self) -> Seq<usize> {
        self.line_feed_indices@
    }

    /// The index is exactly the line-break table of its text.
    pub open spec fn wf(self) -> bool {
        self.lfs() == line_breaks(self.text())
    }

    /// Scans the text once and records the position of every line feed.
    pub fn new(s: &'t [u8]) -> (r: Text<'t>)
        ensures
            r.wf(),
            r.text() == s@,
    {
        let mut indices: Vec<usize> = Vec::new();
        let mut i: usize = 0;
        while i < s.len()
            invariant
                i <= s.len(),
                indices@ == line_breaks(s@.take(i as int)),
            decreases s.len() - i,
        {
            proof {
                assert(s@.take(i + 1).drop_last() =~= s@.take(i as int));
                assert(s@.take(i + 1).last() == s@[i as int]);
            }
            if s[i] == 10u8 {
                indices.push(i);
            }
            i += 1;
        }
        proof {
            assert(s@.take(s@.len() as int) =~= s@);
        }
        Text { inner: s, line_feed_indices: indices }
    }

    /// Returns the number of the line that byte offset `idx` falls in,
    /// counting from 0. The result equals the number of line feeds at
    /// positions strictly before `idx`, so the offset of a line feed itself is
    /// reported as belonging to the line that the line feed ends.
    pub fn find_line(&self, idx: usize) -> (r: usize)
        requires
            self.wf(),
        ensures
            r <= self.lfs().len(),
            forall|i: int| 0 <= i < r ==> (#[trigger] self.lfs()[i]) < idx,
            forall|i: int| r <= i < self.lfs().len() ==> (#[trigger] self.lfs()[i]) >= idx,
    {
        let n = self.inner.len();
        proof {
            lemma_line_breaks_props(self.text());
        }
        let mut lo: usize = 0;
        let mut hi: usize = self.line_feed_indices.len();
        while lo < hi
            invariant
                lo <= hi <= self.lfs().len(),
                forall|i: int| 0 <= i < lo ==> (#[trigger] self.lfs()[i]) < idx,
                forall|i: int| hi <= i < self.lfs().len() ==> (#[trigger] self.lfs()[i]) >= idx,
                forall|i: int, j: int|
                    0 <= i < j < self.lfs().len() ==> #[trigger] self.lfs()[i]
                        < #[trigger] self.lfs()[j],
            decreases hi - lo,
        {
            let mid = lo + (hi - lo) / 2;
            if self.line_feed_indices[mid] < idx {
                lo = mid + 1;
            } else {
                hi = mid;
            }
        }
        lo
    }

    /// The full source text this index was built over.
    pub fn inner(&self) -> (r: &'t [u8])
        ensures
            r@ == self.text(),
    {
        self.inner
    }

    /// Where line `n` starts: offset 0 for line 0, else one past the
    /// preceding line feed.
    pub open spec fn line_start(self, n: int) -> int {
        line_start_of(self.lfs(), n)
    }

    /// Where line `n` ends: one past its own line feed, or the end of the
    /// text for the final line.
    pub open spec fn line_end(self, n: int) -> int {
        line_end_of(self.text(), self.lfs(), n)
    }

    /// Whether line `n` exists: lines ending in a line feed always do, and
    /// the final line only when it is not the empty tail after a terminating
    /// line feed.
    pub open spec fn line_exists(self, n: int) -> bool {
        line_exists_of(self.text(), self.lfs(), n)
    }

    /// Returns the `line`-th line of the text, counted from 0, including its
    /// trailing line feed if it has one; `None` past the end of the text, and
    /// for the empty tail after a final line feed.
    pub fn line(&self, line: usize) -> (r: Option<&'t [u8]>)
        requires
            self.wf(),
        ensures
            match r {
                Some(l) => self.line_exists(line as int) && l@ == self.text().subrange(
                    self.line_start(line as int),
                    self.line_end(line as int),
                ),
                None => !self.line_exists(line as int),
            },
    {
        let n = self.inner.len();
        proof {
            lemma_line_breaks_props(self.text());
        }
        if line > self.line_feed_indices.len() {
            return None;
        }
        let start: usize = if line == 0 {
            0
        } else {
            self.line_feed_indices[line - 1] + 1
        };
        let end: usize = if line < self.line_feed_indices.len() {
            self.line_feed_indices[line] + 1
        } else {
            self.inner.len()
        };
        if start >= self.inner.len() {
            return None;
        }
        Some(vstd::slice::slice_subrange(self.inner, start, end))
    }

    /// Returns a cursor over the lines of the text, starting at line 0.
    pub fn lines(&'t self) -> (r: Lines<'t>)
        requires
            self.wf(),
        ensures
            r.wf(),
            r.text_of() == self.text(),
            r.lfs_of() == self.lfs(),
            r.cursor() == 0,
    {
        Lines { idx: 0, inner: self }
    }
}

/// A cursor over the lines of a [`Text`], yielding them in order.
pub struct Lines<'t> {
    idx: usize,
    inner: &'t Text<'t>,
}

impl<'t> Lines<'t> {
    /// The underlying text.
    pub closed spec fn text_of(self) -> Seq<u8> {
        self.inner.text()
    }

    /// The line-feed positions of the underlying text.
    pub closed spec fn lfs_of(self) -> Seq<usize> {
        self.inner.lfs()
    }

    /// The number of the line the cursor stands on.
    pub closed spec fn cursor(self) -> int {
        self.idx as int
    }

    /// The cursor's text index is well formed.
    pub closed spec fn wf(self) -> bool {
        self.inner.wf()
    }

    /// Returns the line the cursor stands on, if it exists, and moves the
    /// cursor one line forward.
    pub fn next(&mut self) -> (r: Option<&'t [u8]>)
        requires
            old(self).wf(),
        ensures
            final(self).wf(),
            final(self).text_of() == old(self).text_of(),
            final(self).lfs_of() == old(self).lfs_of(),
            final(self).cursor() == if old(self).cursor() < usize::MAX {
                old(self).cursor() + 1
            } else {
                old(self).cursor()
            },
            match r {
                Some(l) => line_exists_of(old(self).text_of(), old(self).lfs_of(), old(self).cursor())
                    && l@ == old(self).text_of().subrange(
                    line_start_of(old(self).lfs_of(), old(self).cursor()),
                    line_end_of(old(self).text_of(), old(self).lfs_of(), old(self).cursor()),
                ),
                None => !line_exists_of(old(self).text_of(), old(self).lfs_of(), old(self).cursor()),
            },
    {
        let ret = self.inner.line(self.idx);
        if self.idx < usize::MAX {
            self.idx += 1;
        }
        ret
    }
}

} // verus!
