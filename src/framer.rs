//! Reassembly of a byte stream, arriving in chunks of any size, into
//! newline-delimited lines.
use vstd::prelude::*;

verus! {

/// The byte that ends a line.
pub const NEWLINE: u8 = 10;

/// Whether `s` holds no line delimiter.
pub open spec fn no_newline(s: Seq<u8>) -> bool {
    forall|i: int| 0 <= i < s.len() ==> s[i] != NEWLINE
}

/// The pieces of `s` between delimiters, in order: one more piece than `s`
/// has delimiters, the delimiters themselves dropped.
pub open spec fn split_lines(s: Seq<u8>) -> Seq<Seq<u8>>
    decreases s.len(),
{
    if s.len() == 0 {
        seq![Seq::empty()]
    } else {
        let p = split_lines(s.drop_last());
        if s.last() == NEWLINE {
            p.push(Seq::empty())
        } else {
            p.update(p.len() - 1, p.last().push(s.last()))
        }
    }
}

/// The lines of `s` that a delimiter has completed.
pub open spec fn complete_lines(s: Seq<u8>) -> Seq<Seq<u8>> {
    split_lines(s).drop_last()
}

/// What follows the last delimiter of `s`: a line not yet completed.
pub open spec fn remainder(s: Seq<u8>) -> Seq<u8> {
    split_lines(s).last()
}

/// The lines and the unfinished remainder after feeding `chunks`, one after
/// the other, to a framer that starts empty.
pub open spec fn frame_chunks(chunks: Seq<Seq<u8>>) -> (Seq<Seq<u8>>, Seq<u8>)
    decreases chunks.len(),
{
    if chunks.len() == 0 {
        (Seq::empty(), Seq::empty())
    } else {
        let (lines, rest) = frame_chunks(chunks.drop_last());
        let fed = rest + chunks.last();
        (lines + complete_lines(fed), remainder(fed))
    }
}

/// Every split has at least one piece, and no piece holds a delimiter.
pub proof fn lemma_split_pieces(s: Seq<u8>)
    ensures
        split_lines(s).len() >= 1,
        forall|i: int| 0 <= i < split_lines(s).len() ==> no_newline(#[trigger] split_lines(s)[i]),
    decreases s.len(),
{
    if s.len() > 0 {
        lemma_split_pieces(s.drop_last());
        let p = split_lines(s.drop_last());
        if s.last() != NEWLINE {
            assert forall|i: int| 0 <= i < split_lines(s).len() implies no_newline(
                #[trigger] split_lines(s)[i],
            ) by {
                if i == p.len() - 1 {
                    assert(no_newline(p[i]));
                    assert forall|j: int| 0 <= j < p[i].push(s.last()).len() implies p[i].push(
                        s.last(),
                    )[j] != NEWLINE by {
                        if j < p[i].len() {
                            assert(p[i][j] != NEWLINE);
                        }
                    }
                }
            }
        }
    }
}

/// A stretch without delimiters is one piece.
pub proof fn lemma_split_no_newline(s: Seq<u8>)
    requires
        no_newline(s),
    ensures
        split_lines(s) == seq![s],
    decreases s.len(),
{
    if s.len() > 0 {
        assert(s.last() != NEWLINE);
        lemma_split_no_newline(s.drop_last());
        assert(s.drop_last().push(s.last()) =~= s);
        assert(split_lines(s) =~= seq![s]);
    } else {
        assert(s =~= Seq::<u8>::empty());
    }
}

/// Splitting a concatenation: the last piece of `a` and the first piece of
/// `b` join into one.
pub proof fn lemma_split_append(a: Seq<u8>, b: Seq<u8>)
    ensures
        split_lines(a + b) == split_lines(a).drop_last() + seq![
            split_lines(a).last() + split_lines(b)[0],
        ] + split_lines(b).drop_first(),
    decreases b.len(),
{
    lemma_split_pieces(a);
    let sa = split_lines(a);
    if b.len() == 0 {
        assert(a + b =~= a);
        assert(sa.last() + Seq::<u8>::empty() =~= sa.last());
        assert(sa.drop_last() + seq![sa.last()] =~= sa);
        assert(split_lines(b).drop_first() =~= Seq::<Seq<u8>>::empty());
        assert(split_lines(a + b) =~= sa.drop_last() + seq![sa.last() + split_lines(b)[0]]
            + split_lines(b).drop_first());
    } else {
        let b0 = b.drop_last();
        lemma_split_append(a, b0);
        lemma_split_pieces(b0);
        assert((a + b).drop_last() =~= a + b0);
        assert((a + b).last() == b.last());
        let sb0 = split_lines(b0);
        let sb = split_lines(b);
        let x = split_lines(a + b0);
        if b.last() == NEWLINE {
            assert(sb =~= sb0.push(Seq::empty()));
            assert(sb.drop_first() =~= sb0.drop_first().push(Seq::empty()));
            assert(split_lines(a + b) =~= sa.drop_last() + seq![sa.last() + sb[0]]
                + sb.drop_first());
        } else {
            assert(sb =~= sb0.update(sb0.len() - 1, sb0.last().push(b.last())));
            if sb0.len() == 1 {
                assert(sb[0] =~= sb0[0].push(b.last()));
                assert((sa.last() + sb0[0]).push(b.last()) =~= sa.last() + sb[0]);
                assert(split_lines(a + b) =~= sa.drop_last() + seq![sa.last() + sb[0]]
                    + sb.drop_first());
            } else {
                assert(sb[0] == sb0[0]);
                assert(sb.drop_first() =~= sb0.drop_first().update(
                    sb0.len() - 2,
                    sb0.last().push(b.last()),
                ));
                assert(split_lines(a + b) =~= sa.drop_last() + seq![sa.last() + sb[0]]
                    + sb.drop_first());
            }
        }
    }
}

/// Feeding bytes to a buffer without delimiters: the completed lines followed
/// by the new remainder are the pieces of what the buffer held plus the bytes.
proof fn lemma_feed(rest: Seq<u8>, bytes: Seq<u8>)
    requires
        no_newline(rest),
    ensures
        split_lines(rest + bytes) == seq![rest + split_lines(bytes)[0]] + split_lines(
            bytes,
        ).drop_first(),
{
    lemma_split_no_newline(rest);
    lemma_split_append(rest, bytes);
    assert(seq![rest].drop_last() =~= Seq::<Seq<u8>>::empty());
    assert(Seq::<Seq<u8>>::empty() + seq![rest + split_lines(bytes)[0]] =~= seq![
        rest + split_lines(bytes)[0],
    ]);
}

proof fn lemma_frame_chunks_split(chunks: Seq<Seq<u8>>)
    ensures
        frame_chunks(chunks).0.push(frame_chunks(chunks).1) == split_lines(chunks.flatten_alt()),
    decreases chunks.len(),
{
    if chunks.len() == 0 {
        assert(chunks.flatten_alt() =~= Seq::<u8>::empty());
        assert(Seq::<Seq<u8>>::empty().push(Seq::<u8>::empty()) =~= seq![Seq::<u8>::empty()]);
    } else {
        let init = chunks.drop_last();
        let c = chunks.last();
        lemma_frame_chunks_split(init);
        let (lines, rest) = frame_chunks(init);
        let s0 = init.flatten_alt();
        lemma_split_pieces(s0);
        assert(split_lines(s0).last() == rest);
        assert(split_lines(s0).drop_last() =~= lines);
        lemma_split_append(s0, c);
        lemma_feed(rest, c);
        lemma_split_pieces(rest + c);
        let fed = split_lines(rest + c);
        assert(chunks.flatten_alt() =~= s0 + c);
        assert((lines + fed.drop_last()).push(fed.last()) =~= lines + fed);
        assert(split_lines(s0 + c) =~= lines + fed);
    }
}

/// However a byte stream is cut into chunks, feeding the chunks in order to
/// an empty framer yields exactly the stream's complete lines, in order, and
/// leaves its unfinished last line buffered.
pub proof fn lemma_chunk_invariance(chunks: Seq<Seq<u8>>)
    ensures
        frame_chunks(chunks).0 == complete_lines(chunks.flatten()),
        frame_chunks(chunks).1 == remainder(chunks.flatten()),
{
    lemma_frame_chunks_split(chunks);
    chunks.lemma_flatten_and_flatten_alt_are_equivalent();
    let (lines, rest) = frame_chunks(chunks);
    assert(lines.push(rest).drop_last() =~= lines);
}

/// The bytes `v[lo..hi]` as a vector of their own.
pub(crate) fn copy_range(v: &Vec<u8>, lo: usize, hi: usize) -> (r: Vec<u8>)
    requires
        lo <= hi <= v@.len(),
    ensures
        r@ == v@.subrange(lo as int, hi as int),
{
    let mut r: Vec<u8> = Vec::new();
    let mut i: usize = lo;
    while i < hi
        invariant
            lo <= i <= hi <= v@.len(),
            r@ == v@.subrange(lo as int, i as int),
        decreases hi - i,
    {
        r.push(v[i]);
        i = i + 1;
        assert(r@ =~= v@.subrange(lo as int, i as int));
    }
    r
}

/// The bytes of each line.
pub open spec fn line_views(lines: Seq<Vec<u8>>) -> Seq<Seq<u8>> {
    lines.map_values(|l: Vec<u8>| l@)
}

/// Scans `all` from `from` on, where the bytes before `from` hold no
/// delimiter, and cuts out each line that a delimiter completes. Returns the
/// lines and where the unfinished remainder starts.
fn cut_lines(all: &Vec<u8>, from: usize) -> (r: (Vec<Vec<u8>>, usize))
    requires
        from <= all@.len(),
        no_newline(all@.subrange(0, from as int)),
    ensures
        r.1 <= all@.len(),
        split_lines(all@) == line_views(r.0@).push(all@.subrange(r.1 as int, all@.len() as int)),
{
    let n = all.len();
    let mut lines: Vec<Vec<u8>> = Vec::new();
    let mut start: usize = 0;
    let mut i: usize = from;
    proof {
        lemma_split_no_newline(all@.subrange(0, from as int));
        assert(line_views(lines@) =~= Seq::<Seq<u8>>::empty());
    }
    while i < n
        invariant
            n == all@.len(),
            start <= i <= n,
            split_lines(all@.subrange(0, i as int)) == line_views(lines@).push(
                all@.subrange(start as int, i as int),
            ),
        decreases n - i,
    {
        let ghost before = line_views(lines@);
        assert(all@.subrange(0, i + 1).drop_last() =~= all@.subrange(0, i as int));
        if all[i] == NEWLINE {
            let line = copy_range(all, start, i);
            lines.push(line);
            start = i + 1;
            proof {
                assert(line_views(lines@) =~= before.push(line@));
                assert(all@.subrange(start as int, i + 1) =~= Seq::<u8>::empty());
            }
        } else {
            proof {
                assert(all@.subrange(start as int, i + 1) =~= all@.subrange(
                    start as int,
                    i as int,
                ).push(all@[i as int]));
                assert(split_lines(all@.subrange(0, i + 1)) =~= before.push(
                    all@.subrange(start as int, i + 1),
                ));
            }
        }
        i = i + 1;
    }
    assert(all@.subrange(0, n as int) =~= all@);
    (lines, start)
}

/// A decoder that turns chunks of bytes into complete lines, keeping the
/// bytes of a line not yet completed until its delimiter arrives.
pub struct LineFramer {
    buf: Vec<u8>,
}

impl View for LineFramer {
    type V = Seq<u8>;

    /// The buffered bytes of the line not yet completed.
    closed spec fn view(&self) -> Seq<u8> {
        self.buf@
    }
}

impl LineFramer {
    /// A framer holds only bytes of one unfinished line.
    pub open spec fn wf(&self) -> bool {
        no_newline(self@)
    }

    pub fn new() -> (r: LineFramer)
        ensures
            r.wf(),
            r@ == Seq::<u8>::empty(),
    {
        LineFramer { buf: Vec::new() }
    }

    /// Number of buffered bytes.
    pub fn buffered_len(&self) -> (r: usize)
        ensures
            r == self@.len(),
    {
        self.buf.len()
    }

    /// Appends `bytes` and cuts out every line that a delimiter completes,
    /// in order, without the delimiter. What follows the last delimiter stays
    /// buffered. The scan starts where the previous one ended: buffered bytes
    /// are never scanned twice.
    pub fn push(&mut self, bytes: &[u8]) -> (lines: Vec<Vec<u8>>)
        requires
            old(self).wf(),
        ensures
            final(self).wf(),
            line_views(lines@) == complete_lines(old(self)@ + bytes@),
            final(self)@ == remainder(old(self)@ + bytes@),
    {
        let ghost all = old(self)@ + bytes@;
        let old_len = self.buf.len();
        let mut k: usize = 0;
        while k < bytes.len()
            invariant
                self.buf@ == old(self)@ + bytes@.subrange(0, k as int),
                k <= bytes@.len(),
            decreases bytes@.len() - k,
        {
            self.buf.push(bytes[k]);
            k = k + 1;
            assert(self.buf@ =~= old(self)@ + bytes@.subrange(0, k as int));
        }
        assert(self.buf@ =~= all);
        proof {
            assert(all.subrange(0, old_len as int) =~= old(self)@);
        }
        let (lines, start) = cut_lines(&self.buf, old_len);
        self.buf = copy_range(&self.buf, start, self.buf.len());
        proof {
            assert(all.subrange(0, all.len() as int) =~= all);
            lemma_split_pieces(all);
            assert(no_newline(split_lines(all)[split_lines(all).len() - 1]));
            assert(line_views(lines@).push(self.buf@).drop_last() =~= line_views(lines@));
        }
        lines
    }

    /// At the end of the stream: the buffered bytes as one last line, if
    /// there are any. The buffer is left empty.
    pub fn flush_eof(&mut self) -> (r: Option<Vec<u8>>)
        ensures
            final(self).wf(),
            final(self)@ == Seq::<u8>::empty(),
            match r {
                None => old(self)@.len() == 0,
                Some(line) => old(self)@.len() > 0 && line@ == old(self)@,
            },
    {
        if self.buf.len() == 0 {
            None
        } else {
            let mut line: Vec<u8> = Vec::new();
            line.append(&mut self.buf);
            Some(line)
        }
    }
}

} // verus!
