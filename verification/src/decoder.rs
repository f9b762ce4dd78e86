//! Splitting a byte stream into terminator-delimited lines.
//!
//! The delimiter is a line feed, optionally preceded by a carriage return;
//! both are stripped from the emitted line. Decoding is incremental: bytes
//! arrive in chunks of arbitrary size, and a line is emitted as soon as its
//! terminator has been seen. A trailing segment that never sees a
//! terminator stays pending and is never emitted.

use vstd::prelude::*;

verus! {

/// The line-feed byte that terminates a line.
pub const LF: u8 = 10;

/// The carriage-return byte; one standing directly before a terminator is
/// stripped together with it.
pub const CR: u8 = 13;

/// Default bound on the length of a single line. A peer that sends an
/// unterminated segment past the bound is treated as misbehaving and the
/// decode fails, so that an unbounded stream cannot exhaust memory.
pub const DEFAULT_MAX_LINE_LEN: usize = 65536;

/// A decoded, terminator-stripped unit of text. The content is carried as
/// raw bytes: the stream is opaque to the client, which never interprets it.
#[derive(Clone, PartialEq, Eq, Debug)]
pub struct Line {
    pub bytes: Vec<u8>,
}

impl View for Line {
    type V = Seq<u8>;

    open spec fn view(&self) -> Seq<u8> {
        self.bytes@
    }
}

/// The contents of a sequence of lines.
pub open spec fn line_views(ls: Seq<Line>) -> Seq<Seq<u8>> {
    ls.map_values(|l: Line| l@)
}

/// A segment with a carriage return directly before its terminator has the
/// carriage return stripped as well.
pub open spec fn strip_cr(seg: Seq<u8>) -> Seq<u8> {
    if seg.len() > 0 && seg.last() == CR {
        seg.drop_last()
    } else {
        seg
    }
}

/// The lines completed by reading the bytes `s` while the unterminated
/// segment `pending` is already buffered.
pub open spec fn scan_lines(pending: Seq<u8>, s: Seq<u8>) -> Seq<Seq<u8>>
    decreases s.len(),
{
    if s.len() == 0 {
        Seq::empty()
    } else if s.first() == LF {
        seq![strip_cr(pending)] + scan_lines(Seq::empty(), s.drop_first())
    } else {
        scan_lines(pending.push(s.first()), s.drop_first())
    }
}

/// The unterminated segment left buffered after reading the bytes `s` while
/// the segment `pending` is already buffered.
pub open spec fn scan_rest(pending: Seq<u8>, s: Seq<u8>) -> Seq<u8>
    decreases s.len(),
{
    if s.len() == 0 {
        pending
    } else if s.first() == LF {
        scan_rest(Seq::empty(), s.drop_first())
    } else {
        scan_rest(pending.push(s.first()), s.drop_first())
    }
}

/// The lines of a whole stream, read from a fresh decoder.
pub open spec fn lines_of(s: Seq<u8>) -> Seq<Seq<u8>> {
    scan_lines(Seq::empty(), s)
}

/// The unterminated remainder of a whole stream, read from a fresh decoder.
pub open spec fn rest_of(s: Seq<u8>) -> Seq<u8> {
    scan_rest(Seq::empty(), s)
}

/// Whether reading `s` after the buffered segment `pending` ever grows an
/// unterminated segment past `max` bytes.
pub open spec fn overlong(pending: Seq<u8>, s: Seq<u8>, max: int) -> bool {
    exists|i: int| 0 <= i <= s.len() && scan_rest(pending, #[trigger] s.take(i)).len() > max
}

/// Reading a stream in two pieces completes the same lines and leaves the
/// same segment buffered as reading it whole.
pub proof fn lemma_scan_append(pending: Seq<u8>, s: Seq<u8>, t: Seq<u8>)
    ensures
        scan_lines(pending, s + t) == scan_lines(pending, s) + scan_lines(
            scan_rest(pending, s),
            t,
        ),
        scan_rest(pending, s + t) == scan_rest(scan_rest(pending, s), t),
    decreases s.len(),
{
    if s.len() == 0 {
        assert(s + t =~= t);
        assert(scan_lines(pending, s) + scan_lines(scan_rest(pending, s), t) =~= scan_lines(
            pending,
            t,
        ));
    } else {
        assert((s + t).first() == s.first());
        assert((s + t).drop_first() =~= s.drop_first() + t);
        if s.first() == LF {
            lemma_scan_append(Seq::empty(), s.drop_first(), t);
            assert(scan_lines(pending, s + t) =~= scan_lines(pending, s) + scan_lines(
                scan_rest(pending, s),
                t,
            ));
        } else {
            lemma_scan_append(pending.push(s.first()), s.drop_first(), t);
        }
    }
}

/// Reading one more byte either completes the buffered segment as a line or
/// extends it.
pub proof fn lemma_scan_snoc(pending: Seq<u8>, s: Seq<u8>, b: u8)
    ensures
        b == LF ==> scan_lines(pending, s.push(b)) == scan_lines(pending, s).push(
            strip_cr(scan_rest(pending, s)),
        ) && scan_rest(pending, s.push(b)) == Seq::<u8>::empty(),
        b != LF ==> scan_lines(pending, s.push(b)) == scan_lines(pending, s) && scan_rest(
            pending,
            s.push(b),
        ) == scan_rest(pending, s).push(b),
{
    assert(s.push(b) =~= s + seq![b]);
    lemma_scan_append(pending, s, seq![b]);
    let r = scan_rest(pending, s);
    assert(seq![b].drop_first() =~= Seq::<u8>::empty());
    assert(seq![b].first() == b);
    if b == LF {
        assert(scan_lines(Seq::empty(), Seq::<u8>::empty()) =~= Seq::<Seq<u8>>::empty());
        assert(scan_lines(r, seq![b]) =~= seq![strip_cr(r)]);
        assert(scan_lines(pending, s) + seq![strip_cr(r)] =~= scan_lines(pending, s).push(
            strip_cr(r),
        ));
        assert(scan_rest(Seq::empty(), Seq::<u8>::empty()) =~= Seq::<u8>::empty());
    } else {
        assert(scan_lines(r.push(b), Seq::<u8>::empty()) =~= Seq::<Seq<u8>>::empty());
        assert(scan_lines(r, seq![b]) =~= Seq::<Seq<u8>>::empty());
        assert(scan_lines(pending, s) + Seq::<Seq<u8>>::empty() =~= scan_lines(pending, s));
        assert(scan_rest(r.push(b), Seq::<u8>::empty()) =~= r.push(b));
        assert(scan_rest(r, seq![b]) =~= r.push(b));
    }
}

/// The stream that carries `lines` in order, each followed by a terminator.
pub open spec fn encode_seq(lines: Seq<Seq<u8>>) -> Seq<u8>
    decreases lines.len(),
{
    if lines.len() == 0 {
        Seq::empty()
    } else {
        lines.first() + seq![LF] + encode_seq(lines.drop_first())
    }
}

/// Whether a segment contains no terminator byte.
pub open spec fn terminator_free(s: Seq<u8>) -> bool {
    forall|j: int| 0 <= j < s.len() ==> s[j] != LF
}

/// Encoding streams one after the other encodes their concatenation.
pub proof fn lemma_encode_append(a: Seq<Seq<u8>>, b: Seq<Seq<u8>>)
    ensures
        encode_seq(a + b) == encode_seq(a) + encode_seq(b),
    decreases a.len(),
{
    if a.len() == 0 {
        assert(a + b =~= b);
        assert(encode_seq(a) + encode_seq(b) =~= encode_seq(b));
    } else {
        assert((a + b).first() == a.first());
        assert((a + b).drop_first() =~= a.drop_first() + b);
        lemma_encode_append(a.drop_first(), b);
        assert(encode_seq(a + b) =~= encode_seq(a) + encode_seq(b));
    }
}

/// A terminator-free run of bytes completes no line; it only extends the
/// buffered segment.
pub proof fn lemma_scan_terminator_free(pending: Seq<u8>, s: Seq<u8>)
    requires
        terminator_free(s),
    ensures
        scan_lines(pending, s) == Seq::<Seq<u8>>::empty(),
        scan_rest(pending, s) == pending + s,
    decreases s.len(),
{
    if s.len() == 0 {
        assert(pending + s =~= pending);
    } else {
        assert(s.first() == s[0]);
        lemma_scan_terminator_free(pending.push(s.first()), s.drop_first());
        assert(pending.push(s.first()) + s.drop_first() =~= pending + s);
    }
}

/// Decoding law: a stream of `n` terminator-delimited segments followed by
/// an unterminated remainder decodes to exactly those `n` segments, in
/// order, each with a carriage return before its terminator stripped; the
/// remainder stays buffered and is never emitted.
pub proof fn lemma_decode_segments(segs: Seq<Seq<u8>>, rem: Seq<u8>)
    requires
        forall|i: int| 0 <= i < segs.len() ==> terminator_free(#[trigger] segs[i]),
        terminator_free(rem),
    ensures
        lines_of(encode_seq(segs) + rem) == segs.map_values(|seg: Seq<u8>| strip_cr(seg)),
        rest_of(encode_seq(segs) + rem) == rem,
    decreases segs.len(),
{
    if segs.len() == 0 {
        assert(encode_seq(segs) + rem =~= rem);
        lemma_scan_terminator_free(Seq::empty(), rem);
        assert(Seq::<u8>::empty() + rem =~= rem);
        assert(segs.map_values(|seg: Seq<u8>| strip_cr(seg)) =~= Seq::<Seq<u8>>::empty());
    } else {
        let s0 = segs.first();
        let tail = segs.drop_first();
        let tail_enc = encode_seq(tail) + rem;
        let after0 = seq![LF] + tail_enc;
        assert(encode_seq(segs) + rem =~= s0 + after0);
        lemma_scan_append(Seq::empty(), s0, after0);
        lemma_scan_terminator_free(Seq::empty(), s0);
        assert(Seq::<u8>::empty() + s0 =~= s0);
        assert(after0.first() == LF);
        assert(after0.drop_first() =~= tail_enc);
        assert(scan_lines(s0, after0) == seq![strip_cr(s0)] + scan_lines(Seq::empty(), tail_enc));
        assert(scan_rest(s0, after0) == scan_rest(Seq::empty(), tail_enc));
        lemma_decode_segments(tail, rem);
        assert(lines_of(encode_seq(segs) + rem) =~= segs.map_values(
            |seg: Seq<u8>| strip_cr(seg),
        ));
    }
}

/// Round-trip law: encoding lines that contain no terminator and do not end
/// in a carriage return, then decoding the result, yields the same lines in
/// the same order and leaves nothing buffered.
pub proof fn lemma_round_trip(lines: Seq<Seq<u8>>)
    requires
        forall|i: int| 0 <= i < lines.len() ==> terminator_free(#[trigger] lines[i]),
        forall|i: int|
            0 <= i < lines.len() ==> ((#[trigger] lines[i]).len() == 0 || lines[i].last() != CR),
    ensures
        lines_of(encode_seq(lines)) == lines,
        rest_of(encode_seq(lines)) == Seq::<u8>::empty(),
{
    lemma_decode_segments(lines, Seq::empty());
    assert(encode_seq(lines) + Seq::<u8>::empty() =~= encode_seq(lines));
    assert(lines.map_values(|seg: Seq<u8>| strip_cr(seg)) =~= lines);
}

/// Encode lines for transmission: each line's bytes, each followed by one
/// terminator.
#[verifier::loop_isolation(false)]
pub fn encode_lines(lines: &Vec<Line>) -> (r: Vec<u8>)
    ensures
        r@ == encode_seq(line_views(lines@)),
{
    let mut out: Vec<u8> = Vec::new();
    let mut i: usize = 0;
    while i < lines.len()
        invariant
            i <= lines@.len(),
            out@ == encode_seq(line_views(lines@).take(i as int)),
        decreases lines@.len() - i,
    {
        let li = &lines[i];
        let mut k: usize = 0;
        while k < li.bytes.len()
            invariant
                k <= li.bytes@.len(),
                out@ == encode_seq(line_views(lines@).take(i as int)) + li.bytes@.take(k as int),
            decreases li.bytes@.len() - k,
        {
            out.push(li.bytes[k]);
            proof {
                assert(li.bytes@.take(k + 1) =~= li.bytes@.take(k as int).push(li.bytes@[k as int]));
                assert(out@ =~= encode_seq(line_views(lines@).take(i as int)) + li.bytes@.take(
                    k + 1,
                ));
            }
            k = k + 1;
        }
        out.push(LF);
        proof {
            let lv = line_views(lines@);
            assert(li.bytes@.take(li.bytes@.len() as int) =~= li.bytes@);
            assert(lv.take(i + 1) =~= lv.take(i as int) + seq![lv[i as int]]);
            lemma_encode_append(lv.take(i as int), seq![lv[i as int]]);
            assert(seq![lv[i as int]].drop_first() =~= Seq::<Seq<u8>>::empty());
            assert(seq![lv[i as int]].first() == lv[i as int]);
            assert(encode_seq(Seq::<Seq<u8>>::empty()) =~= Seq::<u8>::empty());
            assert(encode_seq(seq![lv[i as int]]) =~= lv[i as int] + seq![LF]);
            assert(out@ =~= encode_seq(lv.take(i + 1)));
        }
        i = i + 1;
    }
    proof {
        assert(line_views(lines@).take(lines@.len() as int) =~= line_views(lines@));
    }
    out
}

/// The buffered segment never outgrows what was read into it.
pub proof fn lemma_scan_rest_len(pending: Seq<u8>, s: Seq<u8>)
    ensures
        scan_rest(pending, s).len() <= pending.len() + s.len(),
    decreases s.len(),
{
    if s.len() == 0 {
    } else if s.first() == LF {
        lemma_scan_rest_len(Seq::empty(), s.drop_first());
    } else {
        lemma_scan_rest_len(pending.push(s.first()), s.drop_first());
    }
}

/// Success is owed: reading a chunk cannot overrun the bound when the
/// buffered segment and the chunk together fit within it.
pub proof fn lemma_fits_not_overlong(pending: Seq<u8>, s: Seq<u8>, max: int)
    requires
        pending.len() + s.len() <= max,
    ensures
        !overlong(pending, s, max),
{
    assert forall|i: int|
        0 <= i <= s.len() implies scan_rest(pending, #[trigger] s.take(i)).len() <= max by {
        lemma_scan_rest_len(pending, s.take(i));
    };
}

/// Terminal failures of the decode sequence. Either one ends the sequence
/// permanently; no line is produced after it.
#[derive(Clone, Copy, PartialEq, Eq, Structural, Debug)]
pub enum DecodeError {
    /// An unterminated segment grew past the decoder's configured bound.
    LineTooLong,
    /// The underlying transport failed while reading.
    Io,
}

/// An incremental decoder for one connection's byte stream. It buffers the
/// current unterminated segment and emits a line for every terminator seen.
/// It is tied to a single stream: once it has failed it accepts no more
/// bytes.
pub struct LineDecoder {
    buf: Vec<u8>,
    max_len: usize,
    failed: bool,
}

impl LineDecoder {
    /// The unterminated segment currently buffered.
    pub closed spec fn pending(&self) -> Seq<u8> {
        self.buf@
    }

    /// The configured bound on the length of a single line.
    pub closed spec fn max_line_len(&self) -> usize {
        self.max_len
    }

    /// Whether the decode sequence has ended with an error.
    pub closed spec fn has_failed(&self) -> bool {
        self.failed
    }

    pub closed spec fn wf(&self) -> bool {
        !self.failed ==> self.buf@.len() <= self.max_len
    }

    /// A fresh decoder with the default line-length bound.
    pub fn new() -> (d: LineDecoder)
        ensures
            d.wf(),
            !d.has_failed(),
            d.pending() == Seq::<u8>::empty(),
            d.max_line_len() == DEFAULT_MAX_LINE_LEN,
    {
        LineDecoder { buf: Vec::new(), max_len: DEFAULT_MAX_LINE_LEN, failed: false }
    }

    /// A fresh decoder that fails on any line longer than `max_len` bytes.
    pub fn with_max_length(max_len: usize) -> (d: LineDecoder)
        ensures
            d.wf(),
            !d.has_failed(),
            d.pending() == Seq::<u8>::empty(),
            d.max_line_len() == max_len,
    {
        LineDecoder { buf: Vec::new(), max_len, failed: false }
    }

    /// Feed the next chunk of the stream, emitting every line it completes.
    ///
    /// On success, the emitted lines are exactly those the chunk completes
    /// after the buffered segment, in stream order, and the unterminated
    /// tail stays buffered. The decode fails, once and for all, exactly
    /// when some unterminated segment grows past the configured bound.
    #[verifier::loop_isolation(false)]
    pub fn push(&mut self, chunk: &Vec<u8>) -> (r: Result<Vec<Line>, DecodeError>)
        requires
            old(self).wf(),
            !old(self).has_failed(),
        ensures
            final(self).wf(),
            final(self).max_line_len() == old(self).max_line_len(),
            (r is Ok) <==> !overlong(
                old(self).pending(),
                chunk@,
                old(self).max_line_len() as int,
            ),
            r matches Ok(ls) ==> !final(self).has_failed() && line_views(ls@) == scan_lines(
                old(self).pending(),
                chunk@,
            ) && final(self).pending() == scan_rest(old(self).pending(), chunk@),
            r is Err ==> final(self).has_failed() && r == Err::<Vec<Line>, DecodeError>(
                DecodeError::LineTooLong,
            ),
    {
        let ghost p0 = self.buf@;
        let ghost c = chunk@;
        let ghost maxi = self.max_len as int;
        let mut out: Vec<Line> = Vec::new();
        let n = chunk.len();
        let mut i: usize = 0;
        while i < n
            invariant
                i <= n,
                n == c.len(),
                c == chunk@,
                self.max_len as int == maxi,
                !self.failed,
                self.buf@ == scan_rest(p0, c.take(i as int)),
                line_views(out@) == scan_lines(p0, c.take(i as int)),
                forall|j: int| 0 <= j <= i ==> scan_rest(p0, #[trigger] c.take(j)).len() <= maxi,
            decreases n - i,
        {
            let b = chunk[i];
            proof {
                assert(c.take(i + 1) =~= c.take(i as int).push(c[i as int]));
                lemma_scan_snoc(p0, c.take(i as int), c[i as int]);
            }
            if b == LF {
                let mut taken: Vec<u8> = Vec::new();
                core::mem::swap(&mut taken, &mut self.buf);
                if taken.len() > 0 && taken[taken.len() - 1] == CR {
                    taken.pop();
                }
                proof {
                    assert(taken@ == strip_cr(scan_rest(p0, c.take(i as int))));
                }
                out.push(Line { bytes: taken });
                proof {
                    assert(line_views(out@) =~= scan_lines(p0, c.take(i + 1)));
                }
            } else {
                self.buf.push(b);
                if self.buf.len() > self.max_len {
                    self.failed = true;
                    proof {
                        assert(scan_rest(p0, c.take(i + 1)).len() > maxi);
                        assert(overlong(p0, c, maxi));
                    }
                    return Err(DecodeError::LineTooLong);
                }
            }
            i = i + 1;
        }
        proof {
            assert(c.take(n as int) =~= c);
            assert(forall|j: int|
                0 <= j <= c.len() ==> scan_rest(p0, #[trigger] c.take(j)).len() <= maxi);
            assert(!overlong(p0, c, maxi));
        }
        Ok(out)
    }
}

} // verus!
