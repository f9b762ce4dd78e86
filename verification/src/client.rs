//! The client's single connect-and-stream lifetime as a state machine.
//!
//! A client is started once, attempts one connection, streams until the
//! connection ends, and stops; no state leaves `Stopped` and nothing is
//! retried. While streaming, every decoded line is fanned out to each
//! registered subscriber, so that all subscribers see the identical
//! sequence of lines in stream order. The surrounding program performs the
//! actual connect and read calls and feeds their outcomes in as events.

use crate::decoder::{
    line_views, lines_of, overlong, rest_of, scan_lines, DecodeError, Line, LineDecoder,
    DEFAULT_MAX_LINE_LEN,
};
use crate::decoder::lemma_scan_append;
use vstd::prelude::*;

verus! {

/// Why a connection attempt failed. Any of these is terminal: the client
/// performs no retry.
#[derive(Clone, Copy, PartialEq, Eq, Structural, Debug)]
pub enum ConnectError {
    ResolutionFailed,
    Refused,
    TimedOut,
    Other,
}

/// The phase of a client's lifetime. `Stopped` is absorbing.
#[derive(Clone, Copy, PartialEq, Eq, Structural, Debug)]
pub enum ClientState {
    Idle,
    Connecting,
    Streaming,
    Stopped,
}

/// The terminal event that ended a client's run.
#[derive(Clone, Copy, PartialEq, Eq, Structural, Debug)]
pub enum StopReason {
    /// The connection attempt failed; the client never streamed.
    ConnectFailed(ConnectError),
    /// Decoding ended with an error while streaming.
    DecodeFailed(DecodeError),
    /// The stream ended cleanly.
    EndOfStream,
}

/// Copy a byte buffer.
#[verifier::loop_isolation(false)]
fn copy_bytes(v: &Vec<u8>) -> (r: Vec<u8>)
    ensures
        r@ == v@,
{
    let mut out: Vec<u8> = Vec::new();
    let mut k: usize = 0;
    while k < v.len()
        invariant
            k <= v@.len(),
            out@ == v@.take(k as int),
        decreases v@.len() - k,
    {
        out.push(v[k]);
        proof {
            assert(v@.take(k + 1) =~= v@.take(k as int).push(v@[k as int]));
        }
        k = k + 1;
    }
    proof {
        assert(v@.take(v@.len() as int) =~= v@);
    }
    out
}

/// Append a copy of every line in `src` to `dst`, in order.
#[verifier::loop_isolation(false)]
fn push_all(dst: &mut Vec<Line>, src: &Vec<Line>)
    ensures
        line_views(final(dst)@) == line_views(old(dst)@) + line_views(src@),
{
    let ghost d0 = dst@;
    let mut k: usize = 0;
    while k < src.len()
        invariant
            k <= src@.len(),
            line_views(dst@) == line_views(d0) + line_views(src@.take(k as int)),
        decreases src@.len() - k,
    {
        let l = &src[k];
        let nl = Line { bytes: copy_bytes(&l.bytes) };
        proof {
            assert(nl@ == src@[k as int]@);
        }
        let ghost db = dst@;
        dst.push(nl);
        proof {
            assert(src@.take(k + 1) =~= src@.take(k as int).push(src@[k as int]));
            assert(line_views(src@.take(k + 1)) =~= line_views(src@.take(k as int)).push(
                src@[k as int]@,
            ));
            assert(line_views(dst@) =~= line_views(db).push(src@[k as int]@));
            assert(line_views(d0) + line_views(src@.take(k + 1)) =~= (line_views(d0)
                + line_views(src@.take(k as int))).push(src@[k as int]@));
            assert(line_views(dst@) == line_views(d0) + line_views(src@.take(k + 1)));
        }
        k = k + 1;
    }
    proof {
        assert(src@.take(src@.len() as int) =~= src@);
    }
}

/// One client instance: at most one connection, one decode sequence, and a
/// set of subscriber inboxes filled in stream order.
pub struct Client {
    state: ClientState,
    decoder: LineDecoder,
    inboxes: Vec<Vec<Line>>,
    outcome: Option<StopReason>,
    stream: Ghost<Seq<u8>>,
}

impl Client {
    /// The client's current phase.
    pub closed spec fn state(&self) -> ClientState {
        self.state
    }

    /// How many subscribers are registered.
    pub closed spec fn subscriber_count(&self) -> nat {
        self.inboxes@.len()
    }

    /// The ordered sequence of line contents subscriber `i` has received.
    pub closed spec fn received(&self, i: int) -> Seq<Seq<u8>> {
        line_views(self.inboxes@[i]@)
    }

    /// Every byte consumed while streaming, in arrival order.
    pub closed spec fn stream_bytes(&self) -> Seq<u8> {
        self.stream@
    }

    /// The terminal event, once the client has stopped.
    pub closed spec fn outcome(&self) -> Option<StopReason> {
        self.outcome
    }

    /// The decoder's bound on the length of a single line.
    pub closed spec fn max_line_len(&self) -> usize {
        self.decoder.max_line_len()
    }

    /// The client invariant. Beyond well-formedness of the decoder it pins
    /// the fan-out: every subscriber has received exactly the lines of the
    /// stream consumed so far, in order — each line at most once per
    /// occurrence, none reordered, and the same sequence for all.
    pub closed spec fn wf(&self) -> bool {
        &&& self.decoder.wf()
        &&& forall|i: int|
            0 <= i < self.inboxes@.len() ==> line_views((#[trigger] self.inboxes@[i])@)
                == lines_of(self.stream@)
        &&& (self.state is Streaming ==> !self.decoder.has_failed() && self.decoder.pending()
            == rest_of(self.stream@))
        &&& ((self.state is Idle || self.state is Connecting) ==> self.stream@ == Seq::<
            u8,
        >::empty() && !self.decoder.has_failed() && self.decoder.pending() == Seq::<u8>::empty())
        &&& ((self.state is Stopped) <==> (self.outcome is Some))
        &&& ((self.outcome matches Some(StopReason::ConnectFailed(_))) ==> self.stream@ == Seq::<
            u8,
        >::empty())
    }

    /// A fresh client with `subscribers` registered subscribers and the
    /// default line-length bound.
    pub fn new(subscribers: usize) -> (c: Client)
        ensures
            c.wf(),
            c.state() is Idle,
            c.subscriber_count() == subscribers,
            c.stream_bytes() == Seq::<u8>::empty(),
            c.max_line_len() == DEFAULT_MAX_LINE_LEN,
            forall|i: int| 0 <= i < subscribers ==> c.received(i) == Seq::<Seq<u8>>::empty(),
    {
        Client::with_max_line_len(subscribers, DEFAULT_MAX_LINE_LEN)
    }

    /// A fresh client whose decoder fails on lines longer than `max_len`.
    #[verifier::loop_isolation(false)]
    pub fn with_max_line_len(subscribers: usize, max_len: usize) -> (c: Client)
        ensures
            c.wf(),
            c.state() is Idle,
            c.subscriber_count() == subscribers,
            c.stream_bytes() == Seq::<u8>::empty(),
            c.max_line_len() == max_len,
            forall|i: int| 0 <= i < subscribers ==> c.received(i) == Seq::<Seq<u8>>::empty(),
    {
        let mut inboxes: Vec<Vec<Line>> = Vec::new();
        let mut i: usize = 0;
        while i < subscribers
            invariant
                i <= subscribers,
                inboxes@.len() == i,
                forall|j: int| 0 <= j < i ==> (#[trigger] inboxes@[j])@ == Seq::<Line>::empty(),
            decreases subscribers - i,
        {
            inboxes.push(Vec::new());
            i = i + 1;
        }
        let c = Client {
            state: ClientState::Idle,
            decoder: LineDecoder::with_max_length(max_len),
            inboxes,
            outcome: None,
            stream: Ghost(Seq::empty()),
        };
        proof {
            assert(lines_of(Seq::<u8>::empty()) =~= Seq::<Seq<u8>>::empty());
            assert(line_views(Seq::<Line>::empty()) =~= Seq::<Seq<u8>>::empty());
            assert forall|j: int|
                0 <= j < c.inboxes@.len() implies line_views((#[trigger] c.inboxes@[j])@)
                == lines_of(c.stream@) by {
                assert(c.inboxes@[j]@ == Seq::<Line>::empty());
            };
        }
        c
    }

    /// Register one more subscriber before the client starts; it will see
    /// the whole stream. Returns the subscriber's index.
    pub fn subscribe(&mut self) -> (idx: usize)
        requires
            old(self).wf(),
            old(self).state() is Idle,
            old(self).subscriber_count() < usize::MAX,
        ensures
            final(self).wf(),
            final(self).state() == old(self).state(),
            final(self).subscriber_count() == old(self).subscriber_count() + 1,
            idx == old(self).subscriber_count(),
            final(self).stream_bytes() == old(self).stream_bytes(),
            final(self).max_line_len() == old(self).max_line_len(),
            forall|i: int|
                0 <= i < old(self).subscriber_count() ==> final(self).received(i) == old(
                    self,
                ).received(i),
            final(self).received(old(self).subscriber_count() as int) == Seq::<Seq<u8>>::empty(),
    {
        let idx = self.inboxes.len();
        self.inboxes.push(Vec::new());
        proof {
            assert(self.received(idx as int) =~= Seq::<Seq<u8>>::empty());
            assert(lines_of(Seq::<u8>::empty()) =~= Seq::<Seq<u8>>::empty());
        }
        idx
    }

    /// Start the client: it moves to `Connecting` and one connection
    /// attempt is owed.
    pub fn start(&mut self)
        requires
            old(self).wf(),
            old(self).state() is Idle,
        ensures
            final(self).wf(),
            final(self).state() is Connecting,
            final(self).outcome() is None,
            final(self).subscriber_count() == old(self).subscriber_count(),
            final(self).stream_bytes() == old(self).stream_bytes(),
            final(self).max_line_len() == old(self).max_line_len(),
            forall|i: int|
                0 <= i < old(self).subscriber_count() ==> final(self).received(i) == old(
                    self,
                ).received(i),
    {
        self.state = ClientState::Connecting;
    }

    /// The connection attempt succeeded: begin streaming.
    pub fn on_connect_ok(&mut self)
        requires
            old(self).wf(),
            old(self).state() is Connecting,
        ensures
            final(self).wf(),
            final(self).state() is Streaming,
            final(self).outcome() is None,
            final(self).subscriber_count() == old(self).subscriber_count(),
            final(self).stream_bytes() == Seq::<u8>::empty(),
            final(self).max_line_len() == old(self).max_line_len(),
            forall|i: int|
                0 <= i < old(self).subscriber_count() ==> final(self).received(i) == old(
                    self,
                ).received(i),
    {
        self.state = ClientState::Streaming;
        proof {
            assert(rest_of(Seq::<u8>::empty()) =~= Seq::<u8>::empty());
        }
    }

    /// The connection attempt failed: the client stops, terminally, without
    /// ever streaming and without delivering any line.
    pub fn on_connect_failed(&mut self, err: ConnectError)
        requires
            old(self).wf(),
            old(self).state() is Connecting,
        ensures
            final(self).wf(),
            final(self).state() is Stopped,
            final(self).outcome() == Some(StopReason::ConnectFailed(err)),
            final(self).subscriber_count() == old(self).subscriber_count(),
            final(self).stream_bytes() == Seq::<u8>::empty(),
            forall|i: int|
                0 <= i < old(self).subscriber_count() ==> final(self).received(i) == old(
                    self,
                ).received(i),
    {
        self.state = ClientState::Stopped;
        self.outcome = Some(StopReason::ConnectFailed(err));
    }

    /// A chunk of bytes arrived on the stream. Every line the chunk
    /// completes is delivered to every subscriber, in stream order, and is
    /// also returned. If an unterminated segment grows past the configured
    /// bound, nothing is delivered, the client stops, and the terminal
    /// event records the decode failure.
    #[verifier::loop_isolation(false)]
    pub fn on_bytes(&mut self, chunk: &Vec<u8>) -> (r: Result<Vec<Line>, DecodeError>)
        requires
            old(self).wf(),
            old(self).state() is Streaming,
        ensures
            final(self).wf(),
            final(self).subscriber_count() == old(self).subscriber_count(),
            final(self).max_line_len() == old(self).max_line_len(),
            (r is Ok) <==> !overlong(
                rest_of(old(self).stream_bytes()),
                chunk@,
                old(self).max_line_len() as int,
            ),
            r is Ok ==> final(self).state() is Streaming,
            r is Ok ==> final(self).stream_bytes() == old(self).stream_bytes() + chunk@,
            r matches Ok(ls) ==> line_views(ls@) == scan_lines(
                rest_of(old(self).stream_bytes()),
                chunk@,
            ),
            r matches Ok(ls) ==> forall|i: int|
                0 <= i < old(self).subscriber_count() ==> final(self).received(i) == old(
                    self,
                ).received(i) + line_views(ls@),
            r is Err ==> final(self).state() is Stopped,
            r is Err ==> final(self).outcome() == Some(
                StopReason::DecodeFailed(DecodeError::LineTooLong),
            ),
            r is Err ==> r == Err::<Vec<Line>, DecodeError>(DecodeError::LineTooLong),
            r is Err ==> final(self).stream_bytes() == old(self).stream_bytes(),
            r is Err ==> forall|i: int|
                0 <= i < old(self).subscriber_count() ==> final(self).received(i) == old(
                    self,
                ).received(i),
    {
        let ghost s0 = self.stream@;
        match self.decoder.push(chunk) {
            Ok(batch) => {
                proof {
                    lemma_scan_append(Seq::empty(), s0, chunk@);
                }
                self.stream = Ghost(s0 + chunk@);
                let ghost ib0 = self.inboxes@;
                let ghost st0 = self.state;
                let ghost dec0 = self.decoder;
                let ghost oc0 = self.outcome;
                let mut i: usize = 0;
                let n = self.inboxes.len();
                while i < n
                    invariant
                        i <= n,
                        n == self.inboxes@.len(),
                        self.inboxes@.len() == ib0.len(),
                        self.state == st0,
                        self.decoder == dec0,
                        self.outcome == oc0,
                        self.stream@ == s0 + chunk@,
                        forall|j: int|
                            0 <= j < i ==> line_views((#[trigger] self.inboxes@[j])@)
                                == line_views(ib0[j]@) + line_views(batch@),
                        forall|j: int| i <= j < ib0.len() ==> #[trigger] self.inboxes@[j] == ib0[j],
                    decreases n - i,
                {
                    push_all(&mut self.inboxes[i], &batch);
                    i = i + 1;
                }
                Ok(batch)
            },
            Err(_) => {
                self.state = ClientState::Stopped;
                self.outcome = Some(StopReason::DecodeFailed(DecodeError::LineTooLong));
                Err(DecodeError::LineTooLong)
            },
        }
    }

    /// The stream ended cleanly: the client stops, terminally. A trailing
    /// unterminated segment, if any, is discarded and never delivered.
    pub fn on_stream_end(&mut self)
        requires
            old(self).wf(),
            old(self).state() is Streaming,
        ensures
            final(self).wf(),
            final(self).state() is Stopped,
            final(self).outcome() == Some(StopReason::EndOfStream),
            final(self).subscriber_count() == old(self).subscriber_count(),
            final(self).stream_bytes() == old(self).stream_bytes(),
            forall|i: int|
                0 <= i < old(self).subscriber_count() ==> final(self).received(i) == old(
                    self,
                ).received(i),
    {
        self.state = ClientState::Stopped;
        self.outcome = Some(StopReason::EndOfStream);
    }

    /// Reading the stream failed: the client stops, terminally, and the
    /// terminal event records the failure. Nothing further is delivered.
    pub fn on_read_error(&mut self)
        requires
            old(self).wf(),
            old(self).state() is Streaming,
        ensures
            final(self).wf(),
            final(self).state() is Stopped,
            final(self).outcome() == Some(StopReason::DecodeFailed(DecodeError::Io)),
            final(self).subscriber_count() == old(self).subscriber_count(),
            final(self).stream_bytes() == old(self).stream_bytes(),
            forall|i: int|
                0 <= i < old(self).subscriber_count() ==> final(self).received(i) == old(
                    self,
                ).received(i),
    {
        self.state = ClientState::Stopped;
        self.outcome = Some(StopReason::DecodeFailed(DecodeError::Io));
    }

    /// The client's current phase.
    pub fn current_state(&self) -> (s: ClientState)
        ensures
            s == self.state(),
    {
        self.state
    }

    /// The terminal event, or `None` while the client has not stopped.
    pub fn current_outcome(&self) -> (o: Option<StopReason>)
        ensures
            o == self.outcome(),
    {
        self.outcome
    }

    /// How many subscribers are registered.
    pub fn num_subscribers(&self) -> (n: usize)
        ensures
            n == self.subscriber_count(),
    {
        self.inboxes.len()
    }

    /// The ordered lines subscriber `idx` has received so far.
    pub fn lines_received(&self, idx: usize) -> (r: &Vec<Line>)
        requires
            idx < self.subscriber_count(),
        ensures
            line_views(r@) == self.received(idx as int),
    {
        &self.inboxes[idx]
    }
}

/// Fan-out law: subscribers observe identical histories. Every subscriber
/// of a well-formed client has received exactly the lines decoded from the
/// stream so far — the same ordered sequence for every subscriber, each
/// line once per occurrence in the stream. With no subscribers the law is
/// vacuous and the client still functions.
pub proof fn lemma_fan_out_identical(c: &Client)
    requires
        c.wf(),
    ensures
        forall|i: int|
            0 <= i < c.subscriber_count() ==> c.received(i) == lines_of(c.stream_bytes()),
        forall|i: int, j: int|
            0 <= i < c.subscriber_count() && 0 <= j < c.subscriber_count() ==> c.received(i)
                == c.received(j),
{
}

} // verus!
