//! The decisions of a JSON-RPC exchange with the Codex app-server: what a
//! reply means for the request waiting on it, and which lines of the
//! server's error stream are kept.
use vstd::prelude::*;

use crate::codex::Error;
use crate::text::{chars_of, string_from_chars};
use crate::update::{decode_lossy, lossy_utf8};

verus! {

// ---------------------------------------------------------------------------
// Replies
// ---------------------------------------------------------------------------

/// What happened while a request waited for its reply.
pub enum ServerEvent {
    /// A line of output that parsed as JSON, by the fields the request reads.
    Message { id: Option<u64>, has_error: bool, has_result: bool },
    /// A line of output that is not JSON.
    Unparsable,
    /// The server's output ended.
    Closed,
    /// The time allowed for the reply ran out.
    TimedOut,
}

/// What the waiting request does next.
pub enum RequestStep {
    /// Keep waiting for the reply.
    Wait,
    /// The reply carries the result.
    Answer,
    /// The request fails with this error.
    Fail(Error),
}

/// The request with id `id` sees `event`: output that is not its reply is
/// skipped, an error reply fails with `Rpc`, a reply without a result with
/// `Protocol`, the end of output with `Closed` and the deadline with
/// `Timeout`.
pub open spec fn step_of(id: u64, event: ServerEvent) -> RequestStep {
    match event {
        ServerEvent::Message { id: reply, has_error, has_result } => if reply != Some(id) {
            RequestStep::Wait
        } else if has_error {
            RequestStep::Fail(Error::Rpc)
        } else if has_result {
            RequestStep::Answer
        } else {
            RequestStep::Fail(Error::Protocol)
        },
        ServerEvent::Unparsable => RequestStep::Wait,
        ServerEvent::Closed => RequestStep::Fail(Error::Closed),
        ServerEvent::TimedOut => RequestStep::Fail(Error::Timeout),
    }
}

/// What the request does on seeing `event`.
pub fn request_step(id: u64, event: &ServerEvent) -> (res: RequestStep)
    ensures
        res == step_of(id, *event),
{
    match event {
        ServerEvent::Message { id: reply, has_error, has_result } => {
            let ours = match reply {
                Some(r) => *r == id,
                None => false,
            };
            if !ours {
                RequestStep::Wait
            } else if *has_error {
                RequestStep::Fail(Error::Rpc)
            } else if *has_result {
                RequestStep::Answer
            } else {
                RequestStep::Fail(Error::Protocol)
            }
        },
        ServerEvent::Unparsable => RequestStep::Wait,
        ServerEvent::Closed => RequestStep::Fail(Error::Closed),
        ServerEvent::TimedOut => RequestStep::Fail(Error::Timeout),
    }
}

// ---------------------------------------------------------------------------
// The error stream
// ---------------------------------------------------------------------------

/// How many lines of the error stream are kept.
pub const STDERR_LINES: usize = 50;

/// `s` without the carriage returns at its end.
pub open spec fn trim_end_cr(s: Seq<char>) -> Seq<char>
    decreases s.len(),
{
    if s.len() > 0 && s.last() == '\r' {
        trim_end_cr(s.drop_last())
    } else {
        s
    }
}

/// The lines that `text` completes: what stands before each line feed,
/// without the carriage returns at its end.
pub open spec fn completed_lines(text: Seq<char>) -> Seq<Seq<char>>
    decreases text.len(),
{
    if text.len() == 0 {
        Seq::empty()
    } else if text.last() == '\n' {
        completed_lines(text.drop_last()).push(trim_end_cr(unfinished(text.drop_last())))
    } else {
        completed_lines(text.drop_last())
    }
}

/// What follows the last line feed of `text`.
pub open spec fn unfinished(text: Seq<char>) -> Seq<char>
    decreases text.len(),
{
    if text.len() == 0 {
        Seq::empty()
    } else if text.last() == '\n' {
        Seq::empty()
    } else {
        unfinished(text.drop_last()).push(text.last())
    }
}

/// The last `n` lines, or all of them where there are fewer.
pub open spec fn keep_last(ls: Seq<Seq<char>>, n: nat) -> Seq<Seq<char>> {
    if ls.len() <= n {
        ls
    } else {
        ls.subrange(ls.len() - n, ls.len() as int)
    }
}

pub open spec fn line_views(ls: Seq<String>) -> Seq<Seq<char>> {
    ls.map_values(|l: String| l@)
}

/// The tail of an app-server's error stream: the last lines it completed
/// and the text after its last line feed.
pub struct StderrTail {
    pub lines: Vec<String>,
    pub pending: String,
}

impl StderrTail {
    /// At most fifty lines are kept.
    pub open spec fn well_formed(&self) -> bool {
        self.lines@.len() <= STDERR_LINES
    }

    /// No output yet.
    pub fn new() -> (res: StderrTail)
        ensures
            res.well_formed(),
            res.lines@.len() == 0,
            res.pending@ == Seq::<char>::empty(),
    {
        StderrTail { lines: Vec::new(), pending: String::new() }
    }

    /// Adds `line`, dropping the oldest line where fifty are kept.
    fn keep(&mut self, line: String)
        requires
            old(self).well_formed(),
        ensures
            final(self).well_formed(),
            final(self).pending == old(self).pending,
            line_views(final(self).lines@) == keep_last(
                line_views(old(self).lines@).push(line@),
                STDERR_LINES as nat,
            ),
    {
        let ghost before = line_views(self.lines@);
        if self.lines.len() == STDERR_LINES {
            self.lines.remove(0);
            proof {
                assert(line_views(self.lines@) == before.subrange(1, before.len() as int));
            }
        }
        self.lines.push(line);
        proof {
            let all = before.push(line@);
            if before.len() == STDERR_LINES {
                assert(line_views(self.lines@) =~= all.subrange(
                    all.len() - STDERR_LINES,
                    all.len() as int,
                ));
            } else {
                assert(line_views(self.lines@) =~= all);
            }
        }
    }

    /// Reads a chunk of the stream, decoded lossily on its own: each line
    /// it completes is kept, and what follows the last line feed waits for
    /// the next chunk.
    pub fn feed(&mut self, chunk: &[u8])
        requires
            old(self).well_formed(),
        ensures
            final(self).well_formed(),
            line_views(final(self).lines@) == keep_last(
                line_views(old(self).lines@) + completed_lines(
                    old(self).pending@ + lossy_utf8(chunk@),
                ),
                STDERR_LINES as nat,
            ),
            final(self).pending@ == unfinished(old(self).pending@ + lossy_utf8(chunk@)),
    {
        let decoded = decode_lossy(chunk);
        let ghost start = line_views(self.lines@);
        let ghost text = self.pending@ + decoded@;
        let cs = chars_of(self.pending.as_str());
        let more = chars_of(decoded.as_str());
        let mut all: Vec<char> = cs;
        crate::text::extend_chars(&mut all, more.as_slice());
        assert(all@ == text);
        let mut current: Vec<char> = Vec::new();
        let mut i: usize = 0;
        while i < all.len()
            invariant
                i <= all.len(),
                all@ == text,
                self.well_formed(),
                current@ == unfinished(text.take(i as int)),
                line_views(self.lines@) == keep_last(
                    start + completed_lines(text.take(i as int)),
                    STDERR_LINES as nat,
                ),
            decreases all.len() - i,
        {
            let c = all[i];
            proof {
                assert(text.take(i + 1).drop_last() == text.take(i as int));
                assert(text.take(i + 1).last() == c);
            }
            if c == '\n' {
                let mut end = current.len();
                proof {
                    assert(current@.take(end as int) == current@);
                }
                while end > 0 && current[end - 1] == '\r'
                    invariant
                        end <= current@.len(),
                        trim_end_cr(current@.take(end as int)) == trim_end_cr(current@),
                    decreases end,
                {
                    proof {
                        assert(current@.take(end as int).drop_last() == current@.take(end - 1));
                    }
                    end = end - 1;
                }
                proof {
                    if end > 0 {
                        assert(current@.take(end as int).last() == current@[end - 1]);
                    }
                    assert(trim_end_cr(current@.take(end as int)) == current@.take(end as int));
                }
                let line = string_from_chars(crate::text::copy_range(current.as_slice(), 0, end).as_slice());
                proof {
                    assert(current@.subrange(0, end as int) == current@.take(end as int));
                }
                let ghost kept = start + completed_lines(text.take(i as int));
                self.keep(line);
                proof {
                    lemma_keep_last_push(kept, line@, STDERR_LINES as nat);
                    assert(start + completed_lines(text.take(i + 1)) == kept.push(line@));
                }
                current = Vec::new();
            } else {
                current.push(c);
            }
            i = i + 1;
        }
        proof {
            assert(text.take(all.len() as int) == text);
        }
        self.pending = string_from_chars(current.as_slice());
    }

    /// The stream ended: text after the last line feed is kept as a line of
    /// its own, as it stands.
    pub fn finish(&mut self)
        requires
            old(self).well_formed(),
        ensures
            final(self).well_formed(),
            final(self).pending@ == Seq::<char>::empty(),
            line_views(final(self).lines@) == (if old(self).pending@.len() > 0 {
                keep_last(line_views(old(self).lines@).push(old(self).pending@), STDERR_LINES as nat)
            } else {
                line_views(old(self).lines@)
            }),
    {
        let rest = chars_of(self.pending.as_str());
        if rest.len() > 0 {
            let line = string_from_chars(rest.as_slice());
            self.keep(line);
            self.pending = String::new();
        }
    }
}

/// Keeping the last `n` of a longer list, then adding one, keeps the last `n`
/// of the longer list with the one added.
proof fn lemma_keep_last_push(ls: Seq<Seq<char>>, l: Seq<char>, n: nat)
    requires
        n > 0,
    ensures
        keep_last(keep_last(ls, n).push(l), n) == keep_last(ls.push(l), n),
{
    if ls.len() > n {
        assert(keep_last(ls, n).push(l).subrange(1, n + 1 as int) =~= ls.push(l).subrange(
            ls.len() + 1 - n,
            ls.len() + 1 as int,
        ));
    } else if ls.len() == n {
        assert(keep_last(ls, n).push(l).subrange(1, n + 1 as int) =~= ls.push(l).subrange(
            1,
            ls.len() + 1 as int,
        ));
    }
}

proof fn lemma_no_line_feed(t: Seq<char>)
    requires
        forall|i: int| 0 <= i < t.len() ==> t[i] != '\n',
    ensures
        completed_lines(t) == Seq::<Seq<char>>::empty(),
        unfinished(t) == t,
    decreases t.len(),
{
    if t.len() > 0 {
        assert forall|i: int| 0 <= i < t.drop_last().len() implies t.drop_last()[i] != '\n' by {
            assert(t.drop_last()[i] == t[i]);
        }
        lemma_no_line_feed(t.drop_last());
        assert(t.last() == t[t.len() - 1]);
        assert(t.drop_last().push(t.last()) == t);
    }
}

proof fn lemma_unfinished_has_no_line_feed(t: Seq<char>)
    ensures
        forall|i: int| 0 <= i < unfinished(t).len() ==> unfinished(t)[i] != '\n',
    decreases t.len(),
{
    if t.len() > 0 {
        let r = unfinished(t.drop_last());
        lemma_unfinished_has_no_line_feed(t.drop_last());
        if t.last() != '\n' {
            assert forall|i: int| 0 <= i < r.push(t.last()).len() implies r.push(t.last())[i]
                != '\n' by {
                if i < r.len() {
                    assert(r.push(t.last())[i] == r[i]);
                }
            }
        }
    }
}

/// Splitting text in two: the lines of the whole are those of the first
/// part, then those that its unfinished end completes with the second.
proof fn lemma_split_text(u: Seq<char>, b: Seq<char>)
    ensures
        completed_lines(u + b) == completed_lines(u) + completed_lines(unfinished(u) + b),
        unfinished(u + b) == unfinished(unfinished(u) + b),
    decreases b.len(),
{
    if b.len() == 0 {
        assert(u + b == u);
        assert(unfinished(u) + b == unfinished(u));
        lemma_unfinished_has_no_line_feed(u);
        lemma_no_line_feed(unfinished(u));
        assert(completed_lines(u) + Seq::<Seq<char>>::empty() == completed_lines(u));
    } else {
        let b0 = b.drop_last();
        lemma_split_text(u, b0);
        assert((u + b).drop_last() == u + b0);
        assert((u + b).last() == b.last());
        assert((unfinished(u) + b).drop_last() == unfinished(u) + b0);
        assert((unfinished(u) + b).last() == b.last());
        if b.last() == '\n' {
            assert(completed_lines(u) + completed_lines(unfinished(u) + b0).push(
                trim_end_cr(unfinished(unfinished(u) + b0)),
            ) == (completed_lines(u) + completed_lines(unfinished(u) + b0)).push(
                trim_end_cr(unfinished(unfinished(u) + b0)),
            ));
        }
    }
}

proof fn lemma_keep_last_append(x: Seq<Seq<char>>, y: Seq<Seq<char>>, n: nat)
    ensures
        keep_last(keep_last(x, n) + y, n) == keep_last(x + y, n),
{
    let kx = keep_last(x, n);
    if x.len() > n {
        assert(kx.len() == n);
        if y.len() >= n {
            assert((kx + y).subrange((kx + y).len() - n, (kx + y).len() as int) =~= (x + y).subrange(
                (x + y).len() - n,
                (x + y).len() as int,
            ));
        } else {
            assert((kx + y).subrange((kx + y).len() - n, (kx + y).len() as int) =~= (x + y).subrange(
                (x + y).len() - n,
                (x + y).len() as int,
            ));
        }
    } else {
        assert(kx == x);
    }
}

/// Reading the error stream's text in two chunks keeps the same lines and
/// leaves the same text waiting as reading it in one: how the output was
/// split into reads does not matter.
pub proof fn law_tail_ignores_read_boundaries(
    lines: Seq<Seq<char>>,
    pending: Seq<char>,
    a: Seq<char>,
    b: Seq<char>,
)
    ensures
        keep_last(
            keep_last(lines + completed_lines(pending + a), STDERR_LINES as nat) + completed_lines(
                unfinished(pending + a) + b,
            ),
            STDERR_LINES as nat,
        ) == keep_last(lines + completed_lines(pending + a + b), STDERR_LINES as nat),
        unfinished(unfinished(pending + a) + b) == unfinished(pending + a + b),
{
    lemma_split_text(pending + a, b);
    assert(pending + a + b == (pending + a) + b);
    lemma_keep_last_append(
        lines + completed_lines(pending + a),
        completed_lines(unfinished(pending + a) + b),
        STDERR_LINES as nat,
    );
    assert(lines + completed_lines(pending + a) + completed_lines(unfinished(pending + a) + b)
        == lines + completed_lines(pending + a + b));
}


/// The text of a stream read in `chunks`, each decoded lossily on its own.
pub open spec fn decoded_chunks(chunks: Seq<Seq<u8>>) -> Seq<char>
    decreases chunks.len(),
{
    if chunks.len() == 0 {
        Seq::empty()
    } else {
        decoded_chunks(chunks.drop_last()) + lossy_utf8(chunks.last())
    }
}

/// The kept lines and the waiting text after feeding `chunks` one by one,
/// each as `StderrTail::feed` states it.
pub open spec fn after_chunks(lines: Seq<Seq<char>>, pending: Seq<char>, chunks: Seq<Seq<u8>>) -> (
    Seq<Seq<char>>,
    Seq<char>,
)
    decreases chunks.len(),
{
    if chunks.len() == 0 {
        (lines, pending)
    } else {
        let before = after_chunks(lines, pending, chunks.drop_last());
        let text = before.1 + lossy_utf8(chunks.last());
        (keep_last(before.0 + completed_lines(text), STDERR_LINES as nat), unfinished(text))
    }
}

/// The kept lines once the stream has ended, as `StderrTail::finish` states
/// it.
pub open spec fn after_end(state: (Seq<Seq<char>>, Seq<char>)) -> Seq<Seq<char>> {
    if state.1.len() > 0 {
        keep_last(state.0.push(state.1), STDERR_LINES as nat)
    } else {
        state.0
    }
}

/// Every line of `text`: those it completes, then what follows the last line
/// feed where that is not empty.
pub open spec fn stream_lines(text: Seq<char>) -> Seq<Seq<char>> {
    if unfinished(text).len() > 0 {
        completed_lines(text).push(unfinished(text))
    } else {
        completed_lines(text)
    }
}

/// A tail that holds at most fifty lines and no waiting text, fed a stream in
/// any number of chunks until the stream ends, holds the last fifty of its
/// lines followed by every line of the stream's text; while the stream is
/// read, the text after its last line feed waits.
pub proof fn law_tail_of_whole_stream(lines: Seq<Seq<char>>, chunks: Seq<Seq<u8>>)
    requires
        lines.len() <= STDERR_LINES,
    ensures
        after_chunks(lines, Seq::empty(), chunks).0 == keep_last(
            lines + completed_lines(decoded_chunks(chunks)),
            STDERR_LINES as nat,
        ),
        after_chunks(lines, Seq::empty(), chunks).1 == unfinished(decoded_chunks(chunks)),
        after_end(after_chunks(lines, Seq::empty(), chunks)) == keep_last(
            lines + stream_lines(decoded_chunks(chunks)),
            STDERR_LINES as nat,
        ),
    decreases chunks.len(),
{
    let text = decoded_chunks(chunks);
    if chunks.len() == 0 {
        assert(completed_lines(text) =~= Seq::<Seq<char>>::empty());
        assert(lines + completed_lines(text) =~= lines);
    } else {
        let rest = chunks.drop_last();
        let b = lossy_utf8(chunks.last());
        law_tail_of_whole_stream(lines, rest);
        let d = decoded_chunks(rest);
        law_tail_ignores_read_boundaries(lines, Seq::empty(), d, b);
        assert(Seq::<char>::empty() + d =~= d);
        assert(d + b == text);
    }
    let state = after_chunks(lines, Seq::empty(), chunks);
    let all = lines + completed_lines(text);
    if unfinished(text).len() > 0 {
        lemma_keep_last_append(all, seq![unfinished(text)], STDERR_LINES as nat);
        assert(keep_last(all, STDERR_LINES as nat) + seq![unfinished(text)] =~= state.0.push(state.1));
        assert(all + seq![unfinished(text)] =~= lines + stream_lines(text));
    } else {
        assert(keep_last(all, STDERR_LINES as nat).len() <= STDERR_LINES);
    }
}

/// How a request that meets `events` in this order ends: at the first event
/// on which it stops waiting, or not yet where it waits through all of them.
pub open spec fn request_outcome(id: u64, events: Seq<ServerEvent>) -> Option<RequestStep>
    decreases events.len(),
{
    if events.len() == 0 {
        None
    } else if step_of(id, events[0]) is Wait {
        request_outcome(id, events.drop_first())
    } else {
        Some(step_of(id, events[0]))
    }
}

/// Whether `event` is output that the request with id `id` skips: a line that
/// is not JSON, or a message that carries another id or none.
pub open spec fn skipped(id: u64, event: ServerEvent) -> bool {
    match event {
        ServerEvent::Message { id: reply, .. } => reply != Some(id),
        ServerEvent::Unparsable => true,
        _ => false,
    }
}

/// The first message that carries the request's id decides the request:
/// every line before it is skipped, and what comes after it is never read.
pub proof fn law_first_reply_decides(id: u64, events: Seq<ServerEvent>, k: int)
    requires
        0 <= k < events.len(),
        events[k] matches ServerEvent::Message { id: reply, .. } && reply == Some(id),
        forall|j: int| 0 <= j < k ==> #[trigger] skipped(id, events[j]),
    ensures
        request_outcome(id, events) == Some(step_of(id, events[k])),
    decreases k,
{
    if k > 0 {
        assert(skipped(id, events[0]));
        let rest = events.drop_first();
        assert forall|j: int| 0 <= j < k - 1 implies #[trigger] skipped(id, rest[j]) by {
            assert(rest[j] == events[j + 1]);
            assert(skipped(id, events[j + 1]));
        }
        law_first_reply_decides(id, rest, k - 1);
    }
}

/// A request whose output ends, or whose deadline passes, before its reply
/// fails with `Closed` or `Timeout`.
pub proof fn law_no_reply_fails(id: u64, events: Seq<ServerEvent>, k: int)
    requires
        0 <= k < events.len(),
        events[k] is Closed || events[k] is TimedOut,
        forall|j: int| 0 <= j < k ==> #[trigger] skipped(id, events[j]),
    ensures
        request_outcome(id, events) == Some(
            if events[k] is Closed {
                RequestStep::Fail(Error::Closed)
            } else {
                RequestStep::Fail(Error::Timeout)
            },
        ),
    decreases k,
{
    if k > 0 {
        assert(skipped(id, events[0]));
        let rest = events.drop_first();
        assert forall|j: int| 0 <= j < k - 1 implies #[trigger] skipped(id, rest[j]) by {
            assert(rest[j] == events[j + 1]);
            assert(skipped(id, events[j + 1]));
        }
        law_no_reply_fails(id, rest, k - 1);
    }
}

} // verus!
