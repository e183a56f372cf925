//! Launching the browser, and cutting its output into frames.
//!
//! The browser reads commands from its fd 3 and writes messages to its fd 4.
//! Messages follow one another without separators: each is an envelope that
//! says how long it is.

use crate::cbor::consts;
use crate::cbor::de;
use crate::cbor::laws;
use crate::cbor::read;
use crate::cbor::value::Tree;
use crate::cbor::wire;
use vstd::prelude::*;

verus! {

/// Why no frame came.
#[derive(Debug)]
pub enum RecvError {
    /// What arrived is not a message.
    InvalidData(String),
    /// The browser closed its end.
    UnexpectedEof,
}

impl RecvError {
    /// The error as a line of text.
    pub fn describe(&self) -> (s: String)
        ensures
            match *self {
                RecvError::InvalidData(message) => s@ == message@,
                RecvError::UnexpectedEof => s@ == "browser closed pipe"@,
            },
    {
        match self {
            RecvError::InvalidData(message) => message.as_str().to_string(),
            RecvError::UnexpectedEof => "browser closed pipe".to_string(),
        }
    }
}

/// How many bytes the frame at the start of `buf` has, or nothing as long as it
/// is not all there.
pub open spec fn whole_frame(buf: Seq<u8>) -> Result<Option<int>, Seq<char>> {
    match read::frame_len(buf) {
        Ok(Some(len)) => if read::clamped(len) <= buf.len() {
            Ok(Some(read::clamped(len)))
        } else {
            Ok(None)
        },
        other => other,
    }
}

/// What has arrived and is not part of a frame that was handed out.
pub struct FrameBuffer {
    pub buf: Vec<u8>,
}

impl FrameBuffer {
    pub fn new() -> (b: FrameBuffer)
        ensures
            b.buf@ == Seq::<u8>::empty(),
    {
        FrameBuffer { buf: Vec::new() }
    }

    /// Takes the next frame out of the buffer. `None` says that more bytes have
    /// to arrive first.
    pub fn next_frame(&mut self) -> (r: Result<Option<Vec<u8>>, RecvError>)
        ensures
            match r {
                Ok(Some(frame)) => {
                    &&& whole_frame(old(self).buf@) matches Ok(Some(n))
                    &&& frame@ == old(self).buf@.take(n)
                    &&& final(self).buf@ == old(self).buf@.skip(n)
                },
                Ok(None) => {
                    &&& whole_frame(old(self).buf@) == Ok::<_, Seq<char>>(None::<int>)
                    &&& final(self).buf@ == old(self).buf@
                },
                Err(e) => {
                    &&& e matches RecvError::InvalidData(message)
                    &&& whole_frame(old(self).buf@) == Err::<Option<int>, _>(message@)
                    &&& final(self).buf@ == old(self).buf@
                },
            },
    {
        match de::message_len(self.buf.as_slice()) {
            Ok(Some(total)) => {
                if self.buf.len() < total {
                    return Ok(None);
                }
                let mut frame: Vec<u8> = self.buf.split_off(total);
                std::mem::swap(&mut frame, &mut self.buf);
                Ok(Some(frame))
            },
            Ok(None) => Ok(None),
            Err(e) => Err(RecvError::InvalidData(e.0)),
        }
    }

    /// Takes in what one read from the browser gave. A read that gives nothing
    /// says that the browser closed its end.
    pub fn feed(&mut self, chunk: &[u8]) -> (r: Result<(), RecvError>)
        ensures
            final(self).buf@ == old(self).buf@ + chunk@,
            match r {
                Ok(_) => chunk@.len() > 0,
                Err(e) => chunk@.len() == 0 && e is UnexpectedEof,
            },
    {
        if chunk.len() == 0 {
            assert(chunk@ == Seq::<u8>::empty());
            return Err(RecvError::UnexpectedEof);
        }
        self.buf.extend_from_slice(chunk);
        Ok(())
    }
}

/// The frames that a stream starts with, and what is left behind them.
pub open spec fn frames(stream: Seq<u8>) -> (Seq<Seq<u8>>, Seq<u8>)
    decreases stream.len(),
{
    match whole_frame(stream) {
        Ok(Some(n)) => if 0 < n <= stream.len() {
            let (others, rest) = frames(stream.skip(n));
            (seq![stream.take(n)] + others, rest)
        } else {
            (seq![], stream)
        },
        _ => (seq![], stream),
    }
}

/// The bytes of `parts`, one after the other.
pub open spec fn joined(parts: Seq<Seq<u8>>) -> Seq<u8>
    decreases parts.len(),
{
    if parts.len() == 0 {
        seq![]
    } else {
        parts[0] + joined(parts.skip(1))
    }
}

/// A frame has at least one byte, and no more than there are.
proof fn lemma_whole_frame_bounds(buf: Seq<u8>)
    ensures
        whole_frame(buf) matches Ok(Some(n)) ==> 0 < n <= buf.len(),
{
    if let Ok(Some(_)) = read::frame_len(buf) {
        let at: int = if buf[1] == consts::CBOR_ENVELOPE_TAG {
            2
        } else {
            1
        };
        crate::cbor::be::lemma_number_bound(buf.subrange(at + 1, at + 5));
    }
}

/// Nothing is lost and nothing is made up: the frames of a stream and what is
/// left behind them are the stream.
pub proof fn law_frames_make_up_the_stream(stream: Seq<u8>)
    ensures
        joined(frames(stream).0) + frames(stream).1 == stream,
    decreases stream.len(),
{
    lemma_whole_frame_bounds(stream);
    if let Ok(Some(n)) = whole_frame(stream) {
        let rest = stream.skip(n);
        law_frames_make_up_the_stream(rest);
        assert(frames(stream).0.skip(1) == frames(rest).0);
        assert(joined(frames(stream).0) + frames(stream).1 == stream.take(n) + rest);
    } else {
        assert(joined(frames(stream).0) == Seq::<u8>::empty());
    }
}

/// A frame that is all there stays the same when more bytes arrive.
pub proof fn law_whole_frame_is_final(buf: Seq<u8>, more: Seq<u8>)
    requires
        !(whole_frame(buf) matches Ok(None)),
    ensures
        whole_frame(buf + more) == whole_frame(buf),
        whole_frame(buf) matches Ok(Some(n)) ==> {
            &&& (buf + more).take(n) == buf.take(n)
            &&& (buf + more).skip(n) == buf.skip(n) + more
        },
{
    laws::law_message_length_is_final(buf, more);
    lemma_whole_frame_bounds(buf);
    if let Ok(Some(n)) = whole_frame(buf) {
        assert((buf + more).take(n) == buf.take(n));
        assert((buf + more).skip(n) == buf.skip(n) + more);
    }
}

/// It does not matter in which pieces a stream arrives: taking the frames out
/// after one piece, and the others after the next, gives the frames of the
/// whole.
pub proof fn law_pieces_do_not_matter(first: Seq<u8>, second: Seq<u8>)
    ensures
        frames(first + second).0 == frames(first).0 + frames(frames(first).1 + second).0,
        frames(first + second).1 == frames(frames(first).1 + second).1,
    decreases first.len(),
{
    lemma_whole_frame_bounds(first);
    if let Ok(Some(n)) = whole_frame(first) {
        let rest = first.skip(n);
        law_whole_frame_is_final(first, second);
        law_pieces_do_not_matter(rest, second);
        lemma_whole_frame_bounds(first + second);
        assert(frames(first + second).0 == seq![first.take(n)] + frames(rest + second).0);
    } else {
        assert(frames(first).0 == Seq::<Seq<u8>>::empty());
    }
}

/// The encodings of `messages`.
pub open spec fn encodings(messages: Seq<Tree>) -> Seq<Seq<u8>> {
    Seq::new(messages.len(), |i: int| wire::encoded(messages[i]))
}

/// A value that can be sent as a message: an array or object whose lengths fit
/// in their fields.
pub open spec fn is_message(t: Tree) -> bool {
    &&& t is Array || t is Object
    &&& wire::fits(t)
    &&& wire::encoded(t).len() <= usize::MAX
}

/// A frame that says itself where it ends.
pub open spec fn is_frame(bytes: Seq<u8>) -> bool {
    whole_frame(bytes) == Ok::<_, Seq<char>>(Some(bytes.len() as int))
}

/// Frames that are sent one after the other come out one by one, and nothing is
/// left.
pub proof fn law_frames_come_out_as_sent(sent: Seq<Seq<u8>>)
    requires
        forall|i: int| 0 <= i < sent.len() ==> is_frame(#[trigger] sent[i]),
    ensures
        frames(joined(sent)).0 == sent,
        frames(joined(sent)).1 == Seq::<u8>::empty(),
    decreases sent.len(),
{
    if sent.len() == 0 {
        assert(whole_frame(seq![]) == Ok::<_, Seq<char>>(None::<int>));
    } else {
        let others = sent.skip(1);
        assert forall|i: int| 0 <= i < others.len() implies is_frame(#[trigger] others[i]) by {
            assert(others[i] == sent[i + 1]);
        }
        law_frames_come_out_as_sent(others);
        let first = sent[0];
        let rest = joined(others);
        assert(is_frame(first));
        law_whole_frame_is_final(first, rest);
        lemma_whole_frame_bounds(first);
        assert(first.skip(first.len() as int) + rest == rest);
        assert(first.take(first.len() as int) == first);
        assert(seq![first] + others == sent);
    }
}

/// Messages that are sent one after the other come out one by one, and nothing
/// is left.
pub proof fn law_messages_come_out_as_sent(messages: Seq<Tree>)
    requires
        forall|i: int| 0 <= i < messages.len() ==> is_message(#[trigger] messages[i]),
    ensures
        frames(joined(encodings(messages))).0 == encodings(messages),
        frames(joined(encodings(messages))).1 == Seq::<u8>::empty(),
{
    let sent = encodings(messages);
    assert forall|i: int| 0 <= i < sent.len() implies is_frame(#[trigger] sent[i]) by {
        assert(is_message(messages[i]));
        laws::law_message_says_its_length(messages[i], seq![]);
        assert(wire::encoded(messages[i]) + seq![] == wire::encoded(messages[i]));
    }
    law_frames_come_out_as_sent(sent);
}

/// What one side sends the other receives: decoding the frames that come out of
/// the stream gives the messages that went in.
pub proof fn law_messages_are_received_as_sent(messages: Seq<Tree>, i: int)
    requires
        forall|j: int| 0 <= j < messages.len() ==> is_message(#[trigger] messages[j]),
        0 <= i < messages.len(),
    ensures
        frames(joined(encodings(messages))).0.len() == messages.len(),
        read::item(frames(joined(encodings(messages))).0[i], 0) matches Ok((t, _)) && t
            == messages[i],
{
    law_messages_come_out_as_sent(messages);
    assert(is_message(messages[i]));
    laws::law_decode_gives_back_what_was_encoded(messages[i], seq![]);
    assert(wire::encoded(messages[i]) + seq![] == wire::encoded(messages[i]));
}

/// What a browser process is started with, before the caller's own arguments:
/// headless, with the debugging pipe in CBOR mode.
pub open spec fn fixed_args() -> Seq<Seq<char>> {
    seq![
        "--remote-debugging-pipe=cbor"@,
        "--headless=new"@,
        "--no-first-run"@,
        "--no-default-browser-check"@,
        "--user-data-dir=/tmp/rust-cdp-profile"@,
    ]
}

/// The arguments of the browser process.
pub fn browser_args(extra_args: &[&str]) -> (args: Vec<String>)
    ensures
        args@.map_values(|a: String| a@) == fixed_args() + extra_args@.map_values(|a: &str| a@),
{
    let mut args: Vec<String> = Vec::new();
    args.push("--remote-debugging-pipe=cbor".to_string());
    args.push("--headless=new".to_string());
    args.push("--no-first-run".to_string());
    args.push("--no-default-browser-check".to_string());
    args.push("--user-data-dir=/tmp/rust-cdp-profile".to_string());
    assert(args@.map_values(|a: String| a@) == fixed_args());
    let mut i: usize = 0;
    while i < extra_args.len()
        invariant
            i <= extra_args.len(),
            args@.map_values(|a: String| a@) == fixed_args() + extra_args@.take(i as int).map_values(
                |a: &str| a@,
            ),
        decreases extra_args.len() - i,
    {
        let ghost before = args@.map_values(|a: String| a@);
        let extra: String = extra_args[i].to_string();
        args.push(extra);
        proof {
            assert(args@.map_values(|a: String| a@) == before.push(extra@));
            assert(extra_args@.take(i + 1).map_values(|a: &str| a@) == extra_args@.take(
                i as int,
            ).map_values(|a: &str| a@).push(extra@));
        }
        i += 1;
    }
    assert(extra_args@.take(i as int) == extra_args@);
    args
}

/// The fd from which the browser reads commands.
pub const BROWSER_READS: i32 = 3;

/// The fd to which the browser writes messages.
pub const BROWSER_WRITES: i32 = 4;

/// One step on the file descriptors of a process.
#[derive(Debug, Clone, Copy, PartialEq, Eq)]
pub enum FdStep {
    /// Close the descriptor.
    Close(i32),
    /// Make the second descriptor the same as the first, whatever it was.
    Dup2(i32, i32),
}

/// The descriptors of the two pipes. Commands go through pipe A, and messages
/// come back through pipe B.
#[derive(Debug, Clone, Copy)]
pub struct Pipes {
    pub a_read: i32,
    pub a_write: i32,
    pub b_read: i32,
    pub b_write: i32,
}

/// A descriptor that is neither of those that the browser uses is closed.
pub open spec fn close_unless_used(fd: i32) -> Seq<FdStep> {
    if fd != BROWSER_READS && fd != BROWSER_WRITES {
        seq![FdStep::Close(fd)]
    } else {
        seq![]
    }
}

impl Pipes {
    /// The steps that put the two ends of the child in their places, with the
    /// write end of pipe B not on fd 3.
    pub open spec fn direct_moves(self) -> Seq<FdStep> {
        seq![
            FdStep::Close(self.a_write),
            FdStep::Close(self.b_read),
            FdStep::Dup2(self.a_read, BROWSER_READS),
            FdStep::Dup2(self.b_write, BROWSER_WRITES),
        ]
    }

    /// The same with the write end of pipe B on fd 3: it first makes room, by
    /// way of a number that has just been freed.
    pub open spec fn detour_moves(self) -> Seq<FdStep> {
        seq![
            FdStep::Close(self.a_write),
            FdStep::Close(self.b_read),
            FdStep::Dup2(BROWSER_READS, self.a_write),
            FdStep::Dup2(self.a_read, BROWSER_READS),
        ] + if self.a_write != BROWSER_WRITES {
            seq![FdStep::Dup2(self.a_write, BROWSER_WRITES), FdStep::Close(self.a_write)]
        } else {
            seq![]
        }
    }

    /// What the child process does with its descriptors before it becomes the
    /// browser.
    pub open spec fn child_plan(self) -> Seq<FdStep> {
        if self.b_write == BROWSER_READS {
            self.detour_moves() + close_unless_used(self.a_read)
        } else {
            self.direct_moves() + close_unless_used(self.a_read) + close_unless_used(self.b_write)
        }
    }

    /// What the child process does with its descriptors before it becomes the
    /// browser. The parent's ends go first: `pipe` hands out the lowest free
    /// numbers, so they may well be 3 and 4 themselves.
    pub fn child_steps(&self) -> (steps: Vec<FdStep>)
        ensures
            steps@ == self.child_plan(),
    {
        let mut steps: Vec<FdStep> = Vec::new();
        steps.push(FdStep::Close(self.a_write));
        steps.push(FdStep::Close(self.b_read));
        if self.b_write == BROWSER_READS {
            steps.push(FdStep::Dup2(BROWSER_READS, self.a_write));
            steps.push(FdStep::Dup2(self.a_read, BROWSER_READS));
            if self.a_write != BROWSER_WRITES {
                steps.push(FdStep::Dup2(self.a_write, BROWSER_WRITES));
                steps.push(FdStep::Close(self.a_write));
            }
            assert(steps@ == self.detour_moves());
        } else {
            steps.push(FdStep::Dup2(self.a_read, BROWSER_READS));
            steps.push(FdStep::Dup2(self.b_write, BROWSER_WRITES));
            assert(steps@ == self.direct_moves());
        }
        if self.a_read != BROWSER_READS && self.a_read != BROWSER_WRITES {
            steps.push(FdStep::Close(self.a_read));
        }
        if self.b_write != BROWSER_READS && self.b_write != BROWSER_WRITES {
            steps.push(FdStep::Close(self.b_write));
        }
        steps
    }

    /// What the parent process does with its descriptors once the browser runs:
    /// it closes the child's ends.
    pub fn parent_steps(&self) -> (steps: Vec<FdStep>)
        ensures
            steps@ == seq![FdStep::Close(self.a_read), FdStep::Close(self.b_write)],
    {
        let mut steps: Vec<FdStep> = Vec::new();
        steps.push(FdStep::Close(self.a_read));
        steps.push(FdStep::Close(self.b_write));
        steps
    }

    /// The four descriptors are different ones.
    pub open spec fn distinct(self) -> bool {
        &&& self.a_read != self.a_write
        &&& self.a_read != self.b_read
        &&& self.a_read != self.b_write
        &&& self.a_write != self.b_read
        &&& self.a_write != self.b_write
        &&& self.b_read != self.b_write
    }
}

/// What a descriptor refers to.
pub enum End {
    ReadOfA,
    WriteOfA,
    ReadOfB,
    WriteOfB,
    /// Something else that was open.
    Elsewhere(int),
}

/// The open descriptors after one step.
pub open spec fn stepped(open_fds: Map<i32, End>, step: FdStep) -> Map<i32, End> {
    match step {
        FdStep::Close(fd) => open_fds.remove(fd),
        FdStep::Dup2(from, to) => if open_fds.dom().contains(from) {
            open_fds.insert(to, open_fds[from])
        } else {
            open_fds
        },
    }
}

/// The open descriptors after all `steps`.
pub open spec fn run(open_fds: Map<i32, End>, steps: Seq<FdStep>) -> Map<i32, End>
    decreases steps.len(),
{
    if steps.len() == 0 {
        open_fds
    } else {
        stepped(run(open_fds, steps.drop_last()), steps.last())
    }
}

/// The open descriptors of a process that has just made the two pipes.
pub open spec fn fresh(pipes: Pipes, others: Map<i32, int>) -> Map<i32, End> {
    others.map_values(|what: int| End::Elsewhere(what)).insert(pipes.a_read, End::ReadOfA).insert(
        pipes.a_write,
        End::WriteOfA,
    ).insert(pipes.b_read, End::ReadOfB).insert(pipes.b_write, End::WriteOfB)
}

/// The browser finds the read end of pipe A on its fd 3 and the write end of
/// pipe B on its fd 4, holds no other end of the two pipes, and keeps every
/// other descriptor that was open, whatever numbers the pipes had.
pub proof fn law_browser_gets_its_pipes(pipes: Pipes, others: Map<i32, int>)
    requires
        pipes.distinct(),
    ensures
        ({
            let open_fds = run(fresh(pipes, others), pipes.child_plan());
            &&& open_fds.dom().contains(BROWSER_READS)
            &&& open_fds[BROWSER_READS] == End::ReadOfA
            &&& open_fds.dom().contains(BROWSER_WRITES)
            &&& open_fds[BROWSER_WRITES] == End::WriteOfB
            &&& forall|fd: i32|
                fd != BROWSER_READS && fd != BROWSER_WRITES && #[trigger] open_fds.dom().contains(fd)
                    ==> open_fds[fd] is Elsewhere && others.dom().contains(fd) && open_fds[fd]
                    == End::Elsewhere(others[fd])
            &&& forall|fd: i32|
                fd != BROWSER_READS && fd != BROWSER_WRITES && fd != pipes.a_read && fd
                    != pipes.a_write && fd != pipes.b_read && fd != pipes.b_write
                    && others.dom().contains(fd) ==> #[trigger] open_fds.dom().contains(fd)
                    && open_fds[fd] == End::Elsewhere(others[fd])
        }),
{
    let start = fresh(pipes, others);
    if pipes.b_write == BROWSER_READS {
        lemma_run_detour(start, pipes);
        lemma_run_close_unless_used(start, pipes.detour_moves(), pipes.a_read);
    } else {
        let moved = pipes.direct_moves();
        lemma_run_four(start, moved);
        lemma_run_close_unless_used(start, moved, pipes.a_read);
        lemma_run_close_unless_used(
            start,
            moved + close_unless_used(pipes.a_read),
            pipes.b_write,
        );
    }
}

proof fn lemma_run_detour(open_fds: Map<i32, End>, pipes: Pipes)
    ensures
        ({
            let freed = open_fds.remove(pipes.a_write).remove(pipes.b_read);
            let swapped = stepped(
                stepped(freed, FdStep::Dup2(BROWSER_READS, pipes.a_write)),
                FdStep::Dup2(pipes.a_read, BROWSER_READS),
            );
            run(open_fds, pipes.detour_moves()) == if pipes.a_write != BROWSER_WRITES {
                stepped(swapped, FdStep::Dup2(pipes.a_write, BROWSER_WRITES)).remove(pipes.a_write)
            } else {
                swapped
            }
        }),
{
    let all = pipes.detour_moves();
    let four = all.take(4);
    lemma_run_four(open_fds, four);
    if pipes.a_write != BROWSER_WRITES {
        assert(all.drop_last().drop_last() == four);
        reveal_with_fuel(run, 3);
    } else {
        assert(all == four);
    }
}

proof fn lemma_run_four(open_fds: Map<i32, End>, steps: Seq<FdStep>)
    requires
        steps.len() == 4,
    ensures
        run(open_fds, steps) == stepped(
            stepped(stepped(stepped(open_fds, steps[0]), steps[1]), steps[2]),
            steps[3],
        ),
{
    reveal_with_fuel(run, 5);
}

proof fn lemma_run_close_unless_used(open_fds: Map<i32, End>, steps: Seq<FdStep>, fd: i32)
    ensures
        run(open_fds, steps + close_unless_used(fd)) == if fd != BROWSER_READS && fd
            != BROWSER_WRITES {
            run(open_fds, steps).remove(fd)
        } else {
            run(open_fds, steps)
        },
{
    let all = steps + close_unless_used(fd);
    if fd != BROWSER_READS && fd != BROWSER_WRITES {
        assert(all.drop_last() == steps);
        assert(all.last() == FdStep::Close(fd));
    } else {
        assert(all == steps);
    }
}

/// Once the browser runs, the parent holds the write end of pipe A and the read
/// end of pipe B, and no other end of the two pipes.
pub proof fn law_parent_keeps_its_ends(pipes: Pipes, others: Map<i32, int>)
    requires
        pipes.distinct(),
    ensures
        ({
            let open_fds = run(
                fresh(pipes, others),
                seq![FdStep::Close(pipes.a_read), FdStep::Close(pipes.b_write)],
            );
            &&& open_fds.dom().contains(pipes.a_write)
            &&& open_fds[pipes.a_write] == End::WriteOfA
            &&& open_fds.dom().contains(pipes.b_read)
            &&& open_fds[pipes.b_read] == End::ReadOfB
            &&& forall|fd: i32|
                fd != pipes.a_write && fd != pipes.b_read && #[trigger] open_fds.dom().contains(fd)
                    ==> open_fds[fd] is Elsewhere && others.dom().contains(fd) && open_fds[fd]
                    == End::Elsewhere(others[fd])
        }),
{
    reveal_with_fuel(run, 3);
}

/// A frame is all there when the buffer holds as many bytes as its header says;
/// what is no message is refused in the words of its length.
pub proof fn law_whole_frame(buf: Seq<u8>)
    requires
        buf.len() < usize::MAX,
    ensures
        match read::frame_len(buf) {
            Ok(Some(len)) => {
                &&& len <= buf.len() ==> whole_frame(buf) == Ok::<_, Seq<char>>(Some(len))
                &&& len > buf.len() ==> whole_frame(buf) == Ok::<Option<int>, Seq<char>>(None)
            },
            Ok(None) => whole_frame(buf) == Ok::<Option<int>, Seq<char>>(None),
            Err(message) => whole_frame(buf) == Err::<Option<int>, _>(message),
        },
{
}

/// The frames of a stream, one after the other: without a whole frame at its
/// start there are none and all is left; otherwise the first comes, and then
/// those of what is behind it.
pub proof fn law_frames_one_by_one(stream: Seq<u8>)
    ensures
        match whole_frame(stream) {
            Ok(Some(n)) => {
                &&& 0 < n <= stream.len()
                &&& frames(stream).0 == seq![stream.take(n)] + frames(stream.skip(n)).0
                &&& frames(stream).1 == frames(stream.skip(n)).1
            },
            _ => frames(stream).0 == Seq::<Seq<u8>>::empty() && frames(stream).1 == stream,
        },
{
    lemma_whole_frame_bounds(stream);
}

/// Joining puts the parts one behind the other.
pub proof fn law_joined(parts: Seq<Seq<u8>>, more: Seq<u8>)
    ensures
        joined(seq![]) == Seq::<u8>::empty(),
        joined(parts.push(more)) == joined(parts) + more,
    decreases parts.len(),
{
    let all = parts.push(more);
    if parts.len() == 0 {
        reveal_with_fuel(joined, 2);
        assert(all[0] == more);
        assert(joined(all) == more);
    } else {
        law_joined(parts.skip(1), more);
        assert(all.skip(1) == parts.skip(1).push(more));
        assert(all[0] == parts[0]);
    }
}

/// The browser is started headless, with the debugging pipe in CBOR mode, and
/// with nothing else before the caller's own arguments.
pub proof fn law_fixed_args()
    ensures
        fixed_args().len() == 5,
        fixed_args()[0] == "--remote-debugging-pipe=cbor"@,
        fixed_args()[1] == "--headless=new"@,
        fixed_args()[2] == "--no-first-run"@,
        fixed_args()[3] == "--no-default-browser-check"@,
        fixed_args()[4] == "--user-data-dir=/tmp/rust-cdp-profile"@,
        BROWSER_READS == 3,
        BROWSER_WRITES == 4,
{
}

/// Which values can be sent as messages, and which bytes are frames.
pub proof fn law_what_can_be_sent(t: Tree, bytes: Seq<u8>)
    ensures
        is_message(t) <==> (t is Array || t is Object) && wire::fits(t) && wire::encoded(t).len()
            <= usize::MAX,
        is_frame(bytes) <==> (whole_frame(bytes) matches Ok(Some(n)) && n == bytes.len()),
{
}

} // verus!
