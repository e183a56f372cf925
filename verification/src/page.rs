//! Waiting for a page to load, by asking for its ready state again and again.

use vstd::prelude::*;

verus! {

/// How often the ready state is asked for.
pub const MAX_POLLS: u32 = 100;

/// How long to pause after a page that was not ready, in milliseconds.
pub const POLL_PAUSE_MS: u64 = 50;

/// What to do next.
#[derive(Debug, Clone, Copy, PartialEq, Eq)]
pub enum Next {
    /// Ask for the ready state.
    Poll,
    /// Pause for this many milliseconds, and then ask what to do next.
    Pause(u64),
    /// Stop waiting, whether or not the page has loaded.
    Done,
}

/// Where the waiting stands.
#[derive(Debug, Clone, Copy)]
pub struct LoadWait {
    /// How many polls are left.
    pub left: u32,
    /// The page has reported that it is complete.
    pub loaded: bool,
}

/// Whether a ready state says that the page has loaded.
pub open spec fn complete(ready_state: Option<Seq<char>>) -> bool {
    ready_state == Some("complete"@)
}

impl LoadWait {
    pub fn new() -> (w: LoadWait)
        ensures
            w.left == MAX_POLLS,
            !w.loaded,
    {
        LoadWait { left: MAX_POLLS, loaded: false }
    }

    /// What to do next, as long as no answer is due.
    pub open spec fn due(self) -> Next {
        if self.loaded || self.left == 0 {
            Next::Done
        } else {
            Next::Poll
        }
    }

    /// What to do next, as long as no answer is due.
    pub fn next(&self) -> (n: Next)
        ensures
            n == self.due(),
    {
        if self.loaded || self.left == 0 {
            Next::Done
        } else {
            Next::Poll
        }
    }

    /// The wait after a poll was answered with `ready_state`.
    pub open spec fn after(self, ready_state: Option<Seq<char>>) -> LoadWait {
        LoadWait { left: (self.left - 1) as u32, loaded: complete(ready_state) }
    }

    /// Takes the answer to a poll, and says what to do next: an answer that is
    /// not the text "complete" calls for a pause.
    pub fn answered(&mut self, ready_state: Option<&str>) -> (n: Next)
        requires
            old(self).due() is Poll,
        ensures
            *final(self) == old(self).after(
                match ready_state {
                    Some(s) => Some(s@),
                    None => None,
                },
            ),
            n == if final(self).loaded {
                Next::Done
            } else {
                Next::Pause(POLL_PAUSE_MS)
            },
    {
        self.left -= 1;
        self.loaded = match ready_state {
            Some(s) => s.to_string() == "complete".to_string(),
            None => false,
        };
        if self.loaded {
            Next::Done
        } else {
            Next::Pause(POLL_PAUSE_MS)
        }
    }
}

/// The wait after polls were answered with `answers`, in this order. Answers
/// that come when none is due count for nothing.
pub open spec fn waited(start: LoadWait, answers: Seq<Option<Seq<char>>>) -> LoadWait
    decreases answers.len(),
{
    if answers.len() == 0 || !(start.due() is Poll) {
        start
    } else {
        waited(start.after(answers[0]), answers.skip(1))
    }
}

/// The waiting is over after the first answer "complete", and otherwise after
/// the last poll, and not before.
pub proof fn law_waiting_ends_when_loaded_or_out_of_polls(
    start: LoadWait,
    answers: Seq<Option<Seq<char>>>,
)
    requires
        !start.loaded,
        answers.len() <= start.left,
    ensures
        waited(start, answers).loaded <==> exists|i: int|
            0 <= i < answers.len() && complete(#[trigger] answers[i]),
        waited(start, answers).due() is Done <==> (answers.len() == start.left || exists|i: int|
            0 <= i < answers.len() && complete(#[trigger] answers[i])),
    decreases answers.len(),
{
    if answers.len() > 0 {
        let rest = answers.skip(1);
        let later = start.after(answers[0]);
        if !complete(answers[0]) {
            law_waiting_ends_when_loaded_or_out_of_polls(later, rest);
            assert forall|i: int| 0 <= i < answers.len() && complete(#[trigger] answers[i]) implies 0
                <= i - 1 < rest.len() && complete(rest[i - 1]) by {}
            assert forall|i: int| 0 <= i < rest.len() && complete(#[trigger] rest[i]) implies 0 <= i
                + 1 < answers.len() && complete(answers[i + 1]) by {}
        } else {
            assert(waited(later, rest) == later);
        }
    }
}

/// The page is polled at most a hundred times, with pauses of fifty
/// milliseconds. It has loaded when it answers "complete", and nothing else; an
/// answer uses up one poll; and the waiting is over when the page has loaded or
/// no poll is left.
pub proof fn law_polling(w: LoadWait, answer: Option<Seq<char>>)
    ensures
        MAX_POLLS == 100,
        POLL_PAUSE_MS == 50,
        complete(answer) <==> answer is Some && answer->0 == "complete"@,
        w.due() is Poll <==> !w.loaded && w.left > 0,
        w.due() is Done <==> w.loaded || w.left == 0,
        w.left > 0 ==> w.after(answer).left == w.left - 1,
        w.after(answer).loaded <==> answer is Some && answer->0 == "complete"@,
{
}

} // verus!
