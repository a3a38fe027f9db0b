//! The conversation with the assistant that proposes projects: messages,
//! the one reply that may still be pending, and whether a request runs.

use vstd::prelude::*;
use crate::text::{trimmed, str_trim};

verus! {

/// What the assistant's worker sends back: a project description, or why
/// there is none.
#[derive(Debug, Clone, PartialEq, Eq)]
pub enum LlmMessage {
    Done(String),
    Error(String),
}

/// One message of the conversation.
#[derive(Debug, Clone, PartialEq, Eq)]
pub struct ChatMessage {
    pub is_user: bool,
    pub content: String,
    pub pending: bool,
    pub is_error: bool,
}

/// The messages so far, the position of the assistant's reply that is still
/// being prepared (if any), and whether a request is running.
pub struct Conversation {
    pub chat_history: Vec<ChatMessage>,
    pub pending_assistant_message: Option<usize>,
    pub running: bool,
}

/// A message with the given text and flags.
pub open spec fn message_is(m: ChatMessage, is_user: bool, content: Seq<char>, pending: bool, is_error: bool) -> bool {
    &&& m.is_user == is_user
    &&& m.content@ == content
    &&& m.pending == pending
    &&& m.is_error == is_error
}

/// The text of the placeholder reply shown while a request runs.
pub open spec fn analysing_text() -> Seq<char> {
    "正在分析..."@
}

/// The text of a reply that reports a failure.
pub open spec fn failure_text(reason: Seq<char>) -> Seq<char> {
    "分析失败："@ + reason
}

/// The reply that ends a request: the summary, or the failure text.
pub open spec fn reply_is(m: ChatMessage, is_user: bool, outcome: Result<String, String>) -> bool {
    match outcome {
        Ok(s) => message_is(m, is_user, s@, false, false),
        Err(e) => message_is(m, is_user, failure_text(e@), false, true),
    }
}

/// `after` is `before` once a request for `input` has been asked to start,
/// and `r` what that returned: nothing changes while a request runs or when
/// the trimmed input is empty; otherwise the user's trimmed input and a
/// pending placeholder reply are appended, the request runs, and the
/// trimmed input is returned to be sent.
pub open spec fn request_begun(before: Conversation, input: Seq<char>, after: Conversation, r: Option<String>) -> bool {
    if before.running || trimmed(input).len() == 0 {
        r is None && after == before
    } else {
        &&& r matches Some(s) && s@ == trimmed(input)
        &&& after.running
        &&& after.chat_history@.len() == before.chat_history@.len() + 2
        &&& after.chat_history@.take(before.chat_history@.len() as int) == before.chat_history@
        &&& message_is(after.chat_history@[before.chat_history@.len() as int], true, trimmed(input), false, false)
        &&& message_is(after.chat_history@.last(), false, analysing_text(), true, false)
        &&& after.pending_assistant_message == Some((after.chat_history@.len() - 1) as usize)
    }
}

/// `after` is `before` once the running request has ended with `outcome`:
/// no request runs and no reply is pending; the reply takes the place of the
/// pending one, or is appended when there is none.
pub open spec fn request_finished(before: Conversation, outcome: Result<String, String>, after: Conversation) -> bool {
    &&& !after.running
    &&& after.pending_assistant_message is None
    &&& match before.pending_assistant_message {
        Some(i) if i < before.chat_history@.len() => {
            &&& after.chat_history@.len() == before.chat_history@.len()
            &&& forall|j: int| 0 <= j < before.chat_history@.len() && j != i
                ==> after.chat_history@[j] == before.chat_history@[j]
            &&& reply_is(after.chat_history@[i as int], before.chat_history@[i as int].is_user, outcome)
        },
        _ => {
            &&& after.chat_history@.len() == before.chat_history@.len() + 1
            &&& after.chat_history@.drop_last() == before.chat_history@
            &&& reply_is(after.chat_history@.last(), false, outcome)
        },
    }
}

/// A request that starts and then ends leaves the conversation idle, with
/// no reply pending and two more messages: the user's trimmed input, then
/// the assistant's reply (the summary, or the failure text).
pub proof fn lemma_request_round_trip(
    c0: Conversation,
    input: Seq<char>,
    c1: Conversation,
    sent: Option<String>,
    outcome: Result<String, String>,
    c2: Conversation,
)
    requires
        request_begun(c0, input, c1, sent),
        sent is Some,
        request_finished(c1, outcome, c2),
    ensures
        !c2.running,
        c2.pending_assistant_message is None,
        c2.chat_history@.len() == c0.chat_history@.len() + 2,
        c2.chat_history@.take(c0.chat_history@.len() as int) == c0.chat_history@,
        message_is(c2.chat_history@[c0.chat_history@.len() as int], true, trimmed(input), false, false),
        reply_is(c2.chat_history@.last(), false, outcome),
{
    let n = c0.chat_history@.len() as int;
    assert(c1.chat_history.len() == c1.chat_history@.len());
    let i = (c1.chat_history@.len() - 1) as usize;
    assert(i == n + 1);
    assert(c1.pending_assistant_message == Some(i));
    assert forall|j: int| 0 <= j < n implies c2.chat_history@.take(n)[j] == c0.chat_history@[j] by {
        assert(c1.chat_history@.take(n)[j] == c1.chat_history@[j]);
    }
    assert(c2.chat_history@.take(n) =~= c0.chat_history@);
    assert(c2.chat_history@[n + 1] == c2.chat_history@.last());
}

impl Conversation {
    /// An empty conversation with no request running.
    pub fn new() -> (r: Conversation)
        ensures
            r.chat_history@.len() == 0,
            r.pending_assistant_message is None,
            !r.running,
    {
        Conversation { chat_history: Vec::new(), pending_assistant_message: None, running: false }
    }

    /// Appends a message of the user.
    pub fn chat_user(&mut self, content: String)
        ensures
            final(self).chat_history@.len() == old(self).chat_history@.len() + 1,
            final(self).chat_history@.drop_last() == old(self).chat_history@,
            message_is(final(self).chat_history@.last(), true, content@, false, false),
            final(self).pending_assistant_message == old(self).pending_assistant_message,
            final(self).running == old(self).running,
    {
        self.chat_history.push(ChatMessage { is_user: true, content, pending: false, is_error: false });
        proof {
            assert(self.chat_history@.drop_last() =~= old(self).chat_history@);
        }
    }

    /// Appends a message of the assistant.
    pub fn chat_assistant(&mut self, content: String, pending: bool, is_error: bool)
        ensures
            final(self).chat_history@.len() == old(self).chat_history@.len() + 1,
            final(self).chat_history@.drop_last() == old(self).chat_history@,
            message_is(final(self).chat_history@.last(), false, content@, pending, is_error),
            final(self).pending_assistant_message == old(self).pending_assistant_message,
            final(self).running == old(self).running,
    {
        self.chat_history.push(ChatMessage { is_user: false, content, pending, is_error });
        proof {
            assert(self.chat_history@.drop_last() =~= old(self).chat_history@);
        }
    }

    /// Puts the final text into the pending reply, which stops being
    /// pending; without a pending reply (or with one that no longer exists)
    /// the text is appended as a new reply. Afterwards no reply is pending.
    pub fn replace_pending_assistant(&mut self, content: String, is_error: bool)
        ensures
            final(self).pending_assistant_message is None,
            final(self).running == old(self).running,
            match old(self).pending_assistant_message {
                Some(i) if i < old(self).chat_history@.len() => {
                    &&& final(self).chat_history@.len() == old(self).chat_history@.len()
                    &&& forall|j: int| 0 <= j < old(self).chat_history@.len() && j != i
                        ==> final(self).chat_history@[j] == old(self).chat_history@[j]
                    &&& message_is(final(self).chat_history@[i as int], old(self).chat_history@[i as int].is_user, content@, false, is_error)
                },
                _ => {
                    &&& final(self).chat_history@.len() == old(self).chat_history@.len() + 1
                    &&& final(self).chat_history@.drop_last() == old(self).chat_history@
                    &&& message_is(final(self).chat_history@.last(), false, content@, false, is_error)
                },
            },
    {
        let pending = self.pending_assistant_message;
        self.pending_assistant_message = None;
        if let Some(index) = pending {
            if index < self.chat_history.len() {
                let is_user = self.chat_history[index].is_user;
                self.chat_history.set(index, ChatMessage { is_user, content, pending: false, is_error });
                return;
            }
        }
        self.chat_assistant(content, false, is_error);
    }

    /// Starts a request for `input` (trimmed) unless one is running or the
    /// trimmed input is empty: records the user's message and a pending
    /// reply, marks the request as running, and returns the text to send.
    pub fn begin_request(&mut self, input: &str) -> (r: Option<String>)
        ensures
            request_begun(*old(self), input@, *final(self), r),
    {
        let text = str_trim(input);
        if self.running || text.is_empty() {
            return None;
        }
        let input = String::from_str(text);
        let sent = input.clone();
        let ghost before = self.chat_history@;
        self.chat_user(input);
        self.chat_assistant(String::from_str("正在分析..."), true, false);
        proof {
            assert(self.chat_history@.take(before.len() as int) =~= before);
        }
        self.pending_assistant_message = Some(self.chat_history.len() - 1);
        self.running = true;
        Some(sent)
    }

    /// Ends the running request with the reply `outcome`: a summary on
    /// success, or the reason for a failure, which is reported as
    /// "分析失败：" and the reason. The reply replaces the pending one.
    pub fn finish_request(&mut self, outcome: Result<String, String>)
        ensures
            request_finished(*old(self), outcome, *final(self)),
    {
        match outcome {
            Ok(summary) => self.replace_pending_assistant(summary, false),
            Err(reason) => {
                let text = String::from_str("分析失败：").concat(reason.as_str());
                self.replace_pending_assistant(text, true);
            },
        }
        self.running = false;
    }
}

} // verus!
