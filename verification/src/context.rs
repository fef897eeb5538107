//! The ordered session transcript handed to the chat backend.
use vstd::prelude::*;

verus! {

/// Who produced a transcript entry.
#[derive(Clone, Copy, Debug, PartialEq, Eq, Structural)]
pub enum Role {
    System,
    User,
    Assistant,
}

/// One transcript entry.
pub struct Message {
    pub role: Role,
    pub content: String,
}

/// The active context of a session: an ordered transcript opened by the
/// system prompt, a token budget, and the retrieval switch.
///
/// The budget is advisory: turns are never rejected or evicted once it is
/// exceeded — a documented limitation, not an enforced truncation. While the
/// long-term store holds no more memories than the threshold, turns
/// accumulate directly; once the store has grown past it, the window
/// switches to augment mode and stays there for the rest of the session.
pub struct ContextWindow {
    pub messages: Vec<Message>,
    pub token_budget: usize,
    pub threshold: usize,
    pub augment: bool,
}

impl ContextWindow {
    /// A fresh window holding exactly the system prompt.
    pub fn new(system_prompt: String, token_budget: usize, threshold: usize) -> (w: ContextWindow)
        ensures
            w.messages@.len() == 1,
            w.messages@[0].role == Role::System,
            w.messages@[0].content == system_prompt,
            w.token_budget == token_budget,
            w.threshold == threshold,
            !w.augment,
    {
        let mut messages: Vec<Message> = Vec::new();
        messages.push(Message { role: Role::System, content: system_prompt });
        ContextWindow { messages, token_budget, threshold, augment: false }
    }

    /// Appends a turn to the transcript. Never rejects, even past the
    /// budget.
    pub fn add(&mut self, message: Message)
        ensures
            final(self).messages@ == old(self).messages@.push(message),
            final(self).token_budget == old(self).token_budget,
            final(self).threshold == old(self).threshold,
            final(self).augment == old(self).augment,
    {
        self.messages.push(message);
    }

    /// Injects retrieved memory text as additional context immediately
    /// before the next user turn: appended as a system entry, replacing
    /// nothing of the existing history.
    pub fn edit(&mut self, injected: String)
        ensures
            final(self).messages@ == old(self).messages@.push(
                Message { role: Role::System, content: injected },
            ),
            final(self).token_budget == old(self).token_budget,
            final(self).threshold == old(self).threshold,
            final(self).augment == old(self).augment,
    {
        self.messages.push(Message { role: Role::System, content: injected });
    }

    /// The ordered transcript to send to the chat backend: a pure read.
    pub fn get(&self) -> (r: &Vec<Message>)
        ensures
            r@ == self.messages@,
    {
        &self.messages
    }

    /// Whether this turn must first be augmented with retrieved memories.
    /// True once the long-term store has ever exceeded the threshold: the
    /// switch latches, so the window never falls back to plain accumulation.
    pub fn augment_due(&mut self, store_len: usize) -> (r: bool)
        ensures
            r == final(self).augment,
            final(self).augment == (old(self).augment || store_len > old(self).threshold),
            final(self).messages@ == old(self).messages@,
            final(self).token_budget == old(self).token_budget,
            final(self).threshold == old(self).threshold,
    {
        if store_len > self.threshold {
            self.augment = true;
        }
        self.augment
    }
}

/// The injected context block: every retrieved text followed by a newline
/// and a tab, in order.
pub open spec fn injection_spec(ts: Seq<Seq<char>>) -> Seq<char>
    decreases ts.len(),
{
    if ts.len() == 0 {
        Seq::empty()
    } else {
        injection_spec(ts.drop_last()) + ts.last() + seq!['\n', '\t']
    }
}

/// Joins retrieved memory texts into the block that `edit` injects.
#[verifier::loop_isolation(false)]
pub fn format_injection(texts: &Vec<String>) -> (r: String)
    ensures
        r@ == injection_spec(texts@.map_values(|t: String| t@)),
{
    let ghost gts = texts@.map_values(|t: String| t@);
    let n = texts.len();
    let mut out = String::new();
    let mut i: usize = 0;
    while i < n
        invariant
            0 <= i <= n,
            out@ == injection_spec(gts.take(i as int)),
        decreases n - i,
    {
        out.append(texts[i].as_str());
        out.append("\n\t");
        proof {
            reveal_strlit("\n\t");
            assert("\n\t"@ =~= seq!['\n', '\t']);
            assert(gts.take(i + 1).drop_last() =~= gts.take(i as int));
            assert(gts.take(i + 1).last() == gts[i as int]);
            assert(gts[i as int] == texts@[i as int]@);
            assert(out@ =~= injection_spec(gts.take(i + 1)));
        }
        i = i + 1;
    }
    proof {
        assert(gts.take(n as int) =~= gts);
    }
    out
}

} // verus!
