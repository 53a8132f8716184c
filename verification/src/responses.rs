//! The fixed-shape records a chat-completion response is mapped into at the
//! boundary, and token-usage accounting over them.

use vstd::prelude::*;

verus! {

/// The free-text body of one choice of a response.
pub struct Message {
    pub content: String,
}

/// One alternative completion within a response.
pub struct Choice {
    pub message: Message,
}

/// Token accounting for one or more calls. The three fields are summed
/// independently: whatever relation the provider maintains between them is
/// preserved, not recomputed.
pub struct Usage {
    pub prompt_tokens: usize,
    pub completion_tokens: usize,
    pub total_tokens: usize,
}

/// One chat-completion response: its choices, the model that produced it,
/// and its token usage.
pub struct ChatCompletionResponse {
    pub choices: Vec<Choice>,
    pub model: String,
    pub usage: Usage,
}

/// The field-wise sums of the usage records of a sequence of responses, as
/// `(prompt, completion, total)`.
pub open spec fn total_usage(rs: Seq<ChatCompletionResponse>) -> (int, int, int)
    decreases rs.len(),
{
    if rs.len() == 0 {
        (0, 0, 0)
    } else {
        let prev = total_usage(rs.drop_last());
        let u = rs.last().usage;
        (
            prev.0 + u.prompt_tokens,
            prev.1 + u.completion_tokens,
            prev.2 + u.total_tokens,
        )
    }
}

/// Every prefix of a sequence of responses accounts for no more tokens than
/// the whole, and never negatively many.
pub proof fn lemma_total_usage_prefix(rs: Seq<ChatCompletionResponse>, i: int)
    requires
        0 <= i <= rs.len(),
    ensures
        0 <= total_usage(rs.take(i)).0 <= total_usage(rs).0,
        0 <= total_usage(rs.take(i)).1 <= total_usage(rs).1,
        0 <= total_usage(rs.take(i)).2 <= total_usage(rs).2,
    decreases rs.len() - i,
{
    if i == rs.len() {
        assert(rs.take(i) =~= rs);
        lemma_total_usage_nonneg(rs);
    } else {
        lemma_total_usage_prefix(rs, i + 1);
        lemma_total_usage_nonneg(rs.take(i));
        assert(rs.take(i + 1).drop_last() =~= rs.take(i));
        assert(rs.take(i + 1).last() == rs[i]);
    }
}

pub proof fn lemma_total_usage_nonneg(rs: Seq<ChatCompletionResponse>)
    ensures
        total_usage(rs).0 >= 0,
        total_usage(rs).1 >= 0,
        total_usage(rs).2 >= 0,
    decreases rs.len(),
{
    if rs.len() > 0 {
        lemma_total_usage_nonneg(rs.drop_last());
    }
}

/// Field-wise addition of two usage records, the accumulation step the
/// builder runs once per response.
pub fn accumulate(running: Usage, increment: Usage) -> (r: Usage)
    requires
        running.prompt_tokens + increment.prompt_tokens <= usize::MAX,
        running.completion_tokens + increment.completion_tokens <= usize::MAX,
        running.total_tokens + increment.total_tokens <= usize::MAX,
    ensures
        r.prompt_tokens == running.prompt_tokens + increment.prompt_tokens,
        r.completion_tokens == running.completion_tokens + increment.completion_tokens,
        r.total_tokens == running.total_tokens + increment.total_tokens,
{
    Usage {
        prompt_tokens: running.prompt_tokens + increment.prompt_tokens,
        completion_tokens: running.completion_tokens + increment.completion_tokens,
        total_tokens: running.total_tokens + increment.total_tokens,
    }
}

} // verus!
