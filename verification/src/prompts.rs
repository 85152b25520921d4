//! Prompt construction for the retrieval-augmented answering flow.

use vstd::prelude::*;
use vstd::string::StringExecFns;

verus! {

/// The instruction handed to the language model: the caller's prompt, the
/// index of known links, and the request to answer with a JSON list of the
/// links worth fetching.
pub fn rag_instruction(initial_prompt: &str, link_index: &str) -> (r: String)
    ensures
        r@ == "\n    Given this initial prompt: \n    "@ + initial_prompt@
            + "\n\n    And this context: \n    "@ + link_index@
            + "\n\n    Provide a list of all the links that you would like to inspect to get better knowledge and context. Pick as many as necessary, but no more. If no links are relevant, just return an empty list, it's common not to have to return any links.\n    Make sure to stricly answer in the form of a json list of strings. This list is going to get parsed, so any wrong answer, including pre or post amble will ruin it. \n    "@,
{
    let mut r = String::from_str("\n    Given this initial prompt: \n    ");
    r.append(initial_prompt);
    r.append("\n\n    And this context: \n    ");
    r.append(link_index);
    r.append(
        "\n\n    Provide a list of all the links that you would like to inspect to get better knowledge and context. Pick as many as necessary, but no more. If no links are relevant, just return an empty list, it's common not to have to return any links.\n    Make sure to stricly answer in the form of a json list of strings. This list is going to get parsed, so any wrong answer, including pre or post amble will ruin it. \n    ",
    );
    r
}

} // verus!
