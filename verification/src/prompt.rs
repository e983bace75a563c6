//! Prompt construction for the two generation requests the library issues:
//! the fixed tagging prompt with the clipboard text interpolated at the end,
//! and the conversational greeting prompt.

use vstd::prelude::*;
use vstd::string::StringExecFns;

verus! {

/// The fixed tagging prompt template; the clipboard text is appended to it.
pub open spec fn tag_prompt_template() -> Seq<char> {
    "Analyze the provided information and categorize it into relevant tags as an array (min 10 tags, max 20 tags). Your response should focus solely on tagging based on both textual content and visual data presented in the screenshots, excluding any other unrelated details or actions. text content: "@
}

/// The tagging prompt for a given clipboard text.
pub open spec fn tagging_prompt_spec(text: Seq<char>) -> Seq<char> {
    tag_prompt_template() + text
}

/// Builds the tagging prompt: the fixed template with `text` appended.
pub fn tagging_prompt(text: &str) -> (r: String)
    ensures
        r@ == tagging_prompt_spec(text@),
{
    let template: String = "Analyze the provided information and categorize it into relevant tags as an array (min 10 tags, max 20 tags). Your response should focus solely on tagging based on both textual content and visual data presented in the screenshots, excluding any other unrelated details or actions. text content: ".to_owned();
    template.concat(text)
}

/// The tagging prompt is byte-identical across calls modulo the interpolated
/// text: every prompt starts with the same template, and what follows the
/// template is exactly the interpolated text.
pub proof fn lemma_prompt_stability(t1: Seq<char>, t2: Seq<char>)
    ensures
        tagging_prompt_spec(t1).subrange(0, tag_prompt_template().len() as int)
            == tagging_prompt_spec(t2).subrange(0, tag_prompt_template().len() as int),
        tagging_prompt_spec(t1).skip(tag_prompt_template().len() as int) == t1,
        tagging_prompt_spec(t2).skip(tag_prompt_template().len() as int) == t2,
{
    assert(tagging_prompt_spec(t1).subrange(0, tag_prompt_template().len() as int)
        =~= tag_prompt_template());
    assert(tagging_prompt_spec(t2).subrange(0, tag_prompt_template().len() as int)
        =~= tag_prompt_template());
    assert(tagging_prompt_spec(t1).skip(tag_prompt_template().len() as int) =~= t1);
    assert(tagging_prompt_spec(t2).skip(tag_prompt_template().len() as int) =~= t2);
}

/// Opening part of the greeting prompt, before the interpolated name.
pub open spec fn greet_prompt_head() -> Seq<char> {
    "You are helpfull AI assistant. "@
}

/// Closing part of the greeting prompt, after the interpolated name.
pub open spec fn greet_prompt_tail() -> Seq<char> {
    " want to talk with you."@
}

/// The greeting prompt for a given name.
pub open spec fn greet_prompt_spec(name: Seq<char>) -> Seq<char> {
    greet_prompt_head() + name + greet_prompt_tail()
}

/// Builds the conversational greeting prompt with `name` interpolated.
pub fn greet_prompt(name: &str) -> (r: String)
    ensures
        r@ == greet_prompt_spec(name@),
{
    let head: String = "You are helpfull AI assistant. ".to_owned();
    head.concat(name).concat(" want to talk with you.")
}

/// The identifier of the multimodal model the requests are addressed to.
pub open spec fn model_name_spec() -> Seq<char> {
    "llava-phi3:latest"@
}

/// Returns the model identifier used for every generation request.
pub fn model_name() -> (r: String)
    ensures
        r@ == model_name_spec(),
{
    "llava-phi3:latest".to_owned()
}

/// Turns the outcome of the greeting generation into the string shown to the
/// caller: the reply behind an `AI:` header on success, the error text behind
/// an `Error: ` prefix on failure.
pub fn greet_reply(res: Result<String, String>) -> (r: String)
    ensures
        res is Ok ==> r@ == "AI:\n"@ + res->Ok_0@,
        res is Err ==> r@ == "Error: "@ + res->Err_0@,
{
    match res {
        Ok(s) => {
            let head: String = "AI:\n".to_owned();
            head.concat(s.as_str())
        },
        Err(e) => {
            let head: String = "Error: ".to_owned();
            head.concat(e.as_str())
        },
    }
}

} // verus!
