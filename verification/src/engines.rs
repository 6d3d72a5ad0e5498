//! The outside engines that the balancer calls on a request's way in: the
//! chat-prompt template, the tokenizer, the URL parser and the JSON object
//! that holds a request's body. Nothing in this file is proved: each
//! function states what the outside code is taken to do.

use vstd::prelude::*;
use crate::TokenId;

verus! {

/// `tokenizers::Tokenizer`: carried as it is; nothing is read from it.
#[verifier::external_type_specification]
#[verifier::external_body]
pub struct ExTokenizer(tokenizers::Tokenizer);

/// `endpoints::chat::ChatCompletionRequestMessage`: handed to the template
/// as it is.
#[verifier::external_type_specification]
#[verifier::external_body]
pub struct ExChatCompletionRequestMessage(endpoints::chat::ChatCompletionRequestMessage);

/// `endpoints::chat::Tool`: handed to the template as it is.
#[verifier::external_type_specification]
#[verifier::external_body]
pub struct ExTool(endpoints::chat::Tool);

/// `serde_json::Value`: a member's value, never read here.
#[verifier::external_type_specification]
#[verifier::external_body]
pub struct ExJsonValue(serde_json::Value);

/// `serde_json::Map`: what it holds is named by [`json_members`].
#[verifier::external_type_specification]
#[verifier::external_body]
#[verifier::reject_recursive_types(K)]
#[verifier::reject_recursive_types(V)]
pub struct ExJsonMap<K, V>(serde_json::Map<K, V>);

/// The body of a request: a JSON object.
pub type JsonObject = serde_json::Map<String, serde_json::Value>;

/// A member of a JSON object as the contracts see it: what kind of value it
/// is, and the value.
pub enum JsonMember {
    /// A string, with its characters.
    Text(Seq<char>),
    /// A number that is a whole number and not below zero.
    Count(nat),
    /// Any other value, with its JSON text.
    Other(Seq<char>),
}

/// The members of a JSON object, by name.
pub uninterp spec fn json_members(body: serde_json::Map<String, serde_json::Value>) -> Map<Seq<char>, JsonMember>;

/// The host of a URL, where the text is an absolute URL that has one.
pub uninterp spec fn url_host(url: Seq<char>) -> Option<Seq<char>>;

/// The authority of a URL, where the text is an absolute URL: user, host and
/// port as the URL writes them, and the empty text where the URL has none.
pub uninterp spec fn url_authority(url: Seq<char>) -> Option<Seq<char>>;

/// The number of tools that come with a request.
pub open spec fn tool_count(tools: Option<&[endpoints::chat::Tool]>) -> nat {
    match tools {
        Some(list) => list@.len(),
        None => 0,
    }
}

/// The template named `template` can be asked for a prompt with `tools`
/// tools. Three names stand for no chat template at all, and making a
/// template of one of them panics. The template `functionary-32` renders its
/// tools through a text template and panics where a tool lacks a part that
/// the text names (a description, parameters, or the description or type of
/// a property), so it is asked only where there are no tools.
pub open spec fn prompt_can_be_built(template: Seq<char>, tools: nat) -> bool {
    &&& template != "embedding"@
    &&& template != "tts"@
    &&& template != "none"@
    &&& template == "functionary-32"@ ==> tools == 0
}

/// The URL that a reference resolves to against a base URL, where the base is
/// an absolute URL and the reference resolves against it.
pub uninterp spec fn url_joined(base: Seq<char>, reference: Seq<char>) -> Option<Seq<char>>;

/// `chat_prompts::PromptTemplateType::from_str`, `chat_prompts::ChatPrompt::from`
/// and `chat_prompts::BuildChatPrompt::build_with_tools`: the prompt that the
/// template named `template` makes of the messages and the tools, or the
/// error as text where the name is unknown or the template refuses the
/// messages. The template may rewrite the messages. Nothing is claimed of the
/// text. The requests left out are those on which the outside code is known
/// to panic; the templates' other unwraps are on the JSON text of the tools
/// and on reading an image from memory, which do not fail. The template
/// `functionary-31` also writes its tools to standard output, and panics
/// where that cannot be written to.
#[verifier::external_body]
pub(crate) fn build_prompt(
    template: &str,
    messages: &mut Vec<endpoints::chat::ChatCompletionRequestMessage>,
    tools: Option<&[endpoints::chat::Tool]>,
) -> Result<String, String>
    requires
        prompt_can_be_built(template@, tool_count(tools)),
{
    match <chat_prompts::PromptTemplateType as std::str::FromStr>::from_str(template) {
        Ok(kind) => chat_prompts::BuildChatPrompt::build_with_tools(
            &chat_prompts::ChatPrompt::from(kind),
            messages,
            tools,
        ).map_err(|error| error.to_string()),
        Err(error) => Err(error.to_string()),
    }
}

/// `tokenizers::Tokenizer::encode_fast` without special tokens, then
/// `tokenizers::Encoding::get_ids`: the token ids of the prompt, or the
/// tokenizer's error as text. Nothing is claimed of the ids: they depend on
/// the tokenizer that was loaded, and with a model that drops merges at
/// random also on chance. The normalizers, pre-tokenizers and models that a
/// tokenizer file can name hold unwraps of their own; no prompt is known on
/// which a tokenizer that loaded panics, and none is ruled out here.
#[verifier::external_body]
pub(crate) fn encode_prompt(tokenizer: &tokenizers::Tokenizer, prompt: String) -> Result<
    Vec<TokenId>,
    String,
> {
    match tokenizer.encode_fast(prompt, false) {
        Ok(encoding) => Ok(encoding.get_ids().to_vec()),
        Err(error) => Err(error.to_string()),
    }
}

/// `url::Url::parse`, then `url::Url::host_str`: the host of `url` as text,
/// and nothing where `url` does not parse or has no host.
#[verifier::external_body]
pub(crate) fn host_of(url: &str) -> (host: Option<String>)
    ensures
        match host {
            Some(text) => url_host(url@) == Some(text@),
            None => url_host(url@) is None,
        },
{
    match url::Url::parse(url) {
        Ok(parsed) => parsed.host_str().map(|text| text.to_string()),
        Err(_) => None,
    }
}

/// `url::Url::parse`, then `url::Url::authority`: the authority of `url` as
/// text, and nothing where `url` does not parse.
#[verifier::external_body]
pub(crate) fn authority_of(url: &str) -> (authority: Option<String>)
    ensures
        match authority {
            Some(text) => url_authority(url@) == Some(text@),
            None => url_authority(url@) is None,
        },
{
    match url::Url::parse(url) {
        Ok(parsed) => Some(parsed.authority().to_string()),
        Err(_) => None,
    }
}

/// `url::Url::parse` of the base, then `url::Url::join`: the URL that
/// `reference` resolves to against `base`, as text, or the parser's error as
/// text.
#[verifier::external_body]
pub(crate) fn join_url(base: &str, reference: &str) -> (joined: Result<String, String>)
    ensures
        match joined {
            Ok(text) => url_joined(base@, reference@) == Some(text@),
            Err(_) => url_joined(base@, reference@) is None,
        },
{
    match url::Url::parse(base).and_then(|parsed| parsed.join(reference)) {
        Ok(url) => Ok(url.to_string()),
        Err(error) => Err(error.to_string()),
    }
}

/// `serde_json::Map::insert` of a string made by `serde_json::Value::from`:
/// the member `key` is the string `value` from then on, and every other
/// member stays as it is.
#[verifier::external_body]
pub(crate) fn json_insert_text(body: &mut JsonObject, key: &str, value: &str)
    ensures
        json_members(*final(body)) == json_members(*old(body)).insert(key@, JsonMember::Text(value@)),
{
    body.insert(key.to_string(), serde_json::Value::from(value));
}

/// `serde_json::Map::insert` of a number made by `serde_json::Value::from`:
/// the member `key` is the number `value` from then on, and every other
/// member stays as it is.
#[verifier::external_body]
pub(crate) fn json_insert_count(body: &mut JsonObject, key: &str, value: u64)
    ensures
        json_members(*final(body)) == json_members(*old(body)).insert(
            key@,
            JsonMember::Count(value as nat),
        ),
{
    body.insert(key.to_string(), serde_json::Value::from(value));
}

/// `serde_json::Map::remove`: the object has no member `key` from then on,
/// and every other member stays as it is.
#[verifier::external_body]
pub(crate) fn json_remove(body: &mut JsonObject, key: &str)
    ensures
        json_members(*final(body)) == json_members(*old(body)).remove(key@),
{
    body.remove(key);
}

} // verus!
