//! Optional AI false-positive classifier: what is asked, and how the answer is read.
//!
//! A match is put to an OpenAI-compatible chat endpoint.  This module builds the request from the
//! configuration and the match, and turns the body of the response into a verdict; sending the one
//! and receiving the other is up to the caller.

use crate::engine::{AiVerdict, ScanMatch};
use crate::engine_spec::{MatchView, VerdictView};
use crate::rules::Severity;
use crate::text;
use crate::text::{chars_of, str_eq, string_of, trim};
use vstd::prelude::*;
use vstd::string::*;

verus! {

// ---------------------------------------------------------------------------
// Configuration
// ---------------------------------------------------------------------------

/// How the endpoint is reached.
pub struct AiConfig {
    /// Base URL of an OpenAI-compatible API; `/chat/completions` is appended.
    pub endpoint: String,
    pub api_key: String,
    pub model: String,
    /// Additional instructions appended to the built-in system prompt.
    pub prompt: Option<String>,
}

/// The built-in system prompt.
pub const DEFAULT_SYSTEM: &'static str = "You are a senior security code auditor. \
You will be given a static analysis finding and the surrounding source code. \
Determine whether the finding is a genuine security concern, a false positive, \
or whether there is insufficient information in the snippet to make a determination. \
Respond ONLY with a JSON object \u{2014} no markdown fences, no explanation outside the JSON \u{2014} \
in exactly this format:\n\
{\"verdict\": \"<true_positive|false_positive|insufficient_info>\", \"reasoning\": \"<one sentence or empty string>\"}\n\
Use \"insufficient_info\" when the provided snippet does not contain enough context \
to make a confident determination; leave \"reasoning\" as an empty string in that case.";

// ---------------------------------------------------------------------------
// Request
// ---------------------------------------------------------------------------

/// `s` without any occurrences of `p` at its start.
pub open spec fn without_prefix(s: Seq<char>, p: Seq<char>) -> Seq<char>
    decreases s.len(),
{
    if p.len() > 0 && text::sep_at(s, p, 0) {
        without_prefix(s.skip(p.len() as int), p)
    } else {
        s
    }
}

/// `s` without any occurrences of `p` at its end.
pub open spec fn without_suffix(s: Seq<char>, p: Seq<char>) -> Seq<char>
    decreases s.len(),
{
    if p.len() > 0 && text::sep_at(s, p, s.len() - p.len()) {
        without_suffix(s.take(s.len() - p.len()), p)
    } else {
        s
    }
}

/// The address of the chat endpoint.
pub open spec fn url_of(endpoint: Seq<char>) -> Seq<char> {
    without_suffix(endpoint, "/"@) + "/chat/completions"@
}

/// The system prompt with the additional instructions.
pub open spec fn system_of(extra: Option<Seq<char>>) -> Seq<char> {
    match extra {
        None => DEFAULT_SYSTEM@,
        Some(e) => DEFAULT_SYSTEM@ + "\n\n"@ + e,
    }
}

/// The name of a severity in a question.
pub open spec fn severity_name(severity: Severity) -> Seq<char> {
    match severity {
        Severity::Error => "Error"@,
        Severity::Warning => "Warning"@,
        Severity::Info => "Info"@,
    }
}

/// The question about a match.
pub open spec fn question_of(m: MatchView) -> Seq<char> {
    "Rule: "@ + m.rule_name + "\nMessage: "@ + m.message + "\nSeverity: "@ + severity_name(
        m.severity,
    ) + "\n\nMatched text: "@ + m.matched_text + "\n\nSnippet:\n"@ + m.ai_snippet
}

/// One message of a conversation.
pub struct ChatMessage {
    pub role: String,
    pub content: String,
}

/// What is sent to the endpoint.
pub struct ChatRequest {
    pub url: String,
    /// Value of the `Authorization` header.
    pub authorization: String,
    pub model: String,
    pub messages: Vec<ChatMessage>,
    /// How much the answer may vary.
    pub temperature: u32,
}

/// The role and content of each message.
pub open spec fn message_views(messages: Seq<ChatMessage>) -> Seq<(Seq<char>, Seq<char>)> {
    messages.map_values(|m: ChatMessage| (m.role@, m.content@))
}

/// The conversation about a match: the system prompt, and then the question.
pub open spec fn conversation_of(extra: Option<Seq<char>>, m: MatchView) -> Seq<
    (Seq<char>, Seq<char>),
> {
    seq![("system"@, system_of(extra)), ("user"@, question_of(m))]
}

/// Remove all occurrences of `p` at the start of `s`.
fn trim_start_matches(s: &str, p: &str) -> (r: String)
    requires
        p@.len() > 0,
    ensures
        r@ == without_prefix(s@, p@),
{
    let chars = chars_of(s);
    let mark = chars_of(p);
    let n: usize = chars.len();
    let mut i: usize = 0;
    assert(s@.skip(0) =~= s@);
    while text::is_sep_at(chars.as_slice(), mark.as_slice(), i)
        invariant
            chars@ == s@,
            mark@ == p@,
            p@.len() > 0,
            i <= s@.len() == n,
            without_prefix(s@, p@) == without_prefix(s@.skip(i as int), p@),
        decreases s@.len() - i,
    {
        proof {
            let rest = s@.skip(i as int);
            assert(rest.subrange(0, p@.len() as int) =~= s@.subrange(i as int, i + p@.len()));
            assert(rest.skip(p@.len() as int) =~= s@.skip(i + p@.len()));
        }
        i = i + mark.len();
    }
    proof {
        let rest = s@.skip(i as int);
        if text::sep_at(rest, p@, 0) {
            assert(rest.subrange(0, p@.len() as int) =~= s@.subrange(i as int, i + p@.len()));
        }
        assert(s@.subrange(i as int, s@.len() as int) =~= rest);
    }
    string_of(chars.as_slice(), i, n)
}

/// Remove all occurrences of `p` at the end of `s`.
fn trim_end_matches(s: &str, p: &str) -> (r: String)
    requires
        p@.len() > 0,
    ensures
        r@ == without_suffix(s@, p@),
{
    let chars = chars_of(s);
    let mark = chars_of(p);
    let mut n: usize = chars.len();
    assert(s@.take(n as int) =~= s@);
    while n >= mark.len() && text::is_sep_at(chars.as_slice(), mark.as_slice(), n - mark.len())
        invariant
            chars@ == s@,
            mark@ == p@,
            p@.len() > 0,
            n <= s@.len(),
            without_suffix(s@, p@) == without_suffix(s@.take(n as int), p@),
        decreases n,
    {
        proof {
            let head = s@.take(n as int);
            let k = n - p@.len();
            assert(head.subrange(k, n as int) =~= s@.subrange(k, n as int));
            assert(head.take(k) =~= s@.take(k));
        }
        n = n - mark.len();
    }
    proof {
        let head = s@.take(n as int);
        let k = n - p@.len();
        if text::sep_at(head, p@, k) {
            assert(head.subrange(k, n as int) =~= s@.subrange(k, n as int));
        }
        assert(s@.subrange(0, n as int) =~= head);
    }
    string_of(chars.as_slice(), 0, n)
}

/// The question about a match, as the user message states it.
pub fn user_message(m: &ScanMatch) -> (r: String)
    ensures
        r@ == question_of(m@),
{
    let severity = match m.severity {
        Severity::Error => "Error",
        Severity::Warning => "Warning",
        Severity::Info => "Info",
    };
    let mut out = "Rule: ".to_owned();
    out.push_str(m.rule_name.as_str());
    out.push_str("\nMessage: ");
    out.push_str(m.message.as_str());
    out.push_str("\nSeverity: ");
    out.push_str(severity);
    out.push_str("\n\nMatched text: ");
    out.push_str(m.matched_text.as_str());
    out.push_str("\n\nSnippet:\n");
    out.push_str(m.ai_snippet.as_str());
    out
}

/// The request that asks for a verdict on a match.
pub fn chat_request(config: &AiConfig, m: &ScanMatch) -> (r: ChatRequest)
    ensures
        r.url@ == url_of(config.endpoint@),
        r.authorization@ == "Bearer "@ + config.api_key@,
        r.model@ == config.model@,
        message_views(r.messages@) == conversation_of(
            match config.prompt {
                Some(p) => Some(p@),
                None => None,
            },
            m@,
        ),
        r.temperature == 0,
        r.messages@.len() == 2,
        r.messages@[0].role@ == "system"@,
        r.messages@[1].role@ == "user"@,
        r.messages@[1].content@ == question_of(m@),
        DEFAULT_SYSTEM@.is_prefix_of(r.messages@[0].content@),
{
    proof {
        reveal_strlit("/");
    }
    let mut url = trim_end_matches(config.endpoint.as_str(), "/");
    url.push_str("/chat/completions");
    let mut authorization = "Bearer ".to_owned();
    authorization.push_str(config.api_key.as_str());
    let mut system = DEFAULT_SYSTEM.to_owned();
    if let Some(extra) = &config.prompt {
        system.push_str("\n\n");
        system.push_str(extra.as_str());
    }
    let mut messages: Vec<ChatMessage> = Vec::new();
    messages.push(ChatMessage { role: "system".to_owned(), content: system });
    messages.push(ChatMessage { role: "user".to_owned(), content: user_message(m) });
    assert(message_views(messages@) =~= conversation_of(option_view(config.prompt), m@));
    ChatRequest { url, authorization, model: config.model.clone(), messages, temperature: 0 }
}

// ---------------------------------------------------------------------------
// JSON
// ---------------------------------------------------------------------------

/// `serde_json::Error`, why bytes are no JSON.
#[verifier::external_type_specification]
#[verifier::external_body]
pub struct ExJsonError(serde_json::Error);

/// `serde_json::from_slice` reads the bytes as a JSON value.
pub uninterp spec fn is_json(bytes: Seq<u8>) -> bool;

/// The error with which `serde_json::from_slice` refuses the bytes.
pub uninterp spec fn json_error(bytes: Seq<u8>) -> serde_json::Error;

/// The string that `serde_json::Value` gives for the member `key` of the JSON value that the bytes
/// hold; none if the value is no object, has no such member, or has something else there.
pub uninterp spec fn json_member(bytes: Seq<u8>, key: Seq<char>) -> Option<Seq<char>>;

/// The string that `serde_json::Value` gives for the member `field` of the member `object` of the
/// element `index` of the member `list` of the JSON value that the bytes hold; none if there is no
/// such string.
pub uninterp spec fn json_nested_member(
    bytes: Seq<u8>,
    list: Seq<char>,
    index: int,
    object: Seq<char>,
    field: Seq<char>,
) -> Option<Seq<char>>;

/// The view of an optional string.
pub open spec fn option_view(s: Option<String>) -> Option<Seq<char>> {
    match s {
        Some(t) => Some(t@),
        None => None,
    }
}

/// `serde_json::from_slice` into a `serde_json::Value`, indexing by a key, and
/// `serde_json::Value::as_str`.
///
/// Claimed of them: the result depends on the bytes and the key alone, and is an error exactly
/// where the bytes are no JSON; which error depends on the bytes alone.
#[verifier::external_body]
fn read_member(bytes: &[u8], key: &str) -> (r: Result<Option<String>, serde_json::Error>)
    ensures
        r is Ok == is_json(bytes@),
        r matches Err(e) ==> e == json_error(bytes@),
        r matches Ok(s) ==> option_view(s) == json_member(bytes@, key@),
{
    let value: serde_json::Value = serde_json::from_slice(bytes)?;
    Ok(value[key].as_str().map(str::to_owned))
}

/// `serde_json::from_slice` into a `serde_json::Value`, indexing by a key, an index and two more
/// keys, and `serde_json::Value::as_str`.
///
/// Claimed of them: the result depends on the bytes and the steps alone, and is an error exactly
/// where the bytes are no JSON; which error depends on the bytes alone.
#[verifier::external_body]
fn read_nested_member(
    bytes: &[u8],
    list: &str,
    index: usize,
    object: &str,
    field: &str,
) -> (r: Result<Option<String>, serde_json::Error>)
    ensures
        r is Ok == is_json(bytes@),
        r matches Err(e) ==> e == json_error(bytes@),
        r matches Ok(s) ==> option_view(s) == json_nested_member(
            bytes@,
            list@,
            index as int,
            object@,
            field@,
        ),
{
    let value: serde_json::Value = serde_json::from_slice(bytes)?;
    Ok(value[list][index][object][field].as_str().map(str::to_owned))
}

// ---------------------------------------------------------------------------
// Response
// ---------------------------------------------------------------------------

/// What the classifier makes of a match.
#[derive(Debug, Clone, Copy, PartialEq, Eq, Structural)]
pub enum AiClassification {
    /// A genuine finding
    TruePositive,
    FalsePositive,
    /// The snippet does not tell
    Insufficient,
}

/// An answer of the classifier.
#[derive(Debug)]
pub struct AiAnswer {
    pub classification: AiClassification,
    /// Empty where the snippet does not tell.
    pub reasoning: String,
}

/// Why a response holds no answer.
#[derive(Debug)]
pub enum AiError {
    /// The response is no JSON.
    Response(serde_json::Error),
    /// The response has no message content.
    Shape,
    /// The message content is no JSON.
    Content(serde_json::Error),
    /// The message content has no verdict.
    NoVerdict,
    /// The verdict is none of those asked for.
    UnknownVerdict(String),
}

/// An answer, or what is wrong with a response.
pub enum AnswerView {
    Answer { classification: AiClassification, reasoning: Seq<char> },
    BadResponse { cause: serde_json::Error },
    BadShape,
    BadContent { cause: serde_json::Error },
    NoVerdict,
    UnknownVerdict { verdict: Seq<char> },
}

/// The view of an answer or error.
pub open spec fn answer_view(r: Result<AiAnswer, AiError>) -> AnswerView {
    match r {
        Ok(a) => AnswerView::Answer {
            classification: a.classification,
            reasoning: a.reasoning@,
        },
        Err(AiError::Response(cause)) => AnswerView::BadResponse { cause },
        Err(AiError::Shape) => AnswerView::BadShape,
        Err(AiError::Content(cause)) => AnswerView::BadContent { cause },
        Err(AiError::NoVerdict) => AnswerView::NoVerdict,
        Err(AiError::UnknownVerdict(v)) => AnswerView::UnknownVerdict { verdict: v@ },
    }
}

/// The text without the white space and the markdown fences that a model may put around it.
pub open spec fn unfenced(content: Seq<char>) -> Seq<char> {
    text::trimmed(
        without_suffix(
            without_prefix(without_prefix(text::trimmed(content), "```json"@), "```"@),
            "```"@,
        ),
    )
}

/// The answer with this verdict and reasoning.
pub open spec fn answer_of(verdict: Option<Seq<char>>, reasoning: Option<Seq<char>>) -> AnswerView {
    let given = match reasoning {
        Some(r) => r,
        None => seq![],
    };
    match verdict {
        None => AnswerView::NoVerdict,
        Some(v) => if v == "true_positive"@ {
            AnswerView::Answer {
                classification: AiClassification::TruePositive,
                reasoning: given,
            }
        } else if v == "false_positive"@ {
            AnswerView::Answer {
                classification: AiClassification::FalsePositive,
                reasoning: given,
            }
        } else if v == "insufficient_info"@ {
            AnswerView::Answer {
                classification: AiClassification::Insufficient,
                reasoning: seq![],
            }
        } else {
            AnswerView::UnknownVerdict { verdict: v }
        },
    }
}

/// The answer in the content of a message.
pub open spec fn content_answer(content: Seq<char>) -> AnswerView {
    let bytes = vstd::utf8::encode_utf8(unfenced(content));
    if !is_json(bytes) {
        AnswerView::BadContent { cause: json_error(bytes) }
    } else {
        answer_of(json_member(bytes, "verdict"@), json_member(bytes, "reasoning"@))
    }
}

/// The answer in the body of a response.
pub open spec fn response_answer(body: Seq<u8>) -> AnswerView {
    if !is_json(body) {
        AnswerView::BadResponse { cause: json_error(body) }
    } else {
        match json_nested_member(body, "choices"@, 0, "message"@, "content"@) {
            None => AnswerView::BadShape,
            Some(content) => content_answer(content),
        }
    }
}

/// Strip the white space and the markdown fences around the content of a message.
pub fn strip_fences(content: &str) -> (r: String)
    ensures
        r@ == unfenced(content@),
{
    proof {
        reveal_strlit("```json");
        reveal_strlit("```");
    }
    let s = trim(content);
    let s = trim_start_matches(s.as_str(), "```json");
    let s = trim_start_matches(s.as_str(), "```");
    let s = trim_end_matches(s.as_str(), "```");
    trim(s.as_str())
}

/// The answer with the given verdict and reasoning, as read from a message.
pub fn interpret(verdict: Option<String>, reasoning: Option<String>) -> (r: Result<
    AiAnswer,
    AiError,
>)
    ensures
        answer_view(r) == answer_of(option_view(verdict), option_view(reasoning)),
{
    let v = match verdict {
        Some(v) => v,
        None => {
            return Err(AiError::NoVerdict);
        },
    };
    let classification = if str_eq(v.as_str(), "true_positive") {
        AiClassification::TruePositive
    } else if str_eq(v.as_str(), "false_positive") {
        AiClassification::FalsePositive
    } else if str_eq(v.as_str(), "insufficient_info") {
        AiClassification::Insufficient
    } else {
        return Err(AiError::UnknownVerdict(v));
    };
    let reasoning = match (classification, reasoning) {
        (AiClassification::Insufficient, _) => String::new(),
        (_, Some(s)) => s,
        (_, None) => String::new(),
    };
    assert(Seq::<char>::empty() =~= seq![]);
    Ok(AiAnswer { classification, reasoning })
}

/// Read the answer in the content of a message.
pub fn read_content(content: &str) -> (r: Result<AiAnswer, AiError>)
    ensures
        answer_view(r) == content_answer(content@),
{
    let inner = strip_fences(content);
    let bytes = inner.as_str().as_bytes();
    match (read_member(bytes, "verdict"), read_member(bytes, "reasoning")) {
        (Ok(verdict), Ok(reasoning)) => interpret(verdict, reasoning),
        (Err(e), _) => Err(AiError::Content(e)),
        (_, Err(e)) => Err(AiError::Content(e)),
    }
}

/// Read the answer in the body of a response.
pub fn read_response(body: &[u8]) -> (r: Result<AiAnswer, AiError>)
    ensures
        answer_view(r) == response_answer(body@),
{
    match read_nested_member(body, "choices", 0, "message", "content") {
        Err(e) => Err(AiError::Response(e)),
        Ok(None) => Err(AiError::Shape),
        Ok(Some(content)) => read_content(content.as_str()),
    }
}

/// The verdict that an answer gives on a match; none where the snippet does not tell.
pub fn verdict_of(answer: AiAnswer) -> (r: Option<AiVerdict>)
    ensures
        match answer.classification {
            AiClassification::Insufficient => r is None,
            AiClassification::TruePositive => r matches Some(v) && v@ == (VerdictView {
                is_false_positive: false,
                reasoning: answer.reasoning@,
            }),
            AiClassification::FalsePositive => r matches Some(v) && v@ == (VerdictView {
                is_false_positive: true,
                reasoning: answer.reasoning@,
            }),
        },
{
    match answer.classification {
        AiClassification::Insufficient => None,
        AiClassification::TruePositive => Some(
            AiVerdict { is_false_positive: false, reasoning: answer.reasoning },
        ),
        AiClassification::FalsePositive => Some(
            AiVerdict { is_false_positive: true, reasoning: answer.reasoning },
        ),
    }
}

/// What `{:?}` of the standard library writes for a string: in quotes, with escapes.
pub uninterp spec fn debug_text(s: Seq<char>) -> Seq<char>;

/// `<str as std::fmt::Debug>::fmt`, through `format!`.
///
/// Claimed of it: the text depends on the string alone.
#[verifier::external_body]
fn quoted(s: &str) -> (r: String)
    ensures
        r@ == debug_text(s@),
{
    format!("{s:?}")
}

/// The text of an error.
pub open spec fn error_text(a: AnswerView) -> Seq<char> {
    match a {
        AnswerView::BadResponse { .. } => "AI API response was not valid JSON"@,
        AnswerView::BadShape => "unexpected AI response shape"@,
        AnswerView::BadContent { .. } => "AI response was not parseable JSON"@,
        AnswerView::NoVerdict => "AI JSON missing 'verdict' string"@,
        AnswerView::UnknownVerdict { verdict } => "AI JSON 'verdict' has unexpected value: "@
            + debug_text(verdict),
        AnswerView::Answer { .. } => seq![],
    }
}

impl AiError {
    /// The error as a text.
    pub fn message(&self) -> (r: String)
        ensures
            r@ == error_text(answer_view(Err(*self))),
            self is Response ==> r@ == "AI API response was not valid JSON"@,
            self is Shape ==> r@ == "unexpected AI response shape"@,
            self is Content ==> r@ == "AI response was not parseable JSON"@,
            self is NoVerdict ==> r@ == "AI JSON missing 'verdict' string"@,
            self matches AiError::UnknownVerdict(v) ==> r@
                == "AI JSON 'verdict' has unexpected value: "@ + debug_text(v@),
    {
        match self {
            AiError::Response(_) => "AI API response was not valid JSON".to_owned(),
            AiError::Shape => "unexpected AI response shape".to_owned(),
            AiError::Content(_) => "AI response was not parseable JSON".to_owned(),
            AiError::NoVerdict => "AI JSON missing 'verdict' string".to_owned(),
            AiError::UnknownVerdict(v) => {
                let mut out = "AI JSON 'verdict' has unexpected value: ".to_owned();
                out.push_str(quoted(v.as_str()).as_str());
                out
            },
        }
    }
}

// ---------------------------------------------------------------------------
// Laws
// ---------------------------------------------------------------------------

/// **Law.** Whatever instructions are added, the built-in prompt with its demand for a JSON answer
/// stands in front of them.
pub proof fn law_builtin_prompt_kept(extra: Option<Seq<char>>)
    ensures
        DEFAULT_SYSTEM@.len() <= system_of(extra).len(),
        system_of(extra).take(DEFAULT_SYSTEM@.len() as int) == DEFAULT_SYSTEM@,
{
    assert(system_of(extra).take(DEFAULT_SYSTEM@.len() as int) =~= DEFAULT_SYSTEM@);
}

/// **Law.** A slash at the end of the endpoint makes no difference.
pub proof fn law_url_trailing_slash(endpoint: Seq<char>)
    ensures
        url_of(endpoint + "/"@) == url_of(endpoint),
{
    reveal_strlit("/");
    let s = endpoint + "/"@;
    assert(s.subrange(s.len() - 1, s.len() as int) =~= "/"@);
    assert(s.take(s.len() - 1) =~= endpoint);
}

/// **Law.** A JSON answer in a markdown fence is read like the bare answer: what stands between the
/// fence lines is what remains, as long as it does not start or end with white space or a backtick.
pub proof fn law_fence_stripped(answer: Seq<char>)
    requires
        answer.len() > 0,
        !text::is_white(answer.first()),
        !text::is_white(answer.last()),
        answer.first() != '`',
        answer.last() != '`',
    ensures
        unfenced("```json\n"@ + answer + "\n```"@) == answer,
        unfenced(answer) == answer,
{
    reveal_strlit("```json\n");
    reveal_strlit("```json");
    reveal_strlit("\n```");
    reveal_strlit("```");
    let content = "```json\n"@ + answer + "\n```"@;
    let nl = seq!['\n'];
    let inner = nl + answer + nl;
    let tail = inner + "```"@;
    assert(content =~= "```json"@ + tail);
    assert(content[0] == '`' && content.last() == '`');
    assert(text::trimmed(content) == content);
    assert(content.subrange(0, 7) =~= "```json"@);
    assert(content.skip(7) =~= tail);
    assert(tail[0] == '\n');
    if text::sep_at(tail, "```json"@, 0) {
        assert(tail.subrange(0, 7)[0] == '`');
    }
    assert(without_prefix(tail, "```json"@) == tail);
    assert(without_prefix(content, "```json"@) == tail);
    assert(tail.subrange(0, 3)[0] != "```"@[0]);
    assert(without_prefix(tail, "```"@) == tail);
    let n = inner.len() as int;
    assert(tail.subrange(n, n + 3) =~= "```"@);
    assert(tail.take(n) =~= inner);
    assert(inner.len() >= 3);
    assert(inner.subrange(n - 3, n)[2] != "```"@[2]);
    assert(without_suffix(inner, "```"@) == inner);
    assert(without_suffix(tail, "```"@) == inner);
    assert(inner =~= nl + (answer + nl));
    text::lemma_trimmed_start_keeps(nl, answer + nl);
    assert(nl.skip(1) =~= seq![]);
    assert(text::trimmed_start(nl) =~= seq![]) by {
        reveal_with_fuel(text::trimmed_start, 2);
    }
    assert(text::trimmed_start(inner) =~= answer + nl);
    text::lemma_trimmed_end_keeps(answer, nl);
    assert(nl.drop_last() =~= seq![]);
    assert(text::trimmed_end(nl) =~= seq![]) by {
        reveal_with_fuel(text::trimmed_end, 2);
    }
    assert(answer + text::trimmed_end(nl) =~= answer);

    assert(text::trimmed(answer) == answer);
    if text::sep_at(answer, "```json"@, 0) {
        assert(answer.subrange(0, 7)[0] == '`');
    }
    if text::sep_at(answer, "```"@, 0) {
        assert(answer.subrange(0, 3)[0] == '`');
    }
    if text::sep_at(answer, "```"@, answer.len() - 3) {
        assert(answer.subrange(answer.len() - 3, answer.len() as int)[2] == '`');
    }
}

/// **Law.** An answer that the snippet does not tell carries no reasoning.
pub proof fn law_insufficient_without_reasoning(
    verdict: Option<Seq<char>>,
    reasoning: Option<Seq<char>>,
)
    ensures
        answer_of(verdict, reasoning) matches AnswerView::Answer { classification, reasoning: r }
            ==> classification == AiClassification::Insufficient ==> r.len() == 0,
{
}

} // verus!
