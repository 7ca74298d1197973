//! Laws of the questions put to the classifier and of the reading of its answers.

use crate::ai_filter;
use crate::ai_filter::{AiClassification, AnswerView};
use crate::engine_spec::MatchView;
use crate::report_laws;
use crate::rules::Severity;
use crate::text;
use vstd::prelude::*;

verus! {

// ---------------------------------------------------------------------------
// Request
// ---------------------------------------------------------------------------

/// The text repeats the piece `n` times.
pub open spec fn repeated(p: Seq<char>, n: int) -> Seq<char>
    decreases n,
{
    if n <= 0 {
        seq![]
    } else {
        p + repeated(p, n - 1)
    }
}

/// **Law.** What is left of a text without a prefix does not start with it; what was taken away is the
/// prefix, some number of times.
pub proof fn law_without_prefix(s: Seq<char>, p: Seq<char>) -> (n: int)
    requires
        p.len() > 0,
    ensures
        n >= 0,
        s == repeated(p, n) + ai_filter::without_prefix(s, p),
        !p.is_prefix_of(ai_filter::without_prefix(s, p)),
    decreases s.len(),
{
    if p.len() <= s.len() && s.subrange(0, p.len() as int) == p {
        let rest = s.skip(p.len() as int);
        let n = law_without_prefix(rest, p);
        assert(s =~= p + rest);
        assert(s =~= repeated(p, n + 1) + ai_filter::without_prefix(s, p));
        n + 1
    } else {
        assert(s =~= repeated(p, 0) + s);
        if p.is_prefix_of(s) {
            assert(s.subrange(0, p.len() as int) =~= p);
        }
        0
    }
}

/// **Law.** What is left of a text without a suffix does not end with it; what was taken away is the
/// suffix, some number of times.
pub proof fn law_without_suffix(s: Seq<char>, p: Seq<char>) -> (n: int)
    requires
        p.len() > 0,
    ensures
        n >= 0,
        s == ai_filter::without_suffix(s, p) + repeated(p, n),
        !p.is_suffix_of(ai_filter::without_suffix(s, p)),
    decreases s.len(),
{
    let k = s.len() - p.len();
    if p.len() <= s.len() && s.subrange(k, s.len() as int) == p {
        let rest = s.take(k);
        let n = law_without_suffix(rest, p);
        lemma_repeated_end(p, n);
        assert(s =~= rest + p);
        assert(s =~= ai_filter::without_suffix(s, p) + repeated(p, n + 1));
        n + 1
    } else {
        assert(s =~= s + repeated(p, 0));
        if p.is_suffix_of(s) {
            assert(s.subrange(k, s.len() as int) =~= p);
        }
        0
    }
}

proof fn lemma_repeated_end(p: Seq<char>, n: int)
    requires
        n >= 0,
    ensures
        repeated(p, n + 1) == repeated(p, n) + p,
    decreases n,
{
    reveal_with_fuel(repeated, 2);
    if n == 0 {
        assert(repeated(p, 1) =~= repeated(p, 0) + p);
    } else {
        lemma_repeated_end(p, n - 1);
        assert(repeated(p, n + 1) =~= repeated(p, n) + p);
    }
}

/// **Law.** The address of the chat endpoint is the configured one without the slashes at its end, and
/// then `/chat/completions`.
pub proof fn law_url(endpoint: Seq<char>) -> (n: int)
    ensures
        0 <= n <= endpoint.len(),
        ai_filter::url_of(endpoint) == endpoint.take(n) + "/chat/completions"@,
        forall|i: int| n <= i < endpoint.len() ==> endpoint[i] == '/',
        n > 0 ==> endpoint[n - 1] != '/',
{
    reveal_strlit("/");
    lemma_slashes(endpoint)
}

proof fn lemma_slashes(s: Seq<char>) -> (n: int)
    ensures
        0 <= n <= s.len(),
        ai_filter::without_suffix(s, "/"@) == s.take(n),
        forall|i: int| n <= i < s.len() ==> s[i] == '/',
        n > 0 ==> s[n - 1] != '/',
    decreases s.len(),
{
    reveal_strlit("/");
    let k = s.len() - 1;
    if s.len() > 0 && s.last() == '/' {
        assert(s.subrange(k, s.len() as int) =~= "/"@);
        let n = lemma_slashes(s.take(k));
        assert(s.take(k).take(n) =~= s.take(n));
        assert forall|i: int| n <= i < s.len() implies s[i] == '/' by {
            if i < k {
                assert(s.take(k)[i] == '/');
            }
        }
        n
    } else {
        if s.len() > 0 && s.subrange(k, s.len() as int) == "/"@ {
            assert(s.subrange(k, s.len() as int)[0] == '/');
        }
        assert(s.take(s.len() as int) =~= s);
        s.len() as int
    }
}

/// **Law.** The question about a match begins with its rule, and tells its message, its severity, its text
/// and its snippet.
pub proof fn law_question(m: MatchView)
    ensures
        ("Rule: "@ + m.rule_name + "\nMessage: "@ + m.message).is_prefix_of(
            ai_filter::question_of(m),
        ),
        m.severity == Severity::Error ==> report_laws::holds(
            ai_filter::question_of(m),
            "\nSeverity: "@ + "Error"@,
        ),
        m.severity == Severity::Warning ==> report_laws::holds(
            ai_filter::question_of(m),
            "\nSeverity: "@ + "Warning"@,
        ),
        m.severity == Severity::Info ==> report_laws::holds(
            ai_filter::question_of(m),
            "\nSeverity: "@ + "Info"@,
        ),
        report_laws::holds(ai_filter::question_of(m), "\n\nMatched text: "@ + m.matched_text),
        report_laws::holds(ai_filter::question_of(m), "\n\nSnippet:\n"@ + m.ai_snippet),
{
    let t = ai_filter::question_of(m);
    let a = "Rule: "@ + m.rule_name + "\nMessage: "@ + m.message;
    let severity = "\nSeverity: "@ + ai_filter::severity_name(m.severity);
    let matched = "\n\nMatched text: "@ + m.matched_text;
    let snippet = "\n\nSnippet:\n"@ + m.ai_snippet;
    assert(t =~= a + (severity + (matched + snippet)));
    assert(t.skip(a.len() as int) =~= severity + (matched + snippet));
    assert(severity.is_prefix_of(t.skip(a.len() as int)));
    let b = a.len() + severity.len();
    assert(t.skip(b as int) =~= matched + snippet);
    assert(matched.is_prefix_of(t.skip(b as int)));
    let c = b + matched.len();
    assert(t.skip(c as int) =~= snippet);
    assert(snippet.is_prefix_of(t.skip(c as int)));
    assert(a.is_prefix_of(t));
}

/// **Law.** Additional instructions stand behind the built-in prompt and an empty line; without them there
/// is the built-in prompt alone.
pub proof fn law_system_prompt(extra: Seq<char>)
    ensures
        ai_filter::system_of(None) == ai_filter::DEFAULT_SYSTEM@,
        ai_filter::DEFAULT_SYSTEM@.is_prefix_of(ai_filter::system_of(Some(extra))),
        ai_filter::system_of(Some(extra)).skip(ai_filter::DEFAULT_SYSTEM@.len() as int)
            == "\n\n"@ + extra,
{
    let t = ai_filter::system_of(Some(extra));
    assert(ai_filter::DEFAULT_SYSTEM@.is_prefix_of(t));
    assert(t.skip(ai_filter::DEFAULT_SYSTEM@.len() as int) =~= "\n\n"@ + extra);
}

/// **Law.** The built-in prompt asks for one of the verdicts that are understood, and for a reasoning, by the
/// names under which they are read.
pub proof fn law_prompt_names_verdicts()
    ensures
        report_laws::holds(ai_filter::DEFAULT_SYSTEM@, "{\"verdict\": \"<true_positive|false_positive|insufficient_info>\""@),
        report_laws::holds(ai_filter::DEFAULT_SYSTEM@, "\"reasoning\": \"<"@),
{
    let prompt = ai_filter::DEFAULT_SYSTEM@;
    reveal_strlit("You are a senior security code auditor. \
You will be given a static analysis finding and the surrounding source code. \
Determine whether the finding is a genuine security concern, a false positive, \
or whether there is insufficient information in the snippet to make a determination. \
Respond ONLY with a JSON object \u{2014} no markdown fences, no explanation outside the JSON \u{2014} \
in exactly this format:\n\
{\"verdict\": \"<true_positive|false_positive|insufficient_info>\", \"reasoning\": \"<one sentence or empty string>\"}\n\
Use \"insufficient_info\" when the provided snippet does not contain enough context \
to make a confident determination; leave \"reasoning\" as an empty string in that case.");
    reveal_strlit("{\"verdict\": \"<true_positive|false_positive|insufficient_info>\"");
    reveal_strlit("\"reasoning\": \"<");
    assert("{\"verdict\": \"<true_positive|false_positive|insufficient_info>\""@.is_prefix_of(prompt.skip(393)));
    assert("\"reasoning\": \"<"@.is_prefix_of(prompt.skip(457)));
}

// ---------------------------------------------------------------------------
// Response
// ---------------------------------------------------------------------------

/// The answer is of this class and carries this reasoning, or an empty one for none.
pub open spec fn answers(
    answer: AnswerView,
    class: AiClassification,
    given: Option<Seq<char>>,
) -> bool {
    &&& answer matches AnswerView::Answer { classification, reasoning }
    &&& classification == class
    &&& match given {
        Some(text) => reasoning == text,
        None => reasoning.len() == 0,
    }
}

/// **Law.** The verdicts `true_positive`, `false_positive` and `insufficient_info` are understood, each as
/// what it says, and no others.  The first two carry the reasoning that was given, if any.
pub proof fn law_verdicts(verdict: Seq<char>, reasoning: Option<Seq<char>>)
    ensures
        ai_filter::answer_of(None, reasoning) is NoVerdict,
        verdict == "true_positive"@ ==> answers(
            ai_filter::answer_of(Some(verdict), reasoning),
            AiClassification::TruePositive,
            reasoning,
        ),
        verdict == "false_positive"@ ==> answers(
            ai_filter::answer_of(Some(verdict), reasoning),
            AiClassification::FalsePositive,
            reasoning,
        ),
        verdict == "insufficient_info"@ ==> answers(
            ai_filter::answer_of(Some(verdict), reasoning),
            AiClassification::Insufficient,
            None,
        ),
        verdict != "true_positive"@ && verdict != "false_positive"@ && verdict
            != "insufficient_info"@ ==> (ai_filter::answer_of(
            Some(verdict),
            reasoning,
        ) matches AnswerView::UnknownVerdict { verdict: v } && v == verdict),
{
    reveal_strlit("true_positive");
    reveal_strlit("false_positive");
    reveal_strlit("insufficient_info");
    assert("true_positive"@.len() == 13);
    assert("false_positive"@.len() == 14);
    assert("insufficient_info"@.len() == 17);
}

/// **Law.** The answer stands in the content of the first choice of a response, in the members `verdict`
/// and `reasoning` of the JSON that is left without fences.
pub proof fn law_response(body: Seq<u8>)
    ensures
        !ai_filter::is_json(body) ==> ai_filter::response_answer(body) is BadResponse,
        ai_filter::is_json(body) ==> match ai_filter::json_nested_member(
            body,
            "choices"@,
            0,
            "message"@,
            "content"@,
        ) {
            None => ai_filter::response_answer(body) is BadShape,
            Some(content) => {
                let inner = vstd::utf8::encode_utf8(ai_filter::unfenced(content));
                if ai_filter::is_json(inner) {
                    ai_filter::response_answer(body) == ai_filter::answer_of(
                        ai_filter::json_member(inner, "verdict"@),
                        ai_filter::json_member(inner, "reasoning"@),
                    )
                } else {
                    ai_filter::response_answer(body) is BadContent
                }
            },
        },
{
}

/// **Law.** White space around an answer, fenced or not, makes no difference.
pub proof fn law_padding_ignored(content: Seq<char>, c: char)
    requires
        text::is_white(c),
    ensures
        ai_filter::unfenced(seq![c] + content) == ai_filter::unfenced(content),
        ai_filter::unfenced(content + seq![c]) == ai_filter::unfenced(content),
{
    let front = seq![c] + content;
    assert(front[0] == c);
    assert(front.skip(1) =~= content);
    lemma_trimmed_behind(content, c);
}

proof fn lemma_trimmed_behind(s: Seq<char>, c: char)
    requires
        text::is_white(c),
    ensures
        text::trimmed(s + seq![c]) == text::trimmed(s),
    decreases s.len(),
{
    let all = s + seq![c];
    reveal_with_fuel(text::trimmed_start, 2);
    reveal_with_fuel(text::trimmed_end, 2);
    if s.len() == 0 {
        assert(all.skip(1) =~= seq![]);
        assert(s =~= seq![]);
    } else if text::is_white(s[0]) {
        lemma_trimmed_behind(s.skip(1), c);
        assert(all[0] == s[0]);
        assert(all.skip(1) =~= s.skip(1) + seq![c]);
    } else {
        assert(all[0] == s[0]);
        assert(all.last() == c);
        assert(all.drop_last() =~= s);
    }
}

/// **Law.** An answer in a fence without a language is read like the bare answer too.
pub proof fn law_plain_fence_stripped(answer: Seq<char>)
    requires
        answer.len() > 0,
        !text::is_white(answer.first()),
        !text::is_white(answer.last()),
        answer.first() != '`',
        answer.last() != '`',
    ensures
        ai_filter::unfenced("```\n"@ + answer + "\n```"@) == answer,
{
    reveal_strlit("```\n");
    reveal_strlit("```json");
    reveal_strlit("\n```");
    reveal_strlit("```");
    let content = "```\n"@ + answer + "\n```"@;
    let nl = seq!['\n'];
    let inner = nl + answer + nl;
    let tail = inner + "```"@;
    assert(content =~= "```"@ + tail);
    assert(content[0] == '`' && content.last() == '`');
    assert(text::trimmed(content) == content);
    if text::sep_at(content, "```json"@, 0) {
        assert(content.subrange(0, 7)[3] == '\n');
        assert("```json"@[3] == 'j');
    }
    assert(ai_filter::without_prefix(content, "```json"@) == content);
    assert(content.subrange(0, 3) =~= "```"@);
    assert(content.skip(3) =~= tail);
    assert(tail[0] == '\n');
    assert(tail.subrange(0, 3)[0] != "```"@[0]);
    assert(ai_filter::without_prefix(tail, "```"@) == tail);
    assert(ai_filter::without_prefix(content, "```"@) == tail);
    let n = inner.len() as int;
    assert(tail.subrange(n, n + 3) =~= "```"@);
    assert(tail.take(n) =~= inner);
    assert(inner.len() >= 3);
    assert(inner.subrange(n - 3, n)[2] != "```"@[2]);
    assert(ai_filter::without_suffix(inner, "```"@) == inner);
    assert(ai_filter::without_suffix(tail, "```"@) == inner);
    assert(inner =~= nl + (answer + nl));
    text::lemma_trimmed_start_keeps(nl, answer + nl);
    assert(nl.skip(1) =~= seq![]);
    assert(text::trimmed_start(nl) =~= seq![]) by {
        reveal_with_fuel(text::trimmed_start, 2);
    }
    assert(text::trimmed_start(inner) =~= answer + nl);
    text::lemma_trimmed_end_keeps(answer, nl);
    assert(nl.drop_last() =~= seq![]);
    assert(text::trimmed_end(nl) =~= seq![]) by {
        reveal_with_fuel(text::trimmed_end, 2);
    }
    assert(answer + text::trimmed_end(nl) =~= answer);
}

} // verus!
