//! Questions to the AI classifier and its answers.

use yarecs::ai_filter::{
    chat_request, interpret, read_content, read_response, strip_fences, user_message, verdict_of,
    AiAnswer, AiClassification, AiConfig, AiError, DEFAULT_SYSTEM,
};
use yarecs::engine::{MatchContext, ScanMatch};
use yarecs::rules::Severity;

fn config(endpoint: &str, prompt: Option<&str>) -> AiConfig {
    AiConfig {
        endpoint: endpoint.to_string(),
        api_key: "key".to_string(),
        model: "small".to_string(),
        prompt: prompt.map(|p| p.to_string()),
    }
}

fn finding() -> ScanMatch {
    ScanMatch {
        rule_name: "no_gets".to_string(),
        file: "a.c".to_string(),
        line: 1,
        column: 1,
        scope_path: vec![],
        matched_text: "gets".to_string(),
        snippet: "shown".to_string(),
        ai_snippet: "gets(buf);".to_string(),
        message: "unbounded".to_string(),
        severity: Severity::Error,
        context: MatchContext::Code,
        ai_verdict: None,
    }
}

fn response(content: &str) -> Vec<u8> {
    let message = serde_json::Value::String(content.to_string());
    format!("{{\"choices\":[{{\"message\":{{\"content\":{message}}}}}]}}").into_bytes()
}

fn answer(r: Result<AiAnswer, AiError>) -> (AiClassification, String) {
    let a = r.ok().unwrap();
    (a.classification, a.reasoning)
}

#[test]
fn question_states_the_finding() {
    assert_eq!(
        user_message(&finding()),
        "Rule: no_gets\nMessage: unbounded\nSeverity: Error\n\nMatched text: gets\n\nSnippet:\ngets(buf);"
    );
}

#[test]
fn request_goes_to_the_chat_endpoint() {
    let r = chat_request(&config("https://host/v1", None), &finding());
    assert_eq!(r.url, "https://host/v1/chat/completions");
    assert_eq!(r.authorization, "Bearer key");
    assert_eq!(r.model, "small");
    assert_eq!(r.temperature, 0);
    assert_eq!(r.messages.len(), 2);
    assert_eq!((r.messages[0].role.as_str(), r.messages[0].content.as_str()), ("system", DEFAULT_SYSTEM));
    assert_eq!(r.messages[1].role, "user");
    assert_eq!(r.messages[1].content, user_message(&finding()));
}

#[test]
fn trailing_slashes_of_the_endpoint_are_dropped() {
    let r = chat_request(&config("https://host/v1//", None), &finding());
    assert_eq!(r.url, "https://host/v1/chat/completions");
}

#[test]
fn added_instructions_follow_the_builtin_prompt() {
    let r = chat_request(&config("https://host", Some("Be brief.")), &finding());
    assert_eq!(r.messages[0].content, format!("{DEFAULT_SYSTEM}\n\nBe brief."));
}

#[test]
fn fences_around_the_answer_are_stripped() {
    assert_eq!(strip_fences("```json\n{}\n```"), "{}");
    assert_eq!(strip_fences("  ```\n{}```  "), "{}");
    assert_eq!(strip_fences("{}"), "{}");
}

#[test]
fn verdicts_are_read() {
    let body = response("{\"verdict\": \"true_positive\", \"reasoning\": \"real\"}");
    assert_eq!(
        answer(read_response(&body)),
        (AiClassification::TruePositive, "real".to_string())
    );
    let body = response("```json\n{\"verdict\": \"false_positive\"}\n```");
    assert_eq!(
        answer(read_response(&body)),
        (AiClassification::FalsePositive, String::new())
    );
    let body = response("{\"verdict\": \"insufficient_info\", \"reasoning\": \"dropped\"}");
    assert_eq!(
        answer(read_response(&body)),
        (AiClassification::Insufficient, String::new())
    );
}

#[test]
fn reasoning_that_is_no_string_is_empty() {
    assert_eq!(
        answer(read_content("{\"verdict\":\"true_positive\",\"reasoning\":3}")),
        (AiClassification::TruePositive, String::new())
    );
}

#[test]
fn malformed_responses_are_told_apart() {
    let e = read_response(b"not json").err().unwrap();
    assert!(matches!(e, AiError::Response(_)));
    assert_eq!(e.message(), "AI API response was not valid JSON");
    let e = read_response(b"{\"choices\":[]}").err().unwrap();
    assert!(matches!(e, AiError::Shape));
    assert_eq!(e.message(), "unexpected AI response shape");
    let e = read_response(b"{\"choices\":{\"0\":{\"message\":{\"content\":\"x\"}}}}").err().unwrap();
    assert!(matches!(e, AiError::Shape));
    let e = read_response(&response("plainly")).err().unwrap();
    assert!(matches!(e, AiError::Content(_)));
    assert_eq!(e.message(), "AI response was not parseable JSON");
    let e = read_response(&response("{\"verdict\": 1}")).err().unwrap();
    assert!(matches!(e, AiError::NoVerdict));
    assert_eq!(e.message(), "AI JSON missing 'verdict' string");
    let e = read_response(&response("{\"verdict\": \"may\\\"be\"}")).err().unwrap();
    assert!(matches!(e, AiError::UnknownVerdict(_)));
    assert_eq!(e.message(), "AI JSON 'verdict' has unexpected value: \"may\\\"be\"");
}

#[test]
fn given_fields_are_interpreted() {
    assert_eq!(
        answer(interpret(Some("false_positive".to_string()), Some("test code".to_string()))),
        (AiClassification::FalsePositive, "test code".to_string())
    );
    assert!(interpret(None, Some("x".to_string())).is_err());
}

#[test]
fn answers_become_verdicts() {
    let v = verdict_of(AiAnswer {
        classification: AiClassification::FalsePositive,
        reasoning: "r".to_string(),
    })
    .unwrap();
    assert!(v.is_false_positive);
    assert_eq!(v.clone().reasoning, "r");
    let v = verdict_of(AiAnswer {
        classification: AiClassification::TruePositive,
        reasoning: "s".to_string(),
    })
    .unwrap();
    assert!(!v.is_false_positive);
    assert!(verdict_of(AiAnswer {
        classification: AiClassification::Insufficient,
        reasoning: String::new(),
    })
    .is_none());
}

#[test]
fn json_errors_carry_their_cause() {
    let cause = serde_json::from_slice::<serde_json::Value>(b"{oops").err().unwrap();
    match read_response(b"{oops").err().unwrap() {
        AiError::Response(e) => assert_eq!(e.to_string(), cause.to_string()),
        _ => panic!("the response is no JSON"),
    }
    match read_content(" {oops ").err().unwrap() {
        AiError::Content(e) => assert_eq!(e.to_string(), cause.to_string()),
        _ => panic!("the content is no JSON"),
    }
}
