use kiln::chat::{
    chat_reply, http_post_json, http_reply, read_reply, OpenAiEnv, OpenAiWorker,
};
use kiln::interface::ModelBinding;
use kiln::json::{parse, render, Json};
use kiln::sorted::StrMap;

fn binding() -> ModelBinding {
    ModelBinding {
        model: "coder".into(),
        quantization: "q4".into(),
        params: StrMap::new(),
        ..Default::default()
    }
}

fn worker(url: &str, model: &str) -> OpenAiWorker {
    OpenAiWorker::for_endpoint(url.into(), model.into(), None, None, None)
}

#[test]
fn openai_worker_round_trips_against_a_mock_server() {
    let w = worker("http://127.0.0.1:8123", "test-model");
    let request = w.request(&binding(), "write add()", None, None).unwrap();
    assert_eq!(request.host, "127.0.0.1");
    assert_eq!(request.port, 8123);
    let body = "{\"chat_template_kwargs\":{\"enable_thinking\":false},\"max_tokens\":2048,\
                \"messages\":[{\"content\":\"write add()\",\"role\":\"user\"}],\
                \"model\":\"test-model\",\"stream\":false}";
    assert_eq!(
        request.text,
        format!(
            "POST /v1/chat/completions HTTP/1.1\r\nHost: 127.0.0.1:8123\r\n\
             Content-Type: application/json\r\nContent-Length: {}\r\n\
             Connection: close\r\n\r\n{body}",
            body.len()
        )
    );
    let response = "HTTP/1.1 200 OK\r\nContent-Type: application/json\r\n\r\n\
                    {\"choices\":[{\"message\":{\"role\":\"assistant\",\
                    \"content\":\"fn add(a:i32,b:i32)->i32{a+b}\"}}]}";
    let out = read_reply(response.as_bytes(), &request.host, request.port).unwrap();
    assert_eq!(out, "fn add(a:i32,b:i32)->i32{a+b}");
}

#[test]
fn rejects_non_http_scheme() {
    assert!(http_post_json("https://example.com/v1", "{}", None).is_err());
    assert_eq!(
        http_post_json("https://example.com/v1", "{}", None),
        Err("only http:// urls supported, got: https://example.com/v1".to_string())
    );
}

#[test]
fn a_request_names_its_host_path_key_and_length() {
    let r = http_post_json("http://h", "é", Some("k")).unwrap();
    assert_eq!((r.host.as_str(), r.port), ("h", 80));
    assert_eq!(
        r.text,
        "POST / HTTP/1.1\r\nHost: h\r\nContent-Type: application/json\r\n\
         Authorization: Bearer k\r\nContent-Length: 2\r\nConnection: close\r\n\r\né"
    );
    let r = http_post_json("http://a:b:99/x/y", "", None).unwrap();
    assert_eq!((r.host.as_str(), r.port), ("a:b", 99));
    assert!(r.text.starts_with("POST /x/y HTTP/1.1\r\nHost: a:b:99\r\n"));
    assert_eq!(
        http_post_json("http://h:99999/x", "", None),
        Err("bad port in h:99999".to_string())
    );
}

#[test]
fn parameters_of_the_binding_reach_the_request() {
    let mut w = worker("http://h///", "");
    assert_eq!(w.url(), "http://h/v1/chat/completions");
    w.disable_thinking = false;
    let mut b = binding();
    b.params.insert("top_k".into(), "7".into());
    b.params.insert("max_tokens".into(), "99".into());
    let number = |x: f64| Json::Number(serde_json::Number::from_f64(x).unwrap());
    let req = w.chat_request(&b, "p", Some(number(0.5)), Some(number(0.9)));
    assert_eq!(
        render(&req),
        "{\"max_tokens\":99,\"messages\":[{\"content\":\"p\",\"role\":\"user\"}],\
         \"model\":\"coder\",\"stream\":false,\"temperature\":0.5,\"top_k\":7,\"top_p\":0.9}"
    );
    // A parameter that is no number is left out.
    b.params.insert("top_k".into(), "many".into());
    b.params.insert("max_tokens".into(), "1e3".into());
    let req = w.chat_request(&b, "p", None, None);
    assert!(req.get("top_k").is_none());
    assert_eq!(req.get("max_tokens"), Some(&Json::integer(2048)));
}

fn env(base_url: Option<&str>) -> OpenAiEnv {
    OpenAiEnv {
        base_url: base_url.map(String::from),
        model: None,
        api_key: None,
        thinking: None,
        max_tokens: None,
    }
}

#[test]
fn the_environment_sets_the_worker_up() {
    assert_eq!(OpenAiWorker::from_env(env(None)), None);
    let w = OpenAiWorker::from_env(env(Some("http://h"))).unwrap();
    assert_eq!(w.base_url, "http://h");
    assert_eq!(w.model, "");
    assert_eq!(w.api_key, None);
    assert!(w.disable_thinking);
    assert_eq!(w.max_tokens, 2048);
    let w = OpenAiWorker::from_env(OpenAiEnv {
        base_url: Some("http://h".into()),
        model: Some("m".into()),
        api_key: Some("k".into()),
        thinking: Some("on".into()),
        max_tokens: Some("-5".into()),
    })
    .unwrap();
    assert_eq!((w.model.as_str(), w.api_key.as_deref()), ("m", Some("k")));
    assert!(!w.disable_thinking);
    assert_eq!(w.max_tokens, -5);
    let w = OpenAiWorker::for_endpoint(
        "u".into(),
        "m".into(),
        None,
        Some("off".into()),
        Some("99999999999999999999".into()),
    );
    assert!(w.disable_thinking);
    assert_eq!(w.max_tokens, 2048);
}

#[test]
fn a_response_is_its_body_or_its_status_line() {
    assert_eq!(
        http_reply("HTTP/1.1 200 OK\r\nA: b\r\n\r\nbody\r\n\r\nmore", "h", 1),
        Ok("body\r\n\r\nmore".to_string())
    );
    assert_eq!(http_reply("HTTP/1.1 200 OK\r\n", "h", 1), Ok(String::new()));
    assert_eq!(
        http_reply("HTTP/1.1 500 No\r\n\r\nx", "h", 81),
        Err("non-200 from h:81: HTTP/1.1 500 No".to_string())
    );
    assert_eq!(http_reply("", "h", 1), Err("non-200 from h:1: ".to_string()));
}

#[test]
fn an_answer_is_content_then_reasoning_then_an_error() {
    let pick = |t: &str| chat_reply(&parse(t).unwrap(), "B");
    assert_eq!(
        pick("{\"choices\":[{\"message\":{\"content\":\"c\",\"reasoning\":\"r\"}}]}"),
        Ok("c".to_string())
    );
    assert_eq!(
        pick("{\"choices\":[{\"message\":{\"content\":\"\",\"reasoning\":\"r\"}}]}"),
        Ok("r".to_string())
    );
    assert_eq!(
        pick("{\"choices\":[{\"message\":{\"content\":null},\"finish_reason\":\"length\"}]}"),
        Err("empty content (finish_reason=length); response: B".to_string())
    );
    assert_eq!(pick("[]"), Err("empty content (finish_reason=?); response: B".to_string()));
    assert_eq!(
        read_reply(b"HTTP/1.1 200 OK\r\n\r\n{", "h", 1),
        Err("parse response: EOF while parsing an object at line 1 column 1: {".to_string())
    );
    assert_eq!(
        read_reply(b"HTTP/1.1 404 Gone\r\n\r\n{}", "h", 1),
        Err("non-200 from h:1: HTTP/1.1 404 Gone".to_string())
    );
}
