//! The worker that talks to a chat-completions endpoint: the request it sends,
//! as JSON and as HTTP, and what it makes of the response.
use vstd::prelude::*;

use crate::interface::ModelBinding;
use crate::json::{
    integer_number, json_result, json_text, law_a_member_is_found_by_its_name,
    lemma_member_of_both, member_views, opt_json, parse, render, Json, JsonView,
};
use crate::serving::{
    first_line, first_line_of, law_the_first_line_ends_at_the_line_feed,
};
use crate::text::{
    chars_of, contains, cut, cut_last, decimal, decimal_text, find, find_from, i64_value,
    int_text, is_digit, law_a_prefix_is_taken_off, law_a_text_is_cut_at_the_first,
    law_a_text_is_cut_at_the_last, law_integers_are_read_back, law_suffixes_are_taken_off,
    lemma_decimal_digits, lemma_decimal_round_trip, lemma_find, lossy, lossy_text, occurs_at,
    opt_text, parse_integer, parse_unsigned, rsplit_once, same, split_once, strip_prefix,
    stripped, text_of, trim_end_matches, unsigned_value, without_suffixes,
};

verus! {

// ---------------------------------------------------------------- the worker

/// A worker that talks to a server with a `/v1/chat/completions` endpoint.
#[derive(Clone, Debug, PartialEq, Eq)]
pub struct OpenAiWorker {
    /// The root of the server, without `/v1`.
    pub base_url: String,
    /// The model to request; the binding's model where this is empty.
    pub model: String,
    pub api_key: Option<String>,
    /// Suppresses the reasoning phase, so that the answer lands in the content.
    pub disable_thinking: bool,
    /// The ceiling on tokens where the binding declares none.
    pub max_tokens: i64,
}

/// The settings of the worker as the environment gives them.
#[derive(Clone, Debug, PartialEq, Eq)]
pub struct OpenAiEnv {
    pub base_url: Option<String>,
    pub model: Option<String>,
    pub api_key: Option<String>,
    pub thinking: Option<String>,
    pub max_tokens: Option<String>,
}

/// The ceiling on tokens where none is set, or none that is a number.
pub const DEFAULT_MAX_TOKENS: i64 = 2048;

/// The ceiling on tokens that a setting stands for.
pub open spec fn ceiling(setting: Option<Seq<char>>) -> i64 {
    match setting {
        Some(s) => match i64_value(s) {
            Some(n) => n,
            None => DEFAULT_MAX_TOKENS,
        },
        None => DEFAULT_MAX_TOKENS,
    }
}

fn ceiling_of(setting: &Option<String>) -> (r: i64)
    ensures
        r == ceiling(opt_text(*setting)),
{
    match setting {
        Some(s) => match parse_integer(s.as_str()) {
            Some(n) => n,
            None => DEFAULT_MAX_TOKENS,
        },
        None => DEFAULT_MAX_TOKENS,
    }
}

fn thinking_off(setting: &Option<String>) -> (r: bool)
    ensures
        r == (opt_text(*setting) != Some("on"@)),
{
    match setting {
        Some(s) => !same(s.as_str(), "on"),
        None => true,
    }
}

impl OpenAiWorker {
    /// The worker that the environment asks for; none where no base URL is set.
    pub fn from_env(env: OpenAiEnv) -> (r: Option<Self>)
        ensures
            match r {
                Some(w) => {
                    &&& env.base_url == Some(w.base_url)
                    &&& w.model@ == match env.model {
                        Some(m) => m@,
                        None => Seq::empty(),
                    }
                    &&& w.api_key == env.api_key
                    &&& w.disable_thinking == (opt_text(env.thinking) != Some("on"@))
                    &&& w.max_tokens == ceiling(opt_text(env.max_tokens))
                },
                None => env.base_url is None,
            },
    {
        let disable_thinking: bool = thinking_off(&env.thinking);
        let max_tokens: i64 = ceiling_of(&env.max_tokens);
        match env.base_url {
            Some(base_url) => Some(
                OpenAiWorker {
                    base_url,
                    model: match env.model {
                        Some(m) => m,
                        None => String::new(),
                    },
                    api_key: env.api_key,
                    disable_thinking,
                    max_tokens,
                },
            ),
            None => None,
        }
    }

    /// The worker for a given endpoint, with the two tunable settings.
    pub fn for_endpoint(
        base_url: String,
        model: String,
        api_key: Option<String>,
        thinking: Option<String>,
        max_tokens: Option<String>,
    ) -> (r: Self)
        ensures
            r.base_url == base_url,
            r.model == model,
            r.api_key == api_key,
            r.disable_thinking == (opt_text(thinking) != Some("on"@)),
            r.max_tokens == ceiling(opt_text(max_tokens)),
    {
        OpenAiWorker {
            base_url,
            model,
            api_key,
            disable_thinking: thinking_off(&thinking),
            max_tokens: ceiling_of(&max_tokens),
        }
    }
}

// --------------------------------------------------------------- the request

/// A member that is there only with a value.
pub open spec fn opt_member(name: Seq<char>, v: Option<JsonView>) -> Seq<(Seq<char>, JsonView)> {
    match v {
        Some(v) => seq![(name, v)],
        None => Seq::empty(),
    }
}

/// The 64-bit integer that an invocation parameter declares.
pub open spec fn integer_param(binding: ModelBinding, name: Seq<char>) -> Option<i64> {
    if binding.params@.contains_key(name) {
        i64_value(binding.params@[name]@)
    } else {
        None
    }
}

fn integer_param_of(binding: &ModelBinding, name: &str) -> (r: Option<i64>)
    ensures
        r == integer_param(*binding, name@),
{
    match binding.params.get(name) {
        Some(v) => parse_integer(v.as_str()),
        None => None,
    }
}

/// The one message of a request.
pub open spec fn user_message(prompt: Seq<char>) -> JsonView {
    JsonView::Object(
        seq![("content"@, JsonView::Text(prompt)), ("role"@, JsonView::Text("user"@))],
    )
}

impl OpenAiWorker {
    /// The model to request.
    pub open spec fn model_for(&self, binding: ModelBinding) -> Seq<char> {
        if self.model@.len() == 0 {
            binding.model@
        } else {
            self.model@
        }
    }

    /// The ceiling on tokens for a binding.
    pub open spec fn tokens_for(&self, binding: ModelBinding) -> i64 {
        match integer_param(binding, "max_tokens"@) {
            Some(n) => n,
            None => self.max_tokens,
        }
    }

    /// The members of a request, in the order of their names.
    pub open spec fn request_members(
        &self,
        binding: ModelBinding,
        prompt: Seq<char>,
        temperature: Option<JsonView>,
        top_p: Option<JsonView>,
    ) -> Seq<(Seq<char>, JsonView)> {
        opt_member(
            "chat_template_kwargs"@,
            if self.disable_thinking {
                Some(JsonView::Object(seq![("enable_thinking"@, JsonView::Bool(false))]))
            } else {
                None
            },
        ) + seq![
            ("max_tokens"@, JsonView::Number(integer_number(self.tokens_for(binding)))),
            ("messages"@, JsonView::Array(seq![user_message(prompt)])),
            ("model"@, JsonView::Text(self.model_for(binding))),
            ("stream"@, JsonView::Bool(false)),
        ] + opt_member("temperature"@, temperature) + opt_member(
            "top_k"@,
            match integer_param(binding, "top_k"@) {
                Some(k) => Some(JsonView::Number(integer_number(k))),
                None => None,
            },
        ) + opt_member("top_p"@, top_p)
    }

    /// The request for a prompt. `temperature` and `top_p` are the documents of
    /// those two invocation parameters, where the binding declares them as numbers.
    pub fn chat_request(
        &self,
        binding: &ModelBinding,
        prompt: &str,
        temperature: Option<Json>,
        top_p: Option<Json>,
    ) -> (r: Json)
        ensures
            r@ == JsonView::Object(
                self.request_members(*binding, prompt@, opt_json(temperature), opt_json(top_p)),
            ),
    {
        let mut members: Vec<(String, Json)> = Vec::new();
        if self.disable_thinking {
            let mut inner: Vec<(String, Json)> = Vec::new();
            inner.push(("enable_thinking".to_owned(), Json::truth(false)));
            assert(member_views(inner@) =~= seq![("enable_thinking"@, JsonView::Bool(false))]);
            members.push(("chat_template_kwargs".to_owned(), Json::object(inner)));
        }
        let tokens: i64 = match integer_param_of(binding, "max_tokens") {
            Some(n) => n,
            None => self.max_tokens,
        };
        members.push(("max_tokens".to_owned(), Json::integer(tokens)));
        let mut message: Vec<(String, Json)> = Vec::new();
        message.push(("content".to_owned(), Json::text(prompt)));
        message.push(("role".to_owned(), Json::text("user")));
        assert(member_views(message@) =~= user_message(prompt@)->Object_0);
        members.push(("messages".to_owned(), Json::array_of(Json::object(message))));
        let own: bool = !self.model.as_str().is_empty();
        let model: &str = if own {
            self.model.as_str()
        } else {
            binding.model.as_str()
        };
        members.push(("model".to_owned(), Json::text(model)));
        members.push(("stream".to_owned(), Json::truth(false)));
        if let Some(t) = temperature {
            members.push(("temperature".to_owned(), t));
        }
        if let Some(k) = integer_param_of(binding, "top_k") {
            members.push(("top_k".to_owned(), Json::integer(k)));
        }
        if let Some(p) = top_p {
            members.push(("top_p".to_owned(), p));
        }
        assert(member_views(members@) =~= self.request_members(
            *binding,
            prompt@,
            opt_json(temperature),
            opt_json(top_p),
        ));
        Json::object(members)
    }

    /// The URL that requests go to.
    pub open spec fn endpoint(&self) -> Seq<char> {
        without_suffixes(self.base_url@, "/"@) + "/v1/chat/completions"@
    }

    /// The URL that requests go to.
    pub fn url(&self) -> (r: String)
        ensures
            r@ == self.endpoint(),
    {
        let mut r: String = trim_end_matches(self.base_url.as_str(), "/");
        r.append("/v1/chat/completions");
        r
    }

    /// The HTTP request for a prompt, or why none can be sent.
    pub fn request(
        &self,
        binding: &ModelBinding,
        prompt: &str,
        temperature: Option<Json>,
        top_p: Option<Json>,
    ) -> (r: Result<HttpRequest, String>)
        ensures
            http_outcome(r) == http_post(
                self.endpoint(),
                json_text(
                    JsonView::Object(
                        self.request_members(
                            *binding,
                            prompt@,
                            opt_json(temperature),
                            opt_json(top_p),
                        ),
                    ),
                ),
                opt_text(self.api_key),
            ),
    {
        let body: String = render(&self.chat_request(binding, prompt, temperature, top_p));
        let url: String = self.url();
        match &self.api_key {
            Some(key) => http_post_json(url.as_str(), body.as_str(), Some(key.as_str())),
            None => http_post_json(url.as_str(), body.as_str(), None),
        }
    }
}

// ---------------------------------------------------------------------- HTTP

/// A request to send: where to, and its text.
#[derive(Clone, Debug, PartialEq, Eq)]
pub struct HttpRequest {
    pub host: String,
    pub port: u16,
    pub text: String,
}

/// The authority and the path of what follows `http://`.
pub open spec fn authority_and_path(rest: Seq<char>) -> (Seq<char>, Seq<char>) {
    match cut(rest, '/') {
        Some(parts) => (parts.0, "/"@ + parts.1),
        None => (rest, "/"@),
    }
}

/// The host and the port of an authority; no port where what follows the last
/// colon is not one.
pub open spec fn host_and_port(authority: Seq<char>) -> (Seq<char>, Option<u64>) {
    match cut_last(authority, ':') {
        Some(parts) => (parts.0, unsigned_value(parts.1, 65535)),
        None => (authority, Some(80)),
    }
}

/// The text of a POST request with a JSON body.
pub open spec fn post_text(
    path: Seq<char>,
    authority: Seq<char>,
    body: Seq<char>,
    api_key: Option<Seq<char>>,
) -> Seq<char> {
    "POST "@ + path + " HTTP/1.1\r\nHost: "@ + authority
        + "\r\nContent-Type: application/json\r\n"@ + match api_key {
        Some(key) => "Authorization: Bearer "@ + key + "\r\n"@,
        None => Seq::empty(),
    } + "Content-Length: "@ + decimal(vstd::utf8::encode_utf8(body).len())
        + "\r\nConnection: close\r\n\r\n"@ + body
}

/// What posting a body to a URL takes: the host, the port and the text to send,
/// or why it cannot be done.
pub open spec fn http_post(
    url: Seq<char>,
    body: Seq<char>,
    api_key: Option<Seq<char>>,
) -> Result<(Seq<char>, u16, Seq<char>), Seq<char>> {
    match stripped(url, "http://"@) {
        None => Err("only http:// urls supported, got: "@ + url),
        Some(rest) => {
            let (authority, path) = authority_and_path(rest);
            match host_and_port(authority).1 {
                None => Err("bad port in "@ + authority),
                Some(port) => Ok(
                    (
                        host_and_port(authority).0,
                        port as u16,
                        post_text(path, authority, body, api_key),
                    ),
                ),
            }
        },
    }
}

/// The view of what building a request gave.
pub open spec fn http_outcome(r: Result<HttpRequest, String>) -> Result<
    (Seq<char>, u16, Seq<char>),
    Seq<char>,
> {
    match r {
        Ok(q) => Ok((q.host@, q.port, q.text@)),
        Err(e) => Err(e@),
    }
}

/// Builds a minimal HTTP/1.1 POST of a JSON body. Only plain `http://` is
/// supported; the connection is closed after the response.
pub fn http_post_json(url: &str, json_body: &str, api_key: Option<&str>) -> (r: Result<
    HttpRequest,
    String,
>)
    ensures
        http_outcome(r) == http_post(
            url@,
            json_body@,
            match api_key {
                Some(key) => Some(key@),
                None => None,
            },
        ),
{
    let rest: String = match strip_prefix(url, "http://") {
        Some(rest) => rest,
        None => {
            let mut e: String = "only http:// urls supported, got: ".to_owned();
            e.append(url);
            return Err(e);
        },
    };
    let (authority, path): (String, String) = match split_once(rest.as_str(), '/') {
        Some(parts) => {
            let mut path: String = "/".to_owned();
            path.append(parts.1.as_str());
            (parts.0, path)
        },
        None => (rest, "/".to_owned()),
    };
    let (host, port): (String, u16) = match rsplit_once(authority.as_str(), ':') {
        Some(parts) => match parse_unsigned(parts.1.as_str(), 65535) {
            Some(port) => (parts.0, port as u16),
            None => {
                let mut e: String = "bad port in ".to_owned();
                e.append(authority.as_str());
                return Err(e);
            },
        },
        None => (authority.clone(), 80),
    };
    let mut text: String = "POST ".to_owned();
    text.append(path.as_str());
    text.append(" HTTP/1.1\r\nHost: ");
    text.append(authority.as_str());
    text.append("\r\nContent-Type: application/json\r\n");
    let mut auth: String = String::new();
    if let Some(key) = api_key {
        auth.append("Authorization: Bearer ");
        auth.append(key);
        auth.append("\r\n");
        assert(auth@ =~= "Authorization: Bearer "@ + key@ + "\r\n"@);
    }
    text.append(auth.as_str());
    text.append("Content-Length: ");
    let length: usize = json_body.as_bytes().len();
    text.append(decimal_text(length as u64).as_str());
    text.append("\r\nConnection: close\r\n\r\n");
    text.append(json_body);
    Ok(HttpRequest { host, port, text })
}

/// What follows the first blank line of a response.
pub open spec fn body_of(response: Seq<char>) -> Seq<char> {
    match find(response, "\r\n\r\n"@, 0) {
        Some(i) => response.skip(i + 4),
        None => Seq::empty(),
    }
}

/// What a response comes to: its body if the status is 200, else its status line.
pub open spec fn http_result(
    response: Seq<char>,
    host: Seq<char>,
    port: u16,
) -> Result<Seq<char>, Seq<char>> {
    if find(first_line(response), " 200"@, 0) is Some {
        Ok(body_of(response))
    } else {
        Err(
            "non-200 from "@ + host + ":"@ + decimal(port as nat) + ": "@ + first_line(response),
        )
    }
}

/// The view of a text or an error.
pub open spec fn text_outcome(r: Result<String, String>) -> Result<Seq<char>, Seq<char>> {
    match r {
        Ok(s) => Ok(s@),
        Err(e) => Err(e@),
    }
}

/// The body of a response that was answered with 200.
pub fn http_reply(response: &str, host: &str, port: u16) -> (r: Result<String, String>)
    ensures
        text_outcome(r) == http_result(response@, host@, port),
{
    let line: String = first_line_of(response);
    if contains(line.as_str(), " 200") {
        let v: Vec<char> = chars_of(response);
        let pat: Vec<char> = chars_of("\r\n\r\n");
        proof {
            reveal_strlit("\r\n\r\n");
            crate::text::lemma_find(response@, "\r\n\r\n"@, 0);
        }
        match find_from(&v, &pat, 0) {
            Some(i) => {
                let len: usize = v.len();
                assert(response@.skip(i + 4) =~= v@.subrange(i + 4, len as int));
                Ok(text_of(&v, i + 4, len))
            },
            None => Ok(String::new()),
        }
    } else {
        let mut e: String = "non-200 from ".to_owned();
        e.append(host);
        e.append(":");
        e.append(decimal_text(port as u64).as_str());
        e.append(": ");
        e.append(line.as_str());
        Err(e)
    }
}

// -------------------------------------------------------------- the response

/// The text of a string that is not empty.
pub open spec fn filled_text(v: JsonView) -> Option<Seq<char>> {
    match v {
        JsonView::Text(s) => if s.len() > 0 {
            Some(s)
        } else {
            None
        },
        _ => None,
    }
}

/// The answer in a response: the content of its first message, or its reasoning
/// where the content is empty; an error that says why the model stopped where
/// both are.
pub open spec fn chat_answer(response: JsonView, body: Seq<char>) -> Result<Seq<char>, Seq<char>> {
    let choice = response.under("choices"@).nth(0);
    let message = choice.under("message"@);
    match filled_text(message.under("content"@)) {
        Some(s) => Ok(s),
        None => match filled_text(message.under("reasoning"@)) {
            Some(s) => Ok(s),
            None => Err(
                "empty content (finish_reason="@ + match choice.under("finish_reason"@).text() {
                    Some(s) => s,
                    None => "?"@,
                } + "); response: "@ + body,
            ),
        },
    }
}

fn filled_member(v: Option<&Json>, key: &str) -> (r: Option<String>)
    ensures
        opt_text(r) == filled_text(
            match v {
                Some(j) => j@.under(key@),
                None => JsonView::Null,
            },
        ),
{
    match v {
        Some(j) => match j.get(key) {
            Some(m) => match m.as_str() {
                Some(s) => if s.is_empty() {
                    None
                } else {
                    Some(s.to_owned())
                },
                None => None,
            },
            None => None,
        },
        None => None,
    }
}

/// Picks the answer out of a parsed response. `body` is the text it was parsed
/// from, for the error.
pub fn chat_reply(response: &Json, body: &str) -> (r: Result<String, String>)
    ensures
        text_outcome(r) == chat_answer(response@, body@),
{
    let choice: Option<&Json> = match response.get("choices") {
        Some(choices) => choices.at(0),
        None => None,
    };
    assert(response@.under("choices"@).nth(0) == match choice {
        Some(c) => c@,
        None => JsonView::Null,
    });
    let message: Option<&Json> = match choice {
        Some(c) => c.get("message"),
        None => None,
    };
    assert(response@.under("choices"@).nth(0).under("message"@) == match message {
        Some(m) => m@,
        None => JsonView::Null,
    });
    if let Some(s) = filled_member(message, "content") {
        return Ok(s);
    }
    if let Some(s) = filled_member(message, "reasoning") {
        return Ok(s);
    }
    let mut e: String = "empty content (finish_reason=".to_owned();
    let finish: Option<&Json> = match choice {
        Some(c) => c.get("finish_reason"),
        None => None,
    };
    match finish {
        Some(f) => match f.as_str() {
            Some(s) => e.append(s),
            None => e.append("?"),
        },
        None => e.append("?"),
    }
    e.append("); response: ");
    e.append(body);
    Err(e)
}

/// What a worker makes of the body of a response.
pub open spec fn answer_in(body: Seq<char>) -> Result<Seq<char>, Seq<char>> {
    match json_result(body) {
        Ok(response) => chat_answer(response, body),
        Err(message) => Err("parse response: "@ + message + ": "@ + body),
    }
}

/// What a worker makes of the bytes it was answered with.
pub fn read_reply(raw: &[u8], host: &str, port: u16) -> (r: Result<String, String>)
    ensures
        text_outcome(r) == match http_result(lossy_text(raw@), host@, port) {
            Ok(body) => answer_in(body),
            Err(e) => Err(e),
        },
{
    match http_reply(lossy(raw).as_str(), host, port) {
        Ok(body) => match parse(body.as_str()) {
            Ok(response) => chat_reply(&response, body.as_str()),
            Err(message) => {
                let mut e: String = "parse response: ".to_owned();
                e.append(message.as_str());
                e.append(": ");
                e.append(body.as_str());
                Err(e)
            },
        },
        Err(e) => Err(e),
    }
}

// ---------------------------------------------------------------------- laws

/// The ceiling on tokens is the number that is set, and 2048 where none is, or none
/// that is a number.
pub proof fn law_the_ceiling_is_what_is_set(n: i64, s: Seq<char>)
    ensures
        ceiling(Some(int_text(n as int))) == n,
        ceiling(None) == 2048,
        i64_value(s) is None ==> ceiling(Some(s)) == 2048,
{
    law_integers_are_read_back(n as int, s, 0);
}

proof fn lemma_one_member(key: Seq<char>, v: JsonView, other: Seq<char>)
    ensures
        JsonView::Object(seq![(key, v)]).member(other) == if other == key {
            Some(v)
        } else {
            None
        },
{
    let none = Seq::<(Seq<char>, JsonView)>::empty();
    law_a_member_is_found_by_its_name(none, key, v, other);
    law_a_member_is_found_by_its_name(none, other, v, other);
    assert(none.push((key, v)) =~= seq![(key, v)]);
}

proof fn lemma_opt_member(key: Seq<char>, v: Option<JsonView>, other: Seq<char>)
    ensures
        JsonView::Object(opt_member(key, v)).member(other) == if other == key {
            v
        } else {
            None
        },
{
    let none = Seq::<(Seq<char>, JsonView)>::empty();
    match v {
        Some(v) => lemma_one_member(key, v, other),
        None => law_a_member_is_found_by_its_name(none, other, JsonView::Null, other),
    }
}

proof fn lemma_request_names()
    ensures
        "chat_template_kwargs"@.len() == 20,
        "max_tokens"@.len() == 10,
        "messages"@.len() == 8,
        "model"@.len() == 5,
        "stream"@.len() == 6,
        "temperature"@.len() == 11,
        "top_k"@.len() == 5,
        "top_p"@.len() == 5,
        "model"@[0] == 'm',
        "top_k"@[0] == 't',
        "top_p"@[0] == 't',
        "top_k"@[4] == 'k',
        "top_p"@[4] == 'p',
{
    reveal_strlit("chat_template_kwargs");
    reveal_strlit("max_tokens");
    reveal_strlit("messages");
    reveal_strlit("model");
    reveal_strlit("stream");
    reveal_strlit("temperature");
    reveal_strlit("top_k");
    reveal_strlit("top_p");
}

proof fn lemma_four_members(
    a: (Seq<char>, JsonView),
    b: (Seq<char>, JsonView),
    c: (Seq<char>, JsonView),
    d: (Seq<char>, JsonView),
    key: Seq<char>,
)
    requires
        a.0 != b.0 && a.0 != c.0 && a.0 != d.0 && b.0 != c.0 && b.0 != d.0 && c.0 != d.0,
    ensures
        JsonView::Object(seq![a, b, c, d]).member(key) == if key == a.0 {
            Some(a.1)
        } else if key == b.0 {
            Some(b.1)
        } else if key == c.0 {
            Some(c.1)
        } else if key == d.0 {
            Some(d.1)
        } else {
            None
        },
{
    lemma_one_member(a.0, a.1, key);
    lemma_one_member(b.0, b.1, key);
    lemma_one_member(c.0, c.1, key);
    lemma_one_member(d.0, d.1, key);
    lemma_member_of_both(seq![a], seq![b], key);
    lemma_member_of_both(seq![a] + seq![b], seq![c], key);
    lemma_member_of_both(seq![a] + seq![b] + seq![c], seq![d], key);
    assert(seq![a, b, c, d] =~= seq![a] + seq![b] + seq![c] + seq![d]);
}

proof fn lemma_request_member(
    w: OpenAiWorker,
    binding: ModelBinding,
    prompt: Seq<char>,
    temperature: Option<JsonView>,
    top_p: Option<JsonView>,
    key: Seq<char>,
)
    ensures
        JsonView::Object(w.request_members(binding, prompt, temperature, top_p)).member(key)
            == if key == "chat_template_kwargs"@ {
            if w.disable_thinking {
                Some(JsonView::Object(seq![("enable_thinking"@, JsonView::Bool(false))]))
            } else {
                None
            }
        } else if key == "max_tokens"@ {
            Some(JsonView::Number(integer_number(w.tokens_for(binding))))
        } else if key == "messages"@ {
            Some(JsonView::Array(seq![user_message(prompt)]))
        } else if key == "model"@ {
            Some(JsonView::Text(w.model_for(binding)))
        } else if key == "stream"@ {
            Some(JsonView::Bool(false))
        } else if key == "temperature"@ {
            temperature
        } else if key == "top_k"@ {
            match integer_param(binding, "top_k"@) {
                Some(k) => Some(JsonView::Number(integer_number(k))),
                None => None,
            }
        } else if key == "top_p"@ {
            top_p
        } else {
            None
        },
{
    lemma_request_names();
    let kwargs = if w.disable_thinking {
        Some(JsonView::Object(seq![("enable_thinking"@, JsonView::Bool(false))]))
    } else {
        None
    };
    let top_k = match integer_param(binding, "top_k"@) {
        Some(k) => Some(JsonView::Number(integer_number(k))),
        None => None,
    };
    let first = opt_member("chat_template_kwargs"@, kwargs);
    let tokens = ("max_tokens"@, JsonView::Number(integer_number(w.tokens_for(binding))));
    let messages = ("messages"@, JsonView::Array(seq![user_message(prompt)]));
    let model = ("model"@, JsonView::Text(w.model_for(binding)));
    let stream = ("stream"@, JsonView::Bool(false));
    let fixed = seq![tokens, messages, model, stream];
    let heat = opt_member("temperature"@, temperature);
    let ks = opt_member("top_k"@, top_k);
    let ps = opt_member("top_p"@, top_p);
    lemma_opt_member("chat_template_kwargs"@, kwargs, key);
    lemma_four_members(tokens, messages, model, stream, key);
    lemma_opt_member("temperature"@, temperature, key);
    lemma_opt_member("top_k"@, top_k, key);
    lemma_opt_member("top_p"@, top_p, key);
    lemma_member_of_both(first, fixed, key);
    lemma_member_of_both(first + fixed, heat, key);
    lemma_member_of_both(first + fixed + heat, ks, key);
    lemma_member_of_both(first + fixed + heat + ks, ps, key);
}

/// A request asks the model for an answer to the prompt: one message of the user,
/// whole, and no stream. It names the model that is set, or that of the binding.
pub proof fn law_a_request_asks_the_model_for_an_answer_to_the_prompt(
    w: OpenAiWorker,
    binding: ModelBinding,
    prompt: Seq<char>,
    temperature: Option<JsonView>,
    top_p: Option<JsonView>,
)
    ensures
        ({
            let request = JsonView::Object(
                w.request_members(binding, prompt, temperature, top_p),
            );
            &&& request.under("messages"@) matches JsonView::Array(messages) && messages.len() == 1
                && messages[0].under("role"@) == JsonView::Text("user"@) && messages[0].under(
                "content"@,
            ) == JsonView::Text(prompt)
            &&& request.under("stream"@) == JsonView::Bool(false)
            &&& w.model@.len() > 0 ==> request.under("model"@) == JsonView::Text(w.model@)
            &&& w.model@.len() == 0 ==> request.under("model"@) == JsonView::Text(binding.model@)
        }),
{
    lemma_request_member(w, binding, prompt, temperature, top_p, "messages"@);
    lemma_request_member(w, binding, prompt, temperature, top_p, "stream"@);
    lemma_request_member(w, binding, prompt, temperature, top_p, "model"@);
    lemma_request_names();
    reveal_strlit("role");
    reveal_strlit("content");
    assert("role"@.len() == 4 && "content"@.len() == 7);
    let content = ("content"@, JsonView::Text(prompt));
    let role = ("role"@, JsonView::Text("user"@));
    lemma_one_member(content.0, content.1, "content"@);
    lemma_one_member(role.0, role.1, "content"@);
    lemma_one_member(content.0, content.1, "role"@);
    lemma_one_member(role.0, role.1, "role"@);
    lemma_member_of_both(seq![content], seq![role], "content"@);
    lemma_member_of_both(seq![content], seq![role], "role"@);
    assert(seq![content, role] =~= seq![content] + seq![role]);
}

/// A request carries the parameters of its binding: the declared ceiling on tokens,
/// or that of the worker; the sampling that is declared, and none that is not; and
/// the wish for no reasoning where that is to be suppressed.
pub proof fn law_a_request_carries_the_parameters_of_its_binding(
    w: OpenAiWorker,
    binding: ModelBinding,
    prompt: Seq<char>,
    temperature: Option<JsonView>,
    top_p: Option<JsonView>,
    n: i64,
)
    ensures
        ({
            let request = JsonView::Object(
                w.request_members(binding, prompt, temperature, top_p),
            );
            let params = binding.params@;
            &&& request.member("temperature"@) == temperature
            &&& request.member("top_p"@) == top_p
            &&& params.contains_key("top_k"@) && params["top_k"@]@ == int_text(n as int)
                ==> request.member("top_k"@) == Some(JsonView::Number(integer_number(n)))
            &&& !params.contains_key("top_k"@) ==> request.member("top_k"@) is None
            &&& params.contains_key("max_tokens"@) && params["max_tokens"@]@ == int_text(n as int)
                ==> request.member("max_tokens"@) == Some(JsonView::Number(integer_number(n)))
            &&& !params.contains_key("max_tokens"@) ==> request.member("max_tokens"@) == Some(
                JsonView::Number(integer_number(w.max_tokens)),
            )
            &&& w.disable_thinking ==> request.under("chat_template_kwargs"@).member(
                "enable_thinking"@,
            ) == Some(JsonView::Bool(false))
            &&& !w.disable_thinking ==> request.member("chat_template_kwargs"@) is None
        }),
{
    lemma_request_member(w, binding, prompt, temperature, top_p, "temperature"@);
    lemma_request_member(w, binding, prompt, temperature, top_p, "top_p"@);
    lemma_request_member(w, binding, prompt, temperature, top_p, "top_k"@);
    lemma_request_member(w, binding, prompt, temperature, top_p, "max_tokens"@);
    lemma_request_member(w, binding, prompt, temperature, top_p, "chat_template_kwargs"@);
    lemma_request_names();
    law_integers_are_read_back(n as int, Seq::empty(), 0);
    lemma_one_member("enable_thinking"@, JsonView::Bool(false), "enable_thinking"@);
}

/// A request goes to the completions endpoint under the root of the server, with or
/// without slashes behind it.
pub proof fn law_a_request_goes_to_the_endpoint_of_the_server(
    w: OpenAiWorker,
    slashed: OpenAiWorker,
    root: Seq<char>,
)
    requires
        root.len() > 0,
        root.last() != '/',
        w.base_url@ == root,
        slashed.base_url@ == root + "/"@,
    ensures
        w.endpoint() == root + "/v1/chat/completions"@,
        slashed.endpoint() == root + "/v1/chat/completions"@,
{
    reveal_strlit("/");
    law_suffixes_are_taken_off(root, "/"@);
    assert(root.skip(root.len() - 1)[0] != "/"@[0]);
}

/// A body is posted to the host and the port of a plain HTTP URL: the request names
/// the path and the authority, carries the key if there is one, gives the length of
/// the body in bytes, and ends in the body.
pub proof fn law_a_body_is_posted_to_the_host_of_the_url(
    host: Seq<char>,
    port: u16,
    path: Seq<char>,
    body: Seq<char>,
    key: Seq<char>,
)
    requires
        !host.contains('/'),
        !host.contains(':'),
    ensures
        ({
            let authority = host + seq![':'] + decimal(port as nat);
            let bare = http_post("http://"@ + (authority + seq!['/'] + path), body, None);
            let keyed = http_post("http://"@ + (authority + seq!['/'] + path), body, Some(key));
            let head = "POST "@ + ("/"@ + path) + " HTTP/1.1\r\nHost: "@ + authority
                + "\r\nContent-Type: application/json\r\n"@;
            let tail = "Content-Length: "@ + decimal(vstd::utf8::encode_utf8(body).len())
                + "\r\nConnection: close\r\n\r\n"@ + body;
            &&& bare == Ok::<(Seq<char>, u16, Seq<char>), Seq<char>>((host, port, head + tail))
            &&& keyed == Ok::<(Seq<char>, u16, Seq<char>), Seq<char>>(
                (host, port, head + ("Authorization: Bearer "@ + key + "\r\n"@) + tail),
            )
        }),
        http_post("http://"@ + host, body, None) is Ok,
        http_post("http://"@ + host, body, None)->Ok_0.0 == host,
        http_post("http://"@ + host, body, None)->Ok_0.1 == 80,
        http_post("https://"@ + host, body, None) is Err,
{
    let d = decimal(port as nat);
    let a = host + seq![':'] + d;
    lemma_decimal_digits(port as nat);
    lemma_decimal_round_trip(port as nat);
    assert(is_digit(d[0]));
    assert(unsigned_value(d, 65535) == Some(port as u64));
    assert(!d.contains(':') && !d.contains('/')) by {
        if d.contains(':') || d.contains('/') {
            let k = choose|k: int| 0 <= k < d.len() && (d[k] == ':' || d[k] == '/');
            assert(is_digit(d[k]));
        }
    }
    assert(!a.contains('/')) by {
        if a.contains('/') {
            let k = choose|k: int| 0 <= k < a.len() && a[k] == '/';
            if k < host.len() {
                assert(host.contains(host[k]));
            } else if k > host.len() {
                assert(d.contains(d[k - host.len() - 1]));
            }
        }
    }
    law_a_text_is_cut_at_the_first(a, '/', path);
    law_a_text_is_cut_at_the_first(host, '/', path);
    law_a_text_is_cut_at_the_last(host, ':', d);
    law_a_text_is_cut_at_the_last(Seq::empty(), ':', host);
    law_a_prefix_is_taken_off("http://"@, a + seq!['/'] + path, Seq::empty());
    law_a_prefix_is_taken_off("http://"@, host, "https://"@ + host);
    reveal_strlit("http://");
    reveal_strlit("https://");
    let s = "https://"@ + host;
    assert(s[4] == 's');
    if stripped(s, "http://"@) is Some {
        assert(("http://"@ + stripped(s, "http://"@)->0)[4] == ':');
    }
    let head = "POST "@ + ("/"@ + path) + " HTTP/1.1\r\nHost: "@ + a
        + "\r\nContent-Type: application/json\r\n"@;
    let tail = "Content-Length: "@ + decimal(vstd::utf8::encode_utf8(body).len())
        + "\r\nConnection: close\r\n\r\n"@ + body;
    assert(post_text("/"@ + path, a, body, None) =~= head + tail);
    assert(post_text("/"@ + path, a, body, Some(key)) =~= head + ("Authorization: Bearer "@ + key
        + "\r\n"@) + tail);
}

/// Only a URL of plain HTTP can be posted to, and only at a port that is one.
pub proof fn law_no_other_url_is_posted_to(url: Seq<char>, body: Seq<char>, key: Option<Seq<char>>)
    ensures
        http_post(url, body, key) is Ok ==> exists|rest: Seq<char>| url == #[trigger] (
        "http://"@ + rest),
        http_post(url, body, key) is Ok ==> 0 <= http_post(url, body, key)->Ok_0.1 <= 65535,
{
    law_a_prefix_is_taken_off("http://"@, Seq::empty(), url);
}

/// A response: its status line, its headers, a blank line, and its body.
pub open spec fn response_text(
    status: Seq<char>,
    headers: Seq<char>,
    body: Seq<char>,
) -> Seq<char> {
    status + seq!['\r', '\n'] + headers + seq!['\r', '\n', '\r', '\n'] + body
}

/// Whether a line ends at this place and a blank line follows.
pub open spec fn blank_line_at(s: Seq<char>, i: int) -> bool {
    &&& 0 <= i
    &&& i + 4 <= s.len()
    &&& s[i] == '\r'
    &&& s[i + 1] == '\n'
    &&& s[i + 2] == '\r'
    &&& s[i + 3] == '\n'
}

/// Of a response with the status 200 the body is what follows the first blank line,
/// whatever headers there are; one with another status is an error that quotes its
/// status line.
pub proof fn law_the_body_follows_the_blank_line(
    status: Seq<char>,
    headers: Seq<char>,
    body: Seq<char>,
    host: Seq<char>,
    port: u16,
)
    requires
        !status.contains('\n'),
        status.len() == 0 || status.last() != '\r',
        forall|i: int|
            0 <= i < status.len() + 2 + headers.len() ==> !#[trigger] blank_line_at(
                response_text(status, headers, body),
                i,
            ),
    ensures
        find(status, " 200"@, 0) is Some ==> http_result(
            response_text(status, headers, body),
            host,
            port,
        ) == Ok::<Seq<char>, Seq<char>>(body),
        find(status, " 200"@, 0) is None ==> http_result(
            response_text(status, headers, body),
            host,
            port,
        ) == Err::<Seq<char>, Seq<char>>(
            "non-200 from "@ + host + ":"@ + decimal(port as nat) + ": "@ + status,
        ),
{
    let response = response_text(status, headers, body);
    let rest = headers + seq!['\r', '\n', '\r', '\n'] + body;
    assert(response =~= status + seq!['\r', '\n'] + rest);
    law_the_first_line_ends_at_the_line_feed(status, rest);
    reveal_strlit("\r\n\r\n");
    let stop = "\r\n\r\n"@;
    assert(stop =~= seq!['\r', '\n', '\r', '\n']);
    let n = status.len() as int + 2 + headers.len();
    assert(response.subrange(n, n + 4) =~= stop);
    assert(occurs_at(response, stop, n));
    lemma_find(response, stop, 0);
    let i = find(response, stop, 0)->0;
    if i < n {
        let here = response.subrange(i, i + 4);
        assert(here == stop);
        assert(here[0] == response[i] && here[1] == response[i + 1] && here[2] == response[i + 2]
            && here[3] == response[i + 3]);
        assert(blank_line_at(response, i));
    }
    assert(i == n);
    assert(response.skip(n + 4) =~= body);
}

/// The answer is the content of the first choice; where that is empty, its
/// reasoning; where both are, the error tells why the model stopped and quotes the
/// response.
pub proof fn law_the_answer_is_the_content_of_the_first_choice(
    response: JsonView,
    choices: Seq<JsonView>,
    message: JsonView,
    content: Seq<char>,
    body: Seq<char>,
)
    requires
        response.member("choices"@) == Some(JsonView::Array(choices)),
        choices.len() > 0,
        choices[0].member("message"@) == Some(message),
        content.len() > 0,
    ensures
        message.member("content"@) == Some(JsonView::Text(content)) ==> chat_answer(response, body)
            == Ok::<Seq<char>, Seq<char>>(content),
        (message.member("content"@) is None || message.member("content"@) == Some(JsonView::Null)
            || message.member("content"@) == Some(JsonView::Text(Seq::empty())))
            && message.member("reasoning"@) == Some(JsonView::Text(content)) ==> chat_answer(
            response,
            body,
        ) == Ok::<Seq<char>, Seq<char>>(content),
        message.member("content"@) is None && message.member("reasoning"@) is None
            && choices[0].member("finish_reason"@) == Some(JsonView::Text(content)) ==> chat_answer(
            response,
            body,
        ) == Err::<Seq<char>, Seq<char>>(
            "empty content (finish_reason="@ + content + "); response: "@ + body,
        ),
{
}

/// A response without choices holds no answer.
pub proof fn law_without_a_choice_there_is_no_answer(response: JsonView, body: Seq<char>)
    requires
        response.member("choices"@) is None || response.member("choices"@) == Some(
            JsonView::Array(Seq::empty()),
        ),
    ensures
        chat_answer(response, body) == Err::<Seq<char>, Seq<char>>(
            "empty content (finish_reason="@ + "?"@ + "); response: "@ + body,
        ),
{
}

/// What cannot be a port is no port: nothing is posted there.
pub proof fn law_a_bad_port_is_an_error(
    host: Seq<char>,
    port: Seq<char>,
    path: Seq<char>,
    body: Seq<char>,
)
    requires
        !host.contains('/'),
        !port.contains('/'),
        !port.contains(':'),
        unsigned_value(port, 65535) is None,
    ensures
        http_post("http://"@ + (host + seq![':'] + port + seq!['/'] + path), body, None) == Err::<
            (Seq<char>, u16, Seq<char>),
            Seq<char>,
        >("bad port in "@ + (host + seq![':'] + port)),
{
    let a = host + seq![':'] + port;
    assert(!a.contains('/')) by {
        if a.contains('/') {
            let k = choose|k: int| 0 <= k < a.len() && a[k] == '/';
            if k < host.len() {
                assert(host.contains(host[k]));
            } else if k > host.len() {
                assert(port.contains(port[k - host.len() - 1]));
            }
        }
    }
    law_a_text_is_cut_at_the_first(a, '/', path);
    law_a_text_is_cut_at_the_last(host, ':', port);
    law_a_prefix_is_taken_off("http://"@, a + seq!['/'] + path, Seq::empty());
}

/// A response with the status 200 and no blank line has an empty body.
pub proof fn law_without_a_blank_line_the_body_is_empty(
    response: Seq<char>,
    host: Seq<char>,
    port: u16,
)
    requires
        find(first_line(response), " 200"@, 0) is Some,
        forall|i: int| !#[trigger] blank_line_at(response, i),
    ensures
        http_result(response, host, port) == Ok::<Seq<char>, Seq<char>>(Seq::empty()),
{
    reveal_strlit("\r\n\r\n");
    let stop = "\r\n\r\n"@;
    lemma_find(response, stop, 0);
    if find(response, stop, 0) is Some {
        let i = find(response, stop, 0)->0;
        let here = response.subrange(i, i + 4);
        assert(here == stop);
        assert(here[0] == response[i] && here[1] == response[i + 1] && here[2] == response[i + 2]
            && here[3] == response[i + 3]);
        assert(blank_line_at(response, i));
    }
}

/// What a request or an answer came to is told as it is.
pub proof fn law_results_are_told_as_they_are(q: HttpRequest, s: String)
    ensures
        http_outcome(Ok::<HttpRequest, String>(q)) == Ok::<(Seq<char>, u16, Seq<char>), Seq<char>>(
            (q.host@, q.port, q.text@),
        ),
        http_outcome(Err::<HttpRequest, String>(s)) == Err::<
            (Seq<char>, u16, Seq<char>),
            Seq<char>,
        >(s@),
        text_outcome(Ok::<String, String>(s)) == Ok::<Seq<char>, Seq<char>>(s@),
        text_outcome(Err::<String, String>(s)) == Err::<Seq<char>, Seq<char>>(s@),
{
}

/// A body that is JSON is read for its answer; one that is not is quoted with what
/// the parser said.
pub proof fn law_a_body_is_parsed_before_it_is_read(body: Seq<char>)
    ensures
        json_result(body) matches Ok(response) ==> answer_in(body) == chat_answer(response, body),
        json_result(body) matches Err(message) ==> answer_in(body) == Err::<Seq<char>, Seq<char>>(
            "parse response: "@ + message + ": "@ + body,
        ),
{
}

/// A request holds nothing else than what is asked for above.
pub proof fn law_a_request_holds_nothing_else(
    w: OpenAiWorker,
    binding: ModelBinding,
    prompt: Seq<char>,
    temperature: Option<JsonView>,
    top_p: Option<JsonView>,
    key: Seq<char>,
)
    requires
        key != "chat_template_kwargs"@ && key != "max_tokens"@ && key != "messages"@ && key
            != "model"@ && key != "stream"@ && key != "temperature"@ && key != "top_k"@ && key
            != "top_p"@,
    ensures
        JsonView::Object(w.request_members(binding, prompt, temperature, top_p)).member(key)
            is None,
{
    lemma_request_member(w, binding, prompt, temperature, top_p, key);
}

/// A URL without a port and a path is posted to at port 80 and at the root.
pub proof fn law_a_bare_host_is_posted_to_at_its_root(host: Seq<char>, body: Seq<char>)
    requires
        !host.contains('/'),
        !host.contains(':'),
    ensures
        http_post("http://"@ + host, body, None) == Ok::<(Seq<char>, u16, Seq<char>), Seq<char>>(
            (
                host,
                80u16,
                "POST "@ + "/"@ + " HTTP/1.1\r\nHost: "@ + host
                    + "\r\nContent-Type: application/json\r\n"@ + ("Content-Length: "@ + decimal(
                    vstd::utf8::encode_utf8(body).len(),
                ) + "\r\nConnection: close\r\n\r\n"@ + body),
            ),
        ),
{
    law_a_text_is_cut_at_the_first(host, '/', Seq::empty());
    law_a_text_is_cut_at_the_last(Seq::empty(), ':', host);
    law_a_prefix_is_taken_off("http://"@, host, Seq::empty());
    assert(post_text("/"@, host, body, None) =~= "POST "@ + "/"@ + " HTTP/1.1\r\nHost: "@ + host
        + "\r\nContent-Type: application/json\r\n"@ + ("Content-Length: "@ + decimal(
        vstd::utf8::encode_utf8(body).len(),
    ) + "\r\nConnection: close\r\n\r\n"@ + body));
}

/// Where neither the content nor the reasoning is a text that is not empty there is
/// no answer, whatever else they are.
pub proof fn law_only_a_text_is_an_answer(
    response: JsonView,
    choices: Seq<JsonView>,
    message: JsonView,
    body: Seq<char>,
)
    requires
        response.member("choices"@) == Some(JsonView::Array(choices)),
        choices.len() > 0,
        choices[0].member("message"@) == Some(message),
        !(message.under("content"@) is Text) || message.under("content"@)->Text_0.len() == 0,
        !(message.under("reasoning"@) is Text) || message.under("reasoning"@)->Text_0.len() == 0,
    ensures
        chat_answer(response, body) is Err,
        choices[0].member("finish_reason"@) is None ==> chat_answer(response, body) == Err::<
            Seq<char>,
            Seq<char>,
        >("empty content (finish_reason="@ + "?"@ + "); response: "@ + body),
{
}

} // verus!
