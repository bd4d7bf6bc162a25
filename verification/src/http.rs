//! The requests that the console of a client understands, and what it answers.

use crate::text::{chars_of, decimal, append_number, find, find_in, is_white, lemma_find_from, lemma_find_is_first, lemma_white_has_no_words, lemma_words_start_with, occurs_at, range_is, text_of, two_words, words};
use vstd::prelude::*;
use vstd::utf8::{decode_utf8, encode_utf8, valid_utf8};

verus! {

/// What a request asks for.
#[derive(Debug)]
pub enum Route {
    /// Nothing that can be answered.
    Ignore,
    /// The status of the swarm.
    Status,
    /// A turn on this prompt.
    Chat(String),
    /// The page of the console.
    Page,
}

/// A [`Route`] as mathematical values.
#[verifier::ext_equal]
pub enum RouteView {
    Ignore,
    Status,
    Chat(Seq<char>),
    Page,
}

impl View for Route {
    type V = RouteView;

    open spec fn view(&self) -> RouteView {
        match self {
            Route::Ignore => RouteView::Ignore,
            Route::Status => RouteView::Status,
            Route::Chat(prompt) => RouteView::Chat(prompt@),
            Route::Page => RouteView::Page,
        }
    }
}

/// What comes before the first `separator`, or all where there is none.
pub open spec fn up_to(s: Seq<char>, separator: Seq<char>) -> Seq<char> {
    match find(s, separator) {
        Some(i) => s.take(i),
        None => s,
    }
}

/// The first line of a request.
pub open spec fn first_line(request: Seq<char>) -> Seq<char> {
    up_to(request, "\r\n"@)
}

/// The body of a request: what stands between its first empty line and the next one.
pub open spec fn body_of(request: Seq<char>) -> Seq<char> {
    match find(request, "\r\n\r\n"@) {
        Some(i) => up_to(request.skip(i + "\r\n\r\n"@.len()), "\r\n\r\n"@),
        None => Seq::empty(),
    }
}

/// The prompt in a body: what stands between the first `"prompt":"` and the next quotation mark.
/// Without both of these the prompt is empty.
pub open spec fn prompt_of(body: Seq<char>) -> Seq<char> {
    match find(body, "\"prompt\":\""@) {
        Some(i) => {
            let rest = body.skip(i + "\"prompt\":\""@.len());
            match find(rest, "\""@) {
                Some(j) => rest.take(j),
                None => Seq::empty(),
            }
        },
        None => Seq::empty(),
    }
}

/// What a request asks for, by the first two words of its first line.
pub open spec fn route(request: Seq<char>) -> RouteView {
    let parts = words(first_line(request));
    if parts.len() < 2 {
        RouteView::Ignore
    } else if parts[0] == "GET"@ && parts[1] == "/api/status"@ {
        RouteView::Status
    } else if parts[0] == "POST"@ && parts[1] == "/api/chat"@ {
        RouteView::Chat(prompt_of(body_of(request)))
    } else {
        RouteView::Page
    }
}

/// The text that is read out of bytes which need not be UTF-8.
pub uninterp spec fn lossy_text(bytes: Seq<u8>) -> Seq<char>;

/// `String::from_utf8_lossy`: the text of the bytes. Its result is named; where the bytes are
/// UTF-8 it is the text that they encode. How sequences that are not UTF-8 are replaced is left
/// unsaid.
#[verifier::external_body]
fn decode_lossy(bytes: &[u8]) -> (r: String)
    ensures
        r@ == lossy_text(bytes@),
        valid_utf8(bytes@) ==> r@ == decode_utf8(bytes@),
{
    String::from_utf8_lossy(bytes).into_owned()
}

/// What the bytes of a request ask for.
pub fn route_request(bytes: &[u8]) -> (r: Route)
    ensures
        r@ == route(lossy_text(bytes@)),
        valid_utf8(bytes@) ==> r@ == route(decode_utf8(bytes@)),
{
    let request: String = decode_lossy(bytes);
    route_text(request.as_str())
}

/// The prompt among the characters `from..to`.
fn find_prompt(chars: &Vec<char>, from: usize, to: usize) -> (r: String)
    requires
        from <= to <= chars@.len(),
    ensures
        r@ == prompt_of(chars@.subrange(from as int, to as int)),
{
    let ghost body = chars@.subrange(from as int, to as int);
    let key = "\"prompt\":\"";
    proof {
        reveal_strlit("\"prompt\":\"");
        reveal_strlit("\"");
    }
    match find_in(chars, from, to, key) {
        Some(i) => {
            let start: usize = from + i + 10;
            let ghost rest = body.skip(i + 10);
            assert(rest =~= chars@.subrange(start as int, to as int));
            match find_in(chars, start, to, "\"") {
                Some(j) => {
                    assert(rest.take(j as int) =~= chars@.subrange(start as int, start + j));
                    text_of(chars, start, start + j)
                },
                None => String::new(),
            }
        },
        None => String::new(),
    }
}

/// The prompt in the body of a request.
fn find_body_prompt(chars: &Vec<char>) -> (r: String)
    ensures
        r@ == prompt_of(body_of(chars@)),
{
    let n: usize = chars.len();
    proof {
        reveal_strlit("\r\n\r\n");
    }
    assert(chars@.subrange(0, n as int) =~= chars@);
    match find_in(chars, 0, n, "\r\n\r\n") {
        Some(i) => {
            let from: usize = i + 4;
            let ghost rest = chars@.skip(from as int);
            assert(rest =~= chars@.subrange(from as int, n as int));
            match find_in(chars, from, n, "\r\n\r\n") {
                Some(j) => {
                    assert(rest.take(j as int) =~= chars@.subrange(from as int, from + j));
                    find_prompt(chars, from, from + j)
                },
                None => find_prompt(chars, from, n),
            }
        },
        None => {
            assert(chars@.subrange(0, 0) =~= Seq::<char>::empty());
            find_prompt(chars, 0, 0)
        },
    }
}

/// What a request asks for.
pub fn route_text(request: &str) -> (r: Route)
    ensures
        r@ == route(request@),
{
    let chars: Vec<char> = chars_of(request);
    let n: usize = chars.len();
    assert(chars@.subrange(0, n as int) =~= chars@);
    let line_len: usize = match find_in(&chars, 0, n, "\r\n") {
        Some(i) => i,
        None => n,
    };
    assert(first_line(request@) =~= chars@.take(line_len as int));
    match two_words(&chars, line_len) {
        None => Route::Ignore,
        Some(parts) => {
            let (a, b) = parts.first;
            let (c, d) = parts.second;
            if range_is(&chars, a, b, "GET") && range_is(&chars, c, d, "/api/status") {
                Route::Status
            } else if range_is(&chars, a, b, "POST") && range_is(&chars, c, d, "/api/chat") {
                Route::Chat(find_body_prompt(&chars))
            } else {
                Route::Page
            }
        },
    }
}

/// An answer that carries the status of the swarm.
pub open spec fn json_answer(json: Seq<char>) -> Seq<char> {
    "HTTP/1.1 200 OK\r\nContent-Type: application/json\r\nAccess-Control-Allow-Origin: *\r\nContent-Length: "@
        + decimal(encode_utf8(json).len()) + "\r\n\r\n"@ + json
}

/// An answer that carries the page of the console.
pub open spec fn page_answer(html: Seq<char>) -> Seq<char> {
    "HTTP/1.1 200 OK\r\nContent-Type: text/html\r\nContent-Length: "@ + decimal(
        encode_utf8(html).len(),
    ) + "\r\n\r\n"@ + html
}

/// Writes the length of `body` in bytes, an empty line and `body` itself behind `head`.
fn finish_answer(head: String, body: &str) -> (r: String)
    ensures
        r@ == head@ + decimal(encode_utf8(body@).len()) + "\r\n\r\n"@ + body@,
{
    let len: usize = body.as_bytes().len();
    let mut answer: String = head;
    append_number(&mut answer, len);
    answer.append("\r\n\r\n");
    answer.append(body);
    answer
}

/// Writes an answer that carries the status of the swarm.
pub fn json_response(json: &str) -> (r: String)
    ensures
        r@ == json_answer(json@),
{
    let head =
        "HTTP/1.1 200 OK\r\nContent-Type: application/json\r\nAccess-Control-Allow-Origin: *\r\nContent-Length: ".to_owned();
    finish_answer(head, json)
}

/// Writes an answer that carries the page of the console.
pub fn page_response(html: &str) -> (r: String)
    ensures
        r@ == page_answer(html@),
{
    let head = "HTTP/1.1 200 OK\r\nContent-Type: text/html\r\nContent-Length: ".to_owned();
    finish_answer(head, html)
}

/// The head of an answer that is a stream of events.
pub open spec fn event_stream_head() -> Seq<char> {
    "HTTP/1.1 200 OK\r\nContent-Type: text/event-stream\r\nCache-Control: no-cache\r\nConnection: keep-alive\r\nAccess-Control-Allow-Origin: *\r\n\r\n"@
}

/// Writes the head of an answer that is a stream of events.
pub fn event_stream_headers() -> (r: String)
    ensures
        r@ == event_stream_head(),
{
    "HTTP/1.1 200 OK\r\nContent-Type: text/event-stream\r\nCache-Control: no-cache\r\nConnection: keep-alive\r\nAccess-Control-Allow-Origin: *\r\n\r\n".to_owned()
}

/// An event that carries `data`.
pub open spec fn event(data: Seq<char>) -> Seq<char> {
    "data: "@ + data + "\n\n"@
}

/// Writes an event.
pub fn event_line(data: &str) -> (r: String)
    ensures
        r@ == event(data@),
        r@ == "data: "@ + data@ + "\n\n"@,
{
    let mut r = "data: ".to_owned();
    r.append(data);
    r.append("\n\n");
    r
}

/// A prompt without quotation marks is read back as it was written, whatever stands before it, as
/// long as there is no quotation mark there, and whatever stands behind it.
pub proof fn lemma_prompt_is_read_back(before: Seq<char>, prompt: Seq<char>, after: Seq<char>)
    requires
        !before.contains('"'),
        !prompt.contains('"'),
    ensures
        prompt_of(before + "\"prompt\":\""@ + prompt + "\""@ + after) == prompt,
{
    reveal_strlit("\"prompt\":\"");
    reveal_strlit("\"");
    let key = "\"prompt\":\""@;
    let quote = "\""@;
    let body = before + key + prompt + quote + after;
    let n = before.len() as int;
    assert(body.subrange(n, n + key.len()) =~= key);
    assert forall|j: int| 0 <= j < n implies !(#[trigger] occurs_at(body, key, j)) by {
        assert(body[j] == before[j]);
        if occurs_at(body, key, j) {
            assert(body.subrange(j, j + key.len())[0] == '"');
        }
    }
    lemma_find_is_first(body, key, n);
    let rest = body.skip(n + key.len());
    let m = prompt.len() as int;
    assert(rest =~= prompt + quote + after);
    assert(rest.subrange(m, m + 1) =~= quote);
    assert forall|j: int| 0 <= j < m implies !(#[trigger] occurs_at(rest, quote, j)) by {
        assert(rest[j] == prompt[j]);
        if occurs_at(rest, quote, j) {
            assert(rest.subrange(j, j + 1)[0] == '"');
        }
    }
    lemma_find_is_first(rest, quote, m);
    assert(rest.take(m) =~= prompt);
}

/// A body is read back as it was written, as long as the head does not come to an empty line
/// earlier and the body has none.
pub proof fn lemma_body_is_read_back(head: Seq<char>, body: Seq<char>)
    requires
        forall|j: int|
            0 <= j < head.len() ==> !(#[trigger] occurs_at(
                head + "\r\n\r\n"@ + body,
                "\r\n\r\n"@,
                j,
            )),
        forall|j: int| 0 <= j ==> !(#[trigger] occurs_at(body, "\r\n\r\n"@, j)),
    ensures
        body_of(head + "\r\n\r\n"@ + body) == body,
{
    reveal_strlit("\r\n\r\n");
    let gap = "\r\n\r\n"@;
    let request = head + gap + body;
    let n = head.len() as int;
    assert(request.subrange(n, n + gap.len()) =~= gap);
    lemma_find_is_first(request, gap, n);
    assert(request.skip(n + gap.len()) =~= body);
    lemma_find_from(body, gap, 0);
}

/// A request that posts a prompt without quotation marks to the chat is a chat on that prompt.
pub proof fn lemma_posted_prompt_is_chatted(
    head: Seq<char>,
    before: Seq<char>,
    prompt: Seq<char>,
    after: Seq<char>,
)
    requires
        ({
            let body = before + "\"prompt\":\""@ + prompt + "\""@ + after;
            let request = head + "\r\n\r\n"@ + body;
            let parts = words(first_line(request));
            &&& parts.len() >= 2
            &&& parts[0] == "POST"@
            &&& parts[1] == "/api/chat"@
            &&& forall|j: int|
                0 <= j < head.len() ==> !(#[trigger] occurs_at(request, "\r\n\r\n"@, j))
            &&& forall|j: int| 0 <= j ==> !(#[trigger] occurs_at(body, "\r\n\r\n"@, j))
        }),
        !before.contains('"'),
        !prompt.contains('"'),
    ensures
        route(
            head + "\r\n\r\n"@ + (before + "\"prompt\":\""@ + prompt + "\""@ + after),
        ) == RouteView::Chat(prompt),
{
    let body = before + "\"prompt\":\""@ + prompt + "\""@ + after;
    lemma_body_is_read_back(head, body);
    lemma_prompt_is_read_back(before, prompt, after);
    reveal_strlit("GET");
    reveal_strlit("POST");
    assert("GET"@.len() != "POST"@.len());
}

/// The prompt of a body is what stands between its first `"prompt":"`, at `i`, and the next
/// quotation mark, at `j`, as it is. Without the one or the other the prompt is empty.
pub proof fn lemma_prompt_stands_in_quotes(body: Seq<char>, i: int, j: int)
    requires
        i < body.len() ==> occurs_at(body, "\"prompt\":\""@, i),
        forall|l: int| 0 <= l < i ==> !(#[trigger] occurs_at(body, "\"prompt\":\""@, l)),
        i < body.len() ==> i + 10 <= j,
        forall|l: int| i + 10 <= l < j && l < body.len() ==> #[trigger] body[l] != '"',
        j < body.len() ==> body[j] == '"',
        0 <= i,
    ensures
        prompt_of(body) == if i < body.len() && j < body.len() {
            body.subrange(i + 10, j)
        } else {
            Seq::empty()
        },
{
    reveal_strlit("\"prompt\":\"");
    reveal_strlit("\"");
    let key = "\"prompt\":\""@;
    let quote = "\""@;
    lemma_find_from(body, key, 0);
    if i < body.len() {
        lemma_find_is_first(body, key, i);
        let rest = body.skip(i + 10);
        lemma_find_from(rest, quote, 0);
        assert forall|l: int| 0 <= l && i + 10 + l < j implies !(#[trigger] occurs_at(
            rest,
            quote,
            l,
        )) by {
            if occurs_at(rest, quote, l) {
                assert(rest.subrange(l, l + 1)[0] == body[i + 10 + l]);
            }
        }
        if j < body.len() {
            let m = j - i - 10;
            assert(rest.subrange(m, m + 1) =~= quote);
            lemma_find_is_first(rest, quote, m);
            assert(rest.take(m) =~= body.subrange(i + 10, j));
        } else if let Some(l) = find(rest, quote) {
            assert(occurs_at(rest, quote, l));
            assert(false);
        }
    } else if let Some(l) = find(body, key) {
        assert(occurs_at(body, key, l));
        assert(l < body.len());
        assert(false);
    }
}

/// The body of a request is what stands behind its first empty line, at `i`, up to the next one, at
/// `j`, or to the end. Without an empty line it is empty.
pub proof fn lemma_body_stands_behind_head(request: Seq<char>, i: int, j: int)
    requires
        0 <= i,
        i < request.len() ==> occurs_at(request, "\r\n\r\n"@, i),
        forall|l: int| 0 <= l < i ==> !(#[trigger] occurs_at(request, "\r\n\r\n"@, l)),
        i < request.len() ==> i + 4 <= j <= request.len(),
        i < request.len() && j < request.len() ==> occurs_at(request, "\r\n\r\n"@, j),
        forall|l: int| i + 4 <= l < j ==> !(#[trigger] occurs_at(request, "\r\n\r\n"@, l)),
    ensures
        body_of(request) == if i < request.len() {
            request.subrange(i + 4, j)
        } else {
            Seq::empty()
        },
{
    reveal_strlit("\r\n\r\n");
    let gap = "\r\n\r\n"@;
    lemma_find_from(request, gap, 0);
    if i < request.len() {
        lemma_find_is_first(request, gap, i);
        let rest = request.skip(i + 4);
        lemma_find_from(rest, gap, 0);
        assert forall|l: int| 0 <= l && i + 4 + l < j implies !(#[trigger] occurs_at(
            rest,
            gap,
            l,
        )) by {
            if occurs_at(rest, gap, l) {
                assert(rest.subrange(l, l + 4) =~= request.subrange(i + 4 + l, i + 8 + l));
                assert(occurs_at(request, gap, i + 4 + l));
            }
        }
        if j < request.len() {
            let m = j - i - 4;
            assert(rest.subrange(m, m + 4) =~= request.subrange(j, j + 4));
            lemma_find_is_first(rest, gap, m);
            assert(rest.take(m) =~= request.subrange(i + 4, j));
        } else {
            if let Some(l) = find(rest, gap) {
                assert(occurs_at(rest, gap, l));
                assert(false);
            }
            assert(rest =~= request.subrange(i + 4, j));
        }
    } else if let Some(l) = find(request, gap) {
        assert(occurs_at(request, gap, l));
        assert(l < request.len());
        assert(false);
    }
}

/// The text that an event line carries: what stands between `data: ` and the empty line.
pub open spec fn event_text(line: Seq<char>) -> Seq<char> {
    line.subrange(6, line.len() - 2)
}

/// An event carries its text unchanged: its line is `data: `, exactly the characters of the text,
/// white space and all, and two newlines.
pub proof fn lemma_event_carries_text(data: Seq<char>)
    ensures
        event(data).len() == data.len() + 8,
        event(data).take(6) == seq!['d', 'a', 't', 'a', ':', ' '],
        event_text(event(data)) == data,
        event(data)[event(data).len() - 2] == '\n',
        event(data)[event(data).len() - 1] == '\n',
{
    reveal_strlit("data: ");
    reveal_strlit("\n\n");
    assert(event(data).take(6) =~= seq!['d', 'a', 't', 'a', ':', ' ']);
    assert(event_text(event(data)) =~= data);
}

/// A request is told by the first two words of its first line, whatever follows them: the status is
/// asked for by `GET /api/status`, a chat by `POST /api/chat`, and anything else gets the page.
pub proof fn lemma_request_is_told_by_method_and_path(
    method: Seq<char>,
    path: Seq<char>,
    rest: Seq<char>,
)
    requires
        method.len() > 0,
        path.len() > 0,
        forall|i: int| 0 <= i < method.len() ==> !is_white(#[trigger] method[i]),
        forall|i: int| 0 <= i < path.len() ==> !is_white(#[trigger] path[i]),
        rest.len() > 0 ==> is_white(rest[0]),
    ensures
        ({
            let request = method + seq![' '] + path + rest;
            route(request) == if method == "GET"@ && path == "/api/status"@ {
                RouteView::Status
            } else if method == "POST"@ && path == "/api/chat"@ {
                RouteView::Chat(prompt_of(body_of(request)))
            } else {
                RouteView::Page
            }
        }),
{
    reveal_strlit("\r\n");
    let request = method + seq![' '] + path + rest;
    let gap = "\r\n"@;
    let m = method.len() as int;
    let e = m + 1 + path.len();
    lemma_find_from(request, gap, 0);
    let k = match find(request, gap) {
        Some(i) => i,
        None => request.len() as int,
    };
    if k < e {
        assert(request.subrange(k, k + 2)[0] == request[k]);
        assert(request[k] == '\r');
        assert(is_white('\r'));
        if k < m {
            assert(request[k] == method[k]);
        } else if k > m {
            assert(request[k] == path[k - m - 1]);
        }
        assert(false);
    }
    let line = request.take(k);
    assert(first_line(request) =~= line);
    assert forall|i: int| 0 <= i < m implies !is_white(#[trigger] line[i]) by {
        assert(line[i] == method[i]);
    }
    assert(line[m] == ' ');
    lemma_words_start_with(line, 0, m);
    assert(line.subrange(0, m) =~= method);
    let t = line.skip(m);
    let n = 1 + path.len() as int;
    assert(t[0] == ' ');
    assert forall|i: int| 1 <= i < n implies !is_white(#[trigger] t[i]) by {
        assert(t[i] == path[i - 1]);
    }
    if n < t.len() {
        assert(t[n] == rest[0]);
    }
    lemma_words_start_with(t, 1, n);
    assert(t.subrange(1, n) =~= path);
}

/// A request whose first line has no second word is not answered.
pub proof fn lemma_request_without_path_is_ignored(request: Seq<char>, i: int, j: int, k: int)
    requires
        0 <= i <= j <= k <= request.len(),
        k == request.len() || occurs_at(request, "\r\n"@, k),
        forall|l: int| 0 <= l < k ==> !(#[trigger] occurs_at(request, "\r\n"@, l)),
        forall|l: int| 0 <= l < i || j <= l < k ==> is_white(#[trigger] request[l]),
        forall|l: int| i <= l < j ==> !is_white(#[trigger] request[l]),
    ensures
        route(request) == RouteView::Ignore,
{
    reveal_strlit("\r\n");
    let gap = "\r\n"@;
    lemma_find_from(request, gap, 0);
    if k < request.len() {
        lemma_find_is_first(request, gap, k);
    } else if let Some(l) = find(request, gap) {
        assert(occurs_at(request, gap, l));
        assert(false);
    }
    let line = request.take(k);
    assert(first_line(request) =~= line);
    if i < j {
        lemma_words_start_with(line, i, j);
        let rest = line.skip(j);
        assert forall|l: int| 0 <= l < rest.len() implies is_white(#[trigger] rest[l]) by {
            assert(rest[l] == request[j + l]);
        }
        lemma_white_has_no_words(rest);
    } else {
        assert forall|l: int| 0 <= l < line.len() implies is_white(#[trigger] line[l]) by {
            assert(line[l] == request[l]);
        }
        lemma_white_has_no_words(line);
    }
}

/// Whether `answer` is a good answer of type `kind` that carries `body` unchanged: the head names
/// the type and, in decimal, the number of bytes of the body, and an empty line parts it from the
/// body.
pub open spec fn carries(answer: Seq<char>, kind: Seq<char>, body: Seq<char>) -> bool {
    let n = answer.len() - body.len();
    let head = answer.take(n - 4);
    let start = "HTTP/1.1 200 OK\r\nContent-Type: "@ + kind + "\r\n"@;
    let length = "\r\nContent-Length: "@ + decimal(encode_utf8(body).len());
    &&& answer.skip(n) == body
    &&& answer.subrange(n - 4, n) == "\r\n\r\n"@
    &&& start.is_prefix_of(head)
    &&& length.is_suffix_of(head)
}

/// The status and the page are handed over as they are, with their type and their length in bytes.
pub proof fn lemma_answers_carry_their_body(body: Seq<char>)
    ensures
        carries(json_answer(body), "application/json"@, body),
        carries(page_answer(body), "text/html"@, body),
{
    reveal_strlit(
        "HTTP/1.1 200 OK\r\nContent-Type: application/json\r\nAccess-Control-Allow-Origin: *\r\nContent-Length: ",
    );
    reveal_strlit("HTTP/1.1 200 OK\r\nContent-Type: text/html\r\nContent-Length: ");
    reveal_strlit("HTTP/1.1 200 OK\r\nContent-Type: ");
    reveal_strlit("application/json");
    reveal_strlit("text/html");
    reveal_strlit("\r\n");
    reveal_strlit("\r\n\r\n");
    reveal_strlit("\r\nContent-Length: ");
    lemma_carries(json_answer(body), "application/json"@, body);
    lemma_carries(page_answer(body), "text/html"@, body);
}

proof fn lemma_carries(answer: Seq<char>, kind: Seq<char>, body: Seq<char>)
    requires
        ({
            let n = answer.len() - body.len();
            let head = answer.take(n - 4);
            let start = "HTTP/1.1 200 OK\r\nContent-Type: "@ + kind + "\r\n"@;
            let length = "\r\nContent-Length: "@ + decimal(encode_utf8(body).len());
            &&& 4 <= n
            &&& answer.skip(n) =~= body
            &&& answer.subrange(n - 4, n) =~= "\r\n\r\n"@
            &&& start.len() <= head.len()
            &&& head.subrange(0, start.len() as int) =~= start
            &&& length.len() <= head.len()
            &&& head.subrange(head.len() - length.len(), head.len() as int) =~= length
        }),
    ensures
        carries(answer, kind, body),
{
}

} // verus!
