//! The request parser: from the text of one complete HTTP request to its
//! method, target, protocol version, headers and body.
use crate::headers::HeaderMap;
use crate::text::{
    chars_of, contains_chars, find_char, find_word_end, find_word_start, index_of, is_space,
    lemma_index_of_bounds, lemma_skip_spaces_bounds, lemma_skip_word_bounds, lines_from, lines_of,
    occurs_in, skip_spaces, skip_word, str_eq, strip_cr, tokens_from, tokens_of,
};
use vstd::prelude::*;
use vstd::std_specs::convert::FromSpecImpl;
use vstd::string::*;

verus! {

/// The request method.
#[derive(Debug, PartialEq, Eq, Clone, Copy, Structural)]
pub enum Method {
    Get,
    Post,
    Uninitialized,
}

/// The protocol version.
#[derive(Debug, PartialEq, Eq, Clone, Copy, Structural)]
pub enum Version {
    V1_1,
    V2_0,
    Uninitialized,
}

/// The request target, as it was received.
#[derive(Debug, PartialEq, Eq, Clone)]
pub enum Resource {
    Path(String),
}

/// The method that a token names. The match is exact in every letter; any
/// other token names no method.
pub open spec fn method_of(token: Seq<char>) -> Method {
    if token == "Get"@ {
        Method::Get
    } else if token == "Post"@ {
        Method::Post
    } else {
        Method::Uninitialized
    }
}

/// The version that a token names.
pub open spec fn version_of(token: Seq<char>) -> Version {
    if token == "HTTP/1.1"@ {
        Version::V1_1
    } else if token == "HTTP/2.0"@ {
        Version::V2_0
    } else {
        Version::Uninitialized
    }
}

impl From<&str> for Method {
    fn from(s: &str) -> (m: Method) {
        if str_eq(s, "Get") {
            Method::Get
        } else if str_eq(s, "Post") {
            Method::Post
        } else {
            Method::Uninitialized
        }
    }
}

impl FromSpecImpl<&str> for Method {
    open spec fn obeys_from_spec() -> bool {
        true
    }

    open spec fn from_spec(s: &str) -> Method {
        method_of(s@)
    }
}

impl From<&str> for Version {
    fn from(s: &str) -> (v: Version) {
        if str_eq(s, "HTTP/1.1") {
            Version::V1_1
        } else if str_eq(s, "HTTP/2.0") {
            Version::V2_0
        } else {
            Version::Uninitialized
        }
    }
}

impl FromSpecImpl<&str> for Version {
    open spec fn obeys_from_spec() -> bool {
        true
    }

    open spec fn from_spec(s: &str) -> Version {
        version_of(s@)
    }
}

impl View for Resource {
    type V = Seq<char>;

    open spec fn view(&self) -> Seq<char> {
        match self {
            Resource::Path(p) => p@,
        }
    }
}

/// The name of a header line: what stands before its first colon.
pub open spec fn header_name(line: Seq<char>) -> Seq<char> {
    line.subrange(0, index_of(line, ':', 0))
}

/// The value of a header line: what stands after its first colon, with
/// nothing trimmed.
pub open spec fn header_value(line: Seq<char>) -> Seq<char> {
    let colon = index_of(line, ':', 0);
    if colon < line.len() {
        line.subrange(colon + 1, line.len() as int)
    } else {
        Seq::empty()
    }
}

/// Splits a header line at its first colon into name and value. A line
/// without a colon is all name.
pub fn process_req_headers(line: &str) -> (pair: (String, String))
    ensures
        pair.0@ == header_name(line@),
        pair.1@ == header_value(line@),
{
    let chars = chars_of(line);
    let n = chars.len();
    let colon = find_char(&chars, ':', 0);
    let key = String::from_str(line.substring_char(0, colon));
    if colon < n {
        let value = String::from_str(line.substring_char(colon + 1, n));
        (key, value)
    } else {
        (key, String::new())
    }
}

/// The bounds of the first token at or after `from`, if there is one.
fn next_token(s: &Vec<char>, from: usize) -> (r: Option<(usize, usize)>)
    requires
        from <= s@.len(),
    ensures
        r is None ==> tokens_from(s@, from as int) == Seq::<Seq<char>>::empty(),
        r is Some ==> ({
            let (a, b) = r.unwrap();
            &&& from <= a < b <= s@.len()
            &&& tokens_from(s@, from as int) == seq![s@.subrange(a as int, b as int)] + tokens_from(
                s@,
                b as int,
            )
        }),
{
    let a = find_word_start(s, from);
    if a >= s.len() {
        return None;
    }
    let b = find_word_end(s, a);
    proof {
        lemma_skip_spaces_bounds(s@, from as int);
        lemma_skip_word_bounds(s@, a as int);
    }
    Some((a, b))
}

/// Whether a line holds the three parts of a request line.
pub fn has_request_parts(line: &str) -> (r: bool)
    ensures
        r == (tokens_of(line@).len() >= 3),
{
    let chars = chars_of(line);
    match next_token(&chars, 0) {
        None => false,
        Some((_, b0)) => match next_token(&chars, b0) {
            None => false,
            Some((_, b1)) => match next_token(&chars, b1) {
                None => false,
                Some(_) => true,
            },
        },
    }
}

/// Reads a request line: its first three tokens are the method, the target
/// and the version.
pub fn process_req_line(line: &str) -> (parts: (Method, Resource, Version))
    requires
        tokens_of(line@).len() >= 3,
    ensures
        parts.0 == method_of(tokens_of(line@)[0]),
        parts.1@ == tokens_of(line@)[1],
        parts.2 == version_of(tokens_of(line@)[2]),
{
    let chars = chars_of(line);
    let (a0, b0) = next_token(&chars, 0).unwrap();
    let (a1, b1) = next_token(&chars, b0).unwrap();
    let (a2, b2) = next_token(&chars, b1).unwrap();
    let method = Method::from(line.substring_char(a0, b0));
    let resource = Resource::Path(String::from_str(line.substring_char(a1, b1)));
    let version = Version::from(line.substring_char(a2, b2));
    (method, resource, version)
}

/// A parsed request.
#[derive(Debug, PartialEq, Eq)]
pub struct HttpRequest {
    pub method: Method,
    pub resource: Resource,
    pub version: Version,
    pub headers: HeaderMap,
    pub msg_body: String,
}

/// What a request holds, as plain values.
pub struct RequestModel {
    pub method: Method,
    pub path: Seq<char>,
    pub version: Version,
    pub headers: Map<Seq<char>, Seq<char>>,
    pub body: Seq<char>,
}

impl View for HttpRequest {
    type V = RequestModel;

    open spec fn view(&self) -> RequestModel {
        RequestModel {
            method: self.method,
            path: self.resource@,
            version: self.version,
            headers: self.headers@,
            body: self.msg_body@,
        }
    }
}

/// A line that holds the marker `HTTP` is a request line.
pub open spec fn is_request_line(line: Seq<char>) -> bool {
    occurs_in("HTTP"@, line)
}

/// A line that is no request line and holds a colon is a header line.
pub open spec fn is_header_line(line: Seq<char>) -> bool {
    !is_request_line(line) && line.contains(':')
}

/// A line that is neither of these and is not empty is a body line.
pub open spec fn is_body_line(line: Seq<char>) -> bool {
    !is_request_line(line) && !is_header_line(line) && line.len() > 0
}

/// The request before any line was read.
pub open spec fn blank_request() -> RequestModel {
    RequestModel {
        method: Method::Uninitialized,
        path: Seq::empty(),
        version: Version::V1_1,
        headers: Map::empty(),
        body: Seq::empty(),
    }
}

/// The request after one more line was read. A request line sets method,
/// target and version; a header line stores its value under its name; a body
/// line becomes the body; an empty line changes nothing.
pub open spec fn absorb(r: RequestModel, line: Seq<char>) -> RequestModel {
    if is_request_line(line) {
        RequestModel {
            method: method_of(tokens_of(line)[0]),
            path: tokens_of(line)[1],
            version: version_of(tokens_of(line)[2]),
            ..r
        }
    } else if is_header_line(line) {
        RequestModel { headers: r.headers.insert(header_name(line), header_value(line)), ..r }
    } else if is_body_line(line) {
        RequestModel { body: line, ..r }
    } else {
        r
    }
}

/// The request that a list of lines gives, read from the first to the last.
pub open spec fn request_of(lines: Seq<Seq<char>>) -> RequestModel
    decreases lines.len(),
{
    if lines.len() == 0 {
        blank_request()
    } else {
        absorb(request_of(lines.drop_last()), lines.last())
    }
}

/// Whether every request line among `lines` holds its three parts.
pub open spec fn request_lines_complete(lines: Seq<Seq<char>>) -> bool {
    forall|i: int|
        0 <= i < lines.len() && is_request_line(#[trigger] lines[i]) ==> tokens_of(lines[i]).len()
            >= 3
}

impl HttpRequest {
    /// Parses a request, or returns `None` where one of its request lines
    /// lacks a part.
    pub fn try_parse(req: String) -> (r: Option<HttpRequest>)
        ensures
            r is Some <==> request_lines_complete(lines_of(req@)),
            r is Some ==> r.unwrap()@ == request_of(lines_of(req@)),
    {
        let text = req.as_str();
        let chars = chars_of(text);
        let marker = chars_of("HTTP");
        let n = chars.len();
        let mut parsed = HttpRequest {
            method: Method::Uninitialized,
            resource: Resource::Path(String::new()),
            version: Version::V1_1,
            headers: HeaderMap::new(),
            msg_body: String::new(),
        };
        let mut from: usize = 0;
        let ghost mut done: Seq<Seq<char>> = Seq::empty();
        assert(done + lines_from(chars@, 0) =~= lines_of(req@));
        while from < n
            invariant
                n == chars@.len(),
                chars@ == req@,
                text@ == req@,
                marker@ == "HTTP"@,
                from <= n,
                lines_of(req@) == done + lines_from(chars@, from as int),
                request_lines_complete(done),
                parsed@ == request_of(done),
            decreases n - from,
        {
            let nl = find_char(&chars, '\n', from);
            let mut end = nl;
            let mut next = nl;
            if nl < n {
                next = nl + 1;
                if end > from && chars[end - 1] == '\r' {
                    end = end - 1;
                }
            }
            let line = text.substring_char(from, end);
            proof {
                let rest = lines_from(chars@, next as int);
                if nl < n {
                    assert(line@ =~= strip_cr(chars@.subrange(from as int, nl as int)));
                }
                assert(lines_from(chars@, from as int) == seq![line@] + rest);
                assert(done + (seq![line@] + rest) =~= done.push(line@) + rest);
                assert(done.push(line@).drop_last() =~= done);
            }
            let line_chars = chars_of(line);
            proof {
                lemma_index_of_bounds(line@, ':', 0);
            }
            if contains_chars(&line_chars, &marker) {
                if !has_request_parts(line) {
                    proof {
                        let all = lines_of(req@);
                        assert(all[done.len() as int] == line@);
                    }
                    return None;
                }
                let (method, resource, version) = process_req_line(line);
                parsed.method = method;
                parsed.resource = resource;
                parsed.version = version;
            } else if find_char(&line_chars, ':', 0) < line_chars.len() {
                let (key, value) = process_req_headers(line);
                parsed.headers.insert(key, value);
            } else if line_chars.len() > 0 {
                parsed.msg_body = String::from_str(line);
            }
            proof {
                done = done.push(line@);
            }
            from = next;
        }
        assert(done + lines_from(chars@, from as int) =~= done);
        Some(parsed)
    }

    /// Parses a request whose request lines each hold their three parts.
    pub fn parse(req: String) -> (r: HttpRequest)
        requires
            request_lines_complete(lines_of(req@)),
        ensures
            r@ == request_of(lines_of(req@)),
    {
        HttpRequest::try_parse(req).unwrap()
    }
}

/// The last request line decides method, target and version: they are its
/// first three tokens, whatever the other lines hold.
pub proof fn lemma_last_request_line_decides(lines: Seq<Seq<char>>, i: int)
    requires
        0 <= i < lines.len(),
        is_request_line(lines[i]),
        forall|j: int| i < j < lines.len() ==> !is_request_line(#[trigger] lines[j]),
    ensures
        request_of(lines).method == method_of(tokens_of(lines[i])[0]),
        request_of(lines).path == tokens_of(lines[i])[1],
        request_of(lines).version == version_of(tokens_of(lines[i])[2]),
    decreases lines.len(),
{
    if i < lines.len() - 1 {
        let front = lines.drop_last();
        assert(!is_request_line(lines[lines.len() - 1]));
        assert forall|j: int| i < j < front.len() implies !is_request_line(#[trigger] front[j]) by {
            assert(front[j] == lines[j]);
        }
        lemma_last_request_line_decides(front, i);
    }
}

/// Without a request line the method is not set, the target is empty and the
/// version is 1.1.
pub proof fn lemma_without_request_line(lines: Seq<Seq<char>>)
    requires
        forall|j: int| 0 <= j < lines.len() ==> !is_request_line(#[trigger] lines[j]),
    ensures
        request_of(lines).method == Method::Uninitialized,
        request_of(lines).path == Seq::<char>::empty(),
        request_of(lines).version == Version::V1_1,
    decreases lines.len(),
{
    if lines.len() > 0 {
        let front = lines.drop_last();
        assert(!is_request_line(lines[lines.len() - 1]));
        assert forall|j: int| 0 <= j < front.len() implies !is_request_line(#[trigger] front[j]) by {
            assert(front[j] == lines[j]);
        }
        lemma_without_request_line(front);
    }
}

/// The last header line with a given name decides the value stored under
/// that name: it is what follows the first colon of that line.
pub proof fn lemma_last_header_line_decides(lines: Seq<Seq<char>>, i: int)
    requires
        0 <= i < lines.len(),
        is_header_line(lines[i]),
        forall|j: int|
            i < j < lines.len() && is_header_line(#[trigger] lines[j]) ==> header_name(lines[j])
                != header_name(lines[i]),
    ensures
        request_of(lines).headers.contains_key(header_name(lines[i])),
        request_of(lines).headers[header_name(lines[i])] == header_value(lines[i]),
    decreases lines.len(),
{
    if i < lines.len() - 1 {
        let front = lines.drop_last();
        let last = lines[lines.len() - 1];
        assert(is_header_line(last) ==> header_name(last) != header_name(lines[i]));
        assert forall|j: int| i < j < front.len() && is_header_line(#[trigger] front[j]) implies
            header_name(front[j]) != header_name(front[i]) by {
            assert(front[j] == lines[j]);
        }
        lemma_last_header_line_decides(front, i);
    }
}

/// The header map holds no name but those of the header lines.
pub proof fn lemma_header_names_come_from_lines(lines: Seq<Seq<char>>, name: Seq<char>)
    requires
        request_of(lines).headers.contains_key(name),
    ensures
        exists|j: int|
            0 <= j < lines.len() && is_header_line(#[trigger] lines[j]) && header_name(lines[j])
                == name,
    decreases lines.len(),
{
    if lines.len() > 0 {
        let front = lines.drop_last();
        let last = lines[lines.len() - 1];
        if is_header_line(last) && header_name(last) == name {
        } else {
            assert(request_of(front).headers.contains_key(name));
            lemma_header_names_come_from_lines(front, name);
            let j = choose|j: int|
                0 <= j < front.len() && is_header_line(#[trigger] front[j]) && header_name(front[j])
                    == name;
            assert(lines[j] == front[j]);
        }
    }
}

/// The last body line is the body.
pub proof fn lemma_last_body_line_decides(lines: Seq<Seq<char>>, i: int)
    requires
        0 <= i < lines.len(),
        is_body_line(lines[i]),
        forall|j: int| i < j < lines.len() ==> !is_body_line(#[trigger] lines[j]),
    ensures
        request_of(lines).body == lines[i],
    decreases lines.len(),
{
    if i < lines.len() - 1 {
        let front = lines.drop_last();
        assert(!is_body_line(lines[lines.len() - 1]));
        assert forall|j: int| i < j < front.len() implies !is_body_line(#[trigger] front[j]) by {
            assert(front[j] == lines[j]);
        }
        lemma_last_body_line_decides(front, i);
    }
}

/// A name without a colon, a colon and a value make a line whose name and
/// value are these two, the value with every character it has.
pub proof fn lemma_header_line_parts(name: Seq<char>, value: Seq<char>)
    requires
        !name.contains(':'),
    ensures
        header_name(name + seq![':'] + value) == name,
        header_value(name + seq![':'] + value) == value,
{
    let line = name + seq![':'] + value;
    lemma_index_of_bounds(line, ':', 0);
    let c = index_of(line, ':', 0);
    assert(line[name.len() as int] == ':');
    if c < name.len() {
        assert(name[c] == ':');
    }
    assert(c == name.len());
    assert(line.subrange(0, c) =~= name);
    assert(line.subrange(c + 1, line.len() as int) =~= value);
}

/// A text that is not empty and holds no white space.
pub open spec fn is_word(w: Seq<char>) -> bool {
    w.len() > 0 && forall|i: int| 0 <= i < w.len() ==> !is_space(#[trigger] w[i])
}

/// A text that is not empty and holds white space only.
pub open spec fn is_gap(g: Seq<char>) -> bool {
    g.len() > 0 && forall|i: int| 0 <= i < g.len() ==> is_space(#[trigger] g[i])
}

proof fn lemma_skip_word_run(s: Seq<char>, from: int, end: int)
    requires
        0 <= from <= end <= s.len(),
        forall|j: int| from <= j < end ==> !is_space(#[trigger] s[j]),
        end == s.len() || is_space(s[end]),
    ensures
        skip_word(s, from) == end,
    decreases end - from,
{
    if from < end {
        lemma_skip_word_run(s, from + 1, end);
    }
}

proof fn lemma_skip_spaces_run(s: Seq<char>, from: int, end: int)
    requires
        0 <= from <= end <= s.len(),
        forall|j: int| from <= j < end ==> is_space(#[trigger] s[j]),
        end == s.len() || !is_space(s[end]),
    ensures
        skip_spaces(s, from) == end,
    decreases end - from,
{
    if from < end {
        lemma_skip_spaces_run(s, from + 1, end);
    }
}

/// Three words with white space between them are the three tokens of the
/// line they make.
pub proof fn lemma_tokens_of_three_words(
    m: Seq<char>,
    a: Seq<char>,
    r: Seq<char>,
    b: Seq<char>,
    v: Seq<char>,
)
    requires
        is_word(m),
        is_gap(a),
        is_word(r),
        is_gap(b),
        is_word(v),
    ensures
        tokens_of(m + a + r + b + v) == seq![m, r, v],
{
    let s = m + a + r + b + v;
    let end_m = m.len() as int;
    let start_r = end_m + a.len();
    let end_r = start_r + r.len();
    let start_v = end_r + b.len();
    let end_v = s.len() as int;
    assert forall|j: int| 0 <= j < end_m implies !is_space(#[trigger] s[j]) by {
        assert(s[j] == m[j]);
    }
    assert forall|j: int| end_m <= j < start_r implies is_space(#[trigger] s[j]) by {
        assert(s[j] == a[j - end_m]);
    }
    assert forall|j: int| start_r <= j < end_r implies !is_space(#[trigger] s[j]) by {
        assert(s[j] == r[j - start_r]);
    }
    assert forall|j: int| end_r <= j < start_v implies is_space(#[trigger] s[j]) by {
        assert(s[j] == b[j - end_r]);
    }
    assert forall|j: int| start_v <= j < end_v implies !is_space(#[trigger] s[j]) by {
        assert(s[j] == v[j - start_v]);
    }
    lemma_skip_spaces_run(s, 0, 0);
    lemma_skip_word_run(s, 0, end_m);
    lemma_skip_spaces_run(s, end_m, start_r);
    lemma_skip_word_run(s, start_r, end_r);
    lemma_skip_spaces_run(s, end_r, start_v);
    lemma_skip_word_run(s, start_v, end_v);
    lemma_skip_spaces_run(s, end_v, end_v);
    assert(s.subrange(0, end_m) =~= m);
    assert(s.subrange(start_r, end_r) =~= r);
    assert(s.subrange(start_v, end_v) =~= v);
    assert(tokens_from(s, end_v) =~= Seq::<Seq<char>>::empty());
    assert(tokens_from(s, end_r) =~= seq![v]);
    assert(tokens_from(s, end_m) =~= seq![r, v]);
    assert(tokens_from(s, 0) =~= seq![m, r, v]);
}

/// A request line made of three words with white space between them gives
/// the request its method, target and version, whatever headers and body
/// stand around it, as long as no request line follows it.
pub proof fn lemma_request_line_gives_its_words(
    lines: Seq<Seq<char>>,
    i: int,
    m: Seq<char>,
    a: Seq<char>,
    r: Seq<char>,
    b: Seq<char>,
    v: Seq<char>,
)
    requires
        0 <= i < lines.len(),
        lines[i] == m + a + r + b + v,
        is_word(m),
        is_gap(a),
        is_word(r),
        is_gap(b),
        is_word(v),
        is_request_line(lines[i]),
        forall|j: int| i < j < lines.len() ==> !is_request_line(#[trigger] lines[j]),
    ensures
        request_of(lines).method == method_of(m),
        request_of(lines).path == r,
        request_of(lines).version == version_of(v),
{
    lemma_tokens_of_three_words(m, a, r, b, v);
    lemma_last_request_line_decides(lines, i);
}

/// A header line made of a name without a colon, a colon and a value stores
/// exactly that value under that name, as long as no header line with the
/// same name follows it.
pub proof fn lemma_header_line_gives_its_value(
    lines: Seq<Seq<char>>,
    i: int,
    name: Seq<char>,
    value: Seq<char>,
)
    requires
        0 <= i < lines.len(),
        lines[i] == name + seq![':'] + value,
        !name.contains(':'),
        !is_request_line(lines[i]),
        forall|j: int|
            i < j < lines.len() && is_header_line(#[trigger] lines[j]) ==> header_name(lines[j])
                != name,
    ensures
        request_of(lines).headers.contains_key(name),
        request_of(lines).headers[name] == value,
{
    lemma_header_line_parts(name, value);
    assert(lines[i][name.len() as int] == ':');
    lemma_last_header_line_decides(lines, i);
}

} // verus!
