//! The response model: the fields of one HTTP response and the text that
//! goes on the wire for them.
use crate::headers::{
    ascending, ascending_listing, lemma_listing_canonical, lemma_listing_of_one, map_of, HeaderMap,
    Listing,
};
use crate::text::{decimal, decimal_string, occurs_at, occurs_in, str_eq};
use vstd::prelude::*;
use vstd::string::*;
use vstd::utf8::encode_utf8;

verus! {

/// The status text that belongs to a status code.
pub open spec fn reason_phrase(code: Seq<char>) -> Seq<char> {
    if code == "200"@ {
        "OK"@
    } else if code == "400"@ {
        "Bad Request"@
    } else if code == "404"@ {
        "Not Found"@
    } else if code == "500"@ {
        "Internal Server Error"@
    } else {
        "Unknown Error"@
    }
}

/// The headers that a response gets when none are supplied.
pub open spec fn default_headers() -> Map<Seq<char>, Seq<char>> {
    Map::<Seq<char>, Seq<char>>::empty().insert("Content-Type"@, "text/html"@)
}

/// One header on the wire: name, colon, value as stored, line end.
pub open spec fn header_line(name: Seq<char>, value: Seq<char>) -> Seq<char> {
    name + ":"@ + value + "\r\n"@
}

/// The header lines of a list of pairs, in the order of the list.
pub open spec fn header_lines(l: Listing) -> Seq<char>
    decreases l.len(),
{
    if l.len() == 0 {
        Seq::empty()
    } else {
        header_lines(l.drop_last()) + header_line(l.last().0, l.last().1)
    }
}

/// The header lines of a map: one line for each name, by ascending name.
pub open spec fn header_block(m: Map<Seq<char>, Seq<char>>) -> Seq<char> {
    header_lines(ascending_listing(m))
}

/// The status line: version, status code and status text.
pub open spec fn status_line(
    version: Seq<char>,
    status_code: Seq<char>,
    status_text: Seq<char>,
) -> Seq<char> {
    version + " "@ + status_code + " "@ + status_text + "\r\n"@
}

/// The line that gives the length of the body in bytes of its UTF-8 form.
pub open spec fn content_length_line(body: Seq<char>) -> Seq<char> {
    "Content-Length: "@ + decimal(encode_utf8(body).len()) + "\r\n"@
}

/// A response on the wire: status line, header lines, the length of the
/// body, an empty line, and the body.
pub open spec fn wire_text(
    version: Seq<char>,
    status_code: Seq<char>,
    status_text: Seq<char>,
    headers: Seq<char>,
    body: Seq<char>,
) -> Seq<char> {
    status_line(version, status_code, status_text) + headers + content_length_line(body) + "\r\n"@
        + body
}

/// The error type of `std::io`, which the result of `send_resp` names.
#[verifier::external_type_specification]
#[verifier::external_body]
pub struct ExIoError(std::io::Error);

/// A response: protocol version, status code, status text, headers, body.
#[derive(Debug, PartialEq, Eq, Clone)]
pub struct HttpResponse<'a> {
    pub version: &'a str,
    pub status_code: &'a str,
    pub status_text: &'a str,
    pub headers: Option<HeaderMap>,
    pub body: Option<String>,
}

impl<'a> Default for HttpResponse<'a> {
    /// The response `200 OK` of HTTP/1.1, without headers and without body.
    fn default() -> (r: Self)
        ensures
            r.version@ == "HTTP/1.1"@,
            r.status_code@ == "200"@,
            r.status_text@ == "OK"@,
            r.headers is None,
            r.body is None,
    {
        Self { version: "HTTP/1.1", status_code: "200", status_text: "OK", headers: None, body: None }
    }
}

impl<'a> HttpResponse<'a> {
    /// The header lines of this response; none where it has no header map.
    pub open spec fn header_text(&self) -> Seq<char> {
        match self.headers {
            Some(h) => header_block(h@),
            None => Seq::empty(),
        }
    }

    /// The body of this response; empty where it has none.
    pub open spec fn body_text(&self) -> Seq<char> {
        match self.body {
            Some(b) => b@,
            None => Seq::empty(),
        }
    }

    /// This response on the wire.
    pub open spec fn wire(&self) -> Seq<char> {
        wire_text(
            self.version@,
            self.status_code@,
            self.status_text@,
            self.header_text(),
            self.body_text(),
        )
    }

    /// Builds a response for a status code. The status text follows from the
    /// code; without headers the response gets the default ones.
    pub fn new(
        status_code: &'a str,
        headers: Option<HeaderMap>,
        body: Option<String>,
    ) -> (r: HttpResponse<'a>)
        ensures
            r.version@ == "HTTP/1.1"@,
            r.status_code@ == status_code@,
            r.status_text@ == reason_phrase(status_code@),
            r.headers is Some,
            r.headers.unwrap()@ == (match headers {
                Some(h) => h@,
                None => default_headers(),
            }),
            r.body == body,
    {
        let mut response: HttpResponse<'a> = HttpResponse::default();
        if !str_eq(status_code, "200") {
            response.status_code = status_code;
        }
        response.headers = match headers {
            Some(h) => Some(h),
            None => {
                let mut h = HeaderMap::new();
                h.insert(String::from_str("Content-Type"), String::from_str("text/html"));
                Some(h)
            },
        };
        response.status_text = if str_eq(response.status_code, "200") {
            "OK"
        } else if str_eq(response.status_code, "400") {
            "Bad Request"
        } else if str_eq(response.status_code, "404") {
            "Not Found"
        } else if str_eq(response.status_code, "500") {
            "Internal Server Error"
        } else {
            "Unknown Error"
        };
        response.body = body;
        response
    }

    /// The protocol version.
    pub fn version(&self) -> (r: &str)
        ensures
            r@ == self.version@,
    {
        self.version
    }

    /// The status code.
    pub fn status_code(&self) -> (r: &str)
        ensures
            r@ == self.status_code@,
    {
        self.status_code
    }

    /// The status text.
    pub fn status_text(&self) -> (r: &str)
        ensures
            r@ == self.status_text@,
    {
        self.status_text
    }

    /// The header lines, one for each name, by ascending name.
    pub fn headers(&self) -> (r: String)
        ensures
            r@ == self.header_text(),
    {
        let mut out = String::new();
        match &self.headers {
            None => {},
            Some(h) => {
                let n = h.len();
                let mut i: usize = 0;
                while i < n
                    invariant
                        n == ascending_listing(h@).len(),
                        i <= n,
                        out@ == header_lines(ascending_listing(h@).take(i as int)),
                    decreases n - i,
                {
                    let (name, value) = h.entry(i);
                    out.append(name.as_str());
                    out.append(":");
                    out.append(value.as_str());
                    out.append("\r\n");
                    proof {
                        let l = ascending_listing(h@);
                        assert(l.take(i + 1).drop_last() =~= l.take(i as int));
                        assert(l.take(i + 1).last() == l[i as int]);
                    }
                    i += 1;
                }
                assert(ascending_listing(h@).take(n as int) =~= ascending_listing(h@));
            },
        }
        out
    }

    /// The body; empty where the response has none.
    pub fn body(&self) -> (r: &str)
        ensures
            r@ == self.body_text(),
    {
        proof {
            reveal_strlit("");
        }
        match &self.body {
            Some(b) => b.as_str(),
            None => {
                assert(""@ =~= Seq::<char>::empty());
                ""
            },
        }
    }

    /// Writes the text of this response, in UTF-8, behind what `write_stream`
    /// holds, in one operation. Sending the bytes on, flushing and closing
    /// are left to the owner of the sink.
    pub fn send_resp(&self, write_stream: &mut Vec<u8>) -> (r: std::io::Result<()>)
        requires
            self.body is Some,
        ensures
            r is Ok,
            final(write_stream)@ == old(write_stream)@ + encode_utf8(self.wire()),
    {
        let text = self.serialize();
        write_stream.extend_from_slice(text.as_str().as_bytes());
        Ok(())
    }

    /// The text that goes on the wire for this response.
    pub fn serialize(&self) -> (out: String)
        requires
            self.body is Some,
        ensures
            out@ == self.wire(),
    {
        let body = self.body();
        let mut out = String::from_str(self.version());
        out.append(" ");
        out.append(self.status_code());
        out.append(" ");
        out.append(self.status_text());
        out.append("\r\n");
        out.append(self.headers().as_str());
        out.append("Content-Length: ");
        out.append(decimal_string(body.as_bytes().len()).as_str());
        out.append("\r\n");
        out.append("\r\n");
        out.append(body);
        assert(out@ =~= self.wire());
        out
    }
}

/// The lines of an ascending list of headers are the header lines of the
/// map that the list stands for: on the wire the headers stand by ascending
/// name.
pub proof fn lemma_header_block_ascends(l: Listing)
    requires
        ascending(l),
    ensures
        header_block(map_of(l)) == header_lines(l),
{
    lemma_listing_canonical(l);
}

/// Two headers with different names give the same header lines in whichever
/// order they were stored.
pub proof fn lemma_insertion_order_is_irrelevant(
    m: Map<Seq<char>, Seq<char>>,
    k1: Seq<char>,
    v1: Seq<char>,
    k2: Seq<char>,
    v2: Seq<char>,
)
    requires
        k1 != k2,
    ensures
        header_block(m.insert(k1, v1).insert(k2, v2)) == header_block(
            m.insert(k2, v2).insert(k1, v1),
        ),
{
    assert(m.insert(k1, v1).insert(k2, v2) =~= m.insert(k2, v2).insert(k1, v1));
}

/// The text of every response holds the content length line of its body,
/// directly before the empty line and the body.
pub proof fn lemma_wire_holds_content_length(
    version: Seq<char>,
    status_code: Seq<char>,
    status_text: Seq<char>,
    headers: Seq<char>,
    body: Seq<char>,
)
    ensures
        occurs_in(
            content_length_line(body),
            wire_text(version, status_code, status_text, headers, body),
        ),
{
    let head = status_line(version, status_code, status_text) + headers;
    let line = content_length_line(body);
    let wire = wire_text(version, status_code, status_text, headers, body);
    assert(wire.subrange(head.len() as int, (head.len() + line.len()) as int) =~= line);
    assert(occurs_at(line, wire, head.len() as int));
}

/// A response built without headers of its own goes on the wire with the
/// default header and the byte length of its body.
pub proof fn lemma_built_response_on_the_wire(r: HttpResponse, code: Seq<char>, body: Seq<char>)
    requires
        r.version@ == "HTTP/1.1"@,
        r.status_code@ == code,
        r.status_text@ == reason_phrase(code),
        r.headers is Some,
        r.headers.unwrap()@ == default_headers(),
        r.body is Some,
        r.body.unwrap()@ == body,
    ensures
        r.wire() == status_line("HTTP/1.1"@, code, reason_phrase(code)) + header_line(
            "Content-Type"@,
            "text/html"@,
        ) + content_length_line(body) + "\r\n"@ + body,
        occurs_in(content_length_line(body), r.wire()),
{
    lemma_listing_of_one("Content-Type"@, "text/html"@);
    let one = seq![("Content-Type"@, "text/html"@)];
    assert(one.drop_last() =~= Seq::<(Seq<char>, Seq<char>)>::empty());
    assert(header_lines(one.drop_last()) =~= Seq::<char>::empty());
    assert(header_lines(one) =~= header_line("Content-Type"@, "text/html"@));
    lemma_wire_holds_content_length(
        r.version@,
        r.status_code@,
        r.status_text@,
        r.header_text(),
        r.body_text(),
    );
}

} // verus!
