//! The HTTP request and response model: parsing a raw request buffer into a
//! structured [`Request`], building a [`Response`] from file contents, and
//! serializing a response back to text.

use vstd::prelude::*;
use vstd::string::*;

use crate::text::{digit_val, next_non_ws, next_ws, spec_find, spec_split, take_until_empty};
use crate::text;

verus! {

/// The line separator of the head section.
pub open spec fn crlf() -> Seq<char> {
    seq!['\r', '\n']
}

/// The blank-line sequence separating the head section from the body.
pub open spec fn blank_line() -> Seq<char> {
    seq!['\r', '\n', '\r', '\n']
}

/// The separator between a header name and its value.
pub open spec fn header_sep() -> Seq<char> {
    seq![':', ' ']
}

proof fn crlf_lit()
    ensures
        "\r\n"@ == crlf(),
{
    reveal_strlit("\r\n");
    assert("\r\n"@ =~= crlf());
}

proof fn blank_line_lit()
    ensures
        "\r\n\r\n"@ == blank_line(),
{
    reveal_strlit("\r\n\r\n");
    assert("\r\n\r\n"@ =~= blank_line());
}

proof fn header_sep_lit()
    ensures
        ": "@ == header_sep(),
{
    reveal_strlit(": ");
    assert(": "@ =~= header_sep());
}

/// A failure to parse a request buffer.  All variants are fatal for the
/// connection: no response is produced for a malformed request.
#[derive(Debug, PartialEq, Eq, Structural, Clone, Copy)]
pub enum ParseError {
    /// The blank-line separator between head and body is missing.
    MalformedRequest,
    /// The request line has fewer than three whitespace-separated tokens.
    MalformedRequestLine,
    /// The version token does not end in a decimal digit.
    MalformedVersion,
    /// A header line has no `": "` separator.
    MalformedHeader,
}

/// A failure to build a response from a resource path.
#[derive(Debug, PartialEq, Eq, Structural, Clone, Copy)]
pub enum BuildError {
    /// The file does not exist under the document root.
    NotFound,
    /// The file exists but could not be read.
    Io,
}

/// The parsed request line: method, path, and protocol minor version.
#[derive(Debug)]
pub struct Info {
    pub method: String,
    pub path: String,
    pub protocol_minor_version: i32,
}

/// The mathematical content of a parsed request line.
pub ghost struct InfoModel {
    pub method: Seq<char>,
    pub path: Seq<char>,
    pub version: u32,
}

impl View for Info {
    type V = InfoModel;

    open spec fn view(&self) -> InfoModel {
        InfoModel {
            method: self.method@,
            path: self.path@,
            version: self.protocol_minor_version as u32,
        }
    }
}

impl PartialEq for Info {
    fn eq(&self, other: &Self) -> bool {
        self.method == other.method && self.path == other.path
            && self.protocol_minor_version == other.protocol_minor_version
    }
}

impl vstd::std_specs::cmp::PartialEqSpecImpl for Info {
    open spec fn obeys_eq_spec() -> bool {
        true
    }

    open spec fn eq_spec(&self, other: &Self) -> bool {
        self.method@ == other.method@ && self.path@ == other.path@
            && self.protocol_minor_version == other.protocol_minor_version
    }
}

/// The version number carried by a version token: the value of its last
/// character as a decimal digit.
pub open spec fn spec_parse_version(tok: Seq<char>) -> Result<u32, ParseError> {
    if tok.len() == 0 {
        Err(ParseError::MalformedVersion)
    } else {
        match digit_val(tok.last()) {
            Some(d) => Ok(d),
            None => Err(ParseError::MalformedVersion),
        }
    }
}

/// The content of a request line: its first three whitespace-separated
/// tokens read as method, path and version token; tokens past the third are
/// ignored.  Fewer than three tokens is an error, as is a version token whose
/// last character is not a digit.
pub open spec fn spec_parse_info(line: Seq<char>) -> Result<InfoModel, ParseError> {
    let m0 = next_non_ws(line, 0);
    let m1 = next_ws(line, m0);
    let p0 = next_non_ws(line, m1);
    let p1 = next_ws(line, p0);
    let v0 = next_non_ws(line, p1);
    let v1 = next_ws(line, v0);
    if m0 >= line.len() || p0 >= line.len() || v0 >= line.len() {
        Err(ParseError::MalformedRequestLine)
    } else {
        match spec_parse_version(line.subrange(v0, v1)) {
            Ok(d) => Ok(
                InfoModel {
                    method: line.subrange(m0, m1),
                    path: line.subrange(p0, p1),
                    version: d,
                },
            ),
            Err(e) => Err(e),
        }
    }
}

impl Info {
    /// Parses a request line into method, path and protocol minor version.
    pub fn new(line: &str) -> (r: Result<Info, ParseError>)
        ensures
            match r {
                Ok(info) => spec_parse_info(line@) == Ok::<InfoModel, ParseError>(info@) && 0 <= info.protocol_minor_version <= 9,
                Err(e) => spec_parse_info(line@) == Err::<InfoModel, ParseError>(e),
            },
    {
        let n = line.unicode_len();
        let m0 = text::scan_to_non_ws(line, 0);
        let m1 = text::scan_to_ws(line, m0);
        let p0 = text::scan_to_non_ws(line, m1);
        let p1 = text::scan_to_ws(line, p0);
        let v0 = text::scan_to_non_ws(line, p1);
        let v1 = text::scan_to_ws(line, v0);
        if m0 >= n || p0 >= n || v0 >= n {
            return Err(ParseError::MalformedRequestLine);
        }
        let vtok = line.substring_char(v0, v1);
        let pmv = match Self::parse_version(vtok) {
            Ok(d) => d,
            Err(e) => return Err(e),
        };
        Ok(Info {
            method: String::from_str(line.substring_char(m0, m1)),
            path: String::from_str(line.substring_char(p0, p1)),
            protocol_minor_version: pmv,
        })
    }

    /// Reads the minor version from the last character of a version token.
    fn parse_version(src: &str) -> (r: Result<i32, ParseError>)
        ensures
            match r {
                Ok(d) => spec_parse_version(src@) == Ok::<u32, ParseError>(d as u32) && 0 <= d <= 9,
                Err(e) => spec_parse_version(src@) == Err::<u32, ParseError>(e),
            },
    {
        let n = src.unicode_len();
        if n == 0 {
            return Err(ParseError::MalformedVersion);
        }
        match text::digit_of(src.get_char(n - 1)) {
            Some(d) => Ok(d as i32),
            None => Err(ParseError::MalformedVersion),
        }
    }
}

/// One header: a name and a value.
#[derive(Debug)]
pub struct RequestHeader {
    pub key: String,
    pub value: String,
}

impl PartialEq for RequestHeader {
    fn eq(&self, other: &Self) -> bool {
        self.key == other.key && self.value == other.value
    }
}

impl vstd::std_specs::cmp::PartialEqSpecImpl for RequestHeader {
    open spec fn obeys_eq_spec() -> bool {
        true
    }

    open spec fn eq_spec(&self, other: &Self) -> bool {
        self.key@ == other.key@ && self.value@ == other.value@
    }
}

/// The headers of a request, in the order the header lines were inserted.
/// The mapping they denote is given by [`headers_map`]: on a duplicate name
/// the later insertion wins.
#[derive(Debug)]
pub struct RequestHeaders {
    pub headers: Vec<RequestHeader>,
}

/// The mapping denoted by a sequence of name/value pairs: each pair is added
/// in order, so the last pair with a given name decides its value.
pub open spec fn headers_map(pairs: Seq<(Seq<char>, Seq<char>)>) -> Map<Seq<char>, Seq<char>>
    decreases pairs.len(),
{
    if pairs.len() == 0 {
        Map::empty()
    } else {
        headers_map(pairs.drop_last()).insert(pairs.last().0, pairs.last().1)
    }
}

impl RequestHeaders {
    /// The name/value pairs held, in insertion order.
    pub open spec fn pairs(&self) -> Seq<(Seq<char>, Seq<char>)> {
        Seq::new(self.headers@.len(), |i: int| (self.headers@[i].key@, self.headers@[i].value@))
    }

    /// The header mapping: the last occurrence of a name decides its value.
    pub open spec fn as_map(&self) -> Map<Seq<char>, Seq<char>> {
        headers_map(self.pairs())
    }

    /// An empty header collection.
    pub fn new() -> (r: RequestHeaders)
        ensures
            r.pairs() == Seq::<(Seq<char>, Seq<char>)>::empty(),
    {
        let headers = Vec::new();
        let r = RequestHeaders { headers };
        proof {
            assert(r.pairs() =~= Seq::<(Seq<char>, Seq<char>)>::empty());
        }
        r
    }

    /// Adds a header; a later insertion of the same name overrides this one
    /// in the mapping.
    pub fn insert(&mut self, key: &str, value: &str)
        ensures
            final(self).pairs() == old(self).pairs().push((key@, value@)),
            final(self).as_map() == old(self).as_map().insert(key@, value@),
    {
        let header = RequestHeader { key: String::from_str(key), value: String::from_str(value) };
        self.headers.push(header);
        proof {
            assert(self.pairs() =~= old(self).pairs().push((key@, value@)));
            assert(self.pairs().drop_last() =~= old(self).pairs());
        }
    }

    /// Looks a name up in the mapping: the value of the last header line
    /// with that name, if any.
    pub fn get(&self, name: &str) -> (r: Option<&String>)
        ensures
            match r {
                Some(v) => self.as_map().contains_key(name@) && v@ == self.as_map()[name@],
                None => !self.as_map().contains_key(name@),
            },
    {
        let mut i = self.headers.len();
        while i > 0
            invariant
                i <= self.headers@.len(),
                forall|l: int| i <= l < self.headers@.len() ==> self.pairs()[l].0 != name@,
            decreases i,
        {
            i -= 1;
            if text::str_eq(self.headers[i].key.as_str(), name) {
                proof {
                    lemma_headers_map_found(self.pairs(), name@, i as int);
                }
                return Some(&self.headers[i].value);
            }
        }
        proof {
            lemma_headers_map_absent(self.pairs(), name@);
        }
        None
    }
}

/// If the pair at `j` is the last one with name `k`, the mapping holds its
/// value for `k`.
proof fn lemma_headers_map_found(pairs: Seq<(Seq<char>, Seq<char>)>, k: Seq<char>, j: int)
    requires
        0 <= j < pairs.len(),
        pairs[j].0 == k,
        forall|l: int| j < l < pairs.len() ==> pairs[l].0 != k,
    ensures
        headers_map(pairs).contains_key(k),
        headers_map(pairs)[k] == pairs[j].1,
    decreases pairs.len(),
{
    if j == pairs.len() - 1 {
    } else {
        assert(pairs.drop_last()[j] == pairs[j]);
        lemma_headers_map_found(pairs.drop_last(), k, j);
    }
}

/// A name that no pair carries is absent from the mapping.
proof fn lemma_headers_map_absent(pairs: Seq<(Seq<char>, Seq<char>)>, k: Seq<char>)
    requires
        forall|l: int| 0 <= l < pairs.len() ==> pairs[l].0 != k,
    ensures
        !headers_map(pairs).contains_key(k),
    decreases pairs.len(),
{
    if pairs.len() > 0 {
        lemma_headers_map_absent(pairs.drop_last(), k);
    }
}

impl PartialEq for RequestHeaders {
    fn eq(&self, other: &Self) -> (r: bool) {
        if self.headers.len() != other.headers.len() {
            proof {
                assert(self.pairs().len() != other.pairs().len());
            }
            return false;
        }
        let n = self.headers.len();
        let mut i: usize = 0;
        while i < n
            invariant
                i <= n,
                n == self.headers@.len(),
                n == other.headers@.len(),
                forall|k: int| 0 <= k < i ==> self.pairs()[k] == other.pairs()[k],
            decreases n - i,
        {
            if !(self.headers[i] == other.headers[i]) {
                proof {
                    assert(self.pairs()[i as int] != other.pairs()[i as int]);
                }
                return false;
            }
            i += 1;
        }
        proof {
            assert(self.pairs() =~= other.pairs());
        }
        true
    }
}

impl vstd::std_specs::cmp::PartialEqSpecImpl for RequestHeaders {
    open spec fn obeys_eq_spec() -> bool {
        true
    }

    open spec fn eq_spec(&self, other: &Self) -> bool {
        self.pairs() == other.pairs()
    }
}

/// Whether a header line carries the `": "` separator.
pub open spec fn header_line_ok(line: Seq<char>) -> bool {
    spec_find(line, header_sep(), 0) is Some
}

/// The name and value of a header line: the parts before and after the first
/// `": "`.
pub open spec fn spec_header_pair(line: Seq<char>) -> (Seq<char>, Seq<char>) {
    match spec_find(line, header_sep(), 0) {
        Some(i) => (line.subrange(0, i), line.subrange(i + 2, line.len() as int)),
        None => (line, line),
    }
}

/// The pairs carried by a sequence of header lines, or an error if some line
/// has no `": "` separator.
pub open spec fn spec_parse_headers(lines: Seq<Seq<char>>) -> Result<
    Seq<(Seq<char>, Seq<char>)>,
    ParseError,
> {
    if forall|i: int| 0 <= i < lines.len() ==> header_line_ok(lines[i]) {
        Ok(Seq::new(lines.len(), |i: int| spec_header_pair(lines[i])))
    } else {
        Err(ParseError::MalformedHeader)
    }
}

/// Whether the buffer carries the blank-line separator between head and
/// body.
pub open spec fn has_separator(t: Seq<char>) -> bool {
    spec_find(t, blank_line(), 0) is Some
}

/// The position of the first blank-line separator.
pub open spec fn sep_pos(t: Seq<char>) -> int {
    match spec_find(t, blank_line(), 0) {
        Some(i) => i,
        None => 0,
    }
}

/// The head section: everything before the first blank-line separator.
pub open spec fn head_of(t: Seq<char>) -> Seq<char> {
    t.subrange(0, sep_pos(t))
}

/// The body: everything after the first blank-line separator, unmodified.
pub open spec fn body_of(t: Seq<char>) -> Seq<char> {
    t.subrange(sep_pos(t) + 4, t.len() as int)
}

/// The lines of the head section.
pub open spec fn head_lines_of(t: Seq<char>) -> Seq<Seq<char>> {
    spec_split(head_of(t), crlf())
}

/// The request line: the first line of the head section.
pub open spec fn request_line_of(t: Seq<char>) -> Seq<char> {
    head_lines_of(t)[0]
}

/// The header lines: the lines after the request line, up to the first
/// empty line.
pub open spec fn header_lines_of(t: Seq<char>) -> Seq<Seq<char>> {
    take_until_empty(head_lines_of(t).drop_first())
}

/// The mathematical content of a parsed request.
pub ghost struct ReqModel {
    pub method: Seq<char>,
    pub path: Seq<char>,
    pub version: u32,
    pub headers: Seq<(Seq<char>, Seq<char>)>,
    pub body: Seq<char>,
}

/// What parsing a request buffer yields: the buffer is split at the first
/// blank line into head and body, the head's first line is read as the
/// request line and its remaining lines as headers.
pub open spec fn spec_parse_request(t: Seq<char>) -> Result<ReqModel, ParseError> {
    if !has_separator(t) {
        Err(ParseError::MalformedRequest)
    } else {
        match spec_parse_info(request_line_of(t)) {
            Err(e) => Err(e),
            Ok(info) => match spec_parse_headers(header_lines_of(t)) {
                Err(e) => Err(e),
                Ok(pairs) => Ok(
                    ReqModel {
                        method: info.method,
                        path: info.path,
                        version: info.version,
                        headers: pairs,
                        body: body_of(t),
                    },
                ),
            },
        }
    }
}

/// A structured request parsed from one buffer.
#[derive(Debug)]
pub struct Request {
    pub info: Info,
    pub headers: RequestHeaders,
    pub body: String,
    pub length: usize,
}

impl View for Request {
    type V = ReqModel;

    open spec fn view(&self) -> ReqModel {
        ReqModel {
            method: self.info.method@,
            path: self.info.path@,
            version: self.info.protocol_minor_version as u32,
            headers: self.headers.pairs(),
            body: self.body@,
        }
    }
}

impl PartialEq for Request {
    fn eq(&self, other: &Self) -> bool {
        self.info == other.info && self.headers == other.headers && self.body == other.body
            && self.length == other.length
    }
}

impl vstd::std_specs::cmp::PartialEqSpecImpl for Request {
    open spec fn obeys_eq_spec() -> bool {
        true
    }

    open spec fn eq_spec(&self, other: &Self) -> bool {
        self.info.method@ == other.info.method@ && self.info.path@ == other.info.path@
            && self.info.protocol_minor_version == other.info.protocol_minor_version
            && self.headers.pairs() == other.headers.pairs() && self.body@ == other.body@
            && self.length == other.length
    }
}

impl Request {
    /// The recorded length is the byte length of the body.
    pub open spec fn wf(&self) -> bool {
        self.length == text::byte_len(self.body@)
    }

    /// Parses a raw request buffer into a structured request.
    pub fn new(src: &str) -> (r: Result<Request, ParseError>)
        ensures
            match r {
                Ok(req) => spec_parse_request(src@) == Ok::<ReqModel, ParseError>(req@)
                    && req.wf(),
                Err(e) => spec_parse_request(src@) == Err::<ReqModel, ParseError>(e),
            },
    {
        let (first, hlines, body) = match Self::split_content(src) {
            Ok(parts) => parts,
            Err(e) => {
                return Err(e);
            },
        };
        let info = match Info::new(first) {
            Ok(i) => i,
            Err(e) => {
                return Err(e);
            },
        };
        let headers = match Self::parse_headers(hlines) {
            Ok(h) => h,
            Err(e) => {
                return Err(e);
            },
        };
        let length = body.as_bytes().len();
        Ok(Request { info, headers, body: String::from_str(body), length })
    }

    /// Splits the buffer into the request line, the header lines and the
    /// body.
    fn split_content<'a>(src: &'a str) -> (r: Result<(&'a str, Vec<&'a str>, &'a str), ParseError>)
        ensures
            match r {
                Ok(parts) => has_separator(src@) && parts.0@ == request_line_of(src@)
                    && parts.1.deep_view() == header_lines_of(src@) && parts.2@ == body_of(src@),
                Err(e) => !has_separator(src@) && e == ParseError::MalformedRequest,
            },
    {
        proof {
            blank_line_lit();
        }
        let n = src.unicode_len();
        match text::find_in(src, "\r\n\r\n", 0) {
            None => Err(ParseError::MalformedRequest),
            Some(sep) => {
                proof {
                    text::lemma_find_props(src@, blank_line(), 0);
                }
                let head = src.substring_char(0, sep);
                let body = src.substring_char(sep + 4, n);
                proof {
                    crlf_lit();
                }
                let lines = text::split_pat(head, "\r\n");
                proof {
                    assert(spec_split(head@, crlf()).len() >= 1);
                }
                let first = lines[0];
                let hlines = text::lines_until_empty(&lines, 1);
                proof {
                    assert(lines.deep_view().skip(1) =~= head_lines_of(src@).drop_first());
                }
                Ok((first, hlines, body))
            },
        }
    }

    /// Parses a batch of header lines into a header collection.
    pub fn parse_headers(lines: Vec<&str>) -> (r: Result<RequestHeaders, ParseError>)
        ensures
            match r {
                Ok(h) => spec_parse_headers(lines.deep_view()) == Ok::<
                    Seq<(Seq<char>, Seq<char>)>,
                    ParseError,
                >(h.pairs()),
                Err(e) => spec_parse_headers(lines.deep_view()) == Err::<
                    Seq<(Seq<char>, Seq<char>)>,
                    ParseError,
                >(e),
            },
    {
        proof {
            header_sep_lit();
        }
        let mut headers = RequestHeaders::new();
        let mut idx: usize = 0;
        while idx < lines.len()
            invariant
                idx <= lines@.len(),
                forall|k: int| 0 <= k < idx ==> header_line_ok(lines.deep_view()[k]),
                headers.pairs() == Seq::new(
                    idx as nat,
                    |i: int| spec_header_pair(lines.deep_view()[i]),
                ),
            decreases lines@.len() - idx,
        {
            let line = lines[idx];
            proof {
                header_sep_lit();
                assert(lines.deep_view()[idx as int] == line@);
            }
            match text::find_in(line, ": ", 0) {
                None => {
                    proof {
                        assert(!header_line_ok(lines.deep_view()[idx as int]));
                    }
                    return Err(ParseError::MalformedHeader);
                },
                Some(i) => {
                    proof {
                        text::lemma_find_props(line@, header_sep(), 0);
                    }
                    let name = line.substring_char(0, i);
                    let m = line.unicode_len();
                    let value = line.substring_char(i + 2, m);
                    let ghost before = headers.pairs();
                    headers.insert(name, value);
                    proof {
                        assert(headers.pairs() =~= Seq::new(
                            (idx + 1) as nat,
                            |i: int| spec_header_pair(lines.deep_view()[i]),
                        ));
                    }
                    idx += 1;
                },
            }
        }
        proof {
            assert(headers.pairs() =~= Seq::new(
                lines.deep_view().len(),
                |i: int| spec_header_pair(lines.deep_view()[i]),
            ));
        }
        Ok(headers)
    }

    /// The resource named by the request: its path, used verbatim as a
    /// relative file path.
    pub fn resource(&self) -> (r: &str)
        ensures
            r@ == self.info.path@,
    {
        self.info.path.as_str()
    }
}

/// A response status: a numeric code with its reason text.
#[derive(Debug)]
pub struct Status {
    pub code: u32,
    pub text: String,
}

impl PartialEq for Status {
    fn eq(&self, other: &Self) -> bool {
        self.code == other.code && self.text == other.text
    }
}

impl vstd::std_specs::cmp::PartialEqSpecImpl for Status {
    open spec fn obeys_eq_spec() -> bool {
        true
    }

    open spec fn eq_spec(&self, other: &Self) -> bool {
        self.code == other.code && self.text@ == other.text@
    }
}

/// One response header: a fixed name and its value.
#[derive(Debug)]
pub struct ResponseHeader {
    pub key: &'static str,
    pub value: String,
}

impl PartialEq for ResponseHeader {
    fn eq(&self, other: &Self) -> (r: bool) {
        text::str_eq(self.key, other.key) && self.value == other.value
    }
}

impl vstd::std_specs::cmp::PartialEqSpecImpl for ResponseHeader {
    open spec fn obeys_eq_spec() -> bool {
        true
    }

    open spec fn eq_spec(&self, other: &Self) -> bool {
        self.key@ == other.key@ && self.value@ == other.value@
    }
}

/// The headers of a response, serialized in insertion order.
#[derive(Debug)]
pub struct ResponseHeaders {
    pub headers: Vec<ResponseHeader>,
}

impl ResponseHeaders {
    /// The name/value pairs held, in insertion order.
    pub open spec fn pairs(&self) -> Seq<(Seq<char>, Seq<char>)> {
        Seq::new(self.headers@.len(), |i: int| (self.headers@[i].key@, self.headers@[i].value@))
    }

    /// An empty header collection.
    pub fn new() -> (r: ResponseHeaders)
        ensures
            r.pairs() == Seq::<(Seq<char>, Seq<char>)>::empty(),
    {
        let headers = Vec::new();
        let r = ResponseHeaders { headers };
        proof {
            assert(r.pairs() =~= Seq::<(Seq<char>, Seq<char>)>::empty());
        }
        r
    }

    /// Appends a header.
    pub fn insert(&mut self, key: &'static str, value: String)
        ensures
            final(self).pairs() == old(self).pairs().push((key@, value@)),
    {
        let header = ResponseHeader { key, value };
        self.headers.push(header);
        proof {
            assert(self.pairs() =~= old(self).pairs().push((key@, value@)));
        }
    }
}

impl PartialEq for ResponseHeaders {
    fn eq(&self, other: &Self) -> (r: bool) {
        if self.headers.len() != other.headers.len() {
            proof {
                assert(self.pairs().len() != other.pairs().len());
            }
            return false;
        }
        let n = self.headers.len();
        let mut i: usize = 0;
        while i < n
            invariant
                i <= n,
                n == self.headers@.len(),
                n == other.headers@.len(),
                forall|k: int| 0 <= k < i ==> self.pairs()[k] == other.pairs()[k],
            decreases n - i,
        {
            if !(self.headers[i] == other.headers[i]) {
                proof {
                    assert(self.pairs()[i as int] != other.pairs()[i as int]);
                }
                return false;
            }
            i += 1;
        }
        proof {
            assert(self.pairs() =~= other.pairs());
        }
        true
    }
}

impl vstd::std_specs::cmp::PartialEqSpecImpl for ResponseHeaders {
    open spec fn obeys_eq_spec() -> bool {
        true
    }

    open spec fn eq_spec(&self, other: &Self) -> bool {
        self.pairs() == other.pairs()
    }
}

/// The headers of a built response: `Content-Length` is the byte length of
/// the body, rendered in decimal; the content type, server name and
/// connection policy are fixed.
pub open spec fn spec_response_headers(body: Seq<char>) -> Seq<(Seq<char>, Seq<char>)> {
    seq![
        ("Content-Length"@, text::dec_digits(text::byte_len(body) as int)),
        ("Content-Type"@, "text/html"@),
        ("Server"@, "LittleHTTP/1.0"@),
        ("Connection"@, "Close"@),
    ]
}

/// One serialized header line.
pub open spec fn spec_header_show(h: (Seq<char>, Seq<char>)) -> Seq<char> {
    h.0 + ": "@ + h.1
}

/// The serialized header block: header lines joined by line separators.
pub open spec fn spec_headers_show(hs: Seq<(Seq<char>, Seq<char>)>) -> Seq<char>
    decreases hs.len(),
{
    if hs.len() == 0 {
        Seq::empty()
    } else if hs.len() == 1 {
        spec_header_show(hs[0])
    } else {
        spec_headers_show(hs.drop_last()) + "\r\n"@ + spec_header_show(hs.last())
    }
}

/// A structured response: status line, headers and body.
#[derive(Debug)]
pub struct Response {
    pub version: &'static str,
    pub status: Status,
    pub headers: ResponseHeaders,
    pub body: String,
}

impl PartialEq for Response {
    fn eq(&self, other: &Self) -> (r: bool) {
        text::str_eq(self.version, other.version) && self.status == other.status
            && self.headers == other.headers && self.body == other.body
    }
}

impl vstd::std_specs::cmp::PartialEqSpecImpl for Response {
    open spec fn obeys_eq_spec() -> bool {
        true
    }

    open spec fn eq_spec(&self, other: &Self) -> bool {
        self.version@ == other.version@ && self.status.code == other.status.code
            && self.status.text@ == other.status.text@ && self.headers.pairs()
            == other.headers.pairs() && self.body@ == other.body@
    }
}

impl Response {
    /// The serialized form: status line, header lines, a blank line, then
    /// the body.
    pub open spec fn show_spec(&self) -> Seq<char> {
        self.version@ + " "@ + text::dec_digits(self.status.code as int) + " "@
            + self.status.text@ + "\r\n"@ + spec_headers_show(self.headers.pairs()) + "\r\n\r\n"@
            + self.body@
    }

    /// Builds the response for a successfully read file: status `200 OK`,
    /// the fixed header set, and the file contents as the body.  The
    /// `Content-Length` header always equals the byte length of the body.
    pub fn new(body: String) -> (r: Response)
        ensures
            r.version@ == "HTTP/1.0"@,
            r.status.code == 200,
            r.status.text@ == "OK"@,
            r.headers.pairs() == spec_response_headers(body@),
            r.body@ == body@,
    {
        Self::with_status(200, "OK", body)
    }

    /// Builds a response with a caller-chosen status, as a fallback page
    /// needs: the status line then distinguishes it from a `200 OK` success.
    /// Headers and body are formed exactly as for a success.
    pub fn with_status(code: u32, text: &str, body: String) -> (r: Response)
        ensures
            r.version@ == "HTTP/1.0"@,
            r.status.code == code,
            r.status.text@ == text@,
            r.headers.pairs() == spec_response_headers(body@),
            r.body@ == body@,
    {
        let headers = Self::make_headers(&body);
        let status = Status { code, text: String::from_str(text) };
        Response { version: "HTTP/1.0", status, headers, body }
    }

    /// The fixed header set for a body: its byte length, the content type,
    /// the server name, and the close-connection marker.
    fn make_headers(body: &String) -> (r: ResponseHeaders)
        ensures
            r.pairs() == spec_response_headers(body@),
    {
        let mut headers: ResponseHeaders = ResponseHeaders::new();
        let length = body.as_str().as_bytes().len();
        headers.insert("Content-Length", text::dec_string(length));
        headers.insert("Content-Type", String::from_str("text/html"));
        headers.insert("Server", String::from_str("LittleHTTP/1.0"));
        headers.insert("Connection", String::from_str("Close"));
        proof {
            assert(headers.pairs() =~= spec_response_headers(body@));
        }
        headers
    }

    /// The file path a resource resolves to: the document root with the
    /// resource path appended verbatim.
    pub fn make_path(docroot: &str, filename: &str) -> (r: String)
        ensures
            r@ == docroot@ + filename@,
    {
        let mut path = String::from_str(docroot);
        path.append(filename);
        path
    }

    /// Serializes the response.
    pub fn show(&self) -> (r: String)
        ensures
            r@ == self.show_spec(),
    {
        let mut out = String::from_str(self.version);
        out.append(" ");
        let code = text::dec_string(self.status.code as usize);
        out.append(code.as_str());
        out.append(" ");
        out.append(self.status.text.as_str());
        out.append("\r\n");
        let ghost status_part = self.version@ + " "@ + text::dec_digits(self.status.code as int)
            + " "@ + self.status.text@ + "\r\n"@;
        proof {
            assert(out@ =~= status_part);
        }
        let n = self.headers.headers.len();
        let mut i: usize = 0;
        while i < n
            invariant
                i <= n,
                n == self.headers.headers@.len(),
                out@ == status_part + spec_headers_show(self.headers.pairs().take(i as int)),
            decreases n - i,
        {
            if i > 0 {
                out.append("\r\n");
            }
            out.append(self.headers.headers[i].key);
            out.append(": ");
            out.append(self.headers.headers[i].value.as_str());
            proof {
                let pairs = self.headers.pairs();
                assert(pairs.take(i + 1).drop_last() =~= pairs.take(i as int));
                assert(pairs.take(i + 1).last() == pairs[i as int]);
                if i == 0 {
                    assert(out@ =~= status_part + spec_headers_show(pairs.take(1)));
                } else {
                    assert(out@ =~= status_part + spec_headers_show(pairs.take(i + 1)));
                }
            }
            i += 1;
        }
        proof {
            assert(self.headers.pairs().take(n as int) =~= self.headers.pairs());
        }
        out.append("\r\n\r\n");
        out.append(self.body.as_str());
        proof {
            assert(out@ =~= self.show_spec());
        }
        out
    }
}

/// Turns an optional value into a result, substituting `err` for a missing
/// value.
pub fn to_result<T, E>(value: Option<T>, err: E) -> (r: Result<T, E>)
    ensures
        match value {
            Some(t) => r == Result::<T, E>::Ok(t),
            None => r == Result::<T, E>::Err(err),
        },
{
    match value {
        Some(t) => Ok(t),
        None => Err(err),
    }
}

} // verus!
