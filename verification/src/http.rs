//! HTTP/1.1 messages: what a client sends and how it reads the reply, what a
//! server reads and how it answers.

use vstd::prelude::*;
use vstd::utf8;
use crate::bytes;
use crate::digits;
use crate::table;
use crate::text;
use crate::url;

verus! {

// ------------------------------------------------------------------ headers

/// The value of the first header with the given name, whatever its case.
pub open spec fn first_value(h: Seq<(Seq<char>, Seq<char>)>, name: Seq<char>) -> Option<Seq<char>>
    decreases h.len(),
{
    if h.len() == 0 {
        None
    } else if text::lowered(h[0].0) == text::lowered(name) {
        Some(h[0].1)
    } else {
        first_value(h.skip(1), name)
    }
}

/// The values of all headers with the given name, whatever its case.
pub open spec fn all_values(h: Seq<(Seq<char>, Seq<char>)>, name: Seq<char>) -> Seq<Seq<char>>
    decreases h.len(),
{
    if h.len() == 0 {
        Seq::empty()
    } else if text::lowered(h.last().0) == text::lowered(name) {
        all_values(h.drop_last(), name).push(h.last().1)
    } else {
        all_values(h.drop_last(), name)
    }
}

/// Borrowed texts as sequences of characters.
pub open spec fn slices(v: Seq<&str>) -> Seq<Seq<char>> {
    Seq::new(v.len(), |i: int| v[i]@)
}

/// Finds the first header with the given name.
fn find_header(h: &Vec<(String, String)>, name: &str) -> (r: Option<usize>)
    ensures
        match r {
            Some(i) => i < h@.len() && first_value(table::pairs(h@), name@) == Some(
                h@[i as int].1@,
            ),
            None => first_value(table::pairs(h@), name@) is None,
        },
{
    let wanted = text::lower(name);
    let mut i: usize = 0;
    assert(table::pairs(h@).skip(0) =~= table::pairs(h@));
    while i < h.len()
        invariant
            i <= h@.len(),
            wanted@ == text::lowered(name@),
            first_value(table::pairs(h@), name@) == first_value(
                table::pairs(h@).skip(i as int),
                name@,
            ),
        decreases h@.len() - i,
    {
        if text::lower(h[i].0.as_str()) == wanted {
            return Some(i);
        }
        i = i + 1;
        assert(table::pairs(h@).skip(i - 1).skip(1) =~= table::pairs(h@).skip(i as int));
    }
    None
}

// ------------------------------------------------------------------- client

/// A reply to a request.
#[derive(Debug, Clone)]
pub struct Resp {
    pub status: u16,
    pub headers: Vec<(String, String)>,
    pub body: String,
}

/// The contents of a reply.
#[verifier::ext_equal]
pub ghost struct RespView {
    pub status: nat,
    pub headers: Seq<(Seq<char>, Seq<char>)>,
    pub body: Seq<char>,
}

impl View for Resp {
    type V = RespView;

    open spec fn view(&self) -> RespView {
        RespView {
            status: self.status as nat,
            headers: table::pairs(self.headers@),
            body: self.body@,
        }
    }
}

impl Resp {
    /// The value of the first header with the given name, whatever its case.
    pub fn header(&self, name: &str) -> (r: Option<&str>)
        ensures
            match r {
                Some(v) => first_value(table::pairs(self.headers@), name@) == Some(v@),
                None => first_value(table::pairs(self.headers@), name@) is None,
            },
    {
        match find_header(&self.headers, name) {
            Some(i) => Some(self.headers[i].1.as_str()),
            None => None,
        }
    }

    /// All values for a header, which may repeat as `Set-Cookie` does.
    pub fn headers_all(&self, name: &str) -> (r: Vec<&str>)
        ensures
            slices(r@) == all_values(table::pairs(self.headers@), name@),
    {
        let wanted = text::lower(name);
        let ghost ps = table::pairs(self.headers@);
        let mut out: Vec<&str> = Vec::new();
        let mut i: usize = 0;
        assert(slices(out@) =~= Seq::<Seq<char>>::empty());
        while i < self.headers.len()
            invariant
                i <= self.headers@.len(),
                wanted@ == text::lowered(name@),
                ps == table::pairs(self.headers@),
                slices(out@) == all_values(ps.take(i as int), name@),
            decreases self.headers@.len() - i,
        {
            let ghost was = out@;
            if text::lower(self.headers[i].0.as_str()) == wanted {
                out.push(self.headers[i].1.as_str());
                assert(slices(out@) =~= slices(was).push(ps[i as int].1));
            }
            i = i + 1;
            assert(ps.take(i as int).drop_last() =~= ps.take(i - 1));
        }
        assert(ps.take(i as int) =~= ps);
        out
    }
}

/// The host, the port and the path with the query of an address.
pub open spec fn url_parts(url: Seq<char>) -> Option<(Seq<char>, nat, Seq<char>)> {
    match text::after(url, "http://"@) {
        None => None,
        Some(rest) => {
            let i = text::first_in(rest, seq!['/'], 0);
            let authority = rest.take(i);
            let path = if i < rest.len() {
                rest.skip(i)
            } else {
                "/"@
            };
            let c = text::last_of(authority, ':', authority.len() as int);
            if c >= 0 {
                let port = match digits::unsigned(authority.skip(c + 1), 10, 65535) {
                    Some(p) => p,
                    None => 80,
                };
                Some((authority.take(c), port, path))
            } else {
                Some((authority, 80, path))
            }
        },
    }
}

/// What is said of an address that is not one of plain HTTP.
pub const NO_TLS: &'static str = "only http:// URLs are supported (no TLS in this build)";

/// Splits `http://host[:port]/path?query` into the host, the port and the path with the query.
pub fn split_url(url: &str) -> (r: Result<(String, u16, String), String>)
    ensures
        match r {
            Ok(p) => url_parts(url@) == Some((p.0@, p.1 as nat, p.2@)),
            Err(e) => url_parts(url@) is None && e@ == NO_TLS@,
        },
{
    match text::strip_prefix(url, "http://") {
        None => Err(NO_TLS.to_string()),
        Some(rest) => {
            let cs = text::chars_of(rest.as_str());
            let slash: Vec<char> = vec!['/'];
            assert(slash@ =~= seq!['/']);
            let i = text::find_in(&cs, &slash, 0);
            let n = cs.len();
            let path = if i < n {
                text::string_of(&cs, i, n)
            } else {
                "/".to_string()
            };
            let authority = text::chars_of(text::string_of(&cs, 0, i).as_str());
            assert(rest@.subrange(0, i as int) =~= rest@.take(i as int));
            assert(rest@.subrange(i as int, n as int) =~= rest@.skip(i as int));
            let m = authority.len();
            match text::find_last(&authority, ':') {
                Some(c) => {
                    let host = text::string_of(&authority, 0, c);
                    let port_text = text::string_of(&authority, c + 1, m);
                    assert(authority@.subrange(0, c as int) =~= authority@.take(c as int));
                    assert(authority@.subrange(c + 1, m as int) =~= authority@.skip(c + 1));
                    let port: u16 = match digits::read_unsigned(port_text.as_str(), 10, 65535) {
                        Some(p) => p as u16,
                        None => 80,
                    };
                    Ok((host, port, path))
                },
                None => {
                    let host = text::string_of(&authority, 0, m);
                    assert(authority@.subrange(0, m as int) =~= authority@);
                    Ok((host, 80, path))
                },
            }
        },
    }
}

/// Header lines as they are sent.
pub open spec fn header_lines(h: Seq<(Seq<char>, Seq<char>)>) -> Seq<char>
    decreases h.len(),
{
    if h.len() == 0 {
        Seq::empty()
    } else {
        header_lines(h.drop_last()) + h.last().0 + ": "@ + h.last().1 + "\r\n"@
    }
}

/// Whether some header has the given name in small letters.
pub open spec fn names(h: Seq<(Seq<char>, Seq<char>)>, name: Seq<char>) -> bool {
    exists|i: int| 0 <= i < h.len() && text::lowered(#[trigger] h[i].0) == name
}

/// What follows the headers of a request: the length of the body, where it is not empty and the
/// headers do not give one, then an empty line and the body.
pub open spec fn tail_text(h: Seq<(Seq<char>, Seq<char>)>, body: Option<Seq<char>>) -> Seq<char> {
    match body {
        Some(b) if b.len() > 0 => {
            let length = if names(h, "content-length"@) {
                Seq::empty()
            } else {
                "Content-Length: "@ + digits::decimal(utf8::encode_utf8(b).len()) + "\r\n"@
            };
            length + "\r\n"@ + b
        },
        _ => "\r\n"@,
    }
}

/// A request as it is sent.
pub open spec fn request_text(
    method: Seq<char>,
    host: Seq<char>,
    port: nat,
    path: Seq<char>,
    h: Seq<(Seq<char>, Seq<char>)>,
    body: Option<Seq<char>>,
) -> Seq<char> {
    method + " "@ + path + " HTTP/1.1\r\nHost: "@ + host + ":"@ + digits::decimal(port)
        + "\r\nConnection: close\r\nUser-Agent: vps-probe/2.0\r\n"@ + header_lines(h) + tail_text(
        h,
        body,
    )
}

/// An optional text.
pub open spec fn maybe(s: Option<String>) -> Option<Seq<char>> {
    match s {
        Some(t) => Some(t@),
        None => None,
    }
}

/// A request to make: where to connect, and what to send there.
#[derive(Debug)]
pub struct Outgoing {
    pub host: String,
    pub port: u16,
    pub text: String,
}

/// A request: the method, the address, extra headers and the body.
#[derive(Debug)]
pub struct Call {
    pub method: String,
    pub url: String,
    pub headers: Vec<(String, String)>,
    pub body: Option<String>,
}

/// The contents of a call.
#[verifier::ext_equal]
pub ghost struct CallView {
    pub method: Seq<char>,
    pub url: Seq<char>,
    pub headers: Seq<(Seq<char>, Seq<char>)>,
    pub body: Option<Seq<char>>,
}

impl View for Call {
    type V = CallView;

    open spec fn view(&self) -> CallView {
        CallView {
            method: self.method@,
            url: self.url@,
            headers: table::pairs(self.headers@),
            body: maybe(self.body),
        }
    }
}

impl Call {
    /// Lays out the request, or says that the address is not one of plain HTTP.
    pub fn outgoing(&self) -> (r: Result<Outgoing, String>)
        ensures
            match r {
                Ok(o) => url_parts(self.url@) matches Some(p) && o.host@ == p.0 && o.port == p.1
                    && o.text@ == request_text(
                    self.method@,
                    p.0,
                    p.1,
                    p.2,
                    table::pairs(self.headers@),
                    maybe(self.body),
                ),
                Err(e) => url_parts(self.url@) is None && e@ == NO_TLS@,
            },
    {
        let (host, port, path) = match split_url(self.url.as_str()) {
            Ok(p) => p,
            Err(e) => {
                return Err(e);
            },
        };
        let mut req = String::new();
        text::put(&mut req, self.method.as_str());
        text::put(&mut req, " ");
        text::put(&mut req, path.as_str());
        text::put(&mut req, " HTTP/1.1\r\nHost: ");
        text::put(&mut req, host.as_str());
        text::put(&mut req, ":");
        digits::put_decimal(&mut req, port as u64);
        text::put(&mut req, "\r\nConnection: close\r\nUser-Agent: vps-probe/2.0\r\n");
        let ghost start = req@;
        let ghost ps = table::pairs(self.headers@);
        let mut has_len = false;
        let mut i: usize = 0;
        let length_name = "content-length".to_string();
        assert(start + Seq::<char>::empty() =~= start);
        while i < self.headers.len()
            invariant
                i <= self.headers@.len(),
                ps == table::pairs(self.headers@),
                length_name@ == "content-length"@,
                req@ == start + header_lines(ps.take(i as int)),
                has_len == names(ps.take(i as int), "content-length"@),
            decreases self.headers@.len() - i,
        {
            let ghost was = req@;
            let ghost known = has_len;
            let (k, v) = (&self.headers[i].0, &self.headers[i].1);
            if text::lower(k.as_str()) == length_name {
                has_len = true;
            }
            text::put(&mut req, k.as_str());
            text::put(&mut req, ": ");
            text::put(&mut req, v.as_str());
            text::put(&mut req, "\r\n");
            i = i + 1;
            proof {
                let now = ps.take(i as int);
                let old_part = ps.take(i - 1);
                assert(now.drop_last() =~= old_part);
                assert(now.last() == ps[i - 1]);
                assert(req@ =~= start + header_lines(now));
                if known {
                    let w = choose|w: int|
                        0 <= w < old_part.len() && text::lowered(#[trigger] old_part[w].0)
                            == "content-length"@;
                    assert(now[w] == old_part[w]);
                }
                if names(now, "content-length"@) {
                    let w = choose|w: int|
                        0 <= w < now.len() && text::lowered(#[trigger] now[w].0)
                            == "content-length"@;
                    if w < i - 1 {
                        assert(old_part[w] == now[w]);
                    }
                }
                if has_len && !known {
                    assert(text::lowered(now[i - 1].0) == "content-length"@);
                }
            }
        }
        assert(ps.take(i as int) =~= ps);
        let ghost before = req@;
        match &self.body {
            Some(b) if b.as_str().unicode_len() > 0 => {
                if !has_len {
                    text::put(&mut req, "Content-Length: ");
                    digits::put_decimal(&mut req, bytes::bytes_of(b.as_str()).len() as u64);
                    text::put(&mut req, "\r\n");
                }
                text::put(&mut req, "\r\n");
                text::put(&mut req, b.as_str());
            },
            _ => {
                text::put(&mut req, "\r\n");
            },
        }
        assert(req@ =~= before + tail_text(ps, maybe(self.body)));
        Ok(Outgoing { host, port, text: req })
    }
}

/// A line without the line end.
pub open spec fn bare(line: Seq<char>) -> Seq<char> {
    text::strip_end(line, "\r\n"@)
}

/// The name and the value of a header line, where it has a colon.
pub open spec fn field_of(t: Seq<char>) -> Option<(Seq<char>, Seq<char>)> {
    let i = text::first_in(t, seq![':'], 0);
    if 0 <= i < t.len() {
        Some((text::trimmed(t.take(i)), text::trimmed(t.skip(i + 1))))
    } else {
        None
    }
}

/// Reads a header line.
fn read_field(t: &str) -> (r: Option<(String, String)>)
    ensures
        match r {
            Some(p) => field_of(t@) == Some((p.0@, p.1@)),
            None => field_of(t@) is None,
        },
{
    let cs = text::chars_of(t);
    let colon: Vec<char> = vec![':'];
    assert(colon@ =~= seq![':']);
    let i = text::find_in(&cs, &colon, 0);
    let n = cs.len();
    if i < n {
        let k = text::trim(text::string_of(&cs, 0, i).as_str());
        let v = text::trim(text::string_of(&cs, i + 1, n).as_str());
        assert(t@.subrange(0, i as int) =~= t@.take(i as int));
        assert(t@.subrange(i + 1, n as int) =~= t@.skip(i + 1));
        Some((k, v))
    } else {
        None
    }
}

/// A number of bytes, where the text is one.
pub open spec fn size_of(v: Option<Seq<char>>) -> Option<nat> {
    match v {
        Some(s) => digits::unsigned(s, 10, usize::MAX as nat),
        None => None,
    }
}

/// Whether the headers say that the body comes in chunks.
pub open spec fn chunked(h: Seq<(Seq<char>, Seq<char>)>) -> bool {
    first_value(h, "transfer-encoding"@) matches Some(v) && text::occurs(
        text::lowered(v),
        "chunked"@,
    )
}

/// The size that the line before a chunk gives, or 0.
pub open spec fn chunk_size(line: Seq<char>) -> nat {
    match digits::unsigned(
        text::fields(text::trimmed(line), seq![';'])[0],
        16,
        usize::MAX as nat,
    ) {
        Some(n) => n,
        None => 0,
    }
}

/// Where the reading of a reply stands: before the status line, among the headers, before a body
/// of a known length, before the size of a chunk, before a chunk, between two chunks, before a body
/// that ends with the connection, or at the end.
#[derive(Debug, Clone, Copy, PartialEq, Eq, Structural)]
pub enum Stage {
    Status,
    Headers,
    Length(usize),
    Size,
    Chunk(usize),
    Gap,
    Rest,
    Done,
}

/// What a reader is to get from the connection next: a line, a number of bytes or as many as come
/// before the end, everything up to the end, or nothing more.
#[derive(Debug, Clone, Copy, PartialEq, Eq, Structural)]
pub enum Want {
    Line,
    Bytes(usize),
    Rest,
    Nothing,
}

/// The reading of a reply.
#[derive(Debug)]
pub struct Reading {
    pub stage: Stage,
    pub status: u16,
    pub headers: Vec<(String, String)>,
    pub body: Vec<u8>,
}

/// The contents of the reading of a reply.
#[verifier::ext_equal]
pub ghost struct ReadingView {
    pub stage: Stage,
    pub status: nat,
    pub headers: Seq<(Seq<char>, Seq<char>)>,
    pub body: Seq<u8>,
}

impl View for Reading {
    type V = ReadingView;

    open spec fn view(&self) -> ReadingView {
        ReadingView {
            stage: self.stage,
            status: self.status as nat,
            headers: table::pairs(self.headers@),
            body: self.body@,
        }
    }
}

/// The reading before anything has come.
pub open spec fn unread() -> ReadingView {
    ReadingView { stage: Stage::Status, status: 0, headers: Seq::empty(), body: Seq::empty() }
}

/// What a stage needs next.
pub open spec fn wanted(s: Stage) -> Want {
    match s {
        Stage::Status | Stage::Headers | Stage::Size => Want::Line,
        Stage::Length(n) => Want::Bytes(n),
        Stage::Chunk(n) => Want::Bytes(n),
        Stage::Gap => Want::Bytes(2),
        Stage::Rest => Want::Rest,
        Stage::Done => Want::Nothing,
    }
}

/// The status in a status line: its second word, as a number.
pub open spec fn status_of(line: Seq<char>) -> Option<nat> {
    let w = text::words(line);
    if w.len() > 1 {
        digits::unsigned(w[1], 10, 65535)
    } else {
        None
    }
}

/// How the body comes, by the headers.
pub open spec fn body_stage(h: Seq<(Seq<char>, Seq<char>)>) -> Stage {
    match size_of(first_value(h, "content-length"@)) {
        Some(n) => Stage::Length(n as usize),
        None => if chunked(h) {
            Stage::Size
        } else {
            Stage::Rest
        },
    }
}

/// The reading after a line, or after the end of the input in place of a line.
pub open spec fn after_line(r: ReadingView, line: Option<Seq<char>>) -> Result<
    ReadingView,
    Seq<char>,
> {
    match r.stage {
        Stage::Status => {
            let l = match line {
                Some(l) => l,
                None => Seq::empty(),
            };
            match status_of(l) {
                Some(s) => Ok(ReadingView { stage: Stage::Headers, status: s, ..r }),
                None => Err("bad status line: "@ + text::trimmed(l)),
            }
        },
        Stage::Headers => match line {
            Some(l) if bare(l).len() > 0 => match field_of(bare(l)) {
                Some(f) => Ok(ReadingView { headers: r.headers.push(f), ..r }),
                None => Ok(r),
            },
            _ => Ok(ReadingView { stage: body_stage(r.headers), ..r }),
        },
        Stage::Size => match line {
            Some(l) if chunk_size(l) > 0 => Ok(
                ReadingView { stage: Stage::Chunk(chunk_size(l) as usize), ..r },
            ),
            _ => Ok(ReadingView { stage: Stage::Done, ..r }),
        },
        _ => Ok(r),
    }
}

/// The reading after some bytes.
pub open spec fn after_bytes(r: ReadingView, b: Seq<u8>) -> ReadingView {
    match r.stage {
        Stage::Length(_) | Stage::Rest => ReadingView { stage: Stage::Done, body: r.body + b, ..r },
        Stage::Chunk(_) => ReadingView { stage: Stage::Gap, body: r.body + b, ..r },
        Stage::Gap => ReadingView { stage: Stage::Size, ..r },
        _ => r,
    }
}

/// The reply that has been read.
pub open spec fn reply_of(r: ReadingView) -> RespView {
    RespView { status: r.status, headers: r.headers, body: bytes::text_of(r.body) }
}

/// Reads a number of bytes.
fn read_size(s: &str) -> (r: Option<usize>)
    ensures
        match r {
            Some(n) => size_of(Some(s@)) == Some(n as nat),
            None => size_of(Some(s@)) is None,
        },
{
    match digits::read_unsigned(s, 10, usize::MAX as u64) {
        Some(n) => Some(n as usize),
        None => None,
    }
}

/// Appends bytes.
fn append(out: &mut Vec<u8>, b: &Vec<u8>)
    ensures
        final(out)@ == old(out)@ + b@,
{
    let mut i: usize = 0;
    assert(out@ =~= old(out)@ + b@.take(0));
    while i < b.len()
        invariant
            i <= b@.len(),
            out@ == old(out)@ + b@.take(i as int),
        decreases b@.len() - i,
    {
        out.push(b[i]);
        i = i + 1;
        assert(out@ =~= old(out)@ + b@.take(i as int));
    }
    assert(b@.take(i as int) =~= b@);
}

impl Reading {
    /// Starts the reading of a reply.
    pub fn new() -> (r: Reading)
        ensures
            r@ == unread(),
    {
        let r = Reading { stage: Stage::Status, status: 0, headers: Vec::new(), body: Vec::new() };
        assert(r@ =~= unread());
        r
    }

    /// What to get from the connection next.
    pub fn want(&self) -> (w: Want)
        ensures
            w == wanted(self@.stage),
    {
        match self.stage {
            Stage::Status | Stage::Headers | Stage::Size => Want::Line,
            Stage::Length(n) => Want::Bytes(n),
            Stage::Chunk(n) => Want::Bytes(n),
            Stage::Gap => Want::Bytes(2),
            Stage::Rest => Want::Rest,
            Stage::Done => Want::Nothing,
        }
    }

    /// Says how the body comes.
    fn plan(&self) -> (s: Stage)
        ensures
            s == body_stage(self@.headers),
    {
        let length = match find_header(&self.headers, "content-length") {
            Some(i) => read_size(self.headers[i].1.as_str()),
            None => None,
        };
        match length {
            Some(n) => Stage::Length(n),
            None => {
                let split = match find_header(&self.headers, "transfer-encoding") {
                    Some(i) => text::contains(
                        text::lower(self.headers[i].1.as_str()).as_str(),
                        "chunked",
                    ),
                    None => false,
                };
                if split {
                    Stage::Size
                } else {
                    Stage::Rest
                }
            },
        }
    }

    /// Takes in a line with its line end, or the end of the input.
    pub fn line(&mut self, line: Option<&str>) -> (r: Result<(), String>)
        ensures
            match r {
                Ok(_) => after_line(old(self)@, shown(line)) == Ok::<ReadingView, Seq<char>>(
                    final(self)@,
                ),
                Err(e) => after_line(old(self)@, shown(line)) == Err::<ReadingView, Seq<char>>(e@)
                    && final(self)@ == old(self)@,
            },
    {
        match self.stage {
            Stage::Status => {
                let l = match line {
                    Some(l) => l,
                    None => {
                        proof {
                            reveal_strlit("");
                        }
                        assert(""@ =~= Seq::<char>::empty());
                        ""
                    },
                };
                let w = text::split_words(l);
                assert(text::texts(w@).len() == w@.len());
                let status = if w.len() > 1 {
                    assert(text::texts(w@)[1] == w@[1]@);
                    digits::read_unsigned(w[1].as_str(), 10, 65535)
                } else {
                    None
                };
                match status {
                    Some(s) => {
                        self.status = s as u16;
                        self.stage = Stage::Headers;
                        Ok(())
                    },
                    None => {
                        let mut e = "bad status line: ".to_string();
                        text::put(&mut e, text::trim(l).as_str());
                        Err(e)
                    },
                }
            },
            Stage::Headers => {
                if let Some(l) = line {
                    let t = text::trim_end_of(l, "\r\n");
                    if t.as_str().unicode_len() > 0 {
                        if let Some(f) = read_field(t.as_str()) {
                            self.headers.push(f);
                            assert(self@.headers =~= old(self)@.headers.push((f.0@, f.1@)));
                        }
                        return Ok(());
                    }
                }
                self.stage = self.plan();
                Ok(())
            },
            Stage::Size => {
                let mut size: usize = 0;
                if let Some(l) = line {
                    proof {
                        reveal_strlit(";");
                        assert(";"@ =~= seq![';']);
                    }
                    let parts = text::split(text::trim(l).as_str(), ";");
                    assert(text::texts(parts@).len() == parts@.len());
                    assert(text::texts(parts@)[0] == parts@[0]@);
                    if let Some(n) = digits::read_unsigned(
                        parts[0].as_str(),
                        16,
                        usize::MAX as u64,
                    ) {
                        size = n as usize;
                    }
                }
                if size > 0 {
                    self.stage = Stage::Chunk(size);
                } else {
                    self.stage = Stage::Done;
                }
                Ok(())
            },
            _ => Ok(()),
        }
    }

    /// Takes in bytes.
    pub fn bytes(&mut self, b: &Vec<u8>)
        ensures
            final(self)@ == after_bytes(old(self)@, b@),
    {
        match self.stage {
            Stage::Length(_) | Stage::Rest => {
                append(&mut self.body, b);
                self.stage = Stage::Done;
            },
            Stage::Chunk(_) => {
                append(&mut self.body, b);
                self.stage = Stage::Gap;
            },
            Stage::Gap => {
                self.stage = Stage::Size;
            },
            _ => {},
        }
    }

    /// The reply that has been read.
    pub fn finish(self) -> (r: Resp)
        ensures
            r@ == reply_of(self@),
    {
        let body = bytes::lossy(&self.body);
        Resp { status: self.status, headers: self.headers, body }
    }
}

/// An optional borrowed text.
pub open spec fn shown(s: Option<&str>) -> Option<Seq<char>> {
    match s {
        Some(t) => Some(t@),
        None => None,
    }
}

// ------------------------------------------------------------------- server

/// A request as a server has read it. No name stands twice in the query or among the headers, whose
/// names are in small letters.
#[derive(Debug)]
pub struct Request {
    pub method: String,
    pub path: String,
    pub query: Vec<(String, String)>,
    pub headers: Vec<(String, String)>,
    pub body: String,
}

impl Request {
    /// The value of the header with the given name, whatever its case.
    pub fn header(&self, name: &str) -> (r: Option<&str>)
        ensures
            match r {
                Some(v) => first_value(table::pairs(self.headers@), name@) == Some(v@),
                None => first_value(table::pairs(self.headers@), name@) is None,
            },
    {
        match find_header(&self.headers, name) {
            Some(i) => Some(self.headers[i].1.as_str()),
            None => None,
        }
    }
}

/// Where the reading of a request stands: before the request line, among the headers, before the
/// body, at the end, or given up.
#[derive(Debug, Clone, Copy, PartialEq, Eq, Structural)]
pub enum Step {
    Start,
    Headers,
    Body(usize),
    Done,
    Closed,
}

/// The reading of a request.
#[derive(Debug)]
pub struct Intake {
    pub step: Step,
    pub method: String,
    pub target: String,
    pub headers: Vec<(String, String)>,
    pub body: Vec<u8>,
}

/// The contents of the reading of a request.
#[verifier::ext_equal]
pub ghost struct IntakeView {
    pub step: Step,
    pub method: Seq<char>,
    pub target: Seq<char>,
    pub headers: Seq<(Seq<char>, Seq<char>)>,
    pub body: Seq<u8>,
}

impl View for Intake {
    type V = IntakeView;

    open spec fn view(&self) -> IntakeView {
        IntakeView {
            step: self.step,
            method: self.method@,
            target: self.target@,
            headers: table::pairs(self.headers@),
            body: self.body@,
        }
    }
}

/// The reading of a request before anything has come.
pub open spec fn nothing_in() -> IntakeView {
    IntakeView {
        step: Step::Start,
        method: Seq::empty(),
        target: Seq::empty(),
        headers: Seq::empty(),
        body: Seq::empty(),
    }
}

/// What a step needs next.
pub open spec fn needed(s: Step) -> Want {
    match s {
        Step::Start | Step::Headers => Want::Line,
        Step::Body(n) => Want::Bytes(n),
        Step::Done | Step::Closed => Want::Nothing,
    }
}

/// The reading of a request after a line, or after the end of the input in place of a line.
pub open spec fn line_in(r: IntakeView, line: Option<Seq<char>>) -> IntakeView {
    match r.step {
        Step::Start => {
            let w = text::words(
                match line {
                    Some(l) => l,
                    None => Seq::empty(),
                },
            );
            if w.len() < 2 {
                IntakeView { step: Step::Closed, ..r }
            } else {
                IntakeView { step: Step::Headers, method: w[0], target: w[1], ..r }
            }
        },
        Step::Headers => match line {
            Some(l) if bare(l).len() > 0 => match field_of(bare(l)) {
                Some(f) => IntakeView {
                    headers: table::set_pair(r.headers, text::lowered(f.0), f.1),
                    ..r
                },
                None => r,
            },
            _ => match size_of(table::pair_at(r.headers, "content-length"@)) {
                Some(n) => IntakeView { step: Step::Body(n as usize), ..r },
                None => IntakeView { step: Step::Done, ..r },
            },
        },
        _ => r,
    }
}

/// The reading of a request after some bytes.
pub open spec fn bytes_in(r: IntakeView, b: Seq<u8>) -> IntakeView {
    match r.step {
        Step::Body(_) => IntakeView { step: Step::Done, body: b, ..r },
        _ => r,
    }
}

/// The path of a target: what stands before the question mark.
pub open spec fn path_of(target: Seq<char>) -> Seq<char> {
    target.take(text::first_in(target, seq!['?'], 0))
}

/// The value that the query of a target gives to a name.
pub open spec fn query_of(target: Seq<char>, k: Seq<char>) -> Option<Seq<char>> {
    let i = text::first_in(target, seq!['?'], 0);
    if 0 <= i < target.len() {
        url::assigned(text::fields(target.skip(i + 1), seq!['&']), k)
    } else {
        None
    }
}

/// The reason phrase of a status.
pub open spec fn reason_of(status: nat) -> Seq<char> {
    if status == 400 {
        "Bad Request"@
    } else if status == 403 {
        "Forbidden"@
    } else if status == 404 {
        "Not Found"@
    } else if status == 500 {
        "Internal Server Error"@
    } else {
        "OK"@
    }
}

/// What stands before the body of an answer.
pub open spec fn answer_head(status: nat, ctype: Seq<char>, body: Seq<char>) -> Seq<char> {
    "HTTP/1.1 "@ + digits::decimal(status) + " "@ + reason_of(status) + "\r\nContent-Type: "@ + ctype
        + "\r\nContent-Length: "@ + digits::decimal(utf8::encode_utf8(body).len())
        + "\r\nCache-Control: no-store\r\nConnection: close\r\n\r\n"@
}

impl Intake {
    /// Starts the reading of a request.
    pub fn new() -> (r: Intake)
        ensures
            r@ == nothing_in(),
    {
        let r = Intake {
            step: Step::Start,
            method: String::new(),
            target: String::new(),
            headers: Vec::new(),
            body: Vec::new(),
        };
        assert(r@ =~= nothing_in());
        r
    }

    /// What to get from the connection next.
    pub fn want(&self) -> (w: Want)
        ensures
            w == needed(self@.step),
    {
        match self.step {
            Step::Start | Step::Headers => Want::Line,
            Step::Body(n) => Want::Bytes(n),
            Step::Done | Step::Closed => Want::Nothing,
        }
    }

    /// Takes in a line with its line end, or the end of the input.
    pub fn line(&mut self, line: Option<&str>)
        ensures
            final(self)@ == line_in(old(self)@, shown(line)),
    {
        match self.step {
            Step::Start => {
                let l = match line {
                    Some(l) => l,
                    None => {
                        proof {
                            reveal_strlit("");
                        }
                        assert(""@ =~= Seq::<char>::empty());
                        ""
                    },
                };
                let w = text::split_words(l);
                assert(text::texts(w@).len() == w@.len());
                if w.len() < 2 {
                    self.step = Step::Closed;
                } else {
                    assert(text::texts(w@)[0] == w@[0]@);
                    assert(text::texts(w@)[1] == w@[1]@);
                    self.method = w[0].clone();
                    self.target = w[1].clone();
                    self.step = Step::Headers;
                }
            },
            Step::Headers => {
                if let Some(l) = line {
                    let t = text::trim_end_of(l, "\r\n");
                    if t.as_str().unicode_len() > 0 {
                        if let Some((k, v)) = read_field(t.as_str()) {
                            let name = text::lower(k.as_str());
                            let ghost was = self.headers@;
                            table::set(&mut self.headers, name.as_str(), v);
                            proof {
                                table::lemma_set_pair(was, name@, v, self.headers@);
                            }
                        }
                        return ;
                    }
                }
                proof {
                    table::lemma_pair_slot(self.headers@, "content-length"@, 0);
                }
                let length = match table::find(&self.headers, "content-length") {
                    Some(i) => read_size(self.headers[i].1.as_str()),
                    None => None,
                };
                match length {
                    Some(n) => {
                        self.step = Step::Body(n);
                    },
                    None => {
                        self.step = Step::Done;
                    },
                }
            },
            _ => {},
        }
    }

    /// Takes in bytes.
    pub fn bytes(&mut self, b: &Vec<u8>)
        ensures
            final(self)@ == bytes_in(old(self)@, b@),
    {
        match self.step {
            Step::Body(_) => {
                let mut body: Vec<u8> = Vec::new();
                append(&mut body, b);
                assert(body@ =~= b@);
                self.body = body;
                self.step = Step::Done;
            },
            _ => {},
        }
    }

    /// The request that has been read.
    pub fn finish(self) -> (r: Request)
        ensures
            r.method@ == self@.method,
            r.path@ == path_of(self@.target),
            table::distinct(r.query@),
            forall|k: Seq<char>| #[trigger]
                url::text_at(r.query@, k) == query_of(self@.target, k),
            table::pairs(r.headers@) == self@.headers,
            r.body@ == bytes::text_of(self@.body),
    {
        let cs = text::chars_of(self.target.as_str());
        let mark: Vec<char> = vec!['?'];
        assert(mark@ =~= seq!['?']);
        let i = text::find_in(&cs, &mark, 0);
        let n = cs.len();
        let path = text::string_of(&cs, 0, i);
        assert(cs@.subrange(0, i as int) =~= cs@.take(i as int));
        let query = if i < n {
            assert(cs@.subrange(i + 1, n as int) =~= cs@.skip(i + 1));
            url::parse_query(text::string_of(&cs, i + 1, n).as_str())
        } else {
            Vec::new()
        };
        let body = bytes::lossy(&self.body);
        Request { method: self.method, path, query, headers: self.headers, body }
    }
}

/// The reason phrase of a status.
pub fn reason(status: u16) -> (r: &'static str)
    ensures
        r@ == reason_of(status as nat),
{
    match status {
        200 => "OK",
        400 => "Bad Request",
        403 => "Forbidden",
        404 => "Not Found",
        500 => "Internal Server Error",
        _ => "OK",
    }
}

/// What to send before the body of an answer.
pub fn response_head(status: u16, ctype: &str, body: &str) -> (r: String)
    ensures
        r@ == answer_head(status as nat, ctype@, body@),
{
    let mut out = "HTTP/1.1 ".to_string();
    digits::put_decimal(&mut out, status as u64);
    text::put(&mut out, " ");
    text::put(&mut out, reason(status));
    text::put(&mut out, "\r\nContent-Type: ");
    text::put(&mut out, ctype);
    text::put(&mut out, "\r\nContent-Length: ");
    digits::put_decimal(&mut out, bytes::bytes_of(body).len() as u64);
    text::put(&mut out, "\r\nCache-Control: no-store\r\nConnection: close\r\n\r\n");
    out
}

} // verus!
