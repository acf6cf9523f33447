use crate::cli::{
    find_header_end, header_terminator, url_bytes, url_decode, url_decode_result, url_decodes,
    UrlDecodeError,
};
use crate::db::{object_fields, object_id, YamlDb};
use crate::numtext::{parse_usize, parse_usize_spec};
use crate::record::{fields_view, Record};
use crate::text::{
    chars_eq_ignore_ascii_case, chars_of, eq_ignore_ascii_case, find_chars, find_first,
    from_utf8_lossy, lemma_find_from, lossy_utf8, seq_ends_with, seq_starts_with, split_words,
    str_eq, str_views, string_from_range, trim, trim_str, words,
};
use crate::value::Value;
use vstd::prelude::*;

verus! {

/// `str::lines`: the text split after each `\n`, each line without its
/// `\n` and then without one `\r` before it; no empty line after a final
/// `\n`.
pub open spec fn lines(s: Seq<char>) -> Seq<Seq<char>>
    decreases s.len(),
{
    if s.len() == 0 {
        Seq::empty()
    } else {
        match find_first(s, seq!['\n']) {
            None => seq![s],
            Some(i) => {
                proof {
                    lemma_find_from(s, seq!['\n'], 0);
                }
                let line = s.subrange(0, i);
                let line = if line.len() > 0 && line.last() == '\r' {
                    line.drop_last()
                } else {
                    line
                };
                seq![line] + lines(s.subrange(i + 1, s.len() as int))
            },
        }
    }
}

pub open spec fn content_length_key() -> Seq<char> {
    seq!['c', 'o', 'n', 't', 'e', 'n', 't', '-', 'l', 'e', 'n', 'g', 't', 'h']
}

/// The length a header line gives: `Content-Length` in any ASCII case,
/// `:`, and a number, spaces around it allowed.
pub open spec fn header_length(line: Seq<char>) -> Option<usize> {
    match find_first(line, seq![':']) {
        None => None,
        Some(i) => if chars_eq_ignore_ascii_case(line.subrange(0, i), content_length_key()) {
            parse_usize_spec(trim(line.subrange(i + 1, line.len() as int)))
        } else {
            None
        },
    }
}

/// The length that the first line giving one gives, or 0.
pub open spec fn content_length_of(ls: Seq<Seq<char>>) -> usize
    decreases ls.len(),
{
    if ls.len() == 0 {
        0
    } else {
        match header_length(ls[0]) {
            Some(n) => n,
            None => content_length_of(ls.drop_first()),
        }
    }
}

/// The lines of a text.
pub fn text_lines(s: &str) -> (r: Vec<String>)
    ensures
        str_views(r@) == lines(s@),
{
    let v = chars_of(s);
    let n = v.len();
    let mut out: Vec<String> = Vec::new();
    let mut start: usize = 0;
    assert(v@.subrange(0, n as int) =~= s@);
    assert(str_views(out@) =~= Seq::<Seq<char>>::empty());
    while start < n
        invariant
            start <= n,
            n == v.len(),
            lines(s@) == str_views(out@) + lines(v@.subrange(start as int, n as int)),
        decreases n - start,
    {
        let ghost rest = v@.subrange(start as int, n as int);
        let e = crate::sql::scan_char_pub(&v, start, n, '\n');
        let ghost before = out@;
        if e == n {
            let line = string_from_range(v.as_slice(), start, n);
            out.push(line);
            proof {
                assert(line@ =~= rest);
                assert(lines(rest) == seq![rest]);
                assert(lines(v@.subrange(n as int, n as int)) =~= Seq::<Seq<char>>::empty());
                assert(str_views(out@) =~= str_views(before).push(line@));
                assert(str_views(before) + seq![rest] =~= str_views(out@) + Seq::<Seq<char>>::empty());
            }
            start = n;
        } else {
            let mut end = e;
            if end > start && v[end - 1] == '\r' {
                end = end - 1;
            }
            let line = string_from_range(v.as_slice(), start, end);
            out.push(line);
            proof {
                let raw = rest.subrange(0, e - start);
                assert(raw =~= v@.subrange(start as int, e as int));
                if e > start && v@[e - 1] == '\r' {
                    assert(raw.drop_last() =~= line@);
                } else {
                    assert(raw =~= line@);
                }
                assert(rest.subrange(e - start + 1, rest.len() as int) =~= v@.subrange(
                    e + 1,
                    n as int,
                ));
                assert(str_views(out@) =~= str_views(before).push(line@));
                assert(str_views(before) + lines(rest) =~= str_views(out@) + lines(
                    v@.subrange(e + 1, n as int),
                ));
            }
            start = e + 1;
        }
    }
    assert(lines(v@.subrange(n as int, n as int)) =~= Seq::<Seq<char>>::empty());
    assert(str_views(out@) + Seq::<Seq<char>>::empty() =~= str_views(out@));
    out
}

/// The length a header line gives.
fn header_length_exec(line: &str) -> (r: Option<usize>)
    ensures
        r == header_length(line@),
{
    proof {
        reveal_strlit("content-length");
        assert("content-length"@ =~= content_length_key());
    }
    let v = chars_of(line);
    let c = crate::sql::scan_char_pub(&v, 0, v.len(), ':');
    assert(v@.subrange(0, v.len() as int) =~= line@);
    if c == v.len() {
        return None;
    }
    let key = string_from_range(v.as_slice(), 0, c);
    if !eq_ignore_ascii_case(key.as_str(), "content-length") {
        return None;
    }
    let value = string_from_range(v.as_slice(), c + 1, v.len());
    parse_usize(trim_str(value.as_str()).as_str())
}

/// The body length that the headers of a request announce, or 0.
pub fn content_length(head: &[u8]) -> (r: usize)
    ensures
        r == content_length_of(lines(lossy_utf8(head@))),
{
    let text = from_utf8_lossy(head);
    let ls = text_lines(text.as_str());
    let ghost all = str_views(ls@);
    let mut i: usize = 0;
    assert(all.skip(0) =~= all);
    while i < ls.len()
        invariant
            i <= ls.len(),
            all == str_views(ls@),
            all == lines(lossy_utf8(head@)),
            content_length_of(all) == content_length_of(all.skip(i as int)),
        decreases ls.len() - i,
    {
        assert(all.skip(i as int)[0] == ls@[i as int]@);
        assert(all.skip(i as int).drop_first() =~= all.skip(i + 1));
        match header_length_exec(ls[i].as_str()) {
            Some(n) => {
                return n;
            },
            None => {},
        }
        i += 1;
    }
    assert(all.skip(i as int) =~= Seq::<Seq<char>>::empty());
    0
}

/// The head of a request: its method, its path, and where its body starts.
pub enum RequestHead {
    /// No blank line ends the headers yet.
    Incomplete,
    /// The request line has fewer than two words.
    BadRequest,
    Request { method: String, path: String, body_start: usize },
}

/// The first line of a text, or nothing.
pub open spec fn first_line(s: Seq<char>) -> Seq<char> {
    if lines(s).len() > 0 {
        lines(s)[0]
    } else {
        Seq::empty()
    }
}

/// The bytes `b[..n]`.
fn prefix_bytes(b: &[u8], n: usize) -> (r: Vec<u8>)
    requires
        n <= b.len(),
    ensures
        r@ == b@.subrange(0, n as int),
{
    let mut v: Vec<u8> = Vec::new();
    let mut i: usize = 0;
    while i < n
        invariant
            i <= n <= b.len(),
            v@ == b@.subrange(0, i as int),
        decreases n - i,
    {
        v.push(b[i]);
        i += 1;
        assert(v@ =~= b@.subrange(0, i as int));
    }
    v
}

/// Reads the head of a request: the headers end at the first blank line,
/// the request line gives the method and the path.
pub fn request_head(buffer: &[u8]) -> (r: RequestHead)
    ensures
        match find_first(buffer@, header_terminator()) {
            None => r is Incomplete,
            Some(e) => {
                let parts = words(first_line(lossy_utf8(buffer@.subrange(0, e))));
                if parts.len() < 2 {
                    r is BadRequest
                } else {
                    r matches RequestHead::Request { method, path, body_start } && method@
                        == parts[0] && path@ == parts[1] && body_start == e + 4
                }
            },
        },
{
    let e = match find_header_end(buffer) {
        None => {
            return RequestHead::Incomplete;
        },
        Some(e) => e,
    };
    proof {
        lemma_find_from(buffer@, header_terminator(), 0);
        assert(e + 4 <= buffer@.len());
    }
    let _len = buffer.len();
    let head = prefix_bytes(buffer, e);
    let text = from_utf8_lossy(head.as_slice());
    let ls = text_lines(text.as_str());
    let first = if ls.len() > 0 {
        ls[0].clone()
    } else {
        String::new()
    };
    proof {
        if ls.len() > 0 {
            assert(str_views(ls@)[0] == ls@[0]@);
        }
        assert(first@ == first_line(text@));
    }
    let parts = split_words(first.as_str());
    if parts.len() < 2 {
        return RequestHead::BadRequest;
    }
    proof {
        assert(str_views(parts@)[0] == parts@[0]@);
        assert(str_views(parts@)[1] == parts@[1]@);
    }
    RequestHead::Request {
        method: parts[0].clone(),
        path: parts[1].clone(),
        body_start: e + 4,
    }
}

/// How many bytes a request takes: its head, the blank line and its body;
/// nothing when that does not fit a `usize`.
pub fn request_total(header_end: usize, content_length: usize) -> (r: Option<usize>)
    ensures
        header_end + 4 + content_length <= usize::MAX ==> r == Some(
            (header_end + 4 + content_length) as usize,
        ),
        header_end + 4 + content_length > usize::MAX ==> r is None,
{
    if header_end > usize::MAX - 4 {
        return None;
    }
    let a = header_end + 4;
    if content_length > usize::MAX - a {
        return None;
    }
    Some(a + content_length)
}


/// The most bytes a request may hold before its headers end.
pub const MAX_HEAD_BYTES: usize = 1048576;

/// How reading a request stands after the bytes received so far.
pub enum Progress {
    /// More bytes are needed.
    NeedMore,
    /// The headers and the body they announce have arrived.
    Complete,
    /// The headers have not ended within the limit, or announce a request
    /// larger than memory can address.
    TooLarge,
}

/// The progress of a request: once the headers end, it is complete when
/// the announced body is there; before that, more than the limit is too
/// much.
pub open spec fn progress_is(r: Progress, buffer: Seq<u8>) -> bool {
    match find_first(buffer, header_terminator()) {
        Some(e) => {
            let total = e + 4 + content_length_of(lines(lossy_utf8(buffer.subrange(0, e))));
            if total > usize::MAX {
                r is TooLarge
            } else if buffer.len() >= total {
                r is Complete
            } else {
                r is NeedMore
            }
        },
        None => if buffer.len() > MAX_HEAD_BYTES {
            r is TooLarge
        } else {
            r is NeedMore
        },
    }
}

/// Decides, after each read, whether to read on, answer, or refuse.
pub fn request_progress(buffer: &[u8]) -> (r: Progress)
    ensures
        progress_is(r, buffer@),
{
    match find_header_end(buffer) {
        None => if buffer.len() > MAX_HEAD_BYTES {
            Progress::TooLarge
        } else {
            Progress::NeedMore
        },
        Some(e) => {
            proof {
                lemma_find_from(buffer@, header_terminator(), 0);
            }
            let head = prefix_bytes(buffer, e);
            let length = content_length(head.as_slice());
            match request_total(e, length) {
                None => Progress::TooLarge,
                Some(total) => if buffer.len() >= total {
                    Progress::Complete
                } else {
                    Progress::NeedMore
                },
            }
        },
    }
}

/// What a web UI request asks for.
pub enum Route {
    /// The page itself.
    Index,
    /// The records of a table.
    ListRecords(String),
    /// Insert or replace a record of a table, given in the body.
    Upsert(String),
    /// Delete the record with an id from a table.
    Delete(String, String),
    /// The tables.
    ListTables,
    NotFound,
    /// A part of the path does not decode.
    BadEncoding(UrlDecodeError),
}

/// The path without its query.
pub open spec fn path_only(p: Seq<char>) -> Seq<char> {
    match find_first(p, seq!['?']) {
        Some(i) => p.subrange(0, i),
        None => p,
    }
}

/// `r` is `ok(x decoded)`, or the error of decoding `x`.
pub open spec fn decoded_route(r: Route, x: Seq<char>, table: Option<Seq<char>>, kind: int) -> bool {
    match r {
        Route::ListRecords(t) => kind == 0 && url_decode_result(Ok(t), x),
        Route::Upsert(t) => kind == 1 && url_decode_result(Ok(t), x),
        Route::Delete(t, id) => kind == 2 && table == Some(t@) && url_decode_result(Ok(id), x),
        Route::BadEncoding(e) => url_decode_result(Err(e), x),
        _ => false,
    }
}

/// The route of a request: by method and path (without its query), with
/// the table and id parts of the path decoded; a path whose table part
/// would overlap `/records` is not found.
pub open spec fn route_is(r: Route, m: Seq<char>, path: Seq<char>) -> bool {
    let p = path_only(path);
    if m == "GET"@ && p == "/"@ {
        r is Index
    } else if m == "GET"@ && p == "/api/records"@ {
        r matches Route::ListRecords(t) && t@ == "data"@
    } else if m == "POST"@ && p == "/api/records"@ {
        r matches Route::Upsert(t) && t@ == "data"@
    } else if m == "DELETE"@ && seq_starts_with(p, "/api/records/"@) {
        decoded_route(r, p.subrange("/api/records/"@.len() as int, p.len() as int), Some("data"@), 2)
    } else if m == "GET"@ && p == "/api/tables"@ {
        r is ListTables
    } else if (m == "GET"@ || m == "POST"@) && seq_starts_with(p, "/api/tables/"@)
        && seq_ends_with(p, "/records"@) {
        if "/api/tables/"@.len() > p.len() - "/records"@.len() {
            r is NotFound
        } else {
            decoded_route(
                r,
                p.subrange("/api/tables/"@.len() as int, p.len() - "/records"@.len()),
                None,
                if m == "GET"@ {
                    0
                } else {
                    1
                },
            )
        }
    } else if m == "DELETE"@ && seq_starts_with(p, "/api/tables/"@) {
        let rest = p.subrange("/api/tables/"@.len() as int, p.len() as int);
        match find_first(rest, "/records/"@) {
            None => r is NotFound,
            Some(j) => {
                let t = rest.subrange(0, j);
                let id = rest.subrange(j + "/records/"@.len(), rest.len() as int);
                if !url_decodes(t) {
                    r matches Route::BadEncoding(e) && url_decode_result(Err(e), t)
                } else {
                    exists|ts: String| url_decode_result(Ok(ts), t) && decoded_route(r, id, Some(ts@), 2)
                }
            },
        }
    } else {
        r is NotFound
    }
}

/// Decodes `x` into the route that `make` builds from the decoded text.
fn decode_into(x: &str, kind: usize, table: Option<String>) -> (r: Route)
    requires
        kind <= 2,
        kind == 2 ==> table is Some,
    ensures
        decoded_route(
            r,
            x@,
            match table {
                Some(t) => Some(t@),
                None => None,
            },
            kind as int,
        ),
{
    match url_decode(x) {
        Err(e) => Route::BadEncoding(e),
        Ok(s) => if kind == 0 {
            Route::ListRecords(s)
        } else if kind == 1 {
            Route::Upsert(s)
        } else {
            match table {
                Some(t) => Route::Delete(t, s),
                None => Route::NotFound,
            }
        },
    }
}

/// The route of a web UI request.
pub fn route(method: &str, path: &str) -> (r: Route)
    ensures
        route_is(r, method@, path@),
{
    proof {
        reveal_strlit("/api/records/");
        reveal_strlit("/api/tables/");
        reveal_strlit("/records");
        reveal_strlit("/records/");
    }
    let pv = chars_of(path);
    let q = crate::sql::scan_char_pub(&pv, 0, pv.len(), '?');
    assert(pv@.subrange(0, pv.len() as int) =~= path@);
    let p = string_from_range(pv.as_slice(), 0, q);
    assert(p@ == path_only(path@));
    let pc = chars_of(p.as_str());
    let n = pc.len();
    let data = "data".to_owned();
    if str_eq(method, "GET") && str_eq(p.as_str(), "/") {
        Route::Index
    } else if str_eq(method, "GET") && str_eq(p.as_str(), "/api/records") {
        Route::ListRecords(data)
    } else if str_eq(method, "POST") && str_eq(p.as_str(), "/api/records") {
        Route::Upsert(data)
    } else if str_eq(method, "DELETE") && crate::text::str_starts_with(p.as_str(), "/api/records/") {
        let x = string_from_range(pc.as_slice(), 13, n);
        decode_into(x.as_str(), 2, Some(data))
    } else if str_eq(method, "GET") && str_eq(p.as_str(), "/api/tables") {
        Route::ListTables
    } else if (str_eq(method, "GET") || str_eq(method, "POST")) && crate::text::str_starts_with(
        p.as_str(),
        "/api/tables/",
    ) && crate::text::str_ends_with(p.as_str(), "/records") {
        if 12 > n - 8 {
            Route::NotFound
        } else {
            let x = string_from_range(pc.as_slice(), 12, n - 8);
            let kind: usize = if str_eq(method, "GET") {
                0
            } else {
                1
            };
            decode_into(x.as_str(), kind, None)
        }
    } else if str_eq(method, "DELETE") && crate::text::str_starts_with(p.as_str(), "/api/tables/") {
        let rest = string_from_range(pc.as_slice(), 12, n);
        let rc = chars_of(rest.as_str());
        let sep = chars_of("/records/");
        match find_chars(&rc, &sep) {
            None => Route::NotFound,
            Some(j) => {
                proof {
                    lemma_find_from(rc@, sep@, 0);
                }
                let t = string_from_range(rc.as_slice(), 0, j);
                let id = string_from_range(rc.as_slice(), j + 9, rc.len());
                match url_decode(t.as_str()) {
                    Err(e) => Route::BadEncoding(e),
                    Ok(ts) => {
                        let r = decode_into(id.as_str(), 2, Some(ts));
                        r
                    },
                }
            },
        }
    } else {
        Route::NotFound
    }
}

/// Why a request body does not give a record.
pub enum JsonRecordError {
    /// The body is not a JSON object.
    NotObject,
    /// The object has no string `id`.
    MissingId,
    /// The id is empty once trimmed.
    EmptyId,
}

/// The record a JSON object (given as its fields, or nothing when the body
/// is not an object) describes: its string `id` and its other fields.
pub fn json_to_record(obj: Option<Vec<(String, Value)>>) -> (r: Result<Record, JsonRecordError>)
    ensures
        match obj {
            None => r is Err && r->Err_0 is NotObject,
            Some(f) => match object_id(fields_view(f@)) {
                None => r is Err && r->Err_0 is MissingId,
                Some(id) => if trim(id).len() == 0 {
                    r is Err && r->Err_0 is EmptyId
                } else {
                    r matches Ok(rec) && rec.id@ == id && rec.fields() == object_fields(
                        fields_view(f@),
                    )
                },
            },
        },
{
    match obj {
        None => Err(JsonRecordError::NotObject),
        Some(f) => match YamlDb::object_id_exec(&f) {
            None => Err(JsonRecordError::MissingId),
            Some(id) => {
                if trim_str(id.as_str()).as_str().is_empty() {
                    Err(JsonRecordError::EmptyId)
                } else {
                    let data = YamlDb::object_fields_exec(f);
                    Ok(Record { id, data })
                }
            },
        },
    }
}


/// The reason phrase of a response status.
pub fn reason_phrase(status: u16) -> (r: &'static str)
    ensures
        status == 400 ==> r@ == "Bad Request"@,
        status == 404 ==> r@ == "Not Found"@,
        status != 400 && status != 404 ==> r@ == "OK"@,
{
    if status == 400 {
        "Bad Request"
    } else if status == 404 {
        "Not Found"
    } else {
        "OK"
    }
}

} // verus!
