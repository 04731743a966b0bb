//! Request and response lines read as JSON documents: `serde_json` parses a
//! line and reads each field; the protocol's rules then make a request or a
//! response of the fields.
use vstd::prelude::*;

use crate::jobs::message::{
    Field, FieldView, IdField, Request, RequestError, RequestErrorView, RequestFields,
    RequestFieldsView, Response, ResponseFields, ResponseFieldsView, opt_text, request_result,
    response_result, texts,
};

verus! {

/// What `serde_json` makes of a request line: the fields of its document,
/// each as `serde_json::from_value` reads it, or the parser's message when
/// the line is no JSON document.
pub uninterp spec fn json_request_fields(line: Seq<u8>) -> Result<RequestFieldsView, Seq<char>>;

/// What `serde_json` makes of a response line: the fields of its document,
/// or the parser's message when the line is no JSON document.
pub uninterp spec fn json_response_fields(line: Seq<u8>) -> Result<ResponseFieldsView, Seq<char>>;

/// A field as its document gave it: missing, or what `serde_json` made of it.
pub type Read<T> = Option<Result<T, String>>;

/// The first fields of a request document as `serde_json` read them.
pub struct RequestHead {
    pub request: Read<String>,
    pub queue: Read<String>,
    pub job: Option<String>,
    pub pri: Read<u32>,
}

/// The other fields of a request document as `serde_json` read them.
pub struct RequestTail {
    pub queues: Read<Vec<String>>,
    pub wait: Read<bool>,
    pub id: Read<u32>,
}

/// The first fields of a response document as `serde_json` read them.
pub struct ResponseHead {
    pub status: Read<String>,
    /// `id`: whether it is a number, and what reading it as a `u32` gave.
    pub id: Option<(bool, Result<u32, String>)>,
    /// `queue`: whether it is a string, and what reading it as one gave.
    pub queue: Option<(bool, Result<String, String>)>,
}

/// The other fields of a response document as `serde_json` read them.
pub struct ResponseTail {
    /// `job`, as JSON text.
    pub job: Option<String>,
    pub pri: Read<u32>,
    /// `error`, as JSON text.
    pub error: Option<String>,
}

/// A field as read, as a value.
pub open spec fn read_view<T, V>(r: Read<T>, f: spec_fn(T) -> V) -> FieldView<V> {
    match r {
        None => FieldView::Missing,
        Some(Err(m)) => FieldView::Invalid(m@),
        Some(Ok(v)) => FieldView::Present(f(v)),
    }
}

/// A request document's fields, as values.
pub open spec fn request_view(h: RequestHead, t: RequestTail) -> RequestFieldsView {
    RequestFieldsView {
        request: read_view(h.request, |s: String| s@),
        queue: read_view(h.queue, |s: String| s@),
        job: opt_text(h.job),
        pri: read_view(h.pri, |n: u32| n),
        queues: read_view(t.queues, |v: Vec<String>| texts(v)),
        wait: read_view(t.wait, |w: bool| w),
        id: read_view(t.id, |n: u32| n),
    }
}

/// The `id` of a response document: missing, no number, or a number and its
/// value when it reads as a `u32`.
pub open spec fn id_view(id: Option<(bool, Result<u32, String>)>) -> IdField {
    match id {
        None => IdField::Missing,
        Some((false, _)) => IdField::NotNumber,
        Some((true, Ok(n))) => IdField::Number(Some(n)),
        Some((true, Err(_))) => IdField::Number(None),
    }
}

/// The queue of a response document, when it is a string.
pub open spec fn queue_view(q: Option<(bool, Result<String, String>)>) -> Option<Seq<char>> {
    match q {
        Some((true, Ok(s))) => Some(s@),
        _ => None,
    }
}

/// A response document's fields, as values.
pub open spec fn response_view(h: ResponseHead, t: ResponseTail) -> ResponseFieldsView {
    ResponseFieldsView {
        status: read_view(h.status, |s: String| s@),
        id: id_view(h.id),
        queue: queue_view(h.queue),
        job: opt_text(t.job),
        pri: read_view(t.pri, |n: u32| n),
        error: opt_text(t.error),
    }
}

fn field_of<T>(read: Read<T>) -> (r: Field<T>)
    ensures
        match read {
            None => r is Missing,
            Some(Err(m)) => r matches Field::Invalid(x) && x@ == m@,
            Some(Ok(v)) => r matches Field::Present(x) && x == v,
        },
{
    match read {
        None => Field::Missing,
        Some(Err(m)) => Field::Invalid(m),
        Some(Ok(v)) => Field::Present(v),
    }
}

/// The fields of a request document, made of what was read.
pub fn request_fields(h: RequestHead, t: RequestTail) -> (f: RequestFields)
    ensures
        f@ == request_view(h, t),
{
    let ghost (gh, gt) = (h, t);
    let f = RequestFields {
        request: field_of(h.request),
        queue: field_of(h.queue),
        job: h.job,
        pri: field_of(h.pri),
        queues: field_of(t.queues),
        wait: field_of(t.wait),
        id: field_of(t.id),
    };
    assert(f@.request == request_view(gh, gt).request);
    assert(f@.queue == request_view(gh, gt).queue);
    assert(f@.queues == request_view(gh, gt).queues);
    f
}

/// The fields of a response document, made of what was read.
pub fn response_fields(h: ResponseHead, t: ResponseTail) -> (f: ResponseFields)
    ensures
        f@ == response_view(h, t),
{
    let ghost (gh, gt) = (h, t);
    let id = match h.id {
        None => IdField::Missing,
        Some((false, _)) => IdField::NotNumber,
        Some((true, Ok(n))) => IdField::Number(Some(n)),
        Some((true, Err(_))) => IdField::Number(None),
    };
    let queue = match h.queue {
        Some((true, Ok(s))) => Some(s),
        _ => None,
    };
    let f = ResponseFields {
        status: field_of(h.status),
        id,
        queue,
        job: t.job,
        pri: field_of(t.pri),
        error: t.error,
    };
    assert(f@.status == response_view(gh, gt).status);
    f
}

/// `serde_json::from_slice` of a request line into a document, whose
/// `request`, `queue` and `pri` `serde_json::from_value` then reads (`job`
/// kept as JSON text). The result is named: JSON's grammar and serde's
/// messages are not restated here.
#[verifier::external_body]
fn parse_request_head(line: &[u8]) -> (r: Result<RequestHead, String>)
    ensures
        match r {
            Ok(h) => json_request_fields(line@) matches Ok(f) && f.request == read_view(h.request, |s: String| s@)
                && f.queue == read_view(h.queue, |s: String| s@) && f.job == opt_text(h.job)
                && f.pri == read_view(h.pri, |n: u32| n),
            Err(m) => json_request_fields(line@) == Err::<RequestFieldsView, Seq<char>>(m@),
        },
{
    let v: serde_json::Value = serde_json::from_slice(line).map_err(|e| e.to_string())?;
    let g = |n: &str| v.get(n).cloned();
    Ok(RequestHead {
        request: g("request").map(|x| serde_json::from_value(x).map_err(|e| e.to_string())),
        queue: g("queue").map(|x| serde_json::from_value(x).map_err(|e| e.to_string())),
        job: g("job").map(|j| j.to_string()),
        pri: g("pri").map(|x| serde_json::from_value(x).map_err(|e| e.to_string())),
    })
}

/// `serde_json::from_slice` of a request line into a document, whose
/// `queues`, `wait` and `id` `serde_json::from_value` then reads. The result
/// is named as for `parse_request_head`.
#[verifier::external_body]
fn parse_request_tail(line: &[u8]) -> (r: Result<RequestTail, String>)
    ensures
        match r {
            Ok(t) => json_request_fields(line@) matches Ok(f) && f.queues == read_view(
                t.queues,
                |v: Vec<String>| texts(v),
            ) && f.wait == read_view(t.wait, |w: bool| w) && f.id == read_view(t.id, |n: u32| n),
            Err(m) => json_request_fields(line@) == Err::<RequestFieldsView, Seq<char>>(m@),
        },
{
    let v: serde_json::Value = serde_json::from_slice(line).map_err(|e| e.to_string())?;
    let g = |n: &str| v.get(n).cloned();
    Ok(RequestTail {
        queues: g("queues").map(|x| serde_json::from_value(x).map_err(|e| e.to_string())),
        wait: g("wait").map(|x| serde_json::from_value(x).map_err(|e| e.to_string())),
        id: g("id").map(|x| serde_json::from_value(x).map_err(|e| e.to_string())),
    })
}

/// `serde_json::from_slice` of a response line into a document, whose
/// `status` `serde_json::from_value` then reads, with `id` told apart by
/// whether it is a number and read as a `u32`, and `queue` told apart by
/// whether it is a string and read as one. The result is named: JSON's grammar and serde's messages are
/// not restated here.
#[verifier::external_body]
fn parse_response_head(line: &[u8]) -> (r: Result<ResponseHead, String>)
    ensures
        match r {
            Ok(h) => json_response_fields(line@) matches Ok(f) && f.status == read_view(h.status, |s: String| s@)
                && f.id == id_view(h.id) && f.queue == queue_view(h.queue),
            Err(m) => json_response_fields(line@) == Err::<ResponseFieldsView, Seq<char>>(m@),
        },
{
    let v: serde_json::Value = serde_json::from_slice(line).map_err(|e| e.to_string())?;
    let g = |n: &str| v.get(n).cloned();
    Ok(ResponseHead {
        status: g("status").map(|x| serde_json::from_value(x).map_err(|e| e.to_string())),
        id: g("id").map(|x| (x.is_number(), serde_json::from_value(x).map_err(|e| e.to_string()))),
        queue: g("queue").map(|x| (x.is_string(), serde_json::from_value(x).map_err(|e| e.to_string()))),
    })
}

/// `serde_json::from_slice` of a response line into a document, whose `pri`
/// `serde_json::from_value` then reads, with `job` and `error` kept as JSON
/// text. The result is named as for `parse_response_head`.
#[verifier::external_body]
fn parse_response_tail(line: &[u8]) -> (r: Result<ResponseTail, String>)
    ensures
        match r {
            Ok(t) => json_response_fields(line@) matches Ok(f) && f.job == opt_text(t.job) && f.pri == read_view(
                t.pri,
                |n: u32| n,
            ) && f.error == opt_text(t.error),
            Err(m) => json_response_fields(line@) == Err::<ResponseFieldsView, Seq<char>>(m@),
        },
{
    let v: serde_json::Value = serde_json::from_slice(line).map_err(|e| e.to_string())?;
    let g = |n: &str| v.get(n).cloned();
    Ok(ResponseTail {
        job: g("job").map(|j| j.to_string()),
        pri: g("pri").map(|x| serde_json::from_value(x).map_err(|e| e.to_string())),
        error: g("error").map(|e| e.to_string()),
    })
}

/// The request of a line (without its newline): a `Serde` error with the
/// parser's message when the line is no JSON document, else what the
/// document's fields make.
pub fn read_request(line: &[u8]) -> (r: Result<Request, RequestError>)
    ensures
        match json_request_fields(line@) {
            Err(m) => r matches Err(e) && e@ == RequestErrorView::Serde(m),
            Ok(f) => match request_result(f) {
                Ok(v) => r matches Ok(q) && q@ == v,
                Err(e) => r matches Err(x) && x@ == e,
            },
        },
{
    let h = match parse_request_head(line) {
        Err(m) => {
            return Err(RequestError::Serde(m));
        },
        Ok(h) => h,
    };
    let t = match parse_request_tail(line) {
        Err(m) => {
            return Err(RequestError::Serde(m));
        },
        Ok(t) => t,
    };
    let f = request_fields(h, t);
    assert(json_request_fields(line@) == Ok::<RequestFieldsView, Seq<char>>(f@));
    Request::from_fields(f)
}

/// The response of a line (without its newline): the parser's message when
/// the line is no JSON document, else what the document's fields make.
pub fn read_response(line: &[u8]) -> (r: Result<Response, String>)
    ensures
        match json_response_fields(line@) {
            Err(m) => r matches Err(e) && e@ == m,
            Ok(f) => match response_result(f) {
                Ok(v) => r matches Ok(q) && q@ == v,
                Err(m) => r matches Err(e) && e@ == m,
            },
        },
{
    let h = match parse_response_head(line) {
        Err(m) => {
            return Err(m);
        },
        Ok(h) => h,
    };
    let t = match parse_response_tail(line) {
        Err(m) => {
            return Err(m);
        },
        Ok(t) => t,
    };
    let f = response_fields(h, t);
    assert(json_response_fields(line@) == Ok::<ResponseFieldsView, Seq<char>>(f@));
    match Response::from_fields(f) {
        Ok(resp) => Ok(resp),
        Err(m) => Err(String::from_str(m)),
    }
}

} // verus!
