//! Requests and responses of the job centre, read from the fields of their
//! JSON documents. Each field arrives as what reading it gave: missing,
//! present but of the wrong kind (with the reader's message), or its value.
//! A job travels as the JSON text of its document.
use vstd::prelude::*;

verus! {

/// One field of a document, as read.
pub enum Field<T> {
    Missing,
    Invalid(String),
    Present(T),
}

pub ghost enum FieldView<V> {
    Missing,
    Invalid(Seq<char>),
    Present(V),
}

pub open spec fn text_field(f: Field<String>) -> FieldView<Seq<char>> {
    match f {
        Field::Missing => FieldView::Missing,
        Field::Invalid(m) => FieldView::Invalid(m@),
        Field::Present(v) => FieldView::Present(v@),
    }
}

pub open spec fn texts(v: Vec<String>) -> Seq<Seq<char>> {
    v@.map_values(|s: String| s@)
}

pub open spec fn texts_field(f: Field<Vec<String>>) -> FieldView<Seq<Seq<char>>> {
    match f {
        Field::Missing => FieldView::Missing,
        Field::Invalid(m) => FieldView::Invalid(m@),
        Field::Present(v) => FieldView::Present(texts(v)),
    }
}

pub open spec fn plain_field<T>(f: Field<T>) -> FieldView<T> {
    match f {
        Field::Missing => FieldView::Missing,
        Field::Invalid(m) => FieldView::Invalid(m@),
        Field::Present(v) => FieldView::Present(v),
    }
}

/// The fields of a request document.
pub struct RequestFields {
    /// `request`; `Invalid` when it is not a string.
    pub request: Field<String>,
    pub queue: Field<String>,
    pub job: Option<String>,
    pub pri: Field<u32>,
    pub queues: Field<Vec<String>>,
    pub wait: Field<bool>,
    pub id: Field<u32>,
}

/// An optional text, as its characters.
pub open spec fn opt_text(o: Option<String>) -> Option<Seq<char>> {
    match o {
        Some(s) => Some(s@),
        None => None,
    }
}

/// The fields of a request document, as values.
pub ghost struct RequestFieldsView {
    pub request: FieldView<Seq<char>>,
    pub queue: FieldView<Seq<char>>,
    pub job: Option<Seq<char>>,
    pub pri: FieldView<u32>,
    pub queues: FieldView<Seq<Seq<char>>>,
    pub wait: FieldView<bool>,
    pub id: FieldView<u32>,
}

impl View for RequestFields {
    type V = RequestFieldsView;

    open spec fn view(&self) -> RequestFieldsView {
        RequestFieldsView {
            request: text_field(self.request),
            queue: text_field(self.queue),
            job: opt_text(self.job),
            pri: plain_field(self.pri),
            queues: texts_field(self.queues),
            wait: plain_field(self.wait),
            id: plain_field(self.id),
        }
    }
}

pub enum Request {
    Put { queue: String, job: String, priority: u32 },
    Get { queues: Vec<String>, wait: bool },
    Delete { id: u32 },
    Abort { id: u32 },
}

pub ghost enum RequestView {
    Put { queue: Seq<char>, job: Seq<char>, priority: u32 },
    Get { queues: Seq<Seq<char>>, wait: bool },
    Delete { id: u32 },
    Abort { id: u32 },
}

impl View for Request {
    type V = RequestView;

    open spec fn view(&self) -> RequestView {
        match self {
            Request::Put { queue, job, priority } => RequestView::Put {
                queue: queue@,
                job: job@,
                priority: *priority,
            },
            Request::Get { queues, wait } => RequestView::Get { queues: texts(*queues), wait: *wait },
            Request::Delete { id } => RequestView::Delete { id: *id },
            Request::Abort { id } => RequestView::Abort { id: *id },
        }
    }
}

/// Why a request line was refused.
pub enum RequestError {
    MaxLineLengthExceeded,
    /// The line is no JSON document, or a field has the wrong kind.
    Serde(String),
    FieldNotFound(&'static str),
    InvalidRequest(String),
}

pub ghost enum RequestErrorView {
    MaxLineLengthExceeded,
    Serde(Seq<char>),
    FieldNotFound(Seq<char>),
    InvalidRequest(Seq<char>),
}

impl View for RequestError {
    type V = RequestErrorView;

    open spec fn view(&self) -> RequestErrorView {
        match self {
            RequestError::MaxLineLengthExceeded => RequestErrorView::MaxLineLengthExceeded,
            RequestError::Serde(m) => RequestErrorView::Serde(m@),
            RequestError::FieldNotFound(n) => RequestErrorView::FieldNotFound(n@),
            RequestError::InvalidRequest(m) => RequestErrorView::InvalidRequest(m@),
        }
    }
}

/// The text that answers a refused request.
pub open spec fn request_error_text(e: RequestErrorView) -> Seq<char> {
    match e {
        RequestErrorView::MaxLineLengthExceeded => "max line length exceeded"@,
        RequestErrorView::Serde(m) => "serde error: "@ + m,
        RequestErrorView::FieldNotFound(f) => "field not found: "@ + f,
        RequestErrorView::InvalidRequest(k) => "invalid request: "@ + k,
    }
}

impl RequestError {
    /// The text that answers the refused request.
    pub fn text(&self) -> (r: String)
        ensures
            r@ == request_error_text(self@),
    {
        match self {
            RequestError::MaxLineLengthExceeded => String::from_str("max line length exceeded"),
            RequestError::Serde(m) => {
                let mut s = String::from_str("serde error: ");
                s.append(m.as_str());
                s
            },
            RequestError::FieldNotFound(f) => {
                let mut s = String::from_str("field not found: ");
                s.append(f);
                s
            },
            RequestError::InvalidRequest(k) => {
                let mut s = String::from_str("invalid request: ");
                s.append(k.as_str());
                s
            },
        }
    }
}

/// A required field: its value, or why there is none.
pub open spec fn required<V>(f: FieldView<V>, name: Seq<char>) -> Result<V, RequestErrorView> {
    match f {
        FieldView::Missing => Err(RequestErrorView::FieldNotFound(name)),
        FieldView::Invalid(m) => Err(RequestErrorView::Serde(m)),
        FieldView::Present(v) => Ok(v),
    }
}

/// The request that a document's fields make, checked in the order the
/// protocol reads them.
pub open spec fn request_result(f: RequestFieldsView) -> Result<RequestView, RequestErrorView> {
    match f.request {
        FieldView::Missing => Err(RequestErrorView::FieldNotFound("request"@)),
        FieldView::Invalid(_) => Err(RequestErrorView::InvalidRequest("invalid field type"@)),
        FieldView::Present(kind) => if kind == "put"@ {
            match required(f.queue, "queue"@) {
                Err(e) => Err(e),
                Ok(queue) => match f.job {
                    None => Err(RequestErrorView::FieldNotFound("job"@)),
                    Some(job) => match required(f.pri, "pri"@) {
                        Err(e) => Err(e),
                        Ok(priority) => Ok(RequestView::Put { queue, job, priority }),
                    },
                },
            }
        } else if kind == "get"@ {
            match required(f.queues, "queues"@) {
                Err(e) => Err(e),
                Ok(queues) => match f.wait {
                    FieldView::Missing => Ok(RequestView::Get { queues, wait: false }),
                    FieldView::Invalid(m) => Err(RequestErrorView::Serde(m)),
                    FieldView::Present(wait) => Ok(RequestView::Get { queues, wait }),
                },
            }
        } else if kind == "delete"@ {
            match required(f.id, "id"@) {
                Err(e) => Err(e),
                Ok(id) => Ok(RequestView::Delete { id }),
            }
        } else if kind == "abort"@ {
            match required(f.id, "id"@) {
                Err(e) => Err(e),
                Ok(id) => Ok(RequestView::Abort { id }),
            }
        } else {
            Err(RequestErrorView::InvalidRequest(kind))
        },
    }
}

fn required_text(f: Field<String>, name: &'static str) -> (r: Result<String, RequestError>)
    ensures
        match required(text_field(f), name@) {
            Ok(v) => r matches Ok(s) && s@ == v,
            Err(e) => r matches Err(x) && x@ == e,
        },
{
    match f {
        Field::Missing => Err(RequestError::FieldNotFound(name)),
        Field::Invalid(m) => Err(RequestError::Serde(m)),
        Field::Present(v) => Ok(v),
    }
}

fn required_number(f: Field<u32>, name: &'static str) -> (r: Result<u32, RequestError>)
    ensures
        match required(plain_field(f), name@) {
            Ok(v) => r matches Ok(n) && n == v,
            Err(e) => r matches Err(x) && x@ == e,
        },
{
    match f {
        Field::Missing => Err(RequestError::FieldNotFound(name)),
        Field::Invalid(m) => Err(RequestError::Serde(m)),
        Field::Present(v) => Ok(v),
    }
}

/// Whether `s` is the text `t`.
pub fn text_is(s: &str, t: &str) -> (r: bool)
    ensures
        r == (s@ == t@),
{
    let a = crate::text::chars_of(s);
    let b = crate::text::chars_of(t);
    if a.len() != b.len() {
        return false;
    }
    let mut i: usize = 0;
    while i < a.len()
        invariant
            a@ == s@,
            b@ == t@,
            a@.len() == b@.len(),
            i <= a@.len(),
            forall|j: int| 0 <= j < i ==> a@[j] == b@[j],
        decreases a@.len() - i,
    {
        if a[i] != b[i] {
            return false;
        }
        i += 1;
    }
    assert(a@ =~= b@);
    true
}

impl Request {
    /// The request that a document's fields make.
    pub fn from_fields(f: RequestFields) -> (r: Result<Request, RequestError>)
        ensures
            match request_result(f@) {
                Ok(v) => r matches Ok(req) && req@ == v,
                Err(e) => r matches Err(x) && x@ == e,
            },
    {
        let kind = match f.request {
            Field::Missing => {
                return Err(RequestError::FieldNotFound("request"));
            },
            Field::Invalid(_) => {
                return Err(RequestError::InvalidRequest("invalid field type".to_owned()));
            },
            Field::Present(kind) => kind,
        };
        if text_is(kind.as_str(), "put") {
            let queue = match required_text(f.queue, "queue") {
                Ok(q) => q,
                Err(e) => {
                    return Err(e);
                },
            };
            let job = match f.job {
                None => {
                    return Err(RequestError::FieldNotFound("job"));
                },
                Some(j) => j,
            };
            let priority = match required_number(f.pri, "pri") {
                Ok(p) => p,
                Err(e) => {
                    return Err(e);
                },
            };
            Ok(Request::Put { queue, job, priority })
        } else if text_is(kind.as_str(), "get") {
            let queues = match f.queues {
                Field::Missing => {
                    return Err(RequestError::FieldNotFound("queues"));
                },
                Field::Invalid(m) => {
                    return Err(RequestError::Serde(m));
                },
                Field::Present(qs) => qs,
            };
            let wait = match f.wait {
                Field::Missing => false,
                Field::Invalid(m) => {
                    return Err(RequestError::Serde(m));
                },
                Field::Present(w) => w,
            };
            Ok(Request::Get { queues, wait })
        } else if text_is(kind.as_str(), "delete") {
            match required_number(f.id, "id") {
                Ok(id) => Ok(Request::Delete { id }),
                Err(e) => Err(e),
            }
        } else if text_is(kind.as_str(), "abort") {
            match required_number(f.id, "id") {
                Ok(id) => Ok(Request::Abort { id }),
                Err(e) => Err(e),
            }
        } else {
            Err(RequestError::InvalidRequest(kind))
        }
    }
}

/// The `id` field of a response document.
pub enum IdField {
    Missing,
    /// Present, but no number.
    NotNumber,
    /// A number, and its value when it fits a `u32`.
    Number(Option<u32>),
}

/// The fields of a response document.
pub struct ResponseFields {
    /// `status`; `Invalid` when it is not a string.
    pub status: Field<String>,
    pub id: IdField,
    /// `queue`, when it is a string.
    pub queue: Option<String>,
    pub job: Option<String>,
    pub pri: Field<u32>,
    /// `error`, as JSON text.
    pub error: Option<String>,
}

/// The fields of a response document, as values.
pub ghost struct ResponseFieldsView {
    pub status: FieldView<Seq<char>>,
    pub id: IdField,
    pub queue: Option<Seq<char>>,
    pub job: Option<Seq<char>>,
    pub pri: FieldView<u32>,
    pub error: Option<Seq<char>>,
}

impl View for ResponseFields {
    type V = ResponseFieldsView;

    open spec fn view(&self) -> ResponseFieldsView {
        ResponseFieldsView {
            status: text_field(self.status),
            id: self.id,
            queue: opt_text(self.queue),
            job: opt_text(self.job),
            pri: plain_field(self.pri),
            error: opt_text(self.error),
        }
    }
}

pub enum Response {
    Okay,
    Id(u32),
    JobRef(u32, String, u32, String),
    Error(String),
    NoJob,
}

pub ghost enum ResponseView {
    Okay,
    Id(u32),
    JobRef(u32, Seq<char>, u32, Seq<char>),
    Error(Seq<char>),
    NoJob,
}

impl View for Response {
    type V = ResponseView;

    open spec fn view(&self) -> ResponseView {
        match self {
            Response::Okay => ResponseView::Okay,
            Response::Id(id) => ResponseView::Id(*id),
            Response::JobRef(id, job, pri, queue) => ResponseView::JobRef(*id, job@, *pri, queue@),
            Response::Error(m) => ResponseView::Error(m@),
            Response::NoJob => ResponseView::NoJob,
        }
    }
}

/// The response that a document's fields make; the error is the message.
pub open spec fn response_result(f: ResponseFieldsView) -> Result<ResponseView, Seq<char>> {
    match f.status {
        FieldView::Present(s) => if s == "ok"@ {
            match f.id {
                IdField::Number(n) => match f.queue {
                    Some(queue) => match n {
                        None => Err("invalid field id"@),
                        Some(id) => match f.job {
                            None => Err("invalid field job"@),
                            Some(job) => match f.pri {
                                FieldView::Missing => Err("no field pri"@),
                                FieldView::Invalid(_) => Err("invalid field job"@),
                                FieldView::Present(pri) => Ok(
                                    ResponseView::JobRef(id, job, pri, queue),
                                ),
                            },
                        },
                    },
                    None => match n {
                        None => Err("invalid field id"@),
                        Some(id) => Ok(ResponseView::Id(id)),
                    },
                },
                _ => Ok(ResponseView::Okay),
            }
        } else if s == "error"@ {
            match f.error {
                Some(e) => Ok(ResponseView::Error(e)),
                None => Ok(ResponseView::Error("<EMPTY ERROR MESSAGE>"@)),
            }
        } else if s == "no-job"@ {
            Ok(ResponseView::NoJob)
        } else {
            Err("no status field"@)
        },
        _ => Err("no status field"@),
    }
}

impl Response {
    /// The response that a document's fields make.
    pub fn from_fields(f: ResponseFields) -> (r: Result<Response, &'static str>)
        ensures
            match response_result(f@) {
                Ok(v) => r matches Ok(resp) && resp@ == v,
                Err(m) => r matches Err(x) && x@ == m,
            },
    {
        let status = match f.status {
            Field::Present(s) => s,
            _ => {
                return Err("no status field");
            },
        };
        if text_is(status.as_str(), "ok") {
            match f.id {
                IdField::Number(n) => match f.queue {
                    Some(queue) => {
                        let id = match n {
                            None => {
                                return Err("invalid field id");
                            },
                            Some(id) => id,
                        };
                        let job = match f.job {
                            None => {
                                return Err("invalid field job");
                            },
                            Some(job) => job,
                        };
                        let pri = match f.pri {
                            Field::Missing => {
                                return Err("no field pri");
                            },
                            Field::Invalid(_) => {
                                return Err("invalid field job");
                            },
                            Field::Present(p) => p,
                        };
                        Ok(Response::JobRef(id, job, pri, queue))
                    },
                    None => match n {
                        None => Err("invalid field id"),
                        Some(id) => Ok(Response::Id(id)),
                    },
                },
                _ => Ok(Response::Okay),
            }
        } else if text_is(status.as_str(), "error") {
            match f.error {
                Some(e) => Ok(Response::Error(e)),
                None => Ok(Response::Error("<EMPTY ERROR MESSAGE>".to_owned())),
            }
        } else if text_is(status.as_str(), "no-job") {
            Ok(Response::NoJob)
        } else {
            Err("no status field")
        }
    }
}

} // verus!
