//! The routing rules: a pure mapping from a decoded request to either a
//! ready response or a filesystem action. The caller performs the action
//! and hands its outcome back to the matching response builder, so routing
//! itself never fails and never touches the filesystem.
use crate::bytes::{spec_starts_with, starts_with};
use crate::http::{is_supported_encoding, spec_gzip, Header, HeaderView};
use crate::request::{Method, Request, RequestView};
use crate::response::{spec_insert, Response, ResponseView, StatusCode};
use vstd::prelude::*;
use vstd::slice::slice_subrange;
use vstd::slice::slice_to_vec;
use vstd::string::StrSliceExecFns;
use vstd::string::StringSliceAdditionalSpecFns;

verus! {

/// What the router decides for one request.
pub enum RoutePlan {
    /// The response is ready as it stands.
    Respond(Response),
    /// Read the named file under the serving directory; the outcome picks
    /// the response through `file_read_response`.
    ReadFile(Vec<u8>),
    /// Write the given bytes to the named file under the serving
    /// directory; the response is `file_write_response` either way.
    WriteFile(Vec<u8>, Vec<u8>),
}

/// Ghost mirror of `RoutePlan`.
pub enum RoutePlanView {
    Respond(ResponseView),
    ReadFile(Seq<u8>),
    WriteFile(Seq<u8>, Seq<u8>),
}

impl View for RoutePlan {
    type V = RoutePlanView;

    open spec fn view(&self) -> RoutePlanView {
        match self {
            RoutePlan::Respond(r) => RoutePlanView::Respond(r@),
            RoutePlan::ReadFile(name) => RoutePlanView::ReadFile(name@),
            RoutePlan::WriteFile(name, contents) => RoutePlanView::WriteFile(name@, contents@),
        }
    }
}

/// A response with the given status and nothing else.
pub open spec fn spec_bare_response(status: StatusCode) -> ResponseView {
    ResponseView { status, headers: Seq::empty(), body: None }
}

/// Attaching a body inserts the `Content-Length` header alongside it, as
/// `Response::body` does.
pub open spec fn spec_body_attach(r: ResponseView, b: Seq<u8>) -> ResponseView {
    ResponseView {
        status: r.status,
        headers: spec_insert(
            r.headers,
            HeaderView::Custom("Content-Length".spec_bytes(), crate::bytes::spec_dec(b.len())),
        ),
        body: Some(b),
    }
}

/// The echo route: text/plain, the target's suffix as the body, and a
/// `Content-Encoding` claim when the request accepts a supported encoding.
/// The claim is only a claim: the body is sent uncompressed, a fixed
/// behavior of this route that clients of the engine rely on.
pub open spec fn spec_echo_response(r: RequestView) -> ResponseView {
    let base = ResponseView {
        status: StatusCode::Okay,
        headers: spec_insert(Seq::empty(), HeaderView::ContentType("text/plain".spec_bytes())),
        body: None,
    };
    let with_enc = if r.headers.contains_key("accept-encoding".spec_bytes())
        && r.headers["accept-encoding".spec_bytes()] == spec_gzip() {
        ResponseView {
            status: base.status,
            headers: spec_insert(base.headers, HeaderView::ContentEncoding(spec_gzip())),
            body: base.body,
        }
    } else {
        base
    };
    spec_body_attach(with_enc, r.target.skip("/echo/".spec_bytes().len() as int))
}

/// The user-agent route: the reflected header value, or a bare 400 when
/// the request carries no `User-Agent` header.
pub open spec fn spec_user_agent_response(r: RequestView) -> ResponseView {
    if r.headers.contains_key("user-agent".spec_bytes()) {
        spec_body_attach(
            ResponseView {
                status: StatusCode::Okay,
                headers: spec_insert(
                    Seq::empty(),
                    HeaderView::ContentType("text/plain".spec_bytes()),
                ),
                body: None,
            },
            r.headers["user-agent".spec_bytes()],
        )
    } else {
        spec_bare_response(StatusCode::BadRequest)
    }
}

/// The routing rules, in order, first match winning.
pub open spec fn spec_route(r: RequestView) -> RoutePlanView {
    if r.method == Method::Get && r.target == "/".spec_bytes() {
        RoutePlanView::Respond(spec_bare_response(StatusCode::Okay))
    } else if r.method == Method::Get && spec_starts_with(r.target, "/echo/".spec_bytes()) {
        RoutePlanView::Respond(spec_echo_response(r))
    } else if r.method == Method::Get && r.target == "/user-agent".spec_bytes() {
        RoutePlanView::Respond(spec_user_agent_response(r))
    } else if r.method == Method::Get && spec_starts_with(r.target, "/files/".spec_bytes()) {
        RoutePlanView::ReadFile(r.target.skip("/files/".spec_bytes().len() as int))
    } else if r.method == Method::Post && spec_starts_with(r.target, "/files/".spec_bytes()) {
        RoutePlanView::WriteFile(
            r.target.skip("/files/".spec_bytes().len() as int),
            match r.body {
                Some(b) => b,
                None => Seq::empty(),
            },
        )
    } else {
        RoutePlanView::Respond(spec_bare_response(StatusCode::NotFound))
    }
}

/// Map a request to its route. Pure: the decision is a function of the
/// request alone, and every request gets exactly one plan.
pub fn route(request: &Request) -> (p: RoutePlan)
    ensures
        p@ == spec_route(request@),
{
    let target = request.target.as_slice();
    let root = "/".as_bytes_vec();
    if request.method == Method::Get && crate::bytes::bytes_eq(target, root.as_slice()) {
        return RoutePlan::Respond(Response::new(StatusCode::Okay));
    }
    let echo_prefix = "/echo/".as_bytes_vec();
    if request.method == Method::Get && starts_with(target, echo_prefix.as_slice()) {
        let mut response = Response::new(StatusCode::Okay);
        response.add_header(Header::ContentType("text/plain".as_bytes_vec()));
        let accept_encoding = "accept-encoding".as_bytes_vec();
        if let Some(enc) = request.headers.get(accept_encoding.as_slice()) {
            if is_supported_encoding(enc.as_slice()) {
                response.add_header(Header::ContentEncoding("gzip".as_bytes_vec()));
            }
        }
        let suffix = slice_subrange(target, echo_prefix.len(), request.target.len());
        proof {
            assert(suffix@ =~= request.target@.skip("/echo/".spec_bytes().len() as int));
        }
        response.body(slice_to_vec(suffix));
        return RoutePlan::Respond(response);
    }
    let user_agent_target = "/user-agent".as_bytes_vec();
    if request.method == Method::Get && crate::bytes::bytes_eq(
        target,
        user_agent_target.as_slice(),
    ) {
        let user_agent = "user-agent".as_bytes_vec();
        let response = match request.headers.get(user_agent.as_slice()) {
            Some(ua) => {
                let mut response = Response::new(StatusCode::Okay);
                response.add_header(Header::ContentType("text/plain".as_bytes_vec()));
                response.body(ua.clone());
                response
            },
            None => Response::new(StatusCode::BadRequest),
        };
        return RoutePlan::Respond(response);
    }
    let files_prefix = "/files/".as_bytes_vec();
    if starts_with(target, files_prefix.as_slice()) {
        let filename = slice_to_vec(
            slice_subrange(target, files_prefix.len(), request.target.len()),
        );
        proof {
            assert(filename@ =~= request.target@.skip("/files/".spec_bytes().len() as int));
        }
        match request.method {
            Method::Get => {
                return RoutePlan::ReadFile(filename);
            },
            Method::Post => {
                let contents = match &request.body {
                    Some(b) => b.clone(),
                    None => Vec::new(),
                };
                return RoutePlan::WriteFile(filename, contents);
            },
        }
    }
    RoutePlan::Respond(Response::new(StatusCode::NotFound))
}

/// What a file read's outcome means: the contents as an octet stream, or a
/// bare 404 when the file could not be read.
pub open spec fn spec_file_read_response(outcome: Option<Seq<u8>>) -> ResponseView {
    match outcome {
        Some(contents) => spec_body_attach(
            ResponseView {
                status: StatusCode::Okay,
                headers: spec_insert(
                    Seq::empty(),
                    HeaderView::ContentType("application/octet-stream".spec_bytes()),
                ),
                body: None,
            },
            contents,
        ),
        None => spec_bare_response(StatusCode::NotFound),
    }
}

/// Turn a file read's outcome into the response for a `ReadFile` plan.
pub fn file_read_response(outcome: Option<Vec<u8>>) -> (r: Response)
    ensures
        r.wf(),
        r@ == spec_file_read_response(
            match outcome {
                Some(b) => Some(b@),
                None => None,
            },
        ),
{
    match outcome {
        Some(contents) => {
            let mut response = Response::new(StatusCode::Okay);
            response.add_header(Header::ContentType("application/octet-stream".as_bytes_vec()));
            response.body(contents);
            response
        },
        None => Response::new(StatusCode::NotFound),
    }
}

/// The response for a `WriteFile` plan: created, whatever the write's
/// outcome, as the rules prescribe.
pub fn file_write_response() -> (r: Response)
    ensures
        r.wf(),
        r@ == spec_bare_response(StatusCode::Created),
{
    Response::new(StatusCode::Created)
}

} // verus!
