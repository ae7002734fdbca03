//! The response side of the engine: a status code, an ordered and
//! slot-deduplicated header set, and an optional body, encoded into one
//! wire-format byte buffer.
use crate::bytes::{dec_bytes, lemma_match_at_concat_left, lemma_match_at_concat_right, match_at,
    spec_contains, spec_dec};
use crate::http::{lemma_colon_space_concrete, lemma_crlf_concrete, lemma_same_slot_not_lt,
    lemma_same_slot_subst, lemma_slot_lt_trans, lemma_slot_trichotomy, lemma_space_concrete,
    spec_crlf, spec_version, version_bytes, Header, HeaderView};
use vstd::prelude::*;
use vstd::string::StrSliceExecFns;
use vstd::string::StringSliceAdditionalSpecFns;

verus! {

/// A response status: one of the closed set of codes the routes produce.
#[derive(Debug, Clone, Copy, PartialEq, Eq, Structural)]
pub enum StatusCode {
    Okay,
    Created,
    NotFound,
    BadRequest,
}

impl StatusCode {
    /// The code and reason phrase as they appear in the status line.
    pub open spec fn spec_text(self) -> Seq<u8> {
        match self {
            StatusCode::Okay => "200 OK".spec_bytes(),
            StatusCode::Created => "201 Created".spec_bytes(),
            StatusCode::NotFound => "404 Not Found".spec_bytes(),
            StatusCode::BadRequest => "400 Bad Request".spec_bytes(),
        }
    }

    pub fn as_bytes(&self) -> (r: Vec<u8>)
        ensures
            r@ == self.spec_text(),
    {
        match self {
            StatusCode::Okay => "200 OK".as_bytes_vec(),
            StatusCode::Created => "201 Created".as_bytes_vec(),
            StatusCode::NotFound => "404 Not Found".as_bytes_vec(),
            StatusCode::BadRequest => "400 Bad Request".as_bytes_vec(),
        }
    }
}

/// The headers are strictly ordered by slot, so no slot appears twice.
pub open spec fn sorted_headers(hs: Seq<HeaderView>) -> bool {
    forall|i: int, j: int| 0 <= i < j < hs.len() ==> hs[i].slot_lt(hs[j])
}

/// Insertion into the ordered header set: a header whose slot is already
/// present replaces the older one, any other lands at its ordered position.
pub open spec fn spec_insert(hs: Seq<HeaderView>, h: HeaderView) -> Seq<HeaderView>
    decreases hs.len(),
{
    if hs.len() == 0 {
        seq![h]
    } else if hs[0].slot_lt(h) {
        seq![hs[0]] + spec_insert(hs.drop_first(), h)
    } else if h.same_slot(hs[0]) {
        seq![h] + hs.drop_first()
    } else {
        seq![h] + hs
    }
}

/// Inserting preserves the order, adds nothing but the new header, and the
/// new header is present afterwards.
pub proof fn lemma_insert_sorted(hs: Seq<HeaderView>, h: HeaderView)
    requires
        sorted_headers(hs),
    ensures
        sorted_headers(spec_insert(hs, h)),
        forall|k: int|
            0 <= k < spec_insert(hs, h).len() ==> (spec_insert(hs, h)[k] == h || hs.contains(
                spec_insert(hs, h)[k],
            )),
        spec_insert(hs, h).contains(h),
    decreases hs.len(),
{
    let res = spec_insert(hs, h);
    if hs.len() == 0 {
        assert(res[0] == h);
    } else if hs[0].slot_lt(h) {
        let rest = spec_insert(hs.drop_first(), h);
        assert(sorted_headers(hs.drop_first()));
        lemma_insert_sorted(hs.drop_first(), h);
        assert forall|k: int| 0 <= k < res.len() implies (res[k] == h || hs.contains(res[k])) by {
            if k == 0 {
                assert(hs[0] == res[0]);
            } else {
                assert(res[k] == rest[k - 1]);
                if rest[k - 1] != h {
                    let i = choose|i: int|
                        0 <= i < hs.drop_first().len() && hs.drop_first()[i] == rest[k - 1];
                    assert(hs[i + 1] == rest[k - 1]);
                }
            }
        }
        assert forall|i: int, j: int| 0 <= i < j < res.len() implies res[i].slot_lt(res[j]) by {
            if i == 0 {
                if res[j] == h {
                } else {
                    let w = choose|w: int|
                        0 <= w < hs.drop_first().len() && hs.drop_first()[w] == rest[j - 1];
                    assert(hs[w + 1] == res[j]);
                    assert(hs[0].slot_lt(hs[w + 1]));
                }
            } else {
                assert(rest[i - 1].slot_lt(rest[j - 1]));
            }
        }
        let w = choose|w: int| 0 <= w < rest.len() && rest[w] == h;
        assert(res[w + 1] == h);
        assert(res.contains(h));
    } else if h.same_slot(hs[0]) {
        assert forall|i: int, j: int| 0 <= i < j < res.len() implies res[i].slot_lt(res[j]) by {
            if i == 0 {
                assert(hs[0].slot_lt(hs[j]));
                lemma_same_slot_subst(h, hs[0], hs[j]);
            } else {
                assert(hs[i].slot_lt(hs[j]));
            }
        }
        assert(res[0] == h);
        assert forall|k: int| 0 <= k < res.len() implies (res[k] == h || hs.contains(res[k])) by {
            if k > 0 {
                assert(res[k] == hs[k]);
            }
        }
    } else {
        lemma_slot_trichotomy(hs[0], h);
        assert(h.slot_lt(hs[0]));
        assert forall|i: int, j: int| 0 <= i < j < res.len() implies res[i].slot_lt(res[j]) by {
            if i == 0 {
                if j > 1 {
                    assert(hs[0].slot_lt(hs[j - 1]));
                    lemma_slot_lt_trans(h, hs[0], hs[j - 1]);
                }
            } else {
                assert(hs[i - 1].slot_lt(hs[j - 1]));
            }
        }
        assert(res[0] == h);
        assert forall|k: int| 0 <= k < res.len() implies (res[k] == h || hs.contains(res[k])) by {
            if k > 0 {
                assert(res[k] == hs[k - 1]);
            }
        }
    }
}

/// Where the new header lands, given how far the existing slots sort below it.
pub proof fn lemma_insert_at(hs: Seq<HeaderView>, h: HeaderView, k: int)
    requires
        sorted_headers(hs),
        0 <= k <= hs.len(),
        forall|i: int| 0 <= i < k ==> hs[i].slot_lt(h),
        k < hs.len() ==> !hs[k].slot_lt(h),
    ensures
        spec_insert(hs, h) == if k < hs.len() && h.same_slot(hs[k]) {
            hs.update(k, h)
        } else {
            hs.insert(k, h)
        },
    decreases hs.len(),
{
    if hs.len() == 0 {
        assert(spec_insert(hs, h) =~= hs.insert(0, h));
    } else if k == 0 {
        if h.same_slot(hs[0]) {
            lemma_same_slot_not_lt(hs[0], h);
            assert(spec_insert(hs, h) =~= hs.update(0, h));
        } else {
            lemma_slot_trichotomy(hs[0], h);
            assert(spec_insert(hs, h) =~= hs.insert(0, h));
        }
    } else {
        assert(hs[0].slot_lt(h));
        assert(sorted_headers(hs.drop_first()));
        lemma_insert_at(hs.drop_first(), h, k - 1);
        if k < hs.len() && h.same_slot(hs[k]) {
            assert(spec_insert(hs, h) =~= hs.update(k, h));
        } else {
            assert(spec_insert(hs, h) =~= hs.insert(k, h));
        }
    }
}

/// Every header in the set has its whole line, contiguous, in the block.
pub proof fn lemma_block_contains_line(hs: Seq<HeaderView>, i: int)
    requires
        0 <= i < hs.len(),
    ensures
        spec_contains(spec_header_block(hs), spec_header_line(hs[i])),
    decreases i,
{
    if i == 0 {
        let line = spec_header_line(hs[0]);
        assert(line.subrange(0, line.len() as int) =~= line);
        assert(match_at(line, line, 0));
        lemma_match_at_concat_left(line, spec_header_block(hs.drop_first()), line, 0);
    } else {
        lemma_block_contains_line(hs.drop_first(), i - 1);
        let line = spec_header_line(hs.drop_first()[i - 1]);
        let k = choose|k: int| match_at(spec_header_block(hs.drop_first()), line, k);
        lemma_match_at_concat_right(
            spec_header_line(hs[0]),
            spec_header_block(hs.drop_first()),
            line,
            k,
        );
    }
}

/// Attaching a body always places a `Content-Length` header carrying the
/// body's exact byte length: the header stands in the new header set, and
/// its whole line stands in the encoded output.
pub proof fn lemma_body_content_length(r: ResponseView, b: Seq<u8>)
    requires
        sorted_headers(r.headers),
    ensures
        ({
            let clh = HeaderView::Custom("Content-Length".spec_bytes(), spec_dec(b.len()));
            let attached = (ResponseView {
                status: r.status,
                headers: spec_insert(r.headers, clh),
                body: Some(b),
            });
            spec_insert(r.headers, clh).contains(clh) && spec_contains(
                spec_encode(attached),
                spec_header_line(clh),
            )
        }),
{
    let clh = HeaderView::Custom("Content-Length".spec_bytes(), spec_dec(b.len()));
    let attached = ResponseView { status: r.status, headers: spec_insert(r.headers, clh), body: Some(b) };
    lemma_insert_sorted(r.headers, clh);
    let hs = spec_insert(r.headers, clh);
    let i = choose|i: int| 0 <= i < hs.len() && hs[i] == clh;
    lemma_block_contains_line(hs, i);
    let line = spec_header_line(clh);
    let block = spec_header_block(hs);
    let k = choose|k: int| match_at(block, line, k);
    let sl = spec_status_line(attached.status);
    lemma_match_at_concat_right(sl, block, line, k);
    lemma_match_at_concat_left(sl + block, spec_crlf(), line, sl.len() + k);
    lemma_match_at_concat_left(sl + block + spec_crlf(), b, line, sl.len() + k);
    assert(match_at(spec_encode(attached), line, sl.len() + k));
}

/// A response with no headers and no body encodes to exactly the status
/// line followed by the blank line, and nothing else.
pub proof fn lemma_encode_minimal(r: ResponseView)
    requires
        r.headers.len() == 0,
        r.body is None,
    ensures
        spec_encode(r) == spec_status_line(r.status) + spec_crlf(),
{
    assert(spec_header_block(r.headers) =~= Seq::<u8>::empty());
    assert(spec_encode(r) =~= spec_status_line(r.status) + spec_crlf());
}

/// Ghost mirror of `Response`.
#[verifier::ext_equal]
pub struct ResponseView {
    pub status: StatusCode,
    pub headers: Seq<HeaderView>,
    pub body: Option<Seq<u8>>,
}

/// A structured response, consumed by `encode` once it is assembled.
#[derive(Debug)]
pub struct Response {
    status_code: StatusCode,
    headers: Vec<Header>,
    body: Option<Vec<u8>>,
}

impl View for Response {
    type V = ResponseView;

    closed spec fn view(&self) -> ResponseView {
        ResponseView {
            status: self.status_code,
            headers: self.headers@.map_values(|h: Header| h@),
            body: match self.body {
                Some(b) => Some(b@),
                None => None,
            },
        }
    }
}

/// One header as it appears on the wire.
pub open spec fn spec_header_line(h: HeaderView) -> Seq<u8> {
    h.name() + ": ".spec_bytes() + h.value() + spec_crlf()
}

/// The header block: every header's line, in the set's order.
pub open spec fn spec_header_block(hs: Seq<HeaderView>) -> Seq<u8>
    decreases hs.len(),
{
    if hs.len() == 0 {
        Seq::empty()
    } else {
        spec_header_line(hs[0]) + spec_header_block(hs.drop_first())
    }
}

pub proof fn lemma_header_block_push(hs: Seq<HeaderView>, h: HeaderView)
    ensures
        spec_header_block(hs.push(h)) == spec_header_block(hs) + spec_header_line(h),
    decreases hs.len(),
{
    if hs.len() == 0 {
        assert(hs.push(h)[0] == h);
        assert(hs.push(h).len() == 1);
        assert(hs.push(h).drop_first() =~= Seq::<HeaderView>::empty());
        assert(spec_header_block(hs.push(h)) == spec_header_line(h) + spec_header_block(
            Seq::<HeaderView>::empty(),
        ));
        assert(spec_header_block(hs.push(h)) =~= spec_header_block(hs) + spec_header_line(h));
    } else {
        assert(hs.push(h)[0] == hs[0]);
        assert(hs.push(h).drop_first() =~= hs.drop_first().push(h));
        lemma_header_block_push(hs.drop_first(), h);
        assert(spec_header_block(hs.push(h)) == spec_header_line(hs[0]) + (spec_header_block(
            hs.drop_first(),
        ) + spec_header_line(h)));
        assert(spec_header_block(hs.push(h)) =~= spec_header_block(hs) + spec_header_line(h));
    }
}

/// The status line: version, space, status text, line terminator.
pub open spec fn spec_status_line(sc: StatusCode) -> Seq<u8> {
    spec_version() + " ".spec_bytes() + sc.spec_text() + spec_crlf()
}

pub open spec fn spec_body_bytes(b: Option<Seq<u8>>) -> Seq<u8> {
    match b {
        Some(bs) => bs,
        None => Seq::empty(),
    }
}

/// The whole wire image of a response: status line, header block, blank
/// line, then the body bytes with no further framing.
pub open spec fn spec_encode(r: ResponseView) -> Seq<u8> {
    spec_status_line(r.status) + spec_header_block(r.headers) + spec_crlf() + spec_body_bytes(
        r.body,
    )
}

impl Response {
    /// The header set is strictly ordered by slot, hence duplicate-free.
    pub open spec fn wf(self) -> bool {
        sorted_headers(self@.headers)
    }

    /// A response with the given status, no headers, and no body.
    pub fn new(status_code: StatusCode) -> (r: Response)
        ensures
            r.wf(),
            r@.status == status_code,
            r@.headers == Seq::<HeaderView>::empty(),
            r@.body is None,
    {
        let r = Response { status_code, headers: Vec::new(), body: None };
        proof {
            assert(r@.headers =~= Seq::<HeaderView>::empty());
        }
        r
    }

    /// Insert a header at its ordered place; a header already occupying the
    /// slot is replaced, so later insertion wins.
    pub fn add_header(&mut self, header: Header)
        requires
            old(self).wf(),
        ensures
            final(self).wf(),
            final(self)@.status == old(self)@.status,
            final(self)@.body == old(self)@.body,
            final(self)@.headers == spec_insert(old(self)@.headers, header@),
    {
        let ghost old_hs = self@.headers;
        let mut k: usize = 0;
        while k < self.headers.len() && self.headers[k].slot_less(&header)
            invariant
                0 <= k <= self.headers@.len(),
                *self == *old(self),
                old_hs == self.headers@.map_values(|h: Header| h@),
                old_hs.len() == self.headers@.len(),
                forall|i: int| 0 <= i < k ==> old_hs[i].slot_lt(header@),
            decreases self.headers@.len() - k,
        {
            proof {
                assert(old_hs[k as int] == self.headers@[k as int]@);
            }
            k = k + 1;
        }
        proof {
            lemma_insert_at(old_hs, header@, k as int);
        }
        if k < self.headers.len() && header.slot_matches(&self.headers[k]) {
            self.headers.remove(k);
            self.headers.insert(k, header);
            proof {
                assert(self@.headers =~= old_hs.update(k as int, header@));
                lemma_insert_sorted(old_hs, header@);
            }
        } else {
            self.headers.insert(k, header);
            proof {
                assert(self@.headers =~= old_hs.insert(k as int, header@));
                lemma_insert_sorted(old_hs, header@);
            }
        }
    }

    /// Attach the body and, in the same step, the `Content-Length` header
    /// carrying the body's exact byte length in decimal.
    pub fn body(&mut self, body: Vec<u8>)
        requires
            old(self).wf(),
        ensures
            final(self).wf(),
            final(self)@.status == old(self)@.status,
            final(self)@.body == Some(body@),
            final(self)@.headers == spec_insert(
                old(self)@.headers,
                HeaderView::Custom("Content-Length".spec_bytes(), spec_dec(body@.len())),
            ),
    {
        let len_bytes = dec_bytes(body.len());
        let name = "Content-Length".as_bytes_vec();
        self.add_header(Header::Custom(name, len_bytes));
        self.body = Some(body);
    }

    /// Serialize the response to its wire image.
    pub fn encode(self) -> (r: Vec<u8>)
        ensures
            r@ == spec_encode(self@),
    {
        let ghost v = self@;
        let Response { status_code, headers, body } = self;
        let ghost hs = v.headers;
        let mut buf = version_bytes();
        buf.push(' ' as u8);
        let mut status = status_code.as_bytes();
        buf.append(&mut status);
        buf.push('\r' as u8);
        buf.push('\n' as u8);
        proof {
            lemma_space_concrete();
            lemma_crlf_concrete();
            assert(buf@ =~= spec_status_line(v.status));
            assert(hs.take(0) =~= Seq::<HeaderView>::empty());
        }
        let mut i: usize = 0;
        while i < headers.len()
            invariant
                0 <= i <= headers@.len(),
                hs == headers@.map_values(|h: Header| h@),
                buf@ == spec_status_line(v.status) + spec_header_block(hs.take(i as int)),
            decreases headers@.len() - i,
        {
            let h = &headers[i];
            let mut name = h.name();
            buf.append(&mut name);
            buf.push(':' as u8);
            buf.push(' ' as u8);
            let value = h.value();
            buf.extend_from_slice(value.as_slice());
            buf.push('\r' as u8);
            buf.push('\n' as u8);
            proof {
                lemma_colon_space_concrete();
                lemma_crlf_concrete();
                lemma_header_block_push(hs.take(i as int), hs[i as int]);
                assert(hs.take(i as int + 1) =~= hs.take(i as int).push(hs[i as int]));
                assert(buf@ =~= spec_status_line(v.status) + spec_header_block(
                    hs.take(i as int + 1),
                ));
            }
            i = i + 1;
        }
        buf.push('\r' as u8);
        buf.push('\n' as u8);
        proof {
            lemma_crlf_concrete();
            assert(hs.take(hs.len() as int) =~= hs);
            assert(buf@ =~= spec_status_line(v.status) + spec_header_block(hs) + spec_crlf());
        }
        if let Some(mut b) = body {
            buf.append(&mut b);
        }
        proof {
            assert(buf@ =~= spec_encode(v));
        }
        buf
    }
}

} // verus!
