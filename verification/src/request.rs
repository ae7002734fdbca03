//! The request side of the engine: decoding one accumulated byte buffer
//! into a structured request, and the decode-time error taxonomy.
use crate::bytes::{bytes_eq, find_byte, find_sub, is_trimmed, lemma_find_byte_at,
    lemma_find_byte_none, lemma_lower_no_upper, lemma_lower_preserves_trimmed, lemma_trim_trimmed,
    match_at, no_upper, spec_find, spec_find_byte, spec_lower, spec_trim, to_lower, trim};
use crate::http::{crlf_bytes, spec_crlf, spec_version, version_bytes};
use vstd::slice::slice_subrange;
use vstd::slice::slice_to_vec;
use vstd::prelude::*;
use vstd::string::StrSliceExecFns;
use vstd::string::StringSliceAdditionalSpecFns;

verus! {

/// The closed set of methods the engine accepts.
#[derive(Debug, Clone, Copy, PartialEq, Eq, Structural)]
pub enum Method {
    Get,
    Post,
}

/// Everything that can go wrong while decoding a request.
#[derive(Debug, Clone, Copy, PartialEq, Eq, Structural)]
pub enum Error {
    MissingRequestLine,
    MissingHTTPMethod,
    MissingRequestTarget,
    MissingHTTPVersion,
    UnsupportedHTTPVersion,
    UnsupportedMethod,
    InvalidHeader,
    RequestTimeout,
}

/// What `Method::decode` accepts: the two method tokens, byte for byte.
pub open spec fn spec_method(s: Seq<u8>) -> Result<Method, Error> {
    if s == "GET".spec_bytes() {
        Ok(Method::Get)
    } else if s == "POST".spec_bytes() {
        Ok(Method::Post)
    } else {
        Err(Error::UnsupportedMethod)
    }
}

impl Method {
    /// Recognize a method token.
    pub fn decode(data: &[u8]) -> (r: Result<Method, Error>)
        ensures
            r == spec_method(data@),
    {
        let get = "GET".as_bytes_vec();
        if bytes_eq(data, get.as_slice()) {
            return Ok(Method::Get);
        }
        let post = "POST".as_bytes_vec();
        if bytes_eq(data, post.as_slice()) {
            return Ok(Method::Post);
        }
        Err(Error::UnsupportedMethod)
    }
}

/// The value of the last entry named `k`, scanning from the back.
pub open spec fn assoc_get(es: Seq<(Seq<u8>, Seq<u8>)>, k: Seq<u8>) -> Option<Seq<u8>>
    decreases es.len(),
{
    if es.len() == 0 {
        None
    } else if es.last().0 == k {
        Some(es.last().1)
    } else {
        assoc_get(es.drop_last(), k)
    }
}

/// The request's headers: lower-cased names mapped to trimmed values,
/// the last write to a name winning.
#[derive(Debug)]
pub struct HeaderMap {
    entries: Vec<(Vec<u8>, Vec<u8>)>,
}

impl HeaderMap {
    pub closed spec fn entries_view(self) -> Seq<(Seq<u8>, Seq<u8>)> {
        self.entries@.map_values(|e: (Vec<u8>, Vec<u8>)| (e.0@, e.1@))
    }
}

impl View for HeaderMap {
    type V = Map<Seq<u8>, Seq<u8>>;

    open spec fn view(&self) -> Map<Seq<u8>, Seq<u8>> {
        Map::new(
            |k: Seq<u8>| assoc_get(self.entries_view(), k) is Some,
            |k: Seq<u8>| assoc_get(self.entries_view(), k)->Some_0,
        )
    }
}

impl HeaderMap {
    /// An empty header map.
    pub fn new() -> (r: HeaderMap)
        ensures
            r@ == Map::<Seq<u8>, Seq<u8>>::empty(),
    {
        let r = HeaderMap { entries: Vec::new() };
        proof {
            assert(r@ =~= Map::<Seq<u8>, Seq<u8>>::empty());
        }
        r
    }

    /// Bind `name` to `value`, shadowing any earlier binding.
    pub fn insert(&mut self, name: Vec<u8>, value: Vec<u8>)
        ensures
            final(self)@ == old(self)@.insert(name@, value@),
    {
        let ghost old_es = self.entries_view();
        self.entries.push((name, value));
        proof {
            let es = self.entries_view();
            assert(es.drop_last() =~= old_es);
            assert(es.last() == (name@, value@));
            assert forall|k: Seq<u8>| true implies assoc_get(es, k) == (if k == name@ {
                Some(value@)
            } else {
                assoc_get(old_es, k)
            }) by {}
            assert(self@ =~= old(self)@.insert(name@, value@));
        }
    }

    /// Look a name up; the most recent binding is returned.
    pub fn get(&self, name: &[u8]) -> (r: Option<&Vec<u8>>)
        ensures
            match r {
                Some(v) => self@.contains_key(name@) && v@ == self@[name@],
                None => !self@.contains_key(name@),
            },
    {
        let ghost es = self.entries_view();
        let mut i: usize = self.entries.len();
        proof {
            assert(es.take(i as int) =~= es);
        }
        while i > 0
            invariant
                0 <= i <= self.entries@.len(),
                es == self.entries_view(),
                assoc_get(es, name@) == assoc_get(es.take(i as int), name@),
            decreases i,
        {
            i = i - 1;
            let e = &self.entries[i];
            proof {
                assert(es[i as int] == (e.0@, e.1@));
                assert(es.take(i as int + 1).last() == es[i as int]);
                assert(es.take(i as int + 1).drop_last() =~= es.take(i as int));
            }
            if bytes_eq(e.0.as_slice(), name) {
                return Some(&e.1);
            }
        }
        proof {
            assert(es.take(0) =~= Seq::<(Seq<u8>, Seq<u8>)>::empty());
        }
        None
    }
}

/// How many bytes the accumulation loop asks of the stream at a time.
pub const BUFFER_SIZE: usize = 32;

/// One read event on the stream that feeds the decoder.
pub enum ReadEvent {
    /// A read handed back these bytes; none at all means the stream closed.
    Data(Vec<u8>),
    /// The read timed out, or would have had to block.
    Timeout,
}

/// Whether accumulation goes on after an event.
#[derive(Debug, Clone, Copy, PartialEq, Eq, Structural)]
pub enum ReadProgress {
    Continue,
    Done,
}

/// Fold one read event into the accumulating buffer: data is appended, and
/// a short or empty read ends accumulation. A timeout aborts the request
/// at once, leaving the buffer as it was, so no response is owed for it.
pub fn recv_step(buf: &mut Vec<u8>, event: ReadEvent, chunk: usize) -> (r: Result<
    ReadProgress,
    Error,
>)
    ensures
        match event {
            ReadEvent::Data(d) => final(buf)@ == old(buf)@ + d@ && r == Ok::<ReadProgress, Error>(
                if d@.len() == 0 || d@.len() < chunk {
                    ReadProgress::Done
                } else {
                    ReadProgress::Continue
                },
            ),
            ReadEvent::Timeout => final(buf)@ == old(buf)@ && r == Err::<ReadProgress, Error>(
                Error::RequestTimeout,
            ),
        },
{
    match event {
        ReadEvent::Data(mut d) => {
            let n = d.len();
            buf.append(&mut d);
            if n == 0 || n < chunk {
                Ok(ReadProgress::Done)
            } else {
                Ok(ReadProgress::Continue)
            }
        },
        ReadEvent::Timeout => {
            proof {
                assert(old(buf)@ + Seq::<u8>::empty() =~= old(buf)@);
            }
            Err(Error::RequestTimeout)
        },
    }
}

/// The bytes left once leading spaces are dropped.
pub open spec fn skip_spaces(s: Seq<u8>) -> Seq<u8>
    decreases s.len(),
{
    if s.len() > 0 && s[0] == (' ' as u8) {
        skip_spaces(s.drop_first())
    } else {
        s
    }
}

/// The next whitespace-separated token: runs of spaces collapse, so the
/// token is the maximal non-space run after any leading spaces.
pub open spec fn first_token(s: Seq<u8>) -> Seq<u8> {
    let t = skip_spaces(s);
    match spec_find_byte(t, ' ' as u8) {
        Some(j) => t.take(j),
        None => t,
    }
}

/// What remains of `s` after its first token.
pub open spec fn rest_after_token(s: Seq<u8>) -> Seq<u8> {
    let t = skip_spaces(s);
    match spec_find_byte(t, ' ' as u8) {
        Some(j) => t.skip(j),
        None => Seq::empty(),
    }
}

/// Bounds of the first token of `s` at or after `from`.
fn next_token(s: &[u8], from: usize) -> (r: (usize, usize))
    requires
        from <= s@.len(),
    ensures
        from <= r.0 <= r.1 <= s@.len(),
        s@.subrange(r.0 as int, r.1 as int) == first_token(s@.skip(from as int)),
        s@.skip(r.1 as int) == rest_after_token(s@.skip(from as int)),
{
    let ghost orig = s@.skip(from as int);
    let mut i: usize = from;
    while i < s.len() && s[i] == (' ' as u8)
        invariant
            from <= i <= s@.len(),
            skip_spaces(orig) == skip_spaces(s@.skip(i as int)),
            orig == s@.skip(from as int),
        decreases s@.len() - i,
    {
        proof {
            assert(s@.skip(i as int)[0] == s@[i as int]);
            assert(s@.skip(i as int).drop_first() =~= s@.skip(i + 1));
        }
        i = i + 1;
    }
    proof {
        if i < s@.len() {
            assert(s@.skip(i as int)[0] == s@[i as int]);
        } else {
            assert(s@.skip(i as int) =~= Seq::<u8>::empty());
        }
        assert(skip_spaces(s@.skip(i as int)) == s@.skip(i as int));
    }
    let start = i;
    let mut j: usize = i;
    while j < s.len() && s[j] != (' ' as u8)
        invariant
            start <= j <= s@.len(),
            forall|l: int| start <= l < j ==> s@[l] != (' ' as u8),
        decreases s@.len() - j,
    {
        j = j + 1;
    }
    proof {
        let t = s@.skip(start as int);
        if j < s@.len() {
            assert forall|l: int| 0 <= l < j - start implies t[l] != (' ' as u8) by {
                assert(t[l] == s@[l + start]);
            }
            assert(t[j - start] == s@[j as int]);
            lemma_find_byte_at(t, ' ' as u8, j - start);
            assert(t.take(j - start) =~= s@.subrange(start as int, j as int));
            assert(t.skip(j - start) =~= s@.skip(j as int));
        } else {
            assert forall|l: int| 0 <= l < t.len() implies t[l] != (' ' as u8) by {
                assert(t[l] == s@[l + start]);
            }
            lemma_find_byte_none(t, ' ' as u8);
            assert(t =~= s@.subrange(start as int, j as int));
            assert(s@.skip(j as int) =~= Seq::<u8>::empty());
        }
    }
    (start, j)
}

/// What the request line means: method, then target, then the one
/// supported version, tokens separated by runs of spaces.
pub open spec fn spec_request_line(rl: Seq<u8>) -> Result<(Method, Seq<u8>), Error> {
    let m_tok = first_token(rl);
    if m_tok.len() == 0 {
        Err(Error::MissingHTTPMethod)
    } else {
        match spec_method(m_tok) {
            Err(e) => Err(e),
            Ok(m) => {
                let r1 = rest_after_token(rl);
                let t_tok = first_token(r1);
                if t_tok.len() == 0 {
                    Err(Error::MissingRequestTarget)
                } else {
                    let r2 = rest_after_token(r1);
                    let v_tok = first_token(r2);
                    if v_tok.len() == 0 {
                        Err(Error::MissingHTTPVersion)
                    } else if v_tok != spec_version() {
                        Err(Error::UnsupportedHTTPVersion)
                    } else {
                        Ok((m, t_tok))
                    }
                }
            },
        }
    }
}

/// One trailing carriage return removed, as the line splitter does.
pub open spec fn strip_cr(s: Seq<u8>) -> Seq<u8> {
    if s.len() > 0 && s.last() == ('\r' as u8) {
        s.drop_last()
    } else {
        s
    }
}

/// The header block as lines: split at each line feed, one trailing
/// carriage return stripped from every piece.
pub open spec fn spec_lines(s: Seq<u8>) -> Seq<Seq<u8>>
    decreases s.len(),
    via spec_lines_dec
{
    if s.len() == 0 {
        seq![]
    } else {
        match spec_find_byte(s, '\n' as u8) {
            Some(j) => seq![strip_cr(s.take(j))] + spec_lines(s.skip(j + 1)),
            None => seq![strip_cr(s)],
        }
    }
}

#[via_fn]
proof fn spec_lines_dec(s: Seq<u8>) {
    if s.len() > 0 && spec_find_byte(s, '\n' as u8) is Some {
        crate::bytes::lemma_find_byte_some(s, '\n' as u8);
    }
}

/// What one header line means: the part before the first colon is the
/// name, lower-cased and trimmed; the rest is the value, trimmed. A line
/// without a colon is malformed.
pub open spec fn spec_header_entry(line: Seq<u8>) -> Result<(Seq<u8>, Seq<u8>), Error> {
    match spec_find_byte(line, ':' as u8) {
        Some(j) => Ok((spec_lower(spec_trim(line.take(j))), spec_trim(line.skip(j + 1)))),
        None => Err(Error::InvalidHeader),
    }
}

/// Fold the lines into the header map, front to back, so a repeated name
/// keeps its last value.
pub open spec fn spec_fold_lines(m: Map<Seq<u8>, Seq<u8>>, ls: Seq<Seq<u8>>) -> Result<
    Map<Seq<u8>, Seq<u8>>,
    Error,
>
    decreases ls.len(),
{
    if ls.len() == 0 {
        Ok(m)
    } else {
        match spec_header_entry(ls[0]) {
            Err(e) => Err(e),
            Ok(kv) => spec_fold_lines(m.insert(kv.0, kv.1), ls.drop_first()),
        }
    }
}

/// The header map a block decodes to, or the error of its first bad line.
pub open spec fn spec_headers(block: Seq<u8>) -> Result<Map<Seq<u8>, Seq<u8>>, Error> {
    spec_fold_lines(Map::empty(), spec_lines(block))
}

/// The end-of-headers marker.
pub open spec fn spec_dcrlf() -> Seq<u8> {
    "\r\n\r\n".spec_bytes()
}

/// The end-of-headers marker, byte by byte.
pub proof fn lemma_dcrlf_concrete()
    ensures
        spec_dcrlf() =~= seq![('\r' as u8), ('\n' as u8), ('\r' as u8), ('\n' as u8)],
{
    reveal_strlit("\r\n\r\n");
    assert(vstd::string::is_ascii("\r\n\r\n"));
    vstd::string::is_ascii_spec_bytes("\r\n\r\n");
}

/// What `Request::decode` returns, for every input.
pub open spec fn spec_decode(input: Seq<u8>) -> Result<RequestView, Error> {
    match spec_find(input, spec_crlf()) {
        None => Err(Error::MissingRequestLine),
        Some(i) => match spec_request_line(input.take(i)) {
            Err(e) => Err(e),
            Ok(mt) => {
                let rest = input.skip(i + 2);
                let block = match spec_find(rest, spec_dcrlf()) {
                    Some(j) => rest.take(j),
                    None => Seq::empty(),
                };
                let tail = match spec_find(rest, spec_dcrlf()) {
                    Some(j) => rest.skip(j + 4),
                    None => rest,
                };
                match spec_headers(block) {
                    Err(e) => Err(e),
                    Ok(hm) => Ok(
                        RequestView {
                            method: mt.0,
                            target: mt.1,
                            headers: hm,
                            body: if tail.len() == 0 {
                                None
                            } else {
                                Some(tail)
                            },
                        },
                    ),
                }
            },
        },
    }
}

proof fn lemma_fold_entries(m: Map<Seq<u8>, Seq<u8>>, ls: Seq<Seq<u8>>)
    requires
        spec_fold_lines(m, ls) is Ok,
        forall|k: Seq<u8>|
            m.contains_key(k) ==> no_upper(k) && is_trimmed(k) && is_trimmed(m[k]),
    ensures
        forall|k: Seq<u8>|
            spec_fold_lines(m, ls)->Ok_0.contains_key(k) ==> no_upper(k) && is_trimmed(k)
                && is_trimmed(spec_fold_lines(m, ls)->Ok_0[k]),
    decreases ls.len(),
{
    if ls.len() > 0 {
        match spec_header_entry(ls[0]) {
            Ok(kv) => {
                let j = spec_find_byte(ls[0], ':' as u8)->Some_0;
                lemma_trim_trimmed(ls[0].take(j));
                lemma_lower_no_upper(spec_trim(ls[0].take(j)));
                lemma_lower_preserves_trimmed(spec_trim(ls[0].take(j)));
                lemma_trim_trimmed(ls[0].skip(j + 1));
                lemma_fold_entries(m.insert(kv.0, kv.1), ls.drop_first());
            },
            Err(_) => {},
        }
    }
}

/// Every name in a decoded header map is lower-cased and trimmed, and
/// every value is trimmed.
pub proof fn lemma_headers_wellformed(block: Seq<u8>)
    requires
        spec_headers(block) is Ok,
    ensures
        forall|k: Seq<u8>|
            spec_headers(block)->Ok_0.contains_key(k) ==> no_upper(k) && is_trimmed(k)
                && is_trimmed(spec_headers(block)->Ok_0[k]),
{
    assert(forall|k: Seq<u8>| !Map::<Seq<u8>, Seq<u8>>::empty().contains_key(k));
    lemma_fold_entries(Map::empty(), spec_lines(block));
}

/// A header line is malformed exactly when it carries no colon.
pub proof fn lemma_line_without_colon(line: Seq<u8>)
    ensures
        (spec_header_entry(line) == Err::<(Seq<u8>, Seq<u8>), Error>(Error::InvalidHeader)) <==> (
        forall|i: int| 0 <= i < line.len() ==> line[i] != (':' as u8)),
{
    if forall|i: int| 0 <= i < line.len() ==> line[i] != (':' as u8) {
        lemma_find_byte_none(line, ':' as u8);
    }
    if spec_find_byte(line, ':' as u8) is None {
        crate::bytes::lemma_find_byte_none_inv(line, ':' as u8);
    }
}

proof fn lemma_fold_err(m: Map<Seq<u8>, Seq<u8>>, ls: Seq<Seq<u8>>)
    ensures
        (spec_fold_lines(m, ls) is Err) <==> (exists|i: int|
            0 <= i < ls.len() && spec_header_entry(ls[i]) is Err),
        spec_fold_lines(m, ls) is Err ==> spec_fold_lines(m, ls) == Err::<
            Map<Seq<u8>, Seq<u8>>,
            Error,
        >(Error::InvalidHeader),
    decreases ls.len(),
{
    if ls.len() > 0 {
        match spec_header_entry(ls[0]) {
            Err(_) => {
                assert(spec_header_entry(ls[0]) is Err);
            },
            Ok(kv) => {
                lemma_fold_err(m.insert(kv.0, kv.1), ls.drop_first());
                if spec_fold_lines(m, ls) is Err {
                    let i = choose|i: int|
                        0 <= i < ls.drop_first().len() && spec_header_entry(
                            ls.drop_first()[i],
                        ) is Err;
                    assert(ls[i + 1] == ls.drop_first()[i]);
                    assert(spec_header_entry(ls[i + 1]) is Err);
                }
                if exists|i: int| 0 <= i < ls.len() && spec_header_entry(ls[i]) is Err {
                    let i = choose|i: int|
                        0 <= i < ls.len() && spec_header_entry(ls[i]) is Err;
                    assert(i > 0);
                    assert(ls.drop_first()[i - 1] == ls[i]);
                    assert(spec_header_entry(ls.drop_first()[i - 1]) is Err);
                }
            },
        }
    }
}

/// A header block fails to decode exactly when one of its lines is
/// malformed, and the error is then the malformed-header error.
pub proof fn lemma_headers_err(block: Seq<u8>)
    ensures
        (spec_headers(block) is Err) <==> (exists|i: int|
            0 <= i < spec_lines(block).len() && spec_header_entry(spec_lines(block)[i]) is Err),
        spec_headers(block) is Err ==> spec_headers(block) == Err::<Map<Seq<u8>, Seq<u8>>, Error>(
            Error::InvalidHeader,
        ),
{
    lemma_fold_err(Map::empty(), spec_lines(block));
}

/// One well-formed `Name: Value` line decodes to exactly one binding: the
/// name lower-cased and trimmed, the value trimmed.
pub proof fn lemma_single_header_line(name: Seq<u8>, value: Seq<u8>)
    requires
        forall|i: int|
            0 <= i < name.len() ==> name[i] != (':' as u8) && name[i] != ('\n' as u8),
        forall|i: int| 0 <= i < value.len() ==> value[i] != ('\n' as u8),
        value.len() > 0 ==> value.last() != ('\r' as u8),
    ensures
        spec_headers(name + seq![(':' as u8)] + value) == Ok::<Map<Seq<u8>, Seq<u8>>, Error>(
            Map::<Seq<u8>, Seq<u8>>::empty().insert(
                spec_lower(spec_trim(name)),
                spec_trim(value),
            ),
        ),
{
    let line = name + seq![(':' as u8)] + value;
    let nn = name.len() as int;
    assert(line[nn] == (':' as u8));
    assert forall|i: int| 0 <= i < nn implies line[i] == name[i] by {}
    assert forall|i: int| 0 <= i < value.len() implies line[nn + 1 + i] == value[i] by {}
    assert forall|i: int| 0 <= i < line.len() implies line[i] != ('\n' as u8) by {
        if i < nn {
        } else if i > nn {
            assert(line[i] == value[i - nn - 1]);
        }
    }
    lemma_find_byte_none(line, '\n' as u8);
    assert(line.len() > 0);
    assert(line.last() != ('\r' as u8));
    assert(strip_cr(line) == line);
    assert(spec_lines(line) =~= seq![line]);
    lemma_find_byte_at(line, ':' as u8, nn);
    assert(line.take(nn) =~= name);
    assert(line.skip(nn + 1) =~= value);
    assert(spec_header_entry(line) == Ok::<(Seq<u8>, Seq<u8>), Error>(
        (spec_lower(spec_trim(name)), spec_trim(value)),
    ));
    assert(seq![line].drop_first() =~= Seq::<Seq<u8>>::empty());
    assert(seq![line][0] == line);
    let folded = Map::<Seq<u8>, Seq<u8>>::empty().insert(
        spec_lower(spec_trim(name)),
        spec_trim(value),
    );
    assert(spec_fold_lines(folded, Seq::<Seq<u8>>::empty()) == Ok::<
        Map<Seq<u8>, Seq<u8>>,
        Error,
    >(folded));
    assert(spec_fold_lines(Map::empty(), seq![line]) == Ok::<Map<Seq<u8>, Seq<u8>>, Error>(
        folded,
    ));
    assert(spec_headers(line) == Ok::<Map<Seq<u8>, Seq<u8>>, Error>(folded));
}

/// The wire token of each method.
pub open spec fn method_token(m: Method) -> Seq<u8> {
    match m {
        Method::Get => "GET".spec_bytes(),
        Method::Post => "POST".spec_bytes(),
    }
}

proof fn lemma_get_token()
    ensures
        "GET".spec_bytes().len() == 3,
        forall|i: int|
            0 <= i < "GET".spec_bytes().len() ==> "GET".spec_bytes()[i] != (' ' as u8)
                && "GET".spec_bytes()[i] != ('\r' as u8) && "GET".spec_bytes()[i] != ('\n' as u8),
{
    reveal_strlit("GET");
    assert(vstd::string::is_ascii("GET"));
    vstd::string::is_ascii_spec_bytes("GET");
}

proof fn lemma_post_token()
    ensures
        "POST".spec_bytes().len() == 4,
        forall|i: int|
            0 <= i < "POST".spec_bytes().len() ==> "POST".spec_bytes()[i] != (' ' as u8)
                && "POST".spec_bytes()[i] != ('\r' as u8) && "POST".spec_bytes()[i] != (
            '\n' as u8),
{
    reveal_strlit("POST");
    assert(vstd::string::is_ascii("POST"));
    vstd::string::is_ascii_spec_bytes("POST");
}

proof fn lemma_version_token()
    ensures
        spec_version().len() == 8,
        forall|i: int|
            0 <= i < spec_version().len() ==> spec_version()[i] != (' ' as u8) && spec_version()[i]
                != ('\r' as u8) && spec_version()[i] != ('\n' as u8),
{
    reveal_strlit("HTTP/1.1");
    assert(vstd::string::is_ascii("HTTP/1.1"));
    vstd::string::is_ascii_spec_bytes("HTTP/1.1");
}

/// Any well-formed request line round-trips: a method token, a target
/// free of spaces and line breaks, and the supported version, joined by
/// single spaces and closed by the empty header block, decode to exactly
/// that method and that target.
pub proof fn lemma_decode_round_trip(m: Method, target: Seq<u8>)
    requires
        target.len() > 0,
        forall|i: int|
            0 <= i < target.len() ==> target[i] != (' ' as u8) && target[i] != ('\r' as u8)
                && target[i] != ('\n' as u8),
    ensures
        ({
            let input = method_token(m) + " ".spec_bytes() + target + " ".spec_bytes()
                + spec_version() + spec_crlf() + spec_crlf();
            &&& spec_decode(input) is Ok
            &&& spec_decode(input)->Ok_0.method == m
            &&& spec_decode(input)->Ok_0.target == target
        }),
{
    lemma_get_token();
    lemma_post_token();
    lemma_version_token();
    crate::http::lemma_crlf_concrete();
    crate::http::lemma_space_concrete();
    lemma_dcrlf_concrete();
    let mt = method_token(m);
    let sp = " ".spec_bytes();
    let ver = spec_version();
    let cr = spec_crlf();
    let rl = mt + sp + target + sp + ver;
    let input = rl + cr + cr;
    let mm = mt.len() as int;
    let tt = target.len() as int;
    let vv = ver.len() as int;
    let ll = rl.len() as int;
    assert(ll == mm + 1 + tt + 1 + vv);
    assert forall|j: int| 0 <= j < mm implies rl[j] == mt[j] by {}
    assert(rl[mm] == (' ' as u8));
    assert forall|j: int| 0 <= j < tt implies rl[mm + 1 + j] == target[j] by {}
    assert(rl[mm + 1 + tt] == (' ' as u8));
    assert forall|j: int| 0 <= j < vv implies rl[mm + 2 + tt + j] == ver[j] by {}
    assert forall|j: int| 0 <= j < ll implies rl[j] != ('\r' as u8) && rl[j] != ('\n' as u8) by {
        if j < mm {
        } else if j == mm || j == mm + 1 + tt {
        } else if j < mm + 1 + tt {
            assert(rl[j] == target[j - mm - 1]);
        } else {
            assert(rl[j] == ver[j - mm - 2 - tt]);
        }
    }
    // the first line terminator stands right after the request line
    assert(input.subrange(ll, ll + 2) =~= cr);
    assert(match_at(input, cr, ll));
    assert forall|j: int| 0 <= j < ll implies !match_at(input, cr, j) by {
        if match_at(input, cr, j) {
            assert(input.subrange(j, j + 2)[0] == input[j]);
            assert(input[j] == ('\r' as u8));
            assert(input[j] == rl[j]);
        }
    }
    crate::bytes::lemma_find_first(input, cr, ll);
    assert(spec_find(input, spec_crlf()) == Some(ll));
    assert(input.take(ll) =~= rl);
    // the request line tokenizes into method, target, version
    assert(rl[0] == mt[0]);
    assert(skip_spaces(rl) == rl);
    crate::bytes::lemma_find_byte_at(rl, ' ' as u8, mm);
    assert(first_token(rl) =~= mt);
    assert(spec_method(first_token(rl)) == Ok::<Method, Error>(m));
    let r1 = rl.skip(mm);
    assert(rest_after_token(rl) =~= r1);
    assert(r1[0] == (' ' as u8));
    let t1 = rl.skip(mm + 1);
    assert(r1.drop_first() =~= t1);
    assert(t1[0] == target[0]);
    assert(t1.len() > 0);
    assert(skip_spaces(r1) == skip_spaces(r1.drop_first()));
    assert(skip_spaces(t1) == t1);
    assert(skip_spaces(r1) == t1);
    assert forall|j: int| 0 <= j < tt implies t1[j] == target[j] by {}
    assert(t1[tt] == (' ' as u8));
    crate::bytes::lemma_find_byte_at(t1, ' ' as u8, tt);
    assert(first_token(r1) =~= target);
    let r2 = t1.skip(tt);
    assert(rest_after_token(r1) =~= r2);
    assert(r2[0] == (' ' as u8));
    let t2 = rl.skip(mm + 2 + tt);
    assert(r2.drop_first() =~= t2);
    assert(t2 =~= ver);
    assert(t2[0] == ver[0]);
    assert(t2[0] != (' ' as u8));
    assert(t2.len() > 0);
    assert(skip_spaces(r2) == skip_spaces(r2.drop_first()));
    assert(skip_spaces(t2) == t2);
    assert(skip_spaces(r2) == t2);
    crate::bytes::lemma_find_byte_none(ver, ' ' as u8);
    assert(first_token(r2) == ver);
    assert(spec_request_line(rl) == Ok::<(Method, Seq<u8>), Error>((m, target)));
    // after the request line only the empty header block remains
    let rest = input.skip(ll + 2);
    assert(rest =~= cr);
    assert(spec_find(rest, spec_dcrlf()) is None);
    assert(spec_lines(Seq::<u8>::empty()) =~= Seq::<Seq<u8>>::empty());
    assert(spec_headers(Seq::<u8>::empty()) == Ok::<Map<Seq<u8>, Seq<u8>>, Error>(
        Map::<Seq<u8>, Seq<u8>>::empty(),
    ));
    assert(spec_decode(input) is Ok);
    assert(spec_decode(input)->Ok_0.method == m);
    assert(spec_decode(input)->Ok_0.target == target);
}

/// A request that decodes at all has a non-empty target: an empty token
/// would have been rejected as a missing one.
pub proof fn lemma_decoded_target_nonempty(input: Seq<u8>)
    requires
        spec_decode(input) is Ok,
    ensures
        spec_decode(input)->Ok_0.target.len() > 0,
{
}

/// Decode the header block into a map, or report its first bad line.
fn parse_header_block(block: &[u8]) -> (r: Result<HeaderMap, Error>)
    ensures
        match r {
            Ok(hm) => spec_headers(block@) == Ok::<Map<Seq<u8>, Seq<u8>>, Error>(hm@),
            Err(e) => spec_headers(block@) == Err::<Map<Seq<u8>, Seq<u8>>, Error>(e),
        },
{
    let mut hm = HeaderMap::new();
    proof {
        assert(block@.skip(0) =~= block@);
    }
    let mut p: usize = 0;
    while p < block.len()
        invariant
            0 <= p <= block@.len(),
            spec_headers(block@) == spec_fold_lines(hm@, spec_lines(block@.skip(p as int))),
        decreases block@.len() - p,
    {
        let ghost hm_before = hm@;
        let ghost rem_lines = spec_lines(block@.skip(p as int));
        let rem = slice_subrange(block, p, block.len());
        proof {
            assert(rem@ =~= block@.skip(p as int));
        }
        let (lend_raw, next_p) = match find_byte(rem, '\n' as u8) {
            Some(j) => (j, p + j + 1),
            None => (rem.len(), block.len()),
        };
        let mut lend = lend_raw;
        if lend > 0 && rem[lend - 1] == ('\r' as u8) {
            lend = lend - 1;
        }
        let line = slice_subrange(rem, 0, lend);
        proof {
            let raw = if lend_raw < rem@.len() {
                rem@.take(lend_raw as int)
            } else {
                rem@
            };
            if lend_raw > 0 && rem@[lend_raw - 1] == ('\r' as u8) {
                assert(raw.last() == rem@[lend_raw - 1]);
                assert(raw.drop_last() =~= rem@.subrange(0, lend as int));
            } else {
                assert(raw =~= rem@.subrange(0, lend as int));
            }
            assert(line@ == strip_cr(raw));
            assert(rem_lines.len() > 0 && rem_lines[0] == line@);
        }
        match find_byte(line, ':' as u8) {
            None => {
                return Err(Error::InvalidHeader);
            },
            Some(c) => {
                let k_raw = slice_subrange(line, 0, c);
                let v_raw = slice_subrange(line, c + 1, line.len());
                proof {
                    assert(k_raw@ =~= line@.take(c as int));
                    assert(v_raw@ =~= line@.skip(c as int + 1));
                }
                let k = to_lower(trim(k_raw));
                let v = slice_to_vec(trim(v_raw));
                hm.insert(k, v);
                proof {
                    assert(spec_header_entry(line@) == Ok::<(Seq<u8>, Seq<u8>), Error>(
                        (k@, v@),
                    ));
                    if lend_raw < rem@.len() {
                        assert(block@.skip(next_p as int) =~= rem@.skip(lend_raw + 1));
                        assert(rem_lines.drop_first() =~= spec_lines(rem@.skip(lend_raw + 1)));
                    } else {
                        assert(block@.skip(next_p as int) =~= Seq::<u8>::empty());
                        assert(rem_lines.drop_first() =~= spec_lines(
                            block@.skip(next_p as int),
                        ));
                    }
                    assert(spec_fold_lines(hm_before, rem_lines) == spec_fold_lines(
                        hm@,
                        spec_lines(block@.skip(next_p as int)),
                    ));
                }
                p = next_p;
            },
        }
    }
    proof {
        assert(block@.skip(p as int) =~= Seq::<u8>::empty());
    }
    Ok(hm)
}

/// Ghost mirror of `Request`.
#[verifier::ext_equal]
pub struct RequestView {
    pub method: Method,
    pub target: Seq<u8>,
    pub headers: Map<Seq<u8>, Seq<u8>>,
    pub body: Option<Seq<u8>>,
}

/// A decoded request: method, raw target, header map, optional body.
#[derive(Debug)]
pub struct Request {
    pub method: Method,
    pub target: Vec<u8>,
    pub headers: HeaderMap,
    pub body: Option<Vec<u8>>,
}

impl View for Request {
    type V = RequestView;

    open spec fn view(&self) -> RequestView {
        RequestView {
            method: self.method,
            target: self.target@,
            headers: self.headers@,
            body: match self.body {
                Some(b) => Some(b@),
                None => None,
            },
        }
    }
}

impl Request {
    /// Decode one accumulated buffer into a request, or say what is wrong
    /// with it. The result is `spec_decode`, exactly.
    pub fn decode(data: &[u8]) -> (r: Result<Request, Error>)
        ensures
            match r {
                Ok(req) => spec_decode(data@) is Ok && req@ == spec_decode(data@)->Ok_0,
                Err(e) => spec_decode(data@) is Err && e == spec_decode(data@)->Err_0,
            },
    {
        let crlf = crlf_bytes();
        proof {
            crate::http::lemma_crlf_concrete();
            lemma_dcrlf_concrete();
        }
        let i = match find_sub(data, crlf.as_slice()) {
            None => {
                return Err(Error::MissingRequestLine);
            },
            Some(i) => i,
        };
        let rl = slice_subrange(data, 0, i);
        proof {
            assert(rl@ =~= data@.take(i as int));
            assert(rl@.skip(0) =~= rl@);
        }
        let (a0, a1) = next_token(rl, 0);
        if a0 == a1 {
            proof {
                assert(first_token(rl@).len() == 0);
            }
            return Err(Error::MissingHTTPMethod);
        }
        let m_tok = slice_subrange(rl, a0, a1);
        let method = match Method::decode(m_tok) {
            Err(e) => {
                return Err(e);
            },
            Ok(m) => m,
        };
        let (b0, b1) = next_token(rl, a1);
        if b0 == b1 {
            return Err(Error::MissingRequestTarget);
        }
        let t_tok = slice_subrange(rl, b0, b1);
        let (c0, c1) = next_token(rl, b1);
        if c0 == c1 {
            return Err(Error::MissingHTTPVersion);
        }
        let v_tok = slice_subrange(rl, c0, c1);
        let version = version_bytes();
        if !bytes_eq(v_tok, version.as_slice()) {
            return Err(Error::UnsupportedHTTPVersion);
        }
        proof {
            assert(spec_request_line(rl@) == Ok::<(Method, Seq<u8>), Error>(
                (method, t_tok@),
            ));
        }
        let dlen = data.len();
        proof {
            assert(spec_crlf().len() == 2);
            assert(i + 2 <= data@.len());
        }
        let rest = slice_subrange(data, i + 2, dlen);
        proof {
            assert(rest@ =~= data@.skip(i as int + 2));
        }
        let dcrlf = "\r\n\r\n".as_bytes_vec();
        let (block, tail) = match find_sub(rest, dcrlf.as_slice()) {
            Some(j) => (slice_subrange(rest, 0, j), slice_subrange(rest, j + 4, rest.len())),
            None => (slice_subrange(rest, 0, 0), rest),
        };
        proof {
            match spec_find(rest@, spec_dcrlf()) {
                Some(j) => {
                    assert(block@ =~= rest@.take(j));
                    assert(tail@ =~= rest@.skip(j + 4));
                },
                None => {
                    assert(block@ =~= Seq::<u8>::empty());
                },
            }
        }
        let hm = match parse_header_block(block) {
            Err(e) => {
                return Err(e);
            },
            Ok(h) => h,
        };
        let body = if tail.len() == 0 {
            None
        } else {
            Some(slice_to_vec(tail))
        };
        let req = Request { method, target: slice_to_vec(t_tok), headers: hm, body };
        proof {
            assert(req@ =~= spec_decode(data@)->Ok_0);
        }
        Ok(req)
    }
}

} // verus!
