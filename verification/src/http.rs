//! Protocol tokens of the wire format and the response header type.
//!
//! A `Header` is identified by its slot: the two fixed kinds each occupy one
//! slot, and every distinct custom name occupies one of its own. Slots carry
//! a total order (kind first, then name) so that encoded output is
//! deterministic, and at most one header per slot survives insertion.
use crate::bytes::{bytes_eq, lemma_lex_lt_irrefl, lemma_lex_lt_trans, lemma_lex_trichotomy,
    lex_lt, lex_lt_bytes};
use vstd::prelude::*;
use vstd::string::StrSliceExecFns;
use vstd::string::StringSliceAdditionalSpecFns;

verus! {

/// The one protocol version the engine speaks.
pub open spec fn spec_version() -> Seq<u8> {
    "HTTP/1.1".spec_bytes()
}

pub fn version_bytes() -> (r: Vec<u8>)
    ensures
        r@ == spec_version(),
{
    "HTTP/1.1".as_bytes_vec()
}

/// The line terminator of the wire format.
pub open spec fn spec_crlf() -> Seq<u8> {
    "\r\n".spec_bytes()
}

pub fn crlf_bytes() -> (r: Vec<u8>)
    ensures
        r@ == spec_crlf(),
{
    "\r\n".as_bytes_vec()
}

/// The only content encoding the engine advertises.
pub open spec fn spec_gzip() -> Seq<u8> {
    "gzip".spec_bytes()
}

/// Whether a declared `Accept-Encoding` value names a supported encoding.
pub fn is_supported_encoding(v: &[u8]) -> (r: bool)
    ensures
        r == (v@ == spec_gzip()),
{
    let g = "gzip".as_bytes_vec();
    bytes_eq(v, g.as_slice())
}

/// The line terminator, byte by byte.
pub proof fn lemma_crlf_concrete()
    ensures
        spec_crlf() =~= seq![('\r' as u8), ('\n' as u8)],
{
    reveal_strlit("\r\n");
    assert(vstd::string::is_ascii("\r\n"));
    vstd::string::is_ascii_spec_bytes("\r\n");
}

/// The token separator of the status line, byte by byte.
pub proof fn lemma_space_concrete()
    ensures
        " ".spec_bytes() =~= seq![(' ' as u8)],
{
    reveal_strlit(" ");
    assert(vstd::string::is_ascii(" "));
    vstd::string::is_ascii_spec_bytes(" ");
}

/// The name/value separator of a header line, byte by byte.
pub proof fn lemma_colon_space_concrete()
    ensures
        ": ".spec_bytes() =~= seq![(':' as u8), (' ' as u8)],
{
    reveal_strlit(": ");
    assert(vstd::string::is_ascii(": "));
    vstd::string::is_ascii_spec_bytes(": ");
}

/// Ghost mirror of `Header`: the same shape over mathematical sequences.
pub enum HeaderView {
    ContentEncoding(Seq<u8>),
    ContentType(Seq<u8>),
    Custom(Seq<u8>, Seq<u8>),
}

impl HeaderView {
    /// The name as it appears on the wire.
    pub open spec fn name(self) -> Seq<u8> {
        match self {
            HeaderView::ContentEncoding(_) => "Content-Encoding".spec_bytes(),
            HeaderView::ContentType(_) => "Content-Type".spec_bytes(),
            HeaderView::Custom(name, _) => name,
        }
    }

    pub open spec fn value(self) -> Seq<u8> {
        match self {
            HeaderView::ContentEncoding(v) => v,
            HeaderView::ContentType(v) => v,
            HeaderView::Custom(_, v) => v,
        }
    }

    /// Position of the header's kind in the fixed output order.
    pub open spec fn rank(self) -> int {
        match self {
            HeaderView::ContentEncoding(_) => 0,
            HeaderView::ContentType(_) => 1,
            HeaderView::Custom(_, _) => 2,
        }
    }

    /// The name part of the slot; only custom headers are told apart by name.
    pub open spec fn slot_name(self) -> Seq<u8> {
        match self {
            HeaderView::Custom(name, _) => name,
            _ => Seq::empty(),
        }
    }

    /// Two headers contend for the same place in a response.
    pub open spec fn same_slot(self, other: HeaderView) -> bool {
        self.rank() == other.rank() && self.slot_name() == other.slot_name()
    }

    /// The total order on slots: kind first, then name.
    pub open spec fn slot_lt(self, other: HeaderView) -> bool {
        self.rank() < other.rank() || (self.rank() == other.rank() && lex_lt(
            self.slot_name(),
            other.slot_name(),
        ))
    }
}

/// Headers in the same slot sort identically against everything.
pub proof fn lemma_same_slot_subst(a: HeaderView, b: HeaderView, c: HeaderView)
    requires
        a.same_slot(b),
    ensures
        a.slot_lt(c) == b.slot_lt(c),
        c.slot_lt(a) == c.slot_lt(b),
{
}

/// A header never sorts before one in its own slot.
pub proof fn lemma_same_slot_not_lt(a: HeaderView, b: HeaderView)
    requires
        a.same_slot(b),
    ensures
        !a.slot_lt(b),
{
    lemma_lex_lt_irrefl(a.slot_name());
}

/// The slot order is transitive.
pub proof fn lemma_slot_lt_trans(a: HeaderView, b: HeaderView, c: HeaderView)
    requires
        a.slot_lt(b),
        b.slot_lt(c),
    ensures
        a.slot_lt(c),
{
    if a.rank() == b.rank() && b.rank() == c.rank() {
        lemma_lex_lt_trans(a.slot_name(), b.slot_name(), c.slot_name());
    }
}

/// Two slots are ordered one way or the other, or are the same.
pub proof fn lemma_slot_trichotomy(a: HeaderView, b: HeaderView)
    ensures
        a.slot_lt(b) || b.slot_lt(a) || a.same_slot(b),
{
    if a.rank() == b.rank() {
        lemma_lex_trichotomy(a.slot_name(), b.slot_name());
    }
}

/// A response header: one of the two fixed kinds, or a custom name/value pair.
#[derive(Debug, Clone, Hash)]
pub enum Header {
    ContentEncoding(Vec<u8>),
    ContentType(Vec<u8>),
    Custom(Vec<u8>, Vec<u8>),
}

impl View for Header {
    type V = HeaderView;

    open spec fn view(&self) -> HeaderView {
        match self {
            Header::ContentEncoding(v) => HeaderView::ContentEncoding(v@),
            Header::ContentType(v) => HeaderView::ContentType(v@),
            Header::Custom(name, v) => HeaderView::Custom(name@, v@),
        }
    }
}

impl Header {
    /// The header's wire name.
    pub fn name(&self) -> (r: Vec<u8>)
        ensures
            r@ == self@.name(),
    {
        match self {
            Header::ContentEncoding(_) => "Content-Encoding".as_bytes_vec(),
            Header::ContentType(_) => "Content-Type".as_bytes_vec(),
            Header::Custom(name, _) => name.clone(),
        }
    }

    /// The header's wire value.
    pub fn value(&self) -> (r: &Vec<u8>)
        ensures
            r@ == self@.value(),
    {
        match self {
            Header::ContentEncoding(v) => v,
            Header::ContentType(v) => v,
            Header::Custom(_, v) => v,
        }
    }

    fn rank_val(&self) -> (r: u8)
        ensures
            r as int == self@.rank(),
    {
        match self {
            Header::ContentEncoding(_) => 0,
            Header::ContentType(_) => 1,
            Header::Custom(_, _) => 2,
        }
    }

    /// Whether `self`'s slot sorts strictly before `other`'s.
    pub fn slot_less(&self, other: &Header) -> (r: bool)
        ensures
            r == self@.slot_lt(other@),
    {
        let ra = self.rank_val();
        let rb = other.rank_val();
        if ra < rb {
            true
        } else if rb < ra {
            false
        } else {
            match (self, other) {
                (Header::Custom(n1, _), Header::Custom(n2, _)) => lex_lt_bytes(
                    n1.as_slice(),
                    n2.as_slice(),
                ),
                _ => false,
            }
        }
    }

    /// Whether the two headers contend for the same slot.
    pub fn slot_matches(&self, other: &Header) -> (r: bool)
        ensures
            r == self@.same_slot(other@),
    {
        match (self, other) {
            (Header::ContentEncoding(_), Header::ContentEncoding(_)) => true,
            (Header::ContentType(_), Header::ContentType(_)) => true,
            (Header::Custom(n1, _), Header::Custom(n2, _)) => bytes_eq(n1.as_slice(), n2.as_slice()),
            _ => false,
        }
    }
}

impl PartialEq for Header {
    /// Identity is by slot: equal when the headers occupy the same slot,
    /// whatever their values.
    fn eq(&self, other: &Self) -> (r: bool) {
        self.slot_matches(other)
    }
}

impl vstd::std_specs::cmp::PartialEqSpecImpl for Header {
    open spec fn obeys_eq_spec() -> bool {
        true
    }

    open spec fn eq_spec(&self, other: &Header) -> bool {
        self@.same_slot(other@)
    }
}

impl Eq for Header {

}

} // verus!
