//! Response synthesis: from a capture and the filesystem's answers to a
//! complete response descriptor.
//!
//! The handler itself touches no filesystem. The caller resolves the
//! capture, probes the resolved location, and — by the verdict — reads the
//! directory or opens the file; every outcome comes back in as a plain
//! value, and the response built from it is fully determined by the
//! contracts here. Every code path yields a response; no error escapes.

use vstd::prelude::*;

use crate::path::{
    escapes_root, lemma_norm_characterization, norm_path, normalize_capture, split_spec, views_of,
};
use crate::render::{escape_into, href_prefix, href_spec, listing_spec, render_listing, escape_spec};

verus! {

/// What a filesystem probe of a resolved location reported.
#[derive(Clone, Copy, Debug, PartialEq, Eq)]
pub enum Probe {
    /// The location exists and is a directory.
    IsDir,
    /// The location exists and is a regular file.
    IsFile,
    /// Nothing exists at the location.
    Absent,
    /// The probe itself failed: permission denied or another I/O error.
    Denied,
}

/// The classification of a resolved location.
#[derive(Clone, Copy, Debug, PartialEq, Eq)]
pub enum Kind {
    File,
    Directory,
    Missing,
}

/// The status classes this core produces; anything else is the routing
/// layer's business.
#[derive(Clone, Copy, Debug, PartialEq, Eq)]
pub enum Status {
    Okay,
    NotFound,
}

/// The payload of a response.
#[derive(Debug, PartialEq, Eq)]
pub enum Body {
    /// No payload.
    Empty,
    /// Fully materialized bytes, for small synthesized content.
    Bytes(Vec<u8>),
    /// A file the caller opened is to be streamed: the caller keeps the
    /// open handle, owns it exclusively, and sends this many bytes or as
    /// many as the resource yields, releasing the handle on every exit.
    Stream(usize),
}

/// What the routing layer serializes to the wire.
#[derive(Debug, PartialEq, Eq)]
pub struct Response {
    pub status: Status,
    pub body: Body,
}

/// Why a location yielded nothing. All of them leave the wire as plain
/// not-found, so that nothing about the filesystem outside the root can be
/// learned from a response.
#[derive(Clone, Copy, Debug, PartialEq, Eq)]
pub enum ServeError {
    /// The capture would resolve above the root.
    OutOfRoot,
    /// Nothing exists at the resolved location.
    NotFoundOnDisk,
    /// A probe, open or read failed for another reason than nonexistence.
    AccessDenied,
    /// Classification succeeded but the filesystem changed before the open.
    RaceLost,
}

/// A classified, root-contained location: the root-relative segments the
/// capture resolved to, and what the filesystem holds there.
#[derive(Debug)]
pub struct ResolvedTarget {
    pub rel: Vec<Vec<u8>>,
    pub kind: Kind,
}

/// What a probe outcome classifies as: existing directories and files keep
/// their nature, everything else — including a failed probe — is missing.
pub open spec fn classify_spec(p: Probe) -> Kind {
    match p {
        Probe::IsDir => Kind::Directory,
        Probe::IsFile => Kind::File,
        Probe::Absent => Kind::Missing,
        Probe::Denied => Kind::Missing,
    }
}

/// The classification of a capture under a probe of its resolved location:
/// missing whenever the capture escapes the root, else as the probe says.
pub open spec fn resolve_kind_spec(capture: Seq<u8>, probe: Probe) -> Kind {
    if norm_path(capture) is None {
        Kind::Missing
    } else {
        classify_spec(probe)
    }
}

/// Classifies one probe outcome.
pub fn classify(p: Probe) -> (k: Kind)
    ensures
        k == classify_spec(p),
{
    match p {
        Probe::IsDir => Kind::Directory,
        Probe::IsFile => Kind::File,
        Probe::Absent => Kind::Missing,
        Probe::Denied => Kind::Missing,
    }
}

/// Resolves a capture against the probe of its resolved location. The
/// caller first resolves with `normalize_capture`, probes the rooted
/// location, and hands the outcome back; a capture that escapes the root
/// is missing without any probe.
pub fn resolve(capture: &Vec<u8>, probe: Probe) -> (t: ResolvedTarget)
    ensures
        t.kind == resolve_kind_spec(capture@, probe),
        norm_path(capture@) matches Some(rel) ==> views_of(t.rel@) == rel,
        norm_path(capture@) is None ==> t.rel@.len() == 0,
{
    match normalize_capture(capture) {
        Some(rel) => {
            let kind = classify(probe);
            ResolvedTarget { rel, kind }
        },
        None => ResolvedTarget { rel: Vec::new(), kind: Kind::Missing },
    }
}

/// The absolute filesystem location of a target: the root followed by the
/// root-relative URL of its segments.
pub open spec fn rooted_spec(root: Seq<u8>, rel: Seq<Seq<u8>>) -> Seq<u8> {
    root + href_spec(rel)
}

/// Joins the root with resolved segments. The result extends the root
/// byte for byte: a resolved location never leaves the root.
pub fn rooted_path(root: &Vec<u8>, rel: &Vec<Vec<u8>>) -> (r: Vec<u8>)
    ensures
        r@ == rooted_spec(root@, views_of(rel@)),
        r@.len() > root@.len(),
        r@.take(root@.len() as int) == root@,
{
    let mut out = crate::path::copy_bytes(root);
    let href = href_prefix(rel, rel.len());
    out.extend_from_slice(href.as_slice());
    proof {
        assert(views_of(rel@).take(rel@.len() as int) =~= views_of(rel@));
        assert(out@.take(root@.len() as int) =~= root@);
    }
    out
}

/// The fixed opening of a not-found diagnostic: the bytes of
/// `File not found: /`.
pub open spec fn not_found_text() -> Seq<u8> {
    seq![
        70u8, 105u8, 108u8, 101u8, 32u8, 110u8, 111u8, 116u8, 32u8, 102u8, 111u8, 117u8, 110u8,
        100u8, 58u8, 32u8, 47u8,
    ]
}

/// The body of a not-found response: the fixed text and the escaped
/// capture, so that the echo of the request cannot break the markup.
pub open spec fn missing_body_spec(capture: Seq<u8>) -> Seq<u8> {
    not_found_text() + escape_spec(capture)
}

/// The not-found response for a request: it identifies the request and
/// nothing else.
pub fn respond_missing(capture: &Vec<u8>) -> (r: Response)
    ensures
        r.status == Status::NotFound,
        r.body matches Body::Bytes(b) && b@ == missing_body_spec(capture@),
{
    let mut out: Vec<u8> = Vec::new();
    out.push(70);
    out.push(105);
    out.push(108);
    out.push(101);
    out.push(32);
    out.push(110);
    out.push(111);
    out.push(116);
    out.push(32);
    out.push(102);
    out.push(111);
    out.push(117);
    out.push(110);
    out.push(100);
    out.push(58);
    out.push(32);
    out.push(47);
    proof {
        assert(out@ =~= not_found_text());
    }
    escape_into(&mut out, capture);
    Response { status: Status::NotFound, body: Body::Bytes(out) }
}

/// The response for a resolved file. The caller opened the file and read
/// its length from the metadata; the routing layer streams that many bytes
/// from the handle. An open that failed after classification — the race
/// was lost — falls back to not found with an empty body.
pub fn handle_file(opened: Option<usize>) -> (r: Response)
    ensures
        opened matches Some(len) ==> r.status == Status::Okay && r.body == Body::Stream(len),
        opened is None ==> r.status == Status::NotFound && r.body == Body::Empty,
{
    match opened {
        Some(len) => Response { status: Status::Okay, body: Body::Stream(len) },
        None => Response { status: Status::NotFound, body: Body::Empty },
    }
}

/// The response for a resolved directory: its rendered listing, or — when
/// the directory could not be read — not found, never a partial listing.
pub fn handle_folder(rel: &Vec<Vec<u8>>, listing: Option<Vec<Vec<u8>>>) -> (r: Response)
    ensures
        listing matches Some(names) ==> r.status == Status::Okay && (r.body matches Body::Bytes(b)
            && b@ == listing_spec(views_of(rel@), views_of(names@))),
        listing is None ==> r.status == Status::NotFound && r.body == Body::Empty,
{
    match listing {
        Some(names) => {
            let bytes = render_listing(rel, &names);
            Response { status: Status::Okay, body: Body::Bytes(bytes) }
        },
        None => Response { status: Status::NotFound, body: Body::Empty },
    }
}

/// One pass over a request, as the server runs it: classify the capture,
/// then stream the file, render the directory, or report a miss. The
/// caller probes the resolved location first and, by the probe's verdict,
/// reads the directory or opens the file, handing each outcome in.
pub fn handle_request(
    capture: &Vec<u8>,
    probe: Probe,
    listing: Option<Vec<Vec<u8>>>,
    opened: Option<usize>,
) -> (r: Response)
    ensures
        resolve_kind_spec(capture@, probe) == Kind::Missing ==> r.status == Status::NotFound && (
        r.body matches Body::Bytes(b) && b@ == missing_body_spec(capture@)),
        resolve_kind_spec(capture@, probe) == Kind::Directory ==> {
            &&& listing matches Some(names) ==> r.status == Status::Okay && (
            r.body matches Body::Bytes(b) && b@ == listing_spec(
                norm_path(capture@).unwrap(),
                views_of(names@),
            ))
            &&& listing is None ==> r.status == Status::NotFound && r.body == Body::Empty
        },
        resolve_kind_spec(capture@, probe) == Kind::File ==> {
            &&& opened matches Some(len) ==> r.status == Status::Okay && r.body == Body::Stream(len)
            &&& opened is None ==> r.status == Status::NotFound && r.body == Body::Empty
        },
{
    match normalize_capture(capture) {
        None => respond_missing(capture),
        Some(rel) => {
            match classify(probe) {
                Kind::Missing => respond_missing(capture),
                Kind::Directory => handle_folder(&rel, listing),
                Kind::File => handle_file(opened),
            }
        },
    }
}

/// The fixed opening of the fallback body: the bytes of
/// `Not implemented: `.
pub open spec fn fallback_text() -> Seq<u8> {
    seq![
        78u8, 111u8, 116u8, 32u8, 105u8, 109u8, 112u8, 108u8, 101u8, 109u8, 101u8, 110u8, 116u8,
        101u8, 100u8, 58u8, 32u8,
    ]
}

/// The body of the fallback response: the fixed text and the escaped
/// description of the unmatched request.
pub open spec fn fallback_body_spec(request: Seq<u8>) -> Seq<u8> {
    fallback_text() + escape_spec(request)
}

/// The default response for a request no route matched: a placeholder that
/// describes the request. Stateless, pure formatting.
pub fn fallback_response(request: &Vec<u8>) -> (r: Response)
    ensures
        r.status == Status::Okay,
        r.body matches Body::Bytes(b) && b@ == fallback_body_spec(request@),
{
    let mut out: Vec<u8> = Vec::new();
    out.push(78);
    out.push(111);
    out.push(116);
    out.push(32);
    out.push(105);
    out.push(109);
    out.push(112);
    out.push(108);
    out.push(101);
    out.push(109);
    out.push(101);
    out.push(110);
    out.push(116);
    out.push(101);
    out.push(100);
    out.push(58);
    out.push(32);
    proof {
        assert(out@ =~= fallback_text());
    }
    escape_into(&mut out, request);
    Response { status: Status::Okay, body: Body::Bytes(out) }
}

/// Every error class leaves the wire as not-found: no response
/// distinguishes what exists outside the root from what does not exist.
pub fn status_of(e: ServeError) -> (s: Status)
    ensures
        s == Status::NotFound,
{
    match e {
        ServeError::OutOfRoot => Status::NotFound,
        ServeError::NotFoundOnDisk => Status::NotFound,
        ServeError::AccessDenied => Status::NotFound,
        ServeError::RaceLost => Status::NotFound,
    }
}

/// True of the one error class an operator should see at raised severity:
/// a probe or read that failed outright, as opposed to an ordinary miss.
pub fn is_operator_fault(e: ServeError) -> (r: bool)
    ensures
        r == (e == ServeError::AccessDenied),
{
    match e {
        ServeError::AccessDenied => true,
        ServeError::OutOfRoot => false,
        ServeError::NotFoundOnDisk => false,
        ServeError::RaceLost => false,
    }
}

/// A capture that climbs above the root resolves as missing, whatever the
/// filesystem would have answered: nothing outside the root can be reached
/// or probed through this core.
pub proof fn lemma_traversal_resolves_missing(capture: Seq<u8>, probe: Probe)
    requires
        escapes_root(split_spec(capture)),
    ensures
        resolve_kind_spec(capture, probe) == Kind::Missing,
{
    lemma_norm_characterization(split_spec(capture));
}

/// Resolution is a function of the capture and of what the filesystem
/// reported: two resolutions of the same capture, with the filesystem
/// unchanged between them, classify alike.
pub proof fn lemma_resolution_idempotent(capture: Seq<u8>, first: Probe, second: Probe)
    requires
        first == second,
    ensures
        resolve_kind_spec(capture, first) == resolve_kind_spec(capture, second),
{
}

} // verus!
