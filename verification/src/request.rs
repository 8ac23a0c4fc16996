//! Request framing and dispatch: deciding when a complete HTTP request head
//! has arrived, keying it, and consulting or bypassing the shared cache.
//!
//! The raw bytes read from the client are kept verbatim and forwarded to the
//! backend unmodified; only the method and target are parsed out, to build
//! the cache key and route the request.

use vstd::prelude::*;
use vstd::string::StringExecFns;

use crate::db::MemoryCache;

verus! {

/// Whether `httparse` rejects these bytes as a malformed request head.
pub uninterp spec fn head_malformed(bytes: Seq<u8>) -> bool;

/// Whether these bytes already hold a structurally complete request head.
pub uninterp spec fn head_complete(bytes: Seq<u8>) -> bool;

/// The method token that the head parse finds in these bytes.
pub uninterp spec fn head_method(bytes: Seq<u8>) -> Option<Seq<char>>;

/// The target (path) token that the head parse finds in these bytes.
pub uninterp spec fn head_path(bytes: Seq<u8>) -> Option<Seq<char>>;

/// What one attempt to parse the accumulated bytes as a request head found.
pub enum HeadOutcome {
    /// The bytes cannot be a request head.
    Malformed,
    /// More bytes are needed before the head is complete.
    Partial,
    /// The head is complete; the tokens it carries, where found.
    Complete { method: Option<String>, path: Option<String> },
}

/// Relies on `httparse::Request::parse` (with room for 64 headers): it
/// reports whether the bytes hold a malformed, partial or complete request
/// head, and on completion fills the request's method and path tokens.
/// The outcome is a function of the bytes alone.
#[verifier::external_body]
fn parse_head(buffer: &[u8]) -> (r: HeadOutcome)
    ensures
        (match r {
            HeadOutcome::Malformed => head_malformed(buffer@),
            HeadOutcome::Partial => !head_malformed(buffer@) && !head_complete(buffer@),
            HeadOutcome::Complete { method, path } => {
                &&& !head_malformed(buffer@)
                &&& head_complete(buffer@)
                &&& head_method(buffer@) == method.deep_view()
                &&& head_path(buffer@) == path.deep_view()
            },
        }),
{
    let mut headers = [httparse::EMPTY_HEADER; 64];
    let mut req = httparse::Request::new(&mut headers);
    match req.parse(buffer) {
        Err(_) => HeadOutcome::Malformed,
        Ok(httparse::Status::Partial) => HeadOutcome::Partial,
        Ok(httparse::Status::Complete(_)) => HeadOutcome::Complete {
            method: req.method.map(|m| m.to_string()),
            path: req.path.map(|p| p.to_string()),
        },
    }
}

/// The ghost shape of a framed request: its method and target tokens, and
/// the raw bytes received so far.
pub struct RequestModel {
    pub method: Seq<char>,
    pub url: Seq<char>,
    pub raw: Seq<u8>,
}

/// A request framed from one connection's opening bytes: the parsed method
/// and target, and the raw bytes received, forwarded verbatim on a miss.
pub struct Request {
    method: String,
    url: String,
    raw: Vec<u8>,
}

impl View for Request {
    type V = RequestModel;

    closed spec fn view(&self) -> RequestModel {
        RequestModel { method: self.method@, url: self.url@, raw: self.raw@ }
    }
}

/// The cache key for a method and target: the two joined by a single space.
pub open spec fn cache_key_spec(method: Seq<char>, url: Seq<char>) -> Seq<char> {
    method + seq![' '] + url
}

impl Request {
    /// Builds a request from its parts.
    pub fn new(method: String, url: String, raw: Vec<u8>) -> (r: Request)
        ensures
            r@ == (RequestModel { method: method@, url: url@, raw: raw@ }),
    {
        Request { method, url, raw }
    }

    /// The parsed method token.
    pub fn method(&self) -> (m: &String)
        ensures
            m@ == self@.method,
    {
        &self.method
    }

    /// The parsed target.
    pub fn url(&self) -> (u: &String)
        ensures
            u@ == self@.url,
    {
        &self.url
    }

    /// The raw bytes received from the client, forwarded verbatim.
    pub fn raw(&self) -> (r: &Vec<u8>)
        ensures
            r@ == self@.raw,
    {
        &self.raw
    }

    /// The key this request is cached under: method and target joined by a
    /// single space.
    pub fn cache_key(&self) -> (k: String)
        ensures
            k@ == cache_key_spec(self@.method, self@.url),
    {
        let mut k = self.method.clone();
        k.append(" ");
        k.append(self.url.as_str());
        proof {
            reveal_strlit(" ");
            assert(" "@ =~= seq![' ']);
            assert(k@ =~= cache_key_spec(self@.method, self@.url));
        }
        k
    }

    /// Whether this request may consult and fill the cache: only GET
    /// requests are cacheable.
    pub fn is_cacheable(&self) -> (b: bool)
        ensures
            b == (self@.method == "GET"@),
    {
        let g: String = "GET".to_owned();
        self.method == g
    }
}

/// What one framing attempt over the bytes read so far decided.
pub enum FrameStep {
    /// A complete head with both tokens: the framed request.
    Complete(Request),
    /// No complete head yet: keep reading.
    Incomplete,
    /// The bytes cannot frame a request: a head that cannot parse, or a
    /// complete head missing its method or path token.
    Malformed,
}

/// Decides, from the bytes a connection has delivered so far, whether a
/// complete request head has arrived.  On completion the framed request
/// carries the method and target tokens and the accumulated bytes verbatim.
pub fn frame_request(buffer: &Vec<u8>) -> (r: FrameStep)
    ensures
        (match r {
            FrameStep::Complete(req) => {
                &&& !head_malformed(buffer@)
                &&& head_complete(buffer@)
                &&& head_method(buffer@) == Some(req@.method)
                &&& head_path(buffer@) == Some(req@.url)
                &&& req@.raw == buffer@
            },
            FrameStep::Incomplete => !head_malformed(buffer@) && !head_complete(buffer@),
            FrameStep::Malformed => head_malformed(buffer@) || (head_complete(buffer@) && (
            head_method(buffer@) is None || head_path(buffer@) is None)),
        }),
{
    match parse_head(buffer.as_slice()) {
        HeadOutcome::Malformed => FrameStep::Malformed,
        HeadOutcome::Partial => FrameStep::Incomplete,
        HeadOutcome::Complete { method, path } => match (method, path) {
            (Some(m), Some(p)) => {
                let raw = copy_bytes(buffer);
                FrameStep::Complete(Request { method: m, url: p, raw })
            },
            _ => FrameStep::Malformed,
        },
    }
}

/// A clone of a byte vector holds the same bytes.
pub proof fn lemma_cloned_bytes(a: Vec<u8>, b: Vec<u8>)
    requires
        cloned::<Vec<u8>>(a, b),
    ensures
        a@ == b@,
{
    if a != b {
        assert(call_ensures(<Vec<u8> as Clone>::clone, (&a,), b));
        assert forall|i: int| 0 <= i < a@.len() implies a@[i] == b@[i] by {
            assert(cloned::<u8>(a[i], b[i]));
        }
        assert(a@ =~= b@);
    }
}

/// What the dispatcher decided for one framed request.
pub enum CacheDecision {
    /// A cacheable request whose key the cache holds: answer with these
    /// bytes, with no backend work.
    UseCached(Vec<u8>),
    /// A cacheable request the cache does not hold: fetch from the backend
    /// and store the response under this key.
    FetchAndStore(String),
    /// A non-GET request: fetch from the backend and store nothing.
    FetchOnly,
}

/// Consults the cache for one framed request: a non-GET request bypasses
/// the cache entirely, a GET is answered from the cache when its key is
/// held and is otherwise directed to the backend, to be stored afterwards
/// under its key.  The cache's mapping is never changed here.
pub fn plan_request<C: MemoryCache<Vec<u8>>>(cache: &mut C, req: &Request) -> (d: CacheDecision)
    requires
        old(cache).wf(),
    ensures
        final(cache).wf(),
        final(cache).capacity() == old(cache).capacity(),
        final(cache).contents() == old(cache).contents(),
        (match d {
            CacheDecision::UseCached(v) => {
                &&& req@.method == "GET"@
                &&& old(cache).contents().dom().contains(
                    cache_key_spec(req@.method, req@.url),
                )
                &&& v@ == old(cache).contents()[cache_key_spec(req@.method, req@.url)]@
            },
            CacheDecision::FetchAndStore(k) => {
                &&& req@.method == "GET"@
                &&& !old(cache).contents().dom().contains(
                    cache_key_spec(req@.method, req@.url),
                )
                &&& k@ == cache_key_spec(req@.method, req@.url)
            },
            CacheDecision::FetchOnly => req@.method != "GET"@,
        }),
{
    if !req.is_cacheable() {
        return CacheDecision::FetchOnly;
    }
    let key = req.cache_key();
    let ghost ks = cache_key_spec(req@.method, req@.url);
    match cache.get(key.as_str()) {
        Some(v) => {
            proof {
                lemma_cloned_bytes(old(cache).contents()[ks], v);
            }
            CacheDecision::UseCached(v)
        },
        None => CacheDecision::FetchAndStore(key),
    }
}

/// Back-fills the cache after a miss: stores the backend's response bytes
/// under the key the dispatcher computed.
pub fn store_response<C: MemoryCache<Vec<u8>>>(cache: &mut C, key: String, response: Vec<u8>)
    requires
        old(cache).wf(),
    ensures
        final(cache).wf(),
        final(cache).capacity() == old(cache).capacity(),
        final(cache).num_entries() <= final(cache).capacity(),
        final(cache).contents().contains_pair(key@, response),
        forall|k: Seq<char>|
            #[trigger] final(cache).contents().dom().contains(k) && k != key@
                ==> old(cache).contents().contains_pair(k, final(cache).contents()[k]),
        (old(cache).contents().dom().contains(key@)
            || old(cache).num_entries() < old(cache).capacity())
            ==> forall|k: Seq<char>|
                #[trigger] old(cache).contents().dom().contains(k)
                    ==> final(cache).contents().dom().contains(k),
{
    cache.set(key, response);
}

/// Cache keys are injective: since a method token never holds a space, two
/// method/target pairs build the same key only when both parts agree; in
/// particular, targets differing in any character give distinct keys, and
/// so do distinct methods for one target.
pub proof fn lemma_cache_key_injective(m1: Seq<char>, u1: Seq<char>, m2: Seq<char>, u2: Seq<char>)
    requires
        !m1.contains(' '),
        !m2.contains(' '),
        cache_key_spec(m1, u1) == cache_key_spec(m2, u2),
    ensures
        m1 == m2,
        u1 == u2,
{
    let k = cache_key_spec(m1, u1);
    assert(k[m1.len() as int] == ' ');
    assert(k[m2.len() as int] == ' ');
    assert forall|j: int| 0 <= j < m1.len() implies k[j] != ' ' by {
        assert(k[j] == m1[j]);
        if m1[j] == ' ' {
            assert(m1.contains(' '));
        }
    }
    assert forall|j: int| 0 <= j < m2.len() implies k[j] != ' ' by {
        assert(k[j] == m2[j]);
        if m2[j] == ' ' {
            assert(m2.contains(' '));
        }
    }
    assert(m1.len() == m2.len());
    assert forall|j: int| 0 <= j < m1.len() implies m1[j] == m2[j] by {
        assert(k[j] == m1[j] && k[j] == m2[j]);
    }
    assert(m1 =~= m2);
    assert(k.len() == m1.len() + 1 + u1.len());
    assert(cache_key_spec(m2, u2).len() == m2.len() + 1 + u2.len());
    assert(u1.len() == u2.len());
    assert forall|j: int| 0 <= j < u1.len() implies u1[j] == u2[j] by {
        assert(k[m1.len() + 1 + j] == u1[j]);
        assert(k[m2.len() + 1 + j] == u2[j]);
    }
    assert(u1 =~= u2);
}

/// A fresh buffer holding the same bytes.
fn copy_bytes(b: &Vec<u8>) -> (r: Vec<u8>)
    ensures
        r@ == b@,
{
    let mut r: Vec<u8> = Vec::new();
    let mut i: usize = 0;
    while i < b.len()
        invariant
            i <= b.len(),
            r@ == b@.subrange(0, i as int),
        decreases b.len() - i,
    {
        r.push(b[i]);
        i += 1;
        proof {
            assert(r@ =~= b@.subrange(0, i as int));
        }
    }
    proof {
        assert(r@ =~= b@);
    }
    r
}

} // verus!
