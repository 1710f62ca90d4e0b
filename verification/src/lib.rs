//! An identity/profile service over a host-persisted byte region.
//!
//! The core is the durable storage layer: a raw paged memory region
//! ([`region::RawRegion`]), a manager partitioning it into
//! non-overlapping virtual regions ([`region::RegionManager`]), an
//! ordered byte-keyed store with fixed key and value budgets
//! ([`store::ByteStore`]), a fixed-format record codec proved to round
//! trip ([`codec`]), and the upgrade coordinator that checkpoints every
//! table into its virtual region and restores it before any call is
//! served ([`service::Service`]). Above that sit the profile
//! operations with their last-writer-wins rule and the two
//! authorization sets guarding privileged calls.
use vstd::prelude::*;

pub mod auth;
pub mod codec;
pub mod crypto;
pub mod principal;
pub mod region;
pub mod service;
pub mod store;

verus! {

/// Why a call was refused. A returned error leaves the state unchanged
/// unless the operation says otherwise.
#[derive(Clone, Copy, Debug, PartialEq, Eq, Structural)]
pub enum Error {
    /// The caller is not in the admin set.
    NotAuthorized,
    /// The caller is not in the stable-maintenance set.
    NotStableAuthorized,
    /// No record under this identity.
    NotFound,
    /// The identity already has a profile.
    AlreadyRegistered,
    /// An encoded value exceeds the store's value budget.
    ValueTooLarge,
    /// A key exceeds the store's key budget.
    KeyTooLarge,
    /// Growth past the region's capacity was requested.
    RegionFull,
    /// A read or write past the current region size.
    OutOfBounds,
    /// An identity's text form does not parse.
    InvalidPrincipalText,
    /// The persisted image does not restore.
    CorruptState,
}

/// One request of the incidental plain-text diagnostic surface.
pub struct HttpRequest {
    pub method: String,
    pub url: String,
    pub headers: Vec<(String, String)>,
    pub body: Vec<u8>,
}

/// Streaming callback token of the diagnostic surface; no streaming is
/// ever used.
pub struct Token {}

/// candid's inter-canister function reference, carried opaquely in a
/// streaming strategy.
#[verifier::external_type_specification]
#[verifier::external_body]
pub struct ExFunc(candid::types::reference::Func);

/// How a response body beyond the first chunk would be fetched.
pub enum StreamingStrategy {
    Callback { callback: candid::types::reference::Func, token: Token },
}

/// One response of the diagnostic surface.
pub struct HttpResponse {
    pub status_code: u16,
    pub headers: Vec<(String, String)>,
    pub body: Vec<u8>,
    pub streaming_strategy: Option<StreamingStrategy>,
}

/// Number of bytes in one page of the persistent region.
pub const PAGE_SIZE: u64 = 65536;

/// Number of whole pages needed to cover `len` bytes.
pub open spec fn spec_pages_for(len: u64) -> u64 {
    ((len + PAGE_SIZE - 1) as int / PAGE_SIZE as int) as u64
}

/// Exec counterpart of `spec_pages_for`.
pub fn pages_for(len: u64) -> (r: u64)
    requires
        len <= 0xffff_ffff_ffff_0000u64,
    ensures
        r == spec_pages_for(len),
        r * PAGE_SIZE >= len,
        len > 0 ==> (r - 1) * PAGE_SIZE < len,
{
    let r = (len + (PAGE_SIZE - 1)) / PAGE_SIZE;
    proof {
        let l = len as int;
        assert(r == (l + 65535) / 65536 ==> r * 65536 >= l && (l > 0 ==> (r - 1) * 65536 < l))
            by (nonlinear_arith);
    }
    r
}

/// A page-aligned length is its page count times the page size.
pub proof fn lemma_page_div(n: int)
    requires
        n % (PAGE_SIZE as int) == 0,
        0 <= n,
    ensures
        (n / (PAGE_SIZE as int)) * (PAGE_SIZE as int) == n,
{
    assert(n % 65536 == 0 && 0 <= n ==> (n / 65536) * 65536 == n) by (nonlinear_arith);
}

/// More pages than the capacity means more bytes than the capacity.
pub proof fn lemma_page_mul_mono(cur: int, add: int)
    requires
        0 <= cur,
        0 <= add,
        cur + add > region::RAW_MAX_PAGES,
    ensures
        cur * PAGE_SIZE + add * PAGE_SIZE > region::RAW_MAX_BYTES,
{
    assert(cur + add > 2048 && 0 <= cur && 0 <= add ==> cur * 65536 + add * 65536 > 134217728)
        by (nonlinear_arith);
}

/// Whole pages stay whole pages, and within capacity.
pub proof fn lemma_page_sum_wf(cur: int, add: int)
    requires
        0 <= cur,
        0 <= add,
        cur + add <= region::RAW_MAX_PAGES,
    ensures
        (cur * PAGE_SIZE + add * PAGE_SIZE) % (PAGE_SIZE as int) == 0,
        cur * PAGE_SIZE + add * PAGE_SIZE <= region::RAW_MAX_BYTES,
{
    assert(0 <= cur && 0 <= add && cur + add <= 2048 ==> (cur * 65536 + add * 65536) % 65536 == 0
        && cur * 65536 + add * 65536 <= 134217728) by (nonlinear_arith);
}

/// A write end past a page-aligned size needs more pages than the size
/// has.
pub proof fn lemma_pages_for_mono(size: u64, end: u64)
    requires
        size % PAGE_SIZE == 0,
        end > size,
        end <= 0xffff_ffff_ffff_0000u64,
    ensures
        spec_pages_for(end) > size / PAGE_SIZE,
        spec_pages_for(end) * PAGE_SIZE >= end,
{
    let s = size as int;
    let e = end as int;
    assert(s % 65536 == 0 && e > s && 0 <= s ==> (e + 65535) / 65536 > s / 65536 && ((e + 65535)
        / 65536) * 65536 >= e) by (nonlinear_arith);
}

/// A page-aligned span holds whole pages of any payload within it.
pub proof fn lemma_cover_round(base: int, x: int, len: int)
    requires
        base >= 0,
        x >= 1,
        len >= base + x,
        base % (PAGE_SIZE as int) == 0,
        len % (PAGE_SIZE as int) == 0,
    ensures
        base + ((x + PAGE_SIZE - 1) / (PAGE_SIZE as int)) * PAGE_SIZE <= len,
{
    let m = len - base;
    assert(m % 65536 == 0) by (nonlinear_arith)
        requires
            base % 65536 == 0,
            len % 65536 == 0,
            m == len - base,
    ;
    assert(m % 65536 == 0 && m >= x && x >= 1 ==> ((x + 65535) / 65536) * 65536 <= m)
        by (nonlinear_arith);
}

/// A payload within one virtual region's capacity needs at most its
/// page count.
pub proof fn lemma_pages_for_cap(x: u64)
    requires
        1 <= x <= region::REGION_CAP_BYTES,
    ensures
        1 <= spec_pages_for(x) <= region::REGION_CAP_PAGES,
{
    assert(1 <= x <= 16777216 ==> 1 <= (x + 65535) as int / 65536 <= 256) by (nonlinear_arith);
}

/// Distributing page counts over the page size.
pub proof fn lemma_page_mul_dist(a: int, b: int)
    ensures
        (a + b) * PAGE_SIZE == a * PAGE_SIZE + b * PAGE_SIZE,
{
    assert((a + b) * 65536 == a * 65536 + b * 65536) by (nonlinear_arith);
}

} // verus!
