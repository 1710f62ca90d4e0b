//! Fixed-format byte codec for the records kept in the ordered byte-keyed
//! store: the profile record and the serialized form of a whole table.
//!
//! Every encoder has a spec-level counterpart, and decoding is proved to be
//! the exact inverse: `spec_decode_profile(spec_encode_profile(p)) == Some(p)`
//! and, for every byte string that decodes at all,
//! `spec_encode_profile(spec_decode_profile(b).unwrap()) == b`.
use vstd::prelude::*;
use vstd::bytes::*;
use vstd::seq_lib::*;

verus! {

/// A user profile. Text-valued fields (username, password, email) are kept
/// as their byte representation; the host edge converts to and from text.
#[derive(Debug)]
pub struct Profile {
    pub updated_time_msecs: Option<u64>,
    pub username: Option<Vec<u8>>,
    pub password: Option<Vec<u8>>,
    pub email: Option<Vec<u8>>,
}

/// The mathematical model of a profile.
pub ghost struct ProfileV {
    pub updated_time_msecs: Option<u64>,
    pub username: Option<Seq<u8>>,
    pub password: Option<Seq<u8>>,
    pub email: Option<Seq<u8>>,
}

pub open spec fn view_opt_bytes(o: Option<Vec<u8>>) -> Option<Seq<u8>> {
    match o {
        Some(v) => Some(v@),
        None => None,
    }
}

impl View for Profile {
    type V = ProfileV;

    open spec fn view(&self) -> ProfileV {
        ProfileV {
            updated_time_msecs: self.updated_time_msecs,
            username: view_opt_bytes(self.username),
            password: view_opt_bytes(self.password),
            email: view_opt_bytes(self.email),
        }
    }
}

/// Copy a byte vector.
pub fn copy_bytes(v: &Vec<u8>) -> (r: Vec<u8>)
    ensures
        r@ == v@,
{
    vstd::slice::slice_to_vec(v.as_slice())
}

/// Copy an optional byte vector.
pub fn copy_opt_bytes(o: &Option<Vec<u8>>) -> (r: Option<Vec<u8>>)
    ensures
        view_opt_bytes(r) == view_opt_bytes(*o),
{
    match o {
        Some(v) => Some(copy_bytes(v)),
        None => None,
    }
}

impl Profile {
    /// A deep copy, equal to the original in the model.
    pub fn duplicate(&self) -> (r: Profile)
        ensures
            r@ == self@,
    {
        Profile {
            updated_time_msecs: self.updated_time_msecs,
            username: copy_opt_bytes(&self.username),
            password: copy_opt_bytes(&self.password),
            email: copy_opt_bytes(&self.email),
        }
    }
}

impl Default for Profile {
    /// The profile with every field absent.
    fn default() -> (r: Profile)
        ensures
            r@ == (ProfileV {
                updated_time_msecs: None,
                username: None,
                password: None,
                email: None,
            }),
    {
        Profile { updated_time_msecs: None, username: None, password: None, email: None }
    }
}

// ------------------------------------------------------------------
// Spec-level encoders.
// ------------------------------------------------------------------
/// Optional timestamp: a presence tag, then 8 little-endian bytes.
pub open spec fn enc_opt_u64(o: Option<u64>) -> Seq<u8> {
    match o {
        None => seq![0u8],
        Some(x) => seq![1u8] + spec_u64_to_le_bytes(x),
    }
}

/// Length prefix: 4 little-endian bytes.
pub open spec fn enc_len(n: nat) -> Seq<u8>
    recommends
        n <= u32::MAX,
{
    spec_u32_to_le_bytes(n as u32)
}

/// Length-prefixed byte string.
pub open spec fn enc_bytes(b: Seq<u8>) -> Seq<u8>
    recommends
        b.len() <= u32::MAX,
{
    enc_len(b.len()) + b
}

/// Optional byte string: a presence tag, then the length-prefixed bytes.
pub open spec fn enc_opt_bytes(o: Option<Seq<u8>>) -> Seq<u8> {
    match o {
        None => seq![0u8],
        Some(b) => seq![1u8] + enc_bytes(b),
    }
}

/// The fixed on-disk schema of a profile record.
pub open spec fn spec_encode_profile(p: ProfileV) -> Seq<u8> {
    enc_opt_u64(p.updated_time_msecs) + enc_opt_bytes(p.username) + enc_opt_bytes(p.password)
        + enc_opt_bytes(p.email)
}

pub open spec fn bounded_opt(o: Option<Seq<u8>>, max: nat) -> bool {
    match o {
        None => true,
        Some(b) => b.len() <= max,
    }
}

/// Every variable-length field short enough for its length prefix.
pub open spec fn profile_encodable(p: ProfileV) -> bool {
    &&& bounded_opt(p.username, u32::MAX as nat)
    &&& bounded_opt(p.password, u32::MAX as nat)
    &&& bounded_opt(p.email, u32::MAX as nat)
}

// ------------------------------------------------------------------
// Spec-level parsers. Each consumes a prefix and returns the rest.
// ------------------------------------------------------------------
pub open spec fn parse_opt_u64(s: Seq<u8>) -> Option<(Option<u64>, Seq<u8>)> {
    if s.len() < 1 {
        None
    } else if s[0] == 0u8 {
        Some((None, s.skip(1)))
    } else if s[0] == 1u8 {
        if s.len() >= 9 {
            Some((Some(spec_u64_from_le_bytes(s.subrange(1, 9))), s.skip(9)))
        } else {
            None
        }
    } else {
        None
    }
}

pub open spec fn parse_len(s: Seq<u8>) -> Option<(u32, Seq<u8>)> {
    if s.len() >= 4 {
        Some((spec_u32_from_le_bytes(s.subrange(0, 4)), s.skip(4)))
    } else {
        None
    }
}

pub open spec fn parse_bytes(s: Seq<u8>) -> Option<(Seq<u8>, Seq<u8>)> {
    match parse_len(s) {
        Some((n, r)) => if r.len() >= n {
            Some((r.take(n as int), r.skip(n as int)))
        } else {
            None
        },
        None => None,
    }
}

pub open spec fn parse_opt_bytes(s: Seq<u8>) -> Option<(Option<Seq<u8>>, Seq<u8>)> {
    if s.len() < 1 {
        None
    } else if s[0] == 0u8 {
        Some((None, s.skip(1)))
    } else if s[0] == 1u8 {
        match parse_bytes(s.skip(1)) {
            Some((b, r)) => Some((Some(b), r)),
            None => None,
        }
    } else {
        None
    }
}

/// Decode a profile record; the whole input must be consumed.
pub open spec fn spec_decode_profile(b: Seq<u8>) -> Option<ProfileV> {
    match parse_opt_u64(b) {
        Some((t, r1)) => match parse_opt_bytes(r1) {
            Some((u, r2)) => match parse_opt_bytes(r2) {
                Some((pw, r3)) => match parse_opt_bytes(r3) {
                    Some((e, r4)) => if r4.len() == 0 {
                        Some(
                            ProfileV {
                                updated_time_msecs: t,
                                username: u,
                                password: pw,
                                email: e,
                            },
                        )
                    } else {
                        None
                    },
                    None => None,
                },
                None => None,
            },
            None => None,
        },
        None => None,
    }
}

// ------------------------------------------------------------------
// Round-trip lemmas, field by field.
// ------------------------------------------------------------------
pub proof fn lemma_parse_enc_opt_u64(o: Option<u64>, rest: Seq<u8>)
    ensures
        parse_opt_u64(enc_opt_u64(o) + rest) == Some((o, rest)),
{
    lemma_auto_spec_u64_to_from_le_bytes();
    let s = enc_opt_u64(o) + rest;
    match o {
        None => {
            assert(s[0] == 0u8);
            assert(s.skip(1) =~= rest);
        },
        Some(x) => {
            assert(s[0] == 1u8);
            assert(s.subrange(1, 9) =~= spec_u64_to_le_bytes(x));
            assert(s.skip(9) =~= rest);
        },
    }
}

pub proof fn lemma_canon_opt_u64(s: Seq<u8>, o: Option<u64>, r: Seq<u8>)
    requires
        parse_opt_u64(s) == Some((o, r)),
    ensures
        s == enc_opt_u64(o) + r,
{
    lemma_auto_spec_u64_to_from_le_bytes();
    if s[0] == 0u8 {
        assert(s =~= seq![0u8] + s.skip(1));
    } else {
        assert(s[0] == 1u8);
        assert(spec_u64_to_le_bytes(spec_u64_from_le_bytes(s.subrange(1, 9))) == s.subrange(1, 9));
        assert(s =~= seq![1u8] + s.subrange(1, 9) + s.skip(9));
    }
}

pub proof fn lemma_parse_enc_bytes(b: Seq<u8>, rest: Seq<u8>)
    requires
        b.len() <= u32::MAX,
    ensures
        parse_bytes(enc_bytes(b) + rest) == Some((b, rest)),
{
    lemma_auto_spec_u32_to_from_le_bytes();
    let s = enc_bytes(b) + rest;
    assert(s.subrange(0, 4) =~= spec_u32_to_le_bytes(b.len() as u32));
    assert(s.skip(4) =~= b + rest);
    assert((b + rest).take(b.len() as int) =~= b);
    assert((b + rest).skip(b.len() as int) =~= rest);
}

pub proof fn lemma_canon_bytes(s: Seq<u8>, b: Seq<u8>, r: Seq<u8>)
    requires
        parse_bytes(s) == Some((b, r)),
    ensures
        s == enc_bytes(b) + r,
        b.len() <= u32::MAX,
{
    lemma_auto_spec_u32_to_from_le_bytes();
    let n = spec_u32_from_le_bytes(s.subrange(0, 4));
    let rest = s.skip(4);
    assert(b =~= rest.take(n as int));
    assert(spec_u32_to_le_bytes(spec_u32_from_le_bytes(s.subrange(0, 4))) == s.subrange(0, 4));
    assert(b.len() == n);
    assert(s =~= s.subrange(0, 4) + rest.take(n as int) + rest.skip(n as int));
}

pub proof fn lemma_parse_enc_opt_bytes(o: Option<Seq<u8>>, rest: Seq<u8>)
    requires
        bounded_opt(o, u32::MAX as nat),
    ensures
        parse_opt_bytes(enc_opt_bytes(o) + rest) == Some((o, rest)),
{
    let s = enc_opt_bytes(o) + rest;
    match o {
        None => {
            assert(s[0] == 0u8);
            assert(s.skip(1) =~= rest);
        },
        Some(b) => {
            assert(s[0] == 1u8);
            assert(s.skip(1) =~= enc_bytes(b) + rest);
            lemma_parse_enc_bytes(b, rest);
        },
    }
}

pub proof fn lemma_canon_opt_bytes(s: Seq<u8>, o: Option<Seq<u8>>, r: Seq<u8>)
    requires
        parse_opt_bytes(s) == Some((o, r)),
    ensures
        s == enc_opt_bytes(o) + r,
        bounded_opt(o, u32::MAX as nat),
{
    if s[0] == 0u8 {
        assert(s =~= seq![0u8] + s.skip(1));
    } else {
        assert(s[0] == 1u8);
        let (b, r2) = parse_bytes(s.skip(1)).unwrap();
        lemma_canon_bytes(s.skip(1), b, r2);
        assert(s =~= seq![1u8] + s.skip(1));
    }
}

/// Decoding inverts encoding, for every encodable profile.
pub proof fn lemma_profile_round_trip(p: ProfileV)
    requires
        profile_encodable(p),
    ensures
        spec_decode_profile(spec_encode_profile(p)) == Some(p),
{
    let r4 = Seq::<u8>::empty();
    let r3 = enc_opt_bytes(p.email) + r4;
    let r2 = enc_opt_bytes(p.password) + r3;
    let r1 = enc_opt_bytes(p.username) + r2;
    let b = spec_encode_profile(p);
    assert(b =~= enc_opt_u64(p.updated_time_msecs) + r1);
    lemma_parse_enc_opt_u64(p.updated_time_msecs, r1);
    lemma_parse_enc_opt_bytes(p.username, r2);
    lemma_parse_enc_opt_bytes(p.password, r3);
    lemma_parse_enc_opt_bytes(p.email, r4);
}

/// Every byte string that decodes re-encodes to itself: the format is
/// canonical.
#[verifier::rlimit(60)]
#[verifier::spinoff_prover]
pub proof fn lemma_profile_canonical(b: Seq<u8>)
    requires
        spec_decode_profile(b) is Some,
    ensures
        profile_encodable(spec_decode_profile(b).unwrap()),
        spec_encode_profile(spec_decode_profile(b).unwrap()) == b,
{
    let (t, r1) = parse_opt_u64(b).unwrap();
    let (u, r2) = parse_opt_bytes(r1).unwrap();
    let (pw, r3) = parse_opt_bytes(r2).unwrap();
    let (e, r4) = parse_opt_bytes(r3).unwrap();
    lemma_canon_opt_u64(b, t, r1);
    lemma_canon_opt_bytes(r1, u, r2);
    lemma_canon_opt_bytes(r2, pw, r3);
    lemma_canon_opt_bytes(r3, e, r4);
    assert(r4 =~= Seq::<u8>::empty());
    let p = spec_decode_profile(b).unwrap();
    assert(spec_encode_profile(p) =~= b);
}

// ------------------------------------------------------------------
// Executable encoder.
// ------------------------------------------------------------------
fn push_opt_u64(out: &mut Vec<u8>, o: &Option<u64>)
    ensures
        final(out)@ == old(out)@ + enc_opt_u64(*o),
{
    match o {
        None => {
            out.push(0u8);
            proof {
                assert(out@ =~= old(out)@ + enc_opt_u64(None::<u64>));
            }
        },
        Some(x) => {
            out.push(1u8);
            let mut tail = u64_to_le_bytes(*x);
            out.append(&mut tail);
            proof {
                assert(out@ =~= old(out)@ + enc_opt_u64(Some(*x)));
            }
        },
    }
}

fn push_bytes_field(out: &mut Vec<u8>, b: &Vec<u8>)
    requires
        b@.len() <= u32::MAX,
    ensures
        final(out)@ == old(out)@ + enc_bytes(b@),
{
    let n: u32 = b.len() as u32;
    let mut lenb = u32_to_le_bytes(n);
    out.append(&mut lenb);
    out.extend_from_slice(b.as_slice());
    proof {
        assert(out@ =~= old(out)@ + enc_bytes(b@));
    }
}

fn push_opt_bytes(out: &mut Vec<u8>, o: &Option<Vec<u8>>)
    requires
        bounded_opt(view_opt_bytes(*o), u32::MAX as nat),
    ensures
        final(out)@ == old(out)@ + enc_opt_bytes(view_opt_bytes(*o)),
{
    match o {
        None => {
            out.push(0u8);
            proof {
                assert(out@ =~= old(out)@ + enc_opt_bytes(None::<Seq<u8>>));
            }
        },
        Some(b) => {
            out.push(1u8);
            push_bytes_field(out, b);
            proof {
                assert(out@ =~= old(out)@ + enc_opt_bytes(Some(b@)));
            }
        },
    }
}

fn opt_len_small(o: &Option<Vec<u8>>) -> (r: bool)
    ensures
        r == bounded_opt(view_opt_bytes(*o), u32::MAX as nat),
{
    match o {
        None => true,
        Some(b) => b.len() as u64 <= u32::MAX as u64,
    }
}

/// Encode a profile record into its fixed byte format. Returns `None`
/// only when a field is too long for its length prefix.
pub fn encode_profile(p: &Profile) -> (r: Option<Vec<u8>>)
    ensures
        match r {
            Some(v) => profile_encodable(p@) && v@ == spec_encode_profile(p@),
            None => !profile_encodable(p@),
        },
{
    if !opt_len_small(&p.username) || !opt_len_small(&p.password) || !opt_len_small(&p.email) {
        return None;
    }
    let mut out: Vec<u8> = Vec::new();
    push_opt_u64(&mut out, &p.updated_time_msecs);
    push_opt_bytes(&mut out, &p.username);
    push_opt_bytes(&mut out, &p.password);
    push_opt_bytes(&mut out, &p.email);
    proof {
        assert(out@ =~= spec_encode_profile(p@));
    }
    Some(out)
}

// ------------------------------------------------------------------
// Executable parser. Each reader works at a byte offset `i` and is
// proved equal to the spec parser applied to the suffix at `i`.
// ------------------------------------------------------------------
proof fn lemma_suffix(b: Seq<u8>, i: int, j: int)
    requires
        0 <= i <= j <= b.len(),
    ensures
        b.skip(i).skip(j - i) == b.skip(j),
        b.skip(i).subrange(0, j - i) == b.subrange(i, j),
{
    assert(b.skip(i).skip(j - i) =~= b.skip(j));
    assert(b.skip(i).subrange(0, j - i) =~= b.subrange(i, j));
}

fn read_opt_u64(b: &Vec<u8>, i: usize) -> (r: Option<(Option<u64>, usize)>)
    requires
        i <= b@.len(),
    ensures
        match r {
            Some(p) => i < p.1 <= b@.len() && parse_opt_u64(b@.skip(i as int)) == Some(
                (p.0, b@.skip(p.1 as int)),
            ),
            None => parse_opt_u64(b@.skip(i as int)) is None,
        },
{
    let s = Ghost(b@.skip(i as int));
    if i >= b.len() {
        return None;
    }
    let tag = b[i];
    assert(s@[0] == tag);
    if tag == 0u8 {
        proof {
            lemma_suffix(b@, i as int, i + 1);
        }
        Some((None, i + 1))
    } else if tag == 1u8 {
        if b.len() - i >= 9 {
            let sl = vstd::slice::slice_subrange(b.as_slice(), i + 1, i + 9);
            let x = u64_from_le_bytes(sl);
            proof {
                lemma_suffix(b@, i as int, i + 9);
                assert(s@.subrange(1, 9) =~= b@.subrange(i + 1, i + 9));
            }
            Some((Some(x), i + 9))
        } else {
            assert(s@.len() < 9);
            None
        }
    } else {
        None
    }
}

fn read_bytes_field(b: &Vec<u8>, i: usize) -> (r: Option<(Vec<u8>, usize)>)
    requires
        i <= b@.len(),
    ensures
        match r {
            Some(p) => i < p.1 <= b@.len() && parse_bytes(b@.skip(i as int)) == Some(
                (p.0@, b@.skip(p.1 as int)),
            ),
            None => parse_bytes(b@.skip(i as int)) is None,
        },
{
    let s = Ghost(b@.skip(i as int));
    if b.len() - i < 4 {
        assert(s@.len() < 4);
        return None;
    }
    let sl = vstd::slice::slice_subrange(b.as_slice(), i, i + 4);
    let n = u32_from_le_bytes(sl);
    proof {
        assert(s@.subrange(0, 4) =~= b@.subrange(i as int, i + 4));
        lemma_suffix(b@, i as int, i + 4);
    }
    let rem = b.len() - (i + 4);
    if (n as u64) > (rem as u64) {
        assert(b@.skip(i + 4).len() < n);
        return None;
    }
    let m = n as usize;
    let j = i + 4 + m;
    let data = vstd::slice::slice_to_vec(vstd::slice::slice_subrange(b.as_slice(), i + 4, j));
    proof {
        lemma_suffix(b@, i + 4, j as int);
        assert(b@.skip(i + 4).take(n as int) =~= b@.subrange(i + 4, j as int));
    }
    Some((data, j))
}

fn read_opt_bytes(b: &Vec<u8>, i: usize) -> (r: Option<(Option<Vec<u8>>, usize)>)
    requires
        i <= b@.len(),
    ensures
        match r {
            Some(p) => i < p.1 <= b@.len() && parse_opt_bytes(b@.skip(i as int)) == Some(
                (view_opt_bytes(p.0), b@.skip(p.1 as int)),
            ),
            None => parse_opt_bytes(b@.skip(i as int)) is None,
        },
{
    let s = Ghost(b@.skip(i as int));
    if i >= b.len() {
        return None;
    }
    let tag = b[i];
    assert(s@[0] == tag);
    if tag == 0u8 {
        proof {
            lemma_suffix(b@, i as int, i + 1);
        }
        Some((None, i + 1))
    } else if tag == 1u8 {
        proof {
            lemma_suffix(b@, i as int, i + 1);
        }
        match read_bytes_field(b, i + 1) {
            Some((data, j)) => {
                assert(s@.skip(1) == b@.skip(i + 1));
                Some((Some(data), j))
            },
            None => None,
        }
    } else {
        None
    }
}

/// Decode a profile record. Returns `None` exactly when the bytes are not
/// a canonical profile encoding; under correct operation that marks data
/// corruption.
pub fn decode_profile(b: &Vec<u8>) -> (r: Option<Profile>)
    ensures
        match r {
            Some(p) => spec_decode_profile(b@) == Some(p@),
            None => spec_decode_profile(b@) is None,
        },
{
    proof {
        assert(b@.skip(0) =~= b@);
    }
    let (t, i1) = match read_opt_u64(b, 0) {
        Some(p) => p,
        None => {
            return None;
        },
    };
    let (u, i2) = match read_opt_bytes(b, i1) {
        Some(p) => p,
        None => {
            return None;
        },
    };
    let (pw, i3) = match read_opt_bytes(b, i2) {
        Some(p) => p,
        None => {
            return None;
        },
    };
    let (e, i4) = match read_opt_bytes(b, i3) {
        Some(p) => p,
        None => {
            return None;
        },
    };
    if i4 != b.len() {
        assert(b@.skip(i4 as int).len() != 0);
        return None;
    }
    let p = Profile { updated_time_msecs: t, username: u, password: pw, email: e };
    Some(p)
}

// ------------------------------------------------------------------
// Serialized form of a whole table: an entry count, then each entry as
// a length-prefixed key and a length-prefixed value.
// ------------------------------------------------------------------
/// The model of one stored entry: key bytes and value bytes.
pub open spec fn view_entries(es: Seq<(Vec<u8>, Vec<u8>)>) -> Seq<(Seq<u8>, Seq<u8>)> {
    es.map_values(|e: (Vec<u8>, Vec<u8>)| (e.0@, e.1@))
}

pub open spec fn enc_entry(e: (Seq<u8>, Seq<u8>)) -> Seq<u8> {
    enc_bytes(e.0) + enc_bytes(e.1)
}

pub open spec fn enc_entries(es: Seq<(Seq<u8>, Seq<u8>)>) -> Seq<u8>
    decreases es.len(),
{
    if es.len() == 0 {
        Seq::<u8>::empty()
    } else {
        enc_entry(es[0]) + enc_entries(es.skip(1))
    }
}

/// The serialized image of a table.
pub open spec fn spec_encode_table(es: Seq<(Seq<u8>, Seq<u8>)>) -> Seq<u8> {
    enc_len(es.len()) + enc_entries(es)
}

pub open spec fn entries_encodable(es: Seq<(Seq<u8>, Seq<u8>)>) -> bool {
    &&& es.len() <= u32::MAX
    &&& forall|i: int|
        0 <= i < es.len() ==> (#[trigger] es[i]).0.len() <= u32::MAX && es[i].1.len() <= u32::MAX
}

pub open spec fn parse_entries(s: Seq<u8>, n: nat) -> Option<(Seq<(Seq<u8>, Seq<u8>)>, Seq<u8>)>
    decreases n,
{
    if n == 0 {
        Some((Seq::<(Seq<u8>, Seq<u8>)>::empty(), s))
    } else {
        match parse_bytes(s) {
            Some((k, r1)) => match parse_bytes(r1) {
                Some((v, r2)) => match parse_entries(r2, (n - 1) as nat) {
                    Some((es, r3)) => Some((seq![(k, v)] + es, r3)),
                    None => None,
                },
                None => None,
            },
            None => None,
        }
    }
}

/// Decode a serialized table; the whole input must be consumed.
pub open spec fn spec_decode_table(b: Seq<u8>) -> Option<Seq<(Seq<u8>, Seq<u8>)>> {
    match parse_len(b) {
        Some((n, r)) => match parse_entries(r, n as nat) {
            Some((es, r2)) => if r2.len() == 0 {
                Some(es)
            } else {
                None
            },
            None => None,
        },
        None => None,
    }
}

pub proof fn lemma_enc_entries_app(a: Seq<(Seq<u8>, Seq<u8>)>, b: Seq<(Seq<u8>, Seq<u8>)>)
    ensures
        enc_entries(a + b) == enc_entries(a) + enc_entries(b),
    decreases a.len(),
{
    if a.len() == 0 {
        assert(a + b =~= b);
        assert(enc_entries(a) + enc_entries(b) =~= enc_entries(b));
    } else {
        assert((a + b).skip(1) =~= a.skip(1) + b);
        lemma_enc_entries_app(a.skip(1), b);
        assert(enc_entries(a + b) =~= enc_entries(a) + enc_entries(b));
    }
}

pub proof fn lemma_enc_entries_snoc(es: Seq<(Seq<u8>, Seq<u8>)>, i: int)
    requires
        0 <= i < es.len(),
    ensures
        enc_entries(es.take(i + 1)) == enc_entries(es.take(i)) + enc_entry(es[i]),
{
    let single = seq![es[i]];
    assert(es.take(i + 1) =~= es.take(i) + single);
    lemma_enc_entries_app(es.take(i), single);
    assert(single.skip(1) =~= Seq::<(Seq<u8>, Seq<u8>)>::empty());
    assert(enc_entries(Seq::<(Seq<u8>, Seq<u8>)>::empty()) == Seq::<u8>::empty());
    assert(enc_entries(single) == enc_entry(single[0]) + enc_entries(single.skip(1)));
    assert(enc_entries(single) =~= enc_entry(es[i]));
}

pub proof fn lemma_parse_entries_split(s: Seq<u8>, a: nat, b: nat)
    ensures
        parse_entries(s, a + b) == (match parse_entries(s, a) {
            Some(r1) => (match parse_entries(r1.1, b) {
                Some(r2) => Some::<(Seq<(Seq<u8>, Seq<u8>)>, Seq<u8>)>((r1.0 + r2.0, r2.1)),
                None => None,
            }),
            None => None,
        }),
    decreases a,
{
    if a == 0 {
        match parse_entries(s, b) {
            Some(r2) => {
                assert(Seq::<(Seq<u8>, Seq<u8>)>::empty() + r2.0 =~= r2.0);
            },
            None => {
            },
        }
    } else {
        match parse_bytes(s) {
            Some((k, r1)) => {
                match parse_bytes(r1) {
                    Some((v, r2)) => {
                        lemma_parse_entries_split(r2, (a - 1) as nat, b);
                        match parse_entries(r2, (a - 1) as nat) {
                            Some(rr1) => {
                                match parse_entries(rr1.1, b) {
                                    Some(rr2) => {
                                        assert(seq![(k, v)] + (rr1.0 + rr2.0) =~= (seq![(k, v)]
                                            + rr1.0) + rr2.0);
                                    },
                                    None => {
                                    },
                                }
                            },
                            None => {
                            },
                        }
                    },
                    None => {
                    },
                }
            },
            None => {
            },
        }
    }
}

pub proof fn lemma_parse_enc_entries(es: Seq<(Seq<u8>, Seq<u8>)>, rest: Seq<u8>)
    requires
        forall|i: int|
            0 <= i < es.len() ==> (#[trigger] es[i]).0.len() <= u32::MAX && es[i].1.len()
                <= u32::MAX,
    ensures
        parse_entries(enc_entries(es) + rest, es.len()) == Some((es, rest)),
    decreases es.len(),
{
    if es.len() == 0 {
        assert(enc_entries(es) + rest =~= rest);
    } else {
        let s = enc_entries(es) + rest;
        let k = es[0].0;
        let v = es[0].1;
        let tail = enc_entries(es.skip(1)) + rest;
        assert(s =~= enc_bytes(k) + (enc_bytes(v) + tail));
        lemma_parse_enc_bytes(k, enc_bytes(v) + tail);
        lemma_parse_enc_bytes(v, tail);
        lemma_parse_enc_entries(es.skip(1), rest);
        assert(es[0] =~= (k, v));
        assert(seq![(k, v)] + es.skip(1) =~= es);
    }
}

/// Decoding a serialized table yields exactly the entries written.
pub proof fn lemma_table_round_trip(es: Seq<(Seq<u8>, Seq<u8>)>)
    requires
        entries_encodable(es),
    ensures
        spec_decode_table(spec_encode_table(es)) == Some(es),
{
    let b = spec_encode_table(es);
    lemma_auto_spec_u32_to_from_le_bytes();
    assert(b.subrange(0, 4) =~= spec_u32_to_le_bytes(es.len() as u32));
    assert(b.skip(4) =~= enc_entries(es) + Seq::<u8>::empty());
    lemma_parse_enc_entries(es, Seq::<u8>::empty());
}

// ------------------------------------------------------------------
// Executable table codec.
// ------------------------------------------------------------------
/// Serialize a table's entries. Returns `None` only when a count or a
/// length does not fit its 32-bit prefix.
pub fn encode_table(es: &Vec<(Vec<u8>, Vec<u8>)>) -> (r: Option<Vec<u8>>)
    ensures
        match r {
            Some(v) => entries_encodable(view_entries(es@)) && v@ == spec_encode_table(
                view_entries(es@),
            ),
            None => !entries_encodable(view_entries(es@)),
        },
{
    let ghost ev = view_entries(es@);
    if es.len() as u64 > u32::MAX as u64 {
        return None;
    }
    let mut i: usize = 0;
    while i < es.len()
        invariant
            i <= es.len(),
            ev == view_entries(es@),
            forall|j: int|
                0 <= j < i ==> (#[trigger] ev[j]).0.len() <= u32::MAX && ev[j].1.len() <= u32::MAX,
        decreases es.len() - i,
    {
        assert(ev[i as int] == (es@[i as int].0@, es@[i as int].1@));
        if es[i].0.len() as u64 > u32::MAX as u64 || es[i].1.len() as u64 > u32::MAX as u64 {
            assert(!entries_encodable(ev));
            return None;
        }
        i += 1;
    }
    assert(entries_encodable(ev));
    let n: u32 = es.len() as u32;
    let mut out = u32_to_le_bytes(n);
    assert(out@ == enc_len(ev.len()));
    let mut k: usize = 0;
    while k < es.len()
        invariant
            k <= es.len(),
            entries_encodable(ev),
            ev == view_entries(es@),
            out@ == enc_len(ev.len()) + enc_entries(ev.take(k as int)),
        decreases es.len() - k,
    {
        assert(ev[k as int] == (es@[k as int].0@, es@[k as int].1@));
        push_bytes_field(&mut out, &es[k].0);
        push_bytes_field(&mut out, &es[k].1);
        proof {
            lemma_enc_entries_snoc(ev, k as int);
            assert(out@ =~= enc_len(ev.len()) + enc_entries(ev.take(k + 1)));
        }
        k += 1;
    }
    proof {
        assert(ev.take(es.len() as int) =~= ev);
    }
    Some(out)
}

/// Parse a serialized table. Returns `None` exactly when the bytes are
/// not a table image.
pub fn decode_table(b: &Vec<u8>) -> (r: Option<Vec<(Vec<u8>, Vec<u8>)>>)
    ensures
        match r {
            Some(es) => spec_decode_table(b@) == Some(view_entries(es@)),
            None => spec_decode_table(b@) is None,
        },
{
    proof {
        assert(b@.skip(0) =~= b@);
    }
    if b.len() < 4 {
        return None;
    }
    let n = u32_from_le_bytes(vstd::slice::slice_subrange(b.as_slice(), 0, 4));
    proof {
        assert(b@.subrange(0, 4) =~= b@.skip(0).subrange(0, 4));
    }
    let ghost r0 = b@.skip(4);
    assert(parse_len(b@) == Some((n, r0)));
    let mut es: Vec<(Vec<u8>, Vec<u8>)> = Vec::new();
    let mut i: usize = 4;
    let mut k: u32 = 0;
    while k < n
        invariant
            4 <= i <= b@.len(),
            k <= n,
            r0 == b@.skip(4),
            parse_len(b@) == Some((n, r0)),
            parse_entries(r0, k as nat) == Some((view_entries(es@), b@.skip(i as int))),
        decreases n - k,
    {
        let ghost cur = b@.skip(i as int);
        let ghost pre = view_entries(es@);
        let (key, i1) = match read_bytes_field(b, i) {
            Some(p) => p,
            None => {
                proof {
                    lemma_parse_entries_fail(r0, k as nat, n as nat, cur);
                }
                return None;
            },
        };
        let (val, i2) = match read_bytes_field(b, i1) {
            Some(p) => p,
            None => {
                proof {
                    lemma_parse_entries_fail(r0, k as nat, n as nat, cur);
                }
                return None;
            },
        };
        es.push((key, val));
        i = i2;
        proof {
            lemma_parse_entries_split(r0, k as nat, 1);
            assert(parse_entries(cur, 1) == Some(
                (seq![(key@, val@)], b@.skip(i2 as int)),
            )) by {
                assert(parse_entries(b@.skip(i2 as int), 0) == Some(
                    (Seq::<(Seq<u8>, Seq<u8>)>::empty(), b@.skip(i2 as int)),
                ));
                assert(seq![(key@, val@)] + Seq::<(Seq<u8>, Seq<u8>)>::empty() =~= seq![
                    (key@, val@),
                ]);
            }
            assert(view_entries(es@) =~= pre + seq![(key@, val@)]);
        }
        k += 1;
    }
    if i != b.len() {
        assert(b@.skip(i as int).len() != 0);
        return None;
    }
    assert(b@.skip(i as int).len() == 0);
    Some(es)
}

/// If one more entry cannot be parsed after `k` good ones, no count
/// `n > k` parses.
proof fn lemma_parse_entries_fail(r0: Seq<u8>, k: nat, n: nat, cur: Seq<u8>)
    requires
        k < n,
        parse_entries(r0, k) matches Some(p) && p.1 == cur,
        match parse_bytes(cur) {
            Some(kv) => parse_bytes(kv.1) is None,
            None => true,
        },
    ensures
        parse_entries(r0, n) is None,
{
    assert(parse_entries(cur, 1) is None);
    lemma_parse_entries_split(r0, k, (n - k) as nat);
    lemma_parse_entries_split(cur, 1, (n - k - 1) as nat);
    assert(1 + (n - k - 1) as nat == (n - k) as nat);
}

} // verus!
