//! The ordered byte-keyed store: a sorted map from byte-sequence keys
//! to byte-sequence values, with declared maximum key and value sizes,
//! made durable by serialization into a virtual region at the upgrade
//! boundary.
//! Iteration order is the byte-lexicographic order of the keys, and
//! `offset`/`limit` pagination is proved to walk the whole table without
//! gaps or duplicates.
use vstd::prelude::*;
use vstd::seq_lib::*;

verus! {

pub type Entry = (Vec<u8>, Vec<u8>);

pub type EntryV = (Seq<u8>, Seq<u8>);

/// Byte-lexicographic strict order on keys.
pub open spec fn lex_lt(a: Seq<u8>, b: Seq<u8>) -> bool
    decreases a.len(),
{
    if b.len() == 0 {
        false
    } else if a.len() == 0 {
        true
    } else if a[0] < b[0] {
        true
    } else if a[0] > b[0] {
        false
    } else {
        lex_lt(a.skip(1), b.skip(1))
    }
}

pub proof fn lemma_lex_irrefl(a: Seq<u8>)
    ensures
        !lex_lt(a, a),
    decreases a.len(),
{
    if a.len() > 0 {
        lemma_lex_irrefl(a.skip(1));
    }
}

pub proof fn lemma_lex_total(a: Seq<u8>, b: Seq<u8>)
    ensures
        a == b || lex_lt(a, b) || lex_lt(b, a),
    decreases a.len(),
{
    if a.len() > 0 && b.len() > 0 && a[0] == b[0] {
        lemma_lex_total(a.skip(1), b.skip(1));
        if a.skip(1) == b.skip(1) {
            assert forall|i: int| 0 <= i < a.len() implies a[i] == b[i] by {
                if i > 0 {
                    assert(a.skip(1)[i - 1] == b.skip(1)[i - 1]);
                }
            }
            assert(a =~= b);
        }
    }
}

pub proof fn lemma_lex_asym(a: Seq<u8>, b: Seq<u8>)
    requires
        lex_lt(a, b),
    ensures
        !lex_lt(b, a),
        a != b,
    decreases a.len(),
{
    lemma_lex_irrefl(a);
    if a.len() > 0 && b.len() > 0 && a[0] == b[0] {
        lemma_lex_asym(a.skip(1), b.skip(1));
        assert(a != b) by {
            if a == b {
                assert(a.skip(1) =~= b.skip(1));
            }
        }
    }
}

pub proof fn lemma_lex_trans(a: Seq<u8>, b: Seq<u8>, c: Seq<u8>)
    requires
        lex_lt(a, b),
        lex_lt(b, c),
    ensures
        lex_lt(a, c),
    decreases a.len(),
{
    if c.len() == 0 {
    } else if b.len() == 0 {
    } else if a.len() == 0 {
    } else {
        if a[0] == b[0] && b[0] == c[0] {
            lemma_lex_trans(a.skip(1), b.skip(1), c.skip(1));
        }
    }
}

/// Keys strictly increasing: sorted, and therefore free of duplicates.
pub open spec fn sorted(es: Seq<EntryV>) -> bool {
    forall|i: int, j: int|
        0 <= i < j < es.len() ==> lex_lt((#[trigger] es[i]).0, (#[trigger] es[j]).0)
}

/// Every key and value within the given size budgets.
pub open spec fn entries_bounded(es: Seq<EntryV>, mk: nat, mv: nat) -> bool {
    forall|i: int| 0 <= i < es.len() ==> (#[trigger] es[i]).0.len() <= mk && es[i].1.len() <= mv
}

/// Point lookup: the value at the first occurrence of `k`.
pub open spec fn spec_get(es: Seq<EntryV>, k: Seq<u8>) -> Option<Seq<u8>>
    decreases es.len(),
{
    if es.len() == 0 {
        None
    } else if es[0].0 == k {
        Some(es[0].1)
    } else {
        spec_get(es.skip(1), k)
    }
}

pub open spec fn has_key(es: Seq<EntryV>, k: Seq<u8>) -> bool {
    spec_get(es, k) is Some
}

/// Insertion into a sorted entry sequence, overwriting an equal key.
pub open spec fn spec_insert(es: Seq<EntryV>, k: Seq<u8>, v: Seq<u8>) -> Seq<EntryV>
    decreases es.len(),
{
    if es.len() == 0 {
        seq![(k, v)]
    } else if lex_lt(k, es[0].0) {
        seq![(k, v)] + es
    } else if k == es[0].0 {
        seq![(k, v)] + es.skip(1)
    } else {
        seq![es[0]] + spec_insert(es.skip(1), k, v)
    }
}

/// Removal of the entry with key `k`, if any.
pub open spec fn spec_remove(es: Seq<EntryV>, k: Seq<u8>) -> Seq<EntryV>
    decreases es.len(),
{
    if es.len() == 0 {
        es
    } else if es[0].0 == k {
        es.skip(1)
    } else {
        seq![es[0]] + spec_remove(es.skip(1), k)
    }
}

/// Each entry of an insertion result is the new pair or one of the old
/// entries.
pub proof fn lemma_insert_entries_from(es: Seq<EntryV>, k: Seq<u8>, v: Seq<u8>)
    ensures
        forall|j: int|
            0 <= j < spec_insert(es, k, v).len() ==> (#[trigger] spec_insert(es, k, v)[j]) == (
            k,
            v,
            ) || exists|i: int| 0 <= i < es.len() && spec_insert(es, k, v)[j] == es[i],
    decreases es.len(),
{
    let r = spec_insert(es, k, v);
    if es.len() == 0 {
    } else if lex_lt(k, es[0].0) {
        assert forall|j: int| 0 <= j < r.len() implies (#[trigger] r[j]) == (k, v) || exists|i: int|
            0 <= i < es.len() && r[j] == es[i] by {
            if j > 0 {
                assert(r[j] == es[j - 1]);
            }
        }
    } else if k == es[0].0 {
        assert forall|j: int| 0 <= j < r.len() implies (#[trigger] r[j]) == (k, v) || exists|i: int|
            0 <= i < es.len() && r[j] == es[i] by {
            if j > 0 {
                assert(r[j] == es[j]);
            }
        }
    } else {
        lemma_insert_entries_from(es.skip(1), k, v);
        let rt = spec_insert(es.skip(1), k, v);
        assert forall|j: int| 0 <= j < r.len() implies (#[trigger] r[j]) == (k, v) || exists|i: int|
            0 <= i < es.len() && r[j] == es[i] by {
            if j == 0 {
                assert(r[0] == es[0]);
            } else {
                assert(r[j] == rt[j - 1]);
                if rt[j - 1] == (k, v) {
                } else {
                    let i0 = choose|i0: int| 0 <= i0 < es.skip(1).len() && rt[j - 1] == es.skip(
                        1,
                    )[i0];
                    assert(es.skip(1)[i0] == es[i0 + 1]);
                }
            }
        }
    }
}

/// Each entry of a removal result is one of the old entries.
pub proof fn lemma_remove_entries_from(es: Seq<EntryV>, k: Seq<u8>)
    ensures
        forall|j: int|
            0 <= j < spec_remove(es, k).len() ==> exists|i: int|
                0 <= i < es.len() && (#[trigger] spec_remove(es, k)[j]) == es[i],
    decreases es.len(),
{
    let r = spec_remove(es, k);
    if es.len() == 0 {
    } else if es[0].0 == k {
        assert forall|j: int| 0 <= j < r.len() implies exists|i: int|
            0 <= i < es.len() && (#[trigger] r[j]) == es[i] by {
            assert(r[j] == es[j + 1]);
        }
    } else {
        lemma_remove_entries_from(es.skip(1), k);
        let rt = spec_remove(es.skip(1), k);
        assert forall|j: int| 0 <= j < r.len() implies exists|i: int|
            0 <= i < es.len() && (#[trigger] r[j]) == es[i] by {
            if j == 0 {
                assert(r[0] == es[0]);
            } else {
                assert(r[j] == rt[j - 1]);
                let i0 = choose|i0: int| 0 <= i0 < es.skip(1).len() && rt[j - 1] == es.skip(1)[i0];
                assert(es.skip(1)[i0] == es[i0 + 1]);
            }
        }
    }
}

/// A lower bound below every old key and below the new key bounds every
/// key of the insertion result.
proof fn lemma_insert_lower(es: Seq<EntryV>, k: Seq<u8>, v: Seq<u8>, lo: Seq<u8>)
    requires
        forall|i: int| 0 <= i < es.len() ==> lex_lt(lo, (#[trigger] es[i]).0),
        lex_lt(lo, k),
    ensures
        forall|j: int|
            0 <= j < spec_insert(es, k, v).len() ==> lex_lt(
                lo,
                (#[trigger] spec_insert(es, k, v)[j]).0,
            ),
{
    lemma_insert_entries_from(es, k, v);
}

/// Insertion keeps the keys sorted.
pub proof fn lemma_insert_sorted(es: Seq<EntryV>, k: Seq<u8>, v: Seq<u8>)
    requires
        sorted(es),
    ensures
        sorted(spec_insert(es, k, v)),
    decreases es.len(),
{
    let r = spec_insert(es, k, v);
    if es.len() == 0 {
    } else if lex_lt(k, es[0].0) {
        assert forall|i: int, j: int| 0 <= i < j < r.len() implies lex_lt(
            (#[trigger] r[i]).0,
            (#[trigger] r[j]).0,
        ) by {
            if i == 0 {
                if j == 1 {
                } else {
                    lemma_lex_trans(k, es[0].0, es[j - 1].0);
                }
            } else {
                assert(r[i] == es[i - 1] && r[j] == es[j - 1]);
            }
        }
    } else if k == es[0].0 {
        assert forall|i: int, j: int| 0 <= i < j < r.len() implies lex_lt(
            (#[trigger] r[i]).0,
            (#[trigger] r[j]).0,
        ) by {
            if i == 0 {
                assert(r[j] == es[j]);
            } else {
                assert(r[i] == es[i] && r[j] == es[j]);
            }
        }
    } else {
        lemma_lex_total(k, es[0].0);
        assert(lex_lt(es[0].0, k));
        assert(sorted(es.skip(1))) by {
            assert(forall|i: int|
                0 <= i < es.skip(1).len() ==> (#[trigger] es.skip(1)[i]) == es[i + 1]);
        }
        lemma_insert_sorted(es.skip(1), k, v);
        let rt = spec_insert(es.skip(1), k, v);
        assert(forall|i: int|
            0 <= i < es.skip(1).len() ==> lex_lt(es[0].0, (#[trigger] es.skip(1)[i]).0));
        lemma_insert_lower(es.skip(1), k, v, es[0].0);
        assert forall|i: int, j: int| 0 <= i < j < r.len() implies lex_lt(
            (#[trigger] r[i]).0,
            (#[trigger] r[j]).0,
        ) by {
            if i == 0 {
                assert(r[j] == rt[j - 1]);
            } else {
                assert(r[i] == rt[i - 1] && r[j] == rt[j - 1]);
            }
        }
    }
}

/// Removal keeps the keys sorted.
pub proof fn lemma_remove_sorted(es: Seq<EntryV>, k: Seq<u8>)
    requires
        sorted(es),
    ensures
        sorted(spec_remove(es, k)),
    decreases es.len(),
{
    let r = spec_remove(es, k);
    if es.len() == 0 {
    } else if es[0].0 == k {
        assert forall|i: int, j: int| 0 <= i < j < r.len() implies lex_lt(
            (#[trigger] r[i]).0,
            (#[trigger] r[j]).0,
        ) by {
            assert(r[i] == es[i + 1] && r[j] == es[j + 1]);
        }
    } else {
        assert(sorted(es.skip(1))) by {
            assert(forall|i: int|
                0 <= i < es.skip(1).len() ==> (#[trigger] es.skip(1)[i]) == es[i + 1]);
        }
        lemma_remove_sorted(es.skip(1), k);
        lemma_remove_entries_from(es.skip(1), k);
        let rt = spec_remove(es.skip(1), k);
        assert forall|i: int, j: int| 0 <= i < j < r.len() implies lex_lt(
            (#[trigger] r[i]).0,
            (#[trigger] r[j]).0,
        ) by {
            if i == 0 {
                assert(r[j] == rt[j - 1]);
                let i0 = choose|i0: int| 0 <= i0 < es.skip(1).len() && rt[j - 1] == es.skip(1)[i0];
                assert(es.skip(1)[i0] == es[i0 + 1]);
            } else {
                assert(r[i] == rt[i - 1] && r[j] == rt[j - 1]);
            }
        }
    }
}

/// What a lookup finds after an insertion.
pub proof fn lemma_get_insert(es: Seq<EntryV>, k: Seq<u8>, v: Seq<u8>, k2: Seq<u8>)
    ensures
        spec_get(spec_insert(es, k, v), k2) == if k2 == k {
            Some(v)
        } else {
            spec_get(es, k2)
        },
    decreases es.len(),
{
    let r = spec_insert(es, k, v);
    if es.len() == 0 {
        assert(r.skip(1) =~= es);
    } else if lex_lt(k, es[0].0) {
        assert(r.skip(1) =~= es);
    } else if k == es[0].0 {
        assert(r.skip(1) =~= es.skip(1));
        if k2 != k {
            assert(spec_get(es, k2) == spec_get(es.skip(1), k2));
        }
    } else {
        lemma_lex_irrefl(k);
        assert(r[0] == es[0]);
        assert(r.skip(1) =~= spec_insert(es.skip(1), k, v));
        lemma_get_insert(es.skip(1), k, v, k2);
    }
}

/// What a lookup finds after a removal, given sorted keys.
pub proof fn lemma_get_remove(es: Seq<EntryV>, k: Seq<u8>, k2: Seq<u8>)
    requires
        sorted(es),
    ensures
        spec_get(spec_remove(es, k), k2) == if k2 == k {
            None::<Seq<u8>>
        } else {
            spec_get(es, k2)
        },
    decreases es.len(),
{
    let r = spec_remove(es, k);
    if es.len() == 0 {
    } else if es[0].0 == k {
        assert(r =~= es.skip(1));
        if k2 == k {
            assert forall|i: int| 0 <= i < es.skip(1).len() implies (#[trigger] es.skip(1)[i]).0
                != k by {
                assert(es.skip(1)[i] == es[i + 1]);
                assert(lex_lt(es[0].0, es[i + 1].0));
                lemma_lex_asym(es[0].0, es[i + 1].0);
            }
            lemma_get_none(es.skip(1), k);
        }
    } else {
        assert(sorted(es.skip(1))) by {
            assert(forall|i: int|
                0 <= i < es.skip(1).len() ==> (#[trigger] es.skip(1)[i]) == es[i + 1]);
        }
        lemma_get_remove(es.skip(1), k, k2);
        assert(r[0] == es[0]);
        assert(r.skip(1) =~= spec_remove(es.skip(1), k));
    }
}

/// A found value is the value of some entry with that key.
pub proof fn lemma_get_values_from(es: Seq<EntryV>, k: Seq<u8>)
    ensures
        spec_get(es, k) is Some ==> exists|i: int|
            0 <= i < es.len() && (#[trigger] es[i]).0 == k && es[i].1 == spec_get(es, k).unwrap(),
    decreases es.len(),
{
    if es.len() > 0 && es[0].0 != k {
        lemma_get_values_from(es.skip(1), k);
        if spec_get(es, k) is Some {
            let i = choose|i: int|
                0 <= i < es.skip(1).len() && (#[trigger] es.skip(1)[i]).0 == k && es.skip(1)[i].1
                    == spec_get(es.skip(1), k).unwrap();
            assert(es[i + 1] == es.skip(1)[i]);
        }
    }
}

/// A key under no entry is not found.
pub proof fn lemma_get_none(es: Seq<EntryV>, k: Seq<u8>)
    requires
        forall|i: int| 0 <= i < es.len() ==> (#[trigger] es[i]).0 != k,
    ensures
        spec_get(es, k) is None,
    decreases es.len(),
{
    if es.len() > 0 {
        assert(forall|i: int|
            0 <= i < es.skip(1).len() ==> (#[trigger] es.skip(1)[i]) == es[i + 1]);
        lemma_get_none(es.skip(1), k);
    }
}

/// Inserting the same key and value twice is the same as inserting once.
/// This is the idempotence of `authorize` at the level of the stored
/// table.
pub proof fn lemma_insert_idempotent(es: Seq<EntryV>, k: Seq<u8>, v: Seq<u8>)
    ensures
        spec_insert(spec_insert(es, k, v), k, v) == spec_insert(es, k, v),
    decreases es.len(),
{
    let r = spec_insert(es, k, v);
    lemma_lex_irrefl(k);
    if es.len() == 0 {
        assert(spec_insert(r, k, v) =~= r);
    } else if lex_lt(k, es[0].0) {
        assert(r[0] == (k, v));
        assert(spec_insert(r, k, v) =~= seq![(k, v)] + r.skip(1));
        assert(r.skip(1) =~= es);
        assert(spec_insert(r, k, v) =~= r);
    } else if k == es[0].0 {
        assert(r[0] == (k, v));
        assert(spec_insert(r, k, v) =~= seq![(k, v)] + r.skip(1));
        assert(r.skip(1) =~= es.skip(1));
        assert(spec_insert(r, k, v) =~= r);
    } else {
        lemma_insert_idempotent(es.skip(1), k, v);
        assert(r[0] == es[0]);
        assert(r.skip(1) =~= spec_insert(es.skip(1), k, v));
        assert(spec_insert(r, k, v) =~= seq![es[0]] + spec_insert(r.skip(1), k, v));
        assert(spec_insert(r, k, v) =~= r);
    }
}

// ------------------------------------------------------------------
// Executable comparison.
// ------------------------------------------------------------------
pub enum KeyOrder {
    Less,
    Equal,
    Greater,
}

proof fn lemma_skip_one(s: Seq<u8>, i: int)
    requires
        0 <= i < s.len(),
    ensures
        s.skip(i).skip(1) == s.skip(i + 1),
        s.skip(i).len() == s.len() - i,
        s.skip(i)[0] == s[i],
{
    assert(s.skip(i).skip(1) =~= s.skip(i + 1));
}

/// Three-way byte-lexicographic comparison.
pub fn lex_cmp(a: &Vec<u8>, b: &Vec<u8>) -> (r: KeyOrder)
    ensures
        (r is Less) == lex_lt(a@, b@),
        (r is Greater) == lex_lt(b@, a@),
        (r is Equal) == (a@ == b@),
{
    let mut i: usize = 0;
    proof {
        assert(a@.skip(0) =~= a@);
        assert(b@.skip(0) =~= b@);
    }
    while i < a.len() && i < b.len()
        invariant
            i <= a@.len(),
            i <= b@.len(),
            lex_lt(a@, b@) == lex_lt(a@.skip(i as int), b@.skip(i as int)),
            lex_lt(b@, a@) == lex_lt(b@.skip(i as int), a@.skip(i as int)),
            (a@ == b@) == (a@.skip(i as int) == b@.skip(i as int)),
        decreases a@.len() - i,
    {
        let ca = a[i];
        let cb = b[i];
        proof {
            lemma_skip_one(a@, i as int);
            lemma_skip_one(b@, i as int);
        }
        if ca < cb {
            return KeyOrder::Less;
        } else if cb < ca {
            return KeyOrder::Greater;
        }
        proof {
            let sa = a@.skip(i as int);
            let sb = b@.skip(i as int);
            assert(sa[0] == ca && sb[0] == cb);
            assert((sa == sb) == (sa.skip(1) == sb.skip(1))) by {
                if sa.skip(1) == sb.skip(1) {
                    assert(sa.len() == sa.skip(1).len() + 1);
                    assert(sb.len() == sb.skip(1).len() + 1);
                    assert forall|j: int| 0 <= j < sa.len() implies sa[j] == sb[j] by {
                        if j > 0 {
                            assert(sa.skip(1)[j - 1] == sb.skip(1)[j - 1]);
                        }
                    }
                    assert(sa =~= sb);
                }
            }
        }
        i += 1;
    }
    proof {
        if a@.len() == b@.len() {
            assert(a@.skip(i as int) =~= b@.skip(i as int));
        } else {
            assert(a@.skip(i as int).len() != b@.skip(i as int).len());
        }
    }
    if a.len() == b.len() {
        KeyOrder::Equal
    } else if a.len() < b.len() {
        KeyOrder::Less
    } else {
        KeyOrder::Greater
    }
}

// ------------------------------------------------------------------
// The store itself.
// ------------------------------------------------------------------
/// An ordered map from byte keys to byte values, kept sorted by
/// byte-lexicographic key order, with fixed size budgets for keys and
/// values. It lives in ordinary memory; durability comes from the
/// upgrade coordinator, which checkpoints it into a virtual region.
pub struct ByteStore {
    pub max_key_size: u32,
    pub max_value_size: u32,
    pub entries: Vec<Entry>,
}

impl View for ByteStore {
    type V = Seq<EntryV>;

    open spec fn view(&self) -> Seq<EntryV> {
        crate::codec::view_entries(self.entries@)
    }
}

impl ByteStore {
    /// Sorted, within budgets: the store's invariant.
    pub open spec fn wf(&self) -> bool {
        &&& sorted(self@)
        &&& entries_bounded(self@, self.max_key_size as nat, self.max_value_size as nat)
    }

    pub fn new(max_key_size: u32, max_value_size: u32) -> (s: ByteStore)
        ensures
            s.wf(),
            s@ == Seq::<EntryV>::empty(),
            s.max_key_size == max_key_size,
            s.max_value_size == max_value_size,
    {
        let s = ByteStore { max_key_size, max_value_size, entries: Vec::new() };
        proof {
            assert(s@ =~= Seq::<EntryV>::empty());
        }
        s
    }

    pub fn len(&self) -> (r: usize)
        ensures
            r == self@.len(),
    {
        self.entries.len()
    }

    proof fn lemma_entry_views(&self)
        ensures
            self@.len() == self.entries@.len(),
            forall|i: int|
                0 <= i < self@.len() ==> (#[trigger] self@[i]) == (
                    self.entries@[i].0@,
                    self.entries@[i].1@,
                ),
    {
    }

    /// Point lookup; no side effects.
    pub fn get(&self, key: &Vec<u8>) -> (r: Option<Vec<u8>>)
        ensures
            crate::codec::view_opt_bytes(r) == spec_get(self@, key@),
    {
        let ghost es = self@;
        let mut i: usize = 0;
        proof {
            assert(es.skip(0) =~= es);
            self.lemma_entry_views();
        }
        while i < self.entries.len()
            invariant
                i <= es.len(),
                es == self@,
                es.len() == self.entries@.len(),
                spec_get(es, key@) == spec_get(es.skip(i as int), key@),
            decreases es.len() - i,
        {
            proof {
                self.lemma_entry_views();
                assert(es.skip(i as int)[0] == es[i as int]);
                assert(es.skip(i as int).skip(1) =~= es.skip(i + 1));
            }
            match lex_cmp(&self.entries[i].0, key) {
                KeyOrder::Equal => {
                    return Some(crate::codec::copy_bytes(&self.entries[i].1));
                },
                _ => {
                },
            }
            i += 1;
        }
        assert(es.skip(i as int).len() == 0);
        None
    }

    pub fn contains(&self, key: &Vec<u8>) -> (r: bool)
        ensures
            r == has_key(self@, key@),
    {
        match self.get(key) {
            Some(_) => true,
            None => false,
        }
    }

    /// Create or overwrite one key; returns the previous value, if any.
    pub fn insert(&mut self, key: Vec<u8>, value: Vec<u8>) -> (r: Option<Vec<u8>>)
        requires
            old(self).wf(),
            key@.len() <= old(self).max_key_size,
            value@.len() <= old(self).max_value_size,
        ensures
            final(self).wf(),
            final(self)@ == spec_insert(old(self)@, key@, value@),
            crate::codec::view_opt_bytes(r) == spec_get(old(self)@, key@),
            final(self).max_key_size == old(self).max_key_size,
            final(self).max_value_size == old(self).max_value_size,
    {
        let ghost es = old(self)@;
        let mut i: usize = 0;
        let mut found_ge = false;
        let mut is_eq = false;
        proof {
            assert(es.skip(0) =~= es);
        }
        while i < self.entries.len() && !found_ge
            invariant
                i <= es.len(),
                *self == *old(self),
                es == old(self)@,
                old(self).wf(),
                es.len() == self.entries@.len(),
                key@.len() <= old(self).max_key_size,
                value@.len() <= old(self).max_value_size,
                forall|j: int| 0 <= j < i ==> lex_lt((#[trigger] es[j]).0, key@),
                spec_get(es, key@) == spec_get(es.skip(i as int), key@),
                !found_ge ==> !is_eq,
                found_ge ==> i < es.len() && !lex_lt(es[i as int].0, key@) && is_eq == (es[
                    i as int].0 == key@),
            decreases es.len() - i + (if found_ge {
                0int
            } else {
                1int
            }),
        {
            proof {
                self.lemma_entry_views();
                assert(es.skip(i as int)[0] == es[i as int]);
                assert(es.skip(i as int).skip(1) =~= es.skip(i + 1));
            }
            match lex_cmp(&self.entries[i].0, &key) {
                KeyOrder::Less => {
                    proof {
                        lemma_lex_asym(es[i as int].0, key@);
                    }
                    i += 1;
                },
                KeyOrder::Equal => {
                    found_ge = true;
                    is_eq = true;
                    proof {
                        lemma_lex_irrefl(key@);
                    }
                },
                KeyOrder::Greater => {
                    found_ge = true;
                    proof {
                        lemma_lex_asym(key@, es[i as int].0);
                    }
                },
            }
        }
        proof {
            self.lemma_entry_views();
        }
        if found_ge && is_eq {
            let old_pair = self.entries.remove(i);
            self.entries.insert(i, (key, value));
            proof {
                lemma_insert_at(es, key@, value@, i as int);
                assert(final(self)@ =~= es.take(i as int) + seq![(key@, value@)] + es.skip(i + 1));
                assert(spec_get(es, key@) == Some(old_pair.1@)) by {
                    assert(es.skip(i as int)[0] == es[i as int]);
                }
                lemma_insert_sorted(es, key@, value@);
                lemma_insert_entries_from(es, key@, value@);
            }
            Some(old_pair.1)
        } else {
            proof {
                if !found_ge {
                    assert(es.skip(i as int).len() == 0);
                } else {
                    lemma_lex_total(key@, es[i as int].0);
                    assert(lex_lt(key@, es[i as int].0));
                    assert(spec_get(es.skip(i as int), key@) is None) by {
                        assert forall|j: int| 0 <= j < es.skip(i as int).len() implies (
                        #[trigger] es.skip(i as int)[j]).0 != key@ by {
                            assert(es.skip(i as int)[j] == es[i + j]);
                            if j == 0 {
                                lemma_lex_asym(key@, es[i as int].0);
                            } else {
                                lemma_lex_trans(key@, es[i as int].0, es[i + j].0);
                                lemma_lex_asym(key@, es[i + j].0);
                            }
                        }
                        lemma_get_none(es.skip(i as int), key@);
                    }
                }
            }
            self.entries.insert(i, (key, value));
            proof {
                lemma_insert_at(es, key@, value@, i as int);
                assert(final(self)@ =~= es.take(i as int) + seq![(key@, value@)] + es.skip(
                    i as int,
                ));
                lemma_insert_sorted(es, key@, value@);
                lemma_insert_entries_from(es, key@, value@);
            }
            None
        }
    }

    /// Remove one key; returns the previous value, or `None` when absent
    /// (the store is then unchanged).
    pub fn remove(&mut self, key: &Vec<u8>) -> (r: Option<Vec<u8>>)
        requires
            old(self).wf(),
        ensures
            final(self).wf(),
            final(self)@ == spec_remove(old(self)@, key@),
            crate::codec::view_opt_bytes(r) == spec_get(old(self)@, key@),
            r is None ==> final(self)@ == old(self)@,
            final(self).max_key_size == old(self).max_key_size,
            final(self).max_value_size == old(self).max_value_size,
    {
        let ghost es = old(self)@;
        let mut i: usize = 0;
        proof {
            assert(es.skip(0) =~= es);
        }
        while i < self.entries.len()
            invariant
                i <= es.len(),
                *self == *old(self),
                es == old(self)@,
                old(self).wf(),
                es.len() == self.entries@.len(),
                forall|j: int| 0 <= j < i ==> (#[trigger] es[j]).0 != key@,
                spec_get(es, key@) == spec_get(es.skip(i as int), key@),
            decreases es.len() - i,
        {
            proof {
                self.lemma_entry_views();
                assert(es.skip(i as int)[0] == es[i as int]);
                assert(es.skip(i as int).skip(1) =~= es.skip(i + 1));
            }
            match lex_cmp(&self.entries[i].0, key) {
                KeyOrder::Equal => {
                    let old_pair = self.entries.remove(i);
                    proof {
                        lemma_remove_at(es, key@, i as int);
                        assert(final(self)@ =~= es.take(i as int) + es.skip(i + 1));
                        lemma_remove_sorted(es, key@);
                        lemma_remove_entries_from(es, key@);
                    }
                    return Some(old_pair.1);
                },
                _ => {
                },
            }
            i += 1;
        }
        proof {
            assert(es.skip(i as int).len() == 0);
            lemma_remove_absent(es, key@);
            assert(final(self)@ == es);
        }
        None
    }

    /// Paged iteration in key order: the entries from `offset`, at most
    /// `limit` of them.
    pub fn iterate(&self, offset: u32, limit: u32) -> (r: Vec<Entry>)
        ensures
            crate::codec::view_entries(r@) == spec_page_at(self@, offset as nat, limit as nat),
    {
        let ghost es = self@;
        let n = self.entries.len();
        let lo: usize = if (offset as u64) < (n as u64) {
            offset as usize
        } else {
            n
        };
        let sum: u64 = offset as u64 + limit as u64;
        let hi: usize = if sum < n as u64 {
            sum as usize
        } else {
            n
        };
        let mut out: Vec<Entry> = Vec::new();
        let mut i: usize = lo;
        proof {
            assert(crate::codec::view_entries(out@) =~= es.subrange(lo as int, lo as int));
        }
        while i < hi
            invariant
                lo <= i <= hi <= es.len(),
                es == self@,
                es.len() == self.entries@.len(),
                crate::codec::view_entries(out@) == es.subrange(lo as int, i as int),
            decreases hi - i,
        {
            proof {
                self.lemma_entry_views();
            }
            let ghost out0 = out@;
            let k = crate::codec::copy_bytes(&self.entries[i].0);
            let v = crate::codec::copy_bytes(&self.entries[i].1);
            out.push((k, v));
            proof {
                assert(k@ == es[i as int].0 && v@ == es[i as int].1);
                assert(crate::codec::view_entries(out0).len() == out0.len());
                assert(out0.len() == i - lo);
                assert forall|j: int|
                    0 <= j < out@.len() implies crate::codec::view_entries(out@)[j] == es.subrange(
                    lo as int,
                    i + 1,
                )[j] by {
                    if j < out0.len() {
                        assert(out@[j] == out0[j]);
                        assert(crate::codec::view_entries(out0)[j] == es.subrange(
                            lo as int,
                            i as int,
                        )[j]);
                        assert(es.subrange(lo as int, i as int)[j] == es[lo + j]);
                        assert(es.subrange(lo as int, i + 1)[j] == es[lo + j]);
                    } else {
                        assert(out@[j] == (k, v));
                        assert(crate::codec::view_entries(out@)[j] == (k@, v@));
                        assert((k@, v@) =~= es[i as int]);
                        assert(es.subrange(lo as int, i + 1)[j] == es[i as int]);
                    }
                }
                assert(crate::codec::view_entries(out@) =~= es.subrange(lo as int, i + 1));
            }
            i += 1;
        }
        proof {
            assert(crate::codec::view_entries(out@) =~= spec_page_at(
                es,
                offset as nat,
                limit as nat,
            ));
        }
        out
    }
}

/// The page of at most `limit` entries starting at `offset`.
pub open spec fn spec_page_at(es: Seq<EntryV>, offset: nat, limit: nat) -> Seq<EntryV> {
    let n = es.len() as int;
    let lo = if offset <= n {
        offset as int
    } else {
        n
    };
    let hi = if offset + limit <= n {
        (offset + limit) as int
    } else {
        n
    };
    es.subrange(lo, hi)
}

/// Where a position-scan stops, the sorted insertion happens.
proof fn lemma_insert_at(es: Seq<EntryV>, k: Seq<u8>, v: Seq<u8>, idx: int)
    requires
        sorted(es),
        0 <= idx <= es.len(),
        forall|j: int| 0 <= j < idx ==> lex_lt((#[trigger] es[j]).0, k),
        idx < es.len() ==> !lex_lt(es[idx].0, k),
    ensures
        idx < es.len() && es[idx].0 == k ==> spec_insert(es, k, v) == es.take(idx) + seq![(k, v)]
            + es.skip(idx + 1),
        !(idx < es.len() && es[idx].0 == k) ==> spec_insert(es, k, v) == es.take(idx) + seq![
            (k, v),
        ] + es.skip(idx),
    decreases idx,
{
    if idx == 0 {
        if es.len() == 0 {
            assert(spec_insert(es, k, v) =~= es.take(0) + seq![(k, v)] + es.skip(0));
        } else if es[0].0 == k {
            lemma_lex_irrefl(k);
            assert(spec_insert(es, k, v) =~= es.take(0) + seq![(k, v)] + es.skip(1));
        } else {
            lemma_lex_total(k, es[0].0);
            assert(lex_lt(k, es[0].0));
            assert(spec_insert(es, k, v) =~= es.take(0) + seq![(k, v)] + es.skip(0));
        }
    } else {
        assert(lex_lt(es[0].0, k));
        lemma_lex_asym(es[0].0, k);
        let tail = es.skip(1);
        assert(sorted(tail)) by {
            assert(forall|i: int| 0 <= i < tail.len() ==> (#[trigger] tail[i]) == es[i + 1]);
        }
        assert(forall|j: int| 0 <= j < idx - 1 ==> lex_lt((#[trigger] tail[j]).0, k)) by {
            assert(forall|j: int| 0 <= j < tail.len() ==> (#[trigger] tail[j]) == es[j + 1]);
        }
        assert(idx - 1 < tail.len() ==> !lex_lt(tail[idx - 1].0, k)) by {
            if idx - 1 < tail.len() {
                assert(tail[idx - 1] == es[idx]);
            }
        }
        lemma_insert_at(tail, k, v, idx - 1);
        assert(spec_insert(es, k, v) == seq![es[0]] + spec_insert(tail, k, v));
        if idx < es.len() && es[idx].0 == k {
            assert(tail[idx - 1] == es[idx]);
            assert(tail.take(idx - 1) =~= es.take(idx).skip(1));
            assert(seq![es[0]] + (tail.take(idx - 1) + seq![(k, v)] + tail.skip(idx)) =~= es.take(
                idx,
            ) + seq![(k, v)] + es.skip(idx + 1));
        } else {
            assert(seq![es[0]] + (tail.take(idx - 1) + seq![(k, v)] + tail.skip(idx - 1))
                =~= es.take(idx) + seq![(k, v)] + es.skip(idx));
        }
    }
}

/// Where the scan finds the key, the removal happens.
proof fn lemma_remove_at(es: Seq<EntryV>, k: Seq<u8>, idx: int)
    requires
        0 <= idx < es.len(),
        forall|j: int| 0 <= j < idx ==> (#[trigger] es[j]).0 != k,
        es[idx].0 == k,
    ensures
        spec_remove(es, k) == es.take(idx) + es.skip(idx + 1),
    decreases idx,
{
    if idx == 0 {
        assert(spec_remove(es, k) =~= es.take(0) + es.skip(1));
    } else {
        let tail = es.skip(1);
        assert(forall|j: int| 0 <= j < tail.len() ==> (#[trigger] tail[j]) == es[j + 1]);
        lemma_remove_at(tail, k, idx - 1);
        assert(spec_remove(es, k) == seq![es[0]] + spec_remove(tail, k));
        assert(seq![es[0]] + (tail.take(idx - 1) + tail.skip(idx)) =~= es.take(idx) + es.skip(
            idx + 1,
        ));
    }
}

/// Removing an absent key changes nothing.
pub proof fn lemma_remove_absent(es: Seq<EntryV>, k: Seq<u8>)
    requires
        forall|j: int| 0 <= j < es.len() ==> (#[trigger] es[j]).0 != k,
    ensures
        spec_remove(es, k) == es,
    decreases es.len(),
{
    if es.len() > 0 {
        let tail = es.skip(1);
        assert(forall|j: int| 0 <= j < tail.len() ==> (#[trigger] tail[j]) == es[j + 1]);
        lemma_remove_absent(tail, k);
        assert(seq![es[0]] + tail =~= es);
    }
}

/// Strict order between each pair of neighbours orders the whole
/// sequence.
pub proof fn lemma_adjacent_sorted(es: Seq<EntryV>)
    requires
        forall|j: int| 0 <= j && j + 1 < es.len() ==> lex_lt((#[trigger] es[j]).0, es[j + 1].0),
    ensures
        sorted(es),
{
    assert forall|i: int, j: int| 0 <= i < j < es.len() implies lex_lt(
        (#[trigger] es[i]).0,
        (#[trigger] es[j]).0,
    ) by {
        lemma_lex_chain(es, i, j);
    }
}

proof fn lemma_lex_chain(es: Seq<EntryV>, i: int, j: int)
    requires
        forall|k: int| 0 <= k && k + 1 < es.len() ==> lex_lt((#[trigger] es[k]).0, es[k + 1].0),
        0 <= i < j < es.len(),
    ensures
        lex_lt(es[i].0, es[j].0),
    decreases j - i,
{
    if j == i + 1 {
    } else {
        lemma_lex_chain(es, i, j - 1);
        lemma_lex_trans(es[i].0, es[j - 1].0, es[j].0);
    }
}

// ------------------------------------------------------------------
// The pagination law.
// ------------------------------------------------------------------
/// The concatenation of the first `k` pages of size `limit`.
pub open spec fn spec_pages_concat(es: Seq<EntryV>, limit: nat, k: nat) -> Seq<EntryV>
    decreases k,
{
    if k == 0 {
        Seq::<EntryV>::empty()
    } else {
        spec_pages_concat(es, limit, (k - 1) as nat) + spec_page_at(es, ((k - 1) * limit) as nat, limit)
    }
}

/// Paging through a table of `N` entries with a positive page size
/// `limit`, taking pages at offsets `0, limit, 2*limit, ...`, yields the
/// whole table — every entry exactly once, in byte-lexicographic key
/// order — as soon as `k * limit >= N` pages have been taken (so
/// `ceil(N / limit)` pages suffice).
pub proof fn lemma_pagination(es: Seq<EntryV>, limit: nat, k: nat)
    requires
        limit > 0,
    ensures
        k * limit >= es.len() ==> spec_pages_concat(es, limit, k) == es,
        spec_pages_concat(es, limit, k) == es.take(if k * limit <= es.len() {
            (k * limit) as int
        } else {
            es.len() as int
        }),
    decreases k,
{
    if k == 0 {
        assert(spec_pages_concat(es, limit, 0) =~= es.take(0));
        assert(k * limit == 0) by (nonlinear_arith)
            requires
                k == 0,
        ;
        if k * limit >= es.len() {
            assert(es.take(0) =~= es);
        }
    } else {
        let km1 = (k - 1) as nat;
        lemma_pagination(es, limit, km1);
        assert(km1 * limit + limit == k * limit) by (nonlinear_arith)
            requires
                k >= 1,
                km1 == (k - 1) as nat,
        ;
        let n = es.len() as int;
        let prev = if km1 * limit <= es.len() {
            (km1 * limit) as int
        } else {
            n
        };
        let cur = if k * limit <= es.len() {
            (k * limit) as int
        } else {
            n
        };
        assert(spec_pages_concat(es, limit, km1) == es.take(prev));
        let page = spec_page_at(es, (km1 * limit) as nat, limit);
        assert(page == es.subrange(prev, cur));
        assert(spec_pages_concat(es, limit, k) == spec_pages_concat(es, limit, km1) + page);
        assert(es.take(prev) + es.subrange(prev, cur) =~= es.take(cur));
        if k * limit >= es.len() {
            assert(es.take(cur) =~= es);
        }
    }
}

} // verus!
