use vstd::prelude::*;

use vstd::bytes::{
    lemma_auto_spec_u64_to_from_le_bytes, spec_u64_from_le_bytes, spec_u64_to_le_bytes,
    u64_from_le_bytes, u64_to_le_bytes,
};
use vstd::slice::{slice_subrange, slice_to_vec};
use vstd::string::StringSliceAdditionalSpecFns;
use vstd::utf8::{decode_utf8, encode_utf8, encode_utf8_decode_utf8, encode_utf8_valid_utf8, valid_utf8};

use crate::record::{Identity, Key, KeyV, Mode, Record, RecordV};
use crate::registry::{recs_view, OwnerEntry, OwnerEntryV, Registry, RegistryV};

verus! {

/// The schema version written at the head of every snapshot.
pub const SNAPSHOT_VERSION: u8 = 1;

// ---------------------------------------------------------------------------
// The snapshot wire format, as mathematical functions on byte sequences.
// Numbers are little-endian u64; strings are a length followed by their
// UTF-8 bytes; lists are a length followed by the items.
// ---------------------------------------------------------------------------

/// A u64, as eight little-endian bytes.
pub open spec fn enc_u64(x: u64) -> Seq<u8> {
    spec_u64_to_le_bytes(x)
}

/// A string: its UTF-8 byte length, then its UTF-8 bytes.
#[verifier::opaque]
pub open spec fn enc_str(s: Seq<char>) -> Seq<u8> {
    enc_u64(encode_utf8(s).len() as u64) + encode_utf8(s)
}

/// A key: a tag byte, then the number or the string.
#[verifier::opaque]
pub open spec fn enc_key(k: KeyV) -> Seq<u8> {
    match k {
        KeyV::Id(n) => seq![0u8] + enc_u64(n),
        KeyV::Hash(s) => seq![1u8] + enc_str(s),
    }
}

/// A metadata pair: key, then value.
pub open spec fn enc_pair(p: (Seq<char>, Seq<char>)) -> Seq<u8> {
    enc_str(p.0) + enc_str(p.1)
}

/// A metadata list, item by item (its length is written by the record).
pub open spec fn enc_meta(m: Seq<(Seq<char>, Seq<char>)>) -> Seq<u8>
    decreases m.len(),
{
    if m.len() == 0 {
        Seq::empty()
    } else {
        enc_pair(m[0]) + enc_meta(m.drop_first())
    }
}

/// A record: key, the three descriptive strings, the owner, then metadata.
#[verifier::opaque]
pub open spec fn enc_record(r: RecordV) -> Seq<u8> {
    enc_key(r.key) + enc_str(r.name) + enc_str(r.description) + enc_str(r.image_ref) + enc_str(
        r.owner,
    ) + enc_u64(r.metadata.len() as u64) + enc_meta(r.metadata)
}

/// The record store, record by record.
pub open spec fn enc_recs(rs: Seq<RecordV>) -> Seq<u8>
    decreases rs.len(),
{
    if rs.len() == 0 {
        Seq::empty()
    } else {
        enc_record(rs[0]) + enc_recs(rs.drop_first())
    }
}

/// A key list, key by key.
pub open spec fn enc_keys(ks: Seq<KeyV>) -> Seq<u8>
    decreases ks.len(),
{
    if ks.len() == 0 {
        Seq::empty()
    } else {
        enc_key(ks[0]) + enc_keys(ks.drop_first())
    }
}

/// An owner-index entry: the identity, then its keys.
#[verifier::opaque]
pub open spec fn enc_entry(e: OwnerEntryV) -> Seq<u8> {
    enc_str(e.owner) + enc_u64(e.keys.len() as u64) + enc_keys(e.keys)
}

/// The owner index, entry by entry.
pub open spec fn enc_entries(es: Seq<OwnerEntryV>) -> Seq<u8>
    decreases es.len(),
{
    if es.len() == 0 {
        Seq::empty()
    } else {
        enc_entry(es[0]) + enc_entries(es.drop_first())
    }
}

/// The minting mode, as one byte.
pub open spec fn enc_mode(m: Mode) -> Seq<u8> {
    match m {
        Mode::Sequential => seq![0u8],
        Mode::Hash => seq![1u8],
    }
}

/// A whole registry state: version, mode, the counter (sequential mode
/// only), the record store, then the owner index.
pub open spec fn enc(v: RegistryV) -> Seq<u8> {
    seq![SNAPSHOT_VERSION] + enc_mode(v.mode) + (if v.mode is Sequential {
        enc_u64(v.counter)
    } else {
        Seq::empty()
    }) + enc_u64(v.records.len() as u64) + enc_recs(v.records) + enc_u64(v.owners.len() as u64)
        + enc_entries(v.owners)
}

// ---------------------------------------------------------------------------
// Encodability: every length written in the format fits in a u64. Real
// in-memory values always satisfy this; it matters only for the
// round-trip statement over arbitrary mathematical values.
// ---------------------------------------------------------------------------

/// The string's UTF-8 length fits the format's length field.
pub open spec fn str_fits(s: Seq<char>) -> bool {
    encode_utf8(s).len() <= u64::MAX
}

/// The key's string, if any, fits.
pub open spec fn key_fits(k: KeyV) -> bool {
    match k {
        KeyV::Id(_) => true,
        KeyV::Hash(s) => str_fits(s),
    }
}

/// Both strings of a metadata pair fit.
pub open spec fn pair_fits(p: (Seq<char>, Seq<char>)) -> bool {
    str_fits(p.0) && str_fits(p.1)
}

/// Every field of the record fits.
pub open spec fn record_fits(r: RecordV) -> bool {
    &&& key_fits(r.key)
    &&& str_fits(r.name)
    &&& str_fits(r.description)
    &&& str_fits(r.image_ref)
    &&& str_fits(r.owner)
    &&& r.metadata.len() <= u64::MAX
    &&& forall|i: int| 0 <= i < r.metadata.len() ==> pair_fits(#[trigger] r.metadata[i])
}

/// Every field of the entry fits.
pub open spec fn entry_fits(e: OwnerEntryV) -> bool {
    &&& str_fits(e.owner)
    &&& e.keys.len() <= u64::MAX
    &&& forall|n: int| 0 <= n < e.keys.len() ==> key_fits(#[trigger] e.keys[n])
}

/// Every length in the state fits the format. Every state held in memory
/// is encodable; the bound is a machine limit, not a rule of the registry.
pub open spec fn encodable(v: RegistryV) -> bool {
    &&& v.records.len() <= u64::MAX
    &&& v.owners.len() <= u64::MAX
    &&& forall|i: int| 0 <= i < v.records.len() ==> record_fits(#[trigger] v.records[i])
    &&& forall|j: int| 0 <= j < v.owners.len() ==> entry_fits(#[trigger] v.owners[j])
}

// ---------------------------------------------------------------------------
// Exec serialization.
// ---------------------------------------------------------------------------

/// Appends a u64 in the wire format.
fn put_u64(out: &mut Vec<u8>, x: u64)
    ensures
        final(out)@ == old(out)@ + enc_u64(x),
{
    let mut b = u64_to_le_bytes(x);
    out.append(&mut b);
}

/// Appends a string in the wire format.
fn put_str(out: &mut Vec<u8>, s: &str)
    ensures
        final(out)@ == old(out)@ + enc_str(s@),
        str_fits(s@),
{
    proof {
        reveal(enc_str);
    }
    let bytes = s.as_bytes();
    proof {
        assert(bytes@ == encode_utf8(s@));
    }
    let n = bytes.len();
    proof {
        assert(n <= u64::MAX);
    }
    put_u64(out, n as u64);
    let mut bv = slice_to_vec(bytes);
    out.append(&mut bv);
    proof {
        assert(out@ =~= old(out)@ + enc_str(s@));
    }
}

/// Appends a key in the wire format.
fn put_key(out: &mut Vec<u8>, k: &Key)
    ensures
        final(out)@ == old(out)@ + enc_key(k@),
        key_fits(k@),
{
    proof {
        reveal(enc_key);
    }
    match k {
        Key::Id(n) => {
            out.push(0u8);
            put_u64(out, *n);
            proof {
                assert(out@ =~= old(out)@ + enc_key(k@));
            }
        },
        Key::Hash(s) => {
            out.push(1u8);
            put_str(out, s.as_str());
            proof {
                assert(out@ =~= old(out)@ + enc_key(k@));
            }
        },
    }
}

/// Prefix step for the metadata encoding.
proof fn lemma_enc_meta_take(m: Seq<(Seq<char>, Seq<char>)>, i: int)
    requires
        0 <= i < m.len(),
    ensures
        enc_meta(m.take(i + 1)) == enc_meta(m.take(i)) + enc_pair(m[i]),
    decreases i,
{
    if i == 0 {
        assert(m.take(1).drop_first() =~= Seq::<(Seq<char>, Seq<char>)>::empty());
        assert(enc_meta(m.take(1).drop_first()) == Seq::<u8>::empty());
        assert(m.take(1)[0] == m[0]);
        assert(enc_meta(m.take(1)) =~= enc_pair(m[0]));
        assert(m.take(0) =~= Seq::<(Seq<char>, Seq<char>)>::empty());
        assert(enc_meta(m.take(0)) == Seq::<u8>::empty());
        assert(enc_meta(m.take(0)) + enc_pair(m[0]) =~= enc_pair(m[0]));
    } else {
        let t = m.drop_first();
        assert(m.take(i + 1).drop_first() =~= t.take(i));
        assert(m.take(i).drop_first() =~= t.take(i - 1));
        lemma_enc_meta_take(t, i - 1);
        assert(m.take(i + 1)[0] == m[0]);
        assert(m.take(i)[0] == m[0]);
        assert(enc_meta(m.take(i + 1)) == enc_pair(m[0]) + enc_meta(t.take(i)));
        assert(enc_meta(m.take(i)) == enc_pair(m[0]) + enc_meta(t.take(i - 1)));
        assert(t[i - 1] == m[i]);
        assert(enc_meta(t.take(i)) == enc_meta(t.take(i - 1)) + enc_pair(m[i]));
        assert((enc_pair(m[0]) + enc_meta(t.take(i - 1))) + enc_pair(m[i]) =~= enc_pair(m[0]) + (
        enc_meta(t.take(i - 1)) + enc_pair(m[i])));
    }
}

/// Prefix step for the record-store encoding.
proof fn lemma_enc_recs_take(rs: Seq<RecordV>, i: int)
    requires
        0 <= i < rs.len(),
    ensures
        enc_recs(rs.take(i + 1)) == enc_recs(rs.take(i)) + enc_record(rs[i]),
    decreases i,
{
    if i == 0 {
        assert(rs.take(1).drop_first() =~= Seq::<RecordV>::empty());
        assert(enc_recs(rs.take(1).drop_first()) == Seq::<u8>::empty());
        assert(rs.take(1)[0] == rs[0]);
        assert(enc_recs(rs.take(1)) =~= enc_record(rs[0]));
        assert(rs.take(0) =~= Seq::<RecordV>::empty());
        assert(enc_recs(rs.take(0)) == Seq::<u8>::empty());
        assert(enc_recs(rs.take(0)) + enc_record(rs[0]) =~= enc_record(rs[0]));
    } else {
        let t = rs.drop_first();
        assert(rs.take(i + 1).drop_first() =~= t.take(i));
        assert(rs.take(i).drop_first() =~= t.take(i - 1));
        lemma_enc_recs_take(t, i - 1);
        assert(rs.take(i + 1)[0] == rs[0]);
        assert(rs.take(i)[0] == rs[0]);
        assert(enc_recs(rs.take(i + 1)) == enc_record(rs[0]) + enc_recs(t.take(i)));
        assert(enc_recs(rs.take(i)) == enc_record(rs[0]) + enc_recs(t.take(i - 1)));
        assert(t[i - 1] == rs[i]);
        assert(enc_recs(t.take(i)) == enc_recs(t.take(i - 1)) + enc_record(rs[i]));
        assert((enc_record(rs[0]) + enc_recs(t.take(i - 1))) + enc_record(rs[i]) =~= enc_record(
            rs[0],
        ) + (enc_recs(t.take(i - 1)) + enc_record(rs[i])));
    }
}

/// Prefix step for the key-list encoding.
proof fn lemma_enc_keys_take(ks: Seq<KeyV>, i: int)
    requires
        0 <= i < ks.len(),
    ensures
        enc_keys(ks.take(i + 1)) == enc_keys(ks.take(i)) + enc_key(ks[i]),
    decreases i,
{
    if i == 0 {
        assert(ks.take(1).drop_first() =~= Seq::<KeyV>::empty());
        assert(enc_keys(ks.take(1).drop_first()) == Seq::<u8>::empty());
        assert(ks.take(1)[0] == ks[0]);
        assert(enc_keys(ks.take(1)) =~= enc_key(ks[0]));
        assert(ks.take(0) =~= Seq::<KeyV>::empty());
        assert(enc_keys(ks.take(0)) == Seq::<u8>::empty());
        assert(enc_keys(ks.take(0)) + enc_key(ks[0]) =~= enc_key(ks[0]));
    } else {
        let t = ks.drop_first();
        assert(ks.take(i + 1).drop_first() =~= t.take(i));
        assert(ks.take(i).drop_first() =~= t.take(i - 1));
        lemma_enc_keys_take(t, i - 1);
        assert(ks.take(i + 1)[0] == ks[0]);
        assert(ks.take(i)[0] == ks[0]);
        assert(enc_keys(ks.take(i + 1)) == enc_key(ks[0]) + enc_keys(t.take(i)));
        assert(enc_keys(ks.take(i)) == enc_key(ks[0]) + enc_keys(t.take(i - 1)));
        assert(t[i - 1] == ks[i]);
        assert(enc_keys(t.take(i)) == enc_keys(t.take(i - 1)) + enc_key(ks[i]));
        assert((enc_key(ks[0]) + enc_keys(t.take(i - 1))) + enc_key(ks[i]) =~= enc_key(ks[0]) + (
        enc_keys(t.take(i - 1)) + enc_key(ks[i])));
    }
}

/// Prefix step for the owner-index encoding.
proof fn lemma_enc_entries_take(es: Seq<OwnerEntryV>, i: int)
    requires
        0 <= i < es.len(),
    ensures
        enc_entries(es.take(i + 1)) == enc_entries(es.take(i)) + enc_entry(es[i]),
    decreases i,
{
    if i == 0 {
        assert(es.take(1).drop_first() =~= Seq::<OwnerEntryV>::empty());
        assert(enc_entries(es.take(1).drop_first()) == Seq::<u8>::empty());
        assert(es.take(1)[0] == es[0]);
        assert(enc_entries(es.take(1)) =~= enc_entry(es[0]));
        assert(es.take(0) =~= Seq::<OwnerEntryV>::empty());
        assert(enc_entries(es.take(0)) == Seq::<u8>::empty());
        assert(enc_entries(es.take(0)) + enc_entry(es[0]) =~= enc_entry(es[0]));
    } else {
        let t = es.drop_first();
        assert(es.take(i + 1).drop_first() =~= t.take(i));
        assert(es.take(i).drop_first() =~= t.take(i - 1));
        lemma_enc_entries_take(t, i - 1);
        assert(es.take(i + 1)[0] == es[0]);
        assert(es.take(i)[0] == es[0]);
        assert(enc_entries(es.take(i + 1)) == enc_entry(es[0]) + enc_entries(t.take(i)));
        assert(enc_entries(es.take(i)) == enc_entry(es[0]) + enc_entries(t.take(i - 1)));
        assert(t[i - 1] == es[i]);
        assert(enc_entries(t.take(i)) == enc_entries(t.take(i - 1)) + enc_entry(es[i]));
        assert((enc_entry(es[0]) + enc_entries(t.take(i - 1))) + enc_entry(es[i]) =~= enc_entry(
            es[0],
        ) + (enc_entries(t.take(i - 1)) + enc_entry(es[i])));
    }
}

/// Appends a metadata list, with its length, in the wire format.
fn put_meta(out: &mut Vec<u8>, m: &Vec<(String, String)>)
    ensures
        final(out)@ == old(out)@ + enc_u64(m@.len() as u64) + enc_meta(
            crate::record::meta_view(m@),
        ),
        crate::record::meta_view(m@).len() <= u64::MAX,
        forall|i: int|
            0 <= i < crate::record::meta_view(m@).len() ==> pair_fits(
                #[trigger] crate::record::meta_view(m@)[i],
            ),
{
    let ghost mv = crate::record::meta_view(m@);
    put_u64(out, m.len() as u64);
    let ghost start = out@;
    let mut i: usize = 0;
    while i < m.len()
        invariant
            i <= m@.len(),
            mv == crate::record::meta_view(m@),
            mv.len() == m@.len(),
            out@ == start + enc_meta(mv.take(i as int)),
            forall|j: int| 0 <= j < i ==> pair_fits(#[trigger] mv[j]),
        decreases m@.len() - i,
    {
        put_str(out, m[i].0.as_str());
        put_str(out, m[i].1.as_str());
        proof {
            assert(mv[i as int] == (m@[i as int].0@, m@[i as int].1@));
            lemma_enc_meta_take(mv, i as int);
            assert((start + enc_meta(mv.take(i as int))) + (enc_str(m@[i as int].0@) + enc_str(
                m@[i as int].1@,
            )) =~= start + enc_meta(mv.take(i as int + 1)));
            assert(((start + enc_meta(mv.take(i as int))) + enc_str(m@[i as int].0@)) + enc_str(
                m@[i as int].1@,
            ) =~= (start + enc_meta(mv.take(i as int))) + (enc_str(m@[i as int].0@) + enc_str(
                m@[i as int].1@,
            )));
        }
        i = i + 1;
    }
    proof {
        assert(mv.take(mv.len() as int) =~= mv);
    }
}

/// Appends a record in the wire format.
fn put_record(out: &mut Vec<u8>, r: &Record)
    ensures
        final(out)@ == old(out)@ + enc_record(r@),
        record_fits(r@),
{
    proof {
        reveal(enc_record);
    }
    put_key(out, &r.key);
    put_str(out, r.name.as_str());
    put_str(out, r.description.as_str());
    put_str(out, r.image_ref.as_str());
    put_str(out, r.owner.text.as_str());
    put_meta(out, &r.metadata);
    proof {
        assert(out@ =~= old(out)@ + enc_record(r@));
    }
}

/// Appends an owner-index entry in the wire format.
fn put_entry(out: &mut Vec<u8>, e: &OwnerEntry)
    ensures
        final(out)@ == old(out)@ + enc_entry(e@),
        entry_fits(e@),
{
    proof {
        reveal(enc_entry);
    }
    put_str(out, e.owner.text.as_str());
    put_u64(out, e.keys.len() as u64);
    let ghost kv = e@.keys;
    let ghost start = out@;
    let mut n: usize = 0;
    while n < e.keys.len()
        invariant
            n <= e.keys@.len(),
            kv == e@.keys,
            kv.len() == e.keys@.len(),
            out@ == start + enc_keys(kv.take(n as int)),
            forall|m: int| 0 <= m < n ==> key_fits(#[trigger] kv[m]),
        decreases e.keys@.len() - n,
    {
        put_key(out, &e.keys[n]);
        proof {
            assert(kv[n as int] == e.keys@[n as int]@);
            lemma_enc_keys_take(kv, n as int);
            assert((start + enc_keys(kv.take(n as int))) + enc_key(kv[n as int]) =~= start
                + enc_keys(kv.take(n as int + 1)));
        }
        n = n + 1;
    }
    proof {
        assert(kv.take(kv.len() as int) =~= kv);
        assert(out@ =~= old(out)@ + enc_entry(e@));
    }
}

impl Registry {
    /// Serializes the whole registry — mode, counter, record store and owner
    /// index — as one self-describing blob for persistence across restarts.
    pub fn save(&self) -> (r: Vec<u8>)
        ensures
            r@ == enc(self@),
            encodable(self@),
    {
        let mut out: Vec<u8> = Vec::new();
        out.push(SNAPSHOT_VERSION);
        match self.mode {
            Mode::Sequential => {
                out.push(0u8);
                put_u64(&mut out, self.counter);
            },
            Mode::Hash => {
                out.push(1u8);
            },
        }
        let ghost head = out@;
        proof {
            assert(head =~= seq![SNAPSHOT_VERSION] + enc_mode(self@.mode) + (
            if self@.mode is Sequential {
                enc_u64(self@.counter)
            } else {
                Seq::<u8>::empty()
            }));
        }
        put_u64(&mut out, self.records.len() as u64);
        let ghost rstart = out@;
        let mut i: usize = 0;
        while i < self.records.len()
            invariant
                i <= self.records@.len(),
                self@.records.len() == self.records@.len(),
                out@ == rstart + enc_recs(self@.records.take(i as int)),
                forall|m: int| 0 <= m < i ==> record_fits(#[trigger] self@.records[m]),
            decreases self.records@.len() - i,
        {
            put_record(&mut out, &self.records[i]);
            proof {
                assert(self@.records[i as int] == self.records@[i as int]@);
                lemma_enc_recs_take(self@.records, i as int);
                assert((rstart + enc_recs(self@.records.take(i as int))) + enc_record(
                    self@.records[i as int],
                ) =~= rstart + enc_recs(self@.records.take(i as int + 1)));
            }
            i = i + 1;
        }
        proof {
            assert(self@.records.take(self@.records.len() as int) =~= self@.records);
        }
        put_u64(&mut out, self.owners.len() as u64);
        let ghost ostart = out@;
        let mut j: usize = 0;
        while j < self.owners.len()
            invariant
                j <= self.owners@.len(),
                self@.owners.len() == self.owners@.len(),
                out@ == ostart + enc_entries(self@.owners.take(j as int)),
                forall|m: int| 0 <= m < j ==> entry_fits(#[trigger] self@.owners[m]),
            decreases self.owners@.len() - j,
        {
            put_entry(&mut out, &self.owners[j]);
            proof {
                assert(self@.owners[j as int] == self.owners@[j as int]@);
                lemma_enc_entries_take(self@.owners, j as int);
                assert((ostart + enc_entries(self@.owners.take(j as int))) + enc_entry(
                    self@.owners[j as int],
                ) =~= ostart + enc_entries(self@.owners.take(j as int + 1)));
            }
            j = j + 1;
        }
        proof {
            assert(self@.owners.take(self@.owners.len() as int) =~= self@.owners);
            assert(out@ =~= enc(self@));
        }
        out
    }
}


// ---------------------------------------------------------------------------
// The decoder, as mathematical functions: each consumes a prefix of the
// bytes and yields the value and the remaining suffix, or nothing when the
// bytes are malformed or truncated.
// ---------------------------------------------------------------------------

/// Reads a u64.
pub open spec fn dec_u64(b: Seq<u8>) -> Option<(u64, Seq<u8>)> {
    if b.len() >= 8 {
        Some((spec_u64_from_le_bytes(b.take(8)), b.skip(8)))
    } else {
        None
    }
}

/// Reads a string: a length, then that many bytes of valid UTF-8.
#[verifier::opaque]
pub open spec fn dec_str(b: Seq<u8>) -> Option<(Seq<char>, Seq<u8>)> {
    match dec_u64(b) {
        Some((n, rest)) => {
            if rest.len() >= n && valid_utf8(rest.take(n as int)) {
                Some((decode_utf8(rest.take(n as int)), rest.skip(n as int)))
            } else {
                None
            }
        },
        None => None,
    }
}

/// Reads a key: a tag byte, then the number or the string.
#[verifier::opaque]
pub open spec fn dec_key(b: Seq<u8>) -> Option<(KeyV, Seq<u8>)> {
    if b.len() < 1 {
        None
    } else if b[0] == 0u8 {
        match dec_u64(b.skip(1)) {
            Some((x, rest)) => Some((KeyV::Id(x), rest)),
            None => None,
        }
    } else if b[0] == 1u8 {
        match dec_str(b.skip(1)) {
            Some((sv, rest)) => Some((KeyV::Hash(sv), rest)),
            None => None,
        }
    } else {
        None
    }
}

/// Reads a metadata pair.
pub open spec fn dec_pair(b: Seq<u8>) -> Option<((Seq<char>, Seq<char>), Seq<u8>)> {
    match dec_str(b) {
        Some((a, b1)) => match dec_str(b1) {
            Some((c, b2)) => Some(((a, c), b2)),
            None => None,
        },
        None => None,
    }
}

/// Reads `count` metadata pairs.
pub open spec fn dec_meta(b: Seq<u8>, count: nat) -> Option<(Seq<(Seq<char>, Seq<char>)>, Seq<u8>)>
    decreases count,
{
    if count == 0 {
        Some((Seq::empty(), b))
    } else {
        match dec_pair(b) {
            Some((p, rest)) => match dec_meta(rest, (count - 1) as nat) {
                Some((ps, rest2)) => Some((seq![p] + ps, rest2)),
                None => None,
            },
            None => None,
        }
    }
}

/// Reads a record.
#[verifier::opaque]
pub open spec fn dec_record(b: Seq<u8>) -> Option<(RecordV, Seq<u8>)> {
    match dec_key(b) {
        Some((k, b1)) => match dec_str(b1) {
            Some((name, b2)) => match dec_str(b2) {
                Some((description, b3)) => match dec_str(b3) {
                    Some((image_ref, b4)) => match dec_str(b4) {
                        Some((owner, b5)) => match dec_u64(b5) {
                            Some((cnt, b6)) => match dec_meta(b6, cnt as nat) {
                                Some((metadata, b7)) => Some(
                                    (
                                        RecordV {
                                            key: k,
                                            name,
                                            description,
                                            image_ref,
                                            owner,
                                            metadata,
                                        },
                                        b7,
                                    ),
                                ),
                                None => None,
                            },
                            None => None,
                        },
                        None => None,
                    },
                    None => None,
                },
                None => None,
            },
            None => None,
        },
        None => None,
    }
}

/// Reads `count` records.
pub open spec fn dec_recs(b: Seq<u8>, count: nat) -> Option<(Seq<RecordV>, Seq<u8>)>
    decreases count,
{
    if count == 0 {
        Some((Seq::empty(), b))
    } else {
        match dec_record(b) {
            Some((r, rest)) => match dec_recs(rest, (count - 1) as nat) {
                Some((rs, rest2)) => Some((seq![r] + rs, rest2)),
                None => None,
            },
            None => None,
        }
    }
}

/// Reads `count` keys.
pub open spec fn dec_keys(b: Seq<u8>, count: nat) -> Option<(Seq<KeyV>, Seq<u8>)>
    decreases count,
{
    if count == 0 {
        Some((Seq::empty(), b))
    } else {
        match dec_key(b) {
            Some((k, rest)) => match dec_keys(rest, (count - 1) as nat) {
                Some((ks, rest2)) => Some((seq![k] + ks, rest2)),
                None => None,
            },
            None => None,
        }
    }
}

/// Reads an owner-index entry.
#[verifier::opaque]
pub open spec fn dec_entry(b: Seq<u8>) -> Option<(OwnerEntryV, Seq<u8>)> {
    match dec_str(b) {
        Some((owner, b1)) => match dec_u64(b1) {
            Some((cnt, b2)) => match dec_keys(b2, cnt as nat) {
                Some((keys, b3)) => Some((OwnerEntryV { owner, keys }, b3)),
                None => None,
            },
            None => None,
        },
        None => None,
    }
}

/// Reads `count` entries.
pub open spec fn dec_entries(b: Seq<u8>, count: nat) -> Option<(Seq<OwnerEntryV>, Seq<u8>)>
    decreases count,
{
    if count == 0 {
        Some((Seq::empty(), b))
    } else {
        match dec_entry(b) {
            Some((e, rest)) => match dec_entries(rest, (count - 1) as nat) {
                Some((es, rest2)) => Some((seq![e] + es, rest2)),
                None => None,
            },
            None => None,
        }
    }
}

/// Reads a whole registry state; the blob must be consumed exactly.
pub open spec fn dec(b: Seq<u8>) -> Option<RegistryV> {
    if b.len() < 2 {
        None
    } else if b[0] != SNAPSHOT_VERSION {
        None
    } else if b[1] != 0u8 && b[1] != 1u8 {
        None
    } else {
        let mode = if b[1] == 0u8 {
            Mode::Sequential
        } else {
            Mode::Hash
        };
        let head = if mode is Sequential {
            dec_u64(b.skip(2))
        } else {
            Some((0u64, b.skip(2)))
        };
        match head {
            Some((counter, b2)) => match dec_u64(b2) {
                Some((nrec, b3)) => match dec_recs(b3, nrec as nat) {
                    Some((records, b4)) => match dec_u64(b4) {
                        Some((nown, b5)) => match dec_entries(b5, nown as nat) {
                            Some((owners, b6)) => if b6.len() == 0 {
                                Some(RegistryV { mode, counter, records, owners })
                            } else {
                                None
                            },
                            None => None,
                        },
                        None => None,
                    },
                    None => None,
                },
                None => None,
            },
            None => None,
        }
    }
}

// ---------------------------------------------------------------------------
// Round trip: decoding an encoding yields the value back.
// ---------------------------------------------------------------------------

/// Reading a written u64 yields it back.
proof fn lemma_dec_enc_u64(x: u64, rest: Seq<u8>)
    ensures
        dec_u64(enc_u64(x) + rest) == Some((x, rest)),
{
    lemma_auto_spec_u64_to_from_le_bytes();
    assert((enc_u64(x) + rest).take(8) =~= enc_u64(x));
    assert((enc_u64(x) + rest).skip(8) =~= rest);
}

/// Reading a written string yields it back.
proof fn lemma_dec_enc_str(s: Seq<char>, rest: Seq<u8>)
    requires
        str_fits(s),
    ensures
        dec_str(enc_str(s) + rest) == Some((s, rest)),
{
    reveal(enc_str);
    reveal(dec_str);
    let bytes = encode_utf8(s);
    let n = bytes.len() as u64;
    assert(enc_str(s) + rest =~= enc_u64(n) + (bytes + rest));
    lemma_dec_enc_u64(n, bytes + rest);
    assert((bytes + rest).take(n as int) =~= bytes);
    assert((bytes + rest).skip(n as int) =~= rest);
    encode_utf8_valid_utf8(s);
    encode_utf8_decode_utf8(s);
}

/// Reading a written key yields it back.
proof fn lemma_dec_enc_key(k: KeyV, rest: Seq<u8>)
    requires
        key_fits(k),
    ensures
        dec_key(enc_key(k) + rest) == Some((k, rest)),
{
    reveal(enc_key);
    reveal(dec_key);
    match k {
        KeyV::Id(n) => {
            let b = enc_key(k) + rest;
            assert(b[0] == 0u8);
            assert(b.skip(1) =~= enc_u64(n) + rest);
            lemma_dec_enc_u64(n, rest);
        },
        KeyV::Hash(s) => {
            let b = enc_key(k) + rest;
            assert(b[0] == 1u8);
            assert(b.skip(1) =~= enc_str(s) + rest);
            lemma_dec_enc_str(s, rest);
        },
    }
}

/// Reading a written metadata pair yields it back.
proof fn lemma_dec_enc_pair(p: (Seq<char>, Seq<char>), rest: Seq<u8>)
    requires
        pair_fits(p),
    ensures
        dec_pair(enc_pair(p) + rest) == Some((p, rest)),
{
    assert(enc_pair(p) + rest =~= enc_str(p.0) + (enc_str(p.1) + rest));
    lemma_dec_enc_str(p.0, enc_str(p.1) + rest);
    lemma_dec_enc_str(p.1, rest);
}

/// Reading a written metadata list yields it back.
proof fn lemma_dec_enc_meta(m: Seq<(Seq<char>, Seq<char>)>, rest: Seq<u8>)
    requires
        forall|i: int| 0 <= i < m.len() ==> pair_fits(#[trigger] m[i]),
    ensures
        dec_meta(enc_meta(m) + rest, m.len() as nat) == Some((m, rest)),
    decreases m.len(),
{
    if m.len() == 0 {
        assert(enc_meta(m) + rest =~= rest);
        assert(m =~= Seq::<(Seq<char>, Seq<char>)>::empty());
    } else {
        let t = m.drop_first();
        assert(enc_meta(m) + rest =~= enc_pair(m[0]) + (enc_meta(t) + rest));
        lemma_dec_enc_pair(m[0], enc_meta(t) + rest);
        assert(forall|i: int| 0 <= i < t.len() ==> pair_fits(#[trigger] t[i]));
        lemma_dec_enc_meta(t, rest);
        assert(seq![m[0]] + t =~= m);
    }
}

/// Reading a written record yields it back.
proof fn lemma_dec_enc_record(r: RecordV, rest: Seq<u8>)
    requires
        record_fits(r),
    ensures
        dec_record(enc_record(r) + rest) == Some((r, rest)),
{
    reveal(enc_record);
    reveal(dec_record);
    let cnt = r.metadata.len() as u64;
    let t6 = enc_meta(r.metadata) + rest;
    let t5 = enc_u64(cnt) + t6;
    let t4 = enc_str(r.owner) + t5;
    let t3 = enc_str(r.image_ref) + t4;
    let t2 = enc_str(r.description) + t3;
    let t1 = enc_str(r.name) + t2;
    assert(enc_record(r) + rest =~= enc_key(r.key) + t1);
    lemma_dec_enc_key(r.key, t1);
    lemma_dec_enc_str(r.name, t2);
    lemma_dec_enc_str(r.description, t3);
    lemma_dec_enc_str(r.image_ref, t4);
    lemma_dec_enc_str(r.owner, t5);
    lemma_dec_enc_u64(cnt, t6);
    lemma_dec_enc_meta(r.metadata, rest);
}

/// Reading a written record store yields it back.
proof fn lemma_dec_enc_recs(rs: Seq<RecordV>, rest: Seq<u8>)
    requires
        forall|i: int| 0 <= i < rs.len() ==> record_fits(#[trigger] rs[i]),
    ensures
        dec_recs(enc_recs(rs) + rest, rs.len() as nat) == Some((rs, rest)),
    decreases rs.len(),
{
    if rs.len() == 0 {
        assert(enc_recs(rs) + rest =~= rest);
        assert(rs =~= Seq::<RecordV>::empty());
    } else {
        let t = rs.drop_first();
        assert(enc_recs(rs) + rest =~= enc_record(rs[0]) + (enc_recs(t) + rest));
        lemma_dec_enc_record(rs[0], enc_recs(t) + rest);
        assert(forall|i: int| 0 <= i < t.len() ==> record_fits(#[trigger] t[i]));
        lemma_dec_enc_recs(t, rest);
        assert(seq![rs[0]] + t =~= rs);
    }
}

/// Reading a written key list yields it back.
proof fn lemma_dec_enc_keys(ks: Seq<KeyV>, rest: Seq<u8>)
    requires
        forall|n: int| 0 <= n < ks.len() ==> key_fits(#[trigger] ks[n]),
    ensures
        dec_keys(enc_keys(ks) + rest, ks.len() as nat) == Some((ks, rest)),
    decreases ks.len(),
{
    if ks.len() == 0 {
        assert(enc_keys(ks) + rest =~= rest);
        assert(ks =~= Seq::<KeyV>::empty());
    } else {
        let t = ks.drop_first();
        assert(enc_keys(ks) + rest =~= enc_key(ks[0]) + (enc_keys(t) + rest));
        lemma_dec_enc_key(ks[0], enc_keys(t) + rest);
        assert(forall|n: int| 0 <= n < t.len() ==> key_fits(#[trigger] t[n]));
        lemma_dec_enc_keys(t, rest);
        assert(seq![ks[0]] + t =~= ks);
    }
}

/// Reading a written entry yields it back.
proof fn lemma_dec_enc_entry(e: OwnerEntryV, rest: Seq<u8>)
    requires
        entry_fits(e),
    ensures
        dec_entry(enc_entry(e) + rest) == Some((e, rest)),
{
    reveal(enc_entry);
    reveal(dec_entry);
    let cnt = e.keys.len() as u64;
    let t2 = enc_keys(e.keys) + rest;
    let t1 = enc_u64(cnt) + t2;
    assert(enc_entry(e) + rest =~= enc_str(e.owner) + t1);
    lemma_dec_enc_str(e.owner, t1);
    lemma_dec_enc_u64(cnt, t2);
    lemma_dec_enc_keys(e.keys, rest);
}

/// Reading a written owner index yields it back.
proof fn lemma_dec_enc_entries(es: Seq<OwnerEntryV>, rest: Seq<u8>)
    requires
        forall|j: int| 0 <= j < es.len() ==> entry_fits(#[trigger] es[j]),
    ensures
        dec_entries(enc_entries(es) + rest, es.len() as nat) == Some((es, rest)),
    decreases es.len(),
{
    if es.len() == 0 {
        assert(enc_entries(es) + rest =~= rest);
        assert(es =~= Seq::<OwnerEntryV>::empty());
    } else {
        let t = es.drop_first();
        assert(enc_entries(es) + rest =~= enc_entry(es[0]) + (enc_entries(t) + rest));
        lemma_dec_enc_entry(es[0], enc_entries(t) + rest);
        assert(forall|j: int| 0 <= j < t.len() ==> entry_fits(#[trigger] t[j]));
        lemma_dec_enc_entries(t, rest);
        assert(seq![es[0]] + t =~= es);
    }
}

/// Round-trip fidelity: decoding an encoded registry state yields exactly
/// the state that was encoded — the record store, the owner index, the mode
/// and the counter all come back unchanged.
#[verifier::rlimit(100)]
#[verifier::spinoff_prover]
pub proof fn lemma_dec_enc(v: RegistryV)
    requires
        encodable(v),
        v.mode is Hash ==> v.counter == 0,
    ensures
        dec(enc(v)) == Some(v),
{
    let b = enc(v);
    let t4 = enc_entries(v.owners);
    let t3 = enc_u64(v.owners.len() as u64) + t4;
    let t2 = enc_recs(v.records) + t3;
    let t1 = enc_u64(v.records.len() as u64) + t2;
    let hd = if v.mode is Sequential {
        enc_u64(v.counter)
    } else {
        Seq::<u8>::empty()
    };
    let mb = if v.mode is Sequential {
        0u8
    } else {
        1u8
    };
    assert(b =~= seq![SNAPSHOT_VERSION, mb] + (hd + t1)) by {
        assert(seq![SNAPSHOT_VERSION] + enc_mode(v.mode) =~= seq![SNAPSHOT_VERSION, mb]);
    };
    assert(b.len() >= 2 && b[0] == SNAPSHOT_VERSION && b[1] == mb);
    assert(b.skip(2) =~= hd + t1);
    assert(dec_u64(t1) == Some((v.records.len() as u64, t2))) by {
        lemma_dec_enc_u64(v.records.len() as u64, t2);
    };
    assert(dec_recs(t2, v.records.len() as nat) == Some((v.records, t3))) by {
        lemma_dec_enc_recs(v.records, t3);
    };
    assert(dec_u64(t3) == Some((v.owners.len() as u64, t4))) by {
        lemma_dec_enc_u64(v.owners.len() as u64, t4);
    };
    assert(dec_entries(t4, v.owners.len() as nat) == Some((v.owners, Seq::<u8>::empty()))) by {
        assert(t4 =~= enc_entries(v.owners) + Seq::<u8>::empty());
        lemma_dec_enc_entries(v.owners, Seq::<u8>::empty());
    };
    if v.mode is Sequential {
        assert(dec_u64(hd + t1) == Some((v.counter, t1))) by {
            lemma_dec_enc_u64(v.counter, t1);
        };
    } else {
        assert(hd + t1 =~= t1);
    }
    assert((v.records.len() as u64) as nat == v.records.len());
    assert((v.owners.len() as u64) as nat == v.owners.len());
    let w = RegistryV { mode: v.mode, counter: v.counter, records: v.records, owners: v.owners };
    assert(dec(b) == Some(w));
    assert(w =~~= v);
}


// ---------------------------------------------------------------------------
// Exec deserialization.
// ---------------------------------------------------------------------------

/// The views of a list of keys.
pub open spec fn keys_view(ks: Seq<Key>) -> Seq<KeyV> {
    ks.map_values(|k: Key| k@)
}

/// Relies on String::from_utf8: it succeeds exactly on valid UTF-8, and the
/// string it returns is backed by the given bytes unchanged.
#[verifier::external_body]
fn string_from_utf8(bytes: Vec<u8>) -> (r: Option<String>)
    ensures
        r is Some <==> valid_utf8(bytes@),
        r matches Some(s) ==> encode_utf8(s@) == bytes@,
{
    String::from_utf8(bytes).ok()
}

/// Reads a u64 at `pos`.
fn take_u64(b: &Vec<u8>, pos: usize) -> (r: Option<(u64, usize)>)
    requires
        pos <= b@.len(),
    ensures
        match r {
            Some(t) => t.1 <= b@.len() && dec_u64(b@.skip(pos as int)) == Some(
                (t.0, b@.skip(t.1 as int)),
            ),
            None => dec_u64(b@.skip(pos as int)) is None,
        },
{
    if b.len() - pos >= 8 {
        let sl = slice_subrange(b.as_slice(), pos, pos + 8);
        let x = u64_from_le_bytes(sl);
        proof {
            assert(b@.skip(pos as int).take(8) =~= b@.subrange(pos as int, pos as int + 8));
            assert(b@.skip(pos as int).skip(8) =~= b@.skip(pos as int + 8));
        }
        Some((x, pos + 8))
    } else {
        None
    }
}

/// Reads a string at `pos`.
fn take_str(b: &Vec<u8>, pos: usize) -> (r: Option<(String, usize)>)
    requires
        pos <= b@.len(),
    ensures
        match r {
            Some(t) => t.1 <= b@.len() && dec_str(b@.skip(pos as int)) == Some(
                (t.0@, b@.skip(t.1 as int)),
            ),
            None => dec_str(b@.skip(pos as int)) is None,
        },
{
    proof {
        reveal(dec_str);
    }
    match take_u64(b, pos) {
        Some((n, p1)) => {
            if n <= (b.len() - p1) as u64 {
                let nn = n as usize;
                let chunk = slice_to_vec(slice_subrange(b.as_slice(), p1, p1 + nn));
                proof {
                    assert(chunk@ =~= b@.skip(p1 as int).take(n as int));
                }
                match string_from_utf8(chunk) {
                    Some(strv) => {
                        proof {
                            encode_utf8_decode_utf8(strv@);
                            assert(b@.skip(p1 as int).skip(n as int) =~= b@.skip(
                                p1 as int + nn as int,
                            ));
                        }
                        Some((strv, p1 + nn))
                    },
                    None => None,
                }
            } else {
                None
            }
        },
        None => None,
    }
}

/// Reads a key at `pos`.
fn take_key(b: &Vec<u8>, pos: usize) -> (r: Option<(Key, usize)>)
    requires
        pos <= b@.len(),
    ensures
        match r {
            Some(t) => t.1 <= b@.len() && dec_key(b@.skip(pos as int)) == Some(
                (t.0@, b@.skip(t.1 as int)),
            ),
            None => dec_key(b@.skip(pos as int)) is None,
        },
{
    proof {
        reveal(dec_key);
    }
    if pos < b.len() {
        let tag = b[pos];
        proof {
            assert(b@.skip(pos as int)[0] == b@[pos as int]);
            assert(b@.skip(pos as int).skip(1) =~= b@.skip(pos as int + 1));
        }
        if tag == 0 {
            match take_u64(b, pos + 1) {
                Some((x, p2)) => Some((Key::Id(x), p2)),
                None => None,
            }
        } else if tag == 1 {
            match take_str(b, pos + 1) {
                Some((strv, p2)) => Some((Key::Hash(strv), p2)),
                None => None,
            }
        } else {
            None
        }
    } else {
        proof {
            assert(b@.skip(pos as int).len() == 0);
        }
        None
    }
}

/// Reads `count` metadata pairs at `pos`.
fn take_meta(b: &Vec<u8>, pos: usize, count: u64) -> (r: Option<(Vec<(String, String)>, usize)>)
    requires
        pos <= b@.len(),
    ensures
        match r {
            Some(t) => t.1 <= b@.len() && dec_meta(b@.skip(pos as int), count as nat) == Some(
                (crate::record::meta_view(t.0@), b@.skip(t.1 as int)),
            ),
            None => dec_meta(b@.skip(pos as int), count as nat) is None,
        },
{
    let mut out: Vec<(String, String)> = Vec::new();
    let mut p = pos;
    let mut i: u64 = 0;
    while i < count
        invariant
            p <= b@.len(),
            i <= count,
            dec_meta(b@.skip(pos as int), count as nat) == (match dec_meta(
                b@.skip(p as int),
                (count - i) as nat,
            ) {
                Some(t2) => Some((crate::record::meta_view(out@) + t2.0, t2.1)),
                None => None::<(Seq<(Seq<char>, Seq<char>)>, Seq<u8>)>,
            }),
        decreases count - i,
    {
        let ghost out_pre = out@;
        let (ka, p1) = match take_str(b, p) {
            Some(t) => t,
            None => {
                return None;
            },
        };
        let (va, p2) = match take_str(b, p1) {
            Some(t) => t,
            None => {
                return None;
            },
        };
        out.push((ka, va));
        proof {
            assert(crate::record::meta_view(out@) =~= crate::record::meta_view(out_pre).push(
                (ka@, va@),
            ));
            assert forall|t3: Seq<(Seq<char>, Seq<char>)>|
                true implies crate::record::meta_view(out_pre) + (seq![(ka@, va@)] + t3)
                =~= crate::record::meta_view(out@) + t3 by {};
        }
        p = p2;
        i = i + 1;
    }
    proof {
        assert(crate::record::meta_view(out@) + Seq::<(Seq<char>, Seq<char>)>::empty()
            =~= crate::record::meta_view(out@));
    }
    Some((out, p))
}

/// Reads a record at `pos`.
fn take_record(b: &Vec<u8>, pos: usize) -> (r: Option<(Record, usize)>)
    requires
        pos <= b@.len(),
    ensures
        match r {
            Some(t) => t.1 <= b@.len() && dec_record(b@.skip(pos as int)) == Some(
                (t.0@, b@.skip(t.1 as int)),
            ),
            None => dec_record(b@.skip(pos as int)) is None,
        },
{
    proof {
        reveal(dec_record);
    }
    let (key, p1) = match take_key(b, pos) {
        Some(t) => t,
        None => {
            return None;
        },
    };
    let (name, p2) = match take_str(b, p1) {
        Some(t) => t,
        None => {
            return None;
        },
    };
    let (description, p3) = match take_str(b, p2) {
        Some(t) => t,
        None => {
            return None;
        },
    };
    let (image_ref, p4) = match take_str(b, p3) {
        Some(t) => t,
        None => {
            return None;
        },
    };
    let (owner_text, p5) = match take_str(b, p4) {
        Some(t) => t,
        None => {
            return None;
        },
    };
    let (cnt, p6) = match take_u64(b, p5) {
        Some(t) => t,
        None => {
            return None;
        },
    };
    let (metadata, p7) = match take_meta(b, p6, cnt) {
        Some(t) => t,
        None => {
            return None;
        },
    };
    let rec = Record {
        key,
        name,
        description,
        image_ref,
        owner: Identity { text: owner_text },
        metadata,
    };
    Some((rec, p7))
}

/// Reads an owner-index entry at `pos`.
#[verifier::loop_isolation(false)]
fn take_entry(b: &Vec<u8>, pos: usize) -> (r: Option<(OwnerEntry, usize)>)
    requires
        pos <= b@.len(),
    ensures
        match r {
            Some(t) => t.1 <= b@.len() && dec_entry(b@.skip(pos as int)) == Some(
                (t.0@, b@.skip(t.1 as int)),
            ),
            None => dec_entry(b@.skip(pos as int)) is None,
        },
{
    proof {
        reveal(dec_entry);
    }
    let (owner_text, p1) = match take_str(b, pos) {
        Some(t) => t,
        None => {
            return None;
        },
    };
    let (cnt, p2) = match take_u64(b, p1) {
        Some(t) => t,
        None => {
            return None;
        },
    };
    let mut keys: Vec<Key> = Vec::new();
    let mut p = p2;
    let mut i: u64 = 0;
    while i < cnt
        invariant
            p <= b@.len(),
            i <= cnt,
            dec_keys(b@.skip(p2 as int), cnt as nat) == (match dec_keys(
                b@.skip(p as int),
                (cnt - i) as nat,
            ) {
                Some(t2) => Some((keys_view(keys@) + t2.0, t2.1)),
                None => None::<(Seq<KeyV>, Seq<u8>)>,
            }),
        decreases cnt - i,
    {
        let ghost keys_pre = keys@;
        let (k, pk) = match take_key(b, p) {
            Some(t) => t,
            None => {
                return None;
            },
        };
        let ghost kv = k@;
        keys.push(k);
        proof {
            assert(keys_view(keys@) =~= keys_view(keys_pre).push(kv));
            assert forall|t3: Seq<KeyV>| true implies keys_view(keys_pre) + (seq![kv] + t3)
                =~= keys_view(keys@) + t3 by {};
        }
        p = pk;
        i = i + 1;
    }
    proof {
        assert(keys_view(keys@) + Seq::<KeyV>::empty() =~= keys_view(keys@));
    }
    let e = OwnerEntry { owner: Identity { text: owner_text }, keys };
    proof {
        assert(e@.keys =~= keys_view(e.keys@));
        assert(e@ =~~= (OwnerEntryV { owner: owner_text@, keys: keys_view(e.keys@) }));
    }
    Some((e, p))
}

impl Registry {
    /// Rebuilds a registry from a snapshot blob, the inverse of `save`.
    /// Yields nothing when the blob is malformed, truncated or of another
    /// schema version; the caller must treat that as fatal and must not run
    /// on a default or partially restored state.
    #[verifier::loop_isolation(false)]
    pub fn restore(blob: &Vec<u8>) -> (r: Option<Registry>)
        ensures
            match r {
                Some(reg) => dec(blob@) == Some(reg@),
                None => dec(blob@) is None,
            },
    {
        if blob.len() < 2 {
            return None;
        }
        if blob[0] != SNAPSHOT_VERSION {
            return None;
        }
        let mode_byte = blob[1];
        if mode_byte != 0 && mode_byte != 1 {
            return None;
        }
        let mode = if mode_byte == 0 {
            Mode::Sequential
        } else {
            Mode::Hash
        };
        let (counter, p1) = if mode_byte == 0 {
            match take_u64(blob, 2) {
                Some(t) => t,
                None => {
                    return None;
                },
            }
        } else {
            (0u64, 2usize)
        };
        let (nrec, p2) = match take_u64(blob, p1) {
            Some(t) => t,
            None => {
                return None;
            },
        };
        let mut records: Vec<Record> = Vec::new();
        let mut p = p2;
        let mut i: u64 = 0;
        while i < nrec
            invariant
                p <= blob@.len(),
                i <= nrec,
                dec_recs(blob@.skip(p2 as int), nrec as nat) == (match dec_recs(
                    blob@.skip(p as int),
                    (nrec - i) as nat,
                ) {
                    Some(t2) => Some((recs_view(records@) + t2.0, t2.1)),
                    None => None::<(Seq<RecordV>, Seq<u8>)>,
                }),
            decreases nrec - i,
        {
            let ghost recs_pre = records@;
            let (rec, pr) = match take_record(blob, p) {
                Some(t) => t,
                None => {
                    return None;
                },
            };
            let ghost rv = rec@;
            records.push(rec);
            proof {
                assert(recs_view(records@) =~= recs_view(recs_pre).push(rv));
                assert forall|t3: Seq<RecordV>| true implies recs_view(recs_pre) + (seq![rv] + t3)
                    =~= recs_view(records@) + t3 by {};
            }
            p = pr;
            i = i + 1;
        }
        proof {
            assert(recs_view(records@) + Seq::<RecordV>::empty() =~= recs_view(records@));
        }
        let (nown, p3) = match take_u64(blob, p) {
            Some(t) => t,
            None => {
                return None;
            },
        };
        let mut owners: Vec<OwnerEntry> = Vec::new();
        let mut q = p3;
        let mut j: u64 = 0;
        while j < nown
            invariant
                q <= blob@.len(),
                j <= nown,
                dec_entries(blob@.skip(p3 as int), nown as nat) == (match dec_entries(
                    blob@.skip(q as int),
                    (nown - j) as nat,
                ) {
                    Some(t2) => Some((owners@.map_values(|e: OwnerEntry| e@) + t2.0, t2.1)),
                    None => None::<(Seq<OwnerEntryV>, Seq<u8>)>,
                }),
            decreases nown - j,
        {
            let ghost owners_pre = owners@;
            let (entry, pe) = match take_entry(blob, q) {
                Some(t) => t,
                None => {
                    return None;
                },
            };
            let ghost ev = entry@;
            owners.push(entry);
            proof {
                assert(owners@.map_values(|e: OwnerEntry| e@) =~= owners_pre.map_values(
                    |e: OwnerEntry| e@,
                ).push(ev));
                assert forall|t3: Seq<OwnerEntryV>| true implies owners_pre.map_values(
                    |e: OwnerEntry| e@,
                ) + (seq![ev] + t3) =~= owners@.map_values(|e: OwnerEntry| e@) + t3 by {};
            }
            q = pe;
            j = j + 1;
        }
        proof {
            assert(owners@.map_values(|e: OwnerEntry| e@) + Seq::<OwnerEntryV>::empty()
                =~= owners@.map_values(|e: OwnerEntry| e@));
        }
        if q != blob.len() {
            return None;
        }
        proof {
            assert(blob@.skip(q as int).len() == 0);
        }
        let reg = Registry { mode, counter, records, owners };
        proof {
            assert(reg@ =~~= (RegistryV {
                mode,
                counter,
                records: recs_view(records@),
                owners: owners@.map_values(|e: OwnerEntry| e@),
            }));
            assert(dec(blob@) == Some(reg@));
        }
        Some(reg)
    }
}

} // verus!
