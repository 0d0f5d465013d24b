//! Building an index file from raw entities.
//!
//! The builder case folds every raw name into a base key, keeps one record
//! per (base key, identifier) pair (the last one offered wins), assigns
//! colliding base keys deterministic suffixes `-<rank>-<flag>` where the
//! rank orders the colliding identifiers ascending, sorts the records by
//! key, and serializes them as fixed-width lines whose key field is as
//! wide as the widest final key.

use vstd::prelude::*;
use vstd::multiset::Multiset;
use vstd::seq_lib::lemma_sorted_unique;
use vstd::relations::{sorted_by, total_ordering};
use crate::keybytes::{
    dec_fixed, dec_min, fold, fold_byte, is_key_byte, lemma_lex_trichotomy, lemma_lex_transitive,
    lex_lt, pow10, MAX_ID_WIDTH, NEWLINE_BYTE, SPACE_BYTE,
};
use crate::layout::{encode_index, encode_line, spec_pad, IndexRecord, RecModel};
use crate::keybytes::{bytes_eq, copy_bytes, dec_min_exec, fold_bytes};
use vstd::arithmetic::div_mod::lemma_fundamental_div_mod;
use crate::search::KeyOrder;

verus! {

/// The ASCII hyphen that joins the parts of a disambiguated key.
pub const DASH_BYTE: u8 = 0x2d;

/// One raw entity offered to the builder: a display name, a numeric
/// identifier, and a one-byte flag persisted next to the identifier.
pub struct Entity {
    pub name: Vec<u8>,
    pub id: u64,
    pub aux: u8,
}

/// The logical content of an entity.
#[verifier::ext_equal]
pub struct EntModel {
    pub name: Seq<u8>,
    pub id: u64,
    pub aux: u8,
}

impl View for Entity {
    type V = EntModel;

    open spec fn view(&self) -> EntModel {
        EntModel { name: self.name@, id: self.id, aux: self.aux }
    }
}

impl DeepView for Entity {
    type V = EntModel;

    open spec fn deep_view(&self) -> EntModel {
        self@
    }
}

/// Why a build was refused.
#[derive(Clone, Copy, PartialEq, Eq, Structural, Debug)]
pub enum BuildError {
    /// Some name is empty or holds a byte that cannot appear in a key
    /// (anything outside printable ASCII, and the space).
    InvalidName,
    /// Some flag byte is not printable ASCII, or changes under case
    /// folding, so it could not be embedded in a disambiguated key.
    InvalidFlag,
    /// Some identifier needs more than `id_width` decimal digits.
    EncodingOverflow,
    /// Two distinct records ended up with the same final key, which the
    /// sort invariant of the file cannot represent.
    DuplicateKey,
    /// The serialized file would not fit in one address space.
    TooLarge,
}

/// A name the builder accepts: non-empty printable ASCII without spaces.
pub open spec fn name_ok(name: Seq<u8>) -> bool {
    &&& name.len() >= 1
    &&& forall|i: int| 0 <= i < name.len() ==> is_key_byte(#[trigger] name[i])
}

/// A flag byte the builder accepts: printable and already case folded.
pub open spec fn aux_ok(aux: u8) -> bool {
    is_key_byte(aux) && fold_byte(aux) == aux
}

/// The base records: every name case folded, nothing else changed yet.
pub open spec fn base_recs(es: Seq<EntModel>) -> Seq<RecModel> {
    es.map_values(|e: EntModel| RecModel { key: fold(e.name), aux: e.aux, id: e.id })
}

/// True when some record of `s` carries exactly this key and identifier.
pub open spec fn contains_pair(s: Seq<RecModel>, key: Seq<u8>, id: u64) -> bool {
    exists|i: int| 0 <= i < s.len() && #[trigger] s[i].key == key && s[i].id == id
}

/// Keeps one record per (key, identifier) pair: the last record offered
/// for a pair wins, and survivors keep their relative order.
pub open spec fn dedup_recs(bs: Seq<RecModel>) -> Seq<RecModel>
    decreases bs.len(),
{
    if bs.len() == 0 {
        Seq::empty()
    } else if contains_pair(bs.drop_first(), bs[0].key, bs[0].id) {
        dedup_recs(bs.drop_first())
    } else {
        seq![bs[0]] + dedup_recs(bs.drop_first())
    }
}

/// Deduplication keeps exactly the (key, identifier) pairs of its input,
/// and every surviving record was one of the input records.
pub proof fn lemma_dedup_recs(bs: Seq<RecModel>)
    ensures
        forall|key: Seq<u8>, id: u64|
            contains_pair(dedup_recs(bs), key, id) <==> contains_pair(bs, key, id),
        forall|i: int| 0 <= i < dedup_recs(bs).len() ==> bs.contains(#[trigger] dedup_recs(bs)[i]),
    decreases bs.len(),
{
    if bs.len() > 0 {
        let rest = bs.drop_first();
        lemma_dedup_recs(rest);
        assert forall|i: int| 0 <= i < rest.len() implies bs.contains(#[trigger] rest[i]) by {
            assert(bs[i + 1] == rest[i]);
        }
        assert forall|key: Seq<u8>, id: u64| contains_pair(bs, key, id) implies contains_pair(
            dedup_recs(bs),
            key,
            id,
        ) by {
            let i = choose|i: int| 0 <= i < bs.len() && #[trigger] bs[i].key == key && bs[i].id == id;
            if i > 0 {
                assert(rest[i - 1] == bs[i]);
                assert(contains_pair(rest, key, id));
            } else {
                if contains_pair(rest, bs[0].key, bs[0].id) {
                } else {
                    assert(dedup_recs(bs)[0] == bs[0]);
                }
            }
            if contains_pair(dedup_recs(rest), key, id) {
                let j = choose|j: int|
                    0 <= j < dedup_recs(rest).len() && #[trigger] dedup_recs(rest)[j].key == key
                        && dedup_recs(rest)[j].id == id;
                if !contains_pair(rest, bs[0].key, bs[0].id) {
                    assert(dedup_recs(bs)[j + 1] == dedup_recs(rest)[j]);
                }
            }
        }
        assert forall|key: Seq<u8>, id: u64|
            contains_pair(dedup_recs(bs), key, id) implies contains_pair(bs, key, id) by {
            let j = choose|j: int|
                0 <= j < dedup_recs(bs).len() && #[trigger] dedup_recs(bs)[j].key == key
                    && dedup_recs(bs)[j].id == id;
            if contains_pair(rest, bs[0].key, bs[0].id) {
                assert(contains_pair(rest, key, id));
                let i = choose|i: int|
                    0 <= i < rest.len() && #[trigger] rest[i].key == key && rest[i].id == id;
                assert(bs[i + 1] == rest[i]);
            } else {
                if j == 0 {
                } else {
                    assert(dedup_recs(bs)[j] == dedup_recs(rest)[j - 1]);
                    assert(contains_pair(rest, key, id));
                    let i = choose|i: int|
                        0 <= i < rest.len() && #[trigger] rest[i].key == key && rest[i].id == id;
                    assert(bs[i + 1] == rest[i]);
                }
            }
        }
    }
}

/// How many deduplicated records share this base key.
pub open spec fn group_size(ds: Seq<RecModel>, key: Seq<u8>) -> nat {
    ds.filter(|r: RecModel| r.key == key).len()
}

/// How many deduplicated records share this base key and carry a smaller
/// identifier: the record's deterministic disambiguation rank.
pub open spec fn id_rank(ds: Seq<RecModel>, key: Seq<u8>, id: u64) -> nat {
    ds.filter(|r: RecModel| r.key == key && r.id < id).len()
}

/// The final key of a deduplicated record: the base key alone when it is
/// unique, and otherwise `<base>-<rank>-<flag>`.
pub open spec fn final_key(ds: Seq<RecModel>, r: RecModel) -> Seq<u8> {
    if group_size(ds, r.key) <= 1 {
        r.key
    } else {
        r.key + seq![DASH_BYTE] + dec_min(id_rank(ds, r.key, r.id)) + seq![DASH_BYTE] + seq![r.aux]
    }
}

/// All deduplicated records with their final keys.
pub open spec fn final_recs(ds: Seq<RecModel>) -> Seq<RecModel> {
    ds.map_values(|r: RecModel| RecModel { key: final_key(ds, r), aux: r.aux, id: r.id })
}

/// The order the file is sorted in: by key, with ties (which a valid file
/// never stores) broken by identifier and flag so that the order is total.
pub open spec fn rec_le(a: RecModel, b: RecModel) -> bool {
    if a.key != b.key {
        lex_lt(a.key, b.key)
    } else if a.id != b.id {
        a.id < b.id
    } else {
        a.aux <= b.aux
    }
}

/// `rec_le` as a first-class relation, as the sorting functions expect it.
pub open spec fn rec_le_ff() -> spec_fn(RecModel, RecModel) -> bool {
    |a: RecModel, b: RecModel| rec_le(a, b)
}

/// `rec_le` is a total order.
pub proof fn lemma_rec_le_total_ordering()
    ensures
        total_ordering(rec_le_ff()),
{
    let leq = rec_le_ff();
    assert forall|a: RecModel, b: RecModel| #[trigger] leq(a, b) && #[trigger] leq(b, a) implies a
        == b by {
        lemma_lex_trichotomy(a.key, b.key);
        assert(a =~= b);
    }
    assert forall|a: RecModel, b: RecModel, c: RecModel|
        #[trigger] leq(a, b) && #[trigger] leq(b, c) implies leq(a, c) by {
        lemma_lex_trichotomy(a.key, b.key);
        lemma_lex_trichotomy(b.key, c.key);
        lemma_lex_trichotomy(a.key, c.key);
        if a.key != b.key && b.key != c.key {
            lemma_lex_transitive(a.key, b.key, c.key);
        }
    }
    assert forall|a: RecModel, b: RecModel| #[trigger] leq(a, b) || #[trigger] leq(b, a) by {
        lemma_lex_trichotomy(a.key, b.key);
    }
}

/// Two distinct positions share a key.
pub open spec fn has_dup_keys(rs: Seq<RecModel>) -> bool {
    exists|i: int, j: int| 0 <= i < j < rs.len() && #[trigger] rs[i].key == #[trigger] rs[j].key
}

/// The widest key of a record sequence.
pub open spec fn max_key_len(rs: Seq<RecModel>) -> nat
    decreases rs.len(),
{
    if rs.len() == 0 {
        0
    } else if rs.last().key.len() >= max_key_len(rs.drop_last()) {
        rs.last().key.len()
    } else {
        max_key_len(rs.drop_last())
    }
}

/// No key is wider than `max_key_len`.
pub proof fn lemma_max_key_len(rs: Seq<RecModel>)
    ensures
        forall|i: int| 0 <= i < rs.len() ==> (#[trigger] rs[i].key).len() <= max_key_len(rs),
    decreases rs.len(),
{
    if rs.len() > 0 {
        lemma_max_key_len(rs.drop_last());
        assert(forall|i: int|
            0 <= i < rs.len() - 1 ==> #[trigger] rs[i] == rs.drop_last()[i]);
    }
}

/// The index of the last hyphen in `s` (meaningful when one occurs).
pub open spec fn last_dash(s: Seq<u8>) -> int
    decreases s.len(),
{
    if s.len() == 0 {
        -1
    } else if s.last() == DASH_BYTE {
        s.len() - 1
    } else {
        last_dash(s.drop_last())
    }
}

/// `last_dash` finds a hyphen, and nothing follows it but non-hyphens.
pub proof fn lemma_last_dash(s: Seq<u8>)
    requires
        exists|i: int| 0 <= i < s.len() && s[i] == DASH_BYTE,
    ensures
        0 <= last_dash(s) < s.len(),
        s[last_dash(s)] == DASH_BYTE,
        forall|i: int| last_dash(s) < i < s.len() ==> s[i] != DASH_BYTE,
    decreases s.len(),
{
    if s.len() > 0 && s.last() != DASH_BYTE {
        let i = choose|i: int| 0 <= i < s.len() && s[i] == DASH_BYTE;
        assert(s.drop_last()[i] == s[i]);
        lemma_last_dash(s.drop_last());
        assert(forall|j: int| 0 <= j < s.len() - 1 ==> #[trigger] s[j] == s.drop_last()[j]);
    }
}

/// Strips the trailing identifier segment from a source name slug:
/// everything from the last hyphen on is dropped, so `babe-ruth-121578`
/// becomes `babe-ruth`.
#[verifier::loop_isolation(false)]
pub fn strip_id_suffix(slug: &Vec<u8>) -> (r: Vec<u8>)
    requires
        exists|i: int| 0 <= i < slug@.len() && slug@[i] == DASH_BYTE,
    ensures
        r@ == slug@.take(last_dash(slug@)),
{
    proof {
        lemma_last_dash(slug@);
    }
    let mut k: usize = slug.len();
    while k > 0
        invariant
            0 <= k <= slug@.len(),
            forall|i: int| k <= i < slug@.len() ==> #[trigger] slug@[i] != DASH_BYTE,
            k > last_dash(slug@),
        decreases k,
    {
        k = k - 1;
        if slug[k] == DASH_BYTE {
            proof {
                assert(k as int == last_dash(slug@)) by {
                    lemma_last_dash(slug@);
                }
            }
            return crate::keybytes::take_bytes(slug, k);
        }
    }
    proof {
        assert(false);
    }
    Vec::new()
}

/// The names file: every key of the record sequence on a line of its own,
/// in the same order as the index file.
pub open spec fn encode_names(rs: Seq<RecModel>) -> Seq<u8>
    decreases rs.len(),
{
    if rs.len() == 0 {
        Seq::empty()
    } else {
        encode_names(rs.drop_last()) + rs.last().key + seq![NEWLINE_BYTE]
    }
}

/// What the builder produces for `es` at identifier width `w`: the
/// serialized file, or the first error in the order the checks run
/// (names, then flags, then identifier widths, then key collisions, then
/// the file size).
pub open spec fn spec_build(es: Seq<EntModel>, w: int) -> Result<Seq<u8>, BuildError> {
    if exists|i: int| 0 <= i < es.len() && !name_ok(#[trigger] es[i].name) {
        Err(BuildError::InvalidName)
    } else if exists|i: int| 0 <= i < es.len() && !aux_ok(#[trigger] es[i].aux) {
        Err(BuildError::InvalidFlag)
    } else if exists|i: int| 0 <= i < es.len() && (#[trigger] es[i].id as nat) >= pow10(w as nat) {
        Err(BuildError::EncodingOverflow)
    } else {
        let sorted = final_recs(dedup_recs(base_recs(es))).sort_by(rec_le_ff());
        if has_dup_keys(sorted) {
            Err(BuildError::DuplicateKey)
        } else {
            let kw = max_key_len(sorted) as int;
            if sorted.len() * (kw + w + 4) > usize::MAX {
                Err(BuildError::TooLarge)
            } else {
                Ok(encode_index(sorted, kw, w))
            }
        }
    }
}



/// Three-way lexicographic comparison of two byte strings.
#[verifier::loop_isolation(false)]
fn lex_cmp(a: &Vec<u8>, b: &Vec<u8>) -> (r: KeyOrder)
    ensures
        r == KeyOrder::Equal <==> a@ == b@,
        r == KeyOrder::Less <==> lex_lt(a@, b@),
        r == KeyOrder::Greater <==> lex_lt(b@, a@),
{
    let mut i: usize = 0;
    loop
        invariant
            0 <= i <= a@.len(),
            i <= b@.len(),
            a@.take(i as int) == b@.take(i as int),
        decreases a@.len() - i,
    {
        if i == a.len() && i == b.len() {
            proof {
                assert(a@.take(i as int) =~= a@);
                assert(b@.take(i as int) =~= b@);
                lemma_lex_trichotomy(a@, b@);
            }
            return KeyOrder::Equal;
        }
        if i == a.len() {
            proof {
                assert(a@.take(i as int) =~= a@);
                assert(a@ =~= b@.take(a@.len() as int));
                crate::keybytes::lemma_lex_from_prefix(a@, b@);
                lemma_lex_trichotomy(a@, b@);
            }
            return KeyOrder::Less;
        }
        if i == b.len() {
            proof {
                assert(b@.take(i as int) =~= b@);
                assert(b@ =~= a@.take(b@.len() as int));
                crate::keybytes::lemma_lex_from_prefix(b@, a@);
                lemma_lex_trichotomy(a@, b@);
            }
            return KeyOrder::Greater;
        }
        let x = a[i];
        let y = b[i];
        if x < y {
            proof {
                crate::keybytes::lemma_lex_from_diff(a@, b@, i as int);
                lemma_lex_trichotomy(a@, b@);
            }
            return KeyOrder::Less;
        }
        if x > y {
            proof {
                assert(b@.take(i as int) =~= a@.take(i as int));
                crate::keybytes::lemma_lex_from_diff(b@, a@, i as int);
                lemma_lex_trichotomy(a@, b@);
            }
            return KeyOrder::Greater;
        }
        proof {
            assert(a@.take(i + 1) =~= b@.take(i + 1));
        }
        i = i + 1;
    }
}

/// Decides the total record order `rec_le`.
fn rec_le_exec(a: &IndexRecord, b: &IndexRecord) -> (r: bool)
    ensures
        r == rec_le(a@, b@),
{
    let c = lex_cmp(&a.key, &b.key);
    match c {
        KeyOrder::Less => true,
        KeyOrder::Greater => false,
        KeyOrder::Equal => {
            if a.id != b.id {
                a.id < b.id
            } else {
                a.aux <= b.aux
            }
        },
    }
}

/// Decides `name_ok`.
#[verifier::loop_isolation(false)]
fn name_ok_exec(name: &Vec<u8>) -> (r: bool)
    ensures
        r == name_ok(name@),
{
    if name.len() == 0 {
        return false;
    }
    let mut i: usize = 0;
    while i < name.len()
        invariant
            0 <= i <= name@.len(),
            forall|t: int| 0 <= t < i ==> is_key_byte(#[trigger] name@[t]),
        decreases name@.len() - i,
    {
        let b = name[i];
        if !(0x21 <= b && b <= 0x7e) {
            return false;
        }
        i = i + 1;
    }
    true
}

/// Computes `10^w` for widths whose powers fit a `u64`.
#[verifier::loop_isolation(false)]
fn pow10_exec(w: usize) -> (r: u64)
    requires
        w <= MAX_ID_WIDTH,
    ensures
        r as nat == pow10(w as nat),
{
    proof {
        crate::keybytes::lemma_pow10_u64();
    }
    let mut r: u64 = 1;
    let mut i: usize = 0;
    while i < w
        invariant
            0 <= i <= w,
            r as nat == pow10(i as nat),
        decreases w - i,
    {
        proof {
            crate::keybytes::lemma_pow10_increases((i + 1) as nat, 19);
        }
        r = r * 10;
        i = i + 1;
    }
    r
}

/// Writes `v mod 10^w` as exactly `w` decimal digits.
fn dec_fixed_exec(v: u64, w: usize) -> (r: Vec<u8>)
    ensures
        r@ == dec_fixed(v as nat, w as nat),
    decreases w,
{
    if w == 0 {
        let r: Vec<u8> = Vec::new();
        assert(r@ =~= dec_fixed(v as nat, 0));
        r
    } else {
        let mut r = dec_fixed_exec(v / 10, w - 1);
        r.push(0x30 + (v % 10) as u8);
        assert(r@ =~= dec_fixed(v as nat, w as nat));
        r
    }
}


/// Reads one comparison out of a `sorted_by` fact.
proof fn lemma_sorted_rec_le(rs: Seq<RecModel>, i: int, j: int)
    requires
        sorted_by(rs, rec_le_ff()),
        0 <= i < j < rs.len(),
    ensures
        rec_le(rs[i], rs[j]),
{
    assert(rec_le_ff()(rs[i], rs[j]));
}

/// On a sorted sequence, a key collision anywhere forces one between
/// neighbours.
pub proof fn lemma_sorted_dup_adjacent(rs: Seq<RecModel>)
    requires
        sorted_by(rs, rec_le_ff()),
    ensures
        has_dup_keys(rs) <==> exists|k: int|
            0 <= k < rs.len() - 1 && (#[trigger] rs[k].key) == rs[k + 1].key,
{
    if has_dup_keys(rs) {
        let (i, j) = choose|i: int, j: int|
            0 <= i < j < rs.len() && #[trigger] rs[i].key == #[trigger] rs[j].key;
        lemma_sorted_rec_le(rs, i, i + 1);
        if rs[i].key != rs[i + 1].key {
            assert(lex_lt(rs[i].key, rs[i + 1].key));
            if i + 1 < j {
                lemma_sorted_rec_le(rs, i + 1, j);
                if rs[i + 1].key != rs[j].key {
                    lemma_lex_transitive(rs[i].key, rs[i + 1].key, rs[j].key);
                    lemma_lex_trichotomy(rs[i].key, rs[j].key);
                } else {
                    lemma_lex_trichotomy(rs[i].key, rs[i + 1].key);
                }
            } else {
                lemma_lex_trichotomy(rs[i].key, rs[j].key);
            }
            assert(false);
        }
        assert(0 <= i < rs.len() - 1 && rs[i].key == rs[i + 1].key);
    }
    if exists|k: int| 0 <= k < rs.len() - 1 && (#[trigger] rs[k].key) == rs[k + 1].key {
        let k = choose|k: int| 0 <= k < rs.len() - 1 && (#[trigger] rs[k].key) == rs[k + 1].key;
        assert(0 <= k < k + 1 < rs.len() && rs[k].key == rs[k + 1].key);
    }
}

/// A sorted sequence without key collisions has strictly ascending keys.
pub proof fn lemma_keys_strictly_sorted(rs: Seq<RecModel>)
    requires
        sorted_by(rs, rec_le_ff()),
        !has_dup_keys(rs),
    ensures
        crate::layout::keys_sorted(rs),
{
    assert forall|i: int, j: int| 0 <= i < j < rs.len() implies lex_lt(
        #[trigger] rs[i].key,
        #[trigger] rs[j].key,
    ) by {
        lemma_sorted_rec_le(rs, i, j);
        assert(rs[i].key != rs[j].key);
    }
}

/// Keeps the last record offered for each (key, identifier) pair.
#[verifier::loop_isolation(false)]
fn dedup_records(bs: &Vec<IndexRecord>) -> (r: Vec<IndexRecord>)
    ensures
        r.deep_view() == dedup_recs(bs.deep_view()),
{
    let ghost bsv = bs.deep_view();
    let mut out: Vec<IndexRecord> = Vec::new();
    let mut k: usize = bs.len();
    proof {
        assert(bsv.skip(bsv.len() as int) =~= Seq::<RecModel>::empty());
    }
    while k > 0
        invariant
            0 <= k <= bs@.len(),
            out.deep_view() == dedup_recs(bsv.skip(k as int)),
        decreases k,
    {
        k = k - 1;
        let ghost tail = bsv.skip(k as int + 1);
        let ghost cur = bsv[k as int];
        let mut found = false;
        let mut j: usize = 0;
        while j < out.len()
            invariant
                0 <= j <= out@.len(),
                found ==> contains_pair(out.deep_view(), cur.key, cur.id),
                !found ==> forall|t: int|
                    0 <= t < j ==> !(#[trigger] out.deep_view()[t].key == cur.key
                        && out.deep_view()[t].id == cur.id),
            decreases out@.len() - j,
        {
            if bytes_eq(&out[j].key, &bs[k].key) && out[j].id == bs[k].id {
                found = true;
                proof {
                    assert(out.deep_view()[j as int].key == cur.key
                        && out.deep_view()[j as int].id == cur.id);
                }
            }
            j = j + 1;
        }
        proof {
            assert(found == contains_pair(out.deep_view(), cur.key, cur.id));
            lemma_dedup_recs(tail);
            assert(found == contains_pair(tail, cur.key, cur.id));
            assert(bsv.skip(k as int).drop_first() =~= tail);
            assert(bsv.skip(k as int)[0] == cur);
        }
        if !found {
            let rec = IndexRecord { key: copy_bytes(&bs[k].key), aux: bs[k].aux, id: bs[k].id };
            let ghost before = out.deep_view();
            out.insert(0, rec);
            proof {
                assert(out.deep_view() =~= seq![cur] + before);
            }
        }
    }
    proof {
        assert(bsv.skip(0) =~= bsv);
    }
    out
}

/// Counts the records of `ds` whose key equals `key`.
#[verifier::loop_isolation(false)]
fn count_with_key(ds: &Vec<IndexRecord>, key: &Vec<u8>) -> (r: usize)
    ensures
        r as nat == group_size(ds.deep_view(), key@),
{
    let ghost dsv = ds.deep_view();
    let mut cnt: usize = 0;
    let mut i: usize = 0;
    proof {
        reveal(Seq::filter);
        assert(dsv.take(0) =~= Seq::<RecModel>::empty());
    }
    while i < ds.len()
        invariant
            0 <= i <= ds@.len(),
            cnt as nat == group_size(dsv.take(i as int), key@),
            cnt <= i,
        decreases ds@.len() - i,
    {
        proof {
            reveal(Seq::filter);
            assert(dsv.take(i + 1).drop_last() =~= dsv.take(i as int));
            assert(dsv.take(i + 1).last() == dsv[i as int]);
        }
        if bytes_eq(&ds[i].key, key) {
            cnt = cnt + 1;
        }
        i = i + 1;
    }
    proof {
        assert(dsv.take(ds@.len() as int) =~= dsv);
    }
    cnt
}

/// Counts the records of `ds` whose key equals `key` and whose identifier
/// is below `id`: the disambiguation rank.
#[verifier::loop_isolation(false)]
fn count_with_key_below(ds: &Vec<IndexRecord>, key: &Vec<u8>, id: u64) -> (r: usize)
    ensures
        r as nat == id_rank(ds.deep_view(), key@, id),
{
    let ghost dsv = ds.deep_view();
    let mut cnt: usize = 0;
    let mut i: usize = 0;
    proof {
        reveal(Seq::filter);
        assert(dsv.take(0) =~= Seq::<RecModel>::empty());
    }
    while i < ds.len()
        invariant
            0 <= i <= ds@.len(),
            cnt as nat == id_rank(dsv.take(i as int), key@, id),
            cnt <= i,
        decreases ds@.len() - i,
    {
        proof {
            reveal(Seq::filter);
            assert(dsv.take(i + 1).drop_last() =~= dsv.take(i as int));
            assert(dsv.take(i + 1).last() == dsv[i as int]);
        }
        if bytes_eq(&ds[i].key, key) && ds[i].id < id {
            cnt = cnt + 1;
        }
        i = i + 1;
    }
    proof {
        assert(dsv.take(ds@.len() as int) =~= dsv);
    }
    cnt
}

/// Rewrites every deduplicated record with its final key.
#[verifier::loop_isolation(false)]
fn assign_final_keys(ds: &Vec<IndexRecord>) -> (r: Vec<IndexRecord>)
    ensures
        r.deep_view() == final_recs(ds.deep_view()),
{
    let ghost dsv = ds.deep_view();
    let mut out: Vec<IndexRecord> = Vec::new();
    let mut i: usize = 0;
    while i < ds.len()
        invariant
            0 <= i <= ds@.len(),
            out.deep_view() =~= final_recs(dsv).take(i as int),
        decreases ds@.len() - i,
    {
        let ghost cur = dsv[i as int];
        let gs = count_with_key(ds, &ds[i].key);
        let key: Vec<u8>;
        if gs <= 1 {
            key = copy_bytes(&ds[i].key);
        } else {
            let rank = count_with_key_below(ds, &ds[i].key, ds[i].id);
            let mut kk = copy_bytes(&ds[i].key);
            kk.push(DASH_BYTE);
            let digits = dec_min_exec(rank as u64);
            let mut t: usize = 0;
            while t < digits.len()
                invariant
                    0 <= t <= digits@.len(),
                    kk@ =~= cur.key + seq![DASH_BYTE] + digits@.take(t as int),
                decreases digits@.len() - t,
            {
                kk.push(digits[t]);
                assert(kk@ =~= cur.key + seq![DASH_BYTE] + digits@.take(t + 1));
                t = t + 1;
            }
            kk.push(DASH_BYTE);
            kk.push(ds[i].aux);
            proof {
                assert(digits@.take(digits@.len() as int) =~= digits@);
                assert(rank as nat == id_rank(dsv, cur.key, cur.id));
                assert(kk@ =~= cur.key + seq![DASH_BYTE] + dec_min(id_rank(dsv, cur.key, cur.id))
                    + seq![DASH_BYTE] + seq![cur.aux]);
            }
            key = kk;
        }
        proof {
            assert(key@ == final_key(dsv, cur));
        }
        out.push(IndexRecord { key, aux: ds[i].aux, id: ds[i].id });
        proof {
            assert(final_recs(dsv)[i as int] == RecModel {
                key: final_key(dsv, cur),
                aux: cur.aux,
                id: cur.id,
            });
            assert(out.deep_view() =~= final_recs(dsv).take(i + 1));
        }
        i = i + 1;
    }
    proof {
        assert(final_recs(dsv).take(ds@.len() as int) =~= final_recs(dsv));
    }
    out
}

/// Inserting an element into a sequence adds it to the sequence's
/// multiset.
proof fn lemma_to_multiset_insert(s: Seq<RecModel>, p: int, e: RecModel)
    requires
        0 <= p <= s.len(),
    ensures
        s.insert(p, e).to_multiset() == s.to_multiset().insert(e),
{
    broadcast use vstd::seq_lib::group_to_multiset_ensures;

    let t = s.insert(p, e);
    assert(t.remove(p) =~= s);
    assert(t[p] == e);
    assert(t.remove(p).to_multiset() == t.to_multiset().remove(t[p]));
    assert(t.contains(e));
    assert(t.to_multiset().count(e) > 0);
    assert(t.to_multiset() =~= s.to_multiset().insert(e)) by {
        assert(t.to_multiset().remove(e).insert(e) =~= t.to_multiset());
    }
}

/// Sorts records by `rec_le` with an insertion sort; the result is
/// exactly the canonical sorted permutation.
#[verifier::loop_isolation(false)]
fn sort_records(rs: Vec<IndexRecord>) -> (r: Vec<IndexRecord>)
    ensures
        r.deep_view() == rs.deep_view().sort_by(rec_le_ff()),
{
    broadcast use vstd::seq_lib::group_to_multiset_ensures;

    let ghost orig = rs.deep_view();
    let mut src = rs;
    let mut out: Vec<IndexRecord> = Vec::new();
    proof {
        lemma_rec_le_total_ordering();
        assert(out.deep_view().to_multiset().add(src.deep_view().to_multiset()) =~= orig
            .to_multiset());
    }
    while src.len() > 0
        invariant
            sorted_by(out.deep_view(), rec_le_ff()),
            out.deep_view().to_multiset().add(src.deep_view().to_multiset()) == orig.to_multiset(),
        decreases src@.len(),
    {
        let ghost src_before = src.deep_view();
        let x_opt = src.pop();
        let x = match x_opt {
            Some(x) => x,
            None => {
                proof {
                    assert(false);
                }
                unreached()
            },
        };
        proof {
            assert(src.deep_view() =~= src_before.drop_last());
            assert(x.deep_view() == src_before.last());
            assert(src_before.drop_last().push(src_before.last()) =~= src_before);
            assert(src_before.to_multiset() == src.deep_view().to_multiset().insert(x@));
        }
        let mut p: usize = 0;
        let mut scanning = true;
        while scanning && p < out.len()
            invariant
                0 <= p <= out@.len(),
                forall|t: int| 0 <= t < p ==> rec_le(#[trigger] out.deep_view()[t], x@),
                !scanning ==> p < out@.len() && !rec_le(out.deep_view()[p as int], x@),
            decreases out@.len() - p, (if scanning { 1int } else { 0 }),
        {
            if rec_le_exec(&out[p], &x) {
                p = p + 1;
            } else {
                scanning = false;
            }
        }
        let ghost out_before = out.deep_view();
        out.insert(p, x);
        proof {
            assert(out.deep_view() =~= out_before.insert(p as int, x@));
            lemma_to_multiset_insert(out_before, p as int, x@);
            // the new element fits between its neighbours
            assert forall|i: int, j: int|
                0 <= i < j < out.deep_view().len() implies rec_le_ff()(
                out.deep_view()[i],
                out.deep_view()[j],
            ) by {
                let dv = out.deep_view();
                let pp = p as int;
                assert(forall|t: int| 0 <= t < pp ==> #[trigger] dv[t] == out_before[t]);
                assert(forall|t: int| pp < t < dv.len() ==> #[trigger] dv[t] == out_before[t - 1]);
                assert(dv[pp] == x@);
                if pp < out_before.len() {
                    assert(rec_le_ff()(x@, out_before[pp]) || rec_le_ff()(out_before[pp], x@));
                    assert(rec_le(x@, out_before[pp]));
                }
                if j < pp {
                    assert(rec_le_ff()(out_before[i], out_before[j]));
                } else if i > pp {
                    assert(rec_le_ff()(out_before[i - 1], out_before[j - 1]));
                } else if i == pp && j > pp {
                    // x versus a record at or after the old position p
                    if j - 1 > pp {
                        assert(rec_le_ff()(out_before[pp], out_before[j - 1]));
                        assert(rec_le(x@, out_before[j - 1]));
                    }
                } else if i < pp && j == pp {
                    assert(rec_le(dv[i], x@));
                } else if i < pp && j > pp {
                    assert(rec_le_ff()(out_before[i], out_before[j - 1]));
                }
                assert(rec_le(dv[i], dv[j]));
            }
            assert(out.deep_view().to_multiset().add(src.deep_view().to_multiset())
                =~= orig.to_multiset());
        }
    }
    proof {
        assert(src.deep_view().to_multiset() =~= Multiset::<RecModel>::empty());
        assert(out.deep_view().to_multiset() =~= orig.to_multiset());
        orig.lemma_sort_by_ensures(rec_le_ff());
        lemma_sorted_unique(out.deep_view(), orig.sort_by(rec_le_ff()), rec_le_ff());
    }
    out
}

/// Serializes one record as a line with key field width `kw` and
/// identifier width `w`.
#[verifier::loop_isolation(false)]
fn encode_line_exec(rec: &IndexRecord, kw: usize, w: usize) -> (r: Vec<u8>)
    requires
        rec@.key.len() <= kw,
        1 <= w <= MAX_ID_WIDTH,
        kw + w + 4 <= usize::MAX,
    ensures
        r@ == encode_line(rec@, kw as int, w as int),
        r@.len() == kw + w + 4,
{
    let mut line = copy_bytes(&rec.key);
    let mut p: usize = rec.key.len();
    while p < kw
        invariant
            rec@.key.len() <= p <= kw,
            line@ =~= rec@.key + spec_pad(p - rec@.key.len()),
        decreases kw - p,
    {
        line.push(SPACE_BYTE);
        assert(line@ =~= rec@.key + spec_pad(p + 1 - rec@.key.len()));
        p = p + 1;
    }
    line.push(SPACE_BYTE);
    line.push(rec.aux);
    line.push(SPACE_BYTE);
    let mut digits = dec_fixed_exec(rec.id, w);
    proof {
        crate::keybytes::lemma_dec_fixed_len(rec.id as nat, w as nat);
    }
    line.append(&mut digits);
    line.push(NEWLINE_BYTE);
    proof {
        assert(line@ =~= encode_line(rec@, kw as int, w as int));
    }
    line
}

/// Builds the serialized index for `entities` with identifiers encoded in
/// `id_width` digits.
///
/// The returned bytes (or refusal) are exactly `spec_build` of the
/// entities: names are case folded into base keys, the last record
/// offered per (base key, identifier) wins, colliding base keys get
/// `-<rank>-<flag>` suffixes with ranks assigned by ascending identifier,
/// and the records are serialized in strictly ascending key order, so two
/// builds from the same input are byte-identical.
#[verifier::loop_isolation(false)]
#[verifier::rlimit(100)]
pub fn build(entities: &Vec<Entity>, id_width: usize) -> (r: Result<Vec<u8>, BuildError>)
    requires
        1 <= id_width <= MAX_ID_WIDTH,
    ensures
        ({
            let res = spec_build(entities.deep_view(), id_width as int);
            match r {
                Ok(bytes) => res == Ok::<Seq<u8>, BuildError>(bytes@),
                Err(e) => res == Err::<Seq<u8>, BuildError>(e),
            }
        }),
{
    let ghost es = entities.deep_view();
    let ghost w = id_width as int;
    let n_ents = entities.len();
    proof {
        assert(es.len() == entities@.len());
        assert(forall|t: int| 0 <= t < es.len() ==> #[trigger] es[t] == entities@[t]@);
    }

    // refuse bad names first, then bad flags, then over-wide identifiers
    let mut i: usize = 0;
    while i < n_ents
        invariant
            0 <= i <= n_ents,
            n_ents == es.len(),
            forall|t: int| 0 <= t < i ==> name_ok(#[trigger] es[t].name),
        decreases n_ents - i,
    {
        if !name_ok_exec(&entities[i].name) {
            proof {
                assert(!name_ok(es[i as int].name));
            }
            return Err(BuildError::InvalidName);
        }
        i = i + 1;
    }
    let mut i: usize = 0;
    while i < n_ents
        invariant
            0 <= i <= n_ents,
            n_ents == es.len(),
            forall|t: int| 0 <= t < i ==> aux_ok(#[trigger] es[t].aux),
        decreases n_ents - i,
    {
        let a = entities[i].aux;
        if !(0x21 <= a && a <= 0x7e) || (0x41 <= a && a <= 0x5a) {
            proof {
                assert(!aux_ok(es[i as int].aux));
            }
            return Err(BuildError::InvalidFlag);
        }
        i = i + 1;
    }
    let limit = pow10_exec(id_width);
    let mut i: usize = 0;
    while i < n_ents
        invariant
            0 <= i <= n_ents,
            n_ents == es.len(),
            limit as nat == pow10(w as nat),
            forall|t: int| 0 <= t < i ==> (#[trigger] es[t].id as nat) < pow10(w as nat),
        decreases n_ents - i,
    {
        if entities[i].id >= limit {
            proof {
                assert((es[i as int].id as nat) >= pow10(w as nat));
            }
            return Err(BuildError::EncodingOverflow);
        }
        i = i + 1;
    }

    // base records: case-folded names
    let mut bs: Vec<IndexRecord> = Vec::new();
    let mut i: usize = 0;
    while i < n_ents
        invariant
            0 <= i <= n_ents,
            n_ents == es.len(),
            bs.deep_view() =~= base_recs(es).take(i as int),
        decreases n_ents - i,
    {
        bs.push(
            IndexRecord {
                key: fold_bytes(&entities[i].name),
                aux: entities[i].aux,
                id: entities[i].id,
            },
        );
        proof {
            assert(bs.deep_view() =~= base_recs(es).take(i + 1));
        }
        i = i + 1;
    }
    proof {
        assert(base_recs(es).take(es.len() as int) =~= base_recs(es));
    }

    let ds = dedup_records(&bs);
    let fs = assign_final_keys(&ds);
    let ghost fsv = fs.deep_view();
    let sorted = sort_records(fs);
    let ghost sortedv = sorted.deep_view();
    proof {
        lemma_rec_le_total_ordering();
        fsv.lemma_sort_by_ensures(rec_le_ff());
    }

    // every record that will be serialized carries an identifier that was
    // validated above
    proof {
        lemma_dedup_recs(bs.deep_view());
        assert forall|t: int| 0 <= t < sortedv.len() implies (#[trigger] sortedv[t].id as nat)
            < pow10(w as nat) by {
            assert(sortedv.contains(sortedv[t]));
            assert(fsv.contains(sortedv[t]));
            let x = sortedv[t];
            let j = choose|j: int| 0 <= j < fsv.len() && fsv[j] == x;
            assert(fsv[j].id == ds.deep_view()[j].id);
            assert(bs.deep_view().contains(ds.deep_view()[j]));
            let k = choose|k: int| 0 <= k < bs.deep_view().len() && bs.deep_view()[k] == ds.deep_view()[j];
            assert(bs.deep_view()[k].id == es[k].id);
        }
    }

    // refuse key collisions: on a sorted sequence it is enough to look at
    // neighbours
    if sorted.len() > 0 {
        let mut t: usize = 0;
        while t < sorted.len() - 1
            invariant
                sorted@.len() >= 1,
                0 <= t <= sortedv.len() - 1,
                forall|k: int| 0 <= k < t ==> (#[trigger] sortedv[k].key) != sortedv[k + 1].key,
            decreases sortedv.len() - t,
        {
            if bytes_eq(&sorted[t].key, &sorted[t + 1].key) {
                proof {
                    assert(sortedv[t as int].key == sortedv[t as int + 1].key);
                    lemma_sorted_dup_adjacent(sortedv);
                    assert(has_dup_keys(sortedv));
                }
                return Err(BuildError::DuplicateKey);
            }
            t = t + 1;
        }
    }
    proof {
        lemma_sorted_dup_adjacent(sortedv);
        assert(!has_dup_keys(sortedv));
    }

    // the key field is as wide as the widest key
    let mut kw: usize = 0;
    let mut i: usize = 0;
    while i < sorted.len()
        invariant
            0 <= i <= sortedv.len(),
            kw as nat == max_key_len(sortedv.take(i as int)),
        decreases sortedv.len() - i,
    {
        proof {
            assert(sortedv.take(i + 1).drop_last() =~= sortedv.take(i as int));
            assert(sortedv.take(i + 1).last() == sortedv[i as int]);
        }
        if sorted[i].key.len() > kw {
            kw = sorted[i].key.len();
        }
        i = i + 1;
    }
    proof {
        assert(sortedv.take(sortedv.len() as int) =~= sortedv);
    }

    if sorted.len() == 0 {
        let empty: Vec<u8> = Vec::new();
        proof {
            assert(sortedv.len() * (kw as int + w + 4) == 0) by (nonlinear_arith)
                requires
                    sortedv.len() == 0,
            ;
            assert(encode_index(sortedv, kw as int, w) =~= empty@);
        }
        return Ok(empty);
    }

    // refuse files that cannot fit in one address space
    let ghost ll = kw as int + w + 4;
    if kw > usize::MAX - id_width - 4 {
        proof {
            assert(sortedv.len() * ll > usize::MAX) by (nonlinear_arith)
                requires
                    sortedv.len() >= 1,
                    ll > usize::MAX as int,
            ;
        }
        return Err(BuildError::TooLarge);
    }
    let line_len = kw + id_width + 4;
    if sorted.len() > usize::MAX / line_len {
        proof {
            lemma_fundamental_div_mod(usize::MAX as int, ll);
            assert(sortedv.len() * ll > usize::MAX) by (nonlinear_arith)
                requires
                    sortedv.len() >= usize::MAX as int / ll + 1,
                    ll >= 1,
                    usize::MAX as int == ll * (usize::MAX as int / ll) + usize::MAX as int % ll,
                    0 <= usize::MAX as int % ll < ll,
            ;
        }
        return Err(BuildError::TooLarge);
    }
    proof {
        lemma_fundamental_div_mod(usize::MAX as int, ll);
        assert(sortedv.len() * ll <= usize::MAX) by (nonlinear_arith)
            requires
                sortedv.len() <= usize::MAX as int / ll,
                ll >= 1,
                usize::MAX as int == ll * (usize::MAX as int / ll) + usize::MAX as int % ll,
                0 <= usize::MAX as int % ll,
        ;
        lemma_max_key_len(sortedv);
    }

    // serialize in key order
    let mut out: Vec<u8> = Vec::new();
    let mut i: usize = 0;
    while i < sorted.len()
        invariant
            0 <= i <= sortedv.len(),
            out@ =~= encode_index(sortedv.take(i as int), kw as int, w),
        decreases sortedv.len() - i,
    {
        proof {
            assert(sortedv[i as int].key.len() <= max_key_len(sortedv));
            assert(sorted@[i as int]@ == sortedv[i as int]);
        }
        let mut line = encode_line_exec(&sorted[i], kw, id_width);
        out.append(&mut line);
        proof {
            assert(sortedv.take(i + 1).drop_last() =~= sortedv.take(i as int));
            assert(sortedv.take(i + 1).last() == sortedv[i as int]);
            assert(out@ =~= encode_index(sortedv.take(i + 1), kw as int, w));
        }
        i = i + 1;
    }
    proof {
        assert(sortedv.take(sortedv.len() as int) =~= sortedv);
    }
    Ok(out)
}

/// What the builder produces for the companion names file: the final keys
/// alone, one per line, in the same order and refused under exactly the
/// same conditions as the index file, so that the two files stay in
/// lockstep.
pub open spec fn spec_build_names(es: Seq<EntModel>, w: int) -> Result<Seq<u8>, BuildError> {
    if exists|i: int| 0 <= i < es.len() && !name_ok(#[trigger] es[i].name) {
        Err(BuildError::InvalidName)
    } else if exists|i: int| 0 <= i < es.len() && !aux_ok(#[trigger] es[i].aux) {
        Err(BuildError::InvalidFlag)
    } else if exists|i: int| 0 <= i < es.len() && (#[trigger] es[i].id as nat) >= pow10(w as nat) {
        Err(BuildError::EncodingOverflow)
    } else {
        let sorted = final_recs(dedup_recs(base_recs(es))).sort_by(rec_le_ff());
        if has_dup_keys(sorted) {
            Err(BuildError::DuplicateKey)
        } else {
            let kw = max_key_len(sorted) as int;
            if sorted.len() * (kw + w + 4) > usize::MAX {
                Err(BuildError::TooLarge)
            } else {
                Ok(encode_names(sorted))
            }
        }
    }
}

/// Builds the companion names file for `entities`: the final keys, one
/// per line, in index order.
#[verifier::loop_isolation(false)]
#[verifier::rlimit(100)]
pub fn build_names(entities: &Vec<Entity>, id_width: usize) -> (r: Result<Vec<u8>, BuildError>)
    requires
        1 <= id_width <= MAX_ID_WIDTH,
    ensures
        ({
            let res = spec_build_names(entities.deep_view(), id_width as int);
            match r {
                Ok(bytes) => res == Ok::<Seq<u8>, BuildError>(bytes@),
                Err(e) => res == Err::<Seq<u8>, BuildError>(e),
            }
        }),
{
    let ghost es = entities.deep_view();
    let ghost w = id_width as int;
    let n_ents = entities.len();
    proof {
        assert(es.len() == entities@.len());
        assert(forall|t: int| 0 <= t < es.len() ==> #[trigger] es[t] == entities@[t]@);
    }
    let mut i: usize = 0;
    while i < n_ents
        invariant
            0 <= i <= n_ents,
            n_ents == es.len(),
            forall|t: int| 0 <= t < i ==> name_ok(#[trigger] es[t].name),
        decreases n_ents - i,
    {
        if !name_ok_exec(&entities[i].name) {
            proof {
                assert(!name_ok(es[i as int].name));
            }
            return Err(BuildError::InvalidName);
        }
        i = i + 1;
    }
    let mut i: usize = 0;
    while i < n_ents
        invariant
            0 <= i <= n_ents,
            n_ents == es.len(),
            forall|t: int| 0 <= t < i ==> aux_ok(#[trigger] es[t].aux),
        decreases n_ents - i,
    {
        let a = entities[i].aux;
        if !(0x21 <= a && a <= 0x7e) || (0x41 <= a && a <= 0x5a) {
            proof {
                assert(!aux_ok(es[i as int].aux));
            }
            return Err(BuildError::InvalidFlag);
        }
        i = i + 1;
    }
    let limit = pow10_exec(id_width);
    let mut i: usize = 0;
    while i < n_ents
        invariant
            0 <= i <= n_ents,
            n_ents == es.len(),
            limit as nat == pow10(w as nat),
            forall|t: int| 0 <= t < i ==> (#[trigger] es[t].id as nat) < pow10(w as nat),
        decreases n_ents - i,
    {
        if entities[i].id >= limit {
            proof {
                assert((es[i as int].id as nat) >= pow10(w as nat));
            }
            return Err(BuildError::EncodingOverflow);
        }
        i = i + 1;
    }
    let mut bs: Vec<IndexRecord> = Vec::new();
    let mut i: usize = 0;
    while i < n_ents
        invariant
            0 <= i <= n_ents,
            n_ents == es.len(),
            bs.deep_view() =~= base_recs(es).take(i as int),
        decreases n_ents - i,
    {
        bs.push(
            IndexRecord {
                key: fold_bytes(&entities[i].name),
                aux: entities[i].aux,
                id: entities[i].id,
            },
        );
        proof {
            assert(bs.deep_view() =~= base_recs(es).take(i + 1));
        }
        i = i + 1;
    }
    proof {
        assert(base_recs(es).take(es.len() as int) =~= base_recs(es));
    }
    let ds = dedup_records(&bs);
    let fs = assign_final_keys(&ds);
    let ghost fsv = fs.deep_view();
    let sorted = sort_records(fs);
    let ghost sortedv = sorted.deep_view();
    proof {
        lemma_rec_le_total_ordering();
        fsv.lemma_sort_by_ensures(rec_le_ff());
    }
    if sorted.len() > 0 {
        let mut t: usize = 0;
        while t < sorted.len() - 1
            invariant
                sorted@.len() >= 1,
                0 <= t <= sortedv.len() - 1,
                forall|k: int| 0 <= k < t ==> (#[trigger] sortedv[k].key) != sortedv[k + 1].key,
            decreases sortedv.len() - t,
        {
            if bytes_eq(&sorted[t].key, &sorted[t + 1].key) {
                proof {
                    assert(sortedv[t as int].key == sortedv[t as int + 1].key);
                    lemma_sorted_dup_adjacent(sortedv);
                    assert(has_dup_keys(sortedv));
                }
                return Err(BuildError::DuplicateKey);
            }
            t = t + 1;
        }
    }
    proof {
        lemma_sorted_dup_adjacent(sortedv);
        assert(!has_dup_keys(sortedv));
    }
    let mut kw: usize = 0;
    let mut i: usize = 0;
    while i < sorted.len()
        invariant
            0 <= i <= sortedv.len(),
            kw as nat == max_key_len(sortedv.take(i as int)),
        decreases sortedv.len() - i,
    {
        proof {
            assert(sortedv.take(i + 1).drop_last() =~= sortedv.take(i as int));
            assert(sortedv.take(i + 1).last() == sortedv[i as int]);
        }
        if sorted[i].key.len() > kw {
            kw = sorted[i].key.len();
        }
        i = i + 1;
    }
    proof {
        assert(sortedv.take(sortedv.len() as int) =~= sortedv);
    }
    if sorted.len() == 0 {
        let empty: Vec<u8> = Vec::new();
        proof {
            assert(sortedv.len() * (kw as int + w + 4) == 0) by (nonlinear_arith)
                requires
                    sortedv.len() == 0,
            ;
            assert(encode_names(sortedv) =~= empty@);
        }
        return Ok(empty);
    }
    let ghost ll = kw as int + w + 4;
    if kw > usize::MAX - id_width - 4 {
        proof {
            assert(sortedv.len() * ll > usize::MAX) by (nonlinear_arith)
                requires
                    sortedv.len() >= 1,
                    ll > usize::MAX as int,
            ;
        }
        return Err(BuildError::TooLarge);
    }
    let line_len = kw + id_width + 4;
    if sorted.len() > usize::MAX / line_len {
        proof {
            lemma_fundamental_div_mod(usize::MAX as int, ll);
            assert(sortedv.len() * ll > usize::MAX) by (nonlinear_arith)
                requires
                    sortedv.len() >= usize::MAX as int / ll + 1,
                    ll >= 1,
                    usize::MAX as int == ll * (usize::MAX as int / ll) + usize::MAX as int % ll,
                    0 <= usize::MAX as int % ll < ll,
            ;
        }
        return Err(BuildError::TooLarge);
    }
    proof {
        lemma_fundamental_div_mod(usize::MAX as int, ll);
        assert(sortedv.len() * ll <= usize::MAX) by (nonlinear_arith)
            requires
                sortedv.len() <= usize::MAX as int / ll,
                ll >= 1,
                usize::MAX as int == ll * (usize::MAX as int / ll) + usize::MAX as int % ll,
                0 <= usize::MAX as int % ll,
        ;
    }
    let mut out: Vec<u8> = Vec::new();
    let mut i: usize = 0;
    while i < sorted.len()
        invariant
            0 <= i <= sortedv.len(),
            out@ =~= encode_names(sortedv.take(i as int)),
        decreases sortedv.len() - i,
    {
        let mut line = copy_bytes(&sorted[i].key);
        out.append(&mut line);
        out.push(NEWLINE_BYTE);
        proof {
            assert(sortedv.take(i + 1).drop_last() =~= sortedv.take(i as int));
            assert(sortedv.take(i + 1).last() == sortedv[i as int]);
            assert(out@ =~= encode_names(sortedv.take(i + 1)));
        }
        i = i + 1;
    }
    proof {
        assert(sortedv.take(sortedv.len() as int) =~= sortedv);
    }
    Ok(out)
}

} // verus!
