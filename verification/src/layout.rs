//! The on-disk layout of the index.
//!
//! An index file is a sequence of lines of identical byte length.  A line
//! holds a key left-justified in a fixed-width field and padded with
//! spaces, one space, a one-byte flag, one space, the identifier as a
//! zero-padded decimal of `id_width` digits, and a terminating line feed:
//!
//! ```text
//! <key><spaces><SP><flag><SP><id digits>\n
//! ```
//!
//! With line length `l` and identifier width `w`, the key field spans
//! `[0, l - w - 4]`, the flag sits at `l - w - 3`, and the digits span
//! `[l - w - 1, l - 1)`.  Lines are sorted by strictly ascending key, and
//! no two lines share a key.

use vstd::prelude::*;
use crate::keybytes::{
    count_until, dec_fixed, dec_val, find_byte, fold, fold_byte, is_digit, is_key_byte,
    lemma_count_until, lemma_count_until_is, lemma_dec_fixed, lemma_pow10_increases,
    lemma_pow10_u64, lex_lt, pow10, valid_key, MAX_ID_WIDTH, NEWLINE_BYTE, SPACE_BYTE,
};

verus! {

/// The logical content of one line: a key, a one-byte flag, and an
/// identifier.
#[verifier::ext_equal]
pub struct RecModel {
    pub key: Seq<u8>,
    pub aux: u8,
    pub id: u64,
}

/// One record handed to the builder after normalization: the executable
/// counterpart of `RecModel`.
pub struct IndexRecord {
    pub key: Vec<u8>,
    pub aux: u8,
    pub id: u64,
}

impl View for IndexRecord {
    type V = RecModel;

    open spec fn view(&self) -> RecModel {
        RecModel { key: self.key@, aux: self.aux, id: self.id }
    }
}

impl DeepView for IndexRecord {
    type V = RecModel;

    open spec fn deep_view(&self) -> RecModel {
        self@
    }
}

/// A record that fits the layout: a valid key of at most `kw` bytes, a
/// printable flag, and an identifier of at most `w` digits.
pub open spec fn valid_rec(r: RecModel, kw: int, w: int) -> bool {
    &&& valid_key(r.key)
    &&& r.key.len() <= kw
    &&& is_key_byte(r.aux)
    &&& (r.id as nat) < pow10(w as nat)
}

/// A well-formed line of identifier width `w`: key, padding, flag and
/// digits all in their fields, terminated by the only line feed.
pub open spec fn wf_line(line: Seq<u8>, w: int) -> bool {
    let ll = line.len() as int;
    let kf = ll - w - 4;  // index of the separator after the key field
    let k = count_until(line, SPACE_BYTE) as int;  // key length
    &&& 1 <= w <= MAX_ID_WIDTH
    &&& ll >= w + 5
    &&& 1 <= k <= kf
    &&& forall|i: int|
        0 <= i < k ==> is_key_byte(#[trigger] line[i]) && fold_byte(line[i]) == line[i]
    &&& forall|i: int| k <= i <= kf ==> line[i] == SPACE_BYTE
    &&& is_key_byte(line[kf + 1])
    &&& line[kf + 2] == SPACE_BYTE
    &&& forall|i: int| kf + 3 <= i < ll - 1 ==> is_digit(#[trigger] line[i])
    &&& line[ll - 1] == NEWLINE_BYTE
}

/// The key stored in a line: its bytes up to the first space.
pub open spec fn line_key(line: Seq<u8>) -> Seq<u8> {
    line.subrange(0, count_until(line, SPACE_BYTE) as int)
}

/// The record stored in a well-formed line.
pub open spec fn line_rec(line: Seq<u8>, w: int) -> RecModel {
    let ll = line.len() as int;
    RecModel {
        key: line_key(line),
        aux: line[ll - w - 3],
        id: dec_val(line.subrange(ll - w - 1, ll - 1)) as u64,
    }
}

/// The line length of a file, derived from the first line feed (counting
/// the terminator itself).
pub open spec fn index_line_len(data: Seq<u8>) -> int {
    count_until(data, NEWLINE_BYTE) as int + 1
}

/// The number of lines in a file.
pub open spec fn num_recs(data: Seq<u8>) -> int {
    data.len() as int / index_line_len(data)
}

/// The bytes of line `i`.
pub open spec fn line_at(data: Seq<u8>, i: int) -> Seq<u8> {
    let l = index_line_len(data);
    data.subrange(i * l, (i + 1) * l)
}

/// The record stored in line `i`.
pub open spec fn rec_at(data: Seq<u8>, w: int, i: int) -> RecModel {
    line_rec(line_at(data, i), w)
}

/// The cheap structural facts a reader can check without scanning the
/// whole file: the file is non-empty, has a line feed, the line length
/// leaves room for all fields, and the file splits evenly into lines.
pub open spec fn wf_shape(data: Seq<u8>, w: int) -> bool {
    let l = index_line_len(data);
    &&& data.len() > 0
    &&& count_until(data, NEWLINE_BYTE) < data.len()
    &&& 1 <= w <= MAX_ID_WIDTH
    &&& l >= w + 5
    &&& data.len() as int % l == 0
}

/// A well-formed index file: empty, or structurally sound with every line
/// well formed and keys in strictly ascending lexicographic order.
pub open spec fn wf_index(data: Seq<u8>, w: int) -> bool {
    data.len() == 0 || {
        &&& wf_shape(data, w)
        &&& forall|i: int| 0 <= i < num_recs(data) ==> wf_line(#[trigger] line_at(data, i), w)
        &&& forall|i: int, j: int|
            0 <= i < j < num_recs(data) ==> lex_lt(
                line_key(#[trigger] line_at(data, i)),
                line_key(#[trigger] line_at(data, j)),
            )
    }
}

/// True when some line of `data` stores exactly the key `q`.
pub open spec fn index_has(data: Seq<u8>, q: Seq<u8>) -> bool {
    exists|i: int| 0 <= i < num_recs(data) && line_key(#[trigger] line_at(data, i)) == q
}

/// The outcome of a point lookup.
#[derive(Clone, Copy, PartialEq, Eq, Structural, Debug)]
pub enum Lookup {
    /// The key is stored; its flag and identifier follow.
    Found { aux: u8, id: u64 },
    /// The key is not stored (also the answer for an empty file).
    NotFound,
    /// The folded query cannot fit in the key field, so it cannot be
    /// stored; no line was read.
    KeyTooLong,
    /// The file violates the layout: no line feed, a line length with no
    /// room for the fields, a truncated final line, or non-digit bytes in
    /// an identifier field that had to be read.
    Malformed,
}

/// What a lookup returns on `data` for the raw query `q`: the query is
/// case folded, rejected without any read when it cannot fit, and
/// otherwise answered from the unique line holding it, if any.
pub open spec fn lookup_spec(data: Seq<u8>, q: Seq<u8>, w: int) -> Lookup {
    let nq = fold(q);
    let l = index_line_len(data);
    if data.len() == 0 {
        Lookup::NotFound
    } else if count_until(data, NEWLINE_BYTE) >= data.len() || l < w + 5 || data.len() as int % l
        != 0 {
        Lookup::Malformed
    } else if nq.len() > l - w - 2 {
        Lookup::KeyTooLong
    } else if index_has(data, nq) {
        let i = choose|i: int| 0 <= i < num_recs(data) && line_key(#[trigger] line_at(data, i)) == nq;
        Lookup::Found { aux: rec_at(data, w, i).aux, id: rec_at(data, w, i).id }
    } else {
        Lookup::NotFound
    }
}

/// `n` space bytes.
pub open spec fn spec_pad(n: int) -> Seq<u8> {
    Seq::new(n as nat, |i: int| SPACE_BYTE)
}

/// The serialized form of one record, with the key field `kw` bytes wide
/// and the identifier field `w` digits wide.
pub open spec fn encode_line(r: RecModel, kw: int, w: int) -> Seq<u8> {
    r.key + spec_pad(kw - r.key.len()) + seq![SPACE_BYTE, r.aux, SPACE_BYTE] + dec_fixed(
        r.id as nat,
        w as nat,
    ) + seq![NEWLINE_BYTE]
}

/// The serialized form of a whole record sequence.
pub open spec fn encode_index(rs: Seq<RecModel>, kw: int, w: int) -> Seq<u8>
    decreases rs.len(),
{
    if rs.len() == 0 {
        Seq::empty()
    } else {
        encode_index(rs.drop_last(), kw, w) + encode_line(rs.last(), kw, w)
    }
}

/// An encoded line has the declared width, is well formed, and decodes
/// back to the record it was made from.
pub proof fn lemma_encode_line(r: RecModel, kw: int, w: int)
    requires
        valid_rec(r, kw, w),
        1 <= w <= MAX_ID_WIDTH,
        1 <= kw,
    ensures
        encode_line(r, kw, w).len() == kw + w + 4,
        wf_line(encode_line(r, kw, w), w),
        count_until(encode_line(r, kw, w), SPACE_BYTE) == r.key.len(),
        count_until(encode_line(r, kw, w), NEWLINE_BYTE) == kw + w + 3,
        line_key(encode_line(r, kw, w)) == r.key,
        line_rec(encode_line(r, kw, w), w) == r,
{
    let line = encode_line(r, kw, w);
    let k = r.key.len() as int;
    let ll = kw + w + 4;
    lemma_dec_fixed(r.id as nat, w as nat);
    assert(line.len() == ll);
    assert forall|i: int| 0 <= i < k implies line[i] == r.key[i] by {}
    assert forall|i: int| k <= i <= kw implies line[i] == SPACE_BYTE by {
        if i < kw {
            assert(line[i] == spec_pad(kw - k)[i - k]);
        }
    }
    assert(line[kw + 1] == r.aux);
    assert(line[kw + 2] == SPACE_BYTE);
    assert forall|i: int| kw + 3 <= i < ll - 1 implies is_digit(line[i]) by {
        assert(line[i] == dec_fixed(r.id as nat, w as nat)[i - kw - 3]);
    }
    assert(line[ll - 1] == NEWLINE_BYTE);
    lemma_count_until_is(line, SPACE_BYTE, k);
    lemma_count_until_is(line, NEWLINE_BYTE, ll - 1);
    assert(line_key(line) =~= r.key);
    assert(line.subrange(ll - w - 1, ll - 1) =~= dec_fixed(r.id as nat, w as nat));
    lemma_pow10_u64();
    lemma_pow10_increases(w as nat, 19);
    assert(line_rec(line, w) =~= r);
}

/// Every record of `rs` fits the layout.
pub open spec fn all_valid(rs: Seq<RecModel>, kw: int, w: int) -> bool {
    forall|i: int| 0 <= i < rs.len() ==> valid_rec(#[trigger] rs[i], kw, w)
}

/// The keys of `rs` are in strictly ascending lexicographic order.
pub open spec fn keys_sorted(rs: Seq<RecModel>) -> bool {
    forall|i: int, j: int|
        0 <= i < j < rs.len() ==> lex_lt(#[trigger] rs[i].key, #[trigger] rs[j].key)
}

/// An encoded file is the concatenation of the encoded lines, in order.
pub proof fn lemma_encode_index_lines(rs: Seq<RecModel>, kw: int, w: int)
    requires
        all_valid(rs, kw, w),
        1 <= w <= MAX_ID_WIDTH,
        1 <= kw,
    ensures
        encode_index(rs, kw, w).len() == rs.len() * (kw + w + 4),
        forall|i: int|
            0 <= i < rs.len() ==> encode_index(rs, kw, w).subrange(
                i * (kw + w + 4),
                (i + 1) * (kw + w + 4),
            ) == encode_line(#[trigger] rs[i], kw, w),
    decreases rs.len(),
{
    let l = kw + w + 4;
    if rs.len() > 0 {
        let prefix = rs.drop_last();
        assert(all_valid(prefix, kw, w));
        lemma_encode_index_lines(prefix, kw, w);
        lemma_encode_line(rs.last(), kw, w);
        let data = encode_index(rs, kw, w);
        let pdata = encode_index(prefix, kw, w);
        assert(data.len() == pdata.len() + l);
        assert(rs.len() * l == (rs.len() - 1) * l + l) by (nonlinear_arith);
        assert forall|i: int|
            0 <= i < rs.len() implies data.subrange(i * l, (i + 1) * l) == encode_line(
            rs[i],
            kw,
            w,
        ) by {
            assert(i * l >= 0 && (i + 1) * l == i * l + l) by (nonlinear_arith)
                requires i >= 0 && l > 0;
            if i < rs.len() - 1 {
                assert((i + 1) * l <= (rs.len() - 1) * l) by (nonlinear_arith)
                    requires i + 1 <= rs.len() - 1 && l > 0;
                assert(data.subrange(i * l, (i + 1) * l) =~= pdata.subrange(i * l, (i + 1) * l));
                assert(prefix[i] == rs[i]);
            } else {
                assert(data.subrange(i * l, (i + 1) * l) =~= encode_line(rs[i], kw, w));
            }
        }
    }
}

/// Encoding valid, strictly sorted records yields a well-formed index
/// that decodes line by line to exactly those records.
pub proof fn lemma_encode_index_wf(rs: Seq<RecModel>, kw: int, w: int)
    requires
        all_valid(rs, kw, w),
        keys_sorted(rs),
        1 <= w <= MAX_ID_WIDTH,
        1 <= kw,
    ensures
        wf_index(encode_index(rs, kw, w), w),
        encode_index(rs, kw, w).len() == rs.len() * (kw + w + 4),
        rs.len() > 0 ==> index_line_len(encode_index(rs, kw, w)) == kw + w + 4,
        num_recs(encode_index(rs, kw, w)) == rs.len() || rs.len() == 0,
        forall|i: int| 0 <= i < rs.len() ==> rec_at(encode_index(rs, kw, w), w, i) == rs[i],
{
    let l = kw + w + 4;
    let data = encode_index(rs, kw, w);
    lemma_encode_index_lines(rs, kw, w);
    if rs.len() == 0 {
        assert(data.len() == 0) by {
            assert(rs.len() * l == 0) by (nonlinear_arith)
                requires rs.len() == 0;
        }
    } else {
        assert(data.len() == rs.len() * l);
        assert(data.len() >= l) by (nonlinear_arith)
            requires data.len() == rs.len() * l && rs.len() >= 1 && l > 0;
        // the first line fixes the file's line length
        let line0 = encode_line(rs[0], kw, w);
        lemma_encode_line(rs[0], kw, w);
        assert(data.subrange(0 * l, 1 * l) == line0);
        assert(data.subrange(0, l) == line0);
        lemma_count_until(line0, NEWLINE_BYTE);
        assert forall|i: int| 0 <= i < l - 1 implies data[i] != NEWLINE_BYTE by {
            assert(line0[i] == data.subrange(0, l)[i]);
        }
        assert(data[l - 1] == line0[l - 1]);
        lemma_count_until_is(data, NEWLINE_BYTE, l - 1);
        assert(index_line_len(data) == l);
        assert(data.len() as int % l == 0 && data.len() as int / l == rs.len()) by (nonlinear_arith)
            requires data.len() == rs.len() * l && l > 0 && rs.len() >= 0;
        assert(num_recs(data) == rs.len());
        assert forall|i: int| 0 <= i < num_recs(data) implies wf_line(#[trigger] line_at(data, i), w)
            && rec_at(data, w, i) == rs[i] by {
            assert(line_at(data, i) == encode_line(rs[i], kw, w));
            lemma_encode_line(rs[i], kw, w);
        }
        assert forall|i: int, j: int| 0 <= i < j < num_recs(data) implies lex_lt(
            line_key(#[trigger] line_at(data, i)),
            line_key(#[trigger] line_at(data, j)),
        ) by {
            lemma_encode_line(rs[i], kw, w);
            lemma_encode_line(rs[j], kw, w);
            assert(line_at(data, i) == encode_line(rs[i], kw, w));
            assert(line_at(data, j) == encode_line(rs[j], kw, w));
        }
    }
}

/// Decides `wf_line`: whether one line of identifier width `w` is well
/// formed.
#[verifier::loop_isolation(false)]
pub fn check_line(line: &Vec<u8>, id_width: usize) -> (r: bool)
    requires
        1 <= id_width <= MAX_ID_WIDTH,
    ensures
        r == wf_line(line@, id_width as int),
{
    let ll = line.len();
    if ll < id_width + 5 {
        return false;
    }
    let kf = ll - id_width - 4;
    let k = find_byte(line, SPACE_BYTE);
    if !(1 <= k && k <= kf) {
        return false;
    }
    let mut i: usize = 0;
    while i < k
        invariant
            0 <= i <= k,
            forall|t: int|
                0 <= t < i ==> is_key_byte(#[trigger] line@[t]) && fold_byte(line@[t]) == line@[t],
        decreases k - i,
    {
        let b = line[i];
        if !(0x21 <= b && b <= 0x7e) || (0x41 <= b && b <= 0x5a) {
            return false;
        }
        i = i + 1;
    }
    let mut i: usize = k;
    while i <= kf
        invariant
            k <= i <= kf + 1,
            forall|t: int| k <= t < i ==> #[trigger] line@[t] == SPACE_BYTE,
        decreases kf + 1 - i,
    {
        if line[i] != SPACE_BYTE {
            return false;
        }
        i = i + 1;
    }
    let aux = line[kf + 1];
    if !(0x21 <= aux && aux <= 0x7e) {
        return false;
    }
    if line[kf + 2] != SPACE_BYTE {
        return false;
    }
    let mut i: usize = kf + 3;
    while i < ll - 1
        invariant
            kf + 3 <= i <= ll - 1,
            forall|t: int| kf + 3 <= t < i ==> is_digit(#[trigger] line@[t]),
        decreases ll - 1 - i,
    {
        let b = line[i];
        if !(0x30 <= b && b <= 0x39) {
            return false;
        }
        i = i + 1;
    }
    if line[ll - 1] != NEWLINE_BYTE {
        return false;
    }
    true
}

} // verus!
