//! Seek-based binary search over a fixed-width index.
//!
//! The search itself is a pure state machine (`Searcher`): it hands out the
//! next line-aligned byte offset to read and consumes the line found there,
//! until it either matches the query, proves it absent, or detects a layout
//! violation.  `lookup` drives the machine over an in-memory image of the
//! file; a caller that keeps the file on disk performs the reads itself and
//! feeds the bytes through the same machine.

use vstd::prelude::*;
use crate::keybytes::{
    count_until, dec_val, fold, is_digit, lemma_count_until, lemma_count_until_is,
    lemma_dec_val_bound, lemma_lex_from_diff, lemma_lex_from_prefix, lemma_lex_transitive,
    lemma_lex_trichotomy, lemma_pow10_increases, lemma_pow10_u64, lex_lt, pow10, MAX_ID_WIDTH,
    NEWLINE_BYTE, SPACE_BYTE,
};
use crate::layout::{
    check_line, index_has, index_line_len, line_at, line_key, line_rec, lookup_spec, num_recs,
    rec_at, wf_index, wf_line, wf_shape, Lookup,
};
use crate::keybytes::{find_byte, take_bytes};
use crate::keybytes::{fold_bytes, lemma_fold_idempotent};
use vstd::arithmetic::div_mod::{
    lemma_basic_div, lemma_div_multiples_vanish_fancy, lemma_fundamental_div_mod,
    lemma_hoist_over_denominator,
};

verus! {

/// The result of a three-way comparison between a query and a stored key.
#[derive(Clone, Copy, PartialEq, Eq, Structural, Debug)]
pub enum KeyOrder {
    Less,
    Equal,
    Greater,
}

/// Compares a query against the key stored in a line: the line's key ends
/// at its first space byte (or at the end of the line if no space occurs),
/// and the order is plain byte-wise lexicographic order.
#[verifier::loop_isolation(false)]
pub fn compare_key_line(q: &Vec<u8>, line: &Vec<u8>) -> (r: KeyOrder)
    ensures
        r == KeyOrder::Equal <==> q@ == line_key(line@),
        r == KeyOrder::Less <==> lex_lt(q@, line_key(line@)),
        r == KeyOrder::Greater <==> lex_lt(line_key(line@), q@),
{
    let ghost key = line_key(line@);
    let mut i: usize = 0;
    loop
        invariant
            0 <= i <= line@.len(),
            i <= q@.len(),
            forall|j: int| 0 <= j < i ==> #[trigger] line@[j] != SPACE_BYTE,
            forall|j: int| 0 <= j < i ==> #[trigger] q@[j] == line@[j],
        decreases line@.len() - i,
    {
        if i == line.len() {
            // no space: the whole line is the key and the query extends it
            // or equals it
            proof {
                lemma_count_until_is(line@, SPACE_BYTE, i as int);
                assert(key =~= line@);
            }
            if i == q.len() {
                proof {
                    assert(q@ =~= key);
                    lemma_lex_trichotomy(q@, key);
                }
                return KeyOrder::Equal;
            } else {
                proof {
                    assert(key =~= q@.take(key.len() as int));
                    lemma_lex_from_prefix(key, q@);
                    lemma_lex_trichotomy(q@, key);
                }
                return KeyOrder::Greater;
            }
        }
        let c = line[i];
        if c == SPACE_BYTE {
            // the stored key ends here
            proof {
                lemma_count_until_is(line@, SPACE_BYTE, i as int);
            }
            if i == q.len() {
                proof {
                    assert(q@ =~= key);
                    lemma_lex_trichotomy(q@, key);
                }
                return KeyOrder::Equal;
            } else {
                proof {
                    assert(key =~= q@.take(key.len() as int));
                    lemma_lex_from_prefix(key, q@);
                    lemma_lex_trichotomy(q@, key);
                }
                return KeyOrder::Greater;
            }
        }
        if i == q.len() {
            // the query is a proper prefix of the stored key
            proof {
                lemma_count_until(line@, SPACE_BYTE);
                assert(count_until(line@, SPACE_BYTE) > i);
                assert(q@ =~= key.take(q@.len() as int));
                lemma_lex_from_prefix(q@, key);
                lemma_lex_trichotomy(q@, key);
            }
            return KeyOrder::Less;
        }
        let d = q[i];
        if d < c {
            proof {
                lemma_count_until(line@, SPACE_BYTE);
                assert(q@.take(i as int) =~= key.take(i as int));
                assert(key[i as int] == line@[i as int]);
                lemma_lex_from_diff(q@, key, i as int);
                lemma_lex_trichotomy(q@, key);
            }
            return KeyOrder::Less;
        }
        if d > c {
            proof {
                lemma_count_until(line@, SPACE_BYTE);
                assert(key.take(i as int) =~= q@.take(i as int));
                assert(key[i as int] == line@[i as int]);
                lemma_lex_from_diff(key, q@, i as int);
                lemma_lex_trichotomy(q@, key);
            }
            return KeyOrder::Greater;
        }
        i = i + 1;
    }
}

/// Scans for the first line feed and returns the line length including the
/// terminator, or `None` when the bytes hold no line feed at all.
#[verifier::loop_isolation(false)]
pub fn get_line_length(prefix: &Vec<u8>) -> (r: Option<usize>)
    ensures
        match r {
            Some(l) => 1 <= l <= prefix@.len() && count_until(prefix@, NEWLINE_BYTE) == l - 1,
            None => count_until(prefix@, NEWLINE_BYTE) == prefix@.len(),
        },
{
    let mut i: usize = 0;
    while i < prefix.len()
        invariant
            0 <= i <= prefix@.len(),
            forall|j: int| 0 <= j < i ==> #[trigger] prefix@[j] != NEWLINE_BYTE,
        decreases prefix@.len() - i,
    {
        if prefix[i] == NEWLINE_BYTE {
            proof {
                lemma_count_until_is(prefix@, NEWLINE_BYTE, i as int);
            }
            return Some(i + 1);
        }
        i = i + 1;
    }
    proof {
        lemma_count_until_is(prefix@, NEWLINE_BYTE, prefix@.len() as int);
    }
    None
}

/// True when the `w` identifier bytes of a line are all decimal digits.
pub open spec fn id_digits_ok(line: Seq<u8>, w: int) -> bool {
    forall|i: int| line.len() - w - 1 <= i < line.len() - 1 ==> is_digit(#[trigger] line[i])
}

/// Parses the identifier field of a line: the `w` bytes just before the
/// final terminator byte.
#[verifier::loop_isolation(false)]
fn parse_id(line: &Vec<u8>, w: usize) -> (r: Option<u64>)
    requires
        w + 1 <= line@.len(),
        w <= MAX_ID_WIDTH,
    ensures
        match r {
            Some(v) => id_digits_ok(line@, w as int) && v as int == dec_val(
                line@.subrange(line@.len() - w - 1, line@.len() - 1),
            ),
            None => !id_digits_ok(line@, w as int),
        },
{
    let ghost field = line@.subrange(line@.len() - w - 1, line@.len() - 1);
    let start: usize = line.len() - w - 1;
    let mut acc: u64 = 0;
    let mut i: usize = 0;
    proof {
        lemma_pow10_u64();
    }
    while i < w
        invariant
            0 <= i <= w,
            w <= MAX_ID_WIDTH,
            start == line@.len() - w - 1,
            w + 1 <= line@.len(),
            field == line@.subrange(line@.len() - w - 1, line@.len() - 1),
            forall|j: int| 0 <= j < i ==> is_digit(#[trigger] field[j]),
            acc as int == dec_val(field.take(i as int)),
            (acc as nat) < pow10(i as nat),
            pow10(19) == 10_000_000_000_000_000_000,
        decreases w - i,
    {
        let b = line[start + i];
        assert(b == field[i as int]);
        if !(0x30 <= b && b <= 0x39) {
            assert(!is_digit(line@[start + i]));
            return None;
        }
        proof {
            lemma_pow10_increases(i as nat, 18);
            assert(field.take(i + 1).drop_last() =~= field.take(i as int));
            assert(field.take(i + 1).last() == field[i as int]);
            lemma_pow10_increases((i + 1) as nat, 19);
        }
        assert(10 * (acc as int) + (b - 0x30) < pow10((i + 1) as nat)) by {
            assert(pow10((i + 1) as nat) == 10 * pow10(i as nat));
        }
        acc = 10 * acc + ((b - 0x30) as u64);
        i = i + 1;
    }
    assert(field.take(w as int) =~= field);
    assert forall|j: int| line@.len() - w - 1 <= j < line@.len() - 1 implies is_digit(
        #[trigger] line@[j],
    ) by {
        assert(line@[j] == field[j - (line@.len() - w - 1)]);
    }
    Some(acc)
}

/// `2^k`.
pub open spec fn pow2(k: nat) -> nat
    decreases k,
{
    if k == 0 {
        1
    } else {
        2 * pow2((k - 1) as nat)
    }
}

/// The floor of the base-two logarithm (with `lg(0) == 0`).
pub open spec fn lg(n: nat) -> nat
    decreases n,
{
    if n <= 1 {
        0
    } else {
        1 + lg(n / 2)
    }
}

/// `pow2` grows monotonically.
pub proof fn lemma_pow2_increases(a: nat, b: nat)
    requires
        a <= b,
    ensures
        pow2(a) <= pow2(b),
    decreases b,
{
    if a < b {
        lemma_pow2_increases(a, (b - 1) as nat);
    }
}

/// If `2^k <= n`, then `k` is at most the floor of `log2(n)`.
pub proof fn lemma_pow2_le_lg(k: nat, n: nat)
    requires
        pow2(k) <= n,
    ensures
        k <= lg(n),
    decreases k,
{
    if k > 0 {
        assert(pow2(k) == 2 * pow2((k - 1) as nat));
        assert(pow2((k - 1) as nat) >= 1) by {
            lemma_pow2_increases(0, (k - 1) as nat);
        }
        lemma_pow2_le_lg((k - 1) as nat, n / 2);
    }
}

/// `2^65` exceeds every `u64`, bounding how often a search can halve a
/// non-empty interval.
pub proof fn lemma_pow2_overflows_u64(k: nat)
    requires
        pow2(k) <= u64::MAX,
    ensures
        k <= 64,
{
    if k > 64 {
        lemma_pow2_increases(65, k);
        assert(pow2(65) == 0x2_0000_0000_0000_0000) by {
            reveal_with_fuel(pow2, 66);
        }
    }
}

/// The bookkeeping that bounds a binary search: after `seeks` reads the
/// remaining interval of `size` lines satisfies `size * 2^seeks <= n`,
/// and any read at all certifies `2^(seeks-1) <= n`.
pub open spec fn seek_invariant(size: int, seeks: nat, n: int) -> bool {
    &&& 0 <= size
    &&& size * (pow2(seeks) as int) <= n
    &&& (seeks == 0 || (pow2((seeks - 1) as nat) as int) <= n)
}

/// A search that has read nothing satisfies the bookkeeping.
pub proof fn lemma_seek_invariant_init(size: int, n: int)
    requires
        0 <= size <= n,
    ensures
        seek_invariant(size, 0, n),
{
    assert(pow2(0) == 1);
    assert(size * (pow2(0) as int) == size) by (nonlinear_arith)
        requires
            pow2(0) == 1,
    ;
}

/// Reading one line from a non-empty interval and keeping at most half of
/// it preserves the bookkeeping.
pub proof fn lemma_seek_invariant_step(s0: int, s1: int, seeks: nat, n: int)
    requires
        seek_invariant(s0, seeks, n),
        1 <= s0,
        0 <= 2 * s1 <= s0,
    ensures
        seek_invariant(s1, seeks + 1, n),
        (pow2(seeks) as int) <= n,
{
    assert(pow2(seeks + 1) == 2 * pow2(seeks));
    assert((pow2(seeks) as int) <= s0 * (pow2(seeks) as int)) by (nonlinear_arith)
        requires
            1 <= s0,
    ;
    assert(s1 * (pow2((seeks + 1) as nat) as int) <= n) by (nonlinear_arith)
        requires
            0 <= 2 * s1 <= s0,
            pow2((seeks + 1) as nat) == 2 * pow2(seeks),
            s0 * (pow2(seeks) as int) <= n,
    ;
}

/// The bookkeeping bounds the number of reads logarithmically.
pub proof fn lemma_seek_invariant_bound(size: int, seeks: nat, n: int)
    requires
        seek_invariant(size, seeks, n),
    ensures
        seeks <= lg(n as nat) + 1,
{
    if seeks > 0 {
        lemma_pow2_le_lg((seeks - 1) as nat, n as nat);
    }
}

/// The midpoint a search reads, computed in whole lines, is exactly the
/// raw byte midpoint of the interval snapped down to the nearest line
/// boundary: with offsets `a * l` and `b * l`, the midpoint line
/// `a + (b - a) / 2` starts at byte `(((a * l + b * l) / 2) / l) * l`.
pub proof fn lemma_midpoint_snaps_to_line(a: int, b: int, l: int)
    requires
        0 <= a <= b,
        1 <= l,
    ensures
        (a + (b - a) / 2) * l == (((a * l + b * l) / 2) / l) * l,
{
    let s = b - a;
    let m = a + s / 2;
    let r = s % 2;
    lemma_fundamental_div_mod(s, 2);
    assert(a + b == 2 * m + r) by (nonlinear_arith)
        requires
            s == b - a && s == 2 * (s / 2) + r && m == a + s / 2,
    ;
    assert((a + b) / 2 == m) by {
        lemma_div_multiples_vanish_fancy(m, r, 2);
    }
    assert(a * l + b * l == 2 * (m * l) + r * l) by (nonlinear_arith)
        requires
            a + b == 2 * m + r,
    ;
    let e = (r * l) / 2;
    assert((2 * (m * l) + r * l) / 2 == e + m * l) by {
        lemma_hoist_over_denominator(r * l, m * l, 2);
    }
    assert(0 <= e < l) by {
        if r == 0 {
            assert(r * l == 0) by (nonlinear_arith)
                requires
                    r == 0,
            ;
            lemma_basic_div(0, 2);
        } else {
            assert(r * l == l) by (nonlinear_arith)
                requires
                    r == 1,
            ;
            vstd::arithmetic::div_mod::lemma_div_decreases(l, 2);
            vstd::arithmetic::div_mod::lemma_div_pos_is_pos(l, 2);
        }
    }
    assert((e + m * l) / l == m) by {
        lemma_hoist_over_denominator(e, m, l as nat);
        lemma_basic_div(e, l);
    }
}

/// The state of one binary search: the interval of lines that may still
/// hold the query, in line units, plus the finished outcome once the
/// search is over.
pub struct Searcher {
    query: Vec<u8>,
    id_width: usize,
    line_len: usize,
    n_lines: u64,
    lo_line: u64,
    hi_line: u64,
    seeks: usize,
    result: Option<Lookup>,
}

impl Searcher {
    /// The folded query the search is looking for.
    pub closed spec fn q(&self) -> Seq<u8> {
        self.query@
    }

    /// The identifier width the search was configured with.
    pub closed spec fn w(&self) -> int {
        self.id_width as int
    }

    /// The line length of the file, including the terminator.
    pub closed spec fn l(&self) -> int {
        self.line_len as int
    }

    /// The number of lines in the file.
    pub closed spec fn n(&self) -> int {
        self.n_lines as int
    }

    /// The first line of the interval that may still hold the query.
    pub closed spec fn low(&self) -> int {
        self.lo_line as int
    }

    /// The line after the interval that may still hold the query.
    pub closed spec fn high(&self) -> int {
        self.hi_line as int
    }

    /// How many lines have been read so far.
    pub closed spec fn n_seeks(&self) -> int {
        self.seeks as int
    }

    /// The finished outcome, or `None` while lines remain to be read.
    pub closed spec fn outcome(&self) -> Option<Lookup> {
        self.result
    }

    /// The line the search reads next: the middle of the interval.
    pub open spec fn mid_line(&self) -> int {
        self.low() + (self.high() - self.low()) / 2
    }

    /// The internal invariant: interval and counters in bounds, the query
    /// folded and short enough, and the interval halved at least once per
    /// line read.
    pub closed spec fn inv(&self) -> bool {
        &&& 1 <= self.w() <= MAX_ID_WIDTH
        &&& 0 <= self.low() <= self.high() <= self.n()
        &&& self.n() * self.l() <= u64::MAX as int
        &&& seek_invariant(self.high() - self.low(), self.seeks as nat, self.n())
        &&& match self.result {
            Option::None => {
                &&& self.l() >= self.w() + 5
                &&& self.low() < self.high()
                &&& self.q().len() <= self.l() - self.w() - 2
                &&& fold(self.q()) == self.q()
            },
            Option::Some(_) => true,
        }
    }

    /// Starts a search.  The query is case folded here, so the search and
    /// the builder agree on normalization.  Degenerate inputs finish
    /// immediately: an empty file has nothing to find, a line length with
    /// no room for the fields or a file that does not split into whole
    /// lines is malformed, and a folded query wider than the key field
    /// cannot be stored.
    #[verifier::rlimit(60)]
    pub fn new(query: &Vec<u8>, id_width: usize, line_len: usize, file_len: u64) -> (r: Searcher)
        requires
            1 <= id_width <= MAX_ID_WIDTH,
        ensures
            r.inv(),
            r.q() == fold(query@),
            r.w() == id_width as int,
            r.l() == line_len as int,
            r.n_seeks() == 0,
            file_len == 0 ==> r.outcome() == Some(Lookup::NotFound),
            file_len > 0 && line_len < id_width + 5 ==> r.outcome() == Some(Lookup::Malformed),
            file_len > 0 && line_len >= id_width + 5 && file_len as int % (line_len as int) != 0
                ==> r.outcome() == Some(Lookup::Malformed),
            file_len > 0 && line_len >= id_width + 5 && file_len as int % (line_len as int) == 0
                ==> {
                &&& r.n() == file_len as int / line_len as int
                &&& fold(query@).len() > line_len - id_width - 2 ==> r.outcome() == Some(
                    Lookup::KeyTooLong,
                )
                &&& fold(query@).len() <= line_len - id_width - 2 ==> r.outcome().is_none()
                    && r.low() == 0 && r.high() == r.n()
            },
    {
        let nq = fold_bytes(query);
        proof {
            lemma_seek_invariant_init(0, 0);
        }
        if file_len == 0 {
            return Searcher {
                query: nq,
                id_width,
                line_len,
                n_lines: 0,
                lo_line: 0,
                hi_line: 0,
                seeks: 0,
                result: Some(Lookup::NotFound),
            };
        }
        if line_len < id_width + 5 {
            return Searcher {
                query: nq,
                id_width,
                line_len,
                n_lines: 0,
                lo_line: 0,
                hi_line: 0,
                seeks: 0,
                result: Some(Lookup::Malformed),
            };
        }
        if file_len % (line_len as u64) != 0 {
            return Searcher {
                query: nq,
                id_width,
                line_len,
                n_lines: 0,
                lo_line: 0,
                hi_line: 0,
                seeks: 0,
                result: Some(Lookup::Malformed),
            };
        }
        let n = file_len / (line_len as u64);
        proof {
            lemma_fundamental_div_mod(file_len as int, line_len as int);
            assert((line_len as int) * (n as int) == file_len as int);
            assert((n as int) * (line_len as int) <= u64::MAX as int) by (nonlinear_arith)
                requires
                    (line_len as int) * (n as int) == file_len as int,
                    file_len <= u64::MAX,
            ;
            assert(n >= 1) by (nonlinear_arith)
                requires
                    (line_len as int) * (n as int) == file_len as int,
                    file_len > 0,
                    n >= 0,
            ;
            lemma_seek_invariant_init(0, n as int);
            lemma_seek_invariant_init(n as int, n as int);
        }
        if nq.len() > line_len - id_width - 2 {
            return Searcher {
                query: nq,
                id_width,
                line_len,
                n_lines: n,
                lo_line: 0,
                hi_line: 0,
                seeks: 0,
                result: Some(Lookup::KeyTooLong),
            };
        }
        proof {
            lemma_fold_idempotent(query@);
        }
        Searcher {
            query: nq,
            id_width,
            line_len,
            n_lines: n,
            lo_line: 0,
            hi_line: n,
            seeks: 0,
            result: None,
        }
    }

    /// The finished outcome, or `None` while another line must be read.
    pub fn done(&self) -> (r: Option<Lookup>)
        ensures
            r == self.outcome(),
    {
        self.result
    }

    /// How many lines have been read so far.
    pub fn seeks(&self) -> (r: usize)
        ensures
            r as int == self.n_seeks(),
    {
        self.seeks
    }

    /// The byte offset of the next line to read: the middle line of the
    /// remaining interval, which is exactly the raw byte midpoint of the
    /// interval snapped down to a line boundary.
    pub fn next_offset(&self) -> (r: u64)
        requires
            self.inv(),
            self.outcome().is_none(),
        ensures
            r as int == self.mid_line() * self.l(),
            r as int == (((self.low() * self.l() + self.high() * self.l()) / 2) / self.l())
                * self.l(),
            self.low() * self.l() <= (r as int) < self.high() * self.l(),
            r as int % self.l() == 0,
    {
        proof {
            lemma_midpoint_snaps_to_line(self.low(), self.high(), self.l());
        }
        let mid = self.lo_line + (self.hi_line - self.lo_line) / 2;
        proof {
            assert(self.low() <= self.mid_line() < self.high());
            assert(self.mid_line() * self.l() <= self.n() * self.l()
                && self.low() * self.l() <= self.mid_line() * self.l()
                && self.mid_line() * self.l() < self.high() * self.l()
                && (self.mid_line() * self.l()) % self.l() == 0) by (nonlinear_arith)
                requires
                    0 <= self.low() <= self.mid_line() < self.high() <= self.n(),
                    self.l() >= 1,
            ;
        }
        mid * (self.line_len as u64)
    }

    /// Consumes the line at `next_offset` and advances the search: an
    /// exact key match finishes with the line's flag and identifier (or
    /// `Malformed` when its identifier field holds a non-digit), and
    /// otherwise the half that cannot hold the query is discarded, with
    /// `NotFound` once nothing is left.
    pub fn feed(&mut self, line: &Vec<u8>)
        requires
            old(self).inv(),
            old(self).outcome().is_none(),
            line@.len() == old(self).l(),
        ensures
            final(self).inv(),
            final(self).q() == old(self).q(),
            final(self).w() == old(self).w(),
            final(self).l() == old(self).l(),
            final(self).n() == old(self).n(),
            final(self).n_seeks() == old(self).n_seeks() + 1,
            ({
                let key = line_key(line@);
                let m = old(self).mid_line();
                &&& (old(self).q() == key && id_digits_ok(line@, old(self).w())
                    ==> final(self).outcome() == Some(
                    Lookup::Found {
                        aux: line_rec(line@, old(self).w()).aux,
                        id: line_rec(line@, old(self).w()).id,
                    },
                ))
                &&& (old(self).q() == key && !id_digits_ok(line@, old(self).w())
                    ==> final(self).outcome() == Some(Lookup::Malformed))
                &&& (lex_lt(old(self).q(), key) ==> if old(self).low() < m {
                    final(self).outcome().is_none() && final(self).low() == old(self).low()
                        && final(self).high() == m
                } else {
                    final(self).outcome() == Some(Lookup::NotFound)
                })
                &&& (lex_lt(key, old(self).q()) ==> if m + 1 < old(self).high() {
                    final(self).outcome().is_none() && final(self).low() == m + 1
                        && final(self).high() == old(self).high()
                } else {
                    final(self).outcome() == Some(Lookup::NotFound)
                })
            }),
    {
        let ghost s0 = self.high() - self.low();
        let ghost k0 = self.seeks as nat;
        let mid = self.lo_line + (self.hi_line - self.lo_line) / 2;
        proof {
            // one more read is possible: the interval is non-empty, so
            // 2^seeks is at most the line count, which fits in a u64
            lemma_seek_invariant_step(s0, 0, k0, self.n());
            lemma_pow2_overflows_u64(k0);
        }
        let cmp = compare_key_line(&self.query, line);
        self.seeks = self.seeks + 1;
        proof {
            assert(pow2((self.seeks - 1) as nat) <= self.n_lines);
        }
        match cmp {
            KeyOrder::Equal => {
                let r = parse_id(line, self.id_width);
                match r {
                    Some(id) => {
                        let aux = line[self.line_len - self.id_width - 3];
                        self.lo_line = self.hi_line;
                        self.result = Some(Lookup::Found { aux, id });
                        proof {
                            let w = self.w();
                            let field = line@.subrange(line@.len() - w - 1, line@.len() - 1);
                            lemma_dec_val_bound(field);
                            lemma_pow10_u64();
                            lemma_pow10_increases(field.len(), 19);
                            assert(id == line_rec(line@, w).id);
                            lemma_seek_invariant_step(s0, 0, k0, self.n());
                            assert(self.seeks as nat == k0 + 1);
                        }
                    },
                    None => {
                        self.lo_line = self.hi_line;
                        self.result = Some(Lookup::Malformed);
                        proof {
                            lemma_seek_invariant_step(s0, 0, k0, self.n());
                            assert(self.seeks as nat == k0 + 1);
                        }
                    },
                }
            },
            KeyOrder::Less => {
                self.hi_line = mid;
                if self.lo_line >= self.hi_line {
                    self.lo_line = self.hi_line;
                    self.result = Some(Lookup::NotFound);
                }
                proof {
                    let s1 = self.high() - self.low();
                    assert(2 * s1 <= s0);
                    lemma_seek_invariant_step(s0, s1, k0, self.n());
                    assert(self.seeks as nat == k0 + 1);
                }
            },
            KeyOrder::Greater => {
                self.lo_line = mid + 1;
                if self.lo_line >= self.hi_line {
                    self.lo_line = self.hi_line;
                    self.result = Some(Lookup::NotFound);
                }
                proof {
                    let s1 = self.high() - self.low();
                    assert(2 * s1 <= s0);
                    lemma_seek_invariant_step(s0, s1, k0, self.n());
                    assert(self.seeks as nat == k0 + 1);
                }
            },
        }
    }

    /// However the search ends, the number of lines read stays within the
    /// logarithmic bound.
    pub proof fn lemma_seek_bound(&self)
        requires
            self.inv(),
        ensures
            self.n_seeks() <= lg(self.n() as nat) + 1,
    {
        lemma_seek_invariant_bound(self.high() - self.low(), self.seeks as nat, self.n());
    }
}

/// A finished lookup: its outcome and how many line reads it took.
pub struct LookupResult {
    pub outcome: Lookup,
    pub seeks: usize,
}

/// Looks `query` up in an in-memory image of an index file.
///
/// The query is case folded before the search.  On a well-formed index the
/// outcome is exactly what `lookup_spec` prescribes: the stored flag and
/// identifier when the folded query is a stored key, `NotFound` when it is
/// not (or the file is empty), `KeyTooLong` without reading any line when
/// it cannot fit the key field, and `Malformed` only for files that break
/// the layout.  Whatever the file holds, a `Found` outcome is only ever
/// reported for a line that really stores the folded query, and the number
/// of line reads stays logarithmic in the number of lines.
#[verifier::loop_isolation(false)]
#[verifier::rlimit(100)]
pub fn lookup(data: &Vec<u8>, query: &Vec<u8>, id_width: usize) -> (r: LookupResult)
    requires
        1 <= id_width <= MAX_ID_WIDTH,
    ensures
        wf_index(data@, id_width as int) ==> r.outcome == lookup_spec(
            data@,
            query@,
            id_width as int,
        ),
        !wf_shape(data@, id_width as int) ==> r.outcome == lookup_spec(
            data@,
            query@,
            id_width as int,
        ) && r.seeks == 0,
        wf_shape(data@, id_width as int) && fold(query@).len() > index_line_len(data@) - id_width
            - 2 ==> r.outcome == Lookup::KeyTooLong && r.seeks == 0,
        wf_shape(data@, id_width as int) ==> (forall|aux: u8, id: u64|
            r.outcome == Lookup::Found { aux, id } ==> exists|i: int|
                0 <= i < num_recs(data@) && line_key(#[trigger] line_at(data@, i)) == fold(query@)
                    && aux == rec_at(data@, id_width as int, i).aux && id == rec_at(
                    data@,
                    id_width as int,
                    i,
                ).id),
        wf_shape(data@, id_width as int) ==> r.seeks as int <= lg(num_recs(data@) as nat) + 1,
{
    let ghost w = id_width as int;
    let ghost nq = fold(query@);
    if data.len() == 0 {
        return LookupResult { outcome: Lookup::NotFound, seeks: 0 };
    }
    let l_opt = get_line_length(data);
    let l: usize;
    match l_opt {
        None => {
            return LookupResult { outcome: Lookup::Malformed, seeks: 0 };
        },
        Some(x) => {
            l = x;
        },
    }
    assert(index_line_len(data@) == l as int);
    if l < id_width + 5 {
        return LookupResult { outcome: Lookup::Malformed, seeks: 0 };
    }
    if data.len() % l != 0 {
        return LookupResult { outcome: Lookup::Malformed, seeks: 0 };
    }
    assert(wf_shape(data@, w));
    let ghost n = num_recs(data@);
    proof {
        lemma_fundamental_div_mod(data@.len() as int, l as int);
        assert((l as int) * n == data@.len());
    }
    let mut st = Searcher::new(query, id_width, l, data.len() as u64);
    match st.done() {
        Some(out) => {
            // the folded query cannot fit the key field
            return LookupResult { outcome: out, seeks: st.seeks() };
        },
        None => {},
    }
    while st.done().is_none()
        invariant
            st.inv(),
            st.q() == nq,
            st.w() == w,
            st.l() == l as int,
            st.n() == n,
            nq.len() <= l as int - w - 2,
            st.outcome().is_none() ==> wf_index(data@, w) ==> forall|i: int|
                0 <= i < st.low() ==> lex_lt(line_key(#[trigger] line_at(data@, i)), nq),
            st.outcome().is_none() ==> wf_index(data@, w) ==> forall|i: int|
                st.high() <= i < n ==> lex_lt(nq, line_key(#[trigger] line_at(data@, i))),
            match st.outcome() {
                Some(out) => {
                    &&& (forall|aux: u8, id: u64|
                        out == Lookup::Found { aux, id } ==> exists|i: int|
                            0 <= i < n && line_key(#[trigger] line_at(data@, i)) == nq && aux
                                == rec_at(data@, w, i).aux && id == rec_at(data@, w, i).id)
                    &&& (wf_index(data@, w) ==> out == lookup_spec(data@, query@, w))
                },
                None => true,
            },
        decreases (if st.outcome().is_none() { 1int } else { 0 }), st.high() - st.low(),
    {
        let off64 = st.next_offset();
        let dlen = data.len();
        proof {
            assert((st.mid_line() + 1) * (l as int) <= n * (l as int)) by (nonlinear_arith)
                requires
                    st.mid_line() + 1 <= n,
                    l as int >= 1,
            ;
            assert(n * (l as int) == (l as int) * n);
            assert(st.mid_line() * (l as int) + (l as int) <= dlen as int) by (nonlinear_arith)
                requires
                    (st.mid_line() + 1) * (l as int) <= dlen as int,
            ;
            assert(off64 as int + (l as int) <= dlen as int);
        }
        let off = off64 as usize;
        assert(off as int == off64 as int);
        let mut line: Vec<u8> = Vec::new();
        let mut j: usize = 0;
        while j < l
            invariant
                0 <= j <= l,
                off as int == st.mid_line() * (l as int),
                off + l <= data@.len(),
                line@ =~= data@.subrange(off as int, off as int + j as int),
            decreases l - j,
        {
            line.push(data[off + j]);
            assert(data@.subrange(off as int, off as int + j as int + 1) =~= data@.subrange(
                off as int,
                off as int + j as int,
            ).push(data@[off as int + j as int]));
            j = j + 1;
        }
        let ghost m = st.mid_line();
        let ghost old_lo = st.low();
        let ghost old_hi = st.high();
        proof {
            assert((m + 1) * (l as int) == m * (l as int) + (l as int)) by (nonlinear_arith);
            assert(line@ =~= line_at(data@, m));
        }
        st.feed(&line);
        proof {
            let key = line_key(line@);
            lemma_lex_trichotomy(nq, key);
            if wf_index(data@, w) {
                assert(wf_line(line_at(data@, m), w));
                if nq == key {
                    // a hit: the line is well formed, so its identifier
                    // parses and the outcome is its record
                    assert(id_digits_ok(line@, w));
                    assert(st.outcome() == Some(
                        Lookup::Found { aux: rec_at(data@, w, m).aux, id: rec_at(data@, w, m).id },
                    ));
                    assert(index_has(data@, nq));
                    let i0 = choose|i: int|
                        0 <= i < num_recs(data@) && line_key(#[trigger] line_at(data@, i)) == nq;
                    if i0 != m {
                        lemma_lex_trichotomy(line_key(line_at(data@, i0)), line_key(line_at(data@, m)));
                        assert(false);
                    }
                    assert(lookup_spec(data@, query@, w) == Lookup::Found {
                        aux: rec_at(data@, w, m).aux,
                        id: rec_at(data@, w, m).id,
                    });
                } else if lex_lt(nq, key) {
                    assert forall|i: int| m <= i < n implies lex_lt(
                        nq,
                        line_key(#[trigger] line_at(data@, i)),
                    ) by {
                        if i != m {
                            lemma_lex_transitive(nq, key, line_key(line_at(data@, i)));
                        }
                    }
                    if !(old_lo < m) {
                        // the interval is exhausted: every line is accounted for
                        assert forall|i: int| 0 <= i < n implies line_key(
                            #[trigger] line_at(data@, i),
                        ) != nq by {
                            if i < old_lo {
                                lemma_lex_trichotomy(line_key(line_at(data@, i)), nq);
                            } else {
                                lemma_lex_trichotomy(nq, line_key(line_at(data@, i)));
                            }
                        }
                        assert(!index_has(data@, nq));
                        assert(lookup_spec(data@, query@, w) == Lookup::NotFound);
                    }
                } else {
                    assert(lex_lt(key, nq));
                    assert forall|i: int| 0 <= i <= m implies lex_lt(
                        line_key(#[trigger] line_at(data@, i)),
                        nq,
                    ) by {
                        if i != m {
                            lemma_lex_transitive(line_key(line_at(data@, i)), key, nq);
                        }
                    }
                    if !(m + 1 < old_hi) {
                        assert forall|i: int| 0 <= i < n implies line_key(
                            #[trigger] line_at(data@, i),
                        ) != nq by {
                            if i <= m {
                                lemma_lex_trichotomy(line_key(line_at(data@, i)), nq);
                            } else {
                                lemma_lex_trichotomy(nq, line_key(line_at(data@, i)));
                            }
                        }
                        assert(!index_has(data@, nq));
                        assert(lookup_spec(data@, query@, w) == Lookup::NotFound);
                    }
                }
            }
            // soundness of a hit, independent of sortedness: the line that
            // was read really stores the folded query
            if nq == line_key(line@) && id_digits_ok(line@, w) {
                assert(0 <= m < n && line_key(line_at(data@, m)) == nq);
            }
        }
    }
    let fin = st.done();
    proof {
        st.lemma_seek_bound();
    }
    match fin {
        Some(out) => LookupResult { outcome: out, seeks: st.seeks() },
        None => {
            // unreachable: the loop only exits once an outcome is set
            assert(false);
            LookupResult { outcome: Lookup::Malformed, seeks: 0 }
        },
    }
}

/// If every neighbouring pair of lines has strictly ascending keys, so
/// does every pair.
proof fn lemma_adjacent_keys_ascending(data: Seq<u8>, i: int, j: int)
    requires
        forall|k: int|
            0 <= k < num_recs(data) - 1 ==> lex_lt(
                line_key(#[trigger] line_at(data, k)),
                line_key(line_at(data, k + 1)),
            ),
        0 <= i < j < num_recs(data),
    ensures
        lex_lt(line_key(line_at(data, i)), line_key(line_at(data, j))),
    decreases j - i,
{
    if j == i + 1 {
        assert(lex_lt(line_key(line_at(data, i)), line_key(line_at(data, i + 1))));
    } else {
        lemma_adjacent_keys_ascending(data, i, j - 1);
        assert(lex_lt(line_key(line_at(data, j - 1)), line_key(line_at(data, j))));
        lemma_lex_transitive(
            line_key(line_at(data, i)),
            line_key(line_at(data, j - 1)),
            line_key(line_at(data, j)),
        );
    }
}

/// Decides `wf_index` by one linear scan: the structural checks, then
/// every line well formed with the keys in strictly ascending order.
#[verifier::loop_isolation(false)]
#[verifier::rlimit(100)]
pub fn check_index(data: &Vec<u8>, id_width: usize) -> (r: bool)
    requires
        1 <= id_width <= MAX_ID_WIDTH,
    ensures
        r == wf_index(data@, id_width as int),
{
    let ghost w = id_width as int;
    if data.len() == 0 {
        return true;
    }
    let l_opt = get_line_length(data);
    let l: usize;
    match l_opt {
        None => {
            return false;
        },
        Some(x) => {
            l = x;
        },
    }
    assert(index_line_len(data@) == l as int);
    if l < id_width + 5 {
        return false;
    }
    if data.len() % l != 0 {
        return false;
    }
    assert(wf_shape(data@, w));
    let n = data.len() / l;
    proof {
        lemma_fundamental_div_mod(data@.len() as int, l as int);
        assert((l as int) * (n as int) == data@.len());
        assert(n as int == num_recs(data@));
    }
    let dlen = data.len();
    let mut prev_key: Vec<u8> = Vec::new();
    let mut i: usize = 0;
    while i < n
        invariant
            0 <= i <= n,
            n as int == num_recs(data@),
            index_line_len(data@) == l as int,
            wf_shape(data@, w),
            dlen == data@.len(),
            (l as int) * (n as int) == data@.len(),
            1 <= id_width <= MAX_ID_WIDTH,
            l >= id_width + 5,
            forall|t: int| 0 <= t < i ==> wf_line(#[trigger] line_at(data@, t), w),
            forall|t: int|
                0 <= t < i - 1 ==> lex_lt(
                    line_key(#[trigger] line_at(data@, t)),
                    line_key(line_at(data@, t + 1)),
                ),
            i >= 1 ==> prev_key@ == line_key(line_at(data@, i - 1)),
        decreases n - i,
    {
        proof {
            assert((i as int) * (l as int) >= 0 && (i as int + 1) * (l as int) == (i as int) * (
            l as int) + (l as int) && (i as int + 1) * (l as int) <= (n as int) * (l as int))
                by (nonlinear_arith)
                requires
                    0 <= (i as int) < (n as int),
                    l as int >= 1,
            ;
            assert((n as int) * (l as int) == (l as int) * (n as int));
        }
        let off = i * l;
        let mut line: Vec<u8> = Vec::new();
        let mut j: usize = 0;
        while j < l
            invariant
                0 <= j <= l,
                off == i * l,
                off + l <= dlen,
                dlen == data@.len(),
                line@ =~= data@.subrange(off as int, off as int + j as int),
            decreases l - j,
        {
            line.push(data[off + j]);
            assert(data@.subrange(off as int, off as int + j as int + 1) =~= data@.subrange(
                off as int,
                off as int + j as int,
            ).push(data@[off as int + j as int]));
            j = j + 1;
        }
        proof {
            assert(line@ =~= line_at(data@, i as int));
        }
        if !check_line(&line, id_width) {
            return false;
        }
        if i > 0 {
            let cmp = compare_key_line(&prev_key, &line);
            match cmp {
                KeyOrder::Less => {},
                _ => {
                    return false;
                },
            }
        }
        let k = find_byte(&line, SPACE_BYTE);
        proof {
            lemma_count_until(line@, SPACE_BYTE);
            assert(line@.take(k as int) =~= line_key(line@));
        }
        prev_key = take_bytes(&line, k);
        i = i + 1;
    }
    proof {
        assert forall|a: int, b: int| 0 <= a < b < num_recs(data@) implies lex_lt(
            line_key(#[trigger] line_at(data@, a)),
            line_key(#[trigger] line_at(data@, b)),
        ) by {
            lemma_adjacent_keys_ascending(data@, a, b);
        }
        assert(wf_index(data@, w));
    }
    true
}

} // verus!
