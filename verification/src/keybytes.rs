//! Byte-level building blocks for the index: the alphabet of key bytes,
//! ASCII case folding, lexicographic ordering of byte strings, and decimal
//! digit strings.

use vstd::prelude::*;

verus! {

/// The ASCII space byte, used to pad the key field and separate fields.
pub const SPACE_BYTE: u8 = 0x20;

/// The ASCII line-feed byte that terminates every line.
pub const NEWLINE_BYTE: u8 = 0x0a;

/// True when `b` may appear in a stored key: a printable ASCII byte other
/// than the space.  Keys never contain spaces or newlines, so the space
/// bytes that pad the key field always mark the end of the key and the
/// line feed always marks the end of the line.
pub open spec fn is_key_byte(b: u8) -> bool {
    0x21 <= b <= 0x7e
}

/// A well-formed key: non-empty, printable, space-free, and already case
/// folded, so that folding a query cannot miss it.
pub open spec fn valid_key(k: Seq<u8>) -> bool {
    &&& k.len() >= 1
    &&& forall|i: int| 0 <= i < k.len() ==> is_key_byte(#[trigger] k[i]) && fold_byte(k[i]) == k[i]
}

/// ASCII case folding of one byte: upper-case letters map to lower case,
/// everything else is unchanged.
pub open spec fn fold_byte(b: u8) -> u8 {
    if 0x41 <= b <= 0x5a {
        (b + 0x20) as u8
    } else {
        b
    }
}

/// ASCII case folding of a byte string.
pub open spec fn fold(s: Seq<u8>) -> Seq<u8> {
    s.map_values(|b: u8| fold_byte(b))
}

/// Case folds a byte string: the shared normalization rule of the builder
/// and the lookup.
#[verifier::loop_isolation(false)]
pub fn fold_bytes(s: &Vec<u8>) -> (r: Vec<u8>)
    ensures
        r@ == fold(s@),
{
    let mut r: Vec<u8> = Vec::new();
    let mut i: usize = 0;
    while i < s.len()
        invariant
            0 <= i <= s@.len(),
            r@ =~= fold(s@).take(i as int),
        decreases s@.len() - i,
    {
        let b = s[i];
        if 0x41 <= b && b <= 0x5a {
            r.push(b + 0x20);
        } else {
            r.push(b);
        }
        assert(fold(s@).take(i + 1) =~= fold(s@).take(i as int).push(fold_byte(s@[i as int])));
        i = i + 1;
    }
    assert(fold(s@).take(s@.len() as int) =~= fold(s@));
    r
}

/// Case folding is idempotent: folding an already folded string changes
/// nothing.
pub proof fn lemma_fold_idempotent(s: Seq<u8>)
    ensures
        fold(fold(s)) == fold(s),
{
    assert(fold(fold(s)) =~= fold(s));
}

/// Folding a printable, space-free name yields a valid key.
pub proof fn lemma_fold_valid(name: Seq<u8>)
    requires
        name.len() >= 1,
        forall|i: int| 0 <= i < name.len() ==> is_key_byte(#[trigger] name[i]),
    ensures
        valid_key(fold(name)),
{
    assert forall|i: int| 0 <= i < fold(name).len() implies is_key_byte(#[trigger] fold(name)[i])
        && fold_byte(fold(name)[i]) == fold(name)[i] by {
        assert(fold(name)[i] == fold_byte(name[i]));
    }
}

/// Strict lexicographic (byte-wise) order on byte strings: a proper prefix
/// sorts before its extensions, and otherwise the first differing byte
/// decides.
pub open spec fn lex_lt(a: Seq<u8>, b: Seq<u8>) -> bool
    decreases a.len(),
{
    if b.len() == 0 {
        false
    } else if a.len() == 0 {
        true
    } else if a[0] < b[0] {
        true
    } else if a[0] > b[0] {
        false
    } else {
        lex_lt(a.drop_first(), b.drop_first())
    }
}

/// Non-strict lexicographic order.
pub open spec fn lex_le(a: Seq<u8>, b: Seq<u8>) -> bool {
    lex_lt(a, b) || a == b
}

/// Of two byte strings, exactly one of `a < b`, `a == b`, `b < a` holds.
pub proof fn lemma_lex_trichotomy(a: Seq<u8>, b: Seq<u8>)
    ensures
        lex_lt(a, b) ==> !lex_lt(b, a) && a != b,
        lex_lt(b, a) ==> !lex_lt(a, b) && a != b,
        lex_lt(a, b) || lex_lt(b, a) || a == b,
    decreases a.len(),
{
    if a.len() == 0 || b.len() == 0 {
        if a.len() == b.len() {
            assert(a =~= b);
        }
    } else if a[0] == b[0] {
        lemma_lex_trichotomy(a.drop_first(), b.drop_first());
        assert(forall|i: int| 1 <= i < a.len() ==> #[trigger] a[i] == a.drop_first()[i - 1]);
        assert(forall|i: int| 1 <= i < b.len() ==> #[trigger] b[i] == b.drop_first()[i - 1]);
        if a.drop_first() == b.drop_first() {
            assert(a =~= b);
        }
        if a == b {
            assert(a.drop_first() =~= b.drop_first());
        }
    }
}

/// Lexicographic order is transitive.
pub proof fn lemma_lex_transitive(a: Seq<u8>, b: Seq<u8>, c: Seq<u8>)
    requires
        lex_lt(a, b),
        lex_lt(b, c),
    ensures
        lex_lt(a, c),
    decreases a.len(),
{
    if a.len() == 0 {
    } else if b.len() == 0 {
    } else if c.len() == 0 {
    } else {
        if a[0] == b[0] && b[0] == c[0] {
            lemma_lex_transitive(a.drop_first(), b.drop_first(), c.drop_first());
        }
    }
}

/// If `a` and `b` agree on their first `i` bytes and `a[i] < b[i]`, then
/// `a` sorts before `b`.
pub proof fn lemma_lex_from_diff(a: Seq<u8>, b: Seq<u8>, i: int)
    requires
        0 <= i < a.len(),
        i < b.len(),
        a.take(i) == b.take(i),
        a[i] < b[i],
    ensures
        lex_lt(a, b),
    decreases i,
{
    if i == 0 {
    } else {
        assert(a[0] == a.take(i)[0] && b[0] == b.take(i)[0]);
        assert(a.drop_first().take(i - 1) =~= a.take(i).drop_first());
        assert(b.drop_first().take(i - 1) =~= b.take(i).drop_first());
        lemma_lex_from_diff(a.drop_first(), b.drop_first(), i - 1);
    }
}

/// A proper prefix sorts strictly before its extensions.
pub proof fn lemma_lex_from_prefix(a: Seq<u8>, b: Seq<u8>)
    requires
        a.len() < b.len(),
        a == b.take(a.len() as int),
    ensures
        lex_lt(a, b),
    decreases a.len(),
{
    if a.len() > 0 {
        assert(a[0] == b.take(a.len() as int)[0]);
        assert(a.drop_first() =~= b.drop_first().take(a.len() - 1)) by {
            assert(forall|j: int|
                0 <= j < a.len() - 1 ==> a.drop_first()[j] == b.take(a.len() as int)[j + 1]);
        }
        lemma_lex_from_prefix(a.drop_first(), b.drop_first());
    }
}

/// Index of the first occurrence of `t` in `s`, or `s.len()` when `t` does
/// not occur.
pub open spec fn count_until(s: Seq<u8>, t: u8) -> nat
    decreases s.len(),
{
    if s.len() == 0 {
        0
    } else if s[0] == t {
        0
    } else {
        (1 + count_until(s.drop_first(), t)) as nat
    }
}

/// Characterizes `count_until`: no occurrence strictly before it, and an
/// occurrence at it unless `t` is absent.
pub proof fn lemma_count_until(s: Seq<u8>, t: u8)
    ensures
        count_until(s, t) <= s.len(),
        forall|i: int| 0 <= i < count_until(s, t) ==> s[i] != t,
        count_until(s, t) < s.len() ==> s[count_until(s, t) as int] == t,
    decreases s.len(),
{
    if s.len() > 0 && s[0] != t {
        lemma_count_until(s.drop_first(), t);
        assert(forall|i: int| 1 <= i < s.len() ==> #[trigger] s[i] == s.drop_first()[i - 1]);
    }
}

/// The first occurrence is the only index with its two properties, so a
/// witness pins `count_until` down.
pub proof fn lemma_count_until_is(s: Seq<u8>, t: u8, k: int)
    requires
        0 <= k <= s.len(),
        forall|i: int| 0 <= i < k ==> s[i] != t,
        k < s.len() ==> s[k] == t,
    ensures
        count_until(s, t) == k,
    decreases s.len(),
{
    if s.len() > 0 && s[0] != t {
        lemma_count_until_is(s.drop_first(), t, k - 1);
    }
}

/// `10^w`.
pub open spec fn pow10(w: nat) -> nat
    decreases w,
{
    if w == 0 {
        1
    } else {
        10 * pow10((w - 1) as nat)
    }
}

/// The largest decimal width whose values all fit in a `u64`.
pub const MAX_ID_WIDTH: usize = 19;

/// `10^19` fits in a `u64`.
pub proof fn lemma_pow10_u64()
    ensures
        pow10(19) == 10_000_000_000_000_000_000,
{
    reveal_with_fuel(pow10, 20);
}

/// `pow10` is monotone in the exponent.
pub proof fn lemma_pow10_increases(a: nat, b: nat)
    requires
        a <= b,
    ensures
        pow10(a) <= pow10(b),
    decreases b,
{
    if a < b {
        lemma_pow10_increases(a, (b - 1) as nat);
        assert(pow10(b) == 10 * pow10((b - 1) as nat));
    }
}

/// True when `b` is an ASCII decimal digit.
pub open spec fn is_digit(b: u8) -> bool {
    0x30 <= b <= 0x39
}

/// The digit byte for `d` (meaningful for `d < 10`).
pub open spec fn digit_byte(d: nat) -> u8 {
    (0x30 + d) as u8
}

/// The `w`-digit, zero-padded decimal representation of `v mod 10^w`.
pub open spec fn dec_fixed(v: nat, w: nat) -> Seq<u8>
    decreases w,
{
    if w == 0 {
        Seq::empty()
    } else {
        dec_fixed(v / 10, (w - 1) as nat).push(digit_byte(v % 10))
    }
}

/// The minimal decimal representation of `v` (no leading zeros except for
/// `v == 0` itself).
pub open spec fn dec_min(v: nat) -> Seq<u8>
    decreases v,
{
    if v < 10 {
        seq![digit_byte(v)]
    } else {
        dec_min(v / 10).push(digit_byte(v % 10))
    }
}

/// The numeric value of a digit string (meaningful when all bytes are
/// digits).
pub open spec fn dec_val(s: Seq<u8>) -> int
    decreases s.len(),
{
    if s.len() == 0 {
        0
    } else {
        10 * dec_val(s.drop_last()) + s.last() - 0x30
    }
}

/// A fixed-width encoding always has exactly `w` digits.
pub proof fn lemma_dec_fixed_len(v: nat, w: nat)
    ensures
        dec_fixed(v, w).len() == w,
    decreases w,
{
    if w > 0 {
        lemma_dec_fixed_len(v / 10, (w - 1) as nat);
    }
}

/// A fixed-width encoding of `v < 10^w` has width `w`, holds only digits,
/// and decodes back to `v`.
pub proof fn lemma_dec_fixed(v: nat, w: nat)
    requires
        v < pow10(w),
    ensures
        dec_fixed(v, w).len() == w,
        forall|i: int| 0 <= i < w ==> is_digit(#[trigger] dec_fixed(v, w)[i]),
        dec_val(dec_fixed(v, w)) == v,
    decreases w,
{
    if w > 0 {
        assert(v / 10 < pow10((w - 1) as nat)) by {
            assert(pow10(w) == 10 * pow10((w - 1) as nat));
        }
        lemma_dec_fixed(v / 10, (w - 1) as nat);
        let s = dec_fixed(v, w);
        assert(s.drop_last() =~= dec_fixed(v / 10, (w - 1) as nat));
        assert(dec_val(s) == 10 * (v / 10) + (v % 10));
    }
}

/// A digit string's value is non-negative and below `10^len`.
pub proof fn lemma_dec_val_bound(s: Seq<u8>)
    requires
        forall|i: int| 0 <= i < s.len() ==> is_digit(#[trigger] s[i]),
    ensures
        0 <= dec_val(s) < pow10(s.len()),
    decreases s.len(),
{
    if s.len() > 0 {
        assert(forall|i: int| 0 <= i < s.drop_last().len() ==> is_digit(#[trigger] s.drop_last()[i]));
        lemma_dec_val_bound(s.drop_last());
        assert(pow10(s.len()) == 10 * pow10((s.len() - 1) as nat));
    }
}

/// A minimal decimal representation is a non-empty string of digits, hence
/// also a valid key fragment.
pub proof fn lemma_dec_min(v: nat)
    ensures
        dec_min(v).len() >= 1,
        forall|i: int| 0 <= i < dec_min(v).len() ==> is_digit(#[trigger] dec_min(v)[i]),
    decreases v,
{
    if v >= 10 {
        lemma_dec_min(v / 10);
    }
}

/// Writes `v` in its minimal decimal form.
pub fn dec_min_exec(v: u64) -> (r: Vec<u8>)
    ensures
        r@ == dec_min(v as nat),
    decreases v,
{
    if v < 10 {
        let mut r: Vec<u8> = Vec::new();
        r.push(0x30 + v as u8);
        assert(r@ =~= dec_min(v as nat));
        r
    } else {
        let mut r = dec_min_exec(v / 10);
        r.push(0x30 + (v % 10) as u8);
        assert(r@ =~= dec_min(v as nat));
        r
    }
}

/// Copies a byte string.
#[verifier::loop_isolation(false)]
pub fn copy_bytes(s: &Vec<u8>) -> (r: Vec<u8>)
    ensures
        r@ == s@,
{
    let mut r: Vec<u8> = Vec::new();
    let mut i: usize = 0;
    while i < s.len()
        invariant
            0 <= i <= s@.len(),
            r@ =~= s@.take(i as int),
        decreases s@.len() - i,
    {
        r.push(s[i]);
        assert(r@ =~= s@.take(i + 1));
        i = i + 1;
    }
    assert(r@ =~= s@);
    r
}

/// Copies the first `k` bytes of a byte string.
#[verifier::loop_isolation(false)]
pub fn take_bytes(s: &Vec<u8>, k: usize) -> (r: Vec<u8>)
    requires
        k <= s@.len(),
    ensures
        r@ == s@.take(k as int),
{
    let mut r: Vec<u8> = Vec::new();
    let mut i: usize = 0;
    while i < k
        invariant
            0 <= i <= k <= s@.len(),
            r@ =~= s@.take(i as int),
        decreases k - i,
    {
        r.push(s[i]);
        assert(r@ =~= s@.take(i + 1));
        i = i + 1;
    }
    r
}

/// Decides equality of two byte strings.
#[verifier::loop_isolation(false)]
pub fn bytes_eq(a: &Vec<u8>, b: &Vec<u8>) -> (r: bool)
    ensures
        r == (a@ == b@),
{
    if a.len() != b.len() {
        return false;
    }
    let mut i: usize = 0;
    while i < a.len()
        invariant
            0 <= i <= a@.len(),
            a@.len() == b@.len(),
            forall|t: int| 0 <= t < i ==> a@[t] == b@[t],
        decreases a@.len() - i,
    {
        if a[i] != b[i] {
            return false;
        }
        i = i + 1;
    }
    proof {
        assert(a@ =~= b@);
    }
    true
}

/// Finds the first occurrence of `t` in `s`: the executable form of
/// `count_until` (the length of `s` when `t` does not occur).
#[verifier::loop_isolation(false)]
pub fn find_byte(s: &Vec<u8>, t: u8) -> (r: usize)
    ensures
        r as nat == count_until(s@, t),
{
    let mut i: usize = 0;
    while i < s.len()
        invariant
            0 <= i <= s@.len(),
            forall|j: int| 0 <= j < i ==> #[trigger] s@[j] != t,
        decreases s@.len() - i,
    {
        if s[i] == t {
            proof {
                lemma_count_until_is(s@, t, i as int);
            }
            return i;
        }
        i = i + 1;
    }
    proof {
        lemma_count_until_is(s@, t, s@.len() as int);
    }
    s.len()
}

/// Digits are key bytes and are unchanged by case folding.
pub proof fn lemma_digits_are_key_bytes(s: Seq<u8>)
    requires
        forall|i: int| 0 <= i < s.len() ==> is_digit(#[trigger] s[i]),
    ensures
        forall|i: int|
            0 <= i < s.len() ==> is_key_byte(#[trigger] s[i]) && fold_byte(s[i]) == s[i],
{
}

} // verus!
