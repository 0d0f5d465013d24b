//! The laws the index keeps: every stored record is found again, absent
//! keys are reported absent, and building is deterministic.

use vstd::prelude::*;
use vstd::relations::sorted_by;
use crate::keybytes::{
    fold, fold_byte, is_digit, is_key_byte, lemma_count_until, lemma_dec_min, lemma_fold_valid,
    lemma_lex_trichotomy, pow10, valid_key, MAX_ID_WIDTH,
};
use crate::builder::{
    aux_ok, base_recs, dedup_recs, final_key, final_recs, group_size, id_rank, lemma_dedup_recs,
    lemma_keys_strictly_sorted, lemma_max_key_len, lemma_rec_le_total_ordering, max_key_len,
    name_ok, rec_le_ff, spec_build, BuildError,
};
use crate::layout::{
    all_valid, encode_index, index_has, index_line_len, lemma_encode_index_wf, line_at, line_key,
    lookup_spec, num_recs, rec_at, wf_index, wf_line, Lookup, RecModel,
};

verus! {

/// The records a successful build serializes, in file order.
pub open spec fn build_recs(es: Seq<crate::builder::EntModel>) -> Seq<RecModel> {
    final_recs(dedup_recs(base_recs(es))).sort_by(rec_le_ff())
}

/// Every record of a successful build fits the layout it is encoded with.
proof fn lemma_build_recs_valid(es: Seq<crate::builder::EntModel>, w: int)
    requires
        1 <= w <= MAX_ID_WIDTH,
        forall|i: int| 0 <= i < es.len() ==> name_ok(#[trigger] es[i].name),
        forall|i: int| 0 <= i < es.len() ==> aux_ok(#[trigger] es[i].aux),
        forall|i: int| 0 <= i < es.len() ==> (#[trigger] es[i].id as nat) < pow10(w as nat),
    ensures
        all_valid(build_recs(es), max_key_len(build_recs(es)) as int, w),
        sorted_by(build_recs(es), rec_le_ff()),
    decreases es.len(),
{
    let bs = base_recs(es);
    let ds = dedup_recs(bs);
    let fs = final_recs(ds);
    let sorted = build_recs(es);
    lemma_rec_le_total_ordering();
    fs.lemma_sort_by_ensures(rec_le_ff());
    lemma_dedup_recs(bs);
    lemma_max_key_len(sorted);
    assert forall|t: int| 0 <= t < sorted.len() implies crate::layout::valid_rec(
        #[trigger] sorted[t],
        max_key_len(sorted) as int,
        w,
    ) by {
        assert(sorted.contains(sorted[t]));
        assert(fs.contains(sorted[t]));
        let j = choose|j: int| 0 <= j < fs.len() && fs[j] == sorted[t];
        let d = ds[j];
        assert(fs[j] == RecModel { key: final_key(ds, d), aux: d.aux, id: d.id });
        assert(bs.contains(d));
        let k = choose|k: int| 0 <= k < bs.len() && bs[k] == d;
        assert(bs[k] == RecModel { key: fold(es[k].name), aux: es[k].aux, id: es[k].id });
        lemma_fold_valid(es[k].name);
        assert(valid_key(d.key));
        assert(aux_ok(d.aux));
        let fk = final_key(ds, d);
        if group_size(ds, d.key) <= 1 {
            assert(valid_key(fk));
        } else {
            let digits = crate::keybytes::dec_min(id_rank(ds, d.key, d.id));
            lemma_dec_min(id_rank(ds, d.key, d.id));
            assert forall|i: int| 0 <= i < fk.len() implies is_key_byte(#[trigger] fk[i])
                && fold_byte(fk[i]) == fk[i] by {
                let bl = d.key.len() as int;
                if i < bl {
                    assert(fk[i] == d.key[i]);
                } else if i == bl {
                    assert(fk[i] == crate::builder::DASH_BYTE);
                } else if i < bl + 1 + digits.len() {
                    assert(fk[i] == digits[i - bl - 1]);
                    assert(is_digit(digits[i - bl - 1]));
                } else if i == bl + 1 + digits.len() {
                    assert(fk[i] == crate::builder::DASH_BYTE);
                } else {
                    assert(fk[i] == d.aux);
                }
            }
            assert(valid_key(fk));
        }
        assert(sorted[t].key.len() <= max_key_len(sorted));
        assert((sorted[t].id as nat) < pow10(w as nat));
    }
}

/// A successful build yields a well-formed index whose lines decode to
/// exactly the built records, in strictly ascending key order.
pub proof fn lemma_build_wf(es: Seq<crate::builder::EntModel>, w: int, data: Seq<u8>)
    requires
        1 <= w <= MAX_ID_WIDTH,
        spec_build(es, w) == Ok::<Seq<u8>, BuildError>(data),
    ensures
        wf_index(data, w),
        data == encode_index(build_recs(es), max_key_len(build_recs(es)) as int, w),
        data.len() == build_recs(es).len() * (max_key_len(build_recs(es)) as int + w + 4),
        data.len() > 0 ==> num_recs(data) == build_recs(es).len(),
        forall|i: int|
            0 <= i < build_recs(es).len() && data.len() > 0 ==> rec_at(data, w, i)
                == build_recs(es)[i],
{
    let sorted = build_recs(es);
    let kw = max_key_len(sorted) as int;
    lemma_build_recs_valid(es, w);
    lemma_keys_strictly_sorted(sorted);
    if sorted.len() == 0 {
        assert(data =~= Seq::<u8>::empty());
        assert(sorted.len() * (kw + w + 4) == 0) by (nonlinear_arith)
            requires
                sorted.len() == 0,
        ;
    } else {
        assert(sorted[0].key.len() >= 1 && sorted[0].key.len() <= max_key_len(sorted)) by {
            lemma_max_key_len(sorted);
            assert(crate::layout::valid_rec(sorted[0], kw, w));
        }
        lemma_encode_index_wf(sorted, kw, w);
    }
}

/// Round trip: looking a stored key up returns exactly the flag and
/// identifier stored next to it.  This holds of every well-formed index,
/// in particular of every file the builder emits.
pub proof fn lemma_lookup_round_trip(data: Seq<u8>, w: int, i: int)
    requires
        wf_index(data, w),
        0 <= i < num_recs(data),
    ensures
        lookup_spec(data, rec_at(data, w, i).key, w) == (Lookup::Found {
            aux: rec_at(data, w, i).aux,
            id: rec_at(data, w, i).id,
        }),
{
    let l = index_line_len(data);
    let line = line_at(data, i);
    let q = rec_at(data, w, i).key;
    assert(data.len() as int / l >= 1);
    assert(data.len() > 0) by {
        if data.len() == 0 {
            assert(num_recs(data) == 0);
        }
    }
    vstd::arithmetic::div_mod::lemma_fundamental_div_mod(data.len() as int, l);
    assert(num_recs(data) * l == data.len() && (i + 1) * l <= num_recs(data) * l && i * l >= 0
        && (i + 1) * l == i * l + l) by (nonlinear_arith)
        requires
            0 <= i < num_recs(data),
            l >= 1,
            num_recs(data) == data.len() as int / l,
            data.len() as int % l == 0,
            data.len() as int == l * (data.len() as int / l) + data.len() as int % l,
    ;
    assert(line.len() == l);
    assert(wf_line(line, w));
    // a stored key is already folded, so folding the query is the identity
    lemma_count_until(line, crate::keybytes::SPACE_BYTE);
    assert(fold(q) =~= q) by {
        assert(forall|t: int| 0 <= t < q.len() ==> #[trigger] q[t] == line[t]);
        assert(forall|t: int| 0 <= t < q.len() ==> fold_byte(#[trigger] q[t]) == q[t]);
    }
    // it fits the key field with room to spare
    assert(q.len() <= l - w - 4);
    // and line `i` is a witness that it is stored
    assert(line_key(line) == q);
    assert(index_has(data, q));
    let j = choose|j: int| 0 <= j < num_recs(data) && line_key(#[trigger] line_at(data, j)) == q;
    if j != i {
        lemma_lex_trichotomy(line_key(line_at(data, j)), line_key(line_at(data, i)));
        assert(false);
    }
}

/// Round trip for the builder: every record a successful build serialized
/// is found again, with exactly the flag and identifier that were stored.
pub proof fn lemma_build_round_trip(
    es: Seq<crate::builder::EntModel>,
    w: int,
    data: Seq<u8>,
    i: int,
)
    requires
        1 <= w <= MAX_ID_WIDTH,
        spec_build(es, w) == Ok::<Seq<u8>, BuildError>(data),
        0 <= i < build_recs(es).len(),
    ensures
        lookup_spec(data, build_recs(es)[i].key, w) == (Lookup::Found {
            aux: build_recs(es)[i].aux,
            id: build_recs(es)[i].id,
        }),
{
    lemma_build_wf(es, w, data);
    let sorted = build_recs(es);
    let kw = max_key_len(sorted) as int;
    assert(data.len() > 0) by {
        assert(sorted.len() * (kw + w + 4) >= kw + w + 4) by (nonlinear_arith)
            requires
                sorted.len() >= 1,
                kw + w + 4 >= 1,
        ;
    }
    lemma_lookup_round_trip(data, w, i);
}

/// Negative lookup: a key that no line stores is reported `NotFound`,
/// provided only that its folded form fits the key field at all (a wider
/// query is reported `KeyTooLong`, again without being found).
pub proof fn lemma_lookup_negative(data: Seq<u8>, w: int, q: Seq<u8>)
    requires
        wf_index(data, w),
        !index_has(data, fold(q)),
        data.len() == 0 || fold(q).len() <= index_line_len(data) - w - 2,
    ensures
        lookup_spec(data, q, w) == Lookup::NotFound,
{
}

/// Idempotent build: the serialized file is a function of the entities
/// and the identifier width alone, so two successful builds from the same
/// input are byte-identical.
pub proof fn lemma_build_deterministic(
    es: Seq<crate::builder::EntModel>,
    w: int,
    b1: Seq<u8>,
    b2: Seq<u8>,
)
    requires
        spec_build(es, w) == Ok::<Seq<u8>, BuildError>(b1),
        spec_build(es, w) == Ok::<Seq<u8>, BuildError>(b2),
    ensures
        b1 == b2,
{
}

} // verus!
