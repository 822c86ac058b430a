//! The duplicate finder: two memory-bounded phases. First every row's key —
//! the chosen column's bytes, or all fields — is hashed to a `(hash, id)`
//! pair and the pairs are sorted by hash; then each maximal run of equal
//! hashes is re-read and verified by exact byte equality of the key, field
//! boundaries kept, so `"ab" + ""` never equals `"a" + "b"`.

use rayon::slice::ParallelSliceMut;
use vstd::prelude::*;

use crate::dialect::ParseSettings;
use crate::reader::offsets_wf;
use crate::record::{next_record, rows_bytes_view, spec_next_record};
use crate::text::{eq_bytes, sip_hash, sip_hash_of};

verus! {

/// The projected key of a record: the one chosen cell (empty when the row
/// is short), or all fields.
pub open spec fn spec_dup_key(fields: Seq<Seq<u8>>, col: Option<usize>) -> Seq<Seq<u8>> {
    match col {
        Option::Some(c) => seq![
            if c < fields.len() {
                fields[c as int]
            } else {
                Seq::<u8>::empty()
            },
        ],
        Option::None => fields,
    }
}

/// The key of the row at position `t` of the offset array.
pub open spec fn spec_key_at(
    data: Seq<u8>,
    offsets: Seq<u64>,
    t: int,
    s: ParseSettings,
    col: Option<usize>,
) -> Seq<Seq<u8>> {
    match spec_next_record(data, offsets[t] as int, s.delimiter, s.quote, s.escape, s.line_ending) {
        Option::Some(r) => spec_dup_key(r.0, col),
        Option::None => Seq::empty(),
    }
}

/// Row `t` is a duplicate: some other row has the same key.
pub open spec fn spec_is_dup(
    data: Seq<u8>,
    offsets: Seq<u64>,
    s: ParseSettings,
    col: Option<usize>,
    t: int,
) -> bool {
    &&& 0 <= t < offsets.len()
    &&& exists|j: int|
        0 <= j < offsets.len() && j != t && spec_key_at(data, offsets, j, s, col) == spec_key_at(
            data,
            offsets,
            t,
            s,
            col,
        )
}

/// The fields of a key laid out as bytes with an explicit field terminator,
/// so equal byte strings imply equal field lists can never be conflated
/// across different field boundaries by the hash.
pub open spec fn spec_joined(fields: Seq<Seq<u8>>) -> Seq<u8>
    decreases fields.len(),
{
    if fields.len() == 0 {
        Seq::empty()
    } else {
        spec_joined(fields.drop_last()) + fields.last() + seq![0u8]
    }
}

/// The hash of the row key at position `t`.
pub open spec fn spec_hash_at(
    data: Seq<u8>,
    offsets: Seq<u64>,
    t: int,
    s: ParseSettings,
    col: Option<usize>,
) -> u64 {
    sip_hash_of(spec_joined(spec_key_at(data, offsets, t, s, col)))
}

/// Join a key's fields into one delimited byte string.
pub fn join_fields(fields: &Vec<Vec<u8>>) -> (r: Vec<u8>)
    ensures
        r@ == spec_joined(rows_bytes_view(*fields)),
{
    let ghost fv = rows_bytes_view(*fields);
    let mut out: Vec<u8> = Vec::new();
    let mut i: usize = 0;
    while i < fields.len()
        invariant
            0 <= i <= fields@.len(),
            fv == rows_bytes_view(*fields),
            out@ == spec_joined(fv.take(i as int)),
        decreases fields@.len() - i,
    {
        let ghost pre = out@;
        out.extend_from_slice(fields[i].as_slice());
        out.push(0u8);
        i = i + 1;
        proof {
            assert(fv.take(i as int).drop_last() =~= fv.take(i - 1));
            assert(fv.take(i as int).last() == fv[i - 1]);
            assert(out@ =~= pre + fv[i - 1] + seq![0u8]);
        }
    }
    proof {
        assert(fv.take(fields@.len() as int) =~= fv);
    }
    out
}

/// Whether two field lists are equal, field by field.
pub fn eq_fields(a: &Vec<Vec<u8>>, b: &Vec<Vec<u8>>) -> (r: bool)
    ensures
        r == (rows_bytes_view(*a) == rows_bytes_view(*b)),
{
    let ghost av = rows_bytes_view(*a);
    let ghost bv = rows_bytes_view(*b);
    if a.len() != b.len() {
        assert(av.len() != bv.len());
        return false;
    }
    let mut i: usize = 0;
    while i < a.len()
        invariant
            0 <= i <= a@.len(),
            a@.len() == b@.len(),
            av == rows_bytes_view(*a),
            bv == rows_bytes_view(*b),
            forall|k: int| 0 <= k < i ==> av[k] == bv[k],
        decreases a@.len() - i,
    {
        if !eq_bytes(a[i].as_slice(), b[i].as_slice()) {
            assert(av[i as int] != bv[i as int]);
            return false;
        }
        assert(av[i as int] == bv[i as int]);
        i = i + 1;
    }
    proof {
        assert(av =~= bv);
    }
    true
}

/// Order on `(hash, id)` pairs: by hash, ties by id.
pub open spec fn hpair_le(a: (u64, u32), b: (u64, u32)) -> bool {
    a.0 < b.0 || (a.0 == b.0 && a.1 <= b.1)
}

/// Relies on rayon's `par_sort_unstable_by`: sorts the pairs into ascending
/// order of the comparator and keeps exactly the same elements; the
/// comparator is the plain integer order on `(hash, id)`.
#[verifier::external_body]
fn par_sort_hash_pairs(v: &mut Vec<(u64, u32)>)
    ensures
        final(v)@.to_multiset() == old(v)@.to_multiset(),
        forall|i: int, j: int|
            0 <= i < j < final(v)@.len() ==> hpair_le(final(v)@[i], final(v)@[j]),
{
    v.par_sort_unstable_by(|a, b| a.cmp(b));
}

/// Relies on std's `slice::sort_unstable`: sorts the ids ascending and keeps
/// exactly the same elements.
#[verifier::external_body]
fn sort_ids(v: &mut Vec<usize>)
    ensures
        final(v)@.to_multiset() == old(v)@.to_multiset(),
        forall|i: int, j: int| 0 <= i < j < final(v)@.len() ==> final(v)@[i] <= final(v)@[j],
{
    v.sort_unstable();
}

/// Parse the record at one position of the offset array and project its key.
fn key_at(data: &[u8], offsets: &Vec<u64>, t: usize, s: &ParseSettings, col: Option<usize>) -> (r:
    Vec<Vec<u8>>)
    requires
        offsets_wf(data@, offsets@, *s),
        t < offsets@.len(),
    ensures
        rows_bytes_view(r) == spec_key_at(data@, offsets@, t as int, *s, col),
{
    let n = data.len();
    let off64 = offsets[t];
    assert(off64 <= data@.len() && spec_next_record(
        data@,
        offsets@[t as int] as int,
        s.delimiter,
        s.quote,
        s.escape,
        s.line_ending,
    ) is Some);
    let off = off64 as usize;
    match next_record(data, off, s.delimiter, s.quote, s.escape, s.line_ending) {
        None => {
            assert(false);
            Vec::new()
        },
        Some(fe) => {
            let (fields, _) = fe;
            let ghost fsv = rows_bytes_view(fields);
            match col {
                None => fields,
                Some(c) => {
                    let cell: Vec<u8> = if c < fields.len() {
                        crate::sort::copy_bytes(&fields[c])
                    } else {
                        Vec::new()
                    };
                    let ghost cv = cell@;
                    let mut out: Vec<Vec<u8>> = Vec::new();
                    out.push(cell);
                    proof {
                        assert(rows_bytes_view(out) =~= seq![cv]);
                        assert(rows_bytes_view(out) =~= spec_dup_key(fsv, col));
                    }
                    out
                },
            }
        },
    }
}

/// In a list sorted by `(hash, id)`, positions with equal hashes are
/// contiguous.
proof fn lemma_equal_hash_contiguous(pv: Seq<(u64, u32)>, a: int, b: int, c: int)
    requires
        0 <= a <= b <= c < pv.len(),
        forall|i: int, j: int| 0 <= i < j < pv.len() ==> hpair_le(#[trigger] pv[i], #[trigger] pv[j]),
        pv[a].0 == pv[c].0,
    ensures
        pv[b].0 == pv[a].0,
{
    if a < b {
        assert(hpair_le(pv[a], pv[b]));
    }
    if b < c {
        assert(hpair_le(pv[b], pv[c]));
    }
}

/// Find every duplicate row: the ascending ids whose projected key (cell
/// `col`, or the whole record) occurs at least twice. Requires a complete
/// offset array.
pub fn find_duplicates(
    data: &[u8],
    offsets: &Vec<u64>,
    s: &ParseSettings,
    col: Option<usize>,
) -> (r: Vec<usize>)
    requires
        offsets_wf(data@, offsets@, *s),
        offsets@.len() <= u32::MAX,
    ensures
        forall|i: int, j: int| 0 <= i < j < r@.len() ==> r@[i] < r@[j],
        forall|t: usize| #[trigger] r@.contains(t) <==> spec_is_dup(data@, offsets@, *s, col, t as int),
{
    broadcast use vstd::seq_lib::group_to_multiset_ensures;

    let n = offsets.len();
    let mut pairs: Vec<(u64, u32)> = Vec::new();
    let mut i: usize = 0;
    while i < n
        invariant
            offsets_wf(data@, offsets@, *s),
            0 <= i <= n,
            n == offsets@.len() <= u32::MAX,
            pairs@.len() == i,
            forall|k: int|
                0 <= k < i ==> #[trigger] pairs@[k] == (
                    spec_hash_at(data@, offsets@, k, *s, col),
                    k as u32,
                ),
        decreases n - i,
    {
        let key = key_at(data, offsets, i, s, col);
        let joined = join_fields(&key);
        let h = sip_hash(joined.as_slice());
        pairs.push((h, i as u32));
        i = i + 1;
    }
    let ghost pv0 = pairs@;
    proof {
        assert forall|a: int, b: int| 0 <= a < pv0.len() && 0 <= b < pv0.len() && a != b implies pv0[a]
            != pv0[b] by {
            assert(pv0[a].1 == a as u32 && pv0[b].1 == b as u32);
        }
        assert(pv0.no_duplicates());
        pv0.lemma_multiset_has_no_duplicates();
    }
    par_sort_hash_pairs(&mut pairs);
    let ghost pv1 = pairs@;
    proof {
        assert(pv1.len() == pv0.len()) by {
            assert(pv1.to_multiset().len() == pv0.to_multiset().len());
        }
        assert forall|m: int| 0 <= m < pv1.len() implies (#[trigger] pv1[m]).1 < n && pv1[m].0
            == spec_hash_at(data@, offsets@, pv1[m].1 as int, *s, col) by {
            assert(pv1.contains(pv1[m]));
            assert(pv1.to_multiset().count(pv1[m]) > 0);
            assert(pv0.to_multiset().count(pv1[m]) > 0);
            assert(pv0.contains(pv1[m]));
            let w = choose|w: int| 0 <= w < pv0.len() && pv0[w] == pv1[m];
            assert(pv0[w] == (spec_hash_at(data@, offsets@, w, *s, col), w as u32));
        }
        assert forall|a: int, b: int|
            0 <= a < pv1.len() && 0 <= b < pv1.len() && a != b implies (#[trigger] pv1[a]).1 != (
        #[trigger] pv1[b]).1 by {
            assert forall|x: (u64, u32)| pv1.to_multiset().contains(x) implies pv1.to_multiset()
                .count(x) == 1 by {
                assert(pv0.to_multiset().count(x) == pv1.to_multiset().count(x));
            }
            pv1.lemma_multiset_has_no_duplicates_conv();
            if pv1[a].1 == pv1[b].1 {
                assert(pv1[a].0 == spec_hash_at(data@, offsets@, pv1[a].1 as int, *s, col));
                assert(pv1[b].0 == spec_hash_at(data@, offsets@, pv1[b].1 as int, *s, col));
                assert(pv1[a] == pv1[b]);
            }
        }
        assert forall|id: int|
            #![trigger spec_hash_at(data@, offsets@, id, *s, col)]
            0 <= id < n implies pv1.contains(
            (spec_hash_at(data@, offsets@, id, *s, col), id as u32),
        ) by {
            let x = (spec_hash_at(data@, offsets@, id, *s, col), id as u32);
            assert(pv0[id] == x);
            assert(pv0.contains(x));
            assert(pv0.to_multiset().count(x) > 0);
            assert(pv1.to_multiset().count(x) > 0);
            assert(pv1.contains(x));
        }
    }
    let total = pairs.len();
    let mut out: Vec<usize> = Vec::new();
    let mut run: usize = 0;
    while run < total
        invariant
            offsets_wf(data@, offsets@, *s),
            0 <= run <= total,
            total == pv1.len(),
            n == offsets@.len() <= u32::MAX,
            pv1 == pairs@,
            forall|a: int, b: int|
                0 <= a < b < pv1.len() ==> hpair_le(#[trigger] pv1[a], #[trigger] pv1[b]),
            forall|m: int|
                0 <= m < pv1.len() ==> (#[trigger] pv1[m]).1 < n && pv1[m].0 == spec_hash_at(
                    data@,
                    offsets@,
                    pv1[m].1 as int,
                    *s,
                    col,
                ),
            forall|a: int, b: int|
                0 <= a < pv1.len() && 0 <= b < pv1.len() && a != b ==> (#[trigger] pv1[a]).1 != (
                #[trigger] pv1[b]).1,
            forall|id: int|
                #![trigger spec_hash_at(data@, offsets@, id, *s, col)]
                0 <= id < n ==> pv1.contains(
                    (spec_hash_at(data@, offsets@, id, *s, col), id as u32),
                ),
            run == 0 || run == total || pv1[run - 1].0 != pv1[run as int].0,
            forall|m: int|
                0 <= m < run ==> (out@.contains(pv1[m].1 as usize) <==> spec_is_dup(
                    data@,
                    offsets@,
                    *s,
                    col,
                    (#[trigger] pv1[m]).1 as int,
                )),
            forall|t: usize|
                #[trigger] out@.contains(t) ==> exists|m: int| 0 <= m < run && ((#[trigger] pv1[m]).1
                    as usize) == t,
            forall|p: int, q: int|
                0 <= p < q < out@.len() ==> #[trigger] out@[p] != #[trigger] out@[q],
        decreases total - run,
    {
        let h = pairs[run].0;
        let mut re = run + 1;
        while re < total
            invariant_except_break
                run < re <= total,
                total == pv1.len(),
                pv1 == pairs@,
                h == pv1[run as int].0,
                forall|m: int| run <= m < re ==> (#[trigger] pv1[m]).0 == h,
            ensures
                run < re <= total,
                forall|m: int| run <= m < re ==> (#[trigger] pv1[m]).0 == h,
                re == total || pv1[re as int].0 != h,
            decreases total - re,
        {
            if pairs[re].0 != h {
                break ;
            }
            re = re + 1;
        }
        let mut a = run;
        while a < re
            invariant
                offsets_wf(data@, offsets@, *s),
                run <= a <= re <= total,
                total == pv1.len(),
                n == offsets@.len() <= u32::MAX,
                pv1 == pairs@,
                h == pv1[run as int].0,
                forall|m: int| run <= m < re ==> (#[trigger] pv1[m]).0 == h,
                re == total || pv1[re as int].0 != h,
                run == 0 || pv1[run - 1].0 != h,
                forall|x: int, y: int|
                    0 <= x < y < pv1.len() ==> hpair_le(#[trigger] pv1[x], #[trigger] pv1[y]),
                forall|m: int|
                    0 <= m < pv1.len() ==> (#[trigger] pv1[m]).1 < n && pv1[m].0 == spec_hash_at(
                        data@,
                        offsets@,
                        pv1[m].1 as int,
                        *s,
                        col,
                    ),
                forall|x: int, y: int|
                    0 <= x < pv1.len() && 0 <= y < pv1.len() && x != y ==> (#[trigger] pv1[x]).1
                        != (#[trigger] pv1[y]).1,
                forall|id: int|
                    #![trigger spec_hash_at(data@, offsets@, id, *s, col)]
                    0 <= id < n ==> pv1.contains(
                        (spec_hash_at(data@, offsets@, id, *s, col), id as u32),
                    ),
                forall|m: int|
                    0 <= m < a ==> (out@.contains(pv1[m].1 as usize) <==> spec_is_dup(
                        data@,
                        offsets@,
                        *s,
                        col,
                        (#[trigger] pv1[m]).1 as int,
                    )),
                forall|t: usize|
                    #[trigger] out@.contains(t) ==> exists|m: int| 0 <= m < a && ((
                    #[trigger] pv1[m]).1 as usize) == t,
                forall|p: int, q: int|
                    0 <= p < q < out@.len() ==> #[trigger] out@[p] != #[trigger] out@[q],
            decreases re - a,
        {
            let ghost pre_iter = out@;
            let id_a = pairs[a].1;
            let key_a = key_at(data, offsets, id_a as usize, s, col);
            let ghost kav = rows_bytes_view(key_a);
            let mut found = false;
            let mut b = run;
            loop
                invariant_except_break
                    offsets_wf(data@, offsets@, *s),
                    run <= b <= re <= total,
                    run <= a < re,
                    total == pv1.len(),
                    n == offsets@.len() <= u32::MAX,
                    pv1 == pairs@,
                    id_a == pv1[a as int].1,
                    forall|m: int| 0 <= m < pv1.len() ==> (#[trigger] pv1[m]).1 < n,
                    kav == spec_key_at(data@, offsets@, id_a as int, *s, col),
                    kav == rows_bytes_view(key_a),
                    !found,
                    forall|m: int|
                        run <= m < b && m != a ==> spec_key_at(
                            data@,
                            offsets@,
                            (#[trigger] pv1[m]).1 as int,
                            *s,
                            col,
                        ) != kav,
                ensures
                    found ==> exists|m: int|
                        run <= m < re && m != a && spec_key_at(
                            data@,
                            offsets@,
                            (#[trigger] pv1[m]).1 as int,
                            *s,
                            col,
                        ) == kav,
                    !found ==> forall|m: int|
                        run <= m < re && m != a ==> spec_key_at(
                            data@,
                            offsets@,
                            (#[trigger] pv1[m]).1 as int,
                            *s,
                            col,
                        ) != kav,
                decreases re - b,
            {
                if b >= re {
                    break ;
                }
                if b != a {
                    let id_b = pairs[b].1;
                    let key_b = key_at(data, offsets, id_b as usize, s, col);
                    if eq_fields(&key_a, &key_b) {
                        found = true;
                        proof {
                            assert(spec_key_at(data@, offsets@, pv1[b as int].1 as int, *s, col)
                                == kav);
                        }
                        break ;
                    }
                }
                b = b + 1;
            }
            proof {
                assert(found <==> spec_is_dup(data@, offsets@, *s, col, id_a as int)) by {
                    if found {
                        let m = choose|m: int|
                            run <= m < re && m != a && spec_key_at(
                                data@,
                                offsets@,
                                (#[trigger] pv1[m]).1 as int,
                                *s,
                                col,
                            ) == kav;
                        assert(pv1[m].1 != pv1[a as int].1);
                        assert(0 <= (pv1[m].1 as int) && (pv1[m].1 as int) < offsets@.len());
                        assert(spec_is_dup(data@, offsets@, *s, col, id_a as int));
                    } else {
                        if spec_is_dup(data@, offsets@, *s, col, id_a as int) {
                            let j = choose|j: int|
                                0 <= j < offsets@.len() && j != id_a as int && spec_key_at(
                                    data@,
                                    offsets@,
                                    j,
                                    *s,
                                    col,
                                ) == spec_key_at(data@, offsets@, id_a as int, *s, col);
                            assert(spec_hash_at(data@, offsets@, j, *s, col) == spec_hash_at(
                                data@,
                                offsets@,
                                id_a as int,
                                *s,
                                col,
                            ));
                            let x = (spec_hash_at(data@, offsets@, j, *s, col), j as u32);
                            assert(pv1.contains(x));
                            let m = choose|m: int| 0 <= m < pv1.len() && pv1[m] == x;
                            assert(pv1[m].0 == spec_hash_at(data@, offsets@, id_a as int, *s, col));
                            assert(pv1[a as int].0 == spec_hash_at(
                                data@,
                                offsets@,
                                id_a as int,
                                *s,
                                col,
                            ));
                            assert(pv1[m].0 == h);
                            assert(run <= m < re) by {
                                if m < run {
                                    assert(run > 0);
                                    lemma_equal_hash_contiguous(pv1, m, run - 1, a as int);
                                    assert(false);
                                }
                                if m >= re {
                                    assert(re < total);
                                    lemma_equal_hash_contiguous(pv1, a as int, re as int, m);
                                    assert(false);
                                }
                            }
                            assert(m != a);
                            assert(spec_key_at(data@, offsets@, pv1[m].1 as int, *s, col) == kav);
                            assert(false);
                        }
                    }
                }
            }
            if found {
                proof {
                    if out@.contains(id_a as usize) {
                        let m = choose|m: int|
                            0 <= m < a && ((#[trigger] pv1[m]).1 as usize) == id_a as usize;
                        assert(pv1[m].1 == pv1[a as int].1);
                        assert(false);
                    }
                }
                let ghost pre = out@;
                out.push(id_a as usize);
                proof {
                    assert forall|t: usize| #[trigger] out@.contains(t) implies exists|m: int|
                        0 <= m < a + 1 && ((#[trigger] pv1[m]).1 as usize) == t by {
                        let p = choose|p: int| 0 <= p < out@.len() && out@[p] == t;
                        if p < pre.len() {
                            assert(pre[p] == t);
                            assert(pre.contains(t));
                            let m = choose|m: int|
                                0 <= m < a && ((#[trigger] pv1[m]).1 as usize) == t;
                            assert(0 <= m < a + 1 && (pv1[m].1 as usize) == t);
                        } else {
                            assert(t == id_a as usize);
                            assert((pv1[a as int].1 as usize) == t);
                        }
                    }
                    assert forall|p: int, q: int| 0 <= p < q < out@.len() implies #[trigger] out@[p]
                        != #[trigger] out@[q] by {
                        if q == out@.len() - 1 {
                            assert(pre.contains(out@[p]));
                        }
                    }
                }
            }
            a = a + 1;
            proof {
                assert forall|m: int| 0 <= m < a implies (out@.contains(pv1[m].1 as usize)
                    <==> spec_is_dup(data@, offsets@, *s, col, (#[trigger] pv1[m]).1 as int)) by {
                    let y = pv1[m].1 as usize;
                    if found {
                        assert(out@ == pre_iter.push(id_a as usize));
                        if m == a - 1 {
                            assert(out@[out@.len() - 1] == id_a as usize);
                            assert(out@.contains(y));
                        } else {
                            assert(pv1[m].1 != pv1[a - 1].1);
                            assert(y as u32 == pv1[m].1);
                            assert(y != id_a as usize);
                            assert(pre_iter.contains(y) <==> out@.contains(y)) by {
                                if pre_iter.contains(y) {
                                    let p = choose|p: int|
                                        0 <= p < pre_iter.len() && pre_iter[p] == y;
                                    assert(out@[p] == y);
                                }
                                if out@.contains(y) {
                                    let p = choose|p: int| 0 <= p < out@.len() && out@[p] == y;
                                    assert(p < pre_iter.len());
                                    assert(pre_iter[p] == y);
                                }
                            }
                        }
                    } else {
                        assert(out@ == pre_iter);
                        if m == a - 1 {
                            if out@.contains(y) {
                                let w = choose|w: int|
                                    0 <= w < a - 1 && ((#[trigger] pv1[w]).1 as usize) == y;
                                assert(pv1[w].1 == pv1[m].1);
                                assert(false);
                            }
                        }
                    }
                }
                assert forall|t: usize| #[trigger] out@.contains(t) implies exists|m: int|
                    0 <= m < a && ((#[trigger] pv1[m]).1 as usize) == t by {
                    if found {
                        let p = choose|p: int| 0 <= p < out@.len() && out@[p] == t;
                        if p < pre_iter.len() {
                            assert(pre_iter[p] == t);
                            assert(pre_iter.contains(t));
                            let m = choose|m: int|
                                0 <= m < a - 1 && ((#[trigger] pv1[m]).1 as usize) == t;
                            assert(0 <= m < a && (pv1[m].1 as usize) == t);
                        } else {
                            assert(t == id_a as usize);
                            assert((pv1[a - 1].1 as usize) == t);
                        }
                    } else {
                        let m = choose|m: int|
                            0 <= m < a - 1 && ((#[trigger] pv1[m]).1 as usize) == t;
                        assert(0 <= m < a && (pv1[m].1 as usize) == t);
                    }
                }
            }
        }
        run = re;
    }
    proof {
        assert forall|t: usize| #[trigger] out@.contains(t) <==> spec_is_dup(
            data@,
            offsets@,
            *s,
            col,
            t as int,
        ) by {
            if out@.contains(t) {
                let m = choose|m: int| 0 <= m < total && ((#[trigger] pv1[m]).1 as usize) == t;
                assert(out@.contains(pv1[m].1 as usize) <==> spec_is_dup(
                    data@,
                    offsets@,
                    *s,
                    col,
                    pv1[m].1 as int,
                ));
                assert((pv1[m].1 as usize) == t);
                assert(pv1[m].1 as int == t as int);
            }
            if spec_is_dup(data@, offsets@, *s, col, t as int) {
                let x = (spec_hash_at(data@, offsets@, t as int, *s, col), (t as int) as u32);
                assert(pv1.contains(x));
                let m = choose|m: int| 0 <= m < pv1.len() && pv1[m] == x;
                assert(t < n);
                assert((pv1[m].1 as usize) == t);
                assert(out@.contains(pv1[m].1 as usize) <==> spec_is_dup(
                    data@,
                    offsets@,
                    *s,
                    col,
                    pv1[m].1 as int,
                ));
            }
        }
        assert forall|x: usize| out@.to_multiset().contains(x) implies out@.to_multiset().count(x)
            == 1 by {
            out@.lemma_multiset_has_no_duplicates();
        }
    }
    let ghost pre_sort = out@;
    proof {
        assert forall|p: int, q: int|
            0 <= p < pre_sort.len() && 0 <= q < pre_sort.len() && p != q implies pre_sort[p]
            != pre_sort[q] by {}
        assert(pre_sort.no_duplicates());
        pre_sort.lemma_multiset_has_no_duplicates();
    }
    sort_ids(&mut out);
    proof {
        assert forall|x: usize| out@.to_multiset().contains(x) implies out@.to_multiset().count(x)
            == 1 by {
            assert(pre_sort.to_multiset().count(x) == out@.to_multiset().count(x));
        }
        out@.lemma_multiset_has_no_duplicates_conv();
        assert forall|t: usize| #[trigger] out@.contains(t) <==> spec_is_dup(
            data@,
            offsets@,
            *s,
            col,
            t as int,
        ) by {
            assert(out@.contains(t) <==> out@.to_multiset().count(t) > 0);
            assert(pre_sort.contains(t) <==> pre_sort.to_multiset().count(t) > 0);
            assert(pre_sort.to_multiset().count(t) == out@.to_multiset().count(t));
        }
        assert forall|i: int, j: int| 0 <= i < j < out@.len() implies out@[i] < out@[j] by {}
    }
    out
}

} // verus!
