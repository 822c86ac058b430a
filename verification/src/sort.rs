//! The sort engine: project a column into truncated byte keys, sort the
//! `(row id, key)` pairs with the worker pool, and emit a permutation of the
//! row ids; descending order is the ascending permutation reversed.
//!
//! Keys are the first 256 UTF-8 bytes of the cell, cut at a code-point
//! boundary: rows whose cells agree on that prefix tie, and ties order by
//! row id, which makes the permutation unique.

use rayon::slice::ParallelSliceMut;
use vstd::prelude::*;

use crate::policy::{spec_trunc, truncate_field};
use vstd::string::StrSliceExecFns;

verus! {

/// Sort keys keep at most this many bytes of the cell.
pub const SORT_VALUE_MAX_LEN: usize = 256;

/// Lexicographic byte order.
pub open spec fn lex_le(a: Seq<u8>, b: Seq<u8>) -> bool
    decreases a.len(),
{
    if a.len() == 0 {
        true
    } else if b.len() == 0 {
        false
    } else if a[0] < b[0] {
        true
    } else if a[0] > b[0] {
        false
    } else {
        lex_le(a.drop_first(), b.drop_first())
    }
}

pub proof fn lemma_lex_le_total(a: Seq<u8>, b: Seq<u8>)
    ensures
        lex_le(a, b) || lex_le(b, a),
    decreases a.len(),
{
    if a.len() > 0 && b.len() > 0 && a[0] == b[0] {
        lemma_lex_le_total(a.drop_first(), b.drop_first());
    }
}

pub proof fn lemma_lex_le_antisym(a: Seq<u8>, b: Seq<u8>)
    requires
        lex_le(a, b),
        lex_le(b, a),
    ensures
        a == b,
    decreases a.len(),
{
    if a.len() > 0 && b.len() > 0 && a[0] == b[0] {
        lemma_lex_le_antisym(a.drop_first(), b.drop_first());
        assert(a =~= seq![a[0]] + a.drop_first());
        assert(b =~= seq![b[0]] + b.drop_first());
    } else if a.len() == 0 {
        assert(b.len() == 0);
        assert(a =~= b);
    }
}

/// Pair order: by key bytes, ties broken by row id — a total order in which
/// distinct pairs never tie.
pub open spec fn pair_le(a: (u32, Seq<u8>), b: (u32, Seq<u8>)) -> bool {
    if a.1 == b.1 {
        a.0 <= b.0
    } else {
        lex_le(a.1, b.1)
    }
}

pub proof fn lemma_pair_le_total(a: (u32, Seq<u8>), b: (u32, Seq<u8>))
    ensures
        pair_le(a, b) || pair_le(b, a),
        pair_le(a, b) && pair_le(b, a) ==> a == b,
{
    lemma_lex_le_total(a.1, b.1);
    if pair_le(a, b) && pair_le(b, a) {
        if a.1 == b.1 {
        } else {
            lemma_lex_le_antisym(a.1, b.1);
        }
    }
}

/// Three-way comparison of `(row id, key)` pairs: negative, zero or positive
/// as the first is below, equal to or above the second.
pub fn pair_cmp(a: &(u32, Vec<u8>), b: &(u32, Vec<u8>)) -> (r: i8)
    ensures
        r < 0 ==> pair_le((a.0, a.1@), (b.0, b.1@)) && (a.0, a.1@) != (b.0, b.1@),
        r == 0 ==> (a.0, a.1@) == (b.0, b.1@),
        r > 0 ==> pair_le((b.0, b.1@), (a.0, a.1@)) && (a.0, a.1@) != (b.0, b.1@),
{
    let av = &a.1;
    let bv = &b.1;
    let mut i: usize = 0;
    let cmp_state: i8;
    loop
        invariant_except_break
            0 <= i <= av@.len(),
            i <= bv@.len(),
            av@.skip(i as int).len() == av@.len() - i,
            forall|k: int| 0 <= k < i ==> av@[k] == bv@[k],
        ensures
            ({
                let ka = av@;
                let kb = bv@;
                (lex_le(ka, kb) && lex_le(kb, ka) && ka == kb && cmp_state == 0) || (lex_le(ka, kb)
                    && !lex_le(kb, ka) && cmp_state < 0) || (!lex_le(ka, kb) && lex_le(kb, ka)
                    && cmp_state > 0)
            }),
        decreases av@.len() - i,
    {
        proof {
            lemma_lex_skip(av@, bv@, i as int);
        }
        if i == av.len() && i == bv.len() {
            proof {
                assert(av@ =~= bv@);
                lemma_lex_le_total(av@, bv@);
            }
            cmp_state = 0;
            break ;
        }
        if i == av.len() {
            cmp_state = -1;
            break ;
        }
        if i == bv.len() {
            cmp_state = 1;
            break ;
        }
        if av[i] < bv[i] {
            cmp_state = -1;
            break ;
        }
        if av[i] > bv[i] {
            cmp_state = 1;
            break ;
        }
        i = i + 1;
    }
    if cmp_state == 0 {
        proof {
            assert(av@ == bv@);
        }
        if a.0 < b.0 {
            -1
        } else if a.0 > b.0 {
            1
        } else {
            0
        }
    } else {
        cmp_state
    }
}

/// The ghost value of a pair list.
pub open spec fn pairs_view(s: Seq<(u32, Vec<u8>)>) -> Seq<(u32, Seq<u8>)> {
    Seq::new(s.len(), |k: int| (s[k].0, s[k].1@))
}

/// Relies on rayon's `par_sort_unstable_by`: sorts the vector into ascending
/// order of the given comparator and keeps exactly the same elements; the
/// comparator closure only calls the verified three-way pair comparison,
/// which realizes the total order `pair_le`.
#[verifier::external_body]
fn par_sort_pairs(v: &mut Vec<(u32, Vec<u8>)>)
    ensures
        pairs_view(final(v)@).to_multiset() == pairs_view(old(v)@).to_multiset(),
        forall|i: int, j: int|
            0 <= i < j < final(v)@.len() ==> pair_le(
                pairs_view(final(v)@)[i],
                pairs_view(final(v)@)[j],
            ),
{
    v.par_sort_unstable_by(
        |a, b|
            {
                let c = pair_cmp(a, b);
                if c < 0 {
                    core::cmp::Ordering::Less
                } else if c == 0 {
                    core::cmp::Ordering::Equal
                } else {
                    core::cmp::Ordering::Greater
                }
            },
    );
}

/// A copy of a byte vector.
pub fn copy_bytes(v: &Vec<u8>) -> (r: Vec<u8>)
    ensures
        r@ == v@,
{
    let mut out: Vec<u8> = Vec::new();
    out.extend_from_slice(v.as_slice());
    proof {
        assert(out@ =~= v@);
    }
    out
}

/// `perm` is a sort permutation of the keys: a rearrangement of all row ids
/// in which every adjacent pair of projected `(key, id)` entries is ordered.
pub open spec fn is_sorted_perm(keysv: Seq<Seq<u8>>, perm: Seq<u32>, ascending: bool) -> bool {
    &&& perm.len() == keysv.len()
    &&& forall|k: int| 0 <= k < perm.len() ==> (#[trigger] perm[k]) < keysv.len()
    &&& perm.no_duplicates()
    &&& forall|i: int, j: int|
        0 <= i < j < perm.len() ==> (if ascending {
            pair_le(
                (perm[i], keysv[perm[i] as int]),
                (#[trigger] perm[j], keysv[perm[j] as int]),
            )
        } else {
            pair_le(
                (perm[j], keysv[perm[j] as int]),
                (#[trigger] perm[i], keysv[perm[i] as int]),
            )
        })
}

/// Sort the rows by their projected keys: the result is a permutation of all
/// row ids, ordered by `(key, id)` — ascending, or descending when asked.
pub fn sort_permutation(keys: &Vec<Vec<u8>>, ascending: bool) -> (r: Vec<u32>)
    requires
        keys@.len() <= u32::MAX,
    ensures
        is_sorted_perm(crate::record::rows_bytes_view(*keys), r@, ascending),
{
    broadcast use vstd::seq_lib::group_to_multiset_ensures;

    let ghost kv = crate::record::rows_bytes_view(*keys);
    let n = keys.len();
    let mut pairs: Vec<(u32, Vec<u8>)> = Vec::new();
    let mut i: usize = 0;
    while i < n
        invariant
            0 <= i <= n,
            n == keys@.len() <= u32::MAX,
            kv == crate::record::rows_bytes_view(*keys),
            pairs@.len() == i,
            forall|k: int|
                0 <= k < i ==> #[trigger] pairs_view(pairs@)[k] == (k as u32, kv[k]),
        decreases n - i,
    {
        let ghost pre = pairs_view(pairs@);
        let kc = copy_bytes(&keys[i]);
        let ghost kcv = kc@;
        pairs.push((i as u32, kc));
        i = i + 1;
        proof {
            let post = pairs_view(pairs@);
            assert forall|k: int| 0 <= k < i implies #[trigger] post[k] == (k as u32, kv[k]) by {
                if k < i - 1 {
                    assert(post[k] == pre[k]);
                } else {
                    assert(post[k] == (pairs@[k].0, pairs@[k].1@));
                    assert(kcv == kv[k]);
                }
            }
        }
    }
    let ghost pv0 = pairs_view(pairs@);
    proof {
        assert(pv0.len() == n);
        assert forall|a: int, b: int| 0 <= a < b < pv0.len() implies pv0[a] != pv0[b] by {
            assert(pv0[a].0 == a as u32 && pv0[b].0 == b as u32);
        }
        assert(pv0.no_duplicates());
        pv0.lemma_multiset_has_no_duplicates();
    }
    par_sort_pairs(&mut pairs);
    let ghost pv1 = pairs_view(pairs@);
    proof {
        assert(pv1.len() == pv0.len()) by {
            assert(pv1.to_multiset().len() == pv0.to_multiset().len());
        }
        assert forall|x: (u32, Seq<u8>)| pv1.to_multiset().contains(x) implies pv1.to_multiset()
            .count(x) == 1 by {
            assert(pv0.to_multiset().count(x) == pv1.to_multiset().count(x));
        }
        pv1.lemma_multiset_has_no_duplicates_conv();
        assert forall|k: int| 0 <= k < pv1.len() implies (#[trigger] pv1[k]).0 < n && pv1[k].1
            == kv[pv1[k].0 as int] by {
            assert(pv1.contains(pv1[k]));
            assert(pv1.to_multiset().count(pv1[k]) > 0);
            assert(pv0.to_multiset().count(pv1[k]) > 0);
            assert(pv0.contains(pv1[k]));
            let m = choose|m: int| 0 <= m < pv0.len() && pv0[m] == pv1[k];
            assert(pv0[m] == (m as u32, kv[m]));
        }
    }
    let mut out: Vec<u32> = Vec::new();
    let mut j: usize = 0;
    while j < pairs.len()
        invariant
            0 <= j <= pairs@.len(),
            pv1 == pairs_view(pairs@),
            out@.len() == j,
            forall|k: int| 0 <= k < j ==> #[trigger] out@[k] == pv1[k].0,
        decreases pairs@.len() - j,
    {
        let id = pairs[j].0;
        assert(id == pv1[j as int].0);
        out.push(id);
        j = j + 1;
    }
    proof {
        assert(out@.len() == n);
        assert forall|a: int, b: int| 0 <= a < b < out@.len() implies out@[a] != out@[b] by {
            if out@[a] == out@[b] {
                assert(pv1[a].1 == kv[pv1[a].0 as int]);
                assert(pv1[b].1 == kv[pv1[b].0 as int]);
                assert(pv1[a] == pv1[b]);
            }
        }
        assert(out@.no_duplicates());
        assert forall|a: int, b: int|
            #![trigger out@[a], out@[b]]
            0 <= a < b < out@.len() implies pair_le(
            (out@[a], kv[out@[a] as int]),
            (out@[b], kv[out@[b] as int]),
        ) by {
            assert(pv1[a].1 == kv[pv1[a].0 as int]);
            assert(pv1[b].1 == kv[pv1[b].0 as int]);
            assert(pair_le(pv1[a], pv1[b]));
        }
        assert(is_sorted_perm(kv, out@, true));
    }
    if ascending {
        out
    } else {
        let mut rev: Vec<u32> = Vec::new();
        let mut k: usize = 0;
        let total = out.len();
        while k < total
            invariant
                0 <= k <= total,
                total == out@.len(),
                is_sorted_perm(kv, out@, true),
                n == kv.len(),
                rev@.len() == k,
                forall|t: int| 0 <= t < k ==> #[trigger] rev@[t] == out@[total - 1 - t],
            decreases total - k,
        {
            let id = out[total - 1 - k];
            rev.push(id);
            k = k + 1;
        }
        proof {
            assert(rev@.len() == kv.len());
            assert forall|a: int, b: int| 0 <= a < b < rev@.len() implies rev@[a] != rev@[b] by {
                assert(rev@[a] == out@[total - 1 - a]);
                assert(rev@[b] == out@[total - 1 - b]);
            }
            assert(rev@.no_duplicates());
            assert forall|a: int, b: int|
                #![trigger rev@[a], rev@[b]]
                0 <= a < b < rev@.len() implies pair_le(
                (rev@[b], kv[rev@[b] as int]),
                (rev@[a], kv[rev@[a] as int]),
            ) by {
                assert(rev@[a] == out@[total - 1 - a]);
                assert(rev@[b] == out@[total - 1 - b]);
                assert(pair_le(
                    (out@[total - 1 - b], kv[out@[total - 1 - b] as int]),
                    (out@[total - 1 - a], kv[out@[total - 1 - a] as int]),
                ));
            }
            assert(is_sorted_perm(kv, rev@, false));
        }
        rev
    }
}

/// Two id sequences with the same id set, no duplicates and the same
/// ascending `(key, id)` order are equal, position by position.
proof fn lemma_sorted_ids_unique(keysv: Seq<Seq<u8>>, p: Seq<u32>, q: Seq<u32>)
    requires
        p.len() == q.len(),
        p.no_duplicates(),
        q.no_duplicates(),
        p.to_set() == q.to_set(),
        forall|k: int| 0 <= k < p.len() ==> (#[trigger] p[k]) < keysv.len(),
        forall|k: int| 0 <= k < q.len() ==> (#[trigger] q[k]) < keysv.len(),
        forall|i: int, j: int|
            #![trigger p[i], p[j]]
            0 <= i < j < p.len() ==> pair_le(
                (p[i], keysv[p[i] as int]),
                (p[j], keysv[p[j] as int]),
            ),
        forall|i: int, j: int|
            #![trigger q[i], q[j]]
            0 <= i < j < q.len() ==> pair_le(
                (q[i], keysv[q[i] as int]),
                (q[j], keysv[q[j] as int]),
            ),
    ensures
        p == q,
    decreases p.len(),
{
    if p.len() == 0 {
        assert(p =~= q);
    } else {
        assert(p.to_set().contains(p[0]));
        assert(q.to_set().contains(p[0]));
        let jq = choose|j: int| 0 <= j < q.len() && q[j] == p[0];
        assert(q.to_set().contains(q[0]));
        assert(p.to_set().contains(q[0]));
        let jp = choose|j: int| 0 <= j < p.len() && p[j] == q[0];
        assert(pair_le((p[0], keysv[p[0] as int]), (q[0], keysv[q[0] as int]))) by {
            if jp > 0 {
                assert(pair_le((p[0], keysv[p[0] as int]), (p[jp], keysv[p[jp] as int])));
            }
        }
        assert(pair_le((q[0], keysv[q[0] as int]), (p[0], keysv[p[0] as int]))) by {
            if jq > 0 {
                assert(pair_le((q[0], keysv[q[0] as int]), (q[jq], keysv[q[jq] as int])));
            }
        }
        lemma_pair_le_total((p[0], keysv[p[0] as int]), (q[0], keysv[q[0] as int]));
        assert(p[0] == q[0]);
        let pt = p.drop_first();
        let qt = q.drop_first();
        assert(pt.to_set() =~= qt.to_set()) by {
            assert forall|x: u32| pt.to_set().contains(x) implies qt.to_set().contains(x) by {
                let j = choose|j: int| 0 <= j < pt.len() && pt[j] == x;
                assert(p[j + 1] == x);
                assert(x != p[0]);
                assert(p.to_set().contains(x));
                assert(q.to_set().contains(x));
                let m = choose|m: int| 0 <= m < q.len() && q[m] == x;
                assert(m != 0);
                assert(qt[m - 1] == x);
            }
            assert forall|x: u32| qt.to_set().contains(x) implies pt.to_set().contains(x) by {
                let j = choose|j: int| 0 <= j < qt.len() && qt[j] == x;
                assert(q[j + 1] == x);
                assert(x != q[0]);
                assert(q.to_set().contains(x));
                assert(p.to_set().contains(x));
                let m = choose|m: int| 0 <= m < p.len() && p[m] == x;
                assert(m != 0);
                assert(pt[m - 1] == x);
            }
        }
        assert(forall|k: int| 0 <= k < pt.len() ==> pt[k] == #[trigger] p[k + 1]);
        assert(forall|k: int| 0 <= k < qt.len() ==> qt[k] == #[trigger] q[k + 1]);
        lemma_sorted_ids_unique(keysv, pt, qt);
        assert(p =~= q) by {
            assert(forall|k: int| 1 <= k < p.len() ==> p[k] == pt[k - 1] && q[k] == qt[k - 1]);
        }
    }
}

/// A subset with the same finite cardinality is the whole set.
proof fn lemma_subset_same_len(a: Set<int>, b: Set<int>)
    requires
        a.subset_of(b),
        a.finite(),
        b.finite(),
        a.len() == b.len(),
    ensures
        a == b,
{
    assert forall|x: int| b.contains(x) implies a.contains(x) by {
        if !a.contains(x) {
            assert(a.subset_of(b.remove(x)));
            vstd::set_lib::lemma_len_subset(a, b.remove(x));
        }
    }
    assert(a =~= b);
}

/// A duplicate-free id sequence of length `n` with values below `n` holds
/// exactly the ids below `n`.
proof fn lemma_ids_cover(p: Seq<u32>, n: int)
    requires
        p.len() == n,
        p.no_duplicates(),
        forall|k: int| 0 <= k < p.len() ==> (#[trigger] p[k]) < n,
    ensures
        p.map_values(|x: u32| x as int).to_set() == vstd::set_lib::set_int_range(0, n),
{
    let pi = p.map_values(|x: u32| x as int);
    assert(pi.no_duplicates()) by {
        assert forall|i: int, j: int|
            0 <= i < pi.len() && 0 <= j < pi.len() && i != j implies pi[i] != pi[j] by {
            assert(pi[i] == p[i] as int && pi[j] == p[j] as int);
        }
    }
    pi.unique_seq_to_set();
    let range = vstd::set_lib::set_int_range(0, n);
    vstd::set_lib::lemma_int_range(0, n);
    assert(pi.to_set().subset_of(range)) by {
        assert forall|x: int| pi.to_set().contains(x) implies range.contains(x) by {
            let k = choose|k: int| 0 <= k < pi.len() && pi[k] == x;
            assert(p[k] < n);
        }
    }
    lemma_subset_same_len(pi.to_set(), range);
}

/// Sorting law: the sort permutation of a key list is unique in each
/// direction, and the descending permutation is exactly the ascending one
/// reversed — sorting descending and reversing an ascending sort agree as
/// sequences.
pub proof fn lemma_sort_descending_is_reverse(keysv: Seq<Seq<u8>>, p: Seq<u32>, q: Seq<u32>)
    requires
        is_sorted_perm(keysv, p, true),
        is_sorted_perm(keysv, q, false),
    ensures
        q == p.reverse(),
{
    let n = keysv.len() as int;
    let pr = p.reverse();
    assert(pr.len() == n);
    assert(forall|k: int| 0 <= k < pr.len() ==> #[trigger] pr[k] == p[p.len() - 1 - k]);
    assert(pr.no_duplicates()) by {
        assert forall|i: int, j: int|
            0 <= i < pr.len() && 0 <= j < pr.len() && i != j implies pr[i] != pr[j] by {
            assert(pr[i] == p[p.len() - 1 - i] && pr[j] == p[p.len() - 1 - j]);
        }
    }
    let qr = q.reverse();
    assert(qr.len() == n);
    assert(forall|k: int| 0 <= k < qr.len() ==> #[trigger] qr[k] == q[q.len() - 1 - k]);
    assert(qr.no_duplicates()) by {
        assert forall|i: int, j: int|
            0 <= i < qr.len() && 0 <= j < qr.len() && i != j implies qr[i] != qr[j] by {
            assert(qr[i] == q[q.len() - 1 - i] && qr[j] == q[q.len() - 1 - j]);
        }
    }
    lemma_ids_cover(p, n);
    lemma_ids_cover(qr, n);
    let pi = p.map_values(|x: u32| x as int);
    let qri = qr.map_values(|x: u32| x as int);
    assert(p.to_set() =~= qr.to_set()) by {
        assert forall|x: u32| p.to_set().contains(x) implies qr.to_set().contains(x) by {
            let k = choose|k: int| 0 <= k < p.len() && p[k] == x;
            assert(pi[k] == x as int);
            assert(pi.to_set().contains(x as int));
            assert(qri.to_set().contains(x as int));
            let m = choose|m: int| 0 <= m < qri.len() && qri[m] == x as int;
            assert(qr[m] == x);
        }
        assert forall|x: u32| qr.to_set().contains(x) implies p.to_set().contains(x) by {
            let k = choose|k: int| 0 <= k < qr.len() && qr[k] == x;
            assert(qri[k] == x as int);
            assert(qri.to_set().contains(x as int));
            assert(pi.to_set().contains(x as int));
            let m = choose|m: int| 0 <= m < pi.len() && pi[m] == x as int;
            assert(p[m] == x);
        }
    }
    assert(forall|k: int| 0 <= k < qr.len() ==> (#[trigger] qr[k]) < keysv.len());
    assert forall|i: int, j: int|
        #![trigger qr[i], qr[j]]
        0 <= i < j < qr.len() implies pair_le(
        (qr[i], keysv[qr[i] as int]),
        (qr[j], keysv[qr[j] as int]),
    ) by {
        let a = q.len() - 1 - j;
        let b = q.len() - 1 - i;
        assert(0 <= a < b < q.len());
        assert(qr[i] == q[b] && qr[j] == q[a]);
        assert(pair_le((q[b], keysv[q[b] as int]), (q[a], keysv[q[a] as int])));
    }
    lemma_sorted_ids_unique(keysv, p, qr);
    assert(q =~= pr) by {
        assert forall|k: int| 0 <= k < q.len() implies #[trigger] q[k] == pr[k] by {
            assert(qr[q.len() - 1 - k] == q[k]);
            assert(qr[q.len() - 1 - k] == p[q.len() - 1 - k]);
            assert(pr[k] == p[p.len() - 1 - k]);
        }
    }
}

/// The sort key of a cell: its UTF-8 bytes truncated to the key budget at a
/// code-point boundary, so comparisons beyond the budget tie by design.
pub open spec fn spec_sort_key(cell: Seq<char>) -> Seq<u8> {
    spec_trunc(vstd::utf8::encode_utf8(cell), SORT_VALUE_MAX_LEN)
}

/// The projected key of one cell.
pub fn sort_key(cell: &str) -> (r: Vec<u8>)
    ensures
        r@ == spec_sort_key(cell@),
{
    let bytes = cell.as_bytes_vec();
    truncate_field(&bytes, SORT_VALUE_MAX_LEN)
}

/// The keys of one column over decoded rows; a row without that cell
/// projects to the empty key.
pub open spec fn spec_column_keys(rows: Seq<Seq<Seq<char>>>, col: int) -> Seq<Seq<u8>> {
    Seq::new(
        rows.len(),
        |i: int|
            if col < rows[i].len() {
                spec_sort_key(rows[i][col])
            } else {
                Seq::<u8>::empty()
            },
    )
}

/// Project the sort column of every row.
pub fn column_keys(rows: &Vec<Vec<String>>, col: usize) -> (r: Vec<Vec<u8>>)
    ensures
        crate::record::rows_bytes_view(r) == spec_column_keys(
            crate::reader::rows_text_view(*rows),
            col as int,
        ),
{
    let ghost rv = crate::reader::rows_text_view(*rows);
    let mut out: Vec<Vec<u8>> = Vec::new();
    let mut i: usize = 0;
    while i < rows.len()
        invariant
            0 <= i <= rows@.len(),
            rv == crate::reader::rows_text_view(*rows),
            out@.len() == i,
            forall|k: int|
                0 <= k < i ==> #[trigger] crate::record::rows_bytes_view(out)[k] == (if col
                    < rv[k].len() {
                    spec_sort_key(rv[k][col as int])
                } else {
                    Seq::<u8>::empty()
                }),
        decreases rows@.len() - i,
    {
        let ghost pre = crate::record::rows_bytes_view(out);
        let row = &rows[i];
        let key: Vec<u8> = if col < row.len() {
            let k = sort_key(row[col].as_str());
            assert(rv[i as int][col as int] == row@[col as int]@);
            k
        } else {
            Vec::new()
        };
        let ghost kvv = key@;
        out.push(key);
        i = i + 1;
        proof {
            let post = crate::record::rows_bytes_view(out);
            assert forall|k: int| 0 <= k < i implies #[trigger] post[k] == (if col < rv[k].len() {
                spec_sort_key(rv[k][col as int])
            } else {
                Seq::<u8>::empty()
            }) by {
                if k < i - 1 {
                    assert(post[k] == pre[k]);
                } else {
                    assert(post[k] == kvv);
                    assert(rv[k].len() == rows@[k]@.len());
                }
            }
        }
    }
    proof {
        assert(crate::record::rows_bytes_view(out) =~= spec_column_keys(rv, col as int));
    }
    out
}

/// Sort decoded rows by a column: project the keys and sort the row ids.
pub fn sort_rows(rows: &Vec<Vec<String>>, col: usize, ascending: bool) -> (r: Vec<u32>)
    requires
        rows@.len() <= u32::MAX,
    ensures
        is_sorted_perm(
            spec_column_keys(crate::reader::rows_text_view(*rows), col as int),
            r@,
            ascending,
        ),
{
    let keys = column_keys(rows, col);
    sort_permutation(&keys, ascending)
}

/// Lexicographic order of two sequences agreeing on a prefix is decided by
/// the remainders.
proof fn lemma_lex_skip(a: Seq<u8>, b: Seq<u8>, i: int)
    requires
        0 <= i <= a.len(),
        i <= b.len(),
        forall|k: int| 0 <= k < i ==> a[k] == b[k],
    ensures
        lex_le(a, b) == lex_le(a.skip(i), b.skip(i)),
        lex_le(b, a) == lex_le(b.skip(i), a.skip(i)),
    decreases i,
{
    if i > 0 {
        assert(a.len() > 0 && b.len() > 0 && a[0] == b[0]);
        assert(a.drop_first() =~= a.skip(1));
        assert(b.drop_first() =~= b.skip(1));
        lemma_lex_skip(a.skip(1), b.skip(1), i - 1);
        assert(a.skip(1).skip(i - 1) =~= a.skip(i));
        assert(b.skip(1).skip(i - 1) =~= b.skip(i));
    } else {
        assert(a.skip(0) =~= a);
        assert(b.skip(0) =~= b);
    }
}

} // verus!
