//! Ranking the distinct keys of a sequence by how often they occur: most
//! frequent first, ties by the smaller key. The palette builders order colors,
//! and split entries, this way, so that the hottest one gets the lowest index.

use vstd::prelude::*;

use crate::tally::{tally_contents, Tally};

verus! {

broadcast use {vstd::seq_lib::group_to_multiset_ensures, vstd::multiset::group_multiset_axioms};

/// Keys are ranked with their count packed above them: `2^64`.
pub const KEY_SPAN: u128 = 0x1_0000_0000_0000_0000;

/// The sort code of a key seen `count` times: ascending codes put the larger
/// count first and, among equal counts, the smaller key first.
pub open spec fn rank_code(count: u32, key: u64) -> int {
    (u32::MAX - count) * KEY_SPAN + key
}

/// Calls `slice::sort_unstable` on the vector. Trusted: std documents that it
/// sorts the slice in ascending order, so the result holds the same values,
/// each as often, in ascending order.
#[verifier::external_body]
pub(crate) fn sort_ascending(v: &mut Vec<u128>)
    ensures
        final(v)@.to_multiset() == old(v)@.to_multiset(),
        forall|i: int, j: int| 0 <= i < j < final(v)@.len() ==> final(v)@[i] <= final(v)@[j],
{
    v.sort_unstable();
}

proof fn lemma_code_parts(hi: int, key: int)
    requires
        0 <= key < KEY_SPAN,
    ensures
        (hi * KEY_SPAN + key) % (KEY_SPAN as int) == key,
        (hi * KEY_SPAN + key) / (KEY_SPAN as int) == hi,
{
    vstd::arithmetic::div_mod::lemma_fundamental_div_mod_converse(
        hi * KEY_SPAN + key,
        KEY_SPAN as int,
        hi,
        key,
    );
}

proof fn lemma_code_order(h1: int, k1: int, h2: int, k2: int)
    requires
        0 <= k1 < KEY_SPAN,
        0 <= k2 < KEY_SPAN,
        h1 * KEY_SPAN + k1 < h2 * KEY_SPAN + k2,
    ensures
        h1 < h2 || (h1 == h2 && k1 < k2),
{
    if h1 > h2 {
        assert(h1 * KEY_SPAN >= (h2 + 1) * KEY_SPAN) by (nonlinear_arith)
            requires
                h1 > h2,
        ;
    } else if h1 == h2 {
    }
}

/// The distinct keys of `keys`, most frequent first and ties by the smaller key,
/// with how often each occurs, and for every element the rank of its key.
pub fn rank_keys(keys: &Vec<u64>) -> (r: (Vec<u64>, Vec<u32>, Vec<u32>))
    requires
        keys.len() <= u32::MAX,
    ensures
        r.0@.no_duplicates(),
        r.1@.len() == r.0@.len(),
        r.2@.len() == keys@.len(),
        r.0@.len() == keys@.to_set().len(),
        forall|p: int|
            0 <= p < keys.len() ==> r.2@[p] < r.0@.len() && r.0@[#[trigger] r.2@[p] as int]
                == keys@[p],
        forall|i: int|
            0 <= i < r.0@.len() ==> #[trigger] r.1@[i] == keys@.to_multiset().count(r.0@[i])
                && r.1@[i] >= 1,
        forall|i: int, j: int|
            0 <= i < j < r.0@.len() ==> r.1@[i] > r.1@[j] || (r.1@[i] == r.1@[j] && r.0@[i]
                < r.0@[j]),
{
    let n = keys.len();
    let mut tally = Tally::new();
    let mut uniq: Vec<u64> = Vec::new();
    let mut p: usize = 0;
    while p < n
        invariant
            n == keys.len() <= u32::MAX,
            p <= n,
            forall|q: int| 0 <= q < n ==> keys@[q] < KEY_SPAN,
            forall|k: u64|
                tally_contents(tally).contains_key(k) <==> keys@.take(p as int).to_multiset().count(
                    k,
                ) > 0,
            forall|k: u64|
                #[trigger] tally_contents(tally).contains_key(k) ==> tally_contents(tally)[k]
                    == keys@.take(p as int).to_multiset().count(k) && tally_contents(tally)[k]
                    <= p,
            uniq@.no_duplicates(),
            forall|k: u64| uniq@.contains(k) <==> tally_contents(tally).contains_key(k),
            uniq.len() <= p,
        decreases n - p,
    {
        let k = keys[p];
        assert(keys@.take(p + 1) =~= keys@.take(p as int).push(k));
        let ghost t0 = tally_contents(tally);
        let ghost u0 = uniq@;
        match tally.get(k) {
            None => {
                assert(!u0.contains(k));
                tally.insert(k, 1);
                uniq.push(k);
                assert forall|x: u64| (x == k || u0.contains(x)) implies uniq@.contains(x) by {
                    if x == k {
                        assert(uniq@[u0.len() as int] == k);
                    } else {
                        let t = choose|t: int| 0 <= t < u0.len() && u0[t] == x;
                        assert(uniq@[t] == x);
                    }
                }
                assert forall|x: u64| uniq@.contains(x) implies (x == k || u0.contains(x)) by {
                    let t = choose|t: int| 0 <= t < uniq@.len() && uniq@[t] == x;
                    if t < u0.len() {
                        assert(u0[t] == x);
                    }
                }
                assert forall|a: int, b: int|
                    0 <= a < uniq@.len() && 0 <= b < uniq@.len() && a != b implies uniq@[a]
                    != uniq@[b] by {
                    if a < u0.len() && b < u0.len() {
                    } else if a < u0.len() {
                        assert(u0.contains(uniq@[a]));
                    } else if b < u0.len() {
                        assert(u0.contains(uniq@[b]));
                    }
                }
            },
            Some(c) => {
                tally.insert(k, c + 1);
            },
        }
        proof {
            assert forall|x: u64| uniq@.contains(x) <==> tally_contents(tally).contains_key(x) by {
                assert(tally_contents(tally).contains_key(x) <==> (x == k || t0.contains_key(x)));
                assert(u0.contains(x) <==> t0.contains_key(x));
                if t0.contains_key(k) {
                    assert(uniq@ == u0);
                    assert(u0.contains(k));
                } else {
                    assert(uniq@ == u0.push(k));
                    assert(uniq@.contains(x) <==> (x == k || u0.contains(x)));
                }
            }
        }
        p = p + 1;
    }
    assert(keys@.take(n as int) =~= keys@);
    // Sort codes: count above, key below.
    let m = uniq.len();
    let mut codes: Vec<u128> = Vec::new();
    let mut j: usize = 0;
    while j < m
        invariant
            m == uniq.len() <= n <= u32::MAX,
            n == keys.len(),
            j <= m,
            uniq@.no_duplicates(),
            forall|k: u64| uniq@.contains(k) <==> tally_contents(tally).contains_key(k),
            forall|k: u64|
                tally_contents(tally).contains_key(k) <==> keys@.to_multiset().count(k) > 0,
            forall|k: u64|
                #[trigger] tally_contents(tally).contains_key(k) ==> tally_contents(tally)[k]
                    == keys@.to_multiset().count(k),
            forall|q: int| 0 <= q < n ==> keys@[q] < KEY_SPAN,
            codes.len() == j,
            forall|t: int|
                0 <= t < j ==> codes@[t] == rank_code(
                    tally_contents(tally)[uniq@[t]],
                    uniq@[t],
                ),
        decreases m - j,
    {
        let k = uniq[j];
        assert(uniq@.contains(k));
        let c = match tally.get(k) {
            Some(c) => c,
            None => 0,
        };
        proof {
            assert(keys@.to_multiset().count(k) > 0);
            assert(keys@.contains(k));
            let q = choose|q: int| 0 <= q < keys@.len() && keys@[q] == k;
            assert(k < KEY_SPAN);
        }
        codes.push(((u32::MAX - c) as u128) * KEY_SPAN + (k as u128));
        j = j + 1;
    }
    let ghost orig = codes@;
    proof {
        assert forall|a: int, b: int| 0 <= a < m && 0 <= b < m && a != b implies orig[a]
            != orig[b] by {
            let ka = uniq@[a];
            let kb = uniq@[b];
            assert(uniq@.contains(ka));
            assert(keys@.contains(ka));
            assert(uniq@.contains(kb));
            assert(keys@.contains(kb));
            lemma_code_parts(u32::MAX - tally_contents(tally)[ka], ka as int);
            lemma_code_parts(u32::MAX - tally_contents(tally)[kb], kb as int);
        }
        assert(orig.no_duplicates());
        orig.lemma_multiset_has_no_duplicates();
    }
    sort_ascending(&mut codes);
    proof {
        assert(codes@.to_multiset().len() == orig.to_multiset().len());
        assert(codes@.len() == m);
        codes@.lemma_multiset_has_no_duplicates_conv();
    }
    // Decode the ranked keys and counts, and index them.
    let mut ranked: Vec<u64> = Vec::new();
    let mut counts: Vec<u32> = Vec::new();
    let mut rank_of = Tally::new();
    let mut i: usize = 0;
    while i < m
        invariant
            m == uniq.len() == codes.len() <= u32::MAX,
            i <= m,
            codes@.no_duplicates(),
            codes@.to_multiset() == orig.to_multiset(),
            orig.len() == m,
            forall|t: int|
                0 <= t < m ==> orig[t] == rank_code(tally_contents(tally)[uniq@[t]], uniq@[t]),
            forall|a: int, b: int| 0 <= a < b < m ==> codes@[a] <= codes@[b],
            forall|k: u64| uniq@.contains(k) <==> tally_contents(tally).contains_key(k),
            forall|k: u64|
                tally_contents(tally).contains_key(k) <==> keys@.to_multiset().count(k) > 0,
            forall|k: u64|
                #[trigger] tally_contents(tally).contains_key(k) ==> tally_contents(tally)[k]
                    == keys@.to_multiset().count(k),
            forall|q: int| 0 <= q < keys@.len() ==> keys@[q] < KEY_SPAN,
            uniq@.no_duplicates(),
            ranked.len() == i,
            counts.len() == i,
            forall|t: int|
                0 <= t < i ==> codes@[t] == rank_code(counts@[t], ranked@[t]) && #[trigger] counts@[t]
                    == keys@.to_multiset().count(ranked@[t]) && counts@[t] >= 1 && ranked@[t]
                    < KEY_SPAN,
            forall|k: u64|
                #[trigger] tally_contents(rank_of).contains_key(k) ==> tally_contents(rank_of)[k]
                    < i && ranked@[tally_contents(rank_of)[k] as int] == k,
            forall|t: int|
                0 <= t < i ==> tally_contents(rank_of).contains_key(#[trigger] ranked@[t]),
        decreases m - i,
    {
        let v = codes[i];
        proof {
            assert(codes@.contains(v));
            assert(codes@.to_multiset().count(v) > 0);
            assert(orig.contains(v));
            let t0 = choose|t: int| 0 <= t < m && orig[t] == v;
            let k0 = uniq@[t0];
            assert(uniq@.contains(k0));
            assert(keys@.to_multiset().count(k0) > 0);
            assert(keys@.contains(k0));
            lemma_code_parts(u32::MAX - tally_contents(tally)[k0], k0 as int);
        }
        let k = (v % KEY_SPAN) as u64;
        let c = (u32::MAX as u128 - v / KEY_SPAN) as u32;
        ranked.push(k);
        counts.push(c);
        rank_of.insert(k, i as u32);
        i = i + 1;
    }
    // Each element's rank.
    let mut idx: Vec<u32> = Vec::new();
    let mut p: usize = 0;
    while p < n
        invariant
            n == keys.len(),
            m == ranked.len() == codes.len() == uniq.len(),
            p <= n,
            codes@.to_multiset() == orig.to_multiset(),
            orig.len() == m,
            forall|t: int|
                0 <= t < m ==> orig[t] == rank_code(tally_contents(tally)[uniq@[t]], uniq@[t]),
            forall|k: u64| uniq@.contains(k) <==> tally_contents(tally).contains_key(k),
            forall|k: u64|
                tally_contents(tally).contains_key(k) <==> keys@.to_multiset().count(k) > 0,
            forall|q: int| 0 <= q < keys@.len() ==> keys@[q] < KEY_SPAN,
            forall|t: int|
                0 <= t < m ==> codes@[t] == rank_code(counts@[t], ranked@[t]) && #[trigger] counts@[t]
                    == keys@.to_multiset().count(ranked@[t]) && counts@[t] >= 1 && ranked@[t]
                    < KEY_SPAN,
            forall|k: u64|
                #[trigger] tally_contents(rank_of).contains_key(k) ==> tally_contents(rank_of)[k]
                    < m && ranked@[tally_contents(rank_of)[k] as int] == k,
            forall|t: int|
                0 <= t < m ==> tally_contents(rank_of).contains_key(#[trigger] ranked@[t]),
            idx.len() == p,
            forall|q: int|
                0 <= q < p ==> idx@[q] < m && ranked@[#[trigger] idx@[q] as int] == keys@[q],
        decreases n - p,
    {
        let k = keys[p];
        proof {
            assert(keys@.contains(k));
            assert(keys@.to_multiset().count(k) > 0);
            assert(uniq@.contains(k));
            let t = choose|t: int| 0 <= t < m && uniq@[t] == k;
            let v = orig[t];
            assert(orig.contains(v));
            assert(codes@.to_multiset().count(v) > 0);
            assert(codes@.contains(v));
            let a = choose|a: int| 0 <= a < m && codes@[a] == v;
            lemma_code_parts(u32::MAX - tally_contents(tally)[k], k as int);
            lemma_code_parts(u32::MAX - counts@[a], ranked@[a] as int);
            assert(ranked@[a] == k);
        }
        let r = match rank_of.get(k) {
            Some(r) => r,
            None => 0,
        };
        idx.push(r);
        p = p + 1;
    }
    proof {
        assert forall|a: int| 0 <= a < m implies ranked@[a] < KEY_SPAN by {
            assert(counts@[a] >= 1);
        }
        assert forall|a: int, b: int| 0 <= a < m && 0 <= b < m && a != b implies ranked@[a]
            != ranked@[b] by {
            let va = codes@[a];
            let vb = codes@[b];
            assert(codes@.contains(va));
            assert(codes@.to_multiset().count(va) > 0);
            assert(orig.contains(va));
            let ta = choose|t: int| 0 <= t < m && orig[t] == va;
            assert(codes@.contains(vb));
            assert(codes@.to_multiset().count(vb) > 0);
            assert(orig.contains(vb));
            let tb = choose|t: int| 0 <= t < m && orig[t] == vb;
            let ka = uniq@[ta];
            let kb = uniq@[tb];
            assert(uniq@.contains(ka));
            assert(keys@.to_multiset().count(ka) > 0);
            assert(keys@.contains(ka));
            assert(uniq@.contains(kb));
            assert(keys@.to_multiset().count(kb) > 0);
            assert(keys@.contains(kb));
            lemma_code_parts(u32::MAX - tally_contents(tally)[ka], ka as int);
            lemma_code_parts(u32::MAX - tally_contents(tally)[kb], kb as int);
            lemma_code_parts(u32::MAX - counts@[a], ranked@[a] as int);
            lemma_code_parts(u32::MAX - counts@[b], ranked@[b] as int);
        }
        assert forall|a: int, b: int| 0 <= a < b < m implies counts@[a] > counts@[b] || (
        counts@[a] == counts@[b] && ranked@[a] < ranked@[b]) by {
            assert(codes@[a] != codes@[b]);
            lemma_code_order(
                u32::MAX - counts@[a],
                ranked@[a] as int,
                u32::MAX - counts@[b],
                ranked@[b] as int,
            );
        }
    }
    proof {
        assert forall|x: u64| ranked@.to_set().contains(x) <==> keys@.to_set().contains(x) by {
            if ranked@.contains(x) {
                let a = choose|a: int| 0 <= a < m && ranked@[a] == x;
                assert(counts@[a] >= 1);
            }
            if keys@.contains(x) {
                let q = choose|q: int| 0 <= q < n && keys@[q] == x;
                assert(ranked@[idx@[q] as int] == x);
            }
        }
        assert(ranked@.to_set() =~= keys@.to_set());
        ranked@.unique_seq_to_set();
    }
    (ranked, counts, idx)
}

} // verus!
