//! The rate-limit windows that the Codex app-server reports: in which order
//! the additional buckets are shown, and what each window is called.
use vstd::prelude::*;

use crate::codex::opt_view;
use crate::codex_dashboard::{
    additional_bucket_label_with_name, additional_window_label, bucket_label, window_label,
};
use crate::text::{
    chars_eq, chars_of, lemma_lex_asymmetric, lemma_lex_irreflexive, lemma_lex_total,
    lemma_lex_transitive, lex_less, lex_lt,
};

verus! {

/// A rate-limit bucket of the app-server, by the fields its order and labels
/// depend on.
#[derive(Clone, Debug)]
pub struct BucketKey {
    pub limit_id: String,
    pub limit_name: Option<String>,
}

/// The bucket that holds the standard Codex windows.
pub open spec fn is_standard_bucket(b: BucketKey) -> bool {
    b.limit_id@ == "codex"@
}

/// The label an additional bucket is ordered by.
pub open spec fn key_label(b: BucketKey) -> Seq<char> {
    bucket_label(b.limit_id@, match b.limit_name {
        Some(n) => Some(n@),
        None => None,
    })
}

/// Bucket `i` comes before bucket `j`: a smaller label, then a smaller id,
/// then the earlier position.
pub open spec fn bucket_before(bs: Seq<BucketKey>, i: int, j: int) -> bool {
    ||| lex_lt(key_label(bs[i]), key_label(bs[j]))
    ||| key_label(bs[i]) == key_label(bs[j]) && lex_lt(bs[i].limit_id@, bs[j].limit_id@)
    ||| key_label(bs[i]) == key_label(bs[j]) && bs[i].limit_id@ == bs[j].limit_id@ && i < j
}

/// `order` lists the additional buckets, each once, in bucket order.
pub open spec fn additional_order(bs: Seq<BucketKey>, order: Seq<usize>) -> bool {
    &&& forall|p: int| 0 <= p < order.len() ==> (#[trigger] order[p]) < bs.len()
    &&& forall|p: int, q: int|
        0 <= p < q < order.len() ==> bucket_before(bs, #[trigger] order[p] as int, #[trigger] order[q] as int)
    &&& forall|i: int|
        0 <= i < bs.len() ==> (order.contains(i as usize) <==> !is_standard_bucket(#[trigger] bs[i]))
}

proof fn lemma_bucket_order(bs: Seq<BucketKey>, i: int, j: int, k: int)
    ensures
        !bucket_before(bs, i, i),
        bucket_before(bs, i, j) ==> !bucket_before(bs, j, i),
        bucket_before(bs, i, j) && bucket_before(bs, j, k) ==> bucket_before(bs, i, k),
        i != j ==> bucket_before(bs, i, j) || bucket_before(bs, j, i),
{
    lemma_lex_irreflexive(key_label(bs[i]));
    lemma_lex_irreflexive(bs[i].limit_id@);
    lemma_lex_asymmetric(key_label(bs[i]), key_label(bs[j]));
    lemma_lex_asymmetric(bs[i].limit_id@, bs[j].limit_id@);
    lemma_lex_transitive(key_label(bs[i]), key_label(bs[j]), key_label(bs[k]));
    lemma_lex_transitive(bs[i].limit_id@, bs[j].limit_id@, bs[k].limit_id@);
    lemma_lex_total(key_label(bs[i]), key_label(bs[j]));
    lemma_lex_total(bs[i].limit_id@, bs[j].limit_id@);
    if lex_lt(key_label(bs[i]), key_label(bs[j])) && key_label(bs[j]) == key_label(bs[k]) {
        assert(lex_lt(key_label(bs[i]), key_label(bs[k])));
    }
    if key_label(bs[i]) == key_label(bs[j]) && lex_lt(key_label(bs[j]), key_label(bs[k])) {
        assert(lex_lt(key_label(bs[i]), key_label(bs[k])));
    }
    if key_label(bs[i]) == key_label(bs[j]) && key_label(bs[j]) == key_label(bs[k]) {
        if lex_lt(bs[i].limit_id@, bs[j].limit_id@) && bs[j].limit_id@ == bs[k].limit_id@ {
            assert(lex_lt(bs[i].limit_id@, bs[k].limit_id@));
        }
        if bs[i].limit_id@ == bs[j].limit_id@ && lex_lt(bs[j].limit_id@, bs[k].limit_id@) {
            assert(lex_lt(bs[i].limit_id@, bs[k].limit_id@));
        }
    }
}

/// Whether bucket `i` comes before bucket `j`, given their labels and ids.
fn bucket_less(
    bs: &Vec<BucketKey>,
    labels: &Vec<Vec<char>>,
    ids: &Vec<Vec<char>>,
    i: usize,
    j: usize,
) -> (res: bool)
    requires
        labels@.len() == bs@.len(),
        ids@.len() == bs@.len(),
        i < bs@.len(),
        j < bs@.len(),
        forall|k: int| 0 <= k < bs@.len() ==> (#[trigger] labels@[k])@ == key_label(bs@[k]),
        forall|k: int| 0 <= k < bs@.len() ==> (#[trigger] ids@[k])@ == bs@[k].limit_id@,
    ensures
        res == bucket_before(bs@, i as int, j as int),
{
    let li = labels[i].as_slice();
    let lj = labels[j].as_slice();
    if lex_less(li, lj) {
        return true;
    }
    if !chars_eq(li, lj) {
        return false;
    }
    let ii = ids[i].as_slice();
    let ij = ids[j].as_slice();
    if lex_less(ii, ij) {
        return true;
    }
    chars_eq(ii, ij) && i < j
}

/// The additional buckets, that is all but the standard `codex` one, in the
/// order they are shown: by label, then by limit id.
pub fn additional_bucket_order(buckets: &Vec<BucketKey>) -> (res: Vec<usize>)
    ensures
        additional_order(buckets@, res@),
{
    let n = buckets.len();
    let mut labels: Vec<Vec<char>> = Vec::new();
    let mut ids: Vec<Vec<char>> = Vec::new();
    let mut k: usize = 0;
    while k < n
        invariant
            n == buckets@.len(),
            k <= n,
            labels@.len() == k,
            ids@.len() == k,
            forall|t: int| 0 <= t < k ==> (#[trigger] labels@[t])@ == key_label(buckets@[t]),
            forall|t: int| 0 <= t < k ==> (#[trigger] ids@[t])@ == buckets@[t].limit_id@,
        decreases n - k,
    {
        let b = &buckets[k];
        let name: Option<&str> = match &b.limit_name {
            Some(s) => Some(s.as_str()),
            None => None,
        };
        let label = additional_bucket_label_with_name(b.limit_id.as_str(), name);
        proof {
            assert(opt_view(name) == match b.limit_name {
                Some(s) => Some(s@),
                None => None::<Seq<char>>,
            });
        }
        labels.push(chars_of(label.as_str()));
        ids.push(chars_of(b.limit_id.as_str()));
        k = k + 1;
    }
    let standard = chars_of("codex");
    let mut order: Vec<usize> = Vec::new();
    let mut i: usize = 0;
    while i < n
        invariant
            n == buckets@.len(),
            i <= n,
            labels@.len() == n,
            ids@.len() == n,
            standard@ == "codex"@,
            forall|t: int| 0 <= t < n ==> (#[trigger] labels@[t])@ == key_label(buckets@[t]),
            forall|t: int| 0 <= t < n ==> (#[trigger] ids@[t])@ == buckets@[t].limit_id@,
            forall|p: int| 0 <= p < order@.len() ==> (#[trigger] order@[p]) < i,
            forall|p: int, q: int|
                0 <= p < q < order@.len() ==> bucket_before(
                    buckets@,
                    #[trigger] order@[p] as int,
                    #[trigger] order@[q] as int,
                ),
            forall|t: int|
                0 <= t < i ==> (order@.contains(t as usize) <==> !is_standard_bucket(
                    #[trigger] buckets@[t],
                )),
        decreases n - i,
    {
        if !chars_eq(ids[i].as_slice(), standard.as_slice()) {
            let mut p: usize = 0;
            while p < order.len() && bucket_less(buckets, &labels, &ids, order[p], i)
                invariant
                    p <= order@.len(),
                    i < n,
                    n == buckets@.len(),
                    labels@.len() == n,
                    ids@.len() == n,
                    forall|t: int| 0 <= t < n ==> (#[trigger] labels@[t])@ == key_label(buckets@[t]),
                    forall|t: int| 0 <= t < n ==> (#[trigger] ids@[t])@ == buckets@[t].limit_id@,
                    forall|t: int| 0 <= t < order@.len() ==> (#[trigger] order@[t]) < i,
                    forall|t: int| 0 <= t < p ==> bucket_before(buckets@, #[trigger] order@[t] as int, i as int),
                decreases order@.len() - p,
            {
                p = p + 1;
            }
            let ghost before = order@;
            proof {
                assert forall|t: int| p <= t < before.len() implies bucket_before(
                    buckets@,
                    i as int,
                    #[trigger] before[t] as int,
                ) by {
                    lemma_bucket_order(buckets@, before[p as int] as int, i as int, 0);
                    if t == p {
                        assert(!bucket_before(buckets@, before[p as int] as int, i as int));
                        assert(before[p as int] != i);
                        lemma_bucket_order(buckets@, i as int, before[p as int] as int, 0);
                    } else {
                        lemma_bucket_order(buckets@, before[p as int] as int, i as int, 0);
                        lemma_bucket_order(buckets@, i as int, before[p as int] as int, before[t] as int);
                        assert(before[p as int] != i);
                    }
                }
            }
            order.insert(p, i);
            proof {
                assert(order@ == before.insert(p as int, i));
                assert forall|a: int, b: int| 0 <= a < b < order@.len() implies bucket_before(
                    buckets@,
                    #[trigger] order@[a] as int,
                    #[trigger] order@[b] as int,
                ) by {
                    if b < p {
                        assert(order@[a] == before[a] && order@[b] == before[b]);
                    } else if b == p {
                        assert(order@[a] == before[a]);
                    } else if a < p {
                        assert(order@[a] == before[a] && order@[b] == before[b - 1]);
                        lemma_bucket_order(buckets@, before[a] as int, i as int, before[b - 1] as int);
                    } else if a == p {
                        assert(order@[b] == before[b - 1]);
                    } else {
                        assert(order@[a] == before[a - 1] && order@[b] == before[b - 1]);
                    }
                }
                assert forall|t: int| 0 <= t <= i implies (order@.contains(t as usize) <==> !is_standard_bucket(
                    #[trigger] buckets@[t],
                )) by {
                    if t < i {
                        if before.contains(t as usize) {
                            let w = choose|w: int| 0 <= w < before.len() && before[w] == t as usize;
                            if w < p {
                                assert(order@[w] == t as usize);
                            } else {
                                assert(order@[w + 1] == t as usize);
                            }
                        }
                        if order@.contains(t as usize) {
                            let w = choose|w: int| 0 <= w < order@.len() && order@[w] == t as usize;
                            if w < p {
                                assert(before[w] == t as usize);
                            } else if w == p {
                            } else {
                                assert(before[w - 1] == t as usize);
                            }
                        }
                    } else {
                        assert(order@[p as int] == i);
                    }
                }
            }
        } else {
            proof {
                assert(!order@.contains(i));
            }
        }
        i = i + 1;
    }
    order
}

/// The name of a window and its two lengths, as the dashboard keeps them.
pub struct WindowFields {
    pub name: String,
    /// The length of a standard window.
    pub window_minutes: Option<u64>,
    /// The length of a window of an additional bucket.
    pub source_window_minutes: Option<u64>,
}

/// What a window is called: the slot of a standard window, else the label of
/// its bucket with the window's length.
pub open spec fn window_name(
    limit_id: Option<Seq<char>>,
    limit_name: Option<Seq<char>>,
    minutes: Option<u64>,
    slot: Seq<char>,
) -> Seq<char> {
    match limit_id {
        Some(id) => window_label(bucket_label(id, limit_name), minutes, slot),
        None => slot,
    }
}

/// The name and lengths of the `slot` window of a bucket: a standard window
/// (no limit id) keeps its length as its window length, a window of an
/// additional bucket as its source length.
pub fn limit_window_fields(
    limit_id: Option<&str>,
    limit_name: Option<&str>,
    minutes: Option<u64>,
    slot: &str,
) -> (res: WindowFields)
    ensures
        res.name@ == window_name(opt_view(limit_id), opt_view(limit_name), minutes, slot@),
        res.window_minutes == (if limit_id is Some { None } else { minutes }),
        res.source_window_minutes == (if limit_id is Some { minutes } else { None }),
{
    match limit_id {
        Some(id) => {
            let base = additional_bucket_label_with_name(id, limit_name);
            let name = additional_window_label(base.as_str(), minutes, slot);
            WindowFields { name, window_minutes: None, source_window_minutes: minutes }
        },
        None => WindowFields {
            name: String::from_str(slot),
            window_minutes: minutes,
            source_window_minutes: None,
        },
    }
}

} // verus!
