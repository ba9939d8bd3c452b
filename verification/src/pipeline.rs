//! The identifier stage: flattens the manifest's library folders into one
//! set of candidate keys, removes duplicates, and randomizes the order in
//! which the fetch loop will consume them.

use vstd::prelude::*;

use vstd::seq_lib::lemma_seq_contains_after_push;

use rand::seq::SliceRandom;

verus! {

/// One library folder from the manifest: the items it holds, as pairs of
/// catalog identifier and size on disk.
pub struct Library {
    pub apps: Vec<(u64, u64)>,
}

impl View for Library {
    type V = Seq<(u64, u64)>;

    open spec fn view(&self) -> Seq<(u64, u64)> {
        self.apps@
    }
}

/// Some library folder lists an item with identifier `x`.
pub open spec fn manifest_contains(libs: Seq<Library>, x: u64) -> bool {
    exists|a: int, b: int|
        #![trigger libs[a]@[b]]
        0 <= a < libs.len() && 0 <= b < libs[a]@.len() && libs[a]@[b].0 == x
}

/// `x` occurs among the entries already walked: every folder before `i`,
/// and the first `j` entries of folder `i`.
spec fn manifest_prefix_contains(libs: Seq<Library>, i: int, j: int, x: u64) -> bool {
    exists|a: int, b: int|
        #![trigger libs[a]@[b]]
        0 <= a < libs.len() && 0 <= b < libs[a]@.len() && libs[a]@[b].0 == x && (a < i || (a == i
            && b < j))
}

/// The identifiers of one library folder, in order.
pub open spec fn lib_ids(l: Library) -> Seq<u64> {
    Seq::new(l@.len(), |j: int| l@[j].0)
}

/// All identifiers of all folders, folder by folder, in manifest order.
pub open spec fn flat_ids(libs: Seq<Library>) -> Seq<u64>
    decreases libs.len(),
{
    if libs.len() == 0 {
        Seq::empty()
    } else {
        lib_ids(libs.first()) + flat_ids(libs.drop_first())
    }
}

proof fn lemma_flat_ids_push(libs: Seq<Library>, l: Library)
    ensures
        flat_ids(libs.push(l)) == flat_ids(libs) + lib_ids(l),
    decreases libs.len(),
{
    if libs.len() == 0 {
        let t = libs.push(l);
        assert(t.first() == l);
        assert(t.drop_first() =~= libs);
        assert(flat_ids(t) == lib_ids(l) + flat_ids(libs));
        assert(flat_ids(libs) =~= Seq::<u64>::empty());
        assert(lib_ids(l) + flat_ids(libs) =~= flat_ids(libs) + lib_ids(l));
    } else {
        assert(libs.push(l).drop_first() =~= libs.drop_first().push(l));
        assert(libs.push(l).first() == libs.first());
        lemma_flat_ids_push(libs.drop_first(), l);
        assert(flat_ids(libs.push(l)) == lib_ids(libs.first()) + (flat_ids(libs.drop_first())
            + lib_ids(l)));
        assert(lib_ids(libs.first()) + (flat_ids(libs.drop_first()) + lib_ids(l)) =~= (lib_ids(
            libs.first(),
        ) + flat_ids(libs.drop_first())) + lib_ids(l));
    }
}

/// Flattens all library folders into one sequence of candidate identifiers.
pub fn collect_ids(libs: &Vec<Library>) -> (r: Vec<u64>)
    ensures
        r@ == flat_ids(libs@),
        forall|x: u64| #[trigger] r@.contains(x) <==> manifest_contains(libs@, x),
{
    let mut out: Vec<u64> = Vec::new();
    let n = libs.len();
    let mut i: usize = 0;
    while i < n
        invariant
            n == libs@.len(),
            0 <= i <= n,
            out@ == flat_ids(libs@.subrange(0, i as int)),
            forall|x: u64| #[trigger] out@.contains(x) <==> manifest_prefix_contains(
                libs@,
                i as int,
                0,
                x,
            ),
        decreases n - i,
    {
        let m = libs[i].apps.len();
        let ghost outer_pre = out@;
        let mut j: usize = 0;
        while j < m
            invariant
                n == libs@.len(),
                0 <= i < n,
                m == libs@[i as int]@.len(),
                0 <= j <= m,
                outer_pre == flat_ids(libs@.subrange(0, i as int)),
                out@ == outer_pre + lib_ids(libs@[i as int]).subrange(0, j as int),
                forall|x: u64| #[trigger] out@.contains(x) <==> manifest_prefix_contains(
                    libs@,
                    i as int,
                    j as int,
                    x,
                ),
            decreases m - j,
        {
            let id = libs[i].apps[j].0;
            let ghost pre = out@;
            out.push(id);
            proof {
                assert(libs@[i as int]@[j as int].0 == id);
                assert(lib_ids(libs@[i as int]).subrange(0, j + 1) =~= lib_ids(
                    libs@[i as int],
                ).subrange(0, j as int).push(id));
                assert(out@ =~= outer_pre + lib_ids(libs@[i as int]).subrange(0, j + 1));
                assert forall|x: u64| #[trigger] out@.contains(x) implies manifest_prefix_contains(
                    libs@,
                    i as int,
                    j + 1,
                    x,
                ) by {
                    lemma_seq_contains_after_push(pre, id, x);
                }
                assert forall|x: u64| manifest_prefix_contains(libs@, i as int, j + 1, x) implies #[trigger] out@.contains(
                    x,
                ) by {
                    lemma_seq_contains_after_push(pre, id, x);
                    let (a, b) = choose|a: int, b: int|
                        #![trigger libs@[a]@[b]]
                        0 <= a < libs@.len() && 0 <= b < libs@[a]@.len() && libs@[a]@[b].0 == x && (
                        a < i as int || (a == i as int && b < j + 1));
                    if a == i as int && b == j as int {
                    } else {
                        assert(manifest_prefix_contains(libs@, i as int, j as int, x));
                    }
                }
            }
            j += 1;
        }
        i += 1;
        proof {
            assert(lib_ids(libs@[i - 1]).subrange(0, m as int) =~= lib_ids(libs@[i - 1]));
            assert(libs@.subrange(0, i as int) =~= libs@.subrange(0, i - 1).push(libs@[i - 1]));
            lemma_flat_ids_push(libs@.subrange(0, i - 1), libs@[i - 1]);
            assert(out@ == flat_ids(libs@.subrange(0, i as int)));
            assert forall|x: u64| manifest_prefix_contains(libs@, i as int, 0, x) implies manifest_prefix_contains(
                libs@,
                i - 1,
                m as int,
                x,
            ) by {
                let (a, b) = choose|a: int, b: int|
                    #![trigger libs@[a]@[b]]
                    0 <= a < libs@.len() && 0 <= b < libs@[a]@.len() && libs@[a]@[b].0 == x && (a
                        < i as int || (a == i as int && b < 0));
                assert(libs@[a]@[b].0 == x);
            }
        }
    }
    proof {
        assert(libs@.subrange(0, n as int) =~= libs@);
        assert forall|x: u64| manifest_contains(libs@, x) implies manifest_prefix_contains(
            libs@,
            n as int,
            0,
            x,
        ) by {
            let (a, b) = choose|a: int, b: int|
                #![trigger libs@[a]@[b]]
                0 <= a < libs@.len() && 0 <= b < libs@[a]@.len() && libs@[a]@[b].0 == x;
            assert(libs@[a]@[b].0 == x);
        }
    }
    out
}

/// Sorts and removes duplicates: the result lists each candidate once, in
/// strictly increasing order.
pub fn dedup_ids(ids: &Vec<u64>) -> (r: Vec<u64>)
    ensures
        forall|a: int, b: int| 0 <= a < b < r@.len() ==> r@[a] < r@[b],
        forall|x: u64| #[trigger] r@.contains(x) <==> ids@.contains(x),
{
    let mut out: Vec<u64> = Vec::new();
    let n = ids.len();
    let mut i: usize = 0;
    while i < n
        invariant
            n == ids@.len(),
            0 <= i <= n,
            forall|a: int, b: int| 0 <= a < b < out@.len() ==> out@[a] < out@[b],
            forall|x: u64| #[trigger] out@.contains(x) <==> ids@.subrange(0, i as int).contains(x),
        decreases n - i,
    {
        let x = ids[i];
        let ghost pre = out@;
        let m = out.len();
        let mut p: usize = 0;
        while p < m && out[p] < x
            invariant
                m == out@.len(),
                0 <= p <= m,
                out@ == pre,
                forall|k: int| 0 <= k < p ==> out@[k] < x,
            decreases m - p,
        {
            p += 1;
        }
        if p < m && out[p] == x {
            proof {
                assert(out@.contains(x));
            }
        } else {
            out.insert(p, x);
            proof {
                assert(out@ =~= pre.insert(p as int, x));
                assert forall|a: int, b: int| 0 <= a < b < out@.len() implies out@[a] < out@[b] by {
                    if b < p {
                        assert(out@[a] == pre[a] && out@[b] == pre[b]);
                    } else if a > p {
                        assert(out@[a] == pre[a - 1] && out@[b] == pre[b - 1]);
                    } else if a < p && b == p {
                        assert(out@[a] == pre[a]);
                    } else if a == p && b > p {
                        assert(out@[b] == pre[b - 1]);
                        assert(pre[b - 1] >= x);
                        assert(pre[b - 1] != x);
                    } else if a < p && b > p {
                        assert(out@[a] == pre[a] && out@[b] == pre[b - 1]);
                        assert(pre[a] < x && pre[b - 1] > x);
                    }
                }
            }
        }
        proof {
            assert(ids@.subrange(0, i + 1) =~= ids@.subrange(0, i as int).push(x));
            assert forall|y: u64| #[trigger] out@.contains(y) implies ids@.subrange(
                0,
                i + 1,
            ).contains(y) by {
                lemma_seq_contains_after_push(ids@.subrange(0, i as int), x, y);
                if out@ == pre {
                    assert(ids@.subrange(0, i as int).contains(y));
                } else {
                    let k = choose|k: int| 0 <= k < out@.len() && out@[k] == y;
                    if k < p {
                        assert(pre[k] == y);
                        assert(pre.contains(y));
                    } else if k > p {
                        assert(pre[k - 1] == y);
                        assert(pre.contains(y));
                    }
                }
            }
            assert forall|y: u64| ids@.subrange(0, i + 1).contains(y) implies #[trigger] out@.contains(
                y,
            ) by {
                lemma_seq_contains_after_push(ids@.subrange(0, i as int), x, y);
                if y == x {
                    if out@ == pre {
                        assert(out@.contains(y));
                    } else {
                        assert(out@[p as int] == x);
                    }
                } else {
                    assert(ids@.subrange(0, i as int).contains(y));
                    assert(pre.contains(y));
                    let k = choose|k: int| 0 <= k < pre.len() && pre[k] == y;
                    if out@ == pre {
                    } else {
                        if k < p {
                            assert(out@[k] == y);
                        } else {
                            assert(out@[k + 1] == y);
                        }
                    }
                }
            }
        }
        i += 1;
    }
    proof {
        assert(ids@.subrange(0, n as int) =~= ids@);
    }
    out
}

/// Relies on `rand::seq::SliceRandom::shuffle` with the thread-local
/// generator: an in-place permutation of the slice, so the multiset of
/// elements is unchanged; which permutation comes out is not stated.
#[verifier::external_body]
fn shuffle_ids(ids: &mut Vec<u64>)
    ensures
        final(ids)@.to_multiset() == old(ids)@.to_multiset(),
{
    ids.as_mut_slice().shuffle(&mut rand::rng());
}

/// The deduplicated candidate set in a fresh random order: each identifier
/// of `ids` exactly once.
pub fn prepare_ids(ids: &Vec<u64>) -> (r: Vec<u64>)
    ensures
        r@.no_duplicates(),
        forall|x: u64| #[trigger] r@.contains(x) <==> ids@.contains(x),
{
    let mut out = dedup_ids(ids);
    let ghost sorted = out@;
    shuffle_ids(&mut out);
    proof {
        sorted.to_multiset_ensures();
        out@.to_multiset_ensures();
        assert(forall|a: int, b: int| 0 <= a < b < sorted.len() ==> sorted[a] != sorted[b]);
        assert(sorted.no_duplicates());
        sorted.lemma_multiset_has_no_duplicates();
        out@.lemma_multiset_has_no_duplicates_conv();
        assert forall|x: u64| #[trigger] out@.contains(x) <==> sorted.contains(x) by {
            assert(out@.contains(x) <==> out@.to_multiset().count(x) > 0);
            assert(sorted.contains(x) <==> sorted.to_multiset().count(x) > 0);
        }
    }
    out
}

} // verus!
