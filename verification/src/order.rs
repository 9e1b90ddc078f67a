//! Putting rows in descending order of a key, rows with equal keys in the order they had.
use vstd::prelude::*;
use vstd::set_lib::*;

verus! {

/// Whether row `a` belongs before row `b`.
pub open spec fn before(keys: Seq<i128>, a: int, b: int) -> bool {
    keys[a] > keys[b] || (keys[a] == keys[b] && a < b)
}

/// `p` lists the row numbers in the order the rows belong in.
pub open spec fn is_rank(p: Seq<int>, keys: Seq<i128>) -> bool {
    &&& p.len() == keys.len()
    &&& forall|i: int| 0 <= i < p.len() ==> 0 <= #[trigger] p[i] < keys.len()
    &&& forall|i: int, j: int| 0 <= i < j < p.len() ==> before(keys, #[trigger] p[i], #[trigger] p[j])
}

/// The row numbers in the order the rows belong in.
pub open spec fn rank(keys: Seq<i128>) -> Seq<int> {
    choose|p: Seq<int>| is_rank(p, keys)
}

/// The rows by descending key, rows with equal keys in the order they had.
pub open spec fn arranged<T>(rows: Seq<T>, keys: Seq<i128>) -> Seq<T> {
    Seq::new(rows.len(), |i: int| rows[rank(keys)[i]])
}

pub open spec fn at_most<T>(s: Seq<T>, limit: int) -> Seq<T> {
    if s.len() <= limit {
        s
    } else {
        s.take(limit)
    }
}

/// Every row number occurs in a ranking.
proof fn lemma_rank_hits(p: Seq<int>, keys: Seq<i128>, x: int)
    requires
        is_rank(p, keys),
        0 <= x < keys.len(),
    ensures
        exists|i: int| 0 <= i < p.len() && #[trigger] p[i] == x,
{
    let all = set_int_range(0, keys.len() as int);
    lemma_int_range(0, keys.len() as int);
    assert(p.no_duplicates()) by {
        assert forall|i: int, j: int| 0 <= i < p.len() && 0 <= j < p.len() && i != j implies p[i] != p[j] by {
            if i < j {
                assert(before(keys, p[i], p[j]));
            } else {
                assert(before(keys, p[j], p[i]));
            }
        }
    }
    p.unique_seq_to_set();
    assert(p.to_set().subset_of(all)) by {
        assert forall|y: int| p.to_set().contains(y) implies all.contains(y) by {
            let i = choose|i: int| 0 <= i < p.len() && p[i] == y;
            assert(0 <= p[i] < keys.len());
        }
    }
    lemma_subset_equality(p.to_set(), all);
    assert(p.to_set().contains(x));
}

/// There is one ranking only: keys and positions fix the order of the rows.
pub proof fn law_rank_is_unique(p: Seq<int>, q: Seq<int>, keys: Seq<i128>)
    requires
        is_rank(p, keys),
        is_rank(q, keys),
    ensures
        p == q,
{
    assert forall|i: int| 0 <= i < p.len() implies p[i] == q[i] by {
        lemma_same_at(p, q, keys, i);
    }
    assert(p =~= q);
}

proof fn lemma_same_at(p: Seq<int>, q: Seq<int>, keys: Seq<i128>, i: int)
    requires
        is_rank(p, keys),
        is_rank(q, keys),
        0 <= i < p.len(),
    ensures
        p[i] == q[i],
    decreases i,
{
    assert forall|j: int| 0 <= j < i implies p[j] == q[j] by {
        lemma_same_at(p, q, keys, j);
    }
    lemma_rank_hits(q, keys, p[i]);
    lemma_rank_hits(p, keys, q[i]);
    let m = choose|m: int| 0 <= m < q.len() && #[trigger] q[m] == p[i];
    let k = choose|k: int| 0 <= k < p.len() && #[trigger] p[k] == q[i];
    if m < i {
        assert(p[m] == q[m]);
        assert(before(keys, p[m], p[i]));
    } else if k < i {
        assert(p[k] == q[k]);
        assert(before(keys, q[k], q[i]));
    } else if m > i && k > i {
        assert(before(keys, q[i], q[m]));
        assert(before(keys, p[i], p[k]));
    }
}

/// How many of the rows listed in `p` belong before a later row with the key `k`.
spec fn spot(p: Seq<int>, keys: Seq<i128>, k: i128) -> int
    decreases p.len(),
{
    if p.len() > 0 && keys[p[0]] >= k {
        1 + spot(p.skip(1), keys, k)
    } else {
        0
    }
}

proof fn lemma_spot(p: Seq<int>, keys: Seq<i128>, k: i128)
    ensures
        0 <= spot(p, keys, k) <= p.len(),
        forall|i: int| 0 <= i < spot(p, keys, k) ==> keys[#[trigger] p[i]] >= k,
        spot(p, keys, k) < p.len() ==> keys[p[spot(p, keys, k)]] < k,
    decreases p.len(),
{
    if p.len() > 0 && keys[p[0]] >= k {
        let t = p.skip(1);
        lemma_spot(t, keys, k);
        assert forall|i: int| 0 <= i < spot(p, keys, k) implies keys[#[trigger] p[i]] >= k by {
            if i > 0 {
                assert(p[i] == t[i - 1]);
            }
        }
    }
}

/// Rows can always be ranked.
pub proof fn law_rank_exists(keys: Seq<i128>)
    ensures
        is_rank(rank(keys), keys),
    decreases keys.len(),
{
    if keys.len() == 0 {
        assert(is_rank(seq![], keys));
    } else {
        let n = keys.len() - 1;
        let less = keys.drop_last();
        law_rank_exists(less);
        let q = rank(less);
        let at = spot(q, keys, keys[n]);
        lemma_spot(q, keys, keys[n]);
        let p = q.insert(at, n);
        assert forall|i: int| 0 <= i < p.len() implies 0 <= #[trigger] p[i] < keys.len() by {
            if i < at {
                assert(p[i] == q[i]);
            } else if i > at {
                assert(p[i] == q[i - 1]);
            }
        }
        assert forall|i: int, j: int| 0 <= i < j < p.len() implies before(keys, #[trigger] p[i], #[trigger] p[j]) by {
            let a = if i < at {
                i
            } else {
                i - 1
            };
            let b = if j < at {
                j
            } else {
                j - 1
            };
            if i != at && j != at {
                assert(before(less, q[a], q[b]));
            } else if j == at {
                assert(0 <= q[i] < less.len());
            } else {
                assert(0 <= q[b] < less.len());
                if b > at {
                    assert(before(less, q[at], q[b]));
                    assert(0 <= q[at] < less.len());
                }
            }
        }
        assert(is_rank(p, keys));
    }
}

/// In the arranged rows no key is smaller than a later one.
pub proof fn law_arranged_descends(keys: Seq<i128>, i: int, j: int)
    requires
        0 <= i <= j < keys.len(),
    ensures
        arranged(keys, keys)[i] >= arranged(keys, keys)[j],
{
    law_rank_exists(keys);
    if i < j {
        assert(before(keys, rank(keys)[i], rank(keys)[j]));
    }
}

/// Arranging drops no row and invents none.
pub proof fn law_arranged_keeps_rows<T>(rows: Seq<T>, keys: Seq<i128>, x: int)
    requires
        rows.len() == keys.len(),
        0 <= x < rows.len(),
    ensures
        arranged(rows, keys).len() == rows.len(),
        exists|i: int| 0 <= i < rows.len() && #[trigger] rank(keys)[i] == x && arranged(rows, keys)[i] == rows[x],
        0 <= rank(keys)[x] < rows.len() && arranged(rows, keys)[x] == rows[rank(keys)[x]],
{
    law_rank_exists(keys);
    lemma_rank_hits(rank(keys), keys, x);
    let i = choose|i: int| 0 <= i < rank(keys).len() && #[trigger] rank(keys)[i] == x;
    assert(arranged(rows, keys)[i] == rows[x]);
    assert(0 <= rank(keys)[x] < keys.len());
}

/// Of two rows with equal keys the one that came first stays first, and of two with different
/// keys the one with the greater key comes first.
pub proof fn law_order_of_two_rows(keys: Seq<i128>, a: int, b: int)
    requires
        0 <= a < b < keys.len(),
    ensures
        exists|i: int, j: int|
            0 <= i < keys.len() && 0 <= j < keys.len() && #[trigger] rank(keys)[i] == a && #[trigger] rank(keys)[j] == b && (
            if keys[a] >= keys[b] {
                i < j
            } else {
                j < i
            }),
{
    law_rank_exists(keys);
    lemma_rank_hits(rank(keys), keys, a);
    lemma_rank_hits(rank(keys), keys, b);
    let p = rank(keys);
    let i = choose|i: int| 0 <= i < p.len() && #[trigger] p[i] == a;
    let j = choose|j: int| 0 <= j < p.len() && #[trigger] p[j] == b;
    if i < j {
        assert(before(keys, p[i], p[j]));
    } else {
        assert(before(keys, p[j], p[i]));
    }
    assert(rank(keys)[i] == a && rank(keys)[j] == b);
}

/// A limit keeps the first rows, as many as it allows.
pub proof fn law_limit_keeps_the_first<T>(s: Seq<T>, limit: int, i: int)
    requires
        limit >= 0,
        0 <= i < s.len(),
        i < limit,
    ensures
        at_most(s, limit).len() == if s.len() < limit {
            s.len() as int
        } else {
            limit
        },
        at_most(s, limit)[i] == s[i],
{
}

/// Arranging rows and looking at one side of each go in either order.
pub proof fn lemma_arranged_map<T, U>(rows: Seq<T>, keys: Seq<i128>, f: spec_fn(T) -> U)
    requires
        rows.len() == keys.len(),
    ensures
        arranged(rows, keys).map_values(f) == arranged(rows.map_values(f), keys),
{
    law_rank_exists(keys);
    assert(arranged(rows, keys).map_values(f) =~= arranged(rows.map_values(f), keys));
}

/// Arranges rows by descending key.
pub fn arrange<T>(rows: Vec<T>, keys: &Vec<i128>) -> (r: Vec<T>)
    requires
        rows@.len() == keys@.len(),
    ensures
        r@ == arranged(rows@, keys@),
{
    let mut rows: Vec<T> = rows;
    let ghost all = rows@;
    let mut out: Vec<T> = Vec::new();
    let mut out_keys: Vec<i128> = Vec::new();
    let ghost mut p: Seq<int> = seq![];
    while rows.len() > 0
        invariant
            rows@.len() <= all.len() == keys@.len(),
            rows@ == all.take(rows@.len() as int),
            p.len() == all.len() - rows@.len(),
            out@.len() == p.len(),
            out_keys@.len() == p.len(),
            forall|i: int| 0 <= i < p.len() ==> rows@.len() <= #[trigger] p[i] < keys@.len(),
            forall|i: int, j: int| 0 <= i < j < p.len() ==> before(keys@, #[trigger] p[i], #[trigger] p[j]),
            forall|i: int| 0 <= i < p.len() ==> #[trigger] out@[i] == all[p[i]],
            forall|i: int| 0 <= i < p.len() ==> #[trigger] out_keys@[i] == keys@[p[i]],
        decreases rows.len(),
    {
        let n: usize = rows.len() - 1;
        let key: i128 = keys[n];
        let mut at: usize = 0;
        while at < out_keys.len() && out_keys[at] > key
            invariant
                at <= out_keys@.len(),
                forall|i: int| 0 <= i < at ==> #[trigger] out_keys@[i] > key,
            decreases out_keys.len() - at,
        {
            at += 1;
        }
        let ghost old_p = p;
        let ghost old_out = out@;
        let ghost old_keys = out_keys@;
        if let Some(row) = rows.pop() {
            proof {
                assert(row == all[n as int]);
                assert(rows@ =~= all.take(n as int));
                p = old_p.insert(at as int, n as int);
            }
            out.insert(at, row);
            out_keys.insert(at, key);
            assert forall|i: int, j: int| 0 <= i < j < p.len() implies before(keys@, #[trigger] p[i], #[trigger] p[j]) by {
                let a = if i < at {
                    i
                } else {
                    i - 1
                };
                let b = if j < at {
                    j
                } else {
                    j - 1
                };
                if i != at && j != at {
                    assert(before(keys@, old_p[a], old_p[b]));
                } else if j == at {
                    assert(old_keys[i] == keys@[old_p[i]]);
                } else {
                    assert(old_keys[b] == keys@[old_p[b]]);
                    if b > at {
                        assert(before(keys@, old_p[at as int], old_p[b]));
                        assert(old_keys[at as int] == keys@[old_p[at as int]]);
                    }
                }
            }
            assert forall|i: int| 0 <= i < p.len() implies n <= #[trigger] p[i] < keys@.len() by {
                if i < at {
                    assert(p[i] == old_p[i]);
                } else if i > at {
                    assert(p[i] == old_p[i - 1]);
                }
            }
            assert forall|i: int| 0 <= i < p.len() implies #[trigger] out@[i] == all[p[i]] by {
                if i < at {
                    assert(out@[i] == old_out[i]);
                } else if i > at {
                    assert(out@[i] == old_out[i - 1]);
                }
            }
            assert forall|i: int| 0 <= i < p.len() implies #[trigger] out_keys@[i] == keys@[p[i]] by {
                if i < at {
                    assert(out_keys@[i] == old_keys[i]);
                } else if i > at {
                    assert(out_keys@[i] == old_keys[i - 1]);
                }
            }
        }
    }
    proof {
        assert(is_rank(p, keys@));
        law_rank_is_unique(p, rank(keys@), keys@);
        assert(out@ =~= arranged(all, keys@));
    }
    out
}

} // verus!
