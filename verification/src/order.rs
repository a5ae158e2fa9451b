//! Keeping the first elements of a sequence under a strict order, one
//! element at a time.
use vstd::prelude::*;

verus! {

/// Whether `lt` is a strict order that is total on elements of different `key`.
pub open spec fn strict_by<T, K>(lt: spec_fn(T, T) -> bool, key: spec_fn(T) -> K) -> bool {
    &&& forall|a: T| !#[trigger] lt(a, a)
    &&& forall|a: T, b: T, c: T| #[trigger] lt(a, b) && #[trigger] lt(b, c) ==> lt(a, c)
    &&& forall|a: T, b: T| key(a) != key(b) ==> #[trigger] lt(a, b) || #[trigger] lt(b, a)
}

/// Whether `s` is increasing under `lt`.
pub open spec fn increasing<T>(s: Seq<T>, lt: spec_fn(T, T) -> bool) -> bool {
    forall|i: int, j: int| 0 <= i < j < s.len() ==> lt(#[trigger] s[i], #[trigger] s[j])
}

/// Whether `out` holds the first `limit` elements of `all` under `lt` (all of
/// them if there are fewer), in increasing order.
pub open spec fn is_first_by<T>(out: Seq<T>, all: Seq<T>, limit: int, lt: spec_fn(T, T) -> bool) -> bool {
    &&& out.len() == if all.len() < limit { all.len() as int } else { limit }
    &&& increasing(out, lt)
    &&& forall|i: int| 0 <= i < out.len() ==> all.contains(#[trigger] out[i])
    &&& forall|j: int|
        0 <= j < all.len() ==> out.contains(#[trigger] all[j]) || forall|i: int|
            0 <= i < out.len() ==> lt(#[trigger] out[i], all[j])
    &&& out.len() < limit ==> forall|j: int| 0 <= j < all.len() ==> out.contains(#[trigger] all[j])
}

/// The kept elements after inserting `x` at position `p` of `before`.
pub open spec fn keep_step<T>(before: Seq<T>, x: T, p: int, limit: int) -> Seq<T> {
    if p < limit {
        let ins = before.insert(p, x);
        if ins.len() > limit {
            ins.drop_last()
        } else {
            ins
        }
    } else {
        before
    }
}

/// Inserting a new element at the first position whose element it precedes,
/// and dropping what exceeds the limit, keeps the first `limit` elements.
pub proof fn lemma_keep_step<T, K>(
    before: Seq<T>,
    seen: Seq<T>,
    x: T,
    p: int,
    limit: int,
    lt: spec_fn(T, T) -> bool,
    key: spec_fn(T) -> K,
)
    requires
        strict_by(lt, key),
        limit >= 0,
        is_first_by(before, seen, limit, lt),
        forall|q: int| 0 <= q < seen.len() ==> key(#[trigger] seen[q]) != key(x),
        0 <= p <= before.len(),
        forall|q: int| 0 <= q < p ==> !lt(x, #[trigger] before[q]),
        p < before.len() ==> lt(x, before[p]),
    ensures
        is_first_by(keep_step(before, x, p, limit), seen.push(x), limit, lt),
{
    let after = keep_step(before, x, p, limit);
    let all = seen.push(x);
    assert forall|q: int| 0 <= q < before.len() implies key(#[trigger] before[q]) != key(x) by {
        assert(seen.contains(before[q]));
    }
    assert forall|q: int| 0 <= q < p implies lt(#[trigger] before[q], x) by {
        assert(key(before[q]) != key(x));
        assert(lt(before[q], x) || lt(x, before[q]));
    }
    assert forall|q: int| p <= q < before.len() implies lt(x, #[trigger] before[q]) by {
        if q > p {
            assert(lt(before[p], before[q]));
        }
    }
    if p < limit {
        let ins = before.insert(p, x);
        assert forall|i: int, j: int| 0 <= i < j < ins.len() implies lt(#[trigger] ins[i], #[trigger] ins[j]) by {
            if j < p {
                assert(ins[i] == before[i] && ins[j] == before[j]);
            } else if j == p {
                assert(ins[i] == before[i]);
            } else if i < p {
                assert(ins[i] == before[i] && ins[j] == before[j - 1]);
                assert(lt(before[i], x) && lt(x, before[j - 1]));
            } else if i == p {
                assert(ins[j] == before[j - 1]);
            } else {
                assert(ins[i] == before[i - 1] && ins[j] == before[j - 1]);
            }
        }
        assert forall|i: int| 0 <= i < after.len() implies all.contains(#[trigger] after[i]) by {
            if i < p {
                assert(seen.contains(before[i]));
                let j = choose|j: int| 0 <= j < seen.len() && seen[j] == before[i];
                assert(all[j] == before[i]);
            } else if i == p {
                assert(all[seen.len() as int] == x);
            } else {
                assert(seen.contains(before[i - 1]));
                let j = choose|j: int| 0 <= j < seen.len() && seen[j] == before[i - 1];
                assert(all[j] == before[i - 1]);
            }
        }
        assert forall|j: int| 0 <= j < all.len() implies after.contains(#[trigger] all[j]) || forall|i: int|
            0 <= i < after.len() ==> lt(#[trigger] after[i], all[j]) by {
            if j == seen.len() {
                assert(after[p] == x);
            } else {
                let y = all[j];
                assert(y == seen[j]);
                if before.contains(y) {
                    let k = choose|k: int| 0 <= k < before.len() && before[k] == y;
                    if k < p {
                        assert(after[k] == y);
                    } else if k + 1 < after.len() {
                        assert(after[k + 1] == y);
                    } else {
                        assert forall|i: int| 0 <= i < after.len() implies lt(#[trigger] after[i], y) by {
                            assert(ins[i] == after[i]);
                            assert(ins[k + 1] == y);
                        }
                    }
                } else {
                    assert(before.len() == limit);
                    assert forall|i: int| 0 <= i < after.len() implies lt(#[trigger] after[i], y) by {
                        assert(lt(before[p], y));
                        if i < p {
                            assert(after[i] == before[i]);
                        } else if i == p {
                            assert(after[i] == x);
                            assert(lt(x, before[p]));
                        } else {
                            assert(after[i] == before[i - 1]);
                        }
                    }
                }
            }
        }
        if after.len() < limit {
            assert(before.len() < limit);
            assert forall|j: int| 0 <= j < all.len() implies after.contains(#[trigger] all[j]) by {
                if j == seen.len() {
                    assert(after[p] == x);
                } else {
                    let y = all[j];
                    assert(y == seen[j]);
                    assert(before.contains(y));
                    let k = choose|k: int| 0 <= k < before.len() && before[k] == y;
                    if k < p {
                        assert(after[k] == y);
                    } else {
                        assert(after[k + 1] == y);
                    }
                }
            }
        }
    } else {
        assert forall|i: int| 0 <= i < after.len() implies all.contains(#[trigger] after[i]) by {
            assert(seen.contains(before[i]));
            let j = choose|j: int| 0 <= j < seen.len() && seen[j] == before[i];
            assert(all[j] == before[i]);
        }
        assert forall|j: int| 0 <= j < all.len() implies after.contains(#[trigger] all[j]) || forall|i: int|
            0 <= i < after.len() ==> lt(#[trigger] after[i], all[j]) by {
            if j < seen.len() {
                assert(all[j] == seen[j]);
            }
        }
    }
}

} // verus!
