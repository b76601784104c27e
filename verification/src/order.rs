//! Putting rows in order: what it means for a sequence to be the arrangement
//! of some rows by a strict order, and why there is only one.

use vstd::prelude::*;

verus! {

/// Whether `lt` is a strict total order: nothing is below itself, the
/// relation is transitive, and of two different values one is below the
/// other.
pub open spec fn strict_order<T>(lt: spec_fn(T, T) -> bool) -> bool {
    &&& forall|a: T| !#[trigger] lt(a, a)
    &&& forall|a: T, b: T, c: T| #[trigger] lt(a, b) && #[trigger] lt(b, c) ==> lt(a, c)
    &&& forall|a: T, b: T| a != b ==> #[trigger] lt(a, b) || lt(b, a)
}

/// Whether the elements of `s` rise by `lt` from each position to the next.
pub open spec fn increasing<T>(s: Seq<T>, lt: spec_fn(T, T) -> bool) -> bool {
    forall|i: int, j: int| 0 <= i < j < s.len() ==> lt(#[trigger] s[i], #[trigger] s[j])
}

/// Whether `sorted` holds exactly the elements of `rows`, each once, in
/// rising order.
pub open spec fn arranges<T>(sorted: Seq<T>, rows: Seq<T>, lt: spec_fn(T, T) -> bool) -> bool {
    &&& increasing(sorted, lt)
    &&& forall|x: T| #[trigger] sorted.contains(x) <==> rows.contains(x)
}

/// The elements of `rows` in rising order.
pub open spec fn arranged<T>(rows: Seq<T>, lt: spec_fn(T, T) -> bool) -> Seq<T> {
    choose|sorted: Seq<T>| arranges(sorted, rows, lt)
}

/// Two sequences that rise by the same strict order and hold the same
/// elements are one sequence.
pub proof fn lemma_increasing_unique<T>(a: Seq<T>, b: Seq<T>, lt: spec_fn(T, T) -> bool)
    requires
        strict_order(lt),
        increasing(a, lt),
        increasing(b, lt),
        forall|x: T| #[trigger] a.contains(x) <==> b.contains(x),
    ensures
        a == b,
    decreases a.len(),
{
    if a.len() == 0 {
        if b.len() > 0 {
            assert(b.contains(b[0]));
            assert(a.contains(b[0]));
        }
        assert(a =~= b);
    } else {
        let m = a.last();
        assert(a.contains(m));
        assert(b.contains(m));
        let j = choose|j: int| 0 <= j < b.len() && b[j] == m;
        if j < b.len() - 1 {
            let y = b[b.len() - 1];
            assert(lt(b[j], y));
            assert(b.contains(y));
            assert(a.contains(y));
            let k = choose|k: int| 0 <= k < a.len() && a[k] == y;
            if k < a.len() - 1 {
                assert(lt(a[k], a[a.len() - 1]));
                assert(lt(m, y) && lt(y, m));
                assert(lt(m, m));
            }
            assert(false);
        }
        let a0 = a.drop_last();
        let b0 = b.drop_last();
        assert forall|x: T| #[trigger] a0.contains(x) <==> b0.contains(x) by {
            if a0.contains(x) {
                let i = choose|i: int| 0 <= i < a0.len() && a0[i] == x;
                assert(a[i] == x);
                assert(lt(a[i], a[a.len() - 1]));
                assert(a.contains(x));
                assert(b.contains(x));
                let q = choose|q: int| 0 <= q < b.len() && b[q] == x;
                assert(q < b.len() - 1);
                assert(b0[q] == x);
            }
            if b0.contains(x) {
                let i = choose|i: int| 0 <= i < b0.len() && b0[i] == x;
                assert(b[i] == x);
                assert(lt(b[i], b[b.len() - 1]));
                assert(b.contains(x));
                assert(a.contains(x));
                let q = choose|q: int| 0 <= q < a.len() && a[q] == x;
                assert(q < a.len() - 1);
                assert(a0[q] == x);
            }
        }
        assert(increasing(a0, lt)) by {
            assert forall|i: int, j: int| 0 <= i < j < a0.len() implies lt(
                #[trigger] a0[i],
                #[trigger] a0[j],
            ) by {
                assert(lt(a[i], a[j]));
            }
        }
        assert(increasing(b0, lt)) by {
            assert forall|i: int, j: int| 0 <= i < j < b0.len() implies lt(
                #[trigger] b0[i],
                #[trigger] b0[j],
            ) by {
                assert(lt(b[i], b[j]));
            }
        }
        lemma_increasing_unique(a0, b0, lt);
        assert(a =~= a0.push(m));
        assert(b =~= b0.push(m));
    }
}

/// A new element put in at its place keeps a rising sequence rising: the
/// place is behind everything below the element and before everything else.
pub proof fn lemma_insert_in_place<T>(before: Seq<T>, p: int, x: T, lt: spec_fn(T, T) -> bool)
    requires
        strict_order(lt),
        increasing(before, lt),
        0 <= p <= before.len(),
        !before.contains(x),
        forall|k: int| 0 <= k < p ==> lt(#[trigger] before[k], x),
        p < before.len() ==> !lt(before[p], x),
    ensures
        increasing(before.insert(p, x), lt),
        forall|y: T| #[trigger] before.insert(p, x).contains(y) <==> before.contains(y) || y == x,
{
    let after = before.insert(p, x);
    assert forall|i: int, j: int| 0 <= i < j < after.len() implies lt(
        #[trigger] after[i],
        #[trigger] after[j],
    ) by {
        if j < p {
            assert(lt(before[i], before[j]));
        } else if j == p {
            assert(lt(before[i], x));
        } else if i < p {
            assert(lt(before[i], before[j - 1]));
        } else if i == p {
            assert(before.contains(before[p]));
            assert(lt(x, before[p]) || lt(before[p], x));
            if j - 1 > p {
                assert(lt(before[p], before[j - 1]));
            }
        } else {
            assert(lt(before[i - 1], before[j - 1]));
        }
    }
    assert forall|y: T| #[trigger] after.contains(y) <==> before.contains(y) || y == x by {
        if after.contains(y) {
            let i = choose|i: int| 0 <= i < after.len() && after[i] == y;
            if i < p {
                assert(before[i] == y);
            } else if i > p {
                assert(before[i - 1] == y);
            }
        }
        if before.contains(y) {
            let i = choose|i: int| 0 <= i < before.len() && before[i] == y;
            if i < p {
                assert(after[i] == y);
            } else {
                assert(after[i + 1] == y);
            }
        }
        if y == x {
            assert(after[p] == y);
        }
    }
}

/// An arrangement of some rows with a new row put in at its place arranges
/// the rows and the new row.
pub proof fn lemma_arranges_more<T>(
    sorted: Seq<T>,
    rows: Seq<T>,
    p: int,
    x: T,
    lt: spec_fn(T, T) -> bool,
)
    requires
        strict_order(lt),
        arranges(sorted, rows, lt),
        0 <= p <= sorted.len(),
        !rows.contains(x),
        forall|k: int| 0 <= k < p ==> lt(#[trigger] sorted[k], x),
        p < sorted.len() ==> !lt(sorted[p], x),
    ensures
        arranges(sorted.insert(p, x), rows.push(x), lt),
{
    lemma_insert_in_place(sorted, p, x, lt);
    let more = rows.push(x);
    assert forall|y: T| #[trigger] sorted.insert(p, x).contains(y) <==> more.contains(y) by {
        if more.contains(y) {
            let k = choose|k: int| 0 <= k < more.len() && more[k] == y;
            if k < rows.len() {
                assert(rows[k] == y);
            }
        }
        if rows.contains(y) {
            let k = choose|k: int| 0 <= k < rows.len() && rows[k] == y;
            assert(more[k] == y);
        }
        if y == x {
            assert(more[rows.len() as int] == y);
        }
    }
}

/// What arranges some rows is their arrangement: there is no other.
pub proof fn lemma_arranged_is<T>(sorted: Seq<T>, rows: Seq<T>, lt: spec_fn(T, T) -> bool)
    requires
        strict_order(lt),
        arranges(sorted, rows, lt),
    ensures
        arranged(rows, lt) == sorted,
{
    let other = arranged(rows, lt);
    assert(arranges(other, rows, lt));
    lemma_increasing_unique(sorted, other, lt);
}

} // verus!
