//! Vectors over the field with two elements and the spans of rows of them.
use vstd::prelude::*;

verus! {

/// The vector of `n` zeros.
pub open spec fn zero_vector(n: nat) -> Seq<bool> {
    Seq::new(n, |i: int| false)
}

/// The sum of two vectors: bit by bit the exclusive or.
pub open spec fn xor_vector(a: Seq<bool>, b: Seq<bool>) -> Seq<bool> {
    Seq::new(a.len(), |i: int| a[i] != b[i])
}

/// Every row has `n` bits.
pub open spec fn rows_of(rows: Seq<Seq<bool>>, n: nat) -> bool {
    forall|k: int| 0 <= k < rows.len() ==> (#[trigger] rows[k]).len() == n
}

/// The sum of the rows that `pick` chooses.
pub open spec fn combination(rows: Seq<Seq<bool>>, pick: Seq<bool>, n: nat) -> Seq<bool>
    decreases rows.len(),
{
    if rows.len() == 0 {
        zero_vector(n)
    } else {
        let rest = combination(rows.drop_last(), pick.drop_last(), n);
        if pick.last() {
            xor_vector(rest, rows.last())
        } else {
            rest
        }
    }
}

/// `v` is in the span of the rows: it is the sum of some of them.
pub open spec fn in_span(rows: Seq<Seq<bool>>, v: Seq<bool>, n: nat) -> bool {
    exists|pick: Seq<bool>| pick.len() == rows.len() && #[trigger] combination(rows, pick, n) == v
}

/// Two sets of rows span the same vectors.
pub open spec fn same_span(a: Seq<Seq<bool>>, b: Seq<Seq<bool>>, n: nat) -> bool {
    forall|v: Seq<bool>| #[trigger] in_span(a, v, n) == in_span(b, v, n)
}

/// A sum of rows of `n` bits has `n` bits.
pub proof fn lemma_combination_len(rows: Seq<Seq<bool>>, pick: Seq<bool>, n: nat)
    requires
        rows_of(rows, n),
    ensures
        combination(rows, pick, n).len() == n,
    decreases rows.len(),
{
    if rows.len() > 0 {
        assert(rows_of(rows.drop_last(), n)) by {
            assert forall|k: int| 0 <= k < rows.drop_last().len() implies (
            #[trigger] rows.drop_last()[k]).len() == n by {
                assert(rows[k].len() == n);
            }
        }
        lemma_combination_len(rows.drop_last(), pick.drop_last(), n);
    }
}

/// All but the last of rows of `n` bits are rows of `n` bits.
pub proof fn lemma_rows_of_front(rows: Seq<Seq<bool>>, n: nat)
    requires
        rows_of(rows, n),
        rows.len() > 0,
    ensures
        rows_of(rows.drop_last(), n),
{
    assert forall|k: int|
        0 <= k < rows.drop_last().len() implies (#[trigger] rows.drop_last()[k]).len()
        == n by {
        assert(rows[k].len() == n);
    }
}

/// The bit at position `j` of a sum of rows is the exclusive or of the
/// bits at `j` of the rows chosen.
pub open spec fn column_parity(rows: Seq<Seq<bool>>, pick: Seq<bool>, j: int) -> bool
    decreases rows.len(),
{
    if rows.len() == 0 {
        false
    } else {
        column_parity(rows.drop_last(), pick.drop_last(), j) != (pick.last() && rows.last()[j])
    }
}

/// Each bit of a sum of rows is the parity of its column over the rows
/// chosen.
pub proof fn lemma_combination_bit(rows: Seq<Seq<bool>>, pick: Seq<bool>, n: nat, j: int)
    requires
        rows_of(rows, n),
        0 <= j < n,
    ensures
        combination(rows, pick, n).len() == n,
        combination(rows, pick, n)[j] == column_parity(rows, pick, j),
    decreases rows.len(),
{
    lemma_combination_len(rows, pick, n);
    if rows.len() > 0 {
        lemma_rows_of_front(rows, n);
        lemma_combination_bit(rows.drop_last(), pick.drop_last(), n, j);
        lemma_combination_len(rows.drop_last(), pick.drop_last(), n);
    }
}

/// Two vectors of `n` bits that agree in every column are the same.
pub proof fn lemma_vectors_equal(a: Seq<bool>, b: Seq<bool>, n: nat)
    requires
        a.len() == n,
        b.len() == n,
        forall|j: int| 0 <= j < n ==> a[j] == b[j],
    ensures
        a == b,
{
    assert(a =~= b);
}

/// The parity of a column over the rows that either of two picks chooses,
/// but not both, is the exclusive or of the parities over each pick.
proof fn lemma_parity_of_xor(rows: Seq<Seq<bool>>, p: Seq<bool>, q: Seq<bool>, j: int)
    requires
        p.len() == rows.len(),
        q.len() == rows.len(),
    ensures
        column_parity(rows, xor_vector(p, q), j) == (column_parity(rows, p, j) != column_parity(
            rows,
            q,
            j,
        )),
    decreases rows.len(),
{
    if rows.len() > 0 {
        assert(xor_vector(p, q).drop_last() =~= xor_vector(p.drop_last(), q.drop_last()));
        lemma_parity_of_xor(rows.drop_last(), p.drop_last(), q.drop_last(), j);
    }
}

/// The sum of two vectors of a span is in the span.
pub proof fn lemma_span_closed(rows: Seq<Seq<bool>>, v: Seq<bool>, w: Seq<bool>, n: nat)
    requires
        rows_of(rows, n),
        in_span(rows, v, n),
        in_span(rows, w, n),
    ensures
        in_span(rows, xor_vector(v, w), n),
{
    let p = choose|pick: Seq<bool>|
        pick.len() == rows.len() && #[trigger] combination(rows, pick, n) == v;
    let q = choose|pick: Seq<bool>|
        pick.len() == rows.len() && #[trigger] combination(rows, pick, n) == w;
    let both = xor_vector(p, q);
    assert forall|j: int|
        0 <= j < n implies combination(rows, both, n)[j] == xor_vector(v, w)[j] by {
        lemma_combination_bit(rows, both, n, j);
        lemma_combination_bit(rows, p, n, j);
        lemma_combination_bit(rows, q, n, j);
        lemma_parity_of_xor(rows, p, q, j);
    }
    lemma_combination_len(rows, both, n);
    lemma_combination_len(rows, p, n);
    lemma_vectors_equal(combination(rows, both, n), xor_vector(v, w), n);
}

/// Over rows of which none is chosen, every column has even parity.
proof fn lemma_parity_of_none(rows: Seq<Seq<bool>>, pick: Seq<bool>, j: int)
    requires
        pick.len() == rows.len(),
        forall|k: int| 0 <= k < pick.len() ==> !pick[k],
    ensures
        !column_parity(rows, pick, j),
    decreases rows.len(),
{
    if rows.len() > 0 {
        lemma_parity_of_none(rows.drop_last(), pick.drop_last(), j);
    }
}

/// The zero vector is in every span.
pub proof fn lemma_zero_in_span(rows: Seq<Seq<bool>>, n: nat)
    requires
        rows_of(rows, n),
    ensures
        in_span(rows, zero_vector(n), n),
{
    let none = Seq::new(rows.len(), |k: int| false);
    assert forall|j: int| 0 <= j < n implies combination(rows, none, n)[j] == zero_vector(n)[j] by {
        lemma_combination_bit(rows, none, n, j);
        lemma_parity_of_none(rows, none, j);
    }
    lemma_combination_len(rows, none, n);
    lemma_vectors_equal(combination(rows, none, n), zero_vector(n), n);
}

/// Where one row only is chosen, the parity of a column is its bit in that
/// row.
proof fn lemma_parity_of_one(rows: Seq<Seq<bool>>, pick: Seq<bool>, k: int, j: int)
    requires
        pick.len() == rows.len(),
        0 <= k < rows.len(),
        forall|m: int| 0 <= m < pick.len() ==> pick[m] == (m == k),
    ensures
        column_parity(rows, pick, j) == rows[k][j],
    decreases rows.len(),
{
    if k == rows.len() - 1 {
        lemma_parity_of_none(rows.drop_last(), pick.drop_last(), j);
    } else {
        lemma_parity_of_one(rows.drop_last(), pick.drop_last(), k, j);
    }
}

/// Every row is in the span of the rows.
pub proof fn lemma_row_in_span(rows: Seq<Seq<bool>>, k: int, n: nat)
    requires
        rows_of(rows, n),
        0 <= k < rows.len(),
    ensures
        in_span(rows, rows[k], n),
{
    let one = Seq::new(rows.len(), |m: int| m == k);
    assert forall|j: int| 0 <= j < n implies combination(rows, one, n)[j] == rows[k][j] by {
        lemma_combination_bit(rows, one, n, j);
        lemma_parity_of_one(rows, one, k, j);
    }
    lemma_combination_len(rows, one, n);
    lemma_vectors_equal(combination(rows, one, n), rows[k], n);
}

/// A sum of vectors of a span is in the span.
pub proof fn lemma_combination_in_span(
    rows: Seq<Seq<bool>>,
    others: Seq<Seq<bool>>,
    pick: Seq<bool>,
    n: nat,
)
    requires
        rows_of(rows, n),
        rows_of(others, n),
        forall|k: int| 0 <= k < others.len() ==> in_span(rows, #[trigger] others[k], n),
    ensures
        in_span(rows, combination(others, pick, n), n),
    decreases others.len(),
{
    if others.len() == 0 {
        lemma_zero_in_span(rows, n);
    } else {
        let front = others.drop_last();
        lemma_rows_of_front(others, n);
        assert forall|k: int|
            0 <= k < front.len() implies in_span(rows, #[trigger] front[k], n) by {
            assert(front[k] == others[k]);
        }
        lemma_combination_in_span(rows, front, pick.drop_last(), n);
        if pick.last() {
            assert(in_span(rows, others.last(), n)) by {
                assert(others.last() == others[others.len() - 1]);
            }
            lemma_span_closed(rows, combination(front, pick.drop_last(), n), others.last(), n);
        }
    }
}

/// Rows that each lie in the span of the others, both ways, span the same
/// vectors.
pub proof fn lemma_same_span(a: Seq<Seq<bool>>, b: Seq<Seq<bool>>, n: nat)
    requires
        rows_of(a, n),
        rows_of(b, n),
        forall|k: int| 0 <= k < a.len() ==> in_span(b, #[trigger] a[k], n),
        forall|k: int| 0 <= k < b.len() ==> in_span(a, #[trigger] b[k], n),
    ensures
        same_span(a, b, n),
{
    assert forall|v: Seq<bool>| #[trigger] in_span(a, v, n) == in_span(b, v, n) by {
        if in_span(a, v, n) {
            let p = choose|pick: Seq<bool>|
                pick.len() == a.len() && #[trigger] combination(a, pick, n) == v;
            lemma_combination_in_span(b, a, p, n);
        }
        if in_span(b, v, n) {
            let p = choose|pick: Seq<bool>|
                pick.len() == b.len() && #[trigger] combination(b, pick, n) == v;
            lemma_combination_in_span(a, b, p, n);
        }
    }
}

/// Adding a vector to itself gives the zero vector, and adding the zero
/// vector changes nothing.
pub proof fn lemma_xor_cancels(a: Seq<bool>, b: Seq<bool>)
    requires
        a.len() == b.len(),
    ensures
        xor_vector(xor_vector(a, b), b) == a,
        xor_vector(a, a) == zero_vector(a.len()),
        xor_vector(a, zero_vector(a.len())) == a,
{
    assert(xor_vector(xor_vector(a, b), b) =~= a);
    assert(xor_vector(a, a) =~= zero_vector(a.len()));
    assert(xor_vector(a, zero_vector(a.len())) =~= a);
}

/// Where a column has a one in the row `k` only, the bit of a sum at that
/// column tells whether row `k` is chosen.
pub proof fn lemma_parity_of_own_column(rows: Seq<Seq<bool>>, pick: Seq<bool>, k: int, j: int)
    requires
        pick.len() == rows.len(),
        0 <= k < rows.len(),
        rows[k][j],
        forall|m: int| 0 <= m < rows.len() && m != k ==> !(#[trigger] rows[m])[j],
    ensures
        column_parity(rows, pick, j) == pick[k],
    decreases rows.len(),
{
    let front = rows.drop_last();
    if k == rows.len() - 1 {
        lemma_parity_without_ones(front, pick.drop_last(), j);
    } else {
        assert(!rows[rows.len() - 1][j]);
        assert forall|m: int| 0 <= m < front.len() && m != k implies !(#[trigger] front[m])[j] by {
            assert(!rows[m][j]);
        }
        lemma_parity_of_own_column(front, pick.drop_last(), k, j);
    }
}

/// A column without a one has even parity over any rows chosen.
pub proof fn lemma_parity_without_ones(rows: Seq<Seq<bool>>, pick: Seq<bool>, j: int)
    requires
        forall|m: int| 0 <= m < rows.len() ==> !(#[trigger] rows[m])[j],
    ensures
        !column_parity(rows, pick, j),
    decreases rows.len(),
{
    if rows.len() > 0 {
        let front = rows.drop_last();
        assert(!rows[rows.len() - 1][j]);
        assert forall|m: int| 0 <= m < front.len() implies !(#[trigger] front[m])[j] by {
            assert(!rows[m][j]);
        }
        lemma_parity_without_ones(front, pick.drop_last(), j);
    }
}

/// Adding a vector of the span to a vector changes nothing in whether it
/// is in the span.
pub proof fn lemma_span_shift(rows: Seq<Seq<bool>>, v: Seq<bool>, w: Seq<bool>, n: nat)
    requires
        rows_of(rows, n),
        v.len() == n,
        w.len() == n,
        in_span(rows, w, n),
    ensures
        in_span(rows, xor_vector(v, w), n) == in_span(rows, v, n),
{
    if in_span(rows, v, n) {
        lemma_span_closed(rows, v, w, n);
    }
    if in_span(rows, xor_vector(v, w), n) {
        lemma_span_closed(rows, xor_vector(v, w), w, n);
        lemma_xor_cancels(v, w);
    }
}

/// A column in which no chosen row has a one has even parity.
pub proof fn lemma_parity_without_chosen_ones(rows: Seq<Seq<bool>>, pick: Seq<bool>, j: int)
    requires
        pick.len() == rows.len(),
        forall|m: int| 0 <= m < rows.len() && pick[m] ==> !(#[trigger] rows[m])[j],
    ensures
        !column_parity(rows, pick, j),
    decreases rows.len(),
{
    if rows.len() > 0 {
        let front = rows.drop_last();
        let last = rows.len() - 1;
        if pick[last] {
            assert(!rows[last][j]);
        }
        assert forall|m: int| 0 <= m < front.len() && pick.drop_last()[m] implies !(
        #[trigger] front[m])[j] by {
            assert(pick[m]);
            assert(!rows[m][j]);
        }
        lemma_parity_without_chosen_ones(front, pick.drop_last(), j);
    }
}

/// A sum of none of the rows is the zero vector.
pub proof fn lemma_combination_of_none(rows: Seq<Seq<bool>>, pick: Seq<bool>, n: nat)
    requires
        rows_of(rows, n),
        pick.len() == rows.len(),
        forall|k: int| 0 <= k < pick.len() ==> !pick[k],
    ensures
        combination(rows, pick, n) == zero_vector(n),
{
    assert forall|j: int| 0 <= j < n implies combination(rows, pick, n)[j] == zero_vector(n)[j] by {
        lemma_combination_bit(rows, pick, n, j);
        lemma_parity_without_chosen_ones(rows, pick, j);
    }
    lemma_combination_len(rows, pick, n);
    lemma_vectors_equal(combination(rows, pick, n), zero_vector(n), n);
}

/// More rows span at least as much.
pub proof fn lemma_span_grows(rows: Seq<Seq<bool>>, x: Seq<bool>, v: Seq<bool>, n: nat)
    requires
        rows_of(rows, n),
        x.len() == n,
        in_span(rows, v, n),
    ensures
        rows_of(rows.push(x), n),
        in_span(rows.push(x), v, n),
        in_span(rows.push(x), x, n),
{
    let more = rows.push(x);
    assert(rows_of(more, n)) by {
        assert forall|k: int| 0 <= k < more.len() implies (#[trigger] more[k]).len() == n by {
            if k < rows.len() {
                assert(rows[k].len() == n);
            }
        }
    }
    let pick = choose|pick: Seq<bool>|
        pick.len() == rows.len() && #[trigger] combination(rows, pick, n) == v;
    assert forall|k: int| 0 <= k < rows.len() implies in_span(more, #[trigger] rows[k], n) by {
        lemma_row_in_span(more, k, n);
    }
    lemma_combination_in_span(more, rows, pick, n);
    lemma_row_in_span(more, rows.len() as int, n);
}

/// With a vector of their span added, rows span what they spanned.
pub proof fn lemma_span_with_member(rows: Seq<Seq<bool>>, x: Seq<bool>, n: nat)
    requires
        rows_of(rows, n),
        x.len() == n,
        in_span(rows, x, n),
    ensures
        same_span(rows, rows.push(x), n),
{
    let more = rows.push(x);
    lemma_zero_in_span(rows, n);
    lemma_span_grows(rows, x, zero_vector(n), n);
    assert forall|k: int| 0 <= k < rows.len() implies in_span(more, #[trigger] rows[k], n) by {
        lemma_row_in_span(more, k, n);
    }
    assert forall|k: int| 0 <= k < more.len() implies in_span(rows, #[trigger] more[k], n) by {
        if k < rows.len() {
            lemma_row_in_span(rows, k, n);
        }
    }
    lemma_same_span(rows, more, n);
}

/// Rows with one of two vectors added span the same where the two vectors
/// differ by a vector of the span of the rows.
pub proof fn lemma_span_with_shifted(rows: Seq<Seq<bool>>, x: Seq<bool>, y: Seq<bool>, n: nat)
    requires
        rows_of(rows, n),
        x.len() == n,
        y.len() == n,
        in_span(rows, xor_vector(x, y), n),
    ensures
        same_span(rows.push(x), rows.push(y), n),
{
    let a = rows.push(x);
    let b = rows.push(y);
    let d = xor_vector(x, y);
    lemma_span_grows(rows, x, d, n);
    lemma_span_grows(rows, y, d, n);
    assert(xor_vector(d, x) =~= y);
    assert(xor_vector(d, y) =~= x);
    lemma_span_closed(a, d, x, n);
    lemma_span_closed(b, d, y, n);
    assert forall|k: int| 0 <= k < a.len() implies in_span(b, #[trigger] a[k], n) by {
        if k < rows.len() {
            lemma_row_in_span(b, k, n);
        }
    }
    assert forall|k: int| 0 <= k < b.len() implies in_span(a, #[trigger] b[k], n) by {
        if k < rows.len() {
            lemma_row_in_span(a, k, n);
        }
    }
    lemma_same_span(a, b, n);
}

/// Where a row is put in does not matter to the span.
pub proof fn lemma_span_of_insert(rows: Seq<Seq<bool>>, i: int, x: Seq<bool>, n: nat)
    requires
        rows_of(rows, n),
        x.len() == n,
        0 <= i <= rows.len(),
    ensures
        rows_of(rows.insert(i, x), n),
        same_span(rows.insert(i, x), rows.push(x), n),
{
    let a = rows.insert(i, x);
    let b = rows.push(x);
    assert(rows_of(a, n)) by {
        assert forall|k: int| 0 <= k < a.len() implies (#[trigger] a[k]).len() == n by {
            if k < i {
                assert(rows[k].len() == n);
            } else if k > i {
                assert(rows[k - 1].len() == n);
            }
        }
    }
    assert(rows_of(b, n)) by {
        assert forall|k: int| 0 <= k < b.len() implies (#[trigger] b[k]).len() == n by {
            if k < rows.len() {
                assert(rows[k].len() == n);
            }
        }
    }
    assert forall|k: int| 0 <= k < a.len() implies in_span(b, #[trigger] a[k], n) by {
        if k < i {
            lemma_row_in_span(b, k, n);
        } else if k == i {
            lemma_row_in_span(b, rows.len() as int, n);
        } else {
            lemma_row_in_span(b, k - 1, n);
        }
    }
    assert forall|k: int| 0 <= k < b.len() implies in_span(a, #[trigger] b[k], n) by {
        if k < i {
            lemma_row_in_span(a, k, n);
        } else if k < rows.len() {
            lemma_row_in_span(a, k + 1, n);
        } else {
            lemma_row_in_span(a, i, n);
        }
    }
    lemma_same_span(a, b, n);
}

} // verus!
