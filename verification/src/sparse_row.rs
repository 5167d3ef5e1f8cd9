//! Rows of the sparse constraint matrix.

use crate::gf256::{
    gf_inverse, gf_mul, lemma_inverse, lemma_mul_distributive, lemma_mul_units,
    lemma_no_zero_divisors, lemma_xor, lemma_xor_exchange,
};
use crate::linear::Equation;
use crate::octet::Octet;
use crate::symbol::Symbol;
use vstd::prelude::*;

verus! {

/// The coefficient that an entry contributes to column `c`.
pub open spec fn entry_coef(entry: (u32, u8), c: int) -> u8 {
    if entry.0 == c {
        entry.1
    } else {
        0
    }
}

/// The coefficient of column `c`: the sum over the entries of that column.
pub open spec fn coef(cols: Seq<(u32, u8)>, c: int) -> u8
    decreases cols.len(),
{
    if cols.len() == 0 {
        0
    } else {
        coef(cols.drop_last(), c) ^ entry_coef(cols.last(), c)
    }
}

/// No column occurs twice.
pub open spec fn distinct_columns(cols: Seq<(u32, u8)>) -> bool {
    forall|i: int, j: int|
        0 <= i < j < cols.len() ==> (#[trigger] cols[i]).0 != (#[trigger] cols[j]).0
}

/// Columns do not decrease.
pub open spec fn sorted_columns(cols: Seq<(u32, u8)>) -> bool {
    forall|i: int, j: int|
        0 <= i < j < cols.len() ==> (#[trigger] cols[i]).0 <= (#[trigger] cols[j]).0
}

/// Columns increase.
pub open spec fn increasing_columns(cols: Seq<(u32, u8)>) -> bool {
    forall|i: int, j: int|
        0 <= i < j < cols.len() ==> (#[trigger] cols[i]).0 < (#[trigger] cols[j]).0
}

/// The entries whose coefficient is not zero.
pub open spec fn nonzero_entries(cols: Seq<(u32, u8)>) -> Seq<(u32, u8)> {
    cols.filter(|e: (u32, u8)| e.1 != 0)
}

/// One equation in sparse form: the columns with their coefficients, sorted by column, and the
/// right-hand side.
#[derive(Debug)]
pub struct SparseRow {
    pub cols: Vec<(u32, u8)>,
    pub rhs: Symbol,
}

impl SparseRow {
    /// Columns increase and no coefficient is zero.
    pub open spec fn canonical(&self) -> bool {
        &&& increasing_columns(self.cols@)
        &&& forall|i: int| 0 <= i < self.cols@.len() ==> (#[trigger] self.cols@[i]).1 != 0
    }

    /// All columns are below `n`.
    pub open spec fn within(&self, n: nat) -> bool {
        forall|i: int| 0 <= i < self.cols@.len() ==> (#[trigger] self.cols@[i]).0 < n
    }

    /// A canonical row over `n` unknowns of `size` bytes.
    pub open spec fn wf(&self, n: nat, size: nat) -> bool {
        &&& self.canonical()
        &&& self.within(n)
        &&& self.rhs@.len() == size
    }

    /// The equation in `n` unknowns that the row stands for.
    pub open spec fn equation(&self, n: nat) -> Equation {
        Equation { coefs: Seq::new(n, |c: int| coef(self.cols@, c)), rhs: self.rhs@ }
    }
}

proof fn lemma_coef_insert(cols: Seq<(u32, u8)>, i: int, entry: (u32, u8), c: int)
    requires
        0 <= i <= cols.len(),
    ensures
        coef(cols.insert(i, entry), c) == coef(cols, c) ^ entry_coef(entry, c),
    decreases cols.len(),
{
    let longer = cols.insert(i, entry);
    if i == cols.len() {
        assert(longer.drop_last() =~= cols);
    } else {
        assert(longer.drop_last() =~= cols.drop_last().insert(i, entry));
        assert(longer.last() == cols.last());
        lemma_coef_insert(cols.drop_last(), i, entry, c);
        let p = coef(cols.drop_last(), c);
        let q = entry_coef(entry, c);
        let r = entry_coef(cols.last(), c);
        lemma_xor(p, q, r);
        lemma_xor(q, r, 0);
        lemma_xor(p, r, q);
    }
}

proof fn lemma_coef_push(cols: Seq<(u32, u8)>, entry: (u32, u8), c: int)
    ensures
        coef(cols.push(entry), c) == coef(cols, c) ^ entry_coef(entry, c),
{
    assert(cols.push(entry).drop_last() =~= cols);
}

proof fn lemma_coef_take(cols: Seq<(u32, u8)>, i: int, c: int)
    requires
        0 <= i < cols.len(),
    ensures
        coef(cols.take(i + 1), c) == coef(cols.take(i), c) ^ entry_coef(cols[i], c),
{
    assert(cols.take(i + 1).drop_last() =~= cols.take(i));
}

/// A column without an entry has coefficient zero.
pub proof fn lemma_coef_absent(cols: Seq<(u32, u8)>, c: int)
    requires
        forall|i: int| 0 <= i < cols.len() ==> (#[trigger] cols[i]).0 != c,
    ensures
        coef(cols, c) == 0,
    decreases cols.len(),
{
    if cols.len() > 0 {
        let shorter = cols.drop_last();
        assert forall|i: int| 0 <= i < shorter.len() implies (#[trigger] shorter[i]).0 != c by {
            assert(shorter[i] == cols[i]);
        }
        lemma_coef_absent(shorter, c);
        lemma_xor(0, 0, 0);
    }
}

/// A column with one entry has the coefficient of that entry.
pub proof fn lemma_coef_present(cols: Seq<(u32, u8)>, i: int)
    requires
        distinct_columns(cols),
        0 <= i < cols.len(),
    ensures
        coef(cols, cols[i].0 as int) == cols[i].1,
    decreases cols.len(),
{
    let c = cols[i].0 as int;
    let shorter = cols.drop_last();
    lemma_xor(cols[i].1, 0, 0);
    if i == cols.len() - 1 {
        assert forall|k: int| 0 <= k < shorter.len() implies (#[trigger] shorter[k]).0 != c by {
            assert(shorter[k] == cols[k]);
        }
        lemma_coef_absent(shorter, c);
    } else {
        assert forall|k: int, l: int| 0 <= k < l < shorter.len() implies (
        #[trigger] shorter[k]).0 != (#[trigger] shorter[l]).0 by {
            assert(shorter[k] == cols[k] && shorter[l] == cols[l]);
        }
        lemma_coef_present(shorter, i);
        assert(shorter[i] == cols[i]);
        assert(cols[cols.len() - 1].0 != c);
    }
}

/// A coefficient that is not zero comes from an entry.
pub proof fn lemma_coef_witness(cols: Seq<(u32, u8)>, c: int) -> (i: int)
    requires
        distinct_columns(cols),
        coef(cols, c) != 0,
    ensures
        0 <= i < cols.len(),
        cols[i].0 == c,
        cols[i].1 == coef(cols, c),
{
    if forall|i: int| 0 <= i < cols.len() ==> (#[trigger] cols[i]).0 != c {
        lemma_coef_absent(cols, c);
    }
    let i = choose|i: int| 0 <= i < cols.len() && (#[trigger] cols[i]).0 == c;
    lemma_coef_present(cols, i);
    i
}

/// The entries list the coefficients: each column at most once, and those that are missing have
/// coefficient zero.
pub open spec fn lists(cols: Seq<(u32, u8)>, coefs: Seq<u8>) -> bool {
    &&& distinct_columns(cols)
    &&& forall|i: int| 0 <= i < cols.len() ==> (#[trigger] cols[i]).0 < coefs.len()
    &&& forall|c: int| 0 <= c < coefs.len() ==> #[trigger] coef(cols, c) == coefs[c]
}

/// An entry for a new column sets the coefficient of that column and leaves the others.
pub proof fn lemma_coef_append(cols: Seq<(u32, u8)>, entry: (u32, u8))
    requires
        distinct_columns(cols),
        forall|i: int| 0 <= i < cols.len() ==> (#[trigger] cols[i]).0 != entry.0,
    ensures
        distinct_columns(cols.push(entry)),
        forall|c: int|
            #[trigger] coef(cols.push(entry), c) == if c == entry.0 {
                entry.1
            } else {
                coef(cols, c)
            },
{
    assert forall|c: int|
        #[trigger] coef(cols.push(entry), c) == if c == entry.0 {
            entry.1
        } else {
            coef(cols, c)
        } by {
        lemma_coef_push(cols, entry, c);
        lemma_xor(coef(cols, c), 0, 0);
        if c == entry.0 {
            lemma_coef_absent(cols, c);
            lemma_xor(entry.1, 0, 0);
        }
    }
}

/// The row made from a list of coefficients stands for the equation with these coefficients.
pub proof fn lemma_row_lists(row: SparseRow, cols: Seq<(u32, u8)>, coefs: Seq<u8>)
    requires
        lists(cols, coefs),
        row.canonical(),
        forall|c: int| #[trigger] coef(row.cols@, c) == coef(cols, c),
        forall|i: int| 0 <= i < row.cols@.len() ==> cols.contains(#[trigger] row.cols@[i]),
    ensures
        row.wf(coefs.len(), row.rhs@.len()),
        row.equation(coefs.len()) == (Equation { coefs, rhs: row.rhs@ }),
{
    assert forall|i: int| 0 <= i < row.cols@.len() implies (#[trigger] row.cols@[i]).0
        < coefs.len() by {
        let k = choose|k: int| 0 <= k < cols.len() && cols[k] == row.cols@[i];
        assert(cols[k].0 < coefs.len());
    }
    assert(row.equation(coefs.len()).coefs =~= coefs);
}

/// What a merge has produced once it has consumed `i` entries of `a` and `j` entries of `b`: the
/// canonical form of their sum, with `b` scaled.
spec fn merge_state(
    merged: Seq<(u32, u8)>,
    a: Seq<(u32, u8)>,
    b: Seq<(u32, u8)>,
    i: int,
    j: int,
    s: u8,
) -> bool {
    &&& increasing_columns(merged)
    &&& forall|k: int| 0 <= k < merged.len() ==> (#[trigger] merged[k]).1 != 0
    &&& forall|k: int|
        0 <= k < merged.len() ==> {
            &&& i < a.len() ==> (#[trigger] merged[k]).0 < a[i].0
            &&& j < b.len() ==> merged[k].0 < b[j].0
            &&& (exists|l: int| 0 <= l < a.len() && (#[trigger] a[l]).0 == merged[k].0) || (exists|
                l: int,
            |
                0 <= l < b.len() && (#[trigger] b[l]).0 == merged[k].0)
        }
    &&& forall|c: int|
        #[trigger] coef(merged, c) == coef(a.take(i), c) ^ gf_mul(s, coef(b.take(j), c))
}

proof fn lemma_merge_left(
    merged: Seq<(u32, u8)>,
    a: Seq<(u32, u8)>,
    b: Seq<(u32, u8)>,
    i: int,
    j: int,
    s: u8,
)
    requires
        merge_state(merged, a, b, i, j, s),
        increasing_columns(a),
        0 <= i < a.len(),
        0 <= j <= b.len(),
        a[i].1 != 0,
        j < b.len() ==> a[i].0 < b[j].0,
    ensures
        merge_state(merged.push(a[i]), a, b, i + 1, j, s),
{
    let next = merged.push(a[i]);
    assert forall|k: int| 0 <= k < next.len() implies {
        &&& i + 1 < a.len() ==> (#[trigger] next[k]).0 < a[i + 1].0
        &&& j < b.len() ==> next[k].0 < b[j].0
        &&& (exists|l: int| 0 <= l < a.len() && (#[trigger] a[l]).0 == next[k].0) || (exists|
            l: int,
        |
            0 <= l < b.len() && (#[trigger] b[l]).0 == next[k].0)
    } by {
        if k < merged.len() {
            assert(next[k] == merged[k]);
        } else {
            assert(a[i].0 == next[k].0);
        }
    }
    assert forall|c: int| #[trigger] coef(next, c) == coef(a.take(i + 1), c) ^ gf_mul(
        s,
        coef(b.take(j), c),
    ) by {
        lemma_coef_push(merged, a[i], c);
        lemma_coef_take(a, i, c);
        let p = coef(a.take(i), c);
        let q = gf_mul(s, coef(b.take(j), c));
        let r = entry_coef(a[i], c);
        lemma_xor(p, q, r);
        lemma_xor(q, r, 0);
        lemma_xor(p, r, q);
    }
}

proof fn lemma_merge_right(
    merged: Seq<(u32, u8)>,
    a: Seq<(u32, u8)>,
    b: Seq<(u32, u8)>,
    i: int,
    j: int,
    s: u8,
)
    requires
        merge_state(merged, a, b, i, j, s),
        increasing_columns(b),
        0 <= i <= a.len(),
        0 <= j < b.len(),
        b[j].1 != 0,
        s != 0,
        i < a.len() ==> b[j].0 < a[i].0,
    ensures
        merge_state(merged.push((b[j].0, gf_mul(s, b[j].1))), a, b, i, j + 1, s),
{
    let entry = (b[j].0, gf_mul(s, b[j].1));
    let next = merged.push(entry);
    lemma_no_zero_divisors(s, b[j].1);
    assert forall|k: int| 0 <= k < next.len() implies {
        &&& i < a.len() ==> (#[trigger] next[k]).0 < a[i].0
        &&& j + 1 < b.len() ==> next[k].0 < b[j + 1].0
        &&& (exists|l: int| 0 <= l < a.len() && (#[trigger] a[l]).0 == next[k].0) || (exists|
            l: int,
        |
            0 <= l < b.len() && (#[trigger] b[l]).0 == next[k].0)
    } by {
        if k < merged.len() {
            assert(next[k] == merged[k]);
        } else {
            assert(b[j].0 == next[k].0);
        }
    }
    assert forall|c: int| #[trigger] coef(next, c) == coef(a.take(i), c) ^ gf_mul(
        s,
        coef(b.take(j + 1), c),
    ) by {
        lemma_coef_push(merged, entry, c);
        lemma_coef_take(b, j, c);
        let p = coef(a.take(i), c);
        let q = coef(b.take(j), c);
        let r = entry_coef(b[j], c);
        lemma_mul_units(s);
        lemma_mul_distributive(s, q, r);
        lemma_xor(p, gf_mul(s, q), gf_mul(s, r));
    }
}

proof fn lemma_merge_both(
    merged: Seq<(u32, u8)>,
    a: Seq<(u32, u8)>,
    b: Seq<(u32, u8)>,
    i: int,
    j: int,
    s: u8,
)
    requires
        merge_state(merged, a, b, i, j, s),
        increasing_columns(a),
        increasing_columns(b),
        0 <= i < a.len(),
        0 <= j < b.len(),
        a[i].0 == b[j].0,
    ensures
        ({
            let v = a[i].1 ^ gf_mul(s, b[j].1);
            let next = if v != 0 {
                merged.push((a[i].0, v))
            } else {
                merged
            };
            merge_state(next, a, b, i + 1, j + 1, s)
        }),
{
    let v = a[i].1 ^ gf_mul(s, b[j].1);
    let entry = (a[i].0, v);
    let next = if v != 0 {
        merged.push(entry)
    } else {
        merged
    };
    assert forall|k: int| 0 <= k < next.len() implies {
        &&& i + 1 < a.len() ==> (#[trigger] next[k]).0 < a[i + 1].0
        &&& j + 1 < b.len() ==> next[k].0 < b[j + 1].0
        &&& (exists|l: int| 0 <= l < a.len() && (#[trigger] a[l]).0 == next[k].0) || (exists|
            l: int,
        |
            0 <= l < b.len() && (#[trigger] b[l]).0 == next[k].0)
    } by {
        if k < merged.len() {
            assert(next[k] == merged[k]);
        } else {
            assert(a[i].0 == next[k].0);
        }
    }
    assert forall|c: int| #[trigger] coef(next, c) == coef(a.take(i + 1), c) ^ gf_mul(
        s,
        coef(b.take(j + 1), c),
    ) by {
        lemma_coef_push(merged, entry, c);
        lemma_coef_take(a, i, c);
        lemma_coef_take(b, j, c);
        let p = coef(a.take(i), c);
        let q = coef(b.take(j), c);
        let r = entry_coef(a[i], c);
        let u = entry_coef(b[j], c);
        lemma_mul_units(s);
        lemma_mul_distributive(s, q, u);
        lemma_xor_exchange(p, r, gf_mul(s, q), gf_mul(s, u));
        lemma_xor(coef(merged, c), 0, 0);
        lemma_xor(0, 0, 0);
    }
}

proof fn lemma_coef_scaled(cols: Seq<(u32, u8)>, old_cols: Seq<(u32, u8)>, s: u8, c: int)
    requires
        cols.len() == old_cols.len(),
        forall|k: int|
            0 <= k < cols.len() ==> #[trigger] cols[k] == (
                old_cols[k].0,
                gf_mul(s, old_cols[k].1),
            ),
    ensures
        coef(cols, c) == gf_mul(s, coef(old_cols, c)),
    decreases cols.len(),
{
    lemma_mul_units(s);
    if cols.len() > 0 {
        let shorter = cols.drop_last();
        let old_shorter = old_cols.drop_last();
        assert forall|k: int| 0 <= k < shorter.len() implies #[trigger] shorter[k] == (
            old_shorter[k].0,
            gf_mul(s, old_shorter[k].1),
        ) by {
            assert(shorter[k] == cols[k]);
        }
        lemma_coef_scaled(shorter, old_shorter, s, c);
        assert(cols[cols.len() - 1] == cols.last());
        lemma_mul_distributive(s, coef(old_shorter, c), entry_coef(old_cols.last(), c));
    }
}

/// Adding zero times a row changes nothing.
proof fn lemma_plus_zero(row: SparseRow, other: SparseRow)
    ensures
        forall|n: nat| #[trigger] row.equation(n) == row.equation(n).plus(other.equation(n), 0),
{
    assert forall|n: nat| #[trigger] row.equation(n) == row.equation(n).plus(
        other.equation(n),
        0,
    ) by {
        let sum = row.equation(n).plus(other.equation(n), 0);
        assert forall|c: int| 0 <= c < n implies row.equation(n).coefs[c] == sum.coefs[c] by {
            lemma_mul_units(other.equation(n).coefs[c]);
            lemma_xor(row.equation(n).coefs[c], 0, 0);
        }
        assert(row.equation(n).coefs =~= sum.coefs);
        assert forall|t: int| 0 <= t < row.rhs@.len() implies row.rhs@[t] == sum.rhs[t] by {
            lemma_mul_units(other.rhs@[t]);
            lemma_xor(row.rhs@[t], 0, 0);
        }
        assert(row.rhs@ =~= sum.rhs);
    }
}

impl Clone for SparseRow {
    fn clone(&self) -> (r: SparseRow)
        ensures
            r.cols@ == self.cols@,
            r.rhs@ == self.rhs@,
    {
        let mut cols: Vec<(u32, u8)> = Vec::with_capacity(self.cols.len());
        let mut i: usize = 0;
        while i < self.cols.len()
            invariant
                i <= self.cols@.len(),
                cols@ == self.cols@.take(i as int),
            decreases self.cols@.len() - i,
        {
            cols.push(self.cols[i]);
            proof {
                assert(self.cols@.take(i as int).push(self.cols@[i as int])
                    =~= self.cols@.take(i + 1));
            }
            i = i + 1;
        }
        proof {
            assert(self.cols@.take(i as int) =~= self.cols@);
        }
        SparseRow { cols, rhs: self.rhs.clone() }
    }
}

impl SparseRow {
    /// The row with the given entries: those with coefficient zero are dropped, the others are
    /// sorted by column.
    pub fn new(cols: Vec<(u32, u8)>, rhs: Symbol) -> (row: SparseRow)
        ensures
            row.rhs == rhs,
            row.cols@.to_multiset() == nonzero_entries(cols@).to_multiset(),
            sorted_columns(row.cols@),
            forall|c: int| #[trigger] coef(row.cols@, c) == coef(cols@, c),
            forall|i: int|
                0 <= i < row.cols@.len() ==> cols@.contains(#[trigger] row.cols@[i])
                    && row.cols@[i].1 != 0,
            distinct_columns(cols@) ==> row.canonical(),
    {
        let mut sorted: Vec<(u32, u8)> = Vec::with_capacity(cols.len());
        let mut i: usize = 0;
        proof {
            assert(nonzero_entries(cols@.take(0)) =~= Seq::<(u32, u8)>::empty()) by {
                reveal(Seq::filter);
            }
        }
        while i < cols.len()
            invariant
                i <= cols@.len(),
                sorted@.to_multiset() == nonzero_entries(cols@.take(i as int)).to_multiset(),
                sorted_columns(sorted@),
                forall|c: int| #[trigger] coef(sorted@, c) == coef(cols@.take(i as int), c),
                forall|k: int|
                    0 <= k < sorted@.len() ==> cols@.take(i as int).contains(
                        #[trigger] sorted@[k],
                    ) && sorted@[k].1 != 0,
                distinct_columns(cols@) ==> increasing_columns(sorted@),
            decreases cols@.len() - i,
        {
            let entry: (u32, u8) = cols[i];
            let ghost before = sorted@;
            let ghost prefix = cols@.take(i as int);
            let ghost longer = cols@.take(i + 1);
            proof {
                assert(longer =~= prefix.push(entry));
                assert(longer.drop_last() =~= prefix);
                reveal(Seq::filter);
                assert(nonzero_entries(longer) == if entry.1 != 0 {
                    nonzero_entries(prefix).push(entry)
                } else {
                    nonzero_entries(prefix)
                });
                vstd::seq_lib::to_multiset_build(nonzero_entries(prefix), entry);
                assert forall|e: (u32, u8)| #[trigger] prefix.contains(e) implies longer.contains(
                    e,
                ) by {
                    let k = choose|k: int| 0 <= k < prefix.len() && prefix[k] == e;
                    assert(longer[k] == e);
                }
            }
            if entry.1 != 0 {
                let mut at: usize = sorted.len();
                while at > 0 && sorted[at - 1].0 > entry.0
                    invariant
                        at <= sorted@.len(),
                        sorted_columns(sorted@),
                        forall|k: int|
                            at <= k < sorted@.len() ==> (#[trigger] sorted@[k]).0 > entry.0,
                    decreases at,
                {
                    at = at - 1;
                }
                sorted.insert(at, entry);
                proof {
                    assert(sorted@ =~= before.insert(at as int, entry));
                    vstd::seq_lib::to_multiset_insert(before, at as int, entry);
                    assert forall|c: int| #[trigger] coef(sorted@, c) == coef(longer, c) by {
                        lemma_coef_insert(before, at as int, entry, c);
                        lemma_coef_push(prefix, entry, c);
                    }
                    assert forall|k: int| 0 <= k < sorted@.len() implies longer.contains(
                        #[trigger] sorted@[k],
                    ) && sorted@[k].1 != 0 by {
                        if k == at {
                            assert(longer[i as int] == entry);
                        } else if k < at {
                            assert(sorted@[k] == before[k]);
                        } else {
                            assert(sorted@[k] == before[k - 1]);
                        }
                    }
                    if distinct_columns(cols@) {
                        assert forall|k: int| 0 <= k < before.len() implies (
                        #[trigger] before[k]).0 != entry.0 by {
                            let l = choose|l: int| 0 <= l < prefix.len() && prefix[l] == before[k];
                            assert(cols@[l] == before[k]);
                            assert(cols@[i as int] == entry);
                        }
                    }
                }
            } else {
                proof {
                    assert forall|c: int| #[trigger] coef(sorted@, c) == coef(longer, c) by {
                        lemma_coef_push(prefix, entry, c);
                        lemma_xor(coef(prefix, c), 0, 0);
                    }
                }
            }
            i = i + 1;
        }
        proof {
            assert(cols@.take(i as int) =~= cols@);
        }
        SparseRow { cols: sorted, rhs }
    }

    /// The first column of the row.
    pub fn min_col(&self) -> (r: Option<u32>)
        ensures
            self.cols@.len() == 0 ==> r is None,
            self.cols@.len() > 0 ==> r == Some(self.cols@[0].0),
    {
        if self.cols.len() == 0 {
            None
        } else {
            Some(self.cols[0].0)
        }
    }

    /// The coefficient of column `col`.
    pub fn coeff_at(&self, col: u32) -> (r: u8)
        requires
            increasing_columns(self.cols@),
        ensures
            r == coef(self.cols@, col as int),
    {
        let mut low: usize = 0;
        let mut high: usize = self.cols.len();
        while low < high
            invariant
                low <= high <= self.cols@.len(),
                increasing_columns(self.cols@),
                forall|i: int| 0 <= i < low ==> (#[trigger] self.cols@[i]).0 < col,
                forall|i: int| high <= i < self.cols@.len() ==> (#[trigger] self.cols@[i]).0 > col,
            decreases high - low,
        {
            let mid: usize = low + (high - low) / 2;
            let entry: (u32, u8) = self.cols[mid];
            if entry.0 == col {
                proof {
                    lemma_coef_present(self.cols@, mid as int);
                }
                return entry.1;
            }
            if entry.0 < col {
                low = mid + 1;
            } else {
                high = mid;
            }
        }
        proof {
            lemma_coef_absent(self.cols@, col as int);
        }
        0
    }

    /// Adds `scalar` times `other` to this row, right-hand sides included. A zero scalar leaves the
    /// row as it is, whatever the two rows hold.
    pub fn fma(&mut self, other: &SparseRow, scalar: &Octet)
        requires
            scalar.value != 0 ==> {
                &&& old(self).canonical()
                &&& other.canonical()
                &&& old(self).rhs@.len() == other.rhs@.len()
            },
        ensures
            scalar.value == 0 ==> *final(self) == *old(self),
            scalar.value != 0 ==> final(self).canonical(),
            forall|n: nat|
                #[trigger] final(self).equation(n) == old(self).equation(n).plus(
                    other.equation(n),
                    scalar.value,
                ),
            forall|n: nat|
                old(self).within(n) && other.within(n) ==> #[trigger] final(self).within(n),
    {
        let ghost before = *self;
        let ghost s = scalar.value;
        if *scalar == Octet::zero() {
            proof {
                lemma_plus_zero(before, *other);
            }
            return ;
        }
        let mut merged: Vec<(u32, u8)> = Vec::new();
        let mut i: usize = 0;
        let mut j: usize = 0;
        proof {
            lemma_mul_units(s);
            lemma_xor(0, 0, 0);
        }
        while i < self.cols.len() && j < other.cols.len()
            invariant
                *self == before,
                before.canonical(),
                other.canonical(),
                s == scalar.value,
                s != 0,
                i <= before.cols@.len(),
                j <= other.cols@.len(),
                merge_state(merged@, before.cols@, other.cols@, i as int, j as int, s),
            decreases before.cols@.len() - i + other.cols@.len() - j,
        {
            let (ca, va) = self.cols[i];
            let (cb, vb) = other.cols[j];
            if ca < cb {
                proof {
                    lemma_merge_left(merged@, before.cols@, other.cols@, i as int, j as int, s);
                }
                merged.push((ca, va));
                i = i + 1;
            } else if cb < ca {
                proof {
                    lemma_merge_right(merged@, before.cols@, other.cols@, i as int, j as int, s);
                }
                merged.push((cb, (*scalar * Octet::new(vb)).byte()));
                j = j + 1;
            } else {
                let v: u8 = va ^ (*scalar * Octet::new(vb)).byte();
                proof {
                    lemma_merge_both(merged@, before.cols@, other.cols@, i as int, j as int, s);
                }
                if v != 0 {
                    merged.push((ca, v));
                }
                i = i + 1;
                j = j + 1;
            }
        }
        while i < self.cols.len()
            invariant
                *self == before,
                before.canonical(),
                other.canonical(),
                s != 0,
                i <= before.cols@.len(),
                j <= other.cols@.len(),
                i < before.cols@.len() ==> j == other.cols@.len(),
                merge_state(merged@, before.cols@, other.cols@, i as int, j as int, s),
            decreases before.cols@.len() - i,
        {
            proof {
                lemma_merge_left(merged@, before.cols@, other.cols@, i as int, j as int, s);
            }
            merged.push(self.cols[i]);
            i = i + 1;
        }
        while j < other.cols.len()
            invariant
                before.canonical(),
                other.canonical(),
                s == scalar.value,
                s != 0,
                i == before.cols@.len(),
                j <= other.cols@.len(),
                merge_state(merged@, before.cols@, other.cols@, i as int, j as int, s),
            decreases other.cols@.len() - j,
        {
            let (cb, vb) = other.cols[j];
            proof {
                lemma_merge_right(merged@, before.cols@, other.cols@, i as int, j as int, s);
            }
            merged.push((cb, (*scalar * Octet::new(vb)).byte()));
            j = j + 1;
        }
        self.cols = merged;
        if *scalar == Octet::one() {
            self.rhs.add_assign(&other.rhs);
        } else {
            self.rhs.fused_addassign_mul_scalar(&other.rhs, scalar);
        }
        proof {
            assert(before.cols@.take(i as int) =~= before.cols@);
            assert(other.cols@.take(j as int) =~= other.cols@);
            assert forall|n: nat| #[trigger] self.equation(n) == before.equation(n).plus(
                other.equation(n),
                s,
            ) by {
                assert forall|c: int| 0 <= c < n implies self.equation(n).coefs[c]
                    == before.equation(n).plus(other.equation(n), s).coefs[c] by {
                    assert(coef(self.cols@, c) == coef(before.cols@, c) ^ gf_mul(
                        s,
                        coef(other.cols@, c),
                    ));
                }
                assert(self.equation(n).coefs =~= before.equation(n).plus(
                    other.equation(n),
                    s,
                ).coefs);
            }
        }
    }

    /// Scales the row so that the coefficient of `pivot_col` becomes one; `None`, with the row left
    /// as it is, where that coefficient is zero.
    pub fn normalize_pivot(&mut self, pivot_col: u32) -> (r: Option<()>)
        requires
            increasing_columns(old(self).cols@),
        ensures
            r is None <==> coef(old(self).cols@, pivot_col as int) == 0,
            r is None ==> *final(self) == *old(self),
            r is Some ==> {
                let inv = gf_inverse(coef(old(self).cols@, pivot_col as int));
                &&& increasing_columns(final(self).cols@)
                &&& old(self).canonical() ==> final(self).canonical()
                &&& coef(final(self).cols@, pivot_col as int) == 1
                &&& forall|n: nat|
                    #[trigger] final(self).equation(n) == old(self).equation(n).times(inv)
                &&& forall|n: nat| old(self).within(n) ==> #[trigger] final(self).within(n)
                &&& final(self).cols@.len() == old(self).cols@.len()
                &&& forall|i: int|
                    0 <= i < final(self).cols@.len() ==> (#[trigger] final(self).cols@[i]).0 == old(
                        self,
                    ).cols@[i].0
            },
    {
        let ghost before = *self;
        let coeff: u8 = self.coeff_at(pivot_col);
        if coeff == 0 {
            return None;
        }
        let inv: Octet = Octet::one() / Octet::new(coeff);
        proof {
            lemma_inverse(coeff);
            lemma_mul_units(gf_inverse(coeff));
        }
        let mut i: usize = 0;
        while i < self.cols.len()
            invariant
                inv.value != 0,
                self.rhs == before.rhs,
                self.cols@.len() == before.cols@.len(),
                i <= self.cols@.len(),
                forall|k: int|
                    0 <= k < i ==> #[trigger] self.cols@[k] == (
                        before.cols@[k].0,
                        gf_mul(inv.value, before.cols@[k].1),
                    ),
                forall|k: int| i <= k < self.cols@.len() ==> self.cols@[k] == before.cols@[k],
            decreases self.cols@.len() - i,
        {
            let entry: (u32, u8) = self.cols[i];
            let value: u8 = (inv * Octet::new(entry.1)).byte();
            self.cols[i] = (entry.0, value);
            i = i + 1;
        }
        self.rhs.mulassign_scalar(&inv);
        proof {
            if before.canonical() {
                assert forall|k: int| 0 <= k < self.cols@.len() implies (
                #[trigger] self.cols@[k]).1 != 0 by {
                    lemma_no_zero_divisors(inv.value, before.cols@[k].1);
                }
            }
            assert forall|c: int| #[trigger] coef(self.cols@, c) == gf_mul(
                inv.value,
                coef(before.cols@, c),
            ) by {
                lemma_coef_scaled(self.cols@, before.cols@, inv.value, c);
            }
            assert forall|n: nat| #[trigger] self.equation(n) == before.equation(n).times(
                inv.value,
            ) by {
                assert(self.equation(n).coefs =~= before.equation(n).times(inv.value).coefs);
            }
        }
        Some(())
    }
}

} // verus!
