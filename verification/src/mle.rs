//! Dense multilinear extensions: a table of `2^k` field values indexed by a
//! little-endian bit composition of the `k` variables. Vectors are padded
//! with zeros up to the next power of two; two-axis tables are packed
//! row-major with the row index in the low bits.

use vstd::prelude::*;

verus! {

use crate::field::Fq;
use crate::field::Fq4;
use crate::field::fq_zero;
use crate::field::fq4_zero;
use vstd::arithmetic::power2::pow2;
use vstd::arithmetic::power2::lemma_pow2_unfold;
use vstd::arithmetic::power2::lemma2_to64;
use vstd::arithmetic::power2::lemma_pow2_strictly_increases;

/// The smallest power of two that is at least `m` (and at least 1).
pub open spec fn pow2_ceil(m: nat) -> nat
    decreases m,
{
    if m <= 1 {
        1
    } else {
        2 * pow2_ceil(((m + 1) / 2) as nat)
    }
}

/// A power of two in `[m, 2m)` is the ceiling power of two of `m`.
proof fn lemma_pow2_ceil_unique(m: nat, k: nat)
    requires
        m >= 1,
        pow2(k) >= m,
        pow2(k) < 2 * m,
    ensures
        pow2(k) == pow2_ceil(m),
    decreases m,
{
    if m <= 1 {
        if k >= 1 {
            vstd::arithmetic::power2::lemma_pow2_unfold(k);
            vstd::arithmetic::power2::lemma_pow2_pos((k - 1) as nat);
            assert(false);
        }
        assert(pow2(0) == 1) by {
            lemma2_to64();
        }
    } else {
        assert(k >= 1) by {
            if k == 0 {
                assert(pow2(0) == 1) by {
                    lemma2_to64();
                }
            }
        }
        let m2 = ((m + 1) / 2) as nat;
        vstd::arithmetic::power2::lemma_pow2_unfold(k);
        vstd::arithmetic::power2::lemma_pow2_pos((k - 1) as nat);
        vstd::arithmetic::div_mod::lemma_fundamental_div_mod(m as int + 1, 2);
        vstd::arithmetic::div_mod::lemma_mod_bound(m as int + 1, 2);
        assert(pow2((k - 1) as nat) >= m2);
        assert(pow2((k - 1) as nat) < 2 * m2);
        lemma_pow2_ceil_unique(m2, (k - 1) as nat);
    }
}

/// Dense multilinear extension over the base field.
pub struct MleFq {
    pub num_vars: usize,
    pub evals: Vec<Fq>,
}

/// Dense multilinear extension over the extension field.
pub struct MleFq4 {
    pub num_vars: usize,
    pub evals: Vec<Fq4>,
}

/// Smallest power of two that is at least `m`, with its exponent.
fn next_pow2(m: usize) -> (r: (usize, usize))
    requires
        m <= 0x1000_0000,
    ensures
        r.0 == pow2(r.1 as nat),
        r.0 >= m,
        r.0 >= 1,
        r.1 <= 28,
        m >= 1 ==> r.0 < 2 * m,
        m >= 1 ==> r.0 == pow2_ceil(m as nat),
{
    let mut p: usize = 1;
    let mut k: usize = 0;
    proof {
        lemma2_to64();
    }
    while p < m
        invariant
            m <= 0x1000_0000,
            p == pow2(k as nat),
            1 <= p,
            p < 2 * m || m == 0,
            k <= 28,
        decreases (if m as int - p as int > 0 { m as int - p as int } else { 0 }),
    {
        proof {
            lemma_pow2_unfold((k + 1) as nat);
            lemma2_to64();
            if k >= 28 {
                if k > 28 {
                    lemma_pow2_strictly_increases(28, k as nat);
                }
                assert(p >= 0x1000_0000);
                assert(false);
            }
        }
        p = p * 2;
        k = k + 1;
    }
    proof {
        if m >= 1 {
            lemma_pow2_ceil_unique(m as nat, k as nat);
        }
    }
    (p, k)
}

/// Pad a nonempty vector of extension-field values with zeros up to the next
/// power of two and view it as a multilinear table.
pub fn mle_from_vec_fq4(vals: &Vec<Fq4>) -> (r: MleFq4)
    requires
        1 <= vals@.len() <= 0x1000_0000,
    ensures
        r.evals@.len() == pow2(r.num_vars as nat),
        vals@.len() <= r.evals@.len() < 2 * vals@.len(),
        forall|i: int| 0 <= i < vals@.len() ==> r.evals@[i] == vals@[i],
        forall|i: int| vals@.len() <= i < r.evals@.len() ==> r.evals@[i] == fq4_zero(),
{
    let (m_p2, n) = next_pow2(vals.len());
    let mut evals: Vec<Fq4> = Vec::new();
    let mut i: usize = 0;
    while i < m_p2
        invariant
            i <= m_p2,
            vals@.len() <= m_p2,
            evals@.len() == i,
            forall|j: int| 0 <= j < i && j < vals@.len() ==> evals@[j] == vals@[j],
            forall|j: int| vals@.len() <= j < i ==> evals@[j] == fq4_zero(),
        decreases m_p2 - i,
    {
        if i < vals.len() {
            evals.push(vals[i]);
        } else {
            evals.push(Fq4::zero());
        }
        i = i + 1;
    }
    MleFq4 { num_vars: n, evals }
}

/// Value stored at grid cell `(i, j)` after packing: row index in the low
/// bits, column index shifted by the padded row count.
pub open spec fn table_cell(table: Seq<Seq<Fq>>, rows_p2: int, t: int) -> Fq {
    if t % rows_p2 < table.len() as int && 0 < table.len() && t / rows_p2 < table[0].len() as int {
        table[t % rows_p2][t / rows_p2]
    } else {
        fq_zero()
    }
}

/// The packed table `evals` holds the rows of `table` with row stride `rp`,
/// zeros elsewhere.
pub open spec fn mle_packs(table: Seq<Vec<Fq>>, evals: Seq<Fq>, rp: int) -> bool {
    rp >= table.len() && (evals.len() as int) % rp == 0 && forall|t: int|
        0 <= t < evals.len() ==> evals[t] == table_cell(
            table.map_values(|row: Vec<Fq>| row@),
            rp,
            t,
        )
}

/// Pack a rectangular table of base-field values into one dense multilinear
/// table: `idx = i + (j << log2(rows_p2))`.
pub fn mle_from_table(table: &Vec<Vec<Fq>>) -> (r: MleFq)
    requires
        1 <= table@.len() <= 0x1000_0000,
        table@[0].len() <= 0x1000_0000,
        forall|i: int| 0 <= i < table@.len() ==> (#[trigger] table@[i]).len() == table@[0].len(),
    ensures
        mle_packs(table@, r.evals@, pow2_ceil(table@.len()) as int),
        r.evals@.len() == pow2(r.num_vars as nat),
{
    let ghost tv = table@.map_values(|row: Vec<Fq>| row@);
    let rows = table.len();
    let cols = table[0].len();
    let (rows_p2, rbits) = next_pow2(rows);
    let (cols_p2, cbits) = next_pow2(if cols == 0 {
        1
    } else {
        cols
    });
    let n = rbits + cbits;
    let mut evals: Vec<Fq> = Vec::new();
    let mut j: usize = 0;
    while j < cols_p2
        invariant
            j <= cols_p2,
            rows == table@.len(),
            1 <= rows <= rows_p2,
            cols == table@[0].len(),
            cols <= cols_p2,
            rows_p2 <= 0x2000_0000,
            cols_p2 <= 0x2000_0000,
            tv == table@.map_values(|row: Vec<Fq>| row@),
            forall|i: int| 0 <= i < table@.len() ==> (#[trigger] table@[i]).len()
                == table@[0].len(),
            evals@.len() == j * rows_p2,
            forall|t: int| 0 <= t < j * rows_p2 ==> evals@[t] == table_cell(tv, rows_p2 as int, t),
        decreases cols_p2 - j,
    {
        let mut i: usize = 0;
        proof {
            assert((j + 1) * rows_p2 == j * rows_p2 + rows_p2 && j * rows_p2 >= 0 && (j + 1)
                * rows_p2 <= cols_p2 * rows_p2) by (nonlinear_arith)
                requires
                    0 <= j < cols_p2,
                    rows_p2 >= 1,
            ;
        }
        while i < rows_p2
            invariant
                i <= rows_p2,
                j < cols_p2,
                rows == table@.len(),
                1 <= rows <= rows_p2,
                cols == table@[0].len(),
                cols <= cols_p2,
                rows_p2 <= 0x2000_0000,
                cols_p2 <= 0x2000_0000,
                tv == table@.map_values(|row: Vec<Fq>| row@),
                forall|ii: int| 0 <= ii < table@.len() ==> (#[trigger] table@[ii]).len()
                    == table@[0].len(),
                evals@.len() == j * rows_p2 + i,
                (j + 1) * rows_p2 == j * rows_p2 + rows_p2,
                forall|t: int| 0 <= t < j * rows_p2 + i ==> evals@[t] == table_cell(
                    tv,
                    rows_p2 as int,
                    t,
                ),
            decreases rows_p2 - i,
        {
            let v: Fq = if i < rows && j < cols {
                table[i][j]
            } else {
                Fq::zero()
            };
            proof {
                let t = j * rows_p2 + i;
                vstd::arithmetic::div_mod::lemma_fundamental_div_mod_converse_mod(
                    t as int,
                    rows_p2 as int,
                    j as int,
                    i as int,
                );
                vstd::arithmetic::div_mod::lemma_fundamental_div_mod_converse_div(
                    t as int,
                    rows_p2 as int,
                    j as int,
                    i as int,
                );
                if i < rows && j < cols {
                    assert(tv[i as int] == table@[i as int]@);
                }
            }
            evals.push(v);
            i = i + 1;
        }
        j = j + 1;
    }
    proof {
        assert(evals@.len() == cols_p2 * rows_p2);
        assert(cols_p2 * rows_p2 == pow2((rbits + cbits) as nat)) by {
            vstd::arithmetic::power2::lemma_pow2_adds(cbits as nat, rbits as nat);
        }
        assert((evals@.len() as int) % (rows_p2 as int) == 0) by {
            vstd::arithmetic::div_mod::lemma_mod_multiples_basic(cols_p2 as int, rows_p2 as int);
            assert(cols_p2 as int * rows_p2 as int == rows_p2 as int * cols_p2 as int)
                by (nonlinear_arith);
        }
        assert(mle_packs(table@, evals@, rows_p2 as int));
    }
    let r = MleFq { num_vars: n, evals };
    proof {
        assert(mle_packs(table@, r.evals@, rows_p2 as int));
    }
    r
}

/// Value stored at grid cell `(i, j)` after packing, extension-field variant.
pub open spec fn table_cell_fq4(table: Seq<Seq<Fq4>>, rows_p2: int, t: int) -> Fq4 {
    if t % rows_p2 < table.len() as int && 0 < table.len() && t / rows_p2 < table[0].len() as int {
        table[t % rows_p2][t / rows_p2]
    } else {
        fq4_zero()
    }
}

/// The packed table `evals` holds the rows of `table` with row stride `rp`,
/// zeros elsewhere.
pub open spec fn mle_packs_fq4(table: Seq<Vec<Fq4>>, evals: Seq<Fq4>, rp: int) -> bool {
    rp >= table.len() && (evals.len() as int) % rp == 0 && forall|t: int|
        0 <= t < evals.len() ==> evals[t] == table_cell_fq4(
            table.map_values(|row: Vec<Fq4>| row@),
            rp,
            t,
        )
}

/// Pack a rectangular table of extension-field values, as `mle_from_table`.
pub fn mle_from_table_fq4(table: &Vec<Vec<Fq4>>) -> (r: MleFq4)
    requires
        1 <= table@.len() <= 0x1000_0000,
        table@[0].len() <= 0x1000_0000,
        forall|i: int| 0 <= i < table@.len() ==> (#[trigger] table@[i]).len() == table@[0].len(),
    ensures
        mle_packs_fq4(table@, r.evals@, pow2_ceil(table@.len()) as int),
        r.evals@.len() == pow2(r.num_vars as nat),
{
    let ghost tv = table@.map_values(|row: Vec<Fq4>| row@);
    let rows = table.len();
    let cols = table[0].len();
    let (rows_p2, rbits) = next_pow2(rows);
    let (cols_p2, cbits) = next_pow2(if cols == 0 {
        1
    } else {
        cols
    });
    let n = rbits + cbits;
    let mut evals: Vec<Fq4> = Vec::new();
    let mut j: usize = 0;
    while j < cols_p2
        invariant
            j <= cols_p2,
            rows == table@.len(),
            1 <= rows <= rows_p2,
            cols == table@[0].len(),
            cols <= cols_p2,
            rows_p2 <= 0x2000_0000,
            cols_p2 <= 0x2000_0000,
            tv == table@.map_values(|row: Vec<Fq4>| row@),
            forall|i: int| 0 <= i < table@.len() ==> (#[trigger] table@[i]).len()
                == table@[0].len(),
            evals@.len() == j * rows_p2,
            forall|t: int| 0 <= t < j * rows_p2 ==> evals@[t] == table_cell_fq4(
                tv,
                rows_p2 as int,
                t,
            ),
        decreases cols_p2 - j,
    {
        let mut i: usize = 0;
        proof {
            assert((j + 1) * rows_p2 == j * rows_p2 + rows_p2 && j * rows_p2 >= 0 && (j + 1)
                * rows_p2 <= cols_p2 * rows_p2) by (nonlinear_arith)
                requires
                    0 <= j < cols_p2,
                    rows_p2 >= 1,
            ;
        }
        while i < rows_p2
            invariant
                i <= rows_p2,
                j < cols_p2,
                rows == table@.len(),
                1 <= rows <= rows_p2,
                cols == table@[0].len(),
                cols <= cols_p2,
                rows_p2 <= 0x2000_0000,
                cols_p2 <= 0x2000_0000,
                tv == table@.map_values(|row: Vec<Fq4>| row@),
                forall|ii: int| 0 <= ii < table@.len() ==> (#[trigger] table@[ii]).len()
                    == table@[0].len(),
                evals@.len() == j * rows_p2 + i,
                (j + 1) * rows_p2 == j * rows_p2 + rows_p2,
                forall|t: int| 0 <= t < j * rows_p2 + i ==> evals@[t] == table_cell_fq4(
                    tv,
                    rows_p2 as int,
                    t,
                ),
            decreases rows_p2 - i,
        {
            let v: Fq4 = if i < rows && j < cols {
                table[i][j]
            } else {
                Fq4::zero()
            };
            proof {
                let t = j * rows_p2 + i;
                vstd::arithmetic::div_mod::lemma_fundamental_div_mod_converse_mod(
                    t as int,
                    rows_p2 as int,
                    j as int,
                    i as int,
                );
                vstd::arithmetic::div_mod::lemma_fundamental_div_mod_converse_div(
                    t as int,
                    rows_p2 as int,
                    j as int,
                    i as int,
                );
                if i < rows && j < cols {
                    assert(tv[i as int] == table@[i as int]@);
                }
            }
            evals.push(v);
            i = i + 1;
        }
        j = j + 1;
    }
    proof {
        assert(evals@.len() == cols_p2 * rows_p2);
        assert(cols_p2 * rows_p2 == pow2((rbits + cbits) as nat)) by {
            vstd::arithmetic::power2::lemma_pow2_adds(cbits as nat, rbits as nat);
        }
        assert((evals@.len() as int) % (rows_p2 as int) == 0) by {
            vstd::arithmetic::div_mod::lemma_mod_multiples_basic(cols_p2 as int, rows_p2 as int);
            assert(cols_p2 as int * rows_p2 as int == rows_p2 as int * cols_p2 as int)
                by (nonlinear_arith);
        }
    }
    let r = MleFq4 { num_vars: n, evals };
    proof {
        assert(mle_packs_fq4(table@, r.evals@, rows_p2 as int));
    }
    r
}

} // verus!
