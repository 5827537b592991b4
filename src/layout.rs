//! Geometry of the padded cell buffer and the integer encoding of a filling.
//!
//! A board of `n` rows keeps its cells in a buffer of `n + 1` rows of width
//! `2n + 1`. Row `r` holds `2r + 1` playable cells, centred; every other slot is
//! outside the board. Cells are numbered from the apex, row by row, left to
//! right; bit `i` of a seed tells whether cell `i` holds a peg.
use vstd::prelude::*;
use vstd::arithmetic::power2::{
    pow2,
    lemma_pow2_unfold,
    lemma_pow2_pos,
    lemma_pow2_adds,
    lemma_pow2_strictly_increases,
    lemma2_to64,
};
use vstd::arithmetic::div_mod::{
    lemma_mod_breakdown,
    lemma_fundamental_div_mod,
    lemma_fundamental_div_mod_converse,
    lemma_mod_multiples_vanish,
    lemma_small_mod,
};

verus! {

/// Largest number of rows whose fillings fit in a `u128` seed.
pub const MAX_LINES: usize = 11;

/// Width of one row of the padded buffer.
pub open spec fn row_width(n: int) -> int {
    2 * n + 1
}

/// Number of slots in the padded buffer.
pub open spec fn buffer_len(n: int) -> int {
    (n + 1) * (2 * n + 1)
}

/// Buffer slot of column `c` of row `r`.
pub open spec fn slot_of(n: int, r: int, c: int) -> int {
    r * row_width(n) + (n - r) + c
}

/// Buffer slot of the cell found `i` cells after the start of row `r`.
pub open spec fn slot_from(n: int, i: nat, r: nat) -> int
    decreases i,
{
    if i <= 2 * r {
        slot_of(n, r as int, i as int)
    } else {
        slot_from(n, (i - (2 * r + 1)) as nat, r + 1)
    }
}

/// Buffer slot of the playable cell with index `i`.
pub open spec fn slot(n: int, i: int) -> int {
    slot_from(n, i as nat, 0)
}

/// Whether buffer slot `k` holds a playable cell.
pub open spec fn is_slot(n: int, k: int) -> bool {
    exists|i: int| 0 <= i < n * n && #[trigger] slot(n, i) == k
}

/// The value of a filling: bit `i` is set iff cell `i` holds a peg.
pub open spec fn seed_value(s: Seq<bool>) -> nat
    decreases s.len(),
{
    if s.len() == 0 {
        0
    } else {
        seed_value(s.drop_last()) + if s.last() {
            pow2((s.len() - 1) as nat)
        } else {
            0
        }
    }
}

/// Bit `i` of `v`.
pub open spec fn bit(v: nat, i: nat) -> bool {
    (v / pow2(i)) % 2 == 1
}

/// The filling of `n` cells that a seed stands for.
pub open spec fn bits_of(v: nat, n: nat) -> Seq<bool> {
    Seq::new(n, |i: int| bit(v, i as nat))
}

/// Number of pegs in a filling.
pub open spec fn peg_count(s: Seq<bool>) -> nat
    decreases s.len(),
{
    if s.len() == 0 {
        0
    } else {
        peg_count(s.drop_last()) + if s.last() {
            1nat
        } else {
            0nat
        }
    }
}

pub proof fn lemma_slot_from_in_buffer(n: int, i: nat, r: nat)
    requires
        n >= 0,
        r * r + i < n * n,
    ensures
        0 <= slot_from(n, i, r) < buffer_len(n),
    decreases i,
{
    if i <= 2 * r {
        if r >= n {
            assert(r * r >= n * n) by (nonlinear_arith)
                requires
                    r >= n,
                    n >= 0,
            ;
        }
        assert(0 <= r * (2 * n + 1) + (n - r) + i < (n + 1) * (2 * n + 1)) by (nonlinear_arith)
            requires
                r < n,
                0 <= i <= 2 * r,
                r >= 0,
        ;
    } else {
        assert((r + 1) * (r + 1) + (i - (2 * r + 1)) == r * r + i) by (nonlinear_arith);
        lemma_slot_from_in_buffer(n, (i - (2 * r + 1)) as nat, r + 1);
    }
}

/// Every playable cell lies inside the buffer.
pub proof fn lemma_slot_in_buffer(n: int, i: int)
    requires
        n >= 0,
        0 <= i < n * n,
    ensures
        0 <= slot(n, i) < buffer_len(n),
{
    lemma_slot_from_in_buffer(n, i as nat, 0);
}

proof fn lemma_slot_from_step(n: int, i: nat, r: nat)
    requires
        n >= 0,
        r * r + i + 1 < n * n,
    ensures
        slot_from(n, i, r) < slot_from(n, i + 1, r),
    decreases i,
{
    if i + 1 <= 2 * r {
    } else if i == 2 * r {
        assert((r + 1) * (r + 1) == r * r + i + 1) by (nonlinear_arith)
            requires
                i == 2 * r,
        ;
        if r + 1 >= n {
            assert((r + 1) * (r + 1) >= n * n) by (nonlinear_arith)
                requires
                    r + 1 >= n,
                    n >= 0,
            ;
        }
        assert(slot_from(n, i + 1, r) == slot_from(n, 0, r + 1));
        assert(r * (2 * n + 1) + (n - r) + 2 * r < (r + 1) * (2 * n + 1) + (n - (r + 1))) by (
        nonlinear_arith)
            requires
                r + 1 < n,
        ;
    } else {
        assert((r + 1) * (r + 1) + (i - (2 * r + 1)) == r * r + i) by (nonlinear_arith);
        lemma_slot_from_step(n, (i - (2 * r + 1)) as nat, r + 1);
        assert(slot_from(n, i + 1, r) == slot_from(n, ((i + 1) - (2 * r + 1)) as nat, r + 1));
    }
}

/// Slots grow with the cell index, so distinct cells have distinct slots.
pub proof fn lemma_slot_increasing(n: int, i: int, j: int)
    requires
        n >= 0,
        0 <= i < j < n * n,
    ensures
        slot(n, i) < slot(n, j),
    decreases j - i,
{
    lemma_slot_from_step(n, i as nat, 0);
    if i + 1 < j {
        lemma_slot_increasing(n, i + 1, j);
    }
}

proof fn lemma_slot_from_row(n: int, k: nat, r: nat, c: nat)
    requires
        k <= r,
        c <= 2 * r,
    ensures
        slot_from(n, (r * r - k * k + c) as nat, k) == slot_of(n, r as int, c as int),
    decreases r - k,
{
    assert(k * k <= r * r) by (nonlinear_arith)
        requires
            k <= r,
    ;
    if k < r {
        assert(r * r - k * k + c > 2 * k) by (nonlinear_arith)
            requires
                k < r,
        ;
        assert(r * r - k * k + c - (2 * k + 1) == r * r - (k + 1) * (k + 1) + c) by (
        nonlinear_arith);
        lemma_slot_from_row(n, k + 1, r, c);
    }
}

/// Cell `r * r + c` is column `c` of row `r`.
pub proof fn lemma_slot_row(n: int, r: nat, c: nat)
    requires
        c <= 2 * r,
    ensures
        slot(n, (r * r + c) as int) == slot_of(n, r as int, c as int),
{
    lemma_slot_from_row(n, 0, r, c);
}

/// `2^(n*n)` and everything below it fits in a `u128` for a board of at most `MAX_LINES` rows.
pub proof fn lemma_pow2_fits(e: nat)
    requires
        e <= 126,
    ensures
        pow2(e) * 2 <= u128::MAX,
        pow2(e + 1) == pow2(e) * 2,
{
    lemma2_to64();
    lemma_pow2_adds(64, 64);
    lemma_pow2_strictly_increases(e + 1, 128);
    lemma_pow2_unfold(e + 1);
}

/// A filling of `len` cells has a value below `2^len`.
pub proof fn lemma_seed_value_bound(s: Seq<bool>)
    ensures
        seed_value(s) < pow2(s.len()),
    decreases s.len(),
{
    lemma_pow2_pos(s.len());
    if s.len() > 0 {
        lemma_seed_value_bound(s.drop_last());
        lemma_pow2_unfold(s.len());
    }
}

/// Reading `n` bits of a value and encoding them again keeps the value modulo `2^n`.
pub proof fn lemma_seed_of_bits(v: nat, n: nat)
    ensures
        seed_value(bits_of(v, n)) == v % pow2(n),
    decreases n,
{
    lemma_pow2_pos(n);
    if n == 0 {
        lemma2_to64();
        assert(v % 1 == 0);
    } else {
        let m = (n - 1) as nat;
        assert(bits_of(v, n).drop_last() =~= bits_of(v, m));
        lemma_seed_of_bits(v, m);
        lemma_pow2_unfold(n);
        lemma_pow2_pos(m);
        lemma_mod_breakdown(v as int, pow2(m) as int, 2);
        assert(pow2(m) * 2 == pow2(n));
        let q = (v / pow2(m)) % 2;
        assert(bits_of(v, n).last() == bit(v, m));
        assert(seed_value(bits_of(v, n)) == v % pow2(m) + if bit(v, m) {
            pow2(m)
        } else {
            0
        });
        if q == 0 {
            assert(pow2(m) * q == 0);
        } else {
            assert(q == 1);
            assert(pow2(m) * q == pow2(m));
        }
    }
}

/// Bit `i` of the value of a filling is its cell `i`.
pub proof fn lemma_bit_of_seed(s: Seq<bool>, i: int)
    requires
        0 <= i < s.len(),
    ensures
        bit(seed_value(s), i as nat) == s[i],
    decreases s.len(),
{
    let l = (s.len() - 1) as nat;
    let a = seed_value(s.drop_last());
    let b: nat = if s.last() {
        1
    } else {
        0
    };
    lemma_seed_value_bound(s.drop_last());
    lemma_pow2_pos(l);
    assert(seed_value(s) == a + b * pow2(l));
    if i == l {
        lemma_fundamental_div_mod_converse(seed_value(s) as int, pow2(l) as int, b as int, a as int);
        assert(seed_value(s) / pow2(l) == b);
    } else {
        lemma_bit_of_seed(s.drop_last(), i);
        let d = pow2(i as nat);
        let e = (l - i - 1) as nat;
        lemma_pow2_pos(i as nat);
        lemma_pow2_adds(i as nat, (e + 1) as nat);
        lemma_pow2_unfold(e + 1);
        assert(i as nat + (e + 1) == l);
        let q = a / d + b * 2 * pow2(e);
        lemma_fundamental_div_mod(a as int, d as int);
        assert(seed_value(s) == q * d + a % d) by (nonlinear_arith)
            requires
                seed_value(s) == a + b * pow2(l),
                pow2(l) == d * pow2(e + 1),
                pow2(e + 1) == 2 * pow2(e),
                q == a / d + b * 2 * pow2(e),
                a == d * (a / d) + a % d,
        ;
        lemma_fundamental_div_mod_converse(seed_value(s) as int, d as int, q as int, (a % d) as int);
        lemma_mod_multiples_vanish((b * pow2(e)) as int, (a / d) as int, 2);
        assert(q == 2 * (b * pow2(e)) + a / d) by (nonlinear_arith)
            requires
                q == a / d + b * 2 * pow2(e),
        ;
    }
}

/// A filling is read back unchanged from its value.
pub proof fn lemma_bits_of_seed(s: Seq<bool>)
    ensures
        bits_of(seed_value(s), s.len()) == s,
{
    assert forall|i: int| 0 <= i < s.len() implies bits_of(seed_value(s), s.len())[i] == s[i] by {
        lemma_bit_of_seed(s, i);
    }
    assert(bits_of(seed_value(s), s.len()) =~= s);
}

/// Every value below `2^n` is the value of the filling it stands for.
pub proof fn lemma_seed_round_trip(v: nat, n: nat)
    requires
        v < pow2(n),
    ensures
        seed_value(bits_of(v, n)) == v,
{
    lemma_seed_of_bits(v, n);
    lemma_pow2_pos(n);
    lemma_small_mod(v, pow2(n));
}

/// Changing one cell changes the peg count by what was removed and what was put.
pub proof fn lemma_peg_count_update(s: Seq<bool>, i: int, b: bool)
    requires
        0 <= i < s.len(),
    ensures
        peg_count(s.update(i, b)) + (if s[i] {
            1int
        } else {
            0int
        }) == peg_count(s) + (if b {
            1int
        } else {
            0int
        }),
    decreases s.len(),
{
    let t = s.update(i, b);
    if i == s.len() - 1 {
        assert(t.drop_last() =~= s.drop_last());
    } else {
        assert(t.drop_last() =~= s.drop_last().update(i, b));
        lemma_peg_count_update(s.drop_last(), i, b);
    }
}

/// A filling with a peg has a positive value.
pub proof fn lemma_seed_positive(s: Seq<bool>)
    requires
        exists|i: int| 0 <= i < s.len() && s[i],
    ensures
        seed_value(s) >= 1,
    decreases s.len(),
{
    let i = choose|i: int| 0 <= i < s.len() && s[i];
    if s.last() {
        lemma_pow2_pos((s.len() - 1) as nat);
    } else {
        assert(s.drop_last()[i] == s[i]);
        lemma_seed_positive(s.drop_last());
    }
}

/// A filling with a peg has a positive peg count.
pub proof fn lemma_peg_count_positive(s: Seq<bool>, i: int)
    requires
        0 <= i < s.len(),
        s[i],
    ensures
        peg_count(s) >= 1,
    decreases s.len(),
{
    if !s.last() {
        assert(s.drop_last()[i] == s[i]);
        lemma_peg_count_positive(s.drop_last(), i);
    }
}

/// Value of the all-pegs filling.
pub proof fn lemma_seed_all_pegs(n: nat)
    ensures
        seed_value(Seq::new(n, |i: int| true)) + 1 == pow2(n),
        peg_count(Seq::new(n, |i: int| true)) == n,
    decreases n,
{
    lemma_pow2_pos(n);
    lemma2_to64();
    if n > 0 {
        let m = (n - 1) as nat;
        let full = Seq::new(n, |i: int| true);
        assert(full.drop_last() =~= Seq::new(m, |i: int| true));
        assert(full.last());
        lemma_seed_all_pegs(m);
        lemma_pow2_unfold(n);
        assert(seed_value(full) == seed_value(full.drop_last()) + pow2(m));
    }
}

} // verus!
