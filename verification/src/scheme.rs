//! The superblock scheme.
//!
//! Data blocks are grouped into conceptual superblocks: superblock `k` holds
//! `2^(k/2)` data blocks, each with room for `2^((k+1)/2)` elements (integer
//! division throughout).  Nothing here depends on the container itself; these
//! functions describe the shape that the growth engine maintains, and
//! [`locate`] is the closed-form addressing function over that shape.

use vstd::prelude::*;

verus! {

use vstd::arithmetic::power2::{
    pow2, lemma_pow2_adds, lemma_pow2_pos, lemma_pow2_strictly_increases, lemma_pow2_unfold,
};

/// Number of data blocks that superblock `k` holds when it is full.
pub open spec fn sb_block_count(k: nat) -> nat {
    pow2(k / 2)
}

/// Capacity of every data block inside superblock `k`.
pub open spec fn sb_block_cap(k: nat) -> nat {
    pow2((k + 1) / 2)
}

/// Number of data blocks held by all superblocks before superblock `k`.
pub open spec fn blocks_before(k: nat) -> nat
    decreases k,
{
    if k == 0 {
        0
    } else {
        blocks_before((k - 1) as nat) + sb_block_count((k - 1) as nat)
    }
}

/// The superblock that data block `j` belongs to.
pub open spec fn sb_of(j: nat) -> nat {
    choose|k: nat| #![trigger blocks_before(k)] blocks_before(k) <= j < blocks_before(k + 1)
}

/// Capacity of data block `j`.
pub open spec fn block_cap(j: nat) -> nat {
    sb_block_cap(sb_of(j))
}

/// Number of element slots in all data blocks before block `j`.
pub open spec fn elems_before(j: nat) -> nat
    decreases j,
{
    if j == 0 {
        0
    } else {
        elems_before((j - 1) as nat) + block_cap((j - 1) as nat)
    }
}

/// The smallest instances of the scheme, spelled out.
pub proof fn lemma_scheme_base()
    ensures
        blocks_before(0) == 0,
        blocks_before(1) == 1,
        sb_block_count(0) == 1,
        sb_block_cap(0) == 1,
        elems_before(0) == 0,
    decreases 0nat,
{
    lemma_pow2_pos(0);
    assert(pow2(0) == 1) by {
        vstd::arithmetic::power2::lemma2_to64();
    }
    assert(blocks_before(1) == blocks_before(0) + sb_block_count(0));
}

pub proof fn lemma_blocks_before_mono(k1: nat, k2: nat)
    requires
        k1 <= k2,
    ensures
        blocks_before(k1) <= blocks_before(k2),
    decreases k2 - k1,
{
    if k1 < k2 {
        lemma_blocks_before_mono(k1, (k2 - 1) as nat);
        lemma_pow2_pos(((k2 - 1) as nat) / 2);
    }
}

pub proof fn lemma_blocks_before_strict(k: nat)
    ensures
        blocks_before(k) < blocks_before(k + 1),
{
    lemma_pow2_pos(k / 2);
}

/// Every data block index falls inside the superblock that `sb_of` picks.
pub proof fn lemma_sb_of(j: nat)
    ensures
        blocks_before(sb_of(j)) <= j < blocks_before(sb_of(j) + 1),
    decreases j,
{
    if j == 0 {
        lemma_scheme_base();
        assert(blocks_before(0nat) <= 0 < blocks_before(0nat + 1));
    } else {
        lemma_sb_of((j - 1) as nat);
        let k0 = sb_of((j - 1) as nat);
        if j < blocks_before(k0 + 1) {
            assert(blocks_before(k0) <= j < blocks_before(k0 + 1));
        } else {
            lemma_blocks_before_strict(k0 + 1);
            assert(blocks_before(k0 + 1) <= j < blocks_before(k0 + 1 + 1));
        }
    }
}

/// The containing superblock is unique.
pub proof fn lemma_sb_of_is(j: nat, k: nat)
    requires
        blocks_before(k) <= j < blocks_before(k + 1),
    ensures
        sb_of(j) == k,
{
    lemma_sb_of(j);
    let k2 = sb_of(j);
    if k2 < k {
        lemma_blocks_before_mono(k2 + 1, k);
    }
    if k < k2 {
        lemma_blocks_before_mono(k + 1, k2);
    }
}

pub proof fn lemma_block_cap_pos(j: nat)
    ensures
        block_cap(j) >= 1,
{
    lemma_pow2_pos((sb_of(j) + 1) / 2);
}

pub proof fn lemma_elems_before_mono(j1: nat, j2: nat)
    requires
        j1 <= j2,
    ensures
        elems_before(j1) <= elems_before(j2),
    decreases j2 - j1,
{
    if j1 < j2 {
        lemma_elems_before_mono(j1, (j2 - 1) as nat);
    }
}

/// Each block holds at least one slot, so `elems_before` grows at least as
/// fast as the block index.
pub proof fn lemma_elems_before_ge(j: nat)
    ensures
        elems_before(j) >= j,
    decreases j,
{
    if j > 0 {
        lemma_elems_before_ge((j - 1) as nat);
        lemma_block_cap_pos((j - 1) as nat);
    }
}

/// Inside one superblock the slot prefix sums are linear in the block index.
pub proof fn lemma_elems_in_sb(k: nat, j: nat)
    requires
        blocks_before(k) <= j <= blocks_before(k + 1),
    ensures
        elems_before(j) == elems_before(blocks_before(k)) + (j - blocks_before(k)) * sb_block_cap(
            k,
        ),
    decreases j - blocks_before(k),
{
    if j == blocks_before(k) {
    } else {
        lemma_elems_in_sb(k, (j - 1) as nat);
        lemma_sb_of_is((j - 1) as nat, k);
        assert(block_cap((j - 1) as nat) == sb_block_cap(k));
        assert((j - 1 - blocks_before(k)) * sb_block_cap(k) + sb_block_cap(k) == (j
            - blocks_before(k)) * sb_block_cap(k)) by (nonlinear_arith);
    }
}

/// Splitting `k` at the middle: the counts and capacities multiply back to
/// `2^k` slots per superblock.
proof fn lemma_halves_add(k: nat)
    ensures
        k / 2 + (k + 1) / 2 == k,
{
}

/// At each superblock boundary the scheme has room for exactly `2^k - 1`
/// elements in front of it.
pub proof fn lemma_elems_at_boundary(k: nat)
    ensures
        elems_before(blocks_before(k)) == pow2(k) - 1,
    decreases k,
{
    lemma_pow2_pos(k);
    if k == 0 {
        lemma_scheme_base();
    } else {
        let km = (k - 1) as nat;
        lemma_elems_at_boundary(km);
        lemma_blocks_before_strict(km);
        assert(blocks_before(k) == blocks_before(km) + sb_block_count(km));
        lemma_elems_in_sb(km, blocks_before(k));
        assert(elems_before(blocks_before(k)) == elems_before(blocks_before(km))
            + sb_block_count(km) * sb_block_cap(km));
        assert(sb_block_count(km) * sb_block_cap(km) == pow2(km)) by {
            lemma_halves_add(km);
            lemma_pow2_adds(km / 2, (km + 1) / 2);
        }
        lemma_pow2_unfold(k);
        lemma_pow2_pos(km);
        assert(elems_before(blocks_before(k)) == (pow2(km) - 1) + pow2(km));
        assert(pow2(k) == 2 * pow2(km));
    }
}

/// Closed form of `blocks_before`, the way the addressing function computes
/// it from the capacity alone.
pub proof fn lemma_blocks_before_closed(k: nat)
    ensures
        k % 2 == 0 ==> blocks_before(k) == 2 * sb_block_cap(k) - 2,
        k % 2 == 1 ==> blocks_before(k) == 3 * sb_block_count(k) - 2,
    decreases k,
{
    lemma_scheme_base();
    if k > 0 {
        let km = (k - 1) as nat;
        lemma_blocks_before_closed(km);
        assert(blocks_before(k) == blocks_before(km) + sb_block_count(km));
        if k % 2 == 0 {
            // `k - 1` is odd, its count is half this superblock's capacity
            assert(km % 2 == 1);
            assert(km / 2 + 1 == (k + 1) / 2);
            lemma_pow2_unfold((k + 1) / 2);
            assert(blocks_before(k) == 3 * sb_block_count(km) - 2 + sb_block_count(km));
            assert(sb_block_cap(k) == 2 * sb_block_count(km));
        } else {
            // `k - 1` is even, capacity and count agree there
            assert(km % 2 == 0);
            assert(sb_block_cap(km) == sb_block_count(km));
            assert(sb_block_count(k) == sb_block_count(km));
        }
    }
}

/// How block count and block capacity change from one superblock to the
/// next: exactly one of the two doubles, by the parity of the new index.
pub proof fn lemma_sb_step(k: nat)
    ensures
        (k + 1) % 2 == 0 ==> sb_block_count(k + 1) == 2 * sb_block_count(k) && sb_block_cap(k + 1)
            == sb_block_cap(k),
        (k + 1) % 2 == 1 ==> sb_block_count(k + 1) == sb_block_count(k) && sb_block_cap(k + 1) == 2
            * sb_block_cap(k),
{
    if (k + 1) % 2 == 0 {
        assert((k + 1) / 2 == k / 2 + 1);
        assert((k + 2) / 2 == (k + 1) / 2);
        lemma_pow2_unfold((k + 1) / 2);
    } else {
        assert((k + 1) / 2 == k / 2);
        assert((k + 2) / 2 == (k + 1) / 2 + 1);
        lemma_pow2_unfold((k + 2) / 2);
    }
}

/// Stepping back over one data block: which superblock the previous block
/// belongs to, and how the counters relate across a superblock boundary.
pub proof fn lemma_sb_of_pred(d: int)
    requires
        d >= 2,
        blocks_before(sb_of((d - 1) as nat)) <= d - 1 < blocks_before(sb_of((d - 1) as nat) + 1),
    ensures
        ({
            let k = sb_of((d - 1) as nat);
            let k2 = sb_of((d - 2) as nat);
            &&& (d - 1 == blocks_before(k) ==> {
                &&& k >= 1
                &&& k2 == k - 1
                &&& blocks_before(k) - blocks_before(k2) == sb_block_count(k2)
                &&& (k % 2 == 0 ==> sb_block_count(k) == 2 * sb_block_count(k2) && sb_block_cap(k)
                    == sb_block_cap(k2))
                &&& (k % 2 == 1 ==> sb_block_count(k) == sb_block_count(k2) && sb_block_cap(k) == 2
                    * sb_block_cap(k2))
            })
            &&& (d - 1 > blocks_before(k) ==> k2 == k)
        }),
{
    let k = sb_of((d - 1) as nat);
    if d - 1 == blocks_before(k) {
        if k == 0 {
            assert(blocks_before(0nat) == 0);
            assert(false);
        }
        let k2 = (k - 1) as nat;
        lemma_blocks_before_strict(k2);
        lemma_sb_of_is((d - 2) as nat, k2);
        lemma_sb_step(k2);
    } else {
        lemma_sb_of_is((d - 2) as nat, k);
    }
}

/// A located pair that lands on a block boundary is the boundary itself:
/// block `t`, offset zero.
pub proof fn lemma_locate_boundary(a: nat, e: nat, t: nat)
    requires
        elems_before(a) + e == elems_before(t),
        e < block_cap(a),
    ensures
        a == t,
        e == 0,
{
    if a < t {
        lemma_elems_before_mono(a + 1, t);
        assert(elems_before(a + 1) == elems_before(a) + block_cap(a));
        assert(false);
    }
    if a > t {
        lemma_elems_before_mono(t + 1, a);
        assert(elems_before(t + 1) == elems_before(t) + block_cap(t));
        lemma_block_cap_pos(t);
        assert(false);
    }
}

/// The arithmetic core of the addressing function: splitting the offset of
/// `m` inside superblock `k` by the block capacity yields the block and the
/// slot, and the blocks in front of superblock `k` have the closed form
/// that the addressing function computes.
proof fn lemma_locate_math(k: nat, m: nat, b: nat, e: nat)
    requires
        pow2(k) <= m < 2 * pow2(k),
        b == ((m - pow2(k)) as nat) / sb_block_cap(k),
        e == ((m - pow2(k)) as nat) % sb_block_cap(k),
    ensures
        b < sb_block_count(k),
        e < sb_block_cap(k),
        elems_before(blocks_before(k) + b) + e == m - 1,
        block_cap(blocks_before(k) + b) == sb_block_cap(k),
        blocks_before(k) + b <= m - 1,
        sb_block_cap(k) >= 1,
        k % 2 == 0 ==> blocks_before(k) == 2 * (sb_block_cap(k) - 1),
        k % 2 == 1 ==> blocks_before(k) == 2 * (sb_block_cap(k) - 1) - sb_block_cap(k) / 2,
        k % 2 == 1 ==> sb_block_cap(k) / 2 <= sb_block_cap(k) - 1,
        2 * (sb_block_cap(k) - 1) <= m,
{
    let cap = sb_block_cap(k);
    let cnt = sb_block_count(k);
    let off = (m - pow2(k)) as nat;
    lemma_pow2_pos((k + 1) / 2);
    lemma_pow2_pos(k / 2);
    lemma_pow2_pos(k);
    lemma_halves_add(k);
    lemma_pow2_adds(k / 2, (k + 1) / 2);
    assert(cnt * cap == pow2(k));
    assert(off < cnt * cap);
    assert(cnt * cap == cap * cnt) by (nonlinear_arith);
    vstd::arithmetic::div_mod::lemma_multiply_divide_lt(off as int, cap as int, cnt as int);
    vstd::arithmetic::div_mod::lemma_fundamental_div_mod(off as int, cap as int);
    vstd::arithmetic::div_mod::lemma_mod_division_less_than_divisor(off as int, cap as int);
    assert(b < cnt);
    assert(e < cap);
    let a = blocks_before(k) + b;
    lemma_blocks_before_strict(k);
    lemma_sb_of_is(a, k);
    lemma_elems_at_boundary(k);
    lemma_elems_in_sb(k, a);
    assert((a - blocks_before(k)) * cap == b * cap);
    vstd::arithmetic::mul::lemma_mul_is_commutative(b as int, cap as int);
    assert(b * cap + e == off);
    assert(elems_before(a) + e == pow2(k) - 1 + off);
    lemma_elems_before_ge(a);
    lemma_blocks_before_closed(k);
    if k % 2 == 1 {
        assert((k + 1) / 2 == k / 2 + 1);
        lemma_pow2_unfold((k + 1) / 2);
        assert(cap == 2 * cnt);
        assert(cap / 2 == cnt);
        assert(blocks_before(k) == 3 * cnt - 2);
        assert(2 * (cap - 1) - cap / 2 == 3 * cnt - 2);
    }
    if k >= 2 {
        if (k + 1) / 2 < (k - 1) as nat {
            lemma_pow2_strictly_increases((k + 1) / 2, (k - 1) as nat);
        }
        lemma_pow2_unfold(k);
        assert(2 * cap <= pow2(k));
    } else {
        lemma_scheme_base();
        if k == 1 {
            lemma_pow2_unfold(1);
            assert(cap == 2);
        }
    }
}

/// The addressing function: the data block holding the element with logical
/// index `index`, and the offset of that element inside the block.
///
/// The result is the unique pair with `elems_before(block) + offset == index`
/// and `offset < block_cap(block)`; it is a property of the scheme alone and
/// is valid for the container whenever `index` is below the length.
#[verifier::rlimit(100)]
pub fn locate(index: usize) -> (r: (usize, usize))
    requires
        index < usize::MAX,
    ensures
        elems_before(r.0 as nat) + r.1 as nat == index as nat,
        (r.1 as nat) < block_cap(r.0 as nat),
{
    let m: usize = index + 1;
    // `k`, the superblock: highest power of two at or below `m`
    let mut k: usize = 0;
    let mut pow_k: usize = 1;
    proof {
        vstd::arithmetic::power2::lemma2_to64();
    }
    while pow_k <= m / 2
        invariant
            m >= 1,
            pow_k == pow2(k as nat),
            pow_k <= m,
            k < pow_k,
        decreases m - pow_k,
    {
        proof {
            lemma_pow2_unfold((k + 1) as nat);
            vstd::arithmetic::div_mod::lemma_fundamental_div_mod(m as int, 2);
        }
        k = k + 1;
        pow_k = pow_k * 2;
    }
    proof {
        vstd::arithmetic::div_mod::lemma_fundamental_div_mod(m as int, 2);
        vstd::arithmetic::div_mod::lemma_mod_division_less_than_divisor(m as int, 2);
        assert(m < 2 * pow_k);
    }
    // `pow_l`, the capacity of the data blocks of superblock `k`
    let l: usize = (k + 1) / 2;
    let mut pow_l: usize = 1;
    let mut i: usize = 0;
    while i < l
        invariant
            pow_l == pow2(i as nat),
            i <= l,
            l == (k + 1) / 2,
            pow_k == pow2(k as nat),
            pow_k <= m,
        decreases l - i,
    {
        proof {
            lemma_pow2_unfold((i + 1) as nat);
            if i + 1 < k as nat {
                lemma_pow2_strictly_increases((i + 1) as nat, k as nat);
            }
            assert(l <= k || k == 0);
            assert(i + 1 <= k);
        }
        i = i + 1;
        pow_l = pow_l * 2;
    }
    // offset of `m` inside superblock `k`, split into block and slot
    let off: usize = m - pow_k;
    proof {
        lemma_pow2_pos(l as nat);
        assert(pow_l == sb_block_cap(k as nat));
    }
    let b: usize = off / pow_l;
    let e: usize = off % pow_l;
    proof {
        lemma_locate_math(k as nat, m as nat, b as nat, e as nat);
    }
    let adj: usize = if k % 2 == 1 {
        pow_l / 2
    } else {
        0
    };
    let p: usize = 2 * (pow_l - 1) - adj;
    proof {
        assert(p == blocks_before(k as nat));
    }
    (p + b, e)
}

} // verus!
