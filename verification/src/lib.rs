//! A growable, randomly indexable sequence container with `O(sqrt n)` memory
//! overhead, after the resizable-array scheme of Brodnik, Carlsson, Demaine,
//! Munro and Sedgewick: elements live in a list of data blocks whose
//! capacities double every other superblock, so that the wasted space stays
//! proportional to the square root of the length instead of the length.

mod flat;
mod scheme;

use vstd::prelude::*;

verus! {

use vstd::arithmetic::power2::{
    pow2, lemma_pow2_adds, lemma_pow2_strictly_increases, lemma_pow2_unfold,
};

/// A growable array whose elements live in data blocks of doubling
/// capacities, so that at most `O(sqrt n)` slots are ever allocated beyond
/// the `n` elements stored.
///
/// Indexed access costs `O(1)`, `push` and `pop` cost amortized `O(1)`, and
/// positional `insert` and `remove` cost `O(sqrt n)`.
#[derive(Debug, Clone)]
pub struct SuccinctVec<T> {
    // the data blocks, in storage order
    data_blocks: Vec<Vec<T>>,
    // number of elements
    len: usize,
    // true iff an odd number of superblocks are open
    s_odd: bool,
    // data blocks in the last superblock
    len_last_super: usize,
    // data blocks the last superblock may hold
    cap_last_super: usize,
    // capacity of the data blocks of the last superblock
    cap_data_block: usize,
    // one retained empty block, reused instead of freed
    empty_data_block: Option<Vec<T>>,
}

impl<T> View for SuccinctVec<T> {
    type V = Seq<T>;

    closed spec fn view(&self) -> Seq<T> {
        flat::flat(self.blocks_view())
    }
}

impl<T> SuccinctVec<T> {
    /// The abstract block list.
    pub closed spec fn blocks_view(&self) -> Seq<Seq<T>> {
        self.data_blocks@.map_values(|b: Vec<T>| b@)
    }

    /// The occupancy of each data block, in storage order.
    pub closed spec fn block_lens(&self) -> Seq<nat> {
        self.blocks_view().map_values(|b: Seq<T>| b.len())
    }

    /// Shape of the block list and bookkeeping counters: every block but the
    /// last is full, the counters describe the superblock of the last block,
    /// and the retained spare block (if any) is empty.  Says nothing about
    /// how many elements the last block holds.
    spec fn wf_blocks(&self) -> bool {
        let d = self.data_blocks@.len() as int;
        &&& (match self.empty_data_block {
            Some(b) => b@.len() == 0,
            None => true,
        })
        &&& if d == 0 {
            &&& self.len_last_super == 0
            &&& self.empty_data_block is Some
        } else {
            let k = scheme::sb_of((d - 1) as nat);
            &&& self.s_odd == (k % 2 == 0)
            &&& self.cap_last_super == scheme::sb_block_count(k)
            &&& self.cap_data_block == scheme::sb_block_cap(k)
            &&& self.len_last_super == d - scheme::blocks_before(k)
            &&& forall|j: int|
                0 <= j < d - 1 ==> (#[trigger] self.data_blocks@[j])@.len() == scheme::block_cap(
                    j as nat,
                )
            &&& self.data_blocks@[d - 1]@.len() <= scheme::block_cap((d - 1) as nat)
        }
    }

    /// The container's invariant: well-shaped blocks, a nonempty last block,
    /// and a length that equals the sum of the block occupancies.
    pub closed spec fn wf(&self) -> bool {
        let d = self.data_blocks@.len() as int;
        &&& self.wf_blocks()
        &&& if d == 0 {
            self.len == 0
        } else {
            &&& 1 <= self.data_blocks@[d - 1]@.len()
            &&& self.len == scheme::elems_before((d - 1) as nat) + self.data_blocks@[d - 1]@.len()
        }
    }

    /// Under `wf_blocks`, the slots in front of any block match the scheme.
    proof fn lemma_prefix_sums(&self, a: int)
        requires
            self.wf_blocks(),
            0 <= a < self.data_blocks@.len(),
        ensures
            flat::lens_before(self.blocks_view(), a) == scheme::elems_before(a as nat),
        decreases a,
    {
        if a > 0 {
            self.lemma_prefix_sums(a - 1);
        }
    }

    /// The abstract contents hold exactly `len` elements.
    proof fn lemma_view_len(&self)
        requires
            self.wf(),
        ensures
            self@.len() == self.len,
    {
        let bs = self.blocks_view();
        let d = bs.len() as int;
        flat::lemma_flat_len(bs);
        if d > 0 {
            self.lemma_prefix_sums(d - 1);
        }
    }

    /// A located slot below the length names a real slot, and names the
    /// element the view holds there.
    proof fn lemma_locate_valid(&self, a: int, e: int, i: int)
        requires
            self.wf(),
            0 <= a,
            0 <= e,
            scheme::elems_before(a as nat) + e == i,
            e < scheme::block_cap(a as nat),
            i < self.len,
        ensures
            a < self.data_blocks@.len(),
            e < self.data_blocks@[a]@.len(),
            flat::lens_before(self.blocks_view(), a) == scheme::elems_before(a as nat),
            i < self@.len(),
            self@[i] == self.data_blocks@[a]@[e],
    {
        let bs = self.blocks_view();
        let d = bs.len() as int;
        self.lemma_view_len();
        assert(d > 0);
        if a >= d {
            scheme::lemma_elems_before_mono(d as nat, a as nat);
            assert(scheme::elems_before(d as nat) == scheme::elems_before((d - 1) as nat)
                + scheme::block_cap((d - 1) as nat));
            assert(false);
        }
        self.lemma_prefix_sums(a);
        flat::lemma_flat_index(bs, a, e);
    }

    /// Makes room for one more element at the end: bumps the length and,
    /// when the last data block is full, opens the next block — reusing the
    /// spare block when one is held, allocating at the scheme's capacity
    /// otherwise — and updates the superblock counters.  The caller then
    /// writes the element into the last block.
    #[verifier::rlimit(100)]
    fn grow(&mut self)
        requires
            old(self).wf(),
            old(self).len < usize::MAX,
        ensures
            final(self).wf_blocks(),
            final(self).len == old(self).len + 1,
            final(self).data_blocks@.len() > 0,
            ({
                let s = *final(self);
                let d = s.data_blocks@.len() as int;
                &&& s.data_blocks@[d - 1]@.len() < scheme::block_cap((d - 1) as nat)
                &&& s.len == scheme::elems_before((d - 1) as nat) + s.data_blocks@[d - 1]@.len() + 1
            }),
            final(self).blocks_view() == old(self).blocks_view() || final(self).blocks_view()
                == old(self).blocks_view().push(Seq::<T>::empty()),
            final(self)@ == old(self)@,
    {
        proof {
            scheme::lemma_scheme_base();
        }
        self.len = self.len + 1;
        if self.data_blocks.len() == 0 {
            self.s_odd = true;
            self.len_last_super = 1;
            self.cap_last_super = 1;
            self.cap_data_block = 1;
            let b = self.empty_data_block.take().unwrap();
            self.data_blocks.push(b);
            proof {
                scheme::lemma_sb_of_is(0, 0);
                assert(self.blocks_view() =~~= old(self).blocks_view().push(Seq::<T>::empty()));
                flat::lemma_flat_push_block(old(self).blocks_view(), Seq::<T>::empty());
                assert(self@ =~= old(self)@);
            }
            return ;
        }
        let d = self.data_blocks.len();
        let ghost k = scheme::sb_of((d - 1) as nat);
        proof {
            scheme::lemma_sb_of((d - 1) as nat);
            scheme::lemma_block_cap_pos((d - 1) as nat);
        }
        let last_len = self.data_blocks[d - 1].len();
        if last_len == self.cap_data_block {
            proof {
                // the last block is full, so the length sits at a block boundary
                assert(old(self).len == scheme::elems_before(d as nat));
                scheme::lemma_elems_before_ge(d as nat);
                scheme::lemma_sb_step(k);
                scheme::lemma_blocks_before_strict(k + 1);
            }
            if self.len_last_super == self.cap_last_super {
                proof {
                    // the superblock is full too: `d` opens superblock `k + 1`
                    assert(d == scheme::blocks_before(k + 1));
                    scheme::lemma_elems_at_boundary(k + 1);
                    assert(self.len == pow2(k + 1));
                    // whichever parameter doubles stays within reach of the
                    // new length
                    if (k + 1) % 2 == 0 {
                        lemma_pow2_unfold((k + 1) / 2 + 1);
                        if k / 2 + 1 < k + 1 {
                            lemma_pow2_strictly_increases(k / 2 + 1, k + 1);
                        }
                    } else {
                        if (k + 1) / 2 + 1 < k + 1 {
                            lemma_pow2_strictly_increases((k + 1) / 2 + 1, k + 1);
                        }
                        lemma_pow2_unfold((k + 1) / 2 + 1);
                    }
                    scheme::lemma_sb_of_is(d as nat, k + 1);
                }
                self.s_odd = !self.s_odd;
                if self.s_odd {
                    self.cap_last_super = 2 * self.cap_last_super;
                } else {
                    self.cap_data_block = 2 * self.cap_data_block;
                }
                self.len_last_super = 0;
            } else {
                proof {
                    assert(d < scheme::blocks_before(k + 1));
                    scheme::lemma_sb_of_is(d as nat, k);
                }
            }
            self.len_last_super = self.len_last_super + 1;
            let nb: Vec<T> = match self.empty_data_block.take() {
                Some(b) => b,
                None => Vec::with_capacity(self.cap_data_block),
            };
            self.data_blocks.push(nb);
            proof {
                assert(self.blocks_view() =~~= old(self).blocks_view().push(Seq::<T>::empty()));
                flat::lemma_flat_push_block(old(self).blocks_view(), Seq::<T>::empty());
                assert(self@ =~= old(self)@);
                let dn = self.data_blocks@.len() as int;
                assert(self.data_blocks@[dn - 2]@.len() == scheme::block_cap((dn - 2) as nat));
                scheme::lemma_block_cap_pos((dn - 1) as nat);
            }
        } else {
            proof {
                assert(self.blocks_view() == old(self).blocks_view());
            }
        }
    }

    /// Appends an element to the back of the container.
    #[verifier::rlimit(100)]
    pub fn push(&mut self, value: T)
        requires
            old(self).wf(),
            old(self)@.len() < usize::MAX,
        ensures
            final(self).wf(),
            final(self)@ == old(self)@.push(value),
    {
        proof {
            old(self).lemma_view_len();
        }
        self.grow();
        let d = self.data_blocks.len();
        let ghost mid = *self;
        self.data_blocks[d - 1].push(value);
        proof {
            let bs = mid.blocks_view();
            let last = bs[d - 1];
            assert(self.blocks_view() =~= bs.update(d - 1, last.push(value)));
            assert(last.push(value) =~= last.insert(last.len() as int, value));
            flat::lemma_flat_insert_in_block(bs, d - 1, last.len() as int, value);
            mid.lemma_prefix_sums(d - 1);
            flat::lemma_flat_len(bs);
            assert(flat::lens_before(bs, d as int) == flat::lens_before(bs, d - 1) + last.len());
            assert(flat::flat(bs).insert(flat::flat(bs).len() as int, value) =~= flat::flat(
                bs,
            ).push(value));
            assert(self@ == old(self)@.push(value));
            // the new element fills the slot that `grow` made
            assert(forall|j: int|
                0 <= j < d - 1 ==> self.data_blocks@[j] == mid.data_blocks@[j]);
        }
    }

    /// Records the removal of one element from the end: decrements the
    /// length and, when the last data block has just been emptied, retires
    /// it as the new spare block (replacing any previous spare), rolling the
    /// superblock counters back across the boundary when that closes a
    /// superblock.
    /// Retires the (empty) last data block as the new spare, replacing any
    /// previous spare, and rolls the superblock counters back across the
    /// boundary when that closes a superblock.
    #[verifier::rlimit(100)]
    fn retire_last_block(&mut self)
        requires
            old(self).wf_blocks(),
            old(self).data_blocks@.len() > 0,
            old(self).data_blocks@[old(self).data_blocks@.len() - 1]@.len() == 0,
        ensures
            final(self).wf_blocks(),
            final(self).data_blocks@.len() == old(self).data_blocks@.len() - 1,
            final(self).blocks_view() == old(self).blocks_view().drop_last(),
            final(self).len == old(self).len,
            ({
                let s = *final(self);
                let d2 = s.data_blocks@.len() as int;
                d2 > 0 ==> s.data_blocks@[d2 - 1]@.len() == scheme::block_cap((d2 - 1) as nat)
            }),
            final(self)@ == old(self)@,
    {
        let d = self.data_blocks.len();
        let ghost k = scheme::sb_of((d - 1) as nat);
        proof {
            scheme::lemma_sb_of((d - 1) as nat);
            scheme::lemma_scheme_base();
            if d >= 2 {
                scheme::lemma_sb_of_pred(d as int);
                scheme::lemma_block_cap_pos((d - 2) as nat);
            } else {
                scheme::lemma_sb_of_is(0, 0);
            }
        }
        self.empty_data_block = self.data_blocks.pop();
        self.len_last_super = self.len_last_super - 1;
        if self.len_last_super == 0 {
            self.s_odd = !self.s_odd;
            if !self.s_odd {
                self.cap_last_super = self.cap_last_super / 2;
            } else {
                self.cap_data_block = self.cap_data_block / 2;
            }
            self.len_last_super = self.cap_last_super;
        }
        proof {
            assert(self.blocks_view() =~= old(self).blocks_view().drop_last());
            flat::lemma_flat_drop_empty_last(old(self).blocks_view());
            let d2 = d - 1;
            if d2 > 0 {
                let k2 = scheme::sb_of((d2 - 1) as nat);
                assert(forall|j: int|
                    0 <= j < d2 ==> self.data_blocks@[j] == old(self).data_blocks@[j]);
                assert(self.data_blocks@[d2 - 1]@.len() == scheme::block_cap((d2 - 1) as nat));
                assert(self.s_odd == (k2 % 2 == 0));
                assert(self.cap_last_super == scheme::sb_block_count(k2));
                assert(self.cap_data_block == scheme::sb_block_cap(k2));
                assert(self.len_last_super == d2 - scheme::blocks_before(k2));
            }
        }
    }

    /// Records the removal of one element from the end: decrements the
    /// length and, when the last data block has just been emptied, retires
    /// it as the new spare block.
    #[verifier::rlimit(100)]
    fn shrink(&mut self)
        requires
            old(self).wf_blocks(),
            old(self).data_blocks@.len() > 0,
            ({
                let s = *old(self);
                let d = s.data_blocks@.len() as int;
                s.len == scheme::elems_before((d - 1) as nat) + s.data_blocks@[d - 1]@.len() + 1
            }),
        ensures
            final(self).wf(),
            final(self).len == old(self).len - 1,
            final(self)@ == old(self)@,
    {
        let d = self.data_blocks.len();
        if self.data_blocks[d - 1].len() == 0 {
            self.retire_last_block();
            proof {
                let d2 = self.data_blocks@.len() as int;
                if d2 > 0 {
                    assert(scheme::elems_before((d - 1) as nat) == scheme::elems_before(
                        (d2 - 1) as nat,
                    ) + scheme::block_cap((d2 - 1) as nat));
                    scheme::lemma_block_cap_pos((d2 - 1) as nat);
                }
            }
        }
        self.len = self.len - 1;
    }

    /// Removes the last element from the container and returns it, or
    /// `None` if it is empty.
    pub fn pop(&mut self) -> (r: Option<T>)
        requires
            old(self).wf(),
        ensures
            final(self).wf(),
            old(self)@.len() == 0 ==> r is None && final(self)@ == old(self)@,
            old(self)@.len() > 0 ==> r == Some(old(self)@.last()) && final(self)@ == old(
                self,
            )@.drop_last(),
    {
        proof {
            old(self).lemma_view_len();
        }
        if self.len == 0 {
            return None;
        }
        let d = self.data_blocks.len();
        let ghost pre = *self;
        let r = self.data_blocks[d - 1].pop();
        proof {
            let bs = pre.blocks_view();
            let last = bs[d - 1];
            assert(self.blocks_view() =~~= bs.update(d - 1, last.remove(last.len() - 1)));
            flat::lemma_flat_remove_in_block(bs, d - 1, last.len() - 1);
            pre.lemma_prefix_sums(d - 1);
            flat::lemma_flat_len(bs);
            assert(flat::flat(bs).remove(flat::flat(bs).len() - 1) =~= flat::flat(
                bs,
            ).drop_last());
            flat::lemma_flat_index(bs, d - 1, last.len() - 1);
            assert(r == Some(old(self)@.last()));
        }
        self.shrink();
        r
    }

    /// Returns a reference to the element at `index`, or `None` when
    /// `index` is out of bounds.
    pub fn read(&self, index: usize) -> (r: Option<&T>)
        requires
            self.wf(),
        ensures
            index < self@.len() ==> (r matches Some(x) && *x == self@[index as int]),
            index >= self@.len() ==> r is None,
    {
        proof {
            self.lemma_view_len();
        }
        if index >= self.len {
            return None;
        }
        let (a, e) = scheme::locate(index);
        proof {
            self.lemma_locate_valid(a as int, e as int, index as int);
        }
        Some(&self.data_blocks[a][e])
    }

    /// Returns a reference to the last element, or `None` if the container
    /// is empty.
    pub fn last(&self) -> (r: Option<&T>)
        requires
            self.wf(),
        ensures
            self@.len() == 0 ==> r is None,
            self@.len() > 0 ==> (r matches Some(x) && *x == self@.last()),
    {
        proof {
            self.lemma_view_len();
        }
        if self.len == 0 {
            return None;
        }
        let d = self.data_blocks.len();
        let bl = self.data_blocks[d - 1].len();
        proof {
            let bs = self.blocks_view();
            flat::lemma_flat_index(bs, d - 1, bl - 1);
            self.lemma_prefix_sums(d - 1);
            flat::lemma_flat_len(bs);
        }
        Some(&self.data_blocks[d - 1][bl - 1])
    }

    /// Writes through the last slot: stores `value` there and returns the
    /// element previously held, or `None` (changing nothing) when the
    /// container is empty.  Stands in for a mutable borrow of the last
    /// element.
    pub fn last_mut(&mut self, value: T) -> (r: Option<T>)
        requires
            old(self).wf(),
        ensures
            final(self).wf(),
            old(self)@.len() == 0 ==> (r is None && final(self)@ == old(self)@),
            old(self)@.len() > 0 ==> (r == Some(old(self)@.last()) && final(self)@ == old(
                self,
            )@.update(old(self)@.len() - 1, value)),
    {
        proof {
            old(self).lemma_view_len();
        }
        if self.len == 0 {
            return None;
        }
        let idx = self.len - 1;
        Some(self.swap_replace(idx, value))
    }

    /// Replaces the element at `index` with `replacement` and returns the
    /// element previously held there.
    pub fn swap_replace(&mut self, index: usize, replacement: T) -> (r: T)
        requires
            old(self).wf(),
            index < old(self)@.len(),
        ensures
            final(self).wf(),
            r == old(self)@[index as int],
            final(self)@ == old(self)@.update(index as int, replacement),
    {
        proof {
            old(self).lemma_view_len();
        }
        let (a, e) = scheme::locate(index);
        proof {
            old(self).lemma_locate_valid(a as int, e as int, index as int);
        }
        let mut tmp = replacement;
        core::mem::swap(&mut self.data_blocks[a][e], &mut tmp);
        proof {
            let bs = old(self).blocks_view();
            flat::lemma_flat_set_in_block(bs, a as int, e as int, replacement);
            assert(self.blocks_view() =~= bs.update(
                a as int,
                bs[a as int].update(e as int, replacement),
            ));
            assert(forall|j: int|
                0 <= j < self.data_blocks@.len() ==> (#[trigger] self.data_blocks@[j])@.len()
                    == old(self).data_blocks@[j]@.len());
        }
        tmp
    }

    /// Moves the last element of block `j - 1` to the front of block `j`.
    /// The flattened contents stay the same; only the block boundary moves.
    #[verifier::rlimit(100)]
    fn move_one_up(&mut self, j: usize)
        requires
            1 <= j < old(self).data_blocks@.len(),
            old(self).data_blocks@[j - 1]@.len() >= 1,
        ensures
            final(self).data_blocks@.len() == old(self).data_blocks@.len(),
            final(self).data_blocks@[j - 1]@ == old(self).data_blocks@[j - 1]@.drop_last(),
            final(self).data_blocks@[j as int]@ == old(self).data_blocks@[j as int]@.insert(
                0,
                old(self).data_blocks@[j - 1]@.last(),
            ),
            forall|i: int|
                0 <= i < old(self).data_blocks@.len() && i != j - 1 && i != j
                    ==> final(self).data_blocks@[i] == old(self).data_blocks@[i],
            flat::flat(final(self).blocks_view()) == flat::flat(old(self).blocks_view()),
            final(self).len == old(self).len,
            final(self).s_odd == old(self).s_odd,
            final(self).len_last_super == old(self).len_last_super,
            final(self).cap_last_super == old(self).cap_last_super,
            final(self).cap_data_block == old(self).cap_data_block,
            final(self).empty_data_block == old(self).empty_data_block,
    {
        let moved = self.data_blocks[j - 1].pop().unwrap();
        self.data_blocks[j].insert(0, moved);
        proof {
            let bs = old(self).blocks_view();
            assert(self.blocks_view() =~~= bs.update(j - 1, bs[j - 1].drop_last()).update(
                j as int,
                bs[j as int].insert(0, bs[j - 1].last()),
            ));
            flat::lemma_flat_move_up(bs, j - 1);
        }
    }

    /// Cascades the free slot of the last block down to block `a`: walking
    /// backwards, every block after `a` takes its predecessor's last
    /// element as its new first element.  Contents are unchanged; block `a`
    /// ends one element short.
    #[verifier::rlimit(100)]
    fn shift_up(&mut self, a: usize)
        requires
            old(self).wf_blocks(),
            old(self).data_blocks@.len() > 0,
            a + 1 < old(self).data_blocks@.len(),
            ({
                let s = *old(self);
                let d = s.data_blocks@.len() as int;
                s.data_blocks@[d - 1]@.len() < scheme::block_cap((d - 1) as nat)
            }),
        ensures
            final(self).data_blocks@.len() == old(self).data_blocks@.len(),
            flat::flat(final(self).blocks_view()) == flat::flat(old(self).blocks_view()),
            forall|i: int| 0 <= i < a ==> final(self).data_blocks@[i] == old(self).data_blocks@[i],
            ({
                let s = *final(self);
                let d = s.data_blocks@.len() as int;
                &&& s.data_blocks@[a as int]@ == old(self).data_blocks@[a as int]@.drop_last()
                &&& (forall|i: int|
                    a < i < d - 1 ==> (#[trigger] s.data_blocks@[i])@.len() == old(
                        self,
                    ).data_blocks@[i]@.len())
                &&& s.data_blocks@[d - 1]@.len() == old(self).data_blocks@[d - 1]@.len() + 1
            }),
            final(self).len == old(self).len,
            final(self).s_odd == old(self).s_odd,
            final(self).len_last_super == old(self).len_last_super,
            final(self).cap_last_super == old(self).cap_last_super,
            final(self).cap_data_block == old(self).cap_data_block,
            final(self).empty_data_block == old(self).empty_data_block,
    {
        let dlen = self.data_blocks.len();
        let ghost g = *old(self);
        let mut j: usize = dlen;
        while j > a + 1
            invariant
                a + 1 <= j <= dlen,
                dlen == self.data_blocks@.len(),
                dlen == g.data_blocks@.len(),
                a + 1 < dlen,
                forall|i: int|
                    0 <= i < dlen - 1 ==> (#[trigger] g.data_blocks@[i])@.len()
                        == scheme::block_cap(i as nat),
                j == dlen ==> self.data_blocks@ == g.data_blocks@,
                forall|i: int| 0 <= i < j - 1 ==> self.data_blocks@[i] == g.data_blocks@[i],
                j < dlen ==> self.data_blocks@[j - 1]@ == g.data_blocks@[j - 1]@.drop_last(),
                forall|i: int|
                    j <= i < dlen - 1 ==> (#[trigger] self.data_blocks@[i])@.len()
                        == g.data_blocks@[i]@.len(),
                j < dlen ==> self.data_blocks@[dlen - 1]@.len() == g.data_blocks@[dlen
                    - 1]@.len() + 1,
                flat::flat(self.blocks_view()) == flat::flat(g.blocks_view()),
                self.len == g.len,
                self.s_odd == g.s_odd,
                self.len_last_super == g.len_last_super,
                self.cap_last_super == g.cap_last_super,
                self.cap_data_block == g.cap_data_block,
                self.empty_data_block == g.empty_data_block,
            decreases j,
        {
            j = j - 1;
            proof {
                // the donor block is full and untouched, so it is nonempty
                assert(self.data_blocks@[j - 1] == g.data_blocks@[j - 1]);
                assert(g.data_blocks@[j - 1]@.len() == scheme::block_cap((j - 1) as nat));
                scheme::lemma_block_cap_pos((j - 1) as nat);
            }
            let ghost pre = *self;
            self.move_one_up(j);
            proof {
                assert(self.data_blocks@[j as int]@.len() == pre.data_blocks@[j as int]@.len()
                    + 1);
                if j < dlen - 1 {
                    scheme::lemma_block_cap_pos(j as nat);
                    assert(g.data_blocks@[j as int]@.len() >= 1);
                    assert(pre.data_blocks@[j as int]@ == g.data_blocks@[j as int]@.drop_last());
                    assert(self.data_blocks@[j as int]@.len() == g.data_blocks@[j as int]@.len());
                }
            }
        }
    }

    /// Inserts `element` at position `index`, shifting all elements after
    /// it one position to the right.  The shift cascades from the back:
    /// each block hands its last element to the next block, so no block
    /// ever outgrows its capacity.
    #[verifier::rlimit(100)]
    pub fn insert(&mut self, index: usize, element: T)
        requires
            old(self).wf(),
            index <= old(self)@.len(),
            old(self)@.len() < usize::MAX,
        ensures
            final(self).wf(),
            final(self)@ == old(self)@.insert(index as int, element),
    {
        proof {
            old(self).lemma_view_len();
        }
        let (a, b) = scheme::locate(index);
        self.grow();
        let ghost g = *self;
        let dlen = self.data_blocks.len();
        proof {
            // the located block is inside the grown block list
            if a as int >= dlen {
                scheme::lemma_elems_before_mono(dlen as nat, a as nat);
                assert(scheme::elems_before(dlen as nat) == scheme::elems_before((dlen - 1) as nat)
                    + scheme::block_cap((dlen - 1) as nat));
                assert(false);
            }
        }
        if a + 1 < dlen {
            self.shift_up(a);
            proof {
                assert(self.data_blocks@[a as int]@.len() + 1 == scheme::block_cap(a as nat));
            }
        }
        let ghost ex = *self;
        proof {
            // the slot index fits inside the target block
            if a + 1 >= dlen {
                assert(ex.data_blocks@ == g.data_blocks@);
                assert(b <= ex.data_blocks@[a as int]@.len());
            }
        }
        self.data_blocks[a].insert(b, element);
        proof {
            let bs = ex.blocks_view();
            assert(self.blocks_view() =~~= bs.update(
                a as int,
                bs[a as int].insert(b as int, element),
            ));
            flat::lemma_flat_insert_in_block(bs, a as int, b as int, element);
            flat::lemma_lens_before_agree(bs, g.blocks_view(), a as int);
            g.lemma_prefix_sums(a as int);
            assert(self@ == old(self)@.insert(index as int, element));
            // the target block regained its slot, so the shape is whole again
            assert(forall|i: int|
                0 <= i < dlen && i != a ==> self.data_blocks@[i] == ex.data_blocks@[i]);
            assert(self.data_blocks@[a as int]@.len() == ex.data_blocks@[a as int]@.len() + 1);
        }
    }

    /// Moves the first element of block `j` to the back of block `j - 1`.
    /// The flattened contents stay the same; only the block boundary moves.
    #[verifier::rlimit(100)]
    fn move_one_down(&mut self, j: usize)
        requires
            1 <= j < old(self).data_blocks@.len(),
            old(self).data_blocks@[j as int]@.len() >= 1,
        ensures
            final(self).data_blocks@.len() == old(self).data_blocks@.len(),
            final(self).data_blocks@[j as int]@ == old(self).data_blocks@[j as int]@.drop_first(),
            final(self).data_blocks@[j - 1]@ == old(self).data_blocks@[j - 1]@.push(
                old(self).data_blocks@[j as int]@.first(),
            ),
            forall|i: int|
                0 <= i < old(self).data_blocks@.len() && i != j - 1 && i != j
                    ==> final(self).data_blocks@[i] == old(self).data_blocks@[i],
            flat::flat(final(self).blocks_view()) == flat::flat(old(self).blocks_view()),
            final(self).len == old(self).len,
            final(self).s_odd == old(self).s_odd,
            final(self).len_last_super == old(self).len_last_super,
            final(self).cap_last_super == old(self).cap_last_super,
            final(self).cap_data_block == old(self).cap_data_block,
            final(self).empty_data_block == old(self).empty_data_block,
    {
        let moved = self.data_blocks[j].remove(0);
        self.data_blocks[j - 1].push(moved);
        proof {
            let bs = old(self).blocks_view();
            assert(self.blocks_view() =~~= bs.update(j as int, bs[j as int].drop_first()).update(
                j - 1,
                bs[j - 1].push(bs[j as int].first()),
            ));
            flat::lemma_flat_move_down(bs, j - 1);
        }
    }

    /// Cascades the hole in block `a` up to the last block: walking
    /// forwards, every block after `a` hands its first element back to its
    /// predecessor.  Contents are unchanged; the last block ends one
    /// element short.
    #[verifier::rlimit(100)]
    fn shift_down(&mut self, a: usize)
        requires
            a + 1 < old(self).data_blocks@.len(),
            forall|i: int|
                a < i < old(self).data_blocks@.len() - 1 ==> (#[trigger] old(
                    self,
                ).data_blocks@[i])@.len() == scheme::block_cap(i as nat),
            ({
                let s = *old(self);
                let d = s.data_blocks@.len() as int;
                s.data_blocks@[d - 1]@.len() >= 1
            }),
        ensures
            final(self).data_blocks@.len() == old(self).data_blocks@.len(),
            flat::flat(final(self).blocks_view()) == flat::flat(old(self).blocks_view()),
            forall|i: int| 0 <= i < a ==> final(self).data_blocks@[i] == old(self).data_blocks@[i],
            ({
                let s = *final(self);
                let d = s.data_blocks@.len() as int;
                &&& s.data_blocks@[a as int]@.len() == old(self).data_blocks@[a as int]@.len() + 1
                &&& (forall|i: int|
                    a < i < d - 1 ==> (#[trigger] s.data_blocks@[i])@.len() == old(
                        self,
                    ).data_blocks@[i]@.len())
                &&& s.data_blocks@[d - 1]@.len() == old(self).data_blocks@[d - 1]@.len() - 1
            }),
            final(self).len == old(self).len,
            final(self).s_odd == old(self).s_odd,
            final(self).len_last_super == old(self).len_last_super,
            final(self).cap_last_super == old(self).cap_last_super,
            final(self).cap_data_block == old(self).cap_data_block,
            final(self).empty_data_block == old(self).empty_data_block,
    {
        let dlen = self.data_blocks.len();
        let ghost g = *old(self);
        let mut j: usize = a + 1;
        while j < dlen
            invariant
                a + 1 <= j <= dlen,
                a + 1 < dlen,
                dlen == self.data_blocks@.len(),
                dlen == g.data_blocks@.len(),
                forall|i: int|
                    a < i < dlen - 1 ==> (#[trigger] g.data_blocks@[i])@.len()
                        == scheme::block_cap(i as nat),
                g.data_blocks@[dlen - 1]@.len() >= 1,
                forall|i: int| 0 <= i < a ==> self.data_blocks@[i] == g.data_blocks@[i],
                j == a + 1 ==> self.data_blocks@ == g.data_blocks@,
                j > a + 1 ==> self.data_blocks@[a as int]@.len() == g.data_blocks@[a
                    as int]@.len() + 1,
                forall|i: int|
                    a < i < j - 1 ==> (#[trigger] self.data_blocks@[i])@.len()
                        == g.data_blocks@[i]@.len(),
                j > a + 1 ==> self.data_blocks@[j - 1]@.len() == g.data_blocks@[j - 1]@.len() - 1,
                j > a + 1 ==> g.data_blocks@[j - 1]@.len() >= 1,
                forall|i: int| j <= i < dlen ==> self.data_blocks@[i] == g.data_blocks@[i],
                flat::flat(self.blocks_view()) == flat::flat(g.blocks_view()),
                self.len == g.len,
                self.s_odd == g.s_odd,
                self.len_last_super == g.len_last_super,
                self.cap_last_super == g.cap_last_super,
                self.cap_data_block == g.cap_data_block,
                self.empty_data_block == g.empty_data_block,
            decreases dlen - j,
        {
            proof {
                // the donor block is untouched and nonempty
                assert(self.data_blocks@[j as int] == g.data_blocks@[j as int]);
                if j < dlen - 1 {
                    scheme::lemma_block_cap_pos(j as nat);
                    assert(g.data_blocks@[j as int]@.len() >= 1);
                }
            }
            let ghost pre = *self;
            self.move_one_down(j);
            proof {
                assert(self.data_blocks@[j as int]@.len() == pre.data_blocks@[j as int]@.len()
                    - 1);
                assert(self.data_blocks@[j - 1]@.len() == pre.data_blocks@[j - 1]@.len() + 1);
                if j > a + 1 {
                    assert(self.data_blocks@[j - 1]@.len() == g.data_blocks@[j - 1]@.len());
                }
            }
            j = j + 1;
        }
    }

    /// Removes and returns the element at position `index`, shifting all
    /// elements after it one position to the left.  The shift cascades
    /// forwards, each block refilling its predecessor, so every block but
    /// the last stays full.
    #[verifier::rlimit(100)]
    pub fn remove(&mut self, index: usize) -> (r: T)
        requires
            old(self).wf(),
            index < old(self)@.len(),
        ensures
            final(self).wf(),
            r == old(self)@[index as int],
            final(self)@ == old(self)@.remove(index as int),
    {
        proof {
            old(self).lemma_view_len();
        }
        let (a, b) = scheme::locate(index);
        proof {
            old(self).lemma_locate_valid(a as int, b as int, index as int);
        }
        let r = self.data_blocks[a].remove(b);
        let dlen = self.data_blocks.len();
        proof {
            let bs = old(self).blocks_view();
            assert(self.blocks_view() =~~= bs.update(a as int, bs[a as int].remove(b as int)));
            flat::lemma_flat_remove_in_block(bs, a as int, b as int);
            assert(forall|i: int|
                0 <= i < dlen && i != a ==> self.data_blocks@[i] == old(self).data_blocks@[i]);
        }
        let ghost mid = *self;
        if a + 1 < dlen {
            self.shift_down(a);
            proof {
                assert(self.data_blocks@[a as int]@.len() == scheme::block_cap(a as nat));
            }
        }
        proof {
            // every block but the last is full again; the last lost one
            let d = dlen as int;
            assert(self.data_blocks@.len() == dlen);
            assert(forall|i: int|
                0 <= i < d - 1 ==> (#[trigger] self.data_blocks@[i])@.len() == scheme::block_cap(
                    i as nat,
                ));
            assert(self.data_blocks@[d - 1]@.len() + 1 == old(self).data_blocks@[d - 1]@.len());
            assert(self.len == scheme::elems_before((d - 1) as nat) + self.data_blocks@[d
                - 1]@.len() + 1);
        }
        self.shrink();
        r
    }

    /// Returns the number of elements in the container.
    pub fn len(&self) -> (n: usize)
        requires
            self.wf(),
        ensures
            n == self@.len(),
    {
        proof {
            self.lemma_view_len();
        }
        self.len
    }

    /// Returns `true` if the container holds no elements.
    pub fn is_empty(&self) -> (e: bool)
        requires
            self.wf(),
        ensures
            e <==> self@.len() == 0,
    {
        proof {
            self.lemma_view_len();
        }
        self.len == 0
    }

    /// Number of element slots the container has allocated: the slots of
    /// all data blocks plus the spare block's capacity, if one is held.
    pub closed spec fn spec_capacity(&self) -> nat {
        let d = self.data_blocks@.len() as int;
        let block_slots: nat = if d == 0 {
            0
        } else {
            scheme::elems_before((d - 1) as nat) + scheme::block_cap((d - 1) as nat)
        };
        let spare_slots: nat = if self.empty_data_block is Some {
            scheme::block_cap(d as nat)
        } else {
            0
        };
        block_slots + spare_slots
    }

    /// The capacity of the current data blocks squares to at most twice the
    /// length: the heart of the square-root overhead bound.
    proof fn lemma_cap_sq(&self)
        requires
            self.wf(),
            self.data_blocks@.len() > 0,
        ensures
            ({
                let d = self.data_blocks@.len() as int;
                let b = scheme::block_cap((d - 1) as nat);
                &&& b * b <= 2 * self.len
                &&& scheme::elems_before((d - 1) as nat) + 1 <= self.len
                &&& pow2(scheme::sb_of((d - 1) as nat)) <= self.len
            }),
    {
        let d = self.data_blocks@.len() as int;
        let k = scheme::sb_of((d - 1) as nat);
        let b = scheme::block_cap((d - 1) as nat);
        scheme::lemma_sb_of((d - 1) as nat);
        scheme::lemma_elems_at_boundary(k);
        scheme::lemma_elems_before_mono(scheme::blocks_before(k), (d - 1) as nat);
        vstd::arithmetic::power2::lemma_pow2_pos(k);
        assert(pow2(k) <= self.len);
        lemma_pow2_adds((k + 1) / 2, (k + 1) / 2);
        assert((k + 1) / 2 + (k + 1) / 2 <= k + 1);
        if (k + 1) / 2 + (k + 1) / 2 < k + 1 {
            lemma_pow2_strictly_increases((k + 1) / 2 + (k + 1) / 2, k + 1);
        }
        lemma_pow2_unfold(k + 1);
        assert(b * b == pow2((k + 1) / 2 + (k + 1) / 2));
        assert(b * b <= 2 * pow2(k));
    }

    /// Everything `capacity` needs about one nonempty well-formed state:
    /// the spare block's capacity by the counters, and room in `usize` for
    /// the total.
    proof fn lemma_capacity_parts(&self)
        requires
            self.wf(),
            self.len <= usize::MAX / 2,
            self.data_blocks@.len() > 0,
        ensures
            ({
                let d = self.data_blocks@.len() as int;
                &&& self.cap_data_block == scheme::block_cap((d - 1) as nat)
                &&& scheme::elems_before((d - 1) as nat) == self.len - self.data_blocks@[d
                    - 1]@.len()
                &&& ((self.len_last_super == self.cap_last_super && self.s_odd)
                    ==> scheme::block_cap(d as nat) == 2 * self.cap_data_block)
                &&& (!(self.len_last_super == self.cap_last_super && self.s_odd)
                    ==> scheme::block_cap(d as nat) == self.cap_data_block)
                &&& scheme::elems_before((d - 1) as nat) + 3 * self.cap_data_block <= usize::MAX
            }),
    {
        let d = self.data_blocks@.len() as int;
        let k = scheme::sb_of((d - 1) as nat);
        scheme::lemma_sb_of((d - 1) as nat);
        self.lemma_cap_sq();
        scheme::lemma_blocks_before_strict(k + 1);
        if d < scheme::blocks_before(k + 1) {
            scheme::lemma_sb_of_is(d as nat, k);
        } else {
            scheme::lemma_sb_of_is(d as nat, k + 1);
            scheme::lemma_sb_step(k);
        }
        assert(usize::MAX >= 65535);
        assert(3 * self.cap_data_block <= usize::MAX / 2) by (nonlinear_arith)
            requires
                self.cap_data_block * self.cap_data_block <= usize::MAX as int,
                usize::MAX >= 65535,
        ;
    }

    /// Returns the number of elements the container can hold without
    /// allocating, the retained spare block included.
    pub fn capacity(&self) -> (c: usize)
        requires
            self.wf(),
            self@.len() <= usize::MAX / 2,
        ensures
            c == self.spec_capacity(),
    {
        proof {
            self.lemma_view_len();
            scheme::lemma_scheme_base();
        }
        let d = self.data_blocks.len();
        if d == 0 {
            proof {
                scheme::lemma_sb_of_is(0, 0);
            }
            return 1;
        }
        proof {
            self.lemma_capacity_parts();
        }
        let last_len = self.data_blocks[d - 1].len();
        let block_slots = self.len - last_len + self.cap_data_block;
        let spare_slots: usize = match &self.empty_data_block {
            Some(_) => {
                if self.len_last_super == self.cap_last_super && self.s_odd {
                    2 * self.cap_data_block
                } else {
                    self.cap_data_block
                }
            },
            None => 0,
        };
        block_slots + spare_slots
    }

    /// Summing one more block into the occupancy total.
    proof fn lemma_walk_sum(&self, j: int)
        requires
            self.wf(),
            0 <= j < self.data_blocks@.len(),
        ensures
            flat::lens_before(self.blocks_view(), j + 1) == flat::lens_before(
                self.blocks_view(),
                j,
            ) + self.data_blocks@[j]@.len(),
            flat::lens_before(self.blocks_view(), j + 1) <= self.len,
    {
        self.lemma_view_len();
        flat::lemma_flat_len(self.blocks_view());
        flat::lemma_lens_before_mono(self.blocks_view(), j + 1, self.data_blocks@.len() as int);
    }

    /// Walks the data blocks and checks the structural invariants
    /// directly: every block boundary lies exactly where the addressing
    /// function puts it (so every block but the last is full at the
    /// capacity the scheme prescribes), and the block occupancies sum to
    /// the length.  A failed check aborts; verification shows no check can
    /// fail on a well-formed container.
    #[verifier::rlimit(100)]
    pub fn simple_sanity_check(&self)
        requires
            self.wf(),
    {
        let d = self.data_blocks.len();
        if d == 0 {
            return ;
        }
        let mut total: usize = 0;
        let mut j: usize = 0;
        while j < d
            invariant
                j <= d,
                d == self.data_blocks@.len(),
                d > 0,
                self.wf(),
                total == flat::lens_before(self.blocks_view(), j as int),
                total <= self.len,
            decreases d - j,
        {
            let bl = self.data_blocks[j].len();
            proof {
                self.lemma_walk_sum(j as int);
            }
            total = total + bl;
            if j + 1 < d {
                proof {
                    self.lemma_prefix_sums(j + 1);
                    scheme::lemma_elems_before_mono((j + 1) as nat, (d - 1) as nat);
                }
                let r = scheme::locate(total);
                proof {
                    scheme::lemma_locate_boundary(r.0 as nat, r.1 as nat, (j + 1) as nat);
                }
                if r.0 != j + 1 || r.1 != 0 {
                    // a block boundary off the addressing scheme:
                    // structurally impossible
                    unreached::<()>();
                }
            }
            j = j + 1;
        }
        proof {
            self.lemma_view_len();
            flat::lemma_flat_len(self.blocks_view());
        }
        if total != self.len {
            // occupancies out of step with the length: structurally impossible
            unreached::<()>();
        }
    }

    /// Returns the elements in storage order, materialized into one
    /// vector.  Stands in for borrowing iteration.
    pub fn iter(&self) -> (r: Vec<T>) where T: Copy
        requires
            self.wf(),
        ensures
            r@ == self@,
    {
        let d = self.data_blocks.len();
        let mut r: Vec<T> = Vec::new();
        let mut j: usize = 0;
        proof {
            assert(r@ =~= flat::flat(self.blocks_view().take(0)));
        }
        while j < d
            invariant
                0 <= j <= d,
                d == self.data_blocks@.len(),
                r@ == flat::flat(self.blocks_view().take(j as int)),
            decreases d - j,
        {
            let bl = self.data_blocks[j].len();
            let mut i: usize = 0;
            while i < bl
                invariant
                    0 <= i <= bl,
                    0 <= j < d,
                    d == self.data_blocks@.len(),
                    bl == self.data_blocks@[j as int]@.len(),
                    r@ == flat::flat(self.blocks_view().take(j as int)) + self.data_blocks@[j
                        as int]@.take(i as int),
                decreases bl - i,
            {
                let x = self.data_blocks[j][i];
                r.push(x);
                proof {
                    assert(self.data_blocks@[j as int]@.take(i + 1) =~= self.data_blocks@[j
                        as int]@.take(i as int).push(self.data_blocks@[j as int]@[i as int]));
                }
                i = i + 1;
            }
            proof {
                let bs = self.blocks_view();
                flat::lemma_flat_push_block(bs.take(j as int), bs[j as int]);
                assert(bs.take(j + 1) =~= bs.take(j as int).push(bs[j as int]));
                assert(self.data_blocks@[j as int]@.take(bl as int) =~= self.data_blocks@[j
                    as int]@);
            }
            j = j + 1;
        }
        proof {
            assert(self.blocks_view().take(d as int) =~= self.blocks_view());
        }
        r
    }

    /// Rewrites every element in place, front to back, replacing each
    /// element by what `f` returns for it.  Stands in for mutable
    /// iteration.
    pub fn iter_mut<F: Fn(&T) -> T>(&mut self, f: F)
        requires
            old(self).wf(),
            forall|x: &T| #[trigger] call_requires(f, (x,)),
        ensures
            final(self).wf(),
            final(self)@.len() == old(self)@.len(),
            forall|i: int|
                0 <= i < old(self)@.len()
                    ==> call_ensures(f, (&old(self)@[i],), #[trigger] final(self)@[i]),
    {
        let n = self.len();
        let mut i: usize = 0;
        while i < n
            invariant
                i <= n,
                self.wf(),
                n == self@.len(),
                n == old(self)@.len(),
                forall|x: &T| #[trigger] call_requires(f, (x,)),
                forall|j: int|
                    0 <= j < i ==> call_ensures(f, (&old(self)@[j],), #[trigger] self@[j]),
                forall|j: int| i <= j < n ==> self@[j] == old(self)@[j],
            decreases n - i,
        {
            let newv = f(self.read(i).unwrap());
            self.swap_replace(i, newv);
            i = i + 1;
        }
    }

    /// The overhead law: the allocated slots never exceed the length by
    /// more than a small multiple of the square root of the length.  Stated
    /// squared: the overhead's square is linearly bounded by the length.
    pub proof fn lemma_memory_bound(&self)
        requires
            self.wf(),
        ensures
            self@.len() == 0 ==> self.spec_capacity() <= 1,
            self@.len() > 0 ==> (self.spec_capacity() - self@.len()) * (self.spec_capacity()
                - self@.len()) <= 18 * self@.len(),
    {
        self.lemma_view_len();
        let d = self.data_blocks@.len() as int;
        scheme::lemma_scheme_base();
        if d == 0 {
            scheme::lemma_sb_of_is(0, 0);
        } else {
            let k = scheme::sb_of((d - 1) as nat);
            let b = scheme::block_cap((d - 1) as nat);
            scheme::lemma_sb_of((d - 1) as nat);
            self.lemma_cap_sq();
            // the spare block's capacity is at most twice the block size
            scheme::lemma_blocks_before_strict(k + 1);
            if d < scheme::blocks_before(k + 1) {
                scheme::lemma_sb_of_is(d as nat, k);
            } else {
                scheme::lemma_sb_of_is(d as nat, k + 1);
                scheme::lemma_sb_step(k);
            }
            assert(scheme::block_cap(d as nat) <= 2 * b);
            let waste = self.spec_capacity() - self@.len();
            assert(waste <= 3 * b);
            assert(waste * waste <= (3 * b) * (3 * b)) by (nonlinear_arith)
                requires
                    0 <= waste <= 3 * b,
            ;
            assert((3 * b) * (3 * b) == 9 * (b * b)) by (nonlinear_arith);
            assert(waste * waste <= 18 * self@.len());
        }
    }

    /// The shape law: two well-formed containers of the same length carve
    /// their elements into data blocks of exactly the same sizes.  The
    /// shape is a function of the length alone, so rebuilding a container
    /// by repeated `push` reproduces it block for block.
    pub proof fn lemma_shape_determined(&self, other: &SuccinctVec<T>)
        requires
            self.wf(),
            other.wf(),
            self@.len() == other@.len(),
        ensures
            self.block_lens() == other.block_lens(),
    {
        self.lemma_view_len();
        other.lemma_view_len();
        let d1 = self.data_blocks@.len() as int;
        let d2 = other.data_blocks@.len() as int;
        if self.len == 0 {
            assert(d1 == 0 && d2 == 0) by {
                if d1 > 0 {
                    assert(1 <= self.data_blocks@[d1 - 1]@.len());
                }
                if d2 > 0 {
                    assert(1 <= other.data_blocks@[d2 - 1]@.len());
                }
            }
            assert(self.block_lens() =~= other.block_lens());
        } else {
            let k1 = scheme::sb_of((d1 - 1) as nat);
            let k2 = scheme::sb_of((d2 - 1) as nat);
            scheme::lemma_sb_of((d1 - 1) as nat);
            scheme::lemma_sb_of((d2 - 1) as nat);
            self.lemma_cap_sq();
            other.lemma_cap_sq();
            // the length pins down the superblock of the last block
            assert(self.len <= scheme::elems_before(d1 as nat)) by {
                assert(scheme::elems_before(d1 as nat) == scheme::elems_before((d1 - 1) as nat)
                    + scheme::block_cap((d1 - 1) as nat));
            }
            scheme::lemma_elems_before_mono(d1 as nat, scheme::blocks_before(k1 + 1));
            scheme::lemma_elems_at_boundary(k1 + 1);
            assert(self.len < pow2(k1 + 1));
            assert(other.len <= scheme::elems_before(d2 as nat)) by {
                assert(scheme::elems_before(d2 as nat) == scheme::elems_before((d2 - 1) as nat)
                    + scheme::block_cap((d2 - 1) as nat));
            }
            scheme::lemma_elems_before_mono(d2 as nat, scheme::blocks_before(k2 + 1));
            scheme::lemma_elems_at_boundary(k2 + 1);
            assert(other.len < pow2(k2 + 1));
            if k1 < k2 {
                lemma_pow2_strictly_increases(k1 + 1, k2 + 1);
                vstd::arithmetic::power2::lemma_pow2_pos(k1);
                if k1 + 1 < k2 {
                    lemma_pow2_strictly_increases(k1 + 1, k2);
                }
                assert(false);
            }
            if k2 < k1 {
                lemma_pow2_strictly_increases(k2 + 1, k1 + 1);
                if k2 + 1 < k1 {
                    lemma_pow2_strictly_increases(k2 + 1, k1);
                }
                assert(false);
            }
            // and then the block count
            if d1 < d2 {
                scheme::lemma_elems_before_mono(d1 as nat, (d2 - 1) as nat);
                assert(false);
            }
            if d2 < d1 {
                scheme::lemma_elems_before_mono(d2 as nat, (d1 - 1) as nat);
                assert(false);
            }
            assert(self.block_lens() =~= other.block_lens());
        }
    }
}

impl<T> Default for SuccinctVec<T> {
    /// The empty container, with its single-slot spare block ready.
    fn default() -> (v: SuccinctVec<T>)
        ensures
            v.wf(),
            v@ == Seq::<T>::empty(),
    {
        let v = SuccinctVec {
            data_blocks: Vec::new(),
            len: 0,
            s_odd: true,
            len_last_super: 0,
            cap_last_super: 1,
            cap_data_block: 1,
            empty_data_block: Some(Vec::with_capacity(1)),
        };
        proof {
            assert(v.blocks_view() =~= Seq::<Seq<T>>::empty());
            assert(v@ =~= Seq::<T>::empty());
        }
        v
    }
}

} // verus!
