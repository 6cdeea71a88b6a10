//! The buddy-system heap: 32 free lists of power-of-two blocks, greedy
//! registration of caller-supplied ranges, allocation by splitting and
//! deallocation by buddy merging, with byte-accounting counters.

use vstd::prelude::*;

verus! {

use vstd::arithmetic::power2::pow2;
use vstd::arithmetic::power2::lemma_pow2_pos;
use vstd::arithmetic::power2::lemma_pow2_strictly_increases;
use vstd::arithmetic::power2::lemma2_to64;
use vstd::arithmetic::div_mod::lemma_fundamental_div_mod;
use vstd::arithmetic::div_mod::lemma_mod_multiples_basic;
use vstd::arithmetic::div_mod::lemma_small_mod;
use vstd::arithmetic::div_mod::lemma_sub_mod_noop;
use crate::arith::WORD_SIZE;
use crate::arith::CLASS_COUNT;
use crate::arith::MAX_BLOCK_SIZE;
use crate::arith::log2;
use crate::arith::is_power_of_two;
use crate::arith::spec_next_pow2;
use crate::arith::lemma_pow2_succ;
use crate::arith::lemma_pow2_le;
use crate::arith::lemma_pow2_is_power_of_two;
use crate::arith::lemma_pow2_double;
use crate::arith::lemma_aligned_weaken;
use crate::arith::lemma_aligned_add;
use crate::arith::lemma_mod_pow2_split;
use crate::arith::next_power_of_two;
use crate::arith::pow2_exec;
use crate::arith::class_of;
use crate::linked_list::LinkedList;
use crate::linked_list::remove_head_occurrence;
use crate::linked_list::lemma_remove_absent;
use crate::linked_list::lemma_remove_present;
use crate::linked_list::lemma_remove_pushed;

/// Failure to serve an allocation: no free block of a suitable class.
#[derive(Clone, Copy, PartialEq, Eq, Structural, Debug)]
pub struct AllocErr;

/// A block address of class `c` names a well-formed block: it is aligned to
/// the block size `2^c` and the whole block lies within the address space.
pub open spec fn block_ok(addr: usize, c: int) -> bool {
    &&& (addr as int) % (pow2(c as nat) as int) == 0
    &&& addr + pow2(c as nat) <= usize::MAX
}

/// Every address in every free list is a well-formed block of its class.
pub open spec fn free_lists_ok(f: Seq<Seq<usize>>) -> bool {
    forall|c: int, k: int|
        0 <= c < f.len() && 0 <= k < f[c].len() ==> block_ok(#[trigger] f[c][k], c)
}

/// Bytes held by the free blocks of the first `n` classes.
pub open spec fn free_bytes_upto(f: Seq<Seq<usize>>, n: int) -> int
    decreases n,
{
    if n <= 0 {
        0
    } else {
        free_bytes_upto(f, n - 1) + f[n - 1].len() * pow2((n - 1) as nat)
    }
}

/// Bytes held by all free blocks.
pub open spec fn free_bytes(f: Seq<Seq<usize>>) -> int {
    free_bytes_upto(f, f.len() as int)
}

/// Two free-list states agreeing on the first `n` classes hold the same bytes there.
proof fn lemma_free_bytes_agree(f: Seq<Seq<usize>>, g: Seq<Seq<usize>>, n: int)
    requires
        forall|j: int| 0 <= j < n ==> f[j] == g[j],
    ensures
        free_bytes_upto(f, n) == free_bytes_upto(g, n),
    decreases n,
{
    if n > 0 {
        lemma_free_bytes_agree(f, g, n - 1);
    }
}

/// Replacing the list of one class changes the byte count by the difference
/// of that class's contributions.
pub proof fn lemma_free_bytes_update(f: Seq<Seq<usize>>, c: int, l: Seq<usize>, n: int)
    requires
        0 <= c < n <= f.len(),
    ensures
        free_bytes_upto(f.update(c, l), n) == free_bytes_upto(f, n)
            - f[c].len() * pow2(c as nat) + l.len() * pow2(c as nat),
    decreases n,
{
    let g = f.update(c, l);
    if n - 1 == c {
        lemma_free_bytes_agree(f, g, n - 1);
    } else {
        lemma_free_bytes_update(f, c, l, n - 1);
    }
}

/// The byte count of any prefix of the classes is non-negative, and one
/// non-empty class puts at least one of its blocks' worth in it.
proof fn lemma_free_bytes_lower(f: Seq<Seq<usize>>, i: int, n: int)
    requires
        0 <= n <= f.len(),
    ensures
        free_bytes_upto(f, n) >= 0,
        0 <= i < n && f[i].len() > 0 ==> free_bytes_upto(f, n) >= pow2(i as nat),
    decreases n,
{
    if n > 0 {
        lemma_free_bytes_lower(f, i, n - 1);
        lemma_pow2_pos((n - 1) as nat);
        assert(f[n - 1].len() * pow2((n - 1) as nat) >= 0) by (nonlinear_arith)
            requires f[n - 1].len() >= 0 && pow2((n - 1) as nat) >= 1;
        if i == n - 1 && f[i].len() > 0 {
            assert(f[i].len() * pow2(i as nat) >= pow2(i as nat)) by (nonlinear_arith)
                requires f[i].len() >= 1 && pow2(i as nat) >= 1;
        }
    }
}

/// A state of all-empty classes holds no bytes.
proof fn lemma_free_bytes_empty(f: Seq<Seq<usize>>, n: int)
    requires
        forall|j: int| 0 <= j < n ==> f[j].len() == 0,
    ensures
        free_bytes_upto(f, n) == 0,
    decreases n,
{
    if n > 0 {
        lemma_free_bytes_empty(f, n - 1);
    }
}

/// `x` rounded up to the next multiple of the machine word.
pub open spec fn align_word_up(x: int) -> int {
    ((x + WORD_SIZE - 1) / (WORD_SIZE as int)) * (WORD_SIZE as int)
}

/// `x` rounded down to a multiple of the machine word.
pub open spec fn align_word_down(x: int) -> int {
    (x / (WORD_SIZE as int)) * (WORD_SIZE as int)
}

/// Size of the block greedily carved at `a` within `[a, e)`, starting the
/// search at the candidate size `p`: the largest power of two that divides
/// `a`, fits in the remaining range, and is at most one block of the top
/// class.  Doubling stops as soon as one condition would fail.
pub open spec fn carve_from(a: int, e: int, p: int) -> int
    decreases MAX_BLOCK_SIZE as int - p when 1 <= p <= MAX_BLOCK_SIZE as int
{
    if 2 * p <= e - a && 2 * p <= MAX_BLOCK_SIZE as int && a % (2 * p) == 0 {
        carve_from(a, e, 2 * p)
    } else {
        p
    }
}

/// Size of the block the greedy tiling carves at `a` within `[a, e)`.
pub open spec fn carve_size(a: int, e: int) -> int {
    carve_from(a, e, 1)
}

/// The carved size is a power of two dividing `a`, spans at least the word
/// the loop still has, and fits both the remaining range and the top class.
proof fn lemma_carve_from_props(a: int, e: int, p: int)
    requires
        1 <= p <= MAX_BLOCK_SIZE,
        is_power_of_two(p),
        a >= 0,
        a % p == 0,
        a + p <= e,
    ensures
        ({
            let r = carve_from(a, e, p);
            &&& p <= r <= MAX_BLOCK_SIZE
            &&& is_power_of_two(r)
            &&& a % r == 0
            &&& a + r <= e
        }),
    decreases MAX_BLOCK_SIZE as int - p,
{
    if 2 * p <= e - a && 2 * p <= MAX_BLOCK_SIZE as int && a % (2 * p) == 0 {
        lemma_pow2_double(p);
        lemma_carve_from_props(a, e, 2 * p);
    }
}

/// Free lists after registering the word-aligned range `[a, e)` by greedy
/// carving, left to right.  (The carved size is always at least one word;
/// the inner guard only makes the recursion well-founded by construction.)
pub open spec fn carve_free_lists(f: Seq<Seq<usize>>, a: int, e: int) -> Seq<Seq<usize>>
    decreases e - a when a >= 0
{
    if e - a >= WORD_SIZE as int {
        let s = carve_size(a, e);
        let s1 = if 1 <= s && s <= e - a { s } else { 1 };
        let c = log2(s) as int;
        carve_free_lists(f.update(c, f[c].push(a as usize)), a + s1, e)
    } else {
        f
    }
}

/// The heap: one free list per power-of-two size class, plus counters for
/// bytes requested by callers, bytes actually reserved, and bytes registered.
#[derive(Debug)]
pub struct Heap {
    free_list: Vec<LinkedList>,
    user: usize,
    allocated: usize,
    total: usize,
}

impl Heap {
    /// The free lists as sequences of block addresses, indexed by class.
    pub closed spec fn free_model(&self) -> Seq<Seq<usize>> {
        self.free_list@.map_values(|l: LinkedList| l@)
    }

    /// Bytes requested by callers and not yet returned.
    pub closed spec fn spec_user(&self) -> usize {
        self.user
    }

    /// Bytes currently reserved (requests rounded to block sizes).
    pub closed spec fn spec_allocated(&self) -> usize {
        self.allocated
    }

    /// Bytes ever registered through range addition.
    pub closed spec fn spec_total(&self) -> usize {
        self.total
    }

    /// The heap invariant: one list per class; every free block is aligned
    /// to its own size and lies in the address space; and conservation: the
    /// registered bytes equal the free bytes plus the reserved bytes.
    pub open spec fn wf(&self) -> bool {
        &&& self.free_model().len() == CLASS_COUNT
        &&& free_lists_ok(self.free_model())
        &&& self.spec_total() == free_bytes(self.free_model()) + self.spec_allocated()
    }

    /// Create an empty heap: every free list empty, every counter zero.
    pub fn new() -> (r: Heap)
        ensures
            r.wf(),
            r.free_model().len() == CLASS_COUNT,
            forall|c: int| 0 <= c < CLASS_COUNT ==> r.free_model()[c].len() == 0,
            r.spec_user() == 0,
            r.spec_allocated() == 0,
            r.spec_total() == 0,
    {
        let mut lists: Vec<LinkedList> = Vec::new();
        let mut i: usize = 0;
        while i < CLASS_COUNT
            invariant
                i == lists@.len(),
                i <= CLASS_COUNT,
                forall|c: int| 0 <= c < i ==> lists@[c]@.len() == 0,
            decreases CLASS_COUNT - i,
        {
            lists.push(LinkedList::new());
            i = i + 1;
        }
        let h = Heap { free_list: lists, user: 0, allocated: 0, total: 0 };
        proof {
            assert(forall|c: int| 0 <= c < CLASS_COUNT
                ==> h.free_model()[c].len() == 0);
            lemma_free_bytes_empty(h.free_model(), CLASS_COUNT as int);
        }
        h
    }

    /// Create an empty heap.
    pub fn empty() -> (r: Heap)
        ensures
            r.wf(),
            r.free_model().len() == CLASS_COUNT,
            forall|c: int| 0 <= c < CLASS_COUNT ==> r.free_model()[c].len() == 0,
            r.spec_user() == 0,
            r.spec_allocated() == 0,
            r.spec_total() == 0,
    {
        Heap::new()
    }

    /// Bytes requested by callers and currently outstanding.
    pub fn stats_alloc_user(&self) -> (r: usize)
        ensures
            r == self.spec_user(),
    {
        self.user
    }

    /// Bytes actually reserved for outstanding requests.
    pub fn stats_alloc_actual(&self) -> (r: usize)
        ensures
            r == self.spec_allocated(),
    {
        self.allocated
    }

    /// Bytes ever registered with the heap.
    pub fn stats_total_bytes(&self) -> (r: usize)
        ensures
            r == self.spec_total(),
    {
        self.total
    }

    /// Register the byte range `[start, end)` as free capacity.  The start
    /// is rounded up and the end rounded down to machine words, and the
    /// range is carved greedily into maximal aligned power-of-two blocks.
    ///
    /// The caller attests that the range is valid, exclusively owned memory;
    /// an inverted range (after rounding) is a contract violation.
    pub fn add_to_heap(&mut self, start: usize, end: usize)
        requires
            old(self).wf(),
            start + WORD_SIZE - 1 <= usize::MAX,
            align_word_up(start as int) <= align_word_down(end as int),
            old(self).spec_total() + (align_word_down(end as int) - align_word_up(start as int))
                <= usize::MAX,
        ensures
            final(self).wf(),
            final(self).free_model() == carve_free_lists(
                old(self).free_model(),
                align_word_up(start as int),
                align_word_down(end as int),
            ),
            final(self).spec_total() == old(self).spec_total()
                + (align_word_down(end as int) - align_word_up(start as int)),
            final(self).spec_user() == old(self).spec_user(),
            final(self).spec_allocated() == old(self).spec_allocated(),
    {
        let start_r = ((start + (WORD_SIZE - 1)) / WORD_SIZE) * WORD_SIZE;
        let end_r = (end / WORD_SIZE) * WORD_SIZE;
        proof {
            lemma_div_mul_le(start + WORD_SIZE - 1, WORD_SIZE as int);
            lemma_div_mul_le(end as int, WORD_SIZE as int);
            assert(start_r == align_word_up(start as int));
            assert(end_r == align_word_down(end as int));
            lemma_mod_multiples_basic((start + WORD_SIZE - 1) as int / (WORD_SIZE as int), WORD_SIZE as int);
            lemma_mod_multiples_basic(end as int / (WORD_SIZE as int), WORD_SIZE as int);
        }
        let ghost f0 = self.free_model();
        let mut current_start = start_r;
        let mut total_new: usize = 0;
        while end_r - current_start >= WORD_SIZE
            invariant
                self.free_model().len() == CLASS_COUNT,
                free_lists_ok(self.free_model()),
                start_r <= current_start <= end_r,
                end_r == align_word_down(end as int),
                (current_start as int) % (WORD_SIZE as int) == 0,
                (end_r as int) % (WORD_SIZE as int) == 0,
                total_new == current_start - start_r,
                self.spec_total() == old(self).spec_total(),
                self.spec_user() == old(self).spec_user(),
                self.spec_allocated() == old(self).spec_allocated(),
                free_bytes(self.free_model()) == free_bytes(f0) + total_new,
                old(self).spec_total() + (end_r - start_r) <= usize::MAX,
                carve_free_lists(self.free_model(), current_start as int, end_r as int)
                    == carve_free_lists(f0, start_r as int, end_r as int),
            decreases end_r - current_start,
        {
            let size = carve_size_exec(current_start, end_r);
            let c = class_of(size);
            proof {
                // The carved block is well-formed for its class.
                assert(block_ok(current_start, c as int)) by {
                    assert(pow2(c as nat) == size);
                    assert(current_start + size <= end_r <= usize::MAX);
                }
            }
            let ghost f_before = self.free_model();
            let list = &mut self.free_list[c];
            list.push(current_start);
            proof {
                assert(self.free_model() =~= f_before.update(c as int, f_before[c as int].push(current_start)));
                lemma_free_bytes_update(f_before, c as int, f_before[c as int].push(current_start), CLASS_COUNT as int);
                assert(f_before[c as int].push(current_start).len() * pow2(c as nat)
                    == f_before[c as int].len() * pow2(c as nat) + pow2(c as nat)) by (nonlinear_arith);
                // One unfolding of the carve relates the new state to the old.
                assert(carve_free_lists(f_before, current_start as int, end_r as int)
                    == carve_free_lists(self.free_model(), current_start + size, end_r as int));
                // Alignment of the next start.
                assert((current_start + size) as int % (WORD_SIZE as int) == 0) by {
                    assert(WORD_SIZE == pow2(3)) by { lemma2_to64(); }
                    assert((size as int) % (WORD_SIZE as int) == 0) by {
                        lemma_size_word_multiple(current_start as int, end_r as int, size as int);
                    }
                    lemma_aligned_add(current_start as int, size as int, WORD_SIZE as int);
                }
            }
            total_new = total_new + size;
            current_start = current_start + size;
        }
        proof {
            // The loop ends only when the whole rounded range is consumed:
            // both ends are word-aligned, so a remainder under one word is zero.
            assert(current_start == end_r) by {
                let d = end_r - current_start;
                assert(d % (WORD_SIZE as int) == 0) by {
                    lemma_sub_mod_noop(end_r as int, current_start as int, WORD_SIZE as int);
                    lemma_small_mod(0nat, WORD_SIZE as nat);
                }
                if d > 0 {
                    lemma_small_mod(d as nat, WORD_SIZE as nat);
                }
            }
        }
        self.total = self.total + total_new;
    }

    /// Register the byte range `[start, start + size)` as free capacity.
    pub fn init(&mut self, start: usize, size: usize)
        requires
            old(self).wf(),
            start + size <= usize::MAX,
            start + WORD_SIZE - 1 <= usize::MAX,
            align_word_up(start as int) <= align_word_down(start + size),
            old(self).spec_total() + (align_word_down(start + size) - align_word_up(start as int))
                <= usize::MAX,
        ensures
            final(self).wf(),
            final(self).free_model() == carve_free_lists(
                old(self).free_model(),
                align_word_up(start as int),
                align_word_down(start + size),
            ),
            final(self).spec_total() == old(self).spec_total()
                + (align_word_down(start + size) - align_word_up(start as int)),
            final(self).spec_user() == old(self).spec_user(),
            final(self).spec_allocated() == old(self).spec_allocated(),
    {
        self.add_to_heap(start, start + size);
    }
}

/// Rounding down to a multiple does not increase the value.
proof fn lemma_div_mul_le(x: int, d: int)
    requires
        x >= 0,
        d > 0,
    ensures
        (x / d) * d <= x,
        x < (x / d) * d + d,
{
    lemma_fundamental_div_mod(x, d);
    vstd::arithmetic::div_mod::lemma_mod_division_less_than_divisor(x, d);
}

/// The size carved at a word-aligned address is a multiple of the word.
proof fn lemma_size_word_multiple(a: int, e: int, s: int)
    requires
        a >= 0,
        a % (WORD_SIZE as int) == 0,
        a + WORD_SIZE <= e,
        s == carve_size(a, e),
    ensures
        s % (WORD_SIZE as int) == 0,
        s >= WORD_SIZE,
{
    lemma_pow2_is_power_of_two(0);
    assert(pow2(0) == 1) by { lemma2_to64(); }
    assert(WORD_SIZE as int % 1int == 0) by {
        lemma_fundamental_div_mod(WORD_SIZE as int, 1);
    }
    lemma_carve_grows(a, e, 1);
}

/// While the doubling conditions hold up to the word size, the carve result
/// is at least the word size, hence a multiple of it.
proof fn lemma_carve_grows(a: int, e: int, p: int)
    requires
        1 <= p <= WORD_SIZE,
        is_power_of_two(p),
        a >= 0,
        a % (WORD_SIZE as int) == 0,
        a + WORD_SIZE <= e,
        WORD_SIZE as int % p == 0,
    ensures
        carve_from(a, e, p) % (WORD_SIZE as int) == 0,
        carve_from(a, e, p) >= WORD_SIZE,
    decreases WORD_SIZE as int - p,
{
    assert(WORD_SIZE == pow2(3)) by { lemma2_to64(); }
    if p < WORD_SIZE {
        // All three doubling conditions hold while 2p <= WORD_SIZE.
        lemma_pow2_double(p);
        let k = log2(p);
        assert(2 * p == pow2((k + 1) as nat));
        assert(k + 1 <= 3) by {
            if k >= 3 {
                lemma_pow2_le(3, k);
            }
        }
        assert(2 * p <= WORD_SIZE) by {
            lemma_pow2_le((k + 1) as nat, 3);
        }
        assert(WORD_SIZE as int % (2 * p) == 0) by {
            assert(WORD_SIZE as int % (pow2(3) as int) == 0) by {
                lemma_mod_multiples_basic(1, WORD_SIZE as int);
            }
            lemma_aligned_weaken(WORD_SIZE as int, (k + 1) as nat, 3);
        }
        assert(a % (2 * p) == 0) by {
            lemma_aligned_weaken(a, (k + 1) as nat, 3);
        }
        assert(2 * p <= e - a);
        assert(2 * p <= MAX_BLOCK_SIZE as int);
        lemma_carve_grows(a, e, 2 * p);
    } else {
        // p == WORD_SIZE: the result only grows from here, and every larger
        // candidate is a multiple of the word size.
        assert(p % p == 0) by {
            lemma_mod_multiples_basic(1, p);
        }
        lemma_carve_multiple(a, e, p, p);
    }
}

/// The carve result starting at `p` is at least `p` and a multiple of `q`
/// whenever `p` is a multiple of `q`.
proof fn lemma_carve_multiple(a: int, e: int, p: int, q: int)
    requires
        1 <= p <= MAX_BLOCK_SIZE,
        1 <= q,
        p % q == 0,
    ensures
        carve_from(a, e, p) >= p,
        carve_from(a, e, p) % q == 0,
    decreases MAX_BLOCK_SIZE as int - p,
{
    if 2 * p <= e - a && 2 * p <= MAX_BLOCK_SIZE as int && a % (2 * p) == 0 {
        assert((2 * p) % q == 0) by {
            lemma_fundamental_div_mod(p, q);
            let m = p / q;
            assert(2 * p == (2 * m) * q) by (nonlinear_arith)
                requires p == q * m;
            lemma_mod_multiples_basic(2 * m, q);
        }
        lemma_carve_multiple(a, e, 2 * p, q);
    } else {
        lemma_mod_multiples_basic(p / q, q);
        lemma_fundamental_div_mod(p, q);
        assert(p % q == 0);
        assert(carve_from(a, e, p) == p);
        assert(p == (p / q) * q);
    }
}

/// Executable greedy carve: the largest power of two that divides `a`, fits
/// in `[a, e)`, and is at most one top-class block.
fn carve_size_exec(a: usize, e: usize) -> (r: usize)
    requires
        a + WORD_SIZE <= e,
        (a as int) % (WORD_SIZE as int) == 0,
    ensures
        r as int == carve_size(a as int, e as int),
        WORD_SIZE <= r <= MAX_BLOCK_SIZE,
        is_power_of_two(r as int),
        (a as int) % (r as int) == 0,
        a + r <= e,
    {
    let mut p: usize = 1;
    proof {
        lemma2_to64();
        lemma_pow2_is_power_of_two(0);
        lemma_small_mod(0nat, 1nat);
        assert((a as int) % 1int == 0) by {
            lemma_fundamental_div_mod(a as int, 1);
        }
    }
    while p <= MAX_BLOCK_SIZE / 2 && 2 * p <= e - a && (a % (2 * p)) == 0
        invariant
            1 <= p <= MAX_BLOCK_SIZE,
            is_power_of_two(p as int),
            a + WORD_SIZE <= e,
            carve_from(a as int, e as int, p as int) == carve_size(a as int, e as int),
        decreases MAX_BLOCK_SIZE - p,
    {
        proof {
            lemma_pow2_double(p as int);
        }
        p = 2 * p;
    }
    proof {
        // The loop exits exactly when the spec's doubling conditions fail:
        // p <= MAX_BLOCK_SIZE / 2 is 2p <= MAX_BLOCK_SIZE for integers.
        assert(carve_from(a as int, e as int, p as int) == p) by {
            if 2 * (p as int) <= e - a && 2 * (p as int) <= MAX_BLOCK_SIZE as int
                && (a as int) % (2 * (p as int)) == 0 {
                assert(p <= MAX_BLOCK_SIZE / 2);
                assert(false);
            }
        }
        assert(pow2(0) == 1) by { lemma2_to64(); }
        lemma_pow2_is_power_of_two(0);
        assert((a as int) % 1int == 0) by {
            lemma_fundamental_div_mod(a as int, 1);
        }
        lemma_carve_from_props(a as int, e as int, 1);
        lemma_size_word_multiple(a as int, e as int, carve_size(a as int, e as int));
    }
    p
}


/// The first class at or above `c` with a free block, or `CLASS_COUNT` if none.
pub open spec fn first_free_class(f: Seq<Seq<usize>>, c: int) -> int
    decreases CLASS_COUNT as int - c,
{
    if c < 0 || c >= CLASS_COUNT as int {
        CLASS_COUNT as int
    } else if f[c].len() > 0 {
        c
    } else {
        first_free_class(f, c + 1)
    }
}

/// Whether a request of class `c` can be served from free lists `f`.
pub open spec fn can_alloc(f: Seq<Seq<usize>>, c: int) -> bool {
    first_free_class(f, c) < CLASS_COUNT as int
}

/// The address served for a request of class `c`: the head block of the
/// first non-empty class at or above `c`.
pub open spec fn alloc_block(f: Seq<Seq<usize>>, c: int) -> usize {
    f[first_free_class(f, c)].last()
}

/// Free lists after serving a request of class `c`: the block leaves the
/// head of the first non-empty class `i`, and one upper half settles in
/// every class from `c` up to (excluding) `i`.
pub open spec fn alloc_free_lists(f: Seq<Seq<usize>>, c: int) -> Seq<Seq<usize>> {
    let i = first_free_class(f, c);
    let b = alloc_block(f, c);
    Seq::new(
        f.len(),
        |j: int|
            if j == i {
                f[i].drop_last()
            } else if c <= j < i {
                f[j].push((b + pow2(j as nat)) as usize)
            } else {
                f[j]
            },
    )
}

/// Scanning over empty classes does not change the class found.
proof fn lemma_first_free_skip(f: Seq<Seq<usize>>, c: int, i: int)
    requires
        0 <= c <= i <= CLASS_COUNT as int,
        forall|j: int| c <= j < i ==> f[j].len() == 0,
    ensures
        first_free_class(f, c) == first_free_class(f, i),
    decreases i - c,
{
    if c < i {
        lemma_first_free_skip(f, c + 1, i);
    }
}

/// The found class is between the request and the class count, its list is
/// non-empty, and everything below it (at or above the request) is empty.
proof fn lemma_first_free_props(f: Seq<Seq<usize>>, c: int)
    requires
        0 <= c <= CLASS_COUNT as int,
    ensures
        c <= first_free_class(f, c) <= CLASS_COUNT as int,
        first_free_class(f, c) < CLASS_COUNT as int ==> f[first_free_class(f, c)].len() > 0,
        forall|j: int| c <= j < first_free_class(f, c) ==> f[j].len() == 0,
    decreases CLASS_COUNT as int - c,
{
    if c < CLASS_COUNT as int && f[c].len() == 0 {
        lemma_first_free_props(f, c + 1);
    }
}

/// The block size actually reserved for a request of `size` bytes at
/// alignment `align`: the next power of two of the size, but at least the
/// alignment and at least one machine word.
pub open spec fn spec_norm_size(size: int, align: int) -> int {
    let p = spec_next_pow2(size);
    let a = if align >= WORD_SIZE as int { align } else { WORD_SIZE as int };
    if p >= a { p } else { a }
}

/// The size class serving a request of `size` bytes at alignment `align`.
pub open spec fn spec_norm_class(size: int, align: int) -> int {
    log2(spec_norm_size(size, align)) as int
}

/// Executable normalization of a request to its block size.
fn norm_size_exec(size: usize, align: usize) -> (r: usize)
    requires
        is_power_of_two(align as int),
        size <= MAX_BLOCK_SIZE,
        align <= MAX_BLOCK_SIZE,
    ensures
        r as int == spec_norm_size(size as int, align as int),
        is_power_of_two(r as int),
        WORD_SIZE <= r <= MAX_BLOCK_SIZE,
        size <= r,
        align <= r,
{
    let p = next_power_of_two(size);
    proof {
        assert(is_power_of_two(WORD_SIZE as int)) by {
            lemma2_to64();
            lemma_pow2_is_power_of_two(3);
        }
    }
    let a = if align < WORD_SIZE { WORD_SIZE } else { align };
    if p < a { a } else { p }
}

/// The buddy of block `a` of class `c`: the address that differs from `a`
/// exactly in bit `c`; the two are the halves of their common parent block.
pub open spec fn buddy_of(a: int, c: nat) -> int {
    if a % (pow2(c + 1) as int) == 0 {
        a + pow2(c)
    } else {
        a - pow2(c)
    }
}

/// Free lists during coalescing: `cur`, sitting at the head of class `c`,
/// is merged with its buddy for as long as the buddy is free, the merged
/// block moving up one class per step; merging stops at the top class.
pub open spec fn merge_free_lists(f: Seq<Seq<usize>>, cur: usize, c: int) -> Seq<Seq<usize>>
    decreases CLASS_COUNT as int - c when c >= 0
{
    let bd = buddy_of(cur as int, c as nat);
    if 0 <= c < CLASS_COUNT as int - 1 && f[c].len() > 0 && f[c].last() == cur
        && 0 <= bd <= usize::MAX && f[c].drop_last().contains(bd as usize) {
        let l = remove_head_occurrence(f[c].drop_last(), bd as usize);
        let nb = if cur as int <= bd { cur } else { bd as usize };
        merge_free_lists(f.update(c, l).update(c + 1, f[c + 1].push(nb)), nb, c + 1)
    } else {
        f
    }
}

/// Free lists after freeing block `addr` of class `c`: the block re-enters
/// the head of its class's list and is coalesced upward while possible.
pub open spec fn dealloc_free_lists(f: Seq<Seq<usize>>, addr: usize, c: int) -> Seq<Seq<usize>> {
    merge_free_lists(f.update(c, f[c].push(addr)), addr, c)
}

/// The difference of two multiples of `m` is a multiple of `m`.
proof fn lemma_aligned_sub(x: int, y: int, m: int)
    requires
        m > 0,
        x % m == 0,
        y % m == 0,
    ensures
        (x - y) % m == 0,
{
    lemma_sub_mod_noop(x, y, m);
    lemma_small_mod(0nat, m as nat);
}

impl Heap {
    /// Push `addr` onto the head of class `c`'s free list.
    fn push_at(&mut self, c: usize, addr: usize)
        requires
            old(self).free_model().len() == CLASS_COUNT,
            c < CLASS_COUNT,
        ensures
            final(self).free_model() == old(self).free_model().update(
                c as int,
                old(self).free_model()[c as int].push(addr),
            ),
            final(self).spec_user() == old(self).spec_user(),
            final(self).spec_allocated() == old(self).spec_allocated(),
            final(self).spec_total() == old(self).spec_total(),
    {
        let l = &mut self.free_list[c];
        l.push(addr);
        proof {
            assert(self.free_model() =~= old(self).free_model().update(
                c as int,
                old(self).free_model()[c as int].push(addr),
            ));
        }
    }

    /// Pop the head block of class `c`'s free list.
    fn pop_at(&mut self, c: usize) -> (r: Option<usize>)
        requires
            old(self).free_model().len() == CLASS_COUNT,
            c < CLASS_COUNT,
        ensures
            old(self).free_model()[c as int].len() == 0 ==> r is None
                && final(self).free_model() == old(self).free_model(),
            old(self).free_model()[c as int].len() > 0 ==> r == Some(
                old(self).free_model()[c as int].last(),
            ) && final(self).free_model() == old(self).free_model().update(
                c as int,
                old(self).free_model()[c as int].drop_last(),
            ),
            final(self).spec_user() == old(self).spec_user(),
            final(self).spec_allocated() == old(self).spec_allocated(),
            final(self).spec_total() == old(self).spec_total(),
    {
        let l = &mut self.free_list[c];
        let r = l.pop();
        proof {
            if old(self).free_model()[c as int].len() == 0 {
                assert(self.free_model() =~= old(self).free_model());
            } else {
                assert(self.free_model() =~= old(self).free_model().update(
                    c as int,
                    old(self).free_model()[c as int].drop_last(),
                ));
            }
        }
        r
    }

    /// Remove the head-most occurrence of `v` from class `c`'s free list.
    fn remove_value_at(&mut self, c: usize, v: usize) -> (r: bool)
        requires
            old(self).free_model().len() == CLASS_COUNT,
            c < CLASS_COUNT,
        ensures
            r <==> old(self).free_model()[c as int].contains(v),
            final(self).free_model() == old(self).free_model().update(
                c as int,
                remove_head_occurrence(old(self).free_model()[c as int], v),
            ),
            final(self).spec_user() == old(self).spec_user(),
            final(self).spec_allocated() == old(self).spec_allocated(),
            final(self).spec_total() == old(self).spec_total(),
    {
        let l = &mut self.free_list[c];
        let r = l.remove_value(v);
        proof {
            assert(self.free_model() =~= old(self).free_model().update(
                c as int,
                remove_head_occurrence(old(self).free_model()[c as int], v),
            ));
        }
        r
    }

}

/// Whether a request can be served at once: both the size and the alignment
/// lie within the top class, the user counter has room to record the
/// request, and a free block exists at or above the normalized class.
pub open spec fn spec_alloc_success(pre: Heap, size: usize, align: usize) -> bool {
    &&& size <= MAX_BLOCK_SIZE
    &&& align <= MAX_BLOCK_SIZE
    &&& pre.spec_user() + size <= usize::MAX
    &&& can_alloc(pre.free_model(), spec_norm_class(size as int, align as int))
}

/// What one allocation call does, relating the heap before the call, the
/// heap after it, and the result: on success the head block of the first
/// serviceable class is returned, suitably aligned, the free lists take
/// exactly the split's shape, and the counters record the request; on
/// failure nothing changes.
pub open spec fn spec_alloc_post(
    pre: Heap,
    post: Heap,
    size: usize,
    align: usize,
    r: Result<usize, AllocErr>,
) -> bool {
    let f = pre.free_model();
    let c = spec_norm_class(size as int, align as int);
    if spec_alloc_success(pre, size, align) {
        &&& r == Ok::<usize, AllocErr>(alloc_block(f, c))
        &&& post.free_model() == alloc_free_lists(f, c)
        &&& post.spec_user() == pre.spec_user() + size
        &&& post.spec_allocated() == pre.spec_allocated() + pow2(c as nat)
        &&& post.spec_total() == pre.spec_total()
        &&& (alloc_block(f, c) as int) % (pow2(c as nat) as int) == 0
        &&& alloc_block(f, c) + pow2(c as nat) <= usize::MAX
        &&& pow2(c as nat) == spec_norm_size(size as int, align as int)
        &&& (alloc_block(f, c) as int) % (align as int) == 0
        &&& (alloc_block(f, c) as int) % (WORD_SIZE as int) == 0
    } else {
        &&& r == Err::<usize, AllocErr>(AllocErr)
        &&& post.free_model() == pre.free_model()
        &&& post.spec_user() == pre.spec_user()
        &&& post.spec_allocated() == pre.spec_allocated()
        &&& post.spec_total() == pre.spec_total()
    }
}

impl Heap {
    /// Serve a request for `size` bytes at alignment `align` (a power of
    /// two, as a layout's alignment always is).  The request is rounded up
    /// to a block of the normalized class; the first class at or above it
    /// with a free block is split in halves down to that class; the final
    /// block's address is returned.  Fails with `AllocErr`, changing
    /// nothing, exactly when no class at or above the normalized one holds
    /// a free block (in particular for requests beyond the top class) or
    /// the user counter has no room left to record the request.
    pub fn allocate(&mut self, size: usize, align: usize) -> (r: Result<usize, AllocErr>)
        requires
            old(self).wf(),
            is_power_of_two(align as int),
        ensures
            final(self).wf(),
            spec_alloc_post(*old(self), *final(self), size, align, r),
    {
        if size > MAX_BLOCK_SIZE || align > MAX_BLOCK_SIZE {
            return Err(AllocErr);
        }
        if size > usize::MAX - self.user {
            return Err(AllocErr);
        }
        let nsize = norm_size_exec(size, align);
        let class = class_of(nsize);
        let ghost f = self.free_model();
        let ghost cc = class as int;
        proof {
            lemma_first_free_props(f, cc);
        }

        // Find the first class at or above the request with a free block.
        let mut i = class;
        while i < CLASS_COUNT && self.free_list[i].is_empty()
            invariant
                class <= i <= CLASS_COUNT,
                *self == *old(self),
                f == self.free_model(),
                f.len() == CLASS_COUNT,
                forall|j: int| class <= j < i ==> f[j].len() == 0,
            decreases CLASS_COUNT - i,
        {
            i = i + 1;
        }
        proof {
            lemma_first_free_skip(f, cc, i as int);
        }
        if i == CLASS_COUNT {
            return Err(AllocErr);
        }
        let ghost ii = i as int;
        let ghost b = f[ii].last();
        proof {
            assert(first_free_class(f, cc) == ii);
            assert(f[ii].len() > 0);
            assert(block_ok(b, ii));
            lemma_free_bytes_lower(f, ii, CLASS_COUNT as int);
        }

        // Split blocks halfway down to the requested class.
        let mut j = i;
        while j > class
            invariant
                class <= j <= i < CLASS_COUNT,
                i == ii,
                class == cc,
                f.len() == CLASS_COUNT,
                self.free_model().len() == CLASS_COUNT,
                free_lists_ok(self.free_model()),
                b == f[ii].last(),
                f[ii].len() > 0,
                block_ok(b, ii),
                pow2(cc as nat) == nsize,
                self.spec_user() == old(self).spec_user(),
                self.spec_allocated() == old(self).spec_allocated(),
                self.spec_total() == old(self).spec_total(),
                old(self).wf(),
                f == old(self).free_model(),
                free_bytes_upto(self.free_model(), CLASS_COUNT as int)
                    == free_bytes_upto(f, CLASS_COUNT as int),
                j as int == ii ==> self.free_model() == f,
                (j as int) < ii ==> self.free_model()[ii] == f[ii].drop_last(),
                (j as int) < ii ==> self.free_model()[j as int]
                    == f[j as int].push((b + pow2(j as nat)) as usize).push(b),
                forall|x: int| (j as int) < x < ii ==> self.free_model()[x]
                    == f[x].push((b + pow2(x as nat)) as usize),
                forall|x: int| (0 <= x < j as int || ii < x < CLASS_COUNT as int)
                    ==> self.free_model()[x] == f[x],
            decreases j,
        {
            let ghost before = self.free_model();
            let blk_opt = self.pop_at(j);
            proof {
                assert(before[j as int].len() > 0);
                assert(before[j as int].last() == b);
            }
            let blk = match blk_opt {
                Some(blk) => blk,
                None => {
                    proof {
                        assert(false);
                    }
                    return Err(AllocErr);
                },
            };
            proof {
                if (j as int) < ii {
                    assert(before[j as int].drop_last()
                        =~= f[j as int].push((b + pow2(j as nat)) as usize));
                }
            }
            let half = pow2_exec(j - 1);
            proof {
                // The block is aligned to the class being split to, and both
                // halves fit and are aligned to the lower class.
                lemma_pow2_succ((j - 1) as nat);
                lemma_pow2_le(j as nat, ii as nat);
                assert((b as int) % (pow2((j - 1) as nat) as int) == 0) by {
                    lemma_aligned_weaken(b as int, (j - 1) as nat, ii as nat);
                }
                assert((b + half) as int % (pow2((j - 1) as nat) as int) == 0) by {
                    lemma_mod_multiples_basic(1, pow2((j - 1) as nat) as int);
                    lemma_aligned_add(b as int, half as int, pow2((j - 1) as nat) as int);
                }
            }
            let upper = blk + half;
            let ghost mid = self.free_model();
            self.push_at(j - 1, upper);
            self.push_at(j - 1, blk);
            proof {
                let jm = (j - 1) as int;
                let after_pop = before.update(j as int, before[j as int].drop_last());
                assert(mid == after_pop);
                lemma_free_bytes_update(before, j as int, before[j as int].drop_last(),
                    CLASS_COUNT as int);
                let l1 = mid[jm].push(upper);
                let l2 = l1.push(blk);
                lemma_free_bytes_update(mid, jm, l1, CLASS_COUNT as int);
                let mid2 = mid.update(jm, l1);
                lemma_free_bytes_update(mid2, jm, mid2[jm].push(blk), CLASS_COUNT as int);
                assert(free_bytes_upto(self.free_model(), CLASS_COUNT as int)
                    == free_bytes_upto(f, CLASS_COUNT as int)) by {
                    lemma_pow2_succ((j - 1) as nat);
                    assert(before[j as int].drop_last().len() * pow2(j as nat)
                        == before[j as int].len() * pow2(j as nat) - pow2(j as nat))
                        by (nonlinear_arith)
                        requires before[j as int].len() >= 1;
                    assert(l1.len() * pow2(jm as nat)
                        == mid[jm].len() * pow2(jm as nat) + pow2(jm as nat))
                        by (nonlinear_arith)
                        requires l1.len() == mid[jm].len() + 1;
                    assert(l2.len() * pow2(jm as nat)
                        == l1.len() * pow2(jm as nat) + pow2(jm as nat))
                        by (nonlinear_arith)
                        requires l2.len() == l1.len() + 1;
                }
            }
            j = j - 1;
        }

        // Pop the block of the requested class.
        let ghost before_final = self.free_model();
        let blk_opt = self.pop_at(class);
        proof {
            assert(before_final[cc].len() > 0);
            assert(before_final[cc].last() == b);
        }
        let result = match blk_opt {
            Some(blk) => blk,
            None => {
                proof {
                    assert(false);
                }
                return Err(AllocErr);
            },
        };
        proof {
            if cc < ii {
                assert(before_final[cc].drop_last()
                    =~= f[cc].push((b + pow2(cc as nat)) as usize));
            }
            assert(self.free_model() =~= alloc_free_lists(f, cc));
            // Conservation: the handed-out block's bytes move from the free
            // lists to the allocated counter.
            lemma_free_bytes_update(before_final, cc, before_final[cc].drop_last(),
                CLASS_COUNT as int);
            assert(before_final[cc].drop_last().len() * pow2(cc as nat)
                == before_final[cc].len() * pow2(cc as nat) - pow2(cc as nat))
                by (nonlinear_arith)
                requires before_final[cc].len() >= 1;
            lemma_pow2_le(cc as nat, ii as nat);
            assert((result as int) % (pow2(cc as nat) as int) == 0) by {
                lemma_aligned_weaken(b as int, cc as nat, ii as nat);
            }
            // The result also honours the requested alignment and the word
            // size, both of which the normalized block size dominates.
            assert((result as int) % (align as int) == 0) by {
                let e = crate::arith::log2(align as int);
                assert(pow2(e) == align);
                assert(e <= cc as nat) by {
                    if e > cc as nat {
                        lemma_pow2_strictly_increases(cc as nat, e);
                    }
                }
                lemma_aligned_weaken(b as int, e, cc as nat);
            }
            assert((result as int) % (WORD_SIZE as int) == 0) by {
                assert(WORD_SIZE == pow2(3)) by { lemma2_to64(); }
                assert(3 <= cc as nat) by {
                    if cc < 3 {
                        lemma_pow2_strictly_increases(cc as nat, 3);
                    }
                }
                lemma_aligned_weaken(b as int, 3, cc as nat);
            }
        }
        self.user = self.user + size;
        self.allocated = self.allocated + nsize;
        Ok(result)
    }

    /// Return the block at `addr`, obtained from `alloc` with the same
    /// `size` and `align`, to the heap: it re-enters its class's free list
    /// and is coalesced with its buddy for as long as the buddy is free,
    /// stopping at the top class.  Freeing a block not currently handed out,
    /// or with a different size or alignment, violates the caller contract.
    pub fn dealloc(&mut self, addr: usize, size: usize, align: usize)
        requires
            old(self).wf(),
            is_power_of_two(align as int),
            size <= MAX_BLOCK_SIZE,
            align <= MAX_BLOCK_SIZE,
            (addr as int) % spec_norm_size(size as int, align as int) == 0,
            addr + spec_norm_size(size as int, align as int) <= usize::MAX,
            size <= old(self).spec_user(),
            spec_norm_size(size as int, align as int) <= old(self).spec_allocated(),
        ensures
            final(self).wf(),
            final(self).free_model() == dealloc_free_lists(
                old(self).free_model(),
                addr,
                spec_norm_class(size as int, align as int),
            ),
            final(self).spec_user() == old(self).spec_user() - size,
            final(self).spec_allocated() == old(self).spec_allocated()
                - spec_norm_size(size as int, align as int),
            final(self).spec_total() == old(self).spec_total(),
    {
        let nsize = norm_size_exec(size, align);
        let class = class_of(nsize);
        let ghost f0 = self.free_model();
        let ghost cc = class as int;

        // Put the block back into its free list.
        self.push_at(class, addr);
        let ghost f1 = f0.update(cc, f0[cc].push(addr));
        proof {
            lemma_free_bytes_update(f0, cc, f0[cc].push(addr), CLASS_COUNT as int);
            assert(f0[cc].push(addr).len() * pow2(cc as nat)
                == f0[cc].len() * pow2(cc as nat) + pow2(cc as nat)) by (nonlinear_arith);
        }

        // Merge with free buddies upward.
        let mut cur = addr;
        let mut c = class;
        let mut merging = true;
        while merging && c + 1 < CLASS_COUNT
            invariant
                class <= c < CLASS_COUNT,
                cc == class as int,
                pow2(cc as nat) == nsize,
                f0.len() == CLASS_COUNT,
                self.free_model().len() == CLASS_COUNT,
                free_lists_ok(self.free_model()),
                self.free_model()[c as int].len() > 0,
                self.free_model()[c as int].last() == cur,
                block_ok(cur, c as int),
                self.spec_user() == old(self).spec_user(),
                self.spec_allocated() == old(self).spec_allocated(),
                self.spec_total() == old(self).spec_total(),
                free_bytes_upto(self.free_model(), CLASS_COUNT as int)
                    == free_bytes_upto(f1, CLASS_COUNT as int),
                merge_free_lists(self.free_model(), cur, c as int)
                    == merge_free_lists(f1, addr, cc),
                !merging ==> merge_free_lists(self.free_model(), cur, c as int)
                    == self.free_model(),
            decreases CLASS_COUNT - c + (if merging { 1int } else { 0int }),
        {
            let ghost fs = self.free_model();
            let half = pow2_exec(c);
            proof {
                // c + 1 < CLASS_COUNT here, so doubling the half block fits.
                lemma_pow2_le(c as nat, 30);
                assert(pow2(30) == 0x40000000) by { lemma2_to64(); }
                lemma_pow2_succ(c as nat);
                lemma_mod_pow2_split(cur as int, c as nat);
            }
            let twice = 2 * half;
            let buddy = if cur % twice == 0 {
                cur + half
            } else {
                proof {
                    // cur is an odd multiple of the half here, so it is at
                    // least one half.
                    lemma_fundamental_div_mod(cur as int, twice as int);
                    vstd::arithmetic::div_mod::lemma_mod_division_less_than_divisor(
                        cur as int, twice as int);
                    assert((cur as int) % (twice as int) == half as int);
                    let q = (cur as int) / (twice as int);
                    vstd::arithmetic::div_mod::lemma_div_pos_is_pos(cur as int, twice as int);
                    assert((twice as int) * q >= 0) by (nonlinear_arith)
                        requires q >= 0 && twice as int > 0;
                }
                cur - half
            };
            proof {
                assert(buddy as int == buddy_of(cur as int, c as nat));
                assert(buddy != cur) by {
                    lemma_pow2_pos(c as nat);
                }
                // The buddy address is aligned to the class.
                assert((buddy as int) % (pow2(c as nat) as int) == 0) by {
                    lemma_mod_multiples_basic(1, pow2(c as nat) as int);
                    if buddy > cur {
                        lemma_aligned_add(cur as int, half as int, pow2(c as nat) as int);
                    } else {
                        lemma_aligned_sub(cur as int, half as int, pow2(c as nat) as int);
                    }
                }
            }
            let found = self.remove_value_at(c, buddy);
            if found {
                proof {
                    // The buddy really was a free block of this class, so it
                    // is in range; removing it keeps every other block.
                    assert(fs[c as int].contains(buddy));
                    let k = choose|k: int| 0 <= k < fs[c as int].len()
                        && fs[c as int][k] == buddy;
                    assert(block_ok(buddy, c as int));
                    lemma_remove_present(fs[c as int], buddy);
                    assert(remove_head_occurrence(fs[c as int], buddy)
                        == remove_head_occurrence(fs[c as int].drop_last(), buddy).push(cur));
                }
                let ghost fr = self.free_model();
                let popped = self.pop_at(c);
                proof {
                    assert(fr[c as int].len() > 0);
                    assert(fr[c as int].last() == cur);
                    assert(popped == Some(cur));
                }
                let nb = if cur <= buddy { cur } else { buddy };
                proof {
                    // The merged block is aligned to and fits the next class.
                    lemma_pow2_succ(c as nat);
                    assert((nb as int) % (pow2((c + 1) as nat) as int) == 0) by {
                        if (cur as int) % (pow2((c + 1) as nat) as int) == 0 {
                            assert(nb == cur);
                        } else {
                            assert(nb == buddy && buddy as int == cur - half);
                            assert((cur as int) % (pow2((c + 1) as nat) as int)
                                == pow2(c as nat) as int);
                            lemma_small_mod(pow2(c as nat), pow2((c + 1) as nat));
                            lemma_sub_mod_noop(cur as int, pow2(c as nat) as int,
                                pow2((c + 1) as nat) as int);
                            lemma_small_mod(0nat, pow2((c + 1) as nat));
                        }
                    }
                    assert(nb + pow2((c + 1) as nat) <= usize::MAX) by {
                        assert(block_ok(buddy, c as int));
                        assert(block_ok(cur, c as int));
                    }
                }
                let ghost before_push = self.free_model();
                let ghost prev_cur = cur;
                c = c + 1;
                self.push_at(c, nb);
                cur = nb;
                proof {
                    let cp = (c - 1) as int;
                    let l = remove_head_occurrence(fs[cp].drop_last(), buddy);
                    assert(remove_head_occurrence(fs[cp], buddy) == l.push(prev_cur));
                    assert((l.push(prev_cur)).drop_last() =~= l);
                    assert(before_push =~= fs.update(cp, l));
                    let m2 = fs.update(cp, l);
                    assert(self.free_model() =~= m2.update(
                        c as int, fs[c as int].push(nb)));
                    // One unfolding of the merge keeps the overall result.
                    assert(merge_free_lists(fs, prev_cur, cp)
                        == merge_free_lists(self.free_model(), nb, c as int));
                    // Byte conservation: two buddies leave, their parent enters.
                    lemma_remove_present(fs[cp], buddy);
                    assert(l.len() == fs[cp].len() - 2);
                    lemma_free_bytes_update(fs, cp, l, CLASS_COUNT as int);
                    assert(m2[c as int] == fs[c as int]);
                    lemma_free_bytes_update(m2, c as int, fs[c as int].push(nb),
                        CLASS_COUNT as int);
                    assert(free_bytes_upto(self.free_model(), CLASS_COUNT as int)
                        == free_bytes_upto(f1, CLASS_COUNT as int)) by {
                        lemma_pow2_succ((c - 1) as nat);
                        assert(l.len() * pow2(cp as nat)
                            == fs[cp].len() * pow2(cp as nat) - 2 * pow2(cp as nat))
                            by (nonlinear_arith)
                            requires l.len() == fs[cp].len() - 2;
                        assert(fs[c as int].push(nb).len() * pow2(c as nat)
                            == fs[c as int].len() * pow2(c as nat) + pow2(c as nat))
                            by (nonlinear_arith)
                            requires fs[c as int].push(nb).len() == fs[c as int].len() + 1;
                    }
                    // The free blocks all stay well-formed.
                    assert(free_lists_ok(self.free_model())) by {
                        assert forall|c2: int, k: int|
                            0 <= c2 < self.free_model().len()
                                && 0 <= k < self.free_model()[c2].len()
                            implies block_ok(#[trigger] self.free_model()[c2][k], c2) by {
                            if c2 == cp {
                                assert(l.contains(l[k]));
                                lemma_remove_present(fs[cp], buddy);
                                assert(fs[cp].drop_last().contains(l[k])) by {
                                    lemma_remove_contains(fs[cp].drop_last(), buddy, l[k]);
                                }
                                let k2 = choose|k2: int| 0 <= k2
                                    < fs[cp].drop_last().len()
                                    && fs[cp].drop_last()[k2] == l[k];
                                assert(fs[cp][k2] == l[k]);
                            } else if c2 == c as int {
                                if k < self.free_model()[c2].len() - 1 {
                                    assert(fs[c2][k] == self.free_model()[c2][k]);
                                }
                            }
                        }
                    }
                }
            } else {
                proof {
                    lemma_remove_absent(fs[c as int], buddy);
                    assert(self.free_model() =~= fs);
                    assert(!fs[c as int].drop_last().contains(buddy)) by {
                        if fs[c as int].drop_last().contains(buddy) {
                            let k = choose|k: int| 0 <= k < fs[c as int].drop_last().len()
                                && fs[c as int].drop_last()[k] == buddy;
                            assert(fs[c as int][k] == buddy);
                        }
                    }
                }
                merging = false;
            }
        }
        proof {
            // At exit no merge step applies: either the buddy was absent or
            // the top class was reached.
            assert(merge_free_lists(self.free_model(), cur, c as int) == self.free_model());
            assert(self.free_model() == merge_free_lists(f1, addr, cc));
        }
        self.user = self.user - size;
        self.allocated = self.allocated - nsize;
    }
}

/// Membership in the list after a removal implies membership before it.
proof fn lemma_remove_contains(s: Seq<usize>, v: usize, x: usize)
    requires
        remove_head_occurrence(s, v).contains(x),
    ensures
        s.contains(x) || remove_head_occurrence(s, v) == s,
{
    if s.contains(v) {
        lemma_remove_present(s, v);
    } else {
        lemma_remove_absent(s, v);
    }
}


/// The free-list state midway through undoing a split: classes below `j`
/// are restored, class `j` holds its upper half (when `j < i`) with the
/// freed block `b` at its head, classes strictly between `j` and `i` hold
/// their upper halves, and class `i` is missing its former head `b`.
pub open spec fn split_state(f: Seq<Seq<usize>>, b: usize, i: int, j: int) -> Seq<Seq<usize>> {
    Seq::new(
        f.len(),
        |x: int|
            if x == j && j == i {
                f[i].drop_last().push(b)
            } else if x == j {
                f[j].push((b + pow2(j as nat)) as usize).push(b)
            } else if j < x < i {
                f[x].push((b + pow2(x as nat)) as usize)
            } else if x == i {
                f[i].drop_last()
            } else {
                f[x]
            },
    )
}

/// Coalescing from class `j` undoes the split of block `b` of class `i`
/// level by level, provided `b`'s own buddy at class `i` is not free.
proof fn lemma_merge_unsplits(f: Seq<Seq<usize>>, b: usize, i: int, j: int)
    requires
        f.len() == CLASS_COUNT,
        free_lists_ok(f),
        0 <= j <= i < CLASS_COUNT,
        f[i].len() > 0,
        f[i].last() == b,
        i == CLASS_COUNT as int - 1
            || !f[i].contains((buddy_of(b as int, i as nat)) as usize),
    ensures
        merge_free_lists(split_state(f, b, i, j), b, j) == f,
    decreases i - j,
{
    let s = split_state(f, b, i, j);
    assert(block_ok(b, i));
    lemma_pow2_pos(i as nat);
    if j == i {
        // The chain has fully unwound: the head of class i is b again, and
        // the merge stops because b's buddy at class i is not free.
        assert(s[i] == f[i].drop_last().push(b));
        assert(s[i].drop_last() =~= f[i].drop_last());
        let bd = buddy_of(b as int, i as nat);
        if i < CLASS_COUNT as int - 1 && 0 <= bd <= usize::MAX
            && s[i].drop_last().contains(bd as usize) {
            let k = choose|k: int| 0 <= k < f[i].drop_last().len()
                && f[i].drop_last()[k] == bd as usize;
            assert(f[i][k] == bd as usize);
            assert(f[i].contains(bd as usize));
            assert(false);
        }
        assert(merge_free_lists(s, b, i) == s);
        assert(s[i] =~= f[i]);
        assert(s =~= f);
    } else {
        // One merge step: the upper half pushed at class j is exactly b's
        // buddy there, so it is found and removed, and the pair re-forms
        // the block of class j + 1.
        let upper = (b + pow2(j as nat)) as usize;
        lemma_pow2_le((j + 1) as nat, i as nat);
        lemma_pow2_succ(j as nat);
        assert((b as int) % (pow2((j + 1) as nat) as int) == 0) by {
            lemma_aligned_weaken(b as int, (j + 1) as nat, i as nat);
        }
        let bd = buddy_of(b as int, j as nat);
        assert(bd == b + pow2(j as nat));
        assert(bd == upper as int);
        assert(s[j] == f[j].push(upper).push(b));
        assert(s[j].drop_last() =~= f[j].push(upper));
        assert(f[j].push(upper).contains(upper)) by {
            assert(f[j].push(upper)[f[j].len() as int] == upper);
        }
        let l = remove_head_occurrence(s[j].drop_last(), upper);
        assert(l == f[j]) by {
            assert(remove_head_occurrence(f[j].push(upper), upper) == f[j]) by {
                lemma_remove_pushed(f[j], upper);
            }
        }
        assert(b as int <= bd);
        let s2 = s.update(j, l).update(j + 1, s[j + 1].push(b));
        assert(merge_free_lists(s, b, j) == merge_free_lists(s2, b, j + 1));
        assert(s2 =~= split_state(f, b, i, j + 1)) by {
            assert(s[j + 1].push(b) == split_state(f, b, i, j + 1)[j + 1]);
        }
        lemma_merge_unsplits(f, b, i, j + 1);
    }
}

/// Round-trip law: serving a request of class `c` and then freeing the
/// returned block at the same class restores the free lists exactly, as
/// coalescing reverses splitting step for step.  The one proviso: the buddy
/// of the block the allocation takes must not itself be free at that
/// block's class, otherwise the free coalesces past the point the
/// allocation started from (merging two blocks that were separately
/// registered), which changes the lists' shape without losing any bytes.
pub proof fn lemma_alloc_dealloc_round_trip(f: Seq<Seq<usize>>, c: int)
    requires
        f.len() == CLASS_COUNT,
        free_lists_ok(f),
        0 <= c < CLASS_COUNT,
        can_alloc(f, c),
        ({
            let i = first_free_class(f, c);
            i == CLASS_COUNT as int - 1
                || !f[i].contains((buddy_of(f[i].last() as int, i as nat)) as usize)
        }),
    ensures
        dealloc_free_lists(alloc_free_lists(f, c), alloc_block(f, c), c) == f,
{
    lemma_first_free_props(f, c);
    let i = first_free_class(f, c);
    let b = alloc_block(f, c);
    let g = alloc_free_lists(f, c);
    let g1 = g.update(c, g[c].push(b));
    assert(g1 =~= split_state(f, b, i, c)) by {
        if c == i {
            assert(g[c].push(b) == f[i].drop_last().push(b));
        } else {
            assert(g[c].push(b) == f[c].push((b + pow2(c as nat)) as usize).push(b));
        }
    }
    lemma_merge_unsplits(f, b, i, c);
}

/// The byte ranges of blocks `(a1, c1)` and `(a2, c2)` do not overlap.
pub open spec fn blocks_disjoint(a1: usize, c1: int, a2: usize, c2: int) -> bool {
    a1 + pow2(c1 as nat) <= a2 || a2 + pow2(c2 as nat) <= a1
}

/// No two free blocks overlap: blocks at distinct positions of the free
/// lists occupy disjoint byte ranges.
pub open spec fn free_disjoint(f: Seq<Seq<usize>>) -> bool {
    forall|c1: int, k1: int, c2: int, k2: int|
        0 <= c1 < f.len() && 0 <= k1 < f[c1].len() && 0 <= c2 < f.len()
            && 0 <= k2 < f[c2].len() && !(c1 == c2 && k1 == k2)
            ==> blocks_disjoint(#[trigger] f[c1][k1], c1, #[trigger] f[c2][k2], c2)
}

/// The block `(a, c)` overlaps no free block of `f`.
pub open spec fn block_free_disjoint(f: Seq<Seq<usize>>, a: usize, c: int) -> bool {
    forall|c2: int, k2: int|
        0 <= c2 < f.len() && 0 <= k2 < f[c2].len()
            ==> blocks_disjoint(a, c, #[trigger] f[c2][k2], c2)
}

/// Disjointness law for registration: carving a range that overlaps no free
/// block keeps all free blocks pairwise disjoint (the carved blocks tile
/// disjoint pieces of the new range).
pub proof fn lemma_carve_keeps_disjoint(f: Seq<Seq<usize>>, a: int, e: int)
    requires
        f.len() == CLASS_COUNT,
        free_disjoint(f),
        0 <= a,
        a % (WORD_SIZE as int) == 0,
        e <= usize::MAX + 1,
        // the range being registered overlaps no block already free
        forall|c2: int, k2: int|
            0 <= c2 < f.len() && 0 <= k2 < #[trigger] f[c2].len()
                ==> (f[c2][k2] + pow2(c2 as nat) <= a || e <= #[trigger] f[c2][k2]),
    ensures
        free_disjoint(carve_free_lists(f, a, e)),
    decreases e - a,
{
    if e - a >= WORD_SIZE as int {
        let s = carve_size(a, e);
        lemma_pow2_is_power_of_two(0);
        assert(pow2(0) == 1) by { lemma2_to64(); }
        assert(a % 1int == 0) by { lemma_fundamental_div_mod(a, 1); }
        lemma_carve_from_props(a, e, 1);
        lemma_size_word_multiple(a, e, s);
        let s1 = if 1 <= s && s <= e - a { s } else { 1 };
        assert(s1 == s);
        let c = log2(s) as int;
        assert(pow2(c as nat) == s);
        assert(c < CLASS_COUNT as int) by {
            assert(pow2(31) == 0x8000_0000) by { lemma2_to64(); }
            if c >= CLASS_COUNT as int {
                lemma_pow2_strictly_increases(31, c as nat);
            }
        }
        let g = f.update(c, f[c].push(a as usize));
        // The new block occupies [a, a + s), inside the range and away from
        // every block free so far.
        assert(free_disjoint(g)) by {
            assert forall|c1: int, k1: int, c2: int, k2: int|
                0 <= c1 < g.len() && 0 <= k1 < g[c1].len() && 0 <= c2 < g.len()
                    && 0 <= k2 < g[c2].len() && !(c1 == c2 && k1 == k2)
                implies blocks_disjoint(#[trigger] g[c1][k1], c1, #[trigger] g[c2][k2], c2) by {
                if c1 == c && k1 == f[c].len() {
                    if !(c2 == c && k2 == f[c].len()) {
                        assert(g[c2][k2] == f[c2][k2]);
                    }
                } else if c2 == c && k2 == f[c].len() {
                    assert(g[c1][k1] == f[c1][k1]);
                } else {
                    assert(g[c1][k1] == f[c1][k1] && g[c2][k2] == f[c2][k2]);
                }
            }
        }
        assert forall|c2: int, k2: int|
            0 <= c2 < g.len() && 0 <= k2 < #[trigger] g[c2].len()
            implies (g[c2][k2] + pow2(c2 as nat) <= a + s || e <= #[trigger] g[c2][k2]) by {
            if c2 == c && k2 == f[c].len() {
                assert(g[c2][k2] == a as usize);
            } else {
                assert(g[c2][k2] == f[c2][k2]);
            }
        }
        lemma_carve_keeps_disjoint(g, a + s, e);
    }
}

/// Disjointness law for allocation: serving a request of class `c` keeps
/// the free blocks pairwise disjoint, and the block handed out overlaps
/// none of them — the upper halves the split leaves behind tile the upper
/// part of the block the split took.
pub proof fn lemma_alloc_keeps_disjoint(f: Seq<Seq<usize>>, c: int)
    requires
        f.len() == CLASS_COUNT,
        free_lists_ok(f),
        free_disjoint(f),
        0 <= c < CLASS_COUNT,
        can_alloc(f, c),
    ensures
        free_disjoint(alloc_free_lists(f, c)),
        block_free_disjoint(alloc_free_lists(f, c), alloc_block(f, c), c),
{
    lemma_first_free_props(f, c);
    let i = first_free_class(f, c);
    let b = alloc_block(f, c);
    let g = alloc_free_lists(f, c);
    assert(block_ok(b, i));
    lemma_pow2_pos(i as nat);
    // Every piece the split creates lies inside the block it took apart.
    assert forall|x: int| c <= x < i implies b + #[trigger] pow2(x as nat) + pow2(x as nat)
        <= b + pow2(i as nat) by {
        lemma_pow2_succ(x as nat);
        lemma_pow2_le((x + 1) as nat, i as nat);
    }
    assert(pow2(c as nat) <= pow2(i as nat)) by { lemma_pow2_le(c as nat, i as nat); }
    // A fresh piece and an old block never overlap: the old block avoids the
    // whole parent, which contains the piece.
    assert forall|x: int, c2: int, k2: int|
        c <= x < i && 0 <= c2 < CLASS_COUNT as int && 0 <= k2 < f[c2].len()
            && !(c2 == i && k2 == f[i].len() - 1)
        implies ((b + #[trigger] pow2(x as nat)) as usize) + pow2(x as nat)
            <= #[trigger] f[c2][k2]
            || f[c2][k2] + pow2(c2 as nat) <= (b + pow2(x as nat)) as usize by {
        assert(blocks_disjoint(f[i][f[i].len() - 1], i, f[c2][k2], c2));
        lemma_pow2_succ(x as nat);
        lemma_pow2_le((x + 1) as nat, i as nat);
    }
    assert(free_disjoint(g)) by {
        assert forall|c1: int, k1: int, c2: int, k2: int|
            0 <= c1 < g.len() && 0 <= k1 < g[c1].len() && 0 <= c2 < g.len()
                && 0 <= k2 < g[c2].len() && !(c1 == c2 && k1 == k2)
            implies blocks_disjoint(#[trigger] g[c1][k1], c1, #[trigger] g[c2][k2], c2) by {
            let n1 = c <= c1 < i && k1 == f[c1].len();
            let n2 = c <= c2 < i && k2 == f[c2].len();
            if n1 && n2 {
                // two fresh upper halves: nested powers of two stack up
                assert(g[c1][k1] == (b + pow2(c1 as nat)) as usize);
                assert(g[c2][k2] == (b + pow2(c2 as nat)) as usize);
                if c1 < c2 {
                    lemma_pow2_succ(c1 as nat);
                    lemma_pow2_le((c1 + 1) as nat, c2 as nat);
                } else {
                    lemma_pow2_succ(c2 as nat);
                    lemma_pow2_le((c2 + 1) as nat, c1 as nat);
                }
            } else if n1 {
                assert(g[c2][k2] == f[c2][k2]);
                assert(!(c2 == i && k2 == f[i].len() - 1));
            } else if n2 {
                assert(g[c1][k1] == f[c1][k1]);
                assert(!(c1 == i && k1 == f[i].len() - 1));
            } else {
                assert(g[c1][k1] == f[c1][k1] && g[c2][k2] == f[c2][k2]);
            }
        }
    }
    assert(block_free_disjoint(g, b, c)) by {
        assert forall|c2: int, k2: int|
            0 <= c2 < g.len() && 0 <= k2 < g[c2].len()
            implies blocks_disjoint(b, c, #[trigger] g[c2][k2], c2) by {
            if c <= c2 < i && k2 == f[c2].len() {
                assert(g[c2][k2] == (b + pow2(c2 as nat)) as usize);
                assert(pow2(c as nat) <= pow2(c2 as nat)) by {
                    lemma_pow2_le(c as nat, c2 as nat);
                }
            } else {
                assert(g[c2][k2] == f[c2][k2]);
                assert(!(c2 == i && k2 == f[i].len() - 1));
                assert(blocks_disjoint(f[i][f[i].len() - 1], i, f[c2][k2], c2));
            }
        }
    }
}

/// A block disjoint from both halves of a parent block is disjoint from the
/// parent: the parent's range is exactly the union of its halves' ranges.
proof fn lemma_disjoint_from_both_halves(z: usize, cz: int, nb: usize, c: int)
    requires
        0 <= cz,
        0 <= c,
        blocks_disjoint(z, cz, nb, c),
        blocks_disjoint(z, cz, (nb + pow2(c as nat)) as usize, c),
        nb + pow2(c as nat) + pow2(c as nat) <= usize::MAX + 1,
    ensures
        blocks_disjoint(z, cz, nb, c + 1),
{
    lemma_pow2_pos(c as nat);
    lemma_pow2_pos(cz as nat);
    lemma_pow2_succ(c as nat);
}

/// Disjointness law for coalescing: merging a freed block upward keeps the
/// free blocks pairwise disjoint — each step removes two adjacent buddies
/// and adds the one block that is exactly their union.
proof fn lemma_merge_keeps_disjoint(f: Seq<Seq<usize>>, cur: usize, c: int)
    requires
        f.len() == CLASS_COUNT,
        free_lists_ok(f),
        free_disjoint(f),
        0 <= c < CLASS_COUNT,
        f[c].len() > 0,
        f[c].last() == cur,
    ensures
        free_disjoint(merge_free_lists(f, cur, c)),
    decreases CLASS_COUNT as int - c,
{
    let bd = buddy_of(cur as int, c as nat);
    if 0 <= c < CLASS_COUNT as int - 1 && f[c].len() > 0 && f[c].last() == cur
        && 0 <= bd <= usize::MAX && f[c].drop_last().contains(bd as usize) {
        let bdu = bd as usize;
        let t = f[c].drop_last();
        let l = remove_head_occurrence(t, bdu);
        let nb = if cur as int <= bd { cur } else { bdu };
        let f2 = f.update(c, l).update(c + 1, f[c + 1].push(nb));
        let m = pow2(c as nat) as int;

        crate::linked_list::lemma_remove_is_remove_at(t, bdu);
        let idx = choose|idx: int|
            0 <= idx < t.len() && t[idx] == bdu && l == t.remove(idx);
        assert(f[c][idx] == bdu);
        let top = f[c].len() - 1;
        assert(f[c][top] == cur);
        assert(block_ok(cur, c));
        assert(block_ok(bdu, c));
        lemma_pow2_pos(c as nat);
        lemma_pow2_succ(c as nat);
        lemma_mod_pow2_split(cur as int, c as nat);

        // The pair {cur, buddy} is {nb, nb + 2^c}, and their union is the
        // block of the next class at nb, which is aligned to it and fits.
        assert(bdu != cur);
        assert((nb == cur && bdu as int == nb + m) || (nb == bdu && cur as int == nb + m)) by {
            if (cur as int) % (pow2((c + 1) as nat) as int) == 0 {
                assert(bd == cur + m);
            } else {
                assert((cur as int) % (pow2((c + 1) as nat) as int) == m);
                assert(bd == cur - m);
            }
        }
        assert(block_ok(nb, c + 1)) by {
            if (cur as int) % (pow2((c + 1) as nat) as int) == 0 {
                assert(nb == cur);
            } else {
                assert((cur as int) % (pow2((c + 1) as nat) as int) == m);
                assert(nb == bdu && bdu as int == cur - m);
                lemma_small_mod(pow2(c as nat), pow2((c + 1) as nat));
                lemma_sub_mod_noop(cur as int, m, pow2((c + 1) as nat) as int);
                lemma_small_mod(0nat, pow2((c + 1) as nat));
            }
        }

        // Every surviving block of class c comes from a position of f[c]
        // other than the two that merged.
        assert(l.len() == t.len() - 1);
        assert forall|k: int| 0 <= k < l.len()
            implies exists|sk: int|
                0 <= sk < f[c].len() - 1 && sk != idx && #[trigger] l[k] == f[c][sk] by {
            let sk = if k < idx { k } else { k + 1 };
            assert(l[k] == t[sk]);
            assert(t[sk] == f[c][sk]);
        }

        assert(free_lists_ok(f2)) by {
            assert forall|c2: int, k2: int|
                0 <= c2 < f2.len() && 0 <= k2 < f2[c2].len()
                implies block_ok(#[trigger] f2[c2][k2], c2) by {
                if c2 == c {
                    let sk = choose|sk: int|
                        0 <= sk < f[c].len() - 1 && sk != idx && l[k2] == f[c][sk];
                    assert(block_ok(f[c][sk], c));
                } else if c2 == c + 1 && k2 == f[c + 1].len() {
                    assert(f2[c2][k2] == nb);
                } else {
                    assert(f2[c2][k2] == f[c2][k2]);
                }
            }
        }

        assert(free_disjoint(f2)) by {
            assert forall|c1: int, k1: int, c2: int, k2: int|
                0 <= c1 < f2.len() && 0 <= k1 < f2[c1].len() && 0 <= c2 < f2.len()
                    && 0 <= k2 < f2[c2].len() && !(c1 == c2 && k1 == k2)
                implies blocks_disjoint(#[trigger] f2[c1][k1], c1, #[trigger] f2[c2][k2], c2)
            by {
                let new1 = c1 == c + 1 && k1 == f[c + 1].len();
                let new2 = c2 == c + 1 && k2 == f[c + 1].len();
                if new1 || new2 {
                    // one side is the merged block: the other survives from
                    // f, where it avoided both halves.
                    let cz = if new1 { c2 } else { c1 };
                    let kz = if new1 { k2 } else { k1 };
                    let (sc, sk): (int, int) = if cz == c {
                        let sk = choose|sk: int|
                            0 <= sk < f[c].len() - 1 && sk != idx && l[kz] == f[c][sk];
                        (c, sk)
                    } else {
                        (cz, kz)
                    };
                    let z = f[sc][sk];
                    assert(f2[cz][kz] == z);
                    assert(!(sc == c && sk == top));
                    assert(!(sc == c && sk == idx));
                    assert(blocks_disjoint(z, sc, cur, c)) by {
                        assert(blocks_disjoint(f[sc][sk], sc, f[c][top], c));
                    }
                    assert(blocks_disjoint(z, sc, bdu, c)) by {
                        assert(blocks_disjoint(f[sc][sk], sc, f[c][idx], c));
                    }
                    assert(blocks_disjoint(z, cz, nb, c)
                        && blocks_disjoint(z, cz, (nb + pow2(c as nat)) as usize, c));
                    lemma_disjoint_from_both_halves(z, cz, nb, c);
                } else {
                    // both sides survive from f at distinct positions.
                    let (s1c, s1k): (int, int) = if c1 == c {
                        let sk = choose|sk: int|
                            0 <= sk < f[c].len() - 1 && sk != idx && l[k1] == f[c][sk];
                        (c, sk)
                    } else {
                        (c1, k1)
                    };
                    let (s2c, s2k): (int, int) = if c2 == c {
                        let sk = choose|sk: int|
                            0 <= sk < f[c].len() - 1 && sk != idx && l[k2] == f[c][sk];
                        (c, sk)
                    } else {
                        (c2, k2)
                    };
                    assert(f2[c1][k1] == f[s1c][s1k]);
                    assert(f2[c2][k2] == f[s2c][s2k]);
                    assert(!(s1c == s2c && s1k == s2k)) by {
                        if c1 == c && c2 == c && s1k == s2k {
                            // distinct positions of l come from distinct
                            // positions of t; two equal addresses at distinct
                            // positions would overlap themselves
                            lemma_remove_injective(t, idx, k1, k2);
                        }
                    }
                    assert(blocks_disjoint(f[s1c][s1k], s1c, f[s2c][s2k], s2c));
                }
            }
        }

        assert(f2[c + 1].len() > 0);
        assert(f2[c + 1].last() == nb);
        lemma_merge_keeps_disjoint(f2, nb, c + 1);
        assert(merge_free_lists(f, cur, c) == merge_free_lists(f2, nb, c + 1));
    }
}

/// Two distinct positions of a sequence with one position removed come from
/// two distinct positions of the original.
proof fn lemma_remove_injective(t: Seq<usize>, idx: int, k1: int, k2: int)
    requires
        0 <= idx < t.len(),
        0 <= k1 < t.len() - 1,
        0 <= k2 < t.len() - 1,
        k1 != k2,
    ensures
        t.remove(idx)[k1] == t[if k1 < idx { k1 } else { k1 + 1 }],
        t.remove(idx)[k2] == t[if k2 < idx { k2 } else { k2 + 1 }],
        (if k1 < idx { k1 } else { k1 + 1 }) != (if k2 < idx { k2 } else { k2 + 1 }),
{
}

/// Disjointness law for deallocation: freeing a block that overlaps no free
/// block keeps all free blocks pairwise disjoint through every merge.
pub proof fn lemma_dealloc_keeps_disjoint(f: Seq<Seq<usize>>, addr: usize, c: int)
    requires
        f.len() == CLASS_COUNT,
        free_lists_ok(f),
        free_disjoint(f),
        0 <= c < CLASS_COUNT,
        block_ok(addr, c),
        block_free_disjoint(f, addr, c),
    ensures
        free_disjoint(dealloc_free_lists(f, addr, c)),
{
    let f1 = f.update(c, f[c].push(addr));
    assert(free_lists_ok(f1)) by {
        assert forall|c2: int, k2: int|
            0 <= c2 < f1.len() && 0 <= k2 < f1[c2].len()
            implies block_ok(#[trigger] f1[c2][k2], c2) by {
            if c2 == c && k2 == f[c].len() {
                assert(f1[c2][k2] == addr);
            } else {
                assert(f1[c2][k2] == f[c2][k2]);
            }
        }
    }
    assert(free_disjoint(f1)) by {
        assert forall|c1: int, k1: int, c2: int, k2: int|
            0 <= c1 < f1.len() && 0 <= k1 < f1[c1].len() && 0 <= c2 < f1.len()
                && 0 <= k2 < f1[c2].len() && !(c1 == c2 && k1 == k2)
            implies blocks_disjoint(#[trigger] f1[c1][k1], c1, #[trigger] f1[c2][k2], c2)
        by {
            let new1 = c1 == c && k1 == f[c].len();
            let new2 = c2 == c && k2 == f[c].len();
            if new1 {
                assert(f1[c2][k2] == f[c2][k2]);
                assert(blocks_disjoint(addr, c, f[c2][k2], c2));
            } else if new2 {
                assert(f1[c1][k1] == f[c1][k1]);
                assert(blocks_disjoint(addr, c, f[c1][k1], c1));
            } else {
                assert(f1[c1][k1] == f[c1][k1] && f1[c2][k2] == f[c2][k2]);
            }
        }
    }
    lemma_merge_keeps_disjoint(f1, addr, c);
}

impl Heap {
    /// Alignment law: in a well-formed heap, every address present in
    /// free-list class `c` is a multiple of the class's block size `2^c`.
    pub proof fn lemma_free_block_alignment(&self, c: int, k: int)
        requires
            self.wf(),
            0 <= c < CLASS_COUNT,
            0 <= k < self.free_model()[c].len(),
        ensures
            (self.free_model()[c][k] as int) % (pow2(c as nat) as int) == 0,
    {
    }

    /// Conservation law: in a well-formed heap (any quiescent point), the
    /// bytes ever registered equal the bytes on the free lists plus the
    /// bytes currently handed out.
    pub proof fn lemma_conservation(&self)
        requires
            self.wf(),
        ensures
            self.spec_total() == free_bytes(self.free_model()) + self.spec_allocated(),
    {
    }
}

/// One call's effect on the user counter, as the statistics see it: a
/// served allocation adds the size it was asked for, a matching
/// deallocation takes the same size back, and anything else (a failed
/// allocation, a range registration) leaves the counter alone.
pub enum StatsOp {
    Serve { size: usize },
    Free { size: usize },
    Other,
}

/// The counter movement of one call.
pub open spec fn user_delta(op: StatsOp) -> int {
    match op {
        StatsOp::Serve { size } => size as int,
        StatsOp::Free { size } => -(size as int),
        StatsOp::Other => 0,
    }
}

/// Sizes passed to served allocations minus sizes passed to matching
/// deallocations, over a series of calls.
pub open spec fn net_requested(ops: Seq<StatsOp>) -> int
    decreases ops.len(),
{
    if ops.len() == 0 {
        0
    } else {
        net_requested(ops.drop_last()) + user_delta(ops.last())
    }
}

/// Statistics law: across any series of calls, the user counter reads its
/// starting value plus the sum of the sizes passed to served allocations
/// minus those passed to matching deallocations.  The step hypothesis is
/// exactly what `allocate` and `dealloc` ensure of `spec_user`, and
/// `stats_alloc_user` returns that counter.
pub proof fn lemma_user_counter_is_net_requested(users: Seq<int>, ops: Seq<StatsOp>)
    requires
        users.len() == ops.len() + 1,
        forall|k: int| 0 <= k < ops.len()
            ==> users[k + 1] == users[k] + user_delta(#[trigger] ops[k]),
    ensures
        users.last() == users[0] + net_requested(ops),
    decreases ops.len(),
{
    if ops.len() > 0 {
        let n = ops.len() as int;
        lemma_user_counter_is_net_requested(users.drop_last(), ops.drop_last());
        assert(users.drop_last().last() == users[n - 1]);
        assert(users[n] == users[n - 1] + user_delta(ops[n - 1]));
    }
}
} // verus!
