//! A segregated-fit slab allocator over a single arena, and the laws its
//! operations obey.
use vstd::prelude::*;

use crate::util::{align_up, is_pow2, lemma_pow2_bits, pow2_bits};

verus! {

/// Size of the region carved out of the bump tail to refill one class.
pub const CHUNK_SIZE: usize = 4096;

/// Number of size classes.
pub const NUM_CLASSES: usize = 10;

/// Block size of class `k`: 8, 16, 32, ... 4096.
pub open spec fn class_size(k: nat) -> nat
    decreases k,
{
    if k == 0 {
        8
    } else {
        2 * class_size((k - 1) as nat)
    }
}

/// The class that serves a request needing `need` bytes: the first whose
/// block size is at least `need`, looking from class `k` on.
pub open spec fn class_from(need: nat, k: nat) -> Option<nat>
    decreases NUM_CLASSES - k,
{
    if k >= NUM_CLASSES {
        None
    } else if need <= class_size(k) {
        Some(k)
    } else {
        class_from(need, k + 1)
    }
}

/// The class that serves a request of `size` bytes aligned to `align`;
/// `None` for a large request.
pub open spec fn class_for(size: nat, align: nat) -> Option<nat> {
    class_from(
        if size < align {
            align
        } else {
            size
        },
        0,
    )
}

/// The smallest multiple of `a` that is at least `x`.
pub open spec fn round_up(x: nat, a: nat) -> nat {
    if a == 0 {
        x
    } else {
        ((x + a - 1) as int / a as int * a as int) as nat
    }
}

/// What an allocator holds: its arena, its bump cursor and one LIFO stack
/// of free block addresses per class (the last element is the head).
#[verifier::ext_equal]
pub struct SlabView {
    pub heap_start: nat,
    pub heap_end: nat,
    pub bump: nat,
    pub free: Seq<Seq<usize>>,
    pub initialized: bool,
}

/// The addresses of the blocks of class `k` in the chunk at `c`, lowest
/// first.
pub open spec fn chunk_blocks(c: nat, k: nat) -> Seq<usize> {
    Seq::new(
        (CHUNK_SIZE as nat / class_size(k)) as nat,
        |i: int| (c + i * class_size(k)) as usize,
    )
}

/// Bump allocation of `size` bytes aligned to `align`: the block start and
/// the new cursor, or `None` when the tail is too short.
pub open spec fn bump_spec(s: SlabView, size: nat, align: nat) -> Option<(nat, nat)> {
    let start = round_up(s.bump, align);
    if s.bump + align - 1 > usize::MAX || start + size > s.heap_end {
        None
    } else {
        Some((start, start + size))
    }
}

/// The address `alloc` returns (0 when it fails) and the allocator after.
pub open spec fn alloc_spec(s: SlabView, size: nat, align: nat) -> (usize, SlabView) {
    if !s.initialized {
        (0, s)
    } else {
        match class_for(size, align) {
            Some(k) => {
                let fl = s.free[k as int];
                if fl.len() > 0 {
                    (fl.last(), SlabView { free: s.free.update(k as int, fl.drop_last()), ..s })
                } else {
                    match bump_spec(s, CHUNK_SIZE as nat, CHUNK_SIZE as nat) {
                        None => (0, s),
                        Some((c, nb)) => {
                            let blocks = chunk_blocks(c, k);
                            (
                                blocks.last(),
                                SlabView {
                                    bump: nb,
                                    free: s.free.update(k as int, blocks.drop_last()),
                                    ..s
                                },
                            )
                        },
                    }
                }
            },
            None => match bump_spec(s, size, align) {
                None => (0, s),
                Some((a, nb)) => (a as usize, SlabView { bump: nb, ..s }),
            },
        }
    }
}

/// The allocator after `dealloc`: a small block goes on top of its class's
/// stack; a null pointer, a large block or an uninitialized allocator
/// changes nothing.
pub open spec fn dealloc_spec(s: SlabView, ptr: usize, size: nat, align: nat) -> SlabView {
    if ptr == 0 || !s.initialized {
        s
    } else {
        match class_for(size, align) {
            Some(k) => SlabView { free: s.free.update(k as int, s.free[k as int].push(ptr)), ..s },
            None => s,
        }
    }
}

/// Before `init` every allocation fails and changes nothing.
pub proof fn lemma_uninitialized_returns_null(s: SlabView, size: nat, align: nat)
    requires
        !s.initialized,
    ensures
        alloc_spec(s, size, align) == (0usize, s),
{
}

/// Freed blocks of one class come back in reverse order of their freeing:
/// free `p`, free `q`, then two allocations of that class give `q`, then
/// `p`.
pub proof fn lemma_lifo_reuse(s: SlabView, p: usize, q: usize, size: nat, align: nat)
    requires
        slab_ok(s),
        s.initialized,
        p != 0,
        q != 0,
        class_for(size, align).is_some(),
    ensures
        ({
            let s2 = dealloc_spec(dealloc_spec(s, p, size, align), q, size, align);
            let a1 = alloc_spec(s2, size, align);
            let a2 = alloc_spec(a1.1, size, align);
            a1.0 == q && a2.0 == p
        }),
{
    let k = class_for(size, align)->Some_0;
    lemma_class_from_bound(if size < align { align } else { size }, 0);
    let s2 = dealloc_spec(dealloc_spec(s, p, size, align), q, size, align);
    assert(s2.free[k as int] == s.free[k as int].push(p).push(q));
    let a1 = alloc_spec(s2, size, align);
    assert(s.free[k as int].push(p).push(q).drop_last() =~= s.free[k as int].push(p));
    assert(a1.1.free[k as int] == s.free[k as int].push(p));
    assert(s.free[k as int].push(p).drop_last() =~= s.free[k as int]);
}

/// Class `k` is exhausted: its stack is empty and the bump tail cannot
/// give another chunk.
pub open spec fn exhausted(s: SlabView, k: nat) -> bool {
    &&& k < s.free.len()
    &&& s.free[k as int].len() == 0
    &&& bump_spec(s, CHUNK_SIZE as nat, CHUNK_SIZE as nat).is_none()
}

/// Once its class is exhausted, an allocation fails and changes nothing, so
/// every later one fails as well until a block of that class is freed:
/// freeing into another class, and allocating in another class or a large
/// block, keep the class exhausted.
pub proof fn lemma_exhaustion(s: SlabView, size: nat, align: nat, ptr: usize, size2: nat, align2: nat)
    requires
        slab_ok(s),
        s.initialized,
        class_for(size, align).is_some(),
        exhausted(s, class_for(size, align)->Some_0),
        class_for(size2, align2) != class_for(size, align),
    ensures
        alloc_spec(s, size, align) == (0usize, s),
        exhausted(dealloc_spec(s, ptr, size2, align2), class_for(size, align)->Some_0),
        align2 > 0 ==> exhausted(alloc_spec(s, size2, align2).1, class_for(size, align)->Some_0),
{
    let k = class_for(size, align)->Some_0;
    lemma_class_from_bound(if size < align { align } else { size }, 0);
    lemma_class_from_bound(if size2 < align2 { align2 } else { size2 }, 0);
    if align2 > 0 {
        let u = alloc_spec(s, size2, align2).1;
        match class_for(size2, align2) {
            Some(k2) => {
                assert(u.bump == s.bump && u.heap_end == s.heap_end);
                assert(u.free[k as int] == s.free[k as int]);
                assert(bump_spec(u, CHUNK_SIZE as nat, CHUNK_SIZE as nat) == bump_spec(
                    s,
                    CHUNK_SIZE as nat,
                    CHUNK_SIZE as nat,
                ));
            },
            None => {
                assert(u.free == s.free && u.heap_end == s.heap_end);
                assert(u.bump >= s.bump) by {
                    lemma_round_up_multiple(s.bump, align2);
                }
                lemma_round_up_monotonic(s.bump, u.bump, 4096);
            },
        }
    }
    lemma_class_from_bound(if size2 < align2 { align2 } else { size2 }, 0);
    let t = dealloc_spec(s, ptr, size2, align2);
    assert(t.free[k as int] == s.free[k as int]);
    assert(t.bump == s.bump && t.heap_end == s.heap_end);
    assert(bump_spec(t, CHUNK_SIZE as nat, CHUNK_SIZE as nat) == bump_spec(
        s,
        CHUNK_SIZE as nat,
        CHUNK_SIZE as nat,
    ));
}

/// Rounding up keeps order.
proof fn lemma_round_up_monotonic(x: nat, y: nat, a: nat)
    requires
        x <= y,
        a > 0,
    ensures
        round_up(x, a) <= round_up(y, a),
{
    vstd::arithmetic::div_mod::lemma_div_is_ordered((x + a - 1) as int, (y + a - 1) as int, a as int);
    let qx = (x + a - 1) as int / a as int;
    let qy = (y + a - 1) as int / a as int;
    assert(qx * a <= qy * a) by (nonlinear_arith)
        requires
            qx <= qy,
            a > 0,
    ;
}

/// `r` and `a` are powers of two with `a <= r`: `a` divides `r`.
proof fn lemma_pow2_divides(r: usize, a: usize)
    requires
        pow2_bits(r),
        pow2_bits(a),
        a <= r,
    ensures
        r % a == 0,
{
    assert(r & ((a - 1) as usize) == 0) by (bit_vector)
        requires
            r != 0,
            r & ((r - 1) as usize) == 0,
            a != 0,
            a & ((a - 1) as usize) == 0,
            a <= r,
    ;
    crate::util::lemma_masked_is_multiple(r, a);
}

/// Every class size is a power of two.
proof fn lemma_class_pow2(k: nat)
    requires
        k < NUM_CLASSES,
    ensures
        pow2_bits(class_size(k) as usize),
{
    lemma_class_table();
    assert(pow2_bits(8usize) && pow2_bits(16usize) && pow2_bits(32usize) && pow2_bits(64usize)
        && pow2_bits(128usize) && pow2_bits(256usize) && pow2_bits(512usize) && pow2_bits(1024usize)
        && pow2_bits(2048usize) && pow2_bits(4096usize)) by (bit_vector);
    assert(k == 0 || k == 1 || k == 2 || k == 3 || k == 4 || k == 5 || k == 6 || k == 7 || k == 8
        || k == 9);
}

proof fn lemma_round_up_multiple(x: nat, a: nat)
    requires
        a > 0,
    ensures
        round_up(x, a) % a == 0,
        round_up(x, a) >= x,
{
    let y = (x + a - 1) as int;
    vstd::arithmetic::div_mod::lemma_fundamental_div_mod(y, a as int);
    vstd::arithmetic::div_mod::lemma_mod_multiples_basic(y / a as int, a as int);
    assert((y / a as int) * a >= x) by (nonlinear_arith)
        requires
            y == x + a - 1,
            y == a * (y / a as int) + y % (a as int),
            y % (a as int) < a,
    ;
}

/// With room in the bump tail, an allocation after `init` succeeds and is
/// aligned as asked: a small request whose class has no free block takes a
/// fresh chunk, a large one the tail itself.
pub proof fn lemma_alloc_aligned(s: SlabView, size: nat, align: usize)
    requires
        slab_ok(s),
        free_aligned(s),
        s.initialized,
        s.heap_start > 0,
        is_pow2(align as nat),
        match class_for(size, align as nat) {
            Some(k) => s.free[k as int].len() > 0 || bump_spec(
                s,
                CHUNK_SIZE as nat,
                CHUNK_SIZE as nat,
            ).is_some(),
            None => bump_spec(s, size, align as nat).is_some(),
        },
    ensures
        alloc_spec(s, size, align as nat).0 != 0,
        alloc_spec(s, size, align as nat).0 % align == 0,
{
    let need = if size < align { align as nat } else { size };
    lemma_class_from_bound(need, 0);
    lemma_pow2_bits(align);
    match class_for(size, align as nat) {
        Some(k) if s.free[k as int].len() > 0 => {
            lemma_class_size_bound(k);
            lemma_class_pow2(k);
            let cls = class_size(k);
            let fl = s.free[k as int];
            let r = fl.last();
            assert(alloc_spec(s, size, align as nat).0 == r);
            assert(r as nat % cls == 0 && r >= s.heap_start);
            lemma_pow2_divides(cls as usize, align);
            let t = cls / align as nat;
            vstd::arithmetic::div_mod::lemma_fundamental_div_mod(cls as int, align as int);
            let q = r as nat / cls;
            vstd::arithmetic::div_mod::lemma_fundamental_div_mod(r as int, cls as int);
            assert(r == align * (t * q)) by (nonlinear_arith)
                requires
                    r == cls * q,
                    cls == align * t,
            ;
            vstd::arithmetic::div_mod::lemma_mod_multiples_basic((t * q) as int, align as int);
            assert((t * q) * align == r);
            assert(r % align == 0);
        },
        Some(k) => {
            lemma_class_size_bound(k);
            lemma_class_divides_chunk(k);
            lemma_class_pow2(k);
            let cls = class_size(k);
            let c = round_up(s.bump, 4096nat);
            lemma_round_up_multiple(s.bump, 4096);
            let n = (4096nat / cls) as nat;
            assert(n >= 1) by (nonlinear_arith)
                requires
                    cls * n == 4096,
            ;
            let r = c + (n - 1) * cls;
            assert(bump_spec(s, 4096, 4096) == Some((c, c + 4096)));
            assert(r < c + 4096) by (nonlinear_arith)
                requires
                    r == c + (n - 1) * cls,
                    cls * n == 4096,
                    n >= 1,
            ;
            assert(chunk_blocks(c, k).last() == r as usize);
            assert(alloc_spec(s, size, align as nat).0 == r);
            lemma_pow2_divides(cls as usize, align);
            let t = cls / align as nat;
            vstd::arithmetic::div_mod::lemma_fundamental_div_mod(cls as int, align as int);
            let m = c / 4096;
            vstd::arithmetic::div_mod::lemma_fundamental_div_mod(c as int, 4096);
            assert(r == align * (t * (n * m + n - 1))) by (nonlinear_arith)
                requires
                    r == c + (n - 1) * cls,
                    c == 4096 * m,
                    cls * n == 4096,
                    cls == align * t,
                    n >= 1,
            ;
            vstd::arithmetic::div_mod::lemma_mod_multiples_basic(
                (t * (n * m + n - 1)) as int,
                align as int,
            );
        },
        None => {
            lemma_round_up_multiple(s.bump, align as nat);
            let st = round_up(s.bump, align as nat);
            assert(alloc_spec(s, size, align as nat).0 == st);
        },
    }
}

/// Every free block sits in the arena at a multiple of its class size.
pub open spec fn free_aligned(s: SlabView) -> bool {
    forall|k: int, i: int|
        0 <= k < NUM_CLASSES && 0 <= i < s.free[k].len() ==> s.heap_start <= #[trigger] s.free[k][i]
            && (s.free[k][i] as nat) % class_size(k as nat) == 0
}

/// Allocation keeps the free blocks aligned.
pub proof fn lemma_free_aligned_alloc(s: SlabView, size: nat, align: nat)
    requires
        slab_ok(s),
        free_aligned(s),
    ensures
        free_aligned(alloc_spec(s, size, align).1),
{
    let need = if size < align { align } else { size };
    lemma_class_from_bound(need, 0);
    let t = alloc_spec(s, size, align).1;
    if s.initialized {
        match class_for(size, align) {
            Some(k) => {
                let k = k as int;
                if s.free[k].len() == 0 {
                    if let Some((c, nb)) = bump_spec(s, CHUNK_SIZE as nat, CHUNK_SIZE as nat) {
                        lemma_class_size_bound(k as nat);
                        lemma_class_divides_chunk(k as nat);
                        lemma_round_up_multiple(s.bump, 4096);
                        let cs = class_size(k as nat);
                        let blocks = chunk_blocks(c, k as nat);
                        let n = (4096nat / cs) as nat;
                        let m = c / 4096;
                        vstd::arithmetic::div_mod::lemma_fundamental_div_mod(c as int, 4096);
                        assert(n >= 1) by (nonlinear_arith)
                            requires
                                cs * n == 4096,
                        ;
                        assert(blocks.len() == n);
                        assert(t.free =~= s.free.update(k, blocks.drop_last()));
                        assert forall|k1: int, i1: int|
                            0 <= k1 < NUM_CLASSES && 0 <= i1 < t.free[k1].len() implies s.heap_start
                            <= #[trigger] t.free[k1][i1] && (t.free[k1][i1] as nat) % class_size(
                            k1 as nat,
                        ) == 0 by {
                            if k1 == k {
                                assert(c + 4096 <= s.heap_end);
                                assert(c + i1 * cs < c + 4096) by (nonlinear_arith)
                                    requires
                                        0 <= i1 < n,
                                        cs * n == 4096,
                                ;
                                assert(t.free[k1][i1] == blocks[i1]);
                                assert(t.free[k1][i1] as nat == c + i1 * cs);
                                assert(c + i1 * cs == cs * (n * m + i1)) by (nonlinear_arith)
                                    requires
                                        c == 4096 * m,
                                        cs * n == 4096,
                                ;
                                vstd::arithmetic::div_mod::lemma_mod_multiples_basic(
                                    n * m + i1,
                                    cs as int,
                                );
                            } else {
                                assert(t.free[k1][i1] == s.free[k1][i1]);
                            }
                        }
                    }
                } else {
                    assert(t.free =~= s.free.update(k, s.free[k].drop_last()));
                    assert forall|k1: int, i1: int|
                        0 <= k1 < NUM_CLASSES && 0 <= i1 < t.free[k1].len() implies s.heap_start
                        <= #[trigger] t.free[k1][i1] && (t.free[k1][i1] as nat) % class_size(
                        k1 as nat,
                    ) == 0 by {
                        assert(t.free[k1][i1] == s.free[k1][i1]);
                    }
                }
            },
            None => {},
        }
    }
}

/// Freeing keeps the free blocks aligned when the block returned sits in
/// the arena at a multiple of its class size, as every block of that class
/// handed out does.
pub proof fn lemma_free_aligned_dealloc(s: SlabView, ptr: usize, size: nat, align: nat)
    requires
        slab_ok(s),
        free_aligned(s),
        match class_for(size, align) {
            Some(k) => s.heap_start <= ptr && (ptr as nat) % class_size(k) == 0,
            None => true,
        },
    ensures
        free_aligned(dealloc_spec(s, ptr, size, align)),
{
    let need = if size < align { align } else { size };
    lemma_class_from_bound(need, 0);
    let t = dealloc_spec(s, ptr, size, align);
    if ptr != 0 && s.initialized {
        if let Some(k) = class_for(size, align) {
            let k = k as int;
            assert(t.free =~= s.free.update(k, s.free[k].push(ptr)));
            assert forall|k1: int, i1: int|
                0 <= k1 < NUM_CLASSES && 0 <= i1 < t.free[k1].len() implies s.heap_start
                <= #[trigger] t.free[k1][i1] && (t.free[k1][i1] as nat) % class_size(k1 as nat) == 0 by {
                if k1 != k || i1 < s.free[k].len() {
                    assert(t.free[k1][i1] == s.free[k1][i1]);
                }
            }
        }
    }
}

/// Two byte ranges, each given by its start and length, share no byte.
pub open spec fn apart(a: (nat, nat), b: (nat, nat)) -> bool {
    a.0 + a.1 <= b.0 || b.0 + b.1 <= a.0
}

/// The range of free block `i` of class `k`.
pub open spec fn free_block(s: SlabView, k: int, i: int) -> (nat, nat) {
    (s.free[k][i] as nat, class_size(k as nat))
}

/// Block isolation: every free block and every live block (`live`, the
/// ranges handed out and not yet returned) lies in the arena below the
/// cursor, and no two of them share a byte.
pub open spec fn isolated(s: SlabView, live: Seq<(nat, nat)>) -> bool {
    &&& forall|k: int, i: int|
        0 <= k < NUM_CLASSES && 0 <= i < s.free[k].len() ==> s.heap_start <= #[trigger] s.free[k][i]
            && s.free[k][i] + class_size(k as nat) <= s.bump
    &&& forall|j: int|
        0 <= j < live.len() ==> s.heap_start <= (#[trigger] live[j]).0 && live[j].0 + live[j].1
            <= s.bump
    &&& forall|k1: int, i1: int, k2: int, i2: int|
        0 <= k1 < NUM_CLASSES && 0 <= i1 < s.free[k1].len() && 0 <= k2 < NUM_CLASSES && 0 <= i2
            < s.free[k2].len() && (k1 != k2 || i1 != i2) ==> apart(
            #[trigger] free_block(s, k1, i1),
            #[trigger] free_block(s, k2, i2),
        )
    &&& forall|k: int, i: int, j: int|
        0 <= k < NUM_CLASSES && 0 <= i < s.free[k].len() && 0 <= j < live.len() ==> apart(
            #[trigger] free_block(s, k, i),
            #[trigger] live[j],
        )
    &&& forall|j1: int, j2: int|
        0 <= j1 < live.len() && 0 <= j2 < live.len() && j1 != j2 ==> apart(
            #[trigger] live[j1],
            #[trigger] live[j2],
        )
}

/// The range a successful allocation hands out: the whole block of its
/// class for a small request, the bytes asked for otherwise.
pub open spec fn handed_out(r: usize, size: nat, align: nat) -> (nat, nat) {
    match class_for(size, align) {
        Some(k) => (r as nat, class_size(k)),
        None => (r as nat, size),
    }
}

/// A fresh allocator with an arena has no block out and none free, so
/// both block invariants hold.
pub proof fn lemma_isolated_start(s: SlabView)
    requires
        slab_ok(s),
        forall|k: int| 0 <= k < NUM_CLASSES ==> (#[trigger] s.free[k]).len() == 0,
    ensures
        isolated(s, seq![]),
        free_aligned(s),
{
}

/// Isolation is kept by a successful allocation: the block handed out
/// shares no byte with any block still live.
pub proof fn lemma_isolated_alloc(s: SlabView, live: Seq<(nat, nat)>, size: nat, align: nat)
    requires
        slab_ok(s),
        isolated(s, live),
        align > 0,
        alloc_spec(s, size, align).0 != 0,
    ensures
        isolated(alloc_spec(s, size, align).1, live.push(handed_out(alloc_spec(s, size, align).0, size, align))),
{
    let need = if size < align { align } else { size };
    lemma_class_from_bound(need, 0);
    let (r, t) = alloc_spec(s, size, align);
    let nl = live.push(handed_out(r, size, align));
    match class_for(size, align) {
        Some(k) => {
            let k = k as int;
            lemma_class_size_bound(k as nat);
            let fl = s.free[k];
            if fl.len() > 0 {
                let last = fl.len() - 1;
                assert(t.free =~= s.free.update(k, fl.drop_last()));
                assert(nl.last() == free_block(s, k, last));
                assert forall|k1: int, i1: int|
                    0 <= k1 < NUM_CLASSES && 0 <= i1 < t.free[k1].len() implies free_block(t, k1, i1)
                    == free_block(s, k1, i1) by {}
                assert forall|j: int| 0 <= j < nl.len() implies s.heap_start <= (#[trigger] nl[j]).0
                    && nl[j].0 + nl[j].1 <= t.bump by {
                    if j == live.len() {
                        assert(s.free[k][last] == fl[last]);
                    }
                }
                assert forall|k1: int, i1: int, j: int|
                    0 <= k1 < NUM_CLASSES && 0 <= i1 < t.free[k1].len() && 0 <= j < nl.len() implies apart(
                    #[trigger] free_block(t, k1, i1),
                    #[trigger] nl[j],
                ) by {
                    assert(free_block(t, k1, i1) == free_block(s, k1, i1));
                    if j == live.len() {
                        assert(k1 != k || i1 != last);
                    } else {
                        assert(nl[j] == live[j]);
                    }
                }
                assert forall|j1: int, j2: int|
                    0 <= j1 < nl.len() && 0 <= j2 < nl.len() && j1 != j2 implies apart(
                    #[trigger] nl[j1],
                    #[trigger] nl[j2],
                ) by {
                    if j1 == live.len() {
                        assert(nl[j2] == live[j2]);
                    } else if j2 == live.len() {
                        assert(nl[j1] == live[j1]);
                    } else {
                        assert(nl[j1] == live[j1] && nl[j2] == live[j2]);
                    }
                }
                assert forall|k1: int, i1: int, k2: int, i2: int|
                    0 <= k1 < NUM_CLASSES && 0 <= i1 < t.free[k1].len() && 0 <= k2 < NUM_CLASSES && 0
                        <= i2 < t.free[k2].len() && (k1 != k2 || i1 != i2) implies apart(
                    #[trigger] free_block(t, k1, i1),
                    #[trigger] free_block(t, k2, i2),
                ) by {
                    assert(free_block(t, k1, i1) == free_block(s, k1, i1));
                    assert(free_block(t, k2, i2) == free_block(s, k2, i2));
                }
            } else {
                lemma_class_divides_chunk(k as nat);
                lemma_round_up_multiple(s.bump, 4096);
                let c = round_up(s.bump, 4096);
                let cs = class_size(k as nat);
                let n = (4096nat / cs) as nat;
                let blocks = chunk_blocks(c, k as nat);
                assert(n >= 1 && (n - 1) * cs + cs == 4096) by (nonlinear_arith)
                    requires
                        cs * n == 4096,
                ;
                assert(c + 4096 <= s.heap_end);
                assert(t.free =~= s.free.update(k, blocks.drop_last()));
                assert(t.bump == c + 4096);
                assert forall|i: int| 0 <= i < n implies #[trigger] blocks[i] as nat == c + i * cs
                    && c + i * cs + cs <= c + 4096 by {
                    assert(i * cs + cs <= (n - 1) * cs + cs) by (nonlinear_arith)
                        requires
                            0 <= i < n,
                            cs > 0,
                    ;
                }
                assert(nl.last() == (blocks[n - 1] as nat, cs));
                assert forall|a: int, b: int| 0 <= a < n && 0 <= b < n && a != b implies apart(
                    (#[trigger] blocks[a] as nat, cs),
                    (#[trigger] blocks[b] as nat, cs),
                ) by {
                    if a < b {
                        assert(a * cs + cs <= b * cs) by (nonlinear_arith)
                            requires
                                a < b,
                                cs > 0,
                        ;
                    } else {
                        assert(b * cs + cs <= a * cs) by (nonlinear_arith)
                            requires
                                b < a,
                                cs > 0,
                        ;
                    }
                }
                assert forall|k1: int, i1: int|
                    0 <= k1 < NUM_CLASSES && 0 <= i1 < t.free[k1].len() implies s.heap_start
                    <= #[trigger] t.free[k1][i1] && t.free[k1][i1] + class_size(k1 as nat) <= t.bump by {
                    if k1 != k {
                        assert(t.free[k1][i1] == s.free[k1][i1]);
                    } else {
                        assert(t.free[k1][i1] == blocks[i1]);
                    }
                }
                assert forall|j: int| 0 <= j < nl.len() implies s.heap_start <= (#[trigger] nl[j]).0
                    && nl[j].0 + nl[j].1 <= t.bump by {
                    if j < live.len() {
                        assert(nl[j] == live[j]);
                    }
                }
                assert forall|k1: int, i1: int, k2: int, i2: int|
                    0 <= k1 < NUM_CLASSES && 0 <= i1 < t.free[k1].len() && 0 <= k2 < NUM_CLASSES && 0
                        <= i2 < t.free[k2].len() && (k1 != k2 || i1 != i2) implies apart(
                    #[trigger] free_block(t, k1, i1),
                    #[trigger] free_block(t, k2, i2),
                ) by {
                    if k1 == k && k2 == k {
                        assert(free_block(t, k1, i1) == (blocks[i1] as nat, cs));
                        assert(free_block(t, k2, i2) == (blocks[i2] as nat, cs));
                    } else if k1 == k {
                        assert(free_block(t, k2, i2) == free_block(s, k2, i2));
                        assert(free_block(t, k1, i1).0 >= c);
                    } else if k2 == k {
                        assert(free_block(t, k1, i1) == free_block(s, k1, i1));
                        assert(free_block(t, k2, i2).0 >= c);
                    } else {
                        assert(free_block(t, k1, i1) == free_block(s, k1, i1));
                        assert(free_block(t, k2, i2) == free_block(s, k2, i2));
                    }
                }
                assert forall|k1: int, i1: int, j: int|
                    0 <= k1 < NUM_CLASSES && 0 <= i1 < t.free[k1].len() && 0 <= j < nl.len() implies apart(
                    #[trigger] free_block(t, k1, i1),
                    #[trigger] nl[j],
                ) by {
                    if j == live.len() {
                        if k1 == k {
                            assert(free_block(t, k1, i1) == (blocks[i1] as nat, cs));
                        } else {
                            assert(free_block(t, k1, i1) == free_block(s, k1, i1));
                        }
                    } else {
                        assert(nl[j] == live[j]);
                        if k1 == k {
                            assert(free_block(t, k1, i1).0 >= c);
                        } else {
                            assert(free_block(t, k1, i1) == free_block(s, k1, i1));
                        }
                    }
                }
                assert forall|j1: int, j2: int|
                    0 <= j1 < nl.len() && 0 <= j2 < nl.len() && j1 != j2 implies apart(
                    #[trigger] nl[j1],
                    #[trigger] nl[j2],
                ) by {
                    if j1 == live.len() {
                        assert(nl[j2] == live[j2]);
                    } else if j2 == live.len() {
                        assert(nl[j1] == live[j1]);
                    } else {
                        assert(nl[j1] == live[j1] && nl[j2] == live[j2]);
                    }
                }
            }
        },
        None => {
            lemma_round_up_multiple(s.bump, align);
            let st = round_up(s.bump, align);
            assert(t.free == s.free);
            assert(nl.last() == (st, size));
            assert forall|j: int| 0 <= j < nl.len() implies s.heap_start <= (#[trigger] nl[j]).0
                && nl[j].0 + nl[j].1 <= t.bump by {
                if j < live.len() {
                    assert(nl[j] == live[j]);
                }
            }
            assert forall|k1: int, i1: int, j: int|
                0 <= k1 < NUM_CLASSES && 0 <= i1 < t.free[k1].len() && 0 <= j < nl.len() implies apart(
                #[trigger] free_block(t, k1, i1),
                #[trigger] nl[j],
            ) by {
                assert(free_block(t, k1, i1) == free_block(s, k1, i1));
                if j < live.len() {
                    assert(nl[j] == live[j]);
                }
            }
            assert forall|j1: int, j2: int|
                0 <= j1 < nl.len() && 0 <= j2 < nl.len() && j1 != j2 implies apart(
                #[trigger] nl[j1],
                #[trigger] nl[j2],
            ) by {
                if j1 == live.len() {
                    assert(nl[j2] == live[j2]);
                } else if j2 == live.len() {
                    assert(nl[j1] == live[j1]);
                } else {
                    assert(nl[j1] == live[j1] && nl[j2] == live[j2]);
                }
            }
            assert forall|k1: int, i1: int, k2: int, i2: int|
                0 <= k1 < NUM_CLASSES && 0 <= i1 < t.free[k1].len() && 0 <= k2 < NUM_CLASSES && 0 <= i2
                    < t.free[k2].len() && (k1 != k2 || i1 != i2) implies apart(
                #[trigger] free_block(t, k1, i1),
                #[trigger] free_block(t, k2, i2),
            ) by {
                assert(free_block(t, k1, i1) == free_block(s, k1, i1));
                assert(free_block(t, k2, i2) == free_block(s, k2, i2));
            }
        },
    }
}

/// Isolation is kept when live block `j` is returned with the size and
/// alignment it was allocated with.
pub proof fn lemma_isolated_dealloc(
    s: SlabView,
    live: Seq<(nat, nat)>,
    j: int,
    size: nat,
    align: nat,
)
    requires
        slab_ok(s),
        s.initialized,
        isolated(s, live),
        0 <= j < live.len(),
        live[j].0 != 0,
        live[j].0 <= usize::MAX,
        live[j] == handed_out(live[j].0 as usize, size, align),
    ensures
        isolated(dealloc_spec(s, live[j].0 as usize, size, align), live.remove(j)),
{
    let need = if size < align { align } else { size };
    lemma_class_from_bound(need, 0);
    let ptr = live[j].0 as usize;
    let t = dealloc_spec(s, ptr, size, align);
    let nl = live.remove(j);
    assert forall|a: int| 0 <= a < nl.len() implies #[trigger] nl[a] == live[if a < j {
        a
    } else {
        a + 1
    }] by {}
    match class_for(size, align) {
        Some(k) => {
            let k = k as int;
            let fl = s.free[k];
            assert(t.free =~= s.free.update(k, fl.push(ptr)));
            assert(free_block(t, k, fl.len() as int) == live[j]);
            assert forall|k1: int, i1: int|
                0 <= k1 < NUM_CLASSES && 0 <= i1 < t.free[k1].len() && !(k1 == k && i1 == fl.len())
                    implies #[trigger] free_block(t, k1, i1) == free_block(s, k1, i1) by {}
            assert forall|k1: int, i1: int|
                0 <= k1 < NUM_CLASSES && 0 <= i1 < t.free[k1].len() implies s.heap_start
                <= #[trigger] t.free[k1][i1] && t.free[k1][i1] + class_size(k1 as nat) <= t.bump by {
                if k1 == k && i1 == fl.len() {
                } else {
                    assert(free_block(t, k1, i1) == free_block(s, k1, i1));
                }
            }
            assert forall|k1: int, i1: int, k2: int, i2: int|
                0 <= k1 < NUM_CLASSES && 0 <= i1 < t.free[k1].len() && 0 <= k2 < NUM_CLASSES && 0 <= i2
                    < t.free[k2].len() && (k1 != k2 || i1 != i2) implies apart(
                #[trigger] free_block(t, k1, i1),
                #[trigger] free_block(t, k2, i2),
            ) by {
                let new1 = k1 == k && i1 == fl.len();
                let new2 = k2 == k && i2 == fl.len();
                if new1 {
                    assert(free_block(t, k2, i2) == free_block(s, k2, i2));
                } else if new2 {
                    assert(free_block(t, k1, i1) == free_block(s, k1, i1));
                } else {
                    assert(free_block(t, k1, i1) == free_block(s, k1, i1));
                    assert(free_block(t, k2, i2) == free_block(s, k2, i2));
                }
            }
            assert forall|k1: int, i1: int, a: int|
                0 <= k1 < NUM_CLASSES && 0 <= i1 < t.free[k1].len() && 0 <= a < nl.len() implies apart(
                #[trigger] free_block(t, k1, i1),
                #[trigger] nl[a],
            ) by {
                let b = if a < j { a } else { a + 1 };
                assert(nl[a] == live[b]);
                if k1 == k && i1 == fl.len() {
                    assert(b != j);
                } else {
                    assert(free_block(t, k1, i1) == free_block(s, k1, i1));
                }
            }
        },
        None => {
            assert(t == s);
        },
    }
    assert forall|a: int| 0 <= a < nl.len() implies s.heap_start <= (#[trigger] nl[a]).0 && nl[a].0
        + nl[a].1 <= t.bump by {
        let b = if a < j { a } else { a + 1 };
        assert(nl[a] == live[b]);
    }
    assert forall|a1: int, a2: int|
        0 <= a1 < nl.len() && 0 <= a2 < nl.len() && a1 != a2 implies apart(
        #[trigger] nl[a1],
        #[trigger] nl[a2],
    ) by {
        let b1 = if a1 < j { a1 } else { a1 + 1 };
        let b2 = if a2 < j { a2 } else { a2 + 1 };
        assert(nl[a1] == live[b1] && nl[a2] == live[b2]);
    }
}

/// Distinct live allocations never share a byte.
pub proof fn lemma_live_blocks_disjoint(s: SlabView, live: Seq<(nat, nat)>, a: int, b: int)
    requires
        isolated(s, live),
        0 <= a < live.len(),
        0 <= b < live.len(),
        a != b,
    ensures
        apart(live[a], live[b]),
{
}

/// A segregated-fit allocator over one arena. It hands out addresses and
/// keeps its free lists as addresses; it never reads or writes the arena.
pub struct SlabAllocator {
    heap_start: usize,
    heap_end: usize,
    bump: usize,
    caches: Vec<Vec<usize>>,
    initialized: bool,
}

impl View for SlabAllocator {
    type V = SlabView;

    closed spec fn view(&self) -> SlabView {
        SlabView {
            heap_start: self.heap_start as nat,
            heap_end: self.heap_end as nat,
            bump: self.bump as nat,
            free: self.caches@.map_values(|c: Vec<usize>| c@),
            initialized: self.initialized,
        }
    }
}

/// The allocator's own consistency: one stack per class and the cursor
/// inside the arena.
pub open spec fn slab_ok(s: SlabView) -> bool {
    &&& s.free.len() == NUM_CLASSES
    &&& s.heap_start <= s.bump <= s.heap_end <= usize::MAX
}

proof fn lemma_class_from_bound(need: nat, k: nat)
    ensures
        match class_from(need, k) {
            Some(j) => k <= j < NUM_CLASSES && need <= class_size(j),
            None => true,
        },
    decreases NUM_CLASSES - k,
{
    if k < NUM_CLASSES && need > class_size(k) {
        lemma_class_from_bound(need, k + 1);
    }
}

/// The block sizes, class by class.
proof fn lemma_class_table()
    ensures
        class_size(0) == 8 && class_size(1) == 16 && class_size(2) == 32 && class_size(3) == 64
            && class_size(4) == 128 && class_size(5) == 256 && class_size(6) == 512 && class_size(
            7,
        ) == 1024 && class_size(8) == 2048 && class_size(9) == 4096 && class_size(10) == 8192,
{
    reveal_with_fuel(class_size, 11);
}

proof fn lemma_class_size_bound(k: nat)
    requires
        k <= NUM_CLASSES,
    ensures
        8 <= class_size(k) <= 8192,
        k < NUM_CLASSES ==> class_size(k) <= 4096,
{
    lemma_class_table();
    assert(k == 0 || k == 1 || k == 2 || k == 3 || k == 4 || k == 5 || k == 6 || k == 7 || k == 8
        || k == 9 || k == 10);
}

proof fn lemma_class_divides_chunk(k: nat)
    requires
        k < NUM_CLASSES,
    ensures
        class_size(k) * (CHUNK_SIZE as nat / class_size(k)) == CHUNK_SIZE,
{
    lemma_class_table();
    let c = class_size(k);
    assert(c == 8 || c == 16 || c == 32 || c == 64 || c == 128 || c == 256 || c == 512 || c
        == 1024 || c == 2048 || c == 4096) by {
        assert(k == 0 || k == 1 || k == 2 || k == 3 || k == 4 || k == 5 || k == 6 || k == 7 || k
            == 8 || k == 9);
    }
    if c == 8 {
        assert(4096nat / 8 == 512);
    } else if c == 16 {
        assert(4096nat / 16 == 256);
    } else if c == 32 {
        assert(4096nat / 32 == 128);
    } else if c == 64 {
        assert(4096nat / 64 == 64);
    } else if c == 128 {
        assert(4096nat / 128 == 32);
    } else if c == 256 {
        assert(4096nat / 256 == 16);
    } else if c == 512 {
        assert(4096nat / 512 == 8);
    } else if c == 1024 {
        assert(4096nat / 1024 == 4);
    } else if c == 2048 {
        assert(4096nat / 2048 == 2);
    } else if c == 4096 {
        assert(4096nat / 4096 == 1);
    }
}

/// `r`, a multiple of `a` in `[x, x + a)`, is `x` rounded up to `a`.
proof fn lemma_round_up(x: nat, a: nat, r: nat)
    requires
        a > 0,
        r % a == 0,
        x <= r < x + a,
    ensures
        r == round_up(x, a),
{
    let q = (r / a) as int;
    vstd::arithmetic::div_mod::lemma_fundamental_div_mod(r as int, a as int);
    let y = (x + a - 1) as int;
    vstd::arithmetic::div_mod::lemma_fundamental_div_mod(y, a as int);
    let qy = y / a as int;
    assert(qy == q) by (nonlinear_arith)
        requires
            r == a * q,
            x <= r,
            r < x + a,
            y == x + a - 1,
            y == a * qy + y % (a as int),
            0 <= y % (a as int) < a,
            a > 0,
    ;
}

impl SlabAllocator {
    /// The well-formedness the methods keep.
    pub closed spec fn wf(&self) -> bool {
        &&& self.caches@.len() == NUM_CLASSES
        &&& slab_ok(self@)
    }

    /// An allocator with no arena yet: every allocation fails until `init`.
    pub fn new() -> (r: Self)
        ensures
            r.wf(),
            !r@.initialized,
            r@.bump == 0,
            r@.heap_end == 0,
            forall|k: int| 0 <= k < NUM_CLASSES ==> (#[trigger] r@.free[k]).len() == 0,
    {
        let mut caches: Vec<Vec<usize>> = Vec::new();
        let mut k: usize = 0;
        while k < NUM_CLASSES
            invariant
                k <= NUM_CLASSES,
                caches@.len() == k,
                forall|j: int| 0 <= j < k ==> (#[trigger] caches@[j])@.len() == 0,
            decreases NUM_CLASSES - k,
        {
            caches.push(Vec::new());
            k += 1;
        }
        let r = SlabAllocator { heap_start: 0, heap_end: 0, bump: 0, caches, initialized: false };
        assert forall|k: int| 0 <= k < NUM_CLASSES implies (#[trigger] r@.free[k]).len() == 0 by {
            assert(r@.free[k] == r.caches@[k]@);
        }
        r
    }

    /// The class that serves a request, if it is small.
    fn class_index_for(size: usize, align: usize) -> (r: Option<usize>)
        ensures
            match r {
                Some(k) => class_for(size as nat, align as nat) == Some(k as nat),
                None => class_for(size as nat, align as nat).is_none(),
            },
    {
        let need = if size < align {
            align
        } else {
            size
        };
        let mut cls: usize = 8;
        let mut i: usize = 0;
        while i < NUM_CLASSES
            invariant
                i <= NUM_CLASSES,
                need == (if size < align {
                    align
                } else {
                    size
                }),
                cls as nat == class_size(i as nat),
                cls <= 8192,
                class_from(need as nat, 0) == class_from(need as nat, i as nat),
            decreases NUM_CLASSES - i,
        {
            if need <= cls {
                assert(class_from(need as nat, i as nat) == Some(i as nat));
                return Some(i);
            }
            proof {
                lemma_class_size_bound((i + 1) as nat);
            }
            cls = cls * 2;
            i += 1;
        }
        None
    }

    /// Bump allocation: `size` bytes at the next multiple of `align`.
    fn alloc_from_bump(&mut self, size: usize, align: usize) -> (r: Option<usize>)
        requires
            old(self).wf(),
            is_pow2(align as nat),
        ensures
            final(self).wf(),
            match bump_spec(old(self)@, size as nat, align as nat) {
                None => r.is_none() && final(self)@ == old(self)@,
                Some((a, nb)) => r == Some(a as usize) && final(self)@ == (SlabView {
                    bump: nb,
                    ..old(self)@
                }),
            },
    {
        if self.bump > usize::MAX - (align - 1) {
            return None;
        }
        let start = align_up(self.bump, align);
        proof {
            lemma_round_up(self.bump as nat, align as nat, start as nat);
        }
        if start > self.heap_end || size > self.heap_end - start {
            return None;
        }
        self.bump = start + size;
        Some(start)
    }

    /// Carves one chunk out of the bump tail and pushes its blocks onto the
    /// stack of class `k`.
    fn refill_cache(&mut self, k: usize) -> (r: bool)
        requires
            old(self).wf(),
            k < NUM_CLASSES,
        ensures
            final(self).wf(),
            match bump_spec(old(self)@, CHUNK_SIZE as nat, CHUNK_SIZE as nat) {
                None => !r && final(self)@ == old(self)@,
                Some((c, nb)) => r && final(self)@ == (SlabView {
                    bump: nb,
                    free: old(self)@.free.update(
                        k as int,
                        old(self)@.free[k as int] + chunk_blocks(c, k as nat),
                    ),
                    ..old(self)@
                }),
            },
    {
        proof {
            assert(pow2_bits(4096usize)) by (bit_vector);
            lemma_pow2_bits(4096);
        }
        let chunk = match self.alloc_from_bump(CHUNK_SIZE, CHUNK_SIZE) {
            Some(c) => c,
            None => return false,
        };
        proof {
            lemma_class_size_bound(k as nat);
            lemma_class_divides_chunk(k as nat);
        }
        let mut bs: usize = 8;
        let mut j: usize = 0;
        while j < k
            invariant
                j <= k < NUM_CLASSES,
                bs as nat == class_size(j as nat),
                bs <= 4096,
            decreases k - j,
        {
            proof {
                lemma_class_size_bound((j + 1) as nat);
            }
            bs = bs * 2;
            j += 1;
        }
        let n = CHUNK_SIZE / bs;
        let ghost before = self@;
        let ghost blocks = chunk_blocks(chunk as nat, k as nat);
        let mut i: usize = 0;
        while i < n
            invariant
                self.caches@.len() == NUM_CLASSES,
                k < NUM_CLASSES,
                bs as nat == class_size(k as nat),
                n == CHUNK_SIZE / bs,
                n * bs == CHUNK_SIZE,
                chunk + CHUNK_SIZE <= usize::MAX,
                blocks == chunk_blocks(chunk as nat, k as nat),
                i <= n,
                self.heap_start == before.heap_start,
                self.heap_end == before.heap_end,
                self.bump == before.bump,
                self.initialized == before.initialized,
                forall|j: int| 0 <= j < NUM_CLASSES && j != k ==> #[trigger] self.caches@[j]@
                    == before.free[j],
                self.caches@[k as int]@ == before.free[k as int] + blocks.subrange(0, i as int),
            decreases n - i,
        {
            assert(i * bs < CHUNK_SIZE) by (nonlinear_arith)
                requires
                    i < n,
                    n * bs == CHUNK_SIZE,
            ;
            let a = chunk + i * bs;
            self.caches[k].push(a);
            assert(blocks.subrange(0, i + 1) =~= blocks.subrange(0, i as int).push(a));
            i += 1;
        }
        assert(blocks.subrange(0, n as int) =~= blocks);
        assert(self@.free =~= before.free.update(k as int, before.free[k as int] + blocks));
        true
    }

    /// Allocates `size` bytes aligned to `align`; 0 when nothing fits or
    /// before `init`. Small requests pop their class's stack (refilled from
    /// the bump tail when empty); large ones take the bump tail directly.
    pub fn allocate(&mut self, size: usize, align: usize) -> (r: usize)
        requires
            old(self).wf(),
            is_pow2(align as nat),
        ensures
            final(self).wf(),
            (r, final(self)@) == alloc_spec(old(self)@, size as nat, align as nat),
    {
        if !self.initialized {
            return 0;
        }
        match Self::class_index_for(size, align) {
            Some(k) => {
                proof {
                    lemma_class_from_bound(if size < align { align as nat } else { size as nat }, 0);
                }
                if self.caches[k].len() == 0 {
                    let ghost before = self@;
                    if !self.refill_cache(k) {
                        return 0;
                    }
                    proof {
                        lemma_class_size_bound(k as nat);
                        let c = bump_spec(before, CHUNK_SIZE as nat, CHUNK_SIZE as nat)->Some_0.0;
                        assert(before.free[k as int] + chunk_blocks(c, k as nat) =~= chunk_blocks(
                            c,
                            k as nat,
                        ));
                        assert(CHUNK_SIZE as nat / class_size(k as nat) >= 1) by (nonlinear_arith)
                            requires
                                class_size(k as nat) <= 4096,
                                class_size(k as nat) >= 8,
                        ;
                        assert(self@.free[k as int].len() >= 1);
                    }
                }
                let ghost mid = self@;
                let h = self.caches[k].pop();
                match h {
                    Some(a) => {
                        assert(self@.free =~= mid.free.update(k as int, mid.free[k as int].drop_last()));
                        assert(self@ =~= alloc_spec(old(self)@, size as nat, align as nat).1);
                        a
                    },
                    None => 0,
                }
            },
            None => match self.alloc_from_bump(size, align) {
                Some(a) => a,
                None => 0,
            },
        }
    }

    /// Returns a block: a small one goes on top of its class's stack, a
    /// large one is not taken back. Null pointers are ignored.
    pub fn dealloc(&mut self, ptr: usize, size: usize, align: usize)
        requires
            old(self).wf(),
        ensures
            final(self).wf(),
            final(self)@ == dealloc_spec(old(self)@, ptr, size as nat, align as nat),
    {
        if ptr == 0 || !self.initialized {
            return;
        }
        match Self::class_index_for(size, align) {
            Some(k) => {
                proof {
                    lemma_class_from_bound(if size < align { align as nat } else { size as nat }, 0);
                }
                let ghost before = self@;
                self.caches[k].push(ptr);
                assert(self@.free =~= before.free.update(k as int, before.free[k as int].push(ptr)));
            },
            None => {},
        }
    }

    /// Hands the arena `[heap_start, heap_start + heap_size)` to the
    /// allocator; the cursor starts at its beginning.
    pub fn init(&mut self, heap_start: usize, heap_size: usize)
        requires
            old(self).wf(),
            heap_start + heap_size <= usize::MAX,
        ensures
            final(self).wf(),
            final(self)@ == (SlabView {
                heap_start: heap_start as nat,
                heap_end: (heap_start + heap_size) as nat,
                bump: heap_start as nat,
                initialized: true,
                ..old(self)@
            }),
    {
        self.heap_start = heap_start;
        self.heap_end = heap_start + heap_size;
        self.bump = heap_start;
        self.initialized = true;
    }
}

impl Default for SlabAllocator {
    fn default() -> (r: Self)
        ensures
            r.wf(),
            !r@.initialized,
            forall|k: int| 0 <= k < NUM_CLASSES ==> (#[trigger] r@.free[k]).len() == 0,
    {
        Self::new()
    }
}

/// The allocator as the process-wide provider sees it: every operation
/// takes the allocator exclusively for its whole duration.
pub struct LockedAlloc {
    inner: SlabAllocator,
}

impl View for LockedAlloc {
    type V = SlabView;

    closed spec fn view(&self) -> SlabView {
        self.inner@
    }
}

impl LockedAlloc {
    /// The well-formedness the methods keep.
    pub closed spec fn wf(&self) -> bool {
        self.inner.wf()
    }

    /// A provider whose allocator has no arena yet.
    pub fn new() -> (r: Self)
        ensures
            r.wf(),
            !r@.initialized,
            forall|k: int| 0 <= k < NUM_CLASSES ==> (#[trigger] r@.free[k]).len() == 0,
    {
        LockedAlloc { inner: SlabAllocator::new() }
    }

    /// Hands the arena `[heap_start, heap_start + heap_size)` over.
    pub fn init(&mut self, heap_start: usize, heap_size: usize)
        requires
            old(self).wf(),
            heap_start + heap_size <= usize::MAX,
        ensures
            final(self).wf(),
            final(self)@ == (SlabView {
                heap_start: heap_start as nat,
                heap_end: (heap_start + heap_size) as nat,
                bump: heap_start as nat,
                initialized: true,
                ..old(self)@
            }),
    {
        self.inner.init(heap_start, heap_size);
    }

    /// Allocates as [`SlabAllocator::allocate`] does.
    pub fn allocate(&mut self, size: usize, align: usize) -> (r: usize)
        requires
            old(self).wf(),
            is_pow2(align as nat),
        ensures
            final(self).wf(),
            (r, final(self)@) == alloc_spec(old(self)@, size as nat, align as nat),
    {
        self.inner.allocate(size, align)
    }

    /// Frees as [`SlabAllocator::dealloc`] does.
    pub fn dealloc(&mut self, ptr: usize, size: usize, align: usize)
        requires
            old(self).wf(),
        ensures
            final(self).wf(),
            final(self)@ == dealloc_spec(old(self)@, ptr, size as nat, align as nat),
    {
        self.inner.dealloc(ptr, size, align);
    }
}

impl Default for LockedAlloc {
    fn default() -> (r: Self)
        ensures
            r.wf(),
            !r@.initialized,
            forall|k: int| 0 <= k < NUM_CLASSES ==> (#[trigger] r@.free[k]).len() == 0,
    {
        Self::new()
    }
}

} // verus!
