//! What holds of the allocator across its operations.
use crate::layout::{
    align_up, class_offset, class_size, growth_bytes, growth_count, header_of, initial_count,
    lemma_block_count, lemma_class_offset_grows, lemma_initial_block, lemma_run_len,
    lemma_run_order, payload_of, run, stride, ALIGN, HEADER_SIZE, INIT_HEAP_SIZE, MAX_BYTE,
    NUM_LIST,
};
use crate::model::{block_mapping, Chunk, HeapView, Origin, Release, Reply, Resize, Step};
use vstd::prelude::*;

verus! {

/// Bootstrap keeps the invariant.
pub proof fn bootstrap_keeps_inv(s: HeapView, base: usize)
    requires
        s.inv(),
        !s.initialized,
        HeapView::can_bootstrap(base),
    ensures
        s.bootstrapped(base).inv(),
{
    let t = s.bootstrapped(base);
    assert forall|i: int| 1 <= i < NUM_LIST implies (#[trigger] t.lists[i]).len() == initial_count(
        i,
    ) by {
        lemma_block_count(class_size(i));
        lemma_run_len(base + class_offset(i), class_size(i), initial_count(i));
    }
    assert forall|i: int, k: int| 0 <= i < NUM_LIST && 0 <= k < t.lists[i].len() implies {
        &&& !t.live.contains_key(#[trigger] t.lists[i][k])
        &&& t.lists[i][k] + HEADER_SIZE + class_size(i) <= usize::MAX
    } by {
        lemma_initial_block(base as int, i, k);
    }
    assert forall|i: int, k: int, j: int, l: int|
        0 <= i < NUM_LIST && 0 <= k < t.lists[i].len() && 0 <= j < NUM_LIST && 0 <= l
            < t.lists[j].len() && (i != j || k != l) implies #[trigger] t.lists[i][k]
        != #[trigger] t.lists[j][l] by {
        lemma_initial_block(base as int, i, k);
        lemma_initial_block(base as int, j, l);
        if i < j {
            lemma_class_offset_grows(i + 1, j);
        } else if j < i {
            lemma_class_offset_grows(j + 1, i);
        } else if k < l {
            lemma_run_order(base + class_offset(i), class_size(i), initial_count(i), k, l);
        } else {
            lemma_run_order(base + class_offset(i), class_size(i), initial_count(i), l, k);
        }
    }
}

/// A fresh run for an empty class keeps the invariant; the run has at least
/// one block, and its first block lies at the start of the region.
pub proof fn growth_keeps_inv(s: HeapView, class: int, base: usize)
    requires
        s.inv(),
        s.initialized,
        1 <= class < NUM_LIST,
        s.lists[class].len() == 0,
        s.can_adopt_run(base, class_size(class)),
    ensures
        s.grown(class, base).inv(),
        s.grown(class, base).lists[class].len() == growth_count(class_size(class)),
        growth_count(class_size(class)) >= 1,
        s.grown(class, base).lists[class][0] == base,
{
    let t = s.grown(class, base);
    let size = class_size(class);
    let count = growth_count(size);
    lemma_block_count(size);
    lemma_run_order(base as int, size, count, 0, 0);
    assert forall|i: int, k: int| 0 <= i < NUM_LIST && 0 <= k < t.lists[i].len() implies {
        &&& !t.live.contains_key(#[trigger] t.lists[i][k])
        &&& t.lists[i][k] + HEADER_SIZE + class_size(i) <= usize::MAX
    } by {
        if i == class {
            lemma_run_order(base as int, size, count, k, k);
        }
    }
    assert forall|i: int, k: int, j: int, l: int|
        0 <= i < NUM_LIST && 0 <= k < t.lists[i].len() && 0 <= j < NUM_LIST && 0 <= l
            < t.lists[j].len() && (i != j || k != l) implies #[trigger] t.lists[i][k]
        != #[trigger] t.lists[j][l] by {
        if i == class && j == class {
            if k < l {
                lemma_run_order(base as int, size, count, k, l);
            } else {
                lemma_run_order(base as int, size, count, l, k);
            }
        }
    }
}

/// Handing out the first free block of a class keeps the invariant.
proof fn lemma_popped_inv(s: HeapView, class: int)
    requires
        s.inv(),
        1 <= class < NUM_LIST,
        s.lists[class].len() > 0,
    ensures
        s.popped(class).inv(),
{
}

/// Serving a request in an initialized state keeps the invariant.
proof fn lemma_serve_keeps_inv(s: HeapView, size: usize, reply: Reply)
    requires
        s.inv(),
        s.initialized,
        0 < size,
        size + HEADER_SIZE <= usize::MAX,
    ensures
        s.serve(size, reply).0.inv(),
{
    let class = align_up(size as int) / ALIGN as int;
    if align_up(size as int) <= MAX_BYTE && s.lists[class].len() == 0 {
        match reply {
            Reply::Break { before, start } => {
                if before == start && s.can_adopt_run(start, class_size(class)) {
                    growth_keeps_inv(s, class, start);
                    lemma_popped_inv(s.grown(class, start), class);
                }
            },
            _ => {},
        }
    }
}

/// Every step of an allocation keeps the invariant.
pub proof fn malloc_keeps_inv(s: HeapView, size: usize, reply: Reply)
    requires
        s.inv(),
        size + HEADER_SIZE <= usize::MAX,
    ensures
        s.malloc(size, reply).0.inv(),
{
    if size != 0 {
        if !s.initialized {
            match reply {
                Reply::Break { before, start } => {
                    if before == start && HeapView::can_bootstrap(start) {
                        bootstrap_keeps_inv(s, start);
                        lemma_serve_keeps_inv(s.bootstrapped(start), size, Reply::Nothing);
                    }
                },
                _ => {},
            }
        } else {
            lemma_serve_keeps_inv(s, size, reply);
        }
    }
}

/// Giving a block back keeps the invariant.
pub proof fn free_keeps_inv(s: HeapView, p: usize)
    requires
        s.inv(),
        p == 0 || s.is_live(p),
    ensures
        s.free(p).0.inv(),
{
}

/// An allocation leaves the blocks that callers hold as they are, whatever
/// it is answered with.
pub proof fn malloc_keeps_held_blocks(s: HeapView, size: usize, reply: Reply, a: usize)
    requires
        s.inv(),
        s.live.contains_key(a),
    ensures
        s.malloc(size, reply).0.live.contains_key(a),
        s.malloc(size, reply).0.live[a] == s.live[a],
{
    let class = align_up(size as int) / ALIGN as int;
    if size != 0 && align_up(size as int) <= MAX_BYTE && 1 <= class < NUM_LIST
        && s.lists[class].len() == 0 {
        match reply {
            Reply::Break { before, start } => {
                if before == start && s.can_adopt_run(start, class_size(class)) {
                    growth_keeps_inv(s, class, start);
                    assert(!s.grown(class, start).live.contains_key(
                        s.grown(class, start).lists[class][0],
                    ));
                }
            },
            _ => {},
        }
    }
}

/// An allocation forgets no block: what the allocator knew, free or held, it
/// still knows.
pub proof fn malloc_forgets_no_block(s: HeapView, size: usize, reply: Reply, a: usize)
    requires
        s.inv(),
        s.manages(a),
    ensures
        s.malloc(size, reply).0.manages(a),
{
    if !s.live.contains_key(a) {
        let (i, k) = choose|i: int, k: int|
            0 <= i < s.lists.len() && 0 <= k < s.lists[i].len() && #[trigger] s.lists[i][k] == a;
        let t = s.malloc(size, reply).0;
        let class = align_up(size as int) / ALIGN as int;
        if size != 0 && align_up(size as int) <= MAX_BYTE && s.lists[class].len() > 0 {
            if i == class && k > 0 {
                assert(t.lists[i][k - 1] == a);
            } else if i != class {
                assert(t.lists[i][k] == a);
            }
        } else {
            assert(t.lists[i][k] == a);
        }
    }
}

/// Giving a block back forgets it if it was mapped and makes it free if it
/// came from the heap; every other block stays as it was, held or free.
pub proof fn free_forgets_mapped_blocks_only(s: HeapView, p: usize, a: usize)
    requires
        s.inv(),
        s.is_live(p),
        s.manages(a),
    ensures
        !s.free(p).0.live.contains_key(header_of(p as int) as usize),
        s.free(p).0.is_free(header_of(p as int) as usize) <==> s.live[header_of(p as int) as usize].origin
            == Origin::Heap,
        a != header_of(p as int) ==> {
            &&& s.free(p).0.is_free(a) == s.is_free(a)
            &&& s.free(p).0.live.contains_key(a) == s.live.contains_key(a)
            &&& s.live.contains_key(a) ==> s.free(p).0.live[a] == s.live[a]
        },
{
    let h = header_of(p as int) as usize;
    let t = s.free(p).0;
    let class = s.live[h].size as int / ALIGN as int;
    if s.live[h].origin == Origin::Heap {
        assert(t.lists[class][0] == h);
        if s.is_free(a) {
            let (i, k) = choose|i: int, k: int|
                0 <= i < s.lists.len() && 0 <= k < s.lists[i].len() && #[trigger] s.lists[i][k]
                    == a;
            if i == class {
                assert(t.lists[i][k + 1] == a);
            } else {
                assert(t.lists[i][k] == a);
            }
        }
        if t.is_free(a) && a != h {
            let (i, k) = choose|i: int, k: int|
                0 <= i < t.lists.len() && 0 <= k < t.lists[i].len() && #[trigger] t.lists[i][k]
                    == a;
            if i == class {
                assert(s.lists[i][k - 1] == a);
            } else {
                assert(s.lists[i][k] == a);
            }
        }
    }
}

/// Every step of a reallocation keeps the invariant.
pub proof fn realloc_keeps_inv(s: HeapView, p: usize, size: usize, reply: Reply)
    requires
        s.inv(),
        p == 0 || s.is_live(p),
        size + (ALIGN - 1) + HEADER_SIZE <= usize::MAX,
    ensures
        s.realloc(p, size, reply).0.inv(),
{
    let rounded = align_up(size as int) as usize;
    malloc_keeps_inv(s, rounded, reply);
    if p != 0 {
        malloc_keeps_held_blocks(s, rounded, reply, header_of(p as int) as usize);
    }
}

/// A request for no bytes is answered with the null pointer, whatever the
/// state and the reply, and changes nothing.
pub proof fn zero_request_is_null(s: HeapView, reply: Reply)
    ensures
        s.malloc(0, reply) == (s, Step::Ready(0)),
{
}

/// A request that is answered with a demand changes nothing, unless it came
/// with the heap break's answer to an allocator that had not run bootstrap.
pub proof fn demand_changes_nothing(s: HeapView, size: usize, reply: Reply)
    requires
        s.initialized || !(reply is Break),
    ensures
        !(s.malloc(size, reply).1 is Ready) ==> s.malloc(size, reply).0 == s,
{
}

/// Last freed, first reused: after a heap block was given back, the next
/// request that rounds to its size gets that very block, and the allocator is
/// as it was before the block was given back.
pub proof fn freed_block_is_reused(s: HeapView, p: usize, size: usize, reply: Reply)
    requires
        s.inv(),
        s.is_live(p),
        s.live[header_of(p as int) as usize].origin == Origin::Heap,
        0 < size,
        align_up(size as int) == s.live[header_of(p as int) as usize].size,
    ensures
        s.free(p).0.malloc(size, reply) == (s, Step::Ready(p)),
{
    let class = align_up(size as int) / ALIGN as int;
    let u = s.free(p).0.popped(class);
    assert(u.lists[class] =~= s.lists[class]);
    assert(u.lists =~= s.lists);
    assert(u.live =~= s.live);
}

/// Giving blocks back leaves a block that is not among them held, and keeps
/// the invariant.
proof fn lemma_free_each(s: HeapView, ps: Seq<usize>, p: usize)
    requires
        s.inv(),
        s.is_live(p),
        forall|i: int| 0 <= i < ps.len() ==> s.is_live(#[trigger] ps[i]) && ps[i] != p,
        forall|i: int, j: int| 0 <= i < j < ps.len() ==> ps[i] != ps[j],
    ensures
        s.free_each(ps).inv(),
        s.free_each(ps).is_live(p),
        s.free_each(ps).live[header_of(p as int) as usize] == s.live[header_of(p as int) as usize],
    decreases ps.len(),
{
    if ps.len() > 0 {
        let qs = ps.drop_last();
        lemma_free_each(s, qs, p);
        lemma_free_each(s, qs, ps.last());
    }
}

/// The answers that hand out the blocks at `ps`, last block first.
pub open spec fn reversed(ps: Seq<usize>) -> Seq<Step> {
    Seq::new(ps.len(), |i: int| Step::Ready(ps[ps.len() - 1 - i]))
}

/// The free lists are stacks: after held blocks of one size class were given
/// back, one after another and none twice, as many requests of that class
/// get those very blocks in the reverse order, and the allocator is then as
/// it was before the first block was given back.
pub proof fn freed_blocks_come_back_in_reverse(s: HeapView, ps: Seq<usize>, size: usize)
    requires
        s.inv(),
        0 < size,
        forall|i: int|
            0 <= i < ps.len() ==> {
                &&& s.is_live(#[trigger] ps[i])
                &&& s.live[header_of(ps[i] as int) as usize].origin == Origin::Heap
                &&& s.live[header_of(ps[i] as int) as usize].size == align_up(size as int)
            },
        forall|i: int, j: int| 0 <= i < j < ps.len() ==> ps[i] != ps[j],
    ensures
        s.free_each(ps).malloc_each(size, ps.len()) == (s, reversed(ps)),
    decreases ps.len(),
{
    let n = ps.len();
    let back = reversed(ps);
    if n == 0 {
        assert(s.free_each(ps).malloc_each(size, n).1 =~= back);
    } else {
        let qs = ps.drop_last();
        let p = ps.last();
        let t = s.free_each(qs);
        lemma_free_each(s, qs, p);
        freed_block_is_reused(t, p, size, Reply::Nothing);
        freed_blocks_come_back_in_reverse(s, qs, size);
        assert(seq![Step::Ready(p)] + reversed(qs) =~= back);
    }
}

/// The large path: a request beyond the size classes asks for a mapping of
/// the header's size and the bytes asked for; answered with the mapping, it
/// gives the pointer behind the mapping's header; the block is held as a
/// mapped block whose size is that of the whole mapping; and giving it back
/// asks for exactly that mapping to be unmapped and leaves the allocator as
/// it was before the request.
pub proof fn mapped_block_round_trip(s: HeapView, size: usize, addr: usize)
    requires
        s.inv(),
        s.initialized,
        align_up(size as int) > MAX_BYTE,
        size + HEADER_SIZE <= usize::MAX,
        s.can_adopt_mapping(addr, HEADER_SIZE + size),
    ensures
        s.malloc(size, Reply::Nothing) == (
            s,
            Step::NeedMapping(block_mapping((HEADER_SIZE + size) as usize)),
        ),
        s.malloc(size, Reply::Mapping { addr }).1 == Step::Ready(payload_of(addr as int) as usize),
        s.malloc(size, Reply::Mapping { addr }).0.live[addr] == (Chunk {
            size: (HEADER_SIZE + size) as usize,
            origin: Origin::Mapped,
        }),
        s.malloc(size, Reply::Mapping { addr }).0.free(payload_of(addr as int) as usize) == (
            s,
            Release::Unmap { addr, len: (HEADER_SIZE + size) as usize },
        ),
{
    let t = s.malloc(size, Reply::Mapping { addr }).0;
    assert(t.released(addr).live =~= s.live);
}

/// Class isolation in an initialized state.
proof fn lemma_served_block(s: HeapView, size: usize, reply: Reply)
    requires
        s.inv(),
        s.initialized,
        0 < size,
        align_up(size as int) <= MAX_BYTE,
    ensures
        s.serve(size, reply).1 matches Step::Ready(p) ==> p != 0 ==> {
            &&& s.serve(size, reply).0.is_live(p)
            &&& s.serve(size, reply).0.live[header_of(p as int) as usize] == Chunk {
                size: align_up(size as int) as usize,
                origin: Origin::Heap,
            }
            &&& forall|i: int, k: int|
                0 <= i < NUM_LIST && i != align_up(size as int) / ALIGN as int && 0 <= k
                    < s.lists[i].len() ==> p != payload_of(#[trigger] s.lists[i][k] as int)
        },
{
    let class = align_up(size as int) / ALIGN as int;
    if s.lists[class].len() == 0 {
        match reply {
            Reply::Break { before, start } => {
                if before == start && s.can_adopt_run(start, class_size(class)) {
                    growth_keeps_inv(s, class, start);
                    assert forall|i: int, k: int|
                        0 <= i < NUM_LIST && i != class && 0 <= k < s.lists[i].len() implies start
                        != #[trigger] s.lists[i][k] by {}
                }
            },
            _ => {},
        }
    }
}

/// Class isolation: a block handed out for a request that rounds to a size
/// class is held as a heap block of exactly the rounded size, and it is none
/// of the blocks that were free in another class.
pub proof fn served_from_own_class(s: HeapView, size: usize, reply: Reply)
    requires
        s.inv(),
        0 < size,
        align_up(size as int) <= MAX_BYTE,
    ensures
        s.malloc(size, reply).1 matches Step::Ready(p) ==> p != 0 ==> {
            &&& s.malloc(size, reply).0.is_live(p)
            &&& s.malloc(size, reply).0.live[header_of(p as int) as usize] == Chunk {
                size: align_up(size as int) as usize,
                origin: Origin::Heap,
            }
            &&& forall|i: int, k: int|
                0 <= i < NUM_LIST && i != align_up(size as int) / ALIGN as int && 0 <= k
                    < s.lists[i].len() ==> p != payload_of(#[trigger] s.lists[i][k] as int)
        },
{
    if !s.initialized {
        match reply {
            Reply::Break { before, start } => {
                if before == start && HeapView::can_bootstrap(start) {
                    bootstrap_keeps_inv(s, start);
                    lemma_served_block(s.bootstrapped(start), size, Reply::Nothing);
                }
            },
            _ => {},
        }
    } else {
        lemma_served_block(s, size, reply);
    }
}

/// Room and freshness of a served block in an initialized state.
proof fn lemma_served_room(s: HeapView, size: usize, reply: Reply)
    requires
        s.inv(),
        s.initialized,
        0 < size,
        size + HEADER_SIZE <= usize::MAX,
    ensures
        s.serve(size, reply).1 matches Step::Ready(p) ==> p != 0 ==> {
            &&& s.serve(size, reply).0.is_live(p)
            &&& !s.is_live(p)
            &&& s.serve(size, reply).0.usable(header_of(p as int) as usize) >= size
        },
{
    let class = align_up(size as int) / ALIGN as int;
    if align_up(size as int) <= MAX_BYTE && s.lists[class].len() == 0 {
        match reply {
            Reply::Break { before, start } => {
                if before == start && s.can_adopt_run(start, class_size(class)) {
                    growth_keeps_inv(s, class, start);
                }
            },
            _ => {},
        }
    }
}

/// A request that is answered with a pointer other than null gives a block
/// that no caller held before, with room for at least the bytes asked for.
pub proof fn served_block_has_room(s: HeapView, size: usize, reply: Reply)
    requires
        s.inv(),
        size + HEADER_SIZE <= usize::MAX,
    ensures
        s.malloc(size, reply).1 matches Step::Ready(p) ==> p != 0 ==> {
            &&& s.malloc(size, reply).0.is_live(p)
            &&& !s.is_live(p)
            &&& s.malloc(size, reply).0.usable(header_of(p as int) as usize) >= size
        },
{
    if size != 0 {
        if !s.initialized {
            match reply {
                Reply::Break { before, start } => {
                    if before == start && HeapView::can_bootstrap(start) {
                        bootstrap_keeps_inv(s, start);
                        lemma_served_room(s.bootstrapped(start), size, Reply::Nothing);
                    }
                },
                _ => {},
            }
        } else {
            lemma_served_room(s, size, reply);
        }
    }
}

/// A finished reallocation has given the old block back. The new block,
/// where there is one, is another block than the old one, is held, and has
/// room for the bytes asked for. From an old block to a new one as many bytes
/// are copied as the old header holds as its size, or else as many as the
/// rounded request, which are no fewer than were asked for; none are copied
/// without an old or without a new block. An unfinished reallocation leaves
/// the old block held.
pub proof fn realloc_moves_block(s: HeapView, p: usize, size: usize, reply: Reply)
    requires
        s.inv(),
        p == 0 || s.is_live(p),
        size + (ALIGN - 1) + HEADER_SIZE <= usize::MAX,
    ensures
        match s.realloc(p, size, reply).1 {
            Resize::Ready { ptr, copy, release } => {
                &&& p != 0 ==> !s.realloc(p, size, reply).0.is_live(p)
                &&& ptr != 0 ==> {
                    &&& ptr != p
                    &&& s.realloc(p, size, reply).0.is_live(ptr)
                    &&& s.realloc(p, size, reply).0.usable(header_of(ptr as int) as usize) >= size
                }
                &&& p != 0 && ptr != 0 ==> {
                    ||| copy == s.live[header_of(p as int) as usize].size && copy < align_up(
                        size as int,
                    )
                    ||| copy == align_up(size as int) && size <= copy
                        <= s.live[header_of(p as int) as usize].size
                }
                &&& (p == 0 || ptr == 0) ==> copy == 0
            },
            _ => p != 0 ==> s.realloc(p, size, reply).0.is_live(p),
        },
{
    served_block_has_room(s, align_up(size as int) as usize, reply);
}

/// Bootstrap carves its region without overlap: every block of every class
/// lies inside the region at `base`, header and payload, and no two blocks
/// share a byte.
pub proof fn bootstrap_blocks_fill_region(s: HeapView, base: usize)
    requires
        s.inv(),
        !s.initialized,
        HeapView::can_bootstrap(base),
    ensures
        forall|i: int, k: int|
            1 <= i < NUM_LIST && 0 <= k < s.bootstrapped(base).lists[i].len() ==> {
                &&& base <= #[trigger] s.bootstrapped(base).lists[i][k]
                &&& s.bootstrapped(base).lists[i][k] + stride(class_size(i)) <= base
                    + INIT_HEAP_SIZE
            },
        forall|i: int, k: int, j: int, l: int|
            1 <= i < NUM_LIST && 0 <= k < s.bootstrapped(base).lists[i].len() && 1 <= j < NUM_LIST
                && 0 <= l < s.bootstrapped(base).lists[j].len() && (i < j || (i == j && k < l))
                ==> #[trigger] s.bootstrapped(base).lists[i][k] + stride(class_size(i))
                <= #[trigger] s.bootstrapped(base).lists[j][l],
{
    let t = s.bootstrapped(base);
    assert forall|i: int| 1 <= i < NUM_LIST implies (#[trigger] t.lists[i]).len() == initial_count(
        i,
    ) by {
        lemma_block_count(class_size(i));
        lemma_run_len(base + class_offset(i), class_size(i), initial_count(i));
    }
    assert forall|i: int, k: int| 1 <= i < NUM_LIST && 0 <= k < t.lists[i].len() implies {
        &&& base <= #[trigger] t.lists[i][k]
        &&& t.lists[i][k] + stride(class_size(i)) <= base + INIT_HEAP_SIZE
    } by {
        lemma_initial_block(base as int, i, k);
    }
    assert forall|i: int, k: int, j: int, l: int|
        1 <= i < NUM_LIST && 0 <= k < t.lists[i].len() && 1 <= j < NUM_LIST && 0 <= l
            < t.lists[j].len() && (i < j || (i == j && k < l)) implies #[trigger] t.lists[i][k]
        + stride(class_size(i)) <= #[trigger] t.lists[j][l] by {
        lemma_initial_block(base as int, i, k);
        lemma_initial_block(base as int, j, l);
        if i < j {
            lemma_class_offset_grows(i + 1, j);
        } else {
            lemma_run_order(base + class_offset(i), class_size(i), initial_count(i), k, l);
        }
    }
}

/// A growth step carves its region without overlap: the blocks of the fresh
/// run lie inside the region at `base`, header and payload, one after
/// another.
pub proof fn growth_blocks_fill_region(s: HeapView, class: int, base: usize)
    requires
        s.inv(),
        s.initialized,
        1 <= class < NUM_LIST,
        s.lists[class].len() == 0,
        s.can_adopt_run(base, class_size(class)),
    ensures
        forall|k: int|
            0 <= k < s.grown(class, base).lists[class].len() ==> {
                &&& base <= #[trigger] s.grown(class, base).lists[class][k]
                &&& s.grown(class, base).lists[class][k] + stride(class_size(class)) <= base
                    + growth_bytes(class_size(class))
            },
        forall|k: int, l: int|
            0 <= k < l < s.grown(class, base).lists[class].len() ==> #[trigger] s.grown(
                class,
                base,
            ).lists[class][k] + stride(class_size(class)) <= #[trigger] s.grown(
                class,
                base,
            ).lists[class][l],
{
    let t = s.grown(class, base);
    let size = class_size(class);
    growth_keeps_inv(s, class, base);
    assert forall|k: int| 0 <= k < t.lists[class].len() implies {
        &&& base <= #[trigger] t.lists[class][k]
        &&& t.lists[class][k] + stride(size) <= base + growth_bytes(size)
    } by {
        lemma_run_order(base as int, size, growth_count(size), k, k);
    }
    assert forall|k: int, l: int| 0 <= k < l < t.lists[class].len() implies #[trigger] t.lists[class][k]
        + stride(size) <= #[trigger] t.lists[class][l] by {
        lemma_run_order(base as int, size, growth_count(size), k, l);
    }
}

/// Growth is transparent: where the class of a request is empty, the request
/// asks for one growth step of the heap break; with the region at `start` it
/// is served from the first block of the fresh run, of the class's size; the
/// blocks that callers hold stay as they are, and so do the free lists of
/// the other classes.
pub proof fn growth_serves_request(s: HeapView, size: usize, start: usize)
    requires
        s.inv(),
        s.initialized,
        0 < size,
        align_up(size as int) <= MAX_BYTE,
        s.lists[align_up(size as int) / ALIGN as int].len() == 0,
        s.can_adopt_run(start, align_up(size as int)),
    ensures
        s.malloc(size, Reply::Nothing) == (
            s,
            Step::NeedBreak(growth_bytes(align_up(size as int)) as usize),
        ),
        s.malloc(size, Reply::Break { before: start, start }).1 == Step::Ready(
            payload_of(start as int) as usize,
        ),
        s.malloc(size, Reply::Break { before: start, start }).0.inv(),
        s.malloc(size, Reply::Break { before: start, start }).0.live == s.live.insert(
            start,
            Chunk { size: align_up(size as int) as usize, origin: Origin::Heap },
        ),
        !s.live.contains_key(start),
        s.malloc(size, Reply::Break { before: start, start }).0.lists == s.lists.update(
            align_up(size as int) / ALIGN as int,
            run(start as int, align_up(size as int), growth_count(align_up(size as int))).drop_first(),
        ),
{
    growth_keeps_inv(s, align_up(size as int) / ALIGN as int, start);
}

} // verus!
