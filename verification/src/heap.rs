//! The allocator itself: the free-list table, the block headers, and the
//! operations on them.
use crate::laws::{bootstrap_keeps_inv, growth_keeps_inv, served_block_has_room};
use crate::layout::{
    class_offset, class_size, get_align, get_header, growth_bytes, growth_count, header_of,
    initial_count, lemma_block_count, lemma_initial_block, lemma_run_len, lemma_run_order, run,
    stride, ADD_LIST_SIZE, ALIGN, HEADER_SIZE, INIT_HEAP_SIZE, INIT_LIST_SIZE, MAX_BYTE, NUM_LIST,
};
use crate::model::{
    chunk_ok, Chunk, Header, HeapView, Mapping, Origin, Release, Reply, Resize, Step,
};
use std::collections::HashMap;
use vstd::prelude::*;

verus! {

broadcast use vstd::std_specs::hash::group_hash_axioms;

/// The allocator: one list of free blocks for each size class, threaded
/// through the headers, and the flag that bootstrap has run.
pub struct Allocator {
    initialized: bool,
    free_lists: Vec<Option<usize>>,
    headers: HashMap<usize, Header>,
    lists: Ghost<Seq<Seq<usize>>>,
}

/// The `k`-th member of `list`, if it has one.
#[verifier::opaque]
spec fn link(list: Seq<usize>, k: int) -> Option<usize> {
    if 0 <= k < list.len() {
        Some(list[k])
    } else {
        None
    }
}

/// The headers of the members of `list` are those of free heap blocks of
/// payload `size`, each pointing to the next member.
#[verifier::opaque]
spec fn linked(headers: Map<usize, Header>, list: Seq<usize>, size: int) -> bool {
    forall|k: int|
        0 <= k < list.len() ==> {
            &&& headers.contains_key(#[trigger] list[k])
            &&& headers[list[k]] == Header {
                size: size as usize,
                origin: Origin::Heap,
                next: link(list, k + 1),
                in_use: false,
            }
        }
}

/// The free block that `h` records at `a` stands in the list of its size
/// class.
#[verifier::opaque]
spec fn filed(lists: Seq<Seq<usize>>, a: usize, h: Header) -> bool {
    &&& h.origin == Origin::Heap
    &&& h.size % ALIGN == 0
    &&& 1 <= h.size as int / ALIGN as int
    &&& (h.size as int / ALIGN as int) < NUM_LIST
    &&& lists[h.size as int / ALIGN as int].contains(a)
}

/// A growth region at `base` for blocks of payload `size` lies inside the
/// address space and none of its blocks starts at a recorded header.
#[verifier::opaque]
spec fn adoptable(headers: Map<usize, Header>, base: usize, size: int) -> bool {
    &&& base + growth_bytes(size) <= usize::MAX
    &&& forall|k: int|
        0 <= k < growth_count(size) ==> !headers.contains_key(
            #[trigger] run(base as int, size, growth_count(size))[k],
        )
}

/// The table and the headers agree with the lists of free blocks: each slot
/// of the table holds the first block of its list, the headers of each list
/// are linked in its order, and every header of a free block is in a list.
spec fn rep(
    free_lists: Seq<Option<usize>>,
    headers: Map<usize, Header>,
    lists: Seq<Seq<usize>>,
) -> bool {
    &&& free_lists.len() == NUM_LIST
    &&& lists.len() == NUM_LIST
    &&& forall|i: int| 0 <= i < NUM_LIST ==> #[trigger] free_lists[i] == link(lists[i], 0)
    &&& forall|i: int| 0 <= i < NUM_LIST ==> linked(headers, #[trigger] lists[i], class_size(i))
    &&& forall|a: usize| #[trigger]
        headers.contains_key(a) && !headers[a].in_use ==> filed(lists, a, headers[a])
}

/// The held blocks among the recorded headers.
spec fn live_of(headers: Map<usize, Header>) -> Map<usize, Chunk> {
    Map::new(
        |a: usize| headers.contains_key(a) && headers[a].in_use,
        |a: usize| Chunk { size: headers[a].size, origin: headers[a].origin },
    )
}

impl View for Allocator {
    type V = HeapView;

    closed spec fn view(&self) -> HeapView {
        HeapView {
            initialized: self.initialized,
            lists: self.lists@,
            live: live_of(self.headers@),
        }
    }
}

impl Allocator {
    /// The table and the headers agree with the lists of free blocks.
    pub closed spec fn consistent(&self) -> bool {
        rep(self.free_lists@, self.headers@, self.lists@)
    }

    /// The allocator is well formed: its parts agree, and its state is one
    /// that the operations reach.
    pub open spec fn wf(&self) -> bool {
        self.consistent() && self@.inv()
    }

    /// An allocator that has served nothing yet.
    pub fn new() -> (heap: Allocator)
        ensures
            heap.wf(),
            heap@ == HeapView::empty(),
    {
        let mut free_lists: Vec<Option<usize>> = Vec::new();
        let mut i: usize = 0;
        while i < NUM_LIST
            invariant
                i <= NUM_LIST,
                free_lists@.len() == i,
                forall|j: int| 0 <= j < i ==> free_lists@[j] is None,
            decreases NUM_LIST - i,
        {
            free_lists.push(None);
            i += 1;
        }
        let heap = Allocator {
            initialized: false,
            free_lists,
            headers: HashMap::new(),
            lists: Ghost(Seq::new(NUM_LIST as nat, |i: int| Seq::<usize>::empty())),
        };
        proof {
            reveal(link);
            reveal(linked);
        }
        heap
    }

    /// Whether bootstrap has run.
    pub fn is_initialized(&self) -> (b: bool)
        ensures
            b == self@.initialized,
    {
        self.initialized
    }

    /// What is recorded of the block at payload pointer `p`, if a caller holds
    /// such a block.
    pub fn lookup(&self, p: usize) -> (r: Option<Chunk>)
        ensures
            r is Some <==> self@.is_live(p),
            r matches Some(c) ==> c == self@.live[(p - HEADER_SIZE) as usize],
    {
        if p < HEADER_SIZE {
            return None;
        }
        match self.headers.get(&(p - HEADER_SIZE)) {
            Some(h) => if h.in_use {
                Some(Chunk { size: h.size, origin: h.origin })
            } else {
                None
            },
            None => None,
        }
    }

    /// The header on record at address `a`, of a block free or held.
    pub fn header(&self, a: usize) -> (r: Option<Header>)
        requires
            self.wf(),
        ensures
            r is Some <==> self@.manages(a),
            r matches Some(h) ==> self@.records(a, h),
    {
        proof {
            self.lemma_manages(a);
        }
        match self.headers.get(&a) {
            Some(h) => {
                proof {
                    if !h.in_use {
                        reveal(filed);
                        reveal(link);
                        let c = h.size as int / ALIGN as int;
                        let n = choose|n: int| 0 <= n < self.lists@[c].len() && self.lists@[c][n] == a;
                        lemma_linked_at(self.headers@, self.lists@[c], class_size(c), n);
                    }
                }
                Some(*h)
            },
            None => None,
        }
    }

    /// The free blocks of size class `class`, by header address, in the order
    /// in which they will be handed out; none for a class that does not
    /// exist.
    pub fn free_list(&self, class: usize) -> (r: Vec<usize>)
        requires
            self.wf(),
        ensures
            class < NUM_LIST ==> r@ == self@.lists[class as int],
            class >= NUM_LIST ==> r@.len() == 0,
    {
        let mut r: Vec<usize> = Vec::new();
        if class >= NUM_LIST {
            return r;
        }
        let ghost list = self.lists@[class as int];
        let mut cur: Option<usize> = self.free_lists[class];
        while cur.is_some()
            invariant
                self.wf(),
                class < NUM_LIST,
                list == self.lists@[class as int],
                r@.len() <= list.len(),
                r@ == list.take(r@.len() as int),
                cur == link(list, r@.len() as int),
            decreases list.len() - r@.len(),
        {
            let a: usize = cur.unwrap();
            proof {
                reveal(link);
                lemma_linked_at(self.headers@, list, class_size(class as int), r@.len() as int);
            }
            let h = self.headers.get(&a).unwrap();
            r.push(a);
            cur = h.next;
        }
        proof {
            reveal(link);
        }
        r
    }

    /// The headers on record are those of the blocks that the state knows.
    proof fn lemma_manages(&self, a: usize)
        requires
            self.wf(),
        ensures
            self.headers@.contains_key(a) <==> self@.manages(a),
    {
        if self.headers@.contains_key(a) && !self.headers@[a].in_use {
            reveal(filed);
        }
        if self@.is_free(a) {
            let (i, k) = choose|i: int, k: int|
                0 <= i < self@.lists.len() && 0 <= k < self@.lists[i].len() && #[trigger] self@.lists[i][k]
                    == a;
            lemma_linked_at(self.headers@, self.lists@[i], class_size(i), k);
        }
    }

    /// A growth region can be used as far as the headers show it exactly
    /// where the state says so.
    proof fn lemma_adoptable(&self, base: usize, size: int)
        requires
            self.wf(),
        ensures
            adoptable(self.headers@, base, size) == self@.can_adopt_run(base, size),
    {
        reveal(adoptable);
        let blocks = run(base as int, size, growth_count(size));
        assert forall|k: int| 0 <= k < growth_count(size) implies (self.headers@.contains_key(
            #[trigger] blocks[k],
        ) <==> self@.manages(blocks[k])) by {
            self.lemma_manages(blocks[k]);
        }
    }

    /// Before bootstrap no header is on record.
    proof fn lemma_store_empty(&self)
        requires
            self.wf(),
            !self@.initialized,
        ensures
            forall|a: usize| !self.headers@.contains_key(a),
    {
        assert forall|a: usize| !self.headers@.contains_key(a) by {
            if self.headers@.contains_key(a) {
                if self.headers@[a].in_use {
                    assert(self@.live.contains_key(a));
                } else {
                    reveal(filed);
                }
            }
        }
    }
}

/// What the header of the `k`-th member of a linked list holds.
proof fn lemma_linked_at(headers: Map<usize, Header>, list: Seq<usize>, size: int, k: int)
    requires
        linked(headers, list, size),
        0 <= k < list.len(),
    ensures
        headers.contains_key(list[k]),
        headers[list[k]] == (Header {
            size: size as usize,
            origin: Origin::Heap,
            next: link(list, k + 1),
            in_use: false,
        }),
{
    reveal(linked);
}

/// A list stays linked while the headers of its members stay as they are.
proof fn lemma_linked_frame(
    h0: Map<usize, Header>,
    h1: Map<usize, Header>,
    list: Seq<usize>,
    size: int,
)
    requires
        linked(h0, list, size),
        forall|k: int|
            0 <= k < list.len() ==> h1.contains_key(#[trigger] list[k]) && h1[list[k]]
                == h0[list[k]],
    ensures
        linked(h1, list, size),
{
    reveal(linked);
}

/// Writes the headers of `count` neighbouring free blocks of payload `size`,
/// the first at `base`, each pointing to the next and the last to none.
fn link_run(headers: &mut HashMap<usize, Header>, base: usize, size: usize, count: usize)
    requires
        base + count * stride(size as int) <= usize::MAX,
    ensures
        linked(final(headers)@, run(base as int, size as int, count as int), size as int),
        forall|a: usize|
            final(headers)@.contains_key(a) <==> old(headers)@.contains_key(a) || run(
                base as int,
                size as int,
                count as int,
            ).contains(a),
        forall|a: usize|
            old(headers)@.contains_key(a) && !run(base as int, size as int, count as int).contains(
                a,
            ) ==> final(headers)@[a] == old(headers)@[a],
{
    let ghost first = headers@;
    let ghost blocks = run(base as int, size as int, count as int);
    proof {
        lemma_run_len(base as int, size as int, count as int);
    }
    let mut p: usize = base;
    let mut j: usize = 0;
    while j < count
        invariant
            j <= count,
            p == base + j * stride(size as int),
            base + count * stride(size as int) <= usize::MAX,
            blocks == run(base as int, size as int, count as int),
            blocks.len() == count,
            forall|k: int|
                0 <= k < j ==> {
                    &&& headers@.contains_key(#[trigger] blocks[k])
                    &&& headers@[blocks[k]] == Header {
                        size,
                        origin: Origin::Heap,
                        next: link(blocks, k + 1),
                        in_use: false,
                    }
                },
            forall|a: usize|
                headers@.contains_key(a) <==> first.contains_key(a) || exists|k: int|
                    0 <= k < j && #[trigger] blocks[k] == a,
            forall|a: usize|
                first.contains_key(a) && !(exists|k: int| 0 <= k < j && #[trigger] blocks[k] == a)
                    ==> headers@[a] == first[a],
        decreases count - j,
    {
        proof {
            lemma_run_order(base as int, size as int, count as int, j as int, j as int);
            if j + 1 < count {
                lemma_run_order(base as int, size as int, count as int, j as int, j + 1);
            }
            assert forall|k: int| 0 <= k < j implies blocks[k] != p by {
                lemma_run_order(base as int, size as int, count as int, k, j as int);
            }
            assert((j + 1) * stride(size as int) == j * stride(size as int) + stride(size as int))
                by (nonlinear_arith);
        }
        let next_ptr: usize = p + (size + HEADER_SIZE);
        let next = if j != count - 1 {
            Some(next_ptr)
        } else {
            None
        };
        headers.insert(p, Header { size, origin: Origin::Heap, next, in_use: false });
        proof {
            assert(next == link(blocks, j + 1)) by {
                reveal(link);
            }
        }
        p = next_ptr;
        j += 1;
    }
    proof {
        reveal(linked);
    }
}

/// While bootstrap runs: the classes below `limit` are made as `target` has
/// them, the others are still empty, and every header on record is that of a
/// free block of a class that is made.
#[verifier::opaque]
spec fn made(
    headers: Map<usize, Header>,
    lists: Seq<Seq<usize>>,
    target: Seq<Seq<usize>>,
    limit: int,
) -> bool {
    &&& forall|j: int| 1 <= j < limit ==> #[trigger] lists[j] == target[j]
    &&& forall|j: int| (j == 0 || limit <= j < NUM_LIST) ==> (#[trigger] lists[j]).len() == 0
    &&& forall|j: int| 1 <= j < limit ==> linked(headers, #[trigger] lists[j], class_size(j))
    &&& forall|a: usize| #[trigger]
        headers.contains_key(a) ==> {
            &&& !headers[a].in_use
            &&& filed(lists, a, headers[a])
            &&& (headers[a].size as int / ALIGN as int) < limit
        }
}

/// Before the first class is made.
proof fn lemma_made_start(
    headers: Map<usize, Header>,
    lists: Seq<Seq<usize>>,
    target: Seq<Seq<usize>>,
)
    requires
        forall|a: usize| !headers.contains_key(a),
        forall|j: int| 0 <= j < NUM_LIST ==> (#[trigger] lists[j]).len() == 0,
    ensures
        made(headers, lists, target, 1),
{
    reveal(made);
}

/// Making class `class` after the classes below it.
proof fn lemma_made_step(
    h0: Map<usize, Header>,
    h1: Map<usize, Header>,
    lists: Seq<Seq<usize>>,
    target: HeapView,
    class: int,
)
    requires
        made(h0, lists, target.lists, class),
        target.inv(),
        lists.len() == NUM_LIST,
        1 <= class < NUM_LIST,
        linked(h1, target.lists[class], class_size(class)),
        forall|a: usize|
            h1.contains_key(a) <==> h0.contains_key(a) || target.lists[class].contains(a),
        forall|a: usize|
            h0.contains_key(a) && !target.lists[class].contains(a) ==> h1[a] == h0[a],
    ensures
        made(h1, lists.update(class, target.lists[class]), target.lists, class + 1),
{
    reveal(made);
    let blocks = target.lists[class];
    let lists1 = lists.update(class, blocks);
    assert forall|j: int| 1 <= j < class + 1 implies linked(
        h1,
        #[trigger] lists1[j],
        class_size(j),
    ) by {
        if j < class {
            assert forall|k: int| 0 <= k < lists[j].len() implies h1.contains_key(
                #[trigger] lists[j][k],
            ) && h1[lists[j][k]] == h0[lists[j][k]] by {
                lemma_linked_at(h0, lists[j], class_size(j), k);
            }
            lemma_linked_frame(h0, h1, lists[j], class_size(j));
        }
    }
    assert forall|a: usize| #[trigger] h1.contains_key(a) implies {
        &&& !h1[a].in_use
        &&& filed(lists1, a, h1[a])
        &&& (h1[a].size as int / ALIGN as int) < class + 1
    } by {
        reveal(filed);
        if !h0.contains_key(a) {
            let l = choose|l: int| 0 <= l < blocks.len() && blocks[l] == a;
            lemma_linked_at(h1, blocks, class_size(class), l);
        }
    }
}

/// After the last class is made.
proof fn lemma_made_end(
    free_lists: Seq<Option<usize>>,
    headers: Map<usize, Header>,
    lists: Seq<Seq<usize>>,
    target: Seq<Seq<usize>>,
)
    requires
        made(headers, lists, target, NUM_LIST as int),
        lists.len() == NUM_LIST,
        target.len() == NUM_LIST,
        target[0].len() == 0,
        free_lists.len() == NUM_LIST,
        forall|j: int| 0 <= j < NUM_LIST ==> #[trigger] free_lists[j] == link(lists[j], 0),
    ensures
        lists == target,
        rep(free_lists, headers, lists),
        live_of(headers) == Map::<usize, Chunk>::empty(),
{
    reveal(made);
    reveal(linked);
    assert(lists[0] =~= target[0]);
}

/// Bootstrap: carves the region that the heap break gave into the initial
/// blocks of every size class. `before` is where the break stood, `start`
/// what the extension returned. Fails where the two differ or the region
/// cannot be used; the flag is set either way.
fn init_malloc(heap: &mut Allocator, before: usize, start: usize) -> (r: Result<(), usize>)
    requires
        old(heap).wf(),
        !old(heap)@.initialized,
    ensures
        final(heap).wf(),
        r is Ok <==> before == start && HeapView::can_bootstrap(start),
        r is Ok ==> final(heap)@ == old(heap)@.bootstrapped(start),
        r matches Err(e) ==> e == start && final(heap)@ == old(heap)@.bootstrap_failed(),
{
    let ghost state = heap@;
    proof {
        heap.lemma_store_empty();
    }
    heap.initialized = true;
    if start != before {
        return Err(start);
    }
    if start > usize::MAX - INIT_HEAP_SIZE {
        return Err(start);
    }
    let ghost target = state.bootstrapped(start);
    proof {
        reveal(link);
        bootstrap_keeps_inv(state, start);
        lemma_made_start(heap.headers@, heap.lists@, target.lists);
    }
    let mut p: usize = start;
    let mut i: usize = 1;
    while i < NUM_LIST
        invariant
            1 <= i <= NUM_LIST,
            NUM_LIST == 65,
            heap.initialized,
            heap.free_lists@.len() == NUM_LIST,
            heap.lists@.len() == NUM_LIST,
            start + INIT_HEAP_SIZE <= usize::MAX,
            target == state.bootstrapped(start),
            target.inv(),
            p == start + class_offset(i as int),
            made(heap.headers@, heap.lists@, target.lists, i as int),
            forall|j: int|
                0 <= j < NUM_LIST ==> #[trigger] heap.free_lists@[j] == (if 1 <= j < i {
                    Some((start + class_offset(j)) as usize)
                } else {
                    None
                }),
        decreases NUM_LIST - i,
    {
        let size: usize = i * ALIGN;
        let num_header: usize = INIT_LIST_SIZE / size;
        proof {
            lemma_block_count(size as int);
            lemma_initial_block(start as int, i as int, 0);
        }
        heap.free_lists[i] = Some(p);
        let ghost h0 = heap.headers@;
        link_run(&mut heap.headers, p, size, num_header);
        proof {
            lemma_made_step(h0, heap.headers@, heap.lists@, target, i as int);
            heap.lists = Ghost(heap.lists@.update(i as int, target.lists[i as int]));
        }
        p = p + num_header * (size + HEADER_SIZE);
        i += 1;
    }
    proof {
        assert forall|j: int| 0 <= j < NUM_LIST implies #[trigger] heap.free_lists@[j] == link(
            heap.lists@[j],
            0,
        ) by {
            reveal(made);
            if 1 <= j {
                lemma_block_count(class_size(j));
                lemma_initial_block(start as int, j, 0);
                lemma_run_order(
                    start + class_offset(j),
                    class_size(j),
                    initial_count(j),
                    0,
                    0,
                );
            }
        }
        lemma_made_end(heap.free_lists@, heap.headers@, heap.lists@, target.lists);
    }
    Ok(())
}

/// Bytes to ask of the heap break for one growth step of blocks of payload
/// `size`.
fn growth_request(size: usize) -> (bytes: usize)
    requires
        ALIGN <= size <= MAX_BYTE,
    ensures
        bytes == growth_bytes(size as int),
        1 <= growth_count(size as int) <= 64,
        bytes <= 64 * (MAX_BYTE + HEADER_SIZE),
{
    let num_header = ADD_LIST_SIZE / size;
    proof {
        lemma_block_count(size as int);
    }
    num_header * (size + HEADER_SIZE)
}

/// Builds a fresh run of free blocks of payload `size` in the region that
/// the heap break gave: `before` is where the break stood, `start` what the
/// extension returned. Fails, and changes nothing, where the two differ or
/// the region cannot be used.
fn add_list(headers: &mut HashMap<usize, Header>, size: usize, before: usize, start: usize) -> (r:
    Result<usize, usize>)
    requires
        ALIGN <= size <= MAX_BYTE,
    ensures
        r is Ok <==> before == start && adoptable(old(headers)@, start, size as int),
        match r {
            Ok(first) => {
                &&& first == start
                &&& linked(
                    final(headers)@,
                    run(start as int, size as int, growth_count(size as int)),
                    size as int,
                )
                &&& forall|a: usize|
                    final(headers)@.contains_key(a) <==> old(headers)@.contains_key(a) || run(
                        start as int,
                        size as int,
                        growth_count(size as int),
                    ).contains(a)
                &&& forall|a: usize|
                    old(headers)@.contains_key(a) ==> final(headers)@[a] == old(headers)@[a]
            },
            Err(e) => e == start && final(headers)@ == old(headers)@,
        },
{
    if start != before {
        return Err(start);
    }
    let num_header = ADD_LIST_SIZE / size;
    let bytes = growth_request(size);
    if start > usize::MAX - bytes {
        proof {
            reveal(adoptable);
        }
        return Err(start);
    }
    let ghost blocks = run(start as int, size as int, num_header as int);
    let mut p: usize = start;
    let mut j: usize = 0;
    while j < num_header
        invariant
            j <= num_header,
            num_header == growth_count(size as int),
            start + num_header * stride(size as int) <= usize::MAX,
            p == start + j * stride(size as int),
            blocks == run(start as int, size as int, num_header as int),
            forall|k: int| 0 <= k < j ==> !headers@.contains_key(#[trigger] blocks[k]),
            headers@ == old(headers)@,
        decreases num_header - j,
    {
        proof {
            lemma_run_order(start as int, size as int, num_header as int, j as int, j as int);
            assert((j + 1) * stride(size as int) == j * stride(size as int) + stride(size as int))
                by (nonlinear_arith);
        }
        if headers.contains_key(&p) {
            proof {
                reveal(adoptable);
            }
            return Err(start);
        }
        p = p + (size + HEADER_SIZE);
        j += 1;
    }
    link_run(headers, start, size, num_header);
    proof {
        reveal(adoptable);
        assert forall|a: usize| old(headers)@.contains_key(a) implies !blocks.contains(a) by {
            if blocks.contains(a) {
                lemma_run_len(start as int, size as int, num_header as int);
            }
        }
    }
    Ok(start)
}

/// The head of a list is its first member.
proof fn lemma_link_head(list: Seq<usize>)
    ensures
        link(list, 0) == (if list.len() > 0 {
            Some(list[0])
        } else {
            None::<usize>
        }),
{
    reveal(link);
}

/// The parts agree after an empty class got a fresh run.
proof fn lemma_rep_grown(
    fl: Seq<Option<usize>>,
    h0: Map<usize, Header>,
    h1: Map<usize, Header>,
    s: HeapView,
    class: int,
    base: usize,
)
    requires
        rep(fl, h0, s.lists),
        1 <= class < NUM_LIST,
        s.lists[class].len() == 0,
        s.grown(class, base).lists[class].len() >= 1,
        s.grown(class, base).lists[class][0] == base,
        linked(h1, s.grown(class, base).lists[class], class_size(class)),
        forall|a: usize|
            h1.contains_key(a) <==> h0.contains_key(a) || s.grown(class, base).lists[class].contains(
                a,
            ),
        forall|a: usize| h0.contains_key(a) ==> h1[a] == h0[a],
    ensures
        rep(fl.update(class, Some(base)), h1, s.grown(class, base).lists),
        live_of(h1) == live_of(h0),
{
    let lists1 = s.grown(class, base).lists;
    let blocks = lists1[class];
    lemma_link_head(blocks);
    assert forall|i: int| 0 <= i < NUM_LIST implies linked(
        h1,
        #[trigger] lists1[i],
        class_size(i),
    ) by {
        if i != class {
            assert forall|k: int| 0 <= k < s.lists[i].len() implies h1.contains_key(
                #[trigger] s.lists[i][k],
            ) && h1[s.lists[i][k]] == h0[s.lists[i][k]] by {
                lemma_linked_at(h0, s.lists[i], class_size(i), k);
            }
            lemma_linked_frame(h0, h1, s.lists[i], class_size(i));
        }
    }
    assert forall|a: usize| #[trigger] h1.contains_key(a) && !h1[a].in_use implies filed(
        lists1,
        a,
        h1[a],
    ) by {
        reveal(filed);
        if !h0.contains_key(a) {
            let l = choose|l: int| 0 <= l < blocks.len() && blocks[l] == a;
            lemma_linked_at(h1, blocks, class_size(class), l);
        }
    }
    assert forall|a: usize| h1.contains_key(a) && !h0.contains_key(a) implies !h1[a].in_use by {
        let l = choose|l: int| 0 <= l < blocks.len() && blocks[l] == a;
        lemma_linked_at(h1, blocks, class_size(class), l);
    }
}

/// The parts agree after the first free block of a class was handed out.
proof fn lemma_rep_popped(fl: Seq<Option<usize>>, h0: Map<usize, Header>, s: HeapView, class: int)
    requires
        rep(fl, h0, s.lists),
        s.inv(),
        s.live == live_of(h0),
        1 <= class < NUM_LIST,
        s.lists[class].len() > 0,
    ensures
        fl[class] == Some(s.lists[class][0]),
        h0.contains_key(s.lists[class][0]),
        h0[s.lists[class][0]].size == class_size(class),
        h0[s.lists[class][0]].origin == Origin::Heap,
        rep(
            fl.update(class, h0[s.lists[class][0]].next),
            h0.insert(s.lists[class][0], Header { in_use: true, ..h0[s.lists[class][0]] }),
            s.popped(class).lists,
        ),
        live_of(h0.insert(s.lists[class][0], Header { in_use: true, ..h0[s.lists[class][0]] }))
            == s.popped(class).live,
{
    let list = s.lists[class];
    let head = list[0];
    let h = h0[head];
    let h1 = h0.insert(head, Header { in_use: true, ..h });
    let fl1 = fl.update(class, h.next);
    let lists1 = s.popped(class).lists;
    lemma_link_head(list);
    lemma_linked_at(h0, list, class_size(class), 0);
    assert forall|i: int| 0 <= i < NUM_LIST implies #[trigger] fl1[i] == link(lists1[i], 0) by {
        reveal(link);
    }
    assert forall|i: int| 0 <= i < NUM_LIST implies linked(
        h1,
        #[trigger] lists1[i],
        class_size(i),
    ) by {
        reveal(linked);
        reveal(link);
    }
    assert forall|a: usize| #[trigger] h1.contains_key(a) && !h1[a].in_use implies filed(
        lists1,
        a,
        h1[a],
    ) by {
        reveal(filed);
        let c = h0[a].size as int / ALIGN as int;
        let k = choose|k: int| 0 <= k < s.lists[c].len() && s.lists[c][k] == a;
        if c == class {
            assert(lists1[c][k - 1] == a);
        }
    }
}

/// A linked list with a new first member, whose header points to the old
/// first member, is linked.
proof fn lemma_linked_push(
    h0: Map<usize, Header>,
    list: Seq<usize>,
    size: int,
    a: usize,
    h: Header,
)
    requires
        linked(h0, list, size),
        forall|k: int| 0 <= k < list.len() ==> #[trigger] list[k] != a,
        h == (Header { size: size as usize, origin: Origin::Heap, next: link(list, 0), in_use: false }),
    ensures
        linked(h0.insert(a, h), seq![a] + list, size),
{
    reveal(linked);
    reveal(link);
}

/// The parts agree after a held heap block went back to its class.
proof fn lemma_rep_pushed(fl: Seq<Option<usize>>, h0: Map<usize, Header>, s: HeapView, a: usize)
    requires
        rep(fl, h0, s.lists),
        s.live == live_of(h0),
        s.live.contains_key(a),
        s.live[a].origin == Origin::Heap,
        chunk_ok(a, s.live[a]),
    ensures
        1 <= s.live[a].size as int / ALIGN as int,
        (s.live[a].size as int / ALIGN as int) < NUM_LIST,
        rep(
            fl.update(s.live[a].size as int / ALIGN as int, Some(a)),
            h0.insert(
                a,
                Header { next: fl[s.live[a].size as int / ALIGN as int], in_use: false, ..h0[a] },
            ),
            s.released(a).lists,
        ),
        live_of(
            h0.insert(
                a,
                Header { next: fl[s.live[a].size as int / ALIGN as int], in_use: false, ..h0[a] },
            ),
        ) == s.released(a).live,
{
    let class = s.live[a].size as int / ALIGN as int;
    let list = s.lists[class];
    let h = Header { next: fl[class], in_use: false, ..h0[a] };
    let h1 = h0.insert(a, h);
    let fl1 = fl.update(class, Some(a));
    let lists1 = s.released(a).lists;
    assert forall|i: int, k: int| 0 <= i < NUM_LIST && 0 <= k < s.lists[i].len() implies #[trigger] s.lists[i][k]
        != a by {
        lemma_linked_at(h0, s.lists[i], class_size(i), k);
    }
    assert forall|i: int| 0 <= i < NUM_LIST implies #[trigger] fl1[i] == link(lists1[i], 0) by {
        if i == class {
            lemma_link_head(lists1[i]);
        }
    }
    assert forall|i: int| 0 <= i < NUM_LIST implies linked(
        h1,
        #[trigger] lists1[i],
        class_size(i),
    ) by {
        if i != class {
            assert forall|k: int| 0 <= k < s.lists[i].len() implies h1.contains_key(
                #[trigger] s.lists[i][k],
            ) && h1[s.lists[i][k]] == h0[s.lists[i][k]] by {
                lemma_linked_at(h0, s.lists[i], class_size(i), k);
            }
            lemma_linked_frame(h0, h1, s.lists[i], class_size(i));
        } else {
            lemma_linked_push(h0, list, class_size(class), a, h);
        }
    }
    assert forall|b: usize| #[trigger] h1.contains_key(b) && !h1[b].in_use implies filed(
        lists1,
        b,
        h1[b],
    ) by {
        reveal(filed);
        if b == a {
            assert(lists1[class][0] == a);
        } else {
            let c = h0[b].size as int / ALIGN as int;
            let k = choose|k: int| 0 <= k < s.lists[c].len() && s.lists[c][k] == b;
            if c == class {
                assert(lists1[c][k + 1] == b);
            }
        }
    }
}

/// The parts agree after a header that no list holds was written or removed.
proof fn lemma_rep_frame(
    fl: Seq<Option<usize>>,
    h0: Map<usize, Header>,
    h1: Map<usize, Header>,
    lists: Seq<Seq<usize>>,
    a: usize,
)
    requires
        rep(fl, h0, lists),
        !h0.contains_key(a) || h0[a].in_use,
        !h1.contains_key(a) || h1[a].in_use,
        forall|b: usize| b != a ==> h1.contains_key(b) == h0.contains_key(b) && h1[b] == h0[b],
    ensures
        rep(fl, h1, lists),
{
    assert forall|i: int| 0 <= i < NUM_LIST implies linked(h1, #[trigger] lists[i], class_size(i)) by {
        assert forall|k: int| 0 <= k < lists[i].len() implies h1.contains_key(
            #[trigger] lists[i][k],
        ) && h1[lists[i][k]] == h0[lists[i][k]] by {
            lemma_linked_at(h0, lists[i], class_size(i), k);
        }
        lemma_linked_frame(h0, h1, lists[i], class_size(i));
    }
}

/// What a search for a free block came to.
enum Found {
    /// The header of the block that was taken from its list.
    Chunk(usize),
    /// The class is empty: so many bytes are to be asked of the heap break.
    Grow(usize),
    /// The heap break did not give a region that can be used; what it returned.
    Failed(usize),
}

impl Found {
    /// What the caller of `malloc` is told.
    spec fn step(self) -> Step {
        match self {
            Found::Chunk(header) => Step::Ready((header + HEADER_SIZE) as usize),
            Found::Grow(bytes) => Step::NeedBreak(bytes),
            Found::Failed(_) => Step::Ready(0),
        }
    }
}

/// Takes one free block of payload `size` from its size class. An empty
/// class is first given a fresh run, in the region that `reply` reports.
fn find_chunk(heap: &mut Allocator, size: usize, reply: Reply) -> (r: Found)
    requires
        old(heap).wf(),
        old(heap)@.initialized,
        ALIGN <= size <= MAX_BYTE,
        size % ALIGN == 0,
    ensures
        final(heap).wf(),
        (final(heap)@, r.step()) == old(heap)@.serve_small(size as int / ALIGN as int, reply),
        r matches Found::Chunk(header) ==> header + HEADER_SIZE <= usize::MAX,
{
    let index = size / ALIGN;
    let ghost s0 = heap@;
    proof {
        lemma_link_head(heap.lists@[index as int]);
    }
    if heap.free_lists[index].is_none() {
        match reply {
            Reply::Break { before, start } => {
                let ghost h0 = heap.headers@;
                let ghost fl0 = heap.free_lists@;
                proof {
                    heap.lemma_adoptable(start, size as int);
                }
                match add_list(&mut heap.headers, size, before, start) {
                    Ok(new_list) => {
                        heap.free_lists[index] = Some(new_list);
                        proof {
                            growth_keeps_inv(s0, index as int, start);
                            lemma_rep_grown(fl0, h0, heap.headers@, s0, index as int, start);
                            heap.lists = Ghost(s0.grown(index as int, start).lists);
                        }
                    },
                    Err(err) => {
                        return Found::Failed(err);
                    },
                }
            },
            _ => {
                return Found::Grow(growth_request(size));
            },
        }
    }
    let ghost s1 = heap@;
    proof {
        lemma_rep_popped(heap.free_lists@, heap.headers@, s1, index as int);
    }
    let header: usize = heap.free_lists[index].unwrap();
    let h: Header = *heap.headers.get(&header).unwrap();
    heap.free_lists[index] = h.next;
    heap.headers.insert(
        header,
        Header { size: h.size, origin: h.origin, next: h.next, in_use: true },
    );
    proof {
        heap.lists = Ghost(s1.popped(index as int).lists);
    }
    Found::Chunk(header)
}

/// Allocates `size` bytes. A request for no bytes gives the null pointer and
/// changes nothing. The first request of any size runs bootstrap; a failed
/// bootstrap fails the request. A request that rounds to at most
/// [`MAX_BYTE`] takes the first free block of its size class; a larger one
/// gets a mapping of its own, of the header's size and `size` bytes.
///
/// Where memory of the system is needed and `reply` does not bring it, the
/// answer says what to ask for; the request is then made again with the
/// answer of the system. Nothing has changed by then, but for a bootstrap
/// that `reply` brought the region for.
///
/// A region that cannot be used counts as a failure of the system: one that
/// does not end inside the address space, or in which a block would start
/// where a block of the allocator does.
pub fn malloc(heap: &mut Allocator, size: usize, reply: Reply) -> (step: Step)
    requires
        old(heap).wf(),
        size + HEADER_SIZE <= usize::MAX,
    ensures
        final(heap).wf(),
        (final(heap)@, step) == old(heap)@.malloc(size, reply),
        size == 0 ==> step == Step::Ready(0) && final(heap)@ == old(heap)@,
        step matches Step::Ready(p) ==> p != 0 ==> {
            &&& final(heap)@.is_live(p)
            &&& !old(heap)@.is_live(p)
            &&& final(heap)@.usable(header_of(p as int) as usize) >= size
        },
{
    proof {
        served_block_has_room(heap@, size, reply);
    }
    if size == 0 {
        return Step::Ready(0);
    }
    let mut reply = reply;
    if !heap.initialized {
        match reply {
            Reply::Break { before, start } => {
                if init_malloc(heap, before, start).is_err() {
                    return Step::Ready(0);
                }
                reply = Reply::Nothing;
            },
            _ => {
                return Step::NeedBreak(INIT_HEAP_SIZE);
            },
        }
    }
    let size_align = get_align(size);
    if size_align <= MAX_BYTE {
        match find_chunk(heap, size_align, reply) {
            Found::Chunk(header) => Step::Ready(header + HEADER_SIZE),
            Found::Grow(bytes) => Step::NeedBreak(bytes),
            Found::Failed(_) => Step::Ready(0),
        }
    } else {
        let mmap_size = HEADER_SIZE + size;
        match reply {
            Reply::Mapping { addr } => {
                proof {
                    heap.lemma_manages(addr);
                }
                if addr > usize::MAX - mmap_size || heap.headers.contains_key(&addr) {
                    return Step::Ready(0);
                }
                let ghost s0 = heap@;
                let ghost h0 = heap.headers@;
                heap.headers.insert(
                    addr,
                    Header { size: mmap_size, origin: Origin::Mapped, next: None, in_use: true },
                );
                proof {
                    lemma_rep_frame(heap.free_lists@, h0, heap.headers@, heap.lists@, addr);
                    assert(heap@.live =~= s0.with_mapping(addr, mmap_size as int).live);
                }
                Step::Ready(addr + HEADER_SIZE)
            },
            Reply::NoMapping => Step::Ready(0),
            _ => Step::NeedMapping(
                Mapping {
                    bytes: mmap_size,
                    read: true,
                    write: true,
                    execute: true,
                    private: true,
                    anonymous: true,
                },
            ),
        }
    }
}

/// Gives the block at payload pointer `p` back; the null pointer is ignored.
/// A heap block becomes the first free block of its size class. A mapped
/// block is forgotten, and the answer tells the caller to unmap it, by the
/// size that its header holds.
pub fn free(heap: &mut Allocator, p: usize) -> (release: Release)
    requires
        old(heap).wf(),
        p == 0 || old(heap)@.is_live(p),
    ensures
        final(heap).wf(),
        (final(heap)@, release) == old(heap)@.free(p),
        p == 0 ==> release == Release::Nothing && final(heap)@ == old(heap)@,
        p != 0 ==> !final(heap)@.is_live(p),
{
    if p == 0 {
        return Release::Nothing;
    }
    let ghost s0 = heap@;
    let ghost h0 = heap.headers@;
    let header = get_header(p);
    let h: Header = *heap.headers.get(&header).unwrap();
    let size = h.size;
    proof {
    }
    match h.origin {
        Origin::Mapped => {
            heap.headers.remove(&header);
            proof {
                lemma_rep_frame(heap.free_lists@, h0, heap.headers@, heap.lists@, header);
                assert(heap@.live =~= s0.released(header).live);
            }
            Release::Unmap { addr: header, len: size }
        },
        Origin::Heap => {
            proof {
                lemma_rep_pushed(heap.free_lists@, h0, s0, header);
            }
            let index = size / ALIGN;
            let first_header = heap.free_lists[index];
            heap.free_lists[index] = Some(header);
            heap.headers.insert(
                header,
                Header { size: h.size, origin: h.origin, next: first_header, in_use: false },
            );
            proof {
                heap.lists = Ghost(s0.released(header).lists);
            }
            Release::Nothing
        },
    }
}

/// A message for a file descriptor.
#[derive(Clone, Copy, Debug, PartialEq, Eq)]
pub struct Diagnostic {
    pub fd: i32,
    pub message: &'static str,
}

/// What to write after the unmapping that [`free`] asked for: nothing where
/// it succeeded, with status 0; else the complaint, for the standard output.
pub fn unmap_diagnostic(status: i32) -> (r: Option<Diagnostic>)
    ensures
        status == 0 <==> r is None,
        r matches Some(d) ==> d.fd == 1 && d.message@ == "fail munmanp\n"@,
{
    if status == 0 {
        None
    } else {
        Some(Diagnostic { fd: 1, message: "fail munmanp\n" })
    }
}

/// Moves the block at payload pointer `p` to a new block of `size` bytes,
/// rounded up: allocates the new block, tells the caller how many bytes to
/// copy (the lesser of the old header's size and the rounded size; none where
/// the allocation failed), and gives the old block back. With the null
/// pointer for `p` it only allocates.
///
/// Where the allocation needs memory of the system that `reply` does not
/// bring, the answer says what to ask for, and the old block is still held.
pub fn realloc(heap: &mut Allocator, p: usize, size: usize, reply: Reply) -> (r: Resize)
    requires
        old(heap).wf(),
        p == 0 || old(heap)@.is_live(p),
        size + (ALIGN - 1) + HEADER_SIZE <= usize::MAX,
    ensures
        final(heap).wf(),
        (final(heap)@, r) == old(heap)@.realloc(p, size, reply),
        match r {
            Resize::Ready { ptr, copy, release } => {
                &&& p != 0 ==> !final(heap)@.is_live(p)
                &&& ptr != 0 ==> {
                    &&& ptr != p
                    &&& final(heap)@.is_live(ptr)
                    &&& final(heap)@.usable(header_of(ptr as int) as usize) >= size
                }
                &&& (p == 0 || ptr == 0) ==> copy == 0
            },
            _ => p != 0 ==> final(heap)@.is_live(p),
        },
{
    let ghost s0 = heap@;
    proof {
    }
    let size_align = get_align(size);
    let new_ptr: usize = match malloc(heap, size_align, reply) {
        Step::Ready(q) => q,
        Step::NeedBreak(bytes) => {
            return Resize::NeedBreak(bytes);
        },
        Step::NeedMapping(bytes) => {
            return Resize::NeedMapping(bytes);
        },
    };
    if p == 0 {
        return Resize::Ready { ptr: new_ptr, copy: 0, release: Release::Nothing };
    }
    let header = get_header(p);
    proof {
    }
    let held: usize = heap.headers.get(&header).unwrap().size;
    let memcpy_size: usize = if new_ptr == 0 {
        0
    } else if held < size_align {
        held
    } else {
        size_align
    };
    let release = free(heap, p);
    Resize::Ready { ptr: new_ptr, copy: memcpy_size, release }
}

} // verus!
