//! The allocator as a mathematical state, and what each operation does to it.
use crate::layout::{
    align_up, class_offset, class_size, growth_bytes, growth_count, header_of, initial_count,
    payload_of, run, ALIGN, HEADER_SIZE, INIT_HEAP_SIZE, MAX_BYTE, NUM_LIST,
};
use vstd::prelude::*;

verus! {

/// Where a block's memory came from.
#[derive(Clone, Copy, Debug, PartialEq, Eq, Structural)]
pub enum Origin {
    /// Carved from the heap, and kept in a size class for ever.
    Heap,
    /// A mapping of its own, returned to the system when freed.
    Mapped,
}

/// The record in front of every block.
#[derive(Clone, Copy, Debug)]
pub struct Header {
    /// Payload size of a heap block; size of the whole mapping of a mapped one.
    pub size: usize,
    /// Set when the block is made, and never changed.
    pub origin: Origin,
    /// The next free block of the same size class. It means something only
    /// while the block itself is free.
    pub next: Option<usize>,
    /// Whether a caller holds the block.
    pub in_use: bool,
}

/// What the allocator records of a block that a caller holds.
#[derive(Clone, Copy, Debug, PartialEq, Eq, Structural)]
pub struct Chunk {
    /// For a heap block its payload size; for a mapped block the size of the
    /// whole mapping, header included.
    pub size: usize,
    pub origin: Origin,
}

/// What the caller reports back to the allocator.
#[derive(Clone, Copy, Debug, PartialEq, Eq, Structural)]
pub enum Reply {
    /// Nothing was asked of the system yet.
    Nothing,
    /// The heap break was asked for more: `before` is where it stood, `start`
    /// the address that the extension returned. Where the two are equal the
    /// new region starts there; where they differ the extension failed, or
    /// the break was moved by another.
    Break { before: usize, start: usize },
    /// A mapping was made at `addr`.
    Mapping { addr: usize },
    /// The system refused the mapping.
    NoMapping,
}

/// A mapping to ask of the system.
#[derive(Clone, Copy, Debug, PartialEq, Eq, Structural)]
pub struct Mapping {
    /// Its size in bytes.
    pub bytes: usize,
    /// Its pages can be read.
    pub read: bool,
    /// Its pages can be written.
    pub write: bool,
    /// Its pages can be executed.
    pub execute: bool,
    /// What is written to it stays with this process.
    pub private: bool,
    /// No file stands behind it.
    pub anonymous: bool,
}

/// The mapping that holds one large block: `bytes` bytes, private and
/// anonymous, to read, write and execute.
pub open spec fn block_mapping(bytes: usize) -> Mapping {
    Mapping { bytes, read: true, write: true, execute: true, private: true, anonymous: true }
}

/// How an allocation request stands.
#[derive(Clone, Copy, Debug, PartialEq, Eq, Structural)]
pub enum Step {
    /// Finished: the payload pointer, or 0 where the request failed or asked
    /// for no bytes.
    Ready(usize),
    /// Extend the heap break by that many bytes, then repeat the request with
    /// [`Reply::Break`].
    NeedBreak(usize),
    /// Make this mapping, then repeat the request with [`Reply::Mapping`] or
    /// [`Reply::NoMapping`].
    NeedMapping(Mapping),
}

/// What the caller must do with the memory of a freed block.
#[derive(Clone, Copy, Debug, PartialEq, Eq, Structural)]
pub enum Release {
    /// Nothing: the pointer was null, or the block went back to its size class.
    Nothing,
    /// Unmap `len` bytes at `addr`.
    Unmap { addr: usize, len: usize },
}

/// How a reallocation request stands.
#[derive(Clone, Copy, Debug, PartialEq, Eq, Structural)]
pub enum Resize {
    /// Finished: the new payload pointer (0 on failure), the number of bytes
    /// to copy from the old payload to the new one, and what to do with the
    /// old block's memory afterwards.
    Ready { ptr: usize, copy: usize, release: Release },
    /// As [`Step::NeedBreak`].
    NeedBreak(usize),
    /// As [`Step::NeedMapping`].
    NeedMapping(Mapping),
}

/// The allocator's state: the free blocks of each size class in the order in
/// which they will be handed out, and the blocks that callers hold. Blocks
/// are named by the address of their header.
pub struct HeapView {
    pub initialized: bool,
    pub lists: Seq<Seq<usize>>,
    pub live: Map<usize, Chunk>,
}

/// A held block's record is sound: a heap block has the size of a size class,
/// a mapped block has room for its header, and both end inside the address
/// space.
pub open spec fn chunk_ok(a: usize, c: Chunk) -> bool {
    match c.origin {
        Origin::Heap => {
            &&& c.size % ALIGN == 0
            &&& ALIGN <= c.size <= MAX_BYTE
            &&& a + HEADER_SIZE + c.size <= usize::MAX
        },
        Origin::Mapped => HEADER_SIZE <= c.size && a + c.size <= usize::MAX,
    }
}

impl HeapView {
    /// The state before first use.
    pub open spec fn empty() -> HeapView {
        HeapView {
            initialized: false,
            lists: Seq::new(NUM_LIST as nat, |i: int| Seq::<usize>::empty()),
            live: Map::empty(),
        }
    }

    /// `a` is the header of a free block.
    pub open spec fn is_free(self, a: usize) -> bool {
        exists|i: int, k: int|
            0 <= i < self.lists.len() && 0 <= k < self.lists[i].len() && #[trigger] self.lists[i][k]
                == a
    }

    /// `a` is the header of a block that the allocator knows, free or held.
    pub open spec fn manages(self, a: usize) -> bool {
        self.live.contains_key(a) || self.is_free(a)
    }

    /// `p` is the payload pointer of a block that a caller holds.
    pub open spec fn is_live(self, p: usize) -> bool {
        p >= HEADER_SIZE && self.live.contains_key(header_of(p as int) as usize)
    }

    /// Bytes that the caller may use at the payload of the held block whose
    /// header is at `a`.
    pub open spec fn usable(self, a: usize) -> int {
        match self.live[a].origin {
            Origin::Heap => self.live[a].size as int,
            Origin::Mapped => self.live[a].size - HEADER_SIZE,
        }
    }

    /// `h` is what the header at `a` holds: for a held block its size and
    /// origin; for a free block its class's size and the free block that
    /// follows it in its list.
    pub open spec fn records(self, a: usize, h: Header) -> bool {
        &&& self.live.contains_key(a) ==> h.in_use && h.size == self.live[a].size && h.origin
            == self.live[a].origin
        &&& forall|i: int, k: int|
            0 <= i < self.lists.len() && 0 <= k < self.lists[i].len() && #[trigger] self.lists[i][k]
                == a ==> h == Header {
                size: class_size(i) as usize,
                origin: Origin::Heap,
                next: if k + 1 < self.lists[i].len() {
                    Some(self.lists[i][k + 1])
                } else {
                    None
                },
                in_use: false,
            }
    }

    /// What holds of every state that the operations reach.
    pub open spec fn inv(self) -> bool {
        &&& self.lists.len() == NUM_LIST
        &&& self.lists[0].len() == 0
        &&& forall|i: int, k: int|
            0 <= i < NUM_LIST && 0 <= k < self.lists[i].len() ==> {
                &&& !self.live.contains_key(#[trigger] self.lists[i][k])
                &&& self.lists[i][k] + HEADER_SIZE + class_size(i) <= usize::MAX
            }
        &&& forall|i: int, k: int, j: int, l: int|
            0 <= i < NUM_LIST && 0 <= k < self.lists[i].len() && 0 <= j < NUM_LIST && 0 <= l
                < self.lists[j].len() && (i != j || k != l) ==> #[trigger] self.lists[i][k]
                != #[trigger] self.lists[j][l]
        &&& forall|a: usize| #[trigger] self.live.contains_key(a) ==> chunk_ok(a, self.live[a])
        &&& !self.initialized ==> {
            &&& self.live =~= Map::empty()
            &&& forall|i: int| 0 <= i < NUM_LIST ==> (#[trigger] self.lists[i]).len() == 0
        }
    }

    /// A bootstrap region at `base` lies inside the address space.
    pub open spec fn can_bootstrap(base: usize) -> bool {
        base + INIT_HEAP_SIZE <= usize::MAX
    }

    /// A growth region at `base` for blocks of payload `size` lies inside the
    /// address space, and none of its blocks starts where a known block does.
    pub open spec fn can_adopt_run(self, base: usize, size: int) -> bool {
        &&& base + growth_bytes(size) <= usize::MAX
        &&& forall|k: int|
            0 <= k < growth_count(size) ==> !self.manages(
                #[trigger] run(base as int, size, growth_count(size))[k],
            )
    }

    /// A mapping of `len` bytes at `addr` lies inside the address space and
    /// does not start where a known block does.
    pub open spec fn can_adopt_mapping(self, addr: usize, len: int) -> bool {
        addr + len <= usize::MAX && !self.manages(addr)
    }

    /// After a successful bootstrap in the region at `base`: every size class
    /// holds its initial blocks, lowest address first.
    pub open spec fn bootstrapped(self, base: usize) -> HeapView {
        HeapView {
            initialized: true,
            lists: Seq::new(
                NUM_LIST as nat,
                |i: int|
                    if i == 0 {
                        Seq::<usize>::empty()
                    } else {
                        run(base + class_offset(i), class_size(i), initial_count(i))
                    },
            ),
            live: self.live,
        }
    }

    /// After a failed bootstrap: only the flag is set.
    pub open spec fn bootstrap_failed(self) -> HeapView {
        HeapView { initialized: true, ..self }
    }

    /// After size class `class`, which was empty, got a fresh run at `base`.
    pub open spec fn grown(self, class: int, base: usize) -> HeapView {
        HeapView {
            lists: self.lists.update(
                class,
                run(base as int, class_size(class), growth_count(class_size(class))),
            ),
            ..self
        }
    }

    /// After the first free block of `class` was handed to a caller.
    pub open spec fn popped(self, class: int) -> HeapView {
        HeapView {
            lists: self.lists.update(class, self.lists[class].drop_first()),
            live: self.live.insert(
                self.lists[class][0],
                Chunk { size: class_size(class) as usize, origin: Origin::Heap },
            ),
            ..self
        }
    }

    /// After a mapping of `len` bytes at `addr` was handed to a caller.
    pub open spec fn with_mapping(self, addr: usize, len: int) -> HeapView {
        HeapView {
            live: self.live.insert(addr, Chunk { size: len as usize, origin: Origin::Mapped }),
            ..self
        }
    }

    /// After the held block with header `a` was given back: a heap block is
    /// now the first free block of its class, a mapped block is forgotten.
    pub open spec fn released(self, a: usize) -> HeapView {
        let c = self.live[a];
        let class = c.size as int / ALIGN as int;
        match c.origin {
            Origin::Heap => HeapView {
                lists: self.lists.update(class, seq![a] + self.lists[class]),
                live: self.live.remove(a),
                ..self
            },
            Origin::Mapped => HeapView { live: self.live.remove(a), ..self },
        }
    }

    /// A request that rounds to size class `class`, in an initialized state.
    pub open spec fn serve_small(self, class: int, reply: Reply) -> (HeapView, Step) {
        if self.lists[class].len() > 0 {
            (self.popped(class), Step::Ready(payload_of(self.lists[class][0] as int) as usize))
        } else {
            match reply {
                Reply::Break { before, start } => if before == start && self.can_adopt_run(
                    start,
                    class_size(class),
                ) {
                    (
                        self.grown(class, start).popped(class),
                        Step::Ready(payload_of(start as int) as usize),
                    )
                } else {
                    (self, Step::Ready(0))
                },
                _ => (self, Step::NeedBreak(growth_bytes(class_size(class)) as usize)),
            }
        }
    }

    /// A request for `size` bytes that is too large for the size classes, in
    /// an initialized state.
    pub open spec fn serve_large(self, size: usize, reply: Reply) -> (HeapView, Step) {
        let len = HEADER_SIZE + size;
        match reply {
            Reply::Mapping { addr } => if self.can_adopt_mapping(addr, len) {
                (self.with_mapping(addr, len), Step::Ready(payload_of(addr as int) as usize))
            } else {
                (self, Step::Ready(0))
            },
            Reply::NoMapping => (self, Step::Ready(0)),
            _ => (self, Step::NeedMapping(block_mapping(len as usize))),
        }
    }

    /// A request for `size` bytes in an initialized state.
    pub open spec fn serve(self, size: usize, reply: Reply) -> (HeapView, Step) {
        let rounded = align_up(size as int);
        if rounded <= MAX_BYTE {
            self.serve_small(rounded / ALIGN as int, reply)
        } else {
            self.serve_large(size, reply)
        }
    }

    /// What `malloc` does: the next state and the answer.
    pub open spec fn malloc(self, size: usize, reply: Reply) -> (HeapView, Step) {
        if size == 0 {
            (self, Step::Ready(0))
        } else if !self.initialized {
            match reply {
                Reply::Break { before, start } => if before == start && Self::can_bootstrap(start) {
                    self.bootstrapped(start).serve(size, Reply::Nothing)
                } else {
                    (self.bootstrap_failed(), Step::Ready(0))
                },
                _ => (self, Step::NeedBreak(INIT_HEAP_SIZE)),
            }
        } else {
            self.serve(size, reply)
        }
    }

    /// What `free` does: the next state and what to do with the memory.
    pub open spec fn free(self, p: usize) -> (HeapView, Release) {
        if p == 0 {
            (self, Release::Nothing)
        } else {
            let a = header_of(p as int) as usize;
            let c = self.live[a];
            (
                self.released(a),
                match c.origin {
                    Origin::Heap => Release::Nothing,
                    Origin::Mapped => Release::Unmap { addr: a, len: c.size },
                },
            )
        }
    }

    /// After the blocks at the payload pointers `ps` were given back, one
    /// after another.
    pub open spec fn free_each(self, ps: Seq<usize>) -> HeapView
        decreases ps.len(),
    {
        if ps.len() == 0 {
            self
        } else {
            self.free_each(ps.drop_last()).free(ps.last()).0
        }
    }

    /// `n` requests for `size` bytes in a row, each made once, with nothing
    /// of the system: the state after the last, and the answers in their
    /// order.
    pub open spec fn malloc_each(self, size: usize, n: nat) -> (HeapView, Seq<Step>)
        decreases n,
    {
        if n == 0 {
            (self, Seq::empty())
        } else {
            let (next, step) = self.malloc(size, Reply::Nothing);
            let (last, steps) = next.malloc_each(size, (n - 1) as nat);
            (last, seq![step] + steps)
        }
    }

    /// What `realloc` does: the next state and the answer.
    pub open spec fn realloc(self, p: usize, size: usize, reply: Reply) -> (HeapView, Resize) {
        let rounded = align_up(size as int) as usize;
        let (next, step) = self.malloc(rounded, reply);
        match step {
            Step::Ready(q) => if p == 0 {
                (next, Resize::Ready { ptr: q, copy: 0, release: Release::Nothing })
            } else {
                let held = self.live[header_of(p as int) as usize].size;
                let (last, release) = next.free(p);
                (
                    last,
                    Resize::Ready {
                        ptr: q,
                        copy: if q == 0 {
                            0
                        } else if held < rounded {
                            held
                        } else {
                            rounded
                        },
                        release,
                    },
                )
            },
            Step::NeedBreak(n) => (next, Resize::NeedBreak(n)),
            Step::NeedMapping(n) => (next, Resize::NeedMapping(n)),
        }
    }
}

} // verus!
