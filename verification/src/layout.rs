//! Sizes, rounding and address arithmetic.
use vstd::prelude::*;

verus! {

/// The rounding quantum: every request is rounded up to a multiple of it.
pub const ALIGN: usize = 8;

/// The largest rounded size that is served from a size class.
pub const MAX_BYTE: usize = 512;

/// Payload bytes that bootstrap sets aside for each size class.
pub const INIT_LIST_SIZE: usize = 512;

/// Payload bytes that one growth step adds to a size class.
pub const ADD_LIST_SIZE: usize = 512;

/// Number of size classes, the unused class 0 included.
pub const NUM_LIST: usize = MAX_BYTE / ALIGN + 1;

/// Room reserved in front of every payload: three words of eight bytes.
pub const HEADER_SIZE: usize = 24;

/// Bytes that bootstrap asks of the heap break.
#[verifier::nonlinear]
pub const INIT_HEAP_SIZE: usize = NUM_LIST * (INIT_LIST_SIZE + HEADER_SIZE);

/// `size` rounded up to the next multiple of [`ALIGN`].
pub open spec fn align_up(size: int) -> int {
    (size + ALIGN - 1) / (ALIGN as int) * ALIGN
}

/// Where the header of the block at payload address `ptr` starts.
pub open spec fn header_of(ptr: int) -> int {
    ptr - HEADER_SIZE
}

/// Where the payload of the block whose header starts at `header` begins.
pub open spec fn payload_of(header: int) -> int {
    header + HEADER_SIZE
}

/// Rounds a byte count up to the alignment unit.
pub fn get_align(size: usize) -> (r: usize)
    requires
        size + ALIGN - 1 <= usize::MAX,
    ensures
        r == align_up(size as int),
        r % ALIGN == 0,
        size <= r < size + ALIGN,
{
    (size + (ALIGN - 1)) / ALIGN * ALIGN
}

/// The header address of a payload pointer.
pub fn get_header(ptr: usize) -> (header: usize)
    requires
        ptr >= HEADER_SIZE,
    ensures
        header == header_of(ptr as int),
        payload_of(header as int) == ptr,
{
    ptr - HEADER_SIZE
}

/// Payload size of the blocks of size class `class`.
pub open spec fn class_size(class: int) -> int {
    class * ALIGN
}

/// Distance between the headers of two neighbouring blocks of payload `size`.
pub open spec fn stride(size: int) -> int {
    size + HEADER_SIZE
}

/// Number of blocks that bootstrap makes for size class `class`.
pub open spec fn initial_count(class: int) -> int {
    INIT_LIST_SIZE as int / class_size(class)
}

/// Number of blocks of payload `size` that one growth step makes.
pub open spec fn growth_count(size: int) -> int {
    ADD_LIST_SIZE as int / size
}

/// Bytes that one growth step for blocks of payload `size` asks of the heap break.
pub open spec fn growth_bytes(size: int) -> int {
    growth_count(size) * stride(size)
}

/// Offset of the first block of size class `class` in the bootstrap region:
/// the classes lie one after another, class 1 first.
pub open spec fn class_offset(class: int) -> int
    decreases class,
{
    if class <= 1 {
        0
    } else {
        class_offset(class - 1) + initial_count(class - 1) * stride(class_size(class - 1))
    }
}

/// Header addresses of `count` neighbouring blocks of payload `size`, the
/// first at `base`.
#[verifier::opaque]
pub open spec fn run(base: int, size: int, count: int) -> Seq<usize> {
    Seq::new(count as nat, |k: int| (base + k * stride(size)) as usize)
}

/// A run has `count` blocks.
pub proof fn lemma_run_len(base: int, size: int, count: int)
    requires
        0 <= count,
    ensures
        run(base, size, count).len() == count,
{
    reveal(run);
}

/// The blocks of a run lie one after another, a stride apart, and the run
/// ends where its last block does.
pub proof fn lemma_run_order(base: int, size: int, count: int, k: int, l: int)
    requires
        0 <= base,
        0 <= size,
        0 <= k <= l < count,
        base + count * stride(size) <= usize::MAX,
    ensures
        run(base, size, count).len() == count,
        run(base, size, count)[k] == base + k * stride(size),
        run(base, size, count)[l] == base + l * stride(size),
        base <= run(base, size, count)[k],
        k < l ==> run(base, size, count)[k] + stride(size) <= run(base, size, count)[l],
        run(base, size, count)[l] + stride(size) <= base + count * stride(size),
{
    reveal(run);
    let s = stride(size);
    assert(0 <= k * s) by (nonlinear_arith)
        requires
            0 <= k,
            0 <= s,
    ;
    assert(k < l ==> k * s + s <= l * s) by (nonlinear_arith)
        requires
            0 <= k <= l,
            0 <= s,
    ;
    assert(l * s + s <= count * s) by (nonlinear_arith)
        requires
            0 <= l < count,
            0 <= s,
    ;
}

/// No class starts before the region does.
pub proof fn lemma_class_offset_nonnegative(class: int)
    ensures
        0 <= class_offset(class),
    decreases class,
{
    if class > 1 {
        lemma_class_offset_nonnegative(class - 1);
        let count = initial_count(class - 1);
        let step = stride(class_size(class - 1));
        assert(0 <= count * step) by (nonlinear_arith)
            requires
                0 <= count,
                0 <= step,
        ;
    }
}

/// The classes' offsets grow with the class.
pub proof fn lemma_class_offset_grows(low: int, high: int)
    requires
        1 <= low <= high,
    ensures
        class_offset(low) <= class_offset(high),
    decreases high - low,
{
    if low < high {
        lemma_class_offset_grows(low, high - 1);
        let count = initial_count(high - 1);
        let step = stride(class_size(high - 1));
        assert(0 <= count * step) by (nonlinear_arith)
            requires
                0 <= count,
                0 <= step,
        ;
    }
}

/// A payload size between one alignment unit and the class limit gives
/// between 1 and 64 blocks for 512 payload bytes.
pub proof fn lemma_block_count(size: int)
    by (nonlinear_arith)
    requires
        8 <= size <= 512,
    ensures
        1 <= 512int / size <= 64,
        (512int / size) * (size + 24) <= 64 * (512 + 24),
{
}

/// The derived constants, as numbers.
pub proof fn lemma_constants()
    ensures
        NUM_LIST == 65,
        INIT_HEAP_SIZE == 34840,
{
}

/// Where the `k`-th initial block of size class `class` lies in a bootstrap
/// region at `base`: inside the part of its class, which ends where the next
/// class starts, inside the region.
pub proof fn lemma_initial_block(base: int, class: int, k: int)
    requires
        0 <= base,
        base + INIT_HEAP_SIZE <= usize::MAX,
        1 <= class < NUM_LIST,
        0 <= k < initial_count(class),
    ensures
        run(base + class_offset(class), class_size(class), initial_count(class)).len()
            == initial_count(class),
        base + class_offset(class) <= run(
            base + class_offset(class),
            class_size(class),
            initial_count(class),
        )[k],
        run(base + class_offset(class), class_size(class), initial_count(class))[k] + stride(
            class_size(class),
        ) <= base + class_offset(class + 1),
        0 <= class_offset(class),
        class_offset(class + 1) == class_offset(class) + initial_count(class) * stride(
            class_size(class),
        ),
        class_offset(class + 1) <= INIT_HEAP_SIZE,
{
    lemma_constants();
    lemma_class_offset_end();
    lemma_class_offset_nonnegative(class);
    lemma_class_offset_grows(class + 1, NUM_LIST as int);
    lemma_run_order(
        base + class_offset(class),
        class_size(class),
        initial_count(class),
        k,
        k,
    );
}

/// One step of the sum that `class_offset` is: where class `class + 1`
/// starts, given where `class` starts and how many blocks it has.
proof fn lemma_class_offset_step(class: int, count: int, at: int, next: int)
    by (nonlinear_arith)
    requires
        1 <= class,
        0 <= count,
        count * (8 * class) <= 512 < (count + 1) * (8 * class),
        class_offset(class) == at,
        next == at + count * (8 * class + 24),
    ensures
        initial_count(class) == count,
        class_offset(class + 1) == next,
{
}

/// The blocks of all classes together fit in the bootstrap region. The sum
/// has no closed form, so it is taken class by class: the class, the number of
/// its blocks, where it starts and where it ends.
pub proof fn lemma_class_offset_end()
    ensures
        class_offset(NUM_LIST as int) == 33944,
        class_offset(NUM_LIST as int) <= INIT_HEAP_SIZE,
{
    lemma_constants();
    lemma_class_offset_step(1, 64, 0, 2048);
    lemma_class_offset_step(2, 32, 2048, 3328);
    lemma_class_offset_step(3, 21, 3328, 4336);
    lemma_class_offset_step(4, 16, 4336, 5232);
    lemma_class_offset_step(5, 12, 5232, 6000);
    lemma_class_offset_step(6, 10, 6000, 6720);
    lemma_class_offset_step(7, 9, 6720, 7440);
    lemma_class_offset_step(8, 8, 7440, 8144);
    lemma_class_offset_step(9, 7, 8144, 8816);
    lemma_class_offset_step(10, 6, 8816, 9440);
    lemma_class_offset_step(11, 5, 9440, 10000);
    lemma_class_offset_step(12, 5, 10000, 10600);
    lemma_class_offset_step(13, 4, 10600, 11112);
    lemma_class_offset_step(14, 4, 11112, 11656);
    lemma_class_offset_step(15, 4, 11656, 12232);
    lemma_class_offset_step(16, 4, 12232, 12840);
    lemma_class_offset_step(17, 3, 12840, 13320);
    lemma_class_offset_step(18, 3, 13320, 13824);
    lemma_class_offset_step(19, 3, 13824, 14352);
    lemma_class_offset_step(20, 3, 14352, 14904);
    lemma_class_offset_step(21, 3, 14904, 15480);
    lemma_class_offset_step(22, 2, 15480, 15880);
    lemma_class_offset_step(23, 2, 15880, 16296);
    lemma_class_offset_step(24, 2, 16296, 16728);
    lemma_class_offset_step(25, 2, 16728, 17176);
    lemma_class_offset_step(26, 2, 17176, 17640);
    lemma_class_offset_step(27, 2, 17640, 18120);
    lemma_class_offset_step(28, 2, 18120, 18616);
    lemma_class_offset_step(29, 2, 18616, 19128);
    lemma_class_offset_step(30, 2, 19128, 19656);
    lemma_class_offset_step(31, 2, 19656, 20200);
    lemma_class_offset_step(32, 2, 20200, 20760);
    lemma_class_offset_step(33, 1, 20760, 21048);
    lemma_class_offset_step(34, 1, 21048, 21344);
    lemma_class_offset_step(35, 1, 21344, 21648);
    lemma_class_offset_step(36, 1, 21648, 21960);
    lemma_class_offset_step(37, 1, 21960, 22280);
    lemma_class_offset_step(38, 1, 22280, 22608);
    lemma_class_offset_step(39, 1, 22608, 22944);
    lemma_class_offset_step(40, 1, 22944, 23288);
    lemma_class_offset_step(41, 1, 23288, 23640);
    lemma_class_offset_step(42, 1, 23640, 24000);
    lemma_class_offset_step(43, 1, 24000, 24368);
    lemma_class_offset_step(44, 1, 24368, 24744);
    lemma_class_offset_step(45, 1, 24744, 25128);
    lemma_class_offset_step(46, 1, 25128, 25520);
    lemma_class_offset_step(47, 1, 25520, 25920);
    lemma_class_offset_step(48, 1, 25920, 26328);
    lemma_class_offset_step(49, 1, 26328, 26744);
    lemma_class_offset_step(50, 1, 26744, 27168);
    lemma_class_offset_step(51, 1, 27168, 27600);
    lemma_class_offset_step(52, 1, 27600, 28040);
    lemma_class_offset_step(53, 1, 28040, 28488);
    lemma_class_offset_step(54, 1, 28488, 28944);
    lemma_class_offset_step(55, 1, 28944, 29408);
    lemma_class_offset_step(56, 1, 29408, 29880);
    lemma_class_offset_step(57, 1, 29880, 30360);
    lemma_class_offset_step(58, 1, 30360, 30848);
    lemma_class_offset_step(59, 1, 30848, 31344);
    lemma_class_offset_step(60, 1, 31344, 31848);
    lemma_class_offset_step(61, 1, 31848, 32360);
    lemma_class_offset_step(62, 1, 32360, 32880);
    lemma_class_offset_step(63, 1, 32880, 33408);
    lemma_class_offset_step(64, 1, 33408, 33944);
}

} // verus!
