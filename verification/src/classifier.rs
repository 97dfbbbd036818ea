//! Finding the delimiter bytes of a buffer.
//!
//! Each of the five delimiter bytes belongs to a class with a bit of its own.
//! A classifier is asked for a set of classes and returns, in ascending order,
//! the offset of every byte of the buffer whose class is in the set, followed
//! by the length of the buffer as an end marker. Three strategies compute that
//! list: one byte at a time, and in chunks of 16 or of 32 lanes.

use vstd::prelude::*;
use vstd::string::StringSliceAdditionalSpecFns;

verus! {

/// Class bit of the space character.
pub const SPACE: u8 = 0x01;

/// Class bit of the comma.
pub const COMMA: u8 = 0x02;

/// Class bit of the equals sign.
pub const EQUALS: u8 = 0x04;

/// Class bit of the integer suffix marker `i`.
pub const MARKER: u8 = 0x08;

/// Class bit of the line feed.
pub const NEWLINE: u8 = 0x20;

/// The classes at which the tape builder changes state: space, comma, equals
/// and line feed.
pub const STRUCTURAL: u8 = 0x27;

/// All five classes.
pub const ALL_DELIMITERS: u8 = 0x2f;

/// The class bit of a byte, or zero for a byte that is no delimiter.
pub open spec fn class_of(byte: u8) -> u8 {
    if byte == 0x20 {
        SPACE
    } else if byte == 0x2c {
        COMMA
    } else if byte == 0x3d {
        EQUALS
    } else if byte == 0x69 {
        MARKER
    } else if byte == 0x0a {
        NEWLINE
    } else {
        0
    }
}

/// True when the byte is a delimiter of one of the wanted classes.
pub open spec fn is_wanted(byte: u8, wanted: u8) -> bool {
    class_of(byte) & wanted != 0
}

/// The offsets below `n` of the wanted delimiters in `bytes`, in ascending
/// order.
pub open spec fn offsets_below(bytes: Seq<u8>, wanted: u8, n: int) -> Seq<usize>
    decreases n,
{
    if n <= 0 {
        Seq::empty()
    } else if n <= bytes.len() && is_wanted(bytes[n - 1], wanted) {
        offsets_below(bytes, wanted, n - 1).push((n - 1) as usize)
    } else {
        offsets_below(bytes, wanted, n - 1)
    }
}

/// What every classifier returns for a buffer: the offsets of its wanted
/// delimiters in ascending order, then its length.
pub open spec fn classified(bytes: Seq<u8>, wanted: u8) -> Seq<usize> {
    offsets_below(bytes, wanted, bytes.len() as int).push(bytes.len() as usize)
}

/// The classes that share a low nibble, indexed by that nibble.
pub open spec fn low_nibble_mask(nibble: u8) -> u8 {
    if nibble == 0x0 {
        SPACE
    } else if nibble == 0x9 {
        MARKER
    } else if nibble == 0xa {
        NEWLINE
    } else if nibble == 0xc {
        COMMA
    } else if nibble == 0xd {
        EQUALS
    } else {
        0
    }
}

/// The classes that share a high nibble, indexed by that nibble.
pub open spec fn high_nibble_mask(nibble: u8) -> u8 {
    if nibble == 0x0 {
        NEWLINE
    } else if nibble == 0x2 {
        0x03
    } else if nibble == 0x3 {
        EQUALS
    } else if nibble == 0x6 {
        MARKER
    } else {
        0
    }
}

/// The two nibble masks of a byte have exactly its class bit in common: a
/// byte that shares one nibble with a delimiter and not the other gets zero.
pub proof fn lemma_nibble_intersection(byte: u8)
    ensures
        byte & 0x0f < 16,
        byte >> 4 < 16,
        low_nibble_mask(byte & 0x0f) & high_nibble_mask(byte >> 4) == class_of(byte),
{
    let lo = byte & 0x0f;
    let hi = byte >> 4;
    assert(lo < 16 && hi < 16 && byte == hi * 16 + lo) by (bit_vector)
        requires
            lo == byte & 0x0f,
            hi == byte >> 4,
    ;
    let l = low_nibble_mask(lo);
    let h = high_nibble_mask(hi);
    assert(l & 0 == 0 && 0 & h == 0) by (bit_vector);
    assert(0x01u8 & 0x20 == 0 && 0x01u8 & 0x03 == 0x01 && 0x01u8 & 0x04 == 0 && 0x01u8 & 0x08 == 0)
        by (bit_vector);
    assert(0x08u8 & 0x20 == 0 && 0x08u8 & 0x03 == 0 && 0x08u8 & 0x04 == 0 && 0x08u8 & 0x08 == 0x08)
        by (bit_vector);
    assert(0x20u8 & 0x20 == 0x20 && 0x20u8 & 0x03 == 0 && 0x20u8 & 0x04 == 0 && 0x20u8 & 0x08 == 0)
        by (bit_vector);
    assert(0x02u8 & 0x20 == 0 && 0x02u8 & 0x03 == 0x02 && 0x02u8 & 0x04 == 0 && 0x02u8 & 0x08 == 0)
        by (bit_vector);
    assert(0x04u8 & 0x20 == 0 && 0x04u8 & 0x03 == 0 && 0x04u8 & 0x04 == 0x04 && 0x04u8 & 0x08 == 0)
        by (bit_vector);
}

/// A byte of no class is wanted by nobody; the zero byte that pads a short
/// chunk is one.
pub proof fn lemma_zero_class_unwanted(byte: u8, wanted: u8)
    requires
        class_of(byte) == 0,
    ensures
        !is_wanted(byte, wanted),
{
    assert(0u8 & wanted == 0) by (bit_vector);
}

/// Offsets below a bound are offsets of wanted delimiters, lie below the bound
/// and inside the buffer, and ascend strictly.
pub proof fn lemma_offsets_ascend(bytes: Seq<u8>, wanted: u8, n: int)
    requires
        bytes.len() <= usize::MAX,
    ensures
        forall|k: int|
            0 <= k < offsets_below(bytes, wanted, n).len() ==> {
                let o = #[trigger] offsets_below(bytes, wanted, n)[k];
                o < n && o < bytes.len() && is_wanted(bytes[o as int], wanted)
            },
        forall|j: int, k: int|
            0 <= j < k < offsets_below(bytes, wanted, n).len() ==> offsets_below(bytes, wanted, n)[j]
                < offsets_below(bytes, wanted, n)[k],
        offsets_below(bytes, wanted, n).len() <= if n < 0 { 0 } else { n },
    decreases n,
{
    if n > 0 {
        lemma_offsets_ascend(bytes, wanted, n - 1);
    }
}

/// Every wanted delimiter below the bound is among the offsets.
pub proof fn lemma_offsets_complete(bytes: Seq<u8>, wanted: u8, n: int, i: int)
    requires
        0 <= i < n,
        i < bytes.len() <= usize::MAX,
        is_wanted(bytes[i], wanted),
    ensures
        offsets_below(bytes, wanted, n).contains(i as usize),
    decreases n,
{
    if i == n - 1 {
        let s = offsets_below(bytes, wanted, n);
        assert(s[s.len() - 1] == i as usize);
    } else {
        lemma_offsets_complete(bytes, wanted, n - 1, i);
        let prev = offsets_below(bytes, wanted, n - 1);
        let k = choose|k: int| 0 <= k < prev.len() && prev[k] == i as usize;
        assert(offsets_below(bytes, wanted, n)[k] == i as usize);
    }
}

/// A stretch without wanted delimiters, or beyond the end of the buffer, adds
/// no offset.
pub proof fn lemma_offsets_skip(bytes: Seq<u8>, wanted: u8, from: int, to: int)
    requires
        0 <= from <= to,
        forall|i: int| from <= i < to && i < bytes.len() ==> !is_wanted(#[trigger] bytes[i], wanted),
    ensures
        offsets_below(bytes, wanted, to) == offsets_below(bytes, wanted, from),
    decreases to - from,
{
    if from < to {
        lemma_offsets_skip(bytes, wanted, from, to - 1);
    }
}

/// What makes a list of offsets the answer for a buffer: it ends with the
/// length of the buffer, everything before that is the offset of a wanted
/// delimiter, no wanted delimiter is missing, and the list ascends strictly.
pub open spec fn is_offset_list(offsets: Seq<usize>, bytes: Seq<u8>, wanted: u8) -> bool {
    &&& offsets.len() > 0
    &&& offsets.last() == bytes.len()
    &&& forall|j: int, k: int| 0 <= j < k < offsets.len() ==> offsets[j] < offsets[k]
    &&& forall|k: int|
        0 <= k < offsets.len() - 1 ==> (#[trigger] offsets[k]) < bytes.len() && is_wanted(
            bytes[offsets[k] as int],
            wanted,
        )
    &&& forall|i: int|
        0 <= i < bytes.len() && is_wanted(#[trigger] bytes[i], wanted) ==> offsets.contains(
            i as usize,
        )
}

/// The list that the classifiers return is such an answer: strictly
/// ascending, made of valid indices of wanted delimiters and the end marker,
/// with no delimiter left out.
pub proof fn lemma_classified_is_offset_list(bytes: Seq<u8>, wanted: u8)
    requires
        bytes.len() <= usize::MAX,
    ensures
        is_offset_list(classified(bytes, wanted), bytes, wanted),
{
    let n = bytes.len() as int;
    let found = offsets_below(bytes, wanted, n);
    let all = classified(bytes, wanted);
    lemma_offsets_ascend(bytes, wanted, n);
    assert forall|i: int| 0 <= i < bytes.len() && is_wanted(#[trigger] bytes[i], wanted) implies all.contains(
        i as usize,
    ) by {
        lemma_offsets_complete(bytes, wanted, n, i);
        let k = choose|k: int| 0 <= k < found.len() && found[k] == i as usize;
        assert(all[k] == i as usize);
    }
    assert forall|k: int| 0 <= k < all.len() - 1 implies (#[trigger] all[k]) < bytes.len() && is_wanted(
        bytes[all[k] as int],
        wanted,
    ) by {
        assert(all[k] == found[k]);
    }
    assert forall|j: int, k: int| 0 <= j < k < all.len() implies all[j] < all[k] by {
        assert(all[j] == found[j]);
        if k < found.len() {
            assert(all[k] == found[k]);
        }
    }
}

/// Two answers for the same buffer and classes are the same list.
pub proof fn lemma_offset_list_unique(a: Seq<usize>, b: Seq<usize>, bytes: Seq<u8>, wanted: u8)
    requires
        is_offset_list(a, bytes, wanted),
        is_offset_list(b, bytes, wanted),
    ensures
        a == b,
{
    lemma_ascending_prefix(a, b, bytes, wanted, a.len() as int);
    lemma_ascending_prefix(b, a, bytes, wanted, b.len() as int);
    if a.len() <= b.len() {
        lemma_common_prefix(a, b, bytes, wanted, a.len() as int);
    } else {
        lemma_common_prefix(b, a, bytes, wanted, b.len() as int);
    }
    assert(a =~= b);
}

/// The first `n` entries of one answer all occur in the other, so that the
/// other is at least as long.
proof fn lemma_ascending_prefix(a: Seq<usize>, b: Seq<usize>, bytes: Seq<u8>, wanted: u8, n: int)
    requires
        is_offset_list(a, bytes, wanted),
        is_offset_list(b, bytes, wanted),
        0 <= n <= a.len(),
    ensures
        forall|k: int| 0 <= k < n ==> b.contains(#[trigger] a[k]),
{
    assert forall|k: int| 0 <= k < n implies b.contains(#[trigger] a[k]) by {
        if k == a.len() - 1 {
            assert(b[b.len() - 1] == a[k]);
        } else {
            assert(is_wanted(bytes[a[k] as int], wanted));
        }
    }
}

/// Two answers agree on every index that both have, and the shorter one is
/// not shorter after all.
proof fn lemma_common_prefix(a: Seq<usize>, b: Seq<usize>, bytes: Seq<u8>, wanted: u8, n: int)
    requires
        is_offset_list(a, bytes, wanted),
        is_offset_list(b, bytes, wanted),
        forall|k: int| 0 <= k < a.len() ==> b.contains(#[trigger] a[k]),
        forall|k: int| 0 <= k < b.len() ==> a.contains(#[trigger] b[k]),
        0 <= n <= a.len() <= b.len(),
    ensures
        forall|k: int| 0 <= k < n ==> a[k] == b[k],
        n == a.len() ==> a.len() == b.len(),
    decreases n,
{
    if n > 0 {
        lemma_common_prefix(a, b, bytes, wanted, n - 1);
        // b[n - 1] occurs in a, at an index that cannot be below n - 1;
        // a[n - 1] occurs in b, likewise.
        let i = choose|i: int| 0 <= i < a.len() && a[i] == b[n - 1];
        let j = choose|j: int| 0 <= j < b.len() && b[j] == a[n - 1];
        if i < n - 1 {
            assert(a[i] == b[i]);
            assert(b[i] < b[n - 1]);
        }
        if j < n - 1 {
            assert(b[j] == a[j]);
            assert(a[j] < a[n - 1]);
        }
        if i > n - 1 {
            assert(a[n - 1] < a[i]);
        }
        if j > n - 1 {
            assert(b[n - 1] < b[j]);
        }
        assert(a[n - 1] == b[n - 1]);
        if n == a.len() && a.len() < b.len() {
            assert(b[n - 1] < b[b.len() - 1]);
        }
    }
}

/// The class of a byte, found by comparing it with each delimiter in turn.
pub fn class_by_comparison(byte: u8) -> (class: u8)
    ensures
        class == class_of(byte),
{
    if byte == 0x20 {
        SPACE
    } else if byte == 0x2c {
        COMMA
    } else if byte == 0x3d {
        EQUALS
    } else if byte == 0x69 {
        MARKER
    } else if byte == 0x0a {
        NEWLINE
    } else {
        0
    }
}

/// The portable strategy: walks the buffer one byte at a time.
fn classify_scalar(bytes: &[u8], wanted: u8) -> (offsets: Vec<usize>)
    ensures
        offsets@ == classified(bytes@, wanted),
{
    let len: usize = bytes.len();
    let mut offsets: Vec<usize> = Vec::with_capacity(len / 4 + 1);
    let mut i: usize = 0;
    while i < len
        invariant
            i <= len == bytes@.len(),
            offsets@ == offsets_below(bytes@, wanted, i as int),
        decreases len - i,
    {
        if class_by_comparison(bytes[i]) & wanted != 0 {
            offsets.push(i);
        }
        i = i + 1;
    }
    offsets.push(len);
    offsets
}

/// True when the bit of the given lane is set in a chunk's mask. Lane 0 is
/// the lowest bit and stands for the first byte of the chunk.
pub open spec fn lane_bit(mask: u32, lane: int) -> bool {
    0 <= lane < 32 && (mask >> (lane as u32)) & 1 == 1
}

proof fn lemma_lane_bit_zero(lane: int)
    ensures
        !lane_bit(0, lane),
{
    if 0 <= lane < 32 {
        let j = lane as u32;
        assert((0u32 >> j) & 1 == 0) by (bit_vector);
    }
}

proof fn lemma_lane_bit_set(mask: u32, k: u32, lane: int)
    requires
        k < 32,
    ensures
        lane_bit(mask | (1u32 << k), lane) <==> lane_bit(mask, lane) || lane == k,
{
    if 0 <= lane < 32 {
        let j = lane as u32;
        assert((((mask | (1u32 << k)) >> j) & 1 == 1) <==> ((mask >> j) & 1 == 1 || j == k))
            by (bit_vector)
            requires
                j < 32,
                k < 32,
        ;
    }
}

/// Clearing the lowest set bit of a mask removes the lane that
/// `trailing_zeros` names, which is the first lane set, and no other.
proof fn lemma_clear_lowest(mask: u32, lane: int)
    requires
        mask != 0,
    ensures
        vstd::std_specs::bits::u32_trailing_zeros(mask) < 32,
        lane_bit(mask, vstd::std_specs::bits::u32_trailing_zeros(mask) as int),
        lane < vstd::std_specs::bits::u32_trailing_zeros(mask) ==> !lane_bit(mask, lane),
        lane_bit(mask & vstd::wrapping::u32_specs::wrapping_sub(mask, 1), lane) <==> lane_bit(
            mask,
            lane,
        ) && lane != vstd::std_specs::bits::u32_trailing_zeros(mask),
{
    let v = vstd::std_specs::bits::u32_trailing_zeros(mask);
    vstd::std_specs::bits::axiom_u32_trailing_zeros(mask);
    let below = vstd::wrapping::u32_specs::wrapping_sub(mask, 1);
    assert(below == (mask - 1) as u32);
    let shift = (32 - v) as u32;
    assert(mask << shift == 0);
    if 0 <= lane < 32 {
        let j = lane as u32;
        assert((((mask & below) >> j) & 1 == 1) <==> ((mask >> j) & 1 == 1 && j != v))
            by (bit_vector)
            requires
                j < 32,
                v < 32,
                mask != 0,
                below == mask - 1,
                shift == 32 - v,
                (mask >> v) & 1 == 1,
                mask << shift == 0,
        ;
        assert(j < v ==> (mask >> j) & 1 == 0) by (bit_vector)
            requires
                j < 32,
                v < 32,
                shift == 32 - v,
                mask << shift == 0,
        ;
    }
}

/// The table that maps a low nibble to the classes sharing it.
fn low_nibble_table() -> (table: [u8; 16])
    ensures
        forall|n: int| 0 <= n < 16 ==> #[trigger] table[n] == low_nibble_mask(n as u8),
{
    [
        SPACE, 0, 0, 0, 0, 0, 0, 0, 0, MARKER, NEWLINE, 0, COMMA, EQUALS, 0, 0,
    ]
}

/// The table that maps a high nibble to the classes sharing it.
fn high_nibble_table() -> (table: [u8; 16])
    ensures
        forall|n: int| 0 <= n < 16 ==> #[trigger] table[n] == high_nibble_mask(n as u8),
{
    [
        NEWLINE, 0, 0x03, EQUALS, 0, 0, MARKER, 0, 0, 0, 0, 0, 0, 0, 0, 0,
    ]
}

/// Copies `count` bytes of the buffer, from `start` on, into the first lanes
/// of a chunk and leaves the other lanes zero.
fn load_chunk(bytes: &[u8], start: usize, count: usize) -> (lanes: [u8; 32])
    requires
        count <= 32,
        start + count <= bytes@.len(),
    ensures
        forall|k: int| 0 <= k < count ==> #[trigger] lanes[k] == bytes@[start + k],
        forall|k: int| count <= k < 32 ==> #[trigger] lanes[k] == 0,
{
    let mut lanes: [u8; 32] = [0u8; 32];
    let mut k: usize = 0;
    assert(bytes@.len() <= usize::MAX) by {
        vstd::slice::axiom_spec_len(bytes);
    }
    while k < count
        invariant
            k <= count <= 32,
            start + count <= bytes@.len() <= usize::MAX,
            forall|j: int| 0 <= j < k ==> #[trigger] lanes[j] == bytes@[start + j],
            forall|j: int| k <= j < 32 ==> #[trigger] lanes[j] == 0,
        decreases count - k,
    {
        lanes[k] = bytes[start + k];
        k = k + 1;
    }
    lanes
}

/// Looks every lane up in the two nibble tables and packs the outcome into a
/// mask: the bit of a lane is set when the two table entries and the wanted
/// classes have a bit in common.
fn chunk_mask(lanes: &[u8; 32], width: usize, low: &[u8; 16], high: &[u8; 16], wanted: u8) -> (mask:
    u32)
    requires
        width <= 32,
        forall|n: int| 0 <= n < 16 ==> #[trigger] low[n] == low_nibble_mask(n as u8),
        forall|n: int| 0 <= n < 16 ==> #[trigger] high[n] == high_nibble_mask(n as u8),
    ensures
        forall|j: int| #[trigger] lane_bit(mask, j) <==> 0 <= j < width && is_wanted(lanes[j], wanted),
{
    let mut mask: u32 = 0;
    let mut k: usize = 0;
    proof {
        assert forall|j: int| !lane_bit(0, j) by {
            lemma_lane_bit_zero(j);
        }
    }
    while k < width
        invariant
            k <= width <= 32,
            forall|n: int| 0 <= n < 16 ==> #[trigger] low[n] == low_nibble_mask(n as u8),
            forall|n: int| 0 <= n < 16 ==> #[trigger] high[n] == high_nibble_mask(n as u8),
            forall|j: int| #[trigger] lane_bit(mask, j) <==> 0 <= j < k && is_wanted(lanes[j], wanted),
        decreases width - k,
    {
        let byte: u8 = lanes[k];
        proof {
            lemma_nibble_intersection(byte);
        }
        let lo: u8 = low[(byte & 0x0f) as usize];
        let hi: u8 = high[(byte >> 4) as usize];
        if lo & hi & wanted != 0 {
            let ghost before = mask;
            mask = mask | (1u32 << (k as u32));
            proof {
                assert forall|j: int| #[trigger]
                    lane_bit(mask, j) <==> 0 <= j < k + 1 && is_wanted(lanes[j], wanted) by {
                    lemma_lane_bit_set(before, k as u32, j);
                }
            }
        }
        k = k + 1;
    }
    mask
}

/// Appends the offset of every lane set in the mask, lowest lane first: finds
/// the lowest set bit, records it and clears it, until the mask is empty.
fn push_set_lanes(
    mask: u32,
    start: usize,
    offsets: &mut Vec<usize>,
    Ghost(bytes): Ghost<Seq<u8>>,
    Ghost(wanted): Ghost<u8>,
    Ghost(count): Ghost<int>,
)
    requires
        0 <= count <= 32,
        start + count <= bytes.len() <= usize::MAX,
        old(offsets)@ == offsets_below(bytes, wanted, start as int),
        forall|j: int| #[trigger]
            lane_bit(mask, j) <==> 0 <= j < count && is_wanted(bytes[start + j], wanted),
    ensures
        final(offsets)@ == offsets_below(bytes, wanted, start + count),
{
    let mut bits: u32 = mask;
    let ghost mut done: int = 0;
    while bits != 0
        invariant
            0 <= done <= count <= 32,
            start + count <= bytes.len() <= usize::MAX,
            offsets@ == offsets_below(bytes, wanted, start + done),
            forall|j: int| #[trigger]
                lane_bit(bits, j) <==> done <= j < count && is_wanted(bytes[start + j], wanted),
        decreases count - done,
    {
        let lane: u32 = bits.trailing_zeros();
        let ghost before = bits;
        proof {
            lemma_clear_lowest(before, 0);
            assert(lane_bit(before, lane as int));
            assert forall|i: int| start + done <= i < start + lane && i < bytes.len() implies !is_wanted(
                #[trigger] bytes[i],
                wanted,
            ) by {
                lemma_clear_lowest(before, i - start);
                assert(!lane_bit(before, i - start));
                assert(bytes[start + (i - start)] == bytes[i]);
            }
            lemma_offsets_skip(bytes, wanted, start + done, start + lane);
        }
        bits = bits & bits.wrapping_sub(1);
        offsets.push(start + lane as usize);
        proof {
            assert forall|j: int| #[trigger]
                lane_bit(bits, j) <==> lane + 1 <= j < count && is_wanted(bytes[start + j], wanted) by {
                lemma_clear_lowest(before, j);
                assert(lane_bit(before, j) <==> done <= j < count && is_wanted(
                    bytes[start + j],
                    wanted,
                ));
            }
            done = lane + 1;
        }
    }
    proof {
        assert forall|i: int| start + done <= i < start + count && i < bytes.len() implies !is_wanted(
            #[trigger] bytes[i],
            wanted,
        ) by {
            lemma_lane_bit_zero(i - start);
            assert(!lane_bit(bits, i - start));
            assert(bytes[start + (i - start)] == bytes[i]);
        }
        lemma_offsets_skip(bytes, wanted, start + done, start + count);
    }
}

/// The data-parallel strategy at a given width: cuts the buffer into chunks
/// of `width` lanes, pads the last one with zero bytes, and turns each chunk
/// into a mask from which the offsets are read.
fn classify_chunks(bytes: &[u8], wanted: u8, width: usize) -> (offsets: Vec<usize>)
    requires
        1 <= width <= 32,
    ensures
        offsets@ == classified(bytes@, wanted),
{
    let len: usize = bytes.len();
    let low = low_nibble_table();
    let high = high_nibble_table();
    let mut offsets: Vec<usize> = Vec::with_capacity(len / 4 + 1);
    let mut start: usize = 0;
    while start < len
        invariant
            1 <= width <= 32,
            start <= len == bytes@.len(),
            forall|n: int| 0 <= n < 16 ==> #[trigger] low[n] == low_nibble_mask(n as u8),
            forall|n: int| 0 <= n < 16 ==> #[trigger] high[n] == high_nibble_mask(n as u8),
            offsets@ == offsets_below(bytes@, wanted, start as int),
        decreases len - start,
    {
        let count: usize = if len - start < width {
            len - start
        } else {
            width
        };
        let lanes = load_chunk(bytes, start, count);
        let mask = chunk_mask(&lanes, width, &low, &high, wanted);
        proof {
            assert forall|j: int| #[trigger]
                lane_bit(mask, j) <==> 0 <= j < count && is_wanted(bytes@[start + j], wanted) by {
                if 0 <= j < 32 {
                    if j < count {
                        assert(lanes[j] == bytes@[start + j]);
                    } else {
                        assert(lanes[j] == 0);
                        lemma_zero_class_unwanted(0, wanted);
                    }
                }
            }
        }
        push_set_lanes(mask, start, &mut offsets, Ghost(bytes@), Ghost(wanted), Ghost(count as int));
        start = start + count;
    }
    offsets.push(len);
    offsets
}

/// How a buffer is scanned. All three strategies return the same list.
#[derive(Debug, Clone, Copy, PartialEq, Eq)]
pub enum Strategy {
    /// One byte at a time, each compared with the delimiters.
    Scalar,
    /// Chunks of 16 lanes, classified through the nibble tables.
    Width16,
    /// Chunks of 32 lanes, classified through the nibble tables.
    Width32,
}

/// Returns the offsets of the wanted delimiters of a buffer in ascending
/// order, followed by the length of the buffer. The strategy decides how the
/// buffer is walked and has no influence on the result.
pub fn classify(bytes: &[u8], wanted: u8, strategy: Strategy) -> (offsets: Vec<usize>)
    ensures
        offsets@ == classified(bytes@, wanted),
        is_offset_list(offsets@, bytes@, wanted),
{
    proof {
        vstd::slice::axiom_spec_len(bytes);
        lemma_classified_is_offset_list(bytes@, wanted);
    }
    match strategy {
        Strategy::Scalar => classify_scalar(bytes, wanted),
        Strategy::Width16 => classify_chunks(bytes, wanted, 16),
        Strategy::Width32 => classify_chunks(bytes, wanted, 32),
    }
}

/// Scans a record in chunks of 16 lanes for the delimiters at which the tape
/// builder changes state, and ends the list with the record's length.
pub fn shuffle_lookup(record: &str) -> (offsets: Vec<usize>)
    ensures
        offsets@ == classified(record.spec_bytes(), STRUCTURAL),
        is_offset_list(offsets@, record.spec_bytes(), STRUCTURAL),
{
    classify(record.as_bytes(), STRUCTURAL, Strategy::Width16)
}

/// Scans a record in chunks of 32 lanes for the delimiters at which the tape
/// builder changes state, and ends the list with the record's length.
pub fn shuffle_lookup_avx2(record: &str) -> (offsets: Vec<usize>)
    ensures
        offsets@ == classified(record.spec_bytes(), STRUCTURAL),
        is_offset_list(offsets@, record.spec_bytes(), STRUCTURAL),
{
    classify(record.as_bytes(), STRUCTURAL, Strategy::Width32)
}

} // verus!
