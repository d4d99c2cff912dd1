//! The free-list allocation engine and its allocation facade.
//!
//! Free memory is a chain of node records. A record sits at the start
//! address of the free span it describes, so a span must be large
//! enough and suitably aligned to host one; every size and alignment
//! the facade accepts is normalized so that any span it hands out can
//! later be re-registered as a free region.

use crate::math::{
    align_up, is_power_of_two, lemma_divides_transitive, lemma_mod_sum_zero, lemma_pow2_divides,
    lemma_pow2_pos, lemma_round_up, round_up,
};
use vstd::prelude::*;

verus! {

/// Bytes a node record occupies at the start of the free span it
/// describes: the span length and the link to the next node, one
/// machine word each on the 64-bit targets this allocator serves.
pub const NODE_SIZE: usize = 16;

/// Alignment a node record requires of its own start address: one
/// machine word.
pub const NODE_ALIGN: usize = 8;

/// One contiguous span of heap memory. `addr` is the span's start
/// address — where the node record itself is stored — and `size` its
/// byte length; the span's end is `addr + size`. The record's place in
/// the chain stands for the `next` link kept inside the span.
#[derive(Clone, Copy, Debug, PartialEq, Eq, Structural)]
pub struct ListNode {
    pub addr: usize,
    pub size: usize,
}

impl ListNode {
    /// A detached record for the span of `size` bytes at `addr`.
    pub fn new(addr: usize, size: usize) -> (r: ListNode)
        ensures
            r.addr == addr,
            r.size == size,
    {
        ListNode { addr, size }
    }

    /// The span's first address: the record's own address.
    pub fn start_addr(&self) -> (r: usize)
        ensures
            r == self.addr,
    {
        self.addr
    }

    /// One past the span's last address.
    pub fn end_addr(&self) -> (r: usize)
        requires
            self.addr + self.size <= usize::MAX,
        ensures
            r == self.addr + self.size,
    {
        self.addr + self.size
    }
}

/// The spans of `a` and `b` share no byte.
pub open spec fn node_disjoint(a: ListNode, b: ListNode) -> bool {
    a.addr + a.size <= b.addr || b.addr + b.size <= a.addr
}

/// A span the free list may track: start address aligned for a node
/// record, room for one, and inside the heap handed to `init`.
pub open spec fn node_ok(n: ListNode, heap_start: int, heap_size: int) -> bool {
    &&& n.addr as int % (NODE_ALIGN as int) == 0
    &&& NODE_SIZE <= n.size
    &&& heap_start <= n.addr
    &&& n.addr + n.size <= heap_start + heap_size
}

/// A nonempty span inside the heap; padding spans lost to alignment
/// need not be node-sized.
pub open spec fn span_in_heap(n: ListNode, heap_start: int, heap_size: int) -> bool {
    &&& 1 <= n.size
    &&& heap_start <= n.addr
    &&& n.addr + n.size <= heap_start + heap_size
}

pub open spec fn all_nodes_ok(s: Seq<ListNode>, heap_start: int, heap_size: int) -> bool {
    forall|i: int| 0 <= i < s.len() ==> node_ok(#[trigger] s[i], heap_start, heap_size)
}

pub open spec fn all_spans_in_heap(s: Seq<ListNode>, heap_start: int, heap_size: int) -> bool {
    forall|i: int| 0 <= i < s.len() ==> span_in_heap(#[trigger] s[i], heap_start, heap_size)
}

/// No two spans of `s` overlap.
pub open spec fn pairwise_disjoint(s: Seq<ListNode>) -> bool {
    forall|i: int, j: int|
        0 <= i < s.len() && 0 <= j < s.len() && i != j ==> node_disjoint(
            #[trigger] s[i],
            #[trigger] s[j],
        )
}

/// Every span of `a` is disjoint from every span of `b`.
pub open spec fn cross_disjoint(a: Seq<ListNode>, b: Seq<ListNode>) -> bool {
    forall|i: int, j: int|
        0 <= i < a.len() && 0 <= j < b.len() ==> node_disjoint(#[trigger] a[i], #[trigger] b[j])
}

/// `n` is disjoint from every span of `s`.
pub open spec fn disjoint_from_all(n: ListNode, s: Seq<ListNode>) -> bool {
    forall|i: int| 0 <= i < s.len() ==> node_disjoint(n, #[trigger] s[i])
}

/// Total bytes of the spans in `s`.
pub open spec fn sum_sizes(s: Seq<ListNode>) -> int
    decreases s.len(),
{
    if s.len() == 0 {
        0
    } else {
        s[0].size + sum_sizes(s.drop_first())
    }
}

/// Where an allocation at `align` would start inside `region`: the
/// region's start address rounded up to the next `align` boundary.
pub open spec fn fit_start(region: ListNode, align: int) -> int {
    round_up(region.addr as int, align)
}

/// The fits test. `region` can serve `size` bytes at `align` when the
/// rounded allocation still ends inside the region and the leftover
/// behind it is either empty (an exact fit) or large enough to host a
/// node record — a shorter leftover could never be re-registered and
/// would leak, so such a region is rejected.
pub open spec fn region_fits(region: ListNode, size: int, align: int) -> bool {
    let start = fit_start(region, align);
    let end = start + size;
    &&& end <= region.addr + region.size
    &&& (end == region.addr + region.size || region.addr + region.size - end >= NODE_SIZE)
}

/// Whether some region of `s` passes the fits test.
pub open spec fn has_fit(s: Seq<ListNode>, size: int, align: int) -> bool
    decreases s.len(),
{
    if s.len() == 0 {
        false
    } else {
        region_fits(s[0], size, align) || has_fit(s.drop_first(), size, align)
    }
}

/// Index of the first region of `s` that passes the fits test.
pub open spec fn first_fit_at(s: Seq<ListNode>, size: int, align: int) -> int
    decreases s.len(),
{
    if s.len() == 0 {
        0
    } else if region_fits(s[0], size, align) {
        0
    } else {
        1 + first_fit_at(s.drop_first(), size, align)
    }
}

/// The request alignment raised to at least the node record's own.
pub open spec fn normalized_align(align: int) -> int {
    if align < NODE_ALIGN {
        NODE_ALIGN as int
    } else {
        align
    }
}

/// The request size the facade actually reserves: padded to end on a
/// boundary of the raised alignment — so the next span over can host a
/// node record — and raised to hold a node record itself once freed.
pub open spec fn normalized_size(size: int, align: int) -> int {
    let padded = round_up(size, normalized_align(align));
    if padded < NODE_SIZE {
        NODE_SIZE as int
    } else {
        padded
    }
}

/// A request the facade accepts: the alignment a power of two and the
/// padded size still a representable layout size, as any layout handed
/// through the standard allocation interface guarantees.
pub open spec fn valid_request(size: int, align: int) -> bool {
    &&& is_power_of_two(align)
    &&& 0 <= size
    &&& round_up(size, normalized_align(align)) <= isize::MAX as int
}

/// The span `dealloc` re-registers for a freed allocation, recomputed
/// from the original request alone.
pub open spec fn dealloc_span(ptr: int, size: int, align: int) -> ListNode {
    ListNode { addr: ptr as usize, size: normalized_size(size, align) as usize }
}

/// The free-list engine. `free_list` is the chain hanging off the
/// sentinel head: index 0 is the most recently registered region and
/// the first one the first-fit search tries. The heap bounds and the
/// spans currently handed out (or permanently lost to alignment
/// padding) are ghost bookkeeping: the running engine stores nothing
/// but the list, exactly as the in-place records would.
pub struct LinkedListAllocator {
    free_list: Vec<ListNode>,
    heap_start: Ghost<usize>,
    heap_size: Ghost<usize>,
    allocated: Ghost<Seq<ListNode>>,
    lost: Ghost<Seq<ListNode>>,
}

impl LinkedListAllocator {
    /// The free regions, in list order.
    pub closed spec fn free_spans(&self) -> Seq<ListNode> {
        self.free_list@
    }

    /// The spans currently handed out, each with its normalized size.
    pub closed spec fn allocated_spans(&self) -> Seq<ListNode> {
        self.allocated@
    }

    /// Padding spans permanently lost to over-aligned allocations.
    pub closed spec fn lost_spans(&self) -> Seq<ListNode> {
        self.lost@
    }

    /// Start of the heap range handed to `init`; 0 before `init`.
    pub closed spec fn heap_start(&self) -> int {
        self.heap_start@ as int
    }

    /// Size of the heap range handed to `init`; 0 before `init`.
    pub closed spec fn heap_size(&self) -> int {
        self.heap_size@ as int
    }

    /// Well-formedness. Every tracked span is a proper span inside the
    /// heap; no two tracked spans overlap, whether free, allocated or
    /// lost; and their sizes together account for every byte of the
    /// heap — memory is only ever re-partitioned, never created or
    /// dropped.
    pub open spec fn wf(&self) -> bool {
        &&& all_nodes_ok(self.free_spans(), self.heap_start(), self.heap_size())
        &&& all_nodes_ok(self.allocated_spans(), self.heap_start(), self.heap_size())
        &&& all_spans_in_heap(self.lost_spans(), self.heap_start(), self.heap_size())
        &&& pairwise_disjoint(self.free_spans())
        &&& pairwise_disjoint(self.allocated_spans())
        &&& pairwise_disjoint(self.lost_spans())
        &&& cross_disjoint(self.free_spans(), self.allocated_spans())
        &&& cross_disjoint(self.free_spans(), self.lost_spans())
        &&& cross_disjoint(self.allocated_spans(), self.lost_spans())
        &&& sum_sizes(self.free_spans()) + sum_sizes(self.allocated_spans()) + sum_sizes(
            self.lost_spans(),
        ) == self.heap_size()
        &&& self.heap_start() + self.heap_size() <= usize::MAX
    }

    /// An engine holding only the sentinel: no heap, no free regions.
    /// `init` hands it its memory later, once the heap range is known.
    pub fn new() -> (r: LinkedListAllocator)
        ensures
            r.wf(),
            r.free_spans() == Seq::<ListNode>::empty(),
            r.allocated_spans() == Seq::<ListNode>::empty(),
            r.lost_spans() == Seq::<ListNode>::empty(),
            r.heap_size() == 0,
    {
        LinkedListAllocator {
            free_list: Vec::new(),
            heap_start: Ghost(0),
            heap_size: Ghost(0),
            allocated: Ghost(Seq::empty()),
            lost: Ghost(Seq::empty()),
        }
    }

    /// Registers the whole range `[heap_start, heap_start + heap_size)`
    /// as the one free region. Must be called exactly once, before any
    /// allocation, with a range the caller exclusively owns; the range
    /// must start on a node boundary and have room for a node record.
    pub fn init(&mut self, heap_start: usize, heap_size: usize)
        requires
            old(self).wf(),
            old(self).heap_size() == 0,
            old(self).free_spans().len() == 0,
            old(self).allocated_spans().len() == 0,
            old(self).lost_spans().len() == 0,
            heap_start as int % (NODE_ALIGN as int) == 0,
            NODE_SIZE <= heap_size,
            heap_start + heap_size <= usize::MAX,
        ensures
            final(self).wf(),
            final(self).heap_start() == heap_start,
            final(self).heap_size() == heap_size,
            final(self).free_spans() =~= seq![(ListNode { addr: heap_start, size: heap_size })],
            final(self).allocated_spans() == old(self).allocated_spans(),
            final(self).lost_spans() == old(self).lost_spans(),
    {
        self.heap_start = Ghost(heap_start);
        self.heap_size = Ghost(heap_size);
        self.add_free_region(heap_start, heap_size);
        proof {
            let s = self.free_list@;
            assert(s.len() == 1 && s[0] == (ListNode { addr: heap_start, size: heap_size }));
            assert(s.drop_first() =~= Seq::<ListNode>::empty());
            assert(sum_sizes(s.drop_first()) == 0);
            assert(sum_sizes(s) == heap_size);
        }
    }

    /// Writes a node record for `[addr, addr + size)` and splices it in
    /// right behind the sentinel, making it the first region the search
    /// tries. A span that could not host a node record would corrupt
    /// the list, so suitability is a precondition: handing an unaligned
    /// or undersized span is a contract violation of the caller, not a
    /// recoverable error.
    fn add_free_region(&mut self, addr: usize, size: usize)
        requires
            addr as int % (NODE_ALIGN as int) == 0,
            NODE_SIZE <= size,
            addr + size <= usize::MAX,
        ensures
            final(self).free_spans() == old(self).free_spans().insert(
                0,
                (ListNode { addr, size }),
            ),
            final(self).allocated_spans() == old(self).allocated_spans(),
            final(self).lost_spans() == old(self).lost_spans(),
            final(self).heap_start() == old(self).heap_start(),
            final(self).heap_size() == old(self).heap_size(),
    {
        let node = ListNode::new(addr, size);
        self.free_list.insert(0, node);
    }

    /// The fits test, executed: try to place `size` bytes at `align`
    /// inside `region`. Returns the allocation start address, or `Err`
    /// when the region is too small, the address arithmetic would
    /// overflow, or the split would strand a leftover too small to ever
    /// hold a node record.
    pub fn alloc_from_region(region: &ListNode, size: usize, align: usize) -> (r: Result<
        usize,
        (),
    >)
        requires
            1 <= align,
            region.addr + region.size <= usize::MAX,
        ensures
            match r {
                Ok(a) => region_fits(*region, size as int, align as int) && a == fit_start(
                    *region,
                    align as int,
                ),
                Err(_) => !region_fits(*region, size as int, align as int),
            },
    {
        proof {
            lemma_round_up(region.addr as int, align as int);
        }
        let alloc_start: usize = match align_up(region.start_addr(), align) {
            Some(v) => v,
            None => {
                return Err(());
            },
        };
        let alloc_end: usize = match alloc_start.checked_add(size) {
            Some(v) => v,
            None => {
                return Err(());
            },
        };
        if alloc_end > region.end_addr() {
            // region too small
            return Err(());
        }
        let excess_size: usize = region.end_addr() - alloc_end;
        if excess_size > 0 && excess_size < NODE_SIZE {
            // the split's leftover could never host a node record
            return Err(());
        }
        Ok(alloc_start)
    }

    /// First-fit search. Walks the list in order — most recently
    /// registered regions first — unlinks the first region that passes
    /// the fits test, and returns it with the allocation start address.
    /// `None`, with the list untouched, is the out-of-memory signal at
    /// this layer.
    pub fn find_region(&mut self, size: usize, align: usize) -> (r: Option<(ListNode, usize)>)
        requires
            old(self).wf(),
            1 <= align,
        ensures
            final(self).allocated_spans() == old(self).allocated_spans(),
            final(self).lost_spans() == old(self).lost_spans(),
            final(self).heap_start() == old(self).heap_start(),
            final(self).heap_size() == old(self).heap_size(),
            match r {
                None => {
                    &&& final(self).free_spans() == old(self).free_spans()
                    &&& !has_fit(old(self).free_spans(), size as int, align as int)
                },
                Some((node, a)) => {
                    let s = old(self).free_spans();
                    let i = first_fit_at(s, size as int, align as int);
                    &&& has_fit(s, size as int, align as int)
                    &&& 0 <= i < s.len()
                    &&& node == s[i]
                    &&& region_fits(node, size as int, align as int)
                    &&& a == fit_start(node, align as int)
                    &&& final(self).free_spans() == s.remove(i)
                },
            },
    {
        let ghost s = self.free_list@;
        let mut idx: usize = 0;
        while idx < self.free_list.len()
            invariant
                *self == *old(self),
                self.free_list@ == s,
                0 <= idx <= s.len(),
                old(self).wf(),
                1 <= align,
                forall|j: int| 0 <= j < idx ==> !region_fits(s[j], size as int, align as int),
            decreases s.len() - idx,
        {
            let region = self.free_list[idx];
            proof {
                assert(node_ok(s[idx as int], old(self).heap_start(), old(self).heap_size()));
            }
            match Self::alloc_from_region(&region, size, align) {
                Ok(alloc_start) => {
                    let node = self.free_list.remove(idx);
                    proof {
                        lemma_first_fit_prefix(s, size as int, align as int, idx as int);
                    }
                    return Some((node, alloc_start));
                },
                Err(_) => {
                    idx = idx + 1;
                },
            }
        }
        proof {
            lemma_first_fit_prefix(s, size as int, align as int, s.len() as int);
        }
        None
    }

    /// A copy of the free regions currently on the list, in list
    /// order: what a walk of the chain from the sentinel would visit.
    pub fn free_regions(&self) -> (r: Vec<ListNode>)
        ensures
            r@ == self.free_spans(),
    {
        let mut out: Vec<ListNode> = Vec::new();
        let mut i: usize = 0;
        while i < self.free_list.len()
            invariant
                0 <= i <= self.free_list.len(),
                out@ == self.free_list@.subrange(0, i as int),
            decreases self.free_list.len() - i,
        {
            out.push(self.free_list[i]);
            proof {
                assert(out@ =~= self.free_list@.subrange(0, i as int + 1));
            }
            i = i + 1;
        }
        proof {
            assert(out@ =~= self.free_list@);
        }
        out
    }

    /// Normalizes a request so that any span reserved for it can later
    /// come back as a free region: the alignment is raised to the node
    /// record's, the size padded to end on a boundary of the raised
    /// alignment and raised to hold a node record. Deterministic and
    /// recomputed from the original request alone, so `dealloc` needs
    /// no per-allocation metadata.
    pub fn size_align(size: usize, align: usize) -> (r: (usize, usize))
        requires
            valid_request(size as int, align as int),
        ensures
            r.0 as int == normalized_size(size as int, align as int),
            r.1 as int == normalized_align(align as int),
    {
        let align2: usize = if align < NODE_ALIGN {
            NODE_ALIGN
        } else {
            align
        };
        proof {
            lemma_round_up(size as int, align2 as int);
        }
        let rem: usize = size % align2;
        let padded: usize = if rem == 0 {
            size
        } else {
            size + (align2 - rem)
        };
        let size2: usize = if padded < NODE_SIZE {
            NODE_SIZE
        } else {
            padded
        };
        (size2, align2)
    }
}

/// The normalized request is at least the requested size, is node-sized
/// and node-aligned, and its alignment is a multiple both of the
/// requested alignment and of the node record's.
pub proof fn lemma_normalized_props(size: int, align: int)
    requires
        valid_request(size, align),
    ensures
        ({
            let na = normalized_align(align);
            let ns = normalized_size(size, align);
            &&& NODE_ALIGN <= na
            &&& is_power_of_two(na)
            &&& na % align == 0
            &&& na % (NODE_ALIGN as int) == 0
            &&& NODE_SIZE <= ns
            &&& size <= ns
            &&& ns % (NODE_ALIGN as int) == 0
            &&& ns <= isize::MAX as int
        }),
{
    let na = normalized_align(align);
    let ns = normalized_size(size, align);
    lemma_pow2_pos(align);
    assert(is_power_of_two(1));
    assert(is_power_of_two(2));
    assert(is_power_of_two(4));
    assert(is_power_of_two(8));
    if align < NODE_ALIGN {
        lemma_pow2_divides(align, NODE_ALIGN as int);
        lemma_pow2_divides(NODE_ALIGN as int, NODE_ALIGN as int);
    } else {
        lemma_pow2_divides(NODE_ALIGN as int, align);
        lemma_pow2_divides(align, align);
    }
    lemma_round_up(size, na);
    let padded = round_up(size, na);
    lemma_divides_transitive(padded, NODE_ALIGN as int, na);
}

/// Removing a span removes exactly its bytes from the total.
proof fn lemma_sum_remove(s: Seq<ListNode>, i: int)
    requires
        0 <= i < s.len(),
    ensures
        sum_sizes(s.remove(i)) == sum_sizes(s) - s[i].size,
    decreases s.len(),
{
    if i == 0 {
        assert(s.remove(0) =~= s.drop_first());
    } else {
        let t = s.drop_first();
        lemma_sum_remove(t, i - 1);
        assert(s.remove(i)[0] == s[0]);
        assert(s.remove(i).drop_first() =~= t.remove(i - 1));
    }
}

/// Splicing a span onto the front adds exactly its bytes to the total.
proof fn lemma_sum_insert0(s: Seq<ListNode>, n: ListNode)
    ensures
        sum_sizes(s.insert(0, n)) == n.size + sum_sizes(s),
{
    assert(s.insert(0, n)[0] == n);
    assert(s.insert(0, n).drop_first() =~= s);
}

/// Appending a span adds exactly its bytes to the total.
proof fn lemma_sum_push(s: Seq<ListNode>, n: ListNode)
    ensures
        sum_sizes(s.push(n)) == sum_sizes(s) + n.size,
    decreases s.len(),
{
    if s.len() == 0 {
        assert(s.push(n)[0] == n);
        assert(s.push(n).drop_first() =~= Seq::<ListNode>::empty());
        assert(sum_sizes(s.push(n)) == n.size + sum_sizes(Seq::<ListNode>::empty()));
    } else {
        lemma_sum_push(s.drop_first(), n);
        assert(s.push(n)[0] == s[0]);
        assert(s.push(n).drop_first() =~= s.drop_first().push(n));
        assert(sum_sizes(s.push(n)) == s[0].size + sum_sizes(s.drop_first().push(n)));
    }
}

/// Unlinking a span keeps the rest pairwise disjoint, and the unlinked
/// span is disjoint from all of them.
proof fn lemma_pairwise_remove(s: Seq<ListNode>, i: int)
    requires
        pairwise_disjoint(s),
        0 <= i < s.len(),
    ensures
        pairwise_disjoint(s.remove(i)),
        disjoint_from_all(s[i], s.remove(i)),
{
    let t = s.remove(i);
    assert forall|p: int, q: int|
        0 <= p < t.len() && 0 <= q < t.len() && p != q implies node_disjoint(t[p], t[q]) by {
        let p0: int = if p < i { p } else { p + 1 };
        let q0: int = if q < i { q } else { q + 1 };
        assert(t[p] == s[p0] && t[q] == s[q0]);
    }
    assert forall|p: int| 0 <= p < t.len() implies node_disjoint(s[i], t[p]) by {
        let p0: int = if p < i { p } else { p + 1 };
        assert(t[p] == s[p0]);
    }
}

/// Splicing in a span disjoint from all the others keeps the list
/// pairwise disjoint.
proof fn lemma_pairwise_insert0(s: Seq<ListNode>, n: ListNode)
    requires
        pairwise_disjoint(s),
        disjoint_from_all(n, s),
    ensures
        pairwise_disjoint(s.insert(0, n)),
{
    let t = s.insert(0, n);
    assert forall|p: int, q: int|
        0 <= p < t.len() && 0 <= q < t.len() && p != q implies node_disjoint(t[p], t[q]) by {
        if 1 <= p {
            assert(t[p] == s[p - 1]);
        }
        if 1 <= q {
            assert(t[q] == s[q - 1]);
        }
    }
}

/// Appending a span disjoint from all the others keeps the list
/// pairwise disjoint.
proof fn lemma_pairwise_push(s: Seq<ListNode>, n: ListNode)
    requires
        pairwise_disjoint(s),
        disjoint_from_all(n, s),
    ensures
        pairwise_disjoint(s.push(n)),
{
    let t = s.push(n);
    assert forall|p: int, q: int|
        0 <= p < t.len() && 0 <= q < t.len() && p != q implies node_disjoint(t[p], t[q]) by {
        if p < s.len() {
            assert(t[p] == s[p]);
        }
        if q < s.len() {
            assert(t[q] == s[q]);
        }
    }
}

/// Cross-disjointness survives unlinking on the left.
proof fn lemma_cross_remove_left(a: Seq<ListNode>, b: Seq<ListNode>, i: int)
    requires
        cross_disjoint(a, b),
        0 <= i < a.len(),
    ensures
        cross_disjoint(a.remove(i), b),
{
    let t = a.remove(i);
    assert forall|p: int, q: int|
        0 <= p < t.len() && 0 <= q < b.len() implies node_disjoint(t[p], b[q]) by {
        let p0: int = if p < i { p } else { p + 1 };
        assert(t[p] == a[p0]);
    }
}

/// Cross-disjointness survives splicing a span onto the left side when
/// that span is disjoint from the whole right side.
proof fn lemma_cross_insert0_left(a: Seq<ListNode>, b: Seq<ListNode>, n: ListNode)
    requires
        cross_disjoint(a, b),
        disjoint_from_all(n, b),
    ensures
        cross_disjoint(a.insert(0, n), b),
{
    let t = a.insert(0, n);
    assert forall|p: int, q: int|
        0 <= p < t.len() && 0 <= q < b.len() implies node_disjoint(t[p], b[q]) by {
        if 1 <= p {
            assert(t[p] == a[p - 1]);
        }
    }
}

/// Cross-disjointness survives appending to the right side a span that
/// is disjoint from the whole left side.
proof fn lemma_cross_push_right(a: Seq<ListNode>, b: Seq<ListNode>, n: ListNode)
    requires
        cross_disjoint(a, b),
        disjoint_from_all(n, a),
    ensures
        cross_disjoint(a, b.push(n)),
{
    let t = b.push(n);
    assert forall|p: int, q: int|
        0 <= p < a.len() && 0 <= q < t.len() implies node_disjoint(a[p], t[q]) by {
        if q < b.len() {
            assert(t[q] == b[q]);
        } else {
            assert(t[q] == n);
        }
    }
}

/// Cross-disjointness survives unlinking on the right.
proof fn lemma_cross_remove_right(a: Seq<ListNode>, b: Seq<ListNode>, j: int)
    requires
        cross_disjoint(a, b),
        0 <= j < b.len(),
    ensures
        cross_disjoint(a, b.remove(j)),
{
    let t = b.remove(j);
    assert forall|p: int, q: int|
        0 <= p < a.len() && 0 <= q < t.len() implies node_disjoint(a[p], t[q]) by {
        let q0: int = if q < j { q } else { q + 1 };
        assert(t[q] == b[q0]);
    }
}

/// Cross-disjointness survives appending to the left side a span that
/// is disjoint from the whole right side.
proof fn lemma_cross_push_left(a: Seq<ListNode>, b: Seq<ListNode>, n: ListNode)
    requires
        cross_disjoint(a, b),
        disjoint_from_all(n, b),
    ensures
        cross_disjoint(a.push(n), b),
{
    let t = a.push(n);
    assert forall|p: int, q: int|
        0 <= p < t.len() && 0 <= q < b.len() implies node_disjoint(t[p], b[q]) by {
        if p < a.len() {
            assert(t[p] == a[p]);
        } else {
            assert(t[p] == n);
        }
    }
}

/// A member of the right side of a cross-disjoint pair is disjoint from
/// the whole left side.
proof fn lemma_cross_member_right(a: Seq<ListNode>, b: Seq<ListNode>, j: int)
    requires
        cross_disjoint(a, b),
        0 <= j < b.len(),
    ensures
        disjoint_from_all(b[j], a),
{
    assert forall|p: int| 0 <= p < a.len() implies node_disjoint(b[j], a[p]) by {
        assert(node_disjoint(a[p], b[j]));
    }
}

/// A member of the left side of a cross-disjoint pair is disjoint from
/// the whole right side.
proof fn lemma_cross_member(a: Seq<ListNode>, b: Seq<ListNode>, i: int)
    requires
        cross_disjoint(a, b),
        0 <= i < a.len(),
    ensures
        disjoint_from_all(a[i], b),
{
}

/// A span contained in `outer` is disjoint from whatever `outer` is
/// disjoint from.
proof fn lemma_contained_disjoint_all(inner: ListNode, outer: ListNode, s: Seq<ListNode>)
    requires
        outer.addr <= inner.addr,
        inner.addr + inner.size <= outer.addr + outer.size,
        disjoint_from_all(outer, s),
    ensures
        disjoint_from_all(inner, s),
{
}

/// A span stays disjoint from a list extended by another span it is
/// disjoint from.
proof fn lemma_disjoint_all_push(n: ListNode, s: Seq<ListNode>, m: ListNode)
    requires
        disjoint_from_all(n, s),
        node_disjoint(n, m),
    ensures
        disjoint_from_all(n, s.push(m)),
{
    let t = s.push(m);
    assert forall|p: int| 0 <= p < t.len() implies node_disjoint(n, t[p]) by {
        if p < s.len() {
            assert(t[p] == s[p]);
        } else {
            assert(t[p] == m);
        }
    }
}

/// Relates a fit-free prefix of the list to the first-fit search: when
/// everything before `i` fails the fits test, a fitting region at `i`
/// is the first fit, and a prefix covering the whole list means no fit.
proof fn lemma_first_fit_prefix(s: Seq<ListNode>, size: int, align: int, i: int)
    requires
        0 <= i <= s.len(),
        forall|j: int| 0 <= j < i ==> !region_fits(s[j], size, align),
    ensures
        i == s.len() ==> !has_fit(s, size, align),
        i < s.len() && region_fits(s[i], size, align) ==> has_fit(s, size, align) && first_fit_at(
            s,
            size,
            align,
        ) == i,
    decreases s.len(),
{
    if s.len() == 0 || i == 0 {
        // direct from the definitions
    } else {
        let t = s.drop_first();
        assert(!region_fits(s[0], size, align));
        assert forall|j: int| 0 <= j < i - 1 implies !region_fits(t[j], size, align) by {
            assert(t[j] == s[j + 1]);
        }
        lemma_first_fit_prefix(t, size, align, i - 1);
        if i < s.len() {
            assert(t[i - 1] == s[i]);
        }
    }
}

/// Every span a well-formed allocator tracks: free regions, handed-out
/// allocations, and padding lost to over-aligned requests.
pub open spec fn all_spans(a: LinkedListAllocator) -> Seq<ListNode> {
    a.free_spans() + a.allocated_spans() + a.lost_spans()
}

/// No-overlap invariant: no two spans a well-formed allocator tracks
/// share a byte. Allocations never overlap each other, any free
/// region, or any padding span — and operations keep `wf`, so this
/// holds after any sequence of allocations and well-paired frees.
pub proof fn lemma_no_overlap(a: LinkedListAllocator)
    requires
        a.wf(),
    ensures
        pairwise_disjoint(all_spans(a)),
{
    let f = a.free_spans();
    let al = a.allocated_spans();
    let l = a.lost_spans();
    let fa = f + al;
    let t = fa + l;
    assert forall|p: int, q: int|
        0 <= p < t.len() && 0 <= q < t.len() && p != q implies node_disjoint(t[p], t[q]) by {
        let pn = if p < f.len() {
            f[p]
        } else if p < fa.len() {
            al[p - f.len()]
        } else {
            l[p - fa.len()]
        };
        let qn = if q < f.len() {
            f[q]
        } else if q < fa.len() {
            al[q - f.len()]
        } else {
            l[q - fa.len()]
        };
        assert(t[p] == pn && t[q] == qn);
        assert(node_disjoint(pn, qn));
    }
}

/// Capacity conservation: the free bytes, the allocated bytes (each
/// span at its normalized size) and the bytes lost to alignment
/// padding always total exactly the heap size handed to `init` —
/// memory is re-partitioned, never created or dropped.
pub proof fn lemma_capacity_conserved(a: LinkedListAllocator)
    requires
        a.wf(),
    ensures
        sum_sizes(a.free_spans()) + sum_sizes(a.allocated_spans()) + sum_sizes(a.lost_spans())
            == a.heap_size(),
{
}

/// With nothing lost to padding — in particular after any sequence of
/// requests whose alignments stay at the node record's or below — the
/// free and allocated bytes alone account for the whole heap.
pub proof fn lemma_capacity_no_loss(a: LinkedListAllocator)
    requires
        a.wf(),
        a.lost_spans().len() == 0,
    ensures
        sum_sizes(a.free_spans()) + sum_sizes(a.allocated_spans()) == a.heap_size(),
{
    assert(a.lost_spans() =~= Seq::<ListNode>::empty());
}

/// Fit rejection boundary: a region whose start already meets the
/// alignment serves a request for exactly its own size — an exact fit
/// with zero leftover — and rejects every larger request.
pub proof fn lemma_fit_rejection_boundary(region: ListNode, align: int)
    requires
        1 <= align,
        region.addr as int % align == 0,
    ensures
        region_fits(region, region.size as int, align),
        forall|larger: int|
            region.size < larger ==> !#[trigger] region_fits(region, larger, align),
{
    lemma_round_up(region.addr as int, align);
}

/// Minimum-leftover policy: a region strictly bigger than the request
/// but by less than one node record is rejected, even though the raw
/// bytes would fit — the dangling leftover could never rejoin the list
/// and would leak for good.
pub proof fn lemma_minimum_leftover_rejected(region: ListNode, size: int, align: int)
    requires
        1 <= align,
        region.addr as int % align == 0,
        0 <= size,
        size < region.size,
        region.size - size < NODE_SIZE,
    ensures
        !region_fits(region, size, align),
{
    lemma_round_up(region.addr as int, align);
}

/// Serializes access to the engine it wraps. None of the engine's code
/// suspends or blocks, so plain mutual exclusion is the whole
/// concurrency discipline; in the bare-metal setting this allocator is
/// written for, a spin lock provides it, and here that exclusivity is
/// carried by the exclusive borrow every operation takes. Callers must
/// guarantee that no execution context re-enters the allocator while it
/// already holds it — an interrupt handler allocating on the same core
/// as an interrupted allocation would spin forever.
pub struct Locked<A> {
    inner: A,
}

impl<A> Locked<A> {
    /// Wraps `inner` for exclusive access.
    pub fn new(inner: A) -> (r: Locked<A>)
        ensures
            r@ == inner,
    {
        Locked { inner }
    }
}

impl<A> View for Locked<A> {
    type V = A;

    closed spec fn view(&self) -> A {
        self.inner
    }
}

impl Locked<LinkedListAllocator> {
    /// Allocation facade: normalizes the request, takes the engine
    /// exclusively, runs the first-fit search, and registers whatever
    /// the chosen region's split leaves over. Returns the allocation's
    /// start address, or `None` when no free region can serve the
    /// request — the out-of-memory signal; the caller decides what to
    /// do with it, this layer never retries or grows the heap.
    ///
    /// A successful address is aligned as requested and lies inside the
    /// heap. When the chosen region's start already meets the raised
    /// alignment — always the case for requests at the node alignment
    /// or below — no byte is lost; an over-aligned request may strand
    /// the padding in front of the rounded start for good.
    pub fn allocate(&mut self, size: usize, align: usize) -> (r: Option<usize>)
        requires
            old(self)@.wf(),
            valid_request(size as int, align as int),
        ensures
            final(self)@.wf(),
            final(self)@.heap_start() == old(self)@.heap_start(),
            final(self)@.heap_size() == old(self)@.heap_size(),
            ({
                let nsize = normalized_size(size as int, align as int);
                let nalign = normalized_align(align as int);
                let free0 = old(self)@.free_spans();
                match r {
                    None => {
                        &&& !has_fit(free0, nsize, nalign)
                        &&& final(self)@.free_spans() == free0
                        &&& final(self)@.allocated_spans() == old(self)@.allocated_spans()
                        &&& final(self)@.lost_spans() == old(self)@.lost_spans()
                    },
                    Some(a) => {
                        let i = first_fit_at(free0, nsize, nalign);
                        let region = free0[i];
                        let start = fit_start(region, nalign);
                        let end = start + nsize;
                        let gap = start - region.addr;
                        let excess = region.addr + region.size - end;
                        &&& has_fit(free0, nsize, nalign)
                        &&& 0 <= i < free0.len()
                        &&& a as int == start
                        &&& a as int % (align as int) == 0
                        &&& old(self)@.heap_start() <= a
                        &&& end <= old(self)@.heap_start() + old(self)@.heap_size()
                        &&& final(self)@.allocated_spans() == old(self)@.allocated_spans().push(
                            (ListNode { addr: a, size: nsize as usize }),
                        )
                        &&& final(self)@.free_spans() == (if excess == 0 {
                            free0.remove(i)
                        } else {
                            free0.remove(i).insert(
                                0,
                                (ListNode { addr: end as usize, size: excess as usize }),
                            )
                        })
                        &&& final(self)@.lost_spans() == (if gap == 0 {
                            old(self)@.lost_spans()
                        } else {
                            old(self)@.lost_spans().push(
                                (ListNode { addr: region.addr, size: gap as usize }),
                            )
                        })
                        &&& nalign == NODE_ALIGN ==> final(self)@.lost_spans() == old(
                            self,
                        )@.lost_spans()
                    },
                }
            }),
    {
        proof {
            lemma_normalized_props(size as int, align as int);
            lemma_pow2_pos(align as int);
        }
        let (nsize, nalign) = LinkedListAllocator::size_align(size, align);
        let ghost hs = old(self)@.heap_start();
        let ghost hsz = old(self)@.heap_size();
        let ghost ofree = old(self)@.free_spans();
        let ghost oalloc = old(self)@.allocated_spans();
        let ghost olost = old(self)@.lost_spans();
        match self.inner.find_region(nsize, nalign) {
            Some((region, alloc_start)) => {
                let ghost i = first_fit_at(ofree, nsize as int, nalign as int);
                proof {
                    assert(node_ok(ofree[i], hs, hsz));
                    lemma_round_up(region.addr as int, nalign as int);
                    lemma_divides_transitive(alloc_start as int, align as int, nalign as int);
                    lemma_divides_transitive(
                        alloc_start as int,
                        NODE_ALIGN as int,
                        nalign as int,
                    );
                    lemma_mod_sum_zero(alloc_start as int, nsize as int, NODE_ALIGN as int);
                }
                let alloc_end: usize = alloc_start + nsize;
                let excess_size: usize = region.end_addr() - alloc_end;
                let ghost anode = ListNode { addr: alloc_start, size: nsize };
                let ghost gap = alloc_start as int - region.addr as int;
                let ghost gnode = ListNode { addr: region.addr, size: gap as usize };
                let ghost lnode = ListNode { addr: alloc_end, size: excess_size };
                let ghost free1 = ofree.remove(i);
                if excess_size > 0 {
                    self.inner.add_free_region(alloc_end, excess_size);
                }
                self.inner.allocated = Ghost(oalloc.push(anode));
                self.inner.lost = Ghost(
                    if gap == 0 {
                        olost
                    } else {
                        olost.push(gnode)
                    },
                );
                proof {
                    let rg = ofree[i];
                    let alloc2 = oalloc.push(anode);
                    let lost2 = if gap == 0 {
                        olost
                    } else {
                        olost.push(gnode)
                    };
                    // the three pieces of the chosen region
                    assert(rg.addr <= alloc_start as int);
                    assert(alloc_end as int + excess_size as int == rg.addr + rg.size);
                    // members and survivors stay inside the heap and node-sized
                    assert forall|p: int| 0 <= p < free1.len() implies node_ok(
                        free1[p],
                        hs,
                        hsz,
                    ) by {
                        let p0: int = if p < i {
                            p
                        } else {
                            p + 1
                        };
                        assert(free1[p] == ofree[p0]);
                    }
                    assert(node_ok(anode, hs, hsz));
                    assert forall|p: int| 0 <= p < alloc2.len() implies node_ok(
                        alloc2[p],
                        hs,
                        hsz,
                    ) by {
                        if p < oalloc.len() {
                            assert(alloc2[p] == oalloc[p]);
                        } else {
                            assert(alloc2[p] == anode);
                        }
                    }
                    assert forall|p: int| 0 <= p < lost2.len() implies span_in_heap(
                        lost2[p],
                        hs,
                        hsz,
                    ) by {
                        if p < olost.len() {
                            assert(lost2[p] == olost[p]);
                        } else {
                            assert(lost2[p] == gnode);
                        }
                    }
                    // no two spans overlap: the pieces live inside the
                    // region that left the list, and that region was
                    // disjoint from everything else
                    lemma_pairwise_remove(ofree, i);
                    lemma_cross_member(ofree, oalloc, i);
                    lemma_cross_member(ofree, olost, i);
                    lemma_contained_disjoint_all(anode, rg, free1);
                    lemma_contained_disjoint_all(anode, rg, oalloc);
                    lemma_contained_disjoint_all(anode, rg, olost);
                    lemma_pairwise_push(oalloc, anode);
                    lemma_cross_remove_left(ofree, oalloc, i);
                    lemma_cross_remove_left(ofree, olost, i);
                    lemma_cross_push_right(free1, oalloc, anode);
                    if gap != 0 {
                        lemma_contained_disjoint_all(gnode, rg, free1);
                        lemma_contained_disjoint_all(gnode, rg, oalloc);
                        lemma_contained_disjoint_all(gnode, rg, olost);
                        lemma_pairwise_push(olost, gnode);
                        lemma_cross_push_right(free1, olost, gnode);
                        lemma_disjoint_all_push(anode, olost, gnode);
                        lemma_cross_push_right(oalloc, olost, gnode);
                    }
                    lemma_cross_push_left(oalloc, lost2, anode);
                    // the accounting: the region's bytes are exactly
                    // the gap, the allocation and the leftover
                    lemma_sum_remove(ofree, i);
                    lemma_sum_push(oalloc, anode);
                    if gap != 0 {
                        lemma_sum_push(olost, gnode);
                    }
                    if excess_size > 0 {
                        let free2 = free1.insert(0, lnode);
                        assert(node_ok(lnode, hs, hsz));
                        assert forall|p: int| 0 <= p < free2.len() implies node_ok(
                            free2[p],
                            hs,
                            hsz,
                        ) by {
                            if p == 0 {
                                assert(free2[0] == lnode);
                            } else {
                                assert(free2[p] == free1[p - 1]);
                            }
                        }
                        lemma_contained_disjoint_all(lnode, rg, free1);
                        lemma_contained_disjoint_all(lnode, rg, oalloc);
                        lemma_contained_disjoint_all(lnode, rg, olost);
                        lemma_pairwise_insert0(free1, lnode);
                        lemma_disjoint_all_push(lnode, oalloc, anode);
                        lemma_cross_insert0_left(free1, alloc2, lnode);
                        if gap != 0 {
                            lemma_disjoint_all_push(lnode, olost, gnode);
                        }
                        lemma_cross_insert0_left(free1, lost2, lnode);
                        lemma_sum_insert0(free1, lnode);
                    }
                }
                Some(alloc_start)
            },
            None => None,
        }
    }

    /// Release facade: recomputes the normalized span the allocation
    /// was made with and splices it back onto the front of the list,
    /// taking the engine exclusively first. The span must be one this
    /// allocator handed out for the same request and not freed since —
    /// a double free or a foreign address is a contract violation of
    /// the caller that this layer does not detect. The freed region is
    /// never merged with an adjacent free region: fragmentation is the
    /// accepted cost of O(1) bookkeeping.
    pub fn deallocate(&mut self, ptr: usize, size: usize, align: usize)
        requires
            old(self)@.wf(),
            valid_request(size as int, align as int),
            old(self)@.allocated_spans().contains(
                dealloc_span(ptr as int, size as int, align as int),
            ),
        ensures
            final(self)@.wf(),
            final(self)@.heap_start() == old(self)@.heap_start(),
            final(self)@.heap_size() == old(self)@.heap_size(),
            final(self)@.lost_spans() == old(self)@.lost_spans(),
            final(self)@.free_spans() == old(self)@.free_spans().insert(
                0,
                dealloc_span(ptr as int, size as int, align as int),
            ),
            exists|k: int|
                0 <= k < old(self)@.allocated_spans().len() && old(self)@.allocated_spans()[k]
                    == dealloc_span(ptr as int, size as int, align as int)
                    && final(self)@.allocated_spans() == old(self)@.allocated_spans().remove(k),
    {
        proof {
            lemma_normalized_props(size as int, align as int);
        }
        let (nsize, _align2) = LinkedListAllocator::size_align(size, align);
        let ghost hs = old(self)@.heap_start();
        let ghost hsz = old(self)@.heap_size();
        let ghost d = dealloc_span(ptr as int, size as int, align as int);
        let ghost ofree = old(self)@.free_spans();
        let ghost oalloc = old(self)@.allocated_spans();
        let ghost olost = old(self)@.lost_spans();
        let ghost k = choose|k: int| 0 <= k < oalloc.len() && oalloc[k] == d;
        proof {
            assert(oalloc.contains(d));
            assert(node_ok(oalloc[k], hs, hsz));
        }
        self.inner.add_free_region(ptr, nsize);
        self.inner.allocated = Ghost(oalloc.remove(k));
        proof {
            let free2 = ofree.insert(0, d);
            let alloc2 = oalloc.remove(k);
            assert forall|p: int| 0 <= p < free2.len() implies node_ok(free2[p], hs, hsz) by {
                if p == 0 {
                    assert(free2[0] == d);
                } else {
                    assert(free2[p] == ofree[p - 1]);
                }
            }
            assert forall|p: int| 0 <= p < alloc2.len() implies node_ok(alloc2[p], hs, hsz) by {
                let p0: int = if p < k {
                    p
                } else {
                    p + 1
                };
                assert(alloc2[p] == oalloc[p0]);
            }
            // the freed span rejoins the list disjoint from everything:
            // it was an allocated span, disjoint from every free, lost
            // and other allocated span
            lemma_pairwise_remove(oalloc, k);
            lemma_cross_member_right(ofree, oalloc, k);
            lemma_cross_member(oalloc, olost, k);
            lemma_pairwise_insert0(ofree, d);
            lemma_cross_remove_right(ofree, oalloc, k);
            lemma_cross_insert0_left(ofree, alloc2, d);
            lemma_cross_insert0_left(ofree, olost, d);
            lemma_cross_remove_left(oalloc, olost, k);
            // the bytes move from the allocated account to the free one
            lemma_sum_insert0(ofree, d);
            lemma_sum_remove(oalloc, k);
        }
    }

    /// A copy of the wrapped engine's free regions, in list order.
    pub fn free_regions(&self) -> (r: Vec<ListNode>)
        ensures
            r@ == self@.free_spans(),
    {
        self.inner.free_regions()
    }
}

} // verus!
