//! Sv39 page-table entries, the physical memory that holds page-table
//! frames, and three-level page tables built from those frames.
use vstd::prelude::*;

verus! {

/// Valid: the entry maps a page or points to the next-level table.
pub const PTE_V: u8 = 1;
/// Readable.
pub const PTE_R: u8 = 2;
/// Writable.
pub const PTE_W: u8 = 4;
/// Executable.
pub const PTE_X: u8 = 8;
/// Accessible from user mode.
pub const PTE_U: u8 = 16;
/// Global mapping.
pub const PTE_G: u8 = 32;
/// Accessed.
pub const PTE_A: u8 = 64;
/// Dirty.
pub const PTE_D: u8 = 128;

/// Physical page numbers have 44 bits.
pub const PPN_MASK: u64 = 0xfff_ffff_ffff;

/// Virtual page numbers have 27 bits (three 9-bit indexes).
pub const VPN_LIMIT: u64 = 0x800_0000;

/// Largest number of frames a [`PhysMemory`] can be given.
pub const MAX_FRAMES: usize = 0x10_0000;

/// The eight flag bits of a page-table entry.
#[derive(Clone, Copy, PartialEq, Eq, Structural, Debug)]
pub struct PTEFlags {
    pub bits: u8,
}

impl PTEFlags {
    /// No flag set.
    pub fn empty() -> (r: PTEFlags)
        ensures
            r.bits == 0,
    {
        PTEFlags { bits: 0 }
    }

    /// Flags from their bit pattern; every pattern of eight bits is meaningful.
    pub fn from_bits(bits: u8) -> (r: PTEFlags)
        ensures
            r.bits == bits,
    {
        PTEFlags { bits }
    }

    /// The flags set in `self` or in `other`.
    pub fn union(self, other: PTEFlags) -> (r: PTEFlags)
        ensures
            r.bits == self.bits | other.bits,
    {
        PTEFlags { bits: self.bits | other.bits }
    }

    /// Whether every flag of `other` is set in `self`.
    pub fn contains(self, other: PTEFlags) -> (r: bool)
        ensures
            r == (self.bits & other.bits == other.bits),
    {
        self.bits & other.bits == other.bits
    }
}

/// Bits of an entry: physical page number from bit 10 on, flags in bits 0..8.
pub open spec fn encode(ppn: u64, flags: u8) -> u64 {
    (ppn << 10u64) | (flags as u64)
}

proof fn lemma_encode(ppn: u64, flags: u8)
    requires
        ppn <= PPN_MASK,
    ensures
        (encode(ppn, flags) >> 10u64) & PPN_MASK == ppn,
        (encode(ppn, flags) & 0xffu64) as u8 == flags,
{
    let f = flags as u64;
    assert(f < 256);
    assert(((ppn << 10u64) | f) >> 10u64 & 0xfff_ffff_ffffu64 == ppn) by (bit_vector)
        requires
            ppn <= 0xfff_ffff_ffffu64,
            f < 256,
    ;
    assert(((ppn << 10u64) | f) & 0xffu64 == f) by (bit_vector)
        requires
            f < 256,
    ;
}

/// One page-table entry.
#[derive(Clone, Copy, PartialEq, Eq, Structural, Debug)]
pub struct PageTableEntry {
    pub bits: u64,
}

impl PageTableEntry {
    pub open spec fn ppn_spec(self) -> u64 {
        (self.bits >> 10u64) & PPN_MASK
    }

    pub open spec fn flags_spec(self) -> u8 {
        (self.bits & 0xffu64) as u8
    }

    pub open spec fn valid(self) -> bool {
        self.flags_spec() & PTE_V != 0
    }

    /// An entry for page `ppn` with `flags`.
    pub fn new(ppn: u64, flags: PTEFlags) -> (r: PageTableEntry)
        requires
            ppn <= PPN_MASK,
        ensures
            r.bits == encode(ppn, flags.bits),
            r.ppn_spec() == ppn,
            r.flags_spec() == flags.bits,
    {
        proof {
            lemma_encode(ppn, flags.bits);
        }
        PageTableEntry { bits: (ppn << 10u64) | (flags.bits as u64) }
    }

    /// The all-zero entry, which is not valid.
    pub fn empty() -> (r: PageTableEntry)
        ensures
            r.bits == 0,
            !r.valid(),
    {
        assert((0u64 & 0xffu64) as u8 & 1u8 == 0) by (bit_vector);
        PageTableEntry { bits: 0 }
    }

    /// Physical page number held by the entry.
    pub fn ppn(&self) -> (r: u64)
        ensures
            r == self.ppn_spec(),
    {
        (self.bits >> 10u64) & PPN_MASK
    }

    /// Flag bits of the entry.
    pub fn flags(&self) -> (r: PTEFlags)
        ensures
            r.bits == self.flags_spec(),
    {
        PTEFlags::from_bits((self.bits & 0xffu64) as u8)
    }

    pub fn is_valid(&self) -> (r: bool)
        ensures
            r == self.valid(),
    {
        self.flags().bits & PTE_V != 0
    }

    pub fn readable(&self) -> (r: bool)
        ensures
            r == (self.flags_spec() & PTE_R != 0),
    {
        self.flags().bits & PTE_R != 0
    }

    pub fn writable(&self) -> (r: bool)
        ensures
            r == (self.flags_spec() & PTE_W != 0),
    {
        self.flags().bits & PTE_W != 0
    }

    pub fn executable(&self) -> (r: bool)
        ensures
            r == (self.flags_spec() & PTE_X != 0),
    {
        self.flags().bits & PTE_X != 0
    }
}


/// Entry `k` of the page-table frame `p` in the flat memory `mem`.
pub open spec fn entry(mem: Seq<PageTableEntry>, p: int, k: int) -> PageTableEntry {
    mem[p * 512 + k]
}

proof fn lemma_slot_distinct(p: int, k: int, q: int, l: int)
    requires
        0 <= p,
        0 <= q,
        0 <= k < 512,
        0 <= l < 512,
        p != q || k != l,
    ensures
        p * 512 + k != q * 512 + l,
        0 <= p * 512 + k,
{
    if p != q {
        if p < q {
            assert(p * 512 + 512 <= q * 512) by (nonlinear_arith)
                requires
                    p < q,
            ;
        } else {
            assert(q * 512 + 512 <= p * 512) by (nonlinear_arith)
                requires
                    q < p,
            ;
        }
    }
    assert(0 <= p * 512) by (nonlinear_arith)
        requires
            0 <= p,
    ;
}

proof fn lemma_slot_in_bounds(p: int, k: int, n: int)
    requires
        0 <= p < n,
        0 <= k < 512,
    ensures
        0 <= p * 512 + k < n * 512,
{
    assert(p * 512 + 512 <= n * 512) by (nonlinear_arith)
        requires
            p < n,
    ;
    assert(0 <= p * 512) by (nonlinear_arith)
        requires
            0 <= p,
    ;
}

/// Writing slot (`q`, `l`) changes entry (`p`, `k`) only where both agree.
proof fn lemma_entry_update(mem: Seq<PageTableEntry>, q: int, l: int, e: PageTableEntry)
    requires
        0 <= q,
        0 <= l < 512,
        q * 512 + l < mem.len(),
    ensures
        forall|p: int, k: int|
            0 <= p && 0 <= k < 512 && p * 512 + k < mem.len() ==> #[trigger] entry(
                mem.update(q * 512 + l, e),
                p,
                k,
            ) == if p == q && k == l {
                e
            } else {
                entry(mem, p, k)
            },
{
    assert forall|p: int, k: int| 0 <= p && 0 <= k < 512 && p * 512 + k < mem.len() implies #[trigger] entry(
        mem.update(q * 512 + l, e),
        p,
        k,
    ) == if p == q && k == l {
        e
    } else {
        entry(mem, p, k)
    } by {
        if p != q || k != l {
            lemma_slot_distinct(p, k, q, l);
        }
    }
}

/// Appending to the memory leaves the entries of existing frames as they were.
proof fn lemma_entry_append(mem: Seq<PageTableEntry>, extra: Seq<PageTableEntry>, n: int)
    requires
        0 <= n,
        n * 512 <= mem.len(),
    ensures
        forall|p: int, k: int|
            0 <= p < n && 0 <= k < 512 ==> #[trigger] entry(mem + extra, p, k) == entry(mem, p, k),
{
    assert forall|p: int, k: int| 0 <= p < n && 0 <= k < 512 implies #[trigger] entry(
        mem + extra,
        p,
        k,
    ) == entry(mem, p, k) by {
        lemma_slot_in_bounds(p, k, n);
    }
}

/// Index into the root table.
pub open spec fn idx0(vpn: u64) -> int {
    ((vpn >> 18u64) & 0x1ffu64) as int
}

/// Index into the middle table.
pub open spec fn idx1(vpn: u64) -> int {
    ((vpn >> 9u64) & 0x1ffu64) as int
}

/// Index into the leaf table.
pub open spec fn idx2(vpn: u64) -> int {
    (vpn & 0x1ffu64) as int
}

proof fn lemma_idx_bounds(vpn: u64)
    ensures
        0 <= idx0(vpn) < 512,
        0 <= idx1(vpn) < 512,
        0 <= idx2(vpn) < 512,
{
    assert((vpn >> 18u64) & 0x1ffu64 <= 0x1ffu64) by (bit_vector);
    assert((vpn >> 9u64) & 0x1ffu64 <= 0x1ffu64) by (bit_vector);
    assert(vpn & 0x1ffu64 <= 0x1ffu64) by (bit_vector);
}

/// A virtual page number below `VPN_LIMIT` is fixed by its three indexes.
proof fn lemma_idx_injective(a: u64, b: u64)
    requires
        a < VPN_LIMIT,
        b < VPN_LIMIT,
        idx0(a) == idx0(b),
        idx1(a) == idx1(b),
        idx2(a) == idx2(b),
    ensures
        a == b,
{
    assert(a == b) by (bit_vector)
        requires
            a < 0x800_0000u64,
            b < 0x800_0000u64,
            (a >> 18u64) & 0x1ffu64 == (b >> 18u64) & 0x1ffu64,
            (a >> 9u64) & 0x1ffu64 == (b >> 9u64) & 0x1ffu64,
            a & 0x1ffu64 == b & 0x1ffu64,
    ;
}

/// Root entry `i` points to a middle table.
pub open spec fn has1(mem: Seq<PageTableEntry>, root: int, i: int) -> bool {
    entry(mem, root, i).valid()
}

/// The middle table that root entry `i` points to.
pub open spec fn l1(mem: Seq<PageTableEntry>, root: int, i: int) -> int {
    entry(mem, root, i).ppn_spec() as int
}

/// Root entry `i` and then entry `j` of its middle table are valid.
pub open spec fn has2(mem: Seq<PageTableEntry>, root: int, i: int, j: int) -> bool {
    has1(mem, root, i) && entry(mem, l1(mem, root, i), j).valid()
}

/// The leaf table reached through root entry `i` and middle entry `j`.
pub open spec fn l2(mem: Seq<PageTableEntry>, root: int, i: int, j: int) -> int {
    entry(mem, l1(mem, root, i), j).ppn_spec() as int
}

/// The table rooted at frame `root` is a tree of frames below `n`: the root,
/// the middle tables and the leaf tables are pairwise distinct frames, so
/// no two paths share a table.
pub open spec fn wf_tree(mem: Seq<PageTableEntry>, n: int, root: int) -> bool {
    &&& 0 <= root < n
    &&& n * 512 <= mem.len()
    &&& forall|i: int|
        0 <= i < 512 && #[trigger] has1(mem, root, i) ==> l1(mem, root, i) < n && l1(mem, root, i)
            != root
    &&& forall|i: int, j: int|
        0 <= i < 512 && 0 <= j < 512 && #[trigger] has2(mem, root, i, j) ==> l2(mem, root, i, j)
            < n && l2(mem, root, i, j) != root
    &&& forall|i: int, j: int, k: int|
        0 <= i < 512 && 0 <= j < 512 && 0 <= k < 512 && #[trigger] has2(mem, root, i, j)
            && #[trigger] has1(mem, root, k) ==> l2(mem, root, i, j) != l1(mem, root, k)
    &&& forall|i: int, k: int|
        0 <= i < 512 && 0 <= k < 512 && i != k && #[trigger] has1(mem, root, i) && #[trigger] has1(
            mem,
            root,
            k,
        ) ==> l1(mem, root, i) != l1(mem, root, k)
    &&& forall|i: int, j: int, k: int, l: int|
        0 <= i < 512 && 0 <= j < 512 && 0 <= k < 512 && 0 <= l < 512 && (i != k || j != l)
            && #[trigger] has2(mem, root, i, j) && #[trigger] has2(mem, root, k, l) ==> l2(
            mem,
            root,
            i,
            j,
        ) != l2(mem, root, k, l)
}

/// The leaf entry for `vpn`, if every level down to it is valid.
pub open spec fn walk(mem: Seq<PageTableEntry>, root: int, vpn: u64) -> Option<PageTableEntry> {
    if has2(mem, root, idx0(vpn), idx1(vpn)) && entry(
        mem,
        l2(mem, root, idx0(vpn), idx1(vpn)),
        idx2(vpn),
    ).valid() {
        Some(entry(mem, l2(mem, root, idx0(vpn), idx1(vpn)), idx2(vpn)))
    } else {
        None
    }
}

/// Every mapped virtual page of the table rooted at `root`, with its leaf entry.
pub open spec fn mappings(mem: Seq<PageTableEntry>, root: int) -> Map<u64, PageTableEntry> {
    Map::new(
        |v: u64| v < VPN_LIMIT && walk(mem, root, v).is_some(),
        |v: u64| walk(mem, root, v).unwrap(),
    )
}

/// A frame all of whose entries are empty.
pub open spec fn zero_frame() -> Seq<PageTableEntry> {
    Seq::new(512, |i: int| PageTableEntry { bits: 0 })
}

/// A root or middle entry pointing to table frame `f`: valid and nothing else.
pub open spec fn filled_entry(f: u64) -> PageTableEntry {
    PageTableEntry { bits: encode(f, PTE_V) }
}

/// The memory after walking to the leaf table of `vpn` in the table rooted
/// at `root`, with `n` frames handed out so far: an invalid root entry is
/// filled with fresh frame `n`, then an invalid middle entry with the next
/// fresh frame. Every other slot, the leaf slot of `vpn` included, keeps
/// its value.
pub open spec fn create_path(mem: Seq<PageTableEntry>, n: int, root: int, vpn: u64) -> Seq<
    PageTableEntry,
> {
    if !has1(mem, root, idx0(vpn)) {
        (mem + zero_frame() + zero_frame()).update(root * 512 + idx0(vpn), filled_entry(n as u64)).update(
            n * 512 + idx1(vpn),
            filled_entry((n + 1) as u64),
        )
    } else if !has2(mem, root, idx0(vpn), idx1(vpn)) {
        (mem + zero_frame()).update(l1(mem, root, idx0(vpn)) * 512 + idx1(vpn), filled_entry(n as u64))
    } else {
        mem
    }
}

/// Where two memories agree on the root and on every middle table of a
/// well-formed tree, they give it the same shape.
proof fn lemma_tree_agree(m1: Seq<PageTableEntry>, m2: Seq<PageTableEntry>, n: int, root: int)
    requires
        wf_tree(m1, n, root),
        n * 512 <= m2.len(),
        forall|k: int| 0 <= k < 512 ==> #[trigger] entry(m2, root, k) == entry(m1, root, k),
        forall|i: int, k: int|
            0 <= i < 512 && 0 <= k < 512 && has1(m1, root, i) ==> #[trigger] entry(
                m2,
                l1(m1, root, i),
                k,
            ) == entry(m1, l1(m1, root, i), k),
    ensures
        wf_tree(m2, n, root),
        forall|i: int|
            0 <= i < 512 ==> #[trigger] has1(m2, root, i) == has1(m1, root, i) && l1(m2, root, i)
                == l1(m1, root, i),
        forall|i: int, j: int|
            0 <= i < 512 && 0 <= j < 512 ==> #[trigger] has2(m2, root, i, j) == has2(m1, root, i, j)
                && (has2(m1, root, i, j) ==> l2(m2, root, i, j) == l2(m1, root, i, j)),
{
    assert forall|i: int| 0 <= i < 512 implies #[trigger] has1(m2, root, i) == has1(m1, root, i)
        && l1(m2, root, i) == l1(m1, root, i) by {
        assert(entry(m2, root, i) == entry(m1, root, i));
    }
    assert forall|i: int, j: int| 0 <= i < 512 && 0 <= j < 512 implies #[trigger] has2(
        m2,
        root,
        i,
        j,
    ) == has2(m1, root, i, j) && (has2(m1, root, i, j) ==> l2(m2, root, i, j) == l2(
        m1,
        root,
        i,
        j,
    )) by {
        assert(has1(m2, root, i) == has1(m1, root, i));
        if has1(m1, root, i) {
            assert(entry(m2, l1(m1, root, i), j) == entry(m1, l1(m1, root, i), j));
        }
    }
}

/// Two memories give the tree rooted at `root` the same tables.
pub open spec fn same_shape(m1: Seq<PageTableEntry>, m2: Seq<PageTableEntry>, root: int) -> bool {
    &&& forall|i: int|
        0 <= i < 512 ==> #[trigger] has1(m2, root, i) == has1(m1, root, i) && l1(m2, root, i) == l1(
            m1,
            root,
            i,
        )
    &&& forall|i: int, j: int|
        0 <= i < 512 && 0 <= j < 512 ==> #[trigger] has2(m2, root, i, j) == has2(m1, root, i, j) && (
        has2(m1, root, i, j) ==> l2(m2, root, i, j) == l2(m1, root, i, j))
}

/// Frame `p` is none of the tables of the tree rooted at `root`.
pub open spec fn outside_tree(mem: Seq<PageTableEntry>, root: int, p: int) -> bool {
    &&& p != root
    &&& forall|i: int| 0 <= i < 512 && #[trigger] has1(mem, root, i) ==> l1(mem, root, i) != p
    &&& forall|i: int, j: int|
        0 <= i < 512 && 0 <= j < 512 && #[trigger] has2(mem, root, i, j) ==> l2(mem, root, i, j) != p
}

/// No table of the tree rooted at `a` is a table of the tree rooted at `b`.
pub open spec fn trees_disjoint(mem: Seq<PageTableEntry>, a: int, b: int) -> bool {
    &&& outside_tree(mem, b, a)
    &&& forall|i: int|
        0 <= i < 512 && #[trigger] has1(mem, a, i) ==> outside_tree(mem, b, l1(mem, a, i))
    &&& forall|i: int, j: int|
        0 <= i < 512 && 0 <= j < 512 && #[trigger] has2(mem, a, i, j) ==> outside_tree(
            mem,
            b,
            l2(mem, a, i, j),
        )
}

/// Writing a slot of a frame outside a tree keeps the tree and what it maps.
proof fn lemma_write_outside(
    mem: Seq<PageTableEntry>,
    n: int,
    rt: int,
    q: int,
    l: int,
    e: PageTableEntry,
)
    requires
        wf_tree(mem, n, rt),
        0 <= q,
        0 <= l < 512,
        q * 512 + l < mem.len(),
        outside_tree(mem, rt, q),
    ensures
        wf_tree(mem.update(q * 512 + l, e), n, rt),
        mappings(mem.update(q * 512 + l, e), rt) == mappings(mem, rt),
        same_shape(mem, mem.update(q * 512 + l, e), rt),
{
    let m2 = mem.update(q * 512 + l, e);
    lemma_entry_update(mem, q, l, e);
    assert forall|k: int| 0 <= k < 512 implies #[trigger] entry(m2, rt, k) == entry(mem, rt, k) by {
        lemma_slot_in_bounds(rt, k, n);
    }
    assert forall|i: int, k: int|
        0 <= i < 512 && 0 <= k < 512 && has1(mem, rt, i) implies #[trigger] entry(
        m2,
        l1(mem, rt, i),
        k,
    ) == entry(mem, l1(mem, rt, i), k) by {
        lemma_slot_in_bounds(l1(mem, rt, i), k, n);
    }
    lemma_tree_agree(mem, m2, n, rt);
    assert forall|v: u64| v < VPN_LIMIT implies #[trigger] walk(m2, rt, v) == walk(mem, rt, v) by {
        lemma_idx_bounds(v);
        if has2(mem, rt, idx0(v), idx1(v)) {
            let qv = l2(mem, rt, idx0(v), idx1(v));
            lemma_slot_in_bounds(qv, idx2(v), n);
            assert(entry(m2, qv, idx2(v)) == entry(mem, qv, idx2(v)));
        }
    }
    assert(mappings(m2, rt) =~= mappings(mem, rt));
}

/// Every table of the tree rooted at `root` in `m2` is one it had in `m1`,
/// at the same place, or a frame numbered `n` or above.
pub open spec fn grows_fresh(m1: Seq<PageTableEntry>, m2: Seq<PageTableEntry>, root: int, n: int) -> bool {
    &&& forall|i: int|
        0 <= i < 512 && #[trigger] has1(m2, root, i) ==> (has1(m1, root, i) && l1(m2, root, i) == l1(
            m1,
            root,
            i,
        )) || l1(m2, root, i) >= n
    &&& forall|i: int, j: int|
        0 <= i < 512 && 0 <= j < 512 && #[trigger] has2(m2, root, i, j) ==> (has2(m1, root, i, j)
            && l2(m2, root, i, j) == l2(m1, root, i, j)) || l2(m2, root, i, j) >= n
}

/// Fresh growth and unchanged shape compose: a step that keeps a tree's
/// tables or adds frames numbered `n` or above, after another such step,
/// is again such a step. Unchanged shape is the case without new frames.
pub proof fn lemma_grows_trans(
    m1: Seq<PageTableEntry>,
    m2: Seq<PageTableEntry>,
    m3: Seq<PageTableEntry>,
    root: int,
    n: int,
)
    requires
        grows_fresh(m1, m2, root, n) || same_shape(m1, m2, root) || m1 == m2,
        grows_fresh(m2, m3, root, n) || same_shape(m2, m3, root),
    ensures
        grows_fresh(m1, m3, root, n),
        same_shape(m1, m2, root) && same_shape(m2, m3, root) ==> same_shape(m1, m3, root),
{
}

/// Trees stay disjoint when one keeps its tables and the other only gains
/// frames beyond every table of the first.
pub proof fn lemma_disjoint_after(
    m1: Seq<PageTableEntry>,
    m2: Seq<PageTableEntry>,
    n: int,
    root: int,
    rt: int,
)
    requires
        wf_tree(m1, n, rt),
        same_shape(m1, m2, rt),
        trees_disjoint(m1, root, rt),
        grows_fresh(m1, m2, root, n),
    ensures
        trees_disjoint(m2, root, rt),
{
    assert forall|i: int| 0 <= i < 512 && #[trigger] has1(m2, root, i) implies outside_tree(
        m2,
        rt,
        l1(m2, root, i),
    ) by {
        if has1(m1, root, i) && l1(m2, root, i) == l1(m1, root, i) {
            assert(outside_tree(m1, rt, l1(m1, root, i)));
        }
    }
    assert forall|i: int, j: int| 0 <= i < 512 && 0 <= j < 512 && #[trigger] has2(m2, root, i, j)
        implies outside_tree(m2, rt, l2(m2, root, i, j)) by {
        if has2(m1, root, i, j) && l2(m2, root, i, j) == l2(m1, root, i, j) {
            assert(outside_tree(m1, rt, l2(m1, root, i, j)));
        }
    }
}

/// Appending frames keeps a tree and what it maps.
proof fn lemma_tree_append(mem: Seq<PageTableEntry>, extra: Seq<PageTableEntry>, n: int, root: int)
    requires
        wf_tree(mem, n, root),
    ensures
        wf_tree(mem + extra, n, root),
        forall|v: u64| v < VPN_LIMIT ==> #[trigger] walk(mem + extra, root, v) == walk(mem, root, v),
        same_shape(mem, mem + extra, root),
{
    let m2 = mem + extra;
    lemma_entry_append(mem, extra, n);
    lemma_tree_agree(mem, m2, n, root);
    assert forall|v: u64| v < VPN_LIMIT implies #[trigger] walk(m2, root, v) == walk(mem, root, v) by {
        lemma_idx_bounds(v);
        if has2(mem, root, idx0(v), idx1(v)) {
            assert(entry(m2, l2(mem, root, idx0(v), idx1(v)), idx2(v)) == entry(
                mem,
                l2(mem, root, idx0(v), idx1(v)),
                idx2(v),
            ));
        }
    }
}

/// A tree over frames below `n` is also one over frames below `n + 1`.
proof fn lemma_tree_grow(mem: Seq<PageTableEntry>, n: int, root: int)
    requires
        wf_tree(mem, n, root),
        (n + 1) * 512 <= mem.len(),
    ensures
        wf_tree(mem, n + 1, root),
{
}

/// Handing out one more frame keeps every tree and what it maps.
proof fn lemma_alloc_keeps_trees(m0: Seq<PageTableEntry>, m1: Seq<PageTableEntry>, n: int)
    requires
        m1 == m0 + zero_frame(),
        m0.len() == n * 512,
    ensures
        forall|root: int|
            #![trigger wf_tree(m0, n, root)]
            wf_tree(m0, n, root) ==> wf_tree(m1, n + 1, root) && mappings(m1, root) == mappings(
                m0,
                root,
            ) && same_shape(m0, m1, root),
{
    assert forall|root: int| #![trigger wf_tree(m0, n, root)] wf_tree(m0, n, root) implies wf_tree(m1, n + 1, root) && mappings(
        m1,
        root,
    ) == mappings(m0, root) && same_shape(m0, m1, root) by {
        lemma_tree_append(m0, zero_frame(), n, root);
        assert((n + 1) * 512 == n * 512 + 512);
        lemma_tree_grow(m1, n, root);
        assert(mappings(m1, root) =~= mappings(m0, root));
    }
}

/// Pointing an invalid root entry at a fresh, empty frame `n` keeps a tree
/// (now over frames below `n + 1`) and what it maps.
proof fn lemma_link_root(mem: Seq<PageTableEntry>, n: int, root: int, i0: int, e: PageTableEntry)
    requires
        wf_tree(mem, n, root),
        0 <= i0 < 512,
        !has1(mem, root, i0),
        (n + 1) * 512 <= mem.len(),
        e.valid(),
        e.ppn_spec() == n,
        forall|k: int| 0 <= k < 512 ==> !(#[trigger] entry(mem, n, k)).valid(),
    ensures
        wf_tree(mem.update(root * 512 + i0, e), n + 1, root),
        has1(mem.update(root * 512 + i0, e), root, i0),
        l1(mem.update(root * 512 + i0, e), root, i0) == n,
        forall|v: u64|
            v < VPN_LIMIT ==> #[trigger] walk(mem.update(root * 512 + i0, e), root, v) == walk(
                mem,
                root,
                v,
            ),
        grows_fresh(mem, mem.update(root * 512 + i0, e), root, n),
{
    let m2 = mem.update(root * 512 + i0, e);
    lemma_slot_in_bounds(root, i0, n);
    lemma_entry_update(mem, root, i0, e);
    assert(entry(m2, root, i0) == e);
    assert forall|i: int| 0 <= i < 512 && i != i0 implies #[trigger] has1(m2, root, i) == has1(
        mem,
        root,
        i,
    ) && l1(m2, root, i) == l1(mem, root, i) by {
        assert(entry(m2, root, i) == entry(mem, root, i));
    }
    assert forall|i: int, j: int| 0 <= i < 512 && 0 <= j < 512 implies #[trigger] has2(
        m2,
        root,
        i,
        j,
    ) == (i != i0 && has2(mem, root, i, j)) && (i != i0 && has2(mem, root, i, j) ==> l2(
        m2,
        root,
        i,
        j,
    ) == l2(mem, root, i, j)) by {
        lemma_slot_in_bounds(n, j, n + 1);
        if i == i0 {
            assert(entry(m2, n, j) == entry(mem, n, j));
        } else if has1(mem, root, i) {
            lemma_slot_in_bounds(l1(mem, root, i), j, n);
            assert(entry(m2, l1(mem, root, i), j) == entry(mem, l1(mem, root, i), j));
        }
    }
    assert forall|v: u64| v < VPN_LIMIT implies #[trigger] walk(m2, root, v) == walk(mem, root, v) by {
        lemma_idx_bounds(v);
        if idx0(v) != i0 && has2(mem, root, idx0(v), idx1(v)) {
            let q = l2(mem, root, idx0(v), idx1(v));
            lemma_slot_in_bounds(q, idx2(v), n);
            assert(entry(m2, q, idx2(v)) == entry(mem, q, idx2(v)));
        }
    }
}

/// Pointing an invalid middle entry at a fresh, empty frame `n` keeps a
/// tree (now over frames below `n + 1`) and what it maps.
proof fn lemma_link_mid(
    mem: Seq<PageTableEntry>,
    n: int,
    root: int,
    i0: int,
    i1: int,
    e: PageTableEntry,
)
    requires
        wf_tree(mem, n, root),
        0 <= i0 < 512,
        0 <= i1 < 512,
        has1(mem, root, i0),
        !has2(mem, root, i0, i1),
        (n + 1) * 512 <= mem.len(),
        e.valid(),
        e.ppn_spec() == n,
        forall|k: int| 0 <= k < 512 ==> !(#[trigger] entry(mem, n, k)).valid(),
    ensures
        wf_tree(mem.update(l1(mem, root, i0) * 512 + i1, e), n + 1, root),
        has2(mem.update(l1(mem, root, i0) * 512 + i1, e), root, i0, i1),
        l2(mem.update(l1(mem, root, i0) * 512 + i1, e), root, i0, i1) == n,
        forall|v: u64|
            v < VPN_LIMIT ==> #[trigger] walk(mem.update(l1(mem, root, i0) * 512 + i1, e), root, v)
                == walk(mem, root, v),
        grows_fresh(mem, mem.update(l1(mem, root, i0) * 512 + i1, e), root, n),
{
    let p = l1(mem, root, i0);
    let m2 = mem.update(p * 512 + i1, e);
    lemma_slot_in_bounds(p, i1, n);
    lemma_entry_update(mem, p, i1, e);
    assert(entry(m2, root, i0) == entry(mem, root, i0));
    assert(entry(m2, p, i1) == e);
    assert forall|i: int| 0 <= i < 512 implies #[trigger] has1(m2, root, i) == has1(mem, root, i)
        && l1(m2, root, i) == l1(mem, root, i) by {
        assert(entry(m2, root, i) == entry(mem, root, i));
    }
    assert forall|i: int, j: int| 0 <= i < 512 && 0 <= j < 512 implies #[trigger] has2(
        m2,
        root,
        i,
        j,
    ) == ((i == i0 && j == i1) || has2(mem, root, i, j)) && (has2(mem, root, i, j) ==> l2(
        m2,
        root,
        i,
        j,
    ) == l2(mem, root, i, j)) by {
        if has1(mem, root, i) {
            lemma_slot_in_bounds(l1(mem, root, i), j, n);
            assert(entry(m2, l1(mem, root, i), j) == if i == i0 && j == i1 {
                e
            } else {
                entry(mem, l1(mem, root, i), j)
            });
        }
    }
    assert forall|v: u64| v < VPN_LIMIT implies #[trigger] walk(m2, root, v) == walk(mem, root, v) by {
        lemma_idx_bounds(v);
        if idx0(v) == i0 && idx1(v) == i1 {
            lemma_slot_in_bounds(n, idx2(v), n + 1);
            assert(entry(m2, n, idx2(v)) == entry(mem, n, idx2(v)));
        } else if has2(mem, root, idx0(v), idx1(v)) {
            let q = l2(mem, root, idx0(v), idx1(v));
            lemma_slot_in_bounds(q, idx2(v), n);
            assert(entry(m2, q, idx2(v)) == entry(mem, q, idx2(v)));
        }
    }
}

/// Writing `e` into the leaf slot of `vpn`, whose path is valid, keeps the
/// tree and changes what it maps at `vpn` alone.
proof fn lemma_set_leaf(mem: Seq<PageTableEntry>, n: int, root: int, vpn: u64, e: PageTableEntry)
    requires
        wf_tree(mem, n, root),
        vpn < VPN_LIMIT,
        has2(mem, root, idx0(vpn), idx1(vpn)),
    ensures
        wf_tree(
            mem.update(l2(mem, root, idx0(vpn), idx1(vpn)) * 512 + idx2(vpn), e),
            n,
            root,
        ),
        forall|v: u64|
            v < VPN_LIMIT ==> #[trigger] walk(
                mem.update(l2(mem, root, idx0(vpn), idx1(vpn)) * 512 + idx2(vpn), e),
                root,
                v,
            ) == if v == vpn {
                if e.valid() {
                    Some(e)
                } else {
                    None
                }
            } else {
                walk(mem, root, v)
            },
        same_shape(mem, mem.update(l2(mem, root, idx0(vpn), idx1(vpn)) * 512 + idx2(vpn), e), root),
{
    lemma_idx_bounds(vpn);
    let i0 = idx0(vpn);
    let i1 = idx1(vpn);
    let i2 = idx2(vpn);
    let q = l2(mem, root, i0, i1);
    let m2 = mem.update(q * 512 + i2, e);
    lemma_slot_in_bounds(q, i2, n);
    lemma_entry_update(mem, q, i2, e);
    assert forall|k: int| 0 <= k < 512 implies #[trigger] entry(m2, root, k) == entry(mem, root, k) by {
        lemma_slot_in_bounds(root, k, n);
    }
    assert forall|i: int, k: int|
        0 <= i < 512 && 0 <= k < 512 && has1(mem, root, i) implies #[trigger] entry(
        m2,
        l1(mem, root, i),
        k,
    ) == entry(mem, l1(mem, root, i), k) by {
        lemma_slot_in_bounds(l1(mem, root, i), k, n);
    }
    lemma_tree_agree(mem, m2, n, root);
    assert forall|v: u64| v < VPN_LIMIT implies #[trigger] walk(m2, root, v) == if v == vpn {
        if e.valid() {
            Some(e)
        } else {
            None
        }
    } else {
        walk(mem, root, v)
    } by {
        lemma_idx_bounds(v);
        if has2(mem, root, idx0(v), idx1(v)) {
            let qv = l2(mem, root, idx0(v), idx1(v));
            lemma_slot_in_bounds(qv, idx2(v), n);
            if v != vpn && qv == q {
                if idx0(v) == i0 && idx1(v) == i1 && idx2(v) == i2 {
                    lemma_idx_injective(v, vpn);
                }
            }
            assert(entry(m2, qv, idx2(v)) == if qv == q && idx2(v) == i2 {
                e
            } else {
                entry(mem, qv, idx2(v))
            });
        }
    }
}

/// Mapping `vpn` in the tree rooted at `root` (the walk that fills missing
/// tables, then one leaf write of `e`) keeps every tree whose tables are
/// disjoint from it, and what that tree maps.
pub proof fn lemma_map_keeps_other(
    mem: Seq<PageTableEntry>,
    n: int,
    root: int,
    rt: int,
    vpn: u64,
    e: PageTableEntry,
)
    requires
        mem.len() == n * 512,
        wf_tree(mem, n, root),
        wf_tree(mem, n, rt),
        trees_disjoint(mem, root, rt),
        vpn < VPN_LIMIT,
        n + 2 <= PPN_MASK,
    ensures
        ({
            let c = create_path(mem, n, root, vpn);
            let m2 = c.update(l2(c, root, idx0(vpn), idx1(vpn)) * 512 + idx2(vpn), e);
            &&& m2.len() == c.len()
            &&& wf_tree(m2, (c.len() / 512) as int, rt)
            &&& mappings(m2, rt) == mappings(mem, rt)
            &&& trees_disjoint(m2, root, rt)
        }),
{
    lemma_idx_bounds(vpn);
    let i0 = idx0(vpn);
    let i1 = idx1(vpn);
    let i2 = idx2(vpn);
    let z = zero_frame();
    let c = create_path(mem, n, root, vpn);
    if !has1(mem, root, i0) {
        let ma = mem + z + z;
        assert(ma =~= mem + (z + z));
        lemma_tree_append(mem, z + z, n, rt);
        assert(mappings(ma, rt) =~= mappings(mem, rt));
        assert(ma.len() == (n + 2) * 512);
        lemma_slot_in_bounds(root, i0, n);
        lemma_write_outside(ma, n, rt, root, i0, filled_entry(n as u64));
        let mb = ma.update(root * 512 + i0, filled_entry(n as u64));
        lemma_slot_in_bounds(n, i1, n + 1);
        lemma_write_outside(mb, n, rt, n, i1, filled_entry((n + 1) as u64));
        assert(c == mb.update(n * 512 + i1, filled_entry((n + 1) as u64)));
        lemma_slot_distinct(root, i0, n, i1);
        assert(entry(c, root, i0) == filled_entry(n as u64));
        assert(entry(c, n, i1) == filled_entry((n + 1) as u64));
        lemma_encode(n as u64, PTE_V);
        lemma_encode((n + 1) as u64, PTE_V);
        assert(l2(c, root, i0, i1) == n + 1);
        lemma_slot_in_bounds(n + 1, i2, n + 2);
        lemma_write_outside(c, n, rt, n + 1, i2, e);
        let m2 = c.update((n + 1) * 512 + i2, e);
        lemma_tree_grow(m2, n, rt);
        lemma_tree_grow(m2, n + 1, rt);
        assert(c.len() / 512 == n + 2);
        // the tree rooted at `root` only gains frames `n` and `n + 1`
        lemma_tree_append(mem, z + z, n, root);
        assert forall|k: int| 0 <= k < 512 implies !(#[trigger] entry(ma, n, k)).valid() by {
            lemma_flag_bits();
            assert(entry(ma, n, k) == PageTableEntry { bits: 0 });
        }
        lemma_flag_bits();
        assert(PTE_V | PTE_V == PTE_V) by (bit_vector);
        assert(filled_entry(n as u64).valid());
        assert(filled_entry((n + 1) as u64).valid());
        lemma_link_root(ma, n, root, i0, filled_entry(n as u64));
        lemma_entry_update(ma, root, i0, filled_entry(n as u64));
        lemma_slot_in_bounds(n + 1, 0, n + 2);
        assert forall|k: int| 0 <= k < 512 implies !(#[trigger] entry(mb, n + 1, k)).valid() by {
            lemma_slot_in_bounds(n + 1, k, n + 2);
            assert(entry(mb, n + 1, k) == entry(ma, n + 1, k));
            assert(entry(ma, n + 1, k) == PageTableEntry { bits: 0 });
        }
        assert(entry(mb, n, i1) == entry(ma, n, i1));
        lemma_link_mid(mb, n + 1, root, i0, i1, filled_entry((n + 1) as u64));
        lemma_set_leaf(c, n + 2, root, vpn, e);
        lemma_grows_trans(mem, ma, mb, root, n);
        lemma_grows_trans(mem, mb, c, root, n);
        lemma_grows_trans(mem, c, m2, root, n);
        lemma_disjoint_after(mem, m2, n, root, rt);
    } else if !has2(mem, root, i0, i1) {
        let ma = mem + z;
        lemma_tree_append(mem, z, n, rt);
        assert(mappings(ma, rt) =~= mappings(mem, rt));
        let p = l1(mem, root, i0);
        lemma_slot_in_bounds(p, i1, n);
        lemma_write_outside(ma, n, rt, p, i1, filled_entry(n as u64));
        lemma_slot_distinct(root, i0, p, i1);
        lemma_slot_in_bounds(root, i0, n);
        assert(entry(c, root, i0) == entry(mem, root, i0));
        assert(entry(c, p, i1) == filled_entry(n as u64));
        lemma_encode(n as u64, PTE_V);
        assert(l2(c, root, i0, i1) == n);
        lemma_slot_in_bounds(n, i2, n + 1);
        lemma_write_outside(c, n, rt, n, i2, e);
        let m2 = c.update(n * 512 + i2, e);
        lemma_tree_grow(m2, n, rt);
        assert(c.len() / 512 == n + 1);
        // the tree rooted at `root` only gains frame `n`
        lemma_tree_append(mem, z, n, root);
        assert forall|k: int| 0 <= k < 512 implies !(#[trigger] entry(ma, n, k)).valid() by {
            lemma_flag_bits();
            assert(entry(ma, n, k) == PageTableEntry { bits: 0 });
        }
        lemma_flag_bits();
        assert(PTE_V | PTE_V == PTE_V) by (bit_vector);
        assert(filled_entry(n as u64).valid());
        lemma_link_mid(ma, n, root, i0, i1, filled_entry(n as u64));
        lemma_set_leaf(c, n + 1, root, vpn, e);
        lemma_grows_trans(mem, ma, c, root, n);
        lemma_grows_trans(mem, c, m2, root, n);
        lemma_disjoint_after(mem, m2, n, root, rt);
    } else {
        let q = l2(mem, root, i0, i1);
        lemma_slot_in_bounds(q, i2, n);
        lemma_write_outside(mem, n, rt, q, i2, e);
        assert(c.len() / 512 == n);
        lemma_set_leaf(mem, n, root, vpn, e);
        let m2 = mem.update(q * 512 + i2, e);
        lemma_grows_trans(mem, mem, m2, root, n);
        lemma_disjoint_after(mem, m2, n, root, rt);
    }
}

/// Physical memory in frames of 512 machine words, which page tables read
/// as arrays of entries. Frame `p` is the run of 512 entries from position
/// `p * 512`. Frames are handed out in order,
/// each exactly once, up to a fixed number of frames.
pub struct PhysMemory {
    entries: Vec<PageTableEntry>,
    used: usize,
    limit: usize,
}

impl View for PhysMemory {
    type V = Seq<PageTableEntry>;

    closed spec fn view(&self) -> Seq<PageTableEntry> {
        self.entries@
    }
}

impl PhysMemory {
    /// Number of frames handed out so far.
    pub closed spec fn frames(&self) -> nat {
        self.used as nat
    }

    /// Number of frames this memory can hand out in all.
    pub closed spec fn limit(&self) -> nat {
        self.limit as nat
    }

    pub open spec fn wf(&self) -> bool {
        &&& self@.len() == self.frames() * 512
        &&& self.frames() <= self.limit()
        &&& self.limit() <= MAX_FRAMES
    }

    /// An empty memory able to hand out `limit` frames.
    pub fn new(limit: usize) -> (r: PhysMemory)
        requires
            limit <= MAX_FRAMES,
        ensures
            r.wf(),
            r.frames() == 0,
            r.limit() == limit,
    {
        PhysMemory { entries: Vec::new(), used: 0, limit }
    }

    /// Number of frames handed out so far.
    pub fn used_frames(&self) -> (r: usize)
        ensures
            r == self.frames(),
    {
        self.used
    }

    /// Number of frames that can still be handed out.
    pub fn free_frames(&self) -> (r: usize)
        requires
            self.wf(),
        ensures
            r == self.limit() - self.frames(),
    {
        self.limit - self.used
    }

    /// Hands out the next frame, all of whose entries are empty.
    pub fn alloc_frame(&mut self) -> (ppn: u64)
        requires
            old(self).wf(),
            old(self).frames() < old(self).limit(),
        ensures
            final(self).wf(),
            ppn == old(self).frames(),
            final(self).frames() == old(self).frames() + 1,
            final(self).limit() == old(self).limit(),
            final(self)@ == old(self)@ + zero_frame(),
            forall|root: int|
                #![trigger wf_tree(old(self)@, old(self).frames() as int, root)]
                wf_tree(old(self)@, old(self).frames() as int, root) ==> wf_tree(
                    final(self)@,
                    final(self).frames() as int,
                    root,
                ) && mappings(final(self)@, root) == mappings(old(self)@, root) && same_shape(
                    old(self)@,
                    final(self)@,
                    root,
                ),
    {
        let ghost start = self.entries@;
        let ghost lim = self.limit;
        let ghost used = self.used;
        let mut i: usize = 0;
        while i < 512
            invariant
                0 <= i <= 512,
                self.entries@ == start + Seq::new(i as nat, |j: int| PageTableEntry { bits: 0 }),
                start.len() == self.used * 512,
                self.used < self.limit <= MAX_FRAMES,
                self.limit == lim,
                self.used == used,
            decreases 512 - i,
        {
            self.entries.push(PageTableEntry::empty());
            i = i + 1;
            assert(self.entries@ =~= start + Seq::new(i as nat, |j: int| PageTableEntry { bits: 0 }));
        }
        let ppn = self.used as u64;
        self.used = self.used + 1;
        proof {
            lemma_alloc_keeps_trees(start, self.entries@, used as int);
        }
        ppn
    }

    /// Entry `idx` of frame `ppn`.
    pub fn read(&self, ppn: u64, idx: u64) -> (r: PageTableEntry)
        requires
            self.wf(),
            ppn < self.frames(),
            idx < 512,
        ensures
            r == entry(self@, ppn as int, idx as int),
    {
        proof {
            lemma_slot_in_bounds(ppn as int, idx as int, self.used as int);
        }
        self.entries[ppn as usize * 512 + idx as usize]
    }

    /// Overwrites entry `idx` of frame `ppn`.
    pub fn write(&mut self, ppn: u64, idx: u64, e: PageTableEntry)
        requires
            old(self).wf(),
            ppn < old(self).frames(),
            idx < 512,
        ensures
            final(self).wf(),
            final(self).frames() == old(self).frames(),
            final(self).limit() == old(self).limit(),
            final(self)@ == old(self)@.update(ppn * 512 + idx, e),
    {
        proof {
            lemma_slot_in_bounds(ppn as int, idx as int, self.used as int);
        }
        self.entries.set(ppn as usize * 512 + idx as usize, e);
    }
}


proof fn lemma_flag_bits()
    ensures
        !(PageTableEntry { bits: 0 }).valid(),
        forall|b: u8| #[trigger] (b | PTE_V) & PTE_V != 0,
{
    assert((0u64 & 0xffu64) as u8 & 1u8 == 0) by (bit_vector);
    assert forall|b: u8| #[trigger] (b | PTE_V) & PTE_V != 0 by {
        assert((b | 1u8) & 1u8 != 0) by (bit_vector);
    }
}

/// Handle bits naming the Sv39 translation scheme.
pub const SV39_MODE: u64 = 0x8000_0000_0000_0000;

/// The address-space handle of the table rooted at `root`.
pub open spec fn token_of(root: u64) -> u64 {
    SV39_MODE | root
}

/// The leaf entry written by `map` for page `ppn` with `flags`.
pub open spec fn leaf_entry(ppn: u64, flags: u8) -> PageTableEntry {
    PageTableEntry { bits: encode(ppn, flags | PTE_V) }
}

/// A three-level page table: its root frame and the frames it allocated.
/// The table's contents live in a [`PhysMemory`].
pub struct PageTable {
    root_ppn: u64,
    frames: Vec<u64>,
}

impl PageTable {
    /// Frame holding the root table.
    pub closed spec fn root(&self) -> u64 {
        self.root_ppn
    }

    /// Frames this table owns, in order of allocation.
    pub closed spec fn owned(&self) -> Seq<u64> {
        self.frames@
    }

    /// The table is a well-formed tree in `mem`.
    pub open spec fn wf(&self, mem: &PhysMemory) -> bool {
        mem.wf() && wf_tree(mem@, mem.frames() as int, self.root() as int)
    }

    /// Every mapped virtual page with its leaf entry.
    pub open spec fn mappings(&self, mem: &PhysMemory) -> Map<u64, PageTableEntry> {
        mappings(mem@, self.root() as int)
    }

    /// Frames that mapping `vpn` has to allocate for missing tables.
    pub open spec fn frames_needed(&self, mem: &PhysMemory, vpn: u64) -> nat {
        if !has1(mem@, self.root() as int, idx0(vpn)) {
            2
        } else if !has2(mem@, self.root() as int, idx0(vpn), idx1(vpn)) {
            1
        } else {
            0
        }
    }

    /// A table with a freshly allocated, empty root frame, which it owns.
    pub fn new(mem: &mut PhysMemory) -> (r: PageTable)
        requires
            old(mem).wf(),
            old(mem).frames() < old(mem).limit(),
        ensures
            r.wf(final(mem)),
            r.mappings(final(mem)) == Map::<u64, PageTableEntry>::empty(),
            r.root() == old(mem).frames(),
            r.owned() == seq![r.root()],
            final(mem).frames() == old(mem).frames() + 1,
            final(mem).limit() == old(mem).limit(),
            forall|root: int|
                #![trigger wf_tree(old(mem)@, old(mem).frames() as int, root)]
                wf_tree(old(mem)@, old(mem).frames() as int, root) ==> wf_tree(
                    final(mem)@,
                    final(mem).frames() as int,
                    root,
                ) && mappings(final(mem)@, root) == mappings(old(mem)@, root),
    {
        let ghost m0 = mem@;
        let ghost n = mem.frames() as int;
        let frame = mem.alloc_frame();
        let ghost m1 = mem@;
        proof {
            lemma_flag_bits();
            assert forall|k: int| 0 <= k < 512 implies !(#[trigger] entry(m1, n, k)).valid() by {
                assert(entry(m1, n, k) == PageTableEntry { bits: 0 });
            }
            assert forall|v: u64| #[trigger] walk(m1, n, v) == None::<PageTableEntry> by {
                lemma_idx_bounds(v);
            }
            assert(mappings(m1, n) =~= Map::<u64, PageTableEntry>::empty());
        }
        let mut frames: Vec<u64> = Vec::new();
        frames.push(frame);
        PageTable { root_ppn: frame, frames }
    }

    /// A non-owning view of the table named by the address-space handle
    /// `satp`; it owns no frame.
    pub fn from_token(satp: u64) -> (r: PageTable)
        ensures
            r.root() == satp & PPN_MASK,
            r.owned() == Seq::<u64>::empty(),
    {
        PageTable { root_ppn: satp & PPN_MASK, frames: Vec::new() }
    }

    /// The address-space handle naming this table: the Sv39 scheme tag over
    /// the root frame's number.
    pub fn token(&self) -> (r: u64)
        ensures
            r == token_of(self.root()),
            self.root() <= PPN_MASK ==> r & PPN_MASK == self.root(),
    {
        let root = self.root_ppn;
        assert(root <= 0xfff_ffff_ffffu64 ==> (0x8000_0000_0000_0000u64 | root) & 0xfff_ffff_ffffu64
            == root) by (bit_vector);
        SV39_MODE | self.root_ppn
    }

    /// Walks to the leaf table of `vpn`, filling each invalid root or middle
    /// entry on the way with a fresh frame marked valid and nothing else.
    /// Returns the leaf table's frame; its entry for `vpn` is left alone.
    fn find_pte_create(&mut self, mem: &mut PhysMemory, vpn: u64) -> (leaf: u64)
        requires
            old(self).wf(old(mem)),
            vpn < VPN_LIMIT,
            old(mem).frames() + old(self).frames_needed(old(mem), vpn) <= old(mem).limit(),
        ensures
            final(self).wf(final(mem)),
            final(self).root() == old(self).root(),
            final(mem).frames() == old(mem).frames() + old(self).frames_needed(old(mem), vpn),
            final(mem).limit() == old(mem).limit(),
            final(self).owned() == old(self).owned() + Seq::new(
                old(self).frames_needed(old(mem), vpn),
                |i: int| (old(mem).frames() + i) as u64,
            ),
            final(mem)@ == create_path(
                old(mem)@,
                old(mem).frames() as int,
                old(self).root() as int,
                vpn,
            ),
            has2(final(mem)@, final(self).root() as int, idx0(vpn), idx1(vpn)),
            leaf == l2(final(mem)@, final(self).root() as int, idx0(vpn), idx1(vpn)),
            forall|v: u64|
                v < VPN_LIMIT ==> #[trigger] walk(final(mem)@, final(self).root() as int, v) == walk(
                    old(mem)@,
                    old(self).root() as int,
                    v,
                ),
    {
        proof {
            lemma_idx_bounds(vpn);
            lemma_flag_bits();
        }
        let ghost m_start = mem@;
        let ghost owned_start = self.frames@;
        let ghost needed = self.frames_needed(mem, vpn);
        let i0: u64 = (vpn >> 18u64) & 0x1ffu64;
        let i1: u64 = (vpn >> 9u64) & 0x1ffu64;
        let root = self.root_ppn;
        let e0 = mem.read(root, i0);
        let p1: u64;
        let ghost n0 = mem.frames() as int;
        if !e0.is_valid() {
            let ghost m0 = mem@;
            let ghost n = mem.frames() as int;
            let f = mem.alloc_frame();
            proof {
                lemma_tree_append(m0, zero_frame(), n, root as int);
                assert forall|k: int| 0 <= k < 512 implies !(#[trigger] entry(mem@, n, k)).valid() by {
                    assert(entry(mem@, n, k) == PageTableEntry { bits: 0 });
                }
            }
            let e = PageTableEntry::new(f, PTEFlags::from_bits(PTE_V));
            proof {
                assert(PTE_V | PTE_V == PTE_V) by (bit_vector);
                assert(e.valid());
                lemma_link_root(mem@, n, root as int, i0 as int, e);
            }
            mem.write(root, i0, e);
            self.frames.push(f);
            p1 = f;
        } else {
            p1 = e0.ppn();
        }
        let ghost m_mid = mem@;
        let ghost owned_mid = self.frames@;
        assert(has1(mem@, root as int, i0 as int) && p1 == l1(mem@, root as int, i0 as int));
        let e1 = mem.read(p1, i1);
        let p2: u64;
        if !e1.is_valid() {
            let ghost m0 = mem@;
            let ghost n = mem.frames() as int;
            let f = mem.alloc_frame();
            proof {
                lemma_tree_append(m0, zero_frame(), n, root as int);
                assert forall|k: int| 0 <= k < 512 implies !(#[trigger] entry(mem@, n, k)).valid() by {
                    assert(entry(mem@, n, k) == PageTableEntry { bits: 0 });
                }
                lemma_entry_append(m0, zero_frame(), n);
                assert(entry(mem@, root as int, i0 as int) == entry(m0, root as int, i0 as int));
            }
            let e = PageTableEntry::new(f, PTEFlags::from_bits(PTE_V));
            proof {
                assert(PTE_V | PTE_V == PTE_V) by (bit_vector);
                assert(e.valid());
                lemma_link_mid(mem@, n, root as int, i0 as int, i1 as int, e);
            }
            mem.write(p1, i1, e);
            self.frames.push(f);
            p2 = f;
        } else {
            p2 = e1.ppn();
        }
        proof {
            let z = zero_frame();
            if !has1(m_start, root as int, i0 as int) {
                let a = root as int * 512 + i0 as int;
                assert(m_mid =~= (m_start + z).update(a, filled_entry(n0 as u64)));
                assert((m_start + z).update(a, filled_entry(n0 as u64)) + z =~= (m_start + z
                    + z).update(a, filled_entry(n0 as u64)));
            } else if !has2(m_start, root as int, i0 as int, i1 as int) {
                assert(m_mid == m_start);
            }
            assert(mem@ =~= create_path(m_start, n0, root as int, vpn));
        }
        assert(self.frames@ =~= owned_start + Seq::new(needed, |i: int| (m_start.len() / 512 + i) as u64));
        p2
    }

    /// Walks to the leaf table of `vpn` without creating anything; `None`
    /// as soon as a root or middle entry is invalid.
    fn find_pte(&self, mem: &PhysMemory, vpn: u64) -> (leaf: Option<u64>)
        requires
            self.wf(mem),
            vpn < VPN_LIMIT,
        ensures
            leaf.is_some() == has2(mem@, self.root() as int, idx0(vpn), idx1(vpn)),
            leaf.is_some() ==> leaf.unwrap() == l2(mem@, self.root() as int, idx0(vpn), idx1(vpn)),
    {
        proof {
            lemma_idx_bounds(vpn);
        }
        let i0: u64 = (vpn >> 18u64) & 0x1ffu64;
        let i1: u64 = (vpn >> 9u64) & 0x1ffu64;
        let e0 = mem.read(self.root_ppn, i0);
        if !e0.is_valid() {
            return None;
        }
        assert(has1(mem@, self.root() as int, i0 as int));
        let e1 = mem.read(e0.ppn(), i1);
        if !e1.is_valid() {
            return None;
        }
        Some(e1.ppn())
    }

    /// Maps virtual page `vpn` to physical page `ppn` with `flags` (the
    /// valid flag added). Missing root and middle tables are allocated on
    /// the way. `vpn` must not be mapped already: mapping never overwrites.
    pub fn map(&mut self, mem: &mut PhysMemory, vpn: u64, ppn: u64, flags: PTEFlags)
        requires
            old(self).wf(old(mem)),
            vpn < VPN_LIMIT,
            ppn <= PPN_MASK,
            !old(self).mappings(old(mem)).contains_key(vpn),
            old(mem).frames() + old(self).frames_needed(old(mem), vpn) <= old(mem).limit(),
        ensures
            final(self).wf(final(mem)),
            final(self).root() == old(self).root(),
            final(self).mappings(final(mem)) == old(self).mappings(old(mem)).insert(
                vpn,
                leaf_entry(ppn, flags.bits),
            ),
            final(mem)@ == create_path(
                old(mem)@,
                old(mem).frames() as int,
                old(self).root() as int,
                vpn,
            ).update(
                l2(
                    create_path(old(mem)@, old(mem).frames() as int, old(self).root() as int, vpn),
                    old(self).root() as int,
                    idx0(vpn),
                    idx1(vpn),
                ) * 512 + idx2(vpn),
                leaf_entry(ppn, flags.bits),
            ),
            forall|rt: int|
                #![trigger trees_disjoint(old(mem)@, old(self).root() as int, rt)]
                wf_tree(old(mem)@, old(mem).frames() as int, rt) && trees_disjoint(
                    old(mem)@,
                    old(self).root() as int,
                    rt,
                ) ==> wf_tree(final(mem)@, final(mem).frames() as int, rt) && mappings(
                    final(mem)@,
                    rt,
                ) == mappings(old(mem)@, rt) && trees_disjoint(final(mem)@, old(self).root() as int, rt),
            final(mem).frames() == old(mem).frames() + old(self).frames_needed(old(mem), vpn),
            final(mem).limit() == old(mem).limit(),
            final(self).owned() == old(self).owned() + Seq::new(
                old(self).frames_needed(old(mem), vpn),
                |i: int| (old(mem).frames() + i) as u64,
            ),
    {
        let ghost m0 = mem@;
        let ghost n0 = mem.frames() as int;
        let leaf = self.find_pte_create(mem, vpn);
        let ghost m1 = mem@;
        let i2: u64 = vpn & 0x1ffu64;
        let e = PageTableEntry::new(ppn, flags.union(PTEFlags::from_bits(PTE_V)));
        proof {
            lemma_idx_bounds(vpn);
            lemma_flag_bits();
            assert(e.valid());
            lemma_set_leaf(m1, mem.frames() as int, self.root() as int, vpn, e);
        }
        mem.write(leaf, i2, e);
        proof {
            assert forall|rt: int|
                #![trigger trees_disjoint(m0, self.root() as int, rt)]
                wf_tree(m0, n0, rt) && trees_disjoint(m0, self.root() as int, rt) implies wf_tree(
                mem@,
                mem.frames() as int,
                rt,
            ) && mappings(mem@, rt) == mappings(m0, rt) && trees_disjoint(mem@, self.root() as int, rt) by {
                lemma_map_keeps_other(m0, n0, self.root() as int, rt, vpn, e);
            }
            assert(mappings(mem@, self.root() as int) =~= mappings(m0, self.root() as int).insert(
                vpn,
                leaf_entry(ppn, flags.bits),
            ));
        }
    }

    /// Removes the mapping of `vpn`, which must be mapped.
    pub fn unmap(&mut self, mem: &mut PhysMemory, vpn: u64)
        requires
            old(self).wf(old(mem)),
            vpn < VPN_LIMIT,
            old(self).mappings(old(mem)).contains_key(vpn),
        ensures
            final(self).wf(final(mem)),
            *final(self) == *old(self),
            final(self).mappings(final(mem)) == old(self).mappings(old(mem)).remove(vpn),
            final(mem)@ == old(mem)@.update(
                l2(old(mem)@, old(self).root() as int, idx0(vpn), idx1(vpn)) * 512 + idx2(vpn),
                PageTableEntry { bits: 0 },
            ),
            forall|rt: int|
                #![trigger trees_disjoint(old(mem)@, old(self).root() as int, rt)]
                wf_tree(old(mem)@, old(mem).frames() as int, rt) && trees_disjoint(
                    old(mem)@,
                    old(self).root() as int,
                    rt,
                ) ==> wf_tree(final(mem)@, final(mem).frames() as int, rt) && mappings(
                    final(mem)@,
                    rt,
                ) == mappings(old(mem)@, rt) && trees_disjoint(final(mem)@, old(self).root() as int, rt),
            forall|v: u64|
                #[trigger] final(self).frames_needed(final(mem), v) == old(self).frames_needed(
                    old(mem),
                    v,
                ),
            final(mem).frames() == old(mem).frames(),
            final(mem).limit() == old(mem).limit(),
    {
        let ghost m0 = mem@;
        let ghost m_old = *mem;
        let leaf = self.find_pte(mem, vpn);
        let leaf = leaf.unwrap();
        let i2: u64 = vpn & 0x1ffu64;
        let e = PageTableEntry::empty();
        proof {
            lemma_idx_bounds(vpn);
            lemma_set_leaf(m0, mem.frames() as int, self.root() as int, vpn, e);
        }
        mem.write(leaf, i2, e);
        proof {
            assert forall|rt: int|
                #![trigger trees_disjoint(m0, self.root() as int, rt)]
                wf_tree(m0, mem.frames() as int, rt) && trees_disjoint(m0, self.root() as int, rt)
                    implies wf_tree(mem@, mem.frames() as int, rt) && mappings(mem@, rt) == mappings(
                m0,
                rt,
            ) && trees_disjoint(mem@, self.root() as int, rt) by {
                let q = l2(m0, self.root() as int, idx0(vpn), idx1(vpn));
                lemma_slot_in_bounds(q, idx2(vpn), mem.frames() as int);
                lemma_write_outside(m0, mem.frames() as int, rt, q, idx2(vpn), e);
            }
            assert forall|v: u64| #[trigger] self.frames_needed(mem, v) == self.frames_needed(
                &m_old,
                v,
            ) by {
                lemma_idx_bounds(v);
            }
            assert(mappings(mem@, self.root() as int) =~= mappings(m0, self.root() as int).remove(
                vpn,
            ));
        }
    }

    /// The leaf entry of `vpn` if every level down to it, the leaf
    /// included, is valid; `None` otherwise.
    pub fn translate(&self, mem: &PhysMemory, vpn: u64) -> (r: Option<PageTableEntry>)
        requires
            self.wf(mem),
            vpn < VPN_LIMIT,
        ensures
            r == walk(mem@, self.root() as int, vpn),
            r.is_some() == self.mappings(mem).contains_key(vpn),
            r.is_some() ==> r.unwrap() == self.mappings(mem)[vpn] && r.unwrap().valid(),
    {
        proof {
            lemma_idx_bounds(vpn);
        }
        match self.find_pte(mem, vpn) {
            None => None,
            Some(leaf) => {
                let e = mem.read(leaf, vpn & 0x1ffu64);
                if e.is_valid() {
                    Some(e)
                } else {
                    None
                }
            },
        }
    }
}

/// Mapping a page and then looking it up gives back exactly the physical
/// page and flags that were mapped, with the valid flag set.
pub proof fn lemma_map_translate(m: Map<u64, PageTableEntry>, vpn: u64, ppn: u64, flags: PTEFlags)
    requires
        ppn <= PPN_MASK,
    ensures
        m.insert(vpn, leaf_entry(ppn, flags.bits))[vpn].ppn_spec() == ppn,
        m.insert(vpn, leaf_entry(ppn, flags.bits))[vpn].flags_spec() == flags.bits | PTE_V,
        m.insert(vpn, leaf_entry(ppn, flags.bits))[vpn].valid(),
{
    lemma_encode(ppn, flags.bits | PTE_V);
    lemma_flag_bits();
}

/// Bytes `start..end` of physical page `ppn`.
#[derive(Clone, Copy, PartialEq, Eq, Structural, Debug)]
pub struct PhysSlice {
    pub ppn: u64,
    pub start: u64,
    pub end: u64,
}

/// Number of pages that the `len` bytes from `ptr` touch.
pub open spec fn page_count(ptr: int, len: int) -> int {
    if len <= 0 {
        0
    } else {
        (ptr + len - 1) / 4096 - ptr / 4096 + 1
    }
}

/// The part of the `len` bytes from `ptr` that lies in the `i`-th page
/// touched, as offsets into that page and its physical page in `m`.
pub open spec fn slice_of(m: Map<u64, PageTableEntry>, ptr: int, len: int, i: int) -> PhysSlice {
    let vpn = ptr / 4096 + i;
    let base = vpn * 4096;
    let lo = if ptr > base {
        ptr
    } else {
        base
    };
    let hi = if ptr + len < base + 4096 {
        ptr + len
    } else {
        base + 4096
    };
    PhysSlice { ppn: m[vpn as u64].ppn_spec(), start: (lo - base) as u64, end: (hi - base) as u64 }
}

/// Sum of the lengths of `s`.
pub open spec fn total_len(s: Seq<PhysSlice>) -> int
    decreases s.len(),
{
    if s.len() == 0 {
        0
    } else {
        total_len(s.drop_last()) + (s.last().end - s.last().start)
    }
}

/// Splits the `len` user bytes from virtual address `ptr`, in the address
/// space named by `token`, into one slice per physical page touched, in
/// order, each clipped to its page. Every page touched must be mapped.
pub fn translated_byte_buffer(mem: &PhysMemory, token: u64, ptr: u64, len: u64) -> (r: Vec<
    PhysSlice,
>)
    requires
        mem.wf(),
        wf_tree(mem@, mem.frames() as int, (token & PPN_MASK) as int),
        ptr + len <= VPN_LIMIT * 4096,
        forall|vpn: u64|
            ptr / 4096 <= vpn && vpn * 4096 < ptr + len ==> #[trigger] mappings(
                mem@,
                (token & PPN_MASK) as int,
            ).contains_key(vpn),
    ensures
        r@.len() == page_count(ptr as int, len as int),
        forall|i: int|
            0 <= i < r@.len() ==> #[trigger] r@[i] == slice_of(
                mappings(mem@, (token & PPN_MASK) as int),
                ptr as int,
                len as int,
                i,
            ),
        forall|i: int| 0 <= i < r@.len() ==> #[trigger] r@[i].start < r@[i].end <= 4096,
        total_len(r@) == len,
{
    let page_table = PageTable::from_token(token);
    let ghost m = mappings(mem@, (token & PPN_MASK) as int);
    let mut start = ptr;
    let end = ptr + len;
    let mut v: Vec<PhysSlice> = Vec::new();
    while start < end
        invariant
            ptr <= start <= end,
            end == ptr + len,
            end <= VPN_LIMIT * 4096,
            page_table.root() == token & PPN_MASK,
            page_table.wf(mem),
            m == page_table.mappings(mem),
            forall|vpn: u64|
                ptr / 4096 <= vpn && vpn * 4096 < ptr + len ==> #[trigger] m.contains_key(vpn),
            v@.len() == 0 ==> start == ptr,
            v@.len() > 0 ==> start == end || start == (ptr / 4096 + v@.len()) * 4096,
            v@.len() > 0 ==> (start - 1) / 4096 == ptr / 4096 + v@.len() - 1,
            forall|i: int|
                0 <= i < v@.len() ==> #[trigger] v@[i] == slice_of(m, ptr as int, len as int, i),
            forall|i: int| 0 <= i < v@.len() ==> #[trigger] v@[i].start < v@[i].end <= 4096,
            total_len(v@) == start - ptr,
        decreases end - start,
    {
        let vpn = start / 4096;
        let ghost i = v@.len() as int;
        proof {
            if i > 0 {
                let k = ptr / 4096 + i;
                assert((k * 4096) / 4096 == k) by (nonlinear_arith)
                    requires
                        k >= 0,
                ;
            }
        }
        assert(vpn == ptr / 4096 + i);
        assert(vpn * 4096 <= start < vpn * 4096 + 4096) by (nonlinear_arith)
            requires
                vpn == start / 4096,
        ;
        assert(m.contains_key(vpn));
        let pte = page_table.translate(mem, vpn).unwrap();
        let ppn = pte.ppn();
        let base = vpn * 4096;
        let next = base + 4096;
        let end_va = if next < end {
            next
        } else {
            end
        };
        let s = PhysSlice { ppn, start: start - base, end: end_va - base };
        let ghost old_v = v@;
        v.push(s);
        proof {
            assert(s == slice_of(m, ptr as int, len as int, i));
            assert(v@.drop_last() == old_v);
            assert((end_va - 1) / 4096 == vpn) by (nonlinear_arith)
                requires
                    vpn * 4096 <= start < end_va <= vpn * 4096 + 4096,
            ;
        }
        start = end_va;
    }
    proof {
        if len > 0 {
            assert(v@.len() > 0);
        }
    }
    v
}

} // verus!
