//! Process identifiers and the placement of each process's kernel stack.
use crate::config::{KERNEL_STACK_SIZE, PAGE_SIZE, TRAMPOLINE};
use crate::page_table::{
    lemma_disjoint_after, lemma_grows_trans, leaf_entry, mappings, trees_disjoint, wf_tree, PTEFlags,
    PageTable, PhysMemory, PTE_R, PTE_W, VPN_LIMIT,
};
use vstd::prelude::*;

verus! {

/// Hands out process identifiers: the most recently released one first,
/// otherwise the next one never issued.
pub struct PidAllocator {
    current: usize,
    recycled: Vec<usize>,
}

/// The owned identifier of one live process. It is not `Clone`: it is given
/// back once, through [`PidHandle::release`].
pub struct PidHandle(pub usize);

impl PidAllocator {
    /// Identifiers `0..issued()` have been handed out at some point.
    pub closed spec fn issued(&self) -> nat {
        self.current as nat
    }

    /// Released identifiers waiting for reuse; the last one goes out first.
    pub closed spec fn free(&self) -> Seq<usize> {
        self.recycled@
    }

    pub open spec fn wf(&self) -> bool {
        &&& self.free().no_duplicates()
        &&& forall|i: int| 0 <= i < self.free().len() ==> #[trigger] self.free()[i] < self.issued()
    }

    /// Identifiers currently held by a live handle.
    pub open spec fn live(&self) -> Set<usize> {
        Set::new(|p: usize| p < self.issued() && !self.free().contains(p))
    }

    /// The next identifier never issued.
    pub fn issued_count(&self) -> (r: usize)
        ensures
            r == self.issued(),
    {
        self.current
    }

    /// Number of released identifiers waiting for reuse.
    pub fn free_count(&self) -> (r: usize)
        ensures
            r == self.free().len(),
    {
        self.recycled.len()
    }

    /// An allocator that has issued nothing.
    pub fn new() -> (r: PidAllocator)
        ensures
            r.wf(),
            r.issued() == 0,
            r.free() == Seq::<usize>::empty(),
            r.live() == Set::<usize>::empty(),
    {
        let r = PidAllocator { current: 0, recycled: Vec::new() };
        assert(r.live() =~= Set::<usize>::empty());
        r
    }

    /// Hands out an identifier that no live handle holds.
    pub fn allocate(&mut self) -> (r: PidHandle)
        requires
            old(self).wf(),
            old(self).free().len() > 0 || old(self).issued() < usize::MAX,
        ensures
            final(self).wf(),
            !old(self).live().contains(r.0),
            final(self).live() == old(self).live().insert(r.0),
            r.0 < old(self).issued() ==> old(self).free().contains(r.0),
            old(self).free().len() > 0 ==> r.0 == old(self).free().last() && final(self).free()
                == old(self).free().drop_last() && final(self).issued() == old(self).issued(),
            old(self).free().len() == 0 ==> r.0 == old(self).issued() && final(self).issued()
                == old(self).issued() + 1 && final(self).free() == old(self).free(),
    {
        let ghost before = *self;
        match self.recycled.pop() {
            Some(pid) => {
                proof {
                    let s = before.recycled@;
                    assert(s =~= self.recycled@.push(pid));
                    assert(!self.recycled@.contains(pid));
                    assert forall|p: usize| #[trigger] before.free().contains(p) <==> (
                    self.free().contains(p) || p == pid) by {
                        if before.free().contains(p) {
                            let k = choose|k: int| 0 <= k < s.len() && s[k] == p;
                            if k < s.len() - 1 {
                                assert(self.free()[k] == p);
                            }
                        }
                        if self.free().contains(p) {
                            let k = choose|k: int| 0 <= k < self.free().len() && self.free()[k] == p;
                            assert(s[k] == p);
                        }
                    }
                    assert(self.live() =~= before.live().insert(pid));
                }
                PidHandle(pid)
            },
            None => {
                self.current = self.current + 1;
                proof {
                    assert(self.live() =~= before.live().insert((self.current - 1) as usize));
                }
                PidHandle(self.current - 1)
            },
        }
    }

    /// Takes back identifier `pid`, which a live handle must hold: releasing
    /// one never issued, or one already released, is a caller error.
    pub fn dealloc(&mut self, pid: usize)
        requires
            old(self).wf(),
            old(self).live().contains(pid),
        ensures
            final(self).wf(),
            final(self).live() == old(self).live().remove(pid),
            !final(self).live().contains(pid),
            final(self).free() == old(self).free().push(pid),
            final(self).issued() == old(self).issued(),
    {
        let ghost before = *self;
        self.recycled.push(pid);
        proof {
            assert forall|p: usize| #[trigger] self.free().contains(p) <==> (before.free().contains(p)
                || p == pid) by {
                if self.free().contains(p) {
                    let k = choose|k: int| 0 <= k < self.free().len() && self.free()[k] == p;
                    if k < before.free().len() {
                        assert(before.free()[k] == p);
                    }
                }
                if before.free().contains(p) {
                    let k = choose|k: int| 0 <= k < before.free().len() && before.free()[k] == p;
                    assert(self.free()[k] == p);
                }
                assert(self.free()[before.free().len() as int] == pid);
            }
            assert(self.live() =~= before.live().remove(pid));
        }
    }
}

impl PidHandle {
    /// Gives the identifier back to `allocator`, consuming the handle.
    pub fn release(self, allocator: &mut PidAllocator)
        requires
            old(allocator).wf(),
            old(allocator).live().contains(self.0),
        ensures
            final(allocator).wf(),
            final(allocator).live() == old(allocator).live().remove(self.0),
            !final(allocator).live().contains(self.0),
            final(allocator).free() == old(allocator).free().push(self.0),
            final(allocator).issued() == old(allocator).issued(),
    {
        allocator.dealloc(self.0);
    }
}

/// Allocates an identifier from `allocator`.
pub fn pid_alloc(allocator: &mut PidAllocator) -> (r: PidHandle)
    requires
        old(allocator).wf(),
        old(allocator).free().len() > 0 || old(allocator).issued() < usize::MAX,
    ensures
        final(allocator).wf(),
        !old(allocator).live().contains(r.0),
        final(allocator).live() == old(allocator).live().insert(r.0),
        r.0 < old(allocator).issued() ==> old(allocator).free().contains(r.0),
        old(allocator).free().len() > 0 ==> r.0 == old(allocator).free().last()
            && final(allocator).free() == old(allocator).free().drop_last()
            && final(allocator).issued() == old(allocator).issued(),
        old(allocator).free().len() == 0 ==> r.0 == old(allocator).issued()
            && final(allocator).issued() == old(allocator).issued() + 1
            && final(allocator).free() == old(allocator).free(),
{
    allocator.allocate()
}

/// Distance between the tops of the kernel stacks of consecutive ids: the
/// stack and one unmapped guard page.
pub open spec fn stack_slot() -> int {
    KERNEL_STACK_SIZE + PAGE_SIZE
}

/// Top of the kernel stack of `id`.
pub open spec fn stack_top(id: int) -> int {
    TRAMPOLINE - id * stack_slot()
}

/// Bottom of the kernel stack of `id`.
pub open spec fn stack_bottom(id: int) -> int {
    stack_top(id) - KERNEL_STACK_SIZE
}

/// Whether the kernel stack of `id` fits below the trampoline.
pub open spec fn stack_fits(id: int) -> bool {
    0 <= id && id * stack_slot() + KERNEL_STACK_SIZE <= TRAMPOLINE
}

/// (bottom, top) of the kernel stack of `app_id`.
pub fn kernel_stack_position(app_id: usize) -> (r: (u64, u64))
    requires
        stack_fits(app_id as int),
    ensures
        r.0 == stack_bottom(app_id as int),
        r.1 == stack_top(app_id as int),
{
    let top = TRAMPOLINE - (app_id as u64) * (KERNEL_STACK_SIZE + PAGE_SIZE);
    let bottom = top - KERNEL_STACK_SIZE;
    (bottom, top)
}

/// Kernel stacks are placed strictly downwards as the id grows, and between
/// the stacks of any two ids lies at least one guard page: placement is
/// injective and stacks never overlap.
pub proof fn lemma_kernel_stacks_apart(a: int, b: int)
    requires
        a < b,
        stack_fits(a),
        stack_fits(b),
    ensures
        stack_top(b) < stack_top(a),
        stack_top(b) + PAGE_SIZE <= stack_bottom(a),
        stack_top(a) - stack_top(b) >= KERNEL_STACK_SIZE + PAGE_SIZE,
{
    assert(a * stack_slot() + stack_slot() <= b * stack_slot()) by (nonlinear_arith)
        requires
            a < b,
            stack_slot() > 0,
    ;
}

/// Virtual page `k` (0 or 1) of the kernel stack of `id`, as a 27-bit
/// Sv39 virtual page number.
pub open spec fn stack_vpn(id: int, k: int) -> u64 {
    ((stack_bottom(id) / 4096 + k) % (VPN_LIMIT as int)) as u64
}

/// Read and write permission, the flags of a kernel-stack page.
pub open spec fn stack_flags() -> u8 {
    PTE_R | PTE_W
}

/// The kernel stack of one process. Its place follows from the process's
/// identifier, so the identifier is all it keeps; it does not own the
/// identifier, which its handle releases on its own.
pub struct KernelStack {
    pid: usize,
}

impl KernelStack {
    /// Identifier whose stack this is.
    pub closed spec fn pid(&self) -> usize {
        self.pid
    }

    /// The kernel stack of the process holding `pid_handle`. Both pages of
    /// its range are mapped read/write in the kernel address space `space`,
    /// each to a frame freshly taken from `mem`; the guard page below it
    /// stays unmapped.
    pub fn new(pid_handle: &PidHandle, space: &mut PageTable, mem: &mut PhysMemory) -> (r:
        KernelStack)
        requires
            stack_fits(pid_handle.0 as int),
            old(space).wf(old(mem)),
            !old(space).mappings(old(mem)).contains_key(stack_vpn(pid_handle.0 as int, 0)),
            !old(space).mappings(old(mem)).contains_key(stack_vpn(pid_handle.0 as int, 1)),
            old(mem).frames() + 6 <= old(mem).limit(),
        ensures
            r.pid() == pid_handle.0,
            final(space).wf(final(mem)),
            final(space).root() == old(space).root(),
            final(mem).limit() == old(mem).limit(),
            final(mem).frames() <= old(mem).frames() + 6,
            exists|f0: u64, f1: u64|
                old(mem).frames() <= f0 < f1 < final(mem).frames() && final(space).mappings(
                    final(mem),
                ) == old(space).mappings(old(mem)).insert(
                    stack_vpn(pid_handle.0 as int, 0),
                    leaf_entry(f0, stack_flags()),
                ).insert(stack_vpn(pid_handle.0 as int, 1), leaf_entry(f1, stack_flags())),
            forall|rt: int|
                #![trigger trees_disjoint(old(mem)@, old(space).root() as int, rt)]
                wf_tree(old(mem)@, old(mem).frames() as int, rt) && trees_disjoint(
                    old(mem)@,
                    old(space).root() as int,
                    rt,
                ) ==> wf_tree(final(mem)@, final(mem).frames() as int, rt) && mappings(
                    final(mem)@,
                    rt,
                ) == mappings(old(mem)@, rt),
    {
        let pid = pid_handle.0;
        let (bottom, _top) = kernel_stack_position(pid);
        let v0 = (bottom / PAGE_SIZE) % VPN_LIMIT;
        let v1 = (bottom / PAGE_SIZE + 1) % VPN_LIMIT;
        let flags = PTEFlags::from_bits(PTE_R | PTE_W);
        let ghost m_start = space.mappings(mem);
        let ghost mem0 = mem@;
        let ghost n0 = mem.frames() as int;
        let f0 = mem.alloc_frame();
        let ghost mem1 = mem@;
        assert(space.mappings(mem) == m_start);
        space.map(mem, v0, f0, flags);
        let ghost m_mid = space.mappings(mem);
        let ghost mem2 = mem@;
        let ghost n2 = mem.frames() as int;
        let f1 = mem.alloc_frame();
        let ghost mem3 = mem@;
        assert(space.mappings(mem) == m_mid);
        space.map(mem, v1, f1, flags);
        let ghost root = space.root() as int;
        assert forall|rt: int|
            #![trigger trees_disjoint(mem0, root, rt)]
            wf_tree(mem0, n0, rt) && trees_disjoint(mem0, root, rt) implies wf_tree(
            mem@,
            mem.frames() as int,
            rt,
        ) && mappings(mem@, rt) == mappings(mem0, rt) by {
            lemma_grows_trans(mem0, mem0, mem1, root, n0);
            lemma_disjoint_after(mem0, mem1, n0, root, rt);
            assert(trees_disjoint(mem2, root, rt));
            lemma_grows_trans(mem2, mem2, mem3, root, n2);
            lemma_disjoint_after(mem2, mem3, n2, root, rt);
            assert(trees_disjoint(mem3, root, rt));
        }
        assert(space.mappings(mem) == m_start.insert(v0, leaf_entry(f0, stack_flags())).insert(
            v1,
            leaf_entry(f1, stack_flags()),
        ));
        KernelStack { pid }
    }

    /// Unmaps both pages of this stack from `space`, ending the stack.
    pub fn release(self, space: &mut PageTable, mem: &mut PhysMemory)
        requires
            stack_fits(self.pid() as int),
            old(space).wf(old(mem)),
            old(space).mappings(old(mem)).contains_key(stack_vpn(self.pid() as int, 0)),
            old(space).mappings(old(mem)).contains_key(stack_vpn(self.pid() as int, 1)),
        ensures
            final(space).wf(final(mem)),
            final(space).root() == old(space).root(),
            final(mem).frames() == old(mem).frames(),
            final(mem).limit() == old(mem).limit(),
            final(space).mappings(final(mem)) == old(space).mappings(old(mem)).remove(
                stack_vpn(self.pid() as int, 0),
            ).remove(stack_vpn(self.pid() as int, 1)),
            forall|rt: int|
                #![trigger trees_disjoint(old(mem)@, old(space).root() as int, rt)]
                wf_tree(old(mem)@, old(mem).frames() as int, rt) && trees_disjoint(
                    old(mem)@,
                    old(space).root() as int,
                    rt,
                ) ==> wf_tree(final(mem)@, final(mem).frames() as int, rt) && mappings(
                    final(mem)@,
                    rt,
                ) == mappings(old(mem)@, rt),
    {
        let (bottom, _top) = kernel_stack_position(self.pid);
        let v0 = (bottom / PAGE_SIZE) % VPN_LIMIT;
        let v1 = (bottom / PAGE_SIZE + 1) % VPN_LIMIT;
        let ghost m0 = mem@;
        space.unmap(mem, v0);
        let ghost m1 = mem@;
        space.unmap(mem, v1);
        assert forall|rt: int|
            #![trigger trees_disjoint(m0, space.root() as int, rt)]
            wf_tree(m0, mem.frames() as int, rt) && trees_disjoint(m0, space.root() as int, rt)
                implies wf_tree(mem@, mem.frames() as int, rt) && mappings(mem@, rt) == mappings(
            m0,
            rt,
        ) by {
            assert(trees_disjoint(m1, space.root() as int, rt));
        }
    }

    /// (bottom, top) of this stack.
    pub fn position(&self) -> (r: (u64, u64))
        requires
            stack_fits(self.pid() as int),
        ensures
            r.0 == stack_bottom(self.pid() as int),
            r.1 == stack_top(self.pid() as int),
    {
        kernel_stack_position(self.pid)
    }

    /// Address at which a value of `size` bytes is placed on top of this
    /// stack before the task first runs: the top minus the size.
    pub fn push_on_top_address(&self, size: u64) -> (r: u64)
        requires
            stack_fits(self.pid() as int),
            size <= KERNEL_STACK_SIZE,
        ensures
            r == stack_top(self.pid() as int) - size,
            stack_bottom(self.pid() as int) <= r,
    {
        self.get_top() - size
    }

    /// Top of this stack.
    pub fn get_top(&self) -> (r: u64)
        requires
            stack_fits(self.pid() as int),
        ensures
            r == stack_top(self.pid() as int),
    {
        let (_, kernel_stack_top) = kernel_stack_position(self.pid);
        kernel_stack_top
    }
}

} // verus!
