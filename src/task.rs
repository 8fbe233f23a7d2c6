//! Task control blocks, kept in an arena indexed by pid, and the process
//! lifecycle: creation, fork, exec, exit and reaping, with the scheduling
//! decisions around them.
use vstd::prelude::*;
use crate::config::kernel_stack_position;
use crate::context::{TaskContext, TrapContext, SSTATUS_SPP};
use crate::manager::TaskManager;
use crate::memory_set::{
    image_content, is_image_space, LoadError, MapArea, MapType, MemorySet, MAP_R, MAP_W, TRAMPOLINE_VPN,
    TRAP_CONTEXT_VPN,
};
use crate::page_table::{ppn_fits, PageTableEntry};
use crate::phys_memory::FramePool;

verus! {

/// Most tasks that ever exist; each pid has a kernel-stack slot below the
/// trampoline.
pub const MAX_TASKS: usize = 64;
/// Pid of the root task, which adopts the children of exiting tasks.
pub const INITPROC_PID: usize = 0;
/// Pages of one kernel-stack slot: the stack and a guard page.
pub const KSTACK_SLOT_PAGES: usize = 3;

/// Lowest page of the kernel-stack slots.
pub open spec fn kstack_floor() -> int {
    TRAMPOLINE_VPN - KSTACK_SLOT_PAGES * MAX_TASKS
}

/// Execution state of a task.
#[derive(Clone, Copy, PartialEq, Eq, Structural, Debug)]
pub enum TaskStatus {
    Ready,
    Running,
    Zombie,
}

/// Everything the kernel keeps about one task.
pub struct TaskControlBlock {
    pub pid: usize,
    /// Top of the task's kernel stack.
    pub kernel_stack_top: usize,
    pub task_status: TaskStatus,
    pub task_cx: TaskContext,
    /// The trap context kept in the task's trap-context page.
    pub trap_cx: TrapContext,
    /// Frame of the trap-context page.
    pub trap_cx_ppn: usize,
    pub memory_set: MemorySet,
    /// Initial user stack pointer.
    pub base_size: usize,
    /// The parent's pid; a plain number, owning nothing.
    pub parent: Option<usize>,
    /// Pids of the children.
    pub children: Vec<usize>,
    pub exit_code: i32,
}

impl TaskControlBlock {
    pub fn getpid(&self) -> (r: usize)
        ensures
            r == self.pid,
    {
        self.pid
    }

    pub fn is_zombie(&self) -> (r: bool)
        ensures
            r == (self.task_status == TaskStatus::Zombie),
    {
        self.task_status == TaskStatus::Zombie
    }

    /// The `satp` value of the task's address space.
    pub fn get_user_token(&self) -> (r: usize)
        ensures
            r == crate::page_table::satp_of(self.memory_set.table().root()),
    {
        self.memory_set.token()
    }

    pub fn get_trap_cx(&self) -> (r: TrapContext)
        ensures
            r == self.trap_cx,
    {
        self.trap_cx
    }
}

/// `data` is an image that loading accepts, given `available` free frames.
pub open spec fn elf_loadable(data: Seq<u8>, available: int) -> bool {
    &&& crate::elf::elf_tables_in_bounds(data)
    &&& crate::elf::elf_decoded(data) is Some
    &&& crate::memory_set::elf_layout_ok(data, (crate::elf::elf_decoded(data)->0).1)
    &&& available >= 12 + 3 * crate::memory_set::load_pages((crate::elf::elf_decoded(data)->0).1)
}

/// Region `a` is the kernel stack of `pid`: its slot's two pages below
/// the guard page.
pub open spec fn is_kstack_area(a: MapArea, pid: int) -> bool {
    a.start_vpn() == TRAMPOLINE_VPN - 3 * pid - 2 && a.end_vpn() == TRAMPOLINE_VPN - 3 * pid
}

/// Whether child `c` matches the pid argument of `waitpid` (-1: any).
pub open spec fn pid_matches(pid: isize, c: usize) -> bool {
    pid == -1 || pid == c as isize
}

/// The kernel's state: physical frames, the kernel address space, every
/// task by pid, the ready queue and the running task.
pub struct Kernel {
    pool: FramePool,
    kernel_space: MemorySet,
    tasks: Vec<Option<TaskControlBlock>>,
    manager: TaskManager,
    current: Option<usize>,
    strampoline_ppn: usize,
    trap_handler: usize,
    trap_return: usize,
    user_sstatus: usize,
}

impl Kernel {
    pub closed spec fn pool(&self) -> FramePool {
        self.pool
    }

    pub closed spec fn kspace(&self) -> MemorySet {
        self.kernel_space
    }

    /// Every task ever created, by pid; reaped ones are `None`.
    pub closed spec fn tasks(&self) -> Seq<Option<TaskControlBlock>> {
        self.tasks@
    }

    pub closed spec fn ready(&self) -> Seq<usize> {
        self.manager@
    }

    pub closed spec fn current(&self) -> Option<usize> {
        self.current
    }

    pub closed spec fn trampoline_ppn(&self) -> usize {
        self.strampoline_ppn
    }

    pub closed spec fn trap_handler_addr(&self) -> usize {
        self.trap_handler
    }

    pub closed spec fn trap_return_addr(&self) -> usize {
        self.trap_return
    }

    pub closed spec fn sstatus(&self) -> usize {
        self.user_sstatus
    }

    pub open spec fn has(&self, p: int) -> bool {
        0 <= p < self.tasks().len() && self.tasks()[p] is Some
    }

    pub open spec fn task(&self, p: int) -> TaskControlBlock {
        self.tasks()[p]->0
    }

    /// Frames, address spaces, the process tree and the scheduler agree.
    pub open spec fn wf(&self) -> bool {
        let pool = self.pool();
        let ks = self.kspace();
        &&& pool.wf()
        &&& ks.wf()
        &&& ks.owned_in(&pool)
        &&& self.tasks().len() <= MAX_TASKS
        &&& forall|v: usize|
            kstack_floor() <= v < TRAMPOLINE_VPN - 3 * self.tasks().len() ==> !#[trigger] ks.mapping().contains_key(v)
        &&& forall|p: int|
            #[trigger] self.has(p) ==> {
                let t = self.task(p);
                &&& t.pid == p
                &&& t.memory_set.wf()
                &&& t.memory_set.owned_in(&pool)
                &&& t.memory_set.frames().disjoint(ks.frames())
                &&& t.parent != Some(p as usize)
                &&& t.children@.no_duplicates()
                &&& t.task_status == TaskStatus::Zombie ==> t.children@.len() == 0
                &&& forall|i: int|
                    0 <= i < t.children@.len() ==> {
                        let c = #[trigger] t.children@[i];
                        &&& self.has(c as int)
                        &&& self.task(c as int).parent == Some(p as usize)
                    }
            }
        &&& forall|p: int, q: int|
            #[trigger] self.has(p) && #[trigger] self.has(q) && p != q ==> self.task(p).memory_set.frames().disjoint(
                self.task(q).memory_set.frames(),
            )
        &&& self.has(INITPROC_PID as int) ==> self.task(INITPROC_PID as int).parent is None
        &&& self.has(INITPROC_PID as int) ==> self.task(INITPROC_PID as int).task_status != TaskStatus::Zombie
        &&& forall|i: int|
            0 <= i < self.ready().len() ==> {
                let p = #[trigger] self.ready()[i];
                &&& self.has(p as int)
                &&& self.task(p as int).task_status == TaskStatus::Ready
                &&& self.current() != Some(p)
            }
        &&& self.ready().no_duplicates()
        &&& self.current() is Some ==> {
            let p = self.current()->0;
            &&& self.has(p as int)
            &&& self.task(p as int).task_status == TaskStatus::Running
        }
        &&& ppn_fits(self.trampoline_ppn())
        &&& self.kstacks_ok()
    }

    /// Every task's kernel stack is a region of the kernel address space.
    pub open spec fn kstacks_ok(&self) -> bool {
        forall|p: int|
            #[trigger] self.has(p) ==> exists|i: int|
                0 <= i < self.kspace().area_seq().len() && is_kstack_area(#[trigger] self.kspace().area_seq()[i], p)
    }

    /// The kernel state before any task exists. `None` when the kernel
    /// address space already maps a page where kernel stacks go.
    pub fn new(
        pool: FramePool,
        kernel_space: MemorySet,
        strampoline_ppn: usize,
        trap_handler: usize,
        trap_return: usize,
        user_sstatus: usize,
    ) -> (r: Option<Self>)
        requires
            pool.wf(),
            kernel_space.wf(),
            kernel_space.owned_in(&pool),
            ppn_fits(strampoline_ppn),
        ensures
            r is Some <==> forall|v: usize|
                kstack_floor() <= v < TRAMPOLINE_VPN ==> !#[trigger] kernel_space.mapping().contains_key(v),
            r is Some ==> {
                let k = r->0;
                &&& k.wf()
                &&& k.tasks().len() == 0
                &&& k.ready().len() == 0
                &&& k.current() is None
                &&& k.pool() == pool
                &&& k.trap_handler_addr() == trap_handler
                &&& k.trap_return_addr() == trap_return
                &&& k.sstatus() == user_sstatus
            },
    {
        if !kernel_space.range_unmapped(TRAMPOLINE_VPN - KSTACK_SLOT_PAGES * MAX_TASKS, TRAMPOLINE_VPN) {
            return None;
        }
        Some(Kernel {
            pool,
            kernel_space,
            tasks: Vec::new(),
            manager: TaskManager::new(),
            current: None,
            strampoline_ppn,
            trap_handler,
            trap_return,
            user_sstatus,
        })
    }

    /// The invariant survives a change of the pool and the kernel address
    /// space that keeps every owned frame live and apart.
    proof fn lemma_wf_frames_moved(k0: Kernel, k1: Kernel)
        requires
            k0.wf(),
            k1.tasks == k0.tasks,
            k1.manager == k0.manager,
            k1.current == k0.current,
            k1.strampoline_ppn == k0.strampoline_ppn,
            k1.pool.wf(),
            k1.kernel_space.wf(),
            k1.kernel_space.owned_in(&k1.pool),
            forall|v: usize|
                kstack_floor() <= v < TRAMPOLINE_VPN - 3 * k1.tasks().len() ==> !#[trigger] k1.kernel_space.mapping().contains_key(v),
            forall|p: int| #[trigger] k0.has(p) ==> k0.task(p).memory_set.frames().subset_of(k1.pool.live()),
            forall|p: int| #[trigger] k0.has(p) ==> k0.task(p).memory_set.frames().disjoint(k1.kernel_space.frames()),
            k1.kernel_space.area_seq() == k0.kernel_space.area_seq(),
        ensures
            k1.wf(),
    {
        assert forall|p: int| #[trigger] k1.has(p) implies exists|i: int|
            0 <= i < k1.kspace().area_seq().len() && is_kstack_area(#[trigger] k1.kspace().area_seq()[i], p) by {
            assert(k0.has(p));
            let i = choose|i: int| 0 <= i < k0.kspace().area_seq().len() && is_kstack_area(#[trigger] k0.kspace().area_seq()[i], p);
            assert(k1.kspace().area_seq()[i] == k0.kspace().area_seq()[i]);
        }
        assert forall|p: int| #[trigger] k1.has(p) implies {
            let t = k1.task(p);
            &&& t.pid == p
            &&& t.memory_set.wf()
            &&& t.memory_set.owned_in(&k1.pool)
            &&& t.memory_set.frames().disjoint(k1.kernel_space.frames())
            &&& t.parent != Some(p as usize)
            &&& t.children@.no_duplicates()
            &&& t.task_status == TaskStatus::Zombie ==> t.children@.len() == 0
            &&& forall|i: int|
                0 <= i < t.children@.len() ==> {
                    let c = #[trigger] t.children@[i];
                    &&& k1.has(c as int)
                    &&& k1.task(c as int).parent == Some(p as usize)
                }
        } by {
            assert(k0.has(p));
            let t = k1.task(p);
            assert forall|i: int| 0 <= i < t.children@.len() implies {
                let c = #[trigger] t.children@[i];
                &&& k1.has(c as int)
                &&& k1.task(c as int).parent == Some(p as usize)
            } by {
                assert(k0.has(t.children@[i] as int));
            }
        }
        assert forall|p: int, q: int|
            #[trigger] k1.has(p) && #[trigger] k1.has(q) && p != q implies k1.task(p).memory_set.frames().disjoint(
                k1.task(q).memory_set.frames()) by {
            assert(k0.has(p) && k0.has(q));
        }
        assert forall|i: int| 0 <= i < k1.ready().len() implies {
            let p = #[trigger] k1.ready()[i];
            &&& k1.has(p as int)
            &&& k1.task(p as int).task_status == TaskStatus::Ready
            &&& k1.current() != Some(p)
        } by {
            assert(k0.ready()[i] == k1.ready()[i]);
        }
    }

    /// The scheduler fields of the invariant, on their own.
    pub open spec fn sched_ok(&self) -> bool {
        &&& forall|i: int|
            0 <= i < self.ready().len() ==> {
                let p = #[trigger] self.ready()[i];
                &&& self.has(p as int)
                &&& self.task(p as int).task_status == TaskStatus::Ready
                &&& self.current() != Some(p)
            }
        &&& self.ready().no_duplicates()
        &&& self.current() is Some ==> {
            let p = self.current()->0;
            &&& self.has(p as int)
            &&& self.task(p as int).task_status == TaskStatus::Running
        }
    }

    /// The invariant survives changes of task status (but to Zombie), the
    /// ready queue and the running task that keep the scheduler consistent.
    proof fn lemma_wf_status_moved(k0: Kernel, k1: Kernel)
        requires
            k0.wf(),
            k1.pool == k0.pool,
            k1.kernel_space == k0.kernel_space,
            k1.strampoline_ppn == k0.strampoline_ppn,
            k1.tasks().len() == k0.tasks().len(),
            forall|p: int| 0 <= p < k0.tasks().len() ==> (k0.tasks()[p] is Some <==> #[trigger] k1.tasks()[p] is Some),
            forall|p: int|
                #[trigger] k1.has(p) ==> {
                    &&& k1.task(p).pid == k0.task(p).pid
                    &&& k1.task(p).memory_set == k0.task(p).memory_set
                    &&& k1.task(p).parent == k0.task(p).parent
                    &&& k1.task(p).children == k0.task(p).children
                    &&& k1.task(p).task_status == TaskStatus::Zombie ==> k0.task(p).task_status == TaskStatus::Zombie
                },
            k1.sched_ok(),
        ensures
            k1.wf(),
    {
        assert forall|p: int| #[trigger] k1.has(p) implies k0.has(p) by {}
        assert forall|p: int| #[trigger] k0.has(p) implies k1.has(p) by {}
        assert forall|p: int| #[trigger] k1.has(p) implies {
            let t = k1.task(p);
            &&& t.pid == p
            &&& t.memory_set.wf()
            &&& t.memory_set.owned_in(&k1.pool)
            &&& t.memory_set.frames().disjoint(k1.kernel_space.frames())
            &&& t.parent != Some(p as usize)
            &&& t.children@.no_duplicates()
            &&& t.task_status == TaskStatus::Zombie ==> t.children@.len() == 0
            &&& forall|i: int|
                0 <= i < t.children@.len() ==> {
                    let c = #[trigger] t.children@[i];
                    &&& k1.has(c as int)
                    &&& k1.task(c as int).parent == Some(p as usize)
                }
        } by {
            assert(k0.has(p));
            let t = k1.task(p);
            assert forall|i: int| 0 <= i < t.children@.len() implies {
                let c = #[trigger] t.children@[i];
                &&& k1.has(c as int)
                &&& k1.task(c as int).parent == Some(p as usize)
            } by {
                let c = t.children@[i];
                assert(k0.task(p).children@[i] == c);
                assert(k0.has(c as int));
                assert(k1.has(c as int));
            }
        }
        assert forall|p: int, q: int|
            #[trigger] k1.has(p) && #[trigger] k1.has(q) && p != q implies k1.task(p).memory_set.frames().disjoint(
                k1.task(q).memory_set.frames()) by {
            assert(k0.has(p) && k0.has(q));
        }
        if k1.has(INITPROC_PID as int) {
            assert(k0.has(INITPROC_PID as int));
        }
        assert forall|p: int| #[trigger] k1.has(p) implies exists|i: int|
            0 <= i < k1.kspace().area_seq().len() && is_kstack_area(#[trigger] k1.kspace().area_seq()[i], p) by {
            assert(k0.has(p));
            let i = choose|i: int| 0 <= i < k0.kspace().area_seq().len() && is_kstack_area(#[trigger] k0.kspace().area_seq()[i], p);
            assert(k1.kspace().area_seq()[i] == k0.kspace().area_seq()[i]);
        }
    }

    /// Maps the kernel stack of the next pid into the kernel address space.
    fn map_kernel_stack(kernel_space: &mut MemorySet, pool: &mut FramePool, pid: usize, n_tasks: usize) -> (r: bool)
        requires
            old(kernel_space).wf(),
            old(kernel_space).owned_in(old(pool)),
            pid == n_tasks,
            n_tasks < MAX_TASKS,
            forall|v: usize|
                kstack_floor() <= v < TRAMPOLINE_VPN - 3 * n_tasks ==> !#[trigger] old(kernel_space).mapping().contains_key(v),
        ensures
            final(kernel_space).wf(),
            final(kernel_space).owned_in(final(pool)),
            old(kernel_space).frames().subset_of(final(kernel_space).frames()),
            old(pool).allocated_into(final(pool), final(kernel_space).frames().difference(old(kernel_space).frames())),
            forall|v: usize|
                kstack_floor() <= v < TRAMPOLINE_VPN - 3 * (n_tasks + 1) ==> !#[trigger] final(kernel_space).mapping().contains_key(v),
            old(pool).allocator@.available() >= 6 ==> r,
            !r ==> final(kernel_space).mapping() == old(kernel_space).mapping(),
            r ==> forall|v: usize|
                TRAMPOLINE_VPN - 3 * pid - 2 <= v < TRAMPOLINE_VPN - 3 * pid ==> #[trigger] final(kernel_space).mapping().contains_key(v),
            final(kernel_space).table().root() == old(kernel_space).table().root(),
            !r ==> final(kernel_space).area_seq() == old(kernel_space).area_seq(),
            r ==> final(kernel_space).area_seq().len() == old(kernel_space).area_seq().len() + 1,
            r ==> forall|i: int| 0 <= i < old(kernel_space).area_seq().len() ==> #[trigger] final(kernel_space).area_seq()[i]
                == old(kernel_space).area_seq()[i],
            r ==> is_kstack_area(final(kernel_space).area_seq().last(), pid as int),
    {
        let bottom = TRAMPOLINE_VPN - 3 * pid - 2;
        let top = TRAMPOLINE_VPN - 3 * pid;
        let area = MapArea::from_vpn_range(bottom, top, MapType::Framed, MAP_R + MAP_W);
        proof {
            assert forall|v: usize| #[trigger] area.contains(v) implies !kernel_space.mapping().contains_key(v) by {}
        }
        let ok = kernel_space.push(pool, area, None);
        proof {
            if ok {
                assert forall|v: usize| TRAMPOLINE_VPN - 3 * pid - 2 <= v < TRAMPOLINE_VPN - 3 * pid implies #[trigger] kernel_space.mapping().contains_key(v) by {
                    assert(kernel_space.area_seq().last().contains(v));
                }
            }
            assert forall|v: usize| kstack_floor() <= v < TRAMPOLINE_VPN - 3 * (n_tasks + 1) implies !#[trigger] kernel_space.mapping().contains_key(v) by {
                assert(!old(kernel_space).mapping().contains_key(v));
            }
        }
        ok
    }

    /// A new task running the program `elf_data`: its address space, a pid
    /// and a kernel stack; its switch context resumes at the trap-return
    /// path, and its trap context enters the program at its entry point on
    /// its user stack. The task is Ready but not queued.
    #[verifier::rlimit(60)]
    pub fn new_task(&mut self, elf_data: &[u8]) -> (r: Result<usize, LoadError>)
        requires
            old(self).wf(),
        ensures
            final(self).wf(),
            final(self).ready() == old(self).ready(),
            final(self).current() == old(self).current(),
            old(self).tasks().len() >= MAX_TASKS ==> r == Err::<usize, LoadError>(LoadError::NoTaskSlot),
            (old(self).tasks().len() < MAX_TASKS && elf_loadable(elf_data@, old(self).pool().allocator@.available() - 6))
                ==> r is Ok,
            r is Err ==> final(self).tasks() == old(self).tasks(),
            r is Ok ==> {
                let pid = r->Ok_0;
                let t = final(self).task(pid as int);
                &&& pid == old(self).tasks().len()
                &&& final(self).tasks().len() == pid + 1
                &&& final(self).tasks().take(pid as int) == old(self).tasks()
                &&& final(self).has(pid as int)
                &&& t.pid == pid
                &&& t.task_status == TaskStatus::Ready
                &&& t.parent is None
                &&& t.children@.len() == 0
                &&& t.exit_code == 0
                &&& t.kernel_stack_top == crate::config::kernel_stack_top(pid)
                &&& t.task_cx.ra == old(self).trap_return_addr()
                &&& t.task_cx.sp == t.kernel_stack_top
                &&& t.trap_cx.x@[2] == t.base_size
                &&& t.trap_cx.kernel_sp == t.kernel_stack_top
                &&& t.trap_cx.trap_handler == old(self).trap_handler_addr()
                &&& t.memory_set.mapping().contains_key(TRAP_CONTEXT_VPN)
                &&& t.trap_cx_ppn == t.memory_set.mapping()[TRAP_CONTEXT_VPN].spec_ppn()
                &&& is_image_space(&t.memory_set, elf_data@, t.base_size, t.trap_cx.sepc, old(self).trampoline_ppn())
                &&& image_content(&t.memory_set, &final(self).pool(), elf_data@)
                &&& forall|i: int| 0 <= i < 12 ==> t.task_cx.s@[i] == 0
                &&& forall|i: int| 0 <= i < 32 && i != 2 ==> t.trap_cx.x@[i] == 0
                &&& t.trap_cx.sstatus == old(self).sstatus() & !SSTATUS_SPP
                &&& t.trap_cx.kernel_satp == crate::page_table::satp_of(final(self).kspace().table().root())
                &&& final(self).kspace().table().root() == old(self).kspace().table().root()
                &&& forall|v: usize|
                    TRAMPOLINE_VPN - 3 * pid - 2 <= v < TRAMPOLINE_VPN - 3 * pid ==> #[trigger] final(self).kspace().mapping().contains_key(v)
            },
    {
        if self.tasks.len() >= MAX_TASKS {
            return Err(LoadError::NoTaskSlot);
        }
        let pid = self.tasks.len();
        let ghost pool0 = self.pool;
        let (memory_set, user_sp, entry_point) = match MemorySet::from_elf(elf_data, &mut self.pool, self.strampoline_ppn) {
            Err(e) => {
                proof {
                    Self::lemma_wf_frames_moved(*old(self), *self);
                }
                return Err(e);
            },
            Ok(x) => x,
        };
        let ghost pool1 = self.pool;
        let ghost ks0 = self.kernel_space;
        proof {
            assert forall|p: int| #[trigger] self.has(p) implies self.task(p).memory_set.frames().subset_of(pool0.live()) by {
                assert(old(self).has(p));
            }
        }
        let kstack_ok = Self::map_kernel_stack(&mut self.kernel_space, &mut self.pool, pid, self.tasks.len());
        let ghost ks_new = self.kernel_space.frames().difference(ks0.frames());
        proof {
            pool0.lemma_allocated_trans(&pool1, &self.pool, memory_set.frames(), ks_new);
            assert forall|p: int| #[trigger] self.has(p) implies {
                &&& self.task(p).memory_set.owned_in(&self.pool)
                &&& self.task(p).memory_set.frames().disjoint(self.kernel_space.frames())
                &&& self.task(p).memory_set.frames().disjoint(memory_set.frames())
            } by {
                assert(old(self).has(p));
                assert(self.task(p).memory_set.frames().subset_of(pool0.live()));
                assert forall|q: usize| self.task(p).memory_set.frames().contains(q) implies !ks_new.contains(q) by {
                    assert(pool1.live().contains(q));
                }
            }
        }
        if !kstack_ok {
            memory_set.release(&mut self.pool);
            proof {
                assert(self.kernel_space.owned_in(&self.pool)) by {
                    assert forall|q: usize| self.kernel_space.frames().contains(q) implies !memory_set.frames().contains(q) by {
                        if ks0.frames().contains(q) {
                            assert(pool0.live().contains(q));
                        } else {
                            assert(ks_new.contains(q));
                            assert(!pool1.live().contains(q));
                        }
                    }
                }
                assert forall|p: int| #[trigger] old(self).has(p) implies old(self).task(p).memory_set.frames().subset_of(self.pool.live()) by {
                    assert(self.has(p));
                    assert(pool0.live().disjoint(memory_set.frames()));
                }
                assert forall|p: int| #[trigger] old(self).has(p) implies old(self).task(p).memory_set.frames().disjoint(self.kernel_space.frames()) by {
                    assert(self.has(p));
                }
                Self::lemma_wf_frames_moved(*old(self), *self);
            }
            return Err(LoadError::OutOfFrames);
        }
        proof {
            assert(memory_set.frames().disjoint(self.kernel_space.frames())) by {
                assert forall|q: usize| memory_set.frames().contains(q) implies !self.kernel_space.frames().contains(q) by {
                    assert(!pool0.live().contains(q));
                    assert(pool1.live().contains(q));
                }
            }
            assert(memory_set.owned_in(&self.pool));
            let n = memory_set.area_seq().len() - 1;
            let a = memory_set.area_seq()[n];
            assert(a.contains(TRAP_CONTEXT_VPN));
            assert(memory_set.mapping().contains_key(TRAP_CONTEXT_VPN));
            assert(pid <= crate::config::max_app_id());
            crate::memory_set::lemma_image_content_kept(&memory_set, &pool1, &self.pool, elf_data@);
        }
        let trap_cx_ppn = memory_set.translate(TRAP_CONTEXT_VPN).unwrap().ppn();
        let (_, kernel_stack_top) = kernel_stack_position(pid);
        let kernel_satp = self.kernel_space.token();
        let trap_cx = TrapContext::app_init_context(entry_point, user_sp, kernel_satp, kernel_stack_top, self.trap_handler, self.user_sstatus);
        let tcb = TaskControlBlock {
            pid,
            kernel_stack_top,
            task_status: TaskStatus::Ready,
            task_cx: TaskContext::goto_trap_return(kernel_stack_top, self.trap_return),
            trap_cx,
            trap_cx_ppn,
            memory_set,
            base_size: user_sp,
            parent: None,
            children: Vec::new(),
            exit_code: 0,
        };
        self.tasks.push(Some(tcb));
        proof {
            assert(self.tasks().take(pid as int) =~= old(self).tasks());
            assert forall|p: int| 0 <= p < pid implies #[trigger] self.tasks()[p] == old(self).tasks()[p] by {}
            assert forall|p: int| #[trigger] self.has(p) && p != pid implies old(self).has(p) by {}
            assert forall|p: int, q: int|
                #[trigger] self.has(p) && #[trigger] self.has(q) && p != q implies self.task(p).memory_set.frames().disjoint(
                    self.task(q).memory_set.frames()) by {
                if p != pid && q != pid {
                    assert(old(self).has(p) && old(self).has(q));
                } else if p == pid {
                    assert(old(self).has(q));
                } else {
                    assert(old(self).has(p));
                }
            }
            assert forall|p: int| #[trigger] self.has(p) implies {
                let t = self.task(p);
                &&& t.pid == p
                &&& t.memory_set.wf()
                &&& t.memory_set.owned_in(&self.pool)
                &&& t.memory_set.frames().disjoint(self.kernel_space.frames())
                &&& t.parent != Some(p as usize)
                &&& t.children@.no_duplicates()
                &&& t.task_status == TaskStatus::Zombie ==> t.children@.len() == 0
                &&& forall|i: int|
                    0 <= i < t.children@.len() ==> {
                        let c = #[trigger] t.children@[i];
                        &&& self.has(c as int)
                        &&& self.task(c as int).parent == Some(p as usize)
                    }
            } by {
                if p != pid {
                    assert(old(self).has(p));
                    let t = self.task(p);
                    assert forall|i: int| 0 <= i < t.children@.len() implies {
                        let c = #[trigger] t.children@[i];
                        &&& self.has(c as int)
                        &&& self.task(c as int).parent == Some(p as usize)
                    } by {
                        let c = t.children@[i];
                        assert(old(self).has(c as int));
                    }
                }
            }
            assert forall|i: int| 0 <= i < self.ready().len() implies {
                let p = #[trigger] self.ready()[i];
                &&& self.has(p as int)
                &&& self.task(p as int).task_status == TaskStatus::Ready
                &&& self.current() != Some(p)
            } by {
                assert(old(self).has(self.ready()[i] as int));
            }
            if self.current() is Some {
                assert(old(self).has(self.current()->0 as int));
            }

            assert forall|p: int| #[trigger] self.has(p) implies exists|i: int|
                0 <= i < self.kspace().area_seq().len() && is_kstack_area(#[trigger] self.kspace().area_seq()[i], p) by {
                if p == pid as int {
                    let i = self.kspace().area_seq().len() - 1;
                    assert(is_kstack_area(self.kspace().area_seq()[i], p));
                } else {
                    assert(old(self).has(p));
                    let i = choose|i: int| 0 <= i < old(self).kspace().area_seq().len() && is_kstack_area(#[trigger] old(self).kspace().area_seq()[i], p);
                    assert(self.kspace().area_seq()[i] == ks0.area_seq()[i]);
                }
            }
        }
        Ok(pid)
    }

    /// Appends a Ready task to the tail of the ready queue.
    pub fn add_task(&mut self, pid: usize)
        requires
            old(self).wf(),
            old(self).has(pid as int),
            old(self).task(pid as int).task_status == TaskStatus::Ready,
            !old(self).ready().contains(pid),
            old(self).current() != Some(pid),
        ensures
            final(self).wf(),
            final(self).ready() == old(self).ready().push(pid),
            final(self).tasks() == old(self).tasks(),
            final(self).current() == old(self).current(),
            final(self).pool() == old(self).pool(),
    {
        self.manager.add(pid);
        proof {
            assert forall|q: int| 0 <= q < old(self).tasks().len() implies (old(self).tasks()[q] is Some <==> #[trigger] self.tasks()[q] is Some) by {}
            assert forall|i: int| 0 <= i < self.ready().len() implies {
                let p = #[trigger] self.ready()[i];
                &&& self.has(p as int)
                &&& self.task(p as int).task_status == TaskStatus::Ready
                &&& self.current() != Some(p)
            } by {
                if i < old(self).ready().len() {
                    assert(old(self).ready()[i] == self.ready()[i]);
                }
            }
            assert(self.ready().no_duplicates()) by {
                assert forall|i: int, j: int| 0 <= i < j < self.ready().len() implies self.ready()[i] != self.ready()[j] by {
                    if j == self.ready().len() - 1 {
                        assert(old(self).ready()[i] == self.ready()[i]);
                    }
                }
            }
            Self::lemma_wf_status_moved(*old(self), *self);
        }
    }

    /// Creates the root task from `elf_data` and queues it.
    pub fn add_initproc(&mut self, elf_data: &[u8]) -> (r: Result<usize, LoadError>)
        requires
            old(self).wf(),
            old(self).tasks().len() == 0,
        ensures
            final(self).wf(),
            r is Ok ==> r->Ok_0 == INITPROC_PID && final(self).has(INITPROC_PID as int) && final(self).ready()
                == old(self).ready().push(INITPROC_PID),
            elf_loadable(elf_data@, old(self).pool().allocator@.available() - 6) ==> r is Ok,
            r is Err ==> final(self).tasks() == old(self).tasks(),
    {
        let pid = self.new_task(elf_data)?;
        proof {
            assert(!self.ready().contains(pid)) by {
                if self.ready().contains(pid) {
                    let i = choose|i: int| 0 <= i < self.ready().len() && self.ready()[i] == pid;
                    assert(old(self).has(pid as int));
                }
            }
            if self.current() == Some(pid) {
                assert(old(self).has(pid as int));
            }
        }
        self.add_task(pid);
        Ok(pid)
    }

    /// One turn of the dispatch loop, with no task running: takes the head
    /// of the ready queue, marks it Running and makes it current. The caller
    /// then switches to its saved context.
    pub fn run_next(&mut self) -> (r: Option<usize>)
        requires
            old(self).wf(),
            old(self).current() is None,
        ensures
            final(self).wf(),
            final(self).pool() == old(self).pool(),
            final(self).tasks().len() == old(self).tasks().len(),
            old(self).ready().len() == 0 ==> r is None && final(self).ready() == old(self).ready()
                && final(self).tasks() == old(self).tasks(),
            old(self).ready().len() > 0 ==> {
                let p = old(self).ready()[0];
                &&& r == Some(p)
                &&& final(self).ready() == old(self).ready().drop_first()
                &&& final(self).current() == Some(p)
                &&& final(self).task(p as int).task_status == TaskStatus::Running
                &&& final(self).task(p as int).task_cx == old(self).task(p as int).task_cx
                &&& final(self).task(p as int).trap_cx == old(self).task(p as int).trap_cx
                &&& forall|q: int| 0 <= q < old(self).tasks().len() && q != p ==> #[trigger] final(self).tasks()[q] == old(self).tasks()[q]
            },
    {
        match self.manager.fetch() {
            None => {
                proof {
                    assert forall|q: int| 0 <= q < old(self).tasks().len() implies (old(self).tasks()[q] is Some <==> #[trigger] self.tasks()[q] is Some) by {}
                    Self::lemma_wf_status_moved(*old(self), *self);
                }
                None
            },
            Some(p) => {
                proof {
                    assert(old(self).ready()[0] == p);
                    assert(old(self).has(p as int));
                }
                let mut t = self.tasks[p].take().unwrap();
                t.task_status = TaskStatus::Running;
                self.tasks.set(p, Some(t));
                self.current = Some(p);
                proof {
                    let k0 = *old(self);
                    assert forall|q: int| 0 <= q < k0.tasks().len() && q != p implies #[trigger] self.tasks()[q] == k0.tasks()[q] by {}
                    assert forall|q: int| 0 <= q < k0.tasks().len() implies (k0.tasks()[q] is Some <==> #[trigger] self.tasks()[q] is Some) by {}
                    assert forall|i: int| 0 <= i < self.ready().len() implies {
                        let q = #[trigger] self.ready()[i];
                        &&& self.has(q as int)
                        &&& self.task(q as int).task_status == TaskStatus::Ready
                        &&& self.current() != Some(q)
                    } by {
                        assert(self.ready()[i] == k0.ready()[i + 1]);
                        assert(k0.ready()[i + 1] != k0.ready()[0]);
                    }
                    assert(self.ready().no_duplicates()) by {
                        assert forall|i: int, j: int| 0 <= i < j < self.ready().len() implies self.ready()[i] != self.ready()[j] by {
                            assert(self.ready()[i] == k0.ready()[i + 1]);
                            assert(self.ready()[j] == k0.ready()[j + 1]);
                        }
                    }
                    Self::lemma_wf_status_moved(k0, *self);
                }
                Some(p)
            },
        }
    }

    /// The decision part of a voluntary yield or a timer preemption: the
    /// running task becomes Ready and goes to the tail of the ready queue;
    /// no task is current. The caller then switches to the idle context.
    pub fn suspend_current(&mut self)
        requires
            old(self).wf(),
            old(self).current() is Some,
        ensures
            final(self).wf(),
            final(self).current() is None,
            final(self).ready() == old(self).ready().push(old(self).current()->0),
            final(self).pool() == old(self).pool(),
            final(self).tasks().len() == old(self).tasks().len(),
            final(self).task(old(self).current()->0 as int).task_status == TaskStatus::Ready,
            final(self).task(old(self).current()->0 as int).trap_cx == old(self).task(old(self).current()->0 as int).trap_cx,
            forall|q: int|
                0 <= q < old(self).tasks().len() && q != old(self).current()->0 ==> #[trigger] final(self).tasks()[q]
                    == old(self).tasks()[q],
    {
        let p = self.current.unwrap();
        let mut t = self.tasks[p].take().unwrap();
        t.task_status = TaskStatus::Ready;
        self.tasks.set(p, Some(t));
        self.current = None;
        self.manager.add(p);
        proof {
            let k0 = *old(self);
            assert forall|i: int| 0 <= i < self.ready().len() implies {
                let q = #[trigger] self.ready()[i];
                &&& self.has(q as int)
                &&& self.task(q as int).task_status == TaskStatus::Ready
                &&& self.current() != Some(q)
            } by {
                if i < k0.ready().len() {
                    assert(k0.ready()[i] == self.ready()[i]);
                    assert(k0.ready()[i] != p);
                    assert(self.tasks()[k0.ready()[i] as int] == k0.tasks()[k0.ready()[i] as int]);
                }
            }
            assert(self.ready().no_duplicates()) by {
                assert forall|i: int, j: int| 0 <= i < j < self.ready().len() implies self.ready()[i] != self.ready()[j] by {
                    if j == self.ready().len() - 1 {
                        assert(k0.ready()[i] == self.ready()[i]);
                        assert(k0.current() != Some(k0.ready()[i]));
                    }
                }
            }
            assert forall|q: int| 0 <= q < k0.tasks().len() && q != p implies #[trigger] self.tasks()[q] == k0.tasks()[q] by {}
            assert forall|q: int| 0 <= q < k0.tasks().len() implies (k0.tasks()[q] is Some <==> #[trigger] self.tasks()[q] is Some) by {}
            Self::lemma_wf_status_moved(k0, *self);
        }
    }

    /// A child of task `parent`: a copy of its address space on fresh
    /// frames, a new pid and kernel stack, and the parent's trap context
    /// but for the kernel stack pointer. The child is Ready, not queued,
    /// and joins the parent's children.
    #[verifier::rlimit(60)]
    pub fn fork(&mut self, parent: usize) -> (r: Result<usize, LoadError>)
        requires
            old(self).wf(),
            old(self).has(parent as int),
            old(self).task(parent as int).task_status != TaskStatus::Zombie,
        ensures
            final(self).wf(),
            final(self).ready() == old(self).ready(),
            final(self).current() == old(self).current(),
            old(self).tasks().len() >= MAX_TASKS ==> r == Err::<usize, LoadError>(LoadError::NoTaskSlot),
            old(self).tasks().len() < MAX_TASKS && old(self).pool().allocator@.available() >= 9 + 3
                * crate::memory_set::pages_in(old(self).task(parent as int).memory_set.area_seq()) ==> r is Ok,
            r is Err ==> final(self).tasks() == old(self).tasks(),
            r is Ok ==> {
                let c = r->Ok_0;
                let pt = old(self).task(parent as int);
                let t = final(self).task(c as int);
                &&& c == old(self).tasks().len()
                &&& final(self).tasks().len() == c + 1
                &&& forall|q: int| 0 <= q < c && q != parent ==> #[trigger] final(self).tasks()[q] == old(self).tasks()[q]
                &&& final(self).has(parent as int)
                &&& final(self).task(parent as int).children@ == pt.children@.push(c)
                &&& final(self).task(parent as int).trap_cx == pt.trap_cx
                &&& final(self).task(parent as int).task_status == pt.task_status
                &&& final(self).has(c as int)
                &&& t.pid == c
                &&& t.task_status == TaskStatus::Ready
                &&& t.parent == Some(parent)
                &&& t.children@.len() == 0
                &&& t.exit_code == 0
                &&& t.base_size == pt.base_size
                &&& t.kernel_stack_top == crate::config::kernel_stack_top(c)
                &&& t.task_cx.ra == old(self).trap_return_addr()
                &&& t.task_cx.sp == t.kernel_stack_top
                &&& forall|i: int| 0 <= i < 12 ==> t.task_cx.s@[i] == 0
                &&& t.trap_cx.x == pt.trap_cx.x
                &&& t.trap_cx.sstatus == pt.trap_cx.sstatus
                &&& t.trap_cx.sepc == pt.trap_cx.sepc
                &&& t.trap_cx.kernel_satp == pt.trap_cx.kernel_satp
                &&& t.trap_cx.trap_handler == pt.trap_cx.trap_handler
                &&& t.trap_cx.kernel_sp == t.kernel_stack_top
                &&& t.memory_set.area_seq().len() == pt.memory_set.area_seq().len()
                &&& forall|i: int, v: usize|
                    0 <= i < pt.memory_set.area_seq().len() && #[trigger] pt.memory_set.area_seq()[i].contains(v)
                        && pt.memory_set.area_seq()[i].kind() == MapType::Framed ==> {
                        &&& t.memory_set.mapping()[v].spec_ppn() != pt.memory_set.mapping()[v].spec_ppn()
                        &&& final(self).pool().memory@[t.memory_set.mapping()[v].spec_ppn()]
                            == final(self).pool().memory@[pt.memory_set.mapping()[v].spec_ppn()]
                    }
            },
    {
        if self.tasks.len() >= MAX_TASKS {
            return Err(LoadError::NoTaskSlot);
        }
        let c = self.tasks.len();
        let ghost pool0 = self.pool;
        let ghost pt = old(self).task(parent as int);
        proof {
            assert(pt.memory_set.owned_in(&self.pool));
        }
        let memory_set = match MemorySet::from_existed_user(&self.tasks[parent].as_ref().unwrap().memory_set, &mut self.pool, self.strampoline_ppn) {
            None => {
                proof {
                    assert forall|p: int| #[trigger] old(self).has(p) implies old(self).task(p).memory_set.frames().subset_of(self.pool.live()) by {}
                    assert forall|p: int| #[trigger] old(self).has(p) implies old(self).task(p).memory_set.frames().disjoint(self.kernel_space.frames()) by {}
                    Self::lemma_wf_frames_moved(*old(self), *self);
                }
                return Err(LoadError::OutOfFrames);
            },
            Some(ms) => ms,
        };
        let ghost pool1 = self.pool;
        let ghost ks0 = self.kernel_space;
        proof {
            assert forall|p: int| #[trigger] self.has(p) implies self.task(p).memory_set.frames().subset_of(pool0.live()) by {
                assert(old(self).has(p));
            }
        }
        let kstack_ok = Self::map_kernel_stack(&mut self.kernel_space, &mut self.pool, c, self.tasks.len());
        let ghost ks_new = self.kernel_space.frames().difference(ks0.frames());
        proof {
            pool0.lemma_allocated_trans(&pool1, &self.pool, memory_set.frames(), ks_new);
            assert forall|p: int| #[trigger] self.has(p) implies {
                &&& self.task(p).memory_set.owned_in(&self.pool)
                &&& self.task(p).memory_set.frames().disjoint(self.kernel_space.frames())
                &&& self.task(p).memory_set.frames().disjoint(memory_set.frames())
            } by {
                assert(old(self).has(p));
                assert(self.task(p).memory_set.frames().subset_of(pool0.live()));
                assert(pool0.live().disjoint(memory_set.frames()));
                assert forall|q: usize| self.task(p).memory_set.frames().contains(q) implies !ks_new.contains(q) by {
                    assert(pool1.live().contains(q));
                }
            }
        }
        if !kstack_ok {
            memory_set.release(&mut self.pool);
            proof {
                assert(self.kernel_space.owned_in(&self.pool)) by {
                    assert forall|q: usize| self.kernel_space.frames().contains(q) implies !memory_set.frames().contains(q) by {
                        if ks0.frames().contains(q) {
                            assert(pool0.live().contains(q));
                        } else {
                            assert(ks_new.contains(q));
                            assert(!pool1.live().contains(q));
                        }
                    }
                }
                assert forall|p: int| #[trigger] old(self).has(p) implies old(self).task(p).memory_set.frames().subset_of(self.pool.live()) by {
                    assert(self.has(p));
                }
                assert forall|p: int| #[trigger] old(self).has(p) implies old(self).task(p).memory_set.frames().disjoint(self.kernel_space.frames()) by {
                    assert(self.has(p));
                }
                Self::lemma_wf_frames_moved(*old(self), *self);
            }
            return Err(LoadError::OutOfFrames);
        }
        proof {
            assert(memory_set.frames().disjoint(self.kernel_space.frames())) by {
                assert forall|q: usize| memory_set.frames().contains(q) implies !self.kernel_space.frames().contains(q) by {
                    assert(!pool0.live().contains(q));
                    assert(pool1.live().contains(q));
                }
            }
            assert(c <= crate::config::max_app_id());
        }
        let trap_cx_ppn = match memory_set.translate(TRAP_CONTEXT_VPN) {
            Some(pte) => pte.ppn(),
            None => 0,
        };
        let (_, kernel_stack_top) = kernel_stack_position(c);
        let mut pt_tcb = self.tasks[parent].take().unwrap();
        let mut trap_cx = pt_tcb.trap_cx;
        trap_cx.kernel_sp = kernel_stack_top;
        let child = TaskControlBlock {
            pid: c,
            kernel_stack_top,
            task_status: TaskStatus::Ready,
            task_cx: TaskContext::goto_trap_return(kernel_stack_top, self.trap_return),
            trap_cx,
            trap_cx_ppn,
            memory_set,
            base_size: pt_tcb.base_size,
            parent: Some(parent),
            children: Vec::new(),
            exit_code: 0,
        };
        pt_tcb.children.push(c);
        self.tasks.set(parent, Some(pt_tcb));
        self.tasks.push(Some(child));
        proof {
            let k0 = *old(self);
            assert forall|q: int| 0 <= q < c && q != parent implies #[trigger] self.tasks()[q] == k0.tasks()[q] by {}
            assert forall|p: int| #[trigger] self.has(p) && p != c implies k0.has(p) by {}
            assert forall|p: int| #[trigger] k0.has(p) implies self.has(p) by {}
            assert forall|p: int, q: int|
                #[trigger] self.has(p) && #[trigger] self.has(q) && p != q implies self.task(p).memory_set.frames().disjoint(
                    self.task(q).memory_set.frames()) by {
                if p != c && q != c {
                    assert(k0.has(p) && k0.has(q));
                } else if p == c {
                    assert(k0.has(q));
                } else {
                    assert(k0.has(p));
                }
            }
            assert forall|p: int| #[trigger] self.has(p) implies {
                let t = self.task(p);
                &&& t.pid == p
                &&& t.memory_set.wf()
                &&& t.memory_set.owned_in(&self.pool)
                &&& t.memory_set.frames().disjoint(self.kernel_space.frames())
                &&& t.parent != Some(p as usize)
                &&& t.children@.no_duplicates()
                &&& t.task_status == TaskStatus::Zombie ==> t.children@.len() == 0
                &&& forall|i: int|
                    0 <= i < t.children@.len() ==> {
                        let ch = #[trigger] t.children@[i];
                        &&& self.has(ch as int)
                        &&& self.task(ch as int).parent == Some(p as usize)
                    }
            } by {
                if p != c {
                    assert(k0.has(p));
                    let t = self.task(p);
                    let t0 = k0.task(p);
                    if p == parent {
                        assert(t.children@ == t0.children@.push(c));
                        assert(t.children@.no_duplicates()) by {
                            assert forall|i: int, j: int| 0 <= i < j < t.children@.len() implies t.children@[i] != t.children@[j] by {
                                if j == t.children@.len() - 1 {
                                    assert(t0.children@[i] == t.children@[i]);
                                    assert(k0.has(t0.children@[i] as int));
                                }
                            }
                        }
                    }
                    assert forall|i: int| 0 <= i < t.children@.len() implies {
                        let ch = #[trigger] t.children@[i];
                        &&& self.has(ch as int)
                        &&& self.task(ch as int).parent == Some(p as usize)
                    } by {
                        if i < t0.children@.len() {
                            assert(t.children@[i] == t0.children@[i]);
                            assert(k0.has(t0.children@[i] as int));
                            assert(t0.children@[i] != c);
                        }
                    }
                }
            }
            assert forall|i: int| 0 <= i < self.ready().len() implies {
                let q = #[trigger] self.ready()[i];
                &&& self.has(q as int)
                &&& self.task(q as int).task_status == TaskStatus::Ready
                &&& self.current() != Some(q)
            } by {
                assert(k0.has(self.ready()[i] as int));
            }
            if self.current() is Some {
                assert(k0.has(self.current()->0 as int));
            }
            if self.has(INITPROC_PID as int) && INITPROC_PID != c {
                assert(k0.has(INITPROC_PID as int));
            }
            assert(self.has(c as int));
            assert forall|i: int, v: usize|
                0 <= i < pt.memory_set.area_seq().len() && #[trigger] pt.memory_set.area_seq()[i].contains(v)
                    && pt.memory_set.area_seq()[i].kind() == MapType::Framed implies {
                    &&& memory_set.mapping()[v].spec_ppn() != pt.memory_set.mapping()[v].spec_ppn()
                    &&& self.pool.memory@[memory_set.mapping()[v].spec_ppn()]
                        == self.pool.memory@[pt.memory_set.mapping()[v].spec_ppn()]
                } by {
                let f1 = memory_set.mapping()[v].spec_ppn();
                let f0 = pt.memory_set.mapping()[v].spec_ppn();
                assert(pool1.memory@[f1] == pool1.memory@[f0]);
                let mi = memory_set.area_seq()[i];
                let si = pt.memory_set.area_seq()[i];
                assert(mi.contains(v));
                PageTableEntry::lemma_new_fields(mi.frame_of(v), crate::page_table::with_valid(mi.perm()));
                PageTableEntry::lemma_new_fields(si.frame_of(v), crate::page_table::with_valid(si.perm()));
                assert(mi.frame_list()[v - mi.start_vpn()] == mi.frame_of(v));
                assert(si.frame_list()[v - si.start_vpn()] == si.frame_of(v));
                assert(memory_set.data_frames().contains(f1));
                assert(pt.memory_set.data_frames().contains(f0));
                assert(pool1.live().contains(f1));
                assert(pool1.live().contains(f0));
            }

            assert forall|p: int| #[trigger] self.has(p) implies exists|i: int|
                0 <= i < self.kspace().area_seq().len() && is_kstack_area(#[trigger] self.kspace().area_seq()[i], p) by {
                if p == c as int {
                    let i = self.kspace().area_seq().len() - 1;
                    assert(is_kstack_area(self.kspace().area_seq()[i], p));
                } else {
                    assert(old(self).has(p));
                    let i = choose|i: int| 0 <= i < old(self).kspace().area_seq().len() && is_kstack_area(#[trigger] old(self).kspace().area_seq()[i], p);
                    assert(self.kspace().area_seq()[i] == ks0.area_seq()[i]);
                }
            }
        }
        Ok(c)
    }

    /// The decision part of `exit`: the running task (not the root) becomes
    /// a Zombie with `exit_code`, its children move to the root task, and
    /// the data frames of its address space are given back at once; its
    /// page table, pid and kernel stack stay until it is reaped. No task is
    /// current afterwards.
    #[verifier::rlimit(60)]
    pub fn exit_current(&mut self, exit_code: i32)
        requires
            old(self).wf(),
            old(self).current() is Some,
            old(self).current()->0 != INITPROC_PID,
            old(self).has(INITPROC_PID as int),
        ensures
            final(self).wf(),
            final(self).current() is None,
            final(self).ready() == old(self).ready(),
            final(self).tasks().len() == old(self).tasks().len(),
            ({
                let cur = old(self).current()->0 as int;
                let ch = old(self).task(cur).children@;
                let root = INITPROC_PID as int;
                &&& final(self).has(cur)
                &&& final(self).task(cur).task_status == TaskStatus::Zombie
                &&& final(self).task(cur).exit_code == exit_code
                &&& final(self).task(cur).children@.len() == 0
                &&& final(self).task(cur).parent == old(self).task(cur).parent
                &&& final(self).task(cur).memory_set.area_seq().len() == 0
                &&& final(self).task(cur).pid == old(self).task(cur).pid
                &&& final(self).task(cur).kernel_stack_top == old(self).task(cur).kernel_stack_top
                &&& final(self).task(cur).trap_cx_ppn == old(self).task(cur).trap_cx_ppn
                &&& final(self).task(cur).memory_set.table().root() == old(self).task(cur).memory_set.table().root()
                &&& final(self).task(cur).memory_set.table().frames() == old(self).task(cur).memory_set.table().frames()
                &&& final(self).kspace() == old(self).kspace()
                &&& final(self).has(root)
                &&& final(self).task(root).children@ == old(self).task(root).children@ + ch
                &&& forall|i: int| 0 <= i < ch.len() ==> final(self).has(#[trigger] ch[i] as int)
                    && final(self).task(ch[i] as int).parent == Some(INITPROC_PID)
                    && final(self).task(ch[i] as int).task_status == old(self).task(ch[i] as int).task_status
                &&& forall|q: int| 0 <= q < old(self).tasks().len() && q != cur && q != root && !ch.contains(q as usize)
                    ==> #[trigger] final(self).tasks()[q] == old(self).tasks()[q]
                &&& final(self).pool().live() == old(self).pool().live().difference(old(self).task(cur).memory_set.data_frames())
            }),
    {
        let cur = self.current.unwrap();
        let ghost k0 = *old(self);
        let ghost ch = k0.task(cur as int).children@;
        let ghost root0 = k0.task(INITPROC_PID as int);
        proof {
            assert(k0.has(cur as int));
            assert forall|i: int| 0 <= i < ch.len() implies #[trigger] ch[i] != cur && ch[i] != INITPROC_PID && k0.has(ch[i] as int)
                && k0.task(ch[i] as int).parent == Some(cur) by {
                assert(k0.has(ch[i] as int));
            }
        }
        let mut t = self.tasks[cur].take().unwrap();
        let mut root = self.tasks[INITPROC_PID].take().unwrap();
        let mut i: usize = 0;
        while i < t.children.len()
            invariant
                t == k0.task(cur as int),
                t.children@ == ch,
                self.pool == k0.pool,
                cur < k0.tasks().len(),
                INITPROC_PID < k0.tasks().len(),
                self.kernel_space == k0.kernel_space,
                self.manager == k0.manager,
                self.current == k0.current,
                self.strampoline_ppn == k0.strampoline_ppn,
                i <= ch.len(),
                self.tasks().len() == k0.tasks().len(),
                self.tasks()[cur as int] is None,
                self.tasks()[INITPROC_PID as int] is None,
                root.children@ == root0.children@ + ch.take(i as int),
                root.pid == root0.pid && root.memory_set == root0.memory_set && root.parent == root0.parent
                    && root.task_status == root0.task_status && root.trap_cx == root0.trap_cx,
                forall|j: int| 0 <= j < ch.len() ==> #[trigger] ch[j] != cur && ch[j] != INITPROC_PID && k0.has(ch[j] as int)
                    && k0.task(ch[j] as int).parent == Some(cur),
                ch.no_duplicates(),
                forall|j: int| 0 <= j < i ==> {
                    let c = #[trigger] ch[j] as int;
                    &&& self.tasks()[c] is Some
                    &&& self.task(c).parent == Some(INITPROC_PID)
                    &&& self.task(c).pid == k0.task(c).pid
                    &&& self.task(c).memory_set == k0.task(c).memory_set
                    &&& self.task(c).children == k0.task(c).children
                    &&& self.task(c).task_status == k0.task(c).task_status
                },
                forall|q: int| 0 <= q < k0.tasks().len() && q != cur && q != INITPROC_PID && !ch.take(i as int).contains(q as usize)
                    ==> #[trigger] self.tasks()[q] == k0.tasks()[q],
            decreases ch.len() - i,
        {
            let c = t.children[i];
            proof {
                assert(ch[i as int] == c);
                assert(c != cur && c != INITPROC_PID);
                assert(!ch.take(i as int).contains(c)) by {
                    if ch.take(i as int).contains(c) {
                        let j = choose|j: int| 0 <= j < i && ch.take(i as int)[j] == c;
                        assert(ch[j] == ch[i as int]);
                    }
                }
                assert(self.tasks()[c as int] == k0.tasks()[c as int]);
            }
            let mut ct = self.tasks[c].take().unwrap();
            ct.parent = Some(INITPROC_PID);
            self.tasks.set(c, Some(ct));
            root.children.push(c);
            proof {
                assert(ch.take(i + 1) == ch.take(i as int).push(c));
                assert(root.children@ =~= root0.children@ + ch.take(i + 1));
                assert forall|q: int| 0 <= q < k0.tasks().len() && q != cur && q != INITPROC_PID && !ch.take(i + 1).contains(q as usize)
                    implies #[trigger] self.tasks()[q] == k0.tasks()[q] by {
                    if q == c as int {
                        assert(ch.take(i + 1)[i as int] == c);
                    }
                    assert(!ch.take(i as int).contains(q as usize)) by {
                        if ch.take(i as int).contains(q as usize) {
                            let j = choose|j: int| 0 <= j < i && ch.take(i as int)[j] == q as usize;
                            assert(ch.take(i + 1)[j] == q as usize);
                        }
                    }
                }
                assert forall|j: int| 0 <= j < i + 1 implies {
                    let cc = #[trigger] ch[j] as int;
                    &&& self.tasks()[cc] is Some
                    &&& self.task(cc).parent == Some(INITPROC_PID)
                    &&& self.task(cc).pid == k0.task(cc).pid
                    &&& self.task(cc).memory_set == k0.task(cc).memory_set
                    &&& self.task(cc).children == k0.task(cc).children
                    &&& self.task(cc).task_status == k0.task(cc).task_status
                } by {
                    if j < i {
                        assert(ch[j] != c);
                    }
                }
            }
            i = i + 1;
        }
        proof {
            assert(ch.take(ch.len() as int) =~= ch);
        }
        let ghost ms0 = t.memory_set;
        proof {
            assert(ms0 == k0.task(cur as int).memory_set);
        }
        t.children = Vec::new();
        t.task_status = TaskStatus::Zombie;
        t.exit_code = exit_code;
        t.memory_set.recycle_data_pages(&mut self.pool);
        self.tasks.set(cur, Some(t));
        self.tasks.set(INITPROC_PID, Some(root));
        self.current = None;
        proof {
            let k1 = *self;
            let root_i = INITPROC_PID as int;
            let cur_i = cur as int;
            let dropped = ms0.data_frames();
            assert(k1.task(cur_i).memory_set.frames().subset_of(ms0.frames())) by {
                assert(k1.task(cur_i).memory_set.frames() =~= ms0.table().frames().union(k1.task(cur_i).memory_set.data_frames()));
            }
            assert forall|q: int| #[trigger] k1.has(q) implies k0.has(q) by {
                if q != cur_i && q != root_i && !ch.contains(q as usize) {
                    assert(k1.tasks()[q] == k0.tasks()[q]);
                }
                if ch.contains(q as usize) {
                    let j = choose|j: int| 0 <= j < ch.len() && ch[j] == q as usize;
                }
            }
            assert forall|q: int| #[trigger] k0.has(q) implies k1.has(q) by {
                if q != cur_i && q != root_i && !ch.contains(q as usize) {
                    assert(k1.tasks()[q] == k0.tasks()[q]);
                }
                if ch.contains(q as usize) {
                    let j = choose|j: int| 0 <= j < ch.len() && ch[j] == q as usize;
                }
            }
            // every task keeps its address space, but the exiting one
            assert forall|q: int| #[trigger] k1.has(q) && q != cur_i implies k1.task(q).memory_set == k0.task(q).memory_set
                && k1.task(q).pid == k0.task(q).pid && k1.task(q).task_status == k0.task(q).task_status by {
                if q != root_i && !ch.contains(q as usize) {
                    assert(k1.tasks()[q] == k0.tasks()[q]);
                }
                if ch.contains(q as usize) {
                    let j = choose|j: int| 0 <= j < ch.len() && ch[j] == q as usize;
                }
            }
            // frames
            assert forall|q: int| #[trigger] k1.has(q) implies {
                &&& k1.task(q).memory_set.owned_in(&k1.pool)
                &&& k1.task(q).memory_set.frames().disjoint(k1.kernel_space.frames())
            } by {
                assert(k0.has(q));
                if q != cur_i {
                    assert forall|f: usize| k1.task(q).memory_set.frames().contains(f) implies k1.pool.live().contains(f) by {
                        assert(k0.task(q).memory_set.frames().disjoint(ms0.frames()));
                        assert(ms0.frames().contains(f) || !dropped.contains(f));
                    }
                }
            }
            assert(k1.kernel_space.owned_in(&k1.pool)) by {
                assert forall|f: usize| k1.kernel_space.frames().contains(f) implies k1.pool.live().contains(f) by {
                    assert(ms0.frames().disjoint(k0.kernel_space.frames()));
                }
            }
            assert forall|a: int, b: int|
                #[trigger] k1.has(a) && #[trigger] k1.has(b) && a != b implies k1.task(a).memory_set.frames().disjoint(
                    k1.task(b).memory_set.frames()) by {
                assert(k0.has(a) && k0.has(b));
            }
            // the process tree
            assert forall|p: int| #[trigger] k1.has(p) implies {
                let tp = k1.task(p);
                &&& tp.pid == p
                &&& tp.memory_set.wf()
                &&& tp.parent != Some(p as usize)
                &&& tp.children@.no_duplicates()
                &&& tp.task_status == TaskStatus::Zombie ==> tp.children@.len() == 0
                &&& forall|j: int|
                    0 <= j < tp.children@.len() ==> {
                        let c = #[trigger] tp.children@[j];
                        &&& k1.has(c as int)
                        &&& k1.task(c as int).parent == Some(p as usize)
                    }
            } by {
                assert(k0.has(p));
                let tp = k1.task(p);
                let t0 = k0.task(p);
                if p == root_i {
                    assert(tp.children@ == t0.children@ + ch);
                    assert(tp.children@.no_duplicates()) by {
                        assert forall|x: int, y: int| 0 <= x < y < tp.children@.len() implies tp.children@[x] != tp.children@[y] by {
                            if y >= t0.children@.len() && x < t0.children@.len() {
                                let cx = t0.children@[x];
                                assert(k0.has(cx as int));
                                assert(k0.task(cx as int).parent == Some(INITPROC_PID));
                                assert(tp.children@[y] == ch[y - t0.children@.len()]);
                            } else if x >= t0.children@.len() {
                                assert(tp.children@[x] == ch[x - t0.children@.len()]);
                                assert(tp.children@[y] == ch[y - t0.children@.len()]);
                            }
                        }
                    }
                    assert forall|j: int| 0 <= j < tp.children@.len() implies {
                        let c = #[trigger] tp.children@[j];
                        &&& k1.has(c as int)
                        &&& k1.task(c as int).parent == Some(p as usize)
                    } by {
                        if j < t0.children@.len() {
                            let c = t0.children@[j];
                            assert(tp.children@[j] == c);
                            assert(k0.has(c as int));
                            if c != cur {
                                assert(!ch.contains(c)) by {
                                    if ch.contains(c) {
                                        let x = choose|x: int| 0 <= x < ch.len() && ch[x] == c;
                                    }
                                }
                                assert(c as int != root_i);
                                assert(k1.tasks()[c as int] == k0.tasks()[c as int]);
                            }
                        } else {
                            assert(tp.children@[j] == ch[j - t0.children@.len()]);
                        }
                    }
                } else if p != cur_i {
                    assert(tp.children == t0.children) by {
                        if ch.contains(p as usize) {
                            let x = choose|x: int| 0 <= x < ch.len() && ch[x] == p as usize;
                        } else {
                            assert(k1.tasks()[p] == k0.tasks()[p]);
                        }
                    }
                    assert(tp.parent != Some(p as usize)) by {
                        if ch.contains(p as usize) {
                            let x = choose|x: int| 0 <= x < ch.len() && ch[x] == p as usize;
                        } else {
                            assert(k1.tasks()[p] == k0.tasks()[p]);
                        }
                    }
                    assert forall|j: int| 0 <= j < tp.children@.len() implies {
                        let c = #[trigger] tp.children@[j];
                        &&& k1.has(c as int)
                        &&& k1.task(c as int).parent == Some(p as usize)
                    } by {
                        let c = t0.children@[j];
                        assert(k0.has(c as int));
                        assert(k0.task(c as int).parent == Some(p as usize));
                        assert(!ch.contains(c)) by {
                            if ch.contains(c) {
                                let x = choose|x: int| 0 <= x < ch.len() && ch[x] == c;
                            }
                        }
                        assert(c as int != root_i);
                        if c as int != cur_i {
                            assert(k1.tasks()[c as int] == k0.tasks()[c as int]);
                        }
                    }
                }
            }
            assert forall|x: int| 0 <= x < k1.ready().len() implies {
                let q = #[trigger] k1.ready()[x];
                &&& k1.has(q as int)
                &&& k1.task(q as int).task_status == TaskStatus::Ready
                &&& k1.current() != Some(q)
            } by {
                let q = k1.ready()[x];
                assert(k0.ready()[x] == q);
                assert(k0.has(q as int));
                assert(q != cur);
            }
            assert(k1.task(root_i).task_status != TaskStatus::Zombie);
            assert forall|p: int| #[trigger] k1.has(p) implies exists|i: int|
                0 <= i < k1.kspace().area_seq().len() && is_kstack_area(#[trigger] k1.kspace().area_seq()[i], p) by {
                assert(k0.has(p));
                let i = choose|i: int| 0 <= i < k0.kspace().area_seq().len() && is_kstack_area(#[trigger] k0.kspace().area_seq()[i], p);
                assert(k1.kspace().area_seq()[i] == k0.kspace().area_seq()[i]);
            }
            assert forall|q: int| 0 <= q < k0.tasks().len() && q != cur_i && q != root_i && !ch.contains(q as usize)
                implies #[trigger] k1.tasks()[q] == k0.tasks()[q] by {}
            assert forall|x: int| 0 <= x < ch.len() implies k1.has(#[trigger] ch[x] as int)
                && k1.task(ch[x] as int).parent == Some(INITPROC_PID)
                && k1.task(ch[x] as int).task_status == k0.task(ch[x] as int).task_status by {}
        }
    }

    /// Child `c` matches `pid` and is a zombie.
    pub open spec fn zombie_match(&self, pid: isize, c: usize) -> bool {
        pid_matches(pid, c) && self.has(c as int) && self.task(c as int).task_status == TaskStatus::Zombie
    }

    /// Child number `i` of `parent` is the first one that matches `pid` and
    /// is a zombie.
    pub open spec fn first_zombie_at(&self, parent: int, pid: isize, i: int) -> bool {
        let ch = self.task(parent).children@;
        &&& 0 <= i < ch.len()
        &&& self.zombie_match(pid, ch[i])
        &&& forall|j: int| 0 <= j < i ==> !self.zombie_match(pid, #[trigger] ch[j])
    }

    /// The decision part of `waitpid` for the running task: -1 when no
    /// child matches `pid` (-1 matches any), -2 when matching children
    /// exist but none is a zombie, else the first matching zombie child is
    /// reaped (its address space and kernel stack given back, its pid
    /// freed) and its pid returned with its exit code.
    #[verifier::rlimit(60)]
    pub fn waitpid(&mut self, pid: isize) -> (r: (isize, i32))
        requires
            old(self).wf(),
            old(self).current() is Some,
        ensures
            final(self).wf(),
            final(self).current() == old(self).current(),
            final(self).ready() == old(self).ready(),
            final(self).tasks().len() == old(self).tasks().len(),
            ({
                let cur = old(self).current()->0 as int;
                let ch = old(self).task(cur).children@;
                &&& (forall|i: int| 0 <= i < ch.len() ==> !pid_matches(pid, #[trigger] ch[i])) ==> r.0 == -1
                    && *final(self) == *old(self)
                &&& ((exists|i: int| 0 <= i < ch.len() && pid_matches(pid, #[trigger] ch[i]))
                    && (forall|i: int| 0 <= i < ch.len() ==> !old(self).zombie_match(pid, #[trigger] ch[i]))) ==> r.0 == -2
                    && *final(self) == *old(self)
                &&& forall|i: int| #[trigger] old(self).first_zombie_at(cur, pid, i) ==> {
                    let c = ch[i];
                    &&& r.0 == c as isize
                    &&& r.1 == old(self).task(c as int).exit_code
                    &&& final(self).tasks()[c as int] is None
                    &&& final(self).has(cur)
                    &&& final(self).task(cur).children@ == ch.remove(i)
                    &&& final(self).task(cur).trap_cx == old(self).task(cur).trap_cx
                    &&& forall|q: int| 0 <= q < old(self).tasks().len() && q != cur && q != c ==> #[trigger] final(self).tasks()[q] == old(self).tasks()[q]
                    &&& old(self).task(c as int).memory_set.frames().disjoint(final(self).pool().live())
                    &&& forall|v: usize|
                        TRAMPOLINE_VPN - 3 * c - 2 <= v < TRAMPOLINE_VPN - 3 * c ==> !#[trigger] final(self).kspace().mapping().contains_key(v)
                }
            }),
    {
        let cur = self.current.unwrap();
        let ghost k0 = *old(self);
        let ghost ch = k0.task(cur as int).children@;
        proof {
            assert(k0.has(cur as int));
        }
        let children = &self.tasks[cur].as_ref().unwrap().children;
        let mut i: usize = 0;
        let mut any = false;
        while i < children.len()
            invariant
                children@ == ch,
                i <= ch.len(),
                !any ==> forall|j: int| 0 <= j < i ==> !pid_matches(pid, #[trigger] ch[j]),
                any ==> exists|j: int| 0 <= j < ch.len() && pid_matches(pid, #[trigger] ch[j]),
            decreases ch.len() - i,
        {
            if pid == -1 || pid == #[verifier::truncate] (children[i] as isize) {
                any = true;
                assert(pid_matches(pid, ch[i as int]));
            }
            i = i + 1;
        }
        if !any {
            return (-1, 0);
        }
        let mut idx: usize = 0;
        let mut found = false;
        while idx < children.len() && !found
            invariant
                children@ == ch,
                idx <= ch.len(),
                *self == k0,
                self.wf(),
                self.has(cur as int),
                children@ == self.task(cur as int).children@,
                !found ==> forall|j: int| 0 <= j < idx ==> !self.zombie_match(pid, #[trigger] ch[j]),
                found ==> idx > 0 && self.first_zombie_at(cur as int, pid, idx - 1),
            decreases ch.len() - idx + (if found { 0int } else { 1int }),
        {
            let c = children[idx];
            proof {
                assert(ch[idx as int] == c);
                assert(self.has(c as int));
            }
            if (pid == -1 || pid == #[verifier::truncate] (c as isize)) && self.tasks[c].as_ref().unwrap().is_zombie() {
                found = true;
            }
            idx = idx + 1;
        }
        if !found {
            return (-2, 0);
        }
        let idx = idx - 1;
        let ghost c_spec = ch[idx as int];
        proof {
            assert forall|i: int| #[trigger] k0.first_zombie_at(cur as int, pid, i) implies i == idx by {
                if i < idx {
                    assert(!k0.zombie_match(pid, ch[i]));
                }
                if i > idx {
                    assert(!k0.zombie_match(pid, ch[idx as int]));
                }
            }
            assert(k0.has(c_spec as int));
            assert(c_spec != cur);
            assert(k0.task(c_spec as int).children@.len() == 0);
        }
        let mut t = self.tasks[cur].take().unwrap();
        let c = t.children.remove(idx);
        self.tasks.set(cur, Some(t));
        let ct = self.tasks[c].take().unwrap();
        let exit_code = ct.exit_code;
        let ghost ms_c = ct.memory_set;
        proof {
            assert(ms_c == k0.task(c as int).memory_set);
        }
        ct.memory_set.release(&mut self.pool);
        let ghost pool1 = self.pool;
        let ghost ks0 = self.kernel_space;
        proof {
            assert(self.kernel_space.owned_in(&self.pool)) by {
                assert forall|f: usize| self.kernel_space.frames().contains(f) implies self.pool.live().contains(f) by {
                    assert(ms_c.frames().disjoint(ks0.frames()));
                }
            }
            assert(c < MAX_TASKS);
        }
        self.kernel_space.remove_area_containing(&mut self.pool, TRAMPOLINE_VPN - 3 * c - 2);
        proof {
            let k1 = *self;
            let ci = c as int;
            let cur_i = cur as int;
            assert(ks0.frames().subset_of(pool1.live()));
            assert forall|q: int| 0 <= q < k0.tasks().len() && q != cur_i && q != ci implies #[trigger] k1.tasks()[q] == k0.tasks()[q] by {}
            assert forall|q: int| #[trigger] k1.has(q) implies k0.has(q) && q != ci by {}
            assert forall|q: int| #[trigger] k1.has(q) implies {
                &&& k1.task(q).memory_set.owned_in(&k1.pool)
                &&& k1.task(q).memory_set.frames().disjoint(k1.kernel_space.frames())
            } by {
                assert(k0.has(q));
                assert(k1.task(q).memory_set == k0.task(q).memory_set);
                assert(k0.task(q).memory_set.frames().disjoint(ms_c.frames()));
                assert forall|f: usize| k1.task(q).memory_set.frames().contains(f) implies k1.pool.live().contains(f) by {
                    assert(pool1.live().contains(f));
                    assert(!ks0.frames().contains(f));
                    assert(pool1.live().difference(ks0.frames()).contains(f));
                }
            }
            assert forall|a: int, b: int|
                #[trigger] k1.has(a) && #[trigger] k1.has(b) && a != b implies k1.task(a).memory_set.frames().disjoint(
                    k1.task(b).memory_set.frames()) by {
                assert(k0.has(a) && k0.has(b));
            }
            assert forall|p: int| #[trigger] k1.has(p) implies {
                let tp = k1.task(p);
                &&& tp.pid == p
                &&& tp.memory_set.wf()
                &&& tp.parent != Some(p as usize)
                &&& tp.children@.no_duplicates()
                &&& tp.task_status == TaskStatus::Zombie ==> tp.children@.len() == 0
                &&& forall|j: int|
                    0 <= j < tp.children@.len() ==> {
                        let x = #[trigger] tp.children@[j];
                        &&& k1.has(x as int)
                        &&& k1.task(x as int).parent == Some(p as usize)
                    }
            } by {
                assert(k0.has(p));
                let tp = k1.task(p);
                let t0 = k0.task(p);
                if p == cur_i {
                    assert(tp.children@ == ch.remove(idx as int));
                    assert(tp.children@.no_duplicates()) by {
                        assert forall|x: int, y: int| 0 <= x < y < tp.children@.len() implies tp.children@[x] != tp.children@[y] by {
                            let ox = if x < idx { x } else { x + 1 };
                            let oy = if y < idx { y } else { y + 1 };
                            assert(tp.children@[x] == ch[ox]);
                            assert(tp.children@[y] == ch[oy]);
                        }
                    }
                    assert forall|j: int| 0 <= j < tp.children@.len() implies {
                        let x = #[trigger] tp.children@[j];
                        &&& k1.has(x as int)
                        &&& k1.task(x as int).parent == Some(p as usize)
                    } by {
                        let oj = if j < idx { j } else { j + 1 };
                        assert(tp.children@[j] == ch[oj]);
                        assert(k0.has(ch[oj] as int));
                        assert(ch[oj] != c);
                        assert(ch[oj] != cur);
                    }
                } else {
                    assert forall|j: int| 0 <= j < tp.children@.len() implies {
                        let x = #[trigger] tp.children@[j];
                        &&& k1.has(x as int)
                        &&& k1.task(x as int).parent == Some(p as usize)
                    } by {
                        let x = t0.children@[j];
                        assert(k0.has(x as int));
                        assert(k0.task(x as int).parent == Some(p as usize));
                        assert(x != c);
                        if x != cur {
                            assert(k1.tasks()[x as int] == k0.tasks()[x as int]);
                        }
                    }
                }
            }
            assert forall|x: int| 0 <= x < k1.ready().len() implies {
                let q = #[trigger] k1.ready()[x];
                &&& k1.has(q as int)
                &&& k1.task(q as int).task_status == TaskStatus::Ready
                &&& k1.current() != Some(q)
            } by {
                let q = k1.ready()[x];
                assert(k0.ready()[x] == q);
                assert(k0.has(q as int));
                assert(q != c);
            }
            if k1.has(INITPROC_PID as int) {
                assert(k0.has(INITPROC_PID as int));
            }
            assert(k1.has(cur_i));
            assert(k1.task(cur_i).task_status == TaskStatus::Running);
            assert forall|v: usize| kstack_floor() <= v < TRAMPOLINE_VPN - 3 * k1.tasks().len() implies !#[trigger] k1.kernel_space.mapping().contains_key(v) by {
                assert(!ks0.mapping().contains_key(v));
            }
            assert(ch.remove(idx as int) == k1.task(cur_i).children@);
            assert(ms_c.frames().disjoint(k1.pool.live()));
            // the child's kernel stack was the region holding its first page
            let ic = choose|i: int| 0 <= i < ks0.area_seq().len() && is_kstack_area(#[trigger] ks0.area_seq()[i], ci);
            assert(ks0.area_seq()[ic].contains((TRAMPOLINE_VPN - 3 * c - 2) as usize));
            assert(k1.kernel_space.area_seq() == ks0.area_seq().remove(ic));
            assert forall|v: usize| TRAMPOLINE_VPN - 3 * c - 2 <= v < TRAMPOLINE_VPN - 3 * c implies !#[trigger] k1.kernel_space.mapping().contains_key(v) by {
                assert(ks0.area_seq()[ic].area_mapping().dom().contains(v));
            }
            assert forall|p: int| #[trigger] k1.has(p) implies exists|i: int|
                0 <= i < k1.kspace().area_seq().len() && is_kstack_area(#[trigger] k1.kspace().area_seq()[i], p) by {
                assert(k0.has(p));
                assert(p != ci);
                let j = choose|j: int| 0 <= j < ks0.area_seq().len() && is_kstack_area(#[trigger] ks0.area_seq()[j], p);
                assert(j != ic) by {
                    if j == ic {
                        assert(p < MAX_TASKS && ci < MAX_TASKS);
                    }
                }
                let nj = if j < ic { j } else { j - 1 };
                assert(k1.kspace().area_seq()[nj] == ks0.area_seq()[j]);
            }
        }
        (#[verifier::truncate] (c as isize), exit_code)
    }

    /// Replaces the address space of task `pid` by one built from
    /// `elf_data`, and its trap context by the program's initial one; pid,
    /// kernel stack, parent and children stay. On error nothing changes
    /// but frames the failed build took and gave back.
    #[verifier::rlimit(60)]
    pub fn exec(&mut self, pid: usize, elf_data: &[u8]) -> (r: Result<(), LoadError>)
        requires
            old(self).wf(),
            old(self).has(pid as int),
        ensures
            final(self).wf(),
            final(self).ready() == old(self).ready(),
            final(self).current() == old(self).current(),
            r is Err ==> final(self).tasks() == old(self).tasks(),
            elf_loadable(elf_data@, old(self).pool().allocator@.available()) ==> r is Ok,
            r is Ok ==> {
                let t0 = old(self).task(pid as int);
                let t = final(self).task(pid as int);
                &&& final(self).tasks().len() == old(self).tasks().len()
                &&& forall|q: int| 0 <= q < old(self).tasks().len() && q != pid ==> #[trigger] final(self).tasks()[q] == old(self).tasks()[q]
                &&& final(self).has(pid as int)
                &&& t.pid == t0.pid
                &&& t.kernel_stack_top == t0.kernel_stack_top
                &&& t.parent == t0.parent
                &&& t.children == t0.children
                &&& t.task_status == t0.task_status
                &&& t.task_cx == t0.task_cx
                &&& t.trap_cx.x@[2] == t.base_size
                &&& t.trap_cx.kernel_sp == t0.kernel_stack_top
                &&& t.trap_cx.trap_handler == old(self).trap_handler_addr()
                &&& t.memory_set.mapping().contains_key(TRAP_CONTEXT_VPN)
                &&& t.trap_cx_ppn == t.memory_set.mapping()[TRAP_CONTEXT_VPN].spec_ppn()
                &&& old(self).task(pid as int).memory_set.frames().disjoint(final(self).pool().live())
                &&& t.exit_code == t0.exit_code
                &&& is_image_space(&t.memory_set, elf_data@, t.base_size, t.trap_cx.sepc, old(self).trampoline_ppn())
                &&& image_content(&t.memory_set, &final(self).pool(), elf_data@)
                &&& forall|i: int| 0 <= i < 32 && i != 2 ==> t.trap_cx.x@[i] == 0
                &&& t.trap_cx.sstatus == old(self).sstatus() & !SSTATUS_SPP
                &&& t.trap_cx.kernel_satp == crate::page_table::satp_of(final(self).kspace().table().root())
                &&& final(self).kspace() == old(self).kspace()
            },
    {
        let ghost k0 = *old(self);
        let ghost pool0 = self.pool;
        let (memory_set, user_sp, entry_point) = match MemorySet::from_elf(elf_data, &mut self.pool, self.strampoline_ppn) {
            Err(e) => {
                proof {
                    assert forall|p: int| #[trigger] k0.has(p) implies k0.task(p).memory_set.frames().subset_of(self.pool.live()) by {}
                    assert forall|p: int| #[trigger] k0.has(p) implies k0.task(p).memory_set.frames().disjoint(self.kernel_space.frames()) by {}
                    Self::lemma_wf_frames_moved(k0, *self);
                }
                return Err(e);
            },
            Ok(x) => x,
        };
        proof {
            let n = memory_set.area_seq().len() - 1;
            assert(memory_set.area_seq()[n].contains(TRAP_CONTEXT_VPN));
            assert(memory_set.mapping().contains_key(TRAP_CONTEXT_VPN));
        }
        let trap_cx_ppn = memory_set.translate(TRAP_CONTEXT_VPN).unwrap().ppn();
        let kernel_satp = self.kernel_space.token();
        let mut t = self.tasks[pid].take().unwrap();
        let ghost old_ms = t.memory_set;
        proof {
            assert(old_ms == k0.task(pid as int).memory_set);
            assert(old_ms.owned_in(&self.pool)) by {
                assert(old_ms.frames().subset_of(pool0.live()));
            }
        }
        let mut new_ms = memory_set;
        std::mem::swap(&mut t.memory_set, &mut new_ms);
        new_ms.release(&mut self.pool);
        t.trap_cx = TrapContext::app_init_context(entry_point, user_sp, kernel_satp, t.kernel_stack_top, self.trap_handler, self.user_sstatus);
        t.trap_cx_ppn = trap_cx_ppn;
        t.base_size = user_sp;
        self.tasks.set(pid, Some(t));
        proof {
            let k1 = *self;
            let pi = pid as int;
            assert forall|q: int| 0 <= q < k0.tasks().len() && q != pi implies #[trigger] k1.tasks()[q] == k0.tasks()[q] by {}
            assert forall|q: int| #[trigger] k1.has(q) implies k0.has(q) by {}
            assert forall|q: int| #[trigger] k0.has(q) implies k1.has(q) by {}
            assert(memory_set.frames().disjoint(old_ms.frames())) by {
                assert forall|f: usize| memory_set.frames().contains(f) implies !old_ms.frames().contains(f) by {
                    assert(!pool0.live().contains(f));
                }
            }
            assert(k1.kernel_space.owned_in(&k1.pool)) by {
                assert forall|f: usize| k1.kernel_space.frames().contains(f) implies k1.pool.live().contains(f) by {
                    assert(old_ms.frames().disjoint(k0.kernel_space.frames()));
                }
            }
            assert forall|q: int| #[trigger] k1.has(q) implies {
                &&& k1.task(q).memory_set.owned_in(&k1.pool)
                &&& k1.task(q).memory_set.frames().disjoint(k1.kernel_space.frames())
            } by {
                if q == pi {
                    assert forall|f: usize| memory_set.frames().contains(f) implies !k1.kernel_space.frames().contains(f) by {
                        assert(!pool0.live().contains(f));
                    }
                } else {
                    assert(k0.task(q).memory_set.frames().disjoint(old_ms.frames()));
                    assert forall|f: usize| k1.task(q).memory_set.frames().contains(f) implies k1.pool.live().contains(f) by {
                        assert(pool0.live().contains(f));
                    }
                }
            }
            assert forall|a: int, b: int|
                #[trigger] k1.has(a) && #[trigger] k1.has(b) && a != b implies k1.task(a).memory_set.frames().disjoint(
                    k1.task(b).memory_set.frames()) by {
                if a == pi {
                    assert forall|f: usize| memory_set.frames().contains(f) implies !k1.task(b).memory_set.frames().contains(f) by {
                        assert(!pool0.live().contains(f));
                    }
                } else if b == pi {
                    assert forall|f: usize| memory_set.frames().contains(f) implies !k1.task(a).memory_set.frames().contains(f) by {
                        assert(!pool0.live().contains(f));
                    }
                } else {
                    assert(k0.has(a) && k0.has(b));
                }
            }
            assert forall|p: int| #[trigger] k1.has(p) implies {
                let tp = k1.task(p);
                &&& tp.pid == p
                &&& tp.memory_set.wf()
                &&& tp.parent != Some(p as usize)
                &&& tp.children@.no_duplicates()
                &&& tp.task_status == TaskStatus::Zombie ==> tp.children@.len() == 0
                &&& forall|j: int|
                    0 <= j < tp.children@.len() ==> {
                        let x = #[trigger] tp.children@[j];
                        &&& k1.has(x as int)
                        &&& k1.task(x as int).parent == Some(p as usize)
                    }
            } by {
                assert(k0.has(p));
                let tp = k1.task(p);
                assert forall|j: int| 0 <= j < tp.children@.len() implies {
                    let x = #[trigger] tp.children@[j];
                    &&& k1.has(x as int)
                    &&& k1.task(x as int).parent == Some(p as usize)
                } by {
                    let x = k0.task(p).children@[j];
                    assert(k0.has(x as int));
                }
            }
            assert forall|x: int| 0 <= x < k1.ready().len() implies {
                let q = #[trigger] k1.ready()[x];
                &&& k1.has(q as int)
                &&& k1.task(q as int).task_status == TaskStatus::Ready
                &&& k1.current() != Some(q)
            } by {
                assert(k0.has(k1.ready()[x] as int));
            }
            if k1.current() is Some {
                assert(k0.has(k1.current()->0 as int));
            }
            if k1.has(INITPROC_PID as int) {
                assert(k0.has(INITPROC_PID as int));
            }
        }
        Ok(())
    }

    /// The pid of the running task.
    pub fn current_pid(&self) -> (r: Option<usize>)
        ensures
            r == self.current(),
    {
        self.current
    }

    /// The `satp` value of the running task's address space.
    pub fn current_user_token(&self) -> (r: usize)
        requires
            self.wf(),
            self.current() is Some,
        ensures
            r == crate::page_table::satp_of(self.task(self.current()->0 as int).memory_set.table().root()),
    {
        let p = self.current.unwrap();
        self.tasks[p].as_ref().unwrap().get_user_token()
    }

    /// The trap context of the running task.
    pub fn current_trap_cx(&self) -> (r: TrapContext)
        requires
            self.wf(),
            self.current() is Some,
        ensures
            r == self.task(self.current()->0 as int).trap_cx,
    {
        let p = self.current.unwrap();
        self.tasks[p].as_ref().unwrap().trap_cx
    }

    /// Replaces the trap context of task `pid`, as the trap handler does
    /// when it writes a result register or advances `sepc`.
    pub fn set_trap_cx(&mut self, pid: usize, cx: TrapContext)
        requires
            old(self).wf(),
            old(self).has(pid as int),
        ensures
            final(self).wf(),
            final(self).current() == old(self).current(),
            final(self).ready() == old(self).ready(),
            final(self).pool() == old(self).pool(),
            final(self).tasks().len() == old(self).tasks().len(),
            forall|p: int|
                0 <= p < old(self).tasks().len() && p != pid ==> #[trigger] final(self).tasks()[p] == old(self).tasks()[p],
            final(self).has(pid as int),
            final(self).task(pid as int).trap_cx == cx,
            final(self).task(pid as int).task_status == old(self).task(pid as int).task_status,
            final(self).task(pid as int).parent == old(self).task(pid as int).parent,
            final(self).task(pid as int).children == old(self).task(pid as int).children,
    {
        let mut t = self.tasks[pid].take().unwrap();
        t.trap_cx = cx;
        self.tasks.set(pid, Some(t));
        proof {
            let k0 = *old(self);
            assert forall|q: int| 0 <= q < k0.tasks().len() && q != pid implies #[trigger] self.tasks()[q] == k0.tasks()[q] by {}
            assert forall|q: int| 0 <= q < k0.tasks().len() implies (k0.tasks()[q] is Some <==> #[trigger] self.tasks()[q] is Some) by {}
            assert forall|i: int| 0 <= i < self.ready().len() implies {
                let q = #[trigger] self.ready()[i];
                &&& self.has(q as int)
                &&& self.task(q as int).task_status == TaskStatus::Ready
                &&& self.current() != Some(q)
            } by {
                assert(k0.has(self.ready()[i] as int));
            }
            if self.current() is Some {
                assert(k0.has(self.current()->0 as int));
            }
            Self::lemma_wf_status_moved(k0, *self);
        }
    }


    /// Writes `data` at `va` of task `pid`'s address space, when the bytes
    /// lie within one page that is mapped to memory; otherwise changes
    /// nothing and returns false.
    pub fn write_user_bytes(&mut self, pid: usize, va: usize, data: &[u8]) -> (r: bool)
        requires
            old(self).wf(),
            old(self).has(pid as int),
        ensures
            final(self).wf(),
            final(self).tasks() == old(self).tasks(),
            final(self).ready() == old(self).ready(),
            final(self).current() == old(self).current(),
            final(self).pool().allocator@ == old(self).pool().allocator@,
            ({
                let ms = old(self).task(pid as int).memory_set;
                let vpn = crate::memory_set::spec_va_floor(va);
                let ppn = ms.mapping()[vpn].spec_ppn();
                let mem = old(self).pool().memory@;
                &&& r <==> (ms.mapping().contains_key(vpn) && mem.contains_key(ppn) && va % 4096 + data@.len() <= 4096)
                &&& r ==> final(self).pool().memory@ == mem.insert(
                    ppn,
                    crate::phys_memory::page_with(mem[ppn], (va % 4096) as int, data@),
                )
                &&& !r ==> final(self).pool().memory@ == mem
            }),
    {
        let vpn = crate::memory_set::va_floor(va);
        let offset = va % 4096;
        let ppn = match self.tasks[pid].as_ref().unwrap().memory_set.translate(vpn) {
            None => {
                return false;
            },
            Some(pte) => {
                if !pte.is_valid() {
                    return false;
                }
                proof {
                    assert(self.task(pid as int).memory_set.mapping()[vpn] == pte);
                }
                pte.ppn()
            },
        };
        if !self.pool.memory.contains(ppn) || data.len() > 4096 - offset {
            return false;
        }
        self.pool.memory.write_bytes(ppn, offset, data, 0, data.len());
        proof {
            assert(data@.subrange(0, data@.len() as int) =~= data@);
            assert(self.pool.memory@.dom() =~= old(self).pool.memory@.dom());
            let k0 = *old(self);
            assert forall|p: int| #[trigger] k0.has(p) implies k0.task(p).memory_set.frames().subset_of(self.pool.live()) by {}
            assert forall|p: int| #[trigger] k0.has(p) implies k0.task(p).memory_set.frames().disjoint(self.kernel_space.frames()) by {}
            Self::lemma_wf_frames_moved(k0, *self);
        }
        true
    }

    /// Frames left to allocate.
    pub fn pool_ref(&self) -> (r: &FramePool)
        ensures
            *r == self.pool(),
    {
        &self.pool
    }

    /// The task with pid `pid`, if it exists.
    pub fn task_ref(&self, pid: usize) -> (r: Option<&TaskControlBlock>)
        ensures
            pid < self.tasks().len() && self.tasks()[pid as int] is Some ==> r == Some(&self.task(pid as int)),
            !(pid < self.tasks().len() && self.tasks()[pid as int] is Some) ==> r is None,
    {
        if pid < self.tasks.len() {
            self.tasks[pid].as_ref()
        } else {
            None
        }
    }
}

} // verus!

verus! {

/// If child number `j` of `parent` matches `pid` and is a zombie, then
/// `waitpid(pid)` from `parent` reaps a child at or before position `j`.
pub proof fn lemma_first_zombie_exists(k: Kernel, parent: int, pid: isize, j: int)
    requires
        0 <= j < k.task(parent).children@.len(),
        k.zombie_match(pid, k.task(parent).children@[j]),
    ensures
        exists|i: int| i <= j && #[trigger] k.first_zombie_at(parent, pid, i),
    decreases j,
{
    let ch = k.task(parent).children@;
    if forall|x: int| 0 <= x < j ==> !k.zombie_match(pid, #[trigger] ch[x]) {
        assert(k.first_zombie_at(parent, pid, j));
    } else {
        let x = choose|x: int| 0 <= x < j && k.zombie_match(pid, #[trigger] ch[x]);
        lemma_first_zombie_exists(k, parent, pid, x);
    }
}

/// Orphans are reaped by the root: `exit_current` makes every child of the
/// exiting task a child of the root; whenever a child of the root is a
/// zombie, a wildcard `waitpid` from the root reaps it or a child before it
/// in the root's list, so it is reaped within as many waits as its position
/// plus one.
pub proof fn lemma_orphan_reaped_by_root(after: Kernel, j: int)
    requires
        after.wf(),
        after.has(INITPROC_PID as int),
        0 <= j < after.task(INITPROC_PID as int).children@.len(),
        after.task(after.task(INITPROC_PID as int).children@[j] as int).task_status == TaskStatus::Zombie,
    ensures
        exists|i: int| i <= j && #[trigger] after.first_zombie_at(INITPROC_PID as int, -1isize, i),
{
    let root = INITPROC_PID as int;
    let c = after.task(root).children@[j];
    assert(after.has(c as int));
    lemma_first_zombie_exists(after, root, -1isize, j);
}

} // verus!
