use vstd::prelude::*;

verus! {

/// Size of a user stack in bytes.
pub const USER_STACK_SIZE: usize = 8192;
/// Size of a kernel stack in bytes.
pub const KERNEL_STACK_SIZE: usize = 8192;
/// Size of a page (and of a physical frame) in bytes.
pub const PAGE_SIZE: usize = 4096;
/// Number of bits of the offset inside a page.
pub const PAGE_SIZE_BITS: usize = 12;
/// End of physical memory.
pub const MEMORY_END: usize = 0x8080_0000;
/// The trampoline page sits at the very top of the virtual range.
pub const TRAMPOLINE: usize = usize::MAX - PAGE_SIZE + 1;
/// The trap-context page sits right below the trampoline.
pub const TRAP_CONTEXT: usize = TRAMPOLINE - PAGE_SIZE;

/// Largest slot number whose kernel stack still fits below the trampoline.
pub open spec fn max_app_id() -> int {
    (TRAMPOLINE as int - KERNEL_STACK_SIZE as int) / (KERNEL_STACK_SIZE as int + PAGE_SIZE as int)
}

/// Top of the kernel stack of slot `app_id`.
pub open spec fn kernel_stack_top(app_id: usize) -> int {
    TRAMPOLINE - app_id * (KERNEL_STACK_SIZE + PAGE_SIZE)
}

/// Returns (bottom, top) of the kernel stack of slot `app_id`: stacks grow
/// downward from the trampoline, each followed by an unmapped guard page.
pub fn kernel_stack_position(app_id: usize) -> (r: (usize, usize))
    requires
        app_id <= max_app_id(),
    ensures
        r.1 == kernel_stack_top(app_id),
        r.0 == r.1 - KERNEL_STACK_SIZE,
{
    assert(app_id * (KERNEL_STACK_SIZE + PAGE_SIZE) <= TRAMPOLINE - KERNEL_STACK_SIZE) by (nonlinear_arith)
        requires
            app_id <= (TRAMPOLINE as int - KERNEL_STACK_SIZE as int) / (KERNEL_STACK_SIZE as int + PAGE_SIZE as int),
            TRAMPOLINE >= KERNEL_STACK_SIZE;
    let top = TRAMPOLINE - app_id * (KERNEL_STACK_SIZE + PAGE_SIZE);
    let bottom = top - KERNEL_STACK_SIZE;
    (bottom, top)
}

} // verus!
