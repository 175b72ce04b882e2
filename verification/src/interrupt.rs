//! Trap frames and interrupt classification: the saved register state
//! a task enters the kernel with, and the meaning of each vector.

use vstd::prelude::*;

verus! {

/// Code segment selector user code runs with.
pub const SEG_UCODE: u16 = 0x1b;

/// Data segment selector user code runs with.
pub const SEG_UDATA: u16 = 0x23;

/// First vector the interrupt controllers are remapped to.
pub const IRQ_BASE: u8 = 0x20;

/// The RFLAGS interrupt-enable bit.
pub const RFLAGS_IF: u64 = 0x200;

/// General-purpose registers as the entry stubs push them.
#[derive(Clone, Copy, PartialEq, Eq, Structural, Debug)]
pub struct Registers {
    pub r15: u64,
    pub r14: u64,
    pub r13: u64,
    pub r12: u64,
    pub r11: u64,
    pub r10: u64,
    pub r9: u64,
    pub r8: u64,
    pub rdi: u64,
    pub rsi: u64,
    pub rbp: u64,
    pub rbx: u64,
    pub rdx: u64,
    pub rcx: u64,
    pub rax: u64,
}

/// `f` with its result register replaced by `w`, as a syscall return
/// writes it.
pub open spec fn with_rax(f: TrapFrame, w: u64) -> TrapFrame {
    TrapFrame { regs: Registers { rax: w, ..f.regs }, ..f }
}

/// All registers zero.
pub open spec fn zero_regs() -> Registers {
    Registers {
        r15: 0, r14: 0, r13: 0, r12: 0, r11: 0, r10: 0, r9: 0, r8: 0,
        rdi: 0, rsi: 0, rbp: 0, rbx: 0, rdx: 0, rcx: 0, rax: 0,
    }
}

impl Registers {
    /// All registers zero.
    pub fn zeroed() -> (r: Registers)
        ensures
            r == zero_regs(),
    {
        Registers {
            r15: 0, r14: 0, r13: 0, r12: 0, r11: 0, r10: 0, r9: 0, r8: 0,
            rdi: 0, rsi: 0, rbp: 0, rbx: 0, rdx: 0, rcx: 0, rax: 0,
        }
    }
}

/// Everything the CPU and the entry stub save when a task traps.
#[derive(Clone, Copy, PartialEq, Eq, Structural, Debug)]
pub struct TrapFrame {
    pub regs: Registers,
    pub interrupt_vector: u64,
    pub error_code: u64,
    pub rip: u64,
    pub cs: u64,
    pub rflags: u64,
    pub rsp: u64,
    pub ss: u64,
}

/// The meaning of a trap vector.
#[derive(Clone, Copy, PartialEq, Eq, Structural, Debug)]
pub enum Interrupt {
    PageFault,
    Syscall,
    Irq(u8),
    Exception(u8),
    Other(u8),
}

/// Classifies a vector number.
pub open spec fn interrupt_of(vector: u8) -> Interrupt {
    if vector == 0x0e {
        Interrupt::PageFault
    } else if vector == 0x7f {
        Interrupt::Syscall
    } else if vector < 0x20 {
        Interrupt::Exception(vector)
    } else if vector < 0x30 {
        Interrupt::Irq((vector - 0x20) as u8)
    } else {
        Interrupt::Other(vector)
    }
}

impl TrapFrame {
    /// A fresh user frame: empty registers, user segments, interrupts
    /// enabled, entry at `rip` with stack `rsp`.
    pub open spec fn new_spec(rip: u64, rsp: u64) -> TrapFrame {
        TrapFrame {
            regs: zero_regs(),
            interrupt_vector: 0,
            error_code: 0,
            rip,
            cs: SEG_UCODE as u64,
            rflags: RFLAGS_IF,
            rsp,
            ss: SEG_UDATA as u64,
        }
    }

    /// A fresh user frame: empty registers, user segments, interrupts
    /// enabled, entry at `rip` with stack `rsp`.
    pub fn new(rip: u64, rsp: u64) -> (r: TrapFrame)
        ensures
            r == TrapFrame::new_spec(rip, rsp),
            r.rip == rip,
            r.rsp == rsp,
    {
        TrapFrame {
            regs: Registers::zeroed(),
            interrupt_vector: 0,
            error_code: 0,
            rip,
            cs: SEG_UCODE as u64,
            rflags: RFLAGS_IF,
            rsp,
            ss: SEG_UDATA as u64,
        }
    }

    /// The meaning of the vector this frame trapped with.
    pub fn interrupt(&self) -> (r: Interrupt)
        ensures
            r == interrupt_of((self.interrupt_vector & 0xff) as u8),
    {
        let vector = (self.interrupt_vector & 0xff) as u8;
        proof {
            let iv = self.interrupt_vector;
            assert(iv & 0xff < 256) by (bit_vector);
        }
        if vector == 0x0e {
            Interrupt::PageFault
        } else if vector == 0x7f {
            Interrupt::Syscall
        } else if vector < 0x20 {
            Interrupt::Exception(vector)
        } else if vector < 0x30 {
            Interrupt::Irq(vector - 0x20)
        } else {
            Interrupt::Other(vector)
        }
    }
}

} // verus!
