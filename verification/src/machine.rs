//! The semantics of the emulator: one step of a stack machine with a byte
//! memory, over linked operations.
use vstd::prelude::*;
use crate::operation::{Operation, OpView, ops_view};

verus! {

/// Size in bytes of the memory that `mem` points to.
pub const MEM_BUFFER_SIZE: usize = 640000;

/// The address that `mem` pushes in the emulator: the first byte of its memory.
pub const MEM_BASE: u64 = 0x0060_0000;

/// Something the emulated program asks of the world outside the machine.
#[derive(PartialEq, Eq, Debug, Clone, Copy)]
pub enum Event {
    /// Print the number (`dump`).
    Dump(u64),
    /// Perform a system call with three arguments.
    Syscall { number: u64, arg1: u64, arg2: u64, arg3: u64 },
}

/// What one step of emulation did.
#[derive(PartialEq, Eq, Debug, Clone, Copy)]
pub enum StepResult {
    /// An operation ran and nothing outside the machine is asked for.
    Continue,
    /// An operation ran and asks for the event.
    Output(Event),
    /// The position is past the last operation: the program has ended.
    Halted,
}

/// Why emulation stopped on a fault.
#[derive(PartialEq, Eq, Debug, Clone, Copy)]
pub enum EmulationError {
    /// An operation needed more values than the stack holds.
    StackUnderflow,
    /// Division or remainder by zero.
    DivisionByZero,
    /// A load or store outside the emulated memory. An address is refused
    /// exactly when some byte it names lies outside; there is no separate
    /// refusal of addresses whose low byte is zero (`mem` itself ends in one).
    InvalidAddress(u64),
    /// An operation the emulator does not implement (string literals).
    Unsupported,
    /// A system call with another number of arguments than three.
    SyscallArity(usize),
}

/// The state of the emulator.
pub struct Machine {
    pub pc: int,
    pub stack: Seq<u64>,
    pub mem: Seq<u8>,
}

/// Addition modulo 2^64.
pub open spec fn wrap_add(a: u64, b: u64) -> u64 {
    ((a as int + b as int) % 0x1_0000_0000_0000_0000) as u64
}

/// Subtraction modulo 2^64.
pub open spec fn wrap_sub(a: u64, b: u64) -> u64 {
    ((a as int - b as int) % 0x1_0000_0000_0000_0000) as u64
}

/// The sum of a sequence of numbers, as an integer.
pub open spec fn int_sum(s: Seq<u64>) -> int
    decreases s.len(),
{
    if s.len() == 0 {
        0
    } else {
        int_sum(s.drop_last()) + s.last() as int
    }
}

/// Whether `addr` names a byte of a memory of `len` bytes.
pub open spec fn in_memory(addr: u64, len: nat) -> bool {
    MEM_BASE <= addr && addr - MEM_BASE < len
}

/// The `n` bytes of `v`, least significant first (the low `n` bytes of
/// `to_le_bytes`).
pub open spec fn le_bytes(v: nat, n: nat) -> Seq<u8>
    decreases n,
{
    if n == 0 {
        Seq::empty()
    } else {
        seq![(v % 256) as u8] + le_bytes(v / 256, (n - 1) as nat)
    }
}

/// The number whose bytes, least significant first, are `b`.
pub open spec fn le_value(b: Seq<u8>) -> nat
    decreases b.len(),
{
    if b.len() == 0 {
        0
    } else {
        b[0] as nat + 256 * le_value(b.drop_first())
    }
}

/// 256 to the power `m`.
pub open spec fn pow256(m: nat) -> nat
    decreases m,
{
    if m == 0 {
        1
    } else {
        256 * pow256((m - 1) as nat)
    }
}

/// `mem` with the bytes `b` written from position `off` on.
pub open spec fn write_at(mem: Seq<u8>, off: int, b: Seq<u8>) -> Seq<u8> {
    Seq::new(mem.len(), |i: int| if off <= i < off + b.len() { b[i - off] } else { mem[i] })
}

/// Whether the `n` bytes from `addr` on all lie in a memory of `len` bytes.
pub open spec fn wide_in_memory(addr: u64, n: nat, len: nat) -> bool {
    MEM_BASE <= addr && addr - MEM_BASE + n <= len
}

/// The number of bytes a wide load or store moves: 8 for `!64` and `@64`,
/// 4 for `!32` and `@32`.
pub open spec fn width(op: OpView) -> nat {
    if op is Store64 || op is Load64 {
        8
    } else {
        4
    }
}

/// The effect of an operation that does not move control:
/// the new stack and memory and the event asked for, or a fault.
pub open spec fn apply(op: OpView, stack: Seq<u64>, mem: Seq<u8>) -> Result<
    (Seq<u64>, Seq<u8>, Option<Event>),
    EmulationError,
> {
    let n = stack.len();
    let top = stack.last();
    let below = stack[n - 2];
    let rest1 = stack.drop_last();
    let rest2 = stack.take(n - 2);
    match op {
        OpView::Push(v) => Ok((stack.push(v), mem, None)),
        OpView::Plus { depth } => if n <= depth {
            Err(EmulationError::StackUnderflow)
        } else {
            let k = depth + 1;
            Ok((stack.take(n - k).push((int_sum(stack.skip(n - k)) % 0x1_0000_0000_0000_0000) as u64), mem, None))
        },
        OpView::Inc => if n < 1 {
            Err(EmulationError::StackUnderflow)
        } else {
            Ok((rest1.push(wrap_add(top, 1)), mem, None))
        },
        OpView::Dec => if n < 1 {
            Err(EmulationError::StackUnderflow)
        } else {
            Ok((rest1.push(wrap_sub(top, 1)), mem, None))
        },
        OpView::Not => if n < 1 {
            Err(EmulationError::StackUnderflow)
        } else {
            Ok((rest1.push(!top), mem, None))
        },
        OpView::Minus => if n < 2 {
            Err(EmulationError::StackUnderflow)
        } else {
            Ok((rest2.push(wrap_sub(below, top)), mem, None))
        },
        OpView::Div => if n < 2 {
            Err(EmulationError::StackUnderflow)
        } else if top == 0 {
            Err(EmulationError::DivisionByZero)
        } else {
            Ok((rest2.push(below / top), mem, None))
        },
        OpView::Mod => if n < 2 {
            Err(EmulationError::StackUnderflow)
        } else if top == 0 {
            Err(EmulationError::DivisionByZero)
        } else {
            Ok((rest2.push(below % top), mem, None))
        },
        OpView::Equals => if n < 2 {
            Err(EmulationError::StackUnderflow)
        } else {
            Ok((rest2.push(if below == top { 1u64 } else { 0u64 }), mem, None))
        },
        OpView::NotEqual => if n < 2 {
            Err(EmulationError::StackUnderflow)
        } else {
            Ok((rest2.push(if below != top { 1u64 } else { 0u64 }), mem, None))
        },
        OpView::Greater => if n < 2 {
            Err(EmulationError::StackUnderflow)
        } else {
            Ok((rest2.push(if below > top { 1u64 } else { 0u64 }), mem, None))
        },
        OpView::Lower => if n < 2 {
            Err(EmulationError::StackUnderflow)
        } else {
            Ok((rest2.push(if below < top { 1u64 } else { 0u64 }), mem, None))
        },
        OpView::BitAnd => if n < 2 {
            Err(EmulationError::StackUnderflow)
        } else {
            Ok((rest2.push(below & top), mem, None))
        },
        OpView::BitOr => if n < 2 {
            Err(EmulationError::StackUnderflow)
        } else {
            Ok((rest2.push(below | top), mem, None))
        },
        OpView::BitShiftLeft => if n < 2 {
            Err(EmulationError::StackUnderflow)
        } else {
            Ok((rest2.push(if top >= 64 { 0u64 } else { below << top }), mem, None))
        },
        OpView::BitShiftRight => if n < 2 {
            Err(EmulationError::StackUnderflow)
        } else {
            Ok((rest2.push(if top >= 64 { 0u64 } else { below >> top }), mem, None))
        },
        OpView::Dump => if n < 1 {
            Err(EmulationError::StackUnderflow)
        } else {
            Ok((rest1, mem, Some(Event::Dump(top))))
        },
        OpView::Dup { depth } => if n >= depth && depth == 1 {
            Ok((stack.push(top), mem, None))
        } else if n >= depth && depth == 2 {
            Ok((stack.push(below).push(top), mem, None))
        } else {
            Ok((stack, mem, None))
        },
        // The two values are popped and pushed back in the order they had.
        OpView::Swap => Ok((stack, mem, None)),
        OpView::Over => if n > 1 {
            Ok((stack.push(below), mem, None))
        } else {
            Ok((stack, mem, None))
        },
        OpView::Rot => if n > 2 {
            Ok((stack.take(n - 3).push(below).push(top).push(stack[n - 3]), mem, None))
        } else {
            Ok((stack, mem, None))
        },
        OpView::Drop => if n > 0 {
            Ok((rest1, mem, None))
        } else {
            Ok((stack, mem, None))
        },
        OpView::Mem => Ok((stack.push(MEM_BASE), mem, None)),
        OpView::Store => if n < 2 {
            Err(EmulationError::StackUnderflow)
        } else if !in_memory(below, mem.len()) {
            Err(EmulationError::InvalidAddress(below))
        } else {
            Ok((rest2, mem.update(below - MEM_BASE, top as u8), None))
        },
        OpView::Load => if n < 1 {
            Err(EmulationError::StackUnderflow)
        } else if !in_memory(top, mem.len()) {
            Err(EmulationError::InvalidAddress(top))
        } else {
            Ok((rest1.push(mem[top - MEM_BASE] as u64), mem, None))
        },
        OpView::Syscall { arg_count } => if n <= arg_count {
            Err(EmulationError::StackUnderflow)
        } else if arg_count != 3 {
            Err(EmulationError::SyscallArity(arg_count))
        } else {
            Ok((
                stack.take(n - 4),
                mem,
                Some(Event::Syscall { number: top, arg1: below, arg2: stack[n - 3], arg3: stack[n - 4] }),
            ))
        },
        // A wide store writes the value's low bytes, least significant first.
        OpView::Store32 | OpView::Store64 => if n < 2 {
            Err(EmulationError::StackUnderflow)
        } else if !wide_in_memory(below, width(op), mem.len()) {
            Err(EmulationError::InvalidAddress(below))
        } else {
            Ok((rest2, write_at(mem, below - MEM_BASE, le_bytes(top as nat, width(op))), None))
        },
        // A wide load pushes the number whose bytes, least significant first, it reads.
        OpView::Load32 | OpView::Load64 => if n < 1 {
            Err(EmulationError::StackUnderflow)
        } else if !wide_in_memory(top, width(op), mem.len()) {
            Err(EmulationError::InvalidAddress(top))
        } else {
            Ok((
                rest1.push(le_value(mem.subrange(top - MEM_BASE, top - MEM_BASE + width(op))) as u64),
                mem,
                None,
            ))
        },
        OpView::String(_) => Err(EmulationError::Unsupported),
        _ => Ok((stack, mem, None)),
    }
}

/// Whether an operation moves control (and so is not covered by [`apply`]).
pub open spec fn is_control(op: OpView) -> bool {
    ||| op is If
    ||| op is Else
    ||| op is Do
    ||| op is End
}

/// The position after a jump to `address` in a program of `len` operations:
/// the operation after `address`, or the end when `address` is past the end.
pub open spec fn after(address: usize, len: nat) -> int {
    if address < len { address + 1 } else { len as int }
}

/// Whether the `end` at position `e` closes a loop: some `do` jumps past it.
pub open spec fn closes_loop(ops: Seq<OpView>, e: int) -> bool {
    exists|j: int| 0 <= j < ops.len() && #[trigger] ops[j] == (OpView::Do { address: e as usize })
}

/// Whether the `end` at position `e` closes the loop whose `while` is the
/// first operation. Its address is then zero, as that of an `end` closing an
/// `if`, and it is told apart by the `do` that jumps past it.
pub open spec fn returns_to_start(ops: Seq<OpView>, e: int) -> bool {
    &&& ops.len() > 0
    &&& ops[0] is While
    &&& closes_loop(ops, e)
}

/// Whether the `end` at position `e` closes the loop that starts the program.
pub fn returns_to_start_exec(ops: &Vec<Operation>, e: usize) -> (b: bool)
    ensures
        b == returns_to_start(ops_view(ops@), e as int),
{
    let ghost v = ops_view(ops@);
    if ops.len() == 0 {
        return false;
    }
    assert(v[0] == ops@[0]@);
    if !matches!(ops[0], Operation::While) {
        return false;
    }
    assert(v[0] is While);
    let mut j: usize = 0;
    while j < ops.len()
        invariant
            j <= ops.len(),
            v == ops_view(ops@),
            v.len() > 0 && v[0] is While,
            forall|k: int| 0 <= k < j ==> v[k] != (OpView::Do { address: e }),
        decreases ops.len() - j,
    {
        assert(v[j as int] == ops@[j as int]@);
        if let Operation::Do { address } = &ops[j] {
            if *address == e {
                assert(v[j as int] == (OpView::Do { address: (e as int) as usize }));
                assert(closes_loop(v, e as int));
                assert(v[0] is While);
                return true;
            }
        }
        j += 1;
    }
    false
}

/// One step of the emulator over the program `ops`.
pub open spec fn step_spec(ops: Seq<OpView>, m: Machine) -> (Machine, Result<StepResult, EmulationError>) {
    let len = ops.len();
    if !(0 <= m.pc < len) {
        (m, Ok(StepResult::Halted))
    } else {
        let next = Machine { pc: m.pc + 1, ..m };
        match ops[m.pc] {
            OpView::If { address } | OpView::Do { address } => if m.stack.len() < 1 {
                (m, Err(EmulationError::StackUnderflow))
            } else if m.stack.last() == 0 {
                (Machine { pc: after(address, len), stack: m.stack.drop_last(), mem: m.mem }, Ok(StepResult::Continue))
            } else {
                (Machine { pc: m.pc + 1, stack: m.stack.drop_last(), mem: m.mem }, Ok(StepResult::Continue))
            },
            OpView::Else { address } => (Machine { pc: after(address, len), ..m }, Ok(StepResult::Continue)),
            OpView::End { address } => if address > 0 {
                (Machine { pc: address as int, ..m }, Ok(StepResult::Continue))
            } else if returns_to_start(ops, m.pc) {
                (Machine { pc: 0, ..m }, Ok(StepResult::Continue))
            } else {
                (next, Ok(StepResult::Continue))
            },
            op => match apply(op, m.stack, m.mem) {
                Ok((stack, mem, ev)) => (
                    Machine { pc: m.pc + 1, stack, mem },
                    Ok(match ev {
                        Some(e) => StepResult::Output(e),
                        None => StepResult::Continue,
                    }),
                ),
                Err(e) => (m, Err(e)),
            },
        }
    }
}

/// Moving the top of a stack onto a sum of the values above position `j`.
pub proof fn lemma_int_sum_split(s: Seq<u64>, j: int)
    requires
        0 <= j < s.len(),
    ensures
        int_sum(s.skip(j)) == s[j] as int + int_sum(s.skip(j + 1)),
    decreases s.len() - j,
{
    if j + 1 < s.len() {
        lemma_int_sum_split(s.drop_last(), j);
        assert(s.skip(j).drop_last() =~= s.drop_last().skip(j));
        assert(s.skip(j + 1).drop_last() =~= s.drop_last().skip(j + 1));
    } else {
        assert(s.skip(j).drop_last() =~= Seq::<u64>::empty());
        assert(s.skip(j + 1) =~= Seq::<u64>::empty());
    }
}

fn pop_top(stack: &mut Vec<u64>) -> (v: u64)
    requires
        old(stack)@.len() > 0,
    ensures
        v == old(stack)@.last(),
        final(stack)@ == old(stack)@.drop_last(),
{
    stack.pop().unwrap()
}

proof fn lemma_le_bytes_len(v: nat, n: nat)
    ensures
        le_bytes(v, n).len() == n,
    decreases n,
{
    if n > 0 {
        lemma_le_bytes_len(v / 256, (n - 1) as nat);
    }
}

/// Powers of 256 up to the seventh stay within 2^56.
proof fn lemma_pow256_small(m: nat)
    requires
        m <= 7,
    ensures
        pow256(m) <= 0x100_0000_0000_0000,
    decreases 7 - m,
{
    if m < 7 {
        lemma_pow256_small(m + 1);
        assert(pow256(m + 1) == 256 * pow256(m));
    } else {
        reveal_with_fuel(pow256, 8);
    }
}

/// Writes the `n` low bytes of `v`, least significant first, from `off` on.
fn store_wide(mem: &mut Vec<u8>, off: usize, v: u64, n: usize)
    requires
        off + n <= old(mem)@.len(),
    ensures
        final(mem)@ == write_at(old(mem)@, off as int, le_bytes(v as nat, n as nat)),
{
    let ghost m0 = mem@;
    let ghost all = le_bytes(v as nat, n as nat);
    let ghost mut done: Seq<u8> = Seq::empty();
    let mut x = v;
    let mut k: usize = 0;
    proof {
        lemma_le_bytes_len(v as nat, n as nat);
        assert(all =~= done + le_bytes(x as nat, (n - k) as nat));
    }
    while k < n
        invariant
            k <= n,
            off + n <= m0.len(),
            off + n <= mem.len(),
            mem@.len() == m0.len(),
            done.len() == k,
            all == le_bytes(v as nat, n as nat),
            all == done + le_bytes(x as nat, (n - k) as nat),
            forall|i: int| 0 <= i < m0.len() ==> mem@[i] == if off <= i < off + k { done[i - off] } else { m0[i] },
        decreases n - k,
    {
        let b = (x % 256) as u8;
        mem.set(off + k, b);
        proof {
            assert(le_bytes(x as nat, (n - k) as nat) == seq![b] + le_bytes((x / 256) as nat, (n - k - 1) as nat));
            let d0 = done;
            done = done.push(b);
            assert(all =~= done + le_bytes((x / 256) as nat, (n - k - 1) as nat)) by {
                assert(d0 + (seq![b] + le_bytes((x / 256) as nat, (n - k - 1) as nat)) =~= d0.push(b) + le_bytes(
                    (x / 256) as nat,
                    (n - k - 1) as nat,
                ));
            }
        }
        x = x / 256;
        k += 1;
    }
    proof {
        assert(le_bytes(x as nat, 0) =~= Seq::<u8>::empty());
        assert(done =~= all);
        assert(mem@ =~= write_at(m0, off as int, all));
    }
}

/// Reads the number whose `n` bytes, least significant first, start at `off`.
fn load_wide(mem: &Vec<u8>, off: usize, n: usize) -> (v: u64)
    requires
        off + n <= mem@.len(),
        n <= 8,
    ensures
        v as nat == le_value(mem@.subrange(off as int, off + n)),
{
    let mut acc: u64 = 0;
    let mut k: usize = n;
    assert(mem@.subrange(off + n, off + n) =~= Seq::<u8>::empty());
    while k > 0
        invariant
            k <= n <= 8,
            off + n <= mem.len(),
            acc as nat == le_value(mem@.subrange(off + k, off + n)),
            acc < pow256((n - k) as nat),
        decreases k,
    {
        let b = mem[off + k - 1];
        let ghost p = pow256((n - k) as nat);
        proof {
            let sub = mem@.subrange(off + k - 1, off + n);
            assert(sub[0] == b);
            assert(sub.drop_first() =~= mem@.subrange(off + k, off + n));
            lemma_pow256_small((n - k) as nat);
            assert(acc * 256 + b < p * 256) by (nonlinear_arith)
                requires
                    acc < p,
                    b < 256,
            ;
            assert(acc * 256 + b <= 0xffff_ffff_ffff_ffff) by (nonlinear_arith)
                requires
                    acc < p,
                    p <= 0x100_0000_0000_0000,
                    b < 256,
            ;
            assert(pow256((n - k + 1) as nat) == 256 * p);
        }
        acc = acc * 256 + b as u64;
        k -= 1;
    }
    acc
}

/// Runs an operation that does not move control on the stack and memory.
pub fn apply_exec(op: &Operation, stack: &mut Vec<u64>, mem: &mut Vec<u8>) -> (r: Result<Option<Event>, EmulationError>)
    requires
        !is_control(op@),
    ensures
        match apply(op@, old(stack)@, old(mem)@) {
            Ok((s, m, e)) => r == Ok::<Option<Event>, EmulationError>(e) && final(stack)@ == s && final(mem)@ == m,
            Err(e) => r == Err::<Option<Event>, EmulationError>(e) && final(stack)@ == old(stack)@ && final(mem)@ == old(mem)@,
        },
{
    let n = stack.len();
    let ghost st = stack@;
    match op {
        Operation::Push(v) => {
            stack.push(*v);
            Ok(None)
        },
        Operation::Plus { depth } => {
            if n <= *depth {
                return Err(EmulationError::StackUnderflow);
            }
            let mut acc = pop_top(stack);
            let mut i: usize = 0;
            proof {
                lemma_int_sum_split(st, n - 1);
                assert(st.skip(n as int) =~= Seq::<u64>::empty());
                assert(acc as int % 0x1_0000_0000_0000_0000 == acc);
            }
            while i < *depth
                invariant
                    i <= *depth < n,
                    n == st.len(),
                    stack@ == st.take(n - 1 - i),
                    acc as int == int_sum(st.skip(n - 1 - i)) % 0x1_0000_0000_0000_0000,
                decreases *depth - i,
            {
                let x = pop_top(stack);
                proof {
                    let j = n - 2 - i;
                    lemma_int_sum_split(st, j);
                    assert(x == st[j]);
                    vstd::arithmetic::div_mod::lemma_add_mod_noop_right(x as int, int_sum(st.skip(j + 1)), 0x1_0000_0000_0000_0000);
                    assert(stack@ =~= st.take(j));
                }
                acc = acc.wrapping_add(x);
                i += 1;
            }
            stack.push(acc);
            proof {
                assert(stack@ =~= st.take(n - (*depth + 1)).push((int_sum(st.skip(n - (*depth + 1))) % 0x1_0000_0000_0000_0000) as u64));
            }
            Ok(None)
        },
        Operation::Inc => {
            if n < 1 {
                return Err(EmulationError::StackUnderflow);
            }
            let a = pop_top(stack);
            stack.push(a.wrapping_add(1));
            Ok(None)
        },
        Operation::Dec => {
            if n < 1 {
                return Err(EmulationError::StackUnderflow);
            }
            let a = pop_top(stack);
            stack.push(a.wrapping_sub(1));
            Ok(None)
        },
        Operation::Not => {
            if n < 1 {
                return Err(EmulationError::StackUnderflow);
            }
            let a = pop_top(stack);
            stack.push(!a);
            Ok(None)
        },
        Operation::Dump => {
            if n < 1 {
                return Err(EmulationError::StackUnderflow);
            }
            let a = pop_top(stack);
            Ok(Some(Event::Dump(a)))
        },
        Operation::Minus | Operation::Div | Operation::Mod | Operation::Equals | Operation::NotEqual
        | Operation::Greater | Operation::Lower | Operation::BitAnd | Operation::BitOr
        | Operation::BitShiftLeft | Operation::BitShiftRight => {
            if n < 2 {
                return Err(EmulationError::StackUnderflow);
            }
            let b = stack[n - 1];
            let a = stack[n - 2];
            let v = match op {
                Operation::Minus => a.wrapping_sub(b),
                Operation::Div => {
                    if b == 0 {
                        return Err(EmulationError::DivisionByZero);
                    }
                    a / b
                },
                Operation::Mod => {
                    if b == 0 {
                        return Err(EmulationError::DivisionByZero);
                    }
                    a % b
                },
                Operation::Equals => if a == b { 1 } else { 0 },
                Operation::NotEqual => if a != b { 1 } else { 0 },
                Operation::Greater => if a > b { 1 } else { 0 },
                Operation::Lower => if a < b { 1 } else { 0 },
                Operation::BitAnd => a & b,
                Operation::BitOr => a | b,
                Operation::BitShiftLeft => if b >= 64 { 0 } else { a << b },
                _ => if b >= 64 { 0 } else { a >> b },
            };
            pop_top(stack);
            pop_top(stack);
            stack.push(v);
            proof {
                assert(stack@ =~= st.take(n - 2).push(v));
            }
            Ok(None)
        },
        Operation::Dup { depth } => {
            if n >= *depth {
                if *depth == 1 {
                    let t = stack[n - 1];
                    stack.push(t);
                } else if *depth == 2 {
                    let v1 = pop_top(stack);
                    let v2 = pop_top(stack);
                    stack.push(v2);
                    stack.push(v1);
                    stack.push(v2);
                    stack.push(v1);
                    proof {
                        assert(stack@ =~= st.push(st[n - 2]).push(st[n - 1]));
                    }
                }
            }
            Ok(None)
        },
        Operation::Swap => {
            if n > 1 {
                let last = pop_top(stack);
                let prev = pop_top(stack);
                stack.push(prev);
                stack.push(last);
                proof {
                    assert(stack@ =~= st);
                }
            }
            Ok(None)
        },
        Operation::Over => {
            if n > 1 {
                let top = pop_top(stack);
                let over = pop_top(stack);
                stack.push(over);
                stack.push(top);
                stack.push(over);
                proof {
                    assert(stack@ =~= st.push(st[n - 2]));
                }
            }
            Ok(None)
        },
        Operation::Rot => {
            if n > 2 {
                let top = pop_top(stack);
                let middle = pop_top(stack);
                let bottom = pop_top(stack);
                stack.push(middle);
                stack.push(top);
                stack.push(bottom);
                proof {
                    assert(stack@ =~= st.take(n - 3).push(st[n - 2]).push(st[n - 1]).push(st[n - 3]));
                }
            }
            Ok(None)
        },
        Operation::Drop => {
            stack.pop();
            Ok(None)
        },
        Operation::Mem => {
            stack.push(MEM_BASE);
            Ok(None)
        },
        Operation::Store => {
            if n < 2 {
                return Err(EmulationError::StackUnderflow);
            }
            let val = stack[n - 1];
            let addr = stack[n - 2];
            if addr < MEM_BASE || addr - MEM_BASE >= mem.len() as u64 {
                return Err(EmulationError::InvalidAddress(addr));
            }
            pop_top(stack);
            pop_top(stack);
            mem.set((addr - MEM_BASE) as usize, val as u8);
            proof {
                assert(stack@ =~= st.take(n - 2));
            }
            Ok(None)
        },
        Operation::Load => {
            if n < 1 {
                return Err(EmulationError::StackUnderflow);
            }
            let addr = stack[n - 1];
            if addr < MEM_BASE || addr - MEM_BASE >= mem.len() as u64 {
                return Err(EmulationError::InvalidAddress(addr));
            }
            pop_top(stack);
            stack.push(mem[(addr - MEM_BASE) as usize] as u64);
            Ok(None)
        },
        Operation::Syscall { arg_count } => {
            if n <= *arg_count {
                return Err(EmulationError::StackUnderflow);
            }
            if *arg_count != 3 {
                return Err(EmulationError::SyscallArity(*arg_count));
            }
            let number = pop_top(stack);
            let arg1 = pop_top(stack);
            let arg2 = pop_top(stack);
            let arg3 = pop_top(stack);
            proof {
                assert(stack@ =~= st.take(n - 4));
            }
            Ok(Some(Event::Syscall { number, arg1, arg2, arg3 }))
        },
        Operation::Store32 | Operation::Store64 => {
            if n < 2 {
                return Err(EmulationError::StackUnderflow);
            }
            let w: usize = if matches!(op, Operation::Store64) { 8 } else { 4 };
            let val = stack[n - 1];
            let addr = stack[n - 2];
            if addr < MEM_BASE || addr - MEM_BASE > mem.len() as u64 || (mem.len() as u64) - (addr - MEM_BASE)
                < w as u64 {
                return Err(EmulationError::InvalidAddress(addr));
            }
            pop_top(stack);
            pop_top(stack);
            store_wide(mem, (addr - MEM_BASE) as usize, val, w);
            proof {
                assert(stack@ =~= st.take(n - 2));
            }
            Ok(None)
        },
        Operation::Load32 | Operation::Load64 => {
            if n < 1 {
                return Err(EmulationError::StackUnderflow);
            }
            let w: usize = if matches!(op, Operation::Load64) { 8 } else { 4 };
            let addr = stack[n - 1];
            if addr < MEM_BASE || addr - MEM_BASE > mem.len() as u64 || (mem.len() as u64) - (addr - MEM_BASE)
                < w as u64 {
                return Err(EmulationError::InvalidAddress(addr));
            }
            pop_top(stack);
            let v = load_wide(mem, (addr - MEM_BASE) as usize, w);
            stack.push(v);
            Ok(None)
        },
        Operation::String(_) => Err(EmulationError::Unsupported),
        _ => Ok(None),
    }
}

/// The machine made of a position, a stack and a memory.
pub open spec fn machine_of(pc: usize, stack: Seq<u64>, mem: Seq<u8>) -> Machine {
    Machine { pc: pc as int, stack, mem }
}

/// Runs one step of the program `ops` from position `pc`.
pub fn step_exec(ops: &Vec<Operation>, pc: &mut usize, stack: &mut Vec<u64>, mem: &mut Vec<u8>) -> (r:
    Result<StepResult, EmulationError>)
    ensures
        step_spec(ops_view(ops@), machine_of(*old(pc), old(stack)@, old(mem)@)) == (
        machine_of(*final(pc), final(stack)@, final(mem)@),
        r,
    ),
{
    let len = ops.len();
    if *pc >= len {
        return Ok(StepResult::Halted);
    }
    let ghost view = ops_view(ops@);
    assert(view[*pc as int] == ops@[*pc as int]@);
    let op = &ops[*pc];
    match op {
        Operation::If { address } | Operation::Do { address } => {
            if stack.len() < 1 {
                return Err(EmulationError::StackUnderflow);
            }
            let v = pop_top(stack);
            if v == 0 {
                *pc = if *address < len { *address + 1 } else { len };
            } else {
                *pc = *pc + 1;
            }
            Ok(StepResult::Continue)
        },
        Operation::Else { address } => {
            *pc = if *address < len { *address + 1 } else { len };
            Ok(StepResult::Continue)
        },
        Operation::End { address } => {
            if *address > 0 {
                *pc = *address;
            } else if returns_to_start_exec(ops, *pc) {
                *pc = 0;
            } else {
                *pc = *pc + 1;
            }
            Ok(StepResult::Continue)
        },
        _ => {
            let r = apply_exec(op, stack, mem);
            match r {
                Ok(ev) => {
                    *pc = *pc + 1;
                    match ev {
                        Some(e) => Ok(StepResult::Output(e)),
                        None => Ok(StepResult::Continue),
                    }
                },
                Err(e) => Err(e),
            }
        },
    }
}

} // verus!
