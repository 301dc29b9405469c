//! A program with its emulator state: linking, assembly output and
//! step-wise emulation.
use vstd::prelude::*;
use crate::operation::{Operation, OpView, ops_view};
use crate::codegen::{asm_text, translatable, all_translatable, first_loop_end_text, first_loop_end_x86_64};
use crate::link::{
    LinkError, LinkFault, MacroTable, collect, collect_step, expand_seq, expand_name, link, link_from,
    lookup, set_at, collect_exec, expand_seq_exec, link_exec,
};
use crate::optimize::{fold_ops, fold_step, fold_fits, fold_optimizations, lemma_fold_fits_prefix};
use crate::machine::{
    Machine, StepResult, EmulationError, step_spec, step_exec, returns_to_start, returns_to_start_exec,
    MEM_BUFFER_SIZE,
};
use crate::text::{decimal, push_decimal};
use crate::parse::{ParseError, parse_source, parse_source_spec, strings_view, lemma_parse_translatable};

verus! {

/// A parsed program, and the state of its emulation.
pub struct Program {
    operations: Vec<Operation>,
    emulation_stack: Vec<u64>,
    emulation_mem: Vec<u8>,
    opt_level: usize,
    pointer: usize,
}

/// The value of a [`Program`].
pub struct ProgramView {
    pub ops: Seq<OpView>,
    pub stack: Seq<u64>,
    pub mem: Seq<u8>,
    pub opt_level: usize,
    pub pc: usize,
}

impl View for Program {
    type V = ProgramView;

    closed spec fn view(&self) -> ProgramView {
        ProgramView {
            ops: ops_view(self.operations@),
            stack: self.emulation_stack@,
            mem: self.emulation_mem@,
            opt_level: self.opt_level,
            pc: self.pointer,
        }
    }
}

/// The emulator state of a program.
pub open spec fn machine(p: ProgramView) -> Machine {
    Machine { pc: p.pc as int, stack: p.stack, mem: p.mem }
}

/// What linking makes of a program: macros are collected and expanded,
/// arithmetic is folded when the optimisation level is above zero, and
/// control flow is linked.
pub open spec fn cross_reference_spec(ops: Seq<OpView>, opt_level: usize) -> Result<Seq<OpView>, LinkFault> {
    match collect(ops) {
        Err(e) => Err(e),
        Ok(c) => match expand_seq(c.main, c.table, c.table.len()) {
            Err(e) => Err(e),
            Ok(x) => if opt_level > 0 {
                if fold_fits(x) {
                    link(fold_ops(x))
                } else {
                    Err(LinkFault::DepthOverflow)
                }
            } else {
                link(x)
            },
        },
    }
}

/// Up to `fuel` steps of emulation, stopping early at the first step that
/// does not simply continue (an event, the end of the program or a fault).
pub open spec fn run_spec(ops: Seq<OpView>, m: Machine, fuel: nat) -> (Machine, Result<StepResult, EmulationError>)
    decreases fuel,
{
    if fuel == 0 {
        (m, Ok(StepResult::Continue))
    } else {
        let (m1, r) = step_spec(ops, m);
        if r == Ok::<StepResult, EmulationError>(StepResult::Continue) {
            run_spec(ops, m1, (fuel - 1) as nat)
        } else {
            (m1, r)
        }
    }
}

/// The text of the operation at position `i` of a program: its own text, but
/// for an `end` that closes the loop starting the program, which jumps back.
pub open spec fn op_text(ops: Seq<OpView>, i: int) -> Seq<char> {
    if ops[i] == (OpView::End { address: 0 }) && returns_to_start(ops, i) {
        first_loop_end_text(i as nat)
    } else {
        asm_text(ops[i], i as nat)
    }
}

/// The text of the first `n` operations of a program, each at its position.
pub open spec fn asm_body(ops: Seq<OpView>, n: nat) -> Seq<char>
    decreases n,
{
    if n == 0 {
        Seq::empty()
    } else {
        asm_body(ops, (n - 1) as nat) + op_text(ops, n - 1)
    }
}

/// The routine that `dump` calls: it writes the unsigned decimal digits of
/// `rdi` and a newline to standard output.
pub open spec fn dump_routine() -> Seq<char> {
    "dump:\n\tmov r9, -3689348814741910323\n\tsub rsp, 40\n\tmov BYTE [rsp+31], 10\n\tlea rcx, [rsp+30]\n.L2:\n\tmov rax, rdi\n\tlea r8, [rsp+32]\n\tmul r9\n\tmov rax, rdi\n\tsub r8, rcx\n\tshr rdx, 3\n\tlea rsi, [rdx+rdx*4]\n\tadd rsi, rsi\n\tsub rax, rsi\n\tadd eax, 48\n\tmov BYTE [rcx], al\n\tmov rdi, rdx\n\tmov rsi, rcx\n\tsub rcx, 1\n\tcmp rdx, 9\n\tja .L2\n\tlea rax, [rsp+32]\n\tmov edi, 1\n\tsub rdx, rax\n\txor eax, eax\n\tlea rsi, [rsp+32+rdx]\n\tmov rdx, r8\n\tmov rax, 1\n\tsyscall\n\tadd rsp, 40\n\tret\n\n"@
}

/// The complete assembly file for a linked program.
pub open spec fn assembly(ops: Seq<OpView>) -> Seq<char> {
    "global _start\nsection .text\n"@ + dump_routine() + "_start:\n"@ + asm_body(ops, ops.len())
        + "\tmov rax, 60\n\tmov rdi, 0\n\tsyscall\n\n"@ + "section .bss\nmem resb "@ + decimal(
        MEM_BUFFER_SIZE as nat,
    ) + "\n"@
}

impl Program {
    /// A program of the given operations, with an empty stack, zeroed
    /// memory and the emulator at the first operation.
    pub fn new(operations: Vec<Operation>, opt_level: usize) -> (p: Program)
        ensures
            p@.ops == ops_view(operations@),
            p@.stack == Seq::<u64>::empty(),
            p@.mem == Seq::new(MEM_BUFFER_SIZE as nat, |i: int| 0u8),
            p@.opt_level == opt_level,
            p@.pc == 0,
    {
        let mut mem: Vec<u8> = Vec::new();
        let mut i: usize = 0;
        while i < MEM_BUFFER_SIZE
            invariant
                i <= MEM_BUFFER_SIZE,
                mem@ == Seq::new(i as nat, |k: int| 0u8),
            decreases MEM_BUFFER_SIZE - i,
        {
            mem.push(0);
            i += 1;
            assert(mem@ =~= Seq::new(i as nat, |k: int| 0u8));
        }
        Program { operations, emulation_stack: Vec::new(), emulation_mem: mem, opt_level, pointer: 0 }
    }

    /// The program read from the main text `code` and the texts `included`
    /// of its include lines, in order, with an empty stack, zeroed memory and
    /// the emulator at the first operation.
    pub fn from_source(code: &str, included: &Vec<String>, opt_level: usize) -> (r: Result<Program, ParseError>)
        ensures
            match parse_source_spec(code@, strings_view(included@)) {
                Ok(v) => r matches Ok(p) && p@ == (ProgramView {
                    ops: v,
                    stack: Seq::empty(),
                    mem: Seq::new(MEM_BUFFER_SIZE as nat, |i: int| 0u8),
                    opt_level,
                    pc: 0,
                }),
                Err(e) => r matches Err(err) && err@ == e,
            },
            r matches Ok(p) ==> all_translatable(p@.ops),
    {
        proof {
            lemma_parse_translatable(code@, strings_view(included@));
        }
        let ops = parse_source(code, included)?;
        Ok(Program::new(ops, opt_level))
    }

    /// The operations of the program.
    pub fn operations(&self) -> (r: &Vec<Operation>)
        ensures
            ops_view(r@) == self@.ops,
    {
        &self.operations
    }

    /// The emulator's stack, bottom first.
    pub fn stack(&self) -> (r: &Vec<u64>)
        ensures
            r@ == self@.stack,
    {
        &self.emulation_stack
    }

    /// The emulator's memory.
    pub fn memory(&self) -> (r: &Vec<u8>)
        ensures
            r@ == self@.mem,
    {
        &self.emulation_mem
    }

    /// The position of the next operation the emulator runs.
    pub fn position(&self) -> (r: usize)
        ensures
            r == self@.pc,
    {
        self.pointer
    }

    /// The optimisation level.
    pub fn opt_level(&self) -> (r: usize)
        ensures
            r == self@.opt_level,
    {
        self.opt_level
    }

    /// Takes the emulator's memory out of the program, leaving it empty.
    pub fn take_memory(&mut self) -> (mem: Vec<u8>)
        ensures
            mem@ == old(self)@.mem,
            final(self)@ == (ProgramView { mem: Seq::empty(), ..old(self)@ }),
    {
        let mut mem: Vec<u8> = Vec::new();
        std::mem::swap(&mut mem, &mut self.emulation_mem);
        mem
    }

    /// Gives the emulator its memory back.
    pub fn restore_memory(&mut self, mem: Vec<u8>)
        ensures
            final(self)@ == (ProgramView { mem: mem@, ..old(self)@ }),
    {
        self.emulation_mem = mem;
    }

    /// Collects and expands macros, folds arithmetic when the optimisation
    /// level is above zero, and links control flow. On a fault the program
    /// is left as it was.
    pub fn cross_reference(&mut self) -> (r: Result<(), LinkError>)
        ensures
            match cross_reference_spec(old(self)@.ops, old(self)@.opt_level) {
                Ok(v) => r is Ok && final(self)@ == (ProgramView { ops: v, ..old(self)@ }),
                Err(e) => r matches Err(err) && err@ == e && final(self)@ == old(self)@,
            },
    {
        let (main, table) = collect_exec(&self.operations)?;
        let mut expanded: Vec<Operation> = Vec::new();
        let fuel = table.len();
        let ghost empty = ops_view(expanded@);
        assert(empty =~= Seq::<OpView>::empty());
        expand_seq_exec(&main, &table, fuel, &mut expanded)?;
        assert(ops_view(expanded@) =~= Seq::<OpView>::empty() + ops_view(expanded@));
        let mut linked = if self.opt_level > 0 {
            if !fold_fits_exec(&expanded) {
                return Err(LinkError::DepthOverflow);
            }
            fold_optimizations(expanded)
        } else {
            expanded
        };
        link_exec(&mut linked)?;
        self.operations = linked;
        Ok(())
    }
}

impl Program {
    /// Links the program (see [`Program::cross_reference`]) and returns its
    /// NASM x86-64 assembly: the entry point, each operation in order, an exit
    /// system call and the memory buffer behind `mem`.
    pub fn compile(&mut self) -> (r: Result<String, LinkError>)
        requires
            all_translatable(old(self)@.ops),
        ensures
            match cross_reference_spec(old(self)@.ops, old(self)@.opt_level) {
                Ok(v) => r matches Ok(text) && text@ == assembly(v) && final(self)@ == (ProgramView {
                    ops: v,
                    ..old(self)@
                }),
                Err(e) => r matches Err(err) && err@ == e && final(self)@ == old(self)@,
            },
    {
        proof {
            lemma_cross_reference_translatable(old(self)@.ops, old(self)@.opt_level);
        }
        self.cross_reference()?;
        let mut code = String::new();
        code.append("global _start\nsection .text\n");
        code.append("dump:\n\tmov r9, -3689348814741910323\n\tsub rsp, 40\n\tmov BYTE [rsp+31], 10\n\tlea rcx, [rsp+30]\n.L2:\n\tmov rax, rdi\n\tlea r8, [rsp+32]\n\tmul r9\n\tmov rax, rdi\n\tsub r8, rcx\n\tshr rdx, 3\n\tlea rsi, [rdx+rdx*4]\n\tadd rsi, rsi\n\tsub rax, rsi\n\tadd eax, 48\n\tmov BYTE [rcx], al\n\tmov rdi, rdx\n\tmov rsi, rcx\n\tsub rcx, 1\n\tcmp rdx, 9\n\tja .L2\n\tlea rax, [rsp+32]\n\tmov edi, 1\n\tsub rdx, rax\n\txor eax, eax\n\tlea rsi, [rsp+32+rdx]\n\tmov rdx, r8\n\tmov rax, 1\n\tsyscall\n\tadd rsp, 40\n\tret\n\n");
        code.append("_start:\n");
        let ghost ops = ops_view(self.operations@);
        let ghost head = code@;
        let mut i: usize = 0;
        assert(head + asm_body(ops, 0) =~= head);
        while i < self.operations.len()
            invariant
                i <= self.operations.len(),
                ops == ops_view(self.operations@),
                all_translatable(ops),
                code@ == head + asm_body(ops, i as nat),
            decreases self.operations.len() - i,
        {
            assert(ops[i as int] == self.operations@[i as int]@);
            assert(translatable(ops[i as int]));
            let back = match &self.operations[i] {
                Operation::End { address } => *address == 0 && returns_to_start_exec(&self.operations, i),
                _ => false,
            };
            let text = if back {
                first_loop_end_x86_64(i)
            } else {
                self.operations[i].to_x86_64(i)
            };
            code.append(text.as_str());
            i += 1;
            assert(code@ =~= head + asm_body(ops, i as nat));
        }
        code.append("\tmov rax, 60\n\tmov rdi, 0\n\tsyscall\n\n");
        code.append("section .bss\nmem resb ");
        push_decimal(&mut code, MEM_BUFFER_SIZE as u64);
        code.append("\n");
        Ok(code)
    }

    /// Links the program and moves the emulator to its first operation.
    pub fn start_emulation(&mut self) -> (r: Result<(), LinkError>)
        ensures
            match cross_reference_spec(old(self)@.ops, old(self)@.opt_level) {
                Ok(v) => r is Ok && final(self)@ == (ProgramView { ops: v, pc: 0, ..old(self)@ }),
                Err(e) => r matches Err(err) && err@ == e && final(self)@ == old(self)@,
            },
    {
        self.cross_reference()?;
        self.pointer = 0;
        Ok(())
    }

    /// Runs one operation in the emulator.
    pub fn step(&mut self) -> (r: Result<StepResult, EmulationError>)
        ensures
            step_spec(old(self)@.ops, machine(old(self)@)) == (machine(final(self)@), r),
            final(self)@.ops == old(self)@.ops,
            final(self)@.opt_level == old(self)@.opt_level,
    {
        step_exec(&self.operations, &mut self.pointer, &mut self.emulation_stack, &mut self.emulation_mem)
    }

    /// Runs up to `fuel` operations, stopping at the first that asks for an
    /// event, ends the program or faults; `Continue` when the fuel ran out.
    pub fn run(&mut self, fuel: u64) -> (r: Result<StepResult, EmulationError>)
        ensures
            run_spec(old(self)@.ops, machine(old(self)@), fuel as nat) == (machine(final(self)@), r),
            final(self)@.ops == old(self)@.ops,
            final(self)@.opt_level == old(self)@.opt_level,
    {
        let mut left = fuel;
        while left > 0
            invariant
                left <= fuel,
                self@.ops == old(self)@.ops,
                self@.opt_level == old(self)@.opt_level,
                run_spec(old(self)@.ops, machine(old(self)@), fuel as nat) == run_spec(
                    self@.ops,
                    machine(self@),
                    left as nat,
                ),
            decreases left,
        {
            let r = self.step();
            left = left - 1;
            match r {
                Ok(StepResult::Continue) => {},
                _ => {
                    return r;
                },
            }
        }
        Ok(StepResult::Continue)
    }
}

/// Whether folding a sequence stays within `usize` depths.
pub fn fold_fits_exec(ops: &Vec<Operation>) -> (b: bool)
    ensures
        b == fold_fits(ops_view(ops@)),
{
    let ghost s = ops_view(ops@);
    // What the fold so far ends with: `push 1`, or an addition of some depth.
    let mut last_push_one = false;
    let mut last_plus: Option<usize> = None;
    let mut i: usize = 0;
    assert(s.take(0) =~= Seq::<OpView>::empty());
    while i < ops.len()
        invariant
            i <= ops.len(),
            s == ops_view(ops@),
            fold_fits(s.take(i as int)),
            last_push_one == (fold_ops(s.take(i as int)).len() > 0 && fold_ops(s.take(i as int)).last()
                == OpView::Push(1)),
            match last_plus {
                Some(d) => fold_ops(s.take(i as int)).len() > 0 && fold_ops(s.take(i as int)).last()
                    == (OpView::Plus { depth: d }),
                None => !(fold_ops(s.take(i as int)).len() > 0 && fold_ops(s.take(i as int)).last() is Plus),
            },
        decreases ops.len() - i,
    {
        assert(s.take(i + 1).drop_last() =~= s.take(i as int));
        assert(s[i as int] == ops@[i as int]@);
        match &ops[i] {
            Operation::Plus { depth } => {
                if last_push_one && *depth == 1 {
                    last_push_one = false;
                    last_plus = None;
                } else {
                    match last_plus {
                        Some(d) => {
                            if d > usize::MAX - *depth {
                                proof {
                                    if fold_fits(s) {
                                        lemma_fold_fits_prefix(s, i as int + 1);
                                    }
                                }
                                return false;
                            }
                            last_plus = Some(d + *depth);
                        },
                        None => {
                            last_plus = Some(*depth);
                        },
                    }
                    last_push_one = false;
                }
            },
            Operation::Push(v) => {
                last_push_one = *v == 1;
                last_plus = None;
            },
            _ => {
                last_push_one = false;
                last_plus = None;
            },
        }
        i += 1;
    }
    assert(s.take(ops.len() as int) =~= s);
    true
}

/// Whether every macro body of a table can be translated.
pub open spec fn table_translatable(t: MacroTable) -> bool {
    forall|k: int| 0 <= k < t.len() ==> all_translatable(#[trigger] t[k].1)
}

proof fn lemma_collect_translatable(s: Seq<OpView>)
    requires
        all_translatable(s),
    ensures
        collect(s) matches Ok(c) ==> all_translatable(c.main) && all_translatable(c.pool)
            && table_translatable(c.table),
    decreases s.len(),
{
    if s.len() > 0 {
        let p = s.drop_last();
        assert(all_translatable(p)) by {
            assert forall|i: int| 0 <= i < p.len() implies translatable(#[trigger] p[i]) by {
                assert(p[i] == s[i]);
            }
        }
        assert(translatable(s[s.len() - 1]));
        lemma_collect_translatable(p);
        if let Ok(c) = collect(p) {
            if let Ok(c2) = collect_step(c, s.last()) {
                assert(all_translatable(c2.main));
                assert(all_translatable(c2.pool));
                assert(table_translatable(c2.table)) by {
                    assert forall|k: int| 0 <= k < c2.table.len() implies all_translatable(
                        #[trigger] c2.table[k].1,
                    ) by {
                        if k < c.table.len() {
                            assert(c2.table[k] == c.table[k]);
                        }
                    }
                }
            }
        }
    }
}

proof fn lemma_lookup_translatable(t: MacroTable, name: Seq<char>)
    requires
        table_translatable(t),
    ensures
        lookup(t, name) matches Some(b) ==> all_translatable(b),
    decreases t.len(),
{
    if t.len() > 0 {
        assert(all_translatable(t[0].1));
        let r = t.drop_first();
        assert(table_translatable(r)) by {
            assert forall|k: int| 0 <= k < r.len() implies all_translatable(#[trigger] r[k].1) by {
                assert(r[k] == t[k + 1]);
            }
        }
        lemma_lookup_translatable(r, name);
    }
}

proof fn lemma_expand_seq_translatable(s: Seq<OpView>, t: MacroTable, fuel: nat)
    requires
        all_translatable(s),
        table_translatable(t),
    ensures
        expand_seq(s, t, fuel) matches Ok(x) ==> all_translatable(x),
    decreases fuel, 1nat, s.len(),
{
    if s.len() > 0 {
        let p = s.drop_last();
        assert(all_translatable(p)) by {
            assert forall|i: int| 0 <= i < p.len() implies translatable(#[trigger] p[i]) by {
                assert(p[i] == s[i]);
            }
        }
        assert(translatable(s[s.len() - 1]));
        lemma_expand_seq_translatable(p, t, fuel);
        if let Ok(a) = expand_seq(p, t, fuel) {
            match s.last() {
                OpView::CallMacro { name } => {
                    lemma_expand_name_translatable(name, t, fuel);
                    if let Ok(b) = expand_name(name, t, fuel) {
                        assert forall|i: int| 0 <= i < (a + b).len() implies translatable(
                            #[trigger] (a + b)[i],
                        ) by {
                            if i < a.len() {
                                assert((a + b)[i] == a[i]);
                            } else {
                                assert((a + b)[i] == b[i - a.len()]);
                            }
                        }
                    }
                },
                op => {
                    assert forall|i: int| 0 <= i < a.push(op).len() implies translatable(
                        #[trigger] a.push(op)[i],
                    ) by {
                        if i < a.len() {
                            assert(a.push(op)[i] == a[i]);
                        }
                    }
                },
            }
        }
    }
}

proof fn lemma_expand_name_translatable(name: Seq<char>, t: MacroTable, fuel: nat)
    requires
        table_translatable(t),
    ensures
        expand_name(name, t, fuel) matches Ok(x) ==> all_translatable(x),
    decreases fuel, 0nat, 0nat,
{
    lemma_lookup_translatable(t, name);
    if let Some(body) = lookup(t, name) {
        if fuel > 0 {
            lemma_expand_seq_translatable(body, t, (fuel - 1) as nat);
        }
    }
}

proof fn lemma_fold_translatable(s: Seq<OpView>)
    requires
        all_translatable(s),
    ensures
        all_translatable(fold_ops(s)),
    decreases s.len(),
{
    if s.len() > 0 {
        let p = s.drop_last();
        assert(all_translatable(p)) by {
            assert forall|i: int| 0 <= i < p.len() implies translatable(#[trigger] p[i]) by {
                assert(p[i] == s[i]);
            }
        }
        assert(translatable(s[s.len() - 1]));
        lemma_fold_translatable(p);
        let a = fold_ops(p);
        let r = fold_step(a, s.last());
        assert forall|i: int| 0 <= i < r.len() implies translatable(#[trigger] r[i]) by {
            if i < a.len() - 1 || (i == a.len() - 1 && r.len() == a.len() + 1) {
                assert(r[i] == a[i]);
            }
        }
    }
}

proof fn lemma_link_translatable(ops: Seq<OpView>, open: Seq<usize>, i: nat)
    requires
        all_translatable(ops),
    ensures
        link_from(ops, open, i) matches Ok(v) ==> all_translatable(v),
    decreases ops.len() - i,
{
    if i < ops.len() {
        assert forall|o: Seq<OpView>, j: int, v: OpView|
            all_translatable(o) && translatable(v) implies #[trigger] all_translatable(set_at(o, j, v)) by {
            if 0 <= j < o.len() {
                assert forall|k: int| 0 <= k < o.len() implies translatable(#[trigger] o.update(j, v)[k]) by {
                    if k != j {
                        assert(o.update(j, v)[k] == o[k]);
                    }
                }
            }
        }
        let j = open.last();
        let rest = open.drop_last();
        let ops1 = if ops[j as int] == (OpView::Do { address: 0 }) && rest.len() > 0 {
            set_at(ops, i as int, OpView::End { address: rest.last() })
        } else {
            ops
        };
        assert(all_translatable(ops1));
        assert(all_translatable(set_at(ops1, j as int, OpView::If { address: i as usize })));
        assert(all_translatable(set_at(ops1, j as int, OpView::Else { address: i as usize })));
        assert(all_translatable(set_at(ops1, j as int, OpView::Do { address: i as usize })));
        assert(all_translatable(set_at(ops, j as int, OpView::If { address: i as usize })));
        lemma_link_translatable(ops, open.push(i as usize), i + 1);
        lemma_link_translatable(ops, open, i + 1);
        lemma_link_translatable(ops, rest.push(i as usize), i + 1);
        lemma_link_translatable(set_at(ops, j as int, OpView::If { address: i as usize }), rest.push(i as usize), i + 1);
        let open1 = if ops[j as int] == (OpView::Do { address: 0 }) { rest.drop_last() } else { rest };
        lemma_link_translatable(ops1, open1, i + 1);
        lemma_link_translatable(set_at(ops1, j as int, OpView::If { address: i as usize }), open1, i + 1);
        lemma_link_translatable(set_at(ops1, j as int, OpView::Else { address: i as usize }), open1, i + 1);
        lemma_link_translatable(set_at(ops1, j as int, OpView::Do { address: i as usize }), open1, i + 1);
        lemma_link_translatable(set_at(ops, i as int, OpView::End { address: rest.last() }), rest.drop_last(), i + 1);
    }
}

/// Linking keeps every operation translatable.
pub proof fn lemma_cross_reference_translatable(ops: Seq<OpView>, opt_level: usize)
    requires
        all_translatable(ops),
    ensures
        cross_reference_spec(ops, opt_level) matches Ok(v) ==> all_translatable(v),
{
    lemma_collect_translatable(ops);
    if let Ok(c) = collect(ops) {
        lemma_expand_seq_translatable(c.main, c.table, c.table.len());
        if let Ok(x) = expand_seq(c.main, c.table, c.table.len()) {
            lemma_fold_translatable(x);
            lemma_link_translatable(x, Seq::empty(), 0);
            lemma_link_translatable(fold_ops(x), Seq::empty(), 0);
        }
    }
}

} // verus!
