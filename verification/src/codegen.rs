//! Translation of single operations into NASM x86-64 text.
use vstd::prelude::*;
use vstd::utf8::encode_utf8;
use crate::operation::{Operation, OpView};
use crate::text::{decimal, push_decimal};

verus! {

/// `n` copies of `s`, one after the other.
pub open spec fn repeat_text(s: Seq<char>, n: nat) -> Seq<char>
    decreases n,
{
    if n == 0 {
        Seq::empty()
    } else {
        repeat_text(s, (n - 1) as nat) + s
    }
}

/// The register that receives the `i`-th system call argument.
pub open spec fn arg_register(i: nat) -> Seq<char> {
    if i == 0 {
        "rdi"@
    } else if i == 1 {
        "rsi"@
    } else if i == 2 {
        "rdx"@
    } else if i == 3 {
        "r10"@
    } else if i == 4 {
        "r8"@
    } else {
        "r9"@
    }
}

/// The pops of the first `n` system call arguments.
pub open spec fn syscall_pops(n: nat) -> Seq<char>
    decreases n,
{
    if n == 0 {
        Seq::empty()
    } else {
        syscall_pops((n - 1) as nat) + "\tpop "@ + arg_register((n - 1) as nat) + "\n"@
    }
}

/// The stores of the first `n` bytes of a string literal into `mem`.
pub open spec fn byte_moves(bytes: Seq<u8>, n: nat) -> Seq<char>
    decreases n,
{
    if n == 0 {
        Seq::empty()
    } else {
        byte_moves(bytes, (n - 1) as nat) + "\tmov [mem+"@ + decimal((n - 1) as nat) + "], BYTE "@
            + decimal(bytes[n - 1] as nat) + "\n"@
    }
}

/// `label_<n>`.
pub open spec fn label(n: nat) -> Seq<char> {
    "label_"@ + decimal(n)
}

/// The NASM text of operation `op` standing at position `index` of a program.
pub open spec fn asm_text(op: OpView, index: nat) -> Seq<char> {
    match op {
        OpView::Push(n) => ";; -- "@ + decimal(n as nat) + " --\n\tpush "@ + decimal(n as nat) + "\n"@,
        OpView::Plus { depth } => ";; -- + --\n"@ + "\tpop rax\n"@ + repeat_text(
            "\tpop rbx\n\tadd rax, rbx\n"@,
            depth as nat,
        ) + "\tpush rax\n"@,
        OpView::Inc => ";; -- INC --\n"@ + "\tpop rax\n"@ + "\tinc rax\n"@ + "\tpush rax\n"@,
        OpView::Minus => ";; -- - --\n"@ + "\tpop rbx\n"@ + "\tpop rax\n"@ + "\tsub rax, rbx\n"@
            + "\tpush rax\n"@,
        OpView::Dec => ";; -- DEC --\n"@ + "\tpop rax\n"@ + "\tdec rax\n"@ + "\tpush rax\n"@,
        OpView::Div => ";; -- / --\n"@ + "\tpop rbx\n"@ + "\tpop rax\n"@ + "\txor rdx, rdx\n"@
            + "\tdiv rbx\n"@ + "\tpush rax\n"@,
        OpView::Mod => ";; -- % --\n"@ + "\tpop rbx\n"@ + "\tpop rax\n"@ + "\txor rdx, rdx\n"@
            + "\tdiv rbx\n"@ + "\tpush rdx\n"@,
        OpView::Equals => ";; -- = --\n"@ + "\tpop rax\n"@ + "\tpop rbx\n"@ + "\tcmp rax, rbx\n"@
            + "\tsete al\n"@ + "\tpush rax\n"@,
        OpView::NotEqual => ";; -- = --\n"@ + "\tpop rax\n"@ + "\tpop rbx\n"@ + "\tcmp rax, rbx\n"@
            + "\tsetne al\n"@ + "\tpush rax\n"@,
        OpView::Not => ";; -- NOT --\n"@ + "\tpop rax\n"@ + "\tnot rax\n"@ + "\tpush rax\n"@,
        OpView::Greater => ";; -- > --\n"@ + "\tpop rbx\n"@ + "\tpop rax\n"@ + "\tcmp rax, rbx\n"@
            + "\tsetg al\n"@ + "\tpush rax\n"@,
        OpView::Lower => ";; -- < --\n"@ + "\tpop rbx\n"@ + "\tpop rax\n"@ + "\tcmp rax, rbx\n"@
            + "\tsetl al\n"@ + "\tpush rax\n"@,
        OpView::BitAnd => ";; -- & --\n"@ + "\tpop rbx\n"@ + "\tpop rax\n"@ + "\nand rax, rbx\n"@
            + "\tpush rax\n"@,
        OpView::BitOr => ";; -- | --\n"@ + "\tpop rbx\n"@ + "\tpop rax\n"@ + "\nor rax, rbx\n"@
            + "\tpush rax\n"@,
        OpView::BitShiftLeft => ";; -- << --\n"@ + "\tpop rcx\n"@ + "\tpop rax\n"@
            + "\nshl rax, cl\n"@ + "\tpush rax\n"@,
        OpView::BitShiftRight => ";; -- >> --\n"@ + "\tpop rcx\n"@ + "\tpop rax\n"@
            + "\nshr rax, cl\n"@ + "\tpush rax\n"@,
        OpView::Dump => "\tpop rdi\n"@ + "\tcall dump\n"@,
        OpView::If { address } => ";; -- IF -- \n"@ + "\tpop rax\n"@ + "\ttest rax, rax\n"@
            + "\tjz "@ + label(address as nat) + "\n"@,
        OpView::Else { address } => ";; -- ELSE -- \n"@ + "\tjmp "@ + label(address as nat)
            + "\n"@ + label(index) + ":\n"@,
        OpView::While => ";; -- WHILE -- \n"@ + label(index) + ":\n"@,
        OpView::Do { address } => ";; -- DO -- \n"@ + "\tpop rax\n"@ + "\ttest rax, rax\n"@
            + "\tjz "@ + label(address as nat) + "\n"@,
        OpView::End { address } => if address > 0 {
            ";; -- END WHILE -- \n\tjmp "@ + label(address as nat) + "\n"@ + label(index) + ":\n"@
        } else {
            ";; -- END IF -- \n\t"@ + label(index) + ":\n"@
        },
        OpView::EndMacro => Seq::empty(),
        OpView::Dup { depth } => if depth == 1 {
            ";; -- DUP --\n"@ + "\tpop rax\n"@ + "\tpush rax\n"@ + "\tpush rax\n"@
        } else if depth == 2 {
            ";; -- DUP 2 --\n"@ + "\tpop rax\n"@ + "\tpop rbx\n"@ + "\tpush rbx\n"@ + "\tpush rax\n"@
                + "\tpush rbx\n"@ + "\tpush rax\n"@
        } else {
            Seq::empty()
        },
        OpView::Swap => ";; -- SWAP --\n"@ + "\tpop rax\n"@ + "\tpop rbx\n"@ + "\tpush rax\n"@
            + "\tpush rbx\n"@,
        OpView::Over => ";; -- OVER --\n"@ + "\tpop rax\n"@ + "\tpop rbx\n"@ + "\tpush rbx\n"@
            + "\tpush rax\n"@ + "\tpush rbx\n"@,
        OpView::Rot => ";; -- ROT --\n"@ + "\tpop rax\n"@ + "\tpop rbx\n"@ + "\tpop rdi\n"@
            + "\tpush rbx\n"@ + "\tpush rax\n"@ + "\tpush rdi\n"@,
        OpView::Drop => "\tpop rax\n"@ + "\txor rax, rax\n"@,
        OpView::Mem => ";; -- MEM --\n"@ + "\tpush mem\n"@,
        OpView::Store => ";; -- STORE --\n"@ + "\tpop rbx\n"@ + "\tpop rax\n"@ + "\tmov [rax], bl\n"@,
        OpView::Load => ";; -- LOAD --\n"@ + "\tpop rax\n"@ + "\txor rbx, rbx\n"@ + "\tmov bl, [rax]\n"@
            + "\tpush rbx\n"@,
        OpView::Store32 => ";; -- STORE_32 --\n"@ + "\tpop rbx\n"@ + "\tpop rax\n"@
            + "\tmov [rax], ebx\n"@,
        OpView::Load32 => ";; -- LOAD_32 --\n"@ + "\tpop rax\n"@ + "\txor rbx, rbx\n"@
            + "\tmov ebx, [rax]\n"@ + "\tpush rbx\n"@,
        OpView::Store64 => ";; -- STORE_64 --\n"@ + "\tpop rbx\n"@ + "\tpop rax\n"@
            + "\tmov [rax], rbx\n"@,
        OpView::Load64 => ";; -- LOAD_54 --\n"@ + "\tpop rax\n"@ + "\txor rbx, rbx\n"@
            + "\tmov rbx, [rax]\n"@ + "\tpush rbx\n"@,
        OpView::Syscall { arg_count } => ";; -- SYSCALL "@ + decimal(arg_count as nat) + " --\n"@
            + "\tpop rax\n"@ + syscall_pops(arg_count as nat) + "\tsyscall\n"@,
        OpView::String(s) => byte_moves(encode_utf8(s), encode_utf8(s).len()) + "\tpush "@
            + decimal(encode_utf8(s).len()) + "\n"@ + "\tpush mem\n"@,
        OpView::DefineMacro { .. } => Seq::empty(),
        OpView::CallMacro { .. } => Seq::empty(),
    }
}

/// Whether an operation can be translated: a system call takes at most six
/// arguments, one per argument register.
pub open spec fn translatable(op: OpView) -> bool {
    op matches OpView::Syscall { arg_count } ==> arg_count <= 6
}

/// Whether every operation of a sequence can be translated.
pub open spec fn all_translatable(s: Seq<OpView>) -> bool {
    forall|i: int| 0 <= i < s.len() ==> translatable(#[trigger] s[i])
}

fn arg_register_exec(i: usize) -> (r: &'static str)
    requires
        i < 6,
    ensures
        r@ == arg_register(i as nat),
{
    if i == 0 {
        "rdi"
    } else if i == 1 {
        "rsi"
    } else if i == 2 {
        "rdx"
    } else if i == 3 {
        "r10"
    } else if i == 4 {
        "r8"
    } else {
        "r9"
    }
}

fn push_label(s: &mut String, n: usize)
    ensures
        final(s)@ == old(s)@ + label(n as nat),
{
    s.append("label_");
    push_decimal(s, n as u64);
}

/// The NASM text of an `end` at position `index` that closes the loop whose
/// `while` is the first operation: its address is zero, as that of an `end`
/// closing an `if`, but it jumps back to that `while`.
pub open spec fn first_loop_end_text(index: nat) -> Seq<char> {
    ";; -- END WHILE -- \n\tjmp "@ + label(0) + "\n"@ + label(index) + ":\n"@
}

/// The NASM text of the `end` at position `index` that closes the loop whose
/// `while` is the first operation.
pub fn first_loop_end_x86_64(index: usize) -> (r: String)
    ensures
        r@ == first_loop_end_text(index as nat),
{
    let mut s = String::new();
    s.append(";; -- END WHILE -- \n\tjmp ");
    push_label(&mut s, 0);
    s.append("\n");
    push_label(&mut s, index);
    s.append(":\n");
    s
}

fn push_repeat(s: &mut String, piece: &str, n: usize)
    ensures
        final(s)@ == old(s)@ + repeat_text(piece@, n as nat),
{
    let mut i: usize = 0;
    while i < n
        invariant
            i <= n,
            s@ == old(s)@ + repeat_text(piece@, i as nat),
        decreases n - i,
    {
        s.append(piece);
        i += 1;
        assert(s@ =~= old(s)@ + repeat_text(piece@, i as nat));
    }
}

fn push_syscall_pops(s: &mut String, n: usize)
    requires
        n <= 6,
    ensures
        final(s)@ == old(s)@ + syscall_pops(n as nat),
{
    let mut i: usize = 0;
    while i < n
        invariant
            i <= n <= 6,
            s@ == old(s)@ + syscall_pops(i as nat),
        decreases n - i,
    {
        s.append("\tpop ");
        s.append(arg_register_exec(i));
        s.append("\n");
        i += 1;
        assert(s@ =~= old(s)@ + syscall_pops(i as nat));
    }
}

fn push_byte_moves(s: &mut String, bytes: &[u8])
    ensures
        final(s)@ == old(s)@ + byte_moves(bytes@, bytes@.len()),
{
    let mut i: usize = 0;
    while i < bytes.len()
        invariant
            i <= bytes@.len(),
            s@ == old(s)@ + byte_moves(bytes@, i as nat),
        decreases bytes.len() - i,
    {
        s.append("\tmov [mem+");
        push_decimal(s, i as u64);
        s.append("], BYTE ");
        push_decimal(s, bytes[i] as u64);
        s.append("\n");
        i += 1;
        assert(s@ =~= old(s)@ + byte_moves(bytes@, i as nat));
    }
}

impl Operation {
    /// The NASM x86-64 text of this operation, standing at position `index`
    /// of its program (used for the labels of control flow).
    pub fn to_x86_64(&self, index: usize) -> (r: String)
        requires
            translatable(self@),
        ensures
            r@ == asm_text(self@, index as nat),
    {
        let mut s = String::new();
        match self {
            Operation::Push(number) => {
                s.append(";; -- ");
                push_decimal(&mut s, *number);
                s.append(" --\n\tpush ");
                push_decimal(&mut s, *number);
                s.append("\n");
            },
            Operation::Plus { depth } => {
                s.append(";; -- + --\n");
                s.append("\tpop rax\n");
                push_repeat(&mut s, "\tpop rbx\n\tadd rax, rbx\n", *depth);
                s.append("\tpush rax\n");
            },
            Operation::Inc => {
                s.append(";; -- INC --\n");
                s.append("\tpop rax\n");
                s.append("\tinc rax\n");
                s.append("\tpush rax\n");
            },
            Operation::Minus => {
                s.append(";; -- - --\n");
                s.append("\tpop rbx\n");
                s.append("\tpop rax\n");
                s.append("\tsub rax, rbx\n");
                s.append("\tpush rax\n");
            },
            Operation::Dec => {
                s.append(";; -- DEC --\n");
                s.append("\tpop rax\n");
                s.append("\tdec rax\n");
                s.append("\tpush rax\n");
            },
            Operation::Div => {
                s.append(";; -- / --\n");
                s.append("\tpop rbx\n");
                s.append("\tpop rax\n");
                s.append("\txor rdx, rdx\n");
                s.append("\tdiv rbx\n");
                s.append("\tpush rax\n");
            },
            Operation::Mod => {
                s.append(";; -- % --\n");
                s.append("\tpop rbx\n");
                s.append("\tpop rax\n");
                s.append("\txor rdx, rdx\n");
                s.append("\tdiv rbx\n");
                s.append("\tpush rdx\n");
            },
            Operation::Equals => {
                s.append(";; -- = --\n");
                s.append("\tpop rax\n");
                s.append("\tpop rbx\n");
                s.append("\tcmp rax, rbx\n");
                s.append("\tsete al\n");
                s.append("\tpush rax\n");
            },
            Operation::NotEqual => {
                s.append(";; -- = --\n");
                s.append("\tpop rax\n");
                s.append("\tpop rbx\n");
                s.append("\tcmp rax, rbx\n");
                s.append("\tsetne al\n");
                s.append("\tpush rax\n");
            },
            Operation::Not => {
                s.append(";; -- NOT --\n");
                s.append("\tpop rax\n");
                s.append("\tnot rax\n");
                s.append("\tpush rax\n");
            },
            Operation::Greater => {
                s.append(";; -- > --\n");
                s.append("\tpop rbx\n");
                s.append("\tpop rax\n");
                s.append("\tcmp rax, rbx\n");
                s.append("\tsetg al\n");
                s.append("\tpush rax\n");
            },
            Operation::Lower => {
                s.append(";; -- < --\n");
                s.append("\tpop rbx\n");
                s.append("\tpop rax\n");
                s.append("\tcmp rax, rbx\n");
                s.append("\tsetl al\n");
                s.append("\tpush rax\n");
            },
            Operation::BitAnd => {
                s.append(";; -- & --\n");
                s.append("\tpop rbx\n");
                s.append("\tpop rax\n");
                s.append("\nand rax, rbx\n");
                s.append("\tpush rax\n");
            },
            Operation::BitOr => {
                s.append(";; -- | --\n");
                s.append("\tpop rbx\n");
                s.append("\tpop rax\n");
                s.append("\nor rax, rbx\n");
                s.append("\tpush rax\n");
            },
            Operation::BitShiftLeft => {
                s.append(";; -- << --\n");
                s.append("\tpop rcx\n");
                s.append("\tpop rax\n");
                s.append("\nshl rax, cl\n");
                s.append("\tpush rax\n");
            },
            Operation::BitShiftRight => {
                s.append(";; -- >> --\n");
                s.append("\tpop rcx\n");
                s.append("\tpop rax\n");
                s.append("\nshr rax, cl\n");
                s.append("\tpush rax\n");
            },
            Operation::Dump => {
                s.append("\tpop rdi\n");
                s.append("\tcall dump\n");
            },
            Operation::If { address } => {
                s.append(";; -- IF -- \n");
                s.append("\tpop rax\n");
                s.append("\ttest rax, rax\n");
                s.append("\tjz ");
                push_label(&mut s, *address);
                s.append("\n");
            },
            Operation::Else { address } => {
                s.append(";; -- ELSE -- \n");
                s.append("\tjmp ");
                push_label(&mut s, *address);
                s.append("\n");
                push_label(&mut s, index);
                s.append(":\n");
            },
            Operation::While => {
                s.append(";; -- WHILE -- \n");
                push_label(&mut s, index);
                s.append(":\n");
            },
            Operation::Do { address } => {
                s.append(";; -- DO -- \n");
                s.append("\tpop rax\n");
                s.append("\ttest rax, rax\n");
                s.append("\tjz ");
                push_label(&mut s, *address);
                s.append("\n");
            },
            Operation::End { address } => {
                if *address > 0 {
                    s.append(";; -- END WHILE -- \n\tjmp ");
                    push_label(&mut s, *address);
                    s.append("\n");
                    push_label(&mut s, index);
                    s.append(":\n");
                } else {
                    s.append(";; -- END IF -- \n\t");
                    push_label(&mut s, index);
                    s.append(":\n");
                }
            },
            Operation::EndMacro => {},
            Operation::Dup { depth } => {
                if *depth == 1 {
                    s.append(";; -- DUP --\n");
                    s.append("\tpop rax\n");
                    s.append("\tpush rax\n");
                    s.append("\tpush rax\n");
                } else if *depth == 2 {
                    s.append(";; -- DUP 2 --\n");
                    s.append("\tpop rax\n");
                    s.append("\tpop rbx\n");
                    s.append("\tpush rbx\n");
                    s.append("\tpush rax\n");
                    s.append("\tpush rbx\n");
                    s.append("\tpush rax\n");
                }
            },
            Operation::Swap => {
                s.append(";; -- SWAP --\n");
                s.append("\tpop rax\n");
                s.append("\tpop rbx\n");
                s.append("\tpush rax\n");
                s.append("\tpush rbx\n");
            },
            Operation::Over => {
                s.append(";; -- OVER --\n");
                s.append("\tpop rax\n");
                s.append("\tpop rbx\n");
                s.append("\tpush rbx\n");
                s.append("\tpush rax\n");
                s.append("\tpush rbx\n");
            },
            Operation::Rot => {
                s.append(";; -- ROT --\n");
                s.append("\tpop rax\n");
                s.append("\tpop rbx\n");
                s.append("\tpop rdi\n");
                s.append("\tpush rbx\n");
                s.append("\tpush rax\n");
                s.append("\tpush rdi\n");
            },
            Operation::Drop => {
                s.append("\tpop rax\n");
                s.append("\txor rax, rax\n");
            },
            Operation::Mem => {
                s.append(";; -- MEM --\n");
                s.append("\tpush mem\n");
            },
            Operation::Store => {
                s.append(";; -- STORE --\n");
                s.append("\tpop rbx\n");
                s.append("\tpop rax\n");
                s.append("\tmov [rax], bl\n");
            },
            Operation::Load => {
                s.append(";; -- LOAD --\n");
                s.append("\tpop rax\n");
                s.append("\txor rbx, rbx\n");
                s.append("\tmov bl, [rax]\n");
                s.append("\tpush rbx\n");
            },
            Operation::Store32 => {
                s.append(";; -- STORE_32 --\n");
                s.append("\tpop rbx\n");
                s.append("\tpop rax\n");
                s.append("\tmov [rax], ebx\n");
            },
            Operation::Load32 => {
                s.append(";; -- LOAD_32 --\n");
                s.append("\tpop rax\n");
                s.append("\txor rbx, rbx\n");
                s.append("\tmov ebx, [rax]\n");
                s.append("\tpush rbx\n");
            },
            Operation::Store64 => {
                s.append(";; -- STORE_64 --\n");
                s.append("\tpop rbx\n");
                s.append("\tpop rax\n");
                s.append("\tmov [rax], rbx\n");
            },
            Operation::Load64 => {
                s.append(";; -- LOAD_54 --\n");
                s.append("\tpop rax\n");
                s.append("\txor rbx, rbx\n");
                s.append("\tmov rbx, [rax]\n");
                s.append("\tpush rbx\n");
            },
            Operation::Syscall { arg_count } => {
                s.append(";; -- SYSCALL ");
                push_decimal(&mut s, *arg_count as u64);
                s.append(" --\n");
                s.append("\tpop rax\n");
                push_syscall_pops(&mut s, *arg_count);
                s.append("\tsyscall\n");
            },
            Operation::String(string) => {
                let bytes = string.as_str().as_bytes();
                push_byte_moves(&mut s, bytes);
                s.append("\tpush ");
                push_decimal(&mut s, bytes.len() as u64);
                s.append("\n");
                s.append("\tpush mem\n");
            },
            Operation::DefineMacro { .. } => {},
            Operation::CallMacro { .. } => {},
        }
        s
    }
}

} // verus!
