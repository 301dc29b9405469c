use lib::operation::Operation;

#[test]
fn push_text_names_the_number_twice() {
    assert_eq!(Operation::Push(42).to_x86_64(0), ";; -- 42 --\n\tpush 42\n");
}

#[test]
fn plus_pops_once_per_depth() {
    assert_eq!(
        Operation::Plus { depth: 2 }.to_x86_64(5),
        ";; -- + --\n\tpop rax\n\tpop rbx\n\tadd rax, rbx\n\tpop rbx\n\tadd rax, rbx\n\tpush rax\n"
    );
}

#[test]
fn end_of_while_jumps_back_and_labels_itself() {
    assert_eq!(
        Operation::End { address: 3 }.to_x86_64(9),
        ";; -- END WHILE -- \n\tjmp label_3\nlabel_9:\n"
    );
    assert_eq!(Operation::End { address: 0 }.to_x86_64(12), ";; -- END IF -- \n\tlabel_12:\n");
}

#[test]
fn if_else_while_do_labels() {
    assert_eq!(
        Operation::If { address: 7 }.to_x86_64(1),
        ";; -- IF -- \n\tpop rax\n\ttest rax, rax\n\tjz label_7\n"
    );
    assert_eq!(
        Operation::Else { address: 10 }.to_x86_64(7),
        ";; -- ELSE -- \n\tjmp label_10\nlabel_7:\n"
    );
    assert_eq!(Operation::While.to_x86_64(0), ";; -- WHILE -- \nlabel_0:\n");
    assert_eq!(
        Operation::Do { address: 120 }.to_x86_64(4),
        ";; -- DO -- \n\tpop rax\n\ttest rax, rax\n\tjz label_120\n"
    );
}

#[test]
fn syscall_pops_its_arguments_into_registers() {
    assert_eq!(
        Operation::Syscall { arg_count: 3 }.to_x86_64(0),
        ";; -- SYSCALL 3 --\n\tpop rax\n\tpop rdi\n\tpop rsi\n\tpop rdx\n\tsyscall\n"
    );
}

#[test]
fn string_literal_is_stored_byte_by_byte() {
    assert_eq!(
        Operation::String("hi".to_string()).to_x86_64(0),
        "\tmov [mem+0], BYTE 104\n\tmov [mem+1], BYTE 105\n\tpush 2\n\tpush mem\n"
    );
}

#[test]
fn string_literal_counts_bytes_not_characters() {
    let text = Operation::String("é".to_string()).to_x86_64(0);
    assert_eq!(text, "\tmov [mem+0], BYTE 195\n\tmov [mem+1], BYTE 169\n\tpush 2\n\tpush mem\n");
}

#[test]
fn dup_of_other_depth_and_macro_markers_emit_nothing() {
    assert_eq!(Operation::Dup { depth: 3 }.to_x86_64(0), "");
    assert_eq!(Operation::EndMacro.to_x86_64(0), "");
    assert_eq!(Operation::DefineMacro { name: "x".to_string() }.to_x86_64(0), "");
    assert_eq!(Operation::CallMacro { name: "x".to_string() }.to_x86_64(0), "");
}

#[test]
fn division_remainder_and_not() {
    assert_eq!(
        Operation::Div.to_x86_64(0),
        ";; -- / --\n\tpop rbx\n\tpop rax\n\txor rdx, rdx\n\tdiv rbx\n\tpush rax\n"
    );
    assert_eq!(
        Operation::Mod.to_x86_64(0),
        ";; -- % --\n\tpop rbx\n\tpop rax\n\txor rdx, rdx\n\tdiv rbx\n\tpush rdx\n"
    );
    assert_eq!(Operation::Not.to_x86_64(0), ";; -- NOT --\n\tpop rax\n\tnot rax\n\tpush rax\n");
}

#[test]
fn large_numbers_are_written_in_full() {
    assert_eq!(
        Operation::Push(u64::MAX).to_x86_64(0),
        ";; -- 18446744073709551615 --\n\tpush 18446744073709551615\n"
    );
    assert_eq!(Operation::Push(0).to_x86_64(0), ";; -- 0 --\n\tpush 0\n");
}

#[test]
fn memory_and_stack_operations() {
    assert_eq!(Operation::Mem.to_x86_64(0), ";; -- MEM --\n\tpush mem\n");
    assert_eq!(Operation::Store.to_x86_64(0), ";; -- STORE --\n\tpop rbx\n\tpop rax\n\tmov [rax], bl\n");
    assert_eq!(Operation::Drop.to_x86_64(0), "\tpop rax\n\txor rax, rax\n");
    assert_eq!(
        Operation::Swap.to_x86_64(0),
        ";; -- SWAP --\n\tpop rax\n\tpop rbx\n\tpush rax\n\tpush rbx\n"
    );
    assert_eq!(Operation::Dump.to_x86_64(0), "\tpop rdi\n\tcall dump\n");
}

#[test]
fn while_end_jumps_to_the_while_label() {
    assert_eq!(Operation::While.to_x86_64(3), ";; -- WHILE -- \nlabel_3:\n");
    assert_eq!(Operation::End { address: 3 }.to_x86_64(8), ";; -- END WHILE -- \n\tjmp label_3\nlabel_8:\n");
    assert_eq!(Operation::End { address: 0 }.to_x86_64(8), ";; -- END IF -- \n\tlabel_8:\n");
}
