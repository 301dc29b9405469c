use lib::link::LinkError;
use lib::machine::{EmulationError, Event, StepResult, MEM_BASE};
use lib::operation::Operation;
use lib::program::Program;

const DUMP_ROUTINE: &str = "dump:\n\tmov r9, -3689348814741910323\n\tsub rsp, 40\n\tmov BYTE [rsp+31], 10\n\tlea rcx, [rsp+30]\n.L2:\n\tmov rax, rdi\n\tlea r8, [rsp+32]\n\tmul r9\n\tmov rax, rdi\n\tsub r8, rcx\n\tshr rdx, 3\n\tlea rsi, [rdx+rdx*4]\n\tadd rsi, rsi\n\tsub rax, rsi\n\tadd eax, 48\n\tmov BYTE [rcx], al\n\tmov rdi, rdx\n\tmov rsi, rcx\n\tsub rcx, 1\n\tcmp rdx, 9\n\tja .L2\n\tlea rax, [rsp+32]\n\tmov edi, 1\n\tsub rdx, rax\n\txor eax, eax\n\tlea rsi, [rsp+32+rdx]\n\tmov rdx, r8\n\tmov rax, 1\n\tsyscall\n\tadd rsp, 40\n\tret\n\n";

fn program(code: &str, opt_level: usize) -> Program {
    Program::from_source(code, &vec![], opt_level).unwrap()
}

/// Runs a program to its end, collecting what it asks for.
fn emulate(code: &str, opt_level: usize) -> (Vec<Event>, Result<(), EmulationError>, Vec<u64>) {
    let mut p = program(code, opt_level);
    p.start_emulation().unwrap();
    let mut events = vec![];
    for _ in 0..100_000 {
        match p.step() {
            Ok(StepResult::Continue) => {}
            Ok(StepResult::Output(e)) => events.push(e),
            Ok(StepResult::Halted) => return (events, Ok(()), p.stack().clone()),
            Err(e) => return (events, Err(e), p.stack().clone()),
        }
    }
    panic!("program did not end");
}

fn dumps(n: &[u64]) -> Vec<Event> {
    n.iter().map(|v| Event::Dump(*v)).collect()
}

#[test]
fn readme_loop_prints_one_to_ten() {
    let code = "10 0 while 2dup > do\n    1 +\n    dup dump\nend\n";
    for level in 0..2 {
        let (events, r, stack) = emulate(code, level);
        assert_eq!(r, Ok(()));
        assert_eq!(events, dumps(&[1, 2, 3, 4, 5, 6, 7, 8, 9, 10]));
        assert_eq!(stack, vec![10, 10]);
    }
}

#[test]
fn readme_fibonacci_prints_the_sequence() {
    let code = "macro BYTE 8 ;\nmacro first mem ;\nmacro second mem BYTE + ;\nmacro temp mem BYTE BYTE + + ;\nfirst  0 !64\nsecond 1 !64\ntemp   0 !64\n20 0 while 2dup > do\n    1 +\n    temp first @64 second @64 + !64\n    first second @64 !64\n    second temp @64 !64\n    temp @64 dump\nend\n";
    for level in 0..2 {
        let (events, r, stack) = emulate(code, level);
        assert_eq!(r, Ok(()));
        assert_eq!(
            events,
            dumps(&[1, 2, 3, 5, 8, 13, 21, 34, 55, 89, 144, 233, 377, 610, 987, 1597, 2584, 4181, 6765, 10946])
        );
        assert_eq!(stack, vec![20, 20]);
    }
}

#[test]
fn wide_stores_write_little_endian_bytes() {
    let mut p = program("mem 1 + 258 !32 mem 1 + @32 dump mem 2 + @ dump mem 9 + 4294967297 !64 mem 9 + @64 dump mem 9 + @32 dump", 0);
    p.start_emulation().unwrap();
    assert_eq!(p.run(100), Ok(StepResult::Output(Event::Dump(258))));
    assert_eq!(p.run(100), Ok(StepResult::Output(Event::Dump(1))));
    assert_eq!(p.run(100), Ok(StepResult::Output(Event::Dump(4294967297))));
    assert_eq!(p.run(100), Ok(StepResult::Output(Event::Dump(1))));
    assert_eq!(&p.memory()[1..5], &[2, 1, 0, 0]);
    assert_eq!(&p.memory()[9..17], &4294967297u64.to_le_bytes());
    assert_eq!(p.run(100), Ok(StepResult::Halted));
}

#[test]
fn wide_store_past_the_end_is_refused() {
    let end = MEM_BASE + 640_000 - 4;
    assert_eq!(emulate(&format!("{} 7 !32", end), 0).1, Ok(()));
    assert_eq!(emulate(&format!("{} 7 !64", end), 0).1, Err(EmulationError::InvalidAddress(end)));
    assert_eq!(emulate(&format!("{} @64", end), 0).1, Err(EmulationError::InvalidAddress(end)));
    assert_eq!(emulate("5 !64", 0).1, Err(EmulationError::StackUnderflow));
}

#[test]
fn if_else_takes_one_branch() {
    assert_eq!(emulate("1 if 5 dump else 6 dump end", 0).0, dumps(&[5]));
    assert_eq!(emulate("0 if 5 dump else 6 dump end", 0).0, dumps(&[6]));
    assert_eq!(emulate("0 if 5 dump end 7 dump", 0).0, dumps(&[7]));
}

#[test]
fn linking_fills_in_addresses() {
    let mut p = program("1 if 2 else 3 end", 0);
    p.cross_reference().unwrap();
    assert_eq!(
        p.operations(),
        &vec![
            Operation::Push(1),
            Operation::If { address: 3 },
            Operation::Push(2),
            Operation::Else { address: 5 },
            Operation::Push(3),
            Operation::End { address: 0 },
        ]
    );
    let mut q = program("3 while dup do 1 - end", 0);
    q.cross_reference().unwrap();
    assert_eq!(
        q.operations(),
        &vec![
            Operation::Push(3),
            Operation::While,
            Operation::Dup { depth: 1 },
            Operation::Do { address: 6 },
            Operation::Push(1),
            Operation::Minus,
            Operation::End { address: 1 },
        ]
    );
}

#[test]
fn macros_expand_where_called() {
    let mut p = program("macro two 1 1 + ;\ntwo two", 0);
    p.cross_reference().unwrap();
    let one = Operation::Push(1);
    let plus = Operation::Plus { depth: 1 };
    assert_eq!(p.operations(), &vec![one.clone(), one.clone(), plus.clone(), one.clone(), one, plus]);
}

#[test]
fn nested_macros_expand() {
    assert_eq!(emulate("macro a 2 ;\nmacro b a a + ;\nb dump", 0).0, dumps(&[4]));
}

#[test]
fn optimisation_folds_after_expansion() {
    let mut p = program("macro one 1 ;\n5 one +", 1);
    p.cross_reference().unwrap();
    assert_eq!(p.operations(), &vec![Operation::Push(5), Operation::Inc]);
}

#[test]
fn link_errors() {
    assert_eq!(program("end", 0).cross_reference(), Err(LinkError::UnmatchedEnd(0)));
    assert_eq!(program("1 else", 0).cross_reference(), Err(LinkError::UnmatchedElse(1)));
    assert_eq!(program("do end", 0).cross_reference(), Err(LinkError::MissingWhile(1)));
    assert_eq!(
        program("macro a 1 ;\nmacro a 2 ;", 0).cross_reference(),
        Err(LinkError::MacroRedefinition("a".to_string()))
    );
    assert_eq!(program("foo", 0).cross_reference(), Err(LinkError::UndefinedMacro("foo".to_string())));
    assert_eq!(
        program("macro a b ;\nmacro b a ;\na", 0).cross_reference(),
        Err(LinkError::RecursiveMacro("a".to_string()))
    );
}

#[test]
fn failed_linking_leaves_the_program() {
    let mut p = program("1 foo", 0);
    let before = p.operations().clone();
    assert!(p.cross_reference().is_err());
    assert_eq!(p.operations(), &before);
}

#[test]
fn folding_depth_overflow_is_refused() {
    let ops = vec![Operation::Plus { depth: usize::MAX }, Operation::Plus { depth: 1 }];
    let mut p = Program::new(ops, 1);
    assert_eq!(p.cross_reference(), Err(LinkError::DepthOverflow));
}

#[test]
fn arithmetic_wraps() {
    assert_eq!(emulate("0 1 - dump", 0).0, dumps(&[u64::MAX]));
    assert_eq!(emulate("18446744073709551615 1 + dump", 0).0, dumps(&[0]));
    assert_eq!(emulate("18446744073709551615 1 + dump", 1).0, dumps(&[0]));
    assert_eq!(emulate("0 1 - dump", 1).0, dumps(&[u64::MAX]));
}

#[test]
fn arithmetic_and_comparisons() {
    assert_eq!(emulate("7 2 / dump 7 2 % dump", 0).0, dumps(&[3, 1]));
    assert_eq!(emulate("3 4 < dump 3 4 > dump 4 4 = dump 4 4 != dump", 0).0, dumps(&[1, 0, 1, 0]));
    assert_eq!(emulate("12 10 & dump 12 10 | dump", 0).0, dumps(&[8, 14]));
    assert_eq!(emulate("1 3 << dump 16 2 >> dump 1 64 << dump", 0).0, dumps(&[8, 4, 0]));
    assert_eq!(emulate("0 not dump", 0).0, dumps(&[u64::MAX]));
    assert_eq!(emulate("1 2 3 + + dump", 1).0, dumps(&[6]));
}

#[test]
fn stack_operations() {
    assert_eq!(emulate("1 2 over", 0).2, vec![1, 2, 1]);
    assert_eq!(emulate("1 2 3 rot", 0).2, vec![2, 3, 1]);
    assert_eq!(emulate("1 2 2dup", 0).2, vec![1, 2, 1, 2]);
    assert_eq!(emulate("1 2 drop", 0).2, vec![1]);
    assert_eq!(emulate("drop dup", 0).2, vec![]);
    assert_eq!(emulate("1 2 swap", 0).2, vec![1, 2]);
}

#[test]
fn emulation_faults() {
    assert_eq!(emulate("1 0 /", 0).1, Err(EmulationError::DivisionByZero));
    assert_eq!(emulate("1 0 %", 0).1, Err(EmulationError::DivisionByZero));
    assert_eq!(emulate("+", 0).1, Err(EmulationError::StackUnderflow));
    assert_eq!(emulate("dump", 0).1, Err(EmulationError::StackUnderflow));
    assert_eq!(emulate("5 @", 0).1, Err(EmulationError::InvalidAddress(5)));
    assert_eq!(emulate("5 1 !", 0).1, Err(EmulationError::InvalidAddress(5)));
    assert_eq!(emulate("1 2 syscall1", 0).1, Err(EmulationError::SyscallArity(1)));
    assert_eq!(emulate("1 syscall1", 0).1, Err(EmulationError::StackUnderflow));
    assert_eq!(emulate("\"hi\"", 0).1, Err(EmulationError::Unsupported));
}

#[test]
fn syscall_is_handed_out() {
    let (events, r, stack) = emulate("9 1 2 3 60 syscall3", 0);
    assert_eq!(r, Ok(()));
    assert_eq!(events, vec![Event::Syscall { number: 60, arg1: 3, arg2: 2, arg3: 1 }]);
    assert_eq!(stack, vec![9]);
}

#[test]
fn memory_store_and_load() {
    assert_eq!(emulate("mem 65 ! mem @ dump", 0).0, dumps(&[65]));
    assert_eq!(emulate("mem 1 + 300 ! mem 1 + @ dump mem @ dump", 0).0, dumps(&[44, 0]));
    assert_eq!(emulate("mem dump", 0).0, dumps(&[MEM_BASE]));
}

#[test]
fn run_stops_at_events_and_at_the_end() {
    let mut p = program("1 dump 2 dump", 0);
    p.start_emulation().unwrap();
    assert_eq!(p.run(100), Ok(StepResult::Output(Event::Dump(1))));
    assert_eq!(p.run(1), Ok(StepResult::Continue));
    assert_eq!(p.run(100), Ok(StepResult::Output(Event::Dump(2))));
    assert_eq!(p.run(100), Ok(StepResult::Halted));
    assert_eq!(p.position(), 4);
}

#[test]
fn memory_can_be_taken_and_restored() {
    let mut p = program("mem 7 ! mem @", 0);
    p.start_emulation().unwrap();
    assert_eq!(p.run(2), Ok(StepResult::Continue));
    let mut mem = p.take_memory();
    assert_eq!(mem.len(), 640000);
    assert!(p.memory().is_empty());
    mem[0] = 9;
    p.restore_memory(mem);
    assert_eq!(p.run(100), Ok(StepResult::Halted));
    assert_eq!(p.stack(), &vec![7]);
    let mut q = program("mem 7 ! mem @", 0);
    q.start_emulation().unwrap();
    q.run(3).unwrap();
    let mut mem = q.take_memory();
    mem[0] = 9;
    q.restore_memory(mem);
    q.run(100).unwrap();
    assert_eq!(q.stack(), &vec![9]);
}

#[test]
fn compile_writes_the_whole_file() {
    let mut p = program("1 dump", 0);
    let text = p.compile().unwrap();
    assert_eq!(
        text,
        "global _start\nsection .text\n".to_owned()
            + DUMP_ROUTINE
            + "_start:\n;; -- 1 --\n\tpush 1\n\tpop rdi\n\tcall dump\n\tmov rax, 60\n\tmov rdi, 0\n\tsyscall\n\nsection .bss\nmem resb 640000\n"
    );
}

#[test]
fn compile_reports_link_errors() {
    let mut p = program("end", 0);
    assert_eq!(p.compile(), Err(LinkError::UnmatchedEnd(0)));
}

#[test]
fn opt_level_is_kept() {
    assert_eq!(program("1", 3).opt_level(), 3);
}

#[test]
fn loop_at_the_start_loops() {
    let code = "while mem @ 3 < do mem mem @ 1 + ! mem @ dump end";
    for level in 0..2 {
        let (events, r, stack) = emulate(code, level);
        assert_eq!(r, Ok(()));
        assert_eq!(events, dumps(&[1, 2, 3]));
        assert_eq!(stack, vec![]);
    }
    let mut p = program(code, 0);
    p.cross_reference().unwrap();
    assert_eq!(p.operations()[0], Operation::While);
    assert_eq!(p.operations()[15], Operation::End { address: 0 });
}

#[test]
fn folded_loop_links_to_its_while() {
    let mut p = program("10 0 while 2dup > do 1 + end", 1);
    p.cross_reference().unwrap();
    assert_eq!(
        p.operations(),
        &vec![
            Operation::Push(10),
            Operation::Push(0),
            Operation::While,
            Operation::Dup { depth: 2 },
            Operation::Greater,
            Operation::Do { address: 7 },
            Operation::Inc,
            Operation::End { address: 2 },
        ]
    );
    let (_, r, stack) = emulate("10 0 while 2dup > do 1 + end", 1);
    assert_eq!(r, Ok(()));
    assert_eq!(stack, vec![10, 10]);
}

#[test]
fn loop_at_the_start_compiles_to_a_loop() {
    let mut p = program("while 0 do end 0 if end", 0);
    let text = p.compile().unwrap();
    assert!(text.contains(";; -- END WHILE -- \n\tjmp label_0\nlabel_3:\n"));
    assert!(text.contains(";; -- END IF -- \n\tlabel_6:\n"));
    assert!(text.contains(";; -- WHILE -- \nlabel_0:\n"));
}

#[test]
fn if_end_in_a_program_starting_with_a_loop_falls_through() {
    let code = "while mem @ 2 < do mem @ 1 = if 7 dump end mem mem @ 1 + ! end 9 dump";
    for level in 0..2 {
        let (events, r, _) = emulate(code, level);
        assert_eq!(r, Ok(()));
        assert_eq!(events, dumps(&[7, 9]));
    }
}
