use lib::machine::{EmulationError, Event, StepResult};
use lib::operation::Operation;
use lib::optimize::fold_optimizations;
use lib::program::Program;

fn run_ops(ops: Vec<Operation>, start: &[u64]) -> (Vec<Event>, Result<(), EmulationError>, Vec<u64>) {
    let mut all: Vec<Operation> = start.iter().map(|v| Operation::Push(*v)).collect();
    all.extend(ops);
    let mut q = Program::new(all, 0);
    q.start_emulation().unwrap();
    let mut events = vec![];
    loop {
        match q.step() {
            Ok(StepResult::Continue) => {}
            Ok(StepResult::Output(e)) => events.push(e),
            Ok(StepResult::Halted) => return (events, Ok(()), q.stack().clone()),
            Err(e) => return (events, Err(e), q.stack().clone()),
        }
    }
}

#[test]
fn folded_code_behaves_as_written() {
    let cases: Vec<(Vec<Operation>, Vec<u64>)> = vec![
        (vec![Operation::Push(1), Operation::Plus { depth: 1 }, Operation::Dump], vec![41]),
        (vec![Operation::Push(1), Operation::Minus, Operation::Dump], vec![0]),
        (vec![Operation::Plus { depth: 1 }, Operation::Plus { depth: 2 }, Operation::Dump], vec![1, 2, 3, 4]),
        (vec![Operation::Plus { depth: 1 }, Operation::Plus { depth: 2 }], vec![1, 2]),
        (vec![Operation::Push(1), Operation::Plus { depth: 1 }], vec![]),
        (vec![Operation::Push(u64::MAX), Operation::Plus { depth: 1 }, Operation::Plus { depth: 1 }, Operation::Dump], vec![5, 7]),
    ];
    for (ops, start) in cases {
        let plain = run_ops(ops.clone(), &start);
        let folded = run_ops(fold_optimizations(ops), &start);
        assert_eq!(plain.0, folded.0);
        assert_eq!(plain.1, folded.1);
        if plain.1.is_ok() {
            assert_eq!(plain.2, folded.2);
        }
    }
}

#[test]
fn linking_keeps_operations_in_place() {
    let mut p = Program::from_source("1 if 2 else 3 end 4 while dup do 1 - end", &vec![], 0).unwrap();
    let before = p.operations().clone();
    p.cross_reference().unwrap();
    let after = p.operations();
    assert_eq!(before.len(), after.len());
    for (a, b) in before.iter().zip(after.iter()) {
        assert_eq!(std::mem::discriminant(a), std::mem::discriminant(b));
    }
}

#[test]
fn program_without_macros_links_as_written() {
    let code = "1 if 2 else 3 end";
    let mut a = Program::from_source(code, &vec![], 0).unwrap();
    a.cross_reference().unwrap();
    let mut b = Program::from_source(code, &vec![], 0).unwrap();
    let mut ops = b.operations().clone();
    ops[1] = Operation::If { address: 3 };
    ops[3] = Operation::Else { address: 5 };
    b = Program::new(ops, 0);
    assert_eq!(a.operations(), b.operations());
}

#[test]
fn load_gives_back_the_stored_byte() {
    let mut p = Program::from_source("mem 3 + 1025 ! mem 3 + @ dump mem 4 + @ dump", &vec![], 0).unwrap();
    p.start_emulation().unwrap();
    assert_eq!(p.run(100), Ok(StepResult::Output(Event::Dump(1))));
    assert_eq!(p.run(100), Ok(StepResult::Output(Event::Dump(0))));
}

#[test]
fn dup_then_drop_and_three_rotations_change_nothing() {
    assert_eq!(run_ops(vec![Operation::Dup { depth: 1 }, Operation::Drop], &[4, 5]).2, vec![4, 5]);
    assert_eq!(run_ops(vec![Operation::Rot, Operation::Rot, Operation::Rot], &[1, 2, 3, 4]).2, vec![1, 2, 3, 4]);
}

#[test]
fn halted_program_stays_halted() {
    let mut p = Program::from_source("1", &vec![], 0).unwrap();
    p.start_emulation().unwrap();
    assert_eq!(p.step(), Ok(StepResult::Continue));
    assert_eq!(p.step(), Ok(StepResult::Halted));
    assert_eq!(p.step(), Ok(StepResult::Halted));
    assert_eq!(p.stack(), &vec![1]);
    assert_eq!(p.position(), 1);
}

fn emulate_code(code: &str, opt_level: usize) -> (Vec<Event>, Result<(), EmulationError>, Vec<u64>) {
    let mut p = Program::from_source(code, &vec![], opt_level).unwrap();
    p.start_emulation().unwrap();
    let mut events = vec![];
    for _ in 0..100_000 {
        match p.step() {
            Ok(StepResult::Continue) => {}
            Ok(StepResult::Output(e)) => events.push(e),
            Ok(StepResult::Halted) => return (events, Ok(()), p.stack().clone()),
            Err(e) => return (events, Err(e), p.stack().clone()),
        }
    }
    panic!("program did not end");
}

#[test]
fn optimisation_keeps_outcome() {
    let programs = [
        "10 0 while 2dup > do 1 + dup dump end",
        "1 1 1 + + dump 5 1 - dump 0 if 1 1 + dump else 2 1 + dump end",
        "3 while dup do 1 - dup 1 + dump end",
        "5 0 while 2dup > do 1 + 2 2 + + dup dump end",
        "macro inc 1 + ; 0 inc inc inc dump 1 if 4 inc dump end",
        "1 if 1 - 1 - dump end",
        "7 1 + 1 + 1 - if 2 dump else 3 dump end 9 dump",
    ];
    for code in programs {
        let plain = emulate_code(code, 0);
        let optimised = emulate_code(code, 1);
        assert_eq!(plain.0, optimised.0, "{}", code);
        assert_eq!(plain.1, optimised.1, "{}", code);
        if plain.1.is_ok() {
            assert_eq!(plain.2, optimised.2, "{}", code);
        }
    }
}

#[test]
fn macro_call_is_its_body() {
    for level in 0..2 {
        let mut with_macro = Program::from_source("macro two 1 1 + ; 5 two dump 9", &vec![], level).unwrap();
        with_macro.cross_reference().unwrap();
        let mut written = Program::from_source("5 1 1 + dump 9", &vec![], level).unwrap();
        written.cross_reference().unwrap();
        assert_eq!(with_macro.operations(), written.operations());
    }
}

#[test]
fn comment_is_ignored() {
    let commented = Program::from_source("1 2 + dump // 3 dump if \\n end", &vec![], 0).unwrap();
    let plain = Program::from_source("1 2 + dump", &vec![], 0).unwrap();
    assert_eq!(commented.operations(), plain.operations());
    let slash = Program::from_source("8 2 / dump//x", &vec![], 0).unwrap();
    assert_eq!(slash.operations(), &vec![Operation::Push(8), Operation::Push(2), Operation::Div, Operation::Dump]);
}

#[test]
fn jumps_land_on_block_operations() {
    let mut p = Program::from_source("1 if 2 else 3 end 4 while dup do 1 - 0 if 7 end end", &vec![], 1).unwrap();
    p.cross_reference().unwrap();
    let ops = p.operations().clone();
    for op in ops.iter() {
        let address = match op {
            Operation::If { address } | Operation::Else { address } | Operation::Do { address } | Operation::End { address } => *address,
            _ => 0,
        };
        assert!(address < ops.len());
        if address > 0 {
            let target = address;
            assert!(matches!(
                ops[target],
                Operation::If { .. } | Operation::Else { .. } | Operation::While | Operation::Do { .. } | Operation::End { .. }
            ));
        }
    }
}

#[test]
fn wide_load_gives_back_wide_store() {
    let (_, r, stack) = run_ops(
        vec![Operation::Mem, Operation::Push(u64::MAX - 5), Operation::Store64, Operation::Mem, Operation::Load64],
        &[9],
    );
    assert_eq!(r, Ok(()));
    assert_eq!(stack, vec![9, u64::MAX - 5]);
    let (_, r, stack) = run_ops(
        vec![Operation::Mem, Operation::Push(0x1_2345_6789), Operation::Store32, Operation::Mem, Operation::Load32],
        &[],
    );
    assert_eq!(r, Ok(()));
    assert_eq!(stack, vec![0x2345_6789]);
}

#[test]
fn folding_twice_is_folding_once() {
    let ops = vec![
        Operation::Push(1),
        Operation::Plus { depth: 2 },
        Operation::Plus { depth: 1 },
        Operation::Push(1),
        Operation::Plus { depth: 1 },
        Operation::Push(1),
        Operation::Minus,
        Operation::Push(1),
        Operation::Dump,
    ];
    let once = fold_optimizations(ops);
    assert_eq!(once, vec![Operation::Push(1), Operation::Plus { depth: 3 }, Operation::Inc, Operation::Dec, Operation::Push(1), Operation::Dump]);
    assert_eq!(fold_optimizations(once.clone()), once);
}

#[test]
fn folded_code_folds_again_to_itself() {
    let ops = vec![
        Operation::Push(1),
        Operation::Plus { depth: 1 },
        Operation::Plus { depth: 3 },
        Operation::Push(1),
        Operation::Minus,
        Operation::Plus { depth: 1 },
    ];
    let once = fold_optimizations(ops);
    assert_eq!(fold_optimizations(once.clone()), once);
}

#[test]
fn while_loop_steps_as_a_loop() {
    let mut p = Program::from_source("while 1 do dump end", &vec![], 0).unwrap();
    p.start_emulation().unwrap();
    assert_eq!(p.step(), Ok(StepResult::Continue));
    assert_eq!(p.position(), 1);
    assert_eq!(p.step(), Ok(StepResult::Continue));
    assert_eq!(p.step(), Ok(StepResult::Continue));
    assert_eq!(p.position(), 3);
    let mut q = Program::from_source("5 while dup do 1 - end", &vec![], 0).unwrap();
    q.cross_reference().unwrap();
    assert_eq!(q.operations()[3], Operation::Do { address: 6 });
    assert_eq!(q.operations()[6], Operation::End { address: 1 });
}
