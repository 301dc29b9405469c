use lib::operation::Operation;
use lib::optimize::fold_optimizations;

#[test]
fn push_one_plus_becomes_inc() {
    let ops = vec![Operation::Push(5), Operation::Push(1), Operation::Plus { depth: 1 }];
    assert_eq!(fold_optimizations(ops), vec![Operation::Push(5), Operation::Inc]);
}

#[test]
fn push_one_minus_becomes_dec() {
    let ops = vec![Operation::Push(1), Operation::Minus];
    assert_eq!(fold_optimizations(ops), vec![Operation::Dec]);
}

#[test]
fn additions_merge() {
    let ops = vec![
        Operation::Plus { depth: 1 },
        Operation::Plus { depth: 1 },
        Operation::Plus { depth: 2 },
    ];
    assert_eq!(fold_optimizations(ops), vec![Operation::Plus { depth: 4 }]);
}

#[test]
fn inc_is_not_merged_again() {
    let ops = vec![Operation::Push(1), Operation::Plus { depth: 1 }, Operation::Plus { depth: 1 }];
    assert_eq!(fold_optimizations(ops), vec![Operation::Inc, Operation::Plus { depth: 1 }]);
}

#[test]
fn push_two_plus_is_kept() {
    let ops = vec![Operation::Push(2), Operation::Plus { depth: 1 }, Operation::Push(1), Operation::Dump];
    assert_eq!(fold_optimizations(ops.clone()), ops);
}

#[test]
fn empty_program_folds_to_empty() {
    assert_eq!(fold_optimizations(vec![]), vec![]);
}

#[test]
fn folding_never_lengthens() {
    let ops = vec![
        Operation::Push(1),
        Operation::Minus,
        Operation::Push(1),
        Operation::Plus { depth: 1 },
        Operation::Plus { depth: 3 },
        Operation::Dup { depth: 2 },
    ];
    let n = ops.len();
    let folded = fold_optimizations(ops);
    assert!(folded.len() <= n);
    assert_eq!(folded, vec![Operation::Dec, Operation::Inc, Operation::Plus { depth: 3 }, Operation::Dup { depth: 2 }]);
}
