//! The peephole optimiser that folds simple arithmetic.
use vstd::prelude::*;
use crate::operation::{Operation, OpView, ops_view, copy_op};

verus! {

/// Appends `op` to the already folded `acc`, merging it with the last
/// operation where a rule applies:
/// `push 1` then `+` becomes `inc`, `push 1` then `-` becomes `dec`, and two
/// adjacent additions become one addition over both depths.
pub open spec fn fold_step(acc: Seq<OpView>, op: OpView) -> Seq<OpView> {
    if acc.len() > 0 {
        match (acc.last(), op) {
            (OpView::Push(1), OpView::Plus { depth: 1 }) => acc.drop_last().push(OpView::Inc),
            (OpView::Push(1), OpView::Minus) => acc.drop_last().push(OpView::Dec),
            (OpView::Plus { depth: a }, OpView::Plus { depth: b }) => acc.drop_last().push(
                OpView::Plus { depth: (a + b) as usize },
            ),
            _ => acc.push(op),
        }
    } else {
        acc.push(op)
    }
}

/// Whether `fold_step(acc, op)` merges two depths whose sum does not fit.
pub open spec fn step_overflows(acc: Seq<OpView>, op: OpView) -> bool {
    &&& acc.len() > 0
    &&& acc.last() matches OpView::Plus { depth: a }
    &&& op matches OpView::Plus { depth: b }
    &&& a + b > usize::MAX
}

/// The folded form of a sequence, built left to right.
pub open spec fn fold_ops(s: Seq<OpView>) -> Seq<OpView>
    decreases s.len(),
{
    if s.len() == 0 {
        Seq::empty()
    } else {
        fold_step(fold_ops(s.drop_last()), s.last())
    }
}

/// Whether no merged addition along the fold has a depth beyond `usize`.
pub open spec fn fold_fits(s: Seq<OpView>) -> bool
    decreases s.len(),
{
    s.len() == 0 || (fold_fits(s.drop_last()) && !step_overflows(fold_ops(s.drop_last()), s.last()))
}

/// Folds `push 1; +` into `inc`, `push 1; -` into `dec` and runs of
/// additions into one addition.
pub fn fold_optimizations(ops: Vec<Operation>) -> (res: Vec<Operation>)
    requires
        fold_fits(ops_view(ops@)),
    ensures
        ops_view(res@) == fold_ops(ops_view(ops@)),
{
    let ghost s = ops_view(ops@);
    let mut acc: Vec<Operation> = Vec::new();
    let mut i: usize = 0;
    while i < ops.len()
        invariant
            i <= ops.len(),
            s == ops_view(ops@),
            fold_fits(s),
            ops_view(acc@) == fold_ops(s.take(i as int)),
        decreases ops.len() - i,
    {
        proof {
            assert(s.take(i + 1).drop_last() =~= s.take(i as int));
            lemma_fold_fits_prefix(s, i as int + 1);
        }
        let op = copy_op(&ops[i]);
        let ghost prev = ops_view(acc@);
        let n = acc.len();
        let mut merged = false;
        if n > 0 {
            match (&acc[n - 1], &op) {
                (Operation::Push(1), Operation::Plus { depth: 1 }) => {
                    acc.pop();
                    acc.push(Operation::Inc);
                    merged = true;
                },
                (Operation::Push(1), Operation::Minus) => {
                    acc.pop();
                    acc.push(Operation::Dec);
                    merged = true;
                },
                (Operation::Plus { depth: a }, Operation::Plus { depth: b }) => {
                    let d = *a + *b;
                    acc.set(n - 1, Operation::Plus { depth: d });
                    merged = true;
                },
                _ => {},
            }
        }
        if !merged {
            acc.push(op);
        }
        i += 1;
        proof {
            assert(ops_view(acc@) =~= fold_step(prev, s.take(i as int).last()));
        }
    }
    proof {
        assert(s.take(ops.len() as int) =~= s);
    }
    acc
}

/// A prefix of a sequence that folds without overflow folds without overflow.
pub proof fn lemma_fold_fits_prefix(s: Seq<OpView>, k: int)
    requires
        fold_fits(s),
        0 <= k <= s.len(),
    ensures
        fold_fits(s.take(k)),
    decreases s.len() - k,
{
    if k < s.len() {
        lemma_fold_fits_prefix(s, k + 1);
        assert(s.take(k + 1).drop_last() =~= s.take(k));
    } else {
        assert(s.take(k) =~= s);
    }
}

} // verus!
