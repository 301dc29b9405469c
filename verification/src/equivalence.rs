//! Folding arithmetic before control flow is linked does not change what a
//! program does: the positions of the folded program follow those of the
//! program as written block by block, and every jump lands on the matching block.
use vstd::prelude::*;
use crate::operation::OpView;
use crate::optimize::{fold_ops, fold_step, fold_fits, step_overflows, lemma_fold_fits_prefix};
use crate::machine::{
    apply, is_control, step_spec, closes_loop, returns_to_start, Machine, Event, EmulationError, StepResult,
};
use crate::laws::{apply_all, events_of, unaddressed, same_up_to_addresses};
use crate::link::{link, link_from, set_at, collect, expand_seq, expand_name, lookup, MacroTable, LinkFault};
use crate::parse::{parse_source_spec, token_op, lemma_parse_keeps, ParseFault};
use crate::program::cross_reference_spec;

verus! {

/// Whether `fold_step(acc, op)` merges `op` into the last operation of `acc`.
pub open spec fn merges(acc: Seq<OpView>, op: OpView) -> bool {
    &&& acc.len() > 0
    &&& match (acc.last(), op) {
        (OpView::Push(1), OpView::Plus { depth: 1 }) => true,
        (OpView::Push(1), OpView::Minus) => true,
        (OpView::Plus { .. }, OpView::Plus { .. }) => true,
        _ => false,
    }
}

/// Whether an operation takes part in linking: it opens, continues or
/// closes a block.
pub open spec fn linkable(op: OpView) -> bool {
    ||| op is If
    ||| op is Else
    ||| op is Do
    ||| op is End
    ||| op is While
}

/// The position in the folded program of the operation at position `c`:
/// the length of the folded prefix before it.
pub open spec fn folded_pos(s: Seq<OpView>, c: int) -> int {
    fold_ops(s.take(c)).len() as int
}

/// Whether the operation at position `c` starts a new folded operation
/// rather than merging into the one before it.
pub open spec fn starts_block(s: Seq<OpView>, c: int) -> bool {
    !merges(fold_ops(s.take(c)), s[c])
}

proof fn lemma_step_shape(acc: Seq<OpView>, op: OpView)
    ensures
        !merges(acc, op) ==> fold_step(acc, op) == acc.push(op),
        merges(acc, op) ==> fold_step(acc, op).len() == acc.len(),
        merges(acc, op) ==> forall|q: int| 0 <= q < acc.len() - 1 ==> #[trigger] fold_step(acc, op)[q] == acc[q],
        merges(acc, op) ==> !linkable(fold_step(acc, op).last()) && !linkable(acc.last()),
        merges(acc, op) ==> (op is Plus || op is Minus),
{
}

proof fn lemma_take_step(s: Seq<OpView>, c: int)
    requires
        0 <= c < s.len(),
    ensures
        fold_ops(s.take(c + 1)) == fold_step(fold_ops(s.take(c)), s[c]),
{
    assert(s.take(c + 1).drop_last() =~= s.take(c));
}

/// The folded position moves on by one at the start of a block and stays
/// put inside one.
pub proof fn lemma_pos_step(s: Seq<OpView>, c: int)
    requires
        0 <= c < s.len(),
    ensures
        folded_pos(s, c + 1) == folded_pos(s, c) + if starts_block(s, c) { 1int } else { 0int },
{
    lemma_take_step(s, c);
    lemma_step_shape(fold_ops(s.take(c)), s[c]);
}

/// Folded positions grow with positions, strictly past the start of a block.
pub proof fn lemma_pos_mono(s: Seq<OpView>, c: int, d: int)
    requires
        0 <= c <= d <= s.len(),
    ensures
        folded_pos(s, c) <= folded_pos(s, d),
        c < d && starts_block(s, c) ==> folded_pos(s, c) < folded_pos(s, d),
    decreases d - c,
{
    if c < d {
        lemma_pos_mono(s, c, d - 1);
        lemma_pos_step(s, d - 1);
        if c < d - 1 && starts_block(s, c) {
            lemma_pos_mono(s, c + 1, d - 1);
            lemma_pos_step(s, c);
        }
    }
}

/// A folded position is at most the position, and zero only at zero.
pub proof fn lemma_pos_bounds(s: Seq<OpView>, c: int)
    requires
        0 <= c <= s.len(),
    ensures
        folded_pos(s, c) <= c,
        folded_pos(s, c) == 0 <==> c == 0,
{
    crate::laws::law_fold_never_longer(s.take(c));
    assert(s.take(0) =~= Seq::<OpView>::empty());
    if c > 0 {
        lemma_pos_step(s, 0);
        lemma_pos_mono(s, 1, c);
        lemma_take_step(s, 0);
        lemma_step_shape(fold_ops(s.take(0)), s[0]);
    }
}

/// The folded position of the whole program is the length of the folded program.
pub proof fn lemma_pos_end(s: Seq<OpView>)
    ensures
        folded_pos(s, s.len() as int) == fold_ops(s).len(),
{
    assert(s.take(s.len() as int) =~= s);
}

/// An operation that takes part in linking starts a block, and so does the
/// operation after it.
pub proof fn lemma_linkable_starts(s: Seq<OpView>, c: int)
    requires
        0 <= c < s.len(),
        linkable(s[c]),
    ensures
        starts_block(s, c),
        c + 1 < s.len() ==> starts_block(s, c + 1),
{
    lemma_take_step(s, c);
    lemma_step_shape(fold_ops(s.take(c)), s[c]);
}

/// The folded operation of a block that starts at `k` stays where it was put:
/// an operation that takes part in linking stays as it is, and any other stays
/// out of linking.
pub proof fn lemma_persist(s: Seq<OpView>, k: int, j: int)
    requires
        0 <= k < j <= s.len(),
        starts_block(s, k),
    ensures
        fold_ops(s.take(j)).len() > folded_pos(s, k),
        linkable(s[k]) ==> fold_ops(s.take(j))[folded_pos(s, k)] == s[k],
        !linkable(s[k]) ==> !linkable(fold_ops(s.take(j))[folded_pos(s, k)]),
    decreases j - k,
{
    lemma_take_step(s, k);
    lemma_step_shape(fold_ops(s.take(k)), s[k]);
    if j > k + 1 {
        lemma_persist(s, k, j - 1);
        lemma_take_step(s, j - 1);
        let acc = fold_ops(s.take(j - 1));
        lemma_step_shape(acc, s[j - 1]);
        if merges(acc, s[j - 1]) && folded_pos(s, k) < acc.len() - 1 {
            assert(fold_step(acc, s[j - 1])[folded_pos(s, k)] == acc[folded_pos(s, k)]);
        }
    }
}

/// The folded program at the folded position of an operation that takes part
/// in linking holds that operation; at the start of any other block it holds
/// an operation that does not take part in linking.
pub proof fn lemma_folded_at(s: Seq<OpView>, k: int)
    requires
        0 <= k < s.len(),
        starts_block(s, k),
    ensures
        folded_pos(s, k) < fold_ops(s).len(),
        linkable(s[k]) ==> fold_ops(s)[folded_pos(s, k)] == s[k],
        !linkable(s[k]) ==> !linkable(fold_ops(s)[folded_pos(s, k)]),
{
    lemma_persist(s, k, s.len() as int);
    assert(s.take(s.len() as int) =~= s);
}

/// Folding a longer sequence whose last part is not empty goes as folding
/// the last part.
proof fn lemma_step_append(pre: Seq<OpView>, u: Seq<OpView>, x: OpView)
    requires
        u.len() > 0,
    ensures
        fold_step(pre + u, x) == pre + fold_step(u, x),
        step_overflows(pre + u, x) == step_overflows(u, x),
{
    assert((pre + u).last() == u.last());
    assert((pre + u).drop_last() =~= pre + u.drop_last());
    assert((pre + u).push(x) =~= pre + u.push(x));
    assert((pre + u.drop_last()).push(OpView::Inc) =~= pre + u.drop_last().push(OpView::Inc));
    assert((pre + u.drop_last()).push(OpView::Dec) =~= pre + u.drop_last().push(OpView::Dec));
    if let (OpView::Plus { depth: a }, OpView::Plus { depth: b }) = (u.last(), x) {
        assert((pre + u.drop_last()).push(OpView::Plus { depth: (a + b) as usize }) =~= pre + u.drop_last().push(
            OpView::Plus { depth: (a + b) as usize },
        ));
    }
}

/// At the start of a block the fold splits: the folded prefix up to `j` is the
/// folded prefix before the block followed by the fold of the rest, and the
/// rest folds without overflow when the whole does.
pub proof fn lemma_split(s: Seq<OpView>, c: int, j: int)
    requires
        0 <= c < s.len(),
        c <= j <= s.len(),
        starts_block(s, c),
    ensures
        fold_ops(s.take(j)) == fold_ops(s.take(c)) + fold_ops(s.subrange(c, j)),
        fold_fits(s) ==> fold_fits(s.subrange(c, j)),
    decreases j - c,
{
    if j == c {
        assert(s.subrange(c, j) =~= Seq::<OpView>::empty());
        assert(fold_ops(s.take(c)) + Seq::<OpView>::empty() =~= fold_ops(s.take(c)));
    } else {
        let t = s.subrange(c, j);
        assert(t.drop_last() =~= s.subrange(c, j - 1));
        assert(t.last() == s[j - 1]);
        lemma_take_step(s, j - 1);
        if fold_fits(s) {
            lemma_fold_fits_prefix(s, j);
            assert(s.take(j).drop_last() =~= s.take(j - 1));
            assert(s.take(j).last() == s[j - 1]);
        }
        if j == c + 1 {
            assert(s.subrange(c, j - 1) =~= Seq::<OpView>::empty());
            lemma_step_shape(fold_ops(s.take(c)), s[c]);
            assert(fold_ops(t.drop_last()) =~= Seq::<OpView>::empty());
            assert(fold_ops(t) == fold_step(fold_ops(t.drop_last()), t.last()));
            assert(fold_ops(t) =~= seq![s[c]]);
            assert(fold_fits(t.drop_last()));
            assert(fold_ops(s.take(c)).push(s[c]) =~= fold_ops(s.take(c)) + seq![s[c]]);
        } else {
            lemma_split(s, c, j - 1);
            lemma_split(s, c, c + 1);
            assert(s.subrange(c, c + 1) =~= seq![s[c]]);
            crate::laws::law_fold_never_longer(s.subrange(c, j - 1));
            lemma_nonempty_fold(s.subrange(c, j - 1));
            lemma_step_append(fold_ops(s.take(c)), fold_ops(s.subrange(c, j - 1)), s[j - 1]);
            assert(fold_ops(t) == fold_step(fold_ops(t.drop_last()), t.last()));
        }
        if fold_fits(s) {
            assert(fold_fits(t.drop_last()));
            assert(!step_overflows(fold_ops(t.drop_last()), t.last()));
        }
    }
}

/// A non-empty sequence folds to a non-empty sequence.
proof fn lemma_nonempty_fold(t: Seq<OpView>)
    ensures
        t.len() > 0 ==> fold_ops(t).len() > 0,
    decreases t.len(),
{
    if t.len() > 0 {
        lemma_nonempty_fold(t.drop_last());
        lemma_step_shape(fold_ops(t.drop_last()), t.last());
    }
}

/// The first position from `k` on that starts a block, or the end.
pub open spec fn next_start(s: Seq<OpView>, k: int) -> int
    decreases s.len() - k,
{
    if k < 0 || k >= s.len() || starts_block(s, k) {
        k
    } else {
        next_start(s, k + 1)
    }
}

/// The position after the block that starts at `c`.
pub open spec fn block_end(s: Seq<OpView>, c: int) -> int {
    next_start(s, c + 1)
}

proof fn lemma_next_start(s: Seq<OpView>, k: int)
    requires
        0 <= k <= s.len(),
    ensures
        k <= next_start(s, k) <= s.len(),
        next_start(s, k) == s.len() || starts_block(s, next_start(s, k)),
        forall|q: int| k <= q < next_start(s, k) ==> !#[trigger] starts_block(s, q),
        folded_pos(s, next_start(s, k)) == folded_pos(s, k),
    decreases s.len() - k,
{
    if k < s.len() && !starts_block(s, k) {
        lemma_next_start(s, k + 1);
        lemma_pos_step(s, k);
    }
}

/// What a block is: a start, then operations that merge into it, all of them
/// additions or subtractions when there are several; it folds to the one
/// operation that stands at its folded position.
pub proof fn lemma_block(s: Seq<OpView>, c: int)
    requires
        0 <= c < s.len(),
        starts_block(s, c),
    ensures
        c < block_end(s, c) <= s.len(),
        block_end(s, c) == s.len() || starts_block(s, block_end(s, c)),
        folded_pos(s, block_end(s, c)) == folded_pos(s, c) + 1,
        forall|q: int| c < q < block_end(s, c) ==> !#[trigger] starts_block(s, q) && (s[q] is Plus || s[q] is Minus),
        block_end(s, c) > c + 1 ==> (s[c] is Push || s[c] is Plus),
        fold_ops(s.subrange(c, block_end(s, c))) == seq![fold_ops(s)[folded_pos(s, c)]],
        fold_fits(s) ==> fold_fits(s.subrange(c, block_end(s, c))),
{
    let be = block_end(s, c);
    lemma_next_start(s, c + 1);
    lemma_pos_step(s, c);
    assert forall|q: int| c < q < be implies !#[trigger] starts_block(s, q) && (s[q] is Plus || s[q] is Minus) by {
        lemma_step_shape(fold_ops(s.take(q)), s[q]);
    }
    if be > c + 1 {
        lemma_take_step(s, c);
        lemma_step_shape(fold_ops(s.take(c)), s[c]);
        assert(!starts_block(s, c + 1));
    }
    lemma_split(s, c, be);
    let x = fold_ops(s.take(be));
    assert(fold_ops(s.subrange(c, be)).len() == 1);
    if be == s.len() {
        assert(s.take(be) =~= s);
    } else {
        lemma_split(s, be, s.len() as int);
        assert(s.take(s.len() as int) =~= s);
    }
    assert(fold_ops(s)[folded_pos(s, c)] == x[folded_pos(s, c)]);
    assert(fold_ops(s.subrange(c, be)) =~= seq![fold_ops(s)[folded_pos(s, c)]]);
}

/// Running one operation as a sequence.
pub proof fn lemma_apply_all_single(x: OpView, st: Seq<u64>, m: Seq<u8>)
    ensures
        apply_all(seq![x], st, m) == match apply(x, st, m) {
            Err(e) => Err(e),
            Ok((a, b, e)) => Ok((a, b, events_of(e))),
        },
{
    assert(seq![x].drop_last() =~= Seq::<OpView>::empty());
    assert(seq![x].last() == x);
    assert(apply_all(seq![x].drop_last(), st, m) == Ok::<(Seq<u64>, Seq<u8>, Seq<Event>), crate::machine::EmulationError>(
        (st, m, Seq::empty()),
    ));
    if let Ok((a, b, e)) = apply(x, st, m) {
        assert(Seq::<Event>::empty() + events_of(e) =~= events_of(e));
    }
}

/// A fault in a prefix is the fault of the whole.
pub proof fn lemma_apply_all_prefix_err(t: Seq<OpView>, k: int, st: Seq<u64>, m: Seq<u8>)
    requires
        0 <= k <= t.len(),
        apply_all(t.take(k), st, m) is Err,
    ensures
        apply_all(t, st, m) == apply_all(t.take(k), st, m),
    decreases t.len() - k,
{
    if k < t.len() {
        assert(t.take(k + 1).drop_last() =~= t.take(k));
        lemma_apply_all_prefix_err(t, k + 1, st, m);
    } else {
        assert(t.take(k) =~= t);
    }
}

/// A block runs as its folded operation.
pub proof fn lemma_block_runs(s: Seq<OpView>, c: int, st: Seq<u64>, m: Seq<u8>)
    requires
        0 <= c < s.len(),
        starts_block(s, c),
        fold_fits(s),
    ensures
        apply_all(s.subrange(c, block_end(s, c)), st, m) == apply_all(seq![fold_ops(s)[folded_pos(s, c)]], st, m),
{
    lemma_block(s, c);
    crate::laws::law_fold_preserves_behaviour(s.subrange(c, block_end(s, c)), st, m);
}

/// The jump address of an operation that has one.
pub open spec fn address_of(op: OpView) -> usize {
    match op {
        OpView::If { address } => address,
        OpView::Else { address } => address,
        OpView::Do { address } => address,
        OpView::End { address } => address,
        _ => 0,
    }
}

/// An operation of `s` as it stands in the folded program: a jump address
/// moves to the folded position of its target.
pub open spec fn renumber(s: Seq<OpView>, op: OpView) -> OpView {
    match op {
        OpView::If { address } => OpView::If { address: folded_pos(s, address as int) as usize },
        OpView::Else { address } => OpView::Else { address: folded_pos(s, address as int) as usize },
        OpView::Do { address } => OpView::Do { address: folded_pos(s, address as int) as usize },
        OpView::End { address } => OpView::End { address: folded_pos(s, address as int) as usize },
        _ => op,
    }
}

/// The positions of open blocks, moved to their folded positions.
pub open spec fn renumber_open(s: Seq<OpView>, open: Seq<usize>) -> Seq<usize> {
    open.map_values(|k: usize| folded_pos(s, k as int) as usize)
}

/// Whether the jump address of `op` suits `s`: it is a position of `s`, and
/// when it is not zero the operation jumped to takes part in linking.
pub open spec fn target_ok(s: Seq<OpView>, op: OpView) -> bool {
    &&& address_of(op) < s.len()
    &&& address_of(op) > 0 ==> linkable(s[address_of(op) as int])
}

/// Whether every jump address in `a` suits `s`.
pub open spec fn targets_ok(s: Seq<OpView>, a: Seq<OpView>) -> bool {
    forall|k: int| 0 <= k < a.len() && is_control(#[trigger] a[k]) ==> target_ok(s, a[k])
}

/// How `a`, linked (in part) from `s`, and `b`, linked (in part) from the fold
/// of `s`, correspond: both keep their operations up to jump addresses, and
/// each operation that takes part in linking stands in `b` at its folded
/// position with its address renumbered.
pub open spec fn corresponds(s: Seq<OpView>, a: Seq<OpView>, b: Seq<OpView>) -> bool {
    &&& same_up_to_addresses(a, s)
    &&& same_up_to_addresses(b, fold_ops(s))
    &&& targets_ok(s, a)
    &&& forall|k: int| 0 <= k < s.len() && linkable(s[k]) ==> b[folded_pos(s, k)] == #[trigger] renumber(s, a[k])
}

proof fn lemma_plain(x: OpView, y: OpView)
    requires
        unaddressed(x) == unaddressed(y),
        !is_control(y),
    ensures
        x == y,
{
    match x {
        OpView::If { .. } | OpView::Else { .. } | OpView::Do { .. } | OpView::End { .. } => {},
        _ => {},
    }
}

proof fn lemma_renumber_shape(s: Seq<OpView>, x: OpView)
    requires
        address_of(x) <= s.len(),
    ensures
        unaddressed(renumber(s, x)) == unaddressed(x),
        address_of(renumber(s, x)) == folded_pos(s, address_of(x) as int) || !is_control(x),
        (renumber(s, x) == OpView::Do { address: 0 }) <==> (x == OpView::Do { address: 0 }),
        linkable(renumber(s, x)) <==> linkable(x),
        is_control(renumber(s, x)) <==> is_control(x),
{
    lemma_pos_bounds(s, address_of(x) as int);
}

/// Two operations that take part in linking stand at different folded positions.
proof fn lemma_pos_distinct(s: Seq<OpView>, j: int, k: int)
    requires
        0 <= j < s.len(),
        0 <= k < s.len(),
        j != k,
        linkable(s[j]),
        linkable(s[k]),
    ensures
        folded_pos(s, j) != folded_pos(s, k),
{
    lemma_linkable_starts(s, j);
    lemma_linkable_starts(s, k);
    if j < k {
        lemma_pos_mono(s, j, k);
    } else {
        lemma_pos_mono(s, k, j);
    }
}

/// Setting a jump address on both sides keeps the correspondence.
proof fn lemma_corresponds_set(s: Seq<OpView>, a: Seq<OpView>, b: Seq<OpView>, k: int, v: OpView)
    requires
        corresponds(s, a, b),
        0 <= k < s.len(),
        linkable(s[k]),
        unaddressed(v) == unaddressed(a[k]),
        is_control(v),
        target_ok(s, v),
    ensures
        corresponds(s, set_at(a, k, v), set_at(b, folded_pos(s, k), renumber(s, v))),
{
    let a1 = set_at(a, k, v);
    let gk = folded_pos(s, k);
    let b1 = set_at(b, gk, renumber(s, v));
    lemma_linkable_starts(s, k);
    lemma_folded_at(s, k);
    lemma_renumber_shape(s, v);
    assert(address_of(a[k]) <= s.len()) by {
        assert(unaddressed(a[k]) == unaddressed(s[k]));
    }
    lemma_renumber_shape(s, a[k]);
    assert(b[gk] == renumber(s, a[k]));
    assert(same_up_to_addresses(b1, fold_ops(s))) by {
        assert forall|q: int| 0 <= q < b1.len() implies unaddressed(#[trigger] b1[q]) == unaddressed(fold_ops(s)[q]) by {
            if q != gk {
                assert(b1[q] == b[q]);
            }
        }
    }
    assert(same_up_to_addresses(a1, s)) by {
        assert forall|q: int| 0 <= q < a1.len() implies unaddressed(#[trigger] a1[q]) == unaddressed(s[q]) by {
            if q != k {
                assert(a1[q] == a[q]);
            }
        }
    }
    assert(targets_ok(s, a1)) by {
        assert forall|q: int| 0 <= q < a1.len() && is_control(#[trigger] a1[q]) implies target_ok(s, a1[q]) by {
            if q != k {
                assert(a1[q] == a[q]);
            }
        }
    }
    assert forall|q: int| 0 <= q < s.len() && linkable(s[q]) implies b1[folded_pos(s, q)] == #[trigger] renumber(
        s,
        a1[q],
    ) by {
        if q != k {
            lemma_pos_distinct(s, q, k);
            assert(a1[q] == a[q]);
            lemma_linkable_starts(s, q);
            lemma_folded_at(s, q);
            assert(b1[folded_pos(s, q)] == b[folded_pos(s, q)]);
        }
    }
}

/// Linking `s` and linking its fold go in lockstep: each position of `s`
/// that starts a block is linked together with its folded position, and the
/// results correspond.
proof fn lemma_link_lockstep(s: Seq<OpView>, a: Seq<OpView>, open: Seq<usize>, i: nat, b: Seq<OpView>)
    requires
        i <= s.len() <= usize::MAX,
        corresponds(s, a, b),
        forall|m: int| 0 <= m < open.len() ==> #[trigger] open[m] < i && linkable(s[open[m] as int]),
        link_from(a, open, i) is Ok,
    ensures
        link_from(b, renumber_open(s, open), folded_pos(s, i as int) as nat) is Ok,
        corresponds(
            s,
            link_from(a, open, i)->Ok_0,
            link_from(b, renumber_open(s, open), folded_pos(s, i as int) as nat)->Ok_0,
        ),
    decreases s.len() - i,
{
    let ii = i as int;
    let iq = folded_pos(s, ii);
    let oq = renumber_open(s, open);
    lemma_pos_bounds(s, ii);
    lemma_pos_end(s);
    if i < s.len() {
        lemma_pos_step(s, ii);
        lemma_pos_mono(s, ii + 1, s.len() as int);
        assert(unaddressed(a[ii]) == unaddressed(s[ii]));
        if !starts_block(s, ii) {
            lemma_take_step(s, ii);
            lemma_step_shape(fold_ops(s.take(ii)), s[ii]);
            lemma_plain(a[ii], s[ii]);
            lemma_link_lockstep(s, a, open, i + 1, b);
        } else if !linkable(s[ii]) {
            lemma_folded_at(s, ii);
            lemma_plain(a[ii], s[ii]);
            assert(unaddressed(b[iq]) == unaddressed(fold_ops(s)[iq]));
            lemma_plain(b[iq], fold_ops(s)[iq]);
            lemma_link_lockstep(s, a, open, i + 1, b);
        } else {
            lemma_folded_at(s, ii);
            assert(b[iq] == renumber(s, a[ii]));
            assert(address_of(a[ii]) < s.len() || !is_control(a[ii]));
            lemma_renumber_shape(s, a[ii]);
            assert((i as usize) as int == ii);
            assert(renumber_open(s, open.push(i as usize)) =~= oq.push(iq as usize));
            match a[ii] {
                OpView::If { .. } | OpView::While | OpView::Do { .. } => {
                    assert(link_from(a, open, i) == link_from(a, open.push(i as usize), i + 1));
                    assert(link_from(b, oq, iq as nat) == link_from(b, oq.push(iq as usize), (iq + 1) as nat));
                    lemma_link_lockstep(s, a, open.push(i as usize), i + 1, b);
                },
                OpView::Else { .. } => {
                    lemma_link_else(s, a, open, i, b);
                },
                OpView::End { .. } => {
                    lemma_link_end(s, a, open, i, b);
                },
                _ => {},
            }
        }
    } else {
        assert(link_from(a, open, i) == Ok::<Seq<OpView>, crate::link::LinkFault>(a));
        assert(link_from(b, oq, iq as nat) == Ok::<Seq<OpView>, crate::link::LinkFault>(b));
    }
}

proof fn lemma_link_else(s: Seq<OpView>, a: Seq<OpView>, open: Seq<usize>, i: nat, b: Seq<OpView>)
    requires
        i < s.len() <= usize::MAX,
        corresponds(s, a, b),
        forall|m: int| 0 <= m < open.len() ==> #[trigger] open[m] < i && linkable(s[open[m] as int]),
        link_from(a, open, i) is Ok,
        a[i as int] is Else,
        linkable(s[i as int]),
        b[folded_pos(s, i as int)] == renumber(s, a[i as int]),
    ensures
        link_from(b, renumber_open(s, open), folded_pos(s, i as int) as nat) is Ok,
        corresponds(
            s,
            link_from(a, open, i)->Ok_0,
            link_from(b, renumber_open(s, open), folded_pos(s, i as int) as nat)->Ok_0,
        ),
    decreases s.len() - i, 0nat,
{
    let ii = i as int;
    let iq = folded_pos(s, ii);
    let oq = renumber_open(s, open);
    lemma_pos_bounds(s, ii);
    lemma_pos_end(s);
    lemma_pos_step(s, ii);
    lemma_linkable_starts(s, ii);
    lemma_folded_at(s, ii);
    assert(open.len() > 0);
    let j = open.last();
    let jj = j as int;
    assert(open[open.len() - 1] == j);
    assert(jj < ii && linkable(s[jj]));
    assert(oq.last() == folded_pos(s, jj) as usize);
    lemma_pos_bounds(s, jj);
    lemma_linkable_starts(s, jj);
    lemma_folded_at(s, jj);
    let jq = folded_pos(s, jj);
    assert(b[jq] == renumber(s, a[jj]));
    assert(address_of(a[jj]) < s.len() || !is_control(a[jj]));
    lemma_renumber_shape(s, a[jj]);
    let open1 = open.drop_last().push(i as usize);
    let oq1 = oq.drop_last().push(iq as usize);
    assert(renumber_open(s, open1) =~= oq1);
    let v = OpView::If { address: i as usize };
    assert(renumber(s, v) == OpView::If { address: iq as usize });
    let a1 = match a[jj] {
        OpView::If { .. } => set_at(a, jj, v),
        _ => a,
    };
    let b1 = match b[jq] {
        OpView::If { .. } => set_at(b, jq, OpView::If { address: (iq as nat) as usize }),
        _ => b,
    };
    assert(link_from(a, open, i) == link_from(a1, open1, i + 1));
    assert(link_from(b, oq, iq as nat) == link_from(b1, oq1, (iq + 1) as nat));
    if a[jj] is If {
        assert(unaddressed(a[jj]) == unaddressed(s[jj]));
        lemma_corresponds_set(s, a, b, jj, v);
    }
    assert forall|m: int| 0 <= m < open1.len() implies #[trigger] open1[m] < i + 1 && linkable(
        s[open1[m] as int],
    ) by {
        if m < open.len() - 1 {
            assert(open1[m] == open[m]);
        }
    }
    lemma_link_lockstep(s, a1, open1, i + 1, b1);
}

proof fn lemma_link_end(s: Seq<OpView>, a: Seq<OpView>, open: Seq<usize>, i: nat, b: Seq<OpView>)
    requires
        i < s.len() <= usize::MAX,
        corresponds(s, a, b),
        forall|m: int| 0 <= m < open.len() ==> #[trigger] open[m] < i && linkable(s[open[m] as int]),
        link_from(a, open, i) is Ok,
        a[i as int] is End,
        linkable(s[i as int]),
        b[folded_pos(s, i as int)] == renumber(s, a[i as int]),
    ensures
        link_from(b, renumber_open(s, open), folded_pos(s, i as int) as nat) is Ok,
        corresponds(
            s,
            link_from(a, open, i)->Ok_0,
            link_from(b, renumber_open(s, open), folded_pos(s, i as int) as nat)->Ok_0,
        ),
    decreases s.len() - i, 0nat,
{
    let ii = i as int;
    let iq = folded_pos(s, ii);
    let oq = renumber_open(s, open);
    lemma_pos_bounds(s, ii);
    lemma_pos_end(s);
    lemma_pos_step(s, ii);
    lemma_linkable_starts(s, ii);
    lemma_folded_at(s, ii);
    assert(open.len() > 0);
    let j = open.last();
    let jj = j as int;
    assert(open[open.len() - 1] == j);
    assert(jj < ii && linkable(s[jj]));
    assert(oq.last() == folded_pos(s, jj) as usize);
    lemma_pos_bounds(s, jj);
    lemma_linkable_starts(s, jj);
    lemma_folded_at(s, jj);
    lemma_pos_distinct(s, jj, ii);
    let jq = folded_pos(s, jj);
    assert(b[jq] == renumber(s, a[jj]));
    assert(address_of(a[jj]) < s.len() || !is_control(a[jj]));
    lemma_renumber_shape(s, a[jj]);
    let rest = open.drop_last();
    let rq = oq.drop_last();
    assert(renumber_open(s, rest) =~= rq);
    let do0 = a[jj] == (OpView::Do { address: 0 });
    assert(do0 == (b[jq] == (OpView::Do { address: 0 })));
    assert(!(do0 && rest.len() == 0));
    let (a1, open1) = if do0 {
        (set_at(a, ii, OpView::End { address: rest.last() }), rest.drop_last())
    } else {
        (a, rest)
    };
    let (b1, oq1) = if do0 {
        (set_at(b, iq, OpView::End { address: rq.last() }), rq.drop_last())
    } else {
        (b, rq)
    };
    assert(renumber_open(s, open1) =~= oq1);
    if do0 {
        let w = rest.last();
        assert(rest[rest.len() - 1] == w);
        assert(open[rest.len() - 1] == w);
        assert(rq.last() == folded_pos(s, w as int) as usize);
        assert(w < i && linkable(s[w as int]));
        lemma_linkable_starts(s, w as int);
        lemma_pos_step(s, w as int);
        lemma_pos_bounds(s, w as int);
        assert(renumber(s, OpView::End { address: w }) == OpView::End { address: rq.last() });
        assert(unaddressed(a[ii]) == unaddressed(s[ii]));
        lemma_corresponds_set(s, a, b, ii, OpView::End { address: w });
    }
    assert(corresponds(s, a1, b1));
    assert(a1[jj] == a[jj]);
    assert(b1[jq] == renumber(s, a1[jj]));
    let vi = OpView::If { address: i as usize };
    let ve = OpView::Else { address: i as usize };
    let vd = OpView::Do { address: i as usize };
    assert((i as usize) as int == ii);
    assert(renumber(s, vi) == OpView::If { address: (iq as nat) as usize });
    assert(renumber(s, ve) == OpView::Else { address: (iq as nat) as usize });
    assert(renumber(s, vd) == OpView::Do { address: (iq as nat) as usize });
    let a2 = match a1[jj] {
        OpView::If { .. } => set_at(a1, jj, vi),
        OpView::Else { .. } => set_at(a1, jj, ve),
        OpView::Do { .. } => set_at(a1, jj, vd),
        _ => a1,
    };
    let b2 = match b1[jq] {
        OpView::If { .. } => set_at(b1, jq, OpView::If { address: (iq as nat) as usize }),
        OpView::Else { .. } => set_at(b1, jq, OpView::Else { address: (iq as nat) as usize }),
        OpView::Do { .. } => set_at(b1, jq, OpView::Do { address: (iq as nat) as usize }),
        _ => b1,
    };
    assert(link_from(a, open, i) == link_from(a2, open1, i + 1));
    assert(link_from(b, oq, iq as nat) == link_from(b2, oq1, (iq + 1) as nat));
    assert(unaddressed(a1[jj]) == unaddressed(s[jj]));
    match a1[jj] {
        OpView::If { .. } => lemma_corresponds_set(s, a1, b1, jj, vi),
        OpView::Else { .. } => lemma_corresponds_set(s, a1, b1, jj, ve),
        OpView::Do { .. } => lemma_corresponds_set(s, a1, b1, jj, vd),
        _ => {},
    }
    assert forall|m: int| 0 <= m < open1.len() implies #[trigger] open1[m] < i + 1 && linkable(
        s[open1[m] as int],
    ) by {
        assert(open1[m] == open[m]);
    }
    lemma_link_lockstep(s, a2, open1, i + 1, b2);
}

/// Whether no jump address in `s` has been set yet.
pub open spec fn unlinked(s: Seq<OpView>) -> bool {
    forall|k: int| 0 <= k < s.len() && is_control(#[trigger] s[k]) ==> address_of(s[k]) == 0
}

/// Linking the folded program gives the linked program folded, with every
/// jump address moved to the folded position of its target.
pub proof fn lemma_link_fold(s: Seq<OpView>)
    requires
        unlinked(s),
        s.len() <= usize::MAX,
        link(s) is Ok,
    ensures
        link(fold_ops(s)) is Ok,
        corresponds(s, link(s)->Ok_0, link(fold_ops(s))->Ok_0),
{
    let f = fold_ops(s);
    lemma_pos_bounds(s, 0);
    assert(renumber_open(s, Seq::<usize>::empty()) =~= Seq::<usize>::empty());
    assert forall|k: int| 0 <= k < s.len() && linkable(s[k]) implies f[folded_pos(s, k)] == #[trigger] renumber(
        s,
        s[k],
    ) by {
        lemma_linkable_starts(s, k);
        lemma_folded_at(s, k);
    }
    assert(corresponds(s, s, f));
    lemma_link_lockstep(s, s, Seq::empty(), 0, f);
}

/// Linking sets jump addresses only to positions of the program, and every
/// jump address that is not zero names an `if`, `else`, `while`, `do` or `end`.
pub proof fn law_link_targets(s: Seq<OpView>)
    requires
        unlinked(s),
        s.len() <= usize::MAX,
        link(s) is Ok,
    ensures
        targets_ok(s, link(s)->Ok_0),
{
    lemma_link_fold(s);
}

/// Whether every `if`, `else` and `do` of a linked program has the position
/// of the operation that closes it: no block is left open.
pub open spec fn blocks_closed(p: Seq<OpView>) -> bool {
    forall|k: int| 0 <= k < p.len() && (p[k] is If || p[k] is Else || p[k] is Do) ==> address_of(#[trigger] p[k]) > 0
}

/// The outcome of running `ops` from `m` for at most `fuel` steps: nothing if
/// the program has not ended by then, else how it ended (the final stack and
/// memory, or the fault) and the events it asked for on the way.
#[verifier::opaque]
pub open spec fn outcome(ops: Seq<OpView>, m: Machine, fuel: nat) -> Option<
    (Result<(Seq<u64>, Seq<u8>), EmulationError>, Seq<Event>),
>
    decreases fuel,
{
    if fuel == 0 {
        None
    } else {
        let (m1, r) = step_spec(ops, m);
        match r {
            Err(e) => Some((Err(e), Seq::empty())),
            Ok(StepResult::Halted) => Some((Ok((m1.stack, m1.mem)), Seq::empty())),
            Ok(StepResult::Continue) => outcome(ops, m1, (fuel - 1) as nat),
            Ok(StepResult::Output(ev)) => match outcome(ops, m1, (fuel - 1) as nat) {
                Some((res, evs)) => Some((res, seq![ev] + evs)),
                None => None,
            },
        }
    }
}

/// Whether `pa`, linked from `s`, and `qb`, linked from its fold, are set for
/// running side by side.
pub open spec fn side_by_side(s: Seq<OpView>, pa: Seq<OpView>, qb: Seq<OpView>) -> bool {
    &&& corresponds(s, pa, qb)
    &&& blocks_closed(pa)
    &&& fold_fits(s)
    &&& s.len() <= usize::MAX
}

proof fn lemma_events_of_same(x: Option<Event>, y: Option<Event>)
    requires
        events_of(x) == events_of(y),
    ensures
        x == y,
{
    match (x, y) {
        (Some(a), Some(b)) => {
            assert(events_of(x)[0] == a);
            assert(events_of(y)[0] == b);
        },
        (Some(a), None) => {
            assert(events_of(x).len() == 1);
        },
        (None, Some(b)) => {
            assert(events_of(y).len() == 1);
        },
        (None, None) => {},
    }
}

/// Every position of the folded program is the folded position of the start
/// of a block.
pub proof fn lemma_pos_onto(s: Seq<OpView>, q: int, d: int)
    requires
        0 <= d <= s.len(),
        0 <= q < folded_pos(s, d),
    ensures
        exists|c: int| 0 <= c < d && starts_block(s, c) && #[trigger] folded_pos(s, c) == q,
    decreases d,
{
    lemma_pos_bounds(s, d);
    lemma_pos_bounds(s, 0);
    lemma_pos_step(s, d - 1);
    if !starts_block(s, d - 1) || folded_pos(s, d - 1) != q {
        lemma_pos_onto(s, q, d - 1);
        let c = choose|c: int| 0 <= c < d - 1 && starts_block(s, c) && #[trigger] folded_pos(s, c) == q;
        assert(0 <= c < d && starts_block(s, c) && folded_pos(s, c) == q);
    }
}

/// An `end` closes the loop that starts the program exactly when its folded
/// counterpart does.
proof fn lemma_returns_to_start_same(s: Seq<OpView>, pa: Seq<OpView>, qb: Seq<OpView>, c: int)
    requires
        side_by_side(s, pa, qb),
        0 <= c < s.len(),
        linkable(s[c]),
    ensures
        returns_to_start(pa, c) == returns_to_start(qb, folded_pos(s, c)),
{
    let f = fold_ops(s);
    let gc = folded_pos(s, c);
    lemma_pos_end(s);
    lemma_pos_bounds(s, 0);
    lemma_pos_bounds(s, c);
    lemma_linkable_starts(s, c);
    lemma_folded_at(s, c);
    assert(pa.len() == s.len() && qb.len() == f.len());
    assert(s.take(0) =~= Seq::<OpView>::empty());
    lemma_folded_at(s, 0);
    assert(unaddressed(pa[0]) == unaddressed(s[0]));
    if linkable(s[0]) {
        assert(qb[0] == renumber(s, pa[0]));
    } else {
        lemma_plain(pa[0], s[0]);
        assert(unaddressed(qb[0]) == unaddressed(f[0]));
        lemma_plain(qb[0], f[0]);
    }
    assert((pa[0] is While) == (qb[0] is While));
    if closes_loop(pa, c) {
        let j = choose|j: int| 0 <= j < pa.len() && #[trigger] pa[j] == (OpView::Do { address: c as usize });
        assert(unaddressed(pa[j]) == unaddressed(s[j]));
        assert(linkable(s[j]));
        lemma_linkable_starts(s, j);
        lemma_folded_at(s, j);
        assert(qb[folded_pos(s, j)] == renumber(s, pa[j]));
        assert(qb[folded_pos(s, j)] == (OpView::Do { address: gc as usize }));
        assert(closes_loop(qb, gc));
    }
    if closes_loop(qb, gc) {
        let q = choose|q: int| 0 <= q < qb.len() && #[trigger] qb[q] == (OpView::Do { address: gc as usize });
        lemma_pos_onto(s, q, s.len() as int);
        let j = choose|j: int| 0 <= j < s.len() && starts_block(s, j) && #[trigger] folded_pos(s, j) == q;
        lemma_folded_at(s, j);
        assert(unaddressed(qb[q]) == unaddressed(f[q]));
        assert(linkable(s[j]));
        assert(qb[q] == renumber(s, pa[j]));
        assert(unaddressed(pa[j]) == unaddressed(s[j]));
        assert(pa[j] is Do);
        let a = address_of(pa[j]) as int;
        assert(is_control(pa[j]));
        assert(target_ok(s, pa[j]));
        assert(a > 0);
        assert(linkable(s[a]));
        lemma_pos_bounds(s, a);
        if a != c {
            lemma_pos_distinct(s, a, c);
        }
        assert(pa[j] == (OpView::Do { address: c as usize }));
        assert(closes_loop(pa, c));
    }
}

/// The step of an operation that takes part in linking, side by side: both
/// programs give the same result and land on corresponding positions.
proof fn lemma_control_step(s: Seq<OpView>, pa: Seq<OpView>, qb: Seq<OpView>, c: int, st: Seq<u64>, m: Seq<u8>) -> (c2: int)
    requires
        side_by_side(s, pa, qb),
        0 <= c < s.len(),
        linkable(s[c]),
    ensures
        step_spec(pa, Machine { pc: c, stack: st, mem: m }).1 == step_spec(
            qb,
            Machine { pc: folded_pos(s, c), stack: st, mem: m },
        ).1,
        step_spec(pa, Machine { pc: c, stack: st, mem: m }).1 != Ok::<StepResult, EmulationError>(StepResult::Halted),
        step_spec(pa, Machine { pc: c, stack: st, mem: m }).1 is Ok ==> {
            &&& 0 <= c2 <= s.len()
            &&& (c2 < s.len() ==> starts_block(s, c2))
            &&& step_spec(pa, Machine { pc: c, stack: st, mem: m }).0.pc == c2
            &&& step_spec(qb, Machine { pc: folded_pos(s, c), stack: st, mem: m }).0 == Machine {
                pc: folded_pos(s, c2),
                ..step_spec(pa, Machine { pc: c, stack: st, mem: m }).0
            }
        },
{
    let len = s.len();
    let gc = folded_pos(s, c);
    lemma_linkable_starts(s, c);
    lemma_folded_at(s, c);
    lemma_pos_end(s);
    lemma_pos_step(s, c);
    lemma_pos_bounds(s, c);
    assert(unaddressed(pa[c]) == unaddressed(s[c]));
    assert(qb[gc] == renumber(s, pa[c]));
    assert(pa.len() == len && qb.len() == fold_ops(s).len());
    let op = pa[c];
    if is_control(op) {
        let a = address_of(op) as int;
        assert(target_ok(s, op));
        assert(a < len);
        if a > 0 {
            let t = a;
            assert(linkable(s[t]));
            lemma_linkable_starts(s, t);
            lemma_pos_mono(s, t, len as int);
            lemma_pos_step(s, t);
            lemma_pos_bounds(s, t);
            lemma_pos_bounds(s, a);
        } else {
            lemma_pos_bounds(s, 0);
        }
        match op {
            OpView::If { address } | OpView::Do { address } => {
                assert(address > 0);
                if st.len() >= 1 && st.last() == 0 {
                    return a + 1;
                }
                return c + 1;
            },
            OpView::Else { address } => {
                assert(address > 0);
                return a + 1;
            },
            OpView::End { address } => {
                if address > 0 {
                    return a;
                }
                lemma_returns_to_start_same(s, pa, qb, c);
                if returns_to_start(pa, c) {
                    return 0;
                }
                return c + 1;
            },
            _ => {
                return c;
            },
        }
    }
    c + 1
}

/// The last step of a block that does not take part in linking, side by
/// side with the one step of its folded operation.
proof fn lemma_last_step(
    s: Seq<OpView>,
    pa: Seq<OpView>,
    qb: Seq<OpView>,
    c: int,
    p: int,
    stq: Seq<u64>,
    mq: Seq<u8>,
    stp: Seq<u64>,
    mp: Seq<u8>,
)
    requires
        side_by_side(s, pa, qb),
        0 <= c <= p < s.len(),
        starts_block(s, c),
        !linkable(s[c]),
        p + 1 == block_end(s, c),
        apply_all(s.subrange(c, p), stq, mq) == Ok::<(Seq<u64>, Seq<u8>, Seq<Event>), EmulationError>(
            (stp, mp, Seq::empty()),
        ),
    ensures
        step_spec(pa, Machine { pc: p, stack: stp, mem: mp }).1 == step_spec(
            qb,
            Machine { pc: folded_pos(s, c), stack: stq, mem: mq },
        ).1,
        step_spec(pa, Machine { pc: p, stack: stp, mem: mp }).1 != Ok::<StepResult, EmulationError>(
            StepResult::Halted,
        ),
        step_spec(pa, Machine { pc: p, stack: stp, mem: mp }).1 is Ok ==> {
            &&& step_spec(pa, Machine { pc: p, stack: stp, mem: mp }).0.pc == p + 1
            &&& step_spec(qb, Machine { pc: folded_pos(s, c), stack: stq, mem: mq }).0 == Machine {
                pc: folded_pos(s, p + 1),
                ..step_spec(pa, Machine { pc: p, stack: stp, mem: mp }).0
            }
        },
{
    let gc = folded_pos(s, c);
    let f = fold_ops(s);
    let be = p + 1;
    lemma_block(s, c);
    lemma_folded_at(s, c);
    lemma_pos_end(s);
    lemma_pos_mono(s, be, s.len() as int);
    if p > c {
        assert(!starts_block(s, p));
    }
    assert(!linkable(s[p]));
    assert(unaddressed(pa[p]) == unaddressed(s[p]));
    lemma_plain(pa[p], s[p]);
    assert(unaddressed(qb[gc]) == unaddressed(f[gc]));
    lemma_plain(qb[gc], f[gc]);
    let x = f[gc];
    lemma_block_runs(s, c, stq, mq);
    lemma_apply_all_single(x, stq, mq);
    assert(s.subrange(c, be) =~= s.subrange(c, p).push(s[p]));
    crate::laws::lemma_apply_all_push(s.subrange(c, p), s[p], stq, mq);
    match apply(s[p], stp, mp) {
        Ok((a, b, e)) => {
            assert(Seq::<Event>::empty() + events_of(e) =~= events_of(e));
            match apply(x, stq, mq) {
                Ok((a2, b2, e2)) => {
                    lemma_events_of_same(e, e2);
                },
                Err(_) => {},
            }
        },
        Err(_) => {},
    }
}

/// A step inside a block, before its last operation: the program as written
/// moves on alone, and a fault there is the fault of the folded operation.
proof fn lemma_mid_step(
    s: Seq<OpView>,
    pa: Seq<OpView>,
    qb: Seq<OpView>,
    c: int,
    p: int,
    stq: Seq<u64>,
    mq: Seq<u8>,
    stp: Seq<u64>,
    mp: Seq<u8>,
)
    requires
        side_by_side(s, pa, qb),
        0 <= c <= p,
        p + 1 < block_end(s, c),
        c < s.len(),
        starts_block(s, c),
        apply_all(s.subrange(c, p), stq, mq) == Ok::<(Seq<u64>, Seq<u8>, Seq<Event>), EmulationError>(
            (stp, mp, Seq::empty()),
        ),
    ensures
        step_spec(pa, Machine { pc: p, stack: stp, mem: mp }).1 is Err ==> step_spec(
            qb,
            Machine { pc: folded_pos(s, c), stack: stq, mem: mq },
        ).1 == step_spec(pa, Machine { pc: p, stack: stp, mem: mp }).1,
        step_spec(pa, Machine { pc: p, stack: stp, mem: mp }).1 is Ok ==> {
            &&& step_spec(pa, Machine { pc: p, stack: stp, mem: mp }).1 == Ok::<StepResult, EmulationError>(
                StepResult::Continue,
            )
            &&& step_spec(pa, Machine { pc: p, stack: stp, mem: mp }).0.pc == p + 1
            &&& apply_all(s.subrange(c, p + 1), stq, mq) == Ok::<
                (Seq<u64>, Seq<u8>, Seq<Event>),
                EmulationError,
            >(
                (
                    step_spec(pa, Machine { pc: p, stack: stp, mem: mp }).0.stack,
                    step_spec(pa, Machine { pc: p, stack: stp, mem: mp }).0.mem,
                    Seq::empty(),
                ),
            )
        },
{
    let gc = folded_pos(s, c);
    let f = fold_ops(s);
    let be = block_end(s, c);
    lemma_block(s, c);
    lemma_folded_at(s, c);
    lemma_pos_end(s);
    lemma_pos_mono(s, be, s.len() as int);
    if p > c {
        assert(!starts_block(s, p));
    }
    assert(s[p] is Push || s[p] is Plus || s[p] is Minus);
    assert(unaddressed(pa[p]) == unaddressed(s[p]));
    lemma_plain(pa[p], s[p]);
    assert(s.subrange(c, p + 1) =~= s.subrange(c, p).push(s[p]));
    crate::laws::lemma_apply_all_push(s.subrange(c, p), s[p], stq, mq);
    match apply(s[p], stp, mp) {
        Ok((a, b, e)) => {
            assert(e is None);
            assert(Seq::<Event>::empty() + events_of(e) =~= Seq::<Event>::empty());
        },
        Err(e) => {
            let t = s.subrange(c, be);
            assert(t.take(p + 1 - c) =~= s.subrange(c, p + 1));
            lemma_apply_all_prefix_err(t, p + 1 - c, stq, mq);
            lemma_block_runs(s, c, stq, mq);
            lemma_apply_all_single(f[gc], stq, mq);
            assert(unaddressed(qb[gc]) == unaddressed(f[gc]));
            lemma_plain(qb[gc], f[gc]);
        },
    }
}

/// One step taken by both programs with the same result carries over what
/// the rest of the runs give.
proof fn lemma_outcome_pair(pa: Seq<OpView>, qb: Seq<OpView>, m: Machine, q: Machine, n: nat, extra: nat)
    requires
        n > 0,
        step_spec(pa, m).1 == step_spec(qb, q).1,
        step_spec(pa, m).1 != Ok::<StepResult, EmulationError>(StepResult::Halted),
        step_spec(pa, m).1 is Ok ==> (outcome(pa, step_spec(pa, m).0, (n - 1) as nat) is Some ==> outcome(
            qb,
            step_spec(qb, q).0,
            (n - 1 + extra) as nat,
        ) == outcome(pa, step_spec(pa, m).0, (n - 1) as nat)),
    ensures
        outcome(pa, m, n) is Some ==> outcome(qb, q, n + extra) == outcome(pa, m, n),
{
    reveal(outcome);
    assert((n + extra - 1) as nat == (n - 1 + extra) as nat);
}

/// A step the program as written takes alone, inside a block, carries over what the
/// rest of the runs give; a fault there is a fault of the folded program.
proof fn lemma_outcome_alone(pa: Seq<OpView>, qb: Seq<OpView>, m: Machine, q: Machine, n: nat, extra: nat)
    requires
        n > 0,
        step_spec(pa, m).1 is Err ==> step_spec(qb, q).1 == step_spec(pa, m).1,
        step_spec(pa, m).1 is Ok ==> step_spec(pa, m).1 == Ok::<StepResult, EmulationError>(StepResult::Continue),
        step_spec(pa, m).1 is Ok ==> (outcome(pa, step_spec(pa, m).0, (n - 1) as nat) is Some ==> outcome(
            qb,
            q,
            (n - 1 + extra + 1) as nat,
        ) == outcome(pa, step_spec(pa, m).0, (n - 1) as nat)),
    ensures
        outcome(pa, m, n) is Some ==> outcome(qb, q, n + extra) == outcome(pa, m, n),
{
    reveal(outcome);
    assert((n - 1 + extra + 1) as nat == n + extra);
}

/// Both programs at their end give the same outcome.
proof fn lemma_outcome_end(pa: Seq<OpView>, qb: Seq<OpView>, m: Machine, q: Machine, n: nat, extra: nat)
    requires
        m.pc >= pa.len(),
        q.pc >= qb.len(),
        m.stack == q.stack,
        m.mem == q.mem,
    ensures
        outcome(pa, m, n) is Some ==> outcome(qb, q, n + extra) == outcome(pa, m, n),
{
    reveal(outcome);
}

/// Running side by side: the program as written at position `p` inside the
/// block that starts at `c`, having run the block's operations before `p`,
/// and the folded program at the folded position of `c`, before the block.
/// Whatever the program as written comes to within `n` steps, the folded program comes
/// to within `n + extra` steps.
proof fn lemma_simulate(
    s: Seq<OpView>,
    pa: Seq<OpView>,
    qb: Seq<OpView>,
    c: int,
    p: int,
    stq: Seq<u64>,
    mq: Seq<u8>,
    stp: Seq<u64>,
    mp: Seq<u8>,
    extra: nat,
    n: nat,
)
    requires
        side_by_side(s, pa, qb),
        0 <= c <= p <= s.len(),
        c == s.len() ==> p == c,
        c < s.len() ==> starts_block(s, c) && p < block_end(s, c),
        apply_all(s.subrange(c, p), stq, mq) == Ok::<(Seq<u64>, Seq<u8>, Seq<Event>), EmulationError>(
            (stp, mp, Seq::empty()),
        ),
    ensures
        outcome(pa, Machine { pc: p, stack: stp, mem: mp }, n) is Some ==> outcome(
            qb,
            Machine { pc: folded_pos(s, c), stack: stq, mem: mq },
            n + extra,
        ) == outcome(pa, Machine { pc: p, stack: stp, mem: mp }, n),
    decreases n,
{
    let mp0 = Machine { pc: p, stack: stp, mem: mp };
    let mq0 = Machine { pc: folded_pos(s, c), stack: stq, mem: mq };
    if n > 0 {
        if c == s.len() {
            assert(s.subrange(c, p) =~= Seq::<OpView>::empty());
            lemma_pos_end(s);
            lemma_outcome_end(pa, qb, mp0, mq0, n, extra);
        } else {
            lemma_block(s, c);
            let be = block_end(s, c);
            if linkable(s[c]) {
                assert(s.subrange(c, p) =~= Seq::<OpView>::empty());
                let c2 = lemma_control_step(s, pa, qb, c, stp, mp);
                let m1 = step_spec(pa, mp0).0;
                if step_spec(pa, mp0).1 is Ok {
                    assert(s.subrange(c2, c2) =~= Seq::<OpView>::empty());
                    if c2 < s.len() {
                        lemma_block(s, c2);
                    }
                    lemma_simulate(s, pa, qb, c2, c2, m1.stack, m1.mem, m1.stack, m1.mem, extra, (n - 1) as nat);
                }
                lemma_outcome_pair(pa, qb, mp0, mq0, n, extra);
            } else if p + 1 == be {
                lemma_last_step(s, pa, qb, c, p, stq, mq, stp, mp);
                let m1 = step_spec(pa, mp0).0;
                if step_spec(pa, mp0).1 is Ok {
                    assert(s.subrange(be, be) =~= Seq::<OpView>::empty());
                    if be < s.len() {
                        lemma_block(s, be);
                    }
                    lemma_simulate(s, pa, qb, be, be, m1.stack, m1.mem, m1.stack, m1.mem, extra, (n - 1) as nat);
                }
                lemma_outcome_pair(pa, qb, mp0, mq0, n, extra);
            } else {
                lemma_mid_step(s, pa, qb, c, p, stq, mq, stp, mp);
                let m1 = step_spec(pa, mp0).0;
                if step_spec(pa, mp0).1 is Ok {
                    lemma_simulate(s, pa, qb, c, p + 1, stq, mq, m1.stack, m1.mem, extra + 1, (n - 1) as nat);
                }
                lemma_outcome_alone(pa, qb, mp0, mq0, n, extra);
            }
        }
    } else {
        reveal(outcome);
    }
}

/// What a run gives after a step that continued, or asked for an event.
pub open spec fn after_step(
    r: StepResult,
    o: Option<(Result<(Seq<u64>, Seq<u8>), EmulationError>, Seq<Event>)>,
) -> Option<(Result<(Seq<u64>, Seq<u8>), EmulationError>, Seq<Event>)> {
    match r {
        StepResult::Output(ev) => match o {
            Some((res, evs)) => Some((res, seq![ev] + evs)),
            None => None,
        },
        _ => o,
    }
}

proof fn lemma_outcome_unfold(ops: Seq<OpView>, m: Machine, n: nat)
    requires
        n > 0,
    ensures
        outcome(ops, m, n) == match step_spec(ops, m).1 {
            Err(e) => Some((Err(e), Seq::empty())),
            Ok(StepResult::Halted) => Some((Ok((step_spec(ops, m).0.stack, step_spec(ops, m).0.mem)), Seq::empty())),
            Ok(r) => after_step(r, outcome(ops, step_spec(ops, m).0, (n - 1) as nat)),
        },
{
    reveal(outcome);
}

/// More steps change nothing once a run has ended.
pub proof fn lemma_outcome_more_fuel(ops: Seq<OpView>, m: Machine, n: nat, n2: nat)
    requires
        n <= n2,
        outcome(ops, m, n) is Some,
    ensures
        outcome(ops, m, n2) == outcome(ops, m, n),
    decreases n,
{
    reveal(outcome);
    if n > 0 {
        let m1 = step_spec(ops, m).0;
        if step_spec(ops, m).1 is Ok && step_spec(ops, m).1 != Ok::<StepResult, EmulationError>(StepResult::Halted) {
            lemma_outcome_more_fuel(ops, m1, (n - 1) as nat, (n2 - 1) as nat);
        }
    }
}

/// The program as written runs through a block that does not take part in
/// linking as the folded program runs its one folded operation.
proof fn lemma_block_back(
    s: Seq<OpView>,
    pa: Seq<OpView>,
    qb: Seq<OpView>,
    c: int,
    p: int,
    stq: Seq<u64>,
    mq: Seq<u8>,
    stp: Seq<u64>,
    mp: Seq<u8>,
    k: nat,
)
    requires
        side_by_side(s, pa, qb),
        0 <= c <= p < block_end(s, c),
        c < s.len(),
        starts_block(s, c),
        !linkable(s[c]),
        apply_all(s.subrange(c, p), stq, mq) == Ok::<(Seq<u64>, Seq<u8>, Seq<Event>), EmulationError>(
            (stp, mp, Seq::empty()),
        ),
    ensures
        ({
            let q = Machine { pc: folded_pos(s, c), stack: stq, mem: mq };
            let o = outcome(pa, Machine { pc: p, stack: stp, mem: mp }, (k + (block_end(s, c) - p)) as nat);
            match step_spec(qb, q).1 {
                Err(e) => o == Some((Err::<(Seq<u64>, Seq<u8>), EmulationError>(e), Seq::<Event>::empty())),
                Ok(r) => r != StepResult::Halted && step_spec(qb, q).0.pc == folded_pos(s, block_end(s, c)) && o
                    == after_step(
                    r,
                    outcome(
                        pa,
                        Machine { pc: block_end(s, c), stack: step_spec(qb, q).0.stack, mem: step_spec(qb, q).0.mem },
                        k,
                    ),
                ),
            }
        }),
    decreases block_end(s, c) - p,
{
    let mp0 = Machine { pc: p, stack: stp, mem: mp };
    let be = block_end(s, c);
    lemma_block(s, c);
    lemma_outcome_unfold(pa, mp0, (k + (be - p)) as nat);
    if p + 1 == be {
        lemma_last_step(s, pa, qb, c, p, stq, mq, stp, mp);
    } else {
        lemma_mid_step(s, pa, qb, c, p, stq, mq, stp, mp);
        let m1 = step_spec(pa, mp0).0;
        if step_spec(pa, mp0).1 is Ok {
            lemma_block_back(s, pa, qb, c, p + 1, stq, mq, m1.stack, m1.mem, k);
            assert((k + (be - p) - 1) as nat == (k + (be - (p + 1))) as nat);
        } else {
            lemma_block(s, c);
            let q = Machine { pc: folded_pos(s, c), stack: stq, mem: mq };
            assert(step_spec(qb, q).1 == step_spec(pa, mp0).1);
        }
    }
}

/// Running side by side the other way: whatever the folded program comes to
/// within `n` steps from the start of a block, the program as written comes to within
/// `n` times one more than its length.
proof fn lemma_simulate_back(
    s: Seq<OpView>,
    pa: Seq<OpView>,
    qb: Seq<OpView>,
    c: int,
    st: Seq<u64>,
    m: Seq<u8>,
    n: nat,
)
    requires
        side_by_side(s, pa, qb),
        0 <= c <= s.len(),
        c < s.len() ==> starts_block(s, c),
    ensures
        outcome(qb, Machine { pc: folded_pos(s, c), stack: st, mem: m }, n) is Some ==> outcome(
            pa,
            Machine { pc: c, stack: st, mem: m },
            n * (s.len() + 1),
        ) == outcome(qb, Machine { pc: folded_pos(s, c), stack: st, mem: m }, n),
    decreases n,
{
    let big = s.len() + 1;
    let mp0 = Machine { pc: c, stack: st, mem: m };
    let mq0 = Machine { pc: folded_pos(s, c), stack: st, mem: m };
    if n == 0 {
        reveal(outcome);
    } else {
        assert(n * big == (n - 1) * big + big) by (nonlinear_arith);
        assert((n - 1) * big >= 0) by (nonlinear_arith)
            requires
                n >= 1,
                big >= 1,
        ;
        lemma_outcome_unfold(qb, mq0, n);
        lemma_outcome_unfold(pa, mp0, n * big);
        if c == s.len() {
            lemma_pos_end(s);
        } else {
            lemma_block(s, c);
            let be = block_end(s, c);
            if linkable(s[c]) {
                let c2 = lemma_control_step(s, pa, qb, c, st, m);
                let m1 = step_spec(pa, mp0).0;
                if step_spec(pa, mp0).1 is Ok {
                    lemma_simulate_back(s, pa, qb, c2, m1.stack, m1.mem, (n - 1) as nat);
                    let q1 = step_spec(qb, mq0).0;
                    if outcome(qb, q1, (n - 1) as nat) is Some {
                        lemma_outcome_more_fuel(pa, m1, ((n - 1) * big) as nat, (n * big - 1) as nat);
                    }
                }
            } else {
                let k = (n * big - (be - c)) as nat;
                assert(s.subrange(c, c) =~= Seq::<OpView>::empty());
                lemma_block_back(s, pa, qb, c, c, st, m, st, m, k);
                assert(k + (be - c) == n * big);
                let q1 = step_spec(qb, mq0).0;
                if step_spec(qb, mq0).1 is Ok {
                    if be < s.len() {
                        lemma_block(s, be);
                    }
                    lemma_simulate_back(s, pa, qb, be, q1.stack, q1.mem, (n - 1) as nat);
                    if outcome(qb, q1, (n - 1) as nat) is Some {
                        lemma_outcome_more_fuel(
                            pa,
                            Machine { pc: be, stack: q1.stack, mem: q1.mem },
                            ((n - 1) * big) as nat,
                            k,
                        );
                    }
                }
            }
        }
    }
}

/// Folding arithmetic before linking does not change what a program does.
/// Take a program whose blocks are all closed, linked as written and linked
/// after folding, and start both from the same stack and memory. When the
/// program as written ends within some number of steps, the folded one ends
/// within as many, the same way (the same final stack and memory, or the same
/// fault) after asking for the same events. When the folded one ends within
/// some number of steps, the program as written ends the same way within that
/// number times one more than its length.
pub proof fn law_fold_keeps_outcome(s: Seq<OpView>, stack: Seq<u64>, mem: Seq<u8>, fuel: nat)
    requires
        unlinked(s),
        s.len() <= usize::MAX,
        fold_fits(s),
        link(s) is Ok,
        blocks_closed(link(s)->Ok_0),
    ensures
        link(fold_ops(s)) is Ok,
        outcome(link(s)->Ok_0, Machine { pc: 0, stack, mem }, fuel) is Some ==> outcome(
            link(fold_ops(s))->Ok_0,
            Machine { pc: 0, stack, mem },
            fuel,
        ) == outcome(link(s)->Ok_0, Machine { pc: 0, stack, mem }, fuel),
        outcome(link(fold_ops(s))->Ok_0, Machine { pc: 0, stack, mem }, fuel) is Some ==> outcome(
            link(s)->Ok_0,
            Machine { pc: 0, stack, mem },
            fuel * (s.len() + 1),
        ) == outcome(link(fold_ops(s))->Ok_0, Machine { pc: 0, stack, mem }, fuel),
{
    lemma_link_fold(s);
    lemma_pos_bounds(s, 0);
    assert(s.subrange(0, 0) =~= Seq::<OpView>::empty());
    if s.len() > 0 {
        assert(s.take(0) =~= Seq::<OpView>::empty());
        lemma_block(s, 0);
    }
    lemma_simulate(s, link(s)->Ok_0, link(fold_ops(s))->Ok_0, 0, 0, stack, mem, stack, mem, 0, fuel);
    lemma_simulate_back(s, link(s)->Ok_0, link(fold_ops(s))->Ok_0, 0, stack, mem, fuel);
}

/// Whether no macro body of a table has a jump address set.
pub open spec fn table_unlinked(t: MacroTable) -> bool {
    forall|k: int| 0 <= k < t.len() ==> unlinked(#[trigger] t[k].1)
}

proof fn lemma_unlinked_parts(a: Seq<OpView>, b: Seq<OpView>)
    requires
        unlinked(a),
        unlinked(b),
    ensures
        unlinked(a + b),
{
    assert forall|k: int| 0 <= k < (a + b).len() && is_control(#[trigger] (a + b)[k]) implies address_of((a + b)[k])
        == 0 by {
        if k < a.len() {
            assert((a + b)[k] == a[k]);
        } else {
            assert((a + b)[k] == b[k - a.len()]);
        }
    }
}

proof fn lemma_unlinked_one(op: OpView)
    requires
        is_control(op) ==> address_of(op) == 0,
    ensures
        unlinked(seq![op]),
{
    assert(seq![op][0] == op);
}

proof fn lemma_collect_unlinked(s: Seq<OpView>)
    requires
        unlinked(s),
    ensures
        collect(s) matches Ok(c) ==> unlinked(c.main) && unlinked(c.pool) && table_unlinked(c.table),
    decreases s.len(),
{
    if s.len() > 0 {
        let p = s.drop_last();
        assert(unlinked(p)) by {
            assert forall|k: int| 0 <= k < p.len() && is_control(#[trigger] p[k]) implies address_of(p[k]) == 0 by {
                assert(p[k] == s[k]);
            }
        }
        lemma_collect_unlinked(p);
        assert(is_control(s[s.len() - 1]) ==> address_of(s[s.len() - 1]) == 0);
        lemma_unlinked_one(s.last());
        if let Ok(c) = collect(p) {
            lemma_unlinked_parts(c.main, seq![s.last()]);
            lemma_unlinked_parts(c.pool, seq![s.last()]);
            assert(c.main.push(s.last()) =~= c.main + seq![s.last()]);
            assert(c.pool.push(s.last()) =~= c.pool + seq![s.last()]);
            assert(unlinked(Seq::<OpView>::empty()));
            let t2 = c.table.push((c.name, c.pool));
            assert(table_unlinked(t2)) by {
                assert forall|k: int| 0 <= k < t2.len() implies unlinked(#[trigger] t2[k].1) by {
                    if k < c.table.len() {
                        assert(t2[k] == c.table[k]);
                    }
                }
            }
        }
    } else {
        assert(unlinked(Seq::<OpView>::empty()));
        assert(table_unlinked(Seq::<(Seq<char>, Seq<OpView>)>::empty()));
    }
}

proof fn lemma_lookup_unlinked(t: MacroTable, name: Seq<char>)
    requires
        table_unlinked(t),
    ensures
        lookup(t, name) matches Some(b) ==> unlinked(b),
    decreases t.len(),
{
    if t.len() > 0 {
        assert(unlinked(t[0].1));
        assert(table_unlinked(t.drop_first())) by {
            assert forall|k: int| 0 <= k < t.drop_first().len() implies unlinked(#[trigger] t.drop_first()[k].1) by {
                assert(t.drop_first()[k] == t[k + 1]);
            }
        }
        lemma_lookup_unlinked(t.drop_first(), name);
    }
}

proof fn lemma_expand_seq_unlinked(s: Seq<OpView>, t: MacroTable, fuel: nat)
    requires
        unlinked(s),
        table_unlinked(t),
    ensures
        expand_seq(s, t, fuel) matches Ok(x) ==> unlinked(x),
    decreases fuel, 1nat, s.len(),
{
    if s.len() > 0 {
        let p = s.drop_last();
        assert(unlinked(p)) by {
            assert forall|k: int| 0 <= k < p.len() && is_control(#[trigger] p[k]) implies address_of(p[k]) == 0 by {
                assert(p[k] == s[k]);
            }
        }
        lemma_expand_seq_unlinked(p, t, fuel);
        if let Ok(a) = expand_seq(p, t, fuel) {
            match s.last() {
                OpView::CallMacro { name } => {
                    lemma_expand_name_unlinked(name, t, fuel);
                    if let Ok(b) = expand_name(name, t, fuel) {
                        lemma_unlinked_parts(a, b);
                    }
                },
                op => {
                    assert(is_control(s[s.len() - 1]) ==> address_of(s[s.len() - 1]) == 0);
                    lemma_unlinked_one(op);
                    lemma_unlinked_parts(a, seq![op]);
                    assert(a.push(op) =~= a + seq![op]);
                },
            }
        }
    }
}

proof fn lemma_expand_name_unlinked(name: Seq<char>, t: MacroTable, fuel: nat)
    requires
        table_unlinked(t),
    ensures
        expand_name(name, t, fuel) matches Ok(x) ==> unlinked(x),
    decreases fuel, 0nat, 0nat,
{
    lemma_lookup_unlinked(t, name);
    if let Some(body) = lookup(t, name) {
        if fuel > 0 {
            lemma_expand_seq_unlinked(body, t, (fuel - 1) as nat);
        }
    }
}

/// A parsed program has no jump address set.
pub proof fn lemma_parse_unlinked(code: Seq<char>, included: Seq<Seq<char>>)
    ensures
        parse_source_spec(code, included) matches Ok(v) ==> unlinked(v),
{
    let keep = |op: OpView| is_control(op) ==> address_of(op) == 0;
    assert forall|t: Seq<char>| #[trigger] token_op(t) is Ok implies keep(token_op(t)->Ok_0) by {}
    lemma_parse_keeps(code, included, keep);
    if let Ok(v) = parse_source_spec(code, included) {
        assert forall|k: int| 0 <= k < v.len() && is_control(#[trigger] v[k]) implies address_of(v[k]) == 0 by {
            assert(keep(v[k]));
        }
    }
}

/// The optimisation level does not change what a program does. Take the
/// operations parsed from a source text whose blocks are all closed, linked
/// without optimisation and linked with it (which succeeds unless two merged
/// additions reach a depth beyond `usize`), and start both from the same stack
/// and memory. When the program linked without optimisation ends within some
/// number of steps, the optimised one ends within as many, the same way (the
/// same final stack and memory, or the same fault) after asking for the same
/// events; when the optimised one ends within some number of steps, the other
/// ends the same way within that number times one more than its length.
pub proof fn law_optimisation_keeps_outcome(
    code: Seq<char>,
    included: Seq<Seq<char>>,
    ops: Seq<OpView>,
    opt_level: usize,
    stack: Seq<u64>,
    mem: Seq<u8>,
    fuel: nat,
)
    requires
        parse_source_spec(code, included) == Ok::<Seq<OpView>, ParseFault>(ops),
        opt_level > 0,
        cross_reference_spec(ops, 0) is Ok,
        cross_reference_spec(ops, 0)->Ok_0.len() <= usize::MAX,
        blocks_closed(cross_reference_spec(ops, 0)->Ok_0),
        cross_reference_spec(ops, opt_level) != Err::<Seq<OpView>, LinkFault>(LinkFault::DepthOverflow),
    ensures
        cross_reference_spec(ops, opt_level) is Ok,
        outcome(cross_reference_spec(ops, 0)->Ok_0, Machine { pc: 0, stack, mem }, fuel) is Some ==> outcome(
            cross_reference_spec(ops, opt_level)->Ok_0,
            Machine { pc: 0, stack, mem },
            fuel,
        ) == outcome(cross_reference_spec(ops, 0)->Ok_0, Machine { pc: 0, stack, mem }, fuel),
        outcome(cross_reference_spec(ops, opt_level)->Ok_0, Machine { pc: 0, stack, mem }, fuel) is Some ==> outcome(
            cross_reference_spec(ops, 0)->Ok_0,
            Machine { pc: 0, stack, mem },
            fuel * (cross_reference_spec(ops, 0)->Ok_0.len() + 1),
        ) == outcome(cross_reference_spec(ops, opt_level)->Ok_0, Machine { pc: 0, stack, mem }, fuel),
{
    lemma_parse_unlinked(code, included);
    lemma_collect_unlinked(ops);
    let c = collect(ops)->Ok_0;
    lemma_expand_seq_unlinked(c.main, c.table, c.table.len());
    let x = expand_seq(c.main, c.table, c.table.len())->Ok_0;
    assert(cross_reference_spec(ops, 0) == link(x));
    crate::laws::law_link_keeps_operations(x);
    assert(fold_fits(x));
    law_fold_keeps_outcome(x, stack, mem, fuel);
}

} // verus!
