//! Properties of the library as a whole: what the optimiser keeps, what
//! linking changes, what a macro call stands for, what a comment changes,
//! what memory gives back, and how stack operations undo each other.
use vstd::prelude::*;
use crate::operation::OpView;
use crate::optimize::{fold_ops, fold_step, fold_fits, step_overflows};
use crate::machine::{
    apply, int_sum, in_memory, step_spec, Machine, Event, EmulationError, StepResult, MEM_BASE, le_bytes,
    le_value, pow256, write_at, wide_in_memory,
};
use crate::equivalence::{merges, linkable};
use crate::codegen::{asm_text, repeat_text, syscall_pops};
use crate::machine::closes_loop;
use crate::link::{
    link, link_from, set_at, collect, collect_step, collection_start, expand_seq, expand_name, lookup, Collection,
    LinkFault, MacroTable,
};
use crate::program::cross_reference_spec;
use crate::parse::{
    parse_line, scan_from, source_text, concat_all, body_text, token_op, is_digit, all_digits, digits_value, ParseFault,
};
use crate::text::{
    no_marker, strip_start, strip_end, trim, lemma_strip_start_append, lemma_strip_start_suffix,
    lemma_strip_end_append, lemma_strip_end_prefix, lemma_strip_end_is_prefix, lemma_before_comment_cut,
    lemma_before_comment_none, lemma_words_strip_end, is_space, words, words_from, lines, lines_from, decimal,
    digit_char,
};

verus! {

/// The events of an optional event.
pub open spec fn events_of(e: Option<Event>) -> Seq<Event> {
    match e {
        Some(x) => seq![x],
        None => Seq::empty(),
    }
}

/// Running a sequence of operations one after the other from a stack and a
/// memory, each by [`apply`] (an operation that moves control does nothing
/// here): the final stack and memory and the events asked for, or the first
/// fault.
pub open spec fn apply_all(s: Seq<OpView>, stack: Seq<u64>, mem: Seq<u8>) -> Result<
    (Seq<u64>, Seq<u8>, Seq<Event>),
    EmulationError,
>
    decreases s.len(),
{
    if s.len() == 0 {
        Ok((stack, mem, Seq::empty()))
    } else {
        match apply_all(s.drop_last(), stack, mem) {
            Err(e) => Err(e),
            Ok((st, m, ev)) => match apply(s.last(), st, m) {
                Err(e) => Err(e),
                Ok((st2, m2, e2)) => Ok((st2, m2, ev + events_of(e2))),
            },
        }
    }
}

/// The sum of two sequences is the sum of their sums.
pub proof fn lemma_int_sum_concat(u: Seq<u64>, v: Seq<u64>)
    ensures
        int_sum(u + v) == int_sum(u) + int_sum(v),
    decreases v.len(),
{
    if v.len() == 0 {
        assert(u + v =~= u);
    } else {
        lemma_int_sum_concat(u, v.drop_last());
        assert((u + v).drop_last() =~= u + v.drop_last());
    }
}

/// Running `a` then `x` is running `a.push(x)`.
pub proof fn lemma_apply_all_push(a: Seq<OpView>, x: OpView, stack: Seq<u64>, mem: Seq<u8>)
    ensures
        apply_all(a.push(x), stack, mem) == match apply_all(a, stack, mem) {
            Err(e) => Err(e),
            Ok((st, m, ev)) => match apply(x, st, m) {
                Err(e) => Err(e),
                Ok((st2, m2, e2)) => Ok((st2, m2, ev + events_of(e2))),
            },
        },
{
    assert(a.push(x).drop_last() =~= a);
}

/// `push 1; +` does what `inc` does.
proof fn lemma_inc(st: Seq<u64>, m: Seq<u8>)
    ensures
        match apply(OpView::Push(1), st, m) {
            Ok((st1, m1, _)) => apply(OpView::Plus { depth: 1 }, st1, m1) == apply(OpView::Inc, st, m),
            Err(_) => false,
        },
{
    let st1 = st.push(1);
    if st.len() > 0 {
        let n = st1.len();
        let t = st1.skip(n - 2);
        assert(t.drop_last().drop_last() =~= Seq::<u64>::empty());
        assert(t.drop_last().last() == st.last());
        assert(t.last() == 1);
        assert(int_sum(t.drop_last().drop_last()) == 0);
        assert(int_sum(t.drop_last()) == st.last() as int);
        assert(int_sum(t) == st.last() as int + 1);
        assert(st1.take(n - 2) =~= st.drop_last());
    }
}

/// `push 1; -` does what `dec` does.
proof fn lemma_dec(st: Seq<u64>, m: Seq<u8>)
    ensures
        match apply(OpView::Push(1), st, m) {
            Ok((st1, m1, _)) => apply(OpView::Minus, st1, m1) == apply(OpView::Dec, st, m),
            Err(_) => false,
        },
{
    let st1 = st.push(1);
    if st.len() > 0 {
        assert(st1.take(st1.len() - 2) =~= st.drop_last());
        assert(st1[st1.len() - 2] == st.last());
    }
}

/// Two additions in a row do what one addition over both depths does.
proof fn lemma_plus_plus(a: usize, b: usize, st: Seq<u64>, m: Seq<u8>)
    requires
        a + b <= usize::MAX,
    ensures
        match apply(OpView::Plus { depth: a }, st, m) {
            Ok((st1, m1, e1)) => e1 is None && apply(OpView::Plus { depth: b }, st1, m1) == apply(
                OpView::Plus { depth: (a + b) as usize },
                st,
                m,
            ),
            Err(e) => apply(OpView::Plus { depth: (a + b) as usize }, st, m) == Err::<
                (Seq<u64>, Seq<u8>, Option<Event>),
                EmulationError,
            >(e),
        },
{
    let n = st.len();
    if n > a {
        let k1 = a + 1;
        let s1 = int_sum(st.skip(n - k1));
        let st1 = st.take(n - k1).push((s1 % 0x1_0000_0000_0000_0000) as u64);
        let n1 = st1.len();
        if n1 > b {
            let k2 = b + 1;
            let mid = st.subrange(n - k1 - b, n - k1);
            assert(st1.skip(n1 - k2) =~= mid.push((s1 % 0x1_0000_0000_0000_0000) as u64));
            assert(st1.take(n1 - k2) =~= st.take(n - (a + b + 1)));
            assert(st.skip(n - (a + b + 1)) =~= mid + st.skip(n - k1));
            lemma_int_sum_concat(mid, st.skip(n - k1));
            assert(mid.push((s1 % 0x1_0000_0000_0000_0000) as u64).drop_last() =~= mid);
            vstd::arithmetic::div_mod::lemma_add_mod_noop_right(int_sum(mid), s1, 0x1_0000_0000_0000_0000);
        }
    }
}

/// Appending `x` to a folded sequence runs as appending it unfolded.
proof fn lemma_fold_step_runs(acc: Seq<OpView>, x: OpView, stack: Seq<u64>, mem: Seq<u8>)
    requires
        !step_overflows(acc, x),
    ensures
        apply_all(fold_step(acc, x), stack, mem) == apply_all(acc.push(x), stack, mem),
{
    lemma_apply_all_push(acc, x, stack, mem);
    if acc.len() > 0 {
        let p = acc.drop_last();
        let y = acc.last();
        assert(p.push(y) =~= acc);
        lemma_apply_all_push(p, y, stack, mem);
        match (y, x) {
            (OpView::Push(1), OpView::Plus { depth: 1 }) => {
                lemma_apply_all_push(p, OpView::Inc, stack, mem);
                if let Ok((st, m, ev)) = apply_all(p, stack, mem) {
                    lemma_inc(st, m);
                    assert(ev + events_of(None) =~= ev);
                    assert(ev + events_of(None) + events_of(None) =~= ev);
                }
            },
            (OpView::Push(1), OpView::Minus) => {
                lemma_apply_all_push(p, OpView::Dec, stack, mem);
                if let Ok((st, m, ev)) = apply_all(p, stack, mem) {
                    lemma_dec(st, m);
                    assert(ev + events_of(None) =~= ev);
                    assert(ev + events_of(None) + events_of(None) =~= ev);
                }
            },
            (OpView::Plus { depth: a }, OpView::Plus { depth: b }) => {
                lemma_apply_all_push(p, OpView::Plus { depth: (a + b) as usize }, stack, mem);
                if let Ok((st, m, ev)) = apply_all(p, stack, mem) {
                    lemma_plus_plus(a, b, st, m);
                    assert(ev + events_of(None) =~= ev);
                    assert(ev + events_of(None) + events_of(None) =~= ev);
                }
            },
            _ => {},
        }
    }
}

/// Folding arithmetic does not change what a sequence of operations does:
/// from any stack and memory, the folded sequence ends with the same stack,
/// memory and events, or fails with the same fault.
pub proof fn law_fold_preserves_behaviour(s: Seq<OpView>, stack: Seq<u64>, mem: Seq<u8>)
    requires
        fold_fits(s),
    ensures
        apply_all(fold_ops(s), stack, mem) == apply_all(s, stack, mem),
    decreases s.len(),
{
    if s.len() > 0 {
        let p = s.drop_last();
        law_fold_preserves_behaviour(p, stack, mem);
        lemma_fold_step_runs(fold_ops(p), s.last(), stack, mem);
        lemma_apply_all_push(fold_ops(p), s.last(), stack, mem);
        lemma_apply_all_push(p, s.last(), stack, mem);
        assert(p.push(s.last()) =~= s);
    }
}

/// Folding never makes a sequence longer.
pub proof fn law_fold_never_longer(s: Seq<OpView>)
    ensures
        fold_ops(s).len() <= s.len(),
    decreases s.len(),
{
    if s.len() > 0 {
        law_fold_never_longer(s.drop_last());
    }
}

/// An operation with its jump address, if any, cleared.
pub open spec fn unaddressed(op: OpView) -> OpView {
    match op {
        OpView::If { .. } => OpView::If { address: 0 },
        OpView::Else { .. } => OpView::Else { address: 0 },
        OpView::Do { .. } => OpView::Do { address: 0 },
        OpView::End { .. } => OpView::End { address: 0 },
        _ => op,
    }
}

/// Whether two sequences hold the same operations up to jump addresses.
pub open spec fn same_up_to_addresses(a: Seq<OpView>, b: Seq<OpView>) -> bool {
    a.len() == b.len() && forall|i: int| 0 <= i < a.len() ==> unaddressed(#[trigger] a[i]) == unaddressed(b[i])
}

proof fn lemma_set_at_same(o: Seq<OpView>, j: int, v: OpView)
    requires
        0 <= j < o.len() ==> unaddressed(v) == unaddressed(o[j]),
    ensures
        same_up_to_addresses(set_at(o, j, v), o),
{
}

proof fn lemma_link_from_same(ops: Seq<OpView>, open: Seq<usize>, i: nat)
    ensures
        link_from(ops, open, i) matches Ok(v) ==> same_up_to_addresses(v, ops),
    decreases ops.len() - i,
{
    if i < ops.len() {
        let j = open.last() as int;
        let rest = open.drop_last();
        lemma_link_from_same(ops, open.push(i as usize), i + 1);
        lemma_link_from_same(ops, open, i + 1);
        lemma_link_from_same(ops, rest.push(i as usize), i + 1);
        let s1 = set_at(ops, j, OpView::If { address: i as usize });
        lemma_link_from_same(s1, rest.push(i as usize), i + 1);
        let open1 = if ops[j] == (OpView::Do { address: 0 }) { rest.drop_last() } else { rest };
        let ops1 = if ops[j] == (OpView::Do { address: 0 }) && rest.len() > 0 {
            set_at(ops, i as int, OpView::End { address: rest.last() })
        } else {
            ops
        };
        if ops[i as int] is End {
            lemma_set_at_same(ops, i as int, OpView::End { address: rest.last() });
        }
        lemma_link_from_same(ops1, open1, i + 1);
        let a = set_at(ops1, j, OpView::If { address: i as usize });
        let b = set_at(ops1, j, OpView::Else { address: i as usize });
        let c = set_at(ops1, j, OpView::Do { address: i as usize });
        lemma_link_from_same(a, open1, i + 1);
        lemma_link_from_same(b, open1, i + 1);
        lemma_link_from_same(c, open1, i + 1);
        if ops[i as int] is End {
            if 0 <= j < ops.len() {
                if ops1[j] is If {
                    lemma_set_at_same(ops1, j, OpView::If { address: i as usize });
                }
                if ops1[j] is Else {
                    lemma_set_at_same(ops1, j, OpView::Else { address: i as usize });
                }
                if ops1[j] is Do {
                    lemma_set_at_same(ops1, j, OpView::Do { address: i as usize });
                }
            }
        }
        if ops[i as int] is Else && 0 <= j < ops.len() && ops[j] is If {
            lemma_set_at_same(ops, j, OpView::If { address: i as usize });
        }
    }
}

/// Linking keeps every operation at its position: only jump addresses change.
pub proof fn law_link_keeps_operations(ops: Seq<OpView>)
    ensures
        link(ops) matches Ok(v) ==> same_up_to_addresses(v, ops),
{
    lemma_link_from_same(ops, Seq::empty(), 0);
}

/// Whether a sequence neither defines nor calls a macro.
pub open spec fn macro_free(s: Seq<OpView>) -> bool {
    forall|i: int| 0 <= i < s.len() ==> !(#[trigger] s[i] is DefineMacro || s[i] is EndMacro || s[i] is CallMacro)
}

proof fn lemma_collect_macro_free(s: Seq<OpView>)
    requires
        macro_free(s),
    ensures
        collect(s) == Ok::<crate::link::Collection, LinkFault>(crate::link::Collection { main: s, ..collection_start() }),
    decreases s.len(),
{
    if s.len() > 0 {
        let p = s.drop_last();
        assert(macro_free(p)) by {
            assert forall|i: int| 0 <= i < p.len() implies !(#[trigger] p[i] is DefineMacro || p[i] is EndMacro
                || p[i] is CallMacro) by {
                assert(p[i] == s[i]);
            }
        }
        lemma_collect_macro_free(p);
        assert(!(s[s.len() - 1] is DefineMacro || s[s.len() - 1] is EndMacro || s[s.len() - 1] is CallMacro));
        assert(p.push(s.last()) =~= s);
    } else {
        assert(s =~= Seq::<OpView>::empty());
    }
}

proof fn lemma_expand_macro_free(s: Seq<OpView>, table: MacroTable, fuel: nat)
    requires
        macro_free(s),
    ensures
        expand_seq(s, table, fuel) == Ok::<Seq<OpView>, LinkFault>(s),
    decreases s.len(),
{
    if s.len() > 0 {
        let p = s.drop_last();
        assert(macro_free(p)) by {
            assert forall|i: int| 0 <= i < p.len() implies !(#[trigger] p[i] is DefineMacro || p[i] is EndMacro
                || p[i] is CallMacro) by {
                assert(p[i] == s[i]);
            }
        }
        lemma_expand_macro_free(p, table, fuel);
        assert(!(s[s.len() - 1] is CallMacro));
        assert(p.push(s.last()) =~= s);
    } else {
        assert(s =~= Seq::<OpView>::empty());
    }
}

/// A program that neither defines nor calls macros, linked without
/// optimisation, is linked as written.
pub proof fn law_no_macros_links_as_written(ops: Seq<OpView>)
    requires
        macro_free(ops),
    ensures
        cross_reference_spec(ops, 0) == link(ops),
{
    lemma_collect_macro_free(ops);
    lemma_expand_macro_free(ops, Seq::empty(), 0);
}

/// A load gives back the low byte of what a store wrote at its address.
pub proof fn law_load_after_store(stack: Seq<u64>, mem: Seq<u8>, addr: u64, value: u64)
    requires
        in_memory(addr, mem.len()),
    ensures
        apply(OpView::Store, stack.push(addr).push(value), mem) matches Ok((st, m, e)) && e is None
            && st == stack && apply(OpView::Load, st.push(addr), m) == Ok::<
            (Seq<u64>, Seq<u8>, Option<Event>),
            EmulationError,
        >((stack.push(value as u8 as u64), m, None)),
{
    let s2 = stack.push(addr).push(value);
    assert(s2.take(s2.len() - 2) =~= stack);
    assert(stack.push(addr).drop_last() =~= stack);
}

/// A store changes no byte but the one at its address.
pub proof fn law_store_touches_one_byte(stack: Seq<u64>, mem: Seq<u8>, addr: u64, value: u64, other: u64)
    requires
        in_memory(addr, mem.len()),
        in_memory(other, mem.len()),
        other != addr,
    ensures
        apply(OpView::Store, stack.push(addr).push(value), mem) matches Ok((st, m, e)) && m[other - MEM_BASE]
            == mem[other - MEM_BASE],
{
}

/// `dup` then `drop` leaves a non-empty stack as it was.
pub proof fn law_dup_then_drop(stack: Seq<u64>, mem: Seq<u8>)
    requires
        stack.len() > 0,
    ensures
        apply_all(seq![OpView::Dup { depth: 1 }, OpView::Drop], stack, mem) == Ok::<
            (Seq<u64>, Seq<u8>, Seq<Event>),
            EmulationError,
        >((stack, mem, Seq::empty())),
{
    let s = seq![OpView::Dup { depth: 1 }, OpView::Drop];
    assert(s.drop_last() =~= seq![OpView::Dup { depth: 1 }]);
    assert(s.drop_last().drop_last() =~= Seq::<OpView>::empty());
    assert(stack.push(stack.last()).drop_last() =~= stack);
    assert(Seq::<Event>::empty() + events_of(None) =~= Seq::<Event>::empty());
    assert(apply_all(s.drop_last().drop_last(), stack, mem) == Ok::<(Seq<u64>, Seq<u8>, Seq<Event>), EmulationError>((stack, mem, Seq::empty())));
    assert(apply_all(s.drop_last(), stack, mem) == Ok::<(Seq<u64>, Seq<u8>, Seq<Event>), EmulationError>((stack.push(stack.last()), mem, Seq::empty())));
}

/// Three rotations leave a stack of at least three values as it was.
pub proof fn law_rot_three_times(stack: Seq<u64>, mem: Seq<u8>)
    requires
        stack.len() > 2,
    ensures
        apply_all(seq![OpView::Rot, OpView::Rot, OpView::Rot], stack, mem) == Ok::<
            (Seq<u64>, Seq<u8>, Seq<Event>),
            EmulationError,
        >((stack, mem, Seq::empty())),
{
    let s = seq![OpView::Rot, OpView::Rot, OpView::Rot];
    assert(s.drop_last() =~= seq![OpView::Rot, OpView::Rot]);
    assert(s.drop_last().drop_last() =~= seq![OpView::Rot]);
    assert(s.drop_last().drop_last().drop_last() =~= Seq::<OpView>::empty());
    let n = stack.len();
    let r1 = stack.take(n - 3).push(stack[n - 2]).push(stack[n - 1]).push(stack[n - 3]);
    let r2 = r1.take(n - 3).push(r1[n - 2]).push(r1[n - 1]).push(r1[n - 3]);
    let r3 = r2.take(n - 3).push(r2[n - 2]).push(r2[n - 1]).push(r2[n - 3]);
    assert(r1.take(n - 3) =~= stack.take(n - 3));
    assert(r2.take(n - 3) =~= stack.take(n - 3));
    assert(r3 =~= stack);
    assert(Seq::<Event>::empty() + events_of(None) =~= Seq::<Event>::empty());
    assert(apply_all(s.drop_last().drop_last().drop_last(), stack, mem) == Ok::<(Seq<u64>, Seq<u8>, Seq<Event>), EmulationError>((stack, mem, Seq::empty())));
    assert(apply_all(s.drop_last().drop_last(), stack, mem) == Ok::<(Seq<u64>, Seq<u8>, Seq<Event>), EmulationError>((r1, mem, Seq::empty())));
    assert(apply_all(s.drop_last(), stack, mem) == Ok::<(Seq<u64>, Seq<u8>, Seq<Event>), EmulationError>((r2, mem, Seq::empty())));
}

/// A program that has ended stays ended: a step past the last operation
/// changes nothing.
pub proof fn law_halted_stays_halted(ops: Seq<OpView>, m: Machine)
    requires
        m.pc >= ops.len(),
    ensures
        step_spec(ops, m) == (m, Ok::<StepResult, EmulationError>(StepResult::Halted)),
{
}

proof fn lemma_macro_free_parts(a: Seq<OpView>, b: Seq<OpView>)
    requires
        macro_free(a),
        macro_free(b),
    ensures
        macro_free(a + b),
{
    assert forall|i: int| 0 <= i < (a + b).len() implies !(#[trigger] (a + b)[i] is DefineMacro || (a + b)[i] is EndMacro
        || (a + b)[i] is CallMacro) by {
        if i < a.len() {
            assert((a + b)[i] == a[i]);
        } else {
            assert((a + b)[i] == b[i - a.len()]);
        }
    }
}

proof fn lemma_collect_push(a: Seq<OpView>, x: OpView)
    ensures
        collect(a.push(x)) == match collect(a) {
            Ok(c) => collect_step(c, x),
            Err(e) => Err(e),
        },
{
    assert(a.push(x).drop_last() =~= a);
}

/// Collecting operations that neither define nor call macros adds them to
/// the open body, or else to the program.
proof fn lemma_collect_free_tail(a: Seq<OpView>, t: Seq<OpView>)
    requires
        macro_free(t),
        collect(a) is Ok,
    ensures
        collect(a + t) == Ok::<Collection, LinkFault>(
            if collect(a)->Ok_0.open {
                Collection { pool: collect(a)->Ok_0.pool + t, ..collect(a)->Ok_0 }
            } else {
                Collection { main: collect(a)->Ok_0.main + t, ..collect(a)->Ok_0 }
            },
        ),
    decreases t.len(),
{
    let c = collect(a)->Ok_0;
    if t.len() == 0 {
        assert(a + t =~= a);
        assert(c.pool + t =~= c.pool);
        assert(c.main + t =~= c.main);
    } else {
        let t1 = t.drop_last();
        assert(macro_free(t1)) by {
            assert forall|i: int| 0 <= i < t1.len() implies !(#[trigger] t1[i] is DefineMacro || t1[i] is EndMacro
                || t1[i] is CallMacro) by {
                assert(t1[i] == t[i]);
            }
        }
        lemma_collect_free_tail(a, t1);
        assert((a + t1).push(t.last()) =~= a + t);
        lemma_collect_push(a + t1, t.last());
        assert(!(t[t.len() - 1] is DefineMacro || t[t.len() - 1] is EndMacro || t[t.len() - 1] is CallMacro));
        assert((c.pool + t1).push(t.last()) =~= c.pool + t);
        assert((c.main + t1).push(t.last()) =~= c.main + t);
    }
}

/// Expanding operations that call no macro after `a` keeps them as they are.
proof fn lemma_expand_free_tail(a: Seq<OpView>, t: Seq<OpView>, table: MacroTable, fuel: nat)
    requires
        macro_free(t),
        expand_seq(a, table, fuel) is Ok,
    ensures
        expand_seq(a + t, table, fuel) == Ok::<Seq<OpView>, LinkFault>(expand_seq(a, table, fuel)->Ok_0 + t),
    decreases t.len(),
{
    let x = expand_seq(a, table, fuel)->Ok_0;
    if t.len() == 0 {
        assert(a + t =~= a);
        assert(x + t =~= x);
    } else {
        let t1 = t.drop_last();
        assert(macro_free(t1)) by {
            assert forall|i: int| 0 <= i < t1.len() implies !(#[trigger] t1[i] is DefineMacro || t1[i] is EndMacro
                || t1[i] is CallMacro) by {
                assert(t1[i] == t[i]);
            }
        }
        lemma_expand_free_tail(a, t1, table, fuel);
        assert((a + t).drop_last() =~= a + t1);
        assert((a + t).last() == t.last());
        assert(!(t[t.len() - 1] is CallMacro));
        assert((x + t1).push(t.last()) =~= x + t);
    }
}

/// A macro call stands for the macro's body: a program that defines a macro
/// and then calls it once links (at any optimisation level) as the program
/// with the body written where the call was.
pub proof fn law_macro_call_is_its_body(
    name: Seq<char>,
    body: Seq<OpView>,
    pre: Seq<OpView>,
    post: Seq<OpView>,
    opt_level: usize,
)
    requires
        macro_free(body),
        macro_free(pre),
        macro_free(post),
    ensures
        cross_reference_spec(
            seq![OpView::DefineMacro { name }] + body + seq![OpView::EndMacro] + pre + seq![OpView::CallMacro { name }]
                + post,
            opt_level,
        ) == cross_reference_spec(pre + body + post, opt_level),
{
    let d = seq![OpView::DefineMacro { name }];
    let e = seq![OpView::EndMacro];
    let k = seq![OpView::CallMacro { name }];
    let s1 = d + body;
    let s2 = s1 + e;
    let s3 = s2 + pre;
    let s4 = s3 + k;
    let s5 = s4 + post;
    assert(d =~= Seq::<OpView>::empty().push(OpView::DefineMacro { name }));
    lemma_collect_push(Seq::empty(), OpView::DefineMacro { name });
    assert(collect(Seq::<OpView>::empty()) == Ok::<Collection, LinkFault>(collection_start()));
    let c0 = Collection { open: true, name, pool: Seq::empty(), table: Seq::empty(), main: Seq::empty() };
    assert(collect(d) == Ok::<Collection, LinkFault>(c0));
    lemma_collect_free_tail(d, body);
    assert(c0.pool + body =~= body);
    assert(s2 =~= s1.push(OpView::EndMacro));
    lemma_collect_push(s1, OpView::EndMacro);
    let table = seq![(name, body)];
    assert(Seq::<(Seq<char>, Seq<OpView>)>::empty().push((name, body)) =~= table);
    let c2 = Collection { open: false, name, pool: body, table, main: Seq::empty() };
    assert(collect(s2) == Ok::<Collection, LinkFault>(c2));
    lemma_collect_free_tail(s2, pre);
    assert(Seq::<OpView>::empty() + pre =~= pre);
    assert(s4 =~= s3.push(OpView::CallMacro { name }));
    lemma_collect_push(s3, OpView::CallMacro { name });
    lemma_collect_free_tail(s4, post);
    let main = pre.push(OpView::CallMacro { name }) + post;
    assert(collect(s5) == Ok::<Collection, LinkFault>(Collection { main, ..c2 }));
    lemma_expand_macro_free(pre, table, 1);
    assert(lookup(table, name) == Some(body));
    lemma_expand_macro_free(body, table, 0);
    assert(expand_name(name, table, 1) == Ok::<Seq<OpView>, LinkFault>(body));
    assert(pre.push(OpView::CallMacro { name }).drop_last() =~= pre);
    assert(expand_seq(pre.push(OpView::CallMacro { name }), table, 1) == Ok::<Seq<OpView>, LinkFault>(pre + body));
    lemma_expand_free_tail(pre.push(OpView::CallMacro { name }), post, table, 1);
    let x = pre + body + post;
    lemma_macro_free_parts(pre, body);
    lemma_macro_free_parts(pre + body, post);
    lemma_collect_macro_free(x);
    lemma_expand_macro_free(x, Seq::empty(), 0);
}

/// Whether `l` has no double quote.
pub open spec fn quote_free(l: Seq<char>) -> bool {
    forall|j: int| 0 <= j < l.len() ==> l[j] != '"'
}

proof fn lemma_scan_quote_free(
    s: Seq<char>,
    i: nat,
    reading: bool,
    escape: bool,
    strings: Seq<Seq<char>>,
    accum: Seq<char>,
)
    requires
        forall|j: int| i <= j < s.len() ==> s[j] != '"',
    ensures
        scan_from(s, i, reading, escape, strings, accum) == strings,
    decreases s.len() - i,
{
    if i < s.len() {
        let ch = s[i as int];
        lemma_scan_quote_free(s, i + 1, reading, true, strings, accum);
        lemma_scan_quote_free(s, i + 1, reading, false, strings, accum.push('\n'));
        lemma_scan_quote_free(s, i + 1, reading, escape, strings, if reading { accum.push(ch) } else { accum });
    }
}

/// A comment changes nothing: a line without double quotes gives the same
/// operations as its text before its first `//`.
pub proof fn law_comment_ignored(l: Seq<char>, i: int)
    requires
        0 <= i,
        i + 1 < l.len(),
        l[i] == '/' && l[i + 1] == '/',
        no_marker(l, i),
        quote_free(l),
    ensures
        parse_line(l) == parse_line(l.take(i)),
{
    let u = l.take(i);
    let w = l.skip(i);
    assert(u + w =~= l);
    lemma_strip_start_append(u, w);
    let x = strip_start(u, false);
    lemma_strip_start_suffix(u);
    let d = u.len() - x.len();
    lemma_strip_end_append(x, w);
    lemma_strip_end_prefix(w, 1);
    let sw = strip_end(w, false);
    let t = trim(l);
    assert(t == x + sw);
    assert forall|j: int| 0 <= j < t.len() implies #[trigger] t[j] == l[d + j] by {
        if j < x.len() {
            assert(t[j] == x[j]);
            assert(x[j] == u[d + j]);
        } else {
            assert(t[j] == sw[j - x.len()]);
            assert(sw[j - x.len()] == w[j - x.len()]);
        }
    }
    assert(no_marker(t, x.len() as int)) by {
        assert forall|j: int| 0 <= j < x.len() && j + 1 < t.len() implies !(#[trigger] t[j] == '/' && t[j + 1] == '/') by {
            assert(t[j] == l[d + j] && t[j + 1] == l[d + j + 1]);
        }
    }
    assert(t[x.len() as int] == '/' && t[x.len() + 1int] == '/');
    lemma_before_comment_cut(t, x.len() as int);
    assert(t.take(x.len() as int) =~= x);
    lemma_strip_end_is_prefix(x);
    let tu = trim(u);
    assert(tu == strip_end(x, false));
    assert forall|j: int| 0 <= j < tu.len() implies #[trigger] tu[j] == l[d + j] by {
        assert(tu[j] == x[j]);
        assert(x[j] == u[d + j]);
    }
    assert(no_marker(tu, tu.len() as int)) by {
        assert forall|j: int| 0 <= j < tu.len() && j + 1 < tu.len() implies !(#[trigger] tu[j] == '/' && tu[j + 1]
            == '/') by {
            assert(tu[j] == l[d + j] && tu[j + 1] == l[d + j + 1]);
        }
    }
    lemma_before_comment_none(tu);
    lemma_words_strip_end(x);
    lemma_scan_quote_free(t, 0, false, false, Seq::empty(), Seq::empty());
    lemma_scan_quote_free(tu, 0, false, false, Seq::empty(), Seq::empty());
}

proof fn lemma_pow256_pos(m: nat)
    ensures
        pow256(m) > 0,
    decreases m,
{
    if m > 0 {
        lemma_pow256_pos((m - 1) as nat);
    }
}

/// Reading back the bytes of a number gives the number modulo the width.
proof fn lemma_le_value_bytes(v: nat, n: nat)
    ensures
        le_bytes(v, n).len() == n,
        le_value(le_bytes(v, n)) == v % pow256(n),
    decreases n,
{
    if n > 0 {
        lemma_le_value_bytes(v / 256, (n - 1) as nat);
        lemma_pow256_pos((n - 1) as nat);
        let b = le_bytes(v, n);
        assert(b[0] == (v % 256) as u8);
        assert(b.drop_first() =~= le_bytes(v / 256, (n - 1) as nat));
        vstd::arithmetic::div_mod::lemma_breakdown(v as int, 256, pow256((n - 1) as nat) as int);
    }
}

proof fn lemma_wide(stack: Seq<u64>, mem: Seq<u8>, addr: u64, value: u64, store: OpView, load: OpView, n: nat)
    requires
        (store == OpView::Store64 && load == OpView::Load64 && n == 8) || (store == OpView::Store32 && load
            == OpView::Load32 && n == 4),
        wide_in_memory(addr, n, mem.len()),
    ensures
        apply(store, stack.push(addr).push(value), mem) == Ok::<(Seq<u64>, Seq<u8>, Option<Event>), EmulationError>(
            (stack, write_at(mem, addr - MEM_BASE, le_bytes(value as nat, n)), None),
        ),
        apply(load, stack.push(addr), write_at(mem, addr - MEM_BASE, le_bytes(value as nat, n))) == Ok::<
            (Seq<u64>, Seq<u8>, Option<Event>),
            EmulationError,
        >((stack.push((value as nat % pow256(n)) as u64), write_at(mem, addr - MEM_BASE, le_bytes(value as nat, n)), None)),
{
    let s2 = stack.push(addr).push(value);
    assert(s2.take(s2.len() - 2) =~= stack);
    assert(stack.push(addr).drop_last() =~= stack);
    lemma_le_value_bytes(value as nat, n);
    let off = addr - MEM_BASE;
    let m = write_at(mem, off, le_bytes(value as nat, n));
    assert(m.subrange(off, off + n) =~= le_bytes(value as nat, n));
}

/// `!64` writes the eight bytes of a value, least significant first, and
/// `@64` at the same address reads the value back.
pub proof fn law_load64_after_store64(stack: Seq<u64>, mem: Seq<u8>, addr: u64, value: u64)
    requires
        wide_in_memory(addr, 8, mem.len()),
    ensures
        apply(OpView::Store64, stack.push(addr).push(value), mem) matches Ok((st, m, e)) && e is None && st == stack
            && m == write_at(mem, addr - MEM_BASE, le_bytes(value as nat, 8)) && apply(OpView::Load64, st.push(addr), m)
            == Ok::<(Seq<u64>, Seq<u8>, Option<Event>), EmulationError>((stack.push(value), m, None)),
{
    lemma_wide(stack, mem, addr, value, OpView::Store64, OpView::Load64, 8);
    reveal_with_fuel(pow256, 9);
    assert(pow256(8) == 0x1_0000_0000_0000_0000);
}

/// `!32` writes the four low bytes of a value, least significant first, and
/// `@32` at the same address reads back the value's low 32 bits.
pub proof fn law_load32_after_store32(stack: Seq<u64>, mem: Seq<u8>, addr: u64, value: u64)
    requires
        wide_in_memory(addr, 4, mem.len()),
    ensures
        apply(OpView::Store32, stack.push(addr).push(value), mem) matches Ok((st, m, e)) && e is None && st == stack
            && m == write_at(mem, addr - MEM_BASE, le_bytes(value as nat, 4)) && apply(OpView::Load32, st.push(addr), m)
            == Ok::<(Seq<u64>, Seq<u8>, Option<Event>), EmulationError>(
            (stack.push((value as nat % 0x1_0000_0000) as u64), m, None),
        ),
{
    lemma_wide(stack, mem, addr, value, OpView::Store32, OpView::Load32, 4);
    reveal_with_fuel(pow256, 5);
    assert(pow256(4) == 0x1_0000_0000);
}

/// Whether every addition of `t` adds at least two values.
pub open spec fn additions_positive(t: Seq<OpView>) -> bool {
    forall|k: int| 0 <= k < t.len() ==> (#[trigger] t[k] matches OpView::Plus { depth } ==> depth >= 1)
}

/// Whether no operation of `t` would merge into the one before it.
pub open spec fn settled(t: Seq<OpView>) -> bool {
    forall|j: int| 0 < j < t.len() ==> !merges(seq![t[j - 1]], #[trigger] t[j])
}

/// A folded sequence has nothing left to fold: no operation of it would merge
/// into the one before, and its additions still add at least two values, when
/// every addition of the sequence does and every merged depth fits in `usize`.
pub proof fn law_fold_leaves_nothing_to_fold(s: Seq<OpView>)
    requires
        fold_fits(s),
        additions_positive(s),
    ensures
        settled(fold_ops(s)),
        additions_positive(fold_ops(s)),
    decreases s.len(),
{
    if s.len() > 0 {
        let p = s.drop_last();
        let x = s.last();
        assert(additions_positive(p)) by {
            assert forall|k: int| 0 <= k < p.len() implies (#[trigger] p[k] matches OpView::Plus { depth } ==> depth
                >= 1) by {
                assert(p[k] == s[k]);
            }
        }
        assert(x == s[s.len() - 1]);
        law_fold_leaves_nothing_to_fold(p);
        let acc = fold_ops(p);
        let r = fold_step(acc, x);
        assert(fold_ops(s) == r);
        assert(!step_overflows(acc, x));
        if merges(acc, x) {
            let q = acc.drop_last();
            assert(r.len() == acc.len());
            assert forall|k: int| 0 <= k < r.len() - 1 implies r[k] == acc[k] by {
                assert(r[k] == q[k]);
            }
            if acc.len() >= 2 {
                assert(!merges(seq![acc[acc.len() - 2]], acc[acc.len() - 1]));
            }
            assert(settled(r)) by {
                assert forall|j: int| 0 < j < r.len() implies !merges(seq![r[j - 1]], #[trigger] r[j]) by {
                    if j < r.len() - 1 {
                        assert(r[j] == acc[j] && r[j - 1] == acc[j - 1]);
                        assert(!merges(seq![acc[j - 1]], acc[j]));
                    } else {
                        assert(r[j - 1] == acc[j - 1]);
                        assert(seq![r[j - 1]].last() == r[j - 1]);
                    }
                }
            }
            assert(additions_positive(r)) by {
                assert forall|k: int| 0 <= k < r.len() implies (#[trigger] r[k] matches OpView::Plus { depth } ==> depth
                    >= 1) by {
                    if k < r.len() - 1 {
                        assert(r[k] == acc[k]);
                    }
                }
            }
        } else {
            assert(r == acc.push(x));
            assert(settled(r)) by {
                assert forall|j: int| 0 < j < r.len() implies !merges(seq![r[j - 1]], #[trigger] r[j]) by {
                    if j < r.len() - 1 {
                        assert(r[j] == acc[j] && r[j - 1] == acc[j - 1]);
                        assert(!merges(seq![acc[j - 1]], acc[j]));
                    } else {
                        assert(r[j - 1] == acc.last());
                        assert(seq![r[j - 1]].last() == acc.last());
                    }
                }
            }
            assert(additions_positive(r)) by {
                assert forall|k: int| 0 <= k < r.len() implies (#[trigger] r[k] matches OpView::Plus { depth } ==> depth
                    >= 1) by {
                    if k < r.len() - 1 {
                        assert(r[k] == acc[k]);
                    }
                }
            }
        }
    } else {
        assert(fold_ops(s) =~= Seq::<OpView>::empty());
    }
}

proof fn lemma_settled_folds_to_itself(t: Seq<OpView>)
    requires
        settled(t),
    ensures
        fold_ops(t) == t,
    decreases t.len(),
{
    if t.len() > 0 {
        let p = t.drop_last();
        assert(settled(p)) by {
            assert forall|j: int| 0 < j < p.len() implies !merges(seq![p[j - 1]], #[trigger] p[j]) by {
                assert(p[j] == t[j] && p[j - 1] == t[j - 1]);
                assert(!merges(seq![t[j - 1]], t[j]));
            }
        }
        lemma_settled_folds_to_itself(p);
        if t.len() >= 2 {
            assert(!merges(seq![t[t.len() - 2]], t[t.len() - 1]));
            assert(seq![t[t.len() - 2]].last() == p.last());
        }
        assert(!merges(p, t.last()));
        assert(p.push(t.last()) =~= t);
    }
}

/// A folded sequence folds again without overflow, so the optimiser can be run
/// on its own result, when every addition adds at least two values and every
/// merged depth fits in `usize`.
pub proof fn law_folded_fits_again(s: Seq<OpView>)
    requires
        fold_fits(s),
        additions_positive(s),
    ensures
        fold_fits(fold_ops(s)),
{
    law_fold_leaves_nothing_to_fold(s);
    lemma_settled_fits(fold_ops(s));
}

proof fn lemma_settled_fits(t: Seq<OpView>)
    requires
        settled(t),
    ensures
        fold_fits(t),
    decreases t.len(),
{
    if t.len() > 0 {
        let p = t.drop_last();
        assert(settled(p)) by {
            assert forall|j: int| 0 < j < p.len() implies !merges(seq![p[j - 1]], #[trigger] p[j]) by {
                assert(p[j] == t[j] && p[j - 1] == t[j - 1]);
                assert(!merges(seq![t[j - 1]], t[j]));
            }
        }
        lemma_settled_fits(p);
        lemma_settled_folds_to_itself(p);
        if t.len() >= 2 {
            assert(!merges(seq![t[t.len() - 2]], t[t.len() - 1]));
            assert(seq![t[t.len() - 2]].last() == p.last());
        }
        assert(!step_overflows(p, t.last()));
    }
}

/// Folding twice folds no more than folding once, when every addition adds at
/// least two values and every merged depth fits in `usize`.
pub proof fn law_fold_twice_is_fold_once(s: Seq<OpView>)
    requires
        fold_fits(s),
        additions_positive(s),
    ensures
        fold_ops(fold_ops(s)) == fold_ops(s),
{
    law_fold_leaves_nothing_to_fold(s);
    lemma_settled_folds_to_itself(fold_ops(s));
}

/// A while loop runs as a loop. Take a linked loop `while C do B end`: the
/// `while` at `w`, the `do` at `d` holding the position `e` of the `end`, and
/// the `end` holding `w`. The `while` moves on to the condition; the `do` pops
/// the condition's value and enters the body when it is not zero, else moves
/// past the `end`; the `end` goes back to the `while`, also when the `while`
/// is the first operation. None of them touches memory or asks for an event.
pub proof fn law_while_loop(ops: Seq<OpView>, w: usize, d: int, e: usize, m: Machine)
    requires
        0 <= w < d < e < ops.len(),
        ops[w as int] is While,
        ops[d] == (OpView::Do { address: e }),
        ops[e as int] == (OpView::End { address: w }),
    ensures
        step_spec(ops, Machine { pc: w as int, ..m }) == (Machine { pc: w + 1, ..m }, Ok::<StepResult, EmulationError>(
            StepResult::Continue,
        )),
        m.stack.len() > 0 && m.stack.last() != 0 ==> step_spec(ops, Machine { pc: d, ..m }) == (
            Machine { pc: d + 1, stack: m.stack.drop_last(), mem: m.mem },
            Ok::<StepResult, EmulationError>(StepResult::Continue),
        ),
        m.stack.len() > 0 && m.stack.last() == 0 ==> step_spec(ops, Machine { pc: d, ..m }) == (
            Machine { pc: e + 1, stack: m.stack.drop_last(), mem: m.mem },
            Ok::<StepResult, EmulationError>(StepResult::Continue),
        ),
        step_spec(ops, Machine { pc: e as int, ..m }) == (Machine { pc: w as int, ..m }, Ok::<StepResult, EmulationError>(
            StepResult::Continue,
        )),
{
    assert(ops[d] == (OpView::Do { address: (e as int) as usize }));
    assert(closes_loop(ops, e as int));
}

/// Whether no operation of `t` takes part in linking.
pub open spec fn no_blocks(t: Seq<OpView>) -> bool {
    forall|k: int| 0 <= k < t.len() ==> !linkable(#[trigger] t[k])
}

/// The program `pre while c do b end post`.
pub open spec fn loop_program(pre: Seq<OpView>, c: Seq<OpView>, b: Seq<OpView>, post: Seq<OpView>) -> Seq<OpView> {
    pre + seq![OpView::While] + c + seq![OpView::Do { address: 0 }] + b + seq![OpView::End { address: 0 }] + post
}

proof fn lemma_link_skip(ops: Seq<OpView>, open: Seq<usize>, i: nat, j: nat)
    requires
        i <= j <= ops.len(),
        forall|k: int| i <= k < j ==> !linkable(#[trigger] ops[k]),
    ensures
        link_from(ops, open, i) == link_from(ops, open, j),
    decreases j - i,
{
    if i < j {
        assert(!linkable(ops[i as int]));
        lemma_link_skip(ops, open, i + 1, j);
    }
}

proof fn lemma_link_keeps_before(ops: Seq<OpView>, open: Seq<usize>, i: nat, k: int)
    requires
        0 <= k <= i,
        ops.len() <= usize::MAX,
        forall|m: int| 0 <= m < open.len() ==> #[trigger] open[m] >= k,
        link_from(ops, open, i) is Ok,
    ensures
        link_from(ops, open, i)->Ok_0.len() == ops.len(),
        forall|x: int| 0 <= x < k ==> #[trigger] link_from(ops, open, i)->Ok_0[x] == ops[x],
    decreases ops.len() - i,
{
    if i < ops.len() {
        let ii = i as int;
        let j = open.last() as int;
        let rest = open.drop_last();
        assert forall|m: int| 0 <= m < open.push(i as usize).len() implies #[trigger] open.push(i as usize)[m]
            >= k by {
            if m < open.len() {
                assert(open.push(i as usize)[m] == open[m]);
            }
        }
        if open.len() > 0 {
            assert forall|m: int| 0 <= m < rest.push(i as usize).len() implies #[trigger] rest.push(i as usize)[m]
                >= k by {
                if m < rest.len() {
                    assert(rest.push(i as usize)[m] == rest[m]);
                    assert(rest[m] == open[m]);
                }
            }
            assert forall|m: int| 0 <= m < rest.len() implies #[trigger] rest[m] >= k by {
                assert(rest[m] == open[m]);
            }
            if rest.len() > 0 {
                assert forall|m: int| 0 <= m < rest.drop_last().len() implies #[trigger] rest.drop_last()[m] >= k by {
                    assert(rest.drop_last()[m] == rest[m]);
                    assert(rest[m] == open[m]);
                }
            }
        }
        match ops[ii] {
            OpView::If { .. } | OpView::While | OpView::Do { .. } => {
                lemma_link_keeps_before(ops, open.push(i as usize), i + 1, k);
            },
            OpView::Else { .. } => {
                let ops1 = match ops[j] {
                    OpView::If { .. } => set_at(ops, j, OpView::If { address: i as usize }),
                    _ => ops,
                };
                lemma_link_keeps_before(ops1, rest.push(i as usize), i + 1, k);
            },
            OpView::End { .. } => {
                let (ops1, open1) = if ops[j] == (OpView::Do { address: 0 }) {
                    (set_at(ops, ii, OpView::End { address: rest.last() }), rest.drop_last())
                } else {
                    (ops, rest)
                };
                let ops2 = match ops1[j] {
                    OpView::If { .. } => set_at(ops1, j, OpView::If { address: i as usize }),
                    OpView::Else { .. } => set_at(ops1, j, OpView::Else { address: i as usize }),
                    OpView::Do { .. } => set_at(ops1, j, OpView::Do { address: i as usize }),
                    _ => ops1,
                };
                if open.len() > 0 && !(ops[j] == (OpView::Do { address: 0 }) && rest.len() == 0) {
                    assert(link_from(ops, open, i) == link_from(ops2, open1, i + 1));
                    lemma_link_keeps_before(ops2, open1, i + 1, k);
                }
            },
            _ => {
                lemma_link_keeps_before(ops, open, i + 1, k);
            },
        }
    }
}

/// Linking a while loop links it as a loop: in `pre while c do b end post`,
/// where `pre`, `c` and `b` open and close no block, the `do` gets the
/// position of the `end` and the `end` gets the position of the `while`
/// (zero when `pre` is empty).
pub proof fn law_link_while_loop(pre: Seq<OpView>, c: Seq<OpView>, b: Seq<OpView>, post: Seq<OpView>)
    requires
        no_blocks(pre),
        no_blocks(c),
        no_blocks(b),
        loop_program(pre, c, b, post).len() <= usize::MAX,
        link(loop_program(pre, c, b, post)) is Ok,
    ensures
        link(loop_program(pre, c, b, post))->Ok_0[pre.len() as int] == OpView::While,
        link(loop_program(pre, c, b, post))->Ok_0[pre.len() + 1int + c.len()] == (OpView::Do {
            address: (pre.len() + 1 + c.len() + 1 + b.len()) as usize,
        }),
        link(loop_program(pre, c, b, post))->Ok_0[pre.len() + 1int + c.len() + 1 + b.len()] == (OpView::End {
            address: pre.len() as usize,
        }),
{
    let s = loop_program(pre, c, b, post);
    let w = pre.len() as int;
    let d = w + 1 + c.len();
    let e = d + 1 + b.len();
    assert(s[w] == OpView::While);
    assert(s[d] == (OpView::Do { address: 0 }));
    assert(s[e] == (OpView::End { address: 0 }));
    assert forall|k: int| 0 <= k < w implies !linkable(#[trigger] s[k]) by {
        assert(s[k] == pre[k]);
    }
    assert forall|k: int| w + 1 <= k < d implies !linkable(#[trigger] s[k]) by {
        assert(s[k] == c[k - w - 1]);
    }
    assert forall|k: int| d + 1 <= k < e implies !linkable(#[trigger] s[k]) by {
        assert(s[k] == b[k - d - 1]);
    }
    let o1 = seq![w as usize];
    let o2 = o1.push(d as usize);
    lemma_link_skip(s, Seq::empty(), 0, w as nat);
    assert(link_from(s, Seq::empty(), w as nat) == link_from(s, o1, (w + 1) as nat)) by {
        assert(Seq::<usize>::empty().push(w as usize) =~= o1);
    }
    lemma_link_skip(s, o1, (w + 1) as nat, d as nat);
    assert(link_from(s, o1, d as nat) == link_from(s, o2, (d + 1) as nat));
    lemma_link_skip(s, o2, (d + 1) as nat, e as nat);
    assert(o2.last() == d as usize);
    assert(o2.drop_last() =~= o1);
    assert(o1.last() == w as usize);
    assert(o1.drop_last() =~= Seq::<usize>::empty());
    let s1 = set_at(s, e, OpView::End { address: w as usize });
    let s2 = set_at(s1, d, OpView::Do { address: e as usize });
    assert(s1[d] == (OpView::Do { address: 0 }));
    assert(link_from(s, o2, e as nat) == link_from(s2, Seq::empty(), (e + 1) as nat));
    lemma_link_keeps_before(s2, Seq::empty(), (e + 1) as nat, e + 1);
    let r = link_from(s2, Seq::empty(), (e + 1) as nat)->Ok_0;
    assert(r[w] == s2[w]);
    assert(r[d] == s2[d]);
    assert(r[e] == s2[e]);
}

/// The two-operand operations take the value below as their left operand and
/// the top as their right one, and replace both by the result: `=` gives 1
/// exactly when the two are equal and 0 otherwise, `!=` the opposite, `>` and
/// `<` compare left with right, `-` subtracts right from left modulo 2^64,
/// `&` and `|` combine bits, `/` and `%` divide left by right (a zero right
/// operand is a fault), and `<<` and `>>` shift left by right places (a shift
/// of 64 or more gives 0). None of them touches memory or asks for an event.
pub proof fn law_two_operand_operations(s: Seq<u64>, a: u64, b: u64, mem: Seq<u8>)
    ensures
        apply(OpView::Equals, s.push(a).push(b), mem) == Ok::<(Seq<u64>, Seq<u8>, Option<Event>), EmulationError>(
            (s.push(if a == b { 1 } else { 0 }), mem, None),
        ),
        apply(OpView::NotEqual, s.push(a).push(b), mem) == Ok::<(Seq<u64>, Seq<u8>, Option<Event>), EmulationError>(
            (s.push(if a == b { 0 } else { 1 }), mem, None),
        ),
        apply(OpView::Greater, s.push(a).push(b), mem) == Ok::<(Seq<u64>, Seq<u8>, Option<Event>), EmulationError>(
            (s.push(if a > b { 1 } else { 0 }), mem, None),
        ),
        apply(OpView::Lower, s.push(a).push(b), mem) == Ok::<(Seq<u64>, Seq<u8>, Option<Event>), EmulationError>(
            (s.push(if a < b { 1 } else { 0 }), mem, None),
        ),
        apply(OpView::Minus, s.push(a).push(b), mem) matches Ok((st, m, e)) && m == mem && e is None && st.len()
            == s.len() + 1 && st.drop_last() == s && (st.last() as int + b as int) % 0x1_0000_0000_0000_0000 == a
            as int,
        apply(OpView::BitAnd, s.push(a).push(b), mem) == Ok::<(Seq<u64>, Seq<u8>, Option<Event>), EmulationError>(
            (s.push(a & b), mem, None),
        ),
        apply(OpView::BitOr, s.push(a).push(b), mem) == Ok::<(Seq<u64>, Seq<u8>, Option<Event>), EmulationError>(
            (s.push(a | b), mem, None),
        ),
        b == 0 ==> apply(OpView::Div, s.push(a).push(b), mem) == Err::<(Seq<u64>, Seq<u8>, Option<Event>), EmulationError>(
            EmulationError::DivisionByZero,
        ),
        b == 0 ==> apply(OpView::Mod, s.push(a).push(b), mem) == Err::<(Seq<u64>, Seq<u8>, Option<Event>), EmulationError>(
            EmulationError::DivisionByZero,
        ),
        b != 0 ==> (apply(OpView::Div, s.push(a).push(b), mem) matches Ok((st, m, e)) && m == mem && e is None
            && st.len() == s.len() + 1 && st.drop_last() == s && st.last() * b <= a < (st.last() + 1) * b),
        b != 0 ==> (apply(OpView::Mod, s.push(a).push(b), mem) matches Ok((st, m, e)) && m == mem && e is None
            && st.len() == s.len() + 1 && st.drop_last() == s && st.last() < b && (a - st.last()) % (b as int) == 0),
        b < 64 ==> apply(OpView::BitShiftLeft, s.push(a).push(b), mem) == Ok::<
            (Seq<u64>, Seq<u8>, Option<Event>),
            EmulationError,
        >((s.push(a << b), mem, None)),
        b < 64 ==> apply(OpView::BitShiftRight, s.push(a).push(b), mem) == Ok::<
            (Seq<u64>, Seq<u8>, Option<Event>),
            EmulationError,
        >((s.push(a >> b), mem, None)),
        b >= 64 ==> apply(OpView::BitShiftLeft, s.push(a).push(b), mem) == Ok::<
            (Seq<u64>, Seq<u8>, Option<Event>),
            EmulationError,
        >((s.push(0), mem, None)),
        b >= 64 ==> apply(OpView::BitShiftRight, s.push(a).push(b), mem) == Ok::<
            (Seq<u64>, Seq<u8>, Option<Event>),
            EmulationError,
        >((s.push(0), mem, None)),
{
    let st = s.push(a).push(b);
    assert(st.take(st.len() - 2) =~= s);
    assert(st[st.len() - 2] == a);
    assert(st.last() == b);
    let d = ((a as int - b as int) % 0x1_0000_0000_0000_0000) as u64;
    assert(s.push(d).drop_last() =~= s);
    assert((d as int + b as int) % 0x1_0000_0000_0000_0000 == a as int) by (nonlinear_arith)
        requires
            d == ((a as int - b as int) % 0x1_0000_0000_0000_0000) as u64,
            0 <= a < 0x1_0000_0000_0000_0000,
            0 <= b < 0x1_0000_0000_0000_0000,
    ;
    if b != 0 {
        assert(s.push(a / b).drop_last() =~= s);
        assert(s.push(a % b).drop_last() =~= s);
        assert((a / b) * b <= a < (a / b + 1) * b) by (nonlinear_arith)
            requires
                b > 0,
        ;
        assert((a - a % b) % (b as int) == 0) by (nonlinear_arith)
            requires
                b > 0,
        ;
    }
}

/// The one-operand operations replace the top by their result: `inc` adds
/// one and `dec` subtracts one modulo 2^64, `not` flips every bit; `dump`
/// removes the top and asks to print it, `drop` removes it, `dup` copies it.
pub proof fn law_one_operand_operations(s: Seq<u64>, a: u64, mem: Seq<u8>)
    ensures
        apply(OpView::Inc, s.push(a), mem) matches Ok((st, m, e)) && m == mem && e is None && st.len() == s.len()
            + 1 && st.drop_last() == s && st.last() as int == (a as int + 1) % 0x1_0000_0000_0000_0000,
        apply(OpView::Dec, s.push(a), mem) matches Ok((st, m, e)) && m == mem && e is None && st.len() == s.len()
            + 1 && st.drop_last() == s && (st.last() as int + 1) % 0x1_0000_0000_0000_0000 == a as int,
        apply(OpView::Not, s.push(a), mem) == Ok::<(Seq<u64>, Seq<u8>, Option<Event>), EmulationError>(
            (s.push(!a), mem, None),
        ),
        apply(OpView::Dump, s.push(a), mem) == Ok::<(Seq<u64>, Seq<u8>, Option<Event>), EmulationError>(
            (s, mem, Some(Event::Dump(a))),
        ),
        apply(OpView::Drop, s.push(a), mem) == Ok::<(Seq<u64>, Seq<u8>, Option<Event>), EmulationError>(
            (s, mem, None),
        ),
        apply(OpView::Dup { depth: 1 }, s.push(a), mem) == Ok::<(Seq<u64>, Seq<u8>, Option<Event>), EmulationError>(
            (s.push(a).push(a), mem, None),
        ),
        apply(OpView::Push(a), s, mem) == Ok::<(Seq<u64>, Seq<u8>, Option<Event>), EmulationError>(
            (s.push(a), mem, None),
        ),
{
    let st = s.push(a);
    assert(st.drop_last() =~= s);
    let i = ((a as int + 1) % 0x1_0000_0000_0000_0000) as u64;
    let d = ((a as int - 1) % 0x1_0000_0000_0000_0000) as u64;
    assert(s.push(i).drop_last() =~= s);
    assert(s.push(d).drop_last() =~= s);
    assert((d as int + 1) % 0x1_0000_0000_0000_0000 == a as int) by (nonlinear_arith)
        requires
            d == ((a as int - 1) % 0x1_0000_0000_0000_0000) as u64,
            0 <= a < 0x1_0000_0000_0000_0000,
    ;
}

/// In the assembly, every operation whose operands are not interchangeable
/// pops the top of the stack first, into the register of its right operand
/// (`rbx`, or `rcx` for shifts), and then the value below into `rax`, its left
/// operand, as the emulator takes them: `-` subtracts `rbx` from `rax`, `/`
/// and `%` divide `rax` by `rbx`, `>` and `<` compare `rax` with `rbx`, and the
/// shifts shift `rax` by `cl`.
pub proof fn law_assembly_operand_order(index: nat)
    ensures
        asm_text(OpView::Minus, index) == ";; -- - --\n\tpop rbx\n\tpop rax\n\tsub rax, rbx\n\tpush rax\n"@,
        asm_text(OpView::Div, index) == ";; -- / --\n\tpop rbx\n\tpop rax\n\txor rdx, rdx\n\tdiv rbx\n\tpush rax\n"@,
        asm_text(OpView::Mod, index) == ";; -- % --\n\tpop rbx\n\tpop rax\n\txor rdx, rdx\n\tdiv rbx\n\tpush rdx\n"@,
        asm_text(OpView::Greater, index) == ";; -- > --\n\tpop rbx\n\tpop rax\n\tcmp rax, rbx\n\tsetg al\n\tpush rax\n"@,
        asm_text(OpView::Lower, index) == ";; -- < --\n\tpop rbx\n\tpop rax\n\tcmp rax, rbx\n\tsetl al\n\tpush rax\n"@,
        asm_text(OpView::BitShiftLeft, index) == ";; -- << --\n\tpop rcx\n\tpop rax\n\nshl rax, cl\n\tpush rax\n"@,
        asm_text(OpView::BitShiftRight, index) == ";; -- >> --\n\tpop rcx\n\tpop rax\n\nshr rax, cl\n\tpush rax\n"@,
{
    reveal_strlit(";; -- - --\n");
    reveal_strlit("\tpop rbx\n");
    reveal_strlit("\tpop rax\n");
    reveal_strlit("\tpop rcx\n");
    reveal_strlit("\tsub rax, rbx\n");
    reveal_strlit("\tpush rax\n");
    reveal_strlit("\tpush rdx\n");
    reveal_strlit("\txor rdx, rdx\n");
    reveal_strlit("\tdiv rbx\n");
    reveal_strlit(";; -- / --\n");
    reveal_strlit(";; -- % --\n");
    reveal_strlit(";; -- > --\n");
    reveal_strlit(";; -- < --\n");
    reveal_strlit(";; -- << --\n");
    reveal_strlit(";; -- >> --\n");
    reveal_strlit("\tcmp rax, rbx\n");
    reveal_strlit("\tsetg al\n");
    reveal_strlit("\tsetl al\n");
    reveal_strlit("\nshl rax, cl\n");
    reveal_strlit("\nshr rax, cl\n");
    reveal_strlit(";; -- - --\n\tpop rbx\n\tpop rax\n\tsub rax, rbx\n\tpush rax\n");
    reveal_strlit(";; -- / --\n\tpop rbx\n\tpop rax\n\txor rdx, rdx\n\tdiv rbx\n\tpush rax\n");
    reveal_strlit(";; -- % --\n\tpop rbx\n\tpop rax\n\txor rdx, rdx\n\tdiv rbx\n\tpush rdx\n");
    reveal_strlit(";; -- > --\n\tpop rbx\n\tpop rax\n\tcmp rax, rbx\n\tsetg al\n\tpush rax\n");
    reveal_strlit(";; -- < --\n\tpop rbx\n\tpop rax\n\tcmp rax, rbx\n\tsetl al\n\tpush rax\n");
    reveal_strlit(";; -- << --\n\tpop rcx\n\tpop rax\n\nshl rax, cl\n\tpush rax\n");
    reveal_strlit(";; -- >> --\n\tpop rcx\n\tpop rax\n\nshr rax, cl\n\tpush rax\n");
    assert(asm_text(OpView::Minus, index) =~= ";; -- - --\n\tpop rbx\n\tpop rax\n\tsub rax, rbx\n\tpush rax\n"@);
    assert(asm_text(OpView::Div, index) =~= ";; -- / --\n\tpop rbx\n\tpop rax\n\txor rdx, rdx\n\tdiv rbx\n\tpush rax\n"@);
    assert(asm_text(OpView::Mod, index) =~= ";; -- % --\n\tpop rbx\n\tpop rax\n\txor rdx, rdx\n\tdiv rbx\n\tpush rdx\n"@);
    assert(asm_text(OpView::Greater, index) =~= ";; -- > --\n\tpop rbx\n\tpop rax\n\tcmp rax, rbx\n\tsetg al\n\tpush rax\n"@);
    assert(asm_text(OpView::Lower, index) =~= ";; -- < --\n\tpop rbx\n\tpop rax\n\tcmp rax, rbx\n\tsetl al\n\tpush rax\n"@);
    assert(asm_text(OpView::BitShiftLeft, index) =~= ";; -- << --\n\tpop rcx\n\tpop rax\n\nshl rax, cl\n\tpush rax\n"@);
    assert(asm_text(OpView::BitShiftRight, index) =~= ";; -- >> --\n\tpop rcx\n\tpop rax\n\nshr rax, cl\n\tpush rax\n"@);
}

proof fn lemma_concat_front(t: Seq<char>, inc: Seq<Seq<char>>)
    ensures
        concat_all(seq![t] + inc) == t + concat_all(inc),
    decreases inc.len(),
{
    if inc.len() == 0 {
        assert(seq![t] + inc =~= seq![t]);
        assert(seq![t].drop_last() =~= Seq::<Seq<char>>::empty());
        assert(concat_all(Seq::<Seq<char>>::empty()) + t =~= t + concat_all(inc));
    } else {
        lemma_concat_front(t, inc.drop_last());
        assert((seq![t] + inc).drop_last() =~= seq![t] + inc.drop_last());
        assert((seq![t] + inc).last() == inc.last());
        assert(t + concat_all(inc.drop_last()) + inc.last() =~= t + (concat_all(inc.drop_last()) + inc.last()));
    }
}

/// A program's text is its included texts, in the order given, followed by
/// its main text without include lines: with nothing included it is the main
/// text alone, and one more text at the front of the included ones comes
/// first in the program's text.
pub proof fn law_included_texts_in_order(code: Seq<char>, t: Seq<char>, included: Seq<Seq<char>>)
    ensures
        source_text(code, Seq::empty()) == body_text(lines(code)),
        source_text(code, seq![t] + included) == t + source_text(code, included),
{
    assert(concat_all(Seq::<Seq<char>>::empty()) =~= Seq::<char>::empty());
    assert(Seq::<char>::empty() + body_text(lines(code)) =~= body_text(lines(code)));
    lemma_concat_front(t, included);
    assert(t + concat_all(included) + body_text(lines(code)) =~= t + (concat_all(included) + body_text(lines(code))));
}

/// The characters that `char::is_whitespace` accepts: those of Unicode's
/// `White_Space` property, one by one.
pub open spec fn white_space(c: char) -> bool {
    ||| c == '\t' || c == '\n' || c == '\u{b}' || c == '\u{c}' || c == '\r'
    ||| c == ' '
    ||| c == '\u{85}'
    ||| c == '\u{a0}'
    ||| c == '\u{1680}'
    ||| c == '\u{2000}' || c == '\u{2001}' || c == '\u{2002}' || c == '\u{2003}' || c == '\u{2004}'
    ||| c == '\u{2005}' || c == '\u{2006}' || c == '\u{2007}' || c == '\u{2008}' || c == '\u{2009}'
    ||| c == '\u{200a}'
    ||| c == '\u{2028}' || c == '\u{2029}'
    ||| c == '\u{202f}'
    ||| c == '\u{205f}'
    ||| c == '\u{3000}'
}

proof fn lemma_words_through(x: Seq<char>, rest: Seq<char>, cur: Seq<char>)
    requires
        forall|k: int| 0 <= k < x.len() ==> !is_space(#[trigger] x[k]),
    ensures
        words_from(x + rest, cur) == words_from(rest, cur + x),
    decreases x.len(),
{
    if x.len() == 0 {
        assert(x + rest =~= rest);
        assert(cur + x =~= cur);
    } else {
        assert((x + rest)[0] == x[0]);
        assert(!is_space(x[0]));
        assert((x + rest).drop_first() =~= x.drop_first() + rest);
        let x1 = x.drop_first();
        assert forall|k: int| 0 <= k < x1.len() implies !is_space(#[trigger] x1[k]) by {
            assert(x1[k] == x[k + 1]);
        }
        lemma_words_through(x1, rest, cur.push(x[0]));
        assert(cur.push(x[0]) + x1 =~= cur + x);
    }
}

/// Words are split at whitespace, exactly the characters that
/// `char::is_whitespace` accepts: two words with any such character between
/// them are two words, and any other character joins them.
pub proof fn law_words_split_at_whitespace(x: Seq<char>, c: char, y: Seq<char>)
    requires
        x.len() > 0,
        y.len() > 0,
        forall|k: int| 0 <= k < x.len() ==> !white_space(#[trigger] x[k]),
        forall|k: int| 0 <= k < y.len() ==> !white_space(#[trigger] y[k]),
    ensures
        white_space(c) ==> words(x.push(c) + y) == seq![x, y],
        !white_space(c) ==> words(x.push(c) + y) == seq![x.push(c) + y],
{
    assert forall|d: char| #[trigger] is_space(d) == white_space(d) by {}
    assert forall|k: int| 0 <= k < x.len() implies !is_space(#[trigger] x[k]) by {
        assert(!white_space(x[k]));
    }
    assert forall|k: int| 0 <= k < y.len() implies !is_space(#[trigger] y[k]) by {
        assert(!white_space(y[k]));
    }
    let e = Seq::<char>::empty();
    let none = Seq::<Seq<char>>::empty();
    assert(x.push(c) + y =~= x + (seq![c] + y));
    lemma_words_through(x, seq![c] + y, e);
    assert(e + x =~= x);
    lemma_words_through(y, e, e);
    assert(y + e =~= y);
    assert(e + y =~= y);
    assert(words_from(e, y) == seq![y]);
    assert((seq![c] + y)[0] == c);
    assert((seq![c] + y).drop_first() =~= y);
    if is_space(c) {
        assert(words_from(seq![c] + y, x) == seq![x] + words_from(y, e));
        assert(seq![x] + seq![y] =~= seq![x, y]);
    } else {
        assert(words_from(seq![c] + y, x) == words_from(y, x.push(c)));
        lemma_words_through(y, e, x.push(c));
        assert(x.push(c) + y =~= (x.push(c) + y) + e);
        assert(words_from(e, x.push(c) + y) == seq![x.push(c) + y]);
    }
}

/// The stack operations rearrange the top values as their names say: `over`
/// copies the value below the top onto the top, `rot` brings the third value
/// up over the other two, `2dup` copies the top pair, `swap` takes the two
/// top values and puts them back in the order they had (as the emulator has
/// always done), `+` adds the top pair modulo 2^64, `mem` pushes the address
/// of the memory, and `syscall3` takes the number from the top and then three
/// arguments and asks for the call.
pub proof fn law_stack_operations(s: Seq<u64>, a: u64, b: u64, c: u64, n: u64, mem: Seq<u8>)
    ensures
        apply(OpView::Over, s.push(a).push(b), mem) == Ok::<(Seq<u64>, Seq<u8>, Option<Event>), EmulationError>(
            (s.push(a).push(b).push(a), mem, None),
        ),
        apply(OpView::Rot, s.push(a).push(b).push(c), mem) == Ok::<(Seq<u64>, Seq<u8>, Option<Event>), EmulationError>(
            (s.push(b).push(c).push(a), mem, None),
        ),
        apply(OpView::Dup { depth: 2 }, s.push(a).push(b), mem) == Ok::<
            (Seq<u64>, Seq<u8>, Option<Event>),
            EmulationError,
        >((s.push(a).push(b).push(a).push(b), mem, None)),
        apply(OpView::Swap, s.push(a).push(b), mem) == Ok::<(Seq<u64>, Seq<u8>, Option<Event>), EmulationError>(
            (s.push(a).push(b), mem, None),
        ),
        apply(OpView::Plus { depth: 1 }, s.push(a).push(b), mem) matches Ok((st, m, e)) && m == mem && e is None
            && st.len() == s.len() + 1 && st.drop_last() == s && st.last() as int == (a as int + b as int)
            % 0x1_0000_0000_0000_0000,
        apply(OpView::Mem, s, mem) == Ok::<(Seq<u64>, Seq<u8>, Option<Event>), EmulationError>(
            (s.push(MEM_BASE), mem, None),
        ),
        apply(OpView::Syscall { arg_count: 3 }, s.push(c).push(b).push(a).push(n), mem) == Ok::<
            (Seq<u64>, Seq<u8>, Option<Event>),
            EmulationError,
        >((s, mem, Some(Event::Syscall { number: n, arg1: a, arg2: b, arg3: c }))),
{
    let t2 = s.push(a).push(b);
    let t3 = s.push(a).push(b).push(c);
    let t4 = s.push(c).push(b).push(a).push(n);
    assert(t2.take(t2.len() - 2) =~= s);
    assert(t3.take(t3.len() - 3) =~= s);
    assert(t4.take(t4.len() - 4) =~= s);
    assert(t2[t2.len() - 2] == a);
    assert(t3[t3.len() - 3] == a && t3[t3.len() - 2] == b);
    assert(t4[t4.len() - 2] == a && t4[t4.len() - 3] == b && t4[t4.len() - 4] == c);
    let k: int = 2;
    let sk = t2.skip(t2.len() - k);
    assert(sk =~= seq![a, b]);
    assert(sk.drop_last() =~= seq![a]);
    assert(sk.drop_last().drop_last() =~= Seq::<u64>::empty());
    assert(int_sum(sk.drop_last().drop_last()) == 0);
    assert(sk.drop_last().last() == a);
    assert(int_sum(sk.drop_last()) == a as int);
    assert(sk.last() == b);
    assert(int_sum(sk) == a as int + b as int);
    let v = ((a as int + b as int) % 0x1_0000_0000_0000_0000) as u64;
    assert(s.push(v).drop_last() =~= s);
}

/// The assembly of every operation that needs no address, number or name,
/// at any position: what it pops, in which order, what it computes and what it
/// pushes (`=` sets `al` when the two values are equal and `!=` when they
/// differ; a one-byte store writes `bl`, a four-byte one `ebx`, an eight-byte
/// one `rbx`).
pub proof fn law_assembly_texts(index: nat)
    ensures
        asm_text(OpView::Inc, index) == ";; -- INC --\n\tpop rax\n\tinc rax\n\tpush rax\n"@,
        asm_text(OpView::Dec, index) == ";; -- DEC --\n\tpop rax\n\tdec rax\n\tpush rax\n"@,
        asm_text(OpView::Equals, index) == ";; -- = --\n\tpop rax\n\tpop rbx\n\tcmp rax, rbx\n\tsete al\n\tpush rax\n"@,
        asm_text(OpView::NotEqual, index) == ";; -- = --\n\tpop rax\n\tpop rbx\n\tcmp rax, rbx\n\tsetne al\n\tpush rax\n"@,
        asm_text(OpView::Not, index) == ";; -- NOT --\n\tpop rax\n\tnot rax\n\tpush rax\n"@,
        asm_text(OpView::BitAnd, index) == ";; -- & --\n\tpop rbx\n\tpop rax\n\nand rax, rbx\n\tpush rax\n"@,
        asm_text(OpView::BitOr, index) == ";; -- | --\n\tpop rbx\n\tpop rax\n\nor rax, rbx\n\tpush rax\n"@,
        asm_text(OpView::Dump, index) == "\tpop rdi\n\tcall dump\n"@,
        asm_text(OpView::Swap, index) == ";; -- SWAP --\n\tpop rax\n\tpop rbx\n\tpush rax\n\tpush rbx\n"@,
        asm_text(OpView::Over, index) == ";; -- OVER --\n\tpop rax\n\tpop rbx\n\tpush rbx\n\tpush rax\n\tpush rbx\n"@,
        asm_text(OpView::Rot, index) == ";; -- ROT --\n\tpop rax\n\tpop rbx\n\tpop rdi\n\tpush rbx\n\tpush rax\n\tpush rdi\n"@,
        asm_text(OpView::Drop, index) == "\tpop rax\n\txor rax, rax\n"@,
        asm_text(OpView::Mem, index) == ";; -- MEM --\n\tpush mem\n"@,
        asm_text(OpView::Store, index) == ";; -- STORE --\n\tpop rbx\n\tpop rax\n\tmov [rax], bl\n"@,
        asm_text(OpView::Load, index) == ";; -- LOAD --\n\tpop rax\n\txor rbx, rbx\n\tmov bl, [rax]\n\tpush rbx\n"@,
        asm_text(OpView::Store32, index) == ";; -- STORE_32 --\n\tpop rbx\n\tpop rax\n\tmov [rax], ebx\n"@,
        asm_text(OpView::Load32, index) == ";; -- LOAD_32 --\n\tpop rax\n\txor rbx, rbx\n\tmov ebx, [rax]\n\tpush rbx\n"@,
        asm_text(OpView::Store64, index) == ";; -- STORE_64 --\n\tpop rbx\n\tpop rax\n\tmov [rax], rbx\n"@,
        asm_text(OpView::Load64, index) == ";; -- LOAD_54 --\n\tpop rax\n\txor rbx, rbx\n\tmov rbx, [rax]\n\tpush rbx\n"@,
        asm_text(OpView::Dup { depth: 1 }, index) == ";; -- DUP --\n\tpop rax\n\tpush rax\n\tpush rax\n"@,
        asm_text(OpView::Dup { depth: 2 }, index) == ";; -- DUP 2 --\n\tpop rax\n\tpop rbx\n\tpush rbx\n\tpush rax\n\tpush rbx\n\tpush rax\n"@,
{
    reveal_strlit("\tcall dump\n");
    reveal_strlit("\tcmp rax, rbx\n");
    reveal_strlit("\tdec rax\n");
    reveal_strlit("\tinc rax\n");
    reveal_strlit("\tmov [rax], bl\n");
    reveal_strlit("\tmov [rax], ebx\n");
    reveal_strlit("\tmov [rax], rbx\n");
    reveal_strlit("\tmov bl, [rax]\n");
    reveal_strlit("\tmov ebx, [rax]\n");
    reveal_strlit("\tmov rbx, [rax]\n");
    reveal_strlit("\tnot rax\n");
    reveal_strlit("\tpop rax\n");
    reveal_strlit("\tpop rbx\n");
    reveal_strlit("\tpop rdi\n");
    reveal_strlit("\tpush mem\n");
    reveal_strlit("\tpush rax\n");
    reveal_strlit("\tpush rbx\n");
    reveal_strlit("\tpush rdi\n");
    reveal_strlit("\tsete al\n");
    reveal_strlit("\tsetne al\n");
    reveal_strlit("\txor rax, rax\n");
    reveal_strlit("\txor rbx, rbx\n");
    reveal_strlit("\nand rax, rbx\n");
    reveal_strlit("\nor rax, rbx\n");
    reveal_strlit(";; -- & --\n");
    reveal_strlit(";; -- = --\n");
    reveal_strlit(";; -- DEC --\n");
    reveal_strlit(";; -- DUP --\n");
    reveal_strlit(";; -- DUP 2 --\n");
    reveal_strlit(";; -- INC --\n");
    reveal_strlit(";; -- LOAD --\n");
    reveal_strlit(";; -- LOAD_32 --\n");
    reveal_strlit(";; -- LOAD_54 --\n");
    reveal_strlit(";; -- MEM --\n");
    reveal_strlit(";; -- NOT --\n");
    reveal_strlit(";; -- OVER --\n");
    reveal_strlit(";; -- ROT --\n");
    reveal_strlit(";; -- STORE --\n");
    reveal_strlit(";; -- STORE_32 --\n");
    reveal_strlit(";; -- STORE_64 --\n");
    reveal_strlit(";; -- SWAP --\n");
    reveal_strlit(";; -- | --\n");
    reveal_strlit(";; -- INC --\n\tpop rax\n\tinc rax\n\tpush rax\n");
    reveal_strlit(";; -- DEC --\n\tpop rax\n\tdec rax\n\tpush rax\n");
    reveal_strlit(";; -- = --\n\tpop rax\n\tpop rbx\n\tcmp rax, rbx\n\tsete al\n\tpush rax\n");
    reveal_strlit(";; -- = --\n\tpop rax\n\tpop rbx\n\tcmp rax, rbx\n\tsetne al\n\tpush rax\n");
    reveal_strlit(";; -- NOT --\n\tpop rax\n\tnot rax\n\tpush rax\n");
    reveal_strlit(";; -- & --\n\tpop rbx\n\tpop rax\n\nand rax, rbx\n\tpush rax\n");
    reveal_strlit(";; -- | --\n\tpop rbx\n\tpop rax\n\nor rax, rbx\n\tpush rax\n");
    reveal_strlit("\tpop rdi\n\tcall dump\n");
    reveal_strlit(";; -- SWAP --\n\tpop rax\n\tpop rbx\n\tpush rax\n\tpush rbx\n");
    reveal_strlit(";; -- OVER --\n\tpop rax\n\tpop rbx\n\tpush rbx\n\tpush rax\n\tpush rbx\n");
    reveal_strlit(";; -- ROT --\n\tpop rax\n\tpop rbx\n\tpop rdi\n\tpush rbx\n\tpush rax\n\tpush rdi\n");
    reveal_strlit("\tpop rax\n\txor rax, rax\n");
    reveal_strlit(";; -- MEM --\n\tpush mem\n");
    reveal_strlit(";; -- STORE --\n\tpop rbx\n\tpop rax\n\tmov [rax], bl\n");
    reveal_strlit(";; -- LOAD --\n\tpop rax\n\txor rbx, rbx\n\tmov bl, [rax]\n\tpush rbx\n");
    reveal_strlit(";; -- STORE_32 --\n\tpop rbx\n\tpop rax\n\tmov [rax], ebx\n");
    reveal_strlit(";; -- LOAD_32 --\n\tpop rax\n\txor rbx, rbx\n\tmov ebx, [rax]\n\tpush rbx\n");
    reveal_strlit(";; -- STORE_64 --\n\tpop rbx\n\tpop rax\n\tmov [rax], rbx\n");
    reveal_strlit(";; -- LOAD_54 --\n\tpop rax\n\txor rbx, rbx\n\tmov rbx, [rax]\n\tpush rbx\n");
    reveal_strlit(";; -- DUP --\n\tpop rax\n\tpush rax\n\tpush rax\n");
    reveal_strlit(";; -- DUP 2 --\n\tpop rax\n\tpop rbx\n\tpush rbx\n\tpush rax\n\tpush rbx\n\tpush rax\n");
    assert(asm_text(OpView::Inc, index) =~= ";; -- INC --\n\tpop rax\n\tinc rax\n\tpush rax\n"@);
    assert(asm_text(OpView::Dec, index) =~= ";; -- DEC --\n\tpop rax\n\tdec rax\n\tpush rax\n"@);
    assert(asm_text(OpView::Equals, index) =~= ";; -- = --\n\tpop rax\n\tpop rbx\n\tcmp rax, rbx\n\tsete al\n\tpush rax\n"@);
    assert(asm_text(OpView::NotEqual, index) =~= ";; -- = --\n\tpop rax\n\tpop rbx\n\tcmp rax, rbx\n\tsetne al\n\tpush rax\n"@);
    assert(asm_text(OpView::Not, index) =~= ";; -- NOT --\n\tpop rax\n\tnot rax\n\tpush rax\n"@);
    assert(asm_text(OpView::BitAnd, index) =~= ";; -- & --\n\tpop rbx\n\tpop rax\n\nand rax, rbx\n\tpush rax\n"@);
    assert(asm_text(OpView::BitOr, index) =~= ";; -- | --\n\tpop rbx\n\tpop rax\n\nor rax, rbx\n\tpush rax\n"@);
    assert(asm_text(OpView::Dump, index) =~= "\tpop rdi\n\tcall dump\n"@);
    assert(asm_text(OpView::Swap, index) =~= ";; -- SWAP --\n\tpop rax\n\tpop rbx\n\tpush rax\n\tpush rbx\n"@);
    assert(asm_text(OpView::Over, index) =~= ";; -- OVER --\n\tpop rax\n\tpop rbx\n\tpush rbx\n\tpush rax\n\tpush rbx\n"@);
    assert(asm_text(OpView::Rot, index) =~= ";; -- ROT --\n\tpop rax\n\tpop rbx\n\tpop rdi\n\tpush rbx\n\tpush rax\n\tpush rdi\n"@);
    assert(asm_text(OpView::Drop, index) =~= "\tpop rax\n\txor rax, rax\n"@);
    assert(asm_text(OpView::Mem, index) =~= ";; -- MEM --\n\tpush mem\n"@);
    assert(asm_text(OpView::Store, index) =~= ";; -- STORE --\n\tpop rbx\n\tpop rax\n\tmov [rax], bl\n"@);
    assert(asm_text(OpView::Load, index) =~= ";; -- LOAD --\n\tpop rax\n\txor rbx, rbx\n\tmov bl, [rax]\n\tpush rbx\n"@);
    assert(asm_text(OpView::Store32, index) =~= ";; -- STORE_32 --\n\tpop rbx\n\tpop rax\n\tmov [rax], ebx\n"@);
    assert(asm_text(OpView::Load32, index) =~= ";; -- LOAD_32 --\n\tpop rax\n\txor rbx, rbx\n\tmov ebx, [rax]\n\tpush rbx\n"@);
    assert(asm_text(OpView::Store64, index) =~= ";; -- STORE_64 --\n\tpop rbx\n\tpop rax\n\tmov [rax], rbx\n"@);
    assert(asm_text(OpView::Load64, index) =~= ";; -- LOAD_54 --\n\tpop rax\n\txor rbx, rbx\n\tmov rbx, [rax]\n\tpush rbx\n"@);
    assert(asm_text(OpView::Dup { depth: 1 }, index) =~= ";; -- DUP --\n\tpop rax\n\tpush rax\n\tpush rax\n"@);
    assert(asm_text(OpView::Dup { depth: 2 }, index) =~= ";; -- DUP 2 --\n\tpop rax\n\tpop rbx\n\tpush rbx\n\tpush rax\n\tpush rbx\n\tpush rax\n"@);
}

proof fn lemma_digit_char(d: nat)
    requires
        d < 10,
    ensures
        is_digit(digit_char(d)),
        digit_char(d) as int - '0' as int == d,
{
}

/// The decimal text of a number is digits, without a leading zero, and the
/// digits write the number.
pub proof fn law_decimal_writes_the_number(n: nat)
    ensures
        decimal(n).len() > 0,
        all_digits(decimal(n)),
        digits_value(decimal(n)) == n,
        decimal(n).len() > 1 ==> decimal(n)[0] != '0',
        n < 10 ==> decimal(n).len() == 1,
    decreases n,
{
    if n < 10 {
        lemma_digit_char(n);
        assert(seq![digit_char(n)].drop_last() =~= Seq::<char>::empty());
        assert(digits_value(Seq::<char>::empty()) == 0);
        assert(digits_value(decimal(n)) == digits_value(decimal(n).drop_last()) * 10 + (decimal(n).last() as int
            - '0' as int));
    } else {
        law_decimal_writes_the_number(n / 10);
        lemma_digit_char(n % 10);
        let t = decimal(n);
        assert(t == decimal(n / 10).push(digit_char(n % 10)));
        assert(t.drop_last() =~= decimal(n / 10));
        assert(digits_value(t) == digits_value(t.drop_last()) * 10 + (t.last() as int - '0' as int));
        assert((n / 10) * 10 + n % 10 == n) by (nonlinear_arith);
        assert forall|i: int| 0 <= i < t.len() implies is_digit(#[trigger] t[i]) by {
            if i < t.len() - 1 {
                assert(t[i] == decimal(n / 10)[i]);
            }
        }
        assert(t[0] == decimal(n / 10)[0]);
        if decimal(n / 10).len() == 1 {
            assert(n / 10 < 10 || decimal(n / 10).len() > 1) by {
                if n / 10 >= 10 {
                    law_decimal_writes_the_number(n / 10 / 10);
                }
            }
            lemma_digit_char(n / 10);
        }
    }
}

/// A word that is the decimal text of a number pushes that number.
pub proof fn law_number_words(n: u64)
    ensures
        token_op(decimal(n as nat)) == Ok::<OpView, ParseFault>(OpView::Push(n)),
{
    let t = decimal(n as nat);
    law_decimal_writes_the_number(n as nat);
    assert(is_digit(t[0]));
    if t.len() > 1 {
        assert(is_digit(t[1]));
    }
    reveal_strlit("+");
    reveal_strlit("-");
    reveal_strlit("/");
    reveal_strlit("%");
    reveal_strlit("=");
    reveal_strlit("not");
    reveal_strlit("!=");
    reveal_strlit(">");
    reveal_strlit("<");
    reveal_strlit("&");
    reveal_strlit("|");
    reveal_strlit("<<");
    reveal_strlit(">>");
    reveal_strlit("dump");
    reveal_strlit("if");
    reveal_strlit("else");
    reveal_strlit("while");
    reveal_strlit("do");
    reveal_strlit("end");
    reveal_strlit("dup");
    reveal_strlit("2dup");
    reveal_strlit("swap");
    reveal_strlit("over");
    reveal_strlit("rot");
    reveal_strlit("mem");
    reveal_strlit("!");
    reveal_strlit("@");
    reveal_strlit("!32");
    reveal_strlit("@32");
    reveal_strlit("!64");
    reveal_strlit("@64");
    reveal_strlit("drop");
    reveal_strlit("syscall1");
    reveal_strlit("syscall2");
    reveal_strlit("syscall3");
    reveal_strlit(";");
    assert(t != "+"@) by { if t == "+"@ { assert(!is_digit("+"@[0])); } }
    assert(t != "-"@) by { if t == "-"@ { assert(!is_digit("-"@[0])); } }
    assert(t != "/"@) by { if t == "/"@ { assert(!is_digit("/"@[0])); } }
    assert(t != "%"@) by { if t == "%"@ { assert(!is_digit("%"@[0])); } }
    assert(t != "="@) by { if t == "="@ { assert(!is_digit("="@[0])); } }
    assert(t != "not"@) by { if t == "not"@ { assert(!is_digit("not"@[0])); } }
    assert(t != "!="@) by { if t == "!="@ { assert(!is_digit("!="@[0])); } }
    assert(t != ">"@) by { if t == ">"@ { assert(!is_digit(">"@[0])); } }
    assert(t != "<"@) by { if t == "<"@ { assert(!is_digit("<"@[0])); } }
    assert(t != "&"@) by { if t == "&"@ { assert(!is_digit("&"@[0])); } }
    assert(t != "|"@) by { if t == "|"@ { assert(!is_digit("|"@[0])); } }
    assert(t != "<<"@) by { if t == "<<"@ { assert(!is_digit("<<"@[0])); } }
    assert(t != ">>"@) by { if t == ">>"@ { assert(!is_digit(">>"@[0])); } }
    assert(t != "dump"@) by { if t == "dump"@ { assert(!is_digit("dump"@[0])); } }
    assert(t != "if"@) by { if t == "if"@ { assert(!is_digit("if"@[0])); } }
    assert(t != "else"@) by { if t == "else"@ { assert(!is_digit("else"@[0])); } }
    assert(t != "while"@) by { if t == "while"@ { assert(!is_digit("while"@[0])); } }
    assert(t != "do"@) by { if t == "do"@ { assert(!is_digit("do"@[0])); } }
    assert(t != "end"@) by { if t == "end"@ { assert(!is_digit("end"@[0])); } }
    assert(t != "dup"@) by { if t == "dup"@ { assert(!is_digit("dup"@[0])); } }
    assert(t != "2dup"@) by { if t == "2dup"@ { assert(!is_digit("2dup"@[1])); } }
    assert(t != "swap"@) by { if t == "swap"@ { assert(!is_digit("swap"@[0])); } }
    assert(t != "over"@) by { if t == "over"@ { assert(!is_digit("over"@[0])); } }
    assert(t != "rot"@) by { if t == "rot"@ { assert(!is_digit("rot"@[0])); } }
    assert(t != "mem"@) by { if t == "mem"@ { assert(!is_digit("mem"@[0])); } }
    assert(t != "!"@) by { if t == "!"@ { assert(!is_digit("!"@[0])); } }
    assert(t != "@"@) by { if t == "@"@ { assert(!is_digit("@"@[0])); } }
    assert(t != "!32"@) by { if t == "!32"@ { assert(!is_digit("!32"@[0])); } }
    assert(t != "@32"@) by { if t == "@32"@ { assert(!is_digit("@32"@[0])); } }
    assert(t != "!64"@) by { if t == "!64"@ { assert(!is_digit("!64"@[0])); } }
    assert(t != "@64"@) by { if t == "@64"@ { assert(!is_digit("@64"@[0])); } }
    assert(t != "drop"@) by { if t == "drop"@ { assert(!is_digit("drop"@[0])); } }
    assert(t != "syscall1"@) by { if t == "syscall1"@ { assert(!is_digit("syscall1"@[0])); } }
    assert(t != "syscall2"@) by { if t == "syscall2"@ { assert(!is_digit("syscall2"@[0])); } }
    assert(t != "syscall3"@) by { if t == "syscall3"@ { assert(!is_digit("syscall3"@[0])); } }
    assert(t != ";"@) by { if t == ";"@ { assert(!is_digit(";"@[0])); } }
}

/// The words of the language and the operations they stand for.
pub proof fn law_keywords()
    ensures
        token_op("+"@) == Ok::<OpView, ParseFault>(OpView::Plus { depth: 1 }),
        token_op("-"@) == Ok::<OpView, ParseFault>(OpView::Minus),
        token_op("/"@) == Ok::<OpView, ParseFault>(OpView::Div),
        token_op("%"@) == Ok::<OpView, ParseFault>(OpView::Mod),
        token_op("="@) == Ok::<OpView, ParseFault>(OpView::Equals),
        token_op("not"@) == Ok::<OpView, ParseFault>(OpView::Not),
        token_op("!="@) == Ok::<OpView, ParseFault>(OpView::NotEqual),
        token_op(">"@) == Ok::<OpView, ParseFault>(OpView::Greater),
        token_op("<"@) == Ok::<OpView, ParseFault>(OpView::Lower),
        token_op("&"@) == Ok::<OpView, ParseFault>(OpView::BitAnd),
        token_op("|"@) == Ok::<OpView, ParseFault>(OpView::BitOr),
        token_op("<<"@) == Ok::<OpView, ParseFault>(OpView::BitShiftLeft),
        token_op(">>"@) == Ok::<OpView, ParseFault>(OpView::BitShiftRight),
        token_op("dump"@) == Ok::<OpView, ParseFault>(OpView::Dump),
        token_op("if"@) == Ok::<OpView, ParseFault>(OpView::If { address: 0 }),
        token_op("else"@) == Ok::<OpView, ParseFault>(OpView::Else { address: 0 }),
        token_op("while"@) == Ok::<OpView, ParseFault>(OpView::While),
        token_op("do"@) == Ok::<OpView, ParseFault>(OpView::Do { address: 0 }),
        token_op("end"@) == Ok::<OpView, ParseFault>(OpView::End { address: 0 }),
        token_op("dup"@) == Ok::<OpView, ParseFault>(OpView::Dup { depth: 1 }),
        token_op("2dup"@) == Ok::<OpView, ParseFault>(OpView::Dup { depth: 2 }),
        token_op("swap"@) == Ok::<OpView, ParseFault>(OpView::Swap),
        token_op("over"@) == Ok::<OpView, ParseFault>(OpView::Over),
        token_op("rot"@) == Ok::<OpView, ParseFault>(OpView::Rot),
        token_op("mem"@) == Ok::<OpView, ParseFault>(OpView::Mem),
        token_op("!"@) == Ok::<OpView, ParseFault>(OpView::Store),
        token_op("@"@) == Ok::<OpView, ParseFault>(OpView::Load),
        token_op("!32"@) == Ok::<OpView, ParseFault>(OpView::Store32),
        token_op("@32"@) == Ok::<OpView, ParseFault>(OpView::Load32),
        token_op("!64"@) == Ok::<OpView, ParseFault>(OpView::Store64),
        token_op("@64"@) == Ok::<OpView, ParseFault>(OpView::Load64),
        token_op("drop"@) == Ok::<OpView, ParseFault>(OpView::Drop),
        token_op("syscall1"@) == Ok::<OpView, ParseFault>(OpView::Syscall { arg_count: 1 }),
        token_op("syscall2"@) == Ok::<OpView, ParseFault>(OpView::Syscall { arg_count: 2 }),
        token_op("syscall3"@) == Ok::<OpView, ParseFault>(OpView::Syscall { arg_count: 3 }),
        token_op(";"@) == Ok::<OpView, ParseFault>(OpView::EndMacro),
{
    reveal_strlit("+");
    reveal_strlit("-");
    reveal_strlit("/");
    reveal_strlit("%");
    reveal_strlit("=");
    reveal_strlit("not");
    reveal_strlit("!=");
    reveal_strlit(">");
    reveal_strlit("<");
    reveal_strlit("&");
    reveal_strlit("|");
    reveal_strlit("<<");
    reveal_strlit(">>");
    reveal_strlit("dump");
    reveal_strlit("if");
    reveal_strlit("else");
    reveal_strlit("while");
    reveal_strlit("do");
    reveal_strlit("end");
    reveal_strlit("dup");
    reveal_strlit("2dup");
    reveal_strlit("swap");
    reveal_strlit("over");
    reveal_strlit("rot");
    reveal_strlit("mem");
    reveal_strlit("!");
    reveal_strlit("@");
    reveal_strlit("!32");
    reveal_strlit("@32");
    reveal_strlit("!64");
    reveal_strlit("@64");
    reveal_strlit("drop");
    reveal_strlit("syscall1");
    reveal_strlit("syscall2");
    reveal_strlit("syscall3");
    reveal_strlit(";");
    assert("+"@.len() == 1 && "+"@[0] == '+');
    assert("-"@.len() == 1 && "-"@[0] == '-');
    assert("/"@.len() == 1 && "/"@[0] == '/');
    assert("%"@.len() == 1 && "%"@[0] == '%');
    assert("="@.len() == 1 && "="@[0] == '=');
    assert("not"@.len() == 3 && "not"@[0] == 'n' && "not"@[1] == 'o' && "not"@[2] == 't');
    assert("!="@.len() == 2 && "!="@[0] == '!' && "!="@[1] == '=');
    assert(">"@.len() == 1 && ">"@[0] == '>');
    assert("<"@.len() == 1 && "<"@[0] == '<');
    assert("&"@.len() == 1 && "&"@[0] == '&');
    assert("|"@.len() == 1 && "|"@[0] == '|');
    assert("<<"@.len() == 2 && "<<"@[0] == '<' && "<<"@[1] == '<');
    assert(">>"@.len() == 2 && ">>"@[0] == '>' && ">>"@[1] == '>');
    assert("dump"@.len() == 4 && "dump"@[0] == 'd' && "dump"@[1] == 'u' && "dump"@[2] == 'm' && "dump"@[3] == 'p');
    assert("if"@.len() == 2 && "if"@[0] == 'i' && "if"@[1] == 'f');
    assert("else"@.len() == 4 && "else"@[0] == 'e' && "else"@[1] == 'l' && "else"@[2] == 's' && "else"@[3] == 'e');
    assert("while"@.len() == 5 && "while"@[0] == 'w' && "while"@[1] == 'h' && "while"@[2] == 'i' && "while"@[3] == 'l' && "while"@[4] == 'e');
    assert("do"@.len() == 2 && "do"@[0] == 'd' && "do"@[1] == 'o');
    assert("end"@.len() == 3 && "end"@[0] == 'e' && "end"@[1] == 'n' && "end"@[2] == 'd');
    assert("dup"@.len() == 3 && "dup"@[0] == 'd' && "dup"@[1] == 'u' && "dup"@[2] == 'p');
    assert("2dup"@.len() == 4 && "2dup"@[0] == '2' && "2dup"@[1] == 'd' && "2dup"@[2] == 'u' && "2dup"@[3] == 'p');
    assert("swap"@.len() == 4 && "swap"@[0] == 's' && "swap"@[1] == 'w' && "swap"@[2] == 'a' && "swap"@[3] == 'p');
    assert("over"@.len() == 4 && "over"@[0] == 'o' && "over"@[1] == 'v' && "over"@[2] == 'e' && "over"@[3] == 'r');
    assert("rot"@.len() == 3 && "rot"@[0] == 'r' && "rot"@[1] == 'o' && "rot"@[2] == 't');
    assert("mem"@.len() == 3 && "mem"@[0] == 'm' && "mem"@[1] == 'e' && "mem"@[2] == 'm');
    assert("!"@.len() == 1 && "!"@[0] == '!');
    assert("@"@.len() == 1 && "@"@[0] == '@');
    assert("!32"@.len() == 3 && "!32"@[0] == '!' && "!32"@[1] == '3' && "!32"@[2] == '2');
    assert("@32"@.len() == 3 && "@32"@[0] == '@' && "@32"@[1] == '3' && "@32"@[2] == '2');
    assert("!64"@.len() == 3 && "!64"@[0] == '!' && "!64"@[1] == '6' && "!64"@[2] == '4');
    assert("@64"@.len() == 3 && "@64"@[0] == '@' && "@64"@[1] == '6' && "@64"@[2] == '4');
    assert("drop"@.len() == 4 && "drop"@[0] == 'd' && "drop"@[1] == 'r' && "drop"@[2] == 'o' && "drop"@[3] == 'p');
    assert("syscall1"@.len() == 8 && "syscall1"@[0] == 's' && "syscall1"@[1] == 'y' && "syscall1"@[2] == 's' && "syscall1"@[3] == 'c' && "syscall1"@[4] == 'a' && "syscall1"@[5] == 'l' && "syscall1"@[6] == 'l' && "syscall1"@[7] == '1');
    assert("syscall2"@.len() == 8 && "syscall2"@[0] == 's' && "syscall2"@[1] == 'y' && "syscall2"@[2] == 's' && "syscall2"@[3] == 'c' && "syscall2"@[4] == 'a' && "syscall2"@[5] == 'l' && "syscall2"@[6] == 'l' && "syscall2"@[7] == '2');
    assert("syscall3"@.len() == 8 && "syscall3"@[0] == 's' && "syscall3"@[1] == 'y' && "syscall3"@[2] == 's' && "syscall3"@[3] == 'c' && "syscall3"@[4] == 'a' && "syscall3"@[5] == 'l' && "syscall3"@[6] == 'l' && "syscall3"@[7] == '3');
    assert(";"@.len() == 1 && ";"@[0] == ';');
}

proof fn lemma_lines_through(x: Seq<char>, rest: Seq<char>, cur: Seq<char>)
    requires
        forall|k: int| 0 <= k < x.len() ==> #[trigger] x[k] != '\n',
    ensures
        lines_from(x + rest, cur) == lines_from(rest, cur + x),
    decreases x.len(),
{
    if x.len() == 0 {
        assert(x + rest =~= rest);
        assert(cur + x =~= cur);
    } else {
        assert((x + rest)[0] == x[0]);
        assert((x + rest).drop_first() =~= x.drop_first() + rest);
        let x1 = x.drop_first();
        assert forall|k: int| 0 <= k < x1.len() implies #[trigger] x1[k] != '\n' by {
            assert(x1[k] == x[k + 1]);
        }
        lemma_lines_through(x1, rest, cur.push(x[0]));
        assert(cur.push(x[0]) + x1 =~= cur + x);
    }
}

/// Lines end at a newline, and a carriage return just before the newline is
/// not part of the line: a text made of a line without newline, a newline and
/// more text has that line first, then the lines of the rest.
pub proof fn law_lines_split_at_newline(x: Seq<char>, y: Seq<char>)
    requires
        forall|k: int| 0 <= k < x.len() ==> #[trigger] x[k] != '\n',
    ensures
        (x.len() == 0 || x.last() != '\r') ==> lines(x.push('\n') + y) == seq![x] + lines(y),
        lines(x.push('\r').push('\n') + y) == seq![x] + lines(y),
        x.len() > 0 ==> lines(x) == seq![x],
{
    let e = Seq::<char>::empty();
    assert(x.push('\n') + y =~= x + (seq!['\n'] + y));
    lemma_lines_through(x, seq!['\n'] + y, e);
    assert(e + x =~= x);
    assert((seq!['\n'] + y)[0] == '\n');
    assert((seq!['\n'] + y).drop_first() =~= y);
    let xr = x.push('\r');
    assert forall|k: int| 0 <= k < xr.len() implies #[trigger] xr[k] != '\n' by {
        if k < x.len() {
            assert(xr[k] == x[k]);
        }
    }
    assert(x.push('\r').push('\n') + y =~= xr + (seq!['\n'] + y));
    lemma_lines_through(xr, seq!['\n'] + y, e);
    assert(e + xr =~= xr);
    assert(xr.drop_last() =~= x);
    lemma_lines_through(x, e, e);
    assert(x + e =~= x);
}

/// Trimming drops exactly the whitespace around a text: a text that begins
/// and ends with characters other than whitespace, with any whitespace before
/// and after it, trims to itself.
pub proof fn law_trim_drops_surrounding_whitespace(p: Seq<char>, x: Seq<char>, q: Seq<char>)
    requires
        x.len() > 0,
        !white_space(x[0]),
        !white_space(x.last()),
        forall|k: int| 0 <= k < p.len() ==> white_space(#[trigger] p[k]),
        forall|k: int| 0 <= k < q.len() ==> white_space(#[trigger] q[k]),
    ensures
        trim(p + x + q) == x,
{
    assert forall|d: char| #[trigger] is_space(d) == white_space(d) by {}
    lemma_strip_spaces_front(p, x + q);
    assert(p + x + q =~= p + (x + q));
    assert((x + q)[0] == x[0]);
    lemma_strip_spaces_back(x, q);
}

proof fn lemma_strip_spaces_front(p: Seq<char>, w: Seq<char>)
    requires
        forall|k: int| 0 <= k < p.len() ==> is_space(#[trigger] p[k]),
        w.len() > 0,
        !is_space(w[0]),
    ensures
        strip_start(p + w, false) == w,
    decreases p.len(),
{
    if p.len() == 0 {
        assert(p + w =~= w);
    } else {
        assert((p + w)[0] == p[0]);
        assert((p + w).drop_first() =~= p.drop_first() + w);
        let p1 = p.drop_first();
        assert forall|k: int| 0 <= k < p1.len() implies is_space(#[trigger] p1[k]) by {
            assert(p1[k] == p[k + 1]);
        }
        lemma_strip_spaces_front(p1, w);
    }
}

proof fn lemma_strip_spaces_back(x: Seq<char>, q: Seq<char>)
    requires
        forall|k: int| 0 <= k < q.len() ==> is_space(#[trigger] q[k]),
        x.len() > 0,
        !is_space(x.last()),
    ensures
        strip_end(x + q, false) == x,
    decreases q.len(),
{
    if q.len() == 0 {
        assert(x + q =~= x);
    } else {
        assert((x + q).last() == q.last());
        assert(is_space(q[q.len() - 1]));
        assert((x + q).drop_last() =~= x + q.drop_last());
        let q1 = q.drop_last();
        assert forall|k: int| 0 <= k < q1.len() implies is_space(#[trigger] q1[k]) by {
            assert(q1[k] == q[k]);
        }
        lemma_strip_spaces_back(x, q1);
    }
}

/// An `if` pops the condition and enters its block when it is not zero, else
/// goes just past the `else` or `end` whose position it holds; an `else`
/// (reached at the end of the block it closes) goes just past its `end`; an
/// `end` of an `if` moves on. None of them touches memory or asks for an event.
pub proof fn law_if_else(ops: Seq<OpView>, i: int, k: usize, e: usize, m: Machine)
    requires
        0 <= i < k < e < ops.len(),
        ops[i] == (OpView::If { address: k }),
        ops[k as int] == (OpView::Else { address: e }),
        ops[e as int] == (OpView::End { address: 0 }),
        !(ops.len() > 0 && ops[0] is While),
    ensures
        m.stack.len() > 0 && m.stack.last() != 0 ==> step_spec(ops, Machine { pc: i, ..m }) == (
            Machine { pc: i + 1, stack: m.stack.drop_last(), mem: m.mem },
            Ok::<StepResult, EmulationError>(StepResult::Continue),
        ),
        m.stack.len() > 0 && m.stack.last() == 0 ==> step_spec(ops, Machine { pc: i, ..m }) == (
            Machine { pc: k + 1, stack: m.stack.drop_last(), mem: m.mem },
            Ok::<StepResult, EmulationError>(StepResult::Continue),
        ),
        m.stack.len() == 0 ==> step_spec(ops, Machine { pc: i, ..m }).1 == Err::<StepResult, EmulationError>(
            EmulationError::StackUnderflow,
        ),
        step_spec(ops, Machine { pc: k as int, ..m }) == (Machine { pc: e + 1, ..m }, Ok::<StepResult, EmulationError>(
            StepResult::Continue,
        )),
        step_spec(ops, Machine { pc: e as int, ..m }) == (Machine { pc: e + 1, ..m }, Ok::<StepResult, EmulationError>(
            StepResult::Continue,
        )),
{
}

/// A system call pops its number into `rax` and then its arguments into the
/// argument registers of the Linux x86-64 convention, in order: `rdi`, `rsi`,
/// `rdx`, `r10`, `r8`, `r9`.
pub proof fn law_syscall_assembly(k: usize, index: nat)
    requires
        k <= 6,
    ensures
        k == 0 ==> asm_text(OpView::Syscall { arg_count: k }, index) == ";; -- SYSCALL 0 --\n\tpop rax\n\tsyscall\n"@,
        k == 1 ==> asm_text(OpView::Syscall { arg_count: k }, index) == ";; -- SYSCALL 1 --\n\tpop rax\n\tpop rdi\n\tsyscall\n"@,
        k == 2 ==> asm_text(OpView::Syscall { arg_count: k }, index) == ";; -- SYSCALL 2 --\n\tpop rax\n\tpop rdi\n\tpop rsi\n\tsyscall\n"@,
        k == 3 ==> asm_text(OpView::Syscall { arg_count: k }, index) == ";; -- SYSCALL 3 --\n\tpop rax\n\tpop rdi\n\tpop rsi\n\tpop rdx\n\tsyscall\n"@,
        k == 4 ==> asm_text(OpView::Syscall { arg_count: k }, index) == ";; -- SYSCALL 4 --\n\tpop rax\n\tpop rdi\n\tpop rsi\n\tpop rdx\n\tpop r10\n\tsyscall\n"@,
        k == 5 ==> asm_text(OpView::Syscall { arg_count: k }, index) == ";; -- SYSCALL 5 --\n\tpop rax\n\tpop rdi\n\tpop rsi\n\tpop rdx\n\tpop r10\n\tpop r8\n\tsyscall\n"@,
        k == 6 ==> asm_text(OpView::Syscall { arg_count: k }, index) == ";; -- SYSCALL 6 --\n\tpop rax\n\tpop rdi\n\tpop rsi\n\tpop rdx\n\tpop r10\n\tpop r8\n\tpop r9\n\tsyscall\n"@,
{
    reveal_strlit(";; -- SYSCALL ");
    reveal_strlit(" --\n");
    reveal_strlit("\tpop rax\n");
    reveal_strlit("\tpop ");
    reveal_strlit("\n");
    reveal_strlit("\tsyscall\n");
    reveal_strlit("rdi");
    reveal_strlit("rsi");
    reveal_strlit("rdx");
    reveal_strlit("r10");
    reveal_strlit("r8");
    reveal_strlit("r9");
    reveal_strlit(";; -- SYSCALL 0 --\n\tpop rax\n\tsyscall\n");
    reveal_strlit(";; -- SYSCALL 1 --\n\tpop rax\n\tpop rdi\n\tsyscall\n");
    reveal_strlit(";; -- SYSCALL 2 --\n\tpop rax\n\tpop rdi\n\tpop rsi\n\tsyscall\n");
    reveal_strlit(";; -- SYSCALL 3 --\n\tpop rax\n\tpop rdi\n\tpop rsi\n\tpop rdx\n\tsyscall\n");
    reveal_strlit(";; -- SYSCALL 4 --\n\tpop rax\n\tpop rdi\n\tpop rsi\n\tpop rdx\n\tpop r10\n\tsyscall\n");
    reveal_strlit(";; -- SYSCALL 5 --\n\tpop rax\n\tpop rdi\n\tpop rsi\n\tpop rdx\n\tpop r10\n\tpop r8\n\tsyscall\n");
    reveal_strlit(";; -- SYSCALL 6 --\n\tpop rax\n\tpop rdi\n\tpop rsi\n\tpop rdx\n\tpop r10\n\tpop r8\n\tpop r9\n\tsyscall\n");
    reveal_with_fuel(syscall_pops, 7);
    reveal_strlit("\tpop rdi\n");
    reveal_strlit("\tpop rdi\n\tpop rsi\n");
    reveal_strlit("\tpop rdi\n\tpop rsi\n\tpop rdx\n");
    reveal_strlit("\tpop rdi\n\tpop rsi\n\tpop rdx\n\tpop r10\n");
    reveal_strlit("\tpop rdi\n\tpop rsi\n\tpop rdx\n\tpop r10\n\tpop r8\n");
    reveal_strlit("\tpop rdi\n\tpop rsi\n\tpop rdx\n\tpop r10\n\tpop r8\n\tpop r9\n");
    assert(decimal(k as nat) == seq![digit_char(k as nat)]);
    if k == 0 {
        assert(syscall_pops(0) =~= Seq::<char>::empty());
        assert(asm_text(OpView::Syscall { arg_count: k }, index) =~= ";; -- SYSCALL 0 --\n\tpop rax\n\tsyscall\n"@);
    }
    if k == 1 {
        assert(syscall_pops(1) =~= "\tpop rdi\n"@);
        assert(asm_text(OpView::Syscall { arg_count: k }, index) =~= ";; -- SYSCALL 1 --\n\tpop rax\n\tpop rdi\n\tsyscall\n"@);
    }
    if k == 2 {
        assert(syscall_pops(2) =~= "\tpop rdi\n\tpop rsi\n"@);
        assert(asm_text(OpView::Syscall { arg_count: k }, index) =~= ";; -- SYSCALL 2 --\n\tpop rax\n\tpop rdi\n\tpop rsi\n\tsyscall\n"@);
    }
    if k == 3 {
        assert(syscall_pops(3) =~= "\tpop rdi\n\tpop rsi\n\tpop rdx\n"@);
        assert(asm_text(OpView::Syscall { arg_count: k }, index) =~= ";; -- SYSCALL 3 --\n\tpop rax\n\tpop rdi\n\tpop rsi\n\tpop rdx\n\tsyscall\n"@);
    }
    if k == 4 {
        assert(syscall_pops(4) =~= "\tpop rdi\n\tpop rsi\n\tpop rdx\n\tpop r10\n"@);
        assert(asm_text(OpView::Syscall { arg_count: k }, index) =~= ";; -- SYSCALL 4 --\n\tpop rax\n\tpop rdi\n\tpop rsi\n\tpop rdx\n\tpop r10\n\tsyscall\n"@);
    }
    if k == 5 {
        assert(syscall_pops(5) =~= "\tpop rdi\n\tpop rsi\n\tpop rdx\n\tpop r10\n\tpop r8\n"@);
        assert(asm_text(OpView::Syscall { arg_count: k }, index) =~= ";; -- SYSCALL 5 --\n\tpop rax\n\tpop rdi\n\tpop rsi\n\tpop rdx\n\tpop r10\n\tpop r8\n\tsyscall\n"@);
    }
    if k == 6 {
        assert(syscall_pops(6) =~= "\tpop rdi\n\tpop rsi\n\tpop rdx\n\tpop r10\n\tpop r8\n\tpop r9\n"@);
        assert(asm_text(OpView::Syscall { arg_count: k }, index) =~= ";; -- SYSCALL 6 --\n\tpop rax\n\tpop rdi\n\tpop rsi\n\tpop rdx\n\tpop r10\n\tpop r8\n\tpop r9\n\tsyscall\n"@);
    }
}

/// The assembly of an addition over one more value pops one more value and
/// adds it, after popping the top into `rax`; an addition over no further
/// value pops and pushes the top.
pub proof fn law_plus_assembly(depth: usize, index: nat)
    requires
        depth < usize::MAX,
    ensures
        asm_text(OpView::Plus { depth: 0 }, index) == ";; -- + --\n\tpop rax\n\tpush rax\n"@,
        asm_text(OpView::Plus { depth: (depth + 1) as usize }, index) == ";; -- + --\n\tpop rax\n"@
            + "\tpop rbx\n\tadd rax, rbx\n"@ + asm_text(OpView::Plus { depth }, index).skip(";; -- + --\n\tpop rax\n"@.len() as int),
{
    reveal_strlit(";; -- + --\n");
    reveal_strlit("\tpop rax\n");
    reveal_strlit("\tpush rax\n");
    reveal_strlit(";; -- + --\n\tpop rax\n");
    reveal_strlit(";; -- + --\n\tpop rax\n\tpush rax\n");
    reveal_strlit("\tpop rbx\n\tadd rax, rbx\n");
    let h = ";; -- + --\n"@ + "\tpop rax\n"@;
    let piece = "\tpop rbx\n\tadd rax, rbx\n"@;
    assert(repeat_text(piece, 0) =~= Seq::<char>::empty());
    assert(asm_text(OpView::Plus { depth: 0 }, index) =~= ";; -- + --\n\tpop rax\n\tpush rax\n"@);
    lemma_repeat_front(piece, depth as nat);
    let t = asm_text(OpView::Plus { depth }, index);
    assert(h =~= ";; -- + --\n\tpop rax\n"@);
    assert(t == h + repeat_text(piece, depth as nat) + "\tpush rax\n"@);
    assert(t.skip(h.len() as int) =~= repeat_text(piece, depth as nat) + "\tpush rax\n"@);
    assert(asm_text(OpView::Plus { depth: (depth + 1) as usize }, index) =~= h + piece + t.skip(h.len() as int));
}

proof fn lemma_repeat_front(s: Seq<char>, n: nat)
    ensures
        repeat_text(s, n + 1) == s + repeat_text(s, n),
    decreases n,
{
    if n == 0 {
        assert(repeat_text(s, 0) =~= Seq::<char>::empty());
        assert(repeat_text(s, 1) == repeat_text(s, 0) + s);
        assert(Seq::<char>::empty() + s =~= s + Seq::<char>::empty());
    } else {
        lemma_repeat_front(s, (n - 1) as nat);
        assert(repeat_text(s, n + 1) == repeat_text(s, n) + s);
        assert(s + repeat_text(s, (n - 1) as nat) + s =~= s + (repeat_text(s, (n - 1) as nat) + s));
    }
}

/// The assembly of control flow: an `if` or `do` pops the condition and jumps
/// to the label of the position it holds when it is zero; an `else` jumps to
/// the label of its `end` and then marks its own position; a `while` marks its
/// position; an `end` of a loop jumps back to its `while`'s label, and every
/// `end` marks its position. Labels are `label_` and the position in decimal.
pub proof fn law_control_assembly(a: usize, index: nat)
    ensures
        asm_text(OpView::If { address: a }, index) == ";; -- IF -- \n\tpop rax\n\ttest rax, rax\n\tjz label_"@ + decimal(
            a as nat,
        ) + "\n"@,
        asm_text(OpView::Do { address: a }, index) == ";; -- DO -- \n\tpop rax\n\ttest rax, rax\n\tjz label_"@ + decimal(
            a as nat,
        ) + "\n"@,
        asm_text(OpView::Else { address: a }, index) == ";; -- ELSE -- \n\tjmp label_"@ + decimal(a as nat)
            + "\nlabel_"@ + decimal(index) + ":\n"@,
        asm_text(OpView::While, index) == ";; -- WHILE -- \nlabel_"@ + decimal(index) + ":\n"@,
        a > 0 ==> asm_text(OpView::End { address: a }, index) == ";; -- END WHILE -- \n\tjmp label_"@ + decimal(
            a as nat,
        ) + "\nlabel_"@ + decimal(index) + ":\n"@,
        asm_text(OpView::End { address: 0 }, index) == ";; -- END IF -- \n\tlabel_"@ + decimal(index) + ":\n"@,
{
    reveal_strlit(";; -- IF -- \n");
    reveal_strlit(";; -- DO -- \n");
    reveal_strlit(";; -- ELSE -- \n");
    reveal_strlit(";; -- WHILE -- \n");
    reveal_strlit(";; -- END WHILE -- \n\tjmp ");
    reveal_strlit(";; -- END IF -- \n\t");
    reveal_strlit("\tpop rax\n");
    reveal_strlit("\ttest rax, rax\n");
    reveal_strlit("\tjz ");
    reveal_strlit("\tjmp ");
    reveal_strlit("label_");
    reveal_strlit("\n");
    reveal_strlit(":\n");
    reveal_strlit(";; -- IF -- \n\tpop rax\n\ttest rax, rax\n\tjz label_");
    reveal_strlit(";; -- DO -- \n\tpop rax\n\ttest rax, rax\n\tjz label_");
    reveal_strlit(";; -- ELSE -- \n\tjmp label_");
    reveal_strlit("\nlabel_");
    reveal_strlit(";; -- WHILE -- \nlabel_");
    reveal_strlit(";; -- END WHILE -- \n\tjmp label_");
    reveal_strlit(";; -- END IF -- \n\tlabel_");
    let da = decimal(a as nat);
    let di = decimal(index);
    assert(asm_text(OpView::If { address: a }, index) =~= ";; -- IF -- \n\tpop rax\n\ttest rax, rax\n\tjz label_"@ + da
        + "\n"@);
    assert(asm_text(OpView::Do { address: a }, index) =~= ";; -- DO -- \n\tpop rax\n\ttest rax, rax\n\tjz label_"@ + da
        + "\n"@);
    assert(asm_text(OpView::Else { address: a }, index) =~= ";; -- ELSE -- \n\tjmp label_"@ + da + "\nlabel_"@ + di
        + ":\n"@);
    assert(asm_text(OpView::While, index) =~= ";; -- WHILE -- \nlabel_"@ + di + ":\n"@);
    if a > 0 {
        assert(asm_text(OpView::End { address: a }, index) =~= ";; -- END WHILE -- \n\tjmp label_"@ + da + "\nlabel_"@
            + di + ":\n"@);
    }
    assert(asm_text(OpView::End { address: 0 }, index) =~= ";; -- END IF -- \n\tlabel_"@ + di + ":\n"@);
}

/// The program `pre if a else b end post`.
pub open spec fn if_program(pre: Seq<OpView>, a: Seq<OpView>, b: Seq<OpView>, post: Seq<OpView>) -> Seq<OpView> {
    pre + seq![OpView::If { address: 0 }] + a + seq![OpView::Else { address: 0 }] + b + seq![OpView::End { address: 0 }]
        + post
}

/// Linking an `if` with an `else` links it as a choice: in
/// `pre if a else b end post`, where `pre`, `a` and `b` open and close no
/// block, the `if` gets the position of the `else`, the `else` the position of
/// the `end`, and the `end` keeps address zero.
pub proof fn law_link_if_else(pre: Seq<OpView>, a: Seq<OpView>, b: Seq<OpView>, post: Seq<OpView>)
    requires
        no_blocks(pre),
        no_blocks(a),
        no_blocks(b),
        if_program(pre, a, b, post).len() <= usize::MAX,
        link(if_program(pre, a, b, post)) is Ok,
    ensures
        link(if_program(pre, a, b, post))->Ok_0[pre.len() as int] == (OpView::If {
            address: (pre.len() + 1 + a.len()) as usize,
        }),
        link(if_program(pre, a, b, post))->Ok_0[pre.len() + 1int + a.len()] == (OpView::Else {
            address: (pre.len() + 1 + a.len() + 1 + b.len()) as usize,
        }),
        link(if_program(pre, a, b, post))->Ok_0[pre.len() + 1int + a.len() + 1 + b.len()] == (OpView::End {
            address: 0,
        }),
{
    let s = if_program(pre, a, b, post);
    let i = pre.len() as int;
    let k = i + 1 + a.len();
    let e = k + 1 + b.len();
    assert(s[i] == (OpView::If { address: 0 }));
    assert(s[k] == (OpView::Else { address: 0 }));
    assert(s[e] == (OpView::End { address: 0 }));
    assert forall|m: int| 0 <= m < i implies !linkable(#[trigger] s[m]) by {
        assert(s[m] == pre[m]);
    }
    assert forall|m: int| i + 1 <= m < k implies !linkable(#[trigger] s[m]) by {
        assert(s[m] == a[m - i - 1]);
    }
    assert forall|m: int| k + 1 <= m < e implies !linkable(#[trigger] s[m]) by {
        assert(s[m] == b[m - k - 1]);
    }
    let o1 = seq![i as usize];
    let o2 = seq![k as usize];
    lemma_link_skip(s, Seq::empty(), 0, i as nat);
    assert(link_from(s, Seq::empty(), i as nat) == link_from(s, o1, (i + 1) as nat)) by {
        assert(Seq::<usize>::empty().push(i as usize) =~= o1);
    }
    lemma_link_skip(s, o1, (i + 1) as nat, k as nat);
    let s1 = set_at(s, i, OpView::If { address: k as usize });
    assert(o1.last() == i as usize);
    assert(o1.drop_last().push(k as usize) =~= o2);
    assert(link_from(s, o1, k as nat) == link_from(s1, o2, (k + 1) as nat));
    assert forall|m: int| k + 1 <= m < e implies !linkable(#[trigger] s1[m]) by {
        assert(s1[m] == s[m]);
    }
    lemma_link_skip(s1, o2, (k + 1) as nat, e as nat);
    assert(o2.last() == k as usize);
    assert(o2.drop_last() =~= Seq::<usize>::empty());
    assert(s1[k] == (OpView::Else { address: 0 }));
    assert(s1[e] == (OpView::End { address: 0 }));
    let s2 = set_at(s1, k, OpView::Else { address: e as usize });
    assert(link_from(s1, o2, e as nat) == link_from(s2, Seq::empty(), (e + 1) as nat));
    lemma_link_keeps_before(s2, Seq::empty(), (e + 1) as nat, e + 1);
    let r = link_from(s2, Seq::empty(), (e + 1) as nat)->Ok_0;
    assert(r[i] == s2[i]);
    assert(r[k] == s2[k]);
    assert(r[e] == s2[e]);
}

} // verus!
