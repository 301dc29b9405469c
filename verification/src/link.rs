//! Macro collection and expansion, and the linking of control flow:
//! every `if`, `else`, `do` and `end` learns the position it jumps to.
use vstd::prelude::*;
use crate::operation::{Operation, OpView, ops_view, copy_op};

verus! {

/// Why a program could not be linked.
#[derive(PartialEq, Clone, Debug)]
pub enum LinkError {
    /// A macro of this name is already defined.
    MacroRedefinition(String),
    /// No macro of this name is defined.
    UndefinedMacro(String),
    /// The expansion of this macro reaches itself again.
    RecursiveMacro(String),
    /// An `else` at this position has no open block to close.
    UnmatchedElse(usize),
    /// An `end` at this position has no open block to close.
    UnmatchedEnd(usize),
    /// The `end` at this position closes a `do` that follows no `while`.
    MissingWhile(usize),
    /// Folding two additions gives a depth beyond `usize`.
    DepthOverflow,
}

/// The value of a [`LinkError`].
pub enum LinkFault {
    MacroRedefinition(Seq<char>),
    UndefinedMacro(Seq<char>),
    RecursiveMacro(Seq<char>),
    UnmatchedElse(usize),
    UnmatchedEnd(usize),
    MissingWhile(usize),
    DepthOverflow,
}

impl View for LinkError {
    type V = LinkFault;

    open spec fn view(&self) -> LinkFault {
        match self {
            LinkError::MacroRedefinition(n) => LinkFault::MacroRedefinition(n@),
            LinkError::UndefinedMacro(n) => LinkFault::UndefinedMacro(n@),
            LinkError::RecursiveMacro(n) => LinkFault::RecursiveMacro(n@),
            LinkError::UnmatchedElse(i) => LinkFault::UnmatchedElse(*i),
            LinkError::UnmatchedEnd(i) => LinkFault::UnmatchedEnd(*i),
            LinkError::MissingWhile(i) => LinkFault::MissingWhile(*i),
            LinkError::DepthOverflow => LinkFault::DepthOverflow,
        }
    }
}

/// A table of macros: each name with its body, in order of definition.
pub type MacroTable = Seq<(Seq<char>, Seq<OpView>)>;

/// The body of the first macro named `name`.
pub open spec fn lookup(table: MacroTable, name: Seq<char>) -> Option<Seq<OpView>>
    decreases table.len(),
{
    if table.len() == 0 {
        None
    } else if table[0].0 == name {
        Some(table[0].1)
    } else {
        lookup(table.drop_first(), name)
    }
}

/// The state of macro collection: whether a definition is open, its name and
/// body so far, the macros defined and the operations outside definitions.
pub struct Collection {
    pub open: bool,
    pub name: Seq<char>,
    pub pool: Seq<OpView>,
    pub table: MacroTable,
    pub main: Seq<OpView>,
}

pub open spec fn collection_start() -> Collection {
    Collection { open: false, name: Seq::empty(), pool: Seq::empty(), table: Seq::empty(), main: Seq::empty() }
}

/// Collection of one more operation: `macro <name>` opens a definition and
/// empties its body, `;` closes it (refusing a name already defined), and any
/// other operation joins the open body or else the program.
pub open spec fn collect_step(c: Collection, op: OpView) -> Result<Collection, LinkFault> {
    match op {
        OpView::DefineMacro { name } => Ok(Collection { open: true, name, pool: Seq::empty(), ..c }),
        OpView::EndMacro => if lookup(c.table, c.name) is Some {
            Err(LinkFault::MacroRedefinition(c.name))
        } else {
            Ok(Collection { open: false, table: c.table.push((c.name, c.pool)), ..c })
        },
        _ => if c.open {
            Ok(Collection { pool: c.pool.push(op), ..c })
        } else {
            Ok(Collection { main: c.main.push(op), ..c })
        },
    }
}

/// Collection of a whole sequence.
pub open spec fn collect(s: Seq<OpView>) -> Result<Collection, LinkFault>
    decreases s.len(),
{
    if s.len() == 0 {
        Ok(collection_start())
    } else {
        match collect(s.drop_last()) {
            Ok(c) => collect_step(c, s.last()),
            Err(e) => Err(e),
        }
    }
}

/// Expansion of every macro call in `s`, left to right, with at most `fuel`
/// nested expansions below this level.
pub open spec fn expand_seq(s: Seq<OpView>, table: MacroTable, fuel: nat) -> Result<Seq<OpView>, LinkFault>
    decreases fuel, 1nat, s.len(),
{
    if s.len() == 0 {
        Ok(Seq::empty())
    } else {
        match expand_seq(s.drop_last(), table, fuel) {
            Err(e) => Err(e),
            Ok(a) => match s.last() {
                OpView::CallMacro { name } => match expand_name(name, table, fuel) {
                    Ok(b) => Ok(a + b),
                    Err(e) => Err(e),
                },
                op => Ok(a.push(op)),
            },
        }
    }
}

/// Expansion of one call of the macro `name`. With no fuel left the chain of
/// nested calls is longer than the table, so some macro reaches itself.
pub open spec fn expand_name(name: Seq<char>, table: MacroTable, fuel: nat) -> Result<Seq<OpView>, LinkFault>
    decreases fuel, 0nat, 0nat,
{
    match lookup(table, name) {
        None => Err(LinkFault::UndefinedMacro(name)),
        Some(body) => if fuel == 0 {
            Err(LinkFault::RecursiveMacro(name))
        } else {
            expand_seq(body, table, (fuel - 1) as nat)
        },
    }
}

/// `s` with position `j` replaced by `v`, where `j` is a position of `s`.
pub open spec fn set_at(s: Seq<OpView>, j: int, v: OpView) -> Seq<OpView> {
    if 0 <= j < s.len() { s.update(j, v) } else { s }
}

/// Linking from position `i`, with `open` the positions of the blocks not
/// closed yet (innermost last).
pub open spec fn link_from(ops: Seq<OpView>, open: Seq<usize>, i: nat) -> Result<Seq<OpView>, LinkFault>
    decreases ops.len() - i,
{
    if i >= ops.len() {
        Ok(ops)
    } else {
        match ops[i as int] {
            OpView::If { .. } | OpView::While | OpView::Do { .. } => link_from(ops, open.push(i as usize), i + 1),
            OpView::Else { .. } => if open.len() == 0 {
                Err(LinkFault::UnmatchedElse(i as usize))
            } else {
                let j = open.last();
                let ops1 = match ops[j as int] {
                    OpView::If { .. } => set_at(ops, j as int, OpView::If { address: i as usize }),
                    _ => ops,
                };
                link_from(ops1, open.drop_last().push(i as usize), i + 1)
            },
            OpView::End { .. } => if open.len() == 0 {
                Err(LinkFault::UnmatchedEnd(i as usize))
            } else {
                let j = open.last();
                let rest = open.drop_last();
                if ops[j as int] == (OpView::Do { address: 0 }) && rest.len() == 0 {
                    Err(LinkFault::MissingWhile(i as usize))
                } else {
                    let (ops1, open1) = if ops[j as int] == (OpView::Do { address: 0 }) {
                        (set_at(ops, i as int, OpView::End { address: rest.last() }), rest.drop_last())
                    } else {
                        (ops, rest)
                    };
                    let ops2 = match ops1[j as int] {
                        OpView::If { .. } => set_at(ops1, j as int, OpView::If { address: i as usize }),
                        OpView::Else { .. } => set_at(ops1, j as int, OpView::Else { address: i as usize }),
                        OpView::Do { .. } => set_at(ops1, j as int, OpView::Do { address: i as usize }),
                        _ => ops1,
                    };
                    link_from(ops2, open1, i + 1)
                }
            },
            _ => link_from(ops, open, i + 1),
        }
    }
}

/// Linking of a whole program.
pub open spec fn link(ops: Seq<OpView>) -> Result<Seq<OpView>, LinkFault> {
    link_from(ops, Seq::empty(), 0)
}

/// The value of an executable macro table.
pub open spec fn table_view(t: Seq<(String, Vec<Operation>)>) -> MacroTable {
    t.map_values(|p: (String, Vec<Operation>)| (p.0@, ops_view(p.1@)))
}

/// The position of the macro named `name` in the table, if any.
fn find_macro(table: &Vec<(String, Vec<Operation>)>, name: &String) -> (r: Option<usize>)
    ensures
        r is None <==> lookup(table_view(table@), name@) is None,
        r matches Some(k) ==> k < table@.len() && lookup(table_view(table@), name@) == Some(
            ops_view(table@[k as int].1@),
        ),
{
    let ghost tv = table_view(table@);
    let mut k: usize = 0;
    assert(tv.skip(0) =~= tv);
    while k < table.len()
        invariant
            k <= table@.len(),
            tv == table_view(table@),
            lookup(tv, name@) == lookup(tv.skip(k as int), name@),
        decreases table.len() - k,
    {
        assert(tv.skip(k as int)[0] == tv[k as int]);
        if table[k].0 == *name {
            return Some(k);
        }
        assert(tv.skip(k as int).drop_first() =~= tv.skip(k + 1));
        k += 1;
    }
    assert(tv.skip(k as int).len() == 0);
    None
}

/// The collection of a prefix fails with the same fault as the whole.
pub proof fn lemma_collect_prefix_err(s: Seq<OpView>, k: int)
    requires
        0 <= k <= s.len(),
        collect(s.take(k)) is Err,
    ensures
        collect(s) == collect(s.take(k)),
    decreases s.len() - k,
{
    if k < s.len() {
        assert(s.take(k + 1).drop_last() =~= s.take(k));
        lemma_collect_prefix_err(s, k + 1);
    } else {
        assert(s.take(k) =~= s);
    }
}

/// Splits a program into the operations outside macro definitions and the
/// table of macros it defines.
pub fn collect_exec(ops: &Vec<Operation>) -> (r: Result<(Vec<Operation>, Vec<(String, Vec<Operation>)>), LinkError>)
    ensures
        match collect(ops_view(ops@)) {
            Ok(c) => r matches Ok((main, table)) && ops_view(main@) == c.main && table_view(table@) == c.table,
            Err(e) => r matches Err(err) && err@ == e,
        },
{
    let ghost s = ops_view(ops@);
    let mut open = false;
    let mut name = String::new();
    let mut pool: Vec<Operation> = Vec::new();
    let mut table: Vec<(String, Vec<Operation>)> = Vec::new();
    let mut main: Vec<Operation> = Vec::new();
    let mut i: usize = 0;
    assert(s.take(0) =~= Seq::<OpView>::empty());
    assert(ops_view(pool@) =~= Seq::<OpView>::empty());
    assert(table_view(table@) =~= Seq::<(Seq<char>, Seq<OpView>)>::empty());
    while i < ops.len()
        invariant
            i <= ops.len(),
            s == ops_view(ops@),
            collect(s.take(i as int)) == Ok::<Collection, LinkFault>(
                Collection { open, name: name@, pool: ops_view(pool@), table: table_view(table@), main: ops_view(main@) },
            ),
        decreases ops.len() - i,
    {
        assert(s.take(i + 1).drop_last() =~= s.take(i as int));
        assert(s[i as int] == ops@[i as int]@);
        assert(s.take(i + 1).last() == ops@[i as int]@);
        let ghost pv = ops_view(pool@);
        let ghost mv = ops_view(main@);
        let ghost tv = table_view(table@);
        match &ops[i] {
            Operation::DefineMacro { name: n } => {
                open = true;
                name = n.clone();
                pool = Vec::new();
                assert(ops_view(pool@) =~= Seq::<OpView>::empty());
            },
            Operation::EndMacro => {
                if find_macro(&table, &name).is_some() {
                    proof {
                        lemma_collect_prefix_err(s, i + 1);
                    }
                    return Err(LinkError::MacroRedefinition(name));
                }
                open = false;
                let mut body: Vec<Operation> = Vec::new();
                let mut k: usize = 0;
                while k < pool.len()
                    invariant
                        k <= pool.len(),
                        ops_view(body@) == ops_view(pool@).take(k as int),
                    decreases pool.len() - k,
                {
                    let ghost before = ops_view(body@);
                    let c = copy_op(&pool[k]);
                    body.push(c);
                    assert(ops_view(body@) =~= before.push(c@));
                    assert(ops_view(pool@)[k as int] == pool@[k as int]@);
                    k += 1;
                    assert(ops_view(body@) =~= ops_view(pool@).take(k as int));
                }
                assert(ops_view(pool@).take(pool.len() as int) =~= ops_view(pool@));
                table.push((name.clone(), body));
                assert(table_view(table@) =~= tv.push((name@, pv)));
            },
            op => {
                if open {
                    pool.push(copy_op(op));
                    assert(ops_view(pool@) =~= pv.push(op@));
                } else {
                    main.push(copy_op(op));
                    assert(ops_view(main@) =~= mv.push(op@));
                }
            },
        }
        i += 1;
    }
    assert(s.take(ops.len() as int) =~= s);
    Ok((main, table))
}

/// The expansion of a prefix fails with the same fault as the whole.
pub proof fn lemma_expand_prefix_err(s: Seq<OpView>, table: MacroTable, fuel: nat, k: int)
    requires
        0 <= k <= s.len(),
        expand_seq(s.take(k), table, fuel) is Err,
    ensures
        expand_seq(s, table, fuel) == expand_seq(s.take(k), table, fuel),
    decreases s.len() - k,
{
    if k < s.len() {
        assert(s.take(k + 1).drop_last() =~= s.take(k));
        lemma_expand_prefix_err(s, table, fuel, k + 1);
    } else {
        assert(s.take(k) =~= s);
    }
}

/// Appends to `out` the expansion of every macro call in `s`.
pub fn expand_seq_exec(
    s: &Vec<Operation>,
    table: &Vec<(String, Vec<Operation>)>,
    fuel: usize,
    out: &mut Vec<Operation>,
) -> (r: Result<(), LinkError>)
    ensures
        match expand_seq(ops_view(s@), table_view(table@), fuel as nat) {
            Ok(v) => r is Ok && ops_view(final(out)@) == ops_view(old(out)@) + v,
            Err(e) => r matches Err(err) && err@ == e,
        },
    decreases fuel, 1nat,
{
    let ghost sv = ops_view(s@);
    let ghost tv = table_view(table@);
    let ghost start = ops_view(out@);
    let mut i: usize = 0;
    assert(sv.take(0) =~= Seq::<OpView>::empty());
    assert(start + Seq::<OpView>::empty() =~= start);
    while i < s.len()
        invariant
            i <= s.len(),
            sv == ops_view(s@),
            tv == table_view(table@),
            start == ops_view(old(out)@),
            expand_seq(sv.take(i as int), tv, fuel as nat) matches Ok(v) && ops_view(out@) == start + v,
        decreases s.len() - i,
    {
        assert(sv.take(i + 1).drop_last() =~= sv.take(i as int));
        assert(sv[i as int] == s@[i as int]@);
        assert(sv.take(i + 1).last() == s@[i as int]@);
        let ghost before = ops_view(out@);
        let ghost v = expand_seq(sv.take(i as int), tv, fuel as nat)->Ok_0;
        match &s[i] {
            Operation::CallMacro { name } => {
                let r = expand_name_exec(name, table, fuel, out);
                match r {
                    Ok(()) => {
                        let ghost b = expand_name(name@, tv, fuel as nat)->Ok_0;
                        assert(ops_view(out@) =~= start + (v + b));
                    },
                    Err(e) => {
                        proof {
                            lemma_expand_prefix_err(sv, tv, fuel as nat, i + 1);
                        }
                        return Err(e);
                    },
                }
            },
            op => {
                let c = copy_op(op);
                out.push(c);
                assert(ops_view(out@) =~= before.push(c@));
                assert(ops_view(out@) =~= start + v.push(op@));
            },
        }
        i += 1;
    }
    assert(sv.take(s.len() as int) =~= sv);
    Ok(())
}

/// Appends to `out` the expansion of one call of the macro `name`.
pub fn expand_name_exec(
    name: &String,
    table: &Vec<(String, Vec<Operation>)>,
    fuel: usize,
    out: &mut Vec<Operation>,
) -> (r: Result<(), LinkError>)
    ensures
        match expand_name(name@, table_view(table@), fuel as nat) {
            Ok(v) => r is Ok && ops_view(final(out)@) == ops_view(old(out)@) + v,
            Err(e) => r matches Err(err) && err@ == e,
        },
    decreases fuel, 0nat,
{
    match find_macro(table, name) {
        None => Err(LinkError::UndefinedMacro(name.clone())),
        Some(k) => {
            if fuel == 0 {
                return Err(LinkError::RecursiveMacro(name.clone()));
            }
            expand_seq_exec(&table[k].1, table, fuel - 1, out)
        },
    }
}

/// Links control flow in place: each `if` and `else` gets the position of the
/// `else` or `end` that closes it, each `do` the position of its `end`, and
/// each `end` that closes a `do` the position of the `while` it returns to.
pub fn link_exec(ops: &mut Vec<Operation>) -> (r: Result<(), LinkError>)
    ensures
        match link(ops_view(old(ops)@)) {
            Ok(v) => r is Ok && ops_view(final(ops)@) == v,
            Err(e) => r matches Err(err) && err@ == e,
        },
{
    let ghost s0 = ops_view(ops@);
    let len = ops.len();
    let mut open: Vec<usize> = Vec::new();
    let mut i: usize = 0;
    while i < len
        invariant
            i <= len == ops.len(),
            s0 == ops_view(old(ops)@),
            link(s0) == link_from(ops_view(ops@), open@, i as nat),
            forall|k: int| 0 <= k < open@.len() ==> open@[k] < i,
        decreases len - i,
    {
        let ghost cur = ops_view(ops@);
        let ghost open0 = open@;
        assert(cur[i as int] == ops@[i as int]@);
        let is_if = matches!(ops[i], Operation::If { .. });
        let is_open = matches!(ops[i], Operation::If { .. } | Operation::While | Operation::Do { .. });
        let is_else = matches!(ops[i], Operation::Else { .. });
        let is_end = matches!(ops[i], Operation::End { .. });
        if is_open {
            open.push(i);
        } else if is_else {
            if open.len() == 0 {
                assert(link_from(cur, open0, i as nat) == Err::<Seq<OpView>, LinkFault>(LinkFault::UnmatchedElse(i)));
                return Err(LinkError::UnmatchedElse(i));
            }
            let j = open.pop().unwrap();
            assert(cur[j as int] == ops@[j as int]@);
            if matches!(ops[j], Operation::If { .. }) {
                ops.set(j, Operation::If { address: i });
                assert(ops_view(ops@) =~= set_at(cur, j as int, OpView::If { address: i }));
            }
            open.push(i);
        } else if is_end {
            if open.len() == 0 {
                assert(link_from(cur, open0, i as nat) == Err::<Seq<OpView>, LinkFault>(LinkFault::UnmatchedEnd(i)));
                return Err(LinkError::UnmatchedEnd(i));
            }
            let j = open.pop().unwrap();
            assert(cur[j as int] == ops@[j as int]@);
            let do_zero = match &ops[j] {
                Operation::Do { address } => *address == 0,
                _ => false,
            };
            assert(do_zero == (cur[j as int] == (OpView::Do { address: 0 })));
            if do_zero {
                if open.len() == 0 {
                    assert(link_from(cur, open0, i as nat) == Err::<Seq<OpView>, LinkFault>(LinkFault::MissingWhile(i)));
                    return Err(LinkError::MissingWhile(i));
                }
                let w = open.pop().unwrap();
                ops.set(i, Operation::End { address: w });
                assert(ops_view(ops@) =~= set_at(cur, i as int, OpView::End { address: w }));
            }
            let ghost cur1 = ops_view(ops@);
            assert(cur1[j as int] == ops@[j as int]@);
            match &ops[j] {
                Operation::If { .. } => {
                    ops.set(j, Operation::If { address: i });
                    assert(ops_view(ops@) =~= set_at(cur1, j as int, OpView::If { address: i }));
                },
                Operation::Else { .. } => {
                    ops.set(j, Operation::Else { address: i });
                    assert(ops_view(ops@) =~= set_at(cur1, j as int, OpView::Else { address: i }));
                },
                Operation::Do { .. } => {
                    ops.set(j, Operation::Do { address: i });
                    assert(ops_view(ops@) =~= set_at(cur1, j as int, OpView::Do { address: i }));
                },
                _ => {},
            }
        }
        i += 1;
    }
    Ok(())
}

} // verus!
