//! The source language: include lines, string literals, comments and words,
//! and the operation each word stands for.
use vstd::prelude::*;
use crate::operation::{Operation, OpView, ops_view};
use crate::codegen::{translatable, all_translatable};
use crate::text::{
    lines, words, trim, trim_quotes, before_comment, replace_spec, starts_with, seqs_view, chars_of,
    string_of, lines_exec, words_exec, trim_exec, before_comment_exec, replace_exec,
};

verus! {

/// Why a source text could not be parsed.
#[derive(PartialEq, Clone, Debug)]
pub enum ParseError {
    /// An `include` line names no file.
    MissingIncludePath,
    /// The word `string` stands where no string literal is left on its line.
    MissingString,
    /// `macro` ends its line without a name.
    MissingMacroName,
    /// A word that begins with a digit is not a number that fits in 64 bits.
    InvalidNumber(String),
}

/// The value of a [`ParseError`].
pub enum ParseFault {
    MissingIncludePath,
    MissingString,
    MissingMacroName,
    InvalidNumber(Seq<char>),
}

impl View for ParseError {
    type V = ParseFault;

    open spec fn view(&self) -> ParseFault {
        match self {
            ParseError::MissingIncludePath => ParseFault::MissingIncludePath,
            ParseError::MissingString => ParseFault::MissingString,
            ParseError::MissingMacroName => ParseFault::MissingMacroName,
            ParseError::InvalidNumber(t) => ParseFault::InvalidNumber(t@),
        }
    }
}

/// Whether `c` is an ASCII decimal digit.
pub open spec fn is_digit(c: char) -> bool {
    '0' <= c && c <= '9'
}

/// Whether every character of `t` is a decimal digit.
pub open spec fn all_digits(t: Seq<char>) -> bool {
    forall|i: int| 0 <= i < t.len() ==> is_digit(#[trigger] t[i])
}

/// The number that the decimal digits `t` write.
pub open spec fn digits_value(t: Seq<char>) -> int
    decreases t.len(),
{
    if t.len() == 0 {
        0
    } else {
        digits_value(t.drop_last()) * 10 + (t.last() as int - '0' as int)
    }
}

/// The operation a word stands for, other than `string` and `macro`.
pub open spec fn token_op(t: Seq<char>) -> Result<OpView, ParseFault> {
    if t == "+"@ {
        Ok(OpView::Plus { depth: 1 })
    } else if t == "-"@ {
        Ok(OpView::Minus)
    } else if t == "/"@ {
        Ok(OpView::Div)
    } else if t == "%"@ {
        Ok(OpView::Mod)
    } else if t == "="@ {
        Ok(OpView::Equals)
    } else if t == "not"@ {
        Ok(OpView::Not)
    } else if t == "!="@ {
        Ok(OpView::NotEqual)
    } else if t == ">"@ {
        Ok(OpView::Greater)
    } else if t == "<"@ {
        Ok(OpView::Lower)
    } else if t == "&"@ {
        Ok(OpView::BitAnd)
    } else if t == "|"@ {
        Ok(OpView::BitOr)
    } else if t == "<<"@ {
        Ok(OpView::BitShiftLeft)
    } else if t == ">>"@ {
        Ok(OpView::BitShiftRight)
    } else if t == "dump"@ {
        Ok(OpView::Dump)
    } else if t == "if"@ {
        Ok(OpView::If { address: 0 })
    } else if t == "else"@ {
        Ok(OpView::Else { address: 0 })
    } else if t == "while"@ {
        Ok(OpView::While)
    } else if t == "do"@ {
        Ok(OpView::Do { address: 0 })
    } else if t == "end"@ {
        Ok(OpView::End { address: 0 })
    } else if t == "dup"@ {
        Ok(OpView::Dup { depth: 1 })
    } else if t == "2dup"@ {
        Ok(OpView::Dup { depth: 2 })
    } else if t == "swap"@ {
        Ok(OpView::Swap)
    } else if t == "over"@ {
        Ok(OpView::Over)
    } else if t == "rot"@ {
        Ok(OpView::Rot)
    } else if t == "mem"@ {
        Ok(OpView::Mem)
    } else if t == "!"@ {
        Ok(OpView::Store)
    } else if t == "@"@ {
        Ok(OpView::Load)
    } else if t == "!32"@ {
        Ok(OpView::Store32)
    } else if t == "@32"@ {
        Ok(OpView::Load32)
    } else if t == "!64"@ {
        Ok(OpView::Store64)
    } else if t == "@64"@ {
        Ok(OpView::Load64)
    } else if t == "drop"@ {
        Ok(OpView::Drop)
    } else if t == "syscall1"@ {
        Ok(OpView::Syscall { arg_count: 1 })
    } else if t == "syscall2"@ {
        Ok(OpView::Syscall { arg_count: 2 })
    } else if t == "syscall3"@ {
        Ok(OpView::Syscall { arg_count: 3 })
    } else if t == ";"@ {
        Ok(OpView::EndMacro)
    } else if t.len() > 0 && is_digit(t[0]) {
        if all_digits(t) && digits_value(t) <= u64::MAX {
            Ok(OpView::Push(digits_value(t) as u64))
        } else {
            Err(ParseFault::InvalidNumber(t))
        }
    } else {
        Ok(OpView::CallMacro { name: t })
    }
}

/// `r` with `out` in front of its operations.
pub open spec fn prepend(out: Seq<OpView>, r: Result<Seq<OpView>, ParseFault>) -> Result<Seq<OpView>, ParseFault> {
    match r {
        Ok(v) => Ok(out + v),
        Err(e) => Err(e),
    }
}

/// The operations of the words of a line from word `i` on, with `strings`
/// the string literals not used yet: `string` takes the last of them,
/// `macro` takes the next word as the name it defines.
pub open spec fn tokens_from(toks: Seq<Seq<char>>, i: nat, strings: Seq<Seq<char>>) -> Result<Seq<OpView>, ParseFault>
    decreases toks.len() - i,
{
    if i >= toks.len() {
        Ok(Seq::empty())
    } else {
        let t = toks[i as int];
        if t == "string"@ {
            if strings.len() == 0 {
                Err(ParseFault::MissingString)
            } else {
                prepend(seq![OpView::String(strings.last())], tokens_from(toks, i + 1, strings.drop_last()))
            }
        } else if t == "macro"@ {
            if i + 1 < toks.len() {
                prepend(seq![OpView::DefineMacro { name: toks[(i + 1) as int] }], tokens_from(toks, i + 2, strings))
            } else {
                Err(ParseFault::MissingMacroName)
            }
        } else {
            match token_op(t) {
                Ok(op) => prepend(seq![op], tokens_from(toks, i + 1, strings)),
                Err(e) => Err(e),
            }
        }
    }
}

/// The string literals of a line, scanned from position `i` on: a double
/// quote opens or closes a literal, a backslash arms an escape, and an `n`
/// after an armed escape adds a newline to the literal being read.
pub open spec fn scan_from(
    s: Seq<char>,
    i: nat,
    reading: bool,
    escape: bool,
    strings: Seq<Seq<char>>,
    accum: Seq<char>,
) -> Seq<Seq<char>>
    decreases s.len() - i,
{
    if i >= s.len() {
        strings
    } else {
        let ch = s[i as int];
        if ch == '"' {
            scan_from(
                s,
                i + 1,
                !reading,
                escape,
                if reading { strings.push(accum) } else { strings },
                if reading { Seq::empty() } else { accum },
            )
        } else if ch == '\\' {
            scan_from(s, i + 1, reading, true, strings, accum)
        } else if ch == 'n' && escape {
            scan_from(s, i + 1, reading, false, strings, accum.push('\n'))
        } else {
            scan_from(s, i + 1, reading, escape, strings, if reading { accum.push(ch) } else { accum })
        }
    }
}

/// The string literals of a line.
pub open spec fn scan(s: Seq<char>) -> Seq<Seq<char>> {
    scan_from(s, 0, false, false, Seq::empty(), Seq::empty())
}

/// The line after the first `n` literals were substituted: for each, up to
/// two escaped newlines become newlines, then the quoted literal becomes
/// the word `string`.
pub open spec fn substitute(line: Seq<char>, strings: Seq<Seq<char>>, n: nat) -> Seq<char>
    decreases n,
{
    if n == 0 {
        line
    } else {
        let l = substitute(line, strings, (n - 1) as nat);
        let l1 = replace_spec(l, "\\n"@, "\n"@, 2, true);
        replace_spec(l1, seq!['"'] + strings[n - 1] + seq!['"'], "string"@, 0, false)
    }
}

/// The operations of one line of source.
pub open spec fn parse_line(raw: Seq<char>) -> Result<Seq<OpView>, ParseFault> {
    let line = trim(raw);
    let strings = scan(line);
    let text = substitute(line, strings, strings.len());
    tokens_from(words(before_comment(text)), 0, strings)
}

/// The operations of a sequence of lines, stopping at the first fault.
pub open spec fn parse_lines(ls: Seq<Seq<char>>) -> Result<Seq<OpView>, ParseFault>
    decreases ls.len(),
{
    if ls.len() == 0 {
        Ok(Seq::empty())
    } else {
        match parse_lines(ls.drop_last()) {
            Err(e) => Err(e),
            Ok(a) => match parse_line(ls.last()) {
                Ok(b) => Ok(a + b),
                Err(e) => Err(e),
            },
        }
    }
}

/// Whether a line is an include line.
pub open spec fn is_include(line: Seq<char>) -> bool {
    starts_with(line, "include"@)
}

/// The files named by the include lines, in order.
pub open spec fn include_list(ls: Seq<Seq<char>>) -> Result<Seq<Seq<char>>, ParseFault>
    decreases ls.len(),
{
    if ls.len() == 0 {
        Ok(Seq::empty())
    } else {
        match include_list(ls.drop_last()) {
            Err(e) => Err(e),
            Ok(a) => if is_include(ls.last()) {
                if words(ls.last()).len() < 2 {
                    Err(ParseFault::MissingIncludePath)
                } else {
                    Ok(a.push(trim_quotes(words(ls.last())[1])))
                }
            } else {
                Ok(a)
            },
        }
    }
}

/// All texts, one after the other.
pub open spec fn concat_all(ss: Seq<Seq<char>>) -> Seq<char>
    decreases ss.len(),
{
    if ss.len() == 0 {
        Seq::empty()
    } else {
        concat_all(ss.drop_last()) + ss.last()
    }
}

/// The lines that are not include lines, each ended by a newline.
pub open spec fn body_text(ls: Seq<Seq<char>>) -> Seq<char>
    decreases ls.len(),
{
    if ls.len() == 0 {
        Seq::empty()
    } else {
        body_text(ls.drop_last()) + if is_include(ls.last()) {
            Seq::empty()
        } else {
            ls.last().push('\n')
        }
    }
}

/// The text a program is read from: the included texts, then the lines of
/// the main text that are not include lines.
pub open spec fn source_text(code: Seq<char>, included: Seq<Seq<char>>) -> Seq<char> {
    concat_all(included) + body_text(lines(code))
}

/// The operations of a program.
pub open spec fn parse_source_spec(code: Seq<char>, included: Seq<Seq<char>>) -> Result<Seq<OpView>, ParseFault> {
    parse_lines(lines(source_text(code, included)))
}

/// Whether the characters of `t` are those of `lit`.
pub fn eq_lit(t: &Vec<char>, lit: &str) -> (b: bool)
    ensures
        b == (t@ == lit@),
{
    let l = chars_of(lit);
    if l.len() != t.len() {
        return false;
    }
    let mut i: usize = 0;
    while i < t.len()
        invariant
            i <= t.len() == l.len(),
            l@ == lit@,
            forall|j: int| 0 <= j < i ==> t@[j] == l@[j],
        decreases t.len() - i,
    {
        if t[i] != l[i] {
            return false;
        }
        i += 1;
    }
    assert(t@ =~= l@);
    true
}

/// The number written by digits is not negative.
proof fn lemma_digits_value_nonneg(t: Seq<char>)
    requires
        all_digits(t),
    ensures
        0 <= digits_value(t),
    decreases t.len(),
{
    if t.len() > 0 {
        assert(all_digits(t.drop_last()));
        assert(is_digit(t[t.len() - 1]));
        lemma_digits_value_nonneg(t.drop_last());
    }
}

/// A number's digits are at least the digits of any of its prefixes.
proof fn lemma_digits_value_prefix(t: Seq<char>, k: int)
    requires
        all_digits(t),
        0 <= k <= t.len(),
    ensures
        digits_value(t.take(k)) <= digits_value(t),
    decreases t.len(),
{
    if k < t.len() {
        let p = t.drop_last();
        assert(all_digits(p));
        assert(p.take(k) =~= t.take(k));
        lemma_digits_value_prefix(p, k);
        lemma_digits_value_nonneg(p);
        assert(is_digit(t[t.len() - 1]));
    } else {
        assert(t.take(k) =~= t);
    }
}

/// The number the digits of `t` write, if all are digits and it fits.
pub fn parse_number(t: &Vec<char>) -> (r: Option<u64>)
    ensures
        r is Some <==> all_digits(t@) && digits_value(t@) <= u64::MAX,
        r matches Some(v) ==> v == digits_value(t@),
{
    let mut v: u64 = 0;
    let mut i: usize = 0;
    assert(t@.take(0) =~= Seq::<char>::empty());
    while i < t.len()
        invariant
            i <= t.len(),
            all_digits(t@.take(i as int)),
            v == digits_value(t@.take(i as int)),
        decreases t.len() - i,
    {
        let c = t[i];
        assert(t@.take(i + 1).drop_last() =~= t@.take(i as int));
        if !('0' <= c && c <= '9') {
            assert(!is_digit(t@[i as int]));
            return None;
        }
        let d = (c as u32 - '0' as u32) as u64;
        let next = match v.checked_mul(10) {
            Some(m) => m.checked_add(d),
            None => None,
        };
        match next {
            Some(n) => {
                v = n;
            },
            None => {
                proof {
                    if all_digits(t@) {
                        lemma_digits_value_prefix(t@, i + 1);
                    }
                }
                return None;
            },
        }
        i += 1;
        assert(all_digits(t@.take(i as int))) by {
            assert forall|j: int| 0 <= j < i implies is_digit(#[trigger] t@.take(i as int)[j]) by {
                if j < i - 1 {
                    assert(t@.take(i as int)[j] == t@.take(i - 1)[j]);
                }
            }
        }
    }
    assert(t@.take(t.len() as int) =~= t@);
    Some(v)
}

/// The operation a word stands for, other than `string` and `macro`.
pub fn token_op_exec(t: &Vec<char>) -> (r: Result<Operation, ParseError>)
    ensures
        match token_op(t@) {
            Ok(op) => r matches Ok(o) && o@ == op,
            Err(e) => r matches Err(err) && err@ == e,
        },
{
    if eq_lit(t, "+") {
        Ok(Operation::Plus { depth: 1 })
    } else if eq_lit(t, "-") {
        Ok(Operation::Minus)
    } else if eq_lit(t, "/") {
        Ok(Operation::Div)
    } else if eq_lit(t, "%") {
        Ok(Operation::Mod)
    } else if eq_lit(t, "=") {
        Ok(Operation::Equals)
    } else if eq_lit(t, "not") {
        Ok(Operation::Not)
    } else if eq_lit(t, "!=") {
        Ok(Operation::NotEqual)
    } else if eq_lit(t, ">") {
        Ok(Operation::Greater)
    } else if eq_lit(t, "<") {
        Ok(Operation::Lower)
    } else if eq_lit(t, "&") {
        Ok(Operation::BitAnd)
    } else if eq_lit(t, "|") {
        Ok(Operation::BitOr)
    } else if eq_lit(t, "<<") {
        Ok(Operation::BitShiftLeft)
    } else if eq_lit(t, ">>") {
        Ok(Operation::BitShiftRight)
    } else if eq_lit(t, "dump") {
        Ok(Operation::Dump)
    } else if eq_lit(t, "if") {
        Ok(Operation::If { address: 0 })
    } else if eq_lit(t, "else") {
        Ok(Operation::Else { address: 0 })
    } else if eq_lit(t, "while") {
        Ok(Operation::While)
    } else if eq_lit(t, "do") {
        Ok(Operation::Do { address: 0 })
    } else if eq_lit(t, "end") {
        Ok(Operation::End { address: 0 })
    } else if eq_lit(t, "dup") {
        Ok(Operation::Dup { depth: 1 })
    } else if eq_lit(t, "2dup") {
        Ok(Operation::Dup { depth: 2 })
    } else if eq_lit(t, "swap") {
        Ok(Operation::Swap)
    } else if eq_lit(t, "over") {
        Ok(Operation::Over)
    } else if eq_lit(t, "rot") {
        Ok(Operation::Rot)
    } else if eq_lit(t, "mem") {
        Ok(Operation::Mem)
    } else if eq_lit(t, "!") {
        Ok(Operation::Store)
    } else if eq_lit(t, "@") {
        Ok(Operation::Load)
    } else if eq_lit(t, "!32") {
        Ok(Operation::Store32)
    } else if eq_lit(t, "@32") {
        Ok(Operation::Load32)
    } else if eq_lit(t, "!64") {
        Ok(Operation::Store64)
    } else if eq_lit(t, "@64") {
        Ok(Operation::Load64)
    } else if eq_lit(t, "drop") {
        Ok(Operation::Drop)
    } else if eq_lit(t, "syscall1") {
        Ok(Operation::Syscall { arg_count: 1 })
    } else if eq_lit(t, "syscall2") {
        Ok(Operation::Syscall { arg_count: 2 })
    } else if eq_lit(t, "syscall3") {
        Ok(Operation::Syscall { arg_count: 3 })
    } else if eq_lit(t, ";") {
        Ok(Operation::EndMacro)
    } else if t.len() > 0 && '0' <= t[0] && t[0] <= '9' {
        match parse_number(t) {
            Some(v) => Ok(Operation::Push(v)),
            None => Err(ParseError::InvalidNumber(string_of(t))),
        }
    } else {
        Ok(Operation::CallMacro { name: string_of(t) })
    }
}

proof fn lemma_prepend_prepend(a: Seq<OpView>, b: Seq<OpView>, r: Result<Seq<OpView>, ParseFault>)
    ensures
        prepend(a, prepend(b, r)) == prepend(a + b, r),
{
    if let Ok(v) = r {
        assert(a + (b + v) =~= (a + b) + v);
    }
}

/// The operations of the words of a line, given its string literals.
pub fn tokens_exec(toks: &Vec<Vec<char>>, strings: Vec<Vec<char>>) -> (r: Result<Vec<Operation>, ParseError>)
    ensures
        match tokens_from(seqs_view(toks@), 0, seqs_view(strings@)) {
            Ok(v) => r matches Ok(o) && ops_view(o@) == v,
            Err(e) => r matches Err(err) && err@ == e,
        },
{
    let ghost tv = seqs_view(toks@);
    let ghost s0 = seqs_view(strings@);
    let mut strs = strings;
    let mut out: Vec<Operation> = Vec::new();
    let mut i: usize = 0;
    assert(ops_view(out@) =~= Seq::<OpView>::empty());
    proof {
        if let Ok(v) = tokens_from(tv, 0, s0) {
            assert(Seq::<OpView>::empty() + v =~= v);
        }
    }
    while i < toks.len()
        invariant
            i <= toks.len(),
            tv == seqs_view(toks@),
            s0 == seqs_view(strings@),
            tokens_from(tv, 0, s0) == prepend(ops_view(out@), tokens_from(tv, i as nat, seqs_view(strs@))),
        decreases toks.len() - i,
    {
        let ghost o0 = ops_view(out@);
        let ghost sv = seqs_view(strs@);
        assert(tv[i as int] == toks@[i as int]@);
        let t = &toks[i];
        if eq_lit(t, "string") {
            if strs.len() == 0 {
                assert(tokens_from(tv, i as nat, sv) == Err::<Seq<OpView>, ParseFault>(ParseFault::MissingString));
                return Err(ParseError::MissingString);
            }
            let st = strs.pop().unwrap();
            assert(seqs_view(strs@) =~= sv.drop_last());
            let op = Operation::String(string_of(&st));
            out.push(op);
            assert(ops_view(out@) =~= o0 + seq![OpView::String(sv.last())]);
            proof {
                lemma_prepend_prepend(o0, seq![OpView::String(sv.last())], tokens_from(tv, (i + 1) as nat, sv.drop_last()));
            }
            i += 1;
        } else if eq_lit(t, "macro") {
            if i + 1 >= toks.len() {
                assert(tokens_from(tv, i as nat, sv) == Err::<Seq<OpView>, ParseFault>(ParseFault::MissingMacroName));
                return Err(ParseError::MissingMacroName);
            }
            assert(tv[i + 1] == toks@[i + 1]@);
            let op = Operation::DefineMacro { name: string_of(&toks[i + 1]) };
            out.push(op);
            assert(ops_view(out@) =~= o0 + seq![OpView::DefineMacro { name: tv[i + 1] }]);
            proof {
                lemma_prepend_prepend(o0, seq![OpView::DefineMacro { name: tv[i + 1] }], tokens_from(tv, (i + 2) as nat, sv));
            }
            i += 2;
        } else {
            let op = match token_op_exec(t) {
                Ok(op) => op,
                Err(e) => {
                    assert(tokens_from(tv, i as nat, sv) == Err::<Seq<OpView>, ParseFault>(e@));
                    return Err(e);
                },
            };
            let ghost ov = op@;
            out.push(op);
            assert(ops_view(out@) =~= o0 + seq![ov]);
            proof {
                lemma_prepend_prepend(o0, seq![ov], tokens_from(tv, (i + 1) as nat, sv));
            }
            i += 1;
        }
    }
    proof {
        assert(ops_view(out@) + Seq::<OpView>::empty() =~= ops_view(out@));
    }
    Ok(out)
}

/// The string literals of a line.
pub fn scan_exec(line: &Vec<char>) -> (r: Vec<Vec<char>>)
    ensures
        seqs_view(r@) == scan(line@),
{
    let mut reading = false;
    let mut escape = false;
    let mut strings: Vec<Vec<char>> = Vec::new();
    let mut accum: Vec<char> = Vec::new();
    let mut i: usize = 0;
    assert(seqs_view(strings@) =~= Seq::<Seq<char>>::empty());
    while i < line.len()
        invariant
            i <= line.len(),
            scan(line@) == scan_from(line@, i as nat, reading, escape, seqs_view(strings@), accum@),
        decreases line.len() - i,
    {
        let ch = line[i];
        let ghost sv = seqs_view(strings@);
        let ghost a0 = accum@;
        if ch == '"' {
            if reading {
                let done = accum;
                strings.push(done);
                accum = Vec::new();
                assert(seqs_view(strings@) =~= sv.push(a0));
            }
            reading = !reading;
        } else if ch == '\\' {
            escape = true;
        } else if ch == 'n' && escape {
            accum.push('\n');
            escape = false;
        } else if reading {
            accum.push(ch);
        }
        i += 1;
    }
    strings
}

/// `line` after the substitution of its first `n` string literals.
pub fn substitute_exec(line: &Vec<char>, strings: &Vec<Vec<char>>) -> (r: Vec<char>)
    ensures
        r@ == substitute(line@, seqs_view(strings@), strings@.len()),
{
    let ghost sv = seqs_view(strings@);
    let escaped = chars_of("\\n");
    let newline = chars_of("\n");
    let word = chars_of("string");
    let mut l: Vec<char> = Vec::new();
    let mut k: usize = 0;
    while k < line.len()
        invariant
            k <= line.len(),
            l@ == line@.take(k as int),
        decreases line.len() - k,
    {
        l.push(line[k]);
        k += 1;
        assert(l@ =~= line@.take(k as int));
    }
    assert(line@.take(line.len() as int) =~= line@);
    let mut n: usize = 0;
    while n < strings.len()
        invariant
            n <= strings.len(),
            sv == seqs_view(strings@),
            escaped@ == "\\n"@,
            newline@ == "\n"@,
            word@ == "string"@,
            l@ == substitute(line@, sv, n as nat),
        decreases strings.len() - n,
    {
        let l1 = replace_exec(&l, &escaped, &newline, 2, true);
        let mut quoted: Vec<char> = Vec::new();
        quoted.push('"');
        let st = &strings[n];
        let mut j: usize = 0;
        while j < st.len()
            invariant
                j <= st.len(),
                quoted@ == seq!['"'] + st@.take(j as int),
            decreases st.len() - j,
        {
            quoted.push(st[j]);
            j += 1;
            assert(quoted@ =~= seq!['"'] + st@.take(j as int));
        }
        quoted.push('"');
        assert(sv[n as int] == strings@[n as int]@);
        assert(quoted@ =~= seq!['"'] + sv[n as int] + seq!['"']);
        l = replace_exec(&l1, &quoted, &word, 0, false);
        n += 1;
    }
    l
}

/// The operations of one line of source.
pub fn parse_line_exec(raw: &Vec<char>) -> (r: Result<Vec<Operation>, ParseError>)
    ensures
        match parse_line(raw@) {
            Ok(v) => r matches Ok(o) && ops_view(o@) == v,
            Err(e) => r matches Err(err) && err@ == e,
        },
{
    let line = trim_exec(raw, false);
    let strings = scan_exec(&line);
    let text = substitute_exec(&line, &strings);
    let toks = words_exec(&before_comment_exec(&text));
    tokens_exec(&toks, strings)
}

proof fn lemma_parse_lines_prefix_err(ls: Seq<Seq<char>>, k: int)
    requires
        0 <= k <= ls.len(),
        parse_lines(ls.take(k)) is Err,
    ensures
        parse_lines(ls) == parse_lines(ls.take(k)),
    decreases ls.len() - k,
{
    if k < ls.len() {
        assert(ls.take(k + 1).drop_last() =~= ls.take(k));
        lemma_parse_lines_prefix_err(ls, k + 1);
    } else {
        assert(ls.take(k) =~= ls);
    }
}

/// The operations of a sequence of lines.
pub fn parse_lines_exec(ls: &Vec<Vec<char>>) -> (r: Result<Vec<Operation>, ParseError>)
    ensures
        match parse_lines(seqs_view(ls@)) {
            Ok(v) => r matches Ok(o) && ops_view(o@) == v,
            Err(e) => r matches Err(err) && err@ == e,
        },
{
    let ghost lv = seqs_view(ls@);
    let mut out: Vec<Operation> = Vec::new();
    let mut i: usize = 0;
    assert(lv.take(0) =~= Seq::<Seq<char>>::empty());
    assert(ops_view(out@) =~= Seq::<OpView>::empty());
    while i < ls.len()
        invariant
            i <= ls.len(),
            lv == seqs_view(ls@),
            parse_lines(lv.take(i as int)) == Ok::<Seq<OpView>, ParseFault>(ops_view(out@)),
        decreases ls.len() - i,
    {
        assert(lv.take(i + 1).drop_last() =~= lv.take(i as int));
        assert(lv[i as int] == ls@[i as int]@);
        assert(lv.take(i + 1).last() == ls@[i as int]@);
        match parse_line_exec(&ls[i]) {
            Ok(ops) => {
                let ghost o0 = ops_view(out@);
                let mut k: usize = 0;
                while k < ops.len()
                    invariant
                        k <= ops.len(),
                        ops_view(out@) == o0 + ops_view(ops@).take(k as int),
                    decreases ops.len() - k,
                {
                    let ghost before = ops_view(out@);
                    let c = crate::operation::copy_op(&ops[k]);
                    out.push(c);
                    assert(ops_view(ops@)[k as int] == ops@[k as int]@);
                    assert(ops_view(out@) =~= before.push(c@));
                    k += 1;
                    assert(ops_view(out@) =~= o0 + ops_view(ops@).take(k as int));
                }
                assert(ops_view(ops@).take(ops.len() as int) =~= ops_view(ops@));
            },
            Err(e) => {
                proof {
                    lemma_parse_lines_prefix_err(lv, i + 1);
                }
                return Err(e);
            },
        }
        i += 1;
    }
    assert(lv.take(ls.len() as int) =~= lv);
    Ok(out)
}

/// The values of a sequence of strings.
pub open spec fn strings_view(v: Seq<String>) -> Seq<Seq<char>> {
    v.map_values(|x: String| x@)
}

proof fn lemma_include_list_prefix_err(ls: Seq<Seq<char>>, k: int)
    requires
        0 <= k <= ls.len(),
        include_list(ls.take(k)) is Err,
    ensures
        include_list(ls) == include_list(ls.take(k)),
    decreases ls.len() - k,
{
    if k < ls.len() {
        assert(ls.take(k + 1).drop_last() =~= ls.take(k));
        lemma_include_list_prefix_err(ls, k + 1);
    } else {
        assert(ls.take(k) =~= ls);
    }
}

/// The files that the include lines of a source text name, in order: the
/// second word of each line that begins with `include`, without the double
/// quotes around it.
pub fn include_paths(code: &str) -> (r: Result<Vec<String>, ParseError>)
    ensures
        match include_list(lines(code@)) {
            Ok(v) => r matches Ok(paths) && strings_view(paths@) == v,
            Err(e) => r matches Err(err) && err@ == e,
        },
{
    let ls = lines_exec(&chars_of(code));
    let ghost lv = seqs_view(ls@);
    let keyword = chars_of("include");
    let mut out: Vec<String> = Vec::new();
    let mut i: usize = 0;
    assert(lv.take(0) =~= Seq::<Seq<char>>::empty());
    assert(strings_view(out@) =~= Seq::<Seq<char>>::empty());
    while i < ls.len()
        invariant
            i <= ls.len(),
            lv == seqs_view(ls@),
            lv == lines(code@),
            keyword@ == "include"@,
            include_list(lv.take(i as int)) == Ok::<Seq<Seq<char>>, ParseFault>(strings_view(out@)),
        decreases ls.len() - i,
    {
        assert(lv.take(i + 1).drop_last() =~= lv.take(i as int));
        assert(lv[i as int] == ls@[i as int]@);
        assert(lv.take(i + 1).last() == ls@[i as int]@);
        let line = &ls[i];
        if starts_with_exec(line, &keyword) {
            let w = words_exec(line);
            if w.len() < 2 {
                proof {
                    lemma_include_list_prefix_err(lv, i + 1);
                }
                return Err(ParseError::MissingIncludePath);
            }
            assert(seqs_view(w@)[1] == w@[1]@);
            let path = trim_exec(&w[1], true);
            let ghost o0 = strings_view(out@);
            out.push(string_of(&path));
            assert(strings_view(out@) =~= o0.push(trim_quotes(words(lv[i as int])[1])));
        }
        i += 1;
    }
    assert(lv.take(ls.len() as int) =~= lv);
    Ok(out)
}

/// Whether `s` begins with `p`.
pub fn starts_with_exec(s: &Vec<char>, p: &Vec<char>) -> (b: bool)
    ensures
        b == starts_with(s@, p@),
{
    if p.len() > s.len() {
        return false;
    }
    let mut k: usize = 0;
    while k < p.len()
        invariant
            k <= p.len() <= s.len(),
            forall|j: int| 0 <= j < k ==> s@[j] == p@[j],
        decreases p.len() - k,
    {
        if s[k] != p[k] {
            assert(s@.take(p.len() as int)[k as int] == s@[k as int]);
            return false;
        }
        k += 1;
    }
    assert(s@.take(p.len() as int) =~= p@);
    true
}

/// The text a program is read from: the included texts in order, then each
/// line of `code` that is not an include line, ended by a newline.
pub fn source_text_exec(code: &str, included: &Vec<String>) -> (r: Vec<char>)
    ensures
        r@ == source_text(code@, strings_view(included@)),
{
    let ghost iv = strings_view(included@);
    let mut out: Vec<char> = Vec::new();
    let mut i: usize = 0;
    assert(iv.take(0) =~= Seq::<Seq<char>>::empty());
    while i < included.len()
        invariant
            i <= included.len(),
            iv == strings_view(included@),
            out@ == concat_all(iv.take(i as int)),
        decreases included.len() - i,
    {
        assert(iv.take(i + 1).drop_last() =~= iv.take(i as int));
        assert(iv[i as int] == included@[i as int]@);
        let cs = chars_of(included[i].as_str());
        let ghost o0 = out@;
        let mut k: usize = 0;
        while k < cs.len()
            invariant
                k <= cs.len(),
                out@ == o0 + cs@.take(k as int),
            decreases cs.len() - k,
        {
            out.push(cs[k]);
            k += 1;
            assert(out@ =~= o0 + cs@.take(k as int));
        }
        assert(cs@.take(cs.len() as int) =~= cs@);
        i += 1;
    }
    assert(iv.take(included.len() as int) =~= iv);
    let ghost head = out@;
    let ls = lines_exec(&chars_of(code));
    let ghost lv = seqs_view(ls@);
    let keyword = chars_of("include");
    let mut j: usize = 0;
    assert(lv.take(0) =~= Seq::<Seq<char>>::empty());
    assert(head + body_text(lv.take(0)) =~= head);
    while j < ls.len()
        invariant
            j <= ls.len(),
            lv == seqs_view(ls@),
            keyword@ == "include"@,
            out@ == head + body_text(lv.take(j as int)),
        decreases ls.len() - j,
    {
        assert(lv.take(j + 1).drop_last() =~= lv.take(j as int));
        assert(lv[j as int] == ls@[j as int]@);
        assert(lv.take(j + 1).last() == ls@[j as int]@);
        let line = &ls[j];
        let ghost o0 = out@;
        if !starts_with_exec(line, &keyword) {
            let mut k: usize = 0;
            while k < line.len()
                invariant
                    k <= line.len(),
                    out@ == o0 + line@.take(k as int),
                decreases line.len() - k,
            {
                out.push(line[k]);
                k += 1;
                assert(out@ =~= o0 + line@.take(k as int));
            }
            out.push('\n');
            assert(out@ =~= o0 + line@.push('\n'));
        } else {
            assert(out@ =~= o0 + Seq::<char>::empty());
        }
        j += 1;
        assert(out@ =~= head + body_text(lv.take(j as int)));
    }
    assert(lv.take(ls.len() as int) =~= lv);
    out
}

/// The operations of a program whose main text is `code` and whose included
/// texts are `included`, in the order of the include lines.
pub fn parse_source(code: &str, included: &Vec<String>) -> (r: Result<Vec<Operation>, ParseError>)
    ensures
        match parse_source_spec(code@, strings_view(included@)) {
            Ok(v) => r matches Ok(o) && ops_view(o@) == v,
            Err(e) => r matches Err(err) && err@ == e,
        },
{
    let text = source_text_exec(code, included);
    let ls = lines_exec(&text);
    parse_lines_exec(&ls)
}

/// Whether every operation a word can stand for has the property `keep`.
pub open spec fn words_keep(keep: spec_fn(OpView) -> bool) -> bool {
    &&& forall|t: Seq<char>| #[trigger] token_op(t) matches Ok(op) ==> keep(op)
    &&& forall|x: Seq<char>| #[trigger] keep(OpView::String(x))
    &&& forall|x: Seq<char>| #[trigger] keep(OpView::DefineMacro { name: x })
}

proof fn lemma_tokens_keep(toks: Seq<Seq<char>>, i: nat, strings: Seq<Seq<char>>, keep: spec_fn(OpView) -> bool)
    requires
        words_keep(keep),
    ensures
        tokens_from(toks, i, strings) matches Ok(v) ==> forall|k: int| 0 <= k < v.len() ==> keep(#[trigger] v[k]),
    decreases toks.len() - i,
{
    if i < toks.len() {
        lemma_tokens_keep(toks, i + 1, strings, keep);
        lemma_tokens_keep(toks, i + 1, strings.drop_last(), keep);
        if i + 2 <= toks.len() {
            lemma_tokens_keep(toks, i + 2, strings, keep);
        }
        assert forall|op: OpView, r: Result<Seq<OpView>, ParseFault>|
            keep(op) && (r matches Ok(v) ==> forall|k: int| 0 <= k < v.len() ==> keep(#[trigger] v[k])) implies
            (#[trigger] prepend(seq![op], r) matches Ok(w) ==> forall|k: int| 0 <= k < w.len() ==> keep(
                #[trigger] w[k],
            )) by {
            if let Ok(v) = r {
                assert forall|k: int| 0 <= k < (seq![op] + v).len() implies keep(#[trigger] (seq![op] + v)[k]) by {
                    if k > 0 {
                        assert((seq![op] + v)[k] == v[k - 1]);
                    }
                }
            }
        }
        let t = toks[i as int];
        if token_op(t) is Ok {
            assert(keep(token_op(t)->Ok_0));
        }
    }
}

proof fn lemma_parse_lines_keep(ls: Seq<Seq<char>>, keep: spec_fn(OpView) -> bool)
    requires
        words_keep(keep),
    ensures
        parse_lines(ls) matches Ok(v) ==> forall|k: int| 0 <= k < v.len() ==> keep(#[trigger] v[k]),
    decreases ls.len(),
{
    if ls.len() > 0 {
        lemma_parse_lines_keep(ls.drop_last(), keep);
        let line = trim(ls.last());
        let strings = scan(line);
        lemma_tokens_keep(words(before_comment(substitute(line, strings, strings.len()))), 0, strings, keep);
        if let Ok(a) = parse_lines(ls.drop_last()) {
            if let Ok(b) = parse_line(ls.last()) {
                assert forall|k: int| 0 <= k < (a + b).len() implies keep(#[trigger] (a + b)[k]) by {
                    if k < a.len() {
                        assert((a + b)[k] == a[k]);
                    } else {
                        assert((a + b)[k] == b[k - a.len()]);
                    }
                }
            }
        }
    }
}

/// Every parsed operation has each property that every operation a word can
/// stand for has.
pub proof fn lemma_parse_keeps(code: Seq<char>, included: Seq<Seq<char>>, keep: spec_fn(OpView) -> bool)
    requires
        words_keep(keep),
    ensures
        parse_source_spec(code, included) matches Ok(v) ==> forall|k: int| 0 <= k < v.len() ==> keep(#[trigger] v[k]),
{
    lemma_parse_lines_keep(lines(source_text(code, included)), keep);
}

/// Every parsed operation can be translated (system calls take one to three
/// arguments).
pub proof fn lemma_parse_translatable(code: Seq<char>, included: Seq<Seq<char>>)
    ensures
        parse_source_spec(code, included) matches Ok(v) ==> all_translatable(v),
{
    let keep = |op: OpView| translatable(op);
    assert forall|t: Seq<char>| #[trigger] token_op(t) is Ok implies keep(token_op(t)->Ok_0) by {}
    lemma_parse_keeps(code, included, keep);
    if let Ok(v) = parse_source_spec(code, included) {
        assert forall|k: int| 0 <= k < v.len() implies translatable(#[trigger] v[k]) by {
            assert(keep(v[k]));
        }
    }
}

} // verus!
