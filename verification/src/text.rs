//! Character-level helpers: decimal rendering, whitespace, line and word
//! splitting, trimming and substring replacement, each over `Seq<char>`.
use vstd::prelude::*;

verus! {

/// Appends one character to a string (`String::push`).
/// Trusted: the new contents are the old contents followed by `c`.
#[verifier::external_body]
pub(crate) fn push_char(s: &mut String, c: char)
    ensures
        final(s)@ == old(s)@.push(c),
{
    s.push(c);
}

/// The ASCII character of a decimal digit.
pub open spec fn digit_char(d: nat) -> char {
    if d == 0 {
        '0'
    } else if d == 1 {
        '1'
    } else if d == 2 {
        '2'
    } else if d == 3 {
        '3'
    } else if d == 4 {
        '4'
    } else if d == 5 {
        '5'
    } else if d == 6 {
        '6'
    } else if d == 7 {
        '7'
    } else if d == 8 {
        '8'
    } else {
        '9'
    }
}

/// Decimal rendering of a natural number, most significant digit first,
/// without leading zeros (as `{}` formats an unsigned integer).
pub open spec fn decimal(n: nat) -> Seq<char>
    decreases n,
{
    if n < 10 {
        seq![digit_char(n)]
    } else {
        decimal(n / 10).push(digit_char(n % 10))
    }
}

fn digit_char_exec(d: u64) -> (c: char)
    requires
        d < 10,
    ensures
        c == digit_char(d as nat),
{
    if d == 0 {
        '0'
    } else if d == 1 {
        '1'
    } else if d == 2 {
        '2'
    } else if d == 3 {
        '3'
    } else if d == 4 {
        '4'
    } else if d == 5 {
        '5'
    } else if d == 6 {
        '6'
    } else if d == 7 {
        '7'
    } else if d == 8 {
        '8'
    } else {
        '9'
    }
}

/// Appends the decimal rendering of `n` to `s`.
pub fn push_decimal(s: &mut String, n: u64)
    ensures
        final(s)@ == old(s)@ + decimal(n as nat),
    decreases n,
{
    if n >= 10 {
        push_decimal(s, n / 10);
    }
    push_char(s, digit_char_exec(n % 10));
    assert(old(s)@ + decimal(n as nat) =~= old(s)@ + (if n >= 10 { decimal((n / 10) as nat) } else { Seq::empty() }).push(digit_char((n % 10) as nat)));
}

/// The characters that `char::is_whitespace` accepts (Unicode `White_Space`).
pub open spec fn is_space(c: char) -> bool {
    ||| ('\u{9}' <= c && c <= '\u{d}')
    ||| c == ' '
    ||| c == '\u{85}'
    ||| c == '\u{a0}'
    ||| c == '\u{1680}'
    ||| ('\u{2000}' <= c && c <= '\u{200a}')
    ||| c == '\u{2028}'
    ||| c == '\u{2029}'
    ||| c == '\u{202f}'
    ||| c == '\u{205f}'
    ||| c == '\u{3000}'
}

pub fn is_space_exec(c: char) -> (b: bool)
    ensures
        b == is_space(c),
{
    ('\u{9}' <= c && c <= '\u{d}') || c == ' ' || c == '\u{85}' || c == '\u{a0}' || c == '\u{1680}'
        || ('\u{2000}' <= c && c <= '\u{200a}') || c == '\u{2028}' || c == '\u{2029}' || c
        == '\u{202f}' || c == '\u{205f}' || c == '\u{3000}'
}

/// The characters of a string slice, in order.
pub fn chars_of(s: &str) -> (r: Vec<char>)
    ensures
        r@ == s@,
{
    let mut r: Vec<char> = Vec::new();
    for c in it: s.chars()
        invariant
            r@ == it.seq().take(it.index() as int),
            it.seq() == s@,
    {
        r.push(c);
    }
    r
}

/// A string holding exactly the given characters.
pub fn string_of(cs: &Vec<char>) -> (s: String)
    ensures
        s@ == cs@,
{
    let mut s = String::new();
    let mut i: usize = 0;
    while i < cs.len()
        invariant
            i <= cs.len(),
            s@ == cs@.take(i as int),
        decreases cs.len() - i,
    {
        push_char(&mut s, cs[i]);
        i += 1;
        assert(s@ =~= cs@.take(i as int));
    }
    assert(cs@.take(cs.len() as int) =~= cs@);
    s
}

/// `cur` without one final carriage return.
pub open spec fn strip_cr(cur: Seq<char>) -> Seq<char> {
    if cur.len() > 0 && cur.last() == '\r' {
        cur.drop_last()
    } else {
        cur
    }
}

/// The lines of `s` after the partial line `cur` (as `str::lines` splits):
/// lines end at `\n`, a `\r` just before the `\n` is dropped, and a final
/// empty line is not a line.
pub open spec fn lines_from(s: Seq<char>, cur: Seq<char>) -> Seq<Seq<char>>
    decreases s.len(),
{
    if s.len() == 0 {
        if cur.len() == 0 {
            Seq::empty()
        } else {
            seq![cur]
        }
    } else if s[0] == '\n' {
        seq![strip_cr(cur)] + lines_from(s.drop_first(), Seq::empty())
    } else {
        lines_from(s.drop_first(), cur.push(s[0]))
    }
}

/// The lines of `s`.
pub open spec fn lines(s: Seq<char>) -> Seq<Seq<char>> {
    lines_from(s, Seq::empty())
}

/// The words of `s` after the partial word `cur` (as `str::split_whitespace`
/// splits): maximal runs of characters that are not whitespace.
pub open spec fn words_from(s: Seq<char>, cur: Seq<char>) -> Seq<Seq<char>>
    decreases s.len(),
{
    if s.len() == 0 {
        if cur.len() == 0 {
            Seq::empty()
        } else {
            seq![cur]
        }
    } else if is_space(s[0]) {
        (if cur.len() == 0 { Seq::empty() } else { seq![cur] }) + words_from(s.drop_first(), Seq::empty())
    } else {
        words_from(s.drop_first(), cur.push(s[0]))
    }
}

/// The words of `s`.
pub open spec fn words(s: Seq<char>) -> Seq<Seq<char>> {
    words_from(s, Seq::empty())
}

/// Whether `s` begins with `p`.
pub open spec fn starts_with(s: Seq<char>, p: Seq<char>) -> bool {
    p.len() <= s.len() && s.take(p.len() as int) == p
}

/// Whether `c` is dropped by trimming: whitespace, or a double quote.
pub open spec fn trimmed(c: char, quotes: bool) -> bool {
    if quotes { c == '"' } else { is_space(c) }
}

/// `s` without leading trimmed characters.
pub open spec fn strip_start(s: Seq<char>, quotes: bool) -> Seq<char>
    decreases s.len(),
{
    if s.len() > 0 && trimmed(s[0], quotes) {
        strip_start(s.drop_first(), quotes)
    } else {
        s
    }
}

/// `s` without trailing trimmed characters.
pub open spec fn strip_end(s: Seq<char>, quotes: bool) -> Seq<char>
    decreases s.len(),
{
    if s.len() > 0 && trimmed(s.last(), quotes) {
        strip_end(s.drop_last(), quotes)
    } else {
        s
    }
}

/// `s` without leading and trailing whitespace (`str::trim`).
pub open spec fn trim(s: Seq<char>) -> Seq<char> {
    strip_end(strip_start(s, false), false)
}

/// `s` without leading and trailing double quotes (`str::trim_matches('"')`).
pub open spec fn trim_quotes(s: Seq<char>) -> Seq<char> {
    strip_end(strip_start(s, true), true)
}

/// The text before the first `//` of `s` (all of `s` when there is none).
pub open spec fn before_comment(s: Seq<char>) -> Seq<char>
    decreases s.len(),
{
    if s.len() == 0 {
        s
    } else if s.len() >= 2 && s[0] == '/' && s[1] == '/' {
        Seq::empty()
    } else {
        seq![s[0]] + before_comment(s.drop_first())
    }
}

/// Replacement of the occurrences of `pat` in `s` by `rep`, left to right
/// and without overlap; when `bounded`, of at most `limit` of them
/// (`str::replacen`), otherwise of all (`str::replace`).
pub open spec fn replace_spec(s: Seq<char>, pat: Seq<char>, rep: Seq<char>, limit: nat, bounded: bool) -> Seq<char>
    decreases s.len(),
{
    if s.len() == 0 || pat.len() == 0 || (bounded && limit == 0) {
        s
    } else if starts_with(s, pat) {
        rep + replace_spec(s.skip(pat.len() as int), pat, rep, if bounded { (limit - 1) as nat } else { limit }, bounded)
    } else {
        seq![s[0]] + replace_spec(s.drop_first(), pat, rep, limit, bounded)
    }
}

/// The values of a sequence of character vectors.
pub open spec fn seqs_view(v: Seq<Vec<char>>) -> Seq<Seq<char>> {
    v.map_values(|x: Vec<char>| x@)
}

/// The lines of `s`.
pub fn lines_exec(s: &Vec<char>) -> (r: Vec<Vec<char>>)
    ensures
        seqs_view(r@) == lines(s@),
{
    let mut out: Vec<Vec<char>> = Vec::new();
    let mut cur: Vec<char> = Vec::new();
    let mut i: usize = 0;
    assert(s@.skip(0) =~= s@);
    assert(seqs_view(out@) =~= Seq::<Seq<char>>::empty());
    while i < s.len()
        invariant
            i <= s.len(),
            lines(s@) == seqs_view(out@) + lines_from(s@.skip(i as int), cur@),
        decreases s.len() - i,
    {
        let ghost t = s@.skip(i as int);
        assert(t.drop_first() =~= s@.skip(i + 1));
        assert(t[0] == s@[i as int]);
        let ghost before = seqs_view(out@);
        let ghost c0 = cur@;
        if s[i] == '\n' {
            let mut line = cur;
            let n = line.len();
            if n > 0 && line[n - 1] == '\r' {
                line.pop();
            }
            assert(line@ =~= strip_cr(c0));
            out.push(line);
            cur = Vec::new();
            assert(seqs_view(out@) =~= before.push(strip_cr(c0)));
            assert(seqs_view(out@) + lines_from(s@.skip(i + 1), cur@) =~= before + (seq![strip_cr(c0)]
                + lines_from(t.drop_first(), Seq::empty())));
        } else {
            cur.push(s[i]);
        }
        i += 1;
    }
    let ghost before = seqs_view(out@);
    assert(s@.skip(i as int) =~= Seq::<char>::empty());
    if cur.len() > 0 {
        out.push(cur);
        assert(seqs_view(out@) =~= before.push(cur@));
    }
    out
}

/// The words of `s`.
pub fn words_exec(s: &Vec<char>) -> (r: Vec<Vec<char>>)
    ensures
        seqs_view(r@) == words(s@),
{
    let mut out: Vec<Vec<char>> = Vec::new();
    let mut cur: Vec<char> = Vec::new();
    let mut i: usize = 0;
    assert(s@.skip(0) =~= s@);
    assert(seqs_view(out@) =~= Seq::<Seq<char>>::empty());
    while i < s.len()
        invariant
            i <= s.len(),
            words(s@) == seqs_view(out@) + words_from(s@.skip(i as int), cur@),
        decreases s.len() - i,
    {
        let ghost t = s@.skip(i as int);
        assert(t.drop_first() =~= s@.skip(i + 1));
        assert(t[0] == s@[i as int]);
        let ghost before = seqs_view(out@);
        let ghost c0 = cur@;
        if is_space_exec(s[i]) {
            if cur.len() > 0 {
                out.push(cur);
                assert(seqs_view(out@) =~= before.push(c0));
            }
            cur = Vec::new();
            assert(seqs_view(out@) + words_from(s@.skip(i + 1), cur@) =~= before + ((if c0.len() == 0 {
                Seq::empty()
            } else {
                seq![c0]
            }) + words_from(t.drop_first(), Seq::empty())));
        } else {
            cur.push(s[i]);
        }
        i += 1;
    }
    let ghost before = seqs_view(out@);
    assert(s@.skip(i as int) =~= Seq::<char>::empty());
    if cur.len() > 0 {
        out.push(cur);
        assert(seqs_view(out@) =~= before.push(cur@));
    }
    out
}

fn trimmed_exec(c: char, quotes: bool) -> (b: bool)
    ensures
        b == trimmed(c, quotes),
{
    if quotes { c == '"' } else { is_space_exec(c) }
}

/// `s` without leading and trailing trimmed characters.
pub fn trim_exec(s: &Vec<char>, quotes: bool) -> (r: Vec<char>)
    ensures
        r@ == strip_end(strip_start(s@, quotes), quotes),
{
    let mut a: usize = 0;
    assert(s@.skip(0) =~= s@);
    while a < s.len() && trimmed_exec(s[a], quotes)
        invariant
            a <= s.len(),
            strip_start(s@, quotes) == strip_start(s@.skip(a as int), quotes),
        decreases s.len() - a,
    {
        assert(s@.skip(a as int).drop_first() =~= s@.skip(a + 1));
        a += 1;
    }
    let mut b: usize = s.len();
    assert(s@.skip(a as int).take((b - a) as int) =~= s@.skip(a as int));
    while b > a && trimmed_exec(s[b - 1], quotes)
        invariant
            a <= b <= s.len(),
            strip_end(strip_start(s@, quotes), quotes) == strip_end(s@.subrange(a as int, b as int), quotes),
        decreases b,
    {
        assert(s@.subrange(a as int, b as int).drop_last() =~= s@.subrange(a as int, b - 1));
        b -= 1;
    }
    let mut r: Vec<char> = Vec::new();
    let mut k: usize = a;
    while k < b
        invariant
            a <= k <= b <= s.len(),
            r@ == s@.subrange(a as int, k as int),
        decreases b - k,
    {
        r.push(s[k]);
        k += 1;
        assert(r@ =~= s@.subrange(a as int, k as int));
    }
    r
}

/// The text of `s` before its first `//`.
pub fn before_comment_exec(s: &Vec<char>) -> (r: Vec<char>)
    ensures
        r@ == before_comment(s@),
{
    let mut r: Vec<char> = Vec::new();
    let mut i: usize = 0;
    assert(s@.skip(0) =~= s@);
    while i < s.len()
        invariant
            i <= s.len(),
            before_comment(s@) == r@ + before_comment(s@.skip(i as int)),
        decreases s.len() - i,
    {
        let ghost t = s@.skip(i as int);
        assert(t.drop_first() =~= s@.skip(i + 1));
        assert(t[0] == s@[i as int]);
        if i + 1 < s.len() && s[i] == '/' && s[i + 1] == '/' {
            assert(t[1] == s@[i + 1]);
            assert(r@ + Seq::<char>::empty() =~= r@);
            return r;
        }
        let ghost r0 = r@;
        r.push(s[i]);
        assert(r@ + before_comment(s@.skip(i + 1)) =~= r0 + (seq![t[0]] + before_comment(t.drop_first())));
        i += 1;
    }
    assert(s@.skip(i as int) =~= Seq::<char>::empty());
    assert(r@ + Seq::<char>::empty() =~= r@);
    r
}

/// Whether `pat` occurs in `s` at position `i`.
fn occurs_at(s: &Vec<char>, i: usize, pat: &Vec<char>) -> (b: bool)
    requires
        i <= s.len(),
    ensures
        b == starts_with(s@.skip(i as int), pat@),
{
    if pat.len() > s.len() - i {
        return false;
    }
    let mut k: usize = 0;
    while k < pat.len()
        invariant
            k <= pat.len(),
            i + pat.len() <= s.len(),
            forall|j: int| 0 <= j < k ==> s@[i + j] == pat@[j],
        decreases pat.len() - k,
    {
        if s[i + k] != pat[k] {
            assert(s@.skip(i as int).take(pat.len() as int)[k as int] == s@[i + k]);
            return false;
        }
        k += 1;
    }
    assert(s@.skip(i as int).take(pat.len() as int) =~= pat@);
    true
}

/// Replaces occurrences of `pat` in `s` by `rep`: at most `limit` of them
/// when `bounded`, otherwise all.
pub fn replace_exec(s: &Vec<char>, pat: &Vec<char>, rep: &Vec<char>, limit: usize, bounded: bool) -> (r: Vec<char>)
    ensures
        r@ == replace_spec(s@, pat@, rep@, limit as nat, bounded),
{
    let mut r: Vec<char> = Vec::new();
    let mut i: usize = 0;
    let mut left = limit;
    assert(s@.skip(0) =~= s@);
    while i < s.len() && pat.len() > 0 && !(bounded && left == 0)
        invariant
            i <= s.len(),
            left <= limit,
            replace_spec(s@, pat@, rep@, limit as nat, bounded) == r@ + replace_spec(s@.skip(i as int), pat@, rep@, left as nat, bounded),
        decreases s.len() - i,
    {
        let ghost t = s@.skip(i as int);
        assert(t[0] == s@[i as int]);
        let ghost r0 = r@;
        if occurs_at(s, i, pat) {
            let mut k: usize = 0;
            while k < rep.len()
                invariant
                    k <= rep.len(),
                    r@ == r0 + rep@.take(k as int),
                decreases rep.len() - k,
            {
                r.push(rep[k]);
                k += 1;
                assert(r@ =~= r0 + rep@.take(k as int));
            }
            assert(rep@.take(rep.len() as int) =~= rep@);
            assert(t.skip(pat.len() as int) =~= s@.skip(i + pat.len()));
            if bounded {
                left = left - 1;
            }
            i = i + pat.len();
            assert(r@ + replace_spec(s@.skip(i as int), pat@, rep@, left as nat, bounded) =~= r0 + (rep@
                + replace_spec(s@.skip(i as int), pat@, rep@, left as nat, bounded)));
        } else {
            r.push(s[i]);
            assert(t.drop_first() =~= s@.skip(i + 1));
            i += 1;
            assert(r@ + replace_spec(s@.skip(i as int), pat@, rep@, left as nat, bounded) =~= r0 + (seq![t[0]]
                + replace_spec(t.drop_first(), pat@, rep@, left as nat, bounded)));
        }
    }
    let ghost r0 = r@;
    let ghost rest = s@.skip(i as int);
    assert(replace_spec(rest, pat@, rep@, left as nat, bounded) == rest);
    while i < s.len()
        invariant
            i <= s.len(),
            r@ + s@.skip(i as int) == r0 + rest,
        decreases s.len() - i,
    {
        let ghost r1 = r@;
        r.push(s[i]);
        assert(s@.skip(i as int) =~= seq![s@[i as int]] + s@.skip(i + 1));
        i += 1;
        assert(r@ + s@.skip(i as int) =~= r1 + s@.skip(i - 1));
    }
    assert(s@.skip(i as int) =~= Seq::<char>::empty());
    assert(r@ =~= r@ + s@.skip(i as int));
    r
}

/// Whether no `//` starts in `t` before position `n`.
pub open spec fn no_marker(t: Seq<char>, n: int) -> bool {
    forall|j: int| 0 <= j < n && j + 1 < t.len() ==> !(#[trigger] t[j] == '/' && t[j + 1] == '/')
}

/// Stripping leading whitespace drops a prefix.
pub proof fn lemma_strip_start_suffix(u: Seq<char>)
    ensures
        strip_start(u, false).len() <= u.len(),
        strip_start(u, false) == u.skip(u.len() - strip_start(u, false).len()),
    decreases u.len(),
{
    if u.len() > 0 && trimmed(u[0], false) {
        lemma_strip_start_suffix(u.drop_first());
        assert(u.drop_first().skip(u.drop_first().len() - strip_start(u.drop_first(), false).len()) =~= u.skip(
            u.len() - strip_start(u, false).len(),
        ));
    } else {
        assert(u.skip(0) =~= u);
    }
}

/// Stripping trailing whitespace drops a suffix, and keeps every character up
/// to the last one that is not whitespace.
pub proof fn lemma_strip_end_prefix(w: Seq<char>, k: int)
    requires
        0 <= k < w.len(),
        !is_space(w[k]),
    ensures
        k < strip_end(w, false).len() <= w.len(),
        strip_end(w, false) == w.take(strip_end(w, false).len() as int),
    decreases w.len(),
{
    if trimmed(w.last(), false) {
        lemma_strip_end_prefix(w.drop_last(), k);
        assert(w.drop_last().take(strip_end(w, false).len() as int) =~= w.take(strip_end(w, false).len() as int));
    } else {
        assert(w.take(w.len() as int) =~= w);
    }
}

/// Leading whitespace of `u + w` is that of `u` when `w` starts with a
/// character that is not whitespace.
pub proof fn lemma_strip_start_append(u: Seq<char>, w: Seq<char>)
    requires
        w.len() > 0,
        !is_space(w[0]),
    ensures
        strip_start(u + w, false) == strip_start(u, false) + w,
    decreases u.len(),
{
    if u.len() == 0 {
        assert(u + w =~= w);
        assert(Seq::<char>::empty() + w =~= w);
    } else {
        assert((u + w)[0] == u[0]);
        if trimmed(u[0], false) {
            assert((u + w).drop_first() =~= u.drop_first() + w);
            lemma_strip_start_append(u.drop_first(), w);
        }
    }
}

/// Trailing whitespace of `x + w` is that of `w` when `w` starts with a
/// character that is not whitespace.
pub proof fn lemma_strip_end_append(x: Seq<char>, w: Seq<char>)
    requires
        w.len() > 0,
        !is_space(w[0]),
    ensures
        strip_end(x + w, false) == x + strip_end(w, false),
    decreases w.len(),
{
    assert((x + w).last() == w.last());
    if trimmed(w.last(), false) {
        assert(w.len() > 1);
        assert((x + w).drop_last() =~= x + w.drop_last());
        assert(w.drop_last()[0] == w[0]);
        lemma_strip_end_append(x, w.drop_last());
    }
}

/// The text before the first `//`, when one starts at `n`.
pub proof fn lemma_before_comment_cut(t: Seq<char>, n: int)
    requires
        0 <= n,
        n + 1 < t.len(),
        t[n] == '/' && t[n + 1] == '/',
        no_marker(t, n),
    ensures
        before_comment(t) == t.take(n),
    decreases n,
{
    if n == 0 {
        assert(t.take(0) =~= Seq::<char>::empty());
    } else {
        assert(!(t[0] == '/' && t[1] == '/'));
        let t1 = t.drop_first();
        assert forall|j: int| 0 <= j < n - 1 && j + 1 < t1.len() implies !(#[trigger] t1[j] == '/' && t1[j + 1] == '/') by {
            assert(t1[j] == t[j + 1] && t1[j + 1] == t[j + 2]);
            assert(!(t[j + 1] == '/' && t[j + 2] == '/'));
        }
        lemma_before_comment_cut(t1, n - 1);
        assert(seq![t[0]] + t1.take(n - 1) =~= t.take(n));
    }
}

/// A text without `//` is all before its comment.
pub proof fn lemma_before_comment_none(t: Seq<char>)
    requires
        no_marker(t, t.len() as int),
    ensures
        before_comment(t) == t,
    decreases t.len(),
{
    if t.len() > 0 {
        let t1 = t.drop_first();
        if t.len() >= 2 {
            assert(!(t[0] == '/' && t[1] == '/'));
        }
        assert forall|j: int| 0 <= j < t1.len() && j + 1 < t1.len() implies !(#[trigger] t1[j] == '/' && t1[j + 1]
            == '/') by {
            assert(t1[j] == t[j + 1] && t1[j + 1] == t[j + 2]);
            assert(!(t[j + 1] == '/' && t[j + 2] == '/'));
        }
        lemma_before_comment_none(t1);
        assert(seq![t[0]] + t1 =~= t);
    }
}

/// A whitespace character at the end adds no word.
pub proof fn lemma_words_push_space(x: Seq<char>, cur: Seq<char>, c: char)
    requires
        is_space(c),
    ensures
        words_from(x.push(c), cur) == words_from(x, cur),
    decreases x.len(),
{
    let e = Seq::<Seq<char>>::empty();
    if x.len() == 0 {
        let s = x.push(c);
        assert(s.drop_first() =~= Seq::<char>::empty());
        assert(s[0] == c);
        assert(words_from(s.drop_first(), Seq::empty()) == e);
        assert(words_from(s, cur) == (if cur.len() == 0 { e } else { seq![cur] }) + words_from(s.drop_first(), Seq::empty()));
        assert(e + e =~= e);
        assert(seq![cur] + e =~= seq![cur]);
    } else {
        let s = x.push(c);
        assert(s[0] == x[0]);
        assert(s.drop_first() =~= x.drop_first().push(c));
        if is_space(x[0]) {
            lemma_words_push_space(x.drop_first(), Seq::empty(), c);
        } else {
            lemma_words_push_space(x.drop_first(), cur.push(x[0]), c);
        }
    }
}

/// Trailing whitespace adds no word.
pub proof fn lemma_words_strip_end(x: Seq<char>)
    ensures
        words(strip_end(x, false)) == words(x),
    decreases x.len(),
{
    if x.len() > 0 && trimmed(x.last(), false) {
        lemma_words_strip_end(x.drop_last());
        lemma_words_push_space(x.drop_last(), Seq::empty(), x.last());
        assert(x.drop_last().push(x.last()) =~= x);
    }
}

/// Stripping trailing whitespace drops a suffix.
pub proof fn lemma_strip_end_is_prefix(w: Seq<char>)
    ensures
        strip_end(w, false).len() <= w.len(),
        strip_end(w, false) == w.take(strip_end(w, false).len() as int),
    decreases w.len(),
{
    if w.len() > 0 && trimmed(w.last(), false) {
        lemma_strip_end_is_prefix(w.drop_last());
        assert(w.drop_last().take(strip_end(w, false).len() as int) =~= w.take(strip_end(w, false).len() as int));
    } else {
        assert(w.take(w.len() as int) =~= w);
    }
}

} // verus!
