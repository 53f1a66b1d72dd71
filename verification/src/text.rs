//! Character-level text helpers: conversions between strings and character
//! vectors, line splitting with the semantics of `str::lines`, joining,
//! and decimal rendering and parsing of integers.
use vstd::prelude::*;

verus! {

/// Copies the characters of a string slice into a vector.
pub fn str_to_chars(s: &str) -> (v: Vec<char>)
    ensures
        v@ == s@,
{
    let mut v: Vec<char> = Vec::new();
    for c in it: s.chars()
        invariant
            v@ == it.seq().take(it.index() as int),
            it.seq() == s@,
    {
        v.push(c);
    }
    v
}

/// Builds a `String` holding exactly the given characters
/// (std's `FromIterator<&char>` for `String`).
#[verifier::external_body]
pub(crate) fn chars_to_string(v: &Vec<char>) -> (s: String)
    ensures
        s@ == v@,
{
    v.iter().collect()
}

/// Appends all characters of `s` to `out`.
pub fn push_all(out: &mut Vec<char>, s: &Vec<char>)
    ensures
        final(out)@ == old(out)@ + s@,
{
    let ghost start = out@;
    let mut i: usize = 0;
    while i < s.len()
        invariant
            i <= s.len(),
            out@ == start + s@.take(i as int),
        decreases s.len() - i,
    {
        out.push(s[i]);
        i = i + 1;
        assert(s@.take(i as int) == s@.take(i - 1 as int).push(s@[i - 1]));
    }
    assert(s@.take(s.len() as int) == s@);
}

/// Appends all characters of the string slice `s` to `out`.
pub fn push_str(out: &mut Vec<char>, s: &str)
    ensures
        final(out)@ == old(out)@ + s@,
{
    let v = str_to_chars(s);
    push_all(out, &v);
}

/// The characters `s[a..b]` as a new vector.
pub fn copy_range(s: &Vec<char>, a: usize, b: usize) -> (r: Vec<char>)
    requires
        a <= b <= s.len(),
    ensures
        r@ == s@.subrange(a as int, b as int),
{
    let mut r: Vec<char> = Vec::new();
    let mut i: usize = a;
    while i < b
        invariant
            a <= i <= b <= s.len(),
            r@ == s@.subrange(a as int, i as int),
        decreases b - i,
    {
        r.push(s[i]);
        i = i + 1;
        assert(s@.subrange(a as int, i as int) == s@.subrange(a as int, i - 1 as int).push(
            s@[i - 1],
        ));
    }
    r
}

/// Whether `pat` occurs in `s` starting at index `i`.
pub open spec fn occurs_at(s: Seq<char>, i: int, pat: Seq<char>) -> bool {
    0 <= i && i + pat.len() <= s.len() && s.subrange(i, i + pat.len()) == pat
}

/// Whether `pat` occurs in `s` at index `i` (executable).
pub fn occurs_at_exec(s: &Vec<char>, i: usize, pat: &Vec<char>) -> (r: bool)
    ensures
        r == occurs_at(s@, i as int, pat@),
{
    if i > s.len() || pat.len() > s.len() - i {
        return false;
    }
    let mut k: usize = 0;
    while k < pat.len()
        invariant
            i + pat.len() <= s.len(),
            k <= pat.len(),
            forall|j: int| 0 <= j < k ==> s@[i + j] == pat@[j],
        decreases pat.len() - k,
    {
        if s[i + k] != pat[k] {
            assert(s@.subrange(i as int, i + pat.len())[k as int] != pat@[k as int]);
            return false;
        }
        k = k + 1;
    }
    assert(s@.subrange(i as int, i + pat.len()) =~= pat@);
    true
}

/// Whether two character vectors hold the same characters.
pub fn chars_equal(a: &Vec<char>, b: &Vec<char>) -> (r: bool)
    ensures
        r == (a@ == b@),
{
    if a.len() != b.len() {
        return false;
    }
    let r = occurs_at_exec(a, 0, b);
    assert(a@.subrange(0, b@.len() as int) =~= a@);
    r
}

/// Whether `s` contains `pat` somewhere.
pub open spec fn contains_seq(s: Seq<char>, pat: Seq<char>) -> bool {
    exists|i: int| occurs_at(s, i, pat)
}

/// Whether `s` starts with `pat`.
pub open spec fn starts_with(s: Seq<char>, pat: Seq<char>) -> bool {
    occurs_at(s, 0, pat)
}

/// Whether `s` ends with `pat`.
pub open spec fn ends_with(s: Seq<char>, pat: Seq<char>) -> bool {
    occurs_at(s, s.len() - pat.len(), pat)
}

/// Whether `s` contains `pat` somewhere (executable).
pub fn contains_exec(s: &Vec<char>, pat: &Vec<char>) -> (r: bool)
    ensures
        r == contains_seq(s@, pat@),
{
    if pat.len() == 0 {
        assert(s@.subrange(0, 0) =~= pat@);
        assert(occurs_at(s@, 0, pat@));
        return true;
    }
    let mut i: usize = 0;
    while i < s.len()
        invariant
            i <= s.len(),
            forall|j: int| 0 <= j < i ==> !occurs_at(s@, j, pat@),
        decreases s.len() - i,
    {
        if occurs_at_exec(s, i, pat) {
            return true;
        }
        i = i + 1;
    }
    false
}

/// Whether `s` ends with `pat` (executable).
pub fn ends_with_exec(s: &Vec<char>, pat: &Vec<char>) -> (r: bool)
    ensures
        r == ends_with(s@, pat@),
{
    if pat.len() > s.len() {
        return false;
    }
    occurs_at_exec(s, s.len() - pat.len(), pat)
}

/// The first index `j >= i` with `s[j] == c`, or `s.len()` when there is none.
pub open spec fn find_char(s: Seq<char>, c: char, i: int) -> int
    decreases s.len() - i,
{
    if i >= s.len() {
        s.len() as int
    } else if s[i] == c {
        i
    } else {
        find_char(s, c, i + 1)
    }
}

pub proof fn lemma_find_char(s: Seq<char>, c: char, i: int)
    requires
        0 <= i <= s.len(),
    ensures
        i <= find_char(s, c, i) <= s.len(),
        find_char(s, c, i) < s.len() ==> s[find_char(s, c, i)] == c,
        forall|j: int| i <= j < find_char(s, c, i) ==> s[j] != c,
    decreases s.len() - i,
{
    if i < s.len() && s[i] != c {
        lemma_find_char(s, c, i + 1);
    }
}

/// `find_char` in executable form.
pub fn find_char_exec(s: &Vec<char>, c: char, i: usize) -> (r: usize)
    requires
        i <= s.len(),
    ensures
        r == find_char(s@, c, i as int),
{
    let mut j = i;
    while j < s.len() && s[j] != c
        invariant
            i <= j <= s.len(),
            find_char(s@, c, i as int) == find_char(s@, c, j as int),
        decreases s.len() - j,
    {
        j = j + 1;
    }
    j
}

/// A line segment with one trailing carriage return removed, if present.
pub open spec fn strip_cr(s: Seq<char>) -> Seq<char> {
    if s.len() > 0 && s.last() == '\r' {
        s.drop_last()
    } else {
        s
    }
}

/// The lines of `s[i..]`, following `str::lines`: lines end at `\n`, a `\r`
/// just before that `\n` is dropped, and a final line ending is optional.
pub open spec fn lines_from(s: Seq<char>, i: int) -> Seq<Seq<char>>
    decreases s.len() - i,
{
    if i < 0 || i >= s.len() {
        seq![]
    } else {
        let k = find_char(s, '\n', i);
        if k >= s.len() {
            seq![s.subrange(i, s.len() as int)]
        } else if k < i {
            seq![]
        } else {
            seq![strip_cr(s.subrange(i, k))] + lines_from(s, k + 1)
        }
    }
}

/// The lines of `s`, as `str::lines` yields them.
pub open spec fn lines_of(s: Seq<char>) -> Seq<Seq<char>> {
    lines_from(s, 0)
}

/// The lines joined with `\n` between consecutive lines (`[..].join("\n")`).
pub open spec fn join_lines(ls: Seq<Seq<char>>) -> Seq<char>
    decreases ls.len(),
{
    if ls.len() == 0 {
        seq![]
    } else if ls.len() == 1 {
        ls[0]
    } else {
        join_lines(ls.drop_last()) + seq!['\n'] + ls.last()
    }
}

/// Whether the text ends with a line feed.
pub open spec fn ends_with_newline(s: Seq<char>) -> bool {
    s.len() > 0 && s.last() == '\n'
}

/// `join_lines`, followed by a `\n` when `newline` holds.
pub open spec fn rejoin(ls: Seq<Seq<char>>, newline: bool) -> Seq<char> {
    if newline {
        join_lines(ls) + seq!['\n']
    } else {
        join_lines(ls)
    }
}

/// The character sequences held by a sequence of character vectors.
pub open spec fn seq_views(v: Seq<Vec<char>>) -> Seq<Seq<char>> {
    v.map_values(|x: Vec<char>| x@)
}

/// Splits `s` into its lines (`str::lines`).
pub fn split_lines(s: &Vec<char>) -> (ls: Vec<Vec<char>>)
    ensures
        seq_views(ls@) == lines_of(s@),
{
    let mut ls: Vec<Vec<char>> = Vec::new();
    let mut i: usize = 0;
    while i < s.len()
        invariant
            i <= s.len(),
            seq_views(ls@) + lines_from(s@, i as int) == lines_of(s@),
        decreases s.len() - i,
    {
        let k = find_char_exec(s, '\n', i);
        proof {
            lemma_find_char(s@, '\n', i as int);
        }
        if k >= s.len() {
            let line = copy_range(s, i, s.len());
            let ghost before = seq_views(ls@);
            ls.push(line);
            assert(seq_views(ls@) =~= before.push(line@));
            assert(lines_from(s@, s.len() as int) == Seq::<Seq<char>>::empty());
            i = s.len();
        } else {
            let mut end = k;
            if end > i && s[end - 1] == '\r' {
                end = end - 1;
            }
            let line = copy_range(s, i, end);
            assert(line@ == strip_cr(s@.subrange(i as int, k as int)));
            let ghost before = seq_views(ls@);
            ls.push(line);
            assert(seq_views(ls@) =~= before.push(line@));
            assert(lines_from(s@, i as int) == seq![line@] + lines_from(s@, k + 1));
            i = k + 1;
        }
    }
    assert(lines_from(s@, i as int) == Seq::<Seq<char>>::empty());
    ls
}

/// Joins lines with `\n` (`[..].join("\n")`).
pub fn join_lines_exec(ls: &Vec<Vec<char>>) -> (r: Vec<char>)
    ensures
        r@ == join_lines(seq_views(ls@)),
{
    let mut r: Vec<char> = Vec::new();
    let mut k: usize = 0;
    while k < ls.len()
        invariant
            k <= ls.len(),
            r@ == join_lines(seq_views(ls@).take(k as int)),
        decreases ls.len() - k,
    {
        let ghost prefix = seq_views(ls@).take(k as int);
        let ghost next = seq_views(ls@).take(k + 1 as int);
        assert(next.drop_last() == prefix);
        assert(next.last() == ls[k as int]@);
        if k > 0 {
            r.push('\n');
        }
        push_all(&mut r, &ls[k]);
        if k == 0 {
            assert(r@ == join_lines(next));
        }
        k = k + 1;
    }
    assert(seq_views(ls@).take(ls.len() as int) == seq_views(ls@));
    r
}

/// Whether `c` is an ASCII decimal digit.
pub open spec fn is_digit(c: char) -> bool {
    '0' <= c <= '9'
}

/// The value of a digit character.
pub open spec fn digit_value(c: char) -> nat {
    (c as int - '0' as int) as nat
}

/// The value of a string of ASCII decimal digits (most significant first).
pub open spec fn decimal_value(ds: Seq<char>) -> nat
    decreases ds.len(),
{
    if ds.len() == 0 {
        0
    } else {
        decimal_value(ds.drop_last()) * 10 + digit_value(ds.last())
    }
}

/// The digit character for `d < 10`.
pub open spec fn digit_char(d: nat) -> char {
    if d == 0 {
        '0'
    } else if d == 1 {
        '1'
    } else if d == 2 {
        '2'
    } else if d == 3 {
        '3'
    } else if d == 4 {
        '4'
    } else if d == 5 {
        '5'
    } else if d == 6 {
        '6'
    } else if d == 7 {
        '7'
    } else if d == 8 {
        '8'
    } else {
        '9'
    }
}

/// The decimal representation of `n`, without leading zeros (`"0"` for zero),
/// as `format!("{}", n)` writes it.
pub open spec fn decimal(n: nat) -> Seq<char>
    decreases n,
{
    if n < 10 {
        seq![digit_char(n)]
    } else {
        decimal(n / 10).push(digit_char(n % 10))
    }
}

pub proof fn lemma_decimal_digits(n: nat)
    ensures
        decimal(n).len() > 0,
        forall|i: int| 0 <= i < decimal(n).len() ==> is_digit(#[trigger] decimal(n)[i]),
        decimal_value(decimal(n)) == n,
    decreases n,
{
    if n >= 10 {
        lemma_decimal_digits(n / 10);
        let d = decimal(n);
        assert(d.drop_last() == decimal(n / 10));
        lemma_digit_char_value(n % 10);
        assert(d.last() == digit_char(n % 10));
        assert(decimal_value(d) == decimal_value(decimal(n / 10)) * 10 + n % 10);
        assert(n == (n / 10) * 10 + n % 10);
    } else {
        lemma_digit_char_value(n);
        assert(decimal(n).drop_last() =~= Seq::<char>::empty());
        assert(decimal(n).last() == digit_char(n));
        assert(decimal_value(Seq::<char>::empty()) == 0);
    }
}

pub proof fn lemma_digit_char_value(d: nat)
    requires
        d < 10,
    ensures
        is_digit(digit_char(d)),
        digit_value(digit_char(d)) == d,
{
}

/// The decimal representation of `n` (`n.to_string()`).
pub fn decimal_exec(n: u64) -> (r: Vec<char>)
    ensures
        r@ == decimal(n as nat),
    decreases n,
{
    if n < 10 {
        let c = char_of_digit(n);
        let mut r: Vec<char> = Vec::new();
        r.push(c);
        r
    } else {
        let mut r = decimal_exec(n / 10);
        let c = char_of_digit(n % 10);
        r.push(c);
        r
    }
}

fn char_of_digit(d: u64) -> (c: char)
    requires
        d < 10,
    ensures
        c == digit_char(d as nat),
{
    if d == 0 {
        '0'
    } else if d == 1 {
        '1'
    } else if d == 2 {
        '2'
    } else if d == 3 {
        '3'
    } else if d == 4 {
        '4'
    } else if d == 5 {
        '5'
    } else if d == 6 {
        '6'
    } else if d == 7 {
        '7'
    } else if d == 8 {
        '8'
    } else {
        '9'
    }
}

/// Parses a nonempty string of ASCII digits into a `u64`, or `None` when
/// the value exceeds `limit`.
pub fn parse_digits(ds: &Vec<char>, a: usize, b: usize, limit: u64) -> (r: Option<u64>)
    requires
        a <= b <= ds.len(),
        forall|i: int| a <= i < b ==> is_digit(#[trigger] ds@[i]),
    ensures
        match r {
            Some(v) => v as nat == decimal_value(ds@.subrange(a as int, b as int)) && v <= limit,
            None => decimal_value(ds@.subrange(a as int, b as int)) > limit,
        },
{
    let mut v: u64 = 0;
    let mut i = a;
    while i < b
        invariant
            a <= i <= b <= ds.len(),
            forall|j: int| a <= j < b ==> is_digit(#[trigger] ds@[j]),
            v as nat == decimal_value(ds@.subrange(a as int, i as int)),
            v <= limit,
        decreases b - i,
    {
        let c = ds[i];
        assert(is_digit(ds@[i as int]));
        let d = (c as u32 - '0' as u32) as u64;
        let ghost prefix = ds@.subrange(a as int, i as int);
        let ghost next = ds@.subrange(a as int, i + 1 as int);
        assert(next.drop_last() == prefix);
        assert(next.last() == c);
        if d > limit || v > (limit - d) / 10 {
            proof {
                if d <= limit {
                    assert(v * 10 + d > limit) by (nonlinear_arith)
                        requires
                            v > (limit - d) / 10,
                            d <= limit,
                    ;
                }
                lemma_decimal_prefix_monotone(ds@.subrange(a as int, b as int), (i + 1 - a) as int);
                assert(ds@.subrange(a as int, b as int).take((i + 1 - a) as int) == next);
            }
            return None;
        }
        v = v * 10 + d;
        i = i + 1;
    }
    Some(v)
}

/// A value is at least the value of any of its prefixes.
pub proof fn lemma_decimal_prefix_monotone(ds: Seq<char>, k: int)
    requires
        0 <= k <= ds.len(),
    ensures
        decimal_value(ds.take(k)) <= decimal_value(ds),
    decreases ds.len() - k,
{
    if k < ds.len() {
        lemma_decimal_prefix_monotone(ds, k + 1);
        assert(ds.take(k + 1).drop_last() == ds.take(k));
    } else {
        assert(ds.take(k) == ds);
    }
}

/// Whether no line holds a line feed.
pub open spec fn no_newlines(ls: Seq<Seq<char>>) -> bool {
    forall|k: int| 0 <= k < ls.len() ==> !(#[trigger] ls[k]).contains('\n')
}

pub proof fn lemma_find_char_shift(p: Seq<char>, t: Seq<char>, c: char, j: int)
    requires
        0 <= j,
    ensures
        find_char(p + t, c, p.len() + j) == p.len() + find_char(t, c, j),
    decreases t.len() - j,
{
    if j < t.len() {
        assert((p + t)[p.len() + j] == t[j]);
        lemma_find_char_shift(p, t, c, j + 1);
    }
}

proof fn lemma_lines_from_shift(p: Seq<char>, t: Seq<char>, j: int)
    requires
        0 <= j,
    ensures
        lines_from(p + t, p.len() + j) == lines_from(t, j),
    decreases t.len() - j,
{
    let s = p + t;
    if j < t.len() {
        lemma_find_char_shift(p, t, '\n', j);
        lemma_find_char(t, '\n', j);
        let k = find_char(t, '\n', j);
        if k < t.len() {
            lemma_lines_from_shift(p, t, k + 1);
            assert(s.subrange(p.len() + j, p.len() + k) =~= t.subrange(j, k));
        } else {
            assert(s.subrange(p.len() + j, s.len() as int) =~= t.subrange(j, t.len() as int));
        }
    }
}

pub proof fn lemma_find_char_upto(s: Seq<char>, c: char, i: int, k: int)
    requires
        0 <= i <= k < s.len(),
        s[k] == c,
        forall|j: int| i <= j < k ==> s[j] != c,
    ensures
        find_char(s, c, i) == k,
    decreases k - i,
{
    if i < k {
        lemma_find_char_upto(s, c, i + 1, k);
    }
}

/// A single nonempty line without line feeds is its own only line.
pub proof fn lemma_lines_single(x: Seq<char>)
    requires
        !x.contains('\n'),
        x.len() > 0,
    ensures
        lines_of(x) == seq![x],
{
    assert forall|j: int| 0 <= j < x.len() implies x[j] != '\n' by {
        if x[j] == '\n' {
            assert(x.contains('\n'));
        }
    }
    lemma_find_char_none(x, '\n', 0);
    assert(x.subrange(0, x.len() as int) =~= x);
}

pub proof fn lemma_find_char_none(s: Seq<char>, c: char, i: int)
    requires
        0 <= i <= s.len(),
        forall|j: int| i <= j < s.len() ==> s[j] != c,
    ensures
        find_char(s, c, i) == s.len(),
    decreases s.len() - i,
{
    if i < s.len() {
        lemma_find_char_none(s, c, i + 1);
    }
}

/// Joining splits off the first line.
pub proof fn lemma_join_front(ls: Seq<Seq<char>>)
    requires
        ls.len() >= 2,
    ensures
        join_lines(ls) == ls[0] + seq!['\n'] + join_lines(ls.drop_first()),
    decreases ls.len(),
{
    if ls.len() == 2 {
        assert(ls.drop_last() =~= seq![ls[0]]);
        assert(ls.drop_first() =~= seq![ls[1]]);
        assert(join_lines(ls.drop_last()) == ls[0]);
        assert(join_lines(ls.drop_first()) == ls[1]);
        assert(ls.last() == ls[1]);
    } else {
        lemma_join_front(ls.drop_last());
        assert(ls.drop_last().drop_first() =~= ls.drop_first().drop_last());
        assert(ls.drop_last()[0] == ls[0]);
        assert(ls.drop_first().last() == ls.last());
        let a = ls[0];
        let b = join_lines(ls.drop_first().drop_last());
        assert(join_lines(ls) == (a + seq!['\n'] + b) + seq!['\n'] + ls.last());
        assert(join_lines(ls.drop_first()) == b + seq!['\n'] + ls.last());
        assert((a + seq!['\n'] + b) + seq!['\n'] + ls.last() =~= a + seq!['\n'] + (b + seq![
            '\n',
        ] + ls.last()));
    }
}

/// The lines that splitting a rejoined text gives back: each line that a
/// line feed follows loses one trailing carriage return.
pub open spec fn resplit(ls: Seq<Seq<char>>, newline: bool) -> Seq<Seq<char>> {
    Seq::new(
        ls.len(),
        |k: int|
            if k < ls.len() - 1 || newline {
                strip_cr(ls[k])
            } else {
                ls[k]
            },
    )
}

/// A line followed by a line feed and more text splits into that line,
/// without a trailing carriage return, and the lines of the rest.
pub proof fn lemma_lines_cons_cr(x: Seq<char>, t: Seq<char>)
    requires
        !x.contains('\n'),
    ensures
        lines_of(x + seq!['\n'] + t) == seq![strip_cr(x)] + lines_of(t),
{
    let p = x + seq!['\n'];
    let s = p + t;
    assert(x + seq!['\n'] + t == s);
    assert forall|j: int| 0 <= j < x.len() implies s[j] != '\n' by {
        assert(s[j] == x[j]);
        if s[j] == '\n' {
            assert(x.contains('\n'));
        }
    }
    lemma_find_char_upto(s, '\n', 0, x.len() as int);
    assert(s[x.len() as int] == '\n');
    assert(s.subrange(0, x.len() as int) =~= x);
    lemma_lines_from_shift(p, t, 0);
}

/// Splitting rejoined lines gives them back, but for carriage returns that
/// end a line before a line feed.
pub proof fn lemma_lines_rejoin_cr(ls: Seq<Seq<char>>, newline: bool)
    requires
        ls.len() > 0,
        no_newlines(ls),
        !newline ==> ls.last().len() > 0,
    ensures
        lines_of(rejoin(ls, newline)) == resplit(ls, newline),
    decreases ls.len(),
{
    let x = ls[0];
    assert(!(ls[0]).contains('\n'));
    if ls.len() == 1 {
        if newline {
            lemma_lines_cons_cr(x, seq![]);
            assert(x + seq!['\n'] + Seq::<char>::empty() =~= join_lines(ls) + seq!['\n']);
            assert(lines_of(Seq::<char>::empty()) =~= Seq::<Seq<char>>::empty());
            assert(seq![strip_cr(x)] + Seq::<Seq<char>>::empty() =~= resplit(ls, newline));
        } else {
            lemma_lines_single(x);
            assert(seq![x] =~= resplit(ls, newline));
        }
    } else {
        let rest = ls.drop_first();
        assert forall|k: int| 0 <= k < rest.len() implies !(#[trigger] rest[k]).contains('\n') by {
            assert(rest[k] == ls[k + 1]);
        }
        lemma_lines_rejoin_cr(rest, newline);
        lemma_join_front(ls);
        lemma_lines_cons_cr(x, rejoin(rest, newline));
        assert(rejoin(ls, newline) =~= x + seq!['\n'] + rejoin(rest, newline));
        assert(seq![strip_cr(x)] + resplit(rest, newline) =~= resplit(ls, newline));
    }
}

/// The lines of a text hold no line feed; without a final line feed the
/// last line of a nonempty text is not empty.
pub proof fn lemma_lines_shape(s: Seq<char>, i: int)
    requires
        0 <= i,
    ensures
        no_newlines(lines_from(s, i)),
        i < s.len() ==> lines_from(s, i).len() > 0,
        i < s.len() && !ends_with_newline(s) ==> lines_from(s, i).last().len() > 0,
    decreases s.len() - i,
{
    if i < s.len() {
        lemma_find_char(s, '\n', i);
        let k = find_char(s, '\n', i);
        if k >= s.len() {
            let x = s.subrange(i, s.len() as int);
            assert forall|j: int| 0 <= j < x.len() implies x[j] != '\n' by {
                assert(x[j] == s[i + j]);
            }
            assert(!x.contains('\n'));
            assert(no_newlines(seq![x]));
        } else {
            lemma_lines_shape(s, k + 1);
            let x = strip_cr(s.subrange(i, k));
            assert forall|j: int| 0 <= j < x.len() implies x[j] != '\n' by {
                assert(x[j] == s[i + j]);
            }
            assert(!x.contains('\n'));
            let rest = lines_from(s, k + 1);
            let all = seq![x] + rest;
            assert forall|m: int| 0 <= m < all.len() implies !(#[trigger] all[m]).contains('\n') by {
                if m > 0 {
                    assert(all[m] == rest[m - 1]);
                }
            }
            if !ends_with_newline(s) {
                assert(k + 1 < s.len());
                assert(all.last() == rest.last());
            }
        }
    }
}

/// The start of the text after its trailing whitespace is cut: the end of
/// `s[..i]` once trailing whitespace is removed.
pub open spec fn trim_end_index(s: Seq<char>, i: int) -> int
    decreases i,
{
    if i <= 0 || i > s.len() {
        0
    } else if crate::tags::is_space(s[i - 1]) {
        trim_end_index(s, i - 1)
    } else {
        i
    }
}

/// Text without leading and trailing whitespace (`str::trim`).
pub open spec fn trimmed(s: Seq<char>) -> Seq<char> {
    let a = crate::tags::space_run_end(s, 0);
    let b = trim_end_index(s, s.len() as int);
    if a < b {
        s.subrange(a, b)
    } else {
        seq![]
    }
}

proof fn lemma_trim_end_index(s: Seq<char>, i: int)
    requires
        0 <= i <= s.len(),
    ensures
        0 <= trim_end_index(s, i) <= i,
        trim_end_index(s, i) > 0 ==> !crate::tags::is_space(s[trim_end_index(s, i) - 1]),
    decreases i,
{
    if i > 0 && crate::tags::is_space(s[i - 1]) {
        lemma_trim_end_index(s, i - 1);
    }
}

/// Text without leading and trailing whitespace (`str::trim`).
pub fn trim_exec(s: &Vec<char>) -> (r: Vec<char>)
    ensures
        r@ == trimmed(s@),
{
    let mut a: usize = 0;
    while a < s.len() && crate::tags::is_space_exec(s[a])
        invariant
            a <= s.len(),
            crate::tags::space_run_end(s@, 0) == crate::tags::space_run_end(s@, a as int),
        decreases s.len() - a,
    {
        a = a + 1;
    }
    let mut b: usize = s.len();
    while b > 0 && crate::tags::is_space_exec(s[b - 1])
        invariant
            b <= s.len(),
            trim_end_index(s@, s.len() as int) == trim_end_index(s@, b as int),
        decreases b,
    {
        b = b - 1;
    }
    if a < b {
        copy_range(s, a, b)
    } else {
        Vec::new()
    }
}

/// The pieces joined with `sep` between consecutive pieces (`join`).
pub open spec fn join_with(ls: Seq<Seq<char>>, sep: Seq<char>) -> Seq<char>
    decreases ls.len(),
{
    if ls.len() == 0 {
        seq![]
    } else if ls.len() == 1 {
        ls[0]
    } else {
        join_with(ls.drop_last(), sep) + sep + ls.last()
    }
}

/// Joins pieces with a separator.
pub fn join_with_exec(ls: &Vec<Vec<char>>, sep: &Vec<char>) -> (r: Vec<char>)
    ensures
        r@ == join_with(seq_views(ls@), sep@),
{
    let mut r: Vec<char> = Vec::new();
    let mut k: usize = 0;
    while k < ls.len()
        invariant
            k <= ls.len(),
            r@ == join_with(seq_views(ls@).take(k as int), sep@),
        decreases ls.len() - k,
    {
        let ghost next = seq_views(ls@).take(k + 1 as int);
        assert(next.drop_last() =~= seq_views(ls@).take(k as int));
        assert(next.last() == ls[k as int]@);
        if k > 0 {
            push_all(&mut r, sep);
        }
        push_all(&mut r, &ls[k]);
        if k == 0 {
            assert(r@ == join_with(next, sep@));
        }
        k = k + 1;
    }
    assert(seq_views(ls@).take(ls.len() as int) =~= seq_views(ls@));
    r
}

/// The text after an optional leading `+`.
pub open spec fn unsigned_digits(s: Seq<char>) -> Seq<char> {
    if s.len() > 0 && s[0] == '+' {
        s.drop_first()
    } else {
        s
    }
}

/// Whether every character is an ASCII digit.
pub open spec fn all_digits(ds: Seq<char>) -> bool {
    forall|k: int| 0 <= k < ds.len() ==> is_digit(#[trigger] ds[k])
}

/// The value that `str::parse` gives an unsigned integer type with maximum
/// `limit`: an optional `+`, then one or more ASCII digits, whose value
/// does not exceed `limit`.
pub open spec fn parsed_unsigned(s: Seq<char>, limit: nat) -> Option<nat> {
    let ds = unsigned_digits(s);
    if ds.len() > 0 && all_digits(ds) && decimal_value(ds) <= limit {
        Some(decimal_value(ds))
    } else {
        None
    }
}

/// Parses an unsigned integer as `str::parse` does for a type whose
/// maximum is `limit`.
pub fn parse_unsigned(s: &Vec<char>, limit: u64) -> (r: Option<u64>)
    ensures
        match r {
            Some(v) => parsed_unsigned(s@, limit as nat) == Some(v as nat),
            None => parsed_unsigned(s@, limit as nat) is None,
        },
{
    let start: usize = if s.len() > 0 && s[0] == '+' {
        1
    } else {
        0
    };
    let ghost ds = unsigned_digits(s@);
    assert(ds =~= s@.subrange(start as int, s.len() as int));
    if start >= s.len() {
        return None;
    }
    let mut i = start;
    while i < s.len()
        invariant
            start <= i <= s.len(),
            ds == s@.subrange(start as int, s.len() as int),
            ds == unsigned_digits(s@),
            forall|k: int| start <= k < i ==> is_digit(#[trigger] s@[k]),
        decreases s.len() - i,
    {
        if !('0' <= s[i] && s[i] <= '9') {
            assert(ds[i - start] == s@[i as int]);
            assert(!is_digit(ds[i - start]));
            return None;
        }
        i = i + 1;
    }
    assert forall|k: int| 0 <= k < ds.len() implies is_digit(#[trigger] ds[k]) by {
        assert(ds[k] == s@[start + k]);
    }
    parse_digits(s, start, s.len(), limit)
}

/// `s[i..]` with every occurrence of `pat` replaced by `rep`, matching left
/// to right without overlap (`str::replace` for a nonempty pattern).
pub open spec fn replace_from(s: Seq<char>, i: int, pat: Seq<char>, rep: Seq<char>) -> Seq<char>
    decreases s.len() - i,
{
    if i < 0 || i >= s.len() {
        seq![]
    } else if pat.len() > 0 && occurs_at(s, i, pat) {
        rep + replace_from(s, i + pat.len(), pat, rep)
    } else {
        seq![s[i]] + replace_from(s, i + 1, pat, rep)
    }
}

/// `s` with every occurrence of `pat` replaced by `rep`.
pub open spec fn replace_all(s: Seq<char>, pat: Seq<char>, rep: Seq<char>) -> Seq<char> {
    replace_from(s, 0, pat, rep)
}

/// Replaces every occurrence of a nonempty pattern (`str::replace`).
pub fn replace_all_exec(s: &Vec<char>, pat: &Vec<char>, rep: &Vec<char>) -> (r: Vec<char>)
    requires
        pat.len() > 0,
    ensures
        r@ == replace_all(s@, pat@, rep@),
{
    let mut out: Vec<char> = Vec::new();
    let mut i: usize = 0;
    assert(out@ + replace_from(s@, 0, pat@, rep@) =~= replace_all(s@, pat@, rep@));
    while i < s.len()
        invariant
            pat.len() > 0,
            i <= s.len(),
            out@ + replace_from(s@, i as int, pat@, rep@) == replace_all(s@, pat@, rep@),
        decreases s.len() - i,
    {
        let ghost before = out@;
        if occurs_at_exec(s, i, pat) {
            push_all(&mut out, rep);
            assert(out@ + replace_from(s@, i + pat.len(), pat@, rep@) =~= before + replace_from(
                s@,
                i as int,
                pat@,
                rep@,
            ));
            i = i + pat.len();
        } else {
            out.push(s[i]);
            assert(out@ + replace_from(s@, i + 1, pat@, rep@) =~= before + replace_from(
                s@,
                i as int,
                pat@,
                rep@,
            ));
            i = i + 1;
        }
    }
    assert(out@ + Seq::<char>::empty() =~= out@);
    out
}

} // verus!
