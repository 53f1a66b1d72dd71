//! Escaping text for HTML and reading escaped text back.
use vstd::prelude::*;
use crate::text::{chars_to_string, occurs_at, str_to_chars};

verus! {

/// The entity that stands for a character in escaped text, or the
/// character itself.
pub open spec fn escape_char(c: char) -> Seq<char> {
    if c == '&' {
        seq!['&', 'a', 'm', 'p', ';']
    } else if c == '<' {
        seq!['&', 'l', 't', ';']
    } else if c == '>' {
        seq!['&', 'g', 't', ';']
    } else if c == '"' {
        seq!['&', 'q', 'u', 'o', 't', ';']
    } else if c == '\'' {
        seq!['&', '#', '3', '9', ';']
    } else {
        seq![c]
    }
}

/// Text with `&`, `<`, `>`, `"` and `'` written as entities.
pub open spec fn escaped(s: Seq<char>) -> Seq<char>
    decreases s.len(),
{
    if s.len() == 0 {
        seq![]
    } else {
        escape_char(s[0]) + escaped(s.drop_first())
    }
}

/// The character that an entity at the start of `s` stands for, and the
/// entity's length.
pub open spec fn entity_at(s: Seq<char>) -> Option<(char, int)> {
    if occurs_at(s, 0, seq!['&', 'a', 'm', 'p', ';']) {
        Some(('&', 5))
    } else if occurs_at(s, 0, seq!['&', 'l', 't', ';']) {
        Some(('<', 4))
    } else if occurs_at(s, 0, seq!['&', 'g', 't', ';']) {
        Some(('>', 4))
    } else if occurs_at(s, 0, seq!['&', 'q', 'u', 'o', 't', ';']) {
        Some(('"', 6))
    } else if occurs_at(s, 0, seq!['&', '#', '3', '9', ';']) {
        Some(('\'', 5))
    } else {
        None
    }
}

/// Escaped text read back in one left-to-right pass: each of the five
/// entities becomes its character; everything else is kept.
pub open spec fn unescaped(s: Seq<char>) -> Seq<char>
    decreases s.len(),
{
    if s.len() == 0 {
        seq![]
    } else {
        match entity_at(s) {
            Some((c, n)) => if 0 < n <= s.len() {
                seq![c] + unescaped(s.skip(n))
            } else {
                seq![s[0]] + unescaped(s.drop_first())
            },
            None => seq![s[0]] + unescaped(s.drop_first()),
        }
    }
}

/// Escapes text for HTML (character form).
pub fn escape_chars(s: &Vec<char>) -> (r: Vec<char>)
    ensures
        r@ == escaped(s@),
{
    let mut out: Vec<char> = Vec::new();
    let mut i: usize = 0;
    assert(s@.skip(0) =~= s@);
    assert(out@ + escaped(s@) =~= escaped(s@));
    while i < s.len()
        invariant
            i <= s.len(),
            out@ + escaped(s@.skip(i as int)) == escaped(s@),
        decreases s.len() - i,
    {
        let c = s[i];
        let ghost before = out@;
        if c == '&' {
            out.push('&');
            out.push('a');
            out.push('m');
            out.push('p');
            out.push(';');
        } else if c == '<' {
            out.push('&');
            out.push('l');
            out.push('t');
            out.push(';');
        } else if c == '>' {
            out.push('&');
            out.push('g');
            out.push('t');
            out.push(';');
        } else if c == '"' {
            out.push('&');
            out.push('q');
            out.push('u');
            out.push('o');
            out.push('t');
            out.push(';');
        } else if c == '\'' {
            out.push('&');
            out.push('#');
            out.push('3');
            out.push('9');
            out.push(';');
        } else {
            out.push(c);
        }
        assert(out@ =~= before + escape_char(c));
        assert(s@.skip(i as int).drop_first() =~= s@.skip(i + 1));
        assert(s@.skip(i as int)[0] == c);
        assert(out@ + escaped(s@.skip(i + 1)) =~= before + escaped(s@.skip(i as int)));
        i = i + 1;
    }
    assert(escaped(s@.skip(i as int)) == Seq::<char>::empty());
    assert(out@ + Seq::<char>::empty() =~= out@);
    out
}

/// Escapes text for HTML: `&`, `<`, `>`, `"` and `'` become entities.
pub fn escape(s: &str) -> (r: String)
    ensures
        r@ == escaped(s@),
{
    let v = str_to_chars(s);
    let e = escape_chars(&v);
    chars_to_string(&e)
}

fn entity_at_exec(s: &Vec<char>, i: usize) -> (r: Option<(char, usize)>)
    requires
        i <= s.len(),
    ensures
        match r {
            Some((c, n)) => entity_at(s@.skip(i as int)) == Some((c, n as int)),
            None => entity_at(s@.skip(i as int)) is None,
        },
{
    let ghost t = s@.skip(i as int);
    let rest = s.len() - i;
    if rest >= 5 && s[i] == '&' && s[i + 1] == 'a' && s[i + 2] == 'm' && s[i + 3] == 'p' && s[i
        + 4] == ';' {
        assert(t.subrange(0, 5) =~= seq!['&', 'a', 'm', 'p', ';']);
        return Some(('&', 5));
    }
    if rest >= 4 && s[i] == '&' && s[i + 1] == 'l' && s[i + 2] == 't' && s[i + 3] == ';' {
        assert(!occurs_at(t, 0, seq!['&', 'a', 'm', 'p', ';'])) by {
            if occurs_at(t, 0, seq!['&', 'a', 'm', 'p', ';']) {
                assert(t.subrange(0, 5)[1] == t[1]);
            }
        }
        assert(t.subrange(0, 4) =~= seq!['&', 'l', 't', ';']);
        return Some(('<', 4));
    }
    if rest >= 4 && s[i] == '&' && s[i + 1] == 'g' && s[i + 2] == 't' && s[i + 3] == ';' {
        assert(!occurs_at(t, 0, seq!['&', 'a', 'm', 'p', ';'])) by {
            if occurs_at(t, 0, seq!['&', 'a', 'm', 'p', ';']) {
                assert(t.subrange(0, 5)[1] == t[1]);
            }
        }
        assert(!occurs_at(t, 0, seq!['&', 'l', 't', ';'])) by {
            if occurs_at(t, 0, seq!['&', 'l', 't', ';']) {
                assert(t.subrange(0, 4)[1] == t[1]);
            }
        }
        assert(t.subrange(0, 4) =~= seq!['&', 'g', 't', ';']);
        return Some(('>', 4));
    }
    if rest >= 6 && s[i] == '&' && s[i + 1] == 'q' && s[i + 2] == 'u' && s[i + 3] == 'o' && s[i
        + 4] == 't' && s[i + 5] == ';' {
        proof {
            lemma_not_other_entities(t, 'q');
        }
        assert(t.subrange(0, 6) =~= seq!['&', 'q', 'u', 'o', 't', ';']);
        return Some(('"', 6));
    }
    if rest >= 5 && s[i] == '&' && s[i + 1] == '#' && s[i + 2] == '3' && s[i + 3] == '9' && s[i
        + 4] == ';' {
        proof {
            lemma_not_other_entities(t, '#');
            if occurs_at(t, 0, seq!['&', 'q', 'u', 'o', 't', ';']) {
                assert(t.subrange(0, 6)[1] == t[1]);
            }
        }
        assert(t.subrange(0, 5) =~= seq!['&', '#', '3', '9', ';']);
        return Some(('\'', 5));
    }
    proof {
        lemma_occurs_chars(t, seq!['&', 'a', 'm', 'p', ';']);
        lemma_occurs_chars(t, seq!['&', 'l', 't', ';']);
        lemma_occurs_chars(t, seq!['&', 'g', 't', ';']);
        lemma_occurs_chars(t, seq!['&', 'q', 'u', 'o', 't', ';']);
        lemma_occurs_chars(t, seq!['&', '#', '3', '9', ';']);
        if rest >= 4 {
            assert(t[0] == s@[i as int] && t[1] == s@[i + 1] && t[2] == s@[i + 2] && t[3]
                == s@[i + 3]);
        }
        if rest >= 5 {
            assert(t[4] == s@[i + 4]);
        }
        if rest >= 6 {
            assert(t[5] == s@[i + 5]);
        }
    }
    None
}

proof fn lemma_occurs_chars(t: Seq<char>, p: Seq<char>)
    ensures
        occurs_at(t, 0, p) ==> p.len() <= t.len() && forall|j: int|
            0 <= j < p.len() ==> #[trigger] t[j] == p[j],
{
    if occurs_at(t, 0, p) {
        assert forall|j: int| 0 <= j < p.len() implies #[trigger] t[j] == p[j] by {
            assert(t.subrange(0, p.len() as int)[j] == t[j]);
        }
    }
}

proof fn lemma_not_other_entities(t: Seq<char>, second: char)
    requires
        t.len() >= 2,
        t[1] == second,
        second != 'a' && second != 'l' && second != 'g',
    ensures
        !occurs_at(t, 0, seq!['&', 'a', 'm', 'p', ';']),
        !occurs_at(t, 0, seq!['&', 'l', 't', ';']),
        !occurs_at(t, 0, seq!['&', 'g', 't', ';']),
{
    if occurs_at(t, 0, seq!['&', 'a', 'm', 'p', ';']) {
        assert(t.subrange(0, 5)[1] == t[1]);
    }
    if occurs_at(t, 0, seq!['&', 'l', 't', ';']) {
        assert(t.subrange(0, 4)[1] == t[1]);
    }
    if occurs_at(t, 0, seq!['&', 'g', 't', ';']) {
        assert(t.subrange(0, 4)[1] == t[1]);
    }
}

/// Reads escaped text back (character form).
pub fn unescape_chars(s: &Vec<char>) -> (r: Vec<char>)
    ensures
        r@ == unescaped(s@),
{
    let mut out: Vec<char> = Vec::new();
    let mut i: usize = 0;
    assert(s@.skip(0) =~= s@);
    assert(out@ + unescaped(s@) =~= unescaped(s@));
    while i < s.len()
        invariant
            i <= s.len(),
            out@ + unescaped(s@.skip(i as int)) == unescaped(s@),
        decreases s.len() - i,
    {
        let ghost t = s@.skip(i as int);
        let ghost before = out@;
        match entity_at_exec(s, i) {
            Some((c, n)) => {
                out.push(c);
                assert(t.skip(n as int) =~= s@.skip(i + n));
                assert(out@ + unescaped(s@.skip(i + n)) =~= before + unescaped(t));
                i = i + n;
            },
            None => {
                out.push(s[i]);
                assert(t.drop_first() =~= s@.skip(i + 1));
                assert(t[0] == s@[i as int]);
                assert(out@ + unescaped(s@.skip(i + 1)) =~= before + unescaped(t));
                i = i + 1;
            },
        }
    }
    assert(unescaped(s@.skip(i as int)) == Seq::<char>::empty());
    assert(out@ + Seq::<char>::empty() =~= out@);
    out
}

/// Reads HTML-escaped text back: the five entities that `escape` writes
/// become their characters again, in a single pass.
pub fn unescape(s: &str) -> (r: String)
    ensures
        r@ == unescaped(s@),
{
    let v = str_to_chars(s);
    let u = unescape_chars(&v);
    chars_to_string(&u)
}

/// Escaped text holds no `<`, `>` or `"`.
pub proof fn lemma_escaped_lacks(s: Seq<char>)
    ensures
        forall|i: int|
            0 <= i < escaped(s).len() ==> escaped(s)[i] != '<' && escaped(s)[i] != '>'
                && escaped(s)[i] != '"',
    decreases s.len(),
{
    if s.len() > 0 {
        lemma_escaped_lacks(s.drop_first());
        let e = escape_char(s[0]);
        let r = escaped(s.drop_first());
        assert forall|i: int| 0 <= i < (e + r).len() implies (e + r)[i] != '<' && (e + r)[i] != '>'
            && (e + r)[i] != '"' by {
            if i >= e.len() {
                assert((e + r)[i] == r[i - e.len()]);
            }
        }
    }
}

/// Escaping text in two pieces escapes it whole.
pub proof fn lemma_escaped_concat(a: Seq<char>, b: Seq<char>)
    ensures
        escaped(a + b) == escaped(a) + escaped(b),
    decreases a.len(),
{
    if a.len() == 0 {
        assert(a + b =~= b);
    } else {
        lemma_escaped_concat(a.drop_first(), b);
        assert((a + b).drop_first() =~= a.drop_first() + b);
        assert((a + b)[0] == a[0]);
        assert(escape_char(a[0]) + (escaped(a.drop_first()) + escaped(b)) =~= escape_char(a[0])
            + escaped(a.drop_first()) + escaped(b));
    }
}

/// Escaping and then unescaping gives back the original text.
pub proof fn law_unescape_escape(s: Seq<char>)
    ensures
        unescaped(escaped(s)) == s,
    decreases s.len(),
{
    if s.len() > 0 {
        let c = s[0];
        let rest = s.drop_first();
        law_unescape_escape(rest);
        let e = escape_char(c);
        let t = e + escaped(rest);
        assert(escaped(s) == t);
        assert(t.subrange(0, e.len() as int) =~= e);
        if c == '&' || c == '<' || c == '>' || c == '"' || c == '\'' {
            assert(t.skip(e.len() as int) =~= escaped(rest));
            if c == '<' || c == '>' {
                if occurs_at(t, 0, seq!['&', 'a', 'm', 'p', ';']) {
                    assert(t.subrange(0, 5)[1] == t[1]);
                }
            }
            if c == '>' {
                if occurs_at(t, 0, seq!['&', 'l', 't', ';']) {
                    assert(t.subrange(0, 4)[1] == t[1]);
                }
            }
            if c == '"' || c == '\'' {
                lemma_not_other_entities(t, t[1]);
            }
            if c == '\'' {
                if occurs_at(t, 0, seq!['&', 'q', 'u', 'o', 't', ';']) {
                    assert(t.subrange(0, 6)[1] == t[1]);
                }
            }
            assert(unescaped(t) == seq![c] + unescaped(escaped(rest)));
        } else {
            assert(t[0] == c);
            assert(entity_at(t) is None) by {
                if occurs_at(t, 0, seq!['&', 'a', 'm', 'p', ';']) {
                    assert(t.subrange(0, 5)[0] == t[0]);
                }
                if occurs_at(t, 0, seq!['&', 'l', 't', ';']) {
                    assert(t.subrange(0, 4)[0] == t[0]);
                }
                if occurs_at(t, 0, seq!['&', 'g', 't', ';']) {
                    assert(t.subrange(0, 4)[0] == t[0]);
                }
                if occurs_at(t, 0, seq!['&', 'q', 'u', 'o', 't', ';']) {
                    assert(t.subrange(0, 6)[0] == t[0]);
                }
                if occurs_at(t, 0, seq!['&', '#', '3', '9', ';']) {
                    assert(t.subrange(0, 5)[0] == t[0]);
                }
            }
            assert(t.drop_first() =~= escaped(rest));
        }
        assert(seq![c] + rest =~= s);
    }
}

} // verus!
