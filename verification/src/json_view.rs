//! The JSON viewer: pretty-printed JSON split into tokens and rendered as
//! HTML with a class per token kind.
use vstd::prelude::*;
use crate::html::{
    escape_chars, escaped, law_unescape_escape, lemma_escaped_concat, lemma_escaped_lacks,
    unescaped,
};
use crate::tags::{is_space, is_space_exec, lemma_run_ends, space_run_end};
use crate::text::{
    chars_to_string, copy_range, find_char, lemma_find_char_upto, push_all, push_str, starts_with,
    str_to_chars,
};

verus! {

/// The kinds of JSON tokens that the viewer tells apart.
#[derive(PartialEq, Eq, Structural, Clone, Copy, Debug)]
pub enum TokenKind {
    Key,
    StringVal,
    Number,
    Bool,
    Null,
    Punct,
}

/// A token of JSON text with its exact characters.
#[derive(Debug)]
pub struct JsonToken {
    pub kind: TokenKind,
    pub text: String,
}

/// Where the scan stands: the next position, whether a string there would
/// be an object key, and for each open bracket whether it opened an object.
pub struct JsonScan {
    pub pos: int,
    pub expect_key: bool,
    pub stack: Seq<bool>,
}

/// The end of a string literal whose body starts at `i` (just after the
/// opening quote): just after the first unescaped `"`, or the end of text.
pub open spec fn string_end(s: Seq<char>, i: int, escaped: bool) -> int
    decreases s.len() - i,
{
    if i < 0 || i >= s.len() {
        s.len() as int
    } else if escaped {
        string_end(s, i + 1, false)
    } else if s[i] == '\\' {
        string_end(s, i + 1, true)
    } else if s[i] == '"' {
        i + 1
    } else {
        string_end(s, i + 1, false)
    }
}

/// ASCII letters.
pub open spec fn is_alpha(c: char) -> bool {
    ('a' <= c <= 'z') || ('A' <= c <= 'Z')
}

/// Characters that can occur in a JSON number.
pub open spec fn is_number_char(c: char) -> bool {
    ('0' <= c <= '9') || c == '.' || c == '-' || c == '+' || c == 'e' || c == 'E'
}

/// The end of the run of letters starting at `i`.
pub open spec fn alpha_end(s: Seq<char>, i: int) -> int
    decreases s.len() - i,
{
    if 0 <= i < s.len() && is_alpha(s[i]) {
        alpha_end(s, i + 1)
    } else {
        i
    }
}

/// The end of the run of number characters starting at `i`.
pub open spec fn number_end(s: Seq<char>, i: int) -> int
    decreases s.len() - i,
{
    if 0 <= i < s.len() && is_number_char(s[i]) {
        number_end(s, i + 1)
    } else {
        i
    }
}

/// The stack with its last entry removed, if any.
pub open spec fn pop_stack(st: Seq<bool>) -> Seq<bool> {
    if st.len() > 0 {
        st.drop_last()
    } else {
        st
    }
}

/// One step of the scan: the next token and the state after it.
pub open spec fn json_step(s: Seq<char>, st: JsonScan) -> Option<((TokenKind, Seq<char>), JsonScan)> {
    let i = st.pos;
    if i < 0 || i >= s.len() {
        None
    } else if is_space(s[i]) {
        let j = space_run_end(s, i);
        Some(((TokenKind::Punct, s.subrange(i, j)), JsonScan { pos: j, ..st }))
    } else {
        let c = s[i];
        if c == '{' {
            Some(
                (
                    (TokenKind::Punct, seq![c]),
                    JsonScan { pos: i + 1, expect_key: true, stack: st.stack.push(true) },
                ),
            )
        } else if c == '}' {
            Some(
                (
                    (TokenKind::Punct, seq![c]),
                    JsonScan { pos: i + 1, expect_key: false, stack: pop_stack(st.stack) },
                ),
            )
        } else if c == '[' {
            Some(
                (
                    (TokenKind::Punct, seq![c]),
                    JsonScan { pos: i + 1, expect_key: false, stack: st.stack.push(false) },
                ),
            )
        } else if c == ']' {
            Some(
                (
                    (TokenKind::Punct, seq![c]),
                    JsonScan { pos: i + 1, expect_key: st.expect_key, stack: pop_stack(st.stack) },
                ),
            )
        } else if c == ':' {
            Some(((TokenKind::Punct, seq![c]), JsonScan { pos: i + 1, expect_key: false, ..st }))
        } else if c == ',' {
            Some(
                (
                    (TokenKind::Punct, seq![c]),
                    JsonScan {
                        pos: i + 1,
                        expect_key: st.stack.len() > 0 && st.stack.last(),
                        ..st
                    },
                ),
            )
        } else if c == '"' {
            let j = string_end(s, i + 1, false);
            if st.expect_key {
                Some(
                    (
                        (TokenKind::Key, s.subrange(i, j)),
                        JsonScan { pos: j, expect_key: false, ..st },
                    ),
                )
            } else {
                Some(((TokenKind::StringVal, s.subrange(i, j)), JsonScan { pos: j, ..st }))
            }
        } else if c == 't' || c == 'f' {
            let j = alpha_end(s, i);
            Some(((TokenKind::Bool, s.subrange(i, j)), JsonScan { pos: j, ..st }))
        } else if c == 'n' {
            let j = alpha_end(s, i);
            Some(((TokenKind::Null, s.subrange(i, j)), JsonScan { pos: j, ..st }))
        } else if c == '-' || ('0' <= c <= '9') {
            let j = number_end(s, i);
            Some(((TokenKind::Number, s.subrange(i, j)), JsonScan { pos: j, ..st }))
        } else {
            Some(((TokenKind::Punct, seq![c]), JsonScan { pos: i + 1, ..st }))
        }
    }
}

/// The tokens from a scan state to the end of the text.
pub open spec fn json_tokens_from(s: Seq<char>, st: JsonScan) -> Seq<(TokenKind, Seq<char>)>
    decreases s.len() - st.pos,
{
    match json_step(s, st) {
        Some((t, next)) => if st.pos < next.pos <= s.len() {
            seq![t] + json_tokens_from(s, next)
        } else {
            seq![]
        },
        None => seq![],
    }
}

/// The start of a scan.
pub open spec fn json_start() -> JsonScan {
    JsonScan { pos: 0, expect_key: false, stack: seq![] }
}

/// The tokens of a JSON text.
pub open spec fn json_tokens(s: Seq<char>) -> Seq<(TokenKind, Seq<char>)> {
    json_tokens_from(s, json_start())
}

/// The HTML for one token: keys, strings, numbers and keywords get a class
/// each, punctuation and whitespace are only escaped.
pub open spec fn token_html(t: (TokenKind, Seq<char>)) -> Seq<char> {
    match t.0 {
        TokenKind::Key => "<span class=\"json-key\">"@ + escaped(t.1) + "</span>"@,
        TokenKind::StringVal => "<span class=\"json-string\">"@ + escaped(t.1) + "</span>"@,
        TokenKind::Number => "<span class=\"json-number\">"@ + escaped(t.1) + "</span>"@,
        TokenKind::Bool => "<span class=\"json-keyword\">"@ + escaped(t.1) + "</span>"@,
        TokenKind::Null => "<span class=\"json-keyword\">"@ + escaped(t.1) + "</span>"@,
        TokenKind::Punct => escaped(t.1),
    }
}

/// The HTML for a sequence of tokens.
pub open spec fn tokens_html(ts: Seq<(TokenKind, Seq<char>)>) -> Seq<char>
    decreases ts.len(),
{
    if ts.len() == 0 {
        seq![]
    } else {
        tokens_html(ts.drop_last()) + token_html(ts.last())
    }
}

/// The viewer's HTML for a JSON text.
pub open spec fn json_html(s: Seq<char>) -> Seq<char> {
    "<pre class=\"json-viewer\"><code>"@ + tokens_html(json_tokens(s)) + "</code></pre>"@
}

/// A scanner over JSON text that yields [`JsonToken`]s.
pub struct JsonTokenizer {
    chars: Vec<char>,
    pos: usize,
    expect_key: bool,
    context_stack: Vec<bool>,
}

impl JsonTokenizer {
    /// The text being scanned.
    pub closed spec fn text(&self) -> Seq<char> {
        self.chars@
    }

    /// The scan state.
    pub closed spec fn state(&self) -> JsonScan {
        JsonScan { pos: self.pos as int, expect_key: self.expect_key, stack: self.context_stack@ }
    }

    /// Whether the position lies within the text.
    pub closed spec fn wf(&self) -> bool {
        self.pos <= self.chars.len()
    }

    /// A scanner at the start of `s`.
    pub fn new(s: &str) -> (r: Self)
        ensures
            r.text() == s@,
            r.state() == json_start(),
            r.wf(),
    {
        let r = JsonTokenizer {
            chars: str_to_chars(s),
            pos: 0,
            expect_key: false,
            context_stack: Vec::new(),
        };
        assert(r.state() =~= json_start());
        r
    }

    /// Reads a string literal starting at the opening quote.
    fn read_string(&mut self) -> (r: Vec<char>)
        requires
            old(self).wf(),
            old(self).pos < old(self).chars.len(),
        ensures
            final(self).chars@ == old(self).chars@,
            final(self).expect_key == old(self).expect_key,
            final(self).context_stack@ == old(self).context_stack@,
            final(self).pos == string_end(old(self).chars@, old(self).pos + 1, false),
            r@ == old(self).chars@.subrange(old(self).pos as int, final(self).pos as int),
            final(self).wf(),
    {
        let start = self.pos;
        let mut i = self.pos + 1;
        let mut escaped = false;
        loop
            invariant_except_break
                start < i <= self.chars.len(),
                string_end(self.chars@, start + 1, false) == string_end(self.chars@, i as int, escaped),
            ensures
                start < i <= self.chars.len(),
                string_end(self.chars@, start + 1, false) == i,
            decreases self.chars.len() - i,
        {
            if i >= self.chars.len() {
                break;
            }
            let c = self.chars[i];
            if escaped {
                escaped = false;
            } else if c == '\\' {
                escaped = true;
            } else if c == '"' {
                i = i + 1;
                break;
            }
            i = i + 1;
        }
        self.pos = i;
        copy_range(&self.chars, start, i)
    }

    /// Reads a run of ASCII letters.
    fn read_word(&mut self) -> (r: Vec<char>)
        requires
            old(self).wf(),
        ensures
            final(self).chars@ == old(self).chars@,
            final(self).expect_key == old(self).expect_key,
            final(self).context_stack@ == old(self).context_stack@,
            final(self).pos == alpha_end(old(self).chars@, old(self).pos as int),
            r@ == old(self).chars@.subrange(old(self).pos as int, final(self).pos as int),
            final(self).wf(),
    {
        let start = self.pos;
        let mut i = self.pos;
        while i < self.chars.len() && (('a' <= self.chars[i] && self.chars[i] <= 'z') || ('A'
            <= self.chars[i] && self.chars[i] <= 'Z'))
            invariant
                start <= i <= self.chars.len(),
                alpha_end(self.chars@, start as int) == alpha_end(self.chars@, i as int),
            decreases self.chars.len() - i,
        {
            i = i + 1;
        }
        self.pos = i;
        copy_range(&self.chars, start, i)
    }

    /// Reads a run of number characters.
    fn read_number(&mut self) -> (r: Vec<char>)
        requires
            old(self).wf(),
        ensures
            final(self).chars@ == old(self).chars@,
            final(self).expect_key == old(self).expect_key,
            final(self).context_stack@ == old(self).context_stack@,
            final(self).pos == number_end(old(self).chars@, old(self).pos as int),
            r@ == old(self).chars@.subrange(old(self).pos as int, final(self).pos as int),
            final(self).wf(),
    {
        let start = self.pos;
        let mut i = self.pos;
        while i < self.chars.len() && (('0' <= self.chars[i] && self.chars[i] <= '9')
            || self.chars[i] == '.' || self.chars[i] == '-' || self.chars[i] == '+'
            || self.chars[i] == 'e' || self.chars[i] == 'E')
            invariant
                start <= i <= self.chars.len(),
                number_end(self.chars@, start as int) == number_end(self.chars@, i as int),
            decreases self.chars.len() - i,
        {
            i = i + 1;
        }
        self.pos = i;
        copy_range(&self.chars, start, i)
    }

    /// The next token, or `None` at the end of the text.
    pub fn next_token(&mut self) -> (r: Option<JsonToken>)
        requires
            old(self).wf(),
        ensures
            final(self).wf(),
            final(self).text() == old(self).text(),
            match json_step(old(self).text(), old(self).state()) {
                Some((t, next)) => r matches Some(tok) && (tok.kind, tok.text@) == t
                    && final(self).state() == next,
                None => r is None && final(self).state() == old(self).state(),
            },
    {
        if self.pos >= self.chars.len() {
            return None;
        }
        let i = self.pos;
        let c = self.chars[i];
        if is_space_exec(c) {
            let mut j = i;
            while j < self.chars.len() && is_space_exec(self.chars[j])
                invariant
                    i <= j <= self.chars.len(),
                    space_run_end(self.chars@, i as int) == space_run_end(self.chars@, j as int),
                decreases self.chars.len() - j,
            {
                j = j + 1;
            }
            let ws = copy_range(&self.chars, i, j);
            self.pos = j;
            return Some(JsonToken { kind: TokenKind::Punct, text: chars_to_string(&ws) });
        }
        let mut one: Vec<char> = Vec::new();
        one.push(c);
        assert(one@ =~= seq![c]);
        if c == '{' {
            self.pos = i + 1;
            self.context_stack.push(true);
            self.expect_key = true;
            Some(JsonToken { kind: TokenKind::Punct, text: chars_to_string(&one) })
        } else if c == '}' {
            self.pos = i + 1;
            self.context_stack.pop();
            self.expect_key = false;
            Some(JsonToken { kind: TokenKind::Punct, text: chars_to_string(&one) })
        } else if c == '[' {
            self.pos = i + 1;
            self.context_stack.push(false);
            self.expect_key = false;
            Some(JsonToken { kind: TokenKind::Punct, text: chars_to_string(&one) })
        } else if c == ']' {
            self.pos = i + 1;
            self.context_stack.pop();
            Some(JsonToken { kind: TokenKind::Punct, text: chars_to_string(&one) })
        } else if c == ':' {
            self.pos = i + 1;
            self.expect_key = false;
            Some(JsonToken { kind: TokenKind::Punct, text: chars_to_string(&one) })
        } else if c == ',' {
            self.pos = i + 1;
            let n = self.context_stack.len();
            self.expect_key = n > 0 && self.context_stack[n - 1];
            Some(JsonToken { kind: TokenKind::Punct, text: chars_to_string(&one) })
        } else if c == '"' {
            let s = self.read_string();
            if self.expect_key {
                self.expect_key = false;
                Some(JsonToken { kind: TokenKind::Key, text: chars_to_string(&s) })
            } else {
                Some(JsonToken { kind: TokenKind::StringVal, text: chars_to_string(&s) })
            }
        } else if c == 't' || c == 'f' {
            let w = self.read_word();
            Some(JsonToken { kind: TokenKind::Bool, text: chars_to_string(&w) })
        } else if c == 'n' {
            let w = self.read_word();
            Some(JsonToken { kind: TokenKind::Null, text: chars_to_string(&w) })
        } else if c == '-' || ('0' <= c && c <= '9') {
            let n = self.read_number();
            Some(JsonToken { kind: TokenKind::Number, text: chars_to_string(&n) })
        } else {
            self.pos = i + 1;
            Some(JsonToken { kind: TokenKind::Punct, text: chars_to_string(&one) })
        }
    }
}

proof fn lemma_step_advances(s: Seq<char>, st: JsonScan)
    requires
        0 <= st.pos,
    ensures
        json_step(s, st) matches Some((t, next)) ==> st.pos < next.pos <= s.len(),
{
    let i = st.pos;
    if 0 <= i < s.len() {
        if is_space(s[i]) {
            lemma_run_ends(s, i);
        } else {
            lemma_string_end(s, i + 1, false);
            lemma_alpha_end(s, i);
            lemma_number_end(s, i);
        }
    }
}

proof fn lemma_string_end(s: Seq<char>, i: int, escaped: bool)
    requires
        0 <= i,
    ensures
        i <= string_end(s, i, escaped) <= s.len() || (i > s.len() && string_end(s, i, escaped)
            == s.len()),
    decreases s.len() - i,
{
    if i < s.len() {
        lemma_string_end(s, i + 1, s[i] == '\\' && !escaped);
    }
}

proof fn lemma_alpha_end(s: Seq<char>, i: int)
    requires
        0 <= i <= s.len(),
    ensures
        i <= alpha_end(s, i) <= s.len(),
        i < s.len() && is_alpha(s[i]) ==> i < alpha_end(s, i),
    decreases s.len() - i,
{
    if i < s.len() && is_alpha(s[i]) {
        lemma_alpha_end(s, i + 1);
    }
}

proof fn lemma_number_end(s: Seq<char>, i: int)
    requires
        0 <= i <= s.len(),
    ensures
        i <= number_end(s, i) <= s.len(),
        i < s.len() && is_number_char(s[i]) ==> i < number_end(s, i),
    decreases s.len() - i,
{
    if i < s.len() && is_number_char(s[i]) {
        lemma_number_end(s, i + 1);
    }
}

/// The texts of tokens, joined in order.
pub open spec fn tokens_text(ts: Seq<(TokenKind, Seq<char>)>) -> Seq<char>
    decreases ts.len(),
{
    if ts.len() == 0 {
        seq![]
    } else {
        ts[0].1 + tokens_text(ts.drop_first())
    }
}

proof fn lemma_step_text(s: Seq<char>, st: JsonScan)
    requires
        0 <= st.pos,
    ensures
        json_step(s, st) matches Some((t, next)) ==> t.1 == s.subrange(st.pos, next.pos),
{
    let i = st.pos;
    if 0 <= i < s.len() && !is_space(s[i]) {
        assert(seq![s[i]] =~= s.subrange(i, i + 1));
    }
}

proof fn lemma_tokens_from_text(s: Seq<char>, st: JsonScan)
    requires
        0 <= st.pos <= s.len(),
    ensures
        tokens_text(json_tokens_from(s, st)) == s.subrange(st.pos, s.len() as int),
    decreases s.len() - st.pos,
{
    lemma_step_advances(s, st);
    lemma_step_text(s, st);
    match json_step(s, st) {
        Some((t, next)) => {
            lemma_tokens_from_text(s, next);
            let rest = json_tokens_from(s, next);
            let all = seq![t] + rest;
            assert(all.drop_first() =~= rest);
            assert(all[0] == t);
            assert(s.subrange(st.pos, next.pos) + s.subrange(next.pos, s.len() as int) =~= s.subrange(
                st.pos,
                s.len() as int,
            ));
        },
        None => {
            assert(s.subrange(st.pos, s.len() as int) =~= Seq::<char>::empty());
        },
    }
}

/// The viewer loses nothing of the text: the tokens it marks up, joined,
/// give back the whole text.
pub proof fn law_json_tokens_cover_text(s: Seq<char>)
    ensures
        tokens_text(json_tokens(s)) == s,
{
    lemma_tokens_from_text(s, json_start());
    assert(s.subrange(0, s.len() as int) =~= s);
}

proof fn lemma_tokens_nonempty(s: Seq<char>, st: JsonScan)
    requires
        0 <= st.pos <= s.len(),
    ensures
        forall|i: int|
            0 <= i < json_tokens_from(s, st).len() ==> (#[trigger] json_tokens_from(s, st)[i]).1.len()
                > 0,
        json_tokens_from(s, st).len() <= s.len() - st.pos,
    decreases s.len() - st.pos,
{
    lemma_step_advances(s, st);
    lemma_step_text(s, st);
    match json_step(s, st) {
        Some((t, next)) => {
            if st.pos < next.pos <= s.len() {
                lemma_tokens_nonempty(s, next);
                let rest = json_tokens_from(s, next);
                let all = seq![t] + rest;
                assert forall|i: int| 0 <= i < all.len() implies (#[trigger] all[i]).1.len() > 0 by {
                    if i > 0 {
                        assert(all[i] == rest[i - 1]);
                    }
                }
            }
        },
        None => {},
    }
}

/// The scan of a JSON text ends: every token holds at least one
/// character, so there are at most as many tokens as characters, and
/// together they are the text (see [`law_json_tokens_cover_text`]); once
/// the scan has returned `None`, `next_token` leaves the scanner as it is
/// and keeps returning `None`.
pub proof fn law_json_tokens_nonempty(s: Seq<char>)
    ensures
        forall|i: int| 0 <= i < json_tokens(s).len() ==> (#[trigger] json_tokens(s)[i]).1.len() > 0,
        json_tokens(s).len() <= s.len(),
{
    lemma_tokens_nonempty(s, json_start());
}

/// A one-character punctuation token.
pub open spec fn punct(c: char) -> (TokenKind, Seq<char>) {
    (TokenKind::Punct, seq![c])
}

/// A string literal token: an object key or a string value.
pub open spec fn is_string_token(t: (TokenKind, Seq<char>)) -> bool {
    t.0 == TokenKind::Key || t.0 == TokenKind::StringVal
}

/// A whitespace token.
pub open spec fn is_blank_token(t: (TokenKind, Seq<char>)) -> bool {
    t.0 == TokenKind::Punct && t.1.len() > 0 && is_space(t.1[0])
}

/// The open brackets after a token: `{` opens an object (`true`), `[` an
/// array (`false`), `}` and `]` close the innermost one.
pub open spec fn brackets_after(open: Seq<bool>, t: (TokenKind, Seq<char>)) -> Seq<bool> {
    if t == punct('{') {
        open.push(true)
    } else if t == punct('[') {
        open.push(false)
    } else if t == punct('}') || t == punct(']') {
        pop_stack(open)
    } else {
        open
    }
}

/// The open brackets after a run of tokens, starting from `open`.
pub open spec fn brackets_through(open: Seq<bool>, ts: Seq<(TokenKind, Seq<char>)>) -> Seq<bool>
    decreases ts.len(),
{
    if ts.len() == 0 {
        open
    } else {
        brackets_after(brackets_through(open, ts.drop_last()), ts.last())
    }
}

/// Whether the innermost open bracket is an object's.
pub open spec fn in_object(open: Seq<bool>) -> bool {
    open.len() > 0 && open.last()
}

/// Tokens `a..b` are all whitespace.
pub open spec fn blanks_between(ts: Seq<(TokenKind, Seq<char>)>, a: int, b: int) -> bool {
    forall|k: int| a <= k < b ==> is_blank_token(#[trigger] ts[k])
}

/// How a string token is classed after the token `p` before it (whitespace
/// aside), with `open` the brackets open at `p`: after `{`, and after `,`
/// inside an object, it is a key; after `,` inside an array, after `:`
/// and after `[`, it is a value.
pub open spec fn string_class_fits(
    p: (TokenKind, Seq<char>),
    open: Seq<bool>,
    t: (TokenKind, Seq<char>),
) -> bool {
    &&& p == punct('{') ==> t.0 == TokenKind::Key
    &&& p == punct(',') ==> (t.0 == TokenKind::Key <==> in_object(open))
    &&& (p == punct(':') || p == punct('[')) ==> t.0 == TokenKind::StringVal
}

proof fn lemma_brackets_front(open: Seq<bool>, t: (TokenKind, Seq<char>), xs: Seq<(TokenKind, Seq<char>)>)
    ensures
        brackets_through(open, seq![t] + xs) == brackets_through(brackets_after(open, t), xs),
    decreases xs.len(),
{
    if xs.len() == 0 {
        assert(seq![t] + xs =~= seq![t]);
        assert(seq![t].drop_last() =~= Seq::<(TokenKind, Seq<char>)>::empty());
        assert(brackets_through(open, seq![t].drop_last()) == open);
        assert(seq![t].last() == t);
        assert(brackets_through(brackets_after(open, t), xs) == brackets_after(open, t));
    } else {
        lemma_brackets_front(open, t, xs.drop_last());
        assert((seq![t] + xs).drop_last() =~= seq![t] + xs.drop_last());
        assert((seq![t] + xs).last() == xs.last());
    }
}

/// What one step of the scan does to the classing state, seen from its
/// token.
proof fn lemma_step_classes(s: Seq<char>, st: JsonScan)
    requires
        0 <= st.pos,
    ensures
        json_step(s, st) matches Some((t, next)) ==> {
            &&& is_string_token(t) ==> (t.0 == TokenKind::Key <==> st.expect_key)
            &&& is_blank_token(t) ==> next.expect_key == st.expect_key
            &&& next.stack == brackets_after(st.stack, t)
            &&& t == punct('{') ==> next.expect_key
            &&& t == punct(',') ==> next.expect_key == in_object(st.stack)
            &&& (t == punct(':') || t == punct('[')) ==> !next.expect_key
        },
{
    let i = st.pos;
    if 0 <= i < s.len() {
        let c = s[i];
        if is_space(c) {
            let j = space_run_end(s, i);
            lemma_run_ends(s, i);
            let t1 = s.subrange(i, j);
            assert(t1.len() > 0 && t1[0] == c);
            assert(t1 != seq!['{'] && t1 != seq!['['] && t1 != seq!['}'] && t1 != seq![']']) by {
                if t1 == seq!['{'] { assert(t1[0] == '{'); }
                if t1 == seq!['['] { assert(t1[0] == '['); }
                if t1 == seq!['}'] { assert(t1[0] == '}'); }
                if t1 == seq![']'] { assert(t1[0] == ']'); }
            }
        } else {
            let one = seq![c];
            assert(one[0] == c);
            assert(one == seq!['{'] ==> c == '{') by {
                if one == seq!['{'] { assert(seq!['{'][0] == '{'); }
            }
            assert(one == seq!['['] ==> c == '[') by {
                if one == seq!['['] { assert(seq!['['][0] == '['); }
            }
            assert(one == seq!['}'] ==> c == '}') by {
                if one == seq!['}'] { assert(seq!['}'][0] == '}'); }
            }
            assert(one == seq![']'] ==> c == ']') by {
                if one == seq![']'] { assert(seq![']'][0] == ']'); }
            }
            assert(one == seq![','] ==> c == ',') by {
                if one == seq![','] { assert(seq![','][0] == ','); }
            }
            assert(one == seq![':'] ==> c == ':') by {
                if one == seq![':'] { assert(seq![':'][0] == ':'); }
            }
        }
    }
}

/// Strings among the tokens are classed as their position asks, given
/// whether a string first would be a key and the brackets open before.
pub open spec fn classes_fit(
    ts: Seq<(TokenKind, Seq<char>)>,
    expect_key: bool,
    open: Seq<bool>,
) -> bool {
    &&& forall|i: int|
        0 <= i < ts.len() && blanks_between(ts, 0, i) && is_string_token(#[trigger] ts[i]) ==> (
        ts[i].0 == TokenKind::Key <==> expect_key)
    &&& forall|j: int, i: int|
        0 <= j < i < ts.len() && blanks_between(ts, j + 1, i) && is_string_token(#[trigger] ts[i])
            ==> string_class_fits(#[trigger] ts[j], brackets_through(open, ts.take(j)), ts[i])
}

/// Blank tokens of a run with a token in front are blank in the run.
proof fn lemma_blanks_shift(t: (TokenKind, Seq<char>), rest: Seq<(TokenKind, Seq<char>)>, a: int, b: int)
    requires
        1 <= a,
        b <= rest.len() + 1,
        blanks_between(seq![t] + rest, a, b),
    ensures
        blanks_between(rest, a - 1, b - 1),
{
    let ts = seq![t] + rest;
    assert forall|k: int| a - 1 <= k < b - 1 implies is_blank_token(#[trigger] rest[k]) by {
        assert(rest[k] == ts[k + 1]);
    }
}

/// The classing of a string right after the token in front.
proof fn lemma_classes_pair_first(
    t: (TokenKind, Seq<char>),
    open: Seq<bool>,
    e2: bool,
    u: (TokenKind, Seq<char>),
)
    requires
        is_string_token(u),
        u.0 == TokenKind::Key <==> e2,
        t == punct('{') ==> e2,
        t == punct(',') ==> e2 == in_object(open),
        (t == punct(':') || t == punct('[')) ==> !e2,
    ensures
        string_class_fits(t, open, u),
{
}

proof fn lemma_classes_cons(
    t: (TokenKind, Seq<char>),
    rest: Seq<(TokenKind, Seq<char>)>,
    e: bool,
    open: Seq<bool>,
    e2: bool,
    open2: Seq<bool>,
)
    requires
        classes_fit(rest, e2, open2),
        is_string_token(t) ==> (t.0 == TokenKind::Key <==> e),
        is_blank_token(t) ==> e2 == e,
        open2 == brackets_after(open, t),
        t == punct('{') ==> e2,
        t == punct(',') ==> e2 == in_object(open),
        (t == punct(':') || t == punct('[')) ==> !e2,
    ensures
        classes_fit(seq![t] + rest, e, open),
{
    let ts = seq![t] + rest;
    assert forall|i: int|
        0 <= i < ts.len() && blanks_between(ts, 0, i) && is_string_token(#[trigger] ts[i]) implies (
    ts[i].0 == TokenKind::Key <==> e) by {
        if i > 0 {
            assert(ts[0] == t);
            assert(is_blank_token(ts[0]));
            assert(ts[i] == rest[i - 1]);
            lemma_blanks_shift(t, rest, 1, i);
        }
    }
    assert forall|j: int, i: int|
        0 <= j < i < ts.len() && blanks_between(ts, j + 1, i) && is_string_token(#[trigger] ts[i])
            implies string_class_fits(#[trigger] ts[j], brackets_through(open, ts.take(j)), ts[i]) by {
        assert(ts[i] == rest[i - 1]);
        lemma_blanks_shift(t, rest, j + 1, i);
        if j == 0 {
            assert(ts[0] == t);
            assert(ts.take(0) =~= Seq::<(TokenKind, Seq<char>)>::empty());
            assert(brackets_through(open, ts.take(0)) == open);
            assert(rest[i - 1].0 == TokenKind::Key <==> e2);
            lemma_classes_pair_first(t, open, e2, rest[i - 1]);
        } else {
            assert(ts[j] == rest[j - 1]);
            assert(ts.take(j) =~= seq![t] + rest.take(j - 1));
            lemma_brackets_front(open, t, rest.take(j - 1));
            assert(string_class_fits(
                rest[j - 1],
                brackets_through(open2, rest.take(j - 1)),
                rest[i - 1],
            ));
        }
    }
}

proof fn lemma_string_classes(s: Seq<char>, st: JsonScan)
    requires
        0 <= st.pos <= s.len(),
    ensures
        classes_fit(json_tokens_from(s, st), st.expect_key, st.stack),
    decreases s.len() - st.pos,
{
    lemma_step_advances(s, st);
    lemma_step_classes(s, st);
    match json_step(s, st) {
        Some((t, next)) => {
            if st.pos < next.pos <= s.len() {
                lemma_string_classes(s, next);
                let rest = json_tokens_from(s, next);
                assert(json_tokens_from(s, st) == seq![t] + rest);
                lemma_classes_cons(t, rest, st.expect_key, st.stack, next.expect_key, next.stack);
            }
        },
        None => {},
    }
}

/// What a token's first character says of its kind: string literals start
/// with `"`, numbers with `-` or a digit, booleans with `t` or `f`, `null`
/// with `n`; everything else is punctuation or whitespace.
pub open spec fn kind_fits_text(t: (TokenKind, Seq<char>)) -> bool {
    &&& t.1.len() > 0
    &&& is_string_token(t) <==> t.1[0] == '"'
    &&& t.0 == TokenKind::Number <==> (t.1[0] == '-' || ('0' <= t.1[0] <= '9'))
    &&& t.0 == TokenKind::Bool <==> (t.1[0] == 't' || t.1[0] == 'f')
    &&& t.0 == TokenKind::Null <==> t.1[0] == 'n'
}

proof fn lemma_token_kinds(s: Seq<char>, st: JsonScan)
    requires
        0 <= st.pos <= s.len(),
    ensures
        forall|i: int|
            0 <= i < json_tokens_from(s, st).len() ==> kind_fits_text(
                #[trigger] json_tokens_from(s, st)[i],
            ),
    decreases s.len() - st.pos,
{
    lemma_step_advances(s, st);
    lemma_step_text(s, st);
    match json_step(s, st) {
        Some((t, next)) => {
            if st.pos < next.pos <= s.len() {
                lemma_token_kinds(s, next);
                let i0 = st.pos;
                assert(t.1[0] == s[i0]);
                let rest = json_tokens_from(s, next);
                let all = seq![t] + rest;
                assert forall|i: int| 0 <= i < all.len() implies kind_fits_text(#[trigger] all[i]) by {
                    if i > 0 {
                        assert(all[i] == rest[i - 1]);
                    }
                }
            }
        },
        None => {},
    }
}

/// Every token of the viewer has the kind its first character gives: a
/// string literal is a key or a string value, a number a number, `true`
/// and `false` booleans, `null` null, and nothing else gets a value class.
pub proof fn law_json_token_kinds(s: Seq<char>)
    ensures
        forall|i: int| 0 <= i < json_tokens(s).len() ==> kind_fits_text(#[trigger] json_tokens(s)[i]),
{
    lemma_token_kinds(s, json_start());
}

/// Each kind of token is shown with its own class: keys `json-key`, string
/// values `json-string`, numbers `json-number`, booleans and `null`
/// `json-keyword`; punctuation and whitespace carry no span. The text is
/// escaped in every case.
pub proof fn law_json_token_classes(t: (TokenKind, Seq<char>))
    ensures
        t.0 == TokenKind::Key ==> token_html(t) == "<span class=\"json-key\">"@ + escaped(t.1)
            + "</span>"@,
        t.0 == TokenKind::StringVal ==> token_html(t) == "<span class=\"json-string\">"@ + escaped(
            t.1,
        ) + "</span>"@,
        t.0 == TokenKind::Number ==> token_html(t) == "<span class=\"json-number\">"@ + escaped(
            t.1,
        ) + "</span>"@,
        (t.0 == TokenKind::Bool || t.0 == TokenKind::Null) ==> token_html(t)
            == "<span class=\"json-keyword\">"@ + escaped(t.1) + "</span>"@,
        t.0 == TokenKind::Punct ==> token_html(t) == escaped(t.1),
{
}

/// The viewer tells object keys from string values by where a string
/// stands: a string that follows `{`, or follows `,` while the innermost
/// open bracket is an object's, is marked as a key; one that follows `,`
/// inside an array, follows `:` or `[`, or comes first, is marked as a
/// value (whitespace between them aside).
pub proof fn law_json_keys_by_position(s: Seq<char>)
    ensures
        ({
            let ts = json_tokens(s);
            &&& forall|i: int|
                0 <= i < ts.len() && blanks_between(ts, 0, i) && is_string_token(#[trigger] ts[i])
                    ==> ts[i].0 == TokenKind::StringVal
            &&& forall|j: int, i: int|
                0 <= j < i < ts.len() && blanks_between(ts, j + 1, i) && is_string_token(
                    #[trigger] ts[i],
                ) ==> string_class_fits(
                    #[trigger] ts[j],
                    brackets_through(seq![], ts.take(j)),
                    ts[i],
                )
        }),
{
    lemma_string_classes(s, json_start());
}

/// The viewer's HTML with its span tags cut out: each opening
/// `<span class="json-...">` (up to its `>`) and each `</span>`.
pub open spec fn without_spans(h: Seq<char>) -> Seq<char>
    decreases h.len(),
{
    if h.len() == 0 {
        seq![]
    } else if starts_with(h, "</span>"@) {
        proof {
            reveal_strlit("</span>");
        }
        without_spans(h.skip(7))
    } else if starts_with(h, "<span class=\"json-"@) && find_char(h, '>', 0) < h.len() {
        proof {
            crate::text::lemma_find_char(h, '>', 0);
        }
        without_spans(h.skip(find_char(h, '>', 0) + 1))
    } else {
        seq![h[0]] + without_spans(h.drop_first())
    }
}

/// Text without `<` in front passes through the cut.
proof fn lemma_without_spans_plain(x: Seq<char>, y: Seq<char>)
    requires
        forall|i: int| 0 <= i < x.len() ==> x[i] != '<',
    ensures
        without_spans(x + y) == x + without_spans(y),
    decreases x.len(),
{
    if x.len() > 0 {
        let h = x + y;
        assert(h[0] == x[0]);
        assert(!starts_with(h, "</span>"@)) by {
            reveal_strlit("</span>");
            if starts_with(h, "</span>"@) {
                assert(h.subrange(0, 7)[0] == h[0]);
            }
        }
        assert(!starts_with(h, "<span class=\"json-"@)) by {
            reveal_strlit("<span class=\"json-");
            if starts_with(h, "<span class=\"json-"@) {
                assert(h.subrange(0, 18)[0] == h[0]);
            }
        }
        lemma_without_spans_plain(x.drop_first(), y);
        assert(h.drop_first() =~= x.drop_first() + y);
        assert(seq![x[0]] + (x.drop_first() + without_spans(y)) =~= x + without_spans(y));
    }
}

/// A span of the viewer: its opening tag, escaped text and closing tag
/// leave only the escaped text.
proof fn lemma_without_span(open: Seq<char>, x: Seq<char>, y: Seq<char>)
    requires
        open.len() >= 19,
        starts_with(open, "<span class=\"json-"@),
        open.last() == '>',
        forall|i: int| 0 <= i < open.len() - 1 ==> open[i] != '>',
        forall|i: int| 0 <= i < x.len() ==> x[i] != '<',
    ensures
        without_spans(open + x + "</span>"@ + y) == x + without_spans(y),
{
    reveal_strlit("</span>");
    reveal_strlit("<span class=\"json-");
    let h = open + x + "</span>"@ + y;
    let n = open.len() as int;
    assert(h.subrange(0, 18) =~= open.subrange(0, 18));
    assert(starts_with(h, "<span class=\"json-"@));
    assert(!starts_with(h, "</span>"@)) by {
        assert(h.subrange(0, 7)[1] == h[1]);
        assert(open.subrange(0, 18)[1] == open[1]);
    }
    assert forall|j: int| 0 <= j < n - 1 implies h[j] != '>' by {
        assert(h[j] == open[j]);
    }
    assert(h[n - 1] == open[n - 1]);
    lemma_find_char_upto(h, '>', 0, n - 1);
    let rest = x + ("</span>"@ + y);
    assert(h.skip(n) =~= rest);
    lemma_without_spans_plain(x, "</span>"@ + y);
    let c = "</span>"@ + y;
    assert(c.subrange(0, 7) =~= "</span>"@);
    assert(c.skip(7) =~= y);
}

proof fn lemma_without_token(t: (TokenKind, Seq<char>), y: Seq<char>)
    ensures
        without_spans(token_html(t) + y) == escaped(t.1) + without_spans(y),
{
    lemma_escaped_lacks(t.1);
    let e = escaped(t.1);
    match t.0 {
        TokenKind::Punct => {
            lemma_without_spans_plain(e, y);
        },
        _ => {
            let open = match t.0 {
                TokenKind::Key => "<span class=\"json-key\">"@,
                TokenKind::StringVal => "<span class=\"json-string\">"@,
                TokenKind::Number => "<span class=\"json-number\">"@,
                _ => "<span class=\"json-keyword\">"@,
            };
            reveal_strlit("<span class=\"json-key\">");
            reveal_strlit("<span class=\"json-string\">");
            reveal_strlit("<span class=\"json-number\">");
            reveal_strlit("<span class=\"json-keyword\">");
            reveal_strlit("<span class=\"json-");
            assert(open.subrange(0, 18) =~= "<span class=\"json-"@);
            assert(token_html(t) == open + e + "</span>"@);
            lemma_without_span(open, e, y);
        },
    }
}

proof fn lemma_without_tokens(ts: Seq<(TokenKind, Seq<char>)>, y: Seq<char>)
    ensures
        without_spans(tokens_html(ts) + y) == escaped(tokens_text(ts)) + without_spans(y),
    decreases ts.len(),
{
    if ts.len() == 0 {
        assert(tokens_html(ts) + y =~= y);
    } else {
        let front = ts.drop_last();
        let t = ts.last();
        lemma_without_token(t, y);
        lemma_without_tokens(front, token_html(t) + y);
        assert(tokens_html(ts) + y =~= tokens_html(front) + (token_html(t) + y));
        lemma_tokens_text_push(front, t);
        assert(front.push(t) =~= ts);
        lemma_escaped_concat(tokens_text(front), t.1);
    }
}

proof fn lemma_tokens_text_push(ts: Seq<(TokenKind, Seq<char>)>, t: (TokenKind, Seq<char>))
    ensures
        tokens_text(ts.push(t)) == tokens_text(ts) + t.1,
    decreases ts.len(),
{
    if ts.len() == 0 {
        assert(ts.push(t).drop_first() =~= Seq::<(TokenKind, Seq<char>)>::empty());
        assert(ts.push(t)[0] == t);
        assert(t.1 + Seq::<char>::empty() =~= t.1);
        assert(tokens_text(ts) =~= Seq::<char>::empty());
        assert(tokens_text(ts.push(t).drop_first()) =~= Seq::<char>::empty());
    } else {
        lemma_tokens_text_push(ts.drop_first(), t);
        assert(ts.push(t).drop_first() =~= ts.drop_first().push(t));
        assert(ts.push(t)[0] == ts[0]);
        assert(tokens_text(ts.push(t)) == ts[0].1 + tokens_text(ts.push(t).drop_first()));
        assert(ts[0].1 + (tokens_text(ts.drop_first()) + t.1) =~= ts[0].1 + tokens_text(
            ts.drop_first(),
        ) + t.1);
    }
}

/// What the viewer shows of a text, once its span tags are cut out, is
/// the text escaped; read back, it is the text itself.
pub proof fn law_json_viewer_shows_text(p: Seq<char>)
    ensures
        json_html(p) == "<pre class=\"json-viewer\"><code>"@ + tokens_html(json_tokens(p))
            + "</code></pre>"@,
        without_spans(tokens_html(json_tokens(p))) == escaped(p),
        unescaped(without_spans(tokens_html(json_tokens(p)))) == p,
{
    let e = Seq::<char>::empty();
    lemma_without_tokens(json_tokens(p), e);
    assert(tokens_html(json_tokens(p)) + e =~= tokens_html(json_tokens(p)));
    law_json_tokens_cover_text(p);
    assert(without_spans(e) == e);
    assert(escaped(p) + e =~= escaped(p));
    law_unescape_escape(p);
}

/// What `serde_json` makes of a text: `to_string_pretty` of the value that
/// `from_str` parses from it, or `None` when parsing or printing fails.
pub uninterp spec fn json_reformatted(content: Seq<char>) -> Option<Seq<char>>;

/// Parses the text with `serde_json::from_str` into a `serde_json::Value`
/// and prints it with `serde_json::to_string_pretty`. The result is taken
/// to be a function of the text, named `json_reformatted`; nothing more is
/// claimed of it.
#[verifier::external_body]
fn reformat_json(content: &str) -> (r: Option<String>)
    ensures
        match r {
            Some(p) => json_reformatted(content@) == Some(p@),
            None => json_reformatted(content@) is None,
        },
{
    match serde_json::from_str::<serde_json::Value>(content) {
        Ok(value) => serde_json::to_string_pretty(&value).ok(),
        Err(_) => None,
    }
}

/// Renders JSON text as the viewer's HTML: one span per key, string,
/// number or keyword, punctuation and whitespace escaped as they are.
pub fn render_json_tokens(pretty: &str) -> (r: String)
    ensures
        r@ == json_html(pretty@),
{
    let mut tok = JsonTokenizer::new(pretty);
    let ghost s = tok.text();
    let mut out: Vec<char> = Vec::new();
    push_str(&mut out, "<pre class=\"json-viewer\"><code>");
    let ghost head = out@;
    let ghost mut done: Seq<(TokenKind, Seq<char>)> = seq![];
    assert(head + tokens_html(done) =~= head);
    loop
        invariant_except_break
            tok.wf(),
            tok.text() == s,
            0 <= tok.state().pos,
            done + json_tokens_from(s, tok.state()) == json_tokens(s),
            out@ == head + tokens_html(done),
        invariant
            s == pretty@,
            head == "<pre class=\"json-viewer\"><code>"@,
        ensures
            out@ == head + tokens_html(json_tokens(s)),
        decreases s.len() - tok.state().pos,
    {
        let ghost st = tok.state();
        proof {
            lemma_step_advances(s, st);
        }
        match tok.next_token() {
            Some(t) => {
                let ghost tv = (t.kind, t.text@);
                let ghost before = out@;
                let safe = {
                    let chars = str_to_chars(t.text.as_str());
                    escape_chars(&chars)
                };
                match t.kind {
                    TokenKind::Key => {
                        push_str(&mut out, "<span class=\"json-key\">");
                        push_all(&mut out, &safe);
                        push_str(&mut out, "</span>");
                    },
                    TokenKind::StringVal => {
                        push_str(&mut out, "<span class=\"json-string\">");
                        push_all(&mut out, &safe);
                        push_str(&mut out, "</span>");
                    },
                    TokenKind::Number => {
                        push_str(&mut out, "<span class=\"json-number\">");
                        push_all(&mut out, &safe);
                        push_str(&mut out, "</span>");
                    },
                    TokenKind::Bool | TokenKind::Null => {
                        push_str(&mut out, "<span class=\"json-keyword\">");
                        push_all(&mut out, &safe);
                        push_str(&mut out, "</span>");
                    },
                    TokenKind::Punct => {
                        push_all(&mut out, &safe);
                    },
                }
                proof {
                    assert(out@ =~= before + token_html(tv));
                    assert(json_tokens_from(s, st) == seq![tv] + json_tokens_from(s, tok.state()));
                    let nd = done.push(tv);
                    assert(nd.drop_last() =~= done);
                    assert(done + json_tokens_from(s, st) =~= nd + json_tokens_from(s, tok.state()));
                    done = nd;
                }
            },
            None => {
                assert(json_tokens_from(s, st) == Seq::<(TokenKind, Seq<char>)>::empty());
                assert(done + Seq::<(TokenKind, Seq<char>)>::empty() =~= done);
                assert(done =~= json_tokens(s));
                break;
            },
        }
    }
    push_str(&mut out, "</code></pre>");
    chars_to_string(&out)
}

/// Renders a JSON file for the viewer: the text is pretty-printed by
/// `serde_json` when it parses, and shown as it is otherwise.
pub fn render_json_html(content: &str) -> (r: String)
    ensures
        r@ == json_html(
            match json_reformatted(content@) {
                Some(p) => p,
                None => content@,
            },
        ),
{
    match reformat_json(content) {
        Some(p) => render_json_tokens(p.as_str()),
        None => render_json_tokens(content),
    }
}

} // verus!
