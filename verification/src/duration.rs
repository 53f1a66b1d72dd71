//! Reading a polling interval from the command line: `2s`, `500ms`, or a
//! bare number of seconds.
use vstd::prelude::*;
use crate::text::{
    chars_to_string, copy_range, ends_with, ends_with_exec, parsed_unsigned, push_all, push_str,
    str_to_chars, trim_exec, trimmed,
};

verus! {

/// A polling interval, in whole seconds or in milliseconds.
#[derive(Debug, Clone, Copy, PartialEq, Eq, Structural)]
pub enum PollInterval {
    Seconds(u64),
    Millis(u64),
}

/// The message of the error that `str::parse::<u64>` gives a text it
/// refuses (its `Display`).
pub uninterp spec fn u64_parse_error(s: Seq<char>) -> Seq<char>;

/// Parses an unsigned 64-bit integer with `str::parse::<u64>`, turning its
/// error into the error's message. `Ok` comes exactly when the text is an
/// optional `+` and one or more ASCII digits whose value fits, and then
/// holds that value (as `u64::from_str` documents); the message of an
/// error is taken to be a function of the text, named `u64_parse_error`.
#[verifier::external_body]
fn parse_u64(s: &str) -> (r: Result<u64, String>)
    ensures
        match r {
            Ok(n) => parsed_unsigned(s@, u64::MAX as nat) == Some(n as nat),
            Err(m) => parsed_unsigned(s@, u64::MAX as nat) is None && m@ == u64_parse_error(s@),
        },
{
    s.parse::<u64>().map_err(|e| e.to_string())
}

/// The message for a text that is no duration at all.
pub open spec fn invalid_duration_message(t: Seq<char>) -> Seq<char> {
    "Invalid duration: "@ + t + ". Use e.g. '2s' or '500ms'"@
}

/// What a duration text denotes, once trimmed: `Nms` is `N` milliseconds,
/// `Ns` is `N` seconds and a bare `N` is `N` seconds, `N` being what
/// `str::parse::<u64>` accepts; `None` when the number does not parse.
pub open spec fn duration_value(s: Seq<char>) -> Option<PollInterval> {
    let t = trimmed(s);
    if ends_with(t, "ms"@) {
        match parsed_unsigned(t.subrange(0, t.len() - 2), u64::MAX as nat) {
            Some(n) => Some(PollInterval::Millis(n as u64)),
            None => None,
        }
    } else if ends_with(t, "s"@) {
        match parsed_unsigned(t.drop_last(), u64::MAX as nat) {
            Some(n) => Some(PollInterval::Seconds(n as u64)),
            None => None,
        }
    } else {
        match parsed_unsigned(t, u64::MAX as nat) {
            Some(n) => Some(PollInterval::Seconds(n as u64)),
            None => None,
        }
    }
}

/// Parses a polling interval such as `2s`, `500ms` or `3` (seconds),
/// ignoring surrounding whitespace. A number that does not parse under a
/// unit gives the parser's message for that number; a text with neither
/// unit nor number gives "Invalid duration: TEXT. Use e.g. '2s' or '500ms'".
pub fn parse_duration(s: &str) -> (r: Result<PollInterval, String>)
    ensures
        match r {
            Ok(v) => duration_value(s@) == Some(v),
            Err(msg) => {
                let t = trimmed(s@);
                &&& duration_value(s@) is None
                &&& msg@ == if ends_with(t, "ms"@) {
                    u64_parse_error(t.subrange(0, t.len() - 2))
                } else if ends_with(t, "s"@) {
                    u64_parse_error(t.drop_last())
                } else {
                    invalid_duration_message(t)
                }
            },
        },
{
    let t = trim_exec(&str_to_chars(s));
    let ms = str_to_chars("ms");
    let sec = str_to_chars("s");
    proof {
        reveal_strlit("ms");
        reveal_strlit("s");
    }
    if ends_with_exec(&t, &ms) {
        proof {
            let n = t@.len() as int;
            assert(t@.subrange(n - 2, n)[1] == 's');
            assert(t@.subrange(n - 1, n) =~= "s"@);
        }
        let digits = chars_to_string(&copy_range(&t, 0, t.len() - 2));
        match parse_u64(digits.as_str()) {
            Ok(n) => Ok(PollInterval::Millis(n)),
            Err(e) => Err(e),
        }
    } else if ends_with_exec(&t, &sec) {
        let digits = chars_to_string(&copy_range(&t, 0, t.len() - 1));
        assert(t@.subrange(0, t@.len() - 1) =~= t@.drop_last());
        match parse_u64(digits.as_str()) {
            Ok(n) => Ok(PollInterval::Seconds(n)),
            Err(e) => Err(e),
        }
    } else {
        let whole = chars_to_string(&t);
        match parse_u64(whole.as_str()) {
            Ok(n) => Ok(PollInterval::Seconds(n)),
            Err(_) => {
                let mut msg: Vec<char> = Vec::new();
                push_str(&mut msg, "Invalid duration: ");
                push_all(&mut msg, &t);
                push_str(&mut msg, ". Use e.g. '2s' or '500ms'");
                Err(chars_to_string(&msg))
            },
        }
    }
}

} // verus!
