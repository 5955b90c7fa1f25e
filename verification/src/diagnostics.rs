//! Classification of a failed start attempt from the child's stderr text.
//!
//! A conforming child reports a failure to bind its port with a structured
//! line `... BIND_ERROR ... code=<code> ...`. When such a line is present,
//! the code decides; otherwise the text is searched for address-in-use
//! phrasing. A bind conflict on the mandatory first attempt is the one
//! failure that falls back to an ephemeral port instead of aborting.

use crate::buffer::spec_is_ws;
use crate::text::{
    chars_to_string, contains_seq, eq_ignore_ascii_case, spec_contains,
    spec_eq_ignore_ascii_case, spec_lower, str_to_chars, subvec, to_ascii_lowercase,
};
use vstd::prelude::*;

verus! {

/// Index of the first occurrence of `c`, or -1 when `c` does not occur.
pub open spec fn spec_find(s: Seq<char>, c: char) -> int
    decreases s.len(),
{
    if s.len() == 0 {
        -1
    } else if s[0] == c {
        0
    } else {
        let r = spec_find(s.drop_first(), c);
        if r == -1 {
            -1
        } else {
            r + 1
        }
    }
}

pub proof fn lemma_find_is_first(s: Seq<char>, c: char)
    ensures
        -1 <= spec_find(s, c) < s.len(),
        spec_find(s, c) >= 0 ==> s[spec_find(s, c)] == c && (forall|j: int|
            0 <= j < spec_find(s, c) ==> s[j] != c),
        spec_find(s, c) == -1 ==> forall|j: int| 0 <= j < s.len() ==> s[j] != c,
    decreases s.len(),
{
    if s.len() > 0 && s[0] != c {
        lemma_find_is_first(s.drop_first(), c);
        let r1 = spec_find(s.drop_first(), c);
        if r1 >= 0 {
            assert(s[r1 + 1] == s.drop_first()[r1]);
            assert forall|j: int| 0 <= j < r1 + 1 implies s[j] != c by {
                if j > 0 {
                    assert(s[j] == s.drop_first()[j - 1]);
                }
            };
        } else {
            assert forall|j: int| 0 <= j < s.len() implies s[j] != c by {
                if j > 0 {
                    assert(s[j] == s.drop_first()[j - 1]);
                }
            };
        }
    }
}

/// Index of the first whitespace character, or the length when none occurs.
pub open spec fn spec_find_ws(s: Seq<char>) -> int
    decreases s.len(),
{
    if s.len() == 0 {
        0
    } else if spec_is_ws(s[0]) {
        0
    } else {
        1 + spec_find_ws(s.drop_first())
    }
}

pub proof fn lemma_find_ws_is_first(s: Seq<char>)
    ensures
        0 <= spec_find_ws(s) <= s.len(),
        spec_find_ws(s) < s.len() ==> spec_is_ws(s[spec_find_ws(s)]),
        forall|j: int| 0 <= j < spec_find_ws(s) ==> !spec_is_ws(s[j]),
    decreases s.len(),
{
    if s.len() > 0 && !spec_is_ws(s[0]) {
        lemma_find_ws_is_first(s.drop_first());
        let r1 = spec_find_ws(s.drop_first());
        if r1 < s.len() - 1 {
            assert(s[r1 + 1] == s.drop_first()[r1]);
        }
        assert forall|j: int| 0 <= j < r1 + 1 implies !spec_is_ws(s[j]) by {
            if j > 0 {
                assert(s[j] == s.drop_first()[j - 1]);
            }
        };
    }
}

/// Index of the last occurrence of `c`, or -1 when `c` does not occur.
pub open spec fn spec_rfind(s: Seq<char>, c: char) -> int
    decreases s.len(),
{
    if s.len() == 0 {
        -1
    } else if s.last() == c {
        s.len() - 1
    } else {
        spec_rfind(s.drop_last(), c)
    }
}

pub proof fn lemma_rfind_is_last(s: Seq<char>, c: char)
    ensures
        -1 <= spec_rfind(s, c) < s.len(),
        spec_rfind(s, c) >= 0 ==> s[spec_rfind(s, c)] == c && (forall|j: int|
            spec_rfind(s, c) < j < s.len() ==> s[j] != c),
        spec_rfind(s, c) == -1 ==> forall|j: int| 0 <= j < s.len() ==> s[j] != c,
    decreases s.len(),
{
    if s.len() > 0 && s.last() != c {
        lemma_rfind_is_last(s.drop_last(), c);
        let r1 = spec_rfind(s.drop_last(), c);
        assert(s[s.len() - 1] == s.last());
        if r1 >= 0 {
            assert(s[r1] == s.drop_last()[r1]);
            assert forall|j: int| r1 < j < s.len() implies s[j] != c by {
                if j < s.len() - 1 {
                    assert(s[j] == s.drop_last()[j]);
                }
            };
        } else {
            assert forall|j: int| 0 <= j < s.len() implies s[j] != c by {
                if j < s.len() - 1 {
                    assert(s[j] == s.drop_last()[j]);
                }
            };
        }
    }
}

/// Whether the character separates values in a structured diagnostic token.
pub open spec fn spec_is_sep(c: char) -> bool {
    c == ',' || c == ';'
}

/// The sequence with separator characters removed from its end.
pub open spec fn spec_trim_seps_end(s: Seq<char>) -> Seq<char>
    decreases s.len(),
{
    if s.len() > 0 && spec_is_sep(s.last()) {
        spec_trim_seps_end(s.drop_last())
    } else {
        s
    }
}

/// The sequence with separator characters removed from its start.
pub open spec fn spec_trim_seps_start(s: Seq<char>) -> Seq<char>
    decreases s.len(),
{
    if s.len() > 0 && spec_is_sep(s[0]) {
        spec_trim_seps_start(s.drop_first())
    } else {
        s
    }
}

/// The sequence with separator characters removed from both ends.
pub open spec fn spec_trim_seps(s: Seq<char>) -> Seq<char> {
    spec_trim_seps_start(spec_trim_seps_end(s))
}

fn is_sep(c: char) -> (r: bool)
    ensures
        r == spec_is_sep(c),
{
    c == ',' || c == ';'
}

fn trim_seps(v: &Vec<char>) -> (r: Vec<char>)
    ensures
        r@ == spec_trim_seps(v@),
{
    let mut end: Vec<char> = subvec(v, 0, v.len());
    assert(end@ =~= v@);
    while end.len() > 0 && is_sep(end[end.len() - 1])
        invariant
            spec_trim_seps_end(end@) == spec_trim_seps_end(v@),
        decreases end.len(),
    {
        assert(end@.last() == end@[end@.len() - 1]);
        end.pop();
    }
    let mut start: usize = 0;
    assert(end@.skip(0) =~= end@);
    while start < end.len() && is_sep(end[start])
        invariant
            start <= end@.len(),
            spec_trim_seps_start(end@.skip(start as int)) == spec_trim_seps_start(end@),
        decreases end.len() - start,
    {
        proof {
            assert(end@.skip(start as int).drop_first() =~= end@.skip(start + 1));
        }
        start = start + 1;
    }
    let r = subvec(&end, start, end.len());
    proof {
        assert(end@.subrange(start as int, end@.len() as int) =~= end@.skip(start as int));
        assert(end@.skip(start as int) == spec_trim_seps_start(end@));
    }
    r
}

fn ws_end_from(v: &Vec<char>, pos: usize) -> (r: usize)
    requires
        pos <= v@.len(),
    ensures
        pos <= r <= v@.len(),
        r - pos == spec_find_ws(v@.skip(pos as int)),
{
    let mut i: usize = pos;
    while i < v.len() && !is_ws_char(v[i])
        invariant
            pos <= i <= v@.len(),
            forall|j: int| pos <= j < i ==> !spec_is_ws(v@[j]),
        decreases v.len() - i,
    {
        i = i + 1;
    }
    proof {
        lemma_find_ws_is_first(v@.skip(pos as int));
        let f = spec_find_ws(v@.skip(pos as int));
        if f < i - pos {
            assert(!spec_is_ws(v@[pos + f]));
            assert(v@.skip(pos as int)[f] == v@[pos + f]);
        }
        if f > i - pos {
            assert(i < v@.len());
            assert(!spec_is_ws(v@.skip(pos as int)[i - pos]));
        }
    }
    i
}

fn is_ws_char(c: char) -> (r: bool)
    ensures
        r == spec_is_ws(c),
{
    let u = c as u32;
    u == 0x09 || u == 0x0A || u == 0x0B || u == 0x0C || u == 0x0D || u == 0x20 || u == 0x85 || u
        == 0xA0 || u == 0x1680 || (0x2000 <= u && u <= 0x200A) || u == 0x2028 || u == 0x2029 || u
        == 0x202F || u == 0x205F || u == 0x3000
}

fn find_eq(v: &Vec<char>) -> (r: usize)
    ensures
        r <= v@.len(),
        r < v@.len() ==> r == spec_find(v@, '='),
        r == v@.len() ==> spec_find(v@, '=') == -1,
{
    let mut i: usize = 0;
    while i < v.len() && v[i] != '='
        invariant
            i <= v@.len(),
            forall|j: int| 0 <= j < i ==> v@[j] != '=',
        decreases v.len() - i,
    {
        i = i + 1;
    }
    proof {
        lemma_find_is_first(v@, '=');
    }
    i
}

/// The code carried by a structured `key=value` token: the value, with
/// stray separators trimmed, when the key is `code` in any letter case.
pub open spec fn spec_code_of_token(tok: Seq<char>) -> Option<Seq<char>> {
    let e = spec_find(tok, '=');
    if e == -1 {
        None
    } else if spec_eq_ignore_ascii_case(tok.take(e), "code"@) {
        Some(spec_trim_seps(tok.skip(e + 1)))
    } else {
        None
    }
}

fn code_of_token(tok: &Vec<char>) -> (r: Option<Vec<char>>)
    ensures
        match r {
            Some(code) => spec_code_of_token(tok@) == Some(code@),
            None => spec_code_of_token(tok@) is None,
        },
{
    let e = find_eq(tok);
    if e == tok.len() {
        return None;
    }
    let key = subvec(tok, 0, e);
    assert(key@ =~= tok@.take(e as int));
    if eq_ignore_ascii_case(&key, &str_to_chars("code")) {
        let val = subvec(tok, e + 1, tok.len());
        assert(val@ =~= tok@.skip(e + 1));
        Some(trim_seps(&val))
    } else {
        None
    }
}

/// The first structured code found among the whitespace-separated tokens of
/// one line.
pub open spec fn spec_code_of_line(line: Seq<char>) -> Option<Seq<char>>
    decreases line.len(),
    via spec_code_of_line_decreases
{
    if line.len() == 0 {
        None
    } else if spec_is_ws(line[0]) {
        spec_code_of_line(line.drop_first())
    } else {
        let j = spec_find_ws(line);
        let r = spec_code_of_token(line.take(j));
        if r is Some {
            r
        } else {
            spec_code_of_line(line.skip(j))
        }
    }
}

#[via_fn]
proof fn spec_code_of_line_decreases(line: Seq<char>) {
    lemma_find_ws_is_first(line);
}

fn code_of_line(line: &Vec<char>, pos: usize) -> (r: Option<Vec<char>>)
    requires
        pos <= line@.len(),
    ensures
        match r {
            Some(code) => spec_code_of_line(line@.skip(pos as int)) == Some(code@),
            None => spec_code_of_line(line@.skip(pos as int)) is None,
        },
    decreases line@.len() - pos,
{
    if pos == line.len() {
        return None;
    }
    if is_ws_char(line[pos]) {
        proof {
            assert(line@.skip(pos as int).drop_first() =~= line@.skip(pos + 1));
        }
        return code_of_line(line, pos + 1);
    }
    let j = ws_end_from(line, pos);
    let tok = subvec(line, pos, j);
    proof {
        assert(tok@ =~= line@.skip(pos as int).take(j - pos));
    }
    let r = code_of_token(&tok);
    if r.is_some() {
        return r;
    }
    proof {
        assert(j > pos) by {
            lemma_find_ws_is_first(line@.skip(pos as int));
            assert(line@.skip(pos as int)[0] == line@[pos as int]);
        }
        assert(line@.skip(pos as int).skip(j - pos) =~= line@.skip(j as int));
    }
    code_of_line(line, j)
}

/// The structured bind-error code in the stderr text, taken from the latest
/// newline-separated segment that mentions `bind_error` in any letter case
/// and carries a `code=` token.
pub open spec fn spec_bind_code(s: Seq<char>) -> Option<Seq<char>>
    decreases s.len(),
    via spec_bind_code_decreases
{
    if s.len() == 0 {
        None
    } else {
        let i = spec_rfind(s, '\n');
        let line = s.skip(i + 1);
        let r = if spec_contains(spec_lower(line), "bind_error"@) {
            spec_code_of_line(line)
        } else {
            None
        };
        if r is Some {
            r
        } else if i == -1 {
            None
        } else {
            spec_bind_code(s.take(i))
        }
    }
}

#[via_fn]
proof fn spec_bind_code_decreases(s: Seq<char>) {
    lemma_rfind_is_last(s, '\n');
}

fn rfind_newline(v: &Vec<char>, end: usize) -> (r: usize)
    requires
        end <= v@.len(),
    ensures
        r <= end,
        r > 0 ==> r - 1 == spec_rfind(v@.take(end as int), '\n'),
        r == 0 ==> spec_rfind(v@.take(end as int), '\n') == -1,
{
    let mut i: usize = end;
    while i > 0 && v[i - 1] != '\n'
        invariant
            i <= end <= v@.len(),
            forall|j: int| i <= j < end ==> v@[j] != '\n',
        decreases i,
    {
        i = i - 1;
    }
    proof {
        lemma_rfind_is_last(v@.take(end as int), '\n');
        let f = spec_rfind(v@.take(end as int), '\n');
        if i > 0 {
            assert(v@.take(end as int)[i - 1] == v@[i - 1]);
            if f > i - 1 {
                assert(v@.take(end as int)[f] == v@[f]);
            }
            if f < i - 1 {
                assert(v@.take(end as int)[i - 1] != '\n');
            }
        } else {
            if f >= 0 {
                assert(v@.take(end as int)[f] == v@[f]);
            }
        }
    }
    i
}

fn bind_code_chars(v: &Vec<char>, end: usize) -> (r: Option<Vec<char>>)
    requires
        end <= v@.len(),
    ensures
        match r {
            Some(code) => spec_bind_code(v@.take(end as int)) == Some(code@),
            None => spec_bind_code(v@.take(end as int)) is None,
        },
    decreases end,
{
    if end == 0 {
        return None;
    }
    let nl = rfind_newline(v, end);
    let line = subvec(v, nl, end);
    proof {
        assert(line@ =~= v@.take(end as int).skip(
            spec_rfind(v@.take(end as int), '\n') + 1,
        ));
    }
    let lower_line = to_ascii_lowercase(&line);
    let r: Option<Vec<char>> = if contains_seq(&lower_line, &str_to_chars("bind_error")) {
        code_of_line(&line, 0)
    } else {
        None
    };
    proof {
        assert(line@.skip(0) =~= line@);
    }
    if r.is_some() {
        return r;
    }
    if nl == 0 {
        return None;
    }
    proof {
        assert(v@.take(end as int).take(nl - 1 as int) =~= v@.take(nl - 1 as int));
    }
    bind_code_chars(v, nl - 1)
}

/// Extracts the code of a structured bind-error diagnostic from the child's
/// stderr text, scanning its lines from the last backwards.
pub fn extract_structured_bind_error_code(stderr: &str) -> (r: Option<String>)
    ensures
        match r {
            Some(code) => spec_bind_code(stderr@) == Some(code@),
            None => spec_bind_code(stderr@) is None,
        },
{
    let v = str_to_chars(stderr);
    proof {
        assert(v@.take(v@.len() as int) =~= v@);
    }
    match bind_code_chars(&v, v.len()) {
        Some(code) => Some(chars_to_string(&code)),
        None => None,
    }
}

/// Whether the stderr text shows a port-bind conflict: a structured code of
/// `EADDRINUSE` or `AddrInUse` in any letter case, or, with no structured
/// code at all, address-in-use phrasing anywhere in the text.
pub open spec fn spec_is_addr_in_use(s: Seq<char>) -> bool {
    match spec_bind_code(s) {
        Some(code) => spec_eq_ignore_ascii_case(code, "EADDRINUSE"@) || spec_eq_ignore_ascii_case(
            code,
            "AddrInUse"@,
        ),
        None => spec_contains(spec_lower(s), "eaddrinuse"@) || spec_contains(
            spec_lower(s),
            "addrinuse"@,
        ) || spec_contains(spec_lower(s), "address already in use"@),
    }
}

/// Decides whether the stderr text reports a bind conflict, preferring the
/// structured code over loose text matching.
pub fn is_addr_in_use_error(stderr: &str) -> (r: bool)
    ensures
        r == spec_is_addr_in_use(stderr@),
{
    let v = str_to_chars(stderr);
    proof {
        assert(v@.take(v@.len() as int) =~= v@);
    }
    match bind_code_chars(&v, v.len()) {
        Some(code) => {
            eq_ignore_ascii_case(&code, &str_to_chars("EADDRINUSE")) || eq_ignore_ascii_case(
                &code,
                &str_to_chars("AddrInUse"),
            )
        },
        None => {
            let lower = to_ascii_lowercase(&v);
            contains_seq(&lower, &str_to_chars("eaddrinuse")) || contains_seq(
                &lower,
                &str_to_chars("addrinuse"),
            ) || contains_seq(&lower, &str_to_chars("address already in use"))
        },
    }
}

/// How a failed start attempt is classified from its stderr snapshot.
#[derive(Clone, Copy, Debug, PartialEq, Eq, Structural)]
pub enum SidecarStartupFailureKind {
    AddrInUse,
    Other,
}

/// Classifies a failed attempt: a bind conflict or anything else.
pub fn classify_startup_failure(stderr: &str) -> (r: SidecarStartupFailureKind)
    ensures
        (r is AddrInUse) == spec_is_addr_in_use(stderr@),
{
    if is_addr_in_use_error(stderr) {
        SidecarStartupFailureKind::AddrInUse
    } else {
        SidecarStartupFailureKind::Other
    }
}

/// The fallback to an ephemeral port happens exactly when the mandatory
/// first attempt failed with a bind conflict.
pub fn should_fallback_to_random_port(attempt: u8, failure_kind: SidecarStartupFailureKind) -> (r:
    bool)
    ensures
        r == (attempt == 1 && failure_kind is AddrInUse),
{
    attempt == 1 && matches!(failure_kind, SidecarStartupFailureKind::AddrInUse)
}

} // verus!
