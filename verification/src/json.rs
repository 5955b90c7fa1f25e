//! The crate's JSON text format.
//!
//! Three shapes of JSON are read or written: the encrypted credential file
//! holds one object mapping provider names to credential objects; the
//! configuration push to the child carries the same mapping inside a
//! `config_update` envelope; and the child's health endpoint answers with a
//! flat object of string fields. All three are defined here as functions
//! from values to character sequences, with serializers that produce exactly
//! that text and strict parsers whose successes are pinned to it.

use crate::text::{str_to_chars, subvec};
use vstd::prelude::*;

verus! {

/// One provider's credential, as abstract values: the name it is stored
/// under, the required API key, and the optional base URL.
pub ghost struct CredEntry {
    pub name: Seq<char>,
    pub api_key: Seq<char>,
    pub base_url: Option<Seq<char>>,
}

/// One member of a flat JSON object: a field name and a string-or-null
/// value.
pub ghost struct FieldEntry {
    pub name: Seq<char>,
    pub value: Option<Seq<char>>,
}

/// The lowercase hexadecimal digit for a value below sixteen.
pub open spec fn spec_hex_digit(d: nat) -> char {
    if d == 0 {
        '0'
    } else if d == 1 {
        '1'
    } else if d == 2 {
        '2'
    } else if d == 3 {
        '3'
    } else if d == 4 {
        '4'
    } else if d == 5 {
        '5'
    } else if d == 6 {
        '6'
    } else if d == 7 {
        '7'
    } else if d == 8 {
        '8'
    } else if d == 9 {
        '9'
    } else if d == 10 {
        'a'
    } else if d == 11 {
        'b'
    } else if d == 12 {
        'c'
    } else if d == 13 {
        'd'
    } else if d == 14 {
        'e'
    } else {
        'f'
    }
}

/// How one character appears inside a JSON string literal: quote and
/// backslash get a backslash escape, control characters a `\u00..` escape,
/// and everything else stands as itself.
pub open spec fn spec_escape_char(c: char) -> Seq<char> {
    if c == '"' {
        seq!['\\', '"']
    } else if c == '\\' {
        seq!['\\', '\\']
    } else if (c as u32) < 0x20 {
        seq!['\\', 'u', '0', '0', spec_hex_digit((c as u32 / 16) as nat), spec_hex_digit(
            (c as u32 % 16) as nat,
        )]
    } else {
        seq![c]
    }
}

/// The body of a JSON string literal for the given characters.
pub open spec fn spec_escape(s: Seq<char>) -> Seq<char>
    decreases s.len(),
{
    if s.len() == 0 {
        Seq::empty()
    } else {
        spec_escape_char(s[0]) + spec_escape(s.drop_first())
    }
}

pub proof fn lemma_escape_concat(a: Seq<char>, b: Seq<char>)
    ensures
        spec_escape(a + b) == spec_escape(a) + spec_escape(b),
    decreases a.len(),
{
    if a.len() == 0 {
        assert(a + b =~= b);
        assert(spec_escape(a) + spec_escape(b) =~= spec_escape(b));
    } else {
        assert((a + b).drop_first() =~= a.drop_first() + b);
        lemma_escape_concat(a.drop_first(), b);
        assert(spec_escape_char(a[0]) + (spec_escape(a.drop_first()) + spec_escape(b))
            =~= (spec_escape_char(a[0]) + spec_escape(a.drop_first())) + spec_escape(b));
        assert((a + b)[0] == a[0]);
    }
}

/// A JSON string literal: quote, escaped characters, quote.
pub open spec fn spec_json_string(s: Seq<char>) -> Seq<char> {
    seq!['"'] + spec_escape(s) + seq!['"']
}

/// A string-or-null value: a string literal, or the word `null`.
pub open spec fn spec_json_scalar(v: Option<Seq<char>>) -> Seq<char> {
    match v {
        Some(s) => spec_json_string(s),
        None => "null"@,
    }
}

/// One member of a flat object: `"name":value`.
pub open spec fn spec_field_json(f: FieldEntry) -> Seq<char> {
    spec_json_string(f.name) + seq![':'] + spec_json_scalar(f.value)
}

/// The members of a flat object, separated by commas.
pub open spec fn spec_fields_json(fs: Seq<FieldEntry>) -> Seq<char>
    decreases fs.len(),
{
    if fs.len() == 0 {
        Seq::empty()
    } else if fs.len() == 1 {
        spec_field_json(fs[0])
    } else {
        spec_field_json(fs[0]) + seq![','] + spec_fields_json(fs.drop_first())
    }
}

/// A flat JSON object of string-or-null fields.
pub open spec fn spec_flat_json(fs: Seq<FieldEntry>) -> Seq<char> {
    seq!['{'] + spec_fields_json(fs) + seq!['}']
}

/// One credential as stored in the credential file: the base URL member is
/// present only when a base URL is set.
pub open spec fn spec_cred_obj_json(api_key: Seq<char>, base_url: Option<Seq<char>>) -> Seq<
    char,
> {
    match base_url {
        Some(u) => "{\"apiKey\":"@ + spec_json_string(api_key) + ",\"baseUrl\":"@
            + spec_json_string(u) + seq!['}'],
        None => "{\"apiKey\":"@ + spec_json_string(api_key) + seq!['}'],
    }
}

/// One member of the credential file's top-level object.
pub open spec fn spec_cred_entry_json(e: CredEntry) -> Seq<char> {
    spec_json_string(e.name) + seq![':'] + spec_cred_obj_json(e.api_key, e.base_url)
}

/// The members of the credential file's top-level object.
pub open spec fn spec_cred_entries_json(es: Seq<CredEntry>) -> Seq<char>
    decreases es.len(),
{
    if es.len() == 0 {
        Seq::empty()
    } else if es.len() == 1 {
        spec_cred_entry_json(es[0])
    } else {
        spec_cred_entry_json(es[0]) + seq![','] + spec_cred_entries_json(es.drop_first())
    }
}

/// The credential file's plaintext: one object mapping provider names to
/// credential objects, in storage order.
pub open spec fn spec_cred_map_json(es: Seq<CredEntry>) -> Seq<char> {
    seq!['{'] + spec_cred_entries_json(es) + seq!['}']
}

/// One credential as pushed to the child: the base URL member is always
/// present, `null` when no base URL is set.
pub open spec fn spec_push_obj_json(e: CredEntry) -> Seq<char> {
    "{\"apiKey\":"@ + spec_json_string(e.api_key) + ",\"baseUrl\":"@ + spec_json_scalar(
        e.base_url,
    ) + seq!['}']
}

/// One member of the pushed configuration mapping.
pub open spec fn spec_push_entry_json(e: CredEntry) -> Seq<char> {
    spec_json_string(e.name) + seq![':'] + spec_push_obj_json(e)
}

/// The members of the pushed configuration mapping.
pub open spec fn spec_push_entries_json(es: Seq<CredEntry>) -> Seq<char>
    decreases es.len(),
{
    if es.len() == 0 {
        Seq::empty()
    } else if es.len() == 1 {
        spec_push_entry_json(es[0])
    } else {
        spec_push_entry_json(es[0]) + seq![','] + spec_push_entries_json(es.drop_first())
    }
}

/// The full `config_update` envelope pushed to the child over its input
/// stream.
pub open spec fn spec_config_update_json(es: Seq<CredEntry>) -> Seq<char> {
    "{\"type\":\"config_update\",\"configs\":{"@ + spec_push_entries_json(es) + "}}"@
}

fn hex_digit(d: u8) -> (c: char)
    requires
        d < 16,
    ensures
        c == spec_hex_digit(d as nat),
{
    match d {
        0 => '0',
        1 => '1',
        2 => '2',
        3 => '3',
        4 => '4',
        5 => '5',
        6 => '6',
        7 => '7',
        8 => '8',
        9 => '9',
        10 => 'a',
        11 => 'b',
        12 => 'c',
        13 => 'd',
        14 => 'e',
        _ => 'f',
    }
}

/// Appends the JSON string literal for `s` to `out`.
pub fn push_json_string(out: &mut Vec<char>, s: &Vec<char>)
    ensures
        final(out)@ == old(out)@ + spec_json_string(s@),
{
    out.push('"');
    let ghost mark: Seq<char> = out@;
    let mut i: usize = 0;
    while i < s.len()
        invariant
            i <= s@.len(),
            out@ == mark + spec_escape(s@.take(i as int)),
        decreases s.len() - i,
    {
        let c = s[i];
        let u = c as u32;
        if c == '"' {
            out.push('\\');
            out.push('"');
        } else if c == '\\' {
            out.push('\\');
            out.push('\\');
        } else if u < 0x20 {
            out.push('\\');
            out.push('u');
            out.push('0');
            out.push('0');
            out.push(hex_digit((u / 16) as u8));
            out.push(hex_digit((u % 16) as u8));
        } else {
            out.push(c);
        }
        proof {
            if c == '"' {
                assert(spec_escape_char(c) =~= seq!['\\', '"']);
            } else if c == '\\' {
                assert(spec_escape_char(c) =~= seq!['\\', '\\']);
            } else if u < 0x20 {
                assert(spec_escape_char(c) =~= seq!['\\', 'u', '0', '0', spec_hex_digit(
                    ((c as u32) / 16) as nat,
                ), spec_hex_digit(((c as u32) % 16) as nat)]);
            } else {
                assert(spec_escape_char(c) =~= seq![c]);
            }
            assert(out@ =~= mark + spec_escape(s@.take(i as int)) + spec_escape_char(c));
            lemma_escape_concat(s@.take(i as int), seq![c]);
            assert(s@.take(i as int) + seq![c] =~= s@.take(i + 1));
            assert(seq![c].drop_first() =~= Seq::<char>::empty());
            assert(spec_escape(Seq::<char>::empty()) =~= Seq::<char>::empty());
            assert(spec_escape(seq![c]) =~= spec_escape_char(c));
            assert(out@ =~= mark + spec_escape(s@.take(i + 1)));
        }
        i = i + 1;
    }
    out.push('"');
    proof {
        assert(s@.take(s@.len() as int) =~= s@);
        assert(final(out)@ =~= old(out)@ + spec_json_string(s@));
    }
}

/// Appends a string slice's characters to `out`.
pub fn push_str_chars(out: &mut Vec<char>, s: &str)
    ensures
        final(out)@ == old(out)@ + s@,
{
    let mut piece = str_to_chars(s);
    out.append(&mut piece);
}

/// The view of an optional owned string.
pub open spec fn opt_str_view(o: Option<String>) -> Option<Seq<char>> {
    match o {
        Some(s) => Some(s@),
        None => None,
    }
}

pub proof fn lemma_cred_entries_snoc(es: Seq<CredEntry>, e: CredEntry)
    ensures
        spec_cred_entries_json(es.push(e)) == if es.len() == 0 {
            spec_cred_entry_json(e)
        } else {
            spec_cred_entries_json(es) + seq![','] + spec_cred_entries_json(seq![e])
        },
    decreases es.len(),
{
    if es.len() == 0 {
        assert(es.push(e) =~= seq![e]);
    } else {
        assert(es.push(e).drop_first() =~= es.drop_first().push(e));
        lemma_cred_entries_snoc(es.drop_first(), e);
        if es.len() == 1 {
            assert(es.drop_first() =~= Seq::<CredEntry>::empty());
        }
    }
}

pub proof fn lemma_push_entries_snoc(es: Seq<CredEntry>, e: CredEntry)
    ensures
        spec_push_entries_json(es.push(e)) == if es.len() == 0 {
            spec_push_entry_json(e)
        } else {
            spec_push_entries_json(es) + seq![','] + spec_push_entries_json(seq![e])
        },
    decreases es.len(),
{
    if es.len() == 0 {
        assert(es.push(e) =~= seq![e]);
    } else {
        assert(es.push(e).drop_first() =~= es.drop_first().push(e));
        lemma_push_entries_snoc(es.drop_first(), e);
        if es.len() == 1 {
            assert(es.drop_first() =~= Seq::<CredEntry>::empty());
        }
    }
}

pub proof fn lemma_fields_snoc(fs: Seq<FieldEntry>, f: FieldEntry)
    ensures
        spec_fields_json(fs.push(f)) == if fs.len() == 0 {
            spec_field_json(f)
        } else {
            spec_fields_json(fs) + seq![','] + spec_fields_json(seq![f])
        },
    decreases fs.len(),
{
    if fs.len() == 0 {
        assert(fs.push(f) =~= seq![f]);
    } else {
        assert(fs.push(f).drop_first() =~= fs.drop_first().push(f));
        lemma_fields_snoc(fs.drop_first(), f);
        if fs.len() == 1 {
            assert(fs.drop_first() =~= Seq::<FieldEntry>::empty());
        }
    }
}

/// The entry a stored name and credential stand for.
pub open spec fn spec_entry_of(name: Seq<char>, api_key: Seq<char>, base_url: Option<
    Seq<char>,
>) -> CredEntry {
    CredEntry { name, api_key, base_url }
}

/// Appends one member of the credential file's top-level object.
pub fn push_cred_entry(out: &mut Vec<char>, name: &String, api_key: &String, base_url: &Option<
    String,
>)
    ensures
        final(out)@ == old(out)@ + spec_cred_entry_json(
            spec_entry_of(name@, api_key@, opt_str_view(*base_url)),
        ),
{
    let name_chars = str_to_chars(name.as_str());
    push_json_string(out, &name_chars);
    out.push(':');
    push_str_chars(out, "{\"apiKey\":");
    let api_chars = str_to_chars(api_key.as_str());
    push_json_string(out, &api_chars);
    match base_url {
        Some(u) => {
            push_str_chars(out, ",\"baseUrl\":");
            let u_chars = str_to_chars(u.as_str());
            push_json_string(out, &u_chars);
        },
        None => {},
    }
    out.push('}');
    proof {
        assert(final(out)@ =~= old(out)@ + spec_cred_entry_json(
            spec_entry_of(name@, api_key@, opt_str_view(*base_url)),
        ));
    }
}

/// Appends one member of the pushed configuration mapping, where a missing
/// base URL appears as `null`.
pub fn push_push_entry(out: &mut Vec<char>, name: &String, api_key: &String, base_url: &Option<
    String,
>)
    ensures
        final(out)@ == old(out)@ + spec_push_entry_json(
            spec_entry_of(name@, api_key@, opt_str_view(*base_url)),
        ),
{
    let name_chars = str_to_chars(name.as_str());
    push_json_string(out, &name_chars);
    out.push(':');
    push_str_chars(out, "{\"apiKey\":");
    let api_chars = str_to_chars(api_key.as_str());
    push_json_string(out, &api_chars);
    push_str_chars(out, ",\"baseUrl\":");
    match base_url {
        Some(u) => {
            let u_chars = str_to_chars(u.as_str());
            push_json_string(out, &u_chars);
        },
        None => {
            push_str_chars(out, "null");
        },
    }
    out.push('}');
    proof {
        assert(final(out)@ =~= old(out)@ + spec_push_entry_json(
            spec_entry_of(name@, api_key@, opt_str_view(*base_url)),
        ));
    }
}

fn match_lit(v: &Vec<char>, pos: usize, lit: &str) -> (r: bool)
    requires
        pos <= v@.len(),
    ensures
        r == (pos + lit@.len() <= v@.len() && v@.subrange(pos as int, pos + lit@.len()) == lit@),
{
    let l = str_to_chars(lit);
    let v_len = v.len();
    if v_len - pos < l.len() {
        return false;
    }
    let mut j: usize = 0;
    while j < l.len()
        invariant
            j <= l@.len(),
            pos + l@.len() <= v@.len(),
            v_len == v@.len(),
            l@ == lit@,
            forall|k: int| 0 <= k < j ==> v@[pos + k] == l@[k],
        decreases l.len() - j,
    {
        if v[pos + j] != l[j] {
            assert(v@.subrange(pos as int, pos + lit@.len())[j as int] != lit@[j as int]);
            return false;
        }
        j = j + 1;
    }
    proof {
        assert(v@.subrange(pos as int, pos + lit@.len()) =~= lit@);
    }
    true
}

fn hex_val(c: char) -> (r: Option<u8>)
    ensures
        match r {
            Some(d) => d < 16 && c == spec_hex_digit(d as nat),
            None => forall|d: nat| d < 16 ==> c != spec_hex_digit(d),
        },
{
    match c {
        '0' => Some(0),
        '1' => Some(1),
        '2' => Some(2),
        '3' => Some(3),
        '4' => Some(4),
        '5' => Some(5),
        '6' => Some(6),
        '7' => Some(7),
        '8' => Some(8),
        '9' => Some(9),
        'a' => Some(10),
        'b' => Some(11),
        'c' => Some(12),
        'd' => Some(13),
        'e' => Some(14),
        'f' => Some(15),
        _ => None,
    }
}

/// There is a canonical JSON string literal starting at `pos`.
pub open spec fn spec_has_string_at(v: Seq<char>, pos: int) -> bool {
    exists|x: Seq<char>, j: int|
        pos <= j <= v.len() && v.subrange(pos, j) == spec_json_string(x)
}

/// There is a canonical string-literal body (escaped characters and the
/// closing quote) starting at `i`.
spec fn spec_has_body_at(v: Seq<char>, i: int) -> bool {
    exists|x: Seq<char>, j: int|
        i <= j <= v.len() && v.subrange(i, j) == spec_escape(x) + seq!['"']
}

proof fn lemma_string_at_to_body(v: Seq<char>, pos: int)
    requires
        0 <= pos <= v.len(),
        spec_has_string_at(v, pos),
    ensures
        pos < v.len(),
        v[pos] == '"',
        spec_has_body_at(v, pos + 1),
{
    let (x, j) = choose|x: Seq<char>, j: int|
        pos <= j <= v.len() && v.subrange(pos, j) == spec_json_string(x);
    assert(v.subrange(pos, j) =~= seq!['"'] + (spec_escape(x) + seq!['"']));
    assert(v[pos] == v.subrange(pos, j)[0]);
    assert forall|k: int| 0 <= k < j - (pos + 1) implies #[trigger] v.subrange(pos + 1, j)[k]
        == (spec_escape(x) + seq!['"'])[k] by {
        assert(v.subrange(pos, j)[k + 1] == v[pos + 1 + k]);
    };
    assert(v.subrange(pos + 1, j) =~= spec_escape(x) + seq!['"']);
}

proof fn lemma_body_nonempty(v: Seq<char>, i: int)
    requires
        0 <= i <= v.len(),
        spec_has_body_at(v, i),
    ensures
        i < v.len(),
{
    let (x, j) = choose|x: Seq<char>, j: int|
        i <= j <= v.len() && v.subrange(i, j) == spec_escape(x) + seq!['"'];
    assert((spec_escape(x) + seq!['"']).len() >= 1);
}

/// With a literal body at `i` and no closing quote yet, the text at `i` is
/// the escape of the body's first character, and a body follows it.
proof fn lemma_body_unit(v: Seq<char>, i: int) -> (c: char)
    requires
        0 <= i < v.len(),
        spec_has_body_at(v, i),
        v[i] != '"',
    ensures
        1 <= spec_escape_char(c).len() <= 6,
        i + spec_escape_char(c).len() <= v.len(),
        v.subrange(i, i + spec_escape_char(c).len()) == spec_escape_char(c),
        spec_has_body_at(v, i + spec_escape_char(c).len()),
{
    let (x, j) = choose|x: Seq<char>, j: int|
        i <= j <= v.len() && v.subrange(i, j) == spec_escape(x) + seq!['"'];
    if x.len() == 0 {
        assert(v.subrange(i, j) =~= seq!['"']);
        assert(v[i] == v.subrange(i, j)[0]);
    }
    let c0 = x[0];
    lemma_escape_char_shape(c0);
    let w = spec_escape_char(c0).len();
    assert(spec_escape(x) + seq!['"'] =~= spec_escape_char(c0) + (spec_escape(x.drop_first())
        + seq!['"']));
    assert(j - i == w + (spec_escape(x.drop_first()) + seq!['"']).len());
    assert forall|k: int| 0 <= k < w implies #[trigger] v.subrange(i, i + w)[k]
        == spec_escape_char(c0)[k] by {
        assert(v.subrange(i, j)[k] == v[i + k]);
        assert(v.subrange(i, j)[k] == (spec_escape_char(c0) + (spec_escape(x.drop_first())
            + seq!['"']))[k]);
    };
    assert(v.subrange(i, i + w) =~= spec_escape_char(c0));
    assert forall|k: int| 0 <= k < j - (i + w) implies #[trigger] v.subrange(i + w, j)[k]
        == (spec_escape(x.drop_first()) + seq!['"'])[k] by {
        assert(v.subrange(i, j)[w + k] == v[i + w + k]);
        assert(v.subrange(i, j)[w + k] == (spec_escape_char(c0) + (spec_escape(x.drop_first())
            + seq!['"']))[w + k]);
    };
    assert(v.subrange(i + w, j) =~= spec_escape(x.drop_first()) + seq!['"']);
    c0
}

/// Reads one canonical JSON string literal starting at `pos`. A success
/// pins the consumed text: it is exactly the literal this module writes for
/// the returned characters; and reading is owed whenever such a literal is
/// there.
fn parse_json_string(v: &Vec<char>, pos: usize) -> (r: Option<(Vec<char>, usize)>)
    requires
        pos <= v@.len(),
    ensures
        r matches Some((s, j)) ==> pos + 2 <= j <= v@.len() && v@.subrange(pos as int, j as int)
            == spec_json_string(s@),
        spec_has_string_at(v@, pos as int) ==> r is Some,
{
    let ghost complete = spec_has_string_at(v@, pos as int);
    proof {
        if complete {
            lemma_string_at_to_body(v@, pos as int);
        }
    }
    let v_len = v.len();
    if pos >= v_len || v[pos] != '"' {
        return None;
    }
    let mut i: usize = pos + 1;
    let mut out: Vec<char> = Vec::new();
    loop
        invariant
            pos + 1 <= i <= v_len,
            v_len == v@.len(),
            pos < v@.len(),
            v@[pos as int] == '"',
            v@.subrange(pos + 1, i as int) == spec_escape(out@),
            complete == spec_has_string_at(v@, pos as int),
            complete ==> spec_has_body_at(v@, i as int),
        decreases v_len - i,
    {
        if i >= v_len {
            proof {
                if complete {
                    lemma_body_nonempty(v@, i as int);
                }
            }
            return None;
        }
        let c = v[i];
        let ghost consumed: Seq<char> = out@;
        if c == '"' {
            proof {
                assert(v@.subrange(pos as int, i + 1) =~= seq!['"'] + spec_escape(out@) + seq![
                    '"',
                ]);
            }
            return Some((out, i + 1));
        }
        if c == '\\' {
            if i + 1 >= v_len {
                proof {
                    if complete {
                        let c0 = lemma_body_unit(v@, i as int);
                        lemma_escape_char_shape(c0);
                        assert(v@[i as int] == spec_escape_char(c0)[0]);
                        assert(false);
                    }
                }
                return None;
            }
            let d = v[i + 1];
            proof {
                if complete {
                    let c0 = lemma_body_unit(v@, i as int);
                    lemma_escape_char_shape(c0);
                    assert(v@[i as int] == spec_escape_char(c0)[0]);
                    assert(c0 == '"' || c0 == '\\' || (c0 as u32) < 0x20);
                    assert(v@[i + 1] == spec_escape_char(c0)[1]);
                    if c0 == '"' {
                        assert(v@[i + 1] == '"');
                    } else if c0 == '\\' {
                        assert(v@[i + 1] == '\\');
                    } else {
                        assert(v@[i + 1] == 'u');
                        assert(v@[i + 2] == spec_escape_char(c0)[2]);
                        assert(v@[i + 3] == spec_escape_char(c0)[3]);
                        assert(v@[i + 4] == spec_hex_digit(((c0 as u32) / 16) as nat));
                        assert(v@[i + 5] == spec_hex_digit(((c0 as u32) % 16) as nat));
                    }
                }
            }
            if d == '"' {
                out.push('"');
                proof {
                    assert(v@.subrange(i as int, i + 2) =~= spec_escape_char('"'));
                    extend_escape(v@, pos as int, i as int, i + 2, consumed, '"');
                    if complete {
                        let c0 = lemma_body_unit(v@, i as int);
                        assert(v@[i + 1] == spec_escape_char(c0)[1]);
                        assert(c0 == '"');
                    }
                }
                i = i + 2;
            } else if d == '\\' {
                out.push('\\');
                proof {
                    assert(v@.subrange(i as int, i + 2) =~= spec_escape_char('\\'));
                    extend_escape(v@, pos as int, i as int, i + 2, consumed, '\\');
                    if complete {
                        let c0 = lemma_body_unit(v@, i as int);
                        assert(v@[i + 1] == spec_escape_char(c0)[1]);
                        assert(c0 == '\\');
                    }
                }
                i = i + 2;
            } else if d == 'u' {
                proof {
                    if complete {
                        let c0 = lemma_body_unit(v@, i as int);
                        assert(v@[i + 1] == spec_escape_char(c0)[1]);
                        assert((c0 as u32) < 0x20);
                        assert(spec_escape_char(c0).len() == 6);
                    }
                }
                if v_len - i < 6 {
                    return None;
                }
                if v[i + 2] != '0' || v[i + 3] != '0' {
                    return None;
                }
                let h1 = match hex_val(v[i + 4]) {
                    Some(h) => h,
                    None => {
                        return None;
                    },
                };
                let h2 = match hex_val(v[i + 5]) {
                    Some(h) => h,
                    None => {
                        return None;
                    },
                };
                let val: u8 = h1 * 16 + h2;
                proof {
                    if complete {
                        let c0 = lemma_body_unit(v@, i as int);
                        assert(v@[i + 4] == spec_hex_digit(((c0 as u32) / 16) as nat));
                        assert(v@[i + 5] == spec_hex_digit(((c0 as u32) % 16) as nat));
                        lemma_hex_digit_injective(h1 as nat, ((c0 as u32) / 16) as nat);
                        lemma_hex_digit_injective(h2 as nat, ((c0 as u32) % 16) as nat);
                        assert(val as u32 == c0 as u32);
                    }
                }
                if val >= 0x20 {
                    return None;
                }
                let c2 = val as char;
                out.push(c2);
                proof {
                    assert(c2 as u32 == val as u32);
                    assert(val as int / 16 == h1 as int && val as int % 16 == h2 as int);
                    assert(spec_escape_char(c2) =~= seq!['\\', 'u', '0', '0', spec_hex_digit(
                        ((c2 as u32) / 16) as nat,
                    ), spec_hex_digit(((c2 as u32) % 16) as nat)]);
                    assert(v@[i + 4] == spec_hex_digit(((c2 as u32) / 16) as nat));
                    assert(v@[i + 5] == spec_hex_digit(((c2 as u32) % 16) as nat));
                    assert(v@.subrange(i as int, i + 6) =~= spec_escape_char(c2));
                    extend_escape(v@, pos as int, i as int, i + 6, consumed, c2);
                    if complete {
                        let c0 = lemma_body_unit(v@, i as int);
                        assert(v@[i + 1] == spec_escape_char(c0)[1]);
                        lemma_hex_digit_injective(h1 as nat, ((c0 as u32) / 16) as nat);
                        lemma_hex_digit_injective(h2 as nat, ((c0 as u32) % 16) as nat);
                        assert(c0 as u32 == val as u32);
                        assert(c0 == c2);
                    }
                }
                i = i + 6;
            } else {
                proof {
                    if complete {
                        assert(false);
                    }
                }
                return None;
            }
        } else if (c as u32) < 0x20 {
            proof {
                if complete {
                    let c0 = lemma_body_unit(v@, i as int);
                    lemma_escape_char_shape(c0);
                    assert(v@[i as int] == spec_escape_char(c0)[0]);
                    assert(!(c0 == '"' || c0 == '\\' || (c0 as u32) < 0x20));
                    assert(c0 == c);
                    assert(false);
                }
            }
            return None;
        } else {
            out.push(c);
            proof {
                assert(v@.subrange(i as int, i + 1) =~= spec_escape_char(c));
                extend_escape(v@, pos as int, i as int, i + 1, consumed, c);
                if complete {
                    let c0 = lemma_body_unit(v@, i as int);
                    lemma_escape_char_shape(c0);
                    assert(v@[i as int] == spec_escape_char(c0)[0]);
                    assert(c0 == c);
                }
            }
            i = i + 1;
        }
    }
}

/// After reading one character's escape between `i` and `j`, the consumed
/// string-literal body is still the escaping of what was built.
proof fn extend_escape(v: Seq<char>, pos: int, i: int, j: int, consumed: Seq<char>, c: char)
    requires
        0 <= pos,
        pos + 1 <= i <= j <= v.len(),
        v.subrange(pos + 1, i) == spec_escape(consumed),
        v.subrange(i, j) == spec_escape_char(c),
    ensures
        v.subrange(pos + 1, j) == spec_escape(consumed.push(c)),
{
    broadcast use vstd::seq::group_seq_axioms;

    lemma_escape_concat(consumed, seq![c]);
    assert(seq![c].drop_first() =~= Seq::<char>::empty());
    assert(spec_escape(Seq::<char>::empty()) =~= Seq::<char>::empty());
    assert(spec_escape(seq![c]) =~= spec_escape_char(c));
    assert(consumed + seq![c] =~= consumed.push(c));
    assert forall|k: int| 0 <= k < j - (pos + 1) implies #[trigger] v.subrange(pos + 1, j)[k]
        == (v.subrange(pos + 1, i) + v.subrange(i, j))[k] by {
        if k < i - (pos + 1) {
            assert(v.subrange(pos + 1, i)[k] == v[pos + 1 + k]);
        } else {
            assert(v.subrange(i, j)[k - (i - (pos + 1))] == v[pos + 1 + k]);
        }
    };
    assert(v.subrange(pos + 1, j) =~= v.subrange(pos + 1, i) + v.subrange(i, j));
}

/// A subrange splits at any midpoint into the two adjoining subranges.
pub proof fn lemma_subrange_split(v: Seq<char>, a: int, m: int, b: int)
    requires
        0 <= a <= m <= b <= v.len(),
    ensures
        v.subrange(a, b) == v.subrange(a, m) + v.subrange(m, b),
{
    assert forall|k: int| 0 <= k < b - a implies #[trigger] v.subrange(a, b)[k] == (v.subrange(
        a,
        m,
    ) + v.subrange(m, b))[k] by {
        if k < m - a {
            assert(v.subrange(a, m)[k] == v[a + k]);
        } else {
            assert(v.subrange(m, b)[k - (m - a)] == v[a + k]);
        }
    };
    assert(v.subrange(a, b) =~= v.subrange(a, m) + v.subrange(m, b));
}

/// The view of an optional character vector.
pub open spec fn opt_chars_view(o: Option<Vec<char>>) -> Option<Seq<char>> {
    match o {
        Some(s) => Some(s@),
        None => None,
    }
}

/// A subrange equal to a concatenation splits into the two pieces.
pub proof fn lemma_subrange_extract(v: Seq<char>, a: int, b: int, x: Seq<char>, y: Seq<char>)
    requires
        0 <= a <= b <= v.len(),
        v.subrange(a, b) == x + y,
    ensures
        v.subrange(a, a + x.len()) == x,
        v.subrange(a + x.len(), b) == y,
{
    assert((x + y).len() == x.len() + y.len());
    assert forall|k: int| 0 <= k < x.len() implies #[trigger] v.subrange(a, a + x.len())[k]
        == x[k] by {
        assert(v.subrange(a, b)[k] == v[a + k]);
    };
    assert(v.subrange(a, a + x.len()) =~= x);
    assert forall|k: int| 0 <= k < y.len() implies #[trigger] v.subrange(a + x.len(), b)[k]
        == y[k] by {
        assert(v.subrange(a, b)[x.len() + k] == v[a + x.len() + k]);
    };
    assert(v.subrange(a + x.len(), b) =~= y);
}

/// A canonical credential object determines its key, base URL and end.
pub proof fn lemma_cred_obj_peel(
    a1: Seq<char>,
    u1: Option<Seq<char>>,
    x: Seq<char>,
    a2: Seq<char>,
    u2: Option<Seq<char>>,
    y: Seq<char>,
)
    requires
        spec_cred_obj_json(a1, u1) + x == spec_cred_obj_json(a2, u2) + y,
    ensures
        a1 == a2,
        u1 == u2,
        x == y,
{
    let h = "{\"apiKey\":"@;
    let m = ",\"baseUrl\":"@;
    let rest1: Seq<char> = match u1 {
        Some(u) => m + spec_json_string(u) + seq!['}'],
        None => seq!['}'],
    };
    let rest2: Seq<char> = match u2 {
        Some(u) => m + spec_json_string(u) + seq!['}'],
        None => seq!['}'],
    };
    assert(spec_cred_obj_json(a1, u1) + x =~= h + (spec_json_string(a1) + (rest1 + x)));
    assert(spec_cred_obj_json(a2, u2) + y =~= h + (spec_json_string(a2) + (rest2 + y)));
    lemma_concat_cancel(h, spec_json_string(a1) + (rest1 + x), spec_json_string(a2) + (rest2 + y));
    lemma_json_string_peel(a1, a2, rest1 + x, rest2 + y);
    reveal_strlit(",\"baseUrl\":");
    match (u1, u2) {
        (None, None) => {
            lemma_concat_cancel(seq!['}'], x, y);
        },
        (None, Some(u)) => {
            assert((rest1 + x)[0] == '}');
            assert((rest2 + y)[0] == m[0]);
            assert(false);
        },
        (Some(u), None) => {
            assert((rest2 + y)[0] == '}');
            assert((rest1 + x)[0] == m[0]);
            assert(false);
        },
        (Some(w1), Some(w2)) => {
            assert(rest1 + x =~= m + (spec_json_string(w1) + (seq!['}'] + x)));
            assert(rest2 + y =~= m + (spec_json_string(w2) + (seq!['}'] + y)));
            lemma_concat_cancel(
                m,
                spec_json_string(w1) + (seq!['}'] + x),
                spec_json_string(w2) + (seq!['}'] + y),
            );
            lemma_json_string_peel(w1, w2, seq!['}'] + x, seq!['}'] + y);
            lemma_concat_cancel(seq!['}'], x, y);
        },
    }
}

/// There is a canonical credential object starting at `pos`.
pub open spec fn spec_has_cred_obj_at(v: Seq<char>, pos: int) -> bool {
    exists|api: Seq<char>, url: Option<Seq<char>>, j: int|
        pos <= j <= v.len() && v.subrange(pos, j) == spec_cred_obj_json(api, url)
}

/// Reads one canonical credential object starting at `pos`. A success pins
/// the consumed text to exactly what this module writes for the returned
/// key and base URL; reading is owed whenever such an object is there.
#[verifier::rlimit(100)]
#[verifier::spinoff_prover]
fn parse_cred_obj(v: &Vec<char>, pos: usize) -> (r: Option<(Vec<char>, Option<Vec<char>>, usize)>)
    requires
        pos <= v@.len(),
    ensures
        r matches Some((api, url, j)) ==> pos < j <= v@.len() && v@.subrange(pos as int, j as int)
            == spec_cred_obj_json(api@, opt_chars_view(url)),
        spec_has_cred_obj_at(v@, pos as int) ==> r is Some,
{
    let v_len = v.len();
    let ghost complete = spec_has_cred_obj_at(v@, pos as int);
    let ghost (capi, curl, cj): (Seq<char>, Option<Seq<char>>, int) = if complete {
        choose|api: Seq<char>, url: Option<Seq<char>>, j: int|
            pos as int <= j <= v@.len() && v@.subrange(pos as int, j)
                == spec_cred_obj_json(api, url)
    } else {
        (Seq::empty(), None, pos as int)
    };
    let ghost h: Seq<char> = "{\"apiKey\":"@;
    let ghost ctail: Seq<char> = match curl {
        Some(u) => ",\"baseUrl\":"@ + spec_json_string(u) + seq!['}'],
        None => seq!['}'],
    };
    proof {
        if complete {
            assert(spec_cred_obj_json(capi, curl) =~= h + (spec_json_string(capi) + ctail));
            lemma_subrange_extract(v@, pos as int, cj, h, spec_json_string(capi) + ctail);
            lemma_subrange_extract(v@, pos + h.len(), cj, spec_json_string(capi), ctail);
            assert(spec_has_string_at(v@, pos + h.len()));
        }
    }
    if !match_lit(v, pos, "{\"apiKey\":") {
        return None;
    }
    let head = str_to_chars("{\"apiKey\":");
    let p1 = pos + head.len();
    let (api, p2) = match parse_json_string(v, p1) {
        Some(x) => x,
        None => {
            return None;
        },
    };
    proof {
        if complete {
            lemma_subrange_split(v@, p1 as int, p2 as int, v@.len() as int);
            lemma_subrange_split(v@, p1 as int, cj, v@.len() as int);
            assert(v@.subrange(p1 as int, v@.len() as int) =~= spec_json_string(capi) + (ctail
                + v@.subrange(cj, v@.len() as int)));
            lemma_json_string_peel(
                api@,
                capi,
                v@.subrange(p2 as int, v@.len() as int),
                ctail + v@.subrange(cj, v@.len() as int),
            );
            lemma_subrange_extract(
                v@,
                p2 as int,
                v@.len() as int,
                ctail,
                v@.subrange(cj, v@.len() as int),
            );
            assert(p2 + ctail.len() == cj);
            if curl is None {
                assert(v@[p2 as int] == v@.subrange(p2 as int, p2 + 1)[0]);
            } else {
                assert(v@.subrange(p2 as int, cj) == ctail);
            }
        }
    }
    if p2 < v_len && v[p2] == '}' {
        proof {
            lemma_subrange_split(v@, pos as int, p1 as int, p2 + 1);
            lemma_subrange_split(v@, p1 as int, p2 as int, p2 + 1);
            assert(v@.subrange(p2 as int, p2 + 1) =~= seq!['}']);
        }
        return Some((api, None, p2 + 1));
    }
    let ghost m: Seq<char> = ",\"baseUrl\":"@;
    proof {
        if complete {
            if curl is None {
                assert(v@[p2 as int] == '}');
                assert(false);
            }
            let cu = curl->Some_0;
            assert(ctail =~= m + (spec_json_string(cu) + seq!['}']));
            lemma_subrange_extract(v@, p2 as int, cj, m, spec_json_string(cu) + seq!['}']);
            lemma_subrange_extract(v@, p2 + m.len(), cj, spec_json_string(cu), seq!['}']);
            assert(spec_has_string_at(v@, p2 + m.len()));
        }
    }
    if !match_lit(v, p2, ",\"baseUrl\":") {
        return None;
    }
    let mid = str_to_chars(",\"baseUrl\":");
    let p3 = p2 + mid.len();
    let (url, p4) = match parse_json_string(v, p3) {
        Some(x) => x,
        None => {
            return None;
        },
    };
    proof {
        if complete {
            let cu = curl->Some_0;
            lemma_subrange_split(v@, p3 as int, p4 as int, v@.len() as int);
            lemma_subrange_split(v@, p3 as int, cj, v@.len() as int);
            assert(v@.subrange(p3 as int, v@.len() as int) =~= spec_json_string(cu) + (seq!['}']
                + v@.subrange(cj, v@.len() as int)));
            lemma_json_string_peel(
                url@,
                cu,
                v@.subrange(p4 as int, v@.len() as int),
                seq!['}'] + v@.subrange(cj, v@.len() as int),
            );
            lemma_subrange_extract(
                v@,
                p4 as int,
                v@.len() as int,
                seq!['}'],
                v@.subrange(cj, v@.len() as int),
            );
            assert(v@[p4 as int] == v@.subrange(p4 as int, p4 + 1)[0]);
        }
    }
    if p4 < v_len && v[p4] == '}' {
        proof {
            lemma_subrange_split(v@, pos as int, p1 as int, p4 + 1);
            lemma_subrange_split(v@, p1 as int, p2 as int, p4 + 1);
            lemma_subrange_split(v@, p2 as int, p3 as int, p4 + 1);
            lemma_subrange_split(v@, p3 as int, p4 as int, p4 + 1);
            assert(v@.subrange(p4 as int, p4 + 1) =~= seq!['}']);
        }
        return Some((api, Some(url), p4 + 1));
    }
    proof {
        if complete {
            assert(false);
        }
    }
    None
}

/// One parsed member of the credential file's top-level object.
pub struct CredPair {
    pub name: Vec<char>,
    pub api_key: Vec<char>,
    pub base_url: Option<Vec<char>>,
}

/// The entry one parsed member stands for.
pub open spec fn cred_pair_view(p: CredPair) -> CredEntry {
    CredEntry { name: p.name@, api_key: p.api_key@, base_url: opt_chars_view(p.base_url) }
}

/// The entries a parsed member list stands for.
pub open spec fn cred_pairs_view(ps: Seq<CredPair>) -> Seq<CredEntry> {
    ps.map_values(|p: CredPair| cred_pair_view(p))
}

/// A nonempty member list's text opens with the first name's quote.
pub proof fn lemma_cred_entries_head(es: Seq<CredEntry>)
    requires
        es.len() > 0,
    ensures
        spec_cred_entries_json(es).len() > 0,
        spec_cred_entries_json(es)[0] == '"',
{
    let e = spec_cred_entry_json(es[0]);
    assert(e[0] == '"') by {
        assert(e =~= seq!['"'] + (spec_escape(es[0].name) + seq!['"'] + (seq![':']
            + spec_cred_obj_json(es[0].api_key, es[0].base_url))));
    }
    if es.len() > 1 {
        assert(spec_cred_entries_json(es)[0] == e[0]);
    }
}

/// Reads the credential file's whole plaintext. A success pins the input:
/// it is exactly the text this module writes for the returned entries, and
/// reading is owed whenever the input is such a text.
#[verifier::rlimit(100)]
#[verifier::spinoff_prover]
pub fn parse_cred_map(v: &Vec<char>) -> (r: Option<Vec<CredPair>>)
    ensures
        r matches Some(list) ==> v@ == spec_cred_map_json(cred_pairs_view(list@)),
        (exists|es: Seq<CredEntry>| v@ == spec_cred_map_json(es)) ==> r is Some,
        v@ == "{}"@ ==> r is Some,
{
    proof {
        reveal_strlit("{}");
    }
    let ghost complete = exists|es: Seq<CredEntry>| v@ == spec_cred_map_json(es);
    let ghost ces: Seq<CredEntry> = if complete {
        choose|es: Seq<CredEntry>| v@ == spec_cred_map_json(es)
    } else {
        Seq::empty()
    };
    let v_len = v.len();
    proof {
        if complete {
            assert(v@.len() == 2 + spec_cred_entries_json(ces).len());
            assert(v@[0] == (seq!['{'] + spec_cred_entries_json(ces) + seq!['}'])[0]);
            if ces.len() > 0 {
                lemma_cred_entries_head(ces);
                assert(v@[1] == spec_cred_entries_json(ces)[0]);
            } else {
                assert(spec_cred_entries_json(ces) =~= Seq::<char>::empty());
                assert(v@ =~= seq!['{', '}']);
            }
        }
    }
    if v_len < 2 || v[0] != '{' {
        return None;
    }
    if v[1] == '}' {
        if v_len == 2 {
            let list: Vec<CredPair> = Vec::new();
            proof {
                assert(cred_pairs_view(list@) =~= Seq::<CredEntry>::empty());
                assert(v@ =~= seq!['{'] + spec_cred_entries_json(cred_pairs_view(list@)) + seq![
                    '}',
                ]);
            }
            return Some(list);
        }
        return None;
    }
    let mut list: Vec<CredPair> = Vec::new();
    let mut pos: usize = 1;
    assert(v@ != "{}"@);
    proof {
        if complete {
            assert(ces.len() > 0);
            assert(v@ =~= seq!['{'] + (spec_cred_entries_json(ces) + seq!['}']));
            assert(v@.subrange(0, v_len as int) =~= v@);
            lemma_subrange_extract(
                v@,
                0,
                v_len as int,
                seq!['{'],
                spec_cred_entries_json(ces) + seq!['}'],
            );
            assert(v@.subrange(1, v_len as int) == spec_cred_entries_json(ces.skip(0)) + seq![
                '}',
            ]) by {
                assert(ces.skip(0) =~= ces);
            }
        }
    }
    loop
        invariant
            v@ != "{}"@,
            1 <= pos <= v_len,
            v_len == v@.len(),
            v@[0] == '{',
            list@.len() == 0 ==> pos == 1,
            list@.len() > 0 ==> v@.subrange(1, pos as int) == spec_cred_entries_json(
                cred_pairs_view(list@),
            ) + seq![','],
            complete == (exists|es: Seq<CredEntry>| v@ == spec_cred_map_json(es)),
            complete ==> exists|k: int|
                0 <= k < ces.len() && v@.subrange(pos as int, v_len as int)
                    == #[trigger] spec_cred_entries_json(ces.skip(k)) + seq!['}'],
        decreases v_len - pos,
    {
        proof {
            if complete {
                let k = choose|k: int|
                    0 <= k < ces.len() && v@.subrange(pos as int, v_len as int)
                        == #[trigger] spec_cred_entries_json(ces.skip(k)) + seq!['}'];
                let ek = ces[k];
                let obj = spec_cred_obj_json(ek.api_key, ek.base_url);
                let rest: Seq<char> = if k + 1 < ces.len() {
                    seq![','] + spec_cred_entries_json(ces.skip(k + 1))
                } else {
                    Seq::empty()
                };
                assert(ces.skip(k)[0] == ek);
                assert(spec_cred_entries_json(ces.skip(k)) == spec_cred_entry_json(ek) + rest)
                    by {
                    if ces.skip(k).len() == 1 {
                        assert(spec_cred_entry_json(ek) + rest =~= spec_cred_entry_json(ek));
                    } else {
                        assert(ces.skip(k).drop_first() =~= ces.skip(k + 1));
                    }
                };
                assert(spec_cred_entries_json(ces.skip(k)) + seq!['}'] =~= spec_json_string(
                    ek.name,
                ) + (seq![':'] + (obj + (rest + seq!['}']))));
                lemma_subrange_extract(
                    v@,
                    pos as int,
                    v_len as int,
                    spec_json_string(ek.name),
                    seq![':'] + (obj + (rest + seq!['}'])),
                );
                assert(spec_has_string_at(v@, pos as int));
            }
        }
        let (name, q1) = match parse_json_string(v, pos) {
            Some(x) => x,
            None => {
                return None;
            },
        };
        proof {
            if complete {
                let k = choose|k: int|
                    0 <= k < ces.len() && v@.subrange(pos as int, v_len as int)
                        == #[trigger] spec_cred_entries_json(ces.skip(k)) + seq!['}'];
                let ek = ces[k];
                let obj = spec_cred_obj_json(ek.api_key, ek.base_url);
                let rest: Seq<char> = if k + 1 < ces.len() {
                    seq![','] + spec_cred_entries_json(ces.skip(k + 1))
                } else {
                    Seq::empty()
                };
                lemma_subrange_split(v@, pos as int, q1 as int, v_len as int);
                lemma_json_string_peel(
                    name@,
                    ek.name,
                    v@.subrange(q1 as int, v_len as int),
                    seq![':'] + (obj + (rest + seq!['}'])),
                );
                lemma_subrange_extract(
                    v@,
                    q1 as int,
                    v_len as int,
                    seq![':'],
                    obj + (rest + seq!['}']),
                );
                assert(v@[q1 as int] == v@.subrange(q1 as int, q1 + 1)[0]);
                lemma_subrange_extract(v@, q1 + 1, v_len as int, obj, rest + seq!['}']);
                assert(spec_has_cred_obj_at(v@, q1 + 1));
            }
        }
        if q1 >= v_len || v[q1] != ':' {
            return None;
        }
        let (api, url, q2) = match parse_cred_obj(v, q1 + 1) {
            Some(x) => x,
            None => {
                return None;
            },
        };
        proof {
            if complete {
                let k = choose|k: int|
                    0 <= k < ces.len() && v@.subrange(pos as int, v_len as int)
                        == #[trigger] spec_cred_entries_json(ces.skip(k)) + seq!['}'];
                let ek = ces[k];
                let obj = spec_cred_obj_json(ek.api_key, ek.base_url);
                let rest: Seq<char> = if k + 1 < ces.len() {
                    seq![','] + spec_cred_entries_json(ces.skip(k + 1))
                } else {
                    Seq::empty()
                };
                lemma_subrange_split(v@, q1 + 1, q2 as int, v_len as int);
                lemma_cred_obj_peel(
                    api@,
                    opt_chars_view(url),
                    v@.subrange(q2 as int, v_len as int),
                    ek.api_key,
                    ek.base_url,
                    rest + seq!['}'],
                );
                if k + 1 < ces.len() {
                    assert(rest + seq!['}'] =~= seq![','] + (spec_cred_entries_json(
                        ces.skip(k + 1),
                    ) + seq!['}']));
                    lemma_subrange_extract(
                        v@,
                        q2 as int,
                        v_len as int,
                        seq![','],
                        spec_cred_entries_json(ces.skip(k + 1)) + seq!['}'],
                    );
                    assert(v@[q2 as int] == v@.subrange(q2 as int, q2 + 1)[0]);
                } else {
                    assert(rest + seq!['}'] =~= seq!['}']);
                    assert(v@[q2 as int] == v@.subrange(q2 as int, v_len as int)[0]);
                    assert(v_len - q2 == 1);
                }
            }
        }
        let ghost old_list: Seq<CredPair> = list@;
        let pair = CredPair { name, api_key: api, base_url: url };
        let ghost entry = cred_pair_view(pair);
        list.push(pair);
        proof {
            assert(v@.subrange(q1 as int, q1 + 1) =~= seq![':']);
            lemma_subrange_split(v@, pos as int, q1 as int, q2 as int);
            lemma_subrange_split(v@, q1 as int, q1 + 1, q2 as int);
            assert(v@.subrange(pos as int, q2 as int) =~= spec_cred_entry_json(entry));
            assert(cred_pairs_view(list@) =~= cred_pairs_view(old_list).push(entry));
            lemma_cred_entries_snoc(cred_pairs_view(old_list), entry);
            lemma_subrange_split(v@, 1, pos as int, q2 as int);
            if old_list.len() == 0 {
                assert(v@.subrange(1, q2 as int) =~= spec_cred_entry_json(entry));
            } else {
                assert(spec_cred_entries_json(seq![entry]) =~= spec_cred_entry_json(entry));
            }
            assert(v@.subrange(1, q2 as int) == spec_cred_entries_json(cred_pairs_view(list@)));
        }
        if q2 < v_len && v[q2] == ',' {
            proof {
                lemma_subrange_split(v@, 1, q2 as int, q2 + 1);
                assert(v@.subrange(q2 as int, q2 + 1) =~= seq![',']);
                if complete {
                    let k = choose|k: int|
                        0 <= k < ces.len() && v@.subrange(pos as int, v_len as int)
                            == #[trigger] spec_cred_entries_json(ces.skip(k)) + seq!['}'];
                    assert(k + 1 < ces.len());
                    assert(v@.subrange(q2 + 1, v_len as int) == spec_cred_entries_json(
                        ces.skip(k + 1),
                    ) + seq!['}']);
                }
            }
            pos = q2 + 1;
        } else if q2 < v_len && v[q2] == '}' {
            if q2 + 1 == v_len {
                proof {
                    lemma_subrange_split(v@, 0, 1, v@.len() as int);
                    lemma_subrange_split(v@, 1, q2 as int, v@.len() as int);
                    assert(v@.subrange(0, 1) =~= seq!['{']);
                    assert(v@.subrange(q2 as int, q2 + 1) =~= seq!['}']);
                    assert(v@.subrange(0, v@.len() as int) =~= v@);
                    assert(v@ =~= seq!['{'] + spec_cred_entries_json(cred_pairs_view(list@))
                        + seq!['}']);
                }
                return Some(list);
            }
            return None;
        } else {
            return None;
        }
    }
}

/// Dropping a shared prefix of equal texts leaves equal texts.
pub proof fn lemma_concat_cancel(e: Seq<char>, x: Seq<char>, y: Seq<char>)
    requires
        e + x == e + y,
    ensures
        x == y,
{
    assert((e + x).len() == e.len() + x.len());
    assert((e + y).len() == e.len() + y.len());
    assert(x.len() == y.len());
    assert forall|i: int| 0 <= i < x.len() implies #[trigger] x[i] == y[i] by {
        assert((e + x)[e.len() + i] == x[i]);
        assert((e + y)[e.len() + i] == y[i]);
    };
    assert(x =~= y);
}

pub proof fn lemma_hex_digit_injective(d1: nat, d2: nat)
    requires
        d1 < 16,
        d2 < 16,
        spec_hex_digit(d1) == spec_hex_digit(d2),
    ensures
        d1 == d2,
{
}

/// No escape unit begins with a plain quote, so an unescaped quote always
/// ends a string literal.
pub proof fn lemma_escape_char_shape(c: char)
    ensures
        1 <= spec_escape_char(c).len() <= 6,
        spec_escape_char(c)[0] != '"',
        (spec_escape_char(c)[0] == '\\') == (c == '"' || c == '\\' || (c as u32) < 0x20),
{
}

/// Two escape streams with the same text agree on their first unit.
pub proof fn lemma_escape_char_peel(c1: char, c2: char, x: Seq<char>, y: Seq<char>)
    requires
        spec_escape_char(c1) + x == spec_escape_char(c2) + y,
    ensures
        c1 == c2,
        x == y,
{
    let e1 = spec_escape_char(c1);
    let e2 = spec_escape_char(c2);
    let s = e1 + x;
    assert(s[0] == e1[0]);
    assert(s[0] == e2[0]);
    let plain1 = !(c1 == '"' || c1 == '\\' || (c1 as u32) < 0x20);
    let plain2 = !(c2 == '"' || c2 == '\\' || (c2 as u32) < 0x20);
    lemma_escape_char_shape(c1);
    lemma_escape_char_shape(c2);
    if plain1 && plain2 {
        assert(c1 == c2);
    } else if plain1 != plain2 {
        assert(false);
    } else {
        assert(s[1] == e1[1]);
        assert(s[1] == e2[1]);
        if c1 == '"' || c1 == '\\' {
            assert(c1 == c2);
        } else {
            assert(e1[1] == 'u');
            assert(c2 != '"' && c2 != '\\');
            assert(s[4] == e1[4] && s[4] == e2[4]);
            assert(s[5] == e1[5] && s[5] == e2[5]);
            lemma_hex_digit_injective(((c1 as u32) / 16) as nat, ((c2 as u32) / 16) as nat);
            lemma_hex_digit_injective(((c1 as u32) % 16) as nat, ((c2 as u32) % 16) as nat);
            assert(c1 as u32 == c2 as u32);
            assert(c1 == c2);
        }
    }
    lemma_concat_cancel(e1, x, y);
}

/// Escaped text decodes unambiguously: equal literal bodies with equal
/// continuations come from equal strings.
pub proof fn lemma_escape_body_peel(a: Seq<char>, b: Seq<char>, x: Seq<char>, y: Seq<char>)
    requires
        spec_escape(a) + seq!['"'] + x == spec_escape(b) + seq!['"'] + y,
    ensures
        a == b,
        x == y,
    decreases a.len(),
{
    if a.len() == 0 {
        if b.len() > 0 {
            lemma_escape_char_shape(b[0]);
            assert((spec_escape(a) + seq!['"'] + x)[0] == '"');
            assert((spec_escape(b) + seq!['"'] + y)[0] == spec_escape_char(b[0])[0]);
            assert(false);
        }
        assert(spec_escape(a) + seq!['"'] + x =~= seq!['"'] + x);
        assert(spec_escape(b) + seq!['"'] + y =~= seq!['"'] + y);
        lemma_concat_cancel(seq!['"'], x, y);
    } else {
        if b.len() == 0 {
            lemma_escape_char_shape(a[0]);
            assert((spec_escape(b) + seq!['"'] + y)[0] == '"');
            assert((spec_escape(a) + seq!['"'] + x)[0] == spec_escape_char(a[0])[0]);
            assert(false);
        }
        assert(spec_escape(a) + seq!['"'] + x =~= spec_escape_char(a[0]) + (spec_escape(
            a.drop_first(),
        ) + seq!['"'] + x));
        assert(spec_escape(b) + seq!['"'] + y =~= spec_escape_char(b[0]) + (spec_escape(
            b.drop_first(),
        ) + seq!['"'] + y));
        lemma_escape_char_peel(
            a[0],
            b[0],
            spec_escape(a.drop_first()) + seq!['"'] + x,
            spec_escape(b.drop_first()) + seq!['"'] + y,
        );
        lemma_escape_body_peel(a.drop_first(), b.drop_first(), x, y);
        assert forall|i: int| 0 <= i < a.len() implies a[i] == b[i] by {
            if i > 0 {
                assert(a.drop_first()[i - 1] == a[i]);
                assert(b.drop_first()[i - 1] == b[i]);
            }
        };
        assert(a =~= b);
    }
}

/// A JSON string literal determines its contents and where it ends.
pub proof fn lemma_json_string_peel(a: Seq<char>, b: Seq<char>, x: Seq<char>, y: Seq<char>)
    requires
        spec_json_string(a) + x == spec_json_string(b) + y,
    ensures
        a == b,
        x == y,
{
    assert(spec_json_string(a) + x =~= seq!['"'] + (spec_escape(a) + seq!['"'] + x));
    assert(spec_json_string(b) + y =~= seq!['"'] + (spec_escape(b) + seq!['"'] + y));
    lemma_concat_cancel(seq!['"'], spec_escape(a) + seq!['"'] + x, spec_escape(b) + seq!['"'] + y);
    lemma_escape_body_peel(a, b, x, y);
}

/// One parsed member of a flat object.
pub struct FieldPair {
    pub name: Vec<char>,
    pub value: Option<Vec<char>>,
}

/// The field one parsed member stands for.
pub open spec fn field_pair_view(p: FieldPair) -> FieldEntry {
    FieldEntry { name: p.name@, value: opt_chars_view(p.value) }
}

/// The fields a parsed member list stands for.
pub open spec fn field_pairs_view(ps: Seq<FieldPair>) -> Seq<FieldEntry> {
    ps.map_values(|p: FieldPair| field_pair_view(p))
}

/// A canonical map member determines its entry and where it ends.
pub proof fn lemma_cred_entry_peel(a: CredEntry, b: CredEntry, x: Seq<char>, y: Seq<char>)
    requires
        spec_cred_entry_json(a) + x == spec_cred_entry_json(b) + y,
    ensures
        a == b,
        x == y,
{
    let oa = spec_cred_obj_json(a.api_key, a.base_url);
    let ob = spec_cred_obj_json(b.api_key, b.base_url);
    assert(spec_cred_entry_json(a) + x =~= spec_json_string(a.name) + (seq![':'] + (oa + x)));
    assert(spec_cred_entry_json(b) + y =~= spec_json_string(b.name) + (seq![':'] + (ob + y)));
    lemma_json_string_peel(a.name, b.name, seq![':'] + (oa + x), seq![':'] + (ob + y));
    lemma_concat_cancel(seq![':'], oa + x, ob + y);
    lemma_cred_obj_peel(a.api_key, a.base_url, x, b.api_key, b.base_url, y);
}

/// The brace-terminated member list of the credential file determines its
/// entries.
pub proof fn lemma_cred_entries_bracket_unique(a: Seq<CredEntry>, b: Seq<CredEntry>)
    requires
        spec_cred_entries_json(a) + seq!['}'] == spec_cred_entries_json(b) + seq!['}'],
    ensures
        a == b,
    decreases a.len(),
{
    if a.len() == 0 {
        if b.len() > 0 {
            lemma_cred_entries_head(b);
            assert((spec_cred_entries_json(a) + seq!['}'])[0] == '}') by {
                assert(spec_cred_entries_json(a) =~= Seq::<char>::empty());
            }
            assert((spec_cred_entries_json(b) + seq!['}'])[0] == '"');
            assert(false);
        }
        assert(a =~= b);
    } else {
        if b.len() == 0 {
            lemma_cred_entries_head(a);
            assert((spec_cred_entries_json(b) + seq!['}'])[0] == '}') by {
                assert(spec_cred_entries_json(b) =~= Seq::<char>::empty());
            }
            assert((spec_cred_entries_json(a) + seq!['}'])[0] == '"');
            assert(false);
        }
        let ra: Seq<char> = if a.len() > 1 {
            seq![','] + spec_cred_entries_json(a.drop_first())
        } else {
            Seq::empty()
        };
        let rb: Seq<char> = if b.len() > 1 {
            seq![','] + spec_cred_entries_json(b.drop_first())
        } else {
            Seq::empty()
        };
        assert(spec_cred_entries_json(a) == spec_cred_entry_json(a[0]) + ra) by {
            if a.len() == 1 {
                assert(spec_cred_entry_json(a[0]) + ra =~= spec_cred_entry_json(a[0]));
            }
        };
        assert(spec_cred_entries_json(b) == spec_cred_entry_json(b[0]) + rb) by {
            if b.len() == 1 {
                assert(spec_cred_entry_json(b[0]) + rb =~= spec_cred_entry_json(b[0]));
            }
        };
        assert(spec_cred_entries_json(a) + seq!['}'] =~= spec_cred_entry_json(a[0]) + (ra
            + seq!['}']));
        assert(spec_cred_entries_json(b) + seq!['}'] =~= spec_cred_entry_json(b[0]) + (rb
            + seq!['}']));
        lemma_cred_entry_peel(a[0], b[0], ra + seq!['}'], rb + seq!['}']);
        if a.len() == 1 {
            if b.len() > 1 {
                lemma_cred_entries_head(b.drop_first());
                assert((ra + seq!['}'])[0] == '}');
                assert((rb + seq!['}'])[0] == ',');
                assert(false);
            }
            assert(a =~= b);
        } else {
            if b.len() == 1 {
                lemma_cred_entries_head(a.drop_first());
                assert((rb + seq!['}'])[0] == '}');
                assert((ra + seq!['}'])[0] == ',');
                assert(false);
            }
            assert(ra + seq!['}'] =~= seq![','] + (spec_cred_entries_json(a.drop_first())
                + seq!['}']));
            assert(rb + seq!['}'] =~= seq![','] + (spec_cred_entries_json(b.drop_first())
                + seq!['}']));
            lemma_concat_cancel(
                seq![','],
                spec_cred_entries_json(a.drop_first()) + seq!['}'],
                spec_cred_entries_json(b.drop_first()) + seq!['}'],
            );
            lemma_cred_entries_bracket_unique(a.drop_first(), b.drop_first());
            assert forall|i: int| 0 <= i < a.len() implies a[i] == b[i] by {
                if i > 0 {
                    assert(a.drop_first()[i - 1] == a[i]);
                    assert(b.drop_first()[i - 1] == b[i]);
                }
            };
            assert(a =~= b);
        }
    }
}

/// The credential file's text determines its entries: equal texts mean
/// equal stored credentials.
pub proof fn lemma_cred_map_json_injective(a: Seq<CredEntry>, b: Seq<CredEntry>)
    requires
        spec_cred_map_json(a) == spec_cred_map_json(b),
    ensures
        a == b,
{
    assert(spec_cred_map_json(a) =~= seq!['{'] + (spec_cred_entries_json(a) + seq!['}']));
    assert(spec_cred_map_json(b) =~= seq!['{'] + (spec_cred_entries_json(b) + seq!['}']));
    lemma_concat_cancel(
        seq!['{'],
        spec_cred_entries_json(a) + seq!['}'],
        spec_cred_entries_json(b) + seq!['}'],
    );
    lemma_cred_entries_bracket_unique(a, b);
}

/// What follows one field in a flat object's text: a comma and the later
/// fields, or nothing when it was the last.
pub open spec fn spec_flat_rest(fs: Seq<FieldEntry>, k: int) -> Seq<char> {
    if k + 1 < fs.len() {
        seq![','] + spec_fields_json(fs.skip(k + 1))
    } else {
        Seq::empty()
    }
}

proof fn lemma_flat_at(v: Seq<char>, pos: int, vlen: int, fs: Seq<FieldEntry>, k: int)
    requires
        0 <= pos <= vlen,
        vlen == v.len(),
        0 <= k < fs.len(),
        v.subrange(pos, vlen) == spec_fields_json(fs.skip(k)) + seq!['}'],
    ensures
        v.subrange(pos, vlen) == spec_json_string(fs[k].name) + (seq![':'] + (spec_json_scalar(
            fs[k].value,
        ) + (spec_flat_rest(fs, k) + seq!['}']))),
        spec_has_string_at(v, pos),
{
    let fk = fs[k];
    let scalar = spec_json_scalar(fk.value);
    let rest = spec_flat_rest(fs, k);
    assert(fs.skip(k)[0] == fk);
    assert(spec_fields_json(fs.skip(k)) == spec_field_json(fk) + rest) by {
        if fs.skip(k).len() == 1 {
            assert(spec_field_json(fk) + rest =~= spec_field_json(fk));
        } else {
            assert(fs.skip(k).drop_first() =~= fs.skip(k + 1));
        }
    };
    assert(spec_fields_json(fs.skip(k)) + seq!['}'] =~= spec_json_string(fk.name) + (seq![':']
        + (scalar + (rest + seq!['}']))));
    lemma_subrange_extract(
        v,
        pos,
        vlen,
        spec_json_string(fk.name),
        seq![':'] + (scalar + (rest + seq!['}'])),
    );
}

proof fn lemma_flat_after_name(
    v: Seq<char>,
    pos: int,
    vlen: int,
    fs: Seq<FieldEntry>,
    k: int,
    name: Seq<char>,
    q1: int,
)
    requires
        0 <= pos <= q1 <= vlen,
        vlen == v.len(),
        0 <= k < fs.len(),
        v.subrange(pos, vlen) == spec_fields_json(fs.skip(k)) + seq!['}'],
        v.subrange(pos, q1) == spec_json_string(name),
    ensures
        name == fs[k].name,
        q1 < vlen && v[q1] == ':',
        q1 + 1 + spec_json_scalar(fs[k].value).len() <= vlen,
        v.subrange(q1 + 1, vlen) == spec_json_scalar(fs[k].value) + (spec_flat_rest(fs, k)
            + seq!['}']),
        fs[k].value is Some ==> v[q1 + 1] == '"' && spec_has_string_at(v, q1 + 1),
        fs[k].value is None ==> v[q1 + 1] == 'n',
{
    reveal_strlit("null");
    let fk = fs[k];
    let scalar = spec_json_scalar(fk.value);
    let rest = spec_flat_rest(fs, k);
    lemma_flat_at(v, pos, vlen, fs, k);
    lemma_subrange_split(v, pos, q1, vlen);
    lemma_json_string_peel(
        name,
        fk.name,
        v.subrange(q1, vlen),
        seq![':'] + (scalar + (rest + seq!['}'])),
    );
    lemma_subrange_extract(v, q1, vlen, seq![':'], scalar + (rest + seq!['}']));
    assert(v[q1] == v.subrange(q1, q1 + 1)[0]);
    lemma_subrange_extract(v, q1 + 1, vlen, scalar, rest + seq!['}']);
    match fk.value {
        Some(sv) => {
            assert(scalar =~= seq!['"'] + (spec_escape(sv) + seq!['"']));
            assert(v[q1 + 1] == v.subrange(q1 + 1, q1 + 1 + scalar.len())[0]);
        },
        None => {
            assert(v[q1 + 1] == v.subrange(q1 + 1, q1 + 1 + scalar.len())[0]);
        },
    }
}

proof fn lemma_flat_after_value(
    v: Seq<char>,
    p1: int,
    vlen: int,
    fs: Seq<FieldEntry>,
    k: int,
    value: Option<Seq<char>>,
    q2: int,
)
    requires
        0 <= p1 <= q2 <= vlen,
        vlen == v.len(),
        0 <= k < fs.len(),
        v.subrange(p1, vlen) == spec_json_scalar(fs[k].value) + (spec_flat_rest(fs, k)
            + seq!['}']),
        v.subrange(p1, q2) == spec_json_scalar(value),
    ensures
        value == fs[k].value,
        k + 1 < fs.len() ==> q2 < vlen && v[q2] == ',' && v.subrange(q2 + 1, vlen)
            == spec_fields_json(fs.skip(k + 1)) + seq!['}'],
        k + 1 == fs.len() ==> q2 + 1 == vlen && q2 < vlen && v[q2] == '}',
{
    reveal_strlit("null");
    let fk = fs[k];
    let scalar = spec_json_scalar(fk.value);
    let rest = spec_flat_rest(fs, k);
    lemma_subrange_split(v, p1, q2, vlen);
    assert(value == fk.value && v.subrange(q2, vlen) == rest + seq!['}']) by {
        match (value, fk.value) {
            (Some(w1), Some(w2)) => {
                assert(spec_json_scalar(value) =~= seq!['"'] + (spec_escape(w1) + seq!['"']));
                assert(scalar =~= seq!['"'] + (spec_escape(w2) + seq!['"']));
                assert(spec_json_scalar(value) + v.subrange(q2, vlen) == scalar + (rest + seq![
                    '}',
                ]));
                lemma_json_string_peel(w1, w2, v.subrange(q2, vlen), rest + seq!['}']);
            },
            (None, None) => {
                lemma_concat_cancel("null"@, v.subrange(q2, vlen), rest + seq!['}']);
            },
            (Some(w1), None) => {
                assert((spec_json_scalar(value) + v.subrange(q2, vlen))[0] == '"');
                assert((scalar + (rest + seq!['}']))[0] == 'n');
                assert(false);
            },
            (None, Some(w2)) => {
                assert((spec_json_scalar(value) + v.subrange(q2, vlen))[0] == 'n');
                assert((scalar + (rest + seq!['}']))[0] == '"');
                assert(false);
            },
        }
    };
    if k + 1 < fs.len() {
        assert(rest + seq!['}'] =~= seq![','] + (spec_fields_json(fs.skip(k + 1)) + seq!['}']));
        lemma_subrange_extract(v, q2, vlen, seq![','], spec_fields_json(fs.skip(k + 1)) + seq![
            '}',
        ]);
        assert(v[q2] == v.subrange(q2, q2 + 1)[0]);
    } else {
        assert(rest + seq!['}'] =~= seq!['}']);
        assert(v[q2] == v.subrange(q2, vlen)[0]);
    }
}

/// A nonempty field list's text opens with the first name's quote.
pub proof fn lemma_fields_head(fs: Seq<FieldEntry>)
    requires
        fs.len() > 0,
    ensures
        spec_fields_json(fs).len() > 0,
        spec_fields_json(fs)[0] == '"',
{
    let e = spec_field_json(fs[0]);
    assert(e[0] == '"') by {
        assert(e =~= seq!['"'] + (spec_escape(fs[0].name) + seq!['"'] + (seq![':']
            + spec_json_scalar(fs[0].value))));
    }
    if fs.len() > 1 {
        assert(spec_fields_json(fs)[0] == e[0]);
    }
}

/// Reads a whole flat JSON object of string-or-null fields, as the child's
/// health endpoint answers. A success pins the input: it is exactly the
/// text this module writes for the returned fields, and reading is owed
/// whenever the input is such a text.
#[verifier::rlimit(100)]
#[verifier::spinoff_prover]
pub fn parse_flat_object(v: &Vec<char>) -> (r: Option<Vec<FieldPair>>)
    ensures
        r matches Some(list) ==> v@ == spec_flat_json(field_pairs_view(list@)),
        (exists|fs: Seq<FieldEntry>| v@ == spec_flat_json(fs)) ==> r is Some,
        v@ == "{}"@ ==> r is Some,
{
    proof {
        reveal_strlit("{}");
        reveal_strlit("null");
    }
    let ghost complete = exists|fs: Seq<FieldEntry>| v@ == spec_flat_json(fs);
    let ghost cfs: Seq<FieldEntry> = if complete {
        choose|fs: Seq<FieldEntry>| v@ == spec_flat_json(fs)
    } else {
        Seq::empty()
    };
    let v_len = v.len();
    proof {
        if complete {
            assert(v@.len() == 2 + spec_fields_json(cfs).len());
            assert(v@[0] == (seq!['{'] + spec_fields_json(cfs) + seq!['}'])[0]);
            if cfs.len() > 0 {
                lemma_fields_head(cfs);
                assert(v@[1] == spec_fields_json(cfs)[0]);
            } else {
                assert(spec_fields_json(cfs) =~= Seq::<char>::empty());
                assert(v@ =~= seq!['{', '}']);
            }
        }
    }
    if v_len < 2 || v[0] != '{' {
        return None;
    }
    if v[1] == '}' {
        if v_len == 2 {
            let list: Vec<FieldPair> = Vec::new();
            proof {
                assert(field_pairs_view(list@) =~= Seq::<FieldEntry>::empty());
                assert(v@ =~= seq!['{'] + spec_fields_json(field_pairs_view(list@)) + seq!['}']);
            }
            return Some(list);
        }
        return None;
    }
    let mut list: Vec<FieldPair> = Vec::new();
    let mut pos: usize = 1;
    assert(v@ != "{}"@);
    proof {
        if complete {
            assert(cfs.len() > 0);
            assert(v@ =~= seq!['{'] + (spec_fields_json(cfs) + seq!['}']));
            assert(v@.subrange(0, v_len as int) =~= v@);
            lemma_subrange_extract(
                v@,
                0,
                v_len as int,
                seq!['{'],
                spec_fields_json(cfs) + seq!['}'],
            );
            assert(v@.subrange(1, v_len as int) == spec_fields_json(cfs.skip(0)) + seq!['}'])
                by {
                assert(cfs.skip(0) =~= cfs);
            }
        }
    }
    loop
        invariant
            v@ != "{}"@,
            1 <= pos <= v_len,
            v_len == v@.len(),
            v@[0] == '{',
            list@.len() == 0 ==> pos == 1,
            list@.len() > 0 ==> v@.subrange(1, pos as int) == spec_fields_json(
                field_pairs_view(list@),
            ) + seq![','],
            complete == (exists|fs: Seq<FieldEntry>| v@ == spec_flat_json(fs)),
            complete ==> exists|k: int|
                0 <= k < cfs.len() && v@.subrange(pos as int, v_len as int)
                    == #[trigger] spec_fields_json(cfs.skip(k)) + seq!['}'],
        decreases v_len - pos,
    {
        proof {
            if complete {
                let k = choose|k: int|
                    0 <= k < cfs.len() && v@.subrange(pos as int, v_len as int)
                        == #[trigger] spec_fields_json(cfs.skip(k)) + seq!['}'];
                lemma_flat_at(v@, pos as int, v_len as int, cfs, k);
            }
        }
        let (name, q1) = match parse_json_string(v, pos) {
            Some(x) => x,
            None => {
                return None;
            },
        };
        proof {
            if complete {
                let k = choose|k: int|
                    0 <= k < cfs.len() && v@.subrange(pos as int, v_len as int)
                        == #[trigger] spec_fields_json(cfs.skip(k)) + seq!['}'];
                lemma_flat_after_name(v@, pos as int, v_len as int, cfs, k, name@, q1 as int);
            }
        }
        if q1 >= v_len || v[q1] != ':' {
            return None;
        }
        let p1 = q1 + 1;
        let value: Option<Vec<char>>;
        let q2: usize;
        if p1 < v_len && v[p1] == '"' {
            let (s, j) = match parse_json_string(v, p1) {
                Some(x) => x,
                None => {
                    return None;
                },
            };
            value = Some(s);
            q2 = j;
        } else if match_lit(v, p1, "null") {
            let word = str_to_chars("null");
            proof {
                reveal_strlit("null");
            }
            value = None;
            q2 = p1 + word.len();
        } else {
            proof {
                if complete {
                    let k = choose|k: int|
                        0 <= k < cfs.len() && v@.subrange(pos as int, v_len as int)
                            == #[trigger] spec_fields_json(cfs.skip(k)) + seq!['}'];
                    lemma_flat_after_name(v@, pos as int, v_len as int, cfs, k, name@, q1 as int);
                    reveal_strlit("null");
                    if cfs[k].value is None {
                        lemma_subrange_extract(
                            v@,
                            p1 as int,
                            v_len as int,
                            "null"@,
                            spec_flat_rest(cfs, k) + seq!['}'],
                        );
                    }
                }
            }
            return None;
        }
        proof {
            assert(v@.subrange(p1 as int, q2 as int) == spec_json_scalar(opt_chars_view(value)));
            if complete {
                let k = choose|k: int|
                    0 <= k < cfs.len() && v@.subrange(pos as int, v_len as int)
                        == #[trigger] spec_fields_json(cfs.skip(k)) + seq!['}'];
                lemma_flat_after_name(v@, pos as int, v_len as int, cfs, k, name@, q1 as int);
                lemma_flat_after_value(
                    v@,
                    p1 as int,
                    v_len as int,
                    cfs,
                    k,
                    opt_chars_view(value),
                    q2 as int,
                );
            }
        }
        let ghost old_list: Seq<FieldPair> = list@;
        let pair = FieldPair { name, value };
        let ghost entry = field_pair_view(pair);
        list.push(pair);
        proof {
            assert(v@.subrange(q1 as int, q1 + 1) =~= seq![':']);
            lemma_subrange_split(v@, pos as int, q1 as int, q2 as int);
            lemma_subrange_split(v@, q1 as int, p1 as int, q2 as int);
            assert(v@.subrange(pos as int, q2 as int) =~= spec_field_json(entry));
            assert(field_pairs_view(list@) =~= field_pairs_view(old_list).push(entry));
            lemma_fields_snoc(field_pairs_view(old_list), entry);
            lemma_subrange_split(v@, 1, pos as int, q2 as int);
            if old_list.len() == 0 {
                assert(v@.subrange(1, q2 as int) =~= spec_field_json(entry));
            } else {
                assert(spec_fields_json(seq![entry]) =~= spec_field_json(entry));
            }
            assert(v@.subrange(1, q2 as int) == spec_fields_json(field_pairs_view(list@)));
        }
        if q2 < v_len && v[q2] == ',' {
            proof {
                lemma_subrange_split(v@, 1, q2 as int, q2 + 1);
                assert(v@.subrange(q2 as int, q2 + 1) =~= seq![',']);
                if complete {
                    let k = choose|k: int|
                        0 <= k < cfs.len() && v@.subrange(pos as int, v_len as int)
                            == #[trigger] spec_fields_json(cfs.skip(k)) + seq!['}'];
                    assert(k + 1 < cfs.len());
                    assert(v@.subrange(q2 + 1, v_len as int) == spec_fields_json(cfs.skip(k + 1))
                        + seq!['}']);
                }
            }
            pos = q2 + 1;
        } else if q2 < v_len && v[q2] == '}' {
            if q2 + 1 == v_len {
                proof {
                    lemma_subrange_split(v@, 0, 1, v@.len() as int);
                    lemma_subrange_split(v@, 1, q2 as int, v@.len() as int);
                    assert(v@.subrange(0, 1) =~= seq!['{']);
                    assert(v@.subrange(q2 as int, q2 + 1) =~= seq!['}']);
                    assert(v@.subrange(0, v@.len() as int) =~= v@);
                    assert(v@ =~= seq!['{'] + spec_fields_json(field_pairs_view(list@)) + seq![
                        '}',
                    ]);
                }
                return Some(list);
            }
            return None;
        } else {
            return None;
        }
    }
}

/// JSON inter-token whitespace.
pub open spec fn spec_is_json_ws(c: char) -> bool {
    c == ' ' || c == '\t' || c == '\n' || c == '\r'
}

/// The text with inter-token whitespace removed. Inside a string literal
/// every character stays; a backslash keeps the following character, so an
/// escaped quote never ends the literal early.
pub open spec fn spec_strip_ws(s: Seq<char>, in_str: bool, esc: bool) -> Seq<char>
    decreases s.len(),
{
    if s.len() == 0 {
        Seq::empty()
    } else {
        let c = s[0];
        let rest = s.drop_first();
        if in_str {
            if esc {
                seq![c] + spec_strip_ws(rest, true, false)
            } else if c == '\\' {
                seq![c] + spec_strip_ws(rest, true, true)
            } else if c == '"' {
                seq![c] + spec_strip_ws(rest, false, false)
            } else {
                seq![c] + spec_strip_ws(rest, true, false)
            }
        } else {
            if spec_is_json_ws(c) {
                spec_strip_ws(rest, false, false)
            } else if c == '"' {
                seq![c] + spec_strip_ws(rest, true, false)
            } else {
                seq![c] + spec_strip_ws(rest, false, false)
            }
        }
    }
}

/// Removes inter-token whitespace outside string literals.
pub fn strip_json_ws(v: &Vec<char>) -> (r: Vec<char>)
    ensures
        r@ == spec_strip_ws(v@, false, false),
{
    let v_len = v.len();
    let mut out: Vec<char> = Vec::new();
    let mut in_str = false;
    let mut esc = false;
    let mut i: usize = 0;
    proof {
        assert(v@.skip(0) =~= v@);
    }
    while i < v_len
        invariant
            i <= v_len,
            v_len == v@.len(),
            !in_str ==> !esc,
            spec_strip_ws(v@, false, false) == out@ + spec_strip_ws(
                v@.skip(i as int),
                in_str,
                esc,
            ),
        decreases v_len - i,
    {
        let c = v[i];
        let ghost pre: Seq<char> = out@;
        let ghost old_in = in_str;
        let ghost old_esc = esc;
        proof {
            assert(v@.skip(i as int)[0] == c);
            assert(v@.skip(i as int).drop_first() =~= v@.skip(i + 1));
        }
        if in_str {
            out.push(c);
            if esc {
                esc = false;
            } else if c == '\\' {
                esc = true;
            } else if c == '"' {
                in_str = false;
            }
        } else {
            if c == ' ' || c == '\t' || c == '\n' || c == '\r' {
                // dropped: whitespace between tokens
            } else if c == '"' {
                out.push(c);
                in_str = true;
            } else {
                out.push(c);
            }
        }
        proof {
            if old_in || !spec_is_json_ws(c) {
                assert(spec_strip_ws(v@.skip(i as int), old_in, old_esc) == seq![c]
                    + spec_strip_ws(v@.skip(i + 1), in_str, esc));
                assert(pre + (seq![c] + spec_strip_ws(v@.skip(i + 1), in_str, esc)) =~= out@
                    + spec_strip_ws(v@.skip(i + 1), in_str, esc));
            } else {
                assert(spec_strip_ws(v@.skip(i as int), old_in, old_esc) == spec_strip_ws(
                    v@.skip(i + 1),
                    in_str,
                    esc,
                ));
            }
        }
        i = i + 1;
    }
    proof {
        assert(v@.skip(v_len as int) =~= Seq::<char>::empty());
    }
    out
}

} // verus!
