//! Bounded ring buffer for the child service's stderr lines.
//!
//! The buffer holds whole characters and a running count of their UTF-8
//! encoded length. When an append pushes the count over the configured byte
//! cap, whole characters are dropped from the front until the count fits
//! again, so the cap is never exceeded and no multi-byte character is ever
//! split at the trim boundary.

use crate::text::{chars_to_string, str_to_chars};
use vstd::prelude::*;

verus! {

/// Byte budget of the stderr ring buffer.
pub const SIDECAR_STDERR_BUFFER_MAX_BYTES: usize = 4 * 1024;

/// The number of bytes the UTF-8 encoding of one character takes.
pub open spec fn spec_utf8_len(c: char) -> nat {
    if (c as u32) < 0x80 {
        1
    } else if (c as u32) < 0x800 {
        2
    } else if (c as u32) < 0x10000 {
        3
    } else {
        4
    }
}

/// The number of bytes the UTF-8 encoding of a character sequence takes.
pub open spec fn spec_byte_len(s: Seq<char>) -> nat
    decreases s.len(),
{
    if s.len() == 0 {
        0
    } else {
        spec_utf8_len(s[0]) + spec_byte_len(s.drop_first())
    }
}

pub proof fn lemma_byte_len_concat(a: Seq<char>, b: Seq<char>)
    ensures
        spec_byte_len(a + b) == spec_byte_len(a) + spec_byte_len(b),
    decreases a.len(),
{
    if a.len() == 0 {
        assert(a + b =~= b);
    } else {
        assert((a + b).drop_first() =~= a.drop_first() + b);
        lemma_byte_len_concat(a.drop_first(), b);
    }
}

/// The longest suffix of `s` whose UTF-8 length fits in `cap` bytes, found
/// by dropping whole characters from the front.
pub open spec fn spec_trim_front(s: Seq<char>, cap: nat) -> Seq<char>
    decreases s.len(),
{
    if spec_byte_len(s) <= cap {
        s
    } else if s.len() == 0 {
        s
    } else {
        spec_trim_front(s.drop_first(), cap)
    }
}

/// What trimming leaves is a suffix of the original sequence, fits the cap,
/// and consists of whole characters only.
pub proof fn lemma_trim_front_is_bounded_suffix(s: Seq<char>, cap: nat)
    ensures
        spec_byte_len(spec_trim_front(s, cap)) <= cap,
        exists|k: int|
            0 <= k <= s.len() && spec_trim_front(s, cap) == #[trigger] s.skip(k),
    decreases s.len(),
{
    if spec_byte_len(s) <= cap {
        assert(s.skip(0) =~= s);
    } else if s.len() == 0 {
        assert(s.skip(0) =~= s);
    } else {
        lemma_trim_front_is_bounded_suffix(s.drop_first(), cap);
        let k0 = choose|k: int|
            0 <= k <= s.drop_first().len() && spec_trim_front(s.drop_first(), cap)
                == s.drop_first().skip(k);
        assert(s.drop_first().skip(k0) =~= s.skip(k0 + 1));
    }
}

/// Trimming the left operand first does not change what trimming the
/// concatenation leaves: characters that had to go would go either way.
pub proof fn lemma_trim_front_concat(s: Seq<char>, t: Seq<char>, cap: nat)
    ensures
        spec_trim_front(s + t, cap) == spec_trim_front(spec_trim_front(s, cap) + t, cap),
    decreases s.len(),
{
    if spec_byte_len(s) <= cap {
    } else if s.len() == 0 {
    } else {
        lemma_byte_len_concat(s, t);
        assert((s + t).drop_first() =~= s.drop_first() + t);
        lemma_trim_front_concat(s.drop_first(), t, cap);
    }
}

/// Bounded buffer of stderr text: whole characters plus the running UTF-8
/// byte length, kept at or under the configured cap.
pub struct StderrBuffer {
    text: Vec<char>,
    byte_len: usize,
    cap: usize,
}

impl View for StderrBuffer {
    type V = Seq<char>;

    closed spec fn view(&self) -> Seq<char> {
        self.text@
    }
}

impl StderrBuffer {
    /// The configured byte cap.
    pub closed spec fn spec_cap(&self) -> nat {
        self.cap as nat
    }

    /// The buffer's running byte count matches its text and fits the cap.
    pub open spec fn wf(&self) -> bool {
        &&& self.spec_byte_count() == spec_byte_len(self@)
        &&& spec_byte_len(self@) <= self.spec_cap()
        &&& self.spec_cap() + 4 <= usize::MAX
    }

    pub closed spec fn spec_byte_count(&self) -> nat {
        self.byte_len as nat
    }

    /// An empty buffer with the given byte cap.
    pub fn with_cap(cap: usize) -> (r: StderrBuffer)
        requires
            cap + 4 <= usize::MAX,
        ensures
            r.wf(),
            r@ == Seq::<char>::empty(),
            r.spec_cap() == cap,
    {
        StderrBuffer { text: Vec::new(), byte_len: 0, cap }
    }

    /// An empty buffer with the supervisor's stderr byte budget.
    pub fn new() -> (r: StderrBuffer)
        ensures
            r.wf(),
            r@ == Seq::<char>::empty(),
            r.spec_cap() == SIDECAR_STDERR_BUFFER_MAX_BYTES as nat,
    {
        StderrBuffer::with_cap(SIDECAR_STDERR_BUFFER_MAX_BYTES)
    }

    /// The configured byte cap.
    pub fn cap(&self) -> (r: usize)
        ensures
            r == self.spec_cap(),
    {
        self.cap
    }

    /// The UTF-8 byte length of the buffered text.
    pub fn byte_count(&self) -> (r: usize)
        ensures
            r == self.spec_byte_count(),
    {
        self.byte_len
    }

    /// The buffered characters.
    pub fn chars(&self) -> (r: &Vec<char>)
        ensures
            r@ == self@,
    {
        &self.text
    }
}

fn utf8_len(c: char) -> (r: usize)
    ensures
        r == spec_utf8_len(c),
{
    let u = c as u32;
    if u < 0x80 {
        1
    } else if u < 0x800 {
        2
    } else if u < 0x10000 {
        3
    } else {
        4
    }
}

/// Drops whole characters from the front of the buffer until its UTF-8 byte
/// length fits the configured cap again.
pub fn trim_stderr_output_buffer(buffer: &mut StderrBuffer)
    requires
        old(buffer).spec_byte_count() == spec_byte_len(old(buffer)@),
        old(buffer).spec_cap() + 4 <= usize::MAX,
    ensures
        final(buffer).wf(),
        final(buffer)@ == spec_trim_front(old(buffer)@, old(buffer).spec_cap()),
        final(buffer).spec_cap() == old(buffer).spec_cap(),
{
    while buffer.byte_len > buffer.cap
        invariant
            buffer.spec_byte_count() == spec_byte_len(buffer@),
            spec_trim_front(buffer@, buffer.spec_cap()) == spec_trim_front(
                old(buffer)@,
                old(buffer).spec_cap(),
            ),
            buffer.spec_cap() == old(buffer).spec_cap(),
        decreases buffer.text@.len(),
    {
        assert(buffer.text@.len() > 0);
        let ghost prev: Seq<char> = buffer.text@;
        let c = buffer.text.remove(0);
        proof {
            assert(buffer.text@ =~= prev.drop_first());
            assert(spec_byte_len(prev) == spec_utf8_len(c) + spec_byte_len(prev.drop_first()));
        }
        let w = utf8_len(c);
        buffer.byte_len = buffer.byte_len - w;
    }
}

/// Whether the character has Unicode's White_Space property.
pub open spec fn spec_is_ws(c: char) -> bool {
    let u = c as u32;
    ||| u == 0x09
    ||| u == 0x0A
    ||| u == 0x0B
    ||| u == 0x0C
    ||| u == 0x0D
    ||| u == 0x20
    ||| u == 0x85
    ||| u == 0xA0
    ||| u == 0x1680
    ||| (0x2000 <= u && u <= 0x200A)
    ||| u == 0x2028
    ||| u == 0x2029
    ||| u == 0x202F
    ||| u == 0x205F
    ||| u == 0x3000
}

fn is_ws(c: char) -> (r: bool)
    ensures
        r == spec_is_ws(c),
{
    let u = c as u32;
    u == 0x09 || u == 0x0A || u == 0x0B || u == 0x0C || u == 0x0D || u == 0x20 || u == 0x85 || u
        == 0xA0 || u == 0x1680 || (0x2000 <= u && u <= 0x200A) || u == 0x2028 || u == 0x2029 || u
        == 0x202F || u == 0x205F || u == 0x3000
}

/// The sequence with its trailing whitespace removed.
pub open spec fn spec_trim_end(s: Seq<char>) -> Seq<char>
    decreases s.len(),
{
    if s.len() > 0 && spec_is_ws(s.last()) {
        spec_trim_end(s.drop_last())
    } else {
        s
    }
}

/// The sequence with its leading whitespace removed.
pub open spec fn spec_trim_start(s: Seq<char>) -> Seq<char>
    decreases s.len(),
{
    if s.len() > 0 && spec_is_ws(s[0]) {
        spec_trim_start(s.drop_first())
    } else {
        s
    }
}

/// Removes trailing whitespace characters in place.
pub fn trim_end_chars(v: &mut Vec<char>)
    ensures
        final(v)@ == spec_trim_end(old(v)@),
{
    while v.len() > 0 && is_ws(v[v.len() - 1])
        invariant
            spec_trim_end(v@) == spec_trim_end(old(v)@),
        decreases v.len(),
    {
        assert(v@.last() == v@[v@.len() - 1]);
        v.pop();
        assert(spec_trim_end(v@) == spec_trim_end(old(v)@));
    }
}

/// A copy without the leading whitespace characters.
pub fn trim_start_chars(v: &Vec<char>) -> (r: Vec<char>)
    ensures
        r@ == spec_trim_start(v@),
{
    let mut start: usize = 0;
    assert(v@.skip(0) =~= v@);
    while start < v.len() && is_ws(v[start])
        invariant
            start <= v@.len(),
            spec_trim_start(v@.skip(start as int)) == spec_trim_start(v@),
        decreases v.len() - start,
    {
        proof {
            assert(v@.skip(start as int).drop_first() =~= v@.skip(start + 1));
        }
        start = start + 1;
    }
    let mut out: Vec<char> = Vec::new();
    let mut i: usize = start;
    while i < v.len()
        invariant
            start <= i <= v@.len(),
            out@ == v@.subrange(start as int, i as int),
        decreases v.len() - i,
    {
        out.push(v[i]);
        proof {
            assert(out@ =~= v@.subrange(start as int, i + 1 as int));
        }
        i = i + 1;
    }
    proof {
        assert(out@ =~= v@.skip(start as int));
    }
    out
}

/// Appends one stderr chunk: the chunk with trailing whitespace removed,
/// then a newline, trimming the front of the buffer whenever the byte cap
/// would be exceeded.
pub fn append_stderr_output(buffer: &mut StderrBuffer, chunk: &str)
    requires
        old(buffer).wf(),
    ensures
        final(buffer).wf(),
        final(buffer).spec_cap() == old(buffer).spec_cap(),
        final(buffer)@ == spec_trim_front(
            old(buffer)@ + spec_trim_end(chunk@) + seq!['\n'],
            old(buffer).spec_cap(),
        ),
{
    let mut line = str_to_chars(chunk);
    trim_end_chars(&mut line);
    line.push('\n');
    assert(line@ =~= spec_trim_end(chunk@) + seq!['\n']);
    let ghost base: Seq<char> = old(buffer)@;
    let mut i: usize = 0;
    while i < line.len()
        invariant
            i <= line@.len(),
            buffer.wf(),
            buffer.spec_cap() == old(buffer).spec_cap(),
            buffer@ == spec_trim_front(base + line@.take(i as int), buffer.spec_cap()),
        decreases line.len() - i,
    {
        let c = line[i];
        let ghost before: Seq<char> = buffer@;
        buffer.text.push(c);
        let w = utf8_len(c);
        buffer.byte_len = buffer.byte_len + w;
        proof {
            lemma_byte_len_concat(before, seq![c]);
            assert(spec_byte_len(seq![c]) == spec_utf8_len(c) + spec_byte_len(
                seq![c].drop_first(),
            ));
            assert(seq![c].drop_first() =~= Seq::<char>::empty());
            assert(buffer@ =~= before + seq![c]);
        }
        trim_stderr_output_buffer(buffer);
        proof {
            lemma_trim_front_concat(base + line@.take(i as int), seq![c], buffer.spec_cap());
            assert(base + line@.take(i as int) + seq![c] =~= base + line@.take(i + 1));
        }
        i = i + 1;
    }
    proof {
        assert(line@.take(line@.len() as int) =~= line@);
        assert(base + line@ =~= old(buffer)@ + spec_trim_end(chunk@) + seq!['\n']);
    }
}

/// The buffered stderr text with surrounding whitespace removed, as one
/// string.
pub fn snapshot_stderr_output(buffer: &StderrBuffer) -> (r: String)
    ensures
        r@ == spec_trim_end(spec_trim_start(buffer@)),
{
    let mut out = trim_start_chars(buffer.chars());
    trim_end_chars(&mut out);
    chars_to_string(&out)
}

} // verus!
