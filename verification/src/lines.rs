//! Byte-level line and record handling.
//!
//! A record is one line `<key>;<value>`, terminated by LF or CR LF; the
//! final line of an input may lack its terminator.

use vstd::prelude::*;
use vstd::slice::slice_subrange;

verus! {

/// The line feed byte that terminates a line.
pub const NL: u8 = 10;

/// The carriage return byte that may precede a line feed.
pub const CR: u8 = 13;

/// The byte separating the key from the value inside a record.
pub const VALUE_SEPARATOR: u8 = 59;

/// Position of the last line feed in `bytes`, if there is one.
pub fn find_last_new_line_pos(bytes: &[u8]) -> (r: Option<usize>)
    ensures
        match r {
            Some(p) => p < bytes@.len() && bytes@[p as int] == NL
                && forall|i: int| p < i < bytes@.len() ==> bytes@[i] != NL,
            None => forall|i: int| 0 <= i < bytes@.len() ==> bytes@[i] != NL,
        },
{
    let mut i: usize = bytes.len();
    while i > 0
        invariant
            i <= bytes@.len(),
            forall|j: int| i <= j < bytes@.len() ==> bytes@[j] != NL,
        decreases i,
    {
        i = i - 1;
        if *vstd::slice::slice_index_get(bytes, i) == NL {
            return Some(i);
        }
    }
    None
}

/// Splits `haystack` at the first occurrence of `needle`, which is dropped.
pub fn split_once_byte<'a>(haystack: &'a [u8], needle: u8) -> (r: Option<(&'a [u8], &'a [u8])>)
    ensures
        match r {
            Some(parts) => {
                let p = parts.0@.len() as int;
                &&& p < haystack@.len()
                &&& haystack@[p] == needle
                &&& forall|i: int| 0 <= i < p ==> haystack@[i] != needle
                &&& parts.0@ == haystack@.subrange(0, p)
                &&& parts.1@ == haystack@.subrange(p + 1, haystack@.len() as int)
            },
            None => forall|i: int| 0 <= i < haystack@.len() ==> haystack@[i] != needle,
        },
{
    let mut i: usize = 0;
    while i < haystack.len()
        invariant
            i <= haystack@.len(),
            forall|j: int| 0 <= j < i ==> haystack@[j] != needle,
        decreases haystack@.len() - i,
    {
        if *vstd::slice::slice_index_get(haystack, i) == needle {
            let pre = slice_subrange(haystack, 0, i);
            let post = slice_subrange(haystack, i + 1, haystack.len());
            return Some((pre, post));
        }
        i = i + 1;
    }
    None
}

/// `s` with one trailing line feed removed, and a carriage return beneath it.
pub open spec fn trim_nl_spec(s: Seq<u8>) -> Seq<u8> {
    if s.len() > 0 && s[s.len() - 1] == NL {
        let t = s.subrange(0, s.len() - 1);
        if t.len() > 0 && t[t.len() - 1] == CR {
            t.subrange(0, t.len() - 1)
        } else {
            t
        }
    } else {
        s
    }
}

/// Strips a single trailing LF, and a single CR beneath it if present.
pub fn trim_new_line(s: &[u8]) -> (r: &[u8])
    ensures
        r@ == trim_nl_spec(s@),
{
    let mut trimmed: &[u8] = s;
    if trimmed.len() > 0 && *vstd::slice::slice_index_get(trimmed, trimmed.len() - 1) == NL {
        trimmed = slice_subrange(trimmed, 0, trimmed.len() - 1);
        if trimmed.len() > 0 && *vstd::slice::slice_index_get(trimmed, trimmed.len() - 1) == CR {
            trimmed = slice_subrange(trimmed, 0, trimmed.len() - 1);
        }
    }
    trimmed
}

/// Appends a byte slice to a vector.
pub fn append_bytes(dst: &mut Vec<u8>, src: &[u8])
    ensures
        final(dst)@ == old(dst)@ + src@,
{
    let mut i: usize = 0;
    while i < src.len()
        invariant
            i <= src@.len(),
            dst@ == old(dst)@ + src@.subrange(0, i as int),
        decreases src@.len() - i,
    {
        dst.push(*vstd::slice::slice_index_get(src, i));
        proof {
            assert(old(dst)@ + src@.subrange(0, i as int) + seq![src@[i as int]] =~= old(dst)@
                + src@.subrange(0, i + 1));
        }
        i = i + 1;
    }
    proof {
        assert(old(dst)@ + src@.subrange(0, src@.len() as int) =~= old(dst)@ + src@);
    }
}

/// Index of the first occurrence of `b` in `s`, or `s.len()` if absent.
pub open spec fn first_byte(s: Seq<u8>, b: u8) -> nat
    decreases s.len(),
{
    if s.len() == 0 {
        0
    } else if s[0] == b {
        0
    } else {
        1 + first_byte(s.skip(1), b)
    }
}

/// `first_byte` names the first occurrence: nothing of `b` stands before it,
/// and it lies on `b` whenever `b` occurs at all.
pub proof fn lemma_first_byte(s: Seq<u8>, b: u8)
    ensures
        first_byte(s, b) <= s.len(),
        first_byte(s, b) < s.len() ==> s[first_byte(s, b) as int] == b,
        forall|i: int| 0 <= i < first_byte(s, b) ==> s[i] != b,
    decreases s.len(),
{
    if s.len() > 0 && s[0] != b {
        lemma_first_byte(s.skip(1), b);
        assert forall|i: int| 0 <= i < first_byte(s, b) implies s[i] != b by {
            if i > 0 {
                assert(s.skip(1)[i - 1] == s[i]);
            }
        }
        if first_byte(s, b) < s.len() {
            assert(s.skip(1)[first_byte(s, b) - 1] == s[first_byte(s, b) as int]);
        }
    }
}

/// An occurrence with nothing of `b` before it is the first occurrence.
pub proof fn lemma_first_byte_at(s: Seq<u8>, b: u8, p: int)
    requires
        0 <= p < s.len(),
        s[p] == b,
        forall|i: int| 0 <= i < p ==> s[i] != b,
    ensures
        first_byte(s, b) == p,
    decreases s.len(),
{
    if p > 0 {
        assert forall|i: int| 0 <= i < p - 1 implies s.skip(1)[i] != b by {
            assert(s.skip(1)[i] == s[i + 1]);
        }
        assert(s.skip(1)[p - 1] == s[p]);
        lemma_first_byte_at(s.skip(1), b, p - 1);
    }
}

/// A seq without `b` has `first_byte` at its end.
pub proof fn lemma_first_byte_absent(s: Seq<u8>, b: u8)
    requires
        forall|i: int| 0 <= i < s.len() ==> s[i] != b,
    ensures
        first_byte(s, b) == s.len(),
{
    lemma_first_byte(s, b);
}

/// The lines of `s`, each kept with its terminator.
/// The last line may lack one; an empty input has no lines.
pub open spec fn lines_of(s: Seq<u8>) -> Seq<Seq<u8>>
    decreases s.len(),
{
    if s.len() == 0 {
        Seq::empty()
    } else {
        let p = first_byte(s, NL) as int;
        if p < s.len() {
            seq![s.subrange(0, p + 1)] + lines_of(s.subrange(p + 1, s.len() as int))
        } else {
            seq![s]
        }
    }
}

/// The key and value of one line, split at the first separator of its
/// trimmed form; `None` when the separator is missing.
pub open spec fn record_of(line: Seq<u8>) -> Option<(Seq<u8>, Seq<u8>)> {
    let t = trim_nl_spec(line);
    let p = first_byte(t, VALUE_SEPARATOR) as int;
    if p < t.len() {
        Some((t.subrange(0, p), t.subrange(p + 1, t.len() as int)))
    } else {
        None
    }
}

/// The records of a sequence of lines; `None` as soon as one line has none.
pub open spec fn records_of_lines(ls: Seq<Seq<u8>>) -> Option<Seq<(Seq<u8>, Seq<u8>)>>
    decreases ls.len(),
{
    if ls.len() == 0 {
        Some(Seq::empty())
    } else {
        match record_of(ls[0]) {
            Option::None => Option::None,
            Option::Some(r) => match records_of_lines(ls.skip(1)) {
                Option::None => Option::None,
                Option::Some(rest) => Some(seq![r] + rest),
            },
        }
    }
}

/// All records of a byte stream, line by line.
pub open spec fn records_of(s: Seq<u8>) -> Option<Seq<(Seq<u8>, Seq<u8>)>> {
    records_of_lines(lines_of(s))
}

/// One parsed record: the raw key bytes and the raw value bytes.
pub struct Record {
    pub key: Vec<u8>,
    pub value: Vec<u8>,
}

impl View for Record {
    type V = (Seq<u8>, Seq<u8>);

    open spec fn view(&self) -> (Seq<u8>, Seq<u8>) {
        (self.key@, self.value@)
    }
}

/// The one malformation a record can show: no separator in its line.
#[derive(Clone, Copy, Debug, PartialEq, Eq, Structural)]
pub enum ParseError {
    MissingSeparator,
}

/// End of the line that starts at `start`: just past the first LF at or
/// after `start`, or the end of `bytes` when no LF follows.
pub open spec fn line_end_spec(s: Seq<u8>, start: int) -> int {
    let sub = s.subrange(start, s.len() as int);
    let p = first_byte(sub, NL) as int;
    if p < sub.len() {
        start + p + 1
    } else {
        s.len() as int
    }
}

/// Finds the end of the line starting at `start`.
pub fn next_line_end(bytes: &[u8], start: usize) -> (r: usize)
    requires
        start < bytes@.len(),
    ensures
        start < r <= bytes@.len(),
        r == line_end_spec(bytes@, start as int),
{
    let ghost sub = bytes@.subrange(start as int, bytes@.len() as int);
    proof {
        lemma_first_byte(sub, NL);
    }
    let mut i: usize = start;
    while i < bytes.len()
        invariant
            start <= i <= bytes@.len(),
            sub == bytes@.subrange(start as int, bytes@.len() as int),
            forall|j: int| start <= j < i ==> bytes@[j] != NL,
        decreases bytes@.len() - i,
    {
        if *vstd::slice::slice_index_get(bytes, i) == NL {
            proof {
                assert forall|j: int| 0 <= j < i - start implies sub[j] != NL by {
                    assert(sub[j] == bytes@[start + j]);
                }
                assert(sub[i - start] == bytes@[i as int]);
                lemma_first_byte_at(sub, NL, i - start);
            }
            return i + 1;
        }
        i = i + 1;
    }
    proof {
        assert forall|j: int| 0 <= j < sub.len() implies sub[j] != NL by {
            assert(sub[j] == bytes@[start + j]);
        }
        lemma_first_byte_absent(sub, NL);
    }
    bytes.len()
}

/// Parses one line into its record.
/// Returns `Ok` exactly when the trimmed line contains the separator.
pub fn parse_record(line: &[u8]) -> (r: Result<Record, ParseError>)
    ensures
        match r {
            Ok(rec) => record_of(line@) == Some(rec@),
            Err(e) => record_of(line@) is None && e == ParseError::MissingSeparator,
        },
{
    let trimmed = trim_new_line(line);
    match split_once_byte(trimmed, VALUE_SEPARATOR) {
        Some(parts) => {
            proof {
                lemma_first_byte_at(trimmed@, VALUE_SEPARATOR, parts.0@.len() as int);
            }
            let key = vstd::slice::slice_to_vec(parts.0);
            let value = vstd::slice::slice_to_vec(parts.1);
            Ok(Record { key, value })
        },
        None => {
            proof {
                lemma_first_byte_absent(trimmed@, VALUE_SEPARATOR);
            }
            Err(ParseError::MissingSeparator)
        },
    }
}

/// Joins an already-parsed prefix with what remains of a stream.
pub open spec fn joined_records(
    done: Seq<(Seq<u8>, Seq<u8>)>,
    rest: Option<Seq<(Seq<u8>, Seq<u8>)>>,
) -> Option<Seq<(Seq<u8>, Seq<u8>)>> {
    match rest {
        Option::None => Option::None,
        Option::Some(t) => Option::Some(done + t),
    }
}

/// Parses every line of a chunk, in order.
/// Returns `Ok` exactly when every line of the chunk holds the separator;
/// the first line without one stops the pass.
pub fn parse_chunk(chunk: &[u8]) -> (r: Result<Vec<Record>, ParseError>)
    ensures
        match r {
            Ok(recs) => records_of(chunk@) == Some(recs@.map_values(|rec: Record| rec@)),
            Err(e) => records_of(chunk@) is None && e == ParseError::MissingSeparator,
        },
{
    let mut out: Vec<Record> = Vec::new();
    let mut start: usize = 0;
    proof {
        assert(chunk@.subrange(0, chunk@.len() as int) =~= chunk@);
        assert(out@.map_values(|rec: Record| rec@) =~= Seq::<(Seq<u8>, Seq<u8>)>::empty());
    }
    while start < chunk.len()
        invariant
            start <= chunk@.len(),
            records_of(chunk@) == joined_records(
                out@.map_values(|rec: Record| rec@),
                records_of(chunk@.subrange(start as int, chunk@.len() as int)),
            ),
        decreases chunk@.len() - start,
    {
        let end = next_line_end(chunk, start);
        let ghost sub = chunk@.subrange(start as int, chunk@.len() as int);
        let ghost line_g = chunk@.subrange(start as int, end as int);
        proof {
            lemma_first_byte(sub, NL);
            let p = first_byte(sub, NL) as int;
            assert(line_g =~= sub.subrange(0, if p < sub.len() { p + 1 } else { sub.len() as int }));
            assert(chunk@.subrange(end as int, chunk@.len() as int) =~= sub.subrange(
                line_g.len() as int,
                sub.len() as int,
            ));
            if p < sub.len() {
                assert(lines_of(sub) == seq![sub.subrange(0, p + 1)] + lines_of(
                    sub.subrange(p + 1, sub.len() as int),
                ));
            } else {
                assert(lines_of(sub) == seq![sub]);
                assert(lines_of(sub) == seq![line_g] + lines_of(
                    chunk@.subrange(end as int, chunk@.len() as int),
                ));
            }
            assert(lines_of(sub)[0] == line_g);
            assert(lines_of(sub).skip(1) =~= lines_of(
                chunk@.subrange(end as int, chunk@.len() as int),
            ));
        }
        let line = slice_subrange(chunk, start, end);
        match parse_record(line) {
            Ok(rec) => {
                let ghost old_out = out@;
                out.push(rec);
                proof {
                    assert(out@.map_values(|r2: Record| r2@) =~= old_out.map_values(
                        |r2: Record| r2@,
                    ) + seq![rec@]);
                    let rest2 = records_of(chunk@.subrange(end as int, chunk@.len() as int));
                    if rest2 is Some {
                        assert(seq![rec@] + rest2->Some_0 =~= (seq![rec@] + rest2->Some_0));
                        assert(old_out.map_values(|r2: Record| r2@) + (seq![rec@] + rest2->Some_0)
                            =~= out@.map_values(|r2: Record| r2@) + rest2->Some_0);
                    }
                }
            },
            Err(e) => {
                return Err(e);
            },
        }
        start = end;
    }
    proof {
        assert(chunk@.subrange(start as int, chunk@.len() as int) =~= Seq::<u8>::empty());
        assert(lines_of(Seq::<u8>::empty()) == Seq::<Seq<u8>>::empty());
        let done = out@.map_values(|rec: Record| rec@);
        assert(done + Seq::<(Seq<u8>, Seq<u8>)>::empty() =~= done);
    }
    Ok(out)
}

} // verus!
