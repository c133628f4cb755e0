//! Assembly of the final textual report.
//!
//! The report is one line: `{key1=min/avg/max, key2=min/avg/max, ...}`,
//! keys in ascending byte order, closed by a line feed. The three
//! numbers of each entry reach this module already rendered, as bytes;
//! the crate itself never computes with floating-point values.

use vstd::prelude::*;
use crate::lines::{append_bytes, NL};
use crate::shard::ShardMap;
use crate::stats::Stats;

verus! {

/// `{`
pub const LBRACE: u8 = 123;

/// `}`
pub const RBRACE: u8 = 125;

/// `=`
pub const EQUALS: u8 = 61;

/// `/`
pub const SLASH: u8 = 47;

/// `,`
pub const COMMA: u8 = 44;

/// ` `
pub const SPACE: u8 = 32;

/// One entry's three numbers, rendered: minimum, average, maximum.
pub struct Rendered {
    pub min: Vec<u8>,
    pub avg: Vec<u8>,
    pub max: Vec<u8>,
}

impl View for Rendered {
    type V = (Seq<u8>, Seq<u8>, Seq<u8>);

    open spec fn view(&self) -> (Seq<u8>, Seq<u8>, Seq<u8>) {
        (self.min@, self.avg@, self.max@)
    }
}

/// One `key=min/avg/max` cell.
pub open spec fn entry_bytes(key: Seq<u8>, rend: (Seq<u8>, Seq<u8>, Seq<u8>)) -> Seq<u8> {
    key + seq![EQUALS] + rend.0 + seq![SLASH] + rend.1 + seq![SLASH] + rend.2
}

/// The report's body over the first `n` entries, comma-separated.
pub open spec fn body_bytes(
    entries: Seq<(Seq<u8>, Stats)>,
    rend: Seq<(Seq<u8>, Seq<u8>, Seq<u8>)>,
    n: int,
) -> Seq<u8>
    decreases n,
{
    if n <= 0 {
        Seq::empty()
    } else if n == 1 {
        entry_bytes(entries[0].0, rend[0])
    } else {
        body_bytes(entries, rend, n - 1) + seq![COMMA, SPACE] + entry_bytes(
            entries[n - 1].0,
            rend[n - 1],
        )
    }
}

/// The whole report: braces round the body, a line feed at the end.
pub open spec fn report_bytes(
    entries: Seq<(Seq<u8>, Stats)>,
    rend: Seq<(Seq<u8>, Seq<u8>, Seq<u8>)>,
) -> Seq<u8> {
    seq![LBRACE] + body_bytes(entries, rend, entries.len() as int) + seq![RBRACE, NL]
}

/// Lays the report out, entry by entry, in the map's own (ascending)
/// key order; `rendered[i]` must carry the numbers of entry `i`.
pub fn format_report(m: &ShardMap, rendered: &Vec<Rendered>) -> (out: Vec<u8>)
    requires
        m.wf(),
        rendered@.len() == m@.len(),
    ensures
        out@ == report_bytes(m@, rendered@.map_values(|r: Rendered| r@)),
{
    let ghost rend = rendered@.map_values(|r: Rendered| r@);
    let mut out: Vec<u8> = Vec::new();
    out.push(LBRACE);
    let n = m.len();
    let mut i: usize = 0;
    proof {
        assert(out@ =~= seq![LBRACE] + body_bytes(m@, rend, 0));
    }
    while i < n
        invariant
            n == m@.len(),
            rendered@.len() == n,
            rend == rendered@.map_values(|r: Rendered| r@),
            m.wf(),
            i <= n,
            out@ == seq![LBRACE] + body_bytes(m@, rend, i as int),
        decreases n - i,
    {
        if i > 0 {
            out.push(COMMA);
            out.push(SPACE);
        }
        let e = m.entry_at(i);
        append_bytes(&mut out, e.0.as_slice());
        out.push(EQUALS);
        let r = vstd::std_specs::vec::vec_index(rendered, i);
        append_bytes(&mut out, r.min.as_slice());
        out.push(SLASH);
        append_bytes(&mut out, r.avg.as_slice());
        out.push(SLASH);
        append_bytes(&mut out, r.max.as_slice());
        proof {
            assert(rend[i as int] == rendered@[i as int]@);
            if i == 0 {
                assert(out@ =~= seq![LBRACE] + body_bytes(m@, rend, 1));
            } else {
                assert(out@ =~= seq![LBRACE] + (body_bytes(m@, rend, i as int) + seq![
                    COMMA,
                    SPACE,
                ] + entry_bytes(m@[i as int].0, rend[i as int])));
                assert(out@ =~= seq![LBRACE] + body_bytes(m@, rend, i + 1));
            }
        }
        i = i + 1;
    }
    out.push(RBRACE);
    out.push(NL);
    proof {
        assert(out@ =~= report_bytes(m@, rend));
    }
    out
}

} // verus!
