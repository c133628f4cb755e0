//! Line-aligned chunking of a byte stream.
//!
//! The reader hands over the bytes of each read in order; the chunker
//! cuts the stream at line feeds, so that no line is ever split across
//! two chunks, and keeps the unterminated tail for the next read. The
//! ghost history records every byte fed and every chunk cut: laying the
//! chunks end to end, followed by the tail, reproduces the stream.

use vstd::prelude::*;
use crate::lines::{
    append_bytes, find_last_new_line_pos, first_byte, joined_records, lemma_first_byte,
    lemma_first_byte_at, lines_of, records_of, records_of_lines, record_of, NL,
};

verus! {

/// All chunks laid end to end, in the order they were cut.
pub open spec fn concat_all(cs: Seq<Seq<u8>>) -> Seq<u8>
    decreases cs.len(),
{
    if cs.len() == 0 {
        Seq::empty()
    } else {
        concat_all(cs.drop_last()) + cs.last()
    }
}

/// A chunk is line-aligned: nonempty, and closed by a line feed.
pub open spec fn chunk_aligned(c: Seq<u8>) -> bool {
    c.len() > 0 && c[c.len() - 1] == NL
}

/// The chunker's one failure: a single record fills the whole read
/// buffer without a line feed.
#[derive(Clone, Copy, Debug, PartialEq, Eq, Structural)]
pub enum ChunkError {
    BufferFull,
}

/// Cuts a byte stream, fed read by read, into line-aligned chunks.
pub struct Chunker {
    pending: Vec<u8>,
    cap: usize,
    history: Ghost<Seq<u8>>,
    sent: Ghost<Seq<Seq<u8>>>,
}

impl Chunker {
    /// The unterminated tail retained from what was fed so far.
    pub closed spec fn pending_bytes(&self) -> Seq<u8> {
        self.pending@
    }

    /// The fixed size of the read buffer: no record may exceed it.
    pub closed spec fn capacity(&self) -> usize {
        self.cap
    }

    /// Every byte ever fed, in order.
    pub closed spec fn history(&self) -> Seq<u8> {
        self.history@
    }

    /// Every chunk ever cut, in order.
    pub closed spec fn chunks(&self) -> Seq<Seq<u8>> {
        self.sent@
    }

    /// What holds between any two calls: the tail holds no line feed and
    /// leaves room in the buffer, every chunk cut is line-aligned, and
    /// the chunks followed by the tail reproduce the bytes fed exactly.
    pub open spec fn wf(&self) -> bool {
        &&& 1 <= self.capacity()
        &&& self.pending_bytes().len() < self.capacity()
        &&& (forall|i: int|
            0 <= i < self.pending_bytes().len() ==> self.pending_bytes()[i] != NL)
        &&& concat_all(self.chunks()) + self.pending_bytes() == self.history()
        &&& (forall|i: int| 0 <= i < self.chunks().len() ==> chunk_aligned(#[trigger] self.chunks()[i]))
    }

    /// A fresh chunker over a buffer of `cap` bytes.
    pub fn new(cap: usize) -> (r: Chunker)
        requires
            cap >= 1,
        ensures
            r.wf(),
            r.capacity() == cap,
            r.history() == Seq::<u8>::empty(),
            r.chunks() == Seq::<Seq<u8>>::empty(),
            r.pending_bytes() == Seq::<u8>::empty(),
    {
        let r = Chunker {
            pending: Vec::new(),
            cap,
            history: Ghost(Seq::empty()),
            sent: Ghost(Seq::empty()),
        };
        proof {
            assert(concat_all(r.chunks()) + r.pending_bytes() =~= Seq::<u8>::empty());
        }
        r
    }

    /// How many tail bytes are retained: a read may bring at most
    /// `capacity()` minus this many bytes.
    pub fn pending_len(&self) -> (r: usize)
        ensures
            r == self.pending_bytes().len(),
    {
        self.pending.len()
    }

    /// The fixed buffer size this chunker was made with.
    pub fn buf_capacity(&self) -> (r: usize)
        ensures
            r == self.capacity(),
    {
        self.cap
    }

    /// Takes the bytes of one read. Cuts a chunk at the last line feed
    /// of tail-plus-read and keeps what follows it; without a line feed
    /// the bytes only join the tail, and a tail that would fill the
    /// whole buffer is the fatal capacity error, which changes nothing.
    pub fn feed(&mut self, bytes: &[u8]) -> (r: Result<Option<Vec<u8>>, ChunkError>)
        requires
            old(self).wf(),
            old(self).pending_bytes().len() + bytes@.len() <= old(self).capacity(),
        ensures
            final(self).wf(),
            final(self).capacity() == old(self).capacity(),
            match r {
                Ok(opt) => {
                    &&& final(self).history() == old(self).history() + bytes@
                    &&& match opt {
                        Some(chunk) => {
                            &&& chunk_aligned(chunk@)
                            &&& chunk@ + final(self).pending_bytes() == old(
                                self,
                            ).pending_bytes() + bytes@
                            &&& final(self).chunks() == old(self).chunks().push(chunk@)
                        },
                        None => {
                            &&& (forall|i: int| 0 <= i < bytes@.len() ==> bytes@[i] != NL)
                            &&& final(self).pending_bytes() == old(self).pending_bytes() + bytes@
                            &&& final(self).chunks() == old(self).chunks()
                        },
                    }
                },
                Err(e) => {
                    &&& e == ChunkError::BufferFull
                    &&& (forall|i: int| 0 <= i < bytes@.len() ==> bytes@[i] != NL)
                    &&& old(self).pending_bytes().len() + bytes@.len() == old(self).capacity()
                    &&& final(self).history() == old(self).history()
                    &&& final(self).chunks() == old(self).chunks()
                    &&& final(self).pending_bytes() == old(self).pending_bytes()
                },
            },
    {
        let mut all: Vec<u8> = Vec::new();
        append_bytes(&mut all, self.pending.as_slice());
        append_bytes(&mut all, bytes);
        proof {
            assert(all@ =~= old(self).pending_bytes() + bytes@);
        }
        match find_last_new_line_pos(all.as_slice()) {
            Some(p) => {
                let chunk = vstd::slice::slice_to_vec(
                    vstd::slice::slice_subrange(all.as_slice(), 0, p + 1),
                );
                let rest = vstd::slice::slice_to_vec(
                    vstd::slice::slice_subrange(all.as_slice(), p + 1, all.len()),
                );
                self.pending = rest;
                proof {
                    self.history@ = self.history@ + bytes@;
                    self.sent@ = self.sent@.push(chunk@);
                    assert(self.sent@.drop_last() =~= old(self).chunks());
                    assert(chunk@ + self.pending@ =~= all@);
                    assert(concat_all(self.sent@) + self.pending@ =~= self.history@) by {
                        assert(concat_all(self.sent@) == concat_all(old(self).chunks()) + chunk@);
                        assert(concat_all(old(self).chunks()) + old(self).pending_bytes()
                            == old(self).history());
                    }
                    assert forall|i: int| 0 <= i < self.sent@.len() implies chunk_aligned(
                        #[trigger] self.sent@[i],
                    ) by {
                        if i < self.sent@.len() - 1 {
                            assert(self.sent@[i] == old(self).chunks()[i]);
                        }
                    }
                }
                Ok(Some(chunk))
            },
            None => {
                if all.len() < self.cap {
                    self.pending = all;
                    proof {
                        self.history@ = self.history@ + bytes@;
                        assert forall|i: int| 0 <= i < bytes@.len() implies bytes@[i] != NL by {
                            assert(self.pending@[old(self).pending_bytes().len() + i] == bytes@[i]);
                        }
                        assert(concat_all(self.sent@) + self.pending@ =~= self.history@);
                    }
                    Ok(None)
                } else {
                    proof {
                        assert forall|i: int| 0 <= i < bytes@.len() implies bytes@[i] != NL by {
                            assert(all@[old(self).pending_bytes().len() + i] == bytes@[i]);
                        }
                    }
                    Err(ChunkError::BufferFull)
                }
            },
        }
    }

    /// Ends the stream: hands out the unterminated tail as the final
    /// chunk, or nothing when the stream ended on a line feed.
    pub fn finish(self) -> (r: Option<Vec<u8>>)
        ensures
            match r {
                Some(tail) => tail@ == self.pending_bytes() && self.pending_bytes().len() > 0,
                None => self.pending_bytes().len() == 0,
            },
    {
        if self.pending.len() > 0 {
            Some(self.pending)
        } else {
            None
        }
    }

    /// The chunks cut so far, followed by the retained tail, are exactly
    /// the bytes fed so far: no byte is lost, none duplicated, and none
    /// reordered, whatever the reads looked like. And every chunk closes
    /// on a line feed, so no line is ever split across two chunks.
    pub proof fn lemma_reconstruction(&self)
        requires
            self.wf(),
        ensures
            concat_all(self.chunks()) + self.pending_bytes() == self.history(),
            forall|i: int| 0 <= i < self.chunks().len() ==> chunk_aligned(#[trigger] self.chunks()[i]),
    {
    }
}

/// An occurrence in the front part is unmoved by what follows it.
proof fn lemma_first_byte_append(a: Seq<u8>, b: Seq<u8>, x: u8)
    requires
        first_byte(a, x) < a.len(),
    ensures
        first_byte(a + b, x) == first_byte(a, x),
{
    let p = first_byte(a, x) as int;
    lemma_first_byte(a, x);
    assert((a + b)[p] == a[p]);
    assert forall|i: int| 0 <= i < p implies (a + b)[i] != x by {
        assert((a + b)[i] == a[i]);
    }
    lemma_first_byte_at(a + b, x, p);
}

/// A cut on a line feed splits the lines and nothing else: the lines of
/// a line-aligned front followed by a rest are the lines of the front
/// and then the lines of the rest.
pub proof fn lemma_lines_of_append(a: Seq<u8>, b: Seq<u8>)
    requires
        a.len() > 0 ==> a[a.len() - 1] == NL,
    ensures
        lines_of(a + b) == lines_of(a) + lines_of(b),
    decreases a.len(),
{
    if a.len() == 0 {
        assert(a + b =~= b);
        assert(lines_of(a) + lines_of(b) =~= lines_of(b));
    } else {
        let p = first_byte(a, NL) as int;
        lemma_first_byte(a, NL);
        assert(p < a.len());
        lemma_first_byte_append(a, b, NL);
        let ab = a + b;
        let rest_a = a.subrange(p + 1, a.len() as int);
        assert(ab.subrange(0, p + 1) =~= a.subrange(0, p + 1));
        assert(ab.subrange(p + 1, ab.len() as int) =~= rest_a + b);
        if rest_a.len() > 0 {
            assert(rest_a[rest_a.len() - 1] == a[a.len() - 1]);
        }
        lemma_lines_of_append(rest_a, b);
        if p < ab.len() {
            assert(lines_of(ab) == seq![ab.subrange(0, p + 1)] + lines_of(
                ab.subrange(p + 1, ab.len() as int),
            ));
        }
        assert(seq![a.subrange(0, p + 1)] + (lines_of(rest_a) + lines_of(b)) =~= (seq![
            a.subrange(0, p + 1),
        ] + lines_of(rest_a)) + lines_of(b));
    }
}

/// Records of laid-out lines come part by part.
proof fn lemma_records_of_lines_append(l1: Seq<Seq<u8>>, l2: Seq<Seq<u8>>)
    ensures
        records_of_lines(l1 + l2) == (match records_of_lines(l1) {
            Option::None => Option::None,
            Option::Some(x) => joined_records(x, records_of_lines(l2)),
        }),
    decreases l1.len(),
{
    if l1.len() == 0 {
        assert(l1 + l2 =~= l2);
        if records_of_lines(l2) is Some {
            assert(Seq::<(Seq<u8>, Seq<u8>)>::empty() + records_of_lines(l2)->Some_0
                =~= records_of_lines(l2)->Some_0);
        }
    } else {
        assert((l1 + l2)[0] == l1[0]);
        assert((l1 + l2).skip(1) =~= l1.skip(1) + l2);
        lemma_records_of_lines_append(l1.skip(1), l2);
        match record_of(l1[0]) {
            Option::None => {},
            Option::Some(r) => {
                match records_of_lines(l1.skip(1)) {
                    Option::None => {},
                    Option::Some(x) => {
                        match records_of_lines(l2) {
                            Option::None => {},
                            Option::Some(y) => {
                                assert(seq![r] + (x + y) =~= (seq![r] + x) + y);
                            },
                        }
                    },
                }
            },
        }
    }
}

/// The records of a sequence of chunks, chunk by chunk; `None` as soon
/// as one chunk has a malformed line.
pub open spec fn records_of_chunks(cs: Seq<Seq<u8>>) -> Option<Seq<(Seq<u8>, Seq<u8>)>>
    decreases cs.len(),
{
    if cs.len() == 0 {
        Option::Some(Seq::empty())
    } else {
        match records_of_chunks(cs.drop_last()) {
            Option::None => Option::None,
            Option::Some(x) => joined_records(x, records_of(cs.last())),
        }
    }
}

/// Chunk-boundary independence: parsing a stream chunk by chunk, over
/// any line-aligned cut whatever — so for every read-buffer size — gives
/// exactly the records of the whole stream, malformed lines included.
pub proof fn lemma_chunked_records(cs: Seq<Seq<u8>>, tail: Seq<u8>)
    requires
        forall|i: int| 0 <= i < cs.len() ==> chunk_aligned(#[trigger] cs[i]),
    ensures
        records_of(concat_all(cs) + tail) == (match records_of_chunks(cs) {
            Option::None => Option::None,
            Option::Some(x) => joined_records(x, records_of(tail)),
        }),
    decreases cs.len(),
{
    if cs.len() == 0 {
        assert(concat_all(cs) + tail =~= tail);
        if records_of(tail) is Some {
            assert(Seq::<(Seq<u8>, Seq<u8>)>::empty() + records_of(tail)->Some_0 =~= records_of(
                tail,
            )->Some_0);
        }
    } else {
        let front = cs.drop_last();
        let c = cs.last();
        assert(chunk_aligned(cs[cs.len() - 1]));
        assert forall|i: int| 0 <= i < front.len() implies chunk_aligned(#[trigger] front[i]) by {
            assert(front[i] == cs[i]);
        }
        assert(concat_all(cs) + tail =~= concat_all(front) + (c + tail));
        lemma_chunked_records(front, c + tail);
        lemma_lines_of_append(c, tail);
        lemma_records_of_lines_append(lines_of(c), lines_of(tail));
        match records_of_chunks(front) {
            Option::None => {},
            Option::Some(x) => {
                match records_of(c) {
                    Option::None => {},
                    Option::Some(y) => {
                        match records_of(tail) {
                            Option::None => {},
                            Option::Some(z) => {
                                assert(x + (y + z) =~= (x + y) + z);
                            },
                        }
                    },
                }
            },
        }
    }
}

} // verus!
