//! The buffering writer: a fixed byte store, its fill level and its sink kind.
use vstd::prelude::*;
use vstd::utf8::{valid_utf8, valid_utf8_concat, valid_utf8_split};

use crate::laws::{lemma_write_model, whole_segment};
use crate::text::{
    cut_at_or_below, is_char_boundary, lemma_cut_at_or_below, lemma_cut_near,
    lemma_cut_point_is_char_boundary, shift_by_char_boundary,
};

verus! {

/// Number of bytes a writer holds before it must flush.
pub const BUFFER_CAPACITY: usize = 4096;

/// Which sink receives the flushed text.
#[derive(Debug, PartialEq, Eq, Structural, Copy, Clone)]
pub enum ConsoleType {
    /// The error sink.
    Error,
    /// The warning sink.
    Warn,
    /// The information sink.
    Info,
    /// The debug sink.
    Debug,
}

/// How many leading bytes of `data` a buffer that holds `held` bytes takes
/// in: as many as fit, cut back to a character boundary.
pub open spec fn fit_len(held: nat, data: Seq<u8>) -> int {
    let room = BUFFER_CAPACITY - held;
    cut_at_or_below(data, if room < data.len() { room } else { data.len() as int })
}

/// Writing `data` into a buffer that holds `content`: the segments flushed,
/// in order, and what the buffer holds afterwards.
///
/// A full buffer is flushed whenever input remains. The last branch, where
/// nothing fits into an empty buffer, cannot be reached with valid UTF-8.
pub open spec fn write_model(content: Seq<u8>, data: Seq<u8>) -> (Seq<Seq<u8>>, Seq<u8>)
    decreases data.len(), content.len(),
{
    let k = fit_len(content.len(), data);
    let filled = content + data.subrange(0, k);
    let rest = data.subrange(k, data.len() as int);
    if !(0 <= k <= data.len()) || rest.len() == 0 {
        (Seq::empty(), filled)
    } else if 0 < k {
        let next = write_model(Seq::empty(), rest);
        (seq![filled] + next.0, next.1)
    } else if 0 < content.len() {
        let next = write_model(Seq::empty(), data);
        (seq![content] + next.0, next.1)
    } else {
        (Seq::empty(), content)
    }
}

/// The byte sequences held by a list of flushed segments.
pub open spec fn views(segments: Seq<Vec<u8>>) -> Seq<Seq<u8>> {
    segments.map_values(|v: Vec<u8>| v@)
}

/// A writer that gathers text in a fixed buffer and hands it out in whole
/// characters, one segment per flush.
pub struct Console {
    typ: ConsoleType,
    buffer: [u8; BUFFER_CAPACITY],
    len: usize,
}

impl View for Console {
    type V = Seq<u8>;

    /// The bytes buffered so far.
    closed spec fn view(&self) -> Seq<u8> {
        self.buffer@.subrange(0, self.len as int)
    }
}

impl Console {
    /// The fill level stays within the capacity and the buffered bytes are
    /// valid UTF-8.
    pub closed spec fn wf(&self) -> bool {
        &&& self.len <= BUFFER_CAPACITY
        &&& valid_utf8(self@)
    }

    /// The sink kind chosen at construction.
    pub closed spec fn kind(&self) -> ConsoleType {
        self.typ
    }

    /// A well-formed writer holds at most `BUFFER_CAPACITY` bytes of valid
    /// UTF-8.
    pub proof fn lemma_wf(&self)
        requires
            self.wf(),
        ensures
            self@.len() <= BUFFER_CAPACITY,
            valid_utf8(self@),
    {
    }

    /// Creates an empty writer for the given sink.
    pub fn new(typ: ConsoleType) -> (r: Self)
        ensures
            r.wf(),
            r@ == Seq::<u8>::empty(),
            r.kind() == typ,
    {
        let r = Console { typ, buffer: [0u8; BUFFER_CAPACITY], len: 0 };
        assert(r@ =~= Seq::<u8>::empty());
        r
    }

    /// The sink kind chosen at construction.
    pub fn typ(&self) -> (r: ConsoleType)
        ensures
            r == self.kind(),
    {
        self.typ
    }

    /// Number of bytes buffered.
    pub fn len(&self) -> (r: usize)
        requires
            self.wf(),
        ensures
            r as int == self@.len(),
            r <= BUFFER_CAPACITY,
    {
        self.len
    }

    /// The buffered bytes, read in place.
    pub fn buffer(&self) -> (r: &[u8])
        requires
            self.wf(),
        ensures
            r@ == self@,
    {
        let (head, _) = self.buffer.as_slice().split_at(self.len);
        head
    }

    /// Moves the buffered bytes out and empties the buffer.
    fn take_content(&mut self) -> (r: Vec<u8>)
        requires
            old(self).wf(),
        ensures
            final(self).wf(),
            final(self)@ == Seq::<u8>::empty(),
            final(self).typ == old(self).typ,
            r@ == old(self)@,
    {
        let mut out: Vec<u8> = Vec::with_capacity(self.len);
        let mut i: usize = 0;
        while i < self.len
            invariant
                i <= self.len <= BUFFER_CAPACITY,
                out@ == self.buffer@.subrange(0, i as int),
            decreases self.len - i,
        {
            out.push(self.buffer[i]);
            i += 1;
            assert(out@ =~= self.buffer@.subrange(0, i as int));
        }
        self.len = 0;
        assert(self@ =~= Seq::<u8>::empty());
        out
    }

    /// Flushes the buffer: when it holds anything, hands out its content as
    /// one segment for the sink and empties it; an empty buffer gives none.
    pub fn flush(&mut self) -> (r: Option<Vec<u8>>)
        requires
            old(self).wf(),
        ensures
            final(self).wf(),
            final(self)@ == Seq::<u8>::empty(),
            final(self).kind() == old(self).kind(),
            r is Some <==> old(self)@.len() > 0,
            r is Some ==> r->0@ == old(self)@,
    {
        if self.len > 0 {
            Some(self.take_content())
        } else {
            None
        }
    }

    /// Copies as much of `text` as fits, cut back to a character boundary,
    /// and returns what is left of it.
    fn copy_data<'a>(&mut self, text: &'a [u8]) -> (r: &'a [u8])
        requires
            old(self).wf(),
            valid_utf8(text@),
        ensures
            final(self).wf(),
            final(self).typ == old(self).typ,
            0 <= fit_len(old(self)@.len(), text@) <= text@.len(),
            final(self)@ == old(self)@ + text@.subrange(0, fit_len(old(self)@.len(), text@)),
            r@ == text@.subrange(fit_len(old(self)@.len(), text@), text@.len() as int),
            valid_utf8(r@),
    {
        let ghost before = self@;
        let room = BUFFER_CAPACITY - self.len;
        let mut write_len = if room < text.len() {
            room
        } else {
            text.len()
        };
        let ghost most = write_len as int;
        if !is_char_boundary(text, write_len) {
            write_len = shift_by_char_boundary(text, write_len - 1);
        }
        assert(write_len as int == fit_len(before.len(), text@));
        proof {
            lemma_cut_at_or_below(text@, most);
        }
        let base = self.len;
        let mut i: usize = 0;
        while i < write_len
            invariant
                base == self.len,
                base + write_len <= BUFFER_CAPACITY,
                write_len <= text@.len(),
                i <= write_len,
                self.typ == old(self).typ,
                self.buffer@.subrange(0, base as int) == before,
                forall|j: int| 0 <= j < i ==> self.buffer@[base + j] == text@[j],
            decreases write_len - i,
        {
            self.buffer[base + i] = text[i];
            i += 1;
            assert(self.buffer@.subrange(0, base as int) =~= before);
        }
        self.len = base + write_len;
        let ghost taken = text@.subrange(0, write_len as int);
        let ghost left = text@.subrange(write_len as int, text@.len() as int);
        assert(self@ =~= before + taken);
        proof {
            lemma_cut_point_is_char_boundary(text@, write_len as int);
            valid_utf8_split(text@, write_len as int);
            valid_utf8_concat(before, taken);
        }
        let (_, r) = text.split_at(write_len);
        r
    }

    /// Writes `data` into the buffer, flushing the full buffer each time
    /// input remains, and returns the flushed segments in order.
    pub fn write_data(&mut self, data: &[u8]) -> (r: Vec<Vec<u8>>)
        requires
            old(self).wf(),
            valid_utf8(data@),
        ensures
            final(self).wf(),
            final(self).kind() == old(self).kind(),
            views(r@) == write_model(old(self)@, data@).0,
            final(self)@ == write_model(old(self)@, data@).1,
            views(r@).flatten() + final(self)@ == old(self)@ + data@,
            forall|j: int| 0 <= j < r@.len() ==> whole_segment(#[trigger] r@[j]@),
    {
        proof {
            lemma_write_model(self@, data@);
        }
        let ghost start = self@;
        let mut segments: Vec<Vec<u8>> = Vec::new();
        let mut rest: &[u8] = data;
        loop
            invariant
                self.wf(),
                self.typ == old(self).typ,
                valid_utf8(rest@),
                views(segments@) + write_model(self@, rest@).0 == write_model(start, data@).0,
                write_model(self@, rest@).1 == write_model(start, data@).1,
            ensures
                self.wf(),
                self.typ == old(self).typ,
                views(segments@) == write_model(start, data@).0,
                self@ == write_model(start, data@).1,
            decreases rest@.len(), self@.len(),
        {
            let ghost content = self@;
            let ghost input = rest@;
            let ghost k = fit_len(content.len(), input);
            rest = self.copy_data(rest);
            if rest.len() == 0 {
                assert(views(segments@) + Seq::<Seq<u8>>::empty() =~= views(segments@));
                break;
            }
            proof {
                if content.len() == 0 {
                    if input.len() <= BUFFER_CAPACITY {
                        lemma_cut_at_or_below(input, input.len() as int);
                    } else {
                        lemma_cut_near(input, BUFFER_CAPACITY as int);
                    }
                }
            }
            assert(self@.len() > 0);
            let ghost filled = self@;
            let seg = self.take_content();
            let ghost old_segments = segments@;
            segments.push(seg);
            proof {
                assert(views(segments@) =~= views(old_segments).push(filled));
                if k > 0 {
                    assert(write_model(content, input).0
                        == seq![filled] + write_model(Seq::empty(), rest@).0);
                } else {
                    assert(rest@ =~= input);
                    assert(filled =~= content);
                }
                assert(views(old_segments).push(filled) + write_model(self@, rest@).0
                    =~= views(old_segments) + (seq![filled] + write_model(self@, rest@).0));
            }
        }
        assert forall|j: int| 0 <= j < segments@.len() implies whole_segment(
            #[trigger] segments@[j]@,
        ) by {
            assert(views(segments@)[j] == segments@[j]@);
        }
        segments
    }

    /// Closes the writer: flushes what it holds, once.
    pub fn finish(self) -> (r: Option<Vec<u8>>)
        requires
            self.wf(),
        ensures
            r is Some <==> self@.len() > 0,
            r is Some ==> r->0@ == self@,
    {
        let mut w = self;
        w.flush()
    }
}

} // verus!
