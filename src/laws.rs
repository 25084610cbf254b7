//! What holds of every run of writes and flushes.
use vstd::prelude::*;
use vstd::seq_lib::lemma_flatten_concat;
use vstd::utf8::{valid_utf8, valid_utf8_concat, valid_utf8_split};

use crate::console::{fit_len, write_model, BUFFER_CAPACITY};
use crate::text::{lemma_cut_at_or_below, lemma_cut_near, lemma_cut_point_is_char_boundary};

verus! {

/// Writing each of `inputs` in turn into an empty writer: the segments
/// flushed along the way and what the buffer holds at the end.
pub open spec fn write_all(inputs: Seq<Seq<u8>>) -> (Seq<Seq<u8>>, Seq<u8>)
    decreases inputs.len(),
{
    if inputs.len() == 0 {
        (Seq::empty(), Seq::empty())
    } else {
        let prev = write_all(inputs.drop_last());
        let step = write_model(prev.1, inputs.last());
        (prev.0 + step.0, step.1)
    }
}

/// Everything the sink receives when `inputs` are written in turn and the
/// writer is then closed: the flushed segments, then the final flush if
/// anything is left.
pub open spec fn sink_calls(inputs: Seq<Seq<u8>>) -> Seq<Seq<u8>> {
    let end = write_all(inputs);
    if end.1.len() > 0 {
        end.0.push(end.1)
    } else {
        end.0
    }
}

/// A segment the sink may receive: non-empty, no longer than the buffer and
/// valid UTF-8 on its own.
pub open spec fn whole_segment(s: Seq<u8>) -> bool {
    0 < s.len() <= BUFFER_CAPACITY && valid_utf8(s)
}

/// One write of valid UTF-8 loses no byte and reorders none: the flushed
/// segments followed by what stays buffered are the old content followed by
/// the input. From a buffer of whole characters within the capacity, every
/// segment is whole and the buffer stays so.
pub proof fn lemma_write_model(content: Seq<u8>, data: Seq<u8>)
    requires
        valid_utf8(data),
    ensures
        write_model(content, data).0.flatten() + write_model(content, data).1 == content + data,
        valid_utf8(content) && content.len() <= BUFFER_CAPACITY ==> {
            &&& forall|j: int|
                0 <= j < write_model(content, data).0.len() ==> whole_segment(
                    #[trigger] write_model(content, data).0[j],
                )
            &&& valid_utf8(write_model(content, data).1)
            &&& write_model(content, data).1.len() <= BUFFER_CAPACITY
        },
    decreases data.len(), content.len(),
{
    let k = fit_len(content.len(), data);
    let room = BUFFER_CAPACITY - content.len();
    let most = if room < data.len() {
        room
    } else {
        data.len() as int
    };
    if most >= 0 {
        lemma_cut_at_or_below(data, most);
    }
    assert(0 <= k <= data.len());
    assert(content.len() <= BUFFER_CAPACITY ==> k <= room);
    let filled = content + data.subrange(0, k);
    let rest = data.subrange(k, data.len() as int);
    lemma_cut_point_is_char_boundary(data, k);
    valid_utf8_split(data, k);
    let taken = data.subrange(0, k);
    assert(data =~= taken + rest);
    if valid_utf8(content) {
        valid_utf8_concat(content, taken);
    }
    if rest.len() == 0 {
        assert(write_model(content, data).0.flatten() =~= Seq::<u8>::empty());
        assert(filled =~= content + data);
    } else if 0 < k {
        lemma_write_model(Seq::empty(), rest);
        let next = write_model(Seq::empty(), rest);
        lemma_flatten_concat(seq![filled], next.0);
        seq![filled].lemma_flatten_one_element();
        assert(Seq::<u8>::empty() + rest =~= rest);
        assert(filled + rest =~= content + data);
        assert(write_model(content, data).0 == seq![filled] + next.0);
        assert forall|j: int| 1 <= j < write_model(content, data).0.len() implies
            write_model(content, data).0[j] == next.0[j - 1] by {}
    } else if 0 < content.len() {
        lemma_write_model(Seq::empty(), data);
        let next = write_model(Seq::empty(), data);
        lemma_flatten_concat(seq![content], next.0);
        seq![content].lemma_flatten_one_element();
        assert(Seq::<u8>::empty() + data =~= data);
        assert(write_model(content, data).0 == seq![content] + next.0);
        assert forall|j: int| 1 <= j < write_model(content, data).0.len() implies
            write_model(content, data).0[j] == next.0[j - 1] by {}
    } else {
        if data.len() <= BUFFER_CAPACITY {
            lemma_cut_at_or_below(data, data.len() as int);
        } else {
            lemma_cut_near(data, BUFFER_CAPACITY as int);
        }
    }
}

/// Writing valid UTF-8 inputs in turn: the segments flushed so far followed
/// by what the buffer holds are the inputs joined, every segment is whole,
/// and the buffer holds whole characters within the capacity.
proof fn lemma_write_all(inputs: Seq<Seq<u8>>)
    requires
        forall|i: int| 0 <= i < inputs.len() ==> valid_utf8(#[trigger] inputs[i]),
    ensures
        write_all(inputs).0.flatten() + write_all(inputs).1 == inputs.flatten(),
        forall|j: int|
            0 <= j < write_all(inputs).0.len() ==> whole_segment(#[trigger] write_all(inputs).0[j]),
        valid_utf8(write_all(inputs).1),
        write_all(inputs).1.len() <= BUFFER_CAPACITY,
    decreases inputs.len(),
{
    if inputs.len() == 0 {
        assert(write_all(inputs).0.flatten() + write_all(inputs).1 =~= inputs.flatten());
    } else {
        let front = inputs.drop_last();
        let prev = write_all(front);
        let step = write_model(prev.1, inputs.last());
        lemma_write_all(front);
        lemma_write_model(prev.1, inputs.last());
        lemma_flatten_concat(prev.0, step.0);
        front.lemma_flatten_push(inputs.last());
        assert(front.push(inputs.last()) =~= inputs);
        assert((prev.0 + step.0).flatten() + step.1 =~= prev.0.flatten() + (step.0.flatten()
            + step.1));
        assert(prev.0.flatten() + (prev.1 + inputs.last()) =~= (prev.0.flatten() + prev.1)
            + inputs.last());
        assert forall|j: int| 0 <= j < write_all(inputs).0.len() implies whole_segment(
            #[trigger] write_all(inputs).0[j],
        ) by {
            if j >= prev.0.len() {
                assert(write_all(inputs).0[j] == step.0[j - prev.0.len()]);
            } else {
                assert(write_all(inputs).0[j] == prev.0[j]);
            }
        }
    }
}

/// No corruption: whatever valid UTF-8 inputs are written, split however
/// the caller likes, the sink receives exactly their bytes, in order, once
/// the writer is closed.
pub proof fn lemma_no_corruption(inputs: Seq<Seq<u8>>)
    requires
        forall|i: int| 0 <= i < inputs.len() ==> valid_utf8(#[trigger] inputs[i]),
    ensures
        sink_calls(inputs).flatten() == inputs.flatten(),
{
    lemma_write_all(inputs);
    let end = write_all(inputs);
    if end.1.len() > 0 {
        end.0.lemma_flatten_push(end.1);
    } else {
        assert(end.0.flatten() + end.1 =~= end.0.flatten());
    }
}

/// Boundary safety: every segment the sink receives is non-empty, no longer
/// than the buffer, and decodes as UTF-8 on its own.
pub proof fn lemma_whole_segments(inputs: Seq<Seq<u8>>)
    requires
        forall|i: int| 0 <= i < inputs.len() ==> valid_utf8(#[trigger] inputs[i]),
    ensures
        forall|j: int| 0 <= j < sink_calls(inputs).len() ==> whole_segment(#[trigger] sink_calls(inputs)[j]),
{
    lemma_write_all(inputs);
    let end = write_all(inputs);
    assert forall|j: int| 0 <= j < sink_calls(inputs).len() implies whole_segment(
        #[trigger] sink_calls(inputs)[j],
    ) by {
        if j < end.0.len() {
            assert(sink_calls(inputs)[j] == end.0[j]);
        }
    }
}

} // verus!
