//! Outbound messages and the frames they are sent in.
//!
//! A frame holds whole messages only and never more than `BUFFER_SIZE` bytes.
//! Messages are packed in order, each frame taking as many as fit.

use std::io::ErrorKind;
use std::ops::Add;
use vstd::prelude::*;
use vstd::seq_lib::lemma_flatten_concat;
use vstd::std_specs::ops::AddSpecImpl;
use crate::message::{texts, views, wire_text, Message, MessageView};
use crate::text::{byte_len, lemma_encode_concat};
use crate::BUFFER_SIZE;

verus! {

/// `std::io::ErrorKind`, with its variants.
#[verifier::external_type_specification]
pub struct ExErrorKind(ErrorKind);

/// The wire texts of a run of messages.
pub open spec fn wire_texts(messages: Seq<MessageView>) -> Seq<Seq<char>> {
    messages.map_values(|m: MessageView| wire_text(m))
}

/// True when `text` is no longer than a frame may be.
pub open spec fn fits(text: Seq<char>) -> bool {
    byte_len(text) <= BUFFER_SIZE
}

/// True when each of `texts` alone fits a frame.
pub open spec fn all_fit(texts: Seq<Seq<char>>) -> bool {
    forall|i: int| 0 <= i < texts.len() ==> fits(#[trigger] texts[i])
}

/// How many of `texts`, taken from the front, fit together in `room` bytes.
pub open spec fn fit_count(texts: Seq<Seq<char>>, room: int) -> nat
    decreases texts.len(),
{
    if texts.len() == 0 || byte_len(texts[0]) > room {
        0
    } else {
        1 + fit_count(texts.drop_first(), room - byte_len(texts[0]))
    }
}

/// How many of `texts` go into the first frame: the first one, and as many
/// of those that follow as fit in what it leaves of a frame.
pub open spec fn first_group_len(texts: Seq<Seq<char>>) -> nat
    recommends
        texts.len() > 0,
{
    1 + fit_count(texts.drop_first(), BUFFER_SIZE - byte_len(texts[0]))
}

/// `texts` cut into the runs that go into one frame each.
pub open spec fn groups(texts: Seq<Seq<char>>) -> Seq<Seq<Seq<char>>>
    decreases texts.len(),
{
    if texts.len() == 0 {
        Seq::empty()
    } else {
        let k = first_group_len(texts) as int;
        proof {
            lemma_fit_count(texts.drop_first(), BUFFER_SIZE - byte_len(texts[0]));
        }
        seq![texts.take(k)] + groups(texts.skip(k))
    }
}

/// The frames that `texts` are sent in: each group written as one text.
pub open spec fn frames(texts: Seq<Seq<char>>) -> Seq<Seq<char>> {
    groups(texts).map_values(|group: Seq<Seq<char>>| group.flatten())
}

/// `fit_count` takes no more texts than there are, what it takes fits in
/// the room, and one more would not.
pub proof fn lemma_fit_count(texts: Seq<Seq<char>>, room: int)
    ensures
        fit_count(texts, room) <= texts.len(),
        room >= 0 ==> byte_len(texts.take(fit_count(texts, room) as int).flatten()) <= room,
        fit_count(texts, room) < texts.len() ==> byte_len(
            texts.take(fit_count(texts, room) as int + 1).flatten(),
        ) > room,
    decreases texts.len(),
{
    let k = fit_count(texts, room) as int;
    if texts.len() == 0 {
    } else if byte_len(texts[0]) > room {
        assert(texts.take(1) =~= seq![texts[0]]);
        seq![texts[0]].lemma_flatten_one_element();
    } else {
        let rest = texts.drop_first();
        lemma_fit_count(rest, room - byte_len(texts[0]));
        lemma_flatten_cons(texts[0], rest.take(k - 1));
        assert(texts.take(k) =~= seq![texts[0]] + rest.take(k - 1));
        if k < texts.len() {
            lemma_flatten_cons(texts[0], rest.take(k));
            assert(texts.take(k + 1) =~= seq![texts[0]] + rest.take(k));
        }
    }
}

/// Writing out a first text and then more is writing the first and then
/// what the others give.
pub proof fn lemma_flatten_cons(first: Seq<char>, more: Seq<Seq<char>>)
    ensures
        (seq![first] + more).flatten() == first + more.flatten(),
        byte_len((seq![first] + more).flatten()) == byte_len(first) + byte_len(more.flatten()),
{
    let all = seq![first] + more;
    assert(all.drop_first() =~= more);
    lemma_encode_concat(first, more.flatten());
}

/// What `groups` does with texts of which the first frame takes `k`.
proof fn lemma_groups_step(texts: Seq<Seq<char>>)
    requires
        texts.len() > 0,
    ensures
        1 <= first_group_len(texts) <= texts.len(),
        groups(texts) == seq![texts.take(first_group_len(texts) as int)] + groups(
            texts.skip(first_group_len(texts) as int),
        ),
        frames(texts) == seq![texts.take(first_group_len(texts) as int).flatten()] + frames(
            texts.skip(first_group_len(texts) as int),
        ),
{
    lemma_fit_count(texts.drop_first(), BUFFER_SIZE - byte_len(texts[0]));
}

/// The groups are a partition of the texts into runs: written one after the
/// other they give the texts back, in order, and none of them is empty. So no
/// text is cut, left out or repeated, and there are frames exactly when there
/// are texts.
pub proof fn lemma_groups_partition(texts: Seq<Seq<char>>)
    ensures
        groups(texts).flatten() == texts,
        forall|j: int| 0 <= j < groups(texts).len() ==> (#[trigger] groups(texts)[j]).len() > 0,
        frames(texts).len() == groups(texts).len(),
        groups(texts).len() <= texts.len(),
        groups(texts).len() == 0 <==> texts.len() == 0,
    decreases texts.len(),
{
    if texts.len() > 0 {
        let k = first_group_len(texts) as int;
        lemma_groups_step(texts);
        lemma_groups_partition(texts.skip(k));
        let rest = groups(texts.skip(k));
        let all = groups(texts);
        assert(all.drop_first() =~= rest);
        assert forall|j: int| 0 <= j < all.len() implies (#[trigger] all[j]).len() > 0 by {
        }
    }
}

/// Where each text alone fits a frame, every frame fits, and the frames
/// written one after the other are the texts written one after the other.
pub proof fn lemma_frames_fit(texts: Seq<Seq<char>>)
    requires
        all_fit(texts),
    ensures
        all_fit(frames(texts)),
        frames(texts).flatten() == texts.flatten(),
    decreases texts.len(),
{
    if texts.len() > 0 {
        let k = first_group_len(texts) as int;
        let first = texts.take(k);
        let rest = texts.skip(k);
        lemma_groups_step(texts);
        assert(all_fit(rest)) by {
            assert forall|i: int| 0 <= i < rest.len() implies fits(#[trigger] rest[i]) by {
            }
        }
        lemma_frames_fit(rest);
        assert(fits(first.flatten())) by {
            lemma_fit_count(texts.drop_first(), BUFFER_SIZE - byte_len(texts[0]));
            lemma_flatten_cons(texts[0], texts.drop_first().take(k - 1));
            assert(first =~= seq![texts[0]] + texts.drop_first().take(k - 1));
        }
        let all = frames(texts);
        assert forall|j: int| 0 <= j < all.len() implies fits(#[trigger] all[j]) by {
        }
        assert(all.flatten() == first.flatten() + frames(rest).flatten()) by {
            lemma_flatten_cons(first.flatten(), frames(rest));
        }
        assert(texts.flatten() == first.flatten() + rest.flatten()) by {
            lemma_flatten_concat(first, rest);
            assert(first + rest =~= texts);
        }
    }
}

/// No frame is empty where no text is; the wire text of a message never is.
pub proof fn lemma_frames_not_empty(texts: Seq<Seq<char>>)
    requires
        forall|i: int| 0 <= i < texts.len() ==> (#[trigger] texts[i]).len() > 0,
    ensures
        forall|j: int| 0 <= j < frames(texts).len() ==> (#[trigger] frames(texts)[j]).len() > 0,
    decreases texts.len(),
{
    if texts.len() > 0 {
        let k = first_group_len(texts) as int;
        let rest = texts.skip(k);
        lemma_groups_step(texts);
        assert forall|i: int| 0 <= i < rest.len() implies (#[trigger] rest[i]).len() > 0 by {
        }
        lemma_frames_not_empty(rest);
        let all = frames(texts);
        assert forall|j: int| 0 <= j < all.len() implies (#[trigger] all[j]).len() > 0 by {
        }
    }
}

/// A frame is as full as it can be: the text that opens the next frame
/// would not have fitted into it.
pub proof fn lemma_frames_greedy(texts: Seq<Seq<char>>)
    requires
        0 < first_group_len(texts) < texts.len(),
    ensures
        byte_len(frames(texts)[0]) + byte_len(texts[first_group_len(texts) as int]) > BUFFER_SIZE,
{
    let k = first_group_len(texts) as int;
    let rest = texts.drop_first();
    lemma_fit_count(rest, BUFFER_SIZE - byte_len(texts[0]));
    lemma_flatten_cons(texts[0], rest.take(k - 1));
    assert(texts.take(k) =~= seq![texts[0]] + rest.take(k - 1));
    assert(rest.take(k) =~= rest.take(k - 1).push(texts[k]));
    rest.take(k - 1).lemma_flatten_push(texts[k]);
    lemma_encode_concat(rest.take(k - 1).flatten(), texts[k]);
}

/// At least `count` texts fit in `room` where the first `count` of them
/// together do.
proof fn lemma_fit_count_at_least(texts: Seq<Seq<char>>, room: int, count: int)
    requires
        0 <= count <= texts.len(),
        byte_len(texts.take(count).flatten()) <= room,
    ensures
        fit_count(texts, room) >= count,
    decreases count,
{
    if count > 0 {
        let rest = texts.drop_first();
        assert(texts.take(count) =~= seq![texts[0]] + rest.take(count - 1));
        lemma_flatten_cons(texts[0], rest.take(count - 1));
        lemma_fit_count_at_least(rest, room - byte_len(texts[0]), count - 1);
    }
}

/// No run of texts from the front that fits a frame is longer than the
/// first group.
pub proof fn lemma_first_group_longest(texts: Seq<Seq<char>>, count: int)
    requires
        1 <= count <= texts.len(),
        fits(texts.take(count).flatten()),
    ensures
        count <= first_group_len(texts),
{
    let rest = texts.drop_first();
    assert(texts.take(count) =~= seq![texts[0]] + rest.take(count - 1));
    lemma_flatten_cons(texts[0], rest.take(count - 1));
    lemma_fit_count_at_least(rest, BUFFER_SIZE - byte_len(texts[0]), count - 1);
}

/// Texts without the first few take no more frames than all of them.
proof fn lemma_groups_of_suffix(texts: Seq<Seq<char>>, from: int)
    requires
        0 <= from <= texts.len(),
    ensures
        groups(texts.skip(from)).len() <= groups(texts).len(),
    decreases texts.len(), from,
{
    if from == 0 {
        assert(texts.skip(0) =~= texts);
    } else {
        let k = first_group_len(texts) as int;
        let after = texts.skip(k);
        lemma_groups_step(texts);
        if from >= k {
            lemma_groups_of_suffix(after, from - k);
            assert(after.skip(from - k) =~= texts.skip(from));
        } else {
            let open = texts.skip(from);
            let run = open.take(k - from);
            assert(fits(run.flatten())) by {
                let rest = texts.drop_first();
                lemma_fit_count(rest, BUFFER_SIZE - byte_len(texts[0]));
                assert(rest.take(k - 1) =~= rest.take(from - 1) + run);
                lemma_flatten_concat(rest.take(from - 1), run);
                lemma_encode_concat(rest.take(from - 1).flatten(), run.flatten());
            }
            lemma_first_group_longest(open, k - from);
            lemma_groups_step(open);
            let taken = first_group_len(open) as int;
            lemma_groups_of_suffix(after, from + taken - k);
            assert(after.skip(from + taken - k) =~= open.skip(taken));
        }
    }
}

/// Texts cut into runs that fit a frame each, in order and with nothing
/// left out.
pub open spec fn packing(parts: Seq<Seq<Seq<char>>>, texts: Seq<Seq<char>>) -> bool {
    &&& parts.flatten() == texts
    &&& forall|j: int| 0 <= j < parts.len() ==> fits(#[trigger] parts[j].flatten())
}

/// No way of cutting the texts into runs that fit a frame each takes fewer
/// frames than `frames` does.
pub proof fn lemma_frames_fewest(texts: Seq<Seq<char>>, parts: Seq<Seq<Seq<char>>>)
    requires
        packing(parts, texts),
    ensures
        frames(texts).len() <= parts.len(),
    decreases parts.len(),
{
    if parts.len() > 0 {
        let first = parts[0];
        let others = parts.drop_first();
        let rest = texts.skip(first.len() as int);
        assert(rest =~= others.flatten());
        assert(texts.take(first.len() as int) =~= first);
        assert forall|j: int| 0 <= j < others.len() implies fits(
            #[trigger] others[j].flatten(),
        ) by {
        }
        lemma_frames_fewest(rest, others);
        if first.len() > 0 {
            let k = first_group_len(texts) as int;
            lemma_first_group_longest(texts, first.len() as int);
            lemma_groups_step(texts);
            lemma_groups_of_suffix(rest, k - first.len());
            assert(rest.skip(k - first.len()) =~= texts.skip(k));
        }
    }
}

/// Messages that wait to be sent, in the order in which they were added.
pub struct Reply {
    messages: Vec<Message>,
}

impl View for Reply {
    type V = Seq<MessageView>;

    closed spec fn view(&self) -> Seq<MessageView> {
        views(self.messages@)
    }
}

impl Reply {
    /// A reply with no message in it.
    pub fn new() -> (reply: Reply)
        ensures
            reply@.len() == 0,
    {
        Reply { messages: Vec::new() }
    }

    /// Appends one message.
    pub fn add_message(&mut self, message: Message)
        ensures
            final(self)@ == old(self)@.push(message@),
    {
        self.messages.push(message);
    }

    /// Moves every message out of `messages` to the end of this reply, in
    /// the order in which they stand.
    pub fn add_messages(&mut self, messages: &mut Vec<Message>)
        ensures
            final(self)@ == old(self)@ + views(old(messages)@),
            final(messages)@.len() == 0,
    {
        self.messages.append(messages);
    }

    /// The messages themselves, to be changed in place.
    pub fn mut_messages(&mut self) -> (messages: &mut Vec<Message>)
        ensures
            views(messages@) == old(self)@,
            final(self)@ == views(final(messages)@),
    {
        &mut self.messages
    }

    /// The frames to send, in order. Fails with `InvalidData`, and gives no
    /// frame at all, exactly when some message alone is longer than a frame.
    pub fn strings(&self) -> (result: Result<Vec<String>, ErrorKind>)
        ensures
            match result {
                Ok(data) => all_fit(wire_texts(self@)) && texts(data@) == frames(
                    wire_texts(self@),
                ),
                Err(kind) => !all_fit(wire_texts(self@)) && kind == ErrorKind::InvalidData,
            },
    {
        let ghost wires = wire_texts(self@);
        let mut data: Vec<String> = Vec::new();
        let mut buffer = String::new();
        let ghost start: int = 0;
        let mut i: usize = 0;
        proof {
            assert(wires.skip(0) =~= wires);
        }
        while i < self.messages.len()
            invariant
                wires == wire_texts(self@),
                0 <= start <= i <= self.messages.len(),
                wires.len() == self.messages.len(),
                forall|j: int| 0 <= j < i ==> fits(#[trigger] wires[j]),
                buffer@ == wires.subrange(start, i as int).flatten(),
                fits(buffer@),
                frames(wires) == texts(data@) + frames(wires.skip(start)),
                start == i ==> i == 0 && buffer@.len() == 0,
                start < i ==> buffer@.len() > 0 && first_group_len(wires.skip(start)) == (i - start)
                    + fit_count(wires.skip(i as int), BUFFER_SIZE - byte_len(buffer@)),
            decreases self.messages.len() - i,
        {
            let string = self.messages[i].string();
            let ghost text = wires[i as int];
            let ghost held = buffer@;
            if string.as_str().as_bytes().len() > BUFFER_SIZE {
                return Err(ErrorKind::InvalidData);
            }
            proof {
                assert(wires.skip(i as int).drop_first() =~= wires.skip(i + 1));
                assert(wires.subrange(start, i + 1) =~= wires.subrange(start, i as int).push(text));
                wires.subrange(start, i as int).lemma_flatten_push(text);
                lemma_encode_concat(held, text);
            }
            if buffer.as_str().as_bytes().len() + string.as_str().as_bytes().len() <= BUFFER_SIZE {
                buffer.append(string.as_str());
            } else {
                proof {
                    let open = wires.skip(start);
                    assert(open.take(i - start) =~= wires.subrange(start, i as int));
                    assert(open.skip(i - start) =~= wires.skip(i as int));
                    assert(wires.subrange(i as int, i + 1) =~= seq![text]);
                    seq![text].lemma_flatten_one_element();
                    start = i as int;
                }
                data.push(buffer);
                buffer = string;
            }
            i += 1;
        }
        if !buffer.as_str().is_empty() {
            proof {
                let open = wires.skip(start);
                lemma_groups_step(open);
                assert(open.take(i - start) =~= wires.subrange(start, i as int));
            }
            data.push(buffer);
        }
        Ok(data)
    }
}

impl Add for Reply {
    type Output = Reply;

    /// The messages of `self` and then those of `other`, each in their order.
    fn add(self, other: Reply) -> (sum: Reply)
        ensures
            sum@ == self@ + other@,
    {
        let mut first = self;
        let mut second = other;
        let mut reply = Reply::new();
        reply.add_messages(first.mut_messages());
        reply.add_messages(second.mut_messages());
        reply
    }
}

/// Ghost code cannot build a reply from its messages, so no value is offered
/// for the sum here: `add` states what it returns in its own contract.
impl AddSpecImpl for Reply {
    open spec fn obeys_add_spec() -> bool {
        false
    }

    open spec fn add_req(self, rhs: Reply) -> bool {
        true
    }

    open spec fn add_spec(self, rhs: Reply) -> Reply {
        self
    }
}

} // verus!
