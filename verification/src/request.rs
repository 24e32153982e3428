//! The receive buffer of one connection and the messages found in it.
//!
//! The buffer has a fixed capacity. What counts of it is what stands before
//! its first zero byte, so a zero byte must not occur in what is received.
//! A buffer that does not end in CR LF holds no complete line yet.

use std::io::ErrorKind;
use vstd::prelude::*;
use vstd::string::StringSliceAdditionalSpecFns;
use vstd::utf8::{decode_utf8, encode_utf8_decode_utf8, valid_utf8};
use crate::message::{
    crlf, lemma_parse_line_text, line_text, parse, representable, views, Message, MessageView,
};
use crate::reply::{all_fit, frames, lemma_frames_fit, wire_texts};
use crate::text::{chars_of, lemma_prefix_len, lemma_prefix_len_is, prefix_len};
use crate::BUFFER_SIZE;

verus! {

/// A buffer of zero bytes.
pub open spec fn zeros() -> Seq<u8> {
    Seq::new(BUFFER_SIZE as nat, |i: int| 0u8)
}

/// The number of bytes that count: the offset of the first zero byte, or the
/// whole length where there is none.
pub open spec fn logical_size(buffer: Seq<u8>) -> nat {
    prefix_len(buffer, 0u8)
}

/// The bytes that count.
pub open spec fn content(buffer: Seq<u8>) -> Seq<u8> {
    buffer.take(logical_size(buffer) as int)
}

/// The buffer after `bytes` were written over it from its logical size on.
pub open spec fn appended(buffer: Seq<u8>, bytes: Seq<u8>) -> Seq<u8> {
    let size = logical_size(buffer) as int;
    buffer.take(size) + bytes + buffer.skip(size + bytes.len())
}

/// True when nothing but zero bytes stands behind the bytes that count, as
/// in a buffer that was cleared and then only appended to.
pub open spec fn clean(buffer: Seq<u8>) -> bool {
    forall|i: int| logical_size(buffer) <= i < buffer.len() ==> buffer[i] == 0u8
}

/// True when more than two bytes count and the last two of them are CR, LF.
pub open spec fn terminated(buffer: Seq<u8>) -> bool {
    let size = logical_size(buffer) as int;
    size > 2 && buffer[size - 2] == 13u8 && buffer[size - 1] == 10u8
}

/// The bytes that count, read as UTF-8; the empty text where they are not
/// valid UTF-8.
pub open spec fn text_of(buffer: Seq<u8>) -> Seq<char> {
    if valid_utf8(content(buffer)) {
        decode_utf8(content(buffer))
    } else {
        Seq::empty()
    }
}

/// True when `s` begins with CR, LF.
pub open spec fn starts_with_crlf(s: Seq<char>) -> bool {
    s.len() >= 2 && s[0] == '\r' && s[1] == '\n'
}

/// Length of the first line of `s`: the offset of the first CR that an LF
/// follows, or the whole length where there is none.
pub open spec fn line_len(s: Seq<char>) -> nat
    decreases s.len(),
{
    if s.len() == 0 || starts_with_crlf(s) {
        0
    } else {
        1 + line_len(s.drop_first())
    }
}

/// The lines of `s`: the pieces between terminators, the empty ones too.
pub open spec fn lines(s: Seq<char>) -> Seq<Seq<char>>
    decreases s.len(),
{
    let k = line_len(s) as int;
    proof {
        lemma_line_len(s);
    }
    if k >= s.len() {
        seq![s]
    } else {
        seq![s.take(k)] + lines(s.skip(k + 2))
    }
}

/// The messages that a run of lines stands for: one for each line that is
/// not empty.
pub open spec fn messages_of(lines: Seq<Seq<char>>) -> Seq<MessageView>
    decreases lines.len(),
{
    if lines.len() == 0 {
        Seq::empty()
    } else if lines[0].len() == 0 {
        messages_of(lines.drop_first())
    } else {
        seq![parse(lines[0])] + messages_of(lines.drop_first())
    }
}

/// The messages found in `text`.
pub open spec fn messages_in(text: Seq<char>) -> Seq<MessageView> {
    messages_of(lines(text))
}

/// The messages still to be found when the next line begins at `start`; none
/// where no line is left.
spec fn messages_from(text: Seq<char>, start: int, more: bool) -> Seq<MessageView> {
    if more {
        messages_in(text.skip(start))
    } else {
        Seq::empty()
    }
}

/// Appending bytes, none of them zero, to a clean buffer that has room for
/// them puts them behind the bytes that counted before, and leaves the buffer
/// clean.
pub proof fn lemma_append_content(buffer: Seq<u8>, bytes: Seq<u8>)
    requires
        clean(buffer),
        !bytes.contains(0u8),
        logical_size(buffer) + bytes.len() <= buffer.len(),
    ensures
        content(appended(buffer, bytes)) == content(buffer) + bytes,
        logical_size(appended(buffer, bytes)) == logical_size(buffer) + bytes.len(),
        clean(appended(buffer, bytes)),
        appended(buffer, bytes).len() == buffer.len(),
{
    let size = logical_size(buffer) as int;
    let after = appended(buffer, bytes);
    lemma_prefix_len(buffer, 0u8);
    assert forall|i: int| 0 <= i < size + bytes.len() implies after[i] != 0u8 by {
    }
    lemma_prefix_len_is(after, 0u8, size + bytes.len());
}

/// `line_len` is the offset of the first terminator, or the length where
/// there is none.
pub proof fn lemma_line_len(s: Seq<char>)
    ensures
        line_len(s) <= s.len(),
        forall|i: int| 0 <= i < line_len(s) ==> !starts_with_crlf(#[trigger] s.skip(i)),
        line_len(s) < s.len() ==> starts_with_crlf(s.skip(line_len(s) as int)),
        line_len(s) < s.len() ==> line_len(s) + 2 <= s.len(),
    decreases s.len(),
{
    if s.len() > 0 && !starts_with_crlf(s) {
        let t = s.drop_first();
        lemma_line_len(t);
        assert forall|i: int| 0 <= i < line_len(s) implies !starts_with_crlf(
            #[trigger] s.skip(i),
        ) by {
            if i != 0 {
                assert(s.skip(i) =~= t.skip(i - 1));
            }
        }
    }
}

/// The only offset that no terminator precedes and that holds one, or is the
/// end.
pub proof fn lemma_line_len_is(s: Seq<char>, n: int)
    requires
        0 <= n <= s.len(),
        forall|i: int| 0 <= i < n ==> !starts_with_crlf(#[trigger] s.skip(i)),
        n < s.len() ==> starts_with_crlf(s.skip(n)),
    ensures
        line_len(s) == n,
{
    lemma_line_len(s);
}

/// The lines of a text whose first line ends at `k`.
proof fn lemma_lines_step(s: Seq<char>)
    ensures
        line_len(s) >= s.len() ==> lines(s) == seq![s],
        line_len(s) < s.len() ==> lines(s).drop_first() == lines(s.skip(line_len(s) as int + 2)),
        lines(s).len() >= 1,
        lines(s)[0] == s.take(line_len(s) as int),
{
    lemma_line_len(s);
}

/// True when no terminator stands within `line`.
pub open spec fn crlf_free(line: Seq<char>) -> bool {
    forall|i: int| 0 <= i < line.len() ==> !starts_with_crlf(#[trigger] line.skip(i))
}

/// A line without a terminator in it, then a terminator, then more text:
/// the lines are that line and the lines of the rest.
pub proof fn lemma_lines_of_line(line: Seq<char>, rest: Seq<char>)
    requires
        crlf_free(line),
    ensures
        lines(line + crlf() + rest) == seq![line] + lines(rest),
{
    let s = line + crlf() + rest;
    let n = line.len() as int;
    assert forall|i: int| 0 <= i < n implies !starts_with_crlf(#[trigger] s.skip(i)) by {
        assert(!starts_with_crlf(line.skip(i)));
    }
    assert(starts_with_crlf(s.skip(n)));
    lemma_line_len_is(s, n);
    assert(s.take(n) =~= line);
    assert(s.skip(n + 2) =~= rest);
}

/// What is read from the wire texts of messages, written one after the
/// other, is the messages themselves, in order, where each of them is
/// representable, has a line that is not empty and holds no terminator.
pub proof fn lemma_read_back(messages: Seq<MessageView>)
    requires
        forall|i: int|
            0 <= i < messages.len() ==> {
                &&& representable(#[trigger] messages[i])
                &&& crlf_free(line_text(messages[i]))
                &&& line_text(messages[i]).len() > 0
            },
    ensures
        messages_in(wire_texts(messages).flatten()) == messages,
    decreases messages.len(),
{
    let texts = wire_texts(messages);
    if messages.len() == 0 {
        let nothing = Seq::<char>::empty();
        let only = lines(nothing);
        assert(messages_of(only) == messages_of(only.drop_first()));
    } else {
        let first = messages[0];
        let rest = messages.drop_first();
        let tail = wire_texts(rest).flatten();
        assert(texts.drop_first() =~= wire_texts(rest));
        assert forall|i: int| 0 <= i < rest.len() implies {
            &&& representable(#[trigger] rest[i])
            &&& crlf_free(line_text(rest[i]))
            &&& line_text(rest[i]).len() > 0
        } by {
        }
        lemma_read_back(rest);
        lemma_lines_of_line(line_text(first), tail);
        lemma_parse_line_text(first);
        let all = seq![line_text(first)] + lines(tail);
        assert(all.drop_first() =~= lines(tail));
    }
}

/// Frames carry whole messages: what is read from the frames of a reply, one
/// after the other, is the messages of the reply, under the conditions of
/// `lemma_read_back` and where each message alone fits a frame.
pub proof fn lemma_frames_read_back(messages: Seq<MessageView>)
    requires
        all_fit(wire_texts(messages)),
        forall|i: int|
            0 <= i < messages.len() ==> {
                &&& representable(#[trigger] messages[i])
                &&& crlf_free(line_text(messages[i]))
                &&& line_text(messages[i]).len() > 0
            },
    ensures
        messages_in(frames(wire_texts(messages)).flatten()) == messages,
{
    lemma_frames_fit(wire_texts(messages));
    lemma_read_back(messages);
}

/// The first offset from `from` on at which a terminator begins; the length
/// where there is none.
fn find_crlf(chars: &Vec<char>, from: usize) -> (end: usize)
    requires
        from <= chars.len(),
    ensures
        from <= end <= chars.len(),
        end == from + line_len(chars@.skip(from as int)),
{
    let mut end: usize = from;
    while end < chars.len() && !(end + 1 < chars.len() && chars[end] == '\r' && chars[end + 1]
        == '\n')
        invariant
            from <= end <= chars.len(),
            forall|i: int| from <= i < end ==> !starts_with_crlf(#[trigger] chars@.skip(i)),
        decreases chars.len() - end,
    {
        end += 1;
    }
    proof {
        let s = chars@.skip(from as int);
        assert forall|i: int| 0 <= i < end - from implies !starts_with_crlf(
            #[trigger] s.skip(i),
        ) by {
            assert(s.skip(i) =~= chars@.skip(from + i));
        }
        lemma_line_len_is(s, end - from);
    }
    end
}

/// `std::str::from_utf8`: the bytes as a string slice where they are valid
/// UTF-8, `None` where they are not. The slice is made of the very bytes that
/// were given.
#[verifier::external_body]
fn utf8_text(bytes: &[u8]) -> (text: Option<&str>)
    ensures
        text is Some <==> valid_utf8(bytes@),
        text is Some ==> text->0.spec_bytes() == bytes@,
{
    std::str::from_utf8(bytes).ok()
}

/// The receive buffer of one connection.
pub struct Request {
    data: [u8; BUFFER_SIZE],
    messages: Vec<Message>,
    size: usize,
}

impl View for Request {
    type V = Seq<u8>;

    closed spec fn view(&self) -> Seq<u8> {
        self.data@
    }
}

impl Request {
    /// The size that is remembered of the buffer; zero where none is.
    pub closed spec fn remembered_size(&self) -> nat {
        self.size as nat
    }

    /// The messages that are remembered of the buffer; none where none are.
    pub closed spec fn remembered_messages(&self) -> Seq<MessageView> {
        views(self.messages@)
    }

    /// What is remembered of the buffer agrees with the buffer: a size other
    /// than zero is its logical size, and messages, where there are any, are
    /// those found in it.
    pub open spec fn wf(&self) -> bool {
        &&& self.remembered_size() == 0 || self.remembered_size() == logical_size(self@)
        &&& self.remembered_messages().len() == 0 || self.remembered_messages() == messages_in(
            text_of(self@),
        )
    }

    /// The buffer always holds `BUFFER_SIZE` bytes.
    pub proof fn lemma_capacity(&self)
        ensures
            self@.len() == BUFFER_SIZE,
    {
    }

    /// An empty buffer, of which nothing is remembered.
    pub fn new() -> (request: Request)
        ensures
            request.wf(),
            request@ == zeros(),
            request.remembered_size() == 0,
            request.remembered_messages().len() == 0,
    {
        let request = Request { data: [0u8; BUFFER_SIZE], messages: Vec::new(), size: 0 };
        request
    }

    /// Empties the buffer and forgets what was remembered of it.
    pub fn clear_data(&mut self)
        ensures
            final(self).wf(),
            final(self)@ == zeros(),
            final(self).remembered_size() == 0,
            final(self).remembered_messages().len() == 0,
    {
        self.data = [0u8; BUFFER_SIZE];
        self.messages.clear();
        self.size = 0;
    }

    /// The buffer itself, to be written into. What was remembered of it is
    /// forgotten, so that size and messages are found anew in what is
    /// written.
    pub fn data(&mut self) -> (data: &mut [u8; BUFFER_SIZE])
        ensures
            data@ == old(self)@,
            final(self)@ == final(data)@,
            final(self).wf(),
            final(self).remembered_size() == 0,
            final(self).remembered_messages().len() == 0,
    {
        self.messages.clear();
        self.size = 0;
        &mut self.data
    }

    /// The number of bytes that count. It is counted where no size is
    /// remembered, and remembered from then on.
    pub fn size(&mut self) -> (size: usize)
        requires
            old(self).wf(),
        ensures
            final(self).wf(),
            final(self)@ == old(self)@,
            final(self).remembered_messages() == old(self).remembered_messages(),
            final(self).remembered_size() == size,
            size == logical_size(old(self)@),
            size <= BUFFER_SIZE,
    {
        if self.size == 0 {
            let mut size: usize = 0;
            while size < BUFFER_SIZE && self.data[size] != 0
                invariant
                    size <= BUFFER_SIZE,
                    self.data@.len() == BUFFER_SIZE,
                    forall|i: int| 0 <= i < size ==> self.data@[i] != 0u8,
                decreases BUFFER_SIZE - size,
            {
                size += 1;
            }
            self.size = size;
        }
        proof {
            lemma_prefix_len(self.data@, 0u8);
        }
        self.size
    }

    /// The bytes that count, as text; the empty text where they are not
    /// valid UTF-8.
    pub fn string(&mut self) -> (string: String)
        requires
            old(self).wf(),
        ensures
            final(self).wf(),
            final(self)@ == old(self)@,
            final(self).remembered_messages() == old(self).remembered_messages(),
            final(self).remembered_size() == logical_size(old(self)@),
            string@ == text_of(old(self)@),
    {
        let size = self.size();
        let all: &[u8] = self.data.as_slice();
        let bytes = &all[0..size];
        match utf8_text(bytes) {
            Some(text) => {
                proof {
                    encode_utf8_decode_utf8(text@);
                }
                text.to_owned()
            },
            None => String::new(),
        }
    }

    /// Writes `bytes` into the buffer behind the bytes that count. Where they
    /// do not fit into what is left of the buffer, nothing is written and
    /// `InvalidData` is returned.
    pub fn append(&mut self, bytes: &[u8]) -> (result: Result<(), ErrorKind>)
        requires
            old(self).wf(),
        ensures
            final(self).wf(),
            match result {
                Ok(_) => {
                    &&& logical_size(old(self)@) + bytes@.len() <= BUFFER_SIZE
                    &&& final(self)@ == appended(old(self)@, bytes@)
                    &&& final(self).remembered_size() == 0
                    &&& final(self).remembered_messages().len() == 0
                },
                Err(kind) => {
                    &&& logical_size(old(self)@) + bytes@.len() > BUFFER_SIZE
                    &&& final(self)@ == old(self)@
                    &&& final(self).remembered_messages() == old(self).remembered_messages()
                    &&& kind == ErrorKind::InvalidData
                },
            },
    {
        let size = self.size();
        if bytes.len() > BUFFER_SIZE - size {
            return Err(ErrorKind::InvalidData);
        }
        self.messages.clear();
        self.size = 0;
        let mut i: usize = 0;
        while i < bytes.len()
            invariant
                i <= bytes.len(),
                size + bytes.len() <= BUFFER_SIZE,
                size == logical_size(old(self).data@),
                self.size == 0,
                self.messages@.len() == 0,
                self.data@ == old(self).data@.take(size as int) + bytes@.take(i as int) + old(
                    self,
                ).data@.skip(size + i),
            decreases bytes.len() - i,
        {
            self.data[size + i] = bytes[i];
            i += 1;
        }
        Ok(())
    }

    /// The messages found in the buffer, one for each line that is not
    /// empty, in order. They are looked for where none are remembered, and
    /// remembered from then on.
    pub fn messages(&mut self) -> (messages: &Vec<Message>)
        requires
            old(self).wf(),
        ensures
            final(self).wf(),
            final(self)@ == old(self)@,
            final(self).remembered_messages() == views(messages@),
            views(messages@) == messages_in(text_of(old(self)@)),
    {
        if self.messages.is_empty() {
            let text = self.string();
            let chars = chars_of(text.as_str());
            let mut start: usize = 0;
            let mut more = true;
            assert(chars@.skip(0) =~= chars@);
            while more
                invariant
                    start <= chars.len(),
                    self.data == old(self).data,
                    self.size == 0 || self.size == logical_size(self.data@),
                    messages_in(chars@) == views(self.messages@) + messages_from(
                        chars@,
                        start as int,
                        more,
                    ),
                decreases
                    (if more {
                        chars.len() - start + 1
                    } else {
                        0
                    }),
            {
                let ghost rest = chars@.skip(start as int);
                let ghost found = views(self.messages@);
                let end = find_crlf(&chars, start);
                proof {
                    lemma_lines_step(rest);
                    assert(rest.take(end - start) =~= chars@.subrange(start as int, end as int));
                }
                if end > start {
                    let message = Message::from_chars(&chars, start, end);
                    self.messages.push(message);
                }
                assert(found + messages_in(rest) =~= views(self.messages@) + messages_of(
                    lines(rest).drop_first(),
                ));
                if end < chars.len() {
                    proof {
                        lemma_line_len(rest);
                        assert(rest.skip(end - start + 2) =~= chars@.skip(end + 2));
                    }
                    start = end + 2;
                } else {
                    more = false;
                }
            }
        }
        &self.messages
    }

    /// True when the buffer ends in a terminator.
    pub fn valid(&mut self) -> (valid: bool)
        requires
            old(self).wf(),
        ensures
            final(self).wf(),
            final(self)@ == old(self)@,
            final(self).remembered_messages() == old(self).remembered_messages(),
            final(self).remembered_size() == logical_size(old(self)@),
            valid == terminated(old(self)@),
    {
        let size = self.size();
        size > 2 && self.data[size - 1] == 10 && self.data[size - 2] == 13
    }
}

} // verus!
