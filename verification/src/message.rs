//! One protocol message and its text form.
//!
//! On the wire a message is a line:
//!
//! ```text
//! [ ':' prefix ' ' ] command { ' ' parameter } [ ' ' ':' trailing ] CR LF
//! ```
//!
//! `parse` reads a line without its terminator, `wire_text` writes a message
//! with it.

use vstd::prelude::*;
use crate::text::{
    chars_of, find, holds, join, lemma_join_split, lemma_prefix_len, lemma_split_step, prefix_len,
    split, string_of,
};

verus! {

/// What a message holds, as mathematical text. An empty prefix stands for no
/// prefix.
#[verifier::ext_equal]
pub struct MessageView {
    pub prefix: Seq<char>,
    pub command: Seq<char>,
    pub parameters: Seq<Seq<char>>,
}

/// The texts of a run of strings.
pub open spec fn texts(strings: Seq<String>) -> Seq<Seq<char>> {
    strings.map_values(|s: String| s@)
}

/// What a run of messages holds.
pub open spec fn views(messages: Seq<Message>) -> Seq<MessageView> {
    messages.map_values(|m: Message| m@)
}

/// True when `token` begins with a colon.
pub open spec fn starts_with_colon(token: Seq<char>) -> bool {
    token.len() > 0 && token[0] == ':'
}

/// The parameters that a run of space-separated tokens stands for. Tokens
/// are parameters one by one up to the first that begins with a colon; from
/// there on the rest of the line, spaces included and the colon left out, is
/// one last parameter.
pub open spec fn parameters_of(tokens: Seq<Seq<char>>) -> Seq<Seq<char>>
    decreases tokens.len(),
{
    if tokens.len() == 0 {
        Seq::empty()
    } else if starts_with_colon(tokens[0]) {
        seq![join(tokens, ' ').drop_first()]
    } else {
        seq![tokens[0]] + parameters_of(tokens.drop_first())
    }
}

/// The message that a line of text stands for.
///
/// The line is cut at every single space. A first token that begins with a
/// colon is the prefix, without the colon, be it empty or not; the token
/// after it is then the command, and there is no command where none follows.
/// A first token that is no prefix is the command itself. The tokens after
/// the command are the parameters.
pub open spec fn parse(line: Seq<char>) -> MessageView {
    let tokens = split(line, ' ');
    let head = tokens[0];
    if starts_with_colon(head) {
        if tokens.len() > 1 {
            MessageView {
                prefix: head.drop_first(),
                command: tokens[1],
                parameters: parameters_of(tokens.skip(2)),
            }
        } else {
            MessageView {
                prefix: head.drop_first(),
                command: Seq::empty(),
                parameters: Seq::empty(),
            }
        }
    } else {
        MessageView {
            prefix: Seq::empty(),
            command: head,
            parameters: parameters_of(tokens.skip(1)),
        }
    }
}

/// The prefix as it is written: nothing for an empty one, else a colon, the
/// prefix and a space.
pub open spec fn prefix_text(prefix: Seq<char>) -> Seq<char> {
    if prefix.len() == 0 {
        Seq::empty()
    } else {
        seq![':'] + prefix + seq![' ']
    }
}

/// The parameters as they are written, each after a space. The first one that
/// holds a space is written after a colon, and nothing is written after it.
pub open spec fn parameters_text(parameters: Seq<Seq<char>>) -> Seq<char>
    decreases parameters.len(),
{
    if parameters.len() == 0 {
        Seq::empty()
    } else if parameters[0].contains(' ') {
        seq![' ', ':'] + parameters[0]
    } else {
        seq![' '] + parameters[0] + parameters_text(parameters.drop_first())
    }
}

/// The line that a message is written as, without its terminator.
pub open spec fn line_text(m: MessageView) -> Seq<char> {
    prefix_text(m.prefix) + m.command + parameters_text(m.parameters)
}

/// Carriage return and line feed, which end every message on the wire.
pub open spec fn crlf() -> Seq<char> {
    seq!['\r', '\n']
}

/// The message as it goes over the wire: its line and the terminator.
pub open spec fn wire_text(m: MessageView) -> Seq<char> {
    line_text(m) + crlf()
}

/// True when `token` can stand in a line as one plain token: it holds no space
/// and does not begin with a colon.
pub open spec fn plain(token: Seq<char>) -> bool {
    !token.contains(' ') && !starts_with_colon(token)
}

/// The messages that a line can carry without loss: the prefix and the
/// command hold no space, a command without a prefix before it does not begin
/// with a colon, every parameter but the last is plain, and the last either
/// holds a space or does not begin with a colon.
pub open spec fn representable(m: MessageView) -> bool {
    &&& !m.prefix.contains(' ')
    &&& !m.command.contains(' ')
    &&& m.prefix.len() == 0 ==> !starts_with_colon(m.command)
    &&& forall|i: int| 0 <= i < m.parameters.len() - 1 ==> plain(#[trigger] m.parameters[i])
    &&& m.parameters.len() > 0 ==> m.parameters.last().contains(' ') || !starts_with_colon(
        m.parameters.last(),
    )
}

/// The parameters of a representable message are read back from what was
/// written for them.
proof fn lemma_parameters_read_back(parameters: Seq<Seq<char>>)
    requires
        parameters.len() > 0,
        forall|i: int| 0 <= i < parameters.len() - 1 ==> plain(#[trigger] parameters[i]),
        parameters.last().contains(' ') || !starts_with_colon(parameters.last()),
    ensures
        parameters_text(parameters).len() > 0,
        parameters_text(parameters)[0] == ' ',
        parameters_of(split(parameters_text(parameters).drop_first(), ' ')) == parameters,
    decreases parameters.len(),
{
    let first = parameters[0];
    let written = parameters_text(parameters).drop_first();
    if first.contains(' ') {
        lemma_join_split(written, ' ');
        assert(written.drop_first() =~= first);
    } else if parameters.len() == 1 {
        assert(written =~= first);
        lemma_split_step(first, Seq::empty(), ' ');
        assert(parameters_of(seq![first]) =~= seq![first] + parameters_of(
            seq![first].drop_first(),
        ));
    } else {
        let rest = parameters.drop_first();
        assert forall|i: int| 0 <= i < rest.len() - 1 implies plain(#[trigger] rest[i]) by {
        }
        lemma_parameters_read_back(rest);
        let tail = parameters_text(rest).drop_first();
        assert(written =~= first + seq![' '] + tail);
        lemma_split_step(first, tail, ' ');
        let tokens = seq![first] + split(tail, ' ');
        assert(tokens.drop_first() =~= split(tail, ' '));
    }
}

/// Reading the line that a representable message is written as gives the
/// message back: its prefix, its command and each of its parameters.
pub proof fn lemma_parse_line_text(m: MessageView)
    requires
        representable(m),
    ensures
        parse(line_text(m)) == m,
{
    let written = parameters_text(m.parameters);
    let body = m.command + written;
    let after = if m.parameters.len() == 0 {
        Seq::<Seq<char>>::empty()
    } else {
        split(written.drop_first(), ' ')
    };
    assert(split(body, ' ') == seq![m.command] + after && parameters_of(after) == m.parameters)
        by {
        if m.parameters.len() == 0 {
            lemma_split_step(m.command, Seq::empty(), ' ');
        } else {
            lemma_parameters_read_back(m.parameters);
            assert(body =~= m.command + seq![' '] + written.drop_first());
            lemma_split_step(m.command, written.drop_first(), ' ');
        }
    }
    assert((seq![m.command] + after).skip(1) =~= after);
    if m.prefix.len() > 0 {
        let head = seq![':'] + m.prefix;
        assert(!head.contains(' '));
        assert(line_text(m) =~= head + seq![' '] + body);
        lemma_split_step(head, body, ' ');
        let tokens = seq![head] + (seq![m.command] + after);
        assert(tokens.skip(2) =~= after);
    }
}

/// The tokens that are still to be read when the next one begins at `next`;
/// none where `next` is `None`.
spec fn tokens_from(chars: Seq<char>, next: Option<usize>, to: int) -> Seq<Seq<char>> {
    match next {
        Some(start) => split(chars.subrange(start as int, to), ' '),
        None => Seq::empty(),
    }
}

/// Where the token that begins at `start` ends, and what follows it.
proof fn lemma_split_range(chars: Seq<char>, start: int, to: int)
    requires
        0 <= start <= to <= chars.len(),
    ensures
        ({
            let s = chars.subrange(start, to);
            let end = start + prefix_len(s, ' ');
            &&& start <= end <= to
            &&& split(s, ' ').len() >= 1
            &&& split(s, ' ')[0] == chars.subrange(start, end)
            &&& end == to ==> split(s, ' ') == seq![s]
            &&& end < to ==> split(s, ' ').drop_first() == split(chars.subrange(end + 1, to), ' ')
        }),
{
    let s = chars.subrange(start, to);
    let k = prefix_len(s, ' ') as int;
    lemma_prefix_len(s, ' ');
    if k < s.len() {
        assert(s.skip(k + 1) =~= chars.subrange(start + k + 1, to));
    }
}

/// A message: an optional prefix, a command and its parameters.
pub struct Message {
    command: String,
    parameters: Vec<String>,
    prefix: String,
}

impl View for Message {
    type V = MessageView;

    closed spec fn view(&self) -> MessageView {
        MessageView {
            prefix: self.prefix@,
            command: self.command@,
            parameters: texts(self.parameters@),
        }
    }
}

impl Message {
    /// A message with nothing in it.
    pub fn new() -> (m: Message)
        ensures
            m@.prefix.len() == 0,
            m@.command.len() == 0,
            m@.parameters.len() == 0,
    {
        Message { command: String::new(), parameters: Vec::new(), prefix: String::new() }
    }

    /// Appends one parameter.
    pub fn add_parameter(&mut self, parameter: &str)
        ensures
            final(self)@.parameters == old(self)@.parameters.push(parameter@),
            final(self)@.command == old(self)@.command,
            final(self)@.prefix == old(self)@.prefix,
    {
        self.parameters.push(parameter.to_owned());
    }

    /// The command.
    pub fn command(&self) -> (command: &String)
        ensures
            command@ == self@.command,
    {
        &self.command
    }

    /// The parameters, in order.
    pub fn parameters(&self) -> (parameters: &Vec<String>)
        ensures
            texts(parameters@) == self@.parameters,
    {
        &self.parameters
    }

    /// The prefix; empty where the message has none.
    pub fn prefix(&self) -> (prefix: &String)
        ensures
            prefix@ == self@.prefix,
    {
        &self.prefix
    }

    /// Replaces the command.
    pub fn set_command(&mut self, command: &str)
        ensures
            final(self)@.command == command@,
            final(self)@.parameters == old(self)@.parameters,
            final(self)@.prefix == old(self)@.prefix,
    {
        self.command = command.to_owned();
    }

    /// Replaces the prefix; an empty one takes it away.
    pub fn set_prefix(&mut self, prefix: &str)
        ensures
            final(self)@.prefix == prefix@,
            final(self)@.command == old(self)@.command,
            final(self)@.parameters == old(self)@.parameters,
    {
        self.prefix = prefix.to_owned();
    }

    /// The message as it goes over the wire.
    pub fn string(&self) -> (string: String)
        ensures
            string@ == wire_text(self@),
    {
        let mut string = String::new();
        if !self.prefix.as_str().is_empty() {
            string.push(':');
            string.append(self.prefix.as_str());
            string.push(' ');
        }
        string.append(self.command.as_str());
        let ghost all = self@.parameters;
        assert(all.skip(0) =~= all);
        let mut i: usize = 0;
        while i < self.parameters.len()
            invariant_except_break
                i <= self.parameters.len(),
                all == self@.parameters,
                string@ + parameters_text(all.skip(i as int)) == line_text(self@),
            ensures
                string@ == line_text(self@),
            decreases self.parameters.len() - i,
        {
            let p = &self.parameters[i];
            let ghost rest = all.skip(i as int);
            assert(rest.drop_first() =~= all.skip(i + 1));
            string.push(' ');
            if holds(p.as_str(), ' ') {
                string.push(':');
                string.append(p.as_str());
                break;
            }
            string.append(p.as_str());
            i += 1;
        }
        string.push('\r');
        string.push('\n');
        string
    }

    /// Reads a message from a line of text without its terminator.
    pub fn from_string(string: String) -> (m: Message)
        ensures
            m@ == parse(string@),
    {
        let chars = chars_of(string.as_str());
        assert(chars@.subrange(0, chars@.len() as int) =~= chars@);
        Message::from_chars(&chars, 0, chars.len())
    }

    /// Reads a message from the characters of `chars` from `from` up to `to`.
    pub(crate) fn from_chars(chars: &Vec<char>, from: usize, to: usize) -> (m: Message)
        requires
            from <= to <= chars.len(),
        ensures
            m@ == parse(chars@.subrange(from as int, to as int)),
    {
        let ghost line = chars@.subrange(from as int, to as int);
        let ghost tokens = split(line, ' ');
        let head_end = find(chars, from, to, ' ');
        let mut next: Option<usize> = if head_end < to { Some(head_end + 1) } else { None };
        proof {
            lemma_split_range(chars@, from as int, to as int);
        }
        let mut prefix = String::new();
        let mut command = String::new();
        if from < head_end && chars[from] == ':' {
            prefix = string_of(chars, from + 1, head_end);
            if let Some(start) = next {
                let command_end = find(chars, start, to, ' ');
                command = string_of(chars, start, command_end);
                next = if command_end < to { Some(command_end + 1) } else { None };
                proof {
                    lemma_split_range(chars@, start as int, to as int);
                    assert(tokens.skip(2) =~= tokens.skip(1).drop_first());
                }
            }
        } else {
            command = string_of(chars, from, head_end);
        }
        let parameters = Message::parameters_from(chars, next, to);
        Message { command, parameters, prefix }
    }

    /// Reads the parameters, of which the first token begins at `next`.
    fn parameters_from(chars: &Vec<char>, next: Option<usize>, to: usize) -> (parameters: Vec<String>)
        requires
            to <= chars.len(),
            next is Some ==> next->0 <= to,
        ensures
            texts(parameters@) == parameters_of(tokens_from(chars@, next, to as int)),
    {
        let ghost all = parameters_of(tokens_from(chars@, next, to as int));
        let mut parameters: Vec<String> = Vec::new();
        let mut next = next;
        while next.is_some()
            invariant
                to <= chars.len(),
                next is Some ==> next->0 <= to,
                all == texts(parameters@) + parameters_of(tokens_from(chars@, next, to as int)),
            decreases
                (match next {
                    Some(start) => to - start + 1,
                    None => 0,
                }),
        {
            let start = next.unwrap();
            let ghost rest = chars@.subrange(start as int, to as int);
            let ghost tokens = split(rest, ' ');
            proof {
                lemma_split_range(chars@, start as int, to as int);
            }
            if start < to && chars[start] == ':' {
                let trailing = string_of(chars, start + 1, to);
                parameters.push(trailing);
                next = None;
                proof {
                    lemma_join_split(rest, ' ');
                    assert(rest.drop_first() =~= chars@.subrange(start + 1, to as int));
                }
            } else {
                let end = find(chars, start, to, ' ');
                let token = string_of(chars, start, end);
                parameters.push(token);
                next = if end < to { Some(end + 1) } else { None };
                proof {
                    assert(tokens.drop_first() =~= tokens_from(chars@, next, to as int));
                }
            }
        }
        parameters
    }
}

} // verus!
