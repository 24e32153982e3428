//! Which messages come back from their own line.
//!
//! `lemma_parse_line_text` shows that a representable message does. This
//! module shows that no other message does, by counting characters: every
//! token of a line costs its length and one separator, and a message that is
//! not representable is written in more tokens, or in other tokens, than it
//! is read from.

use vstd::prelude::*;
use crate::message::{
    lemma_parse_line_text, line_text, parameters_of, parameters_text, parse, plain, prefix_text,
    representable, starts_with_colon, MessageView,
};
use crate::text::{
    join, lemma_prefix_len, lemma_split_pieces, lemma_split_step, prefix_len, split,
};

verus! {

/// No parameter but the last holds a space.
pub open spec fn spaces_only_in_last(parameters: Seq<Seq<char>>) -> bool {
    forall|i: int| 0 <= i < parameters.len() - 1 ==> !(#[trigger] parameters[i]).contains(' ')
}

/// What the pieces cost in a line: for each its length and one separator.
spec fn weight(pieces: Seq<Seq<char>>) -> nat
    decreases pieces.len(),
{
    if pieces.len() == 0 {
        0
    } else {
        pieces[0].len() + 1 + weight(pieces.drop_first())
    }
}

/// One if the last parameter holds a space, and so is written after a colon.
spec fn colon_cost(parameters: Seq<Seq<char>>) -> nat {
    if parameters.len() > 0 && parameters.last().contains(' ') {
        1
    } else {
        0
    }
}

/// The tokens after the command in the line of a message with these
/// parameters.
spec fn parameter_tokens(parameters: Seq<Seq<char>>) -> Seq<Seq<char>> {
    if parameters.len() == 0 {
        Seq::empty()
    } else {
        split(parameters_text(parameters).drop_first(), ' ')
    }
}

proof fn lemma_weight_cons(first: Seq<char>, more: Seq<Seq<char>>)
    ensures
        weight(seq![first] + more) == first.len() + 1 + weight(more),
{
    assert((seq![first] + more).drop_first() =~= more);
}

proof fn lemma_weight_split(s: Seq<char>)
    ensures
        weight(split(s, ' ')) == s.len() + 1,
    decreases s.len(),
{
    let k = prefix_len(s, ' ') as int;
    if k >= s.len() {
        lemma_weight_cons(s, Seq::empty());
    } else {
        lemma_weight_split(s.skip(k + 1));
        lemma_weight_cons(s.take(k), split(s.skip(k + 1), ' '));
    }
}

proof fn lemma_weight_join(pieces: Seq<Seq<char>>)
    requires
        pieces.len() > 0,
    ensures
        join(pieces, ' ').len() + 1 == weight(pieces),
    decreases pieces.len(),
{
    let rest = pieces.drop_first();
    if pieces.len() == 1 {
        assert(weight(rest) == 0);
    } else {
        lemma_weight_join(rest);
    }
}

/// Reading parameters from tokens loses at most the colon of the last one.
proof fn lemma_weight_parameters_of(tokens: Seq<Seq<char>>)
    ensures
        weight(tokens) - 1 <= weight(parameters_of(tokens)) <= weight(tokens),
    decreases tokens.len(),
{
    if tokens.len() == 0 {
    } else if starts_with_colon(tokens[0]) {
        let trailing = join(tokens, ' ').drop_first();
        lemma_weight_join(tokens);
        assert(join(tokens, ' ').len() >= 1);
        lemma_weight_cons(trailing, Seq::empty());
    } else {
        lemma_weight_parameters_of(tokens.drop_first());
        lemma_weight_cons(tokens[0], parameters_of(tokens.drop_first()));
    }
}

/// What the parameters take in a line: their cost, and a colon where the
/// last one holds a space.
proof fn lemma_len_parameters_text(parameters: Seq<Seq<char>>)
    requires
        spaces_only_in_last(parameters),
    ensures
        parameters_text(parameters).len() == weight(parameters) + colon_cost(parameters),
        parameters.len() > 0 ==> parameters_text(parameters).len() > 0 && parameters_text(
            parameters,
        )[0] == ' ',
    decreases parameters.len(),
{
    let rest = parameters.drop_first();
    if parameters.len() == 0 {
    } else if parameters[0].contains(' ') {
        assert(weight(rest) == 0);
    } else {
        assert(spaces_only_in_last(rest)) by {
            assert forall|i: int| 0 <= i < rest.len() - 1 implies !(#[trigger] rest[i]).contains(
                ' ',
            ) by {
            }
        }
        lemma_len_parameters_text(rest);
    }
}

/// The tokens of a command without a space and what is written behind it.
proof fn lemma_tokens_of_body(command: Seq<char>, parameters: Seq<Seq<char>>)
    requires
        !command.contains(' '),
        spaces_only_in_last(parameters),
    ensures
        split(command + parameters_text(parameters), ' ') == seq![command] + parameter_tokens(
            parameters,
        ),
{
    let written = parameters_text(parameters);
    if parameters.len() == 0 {
        lemma_split_step(command, Seq::empty(), ' ');
    } else {
        assert(command + written =~= command + seq![' '] + written.drop_first());
        lemma_split_step(command, written.drop_first(), ' ');
    }
}

/// Parameters that are read back from their own tokens are such as a
/// representable message has.
proof fn lemma_parameters_plain(parameters: Seq<Seq<char>>)
    requires
        spaces_only_in_last(parameters),
        parameters_of(parameter_tokens(parameters)) == parameters,
    ensures
        forall|i: int| 0 <= i < parameters.len() - 1 ==> plain(#[trigger] parameters[i]),
        parameters.len() > 0 ==> parameters.last().contains(' ') || !starts_with_colon(
            parameters.last(),
        ),
    decreases parameters.len(),
{
    if parameters.len() == 0 {
    } else if parameters[0].contains(' ') {
    } else {
        let first = parameters[0];
        let rest = parameters.drop_first();
        let written = parameters_text(parameters).drop_first();
        let tokens = parameter_tokens(parameters);
        assert(spaces_only_in_last(rest)) by {
            assert forall|i: int| 0 <= i < rest.len() - 1 implies !(#[trigger] rest[i]).contains(
                ' ',
            ) by {
            }
        }
        assert(written =~= first + parameters_text(rest));
        lemma_tokens_of_body(first, rest);
        assert(tokens.drop_first() =~= parameter_tokens(rest));
        assert(parameters_of(parameter_tokens(rest)) =~= rest);
        lemma_parameters_plain(rest);
        assert forall|i: int| 0 <= i < parameters.len() - 1 implies plain(
            #[trigger] parameters[i],
        ) by {
        }
    }
}

/// Parameters are never what is read from an empty token and themselves.
proof fn lemma_no_shift(parameters: Seq<Seq<char>>)
    ensures
        seq![Seq::<char>::empty()] + parameters_of(parameters) != parameters,
    decreases parameters.len(),
{
    let nothing = Seq::<char>::empty();
    let shifted = seq![nothing] + parameters_of(parameters);
    if shifted == parameters {
        let rest = parameters.drop_first();
        lemma_no_shift(rest);
        assert(shifted.drop_first() =~= parameters_of(parameters));
    }
}

/// The tokens of what is written for parameters without a space: an empty
/// token, for nothing stands before the first space, and the parameters.
proof fn lemma_tokens_of_parameters(parameters: Seq<Seq<char>>)
    requires
        forall|i: int| 0 <= i < parameters.len() ==> !(#[trigger] parameters[i]).contains(' '),
    ensures
        split(parameters_text(parameters), ' ') == seq![Seq::<char>::empty()] + parameters,
    decreases parameters.len(),
{
    let nothing = Seq::<char>::empty();
    let written = parameters_text(parameters);
    if parameters.len() > 0 {
        let first = parameters[0];
        let rest = parameters.drop_first();
        assert forall|i: int| 0 <= i < rest.len() implies !(#[trigger] rest[i]).contains(' ') by {
        }
        lemma_tokens_of_parameters(rest);
        let tail = parameters_text(rest);
        assert(written =~= nothing + seq![' '] + (first + tail));
        lemma_split_step(nothing, first + tail, ' ');
        if rest.len() == 0 {
            lemma_split_step(first, nothing, ' ');
        } else {
            assert(tail =~= nothing + seq![' '] + tail.drop_first());
            lemma_split_step(nothing, tail.drop_first(), ' ');
            assert(split(tail.drop_first(), ' ') =~= rest) by {
                assert((seq![nothing] + split(tail.drop_first(), ' ')).drop_first() =~= split(
                    tail.drop_first(),
                    ' ',
                ));
            }
            assert(first + tail =~= first + seq![' '] + tail.drop_first());
            lemma_split_step(first, tail.drop_first(), ' ');
        }
    }
}

/// The tokens of a line that begins with a prefix: the first is the colon
/// and the prefix up to its first space.
proof fn lemma_tokens_of_prefixed(prefix: Seq<char>, body: Seq<char>)
    requires
        prefix.len() > 0,
    ensures
        ({
            let line = prefix_text(prefix) + body;
            let cut = prefix_len(prefix, ' ') as int;
            let head = seq![':'] + prefix.take(cut);
            &&& cut <= prefix.len()
            &&& cut == prefix.len() ==> split(line, ' ') == seq![head] + split(body, ' ')
            &&& cut < prefix.len() ==> split(line, ' ') == seq![head] + split(
                prefix.skip(cut + 1) + seq![' '] + body,
                ' ',
            )
        }),
{
    let line = prefix_text(prefix) + body;
    let cut = prefix_len(prefix, ' ') as int;
    let head = seq![':'] + prefix.take(cut);
    lemma_prefix_len(prefix, ' ');
    assert(!head.contains(' '));
    if cut == prefix.len() {
        assert(prefix.take(cut) =~= prefix);
        lemma_split_step(head, body, ' ');
    } else {
        let tail = prefix.skip(cut + 1) + seq![' '] + body;
        assert(line =~= head + seq![' '] + tail);
        lemma_split_step(head, tail, ' ');
    }
}

/// A message whose command and parameters come back from its own line is
/// representable, where none of its parameters but the last holds a space.
pub proof fn lemma_only_representable(m: MessageView)
    requires
        spaces_only_in_last(m.parameters),
        parse(line_text(m)).command == m.command,
        parse(line_text(m)).parameters == m.parameters,
    ensures
        representable(m),
{
    let nothing = Seq::<char>::empty();
    let line = line_text(m);
    let tokens = split(line, ' ');
    let head = tokens[0];
    let written = parameters_text(m.parameters);
    let body = m.command + written;
    let cut = prefix_len(m.prefix, ' ') as int;
    lemma_split_pieces(line, ' ');
    lemma_weight_split(line);
    lemma_len_parameters_text(m.parameters);
    lemma_prefix_len(m.prefix, ' ');
    assert(line =~= prefix_text(m.prefix) + body);
    assert(tokens =~= seq![head] + tokens.skip(1));
    lemma_weight_cons(head, tokens.skip(1));
    lemma_weight_parameters_of(tokens.skip(1));
    if m.prefix.len() > 0 {
        lemma_tokens_of_prefixed(m.prefix, body);
        assert(head == seq![':'] + m.prefix.take(cut));
        assert(starts_with_colon(head));
        assert(tokens.len() > 1) by {
            lemma_split_pieces(body, ' ');
            lemma_split_pieces(m.prefix.skip(cut + 1) + seq![' '] + body, ' ');
        }
        assert(tokens.skip(1) =~= seq![tokens[1]] + tokens.skip(2));
        lemma_weight_cons(tokens[1], tokens.skip(2));
        lemma_weight_parameters_of(tokens.skip(2));
        if cut < m.prefix.len() {
            // The prefix holds a space. By the count it is its last
            // character, the command is empty and no parameter holds a space.
            let tail = m.prefix.skip(cut + 1) + seq![' '] + body;
            assert(m.prefix.len() == cut + 1);
            assert(m.command.len() == 0);
            assert(tail =~= nothing + seq![' '] + written);
            lemma_split_step(nothing, written, ' ');
            assert(tokens.skip(2) =~= split(written, ' ')) by {
                assert((seq![head] + (seq![nothing] + split(written, ' '))).skip(2) =~= split(
                    written,
                    ' ',
                ));
            }
            assert forall|i: int| 0 <= i < m.parameters.len() implies !(
            #[trigger] m.parameters[i]).contains(' ') by {
                if i == m.parameters.len() - 1 {
                    assert(m.parameters[i] == m.parameters.last());
                }
            }
            lemma_tokens_of_parameters(m.parameters);
            let shifted = seq![nothing] + m.parameters;
            assert(shifted.drop_first() =~= m.parameters);
            assert(parameters_of(shifted) == seq![nothing] + parameters_of(m.parameters));
            lemma_no_shift(m.parameters);
            assert(false);
        }
        assert(tokens.skip(1) =~= split(body, ' '));
        lemma_split_pieces(body, ' ');
        assert(!m.command.contains(' ')) by {
            assert(!tokens[1].contains(' '));
        }
        lemma_tokens_of_body(m.command, m.parameters);
        assert(tokens.skip(2) =~= parameter_tokens(m.parameters)) by {
            assert((seq![head] + (seq![m.command] + parameter_tokens(m.parameters))).skip(2)
                =~= parameter_tokens(m.parameters));
        }
        lemma_parameters_plain(m.parameters);
        assert(m.prefix.take(cut) =~= m.prefix);
    } else {
        assert(line =~= body);
        if starts_with_colon(head) {
            if tokens.len() > 1 {
                // A token is read as prefix that was written as command: the
                // line is too short for the command and the parameters too.
                assert(tokens.skip(1) =~= seq![tokens[1]] + tokens.skip(2));
                lemma_weight_cons(tokens[1], tokens.skip(2));
                lemma_weight_parameters_of(tokens.skip(2));
                assert(false);
            } else {
                // Neither command nor parameters are read, so there are
                // none; then the line is empty and begins with no colon.
                assert(m.command.len() == 0);
                assert(m.parameters.len() == 0);
                assert(line.len() == 0);
                assert(head == line.take(prefix_len(line, ' ') as int));
                assert(false);
            }
        }
        assert(!m.command.contains(' ')) by {
            assert(!tokens[0].contains(' '));
        }
        lemma_tokens_of_body(m.command, m.parameters);
        assert(tokens.skip(1) =~= parameter_tokens(m.parameters)) by {
            assert((seq![m.command] + parameter_tokens(m.parameters)).skip(1)
                =~= parameter_tokens(m.parameters));
        }
        lemma_parameters_plain(m.parameters);
    }
}

/// Round trip: among the messages of which no parameter but the last holds a
/// space, those whose command and parameters come back from their own line
/// are exactly the representable ones, and of these the prefix comes back
/// too.
pub proof fn lemma_round_trip(m: MessageView)
    requires
        spaces_only_in_last(m.parameters),
    ensures
        representable(m) <==> parse(line_text(m)).command == m.command && parse(
            line_text(m),
        ).parameters == m.parameters,
        representable(m) ==> parse(line_text(m)) == m,
{
    if representable(m) {
        lemma_parse_line_text(m);
    }
    if parse(line_text(m)).command == m.command && parse(line_text(m)).parameters
        == m.parameters {
        lemma_only_representable(m);
    }
}

} // verus!
