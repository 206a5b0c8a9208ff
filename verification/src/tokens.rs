//! Token trees, and how the annotations of the tasks are found in them.
//!
//! A batch is written down as a block in braces whose tasks carry the
//! attribute `purtel_task`. The arguments of an attribute are the group of
//! tokens that follows its name.

use vstd::prelude::*;
use vstd::string::StringExecFns;

verus! {

/// The brackets around a group of tokens.
#[derive(Debug, Copy, Clone, PartialEq, Eq, Structural)]
pub enum Delimiter {
    /// `( ... )`
    Parenthesis,
    /// `{ ... }`
    Brace,
    /// `[ ... ]`
    Bracket,
    /// No visible bracket.
    Invisible,
}

/// One token, or a bracketed group of tokens.
#[derive(Debug)]
pub enum TokenTree {
    /// A stream of tokens between brackets.
    Group { delimiter: Delimiter, stream: Vec<TokenTree> },
    /// A word: a name or a keyword.
    Ident(String),
    /// A single punctuation character; `joint` says whether the next token
    /// follows it without a gap, as the two halves of `::` do.
    Punct { mark: char, joint: bool },
    /// A literal, as it is written.
    Literal(String),
}

/// Why a stream of tokens is not a block.
#[derive(Debug, Copy, Clone, PartialEq, Eq, Structural)]
pub enum BlockError {
    /// The stream holds no group.
    NoGroup,
    /// The last group of the stream is not one in braces.
    NotBraces,
}

/// The name of the attribute that marks a task.
pub open spec fn task_marker() -> Seq<char> {
    "purtel_task"@
}

/// The argument groups of the task attributes in `stream`, in the order in
/// which they are met when the stream is read from left to right and every
/// group is entered right after it has been looked at. `armed` says whether
/// the name of the attribute has been seen and no group since. A group that
/// follows the name is taken for the arguments; what lies between the name and
/// the group is passed over. Inside a group the search starts afresh.
pub open spec fn task_arguments(stream: Seq<TokenTree>, armed: bool) -> Seq<Vec<TokenTree>>
    decreases stream,
{
    if stream.len() == 0 {
        Seq::empty()
    } else {
        let rest = stream.drop_first();
        match stream[0] {
            TokenTree::Group { delimiter, stream: inner } => {
                (if armed {
                    seq![inner]
                } else {
                    Seq::empty()
                }) + task_arguments(inner@, false) + task_arguments(rest, false)
            },
            TokenTree::Ident(name) => task_arguments(rest, armed || name@ == task_marker()),
            _ => task_arguments(rest, armed),
        }
    }
}

/// The streams that a list of borrowed streams refers to.
pub open spec fn streams_of(found: Seq<&Vec<TokenTree>>) -> Seq<Vec<TokenTree>> {
    found.map_values(|stream: &Vec<TokenTree>| *stream)
}

/// Searches `stream`, and the groups in it to any depth, for the attributes
/// that mark a task, and appends the arguments of each to `token_streams`, in
/// the order of [`task_arguments`].
pub fn purtel_task_traverse_token_stream<'a>(
    stream: &'a Vec<TokenTree>,
    token_streams: &mut Vec<&'a Vec<TokenTree>>,
)
    ensures
        streams_of(final(token_streams)@) == streams_of(old(token_streams)@) + task_arguments(
            stream@,
            false,
        ),
    decreases stream,
{
    let marker = String::from_str("purtel_task");
    let ghost start = streams_of(token_streams@);
    let mut next_group_is_purtel_task = false;
    let mut i: usize = 0;
    assert(stream@.skip(0) =~= stream@);
    while i < stream.len()
        invariant
            i <= stream.len(),
            marker@ == task_marker(),
            start == streams_of(old(token_streams)@),
            streams_of(token_streams@) + task_arguments(
                stream@.skip(i as int),
                next_group_is_purtel_task,
            ) == start + task_arguments(stream@, false),
        decreases stream.len() - i,
    {
        let ghost here = stream@.skip(i as int);
        let ghost before = streams_of(token_streams@);
        assert(here.drop_first() =~= stream@.skip(i + 1));
        assert(here[0] == stream[i as int]);
        match &stream[i] {
            TokenTree::Group { delimiter: _, stream: inner } => {
                if next_group_is_purtel_task {
                    token_streams.push(inner);
                    assert(streams_of(token_streams@) =~= before + seq![*inner]);
                    next_group_is_purtel_task = false;
                }
                purtel_task_traverse_token_stream(inner, token_streams);
            },
            TokenTree::Ident(name) => {
                if *name == marker {
                    next_group_is_purtel_task = true;
                }
            },
            _ => {},
        }
        i += 1;
    }
    assert(stream@.skip(i as int).len() == 0);
}

/// The position of the last group among the first `n` trees of `stream`.
pub open spec fn last_group(stream: Seq<TokenTree>, n: int) -> Option<int>
    decreases n,
{
    if n <= 0 || n > stream.len() {
        None
    } else if stream[n - 1] is Group {
        Some(n - 1)
    } else {
        last_group(stream, n - 1)
    }
}

/// What is left of `stream` when the block around it is taken away: the
/// contents of its last group, which has to be one in braces.
pub open spec fn block_contents(stream: Seq<TokenTree>) -> Result<Vec<TokenTree>, BlockError> {
    match last_group(stream, stream.len() as int) {
        None => Err(BlockError::NoGroup),
        Some(at) => if stream[at]->delimiter == Delimiter::Brace {
            Ok(stream[at]->stream)
        } else {
            Err(BlockError::NotBraces)
        },
    }
}

/// Takes the block around a stream away: returns what the last group of
/// `stream` holds, as if the braces had never been there.
pub fn unwrap_block(stream: Vec<TokenTree>) -> (contents: Result<Vec<TokenTree>, BlockError>)
    ensures
        contents == block_contents(stream@),
{
    let mut stream = stream;
    let ghost given = stream@;
    let mut at: usize = stream.len();
    while at > 0 && !is_group(&stream[at - 1])
        invariant
            stream@ == given,
            at <= stream.len(),
            last_group(given, given.len() as int) == last_group(given, at as int),
        decreases at,
    {
        at -= 1;
    }
    if at == 0 {
        return Err(BlockError::NoGroup);
    }
    stream.truncate(at);
    match stream.pop() {
        Some(TokenTree::Group { delimiter, stream: inner }) => {
            if delimiter == Delimiter::Brace {
                Ok(inner)
            } else {
                Err(BlockError::NotBraces)
            }
        },
        _ => {
            // the tree at `at - 1` is a group
            assert(false);
            Err(BlockError::NoGroup)
        },
    }
}

/// Whether `tree` is a group.
pub fn is_group(tree: &TokenTree) -> (group: bool)
    ensures
        group == tree is Group,
{
    match tree {
        TokenTree::Group { delimiter: _, stream: _ } => true,
        _ => false,
    }
}

} // verus!
