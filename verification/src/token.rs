//! The tokens of a tape, the phases of a record and the errors of the builder.

use vstd::prelude::*;
use vstd::string::StringSliceAdditionalSpecFns;

verus! {

/// One structural element of a record. The texts are slices of the buffer
/// that was tokenized; the numbers are parsed values.
#[derive(Debug, Clone, Copy, PartialEq)]
#[allow(inconsistent_fields)]
pub enum Node<'input> {
    /// The metric name of a record.
    Measurement(&'input str),
    /// A tag pair.
    Tag { key: &'input str, value: &'input str },
    /// A field pair with its integer value.
    Field { key: &'input str, value: u64 },
    /// The timestamp that ends a record.
    Timestamp(u64),
}

/// The part of a record that the tape builder is reading.
#[derive(Debug, Clone, Copy, PartialEq, Eq)]
pub enum Phase {
    Measurement,
    TagSet,
    FieldSet,
    Timestamp,
}

/// Why a buffer could not be tokenized.
#[derive(Debug, Clone, Copy, PartialEq, Eq)]
pub enum TapeError {
    /// The buffer holds a character outside ASCII.
    NotAscii,
    /// A record breaks the grammar. `position` is the offset of the delimiter
    /// at which that showed, or the length of the buffer when it showed at
    /// the end of input; `expected_phase` is the part of the record that the
    /// builder was reading there.
    MalformedRecord { position: usize, expected_phase: Phase },
}

/// What a token is: a `Node` with its texts taken as byte strings.
#[allow(inconsistent_fields)]
pub enum Token {
    Measurement(Seq<u8>),
    Tag { key: Seq<u8>, value: Seq<u8> },
    Field { key: Seq<u8>, value: u64 },
    Timestamp(u64),
}

impl<'input> View for Node<'input> {
    type V = Token;

    open spec fn view(&self) -> Token {
        match *self {
            Node::Measurement(name) => Token::Measurement(name.spec_bytes()),
            Node::Tag { key, value } => Token::Tag {
                key: key.spec_bytes(),
                value: value.spec_bytes(),
            },
            Node::Field { key, value } => Token::Field { key: key.spec_bytes(), value },
            Node::Timestamp(value) => Token::Timestamp(value),
        }
    }
}

/// The tokens that a list of nodes stands for.
pub open spec fn tokens_of(nodes: Seq<Node>) -> Seq<Token> {
    nodes.map_values(|node: Node| node@)
}

} // verus!
