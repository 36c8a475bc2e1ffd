//! Pillar nodes of the height map: a height and a palette colour per hex,
//! read from lines of the form `<x> <y> <height> <color>`.
use vstd::prelude::*;
use crate::load_save::{chars_of, split_tokens, parse_i32, parse_u8, tokens, token_i32, token_u8, token_views};
use crate::theme::{Theme, theme_of_name, theme_from_chars};

verus! {

/// A pillar: its height in steps and its colour.
#[derive(Debug, Clone, Copy, PartialEq, Eq, Hash, Structural)]
pub struct Node {
    pub height: u8,
    pub color: Theme,
}

/// The fields of a node line, in order.
#[derive(Debug, Clone, Copy, PartialEq, Eq, Structural)]
pub enum NodeField {
    X,
    Y,
    Height,
    Color,
}

/// Why a node line could not be read.
#[derive(Debug, Clone, Copy, PartialEq, Eq, Structural)]
pub enum NodeError {
    Missing(NodeField),
    Invalid(NodeField),
}

/// What reading a node line gives: its first four words as `x`, `y`,
/// height and colour, or the first field that is missing or invalid.
pub open spec fn parse_node(s: Seq<char>) -> Result<(i32, i32, Node), NodeError> {
    let t = tokens(s);
    if t.len() < 1 {
        Err(NodeError::Missing(NodeField::X))
    } else if token_i32(t[0]) is None {
        Err(NodeError::Invalid(NodeField::X))
    } else if t.len() < 2 {
        Err(NodeError::Missing(NodeField::Y))
    } else if token_i32(t[1]) is None {
        Err(NodeError::Invalid(NodeField::Y))
    } else if t.len() < 3 {
        Err(NodeError::Missing(NodeField::Height))
    } else if token_u8(t[2]) is None {
        Err(NodeError::Invalid(NodeField::Height))
    } else if t.len() < 4 {
        Err(NodeError::Missing(NodeField::Color))
    } else if theme_of_name(t[3]) is None {
        Err(NodeError::Invalid(NodeField::Color))
    } else {
        Ok(
            (
                token_i32(t[0])->Some_0,
                token_i32(t[1])->Some_0,
                Node { height: token_u8(t[2])->Some_0, color: theme_of_name(t[3])->Some_0 },
            ),
        )
    }
}

impl Node {
    pub fn new(height: u8, color: Theme) -> (n: Node)
        ensures
            n.height == height,
            n.color == color,
    {
        Node { height, color }
    }

    /// Reads one node line.
    pub fn from_str(line: &str) -> (r: Result<(i32, i32, Node), NodeError>)
        ensures
            r == parse_node(line@),
    {
        let chars = chars_of(line);
        let t = split_tokens(&chars);
        let ghost tv = token_views(t@);
        assert(tv == tokens(line@));
        if t.len() < 1 {
            return Err(NodeError::Missing(NodeField::X));
        }
        assert(tv[0] == t@[0]@);
        let x = match parse_i32(&t[0]) {
            Some(v) => v,
            None => {
                return Err(NodeError::Invalid(NodeField::X));
            },
        };
        if t.len() < 2 {
            return Err(NodeError::Missing(NodeField::Y));
        }
        assert(tv[1] == t@[1]@);
        let y = match parse_i32(&t[1]) {
            Some(v) => v,
            None => {
                return Err(NodeError::Invalid(NodeField::Y));
            },
        };
        if t.len() < 3 {
            return Err(NodeError::Missing(NodeField::Height));
        }
        assert(tv[2] == t@[2]@);
        let height = match parse_u8(&t[2]) {
            Some(v) => v,
            None => {
                return Err(NodeError::Invalid(NodeField::Height));
            },
        };
        if t.len() < 4 {
            return Err(NodeError::Missing(NodeField::Color));
        }
        assert(tv[3] == t@[3]@);
        let color = match theme_from_chars(&t[3]) {
            Some(c) => c,
            None => {
                return Err(NodeError::Invalid(NodeField::Color));
            },
        };
        Ok((x, y, Node::new(height, color)))
    }
}

} // verus!
