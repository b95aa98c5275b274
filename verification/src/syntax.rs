//! Declaration of the syntax tokens of the configuration lexer.

#![allow(non_camel_case_types)]

use vstd::prelude::*;

verus! {

/// Enum containing all the tokens in a syntax tree.
#[derive(Clone, Copy, Debug, PartialEq, Eq, PartialOrd, Ord, Hash, Structural)]
pub enum SyntaxKind {
    WHITESPACE,
    NEWLINE,
    COMMENT,
    IDENT,
    PERIOD,
    COMMA,
    EQ,
    STRING,
    MULTI_LINE_STRING,
    STRING_LITERAL,
    MULTI_LINE_STRING_LITERAL,
    INTEGER,
    INTEGER_HEX,
    INTEGER_OCT,
    INTEGER_BIN,
    FLOAT,
    BOOL,
    DATE,
    BRACKET_START,
    BRACKET_END,
    BRACE_START,
    BRACE_END,
    ERROR,
    // composite types
    KEY,
    VALUE,
    TABLE_HEADER,
    TABLE_ARRAY_HEADER,
    ENTRY,
    ARRAY,
    INLINE_TABLE,
    ROOT,
}

/// The numeric code of each token kind, in declaration order.
pub open spec fn syntax_kind_code(k: SyntaxKind) -> u16 {
    match k {
        SyntaxKind::WHITESPACE => 0,
        SyntaxKind::NEWLINE => 1,
        SyntaxKind::COMMENT => 2,
        SyntaxKind::IDENT => 3,
        SyntaxKind::PERIOD => 4,
        SyntaxKind::COMMA => 5,
        SyntaxKind::EQ => 6,
        SyntaxKind::STRING => 7,
        SyntaxKind::MULTI_LINE_STRING => 8,
        SyntaxKind::STRING_LITERAL => 9,
        SyntaxKind::MULTI_LINE_STRING_LITERAL => 10,
        SyntaxKind::INTEGER => 11,
        SyntaxKind::INTEGER_HEX => 12,
        SyntaxKind::INTEGER_OCT => 13,
        SyntaxKind::INTEGER_BIN => 14,
        SyntaxKind::FLOAT => 15,
        SyntaxKind::BOOL => 16,
        SyntaxKind::DATE => 17,
        SyntaxKind::BRACKET_START => 18,
        SyntaxKind::BRACKET_END => 19,
        SyntaxKind::BRACE_START => 20,
        SyntaxKind::BRACE_END => 21,
        SyntaxKind::ERROR => 22,
        SyntaxKind::KEY => 23,
        SyntaxKind::VALUE => 24,
        SyntaxKind::TABLE_HEADER => 25,
        SyntaxKind::TABLE_ARRAY_HEADER => 26,
        SyntaxKind::ENTRY => 27,
        SyntaxKind::ARRAY => 28,
        SyntaxKind::INLINE_TABLE => 29,
        SyntaxKind::ROOT => 30,
    }
}

impl SyntaxKind {
    /// The numeric code of this token kind, for a syntax tree library
    /// that numbers its node kinds.
    pub fn code(&self) -> (r: u16)
        ensures
            r == syntax_kind_code(*self),
    {
        match self {
            SyntaxKind::WHITESPACE => 0,
            SyntaxKind::NEWLINE => 1,
            SyntaxKind::COMMENT => 2,
            SyntaxKind::IDENT => 3,
            SyntaxKind::PERIOD => 4,
            SyntaxKind::COMMA => 5,
            SyntaxKind::EQ => 6,
            SyntaxKind::STRING => 7,
            SyntaxKind::MULTI_LINE_STRING => 8,
            SyntaxKind::STRING_LITERAL => 9,
            SyntaxKind::MULTI_LINE_STRING_LITERAL => 10,
            SyntaxKind::INTEGER => 11,
            SyntaxKind::INTEGER_HEX => 12,
            SyntaxKind::INTEGER_OCT => 13,
            SyntaxKind::INTEGER_BIN => 14,
            SyntaxKind::FLOAT => 15,
            SyntaxKind::BOOL => 16,
            SyntaxKind::DATE => 17,
            SyntaxKind::BRACKET_START => 18,
            SyntaxKind::BRACKET_END => 19,
            SyntaxKind::BRACE_START => 20,
            SyntaxKind::BRACE_END => 21,
            SyntaxKind::ERROR => 22,
            SyntaxKind::KEY => 23,
            SyntaxKind::VALUE => 24,
            SyntaxKind::TABLE_HEADER => 25,
            SyntaxKind::TABLE_ARRAY_HEADER => 26,
            SyntaxKind::ENTRY => 27,
            SyntaxKind::ARRAY => 28,
            SyntaxKind::INLINE_TABLE => 29,
            SyntaxKind::ROOT => 30,
        }
    }
}

} // verus!
