use vstd::prelude::*;

verus! {

/// Every lexical and syntactic category of the language. The same small
/// integers tag the lexer's tokens and the nodes of the generic tree.
#[allow(non_camel_case_types)]
#[derive(Clone, Copy, Debug, PartialEq, Eq, Structural, PartialOrd, Ord, Hash)]
pub enum SyntaxKind {
    EOF,
    WHITESPACE,
    IDENTIFIER,
    EOL,
    ERROR,
    // synthetic nodes
    ROOT,
    // keywords
    PARTICIPANT_KW,
    // composite nodes
    STATEMENT,
    PARTICIPANT_DECL,
}

/// Number of kinds: the raw tags are `0..KIND_COUNT`.
pub const KIND_COUNT: u16 = 9;

/// The raw tag of a kind, in declaration order.
pub open spec fn raw_of(k: SyntaxKind) -> u16 {
    match k {
        SyntaxKind::EOF => 0,
        SyntaxKind::WHITESPACE => 1,
        SyntaxKind::IDENTIFIER => 2,
        SyntaxKind::EOL => 3,
        SyntaxKind::ERROR => 4,
        SyntaxKind::ROOT => 5,
        SyntaxKind::PARTICIPANT_KW => 6,
        SyntaxKind::STATEMENT => 7,
        SyntaxKind::PARTICIPANT_DECL => 8,
    }
}

/// The kind with a given raw tag, if there is one.
pub open spec fn kind_of_raw(r: u16) -> Option<SyntaxKind> {
    if r == 0 {
        Some(SyntaxKind::EOF)
    } else if r == 1 {
        Some(SyntaxKind::WHITESPACE)
    } else if r == 2 {
        Some(SyntaxKind::IDENTIFIER)
    } else if r == 3 {
        Some(SyntaxKind::EOL)
    } else if r == 4 {
        Some(SyntaxKind::ERROR)
    } else if r == 5 {
        Some(SyntaxKind::ROOT)
    } else if r == 6 {
        Some(SyntaxKind::PARTICIPANT_KW)
    } else if r == 7 {
        Some(SyntaxKind::STATEMENT)
    } else if r == 8 {
        Some(SyntaxKind::PARTICIPANT_DECL)
    } else {
        None
    }
}

/// Kinds that the lexer produces from a pattern of their own.
pub open spec fn is_lexable(k: SyntaxKind) -> bool {
    k == SyntaxKind::PARTICIPANT_KW || k == SyntaxKind::IDENTIFIER || k == SyntaxKind::EOL
        || k == SyntaxKind::WHITESPACE
}

impl SyntaxKind {
    pub fn to_raw(self) -> (r: u16)
        ensures
            r == raw_of(self),
    {
        match self {
            SyntaxKind::EOF => 0,
            SyntaxKind::WHITESPACE => 1,
            SyntaxKind::IDENTIFIER => 2,
            SyntaxKind::EOL => 3,
            SyntaxKind::ERROR => 4,
            SyntaxKind::ROOT => 5,
            SyntaxKind::PARTICIPANT_KW => 6,
            SyntaxKind::STATEMENT => 7,
            SyntaxKind::PARTICIPANT_DECL => 8,
        }
    }

    pub fn from_raw(r: u16) -> (k: Option<SyntaxKind>)
        ensures
            k == kind_of_raw(r),
    {
        match r {
            0 => Some(SyntaxKind::EOF),
            1 => Some(SyntaxKind::WHITESPACE),
            2 => Some(SyntaxKind::IDENTIFIER),
            3 => Some(SyntaxKind::EOL),
            4 => Some(SyntaxKind::ERROR),
            5 => Some(SyntaxKind::ROOT),
            6 => Some(SyntaxKind::PARTICIPANT_KW),
            7 => Some(SyntaxKind::STATEMENT),
            8 => Some(SyntaxKind::PARTICIPANT_DECL),
            _ => None,
        }
    }

    /// The lexer's pattern for a lexable kind, as a regular expression.
    pub fn pattern(self) -> (p: &'static str)
        requires
            is_lexable(self),
        ensures
            self == SyntaxKind::PARTICIPANT_KW ==> p@ == "participant"@,
            self == SyntaxKind::IDENTIFIER ==> p@ == "[a-zA-Z][a-zA-Z0-9]*"@,
            self == SyntaxKind::EOL ==> p@ == "\n"@,
            self == SyntaxKind::WHITESPACE ==> p@ == "[^\\S\\r\\n]+"@,
    {
        match self {
            SyntaxKind::PARTICIPANT_KW => "participant",
            SyntaxKind::IDENTIFIER => "[a-zA-Z][a-zA-Z0-9]*",
            SyntaxKind::EOL => "\n",
            _ => "[^\\S\\r\\n]+",
        }
    }
}

/// The language tag of the generic tree: converts between the tree's raw
/// tags and `SyntaxKind`. The one language here is the diagram notation.
#[derive(Debug, Clone, Copy, PartialEq, Eq, PartialOrd, Ord, Hash)]
pub enum Lang {
    Puml,
}

impl Lang {
    pub fn kind_from_raw(raw: u16) -> (k: SyntaxKind)
        requires
            raw < KIND_COUNT,
        ensures
            kind_of_raw(raw) == Some(k),
            raw_of(k) == raw,
    {
        match SyntaxKind::from_raw(raw) {
            Some(k) => k,
            None => SyntaxKind::ERROR,
        }
    }

    pub fn kind_to_raw(kind: SyntaxKind) -> (r: u16)
        ensures
            r == raw_of(kind),
            kind_of_raw(r) == Some(kind),
    {
        kind.to_raw()
    }
}

} // verus!
