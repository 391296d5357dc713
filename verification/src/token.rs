//! The tokens produced by the lexer of the fact-program syntax.

use vstd::prelude::*;

verus! {

/// A source range in bytes: `start` is inclusive, `end` exclusive.
#[derive(PartialEq, Eq, Structural, Clone, Copy, Debug, Default)]
pub struct Span {
    pub start: u32,
    pub end: u32,
}

impl Span {
    /// The span of the byte range `start..end`. Each bound is truncated to 32 bits, as a
    /// cast of a `usize` to `u32` does.
    pub fn from_range(start: usize, end: usize) -> (r: Span)
        ensures
            r.start == start as u32,
            r.end == end as u32,
    {
        Span { start: start as u32, end: end as u32 }
    }

    /// The byte range that this span covers, as a pair of `usize` bounds.
    pub fn to_range(&self) -> (r: (usize, usize))
        ensures
            r.0 == self.start as int,
            r.1 == self.end as int,
    {
        (self.start as usize, self.end as usize)
    }
}

/// A token: what input was recognised, and where it stands in the source.
#[derive(PartialEq, Eq, Structural, Clone, Copy, Debug)]
pub struct Token {
    pub kind: TokenKind,
    pub span: Span,
}

/// What a token of the fact-program syntax is.
#[derive(PartialEq, Eq, Structural, Clone, Copy, Debug)]
pub enum TokenKind {
    Comma,
    Colon,
    Semi,
    Slash,
    LParen,
    RParen,
    LCurly,
    RCurly,
    // relation keywords
    KwUseOfVarDerefsOrigin,
    KwDropOfVarDerefsOrigin,
    KwPlaceholders,
    KwKnownSubsets,
    KwChildPath,
    KwPathIsVar,
    // CFG keywords
    KwBlock,
    KwGoto,
    // effect keywords - facts
    KwOutlives,
    KwBorrowRegionAt,
    KwLoanIssuedAt,
    KwInvalidates,
    KwLoanInvalidatedAt,
    KwKill,
    KwLoanKilledAt,
    KwVarUsedAt,
    KwVarDefinedAt,
    KwOriginLiveOnEntry,
    KwVarDroppedAt,
    KwPathMovedAtBase,
    KwPathAssignedAtBase,
    KwPathAccessedAtBase,
    // effect keywords - use
    KwUse,
    // parameters
    Origin,
    Block,
    Loan,
    Variable,
    Path,
    Comment,
    Whitespace,
    Error,
    Eof,
}

/// The text by which a token kind is shown to users (in error messages).
pub open spec fn kind_text(k: TokenKind) -> Seq<char> {
    match k {
        TokenKind::Comma => ","@,
        TokenKind::Colon => ":"@,
        TokenKind::Semi => ";"@,
        TokenKind::Slash => "/"@,
        TokenKind::LParen => "("@,
        TokenKind::RParen => ")"@,
        TokenKind::LCurly => "{"@,
        TokenKind::RCurly => "}"@,
        TokenKind::KwUseOfVarDerefsOrigin => "use_of_var_derefs_origin"@,
        TokenKind::KwDropOfVarDerefsOrigin => "drop_of_var_derefs_origin"@,
        TokenKind::KwPlaceholders => "placeholders"@,
        TokenKind::KwKnownSubsets => "known_subsets"@,
        TokenKind::KwChildPath => "child_path"@,
        TokenKind::KwPathIsVar => "path_is_var"@,
        TokenKind::KwBlock => "block"@,
        TokenKind::KwGoto => "goto"@,
        TokenKind::KwOutlives => "outlives"@,
        TokenKind::KwBorrowRegionAt => "borrow_region_at"@,
        TokenKind::KwLoanIssuedAt => "loan_issued_at"@,
        TokenKind::KwInvalidates => "invalidates"@,
        TokenKind::KwLoanInvalidatedAt => "loan_invalidated_at"@,
        TokenKind::KwKill => "kill"@,
        TokenKind::KwLoanKilledAt => "loan_killed_at"@,
        TokenKind::KwVarUsedAt => "var_used_at"@,
        TokenKind::KwVarDefinedAt => "var_defined_at"@,
        TokenKind::KwOriginLiveOnEntry => "origin_live_on_entry"@,
        TokenKind::KwVarDroppedAt => "var_dropped_at"@,
        TokenKind::KwPathMovedAtBase => "path_moved_at_base"@,
        TokenKind::KwPathAssignedAtBase => "path_assigned_at_base"@,
        TokenKind::KwPathAccessedAtBase => "path_accessed_at_base"@,
        TokenKind::KwUse => "use"@,
        TokenKind::Origin => "Origin"@,
        TokenKind::Block => "Block"@,
        TokenKind::Loan => "Loan"@,
        TokenKind::Variable => "Variable"@,
        TokenKind::Path => "Path"@,
        TokenKind::Comment => "// Comment"@,
        TokenKind::Whitespace => "<ws>"@,
        TokenKind::Error => "<?>"@,
        TokenKind::Eof => "EOF"@,
    }
}

impl TokenKind {
    /// The text by which this token kind is shown to users.
    pub fn as_str(&self) -> (r: &'static str)
        ensures
            r@ == kind_text(*self),
    {
        match self {
            TokenKind::Comma => ",",
            TokenKind::Colon => ":",
            TokenKind::Semi => ";",
            TokenKind::Slash => "/",
            TokenKind::LParen => "(",
            TokenKind::RParen => ")",
            TokenKind::LCurly => "{",
            TokenKind::RCurly => "}",
            TokenKind::KwUseOfVarDerefsOrigin => "use_of_var_derefs_origin",
            TokenKind::KwDropOfVarDerefsOrigin => "drop_of_var_derefs_origin",
            TokenKind::KwPlaceholders => "placeholders",
            TokenKind::KwKnownSubsets => "known_subsets",
            TokenKind::KwChildPath => "child_path",
            TokenKind::KwPathIsVar => "path_is_var",
            TokenKind::KwBlock => "block",
            TokenKind::KwGoto => "goto",
            TokenKind::KwOutlives => "outlives",
            TokenKind::KwBorrowRegionAt => "borrow_region_at",
            TokenKind::KwLoanIssuedAt => "loan_issued_at",
            TokenKind::KwInvalidates => "invalidates",
            TokenKind::KwLoanInvalidatedAt => "loan_invalidated_at",
            TokenKind::KwKill => "kill",
            TokenKind::KwLoanKilledAt => "loan_killed_at",
            TokenKind::KwVarUsedAt => "var_used_at",
            TokenKind::KwVarDefinedAt => "var_defined_at",
            TokenKind::KwOriginLiveOnEntry => "origin_live_on_entry",
            TokenKind::KwVarDroppedAt => "var_dropped_at",
            TokenKind::KwPathMovedAtBase => "path_moved_at_base",
            TokenKind::KwPathAssignedAtBase => "path_assigned_at_base",
            TokenKind::KwPathAccessedAtBase => "path_accessed_at_base",
            TokenKind::KwUse => "use",
            TokenKind::Origin => "Origin",
            TokenKind::Block => "Block",
            TokenKind::Loan => "Loan",
            TokenKind::Variable => "Variable",
            TokenKind::Path => "Path",
            TokenKind::Comment => "// Comment",
            TokenKind::Whitespace => "<ws>",
            TokenKind::Error => "<?>",
            TokenKind::Eof => "EOF",
        }
    }

    /// The text by which this token kind is shown to users, as an owned string.
    pub fn to_string(&self) -> (r: String)
        ensures
            r@ == kind_text(*self),
    {
        self.as_str().to_owned()
    }
}

impl Token {
    /// A token is shown as its kind.
    pub fn to_string(&self) -> (r: String)
        ensures
            r@ == kind_text(self.kind),
    {
        self.kind.to_string()
    }
}

/// The number of keywords that the lexer recognises.
pub open spec fn num_keywords() -> nat {
    23
}

/// The keywords, in the order in which the lexer tries them against the input (a keyword that
/// is a prefix of another one comes after it).
pub open spec fn keyword(i: int) -> (Seq<char>, TokenKind) {
    if i == 0 { ("use_of_var_derefs_origin"@, TokenKind::KwUseOfVarDerefsOrigin) }
    else if i == 1 { ("drop_of_var_derefs_origin"@, TokenKind::KwDropOfVarDerefsOrigin) }
    else if i == 2 { ("placeholders"@, TokenKind::KwPlaceholders) }
    else if i == 3 { ("known_subsets"@, TokenKind::KwKnownSubsets) }
    else if i == 4 { ("child_path"@, TokenKind::KwChildPath) }
    else if i == 5 { ("path_is_var"@, TokenKind::KwPathIsVar) }
    else if i == 6 { ("block"@, TokenKind::KwBlock) }
    else if i == 7 { ("goto"@, TokenKind::KwGoto) }
    else if i == 8 { ("outlives"@, TokenKind::KwOutlives) }
    else if i == 9 { ("borrow_region_at"@, TokenKind::KwBorrowRegionAt) }
    else if i == 10 { ("loan_issued_at"@, TokenKind::KwLoanIssuedAt) }
    else if i == 11 { ("invalidates"@, TokenKind::KwInvalidates) }
    else if i == 12 { ("loan_invalidated_at"@, TokenKind::KwLoanInvalidatedAt) }
    else if i == 13 { ("kill"@, TokenKind::KwKill) }
    else if i == 14 { ("loan_killed_at"@, TokenKind::KwLoanKilledAt) }
    else if i == 15 { ("var_used_at"@, TokenKind::KwVarUsedAt) }
    else if i == 16 { ("var_defined_at"@, TokenKind::KwVarDefinedAt) }
    else if i == 17 { ("origin_live_on_entry"@, TokenKind::KwOriginLiveOnEntry) }
    else if i == 18 { ("var_dropped_at"@, TokenKind::KwVarDroppedAt) }
    else if i == 19 { ("path_moved_at_base"@, TokenKind::KwPathMovedAtBase) }
    else if i == 20 { ("path_assigned_at_base"@, TokenKind::KwPathAssignedAtBase) }
    else if i == 21 { ("path_accessed_at_base"@, TokenKind::KwPathAccessedAtBase) }
    else { ("use"@, TokenKind::KwUse) }
}

/// The keyword tried at step `i` of the lexer's keyword search.
pub fn keyword_at(i: usize) -> (r: (&'static str, TokenKind))
    requires
        i < num_keywords(),
    ensures
        r.0@ == keyword(i as int).0,
        r.1 == keyword(i as int).1,
{
    if i == 0 { ("use_of_var_derefs_origin", TokenKind::KwUseOfVarDerefsOrigin) }
    else if i == 1 { ("drop_of_var_derefs_origin", TokenKind::KwDropOfVarDerefsOrigin) }
    else if i == 2 { ("placeholders", TokenKind::KwPlaceholders) }
    else if i == 3 { ("known_subsets", TokenKind::KwKnownSubsets) }
    else if i == 4 { ("child_path", TokenKind::KwChildPath) }
    else if i == 5 { ("path_is_var", TokenKind::KwPathIsVar) }
    else if i == 6 { ("block", TokenKind::KwBlock) }
    else if i == 7 { ("goto", TokenKind::KwGoto) }
    else if i == 8 { ("outlives", TokenKind::KwOutlives) }
    else if i == 9 { ("borrow_region_at", TokenKind::KwBorrowRegionAt) }
    else if i == 10 { ("loan_issued_at", TokenKind::KwLoanIssuedAt) }
    else if i == 11 { ("invalidates", TokenKind::KwInvalidates) }
    else if i == 12 { ("loan_invalidated_at", TokenKind::KwLoanInvalidatedAt) }
    else if i == 13 { ("kill", TokenKind::KwKill) }
    else if i == 14 { ("loan_killed_at", TokenKind::KwLoanKilledAt) }
    else if i == 15 { ("var_used_at", TokenKind::KwVarUsedAt) }
    else if i == 16 { ("var_defined_at", TokenKind::KwVarDefinedAt) }
    else if i == 17 { ("origin_live_on_entry", TokenKind::KwOriginLiveOnEntry) }
    else if i == 18 { ("var_dropped_at", TokenKind::KwVarDroppedAt) }
    else if i == 19 { ("path_moved_at_base", TokenKind::KwPathMovedAtBase) }
    else if i == 20 { ("path_assigned_at_base", TokenKind::KwPathAssignedAtBase) }
    else if i == 21 { ("path_accessed_at_base", TokenKind::KwPathAccessedAtBase) }
    else { ("use", TokenKind::KwUse) }
}

} // verus!
