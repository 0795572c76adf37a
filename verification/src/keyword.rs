//! The keyword table of the surface language.
//!
//! Each keyword knows its spelling, and a spelling parses back to
//! the keyword it belongs to; any other string is rejected.

use vstd::prelude::*;

use crate::resolve::string_eq_str;

verus! {

/// A reserved word of the language.
#[derive(Clone, Copy, Debug, PartialEq, Eq, Hash, Structural)]
pub enum Keyword {
    Adj,
    Adjoint,
    AdjointUpper,
    And,
    Apply,
    As,
    Auto,
    Body,
    Borrow,
    Controlled,
    ControlledUpper,
    Ctl,
    Distribute,
    Elif,
    Else,
    Export,
    Fail,
    False,
    Fixup,
    For,
    Function,
    If,
    In,
    Internal,
    Intrinsic,
    Invert,
    Is,
    Let,
    Mutable,
    Namespace,
    Newtype,
    Not,
    One,
    Open,
    Operation,
    Or,
    PauliI,
    PauliX,
    PauliY,
    PauliZ,
    Repeat,
    Return,
    Slf,
    SetKw,
    True,
    Underscore,
    Until,
    Use,
    While,
    Within,
    Zero,
}

impl Keyword {
    /// The spelling of each keyword.
    pub open spec fn spec_str(self) -> Seq<char> {
        match self {
            Keyword::Adj => "Adj"@,
            Keyword::Adjoint => "adjoint"@,
            Keyword::AdjointUpper => "Adjoint"@,
            Keyword::And => "and"@,
            Keyword::Apply => "apply"@,
            Keyword::As => "as"@,
            Keyword::Auto => "auto"@,
            Keyword::Body => "body"@,
            Keyword::Borrow => "borrow"@,
            Keyword::Controlled => "controlled"@,
            Keyword::ControlledUpper => "Controlled"@,
            Keyword::Ctl => "Ctl"@,
            Keyword::Distribute => "distribute"@,
            Keyword::Elif => "elif"@,
            Keyword::Else => "else"@,
            Keyword::Export => "export"@,
            Keyword::Fail => "fail"@,
            Keyword::False => "false"@,
            Keyword::Fixup => "fixup"@,
            Keyword::For => "for"@,
            Keyword::Function => "function"@,
            Keyword::If => "if"@,
            Keyword::In => "in"@,
            Keyword::Internal => "internal"@,
            Keyword::Intrinsic => "intrinsic"@,
            Keyword::Invert => "invert"@,
            Keyword::Is => "is"@,
            Keyword::Let => "let"@,
            Keyword::Mutable => "mutable"@,
            Keyword::Namespace => "namespace"@,
            Keyword::Newtype => "newtype"@,
            Keyword::Not => "not"@,
            Keyword::One => "One"@,
            Keyword::Open => "open"@,
            Keyword::Operation => "operation"@,
            Keyword::Or => "or"@,
            Keyword::PauliI => "PauliI"@,
            Keyword::PauliX => "PauliX"@,
            Keyword::PauliY => "PauliY"@,
            Keyword::PauliZ => "PauliZ"@,
            Keyword::Repeat => "repeat"@,
            Keyword::Return => "return"@,
            Keyword::Slf => "self"@,
            Keyword::SetKw => "set"@,
            Keyword::True => "true"@,
            Keyword::Underscore => "_"@,
            Keyword::Until => "until"@,
            Keyword::Use => "use"@,
            Keyword::While => "while"@,
            Keyword::Within => "within"@,
            Keyword::Zero => "Zero"@,
        }
    }

    /// The textual form of this keyword.
    pub fn as_str(self) -> (r: &'static str)
        ensures
            r@ == self.spec_str(),
    {
        match self {
            Keyword::Adj => "Adj",
            Keyword::Adjoint => "adjoint",
            Keyword::AdjointUpper => "Adjoint",
            Keyword::And => "and",
            Keyword::Apply => "apply",
            Keyword::As => "as",
            Keyword::Auto => "auto",
            Keyword::Body => "body",
            Keyword::Borrow => "borrow",
            Keyword::Controlled => "controlled",
            Keyword::ControlledUpper => "Controlled",
            Keyword::Ctl => "Ctl",
            Keyword::Distribute => "distribute",
            Keyword::Elif => "elif",
            Keyword::Else => "else",
            Keyword::Export => "export",
            Keyword::Fail => "fail",
            Keyword::False => "false",
            Keyword::Fixup => "fixup",
            Keyword::For => "for",
            Keyword::Function => "function",
            Keyword::If => "if",
            Keyword::In => "in",
            Keyword::Internal => "internal",
            Keyword::Intrinsic => "intrinsic",
            Keyword::Invert => "invert",
            Keyword::Is => "is",
            Keyword::Let => "let",
            Keyword::Mutable => "mutable",
            Keyword::Namespace => "namespace",
            Keyword::Newtype => "newtype",
            Keyword::Not => "not",
            Keyword::One => "One",
            Keyword::Open => "open",
            Keyword::Operation => "operation",
            Keyword::Or => "or",
            Keyword::PauliI => "PauliI",
            Keyword::PauliX => "PauliX",
            Keyword::PauliY => "PauliY",
            Keyword::PauliZ => "PauliZ",
            Keyword::Repeat => "repeat",
            Keyword::Return => "return",
            Keyword::Slf => "self",
            Keyword::SetKw => "set",
            Keyword::True => "true",
            Keyword::Underscore => "_",
            Keyword::Until => "until",
            Keyword::Use => "use",
            Keyword::While => "while",
            Keyword::Within => "within",
            Keyword::Zero => "Zero",
        }
    }

    /// Parse a spelling back into its keyword. Anything that is
    /// not the spelling of some keyword is rejected. The cases are
    /// ordered by how often each keyword occurs in source code.
    pub fn from_str(s: &String) -> (r: Result<Keyword, ()>)
        ensures
            r matches Ok(k) ==> s@ == k.spec_str(),
            r is Err ==> forall|k: Keyword| s@ != k.spec_str(),
    {
        if string_eq_str(s, "let") {
            Ok(Keyword::Let)
        } else if string_eq_str(s, "operation") {
            Ok(Keyword::Operation)
        } else if string_eq_str(s, "is") {
            Ok(Keyword::Is)
        } else if string_eq_str(s, "in") {
            Ok(Keyword::In)
        } else if string_eq_str(s, "and") {
            Ok(Keyword::And)
        } else if string_eq_str(s, "for") {
            Ok(Keyword::For)
        } else if string_eq_str(s, "function") {
            Ok(Keyword::Function)
        } else if string_eq_str(s, "open") {
            Ok(Keyword::Open)
        } else if string_eq_str(s, "if") {
            Ok(Keyword::If)
        } else if string_eq_str(s, "return") {
            Ok(Keyword::Return)
        } else if string_eq_str(s, "Adj") {
            Ok(Keyword::Adj)
        } else if string_eq_str(s, "Controlled") {
            Ok(Keyword::ControlledUpper)
        } else if string_eq_str(s, "controlled") {
            Ok(Keyword::Controlled)
        } else if string_eq_str(s, "Ctl") {
            Ok(Keyword::Ctl)
        } else if string_eq_str(s, "set") {
            Ok(Keyword::SetKw)
        } else if string_eq_str(s, "use") {
            Ok(Keyword::Use)
        } else if string_eq_str(s, "as") {
            Ok(Keyword::As)
        } else if string_eq_str(s, "not") {
            Ok(Keyword::Not)
        } else if string_eq_str(s, "true") {
            Ok(Keyword::True)
        } else if string_eq_str(s, "Zero") {
            Ok(Keyword::Zero)
        } else if string_eq_str(s, "One") {
            Ok(Keyword::One)
        } else if string_eq_str(s, "namespace") {
            Ok(Keyword::Namespace)
        } else if string_eq_str(s, "mutable") {
            Ok(Keyword::Mutable)
        } else if string_eq_str(s, "internal") {
            Ok(Keyword::Internal)
        } else if string_eq_str(s, "PauliZ") {
            Ok(Keyword::PauliZ)
        } else if string_eq_str(s, "false") {
            Ok(Keyword::False)
        } else if string_eq_str(s, "PauliX") {
            Ok(Keyword::PauliX)
        } else if string_eq_str(s, "PauliI") {
            Ok(Keyword::PauliI)
        } else if string_eq_str(s, "Adjoint") {
            Ok(Keyword::AdjointUpper)
        } else if string_eq_str(s, "adjoint") {
            Ok(Keyword::Adjoint)
        } else if string_eq_str(s, "apply") {
            Ok(Keyword::Apply)
        } else if string_eq_str(s, "intrinsic") {
            Ok(Keyword::Intrinsic)
        } else if string_eq_str(s, "or") {
            Ok(Keyword::Or)
        } else if string_eq_str(s, "elif") {
            Ok(Keyword::Elif)
        } else if string_eq_str(s, "fail") {
            Ok(Keyword::Fail)
        } else if string_eq_str(s, "else") {
            Ok(Keyword::Else)
        } else if string_eq_str(s, "within") {
            Ok(Keyword::Within)
        } else if string_eq_str(s, "body") {
            Ok(Keyword::Body)
        } else if string_eq_str(s, "newtype") {
            Ok(Keyword::Newtype)
        } else if string_eq_str(s, "invert") {
            Ok(Keyword::Invert)
        } else if string_eq_str(s, "distribute") {
            Ok(Keyword::Distribute)
        } else if string_eq_str(s, "auto") {
            Ok(Keyword::Auto)
        } else if string_eq_str(s, "self") {
            Ok(Keyword::Slf)
        } else if string_eq_str(s, "while") {
            Ok(Keyword::While)
        } else if string_eq_str(s, "until") {
            Ok(Keyword::Until)
        } else if string_eq_str(s, "repeat") {
            Ok(Keyword::Repeat)
        } else if string_eq_str(s, "fixup") {
            Ok(Keyword::Fixup)
        } else if string_eq_str(s, "PauliY") {
            Ok(Keyword::PauliY)
        } else if string_eq_str(s, "borrow") {
            Ok(Keyword::Borrow)
        } else if string_eq_str(s, "export") {
            Ok(Keyword::Export)
        } else if string_eq_str(s, "_") {
            Ok(Keyword::Underscore)
        } else {
            proof {
                assert(forall|k: Keyword| s@ != k.spec_str());
            }
            Err(())
        }
    }
}

} // verus!
