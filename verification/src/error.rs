//! Errors of the compiler and the runtime, with their messages.
use vstd::prelude::*;
use vstd::string::StringExecFns;
use crate::big_num::uint::{BigUint, dec_digits};
use crate::lexer::Loc;
use crate::text::ascii_chars;

verus! {

/// The decimal text of a number.
pub open spec fn num_text(v: nat) -> Seq<char> {
    ascii_chars(dec_digits(v))
}

/// The decimal text of a `u32`.
pub fn u32_text(v: u32) -> (r: String)
    ensures
        r@ == num_text(v as nat),
{
    BigUint::from_u64(v as u64).to_string()
}

/// An error with a message, a line and maybe a column.
pub trait Error {
    /// The message.
    spec fn spec_msg(&self) -> Seq<char>;

    /// The line.
    spec fn spec_line(&self) -> u32;

    /// The column, when the error has one.
    spec fn spec_col(&self) -> Option<u32>;

    /// The kind of error, as printed.
    spec fn spec_err_type(&self) -> Seq<char>;

    fn msg(&self) -> (r: &String)
        ensures
            r@ == self.spec_msg();

    fn line(&self) -> (r: u32)
        ensures
            r == self.spec_line();

    fn col(&self) -> (r: Option<u32>)
        ensures
            r == self.spec_col();

    fn err_type(&self) -> (r: &'static str)
        ensures
            r@ == self.spec_err_type();

    /// `":<col>: "`, or `": "` without a column.
    fn col_to_string(&self) -> (r: String)
        ensures
            r@ == match self.spec_col() {
                Some(c) => seq![':'] + num_text(c as nat) + seq![':', ' '],
                None => seq![':', ' '],
            },
    {
        proof {
            reveal_strlit(":");
            reveal_strlit(": ");
        }
        match self.col() {
            Some(c) => {
                let s = String::from_str(":");
                let s = s.concat(u32_text(c).as_str());
                s.concat(": ")
            },
            None => String::from_str(": "),
        }
    }

    /// `"<kind> at line:<line><col part><message>"`.
    fn all_info(&self) -> (r: String)
        ensures
            r@ == self.spec_err_type() + " at line:"@ + num_text(self.spec_line() as nat) + match self.spec_col() {
                Some(c) => seq![':'] + num_text(c as nat) + seq![':', ' '],
                None => seq![':', ' '],
            } + self.spec_msg(),
    {
        let s = String::from_str(self.err_type());
        let s = s.concat(" at line:");
        let s = s.concat(u32_text(self.line()).as_str());
        let s = s.concat(self.col_to_string().as_str());
        s.concat(self.msg().as_str())
    }

    /// `"<kind>: <message>"`.
    fn no_loc_info(&self) -> (r: String)
        ensures
            r@ == self.spec_err_type() + ": "@ + self.spec_msg(),
    {
        let s = String::from_str(self.err_type());
        let s = s.concat(": ");
        s.concat(self.msg().as_str())
    }
}

/// An error found while compiling, at a place in the source.
#[derive(Debug, Clone)]
pub struct CompilerError {
    pub line: u32,
    pub col: u32,
    pub byte_idx: usize,
    pub msg: String,
}

/// An error found while running, at a line.
#[derive(Debug, Clone)]
pub struct RuntimeError {
    pub line: usize,
    pub msg: String,
}

/// Either kind of error.
#[derive(Debug, Clone)]
pub enum GlobalError {
    RE(RuntimeError),
    CE(CompilerError),
}

impl Error for CompilerError {
    open spec fn spec_msg(&self) -> Seq<char> {
        self.msg@
    }

    open spec fn spec_line(&self) -> u32 {
        self.line
    }

    open spec fn spec_col(&self) -> Option<u32> {
        Some(self.col)
    }

    open spec fn spec_err_type(&self) -> Seq<char> {
        "Compiler Error"@
    }

    fn msg(&self) -> (r: &String) {
        &self.msg
    }

    fn line(&self) -> (r: u32) {
        self.line
    }

    fn col(&self) -> (r: Option<u32>) {
        Some(self.col)
    }

    fn err_type(&self) -> (r: &'static str) {
        "Compiler Error"
    }
}

impl Error for RuntimeError {
    open spec fn spec_msg(&self) -> Seq<char> {
        self.msg@
    }

    open spec fn spec_line(&self) -> u32 {
        self.line as u32
    }

    open spec fn spec_col(&self) -> Option<u32> {
        None
    }

    open spec fn spec_err_type(&self) -> Seq<char> {
        "Runtime Error"@
    }

    fn msg(&self) -> (r: &String) {
        &self.msg
    }

    fn line(&self) -> (r: u32) {
        self.line as u32
    }

    fn col(&self) -> (r: Option<u32>) {
        None
    }

    fn err_type(&self) -> (r: &'static str) {
        "Runtime Error"
    }
}

impl GlobalError {
    /// The error's text with its location.
    pub fn all_info(&self) -> (r: String)
        ensures
            r@ == match self {
                GlobalError::CE(e) => e.spec_err_type() + " at line:"@ + num_text(e.spec_line() as nat)
                    + seq![':'] + num_text(e.col as nat) + seq![':', ' '] + e.spec_msg(),
                GlobalError::RE(e) => e.spec_err_type() + " at line:"@ + num_text(e.spec_line() as nat)
                    + seq![':', ' '] + e.spec_msg(),
            },
    {
        match self {
            GlobalError::CE(e) => e.all_info(),
            GlobalError::RE(e) => e.all_info(),
        }
    }

    /// The error's text without its location.
    pub fn no_loc_info(&self) -> (r: String)
        ensures
            r@ == match self {
                GlobalError::CE(e) => e.spec_err_type() + ": "@ + e.spec_msg(),
                GlobalError::RE(e) => e.spec_err_type() + ": "@ + e.spec_msg(),
            },
    {
        match self {
            GlobalError::CE(e) => e.no_loc_info(),
            GlobalError::RE(e) => e.no_loc_info(),
        }
    }
}

impl CompilerError {
    /// An error at a place with a message.
    pub fn new(loc: &Loc, msg: String) -> (r: Self)
        ensures
            r.line == loc.line,
            r.col == loc.col,
            r.byte_idx == loc.byte_idx,
            r.msg@ == msg@,
    {
        CompilerError { line: loc.line, col: loc.col, byte_idx: loc.byte_idx, msg }
    }

    /// An error at a place with an empty message.
    pub fn new_with_loc(loc: &Loc) -> (r: Self)
        ensures
            r.line == loc.line,
            r.col == loc.col,
            r.byte_idx == loc.byte_idx,
            r.msg@ == Seq::<char>::empty(),
    {
        CompilerError { line: loc.line, col: loc.col, byte_idx: loc.byte_idx, msg: String::new() }
    }

    /// An error at a place with a fixed message.
    pub fn new_with_literal(loc: &Loc, msg: &'static str) -> (r: Self)
        ensures
            r.line == loc.line,
            r.col == loc.col,
            r.byte_idx == loc.byte_idx,
            r.msg@ == msg@,
    {
        CompilerError { line: loc.line, col: loc.col, byte_idx: loc.byte_idx, msg: String::from_str(msg) }
    }
}

} // verus!
