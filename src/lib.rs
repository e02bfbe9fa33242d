//! Parsing and serialization of tsml, a small notation that describes a
//! hierarchy of files, directories and symlinks, annotated with tags and
//! partitioned into named groups.
use vstd::prelude::*;

pub mod tree;
pub mod lexer;
pub mod parser;
pub mod serializer;
pub mod laws;

verus! {

} // verus!
