//! The kinds of operations.

use crate::proto::pb::{Create, Mkdir, Rename, Rmdir, Stat, Unlink};
use vstd::prelude::*;

verus! {

#[derive(Debug, PartialEq, Eq)]
pub enum Op {
    Create(Create),
    Mkdir(Mkdir),
    Unlink(Unlink),
    Rmdir(Rmdir),
    Rename(Rename),
    Stat(Stat),
}

} // verus!
