//! What is written.

use crate::proto::pb::{Inode, Missing};
use vstd::prelude::*;

verus! {

#[derive(Clone, Copy, Debug, PartialEq, Eq, Structural)]
pub enum Value {
    Inode(Inode),
    Delete(Missing),
}

} // verus!
