//! Kinds of PostScript color resources.
use vstd::prelude::*;

verus! {

/// PostScript resource type: color space array or color rendering dictionary.
#[derive(Debug, Clone, Copy, PartialEq, Eq)]
pub enum PostScriptResourceType {
    Csa,
    Crd,
}

} // verus!
