use vstd::prelude::*;

use crate::attr_scanner::Attributes;

verus! {

/// An element of type `T` together with the attribute list it was read with, so
/// that the attributes it does not map can be written back unchanged.
#[derive(Clone, Debug)]
#[non_exhaustive]
pub struct WithMetadata<T> {
    pub attributes: Attributes,
    pub element: T,
}

impl<T> WithMetadata<T> {
    pub(crate) fn new(attributes: Attributes, element: T) -> (r: Self)
        ensures
            r.attributes == attributes,
            r.element == element,
    {
        Self { attributes, element }
    }
}

/// A piece of content: an element the caller maps, or bytes kept as they were read.
#[derive(Clone, Debug)]
pub enum Node<T> {
    Typed(WithMetadata<T>),
    Raw(Vec<u8>),
}

} // verus!
