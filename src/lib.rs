//! Wire-format layer of the Internet Printing Protocol: an attribute document
//! model that serialises itself to the tag-delimited binary layout, and a
//! decoder that rebuilds the model from that layout.
pub mod attribute;
pub mod parser;
pub mod tag;
pub mod value;
