//! What the library is for, law by law. The laws speak of texts, lists and numbers as they are, and
//! of the results that the functions of the library are proved to give.

pub mod anchors;
pub mod code;
pub mod destinations;
pub mod events;
pub mod pages;
pub mod strings;
