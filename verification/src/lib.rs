//! Clipboard tagging library: builds the multimodal tagging request for a
//! copied text, parses the model reply as a JSON array of tags, and merges
//! the result into a persistent history map serialized as JSON.

pub mod codec;
pub mod frames;
pub mod history;
pub mod pipeline;
pub mod prompt;
pub mod strutil;

use vstd::prelude::*;

verus! {

} // verus!
