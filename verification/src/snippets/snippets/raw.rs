//! Snippets as read from snippet files, before they are linked into a library.
use vstd::prelude::*;
use vstd::string::StringSliceAdditionalSpecFns;
use vstd::utf8::encode_utf8;
use crate::util::sorting::ByteKey;

verus! {

/// A snippet file's contents: its metadata and its parts.
#[derive(Debug)]
pub struct Snippet {
    pub identifier: Option<String>,
    pub links: Vec<String>,
    pub description: String,
    pub parts: Vec<Part>,
    pub tags: Vec<Tag>,
    pub keywords: Vec<String>,
    pub path: String,
}

/// A tag: a name within a category.
#[derive(Debug, Clone)]
pub struct Tag {
    pub category: String,
    pub name: String,
}

/// One part of a snippet: its attributes and its source lines.
#[derive(Debug)]
pub struct Part {
    pub attributes: Vec<(String, String)>,
    pub source: Vec<String>,
    pub url: Option<String>,
    pub caption: Option<String>,
}

/// The metadata block at the top of a snippet file.
#[derive(Debug)]
pub struct Metadata {
    pub description: String,
    pub identifier: Option<String>,
    pub links: Option<Vec<String>>,
    pub tags: Option<Vec<(String, Vec<String>)>>,
    pub keywords: Option<Vec<String>>,
}

/// Snippet files are ordered by the bytes of their descriptions.
impl ByteKey for Snippet {
    open spec fn byte_key(&self) -> Seq<u8> {
        encode_utf8(self.description@)
    }

    fn key_bytes(&self) -> (r: &[u8]) {
        self.description.as_str().as_bytes()
    }
}

} // verus!
