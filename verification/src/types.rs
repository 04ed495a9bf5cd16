//! What names a cached page.
use crate::text;
use vstd::prelude::*;

verus! {

/// A tenant prefix within the bucket.
#[derive(Debug, Clone, PartialEq, Eq, Hash)]
pub struct Namespace(pub String);

/// A file, by its path and the hash of its content.
#[derive(Debug, Clone, PartialEq, Eq, Hash)]
pub struct PathAndVersion {
    pub path: String,
    pub file_hash: String,
}

/// A page of one version of a file.
#[derive(Debug, Clone, PartialEq, Eq, Hash)]
pub struct CacheKey {
    pub ns: Namespace,
    pub item: PathAndVersion,
    pub page_id: u32,
}

/// What a [`CacheKey`] says.
pub struct CacheKeyView {
    pub ns: Seq<char>,
    pub path: Seq<char>,
    pub file_hash: Seq<char>,
    pub page_id: u32,
}

impl View for CacheKey {
    type V = CacheKeyView;

    open spec fn view(&self) -> CacheKeyView {
        CacheKeyView {
            ns: self.ns.0@,
            path: self.item.path@,
            file_hash: self.item.file_hash@,
            page_id: self.page_id,
        }
    }
}

impl CacheKey {
    pub fn new(ns: &str, path: &str, file_hash: &str, page_id: u32) -> (r: CacheKey)
        ensures
            r@ == (CacheKeyView { ns: ns@, path: path@, file_hash: file_hash@, page_id }),
    {
        CacheKey {
            ns: Namespace(ns.to_string()),
            item: PathAndVersion { path: path.to_string(), file_hash: file_hash.to_string() },
            page_id,
        }
    }

    /// Whether two keys name the same page.
    pub fn same(&self, other: &CacheKey) -> (r: bool)
        ensures
            r == (self@ == other@),
    {
        self.page_id == other.page_id && text::same(self.ns.0.as_str(), other.ns.0.as_str())
            && text::same(self.item.path.as_str(), other.item.path.as_str()) && text::same(
            self.item.file_hash.as_str(),
            other.item.file_hash.as_str(),
        )
    }
}

} // verus!
