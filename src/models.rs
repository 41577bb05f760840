use vstd::prelude::*;

verus! {

/// The mathematical value of one row of `cache_entries`.
pub struct EntryView {
    pub key: Seq<char>,
    pub value: Seq<char>,
    pub expires_at: Option<u64>,
}

/// The mathematical value of one row of `cache_tags`.
pub struct TagView {
    pub tag: Seq<char>,
    pub cache_key: Seq<char>,
}

/// One stored entry: a key, its serialized payload, and an optional absolute
/// expiry time in milliseconds since the epoch (`None` never expires).
pub struct CacheEntry {
    pub key: String,
    pub value: String,
    pub expires_at: Option<u64>,
}

impl View for CacheEntry {
    type V = EntryView;

    open spec fn view(&self) -> EntryView {
        EntryView { key: self.key@, value: self.value@, expires_at: self.expires_at }
    }
}

impl CacheEntry {
    /// A field-by-field copy.
    pub fn duplicate(&self) -> (r: CacheEntry)
        ensures
            r@ == self@,
    {
        CacheEntry { key: self.key.clone(), value: self.value.clone(), expires_at: self.expires_at }
    }
}

/// One association row between a tag and the key of an entry.
pub struct CacheTag {
    pub tag: String,
    pub cache_key: String,
}

impl View for CacheTag {
    type V = TagView;

    open spec fn view(&self) -> TagView {
        TagView { tag: self.tag@, cache_key: self.cache_key@ }
    }
}

impl CacheTag {
    /// A field-by-field copy.
    pub fn duplicate(&self) -> (r: CacheTag)
        ensures
            r@ == self@,
    {
        CacheTag { tag: self.tag.clone(), cache_key: self.cache_key.clone() }
    }
}

/// A request to store `value` under `key`, with the given tags and an optional
/// time-to-live in milliseconds counted from the moment of the call.
pub struct CacheRequest {
    pub key: String,
    pub value: serde_json::Value,
    pub tags: Vec<String>,
    pub ttl: Option<u64>,
}

/// The envelope sent back to a client.
pub struct CacheResponse {
    pub success: bool,
    pub data: Option<serde_json::Value>,
    pub message: Option<String>,
}

impl CacheResponse {
    /// The envelope of a successful request, carrying `data`.
    pub fn success(data: Option<serde_json::Value>) -> (r: CacheResponse)
        ensures
            r.success,
            r.data == data,
            r.message is None,
    {
        CacheResponse { success: true, data, message: None }
    }

    /// The envelope of a failed request, carrying `message`.
    pub fn failure(message: String) -> (r: CacheResponse)
        ensures
            !r.success,
            r.data is None,
            r.message == Some(message),
    {
        CacheResponse { success: false, data: None, message: Some(message) }
    }
}

/// What can go wrong in the cache layer itself.
#[derive(PartialEq, Eq, Structural, Debug, Clone, Copy)]
pub enum CacheError {
    /// The value could not be serialized.
    Encode,
    /// A stored payload is not valid serialized data.
    Decode,
}

} // verus!
