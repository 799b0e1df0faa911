//! Capture records of the CDX index.
use vstd::prelude::*;

use crate::digest;
use crate::digest::Digest;
use crate::timestamp::Timestamp;

verus! {

/// One capture record.
#[derive(Debug, PartialEq, Eq)]
pub struct Item {
    /// The SURT key of the URL.
    pub key: String,
    /// When the capture was made.
    pub timestamp: Timestamp,
    /// The URL that was captured.
    pub original: String,
    /// The MIME type of the capture.
    pub mime_type: String,
    /// The digest of the capture.
    pub digest: Digest<'static>,
}

/// What a capture record says.
#[verifier::ext_equal]
pub struct ItemView {
    /// The SURT key.
    pub key: Seq<char>,
    /// The timestamp.
    pub timestamp: int,
    /// The URL.
    pub original: Seq<char>,
    /// The MIME type.
    pub mime_type: Seq<char>,
    /// The digest, as it is written.
    pub digest: Seq<char>,
}

impl View for Item {
    type V = ItemView;

    open spec fn view(&self) -> ItemView {
        ItemView {
            key: self.key@,
            timestamp: self.timestamp@,
            original: self.original@,
            mime_type: self.mime_type@,
            digest: self.digest.text(),
        }
    }
}

/// What capture records say.
pub open spec fn item_views(items: Seq<Item>) -> Seq<ItemView> {
    items.map_values(|item: Item| item@)
}

/// An index entry is seen by its fields, its digest as the text that it was given as.
pub proof fn law_entries_are_seen_whole(items: Seq<Item>, i: int)
    requires
        0 <= i < items.len(),
    ensures
        ({
            let item = items[i];
            let view = item_views(items)[i];
            &&& item_views(items).len() == items.len()
            &&& view.key == item.key@
            &&& view.timestamp == item.timestamp@
            &&& view.original == item.original@
            &&& view.mime_type == item.mime_type@
            &&& view.digest == match item.digest {
                Digest::Valid(digest) => digest::digest_text(digest@),
                Digest::Invalid(text) => text@,
            }
        }),
{
}

} // verus!
