//! Core data types shared between the daemon and its clients.

use vstd::prelude::*;

verus! {

/// The kind of clipboard content, derived from the MIME type.
#[derive(Debug, Clone, Copy, PartialEq, Eq, Structural)]
pub enum ContentType {
    Text,
    Image,
}

/// True exactly when the MIME string begins with `image/`.
pub open spec fn is_image_mime(m: Seq<char>) -> bool {
    m.len() >= 6 && m[0] == 'i' && m[1] == 'm' && m[2] == 'a' && m[3] == 'g' && m[4] == 'e'
        && m[5] == '/'
}

/// The content type a MIME string maps to: `Image` for `image/*`, else `Text`.
pub open spec fn spec_content_type(m: Seq<char>) -> ContentType {
    if is_image_mime(m) {
        ContentType::Image
    } else {
        ContentType::Text
    }
}

impl ContentType {
    /// Determine the content type from a MIME type string.
    pub fn from_mime(mime: &str) -> (t: ContentType)
        ensures
            t == spec_content_type(mime@),
    {
        let n = mime.unicode_len();
        if n >= 6 && mime.get_char(0) == 'i' && mime.get_char(1) == 'm' && mime.get_char(2) == 'a'
            && mime.get_char(3) == 'g' && mime.get_char(4) == 'e' && mime.get_char(5) == '/' {
            ContentType::Image
        } else {
            ContentType::Text
        }
    }

    /// Whether this is the image content type.
    pub fn is_image(&self) -> (b: bool)
        ensures
            b == (*self == ContentType::Image),
    {
        matches!(self, ContentType::Image)
    }

    /// Whether this is the text content type.
    pub fn is_text(&self) -> (b: bool)
        ensures
            b == (*self == ContentType::Text),
    {
        matches!(self, ContentType::Text)
    }
}

/// A clipboard history entry: the metadata a client sees, without the raw bytes.
#[derive(Debug, Clone, PartialEq, Eq)]
pub struct HistoryEntry {
    /// Unique identifier of this entry.
    pub id: i64,
    /// Kind of content (text or image).
    pub content_type: ContentType,
    /// MIME type of the content as the compositor offered it.
    pub mime_type: String,
    /// Short human-readable preview derived at capture.
    pub preview: String,
    /// Size of the stored content in bytes.
    pub byte_size: u64,
    /// Unix seconds of the first capture.
    pub created_at: i64,
    /// Whether this entry is exempt from eviction.
    pub pinned: bool,
    /// Optional thumbnail for images, reserved for clients.
    pub thumbnail: Option<String>,
}

/// The mathematical view of a history entry: its strings as character
/// sequences.
pub struct EntryV {
    pub id: i64,
    pub content_type: ContentType,
    pub mime_type: Seq<char>,
    pub preview: Seq<char>,
    pub byte_size: u64,
    pub created_at: i64,
    pub pinned: bool,
    pub thumbnail: Option<Seq<char>>,
}

impl View for HistoryEntry {
    type V = EntryV;

    open spec fn view(&self) -> EntryV {
        EntryV {
            id: self.id,
            content_type: self.content_type,
            mime_type: self.mime_type@,
            preview: self.preview@,
            byte_size: self.byte_size,
            created_at: self.created_at,
            pinned: self.pinned,
            thumbnail: match self.thumbnail {
                Some(t) => Some(t@),
                None => None,
            },
        }
    }
}

impl DeepView for HistoryEntry {
    type V = EntryV;

    open spec fn deep_view(&self) -> EntryV {
        self.view()
    }
}

impl HistoryEntry {
    /// A description for screen readers: the preview prefixed by the content kind.
    pub fn accessible_description(&self) -> (d: String)
        ensures
            self.content_type == ContentType::Text ==> d@ == "Text: "@ + self.preview@,
            self.content_type == ContentType::Image ==> d@ == "Image: "@ + self.preview@,
    {
        let mut d = match self.content_type {
            ContentType::Text => String::from_str("Text: "),
            ContentType::Image => String::from_str("Image: "),
        };
        d.append(self.preview.as_str());
        d
    }
}

/// True when some offered MIME string equals `m`.
pub open spec fn offers(o: Seq<Seq<char>>, m: Seq<char>) -> bool {
    exists|i: int| 0 <= i < o.len() && o[i] == m
}

/// The preferred MIME type among the offered ones: the first hit in the image
/// priority list, then the first hit in the text priority list, then the first
/// offered type, and `None` when nothing was offered.
pub open spec fn spec_best_mime(o: Seq<Seq<char>>) -> Option<Seq<char>> {
    if offers(o, "image/png"@) {
        Some("image/png"@)
    } else if offers(o, "image/jpeg"@) {
        Some("image/jpeg"@)
    } else if offers(o, "image/webp"@) {
        Some("image/webp"@)
    } else if offers(o, "image/gif"@) {
        Some("image/gif"@)
    } else if offers(o, "image/bmp"@) {
        Some("image/bmp"@)
    } else if offers(o, "image/tiff"@) {
        Some("image/tiff"@)
    } else if offers(o, "text/plain;charset=utf-8"@) {
        Some("text/plain;charset=utf-8"@)
    } else if offers(o, "text/plain"@) {
        Some("text/plain"@)
    } else if offers(o, "UTF8_STRING"@) {
        Some("UTF8_STRING"@)
    } else if offers(o, "STRING"@) {
        Some("STRING"@)
    } else if offers(o, "TEXT"@) {
        Some("TEXT"@)
    } else if o.len() > 0 {
        Some(o[0])
    } else {
        None
    }
}

/// Whether the offered list contains the MIME string `m`.
fn has_mime(offered: &Vec<String>, m: &str) -> (b: bool)
    ensures
        b == offers(offered.deep_view(), m@),
{
    let ms = String::from_str(m);
    let mut i: usize = 0;
    while i < offered.len()
        invariant
            0 <= i <= offered.len(),
            ms@ == m@,
            forall|j: int| 0 <= j < i ==> offered.deep_view()[j] != m@,
        decreases offered.len() - i,
    {
        if offered[i] == ms {
            assert(offered.deep_view()[i as int] == m@);
            return true;
        }
        i += 1;
    }
    false
}

/// Select the preferred MIME type from the list the compositor offered.
pub fn select_best_mime_type(offered: &Vec<String>) -> (r: Option<String>)
    ensures
        match r {
            Some(s) => spec_best_mime(offered.deep_view()) == Some(s@),
            None => spec_best_mime(offered.deep_view()) is None,
        },
{
    if has_mime(offered, "image/png") {
        Some(String::from_str("image/png"))
    } else if has_mime(offered, "image/jpeg") {
        Some(String::from_str("image/jpeg"))
    } else if has_mime(offered, "image/webp") {
        Some(String::from_str("image/webp"))
    } else if has_mime(offered, "image/gif") {
        Some(String::from_str("image/gif"))
    } else if has_mime(offered, "image/bmp") {
        Some(String::from_str("image/bmp"))
    } else if has_mime(offered, "image/tiff") {
        Some(String::from_str("image/tiff"))
    } else if has_mime(offered, "text/plain;charset=utf-8") {
        Some(String::from_str("text/plain;charset=utf-8"))
    } else if has_mime(offered, "text/plain") {
        Some(String::from_str("text/plain"))
    } else if has_mime(offered, "UTF8_STRING") {
        Some(String::from_str("UTF8_STRING"))
    } else if has_mime(offered, "STRING") {
        Some(String::from_str("STRING"))
    } else if has_mime(offered, "TEXT") {
        Some(String::from_str("TEXT"))
    } else if offered.len() > 0 {
        Some(offered[0].clone())
    } else {
        None
    }
}

} // verus!
