//! Clipboard history entries: the content variants, the entry record
//! with its display preview, and the fingerprint that image previews
//! carry so that duplicate detection survives persistence.

use vstd::prelude::*;

use crate::text::{
    chars_of, char_index_of, fmt_u64, find_char, is_digit_char, lemma_char_index_of,
    parse_u64_chars, parse_u64_str, subvec, u64_digits,
};

verus! {

/// The greatest number of characters a text preview shows before it is
/// truncated with an ellipsis.
pub const PREVIEW_TEXT_MAX_LEN: usize = 100;

/// Mathematical image of a `ClipboardContent` value.
#[verifier::ext_equal]
pub enum ContentView {
    Text(Seq<char>),
    Image { base64: Seq<char>, width: u32, height: u32 },
}

/// Mathematical image of a `ClipboardItem` value.
#[verifier::ext_equal]
pub struct ItemView {
    pub id: Seq<char>,
    pub content: ContentView,
    pub timestamp: Seq<char>,
    pub pinned: bool,
    pub preview: Seq<char>,
}

/// Content held by one history entry: plain text, or an image stored as
/// a base64-encoded PNG with its pixel dimensions.
#[derive(Debug, PartialEq)]
pub enum ClipboardContent {
    Text(String),
    Image { base64: String, width: u32, height: u32 },
}

/// One clipboard history entry.
#[derive(Debug, PartialEq)]
pub struct ClipboardItem {
    /// Unique identifier.
    pub id: String,
    /// The content.
    pub content: ClipboardContent,
    /// When it was copied, as an RFC 3339 timestamp.
    pub timestamp: String,
    /// Whether this entry is pinned.
    pub pinned: bool,
    /// Preview text for display.
    pub preview: String,
}

impl View for ClipboardContent {
    type V = ContentView;

    open spec fn view(&self) -> ContentView {
        match self {
            ClipboardContent::Text(s) => ContentView::Text(s@),
            ClipboardContent::Image { base64, width, height } => ContentView::Image {
                base64: base64@,
                width: *width,
                height: *height,
            },
        }
    }
}

impl View for ClipboardItem {
    type V = ItemView;

    open spec fn view(&self) -> ItemView {
        ItemView {
            id: self.id@,
            content: self.content@,
            timestamp: self.timestamp@,
            pinned: self.pinned,
            preview: self.preview@,
        }
    }
}

impl Clone for ClipboardContent {
    fn clone(&self) -> (r: Self)
        ensures
            r@ == self@,
    {
        match self {
            ClipboardContent::Text(s) => ClipboardContent::Text(s.clone()),
            ClipboardContent::Image { base64, width, height } => ClipboardContent::Image {
                base64: base64.clone(),
                width: *width,
                height: *height,
            },
        }
    }
}

impl Clone for ClipboardItem {
    fn clone(&self) -> (r: Self)
        ensures
            r@ == self@,
    {
        ClipboardItem {
            id: self.id.clone(),
            content: self.content.clone(),
            timestamp: self.timestamp.clone(),
            pinned: self.pinned,
            preview: self.preview.clone(),
        }
    }
}

/// The preview shown for a text entry: the text itself, or its first
/// `PREVIEW_TEXT_MAX_LEN` characters followed by an ellipsis.
pub open spec fn text_preview(t: Seq<char>) -> Seq<char> {
    if t.len() > 100 {
        t.take(100) + "..."@
    } else {
        t
    }
}

/// The preview shown for an image entry: its dimensions and its content
/// fingerprint, which later runs read back by splitting on `#`.
pub open spec fn image_preview(width: u32, height: u32, hash: u64) -> Seq<char> {
    "Image ("@ + u64_digits(width as u64) + "x"@ + u64_digits(height as u64) + ") #"@ + u64_digits(
        hash,
    )
}

/// The text between the first `#` of `p` and the next `#` or the end:
/// the field that `split('#')` yields second.
pub open spec fn hash_segment(p: Seq<char>) -> Option<Seq<char>> {
    match char_index_of(p, '#') {
        Some(i) => {
            let rest = p.skip(i + 1);
            match char_index_of(rest, '#') {
                Some(j) => Some(rest.take(j)),
                None => Some(rest),
            }
        },
        None => None,
    }
}

/// The fingerprint an entry's preview carries: present only for image
/// content whose preview holds a readable number after its first `#`.
pub open spec fn image_hash_of(it: ItemView) -> Option<u64> {
    if it.content is Image {
        match hash_segment(it.preview) {
            Some(seg) => parse_u64_str(seg),
            None => None,
        }
    } else {
        None
    }
}

/// The preview an image entry is built with reads back as exactly the
/// fingerprint it was built with: splitting on `#` and parsing the
/// second field recovers the hash.
pub proof fn lemma_preview_carries_fingerprint(e: ItemView, width: u32, height: u32, hash: u64)
    requires
        e.content is Image,
        e.preview == image_preview(width, height, hash),
    ensures
        image_hash_of(e) == Some(hash),
{
    reveal_strlit("Image (");
    reveal_strlit("x");
    reveal_strlit(") #");
    let a = "Image ("@;
    let b = "x"@;
    let c = ") #"@;
    let dw = u64_digits(width as u64);
    let dh = u64_digits(height as u64);
    let dhash = u64_digits(hash);
    let p = e.preview;
    crate::text::lemma_u64_digits(width as u64);
    crate::text::lemma_u64_digits(height as u64);
    crate::text::lemma_u64_digits(hash);
    let i0 = 8 + dw.len() + dh.len() + 2;
    assert(p.len() == i0 + 1 + dhash.len());
    assert(p[i0 as int] == c[2]);
    assert(c[2] == '#');
    assert forall|j: int| 0 <= j < i0 implies p[j] != '#' by {
        if j < 7 {
            assert(p[j] == a[j]);
            if j == 0 {
                assert(a[0] == 'I');
            } else if j == 1 {
                assert(a[1] == 'm');
            } else if j == 2 {
                assert(a[2] == 'a');
            } else if j == 3 {
                assert(a[3] == 'g');
            } else if j == 4 {
                assert(a[4] == 'e');
            } else if j == 5 {
                assert(a[5] == ' ');
            } else {
                assert(a[6] == '(');
            }
        } else if j < 7 + dw.len() {
            assert(p[j] == dw[j - 7]);
            assert(is_digit_char(dw[j - 7]));
        } else if j == 7 + dw.len() {
            assert(p[j] == b[0]);
            assert(b[0] == 'x');
        } else if j < 8 + dw.len() + dh.len() {
            assert(p[j] == dh[j - 8 - dw.len()]);
            assert(is_digit_char(dh[j - 8 - dw.len()]));
        } else if j == i0 - 2 {
            assert(p[j] == c[0]);
            assert(c[0] == ')');
        } else {
            assert(p[j] == c[1]);
            assert(c[1] == ' ');
        }
    }
    lemma_char_index_of(p, '#');
    match char_index_of(p, '#') {
        Some(k) => {
            if k < i0 {
                assert(p[k] != '#');
            }
            if k > i0 {
                assert(p[i0 as int] != '#');
            }
            assert(k == i0);
        },
        None => {
            assert(p[i0 as int] != '#');
        },
    }
    let rest = p.skip(i0 as int + 1);
    assert(rest =~= dhash);
    lemma_char_index_of(rest, '#');
    match char_index_of(rest, '#') {
        Some(k) => {
            assert(rest[k] == '#');
            assert(is_digit_char(dhash[k]));
        },
        None => {},
    }
    assert(hash_segment(p) == Some(dhash));
    assert(dhash[0] != '+') by {
        assert(is_digit_char(dhash[0]));
    }
    assert(crate::text::strip_plus(dhash) == dhash);
    assert(parse_u64_str(dhash) == Some(hash));
}

impl ClipboardItem {
    /// Build a text entry: fresh id, current timestamp, not pinned, with
    /// the truncated preview.
    pub fn new_text(text: String) -> (r: Self)
        ensures
            r@.content == ContentView::Text(text@),
            r@.pinned == false,
            r@.preview == text_preview(text@),
    {
        let n = text.as_str().unicode_len();
        let preview = if n > PREVIEW_TEXT_MAX_LEN {
            let head = text.as_str().substring_char(0, PREVIEW_TEXT_MAX_LEN);
            String::from_str(head).concat("...")
        } else {
            text.clone()
        };
        Self::create(ClipboardContent::Text(text), preview)
    }

    /// Build an image entry; the preview records the dimensions and the
    /// content fingerprint so duplicate checks can read it back.
    pub fn new_image(base64: String, width: u32, height: u32, hash: u64) -> (r: Self)
        ensures
            r@.content == (ContentView::Image { base64: base64@, width, height }),
            r@.pinned == false,
            r@.preview == image_preview(width, height, hash),
    {
        let mut preview = String::from_str("Image (");
        preview.append(fmt_u64(width as u64).as_str());
        preview.append("x");
        preview.append(fmt_u64(height as u64).as_str());
        preview.append(") #");
        preview.append(fmt_u64(hash).as_str());
        Self::create(ClipboardContent::Image { base64, width, height }, preview)
    }

    fn create(content: ClipboardContent, preview: String) -> (r: Self)
        ensures
            r@.content == content@,
            r@.pinned == false,
            r@.preview == preview@,
    {
        ClipboardItem {
            id: fresh_entry_id(),
            content,
            timestamp: now_rfc3339(),
            pinned: false,
            preview,
        }
    }

    /// Read the image fingerprint back out of the preview string.
    /// Returns `None` for text content or an unreadable preview.
    pub fn extract_image_hash(&self) -> (r: Option<u64>)
        ensures
            r == image_hash_of(self@),
    {
        let is_image = match &self.content {
            ClipboardContent::Image { .. } => true,
            ClipboardContent::Text(_) => false,
        };
        if !is_image {
            return None;
        }
        let p = chars_of(self.preview.as_str());
        match find_char(&p, '#') {
            Some(i) => {
                proof {
                    lemma_char_index_of(p@, '#');
                }
                let rest = subvec(&p, i + 1, p.len());
                assert(rest@ =~= p@.skip(i + 1));
                let seg = match find_char(&rest, '#') {
                    Some(j) => {
                        proof {
                            lemma_char_index_of(rest@, '#');
                        }
                        let s2 = subvec(&rest, 0, j);
                        assert(s2@ =~= rest@.take(j as int));
                        s2
                    },
                    None => rest,
                };
                assert(seg@ == match hash_segment(self@.preview) {
                    Some(s) => s,
                    None => Seq::<char>::empty(),
                });
                parse_u64_chars(&seg)
            },
            None => None,
        }
    }
}

/// Relies on `uuid::Uuid::new_v4` and its `Display` form: a freshly
/// generated random identifier rendered in the 36-character hyphenated
/// format. Nothing is assumed beyond the length.
#[verifier::external_body]
fn fresh_entry_id() -> (r: String)
    ensures
        r@.len() == 36,
{
    uuid::Uuid::new_v4().to_string()
}

/// Relies on `chrono::Utc::now` and `DateTime::to_rfc3339`: the current
/// time rendered as an RFC 3339 timestamp. The value depends on the
/// clock, so nothing is assumed of it.
#[verifier::external_body]
fn now_rfc3339() -> (r: String) {
    chrono::Utc::now().to_rfc3339()
}

} // verus!
