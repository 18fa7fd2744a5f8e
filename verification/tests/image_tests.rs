use base64::Engine;
use clipboard_history::history::{bytes_fingerprint, ClipboardManager};
use clipboard_history::item::{ClipboardContent, ClipboardItem};

fn red_pixel() -> Vec<u8> {
    vec![255, 0, 0, 255]
}

#[test]
fn add_image_stores_a_decodable_png() {
    let mut m = ClipboardManager::new();
    let pixels = red_pixel();
    let hash = bytes_fingerprint(&pixels);
    let item = m.add_image(pixels.clone(), 1, 1, hash).expect("image not added");
    let (b64, width, height) = match &item.content {
        ClipboardContent::Image { base64, width, height } => (base64.clone(), *width, *height),
        ClipboardContent::Text(_) => panic!("expected image content"),
    };
    assert_eq!((width, height), (1, 1));
    // The stored payload really is the base64 of a PNG of the pixels.
    let png = base64::engine::general_purpose::STANDARD
        .decode(&b64)
        .expect("payload is not base64");
    let img = image::load_from_memory(&png).expect("payload is not a PNG");
    assert_eq!((img.width(), img.height()), (1, 1));
    assert_eq!(img.to_rgba8().into_raw(), pixels);
}

#[test]
fn image_preview_carries_the_fingerprint() {
    let mut m = ClipboardManager::new();
    let pixels = red_pixel();
    let hash = bytes_fingerprint(&pixels);
    let item = m.add_image(pixels, 1, 1, hash).unwrap();
    assert_eq!(item.preview, format!("Image (1x1) #{}", hash));
    assert_eq!(item.extract_image_hash(), Some(hash));
}

#[test]
fn extract_image_hash_of_text_is_none() {
    let mut m = ClipboardManager::new();
    let item = m.add_text("plain".to_string()).unwrap();
    assert_eq!(item.extract_image_hash(), None);
}

#[test]
fn extract_image_hash_reads_the_segment_after_the_first_hash_sign() {
    let item = ClipboardItem {
        id: "i".to_string(),
        content: ClipboardContent::Image { base64: String::new(), width: 2, height: 3 },
        timestamp: "t".to_string(),
        pinned: false,
        preview: "Image (2x3) #41#junk".to_string(),
    };
    assert_eq!(item.extract_image_hash(), Some(41));
    let bad = ClipboardItem { preview: "Image (2x3)".to_string(), ..item };
    assert_eq!(bad.extract_image_hash(), None);
}

#[test]
fn repeated_image_at_the_front_is_rejected() {
    let mut m = ClipboardManager::new();
    let pixels = red_pixel();
    let hash = bytes_fingerprint(&pixels);
    assert!(m.add_image(pixels.clone(), 1, 1, hash).is_some());
    assert!(m.add_image(pixels, 1, 1, hash).is_none());
    assert_eq!(m.get_history().len(), 1);
}

#[test]
fn replayed_image_is_suppressed_once() {
    let mut m = ClipboardManager::new();
    let pixels = red_pixel();
    let hash = bytes_fingerprint(&pixels);
    let item = m.add_image(pixels.clone(), 1, 1, hash).unwrap();
    // Push the image away from the front so the front-duplicate check
    // does not also fire.
    m.add_text("cover".to_string());
    m.mark_as_pasted(&item);
    // The monitor observes the replayed image: suppressed, token spent.
    assert!(m.add_image(pixels.clone(), 1, 1, hash).is_none());
    assert_eq!(m.get_history().len(), 2);
    // A genuine new copy afterwards is added again; the older copy
    // deeper in the history is not consulted by the image check.
    assert!(m.add_image(pixels, 1, 1, hash).is_some());
    assert_eq!(m.get_history().len(), 3);
}

#[test]
fn mismatched_pixel_buffer_yields_no_entry() {
    let mut m = ClipboardManager::new();
    let pixels = vec![1, 2, 3];
    let hash = bytes_fingerprint(&pixels);
    assert!(m.add_image(pixels, 2, 2, hash).is_none());
    assert_eq!(m.get_history().len(), 0);
}

#[test]
fn different_payloads_get_different_fingerprints() {
    let a = bytes_fingerprint(&[255, 0, 0, 255]);
    let b = bytes_fingerprint(&[0, 0, 255, 255]);
    assert_ne!(a, b);
}

#[test]
fn oversized_pixel_buffer_yields_no_entry() {
    let mut m = ClipboardManager::new();
    // Eight bytes for a single pixel: not four bytes per pixel, so the
    // buffer is rejected before the encoder ever sees it.
    let pixels = vec![0u8; 8];
    let hash = bytes_fingerprint(&pixels);
    assert!(m.add_image(pixels, 1, 1, hash).is_none());
    assert_eq!(m.get_history().len(), 0);
}
