use mjpeg_stream::parser::{Parser, PushOutcome};

/// A minimal well-formed JFIF-style frame: start-of-image, one APP0
/// segment of declared length 16, the next marker starting right after
/// the payload, then end-of-image.
fn minimal_jfif() -> Vec<u8> {
    let mut b: Vec<u8> = vec![0xff, 0xd8, 0xff, 0xe0, 0x00, 0x10];
    b.extend_from_slice(&[
        0x4a, 0x46, 0x49, 0x46, 0x00, 0x01, 0x01, 0x00, 0x00, 0x01, 0x00, 0x01, 0x00, 0x00,
    ]);
    b.extend_from_slice(&[0xff, 0xd9]);
    b
}

/// A frame whose start-of-scan segment is followed by entropy-coded
/// data holding a byte-stuffing escape and trailing filler before the
/// end-of-image marker.
fn scan_data_frame() -> Vec<u8> {
    vec![
        0xff, 0xd8, 0xff, 0xda, 0x00, 0x04, 0x01, 0x02, 0x03, 0xff, 0x00, 0x04, 0xff, 0xd9,
    ]
}

fn feed_all(p: &mut Parser, bytes: &[u8]) -> Vec<Vec<u8>> {
    let mut frames: Vec<Vec<u8>> = Vec::new();
    for &b in bytes {
        if let PushOutcome::Frame(f) = p.push(b) {
            frames.push(f);
        }
    }
    frames
}

#[test]
fn single_frame_byte_by_byte() {
    let image = minimal_jfif();
    let mut p = Parser::new();
    let frames = feed_all(&mut p, &image);
    assert_eq!(frames.len(), 1);
    assert_eq!(frames[0], image);
}

#[test]
fn single_frame_any_chunking() {
    let image = minimal_jfif();
    for split in 0..image.len() {
        let mut p = Parser::new();
        let first: Vec<u8> = image[..split].to_vec();
        let second: Vec<u8> = image[split..].to_vec();
        let mut frames = p.feed(&first);
        frames.extend(p.feed(&second));
        assert_eq!(frames.len(), 1, "split at {}", split);
        assert_eq!(frames[0], image);
    }
}

#[test]
fn frames_with_noise_between() {
    let a = minimal_jfif();
    let b = scan_data_frame();
    let mut stream: Vec<u8> = vec![0x12, 0x34, 0x00, 0x7f];
    stream.extend_from_slice(&a);
    stream.extend_from_slice(&[0x55, 0x66]);
    stream.extend_from_slice(&b);
    let mut p = Parser::new();
    let frames = p.feed(&stream);
    assert_eq!(frames.len(), 2);
    assert_eq!(frames[0], a);
    assert_eq!(frames[1], b);
}

#[test]
fn scan_data_entropy_tolerated() {
    let image = scan_data_frame();
    let mut p = Parser::new();
    let frames = feed_all(&mut p, &image);
    assert_eq!(frames.len(), 1);
    assert_eq!(frames[0], image);
}

#[test]
fn invalid_marker_abandons() {
    // 0x01 is no marker type at all: the frame is abandoned.
    let mut p = Parser::new();
    assert!(matches!(p.push(0xff), PushOutcome::Pending));
    assert!(matches!(p.push(0xd8), PushOutcome::Pending));
    assert!(matches!(p.push(0xff), PushOutcome::Pending));
    assert!(matches!(p.push(0x01), PushOutcome::Abandoned));
}

#[test]
fn restart_marker_outside_scan_abandons() {
    // A restart marker is only legitimate inside scan data.
    let mut p = Parser::new();
    let frames = feed_all(&mut p, &[0xff, 0xd8, 0xff]);
    assert!(frames.is_empty());
    assert!(matches!(p.push(0xd0), PushOutcome::Abandoned));
}

#[test]
fn escape_outside_scan_abandons() {
    let mut p = Parser::new();
    feed_all(&mut p, &[0xff, 0xd8, 0xff]);
    assert!(matches!(p.push(0x00), PushOutcome::Abandoned));
}

#[test]
fn marker_not_followed_by_marker_abandons() {
    // Declared length 3 gives a one-byte payload; the byte after it is
    // not 0xFF, and we are not inside scan data.
    let bytes = [0xff, 0xd8, 0xff, 0xe0, 0x00, 0x03, 0xaa];
    let mut p = Parser::new();
    let frames = feed_all(&mut p, &bytes);
    assert!(frames.is_empty());
    assert!(matches!(p.push(0x42), PushOutcome::Abandoned));
}

#[test]
fn undersized_length_abandons() {
    // A segment length below 2 cannot include its own two length bytes.
    let mut p = Parser::new();
    feed_all(&mut p, &[0xff, 0xd8, 0xff, 0xe0, 0x00]);
    assert!(matches!(p.push(0x01), PushOutcome::Abandoned));
}

#[test]
fn resync_after_violation() {
    let image = minimal_jfif();
    // A corrupted start, then noise, then a full valid image.
    let mut stream: Vec<u8> = vec![0xff, 0xd8, 0xff, 0x01, 0x23, 0x45];
    stream.extend_from_slice(&image);
    let mut p = Parser::new();
    let frames = p.feed(&stream);
    assert_eq!(frames.len(), 1);
    assert_eq!(frames[0], image);
}

#[test]
fn mid_frame_bytes_stay_pending() {
    let image = minimal_jfif();
    let mut p = Parser::new();
    for &b in &image[..image.len() - 1] {
        assert!(matches!(p.push(b), PushOutcome::Pending));
    }
    assert!(matches!(p.push(image[image.len() - 1]), PushOutcome::Frame(_)));
}
