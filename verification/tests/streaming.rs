use mjpeg_stream::distributor::Distributor;
use mjpeg_stream::multipart::encode_part;
use mjpeg_stream::pacing::sleep_budget;
use mjpeg_stream::parser::Parser;

const BOUNDARY_HEAD: &str =
    "\r\n--7b3cc56e5f51db803f790dad720ed50a\r\nContent-Type: image/jpeg\r\nContent-Length: ";

#[test]
fn multipart_exact_bytes() {
    let jpeg: Vec<u8> = vec![0x10, 0x20, 0x30, 0x40, 0x50];
    let part = encode_part(&jpeg);
    let mut expected: Vec<u8> = Vec::new();
    expected.extend_from_slice(BOUNDARY_HEAD.as_bytes());
    expected.extend_from_slice(b"5\r\n\r\n");
    expected.extend_from_slice(&jpeg);
    assert_eq!(part, expected);
}

#[test]
fn multipart_length_in_decimal() {
    let jpeg: Vec<u8> = vec![0xab; 123];
    let part = encode_part(&jpeg);
    let mut expected: Vec<u8> = Vec::new();
    expected.extend_from_slice(BOUNDARY_HEAD.as_bytes());
    expected.extend_from_slice(b"123\r\n\r\n");
    expected.extend_from_slice(&jpeg);
    assert_eq!(part, expected);
}

#[test]
fn multipart_empty_payload() {
    let jpeg: Vec<u8> = Vec::new();
    let part = encode_part(&jpeg);
    let mut expected: Vec<u8> = Vec::new();
    expected.extend_from_slice(BOUNDARY_HEAD.as_bytes());
    expected.extend_from_slice(b"0\r\n\r\n");
    assert_eq!(part, expected);
}

#[test]
fn subscriber_gets_each_new_frame() {
    let mut d = Distributor::new();
    let mut s = d.subscribe();
    assert!(d.poll(&mut s).is_none());
    d.publish(vec![1, 2, 3]);
    assert_eq!(d.poll(&mut s), Some(vec![1, 2, 3]));
    assert!(d.poll(&mut s).is_none());
    d.publish(vec![4, 5]);
    assert_eq!(d.poll(&mut s), Some(vec![4, 5]));
    assert!(d.poll(&mut s).is_none());
}

#[test]
fn slow_subscriber_skips_to_latest() {
    let mut d = Distributor::new();
    let mut s = d.subscribe();
    d.publish(vec![1]);
    d.publish(vec![2]);
    d.publish(vec![3]);
    // Only the most recent frame is held: the two older ones are gone.
    assert_eq!(d.poll(&mut s), Some(vec![3]));
    assert!(d.poll(&mut s).is_none());
}

#[test]
fn late_subscriber_waits_for_next_publish() {
    let mut d = Distributor::new();
    d.publish(vec![9, 9]);
    let mut late = d.subscribe();
    // A subscription created after a publish does not replay it.
    assert!(d.poll(&mut late).is_none());
    d.publish(vec![9, 9]);
    assert_eq!(d.poll(&mut late), Some(vec![9, 9]));
}

#[test]
fn end_to_end_frame_to_part() {
    // A minimal JFIF-style image through parser, distributor and
    // multipart encoding: both an early and a late subscriber receive
    // one part whose payload is the full image.
    let mut image: Vec<u8> = vec![0xff, 0xd8, 0xff, 0xe0, 0x00, 0x10];
    image.extend_from_slice(&[
        0x4a, 0x46, 0x49, 0x46, 0x00, 0x01, 0x01, 0x00, 0x00, 0x01, 0x00, 0x01, 0x00, 0x00,
    ]);
    image.extend_from_slice(&[0xff, 0xd9]);

    let mut p = Parser::new();
    let frames = p.feed(&image);
    assert_eq!(frames.len(), 1);

    let mut d = Distributor::new();
    let mut early = d.subscribe();
    d.publish(frames[0].clone());
    let got_early = d.poll(&mut early).expect("early subscriber sees the frame");

    let mut late = d.subscribe();
    d.publish(frames[0].clone());
    let got_late = d.poll(&mut late).expect("late subscriber sees the republished frame");

    for got in [got_early, got_late] {
        let part = encode_part(&got);
        let mut expected: Vec<u8> = Vec::new();
        expected.extend_from_slice(BOUNDARY_HEAD.as_bytes());
        expected.extend_from_slice(format!("{}\r\n\r\n", image.len()).as_bytes());
        expected.extend_from_slice(&image);
        assert_eq!(part, expected);
    }
}

#[test]
fn pacing_holds_target_schedule() {
    // With a 1000 microsecond interval, frame k is due at k * 1000
    // after start; the sleep is the remainder of that budget.
    assert_eq!(sleep_budget(1000, 1, 0), 1000);
    assert_eq!(sleep_budget(1000, 1, 250), 750);
    assert_eq!(sleep_budget(1000, 2, 1100), 900);
    assert_eq!(sleep_budget(1000, 3, 2999), 1);
    // Wraparound over the same three files keeps the same schedule.
    assert_eq!(sleep_budget(1000, 4, 3500), 500);
    assert_eq!(sleep_budget(1000, 6, 5990), 10);
}

#[test]
fn pacing_catches_up_when_late() {
    // Already past the target: no sleep, and no compounding backlog.
    assert_eq!(sleep_budget(1000, 2, 5000), 0);
    assert_eq!(sleep_budget(16000, 1, 20000), 0);
    assert_eq!(sleep_budget(0, 5, 1), 0);
}
