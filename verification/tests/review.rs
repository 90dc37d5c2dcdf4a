use image_duplicate::review::{embed_offset, Message, Review, THUMB_SIZE};

fn pairs() -> Vec<(String, String)> {
    vec![
        (String::from("/a.png"), String::from("/b.png")),
        (String::from("/c.png"), String::from("/d.png")),
        (String::from("/e.png"), String::from("/f.png")),
    ]
}

#[test]
fn thumbnail_is_centred_on_its_short_side() {
    assert_eq!(THUMB_SIZE, 384);
    assert_eq!(embed_offset(384, 384), (0, 0));
    assert_eq!(embed_offset(100, 100), (0, 0));
    assert_eq!(embed_offset(200, 384), (92, 0));
    assert_eq!(embed_offset(384, 200), (0, 92));
    assert_eq!(embed_offset(1, 384), (192, 0));
    assert_eq!(embed_offset(384, 0), (0, 192));
    assert_eq!(embed_offset(383, 384), (1, 0));
}

#[test]
fn review_walks_through_the_pairs() {
    let mut review = Review::new(pairs());
    assert_eq!(review.current(), Some((&String::from("/a.png"), &String::from("/b.png"))));
    review.advance();
    assert_eq!(review.current(), Some((&String::from("/c.png"), &String::from("/d.png"))));
    review.advance();
    review.advance();
    assert_eq!(review.current(), None);
    review.advance();
    assert_eq!(review.current(), None);
    assert_eq!(Review::new(Vec::new()).current(), None);
}

#[test]
fn the_image_that_is_not_kept_is_discarded() {
    let mut review = Review::new(pairs());
    assert_eq!(review.discard(Message::LeftPressed), Some(&String::from("/b.png")));
    assert_eq!(review.discard(Message::RightPressed), Some(&String::from("/a.png")));
    assert_eq!(review.discard(Message::CenterPressed), None);
    review.advance();
    assert_eq!(review.discard(Message::LeftPressed), Some(&String::from("/d.png")));
    review.advance();
    review.advance();
    assert_eq!(review.discard(Message::LeftPressed), None);
    assert_eq!(review.discard(Message::RightPressed), None);
}

#[test]
fn pairs_with_a_vanished_image_are_passed_over() {
    let mut review = Review::new(pairs());
    assert!(!review.settle(true, false));
    assert_eq!(review.current(), Some((&String::from("/c.png"), &String::from("/d.png"))));
    assert!(!review.settle(false, true));
    assert!(review.settle(true, true));
    assert_eq!(review.current(), Some((&String::from("/e.png"), &String::from("/f.png"))));
    assert!(!review.settle(false, false));
    assert_eq!(review.current(), None);
    assert!(!review.settle(false, false));
    assert_eq!(review.current(), None);
}
