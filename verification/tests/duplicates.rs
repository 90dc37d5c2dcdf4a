use image_duplicate::fingerprint::ImageHash;
use image_duplicate::hashdb::HashDB;
use image_duplicate::scan::Found;

fn store(entries: &[(&str, [u8; 8])]) -> HashDB {
    let mut db = HashDB::new();
    let mut listing = Vec::new();
    let mut hashed = Vec::new();
    for (name, bytes) in entries {
        listing.push(Found {
            path: String::from(*name),
            depth: 1,
            is_file: true,
            canonical: Some(String::from(*name)),
        });
        hashed.push(Ok((String::from(*name), ImageHash::from_bytes(bytes).unwrap())));
    }
    db.read_dir(&listing, hashed).unwrap();
    db
}

fn pair(a: &str, b: &str) -> (String, String) {
    (String::from(a), String::from(b))
}

const H1: [u8; 8] = [0, 0, 0, 0, 0, 0, 0, 0];
const H2: [u8; 8] = [0x07, 0, 0, 0, 0, 0, 0, 0];
const H3: [u8; 8] = [0xff, 0xff, 0xff, 0xff, 0, 0, 0, 0];
const H4: [u8; 8] = [0xff, 0xff, 0xff, 0xff, 0xff, 0xff, 0x0f, 0];

#[test]
fn finds_the_one_close_pair_of_four() {
    let db = store(&[("/1.png", H1), ("/2.png", H2), ("/3.png", H3), ("/4.png", H4)]);
    let one = ImageHash::from_bytes(&H1).unwrap();
    let two = ImageHash::from_bytes(&H2).unwrap();
    let three = ImageHash::from_bytes(&H3).unwrap();
    let four = ImageHash::from_bytes(&H4).unwrap();
    assert_eq!(one.dist(&two), 3);
    assert_eq!(three.dist(&four), 20);
    assert_eq!(db.find_duplicates(10), vec![pair("/1.png", "/2.png")]);
}

#[test]
fn threshold_is_exclusive() {
    let db = store(&[("/1.png", H1), ("/2.png", H2), ("/3.png", H3), ("/4.png", H4)]);
    assert!(db.find_duplicates(3).is_empty());
    assert_eq!(db.find_duplicates(4), vec![pair("/1.png", "/2.png")]);
    assert_eq!(db.find_duplicates(20), vec![pair("/1.png", "/2.png")]);
    assert_eq!(db.find_duplicates(21), vec![pair("/1.png", "/2.png"), pair("/3.png", "/4.png")]);
}

#[test]
fn threshold_zero_finds_nothing() {
    let db = store(&[("/1.png", H1), ("/same.png", H1), ("/2.png", H2)]);
    assert!(db.find_duplicates(0).is_empty());
    assert_eq!(db.find_duplicates(1), vec![pair("/1.png", "/same.png")]);
}

#[test]
fn every_pair_comes_once() {
    let db = store(&[("/1.png", H1), ("/2.png", H2), ("/3.png", H3), ("/4.png", H4)]);
    let found = db.find_duplicates(65);
    assert_eq!(
        found,
        vec![
            pair("/1.png", "/2.png"),
            pair("/1.png", "/3.png"),
            pair("/1.png", "/4.png"),
            pair("/2.png", "/3.png"),
            pair("/2.png", "/4.png"),
            pair("/3.png", "/4.png"),
        ]
    );
    for (i, (a, b)) in found.iter().enumerate() {
        assert_ne!(a, b);
        for (c, d) in &found[i + 1..] {
            assert!(!(a == c && b == d));
            assert!(!(a == d && b == c));
        }
    }
}

#[test]
fn small_stores_have_no_duplicates() {
    assert!(HashDB::new().find_duplicates(65).is_empty());
    assert!(store(&[("/1.png", H1)]).find_duplicates(65).is_empty());
    assert_eq!(store(&[("/1.png", H1), ("/2.png", H1)]).find_duplicates(65), vec![pair("/1.png", "/2.png")]);
}
