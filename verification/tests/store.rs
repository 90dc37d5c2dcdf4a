use image_duplicate::fingerprint::ImageHash;
use image_duplicate::hashdb::HashDB;
use image_duplicate::scan::Found;

const H: [u8; 8] = [1, 2, 3, 4, 5, 6, 7, 8];
const G: [u8; 8] = [0xff, 0xee, 0xdd, 0xcc, 0xbb, 0xaa, 0x99, 0x88];

fn made(entries: &[(&str, [u8; 8])]) -> HashDB {
    let mut db = HashDB::new();
    let mut listing = Vec::new();
    let mut hashed = Vec::new();
    for (name, bytes) in entries {
        listing.push(Found {
            path: String::from("x.gif"),
            depth: 1,
            is_file: true,
            canonical: Some(String::from(*name)),
        });
        hashed.push(Ok((String::from(*name), ImageHash::from_bytes(bytes).unwrap())));
    }
    db.read_dir(&listing, hashed).unwrap();
    db
}

#[test]
fn fingerprint_as_base64() {
    assert_eq!(ImageHash::from_bytes(&H).unwrap().to_base64(), "AQIDBAUGBwg");
    assert_eq!(ImageHash::from_bytes(&G).unwrap().to_base64(), "/+7dzLuqmYg");
    assert_eq!(ImageHash::from_bytes(&[0; 8]).unwrap().to_base64(), "AAAAAAAAAAA");
}

#[test]
fn fingerprints_with_the_same_bytes_are_the_same() {
    let h = ImageHash::from_bytes(&H).unwrap();
    assert!(h.same(&ImageHash::from_bytes(&H).unwrap()));
    assert!(!h.same(&ImageHash::from_bytes(&G).unwrap()));
    assert!(!h.same(&ImageHash::from_bytes(&[1, 2, 3, 4, 5, 6, 7, 9]).unwrap()));
    assert_eq!(h, ImageHash::from_bytes(&H).unwrap());
}

#[test]
fn store_as_text() {
    assert_eq!(HashDB::new().to_string(), "");
    let db = made(&[("/a.png", H), ("/b c.jpg", G)]);
    assert_eq!(db.to_string(), "AQIDBAUGBwg\t/a.png\n/+7dzLuqmYg\t/b c.jpg\n");
}

#[test]
fn stores_are_equal_whatever_the_order() {
    let one = made(&[("/a.png", H), ("/b.png", G)]);
    let two = made(&[("/b.png", G), ("/a.png", H)]);
    assert!(one == two);
    assert!(one.same(&two));
    assert_eq!(one, two);
    assert!(HashDB::new() == HashDB::new());
}

#[test]
fn stores_differ_by_path_or_fingerprint() {
    let one = made(&[("/a.png", H), ("/b.png", G)]);
    assert!(one != made(&[("/a.png", H)]));
    assert!(one != made(&[("/a.png", H), ("/c.png", G)]));
    assert!(one != made(&[("/a.png", H), ("/b.png", H)]));
    assert!(one != made(&[("/a.png", H), ("/b.png", G), ("/c.png", G)]));
    assert!(one != HashDB::new());
}

#[test]
fn file_round_trip_gives_an_equal_store() {
    let db = made(&[("/a.png", H), ("/b.png", G), ("/c/d.webp", H)]);
    assert_eq!(HashDB::from_file(&db.to_file().unwrap()).unwrap(), db);
    assert_eq!(HashDB::from_msgpack(&db.to_msgpack().unwrap()).unwrap(), db);
    assert_eq!(HashDB::from_file(&HashDB::new().to_file().unwrap()).unwrap(), HashDB::new());
}
