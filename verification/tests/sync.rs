use image_duplicate::error::HashDBError;
use image_duplicate::fingerprint::ImageHash;
use image_duplicate::hashdb::{HashDB, Hashed};
use image_duplicate::scan::{scan, Found};

fn fp(first: u8) -> ImageHash {
    ImageHash::from_bytes(&[first, 0, 0, 0, 0, 0, 0, 0]).unwrap()
}

fn file(name: &str) -> Found {
    Found {
        path: format!("pics/{}", name),
        depth: 1,
        is_file: true,
        canonical: Some(format!("/home/me/pics/{}", name)),
    }
}

fn deep(name: &str, depth: usize) -> Found {
    Found {
        path: format!("pics/sub/{}", name),
        depth,
        is_file: true,
        canonical: Some(format!("/home/me/pics/sub/{}", name)),
    }
}

fn taken(name: &str, first: u8) -> Hashed {
    Ok((format!("/home/me/pics/{}", name), fp(first)))
}

fn broken(name: &str) -> Hashed {
    Err(HashDBError::ImageError(
        format!("pics/{}", name),
        image::ImageError::IoError(std::io::Error::new(std::io::ErrorKind::InvalidData, "bad")),
    ))
}

fn key(name: &str) -> String {
    format!("/home/me/pics/{}", name)
}

fn synced_ab() -> HashDB {
    let mut db = HashDB::new();
    let listing = vec![file("a.png"), file("b.png")];
    assert_eq!(db.missing(&listing, false), vec![key("a.png"), key("b.png")]);
    db.read_dir(&listing, vec![taken("a.png", 1), taken("b.png", 2)]).unwrap();
    db
}

#[test]
fn new_store_is_empty() {
    let db = HashDB::new();
    assert_eq!(db.len(), 0);
    assert!(db.get(&key("a.png")).is_none());
}

#[test]
fn scan_keeps_files_with_image_suffix() {
    let listing = vec![
        file("a.png"),
        file("photo.txt"),
        file("photo.PNG"),
        Found { path: String::from("pics/dir.png"), depth: 1, is_file: false, canonical: Some(key("dir.png")) },
        Found { path: String::from("pics/gone.jpg"), depth: 1, is_file: true, canonical: None },
        file("c.jpg"),
    ];
    assert_eq!(scan(&listing, false), vec![key("a.png"), key("c.jpg")]);
    assert_eq!(scan(&listing, true), vec![key("a.png"), key("c.jpg")]);
}

#[test]
fn scan_goes_one_level_deep_unless_recursive() {
    let listing = vec![
        Found { path: String::from("root.png"), depth: 0, is_file: true, canonical: Some(String::from("/root.png")) },
        file("a.png"),
        deep("b.gif", 2),
        deep("c.webp", 5),
    ];
    assert_eq!(scan(&listing, false), vec![key("a.png")]);
    assert_eq!(
        scan(&listing, true),
        vec![key("a.png"), String::from("/home/me/pics/sub/b.gif"), String::from("/home/me/pics/sub/c.webp")]
    );
}

#[test]
fn scan_takes_the_suffix_from_the_listed_path() {
    let link = Found {
        path: String::from("pics/link.png"),
        depth: 1,
        is_file: true,
        canonical: Some(String::from("/data/blob")),
    };
    let other = Found {
        path: String::from("pics/link"),
        depth: 1,
        is_file: true,
        canonical: Some(String::from("/data/blob.png")),
    };
    assert_eq!(scan(&vec![link, other], false), vec![String::from("/data/blob")]);
}

#[test]
fn first_sync_adds_every_image() {
    let db = synced_ab();
    assert_eq!(db.len(), 2);
    assert_eq!(db.get(&key("a.png")), Some(fp(1)));
    assert_eq!(db.get(&key("b.png")), Some(fp(2)));
}

#[test]
fn sync_twice_changes_nothing() {
    let mut db = synced_ab();
    let listing = vec![file("a.png"), file("b.png")];
    assert!(db.missing(&listing, false).is_empty());
    db.read_dir(&listing, Vec::new()).unwrap();
    assert_eq!(db.len(), 2);
    assert_eq!(db.get(&key("a.png")), Some(fp(1)));
    assert_eq!(db.get(&key("b.png")), Some(fp(2)));
    assert_eq!(db.to_msgpack().unwrap(), synced_ab().to_msgpack().unwrap());
}

#[test]
fn sync_detects_added_image() {
    let mut db = synced_ab();
    let listing = vec![file("a.png"), file("b.png"), file("c.jpg")];
    assert_eq!(db.missing(&listing, false), vec![key("c.jpg")]);
    db.read_dir(&listing, vec![taken("c.jpg", 3)]).unwrap();
    assert_eq!(db.len(), 3);
    assert_eq!(db.get(&key("c.jpg")), Some(fp(3)));
    assert_eq!(db.get(&key("a.png")), Some(fp(1)));
    assert_eq!(db.get(&key("b.png")), Some(fp(2)));
}

#[test]
fn sync_detects_removed_image() {
    let mut db = synced_ab();
    db.read_dir(&vec![file("a.png"), file("b.png"), file("c.jpg")], vec![taken("c.jpg", 3)]).unwrap();
    let listing = vec![file("a.png"), file("c.jpg")];
    assert!(db.missing(&listing, false).is_empty());
    db.read_dir(&listing, Vec::new()).unwrap();
    assert_eq!(db.len(), 2);
    assert_eq!(db.get(&key("a.png")), Some(fp(1)));
    assert_eq!(db.get(&key("c.jpg")), Some(fp(3)));
    assert!(db.get(&key("b.png")).is_none());
}

#[test]
fn missing_names_each_path_once() {
    let db = synced_ab();
    let listing = vec![file("c.jpg"), file("a.png"), file("c.jpg"), file("d.gif"), file("d.gif")];
    assert_eq!(db.missing(&listing, false), vec![key("c.jpg"), key("d.gif")]);
}

#[test]
fn failed_fingerprint_fails_the_sync() {
    let mut db = synced_ab();
    let listing = vec![file("a.png"), file("c.jpg"), file("d.gif")];
    let res = db.read_dir(&listing, vec![taken("c.jpg", 3), broken("d.gif")]);
    match res {
        Err(HashDBError::ImageError(path, _)) => assert_eq!(path, "pics/d.gif"),
        other => panic!("{:?}", other),
    }
    assert_eq!(db.len(), 2);
    assert_eq!(db.get(&key("a.png")), Some(fp(1)));
    assert_eq!(db.get(&key("b.png")), Some(fp(2)));
    assert!(db.get(&key("c.jpg")).is_none());
}

#[test]
fn first_failure_is_the_one_reported() {
    let mut db = HashDB::new();
    let listing = vec![file("a.png"), file("b.png"), file("c.jpg")];
    let io = Err(HashDBError::IOError(std::io::Error::new(std::io::ErrorKind::NotFound, "gone")));
    let res = db.read_dir(&listing, vec![taken("a.png", 1), io, broken("c.jpg")]);
    assert!(matches!(res, Err(HashDBError::IOError(_))));
    assert_eq!(db.len(), 0);
}

#[test]
fn recursive_sync_counts_deep_images() {
    let mut db = HashDB::new();
    let listing = vec![file("a.png"), deep("b.png", 2)];
    let deep_key = String::from("/home/me/pics/sub/b.png");
    assert_eq!(db.missing(&listing, true), vec![key("a.png"), deep_key.clone()]);
    assert_eq!(db.missing(&listing, false), vec![key("a.png")]);
    db.read_dir_recursive(&listing, vec![taken("a.png", 1), Ok((deep_key.clone(), fp(7)))]).unwrap();
    assert_eq!(db.len(), 2);
    assert_eq!(db.get(&deep_key), Some(fp(7)));
    db.read_dir(&listing, Vec::new()).unwrap();
    assert_eq!(db.len(), 1);
    assert!(db.get(&deep_key).is_none());
    assert_eq!(db.get(&key("a.png")), Some(fp(1)));
}

#[test]
fn new_fingerprint_replaces_the_old_one() {
    let mut db = synced_ab();
    db.read_dir(&vec![file("a.png"), file("b.png")], vec![taken("a.png", 9)]).unwrap();
    assert_eq!(db.len(), 2);
    assert_eq!(db.get(&key("a.png")), Some(fp(9)));
}

#[test]
fn fingerprint_outside_the_listing_is_kept() {
    let mut db = synced_ab();
    db.read_dir(&vec![file("a.png")], vec![taken("z.png", 5)]).unwrap();
    assert_eq!(db.len(), 2);
    assert_eq!(db.get(&key("a.png")), Some(fp(1)));
    assert_eq!(db.get(&key("z.png")), Some(fp(5)));
    assert!(db.get(&key("b.png")).is_none());
}
