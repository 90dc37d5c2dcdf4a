use image_duplicate::suffix::{has_image_suffix, SUFFIXES};

#[test]
fn every_suffix_of_the_list_names_an_image() {
    assert_eq!(SUFFIXES, ["bmp", "gif", "jpg", "jpeg", "jxl", "png", "webp"]);
    for suffix in SUFFIXES {
        assert!(has_image_suffix(&format!("/pictures/holiday.{}", suffix)));
    }
}

#[test]
fn text_file_is_no_image() {
    assert!(!has_image_suffix("photo.txt"));
    assert!(!has_image_suffix("/home/me/photo.txt"));
}

#[test]
fn suffix_is_matched_by_case() {
    assert!(has_image_suffix("photo.png"));
    assert!(!has_image_suffix("photo.PNG"));
    assert!(!has_image_suffix("photo.Png"));
    assert!(!has_image_suffix("photo.JPG"));
}

#[test]
fn suffix_is_taken_after_the_last_dot() {
    assert!(has_image_suffix("archive.tar.gif"));
    assert!(!has_image_suffix("picture.png.txt"));
    assert!(!has_image_suffix("picture.png."));
    assert!(!has_image_suffix("picture.pngx"));
    assert!(!has_image_suffix("picture.pn"));
    assert!(!has_image_suffix("picturepng"));
}

#[test]
fn name_without_stem_has_no_suffix() {
    assert!(!has_image_suffix(".png"));
    assert!(!has_image_suffix("/some/dir/.png"));
    assert!(has_image_suffix("/some/dir/..png"));
    assert!(has_image_suffix(".hidden.png"));
}

#[test]
fn suffix_belongs_to_the_last_component() {
    assert!(!has_image_suffix("/a.png/readme"));
    assert!(!has_image_suffix("a.png/b"));
    assert!(has_image_suffix("/a.d/b.webp"));
}

#[test]
fn ending_separators_and_dots_do_not_count() {
    assert!(has_image_suffix("dir.png/"));
    assert!(has_image_suffix("dir.png//"));
    assert!(has_image_suffix("a/b.jpg/."));
    assert!(has_image_suffix("a/b.jpg/./"));
    assert!(!has_image_suffix("a/b.jpg/.."));
    assert!(!has_image_suffix("a.jpg/b/."));
}

#[test]
fn paths_without_a_file_name_are_no_images() {
    assert!(!has_image_suffix(""));
    assert!(!has_image_suffix("/"));
    assert!(!has_image_suffix("."));
    assert!(!has_image_suffix(".."));
    assert!(!has_image_suffix("./"));
    assert!(!has_image_suffix("/."));
}

#[test]
fn suffix_test_agrees_with_the_extension_of_a_path() {
    let samples = [
        "photo.png", "photo.PNG", "photo.txt", ".png", "..png", "a/b.jpg/.", "a/b.jpg/..",
        "dir.png/", "x.jpeg", "x.jp", "pic.", "/", "", ".", "a.gif/b", "caf\u{e9}.bmp",
        "\u{1f600}.webp", "a.b.c.jxl", "a/./b.png", "./.", "a//b.gif//",
    ];
    for sample in samples {
        let expected = match std::path::Path::new(sample).extension().and_then(|e| e.to_str()) {
            Some(ext) => SUFFIXES.contains(&ext),
            None => false,
        };
        assert_eq!(has_image_suffix(sample), expected, "{:?}", sample);
    }
}
