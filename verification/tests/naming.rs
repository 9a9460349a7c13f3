use renparkn::naming::{generate_new_name, make_file_name, name_from_parts};
use renparkn::paths::extension;
use std::path::Path;

fn generated(file_path: &str, root_path: &str, anchor: &str) -> Option<String> {
    generate_new_name(file_path, root_path, anchor)
}

#[test]
fn file_in_a_directory_gets_the_directory_name_and_its_number() {
    assert_eq!(generated("/R/Vacation/img042.png", "/R", ""), Some("/R/Vacation 42.png".to_string()));
}

#[test]
fn file_without_extension_keeps_the_separator() {
    assert_eq!(generated("/R/Trip/README", "/R", ""), Some("/R/Trip 99.9.".to_string()));
}

#[test]
fn generated_path_is_what_the_standard_library_joins() {
    let expected = Path::new("/R").join("Vacation 42.png");
    assert_eq!(generated("/R/Vacation/img042.png", "/R", ""), expected.to_str().map(String::from));
    let nested = Path::new("photos/2020").join("b 3.5.jpg");
    assert_eq!(generated("photos/2020/a/b/c3.50.jpg", "photos/2020", ""), nested.to_str().map(
        String::from,
    ));
}

#[test]
fn new_name_goes_under_the_root_not_beside_the_file() {
    assert_eq!(generated("/R/a/b/c/scan_7.tif", "/R", "scan_"), Some("/R/c 7.tif".to_string()));
    assert_eq!(generated("/R/a/n1.txt", "/elsewhere", ""), Some("/elsewhere/a 1.txt".to_string()));
}

#[test]
fn anchor_is_handed_on_to_the_numbering() {
    assert_eq!(generated("/R/d/2021_scan_012.jpg", "/R", "scan_"), Some("/R/d 12.jpg".to_string()));
    assert_eq!(generated("/R/d/2021_scan_012.jpg", "/R", ""), Some("/R/d 2021.jpg".to_string()));
    assert_eq!(generated("/R/d/2021_scan_012.jpg", "/R", "nope"), Some(
        "/R/d 2021.jpg".to_string(),
    ));
}

#[test]
fn path_without_a_named_parent_has_no_new_name() {
    assert_eq!(generated("/img042.png", "/", ""), None);
    assert_eq!(generated("img042.png", "", ""), None);
    assert_eq!(generated("./img042.png", ".", ""), None);
    assert_eq!(generated("../img042.png", "..", ""), None);
    assert_eq!(generated("/", "/", ""), None);
    assert_eq!(generated("", "", ""), None);
}

#[test]
fn path_without_a_file_name_has_no_new_name() {
    assert_eq!(generated("/R/Vacation/..", "/R", ""), None);
}

#[test]
fn generating_takes_the_path_apart_and_does_not_copy_it() {
    let file = "/R/Vacation/img042.png";
    let name = generated(file, "/R", "").unwrap();
    assert_ne!(name, file);
    assert_ne!(name, "/R");
    assert_ne!(name, "/R/Vacation");
    assert_ne!(name, "img042.png");
    assert_ne!(name, "Vacation 42.png");
}

#[test]
fn generating_again_from_a_new_name_gives_another_name() {
    let first = generated("/R/Vacation/img042.png", "/R", "").unwrap();
    assert_eq!(first, "/R/Vacation 42.png");
    let second = generated(&first, "/R", "").unwrap();
    assert_eq!(second, "/R/R 42.png");
    assert_ne!(second, first);

    let first = generated("/R/2019 Trip/img5.png", "/R", "").unwrap();
    assert_eq!(first, "/R/2019 Trip 5.png");
    let second = generated(&first, "/R", "").unwrap();
    assert_eq!(second, "/R/R 2019.png");

    let first = generated("/R/Trip/scan_3.png", "/R", "scan_").unwrap();
    assert_eq!(first, "/R/Trip 3.png");
    let second = generated(&first, "/R", "scan_").unwrap();
    assert_eq!(second, "/R/R 3.png");

    let first = generated("/R/Trip/README", "/R", "").unwrap();
    let second = generated(&first, "/R", "").unwrap();
    assert_eq!(second, "/R/R 99.9.");
}

#[test]
fn file_name_is_parent_space_number_dot_extension() {
    assert_eq!(make_file_name("Vacation", "img042.png", ""), "Vacation 42.png");
    assert_eq!(make_file_name("Trip", "README", ""), "Trip 99.9.");
    assert_eq!(make_file_name("Trip", "scan_3.14.5.tar.gz", "scan_"), "Trip 3.14.gz");
    assert_eq!(make_file_name("", "a1.b", ""), " 1.b");
    assert_eq!(make_file_name("My Photos", "12.5.jpeg", ""), "My Photos 12.5.jpeg");
    assert_eq!(make_file_name("d", ".hidden", ""), "d 99.9.");
    assert_eq!(make_file_name("d", "notes.", ""), "d 99.9.");
}

#[test]
fn extension_is_what_follows_the_last_dot() {
    assert_eq!(extension("img042.png"), Some("png".to_string()));
    assert_eq!(extension("archive.tar.gz"), Some("gz".to_string()));
    assert_eq!(extension("README"), None);
    assert_eq!(extension(""), None);
    assert_eq!(extension(".hidden"), None);
    assert_eq!(extension(".hidden.txt"), Some("txt".to_string()));
    assert_eq!(extension("notes."), Some("".to_string()));
    assert_eq!(extension("a.b."), Some("".to_string()));
    assert_eq!(extension("..a"), Some("a".to_string()));
    assert_eq!(extension("x.é"), Some("é".to_string()));
}

#[test]
fn extension_agrees_with_the_standard_library() {
    let names = [
        "img042.png", "archive.tar.gz", "README", ".hidden", ".hidden.txt", "notes.", "a.b.", "..a",
        "a..b", "...", "x.y.z", "x", ".x.", "été.été", "a b.c d",
    ];
    for name in names {
        let expected = Path::new(name).extension().and_then(|e| e.to_str()).map(String::from);
        assert_eq!(extension(name), expected, "{}", name);
    }
}

#[test]
fn name_needs_the_directory_name_and_the_file_name() {
    let parent = Some("Vacation".to_string());
    let file = Some("img042.png".to_string());
    assert_eq!(name_from_parts(&parent, &file, ""), Some("Vacation 42.png".to_string()));
    assert_eq!(name_from_parts(&None, &file, ""), None);
    assert_eq!(name_from_parts(&parent, &None, ""), None);
    assert_eq!(name_from_parts(&None, &None, ""), None);
    assert_eq!(
        name_from_parts(&parent, &Some("a1_b2.txt".to_string()), "_b"),
        Some("Vacation 2.txt".to_string())
    );
}
