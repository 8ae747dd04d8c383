use embr_format::classify::{extension_of, lane_for, sort_key, Lane, PackKey};
use embr_format::order::{stable_order, Key};

#[test]
fn extensions_are_lowercased() {
    assert_eq!(extension_of("a/B.JPG").as_deref(), Some("jpg"));
    assert_eq!(extension_of("a/b.tar.gz").as_deref(), Some("gz"));
}

#[test]
fn dotfiles_have_no_extension() {
    assert_eq!(extension_of(".gitignore"), None);
    assert_eq!(extension_of("src/.env"), None);
    assert_eq!(extension_of("Makefile"), None);
}

#[test]
fn media_goes_to_the_fast_lane() {
    assert_eq!(lane_for("holiday/IMG_0001.JPEG"), Lane::Fast);
    assert_eq!(lane_for("clip.mp4"), Lane::Fast);
    assert_eq!(lane_for("song.flac"), Lane::Fast);
    assert_eq!(lane_for("bundle.tar.gz"), Lane::Fast);
    assert_eq!(lane_for("src/main.rs"), Lane::Compress);
    assert_eq!(lane_for("README"), Lane::Compress);
}

#[test]
fn containers_get_full_effort() {
    for name in [
        "Installer.pkg",
        "Firefox.dmg",
        "ubuntu.iso",
        "app.deb",
        "lib.rpm",
        "archive.zip",
        "plugin.jar",
        "package.whl",
        "app.apk",
        "report.docx",
        "book.epub",
    ] {
        assert_eq!(lane_for(name), Lane::Compress, "{name} should get full effort");
    }
}

#[test]
fn sorting_groups_by_lane_then_extension() {
    let mut paths = vec!["b/photo.jpg", "z/a.rs", "a/b.py", "c/d.rs"];
    paths.sort_by_key(|p| sort_key(p));
    assert_eq!(paths, vec!["a/b.py", "c/d.rs", "z/a.rs", "b/photo.jpg"]);
}

#[test]
fn every_listed_extension_is_precompressed() {
    for ext in [
        "jpg", "jpeg", "jpe", "jxl", "png", "gif", "webp", "heic", "heif", "avif", "jp2", "mp4",
        "mkv", "mp3", "ogg", "gz", "tgz", "bz2", "xz", "zst", "lz4", "lzma", "br", "7z", "rar",
        "embr", "woff", "woff2",
    ] {
        assert_eq!(lane_for(&format!("x.{ext}")), Lane::Fast, "{ext}");
    }
}

#[test]
fn a_trailing_dot_is_no_extension() {
    assert_eq!(extension_of("name."), None);
    assert_eq!(extension_of("..hidden.txt").as_deref(), Some("txt"));
    assert_eq!(extension_of("dir.d/name"), None);
}

#[test]
fn the_sort_key_has_four_parts() {
    assert_eq!(
        sort_key("a/b/Photo.JPG"),
        (Lane::Fast, "jpg".to_string(), "a/b".to_string(), "Photo.JPG".to_string())
    );
    assert_eq!(
        sort_key("README"),
        (Lane::Compress, String::new(), String::new(), "README".to_string())
    );
}

/// The library's own order agrees with the order of the key tuples.
#[test]
fn pack_keys_order_like_tuples() {
    let paths = ["b/photo.jpg", "z/a.rs", "a/b.py", "c/d.rs", "z/a.rs", "README", "é/ü.py", "a.py"];
    let keys: Vec<PackKey> = paths.iter().map(|p| PackKey::new(p)).collect();
    for (i, a) in keys.iter().enumerate() {
        for (j, b) in keys.iter().enumerate() {
            assert_eq!(a.no_greater(b), sort_key(paths[i]) <= sort_key(paths[j]));
        }
    }
    let mut expected: Vec<usize> = (0..paths.len()).collect();
    expected.sort_by_key(|i| sort_key(paths[*i]));
    assert_eq!(stable_order(&keys), expected);
}
