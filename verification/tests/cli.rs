use fgddem::{extract_stem, stem_from_lookup, merged_file_name, tif_file_name, CompressionKind, Config, StemError};

#[test]
fn test_extract_stem() {
    assert_eq!(
        extract_stem("tests/fixture/FG-GML-5238-74-00-DEM5A-20161001.xml").unwrap(),
        "FG-GML-5238-74-00-DEM5A-20161001"
    );
}

#[test]
fn test_extract_stem_no_filename() {
    // A path ending in `..` has no file_stem -> error branch.
    assert!(extract_stem("..").is_err());
    assert_eq!(extract_stem(".."), Err(StemError::NoStem));
    assert_eq!(StemError::NoStem.message(), "Failed to extract stem");
}

#[test]
fn extract_stem_drops_only_the_last_extension() {
    assert_eq!(extract_stem("a/b.tar.gz").unwrap(), "b.tar");
    assert_eq!(extract_stem(".hidden").unwrap(), ".hidden");
    assert_eq!(extract_stem("noext").unwrap(), "noext");
}

#[test]
fn unknown_compression_name_is_refused() {
    assert_eq!(CompressionKind::from_name("bogus"), None);
}

#[test]
fn compression_names() {
    assert_eq!(CompressionKind::from_name("none"), Some(CompressionKind::Uncompressed));
    assert_eq!(CompressionKind::from_name("deflate"), Some(CompressionKind::Deflate));
    assert_eq!(CompressionKind::from_name("lzw"), Some(CompressionKind::Lzw));
    assert_eq!(CompressionKind::from_name("zstd"), Some(CompressionKind::Zstd));
    assert_eq!(CompressionKind::from_name("LZW"), None);
}

#[test]
fn output_names() {
    assert_eq!(tif_file_name("FG-GML-5238-74-00-DEM5A-20161001"), "FG-GML-5238-74-00-DEM5A-20161001.tif");
    assert_eq!(merged_file_name(), "merged.tif");
}

#[test]
fn config_keeps_its_fields() {
    let c = Config::new(vec!["a.xml".to_string()], "out".to_string(), true, CompressionKind::Lzw);
    assert_eq!(c.get_input_files(), &vec!["a.xml".to_string()]);
    assert_eq!(c.get_output_dir(), "out");
    assert!(c.get_merge());
    assert_eq!(c.get_compression(), CompressionKind::Lzw);
}

#[test]
fn stem_lookup_outcomes() {
    assert_eq!(stem_from_lookup(None), Err(StemError::NoStem));
    assert_eq!(stem_from_lookup(Some(None)), Err(StemError::NotUtf8));
    assert_eq!(stem_from_lookup(Some(Some("a".to_string()))), Ok("a".to_string()));
    assert_eq!(StemError::NotUtf8.message(), "Failed to convert stem to string");
}

#[test]
fn merged_output_name() {
    // Merging names the single output `merged.tif`.
    assert_eq!(merged_file_name(), "merged.tif");
}

#[test]
fn lzw_name_and_tif_output_name() {
    // `-c lzw` selects LZW, and each input yields `<stem>.tif`.
    assert_eq!(CompressionKind::from_name("lzw"), Some(CompressionKind::Lzw));
    let stem = extract_stem("tests/fixture/FG-GML-5238-74-00-DEM5A-20161001.xml").unwrap();
    assert_eq!(tif_file_name(&stem), "FG-GML-5238-74-00-DEM5A-20161001.tif");
}

/// The portable stem rule, written out as the library's specification states it.
fn portable_stem_model(path: &str) -> Option<String> {
    let names: Vec<&str> = path.split('/').filter(|c| !c.is_empty() && *c != ".").collect();
    let name = *names.last()?;
    if name == ".." {
        return None;
    }
    match name.rfind('.') {
        None | Some(0) => Some(name.to_string()),
        Some(i) => Some(name[..i].to_string()),
    }
}

#[test]
fn extract_stem_follows_the_portable_rule() {
    let paths = [
        "tests/fixture/FG-GML-5238-74-00-DEM5A-20161001.xml",
        "a.xml", "a", ".a", ".a.b", "a.", "...", "..a", "a..b", "a/b/c.d.e", "a/.", "a/./",
        "a//b.x//", "./x.y", "/", "", ".", "..", "a/..", "/a.b", "地表面.xml", "a b.c d",
        "dir.x/", "dir.x/.//.", "../c.tif",
    ];
    for p in paths {
        let got = extract_stem(p).ok();
        assert_eq!(got, portable_stem_model(p), "{:?}", p);
        if got.is_none() {
            assert_eq!(extract_stem(p), Err(StemError::NoStem), "{:?}", p);
        }
    }
}
