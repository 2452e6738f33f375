use pvz_pak_tool::collect::build_file_infos;
use pvz_pak_tool::crypt::crypt_data;
use pvz_pak_tool::crypt::detect_encryption;
use pvz_pak_tool::errors::InputError;
use pvz_pak_tool::pack::encode_pak;
use pvz_pak_tool::pak::{parse_pak_info, FileInfo, PakInfo, DEFAULT_FILE_TIME};
use pvz_pak_tool::PakFileSystem;

fn entry(name: &str, z: u32) -> FileInfo {
    FileInfo { file_name: name.to_string(), z_size: z, _size: z, _file_time: DEFAULT_FILE_TIME }
}

fn session(names: &[&str]) -> PakFileSystem {
    let files: Vec<FileInfo> = names.iter().map(|n| entry(n, 1)).collect();
    PakFileSystem::new(files)
}

#[test]
fn resolve_root_from_any_state() {
    let mut fs = session(&["a\\b.txt", "a\\c\\d.txt"]);
    assert_eq!(fs.resolve_path("/"), "/");
    fs.change_directory("a").unwrap();
    assert_eq!(fs.resolve_path("/"), "/");
    assert_eq!(fs.current_path, "/a");
}

#[test]
fn resolve_dotdot_at_root_stays_at_root() {
    let fs = session(&["x.txt"]);
    assert_eq!(fs.resolve_path(".."), "/");
    assert_eq!(fs.resolve_path("../.."), "/");
}

#[test]
fn resolve_collapses_dot_segments() {
    let fs = session(&["x.txt"]);
    assert_eq!(fs.resolve_path("a/../b"), "/b");
    assert_eq!(fs.resolve_path("/a/b/../c"), "/a/c");
    assert_eq!(fs.resolve_path("./a/./b"), "/a/b");
    assert_eq!(fs.resolve_path(""), "/");
    assert_eq!(fs.resolve_path("a//b"), "/a/b");
}

#[test]
fn normalize_path_walks_from_the_root() {
    let fs = session(&["x.txt"]);
    assert_eq!(fs.normalize_path("/a/b/../c"), "/a/c");
    assert_eq!(fs.normalize_path("a/.."), "");
    assert_eq!(fs.normalize_path("../a"), "/a");
}

#[test]
fn root_listing_splits_dirs_and_files() {
    let fs = session(&["a.txt", "sub\\b.txt", "sub\\c\\d.txt", "zoo.dat"]);
    let (dirs, files) = fs.get_entries_at_path("");
    assert_eq!(dirs, vec!["sub".to_string()]);
    let names: Vec<&str> = files.iter().map(|f| f.file_name.as_str()).collect();
    assert_eq!(names, vec!["a.txt", "zoo.dat"]);
}

#[test]
fn listings_sort_case_insensitively() {
    let fs = session(&["B.txt", "a.txt", "C.txt", "Dir2\\x", "dir1\\y", "DIR3\\z"]);
    let (dirs, files) = fs.get_entries_at_path("/");
    assert_eq!(
        dirs,
        vec!["dir1".to_string(), "Dir2".to_string(), "DIR3".to_string()]
    );
    let names: Vec<&str> = files.iter().map(|f| f.file_name.as_str()).collect();
    assert_eq!(names, vec!["a.txt", "B.txt", "C.txt"]);
}

#[test]
fn nested_listing_needs_segment_alignment() {
    // "abc\..." must not show up under the directory "ab"
    let fs = session(&["ab\\in.txt", "abc\\out.txt"]);
    let (dirs, files) = fs.get_entries_at_path("ab");
    assert!(dirs.is_empty());
    let names: Vec<&str> = files.iter().map(|f| f.file_name.as_str()).collect();
    assert_eq!(names, vec!["ab\\in.txt"]);
}

#[test]
fn change_directory_checks_existence() {
    let mut fs = session(&["a.txt", "sub\\b.txt"]);
    assert!(matches!(fs.change_directory("nope"), Err(InputError::NotFound)));
    assert_eq!(fs.current_path, "/");
    fs.change_directory("sub").unwrap();
    assert_eq!(fs.current_path, "/sub");
    fs.change_directory("..").unwrap();
    assert_eq!(fs.current_path, "/");
    // resolution alone is syntactic, but cd demands the directory exists
    assert!(matches!(fs.change_directory("a.txt"), Err(InputError::NotFound)));
    fs.change_directory("/").unwrap();
    assert_eq!(fs.current_path, "/");
}

#[test]
fn find_all_files_under_a_path() {
    let fs = session(&["a.txt", "sub\\b.txt", "sub\\c\\d.txt", "subx\\e.txt"]);
    let all = fs.find_all_files_in_path("");
    assert_eq!(all.len(), 4);
    let under = fs.find_all_files_in_path("sub");
    let names: Vec<&str> = under.iter().map(|f| f.file_name.as_str()).collect();
    assert_eq!(names, vec!["sub\\b.txt", "sub\\c\\d.txt"]);
}

#[test]
fn find_by_pattern_prefixes_the_current_path() {
    let mut fs = session(&["a.xml", "sub\\b.xml", "sub\\c.txt"]);
    let hits = fs.find_by_pattern("*.xml");
    let names: Vec<&str> = hits.iter().map(|f| f.file_name.as_str()).collect();
    assert_eq!(names, vec!["a.xml", "sub\\b.xml"]);
    fs.change_directory("sub").unwrap();
    let hits = fs.find_by_pattern("*");
    let names: Vec<&str> = hits.iter().map(|f| f.file_name.as_str()).collect();
    assert_eq!(names, vec!["sub\\b.xml", "sub\\c.txt"]);
    let hits = fs.find_by_pattern("/a.xml");
    let names: Vec<&str> = hits.iter().map(|f| f.file_name.as_str()).collect();
    assert_eq!(names, vec!["a.xml"]);
}

#[test]
fn find_by_name_reports_files_and_directories() {
    let fs = session(&["data\\app.jpg", "other\\app.jpg", "app.jpg", "app.jpg\\inner.txt"]);
    let (dirs, files) = fs.find_by_name("app.jpg");
    // every matching path component counts as a directory hit, the final
    // one included, exactly as the matching files count as file hits
    assert_eq!(
        dirs,
        vec![
            "app.jpg".to_string(),
            "data\\app.jpg".to_string(),
            "other\\app.jpg".to_string()
        ]
    );
    let names: Vec<&str> = files.iter().map(|f| f.file_name.as_str()).collect();
    assert_eq!(names, vec!["data\\app.jpg", "other\\app.jpg", "app.jpg"]);
}

#[test]
fn find_by_name_within_the_current_directory() {
    let mut fs = session(&["data\\app.jpg", "other\\app.jpg"]);
    fs.change_directory("data").unwrap();
    let (dirs, files) = fs.find_by_name("app.jpg");
    assert_eq!(dirs, vec!["data\\app.jpg".to_string()]);
    let names: Vec<&str> = files.iter().map(|f| f.file_name.as_str()).collect();
    assert_eq!(names, vec!["data\\app.jpg"]);
}

#[test]
fn end_to_end_pack_decode_browse() {
    // pack a directory holding a.txt (3 bytes) and sub/b.txt (5 bytes)
    let names = vec!["a.txt".to_string(), "sub\\b.txt".to_string()];
    let sizes = vec![3u64, 5u64];
    let infos = build_file_infos(&names, &sizes).unwrap();
    let mut pak = PakInfo::new();
    pak.file_info_library = infos;
    pak.compress = Some(false);
    let payloads = vec![b"abc".to_vec(), b"hello".to_vec()];
    let mut archive = encode_pak(&pak, &payloads).unwrap();
    crypt_data(&mut archive);

    // decode it back, through the obfuscation layer
    assert!(detect_encryption(&archive));
    crypt_data(&mut archive);
    let (decoded, header_size) = parse_pak_info(&archive).unwrap();
    let extracted =
        pvz_pak_tool::extract_payloads(&archive, header_size, &decoded.file_info_library).unwrap();
    assert_eq!(extracted, payloads);

    // browse it
    let mut fs = PakFileSystem::new(decoded.file_info_library);
    let (dirs, files) = fs.get_entries_at_path("/");
    assert_eq!(dirs, vec!["sub".to_string()]);
    let file_names: Vec<&str> = files.iter().map(|f| f.file_name.as_str()).collect();
    assert_eq!(file_names, vec!["a.txt"]);
    fs.change_directory("sub").unwrap();
    let (sub_dirs, sub_files) = fs.get_entries_at_path(".");
    assert!(sub_dirs.is_empty());
    let sub_names: Vec<&str> = sub_files.iter().map(|f| f.file_name.as_str()).collect();
    assert_eq!(sub_names, vec!["sub\\b.txt"]);
}

#[test]
fn current_entries_follow_the_session() {
    let mut fs = session(&["a.txt", "sub\\b.txt"]);
    let (dirs, files) = fs.get_current_entries();
    assert_eq!(dirs, vec!["sub".to_string()]);
    assert_eq!(files.len(), 1);
    fs.change_directory("sub").unwrap();
    let (dirs, files) = fs.get_current_entries();
    assert!(dirs.is_empty());
    assert_eq!(files[0].file_name, "sub\\b.txt");
}
