use iso_library::error::AppError;
use iso_library::scanner::{
    scan_directories, scan_entry, validate_directory, DirEntryFacts, DirectoryProbe, IsoFile,
    MIN_ARCHIVE_SIZE_BYTES, MIN_ISO_SIZE_BYTES,
};

fn probe(is_absolute: bool, canonical: Option<&str>, is_dir: bool) -> DirectoryProbe {
    DirectoryProbe { is_absolute, canonical: canonical.map(|c| c.to_string()), is_dir }
}

fn file(path: &str, name: &str) -> IsoFile {
    IsoFile {
        path: path.to_string(),
        file_name: name.to_string(),
        size_bytes: 40_000,
        extension: "iso".to_string(),
    }
}

fn entry(name: &str, ext: &str, size: Option<u64>) -> DirEntryFacts {
    DirEntryFacts {
        path: format!("/games/{}", name),
        file_name: name.to_string(),
        extension: ext.to_string(),
        is_file: true,
        size_bytes: size,
    }
}

#[test]
fn relative_path_is_forbidden() {
    assert_eq!(
        validate_directory(&probe(false, Some("/x"), true)),
        Err(AppError::ForbiddenPath("Le chemin doit être absolu".to_string()))
    );
}

#[test]
fn unresolved_or_non_directory_path_is_invalid() {
    assert_eq!(validate_directory(&probe(true, None, false)), Err(AppError::InvalidDirectory));
    assert_eq!(validate_directory(&probe(true, Some("/a"), false)), Err(AppError::InvalidDirectory));
}

#[test]
fn system_directories_are_forbidden_case_aside() {
    assert_eq!(
        validate_directory(&probe(true, Some(r"c:\windows\system32"), true)),
        Err(AppError::ForbiddenPath(r"C:\Windows".to_string()))
    );
    assert_eq!(
        validate_directory(&probe(true, Some(r"C:\PROGRAM FILES (X86)\Steam"), true)),
        Err(AppError::ForbiddenPath(r"C:\Program Files".to_string()))
    );
    assert_eq!(
        validate_directory(&probe(true, Some(r"C:\ProgramData\Microsoft\x"), true)),
        Err(AppError::ForbiddenPath(r"C:\ProgramData\Microsoft".to_string()))
    );
}

#[test]
fn verbatim_windows_paths_are_forbidden_too() {
    assert_eq!(
        validate_directory(&probe(true, Some(r"\\?\C:\Windows\System32"), true)),
        Err(AppError::ForbiddenPath(r"C:\Windows".to_string()))
    );
    assert_eq!(
        validate_directory(&probe(true, Some(r"\\?\c:\programdata\microsoft"), true)),
        Err(AppError::ForbiddenPath(r"C:\ProgramData\Microsoft".to_string()))
    );
    assert_eq!(
        validate_directory(&probe(true, Some(r"\\?\D:\Jeux"), true)),
        Ok(r"\\?\D:\Jeux".to_string())
    );
    assert_eq!(
        validate_directory(&probe(true, Some(r"\\?\UNC\C:\Windows"), true)),
        Ok(r"\\?\UNC\C:\Windows".to_string())
    );
}

#[test]
fn ordinary_directory_is_accepted() {
    assert_eq!(validate_directory(&probe(true, Some("/home/me/Jeux"), true)), Ok("/home/me/Jeux".to_string()));
    assert_eq!(validate_directory(&probe(true, Some(r"D:\Windows"), true)), Ok(r"D:\Windows".to_string()));
}

#[test]
fn entry_needs_supported_extension_in_any_case() {
    let f = scan_entry(entry("Halo.ISO", "ISO", Some(MIN_ISO_SIZE_BYTES))).unwrap();
    assert_eq!(f.extension, "iso");
    assert_eq!(f.file_name, "Halo.ISO");
    assert_eq!(f.path, "/games/Halo.ISO");
    assert_eq!(f.size_bytes, MIN_ISO_SIZE_BYTES);
    assert_eq!(scan_entry(entry("a.Zip", "Zip", Some(2048))).unwrap().extension, "zip");
    assert_eq!(scan_entry(entry("a.7Z", "7Z", Some(2048))).unwrap().extension, "7z");
    assert!(scan_entry(entry("a.txt", "txt", Some(1 << 20))).is_none());
    assert!(scan_entry(entry("a", "", Some(1 << 20))).is_none());
}

#[test]
fn entry_needs_minimum_size_for_its_kind() {
    assert!(scan_entry(entry("a.iso", "iso", Some(MIN_ISO_SIZE_BYTES - 1))).is_none());
    assert!(scan_entry(entry("a.iso", "iso", Some(2048))).is_none());
    assert!(scan_entry(entry("a.zip", "zip", Some(MIN_ARCHIVE_SIZE_BYTES))).is_some());
    assert!(scan_entry(entry("a.zip", "zip", Some(MIN_ARCHIVE_SIZE_BYTES - 1))).is_none());
    assert!(scan_entry(entry("a.zip", "zip", None)).is_none());
}

#[test]
fn entry_needs_to_be_a_named_file() {
    let mut dir = entry("a.iso", "iso", Some(1 << 20));
    dir.is_file = false;
    assert!(scan_entry(dir).is_none());
    assert!(scan_entry(entry("", "iso", Some(1 << 20))).is_none());
}

#[test]
fn scans_are_merged_deduplicated_and_sorted() {
    let first = vec![file("/a/zelda.iso", "zelda.iso"), file("/a/Halo.iso", "Halo.iso")];
    let second = vec![file("/a/zelda.iso", "zelda.iso"), file("/b/alan.iso", "alan.iso")];
    let merged = scan_directories(vec![first, second]);
    let names: Vec<&str> = merged.iter().map(|f| f.file_name.as_str()).collect();
    assert_eq!(names, vec!["Halo.iso", "alan.iso", "zelda.iso"]);
}

#[test]
fn files_of_one_name_keep_their_order() {
    let dirs = vec![vec![file("/b/x.iso", "x.iso"), file("/a/x.iso", "x.iso")], vec![file("/c/w.iso", "w.iso")]];
    let merged = scan_directories(dirs);
    let paths: Vec<&str> = merged.iter().map(|f| f.path.as_str()).collect();
    assert_eq!(paths, vec!["/c/w.iso", "/b/x.iso", "/a/x.iso"]);
    assert!(scan_directories(vec![]).is_empty());
}

#[test]
fn names_sort_as_strings_do() {
    let names = ["é.iso", "e.iso", "Z.iso", "ab.iso", "a.iso", "b", ""];
    let files: Vec<IsoFile> = names.iter().enumerate().map(|(i, n)| file(&format!("/{}", i), n)).collect();
    let merged = scan_directories(vec![files]);
    let got: Vec<String> = merged.iter().map(|f| f.file_name.clone()).collect();
    let mut want: Vec<String> = names.iter().map(|n| n.to_string()).collect();
    want.sort();
    assert_eq!(got, want);
}

#[test]
fn listing_a_directory_twice_changes_nothing() {
    let a = vec![file("/a/zelda.iso", "zelda.iso"), file("/a/halo.iso", "halo.iso")];
    let b = vec![file("/b/doom.iso", "doom.iso")];
    let once = scan_directories(vec![a.clone(), b.clone()]);
    let twice = scan_directories(vec![a.clone(), b.clone(), a.clone()]);
    assert_eq!(once, twice);
}

#[test]
fn swapping_directories_keeps_the_paths() {
    let a = vec![file("/a/zelda.iso", "zelda.iso"), file("/s/x.iso", "x.iso")];
    let b = vec![file("/b/doom.iso", "doom.iso"), file("/s/x.iso", "x.iso")];
    let one = scan_directories(vec![a.clone(), b.clone()]);
    let other = scan_directories(vec![b, a]);
    let mut p1: Vec<String> = one.iter().map(|f| f.path.clone()).collect();
    let mut p2: Vec<String> = other.iter().map(|f| f.path.clone()).collect();
    p1.sort();
    p2.sort();
    assert_eq!(p1, p2);
    let mut f1 = one.clone();
    let mut f2 = other.clone();
    f1.sort_by(|x, y| x.path.cmp(&y.path));
    f2.sort_by(|x, y| x.path.cmp(&y.path));
    assert_eq!(f1, f2);
}

#[test]
fn scanning_one_directory_twice_is_scanning_it_once() {
    let d = vec![file("/d/b.iso", "b.iso"), file("/d/a.iso", "a.iso")];
    assert_eq!(scan_directories(vec![d.clone(), d.clone()]), scan_directories(vec![d]));
}
