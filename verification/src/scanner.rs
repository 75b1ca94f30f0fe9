use vstd::prelude::*;

use crate::chars::{
    chars_lt, chars_of, chars_start_with, has_prefix, string_of, lemma_text_lt_irreflexive,
    lemma_text_lt_total, lemma_text_lt_transitive, lowercase, text_lt, to_lowercase,
};
use crate::error::AppError;

verus! {

/// How deep below a library directory the scan goes.
pub const MAX_DEPTH: usize = 8;

/// Smallest size of a disc image that the scan keeps: 32 KiB.
pub const MIN_ISO_SIZE_BYTES: u64 = 32 * 1024;

/// Smallest size of an archive that the scan keeps: 1 KiB (an empty zip is about 22 bytes).
pub const MIN_ARCHIVE_SIZE_BYTES: u64 = 1024;

/// A game file found by a scan.
#[derive(Debug, Clone, PartialEq, Eq)]
pub struct IsoFile {
    pub path: String,
    pub file_name: String,
    pub size_bytes: u64,
    /// The extension in lowercase: `iso`, `zip` or `7z`.
    pub extension: String,
}

// ---------------------------------------------------------------------------
// Library directories
// ---------------------------------------------------------------------------

/// What the file system reports about a directory that the user wants to add.
pub struct DirectoryProbe {
    /// Whether the path, as given, is absolute.
    pub is_absolute: bool,
    /// The canonical form of the path, when the file system could resolve it.
    pub canonical: Option<String>,
    /// Whether the canonical path is a directory.
    pub is_dir: bool,
}

/// The system directories of Windows in which no library may lie.
pub open spec fn forbidden_prefixes() -> Seq<Seq<char>> {
    seq![
        "C:\\Windows"@,
        "C:\\Program Files"@,
        "C:\\Program Files (x86)"@,
        "C:\\ProgramData\\Microsoft"@,
    ]
}

/// The reason given when a path is not absolute.
pub open spec fn not_absolute_message() -> Seq<char> {
    "Le chemin doit être absolu"@
}

/// The start `\\?\` of a verbatim Windows path (as `canonicalize` gives on Windows).
pub open spec fn verbatim_start() -> Seq<char> {
    seq!['\\', '\\', '?', '\\']
}

/// The start `\\?\UNC\` of a verbatim Windows network path.
pub open spec fn verbatim_unc_start() -> Seq<char> {
    seq!['\\', '\\', '?', '\\', 'U', 'N', 'C', '\\']
}

/// A path in its ordinary form: `\\?\C:\x` is `C:\x`, and `\\?\UNC\server\x` is `\\server\x`.
pub open spec fn without_verbatim_prefix(p: Seq<char>) -> Seq<char> {
    if has_prefix(p, verbatim_unc_start()) {
        seq!['\\', '\\'] + p.skip(8)
    } else if has_prefix(p, verbatim_start()) {
        p.skip(4)
    } else {
        p
    }
}

/// Gives a path its ordinary form, without a verbatim `\\?\` or `\\?\UNC\` start.
pub fn strip_verbatim_prefix(p: &[char]) -> (r: Vec<char>)
    ensures
        r@ == without_verbatim_prefix(p@),
{
    let unc = vec!['\\', '\\', '?', '\\', 'U', 'N', 'C', '\\'];
    let plain = vec!['\\', '\\', '?', '\\'];
    assert(unc@ =~= verbatim_unc_start());
    assert(plain@ =~= verbatim_start());
    let mut r: Vec<char> = Vec::new();
    let start: usize = if chars_start_with(p, &unc) {
        r.push('\\');
        r.push('\\');
        8
    } else if chars_start_with(p, &plain) {
        4
    } else {
        0
    };
    let ghost head = r@;
    let mut k: usize = start;
    while k < p.len()
        invariant
            start <= k <= p@.len(),
            r@ == head + p@.subrange(start as int, k as int),
        decreases p@.len() - k,
    {
        r.push(p[k]);
        k += 1;
        assert(r@ =~= head + p@.subrange(start as int, k as int));
    }
    assert(p@.subrange(start as int, p@.len() as int) =~= p@.skip(start as int));
    assert(p@.skip(0) =~= p@);
    assert(head.len() == 0 ==> head + p@.skip(start as int) =~= p@.skip(start as int));
    r
}

/// The texts of some character rows.
pub open spec fn rows_of(v: Seq<Vec<char>>) -> Seq<Seq<char>> {
    v.map_values(|row: Vec<char>| row@)
}

/// `prefixes[i]` is the first of `prefixes` that starts `path`.
pub open spec fn is_first_prefix(path: Seq<char>, prefixes: Seq<Seq<char>>, i: int) -> bool {
    &&& 0 <= i < prefixes.len()
    &&& has_prefix(path, prefixes[i])
    &&& forall|j: int| 0 <= j < i ==> !has_prefix(path, #[trigger] prefixes[j])
}

/// Finds the first of `prefixes` that starts `path` (both already in lowercase).
pub fn first_matching_prefix(path: &[char], prefixes: &Vec<Vec<char>>) -> (r: Option<usize>)
    ensures
        match r {
            Some(i) => is_first_prefix(path@, rows_of(prefixes@), i as int),
            None => forall|j: int|
                0 <= j < prefixes@.len() ==> !has_prefix(path@, #[trigger] rows_of(prefixes@)[j]),
        },
{
    let mut i: usize = 0;
    while i < prefixes.len()
        invariant
            i <= prefixes@.len(),
            forall|j: int| 0 <= j < i ==> !has_prefix(path@, #[trigger] rows_of(prefixes@)[j]),
        decreases prefixes@.len() - i,
    {
        if chars_start_with(path, &prefixes[i]) {
            assert(rows_of(prefixes@)[i as int] == prefixes@[i as int]@);
            return Some(i);
        }
        i += 1;
    }
    None
}

/// `canonical`, in its ordinary form, lies under the `i`-th forbidden directory, case aside.
pub open spec fn is_under_forbidden(canonical: Seq<char>, i: int) -> bool {
    has_prefix(lowercase(without_verbatim_prefix(canonical)), lowercase(forbidden_prefixes()[i]))
}

/// The `i`-th forbidden directory is the first one under which `canonical` lies.
pub open spec fn is_first_forbidden(canonical: Seq<char>, i: int) -> bool {
    &&& 0 <= i < forbidden_prefixes().len()
    &&& is_under_forbidden(canonical, i)
    &&& forall|j: int| 0 <= j < i ==> !is_under_forbidden(canonical, j)
}

/// `r` is the verdict on a directory: the path must be absolute, resolve to a directory,
/// and not lie under a system directory (its verbatim `\\?\` start aside, case aside);
/// the canonical path is kept.
pub open spec fn is_directory_verdict(probe: DirectoryProbe, r: Result<String, AppError>) -> bool {
    if !probe.is_absolute {
        r matches Err(AppError::ForbiddenPath(m)) && m@ == not_absolute_message()
    } else if probe.canonical is None || !probe.is_dir {
        r == Err::<String, AppError>(AppError::InvalidDirectory)
    } else if exists|i: int| is_first_forbidden(probe.canonical->0@, i) {
        r matches Err(AppError::ForbiddenPath(m)) && m@ == forbidden_prefixes()[choose|i: int|
            is_first_forbidden(probe.canonical->0@, i)]
    } else {
        r matches Ok(p) && p@ == probe.canonical->0@
    }
}

/// Checks a directory before it joins the library. Returns its canonical path.
pub fn validate_directory(probe: &DirectoryProbe) -> (r: Result<String, AppError>)
    ensures
        is_directory_verdict(*probe, r),
{
    if !probe.is_absolute {
        return Err(AppError::ForbiddenPath(String::from_str("Le chemin doit être absolu")));
    }
    let canonical = match &probe.canonical {
        Some(c) => c,
        None => {
            return Err(AppError::InvalidDirectory);
        },
    };
    if !probe.is_dir {
        return Err(AppError::InvalidDirectory);
    }
    let ordinary = string_of(&strip_verbatim_prefix(&chars_of(canonical.as_str())));
    let lowered = chars_of(to_lowercase(ordinary.as_str()).as_str());
    let prefixes = vec![
        "C:\\Windows",
        "C:\\Program Files",
        "C:\\Program Files (x86)",
        "C:\\ProgramData\\Microsoft",
    ];
    let mut lowered_prefixes: Vec<Vec<char>> = Vec::new();
    let mut i: usize = 0;
    while i < prefixes.len()
        invariant
            prefixes@.len() == forbidden_prefixes().len(),
            forall|k: int| 0 <= k < prefixes@.len() ==> #[trigger] prefixes@[k]@ == forbidden_prefixes()[k],
            i <= prefixes@.len(),
            lowered_prefixes@.len() == i,
            forall|k: int| 0 <= k < i ==> #[trigger] rows_of(lowered_prefixes@)[k] == lowercase(
                forbidden_prefixes()[k],
            ),
        decreases prefixes@.len() - i,
    {
        let ghost before = lowered_prefixes@;
        let row = chars_of(to_lowercase(prefixes[i]).as_str());
        lowered_prefixes.push(row);
        assert forall|k: int| 0 <= k < i + 1 implies #[trigger] rows_of(lowered_prefixes@)[k]
            == lowercase(forbidden_prefixes()[k]) by {
            if k < i {
                assert(lowered_prefixes@[k] == before[k]);
                assert(rows_of(before)[k] == before[k]@);
            } else {
                assert(lowered_prefixes@[k] == row);
            }
        }
        i += 1;
    }
    assert(lowered@ == lowercase(without_verbatim_prefix(canonical@)));
    assert forall|k: int| 0 <= k < 4 implies #[trigger] is_under_forbidden(canonical@, k) == has_prefix(
        lowered@,
        rows_of(lowered_prefixes@)[k],
    ) by {
        assert(rows_of(lowered_prefixes@)[k] == lowercase(forbidden_prefixes()[k]));
    }
    match first_matching_prefix(&lowered, &lowered_prefixes) {
        Some(k) => {
            assert(is_first_forbidden(canonical@, k as int));
            assert forall|k2: int| is_first_forbidden(canonical@, k2) implies k2 == k by {
                if k2 < k {
                    assert(!has_prefix(lowered@, rows_of(lowered_prefixes@)[k2]));
                } else if k2 > k {
                    assert(!is_under_forbidden(canonical@, k as int));
                }
            }
            Err(AppError::ForbiddenPath(String::from_str(prefixes[k])))
        },
        None => {
            assert forall|k2: int| !is_first_forbidden(canonical@, k2) by {
                if 0 <= k2 < 4 {
                    assert(!has_prefix(lowered@, rows_of(lowered_prefixes@)[k2]));
                }
            }
            Ok(canonical.clone())
        },
    }
}

// ---------------------------------------------------------------------------
// Scanning
// ---------------------------------------------------------------------------

/// What a directory walk reports about one entry.
pub struct DirEntryFacts {
    /// The canonical path of the entry, or the path as walked when it cannot be resolved.
    pub path: String,
    /// The file name; empty when it is missing or not valid UTF-8.
    pub file_name: String,
    /// The extension as found; empty when it is missing or not valid UTF-8.
    pub extension: String,
    pub is_file: bool,
    /// The size, when the metadata could be read.
    pub size_bytes: Option<u64>,
}

/// The extensions of game files (in lowercase).
pub open spec fn supported_extensions() -> Seq<Seq<char>> {
    seq!["iso"@, "zip"@, "7z"@]
}

/// The smallest size kept for a file with the (lowercase) extension `ext`.
pub open spec fn min_size_for(ext: Seq<char>) -> u64 {
    if ext == "iso"@ {
        MIN_ISO_SIZE_BYTES
    } else {
        MIN_ARCHIVE_SIZE_BYTES
    }
}

/// An entry whose extension in lowercase is `ext` is a game file: a regular file with a
/// supported extension, readable metadata, at least the smallest size for its kind, and a name.
pub open spec fn is_game_file_with(e: DirEntryFacts, ext: Seq<char>) -> bool {
    &&& e.is_file
    &&& supported_extensions().contains(ext)
    &&& e.size_bytes matches Some(size) && size >= min_size_for(ext)
    &&& e.file_name@.len() > 0
}

/// An entry is a game file, its extension taken case aside.
pub open spec fn is_game_file(e: DirEntryFacts) -> bool {
    is_game_file_with(e, lowercase(e.extension@))
}

/// Decides whether a walked entry, whose extension in lowercase is `lowered_extension`, is a
/// game file, and describes it.
pub fn accept_entry(entry: DirEntryFacts, lowered_extension: String) -> (r: Option<IsoFile>)
    ensures
        r is Some <==> is_game_file_with(entry, lowered_extension@),
        r matches Some(f) ==> {
            &&& f.path == entry.path
            &&& f.file_name == entry.file_name
            &&& entry.size_bytes == Some(f.size_bytes)
            &&& f.extension == lowered_extension
        },
{
    if !entry.is_file {
        return None;
    }
    let ext = lowered_extension;
    let iso = String::from_str("iso");
    let zip = String::from_str("zip");
    let seven_z = String::from_str("7z");
    let is_iso = ext == iso;
    if !(is_iso || ext == zip || ext == seven_z) {
        assert(!supported_extensions().contains(ext@)) by {
            if supported_extensions().contains(ext@) {
                let k = choose|k: int| 0 <= k < 3 && supported_extensions()[k] == ext@;
            }
        }
        return None;
    }
    assert(supported_extensions()[0] == iso@);
    assert(supported_extensions()[1] == zip@);
    assert(supported_extensions()[2] == seven_z@);
    let size = match entry.size_bytes {
        Some(size) => size,
        None => {
            return None;
        },
    };
    let min_size = if is_iso {
        MIN_ISO_SIZE_BYTES
    } else {
        MIN_ARCHIVE_SIZE_BYTES
    };
    if size < min_size {
        return None;
    }
    if entry.file_name.as_str().is_empty() {
        return None;
    }
    Some(IsoFile { path: entry.path, file_name: entry.file_name, size_bytes: size, extension: ext })
}

/// Decides whether a walked entry is a game file, and describes it.
pub fn scan_entry(entry: DirEntryFacts) -> (r: Option<IsoFile>)
    ensures
        r is Some <==> is_game_file(entry),
        r matches Some(f) ==> {
            &&& f.path == entry.path
            &&& f.file_name == entry.file_name
            &&& entry.size_bytes == Some(f.size_bytes)
            &&& f.extension@ == lowercase(entry.extension@)
        },
{
    let ext = to_lowercase(entry.extension.as_str());
    accept_entry(entry, ext)
}

/// The files that each directory's scan found.
pub open spec fn listings(per_dir: Seq<Vec<IsoFile>>) -> Seq<Seq<IsoFile>> {
    per_dir.map_values(|d: Vec<IsoFile>| d@)
}

/// Some file of `files` lies at `path`.
pub open spec fn has_path(files: Seq<IsoFile>, path: Seq<char>) -> bool {
    exists|k: int| 0 <= k < files.len() && #[trigger] files[k].path@ == path
}

/// The files in order, keeping only the first one found at each path.
pub open spec fn first_of_each_path(files: Seq<IsoFile>) -> Seq<IsoFile>
    decreases files.len(),
{
    if files.len() == 0 {
        Seq::empty()
    } else {
        let kept = first_of_each_path(files.drop_last());
        if has_path(files.drop_last(), files.last().path@) {
            kept
        } else {
            kept.push(files.last())
        }
    }
}

/// File `a` sorts before file `b`: a smaller name, or the same name and an earlier place.
pub open spec fn sorts_before(files: Seq<IsoFile>, a: int, b: int) -> bool {
    ||| text_lt(files[a].file_name@, files[b].file_name@)
    ||| files[a].file_name@ == files[b].file_name@ && a < b
}

/// `order` lists the places of `files` sorted by name, files of one name in their order.
pub open spec fn is_name_order(files: Seq<IsoFile>, order: Seq<int>) -> bool {
    &&& order.len() == files.len()
    &&& forall|i: int| 0 <= i < order.len() ==> 0 <= #[trigger] order[i] < files.len()
    &&& forall|i: int, j: int|
        0 <= i < j < order.len() ==> sorts_before(files, #[trigger] order[i], #[trigger] order[j])
    &&& forall|c: int| 0 <= c < files.len() ==> #[trigger] order.contains(c)
}

/// `sorted` is `files` sorted by name (as `String` orders names), a stable sort.
pub open spec fn is_sorted_by_name(files: Seq<IsoFile>, sorted: Seq<IsoFile>) -> bool {
    exists|order: Seq<int>|
        #[trigger] is_name_order(files, order) && sorted.len() == files.len() && forall|i: int|
            0 <= i < sorted.len() ==> sorted[i] == files[order[i]]
}

/// What a scan of several directories finds: the files of all of them in order, a file met
/// twice at one path kept once, sorted by name.
pub open spec fn merged_scan(per_dir: Seq<Seq<IsoFile>>, r: Seq<IsoFile>) -> bool {
    is_sorted_by_name(first_of_each_path(per_dir.flatten()), r)
}

/// The path of every kept file is the path of one of the files.
proof fn lemma_kept_paths_come_from_files(files: Seq<IsoFile>)
    ensures
        forall|k: int|
            0 <= k < first_of_each_path(files).len() ==> has_path(
                files,
                #[trigger] first_of_each_path(files)[k].path@,
            ),
    decreases files.len(),
{
    if files.len() > 0 {
        let d = files.drop_last();
        lemma_kept_paths_come_from_files(d);
        let kept = first_of_each_path(d);
        let r = first_of_each_path(files);
        assert forall|k: int| 0 <= k < r.len() implies has_path(files, #[trigger] r[k].path@) by {
            if k < kept.len() {
                assert(r[k] == kept[k]);
                assert(has_path(d, kept[k].path@));
                let j = choose|j: int| 0 <= j < d.len() && #[trigger] d[j].path@ == kept[k].path@;
                assert(files[j] == d[j]);
            } else {
                assert(r[k] == files[files.len() - 1]);
            }
        }
    }
}

/// Every path of the files is the path of a kept file.
proof fn lemma_every_path_is_kept(files: Seq<IsoFile>)
    ensures
        forall|j: int|
            0 <= j < files.len() ==> has_path(first_of_each_path(files), #[trigger] files[j].path@),
    decreases files.len(),
{
    if files.len() > 0 {
        let d = files.drop_last();
        lemma_every_path_is_kept(d);
        let kept = first_of_each_path(d);
        let r = first_of_each_path(files);
        let last = files.last();
        assert forall|j: int| 0 <= j < files.len() implies has_path(r, #[trigger] files[j].path@) by {
            if j < files.len() - 1 {
                assert(files[j] == d[j]);
                assert(has_path(kept, d[j].path@));
                let k = choose|k: int| 0 <= k < kept.len() && #[trigger] kept[k].path@ == d[j].path@;
                assert(r[k] == kept[k]);
            } else if has_path(d, last.path@) {
                let j0 = choose|j0: int| 0 <= j0 < d.len() && #[trigger] d[j0].path@ == last.path@;
                assert(has_path(kept, d[j0].path@));
                let k = choose|k: int| 0 <= k < kept.len() && #[trigger] kept[k].path@ == d[j0].path@;
                assert(r[k] == kept[k]);
            } else {
                assert(r[kept.len() as int] == last);
            }
        }
    }
}

/// Whether some file of `files` lies at `path`.
fn path_known(files: &Vec<IsoFile>, path: &String) -> (b: bool)
    ensures
        b == has_path(files@, path@),
{
    let mut m: usize = 0;
    while m < files.len()
        invariant
            m <= files@.len(),
            forall|q: int| 0 <= q < m ==> files@[q].path@ != path@,
        decreases files@.len() - m,
    {
        if files[m].path == *path {
            return true;
        }
        m += 1;
    }
    false
}

/// Merges the files that the scans of several directories found: all of them in order,
/// a path found twice kept once (the first time), sorted by file name; files of one name
/// keep their order.
pub fn scan_directories(per_dir: Vec<Vec<IsoFile>>) -> (r: Vec<IsoFile>)
    ensures
        merged_scan(listings(per_dir@), r@),
{
    let ghost dirs = listings(per_dir@);
    // All files, directory after directory.
    let mut rest = per_dir;
    let mut all: Vec<IsoFile> = Vec::new();
    let ghost mut k: int = 0;
    assert(dirs.take(0) =~= Seq::<Seq<IsoFile>>::empty());
    while rest.len() > 0
        invariant
            0 <= k <= dirs.len(),
            listings(rest@) == dirs.skip(k),
            all@ == dirs.take(k).flatten(),
        decreases rest@.len(),
    {
        assert(listings(rest@).len() == rest@.len());
        assert(k < dirs.len());
        assert(listings(rest@)[0] == dirs.skip(k)[0]);
        let ghost before_rest = rest@;
        let mut d = rest.remove(0);
        all.append(&mut d);
        proof {
            dirs.take(k).lemma_flatten_push(dirs[k]);
            assert(dirs.take(k + 1) =~= dirs.take(k).push(dirs[k]));
            assert forall|q: int|
                0 <= q < rest@.len() implies #[trigger] listings(rest@)[q]
                == dirs.skip(k + 1)[q] by {
                assert(rest@[q] == before_rest[q + 1]);
                assert(listings(before_rest)[q + 1] == dirs.skip(k)[q + 1]);
            }
            assert(listings(rest@) =~= dirs.skip(k + 1));
            k = k + 1;
        }
    }
    assert(dirs.skip(k).len() == 0);
    assert(dirs.take(k) =~= dirs);
    let ghost every = all@;
    // The first file at each path.
    let mut unique: Vec<IsoFile> = Vec::new();
    let ghost mut i: int = 0;
    assert(every.take(0) =~= Seq::<IsoFile>::empty());
    assert(every.skip(0) =~= every);
    while all.len() > 0
        invariant
            0 <= i <= every.len(),
            all@ == every.skip(i),
            unique@ == first_of_each_path(every.take(i)),
        decreases all@.len(),
    {
        let f = all.remove(0);
        assert(f == every[i]);
        let ghost seen = every.take(i + 1);
        assert(seen.drop_last() =~= every.take(i));
        assert(seen.last() == f);
        proof {
            lemma_kept_paths_come_from_files(every.take(i));
            lemma_every_path_is_kept(every.take(i));
        }
        if path_known(&unique, &f.path) {
            let ghost k = choose|k: int| 0 <= k < unique@.len() && #[trigger] unique@[k].path@ == f.path@;
            assert(has_path(every.take(i), unique@[k].path@));
            assert(first_of_each_path(seen) == unique@);
        } else {
            assert(!has_path(every.take(i), f.path@)) by {
                if has_path(every.take(i), f.path@) {
                    let j = choose|j: int| 0 <= j < every.take(i).len() && #[trigger] every.take(i)[j].path@ == f.path@;
                    assert(has_path(unique@, every.take(i)[j].path@));
                }
            }
            unique.push(f);
        }
        proof {
            assert(all@ =~= every.skip(i + 1));
            i = i + 1;
        }
    }
    assert(every.skip(i).len() == 0);
    assert(every.take(i) =~= every);
    let ghost files = unique@;
    // A stable insertion sort by name.
    let mut sorted: Vec<IsoFile> = Vec::new();
    let ghost mut origin: Seq<int> = Seq::empty();
    let ghost mut n: int = 0;
    assert(files.skip(0) =~= files);
    while unique.len() > 0
        invariant
            0 <= n <= files.len(),
            unique@ == files.skip(n),
            sorted@.len() == origin.len(),
            origin.len() == n,
            forall|q: int| 0 <= q < origin.len() ==> 0 <= #[trigger] origin[q] < n,
            forall|q: int| 0 <= q < origin.len() ==> #[trigger] sorted@[q] == files[origin[q]],
            forall|a: int, b: int|
                0 <= a < b < origin.len() ==> sorts_before(files, #[trigger] origin[a], #[trigger] origin[b]),
            forall|c: int| 0 <= c < n ==> #[trigger] origin.contains(c),
        decreases unique@.len(),
    {
        let f = unique.remove(0);
        assert(f == files[n]);
        let name = chars_of(f.file_name.as_str());
        let mut p: usize = sorted.len();
        while p > 0 && chars_lt(&name, &chars_of(sorted[p - 1].file_name.as_str()))
            invariant
                p <= sorted@.len(),
                name@ == f.file_name@,
                forall|q: int| p <= q < sorted@.len() ==> text_lt(f.file_name@, #[trigger] sorted@[q].file_name@),
            decreases p,
        {
            p -= 1;
        }
        proof {
            assert forall|q: int| 0 <= q < p implies sorts_before(files, #[trigger] origin[q], n) by {
                let last = (p - 1) as int;
                let nq = sorted@[q].file_name@;
                let nl = sorted@[last].file_name@;
                assert(!text_lt(f.file_name@, nl));
                if q < last {
                    assert(sorts_before(files, origin[q], origin[last]));
                }
                if text_lt(f.file_name@, nq) {
                    if q < last {
                        if text_lt(nq, nl) {
                            lemma_text_lt_transitive(f.file_name@, nq, nl);
                        }
                    }
                }
                if nq != f.file_name@ {
                    lemma_text_lt_total(nq, f.file_name@);
                }
            }
        }
        let ghost before = origin;
        sorted.insert(p, f);
        proof {
            origin = before.insert(p as int, n);
            assert forall|q: int| 0 <= q < origin.len() implies 0 <= #[trigger] origin[q] < n + 1 by {
                if q < p {
                    assert(origin[q] == before[q]);
                } else if q > p {
                    assert(origin[q] == before[q - 1]);
                }
            }
            assert forall|q: int| 0 <= q < origin.len() implies #[trigger] sorted@[q] == files[origin[q]] by {
                if q < p {
                    assert(origin[q] == before[q]);
                } else if q > p {
                    assert(origin[q] == before[q - 1]);
                }
            }
            assert forall|a: int, b: int|
                0 <= a < b < origin.len() implies sorts_before(files, #[trigger] origin[a], #[trigger] origin[b]) by {
                if b < p {
                    assert(origin[a] == before[a] && origin[b] == before[b]);
                } else if a > p {
                    assert(origin[a] == before[a - 1] && origin[b] == before[b - 1]);
                } else if a < p && b > p {
                    assert(origin[a] == before[a] && origin[b] == before[b - 1]);
                } else if a == p {
                    assert(origin[b] == before[b - 1]);
                    assert(sorted@[b] == files[before[b - 1]]);
                } else {
                    assert(origin[a] == before[a]);
                }
            }
            assert forall|c: int| 0 <= c < n + 1 implies #[trigger] origin.contains(c) by {
                if c == n {
                    assert(origin[p as int] == n);
                } else {
                    assert(before.contains(c));
                    let q = choose|q: int| 0 <= q < before.len() && before[q] == c;
                    if q < p {
                        assert(origin[q] == c);
                    } else {
                        assert(origin[q + 1] == c);
                    }
                }
            }
            assert(unique@ =~= files.skip(n + 1));
            n = n + 1;
        }
    }
    assert(files.skip(n).len() == 0);
    assert(is_name_order(files, origin));
    assert(dirs == listings(per_dir@));
    sorted
}


// ---------------------------------------------------------------------------
// Laws of the scan
// ---------------------------------------------------------------------------

/// Every kept file is one of the files, and no two kept files share a path.
proof fn lemma_first_of_each_path_distinct(files: Seq<IsoFile>)
    ensures
        forall|k: int|
            0 <= k < first_of_each_path(files).len() ==> files.contains(
                #[trigger] first_of_each_path(files)[k],
            ),
        forall|a: int, b: int|
            0 <= a < b < first_of_each_path(files).len() ==> (#[trigger] first_of_each_path(files)[a]).path@
                != (#[trigger] first_of_each_path(files)[b]).path@,
    decreases files.len(),
{
    if files.len() > 0 {
        let d = files.drop_last();
        lemma_first_of_each_path_distinct(d);
        lemma_kept_paths_come_from_files(d);
        let kept = first_of_each_path(d);
        let r = first_of_each_path(files);
        assert forall|k: int| 0 <= k < r.len() implies files.contains(#[trigger] r[k]) by {
            if k < kept.len() {
                assert(r[k] == kept[k]);
                assert(d.contains(kept[k]));
                let j = choose|j: int| 0 <= j < d.len() && d[j] == kept[k];
                assert(files[j] == d[j]);
            } else {
                assert(r[k] == files[files.len() - 1]);
            }
        }
        assert forall|a: int, b: int| 0 <= a < b < r.len() implies (#[trigger] r[a]).path@
            != (#[trigger] r[b]).path@ by {
            if b < kept.len() {
                assert(r[a] == kept[a] && r[b] == kept[b]);
            } else {
                assert(r[a] == kept[a]);
                assert(has_path(d, kept[a].path@));
            }
        }
    }
}

/// A scan keeps each path once: no two files of its result lie at the same path.
pub proof fn law_scan_paths_are_distinct(per_dir: Seq<Seq<IsoFile>>, r: Seq<IsoFile>)
    requires
        merged_scan(per_dir, r),
    ensures
        forall|a: int, b: int| 0 <= a < b < r.len() ==> (#[trigger] r[a]).path@ != (#[trigger] r[b]).path@,
{
    let files = first_of_each_path(per_dir.flatten());
    lemma_first_of_each_path_distinct(per_dir.flatten());
    let order = choose|order: Seq<int>|
        #[trigger] is_name_order(files, order) && r.len() == files.len() && forall|i: int|
            0 <= i < r.len() ==> r[i] == files[order[i]];
    assert forall|a: int, b: int| 0 <= a < b < r.len() implies (#[trigger] r[a]).path@
        != (#[trigger] r[b]).path@ by {
        let oa = order[a];
        let ob = order[b];
        assert(sorts_before(files, oa, ob));
        if oa == ob {
            lemma_text_lt_irreflexive(files[oa].file_name@);
        } else if oa < ob {
            assert(files[oa].path@ != files[ob].path@);
        } else {
            assert(files[ob].path@ != files[oa].path@);
        }
    }
}

/// A scan's result is sorted by file name.
pub proof fn law_scan_is_sorted_by_name(per_dir: Seq<Seq<IsoFile>>, r: Seq<IsoFile>)
    requires
        merged_scan(per_dir, r),
    ensures
        forall|a: int, b: int|
            0 <= a < b < r.len() ==> !text_lt((#[trigger] r[b]).file_name@, (#[trigger] r[a]).file_name@),
{
    let files = first_of_each_path(per_dir.flatten());
    let order = choose|order: Seq<int>|
        #[trigger] is_name_order(files, order) && r.len() == files.len() && forall|i: int|
            0 <= i < r.len() ==> r[i] == files[order[i]];
    assert forall|a: int, b: int| 0 <= a < b < r.len() implies !text_lt(
        (#[trigger] r[b]).file_name@,
        (#[trigger] r[a]).file_name@,
    ) by {
        let na = files[order[a]].file_name@;
        let nb = files[order[b]].file_name@;
        assert(sorts_before(files, order[a], order[b]));
        if text_lt(nb, na) {
            if text_lt(na, nb) {
                lemma_text_lt_transitive(na, nb, na);
            }
            lemma_text_lt_irreflexive(na);
        }
    }
}

/// A scan loses no path: every file that a directory listing holds has its path in the result,
/// and every file of the result is one that a listing holds.
pub proof fn law_scan_keeps_every_path(per_dir: Seq<Seq<IsoFile>>, r: Seq<IsoFile>)
    requires
        merged_scan(per_dir, r),
    ensures
        forall|j: int|
            0 <= j < per_dir.flatten().len() ==> has_path(r, #[trigger] per_dir.flatten()[j].path@),
        forall|k: int| 0 <= k < r.len() ==> per_dir.flatten().contains(#[trigger] r[k]),
{
    let all = per_dir.flatten();
    let files = first_of_each_path(all);
    lemma_every_path_is_kept(all);
    lemma_first_of_each_path_distinct(all);
    let order = choose|order: Seq<int>|
        #[trigger] is_name_order(files, order) && r.len() == files.len() && forall|i: int|
            0 <= i < r.len() ==> r[i] == files[order[i]];
    assert forall|j: int| 0 <= j < all.len() implies has_path(r, #[trigger] all[j].path@) by {
        assert(has_path(files, all[j].path@));
        let k = choose|k: int| 0 <= k < files.len() && #[trigger] files[k].path@ == all[j].path@;
        assert(order.contains(k));
        let i = choose|i: int| 0 <= i < order.len() && order[i] == k;
        assert(r[i].path@ == all[j].path@);
    }
    assert forall|k: int| 0 <= k < r.len() implies all.contains(#[trigger] r[k]) by {
        assert(r[k] == files[order[k]]);
    }
}


/// A file is in the concatenated listings exactly when it is in one of them.
proof fn lemma_flatten_has(xs: Seq<Seq<IsoFile>>, f: IsoFile)
    ensures
        xs.flatten().contains(f) <==> exists|k: int, j: int|
            0 <= k < xs.len() && 0 <= j < xs[k].len() && #[trigger] xs[k][j] == f,
    decreases xs.len(),
{
    if xs.len() > 0 {
        let rest = xs.drop_first();
        lemma_flatten_has(rest, f);
        let a = xs[0];
        let b = rest.flatten();
        assert(xs.flatten() == a + b);
        if xs.flatten().contains(f) {
            let i = choose|i: int| 0 <= i < (a + b).len() && (a + b)[i] == f;
            if i < a.len() {
                assert(xs[0][i] == f);
            } else {
                assert(b[i - a.len()] == f);
                assert(b.contains(f));
                let (k, j) = choose|k: int, j: int|
                    0 <= k < rest.len() && 0 <= j < rest[k].len() && #[trigger] rest[k][j] == f;
                assert(xs[k + 1][j] == f);
            }
        }
        if exists|k: int, j: int| 0 <= k < xs.len() && 0 <= j < xs[k].len() && #[trigger] xs[k][j] == f {
            let (k, j) = choose|k: int, j: int|
                0 <= k < xs.len() && 0 <= j < xs[k].len() && #[trigger] xs[k][j] == f;
            if k == 0 {
                assert((a + b)[j] == f);
            } else {
                assert(rest[k - 1][j] == f);
                let i = choose|i: int| 0 <= i < b.len() && b[i] == f;
                assert((a + b)[a.len() + i] == f);
            }
        }
    }
}

/// Files whose paths were all met before change nothing that is kept.
proof fn lemma_seen_paths_add_nothing(files: Seq<IsoFile>, extra: Seq<IsoFile>)
    requires
        forall|j: int| 0 <= j < extra.len() ==> has_path(files, #[trigger] extra[j].path@),
    ensures
        first_of_each_path(files + extra) == first_of_each_path(files),
    decreases extra.len(),
{
    if extra.len() == 0 {
        assert(files + extra =~= files);
    } else {
        let e = extra.drop_last();
        assert forall|j: int| 0 <= j < e.len() implies has_path(files, #[trigger] e[j].path@) by {
            assert(e[j] == extra[j]);
        }
        lemma_seen_paths_add_nothing(files, e);
        let all = files + extra;
        assert(all.drop_last() =~= files + e);
        assert(all.last() == extra[extra.len() - 1]);
        assert(has_path(files, extra[extra.len() - 1].path@));
        let k = choose|k: int| 0 <= k < files.len() && #[trigger] files[k].path@ == extra[extra.len()
            - 1].path@;
        assert(all.drop_last()[k] == files[k]);
        assert(has_path(all.drop_last(), all.last().path@));
    }
}

/// Listing a directory a second time changes nothing: what the scan of a directory already
/// scanned finds is kept once, the first time.
pub proof fn law_scan_ignores_repeated_listing(per_dir: Seq<Seq<IsoFile>>, k: int, r: Seq<IsoFile>)
    requires
        0 <= k < per_dir.len(),
        merged_scan(per_dir, r),
    ensures
        merged_scan(per_dir.push(per_dir[k]), r),
{
    let d = per_dir[k];
    per_dir.lemma_flatten_push(d);
    assert forall|j: int| 0 <= j < d.len() implies has_path(per_dir.flatten(), #[trigger] d[j].path@) by {
        lemma_flatten_has(per_dir, d[j]);
        assert(per_dir[k][j] == d[j]);
        let i = choose|i: int| 0 <= i < per_dir.flatten().len() && per_dir.flatten()[i] == d[j];
    }
    lemma_seen_paths_add_nothing(per_dir.flatten(), d);
}

/// The listings with directories `a` and `b` swapped.
pub open spec fn swapped(per_dir: Seq<Seq<IsoFile>>, a: int, b: int) -> Seq<Seq<IsoFile>> {
    per_dir.update(a, per_dir[b]).update(b, per_dir[a])
}

/// Swapping two directories lists the same files.
proof fn lemma_swap_lists_same_files(per_dir: Seq<Seq<IsoFile>>, a: int, b: int)
    requires
        0 <= a < per_dir.len(),
        0 <= b < per_dir.len(),
    ensures
        forall|f: IsoFile|
            per_dir.flatten().contains(f) <==> #[trigger] swapped(per_dir, a, b).flatten().contains(f),
{
    let sw = swapped(per_dir, a, b);
    assert forall|f: IsoFile| per_dir.flatten().contains(f) <==> #[trigger] sw.flatten().contains(f) by {
        lemma_flatten_has(per_dir, f);
        lemma_flatten_has(sw, f);
        if per_dir.flatten().contains(f) {
            let (k, j) = choose|k: int, j: int|
                0 <= k < per_dir.len() && 0 <= j < per_dir[k].len() && #[trigger] per_dir[k][j] == f;
            let k2 = if k == a {
                b
            } else if k == b {
                a
            } else {
                k
            };
            assert(sw[k2] == per_dir[k]);
            assert(sw[k2][j] == f);
        }
        if sw.flatten().contains(f) {
            let (k, j) = choose|k: int, j: int|
                0 <= k < sw.len() && 0 <= j < sw[k].len() && #[trigger] sw[k][j] == f;
            let k2 = if k == b {
                a
            } else if k == a {
                b
            } else {
                k
            };
            assert(sw[k] == per_dir[k2]);
            assert(per_dir[k2][j] == f);
        }
    }
}

/// The order in which two directories are scanned does not change which paths the result holds.
pub proof fn law_scan_order_of_directories_keeps_paths(
    per_dir: Seq<Seq<IsoFile>>,
    a: int,
    b: int,
    r1: Seq<IsoFile>,
    r2: Seq<IsoFile>,
)
    requires
        0 <= a < per_dir.len(),
        0 <= b < per_dir.len(),
        merged_scan(per_dir, r1),
        merged_scan(swapped(per_dir, a, b), r2),
    ensures
        forall|p: Seq<char>| has_path(r1, p) <==> has_path(r2, p),
{
    let sw = swapped(per_dir, a, b);
    law_scan_keeps_every_path(per_dir, r1);
    law_scan_keeps_every_path(sw, r2);
    lemma_swap_lists_same_files(per_dir, a, b);
    assert forall|p: Seq<char>| has_path(r1, p) implies has_path(r2, p) by {
        let i = choose|i: int| 0 <= i < r1.len() && #[trigger] r1[i].path@ == p;
        assert(per_dir.flatten().contains(r1[i]));
        assert(sw.flatten().contains(r1[i]));
        let j = choose|j: int| 0 <= j < sw.flatten().len() && sw.flatten()[j] == r1[i];
        assert(has_path(r2, sw.flatten()[j].path@));
    }
    assert forall|p: Seq<char>| has_path(r2, p) implies has_path(r1, p) by {
        let i = choose|i: int| 0 <= i < r2.len() && #[trigger] r2[i].path@ == p;
        assert(sw.flatten().contains(r2[i]));
        assert(per_dir.flatten().contains(r2[i]));
        let j = choose|j: int| 0 <= j < per_dir.flatten().len() && per_dir.flatten()[j] == r2[i];
        assert(has_path(r1, per_dir.flatten()[j].path@));
    }
}

/// Sorting by name is a strict order: no file sorts before itself, and of two files at most
/// one sorts before the other.
proof fn lemma_sorts_before_strict(files: Seq<IsoFile>, x: int, y: int)
    ensures
        !sorts_before(files, x, x),
        !(sorts_before(files, x, y) && sorts_before(files, y, x)),
{
    let nx = files[x].file_name@;
    let ny = files[y].file_name@;
    lemma_text_lt_irreflexive(nx);
    if text_lt(nx, ny) && text_lt(ny, nx) {
        lemma_text_lt_transitive(nx, ny, nx);
    }
}

/// Two name orders of the same files agree on their first `i` places.
proof fn lemma_name_orders_agree(files: Seq<IsoFile>, o1: Seq<int>, o2: Seq<int>, i: int)
    requires
        is_name_order(files, o1),
        is_name_order(files, o2),
        0 <= i <= files.len(),
    ensures
        forall|j: int| 0 <= j < i ==> o1[j] == o2[j],
    decreases i,
{
    if i > 0 {
        lemma_name_orders_agree(files, o1, o2, i - 1);
        let m = i - 1;
        let x = o1[m];
        let y = o2[m];
        if x != y {
            // `y` stands somewhere in `o1`, and `x` somewhere in `o2`, both after place `m`.
            assert(o1.contains(y));
            let p = choose|p: int| 0 <= p < o1.len() && o1[p] == y;
            assert(o2.contains(x));
            let q = choose|q: int| 0 <= q < o2.len() && o2[q] == x;
            lemma_sorts_before_strict(files, x, y);
            lemma_sorts_before_strict(files, y, y);
            lemma_sorts_before_strict(files, x, x);
            if p < m {
                assert(o2[p] == y);
                assert(sorts_before(files, o2[p], o2[m]));
            }
            if q < m {
                assert(o1[q] == x);
                assert(sorts_before(files, o1[q], o1[m]));
            }
            assert(p != m && q != m);
            assert(sorts_before(files, o1[m], o1[p]));
            assert(sorts_before(files, o2[m], o2[q]));
        }
    }
}

/// The merge of a scan determines its result: two results of the same listings are equal.
pub proof fn law_merged_scan_is_determined(per_dir: Seq<Seq<IsoFile>>, r1: Seq<IsoFile>, r2: Seq<IsoFile>)
    requires
        merged_scan(per_dir, r1),
        merged_scan(per_dir, r2),
    ensures
        r1 == r2,
{
    let files = first_of_each_path(per_dir.flatten());
    let o1 = choose|order: Seq<int>|
        #[trigger] is_name_order(files, order) && r1.len() == files.len() && forall|i: int|
            0 <= i < r1.len() ==> r1[i] == files[order[i]];
    let o2 = choose|order: Seq<int>|
        #[trigger] is_name_order(files, order) && r2.len() == files.len() && forall|i: int|
            0 <= i < r2.len() ==> r2[i] == files[order[i]];
    lemma_name_orders_agree(files, o1, o2, files.len() as int);
    assert(r1 =~= r2) by {
        assert forall|i: int| 0 <= i < r1.len() implies r1[i] == r2[i] by {
            assert(o1[i] == o2[i]);
        }
    }
}

/// Scanning a directory twice gives the same result as scanning it once.
pub proof fn law_scan_twice_is_scan_once(
    per_dir: Seq<Seq<IsoFile>>,
    k: int,
    once: Seq<IsoFile>,
    twice: Seq<IsoFile>,
)
    requires
        0 <= k < per_dir.len(),
        merged_scan(per_dir, once),
        merged_scan(per_dir.push(per_dir[k]), twice),
    ensures
        twice == once,
{
    law_scan_ignores_repeated_listing(per_dir, k, once);
    law_merged_scan_is_determined(per_dir.push(per_dir[k]), twice, once);
}

/// The listings agree on files: two files found at the same path are the same file.
pub open spec fn one_file_per_path(per_dir: Seq<Seq<IsoFile>>) -> bool {
    forall|f: IsoFile, g: IsoFile|
        #[trigger] per_dir.flatten().contains(f) && #[trigger] per_dir.flatten().contains(g)
            && f.path@ == g.path@ ==> f == g
}

/// Scanning the directories in another order gives the same files in another order, as long
/// as the listings agree on what lies at each path.
pub proof fn law_scan_order_of_directories_permutes(
    per_dir: Seq<Seq<IsoFile>>,
    a: int,
    b: int,
    r1: Seq<IsoFile>,
    r2: Seq<IsoFile>,
)
    requires
        0 <= a < per_dir.len(),
        0 <= b < per_dir.len(),
        one_file_per_path(per_dir),
        merged_scan(per_dir, r1),
        merged_scan(swapped(per_dir, a, b), r2),
    ensures
        r1.to_multiset() == r2.to_multiset(),
{
    broadcast use vstd::seq_lib::group_to_multiset_ensures;

    let sw = swapped(per_dir, a, b);
    law_scan_keeps_every_path(per_dir, r1);
    law_scan_keeps_every_path(sw, r2);
    law_scan_paths_are_distinct(per_dir, r1);
    law_scan_paths_are_distinct(sw, r2);
    law_scan_order_of_directories_keeps_paths(per_dir, a, b, r1, r2);
    lemma_swap_lists_same_files(per_dir, a, b);
    assert(r1.no_duplicates()) by {
        assert forall|i: int, j: int| 0 <= i < r1.len() && 0 <= j < r1.len() && i != j implies r1[i] != r1[j] by {
            if i < j {
                assert(r1[i].path@ != r1[j].path@);
            } else {
                assert(r1[j].path@ != r1[i].path@);
            }
        }
    }
    assert(r2.no_duplicates()) by {
        assert forall|i: int, j: int| 0 <= i < r2.len() && 0 <= j < r2.len() && i != j implies r2[i] != r2[j] by {
            if i < j {
                assert(r2[i].path@ != r2[j].path@);
            } else {
                assert(r2[j].path@ != r2[i].path@);
            }
        }
    }
    // The same files: a file of one result has its path in the other, and there lies the same file.
    assert forall|x: IsoFile| r1.contains(x) <==> r2.contains(x) by {
        if r1.contains(x) {
            let i = choose|i: int| 0 <= i < r1.len() && r1[i] == x;
            assert(per_dir.flatten().contains(r1[i]));
            assert(has_path(r1, x.path@));
            assert(has_path(r2, x.path@));
            let j = choose|j: int| 0 <= j < r2.len() && #[trigger] r2[j].path@ == x.path@;
            assert(sw.flatten().contains(r2[j]));
            assert(per_dir.flatten().contains(r2[j]));
            assert(r2[j] == x);
        }
        if r2.contains(x) {
            let j = choose|j: int| 0 <= j < r2.len() && r2[j] == x;
            assert(sw.flatten().contains(r2[j]));
            assert(per_dir.flatten().contains(x));
            assert(has_path(r2, x.path@));
            assert(has_path(r1, x.path@));
            let i = choose|i: int| 0 <= i < r1.len() && #[trigger] r1[i].path@ == x.path@;
            assert(per_dir.flatten().contains(r1[i]));
            assert(r1[i] == x);
        }
    }
    r1.lemma_multiset_has_no_duplicates();
    r2.lemma_multiset_has_no_duplicates();
    assert(r1.to_multiset() =~= r2.to_multiset()) by {
        assert forall|x: IsoFile| r1.to_multiset().count(x) == r2.to_multiset().count(x) by {
            if r1.contains(x) {
                assert(r1.to_multiset().contains(x));
                assert(r2.to_multiset().contains(x));
            }
        }
    }
}


/// Exactly four system directories are forbidden: an absolute directory that resolves is
/// refused only when its path (in ordinary form, case aside) starts with `C:\Windows`,
/// `C:\Program Files`, `C:\Program Files (x86)` or `C:\ProgramData\Microsoft`; any other is
/// accepted with its canonical path.
pub proof fn law_only_system_directories_are_forbidden(probe: DirectoryProbe, r: Result<String, AppError>)
    requires
        is_directory_verdict(probe, r),
        probe.is_absolute,
        probe.is_dir,
        probe.canonical is Some,
    ensures
        ({
            let lowered = lowercase(without_verbatim_prefix(probe.canonical->0@));
            let under_system = has_prefix(lowered, lowercase("C:\\Windows"@)) || has_prefix(
                lowered,
                lowercase("C:\\Program Files"@),
            ) || has_prefix(lowered, lowercase("C:\\Program Files (x86)"@)) || has_prefix(
                lowered,
                lowercase("C:\\ProgramData\\Microsoft"@),
            );
            &&& !under_system ==> (r matches Ok(p) && p@ == probe.canonical->0@)
            &&& under_system ==> r matches Err(AppError::ForbiddenPath(_))
        }),
{
    let c = probe.canonical->0@;
    let lowered = lowercase(without_verbatim_prefix(c));
    let fp = forbidden_prefixes();
    assert(fp.len() == 4);
    assert(fp[0] == "C:\\Windows"@);
    assert(fp[1] == "C:\\Program Files"@);
    assert(fp[2] == "C:\\Program Files (x86)"@);
    assert(fp[3] == "C:\\ProgramData\\Microsoft"@);
    let under_system = is_under_forbidden(c, 0) || is_under_forbidden(c, 1) || is_under_forbidden(c, 2)
        || is_under_forbidden(c, 3);
    if under_system {
        let i = if is_under_forbidden(c, 0) {
            0
        } else if is_under_forbidden(c, 1) {
            1
        } else if is_under_forbidden(c, 2) {
            2
        } else {
            3
        };
        assert(is_first_forbidden(c, i));
    } else {
        assert forall|i: int| !is_first_forbidden(c, i) by {
            if 0 <= i < 4 {
                assert(!is_under_forbidden(c, i));
            }
        }
    }
}

/// The size rule of the scan only sets a minimum: a game file stays a game file at any larger
/// size, however large.
pub proof fn law_larger_files_are_kept(e: DirEntryFacts, ext: Seq<char>, larger: u64)
    requires
        is_game_file_with(e, ext),
        e.size_bytes matches Some(s) && larger >= s,
    ensures
        is_game_file_with(DirEntryFacts { size_bytes: Some(larger), ..e }, ext),
{
}

/// Which entries are game files, told by the extension (in lowercase) and the size alone: a
/// named regular file with extension `iso` of at least 32768 bytes, or `zip` or `7z` of at
/// least 1024 bytes, is kept; an `iso` under 32768 bytes, an archive under 1024 bytes, any
/// other extension, a missing size, a directory or an empty name is not.
pub proof fn law_game_file_rule(e: DirEntryFacts, ext: Seq<char>)
    ensures
        e.is_file && e.file_name@.len() > 0 && e.size_bytes is Some && ext == "iso"@
            && e.size_bytes->0 >= 32768 ==> is_game_file_with(e, ext),
        e.is_file && e.file_name@.len() > 0 && e.size_bytes is Some && (ext == "zip"@
            || ext == "7z"@) && e.size_bytes->0 >= 1024 ==> is_game_file_with(e, ext),
        e.size_bytes is Some && ext == "iso"@ && e.size_bytes->0 < 32768 ==> !is_game_file_with(e, ext),
        e.size_bytes is Some && e.size_bytes->0 < 1024 ==> !is_game_file_with(e, ext),
        ext != "iso"@ && ext != "zip"@ && ext != "7z"@ ==> !is_game_file_with(e, ext),
        e.size_bytes is None || !e.is_file || e.file_name@.len() == 0 ==> !is_game_file_with(e, ext),
{
    let se = supported_extensions();
    assert(se[0] == "iso"@ && se[1] == "zip"@ && se[2] == "7z"@);
    reveal_strlit("iso");
    reveal_strlit("zip");
    reveal_strlit("7z");
    assert("zip"@[0] != "iso"@[0] && "7z"@[0] != "iso"@[0]);
    if se.contains(ext) {
        let k = choose|k: int| 0 <= k < se.len() && se[k] == ext;
    }
}

} // verus!
