use std::collections::BTreeMap;

use jewelcase::catalog::album_type;
use jewelcase::discover::{is_candidate, root_status, DirEntry, Directory, EntryKind, RootUnavailable, Walk};
use jewelcase::excludes::compile_excludes;
use jewelcase::ffmpeg::parse_decoders;
use jewelcase::ids::{id_from, new_id};
use jewelcase::image::describe;
use jewelcase::io::{IoError, IoErrorKind};
use jewelcase::problems::group_key;
use jewelcase::queue::coalesce_scopes;
use jewelcase::scan_tags::number_pair;
use jewelcase::sidecar::{is_sidecar_name, SidecarResolver};
use jewelcase::triggers::classify;
use jewelcase::types::{Depth, ProblemKind, Scope};

/// A directory tree in memory: each directory's entries.
struct Tree {
    dirs: BTreeMap<String, Vec<DirEntry>>,
}

impl Tree {
    /// A tree under `root` holding the files at the relative paths given.
    fn with_files(root: &str, files: &[&str]) -> Tree {
        let mut dirs: BTreeMap<String, Vec<DirEntry>> = BTreeMap::new();
        dirs.insert(root.to_string(), Vec::new());
        for f in files {
            let parts: Vec<&str> = f.split('/').collect();
            let mut dir = root.to_string();
            for (i, part) in parts.iter().enumerate() {
                let last = i + 1 == parts.len();
                let entries = dirs.entry(dir.clone()).or_default();
                if !entries.iter().any(|e| e.name == *part) {
                    let kind = if last {
                        EntryKind::File { size: 1, mtime_ms: 7 }
                    } else {
                        EntryKind::Directory
                    };
                    entries.push(DirEntry { name: part.to_string(), kind });
                }
                dir = format!("{}/{}", dir, part);
                if !last {
                    dirs.entry(dir.clone()).or_default();
                }
            }
        }
        Tree { dirs }
    }

    fn list(&self, dir: &str) -> Vec<DirEntry> {
        self.dirs.get(dir).cloned().unwrap_or_default()
    }

    fn names(&self, dir: &str) -> Vec<String> {
        let mut v: Vec<String> = self
            .list(dir)
            .into_iter()
            .filter(|e| matches!(e.kind, EntryKind::File { .. }))
            .map(|e| e.name)
            .collect();
        v.sort();
        v
    }
}

fn walk_all(scope: &Scope, excludes: &[String], resume: Option<&str>, tree: &Tree) -> Vec<Directory> {
    let set = compile_excludes(excludes).unwrap();
    let mut walk = Walk::new(scope, &set, resume);
    let mut out = Vec::new();
    while let Some((dir, position)) = walk.next_dir() {
        let entries = tree.list(&dir);
        if let Some(d) = walk.accept_listing(&dir, position, &entries) {
            out.push(d);
        }
    }
    out
}

fn dirs(scope: &Scope, resume: Option<&str>, tree: &Tree) -> Vec<String> {
    walk_all(scope, &[], resume, tree).into_iter().map(|d| d.path).collect()
}

#[test]
fn parses_decoder_table() {
    let table = "Decoders:\n V..... = Video\n ------\n V....D h264  H.264\n A....D flac  FLAC\n AF...D alac  ALAC\n";
    assert_eq!(parse_decoders(table), vec!["flac", "alac"]);
}

#[test]
fn groups_collapse_paths_and_numbers() {
    let root = "/music";
    let a = group_key(ProblemKind::MalformedTags, root, "frame at offset 1234 in /music/a/b.mp3 invalid");
    let b = group_key(ProblemKind::MalformedTags, root, "frame at offset 98 in /music/c/d.mp3 invalid");
    assert_eq!(a, b);
    let c = group_key(ProblemKind::CorruptAudio, root, "frame at offset 98 in /music/c/d.mp3 invalid");
    assert_ne!(a, c);
}

#[test]
fn scopes_coalesce() {
    let root = "/m";
    let a = Scope::folder(root, "/m/a", Depth::Subtree);
    let ab = Scope::folder(root, "/m/a/b", Depth::Directory);
    let c = Scope::folder(root, "/m/c", Depth::Directory);
    let all = Scope::root(root);
    assert_eq!(coalesce_scopes(vec![ab.clone(), a.clone(), c.clone()]), vec![a.clone(), c.clone()]);
    assert_eq!(coalesce_scopes(vec![a, c, all.clone()]), vec![all]);
}

#[test]
fn directory_depth_covers_only_itself() {
    let root = "/m";
    let dir = Scope::folder(root, "/m/a", Depth::Directory);
    let sub = Scope::folder(root, "/m/a", Depth::Subtree);
    assert!(!dir.covers(&sub));
    assert!(sub.covers(&dir));
    assert!(dir.covers(&dir.clone()));
}

#[test]
fn packed_numbers() {
    assert_eq!(number_pair("3/12"), (Some(3), Some(12)));
    assert_eq!(number_pair("3"), (Some(3), None));
    assert_eq!(number_pair("0/0"), (None, None));
    assert_eq!(number_pair("x"), (None, None));
}

#[test]
fn album_types_follow_the_requirement() {
    assert_eq!(album_type(Some("album"), false, Some(3)), "album", "tag beats size");
    assert_eq!(album_type(Some("album; compilation"), false, None), "compilation");
    assert_eq!(album_type(Some("ep"), false, None), "ep");
    assert_eq!(album_type(None, true, Some(12)), "compilation", "flag beats size");
    assert_eq!(album_type(None, false, Some(2)), "single");
    assert_eq!(album_type(None, false, Some(5)), "ep");
    assert_eq!(album_type(None, false, Some(12)), "album");
    assert_eq!(album_type(None, false, None), "album", "no usable total falls through");
}

#[test]
fn ep_is_a_whole_word_only() {
    assert_eq!(album_type(Some("Single/EP"), false, Some(12)), "single");
    assert_eq!(album_type(Some("live ep"), false, Some(12)), "ep");
    assert_eq!(album_type(Some("deep"), false, Some(12)), "album");
    assert_eq!(album_type(Some("LP"), false, Some(5)), "ep");
}

#[test]
fn sorted_preorder_and_resume() {
    let root = "/lib";
    let tree = Tree::with_files(root, &["a/1.flac", "a/x/2.flac", "b/3.mp3", "c/4.ogg", "c/y/5.opus"]);
    let scope = Scope::root(root);
    assert_eq!(
        dirs(&scope, None, &tree),
        vec!["/lib", "/lib/a", "/lib/a/x", "/lib/b", "/lib/c", "/lib/c/y"]
    );
    assert_eq!(dirs(&scope, Some("/lib/a/x"), &tree), vec!["/lib/b", "/lib/c", "/lib/c/y"]);
    assert_eq!(dirs(&scope, Some("/lib/c"), &tree), vec!["/lib/c/y"]);
}

#[test]
fn excludes_and_extension_filter() {
    let root = "/lib";
    let tree = Tree::with_files(
        root,
        &["keep/1.flac", "keep/notes.txt", "keep/cover.jpg", "backup/2.flac", "keep/song.wma"],
    );
    let scope = Scope::root(root);
    let items = walk_all(&scope, &["backup".to_string(), "backup/**".to_string()], None, &tree);
    assert_eq!(items.len(), 2);
    let keep = items.iter().find(|d| d.path == "/lib/keep").unwrap();
    assert_eq!(keep.candidates.len(), 1);
    assert!(keep.candidates[0].path.ends_with("1.flac"));
    assert!(keep.files.contains(&"cover.jpg".to_string()));
}

#[test]
fn directory_depth_does_not_descend() {
    let root = "/lib";
    let tree = Tree::with_files(root, &["a/1.flac", "a/x/2.flac"]);
    let scope = Scope::folder(root, "/lib/a", Depth::Directory);
    assert_eq!(dirs(&scope, None, &tree), vec!["/lib/a"]);
}

#[test]
fn candidates_come_sorted_with_their_facts() {
    let set = compile_excludes(&[]).unwrap();
    let scope = Scope::root("/lib");
    let mut walk = Walk::new(&scope, &set, None);
    let (dir, position) = walk.next_dir().unwrap();
    let entries = vec![
        DirEntry { name: "b.mp3".to_string(), kind: EntryKind::File { size: 20, mtime_ms: 2 } },
        DirEntry { name: "a.FLAC".to_string(), kind: EntryKind::File { size: 10, mtime_ms: 1 } },
        DirEntry { name: "z".to_string(), kind: EntryKind::Directory },
        DirEntry { name: "readme".to_string(), kind: EntryKind::File { size: 5, mtime_ms: 3 } },
    ];
    let d = walk.accept_listing(&dir, position, &entries).unwrap();
    assert_eq!(d.files, vec!["a.FLAC", "b.mp3", "readme"]);
    assert_eq!(d.candidates.len(), 2);
    assert_eq!(d.candidates[0].path, "/lib/a.FLAC");
    assert_eq!((d.candidates[0].size, d.candidates[0].mtime_ms), (10, 1));
    assert_eq!(d.candidates[1].path, "/lib/b.mp3");
    assert_eq!(walk.next_dir().map(|(p, _)| p), Some("/lib/z".to_string()));
}

#[test]
fn root_checks() {
    let denied = IoError { kind: IoErrorKind::PermissionDenied, message: "denied".to_string() };
    assert!(matches!(root_status(Ok(true), Ok(false)), Err(RootUnavailable::Empty)));
    assert!(root_status(Ok(true), Ok(true)).is_ok());
    assert!(matches!(root_status(Err(denied.clone()), Ok(true)), Err(RootUnavailable::Inaccessible(e)) if e == denied));
    match root_status(Ok(false), Ok(true)) {
        Err(RootUnavailable::Inaccessible(e)) => assert_eq!(e.message, "root is not a directory"),
        _ => panic!("a file is not a root"),
    }
}

#[test]
fn candidates_by_extension_any_case() {
    assert!(is_candidate("/m/a/01.FLAC"));
    assert!(is_candidate("/m/a/01.opus"));
    assert!(!is_candidate("/m/a/01.wma"));
    assert!(!is_candidate("/m/a/.flac"));
    assert!(!is_candidate("/m/a/flac"));
}

#[test]
fn nearest_wins_and_walk_stops_at_root() {
    let tree = Tree::with_files(
        "/tmp",
        &[
            "lib/cover.png",
            "lib/Artist/artist.jpg",
            "lib/Artist/artist.txt",
            "lib/Artist/Album/cover.jpg",
            "lib/Artist/Other/01.flac",
            "artist.png",
        ],
    );
    let root = "/tmp/lib";
    let mut r = SidecarResolver::new(root);
    for dir in ["/tmp/lib", "/tmp/lib/Artist", "/tmp/lib/Artist/Album", "/tmp/lib/Artist/Other", "/tmp"] {
        r.offer_listing(dir, &tree.names(dir));
    }
    let album = r.resolve("/tmp/lib/Artist/Album");
    assert_eq!(album.cover, Some("/tmp/lib/Artist/Album/cover.jpg".to_string()));
    assert_eq!(album.artist_image, Some("/tmp/lib/Artist/artist.jpg".to_string()));
    assert_eq!(album.biography, Some("/tmp/lib/Artist/artist.txt".to_string()));
    let other = r.resolve("/tmp/lib/Artist/Other");
    assert_eq!(other.cover, Some("/tmp/lib/cover.png".to_string()));
    let top = r.resolve(root);
    assert_eq!(top.artist_image, None);
}

#[test]
fn preferred_extension_wins_among_covers() {
    let mut r = SidecarResolver::new("/m");
    r.offer_listing("/m", &vec!["cover.png".to_string(), "Cover.JPG".to_string(), "cover.gif".to_string()]);
    assert_eq!(r.resolve("/m").cover, Some("/m/Cover.JPG".to_string()));
    assert!(r.is_listed("/m"));
    assert!(!r.is_listed("/m/a"));
}

#[test]
fn lyrics_match_stem_only_in_place() {
    let files: Vec<String> = ["01 - Song.flac", "01 - Song.lrc", "02 - Other.TXT", "02 - Other.flac"]
        .iter()
        .map(|s| s.to_string())
        .collect();
    assert_eq!(
        SidecarResolver::lyrics_for("/m/01 - Song.flac", &files),
        Some("/m/01 - Song.lrc".to_string())
    );
    assert_eq!(
        SidecarResolver::lyrics_for("/m/02 - Other.flac", &files),
        Some("/m/02 - Other.TXT".to_string())
    );
    assert_eq!(SidecarResolver::lyrics_for("/m/03.flac", &files), None);
}

#[test]
fn sidecar_names() {
    assert!(is_sidecar_name("cover.jpg"));
    assert!(is_sidecar_name("Cover.PNG"));
    assert!(is_sidecar_name("artist.txt"));
    assert!(!is_sidecar_name("cover.txt"));
    assert!(!is_sidecar_name("front.jpg"));
}

#[test]
fn sidecars_widen_to_subtree() {
    let (dir, depth) = classify(false, false, "/m/a/cover.jpg").unwrap();
    assert_eq!(dir, "/m/a");
    assert_eq!(depth, Depth::Subtree);
    let (dir, depth) = classify(false, false, "/m/a/01.flac").unwrap();
    assert_eq!(dir, "/m/a");
    assert_eq!(depth, Depth::Directory);
}

#[test]
fn directory_events_and_accesses() {
    assert_eq!(classify(false, true, "/m/a/new"), Some(("/m/a/new".to_string(), Depth::Subtree)));
    assert_eq!(classify(true, false, "/m/a/01.flac"), None);
    assert_eq!(classify(false, false, "/"), None);
}

/// A 1x1 PNG.
const PNG: &[u8] = &[
    0x89, 0x50, 0x4E, 0x47, 0x0D, 0x0A, 0x1A, 0x0A, 0x00, 0x00, 0x00, 0x0D, 0x49, 0x48, 0x44, 0x52, 0x00,
    0x00, 0x00, 0x01, 0x00, 0x00, 0x00, 0x01, 0x08, 0x06, 0x00, 0x00, 0x00, 0x1F, 0x15, 0xC4, 0x89, 0x00,
    0x00, 0x00, 0x0D, 0x49, 0x44, 0x41, 0x54, 0x78, 0x9C, 0x63, 0xF8, 0xCF, 0xC0, 0x00, 0x00, 0x03, 0x01,
    0x01, 0x00, 0x18, 0xDD, 0x8D, 0xB0, 0x00, 0x00, 0x00, 0x00, 0x49, 0x45, 0x4E, 0x44, 0xAE, 0x42, 0x60,
    0x82,
];

#[test]
fn describes_png_and_rejects_text() {
    let info = describe(PNG).unwrap();
    assert_eq!((info.width, info.height), (1, 1));
    assert_eq!(info.format, "png");
    assert_eq!(info.hash.len(), 32);
    assert!(describe(b"not an image").is_none());
}

#[test]
fn image_hash_is_the_sha256_of_the_bytes() {
    let info = describe(PNG).unwrap();
    let other = describe(PNG).unwrap();
    assert_eq!(info.hash, other.hash);
    assert_ne!(info.hash, PNG[..32].to_vec());
    assert_ne!(info.hash, vec![0u8; 32]);
}

#[test]
fn ids_are_positive_and_distinct() {
    let a = new_id();
    let b = new_id();
    assert!(a > 0 && b > 0);
    assert_ne!(a, b);
}

#[test]
fn ids_keep_the_low_63_bits() {
    assert_eq!(id_from(0), None);
    assert_eq!(id_from(1 << 63), None);
    assert_eq!(id_from(u64::MAX), Some(i64::MAX));
    assert_eq!(id_from((1 << 63) | 5), Some(5));
}

#[test]
fn excludes_that_do_not_parse_are_errors() {
    assert!(compile_excludes(&["a/[".to_string()]).is_err());
    assert!(compile_excludes(&["a/**".to_string(), "*.tmp".to_string()]).is_ok());
}
