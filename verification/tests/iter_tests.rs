use file_structure::tree::File;
use file_structure::tree::FileType::{Directory, Regular, Symlink};
use file_structure::iter::FilesIter;

// Indexing helper mirroring the tree layout used below.
fn c(f: &File, index: usize) -> &File {
    &f.file_type.children().unwrap()[index]
}

fn fixture() -> File {
    // We will test the following structure:
    // ".config": [
    //     "i3": [
    //         "file1"
    //         "file2"
    //         "dir": [
    //             "innerfile1"
    //             "innerfile2"
    //         ]
    //         "file3"
    //     ]
    //     "outerfile1"
    //     "outerfile2"
    // ]
    File::new(
        ".config",
        Directory(vec![
            File::new(
                "i3",
                Directory(vec![
                    File::new("file1", Regular),
                    File::new("file2", Regular),
                    File::new(
                        "dir",
                        Directory(vec![
                            File::new("innerfile1", Regular),
                            File::new("innerfile2", Regular),
                        ]),
                    ),
                    File::new("file3", Regular),
                ]),
            ),
            File::new("outerfile1", Regular),
            File::new("outerfile2", Regular),
        ]),
    )
}

#[test] // Huge test ahead
fn testing_files_and_paths_iters() {
    let root = fixture();

    // Get the references in line order, from top to bottom
    let refs = vec![
        /* 0 */ &root,                       // .config/
        /* 1 */ c(&root, 0),                 // .config/i3/
        /* 2 */ c(c(&root, 0), 0),           // .config/i3/file1
        /* 3 */ c(c(&root, 0), 1),           // .config/i3/file2
        /* 4 */ c(c(&root, 0), 2),           // .config/i3/dir/
        /* 5 */ c(c(c(&root, 0), 2), 0),     // .config/i3/dir/innerfile1
        /* 6 */ c(c(c(&root, 0), 2), 1),     // .config/i3/dir/innerfile2
        /* 7 */ c(c(&root, 0), 3),           // .config/i3/file3
        /* 8 */ c(&root, 1),                 // .config/outerfile1
        /* 9 */ c(&root, 2),                 // .config/outerfile2
    ];

    let mut it = root.files();
    assert_eq!(it.produce_next(), Some(refs[0])); // .config/
    assert_eq!(it.produce_next(), Some(refs[1])); // .config/i3/
    assert_eq!(it.produce_next(), Some(refs[4])); // .config/i3/dir/
    assert_eq!(it.produce_next(), Some(refs[5])); // .config/i3/dir/innerfile1
    assert_eq!(it.produce_next(), Some(refs[6])); // .config/i3/dir/innerfile2
    assert_eq!(it.produce_next(), Some(refs[2])); // .config/i3/file1
    assert_eq!(it.produce_next(), Some(refs[3])); // .config/i3/file2
    assert_eq!(it.produce_next(), Some(refs[7])); // .config/i3/file3
    assert_eq!(it.produce_next(), Some(refs[8])); // .config/outerfile1
    assert_eq!(it.produce_next(), Some(refs[9])); // .config/outerfile2

    let mut it = root.files().files_before_directories(true);
    assert_eq!(it.produce_next(), Some(refs[0])); // .config/
    assert_eq!(it.produce_next(), Some(refs[8])); // .config/outerfile1
    assert_eq!(it.produce_next(), Some(refs[9])); // .config/outerfile2
    assert_eq!(it.produce_next(), Some(refs[1])); // .config/i3/
    assert_eq!(it.produce_next(), Some(refs[2])); // .config/i3/file1
    assert_eq!(it.produce_next(), Some(refs[3])); // .config/i3/file2
    assert_eq!(it.produce_next(), Some(refs[7])); // .config/i3/file3
    assert_eq!(it.produce_next(), Some(refs[4])); // .config/i3/dir/
    assert_eq!(it.produce_next(), Some(refs[5])); // .config/i3/dir/innerfile1
    assert_eq!(it.produce_next(), Some(refs[6])); // .config/i3/dir/innerfile2

    let mut it = root.files().skip_dirs(true);
    assert_eq!(it.produce_next(), Some(refs[5])); // .config/i3/dir/innerfile1
    assert_eq!(it.produce_next(), Some(refs[6])); // .config/i3/dir/innerfile2
    assert_eq!(it.produce_next(), Some(refs[2])); // .config/i3/file1
    assert_eq!(it.produce_next(), Some(refs[3])); // .config/i3/file2
    assert_eq!(it.produce_next(), Some(refs[7])); // .config/i3/file3
    assert_eq!(it.produce_next(), Some(refs[8])); // .config/outerfile1
    assert_eq!(it.produce_next(), Some(refs[9])); // .config/outerfile2

    let mut it = root.files().skip_regular_files(true);
    assert_eq!(it.produce_next(), Some(refs[0])); // .config/
    assert_eq!(it.produce_next(), Some(refs[1])); // .config/i3/
    assert_eq!(it.produce_next(), Some(refs[4])); // .config/i3/dir/

    // min and max depth (1 <= d <= 2)
    //
    // skips:
    // .config/
    // .config/i3/dir/innerfile1
    // .config/i3/dir/innerfile2
    let mut it = root.files().min_depth(1).max_depth(2);
    assert_eq!(it.produce_next(), Some(refs[1])); // .config/i3/
    assert_eq!(it.produce_next(), Some(refs[4])); // .config/i3/dir/
    assert_eq!(it.produce_next(), Some(refs[2])); // .config/i3/file1
    assert_eq!(it.produce_next(), Some(refs[3])); // .config/i3/file2
    assert_eq!(it.produce_next(), Some(refs[7])); // .config/i3/file3
    assert_eq!(it.produce_next(), Some(refs[8])); // .config/outerfile1
    assert_eq!(it.produce_next(), Some(refs[9])); // .config/outerfile2

    // ---------------------
    //
    // Paths iterator testing
    let mut it = root.paths();
    assert_eq!(it.produce_next(), Some(&refs[0].path)); // ".config/"
    assert_eq!(it.produce_next(), Some(&refs[1].path)); // ".config/i3/"
    assert_eq!(it.produce_next(), Some(&refs[4].path)); // ".config/i3/dir/"
    assert_eq!(it.produce_next(), Some(&refs[5].path)); // ".config/i3/dir/innerfile1"
    assert_eq!(it.produce_next(), Some(&refs[6].path)); // ".config/i3/dir/innerfile2"
    assert_eq!(it.produce_next(), Some(&refs[2].path)); // ".config/i3/file1"
    assert_eq!(it.produce_next(), Some(&refs[3].path)); // ".config/i3/file2"
    assert_eq!(it.produce_next(), Some(&refs[7].path)); // ".config/i3/file3"
    assert_eq!(it.produce_next(), Some(&refs[8].path)); // ".config/outerfile1"
    assert_eq!(it.produce_next(), Some(&refs[9].path)); // ".config/outerfile2"
}

#[test]
fn exhaustion_yields_none_forever() {
    let root = fixture();
    let mut it = root.files();
    let mut count = 0;
    while it.produce_next().is_some() {
        count += 1;
    }
    // Completeness: every one of the 10 entries exactly once.
    assert_eq!(count, 10);
    assert_eq!(it.produce_next(), None);
    assert_eq!(it.produce_next(), None);
}

#[test]
fn default_engine_is_exhausted() {
    let mut it = FilesIter::default();
    assert_eq!(it.produce_next(), None);
}

#[test]
fn single_leaf_traversal() {
    let root = File::new("lonely", Regular);
    let mut it = root.files();
    assert_eq!(it.produce_next(), Some(&root));
    assert_eq!(it.produce_next(), None);
}

#[test]
fn order_mode_same_set_of_nodes() {
    let root = fixture();
    let mut default_names = Vec::new();
    let mut it = root.files();
    while let Some(f) = it.produce_next() {
        default_names.push(f.name.clone());
    }
    let mut fbd_names = Vec::new();
    let mut it = root.files().files_before_directories(true);
    while let Some(f) = it.produce_next() {
        fbd_names.push(f.name.clone());
    }
    assert_ne!(default_names, fbd_names);
    default_names.sort();
    fbd_names.sort();
    assert_eq!(default_names, fbd_names);
}

#[test]
fn skip_regular_files_keeps_all_directories() {
    let root = fixture();
    let mut it = root.files().skip_regular_files(true);
    assert_eq!(it.produce_next().map(|f| f.name.as_str()), Some(".config"));
    assert_eq!(it.produce_next().map(|f| f.name.as_str()), Some("i3"));
    assert_eq!(it.produce_next().map(|f| f.name.as_str()), Some("dir"));
    assert_eq!(it.produce_next(), None);
}

#[test]
fn skip_symlinks_hides_only_symlinks() {
    let root = File::new(
        "top",
        Directory(vec![
            File::new("link1", Symlink),
            File::new("plain", Regular),
            File::new(
                "sub",
                Directory(vec![File::new("link2", Symlink), File::new("inner", Regular)]),
            ),
        ]),
    );
    // Without the filter, symlinks are ordinary entries.
    let mut names = Vec::new();
    let mut it = root.files();
    while let Some(f) = it.produce_next() {
        names.push(f.name.as_str());
    }
    assert_eq!(names, vec!["top", "sub", "link2", "inner", "link1", "plain"]);
    // With it, exactly the symlinks disappear; nothing else moves.
    let mut names = Vec::new();
    let mut it = root.files().skip_symlinks(true);
    while let Some(f) = it.produce_next() {
        names.push(f.name.as_str());
    }
    assert_eq!(names, vec!["top", "sub", "inner", "plain"]);
}

#[test]
fn min_depth_alone() {
    let root = fixture();
    let mut names = Vec::new();
    let mut it = root.files().min_depth(2);
    while let Some(f) = it.produce_next() {
        names.push(f.name.as_str());
    }
    assert_eq!(names, vec!["dir", "innerfile1", "innerfile2", "file1", "file2", "file3"]);
}

#[test]
fn max_depth_alone() {
    let root = fixture();
    let mut names = Vec::new();
    let mut it = root.files().max_depth(1);
    while let Some(f) = it.produce_next() {
        names.push(f.name.as_str());
    }
    assert_eq!(names, vec![".config", "i3", "outerfile1", "outerfile2"]);
}

#[test]
fn depth_filters_compose_with_kind_filters() {
    let root = fixture();
    let mut names = Vec::new();
    let mut it = root.files().min_depth(1).max_depth(2).skip_dirs(true);
    while let Some(f) = it.produce_next() {
        names.push(f.name.as_str());
    }
    assert_eq!(names, vec!["file1", "file2", "file3", "outerfile1", "outerfile2"]);
}

#[test]
fn paths_follow_files_before_directories_order() {
    let root = fixture();
    let mut paths = Vec::new();
    let mut it = root.files().files_before_directories(true).paths();
    while let Some(p) = it.produce_next() {
        paths.push(p.clone());
    }
    // Paths here are the construction-time names, one per visited entry, in
    // the engine's own order.
    assert_eq!(
        paths,
        vec![
            ".config",
            "outerfile1",
            "outerfile2",
            "i3",
            "file1",
            "file2",
            "file3",
            "dir",
            "innerfile1",
            "innerfile2",
        ]
    );
}

#[test]
fn relative_path_mode_yields_nothing() {
    let root = fixture();
    let mut it = root.paths().show_full_relative_path(false);
    // The unfinished relative mode produces no values at all, while the
    // wrapped engine still advances and finally runs dry.
    for _ in 0..20 {
        assert_eq!(it.produce_next(), None);
    }
}

#[test]
fn new_sets_name_path_and_kind() {
    let f = File::new("somewhere", Symlink);
    assert_eq!(f.name, "somewhere");
    assert_eq!(f.path, "somewhere");
    assert_eq!(f.file_type, Symlink);
    assert_eq!(f.file_type.children(), None);
    let d = File::new("home", Directory(vec![File::new("inner", Regular)]));
    let kids = d.file_type.children().unwrap();
    assert_eq!(kids.len(), 1);
    assert_eq!(kids[0].name, "inner");
}
