use yarn_berry_fetcher::zip::{
    file_mode, zip_path, Action, Compression, Contents, EntryKind, Item, Outcome, ZipWriter,
    BATCH_SIZE, BIG_FILE_THRESHOLD,
};

fn names(directories: &[Vec<u8>]) -> Vec<&str> {
    directories
        .iter()
        .map(|d| std::str::from_utf8(d).unwrap())
        .collect()
}

fn reading(package: &str, compression: Option<u32>) -> ZipWriter {
    let (mut writer, action) = ZipWriter::new(package, compression);
    assert!(matches!(action, Action::Open { create: true }));
    assert!(matches!(writer.opened(), Action::Read));
    writer
}

fn add(action: Action) -> (Vec<Vec<u8>>, Item) {
    match action {
        Action::Add {
            directories,
            directory_mode,
            time,
            item,
        } => {
            assert_eq!(directory_mode, 0o755);
            assert_eq!(time, 148_287_040);
            (directories, item)
        }
        other => panic!("{other:?}"),
    }
}

#[test]
fn modes_are_normalized() {
    assert_eq!(file_mode(0o644), 0o644);
    assert_eq!(file_mode(0o755), 0o755);
    assert_eq!(file_mode(0o600), 0o644);
    assert_eq!(file_mode(0o777), 0o755);
    assert_eq!(file_mode(0o664), 0o644);
    assert_eq!(file_mode(0o010), 0o111);
    assert_eq!(file_mode(0o4022), 0);
    assert_eq!(file_mode(0o100200), 0o200);
    assert_eq!(file_mode(0), 0);
}

#[test]
fn modes_are_settled() {
    for mode in 0..0o10000 {
        let once = file_mode(mode);
        assert_eq!(file_mode(u32::from(once)), once);
        assert_eq!(once & 0o022, 0);
    }
}

#[test]
fn entries_lie_below_the_package() {
    let at = |package: &str, raw: &str| {
        String::from_utf8(zip_path(package.as_bytes(), raw.as_bytes())).unwrap()
    };
    assert_eq!(at("a", "package/index.js"), "node_modules/a/index.js");
    assert_eq!(at("@s/a", "package/lib/x.js"), "node_modules/@s/a/lib/x.js");
    assert_eq!(at("a", "package/./lib//x.js"), "node_modules/a/lib/x.js");
    assert_eq!(at("a", "package/lib/"), "node_modules/a/lib");
    assert_eq!(at("a", "package/"), "node_modules/a/");
    assert_eq!(at("a", ""), "node_modules/a/");
    assert_eq!(at("a", "/package/x"), "node_modules/a/package/x");
    assert_eq!(at("a", "./package/x"), "node_modules/a/package/x");
    assert_eq!(at("a", "package/../x"), "node_modules/a/../x");
    assert_eq!(at("/a", "package/x"), "/a/x");
}

#[test]
fn directories_are_added_once_and_after_their_parents() {
    let mut writer = reading("@s/a", Some(0));
    let (directories, item) = add(writer.entry(b"package/lib/x.js", 0o600, EntryKind::Regular, 3));
    assert_eq!(
        names(&directories),
        [
            "node_modules/",
            "node_modules/@s/",
            "node_modules/@s/a/",
            "node_modules/@s/a/lib/"
        ]
    );
    match item {
        Item::File {
            name,
            contents,
            compression,
            mode,
        } => {
            assert_eq!(name, b"node_modules/@s/a/lib/x.js");
            assert_eq!(contents, Contents::Buffered);
            assert_eq!(compression, Compression::Store);
            assert_eq!(mode, 0o644);
        }
        other => panic!("{other:?}"),
    }
    assert!(matches!(writer.added(3, Outcome::Added), Action::Read));

    let (directories, _) = add(writer.entry(b"package/lib/y/z.js", 0, EntryKind::Regular, 0));
    assert_eq!(names(&directories), ["node_modules/@s/a/lib/y/"]);
    assert!(matches!(writer.added(0, Outcome::Exists), Action::Read));

    let (directories, item) = add(writer.entry(b"package/lib/", 0o755, EntryKind::Directory, 0));
    assert!(directories.is_empty());
    assert!(matches!(item, Item::Nothing));
    assert!(matches!(writer.added(0, Outcome::Added), Action::Read));

    let (directories, item) = add(writer.entry(b"package/doc/", 0o755, EntryKind::Directory, 0));
    assert!(directories.is_empty());
    assert!(matches!(item, Item::Directory { name } if name == b"node_modules/@s/a/doc"));
    assert!(matches!(writer.added(0, Outcome::Added), Action::Read));

    let (directories, _) = add(writer.entry(b"package/doc/a", 0, EntryKind::Regular, 0));
    assert!(directories.is_empty());
}

#[test]
fn a_directory_of_the_package_itself_is_added() {
    let mut writer = reading("a", None);
    let (directories, item) = add(writer.entry(b"package/", 0o755, EntryKind::Directory, 0));
    assert_eq!(names(&directories), ["node_modules/"]);
    assert!(matches!(item, Item::Directory { name } if name == b"node_modules/a/"));
    writer.added(0, Outcome::Added);
    let (directories, _) = add(writer.entry(b"package/x", 0, EntryKind::Regular, 0));
    assert!(directories.is_empty());
}

#[test]
fn a_global_header_adds_directories_only() {
    let mut writer = reading("a", None);
    let (directories, item) = add(writer.entry(b"pax_global_header", 0, EntryKind::GlobalHeader, 52));
    assert_eq!(names(&directories), ["node_modules/"]);
    assert!(matches!(item, Item::Nothing));
    assert!(matches!(writer.added(0, Outcome::Added), Action::Read));
}

#[test]
fn other_entries_are_refused() {
    let mut writer = reading("a", None);
    let (_, item) = add(writer.entry(b"package/link", 0o777, EntryKind::Other, 0));
    assert!(matches!(item, Item::Unsupported { name } if name == b"node_modules/a/link"));
}

#[test]
fn levels_decide_on_the_compression() {
    for (level, expected) in [
        (None, Compression::Default),
        (Some(0), Compression::Store),
        (Some(9), Compression::Deflate(9)),
    ] {
        let mut writer = reading("a", level);
        let (_, item) = add(writer.entry(b"package/x", 0, EntryKind::Regular, 1));
        assert!(matches!(item, Item::File { compression, .. } if compression == expected));
    }
}

#[test]
fn big_files_are_streamed() {
    let mut writer = reading("a", None);
    let (_, item) = add(writer.entry(
        b"package/x",
        0,
        EntryKind::Regular,
        BIG_FILE_THRESHOLD,
    ));
    assert!(
        matches!(item, Item::File { contents: Contents::Streamed { size }, .. } if size == BIG_FILE_THRESHOLD)
    );
    assert!(matches!(writer.added(0, Outcome::Added), Action::Close));
    assert!(matches!(writer.closed(), Action::Open { create: false }));
    assert!(matches!(writer.opened(), Action::Read));
    assert!(matches!(writer.ended(), Action::Close));
    assert!(matches!(writer.closed(), Action::Finish));
}

#[test]
fn batches_are_bounded() {
    let mut writer = reading("a", None);
    let size = BIG_FILE_THRESHOLD - 1;
    let mut held: usize = 0;
    for i in 0..6 {
        let (_, item) = add(writer.entry(
            format!("package/{i}").as_bytes(),
            0,
            EntryKind::Regular,
            size,
        ));
        assert!(
            matches!(item, Item::File { contents, .. } if contents == Contents::Buffered)
        );
        held += size as usize;
        let action = writer.added(size as usize, Outcome::Added);
        if held < BATCH_SIZE {
            assert!(matches!(action, Action::Read));
        } else {
            assert!(matches!(action, Action::Close));
            assert_eq!(i, 5);
        }
    }
    assert!(held < BATCH_SIZE + BIG_FILE_THRESHOLD as usize);
    assert!(matches!(writer.closed(), Action::Open { create: false }));
    assert!(matches!(writer.opened(), Action::Read));
    let (directories, _) = add(writer.entry(b"package/more", 0, EntryKind::Regular, 1));
    assert!(directories.is_empty());
}

#[test]
fn failures_end_the_writing() {
    let mut writer = reading("a", None);
    add(writer.entry(b"package/x", 0, EntryKind::Regular, 1));
    assert!(matches!(writer.added(1, Outcome::Failed), Action::Fail));

    let mut writer = reading("a", None);
    add(writer.entry(b"package/x/", 0, EntryKind::Directory, 0));
    assert!(matches!(writer.added(0, Outcome::Exists), Action::Fail));

    let mut writer = reading("a", None);
    add(writer.entry(b"package/x", 0, EntryKind::Regular, BIG_FILE_THRESHOLD));
    assert!(matches!(writer.added(0, Outcome::Exists), Action::Close));
}

#[test]
fn zip_files_can_be_made_again() {
    let run = || -> Vec<String> {
        let (mut writer, first) = ZipWriter::new("@s/a", Some(9));
        let mut actions = vec![format!("{first:?}"), format!("{:?}", writer.opened())];
        for (raw, kind, size) in [
            ("package/", EntryKind::Directory, 0),
            ("package/lib/x.js", EntryKind::Regular, 3),
            ("package/lib/x.js", EntryKind::Regular, 4),
            ("pax_global_header", EntryKind::GlobalHeader, 9),
            ("package/big", EntryKind::Regular, BIG_FILE_THRESHOLD),
        ] {
            actions.push(format!(
                "{:?}",
                writer.entry(raw.as_bytes(), 0o644, kind, size)
            ));
            let outcome = if size == 4 {
                Outcome::Exists
            } else {
                Outcome::Added
            };
            actions.push(format!("{:?}", writer.added(size.min(4) as usize, outcome)));
        }
        actions.push(format!("{:?}", writer.closed()));
        actions
    };
    let once = run();
    assert_eq!(once, run());
    assert_eq!(once[once.len() - 2], "Close");
    assert_eq!(once[once.len() - 1], "Open { create: false }");
}

#[test]
fn ancestors_are_added_once() {
    let mut writer = reading("a", None);
    let (first, _) = add(writer.entry(b"package/lib/x", 0, EntryKind::Regular, 0));
    assert_eq!(first.len(), 3);
    writer.added(0, Outcome::Added);
    let (second, _) = add(writer.entry(b"package/lib/x", 0, EntryKind::Regular, 0));
    assert!(second.is_empty());
    // The file that is there stays, and the next entry is read.
    assert!(matches!(writer.added(0, Outcome::Exists), Action::Read));
}

#[test]
fn ancestors_are_added_outermost_first() {
    let mut writer = reading("a", None);
    assert_eq!(
        writer.add_ancestors(b"node_modules/@s/a"),
        vec![
            b"node_modules/".to_vec(),
            b"node_modules/@s/".to_vec(),
            b"node_modules/@s/a/".to_vec(),
        ]
    );
    assert!(writer.add_ancestors(b"node_modules/@s/a").is_empty());
    assert_eq!(
        writer.add_ancestors(b"node_modules/@s/b"),
        vec![b"node_modules/@s/b/".to_vec()]
    );
    assert!(writer.add_ancestors(b"").is_empty());
}
