use find_duplicates::duplicates::{
    find_duplicates, flatten_buckets, groups_from_buckets, DuplicateGroup, DuplicateStats,
};
use find_duplicates::hasher::hash_bytes;
use find_duplicates::scanner::{group_by_size, FileInfo};
use std::cell::RefCell;
use std::path::PathBuf;

fn file(path: &str, size: u64) -> FileInfo {
    FileInfo { path: PathBuf::from(path), size }
}

fn names(paths: &[PathBuf]) -> Vec<String> {
    paths.iter().map(|p| p.display().to_string()).collect()
}

fn hasher_over(
    contents: Vec<(&'static str, Vec<u8>)>,
) -> impl Fn(&PathBuf) -> Result<String, String> {
    move |path: &PathBuf| {
        for (name, content) in contents.iter() {
            if PathBuf::from(*name) == *path {
                return Ok(hash_bytes(content));
            }
        }
        Err(format!("cannot read {}", path.display()))
    }
}

#[test]
fn three_identical_files_and_one_of_the_same_size() {
    let same = vec![b'x'; 1000];
    let mut other = vec![b'x'; 1000];
    other[999] = b'y';
    let files = vec![file("a", 1000), file("b", 1000), file("odd", 1000), file("c", 1000)];
    let hasher = hasher_over(vec![
        ("a", same.clone()),
        ("b", same.clone()),
        ("c", same.clone()),
        ("odd", other),
    ]);

    let groups = find_duplicates(files, hasher);

    assert_eq!(groups.len(), 1);
    assert_eq!(groups[0].hash, hash_bytes(&same));
    assert_eq!(groups[0].size, 1000);
    assert_eq!(names(&groups[0].paths), vec!["a", "b", "c"]);
    assert_eq!(groups[0].wasted_space(), 2000);
    assert_eq!(groups[0].duplicate_count(), 2);

    let stats = DuplicateStats::from_groups(&groups);
    assert_eq!(stats.total_groups, 1);
    assert_eq!(stats.total_duplicate_files, 2);
    assert_eq!(stats.total_wasted_bytes, 2000);
}

#[test]
fn same_size_alone_makes_no_group() {
    let files = vec![file("a", 100), file("b", 100), file("c", 200)];
    let hasher = hasher_over(vec![
        ("a", vec![1u8; 100]),
        ("b", vec![2u8; 100]),
        ("c", vec![1u8; 200]),
    ]);

    let groups = find_duplicates(files, hasher);

    assert!(groups.is_empty());
}

#[test]
fn rescan_after_keeping_one_file_of_each_group_finds_nothing() {
    let contents = vec![
        ("a1", vec![1u8; 10]),
        ("a2", vec![1u8; 10]),
        ("a3", vec![1u8; 10]),
        ("b1", vec![2u8; 10]),
        ("b2", vec![2u8; 10]),
        ("c1", vec![3u8; 10]),
        ("d1", vec![4u8; 20]),
        ("d2", vec![4u8; 20]),
        ("e1", vec![5u8; 30]),
    ];
    let files: Vec<FileInfo> =
        contents.iter().map(|(name, content)| file(name, content.len() as u64)).collect();

    let groups = find_duplicates(files.clone(), hasher_over(contents.clone()));
    assert_eq!(groups.len(), 3);

    let mut deleted: Vec<PathBuf> = Vec::new();
    for group in groups.iter() {
        deleted.extend(group.paths.iter().skip(1).cloned());
    }
    assert_eq!(deleted.len(), DuplicateStats::from_groups(&groups).total_duplicate_files);
    let left: Vec<FileInfo> = files.into_iter().filter(|f| !deleted.contains(&f.path)).collect();
    assert_eq!(left.len(), 5);

    let again = find_duplicates(left, hasher_over(contents));
    assert!(again.is_empty());
}

#[test]
fn find_duplicates_of_nothing_is_nothing() {
    let groups = find_duplicates(vec![], hasher_over(vec![]));
    assert!(groups.is_empty());
}

#[test]
fn find_duplicates_hashes_only_files_that_share_their_size() {
    let asked = RefCell::new(Vec::new());
    let files = vec![
        file("lone", 1),
        file("m1", 2),
        file("n1", 3),
        file("m2", 2),
        file("solo", 4),
        file("n2", 3),
        file("m3", 2),
    ];
    let groups = find_duplicates(files, |path: &PathBuf| -> Result<String, ()> {
        let name = path.display().to_string();
        asked.borrow_mut().push(name.clone());
        Ok(name[..1].to_string())
    });
    // size by size, the sizes in the order of their first file
    assert_eq!(*asked.borrow(), vec!["m1", "m2", "m3", "n1", "n2"]);
    assert_eq!(groups.len(), 2);
    assert_eq!(groups[0].hash, "m");
    assert_eq!(groups[0].size, 2);
    assert_eq!(names(&groups[0].paths), vec!["m1", "m2", "m3"]);
    assert_eq!(groups[1].hash, "n");
    assert_eq!(groups[1].size, 3);
    assert_eq!(names(&groups[1].paths), vec!["n1", "n2"]);
}

#[test]
fn find_duplicates_leaves_out_files_that_cannot_be_hashed() {
    let files = vec![file("a", 8), file("b", 8), file("c", 8)];
    let groups = find_duplicates(files, |path: &PathBuf| -> Result<String, String> {
        if *path == PathBuf::from("b") {
            Err("permission denied".to_string())
        } else {
            Ok("0123".to_string())
        }
    });
    assert_eq!(groups.len(), 1);
    assert_eq!(names(&groups[0].paths), vec!["a", "c"]);
    assert_eq!(groups[0].wasted_space(), 8);
}

#[test]
fn every_group_has_two_or_more_files_of_one_size() {
    let sizes: Vec<u64> = vec![10, 20, 10, 30, 20, 10, 40, 40, 40, 40, 50, 20];
    let files: Vec<FileInfo> =
        sizes.iter().enumerate().map(|(i, s)| file(&format!("{}-{}", s, i), *s)).collect();
    // the content of a file depends on its size and on whether its index is even
    let groups = find_duplicates(files.clone(), |path: &PathBuf| -> Result<String, ()> {
        let name = path.display().to_string();
        let (size, index) = name.split_once('-').unwrap();
        let index: usize = index.parse().unwrap();
        Ok(format!("{}:{}", size, index % 2))
    });
    assert!(!groups.is_empty());
    for group in groups.iter() {
        assert!(group.paths.len() >= 2);
        for path in group.paths.iter() {
            let member = files.iter().find(|f| f.path == *path).unwrap();
            assert_eq!(member.size, group.size);
        }
        assert_eq!(group.wasted_space(), group.size * (group.paths.len() as u64 - 1));
    }
    let in_groups: usize = groups.iter().map(|g| g.paths.len()).sum();
    assert_eq!(in_groups, 8);
}

#[test]
fn flatten_buckets_follows_the_order_of_first_occurrence() {
    let files = vec![
        file("a", 5),
        file("b", 7),
        file("c", 5),
        file("d", 9),
        file("e", 7),
        file("f", 3),
        file("g", 3),
    ];
    let groups = group_by_size(files);
    let flat = flatten_buckets(groups, &vec![7, 5, 9, 7, 3, 5, 11]);
    let found: Vec<String> = flat.iter().map(|f| f.path.display().to_string()).collect();
    assert_eq!(found, vec!["b", "e", "a", "c", "f", "g"]);
}

#[test]
fn flatten_buckets_leaves_out_sizes_that_are_not_asked_for() {
    let groups = group_by_size(vec![file("a", 5), file("b", 5), file("c", 6), file("d", 6)]);
    let flat = flatten_buckets(groups, &vec![6]);
    let found: Vec<String> = flat.iter().map(|f| f.path.display().to_string()).collect();
    assert_eq!(found, vec!["c", "d"]);
}

#[test]
fn groups_from_buckets_takes_the_size_of_the_first_file() {
    let buckets = vec![
        ("h1".to_string(), vec![file("a", 5), file("b", 6)]),
        ("h2".to_string(), vec![]),
        ("h3".to_string(), vec![file("c", 7)]),
    ];
    let groups: Vec<DuplicateGroup> = groups_from_buckets(buckets);
    assert_eq!(groups.len(), 3);
    assert_eq!(groups[0].hash, "h1");
    assert_eq!(groups[0].size, 5);
    assert_eq!(names(&groups[0].paths), vec!["a", "b"]);
    assert_eq!(groups[1].hash, "h2");
    assert_eq!(groups[1].size, 0);
    assert!(groups[1].paths.is_empty());
    assert_eq!(groups[2].hash, "h3");
    assert_eq!(groups[2].size, 7);
    assert_eq!(names(&groups[2].paths), vec!["c"]);
}

#[test]
fn clones_equal_what_they_were_made_from() {
    let source = file("some/dir/a.txt", 42);
    let copy = source.clone();
    assert_eq!(copy.path, source.path);
    assert_eq!(copy.size, 42);

    let group = DuplicateGroup {
        hash: "5eb63bbbe01eeed093cb22bb8f5acdc3".to_string(),
        size: 11,
        paths: vec![PathBuf::from("a"), PathBuf::from("b"), PathBuf::from("c")],
    };
    let twin = group.clone();
    assert_eq!(twin.hash, group.hash);
    assert_eq!(twin.size, 11);
    assert_eq!(twin.paths, group.paths);

    let nothing = DuplicateGroup { hash: String::new(), size: 0, paths: vec![] };
    assert!(nothing.clone().paths.is_empty());
}

#[test]
fn a_fingerprint_shared_across_sizes_makes_one_group() {
    // two files of 100 bytes and two of 200 bytes, all answered with one fingerprint
    let files = vec![file("a", 100), file("b", 200), file("c", 100), file("d", 200)];
    let groups = find_duplicates(files, |_: &PathBuf| -> Result<String, ()> { Ok("same".to_string()) });
    assert_eq!(groups.len(), 1);
    assert_eq!(groups[0].size, 100);
    assert_eq!(names(&groups[0].paths), vec!["a", "c", "b", "d"]);
}
