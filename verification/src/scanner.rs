//! File records and the two filters that find content-identical files:
//! bucketing by size, then bucketing by content fingerprint.

use crate::filtering::{lemma_filter_no_duplicates, lemma_filter_positions};
use std::collections::HashMap;
use std::path::PathBuf;
use vstd::hash_map::StringHashMap;
use vstd::prelude::*;

verus! {

broadcast use vstd::std_specs::hash::group_hash_axioms;

/// `std::path::PathBuf`, carried through as an opaque value: this library
/// moves paths around and never looks inside one.
#[verifier::external_type_specification]
#[verifier::external_body]
pub struct ExPathBuf(PathBuf);

/// `PathBuf::clone`, which per the standard library returns a duplicate of
/// the path it is given.
pub assume_specification[ <PathBuf as Clone>::clone ](path: &PathBuf) -> (copy: PathBuf)
    ensures
        copy == *path,
;

/// One file considered for deduplication.
#[derive(Debug)]
pub struct FileInfo {
    /// Where the file is; it identifies the file.
    pub path: PathBuf,
    /// The file's size in bytes.
    pub size: u64,
}

impl Clone for FileInfo {
    fn clone(&self) -> (copy: Self)
        ensures
            copy == *self,
    {
        FileInfo { path: self.path.clone(), size: self.size }
    }
}

/// The files of the given size, in the order of `files`.
pub open spec fn of_size(files: Seq<FileInfo>, size: u64) -> Seq<FileInfo> {
    files.filter(|file: FileInfo| file.size == size)
}

/// The size index of `files`: each size that two or more files have, with
/// the files of that size in their order. A size that only one file has is
/// left out, since that file cannot be a duplicate of anything.
pub open spec fn size_buckets(files: Seq<FileInfo>) -> Map<u64, Seq<FileInfo>> {
    Map::new(|size: u64| of_size(files, size).len() >= 2, |size: u64| of_size(files, size))
}

/// What the buckets of an index keyed by size hold.
pub open spec fn bucket_contents(index: Map<u64, Vec<FileInfo>>) -> Map<u64, Seq<FileInfo>> {
    index.map_values(|bucket: Vec<FileInfo>| bucket@)
}

/// Adding a file to the end adds it to the files of its own size and to
/// those of no other size.
pub proof fn lemma_of_size_push(files: Seq<FileInfo>, file: FileInfo, size: u64)
    ensures
        file.size == size ==> of_size(files.push(file), size) == of_size(files, size).push(file),
        file.size != size ==> of_size(files.push(file), size) == of_size(files, size),
{
    reveal(Seq::filter);
    assert(files.push(file).drop_last() =~= files);
}

/// The files of a size are files of the input and have that size; and
/// where one file of the input has a size, or two have, the files of that
/// size are at least as many.
pub proof fn lemma_of_size_members(files: Seq<FileInfo>, size: u64)
    ensures
        forall|k: int|
            0 <= k < of_size(files, size).len() ==> (#[trigger] of_size(files, size)[k]).size
                == size && files.contains(of_size(files, size)[k]),
        forall|i: int|
            0 <= i < files.len() && (#[trigger] files[i]).size == size ==> of_size(
                files,
                size,
            ).len() >= 1,
        forall|i: int, j: int|
            0 <= i < j < files.len() && (#[trigger] files[i]).size == size && (
            #[trigger] files[j]).size == size ==> of_size(files, size).len() >= 2,
{
    let from = lemma_filter_positions(files, |file: FileInfo| file.size == size);
    assert forall|k: int| 0 <= k < of_size(files, size).len() implies (#[trigger] of_size(
        files,
        size,
    )[k]).size == size && files.contains(of_size(files, size)[k]) by {
        assert(files[from[k]] == of_size(files, size)[k]);
    }
    assert forall|i: int| 0 <= i < files.len() && (#[trigger] files[i]).size
        == size implies of_size(files, size).len() >= 1 by {
        assert(from.contains(i));
    }
    assert forall|i: int, j: int|
        0 <= i < j < files.len() && (#[trigger] files[i]).size == size && (
        #[trigger] files[j]).size == size implies of_size(files, size).len() >= 2 by {
        assert(from.contains(i));
        assert(from.contains(j));
        let m = choose|m: int| 0 <= m < from.len() && from[m] == i;
        let n = choose|n: int| 0 <= n < from.len() && from[n] == j;
        assert(m != n);
    }
}

/// Size filter soundness. Every bucket of the size index holds two or more
/// files, all of them files of the input that have the bucket's size; and a
/// file whose size has no bucket is the only file of its size in the input.
pub proof fn lemma_size_filter_sound(files: Seq<FileInfo>)
    ensures
        forall|size: u64| #[trigger]
            size_buckets(files).contains_key(size) ==> size_buckets(files)[size].len() >= 2,
        forall|size: u64, k: int|
            size_buckets(files).contains_key(size) && 0 <= k < size_buckets(files)[size].len() ==> (
            #[trigger] size_buckets(files)[size][k]).size == size && files.contains(
                size_buckets(files)[size][k],
            ),
        forall|i: int, j: int|
            0 <= i < files.len() && 0 <= j < files.len() && !size_buckets(files).contains_key(
                (#[trigger] files[i]).size,
            ) && (#[trigger] files[j]).size == files[i].size ==> i == j,
{
    assert forall|size: u64, k: int|
        size_buckets(files).contains_key(size) && 0 <= k < size_buckets(files)[size].len() implies (
    #[trigger] size_buckets(files)[size][k]).size == size && files.contains(
        size_buckets(files)[size][k],
    ) by {
        lemma_of_size_members(files, size);
    }
    assert forall|i: int, j: int|
        0 <= i < files.len() && 0 <= j < files.len() && !size_buckets(files).contains_key(
            (#[trigger] files[i]).size,
        ) && (#[trigger] files[j]).size == files[i].size implies i == j by {
        lemma_of_size_members(files, files[i].size);
    }
}

/// How many files there are of each size that occurs.
fn count_sizes(files: &Vec<FileInfo>) -> (counts: HashMap<u64, usize>)
    ensures
        forall|size: u64| #[trigger] counts@.contains_key(size) <==> of_size(files@, size).len() >= 1,
        forall|size: u64| #[trigger]
            counts@.contains_key(size) ==> counts@[size] == of_size(files@, size).len(),
{
    let mut counts: HashMap<u64, usize> = HashMap::new();
    let mut i: usize = 0;
    assert(files@.take(0) =~= Seq::<FileInfo>::empty());
    assert(forall|size: u64| of_size(Seq::<FileInfo>::empty(), size).len() == 0) by {
        reveal(Seq::filter);
    }
    while i < files.len()
        invariant
            i <= files.len(),
            forall|size: u64| #[trigger]
                counts@.contains_key(size) <==> of_size(files@.take(i as int), size).len() >= 1,
            forall|size: u64| #[trigger]
                counts@.contains_key(size) ==> counts@[size] == of_size(
                    files@.take(i as int),
                    size,
                ).len(),
        decreases files.len() - i,
    {
        let size: u64 = files[i].size;
        let seen: usize = match counts.get(&size) {
            Some(n) => *n,
            None => 0,
        };
        proof {
            let before = files@.take(i as int);
            assert(files@.take(i + 1) =~= before.push(files@[i as int]));
            assert forall|other: u64|
                of_size(files@.take(i + 1), other) == (if other == size {
                    of_size(before, other).push(files@[i as int])
                } else {
                    of_size(before, other)
                }) by {
                lemma_of_size_push(before, files@[i as int], other);
            }
            before.lemma_filter_len(|file: FileInfo| file.size == size);
        }
        counts.insert(size, seen + 1);
        i += 1;
    }
    assert(files@.take(i as int) =~= files@);
    counts
}

/// Buckets `files` by size and keeps the buckets of two or more files: the
/// cheap first filter, which reads no file.
pub fn group_by_size(files: Vec<FileInfo>) -> (groups: HashMap<u64, Vec<FileInfo>>)
    ensures
        bucket_contents(groups@) == size_buckets(files@),
{
    let counts = count_sizes(&files);
    let ghost all = files@;
    let mut groups: HashMap<u64, Vec<FileInfo>> = HashMap::new();
    proof {
        assert(all.take(0) =~= Seq::<FileInfo>::empty());
        assert(forall|size: u64| of_size(Seq::<FileInfo>::empty(), size).len() == 0) by {
            reveal(Seq::filter);
        }
    }
    for file in it: files
        invariant
            it.seq() == all,
            forall|size: u64| #[trigger]
                counts@.contains_key(size) <==> of_size(all, size).len() >= 1,
            forall|size: u64| #[trigger]
                counts@.contains_key(size) ==> counts@[size] == of_size(all, size).len(),
            forall|size: u64| #[trigger]
                groups@.contains_key(size) <==> of_size(all, size).len() >= 2 && of_size(
                    all.take(it.index()),
                    size,
                ).len() >= 1,
            forall|size: u64| #[trigger]
                groups@.contains_key(size) ==> groups@[size]@ == of_size(
                    all.take(it.index()),
                    size,
                ),
    {
        let size: u64 = file.size;
        proof {
            let before = all.take(it.index());
            assert(all.take(it.index() + 1) =~= before.push(file));
            assert forall|other: u64|
                of_size(all.take(it.index() + 1), other) == (if other == size {
                    of_size(before, other).push(file)
                } else {
                    of_size(before, other)
                }) by {
                lemma_of_size_push(before, file, other);
            }
            lemma_of_size_members(all, size);
        }
        let shared: bool = match counts.get(&size) {
            Some(n) => *n >= 2,
            None => false,
        };
        if shared {
            let mut bucket: Vec<FileInfo> = match groups.remove(&size) {
                Some(bucket) => bucket,
                None => Vec::new(),
            };
            bucket.push(file);
            groups.insert(size, bucket);
        }
    }
    proof {
        assert(all.take(all.len() as int) =~= all);
        assert(bucket_contents(groups@) =~= size_buckets(all));
    }
    groups
}

/// What is known of a file's content: its fingerprint, or nothing where
/// the file could not be read.
pub open spec fn fingerprint_view(fingerprint: Option<String>) -> Option<Seq<char>> {
    match fingerprint {
        Some(hash) => Some(hash@),
        None => None,
    }
}

/// Files paired with what is known of their content, as plain values.
pub open spec fn tagged_view(tagged: Seq<(FileInfo, Option<String>)>) -> Seq<
    (FileInfo, Option<Seq<char>>),
> {
    tagged.map_values(|pair: (FileInfo, Option<String>)| (pair.0, fingerprint_view(pair.1)))
}

/// The files whose fingerprint is `hash`, in the order of `tagged`.
pub open spec fn with_fingerprint(
    tagged: Seq<(FileInfo, Option<Seq<char>>)>,
    hash: Seq<char>,
) -> Seq<FileInfo> {
    tagged.filter(|pair: (FileInfo, Option<Seq<char>>)| pair.1 == Some(hash)).map_values(
        |pair: (FileInfo, Option<Seq<char>>)| pair.0,
    )
}

/// The fingerprints that occur in `tagged`, each once, in the order in
/// which they first occur.
pub open spec fn fingerprints_seen(tagged: Seq<(FileInfo, Option<Seq<char>>)>) -> Seq<Seq<char>>
    decreases tagged.len(),
{
    if tagged.len() == 0 {
        Seq::empty()
    } else {
        let before = fingerprints_seen(tagged.drop_last());
        match tagged.last().1 {
            Some(hash) => if before.contains(hash) {
                before
            } else {
                before.push(hash)
            },
            None => before,
        }
    }
}

/// The hash index of `tagged`: one bucket for each fingerprint that two or
/// more files have, with the files of that fingerprint in their order. The
/// buckets stand in the order in which their fingerprints first occur. A
/// file without a fingerprint is in no bucket.
pub open spec fn hash_buckets(tagged: Seq<(FileInfo, Option<Seq<char>>)>) -> Seq<
    (Seq<char>, Seq<FileInfo>),
> {
    fingerprints_seen(tagged).filter(|hash: Seq<char>| with_fingerprint(tagged, hash).len() >= 2)
        .map_values(|hash: Seq<char>| (hash, with_fingerprint(tagged, hash)))
}

/// What the buckets of a hash index hold.
pub open spec fn hash_bucket_contents(buckets: Seq<(String, Vec<FileInfo>)>) -> Seq<
    (Seq<char>, Seq<FileInfo>),
> {
    buckets.map_values(|bucket: (String, Vec<FileInfo>)| (bucket.0@, bucket.1@))
}

/// Adding a file to the end adds it to the files of its own fingerprint
/// and to those of no other.
pub proof fn lemma_with_fingerprint_push(
    tagged: Seq<(FileInfo, Option<Seq<char>>)>,
    pair: (FileInfo, Option<Seq<char>>),
    hash: Seq<char>,
)
    ensures
        pair.1 == Some(hash) ==> with_fingerprint(tagged.push(pair), hash) == with_fingerprint(
            tagged,
            hash,
        ).push(pair.0),
        pair.1 != Some(hash) ==> with_fingerprint(tagged.push(pair), hash) == with_fingerprint(
            tagged,
            hash,
        ),
{
    reveal(Seq::filter);
    assert(tagged.push(pair).drop_last() =~= tagged);
    let kept = tagged.filter(|pair: (FileInfo, Option<Seq<char>>)| pair.1 == Some(hash));
    if pair.1 == Some(hash) {
        assert(with_fingerprint(tagged.push(pair), hash) =~= with_fingerprint(tagged, hash).push(
            pair.0,
        ));
    }
}

/// No fingerprint is listed twice, and a fingerprint is listed just when
/// some file has it.
pub proof fn lemma_fingerprints_seen(tagged: Seq<(FileInfo, Option<Seq<char>>)>)
    ensures
        fingerprints_seen(tagged).no_duplicates(),
        forall|hash: Seq<char>| #[trigger]
            fingerprints_seen(tagged).contains(hash) <==> with_fingerprint(tagged, hash).len() >= 1,
    decreases tagged.len(),
{
    if tagged.len() == 0 {
        assert forall|hash: Seq<char>| with_fingerprint(tagged, hash).len() == 0 by {
            reveal(Seq::filter);
        }
    } else {
        let front = tagged.drop_last();
        let before = fingerprints_seen(front);
        lemma_fingerprints_seen(front);
        assert(front.push(tagged.last()) =~= tagged);
        assert forall|hash: Seq<char>| #[trigger]
            fingerprints_seen(tagged).contains(hash) <==> with_fingerprint(tagged, hash).len()
                >= 1 by {
            lemma_with_fingerprint_push(front, tagged.last(), hash);
            assert(before.contains(hash) <==> with_fingerprint(front, hash).len() >= 1);
            match tagged.last().1 {
                Some(last) => {
                    if !before.contains(last) {
                        let seen = before.push(last);
                        assert(seen[seen.len() - 1] == last);
                        if before.contains(hash) {
                            let at = choose|at: int| 0 <= at < before.len() && before[at] == hash;
                            assert(seen[at] == hash);
                        }
                    }
                },
                None => {},
            }
        }
    }
}

/// Buckets `tagged` by fingerprint, singletons included: one bucket for
/// each fingerprint that occurs, in the order of first occurrence.
fn bucket_all(tagged: Vec<(FileInfo, Option<String>)>) -> (all: Vec<(String, Vec<FileInfo>)>)
    ensures
        all@.len() == fingerprints_seen(tagged_view(tagged@)).len(),
        forall|k: int|
            0 <= k < all@.len() ==> (#[trigger] all@[k]).0@ == fingerprints_seen(
                tagged_view(tagged@),
            )[k] && all@[k].1@ == with_fingerprint(tagged_view(tagged@), all@[k].0@),
{
    let ghost input = tagged_view(tagged@);
    let ghost items = tagged@;
    let mut all: Vec<(String, Vec<FileInfo>)> = Vec::new();
    let mut index: StringHashMap<usize> = StringHashMap::new();
    proof {
        assert(input.take(0) =~= Seq::<(FileInfo, Option<Seq<char>>)>::empty());
        lemma_fingerprints_seen(input.take(0));
    }
    for item in it: tagged
        invariant
            it.seq() == items,
            input == tagged_view(items),
            all@.len() == fingerprints_seen(input.take(it.index())).len(),
            forall|k: int|
                0 <= k < all@.len() ==> (#[trigger] all@[k]).0@ == fingerprints_seen(
                    input.take(it.index()),
                )[k] && all@[k].1@ == with_fingerprint(input.take(it.index()), all@[k].0@),
            forall|hash: Seq<char>| #[trigger]
                index@.contains_key(hash) <==> fingerprints_seen(input.take(it.index())).contains(
                    hash,
                ),
            forall|hash: Seq<char>| #[trigger]
                index@.contains_key(hash) ==> 0 <= index@[hash] < all@.len()
                    && all@[index@[hash] as int].0@ == hash,
    {
        let ghost n = it.index();
        let ghost before = input.take(n);
        let ghost seen = fingerprints_seen(before);
        let ghost old_all = all@;
        proof {
            assert(input.take(n + 1) =~= before.push(input[n]));
            assert(input.take(n + 1).drop_last() =~= before);
            assert(input[n] == (item.0, fingerprint_view(item.1)));
            lemma_fingerprints_seen(before);
            lemma_fingerprints_seen(input.take(n + 1));
            assert forall|hash: Seq<char>|
                with_fingerprint(input.take(n + 1), hash) == (if input[n].1 == Some(hash) {
                    with_fingerprint(before, hash).push(item.0)
                } else {
                    with_fingerprint(before, hash)
                }) by {
                lemma_with_fingerprint_push(before, input[n], hash);
            }
        }
        let (file, fingerprint) = item;
        match fingerprint {
            Some(hash) => {
                let found: Option<usize> = match index.get(hash.as_str()) {
                    Some(at) => Some(*at),
                    None => None,
                };
                match found {
                    Some(at) => {
                        all[at].1.push(file);
                        proof {
                            assert(fingerprints_seen(input.take(n + 1)) == seen);
                            assert forall|k: int| 0 <= k < all@.len() implies (#[trigger] all@[k]).0@
                                == seen[k] && all@[k].1@ == with_fingerprint(
                                input.take(n + 1),
                                all@[k].0@,
                            ) by {
                                if k != at {
                                    assert(all@[k] == old_all[k]);
                                    assert(seen[k] != seen[at as int]);
                                }
                            }
                        }
                    },
                    None => {
                        let mut bucket: Vec<FileInfo> = Vec::new();
                        bucket.push(file);
                        index.insert(hash.clone(), all.len());
                        all.push((hash, bucket));
                        proof {
                            assert(fingerprints_seen(input.take(n + 1)) == seen.push(hash@));
                            assert(with_fingerprint(before, hash@).len() == 0);
                            assert(with_fingerprint(input.take(n + 1), hash@) =~= seq![file]);
                            assert forall|k: int| 0 <= k < all@.len() implies (#[trigger] all@[k]).0@
                                == seen.push(hash@)[k] && all@[k].1@ == with_fingerprint(
                                input.take(n + 1),
                                all@[k].0@,
                            ) by {
                                if k < old_all.len() {
                                    assert(all@[k] == old_all[k]);
                                    assert(seen.contains(seen[k]));
                                }
                            }
                            assert forall|other: Seq<char>| #[trigger]
                                index@.contains_key(other) implies 0 <= index@[other] < all@.len()
                                && all@[index@[other] as int].0@ == other by {
                                if other != hash@ {
                                    assert(all@[index@[other] as int] == old_all[index@[other] as int]);
                                }
                            }
                        }
                    },
                }
            },
            None => {
                proof {
                    assert(fingerprints_seen(input.take(n + 1)) == seen);
                }
            },
        }
    }
    proof {
        assert(input.take(input.len() as int) =~= input);
    }
    all
}

/// Buckets `tagged` by fingerprint and keeps the buckets of two or more
/// files. Each file comes with its fingerprint, or with `None` where it
/// could not be read; such a file is left out.
pub fn bucket_by_fingerprint(tagged: Vec<(FileInfo, Option<String>)>) -> (buckets: Vec<
    (String, Vec<FileInfo>),
>)
    ensures
        hash_bucket_contents(buckets@) == hash_buckets(tagged_view(tagged@)),
{
    let ghost input = tagged_view(tagged@);
    let ghost seen = fingerprints_seen(input);
    let ghost shared = |hash: Seq<char>| with_fingerprint(input, hash).len() >= 2;
    let ghost bucket_of = |hash: Seq<char>| (hash, with_fingerprint(input, hash));
    let all = bucket_all(tagged);
    let ghost every = all@;
    let mut buckets: Vec<(String, Vec<FileInfo>)> = Vec::new();
    proof {
        assert(seen.take(0) =~= Seq::<Seq<char>>::empty());
        assert(seen.take(0).filter(shared).len() == 0) by {
            reveal(Seq::filter);
        }
        assert(hash_bucket_contents(buckets@) =~= seen.take(0).filter(shared).map_values(
            bucket_of,
        ));
    }
    for bucket in it: all
        invariant
            it.seq() == every,
            every.len() == seen.len(),
            forall|k: int|
                0 <= k < every.len() ==> (#[trigger] every[k]).0@ == seen[k] && every[k].1@
                    == with_fingerprint(input, every[k].0@),
            shared == |hash: Seq<char>| with_fingerprint(input, hash).len() >= 2,
            bucket_of == |hash: Seq<char>| (hash, with_fingerprint(input, hash)),
            hash_bucket_contents(buckets@) == seen.take(it.index()).filter(shared).map_values(
                bucket_of,
            ),
    {
        proof {
            let k = it.index();
            assert(seen.take(k + 1) =~= seen.take(k).push(seen[k]));
            seen.take(k).lemma_filter_push(seen[k], shared);
            assert(bucket == every[k]);
        }
        if bucket.1.len() >= 2 {
            let ghost earlier = buckets@;
            buckets.push(bucket);
            proof {
                let k = it.index();
                let kept = seen.take(k).filter(shared);
                let now = hash_bucket_contents(buckets@);
                let goal = kept.push(seen[k]).map_values(bucket_of);
                assert(hash_bucket_contents(earlier).len() == kept.len());
                assert forall|i: int| 0 <= i < now.len() implies now[i] == goal[i] by {
                    if i < earlier.len() {
                        assert(buckets@[i] == earlier[i]);
                        assert(now[i] == hash_bucket_contents(earlier)[i]);
                    }
                }
                assert(now =~= goal);
            }
        }
    }
    proof {
        assert(seen.take(seen.len() as int) =~= seen);
    }
    buckets
}

/// What a hasher's answer tells of a file's content: the fingerprint, or
/// nothing where the hasher failed.
pub open spec fn outcome_view<E>(outcome: Result<String, E>) -> Option<Seq<char>> {
    match outcome {
        Ok(hash) => Some(hash@),
        Err(_) => None,
    }
}

/// The files paired with what the hasher answered for each.
pub open spec fn tagged_with<E>(files: Seq<FileInfo>, outcomes: Seq<Result<String, E>>) -> Seq<
    (FileInfo, Option<Seq<char>>),
> {
    Seq::new(files.len(), |i: int| (files[i], outcome_view(outcomes[i])))
}

/// `outcomes` holds, for each of `files` in turn, an answer that `hasher`
/// may give when it is called on that file's path.
pub open spec fn hashed_by<E, H: Fn(&PathBuf) -> Result<String, E>>(
    hasher: H,
    files: Seq<FileInfo>,
    outcomes: Seq<Result<String, E>>,
) -> bool {
    &&& outcomes.len() == files.len()
    &&& forall|i: int|
        0 <= i < files.len() ==> call_ensures(hasher, (&files[i].path,), #[trigger] outcomes[i])
}

/// Buckets `files` by content fingerprint and keeps the buckets of two or
/// more files. `hasher` is called once on the path of each file, in order; a
/// file for which it fails is silently left out.
pub fn group_by_hash<E, H: Fn(&PathBuf) -> Result<String, E>>(
    files: Vec<FileInfo>,
    hasher: H,
) -> (groups: Vec<(String, Vec<FileInfo>)>)
    requires
        forall|i: int| 0 <= i < files@.len() ==> call_requires(hasher, (&(#[trigger] files@[i]).path,)),
    ensures
        exists|outcomes: Seq<Result<String, E>>|
            hashed_by(hasher, files@, outcomes) && hash_bucket_contents(groups@) == hash_buckets(
                tagged_with(files@, outcomes),
            ),
{
    let ghost all = files@;
    let ghost mut outcomes: Seq<Result<String, E>> = Seq::empty();
    let mut tagged: Vec<(FileInfo, Option<String>)> = Vec::new();
    for file in it: files
        invariant
            it.seq() == all,
            forall|i: int| 0 <= i < all.len() ==> call_requires(hasher, (&(#[trigger] all[i]).path,)),
            hashed_by(hasher, all.take(it.index()), outcomes),
            tagged_view(tagged@) == tagged_with(all.take(it.index()), outcomes),
    {
        let ghost n = it.index();
        let ghost earlier = tagged@;
        let ghost answers = outcomes;
        assert(file == all[n]);
        let outcome = hasher(&file.path);
        proof {
            outcomes = outcomes.push(outcome);
        }
        let fingerprint: Option<String> = match outcome {
            Ok(hash) => Some(hash),
            Err(_) => None,
        };
        tagged.push((file, fingerprint));
        proof {
            let now = tagged_view(tagged@);
            let goal = tagged_with(all.take(n + 1), outcomes);
            assert(tagged_view(earlier).len() == tagged_with(all.take(n), answers).len());
            assert(earlier.len() == n);
            assert forall|i: int| 0 <= i < now.len() implies now[i] == goal[i] by {
                if i < n {
                    assert(tagged@[i] == earlier[i]);
                    assert(now[i] == tagged_view(earlier)[i]);
                    assert(tagged_with(all.take(n), answers)[i] == goal[i]);
                }
            }
            assert(now =~= goal);
        }
    }
    proof {
        assert(all.take(all.len() as int) =~= all);
    }
    bucket_by_fingerprint(tagged)
}

/// Hash filter soundness. Every bucket of the hash index holds two or more
/// files; each of them is a file of the input whose fingerprint is the
/// bucket's, so no two files of a bucket differ in fingerprint; and no two
/// buckets have the same fingerprint.
pub proof fn lemma_hash_filter_sound(tagged: Seq<(FileInfo, Option<Seq<char>>)>)
    ensures
        forall|k: int|
            0 <= k < hash_buckets(tagged).len() ==> (#[trigger] hash_buckets(tagged)[k]).1.len()
                >= 2 && hash_buckets(tagged)[k].1 == with_fingerprint(
                tagged,
                hash_buckets(tagged)[k].0,
            ),
        forall|k: int, m: int|
            0 <= k < hash_buckets(tagged).len() && 0 <= m < hash_buckets(tagged)[k].1.len()
                ==> tagged.contains(
                (#[trigger] hash_buckets(tagged)[k].1[m], Some(hash_buckets(tagged)[k].0)),
            ),
        forall|k: int, l: int|
            0 <= k < l < hash_buckets(tagged).len() ==> (#[trigger] hash_buckets(tagged)[k]).0 != (
            #[trigger] hash_buckets(tagged)[l]).0,
{
    let shared = |hash: Seq<char>| with_fingerprint(tagged, hash).len() >= 2;
    let kept = fingerprints_seen(tagged).filter(shared);
    lemma_fingerprints_seen(tagged);
    let from = lemma_filter_positions(fingerprints_seen(tagged), shared);
    lemma_filter_no_duplicates(fingerprints_seen(tagged), shared);
    assert forall|k: int, m: int|
        0 <= k < hash_buckets(tagged).len() && 0 <= m < hash_buckets(tagged)[k].1.len() implies tagged.contains(
        (#[trigger] hash_buckets(tagged)[k].1[m], Some(hash_buckets(tagged)[k].0)),
    ) by {
        let hash = kept[k];
        let with = |pair: (FileInfo, Option<Seq<char>>)| pair.1 == Some(hash);
        let at = lemma_filter_positions(tagged, with);
        assert(tagged[at[m]] == tagged.filter(with)[m]);
    }
}

/// Two files of the input that have the same fingerprint make that
/// fingerprint a shared one, and both are among its files.
pub proof fn lemma_shared_fingerprint(
    tagged: Seq<(FileInfo, Option<Seq<char>>)>,
    i: int,
    j: int,
    hash: Seq<char>,
)
    requires
        0 <= i < j < tagged.len(),
        tagged[i].1 == Some(hash),
        tagged[j].1 == Some(hash),
    ensures
        with_fingerprint(tagged, hash).len() >= 2,
        exists|m: int, n: int|
            0 <= m < n < with_fingerprint(tagged, hash).len() && #[trigger] with_fingerprint(
                tagged,
                hash,
            )[m] == tagged[i].0 && #[trigger] with_fingerprint(tagged, hash)[n] == tagged[j].0,
{
    let with = |pair: (FileInfo, Option<Seq<char>>)| pair.1 == Some(hash);
    let from = lemma_filter_positions(tagged, with);
    assert(from.contains(i));
    assert(from.contains(j));
    let m = choose|m: int| 0 <= m < from.len() && from[m] == i;
    let n = choose|n: int| 0 <= n < from.len() && from[n] == j;
    if n <= m {
        if n < m {
            assert(from[n] < from[m]);
        }
    }
    assert(with_fingerprint(tagged, hash)[m] == tagged[i].0);
    assert(with_fingerprint(tagged, hash)[n] == tagged[j].0);
}

/// Hash filter completeness. Every fingerprint that two or more files have
/// has its bucket in the hash index.
pub proof fn lemma_hash_filter_complete(tagged: Seq<(FileInfo, Option<Seq<char>>)>, hash: Seq<char>)
    requires
        with_fingerprint(tagged, hash).len() >= 2,
    ensures
        exists|k: int|
            0 <= k < hash_buckets(tagged).len() && #[trigger] hash_buckets(tagged)[k] == (
                hash,
                with_fingerprint(tagged, hash),
            ),
{
    let shared = |hash: Seq<char>| with_fingerprint(tagged, hash).len() >= 2;
    let seen = fingerprints_seen(tagged);
    lemma_fingerprints_seen(tagged);
    assert(seen.contains(hash));
    let at = choose|at: int| 0 <= at < seen.len() && seen[at] == hash;
    let from = lemma_filter_positions(seen, shared);
    assert(shared(seen[at]));
    assert(from.contains(at));
    let k = choose|k: int| 0 <= k < from.len() && from[k] == at;
    assert(hash_buckets(tagged)[k] == (hash, with_fingerprint(tagged, hash)));
}

} // verus!
