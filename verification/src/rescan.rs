//! What a second scan finds once the duplicates that a first scan found
//! have been deleted.

use crate::duplicates::{candidates, duplicate_groups, lemma_candidates_of_size,
    lemma_no_shared_fingerprint_no_group, GroupView};
use crate::filtering::{lemma_filter_contains, lemma_filter_no_duplicates, lemma_filter_positions};
use crate::scanner::{
    hash_buckets, hashed_by, lemma_hash_filter_complete, lemma_of_size_members,
    lemma_shared_fingerprint, of_size, outcome_view, tagged_with, with_fingerprint, FileInfo,
};
use std::path::PathBuf;
use vstd::prelude::*;

verus! {

/// The files paired with what is known of their content, where `content`
/// tells for each path the fingerprint of the file there, or nothing where
/// the file cannot be read.
pub open spec fn tagged_by(
    files: Seq<FileInfo>,
    content: spec_fn(PathBuf) -> Option<Seq<char>>,
) -> Seq<(FileInfo, Option<Seq<char>>)> {
    files.map_values(|file: FileInfo| (file, content(file.path)))
}

/// The duplicate groups that a scan of `files` finds while the files'
/// content is as `content` tells.
pub open spec fn scan(files: Seq<FileInfo>, content: spec_fn(PathBuf) -> Option<Seq<char>>) -> Seq<
    GroupView,
> {
    duplicate_groups(tagged_by(candidates(files), content))
}

/// A hasher that answers for every path what `content` tells tags the
/// files as `content` does: a scan with it finds `scan(files, content)`.
pub proof fn lemma_faithful_hasher<E, H: Fn(&PathBuf) -> Result<String, E>>(
    hasher: H,
    files: Seq<FileInfo>,
    outcomes: Seq<Result<String, E>>,
    content: spec_fn(PathBuf) -> Option<Seq<char>>,
)
    requires
        hashed_by(hasher, files, outcomes),
        forall|path: PathBuf, outcome: Result<String, E>| #[trigger]
            call_ensures(hasher, (&path,), outcome) ==> outcome_view(outcome) == content(path),
    ensures
        tagged_with(files, outcomes) == tagged_by(files, content),
{
    assert(tagged_with(files, outcomes) =~= tagged_by(files, content));
}

/// A file is a candidate just when it is a file of the input that shares
/// its size with another.
pub proof fn lemma_candidates_contain(files: Seq<FileInfo>, file: FileInfo)
    ensures
        candidates(files).contains(file) <==> files.contains(file) && of_size(
            files,
            file.size,
        ).len() >= 2,
{
    let same_size = |other: FileInfo| other.size == file.size;
    lemma_candidates_of_size(files, file.size);
    lemma_filter_contains(candidates(files), same_size, file);
    lemma_filter_contains(files, same_size, file);
}

/// Where no file is listed twice, no candidate is.
pub proof fn lemma_candidates_no_duplicates(files: Seq<FileInfo>)
    requires
        files.no_duplicates(),
    ensures
        candidates(files).no_duplicates(),
{
    let found = candidates(files);
    assert forall|p: int, q: int| 0 <= p < found.len() && 0 <= q < found.len() && p != q implies found[p]
        != found[q] by {
        if found[p] == found[q] {
            let size = found[p].size;
            let same_size = |other: FileInfo| other.size == size;
            let from = lemma_filter_positions(found, same_size);
            assert(from.contains(p));
            assert(from.contains(q));
            let m = choose|m: int| 0 <= m < from.len() && from[m] == p;
            let n = choose|n: int| 0 <= n < from.len() && from[n] == q;
            lemma_candidates_of_size(files, size);
            lemma_filter_no_duplicates(files, same_size);
            assert(of_size(found, size)[m] == of_size(found, size)[n]);
        }
    }
}

/// What is left of the files shares a size only where the files did.
pub proof fn lemma_kept_sizes(files: Seq<FileInfo>, kept: spec_fn(FileInfo) -> bool, size: u64)
    requires
        of_size(files.filter(kept), size).len() >= 2,
    ensures
        of_size(files, size).len() >= 2,
{
    let left = files.filter(kept);
    let same_size = |other: FileInfo| other.size == size;
    let within = lemma_filter_positions(left, same_size);
    let from = lemma_filter_positions(files, kept);
    let i = from[within[0]];
    let j = from[within[1]];
    assert(within[0] < within[1]);
    assert(i < j);
    assert(files[i].size == size && files[j].size == size);
    lemma_of_size_members(files, size);
}

/// Rescanning after deletion. Let a scan of files with distinct paths have
/// found its groups, and let files be deleted so that of every group at
/// most one file is left. While the content of what is left stays as it
/// was, a scan of it finds no group.
pub proof fn lemma_rescan_finds_nothing(
    files: Seq<FileInfo>,
    content: spec_fn(PathBuf) -> Option<Seq<char>>,
    kept: spec_fn(FileInfo) -> bool,
)
    requires
        forall|i: int, j: int|
            0 <= i < j < files.len() ==> (#[trigger] files[i]).path != (#[trigger] files[j]).path,
        forall|k: int, m: int, n: int|
            #![trigger hash_buckets(tagged_by(candidates(files), content))[k].1[m], hash_buckets(tagged_by(candidates(files), content))[k].1[n]]
            0 <= k < hash_buckets(tagged_by(candidates(files), content)).len() && 0 <= m < n
                < hash_buckets(tagged_by(candidates(files), content))[k].1.len() ==> !(kept(
                hash_buckets(tagged_by(candidates(files), content))[k].1[m],
            ) && kept(hash_buckets(tagged_by(candidates(files), content))[k].1[n])),
    ensures
        scan(files.filter(kept), content).len() == 0,
{
    let left = files.filter(kept);
    let first = tagged_by(candidates(files), content);
    let second = tagged_by(candidates(left), content);
    assert(files.no_duplicates());
    lemma_filter_no_duplicates(files, kept);
    lemma_candidates_no_duplicates(left);
    assert forall|i: int, j: int|
        0 <= i < j < second.len() && (#[trigger] second[i]).1 is Some implies second[i].1 != (
    #[trigger] second[j]).1 by {
        if second[i].1 == second[j].1 {
            let hash = second[i].1->0;
            let one = candidates(left)[i];
            let other = candidates(left)[j];
            assert(candidates(left).contains(one));
            assert(candidates(left).contains(other));
            assert(one != other);
            lemma_candidates_contain(left, one);
            lemma_candidates_contain(left, other);
            lemma_filter_contains(files, kept, one);
            lemma_filter_contains(files, kept, other);
            lemma_kept_sizes(files, kept, one.size);
            lemma_kept_sizes(files, kept, other.size);
            lemma_candidates_contain(files, one);
            lemma_candidates_contain(files, other);
            let a = choose|a: int| 0 <= a < candidates(files).len() && candidates(files)[a] == one;
            let b = choose|b: int| 0 <= b < candidates(files).len() && candidates(files)[b] == other;
            assert(first[a].1 == Some(hash) && first[b].1 == Some(hash));
            let (low, high) = if a < b {
                (a, b)
            } else {
                (b, a)
            };
            lemma_shared_fingerprint(first, low, high, hash);
            lemma_hash_filter_complete(first, hash);
            let members = with_fingerprint(first, hash);
            let k = choose|k: int|
                0 <= k < hash_buckets(first).len() && #[trigger] hash_buckets(first)[k] == (
                    hash,
                    members,
                );
            let (m, n) = choose|m: int, n: int|
                0 <= m < n < members.len() && #[trigger] members[m] == first[low].0
                    && #[trigger] members[n] == first[high].0;
            assert(kept(one) && kept(other));
            assert(kept(hash_buckets(first)[k].1[m]) && kept(hash_buckets(first)[k].1[n]));
        }
    }
    lemma_no_shared_fingerprint_no_group(second);
}

} // verus!
