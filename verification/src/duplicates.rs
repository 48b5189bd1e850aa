//! Groups of content-identical files and the space that their redundant
//! copies occupy.

use crate::filtering::{lemma_filter_keeps_all, lemma_filter_keeps_none, lemma_filter_positions};
use crate::scanner::{
    bucket_contents, group_by_hash, group_by_size, hash_bucket_contents, hash_buckets, hashed_by,
    lemma_hash_filter_sound, lemma_of_size_members, of_size, size_buckets, tagged_with, FileInfo,
};
use crate::text::{decimal, decimal_string, digit_char, digit_str};
use std::collections::HashMap;
use std::path::PathBuf;
use vstd::prelude::*;

verus! {

broadcast use vstd::std_specs::hash::group_hash_axioms;

/// Files with identical content.
#[derive(Debug)]
pub struct DuplicateGroup {
    /// The content fingerprint that all files of the group share.
    pub hash: String,
    /// The size in bytes of each file of the group.
    pub size: u64,
    /// The files of the group; by convention the first one is the copy to
    /// keep.
    pub paths: Vec<PathBuf>,
}

impl Clone for DuplicateGroup {
    fn clone(&self) -> (copy: Self)
        ensures
            copy@ == self@,
    {
        let mut paths: Vec<PathBuf> = Vec::new();
        let mut i: usize = 0;
        while i < self.paths.len()
            invariant
                i <= self.paths.len(),
                paths@ == self.paths@.take(i as int),
            decreases self.paths.len() - i,
        {
            paths.push(self.paths[i].clone());
            assert(paths@ =~= self.paths@.take(i + 1));
            i += 1;
        }
        assert(self.paths@.take(i as int) =~= self.paths@);
        DuplicateGroup { hash: self.hash.clone(), size: self.size, paths }
    }
}

impl DuplicateGroup {
    /// The number of files beyond the first: zero for an empty group.
    pub open spec fn redundant_copies(&self) -> nat {
        if self.paths@.len() >= 1 {
            (self.paths@.len() - 1) as nat
        } else {
            0
        }
    }

    /// The bytes that the files beyond the first occupy.
    pub open spec fn redundant_bytes(&self) -> nat {
        self.size as nat * self.redundant_copies()
    }

    /// The space that would be recovered by keeping a single copy.
    pub fn wasted_space(&self) -> (bytes: u64)
        requires
            self.redundant_bytes() <= u64::MAX,
        ensures
            bytes == self.redundant_bytes(),
            self.paths@.len() >= 1 ==> bytes == self.size * (self.paths@.len() - 1),
            self.paths@.len() == 0 ==> bytes == 0,
    {
        if self.paths.len() > 1 {
            self.size * (self.paths.len() as u64 - 1)
        } else {
            assert(self.redundant_copies() == 0);
            assert(self.redundant_bytes() == 0) by (nonlinear_arith)
                requires
                    self.redundant_bytes() == self.size as nat * self.redundant_copies(),
                    self.redundant_copies() == 0,
            ;
            0
        }
    }

    /// The number of files that could be deleted while one copy stays.
    pub fn duplicate_count(&self) -> (count: usize)
        ensures
            count == self.redundant_copies(),
    {
        self.paths.len().saturating_sub(1)
    }
}

/// The number of bytes in a kilobyte.
pub const KB: u64 = 1024;

/// The number of bytes in a megabyte.
pub const MB: u64 = 1024 * 1024;

/// The number of bytes in a gigabyte.
pub const GB: u64 = 1024 * 1024 * 1024;

/// The unit in which a byte count is written: 0 for bytes, 1 for KB, 2 for
/// MB and 3 for GB.
pub open spec fn magnitude(bytes: u64) -> nat {
    if bytes < KB {
        0
    } else if bytes < MB {
        1
    } else if bytes < GB {
        2
    } else {
        3
    }
}

/// The number of bytes in one unit of the given magnitude.
pub open spec fn unit_bytes(magnitude: nat) -> nat {
    if magnitude == 0 {
        1
    } else if magnitude == 1 {
        KB as nat
    } else if magnitude == 2 {
        MB as nat
    } else {
        GB as nat
    }
}

/// What is written behind the number for the given magnitude.
pub open spec fn unit_suffix(magnitude: nat) -> Seq<char> {
    if magnitude == 0 {
        " bytes"@
    } else if magnitude == 1 {
        " KB"@
    } else if magnitude == 2 {
        " MB"@
    } else {
        " GB"@
    }
}

/// The quotient `num / den` rounded to the nearest integer; a quotient
/// exactly halfway between two integers goes to the even one.
pub open spec fn round_half_even(num: nat, den: nat) -> nat
    recommends
        den > 0,
{
    let floor = num / den;
    let rest = num % den;
    if 2 * rest < den {
        floor
    } else if 2 * rest > den {
        floor + 1
    } else if floor % 2 == 0 {
        floor
    } else {
        floor + 1
    }
}

/// The byte count in hundredths of its unit, rounded to the nearest
/// hundredth.
pub open spec fn hundredths(bytes: u64) -> nat {
    round_half_even(bytes as nat * 100, unit_bytes(magnitude(bytes)))
}

/// A number of hundredths written with exactly two decimals.
pub open spec fn two_decimals(hundredths: nat) -> Seq<char> {
    decimal(hundredths / 100) + seq![
        '.',
        digit_char(hundredths / 10 % 10),
        digit_char(hundredths % 10),
    ]
}

/// The human-readable rendering of a byte count: a plain count below one
/// kilobyte, otherwise two decimals of the largest unit that the count
/// reaches.
pub open spec fn formatted(bytes: u64) -> Seq<char> {
    if magnitude(bytes) == 0 {
        decimal(bytes as nat) + unit_suffix(0)
    } else {
        two_decimals(hundredths(bytes)) + unit_suffix(magnitude(bytes))
    }
}

/// Writes `bytes / unit` with two decimals, followed by `suffix`.
fn format_scaled(bytes: u64, unit: u64, suffix: &str) -> (text: String)
    requires
        unit >= 1024,
    ensures
        text@ == two_decimals(round_half_even(bytes as nat * 100, unit as nat)) + suffix@,
{
    let num: u128 = bytes as u128 * 100;
    let den: u128 = unit as u128;
    let floor: u128 = num / den;
    let rest: u128 = num % den;
    assert(floor <= 0x1_0000_0000_0000_0000 * 100 / 1024) by (nonlinear_arith)
        requires
            floor == num / den,
            den >= 1024,
            num <= 0x1_0000_0000_0000_0000 * 100,
    ;
    let rounded: u128 = if 2 * rest < den {
        floor
    } else if 2 * rest > den {
        floor + 1
    } else if floor % 2 == 0 {
        floor
    } else {
        floor + 1
    };
    let h: u64 = rounded as u64;
    assert(h == round_half_even(bytes as nat * 100, unit as nat));
    let mut text = decimal_string(h / 100);
    text.append(".");
    text.append(digit_str((h / 10 % 10) as u8));
    text.append(digit_str((h % 10) as u8));
    proof {
        reveal_strlit(".");
        assert(text@ =~= two_decimals(h as nat));
    }
    text.append(suffix);
    text
}

/// The redundant copies of all `groups` together.
pub open spec fn total_redundant_copies(groups: Seq<DuplicateGroup>) -> nat
    decreases groups.len(),
{
    if groups.len() == 0 {
        0
    } else {
        total_redundant_copies(groups.drop_last()) + groups.last().redundant_copies()
    }
}

/// The bytes that the redundant copies of all `groups` together occupy.
pub open spec fn total_redundant_bytes(groups: Seq<DuplicateGroup>) -> nat
    decreases groups.len(),
{
    if groups.len() == 0 {
        0
    } else {
        total_redundant_bytes(groups.drop_last()) + groups.last().redundant_bytes()
    }
}

/// The totals of the first `n` groups do not exceed the totals of all.
pub proof fn lemma_totals_of_prefix(groups: Seq<DuplicateGroup>, n: int)
    requires
        0 <= n <= groups.len(),
    ensures
        total_redundant_copies(groups.take(n)) <= total_redundant_copies(groups),
        total_redundant_bytes(groups.take(n)) <= total_redundant_bytes(groups),
    decreases groups.len(),
{
    if n == groups.len() {
        assert(groups.take(n) =~= groups);
    } else {
        assert(groups.drop_last().take(n) =~= groups.take(n));
        lemma_totals_of_prefix(groups.drop_last(), n);
    }
}

/// What a set of duplicate groups amounts to.
#[derive(Debug, Clone)]
pub struct DuplicateStats {
    /// The number of groups.
    pub total_groups: usize,
    /// The number of files beyond one per group.
    pub total_duplicate_files: usize,
    /// The bytes that removing those files would recover.
    pub total_wasted_bytes: u64,
}

impl DuplicateStats {
    /// Sums up `groups`: how many there are, how many files they hold
    /// beyond one each, and how many bytes those files occupy.
    pub fn from_groups(groups: &[DuplicateGroup]) -> (stats: Self)
        requires
            total_redundant_copies(groups@) <= usize::MAX,
            total_redundant_bytes(groups@) <= u64::MAX,
        ensures
            stats.total_groups == groups@.len(),
            stats.total_duplicate_files == total_redundant_copies(groups@),
            stats.total_wasted_bytes == total_redundant_bytes(groups@),
    {
        let mut files: usize = 0;
        let mut bytes: u64 = 0;
        let mut i: usize = 0;
        while i < groups.len()
            invariant
                i <= groups.len(),
                files == total_redundant_copies(groups@.take(i as int)),
                bytes == total_redundant_bytes(groups@.take(i as int)),
                total_redundant_copies(groups@) <= usize::MAX,
                total_redundant_bytes(groups@) <= u64::MAX,
            decreases groups.len() - i,
        {
            proof {
                assert(groups@.take(i + 1).drop_last() =~= groups@.take(i as int));
                lemma_totals_of_prefix(groups@, i + 1);
            }
            files = files + groups[i].duplicate_count();
            bytes = bytes + groups[i].wasted_space();
            i += 1;
        }
        assert(groups@.take(i as int) =~= groups@);
        DuplicateStats { total_groups: groups.len(), total_duplicate_files: files, total_wasted_bytes: bytes }
    }

    /// Renders a byte count for people, in binary units: a plain count
    /// below 1024, otherwise KB, MB or GB with two decimals.
    pub fn format_bytes(bytes: u64) -> (text: String)
        ensures
            text@ == formatted(bytes),
    {
        if bytes >= GB {
            format_scaled(bytes, GB, " GB")
        } else if bytes >= MB {
            format_scaled(bytes, MB, " MB")
        } else if bytes >= KB {
            format_scaled(bytes, KB, " KB")
        } else {
            let mut text = decimal_string(bytes);
            text.append(" bytes");
            text
        }
    }
}

/// A larger byte count is never written in a smaller unit, and among
/// counts written in one unit a larger count never shows a smaller number.
pub proof fn lemma_format_monotonic(smaller: u64, larger: u64)
    requires
        smaller <= larger,
    ensures
        magnitude(smaller) <= magnitude(larger),
        magnitude(smaller) == magnitude(larger) ==> hundredths(smaller) <= hundredths(larger),
{
    if magnitude(smaller) == magnitude(larger) {
        lemma_round_half_even_monotonic(
            smaller as nat * 100,
            larger as nat * 100,
            unit_bytes(magnitude(smaller)),
        );
    }
}

/// Rounding keeps the order of quotients with a common denominator.
pub proof fn lemma_round_half_even_monotonic(a: nat, b: nat, den: nat)
    requires
        a <= b,
        den > 0,
    ensures
        round_half_even(a, den) <= round_half_even(b, den),
{
    let fa = a / den;
    let fb = b / den;
    let ra = a % den;
    let rb = b % den;
    assert(a == den * fa + ra && b == den * fb + rb && ra < den && rb < den && fa <= fb)
        by (nonlinear_arith)
        requires
            a <= b,
            den > 0,
            fa == a / den,
            fb == b / den,
            ra == a % den,
            rb == b % den,
    ;
    if fa == fb {
        assert(ra <= rb);
    }
}

/// A duplicate group as plain values.
pub struct GroupView {
    /// The fingerprint that the files share.
    pub hash: Seq<char>,
    /// The size of each file.
    pub size: u64,
    /// The files, the one to keep first.
    pub paths: Seq<PathBuf>,
}

impl View for DuplicateGroup {
    type V = GroupView;

    open spec fn view(&self) -> GroupView {
        GroupView { hash: self.hash@, size: self.size, paths: self.paths@ }
    }
}

/// The groups as plain values.
pub open spec fn group_views(groups: Seq<DuplicateGroup>) -> Seq<GroupView> {
    groups.map_values(|group: DuplicateGroup| group@)
}

/// The sizes of `files`, in order.
pub open spec fn sizes_of(files: Seq<FileInfo>) -> Seq<u64> {
    files.map_values(|file: FileInfo| file.size)
}

/// The paths of `files`, in order.
pub open spec fn paths_of(files: Seq<FileInfo>) -> Seq<PathBuf> {
    files.map_values(|file: FileInfo| file.path)
}

/// The buckets laid end to end. They follow each other in the order in
/// which their sizes first occur in `order`; a bucket whose size does not
/// occur there is left out.
pub open spec fn flattened(buckets: Map<u64, Seq<FileInfo>>, order: Seq<u64>) -> Seq<FileInfo>
    decreases order.len(),
{
    if order.len() == 0 {
        Seq::empty()
    } else {
        let before = flattened(buckets, order.drop_last());
        if buckets.contains_key(order.last()) && !order.drop_last().contains(order.last()) {
            before + buckets[order.last()]
        } else {
            before
        }
    }
}

/// The files that may have a duplicate: those that share their size with
/// another file. They stand size by size, the sizes in the order in which
/// they first occur in `files`, and the files of one size in their order.
pub open spec fn candidates(files: Seq<FileInfo>) -> Seq<FileInfo> {
    flattened(size_buckets(files), sizes_of(files))
}

/// The group that a bucket of the hash index makes: its fingerprint, the
/// size of its first file, and the paths of its files.
pub open spec fn group_of(bucket: (Seq<char>, Seq<FileInfo>)) -> GroupView {
    GroupView {
        hash: bucket.0,
        size: if bucket.1.len() > 0 {
            bucket.1[0].size
        } else {
            0
        },
        paths: paths_of(bucket.1),
    }
}

/// The duplicate groups among files whose fingerprints are known: one for
/// each bucket of their hash index, in the order of the buckets.
pub open spec fn duplicate_groups(tagged: Seq<(FileInfo, Option<Seq<char>>)>) -> Seq<GroupView> {
    hash_buckets(tagged).map_values(|bucket: (Seq<char>, Seq<FileInfo>)| group_of(bucket))
}

/// The sizes of `files`, in order.
fn file_sizes(files: &Vec<FileInfo>) -> (sizes: Vec<u64>)
    ensures
        sizes@ == sizes_of(files@),
{
    let mut sizes: Vec<u64> = Vec::new();
    let mut i: usize = 0;
    while i < files.len()
        invariant
            i <= files.len(),
            sizes@ == sizes_of(files@.take(i as int)),
        decreases files.len() - i,
    {
        sizes.push(files[i].size);
        assert(sizes@ =~= sizes_of(files@.take(i + 1)));
        i += 1;
    }
    assert(files@.take(i as int) =~= files@);
    sizes
}

/// Lays the buckets of a size index end to end, in the order in which
/// their sizes first occur in `order`.
pub fn flatten_buckets(groups: HashMap<u64, Vec<FileInfo>>, order: &Vec<u64>) -> (files: Vec<
    FileInfo,
>)
    ensures
        files@ == flattened(bucket_contents(groups@), order@),
{
    let ghost buckets = bucket_contents(groups@);
    let mut left = groups;
    let mut files: Vec<FileInfo> = Vec::new();
    let mut i: usize = 0;
    assert(order@.take(0) =~= Seq::<u64>::empty());
    while i < order.len()
        invariant
            i <= order.len(),
            files@ == flattened(buckets, order@.take(i as int)),
            forall|size: u64| #[trigger]
                left@.contains_key(size) <==> buckets.contains_key(size) && !order@.take(
                    i as int,
                ).contains(size),
            forall|size: u64| #[trigger] left@.contains_key(size) ==> left@[size]@ == buckets[size],
        decreases order.len() - i,
    {
        let size: u64 = order[i];
        proof {
            let seen = order@.take(i as int);
            let next = order@.take(i + 1);
            assert(next.drop_last() =~= seen);
            assert(next.last() == size);
            assert forall|other: u64| next.contains(other) <==> seen.contains(other) || other
                == size by {
                if seen.contains(other) {
                    let at = choose|at: int| 0 <= at < seen.len() && seen[at] == other;
                    assert(next[at] == other);
                }
                if other == size {
                    assert(next[i as int] == other);
                }
                if next.contains(other) {
                    let at = choose|at: int| 0 <= at < next.len() && next[at] == other;
                    if at < i {
                        assert(seen[at] == other);
                    }
                }
            }
        }
        match left.remove(&size) {
            Some(bucket) => {
                let mut bucket = bucket;
                files.append(&mut bucket);
            },
            None => {},
        }
        i += 1;
    }
    assert(order@.take(i as int) =~= order@);
    files
}

/// Makes a duplicate group of each bucket of a hash index: the group has
/// the bucket's fingerprint, the size of its first file and the paths of
/// its files.
pub fn groups_from_buckets(buckets: Vec<(String, Vec<FileInfo>)>) -> (groups: Vec<DuplicateGroup>)
    ensures
        group_views(groups@) == hash_bucket_contents(buckets@).map_values(
            |bucket: (Seq<char>, Seq<FileInfo>)| group_of(bucket),
        ),
{
    let ghost all = buckets@;
    let mut groups: Vec<DuplicateGroup> = Vec::new();
    for bucket in it: buckets
        invariant
            it.seq() == all,
            group_views(groups@) == hash_bucket_contents(all.take(it.index())).map_values(
                |bucket: (Seq<char>, Seq<FileInfo>)| group_of(bucket),
            ),
    {
        let ghost earlier = groups@;
        let (hash, files) = bucket;
        let ghost members = files@;
        let size: u64 = if files.len() > 0 {
            files[0].size
        } else {
            0
        };
        let mut paths: Vec<PathBuf> = Vec::new();
        for file in at: files
            invariant
                at.seq() == members,
                paths@ == paths_of(members.take(at.index())),
        {
            paths.push(file.path);
            assert(paths@ =~= paths_of(members.take(at.index() + 1)));
        }
        assert(members.take(members.len() as int) =~= members);
        groups.push(DuplicateGroup { hash, size, paths });
        proof {
            let n = it.index();
            let now = group_views(groups@);
            let goal = hash_bucket_contents(all.take(n + 1)).map_values(
                |bucket: (Seq<char>, Seq<FileInfo>)| group_of(bucket),
            );
            assert(group_views(earlier).len() == n);
            assert forall|k: int| 0 <= k < now.len() implies now[k] == goal[k] by {
                if k < n {
                    assert(groups@[k] == earlier[k]);
                    assert(now[k] == group_views(earlier)[k]);
                    assert(all.take(n)[k] == all.take(n + 1)[k]);
                }
            }
            assert(now =~= goal);
        }
    }
    assert(all.take(all.len() as int) =~= all);
    groups
}

/// Finds the groups of content-identical files among `files`. Files are
/// first bucketed by size, which reads nothing; only those that share their
/// size with another file are handed to `hasher`, once each, and bucketed by
/// the fingerprint that it answers. A file for which `hasher` fails is left
/// out. Each fingerprint that two or more files have makes a group.
pub fn find_duplicates<E, H: Fn(&PathBuf) -> Result<String, E>>(
    files: Vec<FileInfo>,
    hasher: H,
) -> (groups: Vec<DuplicateGroup>)
    requires
        forall|i: int|
            0 <= i < candidates(files@).len() ==> call_requires(
                hasher,
                (&(#[trigger] candidates(files@)[i]).path,),
            ),
    ensures
        exists|outcomes: Seq<Result<String, E>>|
            hashed_by(hasher, candidates(files@), outcomes) && group_views(groups@)
                == duplicate_groups(tagged_with(candidates(files@), outcomes)),
        forall|k: int| 0 <= k < groups@.len() ==> (#[trigger] groups@[k]).paths@.len() >= 2,
{
    let ghost all = files@;
    let sizes = file_sizes(&files);
    let size_groups = group_by_size(files);
    let potential = flatten_buckets(size_groups, &sizes);
    assert(potential@ == candidates(all));
    let hash_groups = group_by_hash(potential, hasher);
    let groups = groups_from_buckets(hash_groups);
    proof {
        let outcomes = choose|outcomes: Seq<Result<String, E>>|
            hashed_by(hasher, potential@, outcomes) && hash_bucket_contents(hash_groups@)
                == hash_buckets(tagged_with(potential@, outcomes));
        let tagged = tagged_with(potential@, outcomes);
        lemma_hash_filter_sound(tagged);
        assert(group_views(groups@) == duplicate_groups(tagged));
        assert forall|k: int| 0 <= k < groups@.len() implies (#[trigger] groups@[k]).paths@.len()
            >= 2 by {
            assert(group_views(groups@)[k] == groups@[k]@);
            assert(duplicate_groups(tagged)[k] == group_of(hash_buckets(tagged)[k]));
            assert(hash_buckets(tagged)[k].1.len() >= 2);
        }
    }
    groups
}

/// Grouping invariant. Every duplicate group has two or more files. Where
/// files with the same fingerprint have the same size, as files with the
/// same content do, every file of a group has the size that the group
/// records.
pub proof fn lemma_grouping_invariant(tagged: Seq<(FileInfo, Option<Seq<char>>)>)
    requires
        forall|i: int, j: int|
            0 <= i < tagged.len() && 0 <= j < tagged.len() && (#[trigger] tagged[i]).1 is Some
                && tagged[i].1 == (#[trigger] tagged[j]).1 ==> tagged[i].0.size
                == tagged[j].0.size,
    ensures
        duplicate_groups(tagged).len() == hash_buckets(tagged).len(),
        forall|k: int|
            0 <= k < duplicate_groups(tagged).len() ==> (#[trigger] duplicate_groups(
                tagged,
            )[k]).paths.len() >= 2 && duplicate_groups(tagged)[k].paths == paths_of(
                hash_buckets(tagged)[k].1,
            ),
        forall|k: int, m: int|
            0 <= k < hash_buckets(tagged).len() && 0 <= m < hash_buckets(tagged)[k].1.len() ==> (
            #[trigger] hash_buckets(tagged)[k].1[m]).size == duplicate_groups(tagged)[k].size,
{
    lemma_hash_filter_sound(tagged);
    assert forall|k: int, m: int|
        0 <= k < hash_buckets(tagged).len() && 0 <= m < hash_buckets(tagged)[k].1.len() implies (
    #[trigger] hash_buckets(tagged)[k].1[m]).size == duplicate_groups(tagged)[k].size by {
        let bucket = hash_buckets(tagged)[k];
        let first = (bucket.1[0], Some(bucket.0));
        let other = (bucket.1[m], Some(bucket.0));
        assert(tagged.contains(first));
        assert(tagged.contains(other));
        let i = choose|i: int| 0 <= i < tagged.len() && tagged[i] == first;
        let j = choose|j: int| 0 <= j < tagged.len() && tagged[j] == other;
        assert(tagged[i].0.size == tagged[j].0.size);
    }
}

/// Where no two files have the same fingerprint, there is no duplicate
/// group: so it is once all but one file of every group are gone.
pub proof fn lemma_no_shared_fingerprint_no_group(tagged: Seq<(FileInfo, Option<Seq<char>>)>)
    requires
        forall|i: int, j: int|
            0 <= i < j < tagged.len() && (#[trigger] tagged[i]).1 is Some ==> tagged[i].1 != (
            #[trigger] tagged[j]).1,
    ensures
        hash_buckets(tagged).len() == 0,
        duplicate_groups(tagged).len() == 0,
{
    if hash_buckets(tagged).len() > 0 {
        lemma_hash_filter_sound(tagged);
        let hash = hash_buckets(tagged)[0].0;
        let with = |pair: (FileInfo, Option<Seq<char>>)| pair.1 == Some(hash);
        let from = lemma_filter_positions(tagged, with);
        assert(from[0] < from[1]);
        assert(tagged[from[0]].1 == tagged[from[1]].1);
    }
}

/// Flattening keeps the files of one size together. Where every bucket
/// holds files of its own size only, the flattened files of a size are the
/// bucket of that size, if there is one and the size occurs in `order`, and
/// none otherwise.
pub proof fn lemma_flattened_of_size(buckets: Map<u64, Seq<FileInfo>>, order: Seq<u64>, size: u64)
    requires
        forall|other: u64, k: int|
            buckets.contains_key(other) && 0 <= k < buckets[other].len() ==> (
            #[trigger] buckets[other][k]).size == other,
    ensures
        of_size(flattened(buckets, order), size) == (if buckets.contains_key(size)
            && order.contains(size) {
            buckets[size]
        } else {
            Seq::empty()
        }),
    decreases order.len(),
{
    let wanted = |file: FileInfo| file.size == size;
    if order.len() == 0 {
        lemma_filter_keeps_none(flattened(buckets, order), wanted);
    } else {
        let front = order.drop_last();
        let last = order.last();
        lemma_flattened_of_size(buckets, front, size);
        assert(order.contains(size) <==> front.contains(size) || last == size) by {
            if front.contains(size) {
                let at = choose|at: int| 0 <= at < front.len() && front[at] == size;
                assert(order[at] == size);
            }
            if last == size {
                assert(order[order.len() - 1] == size);
            }
            if order.contains(size) {
                let at = choose|at: int| 0 <= at < order.len() && order[at] == size;
                if at < front.len() {
                    assert(front[at] == size);
                }
            }
        }
        if buckets.contains_key(last) && !front.contains(last) {
            let added = buckets[last];
            Seq::filter_distributes_over_add(flattened(buckets, front), added, wanted);
            if last == size {
                lemma_filter_keeps_all(added, wanted);
                assert(Seq::<FileInfo>::empty() + added =~= added);
            } else {
                lemma_filter_keeps_none(added, wanted);
                assert(of_size(flattened(buckets, front), size) + Seq::<FileInfo>::empty()
                    =~= of_size(flattened(buckets, front), size));
            }
        }
    }
}

/// The candidates are the files that share their size with another file:
/// of each size that two or more files have, the candidates hold just those
/// files, in their order; of any other size they hold none.
pub proof fn lemma_candidates_of_size(files: Seq<FileInfo>, size: u64)
    ensures
        of_size(candidates(files), size) == (if of_size(files, size).len() >= 2 {
            of_size(files, size)
        } else {
            Seq::empty()
        }),
{
    let buckets = size_buckets(files);
    assert forall|other: u64, k: int|
        buckets.contains_key(other) && 0 <= k < buckets[other].len() implies (
    #[trigger] buckets[other][k]).size == other by {
        lemma_of_size_members(files, other);
    }
    lemma_flattened_of_size(buckets, sizes_of(files), size);
    if of_size(files, size).len() >= 2 {
        lemma_of_size_members(files, size);
        let member = of_size(files, size)[0];
        assert(files.contains(member));
        let at = choose|at: int| 0 <= at < files.len() && files[at] == member;
        assert(sizes_of(files)[at] == size);
    }
}

} // verus!
