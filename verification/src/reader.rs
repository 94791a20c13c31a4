//! The collector's decisions: which of the entries found under a root are
//! files, in what order they are read, and what one failed read means for
//! the whole collection. Walking the tree and reading the files is left to
//! the caller, who hands in what was found.

use crate::types::FileData;
use vstd::prelude::*;
use vstd::seq_lib::*;
use vstd::string::*;
use vstd::utf8::{encode_utf8, encode_utf8_decode_utf8};

verus! {

/// What was found at the root path.
#[derive(Debug, Clone, Copy, PartialEq, Eq, Structural)]
pub enum RootKind {
    /// Nothing is there.
    Missing,
    /// A regular file.
    File,
    /// A directory, or anything else that is no regular file.
    Directory,
}

/// What an entry of the walk turned out to be, links followed.
#[derive(Debug, Clone, Copy, PartialEq, Eq, Structural)]
pub enum EntryKind {
    File,
    Directory,
    Other,
}

/// One entry that the walk below a root could classify.
#[derive(Debug, Clone)]
pub struct Entry {
    pub path: String,
    pub kind: EntryKind,
}

/// The step at which reading a file failed.
#[derive(Debug, Clone, Copy, PartialEq, Eq, Structural)]
pub enum ReadStage {
    Open,
    Read,
}

/// Why a file could not be read.
#[derive(Debug, Clone)]
pub struct ReadFailure {
    pub stage: ReadStage,
    pub cause: String,
}

/// Why a collection failed.
#[derive(Debug, Clone)]
pub enum CollectError {
    /// The root path does not exist.
    PathNotFound { path: String },
    /// A file that was found could not be opened or read to its end.
    ReadError { path: String, stage: ReadStage, cause: String },
}

/// Lexicographic order on byte sequences: the first byte that differs
/// decides, and a sequence comes before those that it begins.
pub open spec fn lex_le(a: Seq<u8>, b: Seq<u8>) -> bool
    decreases a.len(),
{
    if a.len() == 0 {
        true
    } else if b.len() == 0 {
        false
    } else if a[0] != b[0] {
        a[0] < b[0]
    } else {
        lex_le(a.skip(1), b.skip(1))
    }
}

/// The bytes by which a path is ordered: its UTF-8 text.
pub open spec fn path_key(path: String) -> Seq<u8> {
    encode_utf8(path@)
}

/// Whether `paths` is in ascending lexicographic order.
pub open spec fn sorted(paths: Seq<String>) -> bool {
    forall|i: int, j: int|
        0 <= i < j < paths.len() ==> lex_le(#[trigger] path_key(paths[i]), #[trigger] path_key(paths[j]))
}

/// Strict lexicographic order: before, and not the same.
pub open spec fn lex_lt(a: Seq<u8>, b: Seq<u8>) -> bool {
    lex_le(a, b) && a != b
}

/// Whether `paths` is in strictly ascending lexicographic order, so that
/// no path occurs twice.
pub open spec fn strictly_sorted(paths: Seq<String>) -> bool {
    forall|i: int, j: int|
        0 <= i < j < paths.len() ==> lex_lt(#[trigger] path_key(paths[i]), #[trigger] path_key(paths[j]))
}

/// Whether no two of `paths` have the same text.
pub open spec fn distinct_paths(paths: Seq<String>) -> bool {
    forall|i: int, j: int|
        0 <= i < j < paths.len() ==> (#[trigger] paths[i])@ != (#[trigger] paths[j])@
}

/// Whether `paths` is in descending lexicographic order.
spec fn descending(paths: Seq<String>) -> bool {
    forall|i: int, j: int|
        0 <= i < j < paths.len() ==> lex_le(#[trigger] path_key(paths[j]), #[trigger] path_key(paths[i]))
}

/// Whether each of `low` comes before or with each of `high`.
spec fn all_le(low: Seq<String>, high: Seq<String>) -> bool {
    forall|i: int, j: int|
        0 <= i < low.len() && 0 <= j < high.len() ==> lex_le(
            #[trigger] path_key(low[i]),
            #[trigger] path_key(high[j]),
        )
}

/// Whether the records are in ascending lexicographic order of their paths.
pub open spec fn records_sorted(records: Seq<FileData>) -> bool {
    forall|i: int, j: int|
        0 <= i < j < records.len() ==> lex_le(
            #[trigger] path_key(records[i].path),
            #[trigger] path_key(records[j].path),
        )
}

/// Whether the records are in strictly ascending lexicographic order of
/// their paths, so that no path occurs twice.
pub open spec fn records_strictly_sorted(records: Seq<FileData>) -> bool {
    forall|i: int, j: int|
        0 <= i < j < records.len() ==> lex_lt(
            #[trigger] path_key(records[i].path),
            #[trigger] path_key(records[j].path),
        )
}

/// The paths of the entries of a walk that are regular files, in the
/// order of the walk. An entry that could not be classified is `None`.
pub open spec fn file_paths(walk: Seq<Option<Entry>>) -> Seq<String>
    decreases walk.len(),
{
    if walk.len() == 0 {
        Seq::empty()
    } else {
        let rest = file_paths(walk.drop_last());
        match walk.last() {
            Some(entry) => if entry.kind == EntryKind::File {
                rest.push(entry.path)
            } else {
                rest
            },
            None => rest,
        }
    }
}

/// Of two byte sequences one comes before or with the other.
pub proof fn lemma_lex_total(a: Seq<u8>, b: Seq<u8>)
    ensures
        lex_le(a, b) || lex_le(b, a),
    decreases a.len(),
{
    if a.len() > 0 && b.len() > 0 && a[0] == b[0] {
        lemma_lex_total(a.skip(1), b.skip(1));
    }
}

/// The lexicographic order is transitive.
pub proof fn lemma_lex_transitive(a: Seq<u8>, b: Seq<u8>, c: Seq<u8>)
    requires
        lex_le(a, b),
        lex_le(b, c),
    ensures
        lex_le(a, c),
    decreases a.len(),
{
    if a.len() > 0 && b.len() > 0 && c.len() > 0 && a[0] == b[0] && b[0] == c[0] {
        lemma_lex_transitive(a.skip(1), b.skip(1), c.skip(1));
    }
}

/// Paths of different text are ordered by different bytes.
pub proof fn lemma_key_tells_apart(a: String, b: String)
    requires
        a@ != b@,
    ensures
        path_key(a) != path_key(b),
{
    encode_utf8_decode_utf8(a@);
    encode_utf8_decode_utf8(b@);
}

/// Paths in ascending order that are the paths of a sequence without two
/// of the same text, each as often as there, are in strictly ascending
/// order.
pub proof fn lemma_sorted_distinct(given: Seq<String>, paths: Seq<String>)
    requires
        distinct_paths(given),
        sorted(paths),
        paths.to_multiset() == given.to_multiset(),
    ensures
        strictly_sorted(paths),
{
    broadcast use group_to_multiset_ensures;

    assert(given.no_duplicates()) by {
        assert forall|i: int, j: int|
            0 <= i < given.len() && 0 <= j < given.len() && i != j implies given[i] != given[j] by {
            if i < j {
                assert(given[i]@ != given[j]@);
            } else {
                assert(given[j]@ != given[i]@);
            }
        }
    }
    given.lemma_multiset_has_no_duplicates();
    paths.lemma_multiset_has_no_duplicates_conv();
    assert forall|i: int, j: int| 0 <= i < j < paths.len() implies lex_lt(
        #[trigger] path_key(paths[i]),
        #[trigger] path_key(paths[j]),
    ) by {
        assert(paths[i] != paths[j]);
        assert(paths.contains(paths[i]));
        assert(paths.contains(paths[j]));
        assert(given.to_multiset().count(paths[i]) > 0);
        assert(given.to_multiset().count(paths[j]) > 0);
        assert(given.contains(paths[i]));
        assert(given.contains(paths[j]));
        let a = choose|a: int| 0 <= a < given.len() && given[a] == paths[i];
        let b = choose|b: int| 0 <= b < given.len() && given[b] == paths[j];
        assert(a != b);
        if a < b {
            assert(given[a]@ != given[b]@);
        } else {
            assert(given[b]@ != given[a]@);
        }
        lemma_key_tells_apart(paths[i], paths[j]);
    }
}

/// Whether `a` comes before or with `b` in lexicographic order.
pub fn path_le(a: &str, b: &str) -> (r: bool)
    ensures
        r == lex_le(encode_utf8(a@), encode_utf8(b@)),
{
    let x = a.as_bytes();
    let y = b.as_bytes();
    let mut i: usize = 0;
    assert(x@.skip(0) =~= x@ && y@.skip(0) =~= y@);
    loop
        invariant
            i <= x@.len(),
            i <= y@.len(),
            x@ == encode_utf8(a@),
            y@ == encode_utf8(b@),
            lex_le(x@, y@) == lex_le(x@.skip(i as int), y@.skip(i as int)),
        decreases x@.len() - i,
    {
        if i == x.len() {
            return true;
        }
        if i == y.len() {
            return false;
        }
        if x[i] != y[i] {
            return x[i] < y[i];
        }
        proof {
            assert(x@.skip(i as int).skip(1) =~= x@.skip(i + 1));
            assert(y@.skip(i as int).skip(1) =~= y@.skip(i + 1));
        }
        i += 1;
    }
}

/// Merges two ascending sequences of paths into one.
fn merge(left: Vec<String>, right: Vec<String>) -> (r: Vec<String>)
    requires
        sorted(left@),
        sorted(right@),
    ensures
        sorted(r@),
        r@.to_multiset() == left@.to_multiset().add(right@.to_multiset()),
{
    broadcast use group_to_multiset_ensures;

    let ghost all = left@.to_multiset().add(right@.to_multiset());
    let mut left = left;
    let mut right = right;
    let mut down: Vec<String> = Vec::new();
    while left.len() > 0 || right.len() > 0
        invariant
            sorted(left@),
            sorted(right@),
            descending(down@),
            all_le(left@, down@),
            all_le(right@, down@),
            down@.to_multiset().add(left@.to_multiset()).add(right@.to_multiset()) == all,
        decreases left@.len() + right@.len(),
    {
        let from_left = if right.len() == 0 {
            true
        } else if left.len() == 0 {
            false
        } else {
            !path_le(left[left.len() - 1].as_str(), right[right.len() - 1].as_str())
        };
        let ghost left0 = left@;
        let ghost right0 = right@;
        let ghost down0 = down@;
        if from_left {
            let x = left.pop().unwrap();
            proof {
                assert(left0 =~= left@.push(x));
                assert forall|j: int| 0 <= j < right@.len() implies lex_le(
                    path_key(right@[j]),
                    path_key(x),
                ) by {
                    let top = right@[right@.len() - 1];
                    lemma_lex_total(path_key(x), path_key(top));
                    if j < right@.len() - 1 {
                        lemma_lex_transitive(path_key(right@[j]), path_key(top), path_key(x));
                    }
                }
            }
            down.push(x);
            proof {
                to_multiset_build(left@, x);
                to_multiset_build(down0, x);
                assert(down@.to_multiset().add(left@.to_multiset()).add(right@.to_multiset())
                    =~= all);
            }
        } else {
            let x = right.pop().unwrap();
            proof {
                assert(right0 =~= right@.push(x));
                assert forall|j: int| 0 <= j < left@.len() implies lex_le(
                    path_key(left@[j]),
                    path_key(x),
                ) by {
                    let top = left@[left@.len() - 1];
                    if j < left@.len() - 1 {
                        lemma_lex_transitive(path_key(left@[j]), path_key(top), path_key(x));
                    }
                }
            }
            down.push(x);
            proof {
                to_multiset_build(right@, x);
                to_multiset_build(down0, x);
                assert(down@.to_multiset().add(left@.to_multiset()).add(right@.to_multiset())
                    =~= all);
            }
        }
    }
    assert(left@ =~= Seq::<String>::empty() && right@ =~= Seq::<String>::empty());
    let mut out: Vec<String> = Vec::new();
    while down.len() > 0
        invariant
            sorted(out@),
            descending(down@),
            all_le(out@, down@),
            out@.to_multiset().add(down@.to_multiset()) == all,
        decreases down@.len(),
    {
        let ghost down0 = down@;
        let ghost out0 = out@;
        let x = down.pop().unwrap();
        assert(down0 =~= down@.push(x));
        out.push(x);
        proof {
            to_multiset_build(down@, x);
            to_multiset_build(out0, x);
            assert(out@.to_multiset().add(down@.to_multiset()) =~= all);
        }
    }
    assert(down@ =~= Seq::<String>::empty());
    assert(out@.to_multiset() =~= all);
    out
}

/// Puts `paths` in ascending lexicographic order. The result holds the
/// same paths, each as often as before; where no two of them have the
/// same text, the order is strict.
pub fn sort_paths(paths: Vec<String>) -> (r: Vec<String>)
    ensures
        sorted(r@),
        r@.to_multiset() == paths@.to_multiset(),
        distinct_paths(paths@) ==> strictly_sorted(r@),
    decreases paths@.len(),
{
    let mut left = paths;
    let n: usize = left.len();
    if n < 2 {
        return left;
    }
    let right = left.split_off(n / 2);
    proof {
        assert(paths@ =~= left@ + right@);
        lemma_multiset_commutative(left@, right@);
    }
    let left = sort_paths(left);
    let right = sort_paths(right);
    let merged = merge(left, right);
    proof {
        if distinct_paths(paths@) {
            lemma_sorted_distinct(paths@, merged@);
        }
    }
    merged
}

/// The message that tells the user of a missing root path.
pub open spec fn path_not_found_message(path: Seq<char>) -> Seq<char> {
    "Path does not exist: "@ + path
}

/// The message that tells the user of a file that could not be read.
pub open spec fn read_error_message(path: Seq<char>, stage: ReadStage, cause: Seq<char>) -> Seq<
    char,
> {
    match stage {
        ReadStage::Open => "Failed to open "@ + path + ": "@ + cause,
        ReadStage::Read => "Failed to read "@ + path + ": "@ + cause,
    }
}

impl CollectError {
    /// The message of this error, as a user reads it.
    pub open spec fn message_text(&self) -> Seq<char> {
        match *self {
            CollectError::PathNotFound { path } => path_not_found_message(path@),
            CollectError::ReadError { path, stage, cause } => read_error_message(
                path@,
                stage,
                cause@,
            ),
        }
    }

    /// The message of this error: it names the path, and for a failed read
    /// the step that failed and its cause.
    pub fn message(&self) -> (r: String)
        ensures
            r@ == self.message_text(),
    {
        match self {
            CollectError::PathNotFound { path } => {
                String::from_str("Path does not exist: ").concat(path.as_str())
            },
            CollectError::ReadError { path, stage, cause } => {
                let start = match stage {
                    ReadStage::Open => "Failed to open ",
                    ReadStage::Read => "Failed to read ",
                };
                String::from_str(start).concat(path.as_str()).concat(": ").concat(cause.as_str())
            },
        }
    }
}

/// Decides what is collected from what was found on disk.
pub struct FileCollector;

impl FileCollector {
    /// A collector. It holds nothing.
    pub fn new() -> (r: FileCollector) {
        FileCollector
    }

    /// The paths to read for a root, in the order in which they are read.
    /// A root that is missing is an error. A root that is a regular file
    /// is the one path, and the walk is not looked at. Otherwise the paths
    /// are those of the regular files of `walk`, where `None` stands for an
    /// entry that could not be classified, in ascending lexicographic
    /// order: each as often as the walk lists it, so in strictly ascending
    /// order where the walk lists no path twice.
    pub fn discover_files(&self, root: &str, kind: RootKind, walk: &Vec<Option<Entry>>) -> (r:
        Result<Vec<String>, CollectError>)
        ensures
            match kind {
                RootKind::Missing => r matches Err(CollectError::PathNotFound { path }) && path@
                    == root@,
                RootKind::File => r matches Ok(paths) && paths@.len() == 1 && paths@[0]@ == root@
                    && strictly_sorted(paths@),
                RootKind::Directory => r matches Ok(paths) && sorted(paths@)
                    && paths@.to_multiset() == file_paths(walk@).to_multiset() && (distinct_paths(
                    file_paths(walk@),
                ) ==> strictly_sorted(paths@)),
            },
            r matches Ok(paths) ==> sorted(paths@),
    {
        match kind {
            RootKind::Missing => Err(CollectError::PathNotFound { path: String::from_str(root) }),
            RootKind::File => {
                let mut paths: Vec<String> = Vec::new();
                paths.push(String::from_str(root));
                Ok(paths)
            },
            RootKind::Directory => {
                let mut files: Vec<String> = Vec::new();
                let mut i: usize = 0;
                assert(walk@.take(0) =~= Seq::<Option<Entry>>::empty());
                while i < walk.len()
                    invariant
                        i <= walk@.len(),
                        files@ == file_paths(walk@.take(i as int)),
                    decreases walk@.len() - i,
                {
                    assert(walk@.take(i + 1).drop_last() =~= walk@.take(i as int));
                    match &walk[i] {
                        Some(entry) => {
                            if entry.kind == EntryKind::File {
                                files.push(entry.path.clone());
                            }
                        },
                        None => {},
                    }
                    i += 1;
                }
                assert(walk@.take(i as int) =~= walk@);
                Ok(sort_paths(files))
            },
        }
    }

    /// The record for the file at `path`, given how reading it ended: the
    /// bytes read, or the failure, which becomes an error that names the
    /// path.
    pub fn read_file(&self, path: String, outcome: Result<Vec<u8>, ReadFailure>) -> (r: Result<
        FileData,
        CollectError,
    >)
        ensures
            match outcome {
                Ok(content) => r matches Ok(record) && record.path == path && record.content
                    == content && record.wf(),
                Err(failure) => r matches Err(CollectError::ReadError { path: p, stage, cause })
                    && p == path && stage == failure.stage && cause == failure.cause,
            },
    {
        match outcome {
            Ok(content) => Ok(FileData::new(path, content)),
            Err(failure) => Err(
                CollectError::ReadError { path, stage: failure.stage, cause: failure.cause },
            ),
        }
    }

    /// All records or none: where every read succeeded, the records in the
    /// order of the reads; else the error of the first read that failed.
    pub fn collect(&self, reads: Vec<Result<FileData, CollectError>>) -> (r: Result<
        Vec<FileData>,
        CollectError,
    >)
        ensures
            r is Ok <==> forall|i: int| 0 <= i < reads@.len() ==> #[trigger] reads@[i] is Ok,
            r matches Ok(records) ==> records@.len() == reads@.len() && forall|i: int|
                0 <= i < reads@.len() ==> #[trigger] reads@[i] == Ok::<FileData, CollectError>(
                    records@[i],
                ),
            r matches Err(e) ==> exists|k: int|
                0 <= k < reads@.len() && #[trigger] reads@[k] == Err::<FileData, CollectError>(e)
                    && forall|i: int| 0 <= i < k ==> #[trigger] reads@[i] is Ok,
    {
        let mut records: Vec<FileData> = Vec::new();
        let ghost all = reads@;
        for item in it: reads
            invariant
                it.seq() == all,
                records@.len() == it.index(),
                forall|i: int|
                    0 <= i < it.index() ==> #[trigger] all[i] == Ok::<FileData, CollectError>(
                        records@[i],
                    ),
        {
            match item {
                Ok(record) => {
                    records.push(record);
                },
                Err(e) => {
                    assert(all[it.index() as int] == Err::<FileData, CollectError>(e));
                    return Err(e);
                },
            }
        }
        Ok(records)
    }
}

/// The collection is sorted by path: records that were read for the paths
/// of a discovery, one for each path and in the order of the paths, are in
/// ascending lexicographic order of their paths, and in strictly ascending
/// order where the paths are.
pub proof fn lemma_collection_sorted(paths: Seq<String>, records: Seq<FileData>)
    requires
        sorted(paths),
        records.len() == paths.len(),
        forall|i: int| 0 <= i < paths.len() ==> (#[trigger] records[i]).path == paths[i],
    ensures
        records_sorted(records),
        strictly_sorted(paths) ==> records_strictly_sorted(records),
{
    assert forall|i: int, j: int| 0 <= i < j < records.len() implies lex_le(
        #[trigger] path_key(records[i].path),
        #[trigger] path_key(records[j].path),
    ) by {
        assert(records[i].path == paths[i]);
        assert(records[j].path == paths[j]);
        assert(lex_le(path_key(paths[i]), path_key(paths[j])));
    }
    if strictly_sorted(paths) {
        assert forall|i: int, j: int| 0 <= i < j < records.len() implies lex_lt(
            #[trigger] path_key(records[i].path),
            #[trigger] path_key(records[j].path),
        ) by {
            assert(records[i].path == paths[i]);
            assert(records[j].path == paths[j]);
            assert(lex_lt(path_key(paths[i]), path_key(paths[j])));
        }
    }
}

} // verus!
