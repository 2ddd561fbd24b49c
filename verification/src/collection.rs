//! Assembling a collection from a walked directory tree, and laying one out
//! below a destination.
//!
//! The walk and the ingestion of file contents happen elsewhere. This module
//! names the files, puts the results of an ingestion that finished in any
//! order back into the order of the walk, and says where each entry of a
//! received collection is written.
use crate::path::{
    canonicalized_path_to_string, component_texts, export_text, first_segment_fault,
    get_export_path, lemma_entry_name_is_safe, lemma_same_name_same_components, path_fault,
    path_text, split, InvalidPath, PathComponent,
};
use vstd::prelude::*;

verus! {

/// The hash of a blob's content.
#[derive(Clone, Copy, Debug, PartialEq, Eq)]
pub struct ContentHash {
    pub bytes: [u8; 32],
}

/// What the store hands back for ingested content.
#[derive(Clone, Copy, Debug, PartialEq, Eq)]
pub struct ContentHandle {
    pub hash: ContentHash,
    pub size: u64,
}

/// One entry of a collection.
#[derive(Clone, Debug)]
pub struct CollectionEntry {
    pub name: String,
    pub hash: ContentHash,
}

/// An ordered list of named blobs. The order is part of what the collection
/// is.
#[derive(Clone, Debug)]
pub struct Collection {
    pub entries: Vec<CollectionEntry>,
}

/// One thing that the walk of a tree came upon.
#[derive(Clone, Debug)]
pub struct WalkedEntry {
    /// Whether it is a regular file.
    pub is_file: bool,
    /// Its path, relative to the parent of the root of the walk.
    pub relative: Vec<PathComponent>,
}

/// A file to ingest.
#[derive(Clone, Debug)]
pub struct DataSource {
    /// The name of its entry.
    pub name: String,
    /// Its place in the walk.
    pub source: usize,
}

/// The result of ingesting one file.
#[derive(Clone, Copy, Debug, PartialEq, Eq)]
pub struct Ingested {
    /// The place of the file among the data sources.
    pub index: usize,
    /// What the store handed back, or nothing where it failed.
    pub content: Option<ContentHandle>,
}

/// Why no collection was assembled.
#[derive(Clone, Copy, Debug, PartialEq, Eq)]
pub enum AssemblyFailed {
    /// The path of the file at this place of the walk gives no name.
    InvalidPath { index: usize, reason: InvalidPath },
    /// The ingestion of this data source failed.
    IngestionFailed { index: usize },
    /// A result for a data source that does not exist.
    UnknownSource { index: usize },
    /// Two results for this data source.
    IngestedTwice { index: usize },
    /// No result for this data source.
    NotIngested { index: usize },
    /// The sizes add up to more than a `u64` holds.
    TooLarge,
}

/// Where one entry is written, and what.
#[derive(Clone, Debug)]
pub struct ExportTarget {
    pub path: String,
    pub hash: ContentHash,
}

/// The places in the walk at which a regular file stands, in order.
pub open spec fn file_places(walked: Seq<WalkedEntry>) -> Seq<int>
    decreases walked.len(),
{
    if walked.len() == 0 {
        Seq::empty()
    } else if walked.last().is_file {
        file_places(walked.drop_last()).push(walked.len() - 1)
    } else {
        file_places(walked.drop_last())
    }
}

/// Whether the data source names the file at its place as the sanitizer
/// does.
pub open spec fn names_file(d: DataSource, walked: Seq<WalkedEntry>, place: int) -> bool {
    &&& d.source == place
    &&& 0 <= place < walked.len()
    &&& path_fault(walked[place].relative@, true) is None
    &&& d.name@ == path_text(walked[place].relative@)
}

/// Names every regular file of a walk, in the order of the walk. What is no
/// regular file gives no data source.
///
/// Fails at the first regular file whose path gives no name.
pub fn data_sources(walked: &Vec<WalkedEntry>) -> (r: Result<Vec<DataSource>, AssemblyFailed>)
    ensures
        match r {
            Ok(sources) => {
                &&& sources@.len() == file_places(walked@).len()
                &&& forall|k: int|
                    0 <= k < sources@.len() ==> names_file(
                        #[trigger] sources@[k],
                        walked@,
                        file_places(walked@)[k],
                    )
            },
            Err(e) => {
                &&& e matches AssemblyFailed::InvalidPath { index, reason }
                &&& index < walked@.len()
                &&& walked@[index as int].is_file
                &&& path_fault(walked@[index as int].relative@, true) == Some(reason)
                &&& forall|j: int|
                    0 <= j < index && (#[trigger] walked@[j]).is_file ==> path_fault(
                        walked@[j].relative@,
                        true,
                    ) is None
            },
        },
{
    let mut sources: Vec<DataSource> = Vec::new();
    let mut i: usize = 0;
    while i < walked.len()
        invariant
            i <= walked.len(),
            sources@.len() == file_places(walked@.take(i as int)).len(),
            forall|k: int|
                0 <= k < sources@.len() ==> names_file(
                    #[trigger] sources@[k],
                    walked@,
                    file_places(walked@.take(i as int))[k],
                ),
            forall|j: int|
                0 <= j < i && (#[trigger] walked@[j]).is_file ==> path_fault(
                    walked@[j].relative@,
                    true,
                ) is None,
        decreases walked.len() - i,
    {
        proof {
            assert(walked@.take(i + 1).drop_last() =~= walked@.take(i as int));
            assert(walked@.take(i + 1).last() == walked@[i as int]);
        }
        if walked[i].is_file {
            match canonicalized_path_to_string(&walked[i].relative, true) {
                Ok(name) => {
                    sources.push(DataSource { name, source: i });
                },
                Err(reason) => {
                    return Err(AssemblyFailed::InvalidPath { index: i, reason });
                },
            }
        }
        i = i + 1;
    }
    assert(walked@.take(walked@.len() as int) =~= walked@);
    Ok(sources)
}

/// Files at distinct paths get distinct names.
pub proof fn lemma_distinct_files_distinct_names(
    walked: Seq<WalkedEntry>,
    a: DataSource,
    place_a: int,
    b: DataSource,
    place_b: int,
)
    requires
        names_file(a, walked, place_a),
        names_file(b, walked, place_b),
        component_texts(walked[place_a].relative@) != component_texts(walked[place_b].relative@),
    ensures
        a.name@ != b.name@,
{
    if a.name@ == b.name@ {
        lemma_same_name_same_components(walked[place_a].relative@, walked[place_b].relative@);
    }
}

/// The name of a data source is written below a destination where the path
/// of its file leads, and nowhere else: the name passes the check that is
/// made before writing, and the path that comes out is the destination with
/// the components of the file's path pushed below it.
pub proof fn lemma_name_leads_back(
    walked: Seq<WalkedEntry>,
    d: DataSource,
    place: int,
    root: Seq<char>,
)
    requires
        names_file(d, walked, place),
    ensures
        first_segment_fault(split(d.name@)) is None,
        export_text(root, split(d.name@)) == export_text(
            root,
            component_texts(walked[place].relative@),
        ),
        root.is_prefix_of(export_text(root, split(d.name@))),
{
    lemma_entry_name_is_safe(walked[place].relative@, root);
}

/// What was ingested for the data source `i`, if any result names it.
pub open spec fn handle_at(results: Seq<Ingested>, i: int) -> Option<ContentHandle> {
    if exists|j: int| 0 <= j < results.len() && (#[trigger] results[j]).index == i {
        let j = choose|j: int| 0 <= j < results.len() && (#[trigger] results[j]).index == i;
        results[j].content
    } else {
        None
    }
}

/// The sizes of the first `n` data sources, added up. A data source without
/// content counts as empty.
pub open spec fn total_size(results: Seq<Ingested>, n: int) -> int
    decreases n,
{
    if n <= 0 {
        0
    } else {
        total_size(results, n - 1) + match handle_at(results, n - 1) {
            Some(h) => h.size as int,
            None => 0,
        }
    }
}

/// Whether every one of `n` data sources was ingested, once and with
/// success, and nothing else was.
pub open spec fn complete(n: int, results: Seq<Ingested>) -> bool {
    &&& forall|j: int|
        0 <= j < results.len() ==> (#[trigger] results[j]).content is Some && results[j].index < n
    &&& forall|j: int, k: int|
        0 <= j < k < results.len() ==> (#[trigger] results[j]).index != (#[trigger] results[k]).index
    &&& forall|i: int| 0 <= i < n ==> mentions(results, i)
}

/// Whether some result names the data source `i`.
pub open spec fn mentions(results: Seq<Ingested>, i: int) -> bool {
    exists|j: int| 0 <= j < results.len() && (#[trigger] results[j]).index == i
}

/// Whether the collection holds, in the order of the names, each name with
/// the hash that was ingested for it.
pub open spec fn holds_in_order(c: Collection, names: Seq<String>, results: Seq<Ingested>) -> bool {
    &&& c.entries@.len() == names.len()
    &&& forall|i: int|
        0 <= i < names.len() ==> (#[trigger] c.entries@[i]).name@ == names[i]@ && handle_at(
            results,
            i,
        ) is Some && c.entries@[i].hash == handle_at(results, i)->Some_0.hash
}

/// What is wrong with the result at place `j`, if anything: it has no
/// content, it names a data source that does not exist, or an earlier
/// result names the same data source.
pub open spec fn result_fault(n: int, results: Seq<Ingested>, j: int) -> Option<AssemblyFailed> {
    let r = results[j];
    if r.content is None {
        Some(AssemblyFailed::IngestionFailed { index: r.index })
    } else if r.index >= n {
        Some(AssemblyFailed::UnknownSource { index: r.index })
    } else if exists|k: int| 0 <= k < j && (#[trigger] results[k]).index == r.index {
        Some(AssemblyFailed::IngestedTwice { index: r.index })
    } else {
        None
    }
}

/// The fault of the first faulty result among the first `upto`.
pub open spec fn first_result_fault(n: int, results: Seq<Ingested>, upto: int) -> Option<
    AssemblyFailed,
>
    decreases upto,
{
    if upto <= 0 {
        None
    } else {
        match first_result_fault(n, results, upto - 1) {
            Some(e) => Some(e),
            None => result_fault(n, results, upto - 1),
        }
    }
}

/// The first of the first `upto` data sources that no result names.
pub open spec fn first_missing(results: Seq<Ingested>, upto: int) -> Option<AssemblyFailed>
    decreases upto,
{
    if upto <= 0 {
        None
    } else {
        match first_missing(results, upto - 1) {
            Some(e) => Some(e),
            None => if mentions(results, upto - 1) {
                None
            } else {
                Some(AssemblyFailed::NotIngested { index: (upto - 1) as usize })
            },
        }
    }
}

/// Why `n` names and these results give no collection, if they do not: the
/// first faulty result; else the first name without a result; else that the
/// sizes add up to too much.
pub open spec fn assembly_fault(n: int, results: Seq<Ingested>) -> Option<AssemblyFailed> {
    match first_result_fault(n, results, results.len() as int) {
        Some(e) => Some(e),
        None => match first_missing(results, n) {
            Some(e) => Some(e),
            None => if total_size(results, n) > u64::MAX {
                Some(AssemblyFailed::TooLarge)
            } else {
                None
            },
        },
    }
}

/// A fault among the first `k` results is the fault of all of them.
pub proof fn lemma_result_fault_stays(n: int, results: Seq<Ingested>, k: int, upto: int)
    requires
        0 <= k <= upto,
        first_result_fault(n, results, k) is Some,
    ensures
        first_result_fault(n, results, upto) == first_result_fault(n, results, k),
    decreases upto - k,
{
    if k < upto {
        lemma_result_fault_stays(n, results, k, upto - 1);
    }
}

/// A data source that is missing among the first `k` is the first that is
/// missing among more.
pub proof fn lemma_missing_stays(results: Seq<Ingested>, k: int, upto: int)
    requires
        0 <= k <= upto,
        first_missing(results, k) is Some,
    ensures
        first_missing(results, upto) == first_missing(results, k),
    decreases upto - k,
{
    if k < upto {
        lemma_missing_stays(results, k, upto - 1);
    }
}

/// Results that are complete have no faulty result and leave no name out.
pub proof fn lemma_complete_has_no_fault(n: int, results: Seq<Ingested>, j: int, i: int)
    requires
        complete(n, results),
        0 <= j <= results.len(),
        0 <= i <= n,
    ensures
        first_result_fault(n, results, j) is None,
        first_missing(results, i) is None,
    decreases j + i,
{
    if j > 0 {
        lemma_complete_has_no_fault(n, results, j - 1, i);
    } else if i > 0 {
        lemma_complete_has_no_fault(n, results, j, i - 1);
    }
}

/// A collection is owed wherever the results are complete and the sizes
/// add up within a `u64`.
pub proof fn lemma_complete_is_enough(n: int, results: Seq<Ingested>)
    requires
        0 <= n,
        complete(n, results),
        total_size(results, n) <= u64::MAX,
    ensures
        assembly_fault(n, results) is None,
{
    lemma_complete_has_no_fault(n, results, results.len() as int, n);
}

/// Builds the collection from the names, in the order of the walk, and the
/// results of the ingestion, in whatever order they finished. Returns it
/// with the sum of the sizes.
///
/// There is a collection exactly if every name has one result, that result
/// has content, no result stands for anything else, and the sizes add up
/// within a `u64`. Otherwise the error is that of the first faulty result;
/// where no result is faulty, it names the first name without a result;
/// where none is left out, the sizes are too large.
pub fn assemble(names: &Vec<String>, results: &Vec<Ingested>) -> (r: Result<
    (Collection, u64),
    AssemblyFailed,
>)
    ensures
        match r {
            Ok((c, size)) => {
                &&& assembly_fault(names@.len() as int, results@) is None
                &&& complete(names@.len() as int, results@)
                &&& holds_in_order(c, names@, results@)
                &&& size == total_size(results@, names@.len() as int)
            },
            Err(e) => assembly_fault(names@.len() as int, results@) == Some(e),
        },
{
    let n: usize = names.len();
    let mut slots: Vec<Option<ContentHandle>> = Vec::new();
    let mut i: usize = 0;
    while i < n
        invariant
            i <= n,
            slots@.len() == i,
            forall|k: int| 0 <= k < i ==> (#[trigger] slots@[k]) is None,
        decreases n - i,
    {
        slots.push(None);
        i = i + 1;
    }
    let mut j: usize = 0;
    while j < results.len()
        invariant
            j <= results.len(),
            n == names@.len(),
            slots@.len() == n,
            first_result_fault(n as int, results@, j as int) is None,
            forall|k: int|
                0 <= k < j ==> (#[trigger] results@[k]).content is Some && results@[k].index < n
                    && slots@[results@[k].index as int] == results@[k].content,
            forall|i: int|
                0 <= i < n && (#[trigger] slots@[i]) is Some ==> exists|k: int|
                    0 <= k < j && (#[trigger] results@[k]).index == i,
            forall|k1: int, k2: int|
                0 <= k1 < k2 < j ==> (#[trigger] results@[k1]).index != (
                #[trigger] results@[k2]).index,
        decreases results.len() - j,
    {
        let index: usize = results[j].index;
        match results[j].content {
            None => {
                proof {
                    lemma_result_fault_stays(n as int, results@, j + 1, results@.len() as int);
                }
                return Err(AssemblyFailed::IngestionFailed { index });
            },
            Some(handle) => {
                if index >= n {
                    proof {
                        lemma_result_fault_stays(n as int, results@, j + 1, results@.len() as int);
                    }
                    return Err(AssemblyFailed::UnknownSource { index });
                }
                if slots[index].is_some() {
                    proof {
                        let k = choose|k: int|
                            0 <= k < j && (#[trigger] results@[k]).index == index;
                        assert(results@[k].index == results@[j as int].index);
                        lemma_result_fault_stays(n as int, results@, j + 1, results@.len() as int);
                    }
                    return Err(AssemblyFailed::IngestedTwice { index });
                }
                proof {
                    if exists|k: int| 0 <= k < j && (#[trigger] results@[k]).index == index {
                        let k = choose|k: int|
                            0 <= k < j && (#[trigger] results@[k]).index == index;
                        assert(slots@[results@[k].index as int] is Some);
                    }
                    assert(result_fault(n as int, results@, j as int) is None);
                }
                slots.set(index, Some(handle));
            },
        }
        j = j + 1;
    }
    let mut i: usize = 0;
    while i < n
        invariant
            i <= n,
            n == names@.len(),
            slots@.len() == n,
            first_missing(results@, i as int) is None,
            first_result_fault(n as int, results@, results@.len() as int) is None,
            forall|k: int|
                0 <= k < results@.len() ==> (#[trigger] results@[k]).index < n
                    && slots@[results@[k].index as int] is Some,
            forall|m: int|
                0 <= m < n && (#[trigger] slots@[m]) is Some ==> exists|k: int|
                    0 <= k < results@.len() && (#[trigger] results@[k]).index == m,
            forall|m: int| 0 <= m < i ==> (#[trigger] slots@[m]) is Some,
        decreases n - i,
    {
        if slots[i].is_none() {
            proof {
                if mentions(results@, i as int) {
                    let k = choose|k: int|
                        0 <= k < results@.len() && (#[trigger] results@[k]).index == i;
                    assert(slots@[results@[k].index as int] is Some);
                }
                lemma_missing_stays(results@, i + 1, n as int);
            }
            return Err(AssemblyFailed::NotIngested { index: i });
        }
        proof {
            let k = choose|k: int| 0 <= k < results@.len() && (#[trigger] results@[k]).index == i;
            assert(results@[k].index == i);
            assert(mentions(results@, i as int));
        }
        i = i + 1;
    }
    assert forall|m: int| 0 <= m < n implies mentions(results@, m) by {
        assert(slots@[m] is Some);
    }
    let mut entries: Vec<CollectionEntry> = Vec::new();
    let mut size: u64 = 0;
    let mut i: usize = 0;
    while i < n
        invariant
            i <= n,
            n == names@.len(),
            slots@.len() == n,
            entries@.len() == i,
            size == total_size(results@, i as int),
            complete(n as int, results@),
            first_result_fault(n as int, results@, results@.len() as int) is None,
            first_missing(results@, n as int) is None,
            forall|k: int|
                0 <= k < results@.len() ==> slots@[(#[trigger] results@[k]).index as int]
                    == results@[k].content,
            forall|m: int| 0 <= m < n ==> (#[trigger] slots@[m]) is Some,
            forall|m: int|
                0 <= m < i ==> (#[trigger] entries@[m]).name@ == names@[m]@ && handle_at(
                    results@,
                    m,
                ) is Some && entries@[m].hash == handle_at(results@, m)->Some_0.hash,
        decreases n - i,
    {
        match slots[i] {
            None => {
                assert(false);
            },
            Some(handle) => {
                proof {
                    assert(mentions(results@, i as int));
                    let k = choose|k: int|
                        0 <= k < results@.len() && (#[trigger] results@[k]).index == i;
                    assert(results@[k].index == i);
                    assert(handle_at(results@, i as int) == Some(handle));
                }
                if handle.size > u64::MAX - size {
                    proof {
                        lemma_total_size_grows(results@, i + 1, n as int);
                    }
                    return Err(AssemblyFailed::TooLarge);
                }
                size = size + handle.size;
                let ghost before = entries@;
                entries.push(CollectionEntry { name: names[i].clone(), hash: handle.hash });
                assert(forall|m: int| 0 <= m < i ==> entries@[m] == before[m]);
            },
        }
        i = i + 1;
    }
    Ok((Collection { entries }, size))
}

/// The sum of the sizes does not shrink as more data sources are counted.
pub proof fn lemma_total_size_grows(results: Seq<Ingested>, m: int, n: int)
    requires
        0 <= m <= n,
    ensures
        total_size(results, m) <= total_size(results, n),
    decreases n - m,
{
    if m < n {
        lemma_total_size_grows(results, m, n - 1);
    }
}

/// Where one file could not be ingested, no collection is assembled:
/// there is a fault, whatever else was ingested and in whatever order.
pub proof fn lemma_failed_ingestion_fails_assembly(
    names: Seq<String>,
    results: Seq<Ingested>,
    j: int,
)
    requires
        0 <= j < results.len(),
        results[j].content is None,
    ensures
        !complete(names.len() as int, results),
        assembly_fault(names.len() as int, results) is Some,
{
    assert(result_fault(names.len() as int, results, j) is Some);
    if first_result_fault(names.len() as int, results, j) is Some {
        lemma_result_fault_stays(names.len() as int, results, j, results.len() as int);
    } else {
        lemma_result_fault_stays(names.len() as int, results, j + 1, results.len() as int);
    }
}

/// The order in which the ingestion finished does not matter: two lists of
/// results that are complete and hold the same results give the same hash
/// for every name, and the same sum of sizes.
pub proof fn lemma_order_of_results_is_immaterial(n: int, a: Seq<Ingested>, b: Seq<Ingested>)
    requires
        complete(n, a),
        complete(n, b),
        forall|j: int| 0 <= j < a.len() ==> b.contains(#[trigger] a[j]),
    ensures
        forall|i: int| 0 <= i < n ==> handle_at(a, i) == handle_at(b, i),
        total_size(a, n) == total_size(b, n),
{
    assert forall|i: int| 0 <= i < n implies handle_at(a, i) == handle_at(b, i) by {
        lemma_same_handle(n, a, b, i);
    }
    if n >= 0 {
        lemma_same_total(n, a, b, n);
    }
}

proof fn lemma_same_handle(n: int, a: Seq<Ingested>, b: Seq<Ingested>, i: int)
    requires
        complete(n, a),
        complete(n, b),
        forall|j: int| 0 <= j < a.len() ==> b.contains(#[trigger] a[j]),
        0 <= i < n,
    ensures
        handle_at(a, i) == handle_at(b, i),
{
    assert(mentions(a, i));
    assert(mentions(b, i));
    let ja = choose|j: int| 0 <= j < a.len() && (#[trigger] a[j]).index == i;
    let jb = choose|j: int| 0 <= j < b.len() && (#[trigger] b[j]).index == i;
    assert(b.contains(a[ja]));
    let jc = choose|j: int| 0 <= j < b.len() && b[j] == a[ja];
    assert(b[jc].index == i);
    if jc < jb {
        assert(b[jc].index != b[jb].index);
    } else if jb < jc {
        assert(b[jb].index != b[jc].index);
    }
}

proof fn lemma_same_total(n: int, a: Seq<Ingested>, b: Seq<Ingested>, m: int)
    requires
        complete(n, a),
        complete(n, b),
        forall|j: int| 0 <= j < a.len() ==> b.contains(#[trigger] a[j]),
        0 <= m <= n,
    ensures
        total_size(a, m) == total_size(b, m),
    decreases m,
{
    if m > 0 {
        lemma_same_total(n, a, b, m - 1);
        lemma_same_handle(n, a, b, m - 1);
    }
}

/// The names and hashes of a collection, in its order.
pub open spec fn contents(c: Collection) -> Seq<(Seq<char>, ContentHash)> {
    Seq::new(c.entries@.len(), |i: int| (c.entries@[i].name@, c.entries@[i].hash))
}

/// Assembling the same tree twice gives the same collection, names and
/// hashes in the same order, whatever the order in which the ingestion
/// finished each time.
pub proof fn lemma_assembly_is_repeatable(
    names: Seq<String>,
    a: Seq<Ingested>,
    b: Seq<Ingested>,
    first: Collection,
    second: Collection,
)
    requires
        complete(names.len() as int, a),
        complete(names.len() as int, b),
        forall|j: int| 0 <= j < a.len() ==> b.contains(#[trigger] a[j]),
        holds_in_order(first, names, a),
        holds_in_order(second, names, b),
    ensures
        contents(first) == contents(second),
        total_size(a, names.len() as int) == total_size(b, names.len() as int),
{
    lemma_order_of_results_is_immaterial(names.len() as int, a, b);
    assert forall|i: int| 0 <= i < names.len() implies contents(first)[i] == contents(second)[i] by {
        assert(first.entries@[i].name@ == names[i]@);
        assert(second.entries@[i].name@ == names[i]@);
        assert(handle_at(a, i) == handle_at(b, i));
    }
    assert(contents(first) =~= contents(second));
}

/// Where each entry of a collection is written below `root`, entry by
/// entry and in the collection's order. An entry whose name is refused has
/// the reason in its place; the others are not touched by that.
pub fn export_targets(root: &str, collection: &Collection) -> (targets: Vec<
    Result<ExportTarget, InvalidPath>,
>)
    ensures
        targets@.len() == collection.entries@.len(),
        forall|i: int|
            0 <= i < targets@.len() ==> match #[trigger] targets@[i] {
                Ok(t) => first_segment_fault(split(collection.entries@[i].name@)) is None
                    && t.path@ == export_text(root@, split(collection.entries@[i].name@))
                    && t.hash == collection.entries@[i].hash,
                Err(e) => first_segment_fault(split(collection.entries@[i].name@)) == Some(e),
            },
{
    let mut targets: Vec<Result<ExportTarget, InvalidPath>> = Vec::new();
    let mut i: usize = 0;
    while i < collection.entries.len()
        invariant
            i <= collection.entries.len(),
            targets@.len() == i,
            forall|k: int|
                0 <= k < i ==> match #[trigger] targets@[k] {
                    Ok(t) => first_segment_fault(split(collection.entries@[k].name@)) is None
                        && t.path@ == export_text(root@, split(collection.entries@[k].name@))
                        && t.hash == collection.entries@[k].hash,
                    Err(e) => first_segment_fault(split(collection.entries@[k].name@)) == Some(
                        e,
                    ),
                },
        decreases collection.entries.len() - i,
    {
        let entry = &collection.entries[i];
        let ghost before = targets@;
        let target = match get_export_path(root, entry.name.as_str()) {
            Ok(path) => Ok(ExportTarget { path, hash: entry.hash }),
            Err(e) => Err(e),
        };
        targets.push(target);
        assert(forall|k: int| 0 <= k < i ==> targets@[k] == before[k]);
        i = i + 1;
    }
    targets
}

/// A tree that was assembled comes out again as it went in: each entry of
/// the collection is accepted when it is written, lands below the
/// destination where the path of its file leads, and carries the hash that
/// was ingested for that file.
pub proof fn lemma_round_trip(
    walked: Seq<WalkedEntry>,
    sources: Seq<DataSource>,
    names: Seq<String>,
    results: Seq<Ingested>,
    c: Collection,
    root: Seq<char>,
    i: int,
)
    requires
        sources.len() == file_places(walked).len(),
        forall|k: int|
            0 <= k < sources.len() ==> names_file(
                #[trigger] sources[k],
                walked,
                file_places(walked)[k],
            ),
        names.len() == sources.len(),
        forall|k: int| 0 <= k < names.len() ==> (#[trigger] names[k])@ == sources[k].name@,
        holds_in_order(c, names, results),
        0 <= i < c.entries@.len(),
    ensures
        first_segment_fault(split(c.entries@[i].name@)) is None,
        export_text(root, split(c.entries@[i].name@)) == export_text(
            root,
            component_texts(walked[file_places(walked)[i]].relative@),
        ),
        root.is_prefix_of(export_text(root, split(c.entries@[i].name@))),
        handle_at(results, i) is Some,
        c.entries@[i].hash == handle_at(results, i)->Some_0.hash,
{
    assert(c.entries@[i].name@ == names[i]@);
    assert(names_file(sources[i], walked, file_places(walked)[i]));
    lemma_name_leads_back(walked, sources[i], file_places(walked)[i], root);
}

/// The sizes added up.
pub open spec fn sum_of(sizes: Seq<u64>) -> int
    decreases sizes.len(),
{
    if sizes.len() == 0 {
        0
    } else {
        sum_of(sizes.drop_last()) + sizes.last()
    }
}

/// The sum never shrinks as more sizes are added.
pub proof fn lemma_sum_grows(sizes: Seq<u64>, k: int)
    requires
        0 <= k <= sizes.len(),
    ensures
        sum_of(sizes.take(k)) <= sum_of(sizes),
    decreases sizes.len() - k,
{
    if k < sizes.len() {
        assert(sizes.take(k + 1).drop_last() =~= sizes.take(k));
        lemma_sum_grows(sizes, k + 1);
    } else {
        assert(sizes.take(k) =~= sizes);
    }
}

/// The number of bytes that a fetch announces: the sizes of its blobs added
/// up, or nothing where they add up to more than a `u64` holds.
pub fn announced_bytes(sizes: &Vec<u64>) -> (total: Option<u64>)
    ensures
        total == if sum_of(sizes@) <= u64::MAX {
            Some(sum_of(sizes@) as u64)
        } else {
            None
        },
{
    let mut total: u64 = 0;
    let mut i: usize = 0;
    assert(sizes@.take(0) =~= Seq::<u64>::empty());
    while i < sizes.len()
        invariant
            i <= sizes.len(),
            total == sum_of(sizes@.take(i as int)),
        decreases sizes.len() - i,
    {
        proof {
            assert(sizes@.take(i + 1).drop_last() =~= sizes@.take(i as int));
            assert(sizes@.take(i + 1).last() == sizes@[i as int]);
        }
        if sizes[i] > u64::MAX - total {
            proof {
                lemma_sum_grows(sizes@, i + 1);
            }
            return None;
        }
        total = total + sizes[i];
        i = i + 1;
    }
    assert(sizes@.take(sizes@.len() as int) =~= sizes@);
    Some(total)
}

/// Asks `num_cpus::get` for the number of processing units that are
/// available. Which number comes back depends on the machine, so nothing is
/// claimed of it.
#[verifier::external_body]
fn available_units() -> (units: usize) {
    num_cpus::get()
}

/// The width of the pool on a machine with so many processing units: that
/// many workers, and one where none is counted.
pub open spec fn spec_width_for(units: usize) -> usize {
    if units == 0 {
        1
    } else {
        units
    }
}

/// The width of the pool on a machine with so many processing units.
pub fn width_for(units: usize) -> (width: usize)
    ensures
        width == spec_width_for(units),
{
    if units == 0 {
        1
    } else {
        units
    }
}

/// How many files are ingested at a time: as many as this machine has
/// processing units, and at least one.
pub fn ingestion_width() -> (width: usize)
    ensures
        width >= 1,
{
    width_for(available_units())
}

} // verus!
