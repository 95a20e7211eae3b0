use vstd::prelude::*;

use crate::file_scanner::{lemma_sum_sizes_prefix, sum_sizes, FileInfo, ScanResult};
use crate::software_manager::{chars_between, SoftwareFileAnalysis};
use crate::text::{chars_of, lowercase, string_from_chars, to_lowercase, trim_range, trimmed};

verus! {

/// Whether an answer to a yes/no question says yes: once trimmed and
/// lowercased it is `y` or `yes`.
pub fn is_confirmation(answer: &str) -> (r: bool)
    ensures
        r == (lowercase(trimmed(answer@)) == seq!['y'] || lowercase(trimmed(answer@)) == seq![
            'y',
            'e',
            's',
        ]),
{
    let v = chars_of(answer);
    let (a, b) = trim_range(&v, 0, v.len());
    assert(v@.subrange(0, v@.len() as int) =~= answer@);
    let t = string_from_chars(&chars_between(&v, a, b));
    let lower = to_lowercase(t.as_str());
    let lc = chars_of(lower.as_str());
    let r = (lc.len() == 1 && lc[0] == 'y') || (lc.len() == 3 && lc[0] == 'y' && lc[1] == 'e'
        && lc[2] == 's');
    proof {
        if lc@ == seq!['y'] {
            assert(lc@[0] == 'y');
        }
        if lc@ == seq!['y', 'e', 's'] {
            assert(lc@[0] == 'y' && lc@[1] == 'e' && lc@[2] == 's');
        }
        if lc.len() == 1 && lc[0] == 'y' {
            assert(lc@ =~= seq!['y']);
        }
        if lc.len() == 3 && lc[0] == 'y' && lc[1] == 'e' && lc[2] == 's' {
            assert(lc@ =~= seq!['y', 'e', 's']);
        }
    }
    r
}

/// The number of files found over a list of scan results.
pub open spec fn files_found(results: Seq<ScanResult>) -> nat
    decreases results.len(),
{
    if results.len() == 0 {
        0
    } else {
        files_found(results.drop_last()) + results.last().total_files as nat
    }
}

/// The bytes found over a list of scan results.
pub open spec fn bytes_found(results: Seq<ScanResult>) -> nat
    decreases results.len(),
{
    if results.len() == 0 {
        0
    } else {
        bytes_found(results.drop_last()) + results.last().total_size as nat
    }
}

/// The large files found over a list of scan results.
pub open spec fn large_found(results: Seq<ScanResult>) -> nat
    decreases results.len(),
{
    if results.len() == 0 {
        0
    } else {
        large_found(results.drop_last()) + results.last().large_files@.len()
    }
}

/// The duplicate groups found over a list of scan results.
pub open spec fn groups_found(results: Seq<ScanResult>) -> nat
    decreases results.len(),
{
    if results.len() == 0 {
        0
    } else {
        groups_found(results.drop_last()) + results.last().duplicate_groups@.len()
    }
}

/// Totals over the scans of several drives.
pub struct ScanTotals {
    pub total_files: usize,
    pub total_size: u64,
    pub large_files: usize,
    pub duplicate_groups: usize,
}

/// The totals over a list of scan results; `None` when a total does not fit
/// its type.
pub fn scan_totals(results: &[ScanResult]) -> (r: Option<ScanTotals>)
    ensures
        match r {
            Some(t) => t.total_files == files_found(results@) && t.total_size == bytes_found(
                results@,
            ) && t.large_files == large_found(results@) && t.duplicate_groups == groups_found(
                results@,
            ),
            None => files_found(results@) > usize::MAX || bytes_found(results@) > u64::MAX
                || large_found(results@) > usize::MAX || groups_found(results@) > usize::MAX,
        },
{
    let mut files: usize = 0;
    let mut bytes: u64 = 0;
    let mut large: usize = 0;
    let mut groups: usize = 0;
    let mut i: usize = 0;
    while i < results.len()
        invariant
            i <= results@.len(),
            files == files_found(results@.take(i as int)),
            bytes == bytes_found(results@.take(i as int)),
            large == large_found(results@.take(i as int)),
            groups == groups_found(results@.take(i as int)),
        decreases results@.len() - i,
    {
        let ghost prefix = results@.take(i + 1);
        assert(prefix.drop_last() =~= results@.take(i as int));
        let r = &results[i];
        proof {
            lemma_found_monotone(results@, i + 1);
        }
        match files.checked_add(r.total_files) {
            Some(v) => {
                files = v;
            },
            None => {
                return None;
            },
        }
        match bytes.checked_add(r.total_size) {
            Some(v) => {
                bytes = v;
            },
            None => {
                return None;
            },
        }
        match large.checked_add(r.large_files.len()) {
            Some(v) => {
                large = v;
            },
            None => {
                return None;
            },
        }
        match groups.checked_add(r.duplicate_groups.len()) {
            Some(v) => {
                groups = v;
            },
            None => {
                return None;
            },
        }
        i = i + 1;
    }
    assert(results@.take(results@.len() as int) =~= results@);
    Some(ScanTotals { total_files: files, total_size: bytes, large_files: large, duplicate_groups: groups })
}

/// The totals never shrink as results are added.
proof fn lemma_found_monotone(results: Seq<ScanResult>, i: int)
    requires
        0 <= i <= results.len(),
    ensures
        files_found(results.take(i)) <= files_found(results),
        bytes_found(results.take(i)) <= bytes_found(results),
        large_found(results.take(i)) <= large_found(results),
        groups_found(results.take(i)) <= groups_found(results),
    decreases results.len() - i,
{
    if i < results.len() {
        lemma_found_monotone(results, i + 1);
        assert(results.take(i + 1).drop_last() =~= results.take(i));
    } else {
        assert(results.take(i) =~= results);
    }
}

/// `result` is `files` reordered by `perm` (`result[k] == files[perm[k]]`),
/// largest first, files of equal size in their original order.
pub open spec fn size_order_via(result: Seq<FileInfo>, files: Seq<FileInfo>, perm: Seq<int>) -> bool {
    &&& perm.len() == files.len()
    &&& result.len() == files.len()
    &&& forall|k: int| 0 <= k < perm.len() ==> 0 <= #[trigger] perm[k] < files.len()
    &&& forall|k: int| 0 <= k < perm.len() ==> #[trigger] result[k] == files[perm[k]]
    &&& forall|k: int, l: int| 0 <= k < l < perm.len() ==> #[trigger] perm[k] != #[trigger] perm[l]
    &&& forall|k: int, l: int|
        0 <= k < l < result.len() ==> (#[trigger] result[k]).size > (#[trigger] result[l]).size
            || (result[k].size == result[l].size && perm[k] < perm[l])
}

/// `result` is the first `limit` files (all, where there are fewer) of
/// `files` stably sorted largest first.
pub open spec fn largest_files_first(result: Seq<FileInfo>, files: Seq<FileInfo>, limit: nat) -> bool {
    exists|sorted: Seq<FileInfo>, perm: Seq<int>|
        #[trigger] size_order_via(sorted, files, perm) && result == sorted.take(
            if limit < files.len() {
                limit as int
            } else {
                files.len() as int
            },
        )
}

/// Inserting a new last file at `p`, after every file of at least its size
/// and before every smaller one, keeps the order stable.
proof fn lemma_size_order_insert(
    res: Seq<FileInfo>,
    fs: Seq<FileInfo>,
    perm: Seq<int>,
    x: FileInfo,
    p: int,
)
    requires
        size_order_via(res, fs, perm),
        0 <= p <= res.len(),
        forall|k: int| 0 <= k < p ==> (#[trigger] res[k]).size >= x.size,
        p < res.len() ==> res[p].size < x.size,
    ensures
        size_order_via(res.insert(p, x), fs.push(x), perm.insert(p, fs.len() as int)),
{
    let r1 = res.insert(p, x);
    let e1 = fs.push(x);
    let p1 = perm.insert(p, fs.len() as int);
    assert forall|k: int| p <= k < res.len() implies (#[trigger] res[k]).size < x.size by {
        if k > p {
            assert(res[p].size >= res[k].size);
        }
    }
    assert forall|k: int| 0 <= k < p1.len() implies 0 <= #[trigger] p1[k] < e1.len() && r1[k] == e1[p1[k]] by {
        if k < p {
            assert(p1[k] == perm[k] && r1[k] == res[k]);
        } else if k > p {
            assert(p1[k] == perm[k - 1] && r1[k] == res[k - 1]);
        }
    }
    assert forall|k: int| 0 <= k < p1.len() implies #[trigger] r1[k] == e1[p1[k]] by {}
    assert forall|k: int, l: int| 0 <= k < l < p1.len() implies #[trigger] p1[k] != #[trigger] p1[l] by {
        let k0 = if k < p { k } else { k - 1 };
        let l0 = if l < p { l } else { l - 1 };
        if k != p && l != p {
            assert(p1[k] == perm[k0] && p1[l] == perm[l0]);
        } else if k == p {
            assert(p1[l] == perm[l0]);
        } else {
            assert(p1[k] == perm[k0]);
        }
    }
    assert forall|k: int, l: int| 0 <= k < l < r1.len() implies (#[trigger] r1[k]).size > (
    #[trigger] r1[l]).size || (r1[k].size == r1[l].size && p1[k] < p1[l]) by {
        let k0 = if k < p { k } else { k - 1 };
        let l0 = if l < p { l } else { l - 1 };
        if k != p && l != p {
            assert(r1[k] == res[k0] && r1[l] == res[l0]);
            assert(p1[k] == perm[k0] && p1[l] == perm[l0]);
        } else if k == p {
            assert(r1[l] == res[l0]);
        } else {
            assert(r1[k] == res[k0]);
            assert(p1[k] == perm[k0]);
        }
    }
}

/// The `limit` largest files, largest first; files of equal size keep
/// their order.
pub fn largest_first(files: &[FileInfo], limit: usize) -> (r: Vec<FileInfo>)
    ensures
        largest_files_first(r@, files@, limit as nat),
{
    let mut sorted: Vec<FileInfo> = Vec::new();
    let ghost mut perm: Seq<int> = Seq::empty();
    let mut i: usize = 0;
    while i < files.len()
        invariant
            i <= files@.len(),
            size_order_via(sorted@, files@.take(i as int), perm),
        decreases files@.len() - i,
    {
        let size = files[i].size;
        let mut p: usize = 0;
        while p < sorted.len()
            invariant
                p <= sorted@.len(),
                forall|k: int| 0 <= k < p ==> (#[trigger] sorted@[k]).size >= size,
            ensures
                p <= sorted@.len(),
                forall|k: int| 0 <= k < p ==> (#[trigger] sorted@[k]).size >= size,
                p < sorted@.len() ==> sorted@[p as int].size < size,
            decreases sorted@.len() - p,
        {
            if sorted[p].size < size {
                break;
            }
            p = p + 1;
        }
        let f = files[i].copied();
        proof {
            assert(files@.take(i + 1) =~= files@.take(i as int).push(files@[i as int]));
            lemma_size_order_insert(sorted@, files@.take(i as int), perm, f, p as int);
            perm = perm.insert(p as int, i as int);
        }
        sorted.insert(p, f);
        i = i + 1;
    }
    assert(files@.take(files@.len() as int) =~= files@);
    let n = if limit < sorted.len() {
        limit
    } else {
        sorted.len()
    };
    let mut out: Vec<FileInfo> = Vec::new();
    let mut k: usize = 0;
    while k < n
        invariant
            k <= n <= sorted@.len(),
            out@ == sorted@.take(k as int),
        decreases n - k,
    {
        out.push(sorted[k].copied());
        k = k + 1;
        assert(out@ =~= sorted@.take(k as int));
    }
    assert(size_order_via(sorted@, files@, perm));
    out
}

/// The total size of a list of files; `None` when it does not fit a `u64`.
pub fn total_size_of(files: &[FileInfo]) -> (r: Option<u64>)
    ensures
        match r {
            Some(t) => t == sum_sizes(files@),
            None => sum_sizes(files@) > u64::MAX,
        },
{
    let mut total: u64 = 0;
    let mut i: usize = 0;
    while i < files.len()
        invariant
            i <= files@.len(),
            total == sum_sizes(files@.take(i as int)),
        decreases files@.len() - i,
    {
        assert(files@.take(i + 1).drop_last() =~= files@.take(i as int));
        proof {
            lemma_sum_sizes_prefix(files@, i + 1);
        }
        match total.checked_add(files[i].size) {
            Some(v) => {
                total = v;
            },
            None => {
                return None;
            },
        }
        i = i + 1;
    }
    assert(files@.take(files@.len() as int) =~= files@);
    Some(total)
}

/// The files removed over several clean-ups, `(count, bytes)` each.
pub open spec fn tally_count(tallies: Seq<(usize, u64)>) -> nat
    decreases tallies.len(),
{
    if tallies.len() == 0 {
        0
    } else {
        tally_count(tallies.drop_last()) + tallies.last().0 as nat
    }
}

/// The bytes freed over several clean-ups, `(count, bytes)` each.
pub open spec fn tally_bytes(tallies: Seq<(usize, u64)>) -> nat
    decreases tallies.len(),
{
    if tallies.len() == 0 {
        0
    } else {
        tally_bytes(tallies.drop_last()) + tallies.last().1 as nat
    }
}

proof fn lemma_tally_monotone(tallies: Seq<(usize, u64)>, i: int)
    requires
        0 <= i <= tallies.len(),
    ensures
        tally_count(tallies.take(i)) <= tally_count(tallies),
        tally_bytes(tallies.take(i)) <= tally_bytes(tallies),
    decreases tallies.len() - i,
{
    if i < tallies.len() {
        lemma_tally_monotone(tallies, i + 1);
        assert(tallies.take(i + 1).drop_last() =~= tallies.take(i));
    } else {
        assert(tallies.take(i) =~= tallies);
    }
}

/// The files removed and the bytes freed over several clean-ups; `None`
/// when a total does not fit its type.
pub fn combined_tally(tallies: &[(usize, u64)]) -> (r: Option<(usize, u64)>)
    ensures
        match r {
            Some(t) => t.0 == tally_count(tallies@) && t.1 == tally_bytes(tallies@),
            None => tally_count(tallies@) > usize::MAX || tally_bytes(tallies@) > u64::MAX,
        },
{
    let mut count: usize = 0;
    let mut bytes: u64 = 0;
    let mut i: usize = 0;
    while i < tallies.len()
        invariant
            i <= tallies@.len(),
            count == tally_count(tallies@.take(i as int)),
            bytes == tally_bytes(tallies@.take(i as int)),
        decreases tallies@.len() - i,
    {
        assert(tallies@.take(i + 1).drop_last() =~= tallies@.take(i as int));
        proof {
            lemma_tally_monotone(tallies@, i + 1);
        }
        let (c, b) = tallies[i];
        match count.checked_add(c) {
            Some(v) => {
                count = v;
            },
            None => {
                return None;
            },
        }
        match bytes.checked_add(b) {
            Some(v) => {
                bytes = v;
            },
            None => {
                return None;
            },
        }
        i = i + 1;
    }
    assert(tallies@.take(tallies@.len() as int) =~= tallies@);
    Some((count, bytes))
}

/// The files counted over a list of analyses.
pub open spec fn analysed_files(analysis: Seq<SoftwareFileAnalysis>) -> nat
    decreases analysis.len(),
{
    if analysis.len() == 0 {
        0
    } else {
        analysed_files(analysis.drop_last()) + analysis.last().file_count as nat
    }
}

/// The bytes counted over a list of analyses.
pub open spec fn analysed_bytes(analysis: Seq<SoftwareFileAnalysis>) -> nat
    decreases analysis.len(),
{
    if analysis.len() == 0 {
        0
    } else {
        analysed_bytes(analysis.drop_last()) + analysis.last().total_size as nat
    }
}

proof fn lemma_analysed_monotone(analysis: Seq<SoftwareFileAnalysis>, i: int)
    requires
        0 <= i <= analysis.len(),
    ensures
        analysed_files(analysis.take(i)) <= analysed_files(analysis),
        analysed_bytes(analysis.take(i)) <= analysed_bytes(analysis),
    decreases analysis.len() - i,
{
    if i < analysis.len() {
        lemma_analysed_monotone(analysis, i + 1);
        assert(analysis.take(i + 1).drop_last() =~= analysis.take(i));
    } else {
        assert(analysis.take(i) =~= analysis);
    }
}

/// The number of files and bytes over all analyses; `None` when a total
/// does not fit its type.
pub fn analysis_totals(analysis: &[SoftwareFileAnalysis]) -> (r: Option<(usize, u64)>)
    ensures
        match r {
            Some(t) => t.0 == analysed_files(analysis@) && t.1 == analysed_bytes(analysis@),
            None => analysed_files(analysis@) > usize::MAX || analysed_bytes(analysis@) > u64::MAX,
        },
{
    let mut count: usize = 0;
    let mut bytes: u64 = 0;
    let mut i: usize = 0;
    while i < analysis.len()
        invariant
            i <= analysis@.len(),
            count == analysed_files(analysis@.take(i as int)),
            bytes == analysed_bytes(analysis@.take(i as int)),
        decreases analysis@.len() - i,
    {
        assert(analysis@.take(i + 1).drop_last() =~= analysis@.take(i as int));
        proof {
            lemma_analysed_monotone(analysis@, i + 1);
        }
        match count.checked_add(analysis[i].file_count) {
            Some(v) => {
                count = v;
            },
            None => {
                return None;
            },
        }
        match bytes.checked_add(analysis[i].total_size) {
            Some(v) => {
                bytes = v;
            },
            None => {
                return None;
            },
        }
        i = i + 1;
    }
    assert(analysis@.take(analysis@.len() as int) =~= analysis@);
    Some((count, bytes))
}

/// The scan totals start from nothing and grow, with each further result,
/// by its file count, its byte count, its number of large files and its
/// number of duplicate groups (however many files each group holds).
pub proof fn lemma_scan_totals_add_up(results: Seq<ScanResult>, r: ScanResult)
    ensures
        files_found(Seq::<ScanResult>::empty()) == 0,
        bytes_found(Seq::<ScanResult>::empty()) == 0,
        large_found(Seq::<ScanResult>::empty()) == 0,
        groups_found(Seq::<ScanResult>::empty()) == 0,
        files_found(results.push(r)) == files_found(results) + r.total_files,
        bytes_found(results.push(r)) == bytes_found(results) + r.total_size,
        large_found(results.push(r)) == large_found(results) + r.large_files@.len(),
        groups_found(results.push(r)) == groups_found(results) + r.duplicate_groups@.len(),
{
    assert(results.push(r).drop_last() =~= results);
}

/// Two lists of scan results with, position by position, as many duplicate
/// groups give the same group total, whatever the groups hold.
pub proof fn lemma_group_total_counts_groups(r1: Seq<ScanResult>, r2: Seq<ScanResult>)
    requires
        r1.len() == r2.len(),
        forall|i: int| 0 <= i < r1.len() ==> (#[trigger] r1[i]).duplicate_groups@.len() == r2[i].duplicate_groups@.len(),
    ensures
        groups_found(r1) == groups_found(r2),
    decreases r1.len(),
{
    if r1.len() > 0 {
        lemma_group_total_counts_groups(r1.drop_last(), r2.drop_last());
        assert(r1.last() == r1[r1.len() - 1]);
    }
}

/// The total size starts from nothing and grows by each further file's size.
pub proof fn lemma_total_size_adds_up(files: Seq<FileInfo>, f: FileInfo)
    ensures
        sum_sizes(Seq::<FileInfo>::empty()) == 0,
        sum_sizes(files.push(f)) == sum_sizes(files) + f.size,
{
    assert(files.push(f).drop_last() =~= files);
}

/// The combined tally starts from nothing and grows by each further
/// clean-up's count and bytes.
pub proof fn lemma_tallies_add_up(tallies: Seq<(usize, u64)>, t: (usize, u64))
    ensures
        tally_count(Seq::<(usize, u64)>::empty()) == 0,
        tally_bytes(Seq::<(usize, u64)>::empty()) == 0,
        tally_count(tallies.push(t)) == tally_count(tallies) + t.0,
        tally_bytes(tallies.push(t)) == tally_bytes(tallies) + t.1,
{
    assert(tallies.push(t).drop_last() =~= tallies);
}

/// The analysis totals start from nothing and grow by each further
/// analysis's file count and total size.
pub proof fn lemma_analysis_totals_add_up(analysis: Seq<SoftwareFileAnalysis>, a: SoftwareFileAnalysis)
    ensures
        analysed_files(Seq::<SoftwareFileAnalysis>::empty()) == 0,
        analysed_bytes(Seq::<SoftwareFileAnalysis>::empty()) == 0,
        analysed_files(analysis.push(a)) == analysed_files(analysis) + a.file_count,
        analysed_bytes(analysis.push(a)) == analysed_bytes(analysis) + a.total_size,
{
    assert(analysis.push(a).drop_last() =~= analysis);
}

/// The largest files first: as many as the limit allows, each one of the
/// files, none larger than one listed before it.
pub proof fn lemma_largest_first_order(result: Seq<FileInfo>, files: Seq<FileInfo>, limit: nat)
    requires
        largest_files_first(result, files, limit),
    ensures
        result.len() == if limit < files.len() {
            limit as int
        } else {
            files.len() as int
        },
        forall|k: int, l: int|
            0 <= k < l < result.len() ==> (#[trigger] result[k]).size >= (#[trigger] result[l]).size,
        forall|k: int| 0 <= k < result.len() ==> files.contains(#[trigger] result[k]),
{
    let (sorted, perm) = choose|sorted: Seq<FileInfo>, perm: Seq<int>|
        #[trigger] size_order_via(sorted, files, perm) && result == sorted.take(
            if limit < files.len() {
                limit as int
            } else {
                files.len() as int
            },
        );
    assert forall|k: int, l: int| 0 <= k < l < result.len() implies (#[trigger] result[k]).size >= (
    #[trigger] result[l]).size by {
        assert(result[k] == sorted[k] && result[l] == sorted[l]);
    }
    assert forall|k: int| 0 <= k < result.len() implies files.contains(#[trigger] result[k]) by {
        assert(result[k] == sorted[k]);
        assert(sorted[k] == files[perm[k]]);
    }
}

} // verus!
