use vstd::prelude::*;
use vstd::string::StringExecFns;

use crate::digest::{hash_text, partial_hash_text};
use crate::text::{is_infix, lowercase, str_contains, string_from_chars, to_lowercase};
use crate::timefmt::{format_system_time_fast, timestamp_text};

verus! {

/// A regular file found by a scan.
#[derive(Debug, Clone)]
pub struct FileInfo {
    pub path: String,
    pub size: u64,
    pub modified: String,
}

impl FileInfo {
    /// A copy of this record.
    pub fn copied(&self) -> (r: FileInfo)
        ensures
            r == *self,
    {
        FileInfo { path: self.path.clone(), size: self.size, modified: self.modified.clone() }
    }
}

/// The sum of the sizes of `files`.
pub open spec fn sum_sizes(files: Seq<FileInfo>) -> nat
    decreases files.len(),
{
    if files.len() == 0 {
        0
    } else {
        sum_sizes(files.drop_last()) + files.last().size as nat
    }
}

pub proof fn lemma_sum_sizes_prefix(files: Seq<FileInfo>, i: int)
    requires
        0 <= i <= files.len(),
    ensures
        sum_sizes(files.take(i)) <= sum_sizes(files),
    decreases files.len() - i,
{
    if i < files.len() {
        lemma_sum_sizes_prefix(files, i + 1);
        assert(files.take(i + 1).drop_last() =~= files.take(i));
    } else {
        assert(files.take(i) =~= files);
    }
}

/// The hashes put at the positions of the files they belong to:
/// `hashes[q]` goes to position `indices[q]`, a later one over an earlier
/// one; every other position of the `n` has none.
pub open spec fn scattered(n: nat, indices: Seq<usize>, hashes: Seq<Option<String>>) -> Seq<
    Option<String>,
>
    decreases indices.len(),
{
    if indices.len() == 0 {
        Seq::new(n, |i: int| None)
    } else {
        scattered(n, indices.drop_last(), hashes.drop_last()).update(
            indices.last() as int,
            hashes[indices.len() - 1],
        )
    }
}

proof fn lemma_scattered_len(n: nat, indices: Seq<usize>, hashes: Seq<Option<String>>)
    requires
        hashes.len() == indices.len(),
        forall|q: int| 0 <= q < indices.len() ==> #[trigger] indices[q] < n,
    ensures
        scattered(n, indices, hashes).len() == n,
    decreases indices.len(),
{
    if indices.len() > 0 {
        assert(indices[indices.len() - 1] < n);
        assert forall|q: int| 0 <= q < indices.drop_last().len() implies #[trigger] indices.drop_last()[q] < n by {
            assert(indices.drop_last()[q] == indices[q]);
        }
        lemma_scattered_len(n, indices.drop_last(), hashes.drop_last());
    }
}

/// One hash per file: `hashes[q]`, taken of the file at `indices[q]`, put
/// at that file's position among `file_count` files.
pub fn hashes_by_file(file_count: usize, indices: &[usize], hashes: &[Option<String>]) -> (r: Vec<
    Option<String>,
>)
    requires
        hashes@.len() == indices@.len(),
        forall|q: int| 0 <= q < indices@.len() ==> #[trigger] indices@[q] < file_count,
    ensures
        r@ == scattered(file_count as nat, indices@, hashes@),
{
    let mut out: Vec<Option<String>> = Vec::new();
    let mut i: usize = 0;
    while i < file_count
        invariant
            i <= file_count,
            out@ =~= Seq::new(i as nat, |k: int| None::<String>),
        decreases file_count - i,
    {
        out.push(None);
        i = i + 1;
    }
    assert(scattered(file_count as nat, indices@.take(0), hashes@.take(0)) =~= out@);
    let mut q: usize = 0;
    while q < indices.len()
        invariant
            q <= indices@.len(),
            hashes@.len() == indices@.len(),
            forall|p: int| 0 <= p < indices@.len() ==> #[trigger] indices@[p] < file_count,
            out@ == scattered(file_count as nat, indices@.take(q as int), hashes@.take(q as int)),
        decreases indices@.len() - q,
    {
        proof {
            assert forall|p: int| 0 <= p < indices@.take(q as int).len() implies #[trigger] indices@.take(
                q as int,
            )[p] < file_count by {
                assert(indices@.take(q as int)[p] == indices@[p]);
            }
            lemma_scattered_len(file_count as nat, indices@.take(q as int), hashes@.take(q as int));
        }
        let h = match &hashes[q] {
            Some(text) => Some(text.clone()),
            None => None,
        };
        let at = indices[q];
        out.set(at, h);
        assert(indices@.take(q + 1).drop_last() =~= indices@.take(q as int));
        assert(hashes@.take(q + 1).drop_last() =~= hashes@.take(q as int));
        q = q + 1;
    }
    assert(indices@.take(indices@.len() as int) =~= indices@);
    assert(hashes@.take(hashes@.len() as int) =~= hashes@);
    out
}

/// The key files are grouped by: a size with a hash (empty when only sizes
/// are compared).
pub type GroupKey = (u64, Seq<char>);

/// The views of a list of optional keys.
pub open spec fn key_views(keys: Seq<Option<(u64, String)>>) -> Seq<Option<GroupKey>> {
    keys.map_values(
        |k: Option<(u64, String)>|
            match k {
                Some(p) => Some((p.0, p.1@)),
                None => None,
            },
    )
}

/// The indices below `n` whose key is `k`, in increasing order.
pub open spec fn members(keys: Seq<Option<GroupKey>>, k: GroupKey, n: int) -> Seq<usize>
    decreases n,
{
    if n <= 0 {
        Seq::empty()
    } else {
        let prev = members(keys, k, n - 1);
        if keys[n - 1] == Some(k) {
            prev.push((n - 1) as usize)
        } else {
            prev
        }
    }
}

/// The distinct keys among the first `n`, in the order they first occur.
pub open spec fn first_keys(keys: Seq<Option<GroupKey>>, n: int) -> Seq<GroupKey>
    decreases n,
{
    if n <= 0 {
        Seq::empty()
    } else {
        let prev = first_keys(keys, n - 1);
        match keys[n - 1] {
            Some(k) => if members(keys, k, n - 1).len() == 0 {
                prev.push(k)
            } else {
                prev
            },
            None => prev,
        }
    }
}

/// For each key of `ks` in turn, the indices that have it, where there are
/// at least two.
pub open spec fn groups_for(keys: Seq<Option<GroupKey>>, ks: Seq<GroupKey>) -> Seq<Seq<usize>>
    decreases ks.len(),
{
    if ks.len() == 0 {
        Seq::empty()
    } else {
        let prev = groups_for(keys, ks.drop_last());
        let g = members(keys, ks.last(), keys.len() as int);
        if g.len() >= 2 {
            prev.push(g)
        } else {
            prev
        }
    }
}

/// The indices grouped by key, keys without a second index left out: one
/// group per key, in the order the keys first occur, indices increasing.
pub open spec fn duplicate_index_groups(keys: Seq<Option<GroupKey>>) -> Seq<Seq<usize>> {
    groups_for(keys, first_keys(keys, keys.len() as int))
}

/// The views of a list of index lists.
pub open spec fn index_group_views(groups: Seq<Vec<usize>>) -> Seq<Seq<usize>> {
    groups.map_values(|g: Vec<usize>| g@)
}

pub proof fn lemma_first_keys_contains(keys: Seq<Option<GroupKey>>, k: GroupKey, n: int)
    requires
        0 <= n <= keys.len(),
    ensures
        first_keys(keys, n).contains(k) <==> members(keys, k, n).len() > 0,
    decreases n,
{
    if n > 0 {
        lemma_first_keys_contains(keys, k, n - 1);
        let prev = first_keys(keys, n - 1);
        match keys[n - 1] {
            Some(k2) => {
                if members(keys, k2, n - 1).len() == 0 {
                    assert(prev.push(k2).contains(k) <==> prev.contains(k) || k2 == k) by {
                        if prev.push(k2).contains(k) {
                            let j = choose|j: int| 0 <= j < prev.len() + 1 && prev.push(k2)[j] == k;
                            if j < prev.len() {
                                assert(prev[j] == k);
                            }
                        }
                        if k2 == k {
                            assert(prev.push(k2)[prev.len() as int] == k);
                        }
                        if prev.contains(k) {
                            let j = choose|j: int| 0 <= j < prev.len() && prev[j] == k;
                            assert(prev.push(k2)[j] == k);
                        }
                    }
                    if k2 == k {
                        lemma_first_keys_contains(keys, k2, n - 1);
                    }
                } else {
                    if k2 == k {
                        lemma_first_keys_contains(keys, k2, n - 1);
                    }
                }
            },
            None => {},
        }
    }
}

fn copy_indices(v: &Vec<usize>) -> (r: Vec<usize>)
    ensures
        r@ == v@,
{
    let mut out: Vec<usize> = Vec::new();
    let mut i: usize = 0;
    while i < v.len()
        invariant
            i <= v@.len(),
            out@ == v@.take(i as int),
        decreases v@.len() - i,
    {
        out.push(v[i]);
        i = i + 1;
        assert(out@ =~= v@.take(i as int));
    }
    assert(v@.take(v@.len() as int) =~= v@);
    out
}

/// Groups the indices of `keys` by equal key, as `duplicate_index_groups`
/// says; `None` keys take part in no group.
pub fn group_by_key(keys: &Vec<Option<(u64, String)>>) -> (r: Vec<Vec<usize>>)
    ensures
        index_group_views(r@) == duplicate_index_groups(key_views(keys@)),
{
    let ghost kv = key_views(keys@);
    let n = keys.len();
    let mut gkeys: Vec<(u64, String)> = Vec::new();
    let mut groups: Vec<Vec<usize>> = Vec::new();
    let mut i: usize = 0;
    while i < n
        invariant
            n == keys@.len(),
            kv == key_views(keys@),
            i <= n,
            gkeys@.len() == groups@.len(),
            gkeys@.len() == first_keys(kv, i as int).len(),
            forall|t: int| 0 <= t < gkeys@.len() ==> (#[trigger] gkeys@[t]).0 == first_keys(kv, i as int)[t].0
                && gkeys@[t].1@ == first_keys(kv, i as int)[t].1,
            forall|t: int|
                0 <= t < groups@.len() ==> (#[trigger] groups@[t])@ == members(
                    kv,
                    first_keys(kv, i as int)[t],
                    i as int,
                ),
        decreases n - i,
    {
        let ghost fk = first_keys(kv, i as int);
        match &keys[i] {
            Some(key) => {
                let ghost k: GroupKey = (key.0, key.1@);
                assert(kv[i as int] == Some(k));
                let mut t: usize = 0;
                let mut found = false;
                while t < gkeys.len()
                    invariant_except_break
                        !found,
                    invariant
                        t <= gkeys@.len(),
                        k == (key.0, key.1@),
                        gkeys@.len() == fk.len(),
                        forall|q: int| 0 <= q < gkeys@.len() ==> (#[trigger] gkeys@[q]).0 == fk[q].0
                            && gkeys@[q].1@ == fk[q].1,
                        forall|q: int| 0 <= q < t ==> fk[q] != k,
                    ensures
                        t <= gkeys@.len(),
                        found ==> t < gkeys@.len() && fk[t as int] == k,
                        !found ==> forall|q: int| 0 <= q < gkeys@.len() ==> fk[q] != k,
                    decreases gkeys@.len() - t,
                {
                    let same_size = gkeys[t].0 == key.0;
                    let same_hash = gkeys[t].1 == key.1;
                    proof {
                        let f = fk[t as int];
                        assert(f.0 == gkeys@[t as int].0 && f.1 == gkeys@[t as int].1@);
                        assert(same_hash == (gkeys@[t as int].1@ == key.1@));
                        if same_size && same_hash {
                            assert(f.0 == k.0 && f.1 == k.1);
                        } else {
                            assert(f.0 != k.0 || f.1 != k.1);
                        }
                    }
                    if same_size && same_hash {
                        assert(fk[t as int] == k);
                        found = true;
                        break;
                    }
                    proof {
                        if fk[t as int] == k {
                            assert(gkeys@[t as int].1@ == k.1);
                        }
                    }
                    t = t + 1;
                }
                proof {
                    lemma_first_keys_contains(kv, k, i as int);
                    if found {
                        assert(fk.contains(k));
                    } else {
                        assert(!fk.contains(k));
                    }
                }
                if found {
                    let mut g = groups.remove(t);
                    g.push(i);
                    groups.insert(t, g);
                    proof {
                        assert(first_keys(kv, i + 1) == fk);
                        assert forall|q: int| 0 <= q < groups@.len() implies (#[trigger] groups@[q])@
                            == members(kv, first_keys(kv, i + 1)[q], i + 1) by {
                            if q != t {
                                assert(fk[q] != k) by {
                                    if fk[q] == k {
                                        lemma_first_keys_distinct(kv, i as int, q, t as int);
                                    }
                                }
                            }
                        }
                    }
                } else {
                    let mut g: Vec<usize> = Vec::new();
                    g.push(i);
                    groups.push(g);
                    gkeys.push((key.0, key.1.clone()));
                    proof {
                        assert(first_keys(kv, i + 1) == fk.push(k));
                        assert forall|q: int| 0 <= q < groups@.len() implies (#[trigger] groups@[q])@
                            == members(kv, first_keys(kv, i + 1)[q], i + 1) by {
                            if q < fk.len() {
                                assert(fk[q] != k);
                            } else {
                                assert(members(kv, k, i as int).len() == 0);
                                assert(groups@[q]@ =~= members(kv, k, i + 1));
                            }
                        }
                    }
                }
            },
            None => {
                proof {
                    assert(kv[i as int] is None);
                    assert(first_keys(kv, i + 1) == fk);
                }
            },
        }
        i = i + 1;
    }
    let ghost fk = first_keys(kv, n as int);
    let mut out: Vec<Vec<usize>> = Vec::new();
    let mut t: usize = 0;
    while t < groups.len()
        invariant
            t <= groups@.len(),
            groups@.len() == fk.len(),
            fk == first_keys(kv, n as int),
            n == kv.len(),
            forall|q: int| 0 <= q < groups@.len() ==> (#[trigger] groups@[q])@ == members(kv, fk[q], n as int),
            index_group_views(out@) == groups_for(kv, fk.take(t as int)),
        decreases groups@.len() - t,
    {
        assert(fk.take(t + 1).drop_last() =~= fk.take(t as int));
        if groups[t].len() >= 2 {
            let ghost before = out@;
            out.push(copy_indices(&groups[t]));
            assert(index_group_views(out@) =~= index_group_views(before).push(groups@[t as int]@));
        }
        t = t + 1;
    }
    assert(fk.take(fk.len() as int) =~= fk);
    out
}

/// Two positions of `first_keys` hold different keys.
pub proof fn lemma_first_keys_distinct(keys: Seq<Option<GroupKey>>, n: int, a: int, b: int)
    requires
        0 <= n <= keys.len(),
        0 <= a < first_keys(keys, n).len(),
        0 <= b < first_keys(keys, n).len(),
        a != b,
    ensures
        first_keys(keys, n)[a] != first_keys(keys, n)[b],
    decreases n,
{
    if n > 0 {
        let prev = first_keys(keys, n - 1);
        match keys[n - 1] {
            Some(k) => {
                if members(keys, k, n - 1).len() == 0 {
                    if a < prev.len() && b < prev.len() {
                        lemma_first_keys_distinct(keys, n - 1, a, b);
                    } else {
                        lemma_first_keys_contains(keys, k, n - 1);
                        let c = if a < prev.len() { a } else { b };
                        assert(prev[c] != k) by {
                            if prev[c] == k {
                                assert(prev.contains(k));
                            }
                        }
                    }
                } else {
                    lemma_first_keys_distinct(keys, n - 1, a, b);
                }
            },
            None => {
                lemma_first_keys_distinct(keys, n - 1, a, b);
            },
        }
    }
}

/// What `members` holds: in-range indices with key `k`, increasing, and
/// every index below `n` with key `k`.
pub proof fn lemma_members(keys: Seq<Option<GroupKey>>, k: GroupKey, n: int)
    requires
        0 <= n <= keys.len(),
        keys.len() <= usize::MAX,
    ensures
        forall|q: int|
            0 <= q < members(keys, k, n).len() ==> (#[trigger] members(keys, k, n)[q]) < n
                && keys[members(keys, k, n)[q] as int] == Some(k),
        forall|q: int, r: int|
            0 <= q < r < members(keys, k, n).len() ==> (#[trigger] members(keys, k, n)[q]) < (
            #[trigger] members(keys, k, n)[r]),
        forall|j: int| 0 <= j < n && keys[j] == Some(k) ==> #[trigger] members(keys, k, n).contains(j as usize),
    decreases n,
{
    if n > 0 {
        lemma_members(keys, k, n - 1);
        let prev = members(keys, k, n - 1);
        let cur = members(keys, k, n);
        if keys[n - 1] == Some(k) {
            assert(cur == prev.push((n - 1) as usize));
            assert forall|q: int| 0 <= q < cur.len() implies (#[trigger] cur[q]) < n && keys[cur[q] as int]
                == Some(k) by {
                if q < prev.len() {
                    assert(cur[q] == prev[q]);
                }
            }
            assert forall|q: int, r: int| 0 <= q < r < cur.len() implies (#[trigger] cur[q]) < (
            #[trigger] cur[r]) by {
                assert(cur[q] == prev[q]);
                if r < prev.len() {
                    assert(cur[r] == prev[r]);
                }
            }
            assert forall|j: int| 0 <= j < n && keys[j] == Some(k) implies #[trigger] cur.contains(
                j as usize,
            ) by {
                if j < n - 1 {
                    assert(prev.contains(j as usize));
                    let w = choose|w: int| 0 <= w < prev.len() && prev[w] == j as usize;
                    assert(cur[w] == j as usize);
                } else {
                    assert(cur[prev.len() as int] == j as usize);
                }
            }
        } else {
            assert(cur == prev);
            assert forall|j: int| 0 <= j < n && keys[j] == Some(k) implies #[trigger] cur.contains(
                j as usize,
            ) by {
                assert(j < n - 1);
                assert(prev.contains(j as usize));
            }
        }
    }
}

/// The key of a file: its size with a hash, for non-empty files that have a
/// hash.
pub open spec fn hash_keys(files: Seq<FileInfo>, hashes: Seq<Option<String>>) -> Seq<Option<GroupKey>> {
    Seq::new(
        files.len(),
        |i: int|
            if files[i].size > 0 && hashes[i] is Some {
                Some((files[i].size, hashes[i]->0@))
            } else {
                None
            },
    )
}

/// The key of a file when only sizes are compared: its size, for non-empty
/// files.
pub open spec fn size_keys(files: Seq<FileInfo>) -> Seq<Option<GroupKey>> {
    Seq::new(
        files.len(),
        |i: int|
            if files[i].size > 0 {
                Some((files[i].size, Seq::<char>::empty()))
            } else {
                None
            },
    )
}

/// The groups one after the other.
pub open spec fn flatten_groups(gs: Seq<Seq<usize>>) -> Seq<usize>
    decreases gs.len(),
{
    if gs.len() == 0 {
        Seq::empty()
    } else {
        flatten_groups(gs.drop_last()) + gs.last()
    }
}

/// Each group of indices as the files at those indices.
pub open spec fn files_of_groups(files: Seq<FileInfo>, gs: Seq<Seq<usize>>) -> Seq<Seq<FileInfo>> {
    gs.map_values(|g: Seq<usize>| g.map_values(|i: usize| files[i as int]))
}

/// The views of a list of file lists.
pub open spec fn file_group_views(groups: Seq<Vec<FileInfo>>) -> Seq<Seq<FileInfo>> {
    groups.map_values(|g: Vec<FileInfo>| g@)
}

/// Every index in `duplicate_index_groups(keys)` is below `keys.len()`.
pub proof fn lemma_group_indices_in_range(keys: Seq<Option<GroupKey>>, ks: Seq<GroupKey>)
    requires
        keys.len() <= usize::MAX,
    ensures
        forall|a: int, q: int|
            0 <= a < groups_for(keys, ks).len() && 0 <= q < groups_for(keys, ks)[a].len()
                ==> (#[trigger] groups_for(keys, ks)[a][q]) < keys.len(),
    decreases ks.len(),
{
    if ks.len() > 0 {
        lemma_group_indices_in_range(keys, ks.drop_last());
        lemma_members(keys, ks.last(), keys.len() as int);
        let prev = groups_for(keys, ks.drop_last());
        let g = members(keys, ks.last(), keys.len() as int);
        let cur = groups_for(keys, ks);
        assert forall|a: int, q: int| 0 <= a < cur.len() && 0 <= q < cur[a].len() implies (
        #[trigger] cur[a][q]) < keys.len() by {
            if a < prev.len() {
                assert(cur[a] == prev[a]);
            } else {
                assert(cur[a] == g);
            }
        }
    }
}

/// Groups of indices of non-empty files of equal size, where there are at
/// least two such files: the files that could hold the same content.
pub fn size_candidates(files: &[FileInfo]) -> (r: Vec<Vec<usize>>)
    ensures
        index_group_views(r@) == duplicate_index_groups(size_keys(files@)),
{
    let mut keys: Vec<Option<(u64, String)>> = Vec::new();
    let mut i: usize = 0;
    while i < files.len()
        invariant
            i <= files@.len(),
            keys@.len() == i,
            key_views(keys@) =~= size_keys(files@).take(i as int),
        decreases files@.len() - i,
    {
        let ghost before = keys@;
        if files[i].size > 0 {
            keys.push(Some((files[i].size, String::new())));
        } else {
            keys.push(None);
        }
        assert(keys@ == before.push(keys@[i as int]));
        assert(key_views(keys@) =~= key_views(before).push(size_keys(files@)[i as int]));
        assert(size_keys(files@).take(i + 1) =~= size_keys(files@).take(i as int).push(
            size_keys(files@)[i as int],
        ));
        i = i + 1;
    }
    assert(key_views(keys@) =~= size_keys(files@));
    group_by_key(&keys)
}

fn hash_key_vec(files: &[FileInfo], hashes: &[Option<String>]) -> (keys: Vec<Option<(u64, String)>>)
    requires
        hashes@.len() == files@.len(),
    ensures
        key_views(keys@) == hash_keys(files@, hashes@),
{
    let mut keys: Vec<Option<(u64, String)>> = Vec::new();
    let mut i: usize = 0;
    while i < files.len()
        invariant
            i <= files@.len(),
            hashes@.len() == files@.len(),
            keys@.len() == i,
            key_views(keys@) =~= hash_keys(files@, hashes@).take(i as int),
        decreases files@.len() - i,
    {
        let ghost before = keys@;
        match &hashes[i] {
            Some(h) => {
                if files[i].size > 0 {
                    keys.push(Some((files[i].size, h.clone())));
                } else {
                    keys.push(None);
                }
            },
            None => {
                keys.push(None);
            },
        }
        assert(keys@ == before.push(keys@[i as int]));
        assert(key_views(keys@) =~= key_views(before).push(hash_keys(files@, hashes@)[i as int]));
        assert(hash_keys(files@, hashes@).take(i + 1) =~= hash_keys(files@, hashes@).take(
            i as int,
        ).push(hash_keys(files@, hashes@)[i as int]));
        i = i + 1;
    }
    assert(key_views(keys@) =~= hash_keys(files@, hashes@));
    keys
}

/// The indices of the files whose partial hash is shared with another file
/// of the same size (`partial_hashes[i]` is the partial hash of `files[i]`,
/// absent when it was not taken or could not be): the files whose whole
/// content must be hashed, group after group.
pub fn full_hash_candidates(files: &[FileInfo], partial_hashes: &[Option<String>]) -> (r: Vec<usize>)
    requires
        partial_hashes@.len() == files@.len(),
    ensures
        r@ == flatten_groups(duplicate_index_groups(hash_keys(files@, partial_hashes@))),
{
    let keys = hash_key_vec(files, partial_hashes);
    let groups = group_by_key(&keys);
    let ghost gs = index_group_views(groups@);
    let mut out: Vec<usize> = Vec::new();
    let mut a: usize = 0;
    while a < groups.len()
        invariant
            a <= groups@.len(),
            gs == index_group_views(groups@),
            out@ == flatten_groups(gs.take(a as int)),
        decreases groups@.len() - a,
    {
        let g = &groups[a];
        let ghost before = out@;
        let mut q: usize = 0;
        while q < g.len()
            invariant
                q <= g@.len(),
                out@ == before + g@.take(q as int),
            decreases g@.len() - q,
        {
            out.push(g[q]);
            q = q + 1;
            assert(out@ =~= before + g@.take(q as int));
        }
        assert(g@.take(g@.len() as int) =~= g@);
        assert(gs.take(a + 1).drop_last() =~= gs.take(a as int));
        assert(gs[a as int] == g@);
        a = a + 1;
    }
    assert(gs.take(gs.len() as int) =~= gs);
    out
}

/// Groups of files with the same size and the same hash (`full_hashes[i]`
/// is the hash of the whole content of `files[i]`, absent when it was not
/// taken or could not be), where there are at least two such files.
pub fn duplicate_groups(files: &[FileInfo], full_hashes: &[Option<String>]) -> (r: Vec<Vec<FileInfo>>)
    requires
        full_hashes@.len() == files@.len(),
    ensures
        file_group_views(r@) == files_of_groups(
            files@,
            duplicate_index_groups(hash_keys(files@, full_hashes@)),
        ),
        forall|a: int| 0 <= a < r@.len() ==> (#[trigger] r@[a])@.len() >= 2,
        forall|a: int, q: int|
            0 <= a < r@.len() && 0 <= q < r@[a]@.len() ==> (#[trigger] r@[a]@[q]).size > 0
                && r@[a]@[q].size == r@[a]@[0].size,
{
    let keys = hash_key_vec(files, full_hashes);
    let groups = group_by_key(&keys);
    let ghost kv = hash_keys(files@, full_hashes@);
    let ghost gs = index_group_views(groups@);
    proof {
        lemma_group_indices_in_range(kv, first_keys(kv, kv.len() as int));
    }
    let mut out: Vec<Vec<FileInfo>> = Vec::new();
    let mut a: usize = 0;
    while a < groups.len()
        invariant
            a <= groups@.len(),
            gs == index_group_views(groups@),
            gs == duplicate_index_groups(kv),
            kv.len() == files@.len(),
            forall|b: int, q: int|
                0 <= b < gs.len() && 0 <= q < gs[b].len() ==> (#[trigger] gs[b][q]) < kv.len(),
            file_group_views(out@) == files_of_groups(files@, gs.take(a as int)),
        decreases groups@.len() - a,
    {
        let g = &groups[a];
        assert(gs[a as int] == g@);
        let mut members: Vec<FileInfo> = Vec::new();
        let mut q: usize = 0;
        while q < g.len()
            invariant
                q <= g@.len(),
                g@ == gs[a as int],
                a < gs.len(),
                kv.len() == files@.len(),
                forall|b: int, q: int|
                    0 <= b < gs.len() && 0 <= q < gs[b].len() ==> (#[trigger] gs[b][q]) < kv.len(),
                members@ =~= g@.take(q as int).map_values(|i: usize| files@[i as int]),
            decreases g@.len() - q,
        {
            assert(gs[a as int][q as int] < kv.len());
            members.push(files[g[q]].copied());
            q = q + 1;
            assert(members@ =~= g@.take(q as int).map_values(|i: usize| files@[i as int]));
        }
        assert(g@.take(g@.len() as int) =~= g@);
        let ghost before = out@;
        out.push(members);
        assert(file_group_views(out@) =~= file_group_views(before).push(
            gs[a as int].map_values(|i: usize| files@[i as int]),
        ));
        assert(gs.take(a + 1) =~= gs.take(a as int).push(gs[a as int]));
        assert(files_of_groups(files@, gs.take(a + 1)) =~= files_of_groups(files@, gs.take(a as int)).push(
            gs[a as int].map_values(|i: usize| files@[i as int]),
        ));
        a = a + 1;
    }
    assert(gs.take(gs.len() as int) =~= gs);
    proof {
        lemma_duplicate_files_alike(files@, full_hashes@);
        lemma_duplicate_groups_partition(kv);
        assert forall|a: int| 0 <= a < out@.len() implies (#[trigger] out@[a])@.len() >= 2 by {
            assert(file_group_views(out@)[a] == out@[a]@);
            assert(out@[a]@ == gs[a].map_values(|i: usize| files@[i as int]));
            assert(gs[a].len() >= 2);
        }
        assert forall|a: int, q: int| 0 <= a < out@.len() && 0 <= q < out@[a]@.len() implies (
        #[trigger] out@[a]@[q]).size > 0 && out@[a]@[q].size == out@[a]@[0].size by {
            assert(file_group_views(out@)[a] == out@[a]@);
            assert(out@[a]@ == gs[a].map_values(|i: usize| files@[i as int]));
            assert(file_alike(files@, full_hashes@, gs[a], q));
            assert(out@[a]@.len() == gs[a].len());
            assert(out@[a]@[q] == files@[gs[a][q] as int]);
            assert(out@[a]@[0] == files@[gs[a][0] as int]);
        }
    }
    out
}

/// Which key each group of `groups_for(keys, ks)` belongs to: group `a`
/// holds the indices of key `ks[idx[a]]`, in the order of `ks`, and every key
/// of `ks` with at least two indices has its group.
proof fn lemma_groups_for_index(keys: Seq<Option<GroupKey>>, ks: Seq<GroupKey>) -> (idx: Seq<int>)
    ensures
        idx.len() == groups_for(keys, ks).len(),
        forall|a: int|
            0 <= a < idx.len() ==> 0 <= #[trigger] idx[a] < ks.len() && groups_for(keys, ks)[a]
                == members(keys, ks[idx[a]], keys.len() as int) && groups_for(keys, ks)[a].len()
                >= 2,
        forall|a: int, b: int| 0 <= a < b < idx.len() ==> #[trigger] idx[a] < #[trigger] idx[b],
        forall|t: int|
            0 <= t < ks.len() && (#[trigger] members(keys, ks[t], keys.len() as int)).len() >= 2
                ==> exists|a: int| 0 <= a < idx.len() && idx[a] == t,
    decreases ks.len(),
{
    if ks.len() == 0 {
        Seq::empty()
    } else {
        let ks0 = ks.drop_last();
        let idx0 = lemma_groups_for_index(keys, ks0);
        let prev = groups_for(keys, ks0);
        let last = ks.len() - 1;
        let g = members(keys, ks[last], keys.len() as int);
        assert forall|t: int| 0 <= t < ks0.len() implies #[trigger] ks0[t] == ks[t] by {}
        if g.len() >= 2 {
            let idx = idx0.push(last);
            let cur = groups_for(keys, ks);
            assert(cur == prev.push(g));
            assert forall|a: int| 0 <= a < idx.len() implies 0 <= #[trigger] idx[a] < ks.len() && cur[a]
                == members(keys, ks[idx[a]], keys.len() as int) && cur[a].len() >= 2 by {
                if a < idx0.len() {
                    assert(idx[a] == idx0[a]);
                    assert(cur[a] == prev[a]);
                    assert(ks0[idx0[a]] == ks[idx0[a]]);
                }
            }
            assert forall|t: int|
                0 <= t < ks.len() && (#[trigger] members(keys, ks[t], keys.len() as int)).len() >= 2
                    implies exists|a: int| 0 <= a < idx.len() && idx[a] == t by {
                if t < last {
                    assert(ks0[t] == ks[t]);
                    let a = choose|a: int| 0 <= a < idx0.len() && idx0[a] == t;
                    assert(idx[a] == t);
                } else {
                    assert(idx[idx0.len() as int] == t);
                }
            }
            idx
        } else {
            let cur = groups_for(keys, ks);
            assert(cur == prev);
            assert forall|a: int| 0 <= a < idx0.len() implies 0 <= #[trigger] idx0[a] < ks.len() && cur[a]
                == members(keys, ks[idx0[a]], keys.len() as int) && cur[a].len() >= 2 by {
                assert(ks0[idx0[a]] == ks[idx0[a]]);
            }
            assert forall|t: int|
                0 <= t < ks.len() && (#[trigger] members(keys, ks[t], keys.len() as int)).len() >= 2
                    implies exists|a: int| 0 <= a < idx0.len() && idx0[a] == t by {
                assert(t < last);
                assert(ks0[t] == ks[t]);
            }
            idx0
        }
    }
}

/// Duplicate grouping sorts the keyed indices into groups exactly: every
/// group holds at least two indices, each in range, increasing, all with one
/// and the same key; no index is in two groups; and any two indices that
/// have the same key are in one group.
pub proof fn lemma_duplicate_groups_partition(keys: Seq<Option<GroupKey>>)
    requires
        keys.len() <= usize::MAX,
    ensures
        forall|a: int|
            0 <= a < duplicate_index_groups(keys).len() ==> {
                let g = #[trigger] duplicate_index_groups(keys)[a];
                &&& g.len() >= 2
                &&& keys[g[0] as int] is Some
                &&& forall|q: int|
                    0 <= q < g.len() ==> (#[trigger] g[q]) < keys.len() && keys[g[q] as int]
                        == keys[g[0] as int]
                &&& forall|q: int, r: int| 0 <= q < r < g.len() ==> #[trigger] g[q] < #[trigger] g[r]
            },
        forall|a: int, b: int, q: int, r: int|
            0 <= a < duplicate_index_groups(keys).len() && 0 <= b < duplicate_index_groups(keys).len()
                && a != b && 0 <= q < duplicate_index_groups(keys)[a].len() && 0 <= r
                < duplicate_index_groups(keys)[b].len() ==> #[trigger] duplicate_index_groups(keys)[a][q]
                != #[trigger] duplicate_index_groups(keys)[b][r],
        forall|i: int, j: int|
            0 <= i < j < keys.len() && keys[i] is Some && #[trigger] keys[i] == #[trigger] keys[j]
                ==> exists|a: int|
                0 <= a < duplicate_index_groups(keys).len() && duplicate_index_groups(keys)[a].contains(
                    i as usize,
                ) && duplicate_index_groups(keys)[a].contains(j as usize),
{
    let n = keys.len() as int;
    let ks = first_keys(keys, n);
    let gs = duplicate_index_groups(keys);
    let idx = lemma_groups_for_index(keys, ks);
    assert forall|a: int| 0 <= a < gs.len() implies {
        let g = #[trigger] gs[a];
        &&& g.len() >= 2
        &&& keys[g[0] as int] is Some
        &&& forall|q: int| 0 <= q < g.len() ==> (#[trigger] g[q]) < keys.len() && keys[g[q] as int] == keys[g[0] as int]
        &&& forall|q: int, r: int| 0 <= q < r < g.len() ==> #[trigger] g[q] < #[trigger] g[r]
    } by {
        lemma_members(keys, ks[idx[a]], n);
        assert(gs[a][0] == gs[a][0]);
    }
    assert forall|a: int, b: int, q: int, r: int|
        0 <= a < gs.len() && 0 <= b < gs.len() && a != b && 0 <= q < gs[a].len() && 0 <= r < gs[b].len()
            implies #[trigger] gs[a][q] != #[trigger] gs[b][r] by {
        lemma_members(keys, ks[idx[a]], n);
        lemma_members(keys, ks[idx[b]], n);
        assert(idx[a] != idx[b]) by {
            if a < b {
                assert(idx[a] < idx[b]);
            } else {
                assert(idx[b] < idx[a]);
            }
        }
        lemma_first_keys_distinct(keys, n, idx[a], idx[b]);
        if gs[a][q] == gs[b][r] {
            assert(keys[gs[a][q] as int] == Some(ks[idx[a]]));
            assert(keys[gs[b][r] as int] == Some(ks[idx[b]]));
        }
    }
    assert forall|i: int, j: int|
        0 <= i < j < keys.len() && keys[i] is Some && #[trigger] keys[i] == #[trigger] keys[j]
            implies exists|a: int|
            0 <= a < gs.len() && gs[a].contains(i as usize) && gs[a].contains(j as usize) by {
        let k = keys[i]->0;
        lemma_members(keys, k, n);
        let m = members(keys, k, n);
        assert(m.contains(i as usize));
        assert(m.contains(j as usize));
        let qi = choose|w: int| 0 <= w < m.len() && m[w] == i as usize;
        let qj = choose|w: int| 0 <= w < m.len() && m[w] == j as usize;
        assert(qi != qj);
        assert(m.len() >= 2);
        lemma_first_keys_contains(keys, k, n);
        let t = choose|t: int| 0 <= t < ks.len() && ks[t] == k;
        assert(members(keys, ks[t], n).len() >= 2);
        let a = choose|a: int| 0 <= a < idx.len() && idx[a] == t;
        assert(gs[a] == m);
    }
}

/// The path fragments whose files and directories a scan leaves alone
/// (compared without regard to case).
pub open spec fn protected_patterns() -> Seq<Seq<char>> {
    seq![
        "$Recycle.Bin"@,
        "System Volume Information"@,
        "Documents and Settings"@,
        "PerfLogs"@,
        "Windows\\System32\\config"@,
        "Windows\\System32\\drivers"@,
        "Windows\\SysWOW64\\config"@,
        "Windows\\SysWOW64\\drivers"@,
        "Recovery"@,
        "Config.Msi"@,
        "ProgramData\\Microsoft\\Windows\\WER"@,
        "ProgramData\\Microsoft\\Windows\\Caches"@,
    ]
}

/// A path is protected when its lowercase form contains the lowercase form
/// of one of the protected fragments.
pub open spec fn is_protected(path: Seq<char>) -> bool {
    exists|i: int|
        0 <= i < protected_patterns().len() && is_infix(
            lowercase(#[trigger] protected_patterns()[i]),
            lowercase(path),
        )
}

fn protected_pattern(i: usize) -> (r: &'static str)
    requires
        i < 12,
    ensures
        r@ == protected_patterns()[i as int],
{
    match i {
        0 => "$Recycle.Bin",
        1 => "System Volume Information",
        2 => "Documents and Settings",
        3 => "PerfLogs",
        4 => "Windows\\System32\\config",
        5 => "Windows\\System32\\drivers",
        6 => "Windows\\SysWOW64\\config",
        7 => "Windows\\SysWOW64\\drivers",
        8 => "Recovery",
        9 => "Config.Msi",
        10 => "ProgramData\\Microsoft\\Windows\\WER",
        _ => "ProgramData\\Microsoft\\Windows\\Caches",
    }
}

/// Whether a scan leaves `path` alone.
pub fn is_protected_path(path: &str) -> (r: bool)
    ensures
        r == is_protected(path@),
{
    let path_lower = to_lowercase(path);
    let mut i: usize = 0;
    assert(protected_patterns().len() == 12);
    while i < 12
        invariant
            i <= 12,
            path_lower@ == lowercase(path@),
            protected_patterns().len() == 12,
            forall|j: int| 0 <= j < i ==> !is_infix(lowercase(#[trigger] protected_patterns()[j]), lowercase(path@)),
        decreases 12 - i,
    {
        let pattern_lower = to_lowercase(protected_pattern(i));
        if str_contains(path_lower.as_str(), pattern_lower.as_str()) {
            assert(is_infix(lowercase(protected_patterns()[i as int]), lowercase(path@)));
            return true;
        }
        i = i + 1;
    }
    false
}

/// What a directory entry is.
pub enum EntryKind {
    Directory,
    File,
    Other,
}

/// What the file system tells of a regular file: its size, and its
/// modification time in whole seconds since the Unix epoch (0 for a time
/// before it), when that could be read.
pub struct EntryMetadata {
    pub size: u64,
    pub modified_secs: Option<u64>,
}

/// One entry of a directory as read: its path, its kind, and for a file its
/// metadata when that could be read.
pub struct DirEntryInfo {
    pub path: String,
    pub kind: EntryKind,
    pub metadata: Option<EntryMetadata>,
}

/// What a scan keeps of one directory: the positions (in the entries read)
/// of the subdirectories to scan next, the files, and their total size.
pub struct DirectoryListing {
    pub directories: Vec<usize>,
    pub files: Vec<FileInfo>,
    pub total_size: u64,
}

/// A file as path, size and modification text.
pub open spec fn file_view(f: FileInfo) -> (Seq<char>, u64, Seq<char>) {
    (f.path@, f.size, f.modified@)
}

/// The views of a list of files.
pub open spec fn file_views(files: Seq<FileInfo>) -> Seq<(Seq<char>, u64, Seq<char>)> {
    files.map_values(|f: FileInfo| file_view(f))
}

/// How a modification time is shown: formatted, or `Unknown`.
pub open spec fn modified_text(secs: Option<u64>) -> Seq<char> {
    match secs {
        Some(t) => timestamp_text(t as nat),
        None => "Unknown"@,
    }
}

/// The file that an entry gives a scan, if any: a regular file with
/// readable metadata and a path that is not protected.
pub open spec fn entry_file(e: DirEntryInfo) -> Option<(Seq<char>, u64, Seq<char>)> {
    if is_protected(e.path@) {
        None
    } else {
        match e.kind {
            EntryKind::File => match e.metadata {
                Some(m) => Some((e.path@, m.size, modified_text(m.modified_secs))),
                None => None,
            },
            _ => None,
        }
    }
}

/// Whether an entry is a subdirectory to scan: a directory whose path is not
/// protected.
pub open spec fn entry_is_subdirectory(e: DirEntryInfo) -> bool {
    !is_protected(e.path@) && e.kind is Directory
}

/// The positions of the subdirectories to scan among `entries`, in order.
pub open spec fn listed_directories(entries: Seq<DirEntryInfo>) -> Seq<usize>
    decreases entries.len(),
{
    if entries.len() == 0 {
        Seq::empty()
    } else {
        let prev = listed_directories(entries.drop_last());
        if entry_is_subdirectory(entries.last()) {
            prev.push((entries.len() - 1) as usize)
        } else {
            prev
        }
    }
}

/// The files that `entries` give a scan, in order.
pub open spec fn listed_files(entries: Seq<DirEntryInfo>) -> Seq<(Seq<char>, u64, Seq<char>)>
    decreases entries.len(),
{
    if entries.len() == 0 {
        Seq::empty()
    } else {
        let prev = listed_files(entries.drop_last());
        match entry_file(entries.last()) {
            Some(f) => prev.push(f),
            None => prev,
        }
    }
}

/// The total size of the files that `entries` give a scan.
pub open spec fn listed_bytes(entries: Seq<DirEntryInfo>) -> nat
    decreases entries.len(),
{
    if entries.len() == 0 {
        0
    } else {
        listed_bytes(entries.drop_last()) + match entry_file(entries.last()) {
            Some(f) => f.1 as nat,
            None => 0,
        }
    }
}

proof fn lemma_listed_bytes_prefix(entries: Seq<DirEntryInfo>, i: int)
    requires
        0 <= i <= entries.len(),
    ensures
        listed_bytes(entries.take(i)) <= listed_bytes(entries),
    decreases entries.len() - i,
{
    if i < entries.len() {
        lemma_listed_bytes_prefix(entries, i + 1);
        assert(entries.take(i + 1).drop_last() =~= entries.take(i));
    } else {
        assert(entries.take(i) =~= entries);
    }
}

/// What a scan keeps of the entries read from one directory: protected
/// paths are skipped, subdirectories are kept for later, and regular files
/// with readable metadata are recorded with their size and modification time.
pub fn list_directory_entries(entries: &[DirEntryInfo]) -> (r: DirectoryListing)
    requires
        listed_bytes(entries@) <= u64::MAX,
    ensures
        r.directories@ == listed_directories(entries@),
        file_views(r.files@) == listed_files(entries@),
        r.total_size == listed_bytes(entries@),
{
    let mut directories: Vec<usize> = Vec::new();
    let mut files: Vec<FileInfo> = Vec::new();
    let mut total: u64 = 0;
    let mut i: usize = 0;
    while i < entries.len()
        invariant
            i <= entries@.len(),
            listed_bytes(entries@) <= u64::MAX,
            directories@ == listed_directories(entries@.take(i as int)),
            file_views(files@) == listed_files(entries@.take(i as int)),
            total == listed_bytes(entries@.take(i as int)),
        decreases entries@.len() - i,
    {
        let ghost prefix = entries@.take(i + 1);
        assert(prefix.drop_last() =~= entries@.take(i as int));
        assert(prefix.last() == entries@[i as int]);
        proof {
            lemma_listed_bytes_prefix(entries@, i + 1);
        }
        let e = &entries[i];
        if !is_protected_path(e.path.as_str()) {
            match e.kind {
                EntryKind::Directory => {
                    directories.push(i);
                },
                EntryKind::File => {
                    match &e.metadata {
                        Some(m) => {
                            total = total + m.size;
                            let modified = match m.modified_secs {
                                Some(t) => format_system_time_fast(t),
                                None => String::from_str("Unknown"),
                            };
                            let ghost before = files@;
                            files.push(FileInfo { path: e.path.clone(), size: m.size, modified });
                            assert(file_views(files@) =~= file_views(before).push(
                                entry_file(entries@[i as int])->0,
                            ));
                        },
                        None => {},
                    }
                },
                EntryKind::Other => {},
            }
        }
        i = i + 1;
    }
    assert(entries@.take(entries@.len() as int) =~= entries@);
    DirectoryListing { directories, files, total_size: total }
}

/// As `list_directory_entries`, or none when the sizes of the files kept add
/// up to more than a `u64` holds.
pub fn try_list_directory_entries(entries: &[DirEntryInfo]) -> (r: Option<DirectoryListing>)
    ensures
        r is None <==> listed_bytes(entries@) > u64::MAX,
        r matches Some(l) ==> {
            &&& l.directories@ == listed_directories(entries@)
            &&& file_views(l.files@) == listed_files(entries@)
            &&& l.total_size == listed_bytes(entries@)
        },
{
    let mut total: u64 = 0;
    let mut i: usize = 0;
    while i < entries.len()
        invariant
            i <= entries@.len(),
            total == listed_bytes(entries@.take(i as int)),
        decreases entries@.len() - i,
    {
        let ghost prefix = entries@.take(i + 1);
        assert(prefix.drop_last() =~= entries@.take(i as int));
        assert(prefix.last() == entries@[i as int]);
        let e = &entries[i];
        if !is_protected_path(e.path.as_str()) {
            match (&e.kind, &e.metadata) {
                (EntryKind::File, Some(m)) => {
                    if total > u64::MAX - m.size {
                        proof {
                            lemma_listed_bytes_prefix(entries@, i + 1);
                        }
                        return None;
                    }
                    total = total + m.size;
                },
                _ => {},
            }
        }
        i = i + 1;
    }
    assert(entries@.take(entries@.len() as int) =~= entries@);
    Some(list_directory_entries(entries))
}

/// The error a scan gives up with when its starting directory cannot be
/// read: none when the message says access was denied (the directory is
/// then taken as empty).
pub fn unreadable_root_error(path_display: &str, message: &str) -> (r: Option<String>)
    ensures
        r is None <==> is_infix("拒绝访问"@, message@) || is_infix("Access is denied"@, message@),
        r matches Some(e) ==> e@ == "无法读取目录 "@ + path_display@ + ": "@ + message@,
{
    if str_contains(message, "拒绝访问") || str_contains(message, "Access is denied") {
        None
    } else {
        Some(String::from_str("无法读取目录 ").concat(path_display).concat(": ").concat(message))
    }
}

/// What a scan finds under a directory.
#[derive(Debug)]
pub struct ScanResult {
    pub total_files: usize,
    pub total_size: u64,
    pub all_files: Vec<FileInfo>,
    pub duplicate_groups: Vec<Vec<FileInfo>>,
    pub large_files: Vec<FileInfo>,
}

/// The size from which a file counts as large: 100 MiB.
pub const LARGE_FILE_BYTES: u64 = 100 * 1024 * 1024;

/// The settings of a scan.
pub struct FileScanner {
    min_large_file_size: u64,
    check_duplicates: bool,
}

/// The files of `files` of at least `min` bytes, in order.
pub open spec fn files_at_least(files: Seq<FileInfo>, min: u64) -> Seq<FileInfo>
    decreases files.len(),
{
    if files.len() == 0 {
        Seq::empty()
    } else {
        let prev = files_at_least(files.drop_last(), min);
        if files.last().size >= min {
            prev.push(files.last())
        } else {
            prev
        }
    }
}

/// The groups with all but their first file (`keep_first`) or all but their
/// last file, one group after the other: the files a clean-up removes.
pub open spec fn deletion_plan(groups: Seq<Seq<FileInfo>>, keep_first: bool) -> Seq<FileInfo>
    decreases groups.len(),
{
    if groups.len() == 0 {
        Seq::empty()
    } else {
        let g = groups.last();
        deletion_plan(groups.drop_last(), keep_first) + if keep_first {
            g.drop_first()
        } else {
            g.drop_last()
        }
    }
}

/// The files of `files` whose removal succeeded (`removed[i]` for `files[i]`).
pub open spec fn removed_files(files: Seq<FileInfo>, removed: Seq<bool>) -> Seq<FileInfo>
    decreases files.len(),
{
    if files.len() == 0 {
        Seq::empty()
    } else {
        let prev = removed_files(files.drop_last(), removed);
        if removed[files.len() - 1] {
            prev.push(files.last())
        } else {
            prev
        }
    }
}

impl FileScanner {
    /// The size from which a file counts as large.
    pub closed spec fn large_threshold(&self) -> u64 {
        self.min_large_file_size
    }

    /// Whether a scan looks for duplicate files.
    pub closed spec fn finds_duplicates(&self) -> bool {
        self.check_duplicates
    }

    /// A scanner that counts files of 100 MiB or more as large and looks for
    /// duplicates.
    pub fn new() -> (s: Self)
        ensures
            s.large_threshold() == LARGE_FILE_BYTES,
            s.finds_duplicates(),
    {
        FileScanner { min_large_file_size: LARGE_FILE_BYTES, check_duplicates: true }
    }

    /// Whether a scan looks for duplicate files.
    pub fn checks_duplicates(&self) -> (r: bool)
        ensures
            r == self.finds_duplicates(),
    {
        self.check_duplicates
    }

    /// The files of `files` that count as large, in order.
    pub fn large_files(&self, files: &[FileInfo]) -> (r: Vec<FileInfo>)
        ensures
            r@ == files_at_least(files@, self.large_threshold()),
    {
        let mut out: Vec<FileInfo> = Vec::new();
        let mut i: usize = 0;
        while i < files.len()
            invariant
                i <= files@.len(),
                out@ == files_at_least(files@.take(i as int), self.large_threshold()),
            decreases files@.len() - i,
        {
            let ghost prefix = files@.take(i + 1);
            assert(prefix.drop_last() =~= files@.take(i as int));
            assert(prefix.last() == files@[i as int]);
            if files[i].size >= self.min_large_file_size {
                out.push(files[i].copied());
            }
            i = i + 1;
        }
        assert(files@.take(files@.len() as int) =~= files@);
        out
    }

    /// The result of a scan that found `files`, where `full_hashes[i]` is the
    /// hash of the whole content of `files[i]` (absent when it was not taken
    /// or could not be): their count and total size, the large ones, and,
    /// when this scanner looks for duplicates, the groups of non-empty files
    /// with the same size and hash.
    pub fn scan_result(&self, files: Vec<FileInfo>, full_hashes: &[Option<String>]) -> (r: ScanResult)
        requires
            full_hashes@.len() == files@.len(),
            sum_sizes(files@) <= u64::MAX,
        ensures
            r.total_files == files@.len(),
            r.total_size == sum_sizes(files@),
            r.all_files@ == files@,
            r.large_files@ == files_at_least(files@, self.large_threshold()),
            self.finds_duplicates() ==> file_group_views(r.duplicate_groups@) == files_of_groups(
                files@,
                duplicate_index_groups(hash_keys(files@, full_hashes@)),
            ),
            !self.finds_duplicates() ==> r.duplicate_groups@.len() == 0,
    {
        let total_files = files.len();
        let mut total_size: u64 = 0;
        let mut i: usize = 0;
        while i < files.len()
            invariant
                i <= files@.len(),
                sum_sizes(files@) <= u64::MAX,
                total_size == sum_sizes(files@.take(i as int)),
            decreases files@.len() - i,
        {
            assert(files@.take(i + 1).drop_last() =~= files@.take(i as int));
            proof {
                lemma_sum_sizes_prefix(files@, i + 1);
            }
            total_size = total_size + files[i].size;
            i = i + 1;
        }
        assert(files@.take(files@.len() as int) =~= files@);
        let large_files = self.large_files(&files);
        let groups = if self.check_duplicates {
            duplicate_groups(&files, full_hashes)
        } else {
            Vec::new()
        };
        ScanResult { total_files, total_size, all_files: files, duplicate_groups: groups, large_files }
    }

    /// The files a clean-up of `duplicate_groups` removes: all of each group
    /// but its first file (`keep_first`) or but its last file.
    pub fn deletion_targets(&self, duplicate_groups: &[Vec<FileInfo>], keep_first: bool) -> (r: Vec<
        FileInfo,
    >)
        requires
            forall|g: int| 0 <= g < duplicate_groups@.len() ==> (#[trigger] duplicate_groups@[g])@.len() > 0,
        ensures
            r@ == deletion_plan(file_group_views(duplicate_groups@), keep_first),
    {
        let ghost gs = file_group_views(duplicate_groups@);
        let mut out: Vec<FileInfo> = Vec::new();
        let mut a: usize = 0;
        while a < duplicate_groups.len()
            invariant
                a <= duplicate_groups@.len(),
                gs == file_group_views(duplicate_groups@),
                forall|g: int| 0 <= g < duplicate_groups@.len() ==> (#[trigger] duplicate_groups@[g])@.len() > 0,
                out@ == deletion_plan(gs.take(a as int), keep_first),
            decreases duplicate_groups@.len() - a,
        {
            let group = &duplicate_groups[a];
            assert(gs[a as int] == group@);
            let (lo, hi) = if keep_first {
                (1, group.len())
            } else {
                (0, group.len() - 1)
            };
            let ghost part = if keep_first {
                group@.drop_first()
            } else {
                group@.drop_last()
            };
            assert(part =~= group@.subrange(lo as int, hi as int));
            let ghost before = out@;
            let mut q = lo;
            while q < hi
                invariant
                    lo <= q <= hi,
                    hi <= group@.len(),
                    out@ == before + group@.subrange(lo as int, q as int),
                decreases hi - q,
            {
                out.push(group[q].copied());
                q = q + 1;
                assert(out@ =~= before + group@.subrange(lo as int, q as int));
            }
            assert(gs.take(a + 1).drop_last() =~= gs.take(a as int));
            a = a + 1;
        }
        assert(gs.take(gs.len() as int) =~= gs);
        out
    }

    /// How many of `targets` were removed, and how many bytes that freed
    /// (`removed[i]` tells whether removing `targets[i]` succeeded).
    pub fn deletion_tally(&self, targets: &[FileInfo], removed: &[bool]) -> (r: (usize, u64))
        requires
            removed@.len() == targets@.len(),
            sum_sizes(removed_files(targets@, removed@)) <= u64::MAX,
        ensures
            r.0 == removed_files(targets@, removed@).len(),
            r.1 == sum_sizes(removed_files(targets@, removed@)),
    {
        let mut count: usize = 0;
        let mut freed: u64 = 0;
        let mut i: usize = 0;
        while i < targets.len()
            invariant
                i <= targets@.len(),
                removed@.len() == targets@.len(),
                count == removed_files(targets@.take(i as int), removed@).len(),
                freed == sum_sizes(removed_files(targets@.take(i as int), removed@)),
                sum_sizes(removed_files(targets@, removed@)) <= u64::MAX,
                count <= i,
            decreases targets@.len() - i,
        {
            let ghost prefix = targets@.take(i + 1);
            assert(prefix.drop_last() =~= targets@.take(i as int));
            assert(prefix.last() == targets@[i as int]);
            proof {
                lemma_removed_prefix_sum(targets@, removed@, i + 1);
            }
            if removed[i] {
                let ghost before = removed_files(targets@.take(i as int), removed@);
                assert(removed_files(prefix, removed@) == before.push(targets@[i as int]));
                assert(before.push(targets@[i as int]).drop_last() =~= before);
                count = count + 1;
                freed = freed + targets[i].size;
            }
            i = i + 1;
        }
        assert(targets@.take(targets@.len() as int) =~= targets@);
        (count, freed)
    }

    /// The roots a scan of the whole machine starts from.
    pub fn get_drives() -> (r: Result<Vec<String>, String>)
        ensures
            r matches Ok(v) && v@.len() == 1 && v@[0]@ == "/"@,
    {
        let mut v: Vec<String> = Vec::new();
        v.push(String::from_str("/"));
        Ok(v)
    }

    /// The drive roots `A:` to `Z:` that a machine with drive letters may have.
    pub fn drive_candidates() -> (r: Vec<String>)
        ensures
            r@.len() == 26,
            forall|i: int| 0 <= i < 26 ==> (#[trigger] r@[i])@ == seq![((65 + i) as u32) as char, ':'],
    {
        let mut out: Vec<String> = Vec::new();
        let mut letter: u8 = 65;
        while letter <= 90
            invariant
                65 <= letter <= 91,
                out@.len() == letter - 65,
                forall|i: int| 0 <= i < out@.len() ==> (#[trigger] out@[i])@ == seq![((65 + i) as u32) as char, ':'],
            decreases 91 - letter,
        {
            let mut chars: Vec<char> = Vec::new();
            chars.push(letter as char);
            chars.push(':');
            let name = string_from_chars(&chars);
            assert(name@ =~= seq![((65 + out@.len()) as u32) as char, ':']);
            out.push(name);
            letter = letter + 1;
        }
        out
    }
}

impl Default for FileScanner {
    fn default() -> (s: Self)
        ensures
            s.large_threshold() == LARGE_FILE_BYTES,
            s.finds_duplicates(),
    {
        FileScanner::new()
    }
}

proof fn lemma_removed_prefix_sum(files: Seq<FileInfo>, removed: Seq<bool>, i: int)
    requires
        0 <= i <= files.len(),
    ensures
        sum_sizes(removed_files(files.take(i), removed)) <= sum_sizes(removed_files(files, removed)),
    decreases files.len() - i,
{
    if i < files.len() {
        lemma_removed_prefix_sum(files, removed, i + 1);
        assert(files.take(i + 1).drop_last() =~= files.take(i));
        let prev = removed_files(files.take(i), removed);
        if removed[i] {
            assert(prev.push(files[i]).drop_last() =~= prev);
        }
    } else {
        assert(files.take(i) =~= files);
    }
}

/// Files reported as duplicates are alike: every group of
/// `duplicate_index_groups(hash_keys(files, hashes))` holds at least two
/// distinct non-empty files of one size with one hash, and any two non-empty
/// files of equal size and equal hash are in the same group.
pub proof fn lemma_duplicate_files_alike(files: Seq<FileInfo>, hashes: Seq<Option<String>>)
    requires
        hashes.len() == files.len(),
        files.len() <= usize::MAX,
    ensures
        forall|a: int, q: int|
            #![trigger duplicate_index_groups(hash_keys(files, hashes))[a][q]]
            0 <= a < duplicate_index_groups(hash_keys(files, hashes)).len() && 0 <= q
                < duplicate_index_groups(hash_keys(files, hashes))[a].len() ==> file_alike(
                files,
                hashes,
                duplicate_index_groups(hash_keys(files, hashes))[a],
                q,
            ),
        forall|i: int, j: int|
            0 <= i < j < files.len() && files[i].size > 0 && files[i].size == files[j].size
                && hashes[i] is Some && hashes[j] is Some && #[trigger] hashes[i]->0@
                == #[trigger] hashes[j]->0@ ==> exists|a: int|
                0 <= a < duplicate_index_groups(hash_keys(files, hashes)).len()
                    && duplicate_index_groups(hash_keys(files, hashes))[a].contains(i as usize)
                    && duplicate_index_groups(hash_keys(files, hashes))[a].contains(j as usize),
{
    let keys = hash_keys(files, hashes);
    lemma_duplicate_groups_partition(keys);
    let gs = duplicate_index_groups(keys);
    assert forall|a: int, q: int| 0 <= a < gs.len() && 0 <= q < gs[a].len() implies #[trigger] file_alike(
        files,
        hashes,
        gs[a],
        q,
    ) by {
        let g = gs[a];
        assert(g[q] < keys.len() && keys[g[q] as int] == keys[g[0] as int]);
        assert(keys[g[0] as int] is Some);
    }
    assert forall|i: int, j: int|
        0 <= i < j < files.len() && files[i].size > 0 && files[i].size == files[j].size
            && hashes[i] is Some && hashes[j] is Some && #[trigger] hashes[i]->0@
            == #[trigger] hashes[j]->0@ implies exists|a: int|
            0 <= a < gs.len() && gs[a].contains(i as usize) && gs[a].contains(j as usize) by {
        assert(keys[i] == keys[j]);
    }
}

/// Entry `q` of the group `g` is a non-empty file with a hash, of the size and
/// hash of the group's first file, in a group of at least two.
pub open spec fn file_alike(files: Seq<FileInfo>, hashes: Seq<Option<String>>, g: Seq<usize>, q: int) -> bool {
    let i = g[q] as int;
    let i0 = g[0] as int;
    &&& g.len() >= 2
    &&& 0 <= i < files.len()
    &&& 0 <= i0 < files.len()
    &&& files[i].size > 0
    &&& files[i].size == files[i0].size
    &&& hashes[i] is Some
    &&& hashes[i0] is Some
    &&& hashes[i]->0@ == hashes[i0]->0@
}

/// A clean-up keeps exactly one file of each group: it removes one file
/// fewer than each group holds.
pub proof fn lemma_deletion_keeps_one_per_group(groups: Seq<Seq<FileInfo>>, keep_first: bool)
    requires
        forall|g: int| 0 <= g < groups.len() ==> (#[trigger] groups[g]).len() > 0,
    ensures
        deletion_plan(groups, keep_first).len() + groups.len() == flatten_files(groups).len(),
    decreases groups.len(),
{
    if groups.len() > 0 {
        lemma_deletion_keeps_one_per_group(groups.drop_last(), keep_first);
        assert(groups.last() == groups[groups.len() - 1]);
    }
}

/// All files of the groups, one group after the other.
pub open spec fn flatten_files(groups: Seq<Seq<FileInfo>>) -> Seq<FileInfo>
    decreases groups.len(),
{
    if groups.len() == 0 {
        Seq::empty()
    } else {
        flatten_files(groups.drop_last()) + groups.last()
    }
}

/// The large files are exactly the files of at least the threshold, in their
/// order: each listed one is that large, and none that large is left out.
pub proof fn lemma_large_files_exact(files: Seq<FileInfo>, min: u64)
    ensures
        forall|k: int| 0 <= k < files_at_least(files, min).len() ==> (#[trigger] files_at_least(files, min)[k]).size >= min,
        files_at_least(files, min).len() == files.filter(|f: FileInfo| f.size >= min).len(),
        files_at_least(files, min) == files.filter(|f: FileInfo| f.size >= min),
    decreases files.len(),
{
    reveal_with_fuel(Seq::filter, 1);
    if files.len() > 0 {
        lemma_large_files_exact(files.drop_last(), min);
        let prev = files_at_least(files.drop_last(), min);
        let cur = files_at_least(files, min);
        assert forall|k: int| 0 <= k < cur.len() implies (#[trigger] cur[k]).size >= min by {
            if k < prev.len() {
                assert(cur[k] == prev[k]);
            }
        }
    }
}

/// Protection does not depend on case: paths with the same lowercase form
/// are protected alike.
pub proof fn lemma_protection_ignores_case(a: Seq<char>, b: Seq<char>)
    requires
        lowercase(a) == lowercase(b),
    ensures
        is_protected(a) == is_protected(b),
{
}

/// A scan keeps nothing of a protected path: every subdirectory position it
/// keeps is a non-protected directory entry, in increasing order, and every
/// file it records comes from a non-protected regular file entry.
pub proof fn lemma_listing_skips_protected(entries: Seq<DirEntryInfo>)
    requires
        entries.len() <= usize::MAX,
    ensures
        forall|q: int|
            0 <= q < listed_directories(entries).len() ==> {
                let i = #[trigger] listed_directories(entries)[q] as int;
                0 <= i < entries.len() && entry_is_subdirectory(entries[i])
            },
        forall|q: int, r: int|
            0 <= q < r < listed_directories(entries).len() ==> #[trigger] listed_directories(entries)[q]
                < #[trigger] listed_directories(entries)[r],
        forall|q: int|
            0 <= q < listed_files(entries).len() ==> !is_protected(
                (#[trigger] listed_files(entries)[q]).0,
            ),
    decreases entries.len(),
{
    if entries.len() > 0 {
        let prev = entries.drop_last();
        lemma_listing_skips_protected(prev);
        let d0 = listed_directories(prev);
        let d = listed_directories(entries);
        let f0 = listed_files(prev);
        let f = listed_files(entries);
        assert forall|q: int| 0 <= q < d.len() implies {
            let i = #[trigger] d[q] as int;
            0 <= i < entries.len() && entry_is_subdirectory(entries[i])
        } by {
            if q < d0.len() {
                assert(d[q] == d0[q]);
                assert(entries[d0[q] as int] == prev[d0[q] as int]);
            } else {
                assert(d[q] as int == entries.len() - 1);
            }
        }
        assert forall|q: int, r: int| 0 <= q < r < d.len() implies #[trigger] d[q] < #[trigger] d[r] by {
            if r < d0.len() {
                assert(d[q] == d0[q] && d[r] == d0[r]);
            } else {
                assert(d[q] == d0[q]);
                assert(d0[q] < prev.len());
                assert(d[r] as int == entries.len() - 1);
            }
        }
        assert forall|q: int| 0 <= q < f.len() implies !is_protected((#[trigger] f[q]).0) by {
            if q < f0.len() {
                assert(f[q] == f0[q]);
            }
        }
    }
}

/// `perm` reorders `n` positions (position `i` takes what was at `perm[i]`)
/// and `inv` undoes it.
pub open spec fn is_permutation(perm: Seq<int>, inv: Seq<int>, n: int) -> bool {
    &&& perm.len() == n
    &&& inv.len() == n
    &&& forall|i: int| 0 <= i < n ==> 0 <= #[trigger] perm[i] < n && inv[perm[i]] == i
    &&& forall|j: int| 0 <= j < n ==> 0 <= #[trigger] inv[j] < n && perm[inv[j]] == j
}

/// Group `g1` holds position `j` exactly when group `g2` holds the position
/// that `j` moved to.
pub open spec fn same_members(g1: Seq<usize>, g2: Seq<usize>, inv: Seq<int>, n: int) -> bool {
    forall|j: int| 0 <= j < n ==> (g1.contains(j as usize) <==> g2.contains(#[trigger] inv[j] as usize))
}

/// Some group of `gs1` has the members of `g2`, moved back.
pub open spec fn has_group_with_members(gs1: Seq<Seq<usize>>, g2: Seq<usize>, inv: Seq<int>, n: int) -> bool {
    exists|a1: int| 0 <= a1 < gs1.len() && same_members(gs1[a1], g2, inv, n)
}

/// Some group of `gs2` has the members of `g1`, moved.
pub open spec fn group_with_members_in(g1: Seq<usize>, gs2: Seq<Seq<usize>>, inv: Seq<int>, n: int) -> bool {
    exists|a2: int| 0 <= a2 < gs2.len() && same_members(g1, gs2[a2], inv, n)
}

/// A group holds exactly the positions with its key.
proof fn lemma_group_is_key_class(keys: Seq<Option<GroupKey>>, a: int)
    requires
        keys.len() <= usize::MAX,
        0 <= a < duplicate_index_groups(keys).len(),
    ensures
        duplicate_index_groups(keys)[a].len() >= 2,
        duplicate_index_groups(keys)[a][0] < keys.len(),
        keys[duplicate_index_groups(keys)[a][0] as int] is Some,
        forall|i: int|
            0 <= i < keys.len() ==> (duplicate_index_groups(keys)[a].contains(i as usize) <==> #[trigger] keys[i]
                == keys[duplicate_index_groups(keys)[a][0] as int]),
{
    lemma_duplicate_groups_partition(keys);
    let gs = duplicate_index_groups(keys);
    let g = gs[a];
    assert(g[0] == g[0]);
    let g0 = g[0] as int;
    assert forall|i: int| 0 <= i < keys.len() implies (g.contains(i as usize) <==> #[trigger] keys[i]
        == keys[g0]) by {
        if g.contains(i as usize) {
            let q = choose|q: int| 0 <= q < g.len() && g[q] == i as usize;
            assert(g[q] == g[q]);
        }
        if keys[i] == keys[g0] {
            if i == g0 {
                assert(g[0] == i as usize);
            } else {
                let lo = if i < g0 { i } else { g0 };
                let hi = if i < g0 { g0 } else { i };
                assert(keys[lo] == keys[hi]);
                let b = choose|b: int|
                    0 <= b < gs.len() && gs[b].contains(lo as usize) && gs[b].contains(hi as usize);
                assert(gs[b].contains(g0 as usize));
                let r = choose|r: int| 0 <= r < gs[b].len() && gs[b][r] == g0 as usize;
                if b != a {
                    assert(gs[a][0] != gs[b][r]);
                }
                assert(gs[b].contains(i as usize));
            }
        }
    }
}

proof fn lemma_groups_permuted_one_way(
    keys1: Seq<Option<GroupKey>>,
    keys2: Seq<Option<GroupKey>>,
    perm: Seq<int>,
    inv: Seq<int>,
)
    requires
        keys1.len() == keys2.len(),
        keys1.len() <= usize::MAX,
        is_permutation(perm, inv, keys1.len() as int),
        forall|i: int| 0 <= i < keys2.len() ==> #[trigger] keys2[i] == keys1[perm[i]],
    ensures
        forall|a2: int|
            0 <= a2 < duplicate_index_groups(keys2).len() ==> has_group_with_members(
                duplicate_index_groups(keys1),
                #[trigger] duplicate_index_groups(keys2)[a2],
                inv,
                keys1.len() as int,
            ),
{
    let n = keys1.len() as int;
    let gs1 = duplicate_index_groups(keys1);
    let gs2 = duplicate_index_groups(keys2);
    lemma_duplicate_groups_partition(keys1);
    lemma_duplicate_groups_partition(keys2);
    assert forall|a2: int| 0 <= a2 < gs2.len() implies has_group_with_members(gs1, #[trigger] gs2[a2], inv, n) by {
        lemma_group_is_key_class(keys2, a2);
        let g2 = gs2[a2];
        let i0 = g2[0] as int;
        let i1 = g2[1] as int;
        assert(g2[0] < g2[1]);
        assert(i1 < n && keys2[i1] == keys2[i0]);
        let j0 = perm[i0];
        let j1 = perm[i1];
        assert(j0 != j1) by {
            if j0 == j1 {
                assert(inv[perm[i0]] == i0 && inv[perm[i1]] == i1);
            }
        }
        assert(keys1[j0] == keys2[i0] && keys1[j1] == keys2[i1]);
        let lo = if j0 < j1 { j0 } else { j1 };
        let hi = if j0 < j1 { j1 } else { j0 };
        assert(keys1[lo] == keys1[hi]);
        let a1 = choose|a1: int|
            0 <= a1 < gs1.len() && gs1[a1].contains(lo as usize) && gs1[a1].contains(hi as usize);
        lemma_group_is_key_class(keys1, a1);
        let g1 = gs1[a1];
        assert(g1.contains(j0 as usize));
        assert(keys1[j0] == keys1[g1[0] as int]);
        assert forall|j: int| 0 <= j < n implies (g1.contains(j as usize) <==> g2.contains(
            #[trigger] inv[j] as usize,
        )) by {
            let i = inv[j];
            assert(perm[i] == j);
            assert(keys2[i] == keys1[j]);
            assert(g1.contains(j as usize) <==> keys1[j] == keys1[g1[0] as int]);
            assert(g2.contains(i as usize) <==> keys2[i] == keys2[i0]);
        }
        assert(same_members(g1, g2, inv, n));
        assert(same_members(gs1[a1], g2, inv, n));
    }
}

/// Reordering the keyed positions keeps the groups: every group of the
/// reordered keys holds the moved positions of one group of the original
/// keys, and every group of the original keys has such a group.
pub proof fn lemma_duplicate_groups_permuted(
    keys1: Seq<Option<GroupKey>>,
    keys2: Seq<Option<GroupKey>>,
    perm: Seq<int>,
    inv: Seq<int>,
)
    requires
        keys1.len() == keys2.len(),
        keys1.len() <= usize::MAX,
        is_permutation(perm, inv, keys1.len() as int),
        forall|i: int| 0 <= i < keys2.len() ==> #[trigger] keys2[i] == keys1[perm[i]],
    ensures
        forall|a2: int|
            0 <= a2 < duplicate_index_groups(keys2).len() ==> has_group_with_members(
                duplicate_index_groups(keys1),
                #[trigger] duplicate_index_groups(keys2)[a2],
                inv,
                keys1.len() as int,
            ),
        forall|a1: int|
            0 <= a1 < duplicate_index_groups(keys1).len() ==> group_with_members_in(
                #[trigger] duplicate_index_groups(keys1)[a1],
                duplicate_index_groups(keys2),
                inv,
                keys1.len() as int,
            ),
{
    let n = keys1.len() as int;
    lemma_groups_permuted_one_way(keys1, keys2, perm, inv);
    assert forall|j: int| 0 <= j < keys1.len() implies #[trigger] keys1[j] == keys2[inv[j]] by {
        assert(perm[inv[j]] == j);
    }
    lemma_groups_permuted_one_way(keys2, keys1, inv, perm);
    let gs1 = duplicate_index_groups(keys1);
    let gs2 = duplicate_index_groups(keys2);
    assert forall|a1: int| 0 <= a1 < gs1.len() implies group_with_members_in(#[trigger] gs1[a1], gs2, inv, n) by {
        assert(has_group_with_members(gs2, gs1[a1], perm, n));
        let a2 = choose|a2: int| 0 <= a2 < gs2.len() && same_members(gs2[a2], gs1[a1], perm, n);
        assert forall|j: int| 0 <= j < n implies (gs1[a1].contains(j as usize) <==> gs2[a2].contains(
            #[trigger] inv[j] as usize,
        )) by {
            let i = inv[j];
            assert(perm[i] == j);
            assert(gs2[a2].contains(i as usize) <==> gs1[a1].contains(perm[i] as usize));
        }
        assert(same_members(gs1[a1], gs2[a2], inv, n));
    }
}

/// Reordering the files (with their hashes) keeps the duplicate groups:
/// each group of the reordered files holds the same files as one group of
/// the original order, and the other way round.
pub proof fn lemma_duplicate_files_permuted(
    files1: Seq<FileInfo>,
    hashes1: Seq<Option<String>>,
    files2: Seq<FileInfo>,
    hashes2: Seq<Option<String>>,
    perm: Seq<int>,
    inv: Seq<int>,
)
    requires
        files1.len() == hashes1.len(),
        files2.len() == hashes2.len(),
        files1.len() == files2.len(),
        files1.len() <= usize::MAX,
        is_permutation(perm, inv, files1.len() as int),
        forall|i: int| 0 <= i < files2.len() ==> #[trigger] files2[i] == files1[perm[i]] && hashes2[i] == hashes1[perm[i]],
    ensures
        forall|a2: int|
            0 <= a2 < duplicate_index_groups(hash_keys(files2, hashes2)).len() ==> has_group_with_members(
                duplicate_index_groups(hash_keys(files1, hashes1)),
                #[trigger] duplicate_index_groups(hash_keys(files2, hashes2))[a2],
                inv,
                files1.len() as int,
            ),
        forall|a1: int|
            0 <= a1 < duplicate_index_groups(hash_keys(files1, hashes1)).len() ==> group_with_members_in(
                #[trigger] duplicate_index_groups(hash_keys(files1, hashes1))[a1],
                duplicate_index_groups(hash_keys(files2, hashes2)),
                inv,
                files1.len() as int,
            ),
{
    let k1 = hash_keys(files1, hashes1);
    let k2 = hash_keys(files2, hashes2);
    assert forall|i: int| 0 <= i < k2.len() implies #[trigger] k2[i] == k1[perm[i]] by {
        assert(files2[i] == files1[perm[i]]);
    }
    lemma_duplicate_groups_permuted(k1, k2, perm, inv);
}

/// An index is in the groups one after the other exactly when one of the
/// groups holds it.
pub proof fn lemma_flatten_contains(gs: Seq<Seq<usize>>, x: usize)
    ensures
        flatten_groups(gs).contains(x) <==> exists|a: int| 0 <= a < gs.len() && #[trigger] gs[a].contains(x),
    decreases gs.len(),
{
    if gs.len() > 0 {
        let prev = gs.drop_last();
        lemma_flatten_contains(prev, x);
        let f = flatten_groups(gs);
        let fp = flatten_groups(prev);
        assert(f == fp + gs.last());
        if f.contains(x) {
            let w = choose|w: int| 0 <= w < f.len() && f[w] == x;
            if w < fp.len() {
                assert(fp[w] == x);
                let a = choose|a: int| 0 <= a < prev.len() && #[trigger] prev[a].contains(x);
                assert(gs[a] == prev[a]);
            } else {
                assert(gs.last()[w - fp.len()] == x);
                assert(gs[gs.len() - 1].contains(x));
            }
        }
        if exists|a: int| 0 <= a < gs.len() && #[trigger] gs[a].contains(x) {
            let a = choose|a: int| 0 <= a < gs.len() && #[trigger] gs[a].contains(x);
            if a < gs.len() - 1 {
                assert(prev[a] == gs[a]);
                assert(fp.contains(x));
                let w = choose|w: int| 0 <= w < fp.len() && fp[w] == x;
                assert(f[w] == x);
            } else {
                let w = choose|w: int| 0 <= w < gs[a].len() && gs[a][w] == x;
                assert(f[fp.len() + w] == x);
            }
        }
    }
}

/// An index is grouped exactly when it has a key that another index shares.
pub proof fn lemma_grouped_iff_shared(keys: Seq<Option<GroupKey>>, k: int)
    requires
        keys.len() <= usize::MAX,
        0 <= k < keys.len(),
    ensures
        flatten_groups(duplicate_index_groups(keys)).contains(k as usize) <==> (keys[k] is Some
            && exists|j: int| 0 <= j < keys.len() && j != k && #[trigger] keys[j] == keys[k]),
{
    let gs = duplicate_index_groups(keys);
    lemma_flatten_contains(gs, k as usize);
    lemma_duplicate_groups_partition(keys);
    if flatten_groups(gs).contains(k as usize) {
        let a = choose|a: int| 0 <= a < gs.len() && #[trigger] gs[a].contains(k as usize);
        lemma_group_is_key_class(keys, a);
        let g = gs[a];
        assert(g[0] < g[1]);
        assert(keys[g[0] as int] == keys[g[0] as int]);
        assert(keys[g[1] as int] == keys[g[0] as int]);
        assert(keys[k] == keys[g[0] as int]);
        if g[0] as int == k {
            assert(keys[g[1] as int] == keys[k]);
        } else {
            assert(keys[g[0] as int] == keys[k]);
        }
    }
    if keys[k] is Some && exists|j: int| 0 <= j < keys.len() && j != k && #[trigger] keys[j] == keys[k] {
        let j = choose|j: int| 0 <= j < keys.len() && j != k && #[trigger] keys[j] == keys[k];
        let lo = if j < k { j } else { k };
        let hi = if j < k { k } else { j };
        assert(keys[lo] == keys[hi]);
        let a = choose|a: int|
            0 <= a < gs.len() && gs[a].contains(lo as usize) && gs[a].contains(hi as usize);
        assert(gs[a].contains(k as usize));
    }
}

/// Files with the same content end in one duplicate group, when each
/// candidate of the size step got the partial hash of its content and each
/// candidate of the partial-hash step got the hash of its whole content
/// (a file's size being its content's length).
pub proof fn lemma_equal_contents_grouped(
    files: Seq<FileInfo>,
    contents: Seq<Seq<u8>>,
    partial: Seq<Option<String>>,
    full: Seq<Option<String>>,
    i: int,
    j: int,
)
    requires
        files.len() <= usize::MAX,
        contents.len() == files.len(),
        partial.len() == files.len(),
        full.len() == files.len(),
        forall|k: int| 0 <= k < files.len() ==> (#[trigger] files[k]).size == contents[k].len(),
        forall|k: int|
            0 <= k < files.len() && flatten_groups(duplicate_index_groups(size_keys(files))).contains(
                k as usize,
            ) ==> #[trigger] partial[k] is Some && partial[k]->0@ == partial_hash_text(contents[k]),
        forall|k: int|
            0 <= k < files.len() && flatten_groups(
                duplicate_index_groups(hash_keys(files, partial)),
            ).contains(k as usize) ==> #[trigger] full[k] is Some && full[k]->0@ == hash_text(
                contents[k],
            ),
        0 <= i < j < files.len(),
        files[i].size > 0,
        contents[i] == contents[j],
    ensures
        exists|a: int|
            0 <= a < duplicate_index_groups(hash_keys(files, full)).len() && duplicate_index_groups(
                hash_keys(files, full),
            )[a].contains(i as usize) && duplicate_index_groups(hash_keys(files, full))[a].contains(
                j as usize,
            ),
{
    let sk = size_keys(files);
    assert(files[i].size == contents[i].len() && files[j].size == contents[j].len());
    assert(sk[i] == sk[j]);
    lemma_grouped_iff_shared(sk, i);
    lemma_grouped_iff_shared(sk, j);
    assert(sk[i] == sk[i]);
    assert(partial[i] is Some && partial[j] is Some);
    let pk = hash_keys(files, partial);
    assert(pk[i] == pk[j]);
    lemma_grouped_iff_shared(pk, i);
    lemma_grouped_iff_shared(pk, j);
    assert(full[i] is Some && full[j] is Some);
    lemma_duplicate_files_alike(files, full);
    assert(full[i]->0@ == full[j]->0@);
}

/// The hashes a duplicate search takes when every file reads without error:
/// the candidates of the size step, and only they, get the partial hash of
/// their content; the candidates of the partial-hash step, and only they,
/// get the hash of their whole content.
pub open spec fn hashed_as_searched(
    files: Seq<FileInfo>,
    contents: Seq<Seq<u8>>,
    partial: Seq<Option<String>>,
    full: Seq<Option<String>>,
) -> bool {
    &&& contents.len() == files.len()
    &&& partial.len() == files.len()
    &&& full.len() == files.len()
    &&& forall|k: int|
        0 <= k < files.len() ==> (#[trigger] partial[k] is Some <==> flatten_groups(
            duplicate_index_groups(size_keys(files)),
        ).contains(k as usize))
    &&& forall|k: int|
        0 <= k < files.len() && #[trigger] partial[k] is Some ==> partial[k]->0@ == partial_hash_text(
            contents[k],
        )
    &&& forall|k: int|
        0 <= k < files.len() ==> (#[trigger] full[k] is Some <==> flatten_groups(
            duplicate_index_groups(hash_keys(files, partial)),
        ).contains(k as usize))
    &&& forall|k: int|
        0 <= k < files.len() && #[trigger] full[k] is Some ==> full[k]->0@ == hash_text(contents[k])
}

/// Reordering keyed positions keeps which positions are grouped.
proof fn lemma_grouped_permuted(
    keys1: Seq<Option<GroupKey>>,
    keys2: Seq<Option<GroupKey>>,
    perm: Seq<int>,
    inv: Seq<int>,
)
    requires
        keys1.len() == keys2.len(),
        keys1.len() <= usize::MAX,
        is_permutation(perm, inv, keys1.len() as int),
        forall|i: int| 0 <= i < keys2.len() ==> #[trigger] keys2[i] == keys1[perm[i]],
    ensures
        forall|i: int|
            0 <= i < keys2.len() ==> (flatten_groups(duplicate_index_groups(keys2)).contains(
                i as usize,
            ) <==> flatten_groups(duplicate_index_groups(keys1)).contains(#[trigger] perm[i] as usize)),
{
    let n = keys1.len() as int;
    assert forall|i: int| 0 <= i < n implies (flatten_groups(duplicate_index_groups(keys2)).contains(
        i as usize,
    ) <==> flatten_groups(duplicate_index_groups(keys1)).contains(#[trigger] perm[i] as usize)) by {
        let p = perm[i];
        lemma_grouped_iff_shared(keys2, i);
        lemma_grouped_iff_shared(keys1, p);
        assert(keys2[i] == keys1[p]);
        if exists|j: int| 0 <= j < n && j != i && #[trigger] keys2[j] == keys2[i] {
            let j = choose|j: int| 0 <= j < n && j != i && #[trigger] keys2[j] == keys2[i];
            assert(keys2[j] == keys1[perm[j]]);
            assert(perm[j] != p) by {
                if perm[j] == p {
                    assert(inv[perm[j]] == j && inv[perm[i]] == i);
                }
            }
            assert(keys1[perm[j]] == keys1[p]);
        }
        if exists|j: int| 0 <= j < n && j != p && #[trigger] keys1[j] == keys1[p] {
            let j = choose|j: int| 0 <= j < n && j != p && #[trigger] keys1[j] == keys1[p];
            let q = inv[j];
            assert(perm[q] == j);
            assert(keys2[q] == keys1[j]);
            assert(q != i);
            assert(keys2[q] == keys2[i]);
        }
    }
}

/// The whole duplicate search does not depend on the order of the files:
/// when the files (with their contents) are reordered and every file reads
/// without error, each duplicate group of the reordered files holds the same
/// files as one group of the original order, and the other way round.
pub proof fn lemma_duplicate_search_permuted(
    files1: Seq<FileInfo>,
    contents1: Seq<Seq<u8>>,
    partial1: Seq<Option<String>>,
    full1: Seq<Option<String>>,
    files2: Seq<FileInfo>,
    contents2: Seq<Seq<u8>>,
    partial2: Seq<Option<String>>,
    full2: Seq<Option<String>>,
    perm: Seq<int>,
    inv: Seq<int>,
)
    requires
        files1.len() == files2.len(),
        files1.len() <= usize::MAX,
        is_permutation(perm, inv, files1.len() as int),
        hashed_as_searched(files1, contents1, partial1, full1),
        hashed_as_searched(files2, contents2, partial2, full2),
        forall|i: int|
            0 <= i < files2.len() ==> #[trigger] files2[i] == files1[perm[i]] && contents2[i]
                == contents1[perm[i]],
    ensures
        forall|a2: int|
            0 <= a2 < duplicate_index_groups(hash_keys(files2, full2)).len() ==> has_group_with_members(
                duplicate_index_groups(hash_keys(files1, full1)),
                #[trigger] duplicate_index_groups(hash_keys(files2, full2))[a2],
                inv,
                files1.len() as int,
            ),
        forall|a1: int|
            0 <= a1 < duplicate_index_groups(hash_keys(files1, full1)).len() ==> group_with_members_in(
                #[trigger] duplicate_index_groups(hash_keys(files1, full1))[a1],
                duplicate_index_groups(hash_keys(files2, full2)),
                inv,
                files1.len() as int,
            ),
{
    let n = files1.len() as int;
    let sk1 = size_keys(files1);
    let sk2 = size_keys(files2);
    assert forall|i: int| 0 <= i < n implies #[trigger] sk2[i] == sk1[perm[i]] by {
        assert(files2[i] == files1[perm[i]]);
    }
    lemma_grouped_permuted(sk1, sk2, perm, inv);
    let pk1 = hash_keys(files1, partial1);
    let pk2 = hash_keys(files2, partial2);
    assert forall|i: int| 0 <= i < n implies #[trigger] pk2[i] == pk1[perm[i]] by {
        let p = perm[i];
        assert(files2[i] == files1[p]);
        assert(partial2[i] is Some <==> flatten_groups(duplicate_index_groups(sk2)).contains(i as usize));
        assert(partial1[p] is Some <==> flatten_groups(duplicate_index_groups(sk1)).contains(p as usize));
        if partial2[i] is Some {
            assert(partial2[i]->0@ == partial_hash_text(contents2[i]));
            assert(partial1[p]->0@ == partial_hash_text(contents1[p]));
        }
    }
    lemma_grouped_permuted(pk1, pk2, perm, inv);
    let fk1 = hash_keys(files1, full1);
    let fk2 = hash_keys(files2, full2);
    assert forall|i: int| 0 <= i < n implies #[trigger] fk2[i] == fk1[perm[i]] by {
        let p = perm[i];
        assert(files2[i] == files1[p]);
        assert(full2[i] is Some <==> flatten_groups(duplicate_index_groups(pk2)).contains(i as usize));
        assert(full1[p] is Some <==> flatten_groups(duplicate_index_groups(pk1)).contains(p as usize));
        if full2[i] is Some {
            assert(full2[i]->0@ == hash_text(contents2[i]));
            assert(full1[p]->0@ == hash_text(contents1[p]));
        }
    }
    lemma_duplicate_groups_permuted(fk1, fk2, perm, inv);
}

/// A path is protected exactly when, ignoring case, it contains one of these
/// twelve fragments, each of them counting: the recycle bin, system volume
/// information, documents and settings, performance logs, the configuration
/// and driver directories of System32 and SysWOW64, recovery, the installer
/// cache, and the error-report and cache directories of ProgramData.
pub proof fn lemma_protected_fragments(path: Seq<char>)
    ensures
        is_infix(lowercase("$Recycle.Bin"@), lowercase(path)) ==> is_protected(path),
        is_infix(lowercase("System Volume Information"@), lowercase(path)) ==> is_protected(path),
        is_infix(lowercase("Documents and Settings"@), lowercase(path)) ==> is_protected(path),
        is_infix(lowercase("PerfLogs"@), lowercase(path)) ==> is_protected(path),
        is_infix(lowercase("Windows\\System32\\config"@), lowercase(path)) ==> is_protected(path),
        is_infix(lowercase("Windows\\System32\\drivers"@), lowercase(path)) ==> is_protected(path),
        is_infix(lowercase("Windows\\SysWOW64\\config"@), lowercase(path)) ==> is_protected(path),
        is_infix(lowercase("Windows\\SysWOW64\\drivers"@), lowercase(path)) ==> is_protected(path),
        is_infix(lowercase("Recovery"@), lowercase(path)) ==> is_protected(path),
        is_infix(lowercase("Config.Msi"@), lowercase(path)) ==> is_protected(path),
        is_infix(lowercase("ProgramData\\Microsoft\\Windows\\WER"@), lowercase(path)) ==> is_protected(path),
        is_infix(lowercase("ProgramData\\Microsoft\\Windows\\Caches"@), lowercase(path)) ==> is_protected(path),
        is_protected(path) ==> {
            ||| is_infix(lowercase("$Recycle.Bin"@), lowercase(path))
            ||| is_infix(lowercase("System Volume Information"@), lowercase(path))
            ||| is_infix(lowercase("Documents and Settings"@), lowercase(path))
            ||| is_infix(lowercase("PerfLogs"@), lowercase(path))
            ||| is_infix(lowercase("Windows\\System32\\config"@), lowercase(path))
            ||| is_infix(lowercase("Windows\\System32\\drivers"@), lowercase(path))
            ||| is_infix(lowercase("Windows\\SysWOW64\\config"@), lowercase(path))
            ||| is_infix(lowercase("Windows\\SysWOW64\\drivers"@), lowercase(path))
            ||| is_infix(lowercase("Recovery"@), lowercase(path))
            ||| is_infix(lowercase("Config.Msi"@), lowercase(path))
            ||| is_infix(lowercase("ProgramData\\Microsoft\\Windows\\WER"@), lowercase(path))
            ||| is_infix(lowercase("ProgramData\\Microsoft\\Windows\\Caches"@), lowercase(path))
        },
{
    assert(protected_patterns().len() == 12);
    assert(protected_patterns()[0] == "$Recycle.Bin"@);
    assert(protected_patterns()[1] == "System Volume Information"@);
    assert(protected_patterns()[2] == "Documents and Settings"@);
    assert(protected_patterns()[3] == "PerfLogs"@);
    assert(protected_patterns()[4] == "Windows\\System32\\config"@);
    assert(protected_patterns()[5] == "Windows\\System32\\drivers"@);
    assert(protected_patterns()[6] == "Windows\\SysWOW64\\config"@);
    assert(protected_patterns()[7] == "Windows\\SysWOW64\\drivers"@);
    assert(protected_patterns()[8] == "Recovery"@);
    assert(protected_patterns()[9] == "Config.Msi"@);
    assert(protected_patterns()[10] == "ProgramData\\Microsoft\\Windows\\WER"@);
    assert(protected_patterns()[11] == "ProgramData\\Microsoft\\Windows\\Caches"@);
    if is_protected(path) {
        let i = choose|i: int|
            0 <= i < 12 && is_infix(lowercase(#[trigger] protected_patterns()[i]), lowercase(path));
        assert(0 <= i < 12);
    }
}

/// The clean-up plan takes the groups one after the other: none gives no
/// file, and a further non-empty group adds all its files but the first
/// (when the first is kept) or all but the last (otherwise), in order.
pub proof fn lemma_deletion_plan_per_group(groups: Seq<Seq<FileInfo>>, g: Seq<FileInfo>)
    requires
        g.len() > 0,
    ensures
        deletion_plan(Seq::<Seq<FileInfo>>::empty(), true).len() == 0,
        deletion_plan(Seq::<Seq<FileInfo>>::empty(), false).len() == 0,
        deletion_plan(groups.push(g), true) == deletion_plan(groups, true) + g.subrange(
            1,
            g.len() as int,
        ),
        deletion_plan(groups.push(g), false) == deletion_plan(groups, false) + g.subrange(
            0,
            g.len() - 1,
        ),
{
    assert(groups.push(g).drop_last() =~= groups);
    assert(g.drop_first() =~= g.subrange(1, g.len() as int));
    assert(g.drop_last() =~= g.subrange(0, g.len() - 1));
}

/// The removed files are the targets marked removed, in order: all of them
/// when all are marked, none when none is, and a further target adds itself
/// exactly when it is marked.
pub proof fn lemma_removed_files_marked(files: Seq<FileInfo>, removed: Seq<bool>, f: FileInfo)
    requires
        removed.len() > files.len(),
    ensures
        removed[files.len() as int] ==> removed_files(files.push(f), removed) == removed_files(
            files,
            removed,
        ).push(f),
        !removed[files.len() as int] ==> removed_files(files.push(f), removed) == removed_files(
            files,
            removed,
        ),
        (forall|i: int| 0 <= i < files.len() ==> #[trigger] removed[i]) ==> removed_files(
            files,
            removed,
        ) == files,
        (forall|i: int| 0 <= i < files.len() ==> !#[trigger] removed[i]) ==> removed_files(
            files,
            removed,
        ).len() == 0,
    decreases files.len(),
{
    assert(files.push(f).drop_last() =~= files);
    if files.len() > 0 {
        lemma_removed_files_marked(files.drop_last(), removed, files.last());
        assert(files.drop_last().push(files.last()) =~= files);
    }
}

/// No position after `q` names the position `indices[q]` again.
pub open spec fn named_last_at(indices: Seq<usize>, q: int) -> bool {
    forall|p: int| q < p < indices.len() ==> #[trigger] indices[p] != indices[q]
}

/// No position of `indices` names `j`.
pub open spec fn never_named(indices: Seq<usize>, j: int) -> bool {
    forall|q: int| 0 <= q < indices.len() ==> #[trigger] indices[q] != j
}

/// Where the hashes go: each one to the position of its file, the later
/// one where a position is named twice, and no hash to a position that is
/// not named.
pub proof fn lemma_scattered_positions(n: nat, indices: Seq<usize>, hashes: Seq<Option<String>>)
    requires
        hashes.len() == indices.len(),
        forall|q: int| 0 <= q < indices.len() ==> #[trigger] indices[q] < n,
    ensures
        scattered(n, indices, hashes).len() == n,
        forall|q: int|
            0 <= q < indices.len() && #[trigger] named_last_at(indices, q) ==> scattered(
                n,
                indices,
                hashes,
            )[indices[q] as int] == hashes[q],
        forall|j: int|
            0 <= j < n && #[trigger] never_named(indices, j) ==> scattered(n, indices, hashes)[j] is None,
    decreases indices.len(),
{
    if indices.len() > 0 {
        let i0 = indices.drop_last();
        let h0 = hashes.drop_last();
        lemma_scattered_positions(n, i0, h0);
        let last = indices.len() - 1;
        let cur = scattered(n, indices, hashes);
        let prev = scattered(n, i0, h0);
        assert(cur == prev.update(indices[last] as int, hashes[last]));
        assert forall|q: int| 0 <= q < indices.len() && #[trigger] named_last_at(indices, q) implies cur[indices[q] as int]
            == hashes[q] by {
            if q < last {
                assert(indices[last] != indices[q]);
                assert(i0[q] == indices[q]);
                assert forall|p: int| q < p < i0.len() implies #[trigger] i0[p] != i0[q] by {
                    assert(i0[p] == indices[p]);
                }
                assert(named_last_at(i0, q));
                assert(h0[q] == hashes[q]);
            }
        }
        assert forall|j: int| 0 <= j < n && #[trigger] never_named(indices, j) implies cur[j] is None by {
            assert(indices[last] != j);
            assert forall|q: int| 0 <= q < i0.len() implies #[trigger] i0[q] != j by {
                assert(i0[q] == indices[q]);
            }
            assert(never_named(i0, j));
        }
    }
}

/// A listing keeps, in order, exactly the regular files whose metadata
/// could be read and whose path is not protected, each as its path, size and
/// modification text.
pub proof fn lemma_listing_keeps_readable_files(entries: Seq<DirEntryInfo>)
    ensures
        listed_files(entries) == entries.filter(
            |e: DirEntryInfo| e.kind is File && e.metadata is Some && !is_protected(e.path@),
        ).map_values(
            |e: DirEntryInfo|
                (e.path@, e.metadata->0.size, modified_text(e.metadata->0.modified_secs)),
        ),
    decreases entries.len(),
{
    reveal_with_fuel(Seq::filter, 1);
    if entries.len() > 0 {
        lemma_listing_keeps_readable_files(entries.drop_last());
        let pred = |e: DirEntryInfo| e.kind is File && e.metadata is Some && !is_protected(e.path@);
        let f = |e: DirEntryInfo| (e.path@, e.metadata->0.size, modified_text(e.metadata->0.modified_secs));
        let prev = entries.drop_last().filter(pred);
        if pred(entries.last()) {
            assert(prev.push(entries.last()).map_values(f) =~= prev.map_values(f).push(f(entries.last())));
        }
    }
}

/// A listing names, in increasing order, exactly the positions of the
/// directories whose path is not protected.
pub proof fn lemma_listing_names_open_directories(entries: Seq<DirEntryInfo>)
    requires
        entries.len() <= usize::MAX,
    ensures
        forall|j: int|
            0 <= j < entries.len() ==> (listed_directories(entries).contains(j as usize) <==> (
            #[trigger] entries[j]).kind is Directory && !is_protected(entries[j].path@)),
        forall|q: int|
            0 <= q < listed_directories(entries).len() ==> (#[trigger] listed_directories(entries)[q])
                < entries.len(),
        forall|q: int, r: int|
            0 <= q < r < listed_directories(entries).len() ==> #[trigger] listed_directories(entries)[q]
                < #[trigger] listed_directories(entries)[r],
    decreases entries.len(),
{
    if entries.len() > 0 {
        let e0 = entries.drop_last();
        lemma_listing_names_open_directories(e0);
        let prev = listed_directories(e0);
        let cur = listed_directories(entries);
        let last = entries.len() - 1;
        assert forall|j: int| 0 <= j < entries.len() implies (cur.contains(j as usize) <==> (
        #[trigger] entries[j]).kind is Directory && !is_protected(entries[j].path@)) by {
            if j < last {
                assert(e0[j] == entries[j]);
                if cur.contains(j as usize) {
                    let w = choose|w: int| 0 <= w < cur.len() && cur[w] == j as usize;
                    if w < prev.len() {
                        assert(prev[w] == cur[w]);
                    }
                }
                if prev.contains(j as usize) {
                    let w = choose|w: int| 0 <= w < prev.len() && prev[w] == j as usize;
                    assert(cur[w] == prev[w]);
                }
            } else {
                if entry_is_subdirectory(entries.last()) {
                    assert(cur[prev.len() as int] == j as usize);
                } else {
                    if cur.contains(j as usize) {
                        let w = choose|w: int| 0 <= w < cur.len() && cur[w] == j as usize;
                        assert(prev[w] < e0.len());
                    }
                }
            }
        }
        assert forall|q: int| 0 <= q < cur.len() implies (#[trigger] cur[q]) < entries.len() by {
            if q < prev.len() {
                assert(cur[q] == prev[q]);
            }
        }
        assert forall|q: int, r: int| 0 <= q < r < cur.len() implies #[trigger] cur[q] < #[trigger] cur[r] by {
            assert(cur[q] == prev[q]);
            if r < prev.len() {
                assert(cur[r] == prev[r]);
            }
        }
    }
}

} // verus!
