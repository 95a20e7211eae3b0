use vstd::prelude::*;
use vstd::string::StringExecFns;

use crate::file_scanner::{sum_sizes, FileInfo};
use crate::text::{
    chars_of, find_char, find_in, is_infix, is_prefix, lemma_lex_irreflexive, lemma_lex_transitive,
    lemma_find_char, lemma_split_char_parts, lemma_trimmed_cuts_whitespace, trim_start, white_space,
    lex_compare, lex_lt, lowercase, split_char, str_contains, str_starts_with, string_from_chars,
    to_lowercase, trim_range, trimmed, Order,
};

verus! {

/// One installed program, as the system's uninstall registry lists it.
#[derive(Debug, Clone)]
pub struct SoftwareInfo {
    pub name: String,
    pub version: Option<String>,
    pub publisher: Option<String>,
    pub install_location: Option<String>,
}

/// The characters of an optional string.
pub open spec fn opt_chars(o: Option<String>) -> Option<Seq<char>> {
    match o {
        Some(s) => Some(s@),
        None => None,
    }
}

/// What a `SoftwareInfo` holds, as character sequences.
pub struct SoftwareView {
    pub name: Seq<char>,
    pub version: Option<Seq<char>>,
    pub publisher: Option<Seq<char>>,
    pub install_location: Option<Seq<char>>,
}

impl View for SoftwareInfo {
    type V = SoftwareView;

    open spec fn view(&self) -> SoftwareView {
        SoftwareView {
            name: self.name@,
            version: opt_chars(self.version),
            publisher: opt_chars(self.publisher),
            install_location: opt_chars(self.install_location),
        }
    }
}

/// The views of a list of programs.
pub open spec fn software_views(list: Seq<SoftwareInfo>) -> Seq<SoftwareView> {
    list.map_values(|s: SoftwareInfo| s@)
}

/// A line without the `'\r'` that ends it, if any.
pub open spec fn strip_cr(l: Seq<char>) -> Seq<char> {
    if l.len() > 0 && l.last() == '\r' {
        l.drop_last()
    } else {
        l
    }
}

/// The lines of a text, as `str::lines` gives them: cut at `'\n'`, a `'\r'`
/// before the `'\n'` removed, no line after a final `'\n'`.
pub open spec fn text_lines(t: Seq<char>) -> Seq<Seq<char>>
    decreases t.len(),
{
    if t.len() == 0 {
        Seq::empty()
    } else {
        let e = find_char(t, '\n');
        if e < t.len() {
            seq![strip_cr(t.take(e as int))] + text_lines(t.skip(e + 1 as int))
        } else {
            seq![t]
        }
    }
}

/// Field `k` of a list of fields when it is there and not empty.
pub open spec fn nonempty_field(parts: Seq<Seq<char>>, k: int) -> Option<Seq<char>> {
    if parts.len() > k && parts[k].len() > 0 {
        Some(parts[k])
    } else {
        None
    }
}

/// The program that one line of `name|version|publisher|location` describes:
/// none for a blank line or an empty name; empty fields are absent, and the
/// location is trimmed.
pub open spec fn parse_line(raw: Seq<char>) -> Option<SoftwareView> {
    let line = trimmed(raw);
    if line.len() == 0 {
        None
    } else {
        let parts = split_char(line, '|');
        let name = parts[0];
        if name.len() == 0 || name == seq![' '] {
            None
        } else {
            Some(
                SoftwareView {
                    name: name,
                    version: nonempty_field(parts, 1),
                    publisher: nonempty_field(parts, 2),
                    install_location: match nonempty_field(parts, 3) {
                        Some(l) => if trimmed(l).len() > 0 {
                            Some(trimmed(l))
                        } else {
                            None
                        },
                        None => None,
                    },
                },
            )
        }
    }
}

/// The programs that the lines describe, in line order.
pub open spec fn parsed_entries(lines: Seq<Seq<char>>) -> Seq<SoftwareView>
    decreases lines.len(),
{
    if lines.len() == 0 {
        Seq::empty()
    } else {
        let prev = parsed_entries(lines.drop_last());
        match parse_line(lines.last()) {
            Some(e) => prev.push(e),
            None => prev,
        }
    }
}

/// The key programs are sorted and told apart by: the lowercase name.
pub open spec fn key_of(e: SoftwareView) -> Seq<char> {
    lowercase(e.name)
}

/// No entry before `k` has the key of entry `k`.
pub open spec fn first_of_key(es: Seq<SoftwareView>, k: int) -> bool {
    forall|m: int| 0 <= m < k ==> key_of(#[trigger] es[m]) != key_of(es[k])
}

/// Some entry of `es` is `x` and is the first with its key.
#[verifier::opaque]
pub open spec fn listed_first(es: Seq<SoftwareView>, x: SoftwareView) -> bool {
    exists|k: int| 0 <= k < es.len() && es[k] == x && first_of_key(es, k)
}

/// Some entry of `list` has the key `key`.
#[verifier::opaque]
pub open spec fn key_listed(list: Seq<SoftwareView>, key: Seq<char>) -> bool {
    exists|i: int| 0 <= i < list.len() && key_of(list[i]) == key
}

/// `list` holds, in strictly increasing key order, exactly one entry per key
/// that occurs in `es`: the first entry of `es` with that key.
pub open spec fn distinct_by_key(list: Seq<SoftwareView>, es: Seq<SoftwareView>) -> bool {
    &&& forall|i: int, j: int|
        0 <= i < j < list.len() ==> lex_lt(key_of(#[trigger] list[i]), key_of(#[trigger] list[j]))
    &&& forall|i: int| 0 <= i < list.len() ==> listed_first(es, #[trigger] list[i])
    &&& forall|k: int| 0 <= k < es.len() ==> key_listed(list, key_of(#[trigger] es[k]))
}

proof fn lemma_split_step(v: Seq<char>, s: int, t: int, e: int)
    requires
        0 <= s <= e <= t <= v.len(),
        e == s + find_char(v.subrange(s, t), '|'),
    ensures
        split_char(v.subrange(s, t), '|') == if e < t {
            seq![v.subrange(s, e)] + split_char(v.subrange(e + 1, t), '|')
        } else {
            seq![v.subrange(s, t)]
        },
{
    let l = v.subrange(s, t);
    if e < t {
        assert(l.take(e - s) =~= v.subrange(s, e));
        assert(l.skip(e - s + 1) =~= v.subrange(e + 1, t));
    }
}

/// The bounds of field `k` of `v[s..t]` cut at `'|'`, when there is one.
fn field_at(v: &Vec<char>, s: usize, t: usize, k: usize) -> (r: Option<(usize, usize)>)
    requires
        s <= t <= v@.len(),
    ensures
        match r {
            Some((a, b)) => {
                &&& k < split_char(v@.subrange(s as int, t as int), '|').len()
                &&& s <= a <= b <= t
                &&& v@.subrange(a as int, b as int) == split_char(
                    v@.subrange(s as int, t as int),
                    '|',
                )[k as int]
            },
            None => k >= split_char(v@.subrange(s as int, t as int), '|').len(),
        },
    decreases k,
{
    let e = find_in(v, '|', s, t);
    proof {
        lemma_split_step(v@, s as int, t as int, e as int);
    }
    if k == 0 {
        Some((s, e))
    } else if e < t {
        field_at(v, e + 1, t, k - 1)
    } else {
        None
    }
}

/// The characters `v[a..b]`.
pub(crate) fn chars_between(v: &Vec<char>, a: usize, b: usize) -> (r: Vec<char>)
    requires
        a <= b <= v@.len(),
    ensures
        r@ == v@.subrange(a as int, b as int),
{
    let mut out: Vec<char> = Vec::new();
    let mut i = a;
    while i < b
        invariant
            a <= i <= b,
            b <= v@.len(),
            out@ == v@.subrange(a as int, i as int),
        decreases b - i,
    {
        out.push(v[i]);
        i = i + 1;
        assert(out@ =~= v@.subrange(a as int, i as int));
    }
    out
}

/// Field `k` as a string when it is there and not empty.
fn nonempty_field_at(v: &Vec<char>, s: usize, t: usize, k: usize) -> (r: Option<String>)
    requires
        s <= t <= v@.len(),
    ensures
        opt_chars(r) == nonempty_field(split_char(v@.subrange(s as int, t as int), '|'), k as int),
{
    match field_at(v, s, t, k) {
        Some((a, b)) => {
            if a < b {
                Some(string_from_chars(&chars_between(v, a, b)))
            } else {
                None
            }
        },
        None => None,
    }
}

/// The program that the line `v[lo..hi]` describes.
fn parse_line_range(v: &Vec<char>, lo: usize, hi: usize) -> (r: Option<SoftwareInfo>)
    requires
        lo <= hi <= v@.len(),
    ensures
        match r {
            Some(info) => parse_line(v@.subrange(lo as int, hi as int)) == Some(info@),
            None => parse_line(v@.subrange(lo as int, hi as int)) is None,
        },
{
    let (s, t) = trim_range(v, lo, hi);
    if s == t {
        return None;
    }
    let ghost line = v@.subrange(s as int, t as int);
    let ghost parts = split_char(line, '|');
    let (a0, b0) = match field_at(v, s, t, 0) {
        Some(bounds) => bounds,
        None => {
            return None;
        },
    };
    let name_chars = chars_between(v, a0, b0);
    if name_chars.len() == 0 || (name_chars.len() == 1 && name_chars[0] == ' ') {
        proof {
            if name_chars@.len() == 1 {
                assert(name_chars@ =~= seq![' ']);
            }
        }
        return None;
    }
    proof {
        if parts[0] == seq![' '] {
            assert(name_chars@[0] == ' ');
        }
    }
    let name = string_from_chars(&name_chars);
    let version = nonempty_field_at(v, s, t, 1);
    let publisher = nonempty_field_at(v, s, t, 2);
    let install_location = match field_at(v, s, t, 3) {
        Some((a3, b3)) => {
            if a3 < b3 {
                let (c, d) = trim_range(v, a3, b3);
                if c < d {
                    Some(string_from_chars(&chars_between(v, c, d)))
                } else {
                    None
                }
            } else {
                None
            }
        },
        None => None,
    };
    let info = SoftwareInfo { name, version, publisher, install_location };
    assert(info@ == parse_line(v@.subrange(lo as int, hi as int)).unwrap());
    Some(info)
}


proof fn lemma_first_of_key_push(es: Seq<SoftwareView>, x: SoftwareView, k: int)
    requires
        0 <= k < es.len(),
    ensures
        first_of_key(es.push(x), k) == first_of_key(es, k),
{
    assert forall|m: int| 0 <= m < k implies es.push(x)[m] == es[m] by {}
    assert(es.push(x)[k] == es[k]);
}

/// Keeping the list as it is when the new entry's key is already listed.
proof fn lemma_keep_distinct(l0: Seq<SoftwareView>, es: Seq<SoftwareView>, xv: SoftwareView, i: int)
    requires
        distinct_by_key(l0, es),
        0 <= i < l0.len(),
        key_of(l0[i]) == key_of(xv),
    ensures
        distinct_by_key(l0, es.push(xv)),
{
    let es2 = es.push(xv);
    assert forall|a: int| 0 <= a < l0.len() implies listed_first(es2, #[trigger] l0[a]) by {
        assert(listed_first(es, l0[a]));
        reveal(listed_first);
        let k = choose|k: int| 0 <= k < es.len() && es[k] == l0[a] && first_of_key(es, k);
        lemma_first_of_key_push(es, xv, k);
        assert(es2[k] == l0[a]);
    }
    assert forall|k: int| 0 <= k < es2.len() implies key_listed(l0, key_of(#[trigger] es2[k])) by {
        if k < es.len() {
            assert(es2[k] == es[k]);
            assert(key_listed(l0, key_of(es[k])));
        } else {
            assert(es2[k] == xv);
            reveal(key_listed);
            assert(key_of(l0[i]) == key_of(es2[k]));
        }
    }
}

proof fn lemma_key_listed_witness(list: Seq<SoftwareView>, key: Seq<char>) -> (j: int)
    requires
        key_listed(list, key),
    ensures
        0 <= j < list.len(),
        key_of(list[j]) == key,
{
    reveal(key_listed);
    choose|j: int| 0 <= j < list.len() && key_of(list[j]) == key
}

proof fn lemma_key_listed_at(list: Seq<SoftwareView>, j: int)
    requires
        0 <= j < list.len(),
    ensures
        key_listed(list, key_of(list[j])),
{
    reveal(key_listed);
}

proof fn lemma_listed_first_witness(es: Seq<SoftwareView>, x: SoftwareView) -> (k: int)
    requires
        listed_first(es, x),
    ensures
        0 <= k < es.len(),
        es[k] == x,
        first_of_key(es, k),
{
    reveal(listed_first);
    choose|k: int| 0 <= k < es.len() && es[k] == x && first_of_key(es, k)
}

proof fn lemma_listed_first_at(es: Seq<SoftwareView>, k: int)
    requires
        0 <= k < es.len(),
        first_of_key(es, k),
    ensures
        listed_first(es, es[k]),
{
    reveal(listed_first);
}

/// Inserting the new entry at `i`, after every key below its own and before
/// every key above it.
proof fn lemma_insert_distinct(l0: Seq<SoftwareView>, es: Seq<SoftwareView>, xv: SoftwareView, i: int)
    requires
        distinct_by_key(l0, es),
        0 <= i <= l0.len(),
        forall|m: int| 0 <= m < i ==> lex_lt(key_of(#[trigger] l0[m]), key_of(xv)),
        i < l0.len() ==> lex_lt(key_of(xv), key_of(l0[i])),
    ensures
        distinct_by_key(l0.insert(i, xv), es.push(xv)),
{
    let kx = key_of(xv);
    let es2 = es.push(xv);
    let l1 = l0.insert(i, xv);
    assert forall|j: int| 0 <= j < l0.len() implies key_of(#[trigger] l0[j]) != kx by {
        if j < i {
            if key_of(l0[j]) == kx {
                lemma_lex_irreflexive(kx);
            }
        } else {
            if j > i {
                lemma_lex_transitive(kx, key_of(l0[i]), key_of(l0[j]));
            }
            if key_of(l0[j]) == kx {
                lemma_lex_irreflexive(kx);
            }
        }
    }
    assert forall|m: int| 0 <= m < es.len() implies key_of(#[trigger] es[m]) != kx by {
        let j = lemma_key_listed_witness(l0, key_of(es[m]));
        assert(key_of(l0[j]) != kx);
    }
    assert(first_of_key(es2, es.len() as int)) by {
        assert forall|m: int| 0 <= m < es.len() implies key_of(#[trigger] es2[m]) != key_of(
            es2[es.len() as int],
        ) by {
            assert(es2[m] == es[m]);
        }
    }
    assert forall|a: int, b: int| 0 <= a < b < l1.len() implies lex_lt(
        key_of(#[trigger] l1[a]),
        key_of(#[trigger] l1[b]),
    ) by {
        if b < i {
            assert(l1[a] == l0[a] && l1[b] == l0[b]);
        } else if b == i {
            assert(l1[a] == l0[a]);
        } else if a < i {
            assert(l1[a] == l0[a] && l1[b] == l0[b - 1]);
        } else if a == i {
            assert(l1[b] == l0[b - 1]);
            if b - 1 > i {
                lemma_lex_transitive(kx, key_of(l0[i]), key_of(l0[b - 1]));
            }
        } else {
            assert(l1[a] == l0[a - 1] && l1[b] == l0[b - 1]);
        }
    }
    assert forall|a: int| 0 <= a < l1.len() implies listed_first(es2, #[trigger] l1[a]) by {
        if a == i {
            lemma_listed_first_at(es2, es.len() as int);
        } else {
            let a0 = if a < i {
                a
            } else {
                a - 1
            };
            assert(l1[a] == l0[a0]);
            let k = lemma_listed_first_witness(es, l0[a0]);
            lemma_first_of_key_push(es, xv, k);
            assert(es2[k] == l1[a]);
            lemma_listed_first_at(es2, k);
        }
    }
    assert forall|k: int| 0 <= k < es2.len() implies key_listed(l1, key_of(#[trigger] es2[k])) by {
        if k < es.len() {
            assert(es2[k] == es[k]);
            let j = lemma_key_listed_witness(l0, key_of(es[k]));
            let j1 = if j < i {
                j
            } else {
                j + 1
            };
            assert(l1[j1] == l0[j]);
            lemma_key_listed_at(l1, j1);
        } else {
            assert(es2[k] == xv);
            lemma_key_listed_at(l1, i);
        }
    }
}

/// Adds `item`, whose key is `key`, to a list kept as `distinct_by_key`
/// describes, unless an entry with that key is already there.
fn insert_distinct(
    list: &mut Vec<SoftwareInfo>,
    keys: &mut Vec<Vec<char>>,
    item: SoftwareInfo,
    key: Vec<char>,
    Ghost(es): Ghost<Seq<SoftwareView>>,
)
    requires
        old(list)@.len() == old(keys)@.len(),
        forall|i: int| 0 <= i < old(keys)@.len() ==> #[trigger] old(keys)@[i]@ == key_of(old(list)@[i]@),
        distinct_by_key(software_views(old(list)@), es),
        key@ == key_of(item@),
    ensures
        final(list)@.len() == final(keys)@.len(),
        forall|i: int| 0 <= i < final(keys)@.len() ==> #[trigger] final(keys)@[i]@ == key_of(final(list)@[i]@),
        distinct_by_key(software_views(final(list)@), es.push(item@)),
{
    let ghost l0 = software_views(list@);
    let ghost xv = item@;
    let ghost kx = key@;
    let mut i: usize = 0;
    let mut found = false;
    while i < keys.len()
        invariant_except_break
            !found,
        invariant
            i <= keys@.len(),
            keys@.len() == list@.len(),
            l0 == software_views(list@),
            kx == key@,
            forall|j: int| 0 <= j < keys@.len() ==> #[trigger] keys@[j]@ == key_of(list@[j]@),
            forall|m: int| 0 <= m < i ==> lex_lt(key_of(#[trigger] l0[m]), kx),
        ensures
            i <= keys@.len(),
            forall|m: int| 0 <= m < i ==> lex_lt(key_of(#[trigger] l0[m]), kx),
            found ==> i < keys@.len() && keys@[i as int]@ == kx,
            !found && i < keys@.len() ==> lex_lt(kx, keys@[i as int]@),
        decreases keys@.len() - i,
    {
        assert(l0[i as int] == list@[i as int]@);
        match lex_compare(&keys[i], &key) {
            Order::Less => {},
            Order::Equal => {
                found = true;
                break;
            },
            Order::Greater => {
                break;
            },
        }
        i = i + 1;
    }
    if found {
        proof {
            assert(l0[i as int] == list@[i as int]@);
            lemma_keep_distinct(l0, es, xv, i as int);
        }
        return;
    }
    proof {
        if i < keys@.len() {
            assert(l0[i as int] == list@[i as int]@);
        }
        lemma_insert_distinct(l0, es, xv, i as int);
    }
    list.insert(i, item);
    keys.insert(i, key);
    proof {
        assert(software_views(list@) =~= l0.insert(i as int, xv));
        assert forall|j: int| 0 <= j < keys@.len() implies #[trigger] keys@[j]@ == key_of(list@[j]@) by {
            if j < i {
            } else if j == i {
            } else {
                assert(keys@[j] == old(keys)@[j - 1]);
                assert(list@[j] == old(list)@[j - 1]);
            }
        }
    }
}

proof fn lemma_parsed_entries_push(lines: Seq<Seq<char>>, l: Seq<char>)
    ensures
        parsed_entries(lines.push(l)) == match parse_line(l) {
            Some(e) => parsed_entries(lines).push(e),
            None => parsed_entries(lines),
        },
{
    assert(lines.push(l).drop_last() =~= lines);
}

/// Reads the `name|version|publisher|location` lines that the uninstall
/// registry listing prints, one program per line, into a list sorted by
/// lowercase name that keeps the first program of each lowercase name.
pub fn parse_software_text(text: &str) -> (r: Result<Vec<SoftwareInfo>, String>)
    ensures
        r is Ok,
        r matches Ok(list) ==> distinct_by_key(
            software_views(list@),
            parsed_entries(text_lines(text@)),
        ),
{
    let v = chars_of(text);
    let n = v.len();
    let mut list: Vec<SoftwareInfo> = Vec::new();
    let mut keys: Vec<Vec<char>> = Vec::new();
    let ghost mut done: Seq<Seq<char>> = Seq::empty();
    let mut p: usize = 0;
    assert(v@.skip(0) =~= v@);
    while p < n
        invariant
            p <= n,
            n == v@.len(),
            v@ == text@,
            text_lines(v@) == done + text_lines(v@.skip(p as int)),
            list@.len() == keys@.len(),
            forall|i: int| 0 <= i < keys@.len() ==> #[trigger] keys@[i]@ == key_of(list@[i]@),
            distinct_by_key(software_views(list@), parsed_entries(done)),
        decreases n - p,
    {
        let e = find_in(&v, '\n', p, n);
        let ghost t = v@.skip(p as int);
        assert(v@.subrange(p as int, n as int) =~= t);
        let hi = if e < n && e > p && v[e - 1] == '\r' {
            e - 1
        } else {
            e
        };
        let ghost line = v@.subrange(p as int, hi as int);
        proof {
            if e < n {
                assert(t.take(e - p) =~= v@.subrange(p as int, e as int));
                assert(t.skip(e - p + 1) =~= v@.skip(e + 1));
                if e > p && v@[e - 1] == '\r' {
                    assert(strip_cr(t.take(e - p)) =~= line);
                } else {
                    assert(strip_cr(t.take(e - p)) =~= line);
                }
                assert(text_lines(t) == seq![line] + text_lines(v@.skip(e + 1)));
            } else {
                assert(line =~= t);
                assert(text_lines(t) == seq![line]);
                assert(v@.skip(n as int) =~= Seq::<char>::empty());
            }
            lemma_parsed_entries_push(done, line);
        }
        match parse_line_range(&v, p, hi) {
            Some(info) => {
                let key = chars_of(to_lowercase(info.name.as_str()).as_str());
                insert_distinct(&mut list, &mut keys, info, key, Ghost(parsed_entries(done)));
            },
            None => {},
        }
        proof {
            let next: int = if e < n {
                e + 1
            } else {
                n as int
            };
            assert(done.push(line) + text_lines(v@.skip(next)) =~= done + text_lines(t));
            done = done.push(line);
        }
        p = if e < n {
            e + 1
        } else {
            n
        };
    }
    assert(v@.skip(n as int) =~= Seq::<char>::empty());
    assert(done =~= done + Seq::<Seq<char>>::empty());
    Ok(list)
}

fn copy_opt_string(o: &Option<String>) -> (r: Option<String>)
    ensures
        r == *o,
{
    match o {
        Some(s) => Some(s.clone()),
        None => None,
    }
}

impl SoftwareInfo {
    /// A copy of this record.
    pub fn copied(&self) -> (r: SoftwareInfo)
        ensures
            r == *self,
    {
        SoftwareInfo {
            name: self.name.clone(),
            version: copy_opt_string(&self.version),
            publisher: copy_opt_string(&self.publisher),
            install_location: copy_opt_string(&self.install_location),
        }
    }
}

/// How running the registry listing went, as the caller that ran it saw it.
pub enum ListingOutcome {
    /// There is no registry listing on this platform: nothing is installed
    /// as far as the listing can tell.
    Unsupported,
    /// The listing command could not be started; the message says why.
    LaunchFailed(String),
    /// The command ran to its end.
    Completed { success: bool, stdout: String, stderr: String },
}

/// Installed-software queries.
pub struct SoftwareManager;

/// The files that belong to one installed program.
#[derive(Debug, Clone)]
pub struct SoftwareFileAnalysis {
    pub software: SoftwareInfo,
    pub files: Vec<FileInfo>,
    pub total_size: u64,
    pub file_count: usize,
}

/// What a `SoftwareFileAnalysis` holds.
pub struct AnalysisView {
    pub software: SoftwareView,
    pub files: Seq<FileInfo>,
    pub total_size: nat,
    pub file_count: nat,
}

impl View for SoftwareFileAnalysis {
    type V = AnalysisView;

    open spec fn view(&self) -> AnalysisView {
        AnalysisView {
            software: self.software@,
            files: self.files@,
            total_size: self.total_size as nat,
            file_count: self.file_count as nat,
        }
    }
}

/// The views of a list of analyses.
pub open spec fn analysis_views(list: Seq<SoftwareFileAnalysis>) -> Seq<AnalysisView> {
    list.map_values(|a: SoftwareFileAnalysis| a@)
}

/// The files whose lowercase path begins with `location_lower`, in order.
pub open spec fn files_under(files: Seq<FileInfo>, location_lower: Seq<char>) -> Seq<FileInfo>
    decreases files.len(),
{
    if files.len() == 0 {
        Seq::empty()
    } else {
        let prev = files_under(files.drop_last(), location_lower);
        if is_prefix(location_lower, lowercase(files.last().path@)) {
            prev.push(files.last())
        } else {
            prev
        }
    }
}

/// The analysis of one program: the files under its non-empty install
/// location, when there are any.
pub open spec fn analysis_entry(s: SoftwareView, files: Seq<FileInfo>) -> Option<AnalysisView> {
    match s.install_location {
        Some(loc) => if loc.len() == 0 {
            None
        } else {
            let m = files_under(files, lowercase(loc));
            if m.len() == 0 {
                None
            } else {
                Some(
                    AnalysisView {
                        software: s,
                        files: m,
                        total_size: sum_sizes(m),
                        file_count: m.len(),
                    },
                )
            }
        },
        None => None,
    }
}

/// The analyses of the programs of `list`, in list order.
pub open spec fn analysis_entries(list: Seq<SoftwareView>, files: Seq<FileInfo>) -> Seq<
    AnalysisView,
>
    decreases list.len(),
{
    if list.len() == 0 {
        Seq::empty()
    } else {
        let prev = analysis_entries(list.drop_last(), files);
        match analysis_entry(list.last(), files) {
            Some(a) => prev.push(a),
            None => prev,
        }
    }
}

/// `result` is `entries` reordered by `perm` (`result[k] == entries[perm[k]]`),
/// largest total size first, entries of equal size in their original order.
pub open spec fn sorted_by_size_via(
    result: Seq<AnalysisView>,
    entries: Seq<AnalysisView>,
    perm: Seq<int>,
) -> bool {
    &&& perm.len() == entries.len()
    &&& result.len() == entries.len()
    &&& forall|k: int| 0 <= k < perm.len() ==> 0 <= #[trigger] perm[k] < entries.len()
    &&& forall|k: int| 0 <= k < perm.len() ==> #[trigger] result[k] == entries[perm[k]]
    &&& forall|k: int, l: int| 0 <= k < l < perm.len() ==> #[trigger] perm[k] != #[trigger] perm[l]
    &&& forall|k: int, l: int|
        0 <= k < l < result.len() ==> (#[trigger] result[k]).total_size > (
        #[trigger] result[l]).total_size || (result[k].total_size == result[l].total_size
            && perm[k] < perm[l])
}

/// `result` is `entries` stably sorted by total size, largest first.
pub open spec fn sorted_by_size(result: Seq<AnalysisView>, entries: Seq<AnalysisView>) -> bool {
    exists|perm: Seq<int>| sorted_by_size_via(result, entries, perm)
}

/// A program matches a lowercase keyword when its lowercase name, or its
/// lowercase publisher, contains the keyword.
pub open spec fn matches_keyword(s: SoftwareView, keyword_lower: Seq<char>) -> bool {
    is_infix(keyword_lower, lowercase(s.name)) || (s.publisher matches Some(p) && is_infix(
        keyword_lower,
        lowercase(p),
    ))
}

/// The programs of `list` that match the keyword, in list order.
pub open spec fn keyword_matches(list: Seq<SoftwareView>, keyword_lower: Seq<char>) -> Seq<
    SoftwareView,
>
    decreases list.len(),
{
    if list.len() == 0 {
        Seq::empty()
    } else {
        let prev = keyword_matches(list.drop_last(), keyword_lower);
        if matches_keyword(list.last(), keyword_lower) {
            prev.push(list.last())
        } else {
            prev
        }
    }
}

pub open spec fn launch_failed_prefix() -> Seq<char> {
    "执行 PowerShell 命令失败: "@
}

pub open spec fn listing_failed_prefix() -> Seq<char> {
    "PowerShell 执行失败: "@
}

impl SoftwareManager {
    pub fn new() -> (m: Self)
        ensures
            m == SoftwareManager,
    {
        SoftwareManager
    }

    /// The installed programs, from what the registry listing printed: where
    /// the platform has no listing the list is empty; the listing's own
    /// failures become errors; otherwise the trimmed output is read as
    /// `parse_software_text` reads it.
    pub fn get_installed_software(&self, outcome: ListingOutcome) -> (r: Result<
        Vec<SoftwareInfo>,
        String,
    >)
        ensures
            match outcome {
                ListingOutcome::Unsupported => r matches Ok(list) && list@.len() == 0,
                ListingOutcome::LaunchFailed(m) => r matches Err(e) && e@ == launch_failed_prefix()
                    + m@,
                ListingOutcome::Completed { success, stdout, stderr } => if !success {
                    r matches Err(e) && e@ == listing_failed_prefix() + stderr@
                } else {
                    r matches Ok(list) && distinct_by_key(
                        software_views(list@),
                        parsed_entries(text_lines(trimmed(stdout@))),
                    )
                },
            },
    {
        match outcome {
            ListingOutcome::Unsupported => {
                let empty: Vec<SoftwareInfo> = Vec::new();
                Ok(empty)
            },
            ListingOutcome::LaunchFailed(m) => Err(
                String::from_str("执行 PowerShell 命令失败: ").concat(m.as_str()),
            ),
            ListingOutcome::Completed { success, stdout, stderr } => {
                if !success {
                    return Err(String::from_str("PowerShell 执行失败: ").concat(stderr.as_str()));
                }
                let v = chars_of(stdout.as_str());
                let (a, b) = trim_range(&v, 0, v.len());
                assert(v@.subrange(0, v@.len() as int) =~= stdout@);
                if a == b {
                    let empty: Vec<SoftwareInfo> = Vec::new();
                    proof {
                        let es = parsed_entries(text_lines(trimmed(stdout@)));
                        assert(trimmed(stdout@).len() == 0);
                        assert(text_lines(trimmed(stdout@)) =~= Seq::<Seq<char>>::empty());
                        assert(es =~= Seq::<SoftwareView>::empty());
                        assert(software_views(empty@) =~= Seq::<SoftwareView>::empty());
                    }
                    return Ok(empty);
                }
                let text = string_from_chars(&chars_between(&v, a, b));
                parse_software_text(text.as_str())
            },
        }
    }

    /// The programs of `installed` (the result of `get_installed_software`)
    /// whose name or publisher contains `keyword`, ignoring case; an error is
    /// passed on.
    pub fn search_software(&self, installed: Result<Vec<SoftwareInfo>, String>, keyword: &str) -> (r:
        Result<Vec<SoftwareInfo>, String>)
        ensures
            match installed {
                Err(e) => r == Err::<Vec<SoftwareInfo>, String>(e),
                Ok(all) => r matches Ok(found) && software_views(found@) == keyword_matches(
                    software_views(all@),
                    lowercase(keyword@),
                ),
            },
    {
        let all = match installed {
            Ok(all) => all,
            Err(e) => {
                return Err(e);
            },
        };
        let keyword_lower = to_lowercase(keyword);
        let mut found: Vec<SoftwareInfo> = Vec::new();
        let ghost kw = keyword_lower@;
        let mut i: usize = 0;
        while i < all.len()
            invariant
                i <= all@.len(),
                kw == lowercase(keyword@),
                kw == keyword_lower@,
                software_views(found@) == keyword_matches(software_views(all@.take(i as int)), kw),
            decreases all@.len() - i,
        {
            let s = &all[i];
            let name_lower = to_lowercase(s.name.as_str());
            let mut hit = str_contains(name_lower.as_str(), keyword_lower.as_str());
            if !hit {
                match &s.publisher {
                    Some(p) => {
                        let p_lower = to_lowercase(p.as_str());
                        hit = str_contains(p_lower.as_str(), keyword_lower.as_str());
                    },
                    None => {},
                }
            }
            proof {
                let prefix = software_views(all@.take(i + 1));
                assert(prefix.drop_last() =~= software_views(all@.take(i as int)));
                assert(prefix.last() == all@[i as int]@);
                assert(hit == matches_keyword(all@[i as int]@, kw));
            }
            if hit {
                found.push(s.copied());
            }
            assert(software_views(found@) =~= keyword_matches(software_views(all@.take(i + 1)), kw));
            i = i + 1;
        }
        assert(all@.take(all@.len() as int) =~= all@);
        Ok(found)
    }
}

impl Default for SoftwareManager {
    fn default() -> (m: Self)
        ensures
            m == SoftwareManager,
    {
        SoftwareManager::new()
    }
}

/// The files under each program's non-empty install location add up to no
/// more than a `u64` holds.
pub open spec fn locations_fit(list: Seq<SoftwareView>, files: Seq<FileInfo>) -> bool {
    forall|i: int| 0 <= i < list.len() ==> #[trigger] location_fits(list[i], files)
}

/// The files under the program's non-empty install location add up to no
/// more than a `u64` holds.
pub open spec fn location_fits(s: SoftwareView, files: Seq<FileInfo>) -> bool {
    match s.install_location {
        Some(l) => l.len() == 0 || sum_sizes(files_under(files, lowercase(l))) <= u64::MAX,
        None => true,
    }
}

proof fn lemma_files_under_sum_prefix(files: Seq<FileInfo>, loc: Seq<char>, i: int)
    requires
        0 <= i <= files.len(),
    ensures
        sum_sizes(files_under(files.take(i), loc)) <= sum_sizes(files_under(files, loc)),
    decreases files.len() - i,
{
    if i < files.len() {
        lemma_files_under_sum_prefix(files, loc, i + 1);
        let t = files.take(i + 1);
        assert(t.drop_last() =~= files.take(i));
        let prev = files_under(files.take(i), loc);
        if is_prefix(loc, lowercase(t.last().path@)) {
            assert(prev.push(t.last()).drop_last() =~= prev);
        }
    } else {
        assert(files.take(i) =~= files);
    }
}

/// The total size of the files under a location, or none when it is more
/// than a `u64` holds.
fn files_under_total(files: &[FileInfo], lower_paths: &Vec<String>, location_lower: &String) -> (r:
    Option<u64>)
    requires
        lower_paths@.len() == files@.len(),
        forall|i: int| 0 <= i < files@.len() ==> #[trigger] lower_paths@[i]@ == lowercase(files@[i].path@),
    ensures
        r matches Some(t) ==> t == sum_sizes(files_under(files@, location_lower@)),
        r is None ==> sum_sizes(files_under(files@, location_lower@)) > u64::MAX,
{
    let mut total: u64 = 0;
    let mut i: usize = 0;
    while i < files.len()
        invariant
            i <= files@.len(),
            lower_paths@.len() == files@.len(),
            forall|j: int| 0 <= j < files@.len() ==> #[trigger] lower_paths@[j]@ == lowercase(files@[j].path@),
            total == sum_sizes(files_under(files@.take(i as int), location_lower@)),
        decreases files@.len() - i,
    {
        let ghost prefix = files@.take(i + 1);
        assert(prefix.drop_last() =~= files@.take(i as int));
        assert(prefix.last() == files@[i as int]);
        if str_starts_with(lower_paths[i].as_str(), location_lower.as_str()) {
            let ghost before = files_under(files@.take(i as int), location_lower@);
            assert(before.push(files@[i as int]).drop_last() =~= before);
            if total > u64::MAX - files[i].size {
                proof {
                    lemma_files_under_sum_prefix(files@, location_lower@, i + 1);
                }
                return None;
            }
            total = total + files[i].size;
        }
        i = i + 1;
    }
    assert(files@.take(files@.len() as int) =~= files@);
    Some(total)
}

/// The files of `files` under the location whose lowercase form is
/// `location_lower`, with the sum of their sizes.
fn collect_files_under(files: &[FileInfo], lower_paths: &Vec<String>, location_lower: &String) -> (r: (
    Vec<FileInfo>,
    u64,
))
    requires
        lower_paths@.len() == files@.len(),
        forall|i: int| 0 <= i < files@.len() ==> #[trigger] lower_paths@[i]@ == lowercase(files@[i].path@),
        sum_sizes(files_under(files@, location_lower@)) <= u64::MAX,
    ensures
        r.0@ == files_under(files@, location_lower@),
        r.1 == sum_sizes(r.0@),
{
    let mut matched: Vec<FileInfo> = Vec::new();
    let mut total: u64 = 0;
    let mut i: usize = 0;
    while i < files.len()
        invariant
            i <= files@.len(),
            lower_paths@.len() == files@.len(),
            forall|j: int| 0 <= j < files@.len() ==> #[trigger] lower_paths@[j]@ == lowercase(files@[j].path@),
            sum_sizes(files_under(files@, location_lower@)) <= u64::MAX,
            matched@ == files_under(files@.take(i as int), location_lower@),
            total == sum_sizes(matched@),
        decreases files@.len() - i,
    {
        let ghost prefix = files@.take(i + 1);
        assert(prefix.drop_last() =~= files@.take(i as int));
        assert(prefix.last() == files@[i as int]);
        proof {
            lemma_files_under_sum_prefix(files@, location_lower@, i + 1);
        }
        if str_starts_with(lower_paths[i].as_str(), location_lower.as_str()) {
            let f = files[i].copied();
            let ghost before = matched@;
            assert(files_under(prefix, location_lower@) == before.push(f));
            assert(before.push(f).drop_last() =~= before);
            total = total + f.size;
            matched.push(f);
        }
        i = i + 1;
    }
    assert(files@.take(files@.len() as int) =~= files@);
    (matched, total)
}

/// Inserting a new last entry at `p`, after every result of at least its
/// size and before every smaller one, keeps the order stable.
proof fn lemma_sorted_insert(
    res: Seq<AnalysisView>,
    es: Seq<AnalysisView>,
    perm: Seq<int>,
    x: AnalysisView,
    p: int,
)
    requires
        sorted_by_size_via(res, es, perm),
        0 <= p <= res.len(),
        forall|k: int| 0 <= k < p ==> (#[trigger] res[k]).total_size >= x.total_size,
        p < res.len() ==> res[p].total_size < x.total_size,
    ensures
        sorted_by_size_via(res.insert(p, x), es.push(x), perm.insert(p, es.len() as int)),
{
    let r1 = res.insert(p, x);
    let e1 = es.push(x);
    let p1 = perm.insert(p, es.len() as int);
    let n = es.len() as int;
    assert forall|k: int| p <= k < res.len() implies (#[trigger] res[k]).total_size < x.total_size by {
        if k > p {
            assert(res[p].total_size >= res[k].total_size);
        }
    }
    assert forall|k: int| 0 <= k < p1.len() implies 0 <= #[trigger] p1[k] < e1.len() && r1[k] == e1[p1[k]] by {
        if k < p {
            assert(p1[k] == perm[k] && r1[k] == res[k]);
        } else if k == p {
        } else {
            assert(p1[k] == perm[k - 1] && r1[k] == res[k - 1]);
        }
    }
    assert forall|k: int| 0 <= k < p1.len() implies #[trigger] r1[k] == e1[p1[k]] by {}
    assert forall|k: int, l: int| 0 <= k < l < p1.len() implies #[trigger] p1[k] != #[trigger] p1[l] by {
        let k0 = if k < p { k } else { k - 1 };
        let l0 = if l < p { l } else { l - 1 };
        if k != p && l != p {
            assert(p1[k] == perm[k0] && p1[l] == perm[l0]);
        } else if k == p {
            assert(p1[l] == perm[l0]);
        } else {
            assert(p1[k] == perm[k0]);
        }
    }
    assert forall|k: int, l: int| 0 <= k < l < r1.len() implies (#[trigger] r1[k]).total_size > (
    #[trigger] r1[l]).total_size || (r1[k].total_size == r1[l].total_size && p1[k] < p1[l]) by {
        let k0 = if k < p { k } else { k - 1 };
        let l0 = if l < p { l } else { l - 1 };
        if k != p && l != p {
            assert(r1[k] == res[k0] && r1[l] == res[l0]);
            assert(p1[k] == perm[k0] && p1[l] == perm[l0]);
        } else if k == p {
            assert(r1[l] == res[l0]);
        } else {
            assert(r1[k] == res[k0]);
            assert(p1[k] == perm[k0]);
        }
    }
}

proof fn lemma_analysis_entries_push(list: Seq<SoftwareView>, s: SoftwareView, files: Seq<FileInfo>)
    ensures
        analysis_entries(list.push(s), files) == match analysis_entry(s, files) {
            Some(a) => analysis_entries(list, files).push(a),
            None => analysis_entries(list, files),
        },
{
    assert(list.push(s).drop_last() =~= list);
}

impl SoftwareManager {
    /// The installed programs (from `installed`, the result of
    /// `get_installed_software`) that have files among `files` under their
    /// install location, each with those files, largest total first; none
    /// when the program list could not be had.
    pub fn analyze_files_with_software(
        &self,
        installed: Result<Vec<SoftwareInfo>, String>,
        files: &[FileInfo],
    ) -> (r: Vec<SoftwareFileAnalysis>)
        requires
            installed matches Ok(list) ==> locations_fit(software_views(list@), files@),
        ensures
            match installed {
                Err(_) => r@.len() == 0,
                Ok(list) => sorted_by_size(
                    analysis_views(r@),
                    analysis_entries(software_views(list@), files@),
                ),
            },
    {
        let list = match installed {
            Ok(list) => list,
            Err(_) => {
                return Vec::new();
            },
        };
        let mut lower_paths: Vec<String> = Vec::new();
        let mut j: usize = 0;
        while j < files.len()
            invariant
                j <= files@.len(),
                lower_paths@.len() == j,
                forall|q: int| 0 <= q < j ==> #[trigger] lower_paths@[q]@ == lowercase(files@[q].path@),
            decreases files@.len() - j,
        {
            lower_paths.push(to_lowercase(files[j].path.as_str()));
            j = j + 1;
        }
        let mut result: Vec<SoftwareFileAnalysis> = Vec::new();
        let ghost mut perm: Seq<int> = Seq::empty();
        let mut i: usize = 0;
        assert(analysis_entries(software_views(list@.take(0)), files@) =~= Seq::<AnalysisView>::empty());
        while i < list.len()
            invariant
                i <= list@.len(),
                lower_paths@.len() == files@.len(),
                forall|q: int| 0 <= q < files@.len() ==> #[trigger] lower_paths@[q]@ == lowercase(files@[q].path@),
                locations_fit(software_views(list@), files@),
                sorted_by_size_via(
                    analysis_views(result@),
                    analysis_entries(software_views(list@.take(i as int)), files@),
                    perm,
                ),
            decreases list@.len() - i,
        {
            let ghost es = analysis_entries(software_views(list@.take(i as int)), files@);
            let ghost sv = list@[i as int]@;
            proof {
                assert(software_views(list@.take(i + 1)) =~= software_views(list@.take(i as int)).push(sv));
                lemma_analysis_entries_push(software_views(list@.take(i as int)), sv, files@);
            }
            let s = &list[i];
            match &s.install_location {
                Some(loc) => {
                    if !loc.as_str().is_empty() {
                        let loc_lower = to_lowercase(loc.as_str());
                        assert(software_views(list@)[i as int] == sv);
                        assert(location_fits(software_views(list@)[i as int], files@));
                        let (matched, total) = collect_files_under(files, &lower_paths, &loc_lower);
                        if matched.len() > 0 {
                            let count = matched.len();
                            let entry = SoftwareFileAnalysis {
                                software: s.copied(),
                                files: matched,
                                total_size: total,
                                file_count: count,
                            };
                            assert(analysis_entry(sv, files@) == Some(entry@));
                            let mut p: usize = 0;
                            while p < result.len()
                                invariant
                                    p <= result@.len(),
                                    forall|k: int| 0 <= k < p ==> (#[trigger] result@[k]).total_size >= total,
                                ensures
                                    p <= result@.len(),
                                    forall|k: int| 0 <= k < p ==> (#[trigger] result@[k]).total_size >= total,
                                    p < result@.len() ==> result@[p as int].total_size < total,
                                decreases result@.len() - p,
                            {
                                if result[p].total_size < total {
                                    break;
                                }
                                p = p + 1;
                            }
                            proof {
                                let rv = analysis_views(result@);
                                assert forall|k: int| 0 <= k < p implies (#[trigger] rv[k]).total_size
                                    >= entry@.total_size by {
                                    assert(rv[k] == result@[k]@);
                                }
                                if p < result@.len() {
                                    assert(rv[p as int] == result@[p as int]@);
                                }
                                lemma_sorted_insert(rv, es, perm, entry@, p as int);
                                perm = perm.insert(p as int, es.len() as int);
                            }
                            let ghost rv0 = analysis_views(result@);
                            result.insert(p, entry);
                            assert(analysis_views(result@) =~= rv0.insert(p as int, entry@));
                        } else {
                            assert(analysis_entry(sv, files@) is None);
                        }
                    }
                },
                None => {},
            }
            i = i + 1;
        }
        assert(list@.take(list@.len() as int) =~= list@);
        proof {
            assert(sorted_by_size_via(
                analysis_views(result@),
                analysis_entries(software_views(list@), files@),
                perm,
            ));
        }
        result
    }
}

/// The analysis lists larger programs first, and lists nothing but the
/// analyses of the programs: every entry is one of `entries`, and no entry
/// is larger than one listed before it.
pub proof fn lemma_analysis_order(result: Seq<AnalysisView>, entries: Seq<AnalysisView>)
    requires
        sorted_by_size(result, entries),
    ensures
        result.len() == entries.len(),
        forall|k: int, l: int|
            0 <= k < l < result.len() ==> (#[trigger] result[k]).total_size >= (
            #[trigger] result[l]).total_size,
        forall|k: int| 0 <= k < result.len() ==> #[trigger] in_entries(entries, result[k]),
{
    let perm = choose|perm: Seq<int>| sorted_by_size_via(result, entries, perm);
    assert forall|k: int| 0 <= k < result.len() implies #[trigger] in_entries(entries, result[k]) by {
        assert(entries[perm[k]] == result[k]);
    }
}

/// `x` is one of `entries`.
pub open spec fn in_entries(entries: Seq<AnalysisView>, x: AnalysisView) -> bool {
    exists|j: int| 0 <= j < entries.len() && entries[j] == x
}

/// Each analysis is consistent: it holds at least one file, all under the
/// program's install location (ignoring case); its count is the number of
/// its files and its total the sum of their sizes.
pub proof fn lemma_analysis_entries_consistent(list: Seq<SoftwareView>, files: Seq<FileInfo>)
    ensures
        forall|a: int|
            0 <= a < analysis_entries(list, files).len() ==> analysis_consistent(
                #[trigger] analysis_entries(list, files)[a],
            ),
    decreases list.len(),
{
    if list.len() > 0 {
        lemma_analysis_entries_consistent(list.drop_last(), files);
        let prev = analysis_entries(list.drop_last(), files);
        let cur = analysis_entries(list, files);
        match analysis_entry(list.last(), files) {
            Some(e) => {
                let loc = list.last().install_location->0;
                lemma_files_under(files, lowercase(loc));
                assert forall|a: int| 0 <= a < cur.len() implies analysis_consistent(#[trigger] cur[a]) by {
                    if a < prev.len() {
                        assert(cur[a] == prev[a]);
                    }
                }
            },
            None => {},
        }
    }
}

/// An analysis holds at least one file, all under the program's install
/// location; its count is the number of its files and its total their size.
pub open spec fn analysis_consistent(a: AnalysisView) -> bool {
    &&& a.files.len() > 0
    &&& a.file_count == a.files.len()
    &&& a.total_size == sum_sizes(a.files)
    &&& a.software.install_location is Some
    &&& forall|q: int|
        0 <= q < a.files.len() ==> is_prefix(
            lowercase(a.software.install_location->0),
            lowercase((#[trigger] a.files[q]).path@),
        )
}

proof fn lemma_files_under(files: Seq<FileInfo>, loc: Seq<char>)
    ensures
        forall|q: int|
            0 <= q < files_under(files, loc).len() ==> is_prefix(
                loc,
                lowercase((#[trigger] files_under(files, loc)[q]).path@),
            ),
    decreases files.len(),
{
    if files.len() > 0 {
        lemma_files_under(files.drop_last(), loc);
        let prev = files_under(files.drop_last(), loc);
        let cur = files_under(files, loc);
        assert forall|q: int| 0 <= q < cur.len() implies is_prefix(loc, lowercase((#[trigger] cur[q]).path@)) by {
            if q < prev.len() {
                assert(cur[q] == prev[q]);
            }
        }
    }
}

/// A search finds exactly the matching programs, in list order.
pub proof fn lemma_keyword_matches_filter(list: Seq<SoftwareView>, keyword_lower: Seq<char>)
    ensures
        keyword_matches(list, keyword_lower) == list.filter(
            |s: SoftwareView| matches_keyword(s, keyword_lower),
        ),
    decreases list.len(),
{
    reveal_with_fuel(Seq::filter, 1);
    if list.len() > 0 {
        lemma_keyword_matches_filter(list.drop_last(), keyword_lower);
    }
}

/// Strictly increasing in the lexicographic order.
pub open spec fn strictly_increasing(a: Seq<Seq<char>>) -> bool {
    forall|i: int, j: int| 0 <= i < j < a.len() ==> lex_lt(#[trigger] a[i], #[trigger] a[j])
}

/// Two strictly increasing sequences with the same elements are equal.
proof fn lemma_sorted_same_elements(a: Seq<Seq<char>>, b: Seq<Seq<char>>)
    requires
        strictly_increasing(a),
        strictly_increasing(b),
        forall|i: int| 0 <= i < a.len() ==> b.contains(#[trigger] a[i]),
        forall|j: int| 0 <= j < b.len() ==> a.contains(#[trigger] b[j]),
    ensures
        a == b,
    decreases a.len() + b.len(),
{
    if a.len() == 0 && b.len() == 0 {
        assert(a =~= b);
    } else if a.len() == 0 {
        assert(a.contains(b[0]));
    } else if b.len() == 0 {
        assert(b.contains(a[0]));
    } else {
        assert(b.contains(a[0]));
        assert(a.contains(b[0]));
        let j = choose|j: int| 0 <= j < b.len() && b[j] == a[0];
        let i = choose|i: int| 0 <= i < a.len() && a[i] == b[0];
        if j > 0 {
            assert(lex_lt(b[0], b[j]));
            if i > 0 {
                assert(lex_lt(a[0], a[i]));
                lemma_lex_transitive(b[0], a[0], b[0]);
            }
            lemma_lex_irreflexive(b[0]);
        }
        let a1 = a.drop_first();
        let b1 = b.drop_first();
        assert forall|p: int| 0 <= p < a1.len() implies b1.contains(#[trigger] a1[p]) by {
            assert(a1[p] == a[p + 1]);
            assert(b.contains(a[p + 1]));
            let q = choose|q: int| 0 <= q < b.len() && b[q] == a[p + 1];
            assert(lex_lt(a[0], a[p + 1]));
            if q == 0 {
                lemma_lex_irreflexive(a[0]);
            }
            assert(b1[q - 1] == a1[p]);
        }
        assert forall|p: int| 0 <= p < b1.len() implies a1.contains(#[trigger] b1[p]) by {
            assert(b1[p] == b[p + 1]);
            assert(a.contains(b[p + 1]));
            let q = choose|q: int| 0 <= q < a.len() && a[q] == b[p + 1];
            assert(lex_lt(b[0], b[p + 1]));
            if q == 0 {
                lemma_lex_irreflexive(b[0]);
            }
            assert(a1[q - 1] == b1[p]);
        }
        lemma_sorted_same_elements(a1, b1);
        assert(a =~= seq![a[0]] + a1);
        assert(b =~= seq![b[0]] + b1);
    }
}

/// The keys of a list of programs.
pub open spec fn keys_of(list: Seq<SoftwareView>) -> Seq<Seq<char>> {
    list.map_values(|e: SoftwareView| key_of(e))
}

/// The list that `distinct_by_key` describes is unique: the parsed listing
/// is fully determined by its lines.
pub proof fn lemma_distinct_by_key_unique(l1: Seq<SoftwareView>, l2: Seq<SoftwareView>, es: Seq<SoftwareView>)
    requires
        distinct_by_key(l1, es),
        distinct_by_key(l2, es),
    ensures
        l1 == l2,
{
    // an entry of one list is the entry of the other with the same key
    assert forall|i: int, j: int|
        0 <= i < l1.len() && 0 <= j < l2.len() && key_of(l1[i]) == key_of(l2[j]) implies #[trigger] l1[i]
        == #[trigger] l2[j] by {
        let k1 = lemma_listed_first_witness(es, l1[i]);
        let k2 = lemma_listed_first_witness(es, l2[j]);
        if k1 < k2 {
            assert(key_of(es[k1]) != key_of(es[k2]));
        } else if k2 < k1 {
            assert(key_of(es[k2]) != key_of(es[k1]));
        }
    }
    let a = keys_of(l1);
    let b = keys_of(l2);
    assert forall|i: int| 0 <= i < a.len() implies b.contains(#[trigger] a[i]) by {
        let k1 = lemma_listed_first_witness(es, l1[i]);
        assert(key_listed(l2, key_of(es[k1])));
        let j = lemma_key_listed_witness(l2, key_of(es[k1]));
        assert(b[j] == a[i]);
    }
    assert forall|j: int| 0 <= j < b.len() implies a.contains(#[trigger] b[j]) by {
        let k2 = lemma_listed_first_witness(es, l2[j]);
        assert(key_listed(l1, key_of(es[k2])));
        let i = lemma_key_listed_witness(l1, key_of(es[k2]));
        assert(a[i] == b[j]);
    }
    assert(strictly_increasing(a)) by {
        assert forall|i: int, j: int| 0 <= i < j < a.len() implies lex_lt(#[trigger] a[i], #[trigger] a[j]) by {
            assert(lex_lt(key_of(l1[i]), key_of(l1[j])));
        }
    }
    assert(strictly_increasing(b)) by {
        assert forall|i: int, j: int| 0 <= i < j < b.len() implies lex_lt(#[trigger] b[i], #[trigger] b[j]) by {
            assert(lex_lt(key_of(l2[i]), key_of(l2[j])));
        }
    }
    lemma_sorted_same_elements(a, b);
    assert forall|i: int| 0 <= i < l1.len() implies l1[i] == l2[i] by {
        assert(a[i] == b[i]);
    }
    assert(l1 =~= l2);
}

impl SoftwareManager {
    /// As `analyze_files_with_software`, or none when the files under some
    /// program's install location add up to more than a `u64` holds.
    pub fn try_analyze_files_with_software(
        &self,
        installed: Result<Vec<SoftwareInfo>, String>,
        files: &[FileInfo],
    ) -> (r: Option<Vec<SoftwareFileAnalysis>>)
        ensures
            r is None <==> (installed matches Ok(list) && !locations_fit(software_views(list@), files@)),
            r matches Some(v) ==> match installed {
                Err(_) => v@.len() == 0,
                Ok(list) => sorted_by_size(
                    analysis_views(v@),
                    analysis_entries(software_views(list@), files@),
                ),
            },
    {
        match &installed {
            Ok(list) => {
                let mut lower_paths: Vec<String> = Vec::new();
                let mut j: usize = 0;
                while j < files.len()
                    invariant
                        j <= files@.len(),
                        lower_paths@.len() == j,
                        forall|q: int| 0 <= q < j ==> #[trigger] lower_paths@[q]@ == lowercase(files@[q].path@),
                    decreases files@.len() - j,
                {
                    lower_paths.push(to_lowercase(files[j].path.as_str()));
                    j = j + 1;
                }
                let ghost views = software_views(list@);
                let mut i: usize = 0;
                while i < list.len()
                    invariant
                        i <= list@.len(),
                        views == software_views(list@),
                        installed is Ok && installed->Ok_0 == *list,
                        lower_paths@.len() == files@.len(),
                        forall|q: int| 0 <= q < files@.len() ==> #[trigger] lower_paths@[q]@ == lowercase(files@[q].path@),
                        forall|k: int| 0 <= k < i ==> #[trigger] location_fits(views[k], files@),
                    decreases list@.len() - i,
                {
                    assert(views[i as int] == list@[i as int]@);
                    match &list[i].install_location {
                        Some(loc) => {
                            if !loc.as_str().is_empty() {
                                let loc_lower = to_lowercase(loc.as_str());
                                match files_under_total(files, &lower_paths, &loc_lower) {
                                    Some(_) => {},
                                    None => {
                                        assert(!location_fits(views[i as int], files@));
                                        assert(!locations_fit(software_views(list@), files@));
                                        return None;
                                    },
                                }
                            }
                        },
                        None => {},
                    }
                    i = i + 1;
                }
            },
            Err(_) => {},
        }
        Some(self.analyze_files_with_software(installed, files))
    }
}

/// The most files an analysis looks at.
pub const ANALYSIS_FILE_LIMIT: usize = 10000;

/// The files an analysis looks at: the first `ANALYSIS_FILE_LIMIT` of them.
pub fn files_for_analysis(files: Vec<FileInfo>) -> (r: Vec<FileInfo>)
    ensures
        r@ == if files@.len() > ANALYSIS_FILE_LIMIT {
            files@.take(ANALYSIS_FILE_LIMIT as int)
        } else {
            files@
        },
{
    let mut kept = files;
    kept.truncate(ANALYSIS_FILE_LIMIT);
    kept
}

/// `part` occurs somewhere in `whole`, at any position.
pub open spec fn occurs_in(part: Seq<char>, whole: Seq<char>) -> bool {
    exists|i: int|
        0 <= i && i + part.len() <= whole.len() && #[trigger] whole.subrange(i, i + part.len())
            == part
}

/// A program is found by a lowercase keyword when the keyword occurs anywhere
/// in its lowercase name or anywhere in its lowercase publisher.
pub open spec fn found_by(s: SoftwareView, keyword_lower: Seq<char>) -> bool {
    occurs_in(keyword_lower, lowercase(s.name)) || (s.publisher is Some && occurs_in(
        keyword_lower,
        lowercase(s.publisher->0),
    ))
}

/// A search keeps, in list order, exactly the programs in whose lowercase name
/// or lowercase publisher the lowercase keyword occurs at some position: not
/// only at the start.
pub proof fn lemma_search_keeps_substring_matches(list: Seq<SoftwareView>, keyword_lower: Seq<char>)
    ensures
        keyword_matches(list, keyword_lower) == list.filter(
            |s: SoftwareView| found_by(s, keyword_lower),
        ),
        forall|i: int, k: int|
            0 <= i < list.len() && 0 <= k && k + keyword_lower.len() <= lowercase(list[i].name).len()
                && #[trigger] lowercase(#[trigger] list[i].name).subrange(k, k + keyword_lower.len())
                == keyword_lower ==> keyword_matches(list, keyword_lower).contains(list[i]),
    decreases list.len(),
{
    reveal_with_fuel(Seq::filter, 1);
    if list.len() > 0 {
        lemma_search_keeps_substring_matches(list.drop_last(), keyword_lower);
        let s = list.last();
        assert(matches_keyword(s, keyword_lower) == found_by(s, keyword_lower));
    }
    let pred = |s: SoftwareView| found_by(s, keyword_lower);
    assert(keyword_matches(list, keyword_lower) == list.filter(pred));
    assert forall|i: int, k: int|
        0 <= i < list.len() && 0 <= k && k + keyword_lower.len() <= lowercase(list[i].name).len()
            && #[trigger] lowercase(#[trigger] list[i].name).subrange(k, k + keyword_lower.len())
            == keyword_lower implies keyword_matches(list, keyword_lower).contains(list[i]) by {
        assert(occurs_in(keyword_lower, lowercase(list[i].name)));
        assert(pred(list[i]));
        broadcast use vstd::seq_lib::group_filter_ensures;
    }
}

/// `f` lies under a location: its lowercase path begins with the lowercase
/// location.
pub open spec fn lies_under(f: FileInfo, location_lower: Seq<char>) -> bool {
    location_lower.len() <= lowercase(f.path@).len() && lowercase(f.path@).subrange(
        0,
        location_lower.len() as int,
    ) == location_lower
}

/// The files under a location are exactly, in order, the files whose
/// lowercase path begins with it, whatever their size.
pub proof fn lemma_files_under_all_that_lie_under(files: Seq<FileInfo>, location_lower: Seq<char>)
    ensures
        files_under(files, location_lower) == files.filter(
            |f: FileInfo| lies_under(f, location_lower),
        ),
    decreases files.len(),
{
    reveal_with_fuel(Seq::filter, 1);
    if files.len() > 0 {
        lemma_files_under_all_that_lie_under(files.drop_last(), location_lower);
    }
}

/// The analysis of a program with a non-empty install location: there is one
/// exactly when some file lies under the location, and then it is the program
/// with all those files, in order, their number and the sum of their sizes.
pub proof fn lemma_analysis_entry_holds_all_files_under(s: SoftwareView, files: Seq<FileInfo>)
    requires
        s.install_location is Some,
        s.install_location->0.len() > 0,
    ensures
        ({
            let m = files.filter(|f: FileInfo| lies_under(f, lowercase(s.install_location->0)));
            &&& analysis_entry(s, files) is Some <==> exists|j: int|
                0 <= j < files.len() && lies_under(#[trigger] files[j], lowercase(s.install_location->0))
            &&& analysis_entry(s, files) is Some ==> analysis_entry(s, files) == Some(
                AnalysisView { software: s, files: m, total_size: sum_sizes(m), file_count: m.len() },
            )
        }),
{
    let loc = lowercase(s.install_location->0);
    let pred = |f: FileInfo| lies_under(f, loc);
    lemma_files_under_all_that_lie_under(files, loc);
    let m = files.filter(pred);
    broadcast use vstd::seq_lib::group_filter_ensures;
    if exists|j: int| 0 <= j < files.len() && lies_under(#[trigger] files[j], loc) {
        let j = choose|j: int| 0 <= j < files.len() && lies_under(#[trigger] files[j], loc);
        assert(pred(files[j]));
        assert(m.contains(files[j]));
    }
    if m.len() > 0 {
        lemma_files_under_from_files(files, loc);
        let j = choose|j: int| 0 <= j < files.len() && files[j] == m[0];
        assert(pred(m[0]));
        assert(lies_under(files[j], loc));
    }
}

/// Every file under a location is one of the files.
proof fn lemma_files_under_from_files(files: Seq<FileInfo>, location_lower: Seq<char>)
    ensures
        forall|q: int|
            0 <= q < files_under(files, location_lower).len() ==> exists|j: int|
                0 <= j < files.len() && files[j] == #[trigger] files_under(files, location_lower)[q],
    decreases files.len(),
{
    if files.len() > 0 {
        lemma_files_under_from_files(files.drop_last(), location_lower);
        let prev = files_under(files.drop_last(), location_lower);
        let cur = files_under(files, location_lower);
        assert forall|q: int| 0 <= q < cur.len() implies exists|j: int|
            0 <= j < files.len() && files[j] == #[trigger] cur[q] by {
            if q < prev.len() {
                assert(cur[q] == prev[q]);
                let j = choose|j: int| 0 <= j < files.len() - 1 && files.drop_last()[j] == prev[q];
                assert(files[j] == cur[q]);
            } else {
                assert(files[files.len() - 1] == cur[q]);
            }
        }
    }
}

/// Some program of `list` has the lowercase name `name_lower`.
pub open spec fn name_listed(list: Seq<SoftwareView>, name_lower: Seq<char>) -> bool {
    exists|i: int| 0 <= i < list.len() && lowercase(#[trigger] list[i].name) == name_lower
}

/// `x` is a program of `es` that no earlier program of `es` shares its
/// lowercase name with.
pub open spec fn first_of_its_name(es: Seq<SoftwareView>, x: SoftwareView) -> bool {
    exists|k: int|
        0 <= k < es.len() && #[trigger] es[k] == x && forall|m: int|
            0 <= m < k ==> lowercase(#[trigger] es[m].name) != lowercase(x.name)
}

/// The parsed listing is sorted by the whole lowercase name, holds no two
/// programs with the same lowercase name, holds a program for every lowercase
/// name among the parsed lines, and each of its programs is the first parsed
/// one with its lowercase name.
pub proof fn lemma_listing_one_per_lowercase_name(list: Seq<SoftwareView>, es: Seq<SoftwareView>)
    requires
        distinct_by_key(list, es),
    ensures
        forall|i: int, j: int|
            0 <= i < j < list.len() ==> lex_lt(
                lowercase(#[trigger] list[i].name),
                lowercase(#[trigger] list[j].name),
            ),
        forall|i: int, j: int|
            0 <= i < j < list.len() ==> lowercase(#[trigger] list[i].name) != lowercase(
                #[trigger] list[j].name,
            ),
        forall|k: int| 0 <= k < es.len() ==> name_listed(list, lowercase(#[trigger] es[k].name)),
        forall|i: int| 0 <= i < list.len() ==> first_of_its_name(es, #[trigger] list[i]),
{
    assert forall|i: int, j: int| 0 <= i < j < list.len() implies lowercase(#[trigger] list[i].name)
        != lowercase(#[trigger] list[j].name) by {
        assert(lex_lt(key_of(list[i]), key_of(list[j])));
        if lowercase(list[i].name) == lowercase(list[j].name) {
            lemma_lex_irreflexive(key_of(list[i]));
        }
    }
    assert forall|k: int| 0 <= k < es.len() implies name_listed(list, lowercase(#[trigger] es[k].name)) by {
        assert(key_listed(list, key_of(es[k])));
        let i = lemma_key_listed_witness(list, key_of(es[k]));
        assert(lowercase(list[i].name) == lowercase(es[k].name));
    }
    assert forall|i: int| 0 <= i < list.len() implies first_of_its_name(es, #[trigger] list[i]) by {
        let k = lemma_listed_first_witness(es, list[i]);
        assert forall|m: int| 0 <= m < k implies lowercase(#[trigger] es[m].name) != lowercase(
            list[i].name,
        ) by {
            assert(key_of(es[m]) != key_of(es[k]));
        }
    }
}

/// A listing line `name|version|publisher|location` (no field holding a
/// `|`, the line neither beginning nor ending with whitespace) describes the
/// program with that name, that version and publisher where they are not
/// empty, and that location, trimmed, where it is not empty.
pub proof fn lemma_parse_line_fields(n: Seq<char>, v: Seq<char>, p: Seq<char>, l: Seq<char>)
    requires
        n.len() > 0,
        n != seq![' '],
        !white_space(n[0]),
        l.len() > 0 ==> !white_space(l.last()),
        forall|i: int| 0 <= i < n.len() ==> #[trigger] n[i] != '|',
        forall|i: int| 0 <= i < v.len() ==> #[trigger] v[i] != '|',
        forall|i: int| 0 <= i < p.len() ==> #[trigger] p[i] != '|',
        forall|i: int| 0 <= i < l.len() ==> #[trigger] l[i] != '|',
    ensures
        parse_line(n + seq!['|'] + v + seq!['|'] + p + seq!['|'] + l) == Some(
            SoftwareView {
                name: n,
                version: if v.len() > 0 {
                    Some(v)
                } else {
                    None
                },
                publisher: if p.len() > 0 {
                    Some(p)
                } else {
                    None
                },
                install_location: if l.len() > 0 {
                    Some(trimmed(l))
                } else {
                    None
                },
            },
        ),
{
    let line = n + seq!['|'] + v + seq!['|'] + p + seq!['|'] + l;
    assert(line[0] == n[0]);
    assert(trim_start(line) == line);
    if l.len() > 0 {
        assert(line.last() == l.last());
    } else {
        assert(line.last() == '|');
    }
    assert(trimmed(line) == line);
    lemma_split_char_parts(l, Seq::<char>::empty(), '|');
    lemma_split_char_parts(p, l, '|');
    lemma_split_char_parts(v, p + seq!['|'] + l, '|');
    lemma_split_char_parts(n, v + seq!['|'] + p + seq!['|'] + l, '|');
    assert(line =~= n + seq!['|'] + (v + seq!['|'] + p + seq!['|'] + l));
    assert(v + seq!['|'] + p + seq!['|'] + l =~= v + seq!['|'] + (p + seq!['|'] + l));
    let x3 = p + seq!['|'] + l;
    let x2 = v + seq!['|'] + p + seq!['|'] + l;
    assert(split_char(x3, '|') == seq![p] + seq![l]);
    assert(split_char(x2, '|') == seq![v] + split_char(x3, '|'));
    assert(split_char(line, '|') == seq![n] + split_char(x2, '|'));
    let parts = split_char(line, '|');
    assert(parts =~= seq![n, v, p, l]);
    if l.len() > 0 {
        lemma_trimmed_cuts_whitespace(l);
        assert(trimmed(l).len() > 0);
    }
}

/// Cutting a text into lines: a part without a line feed followed by one
/// is the first line, without a carriage return that ends it; a non-empty
/// text without a line feed is one line; an empty text has none.
pub proof fn lemma_text_lines_parts(a: Seq<char>, b: Seq<char>)
    requires
        forall|i: int| 0 <= i < a.len() ==> #[trigger] a[i] != '\n',
    ensures
        text_lines(a + seq!['\n'] + b) == seq![
            if a.len() > 0 && a[a.len() - 1] == '\r' {
                a.subrange(0, a.len() - 1)
            } else {
                a
            },
        ] + text_lines(b),
        a.len() > 0 ==> text_lines(a) == seq![a],
        text_lines(Seq::<char>::empty()).len() == 0,
{
    let x = a + seq!['\n'] + b;
    lemma_find_char(x, '\n', a.len() as int);
    assert(x.take(a.len() as int) =~= a);
    assert(x.skip(a.len() + 1int) =~= b);
    if a.len() > 0 && a[a.len() - 1] == '\r' {
        assert(a.drop_last() =~= a.subrange(0, a.len() - 1));
    }
    lemma_find_char(a, '\n', a.len() as int);
}

} // verus!
