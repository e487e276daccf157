//! The breakdown of a directory's files by extension.
use vstd::prelude::*;

use crate::tree::{parent_of, tree_wf, DirTree, NodeView};

verus! {

/// The last component of `path` that `std::path::Path::file_name` finds, as
/// text.
pub uninterp spec fn path_file_name(path: Seq<char>) -> Option<Seq<char>>;

/// What `str::to_lowercase` makes of `s`.
pub uninterp spec fn lowercase(s: Seq<char>) -> Seq<char>;

/// The text an optional string holds.
pub open spec fn opt_text(o: Option<String>) -> Option<Seq<char>> {
    match o {
        Some(s) => Some(s@),
        None => None,
    }
}

/// `i` is the place of the last dot in `name`.
pub open spec fn is_last_dot(name: Seq<char>, i: int) -> bool {
    &&& 0 <= i < name.len()
    &&& name[i] == '.'
    &&& forall|j: int| i < j < name.len() ==> name[j] != '.'
}

/// The extension of a file name: what follows its last dot, unless it has
/// no dot, or its only dot is its first character.
pub open spec fn name_extension(name: Seq<char>) -> Option<Seq<char>> {
    if exists|i: int| 0 < i < name.len() && name[i] == '.' {
        let i = choose|i: int| is_last_dot(name, i);
        Some(name.skip(i + 1))
    } else {
        None
    }
}

/// The extension of the file name of `path`, when it has one.
pub open spec fn path_extension(path: Seq<char>) -> Option<Seq<char>> {
    match path_file_name(path) {
        Some(name) => name_extension(name),
        None => None,
    }
}

/// Calls `std::path::Path::file_name` on `path`: its last component, unless
/// that is `..` or there is none. The result depends on the path alone.
#[verifier::external_body]
pub(crate) fn file_name_of(path: &str) -> (r: Option<String>)
    ensures
        opt_text(r) == path_file_name(path@),
{
    std::path::Path::new(path).file_name().map(|n| n.to_string_lossy().into_owned())
}

/// Calls `std::path::Path::extension` on `path`, which its documentation
/// defines from the file name: none without a file name, none when the name
/// has no dot or its only dot starts it, and otherwise what follows the last
/// dot.
#[verifier::external_body]
fn extension_of(path: &str) -> (r: Option<String>)
    ensures
        opt_text(r) == path_extension(path@),
{
    std::path::Path::new(path).extension().map(|e| e.to_string_lossy().into_owned())
}

/// Calls `str::to_lowercase`. The result depends on the text alone.
#[verifier::external_body]
fn lowercase_of(s: &str) -> (r: String)
    ensures
        r@ == lowercase(s@),
{
    s.to_lowercase()
}

/// The group of a file with extension `ext`: a non-empty extension,
/// lowercased, after a dot; otherwise "(no extension)".
pub open spec fn group_key(ext: Option<Seq<char>>) -> Seq<char> {
    match ext {
        Some(e) => if e.len() > 0 {
            seq!['.'] + lowercase(e)
        } else {
            "(no extension)"@
        },
        None => "(no extension)"@,
    }
}

/// The group a file falls in, by the extension of its path.
pub open spec fn extension_key(path: Seq<char>) -> Seq<char> {
    group_key(path_extension(path))
}

/// The group of a file whose path has the extension `ext`.
pub fn key_for_extension(ext: Option<String>) -> (k: String)
    ensures
        k@ == group_key(opt_text(ext)),
{
    match ext {
        Some(e) => {
            if !e.as_str().is_empty() {
                let mut k = String::from_str(".");
                let lower = lowercase_of(e.as_str());
                k.append(lower.as_str());
                proof {
                    reveal_strlit(".");
                    assert(k@ =~= seq!['.'] + lowercase(e@));
                }
                k
            } else {
                String::from_str("(no extension)")
            }
        },
        None => String::from_str("(no extension)"),
    }
}

/// The group key of the file at `path`.
pub fn file_extension_key(path: &String) -> (k: String)
    ensures
        k@ == extension_key(path@),
{
    let ext = extension_of(path.as_str());
    key_for_extension(ext)
}

/// `a` comes before `b` in code point order, as Rust orders strings.
pub open spec fn text_before(a: Seq<char>, b: Seq<char>) -> bool
    decreases a.len(),
{
    if a.len() == 0 {
        b.len() > 0
    } else if b.len() == 0 {
        false
    } else if a[0] != b[0] {
        a[0] < b[0]
    } else {
        text_before(a.drop_first(), b.drop_first())
    }
}

/// Code point order is asymmetric and irreflexive.
proof fn lemma_text_before_asym(a: Seq<char>, b: Seq<char>)
    ensures
        !(text_before(a, b) && text_before(b, a)),
        !text_before(a, a),
    decreases a.len(),
{
    if a.len() > 0 && b.len() > 0 && a[0] == b[0] {
        lemma_text_before_asym(a.drop_first(), b.drop_first());
    }
    if a.len() > 0 {
        lemma_text_before_asym(a.drop_first(), a.drop_first());
    }
}

/// Of two different texts, one comes first.
proof fn lemma_text_before_total(a: Seq<char>, b: Seq<char>)
    requires
        a != b,
    ensures
        text_before(a, b) || text_before(b, a),
    decreases a.len(),
{
    if a.len() > 0 && b.len() > 0 && a[0] == b[0] {
        if a.drop_first() == b.drop_first() {
            assert(a =~= seq![a[0]] + a.drop_first());
            assert(b =~= seq![b[0]] + b.drop_first());
        }
        lemma_text_before_total(a.drop_first(), b.drop_first());
    } else if a.len() == 0 && b.len() == 0 {
        assert(a =~= b);
    }
}

/// No text comes before itself.
pub proof fn lemma_text_before_irreflexive(a: Seq<char>)
    ensures
        !text_before(a, a),
{
    lemma_text_before_asym(a, a);
}

/// Code point order is transitive.
proof fn lemma_text_before_trans(a: Seq<char>, b: Seq<char>, c: Seq<char>)
    requires
        text_before(a, b),
        text_before(b, c),
    ensures
        text_before(a, c),
    decreases a.len(),
{
    if a.len() > 0 && b.len() > 0 && c.len() > 0 && a[0] == b[0] && b[0] == c[0] {
        lemma_text_before_trans(a.drop_first(), b.drop_first(), c.drop_first());
    }
}

/// Whether `a` comes before `b` in code point order.
fn is_text_before(a: &str, b: &str) -> (r: bool)
    ensures
        r == text_before(a@, b@),
{
    let la = a.unicode_len();
    let lb = b.unicode_len();
    let mut i: usize = 0;
    assert(a@.subrange(0, la as int) =~= a@);
    assert(b@.subrange(0, lb as int) =~= b@);
    while i < la && i < lb
        invariant
            la == a@.len(),
            lb == b@.len(),
            i <= la,
            i <= lb,
            a@.subrange(0, i as int) == b@.subrange(0, i as int),
            text_before(a@, b@) == text_before(a@.subrange(i as int, la as int), b@.subrange(i as int, lb as int)),
        decreases la - i,
    {
        let ca = a.get_char(i);
        let cb = b.get_char(i);
        proof {
            let sa = a@.subrange(i as int, la as int);
            let sb = b@.subrange(i as int, lb as int);
            assert(sa[0] == ca && sb[0] == cb);
            assert(sa.drop_first() =~= a@.subrange(i + 1, la as int));
            assert(sb.drop_first() =~= b@.subrange(i + 1, lb as int));
        }
        if ca != cb {
            return ca < cb;
        }
        proof {
            assert(a@.subrange(0, i + 1) =~= a@.subrange(0, i as int).push(ca));
            assert(b@.subrange(0, i + 1) =~= b@.subrange(0, i as int).push(cb));
        }
        i += 1;
    }
    i >= la && i < lb
}


/// The files of one extension group below a directory.
pub struct FileTypeTotal {
    pub extension: String,
    pub size: u64,
    pub count: u64,
}

/// Node `j` is reached when walking the directory `d`: it is live, and it is
/// `d` itself or lies in a reached directory below `d`.
pub open spec fn seen_from(t: Seq<NodeView>, d: int, j: int) -> bool
    decreases j,
{
    if !(0 <= j < t.len()) || t[j].deleted {
        false
    } else if j == d {
        true
    } else if d < j && t[j].parent is Some && parent_of(t, j) < j {
        t[parent_of(t, j)].is_dir && seen_from(t, d, parent_of(t, j))
    } else {
        false
    }
}

/// Node `j` is a file counted in the breakdown of `d`.
pub open spec fn counted_file(t: Seq<NodeView>, d: int, j: int) -> bool {
    seen_from(t, d, j) && !t[j].is_dir
}

/// The total size of the counted files among the first `n` nodes.
pub open spec fn counted_size(t: Seq<NodeView>, d: int, n: int) -> int
    decreases n,
{
    if n <= 0 {
        0
    } else {
        counted_size(t, d, n - 1) + if counted_file(t, d, n - 1) {
            t[n - 1].size as int
        } else {
            0
        }
    }
}

/// The total size of the counted files in group `k` among the first `n`
/// nodes, node `j` being in group `ks[j]`.
pub open spec fn group_size(t: Seq<NodeView>, d: int, ks: Seq<Seq<char>>, k: Seq<char>, n: int) -> int
    decreases n,
{
    if n <= 0 {
        0
    } else {
        group_size(t, d, ks, k, n - 1) + if counted_file(t, d, n - 1) && ks[n - 1] == k {
            t[n - 1].size as int
        } else {
            0
        }
    }
}

/// The number of counted files in group `k` among the first `n` nodes, node
/// `j` being in group `ks[j]`.
pub open spec fn group_count(t: Seq<NodeView>, d: int, ks: Seq<Seq<char>>, k: Seq<char>, n: int) -> int
    decreases n,
{
    if n <= 0 {
        0
    } else {
        group_count(t, d, ks, k, n - 1) + if counted_file(t, d, n - 1) && ks[n - 1] == k {
            1int
        } else {
            0
        }
    }
}

/// Row `a` is shown above row `b`: it is larger, or as large and its
/// extension comes first.
pub open spec fn row_before(a: FileTypeTotal, b: FileTypeTotal) -> bool {
    a.size > b.size || (a.size == b.size && text_before(a.extension@, b.extension@))
}

/// Each row of `rows` comes before every later row.
pub open spec fn rows_listed(rows: Seq<FileTypeTotal>) -> bool {
    forall|i: int, k: int| 0 <= i < k < rows.len() ==> row_before(#[trigger] rows[i], #[trigger] rows[k])
}

/// Every row totals its group exactly.
pub open spec fn rows_total(t: Seq<NodeView>, d: int, ks: Seq<Seq<char>>, rows: Seq<FileTypeTotal>, n: int) -> bool {
    forall|i: int|
        0 <= i < rows.len() ==> {
            &&& (#[trigger] rows[i]).size == group_size(t, d, ks, rows[i].extension@, n)
            &&& rows[i].count == group_count(t, d, ks, rows[i].extension@, n)
            &&& group_count(t, d, ks, rows[i].extension@, n) > 0
        }
}

/// Every counted file among the first `n` nodes has a row for its group.
pub open spec fn rows_cover(t: Seq<NodeView>, d: int, ks: Seq<Seq<char>>, rows: Seq<FileTypeTotal>, n: int) -> bool {
    forall|j: int|
        0 <= j < n && #[trigger] counted_file(t, d, j) ==> exists|i: int|
            0 <= i < rows.len() && (#[trigger] rows[i]).extension@ == ks[j]
}

/// `rows` groups the files reached from `d`, node `j` going to group
/// `ks[j]`: one row per group, with the group's total size and number of
/// files, largest first and, among equal sizes, by group name.
pub open spec fn is_grouping(t: Seq<NodeView>, d: int, ks: Seq<Seq<char>>, rows: Seq<FileTypeTotal>) -> bool {
    &&& rows_total(t, d, ks, rows, t.len() as int)
    &&& rows_cover(t, d, ks, rows, t.len() as int)
    &&& rows_listed(rows)
}

/// The extension group of every node.
pub open spec fn extension_keys(t: Seq<NodeView>) -> Seq<Seq<char>> {
    Seq::new(t.len(), |j: int| extension_key(t[j].path))
}

/// `rows` is the breakdown of the directory `d` by extension.
pub open spec fn is_breakdown(t: Seq<NodeView>, d: int, rows: Seq<FileTypeTotal>) -> bool {
    is_grouping(t, d, extension_keys(t), rows)
}

/// The group names held by `keys`.
pub open spec fn key_views(keys: Seq<String>) -> Seq<Seq<char>> {
    keys.map_values(|k: String| k@)
}

/// Nothing is counted among the nodes before the directory.
proof fn lemma_sums_before_start(t: Seq<NodeView>, d: int, ks: Seq<Seq<char>>, k: Seq<char>, n: int)
    requires
        n <= d,
    ensures
        group_size(t, d, ks, k, n) == 0,
        group_count(t, d, ks, k, n) == 0,
        counted_size(t, d, n) == 0,
    decreases n,
{
    if n > 0 {
        lemma_sums_before_start(t, d, ks, k, n - 1);
    }
}

/// A group with a file has a counted file of that group.
pub(crate) proof fn lemma_group_witness(t: Seq<NodeView>, d: int, ks: Seq<Seq<char>>, k: Seq<char>, n: int) -> (w: int)
    requires
        group_count(t, d, ks, k, n) > 0,
    ensures
        0 <= w < n,
        counted_file(t, d, w),
        ks[w] == k,
    decreases n,
{
    if counted_file(t, d, n - 1) && ks[n - 1] == k {
        n - 1
    } else {
        lemma_group_witness(t, d, ks, k, n - 1)
    }
}

/// A group without files has no size.
proof fn lemma_group_empty(t: Seq<NodeView>, d: int, ks: Seq<Seq<char>>, k: Seq<char>, n: int)
    requires
        group_count(t, d, ks, k, n) <= 0,
    ensures
        group_size(t, d, ks, k, n) == 0,
        group_count(t, d, ks, k, n) == 0,
    decreases n,
{
    if n > 0 {
        lemma_group_bounds(t, d, ks, k, n - 1, n - 1);
        lemma_group_empty(t, d, ks, k, n - 1);
    }
}

/// A group's totals are bounded by the count of nodes and the total size.
proof fn lemma_group_bounds(t: Seq<NodeView>, d: int, ks: Seq<Seq<char>>, k: Seq<char>, n: int, m: int)
    requires
        0 <= n <= m,
    ensures
        0 <= group_size(t, d, ks, k, n) <= counted_size(t, d, m),
        0 <= group_count(t, d, ks, k, n) <= n,
    decreases m,
{
    if m > n {
        lemma_group_bounds(t, d, ks, k, n, m - 1);
    } else if n > 0 {
        lemma_group_bounds(t, d, ks, k, n - 1, m - 1);
    }
}

/// Groupings agree for group names that agree on the counted files.
proof fn lemma_grouping_keys_agree(
    t: Seq<NodeView>,
    d: int,
    ks1: Seq<Seq<char>>,
    ks2: Seq<Seq<char>>,
    rows: Seq<FileTypeTotal>,
)
    requires
        forall|j: int| 0 <= j < t.len() && #[trigger] counted_file(t, d, j) ==> ks1[j] == ks2[j],
        is_grouping(t, d, ks1, rows),
    ensures
        is_grouping(t, d, ks2, rows),
{
    assert forall|k: Seq<char>, n: int| 0 <= n <= t.len() implies group_size(t, d, ks1, k, n) == group_size(
        t,
        d,
        ks2,
        k,
        n,
    ) && group_count(t, d, ks1, k, n) == group_count(t, d, ks2, k, n) by {
        lemma_group_keys_agree(t, d, ks1, ks2, k, n);
    }
    let n = t.len() as int;
    assert forall|i: int| 0 <= i < rows.len() implies {
        &&& (#[trigger] rows[i]).size == group_size(t, d, ks2, rows[i].extension@, n)
        &&& rows[i].count == group_count(t, d, ks2, rows[i].extension@, n)
        &&& group_count(t, d, ks2, rows[i].extension@, n) > 0
    } by {
        assert(group_size(t, d, ks1, rows[i].extension@, n) == group_size(t, d, ks2, rows[i].extension@, n));
        assert(group_count(t, d, ks1, rows[i].extension@, n) == group_count(t, d, ks2, rows[i].extension@, n));
    }
    assert forall|j: int| 0 <= j < n && #[trigger] counted_file(t, d, j) implies exists|i: int|
        0 <= i < rows.len() && (#[trigger] rows[i]).extension@ == ks2[j] by {
        let i = choose|i: int| 0 <= i < rows.len() && (#[trigger] rows[i]).extension@ == ks1[j];
        assert(rows[i].extension@ == ks2[j]);
    }
}

/// Group totals agree for group names that agree on the counted files.
proof fn lemma_group_keys_agree(
    t: Seq<NodeView>,
    d: int,
    ks1: Seq<Seq<char>>,
    ks2: Seq<Seq<char>>,
    k: Seq<char>,
    n: int,
)
    requires
        forall|j: int| 0 <= j < t.len() && #[trigger] counted_file(t, d, j) ==> ks1[j] == ks2[j],
        n <= t.len(),
    ensures
        group_size(t, d, ks1, k, n) == group_size(t, d, ks2, k, n),
        group_count(t, d, ks1, k, n) == group_count(t, d, ks2, k, n),
    decreases n,
{
    if n > 0 {
        lemma_group_keys_agree(t, d, ks1, ks2, k, n - 1);
        if counted_file(t, d, n - 1) {
            assert(ks1[n - 1] == ks2[n - 1]);
        }
    }
}

/// Whether row `a` is shown above row `b`.
fn is_row_before(a: &FileTypeTotal, b: &FileTypeTotal) -> (r: bool)
    ensures
        r == row_before(*a, *b),
{
    a.size > b.size || (a.size == b.size && is_text_before(a.extension.as_str(), b.extension.as_str()))
}

/// Orders rows of distinct extensions.
fn sort_rows(v: Vec<FileTypeTotal>) -> (r: Vec<FileTypeTotal>)
    requires
        forall|i: int, k: int| 0 <= i < k < v@.len() ==> (#[trigger] v@[i]).extension@ != (#[trigger] v@[k]).extension@,
    ensures
        rows_listed(r@),
        r@.to_multiset() == v@.to_multiset(),
{
    broadcast use vstd::seq_lib::group_to_multiset_ensures;
    broadcast use vstd::multiset::group_multiset_axioms;

    let ghost v0 = v@;
    let mut rest = v;
    let mut r: Vec<FileTypeTotal> = Vec::new();
    while rest.len() > 0
        invariant
            v0.len() == rest@.len() + r@.len(),
            rest@ == v0.subrange(0, rest@.len() as int),
            r@.to_multiset() == v0.subrange(rest@.len() as int, v0.len() as int).to_multiset(),
            forall|i: int, k: int| 0 <= i < k < v0.len() ==> (#[trigger] v0[i]).extension@ != (#[trigger] v0[k]).extension@,
            rows_listed(r@),
        decreases rest@.len(),
    {
        let ghost n = rest@.len() as int;
        let x = rest.pop().unwrap();
        assert(x == v0[n - 1]);
        let mut p: usize = 0;
        while p < r.len() && !is_row_before(&x, &r[p])
            invariant
                p <= r@.len(),
                forall|q: int| 0 <= q < p ==> !row_before(x, #[trigger] r@[q]),
            decreases r@.len() - p,
        {
            p += 1;
        }
        let ghost r0 = r@;
        proof {
            assert forall|q: int| 0 <= q < r0.len() implies (#[trigger] r0[q]).extension@ != x.extension@ by {
                assert(r0.contains(r0[q]));
                vstd::seq_lib::to_multiset_contains(r0, r0[q]);
                assert(r0.to_multiset().count(r0[q]) > 0);
                let tail = v0.subrange(n, v0.len() as int);
                vstd::seq_lib::to_multiset_contains(tail, r0[q]);
                assert(tail.to_multiset().count(r0[q]) > 0);
                assert(tail.contains(r0[q]));
                let w = tail.index_of(r0[q]);
                assert(v0[n + w] == r0[q]);
            }
            assert forall|q: int| 0 <= q < p implies row_before(#[trigger] r0[q], x) by {
                lemma_text_before_total(r0[q].extension@, x.extension@);
            }
        }
        r.insert(p, x);
        proof {
            vstd::seq_lib::to_multiset_insert(r0, p as int, x);
            assert(v0.subrange(n - 1, v0.len() as int) =~= v0.subrange(n, v0.len() as int).insert(0, x));
            vstd::seq_lib::to_multiset_insert(v0.subrange(n, v0.len() as int), 0, x);
            assert(rest@ =~= v0.subrange(0, n - 1));
            assert forall|i: int, k: int| 0 <= i < k < r@.len() implies row_before(#[trigger] r@[i], #[trigger] r@[k]) by {
                if k < p {
                    assert(r@[i] == r0[i] && r@[k] == r0[k]);
                } else if k == p {
                    assert(r@[i] == r0[i]);
                } else if i == p {
                    assert(r@[k] == r0[k - 1]);
                    if k - 1 > p {
                        assert(row_before(r0[p as int], r0[k - 1]));
                        assert(row_before(x, r0[p as int]));
                        if x.size == r0[p as int].size && r0[p as int].size == r0[k - 1].size {
                            lemma_text_before_trans(x.extension@, r0[p as int].extension@, r0[k - 1].extension@);
                        }
                    }
                } else if i < p {
                    assert(r@[i] == r0[i] && r@[k] == r0[k - 1]);
                } else {
                    assert(r@[i] == r0[i - 1] && r@[k] == r0[k - 1]);
                }
            }
        }
    }
    assert(v0.subrange(0, v0.len() as int) =~= v0);
    r
}

/// The total size of the files counted in the breakdown of `directory_idx`,
/// when it fits in a `u64`.
pub fn counted_size_total(tree: &DirTree, directory_idx: usize) -> (r: Option<u64>)
    requires
        tree.wf(),
        directory_idx < tree@.len(),
    ensures
        r == (if counted_size(tree@, directory_idx as int, tree@.len() as int) <= u64::MAX {
            Some(counted_size(tree@, directory_idx as int, tree@.len() as int) as u64)
        } else {
            None::<u64>
        }),
{
    let ghost t = tree@;
    let ghost d = directory_idx as int;
    proof {
        tree.lemma_wf_shape();
        lemma_sums_before_start(t, d, Seq::empty(), Seq::empty(), d);
    }
    let n = tree.len();
    let mut seen: Vec<bool> = Vec::new();
    let mut total: u64 = 0;
    let mut j = directory_idx;
    while j < n
        invariant
            t == tree@,
            tree_wf(t),
            n == t.len(),
            d == directory_idx,
            d <= j <= n,
            seen@.len() == j - d,
            forall|i: int| 0 <= i < seen@.len() ==> #[trigger] seen@[i] == seen_from(t, d, d + i),
            total == counted_size(t, d, j as int),
        decreases n - j,
    {
        let s = node_seen(tree, directory_idx, j, &seen);
        seen.push(s);
        let node = tree.get_node(j);
        if s && !node.is_dir {
            match total.checked_add(node.size) {
                Some(v) => total = v,
                None => {
                    proof {
                        lemma_counted_size_grows(t, d, j + 1, n as int);
                    }
                    return None;
                },
            }
        }
        j += 1;
    }
    Some(total)
}

/// Counted sizes only grow as more nodes are taken.
proof fn lemma_counted_size_grows(t: Seq<NodeView>, d: int, n: int, m: int)
    requires
        n <= m,
    ensures
        counted_size(t, d, n) <= counted_size(t, d, m),
    decreases m - n,
{
    if n < m {
        lemma_counted_size_grows(t, d, n, m - 1);
    }
}

/// Whether node `j` is reached from `d`, given the answers for the nodes from
/// `d` up to `j`.
fn node_seen(tree: &DirTree, d: usize, j: usize, seen: &Vec<bool>) -> (s: bool)
    requires
        tree_wf(tree@),
        d <= j < tree@.len(),
        seen@.len() == j - d,
        forall|i: int| 0 <= i < seen@.len() ==> #[trigger] seen@[i] == seen_from(tree@, d as int, d + i),
    ensures
        s == seen_from(tree@, d as int, j as int),
{
    let node = tree.get_node(j);
    if node.deleted {
        false
    } else if j == d {
        true
    } else {
        assert(j > 0);
        assert(crate::tree::parent_ok(tree@, j as int));
        let p = node.parent.unwrap();
        assert(p as int == parent_of(tree@, j as int));
        if p < d {
            assert(!seen_from(tree@, d as int, p as int));
            false
        } else {
            let r = tree.get_node(p).is_dir && seen[p - d];
            assert(seen@[p - d] == seen_from(tree@, d as int, d + (p - d)));
            assert(r == (tree@[p as int].is_dir && seen_from(tree@, d as int, p as int)));
            r
        }
    }
}

/// Looks `key` up among rows ordered by extension: `Ok` with its row, or
/// `Err` with the place where a row for it would keep the order.
fn find_row(rows: &Vec<FileTypeTotal>, key: &String) -> (r: Result<usize, usize>)
    requires
        forall|i: int, k: int|
            0 <= i < k < rows@.len() ==> text_before(
                (#[trigger] rows@[i]).extension@,
                (#[trigger] rows@[k]).extension@,
            ),
    ensures
        r matches Ok(i) ==> i < rows@.len() && rows@[i as int].extension@ == key@,
        r matches Err(p) ==> p <= rows@.len() && (forall|i: int|
            0 <= i < p ==> text_before((#[trigger] rows@[i]).extension@, key@)) && (forall|i: int|
            p <= i < rows@.len() ==> text_before(key@, (#[trigger] rows@[i]).extension@)),
{
    let mut lo: usize = 0;
    let mut hi: usize = rows.len();
    while lo < hi
        invariant
            lo <= hi <= rows@.len(),
            forall|i: int, k: int|
                0 <= i < k < rows@.len() ==> text_before(
                    (#[trigger] rows@[i]).extension@,
                    (#[trigger] rows@[k]).extension@,
                ),
            forall|i: int| 0 <= i < lo ==> text_before((#[trigger] rows@[i]).extension@, key@),
            forall|i: int| hi <= i < rows@.len() ==> !text_before((#[trigger] rows@[i]).extension@, key@),
        decreases hi - lo,
    {
        let mid = lo + (hi - lo) / 2;
        if is_text_before(rows[mid].extension.as_str(), key.as_str()) {
            proof {
                assert forall|i: int| 0 <= i < mid + 1 implies text_before((#[trigger] rows@[i]).extension@, key@) by {
                    if i < mid {
                        lemma_text_before_trans(rows@[i].extension@, rows@[mid as int].extension@, key@);
                    }
                }
            }
            lo = mid + 1;
        } else {
            proof {
                assert forall|i: int| mid <= i < rows@.len() implies !text_before((#[trigger] rows@[i]).extension@, key@) by {
                    if i > mid && text_before(rows@[i].extension@, key@) {
                        if rows@[mid as int].extension@ == key@ {
                            lemma_text_before_asym(rows@[i].extension@, key@);
                        } else {
                            lemma_text_before_total(rows@[mid as int].extension@, key@);
                            lemma_text_before_trans(key@, rows@[mid as int].extension@, rows@[i].extension@);
                            lemma_text_before_asym(rows@[i].extension@, key@);
                        }
                    }
                }
            }
            hi = mid;
        }
    }
    if lo < rows.len() && rows[lo].extension == *key {
        return Ok(lo);
    }
    proof {
        assert forall|i: int| lo <= i < rows@.len() implies text_before(key@, (#[trigger] rows@[i]).extension@) by {
            let x = rows@[lo as int].extension@;
            lemma_text_before_total(x, key@);
            if i > lo {
                lemma_text_before_trans(key@, x, rows@[i].extension@);
            }
        }
    }
    Err(lo)
}

/// Groups the files reached from `directory_idx`, node `j` going to group
/// `keys[j]`: one row per group with the group's total size and number of
/// files, largest first and, among equal sizes, by group name.
pub fn group_files(tree: &DirTree, directory_idx: usize, keys: &Vec<String>) -> (rows: Vec<FileTypeTotal>)
    requires
        tree.wf(),
        directory_idx < tree@.len(),
        keys@.len() == tree@.len(),
        counted_size(tree@, directory_idx as int, tree@.len() as int) <= u64::MAX,
    ensures
        is_grouping(tree@, directory_idx as int, key_views(keys@), rows@),
{
    broadcast use vstd::seq_lib::group_to_multiset_ensures;

    let ghost t = tree@;
    let ghost d = directory_idx as int;
    let ghost ks = key_views(keys@);
    proof {
        tree.lemma_wf_shape();
        assert forall|k: Seq<char>| group_size(t, d, ks, k, d) == 0 && group_count(t, d, ks, k, d) == 0 by {
            lemma_sums_before_start(t, d, ks, k, d);
        }
        assert forall|j: int| 0 <= j < d implies !#[trigger] counted_file(t, d, j) by {}
    }
    let n = tree.len();
    let mut seen: Vec<bool> = Vec::new();
    let mut totals: Vec<FileTypeTotal> = Vec::new();
    let mut j = directory_idx;
    while j < n
        invariant
            t == tree@,
            tree_wf(t),
            n == t.len(),
            d == directory_idx,
            d <= j <= n,
            n < crate::arena::ARENA_LIMIT + 1,
            ks == key_views(keys@),
            keys@.len() == n,
            counted_size(t, d, n as int) <= u64::MAX,
            seen@.len() == j - d,
            forall|i: int| 0 <= i < seen@.len() ==> #[trigger] seen@[i] == seen_from(t, d, d + i),
            forall|i: int, k: int|
                0 <= i < k < totals@.len() ==> text_before(
                    (#[trigger] totals@[i]).extension@,
                    (#[trigger] totals@[k]).extension@,
                ),
            rows_total(t, d, ks, totals@, j as int),
            rows_cover(t, d, ks, totals@, j as int),
        decreases n - j,
    {
        let s = node_seen(tree, directory_idx, j, &seen);
        seen.push(s);
        let node = tree.get_node(j);
        let ghost before = totals@;
        if s && !node.is_dir {
            let key = keys[j].clone();
            let found = find_row(&totals, &key);
            proof {
                lemma_group_bounds(t, d, ks, key@, j as int, n as int);
                lemma_group_bounds(t, d, ks, key@, j + 1, n as int);
                assert(counted_file(t, d, j as int));
                assert(ks[j as int] == key@);
            }
            match found {
                Ok(i) => {
                    let size = totals[i].size + node.size;
                    let count = totals[i].count + 1;
                    let extension = totals[i].extension.clone();
                    totals.set(i, FileTypeTotal { extension, size, count });
                    proof {
                        let tt = totals@;
                        assert forall|q: int| 0 <= q < tt.len() implies {
                            &&& (#[trigger] tt[q]).size == group_size(t, d, ks, tt[q].extension@, j + 1)
                            &&& tt[q].count == group_count(t, d, ks, tt[q].extension@, j + 1)
                            &&& group_count(t, d, ks, tt[q].extension@, j + 1) > 0
                        } by {
                            assert(before[q] == before[q]);
                            assert(tt[q].extension@ == before[q].extension@);
                            if q != i {
                                lemma_text_before_asym(before[q].extension@, before[q].extension@);
                                if q < i {
                                    assert(text_before(before[q].extension@, before[i as int].extension@));
                                } else {
                                    assert(text_before(before[i as int].extension@, before[q].extension@));
                                }
                            }
                        }
                        assert forall|q: int, k: int| 0 <= q < k < tt.len() implies text_before(
                            (#[trigger] tt[q]).extension@,
                            (#[trigger] tt[k]).extension@,
                        ) by {
                            assert(tt[q].extension@ == before[q].extension@);
                            assert(tt[k].extension@ == before[k].extension@);
                        }
                        assert forall|jj: int| 0 <= jj < j + 1 && #[trigger] counted_file(t, d, jj) implies exists|q: int|
                            0 <= q < tt.len() && (#[trigger] tt[q]).extension@ == ks[jj] by {
                            if jj < j {
                                let q = choose|q: int| 0 <= q < before.len() && (#[trigger] before[q]).extension@ == ks[jj];
                                assert(tt[q].extension@ == before[q].extension@);
                            } else {
                                assert(tt[i as int].extension@ == key@);
                            }
                        }
                    }
                },
                Err(pos) => {
                    let ghost kv = key@;
                    totals.insert(pos, FileTypeTotal { extension: key, size: node.size, count: 1 });
                    proof {
                        let tt = totals@;
                        assert forall|q: int| 0 <= q < tt.len() implies {
                            &&& (#[trigger] tt[q]).size == group_size(t, d, ks, tt[q].extension@, j + 1)
                            &&& tt[q].count == group_count(t, d, ks, tt[q].extension@, j + 1)
                            &&& group_count(t, d, ks, tt[q].extension@, j + 1) > 0
                        } by {
                            if q < pos {
                                assert(tt[q] == before[q]);
                                assert(before[q] == before[q]);
                                lemma_text_before_asym(before[q].extension@, kv);
                            } else if q > pos {
                                assert(tt[q] == before[q - 1]);
                                assert(before[q - 1] == before[q - 1]);
                                lemma_text_before_asym(before[q - 1].extension@, kv);
                            } else {
                                assert(tt[q].extension@ == kv);
                                if group_count(t, d, ks, kv, j as int) > 0 {
                                    let w = lemma_group_witness(t, d, ks, kv, j as int);
                                    let q2 = choose|q2: int| 0 <= q2 < before.len() && (#[trigger] before[q2]).extension@ == ks[w];
                                    lemma_text_before_asym(before[q2].extension@, kv);
                                    if q2 < pos {
                                        assert(text_before(before[q2].extension@, kv));
                                    } else {
                                        assert(text_before(kv, before[q2].extension@));
                                    }
                                    assert(before[q2].extension@ != kv);
                                }
                                lemma_group_empty(t, d, ks, kv, j as int);
                            }
                        }
                        assert forall|q: int, k: int| 0 <= q < k < tt.len() implies text_before(
                            (#[trigger] tt[q]).extension@,
                            (#[trigger] tt[k]).extension@,
                        ) by {
                            if k < pos {
                                assert(tt[q] == before[q] && tt[k] == before[k]);
                            } else if k == pos {
                                assert(tt[q] == before[q]);
                            } else if q == pos {
                                assert(tt[k] == before[k - 1]);
                            } else if q < pos {
                                assert(tt[q] == before[q] && tt[k] == before[k - 1]);
                            } else {
                                assert(tt[q] == before[q - 1] && tt[k] == before[k - 1]);
                            }
                        }
                        assert forall|jj: int| 0 <= jj < j + 1 && #[trigger] counted_file(t, d, jj) implies exists|q: int|
                            0 <= q < tt.len() && (#[trigger] tt[q]).extension@ == ks[jj] by {
                            if jj < j {
                                let q = choose|q: int| 0 <= q < before.len() && (#[trigger] before[q]).extension@ == ks[jj];
                                if q < pos {
                                    assert(tt[q] == before[q]);
                                } else {
                                    assert(tt[q + 1] == before[q]);
                                }
                            } else {
                                assert(tt[pos as int].extension@ == kv);
                            }
                        }
                    }
                },
            }
        } else {
            proof {
                let tt = totals@;
                assert forall|q: int| 0 <= q < tt.len() implies {
                    &&& (#[trigger] tt[q]).size == group_size(t, d, ks, tt[q].extension@, j + 1)
                    &&& tt[q].count == group_count(t, d, ks, tt[q].extension@, j + 1)
                    &&& group_count(t, d, ks, tt[q].extension@, j + 1) > 0
                } by {}
                assert forall|jj: int| 0 <= jj < j + 1 && #[trigger] counted_file(t, d, jj) implies exists|q: int|
                    0 <= q < tt.len() && (#[trigger] tt[q]).extension@ == ks[jj] by {
                }
            }
        }
        j += 1;
    }
    let ghost unsorted = totals@;
    proof {
        assert forall|i: int, k: int| 0 <= i < k < unsorted.len() implies (#[trigger] unsorted[i]).extension@
            != (#[trigger] unsorted[k]).extension@ by {
            lemma_text_before_asym(unsorted[i].extension@, unsorted[k].extension@);
        }
    }
    let rows = sort_rows(totals);
    proof {
        let r = rows@;
        assert forall|q: int| 0 <= q < r.len() implies {
            &&& (#[trigger] r[q]).size == group_size(t, d, ks, r[q].extension@, n as int)
            &&& r[q].count == group_count(t, d, ks, r[q].extension@, n as int)
            &&& group_count(t, d, ks, r[q].extension@, n as int) > 0
        } by {
            assert(r.to_multiset().count(r[q]) > 0);
            assert(unsorted.contains(r[q]));
            let w = unsorted.index_of(r[q]);
            assert(unsorted[w] == r[q]);
        }
        assert forall|jj: int| 0 <= jj < n && #[trigger] counted_file(t, d, jj) implies exists|q: int|
            0 <= q < r.len() && (#[trigger] r[q]).extension@ == ks[jj] by {
            let w = choose|w: int| 0 <= w < unsorted.len() && (#[trigger] unsorted[w]).extension@ == ks[jj];
            assert(unsorted.contains(unsorted[w]));
            assert(unsorted.to_multiset().count(unsorted[w]) > 0);
            assert(r.contains(unsorted[w]));
            let q = r.index_of(unsorted[w]);
            assert(r[q] == unsorted[w]);
        }
    }
    rows
}


/// Groups the files reached from `directory_idx` by extension: one row per
/// group with the group's total size and number of files, largest first and,
/// among equal sizes, by extension.
pub fn breakdown(tree: &DirTree, directory_idx: usize) -> (rows: Vec<FileTypeTotal>)
    requires
        tree.wf(),
        directory_idx < tree@.len(),
        counted_size(tree@, directory_idx as int, tree@.len() as int) <= u64::MAX,
    ensures
        is_breakdown(tree@, directory_idx as int, rows@),
{
    let ghost t = tree@;
    let ghost d = directory_idx as int;
    let n = tree.len();
    let mut keys: Vec<String> = Vec::new();
    let mut j: usize = 0;
    while j < n
        invariant
            t == tree@,
            n == t.len(),
            d == directory_idx,
            j <= n,
            keys@.len() == j,
            forall|i: int|
                0 <= i < j && #[trigger] counted_file(t, d, i) ==> key_views(keys@)[i] == extension_key(t[i].path),
        decreases n - j,
    {
        let node = tree.get_node(j);
        let key = if j >= directory_idx && !node.is_dir && !node.deleted {
            file_extension_key(&node.path)
        } else {
            String::new()
        };
        let ghost before = keys@;
        keys.push(key);
        proof {
            assert forall|i: int| 0 <= i < j + 1 && #[trigger] counted_file(t, d, i) implies key_views(keys@)[i]
                == extension_key(t[i].path) by {
                if i < j {
                    assert(keys@[i] == before[i]);
                } else if seen_from(t, d, i) {
                    lemma_seen_from_range(t, d, i);
                }
            }
        }
        j += 1;
    }
    let rows = group_files(tree, directory_idx, &keys);
    proof {
        assert forall|i: int| 0 <= i < t.len() && #[trigger] counted_file(t, d, i) implies key_views(keys@)[i]
            == extension_keys(t)[i] by {}
        lemma_grouping_keys_agree(t, d, key_views(keys@), extension_keys(t), rows@);
    }
    rows
}

/// A reached node is live and comes at or after the directory.
proof fn lemma_seen_from_range(t: Seq<NodeView>, d: int, j: int)
    requires
        seen_from(t, d, j),
    ensures
        d <= j,
        !t[j].deleted,
{
}

/// Every file whose name has a non-empty extension `e`, whatever its length,
/// is grouped under a dot followed by `e` lowercased; a file without an
/// extension, or with an empty one, is grouped under "(no extension)". The
/// groups of the two kinds never meet.
pub proof fn lemma_extension_groups(path: Seq<char>)
    ensures
        path_extension(path) matches Some(e) ==> (e.len() > 0 ==> extension_key(path) == seq!['.'] + lowercase(e)),
        path_extension(path) is None || path_extension(path)->0.len() == 0 ==> extension_key(path) == "(no extension)"@,
        extension_key(path)[0] == '.' <==> (path_extension(path) is Some && path_extension(path)->0.len() > 0),
{
    reveal_strlit("(no extension)");
    if let Some(e) = path_extension(path) {
        if e.len() > 0 {
            assert((seq!['.'] + lowercase(e))[0] == '.');
        }
    }
}

/// The group of an extension handed over by `Path::extension`: a dot and the
/// extension lowercased for any non-empty one, "(no extension)" otherwise.
pub proof fn lemma_key_for_any_extension(ext: Option<Seq<char>>)
    ensures
        ext matches Some(e) ==> (e.len() > 0 ==> group_key(ext) == seq!['.'] + lowercase(e)),
        ext is None || ext->0.len() == 0 ==> group_key(ext) == "(no extension)"@,
{
}

} // verus!
