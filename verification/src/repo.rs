//! Which entries of a directory are repositories, and in what order they are listed.

use std::path::PathBuf;
use vstd::prelude::*;

verus! {

#[verifier::external_type_specification]
#[verifier::external_body]
pub struct ExPathBuf(PathBuf);

/// `Clone::clone` for `PathBuf`: std documents `clone` as returning a copy of the value,
/// so the copy is taken to be the same path.
pub assume_specification[ <PathBuf as Clone>::clone ](path: &PathBuf) -> (res: PathBuf)
    ensures
        res == *path,
;

#[derive(Debug, Clone, Copy, PartialEq, Eq, Structural)]
pub enum RepoKind {
    Git,
    Jj,
}

#[derive(Debug, Clone)]
pub struct Repo {
    pub name: String,
    pub path: PathBuf,
    pub kind: RepoKind,
}

/// What the file system says of one entry of the scanned directory.
pub struct DirEntryInfo {
    /// The entry's file name, decoded lossily.
    pub name: String,
    /// The entry's file name as the bytes the operating system holds; entries are listed
    /// in the byte order of these.
    pub sort_key: Vec<u8>,
    pub path: PathBuf,
    /// The entry is a directory.
    pub is_dir: bool,
    /// `<path>/.jj` is a directory.
    pub has_jj_dir: bool,
    /// `<path>/.git` exists.
    pub has_git: bool,
}

/// The kind of repository an entry is, if it is one: a directory with a `.jj` directory
/// is a jj repository (jj can colocate a git backend, so `.jj` takes priority), one with
/// a `.git` entry a git repository.
pub open spec fn repo_kind(e: DirEntryInfo) -> Option<RepoKind> {
    if !e.is_dir {
        None
    } else if e.has_jj_dir {
        Some(RepoKind::Jj)
    } else if e.has_git {
        Some(RepoKind::Git)
    } else {
        None
    }
}

/// Byte-wise lexicographic order, a proper prefix coming first.
pub open spec fn lex_lt(a: Seq<u8>, b: Seq<u8>) -> bool
    decreases a.len(),
{
    if a.len() == 0 {
        b.len() > 0
    } else if b.len() == 0 {
        false
    } else if a[0] != b[0] {
        a[0] < b[0]
    } else {
        lex_lt(a.drop_first(), b.drop_first())
    }
}

pub proof fn lemma_lex_lt_irreflexive(a: Seq<u8>)
    ensures
        !lex_lt(a, a),
    decreases a.len(),
{
    if a.len() > 0 {
        lemma_lex_lt_irreflexive(a.drop_first());
    }
}

pub proof fn lemma_lex_lt_transitive(a: Seq<u8>, b: Seq<u8>, c: Seq<u8>)
    requires
        lex_lt(a, b),
        lex_lt(b, c),
    ensures
        lex_lt(a, c),
    decreases a.len(),
{
    if a.len() > 0 && b.len() > 0 && c.len() > 0 && a[0] == b[0] && b[0] == c[0] {
        lemma_lex_lt_transitive(a.drop_first(), b.drop_first(), c.drop_first());
    }
}

pub proof fn lemma_lex_lt_total(a: Seq<u8>, b: Seq<u8>)
    requires
        a != b,
    ensures
        lex_lt(a, b) || lex_lt(b, a),
    decreases a.len(),
{
    if a.len() > 0 && b.len() > 0 && a[0] == b[0] {
        if a.drop_first() == b.drop_first() {
            assert(a == seq![a[0]] + a.drop_first());
            assert(b == seq![b[0]] + b.drop_first());
        }
        lemma_lex_lt_total(a.drop_first(), b.drop_first());
    } else if a.len() == 0 && b.len() == 0 {
        assert(a == b);
    }
}

/// Entry `i` is listed before entry `j`: its name sorts first, or the names are equal
/// and it came first.
pub open spec fn listed_before(es: Seq<DirEntryInfo>, i: int, j: int) -> bool {
    lex_lt(es[i].sort_key@, es[j].sort_key@) || (es[i].sort_key@ == es[j].sort_key@ && i < j)
}

/// `rs` are the repositories among `es`, entry `order[k]` giving `rs[k]`, in listing order.
pub open spec fn lists_repos(es: Seq<DirEntryInfo>, rs: Seq<Repo>, order: Seq<int>) -> bool {
    &&& rs.len() == order.len()
    &&& forall|k: int|
        0 <= k < order.len() ==> {
            &&& 0 <= #[trigger] order[k] < es.len()
            &&& repo_kind(es[order[k]]) == Some(rs[k].kind)
            &&& rs[k].name == es[order[k]].name
            &&& rs[k].path == es[order[k]].path
        }
    &&& forall|k: int, l: int|
        0 <= k < l < order.len() ==> listed_before(es, #[trigger] order[k], #[trigger] order[l])
    &&& forall|i: int|
        0 <= i < es.len() && (#[trigger] repo_kind(es[i])) is Some ==> exists|k: int|
            0 <= k < order.len() && order[k] == i
}

/// Byte-wise comparison of two names.
pub fn key_less(a: &Vec<u8>, b: &Vec<u8>) -> (r: bool)
    ensures
        r == lex_lt(a@, b@),
{
    let mut i: usize = 0;
    assert(a@.skip(0) == a@ && b@.skip(0) == b@);
    while i < a.len() && i < b.len() && a[i] == b[i]
        invariant
            i <= a.len(),
            i <= b.len(),
            lex_lt(a@, b@) == lex_lt(a@.skip(i as int), b@.skip(i as int)),
        decreases a.len() - i,
    {
        assert(a@.skip(i as int).drop_first() == a@.skip(i + 1));
        assert(b@.skip(i as int).drop_first() == b@.skip(i + 1));
        i = i + 1;
    }
    if i == a.len() {
        i < b.len()
    } else if i == b.len() {
        false
    } else {
        a[i] < b[i]
    }
}

/// The repositories among `entries`, in the byte order of their names (entries with
/// equal names keep their order): each directory with a `.jj` directory is a jj
/// repository, each other directory with a `.git` entry a git repository; all other
/// entries are left out.
pub fn discover_repos(entries: Vec<DirEntryInfo>) -> (repos: Vec<Repo>)
    ensures
        exists|order: Seq<int>| lists_repos(entries@, repos@, order),
{
    let ghost es = entries@;
    let n: usize = entries.len();
    let mut repos: Vec<Repo> = Vec::new();
    let mut keys: Vec<Vec<u8>> = Vec::new();
    let ghost mut order: Seq<int> = seq![];
    let mut idx: usize = 0;
    for e in iter: entries
        invariant
            es == iter.seq(),
            es.len() == n,
            idx == iter.index(),
            idx <= es.len(),
            keys.len() == repos.len(),
            forall|k: int| 0 <= k < keys.len() ==> (#[trigger] keys@[k])@ == es[order[k]].sort_key@,
            forall|k: int| 0 <= k < order.len() ==> #[trigger] order[k] < idx,
            lists_repos(es.take(idx as int), repos@, order),
    {
        let ghost pre = es.take(idx as int);
        let ghost next = es.take(idx + 1);
        assert(e == es[idx as int]);
        assert forall|j: int| 0 <= j < idx implies #[trigger] next[j] == pre[j] by {}
        assert(next[idx as int] == e);
        let kind: Option<RepoKind> = if !e.is_dir {
            None
        } else if e.has_jj_dir {
            Some(RepoKind::Jj)
        } else if e.has_git {
            Some(RepoKind::Git)
        } else {
            None
        };
        match kind {
            None => {
                assert(lists_repos(next, repos@, order)) by {
                    assert forall|i: int|
                        0 <= i < next.len() && (#[trigger] repo_kind(next[i])) is Some implies exists|
                        k: int,
                    | 0 <= k < order.len() && order[k] == i by {
                        assert(repo_kind(pre[i]) is Some);
                    }
                }
            },
            Some(kind) => {
                let mut p: usize = 0;
                while p < keys.len() && !key_less(&e.sort_key, &keys[p])
                    invariant
                        p <= keys.len(),
                        forall|k: int|
                            0 <= k < p ==> !lex_lt(e.sort_key@, (#[trigger] keys@[k])@),
                    decreases keys.len() - p,
                {
                    p = p + 1;
                }
                let ghost old_order = order;
                let ghost old_repos = repos@;
                let ghost old_keys = keys@;
                let ghost i = idx as int;
                proof {
                    order = order.insert(p as int, i);
                    // Entries listed before the insertion point sort no later than the new one.
                    assert forall|k: int| 0 <= k < p implies listed_before(es, old_order[k], i) by {
                        let kk = keys@[k]@;
                        if kk != e.sort_key@ {
                            lemma_lex_lt_total(kk, e.sort_key@);
                        }
                    }
                    // The new entry sorts before all entries from the insertion point on.
                    assert forall|k: int| p <= k < old_order.len() implies listed_before(
                        es,
                        i,
                        old_order[k],
                    ) by {
                        let kp = keys@[p as int]@;
                        assert(lex_lt(e.sort_key@, kp));
                        if k > p {
                            assert(listed_before(pre, old_order[p as int], old_order[k]));
                            if lex_lt(kp, keys@[k]@) {
                                lemma_lex_lt_transitive(e.sort_key@, kp, keys@[k]@);
                            }
                        }
                    }
                }
                let repo = Repo { name: e.name, path: e.path, kind };
                repos.insert(p, repo);
                keys.insert(p, e.sort_key);
                proof {
                    assert(order.len() == repos@.len());
                    assert forall|k: int| 0 <= k < order.len() implies {
                        &&& 0 <= #[trigger] order[k] < next.len()
                        &&& repo_kind(next[order[k]]) == Some(repos@[k].kind)
                        &&& repos@[k].name == next[order[k]].name
                        &&& repos@[k].path == next[order[k]].path
                    } by {
                        if k < p {
                            assert(order[k] == old_order[k] && repos@[k] == old_repos[k]);
                        } else if k > p {
                            assert(order[k] == old_order[k - 1] && repos@[k] == old_repos[k - 1]);
                        }
                    }
                    assert forall|k: int, l: int| 0 <= k < l < order.len() implies listed_before(
                        next,
                        #[trigger] order[k],
                        #[trigger] order[l],
                    ) by {
                        if k < p && l < p {
                            assert(listed_before(pre, old_order[k], old_order[l]));
                        } else if k < p && l == p {
                        } else if k < p && l > p {
                            assert(listed_before(pre, old_order[k], old_order[l - 1]));
                        } else if k == p {
                        } else {
                            assert(listed_before(pre, old_order[k - 1], old_order[l - 1]));
                        }
                    }
                    assert forall|j: int|
                        0 <= j < next.len() && (#[trigger] repo_kind(next[j])) is Some implies exists|
                        k: int,
                    | 0 <= k < order.len() && order[k] == j by {
                        if j < i {
                            assert(repo_kind(pre[j]) is Some);
                            let k0 = choose|k0: int| 0 <= k0 < old_order.len() && old_order[k0] == j;
                            if k0 < p {
                                assert(order[k0] == j);
                            } else {
                                assert(order[k0 + 1] == j);
                            }
                        } else {
                            assert(order[p as int] == j);
                        }
                    }
                    assert forall|k: int| 0 <= k < keys.len() implies (#[trigger] keys@[k])@
                        == es[order[k]].sort_key@ by {
                        if k < p {
                            assert(keys@[k] == old_keys[k]);
                        } else if k > p {
                            assert(keys@[k] == old_keys[k - 1]);
                        }
                    }
                }
            },
        }
        idx = idx + 1;
    }
    assert(es.take(es.len() as int) == es);
    repos
}


proof fn lemma_listed_before_asymmetric(es: Seq<DirEntryInfo>, i: int, j: int)
    requires
        listed_before(es, i, j),
    ensures
        !listed_before(es, j, i),
{
    let a = es[i].sort_key@;
    let b = es[j].sort_key@;
    lemma_lex_lt_irreflexive(a);
    lemma_lex_lt_irreflexive(b);
    if lex_lt(a, b) && lex_lt(b, a) {
        lemma_lex_lt_transitive(a, b, a);
    }
}

/// Two listing orders of the same entries, each strictly in listing order, are the same.
proof fn lemma_sorted_orders_equal(es: Seq<DirEntryInfo>, o1: Seq<int>, o2: Seq<int>)
    requires
        forall|k: int, l: int|
            0 <= k < l < o1.len() ==> listed_before(es, #[trigger] o1[k], #[trigger] o1[l]),
        forall|k: int, l: int|
            0 <= k < l < o2.len() ==> listed_before(es, #[trigger] o2[k], #[trigger] o2[l]),
        forall|i: int| o1.contains(i) <==> o2.contains(i),
    ensures
        o1 == o2,
    decreases o1.len(),
{
    if o1.len() == 0 {
        if o2.len() > 0 {
            assert(o2.contains(o2[0]));
        }
        assert(o1 =~= o2);
    } else {
        assert(o1.contains(o1[0]));
        assert(o2.len() > 0);
        assert(o2.contains(o2[0]));
        let m = choose|m: int| 0 <= m < o1.len() && o1[m] == o2[0];
        let n = choose|n: int| 0 <= n < o2.len() && o2[n] == o1[0];
        if o1[0] != o2[0] {
            assert(m > 0 && n > 0);
            assert(listed_before(es, o1[0], o1[m]));
            assert(listed_before(es, o2[0], o2[n]));
            lemma_listed_before_asymmetric(es, o1[0], o2[0]);
        }
        let r1 = o1.drop_first();
        let r2 = o2.drop_first();
        assert forall|k: int, l: int| 0 <= k < l < r1.len() implies listed_before(
            es,
            #[trigger] r1[k],
            #[trigger] r1[l],
        ) by {
            assert(listed_before(es, o1[k + 1], o1[l + 1]));
        }
        assert forall|k: int, l: int| 0 <= k < l < r2.len() implies listed_before(
            es,
            #[trigger] r2[k],
            #[trigger] r2[l],
        ) by {
            assert(listed_before(es, o2[k + 1], o2[l + 1]));
        }
        assert forall|i: int| r1.contains(i) implies r2.contains(i) by {
            let k = choose|k: int| 0 <= k < r1.len() && r1[k] == i;
            assert(listed_before(es, o1[0], o1[k + 1]));
            lemma_lex_lt_irreflexive(es[o1[0]].sort_key@);
            assert(o1.contains(i));
            let l = choose|l: int| 0 <= l < o2.len() && o2[l] == i;
            assert(l != 0);
            assert(r2[l - 1] == i);
        }
        assert forall|i: int| r2.contains(i) implies r1.contains(i) by {
            let k = choose|k: int| 0 <= k < r2.len() && r2[k] == i;
            assert(listed_before(es, o2[0], o2[k + 1]));
            lemma_lex_lt_irreflexive(es[o2[0]].sort_key@);
            assert(o2.contains(i));
            let l = choose|l: int| 0 <= l < o1.len() && o1[l] == i;
            assert(l != 0);
            assert(r1[l - 1] == i);
        }
        lemma_sorted_orders_equal(es, r1, r2);
        assert(o1 =~= o2) by {
            assert forall|k: int| 0 <= k < o1.len() implies o1[k] == o2[k] by {
                if k > 0 {
                    assert(o1[k] == r1[k - 1]);
                }
            }
        }
    }
}

/// `lists_repos` fixes the list: for the same entries, any two lists it admits are
/// equal, element by element and in order.
pub proof fn lemma_listing_is_unique(
    es: Seq<DirEntryInfo>,
    rs1: Seq<Repo>,
    o1: Seq<int>,
    rs2: Seq<Repo>,
    o2: Seq<int>,
)
    requires
        lists_repos(es, rs1, o1),
        lists_repos(es, rs2, o2),
    ensures
        o1 == o2,
        rs1 == rs2,
{
    assert forall|i: int| o1.contains(i) implies o2.contains(i) by {
        let k = choose|k: int| 0 <= k < o1.len() && o1[k] == i;
        assert(repo_kind(es[o1[k]]) is Some);
    }
    assert forall|i: int| o2.contains(i) implies o1.contains(i) by {
        let k = choose|k: int| 0 <= k < o2.len() && o2[k] == i;
        assert(repo_kind(es[o2[k]]) is Some);
    }
    lemma_sorted_orders_equal(es, o1, o2);
    assert forall|k: int| 0 <= k < rs1.len() implies rs1[k] == rs2[k] by {
        assert(o1[k] == o2[k]);
    }
    assert(rs1 =~= rs2);
}

/// Index `i` after an entry is inserted at `p`.
pub open spec fn shift(i: int, p: int) -> int {
    if i < p {
        i
    } else {
        i + 1
    }
}

/// Non-repositories are skipped: adding an entry that is not a repository (a plain
/// file, or a directory with neither a `.jj` directory nor a `.git` entry) anywhere
/// among the entries leaves the list of repositories exactly as it was.
pub proof fn lemma_non_repository_ignored(
    es: Seq<DirEntryInfo>,
    p: int,
    x: DirEntryInfo,
    rs1: Seq<Repo>,
    o1: Seq<int>,
    rs2: Seq<Repo>,
    o2: Seq<int>,
)
    requires
        0 <= p <= es.len(),
        repo_kind(x) is None,
        lists_repos(es, rs1, o1),
        lists_repos(es.insert(p, x), rs2, o2),
    ensures
        rs1 == rs2,
{
    let es2 = es.insert(p, x);
    let o1s = o1.map_values(|i: int| shift(i, p));
    assert forall|i: int| 0 <= i < es.len() implies #[trigger] es2[shift(i, p)]
        == es[i] by {}
    assert(lists_repos(es2, rs1, o1s)) by {
        assert forall|k: int| 0 <= k < o1s.len() implies {
            &&& 0 <= #[trigger] o1s[k] < es2.len()
            &&& repo_kind(es2[o1s[k]]) == Some(rs1[k].kind)
            &&& rs1[k].name == es2[o1s[k]].name
            &&& rs1[k].path == es2[o1s[k]].path
        } by {
            let i = o1[k];
            assert(es2[shift(i, p)] == es[i]);
        }
        assert forall|k: int, l: int| 0 <= k < l < o1s.len() implies listed_before(
            es2,
            #[trigger] o1s[k],
            #[trigger] o1s[l],
        ) by {
            let i = o1[k];
            let j = o1[l];
            assert(listed_before(es, i, j));
            assert(es2[shift(i, p)] == es[i]);
            assert(es2[shift(j, p)] == es[j]);
        }
        assert forall|j: int|
            0 <= j < es2.len() && (#[trigger] repo_kind(es2[j])) is Some implies exists|k: int|
            0 <= k < o1s.len() && o1s[k] == j by {
            assert(j != p);
            let i = if j < p { j } else { j - 1 };
            assert(es2[shift(i, p)] == es[i]);
            assert(repo_kind(es[i]) is Some);
            let k = choose|k: int| 0 <= k < o1.len() && o1[k] == i;
            assert(o1s[k] == j);
        }
    }
    lemma_listing_is_unique(es2, rs1, o1s, rs2, o2);
}

} // verus!
