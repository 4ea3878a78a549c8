//! Change detection: which packages own the paths that changed between two
//! commits.
use vstd::prelude::*;
use crate::order::{
    lemma_name_le_antisymmetric, lemma_name_le_reflexive, lemma_name_le_total,
    lemma_name_le_transitive, name_le, str_name_le,
};
use crate::package::{Package, PackageView, views};
use crate::text::{starts_with, str_eq};

verus! {

/// One changed entry of a tree-to-tree diff: its path on the old side and on
/// the new side, where the entry exists there.
#[derive(Debug, Clone)]
pub struct FileChange {
    pub old_path: Option<String>,
    pub new_path: Option<String>,
}

/// The name of the first package in `pkgs` whose path is a prefix of `p`.
pub open spec fn owner(pkgs: Seq<PackageView>, p: Seq<char>) -> Option<Seq<char>>
    decreases pkgs.len(),
{
    if pkgs.len() == 0 {
        None
    } else if pkgs[0].path.is_prefix_of(p) {
        Some(pkgs[0].name)
    } else {
        owner(pkgs.drop_first(), p)
    }
}

/// The owner of a path that may be absent, as a set of at most one name.
pub open spec fn owners_of(pkgs: Seq<PackageView>, p: Option<String>) -> Set<Seq<char>> {
    match p {
        Some(s) => match owner(pkgs, s@) {
            Some(n) => set![n],
            None => Set::empty(),
        },
        None => Set::empty(),
    }
}

/// The names of the packages that own a path, old or new, of the changes `cs`.
pub open spec fn owned_names(cs: Seq<FileChange>, pkgs: Seq<PackageView>) -> Set<Seq<char>>
    decreases cs.len(),
{
    if cs.len() == 0 {
        Set::empty()
    } else {
        owned_names(cs.drop_last(), pkgs).union(owners_of(pkgs, cs.last().old_path)).union(
            owners_of(pkgs, cs.last().new_path),
        )
    }
}

/// The views of a sequence of strings.
pub open spec fn string_views(s: Seq<String>) -> Seq<Seq<char>> {
    s.map_values(|x: String| x@)
}

/// Every name of `s` comes strictly before the next: sorted, no duplicates.
pub open spec fn strictly_sorted(s: Seq<Seq<char>>) -> bool {
    forall|i: int, j: int|
        0 <= i < j < s.len() ==> name_le(#[trigger] s[i], #[trigger] s[j]) && s[i] != s[j]
}

/// `r` is the change set of `cs` over `pkgs`: the owning package names,
/// sorted, each once.
pub open spec fn is_change_set(cs: Seq<FileChange>, pkgs: Seq<PackageView>, r: Seq<Seq<char>>) -> bool {
    &&& strictly_sorted(r)
    &&& forall|x: Seq<char>| r.contains(x) <==> owned_names(cs, pkgs).contains(x)
}

/// The index of the first package whose path is a prefix of `path`.
fn find_owner(path: &str, packages: &Vec<Package>) -> (r: Option<usize>)
    ensures
        match r {
            Some(k) => k < packages@.len() && owner(views(packages@), path@) == Some(
                packages@[k as int].name@,
            ),
            None => owner(views(packages@), path@) is None,
        },
{
    let ghost pv = views(packages@);
    let n = packages.len();
    let mut i: usize = 0;
    proof {
        assert(pv.subrange(0, n as int) =~= pv);
    }
    while i < n
        invariant
            n == packages@.len(),
            pv == views(packages@),
            i <= n,
            owner(pv, path@) == owner(pv.subrange(i as int, n as int), path@),
        decreases n - i,
    {
        let ghost sub = pv.subrange(i as int, n as int);
        proof {
            assert(sub[0] == packages@[i as int]@);
            assert(sub.drop_first() =~= pv.subrange(i as int + 1, n as int));
        }
        if starts_with(path, packages[i].path.as_str()) {
            return Some(i);
        }
        i = i + 1;
    }
    None
}

/// Adds `n` to the strictly sorted names `out`, unless it is there already.
fn insert_name(out: &mut Vec<String>, n: String)
    requires
        strictly_sorted(string_views(old(out)@)),
    ensures
        strictly_sorted(string_views(final(out)@)),
        forall|x: Seq<char>|
            string_views(final(out)@).contains(x) <==> (string_views(old(out)@).contains(x) || x
                == n@),
{
    let ghost ov = string_views(out@);
    let mut j: usize = 0;
    while j < out.len() && !str_name_le(n.as_str(), out[j].as_str())
        invariant
            j <= out@.len(),
            ov == string_views(out@),
            forall|k: int| 0 <= k < j ==> !name_le(n@, #[trigger] out@[k]@),
        decreases out@.len() - j,
    {
        j = j + 1;
    }
    if j < out.len() && str_eq(out[j].as_str(), n.as_str()) {
        proof {
            assert(ov[j as int] == n@);
        }
        return;
    }
    proof {
        assert forall|k: int| 0 <= k < j implies name_le(#[trigger] ov[k], n@) && ov[k] != n@ by {
            lemma_name_le_total(n@, ov[k]);
            assert(!name_le(n@, out@[k]@));
            lemma_name_le_reflexive(n@);
        }
        if j < ov.len() {
            assert(name_le(n@, ov[j as int]) && ov[j as int] != n@);
            assert forall|k: int| j < k < ov.len() implies name_le(n@, #[trigger] ov[k]) && ov[k]
                != n@ by {
                lemma_name_le_transitive(n@, ov[j as int], ov[k]);
                if ov[k] == n@ {
                    lemma_name_le_antisymmetric(ov[j as int], n@);
                }
            }
        }
    }
    let ghost nn = n@;
    out.insert(j, n);
    proof {
        let nv = ov.insert(j as int, nn);
        assert(string_views(out@) =~= nv);
        assert forall|a: int, b: int| 0 <= a < b < nv.len() implies name_le(
            #[trigger] nv[a],
            #[trigger] nv[b],
        ) && nv[a] != nv[b] by {
            if b < j {
            } else if b == j {
            } else if a < j {
                assert(nv[b] == ov[b - 1]);
            } else if a == j {
                assert(nv[b] == ov[b - 1]);
            } else {
                assert(nv[a] == ov[a - 1] && nv[b] == ov[b - 1]);
            }
        }
        assert forall|x: Seq<char>| nv.contains(x) <==> (ov.contains(x) || x == nn) by {
            if nv.contains(x) {
                let k = choose|k: int| 0 <= k < nv.len() && nv[k] == x;
                if k < j {
                    assert(ov[k] == x);
                } else if k > j {
                    assert(ov[k - 1] == x);
                }
            }
            if ov.contains(x) {
                let k = choose|k: int| 0 <= k < ov.len() && ov[k] == x;
                if k < j {
                    assert(nv[k] == x);
                } else {
                    assert(nv[k + 1] == x);
                }
            }
            if x == nn {
                assert(nv[j as int] == x);
            }
        }
    }
}

/// Records in `out` the owner, if any, of the path `p`.
fn record_owner(p: &Option<String>, packages: &Vec<Package>, out: &mut Vec<String>)
    requires
        strictly_sorted(string_views(old(out)@)),
    ensures
        strictly_sorted(string_views(final(out)@)),
        forall|x: Seq<char>|
            string_views(final(out)@).contains(x) <==> (string_views(old(out)@).contains(x)
                || owners_of(views(packages@), *p).contains(x)),
{
    match p {
        Some(path) => match find_owner(path.as_str(), packages) {
            Some(k) => {
                insert_name(out, packages[k].name.clone());
            },
            None => {},
        },
        None => {},
    }
}

/// The names of the packages that own a path changed by `changes`, sorted
/// and each once. A changed path belongs to the first package, in the order
/// of `packages`, whose path is a prefix of it; both the old and the new
/// path of each change count, so that renames and deletions are seen from
/// both sides. Paths that no package owns are dropped.
pub fn find_changed_packages_between_commits(
    changes: &Vec<FileChange>,
    packages: &Vec<Package>,
) -> (r: Vec<String>)
    ensures
        is_change_set(changes@, views(packages@), string_views(r@)),
{
    let mut out: Vec<String> = Vec::new();
    let mut i: usize = 0;
    let ghost pv = views(packages@);
    proof {
        assert(changes@.subrange(0, 0) =~= Seq::<FileChange>::empty());
        assert(string_views(out@) =~= Seq::<Seq<char>>::empty());
    }
    while i < changes.len()
        invariant
            i <= changes@.len(),
            pv == views(packages@),
            strictly_sorted(string_views(out@)),
            forall|x: Seq<char>|
                string_views(out@).contains(x) <==> owned_names(
                    changes@.subrange(0, i as int),
                    pv,
                ).contains(x),
        decreases changes@.len() - i,
    {
        let c = &changes[i];
        let ghost pre = changes@.subrange(0, i as int + 1);
        proof {
            assert(pre.drop_last() =~= changes@.subrange(0, i as int));
            assert(pre.last() == *c);
        }
        record_owner(&c.new_path, packages, &mut out);
        record_owner(&c.old_path, packages, &mut out);
        i = i + 1;
    }
    proof {
        assert(changes@.subrange(0, changes@.len() as int) =~= changes@);
    }
    out
}

/// Where the base of the comparison comes from.
#[derive(Debug, Clone)]
pub enum BaseChoice {
    /// Compare HEAD against this revision: the explicit base ref, or the id
    /// of HEAD's first parent.
    Revision(String),
    /// There is no prior state: every package counts as changed.
    FullRebuild,
}

/// The base chosen from an explicit base ref, if any, and else from HEAD's
/// first parent, if it could be resolved.
pub open spec fn select_base_spec(base_ref: Option<Seq<char>>, head_parent: Option<Seq<char>>) -> Option<
    Seq<char>,
> {
    match base_ref {
        Some(r) => Some(r),
        None => head_parent,
    }
}

pub open spec fn opt_view(o: Option<String>) -> Option<Seq<char>> {
    match o {
        Some(s) => Some(s@),
        None => None,
    }
}

/// Chooses the base of the comparison. An explicit base ref is used as it
/// is. Without one, HEAD's first parent is used; where HEAD has none (a
/// root commit) or it could not be resolved, every package is reported.
pub fn select_base(base_ref: Option<String>, head_parent: Option<String>) -> (r: BaseChoice)
    ensures
        match r {
            BaseChoice::Revision(rev) => select_base_spec(opt_view(base_ref), opt_view(head_parent))
                == Some(rev@),
            BaseChoice::FullRebuild => select_base_spec(opt_view(base_ref), opt_view(head_parent))
                is None,
        },
{
    match base_ref {
        Some(r) => BaseChoice::Revision(r),
        None => match head_parent {
            Some(p) => BaseChoice::Revision(p),
            None => BaseChoice::FullRebuild,
        },
    }
}

/// What is known of the commit range once its base is settled.
#[derive(Debug, Clone)]
pub enum CommitRange {
    /// No base: the whole tree counts as changed.
    FullRebuild,
    /// The changes of the tree-to-tree diff from the base to HEAD.
    Diff(Vec<FileChange>),
}

/// The names of `pkgs`, in order.
pub open spec fn package_names(pkgs: Seq<PackageView>) -> Seq<Seq<char>> {
    pkgs.map_values(|p: PackageView| p.name)
}

/// What change detection reports for `range` over the discovered `pkgs`.
pub open spec fn detect_result(range: CommitRange, pkgs: Seq<PackageView>, r: Seq<Seq<char>>) -> bool {
    match range {
        CommitRange::FullRebuild => r == package_names(pkgs),
        CommitRange::Diff(cs) => is_change_set(cs@, pkgs, r),
    }
}

/// The names of the packages that changed over `range`: for a full rebuild
/// the names of all `packages` in their order, and otherwise the change set
/// of the diff.
pub fn detect_changed_packages(packages: &Vec<Package>, range: &CommitRange) -> (r: Vec<String>)
    ensures
        detect_result(*range, views(packages@), string_views(r@)),
{
    match range {
        CommitRange::FullRebuild => {
            let mut out: Vec<String> = Vec::new();
            let mut i: usize = 0;
            while i < packages.len()
                invariant
                    i <= packages@.len(),
                    string_views(out@) == package_names(views(packages@)).subrange(0, i as int),
                decreases packages@.len() - i,
            {
                let ghost before = out@;
                let nm = packages[i].name.clone();
                out.push(nm);
                proof {
                    assert(nm@ == views(packages@)[i as int].name);
                    assert(out@ == before.push(nm));
                    assert(string_views(out@) =~= string_views(before).push(nm@));
                    assert(string_views(out@) =~= package_names(views(packages@)).subrange(
                        0,
                        i as int + 1,
                    ));
                }
                i = i + 1;
            }
            proof {
                assert(package_names(views(packages@)).subrange(0, packages@.len() as int)
                    =~= package_names(views(packages@)));
            }
            out
        },
        CommitRange::Diff(changes) => find_changed_packages_between_commits(changes, packages),
    }
}

/// Two strictly sorted sequences that hold the same names are equal.
pub proof fn lemma_strictly_sorted_unique(a: Seq<Seq<char>>, b: Seq<Seq<char>>)
    requires
        strictly_sorted(a),
        strictly_sorted(b),
        forall|x: Seq<char>| a.contains(x) <==> b.contains(x),
    ensures
        a == b,
    decreases a.len(),
{
    if a.len() == 0 {
        if b.len() > 0 {
            assert(b.contains(b[0]));
        }
        assert(a =~= b);
    } else {
        assert(a.contains(a[0]));
        let k = choose|k: int| 0 <= k < b.len() && b[k] == a[0];
        assert(b.contains(b[0]));
        let m = choose|m: int| 0 <= m < a.len() && a[m] == b[0];
        if k > 0 {
            assert(name_le(b[0], b[k]));
        } else {
            lemma_name_le_reflexive(b[0]);
        }
        if m > 0 {
            assert(name_le(a[0], a[m]));
        } else {
            lemma_name_le_reflexive(a[0]);
        }
        lemma_name_le_antisymmetric(a[0], b[0]);
        let ta = a.drop_first();
        let tb = b.drop_first();
        assert forall|x: Seq<char>| ta.contains(x) <==> tb.contains(x) by {
            if ta.contains(x) {
                let i = choose|i: int| 0 <= i < ta.len() && ta[i] == x;
                assert(a[i + 1] == x && a[0] != a[i + 1]);
                assert(a.contains(x));
                let j = choose|j: int| 0 <= j < b.len() && b[j] == x;
                assert(j != 0);
                assert(tb[j - 1] == x);
            }
            if tb.contains(x) {
                let i = choose|i: int| 0 <= i < tb.len() && tb[i] == x;
                assert(b[i + 1] == x && b[0] != b[i + 1]);
                assert(b.contains(x));
                let j = choose|j: int| 0 <= j < a.len() && a[j] == x;
                assert(j != 0);
                assert(ta[j - 1] == x);
            }
        }
        assert forall|i: int, j: int| 0 <= i < j < ta.len() implies name_le(
            #[trigger] ta[i],
            #[trigger] ta[j],
        ) && ta[i] != ta[j] by {
            assert(ta[i] == a[i + 1] && ta[j] == a[j + 1]);
        }
        assert forall|i: int, j: int| 0 <= i < j < tb.len() implies name_le(
            #[trigger] tb[i],
            #[trigger] tb[j],
        ) && tb[i] != tb[j] by {
            assert(tb[i] == b[i + 1] && tb[j] == b[j + 1]);
        }
        lemma_strictly_sorted_unique(ta, tb);
        assert(a =~= seq![a[0]] + ta);
        assert(b =~= seq![b[0]] + tb);
    }
}

/// Change detection is idempotent: for the same changes and the same
/// packages it yields the same sorted name sequence every time.
pub proof fn lemma_change_set_deterministic(
    cs: Seq<FileChange>,
    pkgs: Seq<PackageView>,
    r1: Seq<Seq<char>>,
    r2: Seq<Seq<char>>,
)
    requires
        is_change_set(cs, pkgs, r1),
        is_change_set(cs, pkgs, r2),
    ensures
        r1 == r2,
{
    lemma_strictly_sorted_unique(r1, r2);
}

/// No package path is a prefix of `p`, where `p` is present.
pub open spec fn outside_all(pkgs: Seq<PackageView>, p: Option<String>) -> bool {
    match p {
        Some(s) => forall|j: int| 0 <= j < pkgs.len() ==> !(#[trigger] pkgs[j]).path.is_prefix_of(s@),
        None => true,
    }
}

proof fn lemma_owner_none(pkgs: Seq<PackageView>, p: Seq<char>)
    requires
        forall|j: int| 0 <= j < pkgs.len() ==> !(#[trigger] pkgs[j]).path.is_prefix_of(p),
    ensures
        owner(pkgs, p) is None,
    decreases pkgs.len(),
{
    if pkgs.len() > 0 {
        assert(!pkgs[0].path.is_prefix_of(p));
        assert forall|j: int| 0 <= j < pkgs.drop_first().len() implies !(
        #[trigger] pkgs.drop_first()[j]).path.is_prefix_of(p) by {
            assert(pkgs.drop_first()[j] == pkgs[j + 1]);
        }
        lemma_owner_none(pkgs.drop_first(), p);
    }
}

proof fn lemma_owned_names_empty(cs: Seq<FileChange>, pkgs: Seq<PackageView>)
    requires
        forall|k: int|
            0 <= k < cs.len() ==> outside_all(pkgs, (#[trigger] cs[k]).old_path) && outside_all(
                pkgs,
                cs[k].new_path,
            ),
    ensures
        owned_names(cs, pkgs) =~= Set::<Seq<char>>::empty(),
    decreases cs.len(),
{
    if cs.len() > 0 {
        let c = cs.last();
        assert(outside_all(pkgs, cs[cs.len() - 1].old_path));
        assert(outside_all(pkgs, cs[cs.len() - 1].new_path));
        if let Some(s) = c.old_path {
            lemma_owner_none(pkgs, s@);
        }
        if let Some(s) = c.new_path {
            lemma_owner_none(pkgs, s@);
        }
        assert forall|k: int| 0 <= k < cs.drop_last().len() implies outside_all(
            pkgs,
            (#[trigger] cs.drop_last()[k]).old_path,
        ) && outside_all(pkgs, cs.drop_last()[k].new_path) by {
            assert(cs.drop_last()[k] == cs[k]);
        }
        lemma_owned_names_empty(cs.drop_last(), pkgs);
    }
}

/// Where every changed path lies outside every package path, nothing is
/// reported.
pub proof fn lemma_unowned_changes_report_nothing(
    cs: Seq<FileChange>,
    pkgs: Seq<PackageView>,
    r: Seq<Seq<char>>,
)
    requires
        forall|k: int|
            0 <= k < cs.len() ==> outside_all(pkgs, (#[trigger] cs[k]).old_path) && outside_all(
                pkgs,
                cs[k].new_path,
            ),
        is_change_set(cs, pkgs, r),
    ensures
        r.len() == 0,
{
    lemma_owned_names_empty(cs, pkgs);
    if r.len() > 0 {
        assert(r.contains(r[0]));
    }
}

/// No package path is a prefix of another package's path.
pub open spec fn paths_unambiguous(pkgs: Seq<PackageView>) -> bool {
    forall|i: int, j: int|
        0 <= i < pkgs.len() && 0 <= j < pkgs.len() && i != j ==> !(#[trigger] pkgs[i]).path.is_prefix_of(
            (#[trigger] pkgs[j]).path,
        )
}

proof fn lemma_owner_first(pkgs: Seq<PackageView>, p: Seq<char>, a: int)
    requires
        0 <= a < pkgs.len(),
        pkgs[a].path.is_prefix_of(p),
        forall|i: int| 0 <= i < a ==> !(#[trigger] pkgs[i]).path.is_prefix_of(p),
    ensures
        owner(pkgs, p) == Some(pkgs[a].name),
    decreases a,
{
    if a > 0 {
        assert(!pkgs[0].path.is_prefix_of(p));
        assert forall|i: int| 0 <= i < a - 1 implies !(
        #[trigger] pkgs.drop_first()[i]).path.is_prefix_of(p) by {
            assert(pkgs.drop_first()[i] == pkgs[i + 1]);
        }
        lemma_owner_first(pkgs.drop_first(), p, a - 1);
    }
}

/// Under unambiguous package paths, a package whose path is a prefix of `p`
/// owns `p`.
proof fn lemma_owner_of_prefix(pkgs: Seq<PackageView>, p: Seq<char>, a: int)
    requires
        paths_unambiguous(pkgs),
        0 <= a < pkgs.len(),
        pkgs[a].path.is_prefix_of(p),
    ensures
        owner(pkgs, p) == Some(pkgs[a].name),
{
    assert forall|i: int| 0 <= i < a implies !(#[trigger] pkgs[i]).path.is_prefix_of(p) by {
        if pkgs[i].path.is_prefix_of(p) {
            let (u, v) = (pkgs[i].path, pkgs[a].path);
            if u.len() <= v.len() {
                assert(u.is_prefix_of(v));
                assert(!pkgs[i].path.is_prefix_of(pkgs[a].path));
            } else {
                assert(v.is_prefix_of(u));
                assert(!pkgs[a].path.is_prefix_of(pkgs[i].path));
            }
        }
    }
    lemma_owner_first(pkgs, p, a);
}

proof fn lemma_owned_names_include(cs: Seq<FileChange>, pkgs: Seq<PackageView>, k: int)
    requires
        0 <= k < cs.len(),
    ensures
        owners_of(pkgs, cs[k].old_path).subset_of(owned_names(cs, pkgs)),
        owners_of(pkgs, cs[k].new_path).subset_of(owned_names(cs, pkgs)),
    decreases cs.len(),
{
    if k < cs.len() - 1 {
        assert(cs.drop_last()[k] == cs[k]);
        lemma_owned_names_include(cs.drop_last(), pkgs, k);
    }
}

/// A change that moves a file from inside package `a` to inside package `b`
/// reports both, where package paths are unambiguous.
pub proof fn lemma_rename_reports_both(
    cs: Seq<FileChange>,
    pkgs: Seq<PackageView>,
    r: Seq<Seq<char>>,
    k: int,
    a: int,
    b: int,
)
    requires
        is_change_set(cs, pkgs, r),
        paths_unambiguous(pkgs),
        0 <= k < cs.len(),
        0 <= a < pkgs.len(),
        0 <= b < pkgs.len(),
        cs[k].old_path is Some,
        cs[k].new_path is Some,
        pkgs[a].path.is_prefix_of(cs[k].old_path->Some_0@),
        pkgs[b].path.is_prefix_of(cs[k].new_path->Some_0@),
    ensures
        r.contains(pkgs[a].name),
        r.contains(pkgs[b].name),
{
    lemma_owner_of_prefix(pkgs, cs[k].old_path->Some_0@, a);
    lemma_owner_of_prefix(pkgs, cs[k].new_path->Some_0@, b);
    lemma_owned_names_include(cs, pkgs, k);
    assert(owners_of(pkgs, cs[k].old_path).contains(pkgs[a].name));
    assert(owners_of(pkgs, cs[k].new_path).contains(pkgs[b].name));
}

proof fn lemma_owner_is_package(pkgs: Seq<PackageView>, p: Seq<char>)
    requires
        owner(pkgs, p) is Some,
    ensures
        exists|j: int| 0 <= j < pkgs.len() && (#[trigger] pkgs[j]).name == owner(pkgs, p)->Some_0,
    decreases pkgs.len(),
{
    if !pkgs[0].path.is_prefix_of(p) {
        lemma_owner_is_package(pkgs.drop_first(), p);
        let j = choose|j: int|
            0 <= j < pkgs.drop_first().len() && (#[trigger] pkgs.drop_first()[j]).name == owner(
                pkgs.drop_first(),
                p,
            )->Some_0;
        assert(pkgs[j + 1] == pkgs.drop_first()[j]);
    } else {
        assert(pkgs[0].name == owner(pkgs, p)->Some_0);
    }
}

proof fn lemma_owned_names_live(cs: Seq<FileChange>, pkgs: Seq<PackageView>, x: Seq<char>)
    requires
        owned_names(cs, pkgs).contains(x),
    ensures
        exists|j: int| 0 <= j < pkgs.len() && (#[trigger] pkgs[j]).name == x,
    decreases cs.len(),
{
    let c = cs.last();
    if owned_names(cs.drop_last(), pkgs).contains(x) {
        lemma_owned_names_live(cs.drop_last(), pkgs, x);
    } else if owners_of(pkgs, c.old_path).contains(x) {
        lemma_owner_is_package(pkgs, c.old_path->Some_0@);
    } else {
        lemma_owner_is_package(pkgs, c.new_path->Some_0@);
    }
}

/// Every reported name is the name of a package discovered now: a package
/// whose directory was deleted is no longer discovered, so changes under its
/// former path are not reported.
pub proof fn lemma_reported_names_are_live(
    cs: Seq<FileChange>,
    pkgs: Seq<PackageView>,
    r: Seq<Seq<char>>,
)
    requires
        is_change_set(cs, pkgs, r),
    ensures
        forall|x: Seq<char>|
            r.contains(x) ==> exists|j: int| 0 <= j < pkgs.len() && (#[trigger] pkgs[j]).name == x,
{
    assert forall|x: Seq<char>| r.contains(x) implies exists|j: int|
        0 <= j < pkgs.len() && (#[trigger] pkgs[j]).name == x by {
        lemma_owned_names_live(cs, pkgs, x);
    }
}

/// With no explicit base ref and no parent of HEAD, every package of the
/// current discovery is reported, in its order.
pub proof fn lemma_root_commit_reports_all(pkgs: Seq<PackageView>, r: Seq<Seq<char>>)
    requires
        detect_result(CommitRange::FullRebuild, pkgs, r),
    ensures
        select_base_spec(None, None) is None,
        r == package_names(pkgs),
        r.len() == pkgs.len(),
        forall|j: int| 0 <= j < pkgs.len() ==> r[j] == (#[trigger] pkgs[j]).name,
{
}

} // verus!
