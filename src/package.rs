//! The package model and package discovery over a snapshot of the tree.
use vstd::multiset::Multiset;
use vstd::prelude::*;
use crate::order::{lemma_name_le_total, lemma_name_le_transitive, name_le, str_name_le};
use crate::text::str_eq;

verus! {

/// A unit of build output: a directory, plain or submodule, with a recipe.
#[derive(Debug, Clone)]
pub struct Package {
    /// Directory name, or the submodule's declared name.
    pub name: String,
    /// Path relative to the repository root; the key of path ownership.
    pub path: String,
    /// Path of the recipe file.
    pub pkgbuild_path: String,
    /// Whether the directory is a checked-out submodule.
    pub is_submodule: bool,
}

/// A package as plain values.
pub struct PackageView {
    pub name: Seq<char>,
    pub path: Seq<char>,
    pub pkgbuild_path: Seq<char>,
    pub is_submodule: bool,
}

impl View for Package {
    type V = PackageView;

    open spec fn view(&self) -> PackageView {
        PackageView {
            name: self.name@,
            path: self.path@,
            pkgbuild_path: self.pkgbuild_path@,
            is_submodule: self.is_submodule,
        }
    }
}

/// The views of a sequence of packages.
pub open spec fn views(s: Seq<Package>) -> Seq<PackageView> {
    s.map_values(|p: Package| p@)
}

/// An entry of a directory, as read from the file system.
#[derive(Debug, Clone)]
pub struct DirEntry {
    /// The entry's file name.
    pub name: String,
    /// Whether the entry is a directory.
    pub is_dir: bool,
    /// The names of the entries that exist directly inside it; empty for a
    /// file or an unreadable directory.
    pub contents: Vec<String>,
}

/// An entry directly under the repository root, with the entries one level
/// further down when it is a readable directory.
#[derive(Debug, Clone)]
pub struct TopEntry {
    pub entry: DirEntry,
    pub children: Vec<DirEntry>,
}

/// A submodule registered in the repository's configuration.
#[derive(Debug, Clone)]
pub struct SubmoduleEntry {
    /// Its declared name, if it has one that can be read as text.
    pub name: Option<String>,
    /// Its working-tree path, relative to the repository root.
    pub path: String,
    /// The names of the entries that exist directly in its working tree.
    pub contents: Vec<String>,
}

/// Whether one of `contents` is named `n`.
pub open spec fn has_entry(contents: Seq<String>, n: Seq<char>) -> bool {
    exists|k: int| 0 <= k < contents.len() && (#[trigger] contents[k])@ == n
}

pub open spec fn marker_name() -> Seq<char> {
    ".git"@
}

pub open spec fn recipe_name() -> Seq<char> {
    "PKGBUILD"@
}

/// A directory with these contents holds a repository marker.
pub open spec fn is_submodule_spec(contents: Seq<String>) -> bool {
    has_entry(contents, marker_name())
}

/// A directory with these contents holds a recipe.
pub open spec fn has_recipe_spec(contents: Seq<String>) -> bool {
    has_entry(contents, recipe_name())
}

/// Names of top-level directories that are never searched: hidden ones,
/// build artifacts, dependency caches, build containers and output
/// repositories.
pub open spec fn excluded_spec(name: Seq<char>) -> bool {
    (name.len() > 0 && name[0] == '.') || name == "target"@ || name == "node_modules"@ || name
        == "build-container"@ || name == "repo"@
}

/// `base` joined with `seg` as a file-system path: an absolute `seg`
/// replaces `base`, and one separator stands between the two.
pub open spec fn join_spec(base: Seq<char>, seg: Seq<char>) -> Seq<char> {
    if seg.len() > 0 && seg[0] == '/' {
        seg
    } else if base.len() == 0 || base.last() == '/' {
        base + seg
    } else {
        base + seq!['/'] + seg
    }
}

/// The last segment of `p`: what follows its last `'/'`.
pub open spec fn last_segment(p: Seq<char>) -> Seq<char>
    decreases p.len(),
{
    if p.len() == 0 || p.last() == '/' {
        Seq::empty()
    } else {
        last_segment(p.drop_last()).push(p.last())
    }
}

/// The name of a submodule that declares none: the last segment of its
/// path, or `unknown` where that is empty.
pub open spec fn fallback_name_spec(p: Seq<char>) -> Seq<char> {
    if last_segment(p).len() == 0 {
        "unknown"@
    } else {
        last_segment(p)
    }
}

/// Whether a directory with these contents is a submodule checkout: it holds
/// a `.git` file or directory.
pub fn is_submodule_dir(contents: &Vec<String>) -> (r: bool)
    ensures
        r == is_submodule_spec(contents@),
{
    contains_name(contents, ".git")
}

/// Whether a directory with these contents holds a recipe.
pub fn has_recipe(contents: &Vec<String>) -> (r: bool)
    ensures
        r == has_recipe_spec(contents@),
{
    contains_name(contents, "PKGBUILD")
}

fn contains_name(contents: &Vec<String>, n: &str) -> (r: bool)
    ensures
        r == has_entry(contents@, n@),
{
    let mut i: usize = 0;
    while i < contents.len()
        invariant
            i <= contents@.len(),
            forall|k: int| 0 <= k < i ==> (#[trigger] contents@[k])@ != n@,
        decreases contents@.len() - i,
    {
        if str_eq(contents[i].as_str(), n) {
            return true;
        }
        i = i + 1;
    }
    false
}

/// Whether a top-level directory of this name is left out of the search.
pub fn is_excluded_name(name: &str) -> (r: bool)
    ensures
        r == excluded_spec(name@),
{
    if name.unicode_len() > 0 && name.get_char(0) == '.' {
        return true;
    }
    str_eq(name, "target") || str_eq(name, "node_modules") || str_eq(name, "build-container")
        || str_eq(name, "repo")
}

/// `base` joined with `seg` as a file-system path.
pub fn join_path(base: &str, seg: &str) -> (r: String)
    ensures
        r@ == join_spec(base@, seg@),
{
    let n = base.unicode_len();
    let m = seg.unicode_len();
    if m > 0 && seg.get_char(0) == '/' {
        String::from_str(seg)
    } else if n == 0 || base.get_char(n - 1) == '/' {
        String::from_str(base).concat(seg)
    } else {
        let r = String::from_str(base).concat("/").concat(seg);
        proof {
            reveal_strlit("/");
        }
        r
    }
}

/// The name of a submodule that declares none.
pub fn fallback_name(path: &str) -> (r: String)
    ensures
        r@ == fallback_name_spec(path@),
{
    let n = path.unicode_len();
    let mut j: usize = n;
    proof {
        assert(path@.subrange(n as int, n as int) =~= Seq::<char>::empty());
        assert(path@.subrange(0, n as int) =~= path@);
    }
    while j > 0 && path.get_char(j - 1) != '/'
        invariant
            n == path@.len(),
            j <= n,
            last_segment(path@) == last_segment(path@.subrange(0, j as int)) + path@.subrange(
                j as int,
                n as int,
            ),
        decreases j,
    {
        let ghost pre = path@.subrange(0, j as int);
        proof {
            assert(pre.drop_last() =~= path@.subrange(0, j - 1));
            assert(pre.last() == path@[j - 1]);
            assert(path@.subrange(j - 1, n as int) =~= seq![pre.last()] + path@.subrange(
                j as int,
                n as int,
            ));
            assert(last_segment(path@.subrange(0, j - 1)).push(pre.last()) + path@.subrange(
                j as int,
                n as int,
            ) =~= last_segment(path@.subrange(0, j - 1)) + path@.subrange(j - 1, n as int));
        }
        j = j - 1;
    }
    proof {
        let pre = path@.subrange(0, j as int);
        assert(last_segment(pre) =~= Seq::<char>::empty());
        assert(last_segment(path@) =~= path@.subrange(j as int, n as int));
    }
    if j == n {
        String::from_str("unknown")
    } else {
        String::from_str(path.substring_char(j, n))
    }
}

/// The package of a qualifying directory `name` one level below the
/// top-level directory `top`.
pub open spec fn child_package(root: Seq<char>, top: Seq<char>, name: Seq<char>) -> PackageView {
    PackageView {
        name: name,
        path: top + seq!['/'] + name,
        pkgbuild_path: join_spec(join_spec(join_spec(root, top), name), recipe_name()),
        is_submodule: false,
    }
}

/// A directory one level down is a package: it is a directory, not a
/// submodule, and holds a recipe.
pub open spec fn child_qualifies(c: DirEntry) -> bool {
    c.is_dir && !is_submodule_spec(c.contents@) && has_recipe_spec(c.contents@)
}

/// The packages found among the entries `cs` of the top-level directory `top`.
pub open spec fn child_packages(root: Seq<char>, top: Seq<char>, cs: Seq<DirEntry>) -> Seq<
    PackageView,
>
    decreases cs.len(),
{
    if cs.len() == 0 {
        Seq::empty()
    } else {
        let p = child_packages(root, top, cs.drop_last());
        if child_qualifies(cs.last()) {
            p.push(child_package(root, top, cs.last().name@))
        } else {
            p
        }
    }
}

/// A top-level entry is not searched: it is a submodule, an excluded name,
/// or no directory.
pub open spec fn top_skipped(e: DirEntry) -> bool {
    is_submodule_spec(e.contents@) || excluded_spec(e.name@) || !e.is_dir
}

/// The package of a top-level directory `name` that holds a recipe.
pub open spec fn top_package(root: Seq<char>, name: Seq<char>) -> PackageView {
    PackageView {
        name: name,
        path: name,
        pkgbuild_path: join_spec(join_spec(root, name), recipe_name()),
        is_submodule: false,
    }
}

/// The packages found at or below one top-level entry: the entry itself if
/// it holds a recipe, otherwise its qualifying children, and nothing deeper.
pub open spec fn top_packages(root: Seq<char>, t: TopEntry) -> Seq<PackageView> {
    if top_skipped(t.entry) {
        Seq::empty()
    } else if has_recipe_spec(t.entry.contents@) {
        seq![top_package(root, t.entry.name@)]
    } else {
        child_packages(root, t.entry.name@, t.children@)
    }
}

/// The plain-directory packages of the top-level entries `ts`, in order.
pub open spec fn direct_packages(root: Seq<char>, ts: Seq<TopEntry>) -> Seq<PackageView>
    decreases ts.len(),
{
    if ts.len() == 0 {
        Seq::empty()
    } else {
        direct_packages(root, ts.drop_last()) + top_packages(root, ts.last())
    }
}

/// The package of a submodule.
pub open spec fn submodule_package(root: Seq<char>, s: SubmoduleEntry) -> PackageView {
    PackageView {
        name: match s.name {
            Some(n) => n@,
            None => fallback_name_spec(s.path@),
        },
        path: s.path@,
        pkgbuild_path: join_spec(join_spec(root, s.path@), recipe_name()),
        is_submodule: true,
    }
}

/// The packages of the submodules `ss` that hold a recipe, in order.
pub open spec fn submodule_packages(root: Seq<char>, ss: Seq<SubmoduleEntry>) -> Seq<PackageView>
    decreases ss.len(),
{
    if ss.len() == 0 {
        Seq::empty()
    } else {
        let p = submodule_packages(root, ss.drop_last());
        if has_recipe_spec(ss.last().contents@) {
            p.push(submodule_package(root, ss.last()))
        } else {
            p
        }
    }
}

/// Every package of the tree: submodules first, then plain directories.
pub open spec fn discovered(root: Seq<char>, ss: Seq<SubmoduleEntry>, ts: Seq<TopEntry>) -> Seq<
    PackageView,
> {
    submodule_packages(root, ss) + direct_packages(root, ts)
}

/// The packages of the submodules that hold a recipe at their root.
pub fn find_submodule_packages(root: &str, submodules: &Vec<SubmoduleEntry>) -> (r: Vec<Package>)
    ensures
        views(r@) == submodule_packages(root@, submodules@),
{
    let mut out: Vec<Package> = Vec::new();
    let mut i: usize = 0;
    proof {
        assert(submodules@.subrange(0, 0) =~= Seq::<SubmoduleEntry>::empty());
        assert(views(out@) =~= Seq::<PackageView>::empty());
    }
    while i < submodules.len()
        invariant
            i <= submodules@.len(),
            views(out@) == submodule_packages(root@, submodules@.subrange(0, i as int)),
        decreases submodules@.len() - i,
    {
        let s = &submodules[i];
        let ghost pre = submodules@.subrange(0, i as int + 1);
        proof {
            assert(pre.drop_last() =~= submodules@.subrange(0, i as int));
            assert(pre.last() == *s);
        }
        if has_recipe(&s.contents) {
            let name = match &s.name {
                Some(n) => n.clone(),
                None => fallback_name(s.path.as_str()),
            };
            let dir = join_path(root, s.path.as_str());
            let p = Package {
                name,
                path: s.path.clone(),
                pkgbuild_path: join_path(dir.as_str(), "PKGBUILD"),
                is_submodule: true,
            };
            let ghost old_out = out@;
            out.push(p);
            proof {
                assert(views(out@) =~= views(old_out).push(p@));
            }
        }
        i = i + 1;
    }
    proof {
        assert(submodules@.subrange(0, submodules@.len() as int) =~= submodules@);
    }
    out
}

/// Appends to `out` the qualifying directories among `children`, the
/// entries of the top-level directory `top`.
fn push_child_packages(root: &str, top: &str, children: &Vec<DirEntry>, out: &mut Vec<Package>)
    ensures
        views(final(out)@) == views(old(out)@) + child_packages(root@, top@, children@),
{
    let ghost start = views(out@);
    let mut i: usize = 0;
    proof {
        assert(children@.subrange(0, 0) =~= Seq::<DirEntry>::empty());
        assert(start + Seq::<PackageView>::empty() =~= start);
    }
    while i < children.len()
        invariant
            i <= children@.len(),
            start == views(old(out)@),
            views(out@) == start + child_packages(root@, top@, children@.subrange(0, i as int)),
        decreases children@.len() - i,
    {
        let c = &children[i];
        let ghost pre = children@.subrange(0, i as int + 1);
        proof {
            assert(pre.drop_last() =~= children@.subrange(0, i as int));
            assert(pre.last() == *c);
        }
        if c.is_dir && !is_submodule_dir(&c.contents) && has_recipe(&c.contents) {
            let mut path = String::from_str(top);
            path.append("/");
            path.append(c.name.as_str());
            proof {
                reveal_strlit("/");
                assert(path@ =~= top@ + seq!['/'] + c.name@);
            }
            let dir = join_path(root, top);
            let sub = join_path(dir.as_str(), c.name.as_str());
            let p = Package {
                name: c.name.clone(),
                path,
                pkgbuild_path: join_path(sub.as_str(), "PKGBUILD"),
                is_submodule: false,
            };
            proof {
                reveal_strlit("/");
            }
            let ghost old_out = out@;
            out.push(p);
            proof {
                assert(p@ == child_package(root@, top@, c.name@));
                assert(views(out@) =~= views(old_out).push(p@));
                let q = child_packages(root@, top@, children@.subrange(0, i as int));
                assert(start + q.push(p@) =~= (start + q).push(p@));
            }
        }
        i = i + 1;
    }
    proof {
        assert(children@.subrange(0, children@.len() as int) =~= children@);
    }
}

/// The packages in plain directories: each top-level directory that holds a
/// recipe, and otherwise the directories one level below it that do. Nothing
/// deeper is searched, and no submodule checkout is entered.
pub fn find_direct_packages(root: &str, entries: &Vec<TopEntry>) -> (r: Vec<Package>)
    ensures
        views(r@) == direct_packages(root@, entries@),
{
    let mut out: Vec<Package> = Vec::new();
    let mut i: usize = 0;
    proof {
        assert(entries@.subrange(0, 0) =~= Seq::<TopEntry>::empty());
        assert(views(out@) =~= Seq::<PackageView>::empty());
    }
    while i < entries.len()
        invariant
            i <= entries@.len(),
            views(out@) == direct_packages(root@, entries@.subrange(0, i as int)),
        decreases entries@.len() - i,
    {
        let t = &entries[i];
        let e = &t.entry;
        let ghost pre = entries@.subrange(0, i as int + 1);
        let ghost before = views(out@);
        proof {
            assert(pre.drop_last() =~= entries@.subrange(0, i as int));
            assert(pre.last() == *t);
        }
        if is_submodule_dir(&e.contents) || is_excluded_name(e.name.as_str()) || !e.is_dir {
            proof {
                assert(before + Seq::<PackageView>::empty() =~= before);
            }
        } else if has_recipe(&e.contents) {
            let dir = join_path(root, e.name.as_str());
            let p = Package {
                name: e.name.clone(),
                path: e.name.clone(),
                pkgbuild_path: join_path(dir.as_str(), "PKGBUILD"),
                is_submodule: false,
            };
            out.push(p);
            proof {
                assert(p@ == top_package(root@, e.name@));
                assert(views(out@) =~= before + seq![p@]);
            }
        } else {
            push_child_packages(root, e.name.as_str(), &t.children, &mut out);
        }
        i = i + 1;
    }
    proof {
        assert(entries@.subrange(0, entries@.len() as int) =~= entries@);
    }
    out
}

/// The packages of `s` stand in plain lexicographic order of their names.
pub open spec fn sorted_by_name(s: Seq<PackageView>) -> bool {
    forall|i: int, j: int| 0 <= i < j < s.len() ==> name_le(#[trigger] s[i].name, #[trigger] s[j].name)
}

/// The packages of `v` ordered by name, by insertion. Packages of equal
/// names are all kept.
pub fn sort_by_name(v: Vec<Package>) -> (r: Vec<Package>)
    ensures
        sorted_by_name(views(r@)),
        views(r@).to_multiset() == views(v@).to_multiset(),
{
    broadcast use vstd::seq_lib::group_to_multiset_ensures;

    let mut rest = v;
    let mut out: Vec<Package> = Vec::new();
    proof {
        assert(views(out@) =~= Seq::<PackageView>::empty());
        assert(views(out@).to_multiset() =~= Multiset::empty());
        assert(views(out@).to_multiset().add(views(rest@).to_multiset()) =~= views(v@).to_multiset());
    }
    while rest.len() > 0
        invariant
            sorted_by_name(views(out@)),
            views(out@).to_multiset().add(views(rest@).to_multiset()) == views(v@).to_multiset(),
        decreases rest@.len(),
    {
        let ghost rest_before = rest@;
        let x = rest.remove(0);
        proof {
            assert(views(rest_before).remove(0) =~= views(rest@));
            assert(views(rest_before)[0] == x@);
        }
        let mut j: usize = 0;
        while j < out.len() && str_name_le(out[j].name.as_str(), x.name.as_str())
            invariant
                j <= out@.len(),
                forall|k: int| 0 <= k < j ==> name_le(#[trigger] out@[k].name@, x.name@),
            decreases out@.len() - j,
        {
            j = j + 1;
        }
        let ghost ov = views(out@);
        proof {
            if j < out@.len() {
                lemma_name_le_total(x.name@, out@[j as int].name@);
                assert forall|k: int| j < k < ov.len() implies name_le(x.name@, #[trigger] ov[k].name) by {
                    assert(name_le(ov[j as int].name, ov[k].name));
                    lemma_name_le_transitive(x.name@, ov[j as int].name, ov[k].name);
                }
            }
        }
        out.insert(j, x);
        proof {
            let nv = ov.insert(j as int, x@);
            assert(views(out@) =~= nv);
            let rb = views(rest_before);
            assert(rb.contains(x@)) by {
                assert(rb[0] == x@);
            }
            vstd::seq_lib::to_multiset_contains(rb, x@);
            vstd::seq_lib::to_multiset_remove(rb, 0);
            assert(views(rest@) == rb.remove(0));
            assert(views(rest@).to_multiset() == rb.to_multiset().remove(x@));
            vstd::seq_lib::to_multiset_insert(ov, j as int, x@);
            assert(nv.to_multiset() == ov.to_multiset().insert(x@));
            assert(nv.to_multiset().add(views(rest@).to_multiset()) =~= ov.to_multiset().add(
                rb.to_multiset(),
            ));
            assert forall|a: int, b: int| 0 <= a < b < nv.len() implies name_le(
                #[trigger] nv[a].name,
                #[trigger] nv[b].name,
            ) by {
                if a < j && b == j {
                    assert(name_le(out@[a].name@, x.name@));
                } else if a == j && b > j {
                    assert(nv[b] == ov[b - 1]);
                } else if a < j && b > j {
                    assert(nv[b] == ov[b - 1]);
                } else if a > j {
                    assert(nv[a] == ov[a - 1] && nv[b] == ov[b - 1]);
                }
            }
        }
    }
    proof {
        assert(views(rest@) =~= Seq::<PackageView>::empty());
        assert(views(out@).to_multiset().add(Multiset::empty()) =~= views(out@).to_multiset());
    }
    out
}

/// Every package of the tree, ordered by name: the submodules that hold a
/// recipe, and the plain directories with a recipe at most two levels down.
/// Packages of equal names are all kept.
pub fn find_all_packages(
    root: &str,
    submodules: &Vec<SubmoduleEntry>,
    entries: &Vec<TopEntry>,
) -> (r: Vec<Package>)
    ensures
        sorted_by_name(views(r@)),
        views(r@).to_multiset() == discovered(root@, submodules@, entries@).to_multiset(),
{
    let mut all = find_submodule_packages(root, submodules);
    let mut direct = find_direct_packages(root, entries);
    let ghost a = all@;
    let ghost d = direct@;
    all.append(&mut direct);
    proof {
        assert(views(all@) =~= views(a) + views(d));
    }
    sort_by_name(all)
}

/// A top-level entry holds a package: it is searched, and it or one of its
/// children qualifies.
pub open spec fn top_has_package(t: TopEntry) -> bool {
    !top_skipped(t.entry) && (has_recipe_spec(t.entry.contents@) || exists|j: int|
        0 <= j < t.children@.len() && child_qualifies(#[trigger] t.children@[j]))
}

proof fn lemma_no_submodule_packages(root: Seq<char>, ss: Seq<SubmoduleEntry>)
    requires
        forall|i: int| 0 <= i < ss.len() ==> !has_recipe_spec((#[trigger] ss[i]).contents@),
    ensures
        submodule_packages(root, ss).len() == 0,
    decreases ss.len(),
{
    if ss.len() > 0 {
        assert(!has_recipe_spec(ss[ss.len() - 1].contents@));
        assert forall|i: int| 0 <= i < ss.drop_last().len() implies !has_recipe_spec(
            (#[trigger] ss.drop_last()[i]).contents@,
        ) by {
            assert(ss.drop_last()[i] == ss[i]);
        }
        lemma_no_submodule_packages(root, ss.drop_last());
    }
}

proof fn lemma_no_child_packages(root: Seq<char>, top: Seq<char>, cs: Seq<DirEntry>)
    requires
        forall|j: int| 0 <= j < cs.len() ==> !child_qualifies(#[trigger] cs[j]),
    ensures
        child_packages(root, top, cs).len() == 0,
    decreases cs.len(),
{
    if cs.len() > 0 {
        assert(!child_qualifies(cs[cs.len() - 1]));
        assert forall|j: int| 0 <= j < cs.drop_last().len() implies !child_qualifies(
            #[trigger] cs.drop_last()[j],
        ) by {
            assert(cs.drop_last()[j] == cs[j]);
        }
        lemma_no_child_packages(root, top, cs.drop_last());
    }
}

proof fn lemma_no_direct_packages(root: Seq<char>, ts: Seq<TopEntry>)
    requires
        forall|i: int| 0 <= i < ts.len() ==> !top_has_package(#[trigger] ts[i]),
    ensures
        direct_packages(root, ts).len() == 0,
    decreases ts.len(),
{
    if ts.len() > 0 {
        let t = ts.last();
        assert(!top_has_package(ts[ts.len() - 1]));
        if !top_skipped(t.entry) && !has_recipe_spec(t.entry.contents@) {
            lemma_no_child_packages(root, t.entry.name@, t.children@);
        }
        assert forall|i: int| 0 <= i < ts.drop_last().len() implies !top_has_package(
            #[trigger] ts.drop_last()[i],
        ) by {
            assert(ts.drop_last()[i] == ts[i]);
        }
        lemma_no_direct_packages(root, ts.drop_last());
    }
}

/// A tree without a qualifying directory (no submodule with a recipe, no
/// searched directory with a recipe at depth one or two) has no package.
pub proof fn lemma_nothing_to_discover(
    root: Seq<char>,
    ss: Seq<SubmoduleEntry>,
    ts: Seq<TopEntry>,
    r: Seq<PackageView>,
)
    requires
        forall|i: int| 0 <= i < ss.len() ==> !has_recipe_spec((#[trigger] ss[i]).contents@),
        forall|i: int| 0 <= i < ts.len() ==> !top_has_package(#[trigger] ts[i]),
        r.to_multiset() == discovered(root, ss, ts).to_multiset(),
    ensures
        r.len() == 0,
{
    lemma_no_submodule_packages(root, ss);
    lemma_no_direct_packages(root, ts);
    vstd::seq_lib::to_multiset_len(r);
    vstd::seq_lib::to_multiset_len(discovered(root, ss, ts));
}

/// `p` is a package of a searched top-level directory, found in it or in one
/// of its children: at depth one or two, never in a submodule checkout.
pub open spec fn found_in_tree(ts: Seq<TopEntry>, p: PackageView) -> bool {
    exists|i: int|
        0 <= i < ts.len() && !top_skipped((#[trigger] ts[i]).entry) && ((has_recipe_spec(
            ts[i].entry.contents@,
        ) && p.path == ts[i].entry.name@) || exists|j: int|
            0 <= j < ts[i].children@.len() && child_qualifies(#[trigger] ts[i].children@[j])
                && p.path == ts[i].entry.name@ + seq!['/'] + ts[i].children@[j].name@)
}

proof fn lemma_submodule_packages_flagged(root: Seq<char>, ss: Seq<SubmoduleEntry>, k: int)
    requires
        0 <= k < submodule_packages(root, ss).len(),
    ensures
        submodule_packages(root, ss)[k].is_submodule,
    decreases ss.len(),
{
    let p = submodule_packages(root, ss.drop_last());
    if k < p.len() {
        lemma_submodule_packages_flagged(root, ss.drop_last(), k);
    }
}

proof fn lemma_child_origin(root: Seq<char>, top: Seq<char>, cs: Seq<DirEntry>, k: int)
    requires
        0 <= k < child_packages(root, top, cs).len(),
    ensures
        !child_packages(root, top, cs)[k].is_submodule,
        exists|j: int|
            0 <= j < cs.len() && child_qualifies(#[trigger] cs[j]) && child_packages(
                root,
                top,
                cs,
            )[k].path == top + seq!['/'] + cs[j].name@,
    decreases cs.len(),
{
    let p = child_packages(root, top, cs.drop_last());
    if k < p.len() {
        lemma_child_origin(root, top, cs.drop_last(), k);
        let j = choose|j: int|
            0 <= j < cs.drop_last().len() && child_qualifies(#[trigger] cs.drop_last()[j])
                && p[k].path == top + seq!['/'] + cs.drop_last()[j].name@;
        assert(cs[j] == cs.drop_last()[j]);
    } else {
        assert(child_qualifies(cs[cs.len() - 1]));
    }
}

proof fn lemma_direct_origin(root: Seq<char>, ts: Seq<TopEntry>, k: int)
    requires
        0 <= k < direct_packages(root, ts).len(),
    ensures
        !direct_packages(root, ts)[k].is_submodule,
        found_in_tree(ts, direct_packages(root, ts)[k]),
    decreases ts.len(),
{
    let p = direct_packages(root, ts.drop_last());
    let t = ts.last();
    let n = ts.len() - 1;
    let q = direct_packages(root, ts)[k];
    if k < p.len() {
        lemma_direct_origin(root, ts.drop_last(), k);
        assert(q == p[k]);
        let i = choose|i: int|
            0 <= i < ts.drop_last().len() && !top_skipped((#[trigger] ts.drop_last()[i]).entry) && ((
            has_recipe_spec(ts.drop_last()[i].entry.contents@) && q.path == ts.drop_last()[i].entry.name@)
                || exists|j: int|
                0 <= j < ts.drop_last()[i].children@.len() && child_qualifies(
                    #[trigger] ts.drop_last()[i].children@[j],
                ) && q.path == ts.drop_last()[i].entry.name@ + seq!['/']
                    + ts.drop_last()[i].children@[j].name@);
        assert(ts[i] == ts.drop_last()[i]);
    } else {
        assert(ts[n] == t);
        assert(q == top_packages(root, t)[k - p.len()]);
        if has_recipe_spec(t.entry.contents@) {
        } else {
            lemma_child_origin(root, t.entry.name@, t.children@, k - p.len());
        }
    }
}

/// Discovery finds a plain-directory package only in a searched directory
/// at depth one or two that is no submodule checkout; every other package
/// comes from the submodule enumeration.
pub proof fn lemma_discovered_origin(
    root: Seq<char>,
    ss: Seq<SubmoduleEntry>,
    ts: Seq<TopEntry>,
    k: int,
)
    requires
        0 <= k < discovered(root, ss, ts).len(),
    ensures
        discovered(root, ss, ts)[k].is_submodule || found_in_tree(ts, discovered(root, ss, ts)[k]),
{
    let a = submodule_packages(root, ss);
    if k < a.len() {
        lemma_submodule_packages_flagged(root, ss, k);
    } else {
        lemma_direct_origin(root, ts, k - a.len());
    }
}

} // verus!
