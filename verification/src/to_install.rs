//! The dependency resolver's state: the info map, the set of dependencies
//! satisfiable from the local package manager, and the depth map that
//! drives the build order.

use vstd::prelude::*;
use crate::aur_rpc_utils;
use crate::error::RuaError;
use crate::text;

verus! {

/// What the package-manager adapter reports of one dependency at the time
/// its parent is resolved.
#[derive(Clone, Copy, Debug, PartialEq, Eq, Structural)]
pub enum DepClass {
    /// The dependency, or something providing it, is already installed.
    Installed,
    /// The dependency is installable from a configured sync repository.
    Installable,
    /// The dependency has to come from the remote index.
    Remote,
}

/// Info of one remote package: its name, the base it is built from, and
/// its normalized dependencies in first-occurrence order.
pub struct PkgInfo {
    pub name: String,
    pub base: String,
    pub dependencies: Vec<String>,
}

/// Whether a sequence of strings holds `x`.
pub open spec fn str_has(vs: Seq<String>, x: Seq<char>) -> bool {
    exists|i: int| 0 <= i < vs.len() && (#[trigger] vs[i])@ == x
}

/// Whether the strings of a sequence are pairwise distinct.
pub open spec fn unique_strs(vs: Seq<String>) -> bool {
    forall|i: int, j: int|
        0 <= i < j < vs.len() ==> (#[trigger] vs[i])@ != (#[trigger] vs[j])@
}

impl PkgInfo {
    /// The dependency list holds no name twice.
    pub open spec fn wf(&self) -> bool {
        unique_strs(self.dependencies@)
    }

    /// Builds an info directly from its parts; the dependency list must
    /// already be free of repetitions.
    pub fn new(name: String, base: String, dependencies: Vec<String>) -> (r: PkgInfo)
        requires
            unique_strs(dependencies@),
        ensures
            r.name@ == name@ && r.base@ == base@ && r.dependencies@ == dependencies@,
            r.wf(),
    {
        PkgInfo { name, base, dependencies }
    }

    /// The package's own name.
    pub fn name(&self) -> (r: &str)
        ensures
            r@ == self.name@,
    {
        self.name.as_str()
    }

    /// The build unit the package belongs to.
    pub fn pkg_base(&self) -> (r: &str)
        ensures
            r@ == self.base@,
    {
        self.base.as_str()
    }
}

/// The normalizations of a list of dependency atoms.
pub open spec fn cleaned_views(atoms: Seq<String>) -> Seq<Seq<char>> {
    atoms.map_values(|a: String| aur_rpc_utils::cleaned_name(a@))
}

/// Whether every atom of the list normalizes to a valid name.
pub open spec fn all_atoms_valid(atoms: Seq<String>) -> bool {
    forall|i: int|
        0 <= i < atoms.len() ==> aur_rpc_utils::valid_package_name(
            aur_rpc_utils::cleaned_name((#[trigger] atoms[i])@),
        )
}

/// Keeps the first occurrence of every value, dropping later repetitions.
pub open spec fn dedup_first(s: Seq<Seq<char>>) -> Seq<Seq<char>>
    decreases s.len(),
{
    if s.len() == 0 {
        Seq::empty()
    } else {
        let r = dedup_first(s.drop_last());
        if r.contains(s.last()) {
            r
        } else {
            r.push(s.last())
        }
    }
}

/// Normalizes a list of dependency atoms and keeps the first occurrence
/// of each resulting name. Fails on the first atom whose normalization
/// the name grammar refuses.
pub fn clean_dep_atoms(atoms: &Vec<String>) -> (r: Result<Vec<String>, RuaError>)
    ensures
        match r {
            Ok(deps) => {
                &&& all_atoms_valid(atoms@)
                &&& text::str_views(deps@) == dedup_first(cleaned_views(atoms@))
                &&& unique_strs(deps@)
            },
            Err(_) => !all_atoms_valid(atoms@),
        },
{
    let mut deps: Vec<String> = Vec::new();
    let n = atoms.len();
    let mut i: usize = 0;
    while i < n
        invariant
            i <= n,
            n == atoms@.len(),
            forall|k: int|
                0 <= k < i ==> aur_rpc_utils::valid_package_name(
                    aur_rpc_utils::cleaned_name((#[trigger] atoms@[k])@),
                ),
            text::str_views(deps@) == dedup_first(cleaned_views(atoms@.subrange(0, i as int))),
            unique_strs(deps@),
        decreases n - i,
    {
        let cleaned = aur_rpc_utils::clean_and_check_package_name(atoms[i].as_str())?;
        let cleaned_chars = text::chars_of(cleaned.as_str());
        let mut seen = false;
        let m = deps.len();
        let mut j: usize = 0;
        while j < m
            invariant
                j <= m,
                m == deps@.len(),
                cleaned_chars@ == cleaned@,
                seen == exists|k: int|
                    0 <= k < j && (#[trigger] deps@[k])@ == cleaned@,
            decreases m - j,
        {
            if text::chars_eq(&text::chars_of(deps[j].as_str()), &cleaned_chars) {
                seen = true;
                proof {
                    assert((deps@[j as int])@ == cleaned@);
                }
            }
            j = j + 1;
        }
        proof {
            assert(cleaned_views(atoms@.subrange(0, i + 1)).drop_last() =~= cleaned_views(
                atoms@.subrange(0, i as int),
            ));
            assert(cleaned_views(atoms@.subrange(0, i + 1)).last() == aur_rpc_utils::cleaned_name(
                atoms@[i as int]@,
            ));
            assert(seen == text::str_views(deps@).contains(cleaned@)) by {
                if seen {
                    let k = choose|k: int|
                        0 <= k < deps@.len() && (#[trigger] deps@[k])@ == cleaned@;
                    assert(text::str_views(deps@)[k] == cleaned@);
                }
                if text::str_views(deps@).contains(cleaned@) {
                    let k = choose|k: int|
                        0 <= k < text::str_views(deps@).len() && text::str_views(deps@)[k]
                            == cleaned@;
                    assert((deps@[k])@ == cleaned@);
                }
            }
        }
        if !seen {
            deps.push(cleaned);
            proof {
                assert(text::str_views(deps@) =~= dedup_first(cleaned_views(
                    atoms@.subrange(0, i + 1),
                )));
            }
        } else {
            proof {
                assert(text::str_views(deps@) =~= dedup_first(cleaned_views(
                    atoms@.subrange(0, i + 1),
                )));
            }
        }
        i = i + 1;
    }
    proof {
        assert(atoms@.subrange(0, n as int) =~= atoms@);
    }
    Ok(deps)
}

/// Builds the info of a remote package from plain values, normalizing and
/// deduplicating its dependency atoms: make-dependencies first, then
/// run-time dependencies, then check-dependencies, as the remote info
/// lists them.
pub fn pkginfo_from_remote(
    name: String,
    base: String,
    depends: &Vec<String>,
    make_depends: &Vec<String>,
    check_depends: &Vec<String>,
) -> (r: Result<PkgInfo, RuaError>)
    ensures
        match r {
            Ok(p) => {
                &&& p.name@ == name@
                &&& p.base@ == base@
                &&& p.wf()
                &&& text::str_views(p.dependencies@) == dedup_first(
                    cleaned_views(make_depends@ + depends@ + check_depends@),
                )
            },
            Err(_) => !all_atoms_valid(make_depends@ + depends@ + check_depends@),
        },
{
    let mut atoms: Vec<String> = Vec::new();
    let mut i: usize = 0;
    let n1 = make_depends.len();
    while i < n1
        invariant
            i <= n1,
            n1 == make_depends@.len(),
            atoms@ =~= make_depends@.subrange(0, i as int),
        decreases n1 - i,
    {
        atoms.push(make_depends[i].clone());
        i = i + 1;
    }
    let mut i: usize = 0;
    let n2 = depends.len();
    while i < n2
        invariant
            i <= n2,
            n2 == depends@.len(),
            atoms@ =~= make_depends@ + depends@.subrange(0, i as int),
        decreases n2 - i,
    {
        atoms.push(depends[i].clone());
        i = i + 1;
    }
    let mut i: usize = 0;
    let n3 = check_depends.len();
    while i < n3
        invariant
            i <= n3,
            n3 == check_depends@.len(),
            atoms@ =~= make_depends@ + depends@ + check_depends@.subrange(0, i as int),
        decreases n3 - i,
    {
        atoms.push(check_depends[i].clone());
        i = i + 1;
    }
    proof {
        assert(atoms@ =~= make_depends@ + depends@ + check_depends@);
    }
    let deps = clean_dep_atoms(&atoms)?;
    Ok(PkgInfo { name, base, dependencies: deps })
}

/// One row of the depth map: a remote package and the depth it is built
/// at. Roots have depth `0`; dependencies strictly larger depths.
pub struct DepthEntry {
    pub name: String,
    pub depth: usize,
}

/// The names of a depth map, in insertion order.
pub open spec fn depth_names(s: Seq<DepthEntry>) -> Seq<Seq<char>> {
    s.map_values(|e: DepthEntry| e.name@)
}

/// Whether the depth map has a row for `name`.
pub open spec fn has_depth(s: Seq<DepthEntry>, name: Seq<char>) -> bool {
    exists|i: int| 0 <= i < s.len() && (#[trigger] s[i]).name@ == name
}

/// The depth recorded for `name` (meaningful when the names are unique
/// and the row exists).
pub open spec fn depth_of(s: Seq<DepthEntry>, name: Seq<char>) -> int {
    s[choose|i: int| 0 <= i < s.len() && (#[trigger] s[i]).name@ == name].depth as int
}

/// Whether the rows of a depth map name pairwise distinct packages.
pub open spec fn unique_depth_names(s: Seq<DepthEntry>) -> bool {
    forall|i: int, j: int|
        0 <= i < j < s.len() ==> (#[trigger] s[i]).name@ != (#[trigger] s[j]).name@
}

/// With unique names, the depth recorded at row `i` is the depth of the
/// name at row `i`.
pub proof fn lemma_depth_at(s: Seq<DepthEntry>, i: int)
    requires
        unique_depth_names(s),
        0 <= i < s.len(),
    ensures
        has_depth(s, s[i].name@),
        depth_of(s, s[i].name@) == s[i].depth as int,
{
    let j = choose|j: int| 0 <= j < s.len() && (#[trigger] s[j]).name@ == s[i].name@;
    assert(j == i);
}

/// Appending a fresh row leaves every present name's depth unchanged.
proof fn lemma_depth_push(s: Seq<DepthEntry>, e: DepthEntry, x: Seq<char>)
    requires
        unique_depth_names(s),
        has_depth(s, x),
        e.name@ != x,
    ensures
        has_depth(s.push(e), x),
        depth_of(s.push(e), x) == depth_of(s, x),
{
    let i = choose|i: int| 0 <= i < s.len() && (#[trigger] s[i]).name@ == x;
    assert(s.push(e)[i].name@ == x);
    let j = choose|j: int| 0 <= j < s.push(e).len() && (#[trigger] s.push(e)[j]).name@ == x;
    assert(j < s.len());
    assert(s[j].name@ == x);
    assert(j == i);
}

/// When two depth maps carry the same names in the same order, and no row
/// shrinks, no name's depth shrinks.
proof fn lemma_depth_monotone(s1: Seq<DepthEntry>, s2: Seq<DepthEntry>, x: Seq<char>)
    requires
        unique_depth_names(s1),
        s1.len() == s2.len(),
        forall|k: int| 0 <= k < s1.len() ==> (#[trigger] s2[k]).name@ == s1[k].name@,
        forall|k: int| 0 <= k < s1.len() ==> (#[trigger] s2[k]).depth >= s1[k].depth,
        has_depth(s1, x),
    ensures
        has_depth(s2, x),
        depth_of(s2, x) >= depth_of(s1, x),
        unique_depth_names(s2),
{
    let i = choose|i: int| 0 <= i < s1.len() && (#[trigger] s1[i]).name@ == x;
    assert(s2[i].name@ == x);
    let j = choose|j: int| 0 <= j < s2.len() && (#[trigger] s2[j]).name@ == x;
    assert(s1[j].name@ == x);
    assert(j == i);
}

/// One resolved package, kept with the classification its dependencies
/// had when it was added, and the depth its name carried then.
pub struct ResolvedInfo {
    pub info: PkgInfo,
    pub classes: Vec<DepClass>,
    pub depth_at_add: usize,
}

/// The per-package resolution invariant: every dependency that was not
/// already installed is accounted for, either as a pacman dependency or
/// in the depth map, and in the latter case strictly deeper than the
/// package stood when it was added.
pub open spec fn entry_wf(
    e: ResolvedInfo,
    depths: Seq<DepthEntry>,
    pacman: Seq<String>,
) -> bool {
    &&& e.classes@.len() == e.info.dependencies@.len()
    &&& e.info.wf()
    &&& has_depth(depths, e.info.name@)
    &&& depth_of(depths, e.info.name@) >= e.depth_at_add
    &&& forall|j: int|
        0 <= j < e.classes@.len() && e.classes@[j] != DepClass::Installed ==> {
            let d = (#[trigger] e.info.dependencies@[j])@;
            ||| str_has(pacman, d)
            ||| (has_depth(depths, d) && depth_of(depths, d) >= e.depth_at_add + 1)
        }
}

/// The resolver's state: the resolved infos, the dependencies to be had
/// from the package manager, and the depth map.
pub struct ToInstall {
    pub infos: Vec<ResolvedInfo>,
    pub pacman_deps: Vec<String>,
    pub depths: Vec<DepthEntry>,
}

impl ToInstall {
    /// The state's invariant: names are unique in each part, every
    /// resolved package has a depth, nothing is both a pacman dependency
    /// and remote, and each resolved package satisfies `entry_wf`.
    pub open spec fn wf(&self) -> bool {
        &&& unique_depth_names(self.depths@)
        &&& unique_strs(self.pacman_deps@)
        &&& forall|i: int, j: int|
            0 <= i < j < self.infos@.len() ==> (#[trigger] self.infos@[i]).info.name@ != (
            #[trigger] self.infos@[j]).info.name@
        &&& forall|i: int|
            0 <= i < self.pacman_deps@.len() ==> !has_depth(
                self.depths@,
                (#[trigger] self.pacman_deps@[i])@,
            )
        &&& forall|i: int|
            0 <= i < self.infos@.len() ==> entry_wf(
                #[trigger] self.infos@[i],
                self.depths@,
                self.pacman_deps@,
            )
    }

    /// Seeds the resolver with the requested roots, each at depth `0`;
    /// a root named twice is kept once.
    pub fn new(root_packages: &Vec<String>) -> (r: ToInstall)
        ensures
            r.wf(),
            r.infos@.len() == 0,
            r.pacman_deps@.len() == 0,
            depth_names(r.depths@) == dedup_first(text::str_views(root_packages@)),
            forall|i: int| 0 <= i < r.depths@.len() ==> (#[trigger] r.depths@[i]).depth == 0,
    {
        let mut depths: Vec<DepthEntry> = Vec::new();
        let n = root_packages.len();
        let mut i: usize = 0;
        while i < n
            invariant
                i <= n,
                n == root_packages@.len(),
                depth_names(depths@) == dedup_first(
                    text::str_views(root_packages@.subrange(0, i as int)),
                ),
                unique_depth_names(depths@),
                forall|k: int| 0 <= k < depths@.len() ==> (#[trigger] depths@[k]).depth == 0,
            decreases n - i,
        {
            let name_chars = text::chars_of(root_packages[i].as_str());
            let mut seen = false;
            let m = depths.len();
            let mut j: usize = 0;
            while j < m
                invariant
                    j <= m,
                    m == depths@.len(),
                    name_chars@ == root_packages@[i as int]@,
                    seen == exists|k: int|
                        0 <= k < j && (#[trigger] depths@[k]).name@ == name_chars@,
                decreases m - j,
            {
                if text::chars_eq(&text::chars_of(depths[j].name.as_str()), &name_chars) {
                    seen = true;
                    proof {
                        assert(depths@[j as int].name@ == name_chars@);
                    }
                }
                j = j + 1;
            }
            proof {
                let prev = text::str_views(root_packages@.subrange(0, i as int));
                let cur = text::str_views(root_packages@.subrange(0, i + 1));
                assert(cur.drop_last() =~= prev);
                assert(cur.last() == root_packages@[i as int]@);
                assert(seen == depth_names(depths@).contains(root_packages@[i as int]@)) by {
                    if seen {
                        let k = choose|k: int|
                            0 <= k < depths@.len() && (#[trigger] depths@[k]).name@
                                == name_chars@;
                        assert(depth_names(depths@)[k] == name_chars@);
                    }
                    if depth_names(depths@).contains(root_packages@[i as int]@) {
                        let k = choose|k: int|
                            0 <= k < depth_names(depths@).len() && depth_names(depths@)[k]
                                == root_packages@[i as int]@;
                        assert(depths@[k].name@ == name_chars@);
                    }
                }
            }
            if !seen {
                depths.push(DepthEntry { name: root_packages[i].clone(), depth: 0 });
                proof {
                    assert(depth_names(depths@) =~= dedup_first(
                        text::str_views(root_packages@.subrange(0, i + 1)),
                    ));
                }
            } else {
                proof {
                    assert(depth_names(depths@) =~= dedup_first(
                        text::str_views(root_packages@.subrange(0, i + 1)),
                    ));
                }
            }
            i = i + 1;
        }
        proof {
            assert(root_packages@.subrange(0, n as int) =~= root_packages@);
        }
        ToInstall { infos: Vec::new(), pacman_deps: Vec::new(), depths }
    }

    /// Gives the state up as its three parts.
    pub fn into_inner(self) -> (r: (Vec<ResolvedInfo>, Vec<String>, Vec<DepthEntry>))
        ensures
            r.0@ == self.infos@,
            r.1@ == self.pacman_deps@,
            r.2@ == self.depths@,
    {
        let ToInstall { infos: is, pacman_deps: pacs, depths: ds } = self;
        (is, pacs, ds)
    }

    /// The resolved infos, in resolution order.
    pub fn infos(&self) -> (r: &Vec<ResolvedInfo>)
        ensures
            r@ == self.infos@,
    {
        &self.infos
    }

    /// The dependencies to install from the package manager.
    pub fn pacman_deps(&self) -> (r: &Vec<String>)
        ensures
            r@ == self.pacman_deps@,
    {
        &self.pacman_deps
    }

    /// The depth map.
    pub fn depths(&self) -> (r: &Vec<DepthEntry>)
        ensures
            r@ == self.depths@,
    {
        &self.depths
    }

    /// Settles one dependency edge of `parent`, as the adapter classified
    /// it: an already-resolved pacman dependency or an installed one is
    /// skipped; an installable one not yet known as remote joins the
    /// pacman dependencies; a remote one already known keeps the larger
    /// of its depth and one below the parent; a new remote one enters the
    /// depth map one below the parent and is appended to `out` for the
    /// next remote lookup.
    fn resolve_one(&mut self, parent: &String, dep: &String, class: DepClass, out: &mut Vec<
        String,
    >)
        requires
            old(self).wf(),
            has_depth(old(self).depths@, parent@),
            depth_of(old(self).depths@, parent@) < usize::MAX as int,
        ensures
            final(self).wf(),
            final(self).infos@ == old(self).infos@,
            has_depth(final(self).depths@, parent@),
            ({
                let pd = depth_of(old(self).depths@, parent@);
                let inpac = str_has(old(self).pacman_deps@, dep@);
                let indep = has_depth(old(self).depths@, dep@);
                if inpac || class == DepClass::Installed {
                    &&& final(self).pacman_deps@ == old(self).pacman_deps@
                    &&& final(self).depths@ == old(self).depths@
                    &&& final(out)@ == old(out)@
                } else if class == DepClass::Installable && !indep {
                    &&& final(self).pacman_deps@.len() == old(self).pacman_deps@.len() + 1
                    &&& final(self).pacman_deps@.subrange(
                        0,
                        old(self).pacman_deps@.len() as int,
                    ) == old(self).pacman_deps@
                    &&& final(self).pacman_deps@.last()@ == dep@
                    &&& final(self).depths@ == old(self).depths@
                    &&& final(out)@ == old(out)@
                } else if indep {
                    &&& final(self).pacman_deps@ == old(self).pacman_deps@
                    &&& final(out)@ == old(out)@
                    &&& final(self).depths@.len() == old(self).depths@.len()
                    &&& forall|k: int|
                        0 <= k < old(self).depths@.len() ==> (
                        #[trigger] final(self).depths@[k]).name@ == old(self).depths@[k].name@
                    &&& forall|k: int|
                        0 <= k < old(self).depths@.len() && old(self).depths@[k].name@ != dep@
                            ==> (#[trigger] final(self).depths@[k]).depth == old(
                            self,
                        ).depths@[k].depth
                    &&& forall|k: int|
                        0 <= k < old(self).depths@.len() && old(self).depths@[k].name@ == dep@
                            ==> (#[trigger] final(self).depths@[k]).depth as int == if old(
                            self,
                        ).depths@[k].depth as int >= pd + 1 {
                            old(self).depths@[k].depth as int
                        } else {
                            pd + 1
                        }
                } else {
                    &&& final(self).pacman_deps@ == old(self).pacman_deps@
                    &&& final(self).depths@.len() == old(self).depths@.len() + 1
                    &&& final(self).depths@.subrange(0, old(self).depths@.len() as int) == old(
                        self,
                    ).depths@
                    &&& final(self).depths@.last().name@ == dep@
                    &&& final(self).depths@.last().depth as int == pd + 1
                    &&& final(out)@.len() == old(out)@.len() + 1
                    &&& final(out)@.subrange(0, old(out)@.len() as int) == old(out)@
                    &&& final(out)@.last()@ == dep@
                }
            }),
    {
        let dep_chars = text::chars_of(dep.as_str());

        // already settled as a pacman dependency?
        let mut inpac = false;
        let np = self.pacman_deps.len();
        let mut i: usize = 0;
        while i < np
            invariant
                i <= np,
                np == self.pacman_deps@.len(),
                dep_chars@ == dep@,
                inpac == exists|k: int|
                    0 <= k < i && (#[trigger] self.pacman_deps@[k])@ == dep@,
                self == old(self),
            decreases np - i,
        {
            if text::chars_eq(&text::chars_of(self.pacman_deps[i].as_str()), &dep_chars) {
                inpac = true;
                proof {
                    assert((self.pacman_deps@[i as int])@ == dep@);
                }
            }
            i = i + 1;
        }
        if inpac {
            return ;
        }
        if matches!(class, DepClass::Installed) {
            return ;
        }

        // already known as a remote package?
        let mut depth_idx: usize = 0;
        let mut indep = false;
        let nd = self.depths.len();
        let mut i: usize = 0;
        while i < nd
            invariant
                i <= nd,
                nd == self.depths@.len(),
                dep_chars@ == dep@,
                indep ==> depth_idx < i && self.depths@[depth_idx as int].name@ == dep@,
                !indep ==> forall|k: int|
                    0 <= k < i ==> (#[trigger] self.depths@[k]).name@ != dep@,
                self == old(self),
            decreases nd - i,
        {
            if !indep && text::chars_eq(&text::chars_of(self.depths[i].name.as_str()), &dep_chars)
            {
                indep = true;
                depth_idx = i;
            }
            i = i + 1;
        }

        if matches!(class, DepClass::Installable) && !indep {
            self.pacman_deps.push(dep.clone());
            proof {
                assert(final(self).pacman_deps@.subrange(0, old(self).pacman_deps@.len() as int)
                    =~= old(self).pacman_deps@);
                assert(forall|k: int|
                    0 <= k < old(self).infos@.len() ==> entry_wf(
                        #[trigger] old(self).infos@[k],
                        old(self).depths@,
                        old(self).pacman_deps@,
                    ));
                assert forall|k: int| 0 <= k < self.infos@.len() implies entry_wf(
                    #[trigger] self.infos@[k],
                    self.depths@,
                    self.pacman_deps@,
                ) by {
                    let e = self.infos@[k];
                    assert(entry_wf(e, old(self).depths@, old(self).pacman_deps@));
                    assert forall|j: int|
                        0 <= j < e.classes@.len() && e.classes@[j] != DepClass::Installed implies {
                        let d = (#[trigger] e.info.dependencies@[j])@;
                        ||| str_has(self.pacman_deps@, d)
                        ||| (has_depth(self.depths@, d) && depth_of(self.depths@, d)
                            >= e.depth_at_add + 1)
                    } by {
                        let d = (e.info.dependencies@[j])@;
                        if str_has(old(self).pacman_deps@, d) {
                            let w = choose|w: int|
                                0 <= w < old(self).pacman_deps@.len() && (
                                #[trigger] old(self).pacman_deps@[w])@ == d;
                            assert((self.pacman_deps@[w])@ == d);
                        }
                    }
                }
            }
            return ;
        }

        // the remote path: the parent's current depth decides
        let parent_chars = text::chars_of(parent.as_str());
        let mut parent_idx: usize = 0;
        let mut parent_found = false;
        let mut i: usize = 0;
        while i < nd
            invariant
                i <= nd,
                nd == self.depths@.len(),
                parent_chars@ == parent@,
                parent_found ==> parent_idx < i && self.depths@[parent_idx as int].name@
                    == parent@,
                !parent_found ==> forall|k: int|
                    0 <= k < i ==> (#[trigger] self.depths@[k]).name@ != parent@,
                self == old(self),
            decreases nd - i,
        {
            if !parent_found && text::chars_eq(
                &text::chars_of(self.depths[i].name.as_str()),
                &parent_chars,
            ) {
                parent_found = true;
                parent_idx = i;
            }
            i = i + 1;
        }
        proof {
            assert(parent_found);
            lemma_depth_at(self.depths@, parent_idx as int);
            assert(self.depths@[parent_idx as int].depth as int == depth_of(
                self.depths@,
                parent@,
            ));
        }
        let parent_depth = self.depths[parent_idx].depth;
        let new_depth = parent_depth + 1;

        if indep {
            proof {
                lemma_depth_at(self.depths@, depth_idx as int);
            }
            let cur = self.depths[depth_idx].depth;
            let raised = if cur >= new_depth {
                cur
            } else {
                new_depth
            };
            let kept_name = self.depths[depth_idx].name.clone();
            self.depths[depth_idx] = DepthEntry { name: kept_name, depth: raised };
            proof {
                assert(forall|k: int|
                    0 <= k < old(self).depths@.len() ==> (#[trigger] self.depths@[k]).name@
                        == old(self).depths@[k].name@);
                assert(forall|k: int|
                    0 <= k < old(self).depths@.len() ==> (#[trigger] self.depths@[k]).depth
                        >= old(self).depths@[k].depth);
                assert(unique_depth_names(self.depths@));
                assert forall|k: int| 0 <= k < self.infos@.len() implies entry_wf(
                    #[trigger] self.infos@[k],
                    self.depths@,
                    self.pacman_deps@,
                ) by {
                    let e = self.infos@[k];
                    assert(entry_wf(e, old(self).depths@, old(self).pacman_deps@));
                    lemma_depth_monotone(old(self).depths@, self.depths@, e.info.name@);
                    assert forall|j: int|
                        0 <= j < e.classes@.len() && e.classes@[j] != DepClass::Installed implies {
                        let d = (#[trigger] e.info.dependencies@[j])@;
                        ||| str_has(self.pacman_deps@, d)
                        ||| (has_depth(self.depths@, d) && depth_of(self.depths@, d)
                            >= e.depth_at_add + 1)
                    } by {
                        let d = (e.info.dependencies@[j])@;
                        if has_depth(old(self).depths@, d) {
                            lemma_depth_monotone(old(self).depths@, self.depths@, d);
                        }
                    }
                }
                assert forall|i2: int| 0 <= i2 < self.pacman_deps@.len() implies !has_depth(
                    self.depths@,
                    (#[trigger] self.pacman_deps@[i2])@,
                ) by {
                    if has_depth(self.depths@, (self.pacman_deps@[i2])@) {
                        let w = choose|w: int|
                            0 <= w < self.depths@.len() && (#[trigger] self.depths@[w]).name@
                                == (self.pacman_deps@[i2])@;
                        assert(old(self).depths@[w].name@ == (self.pacman_deps@[i2])@);
                    }
                }
                lemma_depth_monotone(old(self).depths@, self.depths@, parent@);
            }
            return ;
        }

        // a fresh remote dependency: record it and queue it for lookup
        self.depths.push(DepthEntry { name: dep.clone(), depth: new_depth });
        out.push(dep.clone());
        proof {
            assert(self.depths@.subrange(0, old(self).depths@.len() as int) =~= old(
                self,
            ).depths@);
            assert(final(out)@.subrange(0, old(out)@.len() as int) =~= old(out)@);
            assert(unique_depth_names(self.depths@)) by {
                assert(forall|k: int|
                    0 <= k < old(self).depths@.len() ==> (#[trigger] old(
                        self,
                    ).depths@[k]).name@ != dep@);
            }
            assert forall|k: int| 0 <= k < self.infos@.len() implies entry_wf(
                #[trigger] self.infos@[k],
                self.depths@,
                self.pacman_deps@,
            ) by {
                let e = self.infos@[k];
                assert(entry_wf(e, old(self).depths@, old(self).pacman_deps@));
                lemma_depth_push(
                    old(self).depths@,
                    self.depths@.last(),
                    e.info.name@,
                );
                assert(self.depths@ =~= old(self).depths@.push(self.depths@.last()));
                assert forall|j: int|
                    0 <= j < e.classes@.len() && e.classes@[j] != DepClass::Installed implies {
                    let d = (#[trigger] e.info.dependencies@[j])@;
                    ||| str_has(self.pacman_deps@, d)
                    ||| (has_depth(self.depths@, d) && depth_of(self.depths@, d)
                        >= e.depth_at_add + 1)
                } by {
                    let d = (e.info.dependencies@[j])@;
                    if has_depth(old(self).depths@, d) {
                        lemma_depth_push(old(self).depths@, self.depths@.last(), d);
                    }
                }
            }
            assert forall|i2: int| 0 <= i2 < self.pacman_deps@.len() implies !has_depth(
                self.depths@,
                (#[trigger] self.pacman_deps@[i2])@,
            ) by {
                if has_depth(self.depths@, (self.pacman_deps@[i2])@) {
                    let w = choose|w: int|
                        0 <= w < self.depths@.len() && (#[trigger] self.depths@[w]).name@ == (
                        self.pacman_deps@[i2])@;
                    if w < old(self).depths@.len() {
                        assert(old(self).depths@[w].name@ == (self.pacman_deps@[i2])@);
                    } else {
                        assert((self.pacman_deps@[i2])@ == dep@);
                    }
                }
            }
            lemma_depth_push(old(self).depths@, self.depths@.last(), parent@);
            assert(self.depths@ =~= old(self).depths@.push(self.depths@.last()));
        }
    }
}

/// Whether the info list already holds a package of this name.
pub open spec fn has_info(is: Seq<ResolvedInfo>, name: Seq<char>) -> bool {
    exists|i: int| 0 <= i < is.len() && (#[trigger] is[i]).info.name@ == name
}

/// Finds the position of a package's entry in the info list.
fn find_info_index(infos: &Vec<ResolvedInfo>, name: &Vec<char>) -> (r: Option<usize>)
    ensures
        match r {
            Some(i) => i < infos@.len() && infos@[i as int].info.name@ == name@,
            None => !has_info(infos@, name@),
        },
{
    let n = infos.len();
    let mut i: usize = 0;
    while i < n
        invariant
            i <= n,
            n == infos@.len(),
            forall|k: int| 0 <= k < i ==> (#[trigger] infos@[k]).info.name@ != name@,
        decreases n - i,
    {
        if text::chars_eq(&text::chars_of(infos[i].info.name.as_str()), name) {
            return Some(i);
        }
        i = i + 1;
    }
    None
}

/// The recorded entry for a freshly added package.
pub open spec fn entry_matches(
    e: ResolvedInfo,
    info: PkgInfo,
    classes: Seq<DepClass>,
    d: int,
) -> bool {
    &&& e.info == info
    &&& e.classes@ == classes
    &&& e.depth_at_add as int == d
}

/// Whether `name` is one of the first `upto` dependencies, classified
/// installable.
pub open spec fn from_installable_dep(
    info: PkgInfo,
    classes: Seq<DepClass>,
    upto: int,
    name: Seq<char>,
) -> bool {
    exists|jj: int|
        0 <= jj < upto && classes[jj] == DepClass::Installable && (
        #[trigger] info.dependencies@[jj])@ == name
}

/// Whether `name` is one of the first `upto` dependencies, classified
/// remote.
pub open spec fn from_remote_dep(
    info: PkgInfo,
    classes: Seq<DepClass>,
    upto: int,
    name: Seq<char>,
) -> bool {
    exists|jj: int|
        0 <= jj < upto && classes[jj] == DepClass::Remote && (
        #[trigger] info.dependencies@[jj])@ == name
}

proof fn lemma_widen_installable(info: PkgInfo, classes: Seq<DepClass>, upto: int, name: Seq<char>)
    requires
        from_installable_dep(info, classes, upto, name),
    ensures
        from_installable_dep(info, classes, upto + 1, name),
{
    let w = choose|jj: int|
        0 <= jj < upto && classes[jj] == DepClass::Installable && (
        #[trigger] info.dependencies@[jj])@ == name;
    assert(0 <= w < upto + 1 && classes[w] == DepClass::Installable && (
    info.dependencies@[w])@ == name);
}

proof fn lemma_widen_remote(info: PkgInfo, classes: Seq<DepClass>, upto: int, name: Seq<char>)
    requires
        from_remote_dep(info, classes, upto, name),
    ensures
        from_remote_dep(info, classes, upto + 1, name),
{
    let w = choose|jj: int|
        0 <= jj < upto && classes[jj] == DepClass::Remote && (
        #[trigger] info.dependencies@[jj])@ == name;
    assert(0 <= w < upto + 1 && classes[w] == DepClass::Remote && (info.dependencies@[w])@
        == name);
}

/// Whether one of the first `upto` dependencies names `name` with a
/// class other than installed — the classes that can touch the depth map.
pub open spec fn has_live_dep(
    info: PkgInfo,
    classes: Seq<DepClass>,
    upto: int,
    name: Seq<char>,
) -> bool {
    exists|j: int|
        0 <= j < upto && classes[j] != DepClass::Installed && (
        #[trigger] info.dependencies@[j])@ == name
}

/// The names one resolution step queues for remote lookup, among the
/// first `upto` dependencies: those classified remote that neither the
/// pacman list nor the depth map held, in dependency order.
pub open spec fn queued_of(
    info: PkgInfo,
    classes: Seq<DepClass>,
    oldp: Seq<String>,
    oldd: Seq<DepthEntry>,
    upto: int,
) -> Seq<Seq<char>>
    decreases upto,
{
    if upto <= 0 {
        Seq::empty()
    } else {
        let rest = queued_of(info, classes, oldp, oldd, upto - 1);
        let d = (info.dependencies@[upto - 1])@;
        if 0 <= upto - 1 < classes.len() && classes[upto - 1] == DepClass::Remote && !str_has(
            oldp,
            d,
        ) && !has_depth(oldd, d) {
            rest.push(d)
        } else {
            rest
        }
    }
}

/// The names one resolution step adds to the pacman dependencies, among
/// the first `upto` dependencies: those classified installable that
/// neither the pacman list nor the depth map held, in dependency order.
pub open spec fn pacman_added_of(
    info: PkgInfo,
    classes: Seq<DepClass>,
    oldp: Seq<String>,
    oldd: Seq<DepthEntry>,
    upto: int,
) -> Seq<Seq<char>>
    decreases upto,
{
    if upto <= 0 {
        Seq::empty()
    } else {
        let rest = pacman_added_of(info, classes, oldp, oldd, upto - 1);
        let d = (info.dependencies@[upto - 1])@;
        if 0 <= upto - 1 < classes.len() && classes[upto - 1] == DepClass::Installable
            && !str_has(oldp, d) && !has_depth(oldd, d) {
            rest.push(d)
        } else {
            rest
        }
    }
}

/// Entries named `x` keep their depth, so `x` keeps its depth.
proof fn lemma_depth_same(s1: Seq<DepthEntry>, s2: Seq<DepthEntry>, x: Seq<char>)
    requires
        unique_depth_names(s1),
        s1.len() == s2.len(),
        forall|k: int| 0 <= k < s1.len() ==> (#[trigger] s2[k]).name@ == s1[k].name@,
        forall|k: int|
            0 <= k < s1.len() && s1[k].name@ == x ==> (#[trigger] s2[k]).depth == s1[k].depth,
        has_depth(s1, x),
    ensures
        has_depth(s2, x),
        depth_of(s2, x) == depth_of(s1, x),
{
    let i = choose|i: int| 0 <= i < s1.len() && (#[trigger] s1[i]).name@ == x;
    assert(s2[i].name@ == x);
    let j = choose|j: int| 0 <= j < s2.len() && (#[trigger] s2[j]).name@ == x;
    assert(s1[j].name@ == x);
    assert(j == i);
}

/// Everything one resolution step guarantees, relating the state before
/// (`pre`) and after (`post`) adding `info` with the given per-dependency
/// classes, and the names it queued for remote lookup.
pub open spec fn resolve_step_post(
    pre: ToInstall,
    post: ToInstall,
    info: PkgInfo,
    classes: Seq<DepClass>,
    queued: Seq<String>,
) -> bool {
    let pd0 = depth_of(pre.depths@, info.name@);
                let oldp = pre.pacman_deps@;
                let newp = post.pacman_deps@;
                let oldd = pre.depths@;
                let newd = post.depths@;
                // pacman dependencies: kept, plus installable-classed dependencies
                &&& newp.len() >= oldp.len()
                &&& newp.subrange(0, oldp.len() as int) == oldp
                &&& forall|k: int|
                    oldp.len() <= k < newp.len() ==> from_installable_dep(
                        info,
                        classes,
                        classes.len() as int,
                        (#[trigger] newp[k])@,
                    )
                // the depth map: kept rows never shrink, new rows are the
                // returned queue, each one below the parent or deeper
                &&& newd.len() == oldd.len() + queued.len()
                &&& forall|k: int|
                    0 <= k < oldd.len() ==> (#[trigger] newd[k]).name@ == oldd[k].name@
                        && newd[k].depth >= oldd[k].depth
                &&& forall|t: int|
                    0 <= t < queued.len() ==> (#[trigger] newd[oldd.len() + t]).name@ == (queued[t])@
                        && newd[oldd.len() + t].depth as int >= pd0 + 1
                &&& forall|t: int|
                    0 <= t < queued.len() ==> !has_depth(oldd, (#[trigger] queued[t])@)
                        && from_remote_dep(info, classes, classes.len() as int, (queued[t])@)
                &&& unique_strs(queued)
                // exactly which names were queued and which joined pacman
                &&& text::str_views(queued) == queued_of(
                    info,
                    classes,
                    oldp,
                    oldd,
                    classes.len() as int,
                )
                &&& text::str_views(newp.skip(oldp.len() as int)) == pacman_added_of(
                    info,
                    classes,
                    oldp,
                    oldd,
                    classes.len() as int,
                )
                // no depth outruns one past a settled edge below the parent
                &&& forall|k: int|
                    0 <= k < oldd.len() ==> ((#[trigger] newd[k]).depth as int) <= (if oldd[
                        k].depth as int >= pd0 + 2 {
                        oldd[k].depth as int
                    } else {
                        pd0 + 2
                    })
                &&& forall|t: int|
                    0 <= t < queued.len() ==> ((#[trigger] newd[oldd.len() + t]).depth as int)
                        <= pd0 + 2
                // without a self-dependency the depths are exact: a kept row
                // rises to one below the parent exactly when a live
                // dependency names it and it lay above; each new row sits
                // one below the parent
                &&& (!has_live_dep(info, classes, classes.len() as int, info.name@) ==> {
                    &&& forall|k: int|
                        0 <= k < oldd.len() ==> ((#[trigger] newd[k]).depth as int) == (
                        if has_live_dep(info, classes, classes.len() as int, oldd[k].name@)
                            && (oldd[k].depth as int) < pd0 + 1 {
                            pd0 + 1
                        } else {
                            oldd[k].depth as int
                        })
                    &&& forall|t: int|
                        0 <= t < queued.len() ==> ((#[trigger] newd[oldd.len() + t]).depth as int)
                            == pd0 + 1
                })
                // the package is recorded, with the depth it stood at
                &&& (if has_info(pre.infos@, info.name@) {
                    &&& post.infos@.len() == pre.infos@.len()
                    &&& exists|k: int|
                        0 <= k < pre.infos@.len() && (#[trigger] pre.infos@[k]).info.name@
                            == info.name@ && post.infos@ == pre.infos@.update(
                            k,
                            post.infos@[k],
                        ) && entry_matches(
                            post.infos@[k],
                            info,
                            classes,
                            pd0,
                        )
                } else {
                    &&& post.infos@.len() == pre.infos@.len() + 1
                    &&& post.infos@.subrange(0, pre.infos@.len() as int) == pre.infos@
                    &&& entry_matches(post.infos@.last(), info, classes, pd0)
                })
}

impl ToInstall {
    /// Adds one resolved package: settles each dependency edge by its
    /// classification, records the package with the depth it stood at,
    /// and returns exactly the remote-classified dependencies new to both
    /// lists, in dependency order — so nothing is ever queued twice, and
    /// a package depending on itself queues nothing. Unless a live
    /// dependency names the package itself, every depth is pinned: a
    /// known dependency rises to the larger of its depth and one below
    /// the parent, a fresh one enters one below the parent.
    pub fn add_package_classified(&mut self, info: PkgInfo, classes: Vec<DepClass>) -> (r: Vec<
        String,
    >)
        requires
            old(self).wf(),
            info.wf(),
            classes@.len() == info.dependencies@.len(),
            has_depth(old(self).depths@, info.name@),
            depth_of(old(self).depths@, info.name@) + 1 < usize::MAX as int,
        ensures
            final(self).wf(),
            resolve_step_post(*old(self), *final(self), info, classes@, r@),
    {
        let ghost pd0 = depth_of(old(self).depths@, info.name@);
        let ghost oldd = old(self).depths@;
        let ghost oldp = old(self).pacman_deps@;

        // the parent's depth as it stands now, recorded with the entry
        let parent_chars = text::chars_of(info.name.as_str());
        let nd = self.depths.len();
        let mut parent_idx: usize = 0;
        let mut parent_found = false;
        let mut i: usize = 0;
        while i < nd
            invariant
                i <= nd,
                nd == self.depths@.len(),
                parent_chars@ == info.name@,
                parent_found ==> parent_idx < i && self.depths@[parent_idx as int].name@
                    == info.name@,
                !parent_found ==> forall|k: int|
                    0 <= k < i ==> (#[trigger] self.depths@[k]).name@ != info.name@,
                self == old(self),
            decreases nd - i,
        {
            if !parent_found && text::chars_eq(
                &text::chars_of(self.depths[i].name.as_str()),
                &parent_chars,
            ) {
                parent_found = true;
                parent_idx = i;
            }
            i = i + 1;
        }
        proof {
            assert(parent_found);
            lemma_depth_at(self.depths@, parent_idx as int);
        }
        let depth_at_add = self.depths[parent_idx].depth;

        let mut out: Vec<String> = Vec::new();
        let ndeps = info.dependencies.len();
        let mut j: usize = 0;
        while j < ndeps
            invariant
                j <= ndeps,
                ndeps == info.dependencies@.len(),
                classes@.len() == info.dependencies@.len(),
                parent_chars@ == info.name@,
                info.wf(),
                self.wf(),
                self.infos@ == old(self).infos@,
                oldd == old(self).depths@,
                oldp == old(self).pacman_deps@,
                pd0 == depth_of(oldd, info.name@),
                depth_at_add as int == pd0,
                pd0 + 1 < usize::MAX as int,
                has_depth(self.depths@, info.name@),
                pd0 <= depth_of(self.depths@, info.name@) <= pd0 + 1,
                !has_live_dep(info, classes@, j as int, info.name@) ==> depth_of(
                    self.depths@,
                    info.name@,
                ) == pd0,
                // pacman: prefix kept, additions are installable deps among the first j
                self.pacman_deps@.len() >= oldp.len(),
                self.pacman_deps@.subrange(0, oldp.len() as int) == oldp,
                text::str_views(self.pacman_deps@.skip(oldp.len() as int)) == pacman_added_of(
                    info,
                    classes@,
                    oldp,
                    oldd,
                    j as int,
                ),
                forall|k: int|
                    oldp.len() <= k < self.pacman_deps@.len() ==> from_installable_dep(
                        info,
                        classes@,
                        j as int,
                        (#[trigger] self.pacman_deps@[k])@,
                    ),
                // depths: prefix names kept and never shrinking, additions queued
                self.depths@.len() == oldd.len() + out@.len(),
                forall|k: int|
                    0 <= k < oldd.len() ==> (#[trigger] self.depths@[k]).name@ == oldd[k].name@
                        && self.depths@[k].depth >= oldd[k].depth && ((
                    self.depths@[k].depth as int) <= (if oldd[k].depth as int >= pd0 + 2 {
                        oldd[k].depth as int
                    } else {
                        pd0 + 2
                    })),
                forall|t: int|
                    0 <= t < out@.len() ==> (#[trigger] self.depths@[oldd.len() + t]).name@ == (
                    out@[t])@ && pd0 + 1 <= self.depths@[oldd.len() + t].depth as int <= pd0
                        + 2,
                forall|t: int|
                    0 <= t < out@.len() ==> !has_depth(oldd, (#[trigger] out@[t])@)
                        && from_remote_dep(info, classes@, j as int, (out@[t])@),
                text::str_views(out@) == queued_of(info, classes@, oldp, oldd, j as int),
                !has_live_dep(info, classes@, classes@.len() as int, info.name@) ==> forall|
                    k: int,
                |
                    0 <= k < oldd.len() ==> ((#[trigger] self.depths@[k]).depth as int) == (
                    if has_live_dep(info, classes@, j as int, oldd[k].name@) && (oldd[
                        k].depth as int) < pd0 + 1 {
                        pd0 + 1
                    } else {
                        oldd[k].depth as int
                    }),
                !has_live_dep(info, classes@, classes@.len() as int, info.name@) ==> forall|
                    t: int,
                |
                    0 <= t < out@.len() ==> ((#[trigger] self.depths@[oldd.len()
                        + t]).depth as int) == pd0 + 1,
                // what each settled edge guarantees
                forall|jj: int|
                    0 <= jj < j && #[trigger] classes@[jj] != DepClass::Installed ==> {
                        let d = (info.dependencies@[jj])@;
                        ||| str_has(self.pacman_deps@, d)
                        ||| (has_depth(self.depths@, d) && depth_of(self.depths@, d) >= pd0
                            + 1)
                    },
            decreases ndeps - j,
        {
            let ghost pre = *self;
            let ghost pre_out = out@;
            let class = classes[j];
            self.resolve_one(&info.name, &info.dependencies[j], class, &mut out);
            proof {
                let dep = info.dependencies@[j as int]@;
                let pdc = depth_of(pre.depths@, info.name@);
                let inpac = str_has(pre.pacman_deps@, dep);
                let indep = has_depth(pre.depths@, dep);
                // how the parent's depth moved
                if inpac || class == DepClass::Installed || (class == DepClass::Installable
                    && !indep) {
                    assert(depth_of(self.depths@, info.name@) == pdc);
                } else if indep {
                    if dep == info.name@ {
                        assert(depth_of(self.depths@, info.name@) <= pd0 + 1) by {
                            let w = choose|w: int|
                                0 <= w < self.depths@.len() && (
                                #[trigger] self.depths@[w]).name@ == info.name@;
                            assert(pre.depths@[w].name@ == info.name@);
                            assert(forall|jj: int|
                                0 <= jj < j ==> (#[trigger] info.dependencies@[jj])@
                                    != info.name@);
                            assert(!has_live_dep(info, classes@, j as int, info.name@)) by {
                                if has_live_dep(info, classes@, j as int, info.name@) {
                                    let wl = choose|wl: int|
                                        0 <= wl < j && classes@[wl] != DepClass::Installed && (
                                        #[trigger] info.dependencies@[wl])@ == info.name@;
                                }
                            }
                            assert(pdc == pd0);
                        }
                    } else {
                        lemma_depth_same(pre.depths@, self.depths@, info.name@);
                    }
                } else {
                    lemma_depth_push(pre.depths@, self.depths@.last(), info.name@);
                    assert(self.depths@ =~= pre.depths@.push(self.depths@.last()));
                    assert(depth_of(self.depths@, info.name@) == pdc);
                }
                // rows carried over from before this edge
                if inpac || class == DepClass::Installed || (class == DepClass::Installable
                    && !indep) {
                    assert(forall|k: int|
                        0 <= k < pre.depths@.len() ==> #[trigger] self.depths@[k]
                            == pre.depths@[k]);
                } else if indep {
                    assert(forall|k: int|
                        0 <= k < pre.depths@.len() ==> (#[trigger] self.depths@[k]).name@
                            == pre.depths@[k].name@ && self.depths@[k].depth
                            >= pre.depths@[k].depth);
                } else {
                    assert(forall|k: int|
                        0 <= k < pre.depths@.len() ==> #[trigger] self.depths@[k]
                            == pre.depths@[k]) by {
                        assert(forall|k: int|
                            0 <= k < pre.depths@.len() ==> #[trigger] self.depths@[k]
                                == self.depths@.subrange(0, pre.depths@.len() as int)[k]);
                    }
                }
                if self.pacman_deps@.len() > pre.pacman_deps@.len() {
                    assert(forall|k: int|
                        0 <= k < pre.pacman_deps@.len() ==> #[trigger] self.pacman_deps@[k]
                            == pre.pacman_deps@[k]) by {
                        assert(forall|k: int|
                            0 <= k < pre.pacman_deps@.len() ==> #[trigger] self.pacman_deps@[k]
                                == self.pacman_deps@.subrange(
                                0,
                                pre.pacman_deps@.len() as int,
                            )[k]);
                    }
                    assert(self.pacman_deps@.subrange(0, oldp.len() as int) =~= oldp);
                    assert((self.pacman_deps@[self.pacman_deps@.len() - 1])@ == dep);
                    assert(classes@[j as int] == DepClass::Installable);
                    assert forall|k: int|
                        oldp.len() <= k < self.pacman_deps@.len() implies exists|jj: int|
                        0 <= jj < j + 1 && classes@[jj] == DepClass::Installable && (
                        #[trigger] info.dependencies@[jj])@ == (
                        #[trigger] self.pacman_deps@[k])@ by {
                        if k == self.pacman_deps@.len() - 1 {
                            assert(0 <= j < j + 1 && classes@[j as int]
                                == DepClass::Installable && (info.dependencies@[j as int])@ == (
                            self.pacman_deps@[k])@);
                        }
                    }
                } else {
                    assert(self.pacman_deps@ == pre.pacman_deps@);
                    assert(self.pacman_deps@.subrange(0, oldp.len() as int) == oldp);
                }
                // prefix of the original depth map: names kept, depths monotone
                assert(forall|k: int|
                    0 <= k < oldd.len() ==> (#[trigger] self.depths@[k]).name@ == oldd[k].name@
                        && self.depths@[k].depth >= oldd[k].depth);
                assert(forall|t: int|
                    0 <= t < pre_out.len() ==> (#[trigger] self.depths@[oldd.len() + t]).name@
                        == (pre_out[t])@ && self.depths@[oldd.len() + t].depth
                        >= pre.depths@[oldd.len() + t].depth);
                // appended rows
                if !(inpac || class == DepClass::Installed) && !(class == DepClass::Installable
                    && !indep) && !indep {
                    // one row was appended for this dependency
                    assert(out@.len() == pre_out.len() + 1);
                    assert(forall|t: int|
                        0 <= t < pre_out.len() ==> (#[trigger] out@[t])@ == (pre_out[t])@
                            && out@[t] == pre_out[t]) by {
                        assert(forall|t: int|
                            0 <= t < pre_out.len() ==> out@[t] == #[trigger] out@.subrange(
                                0,
                                pre_out.len() as int,
                            )[t]);
                    }
                    assert(!has_depth(oldd, dep)) by {
                        if has_depth(oldd, dep) {
                            let w = choose|w: int|
                                0 <= w < oldd.len() && (#[trigger] oldd[w]).name@ == dep;
                            assert(pre.depths@[w].name@ == dep);
                        }
                    }
                    assert(class == DepClass::Remote);
                } else {
                    assert(out@ == pre_out);
                }
                // carry each pacman addition's witness one step
                assert forall|k: int|
                    oldp.len() <= k < self.pacman_deps@.len() implies from_installable_dep(
                    info,
                    classes@,
                    j + 1,
                    (#[trigger] self.pacman_deps@[k])@,
                ) by {
                    if k < pre.pacman_deps@.len() {
                        assert(self.pacman_deps@[k] == pre.pacman_deps@[k]);
                        assert(from_installable_dep(
                            info,
                            classes@,
                            j as int,
                            (pre.pacman_deps@[k])@,
                        ));
                        lemma_widen_installable(info, classes@, j as int, (pre.pacman_deps@[k])@);
                    } else {
                        assert(0 <= j < j + 1 && classes@[j as int] == DepClass::Installable
                            && (info.dependencies@[j as int])@ == (self.pacman_deps@[k])@);
                    }
                }
                // carry each queued dependency's witness one step
                assert forall|t: int|
                    0 <= t < out@.len() implies !has_depth(oldd, (#[trigger] out@[t])@)
                    && from_remote_dep(info, classes@, j + 1, (out@[t])@) by {
                    if t < pre_out.len() {
                        assert(out@[t] == pre_out[t]);
                        assert(!has_depth(oldd, (pre_out[t])@));
                        assert(from_remote_dep(info, classes@, j as int, (pre_out[t])@));
                        lemma_widen_remote(info, classes@, j as int, (pre_out[t])@);
                    } else {
                        assert((out@[t])@ == dep);
                        assert(0 <= j < j + 1 && classes@[j as int] == DepClass::Remote && (
                        info.dependencies@[j as int])@ == (out@[t])@);
                    }
                }
                // the parent-depth law carries under the live-dep premise
                assert(!has_live_dep(info, classes@, j + 1, info.name@) ==> depth_of(
                    self.depths@,
                    info.name@,
                ) == pd0) by {
                    if !has_live_dep(info, classes@, j + 1, info.name@) {
                        assert(!has_live_dep(info, classes@, j as int, info.name@)) by {
                            if has_live_dep(info, classes@, j as int, info.name@) {
                                let wl = choose|wl: int|
                                    0 <= wl < j && classes@[wl] != DepClass::Installed && (
                                    #[trigger] info.dependencies@[wl])@ == info.name@;
                                assert(0 <= wl < j + 1 && classes@[wl] != DepClass::Installed
                                    && (info.dependencies@[wl])@ == info.name@);
                            }
                        }
                        if dep == info.name@ && class != DepClass::Installed {
                            assert(0 <= j < j + 1 && classes@[j as int] != DepClass::Installed
                                && (info.dependencies@[j as int])@ == info.name@);
                            assert(false);
                        }
                        if inpac || class == DepClass::Installed || (class
                            == DepClass::Installable && !indep) {
                            assert(self.depths@ == pre.depths@);
                        } else if indep {
                            lemma_depth_same(pre.depths@, self.depths@, info.name@);
                        } else {
                            lemma_depth_push(pre.depths@, self.depths@.last(), info.name@);
                            assert(self.depths@ =~= pre.depths@.push(self.depths@.last()));
                        }
                    }
                }
                // the queue and the pacman additions follow the step's filters
                let m = oldp.len() as int;
                assert(forall|k: int|
                    0 <= k < m ==> #[trigger] pre.pacman_deps@[k] == oldp[k]) by {
                    assert(forall|k: int|
                        0 <= k < m ==> #[trigger] pre.pacman_deps@[k]
                            == pre.pacman_deps@.subrange(0, m)[k]);
                }
                if inpac {
                    // the name already stood among the pacman dependencies
                    assert(str_has(oldp, dep)) by {
                        let w = choose|w: int|
                            0 <= w < pre.pacman_deps@.len() && (
                            #[trigger] pre.pacman_deps@[w])@ == dep;
                        if w >= m {
                            assert(from_installable_dep(info, classes@, j as int, (
                            pre.pacman_deps@[w])@));
                            let wj = choose|wj: int|
                                0 <= wj < j && classes@[wj] == DepClass::Installable && (
                                #[trigger] info.dependencies@[wj])@ == dep;
                            assert((info.dependencies@[wj])@ == (
                            info.dependencies@[j as int])@);
                            assert(false);
                        }
                        assert((oldp[w])@ == dep);
                    }
                } else {
                    assert(!str_has(oldp, dep)) by {
                        if str_has(oldp, dep) {
                            let w = choose|w: int|
                                0 <= w < oldp.len() && (#[trigger] oldp[w])@ == dep;
                            assert((pre.pacman_deps@[w])@ == dep);
                        }
                    }
                }
                if indep {
                    // the name already stood in the depth map
                    assert(has_depth(oldd, dep)) by {
                        let w = choose|w: int|
                            0 <= w < pre.depths@.len() && (#[trigger] pre.depths@[w]).name@
                                == dep;
                        if w >= oldd.len() {
                            let t = w - oldd.len();
                            assert(pre.depths@[oldd.len() + t] == pre.depths@[w]);
                            assert((pre_out[t])@ == dep);
                            assert(from_remote_dep(info, classes@, j as int, (pre_out[t])@));
                            let wj = choose|wj: int|
                                0 <= wj < j && classes@[wj] == DepClass::Remote && (
                                #[trigger] info.dependencies@[wj])@ == (pre_out[t])@;
                            assert((info.dependencies@[wj])@ == (
                            info.dependencies@[j as int])@);
                            assert(false);
                        }
                        assert((oldd[w]).name@ == dep);
                    }
                } else {
                    assert(!has_depth(oldd, dep)) by {
                        if has_depth(oldd, dep) {
                            let w = choose|w: int|
                                0 <= w < oldd.len() && (#[trigger] oldd[w]).name@ == dep;
                            assert((pre.depths@[w]).name@ == dep);
                        }
                    }
                }
                if !(inpac || class == DepClass::Installed) && !(class == DepClass::Installable
                    && !indep) && !indep {
                    // this dependency was queued
                    assert(queued_of(info, classes@, oldp, oldd, j + 1) == queued_of(
                        info,
                        classes@,
                        oldp,
                        oldd,
                        j as int,
                    ).push(dep));
                    assert(text::str_views(out@) =~= queued_of(
                        info,
                        classes@,
                        oldp,
                        oldd,
                        j + 1,
                    ));
                    assert(pacman_added_of(info, classes@, oldp, oldd, j + 1)
                        == pacman_added_of(info, classes@, oldp, oldd, j as int));
                    assert(text::str_views(self.pacman_deps@.skip(m)) =~= pacman_added_of(
                        info,
                        classes@,
                        oldp,
                        oldd,
                        j + 1,
                    ));
                } else if class == DepClass::Installable && !inpac && !indep {
                    // this dependency joined the pacman list
                    assert(pacman_added_of(info, classes@, oldp, oldd, j + 1)
                        == pacman_added_of(info, classes@, oldp, oldd, j as int).push(dep));
                    assert(forall|k: int|
                        m <= k < pre.pacman_deps@.len() ==> #[trigger] self.pacman_deps@[k]
                            == pre.pacman_deps@[k]);
                    assert(text::str_views(self.pacman_deps@.skip(m)) =~= text::str_views(
                        pre.pacman_deps@.skip(m),
                    ).push(dep));
                    assert(text::str_views(self.pacman_deps@.skip(m)) =~= pacman_added_of(
                        info,
                        classes@,
                        oldp,
                        oldd,
                        j + 1,
                    ));
                    assert(queued_of(info, classes@, oldp, oldd, j + 1) == queued_of(
                        info,
                        classes@,
                        oldp,
                        oldd,
                        j as int,
                    ));
                    assert(text::str_views(out@) =~= queued_of(
                        info,
                        classes@,
                        oldp,
                        oldd,
                        j + 1,
                    ));
                } else {
                    // the filters exclude this dependency
                    assert(queued_of(info, classes@, oldp, oldd, j + 1) == queued_of(
                        info,
                        classes@,
                        oldp,
                        oldd,
                        j as int,
                    ));
                    assert(pacman_added_of(info, classes@, oldp, oldd, j + 1)
                        == pacman_added_of(info, classes@, oldp, oldd, j as int));
                    assert(text::str_views(out@) =~= queued_of(
                        info,
                        classes@,
                        oldp,
                        oldd,
                        j + 1,
                    ));
                    assert(self.pacman_deps@.skip(m) == pre.pacman_deps@.skip(m));
                    assert(text::str_views(self.pacman_deps@.skip(m)) =~= pacman_added_of(
                        info,
                        classes@,
                        oldp,
                        oldd,
                        j + 1,
                    ));
                }
                // exact depths when no live dependency names the package itself
                if !has_live_dep(info, classes@, classes@.len() as int, info.name@) {
                    assert(!has_live_dep(info, classes@, j as int, info.name@)) by {
                        if has_live_dep(info, classes@, j as int, info.name@) {
                            let wl = choose|wl: int|
                                0 <= wl < j && classes@[wl] != DepClass::Installed && (
                                #[trigger] info.dependencies@[wl])@ == info.name@;
                            assert(0 <= wl < classes@.len() && classes@[wl]
                                != DepClass::Installed && (info.dependencies@[wl])@
                                == info.name@);
                        }
                    }
                    assert(pdc == pd0);
                    assert forall|k: int| 0 <= k < oldd.len() implies ((
                    #[trigger] self.depths@[k]).depth as int) == (if has_live_dep(
                        info,
                        classes@,
                        j + 1,
                        oldd[k].name@,
                    ) && (oldd[k].depth as int) < pd0 + 1 {
                        pd0 + 1
                    } else {
                        oldd[k].depth as int
                    }) by {
                        let rn = oldd[k].name@;
                        assert((pre.depths@[k].depth as int) == (if has_live_dep(
                            info,
                            classes@,
                            j as int,
                            rn,
                        ) && (oldd[k].depth as int) < pd0 + 1 {
                            pd0 + 1
                        } else {
                            oldd[k].depth as int
                        }));
                        assert(pre.depths@[k].name@ == rn);
                        if inpac || class == DepClass::Installed || (class
                            == DepClass::Installable && !indep) {
                            assert(self.depths@[k] == pre.depths@[k]);
                            assert(has_live_dep(info, classes@, j + 1, rn) == has_live_dep(
                                info,
                                classes@,
                                j as int,
                                rn,
                            )) by {
                                if has_live_dep(info, classes@, j + 1, rn) && !has_live_dep(
                                    info,
                                    classes@,
                                    j as int,
                                    rn,
                                ) {
                                    let wl = choose|wl: int|
                                        0 <= wl < j + 1 && classes@[wl] != DepClass::Installed
                                            && (#[trigger] info.dependencies@[wl])@ == rn;
                                    assert(wl == j);
                                    assert(dep == rn);
                                    if class == DepClass::Installed {
                                        assert(false);
                                    } else if inpac {
                                        // a pacman name cannot stand in the depth map
                                        assert(str_has(pre.pacman_deps@, dep));
                                        let wp = choose|wp: int|
                                            0 <= wp < pre.pacman_deps@.len() && (
                                            #[trigger] pre.pacman_deps@[wp])@ == dep;
                                        assert(!has_depth(
                                            pre.depths@,
                                            (pre.pacman_deps@[wp])@,
                                        ));
                                        assert(pre.depths@[k].name@ == dep);
                                        assert(false);
                                    } else {
                                        // installable and absent from the depth map,
                                        // yet naming a row: impossible
                                        assert(pre.depths@[k].name@ == dep);
                                        assert(has_depth(pre.depths@, dep));
                                        assert(false);
                                    }
                                }
                                if has_live_dep(info, classes@, j as int, rn) {
                                    let wl = choose|wl: int|
                                        0 <= wl < j && classes@[wl] != DepClass::Installed
                                            && (#[trigger] info.dependencies@[wl])@ == rn;
                                    assert(0 <= wl < j + 1 && classes@[wl]
                                        != DepClass::Installed && (
                                    info.dependencies@[wl])@ == rn);
                                }
                            }
                        } else if indep {
                            if rn == dep {
                                assert(!has_live_dep(info, classes@, j as int, rn)) by {
                                    if has_live_dep(info, classes@, j as int, rn) {
                                        let wl = choose|wl: int|
                                            0 <= wl < j && classes@[wl]
                                                != DepClass::Installed && (
                                            #[trigger] info.dependencies@[wl])@ == rn;
                                        assert((info.dependencies@[wl])@ == (
                                        info.dependencies@[j as int])@);
                                        assert(false);
                                    }
                                }
                                assert(pre.depths@[k].depth == oldd[k].depth);
                                assert((self.depths@[k].depth as int) == (if (
                                pre.depths@[k].depth as int) >= pdc + 1 {
                                    pre.depths@[k].depth as int
                                } else {
                                    pdc + 1
                                }));
                                assert(has_live_dep(info, classes@, j + 1, rn)) by {
                                    assert(class != DepClass::Installed);
                                    assert(0 <= j < j + 1 && classes@[j as int]
                                        != DepClass::Installed && (
                                    info.dependencies@[j as int])@ == rn);
                                }
                            } else {
                                assert(self.depths@[k].depth == pre.depths@[k].depth);
                                assert(has_live_dep(info, classes@, j + 1, rn)
                                    == has_live_dep(info, classes@, j as int, rn)) by {
                                    if has_live_dep(info, classes@, j + 1, rn)
                                        && !has_live_dep(info, classes@, j as int, rn) {
                                        let wl = choose|wl: int|
                                            0 <= wl < j + 1 && classes@[wl]
                                                != DepClass::Installed && (
                                            #[trigger] info.dependencies@[wl])@ == rn;
                                        assert(wl == j);
                                        assert(false);
                                    }
                                    if has_live_dep(info, classes@, j as int, rn) {
                                        let wl = choose|wl: int|
                                            0 <= wl < j && classes@[wl]
                                                != DepClass::Installed && (
                                            #[trigger] info.dependencies@[wl])@ == rn;
                                        assert(0 <= wl < j + 1 && classes@[wl]
                                            != DepClass::Installed && (
                                        info.dependencies@[wl])@ == rn);
                                    }
                                }
                            }
                        } else {
                            assert(self.depths@[k] == pre.depths@[k]);
                            assert(has_live_dep(info, classes@, j + 1, rn) == has_live_dep(
                                info,
                                classes@,
                                j as int,
                                rn,
                            )) by {
                                if has_live_dep(info, classes@, j + 1, rn) && !has_live_dep(
                                    info,
                                    classes@,
                                    j as int,
                                    rn,
                                ) {
                                    let wl = choose|wl: int|
                                        0 <= wl < j + 1 && classes@[wl] != DepClass::Installed
                                            && (#[trigger] info.dependencies@[wl])@ == rn;
                                    assert(wl == j);
                                    assert(dep == rn);
                                    assert(pre.depths@[k].name@ == dep);
                                    assert(has_depth(pre.depths@, dep));
                                    assert(false);
                                }
                                if has_live_dep(info, classes@, j as int, rn) {
                                    let wl = choose|wl: int|
                                        0 <= wl < j && classes@[wl] != DepClass::Installed
                                            && (#[trigger] info.dependencies@[wl])@ == rn;
                                    assert(0 <= wl < j + 1 && classes@[wl]
                                        != DepClass::Installed && (
                                    info.dependencies@[wl])@ == rn);
                                }
                            }
                        }
                    }
                    assert forall|t: int| 0 <= t < out@.len() implies ((
                    #[trigger] self.depths@[oldd.len() + t]).depth as int) == pd0 + 1 by {
                        if t < pre_out.len() {
                            assert((pre.depths@[oldd.len() + t].depth as int) == pd0 + 1);
                            if !(inpac || class == DepClass::Installed) && !(class
                                == DepClass::Installable && !indep) && indep {
                                // a raise touches only rows named by this edge
                                assert((pre_out[t])@ != dep) by {
                                    assert(from_remote_dep(info, classes@, j as int, (
                                    pre_out[t])@));
                                    if (pre_out[t])@ == dep {
                                        let wj = choose|wj: int|
                                            0 <= wj < j && classes@[wj] == DepClass::Remote
                                                && (#[trigger] info.dependencies@[wj])@ == (
                                            pre_out[t])@;
                                        assert((info.dependencies@[wj])@ == (
                                        info.dependencies@[j as int])@);
                                        assert(false);
                                    }
                                }
                                assert(pre.depths@[oldd.len() + t].name@ == (pre_out[t])@);
                                assert(self.depths@[oldd.len() + t].depth
                                    == pre.depths@[oldd.len() + t].depth);
                            } else {
                                assert(self.depths@[oldd.len() + t].depth
                                    == pre.depths@[oldd.len() + t].depth);
                            }
                        } else {
                            assert(self.depths@.last().depth as int == pdc + 1);
                        }
                    }
                }
                // settled edges stay settled
                assert(forall|jj: int|
                    0 <= jj <= j && #[trigger] classes@[jj] != DepClass::Installed ==> {
                        let d = (info.dependencies@[jj])@;
                        ||| str_has(self.pacman_deps@, d)
                        ||| (has_depth(self.depths@, d) && depth_of(self.depths@, d) >= pd0
                            + 1)
                    }) by {
                    assert forall|jj: int|
                        0 <= jj <= j && #[trigger] classes@[jj] != DepClass::Installed implies {
                        let d = (info.dependencies@[jj])@;
                        ||| str_has(self.pacman_deps@, d)
                        ||| (has_depth(self.depths@, d) && depth_of(self.depths@, d) >= pd0
                            + 1)
                    } by {
                        let d = (info.dependencies@[jj])@;
                        if jj < j {
                            if str_has(pre.pacman_deps@, d) {
                                let w = choose|w: int|
                                    0 <= w < pre.pacman_deps@.len() && (
                                    #[trigger] pre.pacman_deps@[w])@ == d;
                                assert(self.pacman_deps@.subrange(
                                    0,
                                    pre.pacman_deps@.len() as int,
                                ) =~= pre.pacman_deps@);
                                assert((self.pacman_deps@[w])@ == d);
                            } else {
                                assert(has_depth(pre.depths@, d) && depth_of(pre.depths@, d)
                                    >= pd0 + 1);
                                if inpac || class == DepClass::Installed || (class
                                    == DepClass::Installable && !indep) {
                                    assert(self.depths@ == pre.depths@);
                                } else if indep {
                                    lemma_depth_monotone(pre.depths@, self.depths@, d);
                                } else {
                                    lemma_depth_push(pre.depths@, self.depths@.last(), d);
                                    assert(self.depths@ =~= pre.depths@.push(
                                        self.depths@.last(),
                                    ));
                                }
                            }
                        } else {
                            // the edge settled in this iteration
                            if inpac {
                                let w = choose|w: int|
                                    0 <= w < pre.pacman_deps@.len() && (
                                    #[trigger] pre.pacman_deps@[w])@ == d;
                                assert((self.pacman_deps@[w])@ == d);
                            } else if class == DepClass::Installable && !indep {
                                assert(self.pacman_deps@.last()@ == d);
                                assert(str_has(self.pacman_deps@, d));
                            } else if indep {
                                let w = choose|w: int|
                                    0 <= w < pre.depths@.len() && (
                                    #[trigger] pre.depths@[w]).name@ == d;
                                assert(self.depths@[w].name@ == d);
                                assert(self.depths@[w].depth as int >= pdc + 1);
                                lemma_depth_at(self.depths@, w);
                            } else {
                                assert(self.depths@.last().name@ == d);
                                lemma_depth_at(self.depths@, self.depths@.len() - 1);
                                assert(depth_of(self.depths@, d) as int >= pdc + 1);
                            }
                        }
                    }
                }
            }
            j = j + 1;
        }

        // record the package itself
        let ghost final_depths = self.depths@;
        let ghost final_pacman = self.pacman_deps@;
        let entry = ResolvedInfo { info, classes, depth_at_add };
        let at_opt = find_info_index(&self.infos, &parent_chars);
        proof {
            assert(entry_wf(entry, self.depths@, self.pacman_deps@)) by {
                assert(depth_of(self.depths@, entry.info.name@) >= pd0);
            }
        }
        if let Some(at) = at_opt {
            self.infos[at] = entry;
            proof {
                assert(has_info(old(self).infos@, old(self).infos@[at as int].info.name@));
            }
        } else {
            self.infos.push(entry);
            proof {
                assert(self.infos@.subrange(0, old(self).infos@.len() as int) =~= old(
                    self,
                ).infos@);
                if has_info(old(self).infos@, self.infos@.last().info.name@) {
                    let k = choose|k: int|
                        0 <= k < old(self).infos@.len() && (#[trigger] old(
                            self,
                        ).infos@[k]).info.name@ == self.infos@.last().info.name@;
                    assert(false);
                }
            }
        }
        proof {
            // the returned queue holds pairwise distinct names
            assert(unique_strs(out@)) by {
                assert forall|t1: int, t2: int| 0 <= t1 < t2 < out@.len() implies (
                #[trigger] out@[t1])@ != (#[trigger] out@[t2])@ by {
                    assert(final_depths[oldd.len() + t1].name@ == (out@[t1])@);
                    assert(final_depths[oldd.len() + t2].name@ == (out@[t2])@);
                }
            }
        }
        out
    }
}

/// The depth-map names that no resolved info accounts for, in order:
/// packages that were queued for lookup but never answered.
pub open spec fn not_found_of(depths: Seq<DepthEntry>, infos: Seq<ResolvedInfo>) -> Seq<
    Seq<char>,
>
    decreases depths.len(),
{
    if depths.len() == 0 {
        Seq::empty()
    } else {
        let rest = not_found_of(depths.drop_last(), infos);
        if has_info(infos, depths.last().name@) {
            rest
        } else {
            rest.push(depths.last().name@)
        }
    }
}

impl ToInstall {
    /// Adds one resolved package, asking the package-manager adapter to
    /// classify each dependency. On an adapter error nothing changes.
    /// Whatever the adapter answered, the step relation holds for some
    /// classification, and the returned names were unknown to the depth
    /// map before the call and are in it now, so no name is ever queued
    /// twice.
    pub fn add_package<A: crate::alpm_wrapper::AlpmWrapper>(
        &mut self,
        info: PkgInfo,
        alpm: &A,
    ) -> (r: Result<Vec<String>, RuaError>)
        requires
            old(self).wf(),
            info.wf(),
            has_depth(old(self).depths@, info.name@),
            depth_of(old(self).depths@, info.name@) + 1 < usize::MAX as int,
        ensures
            match r {
                Ok(deps) => {
                    &&& final(self).wf()
                    &&& has_info(final(self).infos@, info.name@)
                    &&& forall|t: int|
                        0 <= t < deps@.len() ==> !has_depth(
                            old(self).depths@,
                            (#[trigger] deps@[t])@,
                        ) && has_depth(final(self).depths@, (deps@[t])@)
                    &&& unique_strs(deps@)
                    // the step relation holds for the classes the adapter
                    // answered with, whatever they were
                    &&& exists|cs: Seq<DepClass>|
                        cs.len() == info.dependencies@.len() && #[trigger] resolve_step_post(
                            *old(self),
                            *final(self),
                            info,
                            cs,
                            deps@,
                        )
                },
                Err(_) => *final(self) == *old(self),
            },
    {
        let mut classes: Vec<DepClass> = Vec::new();
        let ndeps = info.dependencies.len();
        let mut j: usize = 0;
        while j < ndeps
            invariant
                j <= ndeps,
                ndeps == info.dependencies@.len(),
                classes@.len() == j,
                self == old(self),
            decreases ndeps - j,
        {
            let dep = info.dependencies[j].as_str();
            let class = if alpm.is_installed(dep)? {
                DepClass::Installed
            } else if alpm.is_installable(dep)? {
                DepClass::Installable
            } else {
                DepClass::Remote
            };
            classes.push(class);
            j = j + 1;
        }
        let ghost oldd = self.depths@;
        let ghost name_v = info.name@;
        let ghost cs = classes@;
        let out = self.add_package_classified(info, classes);
        proof {
            assert(cs.len() == info.dependencies@.len() && resolve_step_post(
                *old(self),
                *self,
                info,
                cs,
                out@,
            ));
        }
        proof {
            if has_info(old(self).infos@, name_v) {
                let k = choose|k: int|
                    0 <= k < old(self).infos@.len() && (#[trigger] old(
                        self,
                    ).infos@[k]).info.name@ == name_v && self.infos@ == old(self).infos@.update(
                        k,
                        self.infos@[k],
                    ) && entry_matches(self.infos@[k], self.infos@[k].info, self.infos@[k].classes@, self.infos@[k].depth_at_add as int);
                assert(has_info(self.infos@, name_v));
            } else {
                assert(self.infos@.last().info.name@ == name_v);
                assert(has_info(self.infos@, name_v));
            }
            assert forall|t: int| 0 <= t < out@.len() implies !has_depth(
                oldd,
                (#[trigger] out@[t])@,
            ) && has_depth(self.depths@, (out@[t])@) by {
                assert(self.depths@[oldd.len() + t].name@ == (out@[t])@);
            }
        }
        Ok(out)
    }

    /// The queued names that resolution never found remote info for: the
    /// depth-map names with no entry in the info list.
    pub fn not_found(&self) -> (r: Vec<String>)
        ensures
            text::str_views(r@) == not_found_of(self.depths@, self.infos@),
    {
        let mut r: Vec<String> = Vec::new();
        let n = self.depths.len();
        let mut i: usize = 0;
        while i < n
            invariant
                i <= n,
                n == self.depths@.len(),
                text::str_views(r@) == not_found_of(self.depths@.subrange(0, i as int), self.infos@),
            decreases n - i,
        {
            let name_chars = text::chars_of(self.depths[i].name.as_str());
            let found = find_info_index(&self.infos, &name_chars);
            proof {
                assert(self.depths@.subrange(0, i + 1).drop_last() =~= self.depths@.subrange(
                    0,
                    i as int,
                ));
                assert(self.depths@.subrange(0, i + 1).last() == self.depths@[i as int]);
            }
            match found {
                Some(k) => {
                    proof {
                        assert(has_info(self.infos@, self.depths@[i as int].name@));
                        assert(text::str_views(r@) =~= not_found_of(
                            self.depths@.subrange(0, i + 1),
                            self.infos@,
                        ));
                    }
                },
                None => {
                    r.push(self.depths[i].name.clone());
                    proof {
                        assert(text::str_views(r@) =~= not_found_of(
                            self.depths@.subrange(0, i + 1),
                            self.infos@,
                        ));
                    }
                },
            }
            i = i + 1;
        }
        proof {
            assert(self.depths@.subrange(0, n as int) =~= self.depths@);
        }
        r
    }
}

/// Resolver well-formedness: in a well-formed state where no package's
/// depth moved after it was recorded, every dependency that was not
/// installed at resolution time is either a pacman dependency or in the
/// depth map — never both — and in the latter case lies strictly deeper
/// than its parent.
pub proof fn lemma_resolver_well_formed(t: &ToInstall)
    requires
        t.wf(),
        forall|i: int|
            0 <= i < t.infos@.len() ==> depth_of(
                t.depths@,
                (#[trigger] t.infos@[i]).info.name@,
            ) == t.infos@[i].depth_at_add as int,
    ensures
        forall|i: int, j: int|
            0 <= i < t.infos@.len() && 0 <= j < (#[trigger] t.infos@[i]).classes@.len()
                && t.infos@[i].classes@[j] != DepClass::Installed ==> {
                let d = (#[trigger] t.infos@[i].info.dependencies@[j])@;
                &&& (str_has(t.pacman_deps@, d) || has_depth(t.depths@, d))
                &&& !(str_has(t.pacman_deps@, d) && has_depth(t.depths@, d))
                &&& (has_depth(t.depths@, d) ==> depth_of(t.depths@, d) >= depth_of(
                    t.depths@,
                    t.infos@[i].info.name@,
                ) + 1)
            },
{
    assert forall|i: int, j: int|
        0 <= i < t.infos@.len() && 0 <= j < (#[trigger] t.infos@[i]).classes@.len()
            && t.infos@[i].classes@[j] != DepClass::Installed implies {
        let d = (#[trigger] t.infos@[i].info.dependencies@[j])@;
        &&& (str_has(t.pacman_deps@, d) || has_depth(t.depths@, d))
        &&& !(str_has(t.pacman_deps@, d) && has_depth(t.depths@, d))
        &&& (has_depth(t.depths@, d) ==> depth_of(t.depths@, d) >= depth_of(
            t.depths@,
            t.infos@[i].info.name@,
        ) + 1)
    } by {
        let e = t.infos@[i];
        assert(entry_wf(e, t.depths@, t.pacman_deps@));
        let d = (e.info.dependencies@[j])@;
        if str_has(t.pacman_deps@, d) && has_depth(t.depths@, d) {
            let w = choose|w: int|
                0 <= w < t.pacman_deps@.len() && (#[trigger] t.pacman_deps@[w])@ == d;
            assert(!has_depth(t.depths@, (t.pacman_deps@[w])@));
        }
    }
}


/// Builds one info per split package of a parsed recipe: each package's
/// dependencies are the architecture-applicable run-time, make- and
/// check-dependencies, normalized and deduplicated. Fails on the first
/// atom the name grammar refuses.
/// The normalizations of a list of atom views.
pub open spec fn cleaned_seq(atoms: Seq<Seq<char>>) -> Seq<Seq<char>> {
    atoms.map_values(|a: Seq<char>| aur_rpc_utils::cleaned_name(a))
}

/// Whether every atom of the list normalizes to a valid name.
pub open spec fn all_cleaned_valid(atoms: Seq<Seq<char>>) -> bool {
    forall|i: int|
        0 <= i < atoms.len() ==> aur_rpc_utils::valid_package_name(
            aur_rpc_utils::cleaned_name(#[trigger] atoms[i]),
        )
}

/// The dependency atoms that apply to one split package on the given
/// architecture: its run-time dependencies, then the base's make- and
/// check-dependencies.
pub open spec fn pkg_dep_atoms(
    src: crate::srcinfo::Srcinfo,
    arch: Seq<char>,
    p: int,
) -> Seq<Seq<char>> {
    crate::srcinfo::supported_of(crate::srcinfo::av_views(src.pkgs@[p].depends@), arch)
        + crate::srcinfo::supported_of(crate::srcinfo::av_views(src.makedepends@), arch)
        + crate::srcinfo::supported_of(crate::srcinfo::av_views(src.checkdepends@), arch)
}

/// Builds one info per split package of a parsed recipe: each package's
/// dependencies are the architecture-applicable run-time, make- and
/// check-dependencies, in that order, normalized, first occurrence kept.
/// Fails exactly when some package has an atom whose normalization the
/// name grammar refuses.
pub fn srcinfo_to_pkginfo(src: &crate::srcinfo::Srcinfo, pacman_arch: &str) -> (r: Result<
    Vec<PkgInfo>,
    RuaError,
>)
    ensures
        match r {
            Ok(ps) => {
                &&& ps@.len() == src.pkgs@.len()
                &&& forall|p: int|
                    0 <= p < ps@.len() ==> {
                        &&& (#[trigger] ps@[p]).name@ == src.pkgs@[p].pkgname@
                        &&& ps@[p].base@ == src.pkgbase@
                        &&& ps@[p].wf()
                        &&& all_cleaned_valid(pkg_dep_atoms(*src, pacman_arch@, p))
                        &&& text::str_views(ps@[p].dependencies@) == dedup_first(
                            cleaned_seq(pkg_dep_atoms(*src, pacman_arch@, p)),
                        )
                    }
            },
            Err(_) => exists|p: int|
                0 <= p < src.pkgs@.len() && !all_cleaned_valid(
                    #[trigger] pkg_dep_atoms(*src, pacman_arch@, p),
                ),
        },
{
    let mut ps: Vec<PkgInfo> = Vec::new();
    let n = src.pkgs.len();
    let mut p: usize = 0;
    while p < n
        invariant
            p <= n,
            n == src.pkgs@.len(),
            ps@.len() == p,
            forall|q: int|
                0 <= q < p ==> {
                    &&& (#[trigger] ps@[q]).name@ == src.pkgs@[q].pkgname@
                    &&& ps@[q].base@ == src.pkgbase@
                    &&& ps@[q].wf()
                    &&& all_cleaned_valid(pkg_dep_atoms(*src, pacman_arch@, q))
                    &&& text::str_views(ps@[q].dependencies@) == dedup_first(
                        cleaned_seq(pkg_dep_atoms(*src, pacman_arch@, q)),
                    )
                },
        decreases n - p,
    {
        let dep_atoms = crate::srcinfo::supported_values(&src.pkgs[p].depends, pacman_arch);
        let make_atoms = crate::srcinfo::supported_values(&src.makedepends, pacman_arch);
        let check_atoms = crate::srcinfo::supported_values(&src.checkdepends, pacman_arch);
        let mut atoms: Vec<String> = Vec::new();
        let mut i: usize = 0;
        let n1 = dep_atoms.len();
        while i < n1
            invariant
                i <= n1,
                n1 == dep_atoms@.len(),
                atoms@ =~= dep_atoms@.subrange(0, i as int),
            decreases n1 - i,
        {
            atoms.push(dep_atoms[i].clone());
            i = i + 1;
        }
        let mut i: usize = 0;
        let n2 = make_atoms.len();
        while i < n2
            invariant
                i <= n2,
                n2 == make_atoms@.len(),
                atoms@ =~= dep_atoms@ + make_atoms@.subrange(0, i as int),
            decreases n2 - i,
        {
            atoms.push(make_atoms[i].clone());
            i = i + 1;
        }
        let mut i: usize = 0;
        let n3 = check_atoms.len();
        while i < n3
            invariant
                i <= n3,
                n3 == check_atoms@.len(),
                atoms@ =~= dep_atoms@ + make_atoms@ + check_atoms@.subrange(0, i as int),
            decreases n3 - i,
        {
            atoms.push(check_atoms[i].clone());
            i = i + 1;
        }
        proof {
            assert(atoms@ =~= dep_atoms@ + make_atoms@ + check_atoms@);
            assert(text::str_views(atoms@) =~~= text::str_views(dep_atoms@) + text::str_views(
                make_atoms@,
            ) + text::str_views(check_atoms@));
            assert(text::str_views(atoms@) =~~= pkg_dep_atoms(*src, pacman_arch@, p as int));
            assert(cleaned_views(atoms@) =~~= cleaned_seq(text::str_views(atoms@)));
        }
        let deps = match clean_dep_atoms(&atoms) {
            Ok(deps) => deps,
            Err(e) => {
                proof {
                    assert(!all_cleaned_valid(pkg_dep_atoms(*src, pacman_arch@, p as int)))
                        by {
                        if all_cleaned_valid(pkg_dep_atoms(*src, pacman_arch@, p as int)) {
                            assert forall|i: int|
                                0 <= i < atoms@.len() implies aur_rpc_utils::valid_package_name(
                                aur_rpc_utils::cleaned_name((#[trigger] atoms@[i])@),
                            ) by {
                                assert(pkg_dep_atoms(*src, pacman_arch@, p as int)[i]
                                    == atoms@[i]@);
                            }
                        }
                    }
                }
                return Err(e);
            },
        };
        let name = src.pkgs[p].pkgname.clone();
        let base = src.pkgbase.clone();
        ps.push(PkgInfo { name, base, dependencies: deps });
        proof {
            assert(all_cleaned_valid(pkg_dep_atoms(*src, pacman_arch@, p as int))) by {
                assert forall|i: int|
                    0 <= i < pkg_dep_atoms(*src, pacman_arch@, p as int).len()
                        implies aur_rpc_utils::valid_package_name(
                    aur_rpc_utils::cleaned_name(
                        #[trigger] pkg_dep_atoms(*src, pacman_arch@, p as int)[i],
                    ),
                ) by {
                    assert(pkg_dep_atoms(*src, pacman_arch@, p as int)[i] == (atoms@[i])@);
                }
            }
            assert(text::str_views(ps@.last().dependencies@) == dedup_first(
                cleaned_seq(pkg_dep_atoms(*src, pacman_arch@, p as int)),
            ));
        }
        p = p + 1;
    }
    Ok(ps)
}

} // verus!
