use vstd::prelude::*;
use crate::records::lemma_seq_push_contains;

verus! {

/// A resolution target platform.  `NoArch` is the universal pseudo-platform
/// whose index is fetched alongside any concrete platform.
#[derive(Clone, Copy, PartialEq, Eq, Hash, Structural, Debug)]
pub enum Platform {
    Linux64,
    Win64,
    Osx64,
    OsxArm64,
    NoArch,
}

impl View for Platform {
    type V = Platform;

    open spec fn view(&self) -> Platform {
        *self
    }
}

impl DeepView for Platform {
    type V = Platform;

    open spec fn deep_view(&self) -> Platform {
        *self
    }
}

impl Platform {
    /// Small integer tag, distinct per platform, used to build map keys.
    pub open spec fn spec_tag(self) -> usize {
        match self {
            Platform::Linux64 => 1,
            Platform::Win64 => 2,
            Platform::Osx64 => 3,
            Platform::OsxArm64 => 4,
            Platform::NoArch => 5,
        }
    }

    /// Executable counterpart of [`Platform::spec_tag`].
    pub fn tag(self) -> (r: usize)
        ensures
            r == self.spec_tag(),
    {
        match self {
            Platform::Linux64 => 1,
            Platform::Win64 => 2,
            Platform::Osx64 => 3,
            Platform::OsxArm64 => 4,
            Platform::NoArch => 5,
        }
    }
}

/// Distinct platforms carry distinct tags, so keying a map by tag keys it
/// by platform.
pub proof fn lemma_platform_tag_injective(a: Platform, b: Platform)
    ensures
        a.spec_tag() == b.spec_tag() ==> a == b,
{
}

/// Mathematical image of a [`Dep`].
#[verifier::ext_equal]
pub ghost struct DepView {
    pub name: Seq<char>,
    pub constraint: Seq<char>,
    pub platform: Option<Platform>,
}

impl DepView {
    /// Whether the dependency is declared for `platform`.
    pub open spec fn applies_to(self, platform: Platform) -> bool {
        match self.platform {
            Option::None => true,
            Option::Some(p) => p == platform,
        }
    }
}

/// One declared dependency: a package name, its version constraint, and
/// the platform it is conditioned on (none means every platform).
pub struct Dep {
    pub name: String,
    pub constraint: String,
    pub platform: Option<Platform>,
}

impl View for Dep {
    type V = DepView;

    open spec fn view(&self) -> DepView {
        DepView { name: self.name@, constraint: self.constraint@, platform: self.platform }
    }
}

impl DeepView for Dep {
    type V = DepView;

    open spec fn deep_view(&self) -> DepView {
        self.view()
    }
}

impl Dep {
    /// An exact copy of the dependency.
    pub fn duplicate(&self) -> (r: Dep)
        ensures
            r@ == self@,
    {
        let r = Dep {
            name: self.name.clone(),
            constraint: self.constraint.clone(),
            platform: self.platform,
        };
        assert(r@ =~= self@);
        r
    }

    /// Executable counterpart of [`DepView::applies_to`].
    pub fn applies_to(&self, platform: Platform) -> (r: bool)
        ensures
            r == self@.applies_to(platform),
    {
        match self.platform {
            Option::None => true,
            Option::Some(p) => p == platform,
        }
    }
}

/// A declared environment: its target platforms, channels, system-level
/// and language-level dependencies, capability set, and the solve group it
/// belongs to.
pub struct Environment {
    pub name: String,
    pub platforms: Vec<Platform>,
    pub channels: Vec<String>,
    pub conda_dependencies: Vec<Dep>,
    pub pypi_dependencies: Vec<Dep>,
    pub virtual_packages: Vec<String>,
    pub group: usize,
}

/// A solve group: a single environment standing alone, or a named group of
/// environments whose package set is resolved jointly.
pub enum SolveGroup {
    Single { environment: usize },
    Named { name: String },
}

/// The declared project: its environments and the solve groups they are
/// partitioned into.
pub struct Project {
    pub environments: Vec<Environment>,
    pub groups: Vec<SolveGroup>,
}

impl Project {
    /// Number of declared environments.
    pub open spec fn env_count(self) -> int {
        self.environments@.len() as int
    }

    /// Number of solve groups.
    pub open spec fn group_count(self) -> int {
        self.groups@.len() as int
    }

    /// The group the environment at index `e` belongs to.
    pub open spec fn group_of(self, e: int) -> int {
        self.environments@[e].group as int
    }

    /// Whether environment `e` is a member of group `g`.
    pub open spec fn is_member(self, e: int, g: int) -> bool {
        0 <= e < self.env_count() && self.group_of(e) == g
    }

    /// Well-formed: every environment names a declared group, a
    /// single-environment group holds exactly its own environment,
    /// environment names are distinct and so are each environment's
    /// declared platforms.
    pub open spec fn wf(self) -> bool {
        &&& forall|e: int| 0 <= e < self.env_count() ==> 0 <= #[trigger] self.group_of(e) < self.group_count()
        &&& forall|g: int|
            0 <= g < self.group_count() ==> match #[trigger] self.groups@[g] {
                SolveGroup::Single { environment } => self.is_member(
                    environment as int,
                    g,
                ) && forall|e: int| self.is_member(e, g) ==> e == environment as int,
                SolveGroup::Named { .. } => true,
            }
        &&& forall|i: int, j: int|
            0 <= i < j < self.env_count() ==> (#[trigger] self.environments@[i].name@)
                != (#[trigger] self.environments@[j].name@)
        &&& forall|e: int, i: int, j: int|
            0 <= e < self.env_count() && 0 <= i < j < self.environments@[e].platforms@.len()
                ==> (#[trigger] self.environments@[e].platforms@[i])
                != (#[trigger] self.environments@[e].platforms@[j])
    }

    /// A system-level dependency of group `g` that applies to `platform`.
    pub open spec fn group_has_conda_dep(self, g: int, platform: Platform, d: DepView) -> bool {
        exists|e: int, i: int|
            self.is_member(e, g) && 0 <= i
                < self.environments@[e].conda_dependencies.deep_view().len() && (
            #[trigger] self.environments@[e].conda_dependencies.deep_view()[i]) == d
                && d.applies_to(platform)
    }

    /// A language-level dependency of group `g` that applies to `platform`.
    pub open spec fn group_has_pypi_dep(self, g: int, platform: Platform, d: DepView) -> bool {
        exists|e: int, i: int|
            self.is_member(e, g) && 0 <= i
                < self.environments@[e].pypi_dependencies.deep_view().len() && (
            #[trigger] self.environments@[e].pypi_dependencies.deep_view()[i]) == d
                && d.applies_to(platform)
    }

    /// Environment `e` declares a language-level dependency for `platform`.
    pub open spec fn env_has_pypi_dep(self, e: int, platform: Platform) -> bool {
        exists|i: int|
            0 <= i < self.environments@[e].pypi_dependencies.deep_view().len() && (
            #[trigger] self.environments@[e].pypi_dependencies.deep_view()[i]).applies_to(platform)
    }

    /// Whether group `g` is a single environment standing alone.
    pub fn group_is_single(&self, g: usize) -> (r: Option<usize>)
        requires
            g < self.group_count(),
        ensures
            match r {
                Some(e) => self.groups@[g as int] == (SolveGroup::Single { environment: e }),
                None => self.groups@[g as int] is Named,
            },
    {
        match &self.groups[g] {
            SolveGroup::Single { environment } => Some(*environment),
            SolveGroup::Named { .. } => None,
        }
    }

    /// The names of environment `e`'s system-level dependencies that apply
    /// to `platform`: the roots of its dependency-closure subset.
    pub fn env_conda_dep_names(&self, e: usize, platform: Platform) -> (r: Vec<String>)
        requires
            e < self.env_count(),
        ensures
            forall|n: Seq<char>| #[trigger]
                r.deep_view().contains(n) == exists|i: int|
                    0 <= i < self.environments@[e as int].conda_dependencies.deep_view().len() && (
                    #[trigger] self.environments@[e as int].conda_dependencies.deep_view()[i]).applies_to(
                        platform,
                    ) && self.environments@[e as int].conda_dependencies.deep_view()[i].name == n,
    {
        let mut r: Vec<String> = Vec::new();
        push_applicable_dep_names(&mut r, &self.environments[e].conda_dependencies, platform);
        r
    }

    /// The names of environment `e`'s language-level dependencies that
    /// apply to `platform`.
    pub fn env_pypi_dep_names(&self, e: usize, platform: Platform) -> (r: Vec<String>)
        requires
            e < self.env_count(),
        ensures
            forall|n: Seq<char>| #[trigger]
                r.deep_view().contains(n) == exists|i: int|
                    0 <= i < self.environments@[e as int].pypi_dependencies.deep_view().len() && (
                    #[trigger] self.environments@[e as int].pypi_dependencies.deep_view()[i]).applies_to(
                        platform,
                    ) && self.environments@[e as int].pypi_dependencies.deep_view()[i].name == n,
    {
        let mut r: Vec<String> = Vec::new();
        push_applicable_dep_names(&mut r, &self.environments[e].pypi_dependencies, platform);
        r
    }

    /// The union of the group members' system-level dependencies for
    /// `platform`: the requirement set of one group solve.
    pub fn group_conda_deps(&self, g: usize, platform: Platform) -> (r: Vec<Dep>)
        ensures
            forall|d: DepView| #[trigger]
                r.deep_view().contains(d) == self.group_has_conda_dep(g as int, platform, d),
    {
        let mut r: Vec<Dep> = Vec::new();
        let mut e: usize = 0;
        while e < self.environments.len()
            invariant
                e <= self.environments@.len(),
                forall|d: DepView| #[trigger]
                    r.deep_view().contains(d) == exists|e2: int, i: int|
                        0 <= e2 < e && self.group_of(e2) == g && 0 <= i
                            < self.environments@[e2].conda_dependencies.deep_view().len() && (
                        #[trigger] self.environments@[e2].conda_dependencies.deep_view()[i]) == d
                            && d.applies_to(platform),
            decreases self.environments@.len() - e,
        {
            if self.environments[e].group == g {
                push_applicable_deps(&mut r, &self.environments[e].conda_dependencies, platform);
            }
            e += 1;
        }
        proof {
            assert forall|d: DepView| #[trigger] r.deep_view().contains(d)
                == self.group_has_conda_dep(g as int, platform, d) by {
                if self.group_has_conda_dep(g as int, platform, d) {
                    let (e2, i) = choose|e2: int, i: int|
                        self.is_member(e2, g as int) && 0 <= i
                            < self.environments@[e2].conda_dependencies.deep_view().len() && (
                        #[trigger] self.environments@[e2].conda_dependencies.deep_view()[i]) == d
                            && d.applies_to(platform);
                    assert(0 <= e2 < self.environments@.len());
                }
            }
        }
        r
    }

    /// The union of the group members' language-level dependencies for
    /// `platform`.
    pub fn group_pypi_deps(&self, g: usize, platform: Platform) -> (r: Vec<Dep>)
        ensures
            forall|d: DepView| #[trigger]
                r.deep_view().contains(d) == self.group_has_pypi_dep(g as int, platform, d),
    {
        let mut r: Vec<Dep> = Vec::new();
        let mut e: usize = 0;
        while e < self.environments.len()
            invariant
                e <= self.environments@.len(),
                forall|d: DepView| #[trigger]
                    r.deep_view().contains(d) == exists|e2: int, i: int|
                        0 <= e2 < e && self.group_of(e2) == g && 0 <= i
                            < self.environments@[e2].pypi_dependencies.deep_view().len() && (
                        #[trigger] self.environments@[e2].pypi_dependencies.deep_view()[i]) == d
                            && d.applies_to(platform),
            decreases self.environments@.len() - e,
        {
            if self.environments[e].group == g {
                push_applicable_deps(&mut r, &self.environments[e].pypi_dependencies, platform);
            }
            e += 1;
        }
        proof {
            assert forall|d: DepView| #[trigger] r.deep_view().contains(d)
                == self.group_has_pypi_dep(g as int, platform, d) by {
                if self.group_has_pypi_dep(g as int, platform, d) {
                    let (e2, i) = choose|e2: int, i: int|
                        self.is_member(e2, g as int) && 0 <= i
                            < self.environments@[e2].pypi_dependencies.deep_view().len() && (
                        #[trigger] self.environments@[e2].pypi_dependencies.deep_view()[i]) == d
                            && d.applies_to(platform);
                    assert(0 <= e2 < self.environments@.len());
                }
            }
        }
        r
    }

    /// A virtual capability declared by some member of group `g`.
    pub open spec fn group_has_virtual_package(self, g: int, n: Seq<char>) -> bool {
        exists|e: int, i: int|
            self.is_member(e, g) && 0 <= i
                < self.environments@[e].virtual_packages.deep_view().len() && (
            #[trigger] self.environments@[e].virtual_packages.deep_view()[i]) == n
    }

    /// A channel used by some member of group `g`.
    pub open spec fn group_has_channel(self, g: int, c: Seq<char>) -> bool {
        exists|e: int, i: int|
            self.is_member(e, g) && 0 <= i < self.environments@[e].channels.deep_view().len() && (
            #[trigger] self.environments@[e].channels.deep_view()[i]) == c
    }

    /// The union of the group members' virtual capability sets: the context
    /// a member's subset extraction filters against.
    pub fn group_virtual_packages(&self, g: usize) -> (r: Vec<String>)
        ensures
            forall|n: Seq<char>| #[trigger]
                r.deep_view().contains(n) == self.group_has_virtual_package(g as int, n),
    {
        let mut r: Vec<String> = Vec::new();
        let mut e: usize = 0;
        while e < self.environments.len()
            invariant
                e <= self.environments@.len(),
                forall|n: Seq<char>| #[trigger]
                    r.deep_view().contains(n) == exists|e2: int, i: int|
                        0 <= e2 < e && self.group_of(e2) == g && 0 <= i
                            < self.environments@[e2].virtual_packages.deep_view().len() && (
                        #[trigger] self.environments@[e2].virtual_packages.deep_view()[i]) == n,
            decreases self.environments@.len() - e,
        {
            if self.environments[e].group == g {
                push_all_strings(&mut r, &self.environments[e].virtual_packages);
            }
            e += 1;
        }
        proof {
            assert forall|n: Seq<char>| #[trigger] r.deep_view().contains(n)
                == self.group_has_virtual_package(g as int, n) by {
                if self.group_has_virtual_package(g as int, n) {
                    let (e2, i) = choose|e2: int, i: int|
                        self.is_member(e2, g as int) && 0 <= i
                            < self.environments@[e2].virtual_packages.deep_view().len() && (
                        #[trigger] self.environments@[e2].virtual_packages.deep_view()[i]) == n;
                    assert(0 <= e2 < self.environments@.len());
                }
            }
        }
        r
    }

    /// The union of the group members' channel lists: the indices one group
    /// solve loads records from.
    pub fn group_channels(&self, g: usize) -> (r: Vec<String>)
        ensures
            forall|c: Seq<char>| #[trigger]
                r.deep_view().contains(c) == self.group_has_channel(g as int, c),
    {
        let mut r: Vec<String> = Vec::new();
        let mut e: usize = 0;
        while e < self.environments.len()
            invariant
                e <= self.environments@.len(),
                forall|c: Seq<char>| #[trigger]
                    r.deep_view().contains(c) == exists|e2: int, i: int|
                        0 <= e2 < e && self.group_of(e2) == g && 0 <= i
                            < self.environments@[e2].channels.deep_view().len() && (
                        #[trigger] self.environments@[e2].channels.deep_view()[i]) == c,
            decreases self.environments@.len() - e,
        {
            if self.environments[e].group == g {
                push_all_strings(&mut r, &self.environments[e].channels);
            }
            e += 1;
        }
        proof {
            assert forall|c: Seq<char>| #[trigger] r.deep_view().contains(c)
                == self.group_has_channel(g as int, c) by {
                if self.group_has_channel(g as int, c) {
                    let (e2, i) = choose|e2: int, i: int|
                        self.is_member(e2, g as int) && 0 <= i
                            < self.environments@[e2].channels.deep_view().len() && (
                        #[trigger] self.environments@[e2].channels.deep_view()[i]) == c;
                    assert(0 <= e2 < self.environments@.len());
                }
            }
        }
        r
    }

    /// Checks the declaration for well-formedness; a passing check
    /// establishes [`Project::wf`], so a caller built from unchecked input
    /// can validate before starting a run.
    pub fn check_wf(&self) -> (r: bool)
        ensures
            r ==> self.wf(),
    {
        let ec = self.environments.len();
        let gc = self.groups.len();
        // Every environment names a declared group.
        let mut e: usize = 0;
        while e < ec
            invariant
                e <= ec,
                ec == self.environments@.len(),
                gc == self.groups@.len(),
                forall|e2: int| 0 <= e2 < e ==> 0 <= #[trigger] self.group_of(e2) < self.group_count(),
            decreases ec - e,
        {
            if self.environments[e].group >= gc {
                return false;
            }
            e += 1;
        }
        // A single-environment group holds exactly its own environment.
        let mut g: usize = 0;
        while g < gc
            invariant
                g <= gc,
                ec == self.environments@.len(),
                gc == self.groups@.len(),
                forall|g2: int|
                    0 <= g2 < g ==> match #[trigger] self.groups@[g2] {
                        SolveGroup::Single { environment } => self.is_member(
                            environment as int,
                            g2,
                        ) && forall|e2: int| self.is_member(e2, g2) ==> e2 == environment as int,
                        SolveGroup::Named { .. } => true,
                    },
            decreases gc - g,
        {
            match self.group_is_single(g) {
                Some(environment) => {
                    if environment >= ec || self.environments[environment].group != g {
                        return false;
                    }
                    let mut e2: usize = 0;
                    while e2 < ec
                        invariant
                            e2 <= ec,
                            g < gc,
                            environment < ec,
                            ec == self.environments@.len(),
                            gc == self.groups@.len(),
                            self.environments@[environment as int].group == g,
                            forall|e3: int|
                                0 <= e3 < e2 && self.is_member(e3, g as int) ==> e3
                                    == environment as int,
                        decreases ec - e2,
                    {
                        if self.environments[e2].group == g && e2 != environment {
                            return false;
                        }
                        e2 += 1;
                    }
                },
                None => {},
            }
            g += 1;
        }
        // Environment names are distinct.
        let mut i: usize = 0;
        while i < ec
            invariant
                i <= ec,
                ec == self.environments@.len(),
                forall|a: int, b: int|
                    0 <= a < b < ec && a < i ==> (#[trigger] self.environments@[a].name@) != (
                    #[trigger] self.environments@[b].name@),
            decreases ec - i,
        {
            let mut j: usize = i + 1;
            while j < ec
                invariant
                    i < j <= ec,
                    i < ec,
                    ec == self.environments@.len(),
                    forall|b: int|
                        i < b < j ==> (#[trigger] self.environments@[b].name@)
                            != self.environments@[i as int].name@,
                decreases ec - j,
            {
                if self.environments[i].name == self.environments[j].name {
                    return false;
                }
                j += 1;
            }
            i += 1;
        }
        // Each environment's declared platforms are distinct.
        let mut e3: usize = 0;
        while e3 < ec
            invariant
                e3 <= ec,
                ec == self.environments@.len(),
                forall|e4: int, a: int, b: int|
                    0 <= e4 < e3 && 0 <= a < b < self.environments@[e4].platforms@.len() ==> (
                    #[trigger] self.environments@[e4].platforms@[a]) != (
                    #[trigger] self.environments@[e4].platforms@[b]),
            decreases ec - e3,
        {
            let pc = self.environments[e3].platforms.len();
            let mut a: usize = 0;
            while a < pc
                invariant
                    a <= pc,
                    e3 < ec,
                    ec == self.environments@.len(),
                    pc == self.environments@[e3 as int].platforms@.len(),
                    forall|a2: int, b2: int|
                        0 <= a2 < b2 < pc && a2 < a ==> (
                        #[trigger] self.environments@[e3 as int].platforms@[a2]) != (
                        #[trigger] self.environments@[e3 as int].platforms@[b2]),
                decreases pc - a,
            {
                let mut b: usize = a + 1;
                while b < pc
                    invariant
                        a < b <= pc,
                        a < pc,
                        e3 < ec,
                        ec == self.environments@.len(),
                        pc == self.environments@[e3 as int].platforms@.len(),
                        forall|b2: int|
                            a < b2 < b ==> (
                            #[trigger] self.environments@[e3 as int].platforms@[b2])
                                != self.environments@[e3 as int].platforms@[a as int],
                    decreases pc - b,
                {
                    if self.environments[e3].platforms[a] == self.environments[e3].platforms[b] {
                        return false;
                    }
                    b += 1;
                }
                a += 1;
            }
            e3 += 1;
        }
        true
    }

    /// Executable counterpart of [`Project::env_has_pypi_dep`].
    pub fn env_has_pypi_deps(&self, e: usize, platform: Platform) -> (r: bool)
        requires
            e < self.env_count(),
        ensures
            r == self.env_has_pypi_dep(e as int, platform),
    {
        let deps = &self.environments[e].pypi_dependencies;
        let mut i: usize = 0;
        while i < deps.len()
            invariant
                i <= deps.len(),
                deps == &self.environments@[e as int].pypi_dependencies,
                forall|j: int| 0 <= j < i ==> !(#[trigger] deps.deep_view()[j]).applies_to(platform),
            decreases deps.len() - i,
        {
            if deps[i].applies_to(platform) {
                assert(deps.deep_view()[i as int].applies_to(platform));
                return true;
            }
            i += 1;
        }
        false
    }
}

/// Appends the names of the dependencies in `deps` that apply to
/// `platform`.
fn push_applicable_dep_names(out: &mut Vec<String>, deps: &Vec<Dep>, platform: Platform)
    ensures
        forall|n: Seq<char>| #[trigger]
            final(out).deep_view().contains(n) == (old(out).deep_view().contains(n) || exists|i: int|
                0 <= i < deps.deep_view().len() && (#[trigger] deps.deep_view()[i]).applies_to(
                    platform,
                ) && deps.deep_view()[i].name == n),
{
    let mut i: usize = 0;
    while i < deps.len()
        invariant
            i <= deps.len(),
            forall|n: Seq<char>| #[trigger]
                out.deep_view().contains(n) == (old(out).deep_view().contains(n) || exists|j: int|
                    0 <= j < i && (#[trigger] deps.deep_view()[j]).applies_to(platform)
                        && deps.deep_view()[j].name == n),
        decreases deps.len() - i,
    {
        if deps[i].applies_to(platform) {
            let ghost pre = out.deep_view();
            out.push(deps[i].name.clone());
            proof {
                assert(out.deep_view() =~= pre.push(deps@[i as int].name@));
                assert forall|n: Seq<char>| true implies #[trigger] out.deep_view().contains(n) == (
                pre.contains(n) || deps.deep_view()[i as int].name == n) by {
                    lemma_seq_push_contains(pre, deps@[i as int].name@, n);
                }
            }
        }
        i += 1;
    }
}

/// Appends copies of the dependencies in `deps` that apply to `platform`.
fn push_applicable_deps(out: &mut Vec<Dep>, deps: &Vec<Dep>, platform: Platform)
    ensures
        forall|d: DepView| #[trigger]
            final(out).deep_view().contains(d) == (old(out).deep_view().contains(d) || exists|i: int|
                0 <= i < deps.deep_view().len() && (#[trigger] deps.deep_view()[i]) == d
                    && d.applies_to(platform)),
{
    let mut i: usize = 0;
    while i < deps.len()
        invariant
            i <= deps.len(),
            forall|d: DepView| #[trigger]
                out.deep_view().contains(d) == (old(out).deep_view().contains(d) || exists|j: int|
                    0 <= j < i && (#[trigger] deps.deep_view()[j]) == d && d.applies_to(platform)),
        decreases deps.len() - i,
    {
        if deps[i].applies_to(platform) {
            let ghost pre = out.deep_view();
            out.push(deps[i].duplicate());
            proof {
                assert(out.deep_view() =~= pre.push(deps.deep_view()[i as int]));
                assert forall|d: DepView| true implies #[trigger] out.deep_view().contains(d) == (
                pre.contains(d) || deps.deep_view()[i as int] == d) by {
                    lemma_seq_push_contains(pre, deps.deep_view()[i as int], d);
                }
            }
        }
        i += 1;
    }
}

/// Appends copies of every string in `xs`.
fn push_all_strings(out: &mut Vec<String>, xs: &Vec<String>)
    ensures
        forall|n: Seq<char>| #[trigger]
            final(out).deep_view().contains(n) == (old(out).deep_view().contains(n)
                || xs.deep_view().contains(n)),
{
    let mut i: usize = 0;
    while i < xs.len()
        invariant
            i <= xs.len(),
            forall|n: Seq<char>| #[trigger]
                out.deep_view().contains(n) == (old(out).deep_view().contains(n)
                    || xs.deep_view().take(i as int).contains(n)),
        decreases xs.len() - i,
    {
        let ghost pre = out.deep_view();
        out.push(xs[i].clone());
        proof {
            assert(out.deep_view() =~= pre.push(xs.deep_view()[i as int]));
            assert forall|n: Seq<char>| true implies #[trigger] out.deep_view().contains(n) == (
            pre.contains(n) || xs.deep_view()[i as int] == n) by {
                lemma_seq_push_contains(pre, xs.deep_view()[i as int], n);
            }
            assert forall|n: Seq<char>| true implies #[trigger] xs.deep_view().take(
                i as int + 1,
            ).contains(n) == (xs.deep_view().take(i as int).contains(n) || xs.deep_view()[i as int]
                == n) by {
                lemma_seq_push_contains(xs.deep_view().take(i as int), xs.deep_view()[i as int], n);
                assert(xs.deep_view().take(i as int + 1) =~= xs.deep_view().take(i as int).push(
                    xs.deep_view()[i as int],
                ));
            }
        }
        i += 1;
    }
    proof {
        assert(xs.deep_view().take(xs.deep_view().len() as int) =~= xs.deep_view());
    }
}

} // verus!
