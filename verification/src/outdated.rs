use vstd::prelude::*;
use crate::model::Platform;
use crate::model::Project;

verus! {

/// The stale resolution targets, as the staleness detector reports them:
/// per environment, the platforms whose system-level (`conda`) or
/// language-level (`pypi`) records are out of date.
pub struct OutdatedEnvironments {
    pub conda: Vec<(usize, Vec<Platform>)>,
    pub pypi: Vec<(usize, Vec<Platform>)>,
}

/// One staleness list is well-formed for the project: every entry names a
/// declared environment, no environment occurs twice, and no platform
/// occurs twice within an entry.
pub open spec fn stale_list_wf(project: Project, l: Seq<(usize, Seq<Platform>)>) -> bool {
    &&& forall|i: int| 0 <= i < l.len() ==> ((#[trigger] l[i]).0 as int) < project.env_count()
    &&& forall|i: int, j: int| 0 <= i < j < l.len() ==> (#[trigger] l[i].0) != (#[trigger] l[j].0)
    &&& forall|i: int, a: int, b: int|
        0 <= i < l.len() && 0 <= a < b < l[i].1.len() ==> (#[trigger] l[i].1[a])
            != (#[trigger] l[i].1[b])
}

impl OutdatedEnvironments {
    /// The system-level staleness entries.
    pub open spec fn conda_entries(self) -> Seq<(usize, Seq<Platform>)> {
        self.conda.deep_view()
    }

    /// The language-level staleness entries.
    pub open spec fn pypi_entries(self) -> Seq<(usize, Seq<Platform>)> {
        self.pypi.deep_view()
    }

    /// (environment, platform) is a stale system-level target.
    pub open spec fn conda_stale(self, e: int, platform: Platform) -> bool {
        exists|i: int|
            0 <= i < self.conda_entries().len() && ((#[trigger] self.conda_entries()[i]).0 as int)
                == e && self.conda_entries()[i].1.contains(platform)
    }

    /// (environment, platform) is a stale language-level target.
    pub open spec fn pypi_stale(self, e: int, platform: Platform) -> bool {
        exists|i: int|
            0 <= i < self.pypi_entries().len() && ((#[trigger] self.pypi_entries()[i]).0 as int)
                == e && self.pypi_entries()[i].1.contains(platform)
    }

    /// Both staleness lists are well-formed for the project.
    pub open spec fn wf(self, project: Project) -> bool {
        stale_list_wf(project, self.conda_entries()) && stale_list_wf(
            project,
            self.pypi_entries(),
        )
    }

    /// Checks the staleness report for well-formedness; a passing check
    /// establishes [`OutdatedEnvironments::wf`].
    pub fn check_wf(&self, project: &Project) -> (r: bool)
        ensures
            r ==> self.wf(*project),
    {
        check_stale_list(project, &self.conda) && check_stale_list(project, &self.pypi)
    }

    /// Whether nothing at all is stale.
    pub fn is_empty(&self) -> (r: bool)
        ensures
            r == (self.conda_entries().len() == 0 && self.pypi_entries().len() == 0),
    {
        self.conda.len() == 0 && self.pypi.len() == 0
    }
}

fn check_stale_list(project: &Project, l: &Vec<(usize, Vec<Platform>)>) -> (r: bool)
    ensures
        r ==> stale_list_wf(*project, l.deep_view()),
{
    let ec = project.environments.len();
    let n = l.len();
    let mut i: usize = 0;
    while i < n
        invariant
            i <= n,
            n == l@.len(),
            ec == project.env_count(),
            l.deep_view().len() == n,
            forall|i2: int|
                0 <= i2 < i ==> ((#[trigger] l.deep_view()[i2]).0 as int) < project.env_count(),
            forall|a: int, b: int|
                0 <= a < b < n && a < i ==> (#[trigger] l.deep_view()[a].0) != (
                #[trigger] l.deep_view()[b].0),
        decreases n - i,
    {
        proof {
            assert(l.deep_view()[i as int] == l@[i as int].deep_view());
        }
        if l[i].0 >= ec {
            return false;
        }
        let mut j: usize = i + 1;
        while j < n
            invariant
                i < j <= n,
                i < n,
                n == l@.len(),
                l.deep_view().len() == n,
                forall|b: int|
                    i < b < j ==> (#[trigger] l.deep_view()[b].0) != l.deep_view()[i as int].0,
            decreases n - j,
        {
            proof {
                assert(l.deep_view()[j as int] == l@[j as int].deep_view());
                assert(l.deep_view()[i as int] == l@[i as int].deep_view());
            }
            if l[i].0 == l[j].0 {
                return false;
            }
            j += 1;
        }
        i += 1;
    }
    let mut i2: usize = 0;
    while i2 < n
        invariant
            i2 <= n,
            n == l@.len(),
            l.deep_view().len() == n,
            forall|i3: int, a: int, b: int|
                0 <= i3 < i2 && 0 <= a < b < l.deep_view()[i3].1.len() ==> (
                #[trigger] l.deep_view()[i3].1[a]) != (#[trigger] l.deep_view()[i3].1[b]),
        decreases n - i2,
    {
        proof {
            assert(l.deep_view()[i2 as int] == l@[i2 as int].deep_view());
            assert(l@[i2 as int].1.deep_view() =~= l@[i2 as int].1@);
        }
        let pc = l[i2].1.len();
        let mut a: usize = 0;
        while a < pc
            invariant
                a <= pc,
                i2 < n,
                n == l@.len(),
                l.deep_view().len() == n,
                pc == l@[i2 as int].1@.len(),
                l.deep_view()[i2 as int].1 == l@[i2 as int].1@,
                forall|a2: int, b2: int|
                    0 <= a2 < b2 < pc && a2 < a ==> (#[trigger] l@[i2 as int].1@[a2]) != (
                    #[trigger] l@[i2 as int].1@[b2]),
            decreases pc - a,
        {
            let mut b: usize = a + 1;
            while b < pc
                invariant
                    a < b <= pc,
                    a < pc,
                    i2 < n,
                    n == l@.len(),
                    pc == l@[i2 as int].1@.len(),
                    forall|b2: int|
                        a < b2 < b ==> (#[trigger] l@[i2 as int].1@[b2]) != l@[i2 as int].1@[a as int],
                decreases pc - b,
            {
                if l[i2].1[a] == l[i2].1[b] {
                    return false;
                }
                b += 1;
            }
            a += 1;
        }
        i2 += 1;
    }
    true
}

} // verus!
