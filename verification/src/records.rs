use vstd::prelude::*;

verus! {

/// A fully resolved package entry: its name, its version, the names of the
/// packages it depends on, and — for system-level records that are also
/// available as language-level packages — the bridged language-package name.
pub struct Record {
    pub name: String,
    pub version: u64,
    pub depends: Vec<String>,
    pub purl: Option<String>,
}

/// Mathematical image of a [`Record`].
#[verifier::ext_equal]
pub ghost struct RecView {
    pub name: Seq<char>,
    pub version: u64,
    pub depends: Seq<Seq<char>>,
    pub purl: Option<Seq<char>>,
}

impl View for Record {
    type V = RecView;

    open spec fn view(&self) -> RecView {
        RecView {
            name: self.name@,
            version: self.version,
            depends: self.depends.deep_view(),
            purl: self.purl.deep_view(),
        }
    }
}

impl DeepView for Record {
    type V = RecView;

    open spec fn deep_view(&self) -> RecView {
        self.view()
    }
}

/// Whether some record in `s` carries the name `n`.
pub open spec fn contains_name(s: Seq<RecView>, n: Seq<char>) -> bool {
    exists|i: int| 0 <= i < s.len() && #[trigger] s[i].name == n
}

/// Index of the first record in `s` named `n`, or -1 when there is none.
pub open spec fn first_idx(s: Seq<RecView>, n: Seq<char>) -> int
    decreases s.len(),
{
    if s.len() == 0 {
        -1
    } else if s[0].name == n {
        0
    } else if first_idx(s.drop_first(), n) < 0 {
        -1
    } else {
        first_idx(s.drop_first(), n) + 1
    }
}

/// The record in `s` that owns the name `n`: the first one so named.
pub open spec fn spec_find(s: Seq<RecView>, n: Seq<char>) -> Option<RecView> {
    if first_idx(s, n) >= 0 {
        Some(s[first_idx(s, n)])
    } else {
        None
    }
}

/// Every record name occurs at most once.
pub open spec fn unique_names(s: Seq<RecView>) -> bool {
    forall|i: int, j: int| 0 <= i < j < s.len() ==> (#[trigger] s[i].name) != (#[trigger] s[j].name)
}

/// `rec` is a correct merge pick out of `iv` for its name: it occurs in
/// `iv`, no record of the same name has a higher version, and it is the
/// first record of its name attaining that version.
pub open spec fn merged_from(iv: Seq<RecView>, rec: RecView) -> bool {
    exists|k: int|
        0 <= k < iv.len() && #[trigger] iv[k] == rec && (forall|j: int|
            0 <= j < iv.len() && (#[trigger] iv[j].name) == rec.name ==> iv[j].version
                <= rec.version) && (forall|j: int|
            0 <= j < k && (#[trigger] iv[j].name) == rec.name ==> iv[j].version < rec.version)
}

/// Appending one element to a sequence adds exactly that element to its
/// membership.
pub(crate) proof fn lemma_seq_push_contains<A>(s: Seq<A>, x: A, y: A)
    ensures
        s.push(x).contains(y) == (s.contains(y) || x == y),
{
    if s.contains(y) {
        let w = choose|w: int| 0 <= w < s.len() && s[w] == y;
        assert(s.push(x)[w] == y);
    }
    if x == y {
        assert(s.push(x)[s.len() as int] == y);
    }
    if s.push(x).contains(y) {
        let w = choose|w: int| 0 <= w < s.push(x).len() && s.push(x)[w] == y;
        if w < s.len() {
            assert(s[w] == y);
        }
    }
}

/// A dependency chain inside `s`: it starts at one of `roots`, every link
/// is a record present in `s` and outside `context`, and each next link is
/// named by a dependency of the previous one.
pub open spec fn is_dep_path(
    s: Seq<RecView>,
    roots: Seq<Seq<char>>,
    context: Seq<Seq<char>>,
    path: Seq<Seq<char>>,
) -> bool {
    &&& path.len() >= 1
    &&& roots.contains(path[0])
    &&& forall|i: int|
        0 <= i < path.len() ==> contains_name(s, #[trigger] path[i]) && !context.contains(path[i])
    &&& forall|i: int|
        0 <= i < path.len() - 1 ==> spec_find(s, #[trigger] path[i]).unwrap().depends.contains(
            path[i + 1],
        )
}

/// The name `n` is reachable from `roots` by following dependencies of
/// records in `s`, never passing through a name in `context`.
pub open spec fn reachable(
    s: Seq<RecView>,
    roots: Seq<Seq<char>>,
    context: Seq<Seq<char>>,
    n: Seq<char>,
) -> bool {
    exists|path: Seq<Seq<char>>| #[trigger] is_dep_path(s, roots, context, path) && path.last() == n
}

pub proof fn lemma_first_idx_bounds(s: Seq<RecView>, n: Seq<char>)
    ensures
        first_idx(s, n) >= 0 ==> first_idx(s, n) < s.len() && s[first_idx(s, n)].name == n
            && forall|j: int| 0 <= j < first_idx(s, n) ==> (#[trigger] s[j].name) != n,
        first_idx(s, n) < 0 ==> !contains_name(s, n),
    decreases s.len(),
{
    if s.len() == 0 {
    } else if s[0].name == n {
    } else {
        lemma_first_idx_bounds(s.drop_first(), n);
        let r = first_idx(s.drop_first(), n);
        if r >= 0 {
            assert(s.drop_first()[r] == s[r + 1]);
            assert(forall|j: int|
                1 <= j < r + 1 ==> (#[trigger] s[j].name) == s.drop_first()[j - 1].name);
        } else {
            assert forall|i: int| 0 <= i < s.len() implies (#[trigger] s[i].name) != n by {
                if i > 0 {
                    assert(s.drop_first()[i - 1] == s[i]);
                    assert(!contains_name(s.drop_first(), n));
                }
            }
        }
    }
}

proof fn lemma_first_idx_at(s: Seq<RecView>, n: Seq<char>, i: int)
    requires
        unique_names(s),
        0 <= i < s.len(),
        s[i].name == n,
    ensures
        first_idx(s, n) == i,
        spec_find(s, n) == Some(s[i]),
{
    lemma_first_idx_bounds(s, n);
    let f = first_idx(s, n);
    assert(contains_name(s, n));
    assert(f >= 0);
    if f < i {
        assert(s[f].name == s[i].name);
    } else if f > i {
        assert(s[i].name != n);
    }
}

/// The records of a sequence each name a record of `s` with the same content.
pub open spec fn drawn_from(r: Seq<RecView>, s: Seq<RecView>) -> bool {
    forall|q: int| 0 <= q < r.len() ==> spec_find(s, (#[trigger] r[q]).name) == Some(r[q])
}

/// A deduplicated, name-keyed collection of resolved package records: at
/// most one record per package name.
pub struct RecordsByName {
    pub records: Vec<Record>,
}

impl View for RecordsByName {
    type V = Seq<RecView>;

    open spec fn view(&self) -> Seq<RecView> {
        self.records.deep_view()
    }
}

impl Record {
    /// An exact copy of the record.
    pub fn duplicate(&self) -> (r: Record)
        ensures
            r@ == self@,
    {
        let mut depends: Vec<String> = Vec::new();
        let mut i: usize = 0;
        while i < self.depends.len()
            invariant
                i <= self.depends.len(),
                depends@.len() == i,
                forall|j: int| 0 <= j < i ==> (#[trigger] depends@[j])@ == self.depends@[j]@,
            decreases self.depends.len() - i,
        {
            depends.push(self.depends[i].clone());
            i += 1;
        }
        assert(depends.deep_view() =~= self.depends.deep_view());
        let purl = match &self.purl {
            Some(p) => Some(p.clone()),
            None => None,
        };
        let r = Record { name: self.name.clone(), version: self.version, depends, purl };
        assert(r@ =~= self@);
        r
    }
}

impl RecordsByName {
    /// Well-formed: no two records share a name.
    pub open spec fn wf(self) -> bool {
        unique_names(self@)
    }

    /// An empty collection.
    pub fn new() -> (r: RecordsByName)
        ensures
            r@ =~= Seq::<RecView>::empty(),
            r.wf(),
    {
        RecordsByName { records: Vec::new() }
    }

    /// Number of records held.
    pub fn len(&self) -> (r: usize)
        ensures
            r == self@.len(),
    {
        self.records.len()
    }

    /// Whether no two held records share a name: the executable
    /// counterpart of [`RecordsByName::wf`].
    pub fn is_deduplicated(&self) -> (r: bool)
        ensures
            r == self.wf(),
    {
        let n = self.records.len();
        let mut i: usize = 0;
        while i < n
            invariant
                i <= n,
                n == self@.len(),
                forall|a: int, b: int|
                    0 <= a < b < n && a < i ==> (#[trigger] self@[a].name) != (
                    #[trigger] self@[b].name),
            decreases n - i,
        {
            let mut j: usize = i + 1;
            while j < n
                invariant
                    i < j <= n,
                    i < n,
                    n == self@.len(),
                    forall|b: int| i < b < j ==> (#[trigger] self@[b].name) != self@[i as int].name,
                decreases n - j,
            {
                if self.records[i].name == self.records[j].name {
                    assert(self@[i as int].name == self@[j as int].name);
                    return false;
                }
                j += 1;
            }
            i += 1;
        }
        true
    }

    /// Whether a record named `name` is present.
    pub fn contains_name(&self, name: &String) -> (r: bool)
        ensures
            r == contains_name(self@, name@),
    {
        let mut i: usize = 0;
        while i < self.records.len()
            invariant
                i <= self.records.len(),
                forall|j: int| 0 <= j < i ==> (#[trigger] self@[j].name) != name@,
            decreases self.records.len() - i,
        {
            if self.records[i].name == *name {
                assert(self@[i as int].name == name@);
                return true;
            }
            i += 1;
        }
        false
    }

    /// Index of the record named `name`, if present.
    pub fn position_of(&self, name: &String) -> (r: Option<usize>)
        ensures
            match r {
                Some(i) => i < self@.len() && self@[i as int].name == name@,
                None => !contains_name(self@, name@),
            },
    {
        let mut i: usize = 0;
        while i < self.records.len()
            invariant
                i <= self.records.len(),
                forall|j: int| 0 <= j < i ==> (#[trigger] self@[j].name) != name@,
            decreases self.records.len() - i,
        {
            if self.records[i].name == *name {
                return Some(i);
            }
            i += 1;
        }
        None
    }

    /// The record named `name`, if present.
    pub fn find(&self, name: &String) -> (r: Option<&Record>)
        requires
            self.wf(),
        ensures
            match r {
                Some(rec) => spec_find(self@, name@) == Some(rec@),
                None => spec_find(self@, name@) is None,
            },
    {
        match self.position_of(name) {
            Some(i) => {
                proof {
                    lemma_first_idx_at(self@, name@, i as int);
                }
                Some(&self.records[i])
            },
            None => {
                proof {
                    lemma_first_idx_bounds(self@, name@);
                }
                None
            },
        }
    }

    /// An exact copy of the collection.
    pub fn duplicate(&self) -> (r: RecordsByName)
        ensures
            r@ == self@,
    {
        let mut records: Vec<Record> = Vec::new();
        let mut i: usize = 0;
        while i < self.records.len()
            invariant
                i <= self.records.len(),
                records@.len() == i,
                forall|j: int| 0 <= j < i ==> (#[trigger] records@[j])@ == self.records@[j]@,
            decreases self.records.len() - i,
        {
            records.push(self.records[i].duplicate());
            i += 1;
        }
        assert(records.deep_view() =~= self@);
        RecordsByName { records }
    }

    /// The records as a plain list.
    pub fn into_inner(self) -> (r: Vec<Record>)
        ensures
            r.deep_view() == self@,
    {
        self.records
    }

    /// Builds the collection from an arbitrary list of records, merging by
    /// name: when several records share a name, the first record carrying
    /// the highest version wins.  A list whose names are already unique is
    /// kept exactly as it is.
    pub fn from_iter(input: &Vec<Record>) -> (r: RecordsByName)
        ensures
            r.wf(),
            forall|n: Seq<char>| #[trigger]
                contains_name(r@, n) == contains_name(input.deep_view(), n),
            forall|q: int| 0 <= q < r@.len() ==> merged_from(input.deep_view(), #[trigger] r@[q]),
            unique_names(input.deep_view()) ==> r@ == input.deep_view(),
    {
        let iv = Ghost(input.deep_view());
        let mut out = RecordsByName { records: Vec::new() };
        let mut i: usize = 0;
        while i < input.len()
            invariant
                i <= input.len(),
                iv@ == input.deep_view(),
                iv@.len() == input.len(),
                out.wf(),
                forall|n: Seq<char>| #[trigger]
                    contains_name(out@, n) == contains_name(iv@.take(i as int), n),
                forall|q: int|
                    0 <= q < out@.len() ==> merged_from_upto(iv@, i as int, #[trigger] out@[q]),
                unique_names(iv@) ==> out@ == iv@.take(i as int),
            decreases input.len() - i,
        {
            let ghost pre = out@;
            let rec = input[i].duplicate();
            assert(rec@ == iv@[i as int]);
            match out.position_of(&rec.name) {
                Some(p) => {
                    proof {
                        lemma_first_idx_at(out@, rec@.name, p as int);
                        assert(contains_name(out@, rec@.name));
                        assert(contains_name(iv@.take(i as int), rec@.name));
                        if unique_names(iv@) {
                            let w = choose|w: int|
                                0 <= w < iv@.take(i as int).len() && #[trigger] iv@.take(
                                    i as int,
                                )[w].name == rec@.name;
                            assert(iv@[w].name == iv@[i as int].name);
                            assert(false);
                        }
                    }
                    if out.records[p].version < rec.version {
                        out.records.set(p, rec);
                        proof {
                            assert(out@ =~= pre.update(p as int, iv@[i as int]));
                            lemma_from_iter_replace(iv@, i as int, pre, p as int, out@);
                        }
                    } else {
                        proof {
                            lemma_from_iter_keep(iv@, i as int, pre, p as int);
                        }
                    }
                },
                None => {
                    out.records.push(rec);
                    proof {
                        assert(out@ =~= pre.push(iv@[i as int]));
                        lemma_from_iter_push(iv@, i as int, pre, out@);
                    }
                },
            }
            i += 1;
        }
        proof {
            assert(iv@.take(iv@.len() as int) =~= iv@);
        }
        out
    }
}

impl RecordsByName {
    /// Merges two collections into one: the union of their names, keeping
    /// for every name shared by both sides the record with the higher
    /// version (the law used when environments that did not share a solve
    /// group before are first combined into one).
    pub fn merge(&self, other: &RecordsByName) -> (r: RecordsByName)
        ensures
            r.wf(),
            forall|n: Seq<char>| #[trigger]
                contains_name(r@, n) == (contains_name(self@, n) || contains_name(other@, n)),
            forall|q: int| 0 <= q < r@.len() ==> merged_from(self@ + other@, #[trigger] r@[q]),
            forall|i: int|
                0 <= i < self@.len() ==> spec_find(r@, (#[trigger] self@[i]).name).unwrap().version
                    >= self@[i].version,
            forall|i: int|
                0 <= i < other@.len() ==> spec_find(r@, (#[trigger] other@[i]).name).unwrap().version
                    >= other@[i].version,
    {
        let mut all: Vec<Record> = Vec::new();
        let mut i: usize = 0;
        while i < self.records.len()
            invariant
                i <= self.records.len(),
                all@.len() == i,
                forall|j: int| 0 <= j < i ==> (#[trigger] all@[j])@ == self.records@[j]@,
            decreases self.records.len() - i,
        {
            all.push(self.records[i].duplicate());
            i += 1;
        }
        let mut k: usize = 0;
        while k < other.records.len()
            invariant
                k <= other.records.len(),
                all@.len() == self.records@.len() + k,
                forall|j: int|
                    0 <= j < self.records@.len() ==> (#[trigger] all@[j])@ == self.records@[j]@,
                forall|j: int|
                    0 <= j < k ==> (#[trigger] all@[self.records@.len() + j])@
                        == other.records@[j]@,
            decreases other.records.len() - k,
        {
            all.push(other.records[k].duplicate());
            k += 1;
        }
        proof {
            assert forall|j: int| 0 <= j < all@.len() implies all.deep_view()[j] == (self@
                + other@)[j] by {
                if j < self.records@.len() {
                    assert(all@[j]@ == self.records@[j]@);
                } else {
                    assert(all@[self.records@.len() + (j - self.records@.len())]@
                        == other.records@[j - self.records@.len()]@);
                }
            }
            assert(all.deep_view() =~= self@ + other@);
        }
        let r = RecordsByName::from_iter(&all);
        proof {
            let combined = self@ + other@;
            assert forall|n: Seq<char>| #[trigger] contains_name(r@, n) == (contains_name(self@, n)
                || contains_name(other@, n)) by {
                lemma_contains_name_add(self@, other@, n);
            }
            assert forall|i: int| 0 <= i < self@.len() implies spec_find(
                r@,
                (#[trigger] self@[i]).name,
            ).unwrap().version >= self@[i].version by {
                let n = self@[i].name;
                assert(contains_name(self@, n));
                lemma_find_version_dominates(r@, combined, i, n);
            }
            assert forall|i: int| 0 <= i < other@.len() implies spec_find(
                r@,
                (#[trigger] other@[i]).name,
            ).unwrap().version >= other@[i].version by {
                let n = other@[i].name;
                assert(contains_name(other@, n));
                assert(combined[self@.len() + i] == other@[i]);
                lemma_find_version_dominates(r@, combined, self@.len() + i, n);
            }
        }
        r
    }
}

proof fn lemma_contains_name_add(a: Seq<RecView>, b: Seq<RecView>, n: Seq<char>)
    ensures
        contains_name(a + b, n) == (contains_name(a, n) || contains_name(b, n)),
{
    let c = a + b;
    if contains_name(c, n) {
        let w = choose|w: int| 0 <= w < c.len() && #[trigger] c[w].name == n;
        if w < a.len() {
            assert(a[w].name == n);
        } else {
            assert(b[w - a.len()].name == n);
        }
    }
    if contains_name(a, n) {
        let w = choose|w: int| 0 <= w < a.len() && #[trigger] a[w].name == n;
        assert(c[w].name == n);
    }
    if contains_name(b, n) {
        let w = choose|w: int| 0 <= w < b.len() && #[trigger] b[w].name == n;
        assert(c[a.len() + w].name == n);
    }
}

proof fn lemma_find_version_dominates(r: Seq<RecView>, combined: Seq<RecView>, i: int, n: Seq<char>)
    requires
        0 <= i < combined.len(),
        combined[i].name == n,
        contains_name(r, n),
        forall|q: int| 0 <= q < r.len() ==> merged_from(combined, #[trigger] r[q]),
    ensures
        spec_find(r, n) is Some,
        spec_find(r, n).unwrap().version >= combined[i].version,
{
    lemma_first_idx_bounds(r, n);
    let f = first_idx(r, n);
    assert(f >= 0);
    let rec = r[f];
    assert(merged_from(combined, rec));
    let k = choose|k: int|
        0 <= k < combined.len() && #[trigger] combined[k] == rec && (forall|j: int|
            0 <= j < combined.len() && (#[trigger] combined[j].name) == rec.name ==> combined[j].version
                <= rec.version) && (forall|j: int|
            0 <= j < k && (#[trigger] combined[j].name) == rec.name ==> combined[j].version
                < rec.version);
    assert(combined[i].version <= rec.version);
}

/// Returns whether some string in `v` reads `name`.
pub fn vec_contains_string(v: &Vec<String>, name: &String) -> (r: bool)
    ensures
        r == v.deep_view().contains(name@),
{
    let mut i: usize = 0;
    while i < v.len()
        invariant
            i <= v.len(),
            forall|j: int| 0 <= j < i ==> (#[trigger] v.deep_view()[j]) != name@,
        decreases v.len() - i,
    {
        if v[i] == *name {
            assert(v.deep_view()[i as int] == name@);
            return true;
        }
        i += 1;
    }
    false
}

/// Invariant carried while the dependency-closure subset grows: the picked
/// records are unique by name, drawn verbatim from `s`, outside `context`,
/// each reachable from `roots`, and every viable root is already in.
pub open spec fn subset_inv(
    s: Seq<RecView>,
    roots: Seq<Seq<char>>,
    context: Seq<Seq<char>>,
    r: Seq<RecView>,
) -> bool {
    &&& unique_names(r)
    &&& drawn_from(r, s)
    &&& forall|q: int| 0 <= q < r.len() ==> !context.contains((#[trigger] r[q]).name)
    &&& forall|q: int| 0 <= q < r.len() ==> reachable(s, roots, context, (#[trigger] r[q]).name)
}

/// All roots that exist in `s` and are not masked by `context` are present.
pub open spec fn roots_included(
    s: Seq<RecView>,
    roots: Seq<Seq<char>>,
    context: Seq<Seq<char>>,
    r: Seq<RecView>,
) -> bool {
    forall|k: int|
        0 <= k < roots.len() && contains_name(s, #[trigger] roots[k]) && !context.contains(roots[k])
            ==> contains_name(r, roots[k])
}

proof fn lemma_contains_push_mono(r: Seq<RecView>, x: RecView)
    ensures
        forall|n: Seq<char>| contains_name(r, n) ==> #[trigger] contains_name(r.push(x), n),
        forall|q: int| 0 <= q < r.len() ==> r.push(x)[q] == #[trigger] r[q],
{
    assert forall|n: Seq<char>| contains_name(r, n) implies #[trigger] contains_name(
        r.push(x),
        n,
    ) by {
        let w = choose|w: int| 0 <= w < r.len() && #[trigger] r[w].name == n;
        assert(r.push(x)[w].name == n);
    }
}

/// Growing the subset by the record `s[i]`, sponsored either by being a
/// root or by a dependency of an already-picked record, keeps every subset
/// invariant.
proof fn lemma_subset_grow(
    s: Seq<RecView>,
    roots: Seq<Seq<char>>,
    ctx: Seq<Seq<char>>,
    pre: Seq<RecView>,
    i: int,
    post: Seq<RecView>,
)
    requires
        unique_names(s),
        subset_inv(s, roots, ctx, pre),
        roots_included(s, roots, ctx, pre),
        0 <= i < s.len(),
        !contains_name(pre, s[i].name),
        !ctx.contains(s[i].name),
        roots.contains(s[i].name) || exists|q: int|
            0 <= q < pre.len() && (#[trigger] pre[q]).depends.contains(s[i].name),
        post == pre.push(s[i]),
    ensures
        subset_inv(s, roots, ctx, post),
        roots_included(s, roots, ctx, post),
        post.len() <= s.len(),
        contains_name(post, s[i].name),
{
    let n = s[i].name;
    lemma_contains_push_mono(pre, s[i]);
    lemma_first_idx_at(s, n, i);
    assert(contains_name(post, n)) by {
        assert(post[pre.len() as int].name == n);
    }
    assert(unique_names(post)) by {
        assert forall|a: int, b: int| 0 <= a < b < post.len() implies (#[trigger] post[a].name)
            != (#[trigger] post[b].name) by {
            if b == pre.len() {
                if post[a].name == n {
                    assert(contains_name(pre, n));
                }
            }
        }
    }
    // A dependency chain reaching the new record.
    if roots.contains(n) {
        let path = Seq::<Seq<char>>::empty().push(n);
        assert(contains_name(s, n)) by {
            assert(s[i].name == n);
        }
        assert(is_dep_path(s, roots, ctx, path));
        assert(reachable(s, roots, ctx, n));
    } else {
        let q = choose|q: int| 0 <= q < pre.len() && (#[trigger] pre[q]).depends.contains(n);
        assert(reachable(s, roots, ctx, pre[q].name));
        let path = choose|path: Seq<Seq<char>>| #[trigger]
            is_dep_path(s, roots, ctx, path) && path.last() == pre[q].name;
        let path2 = path.push(n);
        assert(path2[0] == path[0]);
        assert forall|w: int| 0 <= w < path2.len() implies contains_name(s, #[trigger] path2[w])
            && !ctx.contains(path2[w]) by {
            if w < path.len() {
                assert(path2[w] == path[w]);
            } else {
                assert(path2[w] == n);
                assert(contains_name(s, n)) by {
                    assert(s[i].name == n);
                }
            }
        }
        assert forall|w: int| 0 <= w < path2.len() - 1 implies spec_find(
            s,
            #[trigger] path2[w],
        ).unwrap().depends.contains(path2[w + 1]) by {
            if w < path.len() - 1 {
                assert(path2[w] == path[w]);
                assert(path2[w + 1] == path[w + 1]);
            } else {
                assert(path2[w] == path.last());
                assert(spec_find(s, pre[q].name) == Some(pre[q]));
            }
        }
        assert(is_dep_path(s, roots, ctx, path2));
        assert(path2.last() == n);
        assert(reachable(s, roots, ctx, n));
    }
    assert(subset_inv(s, roots, ctx, post)) by {
        assert(forall|q: int| 0 <= q < pre.len() ==> post[q] == #[trigger] pre[q]);
        assert(post[pre.len() as int] == s[i]);
        assert(spec_find(s, n) == Some(s[i]));
    }
    lemma_unique_len_bound(post, s);
}

/// A saturation pass that reaches record `i` without adding it leaves the
/// subset closed for dependencies found among the first `i + 1` records.
proof fn lemma_subset_closed_step(s: Seq<RecView>, ctx: Seq<Seq<char>>, r: Seq<RecView>, i: int)
    requires
        0 <= i < s.len(),
        forall|j: int, d: Seq<char>|
            #![trigger (r[j]).depends.contains(d)]
            0 <= j < r.len() && r[j].depends.contains(d) && contains_name(s.take(i), d)
                && !ctx.contains(d) ==> contains_name(r, d),
        contains_name(r, s[i].name) || ctx.contains(s[i].name) || !(exists|q: int|
            0 <= q < r.len() && (#[trigger] r[q]).depends.contains(s[i].name)),
    ensures
        forall|j: int, d: Seq<char>|
            #![trigger (r[j]).depends.contains(d)]
            0 <= j < r.len() && r[j].depends.contains(d) && contains_name(s.take(i + 1), d)
                && !ctx.contains(d) ==> contains_name(r, d),
{
    assert forall|j: int, d: Seq<char>|
        #![trigger (r[j]).depends.contains(d)]
        0 <= j < r.len() && r[j].depends.contains(d) && contains_name(s.take(i + 1), d)
            && !ctx.contains(d) implies contains_name(r, d) by {
        lemma_contains_take_step(s, i, d);
        if !contains_name(s.take(i), d) {
            assert(s[i].name == d);
        }
    }
}

/// A set of records with pairwise-distinct names, each of which names a
/// record of `s`, can hold no more records than `s` itself.
proof fn lemma_unique_len_bound(t: Seq<RecView>, s: Seq<RecView>)
    requires
        unique_names(t),
        forall|q: int| 0 <= q < t.len() ==> contains_name(s, (#[trigger] t[q]).name),
    ensures
        t.len() <= s.len(),
{
    broadcast use vstd::seq_lib::seq_to_set_is_finite;

    let tn = Seq::new(t.len(), |i: int| t[i].name);
    let sn = Seq::new(s.len(), |i: int| s[i].name);
    assert(tn.no_duplicates());
    tn.unique_seq_to_set();
    assert forall|x: Seq<char>| tn.to_set().contains(x) implies sn.to_set().contains(x) by {
        let w = choose|w: int| 0 <= w < tn.len() && #[trigger] tn[w] == x;
        assert(contains_name(s, t[w].name));
        let v = choose|v: int| 0 <= v < s.len() && #[trigger] s[v].name == x;
        assert(sn[v] == x);
        assert(sn.contains(x));
    }
    assert(tn.to_set().subset_of(sn.to_set()));
    vstd::set_lib::lemma_len_subset(tn.to_set(), sn.to_set());
    sn.lemma_cardinality_of_set();
}

impl RecordsByName {
    /// Returns whether some held record depends on `name`.
    pub fn depends_on_any(&self, name: &String) -> (r: bool)
        ensures
            r == exists|q: int|
                0 <= q < self@.len() && (#[trigger] self@[q]).depends.contains(name@),
    {
        let mut i: usize = 0;
        while i < self.records.len()
            invariant
                i <= self.records.len(),
                forall|j: int| 0 <= j < i ==> !(#[trigger] self@[j]).depends.contains(name@),
            decreases self.records.len() - i,
        {
            if vec_contains_string(&self.records[i].depends, name) {
                assert(self@[i as int].depends.contains(name@));
                return true;
            }
            assert(self.records@[i as int]@.depends == self@[i as int].depends);
            i += 1;
        }
        false
    }

    /// The names under which the held records are also known as
    /// language-level packages, as the package-identifier bridge reported
    /// them at solve time.
    pub fn purl_names(&self) -> (r: Vec<String>)
        ensures
            forall|n: Seq<char>| #[trigger]
                r.deep_view().contains(n) == exists|i: int|
                    0 <= i < self@.len() && (#[trigger] self@[i]).purl == Some(n),
    {
        let mut r: Vec<String> = Vec::new();
        let mut i: usize = 0;
        while i < self.records.len()
            invariant
                i <= self.records.len(),
                forall|n: Seq<char>| #[trigger]
                    r.deep_view().contains(n) == exists|j: int|
                        0 <= j < i && (#[trigger] self@[j]).purl == Some(n),
            decreases self.records.len() - i,
        {
            match &self.records[i].purl {
                Some(p) => {
                    let ghost pre = r.deep_view();
                    r.push(p.clone());
                    proof {
                        assert(r.deep_view() =~= pre.push(self@[i as int].purl.unwrap()));
                        assert forall|n: Seq<char>| true implies #[trigger] r.deep_view().contains(
                            n,
                        ) == (pre.contains(n) || self@[i as int].purl == Some(n)) by {
                            lemma_seq_push_contains(pre, self@[i as int].purl.unwrap(), n);
                        }
                    }
                },
                None => {},
            }
            i += 1;
        }
        r
    }

    /// Extracts the dependency-closure subset of the collection: the
    /// records reachable from the declared `names` by following `depends`
    /// edges, never passing through (nor including) a name listed in
    /// `context`.  Records solved only because another group member needed
    /// them are dropped.
    #[verifier::rlimit(80)]
    pub fn subset(&self, names: &Vec<String>, context: &Vec<String>) -> (r: RecordsByName)
        requires
            self.wf(),
        ensures
            r.wf(),
            drawn_from(r@, self@),
            forall|q: int| 0 <= q < r@.len() ==> !context.deep_view().contains((#[trigger] r@[q]).name),
            forall|q: int|
                0 <= q < r@.len() ==> reachable(
                    self@,
                    names.deep_view(),
                    context.deep_view(),
                    (#[trigger] r@[q]).name,
                ),
            roots_included(self@, names.deep_view(), context.deep_view(), r@),
            forall|q: int, d: Seq<char>| #![trigger (r@[q]).depends.contains(d)]
                0 <= q < r@.len() && r@[q].depends.contains(d) && contains_name(self@, d)
                    && !context.deep_view().contains(d) ==> contains_name(r@, d),
    {
        let ghost s = self@;
        let ghost roots = names.deep_view();
        let ghost ctx = context.deep_view();
        let mut result = RecordsByName { records: Vec::new() };

        // Seed with the declared dependency names themselves.
        let mut k: usize = 0;
        while k < names.len()
            invariant
                k <= names.len(),
                s == self@,
                roots == names.deep_view(),
                ctx == context.deep_view(),
                self.wf(),
                subset_inv(s, roots, ctx, result@),
                forall|k2: int|
                    0 <= k2 < k && contains_name(s, #[trigger] roots[k2]) && !ctx.contains(
                        roots[k2],
                    ) ==> contains_name(result@, roots[k2]),
                result@.len() <= s.len(),
            decreases names.len() - k,
        {
            let name = &names[k];
            assert(name@ == roots[k as int]);
            if !vec_contains_string(context, name) && !result.contains_name(name) {
                match self.position_of(name) {
                    Some(i) => {
                        let ghost pre = result@;
                        let rec = self.records[i].duplicate();
                        proof {
                            lemma_first_idx_at(s, name@, i as int);
                        }
                        result.records.push(rec);
                        proof {
                            assert(result@ =~= pre.push(s[i as int]));
                            lemma_contains_push_mono(pre, s[i as int]);
                            let ghost path = Seq::<Seq<char>>::empty().push(name@);
                            assert(roots.contains(path[0])) by {
                                assert(roots[k as int] == path[0]);
                            }
                            assert(is_dep_path(s, roots, ctx, path));
                            assert(reachable(s, roots, ctx, name@));
                            assert(contains_name(result@, name@)) by {
                                assert(result@[pre.len() as int].name == name@);
                            }
                            lemma_unique_len_bound(result@, s);
                        }
                    },
                    None => {},
                }
            }
            k += 1;
        }

        // Saturate: pull in every record a picked record depends on.
        loop
            invariant
                s == self@,
                roots == names.deep_view(),
                ctx == context.deep_view(),
                self.wf(),
                subset_inv(s, roots, ctx, result@),
                roots_included(s, roots, ctx, result@),
                result@.len() <= s.len(),
            ensures
                subset_inv(s, roots, ctx, result@),
                roots_included(s, roots, ctx, result@),
                forall|j: int, d: Seq<char>|
                    #![trigger (result@[j]).depends.contains(d)]
                    0 <= j < result@.len() && result@[j].depends.contains(d) && contains_name(s, d)
                        && !ctx.contains(d) ==> contains_name(result@, d),
            decreases s.len() - result@.len(),
        {
            let ghost pass_start = result@;
            let mut added = false;
            let mut i: usize = 0;
            while i < self.records.len()
                invariant
                    i <= self.records.len(),
                    s == self@,
                    roots == names.deep_view(),
                    ctx == context.deep_view(),
                    self.wf(),
                    subset_inv(s, roots, ctx, result@),
                    roots_included(s, roots, ctx, result@),
                    result@.len() <= s.len(),
                    !added ==> result@ == pass_start,
                    added ==> result@.len() > pass_start.len(),
                    !added ==> forall|j: int, d: Seq<char>|
                        #![trigger (result@[j]).depends.contains(d)]
                        0 <= j < result@.len() && result@[j].depends.contains(d) && contains_name(
                            s.take(i as int),
                            d,
                        ) && !ctx.contains(d) ==> contains_name(result@, d),
                decreases self.records.len() - i,
            {
                let rec_name = &self.records[i].name;
                assert(rec_name@ == s[i as int].name);
                if !result.contains_name(rec_name) && !vec_contains_string(context, rec_name)
                    && result.depends_on_any(rec_name) {
                    let ghost pre = result@;
                    let rec = self.records[i].duplicate();
                    result.records.push(rec);
                    proof {
                        assert(result@ =~= pre.push(s[i as int]));
                        lemma_subset_grow(s, roots, ctx, pre, i as int, result@);
                    }
                    added = true;
                }
                proof {
                    if !added {
                        lemma_subset_closed_step(s, ctx, result@, i as int);
                    }
                }
                i += 1;
            }
            if !added {
                proof {
                    assert(s.take(s.len() as int) =~= s);
                    assert forall|j: int, d: Seq<char>|
                        #![trigger (result@[j]).depends.contains(d)]
                        0 <= j < result@.len() && result@[j].depends.contains(d) && contains_name(
                            s,
                            d,
                        ) && !ctx.contains(d) implies contains_name(result@, d) by {
                        assert(contains_name(s.take(s.len() as int), d));
                    }
                }
                break;
            }
        }
        result
    }
}

/// `rec` is a correct merge pick out of the first `i` records of `iv`.
pub open spec fn merged_from_upto(iv: Seq<RecView>, i: int, rec: RecView) -> bool {
    exists|k: int|
        0 <= k < i && #[trigger] iv[k] == rec && (forall|j: int|
            0 <= j < i && (#[trigger] iv[j].name) == rec.name ==> iv[j].version <= rec.version)
            && (forall|j: int|
            0 <= j < k && (#[trigger] iv[j].name) == rec.name ==> iv[j].version < rec.version)
}

proof fn lemma_contains_take_step(iv: Seq<RecView>, i: int, n: Seq<char>)
    requires
        0 <= i < iv.len(),
    ensures
        contains_name(iv.take(i + 1), n) == (contains_name(iv.take(i), n) || iv[i].name == n),
{
    let a = iv.take(i);
    let b = iv.take(i + 1);
    assert(forall|j: int| 0 <= j < i ==> a[j] == #[trigger] b[j]);
    assert(b[i] == iv[i]);
    if contains_name(a, n) {
        let w = choose|w: int| 0 <= w < a.len() && #[trigger] a[w].name == n;
        assert(b[w].name == n);
    }
    if iv[i].name == n {
        assert(b[i].name == n);
    }
    if contains_name(b, n) {
        let w = choose|w: int| 0 <= w < b.len() && #[trigger] b[w].name == n;
        if w < i {
            assert(a[w].name == n);
        }
    }
}

proof fn lemma_from_iter_replace(iv: Seq<RecView>, i: int, pre: Seq<RecView>, p: int, post: Seq<RecView>)
    requires
        0 <= i < iv.len(),
        unique_names(pre),
        0 <= p < pre.len(),
        pre[p].name == iv[i].name,
        pre[p].version < iv[i].version,
        post == pre.update(p, iv[i]),
        forall|n: Seq<char>| #[trigger] contains_name(pre, n) == contains_name(iv.take(i), n),
        forall|q: int| 0 <= q < pre.len() ==> merged_from_upto(iv, i, #[trigger] pre[q]),
    ensures
        unique_names(post),
        forall|n: Seq<char>| #[trigger] contains_name(post, n) == contains_name(iv.take(i + 1), n),
        forall|q: int| 0 <= q < post.len() ==> merged_from_upto(iv, i + 1, #[trigger] post[q]),
{
    assert(forall|q: int| 0 <= q < post.len() && q != p ==> post[q] == #[trigger] pre[q]);
    assert(post[p] == iv[i]);
    assert(unique_names(post));
    assert forall|n: Seq<char>| #[trigger] contains_name(post, n) == contains_name(
        iv.take(i + 1),
        n,
    ) by {
        lemma_contains_take_step(iv, i, n);
        if contains_name(post, n) {
            let w = choose|w: int| 0 <= w < post.len() && #[trigger] post[w].name == n;
            assert(pre[w].name == n);
            assert(contains_name(pre, n));
        }
        if contains_name(pre, n) {
            let w = choose|w: int| 0 <= w < pre.len() && #[trigger] pre[w].name == n;
            assert(post[w].name == n);
            assert(contains_name(post, n));
        }
    }
    assert forall|q: int| 0 <= q < post.len() implies merged_from_upto(
        iv,
        i + 1,
        #[trigger] post[q],
    ) by {
        if q == p {
            // iv[i] itself is the pick, at position i.
            assert forall|j: int|
                0 <= j < i + 1 && (#[trigger] iv[j].name) == iv[i].name implies iv[j].version
                <= iv[i].version by {
                if j < i {
                    let old_pick = pre[p];
                    assert(merged_from_upto(iv, i, old_pick));
                    assert(iv[j].version <= old_pick.version);
                }
            }
            assert forall|j: int|
                0 <= j < i && (#[trigger] iv[j].name) == iv[i].name implies iv[j].version
                < iv[i].version by {
                let old_pick = pre[p];
                assert(merged_from_upto(iv, i, old_pick));
                assert(iv[j].version <= old_pick.version);
            }
            assert(iv[i] == post[q]);
            assert(merged_from_upto(iv, i + 1, post[q]));
        } else {
            let rec = pre[q];
            assert(merged_from_upto(iv, i, rec));
            let k = choose|k: int|
                0 <= k < i && #[trigger] iv[k] == rec && (forall|j: int|
                    0 <= j < i && (#[trigger] iv[j].name) == rec.name ==> iv[j].version
                        <= rec.version) && (forall|j: int|
                    0 <= j < k && (#[trigger] iv[j].name) == rec.name ==> iv[j].version
                        < rec.version);
            // q and p differ, so their names differ; position i carries p's name.
            assert(pre[q].name != pre[p].name);
            assert(merged_from_upto(iv, i + 1, post[q]));
        }
    }
}

proof fn lemma_from_iter_keep(iv: Seq<RecView>, i: int, pre: Seq<RecView>, p: int)
    requires
        0 <= i < iv.len(),
        unique_names(pre),
        0 <= p < pre.len(),
        pre[p].name == iv[i].name,
        iv[i].version <= pre[p].version,
        forall|n: Seq<char>| #[trigger] contains_name(pre, n) == contains_name(iv.take(i), n),
        forall|q: int| 0 <= q < pre.len() ==> merged_from_upto(iv, i, #[trigger] pre[q]),
    ensures
        forall|n: Seq<char>| #[trigger] contains_name(pre, n) == contains_name(iv.take(i + 1), n),
        forall|q: int| 0 <= q < pre.len() ==> merged_from_upto(iv, i + 1, #[trigger] pre[q]),
{
    assert forall|n: Seq<char>| #[trigger] contains_name(pre, n) == contains_name(
        iv.take(i + 1),
        n,
    ) by {
        lemma_contains_take_step(iv, i, n);
        if iv[i].name == n {
            assert(pre[p].name == n);
            assert(contains_name(pre, n));
        }
    }
    assert forall|q: int| 0 <= q < pre.len() implies merged_from_upto(
        iv,
        i + 1,
        #[trigger] pre[q],
    ) by {
        let rec = pre[q];
        assert(merged_from_upto(iv, i, rec));
        let k = choose|k: int|
            0 <= k < i && #[trigger] iv[k] == rec && (forall|j: int|
                0 <= j < i && (#[trigger] iv[j].name) == rec.name ==> iv[j].version <= rec.version)
                && (forall|j: int|
                0 <= j < k && (#[trigger] iv[j].name) == rec.name ==> iv[j].version < rec.version);
        if iv[i].name == rec.name {
            // Same name means q is p, and the kept version dominates.
            if q != p {
                assert(pre[q].name == pre[p].name);
                assert(false);
            }
        }
        assert(merged_from_upto(iv, i + 1, rec));
    }
}

proof fn lemma_from_iter_push(iv: Seq<RecView>, i: int, pre: Seq<RecView>, post: Seq<RecView>)
    requires
        0 <= i < iv.len(),
        unique_names(pre),
        !contains_name(pre, iv[i].name),
        post == pre.push(iv[i]),
        forall|n: Seq<char>| #[trigger] contains_name(pre, n) == contains_name(iv.take(i), n),
        forall|q: int| 0 <= q < pre.len() ==> merged_from_upto(iv, i, #[trigger] pre[q]),
    ensures
        unique_names(post),
        forall|n: Seq<char>| #[trigger] contains_name(post, n) == contains_name(iv.take(i + 1), n),
        forall|q: int| 0 <= q < post.len() ==> merged_from_upto(iv, i + 1, #[trigger] post[q]),
        unique_names(iv) && pre == iv.take(i) ==> post == iv.take(i + 1),
{
    assert(forall|q: int| 0 <= q < pre.len() ==> post[q] == #[trigger] pre[q]);
    assert(post[pre.len() as int] == iv[i]);
    assert forall|a: int, b: int| 0 <= a < b < post.len() implies (#[trigger] post[a].name)
        != (#[trigger] post[b].name) by {
        if b == pre.len() {
            if post[a].name == iv[i].name {
                assert(contains_name(pre, iv[i].name));
            }
        }
    }
    assert forall|n: Seq<char>| #[trigger] contains_name(post, n) == contains_name(
        iv.take(i + 1),
        n,
    ) by {
        lemma_contains_take_step(iv, i, n);
        if contains_name(post, n) {
            let w = choose|w: int| 0 <= w < post.len() && #[trigger] post[w].name == n;
            if w < pre.len() {
                assert(pre[w].name == n);
                assert(contains_name(pre, n));
            } else {
                assert(iv[i].name == n);
            }
        }
        if contains_name(pre, n) {
            let w = choose|w: int| 0 <= w < pre.len() && #[trigger] pre[w].name == n;
            assert(post[w].name == n);
        }
        if iv[i].name == n {
            assert(post[pre.len() as int].name == n);
        }
    }
    assert forall|q: int| 0 <= q < post.len() implies merged_from_upto(
        iv,
        i + 1,
        #[trigger] post[q],
    ) by {
        if q == pre.len() {
            assert forall|j: int|
                0 <= j < i + 1 && (#[trigger] iv[j].name) == iv[i].name implies iv[j].version
                <= iv[i].version by {
                if j < i {
                    assert(contains_name(iv.take(i), iv[i].name)) by {
                        assert(iv.take(i)[j].name == iv[i].name);
                    }
                    assert(contains_name(pre, iv[i].name));
                    assert(false);
                }
            }
            assert forall|j: int|
                0 <= j < i && (#[trigger] iv[j].name) == iv[i].name implies iv[j].version
                < iv[i].version by {
                assert(contains_name(iv.take(i), iv[i].name)) by {
                    assert(iv.take(i)[j].name == iv[i].name);
                }
                assert(contains_name(pre, iv[i].name));
                assert(false);
            }
            assert(iv[i] == post[q]);
            assert(merged_from_upto(iv, i + 1, post[q]));
        } else {
            let rec = pre[q];
            assert(merged_from_upto(iv, i, rec));
            let k = choose|k: int|
                0 <= k < i && #[trigger] iv[k] == rec && (forall|j: int|
                    0 <= j < i && (#[trigger] iv[j].name) == rec.name ==> iv[j].version
                        <= rec.version) && (forall|j: int|
                    0 <= j < k && (#[trigger] iv[j].name) == rec.name ==> iv[j].version
                        < rec.version);
            assert forall|j: int|
                0 <= j < i + 1 && (#[trigger] iv[j].name) == rec.name implies iv[j].version
                <= rec.version by {
                if j == i {
                    assert(contains_name(pre, rec.name)) by {
                        assert(pre[q].name == rec.name);
                    }
                    assert(contains_name(pre, iv[i].name));
                    assert(false);
                }
            }
            assert(merged_from_upto(iv, i + 1, rec));
        }
    }
    if unique_names(iv) && pre == iv.take(i) {
        assert(post =~= iv.take(i + 1));
    }
}

} // verus!
