//! The reverse-dependency map: for every dependency identifier, the list of
//! package names that declare it. Descriptors are recorded one at a time;
//! all of one descriptor's dependencies are applied together, so the map
//! grows by exactly one (dependency, package) pair per declared dependency
//! and loses nothing, in whatever order the descriptors arrive.

use vstd::prelude::*;

use crate::rpm::RPM;
use crate::rpm::RpmView;
use crate::text::str_eq;

verus! {

/// The map an association list denotes: later entries win, though under
/// `unique_keys` every key occurs once.
pub open spec fn entries_map(es: Seq<(String, Vec<String>)>) -> Map<Seq<char>, Seq<Seq<char>>>
    decreases es.len(),
{
    if es.len() == 0 {
        Map::empty()
    } else {
        entries_map(es.drop_last()).insert(es.last().0@, es.last().1.deep_view())
    }
}

/// Number of (dependency, package) pairs an association list holds.
pub open spec fn entries_total(es: Seq<(String, Vec<String>)>) -> nat
    decreases es.len(),
{
    if es.len() == 0 {
        0
    } else {
        entries_total(es.drop_last()) + es.last().1@.len()
    }
}

/// No dependency identifier occurs under two entries.
pub open spec fn unique_keys(es: Seq<(String, Vec<String>)>) -> bool {
    forall|i: int, j: int| 0 <= i < j < es.len() ==> es[i].0@ != es[j].0@
}

proof fn lemma_entries_map_get(es: Seq<(String, Vec<String>)>, k: int)
    requires
        unique_keys(es),
        0 <= k < es.len(),
    ensures
        entries_map(es).dom().contains(es[k].0@),
        entries_map(es)[es[k].0@] == es[k].1.deep_view(),
    decreases es.len(),
{
    if k < es.len() - 1 {
        assert(unique_keys(es.drop_last()));
        assert(es.drop_last()[k] == es[k]);
        lemma_entries_map_get(es.drop_last(), k);
    }
}

proof fn lemma_entries_map_absent(es: Seq<(String, Vec<String>)>, d: Seq<char>)
    requires
        forall|i: int| 0 <= i < es.len() ==> es[i].0@ != d,
    ensures
        !entries_map(es).dom().contains(d),
    decreases es.len(),
{
    if es.len() > 0 {
        lemma_entries_map_absent(es.drop_last(), d);
    }
}

proof fn lemma_entries_map_update(es: Seq<(String, Vec<String>)>, k: int, p: (String, Vec<String>))
    requires
        unique_keys(es),
        0 <= k < es.len(),
        p.0@ == es[k].0@,
    ensures
        entries_map(es.update(k, p)) == entries_map(es).insert(p.0@, p.1.deep_view()),
        entries_total(es.update(k, p)) + es[k].1@.len() == entries_total(es) + p.1@.len(),
    decreases es.len(),
{
    let upd = es.update(k, p);
    if k == es.len() - 1 {
        assert(upd.drop_last() =~= es.drop_last());
        assert(entries_map(upd) =~= entries_map(es).insert(p.0@, p.1.deep_view()));
    } else {
        assert(unique_keys(es.drop_last()));
        assert(es.drop_last()[k] == es[k]);
        lemma_entries_map_update(es.drop_last(), k, p);
        assert(upd.drop_last() =~= es.drop_last().update(k, p));
        assert(upd.last() == es.last());
        assert(p.0@ != es.last().0@);
        assert(entries_map(upd) =~= entries_map(es).insert(p.0@, p.1.deep_view()));
    }
}

/// The shared accumulator: one reverse-dependency map. Its mathematical
/// view is a `Map` from dependency identifier to the ordered package names
/// that declare it.
pub struct DepGraph {
    entries: Vec<(String, Vec<String>)>,
}

impl View for DepGraph {
    type V = Map<Seq<char>, Seq<Seq<char>>>;

    closed spec fn view(&self) -> Map<Seq<char>, Seq<Seq<char>>> {
        entries_map(self.entries@)
    }
}

/// Recording one dependency of one package: the package's name is appended
/// to that dependency's entry, which is created when absent.
pub open spec fn spec_record_dep(
    m: Map<Seq<char>, Seq<Seq<char>>>,
    dep: Seq<char>,
    name: Seq<char>,
) -> Map<Seq<char>, Seq<Seq<char>>> {
    let prev = if m.dom().contains(dep) {
        m[dep]
    } else {
        Seq::empty()
    };
    m.insert(dep, prev.push(name))
}

/// Recording a dependency list, first to last.
pub open spec fn spec_record_deps(
    m: Map<Seq<char>, Seq<Seq<char>>>,
    deps: Seq<Seq<char>>,
    name: Seq<char>,
) -> Map<Seq<char>, Seq<Seq<char>>>
    decreases deps.len(),
{
    if deps.len() == 0 {
        m
    } else {
        spec_record_deps(spec_record_dep(m, deps[0], name), deps.skip(1), name)
    }
}

/// Recording one whole descriptor.
pub open spec fn spec_record(m: Map<Seq<char>, Seq<Seq<char>>>, r: RpmView) -> Map<
    Seq<char>,
    Seq<Seq<char>>,
> {
    spec_record_deps(m, r.deps, r.name)
}

/// Recording a sequence of descriptors, first to last.
pub open spec fn spec_aggregate(m: Map<Seq<char>, Seq<Seq<char>>>, rs: Seq<RpmView>) -> Map<
    Seq<char>,
    Seq<Seq<char>>,
>
    decreases rs.len(),
{
    if rs.len() == 0 {
        m
    } else {
        spec_aggregate(spec_record(m, rs[0]), rs.skip(1))
    }
}

/// The views of a sequence of descriptors.
pub open spec fn rpm_views(s: Seq<RPM>) -> Seq<RpmView> {
    s.map_values(|r: RPM| r@)
}

/// Sum of the descriptors' dependency-list lengths.
pub open spec fn sum_dep_counts(rs: Seq<RpmView>) -> nat
    decreases rs.len(),
{
    if rs.len() == 0 {
        0
    } else {
        rs[0].deps.len() + sum_dep_counts(rs.skip(1))
    }
}

impl DepGraph {
    /// Keys are unique, so the view loses no entry.
    pub closed spec fn wf(&self) -> bool {
        unique_keys(self.entries@)
    }

    /// Number of (dependency, package) pairs recorded so far.
    pub closed spec fn total(&self) -> nat {
        entries_total(self.entries@)
    }

    /// The empty map, created before any file is processed.
    pub fn new() -> (g: DepGraph)
        ensures
            g.wf(),
            g@ == Map::<Seq<char>, Seq<Seq<char>>>::empty(),
            g.total() == 0,
    {
        DepGraph { entries: Vec::new() }
    }

    fn find_dep(&self, dep: &String) -> (r: Option<usize>)
        ensures
            r matches Some(k) ==> k < self.entries@.len() && self.entries@[k as int].0@ == dep@,
            r is None ==> forall|i: int| 0 <= i < self.entries@.len() ==> self.entries@[i].0@
                != dep@,
    {
        let n = self.entries.len();
        let mut k: usize = 0;
        while k < n
            invariant
                k <= n,
                n == self.entries@.len(),
                forall|i: int| 0 <= i < k ==> self.entries@[i].0@ != dep@,
            decreases n - k,
        {
            if str_eq(self.entries[k].0.as_str(), dep.as_str()) {
                return Some(k);
            }
            k = k + 1;
        }
        None
    }

    fn push_name(&mut self, dep: &String, name: &String)
        requires
            old(self).wf(),
        ensures
            final(self).wf(),
            final(self)@ == spec_record_dep(old(self)@, dep@, name@),
            final(self).total() == old(self).total() + 1,
    {
        let ghost es0 = self.entries@;
        match self.find_dep(dep) {
            Some(k) => {
                let pair = self.entries.remove(k);
                let (key, mut names) = pair;
                let ghost names0 = names;
                names.push(name.clone());
                proof {
                    assert(names.deep_view() =~= names0.deep_view().push(name@));
                }
                self.entries.insert(k, (key, names));
                proof {
                    let p = (key, names);
                    assert(self.entries@ =~= es0.update(k as int, p));
                    lemma_entries_map_get(es0, k as int);
                    lemma_entries_map_update(es0, k as int, p);
                    assert(unique_keys(self.entries@));
                }
            },
            None => {
                let mut names: Vec<String> = Vec::new();
                names.push(name.clone());
                proof {
                    assert(names.deep_view() =~= Seq::<Seq<char>>::empty().push(name@));
                }
                self.entries.push((dep.clone(), names));
                proof {
                    lemma_entries_map_absent(es0, dep@);
                    assert(self.entries@.drop_last() =~= es0);
                    assert(self.entries@.last().0@ == dep@);
                    assert(unique_keys(self.entries@));
                }
            },
        }
    }

    /// Record one descriptor: for every dependency in its list, append the
    /// package's name to that dependency's entry. The whole multi-entry
    /// update raises the pair count by exactly the dependency-list length —
    /// no pair is lost or duplicated.
    pub fn record(&mut self, rpm: &RPM)
        requires
            old(self).wf(),
        ensures
            final(self).wf(),
            final(self)@ == spec_record(old(self)@, rpm@),
            final(self).total() == old(self).total() + rpm@.deps.len(),
    {
        let ghost m0 = self@;
        let ghost t0 = self.total();
        let n = rpm.deps.len();
        proof {
            assert(rpm@.deps.skip(0) =~= rpm@.deps);
        }
        let mut i: usize = 0;
        while i < n
            invariant
                i <= n,
                n == rpm@.deps.len(),
                rpm@.deps.len() == rpm.deps@.len(),
                self.wf(),
                spec_record_deps(m0, rpm@.deps, rpm@.name) == spec_record_deps(
                    self@,
                    rpm@.deps.skip(i as int),
                    rpm@.name,
                ),
                self.total() == t0 + i,
            decreases n - i,
        {
            proof {
                assert(rpm.deps@[i as int]@ == rpm@.deps[i as int]);
                assert(rpm@.deps.skip(i as int)[0] == rpm@.deps[i as int]);
                assert(rpm@.deps.skip(i as int).skip(1) =~= rpm@.deps.skip(i as int + 1));
            }
            self.push_name(&rpm.deps[i], &rpm.name);
            i = i + 1;
        }
        proof {
            assert(rpm@.deps.skip(n as int) =~= Seq::<Seq<char>>::empty());
        }
    }

    /// Merge a whole batch of descriptors into one fresh map, first to
    /// last. The final pair count is the sum of the dependency-list
    /// lengths.
    pub fn aggregate(rpms: &Vec<RPM>) -> (g: DepGraph)
        ensures
            g.wf(),
            g@ == spec_aggregate(Map::<Seq<char>, Seq<Seq<char>>>::empty(), rpm_views(rpms@)),
            g.total() == sum_dep_counts(rpm_views(rpms@)),
    {
        let ghost views = rpm_views(rpms@);
        let mut g = DepGraph::new();
        let n = rpms.len();
        proof {
            assert(views.skip(0) =~= views);
        }
        let mut i: usize = 0;
        while i < n
            invariant
                i <= n,
                n == rpms@.len(),
                views == rpm_views(rpms@),
                g.wf(),
                spec_aggregate(Map::<Seq<char>, Seq<Seq<char>>>::empty(), views)
                    == spec_aggregate(g@, views.skip(i as int)),
                sum_dep_counts(views) == g.total() + sum_dep_counts(views.skip(i as int)),
            decreases n - i,
        {
            proof {
                assert(views.skip(i as int)[0] == views[i as int]);
                assert(views[i as int] == rpms@[i as int]@);
                assert(views.skip(i as int).skip(1) =~= views.skip(i as int + 1));
            }
            g.record(&rpms[i]);
            i = i + 1;
        }
        proof {
            assert(views.skip(n as int) =~= Seq::<RpmView>::empty());
        }
        g
    }

    /// The recorded pair count, as a machine integer.
    pub fn total_pairs(&self) -> (t: usize)
        requires
            self.total() <= usize::MAX,
        ensures
            t == self.total(),
    {
        let n = self.entries.len();
        let mut t: usize = 0;
        let mut k: usize = 0;
        proof {
            assert(self.entries@.take(0) =~= Seq::<(String, Vec<String>)>::empty());
        }
        while k < n
            invariant
                k <= n,
                n == self.entries@.len(),
                self.total() <= usize::MAX,
                t == entries_total(self.entries@.take(k as int)),
            decreases n - k,
        {
            proof {
                assert(self.entries@.take(k as int + 1).drop_last() =~= self.entries@.take(
                    k as int,
                ));
                assert(self.entries@.take(k as int + 1).last() == self.entries@[k as int]);
                lemma_entries_total_prefix(self.entries@, k as int + 1);
            }
            t = t + self.entries[k].1.len();
            k = k + 1;
        }
        proof {
            assert(self.entries@.take(n as int) =~= self.entries@);
        }
        t
    }

    /// The packages recorded under one dependency identifier, when any.
    pub fn get(&self, dep: &str) -> (r: Option<&Vec<String>>)
        requires
            self.wf(),
        ensures
            r matches Some(v) ==> self@.dom().contains(dep@) && v.deep_view() == self@[dep@],
            r is None ==> !self@.dom().contains(dep@),
    {
        let n = self.entries.len();
        let mut k: usize = 0;
        while k < n
            invariant
                k <= n,
                n == self.entries@.len(),
                self.wf(),
                forall|i: int| 0 <= i < k ==> self.entries@[i].0@ != dep@,
            decreases n - k,
        {
            if str_eq(self.entries[k].0.as_str(), dep) {
                proof {
                    lemma_entries_map_get(self.entries@, k as int);
                }
                return Some(&self.entries[k].1);
            }
            k = k + 1;
        }
        proof {
            lemma_entries_map_absent(self.entries@, dep@);
        }
        None
    }
}

/// A prefix of an association list never holds more pairs than the whole.
proof fn lemma_entries_total_prefix(es: Seq<(String, Vec<String>)>, k: int)
    requires
        0 <= k <= es.len(),
    ensures
        entries_total(es.take(k)) <= entries_total(es),
    decreases es.len(),
{
    if k < es.len() {
        assert(es.take(k) =~= es.drop_last().take(k));
        lemma_entries_total_prefix(es.drop_last(), k);
    } else {
        assert(es.take(k) =~= es);
    }
}

/// Removing one descriptor removes its own contribution from the sum.
proof fn lemma_sum_dep_counts_remove(rs: Seq<RpmView>, i: int)
    requires
        0 <= i < rs.len(),
    ensures
        sum_dep_counts(rs) == rs[i].deps.len() + sum_dep_counts(rs.remove(i)),
    decreases i,
{
    if i == 0 {
        assert(rs.remove(0) =~= rs.skip(1));
    } else {
        lemma_sum_dep_counts_remove(rs.skip(1), i - 1);
        assert(rs.remove(i).skip(1) =~= rs.skip(1).remove(i - 1));
        assert(rs.remove(i)[0] == rs[0]);
    }
}

proof fn lemma_record_deps_provenance(
    m: Map<Seq<char>, Seq<Seq<char>>>,
    deps: Seq<Seq<char>>,
    name: Seq<char>,
    d: Seq<char>,
    j: int,
)
    requires
        spec_record_deps(m, deps, name).dom().contains(d),
        0 <= j < spec_record_deps(m, deps, name)[d].len(),
    ensures
        (m.dom().contains(d) && j < m[d].len() && spec_record_deps(m, deps, name)[d][j]
            == m[d][j]) || (spec_record_deps(m, deps, name)[d][j] == name && deps.contains(d)),
    decreases deps.len(),
{
    if deps.len() > 0 {
        let m1 = spec_record_dep(m, deps[0], name);
        lemma_record_deps_provenance(m1, deps.skip(1), name, d, j);
        let m2 = spec_record_deps(m, deps, name);
        if m1.dom().contains(d) && j < m1[d].len() && m2[d][j] == m1[d][j] {
            if d == deps[0] {
                let prev = if m.dom().contains(deps[0]) {
                    m[deps[0]]
                } else {
                    Seq::<Seq<char>>::empty()
                };
                if j < prev.len() {
                    assert(m1[d][j] == m[d][j]);
                } else {
                    assert(m1[d][j] == name);
                    assert(deps.contains(d));
                }
            }
        } else {
            assert(deps.skip(1).contains(d));
            let k = choose|k: int| 0 <= k < deps.skip(1).len() && deps.skip(1)[k] == d;
            assert(deps[k + 1] == d);
            assert(deps.contains(d));
        }
    }
}

proof fn lemma_aggregate_provenance_rel(
    m: Map<Seq<char>, Seq<Seq<char>>>,
    rs: Seq<RpmView>,
    d: Seq<char>,
    j: int,
)
    requires
        spec_aggregate(m, rs).dom().contains(d),
        0 <= j < spec_aggregate(m, rs)[d].len(),
    ensures
        (m.dom().contains(d) && j < m[d].len() && spec_aggregate(m, rs)[d][j] == m[d][j]) || (
        exists|i: int|
            0 <= i < rs.len() && rs[i].name == spec_aggregate(m, rs)[d][j]
                && rs[i].deps.contains(d)),
    decreases rs.len(),
{
    if rs.len() > 0 {
        let m1 = spec_record(m, rs[0]);
        let m2 = spec_aggregate(m, rs);
        lemma_aggregate_provenance_rel(m1, rs.skip(1), d, j);
        if m1.dom().contains(d) && j < m1[d].len() && m2[d][j] == m1[d][j] {
            lemma_record_deps_provenance(m, rs[0].deps, rs[0].name, d, j);
            if !(m.dom().contains(d) && j < m[d].len() && m2[d][j] == m[d][j]) {
                assert(0 <= 0 < rs.len() && rs[0].name == m2[d][j] && rs[0].deps.contains(d));
            }
        } else {
            let i = choose|i: int|
                0 <= i < rs.skip(1).len() && rs.skip(1)[i].name == m2[d][j]
                    && rs.skip(1)[i].deps.contains(d);
            assert(rs[i + 1] == rs.skip(1)[i]);
            assert(0 <= i + 1 < rs.len() && rs[i + 1].name == m2[d][j] && rs[i + 1].deps.contains(
                d,
            ));
        }
    }
}

/// Law: every package name standing in the aggregated map was contributed
/// by one of the descriptors handed in, under a dependency that the
/// descriptor declares — a file that produced no descriptor is absent from
/// every entry.
pub proof fn lemma_aggregate_provenance(rs: Seq<RpmView>, d: Seq<char>, j: int)
    requires
        spec_aggregate(Map::<Seq<char>, Seq<Seq<char>>>::empty(), rs).dom().contains(d),
        0 <= j < spec_aggregate(Map::<Seq<char>, Seq<Seq<char>>>::empty(), rs)[d].len(),
    ensures
        exists|i: int|
            0 <= i < rs.len() && rs[i].name == spec_aggregate(
                Map::<Seq<char>, Seq<Seq<char>>>::empty(),
                rs,
            )[d][j] && rs[i].deps.contains(d),
{
    lemma_aggregate_provenance_rel(Map::<Seq<char>, Seq<Seq<char>>>::empty(), rs, d, j);
}

/// Law: the total (dependency, package) pair count that aggregation
/// reports depends only on which descriptors were processed, never on the
/// order the workers happened to deliver them — two orders of the same
/// descriptors give the same sum of dependency-list lengths.
pub proof fn lemma_sum_dep_counts_permutation(a: Seq<RpmView>, b: Seq<RpmView>)
    requires
        a.to_multiset() == b.to_multiset(),
    ensures
        sum_dep_counts(a) == sum_dep_counts(b),
    decreases a.len(),
{
    a.to_multiset_ensures();
    b.to_multiset_ensures();
    if a.len() == 0 {
        assert(b.to_multiset().len() == 0);
        assert(b.len() == 0);
    } else {
        let x = a[0];
        assert(a.contains(x));
        assert(b.to_multiset().count(x) > 0);
        assert(b.contains(x));
        let i = choose|i: int| 0 <= i < b.len() && b[i] == x;
        lemma_sum_dep_counts_remove(a, 0);
        lemma_sum_dep_counts_remove(b, i);
        assert(a.remove(0).to_multiset() =~= a.to_multiset().remove(x));
        assert(b.remove(i).to_multiset() =~= b.to_multiset().remove(x));
        lemma_sum_dep_counts_permutation(a.remove(0), b.remove(i));
    }
}

} // verus!
