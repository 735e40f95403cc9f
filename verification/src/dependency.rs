//! The result model: outdated dependencies, their kind order, and the
//! builder that filters fetch results down to the strictly-outdated ones
//! and sorts them deterministically by (kind, name).

use vstd::prelude::*;

use crate::errors::Error;
use crate::text::{compare_str, lemma_lex_lt_trans, lex_lt, TextOrder};
use crate::version::{version_less, version_lt, version_parses};

verus! {

/// Which manifest table a declaration came from. The order of the
/// variants is the display order of the final result.
#[derive(Clone, Copy, Debug, PartialEq, Eq, Structural, Default)]
pub enum DependencyKind {
    #[default]
    Normal,
    Dev,
    Build,
    Workspace,
}

/// Position of a kind in the fixed Normal < Dev < Build < Workspace order.
pub open spec fn kind_rank(k: DependencyKind) -> int {
    match k {
        DependencyKind::Normal => 0,
        DependencyKind::Dev => 1,
        DependencyKind::Build => 2,
        DependencyKind::Workspace => 3,
    }
}

/// An outdated dependency as reported to the selection layer.
#[derive(Debug, Clone, PartialEq, Eq)]
pub struct Dependency {
    pub name: String,
    pub current_version: String,
    pub latest_version: String,
    pub kind: DependencyKind,
    pub repository: Option<String>,
    pub description: Option<String>,
    pub latest_version_date: Option<String>,
    pub current_version_date: Option<String>,
    pub workspace_member: Option<String>,
    pub workspace_path: Option<String>,
}

/// Strict (kind, name) order on results.
pub open spec fn dep_lt(a: Dependency, b: Dependency) -> bool {
    kind_rank(a.kind) < kind_rank(b.kind) || (kind_rank(a.kind) == kind_rank(b.kind) && lex_lt(
        a.name@,
        b.name@,
    ))
}

/// A sequence free of (kind, name) inversions.
pub open spec fn sorted_deps(s: Seq<Dependency>) -> bool {
    forall|i: int, j: int| 0 <= i < j < s.len() ==> !dep_lt(#[trigger] s[j], #[trigger] s[i])
}

pub proof fn lemma_dep_lt_irrefl(a: Dependency)
    ensures
        !dep_lt(a, a),
{
    crate::text::lemma_lex_irrefl(a.name@);
}

pub proof fn lemma_dep_lt_trans(a: Dependency, b: Dependency, c: Dependency)
    requires
        dep_lt(a, b),
        dep_lt(b, c),
    ensures
        dep_lt(a, c),
{
    if kind_rank(a.kind) == kind_rank(b.kind) && kind_rank(b.kind) == kind_rank(c.kind) {
        lemma_lex_lt_trans(a.name@, b.name@, c.name@);
    }
}

/// Decides the strict (kind, name) order, exactly.
pub fn dep_lt_exec(a: &Dependency, b: &Dependency) -> (r: bool)
    ensures
        r == dep_lt(*a, *b),
{
    let ra = kind_rank_exec(a.kind);
    let rb = kind_rank_exec(b.kind);
    if ra < rb {
        true
    } else if rb < ra {
        false
    } else {
        match compare_str(a.name.as_str(), b.name.as_str()) {
            TextOrder::Less => true,
            _ => false,
        }
    }
}

/// Position of a kind in the fixed result order.
pub fn kind_rank_exec(k: DependencyKind) -> (r: u8)
    ensures
        r as int == kind_rank(k),
{
    match k {
        DependencyKind::Normal => 0,
        DependencyKind::Dev => 1,
        DependencyKind::Build => 2,
        DependencyKind::Workspace => 3,
    }
}

/// Where `spec_sort_deps` places a new element inside an already-sorted
/// sequence: after every element it is not strictly below.
pub open spec fn spec_insert_dep(s: Seq<Dependency>, x: Dependency) -> Seq<Dependency>
    decreases s.len(),
{
    if s.len() == 0 {
        seq![x]
    } else if dep_lt(x, s[0]) {
        seq![x] + s
    } else {
        seq![s[0]] + spec_insert_dep(s.drop_first(), x)
    }
}

/// Deterministic insertion sort by (kind, name); the single definition
/// every sorted result is pinned to.
pub open spec fn spec_sort_deps(s: Seq<Dependency>) -> Seq<Dependency>
    decreases s.len(),
{
    if s.len() == 0 {
        Seq::empty()
    } else {
        spec_insert_dep(spec_sort_deps(s.drop_last()), s.last())
    }
}

proof fn lemma_insert_dep_len(s: Seq<Dependency>, x: Dependency)
    ensures
        spec_insert_dep(s, x).len() == s.len() + 1,
    decreases s.len(),
{
    if s.len() > 0 && !dep_lt(x, s[0]) {
        lemma_insert_dep_len(s.drop_first(), x);
    }
}

/// Every element of the insertion result is the new element or one of the
/// old ones.
proof fn lemma_insert_dep_elems(s: Seq<Dependency>, x: Dependency)
    ensures
        forall|i: int|
            0 <= i < spec_insert_dep(s, x).len() ==> (#[trigger] spec_insert_dep(s, x)[i] == x
                || s.contains(spec_insert_dep(s, x)[i])),
    decreases s.len(),
{
    lemma_insert_dep_len(s, x);
    if s.len() > 0 && !dep_lt(x, s[0]) {
        lemma_insert_dep_elems(s.drop_first(), x);
        let r = spec_insert_dep(s, x);
        let rt = spec_insert_dep(s.drop_first(), x);
        assert forall|i: int| 0 <= i < r.len() implies (#[trigger] r[i] == x || s.contains(
            r[i],
        )) by {
            if i == 0 {
                assert(s.contains(s[0]));
            } else {
                assert(r[i] == rt[i - 1]);
                if rt[i - 1] != x {
                    let j = choose|j: int| 0 <= j < s.drop_first().len() && s.drop_first()[j]
                        == rt[i - 1];
                    assert(s[j + 1] == rt[i - 1]);
                }
            }
        }
    }
}

/// Inserting into a sorted sequence keeps it sorted.
proof fn lemma_insert_dep_sorted(s: Seq<Dependency>, x: Dependency)
    requires
        sorted_deps(s),
    ensures
        sorted_deps(spec_insert_dep(s, x)),
    decreases s.len(),
{
    lemma_insert_dep_len(s, x);
    if s.len() == 0 {
    } else if dep_lt(x, s[0]) {
        let r = seq![x] + s;
        assert forall|i: int, j: int| 0 <= i < j < r.len() implies !dep_lt(
            #[trigger] r[j],
            #[trigger] r[i],
        ) by {
            if i == 0 {
                assert(r[j] == s[j - 1]);
                if dep_lt(r[j], x) {
                    lemma_dep_lt_trans(r[j], x, s[0]);
                    if j == 1 {
                        lemma_dep_lt_irrefl(s[0]);
                    }
                }
            } else {
                assert(r[i] == s[i - 1] && r[j] == s[j - 1]);
            }
        }
    } else {
        assert(sorted_deps(s.drop_first())) by {
            assert forall|i: int, j: int| 0 <= i < j < s.drop_first().len() implies !dep_lt(
                #[trigger] s.drop_first()[j],
                #[trigger] s.drop_first()[i],
            ) by {
                assert(s.drop_first()[i] == s[i + 1]);
                assert(s.drop_first()[j] == s[j + 1]);
            }
        }
        lemma_insert_dep_sorted(s.drop_first(), x);
        lemma_insert_dep_elems(s.drop_first(), x);
        let rt = spec_insert_dep(s.drop_first(), x);
        let r = seq![s[0]] + rt;
        assert(spec_insert_dep(s, x) == r);
        assert forall|i: int, j: int| 0 <= i < j < r.len() implies !dep_lt(
            #[trigger] r[j],
            #[trigger] r[i],
        ) by {
            if i == 0 {
                assert(r[j] == rt[j - 1]);
                if rt[j - 1] == x {
                } else {
                    let k = choose|k: int|
                        0 <= k < s.drop_first().len() && s.drop_first()[k] == rt[j - 1];
                    assert(s[k + 1] == rt[j - 1]);
                }
            } else {
                assert(r[i] == rt[i - 1] && r[j] == rt[j - 1]);
            }
        }
    }
}

/// The result of the sort is sorted, has the input's length, and holds
/// only elements of the input.
pub proof fn lemma_sort_deps_ensures(s: Seq<Dependency>)
    ensures
        sorted_deps(spec_sort_deps(s)),
        spec_sort_deps(s).len() == s.len(),
        forall|i: int|
            0 <= i < spec_sort_deps(s).len() ==> s.contains(#[trigger] spec_sort_deps(s)[i]),
    decreases s.len(),
{
    if s.len() > 0 {
        lemma_sort_deps_ensures(s.drop_last());
        lemma_insert_dep_len(spec_sort_deps(s.drop_last()), s.last());
        lemma_insert_dep_sorted(spec_sort_deps(s.drop_last()), s.last());
        lemma_insert_dep_elems(spec_sort_deps(s.drop_last()), s.last());
        let r = spec_sort_deps(s);
        assert forall|i: int| 0 <= i < r.len() implies s.contains(#[trigger] r[i]) by {
            if r[i] == s.last() {
                assert(s[s.len() - 1] == s.last());
            } else {
                let prev = spec_sort_deps(s.drop_last());
                assert(prev.contains(r[i]));
                let j = choose|j: int| 0 <= j < prev.len() && prev[j] == r[i];
                assert(s.drop_last().contains(prev[j]));
                let k = choose|k: int| 0 <= k < s.drop_last().len() && s.drop_last()[k] == prev[j];
                assert(s[k] == r[i]);
            }
        }
    }
}

/// Characterizes the insertion point: if everything before `j` is not
/// strictly above `x` and `s[j]` is, the result splits around `x` at `j`.
proof fn lemma_insert_dep_at(s: Seq<Dependency>, x: Dependency, j: int)
    requires
        0 <= j <= s.len(),
        forall|k: int| 0 <= k < j ==> !dep_lt(x, #[trigger] s[k]),
        j < s.len() ==> dep_lt(x, s[j]),
    ensures
        spec_insert_dep(s, x) =~= s.subrange(0, j) + seq![x] + s.subrange(j, s.len() as int),
    decreases s.len(),
{
    if s.len() == 0 {
    } else if dep_lt(x, s[0]) {
        assert(j == 0);
    } else {
        assert(j >= 1);
        let t = s.drop_first();
        assert forall|k: int| 0 <= k < j - 1 implies !dep_lt(x, #[trigger] t[k]) by {
            assert(t[k] == s[k + 1]);
        }
        if j - 1 < t.len() {
            assert(t[j - 1] == s[j]);
        }
        lemma_insert_dep_at(t, x, j - 1);
    }
}

/// Sorts results by (kind, name), matching `spec_sort_deps` exactly.
pub fn sort_dependencies(v: Vec<Dependency>) -> (r: Vec<Dependency>)
    ensures
        r@ == spec_sort_deps(v@),
        sorted_deps(r@),
        r@.len() == v@.len(),
        forall|i: int| 0 <= i < r@.len() ==> v@.contains(#[trigger] r@[i]),
{
    let ghost orig = v@;
    let mut rest = v;
    let mut r: Vec<Dependency> = Vec::new();
    proof {
        assert(orig.subrange(0, 0) =~= Seq::<Dependency>::empty());
        assert(rest@ =~= orig.subrange(0, orig.len() as int));
    }
    while rest.len() > 0
        invariant
            rest@.len() <= orig.len(),
            rest@ == orig.subrange(orig.len() - rest@.len(), orig.len() as int),
            r@ == spec_sort_deps(orig.subrange(0, orig.len() - rest@.len())),
        decreases rest@.len(),
    {
        let ghost done = orig.len() - rest@.len();
        let x = rest.remove(0);
        proof {
            assert(x == orig[done]);
            assert(rest@ =~= orig.subrange(orig.len() - rest@.len(), orig.len() as int));
            lemma_sort_deps_ensures(orig.subrange(0, done));
        }
        let ghost prev = r@;
        let mut j: usize = 0;
        loop
            invariant_except_break
                j <= r@.len(),
                r@ == prev,
                forall|k: int| 0 <= k < j ==> !dep_lt(x, #[trigger] r@[k]),
            ensures
                j <= r@.len(),
                r@ == prev,
                forall|k: int| 0 <= k < j ==> !dep_lt(x, #[trigger] r@[k]),
                j < r@.len() ==> dep_lt(x, r@[j as int]),
            decreases r@.len() - j,
        {
            if j == r.len() {
                break ;
            }
            if dep_lt_exec(&x, &r[j]) {
                break ;
            }
            j = j + 1;
        }
        proof {
            lemma_insert_dep_at(prev, x, j as int);
        }
        r.insert(j, x);
        proof {
            assert(r@ =~= prev.subrange(0, j as int) + seq![x] + prev.subrange(
                j as int,
                prev.len() as int,
            ));
            assert(r@ == spec_insert_dep(prev, x));
            assert(orig.subrange(0, done + 1).drop_last() =~= orig.subrange(0, done));
            assert(orig.subrange(0, done + 1).last() == orig[done]);
        }
    }
    proof {
        assert(orig.subrange(0, orig.len() as int) =~= orig);
        lemma_sort_deps_ensures(orig);
    }
    r
}

/// The results a fetch run keeps: only strictly-outdated entries.
pub open spec fn spec_filter_outdated(s: Seq<Dependency>) -> Seq<Dependency>
    decreases s.len(),
{
    if s.len() == 0 {
        Seq::empty()
    } else {
        let rest = spec_filter_outdated(s.drop_last());
        if version_lt(s.last().current_version@, s.last().latest_version@) {
            rest.push(s.last())
        } else {
            rest
        }
    }
}

/// Every kept entry is strictly outdated.
pub proof fn lemma_filter_outdated_strict(s: Seq<Dependency>)
    ensures
        forall|i: int|
            0 <= i < spec_filter_outdated(s).len() ==> version_lt(
                (#[trigger] spec_filter_outdated(s)[i]).current_version@,
                spec_filter_outdated(s)[i].latest_version@,
            ),
    decreases s.len(),
{
    if s.len() > 0 {
        lemma_filter_outdated_strict(s.drop_last());
    }
}

/// Whether both version strings of every collected entry parse; the
/// builder fails exactly when this does not hold.
pub open spec fn all_versions_parse(s: Seq<Dependency>) -> bool {
    forall|i: int|
        0 <= i < s.len() ==> version_parses((#[trigger] s[i]).current_version@) && version_parses(
            s[i].latest_version@,
        )
}

/// The final ordered aggregate handed to the selection layer.
#[derive(Debug, Clone, PartialEq, Eq)]
pub struct Dependencies {
    dependencies: Vec<Dependency>,
}

impl View for Dependencies {
    type V = Seq<Dependency>;

    closed spec fn view(&self) -> Seq<Dependency> {
        self.dependencies@
    }
}

impl Dependencies {
    /// Wraps an already-prepared sequence of results.
    pub fn new(dependencies: Vec<Dependency>) -> (r: Dependencies)
        ensures
            r@ == dependencies@,
    {
        Dependencies { dependencies }
    }

    pub fn len(&self) -> (r: usize)
        ensures
            r == self@.len(),
    {
        self.dependencies.len()
    }

    pub fn is_empty(&self) -> (r: bool)
        ensures
            r == (self@.len() == 0),
    {
        self.dependencies.len() == 0
    }

    pub fn get(&self, i: usize) -> (r: &Dependency)
        requires
            i < self@.len(),
        ensures
            *r == self@[i as int],
    {
        &self.dependencies[i]
    }

    /// Hands the ordered results back out as a plain vector.
    pub fn into_vec(self) -> (r: Vec<Dependency>)
        ensures
            r@ == self@,
    {
        self.dependencies
    }
}

/// Filters the collected fetch results down to the strictly-outdated ones
/// and sorts them by (kind, name), independent of collection order.
/// Fails exactly when some collected entry carries a version string that
/// does not parse.
#[verifier::loop_isolation(false)]
pub fn build_outdated_set(collected: Vec<Dependency>) -> (r: Result<Dependencies, Error>)
    ensures
        r is Ok <==> all_versions_parse(collected@),
        r is Ok ==> r->Ok_0@ == spec_sort_deps(spec_filter_outdated(collected@)),
        r is Ok ==> sorted_deps(r->Ok_0@),
        r is Ok ==> forall|i: int|
            0 <= i < r->Ok_0@.len() ==> version_lt(
                (#[trigger] r->Ok_0@[i]).current_version@,
                r->Ok_0@[i].latest_version@,
            ),
{
    let ghost orig = collected@;
    let mut rest = collected;
    let mut kept: Vec<Dependency> = Vec::new();
    proof {
        assert(orig.subrange(0, 0) =~= Seq::<Dependency>::empty());
        assert(rest@ =~= orig.subrange(0, orig.len() as int));
    }
    while rest.len() > 0
        invariant
            rest@.len() <= orig.len(),
            rest@ == orig.subrange(orig.len() - rest@.len(), orig.len() as int),
            kept@ == spec_filter_outdated(orig.subrange(0, orig.len() - rest@.len())),
            all_versions_parse(orig.subrange(0, orig.len() - rest@.len())),
        decreases rest@.len(),
    {
        let ghost done = orig.len() - rest@.len();
        let d = rest.remove(0);
        proof {
            assert(d == orig[done]);
            assert(rest@ =~= orig.subrange(orig.len() - rest@.len(), orig.len() as int));
        }
        match version_less(d.current_version.as_str(), d.latest_version.as_str()) {
            None => {
                proof {
                    assert(!(version_parses(orig[done].current_version@) && version_parses(
                        orig[done].latest_version@,
                    )));
                    assert(!all_versions_parse(orig));
                }
                return Err(Error::BadVersion(d.current_version));
            },
            Some(outdated) => {
                if outdated {
                    kept.push(d);
                }
                proof {
                    let sub1 = orig.subrange(0, done + 1);
                    assert(sub1.drop_last() =~= orig.subrange(0, done));
                    assert(sub1.last() == orig[done]);
                    assert forall|i: int|
                        0 <= i < sub1.len() implies version_parses(
                        (#[trigger] sub1[i]).current_version@,
                    ) && version_parses(sub1[i].latest_version@) by {
                        if i < done {
                            assert(sub1[i] == orig.subrange(0, done)[i]);
                        }
                    }
                }
            },
        }
    }
    proof {
        assert(orig.subrange(0, orig.len() as int) =~= orig);
        lemma_filter_outdated_strict(orig);
        lemma_sort_deps_ensures(spec_filter_outdated(orig));
    }
    let sorted = sort_dependencies(kept);
    Ok(Dependencies::new(sorted))
}

} // verus!
