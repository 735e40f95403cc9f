//! The lock table: the run's single source of locked versions. Entries are
//! sorted by name on load, and a declaration is resolved by binary search
//! for its resolution name followed by a neighbour scan over the block of
//! same-named entries, since one name may appear with several versions.

use vstd::prelude::*;

use crate::errors::Error;
use crate::text::{compare_str, lemma_lex_asym, lex_lt, TextOrder};
use crate::version::{check_version, req_matches, req_parses, requirement_matches, version_parses};

verus! {

/// One resolved package recorded by the lock file.
#[derive(Debug, Clone, PartialEq, Eq)]
pub struct LockEntry {
    pub name: String,
    pub version: String,
    pub source: Option<String>,
}

/// The characters of an entry's fields, the shape the parse contract is
/// stated over.
pub open spec fn entry_view(e: LockEntry) -> (Seq<char>, Seq<char>, Option<Seq<char>>) {
    (
        e.name@,
        e.version@,
        match e.source {
            Some(s) => Some(s@),
            None => None,
        },
    )
}

pub open spec fn entries_view(s: Seq<LockEntry>) -> Seq<(Seq<char>, Seq<char>, Option<Seq<char>>)> {
    s.map_values(|e: LockEntry| entry_view(e))
}

/// No entry's name is lexicographically below an earlier entry's name.
pub open spec fn sorted_by_name(s: Seq<LockEntry>) -> bool {
    forall|i: int, j: int|
        0 <= i < j < s.len() ==> !lex_lt((#[trigger] s[j]).name@, (#[trigger] s[i]).name@)
}

/// The resolution condition: the entry carries the declaration's
/// resolution name and a version its requirement accepts.
pub open spec fn entry_matches(e: LockEntry, name: Seq<char>, req: Seq<char>) -> bool {
    e.name@ == name && req_matches(req, e.version@)
}

/// Where `spec_sort_lock` places a new entry: after every entry whose name
/// is not strictly above its own.
pub open spec fn spec_insert_lock(s: Seq<LockEntry>, x: LockEntry) -> Seq<LockEntry>
    decreases s.len(),
{
    if s.len() == 0 {
        seq![x]
    } else if lex_lt(x.name@, s[0].name@) {
        seq![x] + s
    } else {
        seq![s[0]] + spec_insert_lock(s.drop_first(), x)
    }
}

/// Deterministic insertion sort of lock entries by name.
pub open spec fn spec_sort_lock(s: Seq<LockEntry>) -> Seq<LockEntry>
    decreases s.len(),
{
    if s.len() == 0 {
        Seq::empty()
    } else {
        spec_insert_lock(spec_sort_lock(s.drop_last()), s.last())
    }
}

proof fn lemma_insert_lock_len(s: Seq<LockEntry>, x: LockEntry)
    ensures
        spec_insert_lock(s, x).len() == s.len() + 1,
    decreases s.len(),
{
    if s.len() > 0 && !lex_lt(x.name@, s[0].name@) {
        lemma_insert_lock_len(s.drop_first(), x);
    }
}

/// The insertion result holds the new entry and the old ones, and nothing
/// else.
proof fn lemma_insert_lock_elems(s: Seq<LockEntry>, x: LockEntry)
    ensures
        forall|i: int|
            0 <= i < spec_insert_lock(s, x).len() ==> (#[trigger] spec_insert_lock(s, x)[i] == x
                || s.contains(spec_insert_lock(s, x)[i])),
        spec_insert_lock(s, x).contains(x),
        forall|y: LockEntry| s.contains(y) ==> spec_insert_lock(s, x).contains(y),
    decreases s.len(),
{
    lemma_insert_lock_len(s, x);
    let r = spec_insert_lock(s, x);
    if s.len() == 0 {
        assert(r[0] == x);
    } else if lex_lt(x.name@, s[0].name@) {
        assert(r[0] == x);
        assert forall|i: int| 0 <= i < r.len() implies (#[trigger] r[i] == x || s.contains(
            r[i],
        )) by {
            if i > 0 {
                assert(r[i] == s[i - 1]);
            }
        }
        assert forall|y: LockEntry| s.contains(y) implies r.contains(y) by {
            let j = choose|j: int| 0 <= j < s.len() && s[j] == y;
            assert(r[j + 1] == y);
        }
    } else {
        lemma_insert_lock_elems(s.drop_first(), x);
        let rt = spec_insert_lock(s.drop_first(), x);
        assert forall|i: int| 0 <= i < r.len() implies (#[trigger] r[i] == x || s.contains(
            r[i],
        )) by {
            if i == 0 {
                assert(s.contains(s[0]));
            } else {
                assert(r[i] == rt[i - 1]);
                if rt[i - 1] != x {
                    let j = choose|j: int| 0 <= j < s.drop_first().len() && s.drop_first()[j]
                        == rt[i - 1];
                    assert(s[j + 1] == rt[i - 1]);
                }
            }
        }
        let jx = choose|j: int| 0 <= j < rt.len() && rt[j] == x;
        assert(r[jx + 1] == x);
        assert forall|y: LockEntry| s.contains(y) implies r.contains(y) by {
            let j = choose|j: int| 0 <= j < s.len() && s[j] == y;
            if j == 0 {
                assert(r[0] == y);
            } else {
                assert(s.drop_first()[j - 1] == y);
                assert(s.drop_first().contains(y));
                assert(rt.contains(y));
                let m = choose|m: int| 0 <= m < rt.len() && rt[m] == y;
                assert(r[m + 1] == y);
            }
        }
    }
}

/// Inserting into a name-sorted sequence keeps it name-sorted.
proof fn lemma_insert_lock_sorted(s: Seq<LockEntry>, x: LockEntry)
    requires
        sorted_by_name(s),
    ensures
        sorted_by_name(spec_insert_lock(s, x)),
    decreases s.len(),
{
    lemma_insert_lock_len(s, x);
    if s.len() == 0 {
    } else if lex_lt(x.name@, s[0].name@) {
        let r = seq![x] + s;
        assert forall|i: int, j: int| 0 <= i < j < r.len() implies !lex_lt(
            (#[trigger] r[j]).name@,
            (#[trigger] r[i]).name@,
        ) by {
            assert(r[j] == s[j - 1]);
            if i == 0 {
                if lex_lt(r[j].name@, x.name@) {
                    crate::text::lemma_lex_lt_trans(r[j].name@, x.name@, s[0].name@);
                    if j == 1 {
                        crate::text::lemma_lex_irrefl(s[0].name@);
                    }
                }
            } else {
                assert(r[i] == s[i - 1]);
            }
        }
    } else {
        assert(sorted_by_name(s.drop_first())) by {
            assert forall|i: int, j: int| 0 <= i < j < s.drop_first().len() implies !lex_lt(
                (#[trigger] s.drop_first()[j]).name@,
                (#[trigger] s.drop_first()[i]).name@,
            ) by {
                assert(s.drop_first()[i] == s[i + 1]);
                assert(s.drop_first()[j] == s[j + 1]);
            }
        }
        lemma_insert_lock_sorted(s.drop_first(), x);
        lemma_insert_lock_elems(s.drop_first(), x);
        let rt = spec_insert_lock(s.drop_first(), x);
        let r = seq![s[0]] + rt;
        assert(spec_insert_lock(s, x) == r);
        assert forall|i: int, j: int| 0 <= i < j < r.len() implies !lex_lt(
            (#[trigger] r[j]).name@,
            (#[trigger] r[i]).name@,
        ) by {
            if i == 0 {
                assert(r[j] == rt[j - 1]);
                if rt[j - 1] == x {
                } else {
                    let k = choose|k: int|
                        0 <= k < s.drop_first().len() && s.drop_first()[k] == rt[j - 1];
                    assert(s[k + 1] == rt[j - 1]);
                }
            } else {
                assert(r[i] == rt[i - 1] && r[j] == rt[j - 1]);
            }
        }
    }
}

/// The sort returns a name-sorted permutation-by-containment of its input.
pub proof fn lemma_sort_lock_ensures(s: Seq<LockEntry>)
    ensures
        sorted_by_name(spec_sort_lock(s)),
        spec_sort_lock(s).len() == s.len(),
        forall|i: int|
            0 <= i < spec_sort_lock(s).len() ==> s.contains(#[trigger] spec_sort_lock(s)[i]),
        forall|y: LockEntry| s.contains(y) ==> spec_sort_lock(s).contains(y),
    decreases s.len(),
{
    if s.len() > 0 {
        lemma_sort_lock_ensures(s.drop_last());
        let prev = spec_sort_lock(s.drop_last());
        lemma_insert_lock_len(prev, s.last());
        lemma_insert_lock_sorted(prev, s.last());
        lemma_insert_lock_elems(prev, s.last());
        let r = spec_sort_lock(s);
        assert forall|i: int| 0 <= i < r.len() implies s.contains(#[trigger] r[i]) by {
            if r[i] == s.last() {
                assert(s[s.len() - 1] == s.last());
            } else {
                assert(prev.contains(r[i]));
                let j = choose|j: int| 0 <= j < prev.len() && prev[j] == r[i];
                assert(s.drop_last().contains(prev[j]));
                let k = choose|k: int| 0 <= k < s.drop_last().len() && s.drop_last()[k] == prev[j];
                assert(s[k] == r[i]);
            }
        }
        assert forall|y: LockEntry| s.contains(y) implies r.contains(y) by {
            let j = choose|j: int| 0 <= j < s.len() && s[j] == y;
            if j < s.len() - 1 {
                assert(s.drop_last()[j] == y);
                assert(s.drop_last().contains(y));
                assert(prev.contains(y));
                assert(r.contains(y));
            } else {
                assert(y == s.last());
                assert(r.contains(y));
            }
        }
    }
}

/// Characterizes the insertion point inside a sorted prefix.
proof fn lemma_insert_lock_at(s: Seq<LockEntry>, x: LockEntry, j: int)
    requires
        0 <= j <= s.len(),
        forall|k: int| 0 <= k < j ==> !lex_lt(x.name@, (#[trigger] s[k]).name@),
        j < s.len() ==> lex_lt(x.name@, s[j].name@),
    ensures
        spec_insert_lock(s, x) =~= s.subrange(0, j) + seq![x] + s.subrange(j, s.len() as int),
    decreases s.len(),
{
    if s.len() == 0 {
    } else if lex_lt(x.name@, s[0].name@) {
        assert(j == 0);
    } else {
        assert(j >= 1);
        let t = s.drop_first();
        assert forall|k: int| 0 <= k < j - 1 implies !lex_lt(x.name@, (#[trigger] t[k]).name@) by {
            assert(t[k] == s[k + 1]);
        }
        if j - 1 < t.len() {
            assert(t[j - 1] == s[j]);
        }
        lemma_insert_lock_at(t, x, j - 1);
    }
}

/// Sorts lock entries by name, matching `spec_sort_lock` exactly.
pub fn sort_lock_entries(v: Vec<LockEntry>) -> (r: Vec<LockEntry>)
    ensures
        r@ == spec_sort_lock(v@),
        sorted_by_name(r@),
        r@.len() == v@.len(),
        forall|i: int| 0 <= i < r@.len() ==> v@.contains(#[trigger] r@[i]),
        forall|y: LockEntry| v@.contains(y) ==> r@.contains(y),
{
    let ghost orig = v@;
    let mut rest = v;
    let mut r: Vec<LockEntry> = Vec::new();
    proof {
        assert(orig.subrange(0, 0) =~= Seq::<LockEntry>::empty());
        assert(rest@ =~= orig.subrange(0, orig.len() as int));
    }
    while rest.len() > 0
        invariant
            rest@.len() <= orig.len(),
            rest@ == orig.subrange(orig.len() - rest@.len(), orig.len() as int),
            r@ == spec_sort_lock(orig.subrange(0, orig.len() - rest@.len())),
        decreases rest@.len(),
    {
        let ghost done = orig.len() - rest@.len();
        let x = rest.remove(0);
        proof {
            assert(x == orig[done]);
            assert(rest@ =~= orig.subrange(orig.len() - rest@.len(), orig.len() as int));
        }
        let ghost prev = r@;
        let mut j: usize = 0;
        loop
            invariant_except_break
                j <= r@.len(),
                r@ == prev,
                forall|k: int| 0 <= k < j ==> !lex_lt(x.name@, (#[trigger] r@[k]).name@),
            ensures
                j <= r@.len(),
                r@ == prev,
                forall|k: int| 0 <= k < j ==> !lex_lt(x.name@, (#[trigger] r@[k]).name@),
                j < r@.len() ==> lex_lt(x.name@, r@[j as int].name@),
            decreases r@.len() - j,
        {
            if j == r.len() {
                break ;
            }
            let below = match compare_str(x.name.as_str(), r[j].name.as_str()) {
                TextOrder::Less => true,
                _ => false,
            };
            if below {
                break ;
            }
            j = j + 1;
        }
        proof {
            lemma_insert_lock_at(prev, x, j as int);
        }
        r.insert(j, x);
        proof {
            assert(r@ =~= prev.subrange(0, j as int) + seq![x] + prev.subrange(
                j as int,
                prev.len() as int,
            ));
            assert(r@ == spec_insert_lock(prev, x));
            assert(orig.subrange(0, done + 1).drop_last() =~= orig.subrange(0, done));
            assert(orig.subrange(0, done + 1).last() == orig[done]);
        }
    }
    proof {
        assert(orig.subrange(0, orig.len() as int) =~= orig);
        lemma_sort_lock_ensures(orig);
    }
    r
}

/// Some loaded entry shows the given fields.
pub open spec fn represented(
    lock: Seq<LockEntry>,
    v: (Seq<char>, Seq<char>, Option<Seq<char>>),
) -> bool {
    exists|i: int| 0 <= i < lock.len() && #[trigger] entry_view(lock[i]) == v
}

/// The table shows exactly the recorded packages: every entry's fields
/// stand in the contents, and every content is represented.
pub open spec fn lock_conforms(
    lockv: Seq<LockEntry>,
    contents: Seq<(Seq<char>, Seq<char>, Option<Seq<char>>)>,
) -> bool {
    &&& forall|i: int| 0 <= i < lockv.len() ==> contents.contains(entry_view(#[trigger] lockv[i]))
    &&& covers_contents(lockv, contents)
}

/// Every recorded package is represented among the loaded entries.
pub open spec fn covers_contents(
    lock: Seq<LockEntry>,
    contents: Seq<(Seq<char>, Seq<char>, Option<Seq<char>>)>,
) -> bool {
    forall|j: int| 0 <= j < contents.len() ==> represented(lock, #[trigger] contents[j])
}

/// Whether a lock file text parses.
pub uninterp spec fn lock_parses(s: Seq<char>) -> bool;

/// The packages a lock file text records: for each one, the characters of
/// its name, exact version, and optional source locator, in file order.
pub uninterp spec fn lock_contents(s: Seq<char>) -> Seq<(Seq<char>, Seq<char>, Option<Seq<char>>)>;

/// Relies on cargo_lock::Lockfile's FromStr to parse the lock text, and on
/// cargo_lock's Name::as_str and the Display of its Version and SourceId
/// for each package's textual fields; all depend on the text alone.
#[verifier::external_body]
fn parse_lock_entries(text: &str) -> (r: Option<Vec<LockEntry>>)
    ensures
        (r is Some) <==> lock_parses(text@),
        r is Some ==> entries_view(r->0@) == lock_contents(text@),
{
    let lockfile: cargo_lock::Lockfile = text.parse().ok()?;
    let mut out = Vec::new();
    for p in lockfile.packages.iter() {
        out.push(LockEntry {
            name: p.name.as_str().to_string(),
            version: p.version.to_string(),
            source: p.source.as_ref().map(|s| s.to_string()),
        });
    }
    Some(out)
}

/// The lock table, sorted by name, every version a valid semantic version.
#[derive(Debug, Clone, PartialEq, Eq)]
pub struct LockFile {
    entries: Vec<LockEntry>,
}

impl View for LockFile {
    type V = Seq<LockEntry>;

    closed spec fn view(&self) -> Seq<LockEntry> {
        self.entries@
    }
}

impl LockFile {
    /// The invariant the matching algorithm rests on.
    pub open spec fn wf(&self) -> bool {
        sorted_by_name(self@) && forall|i: int|
            0 <= i < self@.len() ==> version_parses((#[trigger] self@[i]).version@)
    }

    pub fn len(&self) -> (r: usize)
        ensures
            r == self@.len(),
    {
        self.entries.len()
    }

    pub fn get(&self, i: usize) -> (r: &LockEntry)
        requires
            i < self@.len(),
        ensures
            *r == self@[i as int],
    {
        &self.entries[i]
    }
}

/// Parses a lock file text and prepares it for resolution: entries are
/// sorted by name and every recorded version is checked to be a valid
/// semantic version. Fails with `BadLockFile` exactly when the text does
/// not parse, and with `BadVersion` when a recorded version does not
/// parse.
#[verifier::loop_isolation(false)]
pub fn load_lock_file(text: &str) -> (r: Result<LockFile, Error>)
    ensures
        (r matches Err(e) && e is BadLockFile) <==> !lock_parses(text@),
        (r is Ok) <==> (lock_parses(text@) && forall|j: int|
            0 <= j < lock_contents(text@).len() ==> version_parses(
                (#[trigger] lock_contents(text@)[j]).1,
            )),
        r is Ok ==> r->Ok_0.wf(),
        r is Ok ==> r->Ok_0@.len() == lock_contents(text@).len(),
        r is Ok ==> forall|i: int|
            0 <= i < r->Ok_0@.len() ==> lock_contents(text@).contains(
                entry_view(#[trigger] r->Ok_0@[i]),
            ),
        r is Ok ==> covers_contents(r->Ok_0@, lock_contents(text@)),
        r is Ok ==> lock_conforms(r->Ok_0@, lock_contents(text@)),
{
    match parse_lock_entries(text) {
        None => Err(Error::BadLockFile),
        Some(entries) => {
            let ghost parsed = entries@;
            let mut idx: usize = 0;
            while idx < entries.len()
                invariant
                    idx <= entries@.len(),
                    entries@ == parsed,
                    forall|k: int|
                        0 <= k < idx ==> version_parses((#[trigger] parsed[k]).version@),
                decreases entries@.len() - idx,
            {
                if !check_version(entries[idx].version.as_str()) {
                    proof {
                        assert(entries_view(parsed)[idx as int] == entry_view(
                            parsed[idx as int],
                        ));
                        assert(lock_contents(text@)[idx as int].1 == parsed[idx as int].version@);
                    }
                    return Err(Error::BadVersion(entries[idx].version.clone()));
                }
                idx = idx + 1;
            }
            proof {
                assert forall|j: int| 0 <= j < lock_contents(text@).len() implies version_parses(
                    (#[trigger] lock_contents(text@)[j]).1,
                ) by {
                    assert(entries_view(parsed)[j] == entry_view(parsed[j]));
                    assert(lock_contents(text@)[j].1 == parsed[j].version@);
                }
            }
            let sorted = sort_lock_entries(entries);
            let ghost sv = sorted@;
            let lf = LockFile { entries: sorted };
            proof {
                assert(lf@ == sv);
                assert(entries_view(parsed).len() == parsed.len());
                assert forall|i: int| 0 <= i < lf@.len() implies version_parses(
                    (#[trigger] lf@[i]).version@,
                ) by {
                    assert(parsed.contains(sv[i]));
                    let j = choose|j: int| 0 <= j < parsed.len() && parsed[j] == sv[i];
                    assert(version_parses(parsed[j].version@));
                }
                assert forall|i: int| 0 <= i < lf@.len() implies lock_contents(text@).contains(
                    entry_view(#[trigger] lf@[i]),
                ) by {
                    assert(parsed.contains(sv[i]));
                    let j = choose|j: int| 0 <= j < parsed.len() && parsed[j] == sv[i];
                    assert(entries_view(parsed)[j] == entry_view(parsed[j]));
                    assert(lock_contents(text@)[j] == entry_view(sv[i]));
                    assert(lock_contents(text@).contains(entry_view(sv[i])));
                }
                assert forall|j: int| 0 <= j < lock_contents(text@).len() implies represented(
                    lf@,
                    #[trigger] lock_contents(text@)[j],
                ) by {
                    assert(entries_view(parsed)[j] == entry_view(parsed[j]));
                    assert(parsed.contains(parsed[j]));
                    assert(sv.contains(parsed[j]));
                    let i = choose|i: int| 0 <= i < sv.len() && sv[i] == parsed[j];
                    assert(0 <= i < lf@.len() && entry_view(lf@[i]) == lock_contents(text@)[j]);
                    assert(represented(lf@, lock_contents(text@)[j]));
                }
                assert(covers_contents(lf@, lock_contents(text@)));
            }
            Ok(lf)
        },
    }
}

/// Where the binary search over the name-sorted entries lands: some
/// index carrying the name, or nothing when the name is absent. This
/// fixes the landing index as a function of the table.
pub open spec fn spec_lock_position_rec(
    entries: Seq<LockEntry>,
    name: Seq<char>,
    lo: int,
    hi: int,
) -> Option<int>
    decreases hi - lo,
{
    if lo >= hi {
        None
    } else {
        let mid = lo + (hi - lo) / 2;
        if entries[mid].name@ == name {
            Some(mid)
        } else if lex_lt(entries[mid].name@, name) {
            spec_lock_position_rec(entries, name, mid + 1, hi)
        } else {
            spec_lock_position_rec(entries, name, lo, mid)
        }
    }
}

pub open spec fn spec_lock_position(entries: Seq<LockEntry>, name: Seq<char>) -> Option<int> {
    spec_lock_position_rec(entries, name, 0, entries.len() as int)
}

/// The first same-named entry at or after `j` that the requirement
/// accepts, stopping at the first entry of another name.
pub open spec fn spec_scan_forward(
    entries: Seq<LockEntry>,
    name: Seq<char>,
    req: Seq<char>,
    j: int,
) -> Option<int>
    decreases entries.len() - j,
{
    if j < 0 || j >= entries.len() {
        None
    } else if entries[j].name@ != name {
        None
    } else if req_matches(req, entries[j].version@) {
        Some(j)
    } else {
        spec_scan_forward(entries, name, req, j + 1)
    }
}

/// The nearest same-named entry below `j` that the requirement accepts,
/// stopping at the first entry of another name.
pub open spec fn spec_scan_backward(
    entries: Seq<LockEntry>,
    name: Seq<char>,
    req: Seq<char>,
    j: int,
) -> Option<int>
    decreases j,
{
    if j <= 0 || j > entries.len() {
        None
    } else if entries[j - 1].name@ != name {
        None
    } else if req_matches(req, entries[j - 1].version@) {
        Some(j - 1)
    } else {
        spec_scan_backward(entries, name, req, j - 1)
    }
}

/// The entry resolution returns, as a function of the table: the binary
/// search's landing index if its entry satisfies the requirement, else
/// the nearest satisfying same-named entry after it, else the nearest
/// one before it. This nearest-index-then-neighbour scan is the sole
/// tie-break among several same-named entries.
pub open spec fn spec_matching_index(
    entries: Seq<LockEntry>,
    name: Seq<char>,
    req: Seq<char>,
) -> Option<int> {
    match spec_lock_position(entries, name) {
        None => None,
        Some(i) => if req_matches(req, entries[i].version@) {
            Some(i)
        } else {
            match spec_scan_forward(entries, name, req, i + 1) {
                Some(k) => Some(k),
                None => spec_scan_backward(entries, name, req, i),
            }
        },
    }
}

proof fn lemma_position_rec_in_range(entries: Seq<LockEntry>, name: Seq<char>, lo: int, hi: int)
    requires
        0 <= lo,
        hi <= entries.len(),
    ensures
        match spec_lock_position_rec(entries, name, lo, hi) {
            Some(i) => lo <= i < hi && entries[i].name@ == name,
            None => true,
        },
    decreases hi - lo,
{
    if lo < hi {
        let mid = lo + (hi - lo) / 2;
        if entries[mid].name@ == name {
        } else if lex_lt(entries[mid].name@, name) {
            lemma_position_rec_in_range(entries, name, mid + 1, hi);
        } else {
            lemma_position_rec_in_range(entries, name, lo, mid);
        }
    }
}

/// A result of the chosen-entry function carries the name and satisfies
/// the requirement.
pub proof fn lemma_matching_index_sound(entries: Seq<LockEntry>, name: Seq<char>, req: Seq<char>)
    ensures
        match spec_matching_index(entries, name, req) {
            Some(i) => 0 <= i < entries.len() && entry_matches(entries[i], name, req),
            None => true,
        },
{
    lemma_position_rec_in_range(entries, name, 0, entries.len() as int);
    match spec_lock_position(entries, name) {
        None => {
        },
        Some(i) => {
            if req_matches(req, entries[i].version@) {
            } else {
                lemma_scan_forward_sound(entries, name, req, i + 1);
                lemma_scan_backward_sound(entries, name, req, i);
            }
        },
    }
}

proof fn lemma_scan_forward_sound(entries: Seq<LockEntry>, name: Seq<char>, req: Seq<char>, j: int)
    ensures
        match spec_scan_forward(entries, name, req, j) {
            Some(k) => j <= k < entries.len() && entry_matches(entries[k], name, req),
            None => true,
        },
    decreases entries.len() - j,
{
    if 0 <= j < entries.len() && entries[j].name@ == name && !req_matches(
        req,
        entries[j].version@,
    ) {
        lemma_scan_forward_sound(entries, name, req, j + 1);
    }
}

proof fn lemma_scan_backward_sound(entries: Seq<LockEntry>, name: Seq<char>, req: Seq<char>, j: int)
    ensures
        match spec_scan_backward(entries, name, req, j) {
            Some(k) => 0 <= k < j && entry_matches(entries[k], name, req),
            None => true,
        },
    decreases j,
{
    if 0 < j <= entries.len() && entries[j - 1].name@ == name && !req_matches(
        req,
        entries[j - 1].version@,
    ) {
        lemma_scan_backward_sound(entries, name, req, j - 1);
    }
}

proof fn lemma_scan_forward_at(
    entries: Seq<LockEntry>,
    name: Seq<char>,
    req: Seq<char>,
    start: int,
    j: int,
)
    requires
        0 <= start <= j < entries.len(),
        forall|k: int|
            start <= k < j ==> (#[trigger] entries[k]).name@ == name && !req_matches(
                req,
                entries[k].version@,
            ),
        entries[j].name@ == name,
        req_matches(req, entries[j].version@),
    ensures
        spec_scan_forward(entries, name, req, start) == Some(j),
    decreases j - start,
{
    if start < j {
        lemma_scan_forward_at(entries, name, req, start + 1, j);
    }
}

proof fn lemma_scan_forward_none(
    entries: Seq<LockEntry>,
    name: Seq<char>,
    req: Seq<char>,
    start: int,
    stop: int,
)
    requires
        0 <= start <= stop <= entries.len(),
        forall|k: int|
            start <= k < stop ==> (#[trigger] entries[k]).name@ == name && !req_matches(
                req,
                entries[k].version@,
            ),
        stop == entries.len() || entries[stop].name@ != name,
    ensures
        spec_scan_forward(entries, name, req, start) is None,
    decreases stop - start,
{
    if start < stop {
        lemma_scan_forward_none(entries, name, req, start + 1, stop);
    }
}

proof fn lemma_scan_backward_at(
    entries: Seq<LockEntry>,
    name: Seq<char>,
    req: Seq<char>,
    j: int,
    k: int,
)
    requires
        0 <= k < j <= entries.len(),
        forall|m: int|
            k < m < j ==> (#[trigger] entries[m]).name@ == name && !req_matches(
                req,
                entries[m].version@,
            ),
        entries[k].name@ == name,
        req_matches(req, entries[k].version@),
    ensures
        spec_scan_backward(entries, name, req, j) == Some(k),
    decreases j - k,
{
    if k < j - 1 {
        lemma_scan_backward_at(entries, name, req, j - 1, k);
    }
}

proof fn lemma_scan_backward_none(
    entries: Seq<LockEntry>,
    name: Seq<char>,
    req: Seq<char>,
    j: int,
    stop: int,
)
    requires
        0 <= stop <= j <= entries.len(),
        forall|m: int|
            stop <= m < j ==> (#[trigger] entries[m]).name@ == name && !req_matches(
                req,
                entries[m].version@,
            ),
        stop == 0 || entries[stop - 1].name@ != name,
    ensures
        spec_scan_backward(entries, name, req, j) is None,
    decreases j - stop,
{
    if stop < j {
        lemma_scan_backward_none(entries, name, req, j - 1, stop);
    }
}

/// Every entry's name is decided against the given name: equal, or
/// ordered one way. Every table of actual strings meets this, since the
/// comparison walks real characters; it stands as a hypothesis because
/// the character order is not total over arbitrary ghost values.
pub open spec fn names_decided(entries: Seq<LockEntry>, name: Seq<char>) -> bool {
    forall|i: int|
        0 <= i < entries.len() ==> lex_lt((#[trigger] entries[i]).name@, name) || lex_lt(
            name,
            entries[i].name@,
        ) || entries[i].name@ == name
}

proof fn lemma_position_rec_complete(
    entries: Seq<LockEntry>,
    name: Seq<char>,
    lo: int,
    hi: int,
    j: int,
)
    requires
        sorted_by_name(entries),
        names_decided(entries, name),
        0 <= lo <= j < hi <= entries.len(),
        entries[j].name@ == name,
    ensures
        spec_lock_position_rec(entries, name, lo, hi) is Some,
    decreases hi - lo,
{
    let mid = lo + (hi - lo) / 2;
    if entries[mid].name@ == name {
    } else if lex_lt(entries[mid].name@, name) {
        if j < mid {
            assert(!lex_lt(entries[mid].name@, entries[j].name@));
            assert(false);
        }
        lemma_position_rec_complete(entries, name, mid + 1, hi, j);
    } else {
        assert(lex_lt(name, entries[mid].name@));
        if j > mid {
            assert(!lex_lt(entries[j].name@, entries[mid].name@));
            assert(false);
        }
        lemma_position_rec_complete(entries, name, lo, mid, j);
    }
}

proof fn lemma_scan_forward_complete(
    entries: Seq<LockEntry>,
    name: Seq<char>,
    req: Seq<char>,
    start: int,
    j: int,
)
    requires
        0 <= start <= j < entries.len(),
        forall|k: int| start <= k <= j ==> (#[trigger] entries[k]).name@ == name,
        req_matches(req, entries[j].version@),
    ensures
        spec_scan_forward(entries, name, req, start) is Some,
    decreases j - start,
{
    if !req_matches(req, entries[start].version@) {
        lemma_scan_forward_complete(entries, name, req, start + 1, j);
    }
}

proof fn lemma_scan_backward_complete(
    entries: Seq<LockEntry>,
    name: Seq<char>,
    req: Seq<char>,
    j: int,
    i: int,
)
    requires
        0 <= j < i <= entries.len(),
        forall|m: int| j <= m < i ==> (#[trigger] entries[m]).name@ == name,
        req_matches(req, entries[j].version@),
    ensures
        spec_scan_backward(entries, name, req, i) is Some,
    decreases i - j,
{
    if !req_matches(req, entries[i - 1].version@) {
        lemma_scan_backward_complete(entries, name, req, j, i - 1);
    }
}

/// The law behind resolution: on a name-sorted table whose names are
/// decided against the declaration's resolution name, the
/// nearest-index-then-neighbour search picks an entry exactly when some
/// entry carries the name and satisfies the requirement, and what it
/// picks is always such an entry. With `find_matching_package` pinned to
/// this function, every declaration resolves or the run fails.
pub proof fn lemma_matching_index_complete(
    entries: Seq<LockEntry>,
    name: Seq<char>,
    req: Seq<char>,
)
    requires
        sorted_by_name(entries),
        names_decided(entries, name),
    ensures
        (spec_matching_index(entries, name, req) is Some) <==> (exists|j: int|
            0 <= j < entries.len() && entry_matches(#[trigger] entries[j], name, req)),
        match spec_matching_index(entries, name, req) {
            Some(i) => 0 <= i < entries.len() && entry_matches(entries[i], name, req),
            None => true,
        },
{
    lemma_matching_index_sound(entries, name, req);
    if spec_matching_index(entries, name, req) is Some {
        let i = spec_matching_index(entries, name, req)->0;
        assert(entry_matches(entries[i], name, req));
    }
    if exists|j: int| 0 <= j < entries.len() && entry_matches(#[trigger] entries[j], name, req) {
        let j = choose|j: int|
            0 <= j < entries.len() && entry_matches(#[trigger] entries[j], name, req);
        lemma_position_rec_complete(entries, name, 0, entries.len() as int, j);
        lemma_position_rec_in_range(entries, name, 0, entries.len() as int);
        let i = spec_lock_position(entries, name)->0;
        if !req_matches(req, entries[i].version@) {
            if j > i {
                assert forall|k: int| i + 1 <= k <= j implies (#[trigger] entries[k]).name@
                    == name by {
                    if entries[k].name@ != name {
                        assert(!lex_lt(entries[k].name@, entries[i].name@));
                        assert(!lex_lt(entries[j].name@, entries[k].name@));
                        assert(lex_lt(entries[k].name@, name) || lex_lt(name, entries[k].name@));
                    }
                }
                lemma_scan_forward_complete(entries, name, req, i + 1, j);
            } else {
                assert(j < i);
                assert forall|m: int| j <= m < i implies (#[trigger] entries[m]).name@ == name by {
                    if entries[m].name@ != name {
                        assert(!lex_lt(entries[m].name@, entries[j].name@));
                        assert(!lex_lt(entries[i].name@, entries[m].name@));
                        assert(lex_lt(entries[m].name@, name) || lex_lt(name, entries[m].name@));
                    }
                }
                lemma_scan_backward_complete(entries, name, req, j, i);
            }
        }
    }
}

/// Finds any index whose entry carries the given name, by binary search
/// over the name-sorted entries.
#[verifier::loop_isolation(false)]
fn lock_position(entries: &Vec<LockEntry>, package_name: &str) -> (r: Option<usize>)
    requires
        sorted_by_name(entries@),
    ensures
        match r {
            Some(i) => i < entries@.len() && entries@[i as int].name@ == package_name@
                && spec_lock_position(entries@, package_name@) == Some(i as int),
            None => (forall|k: int|
                0 <= k < entries@.len() ==> (#[trigger] entries@[k]).name@ != package_name@)
                && spec_lock_position(entries@, package_name@) is None,
        },
{
    let mut lo: usize = 0;
    let mut hi: usize = entries.len();
    while lo < hi
        invariant
            lo <= hi <= entries@.len(),
            forall|k: int|
                0 <= k < entries@.len() && !(lo <= k < hi) ==> (#[trigger] entries@[k]).name@
                    != package_name@,
            spec_lock_position(entries@, package_name@) == spec_lock_position_rec(
                entries@,
                package_name@,
                lo as int,
                hi as int,
            ),
        decreases hi - lo,
    {
        let mid = lo + (hi - lo) / 2;
        match compare_str(entries[mid].name.as_str(), package_name) {
            TextOrder::Equal => {
                return Some(mid);
            },
            TextOrder::Less => {
                proof {
                    assert forall|k: int| lo <= k <= mid implies (#[trigger] entries@[k]).name@
                        != package_name@ by {
                        if entries@[k].name@ == package_name@ {
                            lemma_lex_asym(entries@[mid as int].name@, entries@[k].name@);
                        }
                    }
                }
                lo = mid + 1;
            },
            TextOrder::Greater => {
                proof {
                    assert forall|k: int| mid <= k < hi implies (#[trigger] entries@[k]).name@
                        != package_name@ by {
                        if entries@[k].name@ == package_name@ {
                            lemma_lex_asym(package_name@, entries@[mid as int].name@);
                        }
                    }
                }
                hi = mid;
            },
        }
    }
    None
}

/// Resolves a declaration against the lock table: the entry returned
/// carries the resolution name and a version the requirement accepts,
/// and it is exactly the one `spec_matching_index` picks — the binary
/// search's landing entry if it satisfies the requirement, else the
/// nearest satisfying same-named neighbour after it, else before it.
/// Returns `PackageNotFound` exactly when no entry carries the name, and
/// `NoVersionMatch` when entries carry the name but none satisfies the
/// requirement; resolution succeeds in every other case.
pub fn find_matching_package<'a>(lock: &'a LockFile, package_name: &str, req: &str) -> (r: Result<
    &'a LockEntry,
    Error,
>)
    requires
        lock.wf(),
        req_parses(req@),
    ensures
        match spec_matching_index(lock@, package_name@, req@) {
            Some(i) => r is Ok && 0 <= i < lock@.len() && *r->Ok_0 == lock@[i],
            None => r is Err,
        },
        r is Ok ==> lock@.contains(*r->Ok_0) && entry_matches(*r->Ok_0, package_name@, req@),
        r is Err ==> forall|i: int|
            0 <= i < lock@.len() ==> !entry_matches(#[trigger] lock@[i], package_name@, req@),
        (r matches Err(e) && e is PackageNotFound) ==> forall|i: int|
            0 <= i < lock@.len() ==> (#[trigger] lock@[i]).name@ != package_name@,
        (r matches Err(e) && e is NoVersionMatch) ==> exists|i: int|
            0 <= i < lock@.len() && (#[trigger] lock@[i]).name@ == package_name@,
        r is Err ==> (r matches Err(e) && (e is PackageNotFound || e is NoVersionMatch)),
{
    let entries = &lock.entries;
    let n = entries.len();
    let idx = match lock_position(entries, package_name) {
        None => {
            return Err(Error::PackageNotFound(package_name.to_owned()));
        },
        Some(i) => i,
    };
    // forward over the block of same-named entries, starting at the found
    // index
    let mut j: usize = idx;
    loop
        invariant_except_break
            lock@ == entries@,
            lock.wf(),
            req_parses(req@),
            n == entries@.len(),
            idx < n,
            entries@[idx as int].name@ == package_name@,
            spec_lock_position(entries@, package_name@) == Some(idx as int),
            idx <= j <= n,
            forall|k: int|
                idx <= k < j ==> (#[trigger] entries@[k]).name@ == package_name@ && !req_matches(
                    req@,
                    entries@[k].version@,
                ),
        ensures
            idx < j <= n,
            forall|k: int|
                idx <= k < j ==> (#[trigger] entries@[k]).name@ == package_name@ && !req_matches(
                    req@,
                    entries@[k].version@,
                ),
            forall|k: int| j <= k < n ==> (#[trigger] entries@[k]).name@ != package_name@,
        decreases n - j,
    {
        if j == n {
            break ;
        }
        let e = &entries[j];
        match compare_str(e.name.as_str(), package_name) {
            TextOrder::Equal => {
                match requirement_matches(req, e.version.as_str()) {
                    Some(accepted) => {
                        if accepted {
                            proof {
                                if j > idx {
                                    lemma_scan_forward_at(
                                        entries@,
                                        package_name@,
                                        req@,
                                        idx + 1,
                                        j as int,
                                    );
                                }
                            }
                            return Ok(e);
                        }
                    },
                    None => {
                        proof {
                            assert(false);
                        }
                        return Err(Error::BadVersion(e.version.clone()));
                    },
                }
            },
            TextOrder::Less => {
                proof {
                    assert(entries@[idx as int].name@ == package_name@);
                    if j == idx {
                        crate::text::lemma_lex_irrefl(package_name@);
                    }
                    assert(false);
                }
                return Err(Error::BadVersion(e.version.clone()));
            },
            TextOrder::Greater => {
                proof {
                    assert forall|k: int| j <= k < n implies (#[trigger] entries@[k]).name@
                        != package_name@ by {
                        if entries@[k].name@ == package_name@ {
                            lemma_lex_asym(package_name@, entries@[j as int].name@);
                        }
                    }
                }
                break ;
            },
        }
        j = j + 1;
    }
    // backward over the same-named entries below the found index
    proof {
        lemma_scan_forward_none(entries@, package_name@, req@, idx + 1, j as int);
    }
    let mut lo: usize = idx;
    loop
        invariant_except_break
            lock@ == entries@,
            lock.wf(),
            req_parses(req@),
            n == entries@.len(),
            idx < n,
            entries@[idx as int].name@ == package_name@,
            spec_lock_position(entries@, package_name@) == Some(idx as int),
            !req_matches(req@, entries@[idx as int].version@),
            spec_scan_forward(entries@, package_name@, req@, idx + 1) is None,
            lo <= idx,
            forall|m: int|
                lo <= m < idx ==> (#[trigger] entries@[m]).name@ == package_name@ && !req_matches(
                    req@,
                    entries@[m].version@,
                ),
        ensures
            lo <= idx,
            forall|m: int|
                lo <= m < idx ==> (#[trigger] entries@[m]).name@ == package_name@ && !req_matches(
                    req@,
                    entries@[m].version@,
                ),
            forall|m: int| 0 <= m < lo ==> (#[trigger] entries@[m]).name@ != package_name@,
        decreases lo,
    {
        if lo == 0 {
            break ;
        }
        let e = &entries[lo - 1];
        match compare_str(e.name.as_str(), package_name) {
            TextOrder::Equal => {
                match requirement_matches(req, e.version.as_str()) {
                    Some(accepted) => {
                        if accepted {
                            proof {
                                lemma_scan_backward_at(
                                    entries@,
                                    package_name@,
                                    req@,
                                    idx as int,
                                    lo - 1,
                                );
                            }
                            return Ok(e);
                        }
                    },
                    None => {
                        proof {
                            assert(false);
                        }
                        return Err(Error::BadVersion(e.version.clone()));
                    },
                }
            },
            TextOrder::Greater => {
                proof {
                    assert(entries@[idx as int].name@ == package_name@);
                    assert(false);
                }
                return Err(Error::BadVersion(e.version.clone()));
            },
            TextOrder::Less => {
                proof {
                    assert forall|m: int| 0 <= m < lo implies (#[trigger] entries@[m]).name@
                        != package_name@ by {
                        if entries@[m].name@ == package_name@ {
                            lemma_lex_asym(entries@[lo - 1].name@, entries@[m].name@);
                        }
                    }
                }
                break ;
            },
        }
        lo = lo - 1;
    }
    proof {
        assert(entries@[idx as int].name@ == package_name@);
        lemma_scan_backward_none(entries@, package_name@, req@, idx as int, lo as int);
    }
    Err(Error::NoVersionMatch(package_name.to_owned()))
}

} // verus!
