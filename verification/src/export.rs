//! The export manager: plans a snapshot of the collection on the local
//! filesystem. The destination directory is named by the export
//! timestamp; each note becomes one file named after its title, with a
//! numeric disambiguator in parentheses appended when an earlier note in
//! the same batch already claimed the name. Planning is pure; the caller
//! performs the directory creation and the writes.

use crate::note::Note;
use crate::numeral::dec_rep;
use crate::numeral::lemma_dec_rep_digits;
use crate::numeral::lemma_dec_val_of_rep;
use crate::numeral::to_decimal;

use vstd::prelude::*;
use vstd::string::StrSliceExecFns;
use vstd::string::StringExecFns;

verus! {

/// Why an export wrote nothing, or stopped.
#[derive(Debug, Clone, Copy, PartialEq, Eq, Structural)]
pub enum ExportError {
    /// The hosting OS reported no home directory.
    NoHomeDirectory,
    /// The destination directory could not be created.
    DirectoryCreateError,
    /// A note's file could not be created or written.
    FileWriteError,
}

impl ExportError {
    /// A short description of the failure.
    pub fn message(&self) -> (r: &'static str)
        ensures
            *self == ExportError::NoHomeDirectory ==> r@ == "no home directory"@,
            *self == ExportError::DirectoryCreateError ==> r@ == "could not create export directory"@,
            *self == ExportError::FileWriteError ==> r@ == "could not write note file"@,
    {
        match self {
            ExportError::NoHomeDirectory => "no home directory",
            ExportError::DirectoryCreateError => "could not create export directory",
            ExportError::FileWriteError => "could not write note file",
        }
    }
}

/// The view of each filename in a list.
pub open spec fn str_views(s: Seq<String>) -> Seq<Seq<char>> {
    s.map_values(|x: String| x@)
}

/// The `k`-th candidate filename for a note name: the name itself, then
/// the name with `(k)` appended.
pub open spec fn candidate_name(name: Seq<char>, k: nat) -> Seq<char> {
    if k == 0 {
        name
    } else {
        name + seq!['('] + dec_rep(k) + seq![')']
    }
}

/// `r` is the filename the export gives a note named `name` when the
/// names in `prior` are already taken: the first candidate not yet taken.
pub open spec fn resolved_filename(prior: Seq<Seq<char>>, name: Seq<char>, r: Seq<char>) -> bool {
    exists|k: nat|
        r == candidate_name(name, k) && !prior.contains(r) && (forall|j: nat|
            j < k ==> prior.contains(#[trigger] candidate_name(name, j)))
}

/// Distinct counters give distinct candidate filenames.
proof fn lemma_candidate_injective(name: Seq<char>, j1: nat, j2: nat)
    requires
        j1 != j2,
    ensures
        candidate_name(name, j1) != candidate_name(name, j2),
{
    lemma_dec_rep_digits(j1);
    lemma_dec_rep_digits(j2);
    if j1 == 0 || j2 == 0 {
        assert(candidate_name(name, j1).len() != candidate_name(name, j2).len());
    } else {
        if candidate_name(name, j1) == candidate_name(name, j2) {
            let c1 = candidate_name(name, j1);
            let m = dec_rep(j1).len() as int;
            assert(c1.len() == name.len() + 2 + m);
            assert(dec_rep(j2).len() as int == m);
            assert(dec_rep(j1) =~= c1.subrange(name.len() as int + 1, name.len() as int + 1 + m));
            assert(dec_rep(j2) =~= c1.subrange(name.len() as int + 1, name.len() as int + 1 + m));
            lemma_dec_val_of_rep(j1);
            lemma_dec_val_of_rep(j2);
            assert(false);
        }
    }
}

/// If every candidate below `k` is already taken, there are at least `k`
/// taken names: the search cannot run past the list of taken names.
proof fn lemma_candidates_bound(prior: Seq<Seq<char>>, name: Seq<char>, k: nat)
    requires
        forall|j: nat| j < k ==> prior.contains(#[trigger] candidate_name(name, j)),
    ensures
        k <= prior.len(),
    decreases k,
{
    if k > 0 {
        assert(prior.contains(candidate_name(name, (k - 1) as nat)));
        let w = choose|w: int|
            0 <= w < prior.len() && prior[w] == candidate_name(name, (k - 1) as nat);
        let rest = prior.remove(w);
        assert forall|j: nat| j < k - 1 implies rest.contains(
            #[trigger] candidate_name(name, j),
        ) by {
            assert(prior.contains(candidate_name(name, j)));
            let v = choose|v: int| 0 <= v < prior.len() && prior[v] == candidate_name(name, j);
            lemma_candidate_injective(name, j, (k - 1) as nat);
            assert(v != w);
            if v < w {
                assert(rest[v] == prior[v]);
            } else {
                assert(rest[v - 1] == prior[v]);
            }
        }
        lemma_candidates_bound(rest, name, (k - 1) as nat);
    }
}

/// Whether one of the taken names is `s`.
#[verifier::loop_isolation(false)]
fn contains_str(v: &Vec<String>, s: &String) -> (b: bool)
    ensures
        b == str_views(v@).contains(s@),
{
    let mut j: usize = 0;
    while j < v.len()
        invariant
            j <= v.len(),
            forall|m: int| 0 <= m < j ==> str_views(v@)[m] != s@,
        decreases v.len() - j,
    {
        if v[j].eq(s) {
            proof {
                assert(str_views(v@)[j as int] == s@);
            }
            return true;
        }
        j = j + 1;
    }
    false
}

/// The filename for a note named `name` when the names in `used` are
/// taken: `name` itself if free, else `name(1)`, `name(2)`, ..., the
/// first not yet taken, each checked against the taken names in turn.
#[verifier::loop_isolation(false)]
pub fn resolve_filename(used: &Vec<String>, name: &str) -> (r: String)
    ensures
        resolved_filename(str_views(used@), name@, r@),
{
    let mut k: usize = 0;
    let mut cand: String = name.to_owned();
    proof {
        assert(cand@ == candidate_name(name@, 0));
    }
    while contains_str(used, &cand)
        invariant
            cand@ == candidate_name(name@, k as nat),
            forall|j: nat| j < k ==> str_views(used@).contains(#[trigger] candidate_name(name@, j)),
            k <= used@.len(),
        decreases used@.len() - k,
    {
        let cap = used.len();
        proof {
            assert(str_views(used@).contains(candidate_name(name@, k as nat)));
            assert(forall|j: nat|
                j < k + 1 ==> str_views(used@).contains(#[trigger] candidate_name(name@, j)));
            lemma_candidates_bound(str_views(used@), name@, (k + 1) as nat);
            assert(k < cap);
        }
        k = k + 1;
        let num = to_decimal(k);
        let mut next: String = name.to_owned();
        next.append("(");
        next.append(num.as_str());
        next.append(")");
        proof {
            reveal_strlit("(");
            reveal_strlit(")");
            assert("("@ =~= seq!['(']);
            assert(")"@ =~= seq![')']);
            assert(next@ =~= candidate_name(name@, k as nat));
        }
        cand = next;
    }
    cand
}

/// One planned export file: a filename unique within the batch, and the
/// note's content, to be written verbatim.
#[derive(Debug)]
pub struct PlannedFile {
    /// The filename within the destination directory.
    pub filename: String,
    /// The file body: the note's content, unchanged.
    pub content: String,
}

/// The views of the planned filenames.
pub open spec fn plan_views(s: Seq<PlannedFile>) -> Seq<Seq<char>> {
    s.map_values(|p: PlannedFile| p.filename@)
}

/// Plans one file per note, in collection order: each file carries the
/// note's content verbatim, under the first candidate filename not taken
/// by an earlier note of the batch; all planned filenames are distinct.
#[verifier::loop_isolation(false)]
pub fn export_plan(notes: &Vec<Note>) -> (r: Vec<PlannedFile>)
    ensures
        r@.len() == notes@.len(),
        forall|i: int| 0 <= i < r@.len() ==> (#[trigger] r@[i]).content@ == notes@[i].content@,
        forall|i: int|
            0 <= i < r@.len() ==> resolved_filename(
                plan_views(r@).take(i),
                notes@[i].name@,
                (#[trigger] r@[i]).filename@,
            ),
        forall|i: int, j: int| 0 <= i < j < r@.len() ==> r@[i].filename@ != r@[j].filename@,
{
    let mut used: Vec<String> = Vec::new();
    let mut out: Vec<PlannedFile> = Vec::new();
    let mut i: usize = 0;
    while i < notes.len()
        invariant
            i <= notes.len(),
            out@.len() == i,
            str_views(used@) == plan_views(out@),
            forall|p: int| 0 <= p < i ==> (#[trigger] out@[p]).content@ == notes@[p].content@,
            forall|p: int|
                0 <= p < i ==> resolved_filename(
                    plan_views(out@).take(p),
                    notes@[p].name@,
                    (#[trigger] out@[p]).filename@,
                ),
            forall|p: int, q: int| 0 <= p < q < i ==> out@[p].filename@ != out@[q].filename@,
        decreases notes.len() - i,
    {
        let fname = resolve_filename(&used, notes[i].name.as_str());
        let content = notes[i].content.clone();
        let ghost fsnap = fname@;
        let ghost out_before = out@;
        let ghost used_before = used@;
        used.push(fname.clone());
        out.push(PlannedFile { filename: fname, content });
        proof {
            assert(used@[i as int]@ == fsnap);
            assert(out@[i as int].filename@ == fsnap);
            assert(out@[i as int].content@ == notes@[i as int].content@);
            assert forall|m: int| 0 <= m < used@.len() implies str_views(used@)[m] == plan_views(
                out@,
            )[m] by {
                if m < i {
                    assert(used@[m] == used_before[m]);
                    assert(out@[m] == out_before[m]);
                    assert(str_views(used_before)[m] == plan_views(out_before)[m]);
                }
            }
            assert(str_views(used@) =~= plan_views(out@));
            assert(plan_views(out@).take(i as int) =~= plan_views(out_before));
            assert(resolved_filename(str_views(used_before), notes@[i as int].name@, fsnap));
            assert forall|p: int| 0 <= p < i + 1 implies resolved_filename(
                plan_views(out@).take(p),
                notes@[p].name@,
                (#[trigger] out@[p]).filename@,
            ) by {
                if p < i {
                    assert(plan_views(out@).take(p) =~= plan_views(out_before).take(p));
                    assert(out@[p] == out_before[p]);
                } else {
                    assert(plan_views(out@).take(p) == str_views(used_before));
                }
            }
            let prior = str_views(used_before);
            let k = choose|k: nat|
                fsnap == candidate_name(notes@[i as int].name@, k) && !prior.contains(fsnap) && (
                forall|j: nat|
                    j < k ==> prior.contains(#[trigger] candidate_name(notes@[i as int].name@, j)));
            assert(!prior.contains(fsnap));
            assert forall|p: int, q: int| 0 <= p < q < i + 1 implies out@[p].filename@
                != out@[q].filename@ by {
                if q == i {
                    assert(prior[p] == out@[p].filename@);
                    if out@[p].filename@ == fsnap {
                        assert(prior.contains(fsnap));
                    }
                }
            }
        }
        i = i + 1;
    }
    out
}

/// The destination directory name for an export timestamp.
pub open spec fn dir_name_of(ts: Seq<char>) -> Seq<char> {
    "export_"@ + ts
}

/// Builds the destination directory name from a timestamp.
pub fn export_dir_name(timestamp: &str) -> (r: String)
    ensures
        r@ == dir_name_of(timestamp@),
{
    let mut s = "export_".to_owned();
    s.append(timestamp);
    s
}

/// Distinct timestamps yield distinct destination directories, so two
/// exports at different instants never share a directory.
pub proof fn lemma_dir_names_distinct(t1: Seq<char>, t2: Seq<char>)
    ensures
        t1 != t2 ==> dir_name_of(t1) != dir_name_of(t2),
{
    if dir_name_of(t1) == dir_name_of(t2) {
        let p = "export_"@.len() as int;
        assert(dir_name_of(t1).skip(p) =~= t1);
        assert(dir_name_of(t2).skip(p) =~= t2);
    }
}

/// The fixed path, relative to the home directory, under which export
/// directories are created.
pub fn exports_parent() -> (r: &'static str)
    ensures
        r@ == "scratchpad/exports"@,
{
    "scratchpad/exports"
}

/// The RFC 3339 rendering of a UTC timestamp given as whole seconds and
/// nanoseconds since the Unix epoch; a function of the two numbers alone.
pub uninterp spec fn rfc3339_of(secs: int, nanos: int) -> Seq<char>;

/// Relies on chrono's `DateTime::<Utc>::from_timestamp` and
/// `DateTime::to_rfc3339`: the timestamp, when chrono accepts it, formats
/// as an RFC 3339 string determined by the two arguments alone; chrono
/// accepts every in-range timestamp with ordinary nanoseconds.
#[verifier::external_body]
fn rfc3339_utc(secs: i64, nanos: u32) -> (r: Option<String>)
    ensures
        r matches Some(s) ==> s@ == rfc3339_of(secs as int, nanos as int),
        0 <= secs <= 253402300799i64 && nanos < 1_000_000_000 ==> r is Some,
{
    match chrono::DateTime::<chrono::Utc>::from_timestamp(secs, nanos) {
        Some(dt) => Some(dt.to_rfc3339()),
        None => None,
    }
}

/// The destination directory name for an export requested at the given
/// UTC instant: `export_` followed by the RFC 3339 timestamp.
pub fn export_dir_name_at(secs: i64, nanos: u32) -> (r: Option<String>)
    ensures
        r matches Some(s) ==> s@ == dir_name_of(rfc3339_of(secs as int, nanos as int)),
        0 <= secs <= 253402300799i64 && nanos < 1_000_000_000 ==> r is Some,
{
    match rfc3339_utc(secs, nanos) {
        Some(ts) => Some(export_dir_name(ts.as_str())),
        None => None,
    }
}

} // verus!
