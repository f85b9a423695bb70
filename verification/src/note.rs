//! The note collection: an ordered, in-memory sequence of notes with a
//! close/delete lifecycle. New notes append; a sweep at the start of each
//! update cycle removes every note whose window has been closed. Note
//! identifiers come from a process-unique counter, so the identifiers of
//! the live notes are strictly increasing in collection order.

use vstd::prelude::*;
use vstd::seq_lib::group_seq_lib_default;
use vstd::string::StrSliceExecFns;
use vstd::string::StringExecFns;

verus! {

/// One user-authored text document.
#[derive(Debug)]
pub struct Note {
    /// Process-unique identifier, assigned once at creation.
    pub id: u64,
    /// Display title; also the base filename on export.
    pub name: String,
    /// True while the note's window is visible.
    pub open: bool,
    /// Freeform text body.
    pub content: String,
}

/// The predicate the sweep keeps: the note's window is still open.
pub open spec fn note_is_open(n: Note) -> bool {
    n.open
}

/// Identifiers strictly increase in collection order.
pub open spec fn ids_increasing(s: Seq<Note>) -> bool {
    forall|i: int, j: int| 0 <= i < j < s.len() ==> s[i].id < s[j].id
}

/// The in-memory collection of all currently existing notes, in insertion
/// order, together with the counter that yields fresh identifiers.
#[derive(Debug)]
pub struct MyApp {
    /// The notes, in insertion order.
    pub notes: Vec<Note>,
    /// The counter that yields fresh identifiers; managed by
    /// `create_note` and never decreased.
    pub next_id: u64,
}

impl MyApp {
    /// The identifier the next created note will receive.
    pub open spec fn fresh_id(&self) -> u64 {
        self.next_id
    }

    /// Well-formedness: identifiers strictly increase in collection order
    /// and every identifier is below the fresh-identifier counter.
    pub open spec fn wf(&self) -> bool {
        &&& ids_increasing(self.notes@)
        &&& forall|i: int| 0 <= i < self.notes@.len() ==> self.notes@[i].id < self.fresh_id()
    }

    /// Executable check of `wf`, for callers outside verified code.
    #[verifier::loop_isolation(false)]
    pub fn wf_check(&self) -> (b: bool)
        ensures
            b == self.wf(),
    {
        let n = self.notes.len();
        if n == 0 {
            return true;
        }
        let mut i: usize = 1;
        let mut ok = true;
        while i < n
            invariant
                1 <= i <= n,
                n == self.notes@.len(),
                ok == (forall|p: int, q: int| 0 <= p < q < i ==> self.notes@[p].id < self.notes@[q].id),
            decreases n - i,
        {
            let ghost was_ok = ok;
            if self.notes[i - 1].id >= self.notes[i].id {
                ok = false;
            }
            proof {
                if ok {
                    assert forall|p: int, q: int| 0 <= p < q < i + 1 implies self.notes@[p].id
                        < self.notes@[q].id by {
                        if q < i {
                        } else {
                            if p < i - 1 {
                                assert(self.notes@[p].id < self.notes@[i - 1].id);
                            }
                        }
                    }
                } else if was_ok {
                    assert(0 <= i - 1 < i < i + 1 && !(self.notes@[i - 1].id
                        < self.notes@[i as int].id));
                } else {
                    let (p, q) = choose|p: int, q: int|
                        0 <= p < q < i && !(self.notes@[p].id < self.notes@[q].id);
                    assert(0 <= p < q < i + 1 && !(self.notes@[p].id < self.notes@[q].id));
                }
            }
            i = i + 1;
        }
        if !ok {
            proof {
                let (p, q) = choose|p: int, q: int|
                    0 <= p < q < i && !(self.notes@[p].id < self.notes@[q].id);
                assert(!ids_increasing(self.notes@));
            }
            return false;
        }
        if n > 0 {
            let last_ok = self.notes[n - 1].id < self.next_id;
            proof {
                if last_ok {
                    assert forall|k: int| 0 <= k < self.notes@.len() implies self.notes@[k].id
                        < self.fresh_id() by {
                        if k < n - 1 {
                            assert(self.notes@[k].id < self.notes@[n - 1].id);
                        }
                    }
                }
            }
            last_ok
        } else {
            true
        }
    }

    /// Appends a new note with a fresh unique identifier, the default
    /// title, an open window, and empty content.
    pub fn create_note(&mut self)
        requires
            old(self).wf(),
            old(self).fresh_id() < u64::MAX,
        ensures
            final(self).wf(),
            final(self).notes@.len() == old(self).notes@.len() + 1,
            final(self).notes@.drop_last() == old(self).notes@,
            final(self).notes@.last().id == old(self).fresh_id(),
            final(self).notes@.last().name@ == "New Note"@,
            final(self).notes@.last().open,
            final(self).notes@.last().content@ == Seq::<char>::empty(),
            final(self).fresh_id() == old(self).fresh_id() + 1,
    {
        let note = Note {
            id: self.next_id,
            name: "New Note".to_owned(),
            open: true,
            content: String::new(),
        };
        self.notes.push(note);
        self.next_id = self.next_id + 1;
        proof {
            assert(self.notes@.drop_last() =~= old(self).notes@);
            assert forall|i: int, j: int| 0 <= i < j < self.notes@.len() implies self.notes@[i].id
                < self.notes@[j].id by {
                if j < self.notes@.len() - 1 {
                    assert(old(self).notes@[i].id < old(self).notes@[j].id);
                } else if i < self.notes@.len() - 1 {
                    assert(old(self).notes@[i].id < old(self).fresh_id());
                }
            }
        }
    }

    /// Removes every note whose window has been closed, keeping the
    /// surviving notes in their original relative order. Runs at the
    /// start of each update cycle, before the collection is rendered.
    #[verifier::loop_isolation(false)]
    pub fn sweep_closed(&mut self)
        requires
            old(self).wf(),
        ensures
            final(self).wf(),
            final(self).notes@ == old(self).notes@.filter(|n: Note| note_is_open(n)),
            final(self).fresh_id() == old(self).fresh_id(),
    {
        broadcast use group_seq_lib_default;

        let ghost s = old(self).notes@;
        let ghost pred = |n: Note| note_is_open(n);
        let mut i: usize = self.notes.len();
        proof {
            assert(s.skip(i as int) =~= Seq::<Note>::empty());
            assert(s.skip(i as int).filter(pred) =~= Seq::<Note>::empty());
            assert(self.notes@ =~= s.take(i as int) + s.skip(i as int).filter(pred));
        }
        while i > 0
            invariant
                i <= s.len(),
                self.notes@ == s.take(i as int) + s.skip(i as int).filter(pred),
                self.next_id == old(self).next_id,
            decreases i,
        {
            i = i - 1;
            let ghost x = s[i as int];
            let ghost prior = self.notes@;
            proof {
                lemma_filter_singleton(x, pred);
                assert(s.skip(i as int) =~= seq![x] + s.skip(i as int + 1));
                assert(s.skip(i as int).filter(pred) == seq![x].filter(pred) + s.skip(
                    i as int + 1,
                ).filter(pred));
                assert(s.take(i as int + 1) =~= s.take(i as int) + seq![x]);
                assert(prior == s.take(i as int + 1) + s.skip(i as int + 1).filter(pred));
                assert(prior[i as int] == x);
            }
            if !self.notes[i].open {
                self.notes.remove(i);
                proof {
                    assert(!pred(x));
                    assert(s.skip(i as int).filter(pred) == s.skip(i as int + 1).filter(pred));
                    assert(self.notes@ == prior.remove(i as int));
                    assert(prior.remove(i as int) =~= s.take(i as int) + s.skip(
                        i as int + 1,
                    ).filter(pred));
                }
            } else {
                proof {
                    assert(pred(x));
                    assert(s.skip(i as int).filter(pred) == seq![x] + s.skip(
                        i as int + 1,
                    ).filter(pred));
                    assert(self.notes@ =~= s.take(i as int) + s.skip(i as int).filter(pred));
                }
            }
        }
        proof {
            assert(self.notes@ =~= s.filter(pred));
            lemma_filter_elems(s, pred);
            lemma_filter_increasing(s, pred);
            assert forall|k: int| 0 <= k < self.notes@.len() implies self.notes@[k].id
                < self.fresh_id() by {
                let x = self.notes@[k];
                assert(s.contains(x));
                let w = choose|w: int| 0 <= w < s.len() && s[w] == x;
                assert(s[w].id < old(self).fresh_id());
            }
        }
    }

    /// The window title for a note name: unchanged when at most nine
    /// characters, else the first nine characters followed by `...`.
    pub fn truncate_title(title: &str) -> (r: String)
        ensures
            title@.len() <= 9 ==> r@ == title@,
            title@.len() > 9 ==> r@ == title@.subrange(0, 9) + "..."@,
    {
        let n = title.unicode_len();
        if n > 9 {
            let mut s = title.substring_char(0, 9).to_owned();
            s.append("...");
            s
        } else {
            title.to_owned()
        }
    }
}

impl Default for MyApp {
    /// The empty collection.
    fn default() -> (r: Self)
        ensures
            r.wf(),
            r.notes@.len() == 0,
            r.fresh_id() == 0,
    {
        MyApp { notes: Vec::new(), next_id: 0 }
    }
}

/// Filtering a single-element sequence keeps the element exactly when the
/// predicate holds of it.
proof fn lemma_filter_singleton(x: Note, pred: spec_fn(Note) -> bool)
    ensures
        pred(x) ==> seq![x].filter(pred) == seq![x],
        !pred(x) ==> seq![x].filter(pred) == Seq::<Note>::empty(),
{
    reveal_with_fuel(Seq::filter, 2);
    assert(seq![x].drop_last() =~= Seq::<Note>::empty());
    assert(seq![x].last() == x);
    if pred(x) {
        assert(seq![x].filter(pred) =~= seq![x]);
    } else {
        assert(seq![x].filter(pred) =~= Seq::<Note>::empty());
    }
}

/// Every note the sweep keeps occurs in the original collection.
proof fn lemma_filter_elems(s: Seq<Note>, pred: spec_fn(Note) -> bool)
    ensures
        forall|j: int| 0 <= j < s.filter(pred).len() ==> s.contains(#[trigger] s.filter(pred)[j]),
    decreases s.len(),
{
    reveal_with_fuel(Seq::filter, 2);
    if s.len() == 0 {
    } else {
        let d = s.drop_last();
        lemma_filter_elems(d, pred);
        let f = s.filter(pred);
        let fd = d.filter(pred);
        assert forall|j: int| 0 <= j < f.len() implies s.contains(f[j]) by {
            if pred(s.last()) && j == f.len() - 1 {
                assert(f[j] == s.last());
                assert(s[s.len() - 1] == s.last());
            } else {
                assert(f[j] == fd[j]);
                assert(d.contains(fd[j]));
                let w = choose|w: int| 0 <= w < d.len() && d[w] == fd[j];
                assert(s[w] == fd[j]);
            }
        }
    }
}

/// The sweep preserves the strictly increasing order of identifiers.
proof fn lemma_filter_increasing(s: Seq<Note>, pred: spec_fn(Note) -> bool)
    requires
        ids_increasing(s),
    ensures
        ids_increasing(s.filter(pred)),
    decreases s.len(),
{
    reveal_with_fuel(Seq::filter, 2);
    if s.len() == 0 {
    } else {
        let d = s.drop_last();
        assert(ids_increasing(d));
        lemma_filter_increasing(d, pred);
        lemma_filter_elems(d, pred);
        let f = s.filter(pred);
        let fd = d.filter(pred);
        assert forall|i: int, j: int| 0 <= i < j < f.len() implies f[i].id < f[j].id by {
            if pred(s.last()) && j == f.len() - 1 {
                assert(f[i] == fd[i]);
                assert(d.contains(fd[i]));
                let w = choose|w: int| 0 <= w < d.len() && d[w] == fd[i];
                assert(s[w].id < s.last().id);
            } else {
                assert(f[i] == fd[i] && f[j] == fd[j]);
            }
        }
    }
}

/// All live notes carry pairwise distinct identifiers; in particular,
/// creating any number of notes in sequence yields distinct identifiers.
pub proof fn lemma_ids_distinct(app: MyApp)
    requires
        app.wf(),
    ensures
        forall|i: int, j: int|
            0 <= i < app.notes@.len() && 0 <= j < app.notes@.len() && i != j
                ==> app.notes@[i].id != app.notes@[j].id,
{
    assert forall|i: int, j: int|
        0 <= i < app.notes@.len() && 0 <= j < app.notes@.len() && i != j implies app.notes@[i].id
        != app.notes@[j].id by {
        if i < j {
            assert(app.notes@[i].id < app.notes@[j].id);
        } else {
            assert(app.notes@[j].id < app.notes@[i].id);
        }
    }
}

} // verus!
