//! The session snapshot codec. A snapshot records, for every note, its
//! name, its open flag and its content; identifiers are re-issued on
//! load, since they only correlate notes with windows within one
//! session. The format length-prefixes each string with a canonical
//! decimal numeral, so decoding a snapshot reproduces the notes exactly.

use crate::note::MyApp;
use crate::note::Note;
use crate::numeral::dec_rep;
use crate::numeral::is_digit;
use crate::numeral::lemma_dec_rep_digits;
use crate::numeral::lemma_parse_num_of_rep;
use crate::numeral::parse_num;
use crate::numeral::parse_num_at;
use crate::numeral::to_decimal;

use vstd::prelude::*;
use vstd::string::StrSliceExecFns;
use vstd::string::StringExecFns;

verus! {

/// What a snapshot keeps of one note: everything but the identifier.
pub ghost struct Snap {
    pub name: Seq<char>,
    pub open: bool,
    pub content: Seq<char>,
}

/// The snapshot data of one note.
pub open spec fn snap_of(n: Note) -> Snap {
    Snap { name: n.name@, open: n.open, content: n.content@ }
}

/// The snapshot data of a whole collection, in collection order.
pub open spec fn snaps(s: Seq<Note>) -> Seq<Snap> {
    s.map_values(|n: Note| snap_of(n))
}

/// The encoding of one note: length-prefixed name and content, then a
/// single character for the open flag.
pub open spec fn encode_snap(sn: Snap) -> Seq<char> {
    dec_rep(sn.name.len()) + seq![':'] + sn.name + dec_rep(sn.content.len()) + seq![':']
        + sn.content + seq![if sn.open { '1' } else { '0' }]
}

/// The encoding of a sequence of notes: their encodings, concatenated.
pub open spec fn spec_encode(ss: Seq<Snap>) -> Seq<char>
    decreases ss.len(),
{
    if ss.len() == 0 {
        Seq::empty()
    } else {
        encode_snap(ss[0]) + spec_encode(ss.skip(1))
    }
}

/// Reads one note's record from the front of `s`.
pub open spec fn parse_snap(s: Seq<char>) -> Option<(Snap, Seq<char>)> {
    match parse_num(s) {
        Option::None => Option::None,
        Option::Some((nl, r1)) => if r1.len() == 0 || r1[0] != ':' {
            Option::None
        } else {
            let r2 = r1.skip(1);
            if r2.len() < nl {
                Option::None
            } else {
                let name = r2.take(nl as int);
                let r3 = r2.skip(nl as int);
                match parse_num(r3) {
                    Option::None => Option::None,
                    Option::Some((cl, r4)) => if r4.len() == 0 || r4[0] != ':' {
                        Option::None
                    } else {
                        let r5 = r4.skip(1);
                        if r5.len() < cl {
                            Option::None
                        } else {
                            let content = r5.take(cl as int);
                            let r6 = r5.skip(cl as int);
                            if r6.len() == 0 || (r6[0] != '0' && r6[0] != '1') {
                                Option::None
                            } else {
                                Option::Some(
                                    (
                                        Snap { name, open: r6[0] == '1', content },
                                        r6.skip(1),
                                    ),
                                )
                            }
                        }
                    },
                }
            }
        },
    }
}

/// Decodes a whole snapshot: note records back to back, to the end.
pub open spec fn spec_decode(s: Seq<char>) -> Option<Seq<Snap>>
    decreases s.len(),
{
    if s.len() == 0 {
        Option::Some(Seq::empty())
    } else {
        match parse_snap(s) {
            Option::None => Option::None,
            Option::Some((sn, rest)) => if rest.len() < s.len() {
                match spec_decode(rest) {
                    Option::None => Option::None,
                    Option::Some(t) => Option::Some(seq![sn] + t),
                }
            } else {
                Option::None
            },
        }
    }
}

/// Reading back one encoded record yields the record and leaves the
/// remainder untouched.
proof fn lemma_parse_snap_of_encode(sn: Snap, rest: Seq<char>)
    requires
        sn.name.len() <= usize::MAX as nat,
        sn.content.len() <= usize::MAX as nat,
    ensures
        parse_snap(encode_snap(sn) + rest) == Some((sn, rest)),
        encode_snap(sn).len() >= 1,
{
    let oc = if sn.open { '1' } else { '0' };
    let nl = sn.name.len();
    let cl = sn.content.len();
    let b1 = seq![':'] + sn.name + dec_rep(cl) + seq![':'] + sn.content + seq![oc] + rest;
    let s = encode_snap(sn) + rest;
    assert(s =~= dec_rep(nl) + b1);
    assert(b1[0] == ':');
    assert(!is_digit(':'));
    lemma_parse_num_of_rep(nl, b1);
    assert(parse_num(s) == Some((nl, b1)));
    let b2 = seq![':'] + sn.content + seq![oc] + rest;
    let r2 = b1.skip(1);
    assert(r2 =~= sn.name + (dec_rep(cl) + b2));
    assert(r2.len() >= nl);
    assert(r2.take(nl as int) =~= sn.name);
    let r3 = r2.skip(nl as int);
    assert(r3 =~= dec_rep(cl) + b2);
    assert(b2[0] == ':');
    lemma_parse_num_of_rep(cl, b2);
    assert(parse_num(r3) == Some((cl, b2)));
    let r5 = b2.skip(1);
    assert(r5 =~= sn.content + (seq![oc] + rest));
    assert(r5.len() >= cl);
    assert(r5.take(cl as int) =~= sn.content);
    let r6 = r5.skip(cl as int);
    assert(r6 =~= seq![oc] + rest);
    assert(r6[0] == oc);
    assert(r6.skip(1) =~= rest);
    lemma_dec_rep_digits(nl);
    assert(encode_snap(sn).len() >= 1);
    let parsed = parse_snap(s);
    assert(parsed matches Some(p) && p.0.name == sn.name && p.0.open == sn.open && p.0.content
        == sn.content && p.1 == rest);
}

/// Encoding one more note extends the encoding at the end.
proof fn lemma_encode_push(ss: Seq<Snap>, sn: Snap)
    ensures
        spec_encode(ss.push(sn)) == spec_encode(ss) + encode_snap(sn),
    decreases ss.len(),
{
    if ss.len() == 0 {
        assert(ss.push(sn)[0] == sn);
        assert(ss.push(sn).skip(1) =~= Seq::<Snap>::empty());
        assert(spec_encode(Seq::<Snap>::empty()) == Seq::<char>::empty());
        assert(spec_encode(ss) == Seq::<char>::empty());
        assert(spec_encode(ss.push(sn)) == encode_snap(sn) + Seq::<char>::empty());
        assert(spec_encode(ss.push(sn)) =~= spec_encode(ss) + encode_snap(sn));
    } else {
        assert(ss.push(sn).skip(1) =~= ss.skip(1).push(sn));
        lemma_encode_push(ss.skip(1), sn);
        assert(ss.push(sn)[0] == ss[0]);
        assert(spec_encode(ss.push(sn)) == encode_snap(ss[0]) + spec_encode(ss.skip(1).push(sn)));
        assert(spec_encode(ss.skip(1).push(sn)) == spec_encode(ss.skip(1)) + encode_snap(sn));
        assert(spec_encode(ss) == encode_snap(ss[0]) + spec_encode(ss.skip(1)));
        assert(encode_snap(ss[0]) + (spec_encode(ss.skip(1)) + encode_snap(sn)) =~= (encode_snap(
            ss[0],
        ) + spec_encode(ss.skip(1))) + encode_snap(sn));
    }
}

/// Serializes a collection of notes; mirrors `spec_encode`.
#[verifier::loop_isolation(false)]
pub fn encode_notes(notes: &Vec<Note>) -> (r: String)
    ensures
        r@ == spec_encode(snaps(notes@)),
{
    let ghost ss = snaps(notes@);
    let mut out = String::new();
    let mut i: usize = 0;
    proof {
        assert(ss.take(0) =~= Seq::<Snap>::empty());
        assert(out@ =~= spec_encode(ss.take(0)));
    }
    while i < notes.len()
        invariant
            i <= notes.len(),
            out@ == spec_encode(ss.take(i as int)),
        decreases notes.len() - i,
    {
        let ghost before = out@;
        let nl = notes[i].name.as_str().unicode_len();
        let dec1 = to_decimal(nl);
        out.append(dec1.as_str());
        out.append(":");
        out.append(notes[i].name.as_str());
        let cl = notes[i].content.as_str().unicode_len();
        let dec2 = to_decimal(cl);
        out.append(dec2.as_str());
        out.append(":");
        out.append(notes[i].content.as_str());
        if notes[i].open {
            out.append("1");
        } else {
            out.append("0");
        }
        proof {
            reveal_strlit(":");
            reveal_strlit("1");
            reveal_strlit("0");
            assert(":"@ =~= seq![':']);
            assert("1"@ =~= seq!['1']);
            assert("0"@ =~= seq!['0']);
            let sn = ss[i as int];
            assert(sn == snap_of(notes@[i as int]));
            assert(out@ =~= before + encode_snap(sn));
            lemma_encode_push(ss.take(i as int), sn);
            assert(ss.take(i + 1) =~= ss.take(i as int).push(sn));
            assert(out@ == spec_encode(ss.take(i + 1)));
        }
        i = i + 1;
    }
    proof {
        assert(ss.take(notes@.len() as int) =~= ss);
    }
    out
}

/// Reads one note's record from `s` starting at character position `i`;
/// returns its name, content and open flag, and the position after the
/// record. Mirrors `parse_snap` on the remaining characters.
fn parse_snap_at(s: &str, n: usize, i: usize) -> (r: Option<(String, String, bool, usize)>)
    requires
        n == s@.len(),
        i <= n,
    ensures
        r matches Some(p) ==> i < p.3 <= n && parse_snap(s@.skip(i as int)) == Some(
            (Snap { name: p.0@, open: p.2, content: p.1@ }, s@.skip(p.3 as int)),
        ),
        r is None ==> parse_snap(s@.skip(i as int)) is None,
{
    let ghost t = s@.skip(i as int);
    let num1 = parse_num_at(s, n, i);
    if num1.is_none() {
        return None;
    }
    let (nl, j1) = num1.unwrap();
    let ghost r1 = s@.skip(j1 as int);
    if j1 >= n {
        proof {
            assert(r1.len() == 0);
        }
        return None;
    }
    proof {
        assert(r1[0] == s@[j1 as int]);
    }
    if s.get_char(j1) != ':' {
        return None;
    }
    let ghost r2 = r1.skip(1);
    proof {
        assert(r2 =~= s@.skip(j1 + 1));
    }
    if nl > n - (j1 + 1) {
        proof {
            assert(r2.len() < nl);
        }
        return None;
    }
    let name = s.substring_char(j1 + 1, j1 + 1 + nl).to_owned();
    let j2 = j1 + 1 + nl;
    proof {
        assert(r2.take(nl as int) =~= s@.subrange(j1 + 1, j1 + 1 + nl));
        assert(name@ == r2.take(nl as int));
        assert(r2.skip(nl as int) =~= s@.skip(j2 as int));
    }
    let num2 = parse_num_at(s, n, j2);
    if num2.is_none() {
        return None;
    }
    let (cl, j3) = num2.unwrap();
    let ghost r4 = s@.skip(j3 as int);
    if j3 >= n {
        proof {
            assert(r4.len() == 0);
        }
        return None;
    }
    proof {
        assert(r4[0] == s@[j3 as int]);
    }
    if s.get_char(j3) != ':' {
        return None;
    }
    let ghost r5 = r4.skip(1);
    proof {
        assert(r5 =~= s@.skip(j3 + 1));
    }
    if cl > n - (j3 + 1) {
        proof {
            assert(r5.len() < cl);
        }
        return None;
    }
    let content = s.substring_char(j3 + 1, j3 + 1 + cl).to_owned();
    let j4 = j3 + 1 + cl;
    proof {
        assert(r5.take(cl as int) =~= s@.subrange(j3 + 1, j3 + 1 + cl));
        assert(content@ == r5.take(cl as int));
        assert(r5.skip(cl as int) =~= s@.skip(j4 as int));
    }
    let ghost r6 = s@.skip(j4 as int);
    if j4 >= n {
        proof {
            assert(r6.len() == 0);
        }
        return None;
    }
    proof {
        assert(r6[0] == s@[j4 as int]);
        assert(r6.skip(1) =~= s@.skip(j4 + 1));
    }
    let oc = s.get_char(j4);
    if oc == '1' {
        Some((name, content, true, j4 + 1))
    } else if oc == '0' {
        Some((name, content, false, j4 + 1))
    } else {
        None
    }
}

/// Deserializes a snapshot back into notes, issuing fresh sequential
/// identifiers; mirrors `spec_decode`, failing exactly when it does.
#[verifier::loop_isolation(false)]
pub fn decode_notes(s: &str) -> (r: Option<Vec<Note>>)
    ensures
        r matches Some(v) ==> spec_decode(s@) == Some(snaps(v@)) && (forall|k: int|
            0 <= k < v@.len() ==> (#[trigger] v@[k]).id == k as u64),
        r is None ==> spec_decode(s@) is None,
{
    let n = s.unicode_len();
    let mut out: Vec<Note> = Vec::new();
    let mut i: usize = 0;
    proof {
        assert(snaps(out@) =~= Seq::<Snap>::empty());
        assert(s@.skip(0) =~= s@);
        assert(snaps(out@) + spec_decode(s@).unwrap() =~= spec_decode(s@).unwrap());
    }
    while i < n
        invariant
            i <= n,
            spec_decode(s@.skip(i as int)) is None ==> spec_decode(s@) is None,
            spec_decode(s@.skip(i as int)) matches Some(t) ==> spec_decode(s@) == Some(
                snaps(out@) + t,
            ),
            forall|k: int| 0 <= k < out@.len() ==> (#[trigger] out@[k]).id == k as u64,
        decreases n - i,
    {
        let ghost u = s@.skip(i as int);
        let parsed = parse_snap_at(s, n, i);
        if parsed.is_none() {
            proof {
                assert(u.len() > 0);
                assert(spec_decode(u) is None);
            }
            return None;
        }
        let (name, content, open, j) = parsed.unwrap();
        let id = out.len() as u64;
        let ghost out_before = out@;
        out.push(Note { id, name, open, content });
        proof {
            let sn = Snap {
                name: out@.last().name@,
                open: out@.last().open,
                content: out@.last().content@,
            };
            assert(parse_snap(u) == Some((sn, s@.skip(j as int))));
            assert(s@.skip(j as int).len() < u.len());
            assert(snaps(out@) =~= snaps(out_before).push(sn));
            if spec_decode(s@.skip(j as int)) is Some {
                let t = spec_decode(s@.skip(j as int)).unwrap();
                assert(spec_decode(u) == Some(seq![sn] + t));
                assert(snaps(out_before) + (seq![sn] + t) =~= snaps(out@) + t);
            } else {
                assert(spec_decode(u) is None);
            }
        }
        i = j;
    }
    proof {
        assert(s@.skip(i as int) =~= Seq::<char>::empty());
        assert(spec_decode(s@.skip(i as int)) == Some(Seq::<Snap>::empty()));
        assert(snaps(out@) + Seq::<Snap>::empty() =~= snaps(out@));
    }
    Some(out)
}

impl MyApp {
    /// Serializes the collection for the session snapshot store.
    pub fn save(&self) -> (r: String)
        ensures
            r@ == spec_encode(snaps(self.notes@)),
    {
        encode_notes(&self.notes)
    }

    /// Restores a collection from a stored session snapshot: the saved
    /// notes' names, contents and open flags, under freshly issued
    /// identifiers; the empty collection when no usable snapshot exists.
    pub fn new(snapshot: Option<&str>) -> (r: Self)
        ensures
            r.wf(),
            match snapshot {
                Option::None => r.notes@.len() == 0,
                Option::Some(s) => match spec_decode(s@) {
                    Option::Some(ss) => snaps(r.notes@) == ss,
                    Option::None => r.notes@.len() == 0,
                },
            },
            forall|k: int| 0 <= k < r.notes@.len() ==> (#[trigger] r.notes@[k]).id == k as u64,
            r.fresh_id() == r.notes@.len() as u64,
    {
        match snapshot {
            None => MyApp::default(),
            Some(s) => match decode_notes(s) {
                Some(v) => {
                    let next = v.len() as u64;
                    let app = MyApp { notes: v, next_id: next };
                    proof {
                        assert forall|p: int, q: int|
                            0 <= p < q < app.notes@.len() implies app.notes@[p].id
                            < app.notes@[q].id by {
                            assert(app.notes@[p].id == p as u64);
                            assert(app.notes@[q].id == q as u64);
                        }
                    }
                    app
                },
                None => MyApp::default(),
            },
        }
    }
}

/// Round trip: decoding an encoded snapshot yields exactly the notes
/// that were saved, whenever each string fits in memory.
pub proof fn lemma_snapshot_round_trip(ss: Seq<Snap>)
    requires
        forall|k: int|
            0 <= k < ss.len() ==> (#[trigger] ss[k]).name.len() <= usize::MAX as nat
                && ss[k].content.len() <= usize::MAX as nat,
    ensures
        spec_decode(spec_encode(ss)) == Some(ss),
    decreases ss.len(),
{
    if ss.len() == 0 {
        assert(spec_encode(ss).len() == 0);
    } else {
        let rest = spec_encode(ss.skip(1));
        assert(spec_encode(ss) == encode_snap(ss[0]) + rest);
        lemma_parse_snap_of_encode(ss[0], rest);
        assert(forall|k: int|
            0 <= k < ss.skip(1).len() ==> (#[trigger] ss.skip(1)[k]).name.len()
                <= usize::MAX as nat && ss.skip(1)[k].content.len() <= usize::MAX as nat);
        lemma_snapshot_round_trip(ss.skip(1));
        let s = spec_encode(ss);
        assert(parse_snap(s) == Some((ss[0], rest)));
        assert(s.len() == encode_snap(ss[0]).len() + rest.len());
        assert(rest.len() < s.len());
        assert(spec_decode(s) == Some(seq![ss[0]] + ss.skip(1)));
        assert(seq![ss[0]] + ss.skip(1) =~= ss);
    }
}

} // verus!
