//! Dictionaries: what an outline (a sequence of strokes) translates to, and back.
use rustc_hash::{FxBuildHasher, FxHashMap};
use vstd::prelude::*;

use crate::util::push_char;

verus! {

/// The hasher builder of `rustc_hash` maps (`FxHashMap`).
#[verifier::external_type_specification]
#[verifier::external_body]
pub struct ExFxBuildHasher(FxBuildHasher);

/// String notation of an outline: its strokes, written `/`-separated.
#[derive(Debug, Clone, PartialEq, Eq, PartialOrd, Ord, Hash)]
pub struct Outline(pub Vec<String>);

impl View for Outline {
    type V = Seq<Seq<char>>;

    open spec fn view(&self) -> Seq<Seq<char>> {
        self.0@.map_values(|s: String| s@)
    }
}

/// What an outline translates to.
#[derive(Debug, Clone, PartialEq, Eq, PartialOrd, Ord, Hash)]
pub enum Output {
    String(String),
}

impl View for Output {
    type V = Seq<char>;

    open spec fn view(&self) -> Seq<char> {
        match self {
            Output::String(s) => s@,
        }
    }
}

/// The strokes joined by `/`.
pub open spec fn join_strokes(ss: Seq<Seq<char>>) -> Seq<char>
    decreases ss.len(),
{
    if ss.len() == 0 {
        seq![]
    } else if ss.len() == 1 {
        ss[0]
    } else {
        join_strokes(ss.drop_last()) + seq!['/'] + ss.last()
    }
}

/// The finished pieces and the piece being read after reading `s`, splitting at `/`.
pub open spec fn slash_split_state(s: Seq<char>) -> (Seq<Seq<char>>, Seq<char>)
    decreases s.len(),
{
    if s.len() == 0 {
        (seq![], seq![])
    } else {
        let (done, cur) = slash_split_state(s.drop_last());
        if s.last() == '/' {
            (done.push(cur), seq![])
        } else {
            (done, cur.push(s.last()))
        }
    }
}

/// The pieces of `s` between the `/` characters (empty pieces included; at least one piece).
pub open spec fn split_strokes(s: Seq<char>) -> Seq<Seq<char>> {
    let (done, cur) = slash_split_state(s);
    done.push(cur)
}

proof fn lemma_join_push(ws: Seq<Seq<char>>, x: Seq<char>)
    ensures
        join_strokes(ws.push(x)) == (if ws.len() == 0 {
            x
        } else {
            join_strokes(ws) + seq!['/'] + x
        }),
{
    assert(ws.push(x).drop_last() == ws);
    assert(ws.push(x).last() == x);
    if ws.len() == 0 {
        assert(ws.push(x)[0] == x);
    }
}

proof fn lemma_join_split_state(s: Seq<char>)
    ensures
        join_strokes(slash_split_state(s).0.push(slash_split_state(s).1)) == s,
    decreases s.len(),
{
    if s.len() == 0 {
        lemma_join_push(seq![], seq![]);
    } else {
        let p = s.drop_last();
        let x = s.last();
        lemma_join_split_state(p);
        let (d0, c0) = slash_split_state(p);
        assert(s == p.push(x));
        if x == '/' {
            lemma_join_push(d0.push(c0), seq![]);
        } else {
            lemma_join_push(d0, c0.push(x));
            lemma_join_push(d0, c0);
            if d0.len() > 0 {
                assert(join_strokes(d0) + seq!['/'] + c0.push(x) == (join_strokes(d0) + seq!['/']
                    + c0).push(x));
            }
        }
    }
}

/// Reading a notation's strokes and writing them back gives the notation again, for every
/// notation.
pub proof fn lemma_join_split_strokes(s: Seq<char>)
    ensures
        join_strokes(split_strokes(s)) == s,
{
    lemma_join_split_state(s);
}

proof fn lemma_split_state_plain(p: Seq<char>, q: Seq<char>)
    requires
        !q.contains('/'),
    ensures
        slash_split_state(p + q) == (slash_split_state(p).0, slash_split_state(p).1 + q),
    decreases q.len(),
{
    if q.len() == 0 {
        assert(p + q == p);
        assert(slash_split_state(p).1 + q == slash_split_state(p).1);
    } else {
        let q0 = q.drop_last();
        assert forall|c: char| q0.contains(c) implies q.contains(c) by {
            let k = choose|k: int| 0 <= k < q0.len() && q0[k] == c;
            assert(q[k] == c);
        }
        lemma_split_state_plain(p, q0);
        assert((p + q).drop_last() == p + q0);
        assert((p + q).last() == q.last());
        assert(q[q.len() - 1] == q.last());
        assert(slash_split_state(p).1 + q0 + seq![q.last()] == slash_split_state(p).1 + q);
    }
}

/// Writing an outline's strokes and reading them back gives the strokes again, when there is
/// at least one stroke and no stroke holds `/`.
pub proof fn lemma_split_join_strokes(ss: Seq<Seq<char>>)
    requires
        ss.len() >= 1,
        forall|i: int| 0 <= i < ss.len() ==> !(#[trigger] ss[i]).contains('/'),
    ensures
        split_strokes(join_strokes(ss)) == ss,
    decreases ss.len(),
{
    if ss.len() == 1 {
        lemma_split_state_plain(seq![], ss[0]);
        assert(seq![] + ss[0] == ss[0]);
        assert(seq![].push(ss[0]) == ss);
    } else {
        let p = ss.drop_last();
        let x = ss.last();
        assert(!ss[ss.len() - 1].contains('/'));
        lemma_split_join_strokes(p);
        let j = join_strokes(p);
        let (d, c) = slash_split_state(j);
        assert((j + seq!['/']).drop_last() == j);
        assert(slash_split_state(j + seq!['/']) == (d.push(c), Seq::<char>::empty()));
        lemma_split_state_plain(j + seq!['/'], x);
        assert(Seq::<char>::empty() + x == x);
        assert(d.push(c) == p);
        assert(p.push(x) == ss);
    }
}

impl Outline {
    /// The notation of the outline: its strokes joined by `/`.
    pub fn to_notation(&self) -> (res: String)
        ensures
            res@ == join_strokes(self@),
    {
        let n = self.0.len();
        let mut res = String::new();
        let mut i: usize = 0;
        while i < n
            invariant
                n == self.0@.len(),
                i <= n,
                res@ == join_strokes(self@.take(i as int)),
            decreases n - i,
        {
            let ghost before = res@;
            assert(self@.take(i + 1).drop_last() == self@.take(i as int));
            assert(self@.take(i + 1).last() == self.0@[i as int]@);
            if i > 0 {
                push_char(&mut res, '/');
            }
            res.append(self.0[i].as_str());
            i += 1;
        }
        assert(self@.take(n as int) == self@);
        res
    }

    /// Reads an outline from its notation: the strokes are the pieces between `/`.
    pub fn from_notation(s: &str) -> (res: Outline)
        ensures
            res@ == split_strokes(s@),
    {
        let ghost t = s@;
        let mut strokes: Vec<String> = Vec::new();
        let mut cur = String::new();
        for c in it: s.chars()
            invariant
                t == s@,
                it.seq() == t,
                slash_split_state(t.take(it.index() as int)) == (
                    strokes@.map_values(|w: String| w@),
                    cur@,
                ),
        {
            let ghost k = it.index() as int;
            assert(t.take(k + 1).drop_last() == t.take(k));
            assert(t.take(k + 1).last() == c);
            if c == '/' {
                let ghost before = strokes@;
                let w = cur;
                strokes.push(w);
                cur = String::new();
                assert(strokes@.map_values(|w: String| w@) == before.map_values(|w: String| w@).push(
                    w@,
                ));
            } else {
                push_char(&mut cur, c);
            }
        }
        assert(t.take(t.len() as int) == t);
        let ghost before = strokes@;
        let w = cur;
        strokes.push(w);
        assert(strokes@.map_values(|w: String| w@) == before.map_values(|w: String| w@).push(w@));
        Outline(strokes)
    }
}

/// What a map from outlines to outputs holds, each key and value taken by its view.
pub uninterp spec fn fx_entries(m: &FxHashMap<Outline, Output>) -> Map<Seq<Seq<char>>, Seq<char>>;

/// What a map from outputs to lists of outlines holds, each key and value taken by its view.
pub uninterp spec fn fx_reverse(m: &FxHashMap<Output, Vec<Outline>>) -> Map<
    Seq<char>,
    Seq<Seq<Seq<char>>>,
>;

/// Looks an outline up in a map (`HashMap::get` on an `FxHashMap`).
///
/// Trusted: a hash map gives the value stored under a key equal to the one asked for, and
/// nothing when there is none. `Outline` compares (and hashes) by content, as its view does.
#[verifier::external_body]
fn fx_get<'a>(m: &'a FxHashMap<Outline, Output>, k: &Outline) -> (res: Option<&'a Output>)
    ensures
        match res {
            Some(v) => fx_entries(m).contains_key(k@) && fx_entries(m)[k@] == v@,
            None => !fx_entries(m).contains_key(k@),
        },
{
    m.get(k)
}

/// Lists the entries of a map (`HashMap::iter` on an `FxHashMap`, each entry cloned).
///
/// Trusted: iterating a hash map yields each entry exactly once. The order depends on the
/// map's history and is left unsaid: the contract only says that the list holds every entry
/// once and nothing else.
#[verifier::external_body]
fn fx_entry_list(m: &FxHashMap<Outline, Output>) -> (res: Vec<(Outline, Output)>)
    ensures
        forall|i: int|
            0 <= i < res@.len() ==> fx_entries(m).contains_key((#[trigger] res@[i]).0@) && fx_entries(
                m,
            )[res@[i].0@] == res@[i].1@,
        forall|k: Seq<Seq<char>>|
            #[trigger] fx_entries(m).contains_key(k) ==> exists|i: int|
                0 <= i < res@.len() && (#[trigger] res@[i]).0@ == k,
        forall|i: int, j: int|
            0 <= i < j < res@.len() ==> (#[trigger] res@[i]).0@ != (#[trigger] res@[j]).0@,
{
    m.iter().map(|(k, v)| (k.clone(), v.clone())).collect()
}

/// An empty map from outputs to outlines (`FxHashMap::default`).
///
/// Trusted: a new hash map holds nothing.
#[verifier::external_body]
fn fx_reverse_new() -> (res: FxHashMap<Output, Vec<Outline>>)
    ensures
        forall|o: Seq<char>| !#[trigger] fx_reverse(&res).contains_key(o),
{
    FxHashMap::default()
}

/// Takes the list stored under an output out of a reverse map (`HashMap::remove` on an
/// `FxHashMap`).
///
/// Trusted: removing a key gives the value stored under an equal key, if any, and leaves
/// every other key as it was.
#[verifier::external_body]
fn fx_reverse_remove(rev: &mut FxHashMap<Output, Vec<Outline>>, k: &Output) -> (res: Option<
    Vec<Outline>,
>)
    ensures
        fx_reverse(final(rev)) == fx_reverse(old(rev)).remove(k@),
        match res {
            Some(v) => fx_reverse(old(rev)).contains_key(k@) && fx_reverse(old(rev))[k@]
                == v@.map_values(|o: Outline| o@),
            None => !fx_reverse(old(rev)).contains_key(k@),
        },
{
    rev.remove(k)
}

/// Stores a list under an output in a reverse map (`HashMap::insert` on an `FxHashMap`).
///
/// Trusted: inserting stores the value under the key, replacing what an equal key held, and
/// leaves every other key as it was.
#[verifier::external_body]
fn fx_reverse_insert(rev: &mut FxHashMap<Output, Vec<Outline>>, k: Output, v: Vec<Outline>)
    ensures
        fx_reverse(final(rev)) == fx_reverse(old(rev)).insert(k@, v@.map_values(|o: Outline| o@)),
{
    rev.insert(k, v);
}

/// Appends an outline to the list stored under an output, starting an empty list when there
/// is none.
fn reverse_push(rev: &mut FxHashMap<Output, Vec<Outline>>, output: Output, outline: Outline)
    ensures
        fx_reverse(final(rev)) == fx_reverse(old(rev)).insert(
            output@,
            (if fx_reverse(old(rev)).contains_key(output@) {
                fx_reverse(old(rev))[output@]
            } else {
                Seq::empty()
            }).push(outline@),
        ),
{
    let ghost r0 = fx_reverse(rev);
    let mut list = match fx_reverse_remove(rev, &output) {
        Some(v) => v,
        None => Vec::new(),
    };
    let ghost before = list@;
    let ghost old_list = if r0.contains_key(output@) {
        r0[output@]
    } else {
        Seq::empty()
    };
    assert(before.map_values(|o: Outline| o@) =~= old_list);
    list.push(outline);
    assert(list@.map_values(|o: Outline| o@) == before.map_values(|o: Outline| o@).push(
        outline@,
    ));
    fx_reverse_insert(rev, output, list);
    assert(fx_reverse(rev) =~= r0.insert(output@, old_list.push(outline@)));
}

/// Looks an output up in a reverse map (`HashMap::get` on an `FxHashMap`).
///
/// Trusted: a hash map gives the value stored under a key equal to the one asked for, and
/// nothing when there is none. `Output` compares (and hashes) by content, as its view does.
#[verifier::external_body]
fn fx_reverse_get<'a>(rev: &'a FxHashMap<Output, Vec<Outline>>, k: &Output) -> (res: Option<
    &'a Vec<Outline>,
>)
    ensures
        match res {
            Some(v) => fx_reverse(rev).contains_key(k@) && fx_reverse(rev)[k@] == v@.map_values(
                |o: Outline| o@,
            ),
            None => !fx_reverse(rev).contains_key(k@),
        },
{
    rev.get(k)
}

/// `rev` lists, under each output, exactly the outlines that `entries` maps to it, each once,
/// and holds no other output.
pub open spec fn is_reverse_of(
    entries: Map<Seq<Seq<char>>, Seq<char>>,
    rev: Map<Seq<char>, Seq<Seq<Seq<char>>>>,
) -> bool {
    &&& forall|o: Seq<char>|
        #[trigger] rev.contains_key(o) ==> exists|x: Seq<Seq<char>>|
            #[trigger] entries.contains_key(x) && entries[x] == o
    &&& forall|x: Seq<Seq<char>>|
        #[trigger] entries.contains_key(x) ==> rev.contains_key(entries[x]) && rev[entries[x]].contains(
            x,
        )
    &&& forall|o: Seq<char>, x: Seq<Seq<char>>|
        #[trigger] rev.contains_key(o) && #[trigger] rev[o].contains(x) ==> entries.contains_key(x)
            && entries[x] == o
    &&& forall|o: Seq<char>| #[trigger] rev.contains_key(o) ==> rev[o].no_duplicates()
}

/// `n` is the number of strokes of the longest outline of the entries (0 when there is none).
pub open spec fn is_longest_key_len(entries: Map<Seq<Seq<char>>, Seq<char>>, n: int) -> bool {
    &&& forall|k: Seq<Seq<char>>| #[trigger] entries.contains_key(k) ==> k.len() <= n
    &&& (n == 0 || exists|k: Seq<Seq<char>>| #[trigger] entries.contains_key(k) && k.len() == n)
}

/// Maps outlines to outputs, and outputs back to the outlines that give them, and tracks the
/// length of the longest outline.
#[derive(Debug, Clone)]
pub struct StenoDictionary {
    entries: FxHashMap<Outline, Output>,
    rev: FxHashMap<Output, Vec<Outline>>,
    /// The number of strokes of the longest outline.
    longest_key: usize,
}

impl StenoDictionary {
    /// The entries: outline to output.
    pub closed spec fn spec_entries(&self) -> Map<Seq<Seq<char>>, Seq<char>> {
        fx_entries(&self.entries)
    }

    /// The reverse index: output to the outlines that give it.
    pub closed spec fn spec_reverse(&self) -> Map<Seq<char>, Seq<Seq<Seq<char>>>> {
        fx_reverse(&self.rev)
    }

    /// The recorded length of the longest outline.
    pub closed spec fn spec_longest_key(&self) -> int {
        self.longest_key as int
    }

    /// The reverse index lists exactly the outlines of each output, and the recorded length of
    /// the longest outline is right.
    pub open spec fn wf(&self) -> bool {
        &&& is_reverse_of(self.spec_entries(), self.spec_reverse())
        &&& is_longest_key_len(self.spec_entries(), self.spec_longest_key())
    }

    /// The number of strokes of the longest outline of the dictionary (0 when it is empty).
    pub fn longest_key(&self) -> (res: usize)
        ensures
            res == self.spec_longest_key(),
            self.wf() ==> is_longest_key_len(self.spec_entries(), res as int),
    {
        self.longest_key
    }

    /// Builds a dictionary of these entries, with its reverse index.
    pub fn new(entries: FxHashMap<Outline, Output>) -> (res: Self)
        ensures
            res.spec_entries() == fx_entries(&entries),
            res.wf(),
    {
        let ghost e = fx_entries(&entries);
        let mut list = fx_entry_list(&entries);
        let ghost l = list@;
        // The length of the longest outline:
        let mut longest_key: usize = 0;
        let mut i: usize = 0;
        while i < list.len()
            invariant
                list@ == l,
                i <= l.len(),
                forall|k: int| 0 <= k < i ==> (#[trigger] l[k]).0@.len() <= longest_key,
                longest_key == 0 || exists|k: int|
                    0 <= k < i && (#[trigger] l[k]).0@.len() == longest_key,
            decreases l.len() - i,
        {
            let n = list[i].0.0.len();
            if n > longest_key {
                longest_key = n;
            }
            i += 1;
        }
        proof {
            assert forall|x: Seq<Seq<char>>| #[trigger] e.contains_key(x) implies x.len()
                <= longest_key by {
                let k = choose|k: int| 0 <= k < l.len() && (#[trigger] l[k]).0@ == x;
                assert(l[k].0@.len() <= longest_key);
            }
            if longest_key != 0 {
                let k = choose|k: int| 0 <= k < l.len() && (#[trigger] l[k]).0@.len() == longest_key;
                assert(e.contains_key(l[k].0@));
            }
            assert(is_longest_key_len(e, longest_key as int));
        }
        let mut rev = fx_reverse_new();
        while list.len() > 0
            invariant
                e == fx_entries(&entries),
                list@ == l.take(list@.len() as int),
                list@.len() <= l.len(),
                forall|k: int|
                    0 <= k < l.len() ==> e.contains_key((#[trigger] l[k]).0@) && e[l[k].0@]
                        == l[k].1@,
                forall|a: int, b: int| 0 <= a < b < l.len() ==> (#[trigger] l[a]).0@ != (#[trigger] l[b]).0@,
                forall|x: Seq<Seq<char>>|
                    #[trigger] e.contains_key(x) ==> exists|k: int| 0 <= k < l.len() && (#[trigger] l[k]).0@ == x,
                // the reverse index of the entries from `list.len()` on
                forall|o: Seq<char>|
                    #[trigger] fx_reverse(&rev).contains_key(o) ==> exists|k: int|
                        list@.len() <= k < l.len() && (#[trigger] l[k]).1@ == o,
                forall|k: int|
                    list@.len() <= k < l.len() ==> fx_reverse(&rev).contains_key((#[trigger] l[k]).1@)
                        && fx_reverse(&rev)[l[k].1@].contains(l[k].0@),
                forall|o: Seq<char>, x: Seq<Seq<char>>|
                    #[trigger] fx_reverse(&rev).contains_key(o) && #[trigger] fx_reverse(
                        &rev,
                    )[o].contains(x) ==> exists|k: int|
                        list@.len() <= k < l.len() && (#[trigger] l[k]).0@ == x && l[k].1@ == o,
                forall|o: Seq<char>| #[trigger]
                    fx_reverse(&rev).contains_key(o) ==> fx_reverse(&rev)[o].no_duplicates(),
            decreases list@.len(),
        {
            let ghost old_rev = fx_reverse(&rev);
            let ghost n = list@.len() - 1;
            let (outline, output) = list.pop().unwrap();
            assert(l[n] == (outline, output));
            let ghost x = outline@;
            let ghost o = output@;
            reverse_push(&mut rev, output, outline);
            proof {
                let new_rev = fx_reverse(&rev);
                let old_list = if old_rev.contains_key(o) { old_rev[o] } else { Seq::empty() };
                // x was not listed yet: every listed outline comes from a later entry
                assert(!old_list.contains(x)) by {
                    if old_list.contains(x) {
                        let k = choose|k: int| n < k < l.len() && l[k].0@ == x && l[k].1@ == o;
                    }
                }
                assert forall|oo: Seq<char>, xx: Seq<Seq<char>>|
                    #[trigger] new_rev.contains_key(oo) && #[trigger] new_rev[oo].contains(xx) implies exists|k: int|
                        n <= k < l.len() && (#[trigger] l[k]).0@ == xx && l[k].1@ == oo by {
                    if oo == o {
                        if xx == x {
                            assert(l[n].0@ == xx && l[n].1@ == oo);
                        } else {
                            let m = choose|m: int| 0 <= m < new_rev[oo].len() && new_rev[oo][m] == xx;
                            assert(old_list.push(x)[m] == xx);
                            assert(old_list.contains(xx));
                        }
                    } else {
                        assert(old_rev.contains_key(oo) && old_rev[oo].contains(xx));
                    }
                }
                assert forall|k: int|
                    n <= k < l.len() implies new_rev.contains_key((#[trigger] l[k]).1@)
                        && new_rev[l[k].1@].contains(l[k].0@) by {
                    if k == n {
                        assert(old_list.push(x)[old_list.len() as int] == x);
                    } else if l[k].1@ == o {
                        let m = choose|m: int| 0 <= m < old_list.len() && old_list[m] == l[k].0@;
                        assert(old_list.push(x)[m] == l[k].0@);
                    }
                }
                assert forall|oo: Seq<char>| #[trigger] new_rev.contains_key(oo) implies exists|k: int|
                        n <= k < l.len() && (#[trigger] l[k]).1@ == oo by {
                    if oo == o {
                        assert(l[n].1@ == oo);
                    }
                }
                assert(old_list.push(x).no_duplicates());
                assert(list@ == l.take(n));
            }
        }
        proof {
            let r = fx_reverse(&rev);
            assert forall|o: Seq<char>|
                #[trigger] r.contains_key(o) implies exists|x: Seq<Seq<char>>|
                    #[trigger] e.contains_key(x) && e[x] == o by {
                let k = choose|k: int| 0 <= k < l.len() && (#[trigger] l[k]).1@ == o;
                assert(e.contains_key(l[k].0@));
            }
            assert forall|x: Seq<Seq<char>>|
                #[trigger] e.contains_key(x) implies r.contains_key(e[x]) && r[e[x]].contains(x) by {
                let k = choose|k: int| 0 <= k < l.len() && (#[trigger] l[k]).0@ == x;
                assert(r.contains_key(l[k].1@));
            }
            assert forall|o: Seq<char>, x: Seq<Seq<char>>|
                #[trigger] r.contains_key(o) && #[trigger] r[o].contains(x) implies e.contains_key(x)
                    && e[x] == o by {
                let k = choose|k: int| 0 <= k < l.len() && (#[trigger] l[k]).0@ == x && l[k].1@ == o;
            }
            assert(is_reverse_of(e, r));
        }
        StenoDictionary { entries, rev, longest_key }
    }

    /// The entries of the dictionary, each once, in no particular order.
    pub fn entry_list(&self) -> (res: Vec<(Outline, Output)>)
        ensures
            forall|i: int|
                0 <= i < res@.len() ==> self.spec_entries().contains_key((#[trigger] res@[i]).0@)
                    && self.spec_entries()[res@[i].0@] == res@[i].1@,
            forall|k: Seq<Seq<char>>|
                #[trigger] self.spec_entries().contains_key(k) ==> exists|i: int|
                    0 <= i < res@.len() && (#[trigger] res@[i]).0@ == k,
            forall|i: int, j: int|
                0 <= i < j < res@.len() ==> (#[trigger] res@[i]).0@ != (#[trigger] res@[j]).0@,
    {
        fx_entry_list(&self.entries)
    }

    /// Looks up the output of an outline.
    pub fn get(&self, outline: &Outline) -> (res: Option<&Output>)
        ensures
            match res {
                Some(v) => self.spec_entries().contains_key(outline@) && self.spec_entries()[outline@]
                    == v@,
                None => !self.spec_entries().contains_key(outline@),
            },
    {
        fx_get(&self.entries, outline)
    }

    /// Looks up the outlines that give an output.
    pub fn rev_get(&self, output: &Output) -> (res: Option<&Vec<Outline>>)
        ensures
            match res {
                Some(v) => self.spec_reverse().contains_key(output@) && self.spec_reverse()[output@]
                    == v@.map_values(|o: Outline| o@),
                None => !self.spec_reverse().contains_key(output@),
            },
    {
        fx_reverse_get(&self.rev, output)
    }
}

/// In a dictionary built by `StenoDictionary::new`, the reverse lookup of an output lists an
/// outline exactly when the lookup of that outline gives the output.
pub proof fn lemma_rev_get_inverts_get(d: &StenoDictionary, outline: Seq<Seq<char>>, output: Seq<char>)
    requires
        d.wf(),
    ensures
        (d.spec_reverse().contains_key(output) && d.spec_reverse()[output].contains(outline)) <==> (
        d.spec_entries().contains_key(outline) && d.spec_entries()[outline] == output),
{
    if d.spec_entries().contains_key(outline) && d.spec_entries()[outline] == output {
        assert(d.spec_reverse().contains_key(d.spec_entries()[outline]));
    }
}

/// A stack of dictionaries: the first that knows an outline (or output) answers.
#[derive(Debug, Clone)]
pub struct Dictionaries {
    /// Stack of dictionaries.
    pub stack: Vec<StenoDictionary>,
}

/// The output of the first dictionary in the stack that has the outline.
pub open spec fn stack_get(stack: Seq<StenoDictionary>, outline: Seq<Seq<char>>) -> Option<Seq<char>>
    decreases stack.len(),
{
    if stack.len() == 0 {
        None
    } else if stack[0].spec_entries().contains_key(outline) {
        Some(stack[0].spec_entries()[outline])
    } else {
        stack_get(stack.drop_first(), outline)
    }
}

/// The outlines of the first dictionary in the stack that has the output.
pub open spec fn stack_rev_get(stack: Seq<StenoDictionary>, output: Seq<char>) -> Option<
    Seq<Seq<Seq<char>>>,
>
    decreases stack.len(),
{
    if stack.len() == 0 {
        None
    } else if stack[0].spec_reverse().contains_key(output) {
        Some(stack[0].spec_reverse()[output])
    } else {
        stack_rev_get(stack.drop_first(), output)
    }
}

impl Dictionaries {
    /// Looks up an output for the outline: the first dictionary in the stack that has it.
    pub fn get(&self, outline: &Outline) -> (res: Option<&Output>)
        ensures
            match res {
                Some(v) => stack_get(self.stack@, outline@) == Some(v@),
                None => stack_get(self.stack@, outline@) is None,
            },
    {
        let mut i: usize = 0;
        assert(self.stack@.skip(0) == self.stack@);
        while i < self.stack.len()
            invariant
                i <= self.stack@.len(),
                stack_get(self.stack@, outline@) == stack_get(self.stack@.skip(i as int), outline@),
            decreases self.stack@.len() - i,
        {
            assert(self.stack@.skip(i as int).drop_first() == self.stack@.skip(i + 1));
            assert(self.stack@.skip(i as int)[0] == self.stack@[i as int]);
            if let Some(o) = self.stack[i].get(outline) {
                return Some(o);
            }
            i += 1;
        }
        None
    }

    /// Looks up outlines for the output: the first dictionary in the stack that has it.
    pub fn rev_get(&self, output: &Output) -> (res: Option<&Vec<Outline>>)
        ensures
            match res {
                Some(v) => stack_rev_get(self.stack@, output@) == Some(v@.map_values(|o: Outline| o@)),
                None => stack_rev_get(self.stack@, output@) is None,
            },
    {
        let mut i: usize = 0;
        assert(self.stack@.skip(0) == self.stack@);
        while i < self.stack.len()
            invariant
                i <= self.stack@.len(),
                stack_rev_get(self.stack@, output@) == stack_rev_get(self.stack@.skip(i as int), output@),
            decreases self.stack@.len() - i,
        {
            assert(self.stack@.skip(i as int).drop_first() == self.stack@.skip(i + 1));
            assert(self.stack@.skip(i as int)[0] == self.stack@[i as int]);
            if let Some(o) = self.stack[i].rev_get(output) {
                return Some(o);
            }
            i += 1;
        }
        None
    }
}

impl Default for Dictionaries {
    fn default() -> (res: Self)
        ensures
            res.stack@.len() == 0,
    {
        Dictionaries { stack: Vec::new() }
    }
}

/// The stack's lookup agrees with its dictionaries: when some dictionary has the outline, the
/// stack gives the output of the first dictionary that has it; when none has, nothing.
pub proof fn lemma_stack_get_first(stack: Seq<StenoDictionary>, outline: Seq<Seq<char>>)
    ensures
        forall|i: int|
            0 <= i < stack.len() && (#[trigger] stack[i]).spec_entries().contains_key(outline) && (
            forall|j: int| 0 <= j < i ==> !stack[j].spec_entries().contains_key(outline)) ==> stack_get(
                stack,
                outline,
            ) == Some(stack[i].spec_entries()[outline]),
        (forall|i: int| 0 <= i < stack.len() ==> !(#[trigger] stack[i]).spec_entries().contains_key(outline))
            ==> stack_get(stack, outline) is None,
    decreases stack.len(),
{
    if stack.len() > 0 {
        let t = stack.drop_first();
        lemma_stack_get_first(t, outline);
        assert forall|i: int|
            0 <= i < stack.len() && (#[trigger] stack[i]).spec_entries().contains_key(outline) && (
            forall|j: int| 0 <= j < i ==> !stack[j].spec_entries().contains_key(outline)) implies stack_get(
                stack,
                outline,
            ) == Some(stack[i].spec_entries()[outline]) by {
            if i > 0 {
                assert(!stack[0].spec_entries().contains_key(outline));
                assert(t[i - 1] == stack[i]);
                assert forall|j: int| 0 <= j < i - 1 implies !t[j].spec_entries().contains_key(outline) by {
                    assert(t[j] == stack[j + 1]);
                }
            }
        }
        if forall|i: int| 0 <= i < stack.len() ==> !(#[trigger] stack[i]).spec_entries().contains_key(outline) {
            assert(!stack[0].spec_entries().contains_key(outline));
            assert forall|i: int| 0 <= i < t.len() implies !(#[trigger] t[i]).spec_entries().contains_key(outline) by {
                assert(t[i] == stack[i + 1]);
            }
        }
    }
}

/// The stack's reverse lookup agrees with its dictionaries: when some dictionary has the
/// output, the stack gives the outlines of the first dictionary that has it; when none has,
/// nothing.
pub proof fn lemma_stack_rev_get_first(stack: Seq<StenoDictionary>, output: Seq<char>)
    ensures
        forall|i: int|
            0 <= i < stack.len() && (#[trigger] stack[i]).spec_reverse().contains_key(output) && (
            forall|j: int| 0 <= j < i ==> !stack[j].spec_reverse().contains_key(output)) ==> stack_rev_get(
                stack,
                output,
            ) == Some(stack[i].spec_reverse()[output]),
        (forall|i: int| 0 <= i < stack.len() ==> !(#[trigger] stack[i]).spec_reverse().contains_key(output))
            ==> stack_rev_get(stack, output) is None,
    decreases stack.len(),
{
    if stack.len() > 0 {
        let t = stack.drop_first();
        lemma_stack_rev_get_first(t, output);
        assert forall|i: int|
            0 <= i < stack.len() && (#[trigger] stack[i]).spec_reverse().contains_key(output) && (
            forall|j: int| 0 <= j < i ==> !stack[j].spec_reverse().contains_key(output)) implies stack_rev_get(
                stack,
                output,
            ) == Some(stack[i].spec_reverse()[output]) by {
            if i > 0 {
                assert(!stack[0].spec_reverse().contains_key(output));
                assert(t[i - 1] == stack[i]);
                assert forall|j: int| 0 <= j < i - 1 implies !t[j].spec_reverse().contains_key(output) by {
                    assert(t[j] == stack[j + 1]);
                }
            }
        }
        if forall|i: int| 0 <= i < stack.len() ==> !(#[trigger] stack[i]).spec_reverse().contains_key(output) {
            assert(!stack[0].spec_reverse().contains_key(output));
            assert forall|i: int| 0 <= i < t.len() implies !(#[trigger] t[i]).spec_reverse().contains_key(output) by {
                assert(t[i] == stack[i + 1]);
            }
        }
    }
}

} // verus!
