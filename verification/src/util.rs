//! Small helpers shared by the models.
use vstd::prelude::*;

verus! {

/// Appends one character to a `String` (`String::push`).
///
/// Trusted: the std documentation of `String::push` says that it appends the
/// given `char` to the end of the string; the contract claims exactly that.
#[verifier::external_body]
pub(crate) fn push_char(s: &mut String, c: char)
    ensures
        final(s)@ == old(s)@.push(c),
{
    s.push(c);
}

/// The element at `i` occurs nowhere else in `s`.
pub open spec fn is_unique_at(s: Seq<char>, i: int) -> bool {
    forall|j: int| 0 <= j < s.len() && j != i ==> s[j] != s[i]
}

/// The indices below `n` whose element occurs exactly once in `s`, in increasing order.
pub open spec fn unique_indices_below(s: Seq<char>, n: int) -> Seq<usize>
    decreases n,
{
    if n <= 0 {
        seq![]
    } else if is_unique_at(s, n - 1) {
        unique_indices_below(s, n - 1).push((n - 1) as usize)
    } else {
        unique_indices_below(s, n - 1)
    }
}

/// An index below `n` is listed by `unique_indices_below(s, n)` exactly when its
/// element is unique; every listed index is below `n`.
pub proof fn lemma_unique_indices_below(s: Seq<char>, n: int)
    requires
        0 <= n <= s.len(),
        s.len() <= usize::MAX,
    ensures
        forall|k: int|
            0 <= k < unique_indices_below(s, n).len() ==> 0 <= #[trigger] unique_indices_below(
                s,
                n,
            )[k] < n && is_unique_at(s, unique_indices_below(s, n)[k] as int),
        forall|i: int|
            0 <= i < n && is_unique_at(s, i) ==> #[trigger] unique_indices_below(s, n).contains(
                i as usize,
            ),
    decreases n,
{
    if n > 0 {
        lemma_unique_indices_below(s, n - 1);
        let p = unique_indices_below(s, n - 1);
        assert forall|i: int| 0 <= i < n && is_unique_at(s, i) implies #[trigger] unique_indices_below(
            s,
            n,
        ).contains(i as usize) by {
            if i < n - 1 {
                assert(p.contains(i as usize));
                let k = choose|k: int| 0 <= k < p.len() && p[k] == i as usize;
                if is_unique_at(s, n - 1) {
                    assert(p.push((n - 1) as usize)[k] == i as usize);
                }
            } else {
                assert(p.push((n - 1) as usize)[p.len() as int] == i as usize);
            }
        }
    }
}

/// Indices of the elements of `v` that occur exactly once, in increasing order.
pub fn retain_unique_indices(v: Vec<char>) -> (res: Vec<usize>)
    ensures
        res@ == unique_indices_below(v@, v@.len() as int),
{
    let n = v.len();
    let mut res: Vec<usize> = Vec::new();
    let mut i: usize = 0;
    while i < n
        invariant
            n == v@.len(),
            i <= n,
            res@ == unique_indices_below(v@, i as int),
        decreases n - i,
    {
        let mut unique = true;
        let mut j: usize = 0;
        while j < n
            invariant
                n == v@.len(),
                i < n,
                j <= n,
                unique == (forall|k: int| 0 <= k < j && k != i ==> v@[k] != v@[i as int]),
            decreases n - j,
        {
            if j != i && v[j] == v[i] {
                unique = false;
            }
            j += 1;
        }
        if unique {
            res.push(i);
        }
        i += 1;
    }
    res
}

/// Whether `inner` lies within `outer`: it starts no earlier and ends no later.
pub fn contains_range(outer: core::ops::Range<usize>, inner: core::ops::Range<usize>) -> (res: bool)
    ensures
        res == (outer.start <= inner.start && inner.end <= outer.end),
{
    outer.start <= inner.start && inner.end <= outer.end
}

/// Unicode `White_Space` (what `char::is_whitespace` tests).
pub open spec fn is_white_space(c: char) -> bool {
    let u = c as u32;
    ||| 0x09 <= u <= 0x0D
    ||| u == 0x20
    ||| u == 0x85
    ||| u == 0xA0
    ||| u == 0x1680
    ||| 0x2000 <= u <= 0x200A
    ||| u == 0x2028
    ||| u == 0x2029
    ||| u == 0x202F
    ||| u == 0x205F
    ||| u == 0x3000
}

/// Whether `c` is Unicode white space.
pub fn is_white_space_char(c: char) -> (res: bool)
    ensures
        res == is_white_space(c),
{
    let u = c as u32;
    (0x09 <= u && u <= 0x0D) || u == 0x20 || u == 0x85 || u == 0xA0 || u == 0x1680 || (0x2000
        <= u && u <= 0x200A) || u == 0x2028 || u == 0x2029 || u == 0x202F || u == 0x205F || u
        == 0x3000
}

/// The finished words and the word being read after reading `s`.
pub open spec fn split_state(s: Seq<char>) -> (Seq<Seq<char>>, Seq<char>)
    decreases s.len(),
{
    if s.len() == 0 {
        (seq![], seq![])
    } else {
        let (ws, cur) = split_state(s.drop_last());
        let c = s.last();
        if is_white_space(c) {
            if cur.len() > 0 {
                (ws.push(cur), seq![])
            } else {
                (ws, cur)
            }
        } else {
            (ws, cur.push(c))
        }
    }
}

/// The maximal runs of non-white-space characters of `s`, in order.
pub open spec fn split_words(s: Seq<char>) -> Seq<Seq<char>> {
    let (ws, cur) = split_state(s);
    if cur.len() > 0 {
        ws.push(cur)
    } else {
        ws
    }
}

/// The words joined into one text, with one space between each two.
pub open spec fn join_words(ws: Seq<Seq<char>>) -> Seq<char>
    decreases ws.len(),
{
    if ws.len() == 0 {
        seq![]
    } else if ws.len() == 1 {
        ws[0]
    } else {
        join_words(ws.drop_last()) + seq![' '] + ws.last()
    }
}

/// Reading characters that are no white space only extends the word being read.
proof fn lemma_split_state_plain(p: Seq<char>, q: Seq<char>)
    requires
        forall|i: int| 0 <= i < q.len() ==> !is_white_space(#[trigger] q[i]),
    ensures
        split_state(p + q) == (split_state(p).0, split_state(p).1 + q),
    decreases q.len(),
{
    if q.len() == 0 {
        assert(p + q == p);
        assert(split_state(p).1 + q == split_state(p).1);
    } else {
        let r = q.drop_last();
        assert((p + q).drop_last() == p + r);
        assert((p + q).last() == q.last());
        lemma_split_state_plain(p, r);
        assert((split_state(p).1 + r).push(q.last()) == split_state(p).1 + q);
    }
}

/// After a joined list of words, the last word is being read and the others are finished.
proof fn lemma_split_state_joined(ws: Seq<Seq<char>>)
    requires
        ws.len() >= 1,
        forall|i: int| 0 <= i < ws.len() ==> (#[trigger] ws[i]).len() > 0,
        forall|i: int, j: int|
            0 <= i < ws.len() && 0 <= j < ws[i].len() ==> !is_white_space(#[trigger] ws[i][j]),
    ensures
        split_state(join_words(ws)) == (ws.drop_last(), ws.last()),
    decreases ws.len(),
{
    let e: Seq<char> = seq![];
    if ws.len() == 1 {
        assert(e + ws[0] == ws[0]);
        lemma_split_state_plain(e, ws[0]);
        assert(ws.drop_last() =~= seq![]);
    } else {
        let v = ws.drop_last();
        assert forall|i: int| 0 <= i < v.len() implies (#[trigger] v[i]).len() > 0 by {
            assert(v[i] == ws[i]);
        }
        assert forall|i: int, j: int|
            0 <= i < v.len() && 0 <= j < v[i].len() implies !is_white_space(#[trigger] v[i][j]) by {
            assert(v[i] == ws[i]);
        }
        lemma_split_state_joined(v);
        let jv = join_words(v);
        let js = jv + seq![' '];
        assert(js.drop_last() == jv);
        assert(is_white_space(' '));
        assert(v.drop_last().push(v.last()) == v);
        assert(split_state(js) == (v, e));
        let l = ws.last();
        assert forall|j: int| 0 <= j < l.len() implies !is_white_space(#[trigger] l[j]) by {
            assert(l == ws[ws.len() - 1]);
        }
        lemma_split_state_plain(js, l);
        assert(e + l == l);
    }
}

/// Splitting words that were joined with spaces gives them back, when each is non-empty and
/// holds no white space.
pub proof fn lemma_split_words_joined(ws: Seq<Seq<char>>)
    requires
        forall|i: int| 0 <= i < ws.len() ==> (#[trigger] ws[i]).len() > 0,
        forall|i: int, j: int|
            0 <= i < ws.len() && 0 <= j < ws[i].len() ==> !is_white_space(#[trigger] ws[i][j]),
    ensures
        split_words(join_words(ws)) == ws,
{
    if ws.len() == 0 {
        assert(split_state(seq![]) == (Seq::<Seq<char>>::empty(), Seq::<char>::empty()));
        assert(ws =~= seq![]);
    } else {
        lemma_split_state_joined(ws);
        assert(ws.drop_last().push(ws.last()) == ws);
    }
}

/// Splits `s` at white space into its words (what `str::split_whitespace` yields).
pub fn split_whitespace(s: &str) -> (res: Vec<String>)
    ensures
        res@.map_values(|w: String| w@) == split_words(s@),
{
    let ghost t = s@;
    let mut words: Vec<String> = Vec::new();
    let mut cur = String::new();
    for c in it: s.chars()
        invariant
            t == s@,
            it.seq() == t,
            split_state(t.take(it.index() as int)) == (words@.map_values(|w: String| w@), cur@),
    {
        let ghost k = it.index() as int;
        assert(t.take(k + 1).drop_last() == t.take(k));
        assert(t.take(k + 1).last() == c);
        let ghost before = words@;
        if is_white_space_char(c) {
            if !cur.as_str().is_empty() {
                let w = cur;
                words.push(w);
                cur = String::new();
                assert(words@.map_values(|w: String| w@) == before.map_values(|w: String| w@).push(
                    w@,
                ));
            }
        } else {
            push_char(&mut cur, c);
        }
    }
    assert(t.take(t.len() as int) == t);
    if !cur.as_str().is_empty() {
        let ghost before = words@;
        let w = cur;
        words.push(w);
        assert(words@.map_values(|w: String| w@) == before.map_values(|w: String| w@).push(w@));
    }
    words
}

/// The decimal digit character of `d` (`0 <= d < 10`).
pub open spec fn digit_char(d: nat) -> char {
    (48 + d) as char
}

/// The decimal notation of `n`, without leading zeros (`0` for zero).
pub open spec fn decimal(n: nat) -> Seq<char>
    decreases n,
{
    if n < 10 {
        seq![digit_char(n)]
    } else {
        decimal(n / 10).push(digit_char(n % 10))
    }
}

/// Appends the decimal notation of `n` to `s`.
pub fn push_decimal(s: &mut String, n: u64)
    ensures
        final(s)@ == old(s)@ + decimal(n as nat),
    decreases n,
{
    if n >= 10 {
        push_decimal(s, n / 10);
    }
    let d = (n % 10) as u8;
    let c = (48u8 + d) as char;
    assert(c == digit_char((n % 10) as nat));
    push_char(s, c);
    assert(old(s)@ + decimal(n as nat) == (if n >= 10 {
        old(s)@ + decimal((n / 10) as nat)
    } else {
        old(s)@
    }).push(c));
}

/// A text between double quotes.
pub open spec fn quoted(t: Seq<char>) -> Seq<char> {
    seq!['"'] + t + seq!['"']
}

/// The texts, each between double quotes, separated by `, `.
pub open spec fn join_quoted(ts: Seq<Seq<char>>) -> Seq<char>
    decreases ts.len(),
{
    if ts.len() == 0 {
        seq![]
    } else if ts.len() == 1 {
        quoted(ts[0])
    } else {
        join_quoted(ts.drop_last()) + seq![',', ' '] + quoted(ts.last())
    }
}

/// The list of texts as `["a", "b"]`: each between double quotes, separated by `, `, the whole
/// between square brackets.
pub open spec fn quoted_list(ts: Seq<Seq<char>>) -> Seq<char> {
    seq!['['] + join_quoted(ts) + seq![']']
}

} // verus!
