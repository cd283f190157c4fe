//! Steno keys, strokes and steno systems.
//!
//! A stroke is a bitmask over the keys of a steno system (up to 63 keys).
use vstd::prelude::*;
use vstd::utf8::*;

use crate::model::mask::{
    has_bit, indices_mask, lemma_and_subset_bit, lemma_indices_mask_bits, lemma_range_mask_bits,
    lemma_or_assoc, lemma_or_below, lemma_or_comm, lemma_or_swap, lemma_or_twice, lemma_or_zero,
    lemma_or_zero_right, lemma_range_mask_within, lemma_zero_below, range_mask,
};
use crate::util::{
    contains_range, is_unique_at, is_white_space, join_words, lemma_split_words_joined,
    lemma_unique_indices_below, push_char, retain_unique_indices, split_whitespace, split_words,
};

verus! {

/// `Unsided` (no side given) | `Left` | `Right`
#[derive(Debug, Clone, Copy, PartialEq, Eq, Hash, Structural)]
pub enum KeySide {
    Unsided,
    Left,
    Right,
}

/// One of `<letter>`, `<letter>-` or `-<letter>`.
#[derive(Debug, Clone, Copy, PartialEq, Eq, Hash, Structural)]
pub struct LetterWithSide {
    pub letter: char,
    pub side: KeySide,
}

/// What `LetterWithSide::parse` gives for a notation of the given characters.
pub open spec fn spec_parse_letter(s: Seq<char>) -> Option<LetterWithSide> {
    if s.len() == 1 {
        if s[0] == '-' {
            None
        } else {
            Some(LetterWithSide { letter: s[0], side: KeySide::Unsided })
        }
    } else if s.len() == 2 {
        if s[0] == '-' && s[1] == '-' {
            None
        } else if s[1] == '-' {
            Some(LetterWithSide { letter: s[0], side: KeySide::Left })
        } else if s[0] == '-' {
            Some(LetterWithSide { letter: s[1], side: KeySide::Right })
        } else {
            None
        }
    } else {
        None
    }
}

/// The notation of a key: `<letter>`, `<letter>-` or `-<letter>`.
pub open spec fn spec_letter_notation(l: LetterWithSide) -> Seq<char> {
    match l.side {
        KeySide::Unsided => seq![l.letter],
        KeySide::Left => seq![l.letter, '-'],
        KeySide::Right => seq!['-', l.letter],
    }
}

/// A character takes at most four bytes in UTF-8.
proof fn lemma_encode_utf8_len(s: Seq<char>)
    ensures
        encode_utf8(s).len() <= 4 * s.len(),
    decreases s.len(),
{
    if s.len() > 0 {
        lemma_encode_utf8_len(s.drop_first());
    }
}

impl LetterWithSide {
    /// Parses `<letter>`, `<letter>-` or `-<letter>`.
    pub fn parse(s: &str) -> (res: Option<Self>)
        ensures
            res == spec_parse_letter(s@),
    {
        if s.len() > 8 {
            // Apparently too long.
            proof {
                lemma_encode_utf8_len(s@);
            }
            return None;
        }
        let n = s.unicode_len();
        if n == 1 {
            let c = s.get_char(0);
            if c == '-' {
                None
            } else {
                Some(Self { letter: c, side: KeySide::Unsided })
            }
        } else if n == 2 {
            let c0 = s.get_char(0);
            let c1 = s.get_char(1);
            if c0 == '-' && c1 == '-' {
                None
            } else if c1 == '-' {
                Some(Self { letter: c0, side: KeySide::Left })
            } else if c0 == '-' {
                Some(Self { letter: c1, side: KeySide::Right })
            } else {
                None
            }
        } else {
            None
        }
    }

    /// The notation of this key (what the key prints as): `<letter>`,
    /// `<letter>-` or `-<letter>`.
    pub fn to_notation(&self) -> (res: String)
        ensures
            res@ == spec_letter_notation(*self),
    {
        let mut s = String::new();
        match self.side {
            KeySide::Unsided => {
                push_char(&mut s, self.letter);
            },
            KeySide::Left => {
                push_char(&mut s, self.letter);
                push_char(&mut s, '-');
            },
            KeySide::Right => {
                push_char(&mut s, '-');
                push_char(&mut s, self.letter);
            },
        }
        s
    }
}

/// Printing a key and parsing it back gives the key again, for every key whose
/// letter is not the hyphen.
pub proof fn lemma_letter_notation_roundtrip(l: LetterWithSide)
    requires
        l.letter != '-',
    ensures
        spec_parse_letter(spec_letter_notation(l)) == Some(l),
{
}

/// Bitmask of keys pressed on a steno keyboard (up to 63 keys).
#[derive(Debug, Clone, PartialEq, Eq, PartialOrd, Ord, Hash, Structural)]
pub struct Stroke {
    /// Bitmask
    pub mask: usize,
}

impl Stroke {
    pub fn new(mask: usize) -> (res: Self)
        ensures
            res.mask == mask,
    {
        Self { mask }
    }

    pub fn is_empty(&self) -> (res: bool)
        ensures
            res == (self.mask == 0),
    {
        self.mask == 0
    }
}

/// A sequence of stenographic keyboard keys.
///
/// The system carries no number key layout: numbers belong to dictionary data.
#[derive(Debug, PartialEq, Eq, Hash)]
pub struct StenoSystem {
    /// 63 (constant): strokes are bit flags of one machine word.
    n_max_keys: usize,
    /// n_max_keys + 1 (+1 for hyphen).
    n_max_steno: usize,
    /// A bitmask that filters a contiguous block of keys whose letters are unique and whose
    /// side can be known without explicit specification by user.
    implicit_hyphen_mask: usize,
    /// Index of the first right side key.
    right_keys_index: usize,
    /// Maps key indices to letters.
    pub keys: Box<[LetterWithSide]>,
}

/// Error found in `StenoSystem::new`.
#[derive(Debug, Clone, Copy, PartialEq, Eq, Structural)]
pub enum StenoSystemError {
    InvalidImplicitHyphenKeys,
    OutOfRangeImplicitHyphenKeyRange,
    NotAllImplicitHyphenKeysUnique,
    FoundLeftSideKeyInRightSide(char),
}

/// The message that describes an error of `StenoSystem::new`.
pub open spec fn spec_system_error_message(e: StenoSystemError) -> Seq<char> {
    match e {
        StenoSystemError::InvalidImplicitHyphenKeys => "invalid implicit hyphen keys"@,
        StenoSystemError::OutOfRangeImplicitHyphenKeyRange =>
            "given out of range implicit hyphen key range"@,
        StenoSystemError::NotAllImplicitHyphenKeysUnique =>
            "not all implicit hyphen keys are unique"@,
        StenoSystemError::FoundLeftSideKeyInRightSide(c) => "found left side key in right side: "@.push(
            c,
        ),
    }
}

impl StenoSystemError {
    /// The message that describes the error.
    pub fn message(&self) -> (res: String)
        ensures
            res@ == spec_system_error_message(*self),
    {
        match self {
            StenoSystemError::InvalidImplicitHyphenKeys => String::from_str(
                "invalid implicit hyphen keys",
            ),
            StenoSystemError::OutOfRangeImplicitHyphenKeyRange => String::from_str(
                "given out of range implicit hyphen key range",
            ),
            StenoSystemError::NotAllImplicitHyphenKeysUnique => String::from_str(
                "not all implicit hyphen keys are unique",
            ),
            StenoSystemError::FoundLeftSideKeyInRightSide(c) => {
                let mut s = String::from_str("found left side key in right side: ");
                push_char(&mut s, *c);
                s
            },
        }
    }
}

/// Turns the key list into a boxed slice (`Vec::into_boxed_slice`).
///
/// Trusted: the std documentation of `Vec::into_boxed_slice` says that it converts the vector
/// into a boxed slice of its elements; the contract claims that the slice holds the same
/// elements in the same order.
#[verifier::external_body]
fn into_boxed_keys(v: Vec<LetterWithSide>) -> (res: Box<[LetterWithSide]>)
    ensures
        res@ == v@,
{
    v.into_boxed_slice()
}

/// The letters of the keys, in order.
pub open spec fn letters_of(keys: Seq<LetterWithSide>) -> Seq<char> {
    keys.map_values(|k: LetterWithSide| k.letter)
}

/// The first index at or after `i` of a right-side key, or the length when there is none.
pub open spec fn first_right_from(keys: Seq<LetterWithSide>, i: int) -> int
    decreases keys.len() - i,
{
    if i >= keys.len() {
        keys.len() as int
    } else if keys[i].side == KeySide::Right {
        i
    } else {
        first_right_from(keys, i + 1)
    }
}

/// The index of the first right-side key, or the number of keys when there is none.
pub open spec fn first_right(keys: Seq<LetterWithSide>) -> int {
    first_right_from(keys, 0)
}

/// The first index at or after `i` of a left-side key.
pub open spec fn first_left_from(keys: Seq<LetterWithSide>, i: int) -> Option<int>
    decreases keys.len() - i,
{
    if i >= keys.len() {
        None
    } else if keys[i].side == KeySide::Left {
        Some(i)
    } else {
        first_left_from(keys, i + 1)
    }
}

/// The bounds of an optional implicit hyphen key range; no range is the empty range `0..0`.
pub open spec fn range_bounds(rng: Option<core::ops::Range<usize>>) -> (int, int) {
    match rng {
        Some(r) => (r.start as int, r.end as int),
        None => (0, 0),
    }
}

/// The error `StenoSystem::new` reports for these keys and implicit hyphen key range, if any:
/// a left-side key after the first right-side key (the first such key is named), then a range
/// that reaches past the keys, then a range that holds a key whose letter is not unique.
pub open spec fn spec_system_error(keys: Seq<LetterWithSide>, start: int, end: int) -> Option<
    StenoSystemError,
> {
    match first_left_from(keys, first_right(keys) + 1) {
        Some(j) => Some(StenoSystemError::FoundLeftSideKeyInRightSide(keys[j].letter)),
        None => if end > keys.len() {
            Some(StenoSystemError::OutOfRangeImplicitHyphenKeyRange)
        } else if exists|i: int| start <= i < end && !is_unique_at(letters_of(keys), i) {
            Some(StenoSystemError::NotAllImplicitHyphenKeysUnique)
        } else {
            None
        },
    }
}

proof fn lemma_first_right_from(keys: Seq<LetterWithSide>, i: int)
    requires
        0 <= i <= keys.len(),
    ensures
        i <= first_right_from(keys, i) <= keys.len(),
        forall|j: int| i <= j < first_right_from(keys, i) ==> keys[j].side != KeySide::Right,
        first_right_from(keys, i) < keys.len() ==> keys[first_right_from(keys, i)].side
            == KeySide::Right,
    decreases keys.len() - i,
{
    if i < keys.len() && keys[i].side != KeySide::Right {
        lemma_first_right_from(keys, i + 1);
    }
}

/// What `StenoSystem::parse_stroke` does on one character: `-` jumps to the right-hand keys
/// (failing when already past them); another character presses the next key, in steno order,
/// that has this letter.
pub open spec fn scan_key(keys: Seq<LetterWithSide>, from: int, c: char) -> int
    decreases keys.len() - from,
{
    if from >= keys.len() {
        from
    } else if keys[from].letter == c {
        from
    } else {
        scan_key(keys, from + 1, c)
    }
}

/// The mask and the current key index after `parse_stroke` has read the characters `s`.
pub open spec fn stroke_state(keys: Seq<LetterWithSide>, right: int, s: Seq<char>) -> Option<
    (usize, int),
>
    decreases s.len(),
{
    if s.len() == 0 {
        Some((0usize, 0int))
    } else {
        match stroke_state(keys, right, s.drop_last()) {
            None => None,
            Some((mask, idx)) => {
                let c = s.last();
                if c == '-' {
                    if idx > right {
                        None
                    } else {
                        Some((mask, right))
                    }
                } else {
                    let j = scan_key(keys, idx, c);
                    if j >= keys.len() {
                        None
                    } else {
                        Some((mask | (1usize << (j as usize)), j))
                    }
                }
            },
        }
    }
}

/// The stroke that `parse_stroke` gives for a notation.
pub open spec fn spec_parse_stroke(keys: Seq<LetterWithSide>, right: int, s: Seq<char>) -> Option<
    Stroke,
> {
    match stroke_state(keys, right, s) {
        Some((mask, _)) => Some(Stroke { mask }),
        None => None,
    }
}

/// The index range of keys that a key with this side may be: all keys, the left-hand keys
/// or the right-hand keys.
pub open spec fn side_range(n: int, right: int, side: KeySide) -> (int, int) {
    match side {
        KeySide::Unsided => (0, n),
        KeySide::Left => (0, right),
        KeySide::Right => (right, n),
    }
}

/// The first index in `i..end` whose key equals `k`.
pub open spec fn find_key_from(keys: Seq<LetterWithSide>, k: LetterWithSide, i: int, end: int) -> Option<
    int,
>
    decreases end - i,
{
    if i >= end {
        None
    } else if keys[i] == k {
        Some(i)
    } else {
        find_key_from(keys, k, i + 1, end)
    }
}

/// The index of the key `k` among the keys its side allows.
pub open spec fn find_key(keys: Seq<LetterWithSide>, right: int, k: LetterWithSide) -> Option<int> {
    let (start, end) = side_range(keys.len() as int, right, k.side);
    find_key_from(keys, k, start, end)
}

/// The mask of the given keys, or `None` when one of them is not a key of the system.
pub open spec fn keys_mask(keys: Seq<LetterWithSide>, right: int, ks: Seq<LetterWithSide>) -> Option<
    usize,
>
    decreases ks.len(),
{
    if ks.len() == 0 {
        Some(0usize)
    } else {
        match (find_key(keys, right, ks[0]), keys_mask(keys, right, ks.drop_first())) {
            (Some(k), Some(m)) => Some(m | (1usize << (k as usize))),
            _ => None,
        }
    }
}

/// Once `parse_stroke` has failed on a prefix of the notation, it fails on the whole.
proof fn lemma_stroke_state_none(keys: Seq<LetterWithSide>, right: int, s: Seq<char>, k: int)
    requires
        0 <= k <= s.len(),
        stroke_state(keys, right, s.take(k)) is None,
    ensures
        stroke_state(keys, right, s) is None,
    decreases s.len() - k,
{
    if k < s.len() {
        assert(s.take(k + 1).drop_last() == s.take(k));
        lemma_stroke_state_none(keys, right, s, k + 1);
    } else {
        assert(s.take(k) == s);
    }
}

proof fn lemma_scan_key(keys: Seq<LetterWithSide>, from: int, c: char)
    requires
        0 <= from <= keys.len(),
    ensures
        from <= scan_key(keys, from, c) <= keys.len(),
        scan_key(keys, from, c) < keys.len() ==> keys[scan_key(keys, from, c)].letter == c,
    decreases keys.len() - from,
{
    if from < keys.len() && keys[from].letter != c {
        lemma_scan_key(keys, from + 1, c);
    }
}

/// While `parse_stroke` reads a notation, its key index stays within the keys and its mask
/// presses no bit at or above the number of keys.
proof fn lemma_stroke_state_bound(keys: Seq<LetterWithSide>, right: int, s: Seq<char>)
    requires
        0 <= right <= keys.len(),
        keys.len() < usize::BITS,
    ensures
        stroke_state(keys, right, s) matches Some((m, idx)) ==> m >> (keys.len() as usize) == 0
            && 0 <= idx <= keys.len(),
    decreases s.len(),
{
    let n = keys.len() as usize;
    if s.len() == 0 {
        lemma_zero_below(n);
    } else {
        lemma_stroke_state_bound(keys, right, s.drop_last());
        if let Some((mask, idx)) = stroke_state(keys, right, s.drop_last()) {
            let c = s.last();
            if c != '-' {
                lemma_scan_key(keys, idx, c);
                let j = scan_key(keys, idx, c);
                if j < keys.len() {
                    lemma_or_below(mask, j as usize, n);
                }
            }
        }
    }
}

/// A stroke that `parse_stroke` gives on a system built by `StenoSystem::new` presses only keys
/// of the system, so that `stroke_from_bitmask` gives the same stroke back for its mask.
pub proof fn lemma_parsed_stroke_in_range(
    letters: Seq<LetterWithSide>,
    rng: Option<core::ops::Range<usize>>,
    sys: StenoSystem,
    s: Seq<char>,
)
    requires
        system_result(letters, rng, Ok(sys)),
    ensures
        sys.wf(),
        sys.spec_keys().len() < usize::BITS,
        spec_parse_stroke(sys.spec_keys(), sys.spec_right_keys_index(), s) matches Some(st) ==> {
            &&& st.mask >> (letters.len() as usize) == 0
            &&& (if st.mask >> (sys.spec_keys().len() as usize) == 0 {
                Some(Stroke { mask: st.mask })
            } else {
                None
            }) == Some(st)
        },
{
    lemma_system_sides(letters, rng, sys);
    lemma_stroke_state_bound(letters, sys.spec_right_keys_index(), s);
}

/// Once a suffix of the keys has no mask, the keys have none.
proof fn lemma_keys_mask_none(keys: Seq<LetterWithSide>, right: int, ks: Seq<LetterWithSide>, i: int)
    requires
        0 <= i <= ks.len(),
        keys_mask(keys, right, ks.subrange(i, ks.len() as int)) is None,
    ensures
        keys_mask(keys, right, ks) is None,
    decreases i,
{
    if i > 0 {
        assert(ks.subrange(i - 1, ks.len() as int).drop_first() == ks.subrange(i, ks.len() as int));
        lemma_keys_mask_none(keys, right, ks, i - 1);
    } else {
        assert(ks.subrange(0, ks.len() as int) == ks);
    }
}

/// `stroke_from_keys` sums up keys: the stroke of two lists of keys put together is the union
/// (bitwise or) of their strokes, and there is none exactly when one of the two has none.
pub proof fn lemma_keys_mask_concat(
    keys: Seq<LetterWithSide>,
    right: int,
    a: Seq<LetterWithSide>,
    b: Seq<LetterWithSide>,
)
    ensures
        keys_mask(keys, right, a + b) == (match (keys_mask(keys, right, a), keys_mask(keys, right, b)) {
            (Some(x), Some(y)) => Some(x | y),
            _ => None,
        }),
    decreases a.len(),
{
    if a.len() == 0 {
        assert(a + b == b);
        if let Some(y) = keys_mask(keys, right, b) {
            lemma_or_zero(y);
        }
    } else {
        assert((a + b)[0] == a[0]);
        assert((a + b).drop_first() == a.drop_first() + b);
        lemma_keys_mask_concat(keys, right, a.drop_first(), b);
        if let (Some(k), Some(x), Some(y)) = (
            find_key(keys, right, a[0]),
            keys_mask(keys, right, a.drop_first()),
            keys_mask(keys, right, b),
        ) {
            lemma_or_swap(x, y, 1usize << (k as usize));
        }
    }
}

/// Every key of a list that has a mask is found, and its bit is already in that mask.
proof fn lemma_keys_mask_has(
    keys: Seq<LetterWithSide>,
    right: int,
    a: Seq<LetterWithSide>,
    i: int,
)
    requires
        0 <= i < a.len(),
        keys_mask(keys, right, a) is Some,
    ensures
        find_key(keys, right, a[i]) matches Some(k) && (keys_mask(keys, right, a)->0 | (1usize
            << (k as usize))) == keys_mask(keys, right, a)->0,
    decreases a.len(),
{
    let m = keys_mask(keys, right, a.drop_first())->0;
    let k0 = find_key(keys, right, a[0])->0;
    let b0 = 1usize << (k0 as usize);
    if i == 0 {
        lemma_or_twice(m, b0);
    } else {
        assert(a.drop_first()[i - 1] == a[i]);
        lemma_keys_mask_has(keys, right, a.drop_first(), i - 1);
        let k = find_key(keys, right, a[i])->0;
        lemma_or_swap(m, 1usize << (k as usize), b0);
    }
}

/// Keys that all occur in a list with a mask have a mask too, and it adds nothing to that
/// mask.
proof fn lemma_keys_mask_absorb(
    keys: Seq<LetterWithSide>,
    right: int,
    a: Seq<LetterWithSide>,
    b: Seq<LetterWithSide>,
)
    requires
        keys_mask(keys, right, a) is Some,
        forall|i: int| 0 <= i < b.len() ==> a.contains(#[trigger] b[i]),
    ensures
        keys_mask(keys, right, b) is Some,
        (keys_mask(keys, right, a)->0 | keys_mask(keys, right, b)->0) == keys_mask(
            keys,
            right,
            a,
        )->0,
    decreases b.len(),
{
    let x = keys_mask(keys, right, a)->0;
    if b.len() == 0 {
        lemma_or_zero_right(x);
    } else {
        let t = b.drop_first();
        assert forall|i: int| 0 <= i < t.len() implies a.contains(#[trigger] t[i]) by {
            assert(t[i] == b[i + 1]);
        }
        lemma_keys_mask_absorb(keys, right, a, t);
        assert(a.contains(b[0]));
        let j = choose|j: int| 0 <= j < a.len() && a[j] == b[0];
        lemma_keys_mask_has(keys, right, a, j);
        let y = keys_mask(keys, right, t)->0;
        let bit = 1usize << ((find_key(keys, right, b[0])->0) as usize);
        lemma_or_assoc(x, y, bit);
    }
}

/// `stroke_from_keys` depends only on which keys are given: lists that hold the same keys,
/// in whatever order and however often each, make the same stroke (or both none).
pub proof fn lemma_keys_mask_same_keys(
    keys: Seq<LetterWithSide>,
    right: int,
    a: Seq<LetterWithSide>,
    p: Seq<LetterWithSide>,
)
    requires
        forall|x: LetterWithSide| a.contains(x) <==> p.contains(x),
    ensures
        keys_mask(keys, right, a) == keys_mask(keys, right, p),
{
    assert forall|i: int| 0 <= i < p.len() implies a.contains(#[trigger] p[i]) by {
        assert(p.contains(p[i]));
    }
    assert forall|i: int| 0 <= i < a.len() implies p.contains(#[trigger] a[i]) by {
        assert(a.contains(a[i]));
    }
    if keys_mask(keys, right, a) is Some {
        lemma_keys_mask_absorb(keys, right, a, p);
        lemma_keys_mask_absorb(keys, right, p, a);
        lemma_or_comm(keys_mask(keys, right, a)->0, keys_mask(keys, right, p)->0);
    } else if keys_mask(keys, right, p) is Some {
        lemma_keys_mask_absorb(keys, right, p, a);
    }
}

/// `stroke_from_keys` does not depend on the order of the keys: a permutation of them makes
/// the same stroke.
pub proof fn lemma_keys_mask_permutation(
    keys: Seq<LetterWithSide>,
    right: int,
    a: Seq<LetterWithSide>,
    p: Seq<LetterWithSide>,
)
    requires
        a.to_multiset() == p.to_multiset(),
    ensures
        keys_mask(keys, right, a) == keys_mask(keys, right, p),
{
    a.to_multiset_ensures();
    p.to_multiset_ensures();
    assert forall|x: LetterWithSide| a.contains(x) <==> p.contains(x) by {
        assert(a.contains(x) <==> a.to_multiset().count(x) > 0);
        assert(p.contains(x) <==> p.to_multiset().count(x) > 0);
    }
    lemma_keys_mask_same_keys(keys, right, a, p);
}

/// `stroke_from_keys` does not depend on repetition: the keys given twice over make the same
/// stroke as the keys given once.
pub proof fn lemma_keys_mask_repeated(keys: Seq<LetterWithSide>, right: int, a: Seq<LetterWithSide>)
    ensures
        keys_mask(keys, right, a + a) == keys_mask(keys, right, a),
{
    assert forall|x: LetterWithSide| (a + a).contains(x) <==> a.contains(x) by {
        if (a + a).contains(x) {
            let j = choose|j: int| 0 <= j < (a + a).len() && (a + a)[j] == x;
            if j >= a.len() {
                assert(a[j - a.len()] == x);
            } else {
                assert(a[j] == x);
            }
        }
        if a.contains(x) {
            let j = choose|j: int| 0 <= j < a.len() && a[j] == x;
            assert((a + a)[j] == x);
        }
    }
    lemma_keys_mask_same_keys(keys, right, a + a, a);
}

proof fn lemma_first_left_from_none(keys: Seq<LetterWithSide>, i: int)
    requires
        first_left_from(keys, i) is None,
    ensures
        forall|j: int| i <= j < keys.len() ==> keys[j].side != KeySide::Left,
    decreases keys.len() - i,
{
    if i < keys.len() {
        lemma_first_left_from_none(keys, i + 1);
    }
}

/// The keys of a system built by `StenoSystem::new` are in steno order of sides: no key before
/// the first right-hand key is a right-side key, that key is one, and no key after it is a
/// left-side key; and every key of the implicit hyphen range has a letter that no other key has.
pub proof fn lemma_system_sides(
    letters: Seq<LetterWithSide>,
    rng: Option<core::ops::Range<usize>>,
    sys: StenoSystem,
)
    requires
        system_result(letters, rng, Ok(sys)),
    ensures
        0 <= sys.spec_right_keys_index() <= letters.len(),
        forall|j: int| 0 <= j < sys.spec_right_keys_index() ==> letters[j].side != KeySide::Right,
        sys.spec_right_keys_index() < letters.len() ==> letters[sys.spec_right_keys_index()].side
            == KeySide::Right,
        forall|j: int|
            sys.spec_right_keys_index() < j < letters.len() ==> letters[j].side != KeySide::Left,
        forall|i: int|
            range_bounds(rng).0 <= i < range_bounds(rng).1 ==> is_unique_at(letters_of(letters), i),
{
    lemma_first_right_from(letters, 0);
    lemma_first_left_from_none(letters, first_right(letters) + 1);
}

/// What `StenoSystem::new` gives for these keys and this implicit hyphen key range: the error
/// of `spec_system_error` when there is one, and otherwise a well-formed system of exactly these
/// keys, whose right-hand keys start at the first right-side key and whose implicit hyphen mask
/// holds exactly the keys of the range.
pub open spec fn system_result(
    letters: Seq<LetterWithSide>,
    rng: Option<core::ops::Range<usize>>,
    res: Result<StenoSystem, StenoSystemError>,
) -> bool {
    let (start, end) = range_bounds(rng);
    match res {
        Err(e) => spec_system_error(letters, start, end) == Some(e),
        Ok(sys) => {
            &&& spec_system_error(letters, start, end) is None
            &&& sys.wf()
            &&& sys.spec_keys() == letters
            &&& sys.spec_right_keys_index() == first_right(letters)
            &&& sys.spec_implicit_hyphen_mask() == range_mask(start, end)
        },
    }
}

/// The keys that `parse_keys` gives for a notation: each white-space separated word parsed
/// as a key, or `None` when a word is not a key.
pub open spec fn spec_parse_keys(s: Seq<char>) -> Option<Seq<LetterWithSide>> {
    let ws = split_words(s);
    if forall|i: int| 0 <= i < ws.len() ==> (#[trigger] spec_parse_letter(ws[i])) is Some {
        Some(Seq::new(ws.len(), |i: int| spec_parse_letter(ws[i])->0))
    } else {
        None
    }
}

/// Parses steno keys from a string notation: white-space separated keys.
pub fn parse_keys(s: &str) -> (res: Option<Vec<LetterWithSide>>)
    ensures
        res is Some <==> spec_parse_keys(s@) is Some,
        res matches Some(v) ==> spec_parse_keys(s@) == Some(v@),
{
    let words = split_whitespace(s);
    let ghost ws = split_words(s@);
    assert(words@.len() == ws.len());
    let mut keys: Vec<LetterWithSide> = Vec::new();
    let mut i: usize = 0;
    while i < words.len()
        invariant
            words@.map_values(|w: String| w@) == ws,
            ws == split_words(s@),
            i <= words@.len(),
            keys@.len() == i,
            forall|j: int| 0 <= j < i ==> spec_parse_letter(ws[j]) == Some(#[trigger] keys@[j]),
        decreases words@.len() - i,
    {
        assert(words@[i as int]@ == ws[i as int]);
        match LetterWithSide::parse(words[i].as_str()) {
            Some(k) => {
                keys.push(k);
            },
            None => {
                assert(spec_parse_letter(ws[i as int]) is None);
                return None;
            },
        }
        i += 1;
    }
    assert(i == ws.len());
    assert forall|j: int| 0 <= j < ws.len() implies (#[trigger] spec_parse_letter(ws[j])) is Some by {
        assert(spec_parse_letter(ws[j]) == Some(keys@[j]));
    }
    assert(keys@ == Seq::new(ws.len(), |i: int| spec_parse_letter(ws[i])->0));
    Some(keys)
}

/// The notations of the keys, in order.
pub open spec fn notations_of(ks: Seq<LetterWithSide>) -> Seq<Seq<char>> {
    ks.map_values(|k: LetterWithSide| spec_letter_notation(k))
}

/// Parsing the notations of keys joined with spaces gives the keys back, for keys whose letters
/// are neither the hyphen nor white space.
pub proof fn lemma_parse_keys_joined(ks: Seq<LetterWithSide>)
    requires
        forall|i: int|
            0 <= i < ks.len() ==> (#[trigger] ks[i]).letter != '-' && !is_white_space(ks[i].letter),
    ensures
        spec_parse_keys(join_words(notations_of(ks))) == Some(ks),
{
    let ws = notations_of(ks);
    assert forall|i: int| 0 <= i < ws.len() implies (#[trigger] ws[i]).len() > 0 by {
        assert(ws[i] == spec_letter_notation(ks[i]));
    }
    assert forall|i: int, j: int|
        0 <= i < ws.len() && 0 <= j < ws[i].len() implies !is_white_space(#[trigger] ws[i][j]) by {
        assert(ws[i] == spec_letter_notation(ks[i]));
        assert(ks[i].letter != '-');
        assert(!is_white_space('-'));
    }
    lemma_split_words_joined(ws);
    assert forall|i: int| 0 <= i < ws.len() implies spec_parse_letter(#[trigger] ws[i]) == Some(
        ks[i],
    ) by {
        assert(ws[i] == spec_letter_notation(ks[i]));
        lemma_letter_notation_roundtrip(ks[i]);
    }
    assert(Seq::new(ws.len(), |i: int| spec_parse_letter(ws[i])->0) == ks);
}

/// Parses a steno system from a string notation of its keys and its implicit hyphen key range.
pub fn parse_system(s: &str, rng: Option<core::ops::Range<usize>>) -> (res: Option<
    Result<StenoSystem, StenoSystemError>,
>)
    requires
        spec_parse_keys(s@) matches Some(keys) ==> keys.len() < usize::BITS,
    ensures
        res is Some <==> spec_parse_keys(s@) is Some,
        res matches Some(r) ==> system_result(spec_parse_keys(s@)->0, rng, r),
{
    let keys = parse_keys(s)?;
    Some(StenoSystem::new(keys.as_slice(), rng))
}

impl Clone for StenoSystem {
    /// A system with the same keys, right-hand keys and implicit hyphen mask.
    fn clone(&self) -> (res: Self)
        ensures
            res.spec_keys() == self.spec_keys(),
            res.spec_right_keys_index() == self.spec_right_keys_index(),
            res.spec_implicit_hyphen_mask() == self.spec_implicit_hyphen_mask(),
            res.wf() == self.wf(),
    {
        let mut keys: Vec<LetterWithSide> = Vec::new();
        let mut i: usize = 0;
        while i < self.keys.len()
            invariant
                i <= self.keys@.len(),
                keys@ == self.keys@.subrange(0, i as int),
            decreases self.keys@.len() - i,
        {
            keys.push(self.keys[i]);
            i += 1;
        }
        assert(keys@ == self.keys@);
        Self {
            n_max_keys: self.n_max_keys,
            n_max_steno: self.n_max_steno,
            implicit_hyphen_mask: self.implicit_hyphen_mask,
            right_keys_index: self.right_keys_index,
            keys: into_boxed_keys(keys),
        }
    }
}

impl StenoSystem {
    /// The keys of the system, in steno order.
    pub closed spec fn spec_keys(&self) -> Seq<LetterWithSide> {
        self.keys@
    }

    /// The index of the first right-hand key.
    pub closed spec fn spec_right_keys_index(&self) -> int {
        self.right_keys_index as int
    }

    /// The implicit hyphen mask.
    pub closed spec fn spec_implicit_hyphen_mask(&self) -> usize {
        self.implicit_hyphen_mask
    }

    /// A system as `new` builds it: the right-hand keys start no later than the end, and there
    /// are fewer keys than a machine word has bits (at most 63 keys on a 64-bit word), so that a
    /// stroke of them is a bitmask that also leaves the top bit free.
    pub closed spec fn wf(&self) -> bool {
        &&& self.right_keys_index <= self.keys.len()
        &&& self.keys.len() < usize::BITS
    }

    /// _O(n^2)_ Creates a steno system from user-friendly input: at most 63 keys (fewer than a
    /// machine word has bits, one bit of which stays free).
    pub fn new(
        letters: &[LetterWithSide],
        implicit_hyphen_key_range: Option<core::ops::Range<usize>>,
    ) -> (res: Result<Self, StenoSystemError>)
        requires
            letters@.len() < usize::BITS,
        ensures
            system_result(letters@, implicit_hyphen_key_range, res),
    {
        let ghost (start, end) = range_bounds(implicit_hyphen_key_range);
        let implicit_hyphen_key_range = match implicit_hyphen_key_range {
            Some(r) => r,
            None => 0..0,
        };
        let n_keys = letters.len();

        let mut keys: Vec<LetterWithSide> = Vec::new();
        let mut i: usize = 0;
        while i < n_keys
            invariant
                n_keys == letters@.len(),
                i <= n_keys,
                keys@ == letters@.subrange(0, i as int),
            decreases n_keys - i,
        {
            keys.push(letters[i]);
            i += 1;
        }
        assert(keys@ == letters@);

        // Find the first right-side key index:
        let mut right_keys_index: usize = 0;
        while right_keys_index < n_keys && letters[right_keys_index].side != KeySide::Right
            invariant
                n_keys == letters@.len(),
                right_keys_index <= n_keys,
                first_right(letters@) == first_right_from(letters@, right_keys_index as int),
            decreases n_keys - right_keys_index,
        {
            right_keys_index += 1;
        }
        assert(right_keys_index == first_right(letters@));
        proof {
            lemma_first_right_from(letters@, 0);
        }

        // Left hand side keys must not appear after the first right side key:
        let mut j: usize = right_keys_index + 1;
        while j < n_keys
            invariant
                n_keys == letters@.len(),
                right_keys_index + 1 <= j,
                right_keys_index == first_right(letters@),
                first_left_from(letters@, right_keys_index + 1) == first_left_from(
                    letters@,
                    j as int,
                ),
            decreases n_keys - j,
        {
            if letters[j].side == KeySide::Left {
                assert(first_left_from(letters@, j as int) == Some(j as int));
                return Err(StenoSystemError::FoundLeftSideKeyInRightSide(letters[j].letter));
            }
            j += 1;
        }
        assert(first_left_from(letters@, right_keys_index + 1) is None);

        // The keys whose letters are unique:
        let mut chars: Vec<char> = Vec::new();
        let mut i: usize = 0;
        while i < n_keys
            invariant
                n_keys == letters@.len(),
                i <= n_keys,
                chars@ == letters_of(letters@).subrange(0, i as int),
            decreases n_keys - i,
        {
            chars.push(letters[i].letter);
            i += 1;
        }
        assert(chars@ == letters_of(letters@));
        let unique = retain_unique_indices(chars);
        proof {
            lemma_unique_indices_below(letters_of(letters@), n_keys as int);
        }
        let mut unique_key_mask: usize = 0;
        let mut k: usize = 0;
        while k < unique.len()
            invariant
                n_keys == letters@.len(),
                n_keys < usize::BITS,
                unique@ == crate::util::unique_indices_below(letters_of(letters@), n_keys as int),
                forall|m: int| 0 <= m < unique@.len() ==> #[trigger] unique@[m] < n_keys,
                k <= unique.len(),
                unique_key_mask == indices_mask(unique@.subrange(0, k as int)),
            decreases unique.len() - k,
        {
            assert(unique@.subrange(0, k + 1).drop_last() == unique@.subrange(0, k as int));
            unique_key_mask = unique_key_mask | (1usize << unique[k]);
            k += 1;
        }
        assert(unique@.subrange(0, unique.len() as int) == unique@);
        proof {
            lemma_indices_mask_bits(unique@);
        }

        if !contains_range(
            0..n_keys,
            implicit_hyphen_key_range.start..implicit_hyphen_key_range.end,
        ) {
            return Err(StenoSystemError::OutOfRangeImplicitHyphenKeyRange);
        }

        // Create implicit hyphen key mask with an assumption that all of the keys are unique
        // (checked right after).
        let mut implicit_hyphen_mask: usize = 0;
        let mut i: usize = implicit_hyphen_key_range.start;
        if i < implicit_hyphen_key_range.end {
            while i < implicit_hyphen_key_range.end
                invariant
                    start <= i <= end,
                    start == implicit_hyphen_key_range.start,
                    end == implicit_hyphen_key_range.end,
                    end <= n_keys < usize::BITS,
                    implicit_hyphen_mask == range_mask(start, i as int),
                decreases end - i,
            {
                implicit_hyphen_mask = implicit_hyphen_mask | (1usize << i);
                i += 1;
            }
        }
        assert(implicit_hyphen_mask == range_mask(start, end));
        proof {
            lemma_range_mask_bits(start, end);
        }

        // All of the implicit hyphen keys must be unique so that we can auto insert hyphens
        if (implicit_hyphen_mask & unique_key_mask) != implicit_hyphen_mask {
            proof {
                if forall|i: int| start <= i < end ==> is_unique_at(letters_of(letters@), i) {
                    assert forall|i: int| start <= i < end implies #[trigger] has_bit(
                        unique_key_mask,
                        i,
                    ) by {
                        assert(unique@.contains(i as usize));
                    }
                    lemma_range_mask_within(start, end, unique_key_mask);
                }
            }
            return Err(StenoSystemError::NotAllImplicitHyphenKeysUnique);
        }
        proof {
            assert forall|i: int| start <= i < end implies is_unique_at(
                letters_of(letters@),
                i,
            ) by {
                assert(has_bit(implicit_hyphen_mask, i));
                lemma_and_subset_bit(implicit_hyphen_mask, unique_key_mask, i as usize);
                assert(has_bit(unique_key_mask, i));
                let m = choose|m: int| 0 <= m < unique@.len() && unique@[m] == i as usize;
            }
        }

        Ok(Self {
            n_max_keys: 63,
            n_max_steno: 64,
            implicit_hyphen_mask,
            right_keys_index,
            keys: into_boxed_keys(keys),
        })
    }

    /// _O(min(64, n))_ Creates a `Stroke` from its notation. This is strict about steno
    /// order: the notation is a subsequence of the system's keys, where `-` skips to the
    /// right-hand keys.
    pub fn parse_stroke(self, stroke_notation: &str) -> (res: Option<Stroke>)
        requires
            self.wf(),
        ensures
            res == spec_parse_stroke(self.spec_keys(), self.spec_right_keys_index(), stroke_notation@),
            res matches Some(st) ==> st.mask >> self.spec_keys().len() == 0,
    {
        let ghost keys = self.keys@;
        let ghost right = self.right_keys_index as int;
        let ghost s = stroke_notation@;
        let n = self.keys.len();
        // Bitmask of keys the stroke presses.
        let mut mask: usize = 0;
        let mut current_key_index: usize = 0;
        proof {
            lemma_zero_below(n);
        }
        for c in it: stroke_notation.chars()
            invariant
                keys == self.keys@,
                n == keys.len(),
                n < usize::BITS,
                right == self.right_keys_index,
                right <= n,
                s == stroke_notation@,
                it.seq() == s,
                current_key_index <= n,
                mask >> n == 0,
                stroke_state(keys, right, s.take(it.index() as int)) == Some(
                    (mask, current_key_index as int),
                ),
        {
            let ghost k = it.index() as int;
            assert(s.take(k + 1).drop_last() == s.take(k));
            assert(s.take(k + 1).last() == c);
            // Meta key handling
            if c == '-' {
                if current_key_index > self.right_keys_index {
                    proof {
                        lemma_stroke_state_none(keys, right, s, k + 1);
                    }
                    return None;
                }
                current_key_index = self.right_keys_index;
            } else {
                // Find the next key that has this letter, in steno order.
                let ghost from = current_key_index as int;
                while current_key_index < n && self.keys[current_key_index].letter != c
                    invariant
                        keys == self.keys@,
                        n == keys.len(),
                        from <= current_key_index <= n,
                        scan_key(keys, from, c) == scan_key(keys, current_key_index as int, c),
                    decreases n - current_key_index,
                {
                    current_key_index += 1;
                }
                if current_key_index == n {
                    // Failed to find the next key.
                    proof {
                        lemma_stroke_state_none(keys, right, s, k + 1);
                    }
                    return None;
                }
                // This key is pressed.
                proof {
                    lemma_or_below(mask, current_key_index, n);
                }
                mask = mask | (1usize << current_key_index);
            }
        }
        assert(s.take(s.len() as int) == s);
        let st = self.stroke_from_bitmask(mask);
        match st {
            Some(st) => Some(st),
            None => None,
        }
    }

    /// _O(1)_ Creates a [`Stroke`] from a bitmask, checking that it presses only keys of
    /// this system.
    pub fn stroke_from_bitmask(&self, mask: usize) -> (res: Option<Stroke>)
        requires
            self.wf(),
        ensures
            res == (if mask >> self.spec_keys().len() == 0 {
                Some(Stroke { mask })
            } else {
                None
            }),
    {
        if mask >> self.keys.len() == 0 {
            Some(Stroke { mask })
        } else {
            None
        }
    }

    /// _O(kn)_ Creates a [`Stroke`] from keys. This is not strict about steno order: it just
    /// sums up the given keys. A key with a side is looked up among the keys of that side;
    /// one without a side among all keys.
    pub fn stroke_from_keys(&self, keys: &[LetterWithSide]) -> (res: Option<Stroke>)
        requires
            self.wf(),
        ensures
            res == (match keys_mask(self.spec_keys(), self.spec_right_keys_index(), keys@) {
                Some(mask) => Some(Stroke { mask }),
                None => None,
            }),
    {
        let ghost sk = self.keys@;
        let ghost right = self.right_keys_index as int;
        let n = self.keys.len();
        let mut mask: usize = 0;
        let mut i: usize = keys.len();
        assert(keys@.subrange(i as int, keys@.len() as int).len() == 0);
        while i > 0
            invariant
                sk == self.keys@,
                n == sk.len(),
                n < usize::BITS,
                right == self.right_keys_index,
                right <= n,
                i <= keys@.len(),
                keys_mask(sk, right, keys@.subrange(i as int, keys@.len() as int)) == Some(mask),
            decreases i,
        {
            i -= 1;
            let k = keys[i];
            assert(keys@.subrange(i as int, keys@.len() as int)[0] == k);
            assert(keys@.subrange(i as int, keys@.len() as int).drop_first() == keys@.subrange(
                i + 1,
                keys@.len() as int,
            ));
            let (start, end) = match k.side {
                KeySide::Unsided => (0, n),
                KeySide::Left => (0, self.right_keys_index),
                KeySide::Right => (self.right_keys_index, n),
            };
            let mut j: usize = start;
            while j < end && self.keys[j] != k
                invariant
                    sk == self.keys@,
                    n == sk.len(),
                    start <= j <= end <= n,
                    find_key_from(sk, k, start as int, end as int) == find_key_from(
                        sk,
                        k,
                        j as int,
                        end as int,
                    ),
                decreases end - j,
            {
                j += 1;
            }
            if j == end {
                proof {
                    lemma_keys_mask_none(sk, right, keys@, i as int);
                }
                return None;
            }
            mask = mask | (1usize << j);
        }
        assert(keys@.subrange(0, keys@.len() as int) == keys@);
        Some(Stroke { mask })
    }

    /// The index of the first right-hand key (the number of keys when there is none).
    pub fn right_keys_index(&self) -> (res: usize)
        ensures
            res == self.spec_right_keys_index(),
    {
        self.right_keys_index
    }

    /// The mask of the keys whose side is implied.
    pub fn implicit_hyphen_mask(&self) -> (res: usize)
        ensures
            res == self.spec_implicit_hyphen_mask(),
    {
        self.implicit_hyphen_mask
    }
}

} // verus!
