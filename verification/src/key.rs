//! Hierarchical storage keys.
//!
//! A key is a non-empty list of segments. Its string form joins the segments
//! with a single reserved separator. A segment is never empty and never holds
//! the separator, which makes the string form unambiguous: splitting it at
//! the separators gives the segments back.

use crate::text::{
    chars_of, find_from, first_index_of, lemma_first_index_is, lemma_first_index_none,
    lemma_first_index_of, lemma_lex_trichotomy, lex_lt,
};
use vstd::prelude::*;
use vstd::string::*;

verus! {

/// The character that separates the segments of a key in its string form.
pub const KEY_SEGMENT_SEPARATOR: char = '/';

/// Why a key could not be built.
#[derive(Clone, Debug, PartialEq, Eq)]
pub enum KeyError {
    /// The string is not the string form of any key. Holds the string.
    ParseError(String),
    /// The segment is empty or holds the separator. Holds the segment.
    InvalidKeySeg(String),
}

/// What the contracts see of a [`KeyError`].
pub enum KeyErrorView {
    ParseError(Seq<char>),
    InvalidKeySeg(Seq<char>),
}

impl View for KeyError {
    type V = KeyErrorView;

    open spec fn view(&self) -> KeyErrorView {
        match self {
            KeyError::ParseError(s) => KeyErrorView::ParseError(s@),
            KeyError::InvalidKeySeg(s) => KeyErrorView::InvalidKeySeg(s@),
        }
    }
}

/// Whether `s` can be a segment: not empty, and free of the separator.
pub open spec fn valid_segment(s: Seq<char>) -> bool {
    &&& s.len() > 0
    &&& forall|i: int| 0 <= i < s.len() ==> s[i] != KEY_SEGMENT_SEPARATOR
}

/// Whether `segs` can be the segments of a key.
pub open spec fn valid_segments(segs: Seq<Seq<char>>) -> bool {
    &&& segs.len() > 0
    &&& forall|i: int| 0 <= i < segs.len() ==> valid_segment(#[trigger] segs[i])
}

/// The segments joined by the separator.
pub open spec fn join_segments(segs: Seq<Seq<char>>) -> Seq<char>
    decreases segs.len(),
{
    if segs.len() == 0 {
        Seq::empty()
    } else if segs.len() == 1 {
        segs[0]
    } else {
        segs[0] + seq![KEY_SEGMENT_SEPARATOR] + join_segments(segs.drop_first())
    }
}

/// The pieces of `s` between its separators, empty pieces included.
pub open spec fn split_segments(s: Seq<char>) -> Seq<Seq<char>>
    decreases s.len(),
{
    match first_index_of(s, KEY_SEGMENT_SEPARATOR) {
        Some(i) => if 0 <= i < s.len() {
            seq![s.take(i)] + split_segments(s.skip(i + 1))
        } else {
            seq![s]
        },
        None => seq![s],
    }
}

/// Splitting gives at least one piece.
pub proof fn lemma_split_nonempty(s: Seq<char>)
    ensures
        split_segments(s).len() > 0,
{
}

/// Joining the pieces of any string gives the string back.
pub proof fn lemma_join_split(s: Seq<char>)
    ensures
        join_segments(split_segments(s)) == s,
    decreases s.len(),
{
    lemma_first_index_of(s, KEY_SEGMENT_SEPARATOR);
    match first_index_of(s, KEY_SEGMENT_SEPARATOR) {
        Some(i) => {
            let rest = split_segments(s.skip(i + 1));
            lemma_join_split(s.skip(i + 1));
            lemma_split_nonempty(s.skip(i + 1));
            let all = seq![s.take(i)] + rest;
            assert(all.drop_first() =~= rest);
            assert(s.take(i) + seq![KEY_SEGMENT_SEPARATOR] + s.skip(i + 1) =~= s);
        },
        None => {},
    }
}

/// Splitting the joined form of valid segments gives the segments back.
pub proof fn lemma_split_join(segs: Seq<Seq<char>>)
    requires
        valid_segments(segs),
    ensures
        split_segments(join_segments(segs)) == segs,
    decreases segs.len(),
{
    let s = join_segments(segs);
    if segs.len() == 1 {
        lemma_first_index_none(s, KEY_SEGMENT_SEPARATOR);
        assert(seq![s] =~= segs);
    } else {
        let head = segs[0];
        let rest = segs.drop_first();
        let i = head.len() as int;
        assert forall|j: int| 0 <= j < rest.len() implies valid_segment(#[trigger] rest[j]) by {
            assert(rest[j] == segs[j + 1]);
        }
        lemma_split_join(rest);
        assert forall|j: int| 0 <= j < i implies s[j] != KEY_SEGMENT_SEPARATOR by {
            assert(s[j] == head[j]);
        }
        lemma_first_index_is(s, KEY_SEGMENT_SEPARATOR, i);
        assert(s.take(i) =~= head);
        assert(s.skip(i + 1) =~= join_segments(rest));
        assert(seq![head] + rest =~= segs);
    }
}

/// Joining two non-empty lists one after the other puts one separator
/// between their joined forms.
pub proof fn lemma_join_concat(a: Seq<Seq<char>>, b: Seq<Seq<char>>)
    requires
        a.len() > 0,
        b.len() > 0,
    ensures
        join_segments(a + b) == join_segments(a) + seq![KEY_SEGMENT_SEPARATOR] + join_segments(b),
    decreases a.len(),
{
    if a.len() == 1 {
        assert((a + b).drop_first() =~= b);
    } else {
        assert((a + b).drop_first() =~= a.drop_first() + b);
        lemma_join_concat(a.drop_first(), b);
        assert(join_segments(a + b) =~= join_segments(a) + seq![KEY_SEGMENT_SEPARATOR]
            + join_segments(b));
    }
}

/// A value that can stand as one segment of a key.
pub trait KeySeg {
    /// The text of the segment.
    spec fn raw_spec(&self) -> Seq<char>;

    /// The text of the segment.
    fn raw(&self) -> (s: String)
        ensures
            s@ == self.raw_spec(),
    ;
}

impl KeySeg for String {
    open spec fn raw_spec(&self) -> Seq<char> {
        self@
    }

    fn raw(&self) -> (s: String) {
        self.clone()
    }
}

/// A storage key: one or more segments.
#[derive(Debug, PartialEq, Eq)]
pub struct Key {
    segments: Vec<String>,
}

impl View for Key {
    type V = Seq<Seq<char>>;

    closed spec fn view(&self) -> Seq<Seq<char>> {
        Seq::new(self.segments@.len(), |i: int| self.segments@[i]@)
    }
}

fn clone_strings(v: &Vec<String>) -> (r: Vec<String>)
    ensures
        r@.len() == v@.len(),
        forall|i: int| 0 <= i < v@.len() ==> r@[i]@ == v@[i]@,
{
    let mut r: Vec<String> = Vec::new();
    let mut i: usize = 0;
    while i < v.len()
        invariant
            i <= v.len(),
            r@.len() == i,
            forall|j: int| 0 <= j < i ==> r@[j]@ == v@[j]@,
        decreases v.len() - i,
    {
        r.push(v[i].clone());
        i = i + 1;
    }
    r
}

/// Whether `seg` can be a segment of a key.
pub fn is_valid_segment(seg: &str) -> (r: bool)
    ensures
        r == valid_segment(seg@),
{
    let v = chars_of(seg);
    proof {
        assert(v@.skip(0) =~= v@);
        lemma_first_index_of(v@, KEY_SEGMENT_SEPARATOR);
    }
    v.len() > 0 && find_from(&v, 0, KEY_SEGMENT_SEPARATOR).is_none()
}

impl Clone for Key {
    fn clone(&self) -> (r: Self)
        ensures
            r@ == self@,
    {
        proof {
            use_type_invariant(self);
        }
        let segments = clone_strings(&self.segments);
        assert(Seq::new(segments@.len(), |i: int| segments@[i]@) =~= self@);
        Key { segments }
    }
}

impl Key {
    /// The invariant of every key: it has a segment, and each segment is
    /// valid.
    #[verifier::type_invariant]
    pub open spec fn wf(&self) -> bool {
        valid_segments(self@)
    }

    /// Parses the string form of a key. Succeeds exactly on the strings
    /// whose pieces between separators are all non-empty; the empty string
    /// has one empty piece and is refused.
    pub fn parse(string: &str) -> (r: Result<Key, KeyError>)
        ensures
            valid_segments(split_segments(string@)) ==> r is Ok && r->Ok_0@ == split_segments(
                string@,
            ),
            !valid_segments(split_segments(string@)) ==> r is Err && r->Err_0@
                == KeyErrorView::ParseError(string@),
            r matches Ok(k) ==> k.wf(),
    {
        let v = chars_of(string);
        let mut segments: Vec<String> = Vec::new();
        let mut start: usize = 0;
        proof {
            assert(string@.skip(0) =~= string@);
        }
        loop
            invariant
                v@ == string@,
                start <= v.len(),
                split_segments(string@) == Seq::new(segments@.len(), |i: int| segments@[i]@)
                    + split_segments(string@.skip(start as int)),
                forall|i: int| 0 <= i < segments@.len() ==> valid_segment(#[trigger] segments@[i]@),
            decreases v.len() - start,
        {
            let ghost done = Seq::new(segments@.len(), |i: int| segments@[i]@);
            let ghost rest = string@.skip(start as int);
            proof {
                lemma_first_index_of(rest, KEY_SEGMENT_SEPARATOR);
            }
            let found = find_from(&v, start, KEY_SEGMENT_SEPARATOR);
            let end = match found {
                Some(i) => i,
                None => v.len(),
            };
            let ghost piece = rest.take(end - start);
            proof {
                assert(split_segments(rest)[0] == piece) by {
                    if found is None {
                        assert(rest.take(end - start) =~= rest);
                    }
                }
                assert(split_segments(string@)[done.len() as int] == piece);
                assert(piece =~= string@.subrange(start as int, end as int));
                assert forall|j: int| 0 <= j < piece.len() implies piece[j]
                    != KEY_SEGMENT_SEPARATOR by {
                    assert(piece[j] == rest[j]);
                }
            }
            if end == start {
                assert(!valid_segment(piece));
                return Err(KeyError::ParseError(String::from_str(string)));
            }
            let seg = String::from_str(string.substring_char(start, end));
            segments.push(seg);
            proof {
                let done2 = Seq::new(segments@.len(), |i: int| segments@[i]@);
                assert(done2 =~= done.push(piece));
                if found is Some {
                    assert(rest.skip(end - start + 1) =~= string@.skip(end + 1));
                    assert(done2 + split_segments(string@.skip(end + 1)) =~= done + (seq![piece]
                        + split_segments(string@.skip(end + 1))));
                } else {
                    assert(done2 =~= done + seq![piece]);
                }
            }
            match found {
                Some(i) => {
                    start = i + 1;
                },
                None => {
                    proof {
                        let all = Seq::new(segments@.len(), |i: int| segments@[i]@);
                        assert(split_segments(string@) =~= all);
                        assert forall|i: int| 0 <= i < all.len() implies valid_segment(
                            #[trigger] all[i],
                        ) by {
                            assert(all[i] == segments@[i]@);
                            if i == segments@.len() - 1 {
                                assert(all[i] == piece);
                            }
                        }
                    }
                    let key = Key { segments };
                    return Ok(key);
                },
            }
        }
    }

    /// A new key: the segments of `self` followed by `other`. Fails exactly
    /// where the text of `other` is empty or holds the separator.
    pub fn push<T: KeySeg>(&self, other: &T) -> (r: Result<Key, KeyError>)
        ensures
            valid_segment(other.raw_spec()) ==> r is Ok && r->Ok_0@ == self@.push(other.raw_spec()),
            !valid_segment(other.raw_spec()) ==> r is Err && r->Err_0@
                == KeyErrorView::InvalidKeySeg(other.raw_spec()),
            r matches Ok(k) ==> k.wf(),
    {
        proof {
            use_type_invariant(self);
        }
        let seg = other.raw();
        if !is_valid_segment(seg.as_str()) {
            return Err(KeyError::InvalidKeySeg(seg));
        }
        let mut segments = clone_strings(&self.segments);
        segments.push(seg);
        proof {
            let all = Seq::new(segments@.len(), |i: int| segments@[i]@);
            assert(all =~= self@.push(other.raw_spec()));
            assert forall|i: int| 0 <= i < all.len() implies valid_segment(#[trigger] all[i]) by {
                if i < self@.len() {
                    assert(all[i] == self@[i]);
                }
            }
        }
        Ok(Key { segments })
    }

    /// A new key: the segments of `self` followed by those of `other`.
    pub fn join(&self, other: &Key) -> (r: Key)
        ensures
            r@ == self@ + other@,
            r.wf(),
    {
        proof {
            use_type_invariant(self);
            use_type_invariant(other);
        }
        let mut segments = clone_strings(&self.segments);
        let mut i: usize = 0;
        while i < other.segments.len()
            invariant
                i <= other.segments@.len(),
                segments@.len() == self.segments@.len() + i,
                forall|j: int|
                    0 <= j < self.segments@.len() ==> segments@[j]@ == self.segments@[j]@,
                forall|j: int|
                    0 <= j < i ==> segments@[self.segments@.len() + j]@ == other.segments@[j]@,
            decreases other.segments.len() - i,
        {
            segments.push(other.segments[i].clone());
            i = i + 1;
        }
        proof {
            let all = Seq::new(segments@.len(), |i: int| segments@[i]@);
            assert(all =~= self@ + other@);
            assert forall|i: int| 0 <= i < all.len() implies valid_segment(#[trigger] all[i]) by {
                if i < self@.len() {
                    assert(all[i] == self@[i]);
                } else {
                    assert(all[i] == other@[i - self@.len()]);
                }
            }
        }
        Key { segments }
    }

    /// The string form: the segments joined by the separator.
    pub fn to_string(&self) -> (s: String)
        ensures
            s@ == join_segments(self@),
    {
        proof {
            use_type_invariant(self);
        }
        let mut out = self.segments[0].clone();
        let mut i: usize = 1;
        assert(self@.take(1) =~= seq![self@[0]]);
        while i < self.segments.len()
            invariant
                1 <= i <= self.segments@.len(),
                out@ == join_segments(self@.take(i as int)),
            decreases self.segments.len() - i,
        {
            out.append("/");
            out.append(self.segments[i].as_str());
            proof {
                let done = self@.take(i as int);
                assert(self@.take(i + 1) =~= done + seq![self@[i as int]]);
                lemma_join_concat(done, seq![self@[i as int]]);
                reveal_strlit("/");
                assert("/"@ =~= seq![KEY_SEGMENT_SEPARATOR]);
            }
            i = i + 1;
        }
        assert(self@.take(i as int) =~= self@);
        out
    }

    /// The number of segments.
    pub fn len(&self) -> (n: usize)
        ensures
            n == self@.len(),
            n > 0,
    {
        proof {
            use_type_invariant(self);
        }
        self.segments.len()
    }
}

/// A key survives the trip through its string form: parsing the string form of
/// a key succeeds and gives the same segments.
pub proof fn law_key_round_trip(k: Key)
    requires
        k.wf(),
    ensures
        valid_segments(split_segments(join_segments(k@))),
        split_segments(join_segments(k@)) == k@,
{
    lemma_split_join(k@);
}

/// The string form is injective: keys with different segments have different
/// string forms.
pub proof fn law_key_string_injective(k1: Key, k2: Key)
    requires
        k1.wf(),
        k2.wf(),
        k1@ != k2@,
    ensures
        join_segments(k1@) != join_segments(k2@),
{
    lemma_split_join(k1@);
    lemma_split_join(k2@);
}

/// Keys are totally ordered by their string form: of two keys, either one
/// comes strictly before the other or they have the same segments.
pub proof fn law_key_order_total(k1: Key, k2: Key)
    requires
        k1.wf(),
        k2.wf(),
    ensures
        lex_lt(join_segments(k1@), join_segments(k2@)) || k1@ == k2@ || lex_lt(
            join_segments(k2@),
            join_segments(k1@),
        ),
        !(lex_lt(join_segments(k1@), join_segments(k2@)) && lex_lt(
            join_segments(k2@),
            join_segments(k1@),
        )),
        !(lex_lt(join_segments(k1@), join_segments(k2@)) && k1@ == k2@),
        !(lex_lt(join_segments(k2@), join_segments(k1@)) && k1@ == k2@),
{
    lemma_lex_trichotomy(join_segments(k1@), join_segments(k2@));
    lemma_lex_trichotomy(join_segments(k2@), join_segments(k1@));
    lemma_split_join(k1@);
    lemma_split_join(k2@);
}

/// A string that parses is the string form of the key it parses to.
pub proof fn law_parsed_string_is_canonical(s: Seq<char>)
    ensures
        join_segments(split_segments(s)) == s,
{
    lemma_join_split(s);
}

} // verus!
