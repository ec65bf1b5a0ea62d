//! Keys as the trie takes them: text that can be walked segment by segment
//! from the front, taken apart from the back, and put together again.

use vstd::prelude::*;
use vstd::string::{StringExecFns, StringSliceAdditionalSpecFns};
use vstd::utf8::encode_utf8_decode_utf8;
use crate::encoding::{
    DELIMITER_BYTE, lemma_delimiter_byte_boundaries, lemma_no_delimiter_byte,
    lemma_split_at_delimiter_byte,
};
use crate::segments::{
    DELIMITER, first_segment, join, lemma_first_delimiter, lemma_last_delimiter, segments, split,
    split_last,
};

verus! {

/// Says whether two texts are the same.
pub(crate) fn same_text(text: &str, other: &str) -> (same: bool)
    ensures
        same == (text@ == other@),
{
    let bytes = text.as_bytes();
    let others = other.as_bytes();
    proof {
        encode_utf8_decode_utf8(text@);
        encode_utf8_decode_utf8(other@);
    }
    if bytes.len() != others.len() {
        return false;
    }
    let mut at: usize = 0;
    while at < bytes.len()
        invariant
            bytes@ == text.spec_bytes(),
            others@ == other.spec_bytes(),
            bytes@.len() == others@.len(),
            at <= bytes@.len(),
            forall|j: int| 0 <= j < at ==> bytes@[j] == others@[j],
        decreases bytes@.len() - at,
    {
        if bytes[at] != others[at] {
            return false;
        }
        at += 1;
    }
    assert(bytes@ =~= others@);
    true
}

/// `text` in front of and behind the delimiter whose byte stands at `at`.
fn cut_at<'a>(text: &'a str, at: usize) -> (parts: (&'a str, &'a str))
    requires
        at < text.spec_bytes().len(),
        text.spec_bytes()[at as int] == DELIMITER_BYTE,
    ensures
        text@ == parts.0@ + seq![DELIMITER] + parts.1@,
        parts.0.spec_bytes() == text.spec_bytes().subrange(0, at as int),
        parts.1.spec_bytes() == text.spec_bytes().subrange(
            at + 1,
            text.spec_bytes().len() as int,
        ),
{
    proof {
        lemma_delimiter_byte_boundaries(text@, at as int);
    }
    let (front, rest) = text.split_at(at);
    let (_, back) = rest.split_at(1);
    proof {
        assert(back.spec_bytes() =~= text.spec_bytes().subrange(
            at + 1,
            text.spec_bytes().len() as int,
        ));
        lemma_split_at_delimiter_byte(text@, at as int, front@, back@);
    }
    (front, back)
}

/// `text` in front of its first delimiter and behind it; `None` where it has
/// no delimiter.
fn split_first<'a>(text: &'a str) -> (parts: Option<(&'a str, &'a str)>)
    ensures
        match parts {
            Some((head, tail)) => {
                &&& text@.index_of_first(DELIMITER) == Some(head@.len() as int)
                &&& head@ == text@.subrange(0, head@.len() as int)
                &&& tail@ == text@.subrange(head@.len() as int + 1, text@.len() as int)
            },
            None => text@.index_of_first(DELIMITER) is None,
        },
{
    let bytes = text.as_bytes();
    let mut at: usize = 0;
    while at < bytes.len()
        invariant
            bytes@ == text.spec_bytes(),
            at <= bytes@.len(),
            forall|j: int| 0 <= j < at ==> bytes@[j] != DELIMITER_BYTE,
        decreases bytes@.len() - at,
    {
        if bytes[at] == DELIMITER_BYTE {
            let (head, tail) = cut_at(text, at);
            proof {
                lemma_no_delimiter_byte(head@);
                let first = head@.len() as int;
                assert(text@[first] == DELIMITER);
                assert forall|j: int| 0 <= j < first implies text@[j] != DELIMITER by {
                    assert(text@[j] == head@[j]);
                }
                lemma_first_delimiter(text@, first);
                assert(head@ =~= text@.subrange(0, first));
                assert(tail@ =~= text@.subrange(first + 1, text@.len() as int));
            }
            return Some((head, tail));
        }
        at += 1;
    }
    proof {
        lemma_no_delimiter_byte(text@);
        text@.index_of_first_ensures(DELIMITER);
    }
    None
}

/// `text` behind its last delimiter and in front of it; `None` where it has
/// no delimiter.
fn split_at_last<'a>(text: &'a str) -> (parts: Option<(&'a str, &'a str)>)
    ensures
        match parts {
            Some((last, rest)) => {
                &&& text@.index_of_last(DELIMITER) == Some(rest@.len() as int)
                &&& rest@ == text@.subrange(0, rest@.len() as int)
                &&& last@ == text@.subrange(rest@.len() as int + 1, text@.len() as int)
            },
            None => text@.index_of_last(DELIMITER) is None,
        },
{
    let bytes = text.as_bytes();
    let mut at: usize = bytes.len();
    while at > 0
        invariant
            bytes@ == text.spec_bytes(),
            at <= bytes@.len(),
            forall|j: int| at <= j < bytes@.len() ==> bytes@[j] != DELIMITER_BYTE,
        decreases at,
    {
        at -= 1;
        if bytes[at] == DELIMITER_BYTE {
            let (rest, last) = cut_at(text, at);
            proof {
                lemma_no_delimiter_byte(last@);
                let found = rest@.len() as int;
                assert(text@[found] == DELIMITER);
                assert forall|j: int| found < j < text@.len() implies text@[j] != DELIMITER by {
                    assert(text@[j] == last@[j - found - 1]);
                }
                lemma_last_delimiter(text@, found);
                assert(rest@ =~= text@.subrange(0, found));
                assert(last@ =~= text@.subrange(found + 1, text@.len() as int));
            }
            return Some((last, rest));
        }
    }
    proof {
        lemma_no_delimiter_byte(text@);
        text@.index_of_last_ensures(DELIMITER);
    }
    None
}

/// A walk over the segments of a key, first to last. It holds the text that
/// has not been handed out yet, or nothing once no segment is left; a walk
/// over the empty key starts that way.
pub struct MaybeEmptyIter<'a> {
    rest: Option<&'a str>,
}

impl<'a> View for MaybeEmptyIter<'a> {
    type V = Seq<Seq<char>>;

    /// The segments that the walk has yet to hand out.
    closed spec fn view(&self) -> Seq<Seq<char>> {
        match self.rest {
            Some(text) => split(text@),
            None => Seq::empty(),
        }
    }
}

impl<'a> MaybeEmptyIter<'a> {
    /// Starts a walk over the segments of `key`.
    pub fn new(key: &'a str) -> (walk: Self)
        ensures
            walk@ == segments(key@),
    {
        if key.is_empty() {
            MaybeEmptyIter { rest: None }
        } else {
            MaybeEmptyIter { rest: Some(key) }
        }
    }

    /// Hands out the next segment, or `None` when the walk is over.
    pub fn next(&mut self) -> (segment: Option<&'a str>)
        ensures
            match segment {
                Some(text) => {
                    &&& old(self)@.len() > 0
                    &&& text@ == old(self)@[0]
                    &&& final(self)@ == old(self)@.drop_first()
                },
                None => old(self)@.len() == 0 && final(self)@.len() == 0,
            },
    {
        match self.rest {
            None => None,
            Some(text) => {
                match split_first(text) {
                    None => {
                        self.rest = None;
                        assert(split(text@).drop_first() =~= Seq::empty());
                        Some(text)
                    },
                    Some((head, tail)) => {
                        proof {
                            text@.index_of_first_ensures(DELIMITER);
                        }
                        self.rest = Some(tail);
                        assert(split(text@).drop_first() =~= split(tail@));
                        Some(head)
                    },
                }
            },
        }
    }

    /// Hands out every segment that is left, in order.
    pub fn collect(self) -> (all: Vec<&'a str>)
        ensures
            all@.len() == self@.len(),
            forall|i: int| 0 <= i < all@.len() ==> (#[trigger] all@[i])@ == self@[i],
    {
        let mut walk = self;
        let mut all: Vec<&'a str> = Vec::new();
        loop
            invariant
                all@.len() + walk@.len() == self@.len(),
                forall|i: int| 0 <= i < all@.len() ==> (#[trigger] all@[i])@ == self@[i],
                forall|i: int|
                    0 <= i < walk@.len() ==> #[trigger] walk@[i] == self@[all@.len() + i],
            ensures
                all@.len() == self@.len(),
                forall|i: int| 0 <= i < all@.len() ==> (#[trigger] all@[i])@ == self@[i],
            decreases walk@.len(),
        {
            match walk.next() {
                None => {
                    break ;
                },
                Some(text) => {
                    all.push(text);
                },
            }
        }
        all
    }
}

/// The last segment of `text` and the text before it.
fn last_and_rest<'a>(text: &'a str) -> (parts: Option<(&'a str, &'a str)>)
    ensures
        match parts {
            Some((last, rest)) => split_last(text@) == Some((last@, rest@)),
            None => split_last(text@) is None,
        },
{
    if text.is_empty() {
        None
    } else {
        match split_at_last(text) {
            Some((last, rest)) => Some((last, rest)),
            None => {
                let rest = "";
                proof {
                    reveal_strlit("");
                }
                assert(rest@ =~= Seq::empty());
                Some((text, rest))
            },
        }
    }
}

/// `text` behind `prefix`, with a delimiter between them.
fn joined(text: &str, prefix: &str) -> (whole: String)
    ensures
        whole@ == join(text@, prefix@),
{
    let mut whole = String::from_str(prefix);
    if !text.is_empty() {
        proof {
            reveal_strlit(" ");
        }
        whole.append(" ");
        whole.append(text);
        assert(whole@ =~= prefix@ + seq![DELIMITER] + text@);
    }
    whole
}

/// Text that serves as a key of the trie.
pub trait TrieKey: Clone + core::fmt::Debug + Eq + core::hash::Hash {
    /// The key as plain text.
    spec fn text(&self) -> Seq<char>;

    /// The last segment and the key that is left without it; `None` for the
    /// empty key.
    fn key_rest(&self) -> (parts: Option<(&str, &str)>)
        ensures
            match parts {
                Some((last, rest)) => split_last(self.text()) == Some((last@, rest@)),
                None => split_last(self.text()) is None,
            },
    ;

    /// A walk over the segments, first to last.
    fn iter_keys(&self) -> (walk: MaybeEmptyIter<'_>)
        ensures
            walk@ == segments(self.text()),
    ;

    /// The first segment; `None` for the empty key.
    fn key(&self) -> (first: Option<&str>)
        ensures
            match first {
                Some(segment) => first_segment(self.text()) == Some(segment@),
                None => first_segment(self.text()) is None,
            },
    {
        self.iter_keys().next()
    }

    /// This key behind `other`, with a delimiter between them; `other` alone
    /// where this key is empty.
    fn join(&self, other: &str) -> (whole: String)
        ensures
            whole@ == join(self.text(), other@),
    ;
}

impl TrieKey for String {
    open spec fn text(&self) -> Seq<char> {
        self@
    }

    fn key_rest(&self) -> (parts: Option<(&str, &str)>) {
        last_and_rest(self.as_str())
    }

    fn iter_keys(&self) -> (walk: MaybeEmptyIter<'_>) {
        MaybeEmptyIter::new(self.as_str())
    }

    fn join(&self, other: &str) -> (whole: String) {
        joined(self.as_str(), other)
    }
}

impl TrieKey for &String {
    open spec fn text(&self) -> Seq<char> {
        self@
    }

    fn key_rest(&self) -> (parts: Option<(&str, &str)>) {
        last_and_rest(self.as_str())
    }

    fn iter_keys(&self) -> (walk: MaybeEmptyIter<'_>) {
        MaybeEmptyIter::new(self.as_str())
    }

    fn join(&self, other: &str) -> (whole: String) {
        joined(self.as_str(), other)
    }
}

impl TrieKey for &str {
    open spec fn text(&self) -> Seq<char> {
        self@
    }

    fn key_rest(&self) -> (parts: Option<(&str, &str)>) {
        last_and_rest(self)
    }

    fn iter_keys(&self) -> (walk: MaybeEmptyIter<'_>) {
        MaybeEmptyIter::new(self)
    }

    fn join(&self, other: &str) -> (whole: String) {
        joined(self, other)
    }
}

} // verus!
