//! The grammar of keys: a key is a run of segments with one delimiter between
//! each two of them, and the empty key has no segment at all.

use vstd::prelude::*;

verus! {

/// The character that stands between two segments of a key.
pub const DELIMITER: char = ' ';

/// The pieces of `text` that lie between its delimiters, first to last. There
/// is always one piece more than there are delimiters.
pub open spec fn split(text: Seq<char>) -> Seq<Seq<char>>
    decreases text.len(),
{
    match text.index_of_first(DELIMITER) {
        Some(at) => if 0 <= at < text.len() {
            seq![text.subrange(0, at)] + split(text.subrange(at + 1, text.len() as int))
        } else {
            seq![text]
        },
        None => seq![text],
    }
}

/// The segments of `key`, first to last; the empty key has none.
pub open spec fn segments(key: Seq<char>) -> Seq<Seq<char>> {
    if key.len() == 0 {
        Seq::empty()
    } else {
        split(key)
    }
}

/// The first segment of `key`, if it has one.
pub open spec fn first_segment(key: Seq<char>) -> Option<Seq<char>> {
    if key.len() == 0 {
        None
    } else {
        Some(split(key)[0])
    }
}

/// The last segment of `key`, and what stands before the delimiter in front of
/// it. A key without a delimiter is its own last segment, with nothing before.
pub open spec fn split_last(key: Seq<char>) -> Option<(Seq<char>, Seq<char>)> {
    if key.len() == 0 {
        None
    } else {
        match key.index_of_last(DELIMITER) {
            Some(at) => Some((key.subrange(at + 1, key.len() as int), key.subrange(0, at))),
            None => Some((key, Seq::empty())),
        }
    }
}

/// `key` placed behind `prefix`, with a delimiter between the two. An empty
/// `key` adds nothing.
pub open spec fn join(key: Seq<char>, prefix: Seq<char>) -> Seq<char> {
    if key.len() == 0 {
        prefix
    } else {
        prefix + seq![DELIMITER] + key
    }
}

/// The segments of `key` in the order in which `split_last` hands them out:
/// the last one first.
pub open spec fn segments_from_last(key: Seq<char>) -> Seq<Seq<char>>
    decreases key.len(),
{
    match split_last(key) {
        Some((last, rest)) => if rest.len() < key.len() {
            seq![last] + segments_from_last(rest)
        } else {
            seq![last]
        },
        None => Seq::empty(),
    }
}

/// The key under which the fold visits the node that `path` leads to: the
/// segment of the node itself comes first, then that of its parent, and so on
/// up to the segment of the child of the root.
pub open spec fn visit_key(path: Seq<Seq<char>>) -> Seq<char>
    decreases path.len(),
{
    if path.len() == 0 {
        Seq::empty()
    } else {
        join(visit_key(path.drop_last()), path.last())
    }
}

/// `segment` can stand in a key on its own: it is not empty and holds no
/// delimiter.
pub open spec fn is_segment(segment: Seq<char>) -> bool {
    segment.len() > 0 && !segment.contains(DELIMITER)
}

/// The text that has `pieces` between its delimiters.
pub open spec fn unsplit(pieces: Seq<Seq<char>>) -> Seq<char>
    decreases pieces.len(),
{
    if pieces.len() == 0 {
        Seq::empty()
    } else if pieces.len() == 1 {
        pieces[0]
    } else {
        pieces[0] + seq![DELIMITER] + unsplit(pieces.drop_first())
    }
}

/// `at` is where the first delimiter of `text` stands.
pub open spec fn is_first_delimiter(text: Seq<char>, at: int) -> bool {
    &&& 0 <= at < text.len()
    &&& text[at] == DELIMITER
    &&& forall|j: int| 0 <= j < at ==> text[j] != DELIMITER
}

/// `at` is where the last delimiter of `text` stands.
pub open spec fn is_last_delimiter(text: Seq<char>, at: int) -> bool {
    &&& 0 <= at < text.len()
    &&& text[at] == DELIMITER
    &&& forall|j: int| at < j < text.len() ==> text[j] != DELIMITER
}

/// The first delimiter of a text is found by the property that defines it.
pub proof fn lemma_first_delimiter(text: Seq<char>, at: int)
    requires
        is_first_delimiter(text, at),
    ensures
        text.index_of_first(DELIMITER) == Some(at),
{
    text.index_of_first_ensures(DELIMITER);
}

/// The last delimiter of a text is found by the property that defines it.
pub proof fn lemma_last_delimiter(text: Seq<char>, at: int)
    requires
        is_last_delimiter(text, at),
    ensures
        text.index_of_last(DELIMITER) == Some(at),
{
    text.index_of_last_ensures(DELIMITER);
}

/// A text without a delimiter has no first and no last one.
pub proof fn lemma_no_delimiter(text: Seq<char>)
    requires
        forall|j: int| 0 <= j < text.len() ==> text[j] != DELIMITER,
    ensures
        text.index_of_first(DELIMITER) is None,
        text.index_of_last(DELIMITER) is None,
{
    text.index_of_first_ensures(DELIMITER);
    text.index_of_last_ensures(DELIMITER);
}

/// What `split_last` takes off a key is what `segments_from_last` starts
/// with, and the key that is left is shorter.
pub proof fn lemma_split_last(key: Seq<char>)
    ensures
        match split_last(key) {
            Some((last, rest)) => {
                &&& key.len() > 0
                &&& rest.len() < key.len()
                &&& segments_from_last(key) == seq![last] + segments_from_last(rest)
                &&& segments_from_last(key)[0] == last
                &&& segments_from_last(key).drop_first() == segments_from_last(rest)
            },
            None => key.len() == 0 && segments_from_last(key).len() == 0,
        },
{
    key.index_of_last_ensures(DELIMITER);
    match split_last(key) {
        Some((last, rest)) => {
            assert((seq![last] + segments_from_last(rest)).drop_first() =~= segments_from_last(
                rest,
            ));
        },
        None => {},
    }
}

/// The pieces of a text hold no delimiter, there is at least one of them, and
/// with the delimiters back between them they make up the text.
pub proof fn lemma_split_unsplit(text: Seq<char>)
    ensures
        split(text).len() >= 1,
        forall|i: int|
            0 <= i < split(text).len() ==> !(#[trigger] split(text)[i]).contains(DELIMITER),
        unsplit(split(text)) == text,
    decreases text.len(),
{
    text.index_of_first_ensures(DELIMITER);
    match text.index_of_first(DELIMITER) {
        Some(at) => {
            let head = text.subrange(0, at);
            let tail = text.subrange(at + 1, text.len() as int);
            lemma_split_unsplit(tail);
            let pieces = seq![head] + split(tail);
            assert(pieces.drop_first() =~= split(tail));
            assert(pieces[0] == head);
            assert(unsplit(pieces) =~= text);
            assert forall|i: int| 0 <= i < pieces.len() implies !(#[trigger] pieces[i]).contains(
                DELIMITER,
            ) by {
                if i == 0 {
                    if head.contains(DELIMITER) {
                        let j = choose|j: int| 0 <= j < head.len() && head[j] == DELIMITER;
                        assert(text[j] == DELIMITER);
                    }
                } else {
                    assert(pieces[i] == split(tail)[i - 1]);
                }
            }
        },
        None => {
            assert(split(text) =~= seq![text]);
        },
    }
}

/// A key without a delimiter that is not empty is one segment, from
/// whichever end it is read.
pub proof fn lemma_single_segment(key: Seq<char>)
    requires
        key.len() > 0,
        !key.contains(DELIMITER),
    ensures
        segments(key) == seq![key],
        segments_from_last(key) == seq![key],
        first_segment(key) == Some(key),
        split_last(key) == Some((key, Seq::<char>::empty())),
{
    key.index_of_first_ensures(DELIMITER);
    key.index_of_last_ensures(DELIMITER);
    assert(segments_from_last(Seq::<char>::empty()) =~= Seq::empty());
    assert(seq![key] + Seq::<Seq<char>>::empty() =~= seq![key]);
}

/// The last piece of a text that has a delimiter stands behind its last
/// delimiter, and the pieces before it are those of the text in front of
/// that delimiter.
pub proof fn lemma_split_at_last(text: Seq<char>, at: int)
    requires
        is_last_delimiter(text, at),
    ensures
        split(text) == split(text.subrange(0, at)).push(text.subrange(at + 1, text.len() as int)),
    decreases text.len(),
{
    let front = text.subrange(0, at);
    let last = text.subrange(at + 1, text.len() as int);
    text.index_of_first_ensures(DELIMITER);
    let first = text.index_of_first(DELIMITER).unwrap();
    let tail = text.subrange(first + 1, text.len() as int);
    if first == at {
        lemma_no_delimiter(front);
        lemma_no_delimiter(last);
        assert(tail == last);
        assert(split(last) =~= seq![last]);
        assert(split(front) =~= seq![front]);
        assert(split(text) =~= seq![front, last]);
        assert(split(front).push(last) =~= seq![front, last]);
    } else {
        assert(first < at);
        assert(is_last_delimiter(tail, at - first - 1));
        lemma_split_at_last(tail, at - first - 1);
        assert(tail.subrange(at - first, tail.len() as int) =~= last);
        assert(tail.subrange(0, at - first - 1) =~= front.subrange(first + 1, front.len() as int));
        assert(is_first_delimiter(front, first));
        lemma_first_delimiter(front, first);
        assert(front.subrange(0, first) =~= text.subrange(0, first));
        assert(split(front) == seq![text.subrange(0, first)] + split(
            front.subrange(first + 1, front.len() as int),
        ));
        assert(split(text) =~= split(front).push(last));
    }
}

/// A key that does not start with a delimiter is taken apart from its end
/// into the segments that it has from its start, in reverse order.
pub proof fn lemma_segments_from_last(key: Seq<char>)
    requires
        key.len() == 0 || key[0] != DELIMITER,
    ensures
        segments_from_last(key) == segments(key).reverse(),
    decreases key.len(),
{
    if key.len() == 0 {
        assert(segments_from_last(key) =~= segments(key).reverse());
    } else {
        key.index_of_last_ensures(DELIMITER);
        match key.index_of_last(DELIMITER) {
            Some(at) => {
                let last = key.subrange(at + 1, key.len() as int);
                let rest = key.subrange(0, at);
                assert(at > 0);
                assert(rest[0] == key[0]);
                lemma_segments_from_last(rest);
                lemma_split_at_last(key, at);
                lemma_split_last(key);
                assert(segments_from_last(key) =~= segments(key).reverse());
            },
            None => {
                assert(key.contains(DELIMITER) == false);
                lemma_single_segment(key);
                assert(seq![key].reverse() =~= seq![key]);
            },
        }
    }
}

/// Two keys with the same segments are the same key.
pub proof fn lemma_segments_injective(key: Seq<char>, other: Seq<char>)
    requires
        segments(key) == segments(other),
    ensures
        key == other,
{
    lemma_split_unsplit(key);
    lemma_split_unsplit(other);
    if key.len() == 0 || other.len() == 0 {
        assert(key.len() == 0 && other.len() == 0);
        assert(key =~= other);
    }
}

/// A segment in front of a key that is not empty, with a delimiter between
/// them, is the first segment of the longer key, and the others follow.
pub proof fn lemma_segments_behind(segment: Seq<char>, key: Seq<char>)
    requires
        !segment.contains(DELIMITER),
        key.len() > 0,
    ensures
        segments(segment + seq![DELIMITER] + key) == seq![segment] + segments(key),
{
    let whole = segment + seq![DELIMITER] + key;
    assert(is_first_delimiter(whole, segment.len() as int)) by {
        assert forall|j: int| 0 <= j < segment.len() implies whole[j] != DELIMITER by {
            assert(whole[j] == segment[j]);
        }
    }
    lemma_first_delimiter(whole, segment.len() as int);
    assert(whole.subrange(0, segment.len() as int) =~= segment);
    assert(whole.subrange(segment.len() as int + 1, whole.len() as int) =~= key);
}

/// The key under which a node is visited has the segments on the way to the
/// node, from the node up to the root, where each of them can stand in a key
/// on its own. So its first segment is the segment of the node.
pub proof fn lemma_visit_key(path: Seq<Seq<char>>)
    requires
        forall|i: int| 0 <= i < path.len() ==> is_segment(#[trigger] path[i]),
    ensures
        segments(visit_key(path)) == path.reverse(),
        path.len() > 0 ==> visit_key(path).len() > 0 && first_segment(visit_key(path)) == Some(
            path.last(),
        ),
    decreases path.len(),
{
    if path.len() == 0 {
        assert(segments(visit_key(path)) =~= path.reverse());
    } else {
        let above = path.drop_last();
        let own = path.last();
        assert(is_segment(own));
        assert forall|i: int| 0 <= i < above.len() implies is_segment(#[trigger] above[i]) by {
            assert(above[i] == path[i]);
        }
        lemma_visit_key(above);
        if above.len() == 0 {
            assert(visit_key(above) =~= Seq::empty());
            assert(visit_key(path) == own);
            lemma_single_segment(own);
            assert(segments(own) =~= path.reverse());
        } else {
            lemma_segments_behind(own, visit_key(above));
            assert(seq![own] + above.reverse() =~= path.reverse());
            assert(visit_key(path) == own + seq![DELIMITER] + visit_key(above));
        }
    }
}

} // verus!
