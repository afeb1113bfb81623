//! Topic names and topic filters as sequences of levels, and when a
//! filter matches a topic.
use vstd::prelude::*;

verus! {

pub const LEVEL_SEPARATOR: u8 = 0x2F;

pub const SINGLE_LEVEL_WILDCARD: u8 = 0x2B;

pub const MULTI_LEVEL_WILDCARD: u8 = 0x23;

pub const RESERVED_PREFIX: u8 = 0x24;

/// The pieces of `s` between occurrences of `sep`: there is always at
/// least one, possibly empty.
pub open spec fn pieces(s: Seq<u8>, sep: u8) -> Seq<Seq<u8>>
    decreases s.len(),
{
    if s.len() == 0 {
        seq![Seq::empty()]
    } else if s.last() == sep {
        pieces(s.drop_last(), sep).push(Seq::empty())
    } else {
        let l = pieces(s.drop_last(), sep);
        l.update(l.len() - 1, l.last().push(s.last()))
    }
}

/// The levels of a topic or filter: its bytes split at every `/`.
pub open spec fn levels(s: Seq<u8>) -> Seq<Seq<u8>> {
    pieces(s, LEVEL_SEPARATOR)
}

pub proof fn lemma_pieces_nonempty(s: Seq<u8>, sep: u8)
    ensures
        pieces(s, sep).len() >= 1,
    decreases s.len(),
{
    if s.len() > 0 {
        lemma_pieces_nonempty(s.drop_last(), sep);
    }
}

pub proof fn lemma_levels_nonempty(s: Seq<u8>)
    ensures
        levels(s).len() >= 1,
{
    lemma_pieces_nonempty(s, LEVEL_SEPARATOR);
}

pub open spec fn plus_level() -> Seq<u8> {
    seq![SINGLE_LEVEL_WILDCARD]
}

pub open spec fn hash_level() -> Seq<u8> {
    seq![MULTI_LEVEL_WILDCARD]
}

/// A filter level matches a topic level when equal to it or `+`.
pub open spec fn level_matches(f: Seq<u8>, t: Seq<u8>) -> bool {
    f == t || f == plus_level()
}

/// The first `k` levels of the filter match those of the topic.
pub open spec fn prefix_matches(f: Seq<Seq<u8>>, t: Seq<Seq<u8>>, k: int) -> bool {
    forall|i: int| 0 <= i < k ==> level_matches(#[trigger] f[i], t[i])
}

/// A topic whose first level starts with `$` is reserved.
pub open spec fn reserved(t: Seq<Seq<u8>>) -> bool {
    t.len() > 0 && t[0].len() > 0 && t[0][0] == RESERVED_PREFIX
}

pub open spec fn is_wildcard_level(l: Seq<u8>) -> bool {
    l == plus_level() || l == hash_level()
}

/// A filter matches a topic when it has as many levels and each matches,
/// or when it ends in `#` and the levels before it match the first levels
/// of the topic (`#` stands for zero or more trailing levels). A filter
/// that starts with a wildcard does not match a reserved topic.
pub open spec fn topic_matches(f: Seq<Seq<u8>>, t: Seq<Seq<u8>>) -> bool {
    &&& ((f.len() == t.len() && prefix_matches(f, t, f.len() as int)) || (1 <= f.len() <= t.len()
        + 1 && f.last() == hash_level() && prefix_matches(f, t, f.len() - 1)))
    &&& !(reserved(t) && f.len() > 0 && is_wildcard_level(f[0]))
}

/// Splits bytes at every `/`.
pub fn split_levels(s: &[u8]) -> (r: Vec<Vec<u8>>)
    ensures
        r@.map_values(|l: Vec<u8>| l@) == levels(s@),
{
    split_pieces(s, LEVEL_SEPARATOR)
}

/// Splits bytes at every `sep`.
pub fn split_pieces(s: &[u8], sep: u8) -> (r: Vec<Vec<u8>>)
    ensures
        r@.map_values(|l: Vec<u8>| l@) == pieces(s@, sep),
{
    let mut done: Vec<Vec<u8>> = Vec::new();
    let mut cur: Vec<u8> = Vec::new();
    let mut i: usize = 0;
    while i < s.len()
        invariant
            i <= s@.len(),
            done@.map_values(|l: Vec<u8>| l@).push(cur@) == pieces(s@.subrange(0, i as int), sep),
        decreases s@.len() - i,
    {
        let ghost prev = s@.subrange(0, i as int);
        let ghost next = s@.subrange(0, i + 1);
        assert(next.drop_last() =~= prev);
        if s[i] == sep {
            let finished = cur;
            done.push(finished);
            cur = Vec::new();
            assert(done@.map_values(|l: Vec<u8>| l@).push(cur@) =~= pieces(prev, sep).push(Seq::empty()));
        } else {
            let ghost old_done = done@.map_values(|l: Vec<u8>| l@);
            cur.push(s[i]);
            assert(done@.map_values(|l: Vec<u8>| l@).push(cur@) =~= pieces(prev, sep).update(
                pieces(prev, sep).len() - 1,
                pieces(prev, sep).last().push(s@[i as int]),
            ));
        }
        i = i + 1;
    }
    assert(s@.subrange(0, i as int) =~= s@);
    done.push(cur);
    done
}

pub fn bytes_equal(a: &[u8], b: &[u8]) -> (r: bool)
    ensures
        r == (a@ == b@),
{
    if a.len() != b.len() {
        return false;
    }
    let mut i: usize = 0;
    while i < a.len()
        invariant
            a@.len() == b@.len(),
            i <= a@.len(),
            forall|j: int| 0 <= j < i ==> a@[j] == b@[j],
        decreases a@.len() - i,
    {
        if a[i] != b[i] {
            return false;
        }
        i = i + 1;
    }
    assert(a@ =~= b@);
    true
}

pub fn is_plus(l: &[u8]) -> (r: bool)
    ensures
        r == (l@ == plus_level()),
{
    let r = l.len() == 1 && l[0] == SINGLE_LEVEL_WILDCARD;
    if r {
        assert(l@ =~= plus_level());
    }
    r
}

pub fn is_hash(l: &[u8]) -> (r: bool)
    ensures
        r == (l@ == hash_level()),
{
    let r = l.len() == 1 && l[0] == MULTI_LEVEL_WILDCARD;
    if r {
        assert(l@ =~= hash_level());
    }
    r
}

/// Whether a topic name (not a filter) holds a wildcard level.
pub open spec fn has_wildcard_level(t: Seq<Seq<u8>>) -> bool {
    exists|i: int| 0 <= i < t.len() && is_wildcard_level(#[trigger] t[i])
}

/// Matching as MQTT 3.1.1 states it, one level at a time: `+` takes one
/// level, `#` (last in the filter) takes all that remain, even none, and
/// any other level must be equal.
pub open spec fn filter_matches_levels(f: Seq<Seq<u8>>, t: Seq<Seq<u8>>) -> bool
    decreases f.len(),
{
    if f.len() == 0 {
        t.len() == 0
    } else if f[0] == hash_level() {
        f.len() == 1
    } else if t.len() == 0 {
        false
    } else {
        level_matches(f[0], t[0]) && filter_matches_levels(f.drop_first(), t.drop_first())
    }
}

/// The MQTT rule together with the reserved-topic rule.
pub open spec fn mqtt_matches(f: Seq<Seq<u8>>, t: Seq<Seq<u8>>) -> bool {
    filter_matches_levels(f, t) && !(reserved(t) && f.len() > 0 && is_wildcard_level(f[0]))
}

pub open spec fn matches_core(f: Seq<Seq<u8>>, t: Seq<Seq<u8>>) -> bool {
    (f.len() == t.len() && prefix_matches(f, t, f.len() as int)) || (1 <= f.len() <= t.len() + 1
        && f.last() == hash_level() && prefix_matches(f, t, f.len() - 1))
}

proof fn lemma_prefix_shift(f: Seq<Seq<u8>>, t: Seq<Seq<u8>>, k: int)
    requires
        f.len() >= 1,
        t.len() >= 1,
        0 <= k < f.len(),
        k < t.len(),
    ensures
        prefix_matches(f, t, k + 1) <==> level_matches(f[0], t[0]) && prefix_matches(
            f.drop_first(),
            t.drop_first(),
            k,
        ),
{
    if prefix_matches(f, t, k + 1) {
        assert(level_matches(f[0], t[0]));
        assert forall|i: int| 0 <= i < k implies level_matches(#[trigger] f.drop_first()[i], t.drop_first()[i]) by {
            assert(level_matches(f[i + 1], t[i + 1]));
        }
    }
    if level_matches(f[0], t[0]) && prefix_matches(f.drop_first(), t.drop_first(), k) {
        assert forall|i: int| 0 <= i < k + 1 implies level_matches(#[trigger] f[i], t[i]) by {
            if i > 0 {
                assert(level_matches(f.drop_first()[i - 1], t.drop_first()[i - 1]));
            }
        }
    }
}

proof fn lemma_core_matches_levels(f: Seq<Seq<u8>>, t: Seq<Seq<u8>>)
    requires
        !has_wildcard_level(t),
    ensures
        matches_core(f, t) <==> filter_matches_levels(f, t),
    decreases f.len(),
{
    if f.len() == 0 {
    } else if f[0] == hash_level() {
        assert(hash_level()[0] != plus_level()[0]);
        if t.len() > 0 {
            assert(!is_wildcard_level(t[0]));
            assert(!level_matches(f[0], t[0]));
        }
        if f.len() == 1 {
            assert(f.last() == f[0]);
        }
    } else if t.len() == 0 {
        if f.len() == 1 {
            assert(f.last() == f[0]);
        }
    } else {
        let f2 = f.drop_first();
        let t2 = t.drop_first();
        assert forall|i: int| 0 <= i < t2.len() implies !is_wildcard_level(#[trigger] t2[i]) by {
            assert(t2[i] == t[i + 1]);
        }
        lemma_core_matches_levels(f2, t2);
        if f.len() == 1 {
            assert(f.last() == f[0]);
            lemma_prefix_shift(f, t, 0);
        } else {
            assert(f.last() == f2.last());
            if f.len() == t.len() {
                lemma_prefix_shift(f, t, f.len() - 1);
            }
            if f.len() <= t.len() + 1 {
                lemma_prefix_shift(f, t, f.len() - 2);
            }
        }
    }
}

/// For a topic name without wildcards, the matching rule that the trie
/// implements is MQTT's, level by level.
pub proof fn lemma_topic_matches_mqtt(f: Seq<Seq<u8>>, t: Seq<Seq<u8>>)
    requires
        !has_wildcard_level(t),
    ensures
        topic_matches(f, t) <==> mqtt_matches(f, t),
{
    lemma_core_matches_levels(f, t);
}

} // verus!
