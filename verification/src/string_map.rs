//! A map from texts to texts that is walked in the order of its keys.
use vstd::prelude::*;
use crate::codec;
use crate::codec::{put_list, take_list, Cur};
use crate::error::{Error, ErrorView};
use crate::order;
use crate::order::text_less;
use crate::text;

verus! {

/// A map from texts to texts. Its entries stand in the order of their keys, so that what is derived
/// from it does not depend on the order in which they were put in.
#[derive(PartialEq, Eq, Hash, PartialOrd, Ord, Debug)]
pub struct StringMap {
    entries: Vec<(String, String)>,
}

/// Each key comes before the next one, so that none occurs twice.
pub open spec fn ascending_keys(s: Seq<(Seq<char>, Seq<char>)>) -> bool {
    forall|i: int, j: int|
        0 <= i < j < s.len() ==> order::text_lt((#[trigger] s[i]).0, (#[trigger] s[j]).0)
}

/// The map that a sequence of entries stands for: of two entries with one key the later one counts.
pub open spec fn map_of(s: Seq<(Seq<char>, Seq<char>)>) -> Map<Seq<char>, Seq<char>>
    decreases s.len(),
{
    if s.len() == 0 {
        Map::empty()
    } else {
        map_of(s.drop_last()).insert(s.last().0, s.last().1)
    }
}

/// Ascending entries after a key got a value: the value of its entry is replaced, or a new entry
/// stands at its place in the order.
pub open spec fn put_entry(
    s: Seq<(Seq<char>, Seq<char>)>,
    key: Seq<char>,
    value: Seq<char>,
) -> Seq<(Seq<char>, Seq<char>)>
    decreases s.len(),
{
    if s.len() == 0 {
        seq![(key, value)]
    } else if s.last().0 == key {
        s.drop_last().push((key, value))
    } else if order::text_lt(s.last().0, key) {
        s.push((key, value))
    } else {
        put_entry(s.drop_last(), key, value).push(s.last())
    }
}

/// The entries after all the given pairs were put into an empty map, in their order.
pub open spec fn collected(pairs: Seq<(Seq<char>, Seq<char>)>) -> Seq<(Seq<char>, Seq<char>)>
    decreases pairs.len(),
{
    if pairs.len() == 0 {
        Seq::empty()
    } else {
        put_entry(collected(pairs.drop_last()), pairs.last().0, pairs.last().1)
    }
}

/// Putting an entry is the insertion of a map, and it keeps the order of the keys.
pub proof fn law_put_entry_is_map_insertion(
    s: Seq<(Seq<char>, Seq<char>)>,
    key: Seq<char>,
    value: Seq<char>,
)
    requires
        ascending_keys(s),
    ensures
        map_of(put_entry(s, key, value)) == map_of(s).insert(key, value),
        ascending_keys(put_entry(s, key, value)),
{
    lemma_put_entry(s, key, value);
}

/// Entries that all come from `s` or are the new one.
proof fn lemma_put_entry(s: Seq<(Seq<char>, Seq<char>)>, key: Seq<char>, value: Seq<char>)
    requires
        ascending_keys(s),
    ensures
        map_of(put_entry(s, key, value)) == map_of(s).insert(key, value),
        ascending_keys(put_entry(s, key, value)),
        forall|i: int|
            0 <= i < put_entry(s, key, value).len() ==> {
                ||| (#[trigger] put_entry(s, key, value)[i]).0 == key
                ||| exists|j: int| 0 <= j < s.len() && s[j].0 == put_entry(s, key, value)[i].0
            },
    decreases s.len(),
{
    let r = put_entry(s, key, value);
    if s.len() == 0 {
        assert(seq![(key, value)].drop_last() =~= s);
    } else {
        let head = s.drop_last();
        let last = s.last();
        assert(ascending_keys(head)) by {
            assert forall|i: int, j: int| 0 <= i < j < head.len() implies order::text_lt(
                (#[trigger] head[i]).0,
                (#[trigger] head[j]).0,
            ) by {
                assert(order::text_lt(s[i].0, s[j].0));
            }
        }
        if last.0 == key {
            assert(r.drop_last() =~= head);
            assert(map_of(r) =~= map_of(s).insert(key, value));
            assert forall|i: int, j: int| 0 <= i < j < r.len() implies order::text_lt(
                (#[trigger] r[i]).0,
                (#[trigger] r[j]).0,
            ) by {
                assert(order::text_lt(s[i].0, s[j].0));
            }
            assert forall|i: int| 0 <= i < r.len() && (#[trigger] r[i]).0 != key implies exists|
                j: int,
            |
                0 <= j < s.len() && s[j].0 == r[i].0 by {
                assert(s[i].0 == r[i].0);
            }
        } else if order::text_lt(last.0, key) {
            assert(r.drop_last() =~= s);
            assert forall|i: int, j: int| 0 <= i < j < r.len() implies order::text_lt(
                (#[trigger] r[i]).0,
                (#[trigger] r[j]).0,
            ) by {
                if j < s.len() {
                    assert(order::text_lt(s[i].0, s[j].0));
                } else if i < s.len() - 1 {
                    assert(order::text_lt(s[i].0, s[s.len() - 1].0));
                    order::law_text_order_is_total(s[i].0, last.0, key);
                }
            }
            assert forall|i: int| 0 <= i < r.len() && (#[trigger] r[i]).0 != key implies exists|
                j: int,
            |
                0 <= j < s.len() && s[j].0 == r[i].0 by {
                assert(s[i].0 == r[i].0);
            }
        } else {
            let q = put_entry(head, key, value);
            lemma_put_entry(head, key, value);
            assert(r.drop_last() =~= q);
            assert(map_of(r) =~= map_of(s).insert(key, value));
            order::law_text_order_is_total(last.0, key, last.0);
            assert forall|i: int, j: int| 0 <= i < j < r.len() implies order::text_lt(
                (#[trigger] r[i]).0,
                (#[trigger] r[j]).0,
            ) by {
                if j < q.len() {
                    assert(order::text_lt(q[i].0, q[j].0));
                } else {
                    assert(r[i] == q[i]);
                    if q[i].0 != key {
                        let k = choose|k: int| 0 <= k < head.len() && head[k].0 == q[i].0;
                        assert(order::text_lt(s[k].0, s[s.len() - 1].0));
                    }
                }
            }
            assert forall|i: int| 0 <= i < r.len() && (#[trigger] r[i]).0 != key implies exists|
                j: int,
            |
                0 <= j < s.len() && s[j].0 == r[i].0 by {
                if i < q.len() {
                    assert(r[i] == q[i]);
                    let k = choose|k: int| 0 <= k < head.len() && head[k].0 == q[i].0;
                    assert(s[k].0 == r[i].0);
                } else {
                    assert(s[s.len() - 1].0 == r[i].0);
                }
            }
        }
    }
}

/// Entries behind the place of a key stay as they are.
proof fn lemma_put_entry_before(
    s: Seq<(Seq<char>, Seq<char>)>,
    at: int,
    key: Seq<char>,
    value: Seq<char>,
)
    requires
        0 <= at <= s.len(),
        forall|j: int| at <= j < s.len() ==> order::text_lt(key, (#[trigger] s[j]).0),
    ensures
        put_entry(s, key, value) == put_entry(s.take(at), key, value) + s.skip(at),
    decreases s.len() - at,
{
    if at == s.len() {
        assert(s.take(at) =~= s);
        assert(put_entry(s, key, value) =~= put_entry(s.take(at), key, value) + s.skip(at));
    } else {
        let head = s.drop_last();
        assert(order::text_lt(key, s[s.len() - 1].0));
        order::law_text_order_is_total(key, s.last().0, key);
        assert forall|j: int| at <= j < head.len() implies order::text_lt(
            key,
            (#[trigger] head[j]).0,
        ) by {
            assert(order::text_lt(key, s[j].0));
        }
        lemma_put_entry_before(head, at, key, value);
        assert(head.take(at) =~= s.take(at));
        assert(head.skip(at).push(s.last()) =~= s.skip(at));
        assert(put_entry(s, key, value) =~= put_entry(s.take(at), key, value) + s.skip(at));
    }
}

/// Collecting pairs gives the map that they stand for, in ascending order.
pub proof fn law_collected_is_the_map(pairs: Seq<(Seq<char>, Seq<char>)>)
    ensures
        map_of(collected(pairs)) == map_of(pairs),
        ascending_keys(collected(pairs)),
    decreases pairs.len(),
{
    if pairs.len() > 0 {
        law_collected_is_the_map(pairs.drop_last());
        law_put_entry_is_map_insertion(
            collected(pairs.drop_last()),
            pairs.last().0,
            pairs.last().1,
        );
    }
}

/// Collecting the entries of a map gives the map back.
pub proof fn law_collected_keeps_ascending_entries(s: Seq<(Seq<char>, Seq<char>)>)
    requires
        ascending_keys(s),
    ensures
        collected(s) == s,
    decreases s.len(),
{
    if s.len() == 0 {
        assert(s =~= Seq::empty());
    } else {
        let head = s.drop_last();
        assert forall|i: int, j: int| 0 <= i < j < head.len() implies order::text_lt(
            (#[trigger] head[i]).0,
            (#[trigger] head[j]).0,
        ) by {
            assert(order::text_lt(s[i].0, s[j].0));
        }
        law_collected_keeps_ascending_entries(head);
        if head.len() > 0 {
            assert(order::text_lt(s[s.len() - 2].0, s[s.len() - 1].0));
            order::law_text_order_is_total(head.last().0, s.last().0, head.last().0);
        }
        assert(s =~= head.push(s.last()));
    }
}

/// The order in which entries are put in is not seen: two ascending sequences of entries that stand
/// for one map are equal.
pub proof fn law_entries_follow_from_the_map(
    a: Seq<(Seq<char>, Seq<char>)>,
    b: Seq<(Seq<char>, Seq<char>)>,
)
    requires
        ascending_keys(a),
        ascending_keys(b),
        map_of(a) == map_of(b),
    ensures
        a == b,
{
    lemma_map_of_entries(a);
    lemma_map_of_entries(b);
    let ka = a.map_values(|e: (Seq<char>, Seq<char>)| e.0);
    let kb = b.map_values(|e: (Seq<char>, Seq<char>)| e.0);
    assert forall|t: Seq<char>| #[trigger] ka.contains(t) <==> kb.contains(t) by {
        if ka.contains(t) {
            let i = choose|i: int| 0 <= i < ka.len() && ka[i] == t;
            assert(a[i].0 == t);
            assert(map_of(b).contains_key(t));
            let j = choose|j: int| 0 <= j < b.len() && (#[trigger] b[j]).0 == t;
            assert(kb[j] == t);
        }
        if kb.contains(t) {
            let i = choose|i: int| 0 <= i < kb.len() && kb[i] == t;
            assert(b[i].0 == t);
            assert(map_of(a).contains_key(t));
            let j = choose|j: int| 0 <= j < a.len() && (#[trigger] a[j]).0 == t;
            assert(ka[j] == t);
        }
    }
    assert forall|i: int, j: int| 0 <= i < j < ka.len() implies order::text_lt(
        #[trigger] ka[i],
        #[trigger] ka[j],
    ) by {
        assert(order::text_lt(a[i].0, a[j].0));
    }
    assert forall|i: int, j: int| 0 <= i < j < kb.len() implies order::text_lt(
        #[trigger] kb[i],
        #[trigger] kb[j],
    ) by {
        assert(order::text_lt(b[i].0, b[j].0));
    }
    order::law_sorted_set_is_unique(ka, kb);
    assert(a.len() == ka.len() && b.len() == kb.len());
    assert forall|i: int| 0 <= i < a.len() implies a[i] == b[i] by {
        assert(ka[i] == kb[i]);
        assert(a[i].0 == b[i].0);
        assert(map_of(a)[a[i].0] == a[i].1);
        assert(map_of(b)[b[i].0] == b[i].1);
    }
    assert(a =~= b);
}

proof fn lemma_map_of_entries(s: Seq<(Seq<char>, Seq<char>)>)
    requires
        ascending_keys(s),
    ensures
        forall|i: int|
            0 <= i < s.len() ==> map_of(s).contains_key((#[trigger] s[i]).0) && map_of(s)[s[i].0]
                == s[i].1,
        forall|k: Seq<char>| #[trigger]
            map_of(s).contains_key(k) ==> exists|i: int|
                0 <= i < s.len() && (#[trigger] s[i]).0 == k,
    decreases s.len(),
{
    if s.len() > 0 {
        let head = s.drop_last();
        assert forall|i: int, j: int| 0 <= i < j < head.len() implies order::text_lt(
            (#[trigger] head[i]).0,
            (#[trigger] head[j]).0,
        ) by {
            assert(order::text_lt(s[i].0, s[j].0));
        }
        lemma_map_of_entries(head);
        assert forall|i: int| 0 <= i < s.len() implies map_of(s).contains_key((#[trigger] s[i]).0)
            && map_of(s)[s[i].0] == s[i].1 by {
            if i < head.len() {
                assert(head[i] == s[i]);
                assert(order::text_lt(s[i].0, s[s.len() - 1].0));
                order::law_text_order_is_total(s[i].0, s.last().0, s[i].0);
            }
        }
        assert forall|k: Seq<char>| #[trigger] map_of(s).contains_key(k) implies exists|i: int|
            0 <= i < s.len() && (#[trigger] s[i]).0 == k by {
            if k == s.last().0 {
                assert(s[s.len() - 1].0 == k);
            } else {
                assert(map_of(head).contains_key(k));
                let i = choose|i: int| 0 <= i < head.len() && (#[trigger] head[i]).0 == k;
                assert(s[i].0 == k);
            }
        }
    }
}

impl View for StringMap {
    type V = Seq<(Seq<char>, Seq<char>)>;

    closed spec fn view(&self) -> Seq<(Seq<char>, Seq<char>)> {
        order::views(self.entries@)
    }
}

impl StringMap {
    /// The entries stand in the order of their keys.
    #[verifier::type_invariant]
    pub open spec fn wf(self) -> bool {
        ascending_keys(self@)
    }

    /// The empty map.
    pub fn new() -> (m: StringMap)
        ensures
            m@ == Seq::<(Seq<char>, Seq<char>)>::empty(),
    {
        let m = StringMap { entries: Vec::new() };
        assert(m@ =~= Seq::empty());
        m
    }

    /// The number of entries.
    pub fn len(&self) -> (n: usize)
        ensures
            n == self@.len(),
    {
        self.entries.len()
    }

    /// The entries in the order of their keys.
    pub fn to_pairs(&self) -> (r: Vec<(String, String)>)
        ensures
            text::text_pairs(r@) == self@,
    {
        let mut entries: Vec<(String, String)> = Vec::new();
        let n: usize = self.entries.len();
        for i in 0..n
            invariant
                n == self.entries@.len(),
                order::views(entries@) == order::views(self.entries@).take(i as int),
        {
            let ghost before = order::views(entries@);
            let entry = (self.entries[i].0.clone(), self.entries[i].1.clone());
            entries.push(entry);
            assert(order::views(entries@) =~= before.push(entry@));
            assert(order::views(self.entries@)[i as int] == entry@);
            assert(before.push(entry@) =~= order::views(self.entries@).take(i + 1));
        }
        assert(order::views(entries@) =~= self@);
        entries
    }

    /// Gives a key a value, in place of the one that it has.
    pub fn insert(&mut self, key: String, value: String)
        ensures
            final(self)@ == put_entry(old(self)@, key@, value@),
            map_of(final(self)@) == map_of(old(self)@).insert(key@, value@),
            final(self).wf(),
    {
        proof {
            use_type_invariant(&*self);
        }
        let ghost before = self@;
        let ghost k = key@;
        let ghost v = value@;
        proof {
            law_put_entry_is_map_insertion(before, k, v);
        }
        let mut entries: Vec<(String, String)> = Vec::new();
        assert(order::views(entries@) =~= Seq::empty());
        std::mem::swap(&mut self.entries, &mut entries);
        let mut at: usize = entries.len();
        while at > 0 && text_less(key.as_str(), entries[at - 1].0.as_str())
            invariant
                at <= entries@.len(),
                k == key@,
                before == order::views(entries@),
                forall|j: int| at <= j < before.len() ==> order::text_lt(k, (#[trigger] before[j]).0),
            decreases at,
        {
            assert(before[at - 1] == entries@[at - 1]@);
            at = at - 1;
        }
        proof {
            lemma_put_entry_before(before, at as int, k, v);
        }
        let ghost head = before.take(at as int);
        if at > 0 && !text_less(entries[at - 1].0.as_str(), key.as_str()) {
            proof {
                assert(before[at - 1] == entries@[at - 1]@);
                order::law_text_order_is_total(k, before[at - 1].0, k);
                assert(head.last() == before[at - 1]);
            }
            let dropped = entries.remove(at - 1);
            entries.insert(at - 1, (key, value));
            assert(order::views(entries@) =~= put_entry(before, k, v)) by {
                assert(put_entry(head, k, v) == head.drop_last().push((k, v)));
                assert((key, value)@ == (k, v));
            }
        } else {
            assert(put_entry(head, k, v) == head.push((k, v))) by {
                if at > 0 {
                    assert(before[at - 1] == entries@[at - 1]@);
                    assert(head.last() == before[at - 1]);
                    order::law_text_order_is_total(head.last().0, k, head.last().0);
                } else {
                    assert(head.push((k, v)) =~= seq![(k, v)]);
                }
            }
            entries.insert(at, (key, value));
            assert(order::views(entries@) =~= put_entry(before, k, v)) by {
                assert((key, value)@ == (k, v));
            }
        }
        self.entries = entries;
    }

    /// The map that holds the given pairs; of two pairs with one key the later one counts.
    pub fn from_pairs(pairs: &Vec<(String, String)>) -> (m: StringMap)
        ensures
            m@ == collected(text::text_pairs(pairs@)),
    {
        let ghost all = text::text_pairs(pairs@);
        let mut m = StringMap::new();
        let n: usize = pairs.len();
        for i in 0..n
            invariant
                n == pairs@.len(),
                all == text::text_pairs(pairs@),
                m@ == collected(all.take(i as int)),
        {
            m.insert(pairs[i].0.clone(), pairs[i].1.clone());
            proof {
                let head = all.take(i + 1);
                assert(head.drop_last() =~= all.take(i as int));
                assert(head.last() == pairs@[i as int]@);
            }
        }
        assert(all.take(n as int) =~= all);
        m
    }

    /// Appends the entries as a list of key and value frames.
    pub fn put(&self, b: &mut Vec<u8>)
        ensures
            final(b)@ == old(b)@ + codec::list_frame::<(String, String)>(self@),
    {
        put_list(b, &self.entries);
    }

    /// The map that the next list of key and value frames stands for.
    pub fn take_from(c: &mut Cur<'_>) -> (r: Result<StringMap, Error>)
        requires
            old(c)@.wf(),
        ensures
            ({
                let (res, pos) = map_at(old(c)@.bytes, old(c)@.pos, old(c)@.what);
                &&& match r {
                    Ok(m) => res == Ok::<Seq<(Seq<char>, Seq<char>)>, ErrorView>(m@),
                    Err(e) => res == Err::<Seq<(Seq<char>, Seq<char>)>, ErrorView>(e@),
                }
                &&& final(c)@ == old(c)@.moved(pos)
                &&& final(c)@.wf()
            }),
    {
        match take_list::<(String, String)>(c) {
            Ok(pairs) => {
                assert(order::views(pairs@) =~= text::text_pairs(pairs@));
                Ok(StringMap::from_pairs(&pairs))
            },
            Err(e) => Err(e),
        }
    }
}

/// The entries of the map at position `i`, and the position after the attempt.
pub open spec fn map_at(b: Seq<u8>, i: int, what: Seq<char>) -> (
    Result<Seq<(Seq<char>, Seq<char>)>, ErrorView>,
    int,
) {
    match codec::list_at::<(String, String)>(b, i, what) {
        (Ok(pairs), j) => (Ok(collected(pairs)), j),
        (Err(e), j) => (Err(e), j),
    }
}

impl Clone for StringMap {
    fn clone(&self) -> (r: StringMap)
        ensures
            r@ == self@,
    {
        proof {
            use_type_invariant(self);
        }
        StringMap { entries: self.to_pairs() }
    }
}

/// A sequence of entries stands for the map in which each key has the value of its last entry.
#[verifier::spinoff_prover]
#[verifier::rlimit(40)]
pub proof fn law_map_has_the_last_value(s: Seq<(Seq<char>, Seq<char>)>, i: int)
    requires
        0 <= i < s.len(),
        forall|j: int| i < j < s.len() ==> (#[trigger] s[j]).0 != s[i].0,
    ensures
        map_of(s).dom().contains(s[i].0),
        map_of(s)[s[i].0] == s[i].1,
    decreases s.len(),
{
    let last = s.len() - 1;
    if i < last {
        let head = s.drop_last();
        assert(s[last].0 != s[i].0);
        assert forall|j: int| i < j < head.len() implies (#[trigger] head[j]).0 != head[i].0 by {
            assert(s[j].0 != s[i].0);
        }
        law_map_has_the_last_value(head, i);
    }
}

/// A sequence of entries stands for a map without the keys that no entry has.
pub proof fn law_map_has_no_other_key(s: Seq<(Seq<char>, Seq<char>)>, key: Seq<char>)
    requires
        forall|i: int| 0 <= i < s.len() ==> (#[trigger] s[i]).0 != key,
    ensures
        !map_of(s).dom().contains(key),
    decreases s.len(),
{
    if s.len() > 0 {
        let head = s.drop_last();
        assert(s[s.len() - 1].0 != key);
        assert forall|i: int| 0 <= i < head.len() implies (#[trigger] head[i]).0 != key by {
            assert(s[i].0 != key);
        }
        law_map_has_no_other_key(head, key);
    }
}

/// The entries of a map that was filled with pairs: their keys ascend, a key is there if and only if it
/// is the key of a pair, and its value is that of its last pair.
#[verifier::spinoff_prover]
#[verifier::rlimit(40)]
pub proof fn law_collected_has_the_last_values(pairs: Seq<(Seq<char>, Seq<char>)>, i: int, k: int)
    requires
        0 <= i < pairs.len(),
        forall|j: int| i < j < pairs.len() ==> (#[trigger] pairs[j]).0 != pairs[i].0,
        0 <= k < collected(pairs).len(),
    ensures
        collected(pairs).contains(pairs[i]),
        exists|j: int|
            {
                &&& 0 <= j < pairs.len()
                &&& #[trigger] pairs[j] == collected(pairs)[k]
                &&& forall|m: int| j < m < pairs.len() ==> (#[trigger] pairs[m]).0 != pairs[j].0
            },
        forall|a: int, b: int|
            0 <= a < b < collected(pairs).len() ==> order::text_lt(
                (#[trigger] collected(pairs)[a]).0,
                (#[trigger] collected(pairs)[b]).0,
            ),
{
    let c = collected(pairs);
    law_collected_is_the_map(pairs);
    lemma_entry_has_a_pair(c, pairs, i);
    let m = choose|m: int| 0 <= m < c.len() && #[trigger] c[m] == pairs[i];
    assert(c.contains(pairs[i]));
    lemma_ascending_last(c, k);
    lemma_entry_has_a_pair(pairs, c, k);
    let w = choose|w: int| 0 <= w < pairs.len() && #[trigger] pairs[w] == c[k] && (forall|n: int|
        w < n < pairs.len() ==> (#[trigger] pairs[n]).0 != pairs[w].0);
    assert(pairs[w] == c[k]);
}

/// An entry that counts in one sequence is one that counts in any other that stands for the same map.
proof fn lemma_entry_has_a_pair(
    a: Seq<(Seq<char>, Seq<char>)>,
    b: Seq<(Seq<char>, Seq<char>)>,
    k: int,
)
    requires
        map_of(a) == map_of(b),
        0 <= k < b.len(),
        forall|j: int| k < j < b.len() ==> (#[trigger] b[j]).0 != b[k].0,
    ensures
        exists|w: int|
            0 <= w < a.len() && #[trigger] a[w] == b[k] && (forall|n: int|
                w < n < a.len() ==> (#[trigger] a[n]).0 != a[w].0),
{
    let key = b[k].0;
    law_map_has_the_last_value(b, k);
    if forall|i: int| 0 <= i < a.len() ==> (#[trigger] a[i]).0 != key {
        law_map_has_no_other_key(a, key);
    }
    let w = lemma_last_pair(a, key);
    law_map_has_the_last_value(a, w);
    assert(a[w] == b[k]);
}

/// Behind an entry of ascending entries its key does not occur again.
proof fn lemma_ascending_last(s: Seq<(Seq<char>, Seq<char>)>, i: int)
    requires
        ascending_keys(s),
        0 <= i < s.len(),
    ensures
        forall|j: int| i < j < s.len() ==> (#[trigger] s[j]).0 != s[i].0,
{
    assert forall|j: int| i < j < s.len() implies (#[trigger] s[j]).0 != s[i].0 by {
        assert(order::text_lt(s[i].0, s[j].0));
        order::law_text_order_is_total(s[i].0, s[i].0, s[i].0);
    }
}

/// The last pair with a key that occurs.
proof fn lemma_last_pair(s: Seq<(Seq<char>, Seq<char>)>, key: Seq<char>) -> (i: int)
    requires
        exists|i: int| 0 <= i < s.len() && (#[trigger] s[i]).0 == key,
    ensures
        0 <= i < s.len(),
        s[i].0 == key,
        forall|j: int| i < j < s.len() ==> (#[trigger] s[j]).0 != key,
    decreases s.len(),
{
    let last = s.len() - 1;
    if s[last].0 == key {
        last
    } else {
        let head = s.drop_last();
        let w = choose|i: int| 0 <= i < s.len() && (#[trigger] s[i]).0 == key;
        assert(head[w].0 == key);
        let i = lemma_last_pair(head, key);
        assert forall|j: int| i < j < s.len() implies (#[trigger] s[j]).0 != key by {
            if j < last {
                assert(head[j].0 != key);
            }
        }
        i
    }
}

} // verus!
