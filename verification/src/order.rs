//! The order of texts, and what is sorted by it: stable sorting by path, and sets in ascending order.
use vstd::prelude::*;
use vstd::utf8::*;
use crate::text;
use crate::text::text_equal;

verus! {

// ---------------------------------------------------------------------------------------------
// The order
// ---------------------------------------------------------------------------------------------

/// The lexicographic order of byte strings: at the first place where they differ the smaller byte
/// comes first, and a proper prefix comes before what it is a prefix of.
pub open spec fn lex_lt(a: Seq<u8>, b: Seq<u8>) -> bool
    decreases a.len(),
{
    if b.len() == 0 {
        false
    } else if a.len() == 0 {
        true
    } else if a[0] != b[0] {
        a[0] < b[0]
    } else {
        lex_lt(a.drop_first(), b.drop_first())
    }
}

/// The order of texts: that of their UTF-8 bytes.
pub open spec fn text_lt(a: Seq<char>, b: Seq<char>) -> bool {
    lex_lt(encode_utf8(a), encode_utf8(b))
}

proof fn lemma_lex_irreflexive(a: Seq<u8>)
    ensures
        !lex_lt(a, a),
    decreases a.len(),
{
    if a.len() > 0 {
        lemma_lex_irreflexive(a.drop_first());
    }
}

proof fn lemma_lex_transitive(a: Seq<u8>, b: Seq<u8>, c: Seq<u8>)
    requires
        lex_lt(a, b),
        lex_lt(b, c),
    ensures
        lex_lt(a, c),
    decreases a.len(),
{
    if a.len() > 0 && a[0] == b[0] && b[0] == c[0] {
        lemma_lex_transitive(a.drop_first(), b.drop_first(), c.drop_first());
    }
}

proof fn lemma_lex_total(a: Seq<u8>, b: Seq<u8>)
    ensures
        lex_lt(a, b) || lex_lt(b, a) || a == b,
    decreases a.len(),
{
    if a.len() == 0 || b.len() == 0 {
        if a.len() == b.len() {
            assert(a =~= b);
        }
    } else if a[0] == b[0] {
        lemma_lex_total(a.drop_first(), b.drop_first());
        if a.drop_first() == b.drop_first() {
            assert(a =~= seq![a[0]] + a.drop_first());
            assert(b =~= seq![b[0]] + b.drop_first());
        }
    }
}

/// The order of texts is a strict total order: no text comes before itself, the order is
/// transitive, and of two different texts one comes before the other.
pub proof fn law_text_order_is_total(a: Seq<char>, b: Seq<char>, c: Seq<char>)
    ensures
        !text_lt(a, a),
        text_lt(a, b) && text_lt(b, c) ==> text_lt(a, c),
        text_lt(a, b) || text_lt(b, a) || a == b,
        !(text_lt(a, b) && text_lt(b, a)),
{
    lemma_lex_irreflexive(encode_utf8(a));
    lemma_lex_total(encode_utf8(a), encode_utf8(b));
    if encode_utf8(a) == encode_utf8(b) {
        text::lemma_utf8_injective(a, b);
    }
    if text_lt(a, b) && text_lt(b, c) {
        lemma_lex_transitive(encode_utf8(a), encode_utf8(b), encode_utf8(c));
    }
    if text_lt(a, b) && text_lt(b, a) {
        lemma_lex_transitive(encode_utf8(a), encode_utf8(b), encode_utf8(a));
    }
}

proof fn lemma_lex_after_prefix(a: Seq<u8>, b: Seq<u8>, n: int)
    requires
        0 <= n <= a.len(),
        n <= b.len(),
        forall|j: int| 0 <= j < n ==> a[j] == b[j],
    ensures
        lex_lt(a, b) == lex_lt(a.skip(n), b.skip(n)),
    decreases n,
{
    if n == 0 {
        assert(a.skip(0) =~= a);
        assert(b.skip(0) =~= b);
    } else {
        assert(a[0] == b[0]);
        lemma_lex_after_prefix(a.drop_first(), b.drop_first(), n - 1);
        assert(a.drop_first().skip(n - 1) =~= a.skip(n));
        assert(b.drop_first().skip(n - 1) =~= b.skip(n));
    }
}

/// Whether one byte string comes before another.
pub fn bytes_less(a: &[u8], b: &[u8]) -> (r: bool)
    ensures
        r == lex_lt(a@, b@),
{
    let mut i: usize = 0;
    while i < a.len() && i < b.len()
        invariant
            i <= a@.len(),
            i <= b@.len(),
            forall|j: int| 0 <= j < i ==> a@[j] == b@[j],
        decreases a@.len() - i,
    {
        if a[i] != b[i] {
            proof {
                lemma_lex_after_prefix(a@, b@, i as int);
            }
            return a[i] < b[i];
        }
        i = i + 1;
    }
    proof {
        lemma_lex_after_prefix(a@, b@, i as int);
    }
    i < b.len()
}

/// Whether one text comes before another.
pub fn text_less(a: &str, b: &str) -> (r: bool)
    ensures
        r == text_lt(a@, b@),
{
    bytes_less(a.as_bytes(), b.as_bytes())
}

// ---------------------------------------------------------------------------------------------
// Stable sorting by path
// ---------------------------------------------------------------------------------------------

/// A model value that has a path.
pub trait HasPath: Sized {
    /// The path of the value.
    spec fn path_of(self) -> Seq<char>;
}

/// An executable value whose model has a path.
pub trait Pathed: View where Self::V: HasPath {
    /// The path of the value, as a text.
    fn path_text(&self) -> (r: &str)
        ensures
            r@ == self@.path_of(),
    ;
}

/// The models of a sequence of values.
pub open spec fn views<T: View>(s: Seq<T>) -> Seq<T::V> {
    s.map_values(|t: T| t@)
}

/// The entries with one path, in their order.
pub open spec fn with_path<V: HasPath>(s: Seq<V>, path: Seq<char>) -> Seq<V> {
    s.filter(|v: V| v.path_of() == path)
}

/// No entry comes after one with a greater path.
pub open spec fn sorted_by_path<V: HasPath>(s: Seq<V>) -> bool {
    forall|i: int, j: int|
        0 <= i < j < s.len() ==> !text_lt(#[trigger] s[j].path_of(), #[trigger] s[i].path_of())
}

/// `output` is `input` sorted by path, entries with one path kept in their order.
pub open spec fn stable_sort_of<V: HasPath>(input: Seq<V>, output: Seq<V>) -> bool {
    &&& sorted_by_path(output)
    &&& output.len() == input.len()
    &&& forall|path: Seq<char>| #[trigger] with_path(output, path) == with_path(input, path)
}

/// No two entries have one path.
pub open spec fn distinct_paths<V: HasPath>(s: Seq<V>) -> bool {
    forall|i: int, j: int|
        0 <= i < j < s.len() ==> #[trigger] s[i].path_of() != #[trigger] s[j].path_of()
}

proof fn lemma_with_path_concat<V: HasPath>(a: Seq<V>, b: Seq<V>, path: Seq<char>)
    ensures
        with_path(a + b, path) == with_path(a, path) + with_path(b, path),
{
    Seq::filter_distributes_over_add(a, b, |v: V| v.path_of() == path);
}

proof fn lemma_with_path_one<V: HasPath>(v: V, path: Seq<char>)
    ensures
        with_path(seq![v], path) == if v.path_of() == path {
            seq![v]
        } else {
            Seq::<V>::empty()
        },
{
    reveal(Seq::filter);
    assert(seq![v].drop_last() =~= Seq::<V>::empty());
    assert(with_path(Seq::<V>::empty(), path) =~= Seq::<V>::empty());
    assert(with_path(seq![v], path) =~= if v.path_of() == path {
        seq![v]
    } else {
        Seq::<V>::empty()
    });
}

proof fn lemma_with_path_none<V: HasPath>(s: Seq<V>, path: Seq<char>)
    requires
        forall|i: int| 0 <= i < s.len() ==> #[trigger] s[i].path_of() != path,
    ensures
        with_path(s, path) == Seq::<V>::empty(),
    decreases s.len(),
{
    reveal(Seq::filter);
    if s.len() > 0 {
        lemma_with_path_none(s.drop_last(), path);
        assert(s.last() == s[s.len() - 1]);
    }
    assert(with_path(s, path) =~= Seq::<V>::empty());
}

proof fn lemma_with_path_some<V: HasPath>(s: Seq<V>, i: int)
    requires
        0 <= i < s.len(),
    ensures
        with_path(s, s[i].path_of()).len() > 0,
    decreases s.len(),
{
    reveal(Seq::filter);
    if i < s.len() - 1 {
        assert(s.drop_last()[i] == s[i]);
        lemma_with_path_some(s.drop_last(), i);
    }
}

/// Putting an entry behind all those whose path is not greater, and in front of all others, keeps
/// the order of the entries with one path.
proof fn lemma_insert_keeps_classes<V: HasPath>(s: Seq<V>, at: int, v: V)
    requires
        0 <= at <= s.len(),
        forall|j: int| at <= j < s.len() ==> text_lt(v.path_of(), #[trigger] s[j].path_of()),
    ensures
        forall|path: Seq<char>| #[trigger]
            with_path(s.insert(at, v), path) == with_path(s.push(v), path),
{
    assert forall|path: Seq<char>| #[trigger]
        with_path(s.insert(at, v), path) == with_path(s.push(v), path) by {
        let front = s.take(at);
        let back = s.skip(at);
        assert(s.insert(at, v) =~= (front + seq![v]) + back);
        assert(s.push(v) =~= (front + back) + seq![v]);
        lemma_with_path_concat(front + seq![v], back, path);
        lemma_with_path_concat(front, seq![v], path);
        lemma_with_path_concat(front + back, seq![v], path);
        lemma_with_path_concat(front, back, path);
        lemma_with_path_one(v, path);
        if v.path_of() == path {
            assert forall|j: int| 0 <= j < back.len() implies #[trigger] back[j].path_of()
                != path by {
                assert(back[j] == s[at + j]);
                law_text_order_is_total(path, path, path);
            }
            lemma_with_path_none(back, path);
            assert(with_path(s.insert(at, v), path) =~= with_path(s.push(v), path));
        } else {
            assert(with_path(s.insert(at, v), path) =~= with_path(s.push(v), path));
        }
    }
}

/// Inserts an entry behind all those whose path is not greater.
fn insert_by_path<T: Pathed>(sorted: &mut Vec<T>, item: T) where T::V: HasPath
    requires
        sorted_by_path(views(old(sorted)@)),
    ensures
        sorted_by_path(views(final(sorted)@)),
        final(sorted)@.len() == old(sorted)@.len() + 1,
        forall|path: Seq<char>| #[trigger]
            with_path(views(final(sorted)@), path) == with_path(
                views(old(sorted)@).push(item@),
                path,
            ),
{
    let ghost before = views(sorted@);
    let ghost v = item@;
    let mut at: usize = sorted.len();
    while at > 0 && text_less(item.path_text(), sorted[at - 1].path_text())
        invariant
            at <= sorted@.len(),
            v == item@,
            before == views(sorted@),
            forall|j: int|
                at <= j < before.len() ==> text_lt(v.path_of(), #[trigger] before[j].path_of()),
        decreases at,
    {
        assert(before[at - 1] == sorted@[at - 1]@);
        at = at - 1;
    }
    assert(at > 0 ==> before[at - 1] == sorted@[at - 1]@);
    sorted.insert(at, item);
    let ghost after = views(sorted@);
    assert(after =~= before.insert(at as int, v));
    proof {
        lemma_insert_keeps_classes(before, at as int, v);
        assert forall|i: int, j: int| 0 <= i < j < after.len() implies !text_lt(
            #[trigger] after[j].path_of(),
            #[trigger] after[i].path_of(),
        ) by {
            if j < at {
                assert(after[i] == before[i] && after[j] == before[j]);
            } else if i > at {
                assert(after[i] == before[i - 1] && after[j] == before[j - 1]);
            } else if i == at {
                assert(after[j] == before[j - 1]);
                law_text_order_is_total(v.path_of(), before[j - 1].path_of(), v.path_of());
            } else if j == at {
                assert(after[i] == before[i]);
                assert(before[at - 1].path_of() == before[at - 1].path_of());
                if i < at - 1 {
                    assert(!text_lt(before[at - 1].path_of(), before[i].path_of()));
                }
                law_text_order_is_total(v.path_of(), before[i].path_of(), before[at - 1].path_of());
                law_text_order_is_total(
                    before[i].path_of(),
                    before[at - 1].path_of(),
                    v.path_of(),
                );
                law_text_order_is_total(v.path_of(), before[at - 1].path_of(), v.path_of());
            } else {
                assert(after[i] == before[i] && after[j] == before[j - 1]);
                assert(before[i].path_of() == before[i].path_of());
                if i != j - 1 {
                    assert(!text_lt(before[j - 1].path_of(), before[i].path_of()));
                }
                law_text_order_is_total(before[i].path_of(), before[i].path_of(), v.path_of());
            }
        }
    }
}

/// Sorts entries by path; entries with one path keep their order.
pub fn sort_by_path<T: Pathed>(items: Vec<T>) -> (r: Vec<T>) where T::V: HasPath
    ensures
        stable_sort_of(views(items@), views(r@)),
{
    let ghost all = views(items@);
    let mut sorted: Vec<T> = Vec::new();
    let mut rest = items;
    let mut reversed: Vec<T> = Vec::new();
    while rest.len() > 0
        invariant
            rest@.len() + reversed@.len() == all.len(),
            forall|j: int| 0 <= j < rest@.len() ==> #[trigger] rest@[j]@ == all[j],
            forall|j: int|
                0 <= j < reversed@.len() ==> #[trigger] reversed@[j]@ == all[all.len() - 1 - j],
        decreases rest@.len(),
    {
        match rest.pop() {
            Some(item) => {
                reversed.push(item);
            },
            None => {},
        }
    }
    assert(views(sorted@) =~= all.take(0));
    while reversed.len() > 0
        invariant
            sorted@.len() + reversed@.len() == all.len(),
            sorted_by_path(views(sorted@)),
            forall|j: int|
                0 <= j < reversed@.len() ==> #[trigger] reversed@[j]@ == all[all.len() - 1 - j],
            forall|path: Seq<char>| #[trigger]
                with_path(views(sorted@), path) == with_path(
                    all.take(sorted@.len() as int),
                    path,
                ),
        decreases reversed@.len(),
    {
        let ghost n = sorted@.len() as int;
        let ghost before = views(sorted@);
        match reversed.pop() {
            Some(item) => {
                assert(item@ == all[n]);
                insert_by_path(&mut sorted, item);
                assert forall|path: Seq<char>| #[trigger]
                    with_path(views(sorted@), path) == with_path(all.take(n + 1), path) by {
                    assert(all.take(n + 1) =~= all.take(n) + seq![all[n]]);
                    assert(before.push(all[n]) =~= before + seq![all[n]]);
                    lemma_with_path_concat(all.take(n), seq![all[n]], path);
                    lemma_with_path_concat(before, seq![all[n]], path);
                    assert(with_path(before, path) == with_path(all.take(n), path));
                }
            },
            None => {},
        }
    }
    assert(all.take(all.len() as int) =~= all);
    sorted
}

/// Stable sorting has one result: two sorted sequences that hold, for each path, the same entries
/// in the same order are equal.
pub proof fn law_stable_sort_is_unique<V: HasPath>(a: Seq<V>, b: Seq<V>)
    requires
        sorted_by_path(a),
        sorted_by_path(b),
        forall|path: Seq<char>| #[trigger] with_path(a, path) == with_path(b, path),
    ensures
        a == b,
    decreases a.len(),
{
    if a.len() == 0 {
        if b.len() > 0 {
            lemma_with_path_some(b, 0);
            lemma_with_path_none(a, b[0].path_of());
        }
        assert(a =~= b);
    } else {
        let p = a.last().path_of();
        lemma_with_path_some(a, a.len() - 1);
        if b.len() == 0 {
            lemma_with_path_none(b, p);
            assert(false);
        }
        let q = b.last().path_of();
        lemma_with_path_some(b, b.len() - 1);
        assert(p == q) by {
            if p != q {
                // `q` occurs in `a` and `p` in `b`, so neither can come after the other.
                if forall|i: int| 0 <= i < a.len() ==> #[trigger] a[i].path_of() != q {
                    lemma_with_path_none(a, q);
                    assert(false);
                }
                if forall|i: int| 0 <= i < b.len() ==> #[trigger] b[i].path_of() != p {
                    lemma_with_path_none(b, p);
                    assert(false);
                }
                let i = choose|i: int| 0 <= i < a.len() && #[trigger] a[i].path_of() == q;
                let j = choose|j: int| 0 <= j < b.len() && #[trigger] b[j].path_of() == p;
                assert(i < a.len() - 1 && !text_lt(a[a.len() - 1].path_of(), a[i].path_of()));
                assert(j < b.len() - 1 && !text_lt(b[b.len() - 1].path_of(), b[j].path_of()));
                law_text_order_is_total(p, q, p);
            }
        }
        reveal(Seq::filter);
        assert(with_path(a, p).last() == a.last());
        assert(with_path(b, p).last() == b.last());
        assert(with_path(a, p) == with_path(b, p));
        assert(a.last() == b.last());
        let a1 = a.drop_last();
        let b1 = b.drop_last();
        assert forall|path: Seq<char>| #[trigger] with_path(a1, path) == with_path(b1, path) by {
            assert(a =~= a1 + seq![a.last()]);
            assert(b =~= b1 + seq![b.last()]);
            lemma_with_path_concat(a1, seq![a.last()], path);
            lemma_with_path_concat(b1, seq![b.last()], path);
            let t = with_path(seq![a.last()], path);
            assert(with_path(a, path) == with_path(b, path));
            assert(with_path(a1, path) + t == with_path(b1, path) + t);
            assert((with_path(a1, path) + t).len() == (with_path(b1, path) + t).len());
            assert((with_path(a1, path) + t).take(with_path(a1, path).len() as int) =~= with_path(
                a1,
                path,
            ));
            assert((with_path(b1, path) + t).take(with_path(b1, path).len() as int) =~= with_path(
                b1,
                path,
            ));
        }
        assert(sorted_by_path(a1)) by {
            assert forall|i: int, j: int| 0 <= i < j < a1.len() implies !text_lt(
                #[trigger] a1[j].path_of(),
                #[trigger] a1[i].path_of(),
            ) by {
                assert(!text_lt(a[j].path_of(), a[i].path_of()));
            }
        }
        assert(sorted_by_path(b1)) by {
            assert forall|i: int, j: int| 0 <= i < j < b1.len() implies !text_lt(
                #[trigger] b1[j].path_of(),
                #[trigger] b1[i].path_of(),
            ) by {
                assert(!text_lt(b[j].path_of(), b[i].path_of()));
            }
        }
        law_stable_sort_is_unique(a1, b1);
        assert(a =~= a1.push(a.last()));
        assert(b =~= b1.push(b.last()));
    }
}

proof fn lemma_distinct_with_path<V: HasPath>(s: Seq<V>, i: int)
    requires
        distinct_paths(s),
        0 <= i < s.len(),
    ensures
        with_path(s, s[i].path_of()) == seq![s[i]],
{
    let path = s[i].path_of();
    let front = s.take(i);
    let back = s.skip(i + 1);
    assert(s =~= (front + seq![s[i]]) + back);
    lemma_with_path_concat(front + seq![s[i]], back, path);
    lemma_with_path_concat(front, seq![s[i]], path);
    lemma_with_path_one(s[i], path);
    assert forall|j: int| 0 <= j < front.len() implies #[trigger] front[j].path_of() != path by {
        assert(s[j].path_of() != s[i].path_of());
    }
    assert forall|j: int| 0 <= j < back.len() implies #[trigger] back[j].path_of() != path by {
        assert(s[i].path_of() != s[i + 1 + j].path_of());
    }
    lemma_with_path_none(front, path);
    lemma_with_path_none(back, path);
    assert(with_path(s, path) =~= seq![s[i]]);
}

/// Sorting by path forgets the order of declaration: two lists that hold the same entries, no two
/// of them with one path, sort to one list.
pub proof fn law_sort_forgets_declaration_order<V: HasPath>(
    a: Seq<V>,
    b: Seq<V>,
    sorted_a: Seq<V>,
    sorted_b: Seq<V>,
)
    requires
        a.to_multiset() == b.to_multiset(),
        distinct_paths(a),
        distinct_paths(b),
        stable_sort_of(a, sorted_a),
        stable_sort_of(b, sorted_b),
    ensures
        sorted_a == sorted_b,
{
    broadcast use vstd::seq_lib::group_to_multiset_ensures;

    assert forall|path: Seq<char>| #[trigger]
        with_path(sorted_a, path) == with_path(sorted_b, path) by {
        assert(with_path(sorted_a, path) == with_path(a, path));
        assert(with_path(sorted_b, path) == with_path(b, path));
        if exists|i: int| 0 <= i < a.len() && #[trigger] a[i].path_of() == path {
            let i = choose|i: int| 0 <= i < a.len() && #[trigger] a[i].path_of() == path;
            lemma_distinct_with_path(a, i);
            assert(a.contains(a[i]));
            assert(b.to_multiset().count(a[i]) > 0);
            assert(b.contains(a[i]));
            let j = choose|j: int| 0 <= j < b.len() && b[j] == a[i];
            lemma_distinct_with_path(b, j);
        } else {
            lemma_with_path_none(a, path);
            if exists|j: int| 0 <= j < b.len() && #[trigger] b[j].path_of() == path {
                let j = choose|j: int| 0 <= j < b.len() && #[trigger] b[j].path_of() == path;
                assert(b.contains(b[j]));
                assert(a.to_multiset().count(b[j]) > 0);
                assert(a.contains(b[j]));
                let i = choose|i: int| 0 <= i < a.len() && a[i] == b[j];
                assert(a[i].path_of() == path);
            }
            lemma_with_path_none(b, path);
        }
    }
    law_stable_sort_is_unique(sorted_a, sorted_b);
}

// ---------------------------------------------------------------------------------------------
// Finding by path
// ---------------------------------------------------------------------------------------------

/// The first entry with the given path, if there is one.
pub open spec fn first_with_path<V: HasPath>(s: Seq<V>, path: Seq<char>) -> Option<V>
    decreases s.len(),
{
    if s.len() == 0 {
        None
    } else if s[0].path_of() == path {
        Some(s[0])
    } else {
        first_with_path(s.drop_first(), path)
    }
}

proof fn lemma_first_after_others<V: HasPath>(s: Seq<V>, path: Seq<char>, n: int)
    requires
        0 <= n <= s.len(),
        forall|j: int| 0 <= j < n ==> #[trigger] s[j].path_of() != path,
    ensures
        first_with_path(s, path) == first_with_path(s.skip(n), path),
    decreases n,
{
    if n == 0 {
        assert(s.skip(0) =~= s);
    } else {
        assert(s[0].path_of() != path);
        let tail = s.drop_first();
        assert forall|j: int| 0 <= j < n - 1 implies #[trigger] tail[j].path_of() != path by {
            assert(tail[j] == s[j + 1]);
        }
        lemma_first_after_others(tail, path, n - 1);
        assert(tail.skip(n - 1) =~= s.skip(n));
    }
}

/// The first entry with a path is the first of all entries with that path.
proof fn lemma_first_is_head<V: HasPath>(s: Seq<V>, path: Seq<char>)
    ensures
        first_with_path(s, path) == if with_path(s, path).len() == 0 {
            None
        } else {
            Some(with_path(s, path)[0])
        },
    decreases s.len(),
{
    if s.len() == 0 {
        lemma_with_path_none(s, path);
    } else {
        let tail = s.drop_first();
        assert(s =~= seq![s[0]] + tail);
        lemma_with_path_concat(seq![s[0]], tail, path);
        lemma_with_path_one(s[0], path);
        lemma_first_is_head(tail, path);
        if s[0].path_of() != path {
            assert(with_path(s, path) =~= with_path(tail, path));
        }
    }
}

/// Sorting by path does not change which entry is found by a path.
pub proof fn law_sort_keeps_what_is_found<V: HasPath>(input: Seq<V>, output: Seq<V>, path: Seq<char>)
    requires
        stable_sort_of(input, output),
    ensures
        first_with_path(output, path) == first_with_path(input, path),
{
    lemma_first_is_head(input, path);
    lemma_first_is_head(output, path);
    assert(with_path(output, path) == with_path(input, path));
}

/// The position of the first entry with the given path, if there is one.
pub fn find_by_path<T: Pathed>(items: &Vec<T>, path: &str) -> (r: Option<usize>) where T::V: HasPath
    ensures
        match r {
            Some(i) => {
                &&& i < items@.len()
                &&& first_with_path(views(items@), path@) == Some(items@[i as int]@)
            },
            None => first_with_path(views(items@), path@) is None,
        },
{
    let ghost all = views(items@);
    let n: usize = items.len();
    for i in 0..n
        invariant
            n == items@.len(),
            all == views(items@),
            forall|j: int| 0 <= j < i ==> #[trigger] all[j].path_of() != path@,
    {
        assert(all[i as int] == items@[i as int]@);
        if text_equal(items[i].path_text(), path) {
            proof {
                lemma_first_after_others(all, path@, i as int);
                assert(all.skip(i as int)[0] == all[i as int]);
            }
            return Some(i);
        }
    }
    proof {
        lemma_first_after_others(all, path@, n as int);
    }
    None
}

// ---------------------------------------------------------------------------------------------
// Sets of texts in ascending order
// ---------------------------------------------------------------------------------------------

/// Each text comes before the next one, so that none occurs twice.
pub open spec fn ascending(s: Seq<Seq<char>>) -> bool {
    forall|i: int, j: int| 0 <= i < j < s.len() ==> text_lt(#[trigger] s[i], #[trigger] s[j])
}

/// `output` is `input` sorted, each text kept once.
pub open spec fn sorted_set_of(input: Seq<Seq<char>>, output: Seq<Seq<char>>) -> bool {
    &&& ascending(output)
    &&& forall|t: Seq<char>| #[trigger] output.contains(t) <==> input.contains(t)
}

/// There is one way to list a set of texts in ascending order.
pub proof fn law_sorted_set_is_unique(a: Seq<Seq<char>>, b: Seq<Seq<char>>)
    requires
        ascending(a),
        ascending(b),
        forall|t: Seq<char>| #[trigger] a.contains(t) <==> b.contains(t),
    ensures
        a == b,
    decreases a.len(),
{
    if a.len() == 0 {
        if b.len() > 0 {
            assert(b.contains(b[0]));
            assert(a.contains(b[0]));
        }
        assert(a =~= b);
    } else {
        assert(a.contains(a.last()));
        assert(b.contains(a.last()));
        let j = choose|j: int| 0 <= j < b.len() && b[j] == a.last();
        assert(b.contains(b.last()));
        assert(a.contains(b.last()));
        let i = choose|i: int| 0 <= i < a.len() && a[i] == b.last();
        law_text_order_is_total(a.last(), b.last(), a.last());
        assert(a.last() == b.last());
        let a1 = a.drop_last();
        let b1 = b.drop_last();
        assert forall|t: Seq<char>| #[trigger] a1.contains(t) <==> b1.contains(t) by {
            if a1.contains(t) {
                let k = choose|k: int| 0 <= k < a1.len() && a1[k] == t;
                assert(a[k] == t && text_lt(a[k], a[a.len() - 1]));
                law_text_order_is_total(t, t, t);
                assert(a.contains(t));
                let m = choose|m: int| 0 <= m < b.len() && b[m] == t;
                assert(m < b1.len() && b1[m] == t);
            }
            if b1.contains(t) {
                let k = choose|k: int| 0 <= k < b1.len() && b1[k] == t;
                assert(b[k] == t && text_lt(b[k], b[b.len() - 1]));
                law_text_order_is_total(t, t, t);
                assert(b.contains(t));
                assert(a.contains(t));
                let m = choose|m: int| 0 <= m < a.len() && a[m] == t;
                assert(m < a1.len() && a1[m] == t);
            }
        }
        assert forall|i: int, j: int| 0 <= i < j < a1.len() implies text_lt(
            #[trigger] a1[i],
            #[trigger] a1[j],
        ) by {
            assert(text_lt(a[i], a[j]));
        }
        assert forall|i: int, j: int| 0 <= i < j < b1.len() implies text_lt(
            #[trigger] b1[i],
            #[trigger] b1[j],
        ) by {
            assert(text_lt(b[i], b[j]));
        }
        law_sorted_set_is_unique(a1, b1);
        assert(a =~= a1.push(a.last()));
        assert(b =~= b1.push(b.last()));
    }
}

/// Puts a text into an ascending list, where it is not there yet.
fn insert_text(set: &mut Vec<String>, t: String)
    requires
        ascending(text::texts(old(set)@)),
    ensures
        ascending(text::texts(final(set)@)),
        forall|u: Seq<char>| #[trigger]
            text::texts(final(set)@).contains(u) <==> (text::texts(old(set)@).contains(u) || u == t@),
{
    let ghost before = text::texts(set@);
    let ghost v = t@;
    let mut at: usize = set.len();
    while at > 0 && text_less(t.as_str(), set[at - 1].as_str())
        invariant
            at <= set@.len(),
            v == t@,
            before == text::texts(set@),
            forall|j: int| at <= j < before.len() ==> text_lt(v, #[trigger] before[j]),
        decreases at,
    {
        assert(before[at - 1] == set@[at - 1]@);
        at = at - 1;
    }
    if at > 0 && !text_less(set[at - 1].as_str(), t.as_str()) {
        proof {
            assert(before[at - 1] == set@[at - 1]@);
            law_text_order_is_total(v, before[at - 1], v);
            assert(before.contains(v));
        }
        return;
    }
    assert(at > 0 ==> text_lt(before[at - 1], v)) by {
        if at > 0 {
            assert(before[at - 1] == set@[at - 1]@);
        }
    }
    set.insert(at, t);
    let ghost after = text::texts(set@);
    assert(after =~= before.insert(at as int, v));
    proof {
        assert forall|i: int, j: int| 0 <= i < j < after.len() implies text_lt(
            #[trigger] after[i],
            #[trigger] after[j],
        ) by {
            if j < at {
                assert(after[i] == before[i] && after[j] == before[j]);
            } else if i > at {
                assert(after[i] == before[i - 1] && after[j] == before[j - 1]);
            } else if i == at {
                assert(after[j] == before[j - 1]);
            } else if j == at {
                assert(after[i] == before[i]);
                if i < at - 1 {
                    assert(text_lt(before[i], before[at - 1]));
                    law_text_order_is_total(before[i], before[at - 1], v);
                }
            } else {
                assert(after[i] == before[i] && after[j] == before[j - 1]);
                if i < j - 1 {
                    assert(text_lt(before[i], before[j - 1]));
                } else {
                    assert(false);
                }
            }
        }
        assert forall|u: Seq<char>| #[trigger] after.contains(u) <==> (before.contains(u) || u
            == v) by {
            if before.contains(u) {
                let k = choose|k: int| 0 <= k < before.len() && before[k] == u;
                assert(after[if k < at { k } else { k + 1 }] == u);
            }
            if u == v {
                assert(after[at as int] == u);
            }
            if after.contains(u) {
                let k = choose|k: int| 0 <= k < after.len() && after[k] == u;
                if k < at {
                    assert(before[k] == u);
                } else if k > at {
                    assert(before[k - 1] == u);
                }
            }
        }
    }
}

/// Sorts a list of texts and keeps each of them once.
pub fn sorted_set(list: Vec<String>) -> (r: Vec<String>)
    ensures
        sorted_set_of(text::texts(list@), text::texts(r@)),
{
    let ghost all = text::texts(list@);
    let mut set: Vec<String> = Vec::new();
    let mut rest = list;
    while rest.len() > 0
        invariant
            rest@.len() <= all.len(),
            forall|j: int| 0 <= j < rest@.len() ==> #[trigger] rest@[j]@ == all[j],
            ascending(text::texts(set@)),
            forall|t: Seq<char>| #[trigger]
                text::texts(set@).contains(t) <==> all.skip(rest@.len() as int).contains(t),
        decreases rest@.len(),
    {
        let ghost n = rest@.len() as int;
        match rest.pop() {
            Some(t) => {
                assert(t@ == all[n - 1]);
                insert_text(&mut set, t);
                assert forall|u: Seq<char>| #[trigger]
                    text::texts(set@).contains(u) <==> all.skip(n - 1).contains(u) by {
                    let rest1 = all.skip(n - 1);
                    if all.skip(n).contains(u) {
                        let k = choose|k: int| 0 <= k < all.skip(n).len() && all.skip(n)[k] == u;
                        assert(rest1[k + 1] == u);
                    }
                    if u == all[n - 1] {
                        assert(rest1[0] == u);
                    }
                    if rest1.contains(u) {
                        let k = choose|k: int| 0 <= k < rest1.len() && rest1[k] == u;
                        if k > 0 {
                            assert(all.skip(n)[k - 1] == u);
                        }
                    }
                }
            },
            None => {},
        }
    }
    assert(all.skip(0) =~= all);
    set
}

// ---------------------------------------------------------------------------------------------
// Laws in terms of positions
// ---------------------------------------------------------------------------------------------

/// The models of a list are those of its values, one by one.
pub proof fn law_views_are_element_wise<T: View>(s: Seq<T>)
    ensures
        views(s).len() == s.len(),
        forall|i: int| 0 <= i < s.len() ==> #[trigger] views(s)[i] == s[i]@,
{
}

proof fn lemma_lex_decides(a: Seq<u8>, b: Seq<u8>) -> (i: int)
    requires
        lex_lt(a, b),
    ensures
        0 <= i <= a.len(),
        i < b.len(),
        forall|j: int| 0 <= j < i ==> a[j] == b[j],
        i == a.len() || a[i] < b[i],
    decreases a.len(),
{
    if a.len() == 0 || a[0] != b[0] {
        0
    } else {
        let i = lemma_lex_decides(a.drop_first(), b.drop_first());
        assert forall|j: int| 0 <= j < i + 1 implies a[j] == b[j] by {
            if j > 0 {
                assert(a.drop_first()[j - 1] == b.drop_first()[j - 1]);
            }
        }
        i + 1
    }
}

/// One text comes before another if and only if the UTF-8 bytes of both agree up to some place where
/// the first one ends and the second does not, or the first one has the smaller byte.
pub proof fn law_text_order_is_that_of_bytes(a: Seq<char>, b: Seq<char>)
    ensures
        text_lt(a, b) <==> exists|i: int|
            {
                &&& 0 <= i <= encode_utf8(a).len()
                &&& i < encode_utf8(b).len()
                &&& encode_utf8(a).take(i) == #[trigger] encode_utf8(b).take(i)
                &&& i == encode_utf8(a).len() || encode_utf8(a)[i] < encode_utf8(b)[i]
            },
{
    let x = encode_utf8(a);
    let y = encode_utf8(b);
    if lex_lt(x, y) {
        let i = lemma_lex_decides(x, y);
        assert(x.take(i) =~= y.take(i));
    }
    if exists|i: int|
        {
            &&& 0 <= i <= x.len()
            &&& i < y.len()
            &&& x.take(i) == #[trigger] y.take(i)
            &&& i == x.len() || x[i] < y[i]
        } {
        let i = choose|i: int|
            {
                &&& 0 <= i <= x.len()
                &&& i < y.len()
                &&& x.take(i) == #[trigger] y.take(i)
                &&& i == x.len() || x[i] < y[i]
            };
        assert forall|j: int| 0 <= j < i implies x[j] == y[j] by {
            assert(x.take(i)[j] == y.take(i)[j]);
        }
        lemma_lex_after_prefix(x, y, i);
    }
}

/// What is found by a path is the entry at the first position with that path, and nothing is found
/// exactly where no entry has it.
pub proof fn law_first_with_path_is_the_first<V: HasPath>(s: Seq<V>, path: Seq<char>)
    ensures
        match first_with_path(s, path) {
            Some(x) => exists|i: int|
                {
                    &&& 0 <= i < s.len()
                    &&& #[trigger] s[i] == x
                    &&& x.path_of() == path
                    &&& forall|j: int| 0 <= j < i ==> (#[trigger] s[j]).path_of() != path
                },
            None => forall|j: int| 0 <= j < s.len() ==> (#[trigger] s[j]).path_of() != path,
        },
    decreases s.len(),
{
    if s.len() > 0 {
        let tail = s.drop_first();
        law_first_with_path_is_the_first(tail, path);
        if s[0].path_of() == path {
            assert(s[0] == s[0]);
        } else {
            match first_with_path(tail, path) {
                Some(x) => {
                    let i = choose|i: int|
                        {
                            &&& 0 <= i < tail.len()
                            &&& #[trigger] tail[i] == x
                            &&& x.path_of() == path
                            &&& forall|j: int| 0 <= j < i ==> (#[trigger] tail[j]).path_of() != path
                        };
                    assert(s[i + 1] == x);
                    assert forall|j: int| 0 <= j < i + 1 implies (#[trigger] s[j]).path_of()
                        != path by {
                        if j > 0 {
                            assert(tail[j - 1].path_of() != path);
                        }
                    }
                },
                None => {
                    assert forall|j: int| 0 <= j < s.len() implies (#[trigger] s[j]).path_of()
                        != path by {
                        if j > 0 {
                            assert(tail[j - 1].path_of() != path);
                        }
                    }
                },
            }
        }
    }
}

proof fn lemma_with_path_count<V: HasPath>(s: Seq<V>, v: V)
    ensures
        with_path(s, v.path_of()).to_multiset().count(v) == s.to_multiset().count(v),
    decreases s.len(),
{
    broadcast use vstd::seq_lib::group_to_multiset_ensures;

    let p = v.path_of();
    if s.len() == 0 {
        lemma_with_path_none(s, p);
    } else {
        let head = s.drop_last();
        lemma_with_path_count(head, v);
        assert(s =~= head + seq![s.last()]);
        assert(s =~= head.push(s.last()));
        lemma_with_path_concat(head, seq![s.last()], p);
        lemma_with_path_one(s.last(), p);
        if s.last().path_of() == p {
            assert(with_path(s, p) =~= with_path(head, p).push(s.last()));
        } else {
            assert(with_path(s, p) =~= with_path(head, p));
        }
    }
}

/// Sorting by path loses nothing and adds nothing: the same entries come out, none after one with a
/// greater path, and those with one path in the order in which they went in.
pub proof fn law_sorting_is_a_stable_permutation<V: HasPath>(
    input: Seq<V>,
    output: Seq<V>,
    path: Seq<char>,
    has_path: spec_fn(V) -> bool,
)
    requires
        stable_sort_of(input, output),
        forall|v: V| #[trigger] has_path(v) <==> v.path_of() == path,
    ensures
        output.len() == input.len(),
        output.to_multiset() == input.to_multiset(),
        forall|i: int, j: int|
            0 <= i < j < output.len() ==> !text_lt(
                (#[trigger] output[j]).path_of(),
                (#[trigger] output[i]).path_of(),
            ),
        output.filter(has_path) == input.filter(has_path),
{
    assert forall|v: V| #[trigger] output.to_multiset().count(v) == input.to_multiset().count(v) by {
        lemma_with_path_count(input, v);
        lemma_with_path_count(output, v);
        assert(with_path(output, v.path_of()) == with_path(input, v.path_of()));
    }
    assert(output.to_multiset() =~= input.to_multiset());
    lemma_with_path_is_filter(input, path, has_path);
    lemma_with_path_is_filter(output, path, has_path);
    assert(with_path(output, path) == with_path(input, path));
}

proof fn lemma_with_path_is_filter<V: HasPath>(
    s: Seq<V>,
    path: Seq<char>,
    has_path: spec_fn(V) -> bool,
)
    requires
        forall|v: V| #[trigger] has_path(v) <==> v.path_of() == path,
    ensures
        s.filter(has_path) == with_path(s, path),
    decreases s.len(),
{
    reveal(Seq::filter);
    if s.len() > 0 {
        let head = s.drop_last();
        lemma_with_path_is_filter(head, path, has_path);
        assert(s =~= head + seq![s.last()]);
        lemma_with_path_concat(head, seq![s.last()], path);
        lemma_with_path_one(s.last(), path);
        assert(has_path(s.last()) <==> s.last().path_of() == path);
    } else {
        lemma_with_path_none(s, path);
    }
    assert(s.filter(has_path) =~= with_path(s, path));
}

/// A sorted set holds what the list holds, each text once and in ascending order.
pub proof fn law_sorted_set_keeps_every_text(input: Seq<Seq<char>>, output: Seq<Seq<char>>)
    requires
        sorted_set_of(input, output),
    ensures
        output.to_set() == input.to_set(),
        output.no_duplicates(),
        forall|i: int, j: int|
            0 <= i < j < output.len() ==> text_lt(#[trigger] output[i], #[trigger] output[j]),
{
    assert(output.to_set() =~= input.to_set()) by {
        assert forall|t: Seq<char>| #[trigger] output.to_set().contains(t) <==> input.to_set().contains(
            t,
        ) by {
            assert(output.contains(t) <==> input.contains(t));
        }
    }
    assert forall|i: int, j: int| 0 <= i < output.len() && 0 <= j < output.len() && i != j implies output[
    i] != output[j] by {
        law_text_order_is_total(output[i], output[i], output[i]);
        if i < j {
            assert(text_lt(output[i], output[j]));
        } else {
            assert(text_lt(output[j], output[i]));
        }
    }
}

} // verus!
