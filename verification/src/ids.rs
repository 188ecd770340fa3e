//! Identifier types for machines, states and arrows, and the lexicographic
//! order on their underlying strings.
//!
//! All three identifiers are thin wrappers over path-like strings joined with
//! `/`.  Collections of states and arrows are kept sorted by the code-point
//! lexicographic order of these strings, which `lex_le` defines at the
//! specification level and `str_le` decides executably.

use vstd::prelude::*;
use vstd::string::*;

verus! {

/// Identifier of a machine: the first path segment of a file's location
/// relative to the compile root, or `default` for files directly under it.
#[derive(Clone, Debug, PartialEq, Eq, PartialOrd, Ord, Hash)]
pub struct MachineId(pub String);

/// Hierarchical identifier of a state, using `/` as a path separator.
#[derive(Clone, Debug, PartialEq, Eq, PartialOrd, Ord, Hash)]
pub struct StateId(pub String);

/// Label distinguishing an arrow within its owning state.
#[derive(Clone, Debug, PartialEq, Eq, PartialOrd, Ord, Hash)]
pub struct ArrowId(pub String);

impl View for MachineId {
    type V = Seq<char>;

    open spec fn view(&self) -> Seq<char> {
        self.0@
    }
}

impl View for StateId {
    type V = Seq<char>;

    open spec fn view(&self) -> Seq<char> {
        self.0@
    }
}

impl View for ArrowId {
    type V = Seq<char>;

    open spec fn view(&self) -> Seq<char> {
        self.0@
    }
}

/// Code-point lexicographic order on character sequences: `a` comes no later
/// than `b`.  For UTF-8 encoded strings this order agrees with the byte-wise
/// order that `String`'s derived `Ord` uses.
pub open spec fn lex_le(a: Seq<char>, b: Seq<char>) -> bool
    decreases a.len(),
{
    if a.len() == 0 {
        true
    } else if b.len() == 0 {
        false
    } else if a[0] < b[0] {
        true
    } else if b[0] < a[0] {
        false
    } else {
        lex_le(a.drop_first(), b.drop_first())
    }
}

/// Where a sequence already sorted by `key` receives one more element: the
/// element goes after every entry whose key is `lex_le` its key, so that
/// entries with equal keys keep their original relative order.
pub open spec fn insert_le<T>(s: Seq<T>, x: T, key: spec_fn(T) -> Seq<char>) -> Seq<T>
    decreases s.len(),
{
    if s.len() == 0 {
        seq![x]
    } else if lex_le(key(s.last()), key(x)) {
        s.push(x)
    } else {
        insert_le(s.drop_last(), x, key).push(s.last())
    }
}

/// Stable insertion sort by `key` under `lex_le`.
pub open spec fn sort_le<T>(s: Seq<T>, key: spec_fn(T) -> Seq<char>) -> Seq<T>
    decreases s.len(),
{
    if s.len() == 0 {
        Seq::empty()
    } else {
        insert_le(sort_le(s.drop_last(), key), s.last(), key)
    }
}

/// `insert_le` places the new element exactly at the first position, counted
/// from the right, whose left neighbour's key is `lex_le` the new key.
pub proof fn lemma_insert_le_at<T>(s: Seq<T>, x: T, key: spec_fn(T) -> Seq<char>, j: int)
    requires
        0 <= j <= s.len(),
        forall|k: int| j <= k < s.len() ==> !lex_le(key(#[trigger] s[k]), key(x)),
        j > 0 ==> lex_le(key(s[j - 1]), key(x)),
    ensures
        insert_le(s, x, key) == s.subrange(0, j) + seq![x] + s.subrange(j, s.len() as int),
    decreases s.len(),
{
    if j == s.len() {
        if s.len() == 0 {
            assert(insert_le(s, x, key) =~= s.subrange(0, j) + seq![x] + s.subrange(j, s.len() as int));
        } else {
            assert(lex_le(key(s.last()), key(x)));
            assert(s.push(x) =~= s.subrange(0, j) + seq![x] + s.subrange(j, s.len() as int));
        }
    } else {
        assert(!lex_le(key(s[s.len() - 1]), key(x)));
        lemma_insert_le_at(s.drop_last(), x, key, j);
        assert(s.drop_last().subrange(0, j) =~= s.subrange(0, j));
        assert(s.drop_last().subrange(j, s.len() - 1) =~= s.subrange(j, s.len() - 1));
        assert((s.subrange(0, j) + seq![x] + s.subrange(j, s.len() - 1)).push(s.last()) =~= s.subrange(
            0,
            j,
        ) + seq![x] + s.subrange(j, s.len() as int));
    }
}

/// Appending an element and then sorting is inserting it into the sorted rest.
pub proof fn lemma_sort_le_push<T>(s: Seq<T>, x: T, key: spec_fn(T) -> Seq<char>)
    ensures
        sort_le(s.push(x), key) == insert_le(sort_le(s, key), x, key),
{
    assert(s.push(x).drop_last() =~= s);
    assert(s.push(x).last() == x);
}

/// How many entries carry the given key.
pub open spec fn count_key<T>(s: Seq<T>, key: spec_fn(T) -> Seq<char>, id: Seq<char>) -> int
    decreases s.len(),
{
    if s.len() == 0 {
        0
    } else {
        count_key(s.drop_last(), key, id) + (if key(s.last()) == id {
            1int
        } else {
            0int
        })
    }
}

/// How many entries equal the given value.
pub open spec fn count_value<T>(s: Seq<T>, x: T) -> int
    decreases s.len(),
{
    if s.len() == 0 {
        0
    } else {
        count_value(s.drop_last(), x) + (if s.last() == x {
            1int
        } else {
            0int
        })
    }
}

/// Inserting adds one to the count of the inserted element's key and value,
/// and leaves other counts alone.
pub proof fn lemma_insert_le_counts<T>(s: Seq<T>, x: T, key: spec_fn(T) -> Seq<char>, id: Seq<char>, a: T)
    ensures
        count_key(insert_le(s, x, key), key, id) == count_key(s, key, id) + (if key(x) == id {
            1int
        } else {
            0int
        }),
        count_value(insert_le(s, x, key), a) == count_value(s, a) + (if x == a {
            1int
        } else {
            0int
        }),
    decreases s.len(),
{
    if s.len() == 0 {
        let t = seq![x];
        assert(insert_le(s, x, key) == t);
        assert(t.drop_last() =~= Seq::<T>::empty());
        assert(count_key(t.drop_last(), key, id) == 0);
        assert(count_value(t.drop_last(), a) == 0);
        assert(t.last() == x);
        assert(count_key(t, key, id) == count_key(t.drop_last(), key, id) + (if key(x) == id {
            1int
        } else {
            0int
        }));
        assert(count_value(t, a) == count_value(t.drop_last(), a) + (if x == a {
            1int
        } else {
            0int
        }));
    } else if lex_le(key(s.last()), key(x)) {
        let t = s.push(x);
        assert(insert_le(s, x, key) == t);
        assert(t.drop_last() =~= s);
        assert(t.last() == x);
        assert(count_key(t, key, id) == count_key(s, key, id) + (if key(x) == id {
            1int
        } else {
            0int
        }));
        assert(count_value(t, a) == count_value(s, a) + (if x == a {
            1int
        } else {
            0int
        }));
    } else {
        lemma_insert_le_counts(s.drop_last(), x, key, id, a);
        let u = insert_le(s.drop_last(), x, key);
        let t = u.push(s.last());
        assert(insert_le(s, x, key) == t);
        assert(t.drop_last() =~= u);
        assert(t.last() == s.last());
        assert(count_key(t, key, id) == count_key(u, key, id) + (if key(s.last()) == id {
            1int
        } else {
            0int
        }));
        assert(count_value(t, a) == count_value(u, a) + (if s.last() == a {
            1int
        } else {
            0int
        }));
    }
}

/// Sorting keeps every key count and every value count.
pub proof fn lemma_sort_le_counts<T>(s: Seq<T>, key: spec_fn(T) -> Seq<char>, id: Seq<char>, a: T)
    ensures
        count_key(sort_le(s, key), key, id) == count_key(s, key, id),
        count_value(sort_le(s, key), a) == count_value(s, a),
    decreases s.len(),
{
    if s.len() > 0 {
        lemma_sort_le_counts(s.drop_last(), key, id, a);
        lemma_insert_le_counts(sort_le(s.drop_last(), key), s.last(), key, id, a);
    }
}

/// In a sequence where exactly one position carries the key, and it holds
/// the value `a`, both counts are one.
pub proof fn lemma_counts_of_unique<T>(s: Seq<T>, key: spec_fn(T) -> Seq<char>, id: Seq<char>, a: T, i: int)
    requires
        0 <= i < s.len(),
        s[i] == a,
        key(a) == id,
        forall|j: int| 0 <= j < s.len() && j != i ==> key(#[trigger] s[j]) != id,
    ensures
        count_key(s, key, id) == 1,
        count_value(s, a) == 1,
    decreases s.len(),
{
    if i == s.len() - 1 {
        lemma_count_none(s.drop_last(), key, id, a);
    } else {
        lemma_counts_of_unique(s.drop_last(), key, id, a, i);
        assert(key(s.last()) != id);
        assert(s.last() != a);
    }
}

/// In a sequence where no position carries the key, both counts are zero.
pub proof fn lemma_count_none<T>(s: Seq<T>, key: spec_fn(T) -> Seq<char>, id: Seq<char>, a: T)
    requires
        key(a) == id,
        forall|j: int| 0 <= j < s.len() ==> key(#[trigger] s[j]) != id,
    ensures
        count_key(s, key, id) == 0,
        count_value(s, a) == 0,
    decreases s.len(),
{
    if s.len() > 0 {
        lemma_count_none(s.drop_last(), key, id, a);
    }
}

/// Counts are never negative.
pub proof fn lemma_counts_nonneg<T>(s: Seq<T>, key: spec_fn(T) -> Seq<char>, id: Seq<char>, x: T)
    ensures
        count_key(s, key, id) >= 0,
        count_value(s, x) >= 0,
    decreases s.len(),
{
    if s.len() > 0 {
        lemma_counts_nonneg(s.drop_last(), key, id, x);
    }
}

/// A value present at some position has a positive count.
pub proof fn lemma_count_value_at<T>(s: Seq<T>, x: T, i: int)
    requires
        0 <= i < s.len(),
        s[i] == x,
    ensures
        count_value(s, x) >= 1,
    decreases s.len(),
{
    if i < s.len() - 1 {
        lemma_count_value_at(s.drop_last(), x, i);
    } else {
        lemma_counts_nonneg(s.drop_last(), |t: T| Seq::<char>::empty(), Seq::<char>::empty(), x);
        assert(s.last() == x);
    }
}

/// Every element of a sorted insertion satisfies what every element of the
/// input and the inserted element satisfy.
pub proof fn lemma_insert_le_all<T>(s: Seq<T>, x: T, key: spec_fn(T) -> Seq<char>, pred: spec_fn(T) -> bool)
    requires
        forall|j: int| 0 <= j < s.len() ==> pred(#[trigger] s[j]),
        pred(x),
    ensures
        forall|j: int| 0 <= j < insert_le(s, x, key).len() ==> pred(#[trigger] insert_le(s, x, key)[j]),
    decreases s.len(),
{
    if s.len() == 0 {
        assert forall|j: int| 0 <= j < insert_le(s, x, key).len() implies pred(
            #[trigger] insert_le(s, x, key)[j],
        ) by {
            assert(insert_le(s, x, key) == seq![x]);
            assert(insert_le(s, x, key)[j] == x);
        }
    } else if lex_le(key(s.last()), key(x)) {
        assert forall|j: int| 0 <= j < insert_le(s, x, key).len() implies pred(
            #[trigger] insert_le(s, x, key)[j],
        ) by {
            assert(insert_le(s, x, key) == s.push(x));
            if j < s.len() {
                assert(insert_le(s, x, key)[j] == s[j]);
            } else {
                assert(insert_le(s, x, key)[j] == x);
            }
        }
    } else {
        assert(forall|j: int| 0 <= j < s.drop_last().len() ==> pred(#[trigger] s.drop_last()[j]));
        lemma_insert_le_all(s.drop_last(), x, key, pred);
        let u = insert_le(s.drop_last(), x, key);
        assert forall|j: int| 0 <= j < insert_le(s, x, key).len() implies pred(
            #[trigger] insert_le(s, x, key)[j],
        ) by {
            assert(insert_le(s, x, key) == u.push(s.last()));
            if j < u.len() {
                assert(insert_le(s, x, key)[j] == u[j]);
            } else {
                assert(insert_le(s, x, key)[j] == s.last());
                assert(pred(s[s.len() - 1]));
            }
        }
    }
}

/// Every element of a sorted sequence satisfies what every element of the
/// input satisfies.
pub proof fn lemma_sort_le_all<T>(s: Seq<T>, key: spec_fn(T) -> Seq<char>, pred: spec_fn(T) -> bool)
    requires
        forall|j: int| 0 <= j < s.len() ==> pred(#[trigger] s[j]),
    ensures
        forall|j: int| 0 <= j < sort_le(s, key).len() ==> pred(#[trigger] sort_le(s, key)[j]),
    decreases s.len(),
{
    if s.len() > 0 {
        assert(forall|j: int| 0 <= j < s.drop_last().len() ==> pred(#[trigger] s.drop_last()[j]));
        lemma_sort_le_all(s.drop_last(), key, pred);
        lemma_insert_le_all(sort_le(s.drop_last(), key), s.last(), key, pred);
    }
}

/// `lex_le` is total: of any two sequences, one comes no later than the
/// other.
pub proof fn lemma_lex_le_total(a: Seq<char>, b: Seq<char>)
    ensures
        lex_le(a, b) || lex_le(b, a),
    decreases a.len(),
{
    if a.len() > 0 && b.len() > 0 && !(a[0] < b[0]) && !(b[0] < a[0]) {
        lemma_lex_le_total(a.drop_first(), b.drop_first());
    }
}

/// `lex_le` is transitive.
pub proof fn lemma_lex_le_trans(a: Seq<char>, b: Seq<char>, c: Seq<char>)
    requires
        lex_le(a, b),
        lex_le(b, c),
    ensures
        lex_le(a, c),
    decreases a.len(),
{
    if a.len() > 0 && b.len() > 0 && c.len() > 0 && !(a[0] < b[0]) && !(b[0] < a[0]) && !(b[0]
        < c[0]) && !(c[0] < b[0]) {
        lemma_lex_le_trans(a.drop_first(), b.drop_first(), c.drop_first());
    }
}

/// A sequence ordered ascending by `key` under `lex_le`.
pub open spec fn sorted_by_key<T>(s: Seq<T>, key: spec_fn(T) -> Seq<char>) -> bool {
    forall|i: int, j: int| 0 <= i < j < s.len() ==> lex_le(key(#[trigger] s[i]), key(#[trigger] s[j]))
}

/// Inserting into an ordered sequence keeps it ordered.
pub proof fn lemma_insert_le_sorted<T>(s: Seq<T>, x: T, key: spec_fn(T) -> Seq<char>)
    requires
        sorted_by_key(s, key),
    ensures
        sorted_by_key(insert_le(s, x, key), key),
    decreases s.len(),
{
    if s.len() == 0 {
        assert(insert_le(s, x, key) == seq![x]);
    } else if lex_le(key(s.last()), key(x)) {
        let t = s.push(x);
        assert(insert_le(s, x, key) == t);
        assert forall|i: int, j: int| 0 <= i < j < t.len() implies lex_le(
            key(#[trigger] t[i]),
            key(#[trigger] t[j]),
        ) by {
            if j < s.len() {
                assert(t[i] == s[i]);
                assert(t[j] == s[j]);
            } else {
                assert(t[j] == x);
                if i == s.len() - 1 {
                    assert(t[i] == s[i]);
                } else {
                    assert(t[i] == s[i]);
                    assert(lex_le(key(s[i]), key(s[s.len() - 1])));
                    lemma_lex_le_trans(key(s[i]), key(s[s.len() - 1]), key(x));
                }
            }
        }
    } else {
        lemma_lex_le_total(key(s.last()), key(x));
        assert(lex_le(key(x), key(s.last())));
        assert forall|i: int| 0 <= i < s.drop_last().len() implies lex_le(
            key(#[trigger] s.drop_last()[i]),
            key(s.last()),
        ) by {
            assert(s.drop_last()[i] == s[i]);
            assert(lex_le(key(s[i]), key(s[s.len() - 1])));
        }
        assert(forall|i: int, j: int| 0 <= i < j < s.drop_last().len() ==> lex_le(
            key(#[trigger] s.drop_last()[i]),
            key(#[trigger] s.drop_last()[j]),
        ));
        lemma_insert_le_sorted(s.drop_last(), x, key);
        lemma_insert_le_all(
            s.drop_last(),
            x,
            key,
            |t: T| lex_le(key(t), key(s[s.len() - 1])),
        );
        let u = insert_le(s.drop_last(), x, key);
        let t = u.push(s.last());
        assert(insert_le(s, x, key) == t);
        assert forall|i: int, j: int| 0 <= i < j < t.len() implies lex_le(
            key(#[trigger] t[i]),
            key(#[trigger] t[j]),
        ) by {
            if j < u.len() {
                assert(t[i] == u[i]);
                assert(t[j] == u[j]);
            } else {
                assert(t[j] == s.last());
                assert(t[i] == u[i]);
                assert((|t: T| lex_le(key(t), key(s[s.len() - 1])))(u[i]));
            }
        }
    }
}

/// The insertion sort orders its result.
pub proof fn lemma_sort_le_sorted<T>(s: Seq<T>, key: spec_fn(T) -> Seq<char>)
    ensures
        sorted_by_key(sort_le(s, key), key),
    decreases s.len(),
{
    if s.len() > 0 {
        lemma_sort_le_sorted(s.drop_last(), key);
        lemma_insert_le_sorted(sort_le(s.drop_last(), key), s.last(), key);
    }
}

/// `lex_le` holds in both directions exactly on equal sequences.
pub proof fn lemma_lex_le_antisym(a: Seq<char>, b: Seq<char>)
    ensures
        (lex_le(a, b) && lex_le(b, a)) <==> a == b,
    decreases a.len(),
{
    if a.len() == 0 {
        if lex_le(b, a) {
            assert(b.len() == 0);
            assert(a =~= b);
        }
        if a == b {
            assert(lex_le(b, a));
        }
    } else if b.len() == 0 {
        assert(!lex_le(a, b));
        assert(a != b);
    } else {
        lemma_lex_le_antisym(a.drop_first(), b.drop_first());
        if lex_le(a, b) && lex_le(b, a) {
            assert(a[0] == b[0]);
            assert(a.drop_first() == b.drop_first());
            assert(a.len() == b.len());
            assert forall|i: int| 0 <= i < a.len() implies a[i] == b[i] by {
                if i > 0 {
                    assert(a[i] == a.drop_first()[i - 1]);
                    assert(b[i] == b.drop_first()[i - 1]);
                }
            }
            assert(a =~= b);
        }
        if a == b {
            assert(a.drop_first() =~= b.drop_first());
            assert(lex_le(a.drop_first(), b.drop_first()));
        }
    }
}

/// Decides view equality of two string slices.
pub fn str_eq(a: &str, b: &str) -> (r: bool)
    ensures
        r == (a@ == b@),
{
    proof {
        lemma_lex_le_antisym(a@, b@);
    }
    str_le(a, b) && str_le(b, a)
}

/// Decides `lex_le` on two string slices.
pub fn str_le(a: &str, b: &str) -> (r: bool)
    ensures
        r == lex_le(a@, b@),
{
    let a_len = a.unicode_len();
    let b_len = b.unicode_len();
    let mut i: usize = 0;
    proof {
        assert(a@.skip(0) =~= a@);
        assert(b@.skip(0) =~= b@);
    }
    loop
        invariant
            i <= a_len,
            i <= b_len,
            a_len == a@.len(),
            b_len == b@.len(),
            lex_le(a@, b@) == lex_le(a@.skip(i as int), b@.skip(i as int)),
        decreases a_len - i,
    {
        if i >= a_len {
            return true;
        }
        if i >= b_len {
            return false;
        }
        let ca = a.get_char(i);
        let cb = b.get_char(i);
        if ca < cb {
            assert(lex_le(a@.skip(i as int), b@.skip(i as int)));
            return true;
        }
        if cb < ca {
            assert(!lex_le(a@.skip(i as int), b@.skip(i as int)));
            return false;
        }
        proof {
            assert(a@.skip(i as int).drop_first() =~= a@.skip(i + 1));
            assert(b@.skip(i as int).drop_first() =~= b@.skip(i + 1));
        }
        i = i + 1;
    }
}

} // verus!
