//! The mathematical model of a slot array: a sequence of optional entries.
//!
//! Every container in this crate is specified against a `Seq<Option<A>>` of
//! fixed length.  This module defines the spec-level vocabulary for such
//! sequences — occupancy counting, first-match and first-empty searches, and
//! the insertion fold used by the bulk constructors — together with the
//! lemmas that connect these definitions to the executable scans.

use vstd::prelude::*;

verus! {

/// Does the slot `s` hold an entry whose key is `k`?
pub open spec fn slot_keyed<K, V>(s: Option<(K, V)>, k: K) -> bool {
    s matches Some(p) && p.0 == k
}

/// Are the occupied slots of `s` pairwise distinct by key?
pub open spec fn distinct_keys<K, V>(s: Seq<Option<(K, V)>>) -> bool {
    forall|i: int, j: int|
        0 <= i < j < s.len() && s[i] is Some && s[j] is Some ==> ((#[trigger] s[i])->0).0 != ((
        #[trigger] s[j])->0).0
}

/// Number of occupied slots in `s`.
pub open spec fn count_occupied<A>(s: Seq<Option<A>>) -> nat
    decreases s.len(),
{
    if s.len() == 0 {
        0
    } else {
        count_occupied(s.drop_last()) + if s.last() is Some {
            1nat
        } else {
            0nat
        }
    }
}

/// The occupied-slot count never exceeds the number of slots.
pub proof fn lemma_count_le_len<A>(s: Seq<Option<A>>)
    ensures
        count_occupied(s) <= s.len(),
    decreases s.len(),
{
    if s.len() > 0 {
        lemma_count_le_len(s.drop_last());
    }
}

/// How the occupied-slot count changes when one slot is overwritten.
pub proof fn lemma_count_update<A>(s: Seq<Option<A>>, i: int, x: Option<A>)
    requires
        0 <= i < s.len(),
    ensures
        count_occupied(s.update(i, x)) == count_occupied(s) - (if s[i] is Some {
            1int
        } else {
            0int
        }) + (if x is Some {
            1int
        } else {
            0int
        }),
    decreases s.len(),
{
    let t = s.update(i, x);
    if i == s.len() - 1 {
        assert(t.drop_last() =~= s.drop_last());
    } else {
        lemma_count_update(s.drop_last(), i, x);
        assert(t.drop_last() =~= s.drop_last().update(i, x));
        assert(t.last() == s.last());
    }
}

/// The count reaches the length exactly when every slot is occupied.
pub proof fn lemma_count_full<A>(s: Seq<Option<A>>)
    ensures
        (count_occupied(s) == s.len()) <==> (forall|i: int| 0 <= i < s.len() ==> s[i] is Some),
    decreases s.len(),
{
    lemma_count_le_len(s);
    if s.len() > 0 {
        lemma_count_full(s.drop_last());
        lemma_count_le_len(s.drop_last());
        assert(forall|i: int| 0 <= i < s.len() - 1 ==> s.drop_last()[i] == s[i]);
        assert(s.last() == s[s.len() - 1]);
    }
}

/// The count is zero exactly when every slot is empty.
pub proof fn lemma_count_empty<A>(s: Seq<Option<A>>)
    ensures
        (count_occupied(s) == 0) <==> (forall|i: int| 0 <= i < s.len() ==> s[i] is None),
    decreases s.len(),
{
    if s.len() > 0 {
        lemma_count_empty(s.drop_last());
        assert(forall|i: int| 0 <= i < s.len() - 1 ==> s.drop_last()[i] == s[i]);
        assert(s.last() == s[s.len() - 1]);
    }
}

/// Slots with pointwise-equal occupancy have the same count.
pub proof fn lemma_count_same_occupancy<A, B>(s: Seq<Option<A>>, t: Seq<Option<B>>)
    requires
        s.len() == t.len(),
        forall|i: int| 0 <= i < s.len() ==> (s[i] is Some <==> t[i] is Some),
    ensures
        count_occupied(s) == count_occupied(t),
    decreases s.len(),
{
    if s.len() > 0 {
        assert(forall|i: int| 0 <= i < s.len() - 1 ==> s.drop_last()[i] == s[i]);
        assert(forall|i: int| 0 <= i < t.len() - 1 ==> t.drop_last()[i] == t[i]);
        lemma_count_same_occupancy(s.drop_last(), t.drop_last());
        assert(s.last() == s[s.len() - 1]);
        assert(t.last() == t[t.len() - 1]);
    }
}

/// The index of the first empty slot at or after `from`, if any.
pub open spec fn first_empty_from<A>(s: Seq<Option<A>>, from: int) -> Option<int>
    decreases s.len() - from,
{
    if from < 0 || from >= s.len() {
        None
    } else if s[from] is None {
        Some(from)
    } else {
        first_empty_from(s, from + 1)
    }
}

/// What `first_empty_from` returns: the first empty index, with everything
/// before it (and after `from`) occupied.
pub proof fn lemma_first_empty_from<A>(s: Seq<Option<A>>, from: int)
    requires
        0 <= from,
    ensures
        match first_empty_from(s, from) {
            Some(i) => from <= i < s.len() && s[i] is None && (forall|j: int|
                from <= j < i ==> s[j] is Some),
            None => forall|j: int| from <= j < s.len() ==> s[j] is Some,
        },
    decreases s.len() - from,
{
    if from < s.len() && !(s[from] is None) {
        lemma_first_empty_from(s, from + 1);
    }
}

/// The occupied entries of `s`, in ascending index order.
pub open spec fn occupied_seq<A>(s: Seq<Option<A>>) -> Seq<A>
    decreases s.len(),
{
    if s.len() == 0 {
        Seq::empty()
    } else {
        match s.last() {
            Some(a) => occupied_seq(s.drop_last()).push(a),
            None => occupied_seq(s.drop_last()),
        }
    }
}

/// The compacted sequence has exactly one element per occupied slot.
pub proof fn lemma_occupied_seq_len<A>(s: Seq<Option<A>>)
    ensures
        occupied_seq(s).len() == count_occupied(s),
    decreases s.len(),
{
    if s.len() > 0 {
        lemma_occupied_seq_len(s.drop_last());
    }
}

/// Does some slot of `s` hold an entry with key `k`?
pub open spec fn seq_contains_key<K, V>(s: Seq<Option<(K, V)>>, k: K) -> bool {
    exists|i: int| 0 <= i < s.len() && slot_keyed(#[trigger] s[i], k)
}

/// The index of a slot holding key `k` (meaningful when `seq_contains_key`
/// holds; unique when the keys are distinct).
pub open spec fn seq_index_of<K, V>(s: Seq<Option<(K, V)>>, k: K) -> int {
    choose|i: int| 0 <= i < s.len() && slot_keyed(#[trigger] s[i], k)
}

/// One checked insertion into a slot sequence: overwrite in place if the key
/// is present, else fill the first empty slot, else fail.
pub open spec fn insert_pair<K, V>(s: Seq<Option<(K, V)>>, k: K, v: V) -> Option<
    Seq<Option<(K, V)>>,
> {
    if seq_contains_key(s, k) {
        Some(s.update(seq_index_of(s, k), Some((k, v))))
    } else {
        match first_empty_from(s, 0) {
            Some(i) => Some(s.update(i, Some((k, v)))),
            None => None,
        }
    }
}

/// Checked insertion of each element of `elems` in order, failing the moment
/// one insertion fails.
pub open spec fn insert_all<K, V>(s: Seq<Option<(K, V)>>, elems: Seq<(K, V)>) -> Option<
    Seq<Option<(K, V)>>,
>
    decreases elems.len(),
{
    if elems.len() == 0 {
        Some(s)
    } else {
        match insert_pair(s, elems[0].0, elems[0].1) {
            Some(s1) => insert_all(s1, elems.skip(1)),
            None => None,
        }
    }
}

/// With distinct keys, overwriting the slot that holds `k` is what
/// `insert_pair` does.
pub proof fn lemma_insert_pair_extant<K, V>(s: Seq<Option<(K, V)>>, k: K, v: V, i: int)
    requires
        distinct_keys(s),
        0 <= i < s.len(),
        slot_keyed(s[i], k),
    ensures
        insert_pair(s, k, v) == Some(s.update(i, Some((k, v)))),
{
    assert(seq_contains_key(s, k));
    let j = seq_index_of(s, k);
    assert(0 <= j < s.len() && slot_keyed(s[j], k));
    if j != i {
        assert(s[i] is Some && s[j] is Some);
        assert(false);
    }
}

/// For a novel key, filling the first empty slot is what `insert_pair` does.
pub proof fn lemma_insert_pair_novel<K, V>(s: Seq<Option<(K, V)>>, k: K, v: V, i: int)
    requires
        !seq_contains_key(s, k),
        0 <= i < s.len(),
        s[i] is None,
        forall|j: int| 0 <= j < i ==> s[j] is Some,
    ensures
        insert_pair(s, k, v) == Some(s.update(i, Some((k, v)))),
{
    lemma_first_empty_from(s, 0);
    match first_empty_from(s, 0) {
        Some(e) => {
            if e < i {
            } else if e > i {
            }
        },
        None => {
        },
    }
}

/// For a novel key and a full slot sequence, `insert_pair` fails.
pub proof fn lemma_insert_pair_full<K, V>(s: Seq<Option<(K, V)>>, k: K, v: V)
    requires
        !seq_contains_key(s, k),
        forall|j: int| 0 <= j < s.len() ==> s[j] is Some,
    ensures
        insert_pair(s, k, v) is None,
{
    lemma_first_empty_from(s, 0);
}

/// The insertion fold on a single element is one insertion.
pub proof fn lemma_insert_all_singleton<K, V>(s: Seq<Option<(K, V)>>, e: (K, V))
    ensures
        insert_all(s, seq![e]) == insert_pair(s, e.0, e.1),
{
    assert(seq![e][0] == e);
    assert(seq![e].skip(1) =~= Seq::<(K, V)>::empty());
    match insert_pair(s, e.0, e.1) {
        Some(s1) => {
            assert(insert_all(s1, seq![e].skip(1)) == Some(s1));
        },
        None => {
        },
    }
}

/// The insertion fold splits over concatenation.
pub proof fn lemma_insert_all_concat<K, V>(s: Seq<Option<(K, V)>>, a: Seq<(K, V)>, b: Seq<(K, V)>)
    ensures
        insert_all(s, a + b) == (match insert_all(s, a) {
            Some(s1) => insert_all(s1, b),
            None => None,
        }),
    decreases a.len(),
{
    if a.len() == 0 {
        assert(a + b =~= b);
    } else {
        assert((a + b)[0] == a[0]);
        assert((a + b).skip(1) =~= a.skip(1) + b);
        match insert_pair(s, a[0].0, a[0].1) {
            Some(s1) => {
                lemma_insert_all_concat(s1, a.skip(1), b);
            },
            None => {
            },
        }
    }
}

/// Extending a prefix by one slot extends its compacted sequence by the
/// slot's entry, if occupied.
pub proof fn lemma_occupied_seq_take_step<A>(s: Seq<Option<A>>, j: int)
    requires
        0 <= j < s.len(),
    ensures
        occupied_seq(s.take(j + 1)) == (match s[j] {
            Some(a) => occupied_seq(s.take(j)).push(a),
            None => occupied_seq(s.take(j)),
        }),
{
    assert(s.take(j + 1).drop_last() =~= s.take(j));
    assert(s.take(j + 1).last() == s[j]);
}

} // verus!
