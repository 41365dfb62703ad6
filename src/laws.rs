//! Laws of the value model: how equality and hashing relate.
use crate::number::{exponent, is_nan, is_zero, same_number, truncated};
use crate::value::{
    entries_eq, entry_feeds, entry_found, entry_matched, feeds, hash_feed, keys_unique, string_keys,
    value_eq, Value,
};
use vstd::prelude::*;

verus! {

/// Equal values hand a hasher the same bytes. (Unequal values may too: a
/// number's fractional part does not reach the hasher.)
pub proof fn lemma_equal_values_hash_alike(a: Value, b: Value)
    requires
        value_eq(a, b),
    ensures
        hash_feed(a) == hash_feed(b),
    decreases a, 0int,
{
    match a {
        Value::Float(x) => {
            let y = b->Float_0;
            lemma_same_numbers_truncate_alike(x, y);
        },
        Value::Date(x) => {
            let y = b->Date_0;
            lemma_same_numbers_truncate_alike(x, y);
        },
        Value::Array(x) => {
            let y = b->Array_0;
            assert(decreases_to!(a => x));
            lemma_feeds_alike(x@, y@);
        },
        Value::Object(x) => {
            let y = b->Object_0;
            assert(decreases_to!(a => x));
            lemma_entry_feed_sets_alike(x@, y@);
        },
        _ => {},
    }
}

/// Element-wise equal sequences of values hand a hasher the same bytes.
proof fn lemma_feeds_alike(x: Seq<Value>, y: Seq<Value>)
    requires
        x.len() == y.len(),
        forall|i: int| 0 <= i < x.len() ==> value_eq(#[trigger] x[i], y[i]),
    ensures
        feeds(x) == feeds(y),
    decreases x, 1int,
{
    if x.len() > 0 {
        let n = x.len() - 1;
        let xs = x.subrange(0, n);
        let ys = y.subrange(0, n);
        assert forall|i: int| 0 <= i < xs.len() implies value_eq(#[trigger] xs[i], ys[i]) by {
            assert(xs[i] == x[i]);
        }
        lemma_feeds_alike(xs, ys);
        lemma_equal_values_hash_alike(x[n], y[n]);
    }
}

/// Entry lists of equal objects give the same set of entry bytes.
proof fn lemma_entry_feed_sets_alike(x: Seq<(Value, Value)>, y: Seq<(Value, Value)>)
    requires
        entries_eq(x, y),
    ensures
        entry_feeds(x).to_set() == entry_feeds(y).to_set(),
    decreases x, 3int,
{
    lemma_entry_feeds_len(x);
    lemma_entry_feeds_len(y);
    assert forall|f: Seq<u8>| entry_feeds(x).contains(f) implies entry_feeds(y).contains(f) by {
        let i = choose|i: int| 0 <= i < entry_feeds(x).len() && entry_feeds(x)[i] == f;
        assert(entry_found(x[i], y));
        let j = choose|j: int|
            0 <= j < y.len() && value_eq(x[i].0, #[trigger] y[j].0) && value_eq(x[i].1, y[j].1);
        lemma_pair_feeds_alike(x, y, i, j);
    }
    assert forall|f: Seq<u8>| entry_feeds(y).contains(f) implies entry_feeds(x).contains(f) by {
        let j = choose|j: int| 0 <= j < entry_feeds(y).len() && entry_feeds(y)[j] == f;
        assert(entry_matched(x, y[j]));
        let i = choose|i: int|
            0 <= i < x.len() && value_eq(#[trigger] x[i].0, y[j].0) && value_eq(x[i].1, y[j].1);
        lemma_pair_feeds_alike(x, y, i, j);
    }
    assert(entry_feeds(x).to_set() =~= entry_feeds(y).to_set());
}

/// Equal entries give the same entry bytes.
proof fn lemma_pair_feeds_alike(x: Seq<(Value, Value)>, y: Seq<(Value, Value)>, i: int, j: int)
    requires
        0 <= i < x.len(),
        0 <= j < y.len(),
        value_eq(x[i].0, y[j].0),
        value_eq(x[i].1, y[j].1),
    ensures
        entry_feeds(x)[i] == entry_feeds(y)[j],
    decreases x, 2int,
{
    assert(decreases_to!(x => x[i]));
    lemma_equal_values_hash_alike(x[i].0, y[j].0);
    lemma_equal_values_hash_alike(x[i].1, y[j].1);
    lemma_entry_feed_at(x, i);
    lemma_entry_feed_at(y, j);
}

/// There are as many entry byte strings as entries.
proof fn lemma_entry_feeds_len(x: Seq<(Value, Value)>)
    ensures
        entry_feeds(x).len() == x.len(),
    decreases x.len(),
{
    if x.len() > 0 {
        lemma_entry_feeds_len(x.subrange(0, x.len() - 1));
    }
}

/// The entry bytes at index `i` are those of the entry at index `i`.
proof fn lemma_entry_feed_at(x: Seq<(Value, Value)>, i: int)
    requires
        0 <= i < x.len(),
    ensures
        entry_feeds(x)[i] == hash_feed(x[i].0) + hash_feed(x[i].1),
    decreases x.len(),
{
    let p = x.subrange(0, x.len() - 1);
    lemma_entry_feeds_len(p);
    if i < x.len() - 1 {
        lemma_entry_feed_at(p, i);
        assert(p[i] == x[i]);
    }
}

/// Equal numbers truncate to the same integer.
proof fn lemma_same_numbers_truncate_alike(x: u64, y: u64)
    requires
        same_number(x, y),
    ensures
        truncated(x) == truncated(y),
{
    if x != y {
        assert(is_zero(x) ==> exponent(x) == 0) by (bit_vector);
        assert(is_zero(y) ==> exponent(y) == 0) by (bit_vector);
    }
}

/// Two objects that list the same entries, in whatever order, compare alike
/// with every value, from either side.
pub proof fn lemma_entry_order_is_irrelevant(v: Value, w: Value, u: Value)
    requires
        v is Object,
        w is Object,
        forall|e: (Value, Value)| v->Object_0@.contains(e) <==> w->Object_0@.contains(e),
    ensures
        value_eq(v, u) == value_eq(w, u),
        value_eq(u, v) == value_eq(u, w),
{
    let x = v->Object_0@;
    let x2 = w->Object_0@;
    if u is Object {
        let y = u->Object_0@;
        if entries_eq(x, y) {
            lemma_left_reorder(x, x2, y);
        }
        if entries_eq(x2, y) {
            lemma_left_reorder(x2, x, y);
        }
        if entries_eq(y, x) {
            lemma_right_reorder(y, x, x2);
        }
        if entries_eq(y, x2) {
            lemma_right_reorder(y, x2, x);
        }
        assert(value_eq(v, u) == entries_eq(x, y));
        assert(value_eq(w, u) == entries_eq(x2, y));
        assert(value_eq(u, v) == entries_eq(y, x));
        assert(value_eq(u, w) == entries_eq(y, x2));
    }
}

/// No number or date inside `v` is a NaN.
pub open spec fn nan_free(v: Value) -> bool
    decreases v,
{
    match v {
        Value::Float(x) => !is_nan(x),
        Value::Date(x) => !is_nan(x),
        Value::Array(a) => forall|i: int| 0 <= i < a@.len() ==> nan_free(#[trigger] a@[i]),
        Value::Object(o) => forall|i: int|
            0 <= i < o@.len() ==> nan_free(#[trigger] o@[i].0) && nan_free(o@[i].1),
        _ => true,
    }
}

/// A value without NaN is equal to itself.
pub proof fn lemma_equal_to_itself(v: Value)
    requires
        nan_free(v),
    ensures
        value_eq(v, v),
    decreases v,
{
    match v {
        Value::Array(a) => {
            assert forall|i: int| 0 <= i < a@.len() implies value_eq(#[trigger] a@[i], a@[i]) by {
                assert(decreases_to!(v => a));
                lemma_equal_to_itself(a@[i]);
            }
        },
        Value::Object(o) => {
            let x = o@;
            assert forall|i: int| 0 <= i < x.len() implies entry_found(#[trigger] x[i], x) by {
                assert(decreases_to!(v => o));
                assert(nan_free(x[i].0) && nan_free(x[i].1));
                lemma_equal_to_itself(x[i].0);
                lemma_equal_to_itself(x[i].1);
                assert(value_eq(x[i].0, x[i].0) && value_eq(x[i].1, x[i].1));
            }
            assert forall|j: int| 0 <= j < x.len() implies entry_matched(x, #[trigger] x[j]) by {
                assert(decreases_to!(v => o));
                assert(nan_free(x[j].0) && nan_free(x[j].1));
                lemma_equal_to_itself(x[j].0);
                lemma_equal_to_itself(x[j].1);
                assert(value_eq(x[j].0, x[j].0) && value_eq(x[j].1, x[j].1));
            }
            assert(entries_eq(x, x));
        },
        _ => {},
    }
}

/// An object without NaN is equal to any object that lists the same entries
/// in another order.
pub proof fn lemma_reordered_object_is_equal(v: Value, w: Value)
    requires
        v is Object,
        w is Object,
        nan_free(v),
        forall|e: (Value, Value)| v->Object_0@.contains(e) <==> w->Object_0@.contains(e),
    ensures
        value_eq(v, w),
        value_eq(w, v),
{
    lemma_equal_to_itself(v);
    lemma_entry_order_is_irrelevant(v, w, v);
}

/// Some key of `y` is equal to `k`.
#[verifier::opaque]
pub open spec fn key_found(k: Value, y: Seq<(Value, Value)>) -> bool {
    exists|j: int| 0 <= j < y.len() && value_eq(k, #[trigger] y[j].0)
}

/// Some key of `x` is equal to `k`, compared from the side of `x`.
#[verifier::opaque]
pub open spec fn key_matched(x: Seq<(Value, Value)>, k: Value) -> bool {
    exists|i: int| 0 <= i < x.len() && value_eq(#[trigger] x[i].0, k)
}

/// Every key of `x` has an equal key in `y`.
#[verifier::opaque]
pub open spec fn keys_covered(x: Seq<(Value, Value)>, y: Seq<(Value, Value)>) -> bool {
    forall|i: int| 0 <= i < x.len() ==> key_found(#[trigger] x[i].0, y)
}

/// Every key of `y` has an equal key in `x`.
#[verifier::opaque]
pub open spec fn keys_reached(x: Seq<(Value, Value)>, y: Seq<(Value, Value)>) -> bool {
    forall|j: int| 0 <= j < y.len() ==> key_matched(x, #[trigger] y[j].0)
}

/// Wherever a key of `x` equals a key of `y`, their values are equal.
#[verifier::opaque]
pub open spec fn shared_keys_agree(x: Seq<(Value, Value)>, y: Seq<(Value, Value)>) -> bool {
    forall|i: int, j: int|
        0 <= i < x.len() && 0 <= j < y.len() && value_eq(#[trigger] x[i].0, #[trigger] y[j].0) ==> value_eq(
            x[i].1,
            y[j].1,
        )
}

/// Two objects with the same keys, and equal values wherever their keys are
/// equal, are equal; and equal objects have the same keys.
pub proof fn lemma_objects_equal_by_keys(v: Value, w: Value)
    requires
        v is Object,
        w is Object,
    ensures
        ({
            let x = v->Object_0@;
            let y = w->Object_0@;
            &&& keys_covered(x, y) && keys_reached(x, y) && shared_keys_agree(x, y) ==> value_eq(v, w)
            &&& value_eq(v, w) ==> keys_covered(x, y) && keys_reached(x, y)
        }),
{
    let x = v->Object_0@;
    let y = w->Object_0@;
    if keys_covered(x, y) && keys_reached(x, y) && shared_keys_agree(x, y) {
        lemma_agreeing_keys_give_equal_entries(x, y);
    }
    if value_eq(v, w) {
        assert(entries_eq(x, y));
        lemma_equal_entries_share_keys(x, y);
    }
}

/// Equal objects whose keys are strings, each held once, agree on the value
/// of every key they share.
pub proof fn lemma_equal_objects_agree_on_shared_keys(v: Value, w: Value)
    requires
        v is Object,
        w is Object,
        string_keys(v->Object_0@),
        string_keys(w->Object_0@),
        keys_unique(w->Object_0@),
        value_eq(v, w),
    ensures
        shared_keys_agree(v->Object_0@, w->Object_0@),
{
    let x = v->Object_0@;
    let y = w->Object_0@;
    assert(entries_eq(x, y));
    reveal(shared_keys_agree);
    assert forall|i: int, j: int|
        0 <= i < x.len() && 0 <= j < y.len() && value_eq(#[trigger] x[i].0, #[trigger] y[j].0)
            implies value_eq(x[i].1, y[j].1) by {
        assert(entry_found(x[i], y));
        let m = choose|m: int|
            0 <= m < y.len() && value_eq(x[i].0, #[trigger] y[m].0) && value_eq(x[i].1, y[m].1);
        assert(x[i].0 is String);
        assert(y[j].0 is String);
        assert(y[m].0 is String);
        if m != j {
            assert(value_eq(y[j].0, y[m].0));
        }
    }
}

proof fn lemma_agreeing_keys_give_equal_entries(x: Seq<(Value, Value)>, y: Seq<(Value, Value)>)
    requires
        keys_covered(x, y),
        keys_reached(x, y),
        shared_keys_agree(x, y),
    ensures
        entries_eq(x, y),
{
    assert forall|i: int| 0 <= i < x.len() implies entry_found(#[trigger] x[i], y) by {
        reveal(keys_covered);
        reveal(key_found);
        reveal(shared_keys_agree);
        assert(key_found(x[i].0, y));
        let j = choose|j: int| 0 <= j < y.len() && value_eq(x[i].0, #[trigger] y[j].0);
        assert(value_eq(x[i].1, y[j].1));
    }
    assert forall|j: int| 0 <= j < y.len() implies entry_matched(x, #[trigger] y[j]) by {
        reveal(keys_reached);
        reveal(key_matched);
        reveal(shared_keys_agree);
        assert(key_matched(x, y[j].0));
        let i = choose|i: int| 0 <= i < x.len() && value_eq(#[trigger] x[i].0, y[j].0);
        assert(value_eq(x[i].1, y[j].1));
    }
}

proof fn lemma_equal_entries_share_keys(x: Seq<(Value, Value)>, y: Seq<(Value, Value)>)
    requires
        entries_eq(x, y),
    ensures
        keys_covered(x, y),
        keys_reached(x, y),
{
    reveal(keys_covered);
    reveal(keys_reached);
    assert forall|i: int| 0 <= i < x.len() implies key_found(#[trigger] x[i].0, y) by {
        reveal(key_found);
        assert(entry_found(x[i], y));
        let j = choose|j: int|
            0 <= j < y.len() && value_eq(x[i].0, #[trigger] y[j].0) && value_eq(x[i].1, y[j].1);
        assert(value_eq(x[i].0, y[j].0));
    }
    assert forall|j: int| 0 <= j < y.len() implies key_matched(x, #[trigger] y[j].0) by {
        reveal(key_matched);
        assert(entry_matched(x, y[j]));
        let i = choose|i: int|
            0 <= i < x.len() && value_eq(#[trigger] x[i].0, y[j].0) && value_eq(x[i].1, y[j].1);
        assert(value_eq(x[i].0, y[j].0));
    }
}

/// Replacing the left entry list by one with the same entries keeps equality.
proof fn lemma_left_reorder(x: Seq<(Value, Value)>, x2: Seq<(Value, Value)>, y: Seq<(Value, Value)>)
    requires
        forall|e: (Value, Value)| x.contains(e) <==> x2.contains(e),
        entries_eq(x, y),
    ensures
        entries_eq(x2, y),
{
    assert forall|i: int| 0 <= i < x2.len() implies entry_found(#[trigger] x2[i], y) by {
        assert(x2.contains(x2[i]));
        let k = choose|k: int| 0 <= k < x.len() && x[k] == x2[i];
        assert(entry_found(x[k], y));
    }
    assert forall|j: int| 0 <= j < y.len() implies entry_matched(x2, #[trigger] y[j]) by {
        assert(entry_matched(x, y[j]));
        let k = choose|k: int| 0 <= k < x.len() && value_eq(#[trigger] x[k].0, y[j].0) && value_eq(x[k].1, y[j].1);
        assert(x.contains(x[k]));
        let k2 = choose|k2: int| 0 <= k2 < x2.len() && x2[k2] == x[k];
        assert(value_eq(x2[k2].0, y[j].0));
    }
}

/// Replacing the right entry list by one with the same entries keeps
/// equality.
proof fn lemma_right_reorder(y: Seq<(Value, Value)>, x: Seq<(Value, Value)>, x2: Seq<(Value, Value)>)
    requires
        forall|e: (Value, Value)| x.contains(e) <==> x2.contains(e),
        entries_eq(y, x),
    ensures
        entries_eq(y, x2),
{
    assert forall|i: int| 0 <= i < y.len() implies entry_found(#[trigger] y[i], x2) by {
        assert(entry_found(y[i], x));
        let k = choose|k: int| 0 <= k < x.len() && value_eq(y[i].0, #[trigger] x[k].0) && value_eq(y[i].1, x[k].1);
        assert(x.contains(x[k]));
        let k2 = choose|k2: int| 0 <= k2 < x2.len() && x2[k2] == x[k];
        assert(value_eq(y[i].0, x2[k2].0));
    }
    assert forall|j: int| 0 <= j < x2.len() implies entry_matched(y, #[trigger] x2[j]) by {
        assert(x2.contains(x2[j]));
        let k = choose|k: int| 0 <= k < x.len() && x[k] == x2[j];
        assert(entry_matched(y, x[k]));
    }
}

} // verus!
