//! The native value model: a closed tagged union with structural equality
//! and a hash input that agrees with it.
use crate::number::{numbers_equal, same_number, truncate_to_u64, truncated};
use crate::order::{in_order, insert_sorted, lemma_in_order, strictly_sorted, views};
use vstd::prelude::*;
use vstd::utf8::encode_utf8;

verus! {

/// A script value, fully owned and independent of the engine that made it.
///
/// `Float` and `Date` hold the IEEE-754 bit pattern of a double. A `Date` is
/// the number of milliseconds since the Unix epoch. A `Function` holds the
/// identity that the host gave the script function; it is never converted
/// any deeper. An `Object` lists its entries in the order the engine
/// enumerated them; its keys are strings, each held once ([`string_keys`],
/// [`keys_unique`]), which [`Value::new`] ensures whenever the engine's
/// property names are distinct strings.
#[derive(Debug)]
pub enum Value {
    NoValue,
    Undefined,
    Null,
    Boolean(bool),
    Float(u64),
    Integer(i32),
    UnsignedInteger(u32),
    Date(u64),
    String(String),
    Array(Vec<Value>),
    Function(u64),
    Object(Vec<(Value, Value)>),
}

/// Equality of values.
///
/// Values of different variants are never equal. Numbers and dates compare
/// as doubles do, so no NaN is equal to anything. Arrays are equal when they
/// have the same length and are equal index by index. Two objects are equal
/// when every entry of each has an entry in the other with an equal key and
/// an equal value: they hold the same keys, with equal values, in whatever
/// order they list them.
pub open spec fn value_eq(a: Value, b: Value) -> bool
    decreases a, 0int,
{
    match a {
        Value::NoValue => b is NoValue,
        Value::Undefined => b is Undefined,
        Value::Null => b is Null,
        Value::Boolean(x) => b matches Value::Boolean(y) && x == y,
        Value::Float(x) => b matches Value::Float(y) && same_number(x, y),
        Value::Integer(x) => b matches Value::Integer(y) && x == y,
        Value::UnsignedInteger(x) => b matches Value::UnsignedInteger(y) && x == y,
        Value::Date(x) => b matches Value::Date(y) && same_number(x, y),
        Value::String(x) => b matches Value::String(y) && x@ == y@,
        Value::Function(x) => b matches Value::Function(y) && x == y,
        Value::Array(x) => match b {
            Value::Array(y) => {
                &&& x@.len() == y@.len()
                &&& forall|i: int| 0 <= i < x@.len() ==> value_eq(#[trigger] x@[i], y@[i])
            },
            _ => false,
        },
        Value::Object(x) => b matches Value::Object(y) && entries_eq(x@, y@),
    }
}

/// Equality of two objects given by their entries: each entry of either
/// side has an entry on the other side with an equal key and an equal value.
/// Keys and values of `x` stand on the left of each comparison.
pub open spec fn entries_eq(x: Seq<(Value, Value)>, y: Seq<(Value, Value)>) -> bool
    decreases x, 1int,
{
    &&& forall|i: int| 0 <= i < x.len() ==> entry_found(#[trigger] x[i], y)
    &&& forall|j: int| 0 <= j < y.len() ==> entry_matched(x, #[trigger] y[j])
}

/// Some entry of `y` has a key equal to `e`'s and a value equal to `e`'s.
pub open spec fn entry_found(e: (Value, Value), y: Seq<(Value, Value)>) -> bool
    decreases e, 0int,
{
    exists|j: int| 0 <= j < y.len() && value_eq(e.0, #[trigger] y[j].0) && value_eq(e.1, y[j].1)
}

/// Some entry of `x` has a key equal to `f`'s and a value equal to `f`'s,
/// each compared from the side of `x`.
pub open spec fn entry_matched(x: Seq<(Value, Value)>, f: (Value, Value)) -> bool
    decreases x, 0int,
{
    exists|i: int| 0 <= i < x.len() && value_eq(#[trigger] x[i].0, f.0) && value_eq(x[i].1, f.1)
}


/// The `n` low bytes of `x`, least significant first.
pub open spec fn le_bytes(x: nat, n: nat) -> Seq<u8>
    decreases n,
{
    if n == 0 {
        Seq::empty()
    } else {
        seq![(x % 256) as u8] + le_bytes(x / 256, (n - 1) as nat)
    }
}

/// The bytes a value hands to a hasher.
///
/// Each variant writes its own tag byte first. Numbers and dates follow with
/// their value truncated to an unsigned 64-bit integer, so that the two
/// zeros, which are equal, hash alike. Integers follow with their four
/// bytes, strings with their UTF-8 encoding, and arrays with the bytes of
/// each element in order. Functions write their tag alone. Objects follow
/// with the bytes of their entries, each entry being its key's bytes then
/// its value's: the distinct entry bytes in lexicographic order, so that
/// the order in which an object lists its entries does not matter.
pub open spec fn hash_feed(v: Value) -> Seq<u8>
    decreases v, 0int,
{
    match v {
        Value::NoValue => seq![0u8],
        Value::Undefined => seq![1u8],
        Value::Null => seq![3u8],
        Value::Boolean(t) => seq![if t { 4u8 } else { 5u8 }],
        Value::Float(f) => seq![6u8] + le_bytes(truncated(f) as nat, 8),
        Value::Integer(i) => seq![7u8] + le_bytes((i as u32) as nat, 4),
        Value::UnsignedInteger(u) => seq![8u8] + le_bytes(u as nat, 4),
        Value::Date(d) => seq![9u8] + le_bytes(truncated(d) as nat, 8),
        Value::String(s) => seq![10u8] + encode_utf8(s@),
        Value::Array(a) => seq![11u8] + feeds(a@),
        Value::Function(_) => seq![12u8],
        Value::Object(x) => seq![13u8] + in_order(entry_feeds(x@).to_set()).flatten_alt(),
    }
}

/// Every key of the entry list `x` is a string. (Script property names are.)
pub open spec fn string_keys(x: Seq<(Value, Value)>) -> bool {
    forall|i: int| 0 <= i < x.len() ==> (#[trigger] x[i]).0 is String
}

/// No two entries of `x` have equal keys.
pub open spec fn keys_unique(x: Seq<(Value, Value)>) -> bool {
    forall|i: int, j: int|
        0 <= i < x.len() && 0 <= j < x.len() && i != j ==> !value_eq(#[trigger] x[i].0, #[trigger] x[j].0)
}

/// The hash bytes of each entry of `x`: its key's bytes, then its value's.
pub open spec fn entry_feeds(x: Seq<(Value, Value)>) -> Seq<Seq<u8>>
    decreases x, 1int,
{
    if x.len() == 0 {
        Seq::empty()
    } else {
        entry_feeds(x.subrange(0, x.len() - 1)).push(
            hash_feed(x[x.len() - 1].0) + hash_feed(x[x.len() - 1].1),
        )
    }
}

/// The hash bytes of each value of `s`, one after another.
pub open spec fn feeds(s: Seq<Value>) -> Seq<u8>
    decreases s, 1int,
{
    if s.len() == 0 {
        Seq::empty()
    } else {
        feeds(s.subrange(0, s.len() - 1)) + hash_feed(s[s.len() - 1])
    }
}

impl Value {
    /// The bytes this value hands to a hasher (see [`hash_feed`]).
    pub fn hash_input(&self) -> (r: Vec<u8>)
        ensures
            r@ == hash_feed(*self),
    {
        let mut out: Vec<u8> = Vec::new();
        self.write_hash_input(&mut out);
        assert(out@ =~= hash_feed(*self));
        out
    }

    /// Appends the bytes this value hands to a hasher.
    fn write_hash_input(&self, out: &mut Vec<u8>)
        ensures
            final(out)@ == old(out)@ + hash_feed(*self),
        decreases *self,
    {
        match self {
            Value::NoValue => out.push(0),
            Value::Undefined => out.push(1),
            Value::Null => out.push(3),
            Value::Boolean(t) => out.push(if *t { 4 } else { 5 }),
            Value::Float(f) => {
                out.push(6);
                push_le(out, truncate_to_u64(*f), 8);
            },
            Value::Integer(i) => {
                out.push(7);
                push_le(out, (*i as u32) as u64, 4);
            },
            Value::UnsignedInteger(u) => {
                out.push(8);
                push_le(out, *u as u64, 4);
            },
            Value::Date(d) => {
                out.push(9);
                push_le(out, truncate_to_u64(*d), 8);
            },
            Value::String(s) => {
                out.push(10);
                let bytes = s.as_str().as_bytes();
                let ghost before = out@;
                let mut i: usize = 0;
                while i < bytes.len()
                    invariant
                        0 <= i <= bytes@.len(),
                        out@ == before + bytes@.subrange(0, i as int),
                    decreases bytes@.len() - i,
                {
                    out.push(bytes[i]);
                    i += 1;
                    assert(out@ =~= before + bytes@.subrange(0, i as int));
                }
                assert(bytes@.subrange(0, bytes@.len() as int) =~= bytes@);
            },
            Value::Array(a) => {
                out.push(11);
                let ghost before = out@;
                let mut i: usize = 0;
                while i < a.len()
                    invariant
                        *self == Value::Array(*a),
                        0 <= i <= a@.len(),
                        out@ == before + feeds(a@.subrange(0, i as int)),
                    decreases a@.len() - i,
                {
                    proof {
                        assert(decreases_to!(*self => (*self)->Array_0));
                        assert(decreases_to!(*a => a@));
                        assert(decreases_to!(a@ => a@[i as int]));
                    }
                    a[i].write_hash_input(out);
                    proof {
                        let next = a@.subrange(0, i + 1);
                        assert(next.subrange(0, next.len() - 1) =~= a@.subrange(0, i as int));
                        assert(next[next.len() - 1] == a@[i as int]);
                    }
                    i += 1;
                    assert(out@ =~= before + feeds(a@.subrange(0, i as int)));
                }
                assert(a@.subrange(0, a@.len() as int) =~= a@);
            },
            Value::Function(_) => out.push(12),
            Value::Object(x) => {
                out.push(13);
                let mut pieces: Vec<Vec<u8>> = Vec::new();
                let mut i: usize = 0;
                while i < x.len()
                    invariant
                        *self == Value::Object(*x),
                        0 <= i <= x@.len(),
                        strictly_sorted(views(pieces@)),
                        views(pieces@).to_set() == entry_feeds(x@.subrange(0, i as int)).to_set(),
                    decreases x@.len() - i,
                {
                    proof {
                        assert(decreases_to!(*self => (*self)->Object_0));
                        assert(decreases_to!(*x => x@));
                        assert(decreases_to!(x@ => x@[i as int]));
                        assert(decreases_to!(x@[i as int] => x@[i as int].0));
                        assert(decreases_to!(x@[i as int] => x@[i as int].1));
                    }
                    let mut piece: Vec<u8> = Vec::new();
                    x[i].0.write_hash_input(&mut piece);
                    x[i].1.write_hash_input(&mut piece);
                    let ghost feed = piece@;
                    insert_sorted(&mut pieces, piece);
                    proof {
                        let prev = entry_feeds(x@.subrange(0, i as int));
                        let next = x@.subrange(0, i + 1);
                        assert(next.subrange(0, next.len() - 1) =~= x@.subrange(0, i as int));
                        assert(feed =~= hash_feed(x@[i as int].0) + hash_feed(x@[i as int].1));
                        assert(entry_feeds(next) == prev.push(feed));
                        assert forall|f: Seq<u8>| prev.push(feed).contains(f) implies prev.to_set().insert(feed).contains(f) by {
                            let m = choose|m: int| 0 <= m < prev.len() + 1 && prev.push(feed)[m] == f;
                            if m < prev.len() {
                                assert(prev[m] == f);
                            }
                        }
                        assert forall|f: Seq<u8>| prev.to_set().insert(feed).contains(f) implies prev.push(feed).contains(f) by {
                            if f == feed {
                                assert(prev.push(feed)[prev.len() as int] == f);
                            } else {
                                let m = choose|m: int| 0 <= m < prev.len() && prev[m] == f;
                                assert(prev.push(feed)[m] == f);
                            }
                        }
                        assert(entry_feeds(next).to_set() =~= prev.to_set().insert(feed));
                    }
                    i += 1;
                }
                proof {
                    assert(x@.subrange(0, x@.len() as int) =~= x@);
                    lemma_in_order(views(pieces@));
                }
                let ghost before = out@;
                let mut k: usize = 0;
                while k < pieces.len()
                    invariant
                        0 <= k <= pieces@.len(),
                        out@ == before + views(pieces@).subrange(0, k as int).flatten_alt(),
                    decreases pieces@.len() - k,
                {
                    let piece = &pieces[k];
                    let ghost mid = out@;
                    let mut j: usize = 0;
                    while j < piece.len()
                        invariant
                            0 <= j <= piece@.len(),
                            out@ == mid + piece@.subrange(0, j as int),
                        decreases piece@.len() - j,
                    {
                        out.push(piece[j]);
                        j += 1;
                        assert(out@ =~= mid + piece@.subrange(0, j as int));
                    }
                    proof {
                        let done = views(pieces@).subrange(0, k + 1);
                        assert(done.drop_last() =~= views(pieces@).subrange(0, k as int));
                        assert(done.last() == piece@);
                        assert(piece@.subrange(0, piece@.len() as int) =~= piece@);
                    }
                    k += 1;
                    assert(out@ =~= before + views(pieces@).subrange(0, k as int).flatten_alt());
                }
                assert(views(pieces@).subrange(0, pieces@.len() as int) =~= views(pieces@));
            },
        }
        assert(out@ =~= old(out)@ + hash_feed(*self));
    }

    /// Tests two values for equality, as [`value_eq`] defines it.
    pub fn equals(&self, other: &Value) -> (r: bool)
        ensures
            r == value_eq(*self, *other),
        decreases *self, 0int,
    {
        match self {
            Value::NoValue => match other {
                Value::NoValue => true,
                _ => false,
            },
            Value::Undefined => match other {
                Value::Undefined => true,
                _ => false,
            },
            Value::Null => match other {
                Value::Null => true,
                _ => false,
            },
            Value::Boolean(x) => match other {
                Value::Boolean(y) => *x == *y,
                _ => false,
            },
            Value::Float(x) => match other {
                Value::Float(y) => numbers_equal(*x, *y),
                _ => false,
            },
            Value::Integer(x) => match other {
                Value::Integer(y) => *x == *y,
                _ => false,
            },
            Value::UnsignedInteger(x) => match other {
                Value::UnsignedInteger(y) => *x == *y,
                _ => false,
            },
            Value::Date(x) => match other {
                Value::Date(y) => numbers_equal(*x, *y),
                _ => false,
            },
            Value::String(x) => match other {
                Value::String(y) => *x == *y,
                _ => false,
            },
            Value::Function(x) => match other {
                Value::Function(y) => *x == *y,
                _ => false,
            },
            Value::Array(x) => match other {
                Value::Array(y) => {
                    if x.len() != y.len() {
                        return false;
                    }
                    let mut i: usize = 0;
                    while i < x.len()
                        invariant
                            *self == Value::Array(*x),
                            *other == Value::Array(*y),
                            x@.len() == y@.len(),
                            0 <= i <= x@.len(),
                            forall|k: int| 0 <= k < i ==> value_eq(#[trigger] x@[k], y@[k]),
                        decreases x@.len() - i,
                    {
                        proof {
                            assert(decreases_to!(*self => (*self)->Array_0));
                            assert(decreases_to!(*x => x@));
                            assert(decreases_to!(x@ => x@[i as int]));
                        }
                        if !x[i].equals(&y[i]) {
                            return false;
                        }
                        i += 1;
                    }
                    true
                },
                _ => false,
            },
            Value::Object(x) => match other {
                Value::Object(y) => {
                    proof {
                        assert(decreases_to!(*self => (*self)->Object_0));
                    }
                    entries_equal(x, y)
                },
                _ => false,
            },
        }
    }
}

/// Whether two entry lists describe equal objects (see [`value_eq`]).
fn entries_equal(x: &Vec<(Value, Value)>, y: &Vec<(Value, Value)>) -> (r: bool)
    ensures
        r == entries_eq(x@, y@),
    decreases *x, 1int,
{
    let mut i: usize = 0;
    while i < x.len()
        invariant
            0 <= i <= x@.len(),
            forall|k: int| 0 <= k < i ==> entry_found(#[trigger] x@[k], y@),
        decreases x@.len() - i,
    {
        proof {
            assert(decreases_to!(*x => x@));
            assert(decreases_to!(x@ => x@[i as int]));
        }
        if !entry_found_in(&x[i], y) {
            return false;
        }
        i += 1;
    }
    let mut j: usize = 0;
    while j < y.len()
        invariant
            0 <= j <= y@.len(),
            forall|m: int| 0 <= m < j ==> entry_matched(x@, #[trigger] y@[m]),
        decreases y@.len() - j,
    {
        if !entry_matched_by(x, &y[j]) {
            return false;
        }
        j += 1;
    }
    true
}

/// Whether some entry of `x` has a key equal to `f`'s key and a value equal
/// to `f`'s value, each compared from the side of `x`.
fn entry_matched_by(x: &Vec<(Value, Value)>, f: &(Value, Value)) -> (r: bool)
    ensures
        r == entry_matched(x@, *f),
    decreases *x, 0int,
{
    let mut k: usize = 0;
    while k < x.len()
        invariant
            0 <= k <= x@.len(),
            forall|n: int|
                #![trigger x@[n]]
                0 <= n < k ==> !(value_eq(x@[n].0, f.0) && value_eq(x@[n].1, f.1)),
        decreases x@.len() - k,
    {
        proof {
            assert(decreases_to!(*x => x@));
            assert(decreases_to!(x@ => x@[k as int]));
            assert(decreases_to!(x@[k as int] => x@[k as int].0));
            assert(decreases_to!(x@[k as int] => x@[k as int].1));
        }
        if x[k].0.equals(&f.0) && x[k].1.equals(&f.1) {
            return true;
        }
        k += 1;
    }
    false
}

/// Whether some entry of `y` has a key equal to `e`'s key and a value equal
/// to `e`'s value.
fn entry_found_in(e: &(Value, Value), y: &Vec<(Value, Value)>) -> (r: bool)
    ensures
        r == entry_found(*e, y@),
    decreases *e, 0int,
{
    let mut j: usize = 0;
    while j < y.len()
        invariant
            0 <= j <= y@.len(),
            forall|m: int|
                #![trigger y@[m]]
                0 <= m < j ==> !(value_eq(e.0, y@[m].0) && value_eq(e.1, y@[m].1)),
        decreases y@.len() - j,
    {
        if e.0.equals(&y[j].0) && e.1.equals(&y[j].1) {
            return true;
        }
        j += 1;
    }
    false
}

/// Appends the `n` low bytes of `x`, least significant first.
fn push_le(out: &mut Vec<u8>, x: u64, n: usize)
    ensures
        final(out)@ == old(out)@ + le_bytes(x as nat, n as nat),
    decreases n,
{
    if n == 0 {
        assert(out@ =~= old(out)@ + le_bytes(x as nat, n as nat));
        return;
    }
    out.push((x % 256) as u8);
    push_le(out, x / 256, n - 1);
    assert(out@ =~= old(out)@ + le_bytes(x as nat, n as nat));
}

impl PartialEq for Value {
    fn eq(&self, other: &Value) -> (r: bool) {
        self.equals(other)
    }
}

/// Declared so that values can key hash maps. A value holding a NaN number
/// or date is still not equal to itself.
impl Eq for Value {
}

impl std::hash::Hash for Value {
    /// Hands the hasher the bytes of [`Value::hash_input`] in one write.
    fn hash<H: std::hash::Hasher>(&self, state: &mut H) {
        let bytes = self.hash_input();
        write_bytes(state, bytes.as_slice());
    }
}

/// Relies on `Hasher::write`: feeds `bytes` to the hasher.
#[verifier::external_body]
fn write_bytes<H: std::hash::Hasher>(state: &mut H, bytes: &[u8]) {
    state.write(bytes)
}

impl vstd::std_specs::cmp::PartialEqSpecImpl for Value {
    open spec fn obeys_eq_spec() -> bool {
        true
    }

    open spec fn eq_spec(&self, other: &Value) -> bool {
        value_eq(*self, *other)
    }
}

} // verus!
