//! The dynamic element model.
//!
//! Every container in this crate stores [`Value`]s: owned, dynamically typed
//! elements mirroring a host language's scalar and sequence values. Equality,
//! ordering and kind checks are defined here and delegated to by every
//! container operation. In specifications a `Value` is abstracted by its view,
//! a [`ValSpec`], so that two values are interchangeable exactly when they
//! hold the same mathematical content.

use vstd::prelude::*;

verus! {

/// The runtime kind of a [`Value`]; containers may declare one and then
/// reject insertions of any other kind.
#[derive(Clone, Copy, Debug, PartialEq, Eq, Structural)]
pub enum Kind {
    Null,
    Bool,
    Int,
    Text,
    List,
}

/// A dynamically typed element value.
#[derive(Debug)]
pub enum Value {
    Null,
    Bool(bool),
    Int(i64),
    Text(Vec<u8>),
    List(Vec<Value>),
}

/// The mathematical content of a [`Value`].
pub ghost enum ValSpec {
    Null,
    Bool(bool),
    Int(int),
    Text(Seq<u8>),
    List(Seq<ValSpec>),
}

/// The content of a value, recursively.
pub open spec fn spec_view_of(v: Value) -> ValSpec
    decreases v,
    via spec_view_of_decreases
{
    match v {
        Value::Null => ValSpec::Null,
        Value::Bool(b) => ValSpec::Bool(b),
        Value::Int(i) => ValSpec::Int(i as int),
        Value::Text(t) => ValSpec::Text(t@),
        Value::List(items) => ValSpec::List(views_of(items@)),
    }
}

/// The views of a sequence of values, element-wise.
pub open spec fn views_of(s: Seq<Value>) -> Seq<ValSpec>
    decreases s,
{
    if s.len() == 0 {
        Seq::empty()
    } else {
        views_of(s.drop_last()).push(spec_view_of(s.last()))
    }
}

#[via_fn]
proof fn spec_view_of_decreases(v: Value) {
    if let Value::List(items) = v {
        assert(decreases_to!(v => items));
        assert(decreases_to!(items => items@));
    }
}

/// `views_of` maps the view over the sequence, element by element.
pub broadcast proof fn lemma_views_of(s: Seq<Value>)
    ensures
        (#[trigger] views_of(s)).len() == s.len(),
        forall|i: int| 0 <= i < s.len() ==> views_of(s)[i] == s[i]@,
    decreases s.len(),
{
    if s.len() > 0 {
        lemma_views_of(s.drop_last());
    }
}

impl View for Value {
    type V = ValSpec;

    open spec fn view(&self) -> ValSpec {
        spec_view_of(*self)
    }
}

/// The kind of a value.
pub open spec fn kind_of(v: ValSpec) -> Kind {
    match v {
        ValSpec::Null => Kind::Null,
        ValSpec::Bool(_) => Kind::Bool,
        ValSpec::Int(_) => Kind::Int,
        ValSpec::Text(_) => Kind::Text,
        ValSpec::List(_) => Kind::List,
    }
}

impl Value {
    /// The runtime kind of this value.
    pub fn kind(&self) -> (k: Kind)
        ensures
            k == kind_of(self@),
    {
        match self {
            Value::Null => Kind::Null,
            Value::Bool(_) => Kind::Bool,
            Value::Int(_) => Kind::Int,
            Value::Text(_) => Kind::Text,
            Value::List(_) => Kind::List,
        }
    }

    /// A fresh value with the same content.
    pub fn deep_copy(&self) -> (r: Value)
        ensures
            r@ == self@,
        decreases self,
    {
        match self {
            Value::Null => Value::Null,
            Value::Bool(b) => Value::Bool(*b),
            Value::Int(i) => Value::Int(*i),
            Value::Text(t) => {
                let mut bytes: Vec<u8> = Vec::new();
                let mut i: usize = 0;
                while i < t.len()
                    invariant
                        bytes@ == t@.subrange(0, i as int),
                        i <= t.len(),
                    decreases t.len() - i,
                {
                    bytes.push(t[i]);
                    assert(bytes@ == t@.subrange(0, i + 1 as int));
                    i = i + 1;
                }
                assert(bytes@ == t@);
                Value::Text(bytes)
            },
            Value::List(items) => {
                let mut copied: Vec<Value> = Vec::new();
                let mut i: usize = 0;
                proof {
                    lemma_views_of(items@);
                }
                while i < items.len()
                    invariant
                        copied.len() == i,
                        i <= items.len(),
                        forall|j: int| 0 <= j < i ==> copied[j]@ == items[j]@,
                    decreases items.len() - i,
                {
                    copied.push(items[i].deep_copy());
                    i = i + 1;
                }
                let r = Value::List(copied);
                proof {
                    lemma_views_of(copied@);
                }
                assert(r@ matches ValSpec::List(s) && s =~= self@->List_0);
                r
            },
        }
    }
}

/// Whether two values can be ordered against each other: both of the same
/// kind, and of a kind that carries an order (booleans, integers or text).
pub open spec fn comparable(a: ValSpec, b: ValSpec) -> bool {
    kind_of(a) == kind_of(b) && (kind_of(a) == Kind::Bool || kind_of(a) == Kind::Int || kind_of(a)
        == Kind::Text)
}

/// Lexicographic byte order on text content.
pub open spec fn lex_le(s: Seq<u8>, t: Seq<u8>) -> bool
    decreases s.len(),
{
    if s.len() == 0 {
        true
    } else if t.len() == 0 {
        false
    } else if s[0] < t[0] {
        true
    } else if s[0] > t[0] {
        false
    } else {
        lex_le(s.drop_first(), t.drop_first())
    }
}

/// The order on comparable values: false before true, integer order,
/// lexicographic byte order on text.
pub open spec fn val_le(a: ValSpec, b: ValSpec) -> bool {
    match (a, b) {
        (ValSpec::Bool(x), ValSpec::Bool(y)) => !x || y,
        (ValSpec::Int(x), ValSpec::Int(y)) => x <= y,
        (ValSpec::Text(x), ValSpec::Text(y)) => lex_le(x, y),
        _ => true,
    }
}

proof fn lemma_lex_le_total(s: Seq<u8>, t: Seq<u8>)
    ensures
        lex_le(s, t) || lex_le(t, s),
    decreases s.len(),
{
    if s.len() > 0 && t.len() > 0 && s[0] == t[0] {
        lemma_lex_le_total(s.drop_first(), t.drop_first());
    }
}

proof fn lemma_lex_le_antisym(s: Seq<u8>, t: Seq<u8>)
    requires
        lex_le(s, t),
        lex_le(t, s),
    ensures
        s == t,
    decreases s.len(),
{
    if s.len() > 0 && t.len() > 0 && s[0] == t[0] {
        lemma_lex_le_antisym(s.drop_first(), t.drop_first());
        assert forall|i: int| 0 <= i < s.len() implies s[i] == t[i] by {
            if i > 0 {
                assert(s[i] == s.drop_first()[i - 1]);
                assert(t[i] == t.drop_first()[i - 1]);
            }
        }
        assert(s =~= t);
    } else {
        assert(s.len() == 0 && t.len() == 0);
        assert(s =~= t);
    }
}

proof fn lemma_lex_le_trans(s: Seq<u8>, t: Seq<u8>, u: Seq<u8>)
    requires
        lex_le(s, t),
        lex_le(t, u),
    ensures
        lex_le(s, u),
    decreases s.len(),
{
    if s.len() > 0 && t.len() > 0 && u.len() > 0 && s[0] == t[0] && t[0] == u[0] {
        lemma_lex_le_trans(s.drop_first(), t.drop_first(), u.drop_first());
    }
}

proof fn lemma_lex_le_refl(s: Seq<u8>)
    ensures
        lex_le(s, s),
    decreases s.len(),
{
    if s.len() > 0 {
        lemma_lex_le_refl(s.drop_first());
    }
}

/// Every value orders at or below itself.
pub proof fn lemma_val_le_refl(a: ValSpec)
    ensures
        val_le(a, a),
{
    if let ValSpec::Text(s) = a {
        lemma_lex_le_refl(s);
    }
}

/// The order on comparable values is total.
pub proof fn lemma_val_le_total(a: ValSpec, b: ValSpec)
    requires
        comparable(a, b),
    ensures
        val_le(a, b) || val_le(b, a),
{
    if let (ValSpec::Text(s), ValSpec::Text(t)) = (a, b) {
        lemma_lex_le_total(s, t);
    }
}

/// Two comparable values each at most the other are equal.
pub proof fn lemma_val_le_antisym(a: ValSpec, b: ValSpec)
    requires
        comparable(a, b),
        val_le(a, b),
        val_le(b, a),
    ensures
        a == b,
{
    if let (ValSpec::Text(s), ValSpec::Text(t)) = (a, b) {
        lemma_lex_le_antisym(s, t);
    }
}

/// The order on comparable values is transitive.
pub proof fn lemma_val_le_trans(a: ValSpec, b: ValSpec, c: ValSpec)
    requires
        comparable(a, b),
        comparable(b, c),
        val_le(a, b),
        val_le(b, c),
    ensures
        val_le(a, c),
{
    if let (ValSpec::Text(s), ValSpec::Text(t), ValSpec::Text(u)) = (a, b, c) {
        lemma_lex_le_trans(s, t, u);
    }
}

/// Whether `a` orders at or below `b`.
///
/// Both values must share a comparable kind; container operations check that
/// before calling and report a mismatch themselves.
pub fn le_value(a: &Value, b: &Value) -> (r: bool)
    requires
        comparable(a@, b@),
    ensures
        r == val_le(a@, b@),
{
    match (a, b) {
        (Value::Bool(x), Value::Bool(y)) => !*x || *y,
        (Value::Int(x), Value::Int(y)) => x <= y,
        (Value::Text(x), Value::Text(y)) => {
            let mut i: usize = 0;
            proof {
                assert(x@.skip(0) =~= x@);
                assert(y@.skip(0) =~= y@);
            }
            loop
                invariant
                    i <= x.len(),
                    i <= y.len(),
                    x@.subrange(0, i as int) =~= y@.subrange(0, i as int),
                    lex_le(x@, y@) == lex_le(x@.skip(i as int), y@.skip(i as int)),
                decreases x.len() - i,
            {
                if i == x.len() {
                    assert(x@.skip(i as int).len() == 0);
                    return true;
                }
                if i == y.len() {
                    assert(y@.skip(i as int).len() == 0 && x@.skip(i as int).len() > 0);
                    return false;
                }
                let xb = x[i];
                let yb = y[i];
                if xb < yb {
                    assert(x@.skip(i as int)[0] < y@.skip(i as int)[0]);
                    return true;
                }
                if xb > yb {
                    assert(x@.skip(i as int)[0] > y@.skip(i as int)[0]);
                    return false;
                }
                proof {
                    assert(x@.skip(i as int)[0] == y@.skip(i as int)[0]);
                    assert(x@.skip(i as int).drop_first() =~= x@.skip(i + 1));
                    assert(y@.skip(i as int).drop_first() =~= y@.skip(i + 1));
                    assert(x@.subrange(0, i + 1) =~= y@.subrange(0, i + 1));
                }
                i = i + 1;
            }
        },
        _ => {
            // `comparable` rules out every remaining pairing.
            assert(false);
            false
        },
    }
}

/// Whether two values hold the same content. This is the equality every
/// container operation compares elements by.
pub fn eq_value(a: &Value, b: &Value) -> (r: bool)
    ensures
        r == (a@ == b@),
    decreases a,
{
    match (a, b) {
        (Value::Null, Value::Null) => true,
        (Value::Bool(x), Value::Bool(y)) => x == y,
        (Value::Int(x), Value::Int(y)) => x == y,
        (Value::Text(x), Value::Text(y)) => {
            if x.len() != y.len() {
                assert(a@ != b@) by {
                    assert(a@->Text_0.len() != b@->Text_0.len());
                }
                false
            } else {
                let mut i: usize = 0;
                let mut same = true;
                while i < x.len()
                    invariant
                        i <= x.len(),
                        same == (x@.subrange(0, i as int) =~= y@.subrange(0, i as int)),
                    decreases x.len() - i,
                {
                    if x[i] != y[i] {
                        same = false;
                        assert(x@.subrange(0, i + 1 as int)[i as int] != y@.subrange(
                            0,
                            i + 1 as int,
                        )[i as int]);
                    } else {
                        assert(same ==> x@.subrange(0, i + 1 as int) =~= y@.subrange(
                            0,
                            i + 1 as int,
                        ));
                        assert(!same ==> x@.subrange(0, i as int) != y@.subrange(0, i as int));
                        assert(!same ==> x@.subrange(0, i + 1 as int).subrange(0, i as int)
                            =~= x@.subrange(0, i as int));
                        assert(!same ==> y@.subrange(0, i + 1 as int).subrange(0, i as int)
                            =~= y@.subrange(0, i as int));
                    }
                    i = i + 1;
                }
                assert(x@.subrange(0, x.len() as int) =~= x@);
                assert(y@.subrange(0, y.len() as int) =~= y@);
                same
            }
        },
        (Value::List(x), Value::List(y)) => {
            proof {
                lemma_views_of(x@);
                lemma_views_of(y@);
            }
            if x.len() != y.len() {
                assert(a@ != b@) by {
                    assert(a@->List_0.len() != b@->List_0.len());
                }
                false
            } else {
                let mut i: usize = 0;
                let mut same = true;
                while i < x.len()
                    invariant
                        i <= x.len(),
                        same ==> forall|j: int| 0 <= j < i ==> x[j]@ == y[j]@,
                        !same ==> a@ != b@,
                    decreases x.len() - i,
                {
                    if same {
                        if !eq_value(&x[i], &y[i]) {
                            same = false;
                            assert(a@->List_0[i as int] != b@->List_0[i as int]);
                        }
                    }
                    i = i + 1;
                }
                if same {
                    assert(a@->List_0 =~= b@->List_0);
                }
                same
            }
        },
        _ => {
            assert(kind_of(a@) != kind_of(b@));
            false
        },
    }
}

} // verus!
