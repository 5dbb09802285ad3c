//! Field values and the field map a parsed layer carries.
use vstd::prelude::*;

use crate::text::{bytes_eq, owned, str_eq};

verus! {

/// The name of an extracted field.
pub type FieldName = &'static str;

/// The name of a protocol.
pub type ProtocolName = &'static str;

/// One extracted field value.
#[derive(PartialEq, Eq, Debug)]
pub enum Value {
    Bytes(Vec<u8>),
    U64(u64),
    I64(i64),
    Bool(bool),
    Str(String),
    List(Vec<Value>),
}

/// The mathematical content of a [`Value`].
#[verifier::ext_equal]
pub enum ValueView {
    Bytes(Seq<u8>),
    U64(u64),
    I64(i64),
    Bool(bool),
    Str(Seq<char>),
    List(Seq<ValueView>),
}

/// The content of a value.
pub open spec fn value_view(v: Value) -> ValueView
    decreases v,
{
    match v {
        Value::Bytes(b) => ValueView::Bytes(b@),
        Value::U64(n) => ValueView::U64(n),
        Value::I64(n) => ValueView::I64(n),
        Value::Bool(b) => ValueView::Bool(b),
        Value::Str(s) => ValueView::Str(s@),
        Value::List(l) => ValueView::List(
            Seq::new(
                l@.len(),
                |i: int|
                    if 0 <= i < l@.len() {
                        value_view(l@[i])
                    } else {
                        arbitrary()
                    },
            ),
        ),
    }
}

impl View for Value {
    type V = ValueView;

    open spec fn view(&self) -> ValueView {
        value_view(*self)
    }
}

/// The contents of a run of values.
pub open spec fn values_view(l: Seq<Value>) -> Seq<ValueView> {
    Seq::new(l.len(), |i: int| l[i]@)
}

pub proof fn lemma_list_view(l: Vec<Value>)
    ensures
        Value::List(l)@ == ValueView::List(values_view(l@)),
{
    assert(Value::List(l)@->List_0 =~= values_view(l@));
}

impl Value {
    /// Whether two values hold the same content.
    pub fn same(&self, other: &Value) -> (r: bool)
        ensures
            r == (self@ == other@),
        decreases self,
    {
        match (self, other) {
            (Value::Bytes(a), Value::Bytes(b)) => bytes_eq(a.as_slice(), b.as_slice()),
            (Value::U64(a), Value::U64(b)) => *a == *b,
            (Value::I64(a), Value::I64(b)) => *a == *b,
            (Value::Bool(a), Value::Bool(b)) => *a == *b,
            (Value::Str(a), Value::Str(b)) => str_eq(a.as_str(), b.as_str()),
            (Value::List(a), Value::List(b)) => {
                proof {
                    lemma_list_view(*a);
                    lemma_list_view(*b);
                }
                if a.len() != b.len() {
                    assert(values_view(a@).len() != values_view(b@).len());
                    return false;
                }
                let n: usize = a.len();
                let mut i: usize = 0;
                while i < n
                    invariant
                        n == a@.len(),
                        a@.len() == b@.len(),
                        i <= n,
                        self == Value::List(*a),
                        other == Value::List(*b),
                        forall|j: int| 0 <= j < i ==> a@[j]@ == b@[j]@,
                    decreases n - i,
                {
                    if !a[i].same(&b[i]) {
                        assert(self@->List_0[i as int] != other@->List_0[i as int]);
                        return false;
                    }
                    i = i + 1;
                }
                assert(self@->List_0 =~= other@->List_0);
                true
            },
            _ => false,
        }
    }
}

impl Value {
    /// A value with the same content.
    fn duplicate(&self) -> (r: Value)
        ensures
            r@ == self@,
        decreases self,
    {
        match self {
            Value::Bytes(b) => Value::Bytes(vstd::slice::slice_to_vec(b.as_slice())),
            Value::U64(n) => Value::U64(*n),
            Value::I64(n) => Value::I64(*n),
            Value::Bool(b) => Value::Bool(*b),
            Value::Str(s) => Value::Str(s.clone()),
            Value::List(l) => {
                let n: usize = l.len();
                let mut out: Vec<Value> = Vec::new();
                let mut i: usize = 0;
                while i < n
                    invariant
                        n == l@.len(),
                        i <= n,
                        self == Value::List(*l),
                        out@.len() == i,
                        forall|j: int| 0 <= j < i ==> out@[j]@ == l@[j]@,
                    decreases n - i,
                {
                    let e = &l[i];
                    assert(decreases_to!(*self => self->List_0));
                    assert(decreases_to!(self->List_0 => self->List_0@));
                    assert(decreases_to!(self->List_0@ => self->List_0@[i as int]));
                    let v = e.duplicate();
                    out.push(v);
                    i = i + 1;
                }
                proof {
                    lemma_list_view(out);
                    lemma_list_view(*l);
                    assert(values_view(out@) =~= values_view(l@));
                }
                Value::List(out)
            },
        }
    }
}

impl Clone for Value {
    fn clone(&self) -> (r: Value)
        ensures
            r@ == self@,
    {
        self.duplicate()
    }
}

/// What a value can be made of: bytes or text.
pub trait Content: Sized {
    spec fn content(&self) -> ValueView;

    fn into_value(self) -> (r: Value)
        ensures
            r@ == self.content(),
    ;
}

impl<'a> Content for &'a [u8] {
    open spec fn content(&self) -> ValueView {
        ValueView::Bytes((*self)@)
    }

    fn into_value(self) -> (r: Value) {
        Value::Bytes(vstd::slice::slice_to_vec(self))
    }
}

impl<'a> Content for &'a str {
    open spec fn content(&self) -> ValueView {
        ValueView::Str((*self)@)
    }

    fn into_value(self) -> (r: Value) {
        Value::Str(owned(self))
    }
}

impl Value {
    /// A value of some bytes or some text.
    pub fn from<T: Content>(content: T) -> (r: Value)
        ensures
            r@ == content.content(),
    {
        content.into_value()
    }
}

/// Field name to value.
pub type Fields = Map<Seq<char>, ValueView>;

/// What a run of entries maps each name to: the first entry of a name counts.
pub open spec fn entries_map(s: Seq<(FieldName, Value)>) -> Fields
    decreases s.len(),
{
    if s.len() == 0 {
        Map::empty()
    } else {
        entries_map(s.drop_first()).insert(s[0].0@, s[0].1@)
    }
}

/// The fields one layer exposes, in insertion order; inserting under a name
/// already present replaces its value.
#[derive(PartialEq, Eq, Debug)]
pub struct FieldMap {
    entries: Vec<(FieldName, Value)>,
}

impl View for FieldMap {
    type V = Fields;

    closed spec fn view(&self) -> Fields {
        entries_map(self.entries@)
    }
}

spec fn distinct_names(s: Seq<(FieldName, Value)>) -> bool {
    forall|i: int, j: int| 0 <= i < j < s.len() ==> s[i].0@ != s[j].0@
}

proof fn lemma_entries_absent(s: Seq<(FieldName, Value)>, name: Seq<char>)
    requires
        forall|i: int| 0 <= i < s.len() ==> s[i].0@ != name,
    ensures
        !entries_map(s).contains_key(name),
    decreases s.len(),
{
    if s.len() > 0 {
        assert forall|i: int| 0 <= i < s.drop_first().len() implies s.drop_first()[i].0@ != name by {
            assert(s.drop_first()[i] == s[i + 1]);
        }
        lemma_entries_absent(s.drop_first(), name);
    }
}

proof fn lemma_entries_first(s: Seq<(FieldName, Value)>, k: int)
    requires
        0 <= k < s.len(),
        forall|i: int| 0 <= i < k ==> s[i].0@ != s[k].0@,
    ensures
        entries_map(s).contains_key(s[k].0@),
        entries_map(s)[s[k].0@] == s[k].1@,
    decreases s.len(),
{
    if k > 0 {
        let t = s.drop_first();
        assert(t[k - 1] == s[k]);
        assert forall|i: int| 0 <= i < k - 1 implies #[trigger] t[i].0@ != t[k - 1].0@ by {
            assert(t[i] == s[i + 1]);
        }
        lemma_entries_first(t, k - 1);
    }
}

proof fn lemma_entries_push(s: Seq<(FieldName, Value)>, e: (FieldName, Value))
    requires
        forall|i: int| 0 <= i < s.len() ==> s[i].0@ != e.0@,
    ensures
        entries_map(s.push(e)) == entries_map(s).insert(e.0@, e.1@),
    decreases s.len(),
{
    if s.len() == 0 {
        assert(s.push(e).drop_first() =~= s);
    } else {
        let t = s.drop_first();
        assert(s.push(e).drop_first() =~= t.push(e));
        assert forall|i: int| 0 <= i < t.len() implies t[i].0@ != e.0@ by {
            assert(t[i] == s[i + 1]);
        }
        lemma_entries_push(t, e);
        assert(s[0].0@ != e.0@);
        assert(s.push(e)[0] == s[0]);
        assert(entries_map(s.push(e)) =~= entries_map(s).insert(e.0@, e.1@));
    }
}

proof fn lemma_entries_update(s: Seq<(FieldName, Value)>, k: int, e: (FieldName, Value))
    requires
        0 <= k < s.len(),
        s[k].0@ == e.0@,
        forall|i: int| 0 <= i < k ==> s[i].0@ != e.0@,
    ensures
        entries_map(s.update(k, e)) == entries_map(s).insert(e.0@, e.1@),
    decreases s.len(),
{
    let u = s.update(k, e);
    if k == 0 {
        assert(u.drop_first() =~= s.drop_first());
        assert(entries_map(u) =~= entries_map(s).insert(e.0@, e.1@));
    } else {
        let t = s.drop_first();
        assert(u.drop_first() =~= t.update(k - 1, e));
        assert forall|i: int| 0 <= i < k - 1 implies t[i].0@ != e.0@ by {
            assert(t[i] == s[i + 1]);
        }
        lemma_entries_update(t, k - 1, e);
        assert(s[0].0@ != e.0@);
        assert(entries_map(u) =~= entries_map(s).insert(e.0@, e.1@));
    }
}

proof fn lemma_entries_len(s: Seq<(FieldName, Value)>)
    requires
        distinct_names(s),
    ensures
        entries_map(s).dom().finite(),
        entries_map(s).dom().len() == s.len(),
    decreases s.len(),
{
    if s.len() == 0 {
        assert(entries_map(s).dom() =~= Set::empty());
    } else {
        let t = s.drop_first();
        assert(distinct_names(t)) by {
            assert forall|i: int, j: int| 0 <= i < j < t.len() implies t[i].0@ != t[j].0@ by {
                assert(t[i] == s[i + 1] && t[j] == s[j + 1]);
            }
        }
        lemma_entries_len(t);
        assert forall|i: int| 0 <= i < t.len() implies t[i].0@ != s[0].0@ by {
            assert(t[i] == s[i + 1]);
        }
        lemma_entries_absent(t, s[0].0@);
        assert(entries_map(s).dom() =~= entries_map(t).dom().insert(s[0].0@));
    }
}

impl FieldMap {
    #[verifier::type_invariant]
    spec fn names_are_distinct(self) -> bool {
        distinct_names(self.entries@)
    }

    pub fn new() -> (r: FieldMap)
        ensures
            r@ == Map::<Seq<char>, ValueView>::empty(),
    {
        FieldMap { entries: Vec::new() }
    }

    /// The position of `name`'s entry, or the number of entries.
    fn position(&self, name: &str) -> (r: usize)
        ensures
            r <= self.entries@.len(),
            r < self.entries@.len() ==> self.entries@[r as int].0@ == name@,
            forall|i: int| 0 <= i < r ==> self.entries@[i].0@ != name@,
    {
        let n: usize = self.entries.len();
        let mut i: usize = 0;
        while i < n
            invariant
                n == self.entries@.len(),
                i <= n,
                forall|j: int| 0 <= j < i ==> self.entries@[j].0@ != name@,
            decreases n - i,
        {
            if str_eq(self.entries[i].0, name) {
                return i;
            }
            i = i + 1;
        }
        n
    }

    pub fn get(&self, name: &str) -> (r: Option<&Value>)
        ensures
            r is Some <==> self@.contains_key(name@),
            r matches Some(v) ==> v@ == self@[name@],
    {
        let i: usize = self.position(name);
        if i < self.entries.len() {
            proof {
                lemma_entries_first(self.entries@, i as int);
            }
            Some(&self.entries[i].1)
        } else {
            proof {
                lemma_entries_absent(self.entries@, name@);
            }
            None
        }
    }

    pub fn insert(&mut self, name: FieldName, value: Value)
        ensures
            final(self)@ == old(self)@.insert(name@, value@),
    {
        let i: usize = self.position(name);
        proof {
            use_type_invariant(&*self);
        }
        let mut entries: Vec<(FieldName, Value)> = Vec::new();
        std::mem::swap(&mut entries, &mut self.entries);
        let ghost before = entries@;
        if i < entries.len() {
            entries.set(i, (name, value));
            proof {
                lemma_entries_update(before, i as int, (name, value));
            }
        } else {
            entries.push((name, value));
            proof {
                lemma_entries_push(before, (name, value));
            }
        }
        self.entries = entries;
    }

    /// The number of fields.
    pub fn len(&self) -> (n: usize)
        ensures
            self@.dom().finite(),
            n == self@.dom().len(),
    {
        proof {
            use_type_invariant(self);
            lemma_entries_len(self.entries@);
        }
        self.entries.len()
    }

    pub fn is_empty(&self) -> (r: bool)
        ensures
            r == (self@ == Map::<Seq<char>, ValueView>::empty()),
    {
        proof {
            if self.entries@.len() > 0 {
                lemma_entries_first(self.entries@, 0);
            }
        }
        self.entries.len() == 0
    }
}

impl Clone for FieldMap {
    fn clone(&self) -> (r: FieldMap)
        ensures
            r@ == self@,
    {
        proof {
            use_type_invariant(self);
        }
        let n: usize = self.entries.len();
        let mut out: Vec<(FieldName, Value)> = Vec::new();
        let mut i: usize = 0;
        while i < n
            invariant
                n == self.entries@.len(),
                i <= n,
                out@.len() == i,
                forall|j: int|
                    0 <= j < i ==> #[trigger] out@[j].0 == self.entries@[j].0 && out@[j].1@
                        == self.entries@[j].1@,
            decreases n - i,
        {
            out.push((self.entries[i].0, self.entries[i].1.clone()));
            i = i + 1;
        }
        proof {
            lemma_entries_same(out@, self.entries@);
        }
        FieldMap { entries: out }
    }
}

proof fn lemma_entries_same(a: Seq<(FieldName, Value)>, b: Seq<(FieldName, Value)>)
    requires
        a.len() == b.len(),
        forall|j: int|
            0 <= j < a.len() ==> #[trigger] a[j].0 == b[j].0 && a[j].1@ == b[j].1@,
    ensures
        entries_map(a) == entries_map(b),
    decreases a.len(),
{
    if a.len() > 0 {
        let ta = a.drop_first();
        let tb = b.drop_first();
        assert forall|j: int| 0 <= j < ta.len() implies #[trigger] ta[j].0 == tb[j].0 && ta[j].1@
            == tb[j].1@ by {
            assert(ta[j] == a[j + 1] && tb[j] == b[j + 1]);
        }
        assert(a[0].0 == b[0].0);
        lemma_entries_same(ta, tb);
    }
}

} // verus!
