use vstd::prelude::*;

use crate::text::{chars_lt, str_lt};

verus! {

// Ghost mirror of a tagged value, over sequences and unbounded integers.
pub enum SpecValue {
    Null,
    Bool(bool),
    Int(int),
    Text(Seq<char>),
    Arr(Seq<SpecValue>),
    Obj(Seq<(Seq<char>, SpecValue)>),
}

/// The largest magnitude a canonical integer may have: the range in which
/// every double-precision reader reproduces the value exactly.
pub const MAX_CANONICAL_INT: i64 = 9007199254740991;

// A dynamically-typed constraint value, the payload a nota bene record maps
// its keys to.  Numbers are integers within the exactly-representable
// range: the canonical text form never carries a fraction or an exponent.
#[derive(Debug, PartialEq, Eq)]
pub enum Value {
    Null,
    Bool(bool),
    Int(i64),
    Text(String),
    Arr(Vec<Value>),
    Obj(Vec<(String, Value)>),
}

pub open spec fn spec_value_of(v: Value) -> SpecValue
    decreases v,
{
    match v {
        Value::Null => SpecValue::Null,
        Value::Bool(b) => SpecValue::Bool(b),
        Value::Int(i) => SpecValue::Int(i as int),
        Value::Text(s) => SpecValue::Text(s@),
        Value::Arr(items) => SpecValue::Arr(spec_values_of(items@)),
        Value::Obj(fields) => SpecValue::Obj(spec_fields_of(fields@)),
    }
}

pub open spec fn spec_values_of(s: Seq<Value>) -> Seq<SpecValue>
    decreases s,
{
    if s.len() == 0 {
        Seq::empty()
    } else {
        seq![spec_value_of(s[0])] + spec_values_of(s.drop_first())
    }
}

pub open spec fn spec_fields_of(s: Seq<(String, Value)>) -> Seq<(Seq<char>, SpecValue)>
    decreases s,
{
    if s.len() == 0 {
        Seq::empty()
    } else {
        seq![(s[0].0@, spec_value_of(s[0].1))] + spec_fields_of(s.drop_first())
    }
}

impl View for Value {
    type V = SpecValue;

    open spec fn view(&self) -> SpecValue {
        spec_value_of(*self)
    }
}

pub proof fn lemma_spec_values_of_index(s: Seq<Value>)
    ensures
        spec_values_of(s).len() == s.len(),
        forall|i: int| 0 <= i < s.len() ==> spec_values_of(s)[i] == spec_value_of(s[i]),
    decreases s,
{
    if s.len() > 0 {
        lemma_spec_values_of_index(s.drop_first());
        assert(forall|i: int|
            0 <= i < s.len() - 1 ==> #[trigger] s.drop_first()[i] == s[i + 1]);
    }
}

pub proof fn lemma_spec_fields_of_index(s: Seq<(String, Value)>)
    ensures
        spec_fields_of(s).len() == s.len(),
        forall|i: int| 0 <= i < s.len() ==> #[trigger] spec_fields_of(s)[i] == (
            s[i].0@,
            spec_value_of(s[i].1),
        ),
    decreases s,
{
    if s.len() > 0 {
        lemma_spec_fields_of_index(s.drop_first());
        assert(forall|i: int|
            0 <= i < s.len() - 1 ==> #[trigger] s.drop_first()[i] == s[i + 1]);
    }
}

// Canonical form: object keys strictly ascending at every level, integers
// within the exactly-representable range.
pub open spec fn spec_value_wf(v: SpecValue) -> bool
    decreases v,
{
    match v {
        SpecValue::Null => true,
        SpecValue::Bool(_) => true,
        SpecValue::Int(i) => -MAX_CANONICAL_INT <= i <= MAX_CANONICAL_INT,
        SpecValue::Text(_) => true,
        SpecValue::Arr(items) => forall|i: int|
            0 <= i < items.len() ==> spec_value_wf(#[trigger] items[i]),
        SpecValue::Obj(fields) => {
            &&& forall|i: int| 0 <= i < fields.len() ==> spec_value_wf(
                (#[trigger] fields[i]).1,
            )
            &&& forall|i: int, j: int|
                0 <= i < j < fields.len() ==> chars_lt(fields[i].0, fields[j].0)
        },
    }
}

// Strictly ascending neighbours give a strictly ascending sequence.
pub proof fn lemma_adjacent_sorted_fields(fields: Seq<(Seq<char>, SpecValue)>)
    requires
        forall|i: int|
            0 <= i < fields.len() - 1 ==> chars_lt((#[trigger] fields[i]).0, fields[i + 1].0),
    ensures
        forall|i: int, j: int|
            0 <= i < j < fields.len() ==> chars_lt((#[trigger] fields[i]).0, (#[trigger] fields[j]).0),
{
    assert forall|i: int, j: int| 0 <= i < j < fields.len() implies chars_lt(
        (#[trigger] fields[i]).0,
        (#[trigger] fields[j]).0,
    ) by {
        lemma_adjacent_sorted_fields_span(fields, i, j);
    }
}

proof fn lemma_adjacent_sorted_fields_span(fields: Seq<(Seq<char>, SpecValue)>, i: int, j: int)
    requires
        forall|k: int|
            0 <= k < fields.len() - 1 ==> chars_lt((#[trigger] fields[k]).0, fields[k + 1].0),
        0 <= i < j < fields.len(),
    ensures
        chars_lt(fields[i].0, fields[j].0),
    decreases j - i,
{
    if i + 1 == j {
        assert(chars_lt(fields[i].0, fields[i + 1].0));
    } else {
        lemma_adjacent_sorted_fields_span(fields, i, j - 1);
        assert(chars_lt(fields[j - 1].0, fields[j].0));
        crate::text::lemma_chars_lt_transitive(fields[i].0, fields[j - 1].0, fields[j].0);
    }
}

pub proof fn lemma_wf_arr_elem(items: Seq<SpecValue>, i: int)
    requires
        spec_value_wf(SpecValue::Arr(items)),
        0 <= i < items.len(),
    ensures
        spec_value_wf(items[i]),
{
    let v = SpecValue::Arr(items);
    assert(v->Arr_0 == items);
    assert(spec_value_wf(v->Arr_0[i]));
}

pub proof fn lemma_wf_obj_field(fields: Seq<(Seq<char>, SpecValue)>, i: int)
    requires
        spec_value_wf(SpecValue::Obj(fields)),
        0 <= i < fields.len(),
    ensures
        spec_value_wf(fields[i].1),
{
    let v = SpecValue::Obj(fields);
    assert(v->Obj_0 == fields);
    assert(spec_value_wf(v->Obj_0[i].1));
}

pub proof fn lemma_wf_obj_sorted(fields: Seq<(Seq<char>, SpecValue)>, i: int, j: int)
    requires
        spec_value_wf(SpecValue::Obj(fields)),
        0 <= i < j < fields.len(),
    ensures
        chars_lt(fields[i].0, fields[j].0),
{
    let v = SpecValue::Obj(fields);
    assert(v->Obj_0 == fields);
    assert(chars_lt(v->Obj_0[i].0, v->Obj_0[j].0));
}

pub proof fn lemma_wf_arr_intro(items: Seq<SpecValue>)
    requires
        forall|i: int| 0 <= i < items.len() ==> spec_value_wf(#[trigger] items[i]),
    ensures
        spec_value_wf(SpecValue::Arr(items)),
{
    let v = SpecValue::Arr(items);
    assert(v->Arr_0 == items);
    assert(forall|i: int| 0 <= i < v->Arr_0.len() ==> spec_value_wf(#[trigger] v->Arr_0[i]));
}

pub proof fn lemma_wf_obj_intro(fields: Seq<(Seq<char>, SpecValue)>)
    requires
        forall|i: int| 0 <= i < fields.len() ==> spec_value_wf((#[trigger] fields[i]).1),
        forall|i: int, j: int|
            0 <= i < j < fields.len() ==> chars_lt((#[trigger] fields[i]).0, (#[trigger] fields[j]).0),
    ensures
        spec_value_wf(SpecValue::Obj(fields)),
{
    let v = SpecValue::Obj(fields);
    assert(v->Obj_0 == fields);
    assert(forall|i: int| 0 <= i < v->Obj_0.len() ==> spec_value_wf(
        (#[trigger] v->Obj_0[i]).1,
    ));
    assert(forall|i: int, j: int| 0 <= i < j < v->Obj_0.len() ==> chars_lt(
        (#[trigger] v->Obj_0[i]).0,
        (#[trigger] v->Obj_0[j]).0,
    ));
}

// A structural copy of a value.
#[verifier::loop_isolation(false)]
pub fn clone_value(v: &Value) -> (r: Value)
    ensures
        r@ == v@,
    decreases *v,
{
    match v {
        Value::Null => Value::Null,
        Value::Bool(b) => Value::Bool(*b),
        Value::Int(i) => Value::Int(*i),
        Value::Text(s) => Value::Text(s.clone()),
        Value::Arr(items) => {
            proof {
                lemma_spec_values_of_index(items@);
            }
            let n = items.len();
            let mut out: Vec<Value> = Vec::new();
            while out.len() < n
                invariant
                    out@.len() <= n,
                    spec_values_of(out@).len() == out@.len(),
                    forall|k: int| 0 <= k < out@.len() ==> #[trigger] spec_values_of(
                        out@,
                    )[k] == spec_values_of(items@)[k],
                decreases n - out@.len(),
            {
                let j = out.len();
                proof {
                    assert(decreases_to!(*v => (*v)->Arr_0));
                    assert(decreases_to!((*v)->Arr_0 => items@));
                    assert(decreases_to!(items@ => items@[j as int]));
                }
                let ghost pre = out@;
                let c = clone_value(&items[j]);
                out.push(c);
                proof {
                    lemma_spec_values_of_index(out@);
                    lemma_spec_values_of_index(pre);
                    assert(out@[j as int] == c);
                    assert forall|k: int| 0 <= k < out@.len() implies #[trigger] spec_values_of(
                        out@,
                    )[k] == spec_values_of(items@)[k] by {
                        if k < j {
                            assert(out@[k] == pre[k]);
                            assert(spec_values_of(pre)[k] == pre[k]@);
                        }
                    }
                }
            }
            proof {
                assert(spec_values_of(out@) =~= spec_values_of(items@));
            }
            Value::Arr(out)
        },
        Value::Obj(fields) => {
            proof {
                lemma_spec_fields_of_index(fields@);
            }
            let n = fields.len();
            let mut out: Vec<(String, Value)> = Vec::new();
            while out.len() < n
                invariant
                    out@.len() <= n,
                    spec_fields_of(out@).len() == out@.len(),
                    forall|k: int| 0 <= k < out@.len() ==> #[trigger] spec_fields_of(
                        out@,
                    )[k] == spec_fields_of(fields@)[k],
                decreases n - out@.len(),
            {
                let j = out.len();
                proof {
                    assert(decreases_to!(*v => (*v)->Obj_0));
                    assert(decreases_to!((*v)->Obj_0 => fields@));
                    assert(decreases_to!(fields@ => fields@[j as int]));
                    assert(decreases_to!(fields@[j as int] => fields@[j as int].1));
                }
                let ghost pre = out@;
                let key = fields[j].0.clone();
                let c = clone_value(&fields[j].1);
                out.push((key, c));
                proof {
                    lemma_spec_fields_of_index(out@);
                    lemma_spec_fields_of_index(pre);
                    assert(out@[j as int] == (key, c));
                    assert forall|k: int| 0 <= k < out@.len() implies #[trigger] spec_fields_of(
                        out@,
                    )[k] == spec_fields_of(fields@)[k] by {
                        if k < j {
                            assert(out@[k] == pre[k]);
                            assert(spec_fields_of(pre)[k] == (pre[k].0@, spec_value_of(pre[k].1)));
                        }
                    }
                }
            }
            proof {
                assert(spec_fields_of(out@) =~= spec_fields_of(fields@));
            }
            Value::Obj(out)
        },
    }
}

// Executable decision procedure for canonical form.
#[verifier::loop_isolation(false)]
pub fn value_is_canonical(v: &Value) -> (r: bool)
    ensures
        r == spec_value_wf(v@),
    decreases *v,
{
    match v {
        Value::Null => true,
        Value::Bool(_) => true,
        Value::Int(i) => -MAX_CANONICAL_INT <= *i && *i <= MAX_CANONICAL_INT,
        Value::Text(_) => true,
        Value::Arr(items) => {
            proof {
                lemma_spec_values_of_index(items@);
            }
            let n = items.len();
            let mut j: usize = 0;
            while j < n
                invariant
                    j <= n,
                    n == items@.len(),
                    spec_values_of(items@).len() == items@.len(),
                    forall|k: int| 0 <= k < items@.len() ==> spec_values_of(items@)[k]
                        == spec_value_of(items@[k]),
                    forall|k: int| 0 <= k < j ==> spec_value_wf(
                        #[trigger] spec_values_of(items@)[k],
                    ),
                decreases n - j,
            {
                proof {
                    assert(*v is Arr);
                    assert((*v)->Arr_0 == *items);
                    assert(decreases_to!(*v => (*v)->Arr_0));
                    assert(decreases_to!((*v)->Arr_0 => items@));
                    assert(decreases_to!(items@ => items@[j as int]));
                }
                if !value_is_canonical(&items[j]) {
                    proof {
                        assert(!spec_value_wf(spec_values_of(items@)[j as int]));
                        assert(v@ == SpecValue::Arr(spec_values_of(items@)));
                        if spec_value_wf(v@) {
                            lemma_wf_arr_elem(spec_values_of(items@), j as int);
                        }
                    }
                    return false;
                }
                j = j + 1;
            }
            true
        },
        Value::Obj(fields) => {
            proof {
                lemma_spec_fields_of_index(fields@);
            }
            let n = fields.len();
            let mut j: usize = 0;
            while j < n
                invariant
                    j <= n,
                    n == fields@.len(),
                    spec_fields_of(fields@).len() == fields@.len(),
                    forall|k: int| 0 <= k < fields@.len() ==> #[trigger] spec_fields_of(
                        fields@,
                    )[k] == (fields@[k].0@, spec_value_of(fields@[k].1)),
                    forall|k: int| 0 <= k < j ==> spec_value_wf(
                        (#[trigger] spec_fields_of(fields@)[k]).1,
                    ),
                    forall|k: int| 0 <= k < j && k + 1 < n ==> chars_lt(
                        (#[trigger] spec_fields_of(fields@)[k]).0,
                        spec_fields_of(fields@)[k + 1].0,
                    ),
                decreases n - j,
            {
                proof {
                    assert(*v is Obj);
                    assert((*v)->Obj_0 == *fields);
                    assert(decreases_to!(*v => (*v)->Obj_0));
                    assert(decreases_to!((*v)->Obj_0 => fields@));
                    assert(decreases_to!(fields@ => fields@[j as int]));
                    assert(decreases_to!(fields@[j as int] => fields@[j as int].1));
                }
                if !value_is_canonical(&fields[j].1) {
                    proof {
                        assert(!spec_value_wf(spec_fields_of(fields@)[j as int].1));
                        assert(v@ == SpecValue::Obj(spec_fields_of(fields@)));
                        if spec_value_wf(v@) {
                            lemma_wf_obj_field(spec_fields_of(fields@), j as int);
                        }
                    }
                    return false;
                }
                if j + 1 < n {
                    if !str_lt(fields[j].0.as_str(), fields[j + 1].0.as_str()) {
                        proof {
                            assert(!chars_lt(
                                spec_fields_of(fields@)[j as int].0,
                                spec_fields_of(fields@)[j + 1].0,
                            ));
                            assert(v@ == SpecValue::Obj(spec_fields_of(fields@)));
                            if spec_value_wf(v@) {
                                lemma_wf_obj_sorted(spec_fields_of(fields@), j as int, j + 1);
                            }
                        }
                        return false;
                    }
                }
                j = j + 1;
            }
            proof {
                lemma_adjacent_sorted_fields(spec_fields_of(fields@));
            }
            true
        },
    }
}

} // verus!
