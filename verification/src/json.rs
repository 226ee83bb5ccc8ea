//! The generic structured-document type that cached values and API
//! responses are modelled as: a tagged union of null, booleans, numbers,
//! strings, arrays and objects. Numbers keep their literal text, so a
//! document is carried through verbatim.
use vstd::prelude::*;

verus! {

broadcast use vstd::std_specs::vec::group_vec_axioms;

/// Mathematical model of a structured document.
#[verifier::ext_equal]
pub enum Json {
    Null,
    Bool(bool),
    Num(Seq<char>),
    Str(Seq<char>),
    Arr(Seq<Json>),
    Obj(Seq<(Seq<char>, Json)>),
}

/// Characters that may appear in a number literal.
pub open spec fn is_num_char(c: char) -> bool {
    is_digit_char(c) || c == '-' || c == '+' || c == '.' || c == 'e' || c == 'E'
}

/// Decimal digits.
pub open spec fn is_digit_char(c: char) -> bool {
    '0' as u32 <= c as u32 && c as u32 <= '9' as u32
}

/// A stored number literal: non-empty, drawn from the number alphabet,
/// and starting the way a number can start.
pub open spec fn wf_num_text(t: Seq<char>) -> bool {
    &&& t.len() > 0
    &&& (forall|i: int| 0 <= i < t.len() ==> is_num_char(#[trigger] t[i]))
    &&& (is_digit_char(t[0]) || t[0] == '-')
}

/// Well-formedness of a document: every number literal in it is valid.
pub open spec fn wf_json(v: Json) -> bool
    decreases v,
{
    match v {
        Json::Null => true,
        Json::Bool(_) => true,
        Json::Num(t) => wf_num_text(t),
        Json::Str(_) => true,
        Json::Arr(items) => forall|i: int| 0 <= i < items.len() ==> wf_json(#[trigger] items[i]),
        Json::Obj(pairs) => forall|i: int| 0 <= i < pairs.len() ==> wf_json(#[trigger] pairs[i].1),
    }
}

/// A structured document, as held and returned by the cache and the API
/// client. The shape of a response is only partially relied upon, so it is
/// carried through opaquely rather than bound to fixed schemas.
#[derive(Debug, PartialEq)]
pub enum JsonValue {
    Null,
    Bool(bool),
    Num(String),
    Str(String),
    Arr(Vec<JsonValue>),
    Obj(Vec<(String, JsonValue)>),
}

impl View for JsonValue {
    type V = Json;

    open spec fn view(&self) -> Json
        decreases self,
    {
        match self {
            JsonValue::Null => Json::Null,
            JsonValue::Bool(b) => Json::Bool(*b),
            JsonValue::Num(t) => Json::Num(t@),
            JsonValue::Str(s) => Json::Str(s@),
            JsonValue::Arr(items) => Json::Arr(
                Seq::new(items@.len(), |i: int| view_in_range(items, i)),
            ),
            JsonValue::Obj(pairs) => Json::Obj(
                Seq::new(
                    pairs@.len(),
                    |i: int| (pair_key_in_range(pairs, i), pair_val_in_range(pairs, i)),
                ),
            ),
        }
    }
}

/// The model of a vector of documents, elementwise.
pub open spec fn arr_model(items: &Vec<JsonValue>) -> Seq<Json> {
    Seq::new(items@.len(), |i: int| view_in_range(items, i))
}

/// The model of a vector of members, elementwise.
pub open spec fn obj_model(pairs: &Vec<(String, JsonValue)>) -> Seq<(Seq<char>, Json)> {
    Seq::new(pairs@.len(), |i: int| (pair_key_in_range(pairs, i), pair_val_in_range(pairs, i)))
}

/// The view of `items[i]`, guarded so that it is defined for every `i`.
pub open spec fn view_in_range(items: &Vec<JsonValue>, i: int) -> Json
    decreases items, 1int,
{
    if 0 <= i < items@.len() {
        items[i]@
    } else {
        Json::Null
    }
}

/// The key of `pairs[i]` as a sequence, guarded like `view_in_range`.
pub open spec fn pair_key_in_range(pairs: &Vec<(String, JsonValue)>, i: int) -> Seq<char> {
    if 0 <= i < pairs@.len() {
        pairs[i].0@
    } else {
        Seq::empty()
    }
}

/// The view of the value of `pairs[i]`, guarded like `view_in_range`.
pub open spec fn pair_val_in_range(pairs: &Vec<(String, JsonValue)>, i: int) -> Json
    decreases pairs, 1int,
{
    if 0 <= i < pairs@.len() {
        pairs[i].1@
    } else {
        Json::Null
    }
}

/// Ordered lookup of a key among an object's members: the first member
/// whose key matches wins.
pub open spec fn obj_lookup(pairs: Seq<(Seq<char>, Json)>, key: Seq<char>) -> Option<Json>
    decreases pairs.len(),
{
    if pairs.len() == 0 {
        None
    } else if pairs[0].0 == key {
        Some(pairs[0].1)
    } else {
        obj_lookup(pairs.drop_first(), key)
    }
}

/// Field lookup on a whole document: absent on anything but an object.
pub open spec fn field_of(doc: Json, key: Seq<char>) -> Option<Json> {
    match doc {
        Json::Obj(pairs) => obj_lookup(pairs, key),
        _ => None,
    }
}

/// String equality by contents.
pub fn str_eq(a: &str, b: &str) -> (r: bool)
    ensures
        r == (a@ == b@),
{
    let owned_a = a.to_owned();
    let owned_b = b.to_owned();
    owned_a == owned_b
}

/// Decimal digit test.
pub fn digit_char_test(c: char) -> (r: bool)
    ensures
        r == is_digit_char(c),
{
    let u = c as u32;
    48 <= u && u <= 57
}

/// Number-alphabet test.
pub fn num_char_test(c: char) -> (r: bool)
    ensures
        r == is_num_char(c),
{
    digit_char_test(c) || c == '-' || c == '+' || c == '.' || c == 'e' || c == 'E'
}

/// Validity test for a number literal.
pub fn num_text_test(t: &str) -> (r: bool)
    ensures
        r == wf_num_text(t@),
{
    let n = t.unicode_len();
    if n == 0 {
        return false;
    }
    let first = t.get_char(0);
    if !(digit_char_test(first) || first == '-') {
        return false;
    }
    let mut i: usize = 0;
    while i < n
        invariant
            i <= n,
            n == t@.len(),
            t@.len() > 0,
            is_digit_char(t@[0]) || t@[0] == '-',
            forall|j: int| 0 <= j < i ==> is_num_char(#[trigger] t@[j]),
        decreases n - i,
    {
        if !num_char_test(t.get_char(i)) {
            return false;
        }
        i += 1;
    }
    true
}

impl JsonValue {
    /// Whether every number literal in the document is valid.
    #[verifier::loop_isolation(false)]
    pub fn well_formed(&self) -> (r: bool)
        ensures
            r == wf_json(self@),
        decreases self,
    {
        match self {
            JsonValue::Null => true,
            JsonValue::Bool(_) => true,
            JsonValue::Num(t) => num_text_test(t.as_str()),
            JsonValue::Str(_) => true,
            JsonValue::Arr(items) => {
                let ghost model = self@->Arr_0;
                let mut i: usize = 0;
                while i < items.len()
                    invariant
                        i <= items@.len(),
                        self@ == Json::Arr(model),
                        model == Seq::new(items@.len(), |j: int| view_in_range(items, j)),
                        forall|j: int| 0 <= j < i ==> wf_json(#[trigger] model[j]),
                    decreases items@.len() - i,
                {
                    proof {
                        assert(model[i as int] == items@[i as int]@);
                        assert(*self == JsonValue::Arr(*items));
                        assert(decreases_to!(JsonValue::Arr(*items) => *items));
                        assert(decreases_to!(*items => items@[i as int]));
                        assert(decreases_to!(*self => items@[i as int]));
                    }
                    if !items[i].well_formed() {
                        return false;
                    }
                    i += 1;
                }
                true
            },
            JsonValue::Obj(pairs) => {
                let ghost model = self@->Obj_0;
                let mut i: usize = 0;
                while i < pairs.len()
                    invariant
                        i <= pairs@.len(),
                        self@ == Json::Obj(model),
                        model == Seq::new(
                            pairs@.len(),
                            |j: int| (pair_key_in_range(pairs, j), pair_val_in_range(pairs, j)),
                        ),
                        forall|j: int| 0 <= j < i ==> wf_json((#[trigger] model[j]).1),
                    decreases pairs@.len() - i,
                {
                    proof {
                        assert(model[i as int].1 == pairs@[i as int].1@);
                        assert(*self == JsonValue::Obj(*pairs));
                        assert(decreases_to!(JsonValue::Obj(*pairs) => *pairs));
                        assert(decreases_to!(*pairs => pairs@[i as int]));
                        assert(decreases_to!(*self => pairs@[i as int].1));
                    }
                    if !pairs[i].1.well_formed() {
                        return false;
                    }
                    i += 1;
                }
                true
            },
        }
    }

    /// Deep copy. The cache hands out copies so that callers cannot mutate
    /// cached state through a returned document.
    #[verifier::loop_isolation(false)]
    pub fn duplicate(&self) -> (r: JsonValue)
        ensures
            r@ == self@,
        decreases self,
    {
        match self {
            JsonValue::Null => JsonValue::Null,
            JsonValue::Bool(b) => JsonValue::Bool(*b),
            JsonValue::Num(t) => JsonValue::Num(t.clone()),
            JsonValue::Str(s) => JsonValue::Str(s.clone()),
            JsonValue::Arr(items) => {
                let mut out: Vec<JsonValue> = Vec::new();
                let mut i: usize = 0;
                while i < items.len()
                    invariant
                        i <= items@.len(),
                        out@.len() == i as int,
                        forall|j: int| 0 <= j < i ==> out@[j]@ == items@[j]@,
                    decreases items@.len() - i,
                {
                    proof {
                        assert(*self == JsonValue::Arr(*items));
                        assert(decreases_to!(JsonValue::Arr(*items) => *items));
                        assert(decreases_to!(*items => items@[i as int]));
                        assert(decreases_to!(*self => items@[i as int]));
                    }
                    let copied = items[i].duplicate();
                    out.push(copied);
                    i += 1;
                }
                let ghost snapshot = out@;
                let result = JsonValue::Arr(out);
                proof {
                    let ghost copied_vec = result->Arr_0;
                    let ghost lhs = Seq::new(copied_vec@.len(), |j: int| view_in_range(&copied_vec, j));
                    let ghost rhs = Seq::new(items@.len(), |j: int| view_in_range(items, j));
                    assert(copied_vec@ == snapshot);
                    assert(self@ is Arr);
                    assert(self@->Arr_0 =~= rhs);
                    assert(self@ =~= Json::Arr(rhs));
                    assert(result@ is Arr);
                    assert(result@->Arr_0 =~= lhs);
                    assert(result@ =~= Json::Arr(lhs));
                    assert forall|j: int| 0 <= j < lhs.len() implies lhs[j] == rhs[j] by {
                        assert(view_in_range(&copied_vec, j) == copied_vec@[j]@);
                        assert(view_in_range(items, j) == items@[j]@);
                    }
                    assert(lhs =~= rhs);
                }
                result
            },
            JsonValue::Obj(pairs) => {
                let mut out: Vec<(String, JsonValue)> = Vec::new();
                let mut i: usize = 0;
                while i < pairs.len()
                    invariant
                        i <= pairs@.len(),
                        out@.len() == i as int,
                        forall|j: int|
                            0 <= j < i ==> out@[j].0@ == pairs@[j].0@ && out@[j].1@ == pairs@[j].1@,
                    decreases pairs@.len() - i,
                {
                    proof {
                        assert(*self == JsonValue::Obj(*pairs));
                        assert(decreases_to!(JsonValue::Obj(*pairs) => *pairs));
                        assert(decreases_to!(*pairs => pairs@[i as int]));
                        assert(decreases_to!(*self => pairs@[i as int].1));
                    }
                    let entry = &pairs[i];
                    let copied = entry.1.duplicate();
                    out.push((entry.0.clone(), copied));
                    i += 1;
                }
                let ghost snapshot = out@;
                let result = JsonValue::Obj(out);
                proof {
                    let ghost copied_vec = result->Obj_0;
                    let ghost lhs = Seq::new(
                        copied_vec@.len(),
                        |j: int| (pair_key_in_range(&copied_vec, j), pair_val_in_range(&copied_vec, j)),
                    );
                    let ghost rhs = Seq::new(
                        pairs@.len(),
                        |j: int| (pair_key_in_range(pairs, j), pair_val_in_range(pairs, j)),
                    );
                    assert(copied_vec@ == snapshot);
                    assert(self@ is Obj);
                    assert(self@->Obj_0 =~= rhs);
                    assert(self@ =~= Json::Obj(rhs));
                    assert(result@ is Obj);
                    assert(result@->Obj_0 =~= lhs);
                    assert(result@ =~= Json::Obj(lhs));
                    assert forall|j: int| 0 <= j < lhs.len() implies lhs[j] == rhs[j] by {
                        assert(pair_key_in_range(&copied_vec, j) == copied_vec@[j].0@);
                        assert(pair_val_in_range(&copied_vec, j) == copied_vec@[j].1@);
                        assert(pair_key_in_range(pairs, j) == pairs@[j].0@);
                        assert(pair_val_in_range(pairs, j) == pairs@[j].1@);
                    }
                    assert(lhs =~= rhs);
                }
                result
            },
        }
    }

    /// The first member of an object with the given key; absent on
    /// anything that is not an object.
    #[verifier::loop_isolation(false)]
    pub fn get_field(&self, name: &str) -> (r: Option<&JsonValue>)
        ensures
            match r {
                Some(v) => field_of(self@, name@) == Some(v@),
                None => field_of(self@, name@) is None,
            },
    {
        match self {
            JsonValue::Obj(pairs) => {
                let ghost keyed = self@->Obj_0;
                let mut i: usize = 0;
                proof {
                    assert(keyed.skip(0) =~= keyed);
                }
                while i < pairs.len()
                    invariant
                        i <= pairs@.len(),
                        self@ == Json::Obj(keyed),
                        keyed == Seq::new(
                            pairs@.len(),
                            |j: int| (pair_key_in_range(pairs, j), pair_val_in_range(pairs, j)),
                        ),
                        obj_lookup(keyed, name@) == obj_lookup(keyed.skip(i as int), name@),
                    decreases pairs@.len() - i,
                {
                    proof {
                        assert(keyed.skip(i as int)[0] == keyed[i as int]);
                        assert(keyed[i as int].0 == pairs@[i as int].0@);
                        assert(keyed[i as int].1 == pairs@[i as int].1@);
                    }
                    if str_eq(pairs[i].0.as_str(), name) {
                        return Some(&pairs[i].1);
                    }
                    proof {
                        assert(keyed.skip(i as int).drop_first() =~= keyed.skip(i as int + 1));
                    }
                    i += 1;
                }
                proof {
                    assert(keyed.skip(pairs@.len() as int) =~= Seq::<(Seq<char>, Json)>::empty());
                }
                None
            },
            _ => None,
        }
    }

    /// The boolean carried by a boolean document.
    pub fn as_bool(&self) -> (r: Option<bool>)
        ensures
            match self@ {
                Json::Bool(b) => r == Some(b),
                _ => r is None,
            },
    {
        match self {
            JsonValue::Bool(b) => Some(*b),
            _ => None,
        }
    }
}

} // verus!
