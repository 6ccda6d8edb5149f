use vstd::prelude::*;
use vstd::string::StringExecFns;

verus! {

/// A typed attribute value. Attribute text is decoded as JSON when it can
/// be: a JSON string keeps its contents, any other JSON value (number,
/// boolean, array, object, null) keeps its compact JSON text. Text that is
/// not JSON stays a plain string.
#[derive(Clone, Debug, PartialEq, Eq)]
pub enum AttrValue {
    Str(String),
    Json(String),
}

/// `(is_json, text)`: what an attribute value holds.
pub open spec fn value_view(v: AttrValue) -> (bool, Seq<char>) {
    match v {
        AttrValue::Str(t) => (false, t@),
        AttrValue::Json(t) => (true, t@),
    }
}

pub open spec fn opt_value_view(v: Option<AttrValue>) -> Option<(bool, Seq<char>)> {
    match v {
        Some(x) => Some(value_view(x)),
        None => None,
    }
}

/// What decoding `s` as one JSON value gives: `None` when `s` is not JSON;
/// else `(false, contents)` for a JSON string and `(true, compact text)`
/// for any other value.
pub uninterp spec fn json_decoding(s: Seq<char>) -> Option<(bool, Seq<char>)>;

/// Relies on serde_json::from_str (decoding one JSON value) and on
/// serde_json's `Display` for `Value` (its compact text); the result depends
/// on `s` alone.
#[verifier::external_body]
fn decode_json(s: &str) -> (r: Option<AttrValue>)
    ensures
        opt_value_view(r) == json_decoding(s@),
{
    match serde_json::from_str::<serde_json::Value>(s) {
        Ok(serde_json::Value::String(t)) => Some(AttrValue::Str(t)),
        Ok(v) => Some(AttrValue::Json(v.to_string())),
        Err(_) => None,
    }
}

/// The value that attribute text `s` takes: its JSON decoding, or `s`
/// itself as a plain string.
pub open spec fn typed_value(s: Seq<char>) -> (bool, Seq<char>) {
    match json_decoding(s) {
        Some(d) => d,
        None => (false, s),
    }
}

/// Chooses between a JSON decoding of `raw` and `raw` itself.
pub fn value_or_text(decoded: Option<AttrValue>, raw: &str) -> (r: AttrValue)
    ensures
        value_view(r) == (match opt_value_view(decoded) {
            Some(d) => d,
            None => (false, raw@),
        }),
{
    match decoded {
        Some(v) => v,
        None => AttrValue::Str(String::from_str(raw)),
    }
}

/// Decodes attribute text as JSON, falling back to the text as a string.
pub fn parse_json_or_use_as_string(value: &str) -> (r: AttrValue)
    ensures
        value_view(r) == typed_value(value@),
{
    let decoded = decode_json(value);
    value_or_text(decoded, value)
}

impl AttrValue {
    /// The text form of the value: a string's contents, or the JSON text.
    pub fn text(&self) -> (r: &String)
        ensures
            r@ == value_view(*self).1,
    {
        match self {
            AttrValue::Str(t) => t,
            AttrValue::Json(t) => t,
        }
    }

    pub fn copy(&self) -> (r: AttrValue)
        ensures
            r == *self,
    {
        match self {
            AttrValue::Str(t) => AttrValue::Str(t.clone()),
            AttrValue::Json(t) => AttrValue::Json(t.clone()),
        }
    }
}

/// One named attribute.
#[derive(Clone, Debug, PartialEq, Eq)]
pub struct Attrib {
    pub name: String,
    pub value: AttrValue,
}

/// `(name, value)` pairs of an attribute list.
pub open spec fn attrs_view(v: Seq<Attrib>) -> Seq<(Seq<char>, AttrValue)> {
    v.map_values(|a: Attrib| (a.name@, a.value))
}

/// The index of the first pair named `name`, if any.
pub open spec fn first_named(l: Seq<(Seq<char>, AttrValue)>, name: Seq<char>) -> Option<int> {
    if exists|i: int| 0 <= i < l.len() && (#[trigger] l[i]).0 == name {
        let i = choose|i: int| 0 <= i < l.len() && l[i].0 == name && forall|j: int| 0 <= j < i ==> (#[trigger] l[j]).0 != name;
        Some(i)
    } else {
        None
    }
}

/// The pairs of `l` not named `name`, in order.
pub open spec fn without_name(l: Seq<(Seq<char>, AttrValue)>, name: Seq<char>) -> Seq<(Seq<char>, AttrValue)>
    decreases l.len(),
{
    if l.len() == 0 {
        l
    } else {
        let rest = without_name(l.drop_last(), name);
        if l.last().0 == name {
            rest
        } else {
            rest.push(l.last())
        }
    }
}

/// `l` with the first pair named `name` given `value`, or with a new pair at
/// the end.
pub open spec fn upserted(l: Seq<(Seq<char>, AttrValue)>, name: Seq<char>, value: AttrValue) -> Seq<(Seq<char>, AttrValue)> {
    match first_named(l, name) {
        Some(i) => l.update(i, (name, value)),
        None => l.push((name, value)),
    }
}

/// The value of the first pair named `name`.
pub open spec fn lookup(l: Seq<(Seq<char>, AttrValue)>, name: Seq<char>) -> Option<AttrValue> {
    match first_named(l, name) {
        Some(i) => Some(l[i].1),
        None => None,
    }
}

proof fn lemma_first_named(l: Seq<(Seq<char>, AttrValue)>, name: Seq<char>, i: int)
    requires
        0 <= i < l.len(),
        l[i].0 == name,
        forall|j: int| 0 <= j < i ==> (#[trigger] l[j]).0 != name,
    ensures
        first_named(l, name) == Some(i),
{
    let k = choose|k: int| 0 <= k < l.len() && l[k].0 == name && forall|j: int| 0 <= j < k ==> (#[trigger] l[j]).0 != name;
    if k < i {
        assert(l[k].0 != name);
    }
    if i < k {
        assert(l[i].0 != name);
    }
}

/// After an upsert, looking the name up gives the new value.
pub proof fn lemma_lookup_upserted(l: Seq<(Seq<char>, AttrValue)>, name: Seq<char>, value: AttrValue)
    ensures
        lookup(upserted(l, name, value), name) == Some(value),
{
    let u = upserted(l, name, value);
    match first_named(l, name) {
        Some(i) => {
            lemma_first_named_some(l, name);
            lemma_first_named(u, name, i);
        },
        None => {
            assert forall|j: int| 0 <= j < l.len() implies (#[trigger] u[j]).0 != name by {
                assert(u[j] == l[j]);
                if l[j].0 == name {
                    assert(exists|k: int| 0 <= k < l.len() && (#[trigger] l[k]).0 == name);
                }
            }
            lemma_first_named(u, name, l.len() as int);
        },
    }
}

proof fn lemma_minimal_named(l: Seq<(Seq<char>, AttrValue)>, name: Seq<char>, k: int)
    requires
        0 <= k < l.len(),
        l[k].0 == name,
    ensures
        exists|i: int| 0 <= i < l.len() && l[i].0 == name && forall|j: int| 0 <= j < i ==> (#[trigger] l[j]).0 != name,
    decreases k,
{
    if exists|m: int| 0 <= m < k && (#[trigger] l[m]).0 == name {
        let m = choose|m: int| 0 <= m < k && (#[trigger] l[m]).0 == name;
        lemma_minimal_named(l, name, m);
    } else {
        assert(forall|j: int| 0 <= j < k ==> (#[trigger] l[j]).0 != name);
    }
}

/// When some pair is named `name`, `first_named` gives the first such index.
pub proof fn lemma_first_named_some(l: Seq<(Seq<char>, AttrValue)>, name: Seq<char>)
    requires
        first_named(l, name) is Some,
    ensures
        ({
            let i = first_named(l, name).unwrap();
            &&& 0 <= i < l.len()
            &&& l[i].0 == name
            &&& forall|j: int| 0 <= j < i ==> (#[trigger] l[j]).0 != name
        }),
{
    let k = choose|k: int| 0 <= k < l.len() && (#[trigger] l[k]).0 == name;
    lemma_minimal_named(l, name, k);
}

/// After removing a name, looking it up finds nothing.
pub proof fn lemma_lookup_without(l: Seq<(Seq<char>, AttrValue)>, name: Seq<char>)
    ensures
        lookup(without_name(l, name), name) is None,
    decreases l.len(),
{
    let w = without_name(l, name);
    if l.len() > 0 {
        lemma_lookup_without(l.drop_last(), name);
    }
    assert forall|j: int| 0 <= j < w.len() implies (#[trigger] w[j]).0 != name by {
        lemma_without_name_excludes(l, name, j);
    }
}

proof fn lemma_without_name_excludes(l: Seq<(Seq<char>, AttrValue)>, name: Seq<char>, j: int)
    requires
        0 <= j < without_name(l, name).len(),
    ensures
        without_name(l, name)[j].0 != name,
    decreases l.len(),
{
    if l.len() > 0 {
        let rest = without_name(l.drop_last(), name);
        if j < rest.len() {
            lemma_without_name_excludes(l.drop_last(), name, j);
        }
    }
}

/// The index of the first attribute named `name`.
pub fn find_attr(attrs: &Vec<Attrib>, name: &str) -> (r: Option<usize>)
    ensures
        r is Some ==> r.unwrap() < attrs@.len() && attrs_view(attrs@)[r.unwrap() as int].0 == name@,
        match r {
            Some(i) => first_named(attrs_view(attrs@), name@) == Some(i as int),
            None => first_named(attrs_view(attrs@), name@) is None,
        },
{
    let ghost l = attrs_view(attrs@);
    let key = String::from_str(name);
    let mut i: usize = 0;
    while i < attrs.len()
        invariant
            0 <= i <= attrs@.len(),
            l == attrs_view(attrs@),
            key@ == name@,
            forall|j: int| 0 <= j < i ==> (#[trigger] l[j]).0 != name@,
        decreases attrs@.len() - i,
    {
        if attrs[i].name == key {
            proof {
                lemma_first_named(l, name@, i as int);
            }
            return Some(i);
        }
        i = i + 1;
    }
    None
}

/// The value of the first attribute named `name`.
pub fn get_attr<'a>(attrs: &'a Vec<Attrib>, name: &str) -> (r: Option<&'a AttrValue>)
    ensures
        match r {
            Some(v) => lookup(attrs_view(attrs@), name@) == Some(*v),
            None => lookup(attrs_view(attrs@), name@) is None,
        },
{
    match find_attr(attrs, name) {
        Some(i) => Some(&attrs[i].value),
        None => None,
    }
}

/// Gives the first attribute named `name` the value `value`, or adds the
/// attribute at the end.
pub fn set_attr(attrs: &mut Vec<Attrib>, name: &str, value: AttrValue)
    ensures
        attrs_view(final(attrs)@) == upserted(attrs_view(old(attrs)@), name@, value),
{
    match find_attr(attrs, name) {
        Some(i) => {
            let ghost l = attrs_view(attrs@);
            attrs[i].value = value;
            proof {
                assert(attrs_view(attrs@)[i as int] == (name@, value));
                assert(attrs_view(attrs@) =~= upserted(attrs_view(old(attrs)@), name@, value));
            }
        },
        None => {
            attrs.push(Attrib { name: String::from_str(name), value });
            proof {
                assert(attrs_view(attrs@) =~= upserted(attrs_view(old(attrs)@), name@, value));
            }
        },
    }
}

proof fn lemma_without_name_push(l: Seq<(Seq<char>, AttrValue)>, x: (Seq<char>, AttrValue), name: Seq<char>)
    ensures
        without_name(l.push(x), name) == (if x.0 == name { without_name(l, name) } else { without_name(l, name).push(x) }),
{
    assert(l.push(x).drop_last() =~= l);
}

/// Removes every attribute named `name`.
pub fn remove_attr(attrs: &mut Vec<Attrib>, name: &str)
    ensures
        attrs_view(final(attrs)@) == without_name(attrs_view(old(attrs)@), name@),
{
    let ghost l0 = attrs_view(attrs@);
    let key = String::from_str(name);
    let mut i: usize = 0;
    let ghost mut j: int = 0;
    proof {
        assert(l0.subrange(0, 0) =~= Seq::<(Seq<char>, AttrValue)>::empty());
        assert(attrs_view(attrs@).subrange(0, 0) =~= without_name(l0.subrange(0, 0), name@));
        assert(attrs_view(attrs@) =~= attrs_view(attrs@).subrange(0, 0) + l0.subrange(0, l0.len() as int));
    }
    while i < attrs.len()
        invariant
            0 <= i <= attrs@.len(),
            0 <= j <= l0.len(),
            key@ == name@,
            attrs@.len() - i == l0.len() - j,
            attrs_view(attrs@).subrange(0, i as int) == without_name(l0.subrange(0, j), name@),
            attrs_view(attrs@) == attrs_view(attrs@).subrange(0, i as int) + l0.subrange(j, l0.len() as int),
        decreases attrs@.len() - i,
    {
        let ghost v0 = attrs_view(attrs@);
        proof {
            assert(v0[i as int] == l0[j]);
            assert(l0.subrange(0, j + 1) =~= l0.subrange(0, j).push(l0[j]));
            lemma_without_name_push(l0.subrange(0, j), l0[j], name@);
        }
        if attrs[i].name == key {
            attrs.remove(i);
            proof {
                let v1 = attrs_view(attrs@);
                assert(v1.len() == v0.len() - 1);
                assert forall|k: int| 0 <= k < v1.len() implies #[trigger] v1[k] == (if k < i { v0[k] } else { v0[k + 1] }) by {}
                assert(v1.subrange(0, i as int) =~= v0.subrange(0, i as int));
                assert(v1 =~= v1.subrange(0, i as int) + l0.subrange(j + 1, l0.len() as int));
            }
        } else {
            proof {
                assert(v0.subrange(0, i + 1) =~= v0.subrange(0, i as int).push(v0[i as int]));
                assert(v0 =~= v0.subrange(0, i + 1) + l0.subrange(j + 1, l0.len() as int));
            }
            i = i + 1;
        }
        proof {
            j = j + 1;
        }
    }
    proof {
        assert(l0.subrange(0, j) =~= l0);
        assert(attrs_view(attrs@).subrange(0, i as int) =~= attrs_view(attrs@));
    }
}

impl Attrib {
    /// The value's text when the value is a string.
    pub fn get_value_as_str_if_string(&self) -> (r: Option<String>)
        ensures
            match self.value {
                AttrValue::Str(t) => r is Some && r.unwrap()@ == t@,
                AttrValue::Json(_) => r is None,
            },
    {
        match &self.value {
            AttrValue::Str(t) => Some(t.clone()),
            AttrValue::Json(_) => None,
        }
    }

    /// Sets the value from attribute text, decoding it as JSON when it can.
    pub fn set_value(&mut self, s: &str)
        ensures
            final(self).name == old(self).name,
            value_view(final(self).value) == typed_value(s@),
    {
        self.value = parse_json_or_use_as_string(s);
    }
}

} // verus!
