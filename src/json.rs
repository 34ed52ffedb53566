use vstd::prelude::*;

verus! {

/// One field value of a JSON object, as far as entries need it: numbers keep
/// their text, and a nested array or object is only known to be one.
#[derive(Debug)]
pub enum Scalar {
    Null,
    Bool(bool),
    Number(String),
    Text(String),
    Nested,
}

pub enum ScalarView {
    Null,
    Bool(bool),
    Number(Seq<char>),
    Text(Seq<char>),
    Nested,
}

impl Scalar {
    /// A copy of the value.
    pub fn copied(&self) -> (r: Scalar)
        ensures
            r@ == self@,
    {
        match self {
            Scalar::Null => Scalar::Null,
            Scalar::Bool(b) => Scalar::Bool(*b),
            Scalar::Number(t) => Scalar::Number(t.clone()),
            Scalar::Text(s) => Scalar::Text(s.clone()),
            Scalar::Nested => Scalar::Nested,
        }
    }
}

impl View for Scalar {
    type V = ScalarView;

    open spec fn view(&self) -> ScalarView {
        match self {
            Scalar::Null => ScalarView::Null,
            Scalar::Bool(b) => ScalarView::Bool(*b),
            Scalar::Number(t) => ScalarView::Number(t@),
            Scalar::Text(s) => ScalarView::Text(s@),
            Scalar::Nested => ScalarView::Nested,
        }
    }
}

/// The fields of an object, each as its name and value.
pub type FieldsView = Seq<(Seq<char>, ScalarView)>;

pub open spec fn fields_view(v: Seq<(String, Scalar)>) -> FieldsView {
    v.map_values(|p: (String, Scalar)| (p.0@, p.1@))
}

/// The value of the first field named `key`.
pub open spec fn lookup(fs: FieldsView, key: Seq<char>) -> Option<ScalarView>
    decreases fs.len(),
{
    if fs.len() == 0 {
        None
    } else if fs[0].0 == key {
        Some(fs[0].1)
    } else {
        lookup(fs.drop_first(), key)
    }
}

/// What serde_json reads from `text` as one JSON object.
pub uninterp spec fn object_fields(text: Seq<char>) -> Option<FieldsView>;

/// Relies on serde_json::from_str into a `serde_json::Map`: the text is one JSON
/// object, or nothing is returned; the outcome depends on the text alone.
#[verifier::external_body]
pub(crate) fn parse_object(text: &str) -> (r: Option<Vec<(String, Scalar)>>)
    ensures
        r matches Some(v) ==> object_fields(text@) == Some(fields_view(v@)),
        r is None ==> object_fields(text@) is None,
{
    let map: serde_json::Map<String, serde_json::Value> = serde_json::from_str(text).ok()?;
    Some(map.into_iter().map(|(k, v)| (k, match v {
        serde_json::Value::Null => Scalar::Null,
        serde_json::Value::Bool(b) => Scalar::Bool(b),
        serde_json::Value::Number(n) => Scalar::Number(n.to_string()),
        serde_json::Value::String(s) => Scalar::Text(s),
        serde_json::Value::Array(_) => Scalar::Nested,
        serde_json::Value::Object(_) => Scalar::Nested,
    })).collect())
}

/// Finds the value of the first field named `key`.
pub fn find_field(fields: &Vec<(String, Scalar)>, key: &String) -> (r: Option<Scalar>)
    ensures
        r matches Some(v) ==> lookup(fields_view(fields@), key@) == Some(v@),
        r is None ==> lookup(fields_view(fields@), key@) is None,
{
    let mut i: usize = 0;
    assert(fields_view(fields@).subrange(0, fields.len() as int) =~= fields_view(fields@));
    while i < fields.len()
        invariant
            i <= fields.len(),
            lookup(fields_view(fields@), key@) == lookup(fields_view(fields@).subrange(i as int, fields.len() as int), key@),
        decreases fields.len() - i,
    {
        let ghost rest = fields_view(fields@).subrange(i as int, fields.len() as int);
        assert(rest.drop_first() =~= fields_view(fields@).subrange(i + 1, fields.len() as int));
        if fields[i].0 == *key {
            return Some(fields[i].1.copied());
        }
        i += 1;
    }
    None
}

} // verus!
