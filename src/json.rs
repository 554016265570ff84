use vstd::prelude::*;
use crate::entities::Properties;

verus! {

/// Whether a byte string is one well-formed JSON document that the parser
/// accepts (it also refuses nesting deeper than 128 levels).
pub uninterp spec fn json_parses(data: Seq<u8>) -> bool;

/// The text held by a member of the JSON object that a byte string encodes,
/// when the member is present and a string.
pub uninterp spec fn member_text(data: Seq<u8>, key: Seq<char>) -> Option<Seq<char>>;

/// The number held by a member of the JSON object that a byte string encodes,
/// when the member is present and a non-negative integer that fits in a `u64`.
pub uninterp spec fn member_number(data: Seq<u8>, key: Seq<char>) -> Option<u64>;

/// The texts held by a member of the JSON object that a byte string encodes,
/// when the member is present and an array of strings.
pub uninterp spec fn member_texts(data: Seq<u8>, key: Seq<char>) -> Option<Seq<Seq<char>>>;

/// The JSON object held by a member of the JSON object that a byte string
/// encodes, when the member is present and an object.
pub uninterp spec fn member_object(data: Seq<u8>, key: Seq<char>) -> Option<Properties>;

/// The bytes that serde_json writes for an object with the given members.
pub uninterp spec fn json_encoding(f: Map<Seq<char>, JsonField>) -> Seq<u8>;

/// The length of the array held by a member of the JSON object that a byte
/// string encodes, when the member is present and an array.
pub uninterp spec fn member_len(data: Seq<u8>, key: Seq<char>) -> Option<nat>;

/// The text held by member `field` of item `i` of the array under `key`.
pub uninterp spec fn item_text(data: Seq<u8>, key: Seq<char>, i: int, field: Seq<char>) -> Option<Seq<char>>;

/// The number held by member `field` of item `i` of the array under `key`.
pub uninterp spec fn item_number(data: Seq<u8>, key: Seq<char>, i: int, field: Seq<char>) -> Option<u64>;

/// The texts held by member `field` of item `i` of the array under `key`.
pub uninterp spec fn item_texts(data: Seq<u8>, key: Seq<char>, i: int, field: Seq<char>) -> Option<Seq<Seq<char>>>;

/// The object held by member `field` of item `i` of the array under `key`.
pub uninterp spec fn item_object(data: Seq<u8>, key: Seq<char>, i: int, field: Seq<char>) -> Option<Properties>;

/// The property names that a property mapping holds.
pub uninterp spec fn property_names(m: Properties) -> Set<Seq<char>>;

/// Relies on serde_json's Map::new: the new mapping holds no property.
pub assume_specification[ serde_json::Map::<String, serde_json::Value>::new ]() -> (r: serde_json::Map<
    String,
    serde_json::Value,
>)
    ensures
        property_names(r) == Set::<Seq<char>>::empty(),
;

/// A member of a JSON object under construction, as a plain value.
pub enum JsonField {
    Text(Seq<char>),
    Number(u64),
    Texts(Seq<Seq<char>>),
    Object(Properties),
    Objects(Seq<Map<Seq<char>, JsonField>>),
}

pub open spec fn text_field(f: Map<Seq<char>, JsonField>, k: Seq<char>) -> Option<Seq<char>> {
    if f.contains_key(k) && f[k] is Text {
        Some(f[k]->Text_0)
    } else {
        None
    }
}

pub open spec fn number_field(f: Map<Seq<char>, JsonField>, k: Seq<char>) -> Option<u64> {
    if f.contains_key(k) && f[k] is Number {
        Some(f[k]->Number_0)
    } else {
        None
    }
}

pub open spec fn texts_field(f: Map<Seq<char>, JsonField>, k: Seq<char>) -> Option<Seq<Seq<char>>> {
    if f.contains_key(k) && f[k] is Texts {
        Some(f[k]->Texts_0)
    } else if f.contains_key(k) && f[k] is Objects && f[k]->Objects_0.len() == 0 {
        Some(Seq::empty())
    } else {
        None
    }
}

pub open spec fn objects_field(f: Map<Seq<char>, JsonField>, k: Seq<char>) -> Option<Seq<Map<Seq<char>, JsonField>>> {
    if f.contains_key(k) && f[k] is Objects {
        Some(f[k]->Objects_0)
    } else if f.contains_key(k) && f[k] is Texts {
        Some(Seq::new(f[k]->Texts_0.len(), |i: int| Map::empty()))
    } else {
        None
    }
}

/// Whether item `i` of the array under `key` reads back each member that was put in it.
pub open spec fn item_reads_back(data: Seq<u8>, key: Seq<char>, i: int, f: Map<Seq<char>, JsonField>) -> bool {
    forall|m: Seq<char>|
        #![trigger item_text(data, key, i, m)]
        #![trigger item_number(data, key, i, m)]
        #![trigger item_texts(data, key, i, m)]
        #![trigger item_object(data, key, i, m)]
        item_text(data, key, i, m) == text_field(f, m) && item_number(data, key, i, m) == number_field(f, m)
            && item_texts(data, key, i, m) == texts_field(f, m) && (item_object(data, key, i, m) is Some
            <==> (f.contains_key(m) && f[m] is Object))
}

/// Whether the bytes, once they parse, read back each member that was put.
/// An object member reads back as an object; its values are not claimed to
/// come back bit for bit, since a float may not.
pub open spec fn reads_back(data: Seq<u8>, f: Map<Seq<char>, JsonField>) -> bool {
    json_parses(data) ==> {
    &&& forall|k: Seq<char>|
        #![trigger member_text(data, k)]
        #![trigger member_number(data, k)]
        #![trigger member_texts(data, k)]
        #![trigger member_object(data, k)]
        member_text(data, k) == text_field(f, k) && member_number(data, k) == number_field(f, k)
            && member_texts(data, k) == texts_field(f, k) && (member_object(data, k) is Some
            <==> (f.contains_key(k) && f[k] is Object))
    &&& forall|k: Seq<char>| #[trigger] member_len(data, k) == match objects_field(f, k) {
        Some(items) => Some(items.len()),
        None => None,
    }
    &&& forall|k: Seq<char>, i: int|
        objects_field(f, k) is Some && 0 <= i < objects_field(f, k)->0.len() ==> #[trigger] item_reads_back(
            data,
            k,
            i,
            objects_field(f, k)->0[i],
        )
    }
}

/// A JSON object under construction, together with the members put in it.
pub(crate) struct JsonOut {
    map: serde_json::Map<String, serde_json::Value>,
    fields: Ghost<Map<Seq<char>, JsonField>>,
}

impl JsonOut {
    pub(crate) closed spec fn fields(&self) -> Map<Seq<char>, JsonField> {
        self.fields@
    }
}

/// Relies on serde_json's Map::new: an object with no member.
#[verifier::external_body]
pub(crate) fn new_object() -> (r: JsonOut)
    ensures
        r.fields().is_empty(),
{
    JsonOut { map: serde_json::Map::new(), fields: Ghost(Map::empty()) }
}

/// Relies on serde_json's Map::insert, with the text as a `Value::String`.
#[verifier::external_body]
pub(crate) fn put_text(o: &mut JsonOut, key: &str, v: &str)
    ensures
        final(o).fields() == old(o).fields().insert(key@, JsonField::Text(v@)),
{
    o.map.insert(key.to_string(), serde_json::Value::String(v.to_string()));
}

/// Relies on serde_json's Map::insert, with the number as a `Value::Number`.
#[verifier::external_body]
pub(crate) fn put_number(o: &mut JsonOut, key: &str, v: u64)
    ensures
        final(o).fields() == old(o).fields().insert(key@, JsonField::Number(v)),
{
    o.map.insert(key.to_string(), serde_json::Value::from(v));
}

/// Relies on serde_json's Map::insert, with the texts as an array of strings.
#[verifier::external_body]
pub(crate) fn put_texts(o: &mut JsonOut, key: &str, v: &Vec<String>)
    ensures
        final(o).fields() == old(o).fields().insert(key@, JsonField::Texts(crate::entities::texts(v@))),
{
    o.map.insert(key.to_string(), serde_json::Value::from(v.clone()));
}

/// Relies on serde_json's Map::insert, with the mapping as a `Value::Object`.
#[verifier::external_body]
pub(crate) fn put_object(o: &mut JsonOut, key: &str, v: Properties)
    ensures
        final(o).fields() == old(o).fields().insert(key@, JsonField::Object(v)),
{
    o.map.insert(key.to_string(), serde_json::Value::Object(v));
}

/// Relies on serde_json's `Value` indexing by key and Value::as_array: the
/// items of the array member, in order.
#[verifier::external_body]
pub(crate) fn items_member(doc: &JsonDoc, key: &str) -> (r: Option<Vec<JsonDoc>>)
    requires
        doc.at() is None,
    ensures
        match r {
            Some(v) => member_len(doc.source(), key@) == Some(v@.len()) && forall|i: int|
                0 <= i < v@.len() ==> (#[trigger] v@[i]).source() == doc.source() && v@[i].at() == Some(
                    (key@, i),
                ),
            None => member_len(doc.source(), key@) is None,
        },
{
    let items = doc.value[key].as_array()?;
    let mut out: Vec<JsonDoc> = Vec::new();
    for v in items {
        out.push(JsonDoc { value: v.clone(), source: Ghost(doc.source@), at: Ghost(Some((key@, out.len() as int))) });
    }
    Some(out)
}

/// Relies on serde_json's Map::insert, with the objects as an array of `Value::Object`.
#[verifier::external_body]
pub(crate) fn put_objects(o: &mut JsonOut, key: &str, items: Vec<JsonOut>)
    ensures
        final(o).fields() == old(o).fields().insert(
            key@,
            JsonField::Objects(items@.map_values(|j: JsonOut| j.fields())),
        ),
{
    let list: Vec<serde_json::Value> = items.into_iter().map(|j| serde_json::Value::Object(j.map)).collect();
    o.map.insert(key.to_string(), serde_json::Value::Array(list));
}

/// Relies on serde_json::to_vec on a `Value`, which cannot fail (its keys are
/// strings and it holds no custom serializer). The bytes depend on the
/// members alone (an object's members are kept sorted by key), and once they
/// parse they give back the same members, strings and integers exactly.
#[verifier::external_body]
pub(crate) fn encode(o: &JsonOut) -> (r: Result<Vec<u8>, String>)
    ensures
        r is Ok,
        r matches Ok(b) ==> b@ == json_encoding(o.fields()) && reads_back(b@, o.fields()),
{
    serde_json::to_vec(&serde_json::Value::Object(o.map.clone())).map_err(|e| e.to_string())
}

/// A parsed JSON document, or one item of an array member of it, together
/// with the bytes it was parsed from and where in them it sits.
pub(crate) struct JsonDoc {
    value: serde_json::Value,
    source: Ghost<Seq<u8>>,
    at: Ghost<Option<(Seq<char>, int)>>,
}

impl JsonDoc {
    pub(crate) closed spec fn source(&self) -> Seq<u8> {
        self.source@
    }

    /// `None` for the whole document; `Some((key, i))` for item `i` of the array under `key`.
    pub(crate) closed spec fn at(&self) -> Option<(Seq<char>, int)> {
        self.at@
    }
}

pub open spec fn opt_texts(l: Option<Vec<String>>) -> Option<Seq<Seq<char>>> {
    match l {
        Some(v) => Some(crate::entities::texts(v@)),
        None => None,
    }
}

pub open spec fn opt_text(t: Option<String>) -> Option<Seq<char>> {
    match t {
        Some(s) => Some(s@),
        None => None,
    }
}

/// Relies on serde_json::from_slice: parses bytes into a JSON value, or
/// reports, after the name of the step, why they are not one JSON document.
#[verifier::external_body]
pub(crate) fn parse_document(data: &[u8], step: &str) -> (r: Result<JsonDoc, String>)
    ensures
        r is Ok <==> json_parses(data@),
        r matches Ok(d) ==> d.source() == data@ && d.at() is None,
{
    match serde_json::from_slice::<serde_json::Value>(data) {
        Ok(value) => Ok(JsonDoc { value, source: Ghost(data@), at: Ghost(None) }),
        Err(e) => Err(format!("{}: {}", step, e)),
    }
}

/// Relies on serde_json's `Value` indexing by key (null when the member is
/// missing or the document is not an object) and Value::as_str.
#[verifier::external_body]
pub(crate) fn text_member(doc: &JsonDoc, key: &str) -> (r: Option<String>)
    ensures
        doc.at() is None ==> opt_text(r) == member_text(doc.source(), key@),
        doc.at() matches Some((l, i)) ==> opt_text(r) == item_text(doc.source(), l, i, key@),
{
    doc.value[key].as_str().map(str::to_string)
}

/// Relies on serde_json's `Value` indexing by key and Value::as_u64.
#[verifier::external_body]
pub(crate) fn number_member(doc: &JsonDoc, key: &str) -> (r: Option<u64>)
    ensures
        doc.at() is None ==> r == member_number(doc.source(), key@),
        doc.at() matches Some((l, i)) ==> r == item_number(doc.source(), l, i, key@),
{
    doc.value[key].as_u64()
}

/// Relies on serde_json's `Value` indexing by key and serde_json::from_value,
/// reading the member as a list of strings.
#[verifier::external_body]
pub(crate) fn texts_member(doc: &JsonDoc, key: &str) -> (r: Option<Vec<String>>)
    ensures
        doc.at() is None ==> opt_texts(r) == member_texts(doc.source(), key@),
        doc.at() matches Some((l, i)) ==> opt_texts(r) == item_texts(doc.source(), l, i, key@),
{
    serde_json::from_value::<Vec<String>>(doc.value[key].clone()).ok()
}

/// Relies on serde_json's `Value` indexing by key and Value::as_object.
#[verifier::external_body]
pub(crate) fn object_member(doc: &JsonDoc, key: &str) -> (r: Option<Properties>)
    ensures
        doc.at() is None ==> r == member_object(doc.source(), key@),
        doc.at() matches Some((l, i)) ==> r == item_object(doc.source(), l, i, key@),
{
    doc.value[key].as_object().cloned()
}

} // verus!
