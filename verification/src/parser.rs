//! Parsing the tracked file into items.
use vstd::prelude::*;
use vstd::utf8::{valid_utf8, decode_utf8};
use serde_json::Value;
use crate::error::{ScribeError, ErrorView};
use crate::item::{Item, map_from_entries, item_views, all_wf};
use crate::json::{JsonKind, JsonValue, bool_text, null_text, string_text, chars_of};
use crate::text::{spec_parse_i64, parse_i64, int_text};
use crate::item::str_eq;
use crate::sort::{views, strictly_sorted, insert_unique};
use crate::text::{str_lt, lemma_str_lt_order};
use crate::format::FileFormat;
use crate::transform::{apply_transform, spec_apply_transform, transform_ok};

verus! {

/// `std::str::from_utf8`: the text of `bytes` if they are valid UTF-8.
#[verifier::external_body]
fn utf8_text(bytes: &[u8]) -> (r: Option<&str>)
    ensures
        r is Some <==> valid_utf8(bytes@),
        r matches Some(s) ==> s@ == decode_utf8(bytes@),
{
    std::str::from_utf8(bytes).ok()
}

/// One element of a JSON array: its kind and, for an object, its members
/// (each value as its compact JSON text), in the order `serde_json` iterates them.
pub struct JsonElement {
    pub kind: JsonKind,
    pub members: Vec<(String, JsonValue)>,
}

/// The top of a JSON document: its kind and, for an array, its elements.
pub struct JsonDocument {
    pub kind: JsonKind,
    pub elements: Vec<JsonElement>,
}

pub struct ElementView {
    pub kind: JsonKind,
    pub members: Seq<(Seq<char>, Seq<char>)>,
}

pub struct DocumentView {
    pub kind: JsonKind,
    pub elements: Seq<ElementView>,
}

pub open spec fn member_views(m: Seq<(String, JsonValue)>) -> Seq<(Seq<char>, Seq<char>)> {
    m.map_values(|p: (String, JsonValue)| (p.0@, p.1@))
}

pub open spec fn element_view(e: JsonElement) -> ElementView {
    ElementView { kind: e.kind, members: member_views(e.members@) }
}

pub open spec fn document_view(d: JsonDocument) -> DocumentView {
    DocumentView { kind: d.kind, elements: d.elements@.map_values(|e: JsonElement| element_view(e)) }
}

/// The top two levels of a JSON value: its compact text and, if it is an
/// array, each element's compact text with, for an object, its members
/// (each value as its compact text).
pub type RawValue = (String, Vec<(String, Vec<(String, String)>)>);

pub open spec fn members_view(m: Seq<(String, String)>) -> Seq<(Seq<char>, Seq<char>)> {
    m.map_values(|p: (String, String)| (p.0@, p.1@))
}

pub open spec fn raw_view(r: RawValue) -> (Seq<char>, Seq<(Seq<char>, Seq<(Seq<char>, Seq<char>)>)>) {
    (r.0@, r.1@.map_values(|e: (String, Vec<(String, String)>)| (e.0@, members_view(e.1@))))
}

/// Names what `serde_json` reads from a text: `None` when the text is not
/// JSON, else the top two levels of the value (see `RawValue`).
pub uninterp spec fn spec_json_read(text: Seq<char>) -> Option<(Seq<char>, Seq<(Seq<char>, Seq<(Seq<char>, Seq<char>)>)>)>;

/// `serde_json::from_str::<Value>`: parses `text` and hands back the top two
/// levels of the value, each part as its compact JSON text (`Value`'s
/// `Display`), object members in the order `serde_json` iterates them.  The
/// contract names the result; it states nothing of JSON syntax.
#[verifier::external_body]
fn read_json_value(text: &str) -> (r: Option<RawValue>)
    ensures
        match r {
            Some(v) => spec_json_read(text@) == Some(raw_view(v)),
            None => spec_json_read(text@) is None,
        },
{
    let v: Value = serde_json::from_str(text).ok()?;
    let members = |e: &Value| e.as_object().map(|o| o.iter().map(|(k, m)| (k.clone(), m.to_string())).collect());
    let elements = v.as_array().map(|a| a.iter().map(|e| (e.to_string(), members(e).unwrap_or_default())).collect());
    Some((v.to_string(), elements.unwrap_or_default()))
}

/// The kind of a JSON value, read off the first character of its compact text.
pub open spec fn text_kind(t: Seq<char>) -> JsonKind {
    if t.len() == 0 {
        JsonKind::Null
    } else if t[0] == 'n' {
        JsonKind::Null
    } else if t[0] == 't' || t[0] == 'f' {
        JsonKind::Bool
    } else if t[0] == '"' {
        JsonKind::String
    } else if t[0] == '[' {
        JsonKind::Array
    } else if t[0] == '{' {
        JsonKind::Object
    } else {
        JsonKind::Number
    }
}

fn kind_of_text(t: &str) -> (k: JsonKind)
    ensures
        k == text_kind(t@),
{
    if t.unicode_len() == 0 {
        return JsonKind::Null;
    }
    let c = t.get_char(0);
    if c == 'n' {
        JsonKind::Null
    } else if c == 't' || c == 'f' {
        JsonKind::Bool
    } else if c == '"' {
        JsonKind::String
    } else if c == '[' {
        JsonKind::Array
    } else if c == '{' {
        JsonKind::Object
    } else {
        JsonKind::Number
    }
}

/// The document that the top two levels of a JSON value make.
pub open spec fn document_of(r: (Seq<char>, Seq<(Seq<char>, Seq<(Seq<char>, Seq<char>)>)>)) -> DocumentView {
    DocumentView {
        kind: text_kind(r.0),
        elements: r.1.map_values(|e: (Seq<char>, Seq<(Seq<char>, Seq<char>)>)| ElementView { kind: text_kind(e.0), members: e.1 }),
    }
}

/// What `serde_json` reads from a text: `None` when the text is not JSON,
/// else the document's top two levels.
pub open spec fn spec_json_document(text: Seq<char>) -> Option<DocumentView> {
    match spec_json_read(text) {
        None => None,
        Some(r) => Some(document_of(r)),
    }
}

/// The members of an object, each value wrapped as a JSON value.
fn member_values(ms: &Vec<(String, String)>) -> (r: Vec<(String, JsonValue)>)
    ensures
        member_views(r@) == members_view(ms@),
{
    let mut r: Vec<(String, JsonValue)> = Vec::new();
    let mut i: usize = 0;
    while i < ms.len()
        invariant
            i <= ms@.len(),
            member_views(r@) == members_view(ms@).take(i as int),
        decreases ms@.len() - i,
    {
        let ghost before = r@;
        r.push((ms[i].0.clone(), JsonValue::from_text(ms[i].1.clone())));
        assert(member_views(r@) =~= member_views(before).push((ms@[i as int].0@, ms@[i as int].1@)));
        assert(members_view(ms@).take(i + 1) =~= members_view(ms@).take(i as int).push((ms@[i as int].0@, ms@[i as int].1@)));
        i = i + 1;
    }
    assert(members_view(ms@).take(ms@.len() as int) =~= members_view(ms@));
    r
}

/// Reads a JSON text into its top two levels.
pub(crate) fn read_json_text(text: &str) -> (r: Option<JsonDocument>)
    ensures
        match r {
            Some(d) => spec_json_document(text@) == Some(document_view(d)),
            None => spec_json_document(text@) is None,
        },
{
    let (root, raw) = match read_json_value(text) {
        Some(v) => v,
        None => return None,
    };
    let ghost rv = raw_view((root, raw));
    let ghost target = document_of(rv).elements;
    let mut elements: Vec<JsonElement> = Vec::new();
    let mut i: usize = 0;
    while i < raw.len()
        invariant
            i <= raw@.len(),
            rv == raw_view((root, raw)),
            target == document_of(rv).elements,
            elements@.map_values(|e: JsonElement| element_view(e)) == target.take(i as int),
        decreases raw@.len() - i,
    {
        let e = JsonElement { kind: kind_of_text(raw[i].0.as_str()), members: member_values(&raw[i].1) };
        let ghost before = elements@;
        elements.push(e);
        assert(elements@.map_values(|e: JsonElement| element_view(e))
            =~= before.map_values(|e: JsonElement| element_view(e)).push(target[i as int]));
        assert(target.take(i + 1) =~= target.take(i as int).push(target[i as int]));
        i = i + 1;
    }
    assert(target.take(raw@.len() as int) =~= target);
    let d = JsonDocument { kind: kind_of_text(root.as_str()), elements };
    assert(document_view(d) =~= document_of(rv));
    Some(d)
}

/// The compact text of the JSON value that `serde_json` reads from a text,
/// `None` when the text is not JSON.
pub open spec fn spec_json_canonical(text: Seq<char>) -> Option<Seq<char>> {
    match spec_json_read(text) {
        Some(r) => Some(r.0),
        None => None,
    }
}

/// The compact text of the value that `text` holds, if it is JSON.
pub(crate) fn json_canonical(text: &str) -> (r: Option<String>)
    ensures
        match r {
            Some(t) => spec_json_canonical(text@) == Some(t@),
            None => spec_json_canonical(text@) is None,
        },
{
    match read_json_value(text) {
        Some((root, _)) => Some(root),
        None => None,
    }
}

/// The items of a JSON document, or why it is not an array of objects.
pub open spec fn document_items(d: DocumentView) -> Result<Seq<Map<Seq<char>, Seq<char>>>, ErrorView> {
    if d.kind != JsonKind::Array {
        Err(ErrorView::JsonRootNotArray { kind: d.kind })
    } else if exists|i: int| 0 <= i < d.elements.len() && #[trigger] d.elements[i].kind != JsonKind::Object {
        let i = choose|i: int| 0 <= i < d.elements.len() && #[trigger] d.elements[i].kind != JsonKind::Object
            && forall|j: int| 0 <= j < i ==> #[trigger] d.elements[j].kind == JsonKind::Object;
        Err(ErrorView::JsonItemNotObject { index: i as nat })
    } else {
        Ok(d.elements.map_values(|e: ElementView| map_from_entries(e.members)))
    }
}

/// What parsing a JSON file gives.
pub open spec fn spec_parse_json(content: Seq<u8>) -> Result<Seq<Map<Seq<char>, Seq<char>>>, ErrorView> {
    if !valid_utf8(content) {
        Err(ErrorView::NotUtf8)
    } else {
        match spec_json_document(decode_utf8(content)) {
            None => Err(ErrorView::InvalidJson),
            Some(d) => document_items(d),
        }
    }
}

/// The items of an array of objects.  Shared by JSON parsing and by
/// transformations, which differ in their errors.
pub(crate) fn array_items(d: &JsonDocument) -> (r: Result<Vec<Item>, usize>)
    requires
        d.kind == JsonKind::Array,
    ensures
        match r {
            Ok(items) => all_wf(items@) && (forall|i: int| 0 <= i < d.elements@.len() ==> #[trigger] d.elements@[i].kind == JsonKind::Object)
                && item_views(items@) == document_view(*d).elements.map_values(|e: ElementView| map_from_entries(e.members)),
            Err(i) => i < d.elements@.len() && d.elements@[i as int].kind != JsonKind::Object
                && forall|j: int| 0 <= j < i ==> #[trigger] d.elements@[j].kind == JsonKind::Object,
        },
{
    let ghost target = document_view(*d).elements.map_values(|e: ElementView| map_from_entries(e.members));
    let mut items: Vec<Item> = Vec::new();
    let mut i: usize = 0;
    while i < d.elements.len()
        invariant
            i <= d.elements@.len(),
            target == document_view(*d).elements.map_values(|e: ElementView| map_from_entries(e.members)),
            all_wf(items@),
            items@.len() == i,
            target.len() == d.elements@.len(),
            item_views(items@) == target.take(i as int),
            forall|j: int| 0 <= j < i ==> #[trigger] d.elements@[j].kind == JsonKind::Object,
        decreases d.elements@.len() - i,
    {
        let e = &d.elements[i];
        if e.kind != JsonKind::Object {
            return Err(i);
        }
        let item = Item::from_entries(&e.members);
        assert(document_view(*d).elements[i as int] == element_view(d.elements@[i as int]));
        assert(member_views(e.members@) =~= e.members@.map_values(|p: (String, JsonValue)| (p.0@, p.1@)));
        assert(target[i as int] == item@);
        let ghost before = items@;
        let ghost iv = item@;
        items.push(item);
        assert(items@ =~= before.push(items@[i as int]));
        assert(items@[i as int]@ == iv);
        assert(item_views(items@) =~= item_views(before).push(iv));
        assert(item_views(items@) =~= target.take(i + 1));
        i = i + 1;
    }
    assert(target.take(d.elements@.len() as int) =~= target);
    Ok(items)
}

/// Parse JSON content: the file must be an array of objects, each of which
/// becomes an item.
pub fn parse_json(content: &[u8]) -> (r: Result<Vec<Item>, ScribeError>)
    ensures
        match r {
            Ok(items) => all_wf(items@) && spec_parse_json(content@) == Ok::<_, ErrorView>(item_views(items@)),
            Err(e) => spec_parse_json(content@) == Err::<Seq<Map<Seq<char>, Seq<char>>>, _>(e@),
        },
{
    let text = match utf8_text(content) {
        Some(t) => t,
        None => return Err(ScribeError::NotUtf8),
    };
    let doc = match read_json_text(text) {
        Some(d) => d,
        None => return Err(ScribeError::InvalidJson),
    };
    if doc.kind != JsonKind::Array {
        return Err(ScribeError::JsonRootNotArray { kind: doc.kind });
    }
    let ghost dv = document_view(doc);
    match array_items(&doc) {
        Ok(items) => {
            assert(!exists|i: int| 0 <= i < dv.elements.len() && #[trigger] dv.elements[i].kind != JsonKind::Object);
            Ok(items)
        },
        Err(i) => {
            assert(dv.elements[i as int].kind != JsonKind::Object);
            let ghost c = choose|k: int| 0 <= k < dv.elements.len() && #[trigger] dv.elements[k].kind != JsonKind::Object
                && forall|j: int| 0 <= j < k ==> #[trigger] dv.elements[j].kind == JsonKind::Object;
            assert(c == i as int) by {
                if c < i {
                    assert(dv.elements[c].kind == JsonKind::Object);
                } else if c > i {
                    assert(dv.elements[i as int].kind == JsonKind::Object);
                }
            }
            Err(ScribeError::JsonItemNotObject { index: i })
        },
    }
}

/// A CSV file as the `csv` crate reads it: the header row, if it could be
/// read, and the records after it, each `None` where reading it failed.
pub struct CsvTable {
    pub headers: Option<Vec<String>>,
    pub records: Vec<Option<Vec<String>>>,
}

pub struct CsvView {
    pub headers: Option<Seq<Seq<char>>>,
    pub records: Seq<Option<Seq<Seq<char>>>>,
}

pub open spec fn strings_view(v: Seq<String>) -> Seq<Seq<char>> {
    v.map_values(|s: String| s@)
}

pub open spec fn record_view(r: Option<Vec<String>>) -> Option<Seq<Seq<char>>> {
    match r {
        Some(v) => Some(strings_view(v@)),
        None => None,
    }
}

pub open spec fn csv_view(t: CsvTable) -> CsvView {
    CsvView {
        headers: record_view(t.headers),
        records: t.records@.map_values(|r: Option<Vec<String>>| record_view(r)),
    }
}

/// Names what the `csv` crate reads from a byte string.
pub uninterp spec fn spec_csv_table(content: Seq<u8>) -> CsvView;

/// `csv::Reader::from_reader` with `headers` and `records`: reads the header
/// row and then the records up to and including the first that fails.
/// The contract names the result; it states nothing of CSV syntax.
#[verifier::external_body]
fn read_csv(content: &[u8]) -> (t: CsvTable)
    ensures
        csv_view(t) == spec_csv_table(content@),
{
    let mut reader = csv::Reader::from_reader(content);
    let headers = reader.headers().ok().map(|h| h.iter().map(|f| f.to_string()).collect());
    let mut records = Vec::new();
    for rec in reader.records() {
        let failed = rec.is_err();
        records.push(rec.ok().map(|r| r.iter().map(|f| f.to_string()).collect()));
        if failed {
            break;
        }
    }
    CsvTable { headers, records }
}

/// The view of an optional string.
pub open spec fn opt_view(o: Option<String>) -> Option<Seq<char>> {
    match o {
        Some(t) => Some(t@),
        None => None,
    }
}

/// The JSON text of a CSV field that is not an integer, given what the
/// floating-point reading of the field gave.
pub open spec fn non_integer_cell(raw: Seq<char>, float: Option<Seq<char>>) -> Seq<char> {
    match float {
        Some(t) => t,
        None => if raw == "true"@ {
            bool_text(true)
        } else if raw == "false"@ {
            bool_text(false)
        } else if raw.len() == 0 {
            null_text()
        } else {
            string_text(raw)
        },
    }
}

/// A boolean field keeps its meaning: when the field is `true` or `false`
/// and reads as no number, its JSON text is the field itself, so it reads
/// back as the boolean that the field names.
pub proof fn law_boolean_field_keeps_its_value(raw: Seq<char>)
    requires
        raw == "true"@ || raw == "false"@,
    ensures
        non_integer_cell(raw, None) == raw,
{
    reveal_strlit("true");
    reveal_strlit("false");
    if raw == "false"@ {
        assert(raw != "true"@) by {
            assert(raw[0] != "true"@[0]);
        }
        assert(bool_text(false) =~= raw);
    } else {
        assert(bool_text(true) =~= raw);
    }
}

/// `v` is the JSON text of CSV field `raw`: an `i64` if the field reads as
/// one; else the number that `float_number` gives for it, if it gives one;
/// else `true` or `false`; else `null` for an empty field; else the field
/// as a string.
pub open spec fn cell_ok<F: Fn(&str) -> Option<String>>(float_number: F, raw: Seq<char>, v: Seq<char>) -> bool {
    match spec_parse_i64(raw) {
        Some(n) => v == int_text(n),
        None => exists|s: &str, o: Option<String>|
            s@ == raw && call_ensures(float_number, (s,), o) && v == non_integer_cell(raw, opt_view(o)),
    }
}

/// The JSON value of one CSV field.  `float_number` reads a field as a
/// floating-point number and gives its JSON text, or `None`.
pub fn cell_value<F: Fn(&str) -> Option<String>>(raw: &String, float_number: &F) -> (v: JsonValue)
    requires
        forall|s: &str| #[trigger] float_number.requires((s,)),
    ensures
        cell_ok(*float_number, raw@, v@),
{
    let cs = chars_of(raw.as_str());
    match parse_i64(&cs) {
        Some(n) => JsonValue::from_i64(n),
        None => {
            let f = float_number(raw.as_str());
            let ghost fo = f;
            let v = match f {
                Some(t) => JsonValue::from_text(t),
                None => if str_eq(raw.as_str(), "true") {
                    JsonValue::boolean(true)
                } else if str_eq(raw.as_str(), "false") {
                    JsonValue::boolean(false)
                } else if raw.as_str().is_empty() {
                    JsonValue::null()
                } else {
                    JsonValue::string(raw.as_str())
                },
            };
            assert(v@ == non_integer_cell(raw@, opt_view(fo)));
            v
        },
    }
}

/// A record is unusable: it could not be read, or it has fewer fields than headers.
pub open spec fn record_bad(n_headers: nat, r: Option<Seq<Seq<char>>>) -> bool {
    match r {
        None => true,
        Some(fields) => fields.len() < n_headers,
    }
}

/// The header row of a CSV record's item, paired with the values of its fields.
pub open spec fn row_entries_ok<F: Fn(&str) -> Option<String>>(
    float_number: F,
    headers: Seq<Seq<char>>,
    fields: Seq<Seq<char>>,
    e: Seq<(Seq<char>, Seq<char>)>,
) -> bool {
    &&& e.len() == headers.len()
    &&& forall|c: int| 0 <= c < e.len() ==> (#[trigger] e[c]).0 == headers[c] && cell_ok(float_number, fields[c], e[c].1)
}

/// `m` is the item of a record: the headers mapped to the field values.
pub open spec fn row_item_ok<F: Fn(&str) -> Option<String>>(
    float_number: F,
    headers: Seq<Seq<char>>,
    fields: Seq<Seq<char>>,
    m: Map<Seq<char>, Seq<char>>,
) -> bool {
    exists|e: Seq<(Seq<char>, Seq<char>)>| row_entries_ok(float_number, headers, fields, e) && m == map_from_entries(e)
}

/// The row number of a record in messages: the header is row 1.
pub open spec fn row_number(index: int) -> nat {
    if index + 2 <= usize::MAX { (index + 2) as nat } else { usize::MAX as nat }
}

/// Reading the CSV content succeeds with these items.
pub open spec fn csv_ok<F: Fn(&str) -> Option<String>>(content: Seq<u8>, float_number: F, items: Seq<Item>) -> bool {
    let t = spec_csv_table(content);
    &&& t.headers is Some
    &&& all_wf(items)
    &&& items.len() == t.records.len()
    &&& forall|i: int| 0 <= i < t.records.len() ==> !record_bad(t.headers->0.len(), #[trigger] t.records[i])
    &&& forall|i: int| 0 <= i < items.len()
        ==> row_item_ok(float_number, t.headers->0, t.records[i]->0, (#[trigger] items[i])@)
}

/// Reading the CSV content fails with this error: the headers cannot be
/// read, or at the first unusable record.
pub open spec fn csv_err(content: Seq<u8>, e: ErrorView) -> bool {
    let t = spec_csv_table(content);
    match t.headers {
        None => e == ErrorView::CsvHeaders,
        Some(h) => exists|i: int| 0 <= i < t.records.len() && record_bad(h.len(), #[trigger] t.records[i])
            && (forall|j: int| 0 <= j < i ==> !record_bad(h.len(), #[trigger] t.records[j]))
            && e == (if t.records[i] is None {
                ErrorView::CsvRecord { row: row_number(i) }
            } else {
                ErrorView::CsvMissingColumn
            }),
    }
}

/// Parse CSV content with a header row: each record becomes an item that
/// maps each header to the JSON value of the record's field in its column
/// (a later column replacing an earlier one with the same header).
pub fn parse_csv<F: Fn(&str) -> Option<String>>(content: &[u8], float_number: &F) -> (r: Result<Vec<Item>, ScribeError>)
    requires
        forall|s: &str| #[trigger] float_number.requires((s,)),
    ensures
        match r {
            Ok(items) => csv_ok(content@, *float_number, items@),
            Err(e) => csv_err(content@, e@),
        },
{
    let table = read_csv(content);
    let ghost t = csv_view(table);
    let headers = match &table.headers {
        Some(h) => h,
        None => return Err(ScribeError::CsvHeaders),
    };
    let ghost hv = strings_view(headers@);
    assert(t.headers == Some(hv));
    let mut items: Vec<Item> = Vec::new();
    let mut i: usize = 0;
    while i < table.records.len()
        invariant
            t == csv_view(table),
            t == spec_csv_table(content@),
            t.records.len() == table.records@.len(),
            t.headers == Some(hv),
            hv == strings_view(headers@),
            forall|s: &str| #[trigger] float_number.requires((s,)),
            i <= table.records@.len(),
            items@.len() == i,
            all_wf(items@),
            forall|j: int| 0 <= j < i ==> !record_bad(hv.len(), #[trigger] t.records[j]),
            forall|j: int| 0 <= j < i ==> row_item_ok(*float_number, hv, t.records[j]->0, (#[trigger] items@[j])@),
        decreases table.records@.len() - i,
    {
        assert(t.records[i as int] == record_view(table.records@[i as int]));
        let fields = match &table.records[i] {
            Some(f) => f,
            None => {
                let row = if i <= usize::MAX - 2 { i + 2 } else { usize::MAX };
                assert(record_bad(hv.len(), t.records[i as int]));
                return Err(ScribeError::CsvRecord { row });
            },
        };
        let ghost fv = strings_view(fields@);
        assert(t.records[i as int] == Some(fv));
        if fields.len() < headers.len() {
            assert(record_bad(hv.len(), t.records[i as int]));
            return Err(ScribeError::CsvMissingColumn);
        }
        let mut entries: Vec<(String, JsonValue)> = Vec::new();
        let mut c: usize = 0;
        while c < headers.len()
            invariant
                forall|s: &str| #[trigger] float_number.requires((s,)),
                hv == strings_view(headers@),
                fv == strings_view(fields@),
                headers@.len() <= fields@.len(),
                c <= headers@.len(),
                entries@.len() == c,
                forall|k: int| 0 <= k < c ==> (#[trigger] entries@[k]).0@ == hv[k]
                    && cell_ok(*float_number, fv[k], entries@[k].1@),
            decreases headers@.len() - c,
        {
            let v = cell_value(&fields[c], float_number);
            entries.push((headers[c].clone(), v));
            c = c + 1;
        }
        let item = Item::from_entries(&entries);
        let ghost e = entries@.map_values(|p: (String, JsonValue)| (p.0@, p.1@));
        assert(row_entries_ok(*float_number, hv, t.records[i as int]->0, e)) by {
            assert(t.records[i as int]->0 == fv);
            assert forall|k: int| 0 <= k < e.len() implies (#[trigger] e[k]).0 == hv[k] && cell_ok(*float_number, fv[k], e[k].1) by {
                assert(e[k] == (entries@[k].0@, entries@[k].1@));
            }
        }
        let ghost before = items@;
        let ghost iv = item@;
        items.push(item);
        assert forall|j: int| 0 <= j < i + 1 implies row_item_ok(*float_number, hv, t.records[j]->0, (#[trigger] items@[j])@) by {
            if j < i {
                assert(items@[j] == before[j]);
            } else {
                assert(items@[j]@ == iv);
                assert(iv == map_from_entries(e));
                assert(row_entries_ok(*float_number, hv, t.records[j]->0, e) && items@[j]@ == map_from_entries(e));
            }
        }
        assert(!record_bad(hv.len(), t.records[i as int]));
        i = i + 1;
    }
    assert(t.headers->0 == hv);
    Ok(items)
}

/// Parsing the file in the given format succeeds with these items.
pub open spec fn file_ok<F: Fn(&str) -> Option<String>>(format: FileFormat, content: Seq<u8>, float_number: F, items: Seq<Item>) -> bool {
    match format {
        FileFormat::Json => all_wf(items) && spec_parse_json(content) == Ok::<_, ErrorView>(item_views(items)),
        FileFormat::Csv => csv_ok(content, float_number, items),
    }
}

/// Parsing the file in the given format fails with this error.
pub open spec fn file_err(format: FileFormat, content: Seq<u8>, e: ErrorView) -> bool {
    match format {
        FileFormat::Json => spec_parse_json(content) == Err::<Seq<Map<Seq<char>, Seq<char>>>, _>(e),
        FileFormat::Csv => csv_err(content, e),
    }
}

pub open spec fn opt_str(o: Option<&str>) -> Option<Seq<char>> {
    match o {
        Some(s) => Some(s@),
        None => None,
    }
}

/// Parsing the file and applying the optional transformation succeeds with these items.
pub open spec fn parse_ok<F: Fn(&str) -> Option<String>>(
    format: FileFormat,
    content: Seq<u8>,
    transform: Option<Seq<char>>,
    float_number: F,
    out: Seq<Item>,
) -> bool {
    match transform {
        None => file_ok(format, content, float_number, out),
        Some(x) => all_wf(out) && exists|p: Seq<Item>| file_ok(format, content, float_number, p)
            && #[trigger] spec_apply_transform(p, x) == Ok::<_, ErrorView>(item_views(out)),
    }
}

/// Parsing the file and applying the optional transformation fails with this error.
pub open spec fn parse_err<F: Fn(&str) -> Option<String>>(
    format: FileFormat,
    content: Seq<u8>,
    transform: Option<Seq<char>>,
    float_number: F,
    e: ErrorView,
) -> bool {
    match transform {
        None => file_err(format, content, e),
        Some(x) => file_err(format, content, e) || exists|p: Seq<Item>| file_ok(format, content, float_number, p)
            && #[trigger] spec_apply_transform(p, x) == Err::<Seq<Map<Seq<char>, Seq<char>>>, _>(e),
    }
}

/// Parse file contents into a vector of items.  CSV fields that are not
/// integers are offered to `float_number`, which gives the JSON text of a
/// floating-point reading of the field, or `None`.
pub fn parse_file<F: Fn(&str) -> Option<String>>(content: &[u8], format: FileFormat, float_number: &F) -> (r: Result<Vec<Item>, ScribeError>)
    requires
        forall|s: &str| #[trigger] float_number.requires((s,)),
    ensures
        match r {
            Ok(items) => file_ok(format, content@, *float_number, items@),
            Err(e) => file_err(format, content@, e@),
        },
{
    parse_file_with_transform(content, format, None, float_number)
}

/// Parse file contents and optionally apply a JMESPath transformation.
pub fn parse_file_with_transform<F: Fn(&str) -> Option<String>>(
    content: &[u8],
    format: FileFormat,
    transform: Option<&str>,
    float_number: &F,
) -> (r: Result<Vec<Item>, ScribeError>)
    requires
        forall|s: &str| #[trigger] float_number.requires((s,)),
        transform_ok(opt_str(transform)),
    ensures
        match r {
            Ok(out) => parse_ok(format, content@, opt_str(transform), *float_number, out@),
            Err(e) => parse_err(format, content@, opt_str(transform), *float_number, e@),
        },
{
    let items = match format {
        FileFormat::Json => parse_json(content)?,
        FileFormat::Csv => parse_csv(content, float_number)?,
    };
    match transform {
        Some(expr) => {
            let r = apply_transform(items, expr);
            r
        },
        None => Ok(items),
    }
}

/// `cols` are the column names of the items: each key of some item, once,
/// in increasing order.
pub open spec fn columns_of(items: Seq<Item>, cols: Seq<Seq<char>>) -> bool {
    &&& strictly_sorted(cols)
    &&& forall|k: Seq<char>| cols.contains(k)
        <==> exists|i: int| 0 <= i < items.len() && (#[trigger] items[i])@.contains_key(k)
}

proof fn lemma_strictly_sorted_unique(a: Seq<Seq<char>>, b: Seq<Seq<char>>)
    requires
        strictly_sorted(a),
        strictly_sorted(b),
        forall|k: Seq<char>| a.contains(k) <==> b.contains(k),
    ensures
        a == b,
    decreases a.len(),
{
    if a.len() == 0 {
        if b.len() > 0 {
            assert(b.contains(b[0]));
        }
        assert(a =~= b);
    } else {
        assert(a.contains(a[0]));
        assert(b.len() > 0);
        assert(b.contains(b[0]));
        let i = choose|i: int| 0 <= i < a.len() && a[i] == b[0];
        let j = choose|j: int| 0 <= j < b.len() && b[j] == a[0];
        lemma_str_lt_order(a[0], b[0], a[0]);
        if i > 0 && j > 0 {
            assert(str_lt(a[0], a[i]));
            assert(str_lt(b[0], b[j]));
        }
        if i > 0 && j == 0 {
            assert(str_lt(a[0], a[i]));
        }
        if i == 0 && j > 0 {
            assert(str_lt(b[0], b[j]));
        }
        assert(a[0] == b[0]);
        let ta = a.drop_first();
        let tb = b.drop_first();
        assert forall|k: Seq<char>| ta.contains(k) <==> tb.contains(k) by {
            if ta.contains(k) {
                let p = choose|p: int| 0 <= p < ta.len() && ta[p] == k;
                assert(a[p + 1] == k);
                assert(str_lt(a[0], a[p + 1]));
                lemma_str_lt_order(k, k, k);
                assert(b.contains(k));
                let q = choose|q: int| 0 <= q < b.len() && b[q] == k;
                assert(q != 0);
                assert(tb[q - 1] == k);
            }
            if tb.contains(k) {
                let p = choose|p: int| 0 <= p < tb.len() && tb[p] == k;
                assert(b[p + 1] == k);
                assert(str_lt(b[0], b[p + 1]));
                lemma_str_lt_order(k, k, k);
                assert(a.contains(k));
                let q = choose|q: int| 0 <= q < a.len() && a[q] == k;
                assert(q != 0);
                assert(ta[q - 1] == k);
            }
        }
        assert forall|x: int, y: int| 0 <= x < y < ta.len() implies str_lt(#[trigger] ta[x], #[trigger] ta[y]) by {
            assert(ta[x] == a[x + 1] && ta[y] == a[y + 1]);
        }
        assert forall|x: int, y: int| 0 <= x < y < tb.len() implies str_lt(#[trigger] tb[x], #[trigger] tb[y]) by {
            assert(tb[x] == b[x + 1] && tb[y] == b[y + 1]);
        }
        lemma_strictly_sorted_unique(ta, tb);
        assert(a =~= seq![a[0]] + ta);
        assert(b =~= seq![b[0]] + tb);
    }
}

/// The columns are determined by the items: whatever order the keys were
/// met in, the column list is the same, so the database's columns come out
/// in the same order on every run.
pub proof fn law_columns_are_determined(items: Seq<Item>, c1: Seq<Seq<char>>, c2: Seq<Seq<char>>)
    requires
        columns_of(items, c1),
        columns_of(items, c2),
    ensures
        c1 == c2,
{
    lemma_strictly_sorted_unique(c1, c2);
}

/// Extract all unique column names from a collection of items, sorted.
pub fn extract_columns(items: &[Item]) -> (columns: Vec<String>)
    requires
        all_wf(items@),
    ensures
        columns_of(items@, views(columns@)),
{
    let mut columns: Vec<String> = Vec::new();
    let mut i: usize = 0;
    while i < items.len()
        invariant
            i <= items@.len(),
            all_wf(items@),
            strictly_sorted(views(columns@)),
            forall|k: Seq<char>| views(columns@).contains(k)
                <==> exists|j: int| 0 <= j < i && (#[trigger] items@[j])@.contains_key(k),
        decreases items@.len() - i,
    {
        let item = &items[i];
        assert(item.wf());
        let keys = item.keys();
        let ghost start = views(columns@);
        let mut c: usize = 0;
        while c < keys.len()
            invariant
                c <= keys@.len(),
                keys@.len() == item.entries().len(),
                forall|m: int| 0 <= m < keys@.len() ==> #[trigger] keys@[m]@ == item.entries()[m].0,
                strictly_sorted(views(columns@)),
                forall|k: Seq<char>| #[trigger] views(columns@).contains(k)
                    <==> start.contains(k) || exists|m: int| 0 <= m < c && #[trigger] keys@[m]@ == k,
            decreases keys@.len() - c,
        {
            let ghost prev = views(columns@);
            insert_unique(&mut columns, &keys[c]);
            assert forall|k: Seq<char>| #[trigger] views(columns@).contains(k)
                <==> start.contains(k) || exists|m: int| 0 <= m < c + 1 && #[trigger] keys@[m]@ == k by {
                if exists|m: int| 0 <= m < c + 1 && #[trigger] keys@[m]@ == k {
                    let m = choose|m: int| 0 <= m < c + 1 && #[trigger] keys@[m]@ == k;
                    if m < c {
                        assert(prev.contains(k));
                    }
                }
            }
            c = c + 1;
        }
        assert forall|k: Seq<char>| views(columns@).contains(k)
            <==> exists|j: int| 0 <= j < i + 1 && (#[trigger] items@[j])@.contains_key(k) by {
            if exists|m: int| 0 <= m < keys@.len() && #[trigger] keys@[m]@ == k {
                let m = choose|m: int| 0 <= m < keys@.len() && #[trigger] keys@[m]@ == k;
                crate::item::lemma_map_of_sorted(item.entries(), m);
                assert(items@[i as int]@.contains_key(k));
            }
            if items@[i as int]@.contains_key(k) {
                let m = crate::item::key_index(item.entries(), k);
                assert(keys@[m]@ == k);
            }
            if exists|j: int| 0 <= j < i + 1 && (#[trigger] items@[j])@.contains_key(k) {
                let j = choose|j: int| 0 <= j < i + 1 && (#[trigger] items@[j])@.contains_key(k);
                if j < i {
                    assert(exists|j2: int| 0 <= j2 < i && (#[trigger] items@[j2])@.contains_key(k));
                }
            }
        }
        i = i + 1;
    }
    columns
}

} // verus!
