//! Reshaping parsed items with a JMESPath expression.
use vstd::prelude::*;
use crate::error::{ScribeError, ErrorView};
use crate::item::{Item, map_from_entries, item_views, all_wf};
use crate::json::{JsonKind, JsonValue, object_text, array_text, chars_of};
use crate::parser::{ElementView, DocumentView, document_view, spec_json_document, read_json_text, array_items};

verus! {

/// What evaluating a JMESPath expression gives.
pub enum SearchOutcome {
    /// The expression does not compile.
    Invalid,
    /// Evaluation failed.
    Failed,
    /// The result, as its JSON text (JMESPath `Variable`'s `Display`).
    Output(String),
}

pub enum SearchView {
    Invalid,
    Failed,
    Output(Seq<char>),
}

pub open spec fn search_view(r: SearchOutcome) -> SearchView {
    match r {
        SearchOutcome::Invalid => SearchView::Invalid,
        SearchOutcome::Failed => SearchView::Failed,
        SearchOutcome::Output(t) => SearchView::Output(t@),
    }
}

/// Where a scan of an expression stands: whether no slice step seen so far
/// has ten or more digits, whether it is inside a slice's brackets, how many
/// colons it has passed there, and how long the current run of digits is.
pub struct ScanState {
    pub ok: bool,
    pub in_slice: bool,
    pub colons: nat,
    pub run: nat,
}

pub open spec fn is_digit(c: char) -> bool {
    '0' <= c && c <= '9'
}

pub open spec fn is_space(c: char) -> bool {
    c == ' ' || c == '\t' || c == '\n' || c == '\r'
}

/// One character of the scan.  A slice is `[` followed by digits, signs,
/// spaces and colons; the digits after its second colon are its step.
pub open spec fn scan_char(st: ScanState, c: char) -> ScanState {
    if c == '[' {
        ScanState { ok: st.ok, in_slice: true, colons: 0, run: 0 }
    } else if !st.in_slice {
        ScanState { ok: st.ok, in_slice: false, colons: 0, run: 0 }
    } else if c == ':' {
        ScanState { ok: st.ok, in_slice: true, colons: st.colons + 1, run: 0 }
    } else if is_digit(c) {
        ScanState { ok: st.ok && !(st.colons == 2 && st.run + 1 > 9), in_slice: true, colons: st.colons, run: st.run + 1 }
    } else if c == '-' || is_space(c) {
        ScanState { ok: st.ok, in_slice: true, colons: st.colons, run: 0 }
    } else {
        ScanState { ok: st.ok, in_slice: false, colons: 0, run: 0 }
    }
}

pub open spec fn scan(e: Seq<char>) -> ScanState
    decreases e.len(),
{
    if e.len() == 0 {
        ScanState { ok: true, in_slice: false, colons: 0, run: 0 }
    } else {
        scan_char(scan(e.drop_last()), e.last())
    }
}

/// Every slice step written in the expression has at most nine digits.
pub open spec fn slice_steps_small(e: Seq<char>) -> bool {
    scan(e).ok
}

/// An optional transformation can be evaluated: it is absent, or its slice
/// steps are small.
pub open spec fn transform_ok(t: Option<Seq<char>>) -> bool {
    match t {
        Some(e) => slice_steps_small(e),
        None => true,
    }
}

/// Whether every slice step written in the expression has at most nine
/// digits, as evaluating it requires.
pub fn transform_is_safe(expression: &str) -> (b: bool)
    ensures
        b == slice_steps_small(expression@),
{
    let cs = chars_of(expression);
    let mut ok = true;
    let mut in_slice = false;
    let mut colons: usize = 0;
    let mut run: usize = 0;
    let mut i: usize = 0;
    while i < cs.len()
        invariant
            i <= cs@.len(),
            cs@ == expression@,
            colons <= i,
            run <= i,
            scan(cs@.take(i as int)) == (ScanState { ok, in_slice, colons: colons as nat, run: run as nat }),
        decreases cs@.len() - i,
    {
        let c = cs[i];
        assert(cs@.take(i + 1).drop_last() =~= cs@.take(i as int));
        if c == '[' {
            in_slice = true;
            colons = 0;
            run = 0;
        } else if !in_slice {
            colons = 0;
            run = 0;
        } else if c == ':' {
            colons = colons + 1;
            run = 0;
        } else if '0' <= c && c <= '9' {
            ok = ok && !(colons == 2 && run + 1 > 9);
            run = run + 1;
        } else if c == '-' || c == ' ' || c == '\t' || c == '\n' || c == '\r' {
            run = 0;
        } else {
            in_slice = false;
            colons = 0;
            run = 0;
        }
        i = i + 1;
    }
    assert(cs@.take(cs@.len() as int) =~= cs@);
    ok
}

/// Names what JMESPath gives for an expression applied to a JSON input.
pub uninterp spec fn spec_jmespath(expression: Seq<char>, input: Seq<char>) -> SearchView;

/// `jmespath::compile` and `Expression::search`, with the input read by
/// `serde_json::from_str`: compiles `expression`, evaluates it on `input`
/// and writes the result as JSON text.  The contract names the outcome; it
/// states nothing of JMESPath.  A slice steps through an array by adding its
/// step to an `i32` index, which overflows (and the index then panics) when
/// the step is within the array's length of `i32::MAX`; `requires` keeps the
/// steps below 10^9, so that only an array of more than 1.1 billion elements,
/// which does not fit in memory, could reach that.
#[verifier::external_body]
fn jmespath_search(expression: &str, input: &str) -> (r: SearchOutcome)
    requires
        slice_steps_small(expression@),
    ensures
        search_view(r) == spec_jmespath(expression@, input@),
{
    let compiled = match jmespath::compile(expression) {
        Ok(c) => c,
        Err(_) => return SearchOutcome::Invalid,
    };
    let data: serde_json::Value = match serde_json::from_str(input) {
        Ok(v) => v,
        Err(_) => return SearchOutcome::Failed,
    };
    match compiled.search(data) {
        Ok(v) => SearchOutcome::Output(v.to_string()),
        Err(_) => SearchOutcome::Failed,
    }
}

/// The JSON text that a transformation reads: an array of the items as objects.
pub open spec fn transform_input(items: Seq<Item>) -> Seq<char> {
    array_text(items.map_values(|i: Item| object_text(i.entries())))
}

/// The items of a transformation's result, or why it is not an array of objects.
pub open spec fn result_items(d: DocumentView) -> Result<Seq<Map<Seq<char>, Seq<char>>>, ErrorView> {
    if d.kind != JsonKind::Array {
        Err(ErrorView::TransformNotArray { kind: d.kind })
    } else if exists|i: int| 0 <= i < d.elements.len() && #[trigger] d.elements[i].kind != JsonKind::Object {
        let i = choose|i: int| 0 <= i < d.elements.len() && #[trigger] d.elements[i].kind != JsonKind::Object
            && forall|j: int| 0 <= j < i ==> #[trigger] d.elements[j].kind == JsonKind::Object;
        Err(ErrorView::TransformItemNotObject { index: i as nat, kind: d.elements[i].kind })
    } else {
        Ok(d.elements.map_values(|e: ElementView| map_from_entries(e.members)))
    }
}

/// The items that a search outcome gives, or why it gives none.
pub open spec fn search_result(v: SearchView) -> Result<Seq<Map<Seq<char>, Seq<char>>>, ErrorView> {
    match v {
        SearchView::Invalid => Err(ErrorView::InvalidTransform),
        SearchView::Failed => Err(ErrorView::TransformFailed),
        SearchView::Output(t) => match spec_json_document(t) {
            None => Err(ErrorView::TransformOutputUnreadable),
            Some(d) => result_items(d),
        },
    }
}

/// What applying a transformation to items gives.
pub open spec fn spec_apply_transform(items: Seq<Item>, expression: Seq<char>) -> Result<Seq<Map<Seq<char>, Seq<char>>>, ErrorView> {
    search_result(spec_jmespath(expression, transform_input(items)))
}

/// The items of a search's outcome: the expression must have compiled and
/// run, and its result must be an array of objects, each of which becomes an
/// item.
pub fn transform_result(outcome: SearchOutcome) -> (r: Result<Vec<Item>, ScribeError>)
    ensures
        match r {
            Ok(out) => all_wf(out@) && search_result(search_view(outcome)) == Ok::<_, ErrorView>(item_views(out@)),
            Err(e) => search_result(search_view(outcome)) == Err::<Seq<Map<Seq<char>, Seq<char>>>, _>(e@),
        },
{
    let text = match outcome {
        SearchOutcome::Invalid => return Err(ScribeError::InvalidTransform),
        SearchOutcome::Failed => return Err(ScribeError::TransformFailed),
        SearchOutcome::Output(t) => t,
    };
    let doc = match read_json_text(text.as_str()) {
        Some(d) => d,
        None => return Err(ScribeError::TransformOutputUnreadable),
    };
    if doc.kind != JsonKind::Array {
        return Err(ScribeError::TransformNotArray { kind: doc.kind });
    }
    let ghost dv = document_view(doc);
    match array_items(&doc) {
        Ok(out) => {
            assert(!exists|i: int| 0 <= i < dv.elements.len() && #[trigger] dv.elements[i].kind != JsonKind::Object);
            Ok(out)
        },
        Err(i) => {
            assert(dv.elements[i as int].kind != JsonKind::Object);
            let ghost c = choose|k: int| 0 <= k < dv.elements.len() && #[trigger] dv.elements[k].kind != JsonKind::Object
                && forall|j: int| 0 <= j < k ==> #[trigger] dv.elements[j].kind == JsonKind::Object;
            assert(c == i as int) by {
                if c < i {
                    assert(dv.elements[c].kind == JsonKind::Object);
                } else if c > i {
                    assert(dv.elements[i as int].kind == JsonKind::Object);
                }
            }
            let kind = doc.elements[i].kind;
            assert(dv.elements[i as int].kind == kind);
            Err(ScribeError::TransformItemNotObject { index: i, kind })
        },
    }
}

/// Apply a JMESPath transformation to parsed items.  The items are handed to
/// the expression as an array of objects; the result must be an array of
/// objects, each of which becomes an item.
pub fn apply_transform(items: Vec<Item>, expression: &str) -> (r: Result<Vec<Item>, ScribeError>)
    requires
        all_wf(items@),
        slice_steps_small(expression@),
    ensures
        match r {
            Ok(out) => all_wf(out@) && spec_apply_transform(items@, expression@) == Ok::<_, ErrorView>(item_views(out@)),
            Err(e) => spec_apply_transform(items@, expression@) == Err::<Seq<Map<Seq<char>, Seq<char>>>, _>(e@),
        },
{
    let mut objects: Vec<JsonValue> = Vec::new();
    let mut i: usize = 0;
    while i < items.len()
        invariant
            i <= items@.len(),
            objects@.len() == i,
            forall|j: int| 0 <= j < i ==> (#[trigger] objects@[j])@ == object_text(items@[j].entries()),
        decreases items@.len() - i,
    {
        objects.push(JsonValue::object(&items[i]));
        i = i + 1;
    }
    let input = JsonValue::array(&objects);
    assert(objects@.map_values(|x: JsonValue| x@) =~= items@.map_values(|i: Item| object_text(i.entries())));
    transform_result(jmespath_search(expression, input.as_text()))
}

} // verus!
