//! Stable hashes of an item's primary key and of its whole content.
use vstd::prelude::*;
use vstd::utf8::encode_utf8;
use crate::error::{ScribeError, ErrorView};
use crate::item::{Item, lemma_sorted_entries_unique, canonical_entries, lemma_entries_canonical, keys_sorted, map_of, lemma_map_of_sorted};
use crate::sort::{views, str_leq, sort_strings, lemma_str_leq_total};
use crate::text::{hex_text, to_hex, is_lower_hex, lemma_hex_text_shape};

verus! {

/// Names the SHA-256 digest of a byte string.
pub uninterp spec fn spec_sha256(data: Seq<u8>) -> Seq<u8>;

/// `sha2::Sha256::digest`: the SHA-256 digest of `data`.  The contract
/// names the digest and states its length (32 bytes, the output size of
/// SHA-256); it does not state the digest function itself.
#[verifier::external_body]
fn sha256(data: &[u8]) -> (d: Vec<u8>)
    ensures
        d@ == spec_sha256(data@),
        d@.len() == 32,
{
    <sha2::Sha256 as sha2::Digest>::digest(data).to_vec()
}

/// The lower-case hexadecimal text of the SHA-256 digest of `data`.
pub open spec fn digest_text(data: Seq<u8>) -> Seq<char> {
    hex_text(spec_sha256(data))
}

/// The bytes that one field contributes: `key:value;`, the value as its JSON text.
pub open spec fn field_bytes(k: Seq<char>, v: Seq<char>) -> Seq<u8> {
    encode_utf8(k) + seq![58u8] + encode_utf8(v) + seq![59u8]
}

/// The hashed bytes of an item's content: its fields in key order.
pub open spec fn content_message(e: Seq<(Seq<char>, Seq<char>)>) -> Seq<u8>
    decreases e.len(),
{
    if e.len() == 0 {
        Seq::empty()
    } else {
        content_message(e.drop_last()) + field_bytes(e.last().0, e.last().1)
    }
}

/// The content hash of an item with the given columns and values.
pub open spec fn content_hash_of(m: Map<Seq<char>, Seq<char>>) -> Seq<char> {
    digest_text(content_message(canonical_entries(m)))
}

/// The hashed bytes of a primary key: the key columns in the order given,
/// each with the item's value.
pub open spec fn pk_message(ks: Seq<Seq<char>>, m: Map<Seq<char>, Seq<char>>) -> Seq<u8>
    decreases ks.len(),
{
    if ks.len() == 0 {
        Seq::empty()
    } else {
        pk_message(ks.drop_last(), m) + field_bytes(ks.last(), m[ks.last()])
    }
}

/// The primary key columns in the order in which they are hashed: sorted.
pub open spec fn pk_order(primary_keys: Seq<String>) -> Seq<Seq<char>> {
    views(primary_keys).sort_by(str_leq())
}

/// The item has every primary key column.
pub open spec fn pk_present(primary_keys: Seq<String>, m: Map<Seq<char>, Seq<char>>) -> bool {
    forall|i: int| 0 <= i < pk_order(primary_keys).len() ==> m.contains_key(#[trigger] pk_order(primary_keys)[i])
}

/// `h` is the primary key hash of an item with the map `m`.
pub open spec fn pk_hash_ok(primary_keys: Seq<String>, m: Map<Seq<char>, Seq<char>>, h: Seq<char>) -> bool {
    pk_present(primary_keys, m) && h == digest_text(pk_message(pk_order(primary_keys), m))
}

/// `e` is the error of hashing the primary key of an item with the map `m`:
/// the first key column, in hashing order, that the item lacks.
pub open spec fn pk_hash_err(primary_keys: Seq<String>, m: Map<Seq<char>, Seq<char>>, e: ErrorView) -> bool {
    exists|i: int| 0 <= i < pk_order(primary_keys).len()
        && !m.contains_key(#[trigger] pk_order(primary_keys)[i])
        && (forall|j: int| 0 <= j < i ==> m.contains_key(#[trigger] pk_order(primary_keys)[j]))
        && e == (ErrorView::MissingPrimaryKey { key: pk_order(primary_keys)[i] })
}

fn push_bytes(out: &mut Vec<u8>, s: &str)
    ensures
        final(out)@ == old(out)@ + encode_utf8(s@),
{
    let b = s.as_bytes();
    let mut i: usize = 0;
    let ghost start = out@;
    while i < b.len()
        invariant
            i <= b@.len(),
            b@ == encode_utf8(s@),
            out@ == start + b@.take(i as int),
        decreases b@.len() - i,
    {
        out.push(b[i]);
        assert(b@.take(i + 1) =~= b@.take(i as int).push(b@[i as int]));
        i = i + 1;
    }
    assert(b@.take(b@.len() as int) =~= b@);
}

fn push_field(out: &mut Vec<u8>, k: &str, v: &str)
    ensures
        final(out)@ == old(out)@ + field_bytes(k@, v@),
{
    push_bytes(out, k);
    out.push(58u8);
    push_bytes(out, v);
    out.push(59u8);
    assert(final(out)@ =~= old(out)@ + field_bytes(k@, v@));
}

/// Compute a hash of the entire item content: SHA-256 over `key:value;`
/// for every field in key order, written as lower-case hex.  Used to detect
/// whether an item changed between commits.
pub fn compute_content_hash(item: &Item) -> (h: String)
    requires
        item.wf(),
    ensures
        h@ == digest_text(content_message(item.entries())),
        h@ == content_hash_of(item@),
        h@.len() == 64,
        forall|i: int| 0 <= i < h@.len() ==> is_lower_hex(#[trigger] h@[i]),
{
    proof {
        lemma_entries_canonical(item);
    }
    let mut msg: Vec<u8> = Vec::new();
    let mut i: usize = 0;
    while i < item.len()
        invariant
            i <= item.entries().len(),
            msg@ == content_message(item.entries().take(i as int)),
        decreases item.entries().len() - i,
    {
        push_field(&mut msg, item.key_at(i).as_str(), item.value_at(i).as_text());
        assert(item.entries().take(i + 1).drop_last() =~= item.entries().take(i as int));
        i = i + 1;
    }
    assert(item.entries().take(item.entries().len() as int) =~= item.entries());
    let d = sha256(msg.as_slice());
    proof {
        lemma_hex_text_shape(d@);
    }
    to_hex(d.as_slice())
}

/// Compute a stable hash for a primary key: SHA-256 over `key:value;` for
/// each primary key column in sorted order, written as lower-case hex.
/// Fails with the first key column (in that order) that the item lacks.
pub fn compute_primary_key_hash(primary_keys: &[String], item: &Item) -> (r: Result<String, ScribeError>)
    requires
        item.wf(),
    ensures
        match r {
            Ok(h) => pk_hash_ok(primary_keys@, item@, h@) && h@.len() == 64
                && forall|i: int| 0 <= i < h@.len() ==> is_lower_hex(#[trigger] h@[i]),
            Err(e) => pk_hash_err(primary_keys@, item@, e@),
        },
{
    let mut pks: Vec<String> = Vec::new();
    let mut j: usize = 0;
    while j < primary_keys.len()
        invariant
            j <= primary_keys@.len(),
            pks@ == primary_keys@.take(j as int),
        decreases primary_keys@.len() - j,
    {
        pks.push(primary_keys[j].clone());
        assert(pks@ =~= primary_keys@.take(j + 1));
        j = j + 1;
    }
    assert(pks@ =~= primary_keys@);
    let sorted = sort_strings(&pks);
    let ghost ks = pk_order(primary_keys@);
    assert(views(sorted@) == ks);
    let mut msg: Vec<u8> = Vec::new();
    let mut i: usize = 0;
    while i < sorted.len()
        invariant
            item.wf(),
            views(sorted@) == ks,
            ks == pk_order(primary_keys@),
            sorted@.len() == ks.len(),
            i <= ks.len(),
            forall|j: int| 0 <= j < i ==> item@.contains_key(#[trigger] ks[j]),
            msg@ == pk_message(ks.take(i as int), item@),
        decreases ks.len() - i,
    {
        let key = &sorted[i];
        assert(key@ == ks[i as int]);
        match item.get(key.as_str()) {
            Some(v) => {
                push_field(&mut msg, key.as_str(), v.as_text());
                assert(ks.take(i + 1).drop_last() =~= ks.take(i as int));
            },
            None => {
                let e = ScribeError::MissingPrimaryKey { key: key.clone() };
                assert(!item@.contains_key(pk_order(primary_keys@)[i as int]));
                assert(e@ == (ErrorView::MissingPrimaryKey { key: pk_order(primary_keys@)[i as int] }));
                return Err(e);
            },
        }
        i = i + 1;
    }
    assert(ks.take(ks.len() as int) =~= ks);
    let d = sha256(msg.as_slice());
    proof {
        lemma_hex_text_shape(d@);
    }
    Ok(to_hex(d.as_slice()))
}

/// The content hash depends only on the item as a map: two items with the
/// same columns and values hash alike, whatever order they were filled in.
pub proof fn law_content_hash_of_equal_items(a: &Item, b: &Item)
    requires
        a.wf(),
        b.wf(),
        a@ == b@,
    ensures
        digest_text(content_message(a.entries())) == digest_text(content_message(b.entries())),
{
    lemma_sorted_entries_unique(a.entries(), b.entries());
}

/// The primary key hash does not depend on the order in which the primary
/// key columns are given: any two lists with the same columns (counting
/// repeats) are hashed in the same order.
pub proof fn law_pk_order_ignores_given_order(p: Seq<String>, q: Seq<String>)
    requires
        views(p).to_multiset() == views(q).to_multiset(),
    ensures
        pk_order(p) == pk_order(q),
{
    lemma_str_leq_total();
    views(p).lemma_sort_by_ensures(str_leq());
    views(q).lemma_sort_by_ensures(str_leq());
    vstd::seq_lib::lemma_sorted_unique(pk_order(p), pk_order(q), str_leq());
}

/// Both items hold every column in `ks`, with the same values.
pub open spec fn agree_on(ks: Seq<Seq<char>>, m1: Map<Seq<char>, Seq<char>>, m2: Map<Seq<char>, Seq<char>>) -> bool {
    forall|i: int| 0 <= i < ks.len() ==> m1.contains_key(#[trigger] ks[i]) && m2.contains_key(ks[i]) && m1[ks[i]] == m2[ks[i]]
}

proof fn lemma_pk_message_agree(ks: Seq<Seq<char>>, m1: Map<Seq<char>, Seq<char>>, m2: Map<Seq<char>, Seq<char>>)
    requires
        agree_on(ks, m1, m2),
    ensures
        pk_message(ks, m1) == pk_message(ks, m2),
    decreases ks.len(),
{
    if ks.len() > 0 {
        let init = ks.drop_last();
        assert forall|i: int| 0 <= i < init.len() implies m1.contains_key(#[trigger] init[i]) && m2.contains_key(init[i])
            && m1[init[i]] == m2[init[i]] by {
            assert(init[i] == ks[i]);
        }
        lemma_pk_message_agree(init, m1, m2);
        assert(ks.last() == ks[ks.len() - 1]);
    }
}

/// An item's identity is stable: two items that agree on the primary key
/// columns have the same primary key hash, whatever their other columns hold.
pub proof fn law_pk_hash_ignores_other_fields(
    primary_keys: Seq<String>,
    m1: Map<Seq<char>, Seq<char>>,
    m2: Map<Seq<char>, Seq<char>>,
    h1: Seq<char>,
    h2: Seq<char>,
)
    requires
        pk_hash_ok(primary_keys, m1, h1),
        pk_hash_ok(primary_keys, m2, h2),
        forall|i: int| 0 <= i < primary_keys.len() ==> m1[#[trigger] primary_keys[i]@] == m2[primary_keys[i]@],
    ensures
        h1 == h2,
{
    let ks = pk_order(primary_keys);
    lemma_str_leq_total();
    views(primary_keys).lemma_sort_by_ensures(str_leq());
    assert forall|i: int| 0 <= i < ks.len() implies m1.contains_key(#[trigger] ks[i]) && m2.contains_key(ks[i])
        && m1[ks[i]] == m2[ks[i]] by {
        ks.to_multiset_ensures();
        views(primary_keys).to_multiset_ensures();
        assert(ks.contains(ks[i]));
        let j = choose|j: int| 0 <= j < views(primary_keys).len() && views(primary_keys)[j] == ks[i];
        assert(views(primary_keys)[j] == primary_keys[j]@);
    }
    lemma_pk_message_agree(ks, m1, m2);
}

/// The keys of entries, in order.
pub open spec fn entry_keys(e: Seq<(Seq<char>, Seq<char>)>) -> Seq<Seq<char>> {
    e.map_values(|p: (Seq<char>, Seq<char>)| p.0)
}

proof fn lemma_pk_message_entries(e: Seq<(Seq<char>, Seq<char>)>, k: int)
    requires
        keys_sorted(e),
        0 <= k <= e.len(),
    ensures
        pk_message(entry_keys(e).take(k), map_of(e)) == content_message(e.take(k)),
    decreases k,
{
    if k > 0 {
        lemma_pk_message_entries(e, k - 1);
        lemma_map_of_sorted(e, k - 1);
        assert(entry_keys(e).take(k).drop_last() =~= entry_keys(e).take(k - 1));
        assert(e.take(k).drop_last() =~= e.take(k - 1));
    }
}

/// The content hash is the primary key hash that takes every column of the
/// item as a key column.
pub proof fn law_content_hash_is_pk_hash_of_all_columns(item: &Item, keys: Seq<String>)
    requires
        item.wf(),
        views(keys) == entry_keys(item.entries()),
    ensures
        pk_hash_ok(keys, item@, content_hash_of(item@)),
{
    let e = item.entries();
    let ks = views(keys);
    lemma_entries_canonical(item);
    lemma_str_leq_total();
    ks.lemma_sort_by_ensures(str_leq());
    assert(vstd::relations::sorted_by(ks, str_leq())) by {
        assert forall|i: int, j: int| 0 <= i < j < ks.len() implies str_leq()(#[trigger] ks[i], #[trigger] ks[j]) by {
            assert(ks[i] == e[i].0 && ks[j] == e[j].0);
        }
    }
    vstd::seq_lib::lemma_sorted_unique(ks, pk_order(keys), str_leq());
    assert(pk_order(keys) == ks);
    lemma_pk_message_entries(e, e.len() as int);
    assert(entry_keys(e).take(e.len() as int) =~= entry_keys(e));
    assert(e.take(e.len() as int) =~= e);
    assert forall|i: int| 0 <= i < pk_order(keys).len() implies item@.contains_key(#[trigger] pk_order(keys)[i]) by {
        lemma_map_of_sorted(e, i);
    }
}

} // verus!
