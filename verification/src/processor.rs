//! Change detection across commits: which items are new, changed or
//! unchanged, and what the database has to record for each.
use vstd::prelude::*;
use vstd::hash_map::StringHashMap;
use crate::item::{Item, all_wf};
use crate::error::{ScribeError, ErrorView};
use crate::format::FileFormat;
use crate::git::CommitInfo;
use crate::hash::{compute_content_hash, compute_primary_key_hash, content_hash_of, pk_hash_ok, pk_hash_err, pk_present};
use crate::parser::{parse_file_with_transform, parse_ok, parse_err, opt_str, extract_columns};
use crate::transform::transform_ok;
use crate::db::{Database, Tx, Sent, ParamView, commit_sent, meta_sent, insert_item_sent, update_item_sent, insert_version_sent, schema_sent, sent_schema_prefix, stored_state};
use crate::sort::{views, strictly_sorted};

verus! {

broadcast use vstd::hash_map::group_hash_map_axioms;

/// An item of one commit with its two hashes.
#[derive(Debug)]
pub struct ItemData {
    pub primary_key_hash: String,
    pub content_hash: String,
    pub data: Item,
}

/// A commit with its items parsed and hashed.
#[derive(Debug)]
pub struct CommitData {
    pub hash: String,
    /// Commit time, in seconds since the Unix epoch (UTC).
    pub timestamp: i64,
    pub items: Vec<ItemData>,
}

/// What processing a commit does with one of its items.
#[derive(Debug, Clone, Copy, PartialEq, Eq, Structural)]
pub enum ItemAction {
    /// First seen: insert the item and a version of it.
    New,
    /// Seen before with other content: update the item and insert a version.
    Changed,
    /// Seen before with the same content: nothing is written.
    Unchanged,
}

/// The (primary key hash, content hash) pairs of a commit's items.
pub open spec fn hash_pairs(items: Seq<ItemData>) -> Seq<(Seq<char>, Seq<char>)> {
    items.map_values(|d: ItemData| (d.primary_key_hash@, d.content_hash@))
}

/// The known state as a map from primary key hash to content hash.
pub open spec fn state_view(s: Map<Seq<char>, String>) -> Map<Seq<char>, Seq<char>> {
    s.map_values(|v: String| v@)
}

/// The action for an item given the state before it.
pub open spec fn spec_action(state: Map<Seq<char>, Seq<char>>, pk: Seq<char>, ch: Seq<char>) -> ItemAction {
    if !state.contains_key(pk) {
        ItemAction::New
    } else if state[pk] != ch {
        ItemAction::Changed
    } else {
        ItemAction::Unchanged
    }
}

/// The state after a sequence of items: each item's key now maps to its content hash.
pub open spec fn state_after(state: Map<Seq<char>, Seq<char>>, items: Seq<(Seq<char>, Seq<char>)>) -> Map<Seq<char>, Seq<char>>
    decreases items.len(),
{
    if items.len() == 0 {
        state
    } else {
        state_after(state, items.drop_last()).insert(items.last().0, items.last().1)
    }
}

/// The actions for a sequence of items, each judged against the state left by those before it.
pub open spec fn actions_of(state: Map<Seq<char>, Seq<char>>, items: Seq<(Seq<char>, Seq<char>)>) -> Seq<ItemAction>
    decreases items.len(),
{
    if items.len() == 0 {
        Seq::empty()
    } else {
        actions_of(state, items.drop_last()).push(
            spec_action(state_after(state, items.drop_last()), items.last().0, items.last().1),
        )
    }
}

/// Decides, item by item, whether each item of a commit is new, changed or
/// unchanged against `state`, and brings `state` up to date.
pub fn plan_commit(state: &mut StringHashMap<String>, items: &Vec<ItemData>) -> (actions: Vec<ItemAction>)
    ensures
        actions@ == actions_of(state_view(old(state)@), hash_pairs(items@)),
        state_view(final(state)@) == state_after(state_view(old(state)@), hash_pairs(items@)),
{
    let ghost s0 = state_view(state@);
    let ghost hp = hash_pairs(items@);
    let mut actions: Vec<ItemAction> = Vec::new();
    let mut i: usize = 0;
    while i < items.len()
        invariant
            i <= items@.len(),
            s0 == state_view(old(state)@),
            hp == hash_pairs(items@),
            actions@ == actions_of(s0, hp.take(i as int)),
            state_view(state@) == state_after(s0, hp.take(i as int)),
        decreases items@.len() - i,
    {
        let item = &items[i];
        assert(hp.take(i + 1).drop_last() =~= hp.take(i as int));
        assert(hp[i as int] == (item.primary_key_hash@, item.content_hash@));
        let action = match state.get(item.primary_key_hash.as_str()) {
            None => ItemAction::New,
            Some(existing) => {
                if *existing != item.content_hash {
                    ItemAction::Changed
                } else {
                    ItemAction::Unchanged
                }
            },
        };
        if action != ItemAction::Unchanged {
            state.insert(item.primary_key_hash.clone(), item.content_hash.clone());
        }
        proof {
            let before = state_after(s0, hp.take(i as int));
            if action == ItemAction::Unchanged {
                assert(before.insert(hp[i as int].0, hp[i as int].1) =~= before);
            }
        }
        assert(state_view(state@) =~= state_after(s0, hp.take(i + 1)));
        actions.push(action);
        i = i + 1;
    }
    assert(hp.take(items@.len() as int) =~= hp);
    actions
}

/// The overlay that a sequence of items lays over any state.
pub open spec fn overlay(items: Seq<(Seq<char>, Seq<char>)>) -> Map<Seq<char>, Seq<char>> {
    state_after(Map::empty(), items)
}

proof fn lemma_state_after_is_overlay(st: Map<Seq<char>, Seq<char>>, items: Seq<(Seq<char>, Seq<char>)>)
    ensures
        state_after(st, items) == st.union_prefer_right(overlay(items)),
    decreases items.len(),
{
    if items.len() > 0 {
        lemma_state_after_is_overlay(st, items.drop_last());
        lemma_state_after_is_overlay(Map::empty(), items.drop_last());
        assert(Map::<Seq<char>, Seq<char>>::empty().union_prefer_right(overlay(items.drop_last())) =~= overlay(items.drop_last()));
        assert(state_after(st, items) =~= st.union_prefer_right(overlay(items)));
    } else {
        assert(st.union_prefer_right(overlay(items)) =~= st);
    }
}

/// Keys are only ever added: after a commit the state knows exactly the keys
/// it knew before and the keys of the commit's items, and a key that no item
/// has keeps its content hash.
pub proof fn law_state_keys(st: Map<Seq<char>, Seq<char>>, items: Seq<(Seq<char>, Seq<char>)>)
    ensures
        forall|k: Seq<char>| #[trigger] state_after(st, items).contains_key(k)
            <==> (st.contains_key(k) || exists|j: int| 0 <= j < items.len() && #[trigger] items[j].0 == k),
        forall|k: Seq<char>| st.contains_key(k) && (forall|j: int| 0 <= j < items.len() ==> #[trigger] items[j].0 != k)
            ==> #[trigger] state_after(st, items)[k] == st[k],
    decreases items.len(),
{
    if items.len() > 0 {
        let init = items.drop_last();
        law_state_keys(st, init);
        assert forall|k: Seq<char>| #[trigger] state_after(st, items).contains_key(k)
            implies (st.contains_key(k) || exists|j: int| 0 <= j < items.len() && #[trigger] items[j].0 == k) by {
            if k != items.last().0 {
                assert(state_after(st, init).contains_key(k));
                if !st.contains_key(k) {
                    let j = choose|j: int| 0 <= j < init.len() && #[trigger] init[j].0 == k;
                    assert(items[j] == init[j]);
                }
            } else {
                assert(items[items.len() - 1].0 == k);
            }
        }
        assert forall|k: Seq<char>| (st.contains_key(k) || exists|j: int| 0 <= j < items.len() && #[trigger] items[j].0 == k)
            implies #[trigger] state_after(st, items).contains_key(k) by {
            if k != items.last().0 {
                if !st.contains_key(k) {
                    let j = choose|j: int| 0 <= j < items.len() && #[trigger] items[j].0 == k;
                    assert(j < items.len() - 1);
                    assert(init[j] == items[j]);
                }
                assert(state_after(st, init).contains_key(k));
            }
        }
        assert forall|k: Seq<char>| st.contains_key(k) && (forall|j: int| 0 <= j < items.len() ==> #[trigger] items[j].0 != k)
            implies #[trigger] state_after(st, items)[k] == st[k] by {
            assert(items[items.len() - 1].0 != k);
            assert forall|j: int| 0 <= j < init.len() implies #[trigger] init[j].0 != k by {
                assert(init[j] == items[j]);
            }
            assert(state_after(st, init)[k] == st[k]);
        }
    }
}

/// After a commit, each item's key maps to the content hash of the last item
/// of the commit with that key.
pub proof fn law_state_keeps_latest(st: Map<Seq<char>, Seq<char>>, items: Seq<(Seq<char>, Seq<char>)>, i: int)
    requires
        0 <= i < items.len(),
        forall|j: int| i < j < items.len() ==> #[trigger] items[j].0 != items[i].0,
    ensures
        state_after(st, items).contains_key(items[i].0),
        state_after(st, items)[items[i].0] == items[i].1,
    decreases items.len(),
{
    if i < items.len() - 1 {
        let init = items.drop_last();
        assert(init[i] == items[i]);
        assert forall|j: int| i < j < init.len() implies #[trigger] init[j].0 != init[i].0 by {
            assert(init[j] == items[j]);
        }
        law_state_keeps_latest(st, init, i);
        assert(items[items.len() - 1].0 != items[i].0);
    }
}

/// Processing the same items again leaves the state as it was.
pub proof fn law_replay_keeps_state(st: Map<Seq<char>, Seq<char>>, items: Seq<(Seq<char>, Seq<char>)>)
    ensures
        state_after(state_after(st, items), items) == state_after(st, items),
{
    lemma_state_after_is_overlay(st, items);
    lemma_state_after_is_overlay(state_after(st, items), items);
    assert(st.union_prefer_right(overlay(items)).union_prefer_right(overlay(items)) =~= st.union_prefer_right(overlay(items)));
}

proof fn lemma_actions_index(st: Map<Seq<char>, Seq<char>>, items: Seq<(Seq<char>, Seq<char>)>)
    ensures
        actions_of(st, items).len() == items.len(),
        forall|j: int| 0 <= j < items.len() ==> #[trigger] actions_of(st, items)[j]
            == spec_action(state_after(st, items.take(j)), items[j].0, items[j].1),
    decreases items.len(),
{
    if items.len() > 0 {
        let init = items.drop_last();
        lemma_actions_index(st, init);
        assert forall|j: int| 0 <= j < items.len() implies #[trigger] actions_of(st, items)[j]
            == spec_action(state_after(st, items.take(j)), items[j].0, items[j].1) by {
            if j < items.len() - 1 {
                assert(items.take(j) =~= init.take(j));
                assert(init[j] == items[j]);
            } else {
                assert(items.take(j) =~= init);
            }
        }
    }
}

/// The primary key hashes of the items are pairwise distinct.
pub open spec fn distinct_keys(items: Seq<(Seq<char>, Seq<char>)>) -> bool {
    forall|i: int, j: int| 0 <= i < j < items.len() ==> #[trigger] items[i].0 != #[trigger] items[j].0
}

/// Idempotence: once a commit has been processed, processing it again finds
/// every item unchanged (so writes nothing), provided no two items of the
/// commit share a primary key.
pub proof fn law_replay_finds_nothing_new(st: Map<Seq<char>, Seq<char>>, items: Seq<(Seq<char>, Seq<char>)>)
    requires
        distinct_keys(items),
    ensures
        forall|j: int| 0 <= j < items.len() ==> #[trigger] actions_of(state_after(st, items), items)[j] == ItemAction::Unchanged,
{
    let s1 = state_after(st, items);
    lemma_actions_index(s1, items);
    assert forall|j: int| 0 <= j < items.len() implies #[trigger] actions_of(s1, items)[j] == ItemAction::Unchanged by {
        assert forall|m: int| j < m < items.len() implies #[trigger] items[m].0 != items[j].0 by {
            assert(items[j].0 != items[m].0);
        }
        law_state_keeps_latest(st, items, j);
        let pre = items.take(j);
        assert forall|m: int| 0 <= m < pre.len() implies #[trigger] pre[m].0 != items[j].0 by {
            assert(pre[m] == items[m]);
            assert(items[m].0 != items[j].0);
        }
        law_state_keys(s1, pre);
    }
}


/// `d` holds the items `p` with their hashes.
pub open spec fn items_hashed(primary_keys: Seq<String>, p: Seq<Item>, d: Seq<ItemData>) -> bool {
    &&& d.len() == p.len()
    &&& forall|i: int| 0 <= i < d.len() ==> {
        &&& (#[trigger] d[i]).data.wf()
        &&& d[i].data@ == p[i]@
        &&& pk_hash_ok(primary_keys, p[i]@, d[i].primary_key_hash@)
        &&& d[i].content_hash@ == content_hash_of(p[i]@)
    }
}

/// `e` is the error of hashing the items `p`: the first item that lacks a
/// primary key column.
pub open spec fn hashing_err(primary_keys: Seq<String>, p: Seq<Item>, e: ErrorView) -> bool {
    exists|i: int| 0 <= i < p.len() && (forall|j: int| 0 <= j < i ==> pk_present(primary_keys, #[trigger] p[j]@))
        && pk_hash_err(primary_keys, (#[trigger] p[i])@, e)
}

/// `d` is the commit prepared: the file parsed and its items hashed.
pub open spec fn prepared<F: Fn(&str) -> Option<String>>(
    commit: CommitInfo,
    primary_keys: Seq<String>,
    file_format: FileFormat,
    transform: Option<Seq<char>>,
    float_number: F,
    d: CommitData,
) -> bool {
    &&& d.hash@ == commit.hash@
    &&& d.timestamp == commit.timestamp
    &&& exists|p: Seq<Item>| parse_ok(file_format, commit.blob_content@, transform, float_number, p)
        && #[trigger] items_hashed(primary_keys, p, d.items@)
}

/// `e` is the error of preparing the commit.
pub open spec fn prepare_failed<F: Fn(&str) -> Option<String>>(
    commit: CommitInfo,
    primary_keys: Seq<String>,
    file_format: FileFormat,
    transform: Option<Seq<char>>,
    float_number: F,
    e: ErrorView,
) -> bool {
    ||| exists|c: ErrorView| #[trigger] parse_err(file_format, commit.blob_content@, transform, float_number, c)
        && e == (ErrorView::InCommit { commit: commit.hash@, cause: Box::new(c) })
    ||| exists|p: Seq<Item>| parse_ok(file_format, commit.blob_content@, transform, float_number, p)
        && #[trigger] hashing_err(primary_keys, p, e)
}

/// Parse the tracked file's content in a commit and hash each item.  A
/// parse failure names the commit; a missing primary key column does not.
pub fn prepare_commit<F: Fn(&str) -> Option<String>>(
    commit: &CommitInfo,
    primary_keys: &[String],
    file_format: FileFormat,
    transform: Option<&str>,
    float_number: &F,
) -> (r: Result<CommitData, ScribeError>)
    requires
        forall|s: &str| #[trigger] float_number.requires((s,)),
        transform_ok(opt_str(transform)),
    ensures
        match r {
            Ok(d) => prepared(*commit, primary_keys@, file_format, opt_str(transform), *float_number, d),
            Err(e) => prepare_failed(*commit, primary_keys@, file_format, opt_str(transform), *float_number, e@),
        },
{
    let items = match parse_file_with_transform(commit.blob_content.as_slice(), file_format, transform, float_number) {
        Ok(items) => items,
        Err(cause) => {
            let ghost c = cause@;
            let e = ScribeError::InCommit { commit: commit.hash.clone(), cause: Box::new(cause) };
            assert(e@ == (ErrorView::InCommit { commit: commit.hash@, cause: Box::new(c) }));
            return Err(e);
        },
    };
    let ghost p = items@;
    assert(parse_ok(file_format, commit.blob_content@, opt_str(transform), *float_number, p));
    let mut data: Vec<ItemData> = Vec::new();
    let mut i: usize = 0;
    while i < items.len()
        invariant
            i <= items@.len(),
            p == items@,
            all_wf(p),
            parse_ok(file_format, commit.blob_content@, opt_str(transform), *float_number, p),
            items_hashed(primary_keys@, p.take(i as int), data@),
            forall|j: int| 0 <= j < i ==> pk_present(primary_keys@, #[trigger] p[j]@),
        decreases items@.len() - i,
    {
        let item = &items[i];
        assert(item.wf());
        let pk = match compute_primary_key_hash(primary_keys, item) {
            Ok(h) => h,
            Err(e) => {
                assert(hashing_err(primary_keys@, p, e@)) by {
                    assert(p[i as int] == *item);
                }
                assert(parse_ok(file_format, commit.blob_content@, opt_str(transform), *float_number, p)
                    && hashing_err(primary_keys@, p, e@));
                return Err(e);
            },
        };
        let ch = compute_content_hash(item);
        let ghost before = data@;
        data.push(ItemData { primary_key_hash: pk, content_hash: ch, data: item.duplicate() });
        assert(items_hashed(primary_keys@, p.take(i + 1), data@)) by {
            assert forall|j: int| 0 <= j < data@.len() implies {
                &&& (#[trigger] data@[j]).data.wf()
                &&& data@[j].data@ == p.take(i + 1)[j]@
                &&& pk_hash_ok(primary_keys@, p.take(i + 1)[j]@, data@[j].primary_key_hash@)
                &&& data@[j].content_hash@ == content_hash_of(p.take(i + 1)[j]@)
            } by {
                if j < i {
                    assert(data@[j] == before[j]);
                    assert(p.take(i + 1)[j] == p.take(i as int)[j]);
                }
            }
        }
        i = i + 1;
    }
    assert(p.take(items@.len() as int) =~= p);
    assert(parse_ok(file_format, commit.blob_content@, opt_str(transform), *float_number, p)
        && items_hashed(primary_keys@, p, data@));
    let d = CommitData { hash: commit.hash.clone(), timestamp: commit.timestamp, items: data };
    assert(d.hash@ == commit.hash@);
    assert(items_hashed(primary_keys@, p, d.items@));
    assert(prepared(*commit, primary_keys@, file_format, opt_str(transform), *float_number, d));
    Ok(d)
}

/// What processing did with one commit.
pub struct CommitReport {
    pub hash: String,
    /// The action taken for each item of the commit, in order.
    pub actions: Vec<ItemAction>,
    /// The statements of the commit's transaction, which was committed.
    pub statements: Ghost<Seq<Sent>>,
}

/// What processing a history did.
pub struct ProcessReport {
    pub commits: Vec<CommitReport>,
    /// Items known after processing.
    pub tracked_items: usize,
}

/// The state before commit `n`, starting from `s0`.
pub open spec fn state_before(s0: Map<Seq<char>, Seq<char>>, commits: Seq<CommitData>, n: int) -> Map<Seq<char>, Seq<char>>
    decreases n,
{
    if n <= 0 {
        s0
    } else {
        state_after(state_before(s0, commits, n - 1), hash_pairs(commits[n - 1].items@))
    }
}

/// The statements that record one item, given its action: a new item is
/// inserted and a version of it inserted; a changed item is updated and a
/// version of it inserted; an unchanged item sends nothing.
pub open spec fn item_writes(cols: Seq<Seq<char>>, hash: Seq<char>, d: ItemData, a: ItemAction) -> Seq<Sent> {
    match a {
        ItemAction::New => seq![
            insert_item_sent(cols, d.primary_key_hash@, hash, d.data@),
            insert_version_sent(cols, d.primary_key_hash@, hash, d.data@),
        ],
        ItemAction::Changed => seq![
            update_item_sent(cols, d.primary_key_hash@, hash, d.data@),
            insert_version_sent(cols, d.primary_key_hash@, hash, d.data@),
        ],
        ItemAction::Unchanged => Seq::empty(),
    }
}

/// The statements that record the items of a commit, in order.
pub open spec fn item_statements(cols: Seq<Seq<char>>, hash: Seq<char>, items: Seq<ItemData>, actions: Seq<ItemAction>) -> Seq<Sent>
    decreases items.len(),
{
    if items.len() == 0 {
        Seq::empty()
    } else {
        item_statements(cols, hash, items.drop_last(), actions)
            + item_writes(cols, hash, items.last(), actions[items.len() - 1])
    }
}

/// The statements of a commit's transaction: the commit, its items, and the
/// commit as the last processed one.
pub open spec fn commit_statements(cols: Seq<Seq<char>>, c: CommitData, actions: Seq<ItemAction>) -> Seq<Sent> {
    seq![commit_sent(c.hash@, c.timestamp as int)] + item_statements(cols, c.hash@, c.items@, actions)
        + seq![meta_sent(c.hash@)]
}

/// Full version history: within a commit, an item gets a new version
/// exactly when it is new or its content hash differs from the one known
/// just before it.
pub proof fn law_version_iff_changed(
    st: Map<Seq<char>, Seq<char>>,
    cols: Seq<Seq<char>>,
    hash: Seq<char>,
    items: Seq<ItemData>,
    j: int,
)
    requires
        0 <= j < items.len(),
    ensures
        ({
            let before = state_after(st, hash_pairs(items).take(j));
            let d = items[j];
            item_writes(cols, hash, d, actions_of(st, hash_pairs(items))[j])
                .contains(insert_version_sent(cols, d.primary_key_hash@, hash, d.data@))
                <==> !(before.contains_key(d.primary_key_hash@) && before[d.primary_key_hash@] == d.content_hash@)
        }),
{
    lemma_actions_index(st, hash_pairs(items));
    let d = items[j];
    let v = insert_version_sent(cols, d.primary_key_hash@, hash, d.data@);
    let w = item_writes(cols, hash, d, actions_of(st, hash_pairs(items))[j]);
    assert(hash_pairs(items)[j] == (d.primary_key_hash@, d.content_hash@));
    if w.len() == 2 {
        assert(w[1] == v);
    }
}

/// Unchanged items are left alone: within a commit, the statements sent for
/// an item are none at all exactly when its content hash equals the one
/// known just before it, and otherwise two (the row and a version of it).
pub proof fn law_unchanged_item_sends_nothing(
    st: Map<Seq<char>, Seq<char>>,
    cols: Seq<Seq<char>>,
    hash: Seq<char>,
    items: Seq<ItemData>,
    j: int,
)
    requires
        0 <= j < items.len(),
    ensures
        ({
            let before = state_after(st, hash_pairs(items).take(j));
            let d = items[j];
            let w = item_writes(cols, hash, d, actions_of(st, hash_pairs(items))[j]);
            &&& (w.len() == 0 <==> (before.contains_key(d.primary_key_hash@) && before[d.primary_key_hash@] == d.content_hash@))
            &&& (w.len() != 0 ==> w.len() == 2)
        }),
{
    lemma_actions_index(st, hash_pairs(items));
    let d = items[j];
    assert(hash_pairs(items)[j] == (d.primary_key_hash@, d.content_hash@));
}

/// A commit is recorded at its own time: the first statement of its
/// transaction binds the commit's hash and then its timestamp.
pub proof fn law_commit_recorded_at_its_time(cols: Seq<Seq<char>>, c: CommitData, actions: Seq<ItemAction>)
    ensures
        commit_statements(cols, c, actions)[0].params.len() == 2,
        commit_statements(cols, c, actions)[0].params[0] == ParamView::Text(c.hash@),
        commit_statements(cols, c, actions)[0].params[1] == ParamView::UnixTime(c.timestamp as int),
{
}

/// `cols` are the schema's data columns: the keys of the first commit's
/// items, sorted, each once.
pub open spec fn schema_columns(commits: Seq<CommitData>, cols: Seq<Seq<char>>) -> bool {
    &&& strictly_sorted(cols)
    &&& forall|k: Seq<char>| cols.contains(k) <==> (commits.len() > 0
        && exists|i: int| 0 <= i < commits[0].items@.len() && (#[trigger] commits[0].items@[i]).data@.contains_key(k))
}

/// The reports of the first `n` commits are those that the plan gives from
/// `s0`, each with the statements its transaction committed.
pub open spec fn reports_match(
    s0: Map<Seq<char>, Seq<char>>,
    cols: Seq<Seq<char>>,
    commits: Seq<CommitData>,
    reports: Seq<CommitReport>,
    n: int,
) -> bool {
    &&& reports.len() == n
    &&& forall|i: int| 0 <= i < n ==> {
        &&& (#[trigger] reports[i]).hash@ == commits[i].hash@
        &&& reports[i].actions@ == actions_of(state_before(s0, commits, i), hash_pairs(commits[i].items@))
        &&& reports[i].statements@ == commit_statements(cols, commits[i], reports[i].actions@)
    }
}

/// The number of actions of a kind.
pub open spec fn count_of(actions: Seq<ItemAction>, a: ItemAction) -> nat
    decreases actions.len(),
{
    if actions.len() == 0 {
        0
    } else {
        count_of(actions.drop_last(), a) + if actions.last() == a { 1nat } else { 0nat }
    }
}

impl CommitReport {
    /// How many items of the commit had the given action.
    pub fn count(&self, a: ItemAction) -> (n: usize)
        ensures
            n == count_of(self.actions@, a),
    {
        let mut n: usize = 0;
        let mut i: usize = 0;
        while i < self.actions.len()
            invariant
                i <= self.actions@.len(),
                n == count_of(self.actions@.take(i as int), a),
                n <= i,
            decreases self.actions@.len() - i,
        {
            assert(self.actions@.take(i + 1).drop_last() =~= self.actions@.take(i as int));
            if self.actions[i] == a {
                n = n + 1;
            }
            i = i + 1;
        }
        assert(self.actions@.take(self.actions@.len() as int) =~= self.actions@);
        n
    }
}

/// Writes the items of one commit as the actions say.
fn write_items(
    tx: &mut Tx<'_>,
    commit: &CommitData,
    columns: &[String],
    actions: &Vec<ItemAction>,
) -> (r: Result<(), ScribeError>)
    requires
        actions@.len() == commit.items@.len(),
        forall|i: int| 0 <= i < commit.items@.len() ==> (#[trigger] commit.items@[i]).data.wf(),
        columns@.len() + 3 <= usize::MAX,
    ensures
        match r {
            Ok(()) => final(tx).sent() == old(tx).sent()
                + item_statements(views(columns@), commit.hash@, commit.items@, actions@),
            Err(e) => e@ is Database,
        },
{
    let ghost cols = views(columns@);
    let ghost start = tx.sent();
    let mut i: usize = 0;
    while i < commit.items.len()
        invariant
            i <= commit.items@.len(),
            actions@.len() == commit.items@.len(),
            forall|i: int| 0 <= i < commit.items@.len() ==> (#[trigger] commit.items@[i]).data.wf(),
            columns@.len() + 3 <= usize::MAX,
            cols == views(columns@),
            tx.sent() == start + item_statements(cols, commit.hash@, commit.items@.take(i as int), actions@),
        decreases commit.items@.len() - i,
    {
        let item = &commit.items[i];
        let ghost before = tx.sent();
        match actions[i] {
            ItemAction::New => {
                Database::insert_item(tx, item.primary_key_hash.as_str(), commit.hash.as_str(), columns, &item.data)?;
                Database::insert_item_version(tx, item.primary_key_hash.as_str(), commit.hash.as_str(), columns, &item.data)?;
            },
            ItemAction::Changed => {
                Database::update_item(tx, item.primary_key_hash.as_str(), commit.hash.as_str(), columns, &item.data)?;
                Database::insert_item_version(tx, item.primary_key_hash.as_str(), commit.hash.as_str(), columns, &item.data)?;
            },
            ItemAction::Unchanged => {},
        }
        proof {
            let t = commit.items@.take(i + 1);
            assert(t.drop_last() =~= commit.items@.take(i as int));
            assert(t.last() == commit.items@[i as int]);
            assert(tx.sent() =~= before + item_writes(cols, commit.hash@, commit.items@[i as int], actions@[i as int]));
        }
        i = i + 1;
    }
    assert(commit.items@.take(commit.items@.len() as int) =~= commit.items@);
    Ok(())
}

/// Every item of every commit is well-formed.
pub open spec fn commits_wf(commits: Seq<CommitData>) -> bool {
    forall|c: int, i: int| 0 <= c < commits.len() && 0 <= i < commits[c].items@.len()
        ==> (#[trigger] commits[c].items@[i]).data.wf()
}

/// The statements of the transactions of the first `k` commits, in order,
/// each commit judged against the state left by those before it.
pub open spec fn run_statements(
    s0: Map<Seq<char>, Seq<char>>,
    cols: Seq<Seq<char>>,
    commits: Seq<CommitData>,
    k: int,
) -> Seq<Sent>
    decreases k,
{
    if k <= 0 {
        Seq::empty()
    } else {
        run_statements(s0, cols, commits, k - 1) + commit_statements(
            cols,
            commits[k - 1],
            actions_of(state_before(s0, commits, k - 1), hash_pairs(commits[k - 1].items@)),
        )
    }
}

proof fn lemma_state_before_split(s0: Map<Seq<char>, Seq<char>>, c1: Seq<CommitData>, c2: Seq<CommitData>, i: int)
    requires
        0 <= i <= c2.len(),
    ensures
        state_before(s0, c1 + c2, c1.len() + i) == state_before(state_before(s0, c1, c1.len() as int), c2, i),
    decreases i,
{
    if i == 0 {
        lemma_state_before_prefix(s0, c1, c2, c1.len() as int);
    } else {
        lemma_state_before_split(s0, c1, c2, i - 1);
        assert((c1 + c2)[c1.len() + i - 1] == c2[i - 1]);
    }
}

proof fn lemma_state_before_prefix(s0: Map<Seq<char>, Seq<char>>, c1: Seq<CommitData>, c2: Seq<CommitData>, n: int)
    requires
        0 <= n <= c1.len(),
    ensures
        state_before(s0, c1 + c2, n) == state_before(s0, c1, n),
    decreases n,
{
    if n > 0 {
        lemma_state_before_prefix(s0, c1, c2, n - 1);
        assert((c1 + c2)[n - 1] == c1[n - 1]);
    }
}

proof fn lemma_run_prefix(s0: Map<Seq<char>, Seq<char>>, cols: Seq<Seq<char>>, c1: Seq<CommitData>, c2: Seq<CommitData>, n: int)
    requires
        0 <= n <= c1.len(),
    ensures
        run_statements(s0, cols, c1 + c2, n) == run_statements(s0, cols, c1, n),
    decreases n,
{
    if n > 0 {
        lemma_run_prefix(s0, cols, c1, c2, n - 1);
        lemma_state_before_prefix(s0, c1, c2, n - 1);
        assert((c1 + c2)[n - 1] == c1[n - 1]);
    }
}

/// Splitting a history into two runs changes nothing: from the same state
/// and with the same columns, recording `c1` and then, from the state that
/// leaves, `c2` judges every commit as recording `c1 + c2` at once does, and
/// sends the same statements.  (The second run starts from the state the
/// database gives back, which the database, not the library, decides.)
pub proof fn law_split_runs(s0: Map<Seq<char>, Seq<char>>, cols: Seq<Seq<char>>, c1: Seq<CommitData>, c2: Seq<CommitData>, i: int)
    requires
        0 <= i <= c2.len(),
    ensures
        state_before(s0, c1 + c2, c1.len() + i) == state_before(state_before(s0, c1, c1.len() as int), c2, i),
        run_statements(s0, cols, c1 + c2, c1.len() + i)
            == run_statements(s0, cols, c1, c1.len() as int)
                + run_statements(state_before(s0, c1, c1.len() as int), cols, c2, i),
    decreases i,
{
    lemma_state_before_split(s0, c1, c2, i);
    if i == 0 {
        lemma_run_prefix(s0, cols, c1, c2, c1.len() as int);
        assert(run_statements(state_before(s0, c1, c1.len() as int), cols, c2, 0) =~= Seq::<Sent>::empty());
        assert(run_statements(s0, cols, c1, c1.len() as int) + Seq::<Sent>::empty() =~= run_statements(s0, cols, c1, c1.len() as int));
    } else {
        law_split_runs(s0, cols, c1, c2, i - 1);
        lemma_state_before_split(s0, c1, c2, i - 1);
        assert((c1 + c2)[c1.len() + i - 1] == c2[i - 1]);
        let a = run_statements(s0, cols, c1, c1.len() as int);
        let b = run_statements(state_before(s0, c1, c1.len() as int), cols, c2, i - 1);
        let t = commit_statements(cols, c2[i - 1], actions_of(state_before(state_before(s0, c1, c1.len() as int), c2, i - 1), hash_pairs(c2[i - 1].items@)));
        assert(a + b + t =~= a + (b + t));
    }
}

/// The report is what the plan gives for the commits from the state stored
/// in the database, and what took effect is the schema for the columns of
/// the first commit followed by every commit's transaction.
pub open spec fn applied(commits: Seq<CommitData>, report: ProcessReport, before: Seq<Sent>, after: Seq<Sent>) -> bool {
    exists|s0: Map<Seq<char>, Seq<char>>, cols: Seq<Seq<char>>| {
        &&& stored_state(s0)
        &&& schema_columns(commits, cols)
        &&& after == before + schema_sent(cols) + run_statements(s0, cols, commits, commits.len() as int)
        &&& #[trigger] reports_match(s0, cols, commits, report.commits@, commits.len() as int)
        &&& report.tracked_items == state_before(s0, commits, commits.len() as int).dom().len()
    }
}

/// What took effect when recording failed: part of the schema; or the
/// schema and the transactions of the commits before the one that failed,
/// judged from the stored state.
pub open spec fn apply_failed(commits: Seq<CommitData>, before: Seq<Sent>, after: Seq<Sent>) -> bool {
    exists|cols: Seq<Seq<char>>| #[trigger] schema_columns(commits, cols) && {
        ||| sent_schema_prefix(before, after, cols)
        ||| after == before + schema_sent(cols)
        ||| exists|s0: Map<Seq<char>, Seq<char>>, k: int| #![trigger run_statements(s0, cols, commits, k)]
            stored_state(s0) && 0 <= k < commits.len()
                && after == before + schema_sent(cols) + run_statements(s0, cols, commits, k)
    }
}

/// Record prepared commits, oldest first: the schema takes the columns of
/// the first commit's items; each commit, in its own transaction, is
/// recorded with its new items, updated changed items and a version of each
/// new or changed item, and becomes the last processed commit.  A failure
/// leaves the commits before it recorded and nothing of the failing one.
pub fn apply_commits(db: &mut Database, commit_data: &Vec<CommitData>) -> (r: Result<ProcessReport, ScribeError>)
    requires
        commits_wf(commit_data@),
    ensures
        match r {
            Ok(report) => applied(commit_data@, report, old(db).sent(), final(db).sent()),
            Err(e) => e@ is Database && apply_failed(commit_data@, old(db).sent(), final(db).sent()),
        },
{
    let ghost sent0 = db.sent();
    let mut samples: Vec<Item> = Vec::new();
    if commit_data.len() > 0 {
        let first = &commit_data[0];
        let mut i: usize = 0;
        while i < first.items.len()
            invariant
                i <= first.items@.len(),
                commit_data@.len() > 0,
                *first == commit_data@[0],
                commits_wf(commit_data@),
                all_wf(samples@),
                samples@.len() == i,
                forall|j: int| 0 <= j < i ==> (#[trigger] samples@[j])@ == first.items@[j].data@,
            decreases first.items@.len() - i,
        {
            assert(first.items@[i as int].data.wf());
            samples.push(first.items[i].data.duplicate());
            i = i + 1;
        }
    }
    let all_columns = extract_columns(samples.as_slice());
    let ghost cols = views(all_columns@);
    assert(schema_columns(commit_data@, cols)) by {
        assert forall|k: Seq<char>| cols.contains(k) <==> (commit_data@.len() > 0
            && exists|i: int| 0 <= i < commit_data@[0].items@.len() && (#[trigger] commit_data@[0].items@[i]).data@.contains_key(k)) by {
            if cols.contains(k) {
                let i = choose|i: int| 0 <= i < samples@.len() && (#[trigger] samples@[i])@.contains_key(k);
                assert(commit_data@[0].items@[i].data@.contains_key(k));
            }
            if commit_data@.len() > 0 && exists|i: int| 0 <= i < commit_data@[0].items@.len() && (#[trigger] commit_data@[0].items@[i]).data@.contains_key(k) {
                let i = choose|i: int| 0 <= i < commit_data@[0].items@.len() && (#[trigger] commit_data@[0].items@[i]).data@.contains_key(k);
                assert(samples@[i]@.contains_key(k));
            }
        }
    }
    match db.init_schema(all_columns.as_slice()) {
        Ok(()) => {},
        Err(e) => {
            assert(sent_schema_prefix(sent0, db.sent(), cols));
            return Err(e);
        },
    }
    let ghost sent1 = db.sent();
    assert(sent1 == sent0 + schema_sent(cols));
    if all_columns.len() > usize::MAX - 3 {
        return Err(ScribeError::Database { message: "too many columns".to_string() });
    }
    let mut state = match db.load_current_state() {
        Ok(st) => st,
        Err(e) => return Err(e),
    };
    let ghost s0 = state_view(state@);
    assert(stored_state(s0));
    let mut reports: Vec<CommitReport> = Vec::new();
    let mut c: usize = 0;
    assert(run_statements(s0, cols, commit_data@, 0) =~= Seq::<Sent>::empty());
    assert(sent1 + run_statements(s0, cols, commit_data@, 0) =~= sent1);
    while c < commit_data.len()
        invariant
            c <= commit_data@.len(),
            commits_wf(commit_data@),
            all_columns@.len() + 3 <= usize::MAX,
            cols == views(all_columns@),
            schema_columns(commit_data@, cols),
            stored_state(s0),
            sent0 == old(db).sent(),
            sent1 == sent0 + schema_sent(cols),
            db.sent() == sent1 + run_statements(s0, cols, commit_data@, c as int),
            reports_match(s0, cols, commit_data@, reports@, c as int),
            state_view(state@) == state_before(s0, commit_data@, c as int),
        decreases commit_data@.len() - c,
    {
        let ghost here = db.sent();
        assert(apply_failed(commit_data@, sent0, here)) by {
            assert(run_statements(s0, cols, commit_data@, c as int) == run_statements(s0, cols, commit_data@, c as int));
        }
        let commit = &commit_data[c];
        let ghost mut statements: Seq<Sent> = Seq::empty();
        let ghost sb = state_view(state@);
        let actions: Vec<ItemAction>;
        let committed = {
            let mut tx = match db.begin_transaction() {
                Ok(tx) => tx,
                Err(e) => return Err(e),
            };
            match Database::insert_commit(&mut tx, commit.hash.as_str(), commit.timestamp) {
                Ok(()) => {},
                Err(e) => return Err(e),
            }
            actions = plan_commit(&mut state, &commit.items);
            proof {
                assert forall|i: int| 0 <= i < commit.items@.len() implies (#[trigger] commit.items@[i]).data.wf() by {
                    assert(commit_data@[c as int].items@[i] == commit.items@[i]);
                }
                lemma_actions_index(sb, hash_pairs(commit.items@));
            }
            match write_items(&mut tx, commit, all_columns.as_slice(), &actions) {
                Ok(()) => {},
                Err(e) => return Err(e),
            }
            match tx.set_last_processed_commit(commit.hash.as_str()) {
                Ok(()) => {},
                Err(e) => return Err(e),
            }
            proof {
                statements = tx.sent();
            }
            assert(statements =~= commit_statements(cols, *commit, actions@));
            match tx.commit() {
                Ok(k) => k,
                Err(e) => return Err(e),
            }
        };
        db.record_committed(committed);
        assert(db.sent() =~= sent1 + run_statements(s0, cols, commit_data@, c + 1));
        let ghost before = reports@;
        reports.push(CommitReport { hash: commit.hash.clone(), actions, statements: Ghost(statements) });
        assert(reports_match(s0, cols, commit_data@, reports@, c + 1)) by {
            assert forall|i: int| 0 <= i < c + 1 implies {
                &&& (#[trigger] reports@[i]).hash@ == commit_data@[i].hash@
                &&& reports@[i].actions@ == actions_of(state_before(s0, commit_data@, i), hash_pairs(commit_data@[i].items@))
                &&& reports@[i].statements@ == commit_statements(cols, commit_data@[i], reports@[i].actions@)
            } by {
                if i < c {
                    assert(reports@[i] == before[i]);
                }
            }
        }
        c = c + 1;
    }
    assert(reports_match(s0, cols, commit_data@, reports@, commit_data@.len() as int));
    let report = ProcessReport { commits: reports, tracked_items: state.len() };
    assert(state_before(s0, commit_data@, commit_data@.len() as int).dom() =~= state@.dom());
    assert(reports_match(s0, cols, commit_data@, report.commits@, commit_data@.len() as int));
    Ok(report)
}

/// Each of `ds` is the corresponding commit prepared.
pub open spec fn all_prepared<F: Fn(&str) -> Option<String>>(
    commits: Seq<CommitInfo>,
    primary_keys: Seq<String>,
    file_format: FileFormat,
    transform: Option<Seq<char>>,
    float_number: F,
    ds: Seq<CommitData>,
) -> bool {
    &&& ds.len() == commits.len()
    &&& forall|i: int| 0 <= i < ds.len()
        ==> #[trigger] prepared(commits[i], primary_keys, file_format, transform, float_number, ds[i])
}

/// `e` is the error of the first commit, oldest first, that could not be prepared.
pub open spec fn first_prepare_failure<F: Fn(&str) -> Option<String>>(
    commits: Seq<CommitInfo>,
    primary_keys: Seq<String>,
    file_format: FileFormat,
    transform: Option<Seq<char>>,
    float_number: F,
    e: ErrorView,
) -> bool {
    exists|ds: Seq<CommitData>| {
        &&& #[trigger] all_prepared(commits.take(ds.len() as int), primary_keys, file_format, transform, float_number, ds)
        &&& ds.len() < commits.len()
        &&& prepare_failed(commits[ds.len() as int], primary_keys, file_format, transform, float_number, e)
    }
}

/// Prepare every commit, oldest first; the first failure ends the work.
pub fn prepare_commits<F: Fn(&str) -> Option<String>>(
    commits: &Vec<CommitInfo>,
    primary_keys: &[String],
    file_format: FileFormat,
    transform: Option<&str>,
    float_number: &F,
) -> (r: Result<Vec<CommitData>, ScribeError>)
    requires
        forall|s: &str| #[trigger] float_number.requires((s,)),
        transform_ok(opt_str(transform)),
    ensures
        match r {
            Ok(ds) => all_prepared(commits@, primary_keys@, file_format, opt_str(transform), *float_number, ds@),
            Err(e) => first_prepare_failure(commits@, primary_keys@, file_format, opt_str(transform), *float_number, e@),
        },
{
    let ghost t = opt_str(transform);
    let mut ds: Vec<CommitData> = Vec::new();
    let mut i: usize = 0;
    while i < commits.len()
        invariant
            i <= commits@.len(),
            ds@.len() == i,
            t == opt_str(transform),
            transform_ok(t),
            forall|s: &str| #[trigger] float_number.requires((s,)),
            all_prepared(commits@.take(i as int), primary_keys@, file_format, t, *float_number, ds@),
        decreases commits@.len() - i,
    {
        let d = match prepare_commit(&commits[i], primary_keys, file_format, transform, float_number) {
            Ok(d) => d,
            Err(e) => {
                assert(commits@.take(ds@.len() as int) == commits@.take(i as int));
                assert(all_prepared(commits@.take(ds@.len() as int), primary_keys@, file_format, t, *float_number, ds@));
                return Err(e);
            },
        };
        let ghost before = ds@;
        ds.push(d);
        assert(all_prepared(commits@.take(i + 1), primary_keys@, file_format, t, *float_number, ds@)) by {
            assert forall|j: int| 0 <= j < ds@.len() implies #[trigger] prepared(
                commits@.take(i + 1)[j], primary_keys@, file_format, t, *float_number, ds@[j]) by {
                if j < i {
                    assert(commits@.take(i + 1)[j] == commits@.take(i as int)[j]);
                    assert(ds@[j] == before[j]);
                }
            }
        }
        i = i + 1;
    }
    assert(commits@.take(commits@.len() as int) =~= commits@);
    Ok(ds)
}

/// Bring the database up to date with a history: parse and hash the tracked
/// file of every commit, then record them oldest first (see `apply_commits`).
/// With no commits, nothing is done and `None` comes back.
pub fn process_history<F: Fn(&str) -> Option<String>>(
    db: &mut Database,
    commits: Vec<CommitInfo>,
    primary_keys: &[String],
    file_format: FileFormat,
    transform: Option<&str>,
    float_number: &F,
) -> (r: Result<Option<ProcessReport>, ScribeError>)
    requires
        forall|s: &str| #[trigger] float_number.requires((s,)),
        transform_ok(opt_str(transform)),
    ensures
        match r {
            Ok(None) => commits@.len() == 0 && final(db).sent() == old(db).sent(),
            Ok(Some(report)) => commits@.len() > 0 && exists|ds: Seq<CommitData>|
                #[trigger] all_prepared(commits@, primary_keys@, file_format, opt_str(transform), *float_number, ds)
                && applied(ds, report, old(db).sent(), final(db).sent()),
            Err(e) => commits@.len() > 0 && {
                ||| first_prepare_failure(commits@, primary_keys@, file_format, opt_str(transform), *float_number, e@)
                    && final(db).sent() == old(db).sent()
                ||| e@ is Database && exists|ds: Seq<CommitData>|
                    #[trigger] all_prepared(commits@, primary_keys@, file_format, opt_str(transform), *float_number, ds)
                    && apply_failed(ds, old(db).sent(), final(db).sent())
            },
        },
{
    if commits.len() == 0 {
        return Ok(None);
    }
    let ds = match prepare_commits(&commits, primary_keys, file_format, transform, float_number) {
        Ok(ds) => ds,
        Err(e) => return Err(e),
    };
    proof {
        assert forall|c: int, i: int| 0 <= c < ds@.len() && 0 <= i < ds@[c].items@.len()
            implies (#[trigger] ds@[c].items@[i]).data.wf() by {
            assert(prepared(commits@[c], primary_keys@, file_format, opt_str(transform), *float_number, ds@[c]));
            let p = choose|p: Seq<Item>| parse_ok(file_format, commits@[c].blob_content@, opt_str(transform), *float_number, p)
                && #[trigger] items_hashed(primary_keys@, p, ds@[c].items@);
            assert(items_hashed(primary_keys@, p, ds@[c].items@));
            assert(ds@[c].items@[i].data.wf());
        }
    }
    match apply_commits(db, &ds) {
        Ok(report) => Ok(Some(report)),
        Err(e) => {
            assert(all_prepared(commits@, primary_keys@, file_format, opt_str(transform), *float_number, ds@));
            Err(e)
        },
    }
}

} // verus!
