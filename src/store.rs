use vstd::prelude::*;
use crate::codec::{enc_bytes, serialize_value};
use crate::crdt::{CrdtEngine, RowView};
use crate::error::GitDBError;
use crate::model::{tree_tables_unique, Change, ChangeView, Commit, CommitId, TreeEntry};

verus! {

// ---------------------------------------------------------------------------
// The keyspace: `HEAD`, commit ids, and rows under "{table}:{id}".
// ---------------------------------------------------------------------------

/// The byte `:` that separates a row's table from its id.
pub const SEPARATOR: u8 = 58;

/// The key prefix of the live rows of `table`.
pub open spec fn row_prefix_spec(table: Seq<char>) -> Seq<u8> {
    vstd::utf8::encode_utf8(table).push(SEPARATOR)
}

/// The key of the live row `id` of `table`.
pub open spec fn row_key_spec(table: Seq<char>, id: Seq<char>) -> Seq<u8> {
    row_prefix_spec(table) + vstd::utf8::encode_utf8(id)
}

fn push_all(out: &mut Vec<u8>, b: &[u8])
    ensures
        final(out)@ == old(out)@ + b@,
{
    let mut i: usize = 0;
    while i < b.len()
        invariant
            0 <= i <= b@.len(),
            out@ == old(out)@ + b@.subrange(0, i as int),
        decreases b@.len() - i,
    {
        out.push(b[i]);
        i = i + 1;
        assert(out@ =~= old(out)@ + b@.subrange(0, i as int));
    }
    assert(b@.subrange(0, b@.len() as int) =~= b@);
}

/// The key prefix under which the live rows of `table` are stored.
pub fn row_prefix(table: &String) -> (r: Vec<u8>)
    ensures
        r@ == row_prefix_spec(table@),
{
    let mut out: Vec<u8> = Vec::new();
    push_all(&mut out, table.as_str().as_bytes());
    out.push(SEPARATOR);
    assert(out@ =~= row_prefix_spec(table@));
    out
}

/// The key under which the live row `id` of `table` is stored.
pub fn row_key(table: &String, id: &String) -> (r: Vec<u8>)
    ensures
        r@ == row_key_spec(table@, id@),
{
    let mut out = row_prefix(table);
    push_all(&mut out, id.as_str().as_bytes());
    out
}

/// Whether `key` starts with `prefix`: a prefix scan stops at the first key
/// that does not.
pub fn key_has_prefix(key: &[u8], prefix: &[u8]) -> (r: bool)
    ensures
        r == (prefix@.len() <= key@.len() && key@.subrange(0, prefix@.len() as int) == prefix@),
{
    if prefix.len() > key.len() {
        return false;
    }
    let mut i: usize = 0;
    while i < prefix.len()
        invariant
            0 <= i <= prefix@.len() <= key@.len(),
            forall|j: int| 0 <= j < i ==> key@[j] == prefix@[j],
        decreases prefix@.len() - i,
    {
        if key[i] != prefix[i] {
            assert(key@.subrange(0, prefix@.len() as int)[i as int] != prefix@[i as int]);
            return false;
        }
        i = i + 1;
    }
    assert(key@.subrange(0, prefix@.len() as int) =~= prefix@);
    true
}

/// Reads the value stored under `HEAD`: absent means an empty repository, and
/// anything but 32 bytes is invalid.
pub fn parse_head(raw: Option<Vec<u8>>) -> (r: Result<Option<CommitId>, GitDBError>)
    ensures
        raw is None ==> r == Ok::<Option<CommitId>, GitDBError>(None),
        raw matches Some(v) ==> (v@.len() == 32 <==> r is Ok),
        raw matches Some(v) ==> (r matches Ok(h) ==> h matches Some(id) && id@ == v@),
        raw matches Some(v) ==> (r matches Err(e) ==> e == GitDBError::InvalidInput),
{
    match raw {
        None => Ok(None),
        Some(v) => {
            if v.len() != 32 {
                return Err(GitDBError::InvalidInput);
            }
            let mut a: [u8; 32] = [0u8; 32];
            let mut i: usize = 0;
            while i < 32
                invariant
                    0 <= i <= 32,
                    v@.len() == 32,
                    forall|j: int| 0 <= j < i ==> a@[j] == v@[j],
                decreases 32 - i,
            {
                a[i] = v[i];
                i = i + 1;
            }
            assert(a@ =~= v@);
            Ok(Some(a))
        },
    }
}

// ---------------------------------------------------------------------------
// The commit writer.
// ---------------------------------------------------------------------------

/// The distinct tables that a change list touches, in order of first mention.
pub open spec fn touched_tables_spec(cs: Seq<ChangeView>) -> Seq<Seq<char>>
    decreases cs.len(),
{
    if cs.len() == 0 {
        Seq::empty()
    } else {
        let p = touched_tables_spec(cs.drop_last());
        if p.contains(cs.last().table()) {
            p
        } else {
            p.push(cs.last().table())
        }
    }
}

proof fn lemma_touched_tables_distinct(cs: Seq<ChangeView>)
    ensures
        touched_tables_spec(cs).no_duplicates(),
    decreases cs.len(),
{
    if cs.len() > 0 {
        lemma_touched_tables_distinct(cs.drop_last());
        let p = touched_tables_spec(cs.drop_last());
        if !p.contains(cs.last().table()) {
            let q = p.push(cs.last().table());
            assert forall|i: int, j: int| 0 <= i < q.len() && 0 <= j < q.len() && i != j implies q[i]
                != q[j] by {
                if j == p.len() && i < p.len() {
                    assert(p[i] == q[i]);
                } else if i == p.len() && j < p.len() {
                    assert(p[j] == q[j]);
                }
            }
        }
    }
}

/// The distinct tables that a change list touches, in order of first mention:
/// the tables whose digests a new commit's tree records.
pub fn touched_tables(changes: &Vec<Change>) -> (r: Vec<String>)
    ensures
        r@.map_values(|s: String| s@) == touched_tables_spec(changes@.map_values(|c: Change| c@)),
{
    let ghost cv = changes@.map_values(|c: Change| c@);
    let mut out: Vec<String> = Vec::new();
    let mut i: usize = 0;
    while i < changes.len()
        invariant
            0 <= i <= changes@.len(),
            cv == changes@.map_values(|c: Change| c@),
            out@.map_values(|s: String| s@) == touched_tables_spec(cv.subrange(0, i as int)),
        decreases changes@.len() - i,
    {
        let t = changes[i].table();
        let ghost ov = out@.map_values(|s: String| s@);
        assert(cv.subrange(0, i + 1).drop_last() =~= cv.subrange(0, i as int));
        let mut j: usize = 0;
        let mut seen = false;
        while j < out.len()
            invariant
                0 <= j <= out@.len(),
                ov == out@.map_values(|s: String| s@),
                seen == (exists|k: int| 0 <= k < j && ov[k] == t@),
            decreases out@.len() - j,
        {
            assert(ov[j as int] == out@[j as int]@);
            if out[j] == *t {
                seen = true;
            }
            j = j + 1;
        }
        if !seen {
            out.push(t.clone());
            assert(out@.map_values(|s: String| s@) =~= ov.push(t@));
        } else {
            assert(ov.contains(t@));
        }
        i = i + 1;
    }
    assert(cv.subrange(0, i as int) =~= cv);
    out
}

/// A new commit on `parent` (none for the first commit) whose tree pairs each
/// touched table, in order, with the digest given for it.
pub fn make_commit(
    parent: Option<CommitId>,
    message: &String,
    timestamp: u64,
    changes: Vec<Change>,
    digests: Vec<[u8; 32]>,
) -> (r: Commit)
    requires
        digests@.len() == touched_tables_spec(changes@.map_values(|c: Change| c@)).len(),
    ensures
        parent is None ==> r@.parents.len() == 0,
        parent matches Some(p) ==> r@.parents == seq![p@],
        r@.message == message@,
        r@.timestamp == timestamp,
        r@.changes == changes@.map_values(|c: Change| c@),
        r@.tree.len() == digests@.len(),
        tree_tables_unique(r@.tree),
        forall|i: int|
            0 <= i < digests@.len() ==> #[trigger] r@.tree[i] == (touched_tables_spec(
                changes@.map_values(|c: Change| c@),
            )[i], digests@[i]@),
{
    let tables = touched_tables(&changes);
    let mut tree: Vec<TreeEntry> = Vec::new();
    let mut i: usize = 0;
    while i < digests.len()
        invariant
            0 <= i <= digests@.len(),
            tables@.len() == digests@.len(),
            tables@.map_values(|s: String| s@) == touched_tables_spec(
                changes@.map_values(|c: Change| c@),
            ),
            tree@.len() == i,
            forall|k: int|
                0 <= k < i ==> #[trigger] tree@[k]@ == (tables@[k]@, digests@[k]@),
        decreases digests@.len() - i,
    {
        tree.push(TreeEntry { table: tables[i].clone(), digest: digests[i] });
        i = i + 1;
    }
    let mut parents: Vec<CommitId> = Vec::new();
    match parent {
        Some(p) => parents.push(p),
        None => {},
    }
    let r = Commit { parents, message: message.clone(), timestamp, changes, tree };
    assert(parent matches Some(p) ==> r@.parents =~= seq![p@]);
    proof {
        let tt = touched_tables_spec(changes@.map_values(|c: Change| c@));
        lemma_touched_tables_distinct(changes@.map_values(|c: Change| c@));
        assert forall|i: int, j: int| 0 <= i < j < r@.tree.len() implies r@.tree[i].0
            != r@.tree[j].0 by {
            assert(r@.tree[i] == r.tree@[i]@);
            assert(r@.tree[j] == r.tree@[j]@);
            assert(tables@.map_values(|s: String| s@)[i] == tt[i]);
            assert(tables@.map_values(|s: String| s@)[j] == tt[j]);
        }
    }
    r
}

/// The next commit of a first-parent walk: the first parent, or none at a root.
pub fn first_parent(c: &Commit) -> (r: Option<CommitId>)
    ensures
        r is None <==> c@.parents.len() == 0,
        r matches Some(p) ==> p@ == c@.parents[0],
{
    if c.parents.len() == 0 {
        None
    } else {
        Some(c.parents[0])
    }
}

// ---------------------------------------------------------------------------
// The revert engine.
// ---------------------------------------------------------------------------

/// The change list that a revert records: each insert becomes a delete of the
/// same row, other changes pass through.
pub open spec fn revert_change_spec(c: ChangeView) -> ChangeView {
    match c {
        ChangeView::Insert { table, id, .. } => ChangeView::Delete { table, id },
        _ => c,
    }
}

/// The change list that a revert to a commit records, from that commit's
/// changes.
pub fn revert_changes(changes: &Vec<Change>) -> (r: Vec<Change>)
    ensures
        r@.len() == changes@.len(),
        forall|i: int|
            0 <= i < changes@.len() ==> #[trigger] r@[i]@ == revert_change_spec(changes@[i]@),
{
    let mut out: Vec<Change> = Vec::new();
    let mut i: usize = 0;
    while i < changes.len()
        invariant
            0 <= i <= changes@.len(),
            out@.len() == i,
            forall|k: int| 0 <= k < i ==> #[trigger] out@[k]@ == revert_change_spec(changes@[k]@),
        decreases changes@.len() - i,
    {
        let c = match &changes[i] {
            Change::Insert { table, id, .. } => Change::Delete { table: table.clone(), id: id.clone() },
            other => other.duplicate(),
        };
        out.push(c);
        i = i + 1;
    }
    out
}

/// The two hexadecimal digits of each byte, lower case, high nibble first.
pub open spec fn hex_of(b: Seq<u8>) -> Seq<char>
    decreases b.len(),
{
    if b.len() == 0 {
        Seq::empty()
    } else {
        let digits = seq![
            '0', '1', '2', '3', '4', '5', '6', '7', '8', '9', 'a', 'b', 'c', 'd', 'e', 'f'
        ];
        hex_of(b.drop_last()) + seq![digits[(b.last() / 16) as int], digits[(b.last() % 16) as int]]
    }
}

/// Relies on `hex::encode`: two lower-case hexadecimal digits per byte.
#[verifier::external_body]
fn hex_encode(b: &[u8]) -> (r: String)
    ensures
        r@ == hex_of(b@),
{
    hex::encode(b)
}

/// Relies on `String::push_str`: appends the characters of `t`.
#[verifier::external_body]
fn push_str(s: &mut String, t: &str)
    ensures
        final(s)@ == old(s)@ + t@,
{
    s.push_str(t)
}

/// The message of the commit that records a revert to `target`.
pub fn revert_message(target: &CommitId) -> (r: String)
    ensures
        r@ == "Revert to "@ + hex_of(target@),
{
    let mut m = "Revert to ".to_owned();
    let h = hex_encode(target.as_slice());
    push_str(&mut m, h.as_str());
    m
}

/// One write of an atomic batch.
#[derive(Debug, Clone, PartialEq, Eq)]
pub enum BatchOp {
    Put { key: Vec<u8>, value: Vec<u8> },
    Delete { key: Vec<u8> },
}

pub enum BatchOpView {
    Put { key: Seq<u8>, value: Seq<u8> },
    Delete { key: Seq<u8> },
}

impl View for BatchOp {
    type V = BatchOpView;

    open spec fn view(&self) -> BatchOpView {
        match self {
            BatchOp::Put { key, value } => BatchOpView::Put { key: key@, value: value@ },
            BatchOp::Delete { key } => BatchOpView::Delete { key: key@ },
        }
    }
}

/// The batch that a revert writes: a delete of each key found under the
/// reverted tables' prefixes, then a put of each materialized row.
pub open spec fn revert_batch_spec(stale: Seq<Seq<u8>>, rows: Seq<RowView>) -> Seq<BatchOpView> {
    deletes_of(stale) + puts_of(rows)
}

/// A delete of each key, in order.
pub open spec fn deletes_of(keys: Seq<Seq<u8>>) -> Seq<BatchOpView> {
    keys.map_values(|k: Seq<u8>| BatchOpView::Delete { key: k })
}

/// A put of each row under its row key, with its serialized value, in order.
pub open spec fn puts_of(rows: Seq<RowView>) -> Seq<BatchOpView> {
    rows.map_values(
        |r: RowView| BatchOpView::Put { key: row_key_spec(r.0, r.1), value: enc_bytes(r.2) },
    )
}

/// The batch that a revert writes, from the keys now stored under the target's
/// tables and the replayed state.
pub fn revert_batch(stale: &Vec<Vec<u8>>, engine: &CrdtEngine) -> (r: Result<
    Vec<BatchOp>,
    GitDBError,
>)
    ensures
        r matches Ok(ops) ==> ops@.map_values(|o: BatchOp| o@) == revert_batch_spec(
            stale@.map_values(|k: Vec<u8>| k@),
            engine@,
        ),
        r is Ok,
{
    let ghost sv = stale@.map_values(|k: Vec<u8>| k@);
    let ghost dels = sv.map_values(|k: Seq<u8>| BatchOpView::Delete { key: k });
    let ghost puts = engine@.map_values(
        |r: RowView| BatchOpView::Put { key: row_key_spec(r.0, r.1), value: enc_bytes(r.2) },
    );
    let mut ops: Vec<BatchOp> = Vec::new();
    let mut i: usize = 0;
    while i < stale.len()
        invariant
            0 <= i <= stale@.len(),
            sv == stale@.map_values(|k: Vec<u8>| k@),
            dels == sv.map_values(|k: Seq<u8>| BatchOpView::Delete { key: k }),
            ops@.map_values(|o: BatchOp| o@) == dels.subrange(0, i as int),
        decreases stale@.len() - i,
    {
        let op = BatchOp::Delete { key: stale[i].clone() };
        let ghost before = ops@;
        ops.push(op);
        assert(ops@.map_values(|o: BatchOp| o@) =~= before.map_values(|o: BatchOp| o@).push(
            BatchOpView::Delete { key: sv[i as int] },
        ));
        assert(ops@.map_values(|o: BatchOp| o@) =~= dels.subrange(0, i + 1));
        i = i + 1;
    }
    let rows = engine.rows();
    let mut j: usize = 0;
    while j < rows.len()
        invariant
            0 <= j <= rows@.len(),
            rows@.map_values(|x: crate::crdt::Row| x@) == engine@,
            dels.len() == stale@.len(),
            puts == engine@.map_values(
                |r: RowView| BatchOpView::Put { key: row_key_spec(r.0, r.1), value: enc_bytes(r.2) },
            ),
            ops@.map_values(|o: BatchOp| o@) == dels + puts.subrange(0, j as int),
        decreases rows@.len() - j,
    {
        let row = &rows[j];
        let value = match serialize_value(&row.value) {
            Some(v) => v,
            None => return Err(GitDBError::CorruptData),
        };
        let key = row_key(&row.table, &row.id);
        assert(engine@[j as int] == row@);
        let ghost before = ops@;
        ops.push(BatchOp::Put { key, value });
        assert(ops@.map_values(|o: BatchOp| o@) =~= before.map_values(|o: BatchOp| o@).push(
            puts[j as int],
        ));
        assert(ops@.map_values(|o: BatchOp| o@) =~= dels + puts.subrange(0, j + 1));
        j = j + 1;
    }
    assert(dels.subrange(0, dels.len() as int) =~= dels);
    assert(puts.subrange(0, puts.len() as int) =~= puts);
    Ok(ops)
}

} // verus!
