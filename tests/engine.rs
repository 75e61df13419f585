use std::collections::BTreeMap;

use gitdb::codec::encode_commit;
use gitdb::crdt::{replay_chain, CrdtEngine};
use gitdb::diff::{commit_diffs_from_chains, diff_table_states, table_diffs_from_chains};
use gitdb::envelope::{open_envelope, seal_checked, seal_commit};
use gitdb::error::GitDBError;
use gitdb::model::{Change, Commit, CommitId, TreeEntry};
use gitdb::store::{
    first_parent, key_has_prefix, make_commit, parse_head, revert_batch, revert_changes,
    revert_message, row_key, row_prefix, touched_tables, BatchOp,
};
use gitdb::summary::{key_le, sort_rows, table_digest};

/// An in-memory ordered store driven by the library, as the RocksDB layer is.
struct MemStore {
    kv: BTreeMap<Vec<u8>, Vec<u8>>,
    clock: u64,
}

impl MemStore {
    fn new() -> Self {
        MemStore { kv: BTreeMap::new(), clock: 1_700_000_000 }
    }

    fn scan(&self, prefix: &[u8]) -> Vec<(Vec<u8>, Vec<u8>)> {
        self.kv
            .range(prefix.to_vec()..)
            .take_while(|(k, _)| key_has_prefix(k, prefix))
            .map(|(k, v)| (k.clone(), v.clone()))
            .collect()
    }

    fn head(&self) -> Result<Option<CommitId>, GitDBError> {
        parse_head(self.kv.get(b"HEAD".as_slice()).cloned())
    }

    fn get(&self, id: &CommitId) -> Result<Commit, GitDBError> {
        let raw = self.kv.get(id.as_slice()).ok_or(GitDBError::InvalidInput)?;
        open_envelope(raw)
    }

    fn create_commit(&mut self, message: &str, changes: Vec<Change>) -> Result<CommitId, GitDBError> {
        let parent = self.head()?;
        let mut digests = Vec::new();
        for t in touched_tables(&changes) {
            digests.push(table_digest(&self.scan(&row_prefix(&t))));
        }
        self.clock += 1;
        let c = make_commit(parent, &message.to_string(), self.clock, changes, digests);
        let (id, env) = seal_checked(&c)?;
        self.kv.insert(id.to_vec(), env);
        self.kv.insert(b"HEAD".to_vec(), id.to_vec());
        Ok(id)
    }

    fn chain(&self, mut cur: Option<CommitId>) -> Result<Vec<Commit>, GitDBError> {
        let mut out = Vec::new();
        while let Some(h) = cur {
            let c = self.get(&h)?;
            cur = first_parent(&c);
            out.push(c);
        }
        Ok(out)
    }

    fn history(&self) -> Result<Vec<Commit>, GitDBError> {
        self.chain(self.head()?)
    }

    fn revert_to(&mut self, target_id: &CommitId) -> Result<(), GitDBError> {
        let target = self.get(target_id)?;
        let engine = replay_chain(&self.chain(Some(*target_id))?);
        let mut stale = Vec::new();
        for e in &target.tree {
            for (k, _) in self.scan(&row_prefix(&e.table)) {
                stale.push(k);
            }
        }
        for op in revert_batch(&stale, &engine)? {
            match op {
                BatchOp::Put { key, value } => {
                    self.kv.insert(key, value);
                }
                BatchOp::Delete { key } => {
                    self.kv.remove(&key);
                }
            }
        }
        self.create_commit(&revert_message(target_id), revert_changes(&target.changes))?;
        Ok(())
    }

    fn rows_of(&self, table: &str) -> Vec<(Vec<u8>, Vec<u8>)> {
        self.scan(&row_prefix(&table.to_string()))
    }
}

fn ins(t: &str, id: &str, v: &[u8]) -> Change {
    Change::Insert { table: t.to_string(), id: id.to_string(), value: v.to_vec() }
}

fn upd(t: &str, id: &str, v: &[u8]) -> Change {
    Change::Update { table: t.to_string(), id: id.to_string(), value: v.to_vec() }
}

fn del(t: &str, id: &str) -> Change {
    Change::Delete { table: t.to_string(), id: id.to_string() }
}

fn ser(v: &[u8]) -> Vec<u8> {
    let mut out = (v.len() as u64).to_le_bytes().to_vec();
    out.extend_from_slice(v);
    out
}

fn sample_commit() -> Commit {
    Commit {
        parents: vec![[7u8; 32]],
        message: "héllo".to_string(),
        timestamp: 42,
        changes: vec![ins("users", "1", b"alice"), upd("users", "1", b"bob"), del("posts", "9")],
        tree: vec![TreeEntry { table: "users".to_string(), digest: [3u8; 32] }],
    }
}

#[test]
fn empty_store_then_first_commit() {
    let mut s = MemStore::new();
    assert_eq!(s.head().unwrap(), None);
    let h1 = s.create_commit("init", vec![ins("users", "1", b"alice")]).unwrap();
    assert_eq!(s.head().unwrap(), Some(h1));
    assert_eq!(s.get(&h1).unwrap().message, "init");
    assert_eq!(s.history().unwrap().len(), 1);
    assert!(s.get(&h1).unwrap().parents.is_empty());
}

#[test]
fn chain_of_three_walks_tip_first() {
    let mut s = MemStore::new();
    let h1 = s.create_commit("one", vec![ins("users", "1", b"a")]).unwrap();
    let h2 = s.create_commit("two", vec![ins("users", "2", b"b")]).unwrap();
    let h3 = s.create_commit("three", vec![ins("users", "3", b"c")]).unwrap();
    let hist = s.history().unwrap();
    let ids: Vec<CommitId> = hist.iter().map(|c| seal_commit(c).0).collect();
    assert_eq!(ids, vec![h3, h2, h1]);
    for i in 0..hist.len() - 1 {
        assert_eq!(hist[i].parents[0], ids[i + 1]);
    }
    assert!(hist[2].parents.is_empty());
}

#[test]
fn stored_commits_are_hash_addressed() {
    let mut s = MemStore::new();
    let h1 = s.create_commit("one", vec![ins("users", "1", b"a")]).unwrap();
    let env = s.kv.get(h1.as_slice()).unwrap().clone();
    let c = open_envelope(&env).unwrap();
    let bare = encode_commit(&c);
    assert_eq!(*blake3::hash(&bare).as_bytes(), h1);
    assert_eq!(&env[env.len() - 32..], blake3::hash(&env[..env.len() - 32]).as_bytes());
}

#[test]
fn envelope_round_trip_and_bare_form() {
    let c = sample_commit();
    let (id, env) = seal_commit(&c);
    let bare = encode_commit(&c);
    assert_eq!(env.len(), bare.len() + 32);
    assert_eq!(&env[..bare.len()], bare.as_slice());
    assert_eq!(id, *blake3::hash(&bare).as_bytes());
    assert_eq!(open_envelope(&env).unwrap(), c);
    assert_eq!(open_envelope(&bare).unwrap(), c);
}

#[test]
fn encoding_layout_is_fixed_width_little_endian() {
    let c = Commit { parents: vec![], message: "m".to_string(), timestamp: 258, changes: vec![], tree: vec![] };
    let bare = encode_commit(&c);
    let mut want = vec![0u8; 8];
    want.extend_from_slice(&[1, 0, 0, 0, 0, 0, 0, 0, b'm']);
    want.extend_from_slice(&[2, 1, 0, 0, 0, 0, 0, 0]);
    want.extend_from_slice(&[0u8; 16]);
    assert_eq!(bare, want);
}

#[test]
fn corrupt_envelope_is_rejected() {
    let c = sample_commit();
    let (_, env) = seal_commit(&c);
    for i in [0usize, 10, env.len() - 40, env.len() - 1] {
        let mut bad = env.clone();
        bad[i] ^= 0x01;
        assert_eq!(open_envelope(&bad), Err(GitDBError::CorruptData));
    }
    assert_eq!(open_envelope(&env[..env.len() - 1]), Err(GitDBError::CorruptData));
    assert_eq!(open_envelope(&[]), Err(GitDBError::CorruptData));
}

#[test]
fn head_value_must_be_thirty_two_bytes() {
    assert_eq!(parse_head(None), Ok(None));
    assert_eq!(parse_head(Some(vec![9u8; 32])), Ok(Some([9u8; 32])));
    assert_eq!(parse_head(Some(vec![9u8; 31])), Err(GitDBError::InvalidInput));
}

#[test]
fn row_keys_use_the_separator() {
    assert_eq!(row_key(&"users".to_string(), &"1".to_string()), b"users:1".to_vec());
    assert_eq!(row_prefix(&"users".to_string()), b"users:".to_vec());
    assert!(key_has_prefix(b"users:1", b"users:"));
    assert!(!key_has_prefix(b"users2:1", b"users:"));
    assert!(!key_has_prefix(b"us", b"users:"));
}

#[test]
fn table_digest_is_order_independent_and_exact() {
    let a = vec![(b"t:2".to_vec(), b"y".to_vec()), (b"t:1".to_vec(), b"x".to_vec())];
    let b = vec![(b"t:1".to_vec(), b"x".to_vec()), (b"t:2".to_vec(), b"y".to_vec())];
    assert_eq!(table_digest(&a), table_digest(&b));
    assert_eq!(table_digest(&a), *blake3::hash(b"t:1xt:2y").as_bytes());
    assert_eq!(table_digest(&vec![]), *blake3::hash(b"").as_bytes());
    assert_ne!(table_digest(&a), table_digest(&vec![(b"t:1".to_vec(), b"z".to_vec())]));
}

#[test]
fn rows_sort_by_raw_bytes() {
    let rows = vec![
        (b"b".to_vec(), vec![1]),
        (b"ab".to_vec(), vec![2]),
        (b"a".to_vec(), vec![3]),
        (vec![0xff], vec![4]),
    ];
    let keys: Vec<Vec<u8>> = sort_rows(&rows).into_iter().map(|p| p.0).collect();
    assert_eq!(keys, vec![b"a".to_vec(), b"ab".to_vec(), b"b".to_vec(), vec![0xff]]);
    assert!(key_le(b"a", b"ab"));
    assert!(!key_le(b"b", b"ab"));
    assert!(key_le(b"", b""));
}

#[test]
fn touched_tables_are_distinct_in_first_mention_order() {
    let cs = vec![ins("b", "1", b""), ins("a", "1", b""), del("b", "2")];
    assert_eq!(touched_tables(&cs), vec!["b".to_string(), "a".to_string()]);
    let c = make_commit(None, &"m".to_string(), 5, cs, vec![[1u8; 32], [2u8; 32]]);
    assert_eq!(c.tree[0], TreeEntry { table: "b".to_string(), digest: [1u8; 32] });
    assert_eq!(c.tree[1], TreeEntry { table: "a".to_string(), digest: [2u8; 32] });
    assert!(c.parents.is_empty());
}

#[test]
fn replay_applies_changes_oldest_first() {
    let mut e = CrdtEngine::new();
    e.apply_change(&ins("u", "1", b"a"));
    e.apply_change(&ins("u", "2", b"b"));
    e.apply_change(&upd("u", "1", b"c"));
    e.apply_change(&del("u", "2"));
    e.apply_change(&del("u", "7"));
    assert_eq!(e.rows().len(), 1);
    assert_eq!(e.rows()[0].value, b"c".to_vec());
}

#[test]
fn table_diff_detects_update() {
    let mut s = MemStore::new();
    let _a = s.create_commit("a", vec![ins("users", "1", b"alice")]).unwrap();
    let b = s.create_commit("b", vec![upd("users", "1", b"bob")]).unwrap();
    let c = s.create_commit("c", vec![ins("posts", "1", b"p")]).unwrap();
    let from = s.chain(first_parent(&s.get(&b).unwrap())).unwrap();
    let to = s.chain(first_parent(&s.get(&c).unwrap())).unwrap();
    let d = table_diffs_from_chains(&"users".to_string(), &from, &to).unwrap();
    assert_eq!(d, vec![upd("users", "1", &ser(b"bob"))]);
}

#[test]
fn table_diff_inserts_and_deletes() {
    let mut from = CrdtEngine::new();
    from.apply_change(&ins("t", "gone", b"x"));
    from.apply_change(&ins("t", "same", b"s"));
    from.apply_change(&ins("other", "z", b"z"));
    let mut to = CrdtEngine::new();
    to.apply_change(&ins("t", "same", b"s"));
    to.apply_change(&ins("t", "new", b"n"));
    let d = diff_table_states(&"t".to_string(), &from, &to).unwrap();
    assert_eq!(d, vec![ins("t", "new", &ser(b"n")), del("t", "gone")]);
    assert_eq!(diff_table_states(&"t".to_string(), &from, &from).unwrap(), vec![]);
}

#[test]
fn commit_diff_on_disjoint_tables_gives_schema_markers() {
    let mut s = MemStore::new();
    let ha = s.create_commit("a", vec![ins("users", "1", b"alice")]).unwrap();
    let hb = s.create_commit("b", vec![ins("posts", "1", b"hi")]).unwrap();
    let a = s.get(&ha).unwrap();
    let b = s.get(&hb).unwrap();
    let fc = s.chain(first_parent(&a)).unwrap();
    let tc = s.chain(first_parent(&b)).unwrap();
    let d = commit_diffs_from_chains(&a, &b, &fc, &tc).unwrap();
    assert_eq!(d, vec![ins("posts", "!schema", b"")]);
    assert_eq!(commit_diffs_from_chains(&a, &a, &fc, &fc).unwrap(), vec![]);
}

#[test]
fn revert_restores_rows_and_records_a_commit() {
    let mut s = MemStore::new();
    let a = s.create_commit("A", vec![ins("users", "1", b"alice")]).unwrap();
    s.kv.insert(b"users:1".to_vec(), ser(b"alice"));
    let b = s.create_commit("B", vec![ins("users", "2", b"bob")]).unwrap();
    s.kv.insert(b"users:2".to_vec(), ser(b"bob"));
    s.revert_to(&a).unwrap();
    assert_eq!(s.rows_of("users"), vec![(b"users:1".to_vec(), ser(b"alice"))]);
    let hist = s.history().unwrap();
    assert_eq!(hist.len(), 3);
    assert_eq!(hist[0].parents[0], b);
    assert!(hist[0].message.starts_with("Revert to "));
    assert_eq!(hist[0].changes, vec![del("users", "1")]);
}

#[test]
fn revert_twice_leaves_rows_unchanged() {
    let mut s = MemStore::new();
    let a = s.create_commit("A", vec![ins("users", "1", b"alice")]).unwrap();
    s.create_commit("B", vec![ins("users", "2", b"bob")]).unwrap();
    s.kv.insert(b"users:2".to_vec(), ser(b"bob"));
    s.revert_to(&a).unwrap();
    let once = s.rows_of("users");
    s.revert_to(&a).unwrap();
    assert_eq!(s.rows_of("users"), once);
}

#[test]
fn revert_message_names_the_target_in_hex() {
    let mut id = [0u8; 32];
    id[0] = 0xab;
    id[31] = 0x01;
    let m = revert_message(&id);
    assert_eq!(m, format!("Revert to ab{}01", "00".repeat(30)));
}

#[test]
fn revert_changes_turn_inserts_into_deletes() {
    let cs = vec![ins("t", "1", b"x"), upd("t", "2", b"y"), del("t", "3")];
    assert_eq!(revert_changes(&cs), vec![del("t", "1"), upd("t", "2", b"y"), del("t", "3")]);
}

#[test]
fn revert_batch_deletes_then_puts() {
    let mut e = CrdtEngine::new();
    e.apply_change(&ins("t", "1", b"x"));
    let ops = revert_batch(&vec![b"t:9".to_vec()], &e).unwrap();
    assert_eq!(
        ops,
        vec![
            BatchOp::Delete { key: b"t:9".to_vec() },
            BatchOp::Put { key: b"t:1".to_vec(), value: ser(b"x") },
        ]
    );
}

#[test]
fn checked_sealing_matches_plain_sealing() {
    let c = sample_commit();
    assert_eq!(seal_checked(&c).unwrap(), seal_commit(&c));
}

#[test]
fn table_diff_replays_parent_chains_only() {
    let mut s = MemStore::new();
    let a = s.create_commit("a", vec![ins("users", "1", b"alice")]).unwrap();
    let b = s.create_commit("b", vec![ins("users", "2", b"bob")]).unwrap();
    let from = s.chain(first_parent(&s.get(&a).unwrap())).unwrap();
    let to = s.chain(first_parent(&s.get(&b).unwrap())).unwrap();
    let d = table_diffs_from_chains(&"users".to_string(), &from, &to).unwrap();
    assert_eq!(d, vec![ins("users", "1", &ser(b"alice"))]);
    assert_eq!(table_diffs_from_chains(&"users".to_string(), &to, &to).unwrap(), vec![]);
}
