use vstd::prelude::*;
use crate::codec::{bytes_eq, enc_bytes, serialize_value};
use crate::crdt::{
    chain_changes, commit_views, key_index, replay_chain_table, replay_table, CrdtEngine, RowView,
};
use crate::error::GitDBError;
use crate::model::{tree_lookup, Change, ChangeView, Commit, TreeEntry};

verus! {

/// The changes that bring the rows of `t` in `from` to those in `to`, over the
/// rows of `to`: an insert for a row that `from` lacks, an update for a row
/// whose value differs. Values are carried in their serialized form.
pub open spec fn diff_to_part(to: Seq<RowView>, from: Seq<RowView>, t: Seq<char>) -> Seq<ChangeView>
    decreases to.len(),
{
    if to.len() == 0 {
        Seq::empty()
    } else {
        let p = diff_to_part(to.drop_last(), from, t);
        let r = to.last();
        let i = key_index(from, t, r.1);
        if r.0 != t {
            p
        } else if i < 0 {
            p.push(ChangeView::Insert { table: t, id: r.1, value: enc_bytes(r.2) })
        } else if from[i].2 != r.2 {
            p.push(ChangeView::Update { table: t, id: r.1, value: enc_bytes(r.2) })
        } else {
            p
        }
    }
}

/// A delete for each row of `t` in `from` that `to` lacks.
pub open spec fn diff_from_part(from: Seq<RowView>, to: Seq<RowView>, t: Seq<char>) -> Seq<
    ChangeView,
>
    decreases from.len(),
{
    if from.len() == 0 {
        Seq::empty()
    } else {
        let p = diff_from_part(from.drop_last(), to, t);
        let r = from.last();
        if r.0 == t && key_index(to, t, r.1) < 0 {
            p.push(ChangeView::Delete { table: t, id: r.1 })
        } else {
            p
        }
    }
}

/// The diff of table `t` between two materialized states.
pub open spec fn table_diff_spec(from: Seq<RowView>, to: Seq<RowView>, t: Seq<char>) -> Seq<
    ChangeView,
> {
    diff_to_part(to, from, t) + diff_from_part(from, to, t)
}

/// The diff of table `t` between the replays of two first-parent chains.
pub open spec fn chain_table_diff(
    from_chain: Seq<Commit>,
    to_chain: Seq<Commit>,
    t: Seq<char>,
) -> Seq<ChangeView> {
    table_diff_spec(
        replay_table(Seq::empty(), chain_changes(commit_views(from_chain)), t),
        replay_table(Seq::empty(), chain_changes(commit_views(to_chain)), t),
        t,
    )
}

/// The commit-level diff over the tables of `to_tree`: nothing for a table
/// whose digest is unchanged, the table diff for one whose digest differs, and
/// a schema marker for one that `from_tree` lacks.
pub open spec fn commit_diff_spec(
    from_tree: Seq<(Seq<char>, Seq<u8>)>,
    to_tree: Seq<(Seq<char>, Seq<u8>)>,
    from_chain: Seq<Commit>,
    to_chain: Seq<Commit>,
) -> Seq<ChangeView>
    decreases to_tree.len(),
{
    if to_tree.len() == 0 {
        Seq::empty()
    } else {
        let p = commit_diff_spec(from_tree, to_tree.drop_last(), from_chain, to_chain);
        let e = to_tree.last();
        match tree_lookup(from_tree, e.0) {
            Some(d) => if d == e.1 {
                p
            } else {
                p + chain_table_diff(from_chain, to_chain, e.0)
            },
            None => p.push(
                ChangeView::Insert { table: e.0, id: "!schema"@, value: Seq::empty() },
            ),
        }
    }
}

pub open spec fn change_views(s: Seq<Change>) -> Seq<ChangeView> {
    s.map_values(|c: Change| c@)
}

proof fn lemma_push_views(s: Seq<Change>, c: Change)
    ensures
        change_views(s.push(c)) == change_views(s).push(c@),
{
    assert(change_views(s.push(c)) =~= change_views(s).push(c@));
}

/// The diff of one table between two materialized states: first the inserts
/// and updates in the order of `to`'s rows, then the deletes in the order of
/// `from`'s rows.
pub fn diff_table_states(table: &String, from: &CrdtEngine, to: &CrdtEngine) -> (r: Result<
    Vec<Change>,
    GitDBError,
>)
    ensures
        r is Ok,
        r matches Ok(d) ==> change_views(d@) == table_diff_spec(from@, to@, table@),
{
    let mut diffs: Vec<Change> = Vec::new();
    let to_rows = to.rows();
    let from_rows = from.rows();
    let mut i: usize = 0;
    while i < to_rows.len()
        invariant
            0 <= i <= to_rows@.len(),
            to_rows@.map_values(|x: crate::crdt::Row| x@) == to@,
            from_rows@.map_values(|x: crate::crdt::Row| x@) == from@,
            change_views(diffs@) == diff_to_part(to@.subrange(0, i as int), from@, table@),
        decreases to_rows@.len() - i,
    {
        let row = &to_rows[i];
        proof {
            assert(to@.subrange(0, i + 1).drop_last() =~= to@.subrange(0, i as int));
            assert(to@[i as int] == row@);
        }
        if row.table == *table {
            match from.find(table, &row.id) {
                None => {
                    let value = match serialize_value(&row.value) {
                        Some(v) => v,
                        None => return Err(GitDBError::CorruptData),
                    };
                    let c = Change::Insert { table: table.clone(), id: row.id.clone(), value };
                    proof {
                        lemma_push_views(diffs@, c);
                    }
                    diffs.push(c);
                },
                Some(k) => {
                    if !bytes_eq(from_rows[k].value.as_slice(), row.value.as_slice()) {
                        let value = match serialize_value(&row.value) {
                            Some(v) => v,
                            None => return Err(GitDBError::CorruptData),
                        };
                        let c = Change::Update { table: table.clone(), id: row.id.clone(), value };
                        proof {
                            assert(from@[k as int] == from_rows@[k as int]@);
                            lemma_push_views(diffs@, c);
                        }
                        diffs.push(c);
                    } else {
                        assert(from@[k as int] == from_rows@[k as int]@);
                    }
                },
            }
        }
        i = i + 1;
    }
    assert(to@.subrange(0, i as int) =~= to@);
    let ghost first = change_views(diffs@);
    let mut j: usize = 0;
    while j < from_rows.len()
        invariant
            0 <= j <= from_rows@.len(),
            to_rows@.map_values(|x: crate::crdt::Row| x@) == to@,
            from_rows@.map_values(|x: crate::crdt::Row| x@) == from@,
            first == diff_to_part(to@, from@, table@),
            change_views(diffs@) == first + diff_from_part(from@.subrange(0, j as int), to@, table@),
        decreases from_rows@.len() - j,
    {
        let row = &from_rows[j];
        proof {
            assert(from@.subrange(0, j + 1).drop_last() =~= from@.subrange(0, j as int));
            assert(from@[j as int] == row@);
        }
        if row.table == *table {
            if to.find(table, &row.id).is_none() {
                let c = Change::Delete { table: table.clone(), id: row.id.clone() };
                proof {
                    lemma_push_views(diffs@, c);
                    assert(first + diff_from_part(from@.subrange(0, j + 1), to@, table@) =~= (first
                        + diff_from_part(from@.subrange(0, j as int), to@, table@)).push(c@));
                }
                diffs.push(c);
            }
        }
        j = j + 1;
    }
    assert(from@.subrange(0, j as int) =~= from@);
    Ok(diffs)
}

/// The diff of one table between the states that two first-parent chains,
/// given tip first, replay to.
pub fn table_diffs_from_chains(table: &String, from_chain: &Vec<Commit>, to_chain: &Vec<Commit>) -> (r:
    Result<Vec<Change>, GitDBError>)
    ensures
        r is Ok,
        r matches Ok(d) ==> change_views(d@) == chain_table_diff(from_chain@, to_chain@, table@),
{
    let from_engine = replay_chain_table(from_chain, table);
    let to_engine = replay_chain_table(to_chain, table);
    diff_table_states(table, &from_engine, &to_engine)
}

/// The digest that a tree records for `table`, if it holds the table.
pub fn tree_get(tree: &Vec<TreeEntry>, table: &String) -> (r: Option<[u8; 32]>)
    ensures
        r matches Some(d) ==> tree_lookup(tree@.map_values(|e: TreeEntry| e@), table@) == Some(d@),
        r is None ==> tree_lookup(tree@.map_values(|e: TreeEntry| e@), table@) is None,
{
    let ghost tv = tree@.map_values(|e: TreeEntry| e@);
    let mut i: usize = 0;
    assert(tv.subrange(0, tv.len() as int) =~= tv);
    while i < tree.len()
        invariant
            0 <= i <= tree@.len(),
            tv == tree@.map_values(|e: TreeEntry| e@),
            tree_lookup(tv, table@) == tree_lookup(tv.subrange(i as int, tv.len() as int), table@),
        decreases tree@.len() - i,
    {
        assert(tv.subrange(i as int, tv.len() as int).drop_first() =~= tv.subrange(
            i + 1,
            tv.len() as int,
        ));
        if tree[i].table == *table {
            return Some(tree[i].digest);
        }
        i = i + 1;
    }
    assert(tv.subrange(i as int, tv.len() as int) =~= Seq::<(Seq<char>, Seq<u8>)>::empty());
    None
}

/// The diff between two commits, over the tables of `to`'s tree. The chains
/// are the first-parent chains, tip first, of the commits' first parents.
pub fn commit_diffs_from_chains(
    from: &Commit,
    to: &Commit,
    from_chain: &Vec<Commit>,
    to_chain: &Vec<Commit>,
) -> (r: Result<Vec<Change>, GitDBError>)
    ensures
        r matches Ok(d) ==> change_views(d@) == commit_diff_spec(
            from@.tree,
            to@.tree,
            from_chain@,
            to_chain@,
        ),
        r is Ok,
{
    let mut diffs: Vec<Change> = Vec::new();
    let mut i: usize = 0;
    while i < to.tree.len()
        invariant
            0 <= i <= to.tree@.len(),
            change_views(diffs@) == commit_diff_spec(
                from@.tree,
                to@.tree.subrange(0, i as int),
                from_chain@,
                to_chain@,
            ),
        decreases to.tree@.len() - i,
    {
        let entry = &to.tree[i];
        proof {
            assert(to@.tree.subrange(0, i + 1).drop_last() =~= to@.tree.subrange(0, i as int));
            assert(to@.tree[i as int] == entry@);
        }
        match tree_get(&from.tree, &entry.table) {
            Some(d) => {
                if !bytes_eq(d.as_slice(), entry.digest.as_slice()) {
                    let mut part = table_diffs_from_chains(&entry.table, from_chain, to_chain)?;
                    let ghost before = diffs@;
                    let ghost added = part@;
                    diffs.append(&mut part);
                    proof {
                        assert(change_views(diffs@) =~= change_views(before) + change_views(added));
                    }
                }
            },
            None => {
                let c = Change::Insert {
                    table: entry.table.clone(),
                    id: "!schema".to_owned(),
                    value: Vec::new(),
                };
                proof {
                    lemma_push_views(diffs@, c);
                    assert(c@ == ChangeView::Insert {
                        table: entry@.0,
                        id: "!schema"@,
                        value: Seq::empty(),
                    });
                }
                diffs.push(c);
            },
        }
        i = i + 1;
    }
    assert(to@.tree.subrange(0, i as int) =~= to@.tree);
    Ok(diffs)
}

} // verus!
