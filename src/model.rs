use vstd::prelude::*;

verus! {

/// A commit identifier: the 32-byte digest of a commit's bare encoding.
pub type CommitId = [u8; 32];

/// A row-level mutation of one table.
#[derive(Debug, Clone, PartialEq, Eq)]
pub enum Change {
    Insert { table: String, id: String, value: Vec<u8> },
    Update { table: String, id: String, value: Vec<u8> },
    Delete { table: String, id: String },
}

/// The mathematical value of a `Change`.
pub enum ChangeView {
    Insert { table: Seq<char>, id: Seq<char>, value: Seq<u8> },
    Update { table: Seq<char>, id: Seq<char>, value: Seq<u8> },
    Delete { table: Seq<char>, id: Seq<char> },
}

impl ChangeView {
    pub open spec fn table(self) -> Seq<char> {
        match self {
            ChangeView::Insert { table, .. } => table,
            ChangeView::Update { table, .. } => table,
            ChangeView::Delete { table, .. } => table,
        }
    }

    pub open spec fn id(self) -> Seq<char> {
        match self {
            ChangeView::Insert { id, .. } => id,
            ChangeView::Update { id, .. } => id,
            ChangeView::Delete { id, .. } => id,
        }
    }
}

impl View for Change {
    type V = ChangeView;

    open spec fn view(&self) -> ChangeView {
        match self {
            Change::Insert { table, id, value } => ChangeView::Insert {
                table: table@,
                id: id@,
                value: value@,
            },
            Change::Update { table, id, value } => ChangeView::Update {
                table: table@,
                id: id@,
                value: value@,
            },
            Change::Delete { table, id } => ChangeView::Delete { table: table@, id: id@ },
        }
    }
}

impl Change {
    /// The table that this change concerns.
    pub fn table(&self) -> (r: &String)
        ensures
            r@ == self@.table(),
    {
        match self {
            Change::Insert { table, .. } => table,
            Change::Update { table, .. } => table,
            Change::Delete { table, .. } => table,
        }
    }

    /// The row identifier that this change concerns.
    pub fn id(&self) -> (r: &String)
        ensures
            r@ == self@.id(),
    {
        match self {
            Change::Insert { id, .. } => id,
            Change::Update { id, .. } => id,
            Change::Delete { id, .. } => id,
        }
    }

    /// A copy of this change, equal to it in value.
    pub fn duplicate(&self) -> (r: Change)
        ensures
            r@ == self@,
    {
        match self {
            Change::Insert { table, id, value } => Change::Insert {
                table: table.clone(),
                id: id.clone(),
                value: value.clone(),
            },
            Change::Update { table, id, value } => Change::Update {
                table: table.clone(),
                id: id.clone(),
                value: value.clone(),
            },
            Change::Delete { table, id } => Change::Delete { table: table.clone(), id: id.clone() },
        }
    }
}

/// One entry of a commit's tree: a table and the digest of its live rows.
#[derive(Debug, Clone, PartialEq, Eq)]
pub struct TreeEntry {
    pub table: String,
    pub digest: [u8; 32],
}

impl View for TreeEntry {
    type V = (Seq<char>, Seq<u8>);

    open spec fn view(&self) -> (Seq<char>, Seq<u8>) {
        (self.table@, self.digest@)
    }
}

/// An immutable, content-addressed commit.
#[derive(Debug, Clone, PartialEq, Eq)]
pub struct Commit {
    pub parents: Vec<CommitId>,
    pub message: String,
    pub timestamp: u64,
    pub changes: Vec<Change>,
    pub tree: Vec<TreeEntry>,
}

/// The mathematical value of a `Commit`.
pub struct CommitView {
    pub parents: Seq<Seq<u8>>,
    pub message: Seq<char>,
    pub timestamp: u64,
    pub changes: Seq<ChangeView>,
    pub tree: Seq<(Seq<char>, Seq<u8>)>,
}

impl View for Commit {
    type V = CommitView;

    open spec fn view(&self) -> CommitView {
        CommitView {
            parents: self.parents@.map_values(|p: [u8; 32]| p@),
            message: self.message@,
            timestamp: self.timestamp,
            changes: self.changes@.map_values(|c: Change| c@),
            tree: self.tree@.map_values(|e: TreeEntry| e@),
        }
    }
}

/// No table appears twice in a tree.
pub open spec fn tree_tables_unique(tree: Seq<(Seq<char>, Seq<u8>)>) -> bool {
    forall|i: int, j: int| 0 <= i < j < tree.len() ==> tree[i].0 != tree[j].0
}

/// The digest that a tree records for `table`, if it holds the table.
pub open spec fn tree_lookup(tree: Seq<(Seq<char>, Seq<u8>)>, table: Seq<char>) -> Option<Seq<u8>>
    decreases tree.len(),
{
    if tree.len() == 0 {
        None
    } else if tree[0].0 == table {
        Some(tree[0].1)
    } else {
        tree_lookup(tree.drop_first(), table)
    }
}

/// In a tree where no table appears twice, looking up an entry's table gives
/// that entry's digest.
pub proof fn lemma_tree_lookup_entry(tree: Seq<(Seq<char>, Seq<u8>)>, i: int)
    requires
        tree_tables_unique(tree),
        0 <= i < tree.len(),
    ensures
        tree_lookup(tree, tree[i].0) == Some(tree[i].1),
    decreases tree.len(),
{
    if i > 0 {
        let rest = tree.drop_first();
        assert(tree[0].0 != tree[i].0);
        assert(rest[i - 1] == tree[i]);
        assert(tree_tables_unique(rest)) by {
            assert forall|a: int, b: int| 0 <= a < b < rest.len() implies rest[a].0 != rest[b].0 by {
                assert(rest[a] == tree[a + 1] && rest[b] == tree[b + 1]);
            }
        }
        lemma_tree_lookup_entry(rest, i - 1);
    }
}

} // verus!
