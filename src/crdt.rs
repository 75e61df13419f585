use vstd::prelude::*;
use crate::model::{Change, ChangeView, Commit, CommitView};

verus! {

/// A materialized row: its table, its identifier and its value.
#[derive(Debug, Clone, PartialEq, Eq)]
pub struct Row {
    pub table: String,
    pub id: String,
    pub value: Vec<u8>,
}

pub type RowView = (Seq<char>, Seq<char>, Seq<u8>);

impl View for Row {
    type V = RowView;

    open spec fn view(&self) -> RowView {
        (self.table@, self.id@, self.value@)
    }
}

/// The replay engine: folds changes, in order, into a materialized set of
/// rows. A row keeps its place when it is overwritten; new rows go last.
pub struct CrdtEngine {
    rows: Vec<Row>,
}

/// The position of the row with key `(table, id)` in `s`, or -1.
pub open spec fn key_index(s: Seq<RowView>, table: Seq<char>, id: Seq<char>) -> int
    decreases s.len(),
{
    if s.len() == 0 {
        -1
    } else if s.last().0 == table && s.last().1 == id {
        s.len() - 1
    } else {
        key_index(s.drop_last(), table, id)
    }
}

/// The rows after one change: an insert or an update sets the row's value, a
/// delete removes the row.
pub open spec fn apply_spec(s: Seq<RowView>, c: ChangeView) -> Seq<RowView> {
    let i = key_index(s, c.table(), c.id());
    match c {
        ChangeView::Insert { table, id, value } => if i >= 0 {
            s.update(i, (table, id, value))
        } else {
            s.push((table, id, value))
        },
        ChangeView::Update { table, id, value } => if i >= 0 {
            s.update(i, (table, id, value))
        } else {
            s.push((table, id, value))
        },
        ChangeView::Delete { .. } => if i >= 0 {
            s.remove(i)
        } else {
            s
        },
    }
}

/// The rows after a sequence of changes, applied in order.
pub open spec fn replay(s: Seq<RowView>, cs: Seq<ChangeView>) -> Seq<RowView>
    decreases cs.len(),
{
    if cs.len() == 0 {
        s
    } else {
        apply_spec(replay(s, cs.drop_last()), cs.last())
    }
}

/// The rows after those changes of a sequence that concern `table`.
pub open spec fn replay_table(s: Seq<RowView>, cs: Seq<ChangeView>, table: Seq<char>) -> Seq<
    RowView,
>
    decreases cs.len(),
{
    if cs.len() == 0 {
        s
    } else {
        let p = replay_table(s, cs.drop_last(), table);
        if cs.last().table() == table {
            apply_spec(p, cs.last())
        } else {
            p
        }
    }
}

/// The changes of a first-parent chain given tip first, oldest commit first.
pub open spec fn chain_changes(chain: Seq<CommitView>) -> Seq<ChangeView>
    decreases chain.len(),
{
    if chain.len() == 0 {
        Seq::empty()
    } else {
        chain_changes(chain.drop_first()) + chain[0].changes
    }
}

pub open spec fn commit_views(chain: Seq<Commit>) -> Seq<CommitView> {
    chain.map_values(|c: Commit| c@)
}

impl View for CrdtEngine {
    type V = Seq<RowView>;

    closed spec fn view(&self) -> Seq<RowView> {
        self.rows@.map_values(|r: Row| r@)
    }
}

proof fn lemma_replay_push(s: Seq<RowView>, cs: Seq<ChangeView>, c: ChangeView)
    ensures
        replay(s, cs.push(c)) == apply_spec(replay(s, cs), c),
        replay_table(s, cs.push(c), c.table()) == apply_spec(replay_table(s, cs, c.table()), c),
        forall|t: Seq<char>|
            t != c.table() ==> #[trigger] replay_table(s, cs.push(c), t) == replay_table(s, cs, t),
{
    assert(cs.push(c).drop_last() =~= cs);
}

proof fn lemma_chain_step(chain: Seq<CommitView>, i: int)
    requires
        0 < i <= chain.len(),
    ensures
        chain_changes(chain.subrange(i - 1, chain.len() as int)) == chain_changes(
            chain.subrange(i, chain.len() as int),
        ) + chain[i - 1].changes,
{
    assert(chain.subrange(i - 1, chain.len() as int).drop_first() =~= chain.subrange(
        i,
        chain.len() as int,
    ));
}

impl CrdtEngine {
    /// An engine with no rows.
    pub fn new() -> (r: CrdtEngine)
        ensures
            r@ == Seq::<RowView>::empty(),
    {
        let r = CrdtEngine { rows: Vec::new() };
        assert(r@ =~= Seq::<RowView>::empty());
        r
    }

    /// The materialized rows, in order.
    pub fn rows(&self) -> (r: &Vec<Row>)
        ensures
            r@.map_values(|x: Row| x@) == self@,
    {
        &self.rows
    }

    /// The position of the row with key `(table, id)`, if there is one.
    pub fn find(&self, table: &String, id: &String) -> (r: Option<usize>)
        ensures
            r matches Some(i) ==> i as int == key_index(self@, table@, id@) && i < self@.len(),
            r is None ==> key_index(self@, table@, id@) == -1,
    {
        let mut i: usize = self.rows.len();
        assert(self@.subrange(0, i as int) =~= self@);
        while i > 0
            invariant
                i <= self@.len(),
                self@.len() == self.rows@.len(),
                key_index(self@, table@, id@) == key_index(self@.subrange(0, i as int), table@, id@),
            decreases i,
        {
            let r = &self.rows[i - 1];
            assert(self@.subrange(0, i as int).drop_last() =~= self@.subrange(0, i - 1));
            if r.table == *table && r.id == *id {
                return Some(i - 1);
            }
            i = i - 1;
        }
        assert(self@.subrange(0, 0) =~= Seq::<RowView>::empty());
        None
    }

    /// Folds one change into the rows.
    pub fn apply_change(&mut self, c: &Change)
        ensures
            final(self)@ == apply_spec(old(self)@, c@),
    {
        let found = self.find(c.table(), c.id());
        match c {
            Change::Insert { table, id, value } | Change::Update { table, id, value } => {
                let row = Row { table: table.clone(), id: id.clone(), value: value.clone() };
                match found {
                    Some(i) => {
                        self.rows.set(i, row);
                    },
                    None => {
                        self.rows.push(row);
                    },
                }
            },
            Change::Delete { .. } => {
                match found {
                    Some(i) => {
                        self.rows.remove(i);
                    },
                    None => {},
                }
            },
        }
        assert(self@ =~= apply_spec(old(self)@, c@));
    }
}

/// Replays a first-parent chain, given tip first, oldest commit first.
pub fn replay_chain(chain: &Vec<Commit>) -> (r: CrdtEngine)
    ensures
        r@ == replay(Seq::empty(), chain_changes(commit_views(chain@))),
{
    let ghost cv = commit_views(chain@);
    let mut engine = CrdtEngine::new();
    let mut i: usize = chain.len();
    assert(cv.subrange(i as int, cv.len() as int) =~= Seq::<CommitView>::empty());
    while i > 0
        invariant
            i <= chain@.len(),
            cv == commit_views(chain@),
            engine@ == replay(Seq::empty(), chain_changes(cv.subrange(i as int, cv.len() as int))),
        decreases i,
    {
        let commit = &chain[i - 1];
        let ghost base = chain_changes(cv.subrange(i as int, cv.len() as int));
        let mut j: usize = 0;
        assert(base + commit@.changes.subrange(0, 0) =~= base);
        while j < commit.changes.len()
            invariant
                j <= commit@.changes.len(),
                commit.changes@.len() == commit@.changes.len(),
                engine@ == replay(Seq::empty(), base + commit@.changes.subrange(0, j as int)),
            decreases commit.changes@.len() - j,
        {
            engine.apply_change(&commit.changes[j]);
            proof {
                lemma_replay_push(
                    Seq::empty(),
                    base + commit@.changes.subrange(0, j as int),
                    commit@.changes[j as int],
                );
                assert(base + commit@.changes.subrange(0, j + 1) =~= (base
                    + commit@.changes.subrange(0, j as int)).push(commit@.changes[j as int]));
            }
            j = j + 1;
        }
        proof {
            lemma_chain_step(cv, i as int);
            assert(commit@.changes.subrange(0, j as int) =~= commit@.changes);
        }
        i = i - 1;
    }
    assert(cv.subrange(0, cv.len() as int) =~= cv);
    engine
}

/// Replays those changes of a first-parent chain, given tip first, that
/// concern `table`, oldest commit first.
pub fn replay_chain_table(chain: &Vec<Commit>, table: &String) -> (r: CrdtEngine)
    ensures
        r@ == replay_table(Seq::empty(), chain_changes(commit_views(chain@)), table@),
{
    let ghost cv = commit_views(chain@);
    let mut engine = CrdtEngine::new();
    let mut i: usize = chain.len();
    assert(cv.subrange(i as int, cv.len() as int) =~= Seq::<CommitView>::empty());
    while i > 0
        invariant
            i <= chain@.len(),
            cv == commit_views(chain@),
            engine@ == replay_table(
                Seq::empty(),
                chain_changes(cv.subrange(i as int, cv.len() as int)),
                table@,
            ),
        decreases i,
    {
        let commit = &chain[i - 1];
        let ghost base = chain_changes(cv.subrange(i as int, cv.len() as int));
        let mut j: usize = 0;
        assert(base + commit@.changes.subrange(0, 0) =~= base);
        while j < commit.changes.len()
            invariant
                j <= commit@.changes.len(),
                commit.changes@.len() == commit@.changes.len(),
                engine@ == replay_table(
                    Seq::empty(),
                    base + commit@.changes.subrange(0, j as int),
                    table@,
                ),
            decreases commit.changes@.len() - j,
        {
            let change = &commit.changes[j];
            proof {
                lemma_replay_push(
                    Seq::empty(),
                    base + commit@.changes.subrange(0, j as int),
                    commit@.changes[j as int],
                );
                assert(base + commit@.changes.subrange(0, j + 1) =~= (base
                    + commit@.changes.subrange(0, j as int)).push(commit@.changes[j as int]));
            }
            if *change.table() == *table {
                engine.apply_change(change);
            }
            j = j + 1;
        }
        proof {
            lemma_chain_step(cv, i as int);
            assert(commit@.changes.subrange(0, j as int) =~= commit@.changes);
        }
        i = i - 1;
    }
    assert(cv.subrange(0, cv.len() as int) =~= cv);
    engine
}

} // verus!
