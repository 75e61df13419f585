use vstd::prelude::*;
use crate::codec::enc_bytes;
use crate::crdt::{apply_spec, chain_changes, commit_views, key_index, replay, replay_table, RowView};
use crate::store::SEPARATOR;
use vstd::utf8::{encode_utf8, encode_utf8_decode_utf8};
use crate::diff::{chain_table_diff, diff_from_part, diff_to_part, table_diff_spec};
use crate::model::{ChangeView, Commit};
use crate::envelope::blake3_of;
use crate::summary::{lex_le, row_stream, sorted_by_key, PairView};
use crate::store::{deletes_of, puts_of, revert_batch_spec, row_key_spec, BatchOpView};

verus! {

/// The store after one write.
pub open spec fn apply_op(m: Map<Seq<u8>, Seq<u8>>, op: BatchOpView) -> Map<Seq<u8>, Seq<u8>> {
    match op {
        BatchOpView::Put { key, value } => m.insert(key, value),
        BatchOpView::Delete { key } => m.remove(key),
    }
}

/// The store after a batch of writes, applied in order.
pub open spec fn apply_batch(m: Map<Seq<u8>, Seq<u8>>, ops: Seq<BatchOpView>) -> Map<
    Seq<u8>,
    Seq<u8>,
>
    decreases ops.len(),
{
    if ops.len() == 0 {
        m
    } else {
        apply_op(apply_batch(m, ops.drop_last()), ops.last())
    }
}

/// Whether `k` lies under one of the prefixes.
pub open spec fn under_any(k: Seq<u8>, prefixes: Seq<Seq<u8>>) -> bool {
    exists|j: int|
        0 <= j < prefixes.len() && prefixes[j].len() <= k.len() && #[trigger] k.subrange(
            0,
            prefixes[j].len() as int,
        ) == prefixes[j]
}

/// `stale` lists exactly the keys of `m` under the prefixes.
pub open spec fn lists_keys_under(
    m: Map<Seq<u8>, Seq<u8>>,
    prefixes: Seq<Seq<u8>>,
    stale: Seq<Seq<u8>>,
) -> bool {
    forall|k: Seq<u8>| stale.contains(k) <==> (m.contains_key(k) && under_any(k, prefixes))
}

/// Whether `k` is the key of one of the rows.
pub open spec fn is_row_key(k: Seq<u8>, rows: Seq<RowView>) -> bool {
    exists|i: int| 0 <= i < rows.len() && row_key_spec(rows[i].0, rows[i].1) == k
}

/// No two rows share a key.
pub open spec fn distinct_row_keys(rows: Seq<RowView>) -> bool {
    forall|i: int, j: int|
        0 <= i < rows.len() && 0 <= j < rows.len() && i != j ==> row_key_spec(rows[i].0, rows[i].1)
            != row_key_spec(rows[j].0, rows[j].1)
}

proof fn lemma_apply_concat(m: Map<Seq<u8>, Seq<u8>>, a: Seq<BatchOpView>, b: Seq<BatchOpView>)
    ensures
        apply_batch(m, a + b) == apply_batch(apply_batch(m, a), b),
    decreases b.len(),
{
    if b.len() == 0 {
        assert(a + b =~= a);
    } else {
        assert((a + b).drop_last() =~= a + b.drop_last());
        lemma_apply_concat(m, a, b.drop_last());
    }
}

proof fn lemma_apply_deletes(m: Map<Seq<u8>, Seq<u8>>, stale: Seq<Seq<u8>>)
    ensures
        forall|k: Seq<u8>|
            #[trigger] apply_batch(m, deletes_of(stale)).contains_key(k) <==> (m.contains_key(k) && !stale.contains(k)),
        forall|k: Seq<u8>|
            m.contains_key(k) && !stale.contains(k) ==> #[trigger] apply_batch(
                m,
                deletes_of(stale),
            )[k] == m[k],
    decreases stale.len(),
{
    let dels = deletes_of(stale);
    if stale.len() == 0 {
        assert(dels.len() == 0);
        assert(apply_batch(m, dels) == m);
    } else {
        let p = stale.drop_last();
        assert(dels.drop_last() =~= deletes_of(p));
        lemma_apply_deletes(m, p);
        let prev = apply_batch(m, deletes_of(p));
        assert(dels.last() == BatchOpView::Delete { key: stale.last() });
        assert(apply_batch(m, dels) == prev.remove(stale.last()));
        assert forall|k: Seq<u8>| stale.contains(k) <==> (p.contains(k) || k == stale.last()) by {
            if stale.contains(k) {
                let i = choose|i: int| 0 <= i < stale.len() && stale[i] == k;
                if i < stale.len() - 1 {
                    assert(p[i] == k);
                }
            }
            if p.contains(k) {
                let i = choose|i: int| 0 <= i < p.len() && p[i] == k;
                assert(stale[i] == k);
            }
            if k == stale.last() {
                assert(stale[stale.len() - 1] == k);
            }
        }
        assert forall|k: Seq<u8>|
            #[trigger] apply_batch(m, dels).contains_key(k) <==> (m.contains_key(k)
                && !stale.contains(k)) by {
            assert(prev.contains_key(k) <==> (m.contains_key(k) && !p.contains(k)));
        }
        assert forall|k: Seq<u8>| m.contains_key(k) && !stale.contains(k) implies #[trigger] apply_batch(
            m,
            dels,
        )[k] == m[k] by {
            assert(prev[k] == m[k]);
        }
    }
}

proof fn lemma_apply_puts(m: Map<Seq<u8>, Seq<u8>>, rows: Seq<RowView>)
    requires
        distinct_row_keys(rows),
    ensures
        forall|i: int|
            0 <= i < rows.len() ==> #[trigger] apply_batch(
                m,
                puts_of(rows),
            ).contains_key(row_key_spec(rows[i].0, rows[i].1)) && apply_batch(
                m,
                puts_of(rows),
            )[row_key_spec(rows[i].0, rows[i].1)] == enc_bytes(rows[i].2),
        forall|k: Seq<u8>|
            !is_row_key(k, rows) ==> (#[trigger] apply_batch(
                m,
                puts_of(rows),
            ).contains_key(k) == m.contains_key(k) && apply_batch(
                m,
                puts_of(rows),
            )[k] == m[k]),
    decreases rows.len(),
{
    let puts = puts_of(rows);
    if rows.len() == 0 {
        assert(puts.len() == 0);
        assert(apply_batch(m, puts) == m);
    } else {
        let p = rows.drop_last();
        assert(puts.drop_last() =~= puts_of(p));
        assert(distinct_row_keys(p)) by {
            assert forall|i: int, j: int|
                0 <= i < p.len() && 0 <= j < p.len() && i != j implies row_key_spec(p[i].0, p[i].1)
                != row_key_spec(p[j].0, p[j].1) by {
                assert(p[i] == rows[i] && p[j] == rows[j]);
            }
        }
        lemma_apply_puts(m, p);
        let prev = apply_batch(m, puts_of(p));
        let last = rows.last();
        let lk = row_key_spec(last.0, last.1);
        assert(puts.last() == BatchOpView::Put { key: lk, value: enc_bytes(last.2) });
        assert(apply_batch(m, puts) == prev.insert(lk, enc_bytes(last.2)));
        assert forall|i: int| 0 <= i < rows.len() implies #[trigger] apply_batch(
            m,
            puts,
        ).contains_key(row_key_spec(rows[i].0, rows[i].1)) && apply_batch(m, puts)[row_key_spec(
            rows[i].0,
            rows[i].1,
        )] == enc_bytes(rows[i].2) by {
            if i < rows.len() - 1 {
                assert(p[i] == rows[i]);
                assert(row_key_spec(rows[i].0, rows[i].1) != lk);
                assert(prev.contains_key(row_key_spec(p[i].0, p[i].1)));
            }
        }
        assert forall|k: Seq<u8>| !is_row_key(k, rows) implies (#[trigger] apply_batch(
            m,
            puts,
        ).contains_key(k) == m.contains_key(k) && apply_batch(m, puts)[k] == m[k]) by {
            if is_row_key(k, p) {
                let i = choose|i: int| 0 <= i < p.len() && row_key_spec(p[i].0, p[i].1) == k;
                assert(rows[i] == p[i]);
                assert(is_row_key(k, rows));
            }
            if k == lk {
                assert(row_key_spec(rows[rows.len() - 1].0, rows[rows.len() - 1].1) == k);
            }
        }
    }
}

/// Revert convergence: applying a revert's batch to a store `m` leaves every
/// materialized row under its row key with its serialized value, removes every
/// listed stale key that is no row's key, and leaves every other key as it was.
pub proof fn lemma_revert_converges(
    m: Map<Seq<u8>, Seq<u8>>,
    stale: Seq<Seq<u8>>,
    rows: Seq<RowView>,
)
    requires
        distinct_row_keys(rows),
    ensures
        forall|i: int|
            0 <= i < rows.len() ==> #[trigger] apply_batch(m, revert_batch_spec(stale, rows))[row_key_spec(
                rows[i].0,
                rows[i].1,
            )] == enc_bytes(rows[i].2) && apply_batch(
                m,
                revert_batch_spec(stale, rows),
            ).contains_key(row_key_spec(rows[i].0, rows[i].1)),
        forall|k: Seq<u8>|
            stale.contains(k) && !is_row_key(k, rows) ==> !#[trigger] apply_batch(
                m,
                revert_batch_spec(stale, rows),
            ).contains_key(k),
        forall|k: Seq<u8>|
            !stale.contains(k) && !is_row_key(k, rows) ==> (#[trigger] apply_batch(
                m,
                revert_batch_spec(stale, rows),
            ).contains_key(k) == m.contains_key(k) && (m.contains_key(k) ==> apply_batch(
                m,
                revert_batch_spec(stale, rows),
            )[k] == m[k])),
{
    let dels = deletes_of(stale);
    let puts = puts_of(rows);
    lemma_apply_concat(m, dels, puts);
    lemma_apply_deletes(m, stale);
    lemma_apply_puts(apply_batch(m, dels), rows);
    let mid = apply_batch(m, dels);
    let out = apply_batch(m, revert_batch_spec(stale, rows));
    assert(out == apply_batch(mid, puts));
    assert forall|i: int| 0 <= i < rows.len() implies #[trigger] out[row_key_spec(
        rows[i].0,
        rows[i].1,
    )] == enc_bytes(rows[i].2) && out.contains_key(row_key_spec(rows[i].0, rows[i].1)) by {
        assert(apply_batch(mid, puts).contains_key(row_key_spec(rows[i].0, rows[i].1)));
    }
    assert forall|k: Seq<u8>| stale.contains(k) && !is_row_key(k, rows) implies !#[trigger] out.contains_key(k) by {
        assert(apply_batch(mid, puts).contains_key(k) == mid.contains_key(k));
        assert(mid.contains_key(k) <==> (m.contains_key(k) && !stale.contains(k)));
    }
    assert forall|k: Seq<u8>| !stale.contains(k) && !is_row_key(k, rows) implies (
    #[trigger] out.contains_key(k) == m.contains_key(k) && (m.contains_key(k) ==> out[k] == m[k])) by {
        assert(apply_batch(mid, puts).contains_key(k) == mid.contains_key(k));
        assert(mid.contains_key(k) <==> (m.contains_key(k) && !stale.contains(k)));
        if m.contains_key(k) {
            assert(mid[k] == m[k]);
        }
    }
}

/// Idempotent revert: where each revert deletes exactly the keys then stored
/// under the reverted tables' prefixes, a second revert to the same commit
/// leaves the store as the first one left it.
pub proof fn lemma_revert_idempotent(
    m: Map<Seq<u8>, Seq<u8>>,
    prefixes: Seq<Seq<u8>>,
    stale1: Seq<Seq<u8>>,
    stale2: Seq<Seq<u8>>,
    rows: Seq<RowView>,
)
    requires
        distinct_row_keys(rows),
        lists_keys_under(m, prefixes, stale1),
        lists_keys_under(apply_batch(m, revert_batch_spec(stale1, rows)), prefixes, stale2),
    ensures
        apply_batch(apply_batch(m, revert_batch_spec(stale1, rows)), revert_batch_spec(stale2, rows))
            == apply_batch(m, revert_batch_spec(stale1, rows)),
{
    let m1 = apply_batch(m, revert_batch_spec(stale1, rows));
    let m2 = apply_batch(m1, revert_batch_spec(stale2, rows));
    lemma_revert_converges(m, stale1, rows);
    lemma_revert_converges(m1, stale2, rows);
    assert forall|k: Seq<u8>| #[trigger] m2.contains_key(k) == m1.contains_key(k) && (m1.contains_key(k)
        ==> m2[k] == m1[k]) by {
        if is_row_key(k, rows) {
            let i = choose|i: int| 0 <= i < rows.len() && row_key_spec(rows[i].0, rows[i].1) == k;
            assert(m1[row_key_spec(rows[i].0, rows[i].1)] == enc_bytes(rows[i].2));
            assert(m2[row_key_spec(rows[i].0, rows[i].1)] == enc_bytes(rows[i].2));
        } else if stale2.contains(k) {
            assert(m1.contains_key(k) && under_any(k, prefixes));
            if stale1.contains(k) {
                assert(!m1.contains_key(k));
            } else {
                assert(m.contains_key(k));
            }
        }
    }
    assert(m2 =~= m1);
}

/// No two rows share a table and an id.
pub open spec fn unique_keys(s: Seq<RowView>) -> bool {
    forall|i: int, j: int|
        0 <= i < j < s.len() ==> !(s[i].0 == s[j].0 && s[i].1 == s[j].1)
}

proof fn lemma_key_index_bounds(s: Seq<RowView>, t: Seq<char>, id: Seq<char>)
    ensures
        -1 <= key_index(s, t, id) < s.len(),
        key_index(s, t, id) >= 0 ==> s[key_index(s, t, id)].0 == t && s[key_index(s, t, id)].1 == id,
        key_index(s, t, id) == -1 ==> forall|j: int| 0 <= j < s.len() ==> !(s[j].0 == t && s[j].1 == id),
    decreases s.len(),
{
    if s.len() > 0 {
        lemma_key_index_bounds(s.drop_last(), t, id);
        assert forall|j: int| 0 <= j < s.len() - 1 implies s.drop_last()[j] == s[j] by {}
    }
}

proof fn lemma_key_index_of_unique(s: Seq<RowView>, j: int)
    requires
        unique_keys(s),
        0 <= j < s.len(),
    ensures
        key_index(s, s[j].0, s[j].1) == j,
    decreases s.len(),
{
    if j < s.len() - 1 {
        let p = s.drop_last();
        assert(unique_keys(p)) by {
            assert forall|a: int, b: int| 0 <= a < b < p.len() implies !(p[a].0 == p[b].0 && p[a].1
                == p[b].1) by {
                assert(p[a] == s[a] && p[b] == s[b]);
            }
        }
        assert(p[j] == s[j]);
        lemma_key_index_of_unique(p, j);
    }
}

proof fn lemma_apply_keeps_unique(s: Seq<RowView>, c: ChangeView)
    requires
        unique_keys(s),
    ensures
        unique_keys(apply_spec(s, c)),
{
    lemma_key_index_bounds(s, c.table(), c.id());
    let i = key_index(s, c.table(), c.id());
    let r = apply_spec(s, c);
    if i < 0 {
        assert forall|a: int, b: int| 0 <= a < b < r.len() implies !(r[a].0 == r[b].0 && r[a].1
            == r[b].1) by {
            if b == s.len() {
                assert(r[a] == s[a]);
            }
        }
    } else {
        match c {
            ChangeView::Delete { .. } => {
                assert forall|a: int, b: int| 0 <= a < b < r.len() implies !(r[a].0 == r[b].0
                    && r[a].1 == r[b].1) by {
                    let a2 = if a < i { a } else { a + 1 };
                    let b2 = if b < i { b } else { b + 1 };
                    assert(r[a] == s[a2] && r[b] == s[b2]);
                }
            },
            _ => {
                assert forall|a: int, b: int| 0 <= a < b < r.len() implies !(r[a].0 == r[b].0
                    && r[a].1 == r[b].1) by {
                    if a == i {
                        assert(r[b] == s[b]);
                    } else if b == i {
                        assert(r[a] == s[a]);
                    } else {
                        assert(r[a] == s[a] && r[b] == s[b]);
                    }
                }
            },
        }
    }
}

/// Replaying a table's changes from no rows never gives two rows one key.
pub proof fn lemma_replay_table_unique(cs: Seq<ChangeView>, t: Seq<char>)
    ensures
        unique_keys(replay_table(Seq::empty(), cs, t)),
    decreases cs.len(),
{
    if cs.len() > 0 {
        lemma_replay_table_unique(cs.drop_last(), t);
        if cs.last().table() == t {
            lemma_apply_keeps_unique(replay_table(Seq::empty(), cs.drop_last(), t), cs.last());
        }
    }
}

proof fn lemma_diff_to_self_empty(s: Seq<RowView>, n: int, t: Seq<char>)
    requires
        unique_keys(s),
        0 <= n <= s.len(),
    ensures
        diff_to_part(s.subrange(0, n), s, t).len() == 0,
        diff_from_part(s.subrange(0, n), s, t).len() == 0,
    decreases n,
{
    if n > 0 {
        let q = s.subrange(0, n);
        assert(q.drop_last() =~= s.subrange(0, n - 1));
        lemma_diff_to_self_empty(s, n - 1, t);
        lemma_key_index_of_unique(s, n - 1);
        assert(q.last() == s[n - 1]);
    }
}

/// A table's diff between two replayed states that agree is empty.
pub proof fn lemma_diff_of_equal_states_is_empty(
    from_chain: Seq<Commit>,
    to_chain: Seq<Commit>,
    t: Seq<char>,
)
    requires
        replay_table(Seq::empty(), chain_changes(commit_views(from_chain)), t) == replay_table(
            Seq::empty(),
            chain_changes(commit_views(to_chain)),
            t,
        ),
    ensures
        chain_table_diff(from_chain, to_chain, t).len() == 0,
{
    let s = replay_table(Seq::empty(), chain_changes(commit_views(to_chain)), t);
    lemma_replay_table_unique(chain_changes(commit_views(to_chain)), t);
    lemma_diff_to_self_empty(s, s.len() as int, t);
    assert(s.subrange(0, s.len() as int) =~= s);
}

proof fn lemma_lex_antisym(a: Seq<u8>, b: Seq<u8>)
    requires
        lex_le(a, b),
        lex_le(b, a),
    ensures
        a == b,
    decreases a.len(),
{
    if a.len() > 0 && b.len() > 0 {
        lemma_lex_antisym(a.drop_first(), b.drop_first());
        assert(a =~= seq![a[0]] + a.drop_first());
        assert(b =~= seq![b[0]] + b.drop_first());
    } else {
        assert(a =~= b);
    }
}

proof fn lemma_lex_refl(a: Seq<u8>)
    ensures
        lex_le(a, a),
    decreases a.len(),
{
    if a.len() > 0 {
        lemma_lex_refl(a.drop_first());
    }
}

/// No two rows share a key.
pub open spec fn distinct_keys(s: Seq<PairView>) -> bool {
    forall|i: int, j: int| 0 <= i < j < s.len() ==> s[i].0 != s[j].0
}

proof fn lemma_sorted_is_unique(a: Seq<PairView>, b: Seq<PairView>)
    requires
        sorted_by_key(a),
        sorted_by_key(b),
        distinct_keys(a),
        a.to_multiset() == b.to_multiset(),
    ensures
        a == b,
    decreases a.len(),
{
    a.to_multiset_ensures();
    b.to_multiset_ensures();
    if a.len() == 0 {
        assert(b.len() == 0);
        assert(a =~= b);
    } else {
        assert(b.len() == a.len());
        let x = a.last();
        let y = b.last();
        assert(a.contains(x)) by {
            assert(a[a.len() - 1] == x);
        }
        assert(b.contains(y)) by {
            assert(b[b.len() - 1] == y);
        }
        assert(a.to_multiset().count(x) > 0);
        assert(b.to_multiset().count(x) > 0);
        assert(b.contains(x));
        assert(b.to_multiset().count(y) > 0);
        assert(a.to_multiset().count(y) > 0);
        assert(a.contains(y));
        lemma_lex_refl(x.0);
        lemma_lex_refl(y.0);
        let j = choose|j: int| 0 <= j < b.len() && b[j] == x;
        let i = choose|i: int| 0 <= i < a.len() && a[i] == y;
        if j < b.len() - 1 {
            assert(lex_le(b[j].0, b[b.len() - 1].0));
        }
        if i < a.len() - 1 {
            assert(lex_le(a[i].0, a[a.len() - 1].0));
        }
        assert(lex_le(x.0, y.0));
        assert(lex_le(y.0, x.0));
        lemma_lex_antisym(x.0, y.0);
        assert(i == a.len() - 1);
        assert(x == y);
        let pa = a.drop_last();
        let pb = b.drop_last();
        vstd::seq_lib::to_multiset_build(pa, x);
        vstd::seq_lib::to_multiset_build(pb, y);
        assert(pa.push(x) =~= a);
        assert(pb.push(y) =~= b);
        assert(pa.to_multiset() =~= pb.to_multiset()) by {
            assert(pa.to_multiset().insert(x) == pb.to_multiset().insert(x));
            assert(pa.to_multiset() == pa.to_multiset().insert(x).remove(x));
            assert(pb.to_multiset() == pb.to_multiset().insert(x).remove(x));
        }
        assert(sorted_by_key(pa)) by {
            assert forall|p: int, q: int| 0 <= p < q < pa.len() implies lex_le(
                #[trigger] pa[p].0,
                #[trigger] pa[q].0,
            ) by {
                assert(pa[p] == a[p] && pa[q] == a[q]);
            }
        }
        assert(sorted_by_key(pb)) by {
            assert forall|p: int, q: int| 0 <= p < q < pb.len() implies lex_le(
                #[trigger] pb[p].0,
                #[trigger] pb[q].0,
            ) by {
                assert(pb[p] == b[p] && pb[q] == b[q]);
            }
        }
        assert(distinct_keys(pa)) by {
            assert forall|p: int, q: int| 0 <= p < q < pa.len() implies pa[p].0 != pa[q].0 by {
                assert(pa[p] == a[p] && pa[q] == a[q]);
            }
        }
        lemma_sorted_is_unique(pa, pb);
    }
}

proof fn lemma_distinct_keys_transfer(rows: Seq<PairView>, s: Seq<PairView>)
    requires
        distinct_keys(rows),
        s.to_multiset() == rows.to_multiset(),
    ensures
        distinct_keys(s),
{
    rows.to_multiset_ensures();
    s.to_multiset_ensures();
    assert forall|p: int, q: int| 0 <= p < q < s.len() implies s[p].0 != s[q].0 by {
        if s[p].0 == s[q].0 {
            let e1 = s[p];
            let e2 = s[q];
            assert(s.contains(e1));
            assert(s.contains(e2));
            assert(s.to_multiset().count(e1) > 0);
            assert(s.to_multiset().count(e2) > 0);
            assert(rows.to_multiset().count(e1) > 0);
            assert(rows.to_multiset().count(e2) > 0);
            assert(rows.contains(e1));
            assert(rows.contains(e2));
            let i1 = choose|i: int| 0 <= i < rows.len() && rows[i] == e1;
            let i2 = choose|i: int| 0 <= i < rows.len() && rows[i] == e2;
            if i1 < i2 {
                assert(rows[i1].0 != rows[i2].0);
            } else if i2 < i1 {
                assert(rows[i2].0 != rows[i1].0);
            }
            assert(e1 == e2);
            let sr = s.remove(p);
            assert(sr[q - 1] == e1);
            sr.to_multiset_ensures();
            assert(sr.contains(e1));
            assert(s.to_multiset().remove(e1).count(e1) > 0);
            let rr = rows.remove(i1);
            rr.to_multiset_ensures();
            assert(rr.to_multiset() == rows.to_multiset().remove(e1));
            assert(rr.contains(e1));
            let i3 = choose|i: int| 0 <= i < rr.len() && rr[i] == e1;
            let i4 = if i3 < i1 { i3 } else { i3 + 1 };
            assert(rows[i4] == e1);
            if i4 < i1 {
                assert(rows[i4].0 != rows[i1].0);
            } else {
                assert(rows[i1].0 != rows[i4].0);
            }
        }
    }
}

/// Tree determinism: for two scans that hold the same rows, with no key twice,
/// the summarizer hashes the same bytes, whatever order the scans gave.
pub proof fn lemma_table_digest_deterministic(
    rows1: Seq<PairView>,
    rows2: Seq<PairView>,
    sorted1: Seq<PairView>,
    sorted2: Seq<PairView>,
)
    requires
        rows1.to_multiset() == rows2.to_multiset(),
        distinct_keys(rows1),
        sorted_by_key(sorted1),
        sorted1.to_multiset() == rows1.to_multiset(),
        sorted_by_key(sorted2),
        sorted2.to_multiset() == rows2.to_multiset(),
    ensures
        row_stream(sorted1) == row_stream(sorted2),
        blake3_of(row_stream(sorted1)) == blake3_of(row_stream(sorted2)),
{
    lemma_distinct_keys_transfer(rows1, sorted1);
    lemma_sorted_is_unique(sorted1, sorted2);
}

/// Replaying changes from no rows never gives two rows one key.
pub proof fn lemma_replay_unique(cs: Seq<ChangeView>)
    ensures
        unique_keys(replay(Seq::empty(), cs)),
    decreases cs.len(),
{
    if cs.len() > 0 {
        lemma_replay_unique(cs.drop_last());
        lemma_apply_keeps_unique(replay(Seq::empty(), cs.drop_last()), cs.last());
    }
}

/// The UTF-8 bytes of a table name hold no separator byte.
pub open spec fn table_name_ok(t: Seq<char>) -> bool {
    !encode_utf8(t).contains(SEPARATOR)
}

proof fn lemma_row_key_injective(t1: Seq<char>, i1: Seq<char>, t2: Seq<char>, i2: Seq<char>)
    requires
        table_name_ok(t1),
        table_name_ok(t2),
        crate::store::row_key_spec(t1, i1) == crate::store::row_key_spec(t2, i2),
    ensures
        t1 == t2,
        i1 == i2,
{
    let a = encode_utf8(t1);
    let b = encode_utf8(t2);
    let k = crate::store::row_key_spec(t1, i1);
    assert(k == crate::store::row_key_spec(t2, i2));
    if a.len() < b.len() {
        assert(k[a.len() as int] == SEPARATOR);
        assert(k[a.len() as int] == b[a.len() as int]);
        assert(b.contains(SEPARATOR));
    } else if b.len() < a.len() {
        assert(k[b.len() as int] == SEPARATOR);
        assert(k[b.len() as int] == a[b.len() as int]);
        assert(a.contains(SEPARATOR));
    }
    assert(a.len() == b.len());
    assert(a =~= k.subrange(0, a.len() as int));
    assert(b =~= k.subrange(0, b.len() as int));
    encode_utf8_decode_utf8(t1);
    encode_utf8_decode_utf8(t2);
    assert(encode_utf8(i1) =~= k.subrange((a.len() + 1) as int, k.len() as int));
    assert(encode_utf8(i2) =~= k.subrange((b.len() + 1) as int, k.len() as int));
    encode_utf8_decode_utf8(i1);
    encode_utf8_decode_utf8(i2);
}

/// Rows with distinct keys, whose tables hold no separator, have distinct row
/// keys in the store.
pub proof fn lemma_distinct_row_keys(rows: Seq<RowView>)
    requires
        unique_keys(rows),
        forall|i: int| 0 <= i < rows.len() ==> table_name_ok(#[trigger] rows[i].0),
    ensures
        distinct_row_keys(rows),
{
    assert forall|i: int, j: int|
        0 <= i < rows.len() && 0 <= j < rows.len() && i != j implies crate::store::row_key_spec(
        rows[i].0,
        rows[i].1,
    ) != crate::store::row_key_spec(rows[j].0, rows[j].1) by {
        if crate::store::row_key_spec(rows[i].0, rows[i].1) == crate::store::row_key_spec(
            rows[j].0,
            rows[j].1,
        ) {
            lemma_row_key_injective(rows[i].0, rows[i].1, rows[j].0, rows[j].1);
        }
    }
}

proof fn lemma_apply_keeps_tables(s: Seq<RowView>, c: ChangeView)
    requires
        forall|i: int| 0 <= i < s.len() ==> table_name_ok(#[trigger] s[i].0),
        table_name_ok(c.table()),
    ensures
        forall|i: int|
            0 <= i < apply_spec(s, c).len() ==> table_name_ok(#[trigger] apply_spec(s, c)[i].0),
{
    let k = key_index(s, c.table(), c.id());
    lemma_key_index_bounds(s, c.table(), c.id());
    let r = apply_spec(s, c);
    assert forall|i: int| 0 <= i < r.len() implies table_name_ok(#[trigger] r[i].0) by {
        match c {
            ChangeView::Delete { .. } => {
                if k >= 0 {
                    let i2 = if i < k { i } else { i + 1 };
                    assert(r[i] == s[i2]);
                }
            },
            _ => {
                if i < s.len() && i != k {
                    assert(r[i] == s[i]);
                }
            },
        }
    }
}

/// The rows that a replay materializes have distinct store keys, where every
/// replayed change names a table whose UTF-8 bytes hold no separator: the
/// condition under which the revert laws above apply to a revert's rows.
pub proof fn lemma_replay_row_keys_distinct(cs: Seq<ChangeView>)
    requires
        forall|j: int| 0 <= j < cs.len() ==> table_name_ok(#[trigger] cs[j].table()),
    ensures
        distinct_row_keys(replay(Seq::empty(), cs)),
{
    lemma_replay_tables(cs);
    lemma_replay_unique(cs);
    lemma_distinct_row_keys(replay(Seq::empty(), cs));
}

proof fn lemma_replay_tables(cs: Seq<ChangeView>)
    requires
        forall|j: int| 0 <= j < cs.len() ==> table_name_ok(#[trigger] cs[j].table()),
    ensures
        forall|i: int|
            0 <= i < replay(Seq::empty(), cs).len() ==> table_name_ok(
                #[trigger] replay(Seq::empty(), cs)[i].0,
            ),
    decreases cs.len(),
{
    if cs.len() > 0 {
        let p = cs.drop_last();
        assert forall|j: int| 0 <= j < p.len() implies table_name_ok(#[trigger] p[j].table()) by {
            assert(p[j] == cs[j]);
        }
        lemma_replay_tables(p);
        assert(table_name_ok(cs[cs.len() - 1].table()));
        lemma_apply_keeps_tables(replay(Seq::empty(), p), cs.last());
    }
}

/// The last 32 bytes of a stored envelope are the digest of the bytes before.
pub open spec fn envelope_intact(env: Seq<u8>) -> bool {
    env.len() >= 32 && env.subrange(env.len() - 32, env.len() as int) == blake3_of(
        env.subrange(0, env.len() - 32),
    )
}

/// Envelope integrity across a revert: every key that the revert's batch
/// neither lists as stale nor writes as a row keeps its bytes, so an intact
/// envelope stored there stays intact.
pub proof fn lemma_revert_keeps_envelopes(
    m: Map<Seq<u8>, Seq<u8>>,
    stale: Seq<Seq<u8>>,
    rows: Seq<RowView>,
    k: Seq<u8>,
)
    requires
        distinct_row_keys(rows),
        m.contains_key(k),
        !stale.contains(k),
        !is_row_key(k, rows),
    ensures
        apply_batch(m, revert_batch_spec(stale, rows)).contains_key(k),
        apply_batch(m, revert_batch_spec(stale, rows))[k] == m[k],
        envelope_intact(m[k]) ==> envelope_intact(apply_batch(m, revert_batch_spec(stale, rows))[k]),
{
    lemma_revert_converges(m, stale, rows);
    assert(apply_batch(m, revert_batch_spec(stale, rows)).contains_key(k) == m.contains_key(k));
}

} // verus!
