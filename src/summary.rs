use vstd::prelude::*;
use crate::envelope::{blake3_hash, blake3_of};

verus! {

broadcast use vstd::seq_lib::to_multiset_insert;

pub type Pair = (Vec<u8>, Vec<u8>);

pub type PairView = (Seq<u8>, Seq<u8>);

pub open spec fn pair_views(s: Seq<Pair>) -> Seq<PairView> {
    s.map_values(|p: Pair| (p.0@, p.1@))
}

/// Lexicographic order over raw bytes.
pub open spec fn lex_le(a: Seq<u8>, b: Seq<u8>) -> bool
    decreases a.len(),
{
    if a.len() == 0 {
        true
    } else if b.len() == 0 {
        false
    } else if a[0] != b[0] {
        a[0] < b[0]
    } else {
        lex_le(a.drop_first(), b.drop_first())
    }
}

/// Rows in ascending order of key.
pub open spec fn sorted_by_key(s: Seq<PairView>) -> bool {
    forall|i: int, j: int| 0 <= i < j < s.len() ==> lex_le(#[trigger] s[i].0, #[trigger] s[j].0)
}

/// The bytes that the summarizer hashes: each key, then its value, in order.
pub open spec fn row_stream(s: Seq<PairView>) -> Seq<u8>
    decreases s.len(),
{
    if s.len() == 0 {
        Seq::empty()
    } else {
        row_stream(s.drop_last()) + s.last().0 + s.last().1
    }
}

proof fn lemma_lex_total(a: Seq<u8>, b: Seq<u8>)
    ensures
        lex_le(a, b) || lex_le(b, a),
    decreases a.len(),
{
    if a.len() > 0 && b.len() > 0 && a[0] == b[0] {
        lemma_lex_total(a.drop_first(), b.drop_first());
    }
}

proof fn lemma_lex_trans(a: Seq<u8>, b: Seq<u8>, c: Seq<u8>)
    requires
        lex_le(a, b),
        lex_le(b, c),
    ensures
        lex_le(a, c),
    decreases a.len(),
{
    if a.len() > 0 && b.len() > 0 && c.len() > 0 && a[0] == b[0] && b[0] == c[0] {
        lemma_lex_trans(a.drop_first(), b.drop_first(), c.drop_first());
    }
}

/// Whether `a` is at most `b` in lexicographic byte order.
pub fn key_le(a: &[u8], b: &[u8]) -> (r: bool)
    ensures
        r == lex_le(a@, b@),
{
    let mut i: usize = 0;
    assert(a@.subrange(0, a@.len() as int) =~= a@);
    assert(b@.subrange(0, b@.len() as int) =~= b@);
    while i < a.len() && i < b.len()
        invariant
            0 <= i <= a@.len(),
            i <= b@.len(),
            lex_le(a@, b@) == lex_le(
                a@.subrange(i as int, a@.len() as int),
                b@.subrange(i as int, b@.len() as int),
            ),
        decreases a@.len() - i,
    {
        let ghost sa = a@.subrange(i as int, a@.len() as int);
        let ghost sb = b@.subrange(i as int, b@.len() as int);
        if a[i] != b[i] {
            return a[i] < b[i];
        }
        assert(sa.drop_first() =~= a@.subrange(i + 1, a@.len() as int));
        assert(sb.drop_first() =~= b@.subrange(i + 1, b@.len() as int));
        i = i + 1;
    }
    i == a.len()
}

fn copy_bytes(b: &Vec<u8>) -> (r: Vec<u8>)
    ensures
        r@ == b@,
{
    let mut out: Vec<u8> = Vec::new();
    let mut i: usize = 0;
    while i < b.len()
        invariant
            0 <= i <= b@.len(),
            out@ == b@.subrange(0, i as int),
        decreases b@.len() - i,
    {
        out.push(b[i]);
        i = i + 1;
        assert(out@ =~= b@.subrange(0, i as int));
    }
    assert(b@.subrange(0, i as int) =~= b@);
    out
}

/// The rows in ascending order of key (lexicographic over bytes).
pub fn sort_rows(rows: &Vec<Pair>) -> (r: Vec<Pair>)
    ensures
        sorted_by_key(pair_views(r@)),
        pair_views(r@).to_multiset() == pair_views(rows@).to_multiset(),
{
    let mut out: Vec<Pair> = Vec::new();
    let mut i: usize = 0;
    assert(pair_views(out@) =~= pair_views(rows@).subrange(0, 0));
    while i < rows.len()
        invariant
            0 <= i <= rows@.len(),
            sorted_by_key(pair_views(out@)),
            pair_views(out@).to_multiset() == pair_views(rows@).subrange(0, i as int).to_multiset(),
        decreases rows@.len() - i,
    {
        let x: Pair = (copy_bytes(&rows[i].0), copy_bytes(&rows[i].1));
        let ghost ov = pair_views(out@);
        let ghost xv = (x.0@, x.1@);
        let mut p: usize = out.len();
        while p > 0 && !key_le(out[p - 1].0.as_slice(), x.0.as_slice())
            invariant
                0 <= p <= out@.len(),
                ov == pair_views(out@),
                xv == (x.0@, x.1@),
                forall|k: int| p <= k < ov.len() ==> lex_le(xv.0, #[trigger] ov[k].0),
            decreases p,
        {
            proof {
                lemma_lex_total(ov[p - 1].0, xv.0);
            }
            p = p - 1;
        }
        proof {
            if p > 0 {
                assert(lex_le(ov[p - 1].0, xv.0));
                assert forall|k: int| 0 <= k < p implies lex_le(#[trigger] ov[k].0, xv.0) by {
                    if k < p - 1 {
                        lemma_lex_trans(ov[k].0, ov[p - 1].0, xv.0);
                    }
                }
            }
        }
        out.insert(p, x);
        proof {
            assert(pair_views(out@) =~= ov.insert(p as int, xv));
            let nv = ov.insert(p as int, xv);
            assert forall|a: int, b: int| 0 <= a < b < nv.len() implies lex_le(
                #[trigger] nv[a].0,
                #[trigger] nv[b].0,
            ) by {
                if a < p && b > p {
                    lemma_lex_trans(nv[a].0, xv.0, nv[b].0);
                }
            }
            assert(pair_views(rows@).subrange(0, i + 1) =~= pair_views(rows@).subrange(
                0,
                i as int,
            ).push(xv));
            vstd::seq_lib::to_multiset_build(pair_views(rows@).subrange(0, i as int), xv);
        }
        i = i + 1;
    }
    assert(pair_views(rows@).subrange(0, i as int) =~= pair_views(rows@));
    out
}

/// The digest of a table's live rows: the rows are put in ascending order of
/// key, and each key and then its value are hashed in that order, with no
/// separator.
pub fn table_digest(rows: &Vec<Pair>) -> (r: [u8; 32])
    ensures
        exists|s: Seq<PairView>|
            sorted_by_key(s) && s.to_multiset() == pair_views(rows@).to_multiset() && r@
                == blake3_of(#[trigger] row_stream(s)),
{
    let sorted = sort_rows(rows);
    let ghost sv = pair_views(sorted@);
    let mut stream: Vec<u8> = Vec::new();
    let mut i: usize = 0;
    while i < sorted.len()
        invariant
            0 <= i <= sorted@.len(),
            sv == pair_views(sorted@),
            stream@ == row_stream(sv.subrange(0, i as int)),
        decreases sorted@.len() - i,
    {
        let ghost before = stream@;
        let mut j: usize = 0;
        let k = &sorted[i].0;
        while j < k.len()
            invariant
                0 <= j <= k@.len(),
                stream@ == before + k@.subrange(0, j as int),
            decreases k@.len() - j,
        {
            stream.push(k[j]);
            j = j + 1;
            assert(stream@ =~= before + k@.subrange(0, j as int));
        }
        assert(k@.subrange(0, j as int) =~= k@);
        let ghost mid = stream@;
        let v = &sorted[i].1;
        let mut j: usize = 0;
        while j < v.len()
            invariant
                0 <= j <= v@.len(),
                stream@ == mid + v@.subrange(0, j as int),
            decreases v@.len() - j,
        {
            stream.push(v[j]);
            j = j + 1;
            assert(stream@ =~= mid + v@.subrange(0, j as int));
        }
        assert(v@.subrange(0, j as int) =~= v@);
        assert(sv.subrange(0, i + 1).drop_last() =~= sv.subrange(0, i as int));
        i = i + 1;
    }
    assert(sv.subrange(0, i as int) =~= sv);
    blake3_hash(stream.as_slice())
}

} // verus!
