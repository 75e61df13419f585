use vstd::prelude::*;
use vstd::utf8::*;
use crate::model::{Change, ChangeView, Commit, CommitView, TreeEntry};

verus! {

broadcast use vstd::utf8::group_utf8_lib;

// ---------------------------------------------------------------------------
// The byte format of a commit.
//
// Integers are little-endian; a length is a u64; a string is its length in
// bytes followed by its UTF-8 bytes; a change starts with a four-byte variant
// tag; a commit id is its 32 raw bytes.
// ---------------------------------------------------------------------------

/// The eight little-endian bytes of `n`.
pub open spec fn le64(n: u64) -> Seq<u8> {
    seq![
        (n & 0xff) as u8,
        ((n >> 8u64) & 0xff) as u8,
        ((n >> 16u64) & 0xff) as u8,
        ((n >> 24u64) & 0xff) as u8,
        ((n >> 32u64) & 0xff) as u8,
        ((n >> 40u64) & 0xff) as u8,
        ((n >> 48u64) & 0xff) as u8,
        ((n >> 56u64) & 0xff) as u8,
    ]
}

/// A length-prefixed byte blob.
pub open spec fn enc_bytes(b: Seq<u8>) -> Seq<u8> {
    le64(b.len() as u64) + b
}

/// A length-prefixed UTF-8 string.
pub open spec fn enc_str(s: Seq<char>) -> Seq<u8> {
    enc_bytes(encode_utf8(s))
}

/// The four-byte tag of a change variant.
pub open spec fn enc_tag(t: u8) -> Seq<u8> {
    seq![t, 0u8, 0u8, 0u8]
}

pub open spec fn enc_change(c: ChangeView) -> Seq<u8> {
    match c {
        ChangeView::Insert { table, id, value } => enc_tag(0) + enc_str(table) + enc_str(id)
            + enc_bytes(value),
        ChangeView::Update { table, id, value } => enc_tag(1) + enc_str(table) + enc_str(id)
            + enc_bytes(value),
        ChangeView::Delete { table, id } => enc_tag(2) + enc_str(table) + enc_str(id),
    }
}

pub open spec fn enc_changes(s: Seq<ChangeView>) -> Seq<u8>
    decreases s.len(),
{
    if s.len() == 0 {
        Seq::empty()
    } else {
        enc_changes(s.drop_last()) + enc_change(s.last())
    }
}

pub open spec fn enc_ids(s: Seq<Seq<u8>>) -> Seq<u8>
    decreases s.len(),
{
    if s.len() == 0 {
        Seq::empty()
    } else {
        enc_ids(s.drop_last()) + s.last()
    }
}

pub open spec fn enc_tree(s: Seq<(Seq<char>, Seq<u8>)>) -> Seq<u8>
    decreases s.len(),
{
    if s.len() == 0 {
        Seq::empty()
    } else {
        enc_tree(s.drop_last()) + enc_str(s.last().0) + s.last().1
    }
}

/// The bare encoding of a commit.
pub open spec fn enc_commit(c: CommitView) -> Seq<u8> {
    le64(c.parents.len() as u64) + enc_ids(c.parents) + enc_str(c.message) + le64(c.timestamp)
        + le64(c.changes.len() as u64) + enc_changes(c.changes) + le64(c.tree.len() as u64)
        + enc_tree(c.tree)
}

// ---------------------------------------------------------------------------
// Byte-level facts.
// ---------------------------------------------------------------------------

proof fn lemma_le64_bytes(b0: u8, b1: u8, b2: u8, b3: u8, b4: u8, b5: u8, b6: u8, b7: u8, n: u64)
    requires
        n == (b0 as u64) | ((b1 as u64) << 8u64) | ((b2 as u64) << 16u64) | ((b3 as u64)
            << 24u64) | ((b4 as u64) << 32u64) | ((b5 as u64) << 40u64) | ((b6 as u64) << 48u64)
            | ((b7 as u64) << 56u64),
    ensures
        (n & 0xff) as u8 == b0,
        ((n >> 8u64) & 0xff) as u8 == b1,
        ((n >> 16u64) & 0xff) as u8 == b2,
        ((n >> 24u64) & 0xff) as u8 == b3,
        ((n >> 32u64) & 0xff) as u8 == b4,
        ((n >> 40u64) & 0xff) as u8 == b5,
        ((n >> 48u64) & 0xff) as u8 == b6,
        ((n >> 56u64) & 0xff) as u8 == b7,
{
    assert((n & 0xff) as u8 == b0) by (bit_vector)
        requires
            n == (b0 as u64) | ((b1 as u64) << 8u64) | ((b2 as u64) << 16u64) | ((b3 as u64)
                << 24u64) | ((b4 as u64) << 32u64) | ((b5 as u64) << 40u64) | ((b6 as u64)
                << 48u64) | ((b7 as u64) << 56u64),
    ;
    assert(((n >> 8u64) & 0xff) as u8 == b1) by (bit_vector)
        requires
            n == (b0 as u64) | ((b1 as u64) << 8u64) | ((b2 as u64) << 16u64) | ((b3 as u64)
                << 24u64) | ((b4 as u64) << 32u64) | ((b5 as u64) << 40u64) | ((b6 as u64)
                << 48u64) | ((b7 as u64) << 56u64),
    ;
    assert(((n >> 16u64) & 0xff) as u8 == b2) by (bit_vector)
        requires
            n == (b0 as u64) | ((b1 as u64) << 8u64) | ((b2 as u64) << 16u64) | ((b3 as u64)
                << 24u64) | ((b4 as u64) << 32u64) | ((b5 as u64) << 40u64) | ((b6 as u64)
                << 48u64) | ((b7 as u64) << 56u64),
    ;
    assert(((n >> 24u64) & 0xff) as u8 == b3) by (bit_vector)
        requires
            n == (b0 as u64) | ((b1 as u64) << 8u64) | ((b2 as u64) << 16u64) | ((b3 as u64)
                << 24u64) | ((b4 as u64) << 32u64) | ((b5 as u64) << 40u64) | ((b6 as u64)
                << 48u64) | ((b7 as u64) << 56u64),
    ;
    assert(((n >> 32u64) & 0xff) as u8 == b4) by (bit_vector)
        requires
            n == (b0 as u64) | ((b1 as u64) << 8u64) | ((b2 as u64) << 16u64) | ((b3 as u64)
                << 24u64) | ((b4 as u64) << 32u64) | ((b5 as u64) << 40u64) | ((b6 as u64)
                << 48u64) | ((b7 as u64) << 56u64),
    ;
    assert(((n >> 40u64) & 0xff) as u8 == b5) by (bit_vector)
        requires
            n == (b0 as u64) | ((b1 as u64) << 8u64) | ((b2 as u64) << 16u64) | ((b3 as u64)
                << 24u64) | ((b4 as u64) << 32u64) | ((b5 as u64) << 40u64) | ((b6 as u64)
                << 48u64) | ((b7 as u64) << 56u64),
    ;
    assert(((n >> 48u64) & 0xff) as u8 == b6) by (bit_vector)
        requires
            n == (b0 as u64) | ((b1 as u64) << 8u64) | ((b2 as u64) << 16u64) | ((b3 as u64)
                << 24u64) | ((b4 as u64) << 32u64) | ((b5 as u64) << 40u64) | ((b6 as u64)
                << 48u64) | ((b7 as u64) << 56u64),
    ;
    assert(((n >> 56u64) & 0xff) as u8 == b7) by (bit_vector)
        requires
            n == (b0 as u64) | ((b1 as u64) << 8u64) | ((b2 as u64) << 16u64) | ((b3 as u64)
                << 24u64) | ((b4 as u64) << 32u64) | ((b5 as u64) << 40u64) | ((b6 as u64)
                << 48u64) | ((b7 as u64) << 56u64),
    ;
}

/// Two numbers with the same little-endian bytes are equal.
pub proof fn lemma_le64_injective(a: u64, b: u64)
    requires
        le64(a) == le64(b),
    ensures
        a == b,
{
    assert(le64(a)[0] == le64(b)[0]);
    assert(le64(a)[1] == le64(b)[1]);
    assert(le64(a)[2] == le64(b)[2]);
    assert(le64(a)[3] == le64(b)[3]);
    assert(le64(a)[4] == le64(b)[4]);
    assert(le64(a)[5] == le64(b)[5]);
    assert(le64(a)[6] == le64(b)[6]);
    assert(le64(a)[7] == le64(b)[7]);
    assert(a == b) by (bit_vector)
        requires
            (a & 0xff) as u8 == (b & 0xff) as u8,
            ((a >> 8u64) & 0xff) as u8 == ((b >> 8u64) & 0xff) as u8,
            ((a >> 16u64) & 0xff) as u8 == ((b >> 16u64) & 0xff) as u8,
            ((a >> 24u64) & 0xff) as u8 == ((b >> 24u64) & 0xff) as u8,
            ((a >> 32u64) & 0xff) as u8 == ((b >> 32u64) & 0xff) as u8,
            ((a >> 40u64) & 0xff) as u8 == ((b >> 40u64) & 0xff) as u8,
            ((a >> 48u64) & 0xff) as u8 == ((b >> 48u64) & 0xff) as u8,
            ((a >> 56u64) & 0xff) as u8 == ((b >> 56u64) & 0xff) as u8,
    ;
}

proof fn lemma_split(s: Seq<u8>, a: int, m: int, c: int)
    requires
        0 <= a <= m <= c <= s.len(),
    ensures
        s.subrange(a, c) == s.subrange(a, m) + s.subrange(m, c),
{
    assert(s.subrange(a, c) =~= s.subrange(a, m) + s.subrange(m, c));
}

/// `b` holds `x` from position `pos` on.
pub open spec fn starts(b: Seq<u8>, pos: int, x: Seq<u8>) -> bool {
    0 <= pos && pos + x.len() <= b.len() && b.subrange(pos, pos + x.len()) == x
}

proof fn lemma_starts_split(b: Seq<u8>, pos: int, x: Seq<u8>, y: Seq<u8>)
    requires
        starts(b, pos, x + y),
    ensures
        starts(b, pos, x),
        starts(b, pos + x.len(), y),
{
    let whole = b.subrange(pos, pos + x.len() + y.len());
    assert(whole == x + y);
    assert(b.subrange(pos, pos + x.len()) =~= whole.subrange(0, x.len() as int));
    assert((x + y).subrange(0, x.len() as int) =~= x);
    assert(b.subrange(pos + x.len(), pos + x.len() + y.len()) =~= whole.subrange(
        x.len() as int,
        (x.len() + y.len()) as int,
    ));
    assert((x + y).subrange(x.len() as int, (x.len() + y.len()) as int) =~= y);
}

// ---------------------------------------------------------------------------
// Encoding.
// ---------------------------------------------------------------------------

fn put_u64(out: &mut Vec<u8>, n: u64)
    ensures
        final(out)@ == old(out)@ + le64(n),
{
    out.push((n & 0xff) as u8);
    out.push(((n >> 8u64) & 0xff) as u8);
    out.push(((n >> 16u64) & 0xff) as u8);
    out.push(((n >> 24u64) & 0xff) as u8);
    out.push(((n >> 32u64) & 0xff) as u8);
    out.push(((n >> 40u64) & 0xff) as u8);
    out.push(((n >> 48u64) & 0xff) as u8);
    out.push(((n >> 56u64) & 0xff) as u8);
    assert(final(out)@ =~= old(out)@ + le64(n));
}

fn put_raw(out: &mut Vec<u8>, b: &[u8])
    ensures
        final(out)@ == old(out)@ + b@,
{
    let mut i: usize = 0;
    while i < b.len()
        invariant
            0 <= i <= b@.len(),
            out@ == old(out)@ + b@.subrange(0, i as int),
        decreases b@.len() - i,
    {
        out.push(b[i]);
        i = i + 1;
        assert(out@ =~= old(out)@ + b@.subrange(0, i as int));
    }
    assert(b@.subrange(0, b@.len() as int) =~= b@);
}

fn put_bytes(out: &mut Vec<u8>, b: &[u8])
    ensures
        final(out)@ == old(out)@ + enc_bytes(b@),
{
    put_u64(out, b.len() as u64);
    put_raw(out, b);
    assert(out@ =~= old(out)@ + enc_bytes(b@));
}

fn put_str(out: &mut Vec<u8>, s: &String)
    ensures
        final(out)@ == old(out)@ + enc_str(s@),
{
    let b = s.as_str().as_bytes();
    put_bytes(out, b);
}

fn put_change(out: &mut Vec<u8>, c: &Change)
    ensures
        final(out)@ == old(out)@ + enc_change(c@),
{
    match c {
        Change::Insert { table, id, value } => {
            put_raw(out, &[0u8, 0u8, 0u8, 0u8]);
            put_str(out, table);
            put_str(out, id);
            put_bytes(out, value.as_slice());
        },
        Change::Update { table, id, value } => {
            put_raw(out, &[1u8, 0u8, 0u8, 0u8]);
            put_str(out, table);
            put_str(out, id);
            put_bytes(out, value.as_slice());
        },
        Change::Delete { table, id } => {
            put_raw(out, &[2u8, 0u8, 0u8, 0u8]);
            put_str(out, table);
            put_str(out, id);
        },
    }
    assert(out@ =~= old(out)@ + enc_change(c@));
}

/// The bare encoding of a commit.
pub fn encode_commit(c: &Commit) -> (r: Vec<u8>)
    ensures
        r@ == enc_commit(c@),
{
    let mut out: Vec<u8> = Vec::new();
    put_u64(&mut out, c.parents.len() as u64);
    let mut i: usize = 0;
    while i < c.parents.len()
        invariant
            0 <= i <= c.parents@.len(),
            out@ == le64(c.parents@.len() as u64) + enc_ids(c@.parents.subrange(0, i as int)),
        decreases c.parents@.len() - i,
    {
        let ghost before = out@;
        put_raw(&mut out, c.parents[i].as_slice());
        i = i + 1;
        assert(c@.parents.subrange(0, i as int).drop_last() =~= c@.parents.subrange(0, i - 1));
        assert(out@ =~= le64(c.parents@.len() as u64) + enc_ids(c@.parents.subrange(0, i as int)));
    }
    assert(c@.parents.subrange(0, i as int) =~= c@.parents);
    put_str(&mut out, &c.message);
    put_u64(&mut out, c.timestamp);
    put_u64(&mut out, c.changes.len() as u64);
    let ghost prefix = out@;
    let mut i: usize = 0;
    while i < c.changes.len()
        invariant
            0 <= i <= c.changes@.len(),
            out@ == prefix + enc_changes(c@.changes.subrange(0, i as int)),
        decreases c.changes@.len() - i,
    {
        put_change(&mut out, &c.changes[i]);
        i = i + 1;
        assert(c@.changes.subrange(0, i as int).drop_last() =~= c@.changes.subrange(0, i - 1));
        assert(out@ =~= prefix + enc_changes(c@.changes.subrange(0, i as int)));
    }
    assert(c@.changes.subrange(0, i as int) =~= c@.changes);
    put_u64(&mut out, c.tree.len() as u64);
    let ghost prefix2 = out@;
    let mut i: usize = 0;
    while i < c.tree.len()
        invariant
            0 <= i <= c.tree@.len(),
            out@ == prefix2 + enc_tree(c@.tree.subrange(0, i as int)),
        decreases c.tree@.len() - i,
    {
        put_str(&mut out, &c.tree[i].table);
        put_raw(&mut out, c.tree[i].digest.as_slice());
        i = i + 1;
        assert(c@.tree.subrange(0, i as int).drop_last() =~= c@.tree.subrange(0, i - 1));
        assert(out@ =~= prefix2 + enc_tree(c@.tree.subrange(0, i as int)));
    }
    assert(c@.tree.subrange(0, i as int) =~= c@.tree);
    assert(out@ =~= enc_commit(c@));
    out
}

// ---------------------------------------------------------------------------
// Decoding. Every value that a reader returns re-encodes to exactly the bytes
// that it consumed.
// ---------------------------------------------------------------------------

/// Relies on `String::from_utf8`: it succeeds exactly on valid UTF-8, and the
/// string then holds the characters that the bytes encode.
#[verifier::external_body]
fn string_from_utf8(v: Vec<u8>) -> (r: Option<String>)
    ensures
        r is Some <==> valid_utf8(v@),
        r matches Some(s) ==> s@ == decode_utf8(v@),
{
    String::from_utf8(v).ok()
}

fn read_u64(b: &[u8], pos: usize) -> (r: Option<u64>)
    requires
        pos <= b@.len(),
    ensures
        r is Some <==> pos + 8 <= b@.len(),
        r matches Some(n) ==> b@.subrange(pos as int, pos + 8) == le64(n),
        forall|m: u64| #[trigger] starts(b@, pos as int, le64(m)) ==> r == Some(m),
{
    if b.len() - pos < 8 {
        return None;
    }
    let n: u64 = (b[pos] as u64) | ((b[pos + 1] as u64) << 8u64) | ((b[pos + 2] as u64) << 16u64)
        | ((b[pos + 3] as u64) << 24u64) | ((b[pos + 4] as u64) << 32u64) | ((b[pos + 5] as u64)
        << 40u64) | ((b[pos + 6] as u64) << 48u64) | ((b[pos + 7] as u64) << 56u64);
    proof {
        lemma_le64_bytes(
            b[pos as int],
            b[pos + 1],
            b[pos + 2],
            b[pos + 3],
            b[pos + 4],
            b[pos + 5],
            b[pos + 6],
            b[pos + 7],
            n,
        );
        assert(b@.subrange(pos as int, pos + 8) =~= le64(n));
        assert forall|m: u64| #[trigger] starts(b@, pos as int, le64(m)) implies n == m by {
            lemma_le64_injective(n, m);
        }
    }
    Some(n)
}

fn copy_range(b: &[u8], start: usize, end: usize) -> (r: Vec<u8>)
    requires
        start <= end <= b@.len(),
    ensures
        r@ == b@.subrange(start as int, end as int),
{
    let mut out: Vec<u8> = Vec::new();
    let mut i: usize = start;
    while i < end
        invariant
            start <= i <= end <= b@.len(),
            out@ == b@.subrange(start as int, i as int),
        decreases end - i,
    {
        out.push(b[i]);
        i = i + 1;
        assert(out@ =~= b@.subrange(start as int, i as int));
    }
    out
}

/// The first `n` bytes of `b`.
pub fn copy_prefix(b: &[u8], n: usize) -> (r: Vec<u8>)
    requires
        n <= b@.len(),
    ensures
        r@ == b@.subrange(0, n as int),
{
    copy_range(b, 0, n)
}

fn read_bytes(b: &[u8], pos: usize) -> (r: Option<(Vec<u8>, usize)>)
    requires
        pos <= b@.len(),
    ensures
        r matches Some((v, np)) ==> pos <= np <= b@.len() && b@.subrange(pos as int, np as int)
            == enc_bytes(v@),
        forall|v: Seq<u8>| #[trigger]
            starts(b@, pos as int, enc_bytes(v)) ==> (r matches Some((w, np)) && w@ == v && np
                == pos + enc_bytes(v).len()),
{
    let len = b.len();
    proof {
        assert forall|v: Seq<u8>| #[trigger] starts(b@, pos as int, enc_bytes(v)) implies starts(
            b@,
            pos as int,
            le64(v.len() as u64),
        ) && starts(b@, pos + 8, v) && v.len() < 0x1_0000_0000_0000_0000 by {
            lemma_starts_split(b@, pos as int, le64(v.len() as u64), v);
        }
    }
    let n = match read_u64(b, pos) {
        Some(n) => n,
        None => return None,
    };
    let start = pos + 8;
    if n > (b.len() - start) as u64 {
        return None;
    }
    let end = start + n as usize;
    let v = copy_range(b, start, end);
    proof {
        lemma_split(b@, pos as int, start as int, end as int);
        assert forall|w: Seq<u8>| #[trigger] starts(b@, pos as int, enc_bytes(w)) implies v@ == w
            && end == pos + enc_bytes(w).len() by {
            assert(starts(b@, pos as int, le64(w.len() as u64)));
        }
    }
    Some((v, end))
}

fn read_str(b: &[u8], pos: usize) -> (r: Option<(String, usize)>)
    requires
        pos <= b@.len(),
    ensures
        r matches Some((s, np)) ==> pos <= np <= b@.len() && b@.subrange(pos as int, np as int)
            == enc_str(s@),
        forall|t: Seq<char>| #[trigger]
            starts(b@, pos as int, enc_str(t)) ==> (r matches Some((s, np)) && s@ == t && np == pos
                + enc_str(t).len()),
{
    proof {
        assert forall|t: Seq<char>| #[trigger] starts(b@, pos as int, enc_str(t)) implies starts(
            b@,
            pos as int,
            enc_bytes(encode_utf8(t)),
        ) by {}
    }
    let (v, np) = match read_bytes(b, pos) {
        Some(x) => x,
        None => return None,
    };
    let ghost raw = v@;
    match string_from_utf8(v) {
        Some(s) => {
            proof {
                decode_utf8_encode_utf8(raw);
                assert forall|t: Seq<char>| #[trigger] starts(b@, pos as int, enc_str(t)) implies s@
                    == t by {
                    assert(starts(b@, pos as int, enc_bytes(encode_utf8(t))));
                    encode_utf8_decode_utf8(t);
                }
            }
            Some((s, np))
        },
        None => {
            proof {
                assert forall|t: Seq<char>| #[trigger] starts(b@, pos as int, enc_str(t)) implies false by {
                    assert(starts(b@, pos as int, enc_bytes(encode_utf8(t))));
                    encode_utf8_valid_utf8(t);
                }
            }
            None
        },
    }
}

fn read_id(b: &[u8], pos: usize) -> (r: Option<[u8; 32]>)
    requires
        pos <= b@.len(),
    ensures
        r is Some <==> pos + 32 <= b@.len(),
        r matches Some(a) ==> b@.subrange(pos as int, pos + 32) == a@,
        forall|x: Seq<u8>| #[trigger]
            starts(b@, pos as int, x) && x.len() == 32 ==> (r matches Some(a) && a@ == x),
{
    let len = b.len();
    if b.len() - pos < 32 {
        return None;
    }
    let mut a: [u8; 32] = [0u8; 32];
    let mut i: usize = 0;
    while i < 32
        invariant
            0 <= i <= 32,
            pos + 32 <= b@.len(),
            len == b@.len(),
            forall|j: int| 0 <= j < i ==> a@[j] == b@[pos + j],
        decreases 32 - i,
    {
        a[i] = b[pos + i];
        i = i + 1;
    }
    assert(b@.subrange(pos as int, pos + 32) =~= a@);
    Some(a)
}

fn read_tag(b: &[u8], pos: usize) -> (r: Option<u8>)
    requires
        pos <= b@.len(),
    ensures
        r matches Some(t) ==> pos + 4 <= b@.len() && b@.subrange(pos as int, pos + 4)
            == enc_tag(t),
        forall|t: u8| #[trigger] starts(b@, pos as int, enc_tag(t)) ==> r == Some(t),
{
    if b.len() - pos < 4 {
        return None;
    }
    proof {
        assert forall|t: u8| #[trigger] starts(b@, pos as int, enc_tag(t)) implies b@[pos + 1] == 0
            && b@[pos + 2] == 0 && b@[pos + 3] == 0 && b@[pos as int] == t by {
            assert(b@.subrange(pos as int, pos + 4)[0] == t);
            assert(b@.subrange(pos as int, pos + 4)[1] == 0);
            assert(b@.subrange(pos as int, pos + 4)[2] == 0);
            assert(b@.subrange(pos as int, pos + 4)[3] == 0);
        }
    }
    if b[pos + 1] != 0 || b[pos + 2] != 0 || b[pos + 3] != 0 {
        return None;
    }
    assert(b@.subrange(pos as int, pos + 4) =~= enc_tag(b[pos as int]));
    Some(b[pos])
}

fn read_change(b: &[u8], pos: usize) -> (r: Option<(Change, usize)>)
    requires
        pos <= b@.len(),
    ensures
        r matches Some((c, np)) ==> pos <= np <= b@.len() && b@.subrange(pos as int, np as int)
            == enc_change(c@),
        forall|cv: ChangeView| #[trigger]
            starts(b@, pos as int, enc_change(cv)) ==> (r matches Some((c, np)) && c@ == cv && np
                == pos + enc_change(cv).len()),
{
    let len = b.len();
    proof {
        assert forall|cv: ChangeView| #[trigger] starts(b@, pos as int, enc_change(cv)) implies {
            let tg: u8 = match cv {
                ChangeView::Insert { .. } => 0u8,
                ChangeView::Update { .. } => 1u8,
                ChangeView::Delete { .. } => 2u8,
            };
            &&& starts(b@, pos as int, enc_tag(tg))
            &&& starts(b@, pos + 4, enc_str(cv.table()))
            &&& starts(b@, pos + 4 + enc_str(cv.table()).len(), enc_str(cv.id()))
            &&& (match cv {
                ChangeView::Delete { .. } => true,
                ChangeView::Insert { value, .. } => starts(
                    b@,
                    pos + 4 + enc_str(cv.table()).len() + enc_str(cv.id()).len(),
                    enc_bytes(value),
                ),
                ChangeView::Update { value, .. } => starts(
                    b@,
                    pos + 4 + enc_str(cv.table()).len() + enc_str(cv.id()).len(),
                    enc_bytes(value),
                ),
            })
        } by {
            match cv {
                ChangeView::Insert { table, id, value } => {
                    lemma_starts_split(b@, pos as int, enc_tag(0) + enc_str(table) + enc_str(id), enc_bytes(value));
                    lemma_starts_split(b@, pos as int, enc_tag(0) + enc_str(table), enc_str(id));
                    lemma_starts_split(b@, pos as int, enc_tag(0), enc_str(table));
                },
                ChangeView::Update { table, id, value } => {
                    lemma_starts_split(b@, pos as int, enc_tag(1) + enc_str(table) + enc_str(id), enc_bytes(value));
                    lemma_starts_split(b@, pos as int, enc_tag(1) + enc_str(table), enc_str(id));
                    lemma_starts_split(b@, pos as int, enc_tag(1), enc_str(table));
                },
                ChangeView::Delete { table, id } => {
                    lemma_starts_split(b@, pos as int, enc_tag(2) + enc_str(table), enc_str(id));
                    lemma_starts_split(b@, pos as int, enc_tag(2), enc_str(table));
                },
            }
        }
    }
    let tag = match read_tag(b, pos) {
        Some(t) => t,
        None => return None,
    };
    if tag > 2 {
        return None;
    }
    let at_table = pos + 4;
    let (table, at_id) = match read_str(b, at_table) {
        Some(x) => x,
        None => return None,
    };
    let (id, at_value) = match read_str(b, at_id) {
        Some(x) => x,
        None => return None,
    };
    proof {
        lemma_split(b@, pos as int, at_table as int, at_id as int);
        lemma_split(b@, pos as int, at_id as int, at_value as int);
    }
    if tag == 2 {
        let c = Change::Delete { table, id };
        assert(b@.subrange(pos as int, at_value as int) =~= enc_change(c@));
        return Some((c, at_value));
    }
    let (value, at_end) = match read_bytes(b, at_value) {
        Some(x) => x,
        None => return None,
    };
    proof {
        lemma_split(b@, pos as int, at_value as int, at_end as int);
    }
    let c = if tag == 0 {
        Change::Insert { table, id, value }
    } else {
        Change::Update { table, id, value }
    };
    assert(b@.subrange(pos as int, at_end as int) =~= enc_change(c@));
    Some((c, at_end))
}

/// Every parent id and every tree digest is 32 bytes long, as in the view of
/// a `Commit`.
pub open spec fn ids_wf(cv: CommitView) -> bool {
    &&& forall|i: int| 0 <= i < cv.parents.len() ==> #[trigger] cv.parents[i].len() == 32
    &&& forall|i: int| 0 <= i < cv.tree.len() ==> #[trigger] cv.tree[i].1.len() == 32
}

pub open spec fn off_msg(cv: CommitView) -> int {
    8 + enc_ids(cv.parents).len() as int
}

pub open spec fn off_ts(cv: CommitView) -> int {
    off_msg(cv) + enc_str(cv.message).len()
}

pub open spec fn off_changes(cv: CommitView) -> int {
    off_ts(cv) + 16
}

pub open spec fn off_tree(cv: CommitView) -> int {
    off_changes(cv) + enc_changes(cv.changes).len() + 8
}

proof fn lemma_commit_parts(b: Seq<u8>, cv: CommitView)
    requires
        starts(b, 0, enc_commit(cv)),
    ensures
        starts(b, 0, le64(cv.parents.len() as u64)),
        starts(b, 8, enc_ids(cv.parents)),
        starts(b, off_msg(cv), enc_str(cv.message)),
        starts(b, off_ts(cv), le64(cv.timestamp)),
        starts(b, off_ts(cv) + 8, le64(cv.changes.len() as u64)),
        starts(b, off_changes(cv), enc_changes(cv.changes)),
        starts(b, off_changes(cv) + enc_changes(cv.changes).len(), le64(cv.tree.len() as u64)),
        starts(b, off_tree(cv), enc_tree(cv.tree)),
        off_tree(cv) + enc_tree(cv.tree).len() == enc_commit(cv).len(),
{
    let a1 = le64(cv.parents.len() as u64);
    let a2 = a1 + enc_ids(cv.parents);
    let a3 = a2 + enc_str(cv.message);
    let a4 = a3 + le64(cv.timestamp);
    let a5 = a4 + le64(cv.changes.len() as u64);
    let a6 = a5 + enc_changes(cv.changes);
    let a7 = a6 + le64(cv.tree.len() as u64);
    lemma_starts_split(b, 0, a7, enc_tree(cv.tree));
    lemma_starts_split(b, 0, a6, le64(cv.tree.len() as u64));
    lemma_starts_split(b, 0, a5, enc_changes(cv.changes));
    lemma_starts_split(b, 0, a4, le64(cv.changes.len() as u64));
    lemma_starts_split(b, 0, a3, le64(cv.timestamp));
    lemma_starts_split(b, 0, a2, enc_str(cv.message));
    lemma_starts_split(b, 0, a1, enc_ids(cv.parents));
}

proof fn lemma_ids_prefix(b: Seq<u8>, p: int, s: Seq<Seq<u8>>, k: int)
    requires
        starts(b, p, enc_ids(s)),
        0 <= k <= s.len(),
    ensures
        starts(b, p, enc_ids(s.subrange(0, k))),
    decreases s.len(),
{
    if k == s.len() {
        assert(s.subrange(0, k) =~= s);
    } else {
        lemma_starts_split(b, p, enc_ids(s.drop_last()), s.last());
        lemma_ids_prefix(b, p, s.drop_last(), k);
        assert(s.drop_last().subrange(0, k) =~= s.subrange(0, k));
    }
}

proof fn lemma_changes_prefix(b: Seq<u8>, p: int, s: Seq<ChangeView>, k: int)
    requires
        starts(b, p, enc_changes(s)),
        0 <= k <= s.len(),
    ensures
        starts(b, p, enc_changes(s.subrange(0, k))),
    decreases s.len(),
{
    if k == s.len() {
        assert(s.subrange(0, k) =~= s);
    } else {
        lemma_starts_split(b, p, enc_changes(s.drop_last()), enc_change(s.last()));
        lemma_changes_prefix(b, p, s.drop_last(), k);
        assert(s.drop_last().subrange(0, k) =~= s.subrange(0, k));
    }
}

proof fn lemma_tree_prefix(b: Seq<u8>, p: int, s: Seq<(Seq<char>, Seq<u8>)>, k: int)
    requires
        starts(b, p, enc_tree(s)),
        0 <= k <= s.len(),
    ensures
        starts(b, p, enc_tree(s.subrange(0, k))),
    decreases s.len(),
{
    if k == s.len() {
        assert(s.subrange(0, k) =~= s);
    } else {
        lemma_starts_split(b, p, enc_tree(s.drop_last()) + enc_str(s.last().0), s.last().1);
        lemma_starts_split(b, p, enc_tree(s.drop_last()), enc_str(s.last().0));
        lemma_tree_prefix(b, p, s.drop_last(), k);
        assert(s.drop_last().subrange(0, k) =~= s.subrange(0, k));
    }
}

proof fn lemma_ids_len(s: Seq<Seq<u8>>)
    ensures
        (forall|i: int| 0 <= i < s.len() ==> #[trigger] s[i].len() == 32) ==> enc_ids(s).len()
            == 32 * s.len(),
    decreases s.len(),
{
    if s.len() > 0 {
        lemma_ids_len(s.drop_last());
        if forall|i: int| 0 <= i < s.len() ==> #[trigger] s[i].len() == 32 {
            assert forall|i: int| 0 <= i < s.drop_last().len() implies #[trigger] s.drop_last()[i].len()
                == 32 by {
                assert(s.drop_last()[i] == s[i]);
            }
            assert(s.last() == s[s.len() - 1]);
        }
    }
}

proof fn lemma_changes_len(s: Seq<ChangeView>)
    ensures
        enc_changes(s).len() >= s.len(),
    decreases s.len(),
{
    if s.len() > 0 {
        lemma_changes_len(s.drop_last());
    }
}

proof fn lemma_tree_len(s: Seq<(Seq<char>, Seq<u8>)>)
    ensures
        enc_tree(s).len() >= s.len(),
    decreases s.len(),
{
    if s.len() > 0 {
        lemma_tree_len(s.drop_last());
    }
}

proof fn lemma_step_ids(s: Seq<Seq<u8>>, k: int)
    requires
        0 <= k < s.len(),
    ensures
        enc_ids(s.subrange(0, k + 1)) == enc_ids(s.subrange(0, k)) + s[k],
{
    assert(s.subrange(0, k + 1).drop_last() =~= s.subrange(0, k));
}

proof fn lemma_step_changes(s: Seq<ChangeView>, k: int)
    requires
        0 <= k < s.len(),
    ensures
        enc_changes(s.subrange(0, k + 1)) == enc_changes(s.subrange(0, k)) + enc_change(s[k]),
{
    assert(s.subrange(0, k + 1).drop_last() =~= s.subrange(0, k));
}

proof fn lemma_step_tree(s: Seq<(Seq<char>, Seq<u8>)>, k: int)
    requires
        0 <= k < s.len(),
    ensures
        enc_tree(s.subrange(0, k + 1)) == enc_tree(s.subrange(0, k)) + enc_str(s[k].0) + s[k].1,
{
    assert(s.subrange(0, k + 1).drop_last() =~= s.subrange(0, k));
}

/// Reads one commit from the start of `b`; returns it with the number of
/// bytes that its encoding takes. Where `b` starts with the encoding of a
/// commit, that commit is what comes back.
#[verifier::rlimit(60)]
#[verifier::spinoff_prover]
pub fn decode_commit_prefix(b: &[u8]) -> (r: Option<(Commit, usize)>)
    ensures
        r matches Some((c, n)) ==> n <= b@.len() && b@.subrange(0, n as int) == enc_commit(c@),
        forall|cv: CommitView|
            ids_wf(cv) && #[trigger] starts(b@, 0, enc_commit(cv)) ==> (r matches Some((c, n))
                && c@ == cv && n == enc_commit(cv).len()),
{
    let len = b.len();
    proof {
        assert forall|cv: CommitView| ids_wf(cv) && #[trigger] starts(b@, 0, enc_commit(cv)) implies
            starts(b@, 0, le64(cv.parents.len() as u64)) && cv.parents.len() * 32 <= b@.len() by {
            lemma_commit_parts(b@, cv);
            lemma_ids_len(cv.parents);
        }
    }
    let np = match read_u64(b, 0) {
        Some(n) => n,
        None => return None,
    };
    let mut pos: usize = 8;
    let mut parents: Vec<[u8; 32]> = Vec::new();
    let mut k: u64 = 0;
    assert(enc_ids(Seq::<Seq<u8>>::empty().subrange(0, 0)) =~= Seq::<u8>::empty());
    while k < np
        invariant
            8 <= pos <= b@.len(),
            len == b@.len(),
            k <= np,
            parents@.len() == k,
            b@.subrange(0, 8) == le64(np),
            b@.subrange(8, pos as int) == enc_ids(parents@.map_values(|p: [u8; 32]| p@)),
            forall|cv: CommitView|
                ids_wf(cv) && #[trigger] starts(b@, 0, enc_commit(cv)) ==> np as int
                    == cv.parents.len() && parents@.map_values(|p: [u8; 32]| p@)
                    == cv.parents.subrange(0, k as int) && pos == 8 + enc_ids(
                    cv.parents.subrange(0, k as int),
                ).len(),
        decreases np - k,
    {
        proof {
            assert forall|cv: CommitView| ids_wf(cv) && #[trigger] starts(b@, 0, enc_commit(cv))
                implies starts(b@, pos as int, cv.parents[k as int]) && cv.parents[k as int].len()
                == 32 by {
                lemma_commit_parts(b@, cv);
                lemma_ids_prefix(b@, 8, cv.parents, k + 1);
                lemma_step_ids(cv.parents, k as int);
                lemma_starts_split(
                    b@,
                    8,
                    enc_ids(cv.parents.subrange(0, k as int)),
                    cv.parents[k as int],
                );
            }
        }
        let a = match read_id(b, pos) {
            Some(a) => a,
            None => return None,
        };
        let ghost old_parents = parents@;
        parents.push(a);
        proof {
            lemma_split(b@, 8, pos as int, pos + 32);
            assert(parents@.map_values(|p: [u8; 32]| p@).drop_last() =~= old_parents.map_values(
                |p: [u8; 32]| p@,
            ));
            assert forall|cv: CommitView| ids_wf(cv) && #[trigger] starts(b@, 0, enc_commit(cv))
                implies parents@.map_values(|p: [u8; 32]| p@) == cv.parents.subrange(0, k + 1)
                && pos + 32 == 8 + enc_ids(cv.parents.subrange(0, k + 1)).len() by {
                lemma_step_ids(cv.parents, k as int);
                assert(parents@.map_values(|p: [u8; 32]| p@) =~= cv.parents.subrange(0, k + 1));
            }
        }
        pos = pos + 32;
        k = k + 1;
    }
    let p_parents = pos;
    proof {
        assert forall|cv: CommitView| ids_wf(cv) && #[trigger] starts(b@, 0, enc_commit(cv))
            implies pos == off_msg(cv) && parents@.map_values(|p: [u8; 32]| p@) == cv.parents
            && starts(b@, pos as int, enc_str(cv.message)) by {
            lemma_commit_parts(b@, cv);
            assert(cv.parents.subrange(0, k as int) =~= cv.parents);
        }
    }
    let (message, p_msg) = match read_str(b, pos) {
        Some(x) => x,
        None => return None,
    };
    proof {
        assert forall|cv: CommitView| ids_wf(cv) && #[trigger] starts(b@, 0, enc_commit(cv))
            implies p_msg == off_ts(cv) && starts(b@, p_msg as int, le64(cv.timestamp)) && starts(
            b@,
            p_msg + 8,
            le64(cv.changes.len() as u64),
        ) && cv.changes.len() <= b@.len() by {
            lemma_commit_parts(b@, cv);
            lemma_changes_len(cv.changes);
        }
    }
    let timestamp = match read_u64(b, p_msg) {
        Some(t) => t,
        None => return None,
    };
    let nc = match read_u64(b, p_msg + 8) {
        Some(n) => n,
        None => return None,
    };
    let p_changes = p_msg + 16;
    pos = p_changes;
    let mut changes: Vec<Change> = Vec::new();
    let mut k: u64 = 0;
    assert(enc_changes(Seq::<ChangeView>::empty()) =~= Seq::<u8>::empty());
    while k < nc
        invariant
            p_changes <= pos <= b@.len(),
            len == b@.len(),
            k <= nc,
            changes@.len() == k,
            b@.subrange(p_changes as int, pos as int) == enc_changes(
                changes@.map_values(|c: Change| c@),
            ),
            forall|cv: CommitView|
                ids_wf(cv) && #[trigger] starts(b@, 0, enc_commit(cv)) ==> nc as int
                    == cv.changes.len() && p_changes == off_changes(cv) && changes@.map_values(
                    |c: Change| c@,
                ) == cv.changes.subrange(0, k as int) && pos == p_changes + enc_changes(
                    cv.changes.subrange(0, k as int),
                ).len(),
        decreases nc - k,
    {
        proof {
            assert forall|cv: CommitView| ids_wf(cv) && #[trigger] starts(b@, 0, enc_commit(cv))
                implies starts(b@, pos as int, enc_change(cv.changes[k as int])) by {
                lemma_commit_parts(b@, cv);
                lemma_changes_prefix(b@, p_changes as int, cv.changes, k + 1);
                lemma_step_changes(cv.changes, k as int);
                lemma_starts_split(
                    b@,
                    p_changes as int,
                    enc_changes(cv.changes.subrange(0, k as int)),
                    enc_change(cv.changes[k as int]),
                );
            }
        }
        let (c, next) = match read_change(b, pos) {
            Some(x) => x,
            None => return None,
        };
        let ghost old_changes = changes@;
        changes.push(c);
        proof {
            lemma_split(b@, p_changes as int, pos as int, next as int);
            assert(changes@.map_values(|c: Change| c@).drop_last() =~= old_changes.map_values(
                |c: Change| c@,
            ));
            assert forall|cv: CommitView| ids_wf(cv) && #[trigger] starts(b@, 0, enc_commit(cv))
                implies changes@.map_values(|c: Change| c@) == cv.changes.subrange(0, k + 1) && next
                == p_changes + enc_changes(cv.changes.subrange(0, k + 1)).len() by {
                lemma_step_changes(cv.changes, k as int);
                assert(changes@.map_values(|c: Change| c@) =~= cv.changes.subrange(0, k + 1));
            }
        }
        pos = next;
        k = k + 1;
    }
    let p_changes_end = pos;
    proof {
        assert forall|cv: CommitView| ids_wf(cv) && #[trigger] starts(b@, 0, enc_commit(cv))
            implies changes@.map_values(|c: Change| c@) == cv.changes && starts(
            b@,
            pos as int,
            le64(cv.tree.len() as u64),
        ) && cv.tree.len() <= b@.len() by {
            lemma_commit_parts(b@, cv);
            lemma_tree_len(cv.tree);
            assert(cv.changes.subrange(0, k as int) =~= cv.changes);
        }
    }
    let nt = match read_u64(b, pos) {
        Some(n) => n,
        None => return None,
    };
    let p_tree = pos + 8;
    pos = p_tree;
    let mut tree: Vec<TreeEntry> = Vec::new();
    let mut k: u64 = 0;
    assert(enc_tree(Seq::<(Seq<char>, Seq<u8>)>::empty()) =~= Seq::<u8>::empty());
    while k < nt
        invariant
            p_tree <= pos <= b@.len(),
            len == b@.len(),
            k <= nt,
            tree@.len() == k,
            b@.subrange(p_tree as int, pos as int) == enc_tree(
                tree@.map_values(|e: TreeEntry| e@),
            ),
            forall|cv: CommitView|
                ids_wf(cv) && #[trigger] starts(b@, 0, enc_commit(cv)) ==> nt as int
                    == cv.tree.len() && p_tree == off_tree(cv) && tree@.map_values(
                    |e: TreeEntry| e@,
                ) == cv.tree.subrange(0, k as int) && pos == p_tree + enc_tree(
                    cv.tree.subrange(0, k as int),
                ).len(),
        decreases nt - k,
    {
        proof {
            assert forall|cv: CommitView| ids_wf(cv) && #[trigger] starts(b@, 0, enc_commit(cv))
                implies starts(b@, pos as int, enc_str(cv.tree[k as int].0)) && starts(
                b@,
                pos + enc_str(cv.tree[k as int].0).len(),
                cv.tree[k as int].1,
            ) && cv.tree[k as int].1.len() == 32 by {
                lemma_commit_parts(b@, cv);
                lemma_tree_prefix(b@, p_tree as int, cv.tree, k + 1);
                lemma_step_tree(cv.tree, k as int);
                let pre = enc_tree(cv.tree.subrange(0, k as int));
                lemma_starts_split(
                    b@,
                    p_tree as int,
                    pre + enc_str(cv.tree[k as int].0),
                    cv.tree[k as int].1,
                );
                lemma_starts_split(b@, p_tree as int, pre, enc_str(cv.tree[k as int].0));
            }
        }
        let (table, next) = match read_str(b, pos) {
            Some(x) => x,
            None => return None,
        };
        let digest = match read_id(b, next) {
            Some(a) => a,
            None => return None,
        };
        let ghost old_tree = tree@;
        tree.push(TreeEntry { table, digest });
        proof {
            lemma_split(b@, p_tree as int, pos as int, next as int);
            lemma_split(b@, p_tree as int, next as int, next + 32);
            lemma_split(b@, pos as int, next as int, next + 32);
            assert(tree@.map_values(|e: TreeEntry| e@).drop_last() =~= old_tree.map_values(
                |e: TreeEntry| e@,
            ));
            assert forall|cv: CommitView| ids_wf(cv) && #[trigger] starts(b@, 0, enc_commit(cv))
                implies tree@.map_values(|e: TreeEntry| e@) == cv.tree.subrange(0, k + 1) && next
                + 32 == p_tree + enc_tree(cv.tree.subrange(0, k + 1)).len() by {
                lemma_step_tree(cv.tree, k as int);
                assert(tree@.map_values(|e: TreeEntry| e@) =~= cv.tree.subrange(0, k + 1));
            }
        }
        pos = next + 32;
        k = k + 1;
    }
    let c = Commit { parents, message, timestamp, changes, tree };
    proof {
        lemma_split(b@, 0, 8, p_parents as int);
        lemma_split(b@, 0, p_parents as int, p_msg as int);
        lemma_split(b@, 0, p_msg as int, p_msg + 8);
        lemma_split(b@, 0, p_msg + 8, p_changes as int);
        lemma_split(b@, 0, p_changes as int, p_changes_end as int);
        lemma_split(b@, 0, p_changes_end as int, p_tree as int);
        lemma_split(b@, 0, p_tree as int, pos as int);
        assert(b@.subrange(0, pos as int) =~= enc_commit(c@));
        assert forall|cv: CommitView| ids_wf(cv) && #[trigger] starts(b@, 0, enc_commit(cv))
            implies c@ == cv && pos == enc_commit(cv).len() by {
            lemma_commit_parts(b@, cv);
            assert(cv.tree.subrange(0, k as int) =~= cv.tree);
        }
    }
    Some((c, pos))
}

/// Relies on `bincode::serialize` with its default fixed-width little-endian
/// layout: a byte blob is its length as a u64 followed by its bytes. With no
/// size limit and a `Vec` as the writer, it does not fail.
#[verifier::external_body]
pub(crate) fn serialize_value(v: &Vec<u8>) -> (r: Option<Vec<u8>>)
    ensures
        r is Some,
        r matches Some(s) ==> s@ == enc_bytes(v@),
{
    bincode::serialize(v).ok()
}

/// Whether two byte strings are equal.
pub fn bytes_eq(a: &[u8], b: &[u8]) -> (r: bool)
    ensures
        r == (a@ == b@),
{
    if a.len() != b.len() {
        return false;
    }
    let mut i: usize = 0;
    while i < a.len()
        invariant
            0 <= i <= a@.len(),
            a@.len() == b@.len(),
            forall|j: int| 0 <= j < i ==> a@[j] == b@[j],
        decreases a@.len() - i,
    {
        if a[i] != b[i] {
            return false;
        }
        i = i + 1;
    }
    assert(a@ =~= b@);
    true
}

} // verus!
