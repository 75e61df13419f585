use vstd::prelude::*;
use crate::codec::{bytes_eq, decode_commit_prefix, enc_commit, encode_commit, ids_wf, starts};
use crate::error::GitDBError;
use crate::model::{Commit, CommitId, CommitView};

verus! {

/// The digest that BLAKE3 gives for `data`.
pub uninterp spec fn blake3_of(data: Seq<u8>) -> Seq<u8>;

/// Relies on `blake3::hash`: the 32-byte digest of the input, which depends on
/// the input bytes alone.
#[verifier::external_body]
pub(crate) fn blake3_hash(data: &[u8]) -> (r: [u8; 32])
    ensures
        r@ == blake3_of(data@),
{
    *blake3::hash(data).as_bytes()
}

/// The stored form of an encoding: the encoding followed by its digest.
pub open spec fn envelope_of(enc: Seq<u8>) -> Seq<u8> {
    enc + blake3_of(enc)
}

/// The identifier of a commit: the digest of its bare encoding.
pub open spec fn commit_id_of(c: CommitView) -> Seq<u8> {
    blake3_of(enc_commit(c))
}

/// Encodes a commit, names it by the digest of its bare encoding, and wraps the
/// encoding in its envelope. The last 32 bytes of the envelope are the digest
/// of the bytes before them.
pub fn seal_commit(c: &Commit) -> (r: (CommitId, Vec<u8>))
    ensures
        r.0@ == commit_id_of(c@),
        r.1@ == envelope_of(enc_commit(c@)),
        r.1@.len() == enc_commit(c@).len() + 32,
        r.1@.subrange(r.1@.len() - 32, r.1@.len() as int) == blake3_of(
            r.1@.subrange(0, r.1@.len() - 32),
        ),
        ids_wf(c@),
{
    let bare = encode_commit(c);
    let id = blake3_hash(bare.as_slice());
    let mut env = bare;
    let mut i: usize = 0;
    while i < 32
        invariant
            0 <= i <= 32,
            env@ == enc_commit(c@) + id@.subrange(0, i as int),
        decreases 32 - i,
    {
        env.push(id[i]);
        i = i + 1;
        assert(env@ =~= enc_commit(c@) + id@.subrange(0, i as int));
    }
    assert(id@.subrange(0, 32) =~= id@);
    let ghost n: int = enc_commit(c@).len() as int;
    assert(env@.subrange(0, n) =~= enc_commit(c@));
    assert(env@.subrange(n, n + 32) =~= id@);
    (id, env)
}

/// Reads a stored commit. The bytes may be the bare encoding, or the
/// encoding followed by its digest; anything else, and a digest that does not
/// match, is corrupt data.
#[verifier::rlimit(80)]
#[verifier::spinoff_prover]
pub fn open_envelope(raw: &[u8]) -> (r: Result<Commit, GitDBError>)
    ensures
        r matches Ok(c) ==> raw@ == enc_commit(c@) || raw@ == envelope_of(enc_commit(c@)),
        r matches Err(e) ==> e == GitDBError::CorruptData,
        forall|cv: CommitView|
            ids_wf(cv) && #[trigger] enc_commit(cv) == raw@ ==> (r matches Ok(c) && c@ == cv),
        forall|cv: CommitView|
            ids_wf(cv) && commit_id_of(cv).len() == 32 && #[trigger] envelope_of(enc_commit(cv))
                == raw@ ==> (r matches Ok(c) && c@ == cv && commit_id_of(c@) == raw@.subrange(
                raw@.len() - 32,
                raw@.len() as int,
            )),
{
    let len = raw.len();
    proof {
        assert forall|cv: CommitView| ids_wf(cv) && #[trigger] enc_commit(cv) == raw@ implies starts(
            raw@,
            0,
            enc_commit(cv),
        ) by {
            assert(raw@.subrange(0, raw@.len() as int) =~= raw@);
        }
        assert forall|cv: CommitView| ids_wf(cv) && commit_id_of(cv).len() == 32
            && #[trigger] envelope_of(enc_commit(cv)) == raw@ implies starts(raw@, 0, enc_commit(cv))
            && raw@.subrange(enc_commit(cv).len() as int, raw@.len() as int) == commit_id_of(cv) by {
            assert(raw@.subrange(0, enc_commit(cv).len() as int) =~= enc_commit(cv));
            assert(raw@.subrange(enc_commit(cv).len() as int, raw@.len() as int) =~= commit_id_of(cv));
        }
    }
    let (c, n) = match decode_commit_prefix(raw) {
        Some(x) => x,
        None => return Err(GitDBError::CorruptData),
    };
    if n == len {
        assert(raw@.subrange(0, n as int) =~= raw@);
        return Ok(c);
    }
    if len - n != 32 {
        return Err(GitDBError::CorruptData);
    }
    let bare = crate::codec::copy_prefix(raw, n);
    let digest = blake3_hash(bare.as_slice());
    let tail = vstd::slice::slice_subrange(raw, n, len);
    if !bytes_eq(tail, digest.as_slice()) {
        return Err(GitDBError::CorruptData);
    }
    assert(raw@ =~= raw@.subrange(0, n as int) + digest@);
    Ok(c)
}

/// Seals a commit and checks that its envelope reads back to a commit with the
/// same message; a mismatch would be corrupt data. The check always passes.
pub fn seal_checked(c: &Commit) -> (r: Result<(CommitId, Vec<u8>), GitDBError>)
    ensures
        r matches Ok(x) && x.0@ == commit_id_of(c@) && x.1@ == envelope_of(enc_commit(c@)),
{
    let (id, env) = seal_commit(c);
    assert(env@ == envelope_of(enc_commit(c@)));
    match open_envelope(env.as_slice()) {
        Ok(d) => {
            if d.message != c.message {
                return Err(GitDBError::CorruptData);
            }
            Ok((id, env))
        },
        Err(e) => Err(e),
    }
}

} // verus!
