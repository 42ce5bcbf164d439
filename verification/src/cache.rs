//! When derived facts that were kept may be used again.
//!
//! Derived facts are kept with the hash of the program that they come from and a fingerprint of
//! the sources. They are used again only where both are still the same.
use vstd::prelude::*;
use vstd::utf8::encode_utf8;

use sha2::Digest;

use crate::mem_tables::{bytes_eq, copy_bytes};
use crate::source::{tells_print, EdbSource, Fingerprint, SourceError};
use crate::store::Row;

verus! {

/// What SHA-256 makes of bytes.
pub uninterp spec fn sha256(data: Seq<u8>) -> Seq<u8>;

/// `sha2::Sha256::digest`: the SHA-256 hash of the bytes, which has 32 bytes.
#[verifier::external_body]
fn digest(data: &[u8]) -> (r: Vec<u8>)
    ensures
        r@ == sha256(data@),
        r@.len() == 32,
{
    sha2::Sha256::digest(data).to_vec()
}

/// How derived facts are handled across restarts.
#[derive(Debug)]
pub enum IdbMode<B> {
    /// They are lost, and computed again.
    InMemory,
    /// They are kept, and loaded where they are still valid.
    Cached(B),
}

/// How derived facts are computed again when base facts change.
#[derive(Debug, Clone, Copy, PartialEq, Eq, Structural)]
pub enum RecomputeStrategy {
    /// All of them from scratch.
    Full,
    /// Those that depend on what changed.
    Incremental,
}

/// Where the working store lives.
#[derive(Debug, Clone, PartialEq, Eq)]
pub enum StoreBackend {
    /// In memory.
    InMemory,
    /// In a file, for facts that memory cannot hold.
    Disk(String),
}

/// What is known of derived facts that are kept.
#[derive(Debug, Clone, PartialEq, Eq)]
pub struct CacheMeta {
    pub program_hash: Vec<u8>,
    pub edb_fingerprint: Vec<u8>,
    /// Seconds since 1970.
    pub created_at: u64,
}

/// Derived facts, relation by relation.
#[derive(Debug)]
pub struct IdbSnapshot {
    pub relations: Vec<(String, Vec<Row>)>,
}

/// The hash of a program.
pub fn compute_program_hash(source: &str) -> (r: Vec<u8>)
    ensures
        r@ == sha256(encode_utf8(source@)),
        r@.len() == 32,
{
    digest(source.as_bytes())
}

/// The bytes of fingerprints, one after another.
pub open spec fn joined(fps: Seq<Seq<u8>>) -> Seq<u8>
    decreases fps.len(),
{
    if fps.len() == 0 {
        Seq::empty()
    } else {
        joined(fps.drop_last()) + fps.last()
    }
}

/// The fingerprint of sources with these fingerprints: the hash of them all. There is none if a
/// source has none.
pub open spec fn combined(fps: Seq<Option<Seq<u8>>>) -> Option<Seq<u8>> {
    if forall|i: int| 0 <= i < fps.len() ==> (#[trigger] fps[i]) is Some {
        Some(sha256(joined(Seq::new(fps.len(), |i: int| fps[i]->Some_0))))
    } else {
        None
    }
}

/// The bytes of a fingerprint.
pub open spec fn print_bytes(fp: Option<Fingerprint>) -> Option<Seq<u8>> {
    match fp {
        Some(f) => Some(f.0@),
        None => None,
    }
}

/// The bytes of fingerprints.
pub open spec fn all_print_bytes(fps: Seq<Option<Fingerprint>>) -> Seq<Option<Seq<u8>>> {
    Seq::new(fps.len(), |i: int| print_bytes(fps[i]))
}

/// The fingerprint of sources with these fingerprints.
pub fn combine_fingerprints(fps: &Vec<Option<Fingerprint>>) -> (r: Option<Fingerprint>)
    ensures
        print_bytes(r) == combined(all_print_bytes(fps@)),
{
    let ghost all = all_print_bytes(fps@);
    let ghost known = Seq::new(all.len(), |i: int| all[i]->Some_0);
    let mut bytes: Vec<u8> = Vec::new();
    let mut i: usize = 0;
    while i < fps.len()
        invariant
            i <= fps@.len(),
            forall|j: int| 0 <= j < i ==> (#[trigger] all[j]) is Some,
            bytes@ == joined(known.take(i as int)),
        decreases fps@.len() - i,
    {
        match &fps[i] {
            None => {
                assert(all[i as int] is None);
                return None;
            },
            Some(fp) => {
                assert(known.take(i + 1).drop_last() =~= known.take(i as int));
                assert(known.take(i + 1).last() == fp.0@);
                push_bytes(&mut bytes, &fp.0);
            },
        }
        i += 1;
    }
    assert(known.take(known.len() as int) =~= known);
    Some(Fingerprint(digest(bytes.as_slice())))
}

/// Appends bytes.
fn push_bytes(out: &mut Vec<u8>, more: &Vec<u8>)
    ensures
        final(out)@ == old(out)@ + more@,
{
    let ghost start = out@;
    let mut i: usize = 0;
    while i < more.len()
        invariant
            i <= more@.len(),
            out@ =~= start + more@.take(i as int),
        decreases more@.len() - i,
    {
        out.push(more[i]);
        i += 1;
    }
    assert(more@.take(more@.len() as int) =~= more@);
}

/// Whether the first sources may tell these fingerprints, one after the other. Each but the
/// last of them is there.
pub open spec fn tell_prints<E: EdbSource>(sources: Seq<E>, fps: Seq<Option<Fingerprint>>) -> bool {
    &&& fps.len() <= sources.len()
    &&& forall|i: int| 0 <= i < fps.len() ==> tells_print(sources[i], Ok(#[trigger] fps[i]))
    &&& forall|i: int| 0 <= i < fps.len() - 1 ==> (#[trigger] fps[i]) is Some
}

/// Whether no source is left to be asked: all were, or one has no fingerprint.
pub open spec fn asked_enough<E: EdbSource>(sources: Seq<E>, fps: Seq<Option<Fingerprint>>) -> bool {
    fps.len() == sources.len() || (fps.len() > 0 && fps.last() is None)
}

/// The fingerprint of sources. They are asked in order. A source without one is not followed
/// by others: there is none. The error is that of the first source that fails.
pub fn compute_edb_fingerprint<E: EdbSource>(sources: &Vec<E>) -> (r: Result<
    Option<Fingerprint>,
    SourceError,
>)
    ensures
        r matches Ok(fp) ==> exists|fps: Seq<Option<Fingerprint>>| #[trigger]
            tell_prints(sources@, fps) && asked_enough(sources@, fps) && print_bytes(fp) == combined(
                all_print_bytes(fps),
            ),
        r matches Err(e) ==> exists|fps: Seq<Option<Fingerprint>>| #[trigger]
            tell_prints(sources@, fps) && !asked_enough(sources@, fps) && tells_print(
                sources@[fps.len() as int],
                Err(e),
            ),
        sources@.len() == 0 ==> (r matches Ok(Some(fp)) && fp.0@ == sha256(Seq::empty())),
{
    let mut fps: Vec<Option<Fingerprint>> = Vec::new();
    let mut i: usize = 0;
    while i < sources.len()
        invariant
            i <= sources@.len(),
            fps@.len() == i,
            tell_prints(sources@, fps@),
            forall|j: int| 0 <= j < i ==> (#[trigger] fps@[j]) is Some,
        decreases sources@.len() - i,
    {
        match sources[i].fingerprint() {
            Err(e) => {
                assert(tells_print(sources@[fps@.len() as int], Err(e)));
                return Err(e);
            },
            Ok(None) => {
                let ghost all = fps@.push(None);
                proof {
                    assert(tells_print(sources@[i as int], Ok(None)));
                    assert(tell_prints(sources@, all));
                    assert(all_print_bytes(all)[i as int] is None);
                    assert(combined(all_print_bytes(all)) is None);
                }
                return Ok(None);
            },
            Ok(Some(fp)) => {
                assert(tells_print(sources@[i as int], Ok(Some(fp))));
                fps.push(Some(fp));
            },
        }
        i += 1;
    }
    let r = combine_fingerprints(&fps);
    proof {
        let all = all_print_bytes(fps@);
        if sources@.len() == 0 {
            assert(Seq::new(all.len(), |i: int| all[i]->Some_0) =~= Seq::<Seq<u8>>::empty());
        }
    }
    Ok(r)
}

/// Whether derived facts that were kept are those of a program over sources.
pub open spec fn still_valid(meta: CacheMeta, program_hash: Seq<u8>, fp: Option<Seq<u8>>) -> bool {
    meta.program_hash@ == program_hash && fp == Some(meta.edb_fingerprint@)
}

/// Whether derived facts that were kept may be used. Without a fingerprint they may not.
pub fn cache_is_valid(meta: &CacheMeta, program_hash: &Vec<u8>, edb_fingerprint: &Option<Fingerprint>) -> (r: bool)
    ensures
        r == still_valid(*meta, program_hash@, print_bytes(*edb_fingerprint)),
{
    match edb_fingerprint {
        None => false,
        Some(fp) => bytes_eq(&meta.program_hash, program_hash) && bytes_eq(
            &fp.0,
            &meta.edb_fingerprint,
        ),
    }
}

/// What is recorded with derived facts when they are kept. Without a fingerprint they are not.
pub fn cache_meta(program_hash: &Vec<u8>, edb_fingerprint: &Option<Fingerprint>, created_at: u64) -> (r: Option<
    CacheMeta,
>)
    ensures
        r is Some == edb_fingerprint is Some,
        r matches Some(meta) ==> {
            &&& still_valid(meta, program_hash@, print_bytes(*edb_fingerprint))
            &&& meta.created_at == created_at
        },
{
    match edb_fingerprint {
        None => None,
        Some(fp) => Some(
            CacheMeta {
                program_hash: copy_bytes(program_hash),
                edb_fingerprint: copy_bytes(&fp.0),
                created_at,
            },
        ),
    }
}

/// A source without a fingerprint leaves the sources without one, so that nothing is kept.
pub proof fn an_unmarked_source_is_never_cached(fps: Seq<Option<Seq<u8>>>, i: int, meta: CacheMeta, hash: Seq<u8>)
    requires
        0 <= i < fps.len(),
        fps[i] is None,
    ensures
        combined(fps) is None,
        !still_valid(meta, hash, combined(fps)),
{
    assert(!(fps[i] is Some));
}

} // verus!
