//! The content-addressed object store: which objects are present, where an
//! object lies, and the decision taken when an object is committed.

use crate::bytes::{append_bytes, contains_bytes, copy_bytes, list_set, list_without, views, without};
use crate::hash::{
    algorithm_name, algorithm_name_bytes, digest_spec, matches_digest, parse_spec, HashAlgorithm,
};
use vstd::prelude::*;

verus! {

#[derive(Clone, Copy, Debug, PartialEq, Eq, Structural)]
pub enum StoreError {
    /// The hash string cannot be parsed.
    InvalidHash,
    /// The content does not have the digest that was claimed for it.
    HashMismatch,
}

/// What a successful commit asks of the caller that owns the disk.
#[derive(Clone, Copy, Debug, PartialEq, Eq, Structural)]
pub enum CommitAction {
    /// The object is new: stage the content and rename it into place.
    Write,
    /// The object is present already: nothing is written.
    AlreadyPresent,
}

/// The directory below the root that holds the objects: `/.outpack/files/`.
pub open spec fn files_dir() -> Seq<u8> {
    seq![
        47u8, 46u8, 111u8, 117u8, 116u8, 112u8, 97u8, 99u8, 107u8, 47u8, 102u8, 105u8, 108u8,
        101u8, 115u8, 47u8,
    ]
}

/// The path of an object: the root, the objects' directory, the algorithm,
/// the first two hex digits, and the remaining ones.
pub open spec fn path_spec(root: Seq<u8>, alg: HashAlgorithm, hex: Seq<u8>) -> Seq<u8> {
    root + files_dir() + algorithm_name(alg) + seq![47u8] + hex.take(2) + seq![47u8] + hex.skip(2)
}

/// The outcome of a commit and the objects present after it.
pub open spec fn commit_spec(
    objects: Set<Seq<u8>>,
    alg: HashAlgorithm,
    hash: Seq<u8>,
    content: Seq<u8>,
) -> (Result<CommitAction, StoreError>, Set<Seq<u8>>) {
    if hash != digest_spec(alg, content) {
        (Err(StoreError::HashMismatch), objects)
    } else if objects.contains(hash) {
        (Ok(CommitAction::AlreadyPresent), objects)
    } else {
        (Ok(CommitAction::Write), objects.insert(hash))
    }
}

/// Where the object named by `hash` lies below `root`.
pub fn object_path(root: &[u8], hash: &[u8]) -> (r: Result<Vec<u8>, StoreError>)
    ensures
        match parse_spec(hash@) {
            Some((alg, hex)) => r.is_ok() && r.unwrap()@ == path_spec(root@, alg, hex),
            None => r == Err::<Vec<u8>, StoreError>(StoreError::InvalidHash),
        },
{
    match crate::hash::Hash::parse(hash) {
        Err(_) => Err(StoreError::InvalidHash),
        Ok(h) => {
            let mut out = copy_bytes(root);
            let dir: Vec<u8> = vec![
                47u8, 46u8, 111u8, 117u8, 116u8, 112u8, 97u8, 99u8, 107u8, 47u8, 102u8, 105u8,
                108u8, 101u8, 115u8, 47u8,
            ];
            assert(dir@ =~= files_dir());
            append_bytes(&mut out, dir.as_slice());
            let name = algorithm_name_bytes(h.algorithm);
            append_bytes(&mut out, name.as_slice());
            out.push(47u8);
            out.push(h.hex[0]);
            out.push(h.hex[1]);
            out.push(47u8);
            let ghost head = out@;
            let mut i: usize = 2;
            while i < h.hex.len()
                invariant
                    2 <= i <= h.hex.len(),
                    out@ == head + h.hex@.subrange(2, i as int),
                decreases h.hex.len() - i,
            {
                out.push(h.hex[i]);
                assert(out@ =~= head + h.hex@.subrange(2, i + 1));
                i += 1;
            }
            assert(out@ =~= path_spec(root@, h.algorithm, h.hex@));
            Ok(out)
        },
    }
}

/// The objects that a store holds, by their hash strings.
pub struct ObjectStore {
    algorithm: HashAlgorithm,
    present: Vec<Vec<u8>>,
}

impl ObjectStore {
    /// The hash strings of the objects that are present.
    pub closed spec fn objects(&self) -> Set<Seq<u8>> {
        list_set(self.present@)
    }

    /// The algorithm that the repository is configured with.
    pub closed spec fn configured(&self) -> HashAlgorithm {
        self.algorithm
    }

    /// A store that holds nothing.
    pub fn new(algorithm: HashAlgorithm) -> (r: ObjectStore)
        ensures
            r.objects() == Set::<Seq<u8>>::empty(),
            r.configured() == algorithm,
    {
        let r = ObjectStore { algorithm, present: Vec::new() };
        assert(r.objects() =~= Set::<Seq<u8>>::empty());
        r
    }

    /// A store that holds the objects listed in `present`.
    pub fn from_inventory(algorithm: HashAlgorithm, present: Vec<Vec<u8>>) -> (r: ObjectStore)
        ensures
            r.objects() == list_set(present@),
            r.configured() == algorithm,
    {
        ObjectStore { algorithm, present }
    }

    pub fn algorithm(&self) -> (r: HashAlgorithm)
        ensures
            r == self.configured(),
    {
        self.algorithm
    }

    /// Whether the object named by `hash` is present.
    pub fn contains(&self, hash: &[u8]) -> (r: bool)
        ensures
            r == self.objects().contains(hash@),
    {
        contains_bytes(&self.present, hash)
    }

    /// Commits `content` under the name `hash`. Content whose digest under
    /// the configured algorithm is not `hash` is rejected and nothing changes.
    /// An object that is present already is left as it is.
    pub fn commit(&mut self, hash: &[u8], content: &[u8]) -> (r: Result<CommitAction, StoreError>)
        ensures
            final(self).configured() == old(self).configured(),
            (r, final(self).objects()) == commit_spec(
                old(self).objects(),
                old(self).configured(),
                hash@,
                content@,
            ),
    {
        if !matches_digest(hash, content, self.algorithm) {
            return Err(StoreError::HashMismatch);
        }
        if contains_bytes(&self.present, hash) {
            return Ok(CommitAction::AlreadyPresent);
        }
        let ghost before = self.present@;
        self.present.push(copy_bytes(hash));
        proof {
            let after = self.present@;
            assert(after[before.len() as int]@ == hash@);
            assert forall|x: Seq<u8>| list_set(after).contains(x) <==> list_set(before).insert(
                hash@,
            ).contains(x) by {
                if list_set(before).contains(x) {
                    let i = choose|i: int| 0 <= i < before.len() && (#[trigger] before[i])@ == x;
                    assert(after[i]@ == x);
                }
                if list_set(after).contains(x) {
                    let i = choose|i: int| 0 <= i < after.len() && (#[trigger] after[i])@ == x;
                    if i < before.len() {
                        assert(before[i]@ == x);
                    }
                }
            }
            assert(list_set(after) =~= list_set(before).insert(hash@));
        }
        Ok(CommitAction::Write)
    }

    /// The candidates that are not present, in the order given.
    pub fn missing(&self, candidates: &Vec<Vec<u8>>) -> (r: Vec<Vec<u8>>)
        ensures
            views(r@) == without(views(candidates@), self.objects()),
    {
        list_without(candidates, &self.present)
    }
}

/// Committing the same object a second time succeeds and changes nothing.
pub proof fn lemma_commit_idempotent(
    objects: Set<Seq<u8>>,
    alg: HashAlgorithm,
    hash: Seq<u8>,
    content: Seq<u8>,
)
    requires
        commit_spec(objects, alg, hash, content).0.is_ok(),
    ensures
        ({
            let once = commit_spec(objects, alg, hash, content).1;
            let twice = commit_spec(once, alg, hash, content);
            twice.0 == Ok::<CommitAction, StoreError>(CommitAction::AlreadyPresent) && twice.1
                == once
        }),
{
}

/// Content that does not have the claimed digest is rejected, and the claimed
/// hash names no object afterwards unless it did before.
pub proof fn lemma_commit_mismatch(
    objects: Set<Seq<u8>>,
    alg: HashAlgorithm,
    hash: Seq<u8>,
    content: Seq<u8>,
)
    requires
        hash != digest_spec(alg, content),
    ensures
        commit_spec(objects, alg, hash, content).0 == Err::<CommitAction, StoreError>(
            StoreError::HashMismatch,
        ),
        commit_spec(objects, alg, hash, content).1 == objects,
        !objects.contains(hash) ==> !commit_spec(objects, alg, hash, content).1.contains(hash),
{
}

} // verus!
