//! What the coordinator sends to the signers: the message and the
//! commitments of all who take part, in the order of their identifiers.

use vstd::prelude::*;
use crate::error::Error;
use crate::identifier::Identifier;
use crate::round1::SigningCommitments;

verus! {

/// The identifiers rise from each commitment to the next.
pub open(crate) spec fn ascending(commitments: Seq<SigningCommitments>) -> bool {
    forall|i: int, j: int|
        0 <= i < j < commitments.len() ==> commitments[i].holder().value()
            < commitments[j].holder().value()
}

/// No two commitments are of one signer.
pub open(crate) spec fn distinct_signers(commitments: Seq<SigningCommitments>) -> bool {
    forall|i: int, j: int|
        0 <= i < j < commitments.len() ==> commitments[i].holder().value()
            != commitments[j].holder().value()
}

/// The two sequences hold the same commitments.
pub open spec fn same_members(a: Seq<SigningCommitments>, b: Seq<SigningCommitments>) -> bool {
    forall|c: SigningCommitments| a.contains(c) <==> b.contains(c)
}

/// The commitment of the signer of value `identifier`, if there is one:
/// the first of that signer.
pub open(crate) spec fn lookup_commitment(
    commitments: Seq<SigningCommitments>,
    identifier: nat,
) -> Option<SigningCommitments>
    decreases commitments.len(),
{
    if commitments.len() == 0 {
        None
    } else if commitments[0].holder().value() == identifier {
        Some(commitments[0])
    } else {
        lookup_commitment(commitments.skip(1), identifier)
    }
}

/// A signer has a commitment in the sequence exactly if its identifier
/// occurs in it.
pub proof fn lemma_lookup_commitment(commitments: Seq<SigningCommitments>, identifier: nat)
    ensures
        lookup_commitment(commitments, identifier) is Some <==> exists|k: int|
            0 <= k < commitments.len() && commitments[k].holder().value() == identifier,
        lookup_commitment(commitments, identifier) matches Some(c) ==> commitments.contains(c)
            && c.holder().value() == identifier,
    decreases commitments.len(),
{
    if commitments.len() > 0 {
        if commitments[0].holder().value() != identifier {
            let rest = commitments.skip(1);
            lemma_lookup_commitment(rest, identifier);
            if lookup_commitment(rest, identifier) is Some {
                let k = choose|k: int|
                    0 <= k < rest.len() && rest[k].holder().value() == identifier;
                assert(commitments[k + 1].holder().value() == identifier);
                let c = lookup_commitment(rest, identifier)->Some_0;
                let m = choose|m: int| 0 <= m < rest.len() && rest[m] == c;
                assert(commitments[m + 1] == c);
            }
            if exists|k: int|
                0 <= k < commitments.len() && commitments[k].holder().value() == identifier {
                let k = choose|k: int|
                    0 <= k < commitments.len() && commitments[k].holder().value() == identifier;
                assert(rest[k - 1].holder().value() == identifier);
            }
        } else {
            assert(commitments[0].holder().value() == identifier);
        }
    }
}

/// There is one way only to put commitments in the order of their
/// identifiers: two such sequences with the same members are equal.
pub proof fn lemma_order_is_unique(a: Seq<SigningCommitments>, b: Seq<SigningCommitments>)
    requires
        ascending(a),
        ascending(b),
        same_members(a, b),
    ensures
        a == b,
    decreases a.len(),
{
    if a.len() == 0 {
        if b.len() > 0 {
            assert(b.contains(b[0]));
            assert(a.contains(b[0]));
        }
        assert(a =~= b);
    } else {
        let x = a.last();
        assert(a.contains(x));
        assert(b.contains(x));
        let j = choose|j: int| 0 <= j < b.len() && b[j] == x;
        let y = b.last();
        assert(b.contains(y));
        assert(a.contains(y));
        let i = choose|i: int| 0 <= i < a.len() && a[i] == y;
        if i < a.len() - 1 {
            assert(a[i].holder().value() < a[a.len() - 1].holder().value());
        }
        if j < b.len() - 1 {
            assert(b[j].holder().value() < b[b.len() - 1].holder().value());
        }
        assert(x == y);
        let shorter = a.drop_last();
        let other = b.drop_last();
        assert forall|c: SigningCommitments| shorter.contains(c) <==> other.contains(c) by {
            if shorter.contains(c) {
                let m = choose|m: int| 0 <= m < shorter.len() && shorter[m] == c;
                assert(a[m] == c);
                assert(a[m].holder().value() < a[a.len() - 1].holder().value());
                assert(a.contains(c));
                assert(b.contains(c));
                let n = choose|n: int| 0 <= n < b.len() && b[n] == c;
                assert(other[n] == c);
            }
            if other.contains(c) {
                let m = choose|m: int| 0 <= m < other.len() && other[m] == c;
                assert(b[m] == c);
                assert(b[m].holder().value() < b[b.len() - 1].holder().value());
                assert(b.contains(c));
                assert(a.contains(c));
                let n = choose|n: int| 0 <= n < a.len() && a[n] == c;
                assert(shorter[n] == c);
            }
        }
        assert forall|i: int, j: int| 0 <= i < j < shorter.len() implies shorter[i].holder().value()
            < shorter[j].holder().value() by {
            assert(a[i].holder().value() < a[j].holder().value());
        }
        assert forall|i: int, j: int| 0 <= i < j < other.len() implies other[i].holder().value()
            < other[j].holder().value() by {
            assert(b[i].holder().value() < b[j].holder().value());
        }
        lemma_order_is_unique(shorter, other);
        assert(a =~= shorter.push(x));
        assert(b =~= other.push(y));
    }
}

/// The message to sign and the commitments of the signers, held in the
/// order of their identifiers, with no signer twice.
#[derive(Debug, PartialEq, Eq)]
pub struct SigningPackage {
    pub(crate) commitments: Vec<SigningCommitments>,
    pub(crate) message: Vec<u8>,
    pub(crate) additional_tweak: Option<Vec<u8>>,
}

/// Puts `c` into `sorted` at its place, unless its signer is there already.
fn insert_sorted(sorted: &mut Vec<SigningCommitments>, c: SigningCommitments) -> (inserted: bool)
    requires
        ascending(old(sorted)@),
    ensures
        inserted == !exists|k: int|
            0 <= k < old(sorted)@.len() && old(sorted)@[k].holder().value()
                == c.holder().value(),
        !inserted ==> final(sorted)@ == old(sorted)@,
        inserted ==> ascending(final(sorted)@),
        inserted ==> final(sorted)@.len() == old(sorted)@.len() + 1,
        inserted ==> forall|x: SigningCommitments|
            final(sorted)@.contains(x) <==> (old(sorted)@.contains(x) || x == c),
{
    let ghost before = sorted@;
    let mut position: usize = 0;
    while position < sorted.len() && sorted[position].identifier.less_than(&c.identifier)
        invariant
            position <= sorted.len(),
            sorted@ == before,
            forall|k: int|
                0 <= k < position ==> before[k].holder().value() < c.holder().value(),
        decreases sorted.len() - position,
    {
        position = position + 1;
    }
    if position < sorted.len() && sorted[position].identifier.equals(&c.identifier) {
        return false;
    }
    proof {
        assert forall|k: int| position <= k < before.len() implies before[k].holder().value()
            > c.holder().value() by {
            if k > position {
                assert(before[position as int].holder().value() < before[k].holder().value());
            }
        }
    }
    sorted.insert(position, c);
    proof {
        let after = sorted@;
        assert(after == before.insert(position as int, c));
        assert forall|i: int, j: int| 0 <= i < j < after.len() implies after[i].holder().value()
            < after[j].holder().value() by {
            if j < position {
                assert(after[i] == before[i] && after[j] == before[j]);
            } else if j == position {
                assert(after[i] == before[i]);
            } else if i < position {
                assert(after[i] == before[i] && after[j] == before[j - 1]);
            } else if i == position {
                assert(after[j] == before[j - 1]);
            } else {
                assert(after[i] == before[i - 1] && after[j] == before[j - 1]);
            }
        }
        assert forall|x: SigningCommitments| after.contains(x) <==> (before.contains(x) || x
            == c) by {
            if after.contains(x) {
                let k = choose|k: int| 0 <= k < after.len() && after[k] == x;
                if k < position {
                    assert(before[k] == x);
                } else if k > position {
                    assert(before[k - 1] == x);
                }
            }
            if before.contains(x) {
                let k = choose|k: int| 0 <= k < before.len() && before[k] == x;
                if k < position {
                    assert(after[k] == x);
                } else {
                    assert(after[k + 1] == x);
                }
            }
            if x == c {
                assert(after[position as int] == x);
            }
        }
    }
    true
}

impl SigningPackage {
    #[verifier::type_invariant]
    pub open(crate) spec fn ordered(self) -> bool {
        ascending(self.commitments@)
    }

    /// The commitments, in the order of their signers' identifiers.
    pub open(crate) spec fn signers(self) -> Seq<SigningCommitments> {
        self.commitments@
    }

    /// The message to sign.
    pub open(crate) spec fn message_bytes(self) -> Seq<u8> {
        self.message@
    }

    /// The additional tweak, if there is one.
    pub open(crate) spec fn tweak(self) -> Option<Seq<u8>> {
        match self.additional_tweak {
            Some(t) => Some(t@),
            None => None,
        }
    }

    /// The bytes of the additional tweak; none where there is no tweak.
    pub open(crate) spec fn tweak_bytes(self) -> Seq<u8> {
        match self.additional_tweak {
            Some(t) => t@,
            None => Seq::empty(),
        }
    }

    /// The package of these commitments, given in any order, and this
    /// message, without a tweak. `DuplicatedIdentifier` where two
    /// commitments are of one signer.
    pub fn new(signing_commitments: Vec<SigningCommitments>, message: Vec<u8>) -> (r: Result<
        SigningPackage,
        Error,
    >)
        ensures
            match r {
                Ok(p) => {
                    &&& distinct_signers(signing_commitments@)
                    &&& ascending(p.signers())
                    &&& p.signers().len() == signing_commitments@.len()
                    &&& same_members(p.signers(), signing_commitments@)
                    &&& p.message_bytes() == message@
                    &&& p.tweak() is None
                },
                Err(e) => !distinct_signers(signing_commitments@) && e
                    == Error::DuplicatedIdentifier,
            },
    {
        let ghost given = signing_commitments@;
        let mut sorted: Vec<SigningCommitments> = Vec::new();
        let mut k: usize = 0;
        while k < signing_commitments.len()
            invariant
                k <= signing_commitments.len(),
                given == signing_commitments@,
                ascending(sorted@),
                sorted@.len() == k,
                distinct_signers(given.take(k as int)),
                same_members(sorted@, given.take(k as int)),
            decreases signing_commitments.len() - k,
        {
            let c = signing_commitments[k];
            let ghost before = sorted@;
            let inserted = insert_sorted(&mut sorted, c);
            if !inserted {
                proof {
                    let m = choose|m: int|
                        0 <= m < before.len() && before[m].holder().value()
                            == c.holder().value();
                    assert(before.contains(before[m]));
                    assert(given.take(k as int).contains(before[m]));
                    let j = choose|j: int|
                        0 <= j < given.take(k as int).len() && given.take(k as int)[j]
                            == before[m];
                    assert(given[j].holder().value() == given[k as int].holder().value());
                }
                return Err(Error::DuplicatedIdentifier);
            }
            proof {
                let next = given.take(k + 1);
                assert forall|i: int, j: int| 0 <= i < j < next.len() implies next[i].holder().value()
                    != next[j].holder().value() by {
                    if j < k {
                        assert(given.take(k as int)[i] == next[i]);
                        assert(given.take(k as int)[j] == next[j]);
                    } else {
                        assert(given.take(k as int)[i] == next[i]);
                        assert(given.take(k as int).contains(next[i]));
                        assert(before.contains(next[i]));
                        let m = choose|m: int| 0 <= m < before.len() && before[m] == next[i];
                        assert(before[m].holder().value() != c.holder().value());
                    }
                }
                assert forall|x: SigningCommitments| sorted@.contains(x) <==> next.contains(x) by {
                    if next.contains(x) {
                        let j = choose|j: int| 0 <= j < next.len() && next[j] == x;
                        if j < k {
                            assert(given.take(k as int)[j] == x);
                        }
                    }
                    if given.take(k as int).contains(x) {
                        let j = choose|j: int|
                            0 <= j < given.take(k as int).len() && given.take(k as int)[j] == x;
                        assert(next[j] == x);
                    }
                    if x == c {
                        assert(next[k as int] == x);
                    }
                }
            }
            k = k + 1;
        }
        assert(given.take(k as int) =~= given);
        Ok(SigningPackage { commitments: sorted, message, additional_tweak: None })
    }

    /// A copy of the package.
    pub fn duplicate(&self) -> (r: SigningPackage)
        ensures
            r.signers() == self.signers(),
            r.message_bytes() == self.message_bytes(),
            r.tweak() == self.tweak(),
    {
        proof {
            use_type_invariant(self);
        }
        SigningPackage {
            commitments: vstd::slice::slice_to_vec(self.commitments.as_slice()),
            message: vstd::slice::slice_to_vec(self.message.as_slice()),
            additional_tweak: match &self.additional_tweak {
                Some(t) => Some(vstd::slice::slice_to_vec(t.as_slice())),
                None => None,
            },
        }
    }

    /// The same package with an additional tweak.
    pub fn with_additional_tweak(self, tweak: Vec<u8>) -> (r: SigningPackage)
        ensures
            r.signers() == self.signers(),
            r.message_bytes() == self.message_bytes(),
            r.tweak() == Some(tweak@),
    {
        proof {
            use_type_invariant(&self);
        }
        SigningPackage {
            commitments: self.commitments,
            message: self.message,
            additional_tweak: Some(tweak),
        }
    }

    /// The commitments, in the order of their signers' identifiers.
    pub fn signing_commitments(&self) -> (r: &Vec<SigningCommitments>)
        ensures
            r@ == self.signers(),
            ascending(r@),
    {
        proof {
            use_type_invariant(self);
        }
        &self.commitments
    }

    /// The message to sign.
    pub fn message(&self) -> (r: &Vec<u8>)
        ensures
            r@ == self.message_bytes(),
    {
        &self.message
    }

    /// The bytes of the additional tweak; none where there is no tweak.
    pub fn additional_tweak_as_slice(&self) -> (r: &[u8])
        ensures
            r@ == self.tweak_bytes(),
    {
        match &self.additional_tweak {
            Some(t) => t.as_slice(),
            None => {
                let empty: &[u8] = &[];
                assert(empty@ =~= Seq::<u8>::empty());
                empty
            },
        }
    }

    /// The commitment of a signer, if the package has one.
    pub fn signing_commitment(&self, identifier: &Identifier) -> (r: Option<SigningCommitments>)
        ensures
            r == lookup_commitment(self.signers(), identifier.value()),
    {
        let mut i: usize = 0;
        assert(self.signers().skip(0) =~= self.signers());
        while i < self.commitments.len()
            invariant
                i <= self.commitments.len(),
                lookup_commitment(self.signers(), identifier.value()) == lookup_commitment(
                    self.signers().skip(i as int),
                    identifier.value(),
                ),
            decreases self.commitments.len() - i,
        {
            let c = self.commitments[i];
            proof {
                assert(self.signers().skip(i as int)[0] == c);
                assert(self.signers().skip(i as int).skip(1) =~= self.signers().skip(i + 1));
            }
            if c.identifier.equals(identifier) {
                return Some(c);
            }
            i = i + 1;
        }
        None
    }
}

} // verus!
