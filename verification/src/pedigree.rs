use crate::error::Error;
use vstd::prelude::*;

verus! {

/// The position of the sire of the individual at position `i`, or `-1` where
/// it is unknown.
pub open spec fn sire(p: Seq<(i64, i64, i64)>, i: int) -> int {
    p[i].1 - 1
}

/// The position of the dam of the individual at position `i`, or `-1` where
/// it is unknown.
pub open spec fn dam(p: Seq<(i64, i64, i64)>, i: int) -> int {
    p[i].2 - 1
}

/// What is wrong with the entry at position `k`, if anything: a parent id
/// that names nobody, or an entry out of place (its id is not `k + 1`, or a
/// parent does not come before it).
pub open spec fn entry_fault(p: Seq<(i64, i64, i64)>, k: int) -> Option<Error> {
    let (id, s, d) = p[k];
    if s < 0 || s > p.len() || d < 0 || d > p.len() {
        Some(Error::UnknownIndividual)
    } else if id != k + 1 || s >= id || d >= id {
        Some(Error::InvalidPedigreeOrder)
    } else {
        None
    }
}

/// The fault of the first faulty entry among the first `upto`.
pub open spec fn first_fault(p: Seq<(i64, i64, i64)>, upto: nat) -> Option<Error>
    decreases upto,
{
    if upto == 0 {
        None
    } else {
        match first_fault(p, (upto - 1) as nat) {
            Some(e) => Some(e),
            None => entry_fault(p, upto - 1),
        }
    }
}

/// A pedigree is valid when the ids are `1..=n` in order and each known
/// parent comes before its offspring.
pub open spec fn valid_pedigree(p: Seq<(i64, i64, i64)>) -> bool {
    forall|k: int| 0 <= k < p.len() ==> (#[trigger] entry_fault(p, k)) is None
}

/// No fault among the first `upto` entries means that each of them is sound.
pub proof fn lemma_first_fault_none(p: Seq<(i64, i64, i64)>, upto: nat)
    ensures
        first_fault(p, upto) is None <==> forall|k: int|
            0 <= k < upto ==> (#[trigger] entry_fault(p, k)) is None,
    decreases upto,
{
    if upto > 0 {
        lemma_first_fault_none(p, (upto - 1) as nat);
    }
}

/// In a valid pedigree a known parent is an earlier individual.
pub proof fn lemma_parents_precede(p: Seq<(i64, i64, i64)>, i: int)
    requires
        valid_pedigree(p),
        0 <= i < p.len(),
    ensures
        -1 <= sire(p, i) < i,
        -1 <= dam(p, i) < i,
        p[i].0 == i + 1,
{
    assert(entry_fault(p, i) is None);
}

/// Checks the pedigree entry by entry and reports the first fault found.
pub fn check_pedigree(std_ped_vec: &Vec<(i64, i64, i64)>) -> (r: Result<(), Error>)
    ensures
        r is Ok <==> valid_pedigree(std_ped_vec@),
        match first_fault(std_ped_vec@, std_ped_vec@.len()) {
            Some(e) => r == Err::<(), Error>(e),
            None => r is Ok,
        },
{
    let n: usize = std_ped_vec.len();
    let mut k: usize = 0;
    while k < n
        invariant
            k <= n,
            n == std_ped_vec@.len(),
            first_fault(std_ped_vec@, k as nat) is None,
        decreases n - k,
    {
        let (id, s, d) = std_ped_vec[k];
        if s < 0 || s as u64 > n as u64 || d < 0 || d as u64 > n as u64 {
            proof {
                lemma_fault_found(std_ped_vec@, (k + 1) as nat, n as nat);
                lemma_first_fault_none(std_ped_vec@, n as nat);
            }
            return Err(Error::UnknownIndividual);
        }
        if id < 0 || id as u64 != k as u64 + 1 || s >= id || d >= id {
            proof {
                lemma_fault_found(std_ped_vec@, (k + 1) as nat, n as nat);
                lemma_first_fault_none(std_ped_vec@, n as nat);
            }
            return Err(Error::InvalidPedigreeOrder);
        }
        k = k + 1;
    }
    proof {
        lemma_first_fault_none(std_ped_vec@, n as nat);
    }
    Ok(())
}

/// A fault among the first `upto` entries is still the first fault when more
/// entries are looked at.
pub proof fn lemma_fault_found(p: Seq<(i64, i64, i64)>, upto: nat, more: nat)
    requires
        first_fault(p, upto) is Some,
        upto <= more,
    ensures
        first_fault(p, more) == first_fault(p, upto),
    decreases more,
{
    if upto < more {
        lemma_fault_found(p, upto, (more - 1) as nat);
    }
}

/// How many generations lie between the individual at position `i` and the
/// founders it descends from: none for a founder, else one more than for its
/// deeper parent.
pub open spec fn depth(p: Seq<(i64, i64, i64)>, i: int) -> nat
    decreases i,
{
    if 0 <= i < p.len() {
        let s = sire(p, i);
        let d = dam(p, i);
        let above_sire = if 0 <= s < i {
            depth(p, s) + 1
        } else {
            0
        };
        let above_dam = if 0 <= d < i {
            depth(p, d) + 1
        } else {
            0
        };
        if above_sire >= above_dam {
            above_sire
        } else {
            above_dam
        }
    } else {
        0
    }
}

} // verus!
