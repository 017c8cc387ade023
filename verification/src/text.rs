//! Small byte-string helpers shared by the configuration, the vetting
//! checks and the manager: country codes, versions and sticky client keys
//! travel as plain byte strings.
use vstd::prelude::*;

verus! {

/// Byte-for-byte equality of two byte strings.
pub fn bytes_eq(a: &[u8], b: &[u8]) -> (r: bool)
    ensures
        r <==> a@ =~= b@,
{
    if a.len() != b.len() {
        return false;
    }
    let mut i: usize = 0;
    while i < a.len()
        invariant
            i <= a@.len(),
            a@.len() == b@.len(),
            forall|j: int| 0 <= j < i ==> a@[j] == b@[j],
        decreases a@.len() - i,
    {
        if a[i] != b[i] {
            return false;
        }
        i = i + 1;
    }
    proof {
        assert(a@ =~= b@);
    }
    true
}

/// An ASCII upper-case letter folded to lower case; all else unchanged.
pub open spec fn spec_lower(c: u8) -> u8 {
    if 65 <= c <= 90 {
        (c + 32) as u8
    } else {
        c
    }
}

/// Equality up to ASCII case.
pub open spec fn spec_eq_ignore_case(a: Seq<u8>, b: Seq<u8>) -> bool {
    a.map_values(|c: u8| spec_lower(c)) == b.map_values(|c: u8| spec_lower(c))
}

/// Compares two byte strings ignoring ASCII case, as country codes are
/// matched against the allow list.
pub fn eq_ignore_case(a: &[u8], b: &[u8]) -> (r: bool)
    ensures
        r <==> spec_eq_ignore_case(a@, b@),
{
    if a.len() != b.len() {
        proof {
            assert(a@.map_values(|c: u8| spec_lower(c)).len() != b@.map_values(
                |c: u8| spec_lower(c),
            ).len());
        }
        return false;
    }
    let mut i: usize = 0;
    while i < a.len()
        invariant
            i <= a@.len(),
            a@.len() == b@.len(),
            forall|j: int| 0 <= j < i ==> spec_lower(a@[j]) == spec_lower(b@[j]),
        decreases a@.len() - i,
    {
        let ca = if 65 <= a[i] && a[i] <= 90 {
            a[i] + 32
        } else {
            a[i]
        };
        let cb = if 65 <= b[i] && b[i] <= 90 {
            b[i] + 32
        } else {
            b[i]
        };
        if ca != cb {
            proof {
                let al = a@.map_values(|c: u8| spec_lower(c));
                let bl = b@.map_values(|c: u8| spec_lower(c));
                assert(al[i as int] == spec_lower(a@[i as int]));
                assert(bl[i as int] == spec_lower(b@[i as int]));
                assert(al != bl);
            }
            return false;
        }
        i = i + 1;
    }
    proof {
        let al = a@.map_values(|c: u8| spec_lower(c));
        let bl = b@.map_values(|c: u8| spec_lower(c));
        assert(al =~= bl);
    }
    true
}

} // verus!
