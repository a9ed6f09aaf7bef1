//! The arrangement store: turning an arrangement into the blob that is
//! persisted, and interpreting a blob read back under a requested name.
//!
//! Where the blob lives and how it is read or written is the embedding
//! program's concern; this module decides what the bytes mean.

use vstd::prelude::*;

use crate::codec::{
    decode_arrangement, enc_arrangement, encode_arrangement, lemma_arrangement_round_trip,
    parse_arrangement,
};
use crate::model::Arrangement;

verus! {

/// Why the store could not save or load an arrangement.
#[derive(PartialEq, Eq, Structural, Clone, Copy, Debug)]
pub enum StoreError {
    /// No data exists at the storage location.
    NotFound,
    /// The data at the location is not an encoded arrangement.
    Corrupt,
    /// The data is an arrangement, but under a different name than the one
    /// requested.
    NameMismatch,
    /// The blob could not be written.
    WriteFailed,
}

/// Character-for-character string equality.
fn str_eq(a: &str, b: &str) -> (r: bool)
    ensures
        r == (a@ == b@),
{
    let n = a.unicode_len();
    let m = b.unicode_len();
    if n != m {
        proof {
            assert(a@ != b@);
        }
        return false;
    }
    let mut k: usize = 0;
    while k < n
        invariant
            k <= n,
            n == a@.len(),
            n == b@.len(),
            forall|q: int| 0 <= q < k ==> a@[q] == b@[q],
        decreases n - k,
    {
        if a.get_char(k) != b.get_char(k) {
            return false;
        }
        k = k + 1;
    }
    proof {
        assert(a@ =~= b@);
    }
    true
}

/// The blob that `save` writes for an arrangement: its deterministic
/// textual encoding.
pub fn save_blob(a: &Arrangement) -> (r: String)
    ensures
        r@ == enc_arrangement(a.name@, a.positions@),
        parse_arrangement(r@) == Some((a.name@, a.positions@)),
{
    proof {
        lemma_arrangement_round_trip(a.name@, a.positions@);
    }
    encode_arrangement(a)
}

/// Interprets what was read from the storage location when the arrangement
/// `name` was requested. `blob` is `None` when no data exists there.
///
/// The result is pinned down for every input: no data is `NotFound`, text
/// that is not an encoded arrangement is `Corrupt`, an arrangement under
/// another name is `NameMismatch` (never silently returned), and otherwise
/// the decoded arrangement comes back under the requested name.
pub fn load_arrangement(blob: Option<&str>, name: &str) -> (r: Result<Arrangement, StoreError>)
    ensures
        match blob {
            None => r == Err::<Arrangement, StoreError>(StoreError::NotFound),
            Some(b) => match parse_arrangement(b@) {
                None => r == Err::<Arrangement, StoreError>(StoreError::Corrupt),
                Some((nm, ps)) => if nm == name@ {
                    r matches Ok(a) && a.name@ == nm && a.positions@ == ps
                } else {
                    r == Err::<Arrangement, StoreError>(StoreError::NameMismatch)
                },
            },
        },
{
    match blob {
        None => Err(StoreError::NotFound),
        Some(b) => match decode_arrangement(b) {
            None => Err(StoreError::Corrupt),
            Some(a) => {
                if str_eq(a.name.as_str(), name) {
                    Ok(a)
                } else {
                    Err(StoreError::NameMismatch)
                }
            },
        },
    }
}

} // verus!
