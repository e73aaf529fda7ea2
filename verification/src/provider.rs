//! The provider node's request handling: the authorization gate and the
//! three handlers that serve `GetShare`, `RegisterShare` and `RefreshShare`
//! against a share store.
//!
//! The authorization guarantee is stated in the handlers' contracts: a
//! request whose sender differs from the stored owner gets `success: false`,
//! leaves the store unchanged, and — for a get — carries the empty share
//! `(0, [])` rather than the stored one. The network edge (reply channels,
//! content routing, fan-out) lives outside; the handlers compute the reply
//! and the new store state.

use vstd::prelude::*;

use crate::poly::Polynomial;
use crate::protocol::GetShareResponse;
use crate::protocol::RegisterShareResponse;
use crate::protocol::RefreshShareResponse;
use crate::repository::store_lookup;
use crate::repository::ShareEntry;
use crate::repository::ShareEntryDaoTrait;
use crate::repository::ShareEntryV;
use crate::repository::StoreError;
use crate::sss::poly_views;
use crate::sss::refresh_share;
use crate::sss::refreshed_entry;

verus! {

/// Byte-wise equality of two identity strings.
fn bytes_equal(a: &Vec<u8>, b: &Vec<u8>) -> (r: bool)
    ensures
        r == (a@ == b@),
{
    if a.len() != b.len() {
        return false;
    }
    let mut i: usize = 0;
    while i < a.len()
        invariant
            i <= a@.len(),
            a@.len() == b@.len(),
            forall|m: int| 0 <= m < i ==> a@[m] == b@[m],
        decreases a@.len() - i,
    {
        if a[i] != b[i] {
            return false;
        }
        i = i + 1;
    }
    proof {
        assert(a@ =~= b@);
    }
    true
}

/// The authorization gate: whether the sender of a request is the owner
/// recorded in the entry.
pub fn check_share_owner(entry: &ShareEntry, sender_id: &Vec<u8>) -> (r: bool)
    ensures
        r == (entry@.sender == sender_id@),
{
    bytes_equal(&entry.sender, sender_id)
}

/// The entry written by a successful registration.
pub open spec fn registered_entry(share: (u8, Seq<u8>), sender: Seq<u8>, threshold: u64) -> ShareEntryV {
    ShareEntryV { share, sender, threshold }
}

/// Serve a `GetShare` request: hand the share out to its owner and nobody
/// else. A missing key or a foreign sender gets `success: false` with the
/// empty share `(0, [])`; the store cannot change (the handler only reads
/// it).
pub fn execute_get_share<T: ShareEntryDaoTrait>(key: &str, sender: &Vec<u8>, dao: &T) -> (r:
    GetShareResponse)
    ensures
        match store_lookup(dao.entries(), key@) {
            Some(e) => {
                if e.sender == sender@ {
                    r.success && r.share.0 == e.share.0 && r.share.1@ == e.share.1
                } else {
                    !r.success && r.share.0 == 0 && r.share.1@.len() == 0
                }
            },
            None => !r.success && r.share.0 == 0 && r.share.1@.len() == 0,
        },
{
    match dao.get(key) {
        Ok(Some(entry)) => {
            if check_share_owner(&entry, sender) {
                let ShareEntry { share, sender: _, threshold: _ } = entry;
                GetShareResponse { share, success: true }
            } else {
                GetShareResponse { share: (0, Vec::new()), success: false }
            }
        },
        Ok(None) => GetShareResponse { share: (0, Vec::new()), success: false },
        Err(_) => {
            proof {
                assert(false);
            }
            GetShareResponse { share: (0, Vec::new()), success: false }
        },
    }
}

/// A storable entry, per the data model: a share index in 1..=255, a
/// non-empty share, and a threshold of at least two.
pub open spec fn valid_entry(share: (u8, Seq<u8>), threshold: u64) -> bool {
    share.0 >= 1 && share.1.len() > 0 && threshold >= 2
}

/// Serve a `RegisterShare` request: store the entry under the key unless the
/// key already belongs to a different owner. A request that breaks the
/// stored-entry invariants (index zero, empty share, threshold below two) is
/// invalid and denied. A denied registration changes nothing and reports
/// `success: false`.
pub fn execute_register_share<T: ShareEntryDaoTrait>(
    key: &str,
    sender: &Vec<u8>,
    share: (u8, Vec<u8>),
    threshold: u64,
    dao: &mut T,
) -> (r: RegisterShareResponse)
    ensures
        !valid_entry((share.0, share.1@), threshold) ==> !r.success && final(dao).entries()
            == old(dao).entries(),
        valid_entry((share.0, share.1@), threshold) ==> match store_lookup(
            old(dao).entries(),
            key@,
        ) {
            Some(e) => {
                if e.sender != sender@ {
                    !r.success && final(dao).entries() == old(dao).entries()
                } else {
                    r.success && store_lookup(final(dao).entries(), key@) == Some(
                        registered_entry((share.0, share.1@), sender@, threshold),
                    ) && (forall|k2: Seq<char>|
                        k2 != key@ ==> #[trigger] store_lookup(final(dao).entries(), k2)
                            == store_lookup(old(dao).entries(), k2))
                }
            },
            None => r.success && store_lookup(final(dao).entries(), key@) == Some(
                registered_entry((share.0, share.1@), sender@, threshold),
            ) && (forall|k2: Seq<char>|
                k2 != key@ ==> #[trigger] store_lookup(final(dao).entries(), k2) == store_lookup(
                    old(dao).entries(),
                    k2,
                )),
        },
{
    if share.0 < 1 || share.1.len() == 0 || threshold < 2 {
        return RegisterShareResponse { success: false };
    }
    match dao.get(key) {
        Ok(Some(existing)) => {
            if !check_share_owner(&existing, sender) {
                return RegisterShareResponse { success: false };
            }
        },
        Ok(None) => {
        },
        Err(_) => {
            proof {
                assert(false);
            }
        },
    }
    let entry = ShareEntry { share, sender: sender.clone(), threshold };
    let _ = dao.insert(key, &entry);
    proof {
        assert(entry@ == registered_entry((entry.share.0, entry.share.1@), sender@, threshold));
    }
    RegisterShareResponse { success: true }
}

/// The stored entry after a refresh key of matching length has been applied
/// to it: the share data is shifted, the index, owner and threshold stay.
pub open spec fn refreshed_store_entry(e: ShareEntryV, rk: Seq<Seq<u8>>) -> ShareEntryV {
    ShareEntryV {
        share: (e.share.0, refreshed_entry(e.share.1, rk, e.share.0)),
        sender: e.sender,
        threshold: e.threshold,
    }
}

/// Serve a `RefreshShare` request: apply the refresh key to the stored share
/// and write it back. A missing key fails the request; a foreign sender on a
/// network request is denied and changes nothing; a refresh key whose length
/// does not match the stored share (or an empty share) is an invalid
/// parameter, answered with `success: false` and the entry untouched. A
/// local request (`from_network` false) comes from the node's own scheduler
/// and skips the owner check.
pub fn execute_refresh_share<T: ShareEntryDaoTrait>(
    key: &str,
    sender: &Vec<u8>,
    refresh_key: &Vec<Polynomial>,
    from_network: bool,
    dao: &mut T,
) -> (r: Result<RefreshShareResponse, StoreError>)
    ensures
        match store_lookup(old(dao).entries(), key@) {
            None => r matches Err(e2) && e2 == StoreError::KeyNotFound && final(dao).entries()
                == old(dao).entries(),
            Some(e) => {
                if from_network && e.sender != sender@ {
                    r matches Ok(resp) && !resp.success && final(dao).entries() == old(
                        dao,
                    ).entries()
                } else if e.share.1.len() > 0 && e.share.1.len() == refresh_key@.len() {
                    r matches Ok(resp) && resp.success && store_lookup(
                        final(dao).entries(),
                        key@,
                    ) == Some(refreshed_store_entry(e, poly_views(refresh_key@))) && (forall|
                        k2: Seq<char>,
                    |
                        k2 != key@ ==> #[trigger] store_lookup(final(dao).entries(), k2)
                            == store_lookup(old(dao).entries(), k2))
                } else {
                    r matches Ok(resp) && !resp.success && final(dao).entries() == old(
                        dao,
                    ).entries()
                }
            },
        },
{
    let mut entry = match dao.get(key) {
        Ok(Some(e)) => e,
        Ok(None) => {
            return Err(StoreError::KeyNotFound);
        },
        Err(_) => {
            proof {
                assert(false);
            }
            return Err(StoreError::KeyNotFound);
        },
    };
    if from_network {
        if !check_share_owner(&entry, sender) {
            return Ok(RefreshShareResponse { success: false });
        }
    }
    if entry.share.1.len() == 0 || entry.share.1.len() != refresh_key.len() {
        // the engine would reject this refresh as invalid parameters:
        // report the failure and leave the stored share untouched
        return Ok(RefreshShareResponse { success: false });
    }
    let ghost e0 = entry@;
    let x = entry.share.0;
    let _ = refresh_share(x, &mut entry.share.1, refresh_key);
    proof {
        assert(entry@ == refreshed_store_entry(e0, poly_views(refresh_key@)));
    }
    let _ = dao.insert(key, &entry);
    Ok(RefreshShareResponse { success: true })
}

/// The providers a refresh round fans out to: every provider of the key
/// except the local node, in the order the transport reported them.
pub open spec fn spec_remote_providers(ps: Seq<Seq<u8>>, local: Seq<u8>) -> Seq<Seq<u8>>
    decreases ps.len(),
{
    if ps.len() == 0 {
        Seq::empty()
    } else {
        let rest = spec_remote_providers(ps.drop_last(), local);
        if ps.last() == local {
            rest
        } else {
            rest.push(ps.last())
        }
    }
}

/// Drop the local node from a provider set before a refresh round fans out.
pub fn remote_providers(providers: Vec<Vec<u8>>, local: &Vec<u8>) -> (r: Vec<Vec<u8>>)
    ensures
        r@.map_values(|v: Vec<u8>| v@) == spec_remote_providers(
            providers@.map_values(|v: Vec<u8>| v@),
            local@,
        ),
{
    let ghost views = providers@.map_values(|v: Vec<u8>| v@);
    let mut out: Vec<Vec<u8>> = Vec::new();
    let mut k: usize = 0;
    proof {
        assert(out@.map_values(|v: Vec<u8>| v@) =~= spec_remote_providers(
            views.take(0),
            local@,
        ));
    }
    let n = providers.len();
    let mut providers = providers;
    proof {
        assert(providers@.map_values(|v: Vec<u8>| v@) == views);
    }
    while k < n
        invariant
            k <= n,
            n == providers@.len(),
            views == providers@.map_values(|v: Vec<u8>| v@),
            out@.map_values(|v: Vec<u8>| v@) == spec_remote_providers(views.take(k as int), local@),
        decreases n - k,
    {
        proof {
            assert(views.take(k + 1).drop_last() =~= views.take(k as int));
            assert(views.take(k + 1).last() == views[k as int]);
            assert(views[k as int] == providers@[k as int]@);
        }
        let p = providers[k].clone();
        if bytes_equal(&p, local) {
            proof {
                assert(out@.map_values(|v: Vec<u8>| v@) == spec_remote_providers(
                    views.take(k + 1),
                    local@,
                ));
            }
        } else {
            out.push(p);
            proof {
                assert(out@.map_values(|v: Vec<u8>| v@) =~= spec_remote_providers(
                    views.take(k + 1),
                    local@,
                ));
            }
        }
        k = k + 1;
    }
    proof {
        assert(views.take(views.len() as int) =~= views);
    }
    out
}

} // verus!
