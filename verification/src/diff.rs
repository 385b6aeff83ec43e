//! The set difference as one list of tagged items.

use vstd::prelude::*;
use crate::decoder::{cells_of, pairs, State};
use crate::symbol::Symbol;

verus! {

/// An item that one of two parties holds and the other does not.
#[derive(PartialEq, Eq, Clone, Copy, Debug)]
pub enum Delta<const N: usize> {
    /// The remote party holds the item, the local party does not.
    InRemote([u8; N]),
    /// The local party holds the item, the remote party does not.
    InLocal([u8; N]),
}

impl<const N: usize> Delta<N> {
    /// The bytes of the item.
    pub open spec fn bytes(self) -> Seq<u8> {
        match self {
            Delta::InRemote(item) => item@,
            Delta::InLocal(item) => item@,
        }
    }
}

/// `deltas` lists the items of `remote`, tagged as the remote party's, and
/// then those of `local`, tagged as the local party's.
pub open spec fn lists<const N: usize>(
    deltas: Seq<Delta<N>>,
    remote: Seq<Seq<u8>>,
    local: Seq<Seq<u8>>,
) -> bool {
    &&& deltas.len() == remote.len() + local.len()
    &&& forall|i: int|
        0 <= i < remote.len() ==> (#[trigger] deltas[i]) is InRemote && deltas[i].bytes()
            == remote[i]
    &&& forall|i: int|
        remote.len() <= i < deltas.len() ==> (#[trigger] deltas[i]) is InLocal && deltas[i].bytes()
            == local[i - remote.len()]
}

/// Decodes two streams pairwise until the decoder is complete. Returns the
/// items that only one party holds, those of the remote party first, or
/// `None` if either stream ends before the decoder is complete.
pub fn set_difference<const N: usize>(remote: &[Symbol<N>], local: &[Symbol<N>]) -> (out: Option<
    Vec<Delta<N>>,
>)
    ensures
        match out {
            Some(deltas) => State::decoded(
                cells_of(remote@),
                cells_of(local@),
                N as nat,
                pairs(remote@.len(), local@.len()),
            ) matches Some(s) && lists(deltas@, s.remote, s.local),
            None => State::decoded(
                cells_of(remote@),
                cells_of(local@),
                N as nat,
                pairs(remote@.len(), local@.len()),
            ) is None,
        },
{
    match crate::decoder::set_difference(remote, local) {
        Some((in_remote, in_local)) => {
            let mut deltas: Vec<Delta<N>> = Vec::new();
            let mut i: usize = 0;
            while i < in_remote.len()
                invariant
                    0 <= i <= in_remote@.len(),
                    deltas@.len() == i,
                    forall|j: int|
                        0 <= j < i ==> (#[trigger] deltas@[j]) is InRemote && deltas@[j].bytes()
                            == in_remote@[j]@,
                decreases in_remote@.len() - i,
            {
                deltas.push(Delta::InRemote(in_remote[i]));
                i += 1;
            }
            let mut i: usize = 0;
            while i < in_local.len()
                invariant
                    0 <= i <= in_local@.len(),
                    deltas@.len() == in_remote@.len() + i,
                    forall|j: int|
                        0 <= j < in_remote@.len() ==> (#[trigger] deltas@[j]) is InRemote
                            && deltas@[j].bytes() == in_remote@[j]@,
                    forall|j: int|
                        in_remote@.len() <= j < deltas@.len() ==> (#[trigger] deltas@[j]) is InLocal
                            && deltas@[j].bytes() == in_local@[j - in_remote@.len()]@,
                decreases in_local@.len() - i,
            {
                deltas.push(Delta::InLocal(in_local[i]));
                i += 1;
            }
            Some(deltas)
        },
        None => None,
    }
}

} // verus!
