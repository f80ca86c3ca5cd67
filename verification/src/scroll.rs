//! The chain of nested scroll containers above a scroll container.

use fnv::FnvHashMap;
use vstd::prelude::*;
use crate::hashing::{parent_links, parent_links_get};

verus! {

/// Walking parent links up from `x` reaches, within `n` steps, an id that
/// is unknown or has no parent.
pub open spec fn walk_ends(m: Map<u64, Option<u64>>, x: u64, n: nat) -> bool
    decreases n,
{
    if n == 0 {
        false
    } else if !m.contains_key(x) || m[x] is None {
        true
    } else {
        walk_ends(m, m[x]->0, (n - 1) as nat)
    }
}

/// The scroll container `id` followed by each enclosing scroll container
/// in turn, up to one that is unknown or has no parent.
pub fn ancestor_chain(parents: &FnvHashMap<u64, Option<u64>>, id: u64) -> (r: Vec<u64>)
    requires
        exists|n: nat| walk_ends(parent_links(*parents), id, n),
    ensures
        r@.len() > 0,
        r@[0] == id,
        forall|i: int|
            0 <= i < r@.len() - 1 ==> parent_links(*parents).contains_key(#[trigger] r@[i]) && parent_links(*parents)[r@[i]]
                == Some(r@[i + 1]),
        !parent_links(*parents).contains_key(r@.last()) || parent_links(*parents)[r@.last()] is None,
{
    let ghost m = parent_links(*parents);
    let ghost mut fuel: nat = choose|n: nat| walk_ends(m, id, n);
    let mut chain: Vec<u64> = Vec::new();
    let mut current = id;
    loop
        invariant
            m == parent_links(*parents),
            walk_ends(m, current, fuel),
            chain@.len() == 0 ==> current == id,
            chain@.len() > 0 ==> chain@[0] == id && m.contains_key(chain@.last()) && m[chain@.last()] == Some(current),
            forall|i: int| 0 <= i < chain@.len() - 1 ==> m.contains_key(#[trigger] chain@[i]) && m[chain@[i]] == Some(chain@[i + 1]),
        decreases fuel,
    {
        let ghost before = chain@;
        chain.push(current);
        proof {
            assert forall|i: int| 0 <= i < chain@.len() - 1 implies m.contains_key(#[trigger] chain@[i]) && m[chain@[i]] == Some(chain@[i + 1]) by {
                if i < before.len() - 1 {
                    assert(chain@[i] == before[i] && chain@[i + 1] == before[i + 1]);
                } else {
                    assert(chain@[i] == before.last());
                }
            }
        }
        match parent_links_get(parents, current) {
            Some(Some(p)) => {
                current = p;
                proof {
                    fuel = (fuel - 1) as nat;
                }
            },
            _ => {
                return chain;
            },
        }
    }
}

} // verus!
