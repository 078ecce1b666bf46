//! The size of an index when it is written out.
use vstd::prelude::*;
use crate::engine::Node;
use crate::models::clamp_u64;
use crate::rmi::TrainedRMI;

verus! {

/// The bytes that a node takes beside its model: its slot and its radius.
pub const NODE_OVERHEAD: u64 = 16;

/// The bytes of the nodes of a layer: for each, its model's parameters, its
/// slot and its radius.
pub open spec fn nodes_size(nodes: Seq<Node>) -> nat
    decreases nodes.len(),
{
    if nodes.len() == 0 {
        0
    } else {
        nodes_size(nodes.drop_last()) + nodes.last().model.form@.size() + NODE_OVERHEAD as nat
    }
}

/// The bytes of all the layers.
pub open spec fn layers_size(layers: Seq<Vec<Node>>) -> nat
    decreases layers.len(),
{
    if layers.len() == 0 {
        0
    } else {
        layers_size(layers.drop_last()) + nodes_size(layers.last()@)
    }
}

/// The size of the index in bytes, or the largest 64-bit number where the
/// size is larger.
pub fn rmi_size(rmi: &TrainedRMI) -> (size: u64)
    ensures
        size == clamp_u64(layers_size(rmi.rmi@) as int),
{
    let mut size: u64 = 0;
    let mut l: usize = 0;
    proof {
        assert(rmi.rmi@.take(0) =~= Seq::empty());
    }
    while l < rmi.rmi.len()
        invariant
            l <= rmi.rmi@.len(),
            size == clamp_u64(layers_size(rmi.rmi@.take(l as int)) as int),
        decreases rmi.rmi@.len() - l,
    {
        let nodes = &rmi.rmi[l];
        let ghost before = layers_size(rmi.rmi@.take(l as int));
        let mut k: usize = 0;
        proof {
            assert(nodes@.take(0) =~= Seq::empty());
        }
        while k < nodes.len()
            invariant
                k <= nodes@.len(),
                size == clamp_u64((before + nodes_size(nodes@.take(k as int))) as int),
            decreases nodes@.len() - k,
        {
            proof {
                let head = nodes@.take(k + 1);
                assert(head.drop_last() =~= nodes@.take(k as int));
                assert(head.last() == nodes@[k as int]);
            }
            size = size.saturating_add(nodes[k].model.size_in_bytes());
            size = size.saturating_add(NODE_OVERHEAD);
            k += 1;
        }
        proof {
            assert(nodes@.take(nodes@.len() as int) =~= nodes@);
            let head = rmi.rmi@.take(l + 1);
            assert(head.drop_last() =~= rmi.rmi@.take(l as int));
            assert(head.last() == rmi.rmi@[l as int]);
        }
        l += 1;
    }
    proof {
        assert(rmi.rmi@.take(rmi.rmi@.len() as int) =~= rmi.rmi@);
    }
    size
}

} // verus!
