//! Records of DOM mutations, as queued for mutation observers.
use vstd::prelude::*;
use super::arena::NodeRef;

verus! {

/// One mutation of the tree: what kind it was, its target and what changed.
#[derive(PartialEq, Eq, PartialOrd, Ord, Debug, Clone)]
pub struct MutationRecord {
    pub mutation_type: MutationType,
    pub target: NodeRef,
    pub added_nodes: Vec<NodeRef>,
    pub removed_nodes: Vec<NodeRef>,
    pub previous_sibling: Option<NodeRef>,
    pub next_sibling: Option<NodeRef>,
    pub attribute_name: Option<String>,
    pub attribute_namespace: Option<String>,
    pub old_value: Option<String>,
}

impl MutationRecord {
    /// Queues a "childList" record for `target`; at least one node must have
    /// been added or removed.
    pub fn queue_tree_mutation_record(
        target: NodeRef,
        added_nodes: Vec<NodeRef>,
        removed_nodes: Vec<NodeRef>,
        previous_sibling: Option<NodeRef>,
        next_sibling: Option<NodeRef>,
    )
        requires
            !(added_nodes@.len() == 0 && removed_nodes@.len() == 0),
    {
        Self::queue_mutation_record(
            target,
            MutationType::ChildList,
            None,
            None,
            None,
            added_nodes,
            removed_nodes,
            previous_sibling,
            next_sibling,
        );
    }

    /// Queues a mutation record. No observer is ever registered, so nothing
    /// is delivered.
    pub fn queue_mutation_record(
        _target: NodeRef,
        _mutation_type: MutationType,
        _name: Option<String>,
        _namespace: Option<String>,
        _old_value: Option<String>,
        _added_nodes: Vec<NodeRef>,
        _removed_nodes: Vec<NodeRef>,
        _previous_sibling: Option<NodeRef>,
        _next_sibling: Option<NodeRef>,
    ) {
    }
}

/// The kinds of mutation.
#[derive(PartialEq, Eq, PartialOrd, Ord, Debug, Clone, Copy)]
pub enum MutationType {
    Attributes,
    CharacterData,
    ChildList,
}

} // verus!
