//! Partition tables as `sfdisk -J` describes them.

use vstd::prelude::*;
use crate::num::{decimal, push_decimal};
use crate::text::str_eq;

verus! {

/// One partition of a table.
pub struct Partition {
    /// The device node, such as `/dev/vda1`.
    pub node: String,
    pub start: u64,
    pub size: u64,
    /// The partition type, as `sfdisk` prints it.
    pub parttype: String,
    pub uuid: Option<String>,
    pub name: Option<String>,
}

/// The kind of partition table.
#[derive(Debug, PartialEq, Eq)]
pub enum PartitionType {
    Dos,
    Gpt,
    Unknown(String),
}

/// A partition table and the partitions it lists, in table order.
pub struct PartitionTable {
    pub label: PartitionType,
    pub id: String,
    pub device: String,
    pub partitions: Vec<Partition>,
}

/// The first index from `i` on whose partition has node `node`.
pub open spec fn node_index_from(parts: Seq<Partition>, node: Seq<char>, i: int) -> Option<int>
    decreases parts.len() - i,
{
    if i < 0 || i >= parts.len() {
        None
    } else if parts[i].node@ == node {
        Some(i)
    } else {
        node_index_from(parts, node, i + 1)
    }
}

/// `find` gives the first partition holding the node, wherever it stands,
/// the last one included, and gives nothing only when no partition holds it.
pub proof fn law_find_first_match(parts: Seq<Partition>, node: Seq<char>)
    ensures
        forall|i: int|
            0 <= i < parts.len() && parts[i].node@ == node && (forall|j: int|
                0 <= j < i ==> parts[j].node@ != node) ==> node_index_from(parts, node, 0) == Some(
                i,
            ),
        (forall|j: int| 0 <= j < parts.len() ==> parts[j].node@ != node) ==> node_index_from(
            parts,
            node,
            0,
        ) is None,
{
    assert forall|i: int|
        0 <= i < parts.len() && parts[i].node@ == node && (forall|j: int|
            0 <= j < i ==> parts[j].node@ != node) implies node_index_from(parts, node, 0) == Some(
        i,
    ) by {
        lemma_node_index_skip(parts, node, 0, i);
    }
    if forall|j: int| 0 <= j < parts.len() ==> parts[j].node@ != node {
        lemma_node_index_skip(parts, node, 0, parts.len() as int);
    }
}

proof fn lemma_node_index_skip(parts: Seq<Partition>, node: Seq<char>, from: int, to: int)
    requires
        0 <= from <= to <= parts.len(),
        forall|j: int| from <= j < to ==> parts[j].node@ != node,
    ensures
        node_index_from(parts, node, from) == node_index_from(parts, node, to),
    decreases to - from,
{
    if from < to {
        lemma_node_index_skip(parts, node, from + 1, to);
    }
}

/// A partition number (counted from 1) with no partition in the table.
#[derive(Debug, PartialEq, Eq)]
pub struct MissingPartition {
    pub partno: u32,
}

impl MissingPartition {
    /// `Missing partition for index <partno>`.
    pub fn message(&self) -> (r: String)
        ensures
            r@ == "Missing partition for index "@ + decimal(self.partno as nat),
    {
        let mut m = "Missing partition for index ".to_owned();
        push_decimal(&mut m, self.partno as u64);
        m
    }
}

impl PartitionTable {
    /// The first partition whose device node is `devname`.
    pub fn find(&self, devname: &str) -> (r: Option<&Partition>)
        ensures
            match node_index_from(self.partitions@, devname@, 0) {
                Some(i) => r matches Some(p) && *p == self.partitions@[i],
                None => r is None,
            },
    {
        let mut i: usize = 0;
        while i < self.partitions.len()
            invariant
                i <= self.partitions.len(),
                node_index_from(self.partitions@, devname@, 0) == node_index_from(
                    self.partitions@,
                    devname@,
                    i as int,
                ),
            decreases self.partitions.len() - i,
        {
            if str_eq(self.partitions[i].node.as_str(), devname) {
                return Some(&self.partitions[i]);
            }
            i = i + 1;
        }
        None
    }

    /// The partition at `partno`, counting from 1.
    pub fn find_partno(&self, partno: u32) -> (r: Result<&Partition, MissingPartition>)
        requires
            partno >= 1,
        ensures
            partno <= self.partitions@.len() ==> (r matches Ok(p) && *p == self.partitions@[partno
                - 1]),
            partno > self.partitions@.len() ==> r == Err::<&Partition, MissingPartition>(
                MissingPartition { partno },
            ),
    {
        let idx = (partno - 1) as usize;
        if idx < self.partitions.len() {
            Ok(&self.partitions[idx])
        } else {
            Err(MissingPartition { partno })
        }
    }
}

} // verus!
