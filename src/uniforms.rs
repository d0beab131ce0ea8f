//! Per-frame uniform records that generator dispatches read their slots from.

use vstd::prelude::*;

verus! {

/// Bytes reserved for each generator run's record.
pub const RECORD_BYTES: usize = 256;

/// Bytes reserved for a dynamic generator's slot list.
pub const DYNAMIC_RECORD_BYTES: usize = 4096;

/// Most slots a dynamic generator's record can list.
pub const MAX_DYNAMIC_SLOTS: usize = 1024;

/// Relies on `bytemuck::cast_slice`: the bytes of `values` in memory order, four per value.
#[verifier::external_body]
fn slot_bytes(values: &[u32]) -> (r: Vec<u8>)
    ensures
        r.len() == 4 * values.len(),
{
    bytemuck::cast_slice::<u32, u8>(values).to_vec()
}

/// Appends `bytes` and then zeros up to `size` bytes.
fn append_padded(uniform_data: &mut Vec<u8>, bytes: &Vec<u8>, size: usize)
    requires
        bytes.len() <= size,
        old(uniform_data).len() + size <= usize::MAX,
    ensures
        final(uniform_data).len() == old(uniform_data).len() + size,
        final(uniform_data)@.subrange(0, old(uniform_data).len() as int) == old(uniform_data)@,
        final(uniform_data)@.subrange(old(uniform_data).len() as int, old(uniform_data).len() + bytes.len()) == bytes@,
        forall|i: int| old(uniform_data).len() + bytes.len() <= i < final(uniform_data).len() ==> #[trigger] final(uniform_data)@[i] == 0,
{
    let start = uniform_data.len();
    let mut i: usize = 0;
    while i < size
        invariant
            bytes.len() <= size,
            start == old(uniform_data).len(),
            start + size <= usize::MAX,
            0 <= i <= size,
            uniform_data.len() == start + i,
            uniform_data@.subrange(0, start as int) == old(uniform_data)@,
            forall|j: int| 0 <= j < i && j < bytes.len() ==> #[trigger] uniform_data@[start + j] == bytes@[j],
            forall|j: int| bytes.len() <= j < i ==> #[trigger] uniform_data@[start + j] == 0,
        decreases size - i,
    {
        let b: u8 = if i < bytes.len() { bytes[i] } else { 0 };
        let ghost before = uniform_data@;
        uniform_data.push(b);
        proof {
            assert(uniform_data@.subrange(0, start as int) =~= before.subrange(0, start as int));
        }
        i = i + 1;
    }
    proof {
        assert forall|j: int| 0 <= j < bytes.len() implies uniform_data@.subrange(start as int, start + bytes.len())[j] == bytes@[j] by {
            assert(uniform_data@[start + j] == bytes@[j]);
        }
        assert(uniform_data@.subrange(start as int, start + bytes.len()) =~= bytes@);
        assert forall|k: int| old(uniform_data).len() + bytes.len() <= k < uniform_data.len() implies #[trigger] uniform_data@[k] == 0 by {
            assert(uniform_data@[start + (k - start)] == 0);
        }
    }
}

/// Appends the record of one generator run: the run's global slot, zero-padded to
/// `RECORD_BYTES`.
pub fn append_generate_uniform(uniform_data: &mut Vec<u8>, slot: u32)
    requires
        old(uniform_data).len() + RECORD_BYTES <= usize::MAX,
    ensures
        final(uniform_data).len() == old(uniform_data).len() + RECORD_BYTES,
        final(uniform_data)@.subrange(0, old(uniform_data).len() as int) == old(uniform_data)@,
        forall|i: int| old(uniform_data).len() + 4 <= i < final(uniform_data).len() ==> #[trigger] final(uniform_data)@[i] == 0,
{
    let one: [u32; 1] = [slot];
    let bytes = slot_bytes(&one);
    append_padded(uniform_data, &bytes, RECORD_BYTES);
}

/// Appends the record of one dynamic generator: its slot list, zero-padded to
/// `DYNAMIC_RECORD_BYTES`.
pub fn append_dynamic_uniforms(uniform_data: &mut Vec<u8>, slots: &Vec<u32>)
    requires
        slots.len() <= MAX_DYNAMIC_SLOTS,
        old(uniform_data).len() + DYNAMIC_RECORD_BYTES <= usize::MAX,
    ensures
        final(uniform_data).len() == old(uniform_data).len() + DYNAMIC_RECORD_BYTES,
        final(uniform_data)@.subrange(0, old(uniform_data).len() as int) == old(uniform_data)@,
        forall|i: int| old(uniform_data).len() + 4 * slots.len() <= i < final(uniform_data).len() ==> #[trigger] final(uniform_data)@[i] == 0,
{
    let bytes = slot_bytes(slots.as_slice());
    append_padded(uniform_data, &bytes, DYNAMIC_RECORD_BYTES);
}

/// The record a mesh generator reads for one node, field by field.
#[derive(Clone, Copy, Debug, PartialEq, Eq, Structural)]
pub struct MeshGenerateUniforms {
    /// Global slot of the node.
    pub slot: u32,
    /// First storage entry of the node among the mesh's nodes.
    pub storage_base_entry: u32,
    /// First entry of the node in the shared mesh buffer.
    pub mesh_base_entry: u32,
    /// Entries each node owns.
    pub entries_per_node: u32,
}

/// The record of a mesh run for the node in global slot `slot`, for a mesh whose
/// shallowest level starts at global slot `base_slot` and whose entries start at
/// `base_entry` in the shared buffer.
pub fn mesh_generate_uniforms(slot: u32, base_slot: u32, entries_per_node: u32, base_entry: u32) -> (r: MeshGenerateUniforms)
    requires
        base_slot <= slot,
        (slot - base_slot) as int * entries_per_node as int + base_entry as int <= u32::MAX,
    ensures
        r.slot == slot,
        r.storage_base_entry == (slot - base_slot) as int * entries_per_node as int,
        r.mesh_base_entry == base_entry as int + (slot - base_slot) as int * entries_per_node as int,
        r.entries_per_node == entries_per_node,
{
    proof {
        let d = (slot - base_slot) as int;
        assert(d * (entries_per_node as int) >= 0) by (nonlinear_arith)
            requires
                d >= 0,
        ;
    }
    let entry = (slot - base_slot) * entries_per_node;
    MeshGenerateUniforms {
        slot,
        storage_base_entry: entry,
        mesh_base_entry: base_entry + entry,
        entries_per_node,
    }
}

} // verus!
