//! The operators of a design as a checkpoint keeps them.

use super::durable::{
    add_signature, adding_keeps_order, by_identity, copy_operations, find_signature,
    has_signature, signature_views, with_signature, DurableOperatorArena, OperationAnchorId,
};
use super::selection::{digest_less, row_less, rows_are_ordered};
use super::signature::{
    same_digest, valid_signature, OperatorSignature, OperatorSignatureId, SignatureView,
};
use crate::collections::IdSet;
use crate::error::{Invariant, SynthError};
use crate::word::types::OpId;
use vstd::prelude::*;

verus! {

/// One occurrence of an operator in a checkpoint.
#[derive(Debug)]
pub struct OperatorManifestInstance {
    pub anchor: OperationAnchorId,
    pub signature: OperatorSignatureId,
    pub source_operations: Vec<OpId>,
}

pub ghost struct ManifestInstanceView {
    pub anchor: Seq<u8>,
    pub signature: Seq<u8>,
    pub source_operations: Seq<OpId>,
}

impl View for OperatorManifestInstance {
    type V = ManifestInstanceView;

    open spec fn view(&self) -> ManifestInstanceView {
        ManifestInstanceView {
            anchor: self.anchor.digest@,
            signature: self.signature.digest@,
            source_operations: self.source_operations@,
        }
    }
}

/// Signatures and occurrences of a whole design.
#[derive(Debug)]
pub struct OperatorManifest {
    pub signatures: Vec<OperatorSignature>,
    pub instances: Vec<OperatorManifestInstance>,
}

pub open spec fn manifest_views(instances: Seq<OperatorManifestInstance>) -> Seq<
    ManifestInstanceView,
> {
    instances.map_values(|instance: OperatorManifestInstance| instance@)
}

/// The signatures of the first arenas, one after the other.
pub open spec fn listed_signatures(arenas: Seq<DurableOperatorArena>, count: nat) -> Seq<
    SignatureView,
>
    decreases count,
{
    if count == 0 {
        seq![]
    } else {
        listed_signatures(arenas, (count - 1) as nat) + signature_views(
            arenas[count - 1].signatures@,
        )
    }
}

/// The occurrences of an arena as a checkpoint keeps them.
pub open spec fn listed_instances(arena: DurableOperatorArena) -> Seq<ManifestInstanceView> {
    Seq::new(
        arena.instances@.len(),
        |i: int|
            ManifestInstanceView {
                anchor: arena.instances@[i].anchor.digest@,
                signature: arena.instances@[i].signature.digest@,
                source_operations: arena.instances@[i].source_operations@,
            },
    )
}

/// The occurrences of the first arenas, one after the other.
pub open spec fn all_instances(arenas: Seq<DurableOperatorArena>, count: nat) -> Seq<
    ManifestInstanceView,
>
    decreases count,
{
    if count == 0 {
        seq![]
    } else {
        all_instances(arenas, (count - 1) as nat) + listed_instances(arenas[count - 1])
    }
}

/// The first of a list of signatures, ordered and without repetitions.
pub open spec fn merged(signatures: Seq<SignatureView>, count: nat) -> Result<
    Seq<SignatureView>,
    SynthError,
>
    decreases count,
{
    if count == 0 {
        Ok(seq![])
    } else {
        match merged(signatures, (count - 1) as nat) {
            Err(error) => Err(error),
            Ok(before) => with_signature(before, signatures[count - 1]),
        }
    }
}

/// Merged signatures are ordered by identity.
pub proof fn merged_signatures_are_ordered(signatures: Seq<SignatureView>, count: nat)
    ensures
        merged(signatures, count) matches Ok(all) ==> by_identity(all),
    decreases count,
{
    if count > 0 {
        merged_signatures_are_ordered(signatures, (count - 1) as nat);
        if let Ok(before) = merged(signatures, (count - 1) as nat) {
            adding_keeps_order(before, signatures[count - 1]);
        }
    }
}

proof fn lemma_merged_error(signatures: Seq<SignatureView>, count: nat, total: nat)
    requires
        count <= total,
        merged(signatures, count) is Err,
    ensures
        merged(signatures, total) == merged(signatures, count),
    decreases total - count,
{
    if count < total {
        lemma_merged_error(signatures, count, (total - 1) as nat);
    }
}

proof fn lemma_merged_prefix(left: Seq<SignatureView>, right: Seq<SignatureView>, count: nat)
    requires
        count <= left.len(),
        count <= right.len(),
        forall|i: int| 0 <= i < count ==> #[trigger] left[i] == right[i],
    ensures
        merged(left, count) == merged(right, count),
    decreases count,
{
    if count > 0 {
        lemma_merged_prefix(left, right, (count - 1) as nat);
    }
}

/// Merges the signatures of an arena into those before.
fn merge_arena(
    merged_so_far: &mut Vec<OperatorSignature>,
    arena: &DurableOperatorArena,
    Ghost(before): Ghost<Seq<SignatureView>>,
) -> (result: Result<(), SynthError>)
    requires
        merged(before, before.len()) == Ok::<Seq<SignatureView>, SynthError>(
            signature_views(old(merged_so_far)@),
        ),
    ensures
        ({
            let all = before + signature_views(arena.signatures@);
            match merged(all, all.len()) {
                Ok(found) => result is Ok && signature_views(final(merged_so_far)@) == found,
                Err(error) => result == Err::<(), SynthError>(error),
            }
        }),
{
    let ghost all = before + signature_views(arena.signatures@);
    proof {
        lemma_merged_prefix(before, all, before.len());
    }
    let mut i: usize = 0;
    while i < arena.signatures.len()
        invariant
            all == before + signature_views(arena.signatures@),
            i <= arena.signatures@.len(),
            merged(all, (before.len() + i) as nat) == Ok::<Seq<SignatureView>, SynthError>(
                signature_views(merged_so_far@),
            ),
        decreases arena.signatures.len() - i,
    {
        let signature = arena.signatures[i].copy();
        proof {
            assert(all[before.len() + i] == signature@);
            if merged(all, (before.len() + i + 1) as nat) is Err {
                lemma_merged_error(all, (before.len() + i + 1) as nat, all.len());
            }
        }
        match add_signature(merged_so_far, signature) {
            Ok(()) => {},
            Err(error) => return Err(error),
        }
        i += 1;
    }
    Ok(())
}

proof fn lemma_listed_error(arenas: Seq<DurableOperatorArena>, count: nat, total: nat)
    requires
        count <= total,
        merged(listed_signatures(arenas, count), listed_signatures(arenas, count).len()) is Err,
    ensures
        merged(listed_signatures(arenas, total), listed_signatures(arenas, total).len()) == merged(
            listed_signatures(arenas, count),
            listed_signatures(arenas, count).len(),
        ),
    decreases total - count,
{
    if count < total {
        lemma_listed_error(arenas, count, (total - 1) as nat);
        let before = listed_signatures(arenas, (total - 1) as nat);
        let all = listed_signatures(arenas, total);
        lemma_merged_prefix(before, all, before.len());
        lemma_merged_error(all, before.len(), all.len());
    }
}

impl OperatorManifestInstance {
    /// The lasting identity of the occurrence.
    pub fn anchor(&self) -> (anchor: OperationAnchorId)
        ensures
            anchor == self.anchor,
    {
        self.anchor
    }

    /// The identity of the signature.
    pub fn signature(&self) -> (signature: OperatorSignatureId)
        ensures
            signature == self.signature,
    {
        self.signature
    }

    /// The operations of the source that are part of the occurrence.
    pub fn source_operations(&self) -> (operations: &Vec<OpId>)
        ensures
            *operations == self.source_operations,
    {
        &self.source_operations
    }
}

impl OperatorManifest {
    /// The operators of a design from those of its regions.
    pub fn capture(arenas: &Vec<DurableOperatorArena>) -> (result: Result<Self, SynthError>)
        ensures
            ({
                let listed = listed_signatures(arenas@, arenas@.len());
                match merged(listed, listed.len()) {
                    Ok(signatures) => result matches Ok(manifest) && {
                        &&& signature_views(manifest.signatures@) == signatures
                        &&& manifest_views(manifest.instances@) == all_instances(
                            arenas@,
                            arenas@.len(),
                        )
                    },
                    Err(error) => result matches Err(found) && found == error,
                }
            }),
    {
        let mut signatures: Vec<OperatorSignature> = Vec::new();
        let mut instances: Vec<OperatorManifestInstance> = Vec::new();
        let mut a: usize = 0;
        assert(signature_views(signatures@) =~= Seq::empty());
        assert(manifest_views(instances@) =~= Seq::empty());
        while a < arenas.len()
            invariant
                a <= arenas@.len(),
                merged(
                    listed_signatures(arenas@, a as nat),
                    listed_signatures(arenas@, a as nat).len(),
                ) == Ok::<Seq<SignatureView>, SynthError>(signature_views(signatures@)),
                manifest_views(instances@) == all_instances(arenas@, a as nat),
            decreases arenas.len() - a,
        {
            let ghost before = listed_signatures(arenas@, a as nat);
            proof {
                let next = listed_signatures(arenas@, (a + 1) as nat);
                assert(next == before + signature_views(arenas@[a as int].signatures@));
                if merged(next, next.len()) is Err {
                    lemma_listed_error(arenas@, (a + 1) as nat, arenas@.len());
                }
            }
            match merge_arena(&mut signatures, &arenas[a], Ghost(before)) {
                Ok(()) => {},
                Err(error) => return Err(error),
            }
            list_instances(&mut instances, &arenas[a]);
            a += 1;
        }
        Ok(OperatorManifest { signatures, instances })
    }

    pub open spec fn valid(&self) -> bool {
        let signatures = signature_views(self.signatures@);
        let instances = manifest_views(self.instances@);
        &&& forall|i: int|
            0 <= i < signatures.len() ==> valid_signature(#[trigger] signatures[i])
        &&& by_identity(signatures)
        &&& consistent(signatures, instances)
    }

    /// Checks what was read from a checkpoint: signatures are valid and ordered,
    /// each is used, and occurrences have known signatures, anchors of their own,
    /// and source operations of their own in ascending order.
    pub fn validate_checkpoint(&self) -> (result: Result<(), SynthError>)
        ensures
            result is Ok <==> self.valid(),
            result matches Err(error) ==> error == SynthError::Invariant(
                Invariant::BrokenManifest,
            ),
    {
        let ghost signatures = signature_views(self.signatures@);
        let mut i: usize = 0;
        while i < self.signatures.len()
            invariant
                signatures == signature_views(self.signatures@),
                i <= self.signatures@.len(),
                forall|k: int| 0 <= k < i ==> valid_signature(#[trigger] signatures[k]),
            decreases self.signatures.len() - i,
        {
            assert(signatures[i as int] == self.signatures@[i as int]@);
            match self.signatures[i].validate_checkpoint() {
                Ok(()) => {},
                Err(error) => {
                    assert(!valid_signature(signatures[i as int]));
                    return Err(error);
                },
            }
            i += 1;
        }
        if !is_by_identity(&self.signatures) || !is_consistent(&self.signatures, &self.instances) {
            return Err(SynthError::Invariant(Invariant::BrokenManifest));
        }
        Ok(())
    }

    pub fn signatures(&self) -> (signatures: &Vec<OperatorSignature>)
        ensures
            signatures@ == self.signatures@,
    {
        &self.signatures
    }

    pub fn instances(&self) -> (instances: &Vec<OperatorManifestInstance>)
        ensures
            instances@ == self.instances@,
    {
        &self.instances
    }

    /// The signature with an identity.
    pub fn signature(&self, id: OperatorSignatureId) -> (signature: Option<&OperatorSignature>)
        ensures
            match signature {
                Some(found) => {
                    &&& found.id.digest@ == id.digest@
                    &&& exists|i: int|
                        0 <= i < self.signatures@.len() && *found == #[trigger] self.signatures@[i]
                },
                None => !has_signature(signature_views(self.signatures@), id.digest@),
            },
    {
        match find_signature(&self.signatures, &id) {
            Some(place) => Some(&self.signatures[place]),
            None => None,
        }
    }
}

fn list_instances(instances: &mut Vec<OperatorManifestInstance>, arena: &DurableOperatorArena)
    ensures
        manifest_views(final(instances)@) == manifest_views(old(instances)@) + listed_instances(
            *arena,
        ),
{
    let ghost start = manifest_views(instances@);
    let mut i: usize = 0;
    assert(manifest_views(instances@) =~= start + listed_instances(*arena).take(0));
    while i < arena.instances.len()
        invariant
            i <= arena.instances@.len(),
            manifest_views(instances@) == start + listed_instances(*arena).take(i as int),
        decreases arena.instances.len() - i,
    {
        let ghost before = manifest_views(instances@);
        let instance = OperatorManifestInstance {
            anchor: arena.instances[i].anchor,
            signature: arena.instances[i].signature,
            source_operations: copy_operations(&arena.instances[i].source_operations),
        };
        let ghost added = instance@;
        instances.push(instance);
        proof {
            assert(manifest_views(instances@) =~= before.push(added));
            assert(added == listed_instances(*arena)[i as int]);
            assert(manifest_views(instances@) =~= start + listed_instances(*arena).take(i + 1));
        }
        i += 1;
    }
    assert(listed_instances(*arena).take(i as int) =~= listed_instances(*arena));
}

/// The operations of an occurrence ascend, and there is one.
pub open spec fn ascending_sources(operations: Seq<OpId>) -> bool {
    &&& operations.len() > 0
    &&& forall|i: int, j: int|
        0 <= i < j < operations.len() ==> (#[trigger] operations[i]).raw < (
        #[trigger] operations[j]).raw
}

/// An operation occurs in the sources of an occurrence.
pub open spec fn from_source(instance: ManifestInstanceView, operation: u32) -> bool {
    exists|k: int|
        0 <= k < instance.source_operations.len() && (
        #[trigger] instance.source_operations[k]).raw == operation
}

/// Two occurrences have different anchors and no source operation in common.
pub open spec fn separate(left: ManifestInstanceView, right: ManifestInstanceView) -> bool {
    &&& left.anchor != right.anchor
    &&& forall|operation: u32|
        !(#[trigger] from_source(left, operation) && from_source(right, operation))
}

pub open spec fn is_used(instances: Seq<ManifestInstanceView>, id: Seq<u8>) -> bool {
    exists|i: int| 0 <= i < instances.len() && (#[trigger] instances[i]).signature == id
}

/// Occurrences and signatures belong together.
pub open spec fn consistent(
    signatures: Seq<SignatureView>,
    instances: Seq<ManifestInstanceView>,
) -> bool {
    &&& forall|i: int|
        0 <= i < instances.len() ==> has_signature(
            signatures,
            (#[trigger] instances[i]).signature,
        ) && ascending_sources(instances[i].source_operations)
    &&& forall|s: int|
        0 <= s < signatures.len() ==> is_used(instances, (#[trigger] signatures[s]).id)
    &&& forall|i: int, j: int|
        0 <= i < j < instances.len() ==> separate(#[trigger] instances[i], #[trigger] instances[j])
}

fn is_by_identity(signatures: &Vec<OperatorSignature>) -> (ordered: bool)
    ensures
        ordered == by_identity(signature_views(signatures@)),
{
    let ghost views = signature_views(signatures@);
    if signatures.len() == 0 {
        return true;
    }
    let mut i: usize = 1;
    while i < signatures.len()
        invariant
            views == signature_views(signatures@),
            1 <= i <= signatures@.len(),
            by_identity(views.take(i as int)),
        decreases signatures.len() - i,
    {
        proof {
            assert(views[i as int] == signatures@[i as int]@);
            assert(views[i - 1] == signatures@[i - 1]@);
        }
        if !digest_less(&signatures[i - 1].id.digest, &signatures[i].id.digest) {
            assert(!row_less(views[i - 1].id, views[i as int].id));
            return false;
        }
        proof {
            let next = views.take(i + 1);
            let before = views.take(i as int);
            assert forall|a: int, b: int| 0 <= a < b < next.len() implies row_less(
                (#[trigger] next[a]).id,
                (#[trigger] next[b]).id,
            ) by {
                if b < i {
                    assert(row_less(before[a].id, before[b].id));
                } else if a < i - 1 {
                    assert(row_less(before[a].id, before[i - 1].id));
                    rows_are_ordered(next[a].id, next[i - 1].id, next[b].id);
                }
            }
        }
        i += 1;
    }
    assert(views.take(i as int) =~= views);
    true
}

fn is_ascending(operations: &Vec<OpId>) -> (ascending: bool)
    ensures
        ascending == ascending_sources(operations@),
{
    if operations.len() == 0 {
        return false;
    }
    let mut i: usize = 1;
    while i < operations.len()
        invariant
            1 <= i <= operations@.len(),
            forall|a: int, b: int|
                0 <= a < b < i ==> (#[trigger] operations@[a]).raw < (
                #[trigger] operations@[b]).raw,
        decreases operations.len() - i,
    {
        if operations[i - 1].raw >= operations[i].raw {
            assert(operations@[i - 1].raw >= operations@[i as int].raw);
            return false;
        }
        proof {
            assert forall|a: int, b: int| 0 <= a < b < i + 1 implies (
            #[trigger] operations@[a]).raw < (#[trigger] operations@[b]).raw by {
                if b == i && a < i - 1 {
                    assert(operations@[a].raw < operations@[i - 1].raw);
                }
            }
        }
        i += 1;
    }
    true
}

fn do_separate(left: &OperatorManifestInstance, right: &OperatorManifestInstance) -> (apart: bool)
    ensures
        apart == separate(left@, right@),
{
    if same_digest(&left.anchor.digest, &right.anchor.digest) {
        return false;
    }
    let mut seen: IdSet = IdSet::new();
    let mut i: usize = 0;
    while i < left.source_operations.len()
        invariant
            i <= left.source_operations@.len(),
            forall|operation: u32|
                #[trigger] seen@.contains(operation as u64) <==> exists|k: int|
                    0 <= k < i && (#[trigger] left.source_operations@[k]).raw == operation,
        decreases left.source_operations.len() - i,
    {
        let number: u32 = left.source_operations[i].raw;
        let ghost before = seen@;
        seen.insert(number as u64);
        proof {
            assert forall|operation: u32|
                #[trigger] seen@.contains(operation as u64) <==> exists|k: int|
                    0 <= k < i + 1 && (#[trigger] left.source_operations@[k]).raw
                        == operation by {
                if operation == number {
                    assert(left.source_operations@[i as int].raw == operation);
                } else if before.contains(operation as u64) {
                    let k = choose|k: int|
                        0 <= k < i && (#[trigger] left.source_operations@[k]).raw == operation;
                    assert(left.source_operations@[k].raw == operation);
                }
            }
        }
        i += 1;
    }
    assert forall|operation: u32| #[trigger] seen@.contains(operation as u64) <==> from_source(
        left@,
        operation,
    ) by {
        if from_source(left@, operation) {
            let k = choose|k: int|
                0 <= k < left@.source_operations.len() && (#[trigger] left@.source_operations[k]).raw
                    == operation;
            assert(left.source_operations@[k].raw == operation);
        }
        if seen@.contains(operation as u64) {
            let k = choose|k: int|
                0 <= k < i && (#[trigger] left.source_operations@[k]).raw == operation;
            assert(left@.source_operations[k].raw == operation);
        }
    }
    let mut k: usize = 0;
    while k < right.source_operations.len()
        invariant
            k <= right.source_operations@.len(),
            forall|operation: u32|
                #[trigger] seen@.contains(operation as u64) <==> from_source(left@, operation),
            forall|j: int|
                0 <= j < k ==> !seen@.contains((#[trigger] right.source_operations@[j]).raw as u64),
        decreases right.source_operations.len() - k,
    {
        if seen.contains(right.source_operations[k].raw as u64) {
            proof {
                let operation = right.source_operations@[k as int].raw;
                assert(seen@.contains(operation as u64));
                assert(right@.source_operations[k as int].raw == operation);
                assert(from_source(left@, operation) && from_source(right@, operation));
            }
            return false;
        }
        k += 1;
    }
    proof {
        assert forall|operation: u32| !(#[trigger] from_source(left@, operation) && from_source(
            right@,
            operation,
        )) by {
            if from_source(left@, operation) && from_source(right@, operation) {
                let j = choose|j: int|
                    0 <= j < right@.source_operations.len() && (
                    #[trigger] right@.source_operations[j]).raw == operation;
                assert(!seen@.contains(right.source_operations@[j].raw as u64));
            }
        }
    }
    true
}

fn does_use(instances: &Vec<OperatorManifestInstance>, id: &OperatorSignatureId) -> (used: bool)
    ensures
        used == is_used(manifest_views(instances@), id.digest@),
{
    let ghost views = manifest_views(instances@);
    let mut i: usize = 0;
    while i < instances.len()
        invariant
            views == manifest_views(instances@),
            i <= instances@.len(),
            forall|k: int| 0 <= k < i ==> (#[trigger] views[k]).signature != id.digest@,
        decreases instances.len() - i,
    {
        assert(views[i as int] == instances@[i as int]@);
        if same_digest(&instances[i].signature.digest, &id.digest) {
            return true;
        }
        i += 1;
    }
    false
}

/// Whether an occurrence is separate from all before it.
fn separate_before(instances: &Vec<OperatorManifestInstance>, place: usize) -> (apart: bool)
    requires
        place < instances@.len(),
    ensures
        apart == (forall|i: int|
            0 <= i < place ==> separate(
                (#[trigger] instances@[i])@,
                instances@[place as int]@,
            )),
{
    let mut i: usize = 0;
    while i < place
        invariant
            i <= place < instances@.len(),
            forall|k: int|
                0 <= k < i ==> separate((#[trigger] instances@[k])@, instances@[place as int]@),
        decreases place - i,
    {
        if !do_separate(&instances[i], &instances[place]) {
            assert(!separate(instances@[i as int]@, instances@[place as int]@));
            return false;
        }
        i += 1;
    }
    true
}

fn is_consistent(signatures: &Vec<OperatorSignature>, instances: &Vec<OperatorManifestInstance>)
    -> (result: bool)
    ensures
        result == consistent(signature_views(signatures@), manifest_views(instances@)),
{
    let ghost rows = signature_views(signatures@);
    let ghost views = manifest_views(instances@);
    let mut i: usize = 0;
    while i < instances.len()
        invariant
            rows == signature_views(signatures@),
            views == manifest_views(instances@),
            i <= instances@.len(),
            forall|k: int|
                0 <= k < i ==> has_signature(rows, (#[trigger] views[k]).signature)
                    && ascending_sources(views[k].source_operations),
            forall|a: int, b: int|
                0 <= a < b < i ==> separate(#[trigger] views[a], #[trigger] views[b]),
        decreases instances.len() - i,
    {
        assert(views[i as int] == instances@[i as int]@);
        if find_signature(signatures, &instances[i].signature).is_none() || !is_ascending(
            &instances[i].source_operations,
        ) {
            assert(!has_signature(rows, views[i as int].signature) || !ascending_sources(
                views[i as int].source_operations,
            ));
            return false;
        }
        if !separate_before(instances, i) {
            proof {
                let k = choose|k: int|
                    0 <= k < i && !separate((#[trigger] instances@[k])@, instances@[i as int]@);
                assert(views[k] == instances@[k]@);
                assert(!separate(views[k], views[i as int]));
            }
            return false;
        }
        proof {
            assert forall|a: int, b: int| 0 <= a < b < i + 1 implies separate(
                #[trigger] views[a],
                #[trigger] views[b],
            ) by {
                assert(views[a] == instances@[a]@);
            }
        }
        i += 1;
    }
    let mut s: usize = 0;
    while s < signatures.len()
        invariant
            rows == signature_views(signatures@),
            views == manifest_views(instances@),
            s <= signatures@.len(),
            forall|k: int| 0 <= k < s ==> is_used(views, (#[trigger] rows[k]).id),
        decreases signatures.len() - s,
    {
        assert(rows[s as int] == signatures@[s as int]@);
        if !does_use(instances, &signatures[s].id) {
            assert(!is_used(views, rows[s as int].id));
            return false;
        }
        s += 1;
    }
    true
}

} // verus!
