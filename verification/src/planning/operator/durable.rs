//! Operators kept beyond the decisions that they were chosen in.

use super::decisions::{term_inputs, ArchitectureDecisions};
use super::recognition::{RecognizedView, MISSING_OPERATOR_ID};
use super::selection::row_less;
use super::signature::{
    same_digest, signature_digest, signature_id, DynamicExtractShape, OperatorShape,
    OperatorSignature, OperatorSignatureId, OperatorTermShape, ShapeView, SignatureView,
};
use crate::error::{Invariant, SynthError};
use crate::planning::architecture::{ArithmeticTerm, OperatorId, OperatorKind, SemanticOperator};
use crate::word::module::{ModuleView, WordModule};
use crate::word::types::{OpId, ValueId, WordType};
use vstd::prelude::*;

verus! {

/// The lasting identity of an operation of the source.
#[derive(Clone, Copy, PartialEq, Eq, PartialOrd, Ord, Hash, Debug)]
pub struct OperationAnchorId {
    pub digest: [u8; 32],
}

/// One occurrence of an operator.
#[derive(Debug)]
pub struct PreservedOperatorInstance {
    pub operator: OperatorId,
    pub anchor: OperationAnchorId,
    pub signature: OperatorSignatureId,
    pub operands: Vec<ValueId>,
    pub result: ValueId,
    pub source_operations: Vec<OpId>,
}

pub ghost struct InstanceView {
    pub operator: OperatorId,
    pub anchor: Seq<u8>,
    pub signature: Seq<u8>,
    pub operands: Seq<ValueId>,
    pub result: ValueId,
    pub source_operations: Seq<OpId>,
}

impl View for PreservedOperatorInstance {
    type V = InstanceView;

    open spec fn view(&self) -> InstanceView {
        InstanceView {
            operator: self.operator,
            anchor: self.anchor.digest@,
            signature: self.signature.digest@,
            operands: self.operands@,
            result: self.result,
            source_operations: self.source_operations@,
        }
    }
}

impl PreservedOperatorInstance {
    /// The operator of the region.
    pub fn operator(&self) -> (operator: OperatorId)
        ensures
            operator == self.operator,
    {
        self.operator
    }

    /// The lasting identity of the occurrence.
    pub fn anchor(&self) -> (anchor: OperationAnchorId)
        ensures
            anchor == self.anchor,
    {
        self.anchor
    }

    /// The identity of the signature.
    pub fn signature(&self) -> (signature: OperatorSignatureId)
        ensures
            signature == self.signature,
    {
        self.signature
    }

    /// The operands, in the order of the signature.
    pub fn operands(&self) -> (operands: &Vec<ValueId>)
        ensures
            *operands == self.operands,
    {
        &self.operands
    }

    /// The value that the occurrence gives.
    pub fn result(&self) -> (result: ValueId)
        ensures
            result == self.result,
    {
        self.result
    }

    /// The operations of the source that are part of the occurrence.
    pub fn source_operations(&self) -> (operations: &Vec<OpId>)
        ensures
            *operations == self.source_operations,
    {
        &self.source_operations
    }
}

/// The operators of a region: signatures ordered by identity, occurrences in the
/// order of recognition, and the operator of every operation.
#[derive(Debug)]
pub struct DurableOperatorArena {
    pub signatures: Vec<OperatorSignature>,
    pub instances: Vec<PreservedOperatorInstance>,
    pub operator_by_local_operation: Vec<u32>,
}

pub open spec fn signature_views(signatures: Seq<OperatorSignature>) -> Seq<SignatureView> {
    signatures.map_values(|signature: OperatorSignature| signature@)
}

pub open spec fn instance_views(instances: Seq<PreservedOperatorInstance>) -> Seq<InstanceView> {
    instances.map_values(|instance: PreservedOperatorInstance| instance@)
}

/// The first place from which identities are no longer less than one.
pub open spec fn place_from(signatures: Seq<SignatureView>, id: Seq<u8>, from: nat) -> nat
    decreases signatures.len() - from,
{
    if from < signatures.len() && row_less(signatures[from as int].id, id) {
        place_from(signatures, id, from + 1)
    } else {
        from
    }
}

/// Signatures with one more. A second one with its identity must be the same.
pub open spec fn with_signature(signatures: Seq<SignatureView>, signature: SignatureView) -> Result<
    Seq<SignatureView>,
    SynthError,
> {
    let place = place_from(signatures, signature.id, 0) as int;
    if place < signatures.len() && signatures[place].id == signature.id {
        if signatures[place] == signature {
            Ok(signatures)
        } else {
            Err(SynthError::Invariant(Invariant::BrokenManifest))
        }
    } else {
        Ok(signatures.insert(place, signature))
    }
}

/// Signatures are ordered by their identities, each of which occurs once.
pub open spec fn by_identity(signatures: Seq<SignatureView>) -> bool {
    forall|i: int, j: int|
        0 <= i < j < signatures.len() ==> row_less(
            (#[trigger] signatures[i]).id,
            (#[trigger] signatures[j]).id,
        )
}

proof fn lemma_place(signatures: Seq<SignatureView>, id: Seq<u8>, from: nat)
    requires
        from <= signatures.len(),
    ensures
        from <= place_from(signatures, id, from) <= signatures.len(),
        forall|i: int|
            from <= i < place_from(signatures, id, from) ==> row_less(
                (#[trigger] signatures[i]).id,
                id,
            ),
        place_from(signatures, id, from) < signatures.len() ==> !row_less(
            signatures[place_from(signatures, id, from) as int].id,
            id,
        ),
    decreases signatures.len() - from,
{
    if from < signatures.len() && row_less(signatures[from as int].id, id) {
        lemma_place(signatures, id, from + 1);
    }
}

/// Adding a signature keeps the order of the others.
pub proof fn adding_keeps_order(signatures: Seq<SignatureView>, signature: SignatureView)
    requires
        by_identity(signatures),
    ensures
        with_signature(signatures, signature) matches Ok(all) ==> by_identity(all),
{
    let id = signature.id;
    let place = place_from(signatures, id, 0) as int;
    lemma_place(signatures, id, 0);
    if let Ok(all) = with_signature(signatures, signature) {
        if all != signatures {
            assert forall|i: int, j: int| 0 <= i < j < all.len() implies row_less(
                (#[trigger] all[i]).id,
                (#[trigger] all[j]).id,
            ) by {
                if i < place {
                    assert(all[i] == signatures[i]);
                } else if i > place {
                    assert(all[i] == signatures[i - 1]);
                }
                if j < place {
                    assert(all[j] == signatures[j]);
                } else if j > place {
                    assert(all[j] == signatures[j - 1]);
                }
                if i == place {
                    super::selection::rows_are_ordered(id, signatures[place].id, all[j].id);
                    if j - 1 > place {
                        assert(row_less(signatures[place].id, signatures[j - 1].id));
                    }
                }
            }
        }
    }
}

/// Adds a signature at its place.
pub fn add_signature(signatures: &mut Vec<OperatorSignature>, signature: OperatorSignature)
    -> (result: Result<(), SynthError>)
    ensures
        match with_signature(signature_views(old(signatures)@), signature@) {
            Ok(all) => result is Ok && signature_views(final(signatures)@) == all,
            Err(error) => result == Err::<(), SynthError>(error) && *final(signatures)
                == *old(signatures),
        },
{
    let ghost views = signature_views(signatures@);
    let ghost id = signature.id.digest@;
    let mut place: usize = 0;
    while place < signatures.len() && super::selection::digest_less(
        &signatures[place].id.digest,
        &signature.id.digest,
    )
        invariant
            views == signature_views(signatures@),
            id == signature.id.digest@,
            place <= signatures@.len(),
            place_from(views, id, 0) == place_from(views, id, place as nat),
        decreases signatures.len() - place,
    {
        assert(views[place as int] == signatures@[place as int]@);
        place += 1;
    }
    if place < signatures.len() {
        assert(views[place as int] == signatures@[place as int]@);
        if same_digest(&signatures[place].id.digest, &signature.id.digest) {
            if signatures[place].same(&signature) {
                return Ok(());
            }
            return Err(SynthError::Invariant(Invariant::BrokenManifest));
        }
    }
    let ghost added = signature@;
    signatures.insert(place, signature);
    assert(signature_views(signatures@) =~= views.insert(place as int, added));
    Ok(())
}

/// The shape of an operator.
pub open spec fn shape_of(semantic: SemanticOperator, terms: Seq<ArithmeticTerm>) -> Result<
    ShapeView,
    SynthError,
> {
    match semantic.class {
        OperatorKind::Sum => Ok(
            ShapeView::Sum(terms.map_values(|term: ArithmeticTerm| term_shape(term))),
        ),
        OperatorKind::DynamicExtract => match semantic.extraction {
            None => Err(SynthError::Invariant(Invariant::BrokenManifest)),
            Some(bounds) => Ok(
                ShapeView::DynamicExtract(
                    DynamicExtractShape {
                        maximum_offset: bounds.maximum,
                        selection_max: bounds.selectable,
                        alignment: bounds.aligned,
                        offset_width: bounds.width,
                        tap_count: bounds.taps,
                    },
                ),
            ),
        },
        OperatorKind::Divide => Ok(ShapeView::Division),
        OperatorKind::Modulo => Ok(ShapeView::Division),
        _ => Ok(ShapeView::Arithmetic),
    }
}

pub open spec fn term_shape(term: ArithmeticTerm) -> OperatorTermShape {
    match term {
        ArithmeticTerm::Value { ty, negative, .. } => OperatorTermShape::Value { ty, negative },
        ArithmeticTerm::Product { left_type, right_type, ty, negative, constant_input, .. } => {
            OperatorTermShape::Product { left_type, right_type, ty, negative, constant_input }
        },
    }
}

/// The terms of an operator, none where it is not fused.
pub open spec fn terms_of(recognized: RecognizedView, semantic: SemanticOperator) -> Seq<
    ArithmeticTerm,
> {
    if semantic.number.number < recognized.terms.len() {
        recognized.terms[semantic.number.number as int]
    } else {
        seq![]
    }
}

pub open spec fn operands_of(recognized: RecognizedView, semantic: SemanticOperator) -> Seq<
    ValueId,
> {
    let terms = terms_of(recognized, semantic);
    if terms.len() > 0 {
        term_inputs(terms, terms.len())
    } else {
        seq![semantic.left, semantic.right]
    }
}

/// Every operand and the result are values of the module.
pub open spec fn operands_known(module: ModuleView, operands: Seq<ValueId>) -> bool {
    forall|i: int| 0 <= i < operands.len() ==> module.has(#[trigger] operands[i])
}

pub open spec fn operand_types(module: ModuleView, operands: Seq<ValueId>) -> Seq<WordType> {
    operands.map_values(|value: ValueId| module.ty(value))
}

/// The signature of an operator.
pub open spec fn signature_of(
    module: ModuleView,
    recognized: RecognizedView,
    semantic: SemanticOperator,
) -> Result<SignatureView, SynthError> {
    let operands = operands_of(recognized, semantic);
    if !operands_known(module, operands) || !module.has(semantic.output) {
        Err(SynthError::Invariant(Invariant::UnknownValue))
    } else {
        match shape_of(semantic, terms_of(recognized, semantic)) {
            Err(error) => Err(error),
            Ok(shape) => {
                let draft = SignatureView {
                    id: seq![],
                    kind: semantic.class,
                    input_types: operand_types(module, operands),
                    result_type: module.ty(semantic.output),
                    implementation_width: semantic.implementation_width,
                    shape,
                };
                Ok(SignatureView { id: signature_digest(draft), ..draft })
            },
        }
    }
}

pub ghost struct Kept {
    pub signatures: Seq<SignatureView>,
    pub instances: Seq<InstanceView>,
}

/// What is kept of the first operators.
pub open spec fn kept(
    module: ModuleView,
    recognized: RecognizedView,
    sources: Seq<Vec<OpId>>,
    anchors: Seq<Option<OperationAnchorId>>,
    count: nat,
) -> Result<Kept, SynthError>
    decreases count,
{
    if count == 0 {
        Ok(Kept { signatures: seq![], instances: seq![] })
    } else {
        match kept(module, recognized, sources, anchors, (count - 1) as nat) {
            Err(error) => Err(error),
            Ok(before) => keep_next(
                module,
                recognized,
                recognized.operators[count - 1],
                sources[count - 1]@,
                anchors,
                before,
            ),
        }
    }
}

pub open spec fn anchor_of(anchors: Seq<Option<OperationAnchorId>>, operation: OpId) -> Option<
    OperationAnchorId,
> {
    if operation.raw < anchors.len() {
        anchors[operation.raw as int]
    } else {
        None
    }
}

pub open spec fn keep_next(
    module: ModuleView,
    recognized: RecognizedView,
    semantic: SemanticOperator,
    sources: Seq<OpId>,
    anchors: Seq<Option<OperationAnchorId>>,
    before: Kept,
) -> Result<Kept, SynthError> {
    match signature_of(module, recognized, semantic) {
        Err(error) => Err(error),
        Ok(signature) => match with_signature(before.signatures, signature) {
            Err(error) => Err(error),
            Ok(signatures) => if sources.len() == 0 {
                Err(SynthError::Invariant(Invariant::BrokenSource))
            } else {
                match anchor_of(anchors, sources[0]) {
                    None => Err(SynthError::Invariant(Invariant::BrokenSource)),
                    Some(anchor) => Ok(
                        Kept {
                            signatures,
                            instances: before.instances.push(
                                InstanceView {
                                    operator: semantic.number,
                                    anchor: anchor.digest@,
                                    signature: signature.id,
                                    operands: operands_of(recognized, semantic),
                                    result: semantic.output,
                                    source_operations: sources,
                                },
                            ),
                        },
                    ),
                }
            },
        },
    }
}

fn do_shape_of(semantic: &SemanticOperator, terms: Option<&Vec<ArithmeticTerm>>) -> (result: Result<
    OperatorShape,
    SynthError,
>)
    ensures
        match shape_of(
            *semantic,
            match terms {
                Some(row) => row@,
                None => seq![],
            },
        ) {
            Ok(shape) => result matches Ok(found) && found@ == shape,
            Err(error) => result matches Err(found) && found == error,
        },
{
    match semantic.class {
        OperatorKind::Sum => {
            let mut shapes: Vec<OperatorTermShape> = Vec::new();
            if let Some(row) = terms {
                let mut i: usize = 0;
                while i < row.len()
                    invariant
                        i <= row@.len(),
                        shapes@.len() == i,
                        forall|k: int| 0 <= k < i ==> #[trigger] shapes@[k] == term_shape(row@[k]),
                    decreases row.len() - i,
                {
                    shapes.push(
                        match row[i] {
                            ArithmeticTerm::Value { ty, negative, .. } => {
                                OperatorTermShape::Value { ty, negative }
                            },
                            ArithmeticTerm::Product {
                                left_type,
                                right_type,
                                ty,
                                negative,
                                constant_input,
                                ..
                            } => OperatorTermShape::Product {
                                left_type,
                                right_type,
                                ty,
                                negative,
                                constant_input,
                            },
                        },
                    );
                    i += 1;
                }
                assert(shapes@ =~= row@.map_values(|term: ArithmeticTerm| term_shape(term)));
            } else {
                assert(shapes@ =~= Seq::<ArithmeticTerm>::empty().map_values(
                    |term: ArithmeticTerm| term_shape(term),
                ));
            }
            Ok(OperatorShape::Sum(shapes))
        },
        OperatorKind::DynamicExtract => match semantic.extraction {
            None => Err(SynthError::Invariant(Invariant::BrokenManifest)),
            Some(bounds) => Ok(
                OperatorShape::DynamicExtract(
                    DynamicExtractShape {
                        maximum_offset: bounds.maximum,
                        selection_max: bounds.selectable,
                        alignment: bounds.aligned,
                        offset_width: bounds.width,
                        tap_count: bounds.taps,
                    },
                ),
            ),
        },
        OperatorKind::Divide => Ok(OperatorShape::Division),
        OperatorKind::Modulo => Ok(OperatorShape::Division),
        OperatorKind::Add => Ok(OperatorShape::Arithmetic),
        OperatorKind::Subtract => Ok(OperatorShape::Arithmetic),
        OperatorKind::Increment => Ok(OperatorShape::Arithmetic),
        OperatorKind::Decrement => Ok(OperatorShape::Arithmetic),
        OperatorKind::Multiply => Ok(OperatorShape::Arithmetic),
    }
}

fn do_operand_types(module: &WordModule, operands: &Vec<ValueId>) -> (types: Option<Vec<WordType>>)
    ensures
        match types {
            Some(row) => operands_known(module@, operands@) && row@ == operand_types(
                module@,
                operands@,
            ),
            None => !operands_known(module@, operands@),
        },
{
    let mut types: Vec<WordType> = Vec::new();
    let mut i: usize = 0;
    while i < operands.len()
        invariant
            i <= operands@.len(),
            types@.len() == i,
            forall|k: int|
                0 <= k < i ==> module@.has(#[trigger] operands@[k]) && types@[k] == module@.ty(
                    operands@[k],
                ),
        decreases operands.len() - i,
    {
        match module.value_type(operands[i]) {
            Some(ty) => types.push(ty),
            None => {
                assert(!module@.has(operands@[i as int]));
                return None;
            },
        }
        i += 1;
    }
    assert(types@ =~= operand_types(module@, operands@));
    Some(types)
}

fn do_signature_of(
    module: &WordModule,
    decisions: &ArchitectureDecisions,
    semantic: &SemanticOperator,
    operands: &Vec<ValueId>,
) -> (result: Result<OperatorSignature, SynthError>)
    requires
        operands@ == operands_of(decisions.catalog.recognized@, *semantic),
    ensures
        match signature_of(module@, decisions.catalog.recognized@, *semantic) {
            Ok(signature) => result matches Ok(found) && found@ == signature,
            Err(error) => result matches Err(found) && found == error,
        },
{
    let input_types = match do_operand_types(module, operands) {
        Some(types) => types,
        None => return Err(SynthError::Invariant(Invariant::UnknownValue)),
    };
    let result_type = match module.value_type(semantic.output) {
        Some(ty) => ty,
        None => return Err(SynthError::Invariant(Invariant::UnknownValue)),
    };
    let terms = decisions.catalog.arithmetic_terms(semantic.number);
    let shape = match do_shape_of(semantic, terms) {
        Ok(shape) => shape,
        Err(error) => return Err(error),
    };
    let mut signature = OperatorSignature {
        id: OperatorSignatureId { digest: [0u8;32] },
        kind: semantic.class,
        input_types,
        result_type,
        implementation_width: semantic.implementation_width,
        shape,
    };
    let id = signature_id(&signature);
    proof {
        let draft = SignatureView { id: seq![], ..signature@ };
        assert(super::signature::signature_words(draft) == super::signature::signature_words(
            signature@,
        ));
    }
    signature.id = id;
    Ok(signature)
}

pub fn copy_operations(operations: &Vec<OpId>) -> (copied: Vec<OpId>)
    ensures
        copied@ == operations@,
{
    let mut copied: Vec<OpId> = Vec::new();
    let mut i: usize = 0;
    while i < operations.len()
        invariant
            i <= operations@.len(),
            copied@ == operations@.take(i as int),
        decreases operations.len() - i,
    {
        copied.push(operations[i]);
        assert(copied@ =~= operations@.take(i + 1));
        i += 1;
    }
    assert(operations@.take(i as int) =~= operations@);
    copied
}

proof fn lemma_kept_error(
    module: ModuleView,
    recognized: RecognizedView,
    sources: Seq<Vec<OpId>>,
    anchors: Seq<Option<OperationAnchorId>>,
    count: nat,
    total: nat,
)
    requires
        count <= total,
        kept(module, recognized, sources, anchors, count) is Err,
    ensures
        kept(module, recognized, sources, anchors, total) == kept(
            module,
            recognized,
            sources,
            anchors,
            count,
        ),
    decreases total - count,
{
    if count < total {
        lemma_kept_error(module, recognized, sources, anchors, count, (total - 1) as nat);
    }
}

/// The signatures that are kept are ordered by identity.
pub proof fn kept_signatures_are_ordered(
    module: ModuleView,
    recognized: RecognizedView,
    sources: Seq<Vec<OpId>>,
    anchors: Seq<Option<OperationAnchorId>>,
    count: nat,
)
    ensures
        kept(module, recognized, sources, anchors, count) matches Ok(all) ==> by_identity(
            all.signatures,
        ) && all.instances.len() == count,
    decreases count,
{
    if count > 0 {
        kept_signatures_are_ordered(module, recognized, sources, anchors, (count - 1) as nat);
        if let Ok(before) = kept(module, recognized, sources, anchors, (count - 1) as nat) {
            if let Ok(signature) = signature_of(
                module,
                recognized,
                recognized.operators[count - 1],
            ) {
                adding_keeps_order(before.signatures, signature);
            }
        }
    }
}

pub open spec fn smaller_count(left: nat, right: nat) -> nat {
    if left <= right {
        left
    } else {
        right
    }
}

impl DurableOperatorArena {
    /// Keeps the operators of a module, as many as have a row of source
    /// operations. The first source operation gives an operator its anchor.
    pub fn capture(
        module: &WordModule,
        decisions: &ArchitectureDecisions,
        source_operations: &Vec<Vec<OpId>>,
        anchors: &Vec<Option<OperationAnchorId>>,
    ) -> (result: Result<Self, SynthError>)
        ensures
            match kept(
                module@,
                decisions.catalog.recognized@,
                source_operations@,
                anchors@,
                smaller_count(
                    decisions.catalog.recognized@.operators.len(),
                    source_operations@.len(),
                ),
            ) {
                Ok(all) => result matches Ok(arena) && {
                    &&& signature_views(arena.signatures@) == all.signatures
                    &&& instance_views(arena.instances@) == all.instances
                    &&& arena.operator_by_local_operation@ == Seq::new(
                        module@.operations.len(),
                        |i: int| source_operator(decisions.catalog.recognized@, i),
                    )
                },
                Err(error) => result matches Err(found) && found == error,
            },
    {
        let ghost recognized = decisions.catalog.recognized@;
        let operators = decisions.operators();
        let total: usize = if operators.len() <= source_operations.len() {
            operators.len()
        } else {
            source_operations.len()
        };
        let mut signatures: Vec<OperatorSignature> = Vec::new();
        let mut instances: Vec<PreservedOperatorInstance> = Vec::new();
        let mut failure: Option<SynthError> = None;
        let mut i: usize = 0;
        assert(signature_views(signatures@) =~= Seq::empty());
        assert(instance_views(instances@) =~= Seq::empty());
        while i < total && failure.is_none()
            invariant
                recognized == decisions.catalog.recognized@,
                operators@ == recognized.operators,
                total <= operators@.len(),
                total <= source_operations@.len(),
                i <= total,
                failure is None ==> kept(
                    module@,
                    recognized,
                    source_operations@,
                    anchors@,
                    i as nat,
                ) == Ok::<Kept, SynthError>(
                    Kept {
                        signatures: signature_views(signatures@),
                        instances: instance_views(instances@),
                    },
                ),
                failure matches Some(error) ==> kept(
                    module@,
                    recognized,
                    source_operations@,
                    anchors@,
                    total as nat,
                ) == Err::<Kept, SynthError>(error),
            decreases total - i, (if failure is None {
                1int
            } else {
                0int
            }),
        {
            let semantic = operators[i];
            let operands = decisions.operator_inputs(semantic);
            let ghost before = Kept {
                signatures: signature_views(signatures@),
                instances: instance_views(instances@),
            };
            proof {
                assert(kept(module@, recognized, source_operations@, anchors@, (i + 1) as nat)
                    == keep_next(
                    module@,
                    recognized,
                    semantic,
                    source_operations@[i as int]@,
                    anchors@,
                    before,
                ));
                if kept(module@, recognized, source_operations@, anchors@, (i + 1) as nat) is Err {
                    lemma_kept_error(
                        module@,
                        recognized,
                        source_operations@,
                        anchors@,
                        (i + 1) as nat,
                        total as nat,
                    );
                }
            }
            match keep_operator(
                module,
                decisions,
                &semantic,
                operands,
                &source_operations[i],
                anchors,
                &mut signatures,
            ) {
                Ok(instance) => {
                    let ghost added = instance@;
                    instances.push(instance);
                    assert(instance_views(instances@) =~= before.instances.push(added));
                    i += 1;
                },
                Err(error) => {
                    failure = Some(error);
                },
            }
        }
        if let Some(error) = failure {
            return Err(error);
        }
        let mut lookup: Vec<u32> = Vec::new();
        let mut k: usize = 0;
        while k < module.operations.len()
            invariant
                k <= module@.operations.len(),
                recognized == decisions.catalog.recognized@,
                module@.operations.len() == module.operations@.len(),
                lookup@.len() == k,
                forall|j: int|
                    0 <= j < k ==> #[trigger] lookup@[j] == source_operator(recognized, j),
            decreases module.operations.len() - k,
        {
            lookup.push(decisions.source_operator(k));
            k += 1;
        }
        assert(lookup@ =~= Seq::new(
            module@.operations.len(),
            |i: int| source_operator(recognized, i),
        ));
        Ok(DurableOperatorArena { signatures, instances, operator_by_local_operation: lookup })
    }

    /// Whether the arena agrees with decisions over a module of so many
    /// operations.
    pub open spec fn agrees(&self, recognized: RecognizedView, operation_count: nat) -> bool {
        &&& self.instances@.len() == recognized.operators.len()
        &&& self.operator_by_local_operation@ == Seq::new(
            operation_count,
            |i: int| source_operator(recognized, i),
        )
        &&& forall|i: int|
            0 <= i < self.instances@.len() ==> instance_agrees(
                signature_views(self.signatures@),
                (#[trigger] self.instances@[i])@,
                recognized,
                recognized.operators[i],
            )
    }

    /// Checks the arena against decisions.
    pub fn validate_decisions(&self, decisions: &ArchitectureDecisions, operation_count: usize)
        -> (result: Result<(), SynthError>)
        ensures
            result is Ok <==> self.agrees(
                decisions.catalog.recognized@,
                operation_count as nat,
            ),
            result matches Err(error) ==> error == SynthError::Invariant(
                Invariant::BrokenManifest,
            ),
    {
        let ghost recognized = decisions.catalog.recognized@;
        let operators = decisions.operators();
        if self.instances.len() != operators.len() || self.operator_by_local_operation.len()
            != operation_count {
            return Err(SynthError::Invariant(Invariant::BrokenManifest));
        }
        let mut i: usize = 0;
        while i < operation_count
            invariant
                recognized == decisions.catalog.recognized@,
                i <= operation_count,
                self.operator_by_local_operation@.len() == operation_count,
                forall|k: int|
                    0 <= k < i ==> #[trigger] self.operator_by_local_operation@[k]
                        == source_operator(recognized, k),
            decreases operation_count - i,
        {
            if decisions.source_operator(i) != self.operator_by_local_operation[i] {
                proof {
                    let expected = Seq::new(
                        operation_count as nat,
                        |k: int| source_operator(recognized, k),
                    );
                    assert(expected[i as int] == source_operator(recognized, i as int));
                    assert(self.operator_by_local_operation@ != expected);
                }
                return Err(SynthError::Invariant(Invariant::BrokenManifest));
            }
            i += 1;
        }
        assert(self.operator_by_local_operation@ =~= Seq::new(
            operation_count as nat,
            |k: int| source_operator(recognized, k),
        ));
        let mut k: usize = 0;
        while k < self.instances.len()
            invariant
                recognized == decisions.catalog.recognized@,
                operators@ == recognized.operators,
                self.instances@.len() == operators@.len(),
                k <= self.instances@.len(),
                forall|j: int|
                    0 <= j < k ==> instance_agrees(
                        signature_views(self.signatures@),
                        (#[trigger] self.instances@[j])@,
                        recognized,
                        recognized.operators[j],
                    ),
            decreases self.instances.len() - k,
        {
            let semantic = operators[k];
            let operands = decisions.operator_inputs(semantic);
            assert(operands@ == operands_of(recognized, semantic));
            if !does_agree(&self.signatures, &self.instances[k], &semantic, &operands) {
                assert(!instance_agrees(
                    signature_views(self.signatures@),
                    self.instances@[k as int]@,
                    recognized,
                    recognized.operators[k as int],
                ));
                return Err(SynthError::Invariant(Invariant::BrokenManifest));
            }
            k += 1;
        }
        Ok(())
    }

    pub fn signatures(&self) -> (signatures: &Vec<OperatorSignature>)
        ensures
            signatures@ == self.signatures@,
    {
        &self.signatures
    }

    pub fn instances(&self) -> (instances: &Vec<PreservedOperatorInstance>)
        ensures
            instances@ == self.instances@,
    {
        &self.instances
    }

    /// The signature with an identity.
    pub fn signature(&self, id: OperatorSignatureId) -> (signature: Option<&OperatorSignature>)
        ensures
            match signature {
                Some(found) => {
                    &&& found.id.digest@ == id.digest@
                    &&& exists|i: int|
                        0 <= i < self.signatures@.len() && *found == #[trigger] self.signatures@[i]
                },
                None => !has_signature(signature_views(self.signatures@), id.digest@),
            },
    {
        match find_signature(&self.signatures, &id) {
            Some(place) => Some(&self.signatures[place]),
            None => None,
        }
    }

    /// The operator of an operation.
    pub fn operator_for_local_operation(&self, operation: OpId) -> (operator: Option<OperatorId>)
        ensures
            operator == (if operation.raw < self.operator_by_local_operation@.len()
                && self.operator_by_local_operation@[operation.raw as int] != MISSING_OPERATOR_ID {
                Some(
                    OperatorId { number: self.operator_by_local_operation@[operation.raw as int] },
                )
            } else {
                None
            }),
    {
        if (operation.raw as usize) < self.operator_by_local_operation.len() {
            let number: u32 = self.operator_by_local_operation[operation.raw as usize];
            if number != MISSING_OPERATOR_ID {
                return Some(OperatorId { number });
            }
        }
        None
    }
}

/// The operator of an operation, or the number for none.
pub open spec fn source_operator(recognized: RecognizedView, operation: int) -> u32 {
    if operation < recognized.by_source.len() {
        recognized.by_source[operation]
    } else {
        MISSING_OPERATOR_ID
    }
}

impl ArchitectureDecisions {
    /// The number of the operator of an operation, or the number for none.
    pub fn source_operator(&self, operation: usize) -> (operator: u32)
        ensures
            operator == source_operator(self.catalog.recognized@, operation as int),
    {
        if operation < self.catalog.recognized.by_source.len() {
            self.catalog.recognized.by_source[operation]
        } else {
            MISSING_OPERATOR_ID
        }
    }
}

/// Keeps one operator: its signature goes to the others, its occurrence comes
/// back.
fn keep_operator(
    module: &WordModule,
    decisions: &ArchitectureDecisions,
    semantic: &SemanticOperator,
    operands: Vec<ValueId>,
    sources: &Vec<OpId>,
    anchors: &Vec<Option<OperationAnchorId>>,
    signatures: &mut Vec<OperatorSignature>,
) -> (result: Result<PreservedOperatorInstance, SynthError>)
    requires
        operands@ == operands_of(decisions.catalog.recognized@, *semantic),
    ensures
        forall|instances: Seq<InstanceView>|
            match #[trigger] keep_next(
                module@,
                decisions.catalog.recognized@,
                *semantic,
                sources@,
                anchors@,
                (Kept { signatures: signature_views(old(signatures)@), instances }),
            ) {
                Ok(all) => result matches Ok(instance) && all.signatures == signature_views(
                    final(signatures)@,
                ) && all.instances == instances.push(instance@),
                Err(error) => result matches Err(found) && found == error,
            },
{
    let signature = match do_signature_of(module, decisions, semantic, &operands) {
        Ok(signature) => signature,
        Err(error) => return Err(error),
    };
    let id = signature.id;
    match add_signature(signatures, signature) {
        Ok(()) => {},
        Err(error) => return Err(error),
    }
    if sources.len() == 0 {
        return Err(SynthError::Invariant(Invariant::BrokenSource));
    }
    let place: usize = sources[0].raw as usize;
    if place >= anchors.len() {
        return Err(SynthError::Invariant(Invariant::BrokenSource));
    }
    match anchors[place] {
        None => Err(SynthError::Invariant(Invariant::BrokenSource)),
        Some(anchor) => Ok(
            PreservedOperatorInstance {
                operator: semantic.number,
                anchor,
                signature: id,
                operands,
                result: semantic.output,
                source_operations: copy_operations(sources),
            },
        ),
    }
}

pub open spec fn has_signature(signatures: Seq<SignatureView>, id: Seq<u8>) -> bool {
    exists|i: int| 0 <= i < signatures.len() && (#[trigger] signatures[i]).id == id
}

/// An occurrence agrees with an operator.
pub open spec fn instance_agrees(
    signatures: Seq<SignatureView>,
    instance: InstanceView,
    recognized: RecognizedView,
    semantic: SemanticOperator,
) -> bool {
    &&& exists|i: int|
        first_with(signatures, instance.signature, i) && (#[trigger] signatures[i]).kind
            == semantic.class
    &&& instance.operator == semantic.number
    &&& instance.result == semantic.output
    &&& instance.operands == operands_of(recognized, semantic)
}

/// The first signature with an identity.
pub open spec fn first_with(signatures: Seq<SignatureView>, id: Seq<u8>, place: int) -> bool {
    &&& 0 <= place < signatures.len()
    &&& signatures[place].id == id
    &&& forall|k: int| 0 <= k < place ==> (#[trigger] signatures[k]).id != id
}

pub fn find_signature(signatures: &Vec<OperatorSignature>, id: &OperatorSignatureId) -> (place: Option<
    usize,
>)
    ensures
        match place {
            Some(found) => first_with(
                signature_views(signatures@),
                id.digest@,
                found as int,
            ),
            None => !has_signature(signature_views(signatures@), id.digest@),
        },
{
    let ghost views = signature_views(signatures@);
    let mut i: usize = 0;
    while i < signatures.len()
        invariant
            views == signature_views(signatures@),
            i <= signatures@.len(),
            forall|k: int| 0 <= k < i ==> (#[trigger] views[k]).id != id.digest@,
        decreases signatures.len() - i,
    {
        assert(views[i as int] == signatures@[i as int]@);
        if same_digest(&signatures[i].id.digest, &id.digest) {
            return Some(i);
        }
        i += 1;
    }
    None
}

fn same_values(left: &Vec<ValueId>, right: &Vec<ValueId>) -> (same: bool)
    ensures
        same == (left@ == right@),
{
    if left.len() != right.len() {
        return false;
    }
    let mut i: usize = 0;
    while i < left.len()
        invariant
            left@.len() == right@.len(),
            i <= left@.len(),
            forall|k: int| 0 <= k < i ==> #[trigger] left@[k] == right@[k],
        decreases left.len() - i,
    {
        if left[i].raw != right[i].raw {
            assert(left@[i as int] != right@[i as int]);
            return false;
        }
        i += 1;
    }
    assert(left@ =~= right@);
    true
}

fn does_agree(
    signatures: &Vec<OperatorSignature>,
    instance: &PreservedOperatorInstance,
    semantic: &SemanticOperator,
    operands: &Vec<ValueId>,
) -> (agrees: bool)
    ensures
        forall|recognized: RecognizedView|
            operands@ == #[trigger] operands_of(recognized, *semantic) ==> agrees
                == instance_agrees(signature_views(signatures@), instance@, recognized, *semantic),
{
    let ghost views = signature_views(signatures@);
    match find_signature(signatures, &instance.signature) {
        None => {
            assert(forall|i: int| !first_with(views, instance.signature.digest@, i));
            false
        },
        Some(place) => {
            proof {
                assert(views[place as int] == signatures@[place as int]@);
                assert forall|i: int|
                    first_with(views, instance.signature.digest@, i) implies i == place by {
                    if i < place {
                        assert(views[i].id != instance.signature.digest@);
                    } else if place < i {
                        assert(views[place as int].id != instance.signature.digest@);
                    }
                }
            }
            let alike = signatures[place].kind == semantic.class;
            alike && instance.operator.number == semantic.number.number && instance.result.raw
                == semantic.output.raw && same_values(&instance.operands, operands)
        },
    }
}

} // verus!
