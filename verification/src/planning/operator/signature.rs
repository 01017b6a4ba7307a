//! The complete meaning of an operator, and its identity.

use crate::digest::{
    blake3_digest, blake3_hash, bytes_determine_words, lemma_split, push_words, words_to_bytes,
};
use crate::error::{Invariant, SynthError};
use crate::planning::architecture::{stride, tap_total, taps_of, OperatorKind};
use crate::word::types::{LogicStateKind, WordType};
use vstd::arithmetic::power2::pow2;
use vstd::prelude::*;

verus! {

/// The identity of a signature, which comes from its content.
#[derive(Clone, Copy, PartialEq, Eq, Ord, Hash, Debug)]
pub struct OperatorSignatureId {
    pub digest: [u8; 32],
}

impl OperatorSignatureId {
    /// The digest of the signature.
    pub fn bytes(self) -> (bytes: [u8; 32])
        ensures
            bytes == self.digest,
    {
        self.digest
    }
}

/// A term of a fused sum.
#[derive(Clone, Copy, PartialEq, Eq, Structural, Debug)]
pub enum OperatorTermShape {
    /// A value that is added or subtracted.
    Value { ty: WordType, negative: bool },
    /// A product that is added or subtracted.
    Product {
        left_type: WordType,
        right_type: WordType,
        ty: WordType,
        negative: bool,
        constant_input: Option<u8>,
    },
}

/// The bounds of a dynamic extraction.
#[derive(Clone, Copy, PartialEq, Eq, Structural, Debug)]
pub struct DynamicExtractShape {
    /// The largest offset.
    pub maximum_offset: u128,
    /// The largest offset that selects from the source.
    pub selection_max: u128,
    /// How many low bits of the offset are zero.
    pub alignment: u32,
    /// The width of the offset.
    pub offset_width: u32,
    /// How many aligned offsets can be selected.
    pub tap_count: u32,
}

/// What types and widths do not say of an operator.
#[derive(Debug)]
pub enum OperatorShape {
    Arithmetic,
    Sum(Vec<OperatorTermShape>),
    DynamicExtract(DynamicExtractShape),
    Division,
}

pub ghost enum ShapeView {
    Arithmetic,
    Sum(Seq<OperatorTermShape>),
    DynamicExtract(DynamicExtractShape),
    Division,
}

impl View for OperatorShape {
    type V = ShapeView;

    open spec fn view(&self) -> ShapeView {
        match self {
            OperatorShape::Arithmetic => ShapeView::Arithmetic,
            OperatorShape::Sum(terms) => ShapeView::Sum(terms@),
            OperatorShape::DynamicExtract(bounds) => ShapeView::DynamicExtract(*bounds),
            OperatorShape::Division => ShapeView::Division,
        }
    }
}

/// What equivalent operators share.
#[derive(Debug)]
pub struct OperatorSignature {
    pub id: OperatorSignatureId,
    pub kind: OperatorKind,
    pub input_types: Vec<WordType>,
    pub result_type: WordType,
    pub implementation_width: u32,
    pub shape: OperatorShape,
}

pub ghost struct SignatureView {
    pub id: Seq<u8>,
    pub kind: OperatorKind,
    pub input_types: Seq<WordType>,
    pub result_type: WordType,
    pub implementation_width: u32,
    pub shape: ShapeView,
}

impl View for OperatorSignature {
    type V = SignatureView;

    open spec fn view(&self) -> SignatureView {
        SignatureView {
            id: self.id.digest@,
            kind: self.kind,
            input_types: self.input_types@,
            result_type: self.result_type,
            implementation_width: self.implementation_width,
            shape: self.shape@,
        }
    }
}

/// Two signatures have one meaning, whatever their identities are.
pub open spec fn same_meaning(left: SignatureView, right: SignatureView) -> bool {
    &&& left.kind == right.kind
    &&& left.input_types == right.input_types
    &&& left.result_type == right.result_type
    &&& left.implementation_width == right.implementation_width
    &&& left.shape == right.shape
}

pub open spec fn flag(set: bool) -> u64 {
    if set {
        1
    } else {
        0
    }
}

pub open spec fn kind_word(kind: OperatorKind) -> u64 {
    match kind {
        OperatorKind::Add => 0,
        OperatorKind::Sum => 1,
        OperatorKind::Subtract => 2,
        OperatorKind::Increment => 3,
        OperatorKind::Decrement => 4,
        OperatorKind::Multiply => 5,
        OperatorKind::Divide => 6,
        OperatorKind::Modulo => 7,
        OperatorKind::DynamicExtract => 8,
    }
}

pub open spec fn type_words(ty: WordType) -> Seq<u64> {
    seq![ty.width as u64, flag(ty.signed), flag(ty.state is FourState)]
}

pub open spec fn types_words(types: Seq<WordType>) -> Seq<u64>
    decreases types.len(),
{
    if types.len() == 0 {
        seq![]
    } else {
        types_words(types.drop_last()) + type_words(types.last())
    }
}

pub open spec fn place_word(place: Option<u8>) -> u64 {
    match place {
        None => 0,
        Some(number) => (number + 1) as u64,
    }
}

pub open spec fn term_head(term: OperatorTermShape) -> Seq<u64> {
    match term {
        OperatorTermShape::Value { negative, .. } => seq![0u64, flag(negative)],
        OperatorTermShape::Product { negative, .. } => seq![1u64, flag(negative)],
    }
}

pub open spec fn term_type(term: OperatorTermShape) -> WordType {
    match term {
        OperatorTermShape::Value { ty, .. } => ty,
        OperatorTermShape::Product { ty, .. } => ty,
    }
}

pub open spec fn term_tail(term: OperatorTermShape) -> Seq<u64> {
    match term {
        OperatorTermShape::Value { .. } => seq![0u64, 0u64, 0u64, 0u64, 0u64, 0u64, 0u64],
        OperatorTermShape::Product { left_type, right_type, constant_input, .. } => seq![
            place_word(constant_input),
        ] + (type_words(left_type) + type_words(right_type)),
    }
}

/// The twelve words of a term.
pub open spec fn term_words(term: OperatorTermShape) -> Seq<u64> {
    (term_head(term) + type_words(term_type(term))) + term_tail(term)
}

pub open spec fn terms_words(terms: Seq<OperatorTermShape>) -> Seq<u64>
    decreases terms.len(),
{
    if terms.len() == 0 {
        seq![]
    } else {
        terms_words(terms.drop_last()) + term_words(terms.last())
    }
}

pub open spec fn high_word(number: u128) -> u64 {
    (number as nat / 0x1_0000_0000_0000_0000) as u64
}

pub open spec fn low_word(number: u128) -> u64 {
    (number as nat % 0x1_0000_0000_0000_0000) as u64
}

pub open spec fn shape_words(shape: ShapeView) -> Seq<u64> {
    match shape {
        ShapeView::Arithmetic => seq![0u64],
        ShapeView::Sum(terms) => seq![1u64] + terms_words(terms),
        ShapeView::DynamicExtract(bounds) => seq![
            2u64,
            high_word(bounds.maximum_offset),
            low_word(bounds.maximum_offset),
            high_word(bounds.selection_max),
            low_word(bounds.selection_max),
            bounds.alignment as u64,
            bounds.offset_width as u64,
            bounds.tap_count as u64,
        ],
        ShapeView::Division => seq![3u64],
    }
}

/// A signature without its identity, in words.
pub open spec fn signature_words(signature: SignatureView) -> Seq<u64> {
    (seq![
        kind_word(signature.kind),
        signature.implementation_width as u64,
        signature.input_types.len() as u64,
    ] + type_words(signature.result_type)) + (types_words(signature.input_types) + shape_words(
        signature.shape,
    ))
}

/// What every identity starts from: `opto_synth/operator-words/v1` and a zero.
pub open spec fn signature_domain() -> Seq<u8> {
    seq![
        111u8, 112u8, 116u8, 111u8, 95u8, 115u8, 121u8, 110u8, 116u8, 104u8, 47u8, 111u8, 112u8,
        101u8, 114u8, 97u8, 116u8, 111u8, 114u8, 45u8, 119u8, 111u8, 114u8, 100u8, 115u8, 47u8,
        118u8, 49u8, 0u8,
    ]
}

pub open spec fn signature_bytes(signature: SignatureView) -> Seq<u8> {
    signature_domain() + words_to_bytes(signature_words(signature))
}

/// The identity that a signature should have.
pub open spec fn signature_digest(signature: SignatureView) -> Seq<u8> {
    blake3_digest(signature_bytes(signature))
}

proof fn lemma_types_length(types: Seq<WordType>)
    ensures
        types_words(types).len() == 3 * types.len(),
    decreases types.len(),
{
    if types.len() > 0 {
        lemma_types_length(types.drop_last());
    }
}

proof fn lemma_type_words(left: WordType, right: WordType)
    requires
        type_words(left) == type_words(right),
    ensures
        left == right,
{
    let a = type_words(left);
    let b = type_words(right);
    assert(a[0] == b[0] && a[1] == b[1] && a[2] == b[2]);
}

proof fn lemma_types_words(left: Seq<WordType>, right: Seq<WordType>)
    requires
        types_words(left) == types_words(right),
        left.len() == right.len(),
    ensures
        left == right,
    decreases left.len(),
{
    if left.len() > 0 {
        lemma_types_length(left.drop_last());
        lemma_types_length(right.drop_last());
        lemma_split(
            types_words(left.drop_last()),
            type_words(left.last()),
            types_words(right.drop_last()),
            type_words(right.last()),
        );
        lemma_type_words(left.last(), right.last());
        lemma_types_words(left.drop_last(), right.drop_last());
        assert(left =~= left.drop_last().push(left.last()));
        assert(right =~= right.drop_last().push(right.last()));
    } else {
        assert(left =~= right);
    }
}

proof fn lemma_term_words(left: OperatorTermShape, right: OperatorTermShape)
    requires
        term_words(left) == term_words(right),
    ensures
        left == right,
{
    let a = term_head(left);
    let b = term_head(right);
    lemma_split(
        a + type_words(term_type(left)),
        term_tail(left),
        b + type_words(term_type(right)),
        term_tail(right),
    );
    lemma_split(a, type_words(term_type(left)), b, type_words(term_type(right)));
    lemma_type_words(term_type(left), term_type(right));
    assert(a[0] == b[0] && a[1] == b[1]);
    match (left, right) {
        (
            OperatorTermShape::Product { left_type: l, right_type: r, constant_input: c, .. },
            OperatorTermShape::Product { left_type: m, right_type: s, constant_input: d, .. },
        ) => {
            let x = seq![place_word(c)];
            let y = seq![place_word(d)];
            lemma_split(x, type_words(l) + type_words(r), y, type_words(m) + type_words(s));
            lemma_split(type_words(l), type_words(r), type_words(m), type_words(s));
            assert(x[0] == y[0]);
            lemma_type_words(l, m);
            lemma_type_words(r, s);
        },
        _ => {},
    }
}

proof fn lemma_terms_length(terms: Seq<OperatorTermShape>)
    ensures
        terms_words(terms).len() == 12 * terms.len(),
    decreases terms.len(),
{
    if terms.len() > 0 {
        lemma_terms_length(terms.drop_last());
    }
}

proof fn lemma_terms_words(left: Seq<OperatorTermShape>, right: Seq<OperatorTermShape>)
    requires
        terms_words(left) == terms_words(right),
    ensures
        left == right,
    decreases left.len(),
{
    lemma_terms_length(left);
    lemma_terms_length(right);
    if left.len() > 0 {
        lemma_terms_length(left.drop_last());
        lemma_terms_length(right.drop_last());
        lemma_split(
            terms_words(left.drop_last()),
            term_words(left.last()),
            terms_words(right.drop_last()),
            term_words(right.last()),
        );
        lemma_term_words(left.last(), right.last());
        lemma_terms_words(left.drop_last(), right.drop_last());
        assert(left =~= left.drop_last().push(left.last()));
        assert(right =~= right.drop_last().push(right.last()));
    } else {
        assert(left =~= right);
    }
}

proof fn lemma_number_words(left: u128, right: u128)
    requires
        high_word(left) == high_word(right),
        low_word(left) == low_word(right),
    ensures
        left == right,
{
    assert(left as nat / 0x1_0000_0000_0000_0000 <= u64::MAX);
    assert(right as nat / 0x1_0000_0000_0000_0000 <= u64::MAX);
}

proof fn lemma_shape_words(left: ShapeView, right: ShapeView)
    requires
        shape_words(left) == shape_words(right),
    ensures
        left == right,
{
    let a = shape_words(left);
    let b = shape_words(right);
    assert(a[0] == b[0]);
    match (left, right) {
        (ShapeView::Sum(x), ShapeView::Sum(y)) => {
            assert(a.skip(1) =~= terms_words(x));
            assert(b.skip(1) =~= terms_words(y));
            lemma_terms_words(x, y);
        },
        (ShapeView::DynamicExtract(x), ShapeView::DynamicExtract(y)) => {
            assert(a[1] == b[1] && a[2] == b[2] && a[3] == b[3] && a[4] == b[4] && a[5] == b[5]
                && a[6] == b[6] && a[7] == b[7]);
            lemma_number_words(x.maximum_offset, y.maximum_offset);
            lemma_number_words(x.selection_max, y.selection_max);
        },
        _ => {},
    }
}

/// Signatures whose digests are taken of the same bytes have one meaning.
pub proof fn signature_bytes_are_faithful(left: SignatureView, right: SignatureView)
    requires
        left.input_types.len() <= u64::MAX,
        right.input_types.len() <= u64::MAX,
        signature_bytes(left) == signature_bytes(right),
    ensures
        same_meaning(left, right),
{
    lemma_split(
        signature_domain(),
        words_to_bytes(signature_words(left)),
        signature_domain(),
        words_to_bytes(signature_words(right)),
    );
    bytes_determine_words(signature_words(left), signature_words(right));
    let a = seq![
        kind_word(left.kind),
        left.implementation_width as u64,
        left.input_types.len() as u64,
    ];
    let b = seq![
        kind_word(right.kind),
        right.implementation_width as u64,
        right.input_types.len() as u64,
    ];
    lemma_split(
        a + type_words(left.result_type),
        types_words(left.input_types) + shape_words(left.shape),
        b + type_words(right.result_type),
        types_words(right.input_types) + shape_words(right.shape),
    );
    lemma_split(a, type_words(left.result_type), b, type_words(right.result_type));
    assert(a[0] == b[0] && a[1] == b[1] && a[2] == b[2]);
    lemma_type_words(left.result_type, right.result_type);
    lemma_types_length(left.input_types);
    lemma_types_length(right.input_types);
    lemma_split(
        types_words(left.input_types),
        shape_words(left.shape),
        types_words(right.input_types),
        shape_words(right.shape),
    );
    lemma_types_words(left.input_types, right.input_types);
    lemma_shape_words(left.shape, right.shape);
}

fn flag_word(set: bool) -> (word: u64)
    ensures
        word == flag(set),
{
    if set {
        1
    } else {
        0
    }
}

fn push_type(words: &mut Vec<u64>, ty: WordType)
    ensures
        final(words)@ == old(words)@ + type_words(ty),
{
    words.push(ty.width as u64);
    words.push(flag_word(ty.signed));
    words.push(
        flag_word(
            match ty.state {
                LogicStateKind::FourState => true,
                LogicStateKind::TwoState => false,
            },
        ),
    );
    assert(words@ =~= old(words)@ + type_words(ty));
}

fn push_types(words: &mut Vec<u64>, types: &Vec<WordType>)
    ensures
        final(words)@ == old(words)@ + types_words(types@),
{
    let ghost start = words@;
    let mut i: usize = 0;
    assert(words@ =~= start + types_words(types@.take(0)));
    while i < types.len()
        invariant
            i <= types@.len(),
            words@ == start + types_words(types@.take(i as int)),
        decreases types.len() - i,
    {
        push_type(words, types[i]);
        proof {
            let next = types@.take(i + 1);
            assert(next.drop_last() =~= types@.take(i as int));
            assert(next.last() == types@[i as int]);
            assert(words@ =~= start + types_words(next));
        }
        i += 1;
    }
    assert(types@.take(i as int) =~= types@);
}

fn push_term(words: &mut Vec<u64>, term: OperatorTermShape)
    ensures
        final(words)@ == old(words)@ + term_words(term),
{
    match term {
        OperatorTermShape::Value { ty, negative } => {
            words.push(0);
            words.push(flag_word(negative));
            push_type(words, ty);
            words.push(0);
            words.push(0);
            words.push(0);
            words.push(0);
            words.push(0);
            words.push(0);
            words.push(0);
        },
        OperatorTermShape::Product { left_type, right_type, ty, negative, constant_input } => {
            words.push(1);
            words.push(flag_word(negative));
            push_type(words, ty);
            let place: u64 = match constant_input {
                None => 0,
                Some(number) => number as u64 + 1,
            };
            words.push(place);
            push_type(words, left_type);
            push_type(words, right_type);
        },
    }
    assert(words@ =~= old(words)@ + term_words(term));
}

fn push_terms(words: &mut Vec<u64>, terms: &Vec<OperatorTermShape>)
    ensures
        final(words)@ == old(words)@ + terms_words(terms@),
{
    let ghost start = words@;
    let mut i: usize = 0;
    assert(words@ =~= start + terms_words(terms@.take(0)));
    while i < terms.len()
        invariant
            i <= terms@.len(),
            words@ == start + terms_words(terms@.take(i as int)),
        decreases terms.len() - i,
    {
        push_term(words, terms[i]);
        proof {
            let next = terms@.take(i + 1);
            assert(next.drop_last() =~= terms@.take(i as int));
            assert(next.last() == terms@[i as int]);
            assert(words@ =~= start + terms_words(next));
        }
        i += 1;
    }
    assert(terms@.take(i as int) =~= terms@);
}

fn push_number(words: &mut Vec<u64>, number: u128)
    ensures
        final(words)@ == old(words)@.push(high_word(number)).push(low_word(number)),
{
    words.push((number / 0x1_0000_0000_0000_0000) as u64);
    words.push((number % 0x1_0000_0000_0000_0000) as u64);
}

fn push_shape(words: &mut Vec<u64>, shape: &OperatorShape)
    ensures
        final(words)@ == old(words)@ + shape_words(shape@),
{
    match shape {
        OperatorShape::Arithmetic => {
            words.push(0);
        },
        OperatorShape::Sum(terms) => {
            words.push(1);
            push_terms(words, terms);
        },
        OperatorShape::DynamicExtract(bounds) => {
            words.push(2);
            push_number(words, bounds.maximum_offset);
            push_number(words, bounds.selection_max);
            words.push(bounds.alignment as u64);
            words.push(bounds.offset_width as u64);
            words.push(bounds.tap_count as u64);
        },
        OperatorShape::Division => {
            words.push(3);
        },
    }
    assert(words@ =~= old(words)@ + shape_words(shape@));
}

fn kind_number(kind: OperatorKind) -> (number: u64)
    ensures
        number == kind_word(kind),
{
    match kind {
        OperatorKind::Add => 0,
        OperatorKind::Sum => 1,
        OperatorKind::Subtract => 2,
        OperatorKind::Increment => 3,
        OperatorKind::Decrement => 4,
        OperatorKind::Multiply => 5,
        OperatorKind::Divide => 6,
        OperatorKind::Modulo => 7,
        OperatorKind::DynamicExtract => 8,
    }
}

/// The identity that belongs to the content of a signature; the one that it
/// carries plays no part.
pub fn signature_id(signature: &OperatorSignature) -> (id: OperatorSignatureId)
    ensures
        id.digest@ == signature_digest(signature@),
{
    let mut words: Vec<u64> = Vec::new();
    words.push(kind_number(signature.kind));
    words.push(signature.implementation_width as u64);
    words.push(signature.input_types.len() as u64);
    push_type(&mut words, signature.result_type);
    push_types(&mut words, &signature.input_types);
    push_shape(&mut words, &signature.shape);
    assert(words@ =~= signature_words(signature@));
    let mut bytes: Vec<u8> = vec![
        111u8, 112u8, 116u8, 111u8, 95u8, 115u8, 121u8, 110u8, 116u8, 104u8, 47u8, 111u8, 112u8,
        101u8, 114u8, 97u8, 116u8, 111u8, 114u8, 45u8, 119u8, 111u8, 114u8, 100u8, 115u8, 47u8,
        118u8, 49u8, 0u8,
    ];
    assert(bytes@ =~= signature_domain());
    push_words(&mut bytes, &words);
    OperatorSignatureId { digest: blake3_hash(&bytes) }
}

/// The types that the terms of a sum read, in order.
pub open spec fn term_types(terms: Seq<OperatorTermShape>) -> Seq<WordType>
    decreases terms.len(),
{
    if terms.len() == 0 {
        seq![]
    } else {
        term_types(terms.drop_last()) + match terms.last() {
            OperatorTermShape::Value { ty, .. } => seq![ty],
            OperatorTermShape::Product { left_type, right_type, .. } => seq![left_type, right_type],
        }
    }
}

/// The bounds of an extraction belong to its types.
pub open spec fn valid_bounds(bounds: DynamicExtractShape, signature: SignatureView) -> bool {
    let value = signature.input_types[0];
    let offset = signature.input_types[1];
    &&& !offset.signed
    &&& offset.width == bounds.offset_width
    &&& signature.result_type.width <= value.width
    &&& bounds.selection_max <= bounds.maximum_offset
    &&& bounds.selection_max <= value.width - signature.result_type.width
    &&& bounds.alignment <= bounds.offset_width
    &&& bounds.offset_width < 128 ==> bounds.maximum_offset < pow2(bounds.offset_width as nat)
    &&& bounds.tap_count == taps_of(bounds.selection_max, bounds.alignment)
}

/// The shape of a signature belongs to its kind.
pub open spec fn valid_shape(signature: SignatureView) -> bool {
    match (signature.kind, signature.shape) {
        (OperatorKind::Sum, ShapeView::Sum(terms)) => terms.len() > 0 && term_types(terms)
            == signature.input_types,
        (OperatorKind::DynamicExtract, ShapeView::DynamicExtract(bounds)) => {
            signature.input_types.len() == 2 && valid_bounds(bounds, signature)
        },
        (OperatorKind::Divide, ShapeView::Division) => signature.input_types.len() == 2,
        (OperatorKind::Modulo, ShapeView::Division) => signature.input_types.len() == 2,
        (OperatorKind::Add, ShapeView::Arithmetic) => signature.input_types.len() == 2,
        (OperatorKind::Subtract, ShapeView::Arithmetic) => signature.input_types.len() == 2,
        (OperatorKind::Increment, ShapeView::Arithmetic) => signature.input_types.len() == 2,
        (OperatorKind::Decrement, ShapeView::Arithmetic) => signature.input_types.len() == 2,
        (OperatorKind::Multiply, ShapeView::Arithmetic) => signature.input_types.len() == 2,
        _ => false,
    }
}

/// A signature that a checkpoint may hold, when its content has a digest.
pub open spec fn valid_with(signature: SignatureView, digest: Seq<u8>) -> bool {
    &&& signature.id == digest
    &&& signature.implementation_width != 0
    &&& valid_shape(signature)
}

pub open spec fn valid_signature(signature: SignatureView) -> bool {
    valid_with(signature, signature_digest(signature))
}

/// Whether two byte strings of a digest's length are the same.
pub fn same_digest(left: &[u8; 32], right: &[u8; 32]) -> (same: bool)
    ensures
        same == (left@ == right@),
{
    let mut i: usize = 0;
    while i < 32
        invariant
            i <= 32,
            forall|k: int| 0 <= k < i ==> #[trigger] left@[k] == right@[k],
        decreases 32 - i,
    {
        if left[i] != right[i] {
            assert(left@[i as int] != right@[i as int]);
            return false;
        }
        i += 1;
    }
    assert(left@ =~= right@);
    true
}

/// Whether two rows of types are the same.
pub fn same_types(left: &Vec<WordType>, right: &Vec<WordType>) -> (same: bool)
    ensures
        same == (left@ == right@),
{
    if left.len() != right.len() {
        return false;
    }
    let mut i: usize = 0;
    while i < left.len()
        invariant
            left@.len() == right@.len(),
            i <= left@.len(),
            forall|k: int| 0 <= k < i ==> #[trigger] left@[k] == right@[k],
        decreases left.len() - i,
    {
        if left[i] != right[i] {
            assert(left@[i as int] != right@[i as int]);
            return false;
        }
        i += 1;
    }
    assert(left@ =~= right@);
    true
}

fn do_term_types(terms: &Vec<OperatorTermShape>) -> (types: Vec<WordType>)
    ensures
        types@ == term_types(terms@),
{
    let mut types: Vec<WordType> = Vec::new();
    let mut i: usize = 0;
    assert(terms@.take(0) =~= Seq::empty());
    while i < terms.len()
        invariant
            i <= terms@.len(),
            types@ == term_types(terms@.take(i as int)),
        decreases terms.len() - i,
    {
        let ghost before = types@;
        match terms[i] {
            OperatorTermShape::Value { ty, .. } => {
                types.push(ty);
            },
            OperatorTermShape::Product { left_type, right_type, .. } => {
                types.push(left_type);
                types.push(right_type);
            },
        }
        proof {
            let next = terms@.take(i + 1);
            assert(next.drop_last() =~= terms@.take(i as int));
            assert(next.last() == terms@[i as int]);
            assert(types@ =~= term_types(next));
        }
        i += 1;
    }
    assert(terms@.take(i as int) =~= terms@);
    types
}

fn valid_dynamic_extract(bounds: &DynamicExtractShape, signature: &OperatorSignature) -> (valid: bool)
    requires
        signature.input_types@.len() == 2,
    ensures
        valid == valid_bounds(*bounds, signature@),
{
    let value = signature.input_types[0];
    let offset = signature.input_types[1];
    if offset.signed || offset.width != bounds.offset_width || signature.result_type.width
        > value.width || bounds.selection_max > bounds.maximum_offset {
        return false;
    }
    let slack: u32 = value.width - signature.result_type.width;
    if bounds.selection_max > slack as u128 || bounds.alignment > bounds.offset_width {
        return false;
    }
    if bounds.offset_width < 128 {
        let limit: u128 = stride(bounds.offset_width);
        if bounds.maximum_offset >= limit {
            return false;
        }
    }
    bounds.tap_count == tap_total(bounds.selection_max, bounds.alignment)
}

/// Checks a signature against a digest of its content.
pub fn check_signature(signature: &OperatorSignature, digest: &OperatorSignatureId) -> (result: Result<
    (),
    SynthError,
>)
    ensures
        result is Ok <==> valid_with(signature@, digest.digest@),
        result matches Err(error) ==> error == SynthError::Invariant(Invariant::BrokenManifest),
{
    if !same_digest(&signature.id.digest, &digest.digest) || signature.implementation_width == 0 {
        return Err(SynthError::Invariant(Invariant::BrokenManifest));
    }
    let pair = signature.input_types.len() == 2;
    let valid: bool = match &signature.shape {
        OperatorShape::Sum(terms) => match signature.kind {
            OperatorKind::Sum => {
                let types = do_term_types(terms);
                terms.len() > 0 && same_types(&types, &signature.input_types)
            },
            _ => false,
        },
        OperatorShape::DynamicExtract(bounds) => match signature.kind {
            OperatorKind::DynamicExtract => pair && valid_dynamic_extract(bounds, signature),
            _ => false,
        },
        OperatorShape::Division => match signature.kind {
            OperatorKind::Divide => pair,
            OperatorKind::Modulo => pair,
            _ => false,
        },
        OperatorShape::Arithmetic => match signature.kind {
            OperatorKind::Add => pair,
            OperatorKind::Subtract => pair,
            OperatorKind::Increment => pair,
            OperatorKind::Decrement => pair,
            OperatorKind::Multiply => pair,
            _ => false,
        },
    };
    if valid {
        Ok(())
    } else {
        Err(SynthError::Invariant(Invariant::BrokenManifest))
    }
}

impl OperatorSignature {
    pub fn id(&self) -> (id: OperatorSignatureId)
        ensures
            id == self.id,
    {
        self.id
    }

    pub fn kind(&self) -> (kind: OperatorKind)
        ensures
            kind == self.kind,
    {
        self.kind
    }

    /// The types of the operands, in order.
    pub fn input_types(&self) -> (types: &Vec<WordType>)
        ensures
            types@ == self.input_types@,
    {
        &self.input_types
    }

    pub fn result_type(&self) -> (ty: WordType)
        ensures
            ty == self.result_type,
    {
        self.result_type
    }

    /// Whether the identity of the signature is that of its content, and its
    /// shape that of its kind.
    pub fn validate_checkpoint(&self) -> (result: Result<(), SynthError>)
        ensures
            result is Ok <==> valid_signature(self@),
            result matches Err(error) ==> error == SynthError::Invariant(
                Invariant::BrokenManifest,
            ),
    {
        let digest = signature_id(self);
        check_signature(self, &digest)
    }

    /// A copy with the same content.
    pub fn copy(&self) -> (copied: Self)
        ensures
            copied@ == self@,
    {
        let shape: OperatorShape = match &self.shape {
            OperatorShape::Arithmetic => OperatorShape::Arithmetic,
            OperatorShape::Sum(terms) => OperatorShape::Sum(copy_terms(terms)),
            OperatorShape::DynamicExtract(bounds) => OperatorShape::DynamicExtract(*bounds),
            OperatorShape::Division => OperatorShape::Division,
        };
        OperatorSignature {
            id: self.id,
            kind: self.kind,
            input_types: copy_types(&self.input_types),
            result_type: self.result_type,
            implementation_width: self.implementation_width,
            shape,
        }
    }

    /// Whether two signatures are the same, their identities too.
    pub fn same(&self, other: &Self) -> (same: bool)
        ensures
            same == (self@ == other@),
    {
        let shapes: bool = match (&self.shape, &other.shape) {
            (OperatorShape::Arithmetic, OperatorShape::Arithmetic) => true,
            (OperatorShape::Division, OperatorShape::Division) => true,
            (OperatorShape::Sum(left), OperatorShape::Sum(right)) => same_terms(left, right),
            (OperatorShape::DynamicExtract(left), OperatorShape::DynamicExtract(right)) => *left
                == *right,
            _ => false,
        };
        same_digest(&self.id.digest, &other.id.digest) && self.kind == other.kind && same_types(
            &self.input_types,
            &other.input_types,
        ) && self.result_type == other.result_type && self.implementation_width
            == other.implementation_width && shapes
    }
}

fn copy_terms(terms: &Vec<OperatorTermShape>) -> (copied: Vec<OperatorTermShape>)
    ensures
        copied@ == terms@,
{
    let mut copied: Vec<OperatorTermShape> = Vec::new();
    let mut i: usize = 0;
    while i < terms.len()
        invariant
            i <= terms@.len(),
            copied@ == terms@.take(i as int),
        decreases terms.len() - i,
    {
        copied.push(terms[i]);
        assert(copied@ =~= terms@.take(i + 1));
        i += 1;
    }
    assert(terms@.take(i as int) =~= terms@);
    copied
}

pub fn copy_types(types: &Vec<WordType>) -> (copied: Vec<WordType>)
    ensures
        copied@ == types@,
{
    let mut copied: Vec<WordType> = Vec::new();
    let mut i: usize = 0;
    while i < types.len()
        invariant
            i <= types@.len(),
            copied@ == types@.take(i as int),
        decreases types.len() - i,
    {
        copied.push(types[i]);
        assert(copied@ =~= types@.take(i + 1));
        i += 1;
    }
    assert(types@.take(i as int) =~= types@);
    copied
}

fn same_terms(left: &Vec<OperatorTermShape>, right: &Vec<OperatorTermShape>) -> (same: bool)
    ensures
        same == (left@ == right@),
{
    if left.len() != right.len() {
        return false;
    }
    let mut i: usize = 0;
    while i < left.len()
        invariant
            left@.len() == right@.len(),
            i <= left@.len(),
            forall|k: int| 0 <= k < i ==> #[trigger] left@[k] == right@[k],
        decreases left.len() - i,
    {
        if left[i] != right[i] {
            assert(left@[i as int] != right@[i as int]);
            return false;
        }
        i += 1;
    }
    assert(left@ =~= right@);
    true
}

} // verus!
