//! How operations are written.

use vstd::prelude::*;
use vstd::utf8::encode_utf8;

use crate::content::{content_text, operands_text, OperationView};
use crate::object::ObjectView;
use crate::writer::object_text;

verus! {

/// Operations are written in order, each on a line of its own. Of an operation the
/// operands come first, in order and each with a space behind it, and then its operator.
pub proof fn law_operations_are_written_in_order(
    front: Seq<OperationView>,
    rest: Seq<OperationView>,
    one: Seq<ObjectView>,
    other: Seq<ObjectView>,
    operand: ObjectView,
    operator: Seq<char>,
)
    ensures
        content_text(Seq::empty()) == Seq::<u8>::empty(),
        content_text(seq![OperationView { operator, operands: one }]) == operands_text(one) + encode_utf8(operator),
        front.len() > 0 && rest.len() > 0 ==> content_text(front + rest) == content_text(front) + seq![0x0au8]
            + content_text(rest),
        operands_text(Seq::empty()) == Seq::<u8>::empty(),
        operands_text(seq![operand]) == object_text(operand) + seq![0x20u8],
        operands_text(one + other) == operands_text(one) + operands_text(other),
{
    assert(seq![operand].drop_last() =~= Seq::empty());
    assert(operands_text(Seq::empty()) =~= Seq::<u8>::empty());
    assert(operands_text(seq![operand]) =~= object_text(operand) + seq![0x20u8]);
    lemma_operands(one, other);
    if front.len() > 0 && rest.len() > 0 {
        lemma_operations(front, rest);
    }
}

proof fn lemma_operands(one: Seq<ObjectView>, other: Seq<ObjectView>)
    ensures
        operands_text(one + other) == operands_text(one) + operands_text(other),
    decreases other.len(),
{
    if other.len() == 0 {
        assert(one + other =~= one);
        assert(operands_text(one) + operands_text(other) =~= operands_text(one));
    } else {
        lemma_operands(one, other.drop_last());
        assert((one + other).drop_last() =~= one + other.drop_last());
        assert(operands_text(one + other) =~= operands_text(one) + operands_text(other));
    }
}

proof fn lemma_operations(front: Seq<OperationView>, rest: Seq<OperationView>)
    requires
        front.len() > 0,
        rest.len() > 0,
    ensures
        content_text(front + rest) == content_text(front) + seq![0x0au8] + content_text(rest),
    decreases rest.len(),
{
    let all = front + rest;
    assert(all.drop_last() =~= front + rest.drop_last());
    if rest.len() == 1 {
        assert(front + rest.drop_last() =~= front);
        assert(content_text(all) =~= content_text(front) + seq![0x0au8] + content_text(rest));
    } else {
        lemma_operations(front, rest.drop_last());
        assert(content_text(all) =~= content_text(front) + seq![0x0au8] + content_text(rest));
    }
}

} // verus!
