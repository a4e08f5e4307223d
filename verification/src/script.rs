//! The script-tokenizer boundary: the library's own token type, and the
//! trusted view of bitcoin's transaction and script types behind it.

use vstd::prelude::*;

use bitcoin::script::Error as ScriptParseError;

verus! {

/// The byte of the `OP_RETURN` opcode.
pub const OP_RETURN: u8 = 0x6a;

/// One token of a tokenized output script: a data push with its bytes, or a
/// non-push opcode given by its byte.
#[derive(Debug, PartialEq)]
pub enum Instruction {
    Push(Vec<u8>),
    Op(u8),
}

/// The mathematical shape of a token: its pushed bytes as a sequence, or its
/// opcode byte.
pub enum InstructionView {
    Push(Seq<u8>),
    Op(u8),
}

impl View for Instruction {
    type V = InstructionView;

    open spec fn view(&self) -> InstructionView {
        match self {
            Instruction::Push(bytes) => InstructionView::Push(bytes@),
            Instruction::Op(op) => InstructionView::Op(*op),
        }
    }
}

/// The views of a sequence of tokens, element by element.
pub open spec fn views_of(tokens: Seq<Instruction>) -> Seq<InstructionView> {
    tokens.map_values(|t: Instruction| t@)
}

/// Declares bitcoin's script error type so that `Error::Script` can carry it.
/// The value is opaque to the verifier; nothing in the library reads it.
#[verifier::external_type_specification]
#[verifier::external_body]
pub struct ExScriptParseError(ScriptParseError);

/// Declares bitcoin's transaction type. A transaction is opaque to the
/// verifier; `spec_outputs` stands for the script bytes of its outputs.
#[verifier::external_type_specification]
#[verifier::external_body]
pub struct ExTransaction(bitcoin::Transaction);

/// The script bytes of each output of a transaction, in output order.
pub uninterp spec fn spec_outputs(t: bitcoin::Transaction) -> Seq<Seq<u8>>;

/// What tokenizing a script yields: the tokens in order, or `None` for a
/// malformed script. Tokenization is a function of the script bytes alone.
pub uninterp spec fn spec_tokenize(script: Seq<u8>) -> Option<Seq<InstructionView>>;

/// Relies on bitcoin's `Transaction`: its `output` field is the list of
/// outputs whose scripts `spec_outputs` stands for.
#[verifier::external_body]
pub(crate) fn output_count(t: &bitcoin::Transaction) -> (n: usize)
    ensures
        n == spec_outputs(*t).len(),
{
    t.output.len()
}

/// Relies on bitcoin's `Script::instructions`: it walks the script bytes of
/// one output and yields its push and opcode tokens in order, or an error on
/// a malformed script; the outcome depends on the script bytes alone, and
/// `spec_tokenize` names it.
#[verifier::external_body]
pub(crate) fn tokenize_output(t: &bitcoin::Transaction, i: usize) -> (r: Result<
    Vec<Instruction>,
    ScriptParseError,
>)
    requires
        i < spec_outputs(*t).len(),
    ensures
        match r {
            Ok(tokens) => spec_tokenize(spec_outputs(*t)[i as int]) == Some(views_of(tokens@)),
            Err(_) => spec_tokenize(spec_outputs(*t)[i as int]) is None,
        },
{
    t.output[i]
        .script_pubkey
        .instructions()
        .map(|ins| match ins {
            Ok(bitcoin::script::Instruction::PushBytes(p)) => Ok(
                Instruction::Push(p.as_bytes().to_vec()),
            ),
            Ok(bitcoin::script::Instruction::Op(op)) => Ok(Instruction::Op(op.to_u8())),
            Err(e) => Err(e),
        })
        .collect()
}

} // verus!
