//! Locating the protocol payload among a transaction's outputs and
//! assembling the decoded integers into the structured message.

use vstd::prelude::*;

verus! {

use crate::Error;
use crate::directive::Directive;
use crate::script::{
    Instruction, InstructionView, OP_RETURN, output_count, spec_outputs, spec_tokenize,
    tokenize_output, views_of,
};
use crate::varint;

/// The magic marker that follows `OP_RETURN`: the bytes of `RUNE_TEST`.
pub open spec fn spec_marker() -> Seq<u8> {
    seq![82u8, 85u8, 78u8, 69u8, 95u8, 84u8, 69u8, 83u8, 84u8]
}

/// An output qualifies when its first token is the `OP_RETURN` opcode and
/// its second is a push of exactly the marker.
pub open spec fn spec_qualifies(tokens: Seq<InstructionView>) -> bool {
    &&& tokens.len() >= 2
    &&& tokens[0] == InstructionView::Op(OP_RETURN)
    &&& tokens[1] == InstructionView::Push(spec_marker())
}

/// The payload carried by the tokens from index `j` on: the pushed byte
/// strings concatenated in order, or the byte of the first non-push opcode.
pub open spec fn spec_payload(tokens: Seq<InstructionView>, j: int) -> Result<Seq<u8>, u8>
    decreases tokens.len() - j,
{
    if j < 0 || j >= tokens.len() {
        Ok(Seq::empty())
    } else {
        match tokens[j] {
            InstructionView::Op(op) => Err(op),
            InstructionView::Push(bytes) => match spec_payload(tokens, j + 1) {
                Ok(rest) => Ok(bytes + rest),
                Err(op) => Err(op),
            },
        }
    }
}

/// The integers obtained by decoding varints from the front of `payload`
/// until it is exhausted, or the first decode error.
pub open spec fn spec_integers(payload: Seq<u8>) -> Result<Seq<u128>, Error>
    decreases payload.len(),
    via spec_integers_decreases
{
    if payload.len() == 0 {
        Ok(Seq::empty())
    } else {
        match varint::spec_decode(payload) {
            Ok((value, length)) => match spec_integers(payload.skip(length)) {
                Ok(rest) => Ok(seq![value] + rest),
                Err(e) => Err(e),
            },
            Err(e) => Err(e),
        }
    }
}

#[via_fn]
proof fn spec_integers_decreases(payload: Seq<u8>) {
    varint::lemma_decode_suffix_len(payload, 0);
}

/// Prepending the encoding of `n` to a payload prepends `n` to the decoded
/// integers. A payload built by concatenating encodings therefore decodes to
/// exactly those integers, wherever the push boundaries fall.
pub proof fn lemma_integers_prepend(n: u128, rest: Seq<u8>)
    ensures
        spec_integers(varint::spec_encode(n as int) + rest) == (match spec_integers(rest) {
            Ok(ints) => Ok::<Seq<u128>, Error>(seq![n] + ints),
            Err(e) => Err::<Seq<u128>, Error>(e),
        }),
{
    let enc = varint::spec_encode(n as int);
    let s = enc + rest;
    varint::lemma_round_trip_with_suffix(n, rest);
    assert(s.skip(enc.len() as int) =~= rest);
}

/// The complete groups of three consecutive integers, each one directive.
pub open spec fn spec_directives(ints: Seq<u128>) -> Seq<Directive> {
    Seq::new(
        ints.len() / 3,
        |k: int| Directive { id: ints[3 * k], amount: ints[3 * k + 1], output: ints[3 * k + 2] },
    )
}

/// The first leftover integer after the groups of three, if any: `decimals`.
pub open spec fn spec_decimals(ints: Seq<u128>) -> Option<u128> {
    if ints.len() % 3 >= 1 {
        Some(ints[ints.len() - ints.len() % 3])
    } else {
        None
    }
}

/// The second leftover integer after the groups of three, if any: `symbol`.
pub open spec fn spec_symbol(ints: Seq<u128>) -> Option<u128> {
    if ints.len() % 3 == 2 {
        Some(ints[ints.len() - 1])
    } else {
        None
    }
}

/// `r` is exactly the message assembled from the integer sequence `ints`.
pub open spec fn spec_assembled(r: Runestone, ints: Seq<u128>) -> bool {
    &&& r.directives@ == spec_directives(ints)
    &&& r.decimals == spec_decimals(ints)
    &&& r.symbol == spec_symbol(ints)
}

/// A trailing pair is always decimals-then-symbol, so a message never has a
/// symbol without decimals.
pub proof fn lemma_symbol_implies_decimals(ints: Seq<u128>)
    ensures
        spec_symbol(ints) is Some ==> spec_decimals(ints) is Some,
{
}

/// What deciphering a transaction's outputs must yield, as a function of the
/// outputs' script bytes.
pub enum SpecOutcome {
    /// No output qualifies: an ordinary transaction, not an error.
    NoMessage,
    /// The first qualifying output carries a payload that decodes to these
    /// integers.
    Message(Seq<u128>),
    /// A script failed to tokenize before any output qualified.
    ScriptFault,
    /// A non-push opcode with this byte sat among the payload tokens.
    OpcodeFault(u8),
    /// Decoding the payload's varints failed with this error.
    IntegerFault(Error),
}

/// Scans the outputs from index `i` for the first qualifying one.
pub open spec fn spec_decipher_from(outputs: Seq<Seq<u8>>, i: int) -> SpecOutcome
    decreases outputs.len() - i,
{
    if i < 0 || i >= outputs.len() {
        SpecOutcome::NoMessage
    } else {
        match spec_tokenize(outputs[i]) {
            None => SpecOutcome::ScriptFault,
            Some(tokens) => {
                if spec_qualifies(tokens) {
                    match spec_payload(tokens, 2) {
                        Err(op) => SpecOutcome::OpcodeFault(op),
                        Ok(payload) => match spec_integers(payload) {
                            Ok(ints) => SpecOutcome::Message(ints),
                            Err(e) => SpecOutcome::IntegerFault(e),
                        },
                    }
                } else {
                    spec_decipher_from(outputs, i + 1)
                }
            },
        }
    }
}

/// What deciphering a transaction with these output scripts must yield.
pub open spec fn spec_decipher(outputs: Seq<Seq<u8>>) -> SpecOutcome {
    spec_decipher_from(outputs, 0)
}

/// The decoded protocol message: the directives in payload order, then the
/// optional trailing `decimals` and `symbol` scalars.
#[derive(Debug, PartialEq)]
pub struct Runestone {
    pub directives: Vec<Directive>,
    pub decimals: Option<u128>,
    pub symbol: Option<u128>,
}

impl Default for Runestone {
    fn default() -> (r: Self)
        ensures
            r.directives@ == Seq::<Directive>::empty(),
            r.decimals is None,
            r.symbol is None,
    {
        Runestone { directives: Vec::new(), decimals: None, symbol: None }
    }
}

/// Does `bytes` hold exactly the marker?
fn is_marker(bytes: &Vec<u8>) -> (b: bool)
    ensures
        b == (bytes@ == spec_marker()),
{
    if bytes.len() != 9 {
        return false;
    }
    let b = bytes[0] == 82 && bytes[1] == 85 && bytes[2] == 78 && bytes[3] == 69 && bytes[4] == 95
        && bytes[5] == 84 && bytes[6] == 69 && bytes[7] == 83 && bytes[8] == 84;
    if b {
        proof {
            assert(bytes@ =~= spec_marker());
        }
    }
    b
}

/// Does this token list open with `OP_RETURN` and a push of the marker?
fn is_qualifying(tokens: &Vec<Instruction>) -> (b: bool)
    ensures
        b == spec_qualifies(views_of(tokens@)),
{
    proof {
        assert(views_of(tokens@).len() == tokens@.len());
    }
    if tokens.len() < 2 {
        return false;
    }
    proof {
        assert(views_of(tokens@)[0] == tokens@[0]@);
        assert(views_of(tokens@)[1] == tokens@[1]@);
    }
    let first = match &tokens[0] {
        Instruction::Op(op) => *op == OP_RETURN,
        Instruction::Push(_) => false,
    };
    if !first {
        return false;
    }
    match &tokens[1] {
        Instruction::Push(bytes) => is_marker(bytes),
        Instruction::Op(_) => false,
    }
}

/// Concatenates the pushed bytes of the tokens after the marker, or reports
/// the byte of the first non-push opcode among them.
fn collect_payload(tokens: &Vec<Instruction>) -> (r: Result<Vec<u8>, u8>)
    requires
        tokens@.len() >= 2,
    ensures
        match spec_payload(views_of(tokens@), 2) {
            Ok(bytes) => r matches Ok(v) && v@ == bytes,
            Err(op) => r == Err::<Vec<u8>, u8>(op),
        },
{
    let ghost views = views_of(tokens@);
    let mut payload: Vec<u8> = Vec::new();
    let mut j: usize = 2;
    while j < tokens.len()
        invariant
            2 <= j <= tokens@.len(),
            views == views_of(tokens@),
            views.len() == tokens@.len(),
            match spec_payload(views, j as int) {
                Ok(rest) => spec_payload(views, 2) == Ok::<Seq<u8>, u8>(payload@ + rest),
                Err(op) => spec_payload(views, 2) == Err::<Seq<u8>, u8>(op),
            },
        decreases tokens@.len() - j,
    {
        proof {
            assert(views[j as int] == tokens@[j as int]@);
        }
        match &tokens[j] {
            Instruction::Op(op) => {
                return Err(*op);
            },
            Instruction::Push(bytes) => {
                let mut k: usize = 0;
                let ghost payload0 = payload@;
                while k < bytes.len()
                    invariant
                        k <= bytes@.len(),
                        payload@ == payload0 + bytes@.subrange(0, k as int),
                    decreases bytes@.len() - k,
                {
                    payload.push(bytes[k]);
                    proof {
                        assert(payload@ =~= payload0 + bytes@.subrange(0, k as int + 1));
                    }
                    k = k + 1;
                }
                proof {
                    assert(payload@ =~= payload0 + bytes@);
                    match spec_payload(views, j as int + 1) {
                        Ok(rest) => {
                            assert(payload0 + (bytes@ + rest) =~= payload@ + rest);
                        },
                        Err(_) => {},
                    }
                }
            },
        }
        j = j + 1;
    }
    proof {
        assert(spec_payload(views, j as int) == Ok::<Seq<u8>, u8>(Seq::<u8>::empty()));
        if spec_payload(views, 2) is Ok {
            assert(spec_payload(views, 2) == Ok::<Seq<u8>, u8>(payload@ + Seq::<u8>::empty()));
            assert(payload@ + Seq::<u8>::empty() =~= payload@);
        }
    }
    Ok(payload)
}

/// Decodes varints from the front of `payload` until it is exhausted.
fn payload_integers(payload: &Vec<u8>) -> (r: Result<Vec<u128>, Error>)
    ensures
        match spec_integers(payload@) {
            Ok(ints) => r matches Ok(v) && v@ == ints,
            Err(e) => r == Err::<Vec<u128>, Error>(e),
        },
{
    let mut ints: Vec<u128> = Vec::new();
    let mut i: usize = 0;
    proof {
        assert(payload@.skip(0) =~= payload@);
    }
    while i < payload.len()
        invariant
            i <= payload@.len(),
            match spec_integers(payload@.skip(i as int)) {
                Ok(rest) => spec_integers(payload@) == Ok::<Seq<u128>, Error>(ints@ + rest),
                Err(e) => spec_integers(payload@) == Err::<Seq<u128>, Error>(e),
            },
        decreases payload@.len() - i,
    {
        let ghost suffix = payload@.skip(i as int);
        let rest = vstd::slice::slice_subrange(payload.as_slice(), i, payload.len());
        proof {
            assert(rest@ =~= suffix);
        }
        match varint::decode(rest) {
            Err(e) => {
                return Err(e);
            },
            Ok((value, length)) => {
                proof {
                    varint::lemma_decode_suffix_len(suffix, 0);
                    assert(suffix.skip(length as int) =~= payload@.skip(
                        i as int + length as int,
                    ));
                }
                let ghost ints0 = ints@;
                ints.push(value);
                proof {
                    match spec_integers(payload@.skip(i as int + length as int)) {
                        Ok(rest2) => {
                            assert(spec_integers(suffix) == Ok::<Seq<u128>, Error>(
                                seq![value] + rest2,
                            ));
                            assert(ints0 + (seq![value] + rest2) =~= ints@ + rest2);
                        },
                        Err(_) => {},
                    }
                }
                i = i + length;
            },
        }
    }
    proof {
        assert(payload@.skip(i as int) =~= Seq::<u8>::empty());
        assert(spec_integers(payload@.skip(i as int)) == Ok::<Seq<u128>, Error>(
            Seq::<u128>::empty(),
        ));
        assert(ints@ + Seq::<u128>::empty() =~= ints@);
    }
    Ok(ints)
}

/// Partitions the integers into directives and the trailing metadata.
fn assemble(ints: &Vec<u128>) -> (r: Runestone)
    ensures
        spec_assembled(r, ints@),
{
    let mut directives: Vec<Directive> = Vec::new();
    let mut j: usize = 0;
    while ints.len() - j >= 3
        invariant
            j <= ints@.len(),
            j % 3 == 0,
            j == 3 * directives@.len(),
            forall|k: int|
                0 <= k < directives@.len() ==> directives@[k] == (Directive {
                    id: ints@[3 * k],
                    amount: ints@[3 * k + 1],
                    output: ints@[3 * k + 2],
                }),
        decreases ints@.len() - j,
    {
        directives.push(
            Directive { id: ints[j], amount: ints[j + 1], output: ints[j + 2] },
        );
        j = j + 3;
    }
    proof {
        assert(j == ints@.len() - ints@.len() % 3);
        assert(directives@ =~= spec_directives(ints@));
    }
    let decimals: Option<u128> = if ints.len() - j >= 1 {
        Some(ints[j])
    } else {
        None
    };
    let symbol: Option<u128> = if ints.len() - j >= 2 {
        Some(ints[j + 1])
    } else {
        None
    };
    Runestone { directives, decimals, symbol }
}

impl Runestone {
    /// Scans the transaction's outputs in order for the first that opens
    /// with `OP_RETURN` and a push of the marker, concatenates the remaining
    /// pushes of that output into a payload, decodes the payload as a stream
    /// of varints, and partitions the integers into directives plus the
    /// trailing `decimals` and `symbol`. A transaction with no qualifying
    /// output yields `Ok(None)`.
    pub fn decipher(transaction: &bitcoin::Transaction) -> (r: Result<Option<Runestone>, Error>)
        ensures
            match spec_decipher(spec_outputs(*transaction)) {
                SpecOutcome::NoMessage => r == Ok::<Option<Runestone>, Error>(None),
                SpecOutcome::Message(ints) => r matches Ok(Some(rs)) && spec_assembled(rs, ints),
                SpecOutcome::ScriptFault => r matches Err(Error::Script(_)),
                SpecOutcome::OpcodeFault(op) => r == Err::<Option<Runestone>, Error>(
                    Error::Opcode(op),
                ),
                SpecOutcome::IntegerFault(e) => r == Err::<Option<Runestone>, Error>(e),
            },
    {
        let ghost outputs = spec_outputs(*transaction);
        let count = output_count(transaction);
        let mut i: usize = 0;
        while i < count
            invariant
                i <= count,
                count == outputs.len(),
                outputs == spec_outputs(*transaction),
                spec_decipher(outputs) == spec_decipher_from(outputs, i as int),
            decreases count - i,
        {
            match tokenize_output(transaction, i) {
                Err(e) => {
                    return Err(Error::Script(e));
                },
                Ok(tokens) => {
                    if is_qualifying(&tokens) {
                        let ghost views = views_of(tokens@);
                        match collect_payload(&tokens) {
                            Err(op) => {
                                return Err(Error::Opcode(op));
                            },
                            Ok(payload) => match payload_integers(&payload) {
                                Err(e) => {
                                    return Err(e);
                                },
                                Ok(ints) => {
                                    return Ok(Some(assemble(&ints)));
                                },
                            },
                        }
                    }
                },
            }
            i = i + 1;
        }
        Ok(None)
    }
}

} // verus!

