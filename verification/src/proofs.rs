//! Proofs that a seal was closed: the transaction that defined the sealed
//! output, the transaction that spent it, and the Merkle path that places
//! the spending transaction in a block.
//!
//! A proof holds of each transaction what deciding on closure takes: its id,
//! and the number of its outputs or the outputs that it spends. Whether the
//! spending transaction is confirmed on the ledger is for a ledger client to
//! say.

use vstd::prelude::*;
use crate::encoding::decode_list;
use crate::encoding::encode_list;
use crate::encoding::is_list_encodable;
use crate::encoding::lemma_list_frame;
use crate::encoding::le_u32;
use crate::encoding::list_encodable;
use crate::encoding::list_encoding;
use crate::encoding::list_frame;
use crate::encoding::Bound;
use crate::encoding::DecodeError;
use crate::encoding::StrictCodec;
use crate::seal::Ledger;
use crate::seal::Outpoint;
use crate::seal::Seal;
use crate::seal::TAG_BITCOIN;
use crate::seal::TAG_LIQUID;

verus! {

/// The transaction that defines a seal.
#[derive(Clone, Copy, PartialEq, Eq, Hash, Debug)]
pub struct SealTx {
    /// The id of the transaction.
    pub txid: [u8; 32],
    /// The number of its outputs.
    pub outputs: u32,
}

/// The transaction that closes a seal.
#[derive(Clone, PartialEq, Eq, Debug)]
pub struct WitnessTx {
    /// The id of the transaction.
    pub txid: [u8; 32],
    /// The outputs that it spends.
    pub inputs: Vec<Outpoint>,
}

/// Evidence that a seal was closed on a ledger of the Bitcoin family.
#[derive(Clone, PartialEq, Eq, Debug)]
pub struct BpProof {
    pub seal_tx: SealTx,
    pub witness_tx: WitnessTx,
    pub merkle_path: Vec<[u8; 32]>,
}

/// Evidence that a seal was closed.
#[derive(Clone, PartialEq, Eq, Debug)]
pub enum Proof {
    Bitcoin(BpProof),
    Liquid(BpProof),
}

/// Whether two outputs are the same.
pub fn same_outpoint(a: &Outpoint, b: &Outpoint) -> (same: bool)
    ensures
        same == (*a == *b),
{
    if a.vout != b.vout {
        return false;
    }
    let mut i: usize = 0;
    while i < 32
        invariant
            i <= 32,
            forall|j: int| 0 <= j < i ==> a.txid@[j] == b.txid@[j],
        decreases 32 - i,
    {
        if a.txid[i] != b.txid[i] {
            return false;
        }
        i += 1;
    }
    proof {
        assert(a.txid@ =~= b.txid@);
        assert(a.txid =~= b.txid);
    }
    true
}

impl WitnessTx {
    /// Whether the transaction spends the given output.
    pub open spec fn spends(&self, outpoint: Outpoint) -> bool {
        self.inputs@.contains(outpoint)
    }

    /// Whether the transaction spends the given output.
    pub fn is_spending(&self, outpoint: &Outpoint) -> (yes: bool)
        ensures
            yes == self.spends(*outpoint),
    {
        let mut i: usize = 0;
        while i < self.inputs.len()
            invariant
                i <= self.inputs@.len(),
                forall|j: int| 0 <= j < i ==> self.inputs@[j] != *outpoint,
            decreases self.inputs@.len() - i,
        {
            if same_outpoint(&self.inputs[i], outpoint) {
                return true;
            }
            i += 1;
        }
        false
    }
}

impl BpProof {
    /// Whether the proof closes the given output: the defining transaction
    /// has that output, the spending transaction spends it, and a Merkle path
    /// within the bound of its encoding is there.
    pub open spec fn closes(&self, outpoint: Outpoint) -> bool {
        &&& outpoint.txid == self.seal_tx.txid
        &&& outpoint.vout < self.seal_tx.outputs
        &&& self.witness_tx.spends(outpoint)
        &&& 1 <= self.merkle_path@.len() <= Bound::Large.max()
    }

    /// Whether the proof closes the given output.
    pub fn is_closing(&self, outpoint: &Outpoint) -> (yes: bool)
        ensures
            yes == self.closes(*outpoint),
    {
        let defined = Outpoint { txid: self.seal_tx.txid, vout: outpoint.vout };
        same_outpoint(&defined, outpoint) && outpoint.vout < self.seal_tx.outputs
            && self.witness_tx.is_spending(outpoint) && self.merkle_path.len() >= 1
            && Bound::Large.admits(self.merkle_path.len())
    }
}

impl Proof {
    /// The ledger on which the proof was made.
    pub open spec fn ledger(&self) -> Ledger {
        match self {
            Proof::Bitcoin(_) => Ledger::Bitcoin,
            Proof::Liquid(_) => Ledger::Liquid,
        }
    }

    /// What the proof holds.
    pub open spec fn inner(&self) -> BpProof {
        match self {
            Proof::Bitcoin(proof) => *proof,
            Proof::Liquid(proof) => *proof,
        }
    }

    /// Whether the proof closes the given seal: it was made on the seal's
    /// ledger and closes the seal's output.
    pub open spec fn closes(&self, seal: Seal) -> bool {
        self.ledger() == seal.ledger() && self.inner().closes(seal.outpoint())
    }

    /// Whether the proof closes the given seal.
    pub fn is_closing(&self, seal: &Seal) -> (yes: bool)
        ensures
            yes == self.closes(*seal),
    {
        match (self, seal) {
            (Proof::Bitcoin(proof), Seal::Bitcoin(outpoint)) => proof.is_closing(outpoint),
            (Proof::Liquid(proof), Seal::Liquid(outpoint)) => proof.is_closing(outpoint),
            _ => false,
        }
    }
}

impl StrictCodec for SealTx {
    open spec fn encoding(&self) -> Seq<u8> {
        self.txid@ + le_u32(self.outputs)
    }

    open spec fn encodable(&self) -> bool {
        true
    }

    open spec fn frame(bytes: Seq<u8>) -> Result<nat, DecodeError> {
        if bytes.len() >= 36 {
            Ok(36)
        } else {
            Err(DecodeError::UnexpectedEof)
        }
    }

    proof fn lemma_frame(&self, rest: Seq<u8>) {
    }

    fn is_encodable(&self) -> (ok: bool) {
        true
    }

    fn strict_encode(&self, out: &mut Vec<u8>) {
        self.txid.strict_encode(out);
        self.outputs.strict_encode(out);
        proof {
            assert(out@ =~= old(out)@ + self.encoding());
        }
    }

    fn strict_decode(input: &[u8], at: usize) -> (r: Result<(Self, usize), DecodeError>) {
        if input.len() - at < 36 {
            return Err(DecodeError::UnexpectedEof);
        }
        let (txid, mid) = match <[u8; 32] as StrictCodec>::strict_decode(input, at) {
            Ok(v) => v,
            Err(e) => {
                return Err(e);
            },
        };
        let (outputs, end) = match u32::strict_decode(input, mid) {
            Ok(v) => v,
            Err(e) => {
                return Err(e);
            },
        };
        let tx = SealTx { txid, outputs };
        proof {
            assert(tx.encoding() =~= input@.subrange(at as int, end as int));
        }
        Ok((tx, end))
    }
}

impl StrictCodec for WitnessTx {
    open spec fn encoding(&self) -> Seq<u8> {
        self.txid@ + list_encoding(Bound::Large, self.inputs@)
    }

    open spec fn encodable(&self) -> bool {
        list_encodable(Bound::Large, self.inputs@)
    }

    open spec fn frame(bytes: Seq<u8>) -> Result<nat, DecodeError> {
        if bytes.len() < 32 {
            Err(DecodeError::UnexpectedEof)
        } else {
            match list_frame::<Outpoint>(Bound::Large, bytes.skip(32)) {
                Err(e) => Err(e),
                Ok(n) => Ok(32 + n),
            }
        }
    }

    proof fn lemma_frame(&self, rest: Seq<u8>) {
        let list = list_encoding(Bound::Large, self.inputs@);
        lemma_list_frame(Bound::Large, self.inputs@, rest);
        assert((self.encoding() + rest).skip(32) =~= list + rest);
    }

    fn is_encodable(&self) -> (ok: bool) {
        is_list_encodable(Bound::Large, &self.inputs)
    }

    fn strict_encode(&self, out: &mut Vec<u8>) {
        self.txid.strict_encode(out);
        encode_list(Bound::Large, &self.inputs, out);
        proof {
            assert(out@ =~= old(out)@ + self.encoding());
        }
    }

    fn strict_decode(input: &[u8], at: usize) -> (r: Result<(Self, usize), DecodeError>) {
        let (txid, mid) = match <[u8; 32] as StrictCodec>::strict_decode(input, at) {
            Ok(v) => v,
            Err(e) => {
                return Err(e);
            },
        };
        proof {
            assert(input@.skip(at as int).skip(32) =~= input@.skip(mid as int));
        }
        let (inputs, end) = match decode_list::<Outpoint>(Bound::Large, input, mid) {
            Ok(v) => v,
            Err(e) => {
                return Err(e);
            },
        };
        let tx = WitnessTx { txid, inputs };
        proof {
            assert(tx.encoding() =~= input@.subrange(at as int, end as int));
        }
        Ok((tx, end))
    }
}

impl StrictCodec for BpProof {
    open spec fn encoding(&self) -> Seq<u8> {
        self.seal_tx.encoding() + self.witness_tx.encoding() + list_encoding(
            Bound::Large,
            self.merkle_path@,
        )
    }

    open spec fn encodable(&self) -> bool {
        self.witness_tx.encodable() && list_encodable(Bound::Large, self.merkle_path@)
    }

    open spec fn frame(bytes: Seq<u8>) -> Result<nat, DecodeError> {
        match SealTx::frame(bytes) {
            Err(e) => Err(e),
            Ok(a) => match WitnessTx::frame(bytes.skip(a as int)) {
                Err(e) => Err(e),
                Ok(b) => match list_frame::<[u8; 32]>(Bound::Large, bytes.skip((a + b) as int)) {
                    Err(e) => Err(e),
                    Ok(c) => Ok(a + b + c),
                },
            },
        }
    }

    proof fn lemma_frame(&self, rest: Seq<u8>) {
        let a = self.seal_tx.encoding();
        let b = self.witness_tx.encoding();
        let c = list_encoding(Bound::Large, self.merkle_path@);
        let text = self.encoding() + rest;
        self.seal_tx.lemma_frame(b + c + rest);
        assert(text =~= a + (b + c + rest));
        self.witness_tx.lemma_frame(c + rest);
        assert(text.skip(a.len() as int) =~= b + (c + rest));
        lemma_list_frame(Bound::Large, self.merkle_path@, rest);
        assert(text.skip((a.len() + b.len()) as int) =~= c + rest);
    }

    fn is_encodable(&self) -> (ok: bool) {
        self.witness_tx.is_encodable() && is_list_encodable(Bound::Large, &self.merkle_path)
    }

    fn strict_encode(&self, out: &mut Vec<u8>) {
        self.seal_tx.strict_encode(out);
        self.witness_tx.strict_encode(out);
        encode_list(Bound::Large, &self.merkle_path, out);
        proof {
            assert(out@ =~= old(out)@ + self.encoding());
        }
    }

    fn strict_decode(input: &[u8], at: usize) -> (r: Result<(Self, usize), DecodeError>) {
        let (seal_tx, after_seal) = match SealTx::strict_decode(input, at) {
            Ok(v) => v,
            Err(e) => {
                return Err(e);
            },
        };
        proof {
            assert(input@.skip(at as int).skip(after_seal - at) =~= input@.skip(after_seal as int));
        }
        let (witness_tx, after_witness) = match WitnessTx::strict_decode(input, after_seal) {
            Ok(v) => v,
            Err(e) => {
                return Err(e);
            },
        };
        proof {
            assert(input@.skip(at as int).skip(after_witness - at) =~= input@.skip(after_witness as int));
        }
        let (merkle_path, end) = match decode_list::<[u8; 32]>(Bound::Large, input, after_witness) {
            Ok(v) => v,
            Err(e) => {
                return Err(e);
            },
        };
        let proof_ = BpProof { seal_tx, witness_tx, merkle_path };
        proof {
            assert(proof_.encoding() =~= input@.subrange(at as int, end as int));
        }
        Ok((proof_, end))
    }
}

impl StrictCodec for Proof {
    open spec fn encoding(&self) -> Seq<u8> {
        seq![self.ledger().tag()] + self.inner().encoding()
    }

    open spec fn encodable(&self) -> bool {
        self.inner().encodable()
    }

    open spec fn frame(bytes: Seq<u8>) -> Result<nat, DecodeError> {
        if bytes.len() == 0 {
            Err(DecodeError::UnexpectedEof)
        } else if bytes[0] != TAG_BITCOIN && bytes[0] != TAG_LIQUID {
            Err(DecodeError::UnknownTag(bytes[0]))
        } else {
            match BpProof::frame(bytes.skip(1)) {
                Err(e) => Err(e),
                Ok(n) => Ok(1 + n),
            }
        }
    }

    proof fn lemma_frame(&self, rest: Seq<u8>) {
        self.inner().lemma_frame(rest);
        assert((self.encoding() + rest).skip(1) =~= self.inner().encoding() + rest);
    }

    fn is_encodable(&self) -> (ok: bool) {
        match self {
            Proof::Bitcoin(proof) => proof.is_encodable(),
            Proof::Liquid(proof) => proof.is_encodable(),
        }
    }

    fn strict_encode(&self, out: &mut Vec<u8>) {
        match self {
            Proof::Bitcoin(proof) => {
                out.push(TAG_BITCOIN);
                proof.strict_encode(out);
            },
            Proof::Liquid(proof) => {
                out.push(TAG_LIQUID);
                proof.strict_encode(out);
            },
        }
        proof {
            assert(out@ =~= old(out)@ + self.encoding());
        }
    }

    fn strict_decode(input: &[u8], at: usize) -> (r: Result<(Self, usize), DecodeError>) {
        if input.len() - at < 1 {
            return Err(DecodeError::UnexpectedEof);
        }
        let tag: u8 = input[at];
        if tag != TAG_BITCOIN && tag != TAG_LIQUID {
            return Err(DecodeError::UnknownTag(tag));
        }
        proof {
            assert(input@.skip(at as int).skip(1) =~= input@.skip(at + 1));
        }
        let (inner, end) = match BpProof::strict_decode(input, at + 1) {
            Ok(v) => v,
            Err(e) => {
                return Err(e);
            },
        };
        let proof_ = if tag == TAG_BITCOIN {
            Proof::Bitcoin(inner)
        } else {
            Proof::Liquid(inner)
        };
        proof {
            assert(proof_.encoding() =~= input@.subrange(at as int, end as int));
        }
        Ok((proof_, end))
    }
}

} // verus!
