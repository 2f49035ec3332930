//! Seals: references to outputs of ledger transactions. An identity is bound
//! to one, and spending that output is what revokes the identity.

use vstd::prelude::*;
use vstd::slice::slice_subrange;
use vstd::string::StringSliceAdditionalSpecFns;
use vstd::utf8::is_ascii_chars;
use crate::armor::ascii;
use crate::armor::ascii_bytes;
use crate::armor::ascii_string;
use crate::armor::printable;
use crate::armor::append;
use crate::armor::has_prefix;
use crate::armor::starts_with;
use crate::encoding::le_u32;
use crate::encoding::DecodeError;
use crate::encoding::StrictCodec;

verus! {

/// The tag of the primary ledger in an encoded seal or proof.
pub const TAG_BITCOIN: u8 = 0;

/// The tag of the alternate ledger in an encoded seal or proof.
pub const TAG_LIQUID: u8 = 1;

/// The ledger on which a seal is defined or a proof was made.
#[derive(Clone, Copy, PartialEq, Eq, Hash, Debug, Structural)]
pub enum Ledger {
    /// The primary ledger, which is assumed where none is named.
    Bitcoin,
    /// The alternate ledger.
    Liquid,
}

/// An output of a transaction: the transaction's id and the output's number.
#[derive(Clone, Copy, PartialEq, Eq, Hash, Debug)]
pub struct Outpoint {
    pub txid: [u8; 32],
    pub vout: u32,
}

/// A reference to an unspent output on a ledger, to be closed once.
#[derive(Clone, Copy, PartialEq, Eq, Hash, Debug)]
pub enum Seal {
    Bitcoin(Outpoint),
    Liquid(Outpoint),
}

/// Why a text is not a seal.
#[derive(Clone, Copy, PartialEq, Eq, Debug, Structural)]
pub enum SealParseError {
    /// What follows the name of the ledger is not a transaction id, a colon
    /// and an output number.
    InvalidOutpoint,
}

/// What `bpstd::Outpoint` reads from a text of the form `<txid>:<vout>`: the
/// bytes of the transaction id and the output number, or `None` where it
/// refuses the text.
pub uninterp spec fn outpoint_parsed(text: Seq<u8>) -> Option<(Seq<u8>, u32)>;

/// The text that `bpstd::Outpoint` writes for a transaction id and an output
/// number.
pub uninterp spec fn outpoint_text(txid: Seq<u8>, vout: u32) -> Seq<u8>;

/// Calls `from_str` of `bpstd::Outpoint` on a text, and names what it read.
/// A text that is not UTF-8 is none that it reads.
#[verifier::external_body]
fn parse_outpoint(text: &[u8]) -> (r: Option<Outpoint>)
    ensures
        match r {
            Some(outpoint) => outpoint_parsed(text@) == Some((outpoint.txid@, outpoint.vout)),
            None => outpoint_parsed(text@) is None,
        },
{
    let text = std::str::from_utf8(text).ok()?;
    let outpoint = <bpstd::Outpoint as std::str::FromStr>::from_str(text).ok()?;
    Some(Outpoint { txid: outpoint.txid.into(), vout: outpoint.vout.into_u32() })
}

/// Calls `to_string` of `bpstd::Outpoint`: hexadecimal digits, a colon and
/// decimal digits. The text is named, holds printable ASCII only, and is
/// one that `from_str` of `bpstd::Outpoint` reads as the same outpoint.
#[verifier::external_body]
fn format_outpoint(outpoint: &Outpoint) -> (text: String)
    ensures
        is_ascii_chars(text@),
        ascii(text@) == outpoint_text(outpoint.txid@, outpoint.vout),
        printable(ascii(text@)),
        outpoint_parsed(ascii(text@)) == Some((outpoint.txid@, outpoint.vout)),
{
    let txid = bpstd::Txid::from(outpoint.txid);
    bpstd::Outpoint::new(txid, bpstd::Vout::from_u32(outpoint.vout)).to_string()
}

impl Ledger {
    /// The tag of the ledger in an encoding.
    pub open spec fn tag(&self) -> u8 {
        match self {
            Ledger::Bitcoin => TAG_BITCOIN,
            Ledger::Liquid => TAG_LIQUID,
        }
    }

    /// The name of the ledger in a seal's text, with the colon after it.
    pub open spec fn prefix(&self) -> Seq<u8> {
        match self {
            Ledger::Bitcoin => ascii("bitcoin:"@),
            Ledger::Liquid => ascii("liquid:"@),
        }
    }
}

impl Seal {
    /// The ledger of the seal.
    pub open spec fn ledger(&self) -> Ledger {
        match self {
            Seal::Bitcoin(_) => Ledger::Bitcoin,
            Seal::Liquid(_) => Ledger::Liquid,
        }
    }

    /// The output that the seal refers to.
    pub open spec fn outpoint(&self) -> Outpoint {
        match self {
            Seal::Bitcoin(outpoint) => *outpoint,
            Seal::Liquid(outpoint) => *outpoint,
        }
    }

    /// The seal on the given ledger at the given output.
    pub open spec fn on(ledger: Ledger, outpoint: Outpoint) -> Seal {
        match ledger {
            Ledger::Bitcoin => Seal::Bitcoin(outpoint),
            Ledger::Liquid => Seal::Liquid(outpoint),
        }
    }

    /// The ledger that a seal's text names, and the rest of the text. A text
    /// that starts with the name of no ledger is all outpoint, on the
    /// primary ledger.
    pub open spec fn split(text: Seq<u8>) -> (Ledger, Seq<u8>) {
        if starts_with(text, Ledger::Bitcoin.prefix()) {
            (Ledger::Bitcoin, text.skip(Ledger::Bitcoin.prefix().len() as int))
        } else if starts_with(text, Ledger::Liquid.prefix()) {
            (Ledger::Liquid, text.skip(Ledger::Liquid.prefix().len() as int))
        } else {
            (Ledger::Bitcoin, text)
        }
    }

    /// Whether a text is one that is read as the given seal: it names the
    /// seal's ledger, or none for the primary one, and what follows is read
    /// as the seal's output.
    pub open spec fn reads_as(text: Seq<u8>, seal: Seal) -> bool {
        &&& seal.ledger() == Seal::split(text).0
        &&& outpoint_parsed(Seal::split(text).1) == Some(
            (seal.outpoint().txid@, seal.outpoint().vout),
        )
    }

    /// A text is read as one seal at most.
    pub proof fn lemma_one_reading(text: Seq<u8>, first: Seal, second: Seal)
        requires
            Seal::reads_as(text, first),
            Seal::reads_as(text, second),
        ensures
            first == second,
    {
        assert(first.outpoint().txid =~= second.outpoint().txid);
    }

    /// A seal's text is read back as the seal: where `text` is read as
    /// `seal`, and `r` is what reading `text` gives, `r` is `seal`.
    pub proof fn lemma_text_read_back(text: Seq<u8>, seal: Seal, r: Result<Seal, SealParseError>)
        requires
            Seal::reads_as(text, seal),
            match r {
                Ok(read) => Seal::reads_as(text, read),
                Err(e) => outpoint_parsed(Seal::split(text).1) is None,
            },
        ensures
            r == Ok::<Seal, SealParseError>(seal),
    {
        match r {
            Ok(read) => {
                Seal::lemma_one_reading(text, read, seal);
            },
            Err(e) => {},
        }
    }

    /// The ledger of the seal.
    pub fn get_ledger(&self) -> (ledger: Ledger)
        ensures
            ledger == self.ledger(),
    {
        match self {
            Seal::Bitcoin(_) => Ledger::Bitcoin,
            Seal::Liquid(_) => Ledger::Liquid,
        }
    }

    /// The output that the seal refers to.
    pub fn get_outpoint(&self) -> (outpoint: Outpoint)
        ensures
            outpoint == self.outpoint(),
    {
        match self {
            Seal::Bitcoin(outpoint) => *outpoint,
            Seal::Liquid(outpoint) => *outpoint,
        }
    }

    /// Reads a seal from `<ledger>:<txid>:<vout>`, where the ledger is
    /// `bitcoin` or `liquid`, or from `<txid>:<vout>`, which is taken to be on
    /// the primary ledger.
    pub fn from_str(text: &str) -> (r: Result<Seal, SealParseError>)
        ensures
            match r {
                Ok(seal) => Seal::reads_as(text.spec_bytes(), seal),
                Err(e) => {
                    &&& outpoint_parsed(Seal::split(text.spec_bytes()).1) is None
                    &&& e == SealParseError::InvalidOutpoint
                },
            },
    {
        proof {
            reveal_strlit("bitcoin:");
            reveal_strlit("liquid:");
        }
        let bytes: &[u8] = text.as_bytes();
        let bitcoin: &[u8] = ascii_bytes("bitcoin:");
        let liquid: &[u8] = ascii_bytes("liquid:");
        if has_prefix(bytes, bitcoin) {
            match parse_outpoint(slice_subrange(bytes, bitcoin.len(), bytes.len())) {
                Some(outpoint) => Ok(Seal::Bitcoin(outpoint)),
                None => Err(SealParseError::InvalidOutpoint),
            }
        } else if has_prefix(bytes, liquid) {
            match parse_outpoint(slice_subrange(bytes, liquid.len(), bytes.len())) {
                Some(outpoint) => Ok(Seal::Liquid(outpoint)),
                None => Err(SealParseError::InvalidOutpoint),
            }
        } else {
            match parse_outpoint(bytes) {
                Some(outpoint) => Ok(Seal::Bitcoin(outpoint)),
                None => Err(SealParseError::InvalidOutpoint),
            }
        }
    }

    /// The text of the seal: the name of its ledger, a colon and the
    /// outpoint.
    pub open spec fn text(&self) -> Seq<u8> {
        self.ledger().prefix() + outpoint_text(self.outpoint().txid@, self.outpoint().vout)
    }

    /// Writes the seal as the bytes of its text, which is printable and is
    /// read as the seal.
    pub fn to_text(&self) -> (text: Vec<u8>)
        ensures
            text@ == self.text(),
            printable(text@),
            Seal::reads_as(text@, *self),
    {
        proof {
            reveal_strlit("bitcoin:");
            reveal_strlit("liquid:");
        }
        let mut text: Vec<u8> = Vec::new();
        match self {
            Seal::Bitcoin(outpoint) => {
                let prefix: &[u8] = ascii_bytes("bitcoin:");
                append(&mut text, prefix);
                let tail: String = format_outpoint(outpoint);
                append(&mut text, ascii_bytes(tail.as_str()));
                proof {
                    assert(text@.subrange(0, prefix@.len() as int) =~= prefix@);
                    assert(text@.skip(prefix@.len() as int) =~= ascii(tail@));
                }
            },
            Seal::Liquid(outpoint) => {
                let prefix: &[u8] = ascii_bytes("liquid:");
                append(&mut text, prefix);
                let tail: String = format_outpoint(outpoint);
                append(&mut text, ascii_bytes(tail.as_str()));
                proof {
                    let other = Ledger::Bitcoin.prefix();
                    assert(text@[0] == 108 && other[0] == 98);
                    assert(!starts_with(text@, other)) by {
                        if starts_with(text@, other) {
                            assert(text@.subrange(0, other.len() as int)[0] == other[0]);
                        }
                    }
                    assert(text@.subrange(0, prefix@.len() as int) =~= prefix@);
                    assert(text@.skip(prefix@.len() as int) =~= ascii(tail@));
                }
            },
        }
        text
    }

    /// Writes the seal as text, which is read as the seal.
    pub fn to_string(&self) -> (text: String)
        ensures
            is_ascii_chars(text@),
            ascii(text@) == self.text(),
            Seal::reads_as(ascii(text@), *self),
    {
        ascii_string(self.to_text())
    }
}

impl StrictCodec for Outpoint {
    open spec fn encoding(&self) -> Seq<u8> {
        self.txid@ + le_u32(self.vout)
    }

    open spec fn encodable(&self) -> bool {
        true
    }

    open spec fn frame(bytes: Seq<u8>) -> Result<nat, DecodeError> {
        if bytes.len() >= 36 {
            Ok(36)
        } else {
            Err(DecodeError::UnexpectedEof)
        }
    }

    proof fn lemma_frame(&self, rest: Seq<u8>) {
    }

    fn is_encodable(&self) -> (ok: bool) {
        true
    }

    fn strict_encode(&self, out: &mut Vec<u8>) {
        self.txid.strict_encode(out);
        self.vout.strict_encode(out);
        proof {
            assert(out@ =~= old(out)@ + self.encoding());
        }
    }

    fn strict_decode(input: &[u8], at: usize) -> (r: Result<(Self, usize), DecodeError>) {
        if input.len() - at < 36 {
            return Err(DecodeError::UnexpectedEof);
        }
        let (txid, mid) = match <[u8; 32] as StrictCodec>::strict_decode(input, at) {
            Ok(v) => v,
            Err(e) => {
                return Err(e);
            },
        };
        let (vout, end) = match u32::strict_decode(input, mid) {
            Ok(v) => v,
            Err(e) => {
                return Err(e);
            },
        };
        let outpoint = Outpoint { txid, vout };
        proof {
            assert(outpoint.encoding() =~= input@.subrange(at as int, end as int));
        }
        Ok((outpoint, end))
    }
}

impl StrictCodec for Seal {
    open spec fn encoding(&self) -> Seq<u8> {
        seq![self.ledger().tag()] + self.outpoint().encoding()
    }

    open spec fn encodable(&self) -> bool {
        true
    }

    open spec fn frame(bytes: Seq<u8>) -> Result<nat, DecodeError> {
        if bytes.len() == 0 {
            Err(DecodeError::UnexpectedEof)
        } else if bytes[0] != TAG_BITCOIN && bytes[0] != TAG_LIQUID {
            Err(DecodeError::UnknownTag(bytes[0]))
        } else if bytes.len() < 37 {
            Err(DecodeError::UnexpectedEof)
        } else {
            Ok(37)
        }
    }

    proof fn lemma_frame(&self, rest: Seq<u8>) {
    }

    fn is_encodable(&self) -> (ok: bool) {
        true
    }

    fn strict_encode(&self, out: &mut Vec<u8>) {
        match self {
            Seal::Bitcoin(outpoint) => {
                out.push(TAG_BITCOIN);
                outpoint.strict_encode(out);
            },
            Seal::Liquid(outpoint) => {
                out.push(TAG_LIQUID);
                outpoint.strict_encode(out);
            },
        }
        proof {
            assert(out@ =~= old(out)@ + self.encoding());
        }
    }

    fn strict_decode(input: &[u8], at: usize) -> (r: Result<(Self, usize), DecodeError>) {
        if input.len() - at < 1 {
            return Err(DecodeError::UnexpectedEof);
        }
        let tag: u8 = input[at];
        if tag != TAG_BITCOIN && tag != TAG_LIQUID {
            return Err(DecodeError::UnknownTag(tag));
        }
        let (outpoint, end) = match Outpoint::strict_decode(input, at + 1) {
            Ok(v) => v,
            Err(e) => {
                proof {
                    assert(input@.skip(at as int).skip(1) =~= input@.skip(at + 1));
                }
                return Err(e);
            },
        };
        let seal = if tag == TAG_BITCOIN {
            Seal::Bitcoin(outpoint)
        } else {
            Seal::Liquid(outpoint)
        };
        proof {
            assert(input@.skip(at as int).skip(1) =~= input@.skip(at + 1));
            assert(seal.encoding() =~= input@.subrange(at as int, end as int));
        }
        Ok((seal, end))
    }
}

} // verus!
