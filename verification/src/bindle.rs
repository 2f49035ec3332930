//! The bindle: an envelope that carries a piece of content together with the
//! identifier that the content gives itself and the certificates of those
//! who signed it, as a binary file or as an ASCII-armored block.

use vstd::prelude::*;
use vstd::slice::slice_subrange;
use vstd::string::StringSliceAdditionalSpecFns;
use vstd::utf8::is_ascii_chars;
use crate::algo::ristretto25519::RistrettoPk;
use crate::algo::Pk;
use crate::armor::append;
use crate::armor::armorable;
use crate::armor::armored;
use crate::armor::ascii;
use crate::armor::ascii_bytes;
use crate::armor::ascii_string;
use crate::armor::is_ascii_text;
use crate::armor::lemma_armored_ascii;
use crate::armor::printable;
use crate::armor::id_prefix;
use crate::armor::id_values;
use crate::armor::is_line;
use crate::armor::lemma_parsed_armored;
use crate::armor::parsed;
use crate::armor::same_bytes;
use crate::armor::starts_with;
use crate::armor::views;
use crate::armor::Armor;
use crate::armor::ArmorView;
use crate::armor::CR;
use crate::armor::LF;
use crate::encoding::decode_list;
use crate::encoding::encode_list;
use crate::encoding::lemma_split;
use crate::encoding::list_encodable;
use crate::encoding::list_encoding;
use crate::encoding::list_frame;
use crate::encoding::Bound;
use crate::encoding::DecodeError;
use crate::encoding::StrictCodec;
use crate::sigs::SigCert;
use crate::text85;

verus! {

/// The largest number of bytes of an armored payload: 16 MiB less one.
pub const MAX_PAYLOAD: usize = 16777215;

/// Whether a header line can stand in a block beside the `Id` header: it is
/// printable, not empty and no `Id` header itself.
pub open spec fn plain_header(line: Seq<u8>) -> bool {
    printable(line) && line.len() > 0 && !starts_with(line, id_prefix())
}

/// An identifier that a piece of content gives itself.
pub trait BindleId: StrictCodec + Copy {
    /// The canonical text of the identifier.
    spec fn text(&self) -> Seq<u8>;

    /// Identifiers with the same encoding are the same.
    proof fn lemma_injective(&self, other: &Self)
        requires
            self.encoding() == other.encoding(),
        ensures
            *self == *other,
    ;

    /// Writes the identifier as its canonical text, which is printable.
    fn to_text(&self) -> (text: Vec<u8>)
        ensures
            text@ == self.text(),
            printable(text@),
    ;

    /// Whether two identifiers are the same.
    fn same(&self, other: &Self) -> (same: bool)
        ensures
            same == (*self == *other),
    ;
}

/// Content that can be put into a bindle.
pub trait BindleContent: StrictCodec {
    /// The identifier of this kind of content.
    type Id: BindleId;

    /// The four bytes with which a binary file of this kind of content starts.
    const MAGIC: [u8; 4];

    /// The title in the markers of an armored block of this kind of content.
    const PLATE_TITLE: &'static str;

    /// The identifier that the content gives itself.
    spec fn content_id(&self) -> Self::Id;

    /// The mnemonic that the content wants shown in a header, if any.
    spec fn mnemonic(&self) -> Option<Seq<u8>>;

    /// The header lines that the content adds to a block.
    spec fn headers(&self) -> Seq<Seq<u8>>;

    /// The identifier is a matter of the encoding: contents with the same
    /// encoding give themselves the same identifier.
    proof fn lemma_same_id(&self, other: &Self)
        requires
            self.encodable(),
            other.encodable(),
            self.encoding() == other.encoding(),
        ensures
            self.content_id() == other.content_id(),
    ;

    /// The title is ASCII and holds no line feed.
    proof fn lemma_plate_title()
        ensures
            Self::PLATE_TITLE.is_ascii(),
            forall|i: int|
                0 <= i < Self::PLATE_TITLE@.len() ==> ascii(Self::PLATE_TITLE@)[i] != LF,
    ;

    /// The identifier that the content gives itself.
    fn bindle_id(&self) -> (id: Self::Id)
        requires
            self.encodable(),
        ensures
            id == self.content_id(),
            id.encodable(),
    ;

    /// The mnemonic that the content wants shown in a header, if any. It is
    /// printable.
    fn bindle_mnemonic(&self) -> (mnemonic: Option<Vec<u8>>)
        ensures
            match mnemonic {
                Some(text) => self.mnemonic() == Some(text@) && printable(text@),
                None => self.mnemonic() is None,
            },
    ;

    /// The header lines that the content adds to a block, each of the form
    /// `Key: value`. Each of them is printable, and none is empty or an `Id`
    /// header.
    fn bindle_headers(&self) -> (headers: Vec<Vec<u8>>)
        ensures
            views(headers@) == self.headers(),
            forall|i: int|
                0 <= i < self.headers().len() ==> plain_header(#[trigger] self.headers()[i]),
    ;
}

/// The title of a kind of content as the bytes that stand in a block.
pub open spec fn plate_title<C: BindleContent>() -> Seq<u8> {
    ascii(C::PLATE_TITLE@)
}

/// Why a decoded payload is not the encoding of a piece of content.
#[derive(Clone, Copy, PartialEq, Eq, Debug, Structural)]
pub enum DeserializeError {
    /// The payload does not start with an encoded value.
    Decode(DecodeError),
    /// Bytes are left after the value.
    DataNotEntirelyConsumed,
}

/// Why an armored block was not accepted.
#[derive(Clone, PartialEq, Eq, Debug)]
pub enum BindleParseError<Id> {
    /// The text does not open and close with the markers of the content.
    WrongStructure,
    /// An `Id` header holds a value that is no identifier. The value is
    /// given.
    InvalidId(Vec<u8>),
    /// The content is not the one that the `Id` header names.
    MismatchedId { actual: Id, expected: Id },
    /// The payload is not well-formed Base85.
    Base85,
    /// The payload does not decode to a piece of content.
    Deserialize(DeserializeError),
    /// The payload holds more than 16 MiB of data.
    TooLarge,
}

/// Says that content takes more than 16 MiB and cannot be armored.
#[derive(Clone, Copy, PartialEq, Eq, Debug, Structural)]
pub struct SizeExceeded;

/// Why the bytes of a binary file were not accepted.
#[derive(Clone, Copy, PartialEq, Eq, Debug, Structural)]
pub enum LoadError {
    /// The file does not start with the four bytes of the content.
    InvalidMagic,
    /// What follows the first four bytes is no encoded bindle.
    Decode(DecodeError),
    /// The identifier in the file is not the one of the content in it.
    MismatchedId,
}

/// A piece of content with its identifier and the certificates of its
/// signers. The identifier is always the one that the content gives itself.
pub struct Bindle<C: BindleContent, K: Pk = RistrettoPk> {
    id: C::Id,
    data: C,
    sigs: Vec<SigCert<K>>,
}

/// The index of the first header value that was found to be no identifier,
/// or the number of header values if each of them is one.
pub open spec fn first_invalid<Id>(ids: Seq<Option<Id>>) -> int
    decreases ids.len(),
{
    if ids.len() == 0 || ids[0] is None {
        0
    } else {
        1 + first_invalid(ids.skip(1))
    }
}

/// `first_invalid` stops at the first `None`, or at the end.
pub proof fn lemma_first_invalid_at<Id>(ids: Seq<Option<Id>>, k: int)
    requires
        0 <= k <= ids.len(),
        forall|j: int| 0 <= j < k ==> (#[trigger] ids[j]) is Some,
        k < ids.len() ==> ids[k] is None,
    ensures
        first_invalid(ids) == k,
    decreases ids.len(),
{
    if ids.len() == 0 || ids[0] is None {
    } else {
        let rest = ids.skip(1);
        assert forall|j: int| 0 <= j < k - 1 implies (#[trigger] rest[j]) is Some by {
            assert(rest[j] == ids[j + 1]);
        }
        lemma_first_invalid_at(rest, k - 1);
    }
}

/// The identifier that the headers of a block name: the one of the last
/// `Id` header, if there is any.
pub open spec fn named_id<Id>(ids: Seq<Option<Id>>) -> Option<Id> {
    if ids.len() == 0 {
        None
    } else {
        ids.last()
    }
}

/// What decoding a payload in full gives: nothing to object to, or the
/// reason why the payload is not one encoded value and nothing else.
pub open spec fn payload_fault<C: StrictCodec>(payload: Seq<u8>) -> Option<DeserializeError> {
    match C::frame(payload) {
        Err(e) => Some(DeserializeError::Decode(e)),
        Ok(n) => if n < payload.len() {
            Some(DeserializeError::DataNotEntirelyConsumed)
        } else {
            None
        },
    }
}

/// Only the `Id` header of a block is one: the lines after it are not.
pub proof fn lemma_single_id(first: Seq<u8>, rest: Seq<Seq<u8>>)
    requires
        starts_with(first, id_prefix()),
        forall|i: int| 0 <= i < rest.len() ==> !starts_with(#[trigger] rest[i], id_prefix()),
    ensures
        id_values(seq![first] + rest) == seq![first.skip(id_prefix().len() as int)],
    decreases rest.len(),
{
    let all = seq![first] + rest;
    if rest.len() == 0 {
        assert(all.drop_last() =~= Seq::<Seq<u8>>::empty());
        assert(id_values(all.drop_last()) =~= Seq::<Seq<u8>>::empty());
        assert(all.last() == first);
        assert(id_values(all) =~= seq![first.skip(id_prefix().len() as int)]);
    } else {
        lemma_single_id(first, rest.drop_last());
        assert(all.drop_last() =~= seq![first] + rest.drop_last());
        assert(all.last() == rest.last());
    }
}

impl<C: BindleContent, K: Pk> Bindle<C, K> {
    /// The identifier of the bindle.
    pub closed spec fn spec_id(&self) -> C::Id {
        self.id
    }

    /// The content of the bindle.
    pub closed spec fn content(&self) -> C {
        self.data
    }

    /// The certificates of those who signed the bindle, in the order in
    /// which they signed.
    pub closed spec fn signatures(&self) -> Seq<SigCert<K>> {
        self.sigs@
    }

    /// The invariant of the type: every bindle is well-formed.
    #[verifier::type_invariant]
    closed spec fn inv(self) -> bool {
        self.wf()
    }

    /// What holds of every bindle: its identifier is the one of its content,
    /// and the content and the signatures can be encoded.
    pub open spec fn wf(&self) -> bool {
        &&& self.spec_id() == self.content().content_id()
        &&& self.spec_id().encodable()
        &&& self.content().encodable()
        &&& list_encodable(Bound::Tiny, self.signatures())
    }

    /// The `Signed-By` header of a signer.
    pub open spec fn signer_line(cert: SigCert<K>) -> Seq<u8> {
        ascii("Signed-By: "@) + cert.id.current().text()
    }

    /// The header lines of the bindle's block: its `Id`, the mnemonic where
    /// the content has one, the headers that the content adds, and one
    /// `Signed-By` for each signer.
    pub open spec fn header_lines(&self) -> Seq<Seq<u8>> {
        seq![id_prefix() + self.spec_id().text()] + (match self.content().mnemonic() {
            Some(text) => seq![ascii("Mnemonic: "@) + text],
            None => Seq::<Seq<u8>>::empty(),
        }) + self.content().headers() + Seq::new(
            self.signatures().len(),
            |i: int| Self::signer_line(self.signatures()[i]),
        )
    }

    /// The armored text of the bindle.
    pub open spec fn armor_text(&self) -> Seq<u8> {
        armored(plate_title::<C>(), self.header_lines(), text85::encoded(self.content().encoding()))
    }

    /// Whether `text` is a block from which the bindle can be read again: it
    /// parses, its one `Id` header holds the text of the bindle's
    /// identifier, and its payload is Base85 that stands for the encoding of
    /// the bindle's content.
    pub open spec fn reads_back(&self, text: Seq<u8>) -> bool {
        &&& parsed(text, plate_title::<C>()) matches Some(armor)
        &&& armor.id_values == seq![self.spec_id().text()]
        &&& text85::valid(armor.payload)
        &&& text85::decoded(armor.payload) == self.content().encoding()
    }

    /// The bytes of the bindle's binary file: the magic bytes of the
    /// content, and the encodings of the identifier, of the content and of
    /// the signatures.
    pub open spec fn file_bytes(&self) -> Seq<u8> {
        C::MAGIC@ + self.spec_id().encoding() + self.content().encoding() + list_encoding(
            Bound::Tiny,
            self.signatures(),
        )
    }

    /// Wraps content into a bindle that nobody has signed.
    pub fn new(data: C) -> (bindle: Self)
        requires
            data.encodable(),
        ensures
            bindle.wf(),
            bindle.content() == data,
            bindle.spec_id() == data.content_id(),
            bindle.signatures().len() == 0,
    {
        let id = data.bindle_id();
        Bindle { id, data, sigs: Vec::new() }
    }

    /// The identifier of the bindle.
    pub fn id(&self) -> (id: C::Id)
        ensures
            id == self.spec_id(),
    {
        self.id
    }

    /// The content of the bindle.
    pub fn data(&self) -> (data: &C)
        ensures
            *data == self.content(),
    {
        &self.data
    }

    /// The number of signers.
    pub fn signers(&self) -> (n: usize)
        ensures
            n == self.signatures().len(),
    {
        self.sigs.len()
    }

    /// Takes the bindle apart into its content and its signatures.
    pub fn into_split(self) -> (parts: (C, Vec<SigCert<K>>))
        ensures
            parts.0 == self.content(),
            parts.1@ == self.signatures(),
    {
        (self.data, self.sigs)
    }

    /// Takes the content out of the bindle.
    pub fn unbindle(self) -> (data: C)
        ensures
            data == self.content(),
    {
        self.data
    }

    /// Writes the bindle as an armored block, unless its content takes more
    /// than 16 MiB.
    ///
    /// The block is one from which the bindle can be read again.
    pub fn to_armor(&self) -> (r: Result<Vec<u8>, SizeExceeded>)
        ensures
            self.wf(),
            match r {
                Ok(text) => {
                    &&& self.content().encoding().len() <= MAX_PAYLOAD
                    &&& text@ == self.armor_text()
                    &&& is_ascii_text(text@)
                    &&& self.reads_back(text@)
                },
                Err(_) => self.content().encoding().len() > MAX_PAYLOAD,
            },
    {
        proof {
            use_type_invariant(self);
            reveal_strlit("Id: ");
            reveal_strlit("Mnemonic: ");
            reveal_strlit("Signed-By: ");
        }
        let mut bytes: Vec<u8> = Vec::new();
        self.data.strict_encode(&mut bytes);
        proof {
            assert(bytes@ =~= self.content().encoding());
        }
        if bytes.len() > MAX_PAYLOAD {
            return Err(SizeExceeded);
        }
        let ghost prefix = id_prefix();
        let mut headers: Vec<Vec<u8>> = Vec::new();
        let mut line: Vec<u8> = Vec::new();
        append(&mut line, ascii_bytes("Id: "));
        let id_text: Vec<u8> = self.id.to_text();
        append(&mut line, id_text.as_slice());
        let ghost first = line@;
        proof {
            assert(first == prefix + self.spec_id().text());
            assert(first.subrange(0, prefix.len() as int) =~= prefix);
            assert(first.skip(prefix.len() as int) =~= self.spec_id().text());
            assert(printable(first));
        }
        headers.push(line);
        let ghost mut rest: Seq<Seq<u8>> = Seq::empty();
        proof {
            assert(views(headers@) =~= seq![first] + rest);
        }
        match self.data.bindle_mnemonic() {
            Some(text) => {
                let mut line: Vec<u8> = Vec::new();
                append(&mut line, ascii_bytes("Mnemonic: "));
                append(&mut line, text.as_slice());
                proof {
                    assert(line@[0] == 77);
                    assert(prefix[0] == 73);
                    assert(!starts_with(line@, prefix)) by {
                        if starts_with(line@, prefix) {
                            assert(line@.subrange(0, prefix.len() as int)[0] == prefix[0]);
                        }
                    }
                    assert(printable(line@));
                    rest = rest.push(line@);
                }
                headers.push(line);
            },
            None => {},
        }
        let ghost lead = rest;
        proof {
            assert(views(headers@) =~= seq![first] + rest);
            assert(lead =~= (match self.content().mnemonic() {
                Some(text) => seq![ascii("Mnemonic: "@) + text],
                None => Seq::<Seq<u8>>::empty(),
            }));
        }
        let extra: Vec<Vec<u8>> = self.data.bindle_headers();
        let mut i: usize = 0;
        while i < extra.len()
            invariant
                i <= extra@.len(),
                views(extra@) == self.content().headers(),
                forall|j: int|
                    0 <= j < self.content().headers().len() ==> plain_header(
                        #[trigger] self.content().headers()[j],
                    ),
                views(headers@) == seq![first] + rest,
                rest == lead + self.content().headers().subrange(0, i as int),
                forall|j: int| 0 <= j < rest.len() ==> plain_header(#[trigger] rest[j]),
            decreases extra@.len() - i,
        {
            let mut line: Vec<u8> = Vec::new();
            append(&mut line, extra[i].as_slice());
            proof {
                assert(line@ =~= views(extra@)[i as int]);
                let next = rest.push(line@);
                assert(next =~= lead + self.content().headers().subrange(0, i + 1));
                assert(views(headers@.push(line)) =~= views(headers@).push(line@));
                assert(views(headers@).push(line@) =~= seq![first] + next);
                rest = next;
            }
            headers.push(line);
            i += 1;
        }
        let ghost middle = rest;
        proof {
            assert(self.content().headers().subrange(0, i as int) =~= self.content().headers());
        }
        let mut k: usize = 0;
        while k < self.sigs.len()
            invariant
                k <= self.sigs@.len(),
                prefix == id_prefix(),
                views(headers@) == seq![first] + rest,
                rest == middle + Seq::new(
                    k as nat,
                    |j: int| Self::signer_line(self.signatures()[j]),
                ),
                forall|j: int| 0 <= j < rest.len() ==> plain_header(#[trigger] rest[j]),
            decreases self.sigs@.len() - k,
        {
            proof {
                reveal_strlit("Id: ");
                reveal_strlit("Signed-By: ");
            }
            let mut line: Vec<u8> = Vec::new();
            append(&mut line, ascii_bytes("Signed-By: "));
            let signer: Vec<u8> = self.sigs[k].identity().to_text();
            append(&mut line, signer.as_slice());
            proof {
                assert(line@ == Self::signer_line(self.signatures()[k as int]));
                assert(line@[0] == 83);
                assert(prefix[0] == 73);
                assert(!starts_with(line@, prefix)) by {
                    if starts_with(line@, prefix) {
                        assert(line@.subrange(0, prefix.len() as int)[0] == prefix[0]);
                    }
                }
                assert(printable(line@));
                let next = rest.push(line@);
                assert(next =~= middle + Seq::new(
                    (k + 1) as nat,
                    |j: int| Self::signer_line(self.signatures()[j]),
                ));
                assert(views(headers@.push(line)) =~= views(headers@).push(line@));
                assert(views(headers@).push(line@) =~= seq![first] + next);
                rest = next;
            }
            headers.push(line);
            k += 1;
        }
        let payload: Vec<u8> = text85::encode(bytes.as_slice());
        proof {
            C::lemma_plate_title();
        }
        let title: &[u8] = ascii_bytes(C::PLATE_TITLE);
        let text: Vec<u8> = Armor::render(title, &headers, payload.as_slice());
        proof {
            assert(views(headers@) =~= self.header_lines());
            text85::lemma_valid_alphabet(payload@);
            assert forall|j: int| 0 <= j < views(headers@).len() implies printable(
                #[trigger] views(headers@)[j],
            ) && views(headers@)[j].len() > 0 by {
                if j > 0 {
                    assert(views(headers@)[j] == rest[j - 1]);
                    assert(plain_header(rest[j - 1]));
                }
            }
            assert forall|j: int| 0 <= j < payload@.len() implies 32 < #[trigger] payload@[j]
                < 127 by {
                assert(text85::digit(payload@[j]) is Some);
            }
            assert(armorable(plate_title::<C>(), views(headers@), payload@)) by {
                assert forall|j: int| 0 <= j < views(headers@).len() implies is_line(
                    #[trigger] views(headers@)[j],
                ) && views(headers@)[j].len() > 0 by {
                    assert(printable(views(headers@)[j]));
                }
            }
            lemma_parsed_armored(plate_title::<C>(), views(headers@), payload@);
            lemma_single_id(first, rest);
            assert(is_ascii_text(plate_title::<C>())) by {
                assert(is_ascii_chars(C::PLATE_TITLE@));
            }
            assert forall|j: int| 0 <= j < views(headers@).len() implies is_ascii_text(
                #[trigger] views(headers@)[j],
            ) by {
                assert(printable(views(headers@)[j]));
            }
            lemma_armored_ascii(plate_title::<C>(), views(headers@), payload@);
        }
        Ok(text)
    }

    /// Writes the bindle as the text of an armored block, unless its content
    /// takes more than 16 MiB.
    pub fn to_string(&self) -> (r: Result<String, SizeExceeded>)
        ensures
            self.wf(),
            match r {
                Ok(text) => {
                    &&& self.content().encoding().len() <= MAX_PAYLOAD
                    &&& is_ascii_chars(text@)
                    &&& ascii(text@) == self.armor_text()
                    &&& self.reads_back(ascii(text@))
                },
                Err(_) => self.content().encoding().len() > MAX_PAYLOAD,
            },
    {
        match self.to_armor() {
            Ok(bytes) => Ok(ascii_string(bytes)),
            Err(e) => Err(e),
        }
    }

    /// Reads a text as a block of this kind of content, without judging what
    /// its headers and its payload hold. The first and the last line are
    /// held against the markers of the content without the whitespace
    /// around them.
    pub fn unarmor(text: &str) -> (r: Result<Armor, BindleParseError<C::Id>>)
        ensures
            match r {
                Ok(armor) => parsed(text.spec_bytes(), plate_title::<C>()) == Some(armor@),
                Err(e) => parsed(text.spec_bytes(), plate_title::<C>()) is None && e
                    == BindleParseError::<C::Id>::WrongStructure,
            },
    {
        proof {
            C::lemma_plate_title();
        }
        match Armor::parse(text.as_bytes(), ascii_bytes(C::PLATE_TITLE)) {
            Some(armor) => Ok(armor),
            None => Err(BindleParseError::WrongStructure),
        }
    }

    /// What reading a block's content gives. `ids` holds, for each `Id`
    /// header of the block in order, the identifier that its value was found
    /// to name, or `None` where it names none.
    ///
    /// The first header value that names no identifier is an error. Then the
    /// payload has to be well-formed Base85, stand for at most 16 MiB of
    /// data, and decode to one piece of content and nothing else. Where the
    /// headers name an identifier, the last one named has to be the one
    /// that the content gives itself. A bindle that was read has no
    /// signatures.
    pub open spec fn reading(
        armor: ArmorView,
        ids: Seq<Option<C::Id>>,
        r: Result<Self, BindleParseError<C::Id>>,
    ) -> bool {
        let bad = first_invalid(ids);
        let data = text85::decoded(armor.payload);
        if bad < ids.len() {
            r matches Err(BindleParseError::InvalidId(value)) && value@ == armor.id_values[bad]
        } else if !text85::valid(armor.payload) {
            r == Err::<Self, BindleParseError<C::Id>>(BindleParseError::Base85)
        } else if data.len() > MAX_PAYLOAD {
            r == Err::<Self, BindleParseError<C::Id>>(BindleParseError::TooLarge)
        } else if let Some(fault) = payload_fault::<C>(data) {
            r == Err::<Self, BindleParseError<C::Id>>(BindleParseError::Deserialize(fault))
        } else {
            match r {
                Ok(bindle) => {
                    &&& bindle.wf()
                    &&& bindle.content().encoding() == data
                    &&& bindle.signatures().len() == 0
                    &&& named_id(ids) matches Some(named) ==> named == bindle.spec_id()
                },
                Err(BindleParseError::MismatchedId { actual, expected }) => {
                    &&& named_id(ids) == Some(expected)
                    &&& actual != expected
                    &&& exists|content: C| #[trigger]
                        content.encodable() && content.encoding() == data && actual
                            == content.content_id()
                },
                Err(_) => false,
            }
        }
    }

    /// Makes a bindle of what a block holds. `ids` holds, for each `Id`
    /// header of the block in order, the identifier that its value names, or
    /// `None` where it names none.
    pub fn from_armor(armor: &Armor, ids: &Vec<Option<C::Id>>) -> (r: Result<
        Self,
        BindleParseError<C::Id>,
    >)
        requires
            ids@.len() == armor@.id_values.len(),
        ensures
            Self::reading(armor@, ids@, r),
    {
        let mut named: Option<C::Id> = None;
        let mut i: usize = 0;
        while i < ids.len()
            invariant
                i <= ids@.len(),
                ids@.len() == armor@.id_values.len(),
                forall|j: int| 0 <= j < i ==> (#[trigger] ids@[j]) is Some,
                named == named_id(ids@.subrange(0, i as int)),
            decreases ids@.len() - i,
        {
            match ids[i] {
                Some(id) => {
                    proof {
                        assert(ids@.subrange(0, i + 1).last() == ids@[i as int]);
                    }
                    named = Some(id);
                },
                None => {
                    let mut value: Vec<u8> = Vec::new();
                    append(&mut value, armor.id_values[i].as_slice());
                    proof {
                        lemma_first_invalid_at(ids@, i as int);
                        assert(value@ =~= armor@.id_values[i as int]);
                    }
                    return Err(BindleParseError::InvalidId(value));
                },
            }
            i += 1;
        }
        proof {
            lemma_first_invalid_at(ids@, ids@.len() as int);
            assert(ids@.subrange(0, i as int) =~= ids@);
        }
        if !text85::is_valid(armor.payload.as_slice()) {
            return Err(BindleParseError::Base85);
        }
        let data: Vec<u8> = text85::decode(armor.payload.as_slice());
        if data.len() > MAX_PAYLOAD {
            return Err(BindleParseError::TooLarge);
        }
        proof {
            assert(data@.skip(0) =~= data@);
        }
        let (content, end) = match C::strict_decode(data.as_slice(), 0) {
            Ok(v) => v,
            Err(e) => {
                return Err(BindleParseError::Deserialize(DeserializeError::Decode(e)));
            },
        };
        if end < data.len() {
            return Err(BindleParseError::Deserialize(DeserializeError::DataNotEntirelyConsumed));
        }
        proof {
            assert(data@.subrange(0, end as int) =~= data@);
        }
        let id = content.bindle_id();
        match named {
            Some(expected) => {
                if !expected.same(&id) {
                    proof {
                        assert(content.encodable() && content.encoding() == data@ && id
                            == content.content_id());
                    }
                    return Err(BindleParseError::MismatchedId { actual: id, expected });
                }
            },
            None => {},
        }
        Ok(Bindle { id, data: content, sigs: Vec::new() })
    }

    /// Reading back what was written gives the same identifier and the same
    /// content, byte for byte: where `text` is the block of a bindle whose
    /// content takes at most 16 MiB, and `r` is what reading that block with
    /// the bindle's identifier named gives, `r` is a bindle with that
    /// identifier and with content of the same encoding.
    pub proof fn lemma_round_trip(&self, text: Seq<u8>, r: Result<Self, BindleParseError<C::Id>>)
        requires
            self.wf(),
            self.reads_back(text),
            self.content().encoding().len() <= MAX_PAYLOAD,
            Self::reading(
                parsed(text, plate_title::<C>()).unwrap(),
                seq![Some(self.spec_id())],
                r,
            ),
        ensures
            r matches Ok(bindle) && bindle.spec_id() == self.spec_id()
                && bindle.content().encoding() == self.content().encoding(),
    {
        let armor = parsed(text, plate_title::<C>()).unwrap();
        let ids = seq![Some(self.spec_id())];
        let data = text85::decoded(armor.payload);
        lemma_first_invalid_at(ids, 1);
        self.content().lemma_frame(Seq::<u8>::empty());
        assert(self.content().encoding() + Seq::<u8>::empty() =~= data);
        assert(payload_fault::<C>(data) is None);
        match r {
            Ok(bindle) => {},
            Err(BindleParseError::MismatchedId { actual, expected }) => {
                let content = choose|content: C| #[trigger]
                    content.encodable() && content.encoding() == data && actual
                        == content.content_id();
                content.lemma_same_id(&self.content());
            },
            Err(_) => {},
        }
    }

    /// A block whose `Id` header was replaced by another identifier is
    /// refused: where `text` is the block of a bindle whose content takes at
    /// most 16 MiB, reading its content with another identifier named gives
    /// the error that tells the two apart.
    pub proof fn lemma_tamper_detected(
        &self,
        text: Seq<u8>,
        other: C::Id,
        r: Result<Self, BindleParseError<C::Id>>,
    )
        requires
            self.wf(),
            self.reads_back(text),
            self.content().encoding().len() <= MAX_PAYLOAD,
            other != self.spec_id(),
            Self::reading(parsed(text, plate_title::<C>()).unwrap(), seq![Some(other)], r),
        ensures
            r matches Err(BindleParseError::MismatchedId { actual, expected }) && actual
                == self.spec_id() && expected == other,
    {
        let armor = parsed(text, plate_title::<C>()).unwrap();
        let ids = seq![Some(other)];
        let data = text85::decoded(armor.payload);
        lemma_first_invalid_at(ids, 1);
        self.content().lemma_frame(Seq::<u8>::empty());
        assert(self.content().encoding() + Seq::<u8>::empty() =~= data);
        assert(payload_fault::<C>(data) is None);
        match r {
            Ok(bindle) => {
                bindle.content().lemma_same_id(&self.content());
            },
            Err(BindleParseError::MismatchedId { actual, expected }) => {
                let content = choose|content: C| #[trigger]
                    content.encodable() && content.encoding() == data && actual
                        == content.content_id();
                content.lemma_same_id(&self.content());
            },
            Err(_) => {},
        }
    }

    /// Writes the bytes of the bindle's binary file.
    pub fn save(&self) -> (bytes: Vec<u8>)
        ensures
            self.wf(),
            bytes@ == self.file_bytes(),
    {
        proof {
            use_type_invariant(self);
        }
        let mut bytes: Vec<u8> = Vec::new();
        let magic: [u8; 4] = C::MAGIC;
        append(&mut bytes, magic.as_slice());
        self.id.strict_encode(&mut bytes);
        self.data.strict_encode(&mut bytes);
        encode_list(Bound::Tiny, &self.sigs, &mut bytes);
        proof {
            assert(bytes@ =~= self.file_bytes());
        }
        bytes
    }

    /// What loading the bytes of a binary file gives.
    ///
    /// The first four bytes are looked at before anything else: where they
    /// are there and are not the magic bytes of the content, the file is
    /// refused for that, whatever follows. Then the identifier, the content
    /// and the signatures are decoded in turn, and the identifier has to be
    /// the one that the content gives itself. Bytes after the signatures are
    /// not looked at.
    pub open spec fn loading(bytes: Seq<u8>, r: Result<Self, LoadError>) -> bool {
        if bytes.len() < 4 {
            r == Err::<Self, LoadError>(LoadError::Decode(DecodeError::UnexpectedEof))
        } else if bytes.subrange(0, 4) != C::MAGIC@ {
            r == Err::<Self, LoadError>(LoadError::InvalidMagic)
        } else {
            match C::Id::frame(bytes.skip(4)) {
                Err(e) => r == Err::<Self, LoadError>(LoadError::Decode(e)),
                Ok(a) => match C::frame(bytes.skip(4 + a as int)) {
                    Err(e) => r == Err::<Self, LoadError>(LoadError::Decode(e)),
                    Ok(b) => match list_frame::<SigCert<K>>(
                        Bound::Tiny,
                        bytes.skip(4 + a as int + b as int),
                    ) {
                        Err(e) => r == Err::<Self, LoadError>(LoadError::Decode(e)),
                        Ok(c) => match r {
                            Ok(bindle) => {
                                &&& bindle.wf()
                                &&& bindle.file_bytes() == bytes.subrange(
                                    0,
                                    4 + a as int + b as int + c as int,
                                )
                            },
                            Err(LoadError::MismatchedId) => exists|id: C::Id, content: C|
                                {
                                    &&& #[trigger] id.encoding() == bytes.subrange(
                                        4,
                                        4 + a as int,
                                    )
                                    &&& content.encodable()
                                    &&& #[trigger] content.encoding() == bytes.subrange(
                                        4 + a as int,
                                        4 + a as int + b as int,
                                    )
                                    &&& id != content.content_id()
                                },
                            Err(_) => false,
                        },
                    },
                },
            }
        }
    }

    /// Makes a bindle of the bytes of a binary file.
    pub fn load(bytes: &[u8]) -> (r: Result<Self, LoadError>)
        ensures
            Self::loading(bytes@, r),
    {
        if bytes.len() < 4 {
            return Err(LoadError::Decode(DecodeError::UnexpectedEof));
        }
        let magic: [u8; 4] = C::MAGIC;
        if !same_bytes(slice_subrange(bytes, 0, 4), magic.as_slice()) {
            return Err(LoadError::InvalidMagic);
        }
        let (id, after_id) = match C::Id::strict_decode(bytes, 4) {
            Ok(v) => v,
            Err(e) => {
                return Err(LoadError::Decode(e));
            },
        };
        let ghost a = (after_id - 4) as nat;
        proof {
            assert(C::Id::frame(bytes@.skip(4)) == Ok::<nat, DecodeError>(a));
            assert(bytes@.skip(4 + a as int) =~= bytes@.skip(after_id as int));
        }
        let (data, after_data) = match C::strict_decode(bytes, after_id) {
            Ok(v) => v,
            Err(e) => {
                return Err(LoadError::Decode(e));
            },
        };
        let ghost b = (after_data - after_id) as nat;
        proof {
            assert(C::frame(bytes@.skip(4 + a as int)) == Ok::<nat, DecodeError>(b));
            assert(bytes@.skip(4 + a as int + b as int) =~= bytes@.skip(after_data as int));
        }
        let (sigs, end) = match decode_list::<SigCert<K>>(Bound::Tiny, bytes, after_data) {
            Ok(v) => v,
            Err(e) => {
                return Err(LoadError::Decode(e));
            },
        };
        let ghost c = (end - after_data) as nat;
        proof {
            assert(list_frame::<SigCert<K>>(Bound::Tiny, bytes@.skip(4 + a as int + b as int))
                == Ok::<nat, DecodeError>(c));
        }
        let own = data.bindle_id();
        if !id.same(&own) {
            proof {
                assert(id.encoding() == bytes@.subrange(4, 4 + a as int));
                assert(data.encoding() == bytes@.subrange(4 + a as int, 4 + a as int + b as int));
                assert(data.encodable() && id != data.content_id());
            }
            return Err(LoadError::MismatchedId);
        }
        let bindle = Bindle { id, data, sigs };
        proof {
            lemma_split(bytes@, 0, 4, after_id as int);
            lemma_split(bytes@, 0, after_id as int, after_data as int);
            lemma_split(bytes@, 0, after_data as int, end as int);
            assert(bindle.file_bytes() == bytes@.subrange(0, 4 + a as int + b as int + c as int));
            assert(bindle.wf());
        }
        Ok(bindle)
    }

    /// The magic bytes are judged first: a file that starts with four other
    /// bytes is refused for them, whatever else it holds.
    pub proof fn lemma_magic_first(bytes: Seq<u8>, r: Result<Self, LoadError>)
        requires
            bytes.len() >= 4,
            bytes.subrange(0, 4) != C::MAGIC@,
            Self::loading(bytes, r),
        ensures
            r == Err::<Self, LoadError>(LoadError::InvalidMagic),
    {
    }
}

} // verus!
