//! The canonical binary encoding shared by every persisted type: fields are
//! written one after another, integers little-endian, byte arrays verbatim,
//! unions behind a one-byte tag and collections behind their length.

use vstd::prelude::*;

verus! {

/// Why a byte string does not begin with the encoding of a value.
#[derive(Clone, Copy, PartialEq, Eq, Debug, Structural)]
pub enum DecodeError {
    /// The input ends before the value is complete.
    UnexpectedEof,
    /// A union starts with a tag that none of its variants has.
    UnknownTag(u8),
}

/// A type with a canonical encoding.
///
/// `frame` is the grammar: it says how many leading bytes of an input make up
/// one encoded value. Encoding and decoding are both stated against it.
pub trait StrictCodec: Sized {
    /// The canonical encoding of the value.
    spec fn encoding(&self) -> Seq<u8>;

    /// Whether every collection in the value respects its length bound, so
    /// that the value has an encoding.
    spec fn encodable(&self) -> bool;

    /// The number of leading bytes of `bytes` that encode one value of this
    /// type, or the reason why `bytes` does not start with one.
    spec fn frame(bytes: Seq<u8>) -> Result<nat, DecodeError>;

    /// An encoding is recognised in front of whatever follows it.
    proof fn lemma_frame(&self, rest: Seq<u8>)
        requires
            self.encodable(),
        ensures
            Self::frame(self.encoding() + rest) == Ok::<nat, DecodeError>(self.encoding().len()),
    ;

    /// Whether the value has an encoding.
    fn is_encodable(&self) -> (ok: bool)
        ensures
            ok == self.encodable(),
    ;

    /// Appends the encoding of the value to `out`.
    fn strict_encode(&self, out: &mut Vec<u8>)
        requires
            self.encodable(),
        ensures
            final(out)@ == old(out)@ + self.encoding(),
    ;

    /// Decodes one value that starts at offset `at` of `input` and returns it
    /// with the offset at which it ends.
    fn strict_decode(input: &[u8], at: usize) -> (r: Result<(Self, usize), DecodeError>)
        requires
            at <= input@.len(),
        ensures
            match r {
                Ok((value, end)) => {
                    &&& at <= end <= input@.len()
                    &&& Self::frame(input@.skip(at as int)) == Ok::<nat, DecodeError>(
                        (end - at) as nat,
                    )
                    &&& value.encodable()
                    &&& value.encoding() == input@.subrange(at as int, end as int)
                },
                Err(e) => Self::frame(input@.skip(at as int)) == Err::<nat, DecodeError>(e),
            },
    ;
}

/// The little-endian bytes of a 16-bit integer.
pub open spec fn le_u16(v: u16) -> Seq<u8> {
    seq![(v % 256) as u8, (v / 256) as u8]
}

/// The little-endian bytes of a 32-bit integer.
pub open spec fn le_u32(v: u32) -> Seq<u8> {
    seq![
        (v % 256) as u8,
        (v / 256 % 256) as u8,
        (v / 65536 % 256) as u8,
        (v / 16777216) as u8,
    ]
}

/// The 16-bit integer that two little-endian bytes stand for.
pub open spec fn from_le_u16(b: Seq<u8>) -> u16
    recommends
        b.len() >= 2,
{
    (b[0] + 256 * b[1]) as u16
}

/// The 32-bit integer that four little-endian bytes stand for.
pub open spec fn from_le_u32(b: Seq<u8>) -> u32
    recommends
        b.len() >= 4,
{
    (b[0] + 256 * b[1] + 65536 * b[2] + 16777216 * b[3]) as u32
}

/// Reading back the little-endian bytes of an integer gives the integer.
pub proof fn lemma_le_round_trip(v16: u16, v32: u32)
    ensures
        le_u16(v16).len() == 2,
        from_le_u16(le_u16(v16)) == v16,
        le_u32(v32).len() == 4,
        from_le_u32(le_u32(v32)) == v32,
{
}

/// The base-256 digits of a number below 2^32 are the digits it was built from.
proof fn lemma_digits(b0: int, b1: int, b2: int, b3: int)
    requires
        0 <= b0 < 256,
        0 <= b1 < 256,
        0 <= b2 < 256,
        0 <= b3 < 256,
    ensures
        0 <= b0 + 256 * b1 + 65536 * b2 + 16777216 * b3 < 4294967296,
        (b0 + 256 * b1 + 65536 * b2 + 16777216 * b3) % 256 == b0,
        (b0 + 256 * b1 + 65536 * b2 + 16777216 * b3) / 256 % 256 == b1,
        (b0 + 256 * b1 + 65536 * b2 + 16777216 * b3) / 65536 % 256 == b2,
        (b0 + 256 * b1 + 65536 * b2 + 16777216 * b3) / 16777216 == b3,
{
    let v = b0 + 256 * b1 + 65536 * b2 + 16777216 * b3;
    let v1 = b1 + 256 * b2 + 65536 * b3;
    let v2 = b2 + 256 * b3;
    assert(v == b0 + 256 * v1);
    assert(v / 256 == v1 && v % 256 == b0);
    assert(v1 == b1 + 256 * v2);
    assert(v1 / 256 == v2 && v1 % 256 == b1);
    assert(v2 / 256 == b3 && v2 % 256 == b2);
    assert(v / 65536 == v2) by {
        assert(v == (b0 + 256 * b1) + 65536 * v2);
    }
    assert(v / 16777216 == b3) by {
        assert(v == (b0 + 256 * b1 + 65536 * b2) + 16777216 * b3);
    }
}

impl StrictCodec for u8 {
    open spec fn encoding(&self) -> Seq<u8> {
        seq![*self]
    }

    open spec fn encodable(&self) -> bool {
        true
    }

    open spec fn frame(bytes: Seq<u8>) -> Result<nat, DecodeError> {
        if bytes.len() >= 1 {
            Ok(1)
        } else {
            Err(DecodeError::UnexpectedEof)
        }
    }

    proof fn lemma_frame(&self, rest: Seq<u8>) {
    }

    fn is_encodable(&self) -> (ok: bool) {
        true
    }

    fn strict_encode(&self, out: &mut Vec<u8>) {
        out.push(*self);
    }

    fn strict_decode(input: &[u8], at: usize) -> (r: Result<(Self, usize), DecodeError>) {
        if input.len() - at < 1 {
            return Err(DecodeError::UnexpectedEof);
        }
        let value: u8 = input[at];
        proof {
            assert(value.encoding() =~= input@.subrange(at as int, at + 1));
        }
        Ok((value, at + 1))
    }
}

impl StrictCodec for u16 {
    open spec fn encoding(&self) -> Seq<u8> {
        le_u16(*self)
    }

    open spec fn encodable(&self) -> bool {
        true
    }

    open spec fn frame(bytes: Seq<u8>) -> Result<nat, DecodeError> {
        if bytes.len() >= 2 {
            Ok(2)
        } else {
            Err(DecodeError::UnexpectedEof)
        }
    }

    proof fn lemma_frame(&self, rest: Seq<u8>) {
    }

    fn is_encodable(&self) -> (ok: bool) {
        true
    }

    fn strict_encode(&self, out: &mut Vec<u8>) {
        let v: u16 = *self;
        out.push((v % 256) as u8);
        out.push((v / 256) as u8);
        proof {
            assert(out@ =~= old(out)@ + le_u16(v));
        }
    }

    fn strict_decode(input: &[u8], at: usize) -> (r: Result<(Self, usize), DecodeError>) {
        if input.len() - at < 2 {
            return Err(DecodeError::UnexpectedEof);
        }
        let lo: u16 = input[at] as u16;
        let hi: u16 = input[at + 1] as u16;
        let value: u16 = lo + 256 * hi;
        proof {
            assert(value.encoding() =~= input@.subrange(at as int, at + 2));
        }
        Ok((value, at + 2))
    }
}

impl StrictCodec for u32 {
    open spec fn encoding(&self) -> Seq<u8> {
        le_u32(*self)
    }

    open spec fn encodable(&self) -> bool {
        true
    }

    open spec fn frame(bytes: Seq<u8>) -> Result<nat, DecodeError> {
        if bytes.len() >= 4 {
            Ok(4)
        } else {
            Err(DecodeError::UnexpectedEof)
        }
    }

    proof fn lemma_frame(&self, rest: Seq<u8>) {
    }

    fn is_encodable(&self) -> (ok: bool) {
        true
    }

    fn strict_encode(&self, out: &mut Vec<u8>) {
        let v: u32 = *self;
        out.push((v % 256) as u8);
        out.push((v / 256 % 256) as u8);
        out.push((v / 65536 % 256) as u8);
        out.push((v / 16777216) as u8);
        proof {
            assert(out@ =~= old(out)@ + le_u32(v));
        }
    }

    fn strict_decode(input: &[u8], at: usize) -> (r: Result<(Self, usize), DecodeError>) {
        if input.len() - at < 4 {
            return Err(DecodeError::UnexpectedEof);
        }
        let b0: u32 = input[at] as u32;
        let b1: u32 = input[at + 1] as u32;
        let b2: u32 = input[at + 2] as u32;
        let b3: u32 = input[at + 3] as u32;
        proof {
            lemma_digits(b0 as int, b1 as int, b2 as int, b3 as int);
        }
        let value: u32 = b0 + 256 * b1 + 65536 * b2 + 16777216 * b3;
        proof {
            assert(value.encoding() =~= input@.subrange(at as int, at + 4));
        }
        Ok((value, at + 4))
    }
}

impl<const N: usize> StrictCodec for [u8; N] {
    open spec fn encoding(&self) -> Seq<u8> {
        self@
    }

    open spec fn encodable(&self) -> bool {
        true
    }

    open spec fn frame(bytes: Seq<u8>) -> Result<nat, DecodeError> {
        if bytes.len() >= N {
            Ok(N as nat)
        } else {
            Err(DecodeError::UnexpectedEof)
        }
    }

    proof fn lemma_frame(&self, rest: Seq<u8>) {
    }

    fn is_encodable(&self) -> (ok: bool) {
        true
    }

    fn strict_encode(&self, out: &mut Vec<u8>) {
        let mut i: usize = 0;
        while i < N
            invariant
                i <= N,
                out@ == old(out)@ + self@.subrange(0, i as int),
            decreases N - i,
        {
            out.push(self[i]);
            i += 1;
            proof {
                assert(out@ =~= old(out)@ + self@.subrange(0, i as int));
            }
        }
        proof {
            assert(self@.subrange(0, N as int) =~= self@);
        }
    }

    fn strict_decode(input: &[u8], at: usize) -> (r: Result<(Self, usize), DecodeError>) {
        if input.len() - at < N {
            return Err(DecodeError::UnexpectedEof);
        }
        let mut value: [u8; N] = [0u8; N];
        let mut i: usize = 0;
        while i < N
            invariant
                i <= N,
                at + N <= input@.len() <= usize::MAX,
                forall|j: int| 0 <= j < i ==> value@[j] == input@[at + j],
            decreases N - i,
        {
            value[i] = input[at + i];
            i += 1;
        }
        proof {
            assert(value@ =~= input@.subrange(at as int, at + N));
        }
        Ok((value, at + N))
    }
}

/// Three byte strings in a row are the same however they are grouped.
pub proof fn lemma_concat(a: Seq<u8>, b: Seq<u8>, c: Seq<u8>)
    ensures
        (a + b) + c == a + (b + c),
{
    assert((a + b) + c =~= a + (b + c));
}

/// What follows a byte string is what is left when it is dropped.
pub proof fn lemma_after(first: Seq<u8>, rest: Seq<u8>)
    ensures
        (first + rest).skip(first.len() as int) == rest,
        (first + rest).subrange(0, first.len() as int) == first,
{
    assert((first + rest).skip(first.len() as int) =~= rest);
    assert((first + rest).subrange(0, first.len() as int) =~= first);
}

/// Dropping bytes in two steps drops as many as in one.
pub proof fn lemma_skip(bytes: Seq<u8>, first: int, second: int)
    requires
        0 <= first,
        0 <= second,
        first + second <= bytes.len(),
    ensures
        bytes.skip(first).skip(second) == bytes.skip(first + second),
{
    assert(bytes.skip(first).skip(second) =~= bytes.skip(first + second));
}

/// Two neighbouring parts of a byte string make up the part that spans them.
pub proof fn lemma_split(bytes: Seq<u8>, from: int, mid: int, to: int)
    requires
        0 <= from <= mid <= to <= bytes.len(),
    ensures
        bytes.subrange(from, mid) + bytes.subrange(mid, to) == bytes.subrange(from, to),
{
    assert(bytes.subrange(from, mid) + bytes.subrange(mid, to) =~= bytes.subrange(from, to));
}

/// The number of leading bytes of `bytes` that encode a value of one type
/// followed by a value of another, or the reason why the first of the two
/// that fails does.
pub open spec fn pair_frame<A: StrictCodec, B: StrictCodec>(bytes: Seq<u8>) -> Result<
    nat,
    DecodeError,
> {
    match A::frame(bytes) {
        Err(e) => Err(e),
        Ok(a) => match B::frame(bytes.skip(a as int)) {
            Err(e) => Err(e),
            Ok(b) => Ok(a + b),
        },
    }
}

/// Two encodings in a row are recognised in front of whatever follows.
pub proof fn lemma_pair_frame<A: StrictCodec, B: StrictCodec>(first: A, second: B, rest: Seq<u8>)
    requires
        first.encodable(),
        second.encodable(),
    ensures
        pair_frame::<A, B>(first.encoding() + second.encoding() + rest) == Ok::<
            nat,
            DecodeError,
        >(first.encoding().len() + second.encoding().len()),
{
    let a = first.encoding();
    let b = second.encoding();
    let text = a + b + rest;
    first.lemma_frame(b + rest);
    assert(text =~= a + (b + rest));
    second.lemma_frame(rest);
    assert(text.skip(a.len() as int) =~= b + rest);
}

/// Decodes a value of one type and, right after it, a value of another. The
/// first starts at offset `at` of `input`; the offset at which the second
/// ends is returned with the two.
pub fn decode_pair<A: StrictCodec, B: StrictCodec>(input: &[u8], at: usize) -> (r: Result<
    (A, B, usize),
    DecodeError,
>)
    requires
        at <= input@.len(),
    ensures
        match r {
            Ok((first, second, end)) => {
                &&& at <= end <= input@.len()
                &&& pair_frame::<A, B>(input@.skip(at as int)) == Ok::<nat, DecodeError>(
                    (end - at) as nat,
                )
                &&& first.encodable()
                &&& second.encodable()
                &&& first.encoding() + second.encoding() == input@.subrange(
                    at as int,
                    end as int,
                )
            },
            Err(e) => pair_frame::<A, B>(input@.skip(at as int)) == Err::<nat, DecodeError>(e),
        },
{
    let (first, mid) = match A::strict_decode(input, at) {
        Ok(v) => v,
        Err(e) => {
            return Err(e);
        },
    };
    proof {
        assert(input@.skip(at as int).skip(mid - at) =~= input@.skip(mid as int));
    }
    let (second, end) = match B::strict_decode(input, mid) {
        Ok(v) => v,
        Err(e) => {
            return Err(e);
        },
    };
    proof {
        assert(first.encoding() + second.encoding() =~= input@.subrange(at as int, end as int));
    }
    Ok((first, second, end))
}

/// The encodings of the items of a collection, one after another.
pub open spec fn encoding_of_all<T: StrictCodec>(items: Seq<T>) -> Seq<u8>
    decreases items.len(),
{
    if items.len() == 0 {
        Seq::<u8>::empty()
    } else {
        encoding_of_all(items.drop_last()) + items.last().encoding()
    }
}

/// Whether every item of a collection has an encoding.
pub open spec fn all_encodable<T: StrictCodec>(items: Seq<T>) -> bool {
    forall|i: int| 0 <= i < items.len() ==> (#[trigger] items[i]).encodable()
}

/// The number of leading bytes of `bytes` that encode `count` values in a
/// row, or the reason why the first value that fails does.
pub open spec fn frame_of_all<T: StrictCodec>(bytes: Seq<u8>, count: nat) -> Result<
    nat,
    DecodeError,
>
    decreases count,
{
    if count == 0 {
        Ok(0)
    } else {
        match T::frame(bytes) {
            Err(e) => Err(e),
            Ok(n) => match frame_of_all::<T>(bytes.skip(n as int), (count - 1) as nat) {
                Err(e) => Err(e),
                Ok(m) => Ok(n + m),
            },
        }
    }
}

/// The encoding of a collection starts with the encoding of its first item.
pub proof fn lemma_encoding_of_all_front<T: StrictCodec>(items: Seq<T>)
    requires
        items.len() > 0,
    ensures
        encoding_of_all(items) == items[0].encoding() + encoding_of_all(items.skip(1)),
    decreases items.len(),
{
    if items.len() == 1 {
        assert(items.drop_last() =~= Seq::<T>::empty());
        assert(items.skip(1) =~= Seq::<T>::empty());
        assert(encoding_of_all(items) =~= items[0].encoding() + encoding_of_all(items.skip(1)));
    } else {
        lemma_encoding_of_all_front(items.drop_last());
        assert(items.drop_last().skip(1) =~= items.skip(1).drop_last());
        assert(items.skip(1).last() == items.last());
        assert(encoding_of_all(items) =~= items[0].encoding() + encoding_of_all(items.skip(1)));
    }
}

/// The encodings of a collection are recognised in front of whatever follows.
pub proof fn lemma_frame_of_all<T: StrictCodec>(items: Seq<T>, rest: Seq<u8>)
    requires
        all_encodable(items),
    ensures
        frame_of_all::<T>(encoding_of_all(items) + rest, items.len()) == Ok::<nat, DecodeError>(
            encoding_of_all(items).len(),
        ),
    decreases items.len(),
{
    if items.len() > 0 {
        let head = items[0].encoding();
        let tail = encoding_of_all(items.skip(1));
        lemma_encoding_of_all_front(items);
        assert(items[0].encodable());
        items[0].lemma_frame(tail + rest);
        assert(encoding_of_all(items) + rest =~= head + (tail + rest));
        assert((head + (tail + rest)).skip(head.len() as int) =~= tail + rest);
        lemma_frame_of_all(items.skip(1), rest);
    }
}

/// Whether every item of a collection has an encoding.
pub fn are_encodable<T: StrictCodec>(items: &Vec<T>) -> (ok: bool)
    ensures
        ok == all_encodable(items@),
{
    let mut i: usize = 0;
    while i < items.len()
        invariant
            i <= items@.len(),
            forall|j: int| 0 <= j < i ==> (#[trigger] items@[j]).encodable(),
        decreases items@.len() - i,
    {
        if !items[i].is_encodable() {
            return false;
        }
        i += 1;
    }
    true
}

/// Appends the encodings of the items of `items` to `out`.
pub fn encode_all<T: StrictCodec>(items: &Vec<T>, out: &mut Vec<u8>)
    requires
        all_encodable(items@),
    ensures
        final(out)@ == old(out)@ + encoding_of_all(items@),
{
    let mut i: usize = 0;
    proof {
        assert(items@.subrange(0, 0) =~= Seq::<T>::empty());
        assert(out@ =~= old(out)@ + encoding_of_all(items@.subrange(0, 0)));
    }
    while i < items.len()
        invariant
            i <= items@.len(),
            all_encodable(items@),
            out@ == old(out)@ + encoding_of_all(items@.subrange(0, i as int)),
        decreases items@.len() - i,
    {
        let ghost before = out@;
        items[i].strict_encode(out);
        proof {
            let done = items@.subrange(0, i + 1);
            assert(done.drop_last() =~= items@.subrange(0, i as int));
            assert(done.last() == items@[i as int]);
            assert(out@ =~= old(out)@ + encoding_of_all(done));
        }
        i += 1;
    }
    proof {
        assert(items@.subrange(0, i as int) =~= items@);
    }
}

/// Decodes `count` values in a row, the first of which starts at offset `at`
/// of `input`, and returns them with the offset at which the last one ends.
pub fn decode_all<T: StrictCodec>(input: &[u8], at: usize, count: usize) -> (r: Result<
    (Vec<T>, usize),
    DecodeError,
>)
    requires
        at <= input@.len(),
    ensures
        match r {
            Ok((items, end)) => {
                &&& at <= end <= input@.len()
                &&& items@.len() == count
                &&& frame_of_all::<T>(input@.skip(at as int), count as nat) == Ok::<
                    nat,
                    DecodeError,
                >((end - at) as nat)
                &&& all_encodable(items@)
                &&& encoding_of_all(items@) == input@.subrange(at as int, end as int)
            },
            Err(e) => frame_of_all::<T>(input@.skip(at as int), count as nat) == Err::<
                nat,
                DecodeError,
            >(e),
        },
{
    let mut items: Vec<T> = Vec::new();
    let mut cur: usize = at;
    let mut i: usize = 0;
    proof {
        assert(input@.subrange(at as int, at as int) =~= Seq::<u8>::empty());
    }
    while i < count
        invariant
            i <= count,
            at <= cur <= input@.len(),
            items@.len() == i,
            all_encodable(items@),
            encoding_of_all(items@) == input@.subrange(at as int, cur as int),
            frame_of_all::<T>(input@.skip(at as int), count as nat) == match frame_of_all::<T>(
                input@.skip(cur as int),
                (count - i) as nat,
            ) {
                Err(e) => Err::<nat, DecodeError>(e),
                Ok(m) => Ok::<nat, DecodeError>((cur - at + m) as nat),
            },
        decreases count - i,
    {
        match T::strict_decode(input, cur) {
            Err(e) => {
                return Err(e);
            },
            Ok((value, end)) => {
                proof {
                    assert(input@.skip(cur as int).skip(end - cur) =~= input@.skip(end as int));
                    let done = items@.push(value);
                    assert(done.drop_last() =~= items@);
                    assert(encoding_of_all(done) =~= input@.subrange(at as int, end as int));
                }
                items.push(value);
                cur = end;
                i += 1;
            },
        }
    }
    Ok((items, cur))
}

/// How many items a collection may hold, which fixes the number of bytes in
/// which its length is written.
#[derive(Clone, Copy, PartialEq, Eq, Debug, Structural)]
pub enum Bound {
    /// At most 255 items; the length takes one byte.
    Tiny,
    /// At most 65535 items; the length takes two bytes.
    Small,
    /// At most 4294967295 items; the length takes four bytes.
    Large,
}

impl Bound {
    /// The largest number of items.
    pub open spec fn max(&self) -> nat {
        match self {
            Bound::Tiny => 255,
            Bound::Small => 65535,
            Bound::Large => 4294967295,
        }
    }

    /// The number of bytes that the length takes.
    pub open spec fn width(&self) -> nat {
        match self {
            Bound::Tiny => 1,
            Bound::Small => 2,
            Bound::Large => 4,
        }
    }

    /// The little-endian bytes of a length within the bound.
    pub open spec fn count_bytes(&self, count: nat) -> Seq<u8> {
        match self {
            Bound::Tiny => seq![count as u8],
            Bound::Small => le_u16(count as u16),
            Bound::Large => le_u32(count as u32),
        }
    }

    /// The length that the leading bytes of `bytes` stand for.
    pub open spec fn count_read(&self, bytes: Seq<u8>) -> nat
        recommends
            bytes.len() >= self.width(),
    {
        match self {
            Bound::Tiny => bytes[0] as nat,
            Bound::Small => from_le_u16(bytes) as nat,
            Bound::Large => from_le_u32(bytes) as nat,
        }
    }

    /// Whether a collection of `len` items is within the bound.
    pub fn admits(&self, len: usize) -> (ok: bool)
        ensures
            ok == (len <= self.max()),
    {
        match self {
            Bound::Tiny => len <= 255,
            Bound::Small => len <= 65535,
            Bound::Large => len <= 4294967295,
        }
    }

    /// Appends a length within the bound to `out`.
    pub fn put_count(&self, count: usize, out: &mut Vec<u8>)
        requires
            count <= self.max(),
        ensures
            final(out)@ == old(out)@ + self.count_bytes(count as nat),
    {
        match self {
            Bound::Tiny => {
                out.push(count as u8);
            },
            Bound::Small => {
                (count as u16).strict_encode(out);
            },
            Bound::Large => {
                (count as u32).strict_encode(out);
            },
        }
    }

    /// Reads the length that starts at offset `at` of `input`, and returns it
    /// with the offset at which it ends.
    pub fn take_count(&self, input: &[u8], at: usize) -> (r: Option<(usize, usize)>)
        requires
            at <= input@.len(),
        ensures
            match r {
                Some((count, end)) => {
                    &&& input@.len() - at >= self.width()
                    &&& end == at + self.width()
                    &&& count == self.count_read(input@.skip(at as int))
                    &&& count <= self.max()
                    &&& self.count_bytes(count as nat) == input@.subrange(at as int, end as int)
                },
                None => input@.len() - at < self.width(),
            },
    {
        match self {
            Bound::Tiny => read_tiny(input, at),
            Bound::Small => read_small(input, at),
            Bound::Large => read_large(input, at),
        }
    }
}

/// Reads a length of one byte.
fn read_tiny(input: &[u8], at: usize) -> (r: Option<(usize, usize)>)
    requires
        at <= input@.len(),
    ensures
        match r {
            Some((count, end)) => {
                &&& input@.len() - at >= 1
                &&& end == at + 1
                &&& count == Bound::Tiny.count_read(input@.skip(at as int))
                &&& count <= 255
                &&& Bound::Tiny.count_bytes(count as nat) == input@.subrange(
                    at as int,
                    end as int,
                )
            },
            None => input@.len() - at < 1,
        },
{
    if input.len() - at < 1 {
        return None;
    }
    let count: u8 = input[at];
    proof {
        assert(seq![count] =~= input@.subrange(at as int, at + 1));
    }
    Some((count as usize, at + 1))
}

/// Reads a length of two bytes.
fn read_small(input: &[u8], at: usize) -> (r: Option<(usize, usize)>)
    requires
        at <= input@.len(),
    ensures
        match r {
            Some((count, end)) => {
                &&& input@.len() - at >= 2
                &&& end == at + 2
                &&& count == Bound::Small.count_read(input@.skip(at as int))
                &&& count <= 65535
                &&& Bound::Small.count_bytes(count as nat) == input@.subrange(
                    at as int,
                    end as int,
                )
            },
            None => input@.len() - at < 2,
        },
{
    if input.len() - at < 2 {
        return None;
    }
    let lo: u16 = input[at] as u16;
    let hi: u16 = input[at + 1] as u16;
    let count: u16 = lo + 256 * hi;
    proof {
        assert(le_u16(count) =~= input@.subrange(at as int, at + 2));
    }
    Some((count as usize, at + 2))
}

/// Reads a length of four bytes.
fn read_large(input: &[u8], at: usize) -> (r: Option<(usize, usize)>)
    requires
        at <= input@.len(),
    ensures
        match r {
            Some((count, end)) => {
                &&& input@.len() - at >= 4
                &&& end == at + 4
                &&& count == Bound::Large.count_read(input@.skip(at as int))
                &&& count <= 4294967295
                &&& Bound::Large.count_bytes(count as nat) == input@.subrange(
                    at as int,
                    end as int,
                )
            },
            None => input@.len() - at < 4,
        },
{
    if input.len() - at < 4 {
        return None;
    }
    let b0: u32 = input[at] as u32;
    let b1: u32 = input[at + 1] as u32;
    let b2: u32 = input[at + 2] as u32;
    let b3: u32 = input[at + 3] as u32;
    proof {
        lemma_digits(b0 as int, b1 as int, b2 as int, b3 as int);
    }
    let count: u32 = b0 + 256 * b1 + 65536 * b2 + 16777216 * b3;
    proof {
        assert(le_u32(count) =~= input@.subrange(at as int, at + 4));
    }
    Some((count as usize, at + 4))
}

/// The encoding of a collection: its length, then its items.
pub open spec fn list_encoding<T: StrictCodec>(bound: Bound, items: Seq<T>) -> Seq<u8> {
    bound.count_bytes(items.len()) + encoding_of_all(items)
}

/// Whether a collection is within its bound and every item has an encoding.
pub open spec fn list_encodable<T: StrictCodec>(bound: Bound, items: Seq<T>) -> bool {
    items.len() <= bound.max() && all_encodable(items)
}

/// The number of leading bytes of `bytes` that encode a collection, or the
/// reason why `bytes` does not start with one.
pub open spec fn list_frame<T: StrictCodec>(bound: Bound, bytes: Seq<u8>) -> Result<
    nat,
    DecodeError,
> {
    if bytes.len() < bound.width() {
        Err(DecodeError::UnexpectedEof)
    } else {
        match frame_of_all::<T>(bytes.skip(bound.width() as int), bound.count_read(bytes)) {
            Err(e) => Err(e),
            Ok(n) => Ok(bound.width() + n),
        }
    }
}

/// The encoding of a collection is recognised in front of whatever follows.
pub proof fn lemma_list_frame<T: StrictCodec>(bound: Bound, items: Seq<T>, rest: Seq<u8>)
    requires
        list_encodable(bound, items),
    ensures
        list_frame::<T>(bound, list_encoding(bound, items) + rest) == Ok::<nat, DecodeError>(
            list_encoding(bound, items).len(),
        ),
{
    let head = bound.count_bytes(items.len());
    let text = list_encoding(bound, items) + rest;
    lemma_le_round_trip(items.len() as u16, items.len() as u32);
    assert(head.len() == bound.width());
    assert(bound.count_read(text) == items.len()) by {
        assert(text[0] == head[0]);
        if bound.width() >= 2 {
            assert(text[1] == head[1]);
        }
        if bound.width() >= 4 {
            assert(text[2] == head[2]);
            assert(text[3] == head[3]);
        }
    }
    assert(text.skip(bound.width() as int) =~= encoding_of_all(items) + rest);
    lemma_frame_of_all(items, rest);
}

/// Whether a collection is within its bound and every item has an encoding.
pub fn is_list_encodable<T: StrictCodec>(bound: Bound, items: &Vec<T>) -> (ok: bool)
    ensures
        ok == list_encodable(bound, items@),
{
    bound.admits(items.len()) && are_encodable(items)
}

/// Appends the encoding of a collection to `out`.
pub fn encode_list<T: StrictCodec>(bound: Bound, items: &Vec<T>, out: &mut Vec<u8>)
    requires
        list_encodable(bound, items@),
    ensures
        final(out)@ == old(out)@ + list_encoding(bound, items@),
{
    bound.put_count(items.len(), out);
    encode_all(items, out);
    proof {
        assert(out@ =~= old(out)@ + list_encoding(bound, items@));
    }
}

/// Decodes a collection that starts at offset `at` of `input` and returns it
/// with the offset at which it ends.
pub fn decode_list<T: StrictCodec>(bound: Bound, input: &[u8], at: usize) -> (r: Result<
    (Vec<T>, usize),
    DecodeError,
>)
    requires
        at <= input@.len(),
    ensures
        match r {
            Ok((items, end)) => {
                &&& at <= end <= input@.len()
                &&& list_frame::<T>(bound, input@.skip(at as int)) == Ok::<nat, DecodeError>(
                    (end - at) as nat,
                )
                &&& list_encodable(bound, items@)
                &&& list_encoding(bound, items@) == input@.subrange(at as int, end as int)
            },
            Err(e) => list_frame::<T>(bound, input@.skip(at as int)) == Err::<nat, DecodeError>(e),
        },
{
    let (count, mid) = match bound.take_count(input, at) {
        Some(v) => v,
        None => {
            return Err(DecodeError::UnexpectedEof);
        },
    };
    proof {
        assert(input@.skip(at as int).skip(bound.width() as int) =~= input@.skip(mid as int));
    }
    match decode_all::<T>(input, mid, count) {
        Ok((items, end)) => {
            proof {
                assert(list_encoding(bound, items@) =~= input@.subrange(at as int, end as int));
            }
            Ok((items, end))
        },
        Err(e) => Err(e),
    }
}

/// Where two encodings, each followed by something, make the same bytes,
/// the encodings are the same and so is what follows them.
pub proof fn lemma_same_prefix<T: StrictCodec>(a: T, b: T, after_a: Seq<u8>, after_b: Seq<u8>)
    requires
        a.encodable(),
        b.encodable(),
        a.encoding() + after_a == b.encoding() + after_b,
    ensures
        a.encoding() == b.encoding(),
        after_a == after_b,
{
    let text = a.encoding() + after_a;
    a.lemma_frame(after_a);
    b.lemma_frame(after_b);
    let n = a.encoding().len() as int;
    assert(a.encoding() =~= text.subrange(0, n));
    assert(b.encoding() =~= text.subrange(0, n));
    assert(after_a =~= text.skip(n));
    assert(after_b =~= text.skip(n));
}

/// Where the encodings of two collections of one length, each followed by
/// something, make the same bytes, the items have the same encodings one by
/// one, and what follows is the same.
pub proof fn lemma_all_same<T: StrictCodec>(
    a: Seq<T>,
    b: Seq<T>,
    after_a: Seq<u8>,
    after_b: Seq<u8>,
)
    requires
        all_encodable(a),
        all_encodable(b),
        a.len() == b.len(),
        encoding_of_all(a) + after_a == encoding_of_all(b) + after_b,
    ensures
        forall|i: int| 0 <= i < a.len() ==> (#[trigger] a[i]).encoding() == b[i].encoding(),
        after_a == after_b,
    decreases a.len(),
{
    if a.len() == 0 {
        assert(encoding_of_all(a) + after_a =~= after_a);
        assert(encoding_of_all(b) + after_b =~= after_b);
    } else {
        lemma_encoding_of_all_front(a);
        lemma_encoding_of_all_front(b);
        let rest_a = encoding_of_all(a.skip(1)) + after_a;
        let rest_b = encoding_of_all(b.skip(1)) + after_b;
        assert(encoding_of_all(a) + after_a =~= a[0].encoding() + rest_a);
        assert(encoding_of_all(b) + after_b =~= b[0].encoding() + rest_b);
        assert(a[0].encodable() && b[0].encodable());
        lemma_same_prefix(a[0], b[0], rest_a, rest_b);
        lemma_all_same(a.skip(1), b.skip(1), after_a, after_b);
        assert forall|i: int| 0 <= i < a.len() implies (#[trigger] a[i]).encoding()
            == b[i].encoding() by {
            if i > 0 {
                assert(a[i] == a.skip(1)[i - 1]);
                assert(b[i] == b.skip(1)[i - 1]);
            }
        }
    }
}

/// Where the encodings of two collections, each followed by something, make
/// the same bytes, the collections have the same length, their items have
/// the same encodings one by one, and what follows is the same.
pub proof fn lemma_list_same<T: StrictCodec>(
    bound: Bound,
    a: Seq<T>,
    b: Seq<T>,
    after_a: Seq<u8>,
    after_b: Seq<u8>,
)
    requires
        list_encodable(bound, a),
        list_encodable(bound, b),
        list_encoding(bound, a) + after_a == list_encoding(bound, b) + after_b,
    ensures
        a.len() == b.len(),
        forall|i: int| 0 <= i < a.len() ==> (#[trigger] a[i]).encoding() == b[i].encoding(),
        after_a == after_b,
{
    let text = list_encoding(bound, a) + after_a;
    let count_a = bound.count_bytes(a.len());
    let count_b = bound.count_bytes(b.len());
    let w = bound.width() as int;
    lemma_le_round_trip(a.len() as u16, a.len() as u32);
    lemma_le_round_trip(b.len() as u16, b.len() as u32);
    assert(count_a =~= text.subrange(0, w));
    assert(count_b =~= (list_encoding(bound, b) + after_b).subrange(0, w));
    assert(bound.count_read(count_a) == a.len());
    assert(bound.count_read(count_b) == b.len());
    assert(encoding_of_all(a) + after_a =~= text.skip(w));
    assert(encoding_of_all(b) + after_b =~= (list_encoding(bound, b) + after_b).skip(w));
    lemma_all_same(a, b, after_a, after_b);
}

} // verus!
