//! Strings of at most 15 UTF-8 bytes stored inline in 16 bytes, the last one
//! holding the length.

use core::str::FromStr;
use vstd::prelude::*;
use vstd::string::*;
use vstd::utf8::{decode_utf8, encode_utf8, valid_utf8};
use crate::endian::{array_from_seq, lemma_array_from_seq, lemma_array_view_injective};

verus! {

broadcast use vstd::array::group_array_axioms;

#[verifier::external_type_specification]
#[verifier::external_body]
pub struct ExUtf8Error(core::str::Utf8Error);

/// `core::str::from_utf8`: returns a string exactly when the bytes are valid
/// UTF-8, and the string then has exactly these bytes. Nothing is said of the
/// `Utf8Error` it returns otherwise.
#[verifier::external_body]
pub(crate) fn str_from_utf8(bytes: &[u8]) -> (r: Result<&str, core::str::Utf8Error>)
    ensures
        r is Ok <==> valid_utf8(bytes@),
        r matches Ok(s) ==> s.spec_bytes() == bytes@,
{
    core::str::from_utf8(bytes)
}

/// The 16 bytes that hold the content `c` (of at most 15 bytes): the content,
/// zeros, then the length.
pub open spec fn small_string_bytes(c: Seq<u8>) -> Seq<u8> {
    c + Seq::new((15 - c.len()) as nat, |i: int| 0u8) + seq![c.len() as u8]
}

/// Whether 16 bytes hold a valid small string: a length byte of at most 15
/// whose prefix is valid UTF-8.
pub open spec fn small_string_bytes_valid(b: Seq<u8>) -> bool {
    &&& b.len() == 16
    &&& b[15] <= 15
    &&& valid_utf8(b.take(b[15] as int))
}

/// A small inline string
#[derive(Clone, Copy, Debug)]
pub struct SmallString {
    inner: [u8; 16],
}

/// Why a small string could not be built.
#[derive(Debug, Clone, Copy)]
pub enum BadSmallStringError {
    /// The string has more than 15 bytes; the byte length is given.
    TooLong(usize),
    /// The bytes are not valid UTF-8.
    BadUtf8(core::str::Utf8Error),
}

impl SmallString {
    #[verifier::type_invariant]
    spec fn inv(self) -> bool {
        small_string_bytes_valid(self.inner@)
    }

    /// The 16 bytes this string is stored in.
    pub closed spec fn bytes(self) -> Seq<u8> {
        self.inner@
    }

    /// The UTF-8 bytes of the string.
    pub closed spec fn content(self) -> Seq<u8> {
        self.inner@.take(self.inner@[15] as int)
    }

    /// The content is the prefix of the stored bytes that the length byte
    /// gives.
    pub proof fn lemma_content_prefix(self)
        ensures
            self.content() == self.bytes().take(self.bytes()[15] as int),
    {
    }

    /// Whether the stored bytes are those of a valid small string.
    pub open spec fn wf(self) -> bool {
        small_string_bytes_valid(self.bytes())
    }

    /// The small string stored in the 16 bytes `b`.
    pub closed spec fn from_bytes_spec(b: Seq<u8>) -> SmallString {
        SmallString { inner: array_from_seq::<16>(b) }
    }

    /// The small string whose content is the UTF-8 bytes `c` (at most 15).
    pub open spec fn of_content(c: Seq<u8>) -> SmallString {
        Self::from_bytes_spec(small_string_bytes(c))
    }

    /// The small string of a short content has that content and the
    /// characters it encodes.
    pub proof fn lemma_of_content(c: Seq<u8>)
        requires
            c.len() <= 15,
        ensures
            Self::of_content(c).content() == c,
            Self::of_content(c)@ == decode_utf8(c),
    {
        let b = small_string_bytes(c);
        Self::lemma_from_bytes_spec(b);
        assert(b[15] == c.len() as u8);
        assert(b.take(b[15] as int) =~= c);
    }

    /// The stored bytes are 16; the content is the prefix the last byte gives.
    pub proof fn lemma_bytes_len(self)
        ensures
            self.bytes().len() == 16,
            self.content() == self.bytes().take(self.bytes()[15] as int),
    {
        broadcast use vstd::array::group_array_axioms;

        vstd::array::array_len_matches_n(&self.inner);
    }

    /// Two small strings with the same stored bytes are equal.
    pub proof fn lemma_bytes_injective(self, other: SmallString)
        ensures
            self.bytes() == other.bytes() <==> self == other,
    {
        if self.bytes() == other.bytes() {
            lemma_array_view_injective(self.inner, other.inner);
        }
    }

    /// The small string built from 16 bytes stores these bytes.
    pub proof fn lemma_from_bytes_spec(b: Seq<u8>)
        requires
            b.len() == 16,
        ensures
            Self::from_bytes_spec(b).bytes() == b,
    {
        lemma_array_from_seq::<16>(b);
    }

    /// The empty small string.
    pub fn new() -> (r: Self)
        ensures
            r.bytes() == small_string_bytes(Seq::empty()),
            r@ == Seq::<char>::empty(),
    {
        let r = Self { inner: [0u8; 16] };
        proof {
            assert(r.inner@ =~= small_string_bytes(Seq::empty()));
            assert(r.content() =~= Seq::<u8>::empty());
        }
        r
    }
}

impl View for SmallString {
    type V = Seq<char>;

    /// The characters of the string.
    closed spec fn view(&self) -> Seq<char> {
        decode_utf8(self.content())
    }
}

impl SmallString {
    /// Builds a small string from UTF-8 bytes.
    pub fn from_utf8(bytes: &[u8]) -> (r: Result<Self, BadSmallStringError>)
        ensures
            r is Err && !valid_utf8(bytes@) ==> r matches Err(BadSmallStringError::BadUtf8(_)),
            valid_utf8(bytes@) && bytes@.len() > 15 ==> r == Err::<Self, _>(
                BadSmallStringError::TooLong(bytes@.len() as usize),
            ),
            r is Ok <==> valid_utf8(bytes@) && bytes@.len() <= 15,
            r matches Ok(s) ==> s.bytes() == small_string_bytes(bytes@) && s.content() == bytes@,
    {
        match str_from_utf8(bytes) {
            Ok(s) => Self::from_str_value(s),
            Err(e) => Err(BadSmallStringError::BadUtf8(e)),
        }
    }

    /// Builds a small string from its 16 stored bytes, after checking that
    /// the length byte is at most 15 and the content is valid UTF-8.
    pub fn from_be_bytes(bytes: [u8; 16]) -> (r: Result<Self, BadSmallStringError>)
        ensures
            r is Ok <==> small_string_bytes_valid(bytes@),
            r matches Ok(s) ==> s.bytes() == bytes@,
            bytes@[15] > 15 ==> r == Err::<Self, _>(BadSmallStringError::TooLong(bytes@[15] as usize)),
            bytes@[15] <= 15 && r is Err ==> r matches Err(BadSmallStringError::BadUtf8(_)),
    {
        proof {
            vstd::array::array_len_matches_n(&bytes);
        }
        let len = bytes[15] as usize;
        if len > 15 {
            return Err(BadSmallStringError::TooLong(len));
        }
        let prefix = &bytes.as_slice()[0..len];
        match str_from_utf8(prefix) {
            Ok(_) => Ok(Self { inner: bytes }),
            Err(e) => Err(BadSmallStringError::BadUtf8(e)),
        }
    }

    /// The number of UTF-8 bytes of the string.
    pub fn len(&self) -> (r: usize)
        ensures
            r == self.content().len(),
            r == self.bytes()[15],
            r <= 15,
            self.bytes().len() == 16,
            self.content() == self.bytes().take(r as int),
    {
        proof {
            use_type_invariant(self);
            vstd::array::array_len_matches_n(&self.inner);
        }
        self.inner[15] as usize
    }

    /// Whether the string is empty.
    pub fn is_empty(&self) -> (r: bool)
        ensures
            r == (self.content().len() == 0),
            r == (self.bytes()[15] == 0),
    {
        self.len() == 0
    }

    /// The string.
    pub fn as_str(&self) -> (r: &str)
        ensures
            r@ == self@,
            r.spec_bytes() == self.content(),
    {
        proof {
            use_type_invariant(self);
        }
        let bytes = self.as_bytes();
        match str_from_utf8(bytes) {
            Ok(s) => {
                proof {
                    vstd::utf8::decode_utf8_encode_utf8(bytes@);
                    vstd::utf8::encode_utf8_decode_utf8(s@);
                }
                s
            },
            Err(_) => {
                proof {
                    assert(false);
                }
                ""
            },
        }
    }

    /// The UTF-8 bytes of the string.
    pub fn as_bytes(&self) -> (r: &[u8])
        ensures
            r@ == self.content(),
            r@ == self.bytes().take(self.bytes()[15] as int),
    {
        proof {
            use_type_invariant(self);
            vstd::array::array_len_matches_n(&self.inner);
        }
        let len = self.len();
        let r = &self.inner.as_slice()[0..len];
        proof {
            assert(r@ =~= self.content());
        }
        r
    }

    /// The 16 stored bytes.
    pub fn to_be_bytes(self) -> (r: [u8; 16])
        ensures
            r@ == self.bytes(),
    {
        self.inner
    }

    /// Builds a small string from a string of at most 15 bytes.
    pub fn from_str_value(value: &str) -> (r: Result<Self, BadSmallStringError>)
        ensures
            r is Ok <==> value.spec_bytes().len() <= 15,
            r matches Ok(s) ==> s.bytes() == small_string_bytes(value.spec_bytes()) && s.content()
                == value.spec_bytes() && s@ == value@ && s == SmallString::of_content(
                value.spec_bytes(),
            ),
            r matches Err(e) ==> e == BadSmallStringError::TooLong(value.spec_bytes().len() as usize),
    {
        let bytes = value.as_bytes();
        let len = bytes.len();
        if len <= 15 {
            let mut inner = [0u8; 16];
            let mut i: usize = 0;
            while i < len
                invariant
                    len == bytes@.len(),
                    len <= 15,
                    i <= len,
                    inner@.len() == 16,
                    forall|j: int| 0 <= j < i ==> inner@[j] == bytes@[j],
                    forall|j: int| i <= j < 16 ==> inner@[j] == 0,
                decreases len - i,
            {
                inner[i] = bytes[i];
                i = i + 1;
            }
            inner[15] = len as u8;
            proof {
                assert(inner@ =~= small_string_bytes(bytes@));
                assert(inner@.take(inner@[15] as int) =~= bytes@);
                vstd::utf8::encode_utf8_valid_utf8(value@);
                vstd::utf8::encode_utf8_decode_utf8(value@);
            }
            let r = Self { inner };
            proof {
                Self::lemma_from_bytes_spec(small_string_bytes(bytes@));
                r.lemma_bytes_injective(Self::of_content(bytes@));
            }
            Ok(r)
        } else {
            Err(BadSmallStringError::TooLong(len))
        }
    }
}

impl FromStr for SmallString {
    type Err = BadSmallStringError;

    fn from_str(value: &str) -> (r: Result<Self, BadSmallStringError>)
        ensures
            r is Ok <==> value.spec_bytes().len() <= 15,
            r matches Ok(s) ==> s.bytes() == small_string_bytes(value.spec_bytes()) && s.content()
                == value.spec_bytes() && s@ == value@ && s == SmallString::of_content(
                value.spec_bytes(),
            ),
            r matches Err(e) ==> e == BadSmallStringError::TooLong(value.spec_bytes().len() as usize),
    {
        Self::from_str_value(value)
    }
}

impl PartialEq for SmallString {
    fn eq(&self, other: &Self) -> (r: bool) {
        proof {
            use_type_invariant(self);
            use_type_invariant(other);
            self.lemma_bytes_len();
            other.lemma_bytes_len();
            vstd::utf8::decode_utf8_encode_utf8(self.content());
            vstd::utf8::decode_utf8_encode_utf8(other.content());
            assert(vstd::utf8::encode_utf8(self@) == self.content());
            assert(vstd::utf8::encode_utf8(other@) == other.content());
            assert((self@ == other@) == (self.content() == other.content()));
        }
        let a = self.as_bytes();
        let b = other.as_bytes();
        if a.len() != b.len() {
            assert(self.content().len() != other.content().len());
            return false;
        }
        let mut i: usize = 0;
        while i < a.len()
            invariant
                a@ == self.content(),
                b@ == other.content(),
                (self@ == other@) == (self.content() == other.content()),
                a@.len() == b@.len(),
                i <= a@.len(),
                forall|j: int| 0 <= j < i ==> a@[j] == b@[j],
            decreases a@.len() - i,
        {
            if a[i] != b[i] {
                assert(self.content() != other.content());
                return false;
            }
            i = i + 1;
        }
        assert(self.content() == other.content());
        true
    }
}

impl vstd::std_specs::cmp::PartialEqSpecImpl for SmallString {
    open spec fn obeys_eq_spec() -> bool {
        true
    }

    open spec fn eq_spec(&self, other: &Self) -> bool {
        self@ == other@
    }
}

} // verus!
