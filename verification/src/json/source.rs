use utf8reader::UTF8Reader;
use vstd::prelude::*;
use vstd::string::StringSliceAdditionalSpecFns;

verus! {

/// A codepoint decoder over bytes held in memory.
///
/// It keeps a `utf8reader::UTF8Reader` over a byte slice. Nothing inside it
/// is visible to the verifier: all that is known of a decoder is what
/// [`unread`] names and what the two functions below state of it.
#[verifier::external_body]
pub struct Decoder<'a> {
    inner: UTF8Reader<&'a [u8]>,
}

/// The bytes that the decoder has not taken from its slice yet.
pub uninterp spec fn unread(decoder: Decoder) -> Seq<u8>;

/// What `UTF8Reader::getc` makes of a byte sequence that begins with a byte
/// of 0x80 or more: the codepoint it returns and the number of bytes it takes.
pub uninterp spec fn first_codepoint(bytes: Seq<u8>) -> (char, int);

/// The codepoint at the head of a non-empty byte sequence, and the number of
/// bytes it occupies. A byte below 0x80 is the codepoint of the same number.
pub open spec fn leading(bytes: Seq<u8>) -> (char, int) {
    if bytes[0] < 0x80 {
        (bytes[0] as char, 1)
    } else {
        first_codepoint(bytes)
    }
}

/// The codepoints that a decoder yields for a byte sequence, one after the
/// other until the bytes are used up.
pub open spec fn decode(bytes: Seq<u8>) -> Seq<char>
    decreases bytes.len(),
{
    if bytes.len() == 0 {
        Seq::empty()
    } else {
        let (ch, width) = leading(bytes);
        if 1 <= width <= bytes.len() {
            seq![ch] + decode(bytes.skip(width))
        } else {
            seq![ch]
        }
    }
}

impl<'a> Decoder<'a> {
    /// Calls `UTF8Reader::new` on the slice. The reader only stores the
    /// slice, so all of its bytes are still unread.
    #[verifier::external_body]
    pub(crate) fn new(bytes: &'a [u8]) -> (decoder: Decoder<'a>)
        ensures
            unread(decoder) == bytes@,
    {
        Decoder { inner: UTF8Reader::new(bytes) }
    }

    /// Calls `UTF8Reader::getc`. Reading from a slice copies from memory and
    /// does not fail, so the call gives `None` exactly when no byte is left.
    /// Otherwise it takes between one and four of the unread bytes, never
    /// more than there are, and returns one codepoint for them: for a first
    /// byte below 0x80 that byte alone, as the codepoint of the same number;
    /// for any other first byte what [`first_codepoint`] names.
    #[verifier::external_body]
    pub(crate) fn getc(&mut self) -> (ch: Option<char>)
        ensures
            unread(*old(self)).len() == 0 ==> ch is None && unread(*final(self)) == unread(
                *old(self),
            ),
            unread(*old(self)).len() > 0 && unread(*old(self))[0] < 0x80 ==> {
                &&& ch == Some(unread(*old(self))[0] as char)
                &&& unread(*final(self)) == unread(*old(self)).skip(1)
            },
            unread(*old(self)).len() > 0 && unread(*old(self))[0] >= 0x80 ==> {
                &&& ch == Some(first_codepoint(unread(*old(self))).0)
                &&& 1 <= first_codepoint(unread(*old(self))).1 <= unread(*old(self)).len()
                &&& unread(*final(self)) == unread(*old(self)).skip(
                    first_codepoint(unread(*old(self))).1,
                )
            },
    {
        self.inner.getc().ok().flatten()
    }
}

/// Text made of ASCII bytes decodes to the codepoints of the same numbers.
pub proof fn lemma_decode_ascii(bytes: Seq<u8>)
    requires
        forall|i: int| 0 <= i < bytes.len() ==> bytes[i] < 0x80,
    ensures
        decode(bytes) == Seq::new(bytes.len(), |i: int| bytes[i] as char),
    decreases bytes.len(),
{
    let chars = Seq::new(bytes.len(), |i: int| bytes[i] as char);
    if bytes.len() == 0 {
        assert(decode(bytes) =~= chars);
    } else {
        let rest = bytes.skip(1);
        lemma_decode_ascii(rest);
        assert(decode(bytes) =~= chars);
    }
}

/// An ASCII string decodes, from its bytes, to its own codepoints.
pub proof fn lemma_decode_ascii_str(text: &str)
    requires
        text.is_ascii(),
    ensures
        decode(text.spec_bytes()) == text@,
{
    broadcast use vstd::string::is_ascii_spec_bytes;

    let bytes = text.spec_bytes();
    assert forall|i: int| 0 <= i < bytes.len() implies bytes[i] < 0x80 by {
        let c = text@[i];
        assert('\0' <= c <= '\u{7f}');
    }
    lemma_decode_ascii(bytes);
    assert(decode(bytes) =~= text@) by {
        assert forall|i: int| 0 <= i < bytes.len() implies (bytes[i] as char) == text@[i] by {
            let c = text@[i];
            assert('\0' <= c <= '\u{7f}');
        }
    }
}

} // verus!
