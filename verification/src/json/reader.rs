use super::source::{decode, unread, Decoder};
use vstd::prelude::*;

verus! {

/// A codepoint reader with one codepoint of lookahead.
pub struct JsonReader<'a> {
    inner: Decoder<'a>,
    peeked_ch: Option<char>,
}

impl<'a> View for JsonReader<'a> {
    type V = Seq<char>;

    /// The codepoints that are still to be read, the peeked one first.
    closed spec fn view(&self) -> Seq<char> {
        match self.peeked_ch {
            Some(ch) => seq![ch] + decode(unread(self.inner)),
            None => decode(unread(self.inner)),
        }
    }
}

impl<'a> JsonReader<'a> {
    /// A reader at the start of the codepoints that `bytes` decode to.
    pub fn new(bytes: &'a [u8]) -> (reader: JsonReader<'a>)
        ensures
            reader@ == decode(bytes@),
    {
        JsonReader { inner: Decoder::new(bytes), peeked_ch: None }
    }

    /// Returns the next codepoint and consumes it; `None` at the end of the
    /// input, where nothing is consumed.
    pub fn read_char(&mut self) -> (ch: Option<char>)
        ensures
            old(self)@.len() == 0 ==> ch is None && final(self)@ == old(self)@,
            old(self)@.len() > 0 ==> ch == Some(old(self)@[0]) && final(self)@ == old(
                self,
            )@.drop_first(),
    {
        if self.peeked_ch.is_some() {
            let peeked_ch = self.peeked_ch;
            self.peeked_ch = None;
            assert(self@ =~= old(self)@.drop_first());
            peeked_ch
        } else {
            let ch = self.inner.getc();
            proof {
                if ch is Some {
                    assert(self@ =~= old(self)@.drop_first());
                }
            }
            ch
        }
    }

    /// Returns the next codepoint without consuming it; `None` at the end of
    /// the input.
    pub fn peek_char(&mut self) -> (ch: Option<char>)
        ensures
            final(self)@ == old(self)@,
            old(self)@.len() == 0 ==> ch is None,
            old(self)@.len() > 0 ==> ch == Some(old(self)@[0]),
    {
        if self.peeked_ch.is_none() {
            self.peeked_ch = self.inner.getc();
            proof {
                if self.peeked_ch is Some {
                    assert(self@ =~= old(self)@);
                }
            }
        }
        self.peeked_ch
    }
}

} // verus!
