use vstd::prelude::*;
use vstd::string::StringExecFns;

verus! {

/// An output-only UART: writes append to a transmit buffer.
pub struct Uart {
    tx: String,
    bytes_out: u64,
}

/// What a UART has transmitted: the text and its length in bytes.
pub struct UartView {
    pub text: Seq<char>,
    pub bytes_out: u64,
}

impl View for Uart {
    type V = UartView;

    closed spec fn view(&self) -> UartView {
        UartView { text: self.tx@, bytes_out: self.bytes_out }
    }
}

/// The number of bytes `text` takes on the wire (its UTF-8 length).
pub open spec fn wire_len(text: Seq<char>) -> nat {
    vstd::utf8::encode_utf8(text).len()
}

impl UartView {
    /// The UART after transmitting `text`.
    pub open spec fn sent(self, text: Seq<char>) -> UartView {
        UartView { text: self.text + text, bytes_out: (self.bytes_out + wire_len(text)) as u64 }
    }
}

impl Uart {
    pub fn new() -> (u: Uart)
        ensures
            u@.text == Seq::<char>::empty(),
            u@.bytes_out == 0,
    {
        Uart { tx: String::new(), bytes_out: 0 }
    }

    /// Transmit `text`.
    pub fn write(&mut self, text: &str)
        requires
            old(self)@.bytes_out + wire_len(text@) <= u64::MAX,
        ensures
            final(self)@ == old(self)@.sent(text@),
    {
        let n = text.as_bytes().len();
        self.bytes_out = self.bytes_out + n as u64;
        self.tx.append(text);
    }

    /// Transmit `text` followed by a newline.
    pub fn writeln(&mut self, text: &str)
        requires
            old(self)@.bytes_out + wire_len(text@) + 1 <= u64::MAX,
        ensures
            final(self)@ == old(self)@.sent(text@).sent(seq!['\n']),
    {
        self.write(text);
        let nl = "\n";
        proof {
            reveal_strlit("\n");
            assert(nl@ =~= seq!['\n']);
            lemma_newline_wire_len();
        }
        self.write(nl);
    }

    /// Everything transmitted so far.
    pub fn contents(&self) -> (s: &str)
        ensures
            s@ == self@.text,
    {
        self.tx.as_str()
    }

    pub fn bytes_out(&self) -> (n: u64)
        ensures
            n == self@.bytes_out,
    {
        self.bytes_out
    }
}

/// A newline is one byte on the wire.
pub proof fn lemma_newline_wire_len()
    ensures
        wire_len(seq!['\n']) == 1,
{
    let s = seq!['\n'];
    assert(s.drop_first() =~= Seq::<char>::empty());
    assert(vstd::utf8::encode_utf8(s.drop_first()) =~= Seq::<u8>::empty());
    assert(('\n' as u32) == 10);
    assert(vstd::utf8::encode_scalar(10u32).len() == 1);
}

impl Default for Uart {
    fn default() -> (u: Uart)
        ensures
            u@.text == Seq::<char>::empty(),
            u@.bytes_out == 0,
    {
        Uart::new()
    }
}

} // verus!
