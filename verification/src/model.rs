use vstd::prelude::*;
use vstd::arithmetic::power2::pow2;

verus! {

/// First code point of the ordinary symbol alphabet: an ordinary symbol with
/// value `v` (13 bits, `0 <= v < 8192`) is transported as code point
/// `BASE_OFFSET + v`.
pub const BASE_OFFSET: u32 = 0x4e00;

/// First code point of the terminal range: the final symbol of a stream
/// carries the encoder's leftover bit-buffer value `v` (0 to 12 bits) as code
/// point `ENDING_OFFSET + v`.  Since `ENDING_OFFSET == BASE_OFFSET + 8192`,
/// the ordinary and terminal ranges are disjoint.
pub const ENDING_OFFSET: u32 = 0x6e00;

/// A bit buffer: `val` holds `nbits` valid low-order bits, so `val < pow2(nbits)`.
/// The bits are the literal high-to-low continuation of the original bit stream.
pub ghost struct BufSt {
    pub val: nat,
    pub nbits: nat,
}

/// Well-formedness of the encode-side buffer: fewer than 13 pending bits.
pub open spec fn enc_wf(b: BufSt) -> bool {
    b.nbits <= 12 && b.val < pow2(b.nbits)
}

/// Well-formedness of the decode-side buffer: fewer than 8 pending bits.
pub open spec fn dec_wf(b: BufSt) -> bool {
    b.nbits <= 7 && b.val < pow2(b.nbits)
}

/// The empty bit buffer.
pub open spec fn buf_empty() -> BufSt {
    BufSt { val: 0, nbits: 0 }
}

/// Result of pushing input into the encode-side buffer: the new buffer and
/// the 13-bit symbol values that became complete (in emission order).
pub ghost struct EncRun {
    pub buf: BufSt,
    pub syms: Seq<nat>,
}

/// Decoder state: the decode-side bit buffer plus the "stream closed" flag,
/// set once a terminal symbol has been observed.
pub ghost struct DecSt {
    pub buf: BufSt,
    pub closed: bool,
}

/// A fresh decoder state.
pub open spec fn dec_init() -> DecSt {
    DecSt { buf: buf_empty(), closed: false }
}

/// Result of feeding code points to the decoder: the new state and the bytes
/// emitted (in emission order).
pub ghost struct DecRun {
    pub st: DecSt,
    pub out: Seq<u8>,
}

/// One byte appended to the encode-side bit buffer.  If 13 or more bits are
/// then available, the top 13 bits leave as a symbol and only the rest stay.
pub open spec fn enc_fill(b: BufSt, byte: u8) -> EncRun {
    let total = (b.val * 256 + byte) as nat;
    if b.nbits < 5 {
        EncRun { buf: BufSt { val: total, nbits: b.nbits + 8 }, syms: Seq::empty() }
    } else {
        let keep = (b.nbits - 5) as nat;
        EncRun {
            buf: BufSt { val: total % pow2(keep), nbits: keep },
            syms: seq![total / pow2(keep)],
        }
    }
}

/// A whole byte chunk pushed through the encode-side buffer, front to back.
pub open spec fn enc_run(b: BufSt, bytes: Seq<u8>) -> EncRun
    decreases bytes.len(),
{
    if bytes.len() == 0 {
        EncRun { buf: b, syms: Seq::empty() }
    } else {
        let f = enc_fill(b, bytes[0]);
        let r = enc_run(f.buf, bytes.drop_first());
        EncRun { buf: r.buf, syms: f.syms + r.syms }
    }
}

/// One 13-bit unit appended to the decode-side bit buffer.  The buffer then
/// holds `nbits + 13` bits, of which the top 8 (if `nbits <= 2`) or top 16
/// (if `nbits >= 3`) leave as bytes; only the rest stay.
pub open spec fn dec_fill(b: BufSt, x: nat) -> (BufSt, Seq<u8>) {
    let total = (b.val * 8192 + x) as nat;
    if b.nbits <= 2 {
        let keep = b.nbits + 5;
        (
            BufSt { val: total % pow2(keep), nbits: keep },
            seq![((total / pow2(keep)) % 256) as u8],
        )
    } else {
        let keep = (b.nbits - 3) as nat;
        (
            BufSt { val: total % pow2(keep), nbits: keep },
            seq![((total / pow2(keep + 8)) % 256) as u8, ((total / pow2(keep)) % 256) as u8],
        )
    }
}

/// A chunk of Unicode scalar values fed to the decoder, front to back.
/// A scalar value 0 stops the run (zero-padded transport buffers); a value in
/// the terminal range closes the stream after its leftover bits, left-shifted
/// by `nbits + 5` and truncated to a 13-bit field, pass through the buffer;
/// an ordinary value contributes its 13 bits.  A closed state absorbs nothing.
pub open spec fn dec_run(st: DecSt, cs: Seq<u32>) -> DecRun
    decreases cs.len(),
{
    if cs.len() == 0 || st.closed {
        DecRun { st, out: Seq::empty() }
    } else {
        let c = cs[0];
        if c < BASE_OFFSET {
            DecRun { st, out: Seq::empty() }
        } else if c >= ENDING_OFFSET {
            let x = (((c - ENDING_OFFSET) * pow2(st.buf.nbits + 5)) % 8192) as nat;
            let f = dec_fill(st.buf, x);
            DecRun { st: DecSt { buf: f.0, closed: true }, out: f.1 }
        } else {
            let f = dec_fill(st.buf, (c - BASE_OFFSET) as nat);
            let r = dec_run(DecSt { buf: f.0, closed: false }, cs.drop_first());
            DecRun { st: r.st, out: f.1 + r.out }
        }
    }
}

/// The value of a byte sequence read as one big-endian bit string.
pub open spec fn bytes_val(s: Seq<u8>) -> nat
    decreases s.len(),
{
    if s.len() == 0 {
        0
    } else {
        (s[0] * pow2(((s.len() - 1) * 8) as nat) + bytes_val(s.drop_first())) as nat
    }
}

/// The value of a symbol-value sequence read as one big-endian bit string
/// of 13 bits per symbol.
pub open spec fn syms_val(s: Seq<nat>) -> nat
    decreases s.len(),
{
    if s.len() == 0 {
        0
    } else {
        (s[0] * pow2(((s.len() - 1) * 13) as nat) + syms_val(s.drop_first())) as nat
    }
}

/// The scalar values of a character sequence.
pub open spec fn cp_vals(s: Seq<char>) -> Seq<u32> {
    s.map_values(|c: char| c as u32)
}

/// The symbol values carried by a sequence of ordinary symbol characters.
pub open spec fn sym_vals(s: Seq<char>) -> Seq<nat> {
    s.map_values(|c: char| (c as u32 - BASE_OFFSET) as nat)
}

/// The symbol values carried by a sequence of ordinary scalar values.
pub open spec fn cp_sym_vals(cs: Seq<u32>) -> Seq<nat> {
    cs.map_values(|c: u32| (c - BASE_OFFSET) as nat)
}

/// The code points that transport a sequence of symbol values.
pub open spec fn sym_cps(syms: Seq<nat>) -> Seq<u32> {
    syms.map_values(|v: nat| (v + BASE_OFFSET) as u32)
}

/// The whole wire stream of one-shot encoding `s`: every completed symbol as
/// an ordinary code point, then the terminal code point with the leftover.
pub open spec fn encode_stream(s: Seq<u8>) -> Seq<u32> {
    sym_cps(enc_run(buf_empty(), s).syms).push(
        (ENDING_OFFSET + enc_run(buf_empty(), s).buf.val) as u32,
    )
}

} // verus!
