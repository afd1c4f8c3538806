use vstd::prelude::*;
use vstd::arithmetic::power2::{pow2, lemma2_to64, lemma_pow2_adds, lemma_pow2_strictly_increases};
use vstd::bits::{
    lemma_u32_low_bits_mask_is_mod, lemma_u32_shl_is_mul, lemma_u32_shr_is_div,
    lemma_u64_shl_is_mul,
};
use crate::model::{
    buf_empty, cp_vals, dec_fill, dec_init, dec_run, dec_wf, enc_fill, enc_run, enc_wf, sym_vals,
    BufSt, DecSt, BASE_OFFSET, ENDING_OFFSET,
};

verus! {

/// Relies on `char::from_u32` of std: it returns `Some` exactly for the
/// scalar values below the surrogate range or between it and the maximum
/// code point, and the returned character has the given scalar value.
pub assume_specification[ char::from_u32 ](i: u32) -> (r: Option<char>)
    ensures
        (r is Some) <==> (i < 0xD800 || (0xE000 <= i && i <= 0x10FFFF)),
        r matches Some(c) ==> c as u32 == i,
;

/// Default capacity hint for the output buffer of one `update` call.
pub const DEFAULT_BUFFER_SIZE: usize = 1024 * 1024;

/// The error kinds of the streaming interface.  `IoError` is reserved for
/// the surrounding I/O driver; the core itself only reports `EndOfFile`,
/// raised when a decoder is fed input after its terminal symbol.
#[derive(Debug)]
pub enum BaseHanError {
    IoError,
    EndOfFile,
}

/// Monotonicity of `pow2` in non-strict form.
pub(crate) proof fn lemma_pow2_le(e1: nat, e2: nat)
    requires
        e1 <= e2,
    ensures
        pow2(e1) <= pow2(e2),
{
    if e1 < e2 {
        lemma_pow2_strictly_increases(e1, e2);
    }
}

/// Encode-side bit-rate converter: accumulates bytes, eight bits at a time,
/// and emits a 13-bit symbol as soon as one is complete.
pub(crate) struct BitCache13 {
    inner: u32,
    nbits: usize,
}

impl BitCache13 {
    /// The (value, bit count) pair this cache holds.
    pub(crate) closed spec fn st(self) -> BufSt {
        BufSt { val: self.inner as nat, nbits: self.nbits as nat }
    }

    pub(crate) fn new() -> (r: Self)
        ensures
            r.st() == buf_empty(),
    {
        BitCache13 { inner: 0, nbits: 0 }
    }

    /// Fill one byte at a time; if 13 bits are then available, return the
    /// completed symbol as a character and keep only the bits below it.
    pub(crate) fn fill(&mut self, byte: u8) -> (r: Option<char>)
        requires
            enc_wf(old(self).st()),
        ensures
            enc_wf(final(self).st()),
            final(self).st() == enc_fill(old(self).st(), byte).buf,
            r is Some <==> old(self).st().nbits >= 5,
            r is Some ==> BASE_OFFSET <= r->0 as u32 && (r->0 as u32) < ENDING_OFFSET,
            r is Some ==> enc_fill(old(self).st(), byte).syms =~= seq![
                (r->0 as u32 - BASE_OFFSET) as nat,
            ],
    {
        proof {
            lemma2_to64();
            lemma_pow2_le(old(self).st().nbits, 12);
        }
        let x = self.inner;
        proof {
            lemma_u32_shl_is_mul(x, 8);
        }
        let t: u32 = (x << 8u32) + (byte as u32);
        if self.nbits < 5 {
            self.inner = t;
            self.nbits = self.nbits + 8;
            proof {
                let v = old(self).st().val;
                let n = old(self).st().nbits;
                lemma_pow2_adds(n, 8);
                assert(v * 256 + byte < pow2(n) * 256) by (nonlinear_arith)
                    requires
                        v < pow2(n),
                        byte < 256,
                ;
            }
            None
        } else {
            let keep: u32 = (self.nbits as u32) - 5;
            proof {
                let v = old(self).st().val;
                let n = old(self).st().nbits;
                lemma_pow2_adds(n, 8);
                assert(v * 256 + byte < pow2(n) * 256) by (nonlinear_arith)
                    requires
                        v < pow2(n),
                        byte < 256,
                ;
                lemma_u32_shr_is_div(t, keep);
                lemma_u32_shl_is_mul(1u32, keep);
                lemma_u32_low_bits_mask_is_mod(t, keep as nat);
                lemma_pow2_adds((keep as nat), 13);
                vstd::arithmetic::div_mod::lemma_multiply_divide_lt(
                    t as int,
                    pow2(keep as nat) as int,
                    8192,
                );
            }
            let sym: u32 = t >> keep;
            self.inner = t & ((1u32 << keep) - 1);
            self.nbits = self.nbits - 5;
            let cp = sym + BASE_OFFSET;
            let c = char::from_u32(cp).unwrap();
            Some(c)
        }
    }

    /// Dump the leftover bits as the terminal code point: the buffer value
    /// offset into the terminal range.
    pub(crate) fn dump(self) -> (r: char)
        requires
            enc_wf(self.st()),
        ensures
            r as u32 == ENDING_OFFSET + self.st().val,
    {
        proof {
            lemma2_to64();
            lemma_pow2_le(self.st().nbits, 12);
        }
        char::from_u32(self.inner + ENDING_OFFSET).unwrap()
    }
}

/// What one 13-bit unit pushed into the decode-side converter yields:
/// one byte, or two.
pub(crate) enum BitCache8Out {
    Single(u8),
    Double(u8, u8),
}

/// Decode-side bit-rate converter: accumulates 13-bit units and emits each
/// byte as soon as it is complete.
pub(crate) struct BitCache8 {
    inner: u32,
    nbits: usize,
}

impl BitCache8 {
    /// The (value, bit count) pair this cache holds.
    pub(crate) closed spec fn st(self) -> BufSt {
        BufSt { val: self.inner as nat, nbits: self.nbits as nat }
    }

    /// The pending bit count, needed to align a terminal symbol.
    pub(crate) fn nbits(&self) -> (n: usize)
        ensures
            n == self.st().nbits,
    {
        self.nbits
    }

    pub(crate) fn new() -> (r: Self)
        ensures
            r.st() == buf_empty(),
    {
        BitCache8 { inner: 0, nbits: 0 }
    }

    /// Fill 13 bits at a time; the top eight (or sixteen) of the accumulated
    /// bits leave as one byte (or two), and only the bits below them stay.
    pub(crate) fn fill(&mut self, bits: u32) -> (r: BitCache8Out)
        requires
            dec_wf(old(self).st()),
            bits < 8192,
        ensures
            dec_wf(final(self).st()),
            final(self).st() == dec_fill(old(self).st(), bits as nat).0,
            r is Single <==> old(self).st().nbits <= 2,
            r matches BitCache8Out::Single(b) ==> dec_fill(old(self).st(), bits as nat).1 =~= seq![b],
            r matches BitCache8Out::Double(b1, b2) ==> dec_fill(old(self).st(), bits as nat).1 =~= seq![b1, b2],
    {
        proof {
            lemma2_to64();
            lemma_pow2_le(old(self).st().nbits, 7);
        }
        let x = self.inner;
        let t: u32 = (x << 13u32) | bits;
        proof {
            assert((x << 13u32) | bits == x * 8192 + bits) by (bit_vector)
                requires
                    x < 128u32,
                    bits < 8192u32,
            ;
            let v = old(self).st().val;
            let n = old(self).st().nbits;
            lemma_pow2_adds(n, 13);
            assert(v * 8192 + bits < pow2(n) * 8192) by (nonlinear_arith)
                requires
                    v < pow2(n),
                    bits < 8192,
            ;
        }
        if self.nbits <= 2 {
            let keep: u32 = (self.nbits as u32) + 5;
            proof {
                lemma_u32_shr_is_div(t, keep);
                lemma_u32_shl_is_mul(1u32, keep);
                lemma_u32_low_bits_mask_is_mod(t, keep as nat);
                lemma_pow2_adds((keep as nat), 8);
                vstd::arithmetic::div_mod::lemma_multiply_divide_lt(
                    t as int,
                    pow2(keep as nat) as int,
                    256,
                );
            }
            let b = (t >> keep) as u8;
            self.inner = t & ((1u32 << keep) - 1);
            self.nbits = self.nbits + 5;
            BitCache8Out::Single(b)
        } else {
            let keep: u32 = (self.nbits as u32) - 3;
            proof {
                lemma_u32_shr_is_div(t, (keep + 8) as u32);
                lemma_u32_shr_is_div(t, keep);
                lemma_u32_shl_is_mul(1u32, keep);
                lemma_u32_low_bits_mask_is_mod(t, keep as nat);
                lemma_pow2_adds((keep + 8) as nat, 8);
                vstd::arithmetic::div_mod::lemma_multiply_divide_lt(
                    t as int,
                    pow2((keep + 8) as nat) as int,
                    256,
                );
            }
            let b1 = (t >> (keep + 8)) as u8;
            let b2 = ((t >> keep) % 256) as u8;
            self.inner = t & ((1u32 << keep) - 1);
            self.nbits = self.nbits - 3;
            proof {
                assert(dec_fill(old(self).st(), bits as nat).1 =~= seq![b1, b2]);
            }
            BitCache8Out::Double(b1, b2)
        }
    }

    /// Dump the remaining byte, if any bit of it is set: a well-formed stream
    /// drains to exactly zero at its terminal symbol.
    pub(crate) fn dump(self) -> (r: Option<u8>)
        requires
            dec_wf(self.st()),
        ensures
            r == (if self.st().val == 0 {
                None::<u8>
            } else {
                Some(self.st().val as u8)
            }),
    {
        proof {
            lemma2_to64();
            lemma_pow2_le(self.st().nbits, 7);
        }
        if self.inner != 0 {
            Some(self.inner as u8)
        } else {
            None
        }
    }
}

/// Streaming encoder: owns the encode-side bit-rate converter.  `update`
/// turns byte chunks into ordinary symbol code points; `finish` consumes the
/// encoder and yields the single terminal code point.
pub struct BaseHanEncoder {
    buffer_size: usize,
    remainings: BitCache13,
}

impl BaseHanEncoder {
    /// The encode-side bit buffer this encoder holds.
    pub closed spec fn st(self) -> BufSt {
        self.remainings.st()
    }

    pub fn new() -> (r: Self)
        ensures
            r.st() == buf_empty(),
    {
        BaseHanEncoder { buffer_size: DEFAULT_BUFFER_SIZE, remainings: BitCache13::new() }
    }

    pub fn with_buffer_size(buffer_size: usize) -> (r: Self)
        ensures
            r.st() == buf_empty(),
    {
        BaseHanEncoder { buffer_size, remainings: BitCache13::new() }
    }

    /// Feed a chunk of bytes: every symbol that becomes complete leaves as an
    /// ordinary code point, and the bits below the last full symbol stay.
    pub fn update(&mut self, chunk: &[u8]) -> (r: Result<Vec<char>, BaseHanError>)
        requires
            enc_wf(old(self).st()),
        ensures
            enc_wf(final(self).st()),
            final(self).st() == enc_run(old(self).st(), chunk@).buf,
            r is Ok,
            r is Ok ==> sym_vals(r->Ok_0@) =~= enc_run(old(self).st(), chunk@).syms,
            r is Ok ==> (forall|j: int|
                0 <= j < r->Ok_0@.len() ==> BASE_OFFSET <= #[trigger] (r->Ok_0@[j] as u32)
                    && (r->Ok_0@[j] as u32) < ENDING_OFFSET),
    {
        let ghost st0 = old(self).st();
        let mut out: Vec<char> = Vec::with_capacity(self.buffer_size);
        let mut i: usize = 0;
        proof {
            assert(chunk@.skip(0) =~= chunk@);
            assert(sym_vals(out@) =~= Seq::<nat>::empty());
            assert(Seq::<nat>::empty() + enc_run(st0, chunk@).syms =~= enc_run(st0, chunk@).syms);
        }
        while i < chunk.len()
            invariant
                i <= chunk.len(),
                enc_wf(self.st()),
                enc_run(st0, chunk@).buf == enc_run(self.st(), chunk@.skip(i as int)).buf,
                enc_run(st0, chunk@).syms =~= sym_vals(out@) + enc_run(
                    self.st(),
                    chunk@.skip(i as int),
                ).syms,
                forall|j: int|
                    0 <= j < out@.len() ==> BASE_OFFSET <= #[trigger] (out@[j] as u32)
                        && (out@[j] as u32) < ENDING_OFFSET,
            decreases chunk.len() - i,
        {
            let ghost pre = self.st();
            let ghost rest = chunk@.skip(i as int);
            proof {
                assert(rest[0] == chunk@[i as int]);
                assert(rest.drop_first() =~= chunk@.skip(i as int + 1));
            }
            let byte = chunk[i];
            let res = self.remainings.fill(byte);
            let ghost prev_out = out@;
            match res {
                Some(c) => {
                    out.push(c);
                    proof {
                        let v = (c as u32 - BASE_OFFSET) as nat;
                        assert(sym_vals(out@) =~= sym_vals(prev_out) + seq![v]);
                        assert((sym_vals(prev_out) + seq![v]) + enc_run(
                            self.st(),
                            chunk@.skip(i as int + 1),
                        ).syms =~= sym_vals(prev_out) + (seq![v] + enc_run(
                            self.st(),
                            chunk@.skip(i as int + 1),
                        ).syms));
                    }
                },
                None => {
                    proof {
                        assert(sym_vals(out@) + Seq::<nat>::empty() =~= sym_vals(out@));
                        assert(enc_fill(pre, byte).syms =~= Seq::<nat>::empty());
                    }
                },
            }
            i = i + 1;
        }
        proof {
            assert(chunk@.skip(chunk@.len() as int) =~= Seq::<u8>::empty());
            assert(sym_vals(out@) + Seq::<nat>::empty() =~= sym_vals(out@));
        }
        Ok(out)
    }

    /// Dump the leftover bits (0 to 12 of them) as the one terminal code
    /// point of the stream; consumes the encoder.
    pub fn finish(self) -> (r: char)
        requires
            enc_wf(self.st()),
        ensures
            r as u32 == ENDING_OFFSET + self.st().val,
            ENDING_OFFSET <= r as u32,
            (r as u32) < ENDING_OFFSET + 8192,
    {
        proof {
            lemma2_to64();
            lemma_pow2_le(self.st().nbits, 12);
        }
        self.remainings.dump()
    }
}

/// Streaming decoder: owns the decode-side bit-rate converter and the
/// "stream closed" flag.  `update` turns code-point chunks back into bytes;
/// `finish` consumes the decoder and reports an unresolved leftover byte.
pub struct BaseHanDecoder {
    buffer_size: usize,
    remainings: BitCache8,
    eof: bool,
}

impl BaseHanDecoder {
    /// The decoder state: the decode-side bit buffer and the closed flag.
    pub closed spec fn st(self) -> DecSt {
        DecSt { buf: self.remainings.st(), closed: self.eof }
    }

    pub fn new() -> (r: Self)
        ensures
            r.st() == dec_init(),
    {
        BaseHanDecoder { buffer_size: DEFAULT_BUFFER_SIZE, remainings: BitCache8::new(), eof: false }
    }

    pub fn with_buffer_size(buffer_size: usize) -> (r: Self)
        ensures
            r.st() == dec_init(),
    {
        BaseHanDecoder { buffer_size, remainings: BitCache8::new(), eof: false }
    }

    /// Feed a chunk of scalar values.  Each value must be 0 (a transport
    /// padding sentinel that stops the chunk) or lie at or above the symbol
    /// alphabet.  Fails with `EndOfFile` if the stream is already closed.
    pub fn update(&mut self, chunk: &[char]) -> (r: Result<Vec<u8>, BaseHanError>)
        requires
            dec_wf(old(self).st().buf),
            forall|j: int|
                0 <= j < chunk@.len() ==> (#[trigger] (chunk@[j] as u32)) == 0 || (chunk@[
                    j
                ] as u32) >= BASE_OFFSET,
        ensures
            dec_wf(final(self).st().buf),
            old(self).st().closed ==> r is Err && *final(self) == *old(self),
            r is Err ==> r->Err_0 is EndOfFile,
            r is Err <==> old(self).st().closed,
            !old(self).st().closed ==> final(self).st() == dec_run(
                old(self).st(),
                cp_vals(chunk@),
            ).st,
            r is Ok ==> r->Ok_0@ =~= dec_run(old(self).st(), cp_vals(chunk@)).out,
    {
        if self.eof {
            return Err(BaseHanError::EndOfFile);
        }
        let ghost st0 = self.st();
        let ghost cs = cp_vals(chunk@);
        let mut out: Vec<u8> = Vec::with_capacity(self.buffer_size);
        let mut i: usize = 0;
        let mut stop = false;
        proof {
            assert(cs.skip(0) =~= cs);
            assert(Seq::<u8>::empty() + dec_run(st0, cs).out =~= dec_run(st0, cs).out);
        }
        while i < chunk.len() && !stop
            invariant
                i <= chunk.len(),
                cs == cp_vals(chunk@),
                cs.len() == chunk@.len(),
                forall|j: int|
                    0 <= j < chunk@.len() ==> (#[trigger] (chunk@[j] as u32)) == 0 || (chunk@[
                        j
                    ] as u32) >= BASE_OFFSET,
                dec_wf(self.st().buf),
                !stop ==> !self.st().closed,
                stop ==> self.st().closed || (i < cs.len() && cs[i as int] < BASE_OFFSET),
                dec_run(st0, cs).st == dec_run(self.st(), cs.skip(i as int)).st,
                dec_run(st0, cs).out =~= out@ + dec_run(self.st(), cs.skip(i as int)).out,
            decreases chunk@.len() - i + (if stop { 0int } else { 1int }),
        {
            let ghost pre = self.st();
            let ghost rest = cs.skip(i as int);
            proof {
                assert(cs[i as int] == chunk@[i as int] as u32);
                assert(rest[0] == cs[i as int]);
                assert(rest.drop_first() =~= cs.skip(i as int + 1));
            }
            let c = chunk[i];
            let cv: u32 = c as u32;
            if cv == 0 {
                stop = true;
            } else if cv >= ENDING_OFFSET {
                let v: u32 = cv - ENDING_OFFSET;
                let sh64: u64 = (self.remainings.nbits() as u64) + 5;
                proof {
                    vstd::utf8::char_is_scalar(c);
                    lemma2_to64();
                    lemma_pow2_le((sh64 as nat), 12);
                    assert((v as u64) * pow2(sh64 as nat) <= 0x10FFFFu64 * 4096) by (nonlinear_arith)
                        requires
                            v <= 0x10FFFFu64,
                            pow2(sh64 as nat) <= 4096,
                    ;
                    lemma_u64_shl_is_mul(v as u64, sh64);
                }
                let xw: u64 = ((v as u64) << sh64) % 8192;
                let x: u32 = xw as u32;
                self.eof = true;
                let ghost prev_out = out@;
                let ghost f = dec_fill(pre.buf, x as nat);
                match self.remainings.fill(x) {
                    BitCache8Out::Single(b) => {
                        out.push(b);
                        proof {
                            assert(out@ =~= prev_out + f.1);
                        }
                    },
                    BitCache8Out::Double(b1, b2) => {
                        out.push(b1);
                        out.push(b2);
                        proof {
                            assert(out@ =~= prev_out + f.1);
                        }
                    },
                }
                i = i + 1;
                stop = true;
                proof {
                    assert(dec_run(pre, rest).st == self.st());
                    assert(dec_run(pre, rest).out =~= f.1);
                    assert(dec_run(self.st(), cs.skip(i as int)).out =~= Seq::<u8>::empty());
                    assert(dec_run(st0, cs).out =~= out@ + dec_run(self.st(), cs.skip(i as int)).out);
                }
            } else {
                let v: u32 = cv - BASE_OFFSET;
                let ghost prev_out = out@;
                let ghost f = dec_fill(pre.buf, v as nat);
                match self.remainings.fill(v) {
                    BitCache8Out::Single(b) => {
                        out.push(b);
                        proof {
                            assert(out@ =~= prev_out + f.1);
                        }
                    },
                    BitCache8Out::Double(b1, b2) => {
                        out.push(b1);
                        out.push(b2);
                        proof {
                            assert(out@ =~= prev_out + f.1);
                        }
                    },
                }
                i = i + 1;
                proof {
                    assert(dec_run(pre, rest).st == dec_run(self.st(), cs.skip(i as int)).st);
                    assert(dec_run(pre, rest).out =~= f.1 + dec_run(self.st(), cs.skip(i as int)).out);
                    assert(prev_out + (f.1 + dec_run(self.st(), cs.skip(i as int)).out) =~= out@
                        + dec_run(self.st(), cs.skip(i as int)).out);
                }
            }
        }
        proof {
            if i >= chunk@.len() && !stop {
                assert(cs.skip(i as int) =~= Seq::<u32>::empty());
            }
            assert(out@ + Seq::<u8>::empty() =~= out@);
        }
        Ok(out)
    }

    /// Report the unresolved leftover byte, if its bits are not all zero;
    /// a present value signals a truncated or corrupted stream.  Consumes
    /// the decoder.
    pub fn finish(self) -> (r: Option<u8>)
        requires
            dec_wf(self.st().buf),
        ensures
            r == (if self.st().buf.val == 0 {
                None::<u8>
            } else {
                Some(self.st().buf.val as u8)
            }),
    {
        self.remainings.dump()
    }
}

} // verus!
