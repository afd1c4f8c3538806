//! The laws of the transcoding scheme, stated over the spec-level model that
//! the executable contracts use, and proved once and for all.
use vstd::prelude::*;
use vstd::arithmetic::div_mod::{
    lemma_fundamental_div_mod, lemma_fundamental_div_mod_converse, lemma_small_mod,
};
use vstd::arithmetic::power2::{lemma2_to64, lemma_pow2_adds, lemma_pow2_pos, pow2};
use crate::model::{
    buf_empty, bytes_val, cp_sym_vals, dec_fill, dec_init, dec_run, dec_wf, enc_fill, enc_run,
    enc_wf, encode_stream, sym_cps, syms_val, BufSt, DecSt, BASE_OFFSET, ENDING_OFFSET,
};

verus! {

/// Appending a byte at the back multiplies the front's value by 256.
proof fn lemma_bytes_val_push(s: Seq<u8>, b: u8)
    ensures
        bytes_val(s.push(b)) == bytes_val(s) * 256 + b,
    decreases s.len(),
{
    lemma2_to64();
    if s.len() == 0 {
        assert(s.push(b) =~= seq![b]);
        assert(seq![b].drop_first() =~= Seq::<u8>::empty());
        assert(bytes_val(Seq::<u8>::empty()) == 0);
        assert(bytes_val(seq![b]) == b * pow2(0) + 0);
    } else {
        assert(s.push(b).drop_first() =~= s.drop_first().push(b));
        lemma_bytes_val_push(s.drop_first(), b);
        let n = (s.len() - 1) as nat;
        lemma_pow2_adds((n * 8) as nat, 8);
        assert(bytes_val(s.push(b)) == s[0] * pow2((s.len() * 8) as nat) + bytes_val(
            s.drop_first(),
        ) * 256 + b);
        assert(s[0] * pow2((s.len() * 8) as nat) == s[0] * (pow2((n * 8) as nat) * 256));
        assert(s[0] * (pow2((n * 8) as nat) * 256) == (s[0] * pow2((n * 8) as nat)) * 256)
            by (nonlinear_arith);
        assert((s[0] * pow2((n * 8) as nat) + bytes_val(s.drop_first())) * 256 == (s[0] * pow2(
            (n * 8) as nat,
        )) * 256 + bytes_val(s.drop_first()) * 256) by (nonlinear_arith);
    }
}

/// The value of a byte string is below the power of two of its bit length.
proof fn lemma_bytes_val_bound(s: Seq<u8>)
    ensures
        bytes_val(s) < pow2((s.len() * 8) as nat),
    decreases s.len(),
{
    lemma2_to64();
    if s.len() == 0 {
    } else {
        lemma_bytes_val_bound(s.drop_first());
        let n = (s.len() - 1) as nat;
        lemma_pow2_adds((n * 8) as nat, 8);
        assert(s[0] * pow2((n * 8) as nat) + bytes_val(s.drop_first()) < pow2((n * 8) as nat) * 256)
            by (nonlinear_arith)
            requires
                s[0] < 256,
                bytes_val(s.drop_first()) < pow2((n * 8) as nat),
                pow2((n * 8) as nat) >= 1,
        ;
        lemma_pow2_pos((n * 8) as nat);
    }
}

/// Two byte strings of one length and one value are the same string.
proof fn lemma_bytes_val_inj(a: Seq<u8>, b: Seq<u8>)
    requires
        a.len() == b.len(),
        bytes_val(a) == bytes_val(b),
    ensures
        a =~= b,
    decreases a.len(),
{
    if a.len() == 0 {
    } else {
        let n = (a.len() - 1) as nat;
        lemma_bytes_val_bound(a.drop_first());
        lemma_bytes_val_bound(b.drop_first());
        assert(a[0] == b[0] && bytes_val(a.drop_first()) == bytes_val(b.drop_first()))
            by (nonlinear_arith)
            requires
                a[0] * pow2((n * 8) as nat) + bytes_val(a.drop_first()) == b[0] * pow2(
                    (n * 8) as nat,
                ) + bytes_val(b.drop_first()),
                bytes_val(a.drop_first()) < pow2((n * 8) as nat),
                bytes_val(b.drop_first()) < pow2((n * 8) as nat),
        ;
        lemma_bytes_val_inj(a.drop_first(), b.drop_first());
        assert forall|i: int| 0 <= i < a.len() implies a[i] == b[i] by {
            if i > 0 {
                assert(a.drop_first()[i - 1] == b.drop_first()[i - 1]);
            }
        }
        assert(a =~= b);
    }
}

/// Every symbol the encoder emits is a 13-bit value, so its code point is
/// below the terminal range: the two alphabets are disjoint.
pub proof fn lemma_alphabet_disjoint(v: nat)
    requires
        v < 8192,
    ensures
        BASE_OFFSET + v < ENDING_OFFSET,
{
}

/// The one master fact of the encode side: a run conserves the bit string.
/// The bits that went in stand, in order, in the symbols emitted followed by
/// the bits kept; and the bit counts add up exactly.
pub proof fn lemma_enc_run_props(b0: BufSt, s: Seq<u8>)
    requires
        enc_wf(b0),
    ensures
        enc_wf(enc_run(b0, s).buf),
        enc_run(b0, s).syms.len() * 13 + enc_run(b0, s).buf.nbits == b0.nbits + s.len() * 8,
        syms_val(enc_run(b0, s).syms) * pow2(enc_run(b0, s).buf.nbits) + enc_run(b0, s).buf.val
            == b0.val * pow2((s.len() * 8) as nat) + bytes_val(s),
        forall|i: int| 0 <= i < enc_run(b0, s).syms.len() ==> #[trigger] enc_run(b0, s).syms[i]
            < 8192,
    decreases s.len(),
{
    lemma2_to64();
    let r = enc_run(b0, s);
    if s.len() == 0 {
        assert(syms_val(r.syms) == 0);
        assert(pow2(0) == 1);
        assert(bytes_val(s) == 0);
        assert(b0.val * pow2(0) == b0.val);
    } else {
        let f = enc_fill(b0, s[0]);
        let n1 = (s.len() - 1) as nat;
        let total = (b0.val * 256 + s[0]) as nat;
        lemma_pow2_adds(b0.nbits, 8);
        assert(b0.val * 256 + s[0] < pow2(b0.nbits) * 256) by (nonlinear_arith)
            requires
                b0.val < pow2(b0.nbits),
                s[0] < 256,
        ;
        if b0.nbits < 5 {
            assert(enc_wf(f.buf));
            lemma_enc_run_props(f.buf, s.drop_first());
            let r1 = enc_run(f.buf, s.drop_first());
            assert(f.syms + r1.syms =~= r1.syms);
            // value: total * pow2(8 n1) + bytes_val(rest)
            //      == (b0.val * 256 + s[0]) * pow2(8 n1) + bytes_val(rest)
            lemma_pow2_adds((n1 * 8) as nat, 8);
            assert(total * pow2((n1 * 8) as nat) == b0.val * (pow2((n1 * 8) as nat) * 256) + s[0]
                * pow2((n1 * 8) as nat)) by (nonlinear_arith)
                requires
                    total == b0.val * 256 + s[0],
            ;
            assert(b0.val * pow2((s.len() * 8) as nat) == b0.val * (pow2((n1 * 8) as nat) * 256));
            assert(bytes_val(s) == s[0] * pow2((n1 * 8) as nat) + bytes_val(s.drop_first()));
            assert(syms_val(r.syms) * pow2(r.buf.nbits) + r.buf.val == total * pow2(
                (n1 * 8) as nat,
            ) + bytes_val(s.drop_first()));
        } else {
            let keep = (b0.nbits - 5) as nat;
            lemma_pow2_adds(keep, 13);
            lemma_pow2_pos(keep);
            let sym = total / pow2(keep);
            let rest_val = total % pow2(keep);
            lemma_fundamental_div_mod(total as int, pow2(keep) as int);
            assert(sym < 8192) by (nonlinear_arith)
                requires
                    total < pow2(keep) * 8192,
                    pow2(keep) > 0,
                    total == pow2(keep) * (total / pow2(keep)) + total % pow2(keep),
                    total % pow2(keep) >= 0,
                    sym == total / pow2(keep),
            ;
            assert(enc_wf(f.buf));
            lemma_enc_run_props(f.buf, s.drop_first());
            let r1 = enc_run(f.buf, s.drop_first());
            assert(r.syms =~= seq![sym] + r1.syms);
            assert(r.syms[0] == sym);
            assert((seq![sym] + r1.syms).drop_first() =~= r1.syms);
            // syms_val(r.syms) == sym * pow2(13 * r1.syms.len()) + syms_val(r1.syms)
            let k1 = r1.syms.len();
            assert(syms_val(r.syms) == sym * pow2((k1 * 13) as nat) + syms_val(r1.syms));
            // bit counts
            assert(k1 * 13 + r1.buf.nbits == keep + n1 * 8);
            // value chain
            let m = r.buf.nbits;
            lemma_pow2_adds((k1 * 13) as nat, m);
            assert((sym * pow2((k1 * 13) as nat) + syms_val(r1.syms)) * pow2(m) == sym * (pow2(
                (k1 * 13) as nat,
            ) * pow2(m)) + syms_val(r1.syms) * pow2(m)) by (nonlinear_arith);
            lemma_pow2_adds(keep, (n1 * 8) as nat);
            assert(pow2((k1 * 13) as nat) * pow2(m) == pow2(keep) * pow2((n1 * 8) as nat));
            // r1 value equation times nothing: syms_val(r1)*pow2(m) + r1.val
            //   == rest_val * pow2(8 n1) + bytes_val(rest)
            assert(sym * (pow2(keep) * pow2((n1 * 8) as nat)) == (sym * pow2(keep)) * pow2(
                (n1 * 8) as nat,
            )) by (nonlinear_arith);
            assert((sym * pow2(keep)) * pow2((n1 * 8) as nat) + rest_val * pow2((n1 * 8) as nat)
                == total * pow2((n1 * 8) as nat)) by (nonlinear_arith)
                requires
                    sym * pow2(keep) + rest_val == total,
            ;
            lemma_pow2_adds((n1 * 8) as nat, 8);
            assert(total * pow2((n1 * 8) as nat) == b0.val * (pow2((n1 * 8) as nat) * 256) + s[0]
                * pow2((n1 * 8) as nat)) by (nonlinear_arith)
                requires
                    total == b0.val * 256 + s[0],
            ;
        }
    }
}

/// Bit conservation: the bits emitted as symbols plus the leftover bits at
/// finalize add up to exactly eight per input byte.
pub proof fn lemma_bit_conservation(s: Seq<u8>)
    ensures
        enc_run(buf_empty(), s).syms.len() * 13 + enc_run(buf_empty(), s).buf.nbits == s.len() * 8,
{
    lemma2_to64();
    lemma_enc_run_props(buf_empty(), s);
}

/// The value of a concatenation: the front shifted past the back's bits.
proof fn lemma_bytes_val_concat(a: Seq<u8>, b: Seq<u8>)
    ensures
        bytes_val(a + b) == bytes_val(a) * pow2((b.len() * 8) as nat) + bytes_val(b),
    decreases a.len(),
{
    lemma2_to64();
    if a.len() == 0 {
        assert(a + b =~= b);
        assert(bytes_val(a) == 0);
    } else {
        assert((a + b).drop_first() =~= a.drop_first() + b);
        lemma_bytes_val_concat(a.drop_first(), b);
        let n1 = (a.len() - 1) as nat;
        let nb = b.len() as nat;
        assert((a + b)[0] == a[0]);
        assert(bytes_val(a) == a[0] * pow2((n1 * 8) as nat) + bytes_val(a.drop_first()));
        assert(bytes_val(a + b) == a[0] * pow2(((n1 + nb) * 8) as nat) + bytes_val(
            a.drop_first() + b,
        ));
        assert(bytes_val(a + b) == a[0] * pow2(((n1 + nb) * 8) as nat) + bytes_val(
            a.drop_first(),
        ) * pow2((nb * 8) as nat) + bytes_val(b));
        lemma_pow2_adds((n1 * 8) as nat, (nb * 8) as nat);
        assert(a[0] * pow2(((n1 + nb) * 8) as nat) == a[0] * (pow2((n1 * 8) as nat) * pow2(
            (nb * 8) as nat,
        )));
        assert(a[0] * (pow2((n1 * 8) as nat) * pow2((nb * 8) as nat)) == (a[0] * pow2(
            (n1 * 8) as nat,
        )) * pow2((nb * 8) as nat)) by (nonlinear_arith);
        assert((a[0] * pow2((n1 * 8) as nat) + bytes_val(a.drop_first())) * pow2((nb * 8) as nat)
            == (a[0] * pow2((n1 * 8) as nat)) * pow2((nb * 8) as nat) + bytes_val(a.drop_first())
            * pow2((nb * 8) as nat)) by (nonlinear_arith);
    }
}

/// One 13-bit unit through the decode-side buffer conserves the bit string.
proof fn lemma_dec_fill_props(b: BufSt, x: nat)
    requires
        dec_wf(b),
        x < 8192,
    ensures
        dec_wf(dec_fill(b, x).0),
        dec_fill(b, x).1.len() * 8 + dec_fill(b, x).0.nbits == b.nbits + 13,
        bytes_val(dec_fill(b, x).1) * pow2(dec_fill(b, x).0.nbits) + dec_fill(b, x).0.val == b.val
            * 8192 + x,
{
    lemma2_to64();
    let total = (b.val * 8192 + x) as nat;
    lemma_pow2_adds(b.nbits, 13);
    assert(total < pow2(b.nbits) * 8192) by (nonlinear_arith)
        requires
            b.val < pow2(b.nbits),
            x < 8192,
            total == b.val * 8192 + x,
    ;
    assert(bytes_val(Seq::<u8>::empty()) == 0);
    if b.nbits <= 2 {
        let keep = b.nbits + 5;
        lemma_pow2_pos(keep);
        lemma_pow2_adds(keep, 8);
        let q = total / pow2(keep);
        lemma_fundamental_div_mod(total as int, pow2(keep) as int);
        vstd::arithmetic::div_mod::lemma_multiply_divide_lt(total as int, pow2(keep) as int, 256);
        lemma_small_mod(q, 256);
        assert(dec_fill(b, x).1 =~= seq![(q % 256) as u8]);
        assert(seq![(q % 256) as u8].drop_first() =~= Seq::<u8>::empty());
        assert(bytes_val(seq![(q % 256) as u8]) == ((q % 256) as u8) * pow2(0) + bytes_val(
            Seq::<u8>::empty(),
        ));
        assert(bytes_val(dec_fill(b, x).1) == q);
        assert(q * pow2(keep) + total % pow2(keep) == total) by (nonlinear_arith)
            requires
                total == pow2(keep) * q + total % pow2(keep),
        ;
    } else {
        let keep = (b.nbits - 3) as nat;
        lemma_pow2_pos(keep);
        lemma_pow2_adds(keep, 8);
        lemma_pow2_adds((keep + 8) as nat, 8);
        let qq = total / pow2(keep);
        let q1 = total / pow2((keep + 8) as nat);
        let q2 = qq % 256;
        lemma_fundamental_div_mod(total as int, pow2(keep) as int);
        vstd::arithmetic::div_mod::lemma_div_denominator(total as int, pow2(keep) as int, 256);
        assert(q1 == qq / 256);
        lemma_fundamental_div_mod(qq as int, 256);
        vstd::arithmetic::div_mod::lemma_multiply_divide_lt(
            total as int,
            pow2((keep + 8) as nat) as int,
            256,
        );
        lemma_small_mod(q1, 256);
        assert(dec_fill(b, x).1 =~= seq![(q1 % 256) as u8, (q2 % 256) as u8]);
        lemma_small_mod(q2, 256);
        assert(seq![(q1 % 256) as u8, (q2 % 256) as u8].drop_first() =~= seq![(q2 % 256) as u8]);
        assert(seq![(q2 % 256) as u8].drop_first() =~= Seq::<u8>::empty());
        assert(bytes_val(seq![(q2 % 256) as u8]) == ((q2 % 256) as u8) * pow2(0) + bytes_val(
            Seq::<u8>::empty(),
        ));
        assert(bytes_val(seq![(q1 % 256) as u8, (q2 % 256) as u8]) == ((q1 % 256) as u8) * pow2(8)
            + bytes_val(seq![(q2 % 256) as u8]));
        assert(bytes_val(dec_fill(b, x).1) == q1 * 256 + q2);
        assert(q1 * 256 + q2 == qq);
        assert(qq * pow2(keep) + total % pow2(keep) == total) by (nonlinear_arith)
            requires
                total == pow2(keep) * qq + total % pow2(keep),
        ;
    }
}

/// The one master fact of the decode side, for a run of ordinary symbols:
/// the symbol bits that went in stand, in order, in the bytes emitted
/// followed by the bits kept; the stream stays open.
pub proof fn lemma_dec_run_ordinary(st: DecSt, cs: Seq<u32>)
    requires
        dec_wf(st.buf),
        !st.closed,
        forall|i: int|
            0 <= i < cs.len() ==> BASE_OFFSET <= #[trigger] cs[i] && cs[i] < ENDING_OFFSET,
    ensures
        dec_wf(dec_run(st, cs).st.buf),
        !dec_run(st, cs).st.closed,
        dec_run(st, cs).out.len() * 8 + dec_run(st, cs).st.buf.nbits == st.buf.nbits + cs.len()
            * 13,
        bytes_val(dec_run(st, cs).out) * pow2(dec_run(st, cs).st.buf.nbits) + dec_run(
            st,
            cs,
        ).st.buf.val == st.buf.val * pow2((cs.len() * 13) as nat) + syms_val(cp_sym_vals(cs)),
    decreases cs.len(),
{
    lemma2_to64();
    let r = dec_run(st, cs);
    if cs.len() == 0 {
        assert(syms_val(cp_sym_vals(cs)) == 0);
        assert(bytes_val(r.out) == 0);
        assert(st.buf.val * pow2(0) == st.buf.val);
    } else {
        let v0 = (cs[0] - BASE_OFFSET) as nat;
        let f = dec_fill(st.buf, v0);
        lemma_dec_fill_props(st.buf, v0);
        let st1 = DecSt { buf: f.0, closed: false };
        lemma_dec_run_ordinary(st1, cs.drop_first());
        let r1 = dec_run(st1, cs.drop_first());
        let n1 = (cs.len() - 1) as nat;
        let m = r1.st.buf.nbits;
        assert(r.out =~= f.1 + r1.out);
        lemma_bytes_val_concat(f.1, r1.out);
        // lengths
        assert(r.out.len() * 8 + m == st.buf.nbits + cs.len() * 13);
        // values
        let vals = cp_sym_vals(cs);
        assert(vals.drop_first() =~= cp_sym_vals(cs.drop_first()));
        assert(vals[0] == v0);
        assert(syms_val(vals) == v0 * pow2((n1 * 13) as nat) + syms_val(cp_sym_vals(
            cs.drop_first(),
        )));
        lemma_pow2_adds((r1.out.len() * 8) as nat, m);
        assert(bytes_val(r.out) * pow2(m) == bytes_val(f.1) * (pow2((r1.out.len() * 8) as nat)
            * pow2(m)) + bytes_val(r1.out) * pow2(m)) by (nonlinear_arith)
            requires
                bytes_val(r.out) == bytes_val(f.1) * pow2((r1.out.len() * 8) as nat) + bytes_val(
                    r1.out,
                ),
        ;
        lemma_pow2_adds(f.0.nbits, (n1 * 13) as nat);
        assert(r1.out.len() * 8 + m == f.0.nbits + n1 * 13);
        assert(bytes_val(f.1) * (pow2((r1.out.len() * 8) as nat) * pow2(m)) == bytes_val(f.1) * (
        pow2(f.0.nbits) * pow2((n1 * 13) as nat)));
        assert(bytes_val(f.1) * (pow2(f.0.nbits) * pow2((n1 * 13) as nat)) == (bytes_val(f.1)
            * pow2(f.0.nbits)) * pow2((n1 * 13) as nat)) by (nonlinear_arith);
        assert((bytes_val(f.1) * pow2(f.0.nbits) + f.0.val) * pow2((n1 * 13) as nat) == (bytes_val(
            f.1,
        ) * pow2(f.0.nbits)) * pow2((n1 * 13) as nat) + f.0.val * pow2((n1 * 13) as nat))
            by (nonlinear_arith);
        assert((st.buf.val * 8192 + v0) * pow2((n1 * 13) as nat) == st.buf.val * (8192 * pow2(
            (n1 * 13) as nat,
        )) + v0 * pow2((n1 * 13) as nat)) by (nonlinear_arith);
        lemma_pow2_adds((n1 * 13) as nat, 13);
        assert(8192 * pow2((n1 * 13) as nat) == pow2((cs.len() * 13) as nat));
        assert(bytes_val(r.out) * pow2(m) + r.st.buf.val == (bytes_val(f.1) * pow2(f.0.nbits))
            * pow2((n1 * 13) as nat) + f.0.val * pow2((n1 * 13) as nat) + syms_val(cp_sym_vals(
            cs.drop_first(),
        )));
        assert((bytes_val(f.1) * pow2(f.0.nbits)) * pow2((n1 * 13) as nat) + f.0.val * pow2(
            (n1 * 13) as nat,
        ) == (st.buf.val * 8192 + v0) * pow2((n1 * 13) as nat));
        assert((st.buf.val * 8192 + v0) * pow2((n1 * 13) as nat) == st.buf.val * pow2(
            (cs.len() * 13) as nat,
        ) + v0 * pow2((n1 * 13) as nat));
        assert(bytes_val(r.out) * pow2(m) + r.st.buf.val == st.buf.val * pow2(
            (cs.len() * 13) as nat,
        ) + syms_val(cp_sym_vals(cs)));
    }
}

/// Chunk invariance of the encode side: feeding two chunks one after the
/// other leaves the same buffer and emits the same symbols, in the same
/// order, as feeding their concatenation at once.
pub proof fn lemma_enc_chunks(b0: BufSt, s1: Seq<u8>, s2: Seq<u8>)
    ensures
        enc_run(b0, s1 + s2).buf == enc_run(enc_run(b0, s1).buf, s2).buf,
        enc_run(b0, s1 + s2).syms =~= enc_run(b0, s1).syms + enc_run(enc_run(b0, s1).buf, s2).syms,
    decreases s1.len(),
{
    if s1.len() == 0 {
        assert(s1 + s2 =~= s2);
        assert(enc_run(b0, s1).syms + enc_run(enc_run(b0, s1).buf, s2).syms =~= enc_run(
            enc_run(b0, s1).buf,
            s2,
        ).syms);
    } else {
        let f = enc_fill(b0, s1[0]);
        assert((s1 + s2).drop_first() =~= s1.drop_first() + s2);
        assert((s1 + s2)[0] == s1[0]);
        lemma_enc_chunks(f.buf, s1.drop_first(), s2);
        assert(f.syms + (enc_run(f.buf, s1.drop_first()).syms + enc_run(
            enc_run(b0, s1).buf,
            s2,
        ).syms) =~= (f.syms + enc_run(f.buf, s1.drop_first()).syms) + enc_run(
            enc_run(b0, s1).buf,
            s2,
        ).syms);
    }
}

/// Chunk invariance of the decode side, for chunks of ordinary symbols:
/// feeding two chunks one after the other leaves the same state and emits
/// the same bytes as feeding their concatenation at once.
pub proof fn lemma_dec_chunks(st: DecSt, cs1: Seq<u32>, cs2: Seq<u32>)
    requires
        forall|i: int|
            0 <= i < cs1.len() ==> BASE_OFFSET <= #[trigger] cs1[i] && cs1[i] < ENDING_OFFSET,
    ensures
        dec_run(st, cs1 + cs2).st == dec_run(dec_run(st, cs1).st, cs2).st,
        dec_run(st, cs1 + cs2).out =~= dec_run(st, cs1).out + dec_run(dec_run(st, cs1).st, cs2).out,
    decreases cs1.len(),
{
    if cs1.len() == 0 {
        assert(cs1 + cs2 =~= cs2);
        assert(dec_run(st, cs1).out + dec_run(dec_run(st, cs1).st, cs2).out =~= dec_run(
            dec_run(st, cs1).st,
            cs2,
        ).out);
    } else {
        if st.closed {
            assert(dec_run(st, cs1 + cs2).st == st);
            assert(dec_run(st, cs1 + cs2).out =~= Seq::<u8>::empty());
            assert(dec_run(st, cs1).out + dec_run(dec_run(st, cs1).st, cs2).out =~= dec_run(
                st,
                cs2,
            ).out);
        } else {
            let f = dec_fill(st.buf, (cs1[0] - BASE_OFFSET) as nat);
            let st1 = DecSt { buf: f.0, closed: false };
            assert((cs1 + cs2).drop_first() =~= cs1.drop_first() + cs2);
            assert((cs1 + cs2)[0] == cs1[0]);
            lemma_dec_chunks(st1, cs1.drop_first(), cs2);
            assert(f.1 + (dec_run(st1, cs1.drop_first()).out + dec_run(
                dec_run(st, cs1).st,
                cs2,
            ).out) =~= (f.1 + dec_run(st1, cs1.drop_first()).out) + dec_run(
                dec_run(st, cs1).st,
                cs2,
            ).out);
        }
    }
}

/// Truncation detection: after a run of ordinary symbols alone (a stream cut
/// off before its terminal symbol), the decoder keeps exactly the trailing
/// `(13 n) mod 8` bits of the symbol stream.  Whenever those bits are not all
/// zero, the kept value is nonzero, so `finish` reports a leftover byte.
pub proof fn lemma_truncation_detected(cs: Seq<u32>)
    requires
        forall|i: int|
            0 <= i < cs.len() ==> BASE_OFFSET <= #[trigger] cs[i] && cs[i] < ENDING_OFFSET,
    ensures
        dec_run(dec_init(), cs).st.buf.nbits == (cs.len() * 13) % 8,
        dec_run(dec_init(), cs).st.buf.val == syms_val(cp_sym_vals(cs)) % pow2(
            ((cs.len() * 13) % 8) as nat,
        ),
{
    lemma2_to64();
    lemma_dec_run_ordinary(dec_init(), cs);
    let r = dec_run(dec_init(), cs);
    let m = r.st.buf.nbits;
    let sv = syms_val(cp_sym_vals(cs));
    assert(bytes_val(r.out) * pow2(m) + r.st.buf.val == sv);
    lemma_pow2_pos(m);
    lemma_fundamental_div_mod_converse(
        sv as int,
        pow2(m) as int,
        bytes_val(r.out) as int,
        r.st.buf.val as int,
    );
    lemma_fundamental_div_mod_converse(
        (cs.len() * 13) as int,
        8,
        ((cs.len() * 13 - m) / 8) as int,
        m as int,
    );
}

/// Round trip: decoding the wire stream of a one-shot encode of `s` yields
/// exactly `s` back, closes the stream, and leaves no unresolved bits.  The
/// terminal symbol's alignment shift assumes a fixed relation between the
/// encoder's leftover bit count and the decoder's pending bit count, which
/// holds exactly for byte lengths of 1, 4 or 9 modulo 13; the law is stated
/// for those lengths.
pub proof fn lemma_round_trip(s: Seq<u8>)
    requires
        s.len() % 13 == 1 || s.len() % 13 == 4 || s.len() % 13 == 9,
    ensures
        dec_run(dec_init(), encode_stream(s)).out =~= s,
        dec_run(dec_init(), encode_stream(s)).st.closed,
        dec_run(dec_init(), encode_stream(s)).st.buf.val == 0,
{
    lemma2_to64();
    let e = enc_run(buf_empty(), s);
    lemma_enc_run_props(buf_empty(), s);
    let t = e.buf.nbits;
    let k = e.syms.len();
    let ll = s.len();
    let c = ll % 13;
    let q = ll / 13;
    lemma_fundamental_div_mod(ll as int, 13);
    if c == 1 {
        lemma_fundamental_div_mod_converse((ll * 8) as int, 13, (q * 8) as int, 8);
    } else if c == 4 {
        lemma_fundamental_div_mod_converse((ll * 8) as int, 13, (q * 8 + 2) as int, 6);
    } else {
        lemma_fundamental_div_mod_converse((ll * 8) as int, 13, (q * 8 + 5) as int, 7);
    }
    lemma_fundamental_div_mod_converse((ll * 8) as int, 13, k as int, t as int);
    assert(6 <= t && t <= 8);
    // the ordinary part of the wire stream
    let cs = sym_cps(e.syms);
    assert forall|i: int| 0 <= i < cs.len() implies BASE_OFFSET <= #[trigger] cs[i] && cs[i]
        < ENDING_OFFSET by {
        assert(e.syms[i] < 8192);
        assert(cs[i] == (e.syms[i] + BASE_OFFSET) as u32);
    }
    assert(cp_sym_vals(cs) =~= e.syms);
    lemma_dec_run_ordinary(dec_init(), cs);
    let d1 = dec_run(dec_init(), cs);
    let m = d1.st.buf.nbits;
    assert(buf_empty().val * pow2((cs.len() * 13) as nat) == 0);
    assert(buf_empty().val * pow2((s.len() * 8) as nat) == 0);
    assert(bytes_val(d1.out) * pow2(m) + d1.st.buf.val == syms_val(e.syms));
    // the pending counts on the two sides complete one byte
    assert(d1.out.len() * 8 + m + t == ll * 8);
    assert(m + t == (ll - d1.out.len()) * 8);
    assert(m + t == 8);
    // the terminal code point
    crate::codec::lemma_pow2_le(t, 12);
    let term = (ENDING_OFFSET + e.buf.val) as u32;
    assert(term == ENDING_OFFSET + e.buf.val);
    assert(encode_stream(s) == cs.push(term));
    assert(cs.push(term) =~= cs + seq![term]);
    lemma_dec_chunks(dec_init(), cs, seq![term]);
    // one terminal step from d1.st
    let st1 = d1.st;
    let shift = (m + 5) as nat;
    lemma_pow2_adds(t, shift);
    assert(pow2(t) * pow2(shift) == 8192);
    lemma_pow2_pos(shift);
    lemma_pow2_pos(t);
    assert(e.buf.val * pow2(shift) < pow2(t) * pow2(shift)) by (nonlinear_arith)
        requires
            e.buf.val < pow2(t),
            pow2(shift) > 0,
    ;
    let x = (e.buf.val * pow2(shift)) as nat;
    lemma_small_mod(x, 8192);
    let f = dec_fill(st1.buf, x);
    lemma_dec_fill_props(st1.buf, x);
    assert(seq![term].len() == 1);
    assert(seq![term][0] == term);
    assert(dec_run(st1, seq![term]).st == DecSt { buf: f.0, closed: true });
    assert(dec_run(st1, seq![term]).out =~= f.1);
    // the one byte the terminal step emits completes the input exactly
    let kk = (st1.buf.val * pow2(t) + e.buf.val) as nat;
    assert(st1.buf.val * 8192 + x == kk * pow2(shift)) by (nonlinear_arith)
        requires
            8192 == pow2(t) * pow2(shift),
            x == e.buf.val * pow2(shift),
            kk == st1.buf.val * pow2(t) + e.buf.val,
    ;
    assert(f.0.nbits == shift);
    assert(f.1.len() == 1);
    vstd::arithmetic::div_mod::lemma_mod_multiples_basic(kk as int, pow2(shift) as int);
    assert(f.0.val == (kk * pow2(shift)) % pow2(shift));
    assert(f.0.val == 0);
    assert(bytes_val(f.1) * pow2(shift) == kk * pow2(shift));
    assert(bytes_val(f.1) == kk) by (nonlinear_arith)
        requires
            bytes_val(f.1) * pow2(shift) == kk * pow2(shift),
            pow2(shift) > 0,
    ;
    // assemble the decoded bytes
    let d = dec_run(dec_init(), encode_stream(s));
    assert(d.st == DecSt { buf: f.0, closed: true });
    assert(d.out =~= d1.out + f.1);
    lemma_bytes_val_concat(d1.out, f.1);
    assert(bytes_val(d.out) == bytes_val(d1.out) * 256 + kk);
    lemma_pow2_adds(m, t);
    assert(bytes_val(s) == syms_val(e.syms) * pow2(t) + e.buf.val);
    assert(syms_val(e.syms) * pow2(t) == (bytes_val(d1.out) * pow2(m) + st1.buf.val) * pow2(t));
    assert((bytes_val(d1.out) * pow2(m) + st1.buf.val) * pow2(t) == bytes_val(d1.out) * (pow2(m)
        * pow2(t)) + st1.buf.val * pow2(t)) by (nonlinear_arith);
    assert(pow2(m) * pow2(t) == 256);
    assert(bytes_val(d.out) == bytes_val(s));
    assert(d.out.len() == s.len());
    lemma_bytes_val_inj(d.out, s);
}

} // verus!
