use vstd::prelude::*;
use vstd::utf8::{
    decode_utf8, encode_utf8, encode_utf8_decode_utf8, is_ascii_chars, is_ascii_chars_encode_utf8,
    valid_utf8,
};
use crate::models::{digits_val, is_canon_u64, is_digit_byte, is_num_byte, nested_end, rec_view, skip_nested, wf_jval, wf_nested, wf_num, wf_num_bytes, wf_record, JVal, JsonVal, Record, RecordV};
use vstd::string::StrSliceExecFns;

verus! {

// ---------------------------------------------------------------------------
// Decimal numbers
//
// Records carry their ids as unsigned 64-bit integers; on the wire they are
// canonical decimal text.  `dec_digits` is the canonical text of a number and
// `digits_val` reads it back; the lemmas below make the pair a bijection
// between `u64` values and canonical digit strings.
// ---------------------------------------------------------------------------

/// Canonical decimal digits of `n`, most significant first.
pub open spec fn dec_digits(n: nat) -> Seq<u8>
    decreases n,
{
    if n < 10 {
        seq![(48 + n) as u8]
    } else {
        dec_digits(n / 10).push((48 + n % 10) as u8)
    }
}

pub proof fn lemma_dec_digits_wf(n: nat)
    ensures
        dec_digits(n).len() >= 1,
        forall|i: int| 0 <= i < dec_digits(n).len() ==> is_digit_byte(#[trigger] dec_digits(n)[i]),
        n > 0 ==> dec_digits(n)[0] != 48,
        digits_val(dec_digits(n)) == n,
    decreases n,
{
    if n < 10 {
        let s = dec_digits(n);
        assert(s == seq![(48 + n) as u8]);
        assert(s.drop_last() =~= Seq::<u8>::empty());
        assert(digits_val(s) == digits_val(s.drop_last()) * 10 + (s.last() - 48) as nat);
        assert(digits_val(Seq::<u8>::empty()) == 0);
        assert(s.last() == (48 + n) as u8);
    } else {
        lemma_dec_digits_wf(n / 10);
        let s = dec_digits(n / 10);
        let d = (48 + n % 10) as u8;
        assert(s.push(d).drop_last() == s);
        assert(s.push(d).last() == d);
        assert(dec_digits(n)[0] == s[0]);
        assert(digits_val(s.push(d)) == (n / 10) * 10 + n % 10);
    }
}

/// A nonempty all-digit string with no leading zero reads back positive.
pub proof fn lemma_digits_val_pos(s: Seq<u8>)
    requires
        s.len() >= 1,
        forall|i: int| 0 <= i < s.len() ==> is_digit_byte(#[trigger] s[i]),
        s[0] != 48,
    ensures
        digits_val(s) >= 1,
    decreases s.len(),
{
    if s.len() == 1 {
        assert(digits_val(s) == digits_val(s.drop_last()) * 10 + (s.last() - 48) as nat);
        assert(s.last() == s[0]);
    } else {
        lemma_digits_val_pos(s.drop_last());
    }
}

/// Reading canonical text and printing it again gives the text back.
pub proof fn lemma_canon_dec_digits(s: Seq<u8>)
    requires
        s.len() >= 1,
        forall|i: int| 0 <= i < s.len() ==> is_digit_byte(#[trigger] s[i]),
        s.len() == 1 || s[0] != 48,
    ensures
        dec_digits(digits_val(s)) == s,
    decreases s.len(),
{
    let v = digits_val(s);
    if s.len() == 1 {
        assert(digits_val(s) == digits_val(s.drop_last()) * 10 + (s.last() - 48) as nat);
        assert(v == (s[0] - 48) as nat);
        assert(dec_digits(v) == seq![(48 + v) as u8]);
        assert(dec_digits(v) =~= s);
    } else {
        let p = s.drop_last();
        let d = (s.last() - 48) as nat;
        assert(v == digits_val(p) * 10 + d);
        assert(p[0] == s[0]);
        lemma_digits_val_pos(p);
        assert(digits_val(p) >= 1);
        assert(v >= 10) by {
            assert(digits_val(p) * 10 >= 1 * 10) by (nonlinear_arith)
                requires digits_val(p) >= 1;
        };
        assert(v / 10 == digits_val(p) && v % 10 == d) by (nonlinear_arith)
            requires
                v == digits_val(p) * 10 + d,
                0 <= d < 10;
        lemma_canon_dec_digits(p);
        assert(dec_digits(v) == dec_digits(digits_val(p)).push((48 + d) as u8));
        assert(dec_digits(v) =~= s);
    }
}

/// The value of a digit string dominates the value of each of its prefixes.
pub proof fn lemma_digits_val_mono(s: Seq<u8>, i: int)
    requires
        0 <= i <= s.len(),
        forall|j: int| 0 <= j < s.len() ==> is_digit_byte(#[trigger] s[j]),
    ensures
        digits_val(s) >= digits_val(s.take(i)),
    decreases s.len() - i,
{
    if i < s.len() {
        assert(s.take(i + 1).drop_last() =~= s.take(i));
        assert(s.take(i + 1).last() == s[i]);
        assert(digits_val(s.take(i + 1)) == digits_val(s.take(i)) * 10 + (s[i] - 48) as nat);
        assert(digits_val(s.take(i)) * 10 >= digits_val(s.take(i))) by (nonlinear_arith);
        lemma_digits_val_mono(s, i + 1);
    } else {
        assert(s.take(i) =~= s);
    }
}

/// Canonical decimal text of a `u64`.
pub fn u64_to_dec(n: u64) -> (r: Vec<u8>)
    ensures
        r@ == dec_digits(n as nat),
    decreases n,
{
    if n < 10 {
        let mut v: Vec<u8> = Vec::new();
        v.push((48 + n) as u8);
        proof {
            assert(v@ =~= dec_digits(n as nat));
        }
        v
    } else {
        let mut v = u64_to_dec(n / 10);
        v.push((48 + n % 10) as u8);
        v
    }
}

/// Reads `t` as a canonical `u64` decimal, or reports that it is not one.
pub fn parse_canon_u64(t: &Vec<u8>) -> (r: Option<u64>)
    requires
        t@.len() >= 1,
    ensures
        match r {
            Some(n) => is_canon_u64(t@) && n as nat == digits_val(t@),
            None => !is_canon_u64(t@),
        },
{
    if t.len() > 1 && t[0] == 48 {
        return None;
    }
    let mut acc: u64 = 0;
    let mut i: usize = 0;
    while i < t.len()
        invariant
            0 <= i <= t@.len(),
            t@.len() >= 1,
            t@.len() == 1 || t@[0] != 48,
            forall|j: int| 0 <= j < i ==> is_digit_byte(#[trigger] t@[j]),
            acc as nat == digits_val(t@.take(i as int)),
        decreases t@.len() - i,
    {
        let b = t[i];
        if b < 48 || b > 57 {
            return None;
        }
        let d = (b - 48) as u64;
        if acc > (u64::MAX - d) / 10 {
            proof {
                assert(acc as nat * 10 + d as nat > u64::MAX) by (nonlinear_arith)
                    requires
                        acc > (u64::MAX - d) / 10,
                        d <= 9,
                        acc <= u64::MAX;
                assert(t@.take(i as int + 1).drop_last() =~= t@.take(i as int));
                assert(t@.take(i as int + 1).last() == t@[i as int]);
                assert(digits_val(t@.take(i as int + 1)) == acc as nat * 10 + d as nat);
                if forall|j: int| 0 <= j < t@.len() ==> is_digit_byte(#[trigger] t@[j]) {
                    lemma_digits_val_mono(t@, i as int + 1);
                    assert(digits_val(t@) > u64::MAX);
                }
            }
            return None;
        }
        proof {
            assert(acc as nat * 10 + d as nat <= u64::MAX) by (nonlinear_arith)
                requires
                    acc <= (u64::MAX - d) / 10,
                    d <= 9;
            assert(t@.take(i as int + 1).drop_last() =~= t@.take(i as int));
            assert(t@.take(i as int + 1).last() == t@[i as int]);
        }
        acc = acc * 10 + d;
        i += 1;
    }
    proof {
        assert(t@.take(t@.len() as int) =~= t@);
    }
    Some(acc)
}

// ---------------------------------------------------------------------------
// String escaping
//
// Strings are stored with the usual JSON escapes: quote, backslash, and the
// named control escapes, with `\u00XX` (lowercase hex) for the remaining
// control bytes.  Bytes at or above 0x20 other than `"` and `\` pass through
// unchanged, so multi-byte UTF-8 sequences are untouched.
// ---------------------------------------------------------------------------

/// Lowercase hex digit of a nibble.
pub open spec fn hex_digit(n: u8) -> u8 {
    if n < 10 {
        (48 + n) as u8
    } else {
        (87 + n) as u8
    }
}

/// The escape text of one content byte.
pub open spec fn esc_byte(b: u8) -> Seq<u8> {
    if b == 34 {
        seq![92u8, 34u8]
    } else if b == 92 {
        seq![92u8, 92u8]
    } else if b == 8 {
        seq![92u8, 98u8]
    } else if b == 9 {
        seq![92u8, 116u8]
    } else if b == 10 {
        seq![92u8, 110u8]
    } else if b == 12 {
        seq![92u8, 102u8]
    } else if b == 13 {
        seq![92u8, 114u8]
    } else if b < 32 {
        seq![92u8, 117u8, 48u8, 48u8, hex_digit(b / 16), hex_digit(b % 16)]
    } else {
        seq![b]
    }
}

/// The escape text of a whole byte string.
pub open spec fn esc_bytes(s: Seq<u8>) -> Seq<u8>
    decreases s.len(),
{
    if s.len() == 0 {
        Seq::<u8>::empty()
    } else {
        esc_byte(s[0]) + esc_bytes(s.drop_first())
    }
}

pub proof fn lemma_esc_bytes_push(s: Seq<u8>, b: u8)
    ensures
        esc_bytes(s.push(b)) == esc_bytes(s) + esc_byte(b),
    decreases s.len(),
{
    if s.len() == 0 {
        assert(s.push(b)[0] == b);
        assert(s.push(b).drop_first() =~= Seq::<u8>::empty());
        assert(esc_bytes(s.push(b)) == esc_byte(b) + esc_bytes(Seq::<u8>::empty()));
        assert(esc_bytes(Seq::<u8>::empty()) == Seq::<u8>::empty());
        assert(esc_bytes(s) == Seq::<u8>::empty());
        assert(esc_byte(b) + Seq::<u8>::empty() =~= Seq::<u8>::empty() + esc_byte(b));
    } else {
        assert(s.push(b).drop_first() =~= s.drop_first().push(b));
        lemma_esc_bytes_push(s.drop_first(), b);
        assert(esc_bytes(s.push(b)) == esc_byte(s[0]) + (esc_bytes(s.drop_first()) + esc_byte(b)));
        assert(esc_byte(s[0]) + (esc_bytes(s.drop_first()) + esc_byte(b)) =~= (esc_byte(s[0])
            + esc_bytes(s.drop_first())) + esc_byte(b));
    }
}

fn push_esc_byte(out: &mut Vec<u8>, b: u8)
    ensures
        final(out)@ == old(out)@ + esc_byte(b),
{
    if b == 34 {
        out.push(92);
        out.push(34);
    } else if b == 92 {
        out.push(92);
        out.push(92);
    } else if b == 8 {
        out.push(92);
        out.push(98);
    } else if b == 9 {
        out.push(92);
        out.push(116);
    } else if b == 10 {
        out.push(92);
        out.push(110);
    } else if b == 12 {
        out.push(92);
        out.push(102);
    } else if b == 13 {
        out.push(92);
        out.push(114);
    } else if b < 32 {
        out.push(92);
        out.push(117);
        out.push(48);
        out.push(48);
        let hi = b / 16;
        let lo = b % 16;
        out.push(if hi < 10 { 48 + hi } else { 87 + hi });
        out.push(if lo < 10 { 48 + lo } else { 87 + lo });
    } else {
        out.push(b);
    }
    proof {
        assert(out@ =~= old(out)@ + esc_byte(b));
    }
}

/// Appends the escape text of `s` to `out`.
fn push_esc_bytes(out: &mut Vec<u8>, s: &Vec<u8>)
    ensures
        final(out)@ == old(out)@ + esc_bytes(s@),
{
    let mut i: usize = 0;
    while i < s.len()
        invariant
            0 <= i <= s@.len(),
            out@ == old(out)@ + esc_bytes(s@.take(i as int)),
        decreases s@.len() - i,
    {
        proof {
            assert(s@.take(i as int + 1) =~= s@.take(i as int).push(s@[i as int]));
            lemma_esc_bytes_push(s@.take(i as int), s@[i as int]);
        }
        push_esc_byte(out, s[i]);
        proof {
            assert(out@ =~= old(out)@ + esc_bytes(s@.take(i as int + 1)));
        }
        i += 1;
    }
    proof {
        assert(s@.take(s@.len() as int) =~= s@);
    }
}

} // verus!

verus! {

// ---------------------------------------------------------------------------
// String bodies
//
// `spec_parse_strbody` reads the inside of a JSON string starting right
// after the opening quote and ending right after the closing quote.  It
// accepts exactly the texts that `esc_bytes` produces: the two lemmas below
// state the round trip in both directions, so a parsed string re-serializes
// to the very bytes it came from.
// ---------------------------------------------------------------------------

/// Lowercase hex digits.
pub open spec fn is_lhex(b: u8) -> bool {
    is_digit_byte(b) || (97 <= b <= 102)
}

/// Value of a lowercase hex digit.
pub open spec fn hex_val(b: u8) -> u8 {
    if b < 58 {
        (b - 48) as u8
    } else {
        (b - 87) as u8
    }
}

pub open spec fn strbody_cons(b: u8, r: Option<(Seq<u8>, int)>) -> Option<(Seq<u8>, int)> {
    match r {
        Some((c, j)) => Some((seq![b] + c, j)),
        None => None,
    }
}

/// Parses a string body at `i` (just after the opening quote); returns the
/// unescaped content and the position just after the closing quote.
pub open spec fn spec_parse_strbody(s: Seq<u8>, i: int) -> Option<(Seq<u8>, int)>
    decreases s.len() - i,
{
    if i < 0 || i >= s.len() {
        None
    } else if s[i] == 34 {
        Some((Seq::<u8>::empty(), i + 1))
    } else if s[i] == 92 {
        if i + 2 > s.len() {
            None
        } else {
            let e = s[i + 1];
            if e == 34 || e == 92 {
                strbody_cons(e, spec_parse_strbody(s, i + 2))
            } else if e == 98 {
                strbody_cons(8, spec_parse_strbody(s, i + 2))
            } else if e == 116 {
                strbody_cons(9, spec_parse_strbody(s, i + 2))
            } else if e == 110 {
                strbody_cons(10, spec_parse_strbody(s, i + 2))
            } else if e == 102 {
                strbody_cons(12, spec_parse_strbody(s, i + 2))
            } else if e == 114 {
                strbody_cons(13, spec_parse_strbody(s, i + 2))
            } else if e == 117 {
                if i + 6 > s.len() {
                    None
                } else if s[i + 2] == 48 && s[i + 3] == 48 && (s[i + 4] == 48 || s[i + 4] == 49)
                    && is_lhex(s[i + 5]) {
                    let b = ((s[i + 4] - 48) * 16 + hex_val(s[i + 5])) as u8;
                    if b == 8 || b == 9 || b == 10 || b == 12 || b == 13 {
                        None
                    } else {
                        strbody_cons(b, spec_parse_strbody(s, i + 6))
                    }
                } else {
                    None
                }
            } else {
                None
            }
        }
    } else if s[i] < 32 {
        None
    } else {
        strbody_cons(s[i], spec_parse_strbody(s, i + 1))
    }
}

pub proof fn lemma_esc_bytes_cons(b: u8, c: Seq<u8>)
    ensures
        esc_bytes(seq![b] + c) == esc_byte(b) + esc_bytes(c),
{
    assert((seq![b] + c)[0] == b);
    assert((seq![b] + c).drop_first() =~= c);
    assert((seq![b] + c).len() > 0);
}

/// Parsing the escape text of `x` (followed by the closing quote) yields
/// exactly `x`.
pub proof fn lemma_strbody_roundtrip(x: Seq<u8>, s: Seq<u8>, i: int)
    requires
        0 <= i,
        i + esc_bytes(x).len() + 1 <= s.len(),
        s.subrange(i, i + esc_bytes(x).len() as int) == esc_bytes(x),
        s[i + esc_bytes(x).len()] == 34,
    ensures
        spec_parse_strbody(s, i) == Some((x, i + esc_bytes(x).len() + 1)),
    decreases x.len(),
{
    if x.len() == 0 {
        assert(esc_bytes(x).len() == 0);
        assert(s[i] == 34);
    } else {
        let b = x[0];
        let rest = x.drop_first();
        let e = esc_byte(b);
        assert(x == seq![b] + rest) by {
            assert(x =~= seq![b] + rest);
        }
        lemma_esc_bytes_cons(b, rest);
        assert(esc_bytes(x) == e + esc_bytes(rest));
        let el = e.len() as int;
        let rl = esc_bytes(rest).len() as int;
        assert forall|k: int| 0 <= k < el implies s[i + k] == e[k] by {
            assert(s.subrange(i, i + esc_bytes(x).len() as int)[k] == s[i + k]);
            assert((e + esc_bytes(rest))[k] == e[k]);
        }
        assert forall|k: int| 0 <= k < rl implies s[i + el + k] == esc_bytes(rest)[k] by {
            assert(s.subrange(i, i + esc_bytes(x).len() as int)[el + k] == s[i + el + k]);
            assert((e + esc_bytes(rest))[el + k] == esc_bytes(rest)[k]);
        }
        assert(s.subrange(i + el, i + el + rl) =~= esc_bytes(rest));
        lemma_strbody_roundtrip(rest, s, i + el);
        if b == 34 || b == 92 {
            assert(e == seq![92u8, b]);
            assert(s[i] == 92 && s[i + 1] == b);
            assert(spec_parse_strbody(s, i) == strbody_cons(b, spec_parse_strbody(s, i + 2)));
        } else if b == 8 {
            assert(e == seq![92u8, 98u8]);
            assert(s[i] == 92 && s[i + 1] == 98);
        } else if b == 9 {
            assert(e == seq![92u8, 116u8]);
            assert(s[i] == 92 && s[i + 1] == 116);
        } else if b == 10 {
            assert(e == seq![92u8, 110u8]);
            assert(s[i] == 92 && s[i + 1] == 110);
        } else if b == 12 {
            assert(e == seq![92u8, 102u8]);
            assert(s[i] == 92 && s[i + 1] == 102);
        } else if b == 13 {
            assert(e == seq![92u8, 114u8]);
            assert(s[i] == 92 && s[i + 1] == 114);
        } else if b < 32 {
            assert(e == seq![92u8, 117u8, 48u8, 48u8, hex_digit(b / 16), hex_digit(b % 16)]);
            assert(s[i] == 92 && s[i + 1] == 117 && s[i + 2] == 48 && s[i + 3] == 48);
            assert(s[i + 4] == hex_digit(b / 16) && s[i + 5] == hex_digit(b % 16));
            assert(b / 16 < 2);
            assert(s[i + 4] == 48 || s[i + 4] == 49);
            assert(is_lhex(s[i + 5]));
            assert(hex_val(hex_digit(b % 16)) == b % 16);
            assert(((s[i + 4] - 48) * 16 + hex_val(s[i + 5])) as u8 == b);
        } else {
            assert(e == seq![b]);
            assert(s[i] == b);
        }
        assert(spec_parse_strbody(s, i) == Some((seq![b] + rest, i + el + rl + 1)));
    }
}

/// A parsed string body re-serializes to exactly the bytes consumed.
pub proof fn lemma_strbody_canon(s: Seq<u8>, i: int)
    requires
        spec_parse_strbody(s, i) is Some,
    ensures
        ({
            let (x, j) = spec_parse_strbody(s, i)->Some_0;
            &&& i < j <= s.len()
            &&& esc_bytes(x) + seq![34u8] == s.subrange(i, j)
        }),
    decreases s.len() - i,
{
    let (x, j) = spec_parse_strbody(s, i)->Some_0;
    if s[i] == 34 {
        assert(x == Seq::<u8>::empty() && j == i + 1);
        assert(esc_bytes(x) + seq![34u8] =~= s.subrange(i, j));
    } else {
        let (step, b): (int, u8) = if s[i] == 92 {
            let e = s[i + 1];
            if e == 34 || e == 92 {
                (2, e)
            } else if e == 98 {
                (2, 8)
            } else if e == 116 {
                (2, 9)
            } else if e == 110 {
                (2, 10)
            } else if e == 102 {
                (2, 12)
            } else if e == 114 {
                (2, 13)
            } else {
                (6, ((s[i + 4] - 48) * 16 + hex_val(s[i + 5])) as u8)
            }
        } else {
            (1, s[i])
        };
        assert(spec_parse_strbody(s, i) == strbody_cons(b, spec_parse_strbody(s, i + step)));
        lemma_strbody_canon(s, i + step);
        let (c, j2) = spec_parse_strbody(s, i + step)->Some_0;
        assert(x == seq![b] + c && j == j2);
        lemma_esc_bytes_cons(b, c);
        assert(esc_byte(b) =~= s.subrange(i, i + step)) by {
            if s[i] == 92 && s[i + 1] == 117 {
                assert(b < 32);
                assert(b / 16 == (s[i + 4] - 48) as u8 && b % 16 == hex_val(s[i + 5])) by {
                    assert(((s[i + 4] - 48) * 16 + hex_val(s[i + 5])) / 16 == (s[i + 4] - 48)
                        && ((s[i + 4] - 48) * 16 + hex_val(s[i + 5])) % 16 == hex_val(s[i + 5]))
                        by (nonlinear_arith)
                        requires
                            s[i + 4] == 48 || s[i + 4] == 49,
                            is_lhex(s[i + 5]),
                            hex_val(s[i + 5]) < 16,
                    ;
                }
                assert(hex_digit(b / 16) == s[i + 4]);
                assert(hex_digit(b % 16) == s[i + 5]);
            }
        }
        assert(esc_bytes(x) + seq![34u8] =~= s.subrange(i, i + step) + (esc_bytes(c)
            + seq![34u8]));
        assert(s.subrange(i, i + step) + s.subrange(i + step, j) =~= s.subrange(i, j));
    }
}

/// Executable string-body parser; see `spec_parse_strbody`.
pub fn parse_strbody(s: &Vec<u8>, start: usize) -> (r: Option<(Vec<u8>, usize)>)
    ensures
        match r {
            Some((c, j)) => spec_parse_strbody(s@, start as int) == Some((c@, j as int)),
            None => spec_parse_strbody(s@, start as int) is None,
        },
{
    let mut acc: Vec<u8> = Vec::new();
    let mut cur: usize = start;
    loop
        invariant
            start <= cur,
            spec_parse_strbody(s@, start as int) == (match spec_parse_strbody(s@, cur as int) {
                Some((c, j)) => Some((acc@ + c, j)),
                None => None::<(Seq<u8>, int)>,
            }),
        decreases s@.len() - cur,
    {
        if cur >= s.len() {
            return None;
        }
        let b = s[cur];
        if b == 34 {
            proof {
                assert(acc@ + Seq::<u8>::empty() =~= acc@);
            }
            return Some((acc, cur + 1));
        } else if b == 92 {
            if s.len() - cur < 2 {
                return None;
            }
            let e = s[cur + 1];
            let unesc: u8 = if e == 34 || e == 92 {
                e
            } else if e == 98 {
                8
            } else if e == 116 {
                9
            } else if e == 110 {
                10
            } else if e == 102 {
                12
            } else if e == 114 {
                13
            } else if e == 117 {
                if s.len() - cur < 6 {
                    return None;
                }
                let h = s[cur + 4];
                let l = s[cur + 5];
                if !(s[cur + 2] == 48 && s[cur + 3] == 48 && (h == 48 || h == 49) && ((48 <= l
                    && l <= 57) || (97 <= l && l <= 102))) {
                    return None;
                }
                let v = (h - 48) * 16 + (if l < 58 {
                    l - 48
                } else {
                    l - 87
                });
                if v == 8 || v == 9 || v == 10 || v == 12 || v == 13 {
                    return None;
                }
                v
            } else {
                return None;
            };
            let step: usize = if e == 117 {
                6
            } else {
                2
            };
            proof {
                assert(spec_parse_strbody(s@, cur as int) == strbody_cons(
                    unesc,
                    spec_parse_strbody(s@, cur as int + step as int),
                ));
                assert(forall|c: Seq<u8>| (acc@.push(unesc)) + c =~= acc@ + (seq![unesc] + c));
            }
            acc.push(unesc);
            cur = cur + step;
        } else if b < 32 {
            return None;
        } else {
            proof {
                assert(spec_parse_strbody(s@, cur as int) == strbody_cons(
                    b,
                    spec_parse_strbody(s@, cur as int + 1),
                ));
                assert(forall|c: Seq<u8>| (acc@.push(b)) + c =~= acc@ + (seq![b] + c));
            }
            acc.push(b);
            cur = cur + 1;
        }
    }
}

} // verus!

verus! {

// ---------------------------------------------------------------------------
// JSON values
// ---------------------------------------------------------------------------

pub open spec fn null_bytes() -> Seq<u8> {
    seq![110u8, 117u8, 108u8, 108u8]
}

pub open spec fn true_bytes() -> Seq<u8> {
    seq![116u8, 114u8, 117u8, 101u8]
}

pub open spec fn false_bytes() -> Seq<u8> {
    seq![102u8, 97u8, 108u8, 115u8, 101u8]
}

/// Serialized bytes of one JSON value.
pub open spec fn ser_jval(v: JVal) -> Seq<u8> {
    match v {
        JVal::Null => null_bytes(),
        JVal::Bool(b) => if b {
            true_bytes()
        } else {
            false_bytes()
        },
        JVal::UInt(n) => dec_digits(n as nat),
        JVal::Num(t) => encode_utf8(t),
        JVal::Str(s) => seq![34u8] + esc_bytes(encode_utf8(s)) + seq![34u8],
        JVal::Nested(t) => encode_utf8(t),
    }
}

/// End of the maximal run of number bytes starting at `i`.
pub open spec fn num_end(s: Seq<u8>, i: int) -> int
    decreases s.len() - i,
{
    if i < 0 || i >= s.len() {
        i
    } else if is_num_byte(s[i]) {
        num_end(s, i + 1)
    } else {
        i
    }
}

pub proof fn lemma_num_end_range(s: Seq<u8>, i: int, j: int)
    requires
        0 <= i <= j <= s.len(),
        forall|k: int| i <= k < j ==> is_num_byte(#[trigger] s[k]),
        j == s.len() || !is_num_byte(s[j]),
    ensures
        num_end(s, i) == j,
    decreases j - i,
{
    if i < j {
        lemma_num_end_range(s, i + 1, j);
    }
}

/// Parses one JSON value at `i`.
pub open spec fn spec_parse_jval(s: Seq<u8>, i: int) -> Option<(JVal, int)> {
    if i < 0 || i >= s.len() {
        None
    } else {
        let b = s[i];
        if b == 110 {
            if i + 4 <= s.len() && s.subrange(i, i + 4) == null_bytes() {
                Some((JVal::Null, i + 4))
            } else {
                None
            }
        } else if b == 116 {
            if i + 4 <= s.len() && s.subrange(i, i + 4) == true_bytes() {
                Some((JVal::Bool(true), i + 4))
            } else {
                None
            }
        } else if b == 102 {
            if i + 5 <= s.len() && s.subrange(i, i + 5) == false_bytes() {
                Some((JVal::Bool(false), i + 5))
            } else {
                None
            }
        } else if b == 34 {
            match spec_parse_strbody(s, i + 1) {
                Some((c, j)) => if valid_utf8(c) {
                    Some((JVal::Str(decode_utf8(c)), j))
                } else {
                    None
                },
                None => None,
            }
        } else if b == 123 || b == 91 {
            match nested_end(s, i) {
                Some(j) => if i < j <= s.len() && valid_utf8(s.subrange(i, j)) {
                    Some((JVal::Nested(decode_utf8(s.subrange(i, j))), j))
                } else {
                    None
                },
                None => None,
            }
        } else if b == 45 || is_digit_byte(b) {
            let j = num_end(s, i);
            let t = s.subrange(i, j);
            if is_canon_u64(t) {
                Some((JVal::UInt(digits_val(t) as u64), j))
            } else {
                Some((JVal::Num(decode_utf8(t)), j))
            }
        } else {
            None
        }
    }
}

/// All-ASCII byte strings are valid UTF-8 and decode byte by byte.
pub proof fn lemma_ascii_bytes(t: Seq<u8>)
    requires
        forall|k: int| 0 <= k < t.len() ==> #[trigger] t[k] < 128,
    ensures
        valid_utf8(t),
        is_ascii_chars(decode_utf8(t)),
        encode_utf8(decode_utf8(t)) == t,
        decode_utf8(t).len() == t.len(),
        forall|k: int| 0 <= k < t.len() ==> #[trigger] decode_utf8(t)[k] == t[k] as char,
{
    let cs = Seq::<char>::new(t.len(), |k: int| t[k] as char);
    assert(is_ascii_chars(cs)) by {
        assert forall|i: int| 0 <= i < cs.len() implies '\0' <= #[trigger] cs[i] <= '\u{7f}' by {
            assert(cs[i] == t[i] as char);
            assert(t[i] < 128);
            assert((t[i] as char) as u32 == t[i] as u32);
        }
    }
    vstd::utf8::is_ascii_chars_encode_utf8(cs);
    assert(encode_utf8(cs) =~= t) by {
        assert(forall|i: int| 0 <= i < cs.len() ==> #[trigger] cs[i] as u8 == t[i]);
    }
    vstd::utf8::encode_utf8_valid_utf8(cs);
    vstd::utf8::encode_utf8_decode_utf8(cs);
    assert(decode_utf8(t) == cs);
}

/// Parsing the serialization of a well-formed value, in a context where the
/// value is followed by a separator or nothing, yields the value back.
pub proof fn lemma_jval_roundtrip(v: JVal, s: Seq<u8>, i: int)
    requires
        wf_jval(v),
        0 <= i,
        i + ser_jval(v).len() <= s.len(),
        s.subrange(i, i + ser_jval(v).len() as int) == ser_jval(v),
        i + ser_jval(v).len() == s.len() || s[i + ser_jval(v).len()] == 44 || s[i + ser_jval(
            v,
        ).len()] == 125,
    ensures
        spec_parse_jval(s, i) == Some((v, i + ser_jval(v).len())),
{
    let e = ser_jval(v);
    let el = e.len() as int;
    assert(forall|k: int| 0 <= k < el ==> s[i + k] == #[trigger] e[k]) by {
        assert(forall|k: int|
            0 <= k < el ==> #[trigger] s.subrange(i, i + el)[k] == s[i + k]);
    }
    match v {
        JVal::Null => {
            assert(s[i] == 110);
            assert(s.subrange(i, i + 4) =~= null_bytes());
        },
        JVal::Bool(b) => {
            if b {
                assert(s[i] == 116);
                assert(s.subrange(i, i + 4) =~= true_bytes());
            } else {
                assert(s[i] == 102);
                assert(s.subrange(i, i + 5) =~= false_bytes());
            }
        },
        JVal::UInt(n) => {
            lemma_dec_digits_wf(n as nat);
            assert(s[i] == e[0]);
            assert(is_digit_byte(s[i]));
            assert(s[i] != 110 && s[i] != 116 && s[i] != 102 && s[i] != 34);
            assert forall|k: int| i <= k < i + el implies is_num_byte(s[k]) by {
                assert(s[k] == e[k - i]);
                assert(is_digit_byte(dec_digits(n as nat)[k - i]));
            }
            lemma_num_end_range(s, i, i + el);
            let t = s.subrange(i, i + el);
            assert(t =~= e);
            assert(is_canon_u64(t));
            lemma_canon_dec_digits(t);
        },
        JVal::Num(tc) => {
            let tb = encode_utf8(tc);
            assert(e == tb);
            assert(forall|k: int| 0 <= k < tb.len() ==> #[trigger] tb[k] < 128) by {
                vstd::utf8::is_ascii_chars_encode_utf8(tc);
                assert(forall|k: int|
                    0 <= k < tc.len() ==> #[trigger] tc[k] as u8 == encode_utf8(tc)[k]);
                vstd::utf8::is_ascii_chars_nat_bound(tc);
            }
            assert(s[i] == tb[0]);
            assert(tb[0] == 45 || is_digit_byte(tb[0]));
            assert(s[i] != 110 && s[i] != 116 && s[i] != 102 && s[i] != 34);
            assert forall|k: int| i <= k < i + el implies is_num_byte(s[k]) by {
                assert(s[k] == e[k - i]);
                assert(is_num_byte(tb[k - i]));
            }
            lemma_num_end_range(s, i, i + el);
            let t = s.subrange(i, i + el);
            assert(t =~= tb);
            assert(!is_canon_u64(t));
            lemma_ascii_bytes(tb);
            vstd::utf8::encode_utf8_decode_utf8(tc);
        },
        JVal::Nested(tc) => {
            let tb = encode_utf8(tc);
            assert(e == tb);
            assert(tb.len() >= 1 && (tb[0] == 123 || tb[0] == 91)) by {
                assert(nested_end(tb, 0) is Some);
            }
            assert(s[i] == tb[0]);
            assert(s[i] == 123 || s[i] == 91);
            assert(s[i] != 110 && s[i] != 116 && s[i] != 102 && s[i] != 34);
            assert(skip_nested(tb, 1, 1, false, false) == Some(tb.len() as int));
            assert(s.subrange(1 + i, tb.len() + i) =~= tb.subrange(1, tb.len() as int)) by {
                assert(forall|k: int|
                    0 <= k < tb.len() ==> s[i + k] == #[trigger] s.subrange(
                        i,
                        i + tb.len() as int,
                    )[k]);
            }
            lemma_skip_nested_shift(tb, s, 1, i, 1, false, false, tb.len() as int);
            assert(skip_nested(s, i + 1, 1, false, false) == Some(i + tb.len()));
            assert(nested_end(s, i) == Some(i + tb.len()));
            assert(s.subrange(i, i + tb.len() as int) =~= tb);
            vstd::utf8::encode_utf8_valid_utf8(tc);
            vstd::utf8::encode_utf8_decode_utf8(tc);
        },
        JVal::Str(sc) => {
            let x = esc_bytes(encode_utf8(sc));
            assert(e == seq![34u8] + x + seq![34u8]);
            assert(e[0] == (seq![34u8] + x)[0]);
            assert((seq![34u8] + x)[0] == 34);
            assert(s[i] == e[0]);
            assert(s[i] == 34);
            assert forall|k: int| 0 <= k < x.len() implies s[i + 1 + k] == x[k] by {
                assert(e[1 + k] == (seq![34u8] + x)[1 + k]);
                assert(e[1 + k] == x[k]);
            }
            assert(s.subrange(i + 1, i + 1 + x.len() as int) =~= x);
            assert(s[i + 1 + x.len()] == e[el - 1]);
            assert(e[el - 1] == 34);
            lemma_strbody_roundtrip(encode_utf8(sc), s, i + 1);
            vstd::utf8::encode_utf8_valid_utf8(sc);
            vstd::utf8::encode_utf8_decode_utf8(sc);
            assert(spec_parse_jval(s, i) == Some((JVal::Str(sc), i + 1 + x.len() + 1)));
            assert(i + 1 + x.len() + 1 == i + el);
        },
    }
}

/// A parsed value is well formed and re-serializes to the bytes consumed.
pub proof fn lemma_jval_canon(s: Seq<u8>, i: int)
    requires
        spec_parse_jval(s, i) is Some,
    ensures
        ({
            let (v, j) = spec_parse_jval(s, i)->Some_0;
            &&& wf_jval(v)
            &&& i < j <= s.len()
            &&& ser_jval(v) == s.subrange(i, j)
        }),
{
    let (v, j) = spec_parse_jval(s, i)->Some_0;
    let b = s[i];
    if b == 110 || b == 116 || b == 102 {
    } else if b == 34 {
        lemma_strbody_canon(s, i + 1);
        let (c, j2) = spec_parse_strbody(s, i + 1)->Some_0;
        vstd::utf8::decode_utf8_encode_utf8(c);
        assert(ser_jval(v) == seq![34u8] + esc_bytes(c) + seq![34u8]);
        assert(esc_bytes(c) + seq![34u8] == s.subrange(i + 1, j2));
        assert(seq![34u8] + (esc_bytes(c) + seq![34u8]) =~= s.subrange(i, j)) by {
            assert(s.subrange(i, j)[0] == s[i]);
            assert(forall|k: int|
                0 <= k < j2 - i - 1 ==> s.subrange(i + 1, j2)[k] == #[trigger] s.subrange(
                    i,
                    j,
                )[1 + k]);
        }
        assert(seq![34u8] + esc_bytes(c) + seq![34u8] =~= seq![34u8] + (esc_bytes(c)
            + seq![34u8]));
    } else if b == 123 || b == 91 {
        let j2 = nested_end(s, i)->Some_0;
        let sub = s.subrange(i, j2);
        assert(valid_utf8(sub));
        vstd::utf8::decode_utf8_encode_utf8(sub);
        assert(ser_jval(v) == encode_utf8(decode_utf8(sub)));
        assert(ser_jval(v) == sub);
        assert(wf_nested(decode_utf8(sub))) by {
            assert(sub[0] == s[i]);
            assert(skip_nested(s, i + 1, 1, false, false) == Some(j2));
            lemma_skip_nested_range(s, i + 1, 1, false, false);
            assert(sub.subrange(i + 1 + (-i), j2 + (-i)) =~= s.subrange(i + 1, j2)) by {
                assert(forall|k: int|
                    0 <= k < j2 - i ==> #[trigger] sub[k] == s.subrange(i, j2)[k]);
                assert(forall|k: int|
                    0 <= k < j2 - i ==> #[trigger] s.subrange(i, j2)[k] == s[i + k]);
            }
            lemma_skip_nested_shift(s, sub, i + 1, -i, 1, false, false, j2);
            assert(skip_nested(sub, 1, 1, false, false) == Some(j2 - i));
            assert(nested_end(sub, 0) == Some(sub.len() as int));
            assert(nested_end(encode_utf8(decode_utf8(sub)), 0) == Some(
                encode_utf8(decode_utf8(sub)).len() as int,
            ));
        }
    } else {
        // number
        let jn = num_end(s, i);
        lemma_num_end_props(s, i);
        let t = s.subrange(i, jn);
        assert(is_num_byte(s[i]));
        assert(jn > i);
        assert(t[0] == s[i]);
        assert(forall|k: int| 0 <= k < t.len() ==> #[trigger] t[k] < 128) by {
            assert(forall|k: int| i <= k < jn ==> is_num_byte(#[trigger] s[k]));
        }
        lemma_ascii_bytes(t);
        if is_canon_u64(t) {
            lemma_canon_dec_digits(t);
            assert(ser_jval(v) == dec_digits(digits_val(t)));
        } else {
            assert(v == JVal::Num(decode_utf8(t)));
            assert(wf_num(decode_utf8(t)));
            assert(ser_jval(v) == encode_utf8(decode_utf8(t)));
        }
    }
}

/// A successful balanced scan moved forward and stayed within bounds.
pub proof fn lemma_skip_nested_range(s: Seq<u8>, i: int, depth: int, instr: bool, esc: bool)
    requires
        skip_nested(s, i, depth, instr, esc) is Some,
    ensures
        i < skip_nested(s, i, depth, instr, esc)->Some_0 <= s.len(),
        i >= 0,
    decreases s.len() - i,
{
    let b = s[i];
    if instr {
        if !esc && b == 92 {
            lemma_skip_nested_range(s, i + 1, depth, true, true);
        } else if !esc && b == 34 {
            lemma_skip_nested_range(s, i + 1, depth, false, false);
        } else {
            lemma_skip_nested_range(s, i + 1, depth, true, false);
        }
    } else {
        if b == 34 {
            lemma_skip_nested_range(s, i + 1, depth, true, false);
        } else if b == 123 || b == 91 {
            lemma_skip_nested_range(s, i + 1, depth + 1, false, false);
        } else if b == 125 || b == 93 {
            if depth > 1 {
                lemma_skip_nested_range(s, i + 1, depth - 1, false, false);
            }
        } else {
            lemma_skip_nested_range(s, i + 1, depth, false, false);
        }
    }
}

/// The balanced scan reads only the bytes it crosses: shifting it into any
/// byte sequence that carries the same bytes over that window shifts the
/// result.
pub proof fn lemma_skip_nested_shift(
    s1: Seq<u8>,
    s2: Seq<u8>,
    i: int,
    delta: int,
    depth: int,
    instr: bool,
    esc: bool,
    e: int,
)
    requires
        skip_nested(s1, i, depth, instr, esc) == Some(e),
        0 <= i + delta,
        e + delta <= s2.len(),
        s2.subrange(i + delta, e + delta) == s1.subrange(i, e),
    ensures
        skip_nested(s2, i + delta, depth, instr, esc) == Some(e + delta),
    decreases s1.len() - i,
{
    lemma_skip_nested_range(s1, i, depth, instr, esc);
    let b = s1[i];
    assert(s2[i + delta] == b) by {
        assert(s2.subrange(i + delta, e + delta)[0] == s2[i + delta]);
        assert(s1.subrange(i, e)[0] == s1[i]);
    }
    if i + 1 < e {
        assert forall|k: int|
            0 <= k < e - i - 1 implies #[trigger] s2.subrange(i + 1 + delta, e + delta)[k]
                == s1.subrange(i + 1, e)[k] by {
            assert(s2.subrange(i + 1 + delta, e + delta)[k] == s2[i + 1 + delta + k]);
            assert(s1.subrange(i + 1, e)[k] == s1[i + 1 + k]);
            assert(s2.subrange(i + delta, e + delta)[k + 1] == s2[i + delta + (k + 1)]);
            assert(s1.subrange(i, e)[k + 1] == s1[i + (k + 1)]);
            assert(s2.subrange(i + delta, e + delta)[k + 1] == s1.subrange(i, e)[k + 1]);
        }
        assert(s2.subrange(i + 1 + delta, e + delta) =~= s1.subrange(i + 1, e));
    } else {
        assert(e == i + 1);
        assert(s2.subrange(i + 1 + delta, e + delta).len() == 0);
        assert(s1.subrange(i + 1, e).len() == 0);
        assert(s2.subrange(i + 1 + delta, e + delta) =~= s1.subrange(i + 1, e));
    }
    if instr {
        if !esc && b == 92 {
            assert(skip_nested(s1, i + 1, depth, true, true) == Some(e));
            lemma_skip_nested_shift(s1, s2, i + 1, delta, depth, true, true, e);
        } else if !esc && b == 34 {
            assert(skip_nested(s1, i + 1, depth, false, false) == Some(e));
            lemma_skip_nested_shift(s1, s2, i + 1, delta, depth, false, false, e);
        } else {
            assert(skip_nested(s1, i + 1, depth, true, false) == Some(e));
            lemma_skip_nested_shift(s1, s2, i + 1, delta, depth, true, false, e);
        }
    } else {
        if b == 34 {
            assert(skip_nested(s1, i + 1, depth, true, false) == Some(e));
            lemma_skip_nested_shift(s1, s2, i + 1, delta, depth, true, false, e);
        } else if b == 123 || b == 91 {
            assert(skip_nested(s1, i + 1, depth + 1, false, false) == Some(e));
            lemma_skip_nested_shift(s1, s2, i + 1, delta, depth + 1, false, false, e);
        } else if b == 125 || b == 93 {
            if depth > 1 {
                assert(skip_nested(s1, i + 1, depth - 1, false, false) == Some(e));
                lemma_skip_nested_shift(s1, s2, i + 1, delta, depth - 1, false, false, e);
            } else {
                assert(e == i + 1);
            }
        } else {
            assert(skip_nested(s1, i + 1, depth, false, false) == Some(e));
            lemma_skip_nested_shift(s1, s2, i + 1, delta, depth, false, false, e);
        }
    }
}

/// The number-byte run starting at a number byte is nonempty, stays within
/// bounds, and consists of number bytes followed by a non-number byte.
pub proof fn lemma_num_end_props(s: Seq<u8>, i: int)
    requires
        0 <= i < s.len(),
        is_num_byte(s[i]),
    ensures
        i < num_end(s, i) <= s.len(),
        forall|k: int| i <= k < num_end(s, i) ==> is_num_byte(#[trigger] s[k]),
        num_end(s, i) == s.len() || !is_num_byte(s[num_end(s, i)]),
    decreases s.len() - i,
{
    if i + 1 < s.len() && is_num_byte(s[i + 1]) {
        lemma_num_end_props(s, i + 1);
    } else {
        assert(num_end(s, i) == num_end(s, i + 1));
    }
}

} // verus!

verus! {

// ---------------------------------------------------------------------------
// JSON objects (records)
// ---------------------------------------------------------------------------

/// Serialized bytes of one field: `"name":value`.
pub open spec fn ser_field(name: Seq<char>, v: JVal) -> Seq<u8> {
    seq![34u8] + esc_bytes(encode_utf8(name)) + seq![34u8, 58u8] + ser_jval(v)
}

/// Serialized bytes of a comma-separated field list.
pub open spec fn ser_fields(r: RecordV) -> Seq<u8>
    decreases r.len(),
{
    if r.len() == 0 {
        Seq::<u8>::empty()
    } else if r.len() == 1 {
        ser_field(r[0].0, r[0].1)
    } else {
        ser_field(r[0].0, r[0].1) + seq![44u8] + ser_fields(r.drop_first())
    }
}

/// Serialized bytes of a whole record object.
pub open spec fn ser_record(r: RecordV) -> Seq<u8> {
    seq![123u8] + ser_fields(r) + seq![125u8]
}

pub open spec fn rec_names_contains(r: RecordV, name: Seq<char>) -> bool {
    exists|k: int| 0 <= k < r.len() && r[k].0 == name
}

/// Index layout of one serialized field.
pub proof fn lemma_ser_field_parts(name: Seq<char>, v: JVal)
    ensures
        ({
            let esc = esc_bytes(encode_utf8(name));
            let sv = ser_jval(v);
            let f = ser_field(name, v);
            &&& f.len() == 3 + esc.len() + sv.len()
            &&& f[0] == 34
            &&& forall|k: int| 0 <= k < esc.len() ==> f[1 + k] == esc[k]
            &&& f[1 + esc.len() as int] == 34
            &&& f[2 + esc.len() as int] == 58
            &&& forall|k: int| 0 <= k < sv.len() ==> f[3 + esc.len() + k] == sv[k]
        }),
{
    let esc = esc_bytes(encode_utf8(name));
    let sv = ser_jval(v);
    let f = ser_field(name, v);
    let a = seq![34u8] + esc;
    let b = a + seq![34u8, 58u8];
    assert(f == b + sv);
    assert(f[0] == b[0] && b[0] == a[0] && a[0] == 34);
    assert forall|k: int| 0 <= k < esc.len() implies f[1 + k] == esc[k] by {
        assert(f[1 + k] == b[1 + k]);
        assert(b[1 + k] == a[1 + k]);
        assert(a[1 + k] == esc[k]);
    }
    assert(f[1 + esc.len() as int] == b[1 + esc.len() as int]);
    assert(b[1 + esc.len() as int] == 34);
    assert(f[2 + esc.len() as int] == b[2 + esc.len() as int]);
    assert(b[2 + esc.len() as int] == 58);
    assert forall|k: int| 0 <= k < sv.len() implies f[3 + esc.len() + k] == sv[k] by {
        assert(f[b.len() + k] == sv[k]);
    }
}

/// Parses a field list at `i` (just after `{` or a comma), through the
/// closing `}`.  Rejects duplicate field names, which the serializer never
/// produces.
pub open spec fn spec_parse_fields(s: Seq<u8>, i: int) -> Option<(RecordV, int)>
    decreases s.len() - i,
    via spec_parse_fields_dec
{
    if i < 0 || i >= s.len() || s[i] != 34 {
        None
    } else {
        match spec_parse_strbody(s, i + 1) {
            Some((nb, j)) => if !valid_utf8(nb) {
                None
            } else {
                let name = decode_utf8(nb);
                if j >= s.len() || s[j] != 58 {
                    None
                } else {
                    match spec_parse_jval(s, j + 1) {
                        Some((v, k)) => if k < s.len() && s[k] == 44 {
                            match spec_parse_fields(s, k + 1) {
                                Some((rest, m)) => if rec_names_contains(rest, name) {
                                    None
                                } else {
                                    Some((seq![(name, v)] + rest, m))
                                },
                                None => None,
                            }
                        } else if k < s.len() && s[k] == 125 {
                            Some((seq![(name, v)], k + 1))
                        } else {
                            None
                        },
                        None => None,
                    }
                }
            },
            None => None,
        }
    }
}

#[via_fn]
proof fn spec_parse_fields_dec(s: Seq<u8>, i: int) {
    if !(i < 0 || i >= s.len() || s[i] != 34) {
        if spec_parse_strbody(s, i + 1) is Some {
            lemma_strbody_canon(s, i + 1);
            let (nb, j) = spec_parse_strbody(s, i + 1)->Some_0;
            if valid_utf8(nb) && !(j >= s.len() || s[j] != 58) {
                if spec_parse_jval(s, j + 1) is Some {
                    lemma_jval_canon(s, j + 1);
                }
            }
        }
    }
}

/// Parses a record object at `i`.
pub open spec fn spec_parse_record(s: Seq<u8>, i: int) -> Option<(RecordV, int)> {
    if i < 0 || i + 2 > s.len() || s[i] != 123 {
        None
    } else if s[i + 1] == 125 {
        Some((Seq::<(Seq<char>, JVal)>::empty(), i + 2))
    } else {
        spec_parse_fields(s, i + 1)
    }
}

/// Parsing the serialization of a well-formed, nonempty field list (followed
/// by the closing brace) yields the list back.
pub proof fn lemma_fields_roundtrip(r: RecordV, s: Seq<u8>, i: int)
    requires
        wf_record(r),
        r.len() >= 1,
        0 <= i,
        i + ser_fields(r).len() + 1 <= s.len(),
        s.subrange(i, i + ser_fields(r).len() as int) == ser_fields(r),
        s[i + ser_fields(r).len()] == 125,
    ensures
        spec_parse_fields(s, i) == Some((r, i + ser_fields(r).len() + 1)),
    decreases r.len(),
{
    let name = r[0].0;
    let v = r[0].1;
    let rest = r.drop_first();
    let nb = encode_utf8(name);
    let esc = esc_bytes(nb);
    let sv = ser_jval(v);
    let fld = ser_field(name, v);
    let sf = ser_fields(r);
    let sfl = sf.len() as int;
    lemma_ser_field_parts(name, v);
    assert(forall|k: int| 0 <= k < sfl ==> s[i + k] == #[trigger] sf[k]) by {
        assert(forall|k: int|
            0 <= k < sfl ==> #[trigger] s.subrange(i, i + sfl)[k] == s[i + k]);
    }
    if r.len() == 1 {
        assert(sf == fld);
    } else {
        assert(sf == fld + seq![44u8] + ser_fields(rest));
        assert forall|k: int| 0 <= k < fld.len() implies sf[k] == fld[k] by {
            assert((fld + seq![44u8])[k] == fld[k]);
            assert(sf[k] == (fld + seq![44u8])[k]);
        }
        assert(sf[fld.len() as int] == (fld + seq![44u8])[fld.len() as int]);
        assert(sf[fld.len() as int] == 44);
        assert forall|k: int| 0 <= k < ser_fields(rest).len() implies sf[fld.len() + 1 + k]
            == ser_fields(rest)[k] by {
            assert(sf[(fld + seq![44u8]).len() + k] == ser_fields(rest)[k]);
        }
    }
    // the field name
    assert(s[i] == 34);
    assert forall|k: int| 0 <= k < esc.len() implies s[i + 1 + k] == esc[k] by {
        assert(s[i + 1 + k] == sf[1 + k]);
        assert(sf[1 + k] == fld[1 + k]);
    }
    assert(s.subrange(i + 1, i + 1 + esc.len() as int) =~= esc);
    assert(s[i + 1 + esc.len() as int] == fld[1 + esc.len() as int]);
    lemma_strbody_roundtrip(nb, s, i + 1);
    vstd::utf8::encode_utf8_valid_utf8(name);
    vstd::utf8::encode_utf8_decode_utf8(name);
    let j = i + esc.len() as int + 2;
    assert(spec_parse_strbody(s, i + 1) == Some((nb, j)));
    // the colon
    assert(s[j] == fld[2 + esc.len() as int]);
    assert(s[j] == 58);
    assert(j < s.len());
    // the value
    assert forall|k: int| 0 <= k < sv.len() implies s[j + 1 + k] == sv[k] by {
        assert(s[i + (3 + esc.len() + k)] == sf[3 + esc.len() + k]);
        assert(sf[3 + esc.len() + k] == fld[3 + esc.len() + k]);
    }
    assert(s.subrange(j + 1, j + 1 + sv.len() as int) =~= sv);
    let k = j + 1 + sv.len() as int;
    assert(k == i + fld.len());
    if r.len() == 1 {
        assert(s[k] == 125);
    } else {
        assert(s[k] == sf[fld.len() as int]);
        assert(s[k] == 44);
    }
    lemma_jval_roundtrip(v, s, j + 1);
    assert(spec_parse_jval(s, j + 1) == Some((v, k)));
    if r.len() == 1 {
        assert(spec_parse_fields(s, i) == Some((seq![(name, v)], k + 1)));
        assert(seq![(name, v)] =~= r);
        assert(k + 1 == i + sfl + 1);
    } else {
        let sfr = ser_fields(rest);
        assert forall|m: int| 0 <= m < sfr.len() implies s[k + 1 + m] == sfr[m] by {
            assert(s[i + (fld.len() + 1 + m)] == sf[fld.len() + 1 + m]);
        }
        assert(s.subrange(k + 1, k + 1 + sfr.len() as int) =~= sfr);
        assert(k + 1 + sfr.len() == i + sfl);
        assert(s[k + 1 + sfr.len()] == 125);
        assert(wf_record(rest)) by {
            assert(forall|a: int| 0 <= a < rest.len() ==> #[trigger] rest[a] == r[a + 1]);
        }
        lemma_fields_roundtrip(rest, s, k + 1);
        assert(spec_parse_fields(s, k + 1) == Some((rest, i + sfl + 1)));
        assert(!rec_names_contains(rest, name)) by {
            if rec_names_contains(rest, name) {
                let q = choose|q: int| 0 <= q < rest.len() && rest[q].0 == name;
                assert(r[q + 1].0 == r[0].0);
            }
        }
        assert(seq![(name, v)] + rest =~= r);
    }
}

/// A parsed field list is well formed, nonempty, and re-serializes (with the
/// closing brace) to exactly the bytes consumed.
#[verifier::rlimit(80)]
pub proof fn lemma_fields_canon(s: Seq<u8>, i: int)
    requires
        spec_parse_fields(s, i) is Some,
    ensures
        ({
            let (r, j) = spec_parse_fields(s, i)->Some_0;
            &&& wf_record(r)
            &&& r.len() >= 1
            &&& i < j <= s.len()
            &&& ser_fields(r) + seq![125u8] == s.subrange(i, j)
        }),
    decreases s.len() - i,
{
    let (r, j) = spec_parse_fields(s, i)->Some_0;
    lemma_strbody_canon(s, i + 1);
    let (nb, j2) = spec_parse_strbody(s, i + 1)->Some_0;
    let name = decode_utf8(nb);
    vstd::utf8::decode_utf8_encode_utf8(nb);
    lemma_jval_canon(s, j2 + 1);
    let (v, k) = spec_parse_jval(s, j2 + 1)->Some_0;
    let esc = esc_bytes(nb);
    let sv = ser_jval(v);
    let fld = ser_field(name, v);
    lemma_ser_field_parts(name, v);
    assert(esc + seq![34u8] == s.subrange(i + 1, j2));
    assert(sv == s.subrange(j2 + 1, k));
    assert(fld =~= s.subrange(i, k)) by {
        assert(fld.len() == 3 + esc.len() + sv.len());
        assert((esc + seq![34u8]).len() == esc.len() + 1);
        assert(s.subrange(i + 1, j2).len() == j2 - i - 1);
        assert(j2 == i + 2 + esc.len());
        assert(k == j2 + 1 + sv.len());
        assert(s[i] == 34);
        assert forall|q: int| 0 <= q < esc.len() implies s[i + 1 + q] == esc[q] by {
            assert((esc + seq![34u8])[q] == s.subrange(i + 1, j2)[q]);
        }
        assert(s[i + 1 + esc.len() as int] == (esc + seq![34u8])[esc.len() as int]);
        assert(s[j2] == 58);
        assert(forall|q: int|
            0 <= q < sv.len() ==> s[j2 + 1 + q] == #[trigger] s.subrange(j2 + 1, k)[q]);
    }
    if k < s.len() && s[k] == 44 {
        lemma_fields_canon(s, k + 1);
        let (rest, m) = spec_parse_fields(s, k + 1)->Some_0;
        assert(r == seq![(name, v)] + rest);
        assert(r.len() >= 2);
        assert(r[0] == (name, v));
        assert(r.drop_first() =~= rest);
        assert(ser_fields(r) == fld + seq![44u8] + ser_fields(rest));
        assert(ser_fields(rest) + seq![125u8] == s.subrange(k + 1, m));
        assert(s.subrange(k, k + 1) =~= seq![44u8]);
        assert(ser_fields(r) + seq![125u8] =~= s.subrange(i, k) + s.subrange(k, k + 1) + (
        s.subrange(k + 1, m)));
        assert(s.subrange(i, k) + s.subrange(k, k + 1) + s.subrange(k + 1, m) =~= s.subrange(
            i,
            m,
        ));
        assert(wf_record(r)) by {
            assert(forall|a: int| 0 <= a < rest.len() ==> #[trigger] r[a + 1] == rest[a]);
            assert forall|a: int, b: int| 0 <= a < b < r.len() implies r[a].0 != r[b].0 by {
                if a == 0 {
                    assert(r[b].0 == rest[b - 1].0);
                    if r[0].0 == r[b].0 {
                        assert(rec_names_contains(rest, name));
                    }
                } else {
                    assert(r[a].0 == rest[a - 1].0 && r[b].0 == rest[b - 1].0);
                }
            }
        }
    } else {
        assert(r == seq![(name, v)]);
        assert(j == k + 1);
        assert(ser_fields(r) == fld);
        assert(ser_fields(r) + seq![125u8] =~= s.subrange(i, j)) by {
            assert(forall|q: int|
                0 <= q < k - i ==> s[i + q] == #[trigger] s.subrange(i, k)[q]);
            assert(s[k] == 125);
        }
    }
}

/// Decodes a whole byte string as one record object.
pub open spec fn spec_json_record(b: Seq<u8>) -> Option<RecordV> {
    match spec_parse_record(b, 0) {
        Some((r, j)) => if j == b.len() {
            Some(r)
        } else {
            None
        },
        None => None,
    }
}

/// Round trip: a well-formed record decodes from its own serialization.
pub proof fn lemma_json_record_roundtrip(r: RecordV)
    requires
        wf_record(r),
    ensures
        spec_json_record(ser_record(r)) == Some(r),
{
    let s = ser_record(r);
    let sf = ser_fields(r);
    assert(s.len() == 2 + sf.len());
    assert(s[0] == 123) by {
        assert(s[0] == (seq![123u8] + sf)[0]);
    }
    assert forall|q: int| 0 <= q < sf.len() implies s[1 + q] == sf[q] by {
        assert(s[1 + q] == (seq![123u8] + sf)[1 + q]);
    }
    assert(s[s.len() - 1] == 125);
    if r.len() == 0 {
        assert(s[1] == 125);
        assert(spec_parse_record(s, 0) == Some((Seq::<(Seq<char>, JVal)>::empty(), 2int)));
        assert(r =~= Seq::<(Seq<char>, JVal)>::empty());
    } else {
        lemma_ser_field_parts(r[0].0, r[0].1);
        assert(sf[0] == 34) by {
            if r.len() == 1 {
            } else {
                assert(sf[0] == (ser_field(r[0].0, r[0].1) + seq![44u8])[0]);
            }
        }
        assert(s[1] == 34);
        assert(s.subrange(1, 1 + sf.len() as int) =~= sf);
        lemma_fields_roundtrip(r, s, 1);
    }
}

/// A decoded record is well formed and re-serializes to the bytes it came
/// from.
pub proof fn lemma_json_record_canon(b: Seq<u8>)
    requires
        spec_json_record(b) is Some,
    ensures
        wf_record(spec_json_record(b)->Some_0),
        ser_record(spec_json_record(b)->Some_0) == b,
        b.len() >= 2,
{
    let r = spec_json_record(b)->Some_0;
    if b[1] == 125 {
        assert(ser_fields(r) == Seq::<u8>::empty());
        assert(ser_record(r) =~= b);
    } else {
        lemma_fields_canon(b, 1);
        assert(ser_fields(r) + seq![125u8] == b.subrange(1, b.len() as int));
        assert(b.subrange(0, 1) =~= seq![123u8]);
        assert(ser_record(r) =~= b.subrange(0, 1) + (ser_fields(r) + seq![125u8]));
        assert(b.subrange(0, 1) + b.subrange(1, b.len() as int) =~= b);
    }
}

} // verus!

verus! {

// ---------------------------------------------------------------------------
// Executable serializer and parser
// ---------------------------------------------------------------------------

/// Relies on `String::from_utf8`: it succeeds exactly on valid UTF-8 input
/// and returns the string holding exactly those bytes.
#[verifier::external_body]
fn string_from_bytes(v: Vec<u8>) -> (r: Option<String>)
    ensures
        r is Some <==> valid_utf8(v@),
        r matches Some(s) ==> encode_utf8(s@) == v@,
{
    String::from_utf8(v).ok()
}

/// Copies `s[from..to]` into a fresh vector.
pub fn copy_range(s: &Vec<u8>, from: usize, to: usize) -> (r: Vec<u8>)
    requires
        from <= to <= s@.len(),
    ensures
        r@ == s@.subrange(from as int, to as int),
{
    let mut out: Vec<u8> = Vec::new();
    let mut k: usize = from;
    while k < to
        invariant
            from <= k <= to <= s@.len(),
            out@ == s@.subrange(from as int, k as int),
        decreases to - k,
    {
        proof {
            assert(s@.subrange(from as int, k as int + 1) =~= s@.subrange(
                from as int,
                k as int,
            ).push(s@[k as int]));
        }
        out.push(s[k]);
        k += 1;
    }
    out
}

fn num_byte(b: u8) -> (r: bool)
    ensures
        r == is_num_byte(b),
{
    (48 <= b && b <= 57) || b == 45 || b == 43 || b == 46 || b == 101 || b == 69
}

/// Appends the serialization of one value to `out`.
fn push_jval(out: &mut Vec<u8>, v: &JsonVal)
    ensures
        final(out)@ == old(out)@ + ser_jval(v@),
{
    match v {
        JsonVal::Null => {
            out.push(110);
            out.push(117);
            out.push(108);
            out.push(108);
            proof {
                assert(final(out)@ =~= old(out)@ + null_bytes());
            }
        },
        JsonVal::Bool(b) => {
            if *b {
                out.push(116);
                out.push(114);
                out.push(117);
                out.push(101);
                proof {
                    assert(final(out)@ =~= old(out)@ + true_bytes());
                }
            } else {
                out.push(102);
                out.push(97);
                out.push(108);
                out.push(115);
                out.push(101);
                proof {
                    assert(final(out)@ =~= old(out)@ + false_bytes());
                }
            }
        },
        JsonVal::UInt(n) => {
            let mut d = u64_to_dec(*n);
            out.append(&mut d);
        },
        JsonVal::Num(t) => {
            let mut b = t.as_str().as_bytes_vec();
            out.append(&mut b);
        },
        JsonVal::Nested(t) => {
            let mut b = t.as_str().as_bytes_vec();
            out.append(&mut b);
        },
        JsonVal::Str(st) => {
            out.push(34);
            let bs = st.as_str().as_bytes_vec();
            push_esc_bytes(out, &bs);
            out.push(34);
            proof {
                assert(final(out)@ =~= old(out)@ + (seq![34u8] + esc_bytes(encode_utf8(st@))
                    + seq![34u8]));
            }
        },
    }
}

/// Appending a field to a record appends `,"name":value` (or just
/// `"name":value` when the record was empty) to its serialization.
pub proof fn lemma_ser_fields_snoc(r: RecordV, f: (Seq<char>, JVal))
    ensures
        r.len() == 0 ==> ser_fields(r.push(f)) == ser_field(f.0, f.1),
        r.len() > 0 ==> ser_fields(r.push(f)) == ser_fields(r) + seq![44u8] + ser_field(f.0, f.1),
    decreases r.len(),
{
    if r.len() == 0 {
        assert(r.push(f).len() == 1);
        assert(r.push(f)[0] == f);
    } else {
        let rp = r.push(f);
        assert(rp.len() >= 2);
        assert(rp[0] == r[0]);
        assert(rp.drop_first() =~= r.drop_first().push(f));
        lemma_ser_fields_snoc(r.drop_first(), f);
        if r.len() == 1 {
            assert(ser_fields(rp) == ser_field(r[0].0, r[0].1) + seq![44u8] + ser_field(f.0, f.1));
        } else {
            assert(ser_fields(rp) == ser_field(r[0].0, r[0].1) + seq![44u8] + (ser_fields(
                r.drop_first(),
            ) + seq![44u8] + ser_field(f.0, f.1)));
            assert(ser_field(r[0].0, r[0].1) + seq![44u8] + (ser_fields(r.drop_first())
                + seq![44u8] + ser_field(f.0, f.1)) =~= (ser_field(r[0].0, r[0].1) + seq![44u8]
                + ser_fields(r.drop_first())) + seq![44u8] + ser_field(f.0, f.1));
        }
    }
}

/// Serializes a record to its canonical JSON bytes.
pub fn record_to_json(r: &Record) -> (out: Vec<u8>)
    ensures
        out@ == ser_record(r@),
{
    let mut out: Vec<u8> = Vec::new();
    out.push(123);
    let mut idx: usize = 0;
    while idx < r.fields.len()
        invariant
            0 <= idx <= r.fields@.len(),
            out@ == seq![123u8] + ser_fields(r@.take(idx as int)),
        decreases r.fields@.len() - idx,
    {
        let ghost pre = r@.take(idx as int);
        proof {
            assert(r@.take(idx as int + 1) =~= pre.push(r@[idx as int]));
            assert(r@[idx as int] == (r.fields@[idx as int].0@, r.fields@[idx as int].1@));
            lemma_ser_fields_snoc(pre, r@[idx as int]);
        }
        if idx > 0 {
            out.push(44);
        }
        let name_bytes = r.fields[idx].0.as_str().as_bytes_vec();
        out.push(34);
        push_esc_bytes(&mut out, &name_bytes);
        out.push(34);
        out.push(58);
        push_jval(&mut out, &r.fields[idx].1);
        proof {
            let nm = r@[idx as int].0;
            let vv = r@[idx as int].1;
            assert(name_bytes@ == encode_utf8(nm));
            assert(ser_field(nm, vv) =~= seq![34u8] + esc_bytes(encode_utf8(nm)) + seq![34u8,
                58u8] + ser_jval(vv));
            if idx == 0 {
                assert(out@ =~= seq![123u8] + ser_fields(r@.take(idx as int + 1)));
            } else {
                assert(out@ =~= seq![123u8] + ser_fields(r@.take(idx as int + 1)));
            }
        }
        idx += 1;
    }
    out.push(125);
    proof {
        assert(r@.take(r.fields@.len() as int) =~= r@);
        assert(out@ =~= ser_record(r@));
    }
    out
}

/// Scans for the close that balances a nested value's opener; see
/// `skip_nested`.
pub fn scan_nested_end(s: &Vec<u8>, start: usize) -> (r: Option<usize>)
    requires
        start >= 1,
    ensures
        match r {
            Some(j) => skip_nested(s@, start as int, 1, false, false) == Some(j as int),
            None => skip_nested(s@, start as int, 1, false, false) is None,
        },
{
    let mut cur: usize = start;
    let mut depth: u64 = 1;
    let mut instr: bool = false;
    let mut esc: bool = false;
    loop
        invariant
            1 <= start <= cur,
            depth >= 1,
            instr || !esc,
            depth as int <= cur - start + 1,
            skip_nested(s@, start as int, 1, false, false) == skip_nested(
                s@,
                cur as int,
                depth as int,
                instr,
                esc,
            ),
        decreases s@.len() - cur,
    {
        if cur >= s.len() {
            return None;
        }
        let ghost cur0 = cur as int;
        let ghost d0 = depth as int;
        let ghost in0 = instr;
        let ghost es0 = esc;
        let b = s[cur];
        if instr {
            if !esc && b == 92 {
                esc = true;
            } else if !esc && b == 34 {
                instr = false;
            } else {
                esc = false;
            }
        } else {
            if b == 34 {
                instr = true;
            } else if b == 123 || b == 91 {
                depth = depth + 1;
            } else if b == 125 || b == 93 {
                if depth == 1 {
                    return Some(cur + 1);
                }
                depth = depth - 1;
            }
        }
        cur = cur + 1;
        proof {
            assert(skip_nested(s@, cur0, d0, in0, es0) == skip_nested(
                s@,
                cur as int,
                depth as int,
                instr,
                esc,
            ));
        }
    }
}

/// Checks the shape of a nested value literal; see `wf_nested`.
pub fn check_nested_text(t: &String) -> (r: bool)
    ensures
        r == wf_nested(t@),
{
    let b = t.as_str().as_bytes_vec();
    proof {
        assert(b@ == encode_utf8(t@));
    }
    if b.len() == 0 {
        return false;
    }
    if !(b[0] == 123 || b[0] == 91) {
        return false;
    }
    match scan_nested_end(&b, 1) {
        Some(j) => j == b.len(),
        None => false,
    }
}

/// Parses one JSON value; see `spec_parse_jval`.
pub fn parse_jval_at(s: &Vec<u8>, i: usize) -> (r: Option<(JsonVal, usize)>)
    ensures
        match r {
            Some((v, j)) => spec_parse_jval(s@, i as int) == Some((v@, j as int)) && i < j
                <= s@.len(),
            None => spec_parse_jval(s@, i as int) is None,
        },
{
    if i >= s.len() {
        return None;
    }
    let b = s[i];
    if b == 110 {
        if s.len() - i >= 4 && s[i + 1] == 117 && s[i + 2] == 108 && s[i + 3] == 108 {
            proof {
                assert(s@.subrange(i as int, i as int + 4) =~= null_bytes());
            }
            Some((JsonVal::Null, i + 4))
        } else {
            proof {
                if i as int + 4 <= s@.len() && s@.subrange(i as int, i as int + 4)
                    == null_bytes() {
                    assert(s@[i as int + 1] == null_bytes()[1]);
                    assert(s@[i as int + 2] == null_bytes()[2]);
                    assert(s@[i as int + 3] == null_bytes()[3]);
                }
            }
            None
        }
    } else if b == 116 {
        if s.len() - i >= 4 && s[i + 1] == 114 && s[i + 2] == 117 && s[i + 3] == 101 {
            proof {
                assert(s@.subrange(i as int, i as int + 4) =~= true_bytes());
            }
            Some((JsonVal::Bool(true), i + 4))
        } else {
            proof {
                if i as int + 4 <= s@.len() && s@.subrange(i as int, i as int + 4)
                    == true_bytes() {
                    assert(s@[i as int + 1] == true_bytes()[1]);
                    assert(s@[i as int + 2] == true_bytes()[2]);
                    assert(s@[i as int + 3] == true_bytes()[3]);
                }
            }
            None
        }
    } else if b == 102 {
        if s.len() - i >= 5 && s[i + 1] == 97 && s[i + 2] == 108 && s[i + 3] == 115 && s[i + 4]
            == 101 {
            proof {
                assert(s@.subrange(i as int, i as int + 5) =~= false_bytes());
            }
            Some((JsonVal::Bool(false), i + 5))
        } else {
            proof {
                if i as int + 5 <= s@.len() && s@.subrange(i as int, i as int + 5)
                    == false_bytes() {
                    assert(s@[i as int + 1] == false_bytes()[1]);
                    assert(s@[i as int + 2] == false_bytes()[2]);
                    assert(s@[i as int + 3] == false_bytes()[3]);
                    assert(s@[i as int + 4] == false_bytes()[4]);
                }
            }
            None
        }
    } else if b == 34 {
        match parse_strbody(s, i + 1) {
            Some((c, j)) => {
                proof {
                    lemma_strbody_canon(s@, i as int + 1);
                }
                match string_from_bytes(c) {
                    Some(st) => {
                        proof {
                            vstd::utf8::encode_utf8_decode_utf8(st@);
                        }
                        Some((JsonVal::Str(st), j))
                    },
                    None => None,
                }
            },
            None => None,
        }
    } else if b == 123 || b == 91 {
        match scan_nested_end(s, i + 1) {
            Some(j) => {
                proof {
                    lemma_skip_nested_range(s@, i as int + 1, 1, false, false);
                }
                let sub = copy_range(s, i, j);
                match string_from_bytes(sub) {
                    Some(t) => {
                        proof {
                            vstd::utf8::encode_utf8_decode_utf8(t@);
                        }
                        Some((JsonVal::Nested(t), j))
                    },
                    None => None,
                }
            },
            None => None,
        }
    } else if b == 45 || (48 <= b && b <= 57) {
        let mut j: usize = i;
        while j < s.len() && num_byte(s[j])
            invariant
                i <= j <= s@.len(),
                forall|k: int| i <= k < j ==> is_num_byte(#[trigger] s@[k]),
            decreases s@.len() - j,
        {
            j += 1;
        }
        proof {
            lemma_num_end_range(s@, i as int, j as int);
            assert(j > i) by {
                assert(is_num_byte(s@[i as int]));
            }
        }
        let t = copy_range(s, i, j);
        match parse_canon_u64(&t) {
            Some(n) => Some((JsonVal::UInt(n), j)),
            None => {
                proof {
                    assert forall|k: int| 0 <= k < t@.len() implies #[trigger] t@[k] < 128 by {
                        assert(t@[k] == s@[i + k]);
                        assert(is_num_byte(s@[i + k]));
                    }
                    lemma_ascii_bytes(t@);
                }
                match string_from_bytes(t) {
                    Some(st) => {
                        proof {
                            vstd::utf8::encode_utf8_decode_utf8(st@);
                        }
                        Some((JsonVal::Num(st), j))
                    },
                    None => vstd::pervasive::unreached(),
                }
            },
        }
    } else {
        None
    }
}

} // verus!

verus! {

/// True when one of the fields carries this name.
pub fn rec_fields_contain(fields: &Vec<(String, JsonVal)>, name: &String) -> (r: bool)
    ensures
        r == rec_names_contains(rec_view(fields@), name@),
{
    let mut q: usize = 0;
    while q < fields.len()
        invariant
            0 <= q <= fields@.len(),
            forall|k: int| 0 <= k < q ==> rec_view(fields@)[k].0 != name@,
        decreases fields@.len() - q,
    {
        proof {
            assert(rec_view(fields@)[q as int] == (fields@[q as int].0@, fields@[q as int].1@));
        }
        if fields[q].0.eq(name) {
            proof {
                assert(rec_view(fields@)[q as int].0 == name@);
            }
            return true;
        }
        q += 1;
    }
    proof {
        if rec_names_contains(rec_view(fields@), name@) {
            let k = choose|k: int|
                0 <= k < rec_view(fields@).len() && rec_view(fields@)[k].0 == name@;
            assert(rec_view(fields@)[k].0 != name@);
        }
    }
    false
}

/// Names of `b` that occur nowhere in `a`.
pub open spec fn names_disjoint(a: RecordV, b: RecordV) -> bool {
    forall|k: int| 0 <= k < b.len() ==> !rec_names_contains(a, #[trigger] b[k].0)
}

/// Parses a record object; see `spec_parse_record`.
pub fn parse_record_at(s: &Vec<u8>, start: usize) -> (r: Option<(Record, usize)>)
    ensures
        match r {
            Some((rec, j)) => spec_parse_record(s@, start as int) == Some((rec@, j as int))
                && start < j <= s@.len(),
            None => spec_parse_record(s@, start as int) is None,
        },
{
    if start >= s.len() || s.len() - start < 2 || s[start] != 123 {
        return None;
    }
    if s[start + 1] == 125 {
        let rec = Record { fields: Vec::new() };
        proof {
            assert(rec@ =~= Seq::<(Seq<char>, JVal)>::empty());
        }
        return Some((rec, start + 2));
    }
    let mut acc: Vec<(String, JsonVal)> = Vec::new();
    let mut cur: usize = start + 1;
    proof {
        assert(spec_parse_record(s@, start as int) == spec_parse_fields(s@, start as int + 1));
        assert(names_disjoint(rec_view(acc@), spec_parse_fields(s@, cur as int)->Some_0.0));
        if spec_parse_fields(s@, cur as int) is Some {
            let (r2, m) = spec_parse_fields(s@, cur as int)->Some_0;
            assert(rec_view(acc@) + r2 =~= r2);
        }
    }
    loop
        invariant
            start + 1 <= cur,
            s@.len() >= 1,
            (match spec_parse_fields(s@, cur as int) {
                Some((r2, m)) => spec_parse_record(s@, start as int) == (if names_disjoint(
                    rec_view(acc@),
                    r2,
                ) {
                    Some((rec_view(acc@) + r2, m))
                } else {
                    None::<(RecordV, int)>
                }),
                None => spec_parse_record(s@, start as int) is None,
            }),
        decreases s@.len() - cur,
    {
        if cur >= s.len() || s[cur] != 34 {
            return None;
        }
        let body = parse_strbody(s, cur + 1);
        if body.is_none() {
            return None;
        }
        let (nb, mut j) = body.unwrap();
        proof {
            lemma_strbody_canon(s@, cur as int + 1);
        }
        let nameo = string_from_bytes(nb);
        if nameo.is_none() {
            return None;
        }
        let name = nameo.unwrap();
        proof {
            vstd::utf8::encode_utf8_decode_utf8(name@);
        }
        if j >= s.len() || s[j] != 58 {
            return None;
        }
        let valo = parse_jval_at(s, j + 1);
        if valo.is_none() {
            return None;
        }
        let (v, k) = valo.unwrap();
        let ghost f = (name@, v@);
        let ghost accv = rec_view(acc@);
        let dup = rec_fields_contain(&acc, &name);
        if dup {
            proof {
                let specr = spec_parse_record(s@, start as int);
                if k < s@.len() && s@[k as int] == 44 {
                    if spec_parse_fields(s@, k as int + 1) is Some {
                        let (rest, m) = spec_parse_fields(s@, k as int + 1)->Some_0;
                        if !rec_names_contains(rest, name@) {
                            assert(spec_parse_fields(s@, cur as int) == Some(
                                (seq![f] + rest, m),
                            ));
                            assert((seq![f] + rest)[0] == f);
                            assert((seq![f] + rest)[0].0 == name@);
                            assert(rec_names_contains(accv, (seq![f] + rest)[0].0));
                            assert(!names_disjoint(accv, seq![f] + rest));
                        }
                    }
                } else if k < s@.len() && s@[k as int] == 125 {
                    assert(spec_parse_fields(s@, cur as int) == Some((seq![f], k + 1)));
                    assert(seq![f][0] == f);
                    assert(seq![f][0].0 == name@);
                    assert(rec_names_contains(accv, seq![f][0].0));
                    assert(!names_disjoint(accv, seq![f]));
                }
            }
            return None;
        }
        acc.push((name, v));
        proof {
            assert(rec_view(acc@) =~= accv.push(f));
        }
        if k < s.len() && s[k] == 44 {
            proof {
                let specr = spec_parse_record(s@, start as int);
                if spec_parse_fields(s@, k as int + 1) is Some {
                    let (rest, m) = spec_parse_fields(s@, k as int + 1)->Some_0;
                    if rec_names_contains(rest, name@) {
                        assert(spec_parse_fields(s@, cur as int) is None);
                        let w = choose|w: int| 0 <= w < rest.len() && rest[w].0 == name@;
                        assert(rec_names_contains(rec_view(acc@), rest[w].0)) by {
                            assert(rec_view(acc@)[accv.len() as int].0 == name@);
                        }
                        assert(!names_disjoint(rec_view(acc@), rest));
                    } else {
                        assert(spec_parse_fields(s@, cur as int) == Some((seq![f] + rest, m)));
                        assert(names_disjoint(accv, seq![f] + rest) == (names_disjoint(accv, rest)
                            && !rec_names_contains(accv, f.0))) by {
                            assert((seq![f] + rest)[0] == f);
                            assert(forall|q: int|
                                0 <= q < rest.len() ==> (seq![f] + rest)[q + 1] == rest[q]);
                            if names_disjoint(accv, rest) && !rec_names_contains(accv, f.0) {
                                assert forall|q: int| 0 <= q < (seq![f] + rest).len()
                                    implies !rec_names_contains(
                                    accv,
                                    (seq![f] + rest)[q].0,
                                ) by {
                                    if q > 0 {
                                        assert((seq![f] + rest)[q] == rest[q - 1]);
                                    }
                                }
                            }
                        }
                        assert(names_disjoint(rec_view(acc@), rest) == (names_disjoint(accv, rest)
                            && !rec_names_contains(rest, f.0))) by {
                            assert(rec_view(acc@) == accv.push(f));
                            assert forall|q: int|
                                0 <= q < rest.len() implies (rec_names_contains(
                                accv.push(f),
                                rest[q].0,
                            ) == (rec_names_contains(accv, rest[q].0) || rest[q].0 == f.0)) by {
                                if rec_names_contains(accv, rest[q].0) {
                                    let w = choose|w: int|
                                        0 <= w < accv.len() && accv[w].0 == rest[q].0;
                                    assert(accv.push(f)[w].0 == rest[q].0);
                                }
                                if rest[q].0 == f.0 {
                                    assert(accv.push(f)[accv.len() as int].0 == rest[q].0);
                                }
                                if rec_names_contains(accv.push(f), rest[q].0) {
                                    let w = choose|w: int|
                                        0 <= w < accv.push(f).len() && accv.push(f)[w].0
                                            == rest[q].0;
                                    if w < accv.len() {
                                        assert(accv[w].0 == rest[q].0);
                                    }
                                }
                            }
                        }
                        if names_disjoint(rec_view(acc@), rest) {
                            assert(accv + (seq![f] + rest) =~= rec_view(acc@) + rest);
                        }
                    }
                }
            }
            cur = k + 1;
        } else if k < s.len() && s[k] == 125 {
            proof {
                assert(spec_parse_fields(s@, cur as int) == Some((seq![f], k + 1)));
                assert(names_disjoint(accv, seq![f])) by {
                    assert forall|q: int| 0 <= q < seq![f].len() implies !rec_names_contains(
                        accv,
                        seq![f][q].0,
                    ) by {
                        assert(seq![f][q] == f);
                    }
                }
                assert(accv + seq![f] =~= rec_view(acc@));
            }
            return Some((Record { fields: acc }, k + 1));
        } else {
            return None;
        }
    }
}

/// Decodes a whole byte string as one record; see `spec_json_record`.
pub fn json_to_record(b: &Vec<u8>) -> (r: Option<Record>)
    ensures
        match r {
            Some(rec) => spec_json_record(b@) == Some(rec@),
            None => spec_json_record(b@) is None,
        },
{
    match parse_record_at(b, 0) {
        Some((rec, j)) => if j == b.len() {
            Some(rec)
        } else {
            None
        },
        None => None,
    }
}

} // verus!

verus! {

/// Checks the shape of a number literal; see `wf_num`.
pub fn check_num_text(t: &String) -> (r: bool)
    ensures
        r == wf_num(t@),
{
    if !t.as_str().is_ascii() {
        return false;
    }
    let b = t.as_str().as_bytes_vec();
    proof {
        assert(b@ == encode_utf8(t@));
    }
    if b.len() == 0 {
        return false;
    }
    if !(b[0] == 45 || (48 <= b[0] && b[0] <= 57)) {
        proof {
            assert(!(b@[0] == 45 || is_digit_byte(b@[0])));
        }
        return false;
    }
    let mut q: usize = 0;
    while q < b.len()
        invariant
            0 <= q <= b@.len(),
            b@ == encode_utf8(t@),
            is_ascii_chars(t@),
            b@.len() >= 1,
            b@[0] == 45 || is_digit_byte(b@[0]),
            forall|i: int| 0 <= i < q ==> is_num_byte(#[trigger] b@[i]),
        decreases b@.len() - q,
    {
        let c = b[q];
        if !((48 <= c && c <= 57) || c == 45 || c == 43 || c == 46 || c == 101 || c == 69) {
            proof {
                assert(!is_num_byte(b@[q as int]));
                assert(!wf_num_bytes(b@));
            }
            return false;
        }
        q += 1;
    }
    match parse_canon_u64(&b) {
        Some(_) => false,
        None => true,
    }
}

pub fn check_jval_wf(v: &JsonVal) -> (r: bool)
    ensures
        r == wf_jval(v@),
{
    match v {
        JsonVal::Num(t) => check_num_text(t),
        JsonVal::Nested(t) => check_nested_text(t),
        _ => true,
    }
}

/// Checks value shapes and field-name uniqueness; see `wf_record`.
pub fn check_record_wf(rec: &Record) -> (r: bool)
    ensures
        r == wf_record(rec@),
{
    let mut q: usize = 0;
    while q < rec.fields.len()
        invariant
            0 <= q <= rec.fields@.len(),
            forall|i: int| 0 <= i < q ==> wf_jval(#[trigger] rec@[i].1),
            forall|i: int, j: int| 0 <= i < j < q ==> rec@[i].0 != rec@[j].0,
        decreases rec.fields@.len() - q,
    {
        proof {
            assert(rec@[q as int] == (rec.fields@[q as int].0@, rec.fields@[q as int].1@));
        }
        if !check_jval_wf(&rec.fields[q].1) {
            proof {
                assert(!wf_jval(rec@[q as int].1));
            }
            return false;
        }
        let mut w: usize = 0;
        while w < q
            invariant
                0 <= w <= q < rec.fields@.len(),
                forall|i: int| 0 <= i < w ==> rec@[i].0 != rec@[q as int].0,
            decreases q - w,
        {
            proof {
                assert(rec@[w as int] == (rec.fields@[w as int].0@, rec.fields@[w as int].1@));
                assert(rec@[q as int] == (rec.fields@[q as int].0@, rec.fields@[q as int].1@));
            }
            if rec.fields[w].0.eq(&rec.fields[q].0) {
                proof {
                    assert(rec@[w as int].0 == rec@[q as int].0);
                }
                return false;
            }
            w += 1;
        }
        q += 1;
    }
    true
}

} // verus!
