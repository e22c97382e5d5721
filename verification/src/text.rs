//! Lossy UTF-8 decoding of datagram payloads, as bytes to bytes: well-formed
//! scalar encodings pass through unchanged, and each maximal ill-formed
//! subsequence becomes exactly one replacement character (U+FFFD).

use vstd::prelude::*;

verus! {

/// The replacement character U+FFFD, as its three encoded bytes.
pub open spec fn replacement_bytes() -> Seq<u8> {
    seq![0xEFu8, 0xBFu8, 0xBDu8]
}

/// A UTF-8 continuation byte.
pub open spec fn is_continuation(b: u8) -> bool {
    0x80 <= b && b <= 0xBF
}

/// How many bytes a well-formed scalar encoding led by `b` has, or 0 when
/// `b` can lead no well-formed encoding.
pub open spec fn lead_width(b: u8) -> int {
    if b < 0x80 {
        1
    } else if 0xC2 <= b && b <= 0xDF {
        2
    } else if 0xE0 <= b && b <= 0xEF {
        3
    } else if 0xF0 <= b && b <= 0xF4 {
        4
    } else {
        0
    }
}

/// The range a second byte must lie in, given the lead byte: the narrow
/// ranges for 0xE0, 0xED, 0xF0 and 0xF4 exclude overlong forms, surrogate
/// code points, and values above the last scalar value.
pub open spec fn valid_second(b0: u8, b1: u8) -> bool {
    if 0xC2 <= b0 && b0 <= 0xDF {
        is_continuation(b1)
    } else if b0 == 0xE0 {
        0xA0 <= b1 && b1 <= 0xBF
    } else if 0xE1 <= b0 && b0 <= 0xEC {
        is_continuation(b1)
    } else if b0 == 0xED {
        0x80 <= b1 && b1 <= 0x9F
    } else if 0xEE <= b0 && b0 <= 0xEF {
        is_continuation(b1)
    } else if b0 == 0xF0 {
        0x90 <= b1 && b1 <= 0xBF
    } else if 0xF1 <= b0 && b0 <= 0xF3 {
        is_continuation(b1)
    } else if b0 == 0xF4 {
        0x80 <= b1 && b1 <= 0x8F
    } else {
        false
    }
}

/// How many bytes the first decoding step consumes: the whole encoding when
/// it is well formed, otherwise the maximal subpart of an ill-formed
/// sequence (always at least one byte).
pub open spec fn step_len(s: Seq<u8>) -> int
    recommends
        s.len() > 0,
{
    let b0 = s[0];
    if lead_width(b0) <= 1 {
        1
    } else if !(s.len() >= 2 && valid_second(b0, s[1])) {
        1
    } else if lead_width(b0) == 2 {
        2
    } else if !(s.len() >= 3 && is_continuation(s[2])) {
        2
    } else if lead_width(b0) == 3 {
        3
    } else if !(s.len() >= 4 && is_continuation(s[3])) {
        3
    } else {
        4
    }
}

/// Whether the first decoding step consumes a well-formed scalar encoding.
pub open spec fn step_ok(s: Seq<u8>) -> bool
    recommends
        s.len() > 0,
{
    lead_width(s[0]) >= 1 && step_len(s) == lead_width(s[0])
}

/// The lossy decoding of `s`, re-encoded as bytes: each well-formed scalar
/// encoding is kept verbatim, and each maximal ill-formed subsequence is
/// replaced by the three bytes of one replacement character.
pub open spec fn utf8_lossy(s: Seq<u8>) -> Seq<u8>
    decreases s.len(),
{
    if s.len() == 0 {
        Seq::empty()
    } else {
        let n = step_len(s);
        (if step_ok(s) {
            s.take(n)
        } else {
            replacement_bytes()
        }) + utf8_lossy(s.skip(n))
    }
}

/// Whether `s` is entirely well-formed UTF-8.
pub open spec fn is_utf8(s: Seq<u8>) -> bool
    decreases s.len(),
{
    s.len() == 0 || (step_ok(s) && is_utf8(s.skip(step_len(s))))
}

/// Well-formed UTF-8 passes through the lossy decoding unchanged: nothing is
/// replaced unless it is ill-formed.
pub proof fn lemma_lossy_preserves_utf8(s: Seq<u8>)
    requires
        is_utf8(s),
    ensures
        utf8_lossy(s) == s,
    decreases s.len(),
{
    if s.len() == 0 {
        assert(utf8_lossy(s) =~= s);
    } else {
        let n = step_len(s);
        assert(1 <= n && n <= s.len());
        lemma_lossy_preserves_utf8(s.skip(n));
        assert(utf8_lossy(s) =~= s);
    }
}

/// A nonempty payload never decodes to nothing: ill-formed input is replaced,
/// not dropped.
pub proof fn lemma_lossy_never_drops(s: Seq<u8>)
    requires
        s.len() > 0,
    ensures
        utf8_lossy(s).len() > 0,
{
    let n = step_len(s);
    assert(utf8_lossy(s) == (if step_ok(s) {
        s.take(n)
    } else {
        replacement_bytes()
    }) + utf8_lossy(s.skip(n)));
}

fn lead_width_of(b: u8) -> (r: usize)
    ensures
        r as int == lead_width(b),
{
    if b < 0x80 {
        1
    } else if 0xC2 <= b && b <= 0xDF {
        2
    } else if 0xE0 <= b && b <= 0xEF {
        3
    } else if 0xF0 <= b && b <= 0xF4 {
        4
    } else {
        0
    }
}

fn is_continuation_byte(b: u8) -> (r: bool)
    ensures
        r == is_continuation(b),
{
    0x80 <= b && b <= 0xBF
}

fn valid_second_byte(b0: u8, b1: u8) -> (r: bool)
    ensures
        r == valid_second(b0, b1),
{
    if 0xC2 <= b0 && b0 <= 0xDF {
        is_continuation_byte(b1)
    } else if b0 == 0xE0 {
        0xA0 <= b1 && b1 <= 0xBF
    } else if 0xE1 <= b0 && b0 <= 0xEC {
        is_continuation_byte(b1)
    } else if b0 == 0xED {
        0x80 <= b1 && b1 <= 0x9F
    } else if 0xEE <= b0 && b0 <= 0xEF {
        is_continuation_byte(b1)
    } else if b0 == 0xF0 {
        0x90 <= b1 && b1 <= 0xBF
    } else if 0xF1 <= b0 && b0 <= 0xF3 {
        is_continuation_byte(b1)
    } else if b0 == 0xF4 {
        0x80 <= b1 && b1 <= 0x8F
    } else {
        false
    }
}

proof fn lemma_skip_skip(s: Seq<u8>, a: int, b: int)
    requires
        0 <= a,
        0 <= b,
        a + b <= s.len(),
    ensures
        s.skip(a).skip(b) == s.skip(a + b),
{
    assert(s.skip(a).skip(b) =~= s.skip(a + b));
}

/// The lossy decoding of a payload, computed byte by byte.
pub fn utf8_lossy_decode(payload: &Vec<u8>) -> (r: Vec<u8>)
    ensures
        r@ == utf8_lossy(payload@),
{
    let n = payload.len();
    let mut out: Vec<u8> = Vec::new();
    let mut i: usize = 0;
    assert(payload@.skip(0) =~= payload@);
    while i < n
        invariant
            n == payload@.len(),
            i <= n,
            utf8_lossy(payload@) == out@ + utf8_lossy(payload@.skip(i as int)),
        decreases n - i,
    {
        let ghost rest = payload@.skip(i as int);
        assert(rest.len() == n - i);
        assert(forall|k: int| 0 <= k < rest.len() ==> rest[k] == payload@[i + k]);
        let b0 = payload[i];
        let avail = n - i;
        let w = lead_width_of(b0);
        let mut len: usize = 1;
        let mut ok: bool = false;
        if w <= 1 {
            len = 1;
            ok = w == 1;
        } else if !(avail >= 2 && valid_second_byte(b0, payload[i + 1])) {
            len = 1;
            ok = false;
        } else if w == 2 {
            len = 2;
            ok = true;
        } else if !(avail >= 3 && is_continuation_byte(payload[i + 2])) {
            len = 2;
            ok = false;
        } else if w == 3 {
            len = 3;
            ok = true;
        } else if !(avail >= 4 && is_continuation_byte(payload[i + 3])) {
            len = 3;
            ok = false;
        } else {
            len = 4;
            ok = true;
        }
        assert(len as int == step_len(rest));
        assert(ok == step_ok(rest));
        let ghost prefix = out@;
        if ok {
            out.push(payload[i]);
            if len >= 2 {
                out.push(payload[i + 1]);
            }
            if len >= 3 {
                out.push(payload[i + 2]);
            }
            if len >= 4 {
                out.push(payload[i + 3]);
            }
            assert(out@ =~= prefix + rest.take(len as int));
        } else {
            out.push(0xEF);
            out.push(0xBF);
            out.push(0xBD);
            assert(out@ =~= prefix + replacement_bytes());
        }
        proof {
            lemma_skip_skip(payload@, i as int, len as int);
            assert(utf8_lossy(rest) == (if step_ok(rest) {
                rest.take(step_len(rest))
            } else {
                replacement_bytes()
            }) + utf8_lossy(rest.skip(step_len(rest))));
            assert(utf8_lossy(payload@) == out@ + utf8_lossy(payload@.skip(i + len)));
        }
        i = i + len;
    }
    assert(payload@.skip(n as int) =~= Seq::<u8>::empty());
    assert(out@ =~= utf8_lossy(payload@));
    out
}

} // verus!
