//! Window-title text handling.
//!
//! The operating system reports a window's title as a fixed-size buffer of
//! UTF-16 code units, NUL-terminated when the title is shorter than the
//! buffer (titles longer than the buffer are truncated — a documented
//! limitation, not an error). The code units before the first NUL are
//! decoded to text; a buffer whose prefix is not valid UTF-16 (an unpaired
//! surrogate) yields no title, and such windows are skipped.

use vstd::prelude::*;
use vstd::string::StrSliceExecFns;

verus! {

/// Relies on `char::from_u32` of std: it returns the `char` with the given
/// scalar value, and `None` exactly when the value is a surrogate or above
/// the maximum code point.
pub assume_specification[ char::from_u32 ](v: u32) -> (r: Option<char>)
    ensures
        r == (if (0xD800 <= v && v < 0xE000) || v > 0x10FFFF {
            None
        } else {
            Some(v as char)
        }),
;

/// Relies on `String::push` of std: it appends the given character to the
/// end of the string.
pub assume_specification[ String::push ](s: &mut String, c: char)
    ensures
        final(s)@ == old(s)@.push(c),
;

/// A UTF-16 code unit that opens a surrogate pair.
pub open spec fn is_high_surrogate(u: u16) -> bool {
    0xD800 <= u && u < 0xDC00
}

/// A UTF-16 code unit that closes a surrogate pair.
pub open spec fn is_low_surrogate(u: u16) -> bool {
    0xDC00 <= u && u < 0xE000
}

/// The scalar value encoded by a surrogate pair.
pub open spec fn surrogate_scalar(hi: u16, lo: u16) -> u32
    recommends
        is_high_surrogate(hi),
        is_low_surrogate(lo),
{
    (0x10000 + (hi - 0xD800) * 0x400 + (lo - 0xDC00)) as u32
}

/// UTF-16 decoding: the sequence of characters the code units encode, or
/// `None` when a surrogate is unpaired.
pub open spec fn utf16_decode(units: Seq<u16>) -> Option<Seq<char>>
    decreases units.len(),
{
    if units.len() == 0 {
        Some(Seq::empty())
    } else if is_high_surrogate(units[0]) {
        if units.len() >= 2 && is_low_surrogate(units[1]) {
            match utf16_decode(units.skip(2)) {
                Some(rest) => Some(
                    seq![surrogate_scalar(units[0], units[1]) as char] + rest,
                ),
                None => None,
            }
        } else {
            None
        }
    } else if is_low_surrogate(units[0]) {
        None
    } else {
        match utf16_decode(units.skip(1)) {
            Some(rest) => Some(seq![(units[0] as u32) as char] + rest),
            None => None,
        }
    }
}

/// Decoding distributes over concatenation: when a prefix decodes on its
/// own, the whole decodes exactly when the remainder does, to the
/// concatenation of the two decodings.
pub proof fn lemma_utf16_decode_concat(s: Seq<u16>, t: Seq<u16>)
    requires
        utf16_decode(s) is Some,
    ensures
        utf16_decode(t) is Some ==> utf16_decode(s + t) == Some(
            utf16_decode(s).unwrap() + utf16_decode(t).unwrap(),
        ),
        utf16_decode(t) is None ==> utf16_decode(s + t) is None,
    decreases s.len(),
{
    if s.len() == 0 {
        assert(s + t =~= t);
        if utf16_decode(t) is Some {
            assert(utf16_decode(s).unwrap() + utf16_decode(t).unwrap() =~= utf16_decode(
                t,
            ).unwrap());
        }
    } else if is_high_surrogate(s[0]) {
        assert((s + t)[0] == s[0]);
        assert((s + t)[1] == s[1]);
        assert((s + t).skip(2) =~= s.skip(2) + t);
        lemma_utf16_decode_concat(s.skip(2), t);
        if utf16_decode(t) is Some {
            assert(seq![surrogate_scalar(s[0], s[1]) as char] + (utf16_decode(s.skip(2)).unwrap()
                + utf16_decode(t).unwrap()) =~= utf16_decode(s).unwrap() + utf16_decode(
                t,
            ).unwrap());
        }
    } else {
        assert((s + t)[0] == s[0]);
        assert((s + t).skip(1) =~= s.skip(1) + t);
        lemma_utf16_decode_concat(s.skip(1), t);
        if utf16_decode(t) is Some {
            assert(seq![(s[0] as u32) as char] + (utf16_decode(s.skip(1)).unwrap() + utf16_decode(
                t,
            ).unwrap()) =~= utf16_decode(s).unwrap() + utf16_decode(t).unwrap());
        }
    }
}

/// Decode a sequence of UTF-16 code units, or report `None` when they are
/// not valid UTF-16.
#[verifier::rlimit(50)]
pub fn decode_utf16_units(units: &[u16]) -> (r: Option<String>)
    ensures
        r matches Some(s) ==> utf16_decode(units@) == Some(s@),
        r is None ==> utf16_decode(units@) is None,
{
    let n = units.len();
    let mut out = String::new();
    let mut i: usize = 0;
    while i < n
        invariant
            i <= n,
            n == units@.len(),
            utf16_decode(units@.take(i as int)) == Some(out@),
        decreases n - i,
    {
        let u = *vstd::slice::slice_index_get(units, i);
        if 0xD800 <= u && u < 0xDC00 {
            // An opening surrogate must be followed by a closing one.
            if i + 1 < n {
                let lo = *vstd::slice::slice_index_get(units, i + 1);
                if 0xDC00 <= lo && lo < 0xE000 {
                    let scalar: u32 = 0x10000 + (u as u32 - 0xD800) * 0x400 + (lo as u32 - 0xDC00);
                    let c = match char::from_u32(scalar) {
                        Some(c) => c,
                        None => {
                            proof {
                                assert(false);
                            }
                            return None;
                        },
                    };
                    out.push(c);
                    proof {
                        reveal_with_fuel(utf16_decode, 3);
                        let prefix = units@.take(i as int);
                        let pair = seq![u, lo];
                        assert(pair.skip(2) =~= Seq::<u16>::empty());
                        assert(utf16_decode(pair) is Some);
                        assert(utf16_decode(pair).unwrap() =~= seq![c]);
                        lemma_utf16_decode_concat(prefix, pair);
                        assert(units@.take(i + 2) =~= prefix + pair);
                        assert(utf16_decode(prefix).unwrap() + utf16_decode(pair).unwrap()
                            =~= out@);
                    }
                    i += 2;
                } else {
                    proof {
                        let prefix = units@.take(i as int);
                        let rest = units@.skip(i as int);
                        assert(rest[0] == u);
                        assert(rest[1] == lo);
                        assert(utf16_decode(rest) is None);
                        lemma_utf16_decode_concat(prefix, rest);
                        assert(prefix + rest =~= units@);
                    }
                    return None;
                }
            } else {
                proof {
                    let prefix = units@.take(i as int);
                    let rest = units@.skip(i as int);
                    assert(rest.len() == 1 && rest[0] == u);
                    assert(utf16_decode(rest) is None);
                    lemma_utf16_decode_concat(prefix, rest);
                    assert(prefix + rest =~= units@);
                }
                return None;
            }
        } else if 0xDC00 <= u && u < 0xE000 {
            proof {
                let prefix = units@.take(i as int);
                let rest = units@.skip(i as int);
                assert(rest[0] == u);
                assert(utf16_decode(rest) is None);
                lemma_utf16_decode_concat(prefix, rest);
                assert(prefix + rest =~= units@);
            }
            return None;
        } else {
            let c = match char::from_u32(u as u32) {
                Some(c) => c,
                None => {
                    proof {
                        assert(false);
                    }
                    return None;
                },
            };
            out.push(c);
            proof {
                reveal_with_fuel(utf16_decode, 3);
                let prefix = units@.take(i as int);
                let one = seq![u];
                assert(one.skip(1) =~= Seq::<u16>::empty());
                assert(utf16_decode(one) is Some);
                assert(utf16_decode(one).unwrap() =~= seq![c]);
                lemma_utf16_decode_concat(prefix, one);
                assert(units@.take(i + 1) =~= prefix + one);
                assert(utf16_decode(prefix).unwrap() + utf16_decode(one).unwrap() =~= out@);
            }
            i += 1;
        }
    }
    proof {
        assert(units@.take(n as int) =~= units@);
    }
    Some(out)
}

/// The code units before the first NUL; the whole sequence when it holds
/// no NUL.
pub open spec fn nul_prefix(units: Seq<u16>) -> Seq<u16>
    decreases units.len(),
{
    if units.len() == 0 {
        units
    } else if units[0] == 0 {
        Seq::empty()
    } else {
        seq![units[0]] + nul_prefix(units.skip(1))
    }
}

/// `nul_prefix` is exactly the prefix up to the first NUL.
pub proof fn lemma_nul_prefix_take(units: Seq<u16>, k: int)
    requires
        0 <= k <= units.len(),
        forall|j: int| 0 <= j < k ==> units[j] != 0,
        k < units.len() ==> units[k] == 0,
    ensures
        nul_prefix(units) == units.take(k),
    decreases units.len(),
{
    if units.len() == 0 {
        assert(units.take(k) =~= units);
    } else if k == 0 {
        assert(units.take(0) =~= Seq::<u16>::empty());
    } else {
        assert(forall|j: int| 0 <= j < k - 1 ==> units.skip(1)[j] == units[j + 1]);
        lemma_nul_prefix_take(units.skip(1), k - 1);
        assert(seq![units[0]] + units.skip(1).take(k - 1) =~= units.take(k));
    }
}

/// The title a raw title buffer holds: the code units before the first NUL,
/// decoded; `None` when they are not valid UTF-16.
pub open spec fn title_of_buffer(units: Seq<u16>) -> Option<Seq<char>> {
    utf16_decode(nul_prefix(units))
}

/// Decode the title text out of a raw, NUL-terminated title buffer.
pub fn decode_title(buffer: &Vec<u16>) -> (r: Option<String>)
    ensures
        r matches Some(s) ==> title_of_buffer(buffer@) == Some(s@),
        r is None ==> title_of_buffer(buffer@) is None,
{
    let n = buffer.len();
    let mut k: usize = 0;
    while k < n && *vstd::slice::slice_index_get(buffer.as_slice(), k) != 0
        invariant
            k <= n,
            n == buffer@.len(),
            forall|j: int| 0 <= j < k ==> buffer@[j] != 0,
        decreases n - k,
    {
        k += 1;
    }
    proof {
        lemma_nul_prefix_take(buffer@, k as int);
    }
    let prefix = vstd::slice::slice_subrange(buffer.as_slice(), 0, k);
    proof {
        assert(buffer@.subrange(0, k as int) =~= buffer@.take(k as int));
    }
    decode_utf16_units(prefix)
}

/// Strict lexicographic order on text, comparing characters by code point —
/// the order window titles are listed in.
pub open spec fn lex_lt(a: Seq<char>, b: Seq<char>) -> bool
    decreases a.len(),
{
    if b.len() == 0 {
        false
    } else if a.len() == 0 {
        true
    } else if a[0] != b[0] {
        (a[0] as u32) < (b[0] as u32)
    } else {
        lex_lt(a.skip(1), b.skip(1))
    }
}

/// Nothing is lexicographically below itself.
pub proof fn lemma_lex_lt_irrefl(a: Seq<char>)
    ensures
        !lex_lt(a, a),
    decreases a.len(),
{
    if a.len() > 0 {
        lemma_lex_lt_irrefl(a.skip(1));
    }
}

/// Two texts neither of which is below the other are equal.
pub proof fn lemma_lex_lt_connex(a: Seq<char>, b: Seq<char>)
    requires
        !lex_lt(a, b),
        !lex_lt(b, a),
    ensures
        a == b,
    decreases a.len(),
{
    if a.len() == 0 || b.len() == 0 {
        assert(a =~= b);
    } else {
        vstd::utf8::char_u32_cast(a[0], a[0] as u32);
        vstd::utf8::char_u32_cast(b[0], b[0] as u32);
        assert(a[0] == b[0]);
        lemma_lex_lt_connex(a.skip(1), b.skip(1));
        assert(a =~= seq![a[0]] + a.skip(1));
        assert(b =~= seq![b[0]] + b.skip(1));
    }
}

/// Lexicographic order is transitive.
pub proof fn lemma_lex_lt_trans(a: Seq<char>, b: Seq<char>, c: Seq<char>)
    requires
        lex_lt(a, b),
        lex_lt(b, c),
    ensures
        lex_lt(a, c),
    decreases a.len(),
{
    if a.len() == 0 {
    } else if a[0] == b[0] && b[0] == c[0] {
        lemma_lex_lt_trans(a.skip(1), b.skip(1), c.skip(1));
    }
}

/// Transitivity mixing the strict and the reflexive order: what is not
/// above `a` and strictly below `c` leaves `a` strictly below `c`.
pub proof fn lemma_lex_le_lt_trans(a: Seq<char>, b: Seq<char>, c: Seq<char>)
    requires
        !lex_lt(b, a),
        lex_lt(b, c),
    ensures
        lex_lt(a, c),
{
    if !lex_lt(a, c) {
        if lex_lt(c, a) {
            lemma_lex_lt_trans(b, c, a);
        } else {
            lemma_lex_lt_connex(a, c);
        }
    }
}

/// Compare two title texts in the lexicographic order.
pub fn title_lt(a: &str, b: &str) -> (r: bool)
    ensures
        r == lex_lt(a@, b@),
{
    let alen = a.unicode_len();
    let blen = b.unicode_len();
    let mut i: usize = 0;
    loop
        invariant
            i <= alen,
            i <= blen,
            alen == a@.len(),
            blen == b@.len(),
            forall|j: int| 0 <= j < i ==> a@[j] == b@[j],
        decreases alen - i,
    {
        proof {
            lemma_lex_lt_skip(a@, b@, i as int);
        }
        if i >= alen || i >= blen {
            return alen < blen;
        }
        let ca = a.get_char(i);
        let cb = b.get_char(i);
        if ca != cb {
            return (ca as u32) < (cb as u32);
        }
        i += 1;
    }
}

/// Skipping a common prefix does not change the comparison.
pub proof fn lemma_lex_lt_skip(a: Seq<char>, b: Seq<char>, i: int)
    requires
        0 <= i <= a.len(),
        i <= b.len(),
        forall|j: int| 0 <= j < i ==> a[j] == b[j],
    ensures
        lex_lt(a, b) == lex_lt(a.skip(i), b.skip(i)),
    decreases i,
{
    if i > 0 {
        assert(forall|j: int| 0 <= j < i - 1 ==> a.skip(1)[j] == b.skip(1)[j]);
        lemma_lex_lt_skip(a.skip(1), b.skip(1), i - 1);
        assert(a.skip(1).skip(i - 1) =~= a.skip(i));
        assert(b.skip(1).skip(i - 1) =~= b.skip(i));
    } else {
        assert(a.skip(0) =~= a);
        assert(b.skip(0) =~= b);
    }
}

/// Whether two texts are the same sequence of characters.
pub fn str_eq(a: &str, b: &str) -> (r: bool)
    ensures
        r == (a@ == b@),
{
    let alen = a.unicode_len();
    let blen = b.unicode_len();
    if alen != blen {
        return false;
    }
    let mut i: usize = 0;
    while i < alen
        invariant
            i <= alen,
            alen == a@.len(),
            alen == b@.len(),
            forall|j: int| 0 <= j < i ==> a@[j] == b@[j],
        decreases alen - i,
    {
        if a.get_char(i) != b.get_char(i) {
            return false;
        }
        i += 1;
    }
    proof {
        assert(a@ =~= b@);
    }
    true
}

} // verus!
