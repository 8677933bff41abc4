//! Escaping of C1 control codepoints (U+0080 through U+009F) for safe
//! single-line display. In UTF-8 such a codepoint is exactly the byte 0xC2
//! followed by a byte in 0x80..=0x9F; the pair is replaced by the six
//! characters `\u00xy` with lowercase hex digits.

use vstd::prelude::*;

verus! {

/// Lowercase hexadecimal digit for a nibble.
pub open spec fn hex_digit(n: u8) -> u8
    recommends
        n < 16,
{
    if n < 10 {
        (0x30 + n) as u8
    } else {
        (0x57 + n) as u8
    }
}

/// Does a C1 control codepoint start at position 0 of `s`?
pub open spec fn starts_with_c1(s: Seq<u8>) -> bool {
    s.len() >= 2 && s[0] == 0xc2 && 0x80 <= s[1] <= 0x9f
}

/// The six-byte escape `\u00xy` for the C1 codepoint whose second UTF-8
/// byte is `b`.
pub open spec fn c1_escape(b: u8) -> Seq<u8> {
    seq![0x5c, 0x75, 0x30, 0x30, hex_digit(b / 16), hex_digit(b % 16)]
}

/// `s` with every C1 control codepoint replaced by its `\u00xy` escape.
pub open spec fn escape_c1(s: Seq<u8>) -> Seq<u8>
    decreases s.len(),
{
    if s.len() == 0 {
        Seq::empty()
    } else if starts_with_c1(s) {
        c1_escape(s[1]) + escape_c1(s.subrange(2, s.len() as int))
    } else {
        seq![s[0]] + escape_c1(s.subrange(1, s.len() as int))
    }
}

/// `s` holds no C1 control codepoint.
pub open spec fn c1_free(s: Seq<u8>) -> bool {
    forall|i: int| 0 <= i < s.len() ==> !starts_with_c1(s.subrange(i, s.len() as int))
}

/// Append `escape_c1(s@)` to `out`.
pub fn escape_c1_control_codes(s: &[u8], out: &mut Vec<u8>)
    ensures
        final(out)@ == old(out)@ + escape_c1(s@),
{
    let ghost whole = old(out)@ + escape_c1(s@);
    proof {
        assert(s@.subrange(0, s@.len() as int) =~= s@);
    }
    let mut i: usize = 0;
    while i < s.len()
        invariant
            i <= s@.len(),
            out@ + escape_c1(s@.subrange(i as int, s@.len() as int)) == whole,
        decreases s@.len() - i,
    {
        if i + 1 < s.len() && s[i] == 0xc2 && 0x80 <= s[i + 1] && s[i + 1] <= 0x9f {
            let b = s[i + 1];
            proof {
                let rest = s@.subrange(i as int, s@.len() as int);
                assert(rest[0] == s@[i as int] && rest[1] == s@[i as int + 1]);
                assert(starts_with_c1(rest));
                assert(rest.subrange(2, rest.len() as int) =~= s@.subrange(
                    i as int + 2,
                    s@.len() as int,
                ));
            }
            out.push(0x5c);
            out.push(0x75);
            out.push(0x30);
            out.push(0x30);
            out.push(if b / 16 < 10 {
                0x30 + b / 16
            } else {
                0x57 + b / 16
            });
            out.push(if b % 16 < 10 {
                0x30 + b % 16
            } else {
                0x57 + b % 16
            });
            proof {
                let rest = s@.subrange(i as int, s@.len() as int);
                assert(out@ + escape_c1(s@.subrange(i as int + 2, s@.len() as int)) =~= whole);
            }
            i = i + 2;
        } else {
            let b = s[i];
            proof {
                let rest = s@.subrange(i as int, s@.len() as int);
                assert(rest[0] == s@[i as int]);
                assert(!starts_with_c1(rest));
                assert(rest.subrange(1, rest.len() as int) =~= s@.subrange(
                    i as int + 1,
                    s@.len() as int,
                ));
            }
            out.push(b);
            proof {
                assert(out@ + escape_c1(s@.subrange(i as int + 1, s@.len() as int)) =~= whole);
            }
            i = i + 1;
        }
    }
    proof {
        assert(s@.subrange(i as int, s@.len() as int) =~= Seq::<u8>::empty());
        assert(out@ =~= whole);
    }
}

/// A string free of C1 codepoints escapes to itself.
pub proof fn lemma_escape_c1_free(s: Seq<u8>)
    requires
        c1_free(s),
    ensures
        escape_c1(s) == s,
    decreases s.len(),
{
    if s.len() == 0 {
        assert(escape_c1(s) =~= s);
    } else {
        assert(!starts_with_c1(s.subrange(0, s.len() as int))) by {
            assert(c1_free(s));
        }
        assert(s.subrange(0, s.len() as int) =~= s);
        assert(c1_free(s.subrange(1, s.len() as int))) by {
            let t = s.subrange(1, s.len() as int);
            assert forall|i: int| 0 <= i < t.len() implies !starts_with_c1(
                #[trigger] t.subrange(i, t.len() as int),
            ) by {
                assert(t.subrange(i, t.len() as int) =~= s.subrange(i + 1, s.len() as int));
                assert(!starts_with_c1(s.subrange(i + 1, s.len() as int)));
            }
        }
        lemma_escape_c1_free(s.subrange(1, s.len() as int));
        assert(escape_c1(s) =~= s);
    }
}

} // verus!
