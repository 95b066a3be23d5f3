//! Reading unsigned decimal numbers out of catalog tokens.

use vstd::prelude::*;

verus! {

use vstd::arithmetic::div_mod::lemma_fundamental_div_mod;
use vstd::string::StringSliceAdditionalSpecFns;

/// An ASCII decimal digit.
pub open spec fn is_digit_byte(b: u8) -> bool {
    0x30 <= b <= 0x39
}

pub open spec fn all_digits(s: Seq<u8>) -> bool {
    forall|k: int| 0 <= k < s.len() ==> is_digit_byte(#[trigger] s[k])
}

/// The value of an all-digit byte string read in base ten.
pub open spec fn decimal_value(s: Seq<u8>) -> int
    decreases s.len(),
{
    if s.len() == 0 {
        0
    } else {
        decimal_value(s.drop_last()) * 10 + (s.last() - 0x30)
    }
}

proof fn lemma_decimal_nonneg(s: Seq<u8>)
    requires
        all_digits(s),
    ensures
        decimal_value(s) >= 0,
    decreases s.len(),
{
    if s.len() > 0 {
        assert(all_digits(s.drop_last()));
        lemma_decimal_nonneg(s.drop_last());
        let prev = decimal_value(s.drop_last());
        assert(prev * 10 >= 0) by (nonlinear_arith)
            requires
                prev >= 0,
        ;
    }
}

/// Reading further digits never shrinks the value.
proof fn lemma_decimal_prefix_le(s: Seq<u8>, i: int, j: int)
    requires
        0 <= i <= j <= s.len(),
        all_digits(s),
    ensures
        decimal_value(s.subrange(0, i)) <= decimal_value(s.subrange(0, j)),
    decreases j - i,
{
    if i < j {
        lemma_decimal_prefix_le(s, i, j - 1);
        let p = s.subrange(0, j);
        assert(p.drop_last() =~= s.subrange(0, j - 1));
        let prev = decimal_value(s.subrange(0, j - 1));
        assert(all_digits(s.subrange(0, j - 1)));
        lemma_decimal_nonneg(s.subrange(0, j - 1));
        assert(is_digit_byte(s[j - 1]));
        assert(p.last() == s[j - 1]);
        assert(prev * 10 >= prev) by (nonlinear_arith)
            requires
                prev >= 0,
        ;
    }
}

/// Parse an unsigned decimal token: `Some` exactly on non-empty
/// all-digit strings whose value fits a machine word, and then the
/// base-ten value itself.
pub fn parse_decimal(s: &str) -> (r: Option<usize>)
    ensures
        r is Some <==> (s.spec_bytes().len() > 0 && all_digits(s.spec_bytes())
            && decimal_value(s.spec_bytes()) <= usize::MAX as int),
        (match r {
            Some(v) => v as int == decimal_value(s.spec_bytes()),
            None => true,
        }),
{
    let bytes = s.as_bytes();
    if bytes.len() == 0 {
        return None;
    }
    let mut acc: usize = 0;
    let mut i: usize = 0;
    while i < bytes.len()
        invariant
            i <= bytes@.len(),
            bytes@ == s.spec_bytes(),
            all_digits(bytes@.subrange(0, i as int)),
            acc as int == decimal_value(bytes@.subrange(0, i as int)),
        decreases bytes@.len() - i,
    {
        let b = bytes[i];
        if b < 0x30 || 0x39 < b {
            return None;
        }
        let d = (b - 0x30) as usize;
        proof {
            assert forall|k: int| 0 <= k < i + 1 implies is_digit_byte(
                #[trigger] bytes@.subrange(0, i + 1)[k],
            ) by {
                if k < i {
                    assert(bytes@.subrange(0, i as int)[k] == bytes@[k]);
                }
                assert(bytes@.subrange(0, i + 1)[k] == bytes@[k]);
            }
            assert(bytes@.subrange(0, i + 1).drop_last() =~= bytes@.subrange(0, i as int));
            assert(bytes@.subrange(0, i + 1).last() == bytes@[i as int]);
        }
        if acc > (usize::MAX - d) / 10 {
            proof {
                let m = usize::MAX as int;
                lemma_fundamental_div_mod(m - d, 10);
                assert(acc as int * 10 >= ((m - d) / 10 + 1) * 10) by (nonlinear_arith)
                    requires
                        acc as int >= (m - d) / 10 + 1,
                ;
                assert(decimal_value(bytes@.subrange(0, i + 1)) > m);
                if all_digits(bytes@) {
                    lemma_decimal_prefix_le(bytes@, i + 1, bytes@.len() as int);
                    assert(bytes@.subrange(0, bytes@.len() as int) =~= bytes@);
                }
            }
            return None;
        }
        proof {
            let m = usize::MAX as int;
            lemma_fundamental_div_mod(m - d, 10);
            assert(acc as int * 10 <= ((m - d) / 10) * 10) by (nonlinear_arith)
                requires
                    acc as int <= (m - d) / 10,
                    acc >= 0,
            ;
        }
        acc = acc * 10 + d;
        i = i + 1;
    }
    proof {
        assert(bytes@.subrange(0, bytes@.len() as int) =~= bytes@);
    }
    Some(acc)
}

} // verus!
