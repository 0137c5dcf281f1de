//! Byte-range arguments: `offset,length`, two unsigned decimal numbers
//! split at the first comma. A malformed argument is a configuration
//! error, fatal before any subscription is attempted.

use vstd::prelude::*;
use vstd::slice::{slice_index_get, slice_subrange};
use crate::errors::ConfigError;

verus! {

/// A byte range applied to account data in notifications.
#[derive(Debug, Clone, Copy, PartialEq, Eq, Structural)]
pub struct DataSlice {
    pub offset: usize,
    pub length: usize,
}

/// An ASCII decimal digit.
pub open spec fn is_digit(b: u8) -> bool {
    48 <= b && b <= 57
}

/// Every byte is a decimal digit.
pub open spec fn all_digits(s: Seq<u8>) -> bool {
    forall|i: int| 0 <= i < s.len() ==> is_digit(s[i])
}

/// The numeric value of a digit string, most significant first.
pub open spec fn dec_value(s: Seq<u8>) -> int
    decreases s.len(),
{
    if s.len() == 0 {
        0
    } else {
        dec_value(s.drop_last()) * 10 + (s.last() - 48)
    }
}

/// The digits of an unsigned decimal literal: everything after one
/// optional leading `+`.
pub open spec fn digits_part(s: Seq<u8>) -> Seq<u8> {
    if s.len() > 0 && s[0] == 43 {
        s.drop_first()
    } else {
        s
    }
}

/// An unsigned decimal literal: an optional leading `+`, then at least
/// one digit.
pub open spec fn is_dec(s: Seq<u8>) -> bool {
    digits_part(s).len() > 0 && all_digits(digits_part(s))
}

/// A decimal literal that fits the machine's word.
pub open spec fn parses_to_usize(s: Seq<u8>) -> bool {
    is_dec(s) && dec_value(digits_part(s)) <= usize::MAX
}

proof fn lemma_dec_nonneg(s: Seq<u8>)
    requires
        all_digits(s),
    ensures
        dec_value(s) >= 0,
    decreases s.len(),
{
    if s.len() > 0 {
        lemma_dec_nonneg(s.drop_last());
    }
}

/// Appending digits never shrinks the value.
proof fn lemma_dec_prefix(s: Seq<u8>, i: int)
    requires
        all_digits(s),
        0 <= i <= s.len(),
    ensures
        dec_value(s.take(i)) <= dec_value(s),
    decreases s.len(),
{
    if i == s.len() {
        assert(s.take(i) =~= s);
    } else {
        let head = s.drop_last();
        assert(s.take(i) =~= head.take(i));
        lemma_dec_prefix(head, i);
        lemma_dec_nonneg(head);
        assert(dec_value(head) * 10 >= dec_value(head));
        assert(s.last() - 48 >= 0);
    }
}

/// Parse an unsigned decimal number as the standard library's integer
/// parsing accepts it: one optional leading `+`, then at least one digit,
/// rejecting values over the machine word's maximum.
pub fn parse_usize(s: &[u8]) -> (r: Option<usize>)
    ensures
        match r {
            Some(v) => is_dec(s@) && v == dec_value(digits_part(s@)),
            None => !is_dec(s@) || dec_value(digits_part(s@)) > usize::MAX,
        },
{
    let n = s.len();
    let start: usize = if n > 0 && *slice_index_get(s, 0) == 43 {
        1
    } else {
        0
    };
    let ghost d = digits_part(s@);
    proof {
        assert(d =~= s@.skip(start as int));
    }
    if start == n {
        return None;
    }
    let mut acc: usize = 0;
    let mut i: usize = start;
    while i < n
        invariant
            start <= i <= n,
            n == s@.len(),
            d == digits_part(s@),
            d =~= s@.skip(start as int),
            forall|j: int| start <= j < i ==> is_digit(s@[j]),
            acc == dec_value(d.take(i - start)),
        decreases n - i,
    {
        let b = *slice_index_get(s, i);
        if !(48 <= b && b <= 57) {
            proof {
                assert(d[i - start] == s@[i as int]);
                assert(!all_digits(d));
            }
            return None;
        }
        let dg = b - 48;
        let wide: u128 = (acc as u128) * 10 + (dg as u128);
        proof {
            assert(d.take(i + 1 - start).drop_last() =~= d.take(i - start));
            assert(d.take(i + 1 - start).last() == s@[i as int]);
            assert(dec_value(d.take(i + 1 - start)) == wide);
        }
        if wide > (usize::MAX as u128) {
            proof {
                if all_digits(d) {
                    lemma_dec_prefix(d, i + 1 - start);
                }
            }
            return None;
        }
        acc = wide as usize;
        i += 1;
    }
    proof {
        assert(d.take(i - start) =~= d);
        assert forall|j: int| 0 <= j < d.len() implies is_digit(d[j]) by {
            assert(d[j] == s@[j + start]);
        }
        assert(d.len() > 0);
    }
    Some(acc)
}

/// Index of the first comma in `s`, or `s.len()` if there is none.
pub open spec fn find_comma(s: Seq<u8>) -> int
    decreases s.len(),
{
    if s.len() == 0 {
        0
    } else if s[0] == 44 {
        0
    } else {
        1 + find_comma(s.drop_first())
    }
}

proof fn lemma_find_comma(s: Seq<u8>)
    ensures
        0 <= find_comma(s) <= s.len(),
        forall|j: int| 0 <= j < find_comma(s) ==> s[j] != 44,
        find_comma(s) < s.len() ==> s[find_comma(s)] == 44,
    decreases s.len(),
{
    if s.len() > 0 && s[0] != 44 {
        lemma_find_comma(s.drop_first());
        assert forall|j: int| 0 <= j < find_comma(s) implies s[j] != 44 by {
            if j > 0 {
                assert(s.drop_first()[j - 1] != 44);
            }
        }
    }
}

/// Parse an optional byte-range argument. No argument applies no slice;
/// an argument must be `offset,length`, split at its first comma, with
/// both sides unsigned decimal numbers — anything else is a configuration
/// error.
pub fn parse_data_slice(arg: Option<&[u8]>) -> (r: Result<Option<DataSlice>, ConfigError>)
    ensures
        arg is None ==> r == Ok::<Option<DataSlice>, ConfigError>(None),
        arg matches Some(s) ==> ({
            let k = find_comma(s@);
            let left = s@.subrange(0, k);
            let right = s@.subrange(k + 1, s@.len() as int);
            if k < s@.len() && parses_to_usize(left) && parses_to_usize(right) {
                r == Ok::<Option<DataSlice>, ConfigError>(
                    Some(
                        (DataSlice {
                            offset: dec_value(digits_part(left)) as usize,
                            length: dec_value(digits_part(right)) as usize,
                        }),
                    ),
                )
            } else {
                r == Err::<Option<DataSlice>, ConfigError>(ConfigError::InvalidDataSlice)
            }
        }),
{
    let s = match arg {
        Some(s) => s,
        None => {
            return Ok(None);
        },
    };
    let n = s.len();
    let mut k: usize = 0;
    while k < n && *slice_index_get(s, k) != 44
        invariant
            k <= n,
            n == s@.len(),
            forall|j: int| 0 <= j < k ==> s@[j] != 44,
        decreases n - k,
    {
        k += 1;
    }
    proof {
        lemma_find_comma(s@);
        if k < find_comma(s@) {
            assert(s@[k as int] != 44);
        }
        if find_comma(s@) < k {
            assert(s@[find_comma(s@)] != 44);
        }
        assert(k == find_comma(s@));
    }
    if k == n {
        return Err(ConfigError::InvalidDataSlice);
    }
    let left = slice_subrange(s, 0, k);
    let right = slice_subrange(s, k + 1, n);
    match (parse_usize(left), parse_usize(right)) {
        (Some(offset), Some(length)) => Ok(Some(DataSlice { offset, length })),
        _ => Err(ConfigError::InvalidDataSlice),
    }
}

} // verus!
