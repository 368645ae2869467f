//! Query-parameter interpretation: the engine's error taxonomy, decimal
//! parsing for the numeric parameters, and the dispatch from sort-key and
//! flag strings to their closed enumerations.

use vstd::prelude::*;

use crate::analyzer::is_digit_char;
use crate::pipeline::SortKey;
use crate::text::str_eq;

verus! {

/// The engine's error taxonomy: an unknown external id on update or delete,
/// or an unparseable numeric query parameter.
#[derive(Clone, Copy, Debug, PartialEq, Eq, Structural)]
pub enum EngineError {
    NotFound,
    InvalidArgument,
}

/// Whether a string is one or more decimal digits.
pub open spec fn is_digit_seq(s: Seq<char>) -> bool {
    s.len() > 0 && forall|j: int| 0 <= j < s.len() ==> is_digit_char(#[trigger] s[j])
}

/// The value of a decimal digit string.
pub open spec fn digits_val(s: Seq<char>) -> int
    decreases s.len(),
{
    if s.len() == 0 {
        0
    } else {
        digits_val(s.drop_last()) * 10 + (s.last() as u32 - 48)
    }
}

proof fn lemma_digits_val_nonneg(s: Seq<char>)
    requires
        forall|j: int| 0 <= j < s.len() ==> is_digit_char(#[trigger] s[j]),
    ensures
        digits_val(s) >= 0,
    decreases s.len(),
{
    if s.len() > 0 {
        assert(forall|j: int|
            0 <= j < s.drop_last().len() ==> is_digit_char(#[trigger] s.drop_last()[j]));
        lemma_digits_val_nonneg(s.drop_last());
    }
}

proof fn lemma_digits_val_grow(s: Seq<char>, i: int)
    requires
        forall|j: int| 0 <= j < s.len() ==> is_digit_char(#[trigger] s[j]),
        0 <= i <= s.len(),
    ensures
        digits_val(s.take(i)) <= digits_val(s),
    decreases s.len() - i,
{
    if i < s.len() {
        lemma_digits_val_grow(s, i + 1);
        assert(s.take(i + 1).drop_last() =~= s.take(i));
        assert(s.take(i + 1).last() == s[i]);
        assert(forall|j: int| 0 <= j < s.take(i).len() ==> is_digit_char(#[trigger] s.take(i)[j]));
        lemma_digits_val_nonneg(s.take(i));
        assert(digits_val(s.take(i + 1)) == digits_val(s.take(i)) * 10 + (s[i] as u32 - 48));
        assert(digits_val(s.take(i)) <= digits_val(s.take(i)) * 10);
    } else {
        assert(s.take(i) =~= s);
    }
}

/// Parse a non-negative decimal number. Returns `Ok` exactly when the
/// string is one or more decimal digits and the value fits in `u64`;
/// everything else is an [`EngineError::InvalidArgument`].
pub fn parse_count(s: &str) -> (r: Result<u64, EngineError>)
    ensures
        (is_digit_seq(s@) && digits_val(s@) <= u64::MAX) ==> r == Ok::<u64, EngineError>(
            digits_val(s@) as u64,
        ),
        !(is_digit_seq(s@) && digits_val(s@) <= u64::MAX) ==> r == Err::<u64, EngineError>(
            EngineError::InvalidArgument,
        ),
{
    let n = s.unicode_len();
    if n == 0 {
        return Err(EngineError::InvalidArgument);
    }
    let mut acc: u64 = 0;
    let mut i: usize = 0;
    proof {
        assert(s@.take(0) =~= Seq::<char>::empty());
    }
    while i < n
        invariant
            n == s@.len(),
            i <= n,
            forall|j: int| 0 <= j < i ==> is_digit_char(#[trigger] s@[j]),
            acc == digits_val(s@.take(i as int)),
        decreases n - i,
    {
        let c = s.get_char(i);
        let u = c as u32;
        if u < 48 || u > 57 {
            proof {
                assert(!is_digit_char(s@[i as int]));
            }
            return Err(EngineError::InvalidArgument);
        }
        let d = (u - 48) as u64;
        let next = acc as u128 * 10 + d as u128;
        proof {
            assert(s@.take(i + 1).drop_last() =~= s@.take(i as int));
            assert(s@.take(i + 1).last() == s@[i as int]);
            assert(digits_val(s@.take(i + 1)) == digits_val(s@.take(i as int)) * 10 + (s@[i as int]
                as u32 - 48));
        }
        if next > u64::MAX as u128 {
            proof {
                assert(digits_val(s@.take(i + 1)) > u64::MAX);
                if is_digit_seq(s@) {
                    lemma_digits_val_grow(s@, i + 1);
                }
            }
            return Err(EngineError::InvalidArgument);
        }
        acc = next as u64;
        i = i + 1;
    }
    proof {
        assert(s@.take(n as int) =~= s@);
        lemma_digits_val_nonneg(s@);
    }
    Ok(acc)
}

/// Parse the `skip` and `take` parameters: a non-negative number that fits
/// the machine's index type.
pub fn parse_skip_take(s: &str) -> (r: Result<usize, EngineError>)
    ensures
        (is_digit_seq(s@) && digits_val(s@) <= usize::MAX) ==> r == Ok::<usize, EngineError>(
            digits_val(s@) as usize,
        ),
        !(is_digit_seq(s@) && digits_val(s@) <= usize::MAX) ==> r == Err::<usize, EngineError>(
            EngineError::InvalidArgument,
        ),
{
    proof {
        if is_digit_seq(s@) {
            lemma_digits_val_nonneg(s@);
        }
    }
    match parse_count(s) {
        Ok(v) => {
            if v <= usize::MAX as u64 {
                Ok(v as usize)
            } else {
                Err(EngineError::InvalidArgument)
            }
        },
        Err(e) => Err(e),
    }
}

/// Parse the `rating` minimum: a number up to 255.
pub fn parse_rating(s: &str) -> (r: Result<u8, EngineError>)
    ensures
        (is_digit_seq(s@) && digits_val(s@) <= 255) ==> r == Ok::<u8, EngineError>(digits_val(s@)
            as u8),
        !(is_digit_seq(s@) && digits_val(s@) <= 255) ==> r == Err::<u8, EngineError>(
            EngineError::InvalidArgument,
        ),
{
    proof {
        if is_digit_seq(s@) {
            lemma_digits_val_nonneg(s@);
        }
    }
    match parse_count(s) {
        Ok(v) => {
            if v <= 255 {
                Ok(v as u8)
            } else {
                Err(EngineError::InvalidArgument)
            }
        },
        Err(e) => Err(e),
    }
}

/// Parse a duration bound: a number up to 65535.
pub fn parse_duration(s: &str) -> (r: Result<u16, EngineError>)
    ensures
        (is_digit_seq(s@) && digits_val(s@) <= 65535) ==> r == Ok::<u16, EngineError>(digits_val(
            s@,
        ) as u16),
        !(is_digit_seq(s@) && digits_val(s@) <= 65535) ==> r == Err::<u16, EngineError>(
            EngineError::InvalidArgument,
        ),
{
    proof {
        if is_digit_seq(s@) {
            lemma_digits_val_nonneg(s@);
        }
    }
    match parse_count(s) {
        Ok(v) => {
            if v <= 65535 {
                Ok(v as u16)
            } else {
                Err(EngineError::InvalidArgument)
            }
        },
        Err(e) => Err(e),
    }
}

/// The sort key a `sort_by` parameter names; `None` for an unrecognized or
/// absent key, which falls back to relevance order.
pub open spec fn sort_key_of(s: Seq<char>) -> Option<SortKey> {
    if s == "name"@ || s == "alpha"@ {
        Some(SortKey::Name)
    } else if s == "rating"@ {
        Some(SortKey::Rating)
    } else if s == "addedOn"@ || s == "added_on"@ {
        Some(SortKey::AddedOn)
    } else if s == "duration"@ {
        Some(SortKey::Duration)
    } else if s == "resolution"@ {
        Some(SortKey::Resolution)
    } else if s == "size"@ {
        Some(SortKey::Size)
    } else if s == "views"@ {
        Some(SortKey::Views)
    } else if s == "date"@ {
        Some(SortKey::Date)
    } else {
        None
    }
}

/// Map a `sort_by` parameter to its sort key. An unrecognized key yields
/// `None`: the request is not failed, the order falls back to relevance.
pub fn parse_sort_key(s: &str) -> (r: Option<SortKey>)
    ensures
        r == sort_key_of(s@),
{
    if str_eq(s, "name") || str_eq(s, "alpha") {
        Some(SortKey::Name)
    } else if str_eq(s, "rating") {
        Some(SortKey::Rating)
    } else if str_eq(s, "addedOn") || str_eq(s, "added_on") {
        Some(SortKey::AddedOn)
    } else if str_eq(s, "duration") {
        Some(SortKey::Duration)
    } else if str_eq(s, "resolution") {
        Some(SortKey::Resolution)
    } else if str_eq(s, "size") {
        Some(SortKey::Size)
    } else if str_eq(s, "views") {
        Some(SortKey::Views)
    } else if str_eq(s, "date") {
        Some(SortKey::Date)
    } else {
        None
    }
}

/// Whether a `sort_dir` parameter asks for ascending order: exactly the
/// string `asc`; anything else, or its absence, means descending.
pub fn parse_sort_dir(s: &str) -> (r: bool)
    ensures
        r == (s@ == "asc"@),
{
    str_eq(s, "asc")
}

/// Whether a boolean filter parameter is on: exactly the string `true`;
/// any other value disables the filter.
pub fn parse_flag(s: &str) -> (r: bool)
    ensures
        r == (s@ == "true"@),
{
    str_eq(s, "true")
}

} // verus!
