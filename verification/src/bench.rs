//! The synthetic-benchmark interface: parsing of the pruning-spec string and
//! selection of the similarity-kernel tier.
//!
//! A benchmark request writes its token budgets as `"<query_max>/<doc_max>"`;
//! any other shape (the literal `"none"` included) falls back to the caller's
//! defaults, and so does either side that is not a decimal number.

use vstd::prelude::*;

verus! {

/// `b` is an ASCII decimal digit.
pub open spec fn is_ascii_digit(b: u8) -> bool {
    48 <= b <= 57
}

/// Every byte of `s` is a decimal digit.
pub open spec fn all_digits(s: Seq<u8>) -> bool {
    forall|i: int| 0 <= i < s.len() ==> is_ascii_digit(#[trigger] s[i])
}

/// The number the digit string `s` writes in decimal.
pub open spec fn digits_value(s: Seq<u8>) -> int
    decreases s.len(),
{
    if s.len() == 0 {
        0
    } else {
        digits_value(s.drop_last()) * 10 + (s.last() - 48)
    }
}

/// `s` without its optional leading `+` sign.
pub open spec fn digit_part(s: Seq<u8>) -> Seq<u8> {
    if s.len() > 0 && s[0] == 43 {
        s.drop_first()
    } else {
        s
    }
}

/// `s` is a decimal notation for a `usize`: an optional leading `+`, then at
/// least one digit, writing a number no machine word overflows.
pub open spec fn is_usize_decimal(s: Seq<u8>) -> bool {
    &&& digit_part(s).len() > 0
    &&& all_digits(digit_part(s))
    &&& digits_value(digit_part(s)) <= usize::MAX
}

proof fn lemma_digits_value_nonneg(s: Seq<u8>)
    requires
        all_digits(s),
    ensures
        digits_value(s) >= 0,
    decreases s.len(),
{
    if s.len() > 0 {
        lemma_digits_value_nonneg(s.drop_last());
    }
}

proof fn lemma_digits_value_prefix(s: Seq<u8>, m: int)
    requires
        all_digits(s),
        0 <= m <= s.len(),
    ensures
        digits_value(s) >= digits_value(s.subrange(0, m)),
    decreases s.len() - m,
{
    if m == s.len() {
        assert(s.subrange(0, m) =~= s);
    } else {
        assert(s.subrange(0, m + 1).drop_last() =~= s.subrange(0, m));
        lemma_digits_value_nonneg(s.subrange(0, m));
        lemma_digits_value_prefix(s, m + 1);
    }
}

/// Reads `s` as a decimal `usize`, exactly as strict as the language's own
/// integer parsing: an optional `+`, digits only, `None` on anything else or
/// on overflow.
pub fn parse_usize(s: &[u8]) -> (r: Option<usize>)
    ensures
        is_usize_decimal(s@) ==> r == Some(digits_value(digit_part(s@)) as usize),
        !is_usize_decimal(s@) ==> r is None,
{
    let mut start: usize = 0;
    if s.len() > 0 && s[0] == 43 {
        start = 1;
    }
    proof {
        assert(digit_part(s@) =~= s@.subrange(start as int, s@.len() as int));
    }
    if start == s.len() {
        return None;
    }
    let mut acc: usize = 0;
    let mut i: usize = start;
    while i < s.len()
        invariant
            start <= i <= s@.len(),
            digit_part(s@) =~= s@.subrange(start as int, s@.len() as int),
            all_digits(s@.subrange(start as int, i as int)),
            acc == digits_value(s@.subrange(start as int, i as int)),
        decreases s@.len() - i,
    {
        let b = s[i];
        let ghost done = s@.subrange(start as int, i as int);
        let ghost next = s@.subrange(start as int, i as int + 1);
        proof {
            assert(next.drop_last() =~= done);
        }
        if b < 48 || b > 57 {
            proof {
                assert(digit_part(s@)[i - start] == b);
            }
            return None;
        }
        let d = (b - 48) as usize;
        let widened = match acc.checked_mul(10) {
            Some(m) => m.checked_add(d),
            None => None,
        };
        match widened {
            Some(v) => {
                acc = v;
            },
            None => {
                proof {
                    assert(digits_value(next) > usize::MAX);
                    if all_digits(digit_part(s@)) {
                        lemma_digits_value_prefix(digit_part(s@), i + 1 - start);
                        assert(digit_part(s@).subrange(0, i + 1 - start) =~= next);
                    }
                }
                return None;
            },
        }
        i = i + 1;
    }
    proof {
        assert(s@.subrange(start as int, i as int) =~= digit_part(s@));
    }
    Some(acc)
}

/// No byte of `s` other than position `i` is a `/`.
pub open spec fn only_slash_at(s: Seq<u8>, i: int) -> bool {
    forall|j: int| 0 <= j < s.len() && (#[trigger] s[j]) == 47 ==> j == i
}

/// Exactly one byte of `s` is a `/`.
pub open spec fn has_single_slash(s: Seq<u8>) -> bool {
    exists|i: int| 0 <= i < s.len() && (#[trigger] s[i]) == 47 && only_slash_at(s, i)
}

/// The position of the `/` when `s` has exactly one.
pub open spec fn single_slash_pos(s: Seq<u8>) -> int {
    choose|i: int| 0 <= i < s.len() && (#[trigger] s[i]) == 47 && only_slash_at(s, i)
}

/// The number `s` writes in decimal, or `fallback` when it writes none.
pub open spec fn parsed_or(s: Seq<u8>, fallback: usize) -> usize {
    if is_usize_decimal(s) {
        digits_value(digit_part(s)) as usize
    } else {
        fallback
    }
}

/// The token budgets a pruning-spec string selects, against the caller's
/// per-side defaults.
pub open spec fn spec_prune_bounds(s: Seq<u8>, td: usize, d: usize) -> (usize, usize) {
    if has_single_slash(s) {
        let i = single_slash_pos(s);
        (parsed_or(s.subrange(0, i), td), parsed_or(s.subrange(i + 1, s.len() as int), d))
    } else {
        (td, d)
    }
}

/// Reads a pruning-spec string `"<query_max>/<doc_max>"` into its two token
/// budgets. A string of any other shape — no `/`, several, the literal
/// `"none"` — keeps both defaults, and a side that is not a decimal number
/// keeps that side's default; a malformed spec is never an error.
pub fn parse_prune_spec(s: &[u8], td: usize, d: usize) -> (r: (usize, usize))
    ensures
        r == spec_prune_bounds(s@, td, d),
{
    let mut first: usize = 0;
    let mut has_first = false;
    let mut i: usize = 0;
    while i < s.len()
        invariant
            i <= s@.len(),
            !has_first ==> forall|j: int| 0 <= j < i ==> (#[trigger] s@[j]) != 47,
            has_first ==> first < i && s@[first as int] == 47,
            has_first ==> forall|j: int| 0 <= j < i && (#[trigger] s@[j]) == 47 ==> j == first,
        decreases s@.len() - i,
    {
        if s[i] == 47 {
            if has_first {
                // a second separator: the spec has no well-formed shape
                proof {
                    if has_single_slash(s@) {
                        let c = single_slash_pos(s@);
                        assert(0 <= c < s@.len() && s@[c] == 47 && only_slash_at(s@, c));
                    }
                }
                return (td, d);
            }
            first = i;
            has_first = true;
        }
        i = i + 1;
    }
    if !has_first {
        proof {
            if has_single_slash(s@) {
                let c = single_slash_pos(s@);
                assert(0 <= c < s@.len() && s@[c] == 47 && only_slash_at(s@, c));
            }
        }
        return (td, d);
    }
    proof {
        assert(has_single_slash(s@));
        let c = single_slash_pos(s@);
        assert(0 <= c < s@.len() && s@[c] == 47 && only_slash_at(s@, c));
        assert(c == first);
    }
    let left = parse_usize(&s[0..first]);
    let right = parse_usize(&s[first + 1..s.len()]);
    let q_max = match left {
        Some(v) => v,
        None => td,
    };
    let d_max = match right {
        Some(v) => v,
        None => d,
    };
    (q_max, d_max)
}

/// The similarity-kernel implementation tiers, widest vector width first.
#[derive(Clone, Copy, Debug, PartialEq, Eq, Structural)]
pub enum KernelTier {
    /// 512-bit vector path.
    Avx512,
    /// 256-bit vector path.
    Avx2,
    /// Scalar fallback, always available.
    Scalar,
}

/// The tier a host's capability flags select: the widest extension the host
/// reports, the scalar path when it reports none.
pub open spec fn spec_select_tier(avx512: bool, avx2: bool) -> KernelTier {
    if avx512 {
        KernelTier::Avx512
    } else if avx2 {
        KernelTier::Avx2
    } else {
        KernelTier::Scalar
    }
}

/// Selects the similarity-kernel tier once from the host's detected
/// capability flags; a missing capability is not an error, only a narrower
/// tier.
pub fn select_tier(avx512: bool, avx2: bool) -> (t: KernelTier)
    ensures
        t == spec_select_tier(avx512, avx2),
{
    if avx512 {
        KernelTier::Avx512
    } else if avx2 {
        KernelTier::Avx2
    } else {
        KernelTier::Scalar
    }
}

impl KernelTier {
    /// The label the benchmark report prints for this tier.
    pub open spec fn spec_label(self) -> Seq<char> {
        match self {
            KernelTier::Avx512 => "AVX-512"@,
            KernelTier::Avx2 => "AVX2"@,
            KernelTier::Scalar => "SSE"@,
        }
    }

    /// Writes this tier's report label.
    pub fn label(&self) -> (s: String)
        ensures
            s@ == self.spec_label(),
    {
        match self {
            KernelTier::Avx512 => "AVX-512".to_owned(),
            KernelTier::Avx2 => "AVX2".to_owned(),
            KernelTier::Scalar => "SSE".to_owned(),
        }
    }
}

} // verus!
