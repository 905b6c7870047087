use crate::scan::Scan;
use crate::scannable::Scannable;
use vstd::prelude::*;

verus! {

/// Which kind of numeric value a scan works on.
#[derive(Clone, Copy, Debug, PartialEq, Eq, Structural)]
pub enum ValueType {
    I8,
    U8,
    I16,
    U16,
    I32,
    U32,
    I64,
    U64,
    F32,
    F64,
}

/// Which predicate a scan applies.
#[derive(Clone, Copy, Debug, PartialEq, Eq, Structural)]
pub enum ScanType {
    Exact,
    Unknown,
    InRange,
    Unchanged,
    Changed,
    Decreased,
    Increased,
    DecreasedBy,
    IncreasedBy,
}

/// The value part of a scan request: one literal, or a pair of bounds.
#[derive(Clone, Debug, PartialEq, Eq)]
pub enum ScanValue {
    Exact(String),
    Range { start: String, end: String },
}

/// A scan request as the command layer hands it over: a predicate type and,
/// where the type needs one, a stringified value.
#[derive(Clone, Debug, PartialEq, Eq)]
pub struct ScanInfo {
    pub typ: ScanType,
    pub value: Option<ScanValue>,
}

// ---------------------------------------------------------------------------
// Decimal literals
// ---------------------------------------------------------------------------

/// Whether `c` is a decimal digit.
pub open spec fn is_digit(c: char) -> bool {
    0x30 <= c as int <= 0x39
}

/// Numeric value of a decimal digit.
pub open spec fn digit_val(c: char) -> int {
    c as int - 0x30
}

/// Whether every character is a decimal digit.
pub open spec fn all_digits(s: Seq<char>) -> bool {
    forall|i: int| 0 <= i < s.len() ==> is_digit(#[trigger] s[i])
}

/// Value of a run of decimal digits, most significant first.
pub open spec fn digits_val(s: Seq<char>) -> int
    decreases s.len(),
{
    if s.len() == 0 {
        0
    } else {
        digits_val(s.drop_last()) * 10 + digit_val(s.last())
    }
}

/// What a decimal integer literal denotes within the bounds `[min, max]`:
/// an optional sign (the minus sign only where the kind is signed) followed
/// by at least one digit, rejected when a character is no digit or the value
/// leaves the bounds.
pub open spec fn parse_int_spec(s: Seq<char>, min: int, max: int, allow_minus: bool) -> Option<
    int,
> {
    let neg = s.len() > 0 && s[0] == '-';
    let rest = if s.len() > 0 && (s[0] == '-' || s[0] == '+') {
        s.subrange(1, s.len() as int)
    } else {
        s
    };
    if neg && !allow_minus {
        None
    } else if rest.len() == 0 || !all_digits(rest) {
        None
    } else {
        let v = if neg {
            -digits_val(rest)
        } else {
            digits_val(rest)
        };
        if min <= v <= max {
            Some(v)
        } else {
            None
        }
    }
}

/// A run of digits denotes a value no smaller than zero.
proof fn lemma_digits_val_nonneg(s: Seq<char>)
    requires
        all_digits(s),
    ensures
        digits_val(s) >= 0,
    decreases s.len(),
{
    if s.len() > 0 {
        assert(all_digits(s.drop_last())) by {
            assert(forall|i: int| 0 <= i < s.len() - 1 ==> s.drop_last()[i] == s[i]);
        }
        lemma_digits_val_nonneg(s.drop_last());
    }
}

/// Extending a run of digits never shrinks its value.
proof fn lemma_digits_prefix_le(s: Seq<char>, k: int)
    requires
        all_digits(s),
        0 <= k <= s.len(),
    ensures
        digits_val(s.take(k)) <= digits_val(s),
    decreases s.len() - k,
{
    if k < s.len() {
        lemma_digits_prefix_le(s, k + 1);
        assert(s.take(k + 1).drop_last() =~= s.take(k));
        assert(all_digits(s.take(k))) by {
            assert(forall|i: int| 0 <= i < k ==> s.take(k)[i] == s[i]);
        }
        lemma_digits_val_nonneg(s.take(k));
        assert(digits_val(s.take(k + 1)) == digits_val(s.take(k)) * 10 + digit_val(s[k]));
        assert(digits_val(s.take(k)) * 10 >= digits_val(s.take(k))) by (nonlinear_arith)
            requires
                digits_val(s.take(k)) >= 0,
        ;
    } else {
        assert(s.take(k) =~= s);
    }
}

/// Parse a decimal integer literal, bounded to `[min, max]`.
pub fn parse_decimal(s: &str, min: i128, max: i128, allow_minus: bool) -> (r: Option<i128>)
    requires
        -0x8000_0000_0000_0000 <= min <= 0,
        0 <= max <= 0xffff_ffff_ffff_ffff,
    ensures
        match r {
            Some(v) => parse_int_spec(s@, min as int, max as int, allow_minus) == Some(v as int),
            None => parse_int_spec(s@, min as int, max as int, allow_minus) is None,
        },
{
    let n = s.unicode_len();
    let mut start: usize = 0;
    let mut neg = false;
    if n > 0 {
        let c0 = s.get_char(0);
        if c0 == '-' {
            if !allow_minus {
                return None;
            }
            neg = true;
            start = 1;
        } else if c0 == '+' {
            start = 1;
        }
    }
    if start == n {
        return None;
    }
    let ghost rest = s@.subrange(start as int, n as int);
    proof {
        if start == 0 {
            assert(rest =~= s@);
        }
    }
    let mut acc: i128 = 0;
    let mut j = start;
    while j < n
        invariant
            start <= j <= n,
            n == s@.len(),
            start == 0 || start == 1,
            start < n,
            rest == s@.subrange(start as int, n as int),
            rest == (if start == 1 {
                s@.subrange(1, n as int)
            } else {
                s@
            }),
            neg ==> allow_minus,
            neg == (s@.len() > 0 && s@[0] == '-'),
            (start == 1) == (s@.len() > 0 && (s@[0] == '-' || s@[0] == '+')),
            -0x8000_0000_0000_0000 <= min <= 0,
            0 <= max <= 0xffff_ffff_ffff_ffff,
            all_digits(rest.take(j - start)),
            acc == digits_val(rest.take(j - start)),
            0 <= acc <= 0xffff_ffff_ffff_ffff,
        decreases n - j,
    {
        let c = s.get_char(j);
        let d = c as u32;
        if d < 0x30 || d > 0x39 {
            proof {
                assert(rest[j - start] == c);
                assert(!all_digits(rest));
            }
            return None;
        }
        let dv = (d - 0x30) as i128;
        proof {
            assert(rest.take(j - start + 1).drop_last() =~= rest.take(j - start));
            assert(rest.take(j - start + 1).last() == c);
            assert(all_digits(rest.take(j - start + 1)));
            assert(digits_val(rest.take(j - start + 1)) == acc * 10 + digit_val(c));
        }
        let acc2 = acc * 10 + dv;
        if acc2 > 0xffff_ffff_ffff_ffff {
            proof {
                if all_digits(rest) {
                    lemma_digits_prefix_le(rest, j - start + 1);
                    assert(digits_val(rest) >= acc2);
                }
            }
            return None;
        }
        acc = acc2;
        j += 1;
    }
    proof {
        assert(rest.take(n - start) =~= rest);
    }
    let v: i128 = if neg {
        -acc
    } else {
        acc
    };
    if v < min || v > max {
        return None;
    }
    Some(v)
}

// ---------------------------------------------------------------------------
// From a scan request to a scan
// ---------------------------------------------------------------------------

/// The scan that a request denotes at value kind `V`: the request's value
/// type must name `V`; predicate types without a value take none; the others
/// need a literal of the right shape that parses at `V`, else the request
/// denotes no scan and is refused.
pub open spec fn spec_to_scan<V: Scannable>(info: ScanInfo, vt: ValueType) -> Option<Scan<V>> {
    if vt != V::spec_value_type() {
        None
    } else {
        match info.typ {
            ScanType::Unknown => Some(Scan::Unknown),
            ScanType::Unchanged => Some(Scan::Unchanged),
            ScanType::Changed => Some(Scan::Changed),
            ScanType::Decreased => Some(Scan::Decreased),
            ScanType::Increased => Some(Scan::Increased),
            ScanType::Exact | ScanType::DecreasedBy | ScanType::IncreasedBy => match info.value {
                Some(ScanValue::Exact(sv)) => match V::spec_parse(sv@) {
                    Some(v) => Some(
                        match info.typ {
                            ScanType::Exact => Scan::Exact(v),
                            ScanType::DecreasedBy => Scan::DecreasedBy(v),
                            _ => Scan::IncreasedBy(v),
                        },
                    ),
                    None => None,
                },
                _ => None,
            },
            ScanType::InRange => match info.value {
                Some(ScanValue::Range { start, end }) => match (V::spec_parse(start@), V::spec_parse(end@)) {
                    (Some(lo), Some(hi)) => Some(Scan::InRange(lo, hi)),
                    _ => None,
                },
                _ => None,
            },
        }
    }
}

/// Conversion of a scan request into a scan at some value kind.
pub trait IntoScan<V: Scannable>: Sized {
    /// The scan this request denotes at kind `V`, if any.
    spec fn spec_scan(self, vt: ValueType) -> Option<Scan<V>>;

    /// Build the scan this request denotes at kind `V`, or refuse it.
    fn to_scan(self, value_type: &ValueType) -> (r: Option<Scan<V>>)
        ensures
            r == self.spec_scan(*value_type),
    ;
}

impl<V: Scannable> IntoScan<V> for ScanInfo {
    open spec fn spec_scan(self, vt: ValueType) -> Option<Scan<V>> {
        spec_to_scan::<V>(self, vt)
    }

    fn to_scan(self, value_type: &ValueType) -> (r: Option<Scan<V>>) {
        let own_type = V::value_type();
        if !(*value_type == own_type) {
            return None;
        }
        match self.typ {
            ScanType::Unknown => Some(Scan::Unknown),
            ScanType::Unchanged => Some(Scan::Unchanged),
            ScanType::Changed => Some(Scan::Changed),
            ScanType::Decreased => Some(Scan::Decreased),
            ScanType::Increased => Some(Scan::Increased),
            ScanType::Exact | ScanType::DecreasedBy | ScanType::IncreasedBy => match self.value {
                Some(ScanValue::Exact(sv)) => match V::parse(sv.as_str()) {
                    Some(v) => Some(
                        match self.typ {
                            ScanType::Exact => Scan::Exact(v),
                            ScanType::DecreasedBy => Scan::DecreasedBy(v),
                            _ => Scan::IncreasedBy(v),
                        },
                    ),
                    None => None,
                },
                _ => None,
            },
            ScanType::InRange => match self.value {
                Some(ScanValue::Range { start, end }) => {
                    let lo = V::parse(start.as_str());
                    let hi = V::parse(end.as_str());
                    match (lo, hi) {
                        (Some(lo), Some(hi)) => Some(Scan::InRange(lo, hi)),
                        _ => None,
                    }
                },
                _ => None,
            },
        }
    }
}

} // verus!
