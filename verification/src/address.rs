use vstd::prelude::*;
use crate::error::AbiError;
use crate::message::MsgAddress;

verus! {

// Validation of the standard textual address form: a signed decimal
// workchain, a colon, and exactly 64 hex digits of account id.

pub open spec fn is_dec_digit(c: char) -> bool {
    '0' <= c <= '9'
}

pub open spec fn is_hex_digit(c: char) -> bool {
    is_dec_digit(c) || ('a' <= c <= 'f') || ('A' <= c <= 'F')
}

/// The value of a decimal digit string.
pub open spec fn digits_val(s: Seq<char>) -> int
    decreases s.len(),
{
    if s.len() == 0 {
        0
    } else {
        digits_val(s.drop_last()) * 10 + (s.last() as int - '0' as int)
    }
}

/// The position of the first colon, from `k` on.
pub open spec fn first_colon(s: Seq<char>, k: int) -> Option<int>
    decreases s.len() - k when 0 <= k <= s.len()
{
    if k >= s.len() {
        Option::None
    } else if s[k] == ':' {
        Option::Some(k)
    } else {
        first_colon(s, k + 1)
    }
}

/// A well-formed workchain part: an optional minus sign, then one to three
/// decimal digits, within the signed 8-bit range.
pub open spec fn wc_valid(s: Seq<char>) -> bool {
    if s.len() > 0 && s[0] == '-' {
        let d = s.drop_first();
        &&& 1 <= d.len() <= 3
        &&& (forall|k: int| 0 <= k < d.len() ==> is_dec_digit(#[trigger] d[k]))
        &&& digits_val(d) <= 128
    } else {
        &&& 1 <= s.len() <= 3
        &&& (forall|k: int| 0 <= k < s.len() ==> is_dec_digit(#[trigger] s[k]))
        &&& digits_val(s) <= 127
    }
}

/// A well-formed account id part: exactly 64 hex digits.
pub open spec fn id_valid(s: Seq<char>) -> bool {
    s.len() == 64 && forall|k: int| 0 <= k < s.len() ==> is_hex_digit(#[trigger] s[k])
}

/// A well-formed standard address: workchain, colon, account id.
pub open spec fn addr_valid(s: Seq<char>) -> bool {
    match first_colon(s, 0) {
        Option::None => false,
        Option::Some(p) => wc_valid(s.take(p)) && id_valid(s.skip(p + 1)),
    }
}

fn digits_value(s: &Vec<char>, from: usize, to: usize) -> (r: Option<u32>)
    requires
        from <= to <= s@.len(),
        to - from <= 3,
    ensures
        (match r {
            Option::Some(v) => (forall|k: int|
                from <= k < to ==> is_dec_digit(#[trigger] s@[k])) && v as int == digits_val(
                s@.subrange(from as int, to as int),
            ),
            Option::None => !(forall|k: int| from <= k < to ==> is_dec_digit(#[trigger] s@[k])),
        }),
{
    let mut v: u32 = 0;
    let mut k: usize = from;
    while k < to
        invariant
            from <= k <= to <= s@.len(),
            to - from <= 3,
            forall|x: int| from <= x < k ==> is_dec_digit(#[trigger] s@[x]),
            v as int == digits_val(s@.subrange(from as int, k as int)),
            v <= (if k - from == 0 { 0u32 } else if k - from == 1 { 9u32 } else if k - from == 2 {
                99u32
            } else {
                999u32
            }),
        decreases to - k,
    {
        let c = s[k];
        if !('0' <= c && c <= '9') {
            return Option::None;
        }
        proof {
            assert(s@.subrange(from as int, k + 1).drop_last() =~= s@.subrange(
                from as int,
                k as int,
            ));
            assert(s@.subrange(from as int, k + 1).last() == s@[k as int]);
        }
        v = v * 10 + (c as u32 - '0' as u32);
        k = k + 1;
    }
    Option::Some(v)
}

/// Whether the text is a well-formed standard address.
pub fn check_address(address: &Vec<char>) -> (r: bool)
    ensures
        r == addr_valid(address@),
{
    let s = address;
    let n = s.len();
    // find the first colon
    let mut p: usize = 0;
    let mut found: bool = false;
    while p < n && !found
        invariant
            p <= n,
            n == s@.len(),
            found ==> p < n && s@[p as int] == ':',
            found ==> first_colon(s@, 0) == Option::Some(p as int),
            !found ==> first_colon(s@, 0) == first_colon(s@, p as int),
        decreases n - p + (if found { 0int } else { 1int }),
    {
        if s[p] == ':' {
            found = true;
        } else {
            p = p + 1;
        }
    }
    if !found {
        return false;
    }
    // the workchain part
    let neg = p > 0 && s[0] == '-';
    let from: usize = if neg {
        1
    } else {
        0
    };
    proof {
        if neg {
            assert(s@.take(p as int).drop_first() =~= s@.subrange(1, p as int));
            assert(s@.take(p as int)[0] == s@[0]);
        } else {
            assert(s@.take(p as int) =~= s@.subrange(0, p as int));
        }
    }
    let ghost d = s@.subrange(from as int, p as int);
    if p - from < 1 || p - from > 3 {
        return false;
    }
    let wc_ok = match digits_value(s, from, p) {
        Option::None => {
            proof {
                assert(!wc_valid(s@.take(p as int))) by {
                    if wc_valid(s@.take(p as int)) {
                        assert forall|k: int| from <= k < p implies is_dec_digit(
                            #[trigger] s@[k],
                        ) by {
                            assert(d[k - from] == s@[k]);
                            assert(is_dec_digit(d[k - from]));
                        }
                    }
                }
            }
            false
        },
        Option::Some(v) => {
            proof {
                assert(digits_val(d) == v);
            }
            if neg {
                v <= 128
            } else {
                v <= 127
            }
        },
    };
    if !wc_ok {
        return false;
    }
    proof {
        assert(wc_valid(s@.take(p as int)));
    }
    // the account id part
    if n - (p + 1) != 64 {
        proof {
            assert(s@.skip(p + 1).len() == n - (p + 1));
        }
        return false;
    }
    let mut k: usize = p + 1;
    while k < n
        invariant
            s == address,
            p + 1 <= k <= n,
            n == s@.len(),
            n - (p + 1) == 64,
            first_colon(s@, 0) == Option::Some(p as int),
            wc_valid(s@.take(p as int)),
            forall|x: int| p + 1 <= x < k ==> is_hex_digit(#[trigger] s@[x]),
        decreases n - k,
    {
        let c = s[k];
        let ok = ('0' <= c && c <= '9') || ('a' <= c && c <= 'f') || ('A' <= c && c <= 'F');
        if !ok {
            proof {
                assert(s@.skip(p + 1)[k - (p + 1)] == s@[k as int]);
                assert(!id_valid(s@.skip(p + 1)));
            }
            return false;
        }
        k = k + 1;
    }
    proof {
        assert(forall|x: int|
            0 <= x < s@.skip(p + 1).len() ==> is_hex_digit(#[trigger] s@.skip(p + 1)[x]));
    }
    true
}

/// The value of one hex digit. Meaningful only on hex digits.
pub open spec fn hex_digit_val(c: char) -> int {
    if '0' <= c <= '9' {
        c as int - '0' as int
    } else if 'a' <= c <= 'f' {
        c as int - 'a' as int + 10
    } else {
        c as int - 'A' as int + 10
    }
}

/// The bytes named by a hex digit string, two digits per byte.
pub open spec fn hex_bytes_val(s: Seq<char>) -> Seq<u8>
    decreases s.len(),
{
    if s.len() < 2 {
        Seq::empty()
    } else {
        seq![(hex_digit_val(s[0]) * 16 + hex_digit_val(s[1])) as u8] + hex_bytes_val(s.skip(2))
    }
}

/// The signed value of a workchain part.
pub open spec fn wc_val(s: Seq<char>) -> int {
    if s.len() > 0 && s[0] == '-' {
        -digits_val(s.drop_first())
    } else {
        digits_val(s)
    }
}

fn hex_digit(c: char) -> (r: u8)
    requires
        is_hex_digit(c),
    ensures
        r as int == hex_digit_val(c),
        r < 16,
{
    if '0' <= c && c <= '9' {
        (c as u32 - '0' as u32) as u8
    } else if 'a' <= c && c <= 'f' {
        (c as u32 - 'a' as u32 + 10) as u8
    } else {
        (c as u32 - 'A' as u32 + 10) as u8
    }
}

fn hex_pairs(s: &Vec<char>, from: usize, count: usize) -> (r: Vec<u8>)
    requires
        from + 2 * count <= s@.len(),
        forall|k: int| from <= k < from + 2 * count ==> is_hex_digit(#[trigger] s@[k]),
    ensures
        r@ == hex_bytes_val(s@.subrange(from as int, from + 2 * count)),
        r@.len() == count,
    decreases count,
{
    if count == 0 {
        let r: Vec<u8> = Vec::new();
        proof {
            assert(r@ =~= hex_bytes_val(s@.subrange(from as int, from as int)));
        }
        r
    } else {
        let n = s.len();
        let hi = hex_digit(s[from]);
        let lo = hex_digit(s[from + 1]);
        let b = hi * 16 + lo;
        let mut rest = hex_pairs(s, from + 2, count - 1);
        rest.insert(0, b);
        proof {
            let win = s@.subrange(from as int, from + 2 * count);
            assert(win[0] == s@[from as int]);
            assert(win[1] == s@[from + 1]);
            assert(win.skip(2) =~= s@.subrange(from + 2, from + 2 * count));
            assert(rest@ =~= hex_bytes_val(win));
        }
        rest
    }
}

/// Parses a well-formed standard address into its workchain and 32-byte
/// account id; `AddressParseError` exactly when the text is not a
/// well-formed address.
pub fn parse_address(address: &Vec<char>) -> (r: Result<MsgAddress, AbiError>)
    ensures
        (match r {
            Ok(a) => {
                &&& addr_valid(address@)
                &&& (match first_colon(address@, 0) {
                    Option::Some(p) => a.wc as int == wc_val(address@.take(p)) && a.id@
                        == hex_bytes_val(address@.skip(p + 1)),
                    Option::None => false,
                })
                &&& a.id@.len() == 32
            },
            Err(e) => e == AbiError::AddressParseError && !addr_valid(address@),
        }),
{
    if !check_address(address) {
        return Err(AbiError::AddressParseError);
    }
    let s = address;
    let n = s.len();
    // find the colon again, as the validator did
    let mut p: usize = 0;
    let mut found: bool = false;
    while p < n && !found
        invariant
            p <= n,
            n == s@.len(),
            found ==> p < n && s@[p as int] == ':',
            found ==> first_colon(s@, 0) == Option::Some(p as int),
            !found ==> first_colon(s@, 0) == first_colon(s@, p as int),
        decreases n - p + (if found { 0int } else { 1int }),
    {
        if s[p] == ':' {
            found = true;
        } else {
            p = p + 1;
        }
    }
    if !found {
        // a validated address always carries a colon
        proof {
            assert(false);
        }
        return Err(AbiError::AddressParseError);
    }
    let ghost t = s@.take(p as int);
    let neg = p > 0 && s[0] == '-';
    let from: usize = if neg {
        1
    } else {
        0
    };
    let ghost d = s@.subrange(from as int, p as int);
    proof {
        if neg {
            assert(t.drop_first() =~= d);
            assert(t[0] == s@[0]);
        } else {
            assert(t =~= d);
        }
        assert(wc_valid(t));
    }
    let v = match digits_value(s, from, p) {
        Option::Some(v) => v,
        Option::None => {
            // the validator established every digit
            proof {
                assert forall|k: int| from <= k < p implies is_dec_digit(#[trigger] s@[k]) by {
                    assert(d[k - from] == s@[k]);
                    assert(is_dec_digit(d[k - from]));
                }
                assert(false);
            }
            return Err(AbiError::AddressParseError);
        },
    };
    proof {
        assert(digits_val(d) == v);
    }
    let wc: i8 = if neg {
        if v == 128 {
            -128
        } else {
            -(v as i8)
        }
    } else {
        v as i8
    };
    let ghost idchars = s@.skip(p + 1);
    proof {
        assert(id_valid(idchars));
        assert forall|k: int| p + 1 <= k < p + 65 implies is_hex_digit(#[trigger] s@[k]) by {
            assert(idchars[k - (p + 1)] == s@[k]);
            assert(is_hex_digit(idchars[k - (p + 1)]));
        }
    }
    let id = hex_pairs(s, p + 1, 32);
    proof {
        assert(s@.subrange(p + 1, p + 1 + 64) =~= idchars);
    }
    Ok(MsgAddress { wc, id })
}

} // verus!
