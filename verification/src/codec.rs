//! The structured request/response call: a byte buffer holding a JSON
//! object with a member `"max": <integer>` comes in, a byte buffer holding
//! `{"count": <integer>}` goes out.  Members other than `"max"` are
//! accepted in any order and skipped; malformed input fails the call
//! without running the sieve.

use vstd::prelude::*;
use vstd::arithmetic::div_mod::lemma_fundamental_div_mod;
use vstd::arithmetic::div_mod::lemma_mod_division_less_than_divisor;
use crate::primes::primes_seq;
use crate::sieve::count_primes;

verus! {

/// Why a structured request was rejected.
#[derive(Debug, PartialEq, Eq, Structural, Clone, Copy)]
pub enum RequestError {
    /// The body is not a JSON object carrying a member `"max": <integer>`.
    Malformed,
    /// The bound is a well-formed integer but does not fit the machine.
    BoundTooLarge,
}

/// How deep the values of skipped members may nest.
pub const SKIP_DEPTH: usize = 126;

/// Whitespace accepted around the tokens of a request.
pub open spec fn is_ws(c: u8) -> bool {
    c == 32 || c == 9 || c == 10 || c == 13
}

/// An ASCII decimal digit.
pub open spec fn is_digit(c: u8) -> bool {
    48 <= c <= 57
}

/// An ASCII hexadecimal digit.
pub open spec fn is_hex(c: u8) -> bool {
    is_digit(c) || (65 <= c <= 70) || (97 <= c <= 102)
}

/// The number of whitespace bytes starting at `i`.
pub open spec fn ws_count(s: Seq<u8>, i: int) -> nat
    decreases s.len() - i,
{
    if 0 <= i < s.len() && is_ws(s[i]) {
        1 + ws_count(s, i + 1)
    } else {
        0
    }
}

/// The first position at or after `i` that does not hold whitespace.
#[verifier::inline]
pub open spec fn ws_end(s: Seq<u8>, i: int) -> int {
    i + ws_count(s, i)
}

/// The number of digit bytes starting at `i`.
pub open spec fn digits_count(s: Seq<u8>, i: int) -> nat
    decreases s.len() - i,
{
    if 0 <= i < s.len() && is_digit(s[i]) {
        1 + digits_count(s, i + 1)
    } else {
        0
    }
}

/// The first position at or after `i` that does not hold a digit.
#[verifier::inline]
pub open spec fn digits_end(s: Seq<u8>, i: int) -> int {
    i + digits_count(s, i)
}

/// The value of a run of decimal digits.
pub open spec fn digits_val(s: Seq<u8>) -> int
    decreases s.len(),
{
    if s.len() == 0 {
        0
    } else {
        digits_val(s.drop_last()) * 10 + (s.last() - 48)
    }
}

/// The number of bytes of a JSON string body starting at `i`, up to and
/// including the closing quote, or `-1` if none is well formed there:
/// escapes take one of the eight single characters or `u` with four
/// hexadecimal digits, and raw control bytes are refused.
pub open spec fn str_tail_len(s: Seq<u8>, i: int) -> int
    decreases s.len() - i,
{
    if !(0 <= i < s.len()) {
        -1
    } else if s[i] == 34 {
        1
    } else if s[i] == 92 {
        if i + 1 < s.len() && (s[i + 1] == 34 || s[i + 1] == 92 || s[i + 1] == 47 || s[i + 1]
            == 98 || s[i + 1] == 102 || s[i + 1] == 110 || s[i + 1] == 114 || s[i + 1] == 116) {
            let t = str_tail_len(s, i + 2);
            if t < 0 {
                -1
            } else {
                2 + t
            }
        } else if i + 5 < s.len() && s[i + 1] == 117 && is_hex(s[i + 2]) && is_hex(s[i + 3])
            && is_hex(s[i + 4]) && is_hex(s[i + 5]) {
            let t = str_tail_len(s, i + 6);
            if t < 0 {
                -1
            } else {
                6 + t
            }
        } else {
            -1
        }
    } else if s[i] < 32 {
        -1
    } else {
        let t = str_tail_len(s, i + 1);
        if t < 0 {
            -1
        } else {
            1 + t
        }
    }
}

/// The number of bytes of a JSON number starting at `i`, or `-1`: an
/// optional minus, an integer part without leading zeroes, an optional
/// fraction and an optional exponent.
pub open spec fn num_len(s: Seq<u8>, i: int) -> int {
    let j = if 0 <= i < s.len() && s[i] == 45 {
        i + 1
    } else {
        i
    };
    if !(0 <= j < s.len() && is_digit(s[j])) {
        -1
    } else {
        let k = if s[j] == 48 {
            j + 1
        } else {
            digits_end(s, j)
        };
        let l = if k < s.len() && s[k] == 46 {
            if digits_end(s, k + 1) == k + 1 {
                -1
            } else {
                digits_end(s, k + 1)
            }
        } else {
            k
        };
        if l < 0 {
            -1
        } else {
            let m = if l < s.len() && (s[l] == 101 || s[l] == 69) {
                let x = if l + 1 < s.len() && (s[l + 1] == 43 || s[l + 1] == 45) {
                    l + 2
                } else {
                    l + 1
                };
                if digits_end(s, x) == x {
                    -1
                } else {
                    digits_end(s, x)
                }
            } else {
                l
            };
            if m < 0 {
                -1
            } else {
                m - i
            }
        }
    }
}

/// Bytes remaining from position `i`: the recursion measure of the
/// scanning functions, zero once `i` leaves the buffer.
pub open spec fn rem_len(s: Seq<u8>, i: int) -> int {
    if 0 <= i < s.len() {
        s.len() - i
    } else {
        0
    }
}

/// The number of bytes of one JSON value starting at `i`, or `-1`.
/// Objects and arrays are followed one level deeper, `depth` levels at
/// most.
pub open spec fn value_len(s: Seq<u8>, i: int, depth: int) -> int
    decreases depth, rem_len(s, i), 0int,
{
    if !(0 <= i < s.len()) {
        -1
    } else if s[i] == 34 {
        let t = str_tail_len(s, i + 1);
        if t < 0 {
            -1
        } else {
            1 + t
        }
    } else if s[i] == 116 {
        if i + 4 <= s.len() && s[i + 1] == 114 && s[i + 2] == 117 && s[i + 3] == 101 {
            4
        } else {
            -1
        }
    } else if s[i] == 110 {
        if i + 4 <= s.len() && s[i + 1] == 117 && s[i + 2] == 108 && s[i + 3] == 108 {
            4
        } else {
            -1
        }
    } else if s[i] == 102 {
        if i + 5 <= s.len() && s[i + 1] == 97 && s[i + 2] == 108 && s[i + 3] == 115 && s[i + 4]
            == 101 {
            5
        } else {
            -1
        }
    } else if s[i] == 123 || s[i] == 91 {
        if depth <= 0 {
            -1
        } else {
            let keyed = s[i] == 123;
            let closer: u8 = if keyed {
                125
            } else {
                93
            };
            let j = ws_end(s, i + 1);
            if j < s.len() && s[j] == closer {
                j + 1 - i
            } else {
                let t = items_len(s, j, keyed, depth - 1);
                if t < 0 {
                    -1
                } else {
                    (j - i) + t
                }
            }
        }
    } else {
        num_len(s, i)
    }
}

/// The number of bytes of a non-empty member or element list starting at
/// the first item at `i`, up to and including the closing bracket, or
/// `-1`.  A keyed list (an object) holds `string : value` items, an
/// unkeyed one (an array) plain values.
pub open spec fn items_len(s: Seq<u8>, i: int, keyed: bool, depth: int) -> int
    decreases depth, rem_len(s, i), 1int,
{
    let v = if keyed {
        if !(0 <= i < s.len() && s[i] == 34) {
            -1
        } else {
            let t1 = str_tail_len(s, i + 1);
            if t1 < 0 {
                -1
            } else {
                let c = ws_end(s, i + 1 + t1);
                if !(c < s.len() && s[c] == 58) {
                    -1
                } else {
                    ws_end(s, c + 1)
                }
            }
        }
    } else if 0 <= i < s.len() {
        i
    } else {
        -1
    };
    if v < 0 {
        -1
    } else {
        let tv = value_len(s, v, depth);
        if tv < 0 {
            -1
        } else {
            let f = ws_end(s, v + tv);
            let closer: u8 = if keyed {
                125
            } else {
                93
            };
            if f < s.len() && s[f] == 44 {
                let n = ws_end(s, f + 1);
                let tr = items_len(s, n, keyed, depth);
                if tr < 0 {
                    -1
                } else {
                    (n - i) + tr
                }
            } else if f < s.len() && s[f] == closer {
                f + 1 - i
            } else {
                -1
            }
        }
    }
}

/// The five bytes of the literal key `"max"` stand at position `i` (the
/// opening quote itself is checked by the caller).
pub open spec fn max_key_at(s: Seq<u8>, i: int) -> bool {
    &&& i + 5 <= s.len()
    &&& s[i + 1] == 109
    &&& s[i + 2] == 97
    &&& s[i + 3] == 120
    &&& s[i + 4] == 34
}

/// Scans the member list of a request object from the key of one member at
/// `i`.  Returns the position just after the closing brace, or `-1`, and
/// the value of the `"max"` member if one was seen: its value must be a
/// plain decimal integer without leading zeroes, a second `"max"` member
/// is refused, and any other member's value is skipped.
pub open spec fn req_members(s: Seq<u8>, i: int, found: Option<int>, depth: int) -> (int, Option<
    int,
>)
    decreases rem_len(s, i), 0int,
{
    if !(0 <= i < s.len() && s[i] == 34) {
        (-1, None)
    } else if max_key_at(s, i) {
        let c = ws_end(s, i + 5);
        if !(c < s.len() && s[c] == 58) {
            (-1, None)
        } else {
            let v = ws_end(s, c + 1);
            let e = digits_end(s, v);
            if e == v {
                (-1, None)
            } else if s[v] == 48 && e > v + 1 {
                (-1, None)
            } else if found is Some {
                (-1, None)
            } else {
                req_after(s, e, Some(digits_val(s.subrange(v, e))), depth)
            }
        }
    } else {
        let t1 = str_tail_len(s, i + 1);
        if t1 < 0 {
            (-1, None)
        } else {
            let c = ws_end(s, i + 1 + t1);
            if !(c < s.len() && s[c] == 58) {
                (-1, None)
            } else {
                let v = ws_end(s, c + 1);
                let tv = value_len(s, v, depth);
                if tv < 0 {
                    (-1, None)
                } else {
                    req_after(s, v + tv, found, depth)
                }
            }
        }
    }
}

/// Continues a request's member list after one member's value, which ends
/// just before `e`: either a comma and a further member, or the closing
/// brace.
pub open spec fn req_after(s: Seq<u8>, e: int, found: Option<int>, depth: int) -> (int, Option<
    int,
>)
    decreases rem_len(s, e), 1int,
{
    let f = ws_end(s, e);
    if 0 <= f && f < s.len() && s[f] == 44 {
        req_members(s, ws_end(s, f + 1), found, depth)
    } else if f < s.len() && s[f] == 125 {
        (f + 1, found)
    } else {
        (-1, None)
    }
}

/// The bound carried by a well-formed request, if any: a JSON object,
/// whitespace-tolerant, holding exactly one member `"max"` whose value is
/// a plain decimal integer, in any position among other members, which
/// are skipped.
pub open spec fn req_value(s: Seq<u8>) -> Option<int> {
    let a = ws_end(s, 0);
    if !(a < s.len() && s[a] == 123) {
        None
    } else {
        let b = ws_end(s, a + 1);
        if b < s.len() && s[b] == 125 {
            None
        } else {
            let r = req_members(s, b, None, SKIP_DEPTH as int);
            if r.0 < 0 {
                None
            } else if ws_end(s, r.0) != s.len() {
                None
            } else {
                r.1
            }
        }
    }
}

/// The canonical decimal digits of a non-negative integer.
pub open spec fn dec_rep(n: int) -> Seq<u8>
    decreases n,
{
    if n <= 9 {
        seq![(48 + n) as u8]
    } else {
        dec_rep(n / 10) + seq![(48 + n % 10) as u8]
    }
}

/// The bytes of the response `{"count":` followed by the decimal count and
/// the closing brace.
pub open spec fn resp_bytes(c: int) -> Seq<u8> {
    seq![123u8, 34u8, 99u8, 111u8, 117u8, 110u8, 116u8, 34u8, 58u8] + dec_rep(c) + seq![125u8]
}

/// Scans past whitespace.
fn skip_ws(s: &Vec<u8>, from: usize) -> (r: usize)
    requires
        from <= s@.len(),
    ensures
        from <= r <= s@.len(),
        r as int == ws_end(s@, from as int),
{
    let mut i: usize = from;
    while i < s.len() && (s[i] == 32 || s[i] == 9 || s[i] == 10 || s[i] == 13)
        invariant
            from <= i <= s@.len(),
            ws_end(s@, from as int) == ws_end(s@, i as int),
        decreases s@.len() - i,
    {
        i = i + 1;
    }
    i
}

/// Scans past decimal digits.
fn scan_digits(s: &Vec<u8>, from: usize) -> (r: usize)
    requires
        from <= s@.len(),
    ensures
        from <= r <= s@.len(),
        r as int == digits_end(s@, from as int),
{
    let mut i: usize = from;
    while i < s.len() && 48 <= s[i] && s[i] <= 57
        invariant
            from <= i <= s@.len(),
            digits_end(s@, from as int) == digits_end(s@, i as int),
        decreases s@.len() - i,
    {
        i = i + 1;
    }
    i
}

/// Reads a run of digits together with its value, reporting whether the
/// value exceeds the machine.
fn scan_uint(body: &Vec<u8>, from: usize) -> (r: (usize, usize, bool))
    requires
        from <= body@.len(),
    ensures
        from <= r.0 <= body@.len(),
        r.0 as int == digits_end(body@, from as int),
        !r.2 ==> r.1 as int == digits_val(body@.subrange(from as int, r.0 as int)),
        r.2 ==> digits_val(body@.subrange(from as int, r.0 as int)) > usize::MAX,
{
    let len: usize = body.len();
    let mut i: usize = from;
    let mut val: usize = 0;
    let mut over: bool = false;
    while i < len && 48 <= body[i] && body[i] <= 57
        invariant
            from <= i <= len,
            len == body@.len(),
            digits_end(body@, from as int) == digits_end(body@, i as int),
            !over ==> val as int == digits_val(body@.subrange(from as int, i as int)),
            over ==> digits_val(body@.subrange(from as int, i as int)) > usize::MAX,
        decreases len - i,
    {
        let dig: usize = (body[i] - 48) as usize;
        proof {
            assert(body@.subrange(from as int, i as int + 1).drop_last() =~= body@.subrange(
                from as int,
                i as int,
            ));
            assert(digits_val(body@.subrange(from as int, i as int + 1)) == digits_val(
                body@.subrange(from as int, i as int),
            ) * 10 + dig);
        }
        if over {
            proof {
                let v = digits_val(body@.subrange(from as int, i as int));
                assert(v * 10 >= v) by (nonlinear_arith)
                    requires
                        0 <= v,
                ;
            }
        } else if val > (usize::MAX - dig) / 10 {
            proof {
                let w = (usize::MAX - dig) as int / 10;
                lemma_fundamental_div_mod(usize::MAX - dig, 10);
                lemma_mod_division_less_than_divisor(usize::MAX - dig, 10);
                assert(val as int * 10 + dig > usize::MAX) by (nonlinear_arith)
                    requires
                        val as int >= w + 1,
                        usize::MAX - dig == 10 * w + (usize::MAX - dig) as int % 10,
                        (usize::MAX - dig) as int % 10 < 10,
                ;
            }
            over = true;
        } else {
            proof {
                let w = (usize::MAX - dig) as int / 10;
                lemma_fundamental_div_mod(usize::MAX - dig, 10);
                lemma_mod_division_less_than_divisor(usize::MAX - dig, 10);
                assert(val as int * 10 + dig <= usize::MAX) by (nonlinear_arith)
                    requires
                        val as int <= w,
                        usize::MAX - dig == 10 * w + (usize::MAX - dig) as int % 10,
                        0 <= (usize::MAX - dig) as int % 10,
                ;
            }
            val = val * 10 + dig;
        }
        i = i + 1;
    }
    (i, val, over)
}

/// An ASCII hexadecimal digit.
fn hex_byte(c: u8) -> (r: bool)
    ensures
        r == is_hex(c),
{
    (48 <= c && c <= 57) || (65 <= c && c <= 70) || (97 <= c && c <= 102)
}

/// Scans a JSON string body from `start`, just after the opening quote, to
/// just after the closing quote.
fn scan_string(s: &Vec<u8>, start: usize) -> (r: Option<usize>)
    requires
        start <= s@.len(),
    ensures
        r is Some ==> (start < r->0 <= s@.len() && str_tail_len(s@, start as int) == r->0
            - start),
        r is None ==> str_tail_len(s@, start as int) == -1,
{
    let len: usize = s.len();
    let mut i: usize = start;
    loop
        invariant
            start <= i <= len,
            len == s@.len(),
            str_tail_len(s@, start as int) == (if str_tail_len(s@, i as int) < 0 {
                -1int
            } else {
                i - start + str_tail_len(s@, i as int)
            }),
        decreases len - i,
    {
        if i >= len {
            return None;
        }
        let c = s[i];
        if c == 34 {
            return Some(i + 1);
        }
        if c == 92 {
            if i + 1 < len && (s[i + 1] == 34 || s[i + 1] == 92 || s[i + 1] == 47 || s[i + 1]
                == 98 || s[i + 1] == 102 || s[i + 1] == 110 || s[i + 1] == 114 || s[i + 1]
                == 116) {
                i = i + 2;
            } else if len - i > 5 && s[i + 1] == 117 && hex_byte(s[i + 2]) && hex_byte(s[i + 3])
                && hex_byte(s[i + 4]) && hex_byte(s[i + 5]) {
                i = i + 6;
            } else {
                return None;
            }
        } else if c < 32 {
            return None;
        } else {
            i = i + 1;
        }
    }
}

/// Scans one JSON value starting at `start`, following objects and arrays
/// at most `depth` levels down.
fn scan_value(s: &Vec<u8>, start: usize, depth: usize) -> (r: Option<usize>)
    requires
        start <= s@.len(),
    ensures
        r is Some ==> (start < r->0 <= s@.len() && value_len(s@, start as int, depth as int)
            == r->0 - start),
        r is None ==> value_len(s@, start as int, depth as int) == -1,
    decreases depth,
{
    let len: usize = s.len();
    if start >= len {
        return None;
    }
    let c0 = s[start];
    if c0 == 34 {
        match scan_string(s, start + 1) {
            Some(e) => Some(e),
            None => None,
        }
    } else if c0 == 116 {
        if len - start >= 4 && s[start + 1] == 114 && s[start + 2] == 117 && s[start + 3]
            == 101 {
            Some(start + 4)
        } else {
            None
        }
    } else if c0 == 110 {
        if len - start >= 4 && s[start + 1] == 117 && s[start + 2] == 108 && s[start + 3]
            == 108 {
            Some(start + 4)
        } else {
            None
        }
    } else if c0 == 102 {
        if len - start >= 5 && s[start + 1] == 97 && s[start + 2] == 108 && s[start + 3] == 115
            && s[start + 4] == 101 {
            Some(start + 5)
        } else {
            None
        }
    } else if c0 == 123 || c0 == 91 {
        if depth == 0 {
            return None;
        }
        let keyed = c0 == 123;
        let closer: u8 = if keyed {
            125
        } else {
            93
        };
        let j = skip_ws(s, start + 1);
        if j < len && s[j] == closer {
            return Some(j + 1);
        }
        let mut p: usize = j;
        loop
            invariant
                j <= p <= len,
                len == s@.len(),
                1 <= depth,
                start < j,
                start < len,
                s@[start as int] == 123 || s@[start as int] == 91,
                keyed == (s@[start as int] == 123),
                closer == (if keyed {
                    125u8
                } else {
                    93u8
                }),
                j as int == ws_end(s@, start as int + 1),
                !(j < len && s@[j as int] == closer),
                (items_len(s@, j as int, keyed, depth as int - 1) == (if items_len(
                    s@,
                    p as int,
                    keyed,
                    depth as int - 1,
                ) < 0 {
                    -1int
                } else {
                    p - j + items_len(s@, p as int, keyed, depth as int - 1)
                })),
            decreases len - p,
        {
            let v: usize;
            if keyed {
                if p >= len || s[p] != 34 {
                    return None;
                }
                let ke = match scan_string(s, p + 1) {
                    Some(x) => x,
                    None => {
                        return None;
                    },
                };
                let cc = skip_ws(s, ke);
                if cc >= len || s[cc] != 58 {
                    return None;
                }
                v = skip_ws(s, cc + 1);
            } else {
                v = p;
            }
            let e = match scan_value(s, v, depth - 1) {
                Some(x) => x,
                None => {
                    return None;
                },
            };
            let f = skip_ws(s, e);
            if f < len && s[f] == 44 {
                let n = skip_ws(s, f + 1);
                proof {
                    assert(items_len(s@, p as int, keyed, depth as int - 1) == (if items_len(
                        s@,
                        n as int,
                        keyed,
                        depth as int - 1,
                    ) < 0 {
                        -1int
                    } else {
                        n - p + items_len(s@, n as int, keyed, depth as int - 1)
                    }));
                }
                p = n;
            } else if f < len && s[f] == closer {
                proof {
                    assert(items_len(s@, p as int, keyed, depth as int - 1) == f + 1 - p);
                }
                return Some(f + 1);
            } else {
                return None;
            }
        }
    } else {
        let mut q: usize = start;
        if s[q] == 45 {
            q = q + 1;
        }
        if q >= len || s[q] < 48 || s[q] > 57 {
            return None;
        }
        let k: usize = if s[q] == 48 {
            q + 1
        } else {
            scan_digits(s, q)
        };
        let l: usize;
        if k < len && s[k] == 46 {
            let t = scan_digits(s, k + 1);
            if t == k + 1 {
                return None;
            }
            l = t;
        } else {
            l = k;
        }
        let m: usize;
        if l < len && (s[l] == 101 || s[l] == 69) {
            let x: usize = if l + 1 < len && (s[l + 1] == 43 || s[l + 1] == 45) {
                l + 2
            } else {
                l + 1
            };
            let t2 = scan_digits(s, x);
            if t2 == x {
                return None;
            }
            m = t2;
        } else {
            m = l;
        }
        Some(m)
    }
}

/// Reads the bound out of a structured request, if the body is a JSON
/// object with a `"max"` member whose integer fits the machine.
pub fn decode_request(body: &Vec<u8>) -> (r: Result<usize, RequestError>)
    ensures
        r is Ok <==> (req_value(body@) is Some && req_value(body@)->Some_0 <= usize::MAX),
        r is Ok ==> req_value(body@) == Some(r->Ok_0 as int),
        (r is Err && r->Err_0 == RequestError::Malformed) <==> req_value(body@) is None,
        (r is Err && r->Err_0 == RequestError::BoundTooLarge) <==> (req_value(body@) is Some
            && req_value(body@)->Some_0 > usize::MAX),
{
    let len: usize = body.len();
    let a = skip_ws(body, 0);
    if a >= len || body[a] != 123 {
        return Err(RequestError::Malformed);
    }
    let b = skip_ws(body, a + 1);
    if b < len && body[b] == 125 {
        return Err(RequestError::Malformed);
    }
    let mut p: usize = b;
    let mut seen_max: bool = false;
    let mut val: usize = 0;
    let mut over: bool = false;
    let ghost mut gfound: Option<int> = None;
    loop
        invariant
            b <= p <= len,
            len == body@.len(),
            a < len,
            a as int == ws_end(body@, 0),
            body@[a as int] == 123,
            b as int == ws_end(body@, a as int + 1),
            !(b < len && body@[b as int] == 125),
            seen_max == (gfound is Some),
            (!over && seen_max) ==> gfound == Some(val as int),
            over ==> (seen_max && gfound->Some_0 > usize::MAX),
            req_members(body@, b as int, None, SKIP_DEPTH as int) == req_members(
                body@,
                p as int,
                gfound,
                SKIP_DEPTH as int,
            ),
        decreases len - p,
    {
        let ghost gprev = gfound;
        if p >= len || body[p] != 34 {
            return Err(RequestError::Malformed);
        }
        let ismax = len - p > 4 && body[p + 1] == 109 && body[p + 2] == 97 && body[p + 3] == 120
            && body[p + 4] == 34;
        proof {
            assert(ismax == max_key_at(body@, p as int));
        }
        let e: usize;
        if ismax {
            let c = skip_ws(body, p + 5);
            if c >= len || body[c] != 58 {
                return Err(RequestError::Malformed);
            }
            let v = skip_ws(body, c + 1);
            let scanned = scan_uint(body, v);
            let de = scanned.0;
            if de == v {
                return Err(RequestError::Malformed);
            }
            if body[v] == 48 && de > v + 1 {
                return Err(RequestError::Malformed);
            }
            if seen_max {
                return Err(RequestError::Malformed);
            }
            seen_max = true;
            val = scanned.1;
            over = scanned.2;
            proof {
                gfound = Some(digits_val(body@.subrange(v as int, de as int)));
            }
            e = de;
        } else {
            let ke = match scan_string(body, p + 1) {
                Some(x) => x,
                None => {
                    return Err(RequestError::Malformed);
                },
            };
            let c = skip_ws(body, ke);
            if c >= len || body[c] != 58 {
                return Err(RequestError::Malformed);
            }
            let v = skip_ws(body, c + 1);
            let ve = match scan_value(body, v, SKIP_DEPTH) {
                Some(x) => x,
                None => {
                    return Err(RequestError::Malformed);
                },
            };
            e = ve;
        }
        proof {
            assert(req_members(body@, p as int, gprev, SKIP_DEPTH as int) == req_after(
                body@,
                e as int,
                gfound,
                SKIP_DEPTH as int,
            ));
        }
        let f = skip_ws(body, e);
        if f < len && body[f] == 44 {
            let n = skip_ws(body, f + 1);
            proof {
                assert(req_after(body@, e as int, gfound, SKIP_DEPTH as int) == req_members(
                    body@,
                    n as int,
                    gfound,
                    SKIP_DEPTH as int,
                ));
            }
            p = n;
        } else if f < len && body[f] == 125 {
            proof {
                assert(req_after(body@, e as int, gfound, SKIP_DEPTH as int) == (
                    f + 1 as int,
                    gfound,
                ));
            }
            let g = skip_ws(body, f + 1);
            if g != len {
                return Err(RequestError::Malformed);
            }
            if !seen_max {
                return Err(RequestError::Malformed);
            }
            if over {
                return Err(RequestError::BoundTooLarge);
            }
            return Ok(val);
        } else {
            return Err(RequestError::Malformed);
        }
    }
}

/// Appends the decimal digits of `n`.
fn push_decimal(n: usize, out: &mut Vec<u8>)
    ensures
        final(out)@ == old(out)@ + dec_rep(n as int),
    decreases n,
{
    let ghost pre = out@;
    if n <= 9 {
        out.push(48 + n as u8);
        proof {
            assert(out@ =~= pre + dec_rep(n as int));
        }
    } else {
        push_decimal(n / 10, out);
        out.push(48 + (n % 10) as u8);
        proof {
            assert(out@ =~= pre + dec_rep(n as int));
        }
    }
}

/// Builds the response body `{"count": <integer>}` for a given count.
pub fn encode_response(count: usize) -> (r: Vec<u8>)
    ensures
        r@ == resp_bytes(count as int),
{
    let mut out: Vec<u8> = Vec::new();
    out.push(123);
    out.push(34);
    out.push(99);
    out.push(111);
    out.push(117);
    out.push(110);
    out.push(116);
    out.push(34);
    out.push(58);
    push_decimal(count, &mut out);
    out.push(125);
    proof {
        assert(out@ =~= resp_bytes(count as int));
    }
    out
}

/// The structured call: decodes the request, counts the odd primes below
/// the decoded bound, and encodes the count.  A body that does not carry a
/// well-formed bound fails without running the sieve.
pub fn count_primes_middleware(body: &Vec<u8>) -> (r: Result<Vec<u8>, RequestError>)
    ensures
        r is Ok <==> (req_value(body@) is Some && req_value(body@)->Some_0 <= usize::MAX),
        r is Ok ==> r->Ok_0@ == resp_bytes(primes_seq(req_value(body@)->Some_0 / 2).len() as int),
        (r is Err && r->Err_0 == RequestError::Malformed) <==> req_value(body@) is None,
        (r is Err && r->Err_0 == RequestError::BoundTooLarge) <==> (req_value(body@) is Some
            && req_value(body@)->Some_0 > usize::MAX),
{
    match decode_request(body) {
        Ok(max) => {
            let count = count_primes(max);
            Ok(encode_response(count))
        },
        Err(e) => Err(e),
    }
}

} // verus!
