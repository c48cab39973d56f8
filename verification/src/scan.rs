//! Byte-level scanning primitives shared by the frame codec: locating the
//! two-byte line terminator, decimal integer text, and UTF-8 validity.
use vstd::prelude::*;

verus! {

/// Carriage return, the first byte of the line terminator.
pub const CR: u8 = 13;

/// Line feed, the second byte of the line terminator.
pub const LF: u8 = 10;

/// The two-byte terminator starts at position `i` of `s`.
pub open spec fn crlf_at(s: Seq<u8>, i: int) -> bool {
    0 <= i && i + 2 <= s.len() && s[i] == CR && s[i + 1] == LF
}

/// Some position of `s` starts the two-byte terminator.
pub open spec fn contains_crlf(s: Seq<u8>) -> bool {
    exists|i: int| crlf_at(s, i)
}

/// Index of the first terminator pair in `s`, if any.
pub open spec fn find_crlf(s: Seq<u8>) -> Option<int>
    decreases s.len(),
{
    if s.len() < 2 {
        None
    } else if s[0] == CR && s[1] == LF {
        Some(0)
    } else {
        match find_crlf(s.drop_first()) {
            Some(i) => Some(i + 1),
            None => None,
        }
    }
}

/// `find_crlf` names the first terminator position: the pair holds there and
/// nowhere earlier; `None` means the pair holds nowhere.
pub proof fn lemma_find_crlf(s: Seq<u8>)
    ensures
        match find_crlf(s) {
            Some(i) => crlf_at(s, i) && forall|j: int| 0 <= j < i ==> !crlf_at(s, j),
            None => forall|j: int| !crlf_at(s, j),
        },
    decreases s.len(),
{
    if s.len() < 2 {
        assert(forall|j: int| !crlf_at(s, j));
    } else if s[0] == CR && s[1] == LF {
    } else {
        let t = s.drop_first();
        lemma_find_crlf(t);
        assert forall|j: int| 1 <= j implies crlf_at(s, j) == crlf_at(t, j - 1) by {
            if crlf_at(s, j) {
                assert(t[j - 1] == s[j]);
                assert(t[j] == s[j + 1]);
            }
            if crlf_at(t, j - 1) {
                assert(s[j] == t[j - 1]);
                assert(s[j + 1] == t[j]);
            }
        }
        match find_crlf(t) {
            Some(i) => {
                assert(crlf_at(s, i + 1));
                assert forall|j: int| 0 <= j < i + 1 implies !crlf_at(s, j) by {
                    if j == 0 {
                        assert(!(s[0] == CR && s[1] == LF));
                    } else {
                        assert(!crlf_at(t, j - 1));
                    }
                }
            },
            None => {
                assert forall|j: int| !crlf_at(s, j) by {
                    if 1 <= j {
                        assert(!crlf_at(t, j - 1));
                    }
                }
            },
        }
    }
}

/// Scan `bytes` from position `from` for the first terminator pair, reported
/// relative to `from`.
pub fn find_crlf_from(bytes: &Vec<u8>, from: usize) -> (r: Option<usize>)
    requires
        from <= bytes@.len(),
    ensures
        match r {
            Some(i) => {
                &&& find_crlf(bytes@.skip(from as int)) == Some(i as int)
                &&& from + i + 2 <= bytes@.len()
            },
            None => find_crlf(bytes@.skip(from as int)) is None,
        },
{
    let ghost sub: Seq<u8> = bytes@.skip(from as int);
    let n: usize = bytes.len();
    let mut j: usize = from;
    while j < n && j + 1 < n
        invariant
            from <= j <= n == bytes@.len(),
            sub == bytes@.skip(from as int),
            forall|k: int| 0 <= k < j - from ==> !crlf_at(sub, k),
        decreases n - j,
    {
        if bytes[j] == CR && bytes[j + 1] == LF {
            proof {
                let fi: int = j - from;
                assert(sub[fi] == bytes@[j as int]);
                assert(sub[fi + 1] == bytes@[j + 1]);
                assert(crlf_at(sub, fi));
                lemma_find_crlf(sub);
                match find_crlf(sub) {
                    Some(i) => {
                        assert(!(i < fi)) by {
                            if i < fi {
                                assert(!crlf_at(sub, i));
                            }
                        }
                        assert(!(fi < i));
                        assert(i == fi);
                    },
                    None => {
                        assert(!crlf_at(sub, fi));
                    },
                }
            }
            return Some(j - from);
        }
        proof {
            let k: int = j - from;
            assert(sub[k] == bytes@[j as int]);
            assert(sub[k + 1] == bytes@[j + 1]);
            assert(!crlf_at(sub, k));
        }
        j = j + 1;
    }
    proof {
        assert forall|k: int| !crlf_at(sub, k) by {
            if 0 <= k && k + 2 <= sub.len() {
                assert(k < j - from || k >= j - from);
                if k >= j - from {
                    // the loop stopped because fewer than two bytes remain
                    assert(k + 2 <= n - from);
                    assert(false);
                }
            }
        }
        lemma_find_crlf(sub);
        if find_crlf(sub) is Some {
            let i = find_crlf(sub)->0;
            assert(!crlf_at(sub, i));
        }
    }
    None
}

/// A line of terminator-free text closed by the terminator scans to exactly
/// that line, whatever follows.
pub proof fn lemma_find_crlf_of_line(content: Seq<u8>, rest: Seq<u8>)
    requires
        !contains_crlf(content),
    ensures
        find_crlf(content + seq![CR, LF] + rest) == Some(content.len() as int),
{
    let u = content + seq![CR, LF] + rest;
    let m: int = content.len() as int;
    assert(u[m] == CR);
    assert(u[m + 1] == LF);
    assert(crlf_at(u, m));
    assert forall|j: int| 0 <= j < m implies !crlf_at(u, j) by {
        if j + 2 <= m {
            assert(u[j] == content[j]);
            assert(u[j + 1] == content[j + 1]);
            assert(!crlf_at(content, j));
        } else {
            assert(j + 1 == m);
            assert(u[j + 1] == CR);
        }
    }
    lemma_find_crlf(u);
    match find_crlf(u) {
        Some(i) => {
            if i < m {
                assert(!crlf_at(u, i));
            }
            if m < i {
                assert(!crlf_at(u, m));
            }
        },
        None => {
            assert(!crlf_at(u, m));
        },
    }
}

/// A prefix that cuts a terminated line before the end of its terminator
/// contains no terminator at all.
pub proof fn lemma_find_crlf_partial_line(content: Seq<u8>, j: int)
    requires
        !contains_crlf(content),
        0 <= j <= content.len() + 1,
    ensures
        find_crlf((content + seq![CR, LF]).take(j)) is None,
{
    let u = (content + seq![CR, LF]).take(j);
    let m: int = content.len() as int;
    assert forall|k: int| !crlf_at(u, k) by {
        if 0 <= k && k + 2 <= u.len() {
            assert(u[k] == (content + seq![CR, LF])[k]);
            assert(u[k + 1] == (content + seq![CR, LF])[k + 1]);
            if k + 2 <= m {
                assert(u[k] == content[k]);
                assert(u[k + 1] == content[k + 1]);
                assert(!crlf_at(content, k));
            } else {
                assert(k + 1 == m);
                assert(u[k + 1] == CR);
            }
        }
    }
    lemma_find_crlf(u);
    if find_crlf(u) is Some {
        let i = find_crlf(u)->0;
        assert(!crlf_at(u, i));
    }
}

/// ASCII decimal digit.
pub open spec fn is_digit(b: u8) -> bool {
    48 <= b <= 57
}

/// Non-empty run of ASCII decimal digits.
pub open spec fn is_digits(s: Seq<u8>) -> bool {
    s.len() >= 1 && forall|i: int| 0 <= i < s.len() ==> is_digit(#[trigger] s[i])
}

/// Value of a digit run read most-significant first.
pub open spec fn digits_val(s: Seq<u8>) -> int
    decreases s.len(),
{
    if s.len() == 0 {
        0
    } else {
        digits_val(s.drop_last()) * 10 + (s.last() - 48)
    }
}

/// Shortest decimal digit text of a natural number.
pub open spec fn dec_digits(m: nat) -> Seq<u8>
    decreases m,
{
    if m < 10 {
        seq![(48 + m) as u8]
    } else {
        dec_digits(m / 10).push((48 + m % 10) as u8)
    }
}

/// Decimal text of a signed integer: a minus sign before the magnitude when
/// negative.
pub open spec fn int_text(n: int) -> Seq<u8> {
    if n < 0 {
        seq![45u8] + dec_digits((-n) as nat)
    } else {
        dec_digits(n as nat)
    }
}

/// Value of integer text with an optional leading `+` or `-` sign, before any
/// range check; `None` when the text is not a sign followed by digits.
pub open spec fn signed_text_val(t: Seq<u8>) -> Option<int> {
    if t.len() >= 1 && (t[0] == 43 || t[0] == 45) {
        if is_digits(t.drop_first()) {
            if t[0] == 45 {
                Some(-digits_val(t.drop_first()))
            } else {
                Some(digits_val(t.drop_first()))
            }
        } else {
            None
        }
    } else {
        if is_digits(t) {
            Some(digits_val(t))
        } else {
            None
        }
    }
}

/// Value of `t` as a 64-bit signed integer; `None` on bad text or overflow.
pub open spec fn i64_text_val(t: Seq<u8>) -> Option<int> {
    match signed_text_val(t) {
        Some(v) => if i64::MIN <= v <= i64::MAX {
            Some(v)
        } else {
            None
        },
        None => None,
    }
}

/// Value of `t` as an unsigned machine-word length: an optional leading `+`,
/// then digits; `None` on bad text or overflow.
pub open spec fn usize_text_val(t: Seq<u8>) -> Option<int> {
    let d = if t.len() >= 1 && t[0] == 43 {
        t.drop_first()
    } else {
        t
    };
    if is_digits(d) && digits_val(d) <= usize::MAX {
        Some(digits_val(d))
    } else {
        None
    }
}

/// A digit run has a non-negative value.
pub proof fn lemma_digits_val_nonneg(s: Seq<u8>)
    requires
        forall|i: int| 0 <= i < s.len() ==> is_digit(#[trigger] s[i]),
    ensures
        digits_val(s) >= 0,
    decreases s.len(),
{
    if s.len() > 0 {
        lemma_digits_val_nonneg(s.drop_last());
    }
}

/// Dropping trailing digits does not increase the value.
pub proof fn lemma_digits_val_prefix_le(s: Seq<u8>, k: int)
    requires
        forall|i: int| 0 <= i < s.len() ==> is_digit(#[trigger] s[i]),
        0 <= k <= s.len(),
    ensures
        digits_val(s.take(k)) <= digits_val(s),
    decreases s.len(),
{
    if k == s.len() {
        assert(s.take(k) =~= s);
    } else {
        lemma_digits_val_prefix_le(s.drop_last(), k);
        assert(s.drop_last().take(k) =~= s.take(k));
        lemma_digits_val_nonneg(s.drop_last());
    }
}

/// The digit text of `m` consists of digits and reads back as `m`.
pub proof fn lemma_dec_digits(m: nat)
    ensures
        is_digits(dec_digits(m)),
        digits_val(dec_digits(m)) == m,
    decreases m,
{
    if m < 10 {
        let s = dec_digits(m);
        assert(s.drop_last() =~= Seq::<u8>::empty());
        assert(digits_val(Seq::<u8>::empty()) == 0);
        assert(s.last() == (48 + m) as u8);
        assert(digits_val(s) == 0 * 10 + ((48 + m) as u8 - 48));
    } else {
        lemma_dec_digits(m / 10);
        let s = dec_digits(m);
        assert(s.drop_last() =~= dec_digits(m / 10));
        assert(s.last() == (48 + m % 10) as u8);
        assert(digits_val(s) == digits_val(dec_digits(m / 10)) * 10 + ((48 + m % 10) as u8 - 48));
        assert(m / 10 * 10 + m % 10 == m);
    }
}

/// Reading the decimal text of a 64-bit integer returns that integer.
pub proof fn lemma_int_text_val(n: int)
    requires
        i64::MIN <= n <= i64::MAX,
    ensures
        i64_text_val(int_text(n)) == Some(n),
{
    if n < 0 {
        let mag = (-n) as nat;
        lemma_dec_digits(mag);
        let t = int_text(n);
        assert(t[0] == 45);
        assert(t.drop_first() =~= dec_digits(mag));
    } else {
        lemma_dec_digits(n as nat);
        let t = int_text(n);
        assert(is_digit(t[0]));
        assert(t[0] != 43 && t[0] != 45);
    }
}

/// Reading the decimal text of a machine-word length returns that length.
pub proof fn lemma_len_text_val(m: nat)
    requires
        m <= usize::MAX,
    ensures
        usize_text_val(dec_digits(m)) == Some(m as int),
{
    lemma_dec_digits(m);
    let t = dec_digits(m);
    assert(is_digit(t[0]));
    assert(t[0] != 43);
}

/// Digit text contains no line terminator.
pub proof fn lemma_digits_no_crlf(s: Seq<u8>)
    requires
        forall|i: int| 0 <= i < s.len() ==> is_digit(#[trigger] s[i]),
    ensures
        !contains_crlf(s),
{
    assert forall|i: int| !crlf_at(s, i) by {
        if 0 <= i && i + 2 <= s.len() {
            assert(is_digit(s[i]));
        }
    }
}

/// Integer text contains no line terminator.
pub proof fn lemma_int_text_no_crlf(n: int)
    ensures
        !contains_crlf(int_text(n)),
{
    let t = int_text(n);
    if n < 0 {
        lemma_dec_digits((-n) as nat);
        assert forall|i: int| !crlf_at(t, i) by {
            if 0 <= i && i + 2 <= t.len() {
                if i == 0 {
                    assert(t[0] == 45);
                } else {
                    assert(t[i] == dec_digits((-n) as nat)[i - 1]);
                    assert(is_digit(t[i]));
                }
            }
        }
    } else {
        lemma_dec_digits(n as nat);
        lemma_digits_no_crlf(t);
    }
}

/// Read the digit run `bytes[lo..hi]` as an unsigned 64-bit value.
fn parse_digits_u64(bytes: &Vec<u8>, lo: usize, hi: usize) -> (r: Option<u64>)
    requires
        lo <= hi <= bytes@.len(),
    ensures
        ({
            let t = bytes@.subrange(lo as int, hi as int);
            match r {
                Some(v) => is_digits(t) && digits_val(t) == v,
                None => !is_digits(t) || digits_val(t) > u64::MAX,
            }
        }),
{
    let ghost t: Seq<u8> = bytes@.subrange(lo as int, hi as int);
    if lo == hi {
        return None;
    }
    let mut acc: u64 = 0;
    let mut i: usize = lo;
    while i < hi
        invariant
            lo <= i <= hi <= bytes@.len(),
            t == bytes@.subrange(lo as int, hi as int),
            lo < hi,
            forall|k: int| 0 <= k < i - lo ==> is_digit(#[trigger] t[k]),
            acc == digits_val(t.take(i - lo)),
        decreases hi - i,
    {
        let b = bytes[i];
        proof {
            assert(t[i - lo] == bytes@[i as int]);
        }
        if b < 48 || b > 57 {
            proof {
                assert(!is_digit(t[i - lo]));
            }
            return None;
        }
        let d: u64 = (b - 48) as u64;
        let ghost prev: Seq<u8> = t.take(i - lo);
        let ghost cur: Seq<u8> = t.take(i - lo + 1);
        proof {
            assert(cur.drop_last() =~= prev);
            assert(cur.last() == t[i - lo]);
        }
        let shifted = match acc.checked_mul(10) {
            Some(s) => s,
            None => {
                proof {
                    overflow_case(t, i - lo + 1);
                }
                return None;
            },
        };
        acc = match shifted.checked_add(d) {
            Some(s) => s,
            None => {
                proof {
                    overflow_case(t, i - lo + 1);
                }
                return None;
            },
        };
        i = i + 1;
    }
    proof {
        assert(t.take(hi - lo) =~= t);
    }
    Some(acc)
}

/// When a digit prefix of `t` already exceeds the unsigned 64-bit range, so
/// does all of `t`, unless `t` is not a digit run at all.
proof fn overflow_case(t: Seq<u8>, k: int)
    requires
        0 <= k <= t.len(),
        forall|i: int| 0 <= i < k ==> is_digit(#[trigger] t[i]),
        digits_val(t.take(k)) > u64::MAX,
    ensures
        !is_digits(t) || digits_val(t) > u64::MAX,
{
    if is_digits(t) {
        lemma_digits_val_prefix_le(t, k);
    }
}

/// Read `bytes[lo..hi]` as a signed 64-bit integer, sign included.
pub fn parse_i64_bytes(bytes: &Vec<u8>, lo: usize, hi: usize) -> (r: Option<i64>)
    requires
        lo <= hi <= bytes@.len(),
    ensures
        ({
            let t = bytes@.subrange(lo as int, hi as int);
            match r {
                Some(v) => i64_text_val(t) == Some(v as int),
                None => i64_text_val(t) is None,
            }
        }),
{
    let ghost t: Seq<u8> = bytes@.subrange(lo as int, hi as int);
    if lo == hi {
        return None;
    }
    let first = bytes[lo];
    proof {
        assert(t[0] == bytes@[lo as int]);
    }
    let signed = first == 43 || first == 45;
    let negative = first == 45;
    let start = if signed {
        lo + 1
    } else {
        lo
    };
    let ghost d: Seq<u8> = if signed {
        t.drop_first()
    } else {
        t
    };
    proof {
        assert(bytes@.subrange(start as int, hi as int) =~= d);
    }
    let mag = match parse_digits_u64(bytes, start, hi) {
        Some(m) => m,
        None => {
            proof {
                if is_digits(d) {
                    lemma_digits_val_nonneg(d);
                }
            }
            return None;
        },
    };
    if negative {
        if mag > 9223372036854775808u64 {
            return None;
        }
        if mag == 9223372036854775808u64 {
            Some(i64::MIN)
        } else {
            Some(-(mag as i64))
        }
    } else {
        if mag > 9223372036854775807u64 {
            return None;
        }
        Some(mag as i64)
    }
}

/// Read `bytes[lo..hi]` as an unsigned machine-word length.
pub fn parse_usize_bytes(bytes: &Vec<u8>, lo: usize, hi: usize) -> (r: Option<usize>)
    requires
        lo <= hi <= bytes@.len(),
    ensures
        ({
            let t = bytes@.subrange(lo as int, hi as int);
            match r {
                Some(v) => usize_text_val(t) == Some(v as int),
                None => usize_text_val(t) is None,
            }
        }),
{
    let ghost t: Seq<u8> = bytes@.subrange(lo as int, hi as int);
    if lo == hi {
        return None;
    }
    let first = bytes[lo];
    proof {
        assert(t[0] == bytes@[lo as int]);
    }
    let start = if first == 43 {
        lo + 1
    } else {
        lo
    };
    let ghost d: Seq<u8> = if first == 43 {
        t.drop_first()
    } else {
        t
    };
    proof {
        assert(bytes@.subrange(start as int, hi as int) =~= d);
        if first != 43 && is_digits(t) {
            assert(is_digit(t[0]));
        }
    }
    let mag = match parse_digits_u64(bytes, start, hi) {
        Some(m) => m,
        None => {
            proof {
                if is_digits(d) {
                    lemma_digits_val_nonneg(d);
                }
            }
            return None;
        },
    };
    if mag > usize::MAX as u64 {
        return None;
    }
    Some(mag as usize)
}

/// Copy `bytes[lo..hi]` into a fresh vector.
pub fn copy_range(bytes: &Vec<u8>, lo: usize, hi: usize) -> (r: Vec<u8>)
    requires
        lo <= hi <= bytes@.len(),
    ensures
        r@ == bytes@.subrange(lo as int, hi as int),
{
    let mut r: Vec<u8> = Vec::new();
    let mut i: usize = lo;
    proof {
        assert(bytes@.subrange(lo as int, lo as int) =~= Seq::<u8>::empty());
    }
    while i < hi
        invariant
            lo <= i <= hi <= bytes@.len(),
            r@ == bytes@.subrange(lo as int, i as int),
        decreases hi - i,
    {
        r.push(bytes[i]);
        proof {
            assert(bytes@.subrange(lo as int, i + 1) =~= bytes@.subrange(lo as int, i as int).push(
                bytes@[i as int]));
        }
        i = i + 1;
    }
    r
}

/// UTF-8 continuation byte.
pub open spec fn is_cont(b: u8) -> bool {
    128 <= b <= 191
}

/// Number of bytes of the UTF-8 sequence led by `b`, or 0 when `b` can lead
/// none.
pub open spec fn utf8_lead_len(b: u8) -> int {
    if b < 128 {
        1
    } else if 194 <= b <= 223 {
        2
    } else if 224 <= b <= 239 {
        3
    } else if 240 <= b <= 244 {
        4
    } else {
        0
    }
}

/// The bytes at the front of `s` form one well-formed UTF-8 sequence of the
/// length announced by the lead byte.
pub open spec fn utf8_head_ok(s: Seq<u8>) -> bool {
    s.len() >= 1 && {
        let b = s[0];
        if b < 128 {
            true
        } else if 194 <= b <= 223 {
            s.len() >= 2 && is_cont(s[1])
        } else if b == 224 {
            s.len() >= 3 && 160 <= s[1] <= 191 && is_cont(s[2])
        } else if 225 <= b <= 236 || 238 <= b <= 239 {
            s.len() >= 3 && is_cont(s[1]) && is_cont(s[2])
        } else if b == 237 {
            s.len() >= 3 && 128 <= s[1] <= 159 && is_cont(s[2])
        } else if b == 240 {
            s.len() >= 4 && 144 <= s[1] <= 191 && is_cont(s[2]) && is_cont(s[3])
        } else if 241 <= b <= 243 {
            s.len() >= 4 && is_cont(s[1]) && is_cont(s[2]) && is_cont(s[3])
        } else if b == 244 {
            s.len() >= 4 && 128 <= s[1] <= 143 && is_cont(s[2]) && is_cont(s[3])
        } else {
            false
        }
    }
}

/// `s` is a well-formed UTF-8 byte sequence.
pub open spec fn is_utf8(s: Seq<u8>) -> bool
    decreases s.len(),
{
    if s.len() == 0 {
        true
    } else {
        utf8_head_ok(s) && is_utf8(s.skip(utf8_lead_len(s[0])))
    }
}

/// ASCII-only text is well-formed UTF-8.
pub proof fn lemma_ascii_is_utf8(s: Seq<u8>)
    requires
        forall|i: int| 0 <= i < s.len() ==> #[trigger] s[i] < 128,
    ensures
        is_utf8(s),
    decreases s.len(),
{
    if s.len() > 0 {
        assert(s[0] < 128);
        lemma_ascii_is_utf8(s.skip(1));
    }
}

/// Check that `bytes[lo..hi]` is well-formed UTF-8.
pub fn check_utf8(bytes: &Vec<u8>, lo: usize, hi: usize) -> (r: bool)
    requires
        lo <= hi <= bytes@.len(),
    ensures
        r == is_utf8(bytes@.subrange(lo as int, hi as int)),
{
    let ghost t: Seq<u8> = bytes@.subrange(lo as int, hi as int);
    let mut i: usize = lo;
    proof {
        assert(t.skip(0) =~= t);
    }
    while i < hi
        invariant
            lo <= i <= hi <= bytes@.len(),
            t == bytes@.subrange(lo as int, hi as int),
            is_utf8(t) == is_utf8(t.skip(i - lo)),
        decreases hi - i,
    {
        let ghost rest: Seq<u8> = t.skip(i - lo);
        let b = bytes[i];
        proof {
            assert(rest[0] == bytes@[i as int]);
        }
        let step: usize = if b < 128 {
            1
        } else if 194 <= b && b <= 223 {
            2
        } else if 224 <= b && b <= 239 {
            3
        } else if 240 <= b && b <= 244 {
            4
        } else {
            proof {
                assert(!utf8_head_ok(rest));
            }
            return false;
        };
        if hi - i < step {
            proof {
                assert(rest.len() == hi - i);
                assert(!utf8_head_ok(rest));
            }
            return false;
        }
        proof {
            assert forall|k: int| 1 <= k < step implies rest[k] == bytes@[i + k] by {}
        }
        if step >= 2 {
            let b1 = bytes[i + 1];
            let ok1 = if b == 224 {
                160 <= b1 && b1 <= 191
            } else if b == 237 {
                128 <= b1 && b1 <= 159
            } else if b == 240 {
                144 <= b1 && b1 <= 191
            } else if b == 244 {
                128 <= b1 && b1 <= 143
            } else {
                128 <= b1 && b1 <= 191
            };
            if !ok1 {
                proof {
                    assert(!utf8_head_ok(rest));
                }
                return false;
            }
        }
        if step >= 3 {
            let b2 = bytes[i + 2];
            if !(128 <= b2 && b2 <= 191) {
                proof {
                    assert(!utf8_head_ok(rest));
                }
                return false;
            }
        }
        if step == 4 {
            let b3 = bytes[i + 3];
            if !(128 <= b3 && b3 <= 191) {
                proof {
                    assert(!utf8_head_ok(rest));
                }
                return false;
            }
        }
        proof {
            assert(utf8_head_ok(rest));
            assert(utf8_lead_len(rest[0]) == step);
            assert(rest.skip(step as int) =~= t.skip(i + step - lo));
            assert(is_utf8(rest) == is_utf8(rest.skip(step as int)));
        }
        i = i + step;
    }
    proof {
        assert(t.skip(i - lo) =~= Seq::<u8>::empty());
        assert(is_utf8(Seq::<u8>::empty()));
    }
    true
}

} // verus!
