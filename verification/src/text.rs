use vstd::prelude::*;

verus! {

/// A UTF-8 continuation byte.
pub open spec fn is_cont(b: u8) -> bool {
    0x80 <= b <= 0xbf
}

/// Length of the well-formed UTF-8 scalar encoding starting at `i`, or zero
/// when none starts there.  The ranges are those of RFC 3629: no overlong
/// forms, no surrogates, nothing above U+10FFFF.
pub open spec fn scalar_len(s: Seq<u8>, i: int) -> int
    recommends
        0 <= i < s.len(),
{
    let b0 = s[i];
    if b0 < 0x80 {
        1
    } else if b0 < 0xc2 {
        0
    } else if b0 <= 0xdf {
        if i + 2 <= s.len() && is_cont(s[i + 1]) {
            2
        } else {
            0
        }
    } else if b0 == 0xe0 {
        if i + 3 <= s.len() && 0xa0 <= s[i + 1] <= 0xbf && is_cont(s[i + 2]) {
            3
        } else {
            0
        }
    } else if b0 == 0xed {
        if i + 3 <= s.len() && 0x80 <= s[i + 1] <= 0x9f && is_cont(s[i + 2]) {
            3
        } else {
            0
        }
    } else if b0 <= 0xef {
        if i + 3 <= s.len() && is_cont(s[i + 1]) && is_cont(s[i + 2]) {
            3
        } else {
            0
        }
    } else if b0 == 0xf0 {
        if i + 4 <= s.len() && 0x90 <= s[i + 1] <= 0xbf && is_cont(s[i + 2]) && is_cont(
            s[i + 3],
        ) {
            4
        } else {
            0
        }
    } else if b0 == 0xf4 {
        if i + 4 <= s.len() && 0x80 <= s[i + 1] <= 0x8f && is_cont(s[i + 2]) && is_cont(
            s[i + 3],
        ) {
            4
        } else {
            0
        }
    } else if b0 <= 0xf3 {
        if i + 4 <= s.len() && is_cont(s[i + 1]) && is_cont(s[i + 2]) && is_cont(s[i + 3]) {
            4
        } else {
            0
        }
    } else {
        0
    }
}

/// The bytes from `i` on are a sequence of well-formed UTF-8 scalars.
pub open spec fn is_utf8_from(s: Seq<u8>, i: int) -> bool
    recommends
        0 <= i <= s.len(),
    decreases s.len() - i,
{
    if i >= s.len() {
        true
    } else if scalar_len(s, i) == 0 {
        false
    } else {
        is_utf8_from(s, i + scalar_len(s, i))
    }
}

/// The byte string is well-formed UTF-8 text.
pub open spec fn is_utf8(s: Seq<u8>) -> bool {
    is_utf8_from(s, 0)
}

/// Decides whether a byte slice is well-formed UTF-8 text.
pub fn utf8_check(s: &[u8]) -> (r: bool)
    ensures
        r == is_utf8(s@),
{
    let n = s.len();
    let mut i: usize = 0;
    while i < n
        invariant
            i <= n,
            n == s@.len(),
            is_utf8(s@) == is_utf8_from(s@, i as int),
        decreases n - i,
    {
        let b0 = s[i];
        if b0 < 0x80 {
            i += 1;
        } else if b0 < 0xc2 {
            return false;
        } else if b0 <= 0xdf {
            if n - i < 2 || !(0x80 <= s[i + 1] && s[i + 1] <= 0xbf) {
                return false;
            }
            proof {
                assert(scalar_len(s@, i as int) == 2);
            }
            i += 2;
        } else if b0 == 0xe0 {
            if n - i < 3 || !(0xa0 <= s[i + 1] && s[i + 1] <= 0xbf) || !(0x80 <= s[i + 2]
                && s[i + 2] <= 0xbf) {
                return false;
            }
            proof {
                assert(scalar_len(s@, i as int) == 3);
            }
            i += 3;
        } else if b0 == 0xed {
            if n - i < 3 || !(0x80 <= s[i + 1] && s[i + 1] <= 0x9f) || !(0x80 <= s[i + 2]
                && s[i + 2] <= 0xbf) {
                return false;
            }
            proof {
                assert(scalar_len(s@, i as int) == 3);
            }
            i += 3;
        } else if b0 <= 0xef {
            if n - i < 3 || !(0x80 <= s[i + 1] && s[i + 1] <= 0xbf) || !(0x80 <= s[i + 2]
                && s[i + 2] <= 0xbf) {
                return false;
            }
            proof {
                assert(scalar_len(s@, i as int) == 3);
            }
            i += 3;
        } else if b0 == 0xf0 {
            if n - i < 4 || !(0x90 <= s[i + 1] && s[i + 1] <= 0xbf) || !(0x80 <= s[i + 2]
                && s[i + 2] <= 0xbf) || !(0x80 <= s[i + 3] && s[i + 3] <= 0xbf) {
                return false;
            }
            proof {
                assert(scalar_len(s@, i as int) == 4);
            }
            i += 4;
        } else if b0 == 0xf4 {
            if n - i < 4 || !(0x80 <= s[i + 1] && s[i + 1] <= 0x8f) || !(0x80 <= s[i + 2]
                && s[i + 2] <= 0xbf) || !(0x80 <= s[i + 3] && s[i + 3] <= 0xbf) {
                return false;
            }
            proof {
                assert(scalar_len(s@, i as int) == 4);
            }
            i += 4;
        } else if b0 <= 0xf3 {
            if n - i < 4 || !(0x80 <= s[i + 1] && s[i + 1] <= 0xbf) || !(0x80 <= s[i + 2]
                && s[i + 2] <= 0xbf) || !(0x80 <= s[i + 3] && s[i + 3] <= 0xbf) {
                return false;
            }
            proof {
                assert(scalar_len(s@, i as int) == 4);
            }
            i += 4;
        } else {
            return false;
        }
    }
    true
}

} // verus!
