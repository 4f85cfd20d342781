use vstd::prelude::*;

verus! {

/// A UTF-8 continuation byte: `10xxxxxx`.
pub open spec fn is_continuation(b: u8) -> bool {
    0x80 <= b && b < 0xC0
}

/// Length of the well-formed UTF-8 scalar-value encoding that begins at
/// position `i`, or 0 if the bytes at `i` do not begin one.  Follows the
/// standard table: no overlong forms, no surrogates, nothing above
/// U+10FFFF.
pub open spec fn encoded_len_at(s: Seq<u8>, i: int) -> int
    recommends
        0 <= i < s.len(),
{
    let b0 = s[i];
    if b0 < 0x80 {
        1
    } else if 0xC2 <= b0 && b0 < 0xE0 {
        if i + 2 <= s.len() && is_continuation(s[i + 1]) {
            2
        } else {
            0
        }
    } else if b0 == 0xE0 {
        if i + 3 <= s.len() && 0xA0 <= s[i + 1] && s[i + 1] < 0xC0 && is_continuation(s[i + 2]) {
            3
        } else {
            0
        }
    } else if (0xE1 <= b0 && b0 < 0xED) || b0 == 0xEE || b0 == 0xEF {
        if i + 3 <= s.len() && is_continuation(s[i + 1]) && is_continuation(s[i + 2]) {
            3
        } else {
            0
        }
    } else if b0 == 0xED {
        if i + 3 <= s.len() && 0x80 <= s[i + 1] && s[i + 1] < 0xA0 && is_continuation(s[i + 2]) {
            3
        } else {
            0
        }
    } else if b0 == 0xF0 {
        if i + 4 <= s.len() && 0x90 <= s[i + 1] && s[i + 1] < 0xC0 && is_continuation(s[i + 2])
            && is_continuation(s[i + 3]) {
            4
        } else {
            0
        }
    } else if 0xF1 <= b0 && b0 < 0xF4 {
        if i + 4 <= s.len() && is_continuation(s[i + 1]) && is_continuation(s[i + 2])
            && is_continuation(s[i + 3]) {
            4
        } else {
            0
        }
    } else if b0 == 0xF4 {
        if i + 4 <= s.len() && 0x80 <= s[i + 1] && s[i + 1] < 0x90 && is_continuation(s[i + 2])
            && is_continuation(s[i + 3]) {
            4
        } else {
            0
        }
    } else {
        0
    }
}

/// The bytes of `s` from position `i` onward form a sequence of well-formed
/// UTF-8 encodings.
pub open spec fn valid_utf8_from(s: Seq<u8>, i: int) -> bool
    decreases s.len() - i,
{
    if i >= s.len() {
        true
    } else if i < 0 {
        false
    } else {
        let l = encoded_len_at(s, i);
        l > 0 && valid_utf8_from(s, i + l)
    }
}

/// `s` is well-formed UTF-8 text.
pub open spec fn valid_utf8(s: Seq<u8>) -> bool {
    valid_utf8_from(s, 0)
}

/// Runtime mirror of `encoded_len_at`.
fn encoded_len(s: &Vec<u8>, i: usize) -> (l: usize)
    requires
        i < s@.len(),
    ensures
        l == encoded_len_at(s@, i as int),
        i + l <= s@.len(),
{
    let b0 = s[i];
    let len = s.len();
    if b0 < 0x80 {
        1
    } else if 0xC2 <= b0 && b0 < 0xE0 {
        if len - i >= 2 && 0x80 <= s[i + 1] && s[i + 1] < 0xC0 {
            2
        } else {
            0
        }
    } else if b0 == 0xE0 {
        if len - i >= 3 && 0xA0 <= s[i + 1] && s[i + 1] < 0xC0 && 0x80 <= s[i + 2]
            && s[i + 2] < 0xC0 {
            3
        } else {
            0
        }
    } else if (0xE1 <= b0 && b0 < 0xED) || b0 == 0xEE || b0 == 0xEF {
        if len - i >= 3 && 0x80 <= s[i + 1] && s[i + 1] < 0xC0 && 0x80 <= s[i + 2]
            && s[i + 2] < 0xC0 {
            3
        } else {
            0
        }
    } else if b0 == 0xED {
        if len - i >= 3 && 0x80 <= s[i + 1] && s[i + 1] < 0xA0 && 0x80 <= s[i + 2]
            && s[i + 2] < 0xC0 {
            3
        } else {
            0
        }
    } else if b0 == 0xF0 {
        if len - i >= 4 && 0x90 <= s[i + 1] && s[i + 1] < 0xC0 && 0x80 <= s[i + 2]
            && s[i + 2] < 0xC0 && 0x80 <= s[i + 3] && s[i + 3] < 0xC0 {
            4
        } else {
            0
        }
    } else if 0xF1 <= b0 && b0 < 0xF4 {
        if len - i >= 4 && 0x80 <= s[i + 1] && s[i + 1] < 0xC0 && 0x80 <= s[i + 2]
            && s[i + 2] < 0xC0 && 0x80 <= s[i + 3] && s[i + 3] < 0xC0 {
            4
        } else {
            0
        }
    } else if b0 == 0xF4 {
        if len - i >= 4 && 0x80 <= s[i + 1] && s[i + 1] < 0x90 && 0x80 <= s[i + 2]
            && s[i + 2] < 0xC0 && 0x80 <= s[i + 3] && s[i + 3] < 0xC0 {
            4
        } else {
            0
        }
    } else {
        0
    }
}

/// Decide whether `s` is well-formed UTF-8 text.
pub fn is_valid_utf8(s: &Vec<u8>) -> (r: bool)
    ensures
        r == valid_utf8(s@),
{
    let mut i: usize = 0;
    loop
        invariant
            i <= s@.len(),
            valid_utf8(s@) == valid_utf8_from(s@, i as int),
        decreases s@.len() - i,
    {
        if i >= s.len() {
            return true;
        }
        let l = encoded_len(s, i);
        if l == 0 {
            return false;
        }
        i = i + l;
    }
}

} // verus!
