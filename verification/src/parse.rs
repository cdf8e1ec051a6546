//! Reading an unsigned integer from one token of the interactive front end:
//! decimal digits, with the whitespace that line splitting leaves around
//! them.

use vstd::prelude::*;
use vstd::string::StringSliceAdditionalSpecFns;

verus! {

/// The whitespace bytes that line-oriented input carries: space, tab,
/// carriage return, line feed.
pub open spec fn is_space(b: u8) -> bool {
    b == 32 || b == 9 || b == 10 || b == 13
}

/// A decimal digit byte.
pub open spec fn is_digit(b: u8) -> bool {
    48 <= b <= 57
}

/// The bytes with their leading whitespace dropped.
pub open spec fn trim_front(bs: Seq<u8>) -> Seq<u8>
    decreases bs.len(),
{
    if bs.len() > 0 && is_space(bs[0]) {
        trim_front(bs.drop_first())
    } else {
        bs
    }
}

/// The bytes with their trailing whitespace dropped.
pub open spec fn trim_back(bs: Seq<u8>) -> Seq<u8>
    decreases bs.len(),
{
    if bs.len() > 0 && is_space(bs.last()) {
        trim_back(bs.drop_last())
    } else {
        bs
    }
}

/// The bytes with whitespace dropped on both sides.
pub open spec fn trimmed(bs: Seq<u8>) -> Seq<u8> {
    trim_back(trim_front(bs))
}

/// Every byte a decimal digit.
pub open spec fn all_digits(bs: Seq<u8>) -> bool {
    forall|i: int| 0 <= i < bs.len() ==> is_digit(#[trigger] bs[i])
}

/// The number a digit string denotes, most significant digit first.
pub open spec fn digits_val(bs: Seq<u8>) -> int
    decreases bs.len(),
{
    if bs.len() == 0 {
        0int
    } else {
        digits_val(bs.drop_last()) * 10 + (bs.last() - 48)
    }
}

/// A token `parse_int` accepts: after trimming, at least one byte, all of
/// them digits, denoting a value that fits `u32`.
pub open spec fn parses_to_u32(bs: Seq<u8>) -> bool {
    &&& trimmed(bs).len() >= 1
    &&& all_digits(trimmed(bs))
    &&& digits_val(trimmed(bs)) <= u32::MAX
}

/// A digit string denotes nothing negative.
proof fn lemma_digits_val_nonneg(bs: Seq<u8>)
    requires
        all_digits(bs),
    ensures
        digits_val(bs) >= 0,
    decreases bs.len(),
{
    if bs.len() > 0 {
        assert(all_digits(bs.drop_last()));
        lemma_digits_val_nonneg(bs.drop_last());
    }
}

/// A prefix of a digit string never denotes more than the whole string.
proof fn lemma_digits_val_prefix(bs: Seq<u8>, i: int)
    requires
        all_digits(bs),
        0 <= i <= bs.len(),
    ensures
        0 <= digits_val(bs.take(i)) <= digits_val(bs),
    decreases bs.len() - i,
{
    assert(all_digits(bs.take(i)));
    lemma_digits_val_nonneg(bs.take(i));
    if i == bs.len() {
        assert(bs.take(i) =~= bs);
    } else {
        assert(bs.take(i + 1).drop_last() =~= bs.take(i));
        assert(bs.take(i + 1).last() == bs[i]);
        assert(digits_val(bs.take(i + 1)) == digits_val(bs.take(i)) * 10 + (bs[i] - 48));
        assert(is_digit(bs[i]));
        lemma_digits_val_prefix(bs, i + 1);
    }
}

/// The executable test for the whitespace bytes.
fn is_space_byte(b: u8) -> (r: bool)
    ensures
        r == is_space(b),
{
    b == 32 || b == 9 || b == 10 || b == 13
}

/// The value of one decimal token, as the interactive front end reads its
/// arguments: surrounding whitespace is ignored.
pub fn parse_int(n: &str) -> (r: u32)
    requires
        parses_to_u32(n.spec_bytes()),
    ensures
        r as int == digits_val(trimmed(n.spec_bytes())),
{
    let bytes = n.as_bytes();
    let ghost all = bytes@;
    let len = bytes.len();
    proof {
        assert(all.skip(0) =~= all);
    }
    let mut lo: usize = 0;
    while lo < len && is_space_byte(bytes[lo])
        invariant
            bytes@ == all,
            len == all.len(),
            lo <= len,
            trim_front(all) == trim_front(all.skip(lo as int)),
        decreases len - lo,
    {
        proof {
            assert(all.skip(lo as int)[0] == all[lo as int]);
            assert(all.skip(lo as int).drop_first() =~= all.skip(lo as int + 1));
        }
        lo += 1;
    }
    proof {
        if lo < len {
            assert(!is_space(all.skip(lo as int)[0]));
        }
        assert(trim_front(all) == all.skip(lo as int));
    }
    let mut hi: usize = len;
    while hi > lo && is_space_byte(bytes[hi - 1])
        invariant
            bytes@ == all,
            len == all.len(),
            lo <= hi <= len,
            trim_front(all) == all.skip(lo as int),
            trim_back(all.skip(lo as int)) == trim_back(all.subrange(lo as int, hi as int)),
        decreases hi,
    {
        proof {
            let cut = all.subrange(lo as int, hi as int);
            assert(cut.last() == all[hi - 1]);
            assert(cut.drop_last() =~= all.subrange(lo as int, hi as int - 1));
        }
        hi -= 1;
    }
    let ghost t = trimmed(all);
    proof {
        let cut = all.subrange(lo as int, hi as int);
        if hi > lo {
            assert(!is_space(cut.last()));
        }
        assert(trim_back(cut) == cut);
        assert(t == all.subrange(lo as int, hi as int));
    }
    let mut val: u32 = 0;
    let mut i: usize = lo;
    while i < hi
        invariant
            bytes@ == all,
            len == all.len(),
            lo <= i <= hi <= len,
            t == all.subrange(lo as int, hi as int),
            all_digits(t),
            digits_val(t) <= u32::MAX,
            val as int == digits_val(t.take(i - lo)),
        decreases hi - i,
    {
        let d = bytes[i];
        proof {
            let k = i - lo;
            assert(t[k] == all[i as int]);
            assert(is_digit(t[k]));
            assert(t.take(k + 1).drop_last() =~= t.take(k));
            assert(t.take(k + 1).last() == t[k]);
            assert(digits_val(t.take(k + 1)) == digits_val(t.take(k)) * 10 + (t[k] - 48));
            lemma_digits_val_prefix(t, k + 1);
        }
        val = val * 10 + ((d - 48) as u32);
        i += 1;
    }
    proof {
        assert(t.take(hi - lo) =~= t);
    }
    val
}

} // verus!
