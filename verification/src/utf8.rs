//! Well-formed UTF-8, as a specification over byte sequences, with a
//! verified validity checker and the closure lemmas the path operations
//! rely on: validity is preserved by concatenation and by splitting at an
//! ASCII byte.

use vstd::prelude::*;

verus! {

/// A continuation byte of a multi-byte UTF-8 sequence.
pub open spec fn is_cont(b: u8) -> bool {
    0x80 <= b && b < 0xC0
}

/// How many bytes the UTF-8 sequence starting with lead byte `b0` takes.
/// Only meaningful for lead bytes that `head_ok` accepts.
pub open spec fn head_len(b0: u8) -> int {
    if b0 < 0x80 {
        1
    } else if b0 < 0xE0 {
        2
    } else if b0 < 0xF0 {
        3
    } else {
        4
    }
}

/// The first scalar value of `s` is well encoded: shortest form, below
/// 0x110000, and not a surrogate.
pub open spec fn head_ok(s: Seq<u8>) -> bool {
    s.len() > 0 && {
        let b0 = s[0];
        if b0 < 0x80 {
            true
        } else if 0xC2 <= b0 && b0 <= 0xDF {
            s.len() >= 2 && is_cont(s[1])
        } else if b0 == 0xE0 {
            s.len() >= 3 && 0xA0 <= s[1] && s[1] < 0xC0 && is_cont(s[2])
        } else if b0 == 0xED {
            s.len() >= 3 && 0x80 <= s[1] && s[1] < 0xA0 && is_cont(s[2])
        } else if 0xE1 <= b0 && b0 <= 0xEF {
            s.len() >= 3 && is_cont(s[1]) && is_cont(s[2])
        } else if b0 == 0xF0 {
            s.len() >= 4 && 0x90 <= s[1] && s[1] < 0xC0 && is_cont(s[2]) && is_cont(s[3])
        } else if 0xF1 <= b0 && b0 <= 0xF3 {
            s.len() >= 4 && is_cont(s[1]) && is_cont(s[2]) && is_cont(s[3])
        } else if b0 == 0xF4 {
            s.len() >= 4 && 0x80 <= s[1] && s[1] < 0x90 && is_cont(s[2]) && is_cont(s[3])
        } else {
            false
        }
    }
}

/// `s` is a well-formed UTF-8 encoding of some text.
pub open spec fn valid_utf8(s: Seq<u8>) -> bool
    decreases s.len(),
{
    if s.len() == 0 {
        true
    } else {
        head_ok(s) && valid_utf8(s.skip(head_len(s[0])))
    }
}

/// Every byte of a well-encoded head after the lead byte is 0x80 or above.
proof fn lemma_head_tail_high(s: Seq<u8>)
    requires
        head_ok(s),
    ensures
        1 <= head_len(s[0]) <= s.len(),
        forall|j: int| 1 <= j < head_len(s[0]) ==> s[j] >= 0x80,
{
}

/// A single ASCII byte is a well-formed encoding.
pub proof fn lemma_valid_ascii_singleton(b: u8)
    requires
        b < 0x80,
    ensures
        valid_utf8(seq![b]),
{
    assert(seq![b].skip(1) =~= Seq::<u8>::empty());
    assert(valid_utf8(Seq::<u8>::empty()));
}

/// Concatenating two well-formed encodings yields a well-formed encoding.
pub proof fn lemma_valid_utf8_concat(a: Seq<u8>, b: Seq<u8>)
    requires
        valid_utf8(a),
        valid_utf8(b),
    ensures
        valid_utf8(a + b),
    decreases a.len(),
{
    if a.len() == 0 {
        assert(a + b =~= b);
    } else {
        let k = head_len(a[0]);
        lemma_head_tail_high(a);
        assert(head_ok(a + b));
        assert((a + b).skip(k) =~= a.skip(k) + b);
        lemma_valid_utf8_concat(a.skip(k), b);
    }
}

/// An ASCII byte inside a well-formed encoding sits on a scalar-value
/// boundary: cutting just before it leaves both halves well formed.
pub proof fn lemma_valid_utf8_split_at_ascii(s: Seq<u8>, i: int)
    requires
        valid_utf8(s),
        0 <= i < s.len(),
        s[i] < 0x80,
    ensures
        valid_utf8(s.take(i)),
        valid_utf8(s.skip(i)),
    decreases i,
{
    if i == 0 {
        assert(s.take(0) =~= Seq::<u8>::empty());
        assert(s.skip(0) =~= s);
    } else {
        let k = head_len(s[0]);
        lemma_head_tail_high(s);
        // i cannot fall inside the first scalar value: its trailing bytes
        // are all 0x80 or above while s[i] is ASCII.
        assert(i >= k);
        let t = s.skip(k);
        assert(t[i - k] == s[i]);
        lemma_valid_utf8_split_at_ascii(t, i - k);
        assert(t.skip(i - k) =~= s.skip(i));
        let u = s.take(i);
        assert(u.len() == i >= k);
        assert(forall|j: int| 0 <= j < k ==> u[j] == s[j]);
        assert(head_ok(u));
        assert(u.skip(k) =~= t.take(i - k));
        assert(valid_utf8(u));
    }
}

/// The cuts the path operations make: at the very ends, just before an
/// ASCII byte, or just after one.  All leave both halves well formed.
pub proof fn lemma_valid_utf8_cut(s: Seq<u8>, i: int)
    requires
        valid_utf8(s),
        0 <= i <= s.len(),
        i == 0 || i == s.len() || s[i] < 0x80 || s[i - 1] < 0x80,
    ensures
        valid_utf8(s.take(i)),
        valid_utf8(s.skip(i)),
{
    if i == 0 {
        assert(s.take(0) =~= Seq::<u8>::empty());
        assert(s.skip(0) =~= s);
    } else if i == s.len() {
        assert(s.take(i) =~= s);
        assert(s.skip(i) =~= Seq::<u8>::empty());
    } else if s[i] < 0x80 {
        lemma_valid_utf8_split_at_ascii(s, i);
    } else {
        lemma_valid_utf8_split_at_ascii(s, i - 1);
        let t = s.skip(i - 1);
        assert(t[0] == s[i - 1]);
        assert(head_ok(t) && head_len(t[0]) == 1);
        assert(t.skip(1) =~= s.skip(i));
        let a = s.take(i - 1);
        let one = seq![s[i - 1]];
        assert(head_ok(one));
        assert(one.skip(1) =~= Seq::<u8>::empty());
        assert(valid_utf8(Seq::<u8>::empty()));
        assert(valid_utf8(one));
        lemma_valid_utf8_concat(a, one);
        assert(a + one =~= s.take(i));
    }
}

/// Checks whether `v` is well-formed UTF-8.
pub fn check_utf8(v: &Vec<u8>) -> (r: bool)
    ensures
        r == valid_utf8(v@),
{
    let n = v.len();
    let mut i: usize = 0;
    proof {
        assert(v@.skip(0) =~= v@);
    }
    while i < n
        invariant
            n == v@.len(),
            i <= n,
            valid_utf8(v@) == valid_utf8(v@.skip(i as int)),
        decreases n - i,
    {
        let ghost s = v@.skip(i as int);
        let b0 = v[i];
        proof {
            assert(s.len() == n - i);
            assert(s[0] == b0);
        }
        if b0 < 0x80 {
            proof {
                assert(s.skip(1) =~= v@.skip(i + 1));
            }
            i = i + 1;
        } else if 0xC2 <= b0 && b0 <= 0xDF {
            if n - i < 2 || !(0x80 <= v[i + 1] && v[i + 1] < 0xC0) {
                proof {
                    assert(!head_ok(s));
                }
                return false;
            }
            proof {
                assert(s[1] == v@[i + 1]);
                assert(s.skip(2) =~= v@.skip(i + 2));
            }
            i = i + 2;
        } else if b0 == 0xE0 || b0 == 0xED || (0xE1 <= b0 && b0 <= 0xEF) {
            let lo: u8 = if b0 == 0xE0 { 0xA0 } else { 0x80 };
            let hi: u8 = if b0 == 0xED { 0xA0 } else { 0xC0 };
            if n - i < 3 || !(lo <= v[i + 1] && v[i + 1] < hi) || !(0x80 <= v[i + 2] && v[i + 2]
                < 0xC0) {
                proof {
                    assert(s.len() >= 2 ==> s[1] == v@[i + 1]);
                    assert(s.len() >= 3 ==> s[2] == v@[i + 2]);
                    assert(!head_ok(s));
                }
                return false;
            }
            proof {
                assert(s[1] == v@[i + 1] && s[2] == v@[i + 2]);
                assert(head_ok(s));
                assert(s.skip(3) =~= v@.skip(i + 3));
            }
            i = i + 3;
        } else if 0xF0 <= b0 && b0 <= 0xF4 {
            let lo: u8 = if b0 == 0xF0 { 0x90 } else { 0x80 };
            let hi: u8 = if b0 == 0xF4 { 0x90 } else { 0xC0 };
            if n - i < 4 || !(lo <= v[i + 1] && v[i + 1] < hi) || !(0x80 <= v[i + 2] && v[i + 2]
                < 0xC0) || !(0x80 <= v[i + 3] && v[i + 3] < 0xC0) {
                proof {
                    assert(s.len() >= 2 ==> s[1] == v@[i + 1]);
                    assert(s.len() >= 3 ==> s[2] == v@[i + 2]);
                    assert(s.len() >= 4 ==> s[3] == v@[i + 3]);
                    assert(!head_ok(s));
                }
                return false;
            }
            proof {
                assert(s[1] == v@[i + 1] && s[2] == v@[i + 2] && s[3] == v@[i + 3]);
                assert(head_ok(s));
                assert(s.skip(4) =~= v@.skip(i + 4));
            }
            i = i + 4;
        } else {
            proof {
                assert(!head_ok(s));
            }
            return false;
        }
    }
    proof {
        assert(v@.skip(n as int) =~= Seq::<u8>::empty());
    }
    true
}

} // verus!
