//! The interactive overwrite policy: an answer line confirms an overwrite
//! exactly when, once surrounding whitespace is ignored, it is a single
//! `y` or `Y`. Every other line, including an empty one, declines.

use vstd::prelude::*;

verus! {

/// ASCII whitespace, as ignored around an answer.
pub open spec fn is_space(b: u8) -> bool {
    b == 32 || b == 9 || b == 10 || b == 11 || b == 12 || b == 13
}

/// Position `i` carries the sole meaningful byte of the answer, and it reads
/// `y` (121) or `Y` (89); every other byte is whitespace.
pub open spec fn yes_witness(s: Seq<u8>, i: int) -> bool {
    &&& 0 <= i < s.len()
    &&& (s[i] == 121 || s[i] == 89)
    &&& forall|j: int| #![trigger s[j]] 0 <= j < s.len() && j != i ==> is_space(s[j])
}

/// A confirming answer: exactly one byte is not whitespace, and that byte
/// is `y` or `Y`.
pub open spec fn is_yes(s: Seq<u8>) -> bool {
    exists|i: int| yes_witness(s, i)
}

/// Decide whether an answer line confirms an overwrite.
pub fn answer_is_yes(line: &Vec<u8>) -> (r: bool)
    ensures
        r == is_yes(line@),
{
    let n = line.len();
    let mut f: usize = 0;
    while f < n && (line[f] == 32 || line[f] == 9 || line[f] == 10 || line[f] == 11 || line[f]
        == 12 || line[f] == 13)
        invariant
            f <= n,
            n == line@.len(),
            forall|k: int| #![trigger line@[k]] 0 <= k < f ==> is_space(line@[k]),
        decreases n - f,
    {
        f += 1;
    }
    if f == n {
        proof {
            if is_yes(line@) {
                let i = choose|i: int| yes_witness(line@, i);
                assert(is_space(line@[i]));
                assert(false);
            }
        }
        return false;
    }
    let mut l: usize = n - 1;
    while l > f && (line[l] == 32 || line[l] == 9 || line[l] == 10 || line[l] == 11 || line[l]
        == 12 || line[l] == 13)
        invariant
            f <= l < n,
            n == line@.len(),
            forall|k: int| #![trigger line@[k]] l < k < n ==> is_space(line@[k]),
        decreases l,
    {
        l -= 1;
    }
    if f == l {
        let b = line[f];
        let r = b == 121 || b == 89;
        proof {
            if r {
                assert(yes_witness(line@, f as int));
            } else {
                if is_yes(line@) {
                    let i = choose|i: int| yes_witness(line@, i);
                    if i == f {
                        assert(false);
                    } else {
                        assert(is_space(line@[f as int]));
                        assert(false);
                    }
                }
            }
        }
        r
    } else {
        proof {
            if is_yes(line@) {
                let i = choose|i: int| yes_witness(line@, i);
                if i != f {
                    assert(is_space(line@[f as int]));
                    assert(false);
                } else {
                    assert(is_space(line@[l as int]));
                    assert(false);
                }
            }
        }
        false
    }
}

} // verus!
