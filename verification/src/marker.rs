//! The marker convention on declaration names: detecting the marker
//! substring and deriving the checked counterpart name by removing it.

use vstd::prelude::*;

verus! {

/// The marker substring whose presence flags a declaration as unchecked.
pub open spec fn marker() -> Seq<char> {
    "_unchecked"@
}

/// `pat` occurs in `s` starting at position `i`.
pub open spec fn matches_at(s: Seq<char>, pat: Seq<char>, i: int) -> bool {
    &&& 0 <= i
    &&& i + pat.len() <= s.len()
    &&& s.subrange(i, i + pat.len()) == pat
}

/// `pat` occurs somewhere in `s`.
pub open spec fn contains_pat(s: Seq<char>, pat: Seq<char>) -> bool {
    exists|i: int| matches_at(s, pat, i)
}

/// A declaration name is marked when it contains the marker substring,
/// at any position.
pub open spec fn is_marked(name: Seq<char>) -> bool {
    contains_pat(name, marker())
}

/// `s` with every occurrence of `pat` removed: the scan runs left to
/// right, removing non-overlapping occurrences as they are met, and does
/// not rescan text joined together by a removal.
pub open spec fn strip_all(s: Seq<char>, pat: Seq<char>) -> Seq<char>
    decreases s.len(),
{
    if pat.len() == 0 || s.len() < pat.len() {
        s
    } else if s.subrange(0, pat.len() as int) == pat {
        strip_all(s.subrange(pat.len() as int, s.len() as int), pat)
    } else {
        seq![s[0]] + strip_all(s.subrange(1, s.len() as int), pat)
    }
}

/// The checked counterpart of a name: the name with the marker removed.
pub open spec fn counterpart_of(name: Seq<char>) -> Seq<char> {
    strip_all(name, marker())
}

/// The marker as executable text.
fn marker_str() -> (s: &'static str)
    ensures
        s@ == marker(),
{
    "_unchecked"
}

/// Whether `pat` occurs in `s` at position `i`.
fn match_at(s: &str, pat: &str, i: usize) -> (r: bool)
    requires
        i + pat@.len() <= s@.len(),
    ensures
        r == matches_at(s@, pat@, i as int),
{
    let n = s.unicode_len();
    let m = pat.unicode_len();
    let mut j: usize = 0;
    while j < m
        invariant
            j <= m,
            n == s@.len(),
            m == pat@.len(),
            i + m <= n,
            forall|k: int| 0 <= k < j ==> s@[i + k] == pat@[k],
        decreases m - j,
    {
        if s.get_char(i + j) != pat.get_char(j) {
            proof {
                if matches_at(s@, pat@, i as int) {
                    assert(s@.subrange(i as int, i + pat@.len())[j as int] == pat@[j as int]);
                }
            }
            return false;
        }
        j += 1;
    }
    proof {
        assert(s@.subrange(i as int, i + pat@.len()) =~= pat@);
    }
    true
}

/// Whether `name` carries the marker.
pub fn contains_marker(name: &str) -> (r: bool)
    ensures
        r == is_marked(name@),
{
    let n = name.unicode_len();
    let pat = marker_str();
    let m = pat.unicode_len();
    proof {
        reveal_strlit("_unchecked");
    }
    if n < m {
        proof {
            if exists|i: int| matches_at(name@, marker(), i) {
                let i = choose|i: int| matches_at(name@, marker(), i);
                assert(i + marker().len() <= name@.len());
            }
        }
        return false;
    }
    let mut i: usize = 0;
    while i <= n - m
        invariant
            n == name@.len(),
            m == marker().len(),
            pat@ == marker(),
            1 <= m <= n,
            i <= n - m + 1,
            forall|k: int| 0 <= k < i ==> !matches_at(name@, marker(), k),
        decreases n - m + 1 - i,
    {
        if match_at(name, pat, i) {
            return true;
        }
        i += 1;
    }
    proof {
        assert forall|k: int| !matches_at(name@, marker(), k) by {
            if 0 <= k < i {
            } else if k + marker().len() <= name@.len() && 0 <= k {
                assert(k < i);
            }
        }
    }
    false
}

/// The checked counterpart of `name`: `name` with every occurrence of the
/// marker removed, scanning left to right.
pub fn remove_marker(name: &str) -> (r: String)
    ensures
        r@ == counterpart_of(name@),
{
    let n = name.unicode_len();
    let pat = marker_str();
    let m = pat.unicode_len();
    proof {
        reveal_strlit("_unchecked");
    }
    let mut out = String::new();
    let mut i: usize = 0;
    let mut seg: usize = 0;
    proof {
        assert(name@.subrange(0, n as int) =~= name@);
        assert(out@ + name@.subrange(0, 0) + strip_all(name@.subrange(0, n as int), marker())
            =~= counterpart_of(name@));
    }
    if m <= n {
        while i <= n - m
            invariant
                n == name@.len(),
                m == marker().len(),
                pat@ == marker(),
                1 <= m <= n,
                seg <= i <= n,
                counterpart_of(name@) == out@ + name@.subrange(seg as int, i as int)
                    + strip_all(name@.subrange(i as int, n as int), marker()),
            decreases n - i,
        {
            let s_i: Ghost<Seq<char>> = Ghost(name@.subrange(i as int, n as int));
            if match_at(name, pat, i) {
                proof {
                    assert(s_i@.subrange(0, m as int) =~= name@.subrange(
                        i as int,
                        i as int + m as int,
                    ));
                    assert(s_i@.subrange(0, m as int) == marker());
                    assert(s_i@.subrange(m as int, s_i@.len() as int) =~= name@.subrange(
                        i as int + m as int,
                        n as int,
                    ));
                    assert(strip_all(s_i@, marker()) == strip_all(
                        name@.subrange(i as int + m as int, n as int),
                        marker(),
                    ));
                }
                out.append(name.substring_char(seg, i));
                i += m;
                seg = i;
            } else {
                proof {
                    assert(s_i@.subrange(0, m as int) =~= name@.subrange(
                        i as int,
                        i as int + m as int,
                    ));
                    assert(s_i@.subrange(0, m as int) != marker());
                    assert(s_i@.subrange(1, s_i@.len() as int) =~= name@.subrange(
                        i as int + 1,
                        n as int,
                    ));
                    let tail = strip_all(name@.subrange(i as int + 1, n as int), marker());
                    assert(strip_all(s_i@, marker()) == seq![name@[i as int]] + tail);
                    assert(out@ + name@.subrange(seg as int, i as int + 1) + tail =~= out@
                        + name@.subrange(seg as int, i as int) + (seq![name@[i as int]] + tail));
                }
                i += 1;
            }
        }
    }
    proof {
        assert(strip_all(name@.subrange(i as int, n as int), marker()) == name@.subrange(
            i as int,
            n as int,
        ));
        assert(out@ + name@.subrange(seg as int, i as int) + name@.subrange(i as int, n as int)
            =~= out@ + name@.subrange(seg as int, n as int));
    }
    out.append(name.substring_char(seg, n));
    out
}

} // verus!
