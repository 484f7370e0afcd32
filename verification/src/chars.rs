use vstd::prelude::*;

verus! {

/// One candidate glyph: an ASCII character code together with the measured
/// ink intensity and shape-uniformity deviation the font reports for it.
#[derive(Clone, Copy, Debug, PartialEq, Eq, Structural)]
pub struct Char {
    pub intensity: u8,
    pub deviation: u8,
    pub id: u8,
}

/// Lexicographic order on (intensity, deviation, id): deviation breaks
/// intensity ties, the character code breaks remaining ties.
pub open spec fn char_le(a: Char, b: Char) -> bool {
    ||| a.intensity < b.intensity
    ||| (a.intensity == b.intensity && a.deviation < b.deviation)
    ||| (a.intensity == b.intensity && a.deviation == b.deviation && a.id <= b.id)
}

pub open spec fn sorted_chars(s: Seq<Char>) -> bool {
    forall|i: int, j: int| 0 <= i <= j < s.len() ==> #[trigger] char_le(s[i], s[j])
}

fn char_le_exec(a: &Char, b: &Char) -> (r: bool)
    ensures
        r == char_le(*a, *b),
{
    if a.intensity != b.intensity {
        a.intensity < b.intensity
    } else if a.deviation != b.deviation {
        a.deviation < b.deviation
    } else {
        a.id <= b.id
    }
}

/// Insertion sort by `char_le`; the result is a sorted permutation of the input.
pub fn sort_chars(v: Vec<Char>) -> (r: Vec<Char>)
    ensures
        sorted_chars(r@),
        r@.to_multiset() == v@.to_multiset(),
        r@.len() == v@.len(),
{
    broadcast use vstd::seq_lib::group_to_multiset_ensures;

    let n = v.len();
    let mut out: Vec<Char> = Vec::new();
    for i in 0..n
        invariant
            n == v@.len(),
            out@.len() == i,
            sorted_chars(out@),
            out@.to_multiset() == v@.take(i as int).to_multiset(),
    {
        let x = v[i];
        let mut k: usize = 0;
        while k < out.len() && char_le_exec(&out[k], &x)
            invariant
                k <= out@.len(),
                forall|t: int| 0 <= t < k ==> char_le(#[trigger] out@[t], x),
            decreases out@.len() - k,
        {
            k += 1;
        }
        let ghost pre = out@;
        out.insert(k, x);
        proof {
            assert(out@ == pre.insert(k as int, x));
            assert forall|t: int| 0 <= t < out@.len() implies out@[t] == (if t < k {
                pre[t]
            } else if t == k {
                x
            } else {
                pre[t - 1]
            }) by {};
            assert forall|s: int, t: int| 0 <= s <= t < out@.len() implies char_le(
                out@[s],
                out@[t],
            ) by {
                if t < k {
                    assert(char_le(pre[s], pre[t]));
                } else if t == k {
                    if s < k {
                        assert(char_le(pre[s], x));
                    }
                } else {
                    if s < k {
                        assert(char_le(pre[s], pre[t - 1]));
                    } else if s == k {
                        assert(!char_le(pre[k as int], x));
                        assert(char_le(pre[k as int], pre[t - 1]));
                    } else {
                        assert(char_le(pre[s - 1], pre[t - 1]));
                    }
                }
            };
            vstd::seq_lib::to_multiset_insert(pre, k as int, x);
            vstd::seq_lib::to_multiset_build(v@.take(i as int), x);
            assert(v@.take(i + 1) =~= v@.take(i as int).push(v@[i as int]));
            assert(out@.to_multiset() == v@.take(i + 1).to_multiset());
        }
    }
    proof {
        assert(v@.take(n as int) =~= v@);
    }
    out
}

} // verus!
