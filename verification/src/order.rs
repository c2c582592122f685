//! Ordering of `f32` values held as IEEE-754 bit patterns, and a stable descending sort.
use vstd::prelude::*;

verus! {

/// The position of the float with bit pattern `bits` in the IEEE-754 total order
/// (`f32::total_cmp`): comparing keys compares the floats.
pub open spec fn total_key(bits: u32) -> int {
    if bits < 0x8000_0000 {
        bits as int
    } else {
        0x7fff_ffff - bits as int
    }
}

/// The bit pattern is a NaN.
pub open spec fn is_nan_bits(bits: u32) -> bool {
    bits % 0x8000_0000 > 0x7f80_0000
}

/// The bit pattern is positive or negative zero.
pub open spec fn is_zero_bits(bits: u32) -> bool {
    bits % 0x8000_0000 == 0
}

/// `a > b` on the floats with these bit patterns, as IEEE-754 compares them: false when either
/// is NaN, and zeros of either sign are equal.
pub open spec fn float_gt(a: u32, b: u32) -> bool {
    !is_nan_bits(a) && !is_nan_bits(b) && !(is_zero_bits(a) && is_zero_bits(b)) && total_key(a)
        > total_key(b)
}

/// Executable counterpart of [`total_key`].
pub fn total_order_key(bits: u32) -> (k: i64)
    ensures
        k == total_key(bits),
{
    if bits < 0x8000_0000 {
        bits as i64
    } else {
        0x7fff_ffff - bits as i64
    }
}

/// Executable counterpart of [`float_gt`].
pub fn float_greater(a: u32, b: u32) -> (r: bool)
    ensures
        r == float_gt(a, b),
{
    let a_mag = a % 0x8000_0000;
    let b_mag = b % 0x8000_0000;
    if a_mag > 0x7f80_0000 || b_mag > 0x7f80_0000 {
        return false;
    }
    if a_mag == 0 && b_mag == 0 {
        return false;
    }
    total_order_key(a) > total_order_key(b)
}

/// `out` is `inp` reordered by the index map `idx`: `out[i] == inp[idx[i]]`, with distinct
/// indices.
pub open spec fn reorders<T>(out: Seq<T>, inp: Seq<T>, idx: Seq<int>) -> bool {
    &&& out.len() == inp.len()
    &&& idx.len() == out.len()
    &&& forall|i: int| 0 <= i < out.len() ==> 0 <= #[trigger] idx[i] < inp.len() && out[i] == inp[idx[i]]
    &&& forall|i: int, j: int| 0 <= i < j < out.len() ==> #[trigger] idx[i] != #[trigger] idx[j]
}

/// A reordering keeps every element: each input position is the source of some output
/// position.
pub proof fn lemma_reorders_onto<T>(out: Seq<T>, inp: Seq<T>, idx: Seq<int>)
    requires
        reorders(out, inp, idx),
    ensures
        forall|j: int| 0 <= j < inp.len() ==> #[trigger] idx.contains(j),
{
    broadcast use vstd::seq_lib::group_seq_properties;
    let n = inp.len() as int;
    assert(idx.no_duplicates()) by {
        assert forall|a: int, b: int| 0 <= a < idx.len() && 0 <= b < idx.len() && a != b implies idx[a]
            != idx[b] by {
            if a < b {
                assert(idx[a] != idx[b]);
            } else {
                assert(idx[b] != idx[a]);
            }
        }
    }
    idx.unique_seq_to_set();
    let range = vstd::set_lib::set_int_range(0, n);
    vstd::set_lib::lemma_int_range(0, n);
    assert(idx.to_set().subset_of(range)) by {
        assert forall|x: int| idx.to_set().contains(x) implies range.contains(x) by {
            let i = choose|i: int| 0 <= i < idx.len() && idx[i] == x;
            assert(0 <= idx[i] < n);
        }
    }
    vstd::set_lib::lemma_subset_equality(idx.to_set(), range);
    assert forall|j: int| 0 <= j < inp.len() implies #[trigger] idx.contains(j) by {
        assert(range.contains(j));
        assert(idx.to_set().contains(j));
    }
}

/// `out` is `inp` sorted by descending key, equal keys keeping their input order; `idx` maps
/// each output position to its input position.
pub open spec fn stable_desc<T>(out: Seq<T>, out_keys: Seq<int>, inp: Seq<T>, in_keys: Seq<int>, idx: Seq<int>) -> bool {
    &&& reorders(out, inp, idx)
    &&& in_keys.len() == inp.len()
    &&& out_keys.len() == out.len()
    &&& forall|i: int| 0 <= i < out.len() ==> #[trigger] out_keys[i] == in_keys[idx[i]]
    &&& forall|i: int, j: int| 0 <= i < j < out.len() ==> #[trigger] out_keys[i] >= #[trigger] out_keys[j]
    &&& forall|i: int, j: int|
        0 <= i < j < out.len() && #[trigger] out_keys[i] == #[trigger] out_keys[j] ==> idx[i] < idx[j]
}

/// Stable sort of `items` by descending `keys`.
pub fn sort_desc_stable<T>(items: Vec<T>, keys: Vec<i128>) -> (res: (Vec<T>, Vec<i128>, Ghost<Seq<int>>))
    requires
        items@.len() == keys@.len(),
    ensures
        stable_desc(res.0@, res.1@.map_values(|k: i128| k as int), items@, keys@.map_values(|k: i128| k as int), res.2@),
{
    let ghost inp = items@;
    let ghost in_keys = keys@.map_values(|k: i128| k as int);
    assert(forall|i: int| 0 <= i < keys@.len() ==> #[trigger] keys@[i] as int == in_keys[i]);
    let mut out: Vec<T> = Vec::new();
    let mut out_keys: Vec<i128> = Vec::new();
    let ghost mut idx: Seq<int> = Seq::empty();
    let mut items = items;
    let mut rest_keys = keys;
    let n = items.len();
    // Take elements from the back so each removal is O(1), and insert them before every
    // element of equal key already placed: the final order keeps input order among equals.
    let mut k: usize = n;
    while k > 0
        invariant
            k <= n,
            n == inp.len(),
            items@ == inp.take(k as int),
            rest_keys@.len() == k,
            forall|i: int| 0 <= i < k ==> #[trigger] rest_keys@[i] as int == in_keys[i],
            in_keys.len() == n,
            out@.len() == n - k,
            out_keys@.len() == out@.len(),
            idx.len() == out@.len(),
            forall|i: int| 0 <= i < out@.len() ==> k <= #[trigger] idx[i] < n && out@[i] == inp[idx[i]],
            forall|i: int, j: int| 0 <= i < j < out@.len() ==> #[trigger] idx[i] != #[trigger] idx[j],
            forall|i: int| 0 <= i < out@.len() ==> #[trigger] out_keys@[i] as int == in_keys[idx[i]],
            forall|i: int, j: int| 0 <= i < j < out@.len() ==> #[trigger] out_keys@[i] >= #[trigger] out_keys@[j],
            forall|i: int, j: int|
                0 <= i < j < out@.len() && #[trigger] out_keys@[i] == #[trigger] out_keys@[j] ==> idx[i] < idx[j],
        decreases k,
    {
        let x = items.pop().unwrap();
        let kx = rest_keys.pop().unwrap();
        k = k - 1;
        proof {
            assert(inp.take(k + 1)[k as int] == inp[k as int]);
            assert(items@ =~= inp.take(k as int));
            assert(kx as int == in_keys[k as int]);
        }
        // Position: after every placed element with a strictly greater key.
        let mut p: usize = 0;
        while p < out_keys.len() && out_keys[p] > kx
            invariant
                p <= out_keys@.len(),
                forall|i: int| 0 <= i < p ==> #[trigger] out_keys@[i] > kx,
            decreases out_keys.len() - p,
        {
            p = p + 1;
        }
        let ghost old_out = out@;
        let ghost old_keys = out_keys@;
        let ghost old_idx = idx;
        out.insert(p, x);
        out_keys.insert(p, kx);
        proof {
            idx = old_idx.insert(p as int, k as int);
            assert forall|i: int, j: int| 0 <= i < j < out@.len() implies #[trigger] out_keys@[i]
                >= #[trigger] out_keys@[j] by {
                if i < p && j == p {
                } else if i == p && j > p {
                    assert(out_keys@[j] == old_keys[j - 1]);
                    if p < old_keys.len() {
                        assert(!(old_keys[p as int] > kx));
                        if j - 1 > p {
                            assert(old_keys[p as int] >= old_keys[j - 1]);
                        }
                    }
                } else if i < p && j > p {
                    assert(out_keys@[j] == old_keys[j - 1]);
                } else if i > p {
                    assert(out_keys@[i] == old_keys[i - 1]);
                    assert(out_keys@[j] == old_keys[j - 1]);
                }
            }
            assert forall|i: int, j: int|
                0 <= i < j < out@.len() && #[trigger] out_keys@[i] == #[trigger] out_keys@[j]
                    implies idx[i] < idx[j] by {
                if i < p && j == p {
                    assert(out_keys@[i] > kx);
                } else if i == p && j > p {
                    assert(idx[j] == old_idx[j - 1]);
                } else if i < p && j > p {
                    assert(out_keys@[j] == old_keys[j - 1]);
                    assert(idx[j] == old_idx[j - 1]);
                } else if i > p {
                    assert(idx[i] == old_idx[i - 1]);
                    assert(idx[j] == old_idx[j - 1]);
                }
            }
            assert forall|i: int| 0 <= i < out@.len() implies k <= #[trigger] idx[i] < n && out@[i]
                == inp[idx[i]] by {
                if i > p {
                    assert(idx[i] == old_idx[i - 1]);
                } else if i < p {
                    assert(idx[i] == old_idx[i]);
                }
            }
            assert forall|i: int| 0 <= i < out@.len() implies #[trigger] out_keys@[i] as int
                == in_keys[idx[i]] by {
                if i > p {
                    assert(idx[i] == old_idx[i - 1]);
                } else if i < p {
                    assert(idx[i] == old_idx[i]);
                }
            }
            assert forall|i: int, j: int| 0 <= i < j < out@.len() implies #[trigger] idx[i]
                != #[trigger] idx[j] by {
                if i > p {
                    assert(idx[i] == old_idx[i - 1]);
                } else if i < p {
                    assert(idx[i] == old_idx[i]);
                }
                if j > p {
                    assert(idx[j] == old_idx[j - 1]);
                } else if j < p {
                    assert(idx[j] == old_idx[j]);
                }
            }
        }
    }
    let ghost ok = out_keys@.map_values(|x: i128| x as int);
    proof {
        assert forall|i: int| 0 <= i < out@.len() implies #[trigger] ok[i] == in_keys[idx[i]] by {
            assert(ok[i] == out_keys@[i] as int);
        }
        assert forall|i: int, j: int| 0 <= i < j < out@.len() implies #[trigger] ok[i] >= #[trigger] ok[j] by {
            assert(ok[i] == out_keys@[i] as int);
            assert(ok[j] == out_keys@[j] as int);
        }
        assert forall|i: int, j: int|
            0 <= i < j < out@.len() && #[trigger] ok[i] == #[trigger] ok[j] implies idx[i] < idx[j] by {
            assert(ok[i] == out_keys@[i] as int);
            assert(ok[j] == out_keys@[j] as int);
        }
    }
    (out, out_keys, Ghost(idx))
}

} // verus!
