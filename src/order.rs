use vstd::prelude::*;
use crate::text::{lemma_text_le_total, text_le, text_le_exec};

verus! {

/// The index `j` stands somewhere in `p`.
pub open spec fn occurs(p: Seq<usize>, j: int) -> bool {
    exists|k: int| 0 <= k < p.len() && p[k] == j
}

/// `p` lists each of the indices `0..n` exactly once.
pub open spec fn is_permutation(p: Seq<usize>, n: nat) -> bool {
    &&& p.len() == n
    &&& forall|k: int| 0 <= k < p.len() ==> p[k] < n
    &&& forall|k: int, m: int| 0 <= k < m < p.len() ==> p[k] != p[m]
    &&& forall|j: int| 0 <= j < n ==> #[trigger] occurs(p, j)
}

/// Visiting `keys` in the order `p` meets them in ascending order.
pub open spec fn sorted_by(keys: Seq<String>, p: Seq<usize>) -> bool {
    forall|k: int|
        0 <= k < p.len() - 1 ==> #[trigger] text_le(keys[p[k] as int]@, keys[p[k + 1] as int]@)
}

/// The order in which to visit `keys` so that they come in ascending order.
pub fn sorted_order(keys: &Vec<String>) -> (p: Vec<usize>)
    ensures
        is_permutation(p@, keys@.len()),
        sorted_by(keys@, p@),
{
    let n = keys.len();
    let mut p: Vec<usize> = Vec::new();
    let mut i: usize = 0;
    while i < n
        invariant
            n == keys@.len(),
            i <= n,
            is_permutation(p@, i as nat),
            sorted_by(keys@, p@),
        decreases n - i,
    {
        let mut pos: usize = p.len();
        let mut found = false;
        while pos > 0 && !found
            invariant
                n == keys@.len(),
                i < n,
                p@.len() == i,
                pos <= p@.len(),
                forall|k: int| 0 <= k < p@.len() ==> p@[k] < i,
                forall|m: int|
                    pos <= m < p@.len() ==> !text_le(keys@[p@[m] as int]@, keys@[i as int]@),
                found ==> pos > 0 && text_le(keys@[p@[pos - 1] as int]@, keys@[i as int]@),
            decreases pos + (if found { 0int } else { 1int }),
        {
            if text_le_exec(keys[p[pos - 1]].as_str(), keys[i].as_str()) {
                found = true;
            } else {
                pos = pos - 1;
            }
        }
        let ghost old_p = p@;
        p.insert(pos, i);
        proof {
            assert(p@ =~= old_p.insert(pos as int, i));
            assert forall|k: int| 0 <= k < p@.len() - 1 implies #[trigger] text_le(
                keys@[p@[k] as int]@,
                keys@[p@[k + 1] as int]@,
            ) by {
                if k + 1 < pos {
                    assert(p@[k] == old_p[k] && p@[k + 1] == old_p[k + 1]);
                    assert(text_le(keys@[old_p[k] as int]@, keys@[old_p[k + 1] as int]@));
                } else if k + 1 == pos {
                    assert(p@[k] == old_p[k] && p@[k + 1] == i);
                } else if k == pos {
                    assert(p@[k] == i && p@[k + 1] == old_p[k]);
                    lemma_text_le_total(keys@[old_p[k] as int]@, keys@[i as int]@);
                } else {
                    assert(p@[k] == old_p[k - 1] && p@[k + 1] == old_p[k]);
                    assert(text_le(keys@[old_p[k - 1] as int]@, keys@[old_p[(k - 1) + 1] as int]@));
                }
            }
            assert forall|j: int| 0 <= j < i + 1 implies #[trigger] occurs(p@, j) by {
                if j == i {
                    assert(p@[pos as int] == j);
                } else {
                    assert(occurs(old_p, j));
                    let k0 = choose|k: int| 0 <= k < old_p.len() && old_p[k] == j;
                    if k0 < pos {
                        assert(p@[k0] == j);
                    } else {
                        assert(p@[k0 + 1] == j);
                    }
                }
            }
        }
        i = i + 1;
    }
    p
}

} // verus!
