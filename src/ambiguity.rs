//! Ambiguity codes: each base letter stands for a set of bases (A, C, G, T
//! as the four bits of a mask), and merging two letters gives the code of the
//! union of their sets.

use vstd::prelude::*;

verus! {

/// The set of bases a letter stands for, as a mask (A = 1, C = 2, G = 4,
/// T = 8); 0 for a letter that is no base code, such as a gap.
pub open spec fn mask_of(b: u8) -> u8 {
    if b == 65 || b == 97 { // A
        1
    } else if b == 67 || b == 99 { // C
        2
    } else if b == 71 || b == 103 { // G
        4
    } else if b == 84 || b == 116 || b == 85 || b == 117 { // T U
        8
    } else if b == 77 || b == 109 { // M
        3
    } else if b == 82 || b == 114 { // R
        5
    } else if b == 83 || b == 115 { // S
        6
    } else if b == 86 || b == 118 { // V
        7
    } else if b == 87 || b == 119 { // W
        9
    } else if b == 89 || b == 121 { // Y
        10
    } else if b == 72 || b == 104 { // H
        11
    } else if b == 75 || b == 107 { // K
        12
    } else if b == 68 || b == 100 { // D
        13
    } else if b == 66 || b == 98 { // B
        14
    } else if b == 78 || b == 110 { // N
        15
    } else {
        0
    }
}

/// The upper-case letter of a mask; `-` for the empty mask.
pub open spec fn code_of(m: u8) -> u8 {
    if m == 1 {
        65 // A
    } else if m == 2 {
        67 // C
    } else if m == 3 {
        77 // M
    } else if m == 4 {
        71 // G
    } else if m == 5 {
        82 // R
    } else if m == 6 {
        83 // S
    } else if m == 7 {
        86 // V
    } else if m == 8 {
        84 // T
    } else if m == 9 {
        87 // W
    } else if m == 10 {
        89 // Y
    } else if m == 11 {
        72 // H
    } else if m == 12 {
        75 // K
    } else if m == 13 {
        68 // D
    } else if m == 14 {
        66 // B
    } else if m == 15 {
        78 // N
    } else {
        45 // -
    }
}

/// The letter stands for more than one base.
pub open spec fn is_ambiguous(b: u8) -> bool {
    let m = mask_of(b);
    m != 0 && m != 1 && m != 2 && m != 4 && m != 8
}

/// Number of ambiguous letters in `s`.
pub open spec fn ambiguities(s: Seq<u8>) -> nat
    decreases s.len(),
{
    if s.len() == 0 {
        0
    } else {
        ambiguities(s.drop_last()) + if is_ambiguous(s.last()) {
            1nat
        } else {
            0nat
        }
    }
}

/// One letter of a variant and one of a sequence merge: equal letters stay,
/// two base codes become the code of their union, anything else does not merge.
pub open spec fn merge_letter(v: u8, s: u8) -> Option<u8> {
    if v == s {
        Some(v)
    } else if mask_of(v) != 0 && mask_of(s) != 0 {
        Some(code_of(mask_of(v) | mask_of(s)))
    } else {
        None
    }
}

/// The variant `v` widened to cover `s`, letter by letter, when they have
/// the same length and every pair of letters merges.
pub open spec fn merged(v: Seq<u8>, s: Seq<u8>) -> Option<Seq<u8>> {
    if v.len() == s.len() && forall|k: int| 0 <= k < v.len() ==> (#[trigger] merge_letter(v[k], s[k])).is_some() {
        Some(Seq::new(v.len(), |k: int| merge_letter(v[k], s[k]).unwrap()))
    } else {
        None
    }
}

/// Some letter of `m` stands for any base where the same letter of `v` did not.
pub open spec fn widens_to_any(v: Seq<u8>, m: Seq<u8>) -> bool {
    exists|k: int| 0 <= k < v.len() && k < m.len() && mask_of(#[trigger] m[k]) == 15 && mask_of(v[k]) != 15
}

/// `v` merged with `s`, when the merge exists, holds at most `limit`
/// ambiguous letters (when there is a limit) and, under `exclude_n`, widens
/// no letter to the code for any base.
pub open spec fn compatible(v: Seq<u8>, s: Seq<u8>, limit: Option<u32>, exclude_n: bool) -> Option<Seq<u8>> {
    match merged(v, s) {
        None => None,
        Some(m) => {
            if (limit is Some && ambiguities(m) > limit->0) || (exclude_n && widens_to_any(v, m)) {
                None
            } else {
                Some(m)
            }
        },
    }
}

/// The set of bases that the letter `b` stands for.
pub fn base_mask(b: u8) -> (r: u8)
    ensures
        r == mask_of(b),
{
    match b {
        65 | 97 => 1, // A
        67 | 99 => 2, // C
        71 | 103 => 4, // G
        84 | 116 | 85 | 117 => 8, // T U
        77 | 109 => 3, // M
        82 | 114 => 5, // R
        83 | 115 => 6, // S
        86 | 118 => 7, // V
        87 | 119 => 9, // W
        89 | 121 => 10, // Y
        72 | 104 => 11, // H
        75 | 107 => 12, // K
        68 | 100 => 13, // D
        66 | 98 => 14, // B
        78 | 110 => 15, // N
        _ => 0,
    }
}

/// The letter of a set of bases.
pub fn mask_code(m: u8) -> (r: u8)
    ensures
        r == code_of(m),
{
    match m {
        1 => 65, // A
        2 => 67, // C
        3 => 77, // M
        4 => 71, // G
        5 => 82, // R
        6 => 83, // S
        7 => 86, // V
        8 => 84, // T
        9 => 87, // W
        10 => 89, // Y
        11 => 72, // H
        12 => 75, // K
        13 => 68, // D
        14 => 66, // B
        15 => 78, // N
        _ => 45, // -
    }
}

proof fn lemma_ambiguities_push(s: Seq<u8>, b: u8)
    ensures
        ambiguities(s.push(b)) == ambiguities(s) + if is_ambiguous(b) {
            1nat
        } else {
            0nat
        },
{
    assert(s.push(b).drop_last() =~= s);
}

/// `v` widened to cover `s` under the ambiguity limit and the `exclude_n`
/// rule, or `None` when they do not merge.
pub fn try_merge(v: &Vec<u8>, s: &Vec<u8>, limit: Option<u32>, exclude_n: bool) -> (r: Option<Vec<u8>>)
    ensures
        match r {
            Some(m) => compatible(v@, s@, limit, exclude_n) == Some(m@),
            None => compatible(v@, s@, limit, exclude_n) is None,
        },
{
    if v.len() != s.len() {
        return None;
    }
    let mut m: Vec<u8> = Vec::new();
    let mut amb: u64 = 0;
    let mut widened = false;
    let mut k: usize = 0;
    while k < v.len()
        invariant
            v@.len() == s@.len(),
            k <= v@.len(),
            m@.len() == k,
            forall|t: int| 0 <= t < k ==> (#[trigger] merge_letter(v@[t], s@[t])).is_some(),
            forall|t: int| 0 <= t < k ==> m@[t] == merge_letter(v@[t], s@[t]).unwrap(),
            amb == ambiguities(m@),
            amb <= k,
            widened == exists|t: int| 0 <= t < k && mask_of(#[trigger] m@[t]) == 15 && mask_of(v@[t]) != 15,
        decreases v@.len() - k,
    {
        let a = v[k];
        let b = s[k];
        let c: u8;
        if a == b {
            c = a;
        } else {
            let ma = base_mask(a);
            let mb = base_mask(b);
            if ma == 0 || mb == 0 {
                proof {
                    assert(merge_letter(v@[k as int], s@[k as int]) is None);
                }
                return None;
            }
            c = mask_code(ma | mb);
        }
        let mc = base_mask(c);
        let ghost old_m = m@;
        m.push(c);
        proof {
            lemma_ambiguities_push(old_m, c);
            assert(m@.drop_last() == old_m);
        }
        if mc != 0 && mc != 1 && mc != 2 && mc != 4 && mc != 8 {
            amb = amb + 1;
        }
        if mc == 15 && base_mask(a) != 15 {
            widened = true;
        }
        proof {
            assert(m@[k as int] == c);
            if !widened {
                assert forall|t: int| 0 <= t < k + 1 implies !(mask_of(#[trigger] m@[t]) == 15 && mask_of(v@[t]) != 15) by {
                    if t < k {
                        assert(m@[t] == old_m[t]);
                    }
                }
            } else if !(mc == 15 && mask_of(a) != 15) {
                let t0 = choose|t: int| 0 <= t < k && mask_of(#[trigger] old_m[t]) == 15 && mask_of(v@[t]) != 15;
                assert(m@[t0] == old_m[t0]);
            }
        }
        k = k + 1;
    }
    let ghost mm = Seq::new(v@.len(), |t: int| merge_letter(v@[t], s@[t]).unwrap());
    proof {
        assert(m@ =~= mm);
        assert(merged(v@, s@) == Some(mm));
    }
    let over = match limit {
        Some(l) => amb > l as u64,
        None => false,
    };
    if over || (exclude_n && widened) {
        None
    } else {
        Some(m)
    }
}

} // verus!
