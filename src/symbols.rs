//! The symbol pool: an ordered table of symbol categories.
use vstd::prelude::*;

verus! {

/// Number of categories in the pool.
pub const NUM_CATEGORIES: usize = 4;

/// Digits without the easily confused `0` and `1`.
pub open spec fn digits() -> Seq<u8> {
    seq![50u8, 51, 52, 53, 54, 55, 56, 57]
}

/// Lower-case letters without `i`, `l` and `o`.
pub open spec fn lower_letters() -> Seq<u8> {
    seq![
        97u8, 98, 99, 100, 101, 102, 103, 104, 106, 107, 109, 110,
        112, 113, 114, 115, 116, 117, 118, 119, 120, 121, 122,
    ]
}

/// Upper-case letters without `I` and `O`.
pub open spec fn upper_letters() -> Seq<u8> {
    seq![
        65u8, 66, 67, 68, 69, 70, 71, 72, 74, 75, 76, 77,
        78, 80, 81, 82, 83, 84, 85, 86, 87, 88, 89, 90,
    ]
}

/// Punctuation without quotes, `,`, `.`, `;`, `\\`, `` ` `` and `|`.
pub open spec fn punctuation() -> Seq<u8> {
    seq![
        33u8, 35, 36, 37, 38, 40, 41, 42, 43, 45, 47, 58,
        60, 61, 62, 63, 64, 91, 93, 94, 95, 123, 125, 126,
    ]
}

/// The pool: every category in order.
pub open spec fn pool() -> Seq<Seq<u8>> {
    seq![digits(), lower_letters(), upper_letters(), punctuation()]
}

/// Concatenation of the categories from `k` on.
pub open spec fn flat_from(k: nat) -> Seq<u8>
    decreases NUM_CATEGORIES - k,
{
    if k >= NUM_CATEGORIES {
        Seq::empty()
    } else {
        pool()[k as int] + flat_from(k + 1)
    }
}

/// All symbols of the pool, category after category.
pub open spec fn flat_pool() -> Seq<u8> {
    flat_from(0)
}

/// Whether `b` belongs to category `k`.
pub open spec fn in_category(b: u8, k: int) -> bool {
    0 <= k < NUM_CATEGORIES && pool()[k].contains(b)
}

/// Number of symbols of category `k`.
pub fn category_len(k: usize) -> (r: usize)
    requires
        k < NUM_CATEGORIES,
    ensures
        r == pool()[k as int].len(),
        r > 0,
{
    if k == 0 {
        8
    } else if k == 1 {
        23
    } else if k == 2 {
        24
    } else {
        24
    }
}

/// Symbol `i` of category `k`.
pub fn category_symbol(k: usize, i: usize) -> (r: u8)
    requires
        k < NUM_CATEGORIES,
        i < pool()[k as int].len(),
    ensures
        r == pool()[k as int][i as int],
{
    if k == 0 {
        let t: [u8; 8] = [50, 51, 52, 53, 54, 55, 56, 57];
        assert(t@ =~= digits());
        t[i]
    } else if k == 1 {
        let t: [u8; 23] = [
            97, 98, 99, 100, 101, 102, 103, 104, 106, 107, 109, 110,
            112, 113, 114, 115, 116, 117, 118, 119, 120, 121, 122,
        ];
        assert(t@ =~= lower_letters());
        t[i]
    } else if k == 2 {
        let t: [u8; 24] = [
            65, 66, 67, 68, 69, 70, 71, 72, 74, 75, 76, 77,
            78, 80, 81, 82, 83, 84, 85, 86, 87, 88, 89, 90,
        ];
        assert(t@ =~= upper_letters());
        t[i]
    } else {
        let t: [u8; 24] = [
            33, 35, 36, 37, 38, 40, 41, 42, 43, 45, 47, 58,
            60, 61, 62, 63, 64, 91, 93, 94, 95, 123, 125, 126,
        ];
        assert(t@ =~= punctuation());
        t[i]
    }
}


proof fn lemma_flat_from_len(k: nat)
    ensures
        k < NUM_CATEGORIES ==> flat_from(k).len() == pool()[k as int].len() + flat_from(k + 1).len(),
        k >= NUM_CATEGORIES ==> flat_from(k).len() == 0,
{
}

proof fn lemma_category_in_flat_from(k0: nat, k: int, j: int)
    requires
        k0 <= k < NUM_CATEGORIES,
        0 <= j < pool()[k].len(),
    ensures
        flat_from(k0).contains(pool()[k][j]),
    decreases k - k0,
{
    let a = pool()[k0 as int];
    if k0 == k {
        assert((a + flat_from(k0 + 1))[j] == a[j]);
    } else {
        lemma_category_in_flat_from(k0 + 1, k, j);
        let b = flat_from(k0 + 1);
        let i = choose|i: int| 0 <= i < b.len() && b[i] == pool()[k][j];
        assert((a + b)[a.len() + i] == b[i]);
    }
}

/// Every symbol of every category is a symbol of the whole pool.
pub proof fn lemma_category_in_flat(k: int, j: int)
    requires
        0 <= k < NUM_CATEGORIES,
        0 <= j < pool()[k].len(),
    ensures
        flat_pool().contains(pool()[k][j]),
{
    lemma_category_in_flat_from(0, k, j);
}

/// The pool holds 79 symbols.
pub proof fn lemma_flat_pool_len()
    ensures
        flat_pool().len() == 79,
{
    reveal_with_fuel(flat_from, 5);
}

/// Number of symbols in the whole pool.
pub fn total_symbol_count() -> (r: usize)
    ensures
        r == flat_pool().len(),
{
    let mut total: usize = 0;
    let mut k: usize = 0;
    while k < NUM_CATEGORIES
        invariant
            k <= NUM_CATEGORIES,
            total + flat_from(k as nat).len() == flat_pool().len(),
            total <= 24 * k,
        decreases NUM_CATEGORIES - k,
    {
        proof {
            lemma_flat_from_len(k as nat);
        }
        total = total + category_len(k);
        k = k + 1;
    }
    proof {
        lemma_flat_from_len(k as nat);
    }
    total
}

/// The symbol at flat index `random_index` of the pool.
pub fn get_symbol_by_offset(random_index: usize) -> (r: u8)
    requires
        random_index < flat_pool().len(),
    ensures
        r == flat_pool()[random_index as int],
{
    let mut index = random_index;
    let mut k: usize = 0;
    while k < NUM_CATEGORIES
        invariant
            k <= NUM_CATEGORIES,
            index < flat_from(k as nat).len(),
            flat_from(k as nat)[index as int] == flat_pool()[random_index as int],
        decreases NUM_CATEGORIES - k,
    {
        proof {
            lemma_flat_from_len(k as nat);
        }
        let len = category_len(k);
        if index < len {
            return category_symbol(k, index);
        }
        index = index - len;
        k = k + 1;
    }
    proof {
        lemma_flat_from_len(k as nat);
    }
    // Not reached: the invariant keeps `index` inside the remaining categories.
    category_symbol(0, 0)
}

} // verus!
