//! Password generation: placeholders, shuffling, symbol resolution, and the
//! entry point that validates its inputs.
use crate::rng::get_random_value;
use crate::rng::raw_draw;
use crate::rng::scaled;
use crate::rng::Prng;
use crate::symbols::category_len;
use crate::symbols::category_symbol;
use crate::symbols::flat_pool;
use crate::symbols::get_symbol_by_offset;
use crate::symbols::in_category;
use crate::symbols::lemma_category_in_flat;
use crate::symbols::lemma_flat_pool_len;
use crate::symbols::pool;
use crate::symbols::total_symbol_count;
use crate::symbols::NUM_CATEGORIES;
use vstd::prelude::*;
use vstd::seq_lib::to_multiset_update;

verus! {

/// Placeholder for a slot that takes a symbol from the whole pool.
pub const ANY_SYMBOL: u8 = 255;

/// The placeholder layout for a password of `len` symbols: slot `i` holds
/// category `i` while there are categories, the rest hold `ANY_SYMBOL`.
pub open spec fn placeholders(len: nat) -> Seq<u8> {
    Seq::new(len, |i: int| if i < NUM_CATEGORIES { i as u8 } else { ANY_SYMBOL })
}

/// `s` with the elements at `i` and `j` exchanged.
pub open spec fn swapped(s: Seq<u8>, i: int, j: int) -> Seq<u8> {
    s.update(i, s[j]).update(j, s[i])
}

/// The partner slot, in a shuffle over `len` slots, picked by draw number
/// `d`. A word close to `u32::MAX` scales to `len` itself; that draw
/// pairs with the last slot.
pub open spec fn partner(seed: u64, d: nat, len: nat) -> int {
    let j = scaled(raw_draw(seed, d), 0, len as usize);
    if j < len {
        j as int
    } else {
        len - 1
    }
}

/// The first `i` steps of the shuffle of `s`, with draws numbered from
/// `base` on: step `k` swaps slot `k` with its drawn partner.
pub open spec fn shuffle_steps(s: Seq<u8>, seed: u64, base: nat, i: nat) -> Seq<u8>
    decreases i,
{
    if i == 0 {
        s
    } else {
        swapped(
            shuffle_steps(s, seed, base, (i - 1) as nat),
            i - 1,
            partner(seed, (base + i - 1) as nat, s.len()),
        )
    }
}

/// Number of draws a shuffle of `len` slots takes.
pub open spec fn shuffle_draws(len: nat) -> nat {
    if len <= 1 {
        0
    } else {
        len
    }
}

/// The shuffle of `s`; fewer than two slots are left as they are.
pub open spec fn shuffled(s: Seq<u8>, seed: u64, base: nat) -> Seq<u8> {
    if s.len() <= 1 {
        s
    } else {
        shuffle_steps(s, seed, base, s.len())
    }
}

/// Whether `m` is a placeholder: a category or `ANY_SYMBOL`.
pub open spec fn is_placeholder(m: u8) -> bool {
    m == ANY_SYMBOL || m < NUM_CATEGORIES
}

/// The symbol for placeholder `m` given the raw draw `x`: a symbol of the
/// whole pool for `ANY_SYMBOL`, one of category `m` otherwise. A word close to
/// `u32::MAX` scales to the bound itself: for the whole pool that index
/// walks past every category and lands on the first symbol; within a
/// category it is taken as the last symbol. Any other byte stays.
pub open spec fn resolve_slot(m: u8, x: u32) -> u8 {
    if m == ANY_SYMBOL {
        let idx = scaled(x, 0, flat_pool().len() as usize);
        if idx < flat_pool().len() {
            flat_pool()[idx as int]
        } else {
            flat_pool()[0]
        }
    } else if m < NUM_CATEGORIES {
        let cat = pool()[m as int];
        let idx = scaled(x, 0, cat.len() as usize);
        if idx < cat.len() {
            cat[idx as int]
        } else {
            cat[cat.len() - 1]
        }
    } else {
        m
    }
}

/// The symbols of all slots of `t`, slot `p` resolved with draw `base + p`.
pub open spec fn resolved(t: Seq<u8>, seed: u64, base: nat) -> Seq<u8> {
    Seq::new(t.len(), |p: int| resolve_slot(t[p], raw_draw(seed, base + p as nat)))
}

/// The password of `len` symbols for `seed`: placeholders, shuffled, then
/// resolved, all from one generator.
pub open spec fn password(seed: u64, len: nat) -> Seq<u8> {
    resolved(shuffled(placeholders(len), seed, 0), seed, shuffle_draws(len))
}

/// Writes the placeholder layout for `length` slots into `buffer`.
fn fill_placeholders(buffer: &mut [u8], length: usize)
    requires
        old(buffer)@.len() == length,
    ensures
        final(buffer)@ == placeholders(length as nat),
{
    let categories = if length < NUM_CATEGORIES {
        length
    } else {
        NUM_CATEGORIES
    };
    let mut i: usize = 0;
    while i < categories
        invariant
            categories <= length,
            categories <= NUM_CATEGORIES,
            i <= categories,
            buffer@.len() == length,
            forall|k: int| 0 <= k < i ==> buffer@[k] == placeholders(length as nat)[k],
        decreases categories - i,
    {
        buffer[i] = i as u8;
        i = i + 1;
    }
    while i < length
        invariant
            categories <= i <= length,
            categories == length || categories == NUM_CATEGORIES,
            buffer@.len() == length,
            forall|k: int| 0 <= k < i ==> buffer@[k] == placeholders(length as nat)[k],
        decreases length - i,
    {
        buffer[i] = ANY_SYMBOL;
        i = i + 1;
    }
    assert(buffer@ =~= placeholders(length as nat));
}

/// Shuffles the first `length` slots of `buffer` in place: each slot in turn
/// is swapped with a partner drawn from the whole range.
pub fn shuffle(length: usize, buffer: &mut [u8], rng: &mut Prng)
    requires
        length <= old(buffer)@.len(),
    ensures
        final(rng).seed() == old(rng).seed(),
        final(rng).drawn() == old(rng).drawn() + shuffle_draws(length as nat),
        final(buffer)@ == shuffled(old(buffer)@.subrange(0, length as int), old(rng).seed(), old(rng).drawn())
            + old(buffer)@.subrange(length as int, old(buffer)@.len() as int),
{
    let ghost s = buffer@.subrange(0, length as int);
    let ghost rest = buffer@.subrange(length as int, buffer@.len() as int);
    let ghost seed = rng.seed();
    let ghost base = rng.drawn();
    if length <= 1 {
        assert(buffer@ =~= s + rest);
        return;
    }
    let mut i: usize = 0;
    while i < length
        invariant
            1 < length <= buffer@.len(),
            i <= length,
            s.len() == length,
            rng.seed() == seed,
            rng.drawn() == base + i,
            shuffle_steps(s, seed, base, i as nat) == buffer@.subrange(0, length as int),
            buffer@.subrange(length as int, buffer@.len() as int) == rest,
        decreases length - i,
    {
        let ghost t = buffer@.subrange(0, length as int);
        let drawn = get_random_value(rng, 0, length);
        let j = if drawn < length {
            drawn
        } else {
            length - 1
        };
        let symbol = buffer[j];
        buffer[j] = buffer[i];
        buffer[i] = symbol;
        assert(buffer@.subrange(0, length as int) =~= swapped(t, i as int, j as int));
        assert(buffer@.subrange(length as int, buffer@.len() as int) =~= rest);
        i = i + 1;
    }
    assert(buffer@ =~= buffer@.subrange(0, length as int) + rest);
}

/// Replaces each placeholder of `buffer`, left to right, by a symbol drawn
/// for it.
fn resolve_symbols(buffer: &mut [u8], rng: &mut Prng, total: usize)
    requires
        total == flat_pool().len(),
        forall|q: int| 0 <= q < old(buffer)@.len() ==> is_placeholder(#[trigger] old(buffer)@[q]),
    ensures
        final(rng).seed() == old(rng).seed(),
        final(buffer)@ == resolved(old(buffer)@, old(rng).seed(), old(rng).drawn()),
{
    let ghost t = buffer@;
    let ghost seed = rng.seed();
    let ghost base = rng.drawn();
    let mut p: usize = 0;
    while p < buffer.len()
        invariant
            p <= buffer@.len(),
            buffer@.len() == t.len(),
            total == flat_pool().len(),
            t == old(buffer)@,
            forall|q: int| 0 <= q < t.len() ==> is_placeholder(#[trigger] t[q]),
            rng.seed() == seed,
            rng.drawn() == base + p,
            forall|q: int| 0 <= q < p ==> buffer@[q] == resolve_slot(t[q], raw_draw(seed, base + q as nat)),
            forall|q: int| p <= q < t.len() ==> buffer@[q] == t[q],
        decreases t.len() - p,
    {
        let m = buffer[p];
        if m == ANY_SYMBOL {
            let idx = get_random_value(rng, 0, total);
            let flat_index = if idx < total {
                idx
            } else {
                0
            };
            buffer[p] = get_symbol_by_offset(flat_index);
        } else {
            assert(is_placeholder(t[p as int]));
            let len = category_len(m as usize);
            let idx = get_random_value(rng, 0, len);
            let index = if idx < len {
                idx
            } else {
                len - 1
            };
            buffer[p] = category_symbol(m as usize, index);
        }
        let ghost q: int = p as int;
        assert(buffer@[q] == resolve_slot(t[q], raw_draw(seed, base + q as nat)));
        p = p + 1;
    }
    assert(buffer@ =~= resolved(t, seed, base));
}

/// Generates the password for `random_state` into `buffer`.
pub fn generate(buffer: &mut [u8], length: usize, random_state: u64)
    requires
        old(buffer)@.len() == length,
    ensures
        final(buffer)@ == password(random_state, length as nat),
{
    let mut rng = Prng::new(random_state);
    let total = total_symbol_count();
    fill_placeholders(buffer, length);
    assert(buffer@.subrange(0, length as int) =~= placeholders(length as nat));
    shuffle(length, buffer, &mut rng);
    assert(buffer@ =~= shuffled(placeholders(length as nat), random_state, 0));
    proof {
        lemma_shuffled_placeholders(random_state, length as nat);
        assert forall|q: int| 0 <= q < buffer@.len() implies is_placeholder(#[trigger] buffer@[q]) by {
            assert(buffer@[q] == shuffled(placeholders(length as nat), random_state, 0)[q]);
        }
    }
    resolve_symbols(buffer, &mut rng, total);
}

/// What the entry point reports: a success flag and a diagnostic message,
/// empty on success.
pub struct GenerationResult {
    pub success: bool,
    pub error_string: &'static str,
}

/// Diagnostic for a request of zero symbols.
pub open spec fn zero_length_message() -> Seq<char> {
    "len(password) == 0."@
}

/// Diagnostic for a missing buffer.
pub open spec fn null_buffer_message() -> Seq<char> {
    "Buffer is nullptr."@
}

/// Generates a password of `length` symbols for `random_state` into
/// `buffer`, which must hold exactly `length` bytes when it is present.
/// Fails, touching nothing, for a zero length (checked first) and for a
/// missing buffer; succeeds otherwise.
pub fn generate_password(buffer: Option<&mut [u8]>, length: usize, random_state: u64) -> (r: GenerationResult)
    requires
        buffer is Some && length > 0 ==> old(buffer->0)@.len() == length,
    ensures
        r.success <==> (length > 0 && buffer is Some),
        length == 0 ==> r.error_string@ == zero_length_message(),
        length == 0 && buffer is Some ==> final(buffer->0)@ == old(buffer->0)@,
        length > 0 && buffer is None ==> r.error_string@ == null_buffer_message(),
        length > 0 && buffer is Some ==> r.error_string@ == Seq::<char>::empty()
            && final(buffer->0)@ == password(random_state, length as nat),
{
    if length == 0 {
        return GenerationResult { success: false, error_string: "len(password) == 0." };
    }
    match buffer {
        None => GenerationResult { success: false, error_string: "Buffer is nullptr." },
        Some(b) => {
            generate(b, length, random_state);
            proof {
                reveal_strlit("");
            }
            GenerationResult { success: true, error_string: "" }
        },
    }
}

proof fn lemma_swap_keeps_multiset(t: Seq<u8>, i: int, j: int)
    requires
        0 <= i < t.len(),
        0 <= j < t.len(),
    ensures
        swapped(t, i, j).to_multiset() == t.to_multiset(),
{
    let u = t.update(i, t[j]);
    to_multiset_update(t, i, t[j]);
    to_multiset_update(u, j, t[i]);
    assert(t.to_multiset().count(t[i]) > 0) by {
        t.to_multiset_ensures();
    }
    assert(u.to_multiset().insert(t[i]).remove(u[j]) =~= t.to_multiset());
}

/// Each step of the shuffle rearranges the slots and changes none.
pub proof fn lemma_shuffle_permutes(s: Seq<u8>, seed: u64, base: nat, i: nat)
    requires
        1 <= s.len(),
        i <= s.len(),
    ensures
        shuffle_steps(s, seed, base, i).to_multiset() == s.to_multiset(),
        shuffle_steps(s, seed, base, i).len() == s.len(),
    decreases i,
{
    if i > 0 {
        lemma_shuffle_permutes(s, seed, base, (i - 1) as nat);
        let t = shuffle_steps(s, seed, base, (i - 1) as nat);
        lemma_swap_keeps_multiset(t, i - 1, partner(seed, (base + i - 1) as nat, s.len()));
    }
}

/// The shuffle keeps every value of its input, and keeps no other.
proof fn lemma_shuffled_values(s: Seq<u8>, seed: u64, base: nat)
    ensures
        shuffled(s, seed, base).len() == s.len(),
        forall|v: u8| #[trigger] shuffled(s, seed, base).contains(v) <==> s.contains(v),
{
    if s.len() > 1 {
        lemma_shuffle_permutes(s, seed, base, s.len());
        let t = shuffled(s, seed, base);
        assert forall|v: u8| #[trigger] t.contains(v) <==> s.contains(v) by {
            t.to_multiset_ensures();
            s.to_multiset_ensures();
            assert(t.to_multiset().count(v) == s.to_multiset().count(v));
        }
    }
}

proof fn lemma_shuffled_placeholders(seed: u64, length: nat)
    ensures
        shuffled(placeholders(length), seed, 0).len() == length,
        forall|q: int|
            0 <= q < length ==> is_placeholder(#[trigger] shuffled(placeholders(length), seed, 0)[q]),
{
    let s = placeholders(length);
    let t = shuffled(s, seed, 0);
    lemma_shuffled_values(s, seed, 0);
    assert forall|q: int| 0 <= q < length implies is_placeholder(#[trigger] t[q]) by {
        assert(t.contains(t[q]));
        let i = choose|i: int| 0 <= i < s.len() && s[i] == t[q];
    }
}

/// A password at least as long as the number of categories holds a symbol
/// of every category.
pub proof fn lemma_every_category_covered(seed: u64, length: nat, k: int)
    requires
        length >= NUM_CATEGORIES,
        0 <= k < NUM_CATEGORIES,
    ensures
        exists|p: int| 0 <= p < length && in_category(#[trigger] password(seed, length)[p], k),
{
    let s = placeholders(length);
    assert(s[k] == k as u8);
    assert(s.contains(k as u8));
    let t = shuffled(s, seed, 0);
    lemma_shuffled_values(s, seed, 0);
    assert(t.contains(k as u8));
    let p = choose|p: int| 0 <= p < t.len() && t[p] == k as u8;
    let out = password(seed, length);
    let x = raw_draw(seed, shuffle_draws(length) + p as nat);
    assert(out[p] == resolve_slot(t[p], x));
    assert(pool()[k].contains(out[p]));
    assert(in_category(out[p], k));
}

/// Every byte of a password is a symbol of the pool: no placeholder is left.
pub proof fn lemma_output_in_pool(seed: u64, length: nat, p: int)
    requires
        0 <= p < length,
    ensures
        flat_pool().contains(password(seed, length)[p]),
{
    let t = shuffled(placeholders(length), seed, 0);
    lemma_shuffled_placeholders(seed, length);
    assert(is_placeholder(t[p]));
    let out = password(seed, length);
    let x = raw_draw(seed, shuffle_draws(length) + p as nat);
    assert(out[p] == resolve_slot(t[p], x));
    if t[p] == ANY_SYMBOL {
        lemma_flat_pool_len();
        let idx = scaled(x, 0, flat_pool().len() as usize);
        if idx < flat_pool().len() {
            assert(flat_pool().contains(flat_pool()[idx as int]));
        } else {
            assert(flat_pool().contains(flat_pool()[0]));
        }
    } else {
        let k = t[p] as int;
        let cat = pool()[k];
        let idx = scaled(raw_draw(seed, shuffle_draws(length) + p as nat), 0, cat.len() as usize);
        let j: int = if idx < cat.len() { idx as int } else { cat.len() - 1 };
        assert(out[p] == cat[j]);
        lemma_category_in_flat(k, j);
    }
}

/// The password depends on the seed and the length alone: two generations
/// with the same seed and length write the same bytes, whatever the buffers
/// held before.
pub proof fn lemma_generation_deterministic(seed: u64, length: nat, first: Seq<u8>, second: Seq<u8>)
    requires
        first == password(seed, length),
        second == password(seed, length),
    ensures
        first == second,
{
}

} // verus!
