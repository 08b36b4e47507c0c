use vstd::prelude::*;

verus! {

/// Relies on `rand::random`: a value drawn from the thread-local generator, of
/// which nothing is promised.
pub assume_specification<T>[ rand::random::<T> ]() -> (r: T)
    where
        rand::distributions::Standard: rand::distributions::Distribution<T>,
;

/// Relies on rand's `Uniform::new(0, n)`, sampled from the thread-local
/// generator: a value in `0 .. n` (`Uniform::new` panics unless `0 < n`).
#[verifier::external_body]
pub(crate) fn uniform_below(n: usize) -> (r: usize)
    requires
        n > 0,
    ensures
        r < n,
{
    rand::distributions::Distribution::sample(
        &rand::distributions::Uniform::new(0, n),
        &mut rand::thread_rng(),
    )
}

/// Whether bit `j` (counting from the least significant) of `w` is set.
pub open spec fn bit(w: u64, j: int) -> bool {
    (w >> (j as u64)) & 1 == 1
}

/// The coin of step `k` of a stream driven by `words`: bit `k % 64` of word `k / 64`.
pub open spec fn coin(words: Seq<u64>, k: int) -> bool {
    bit(words[k / 64], k % 64)
}

/// `n` random 64-bit words, each drawn from the thread-local generator.
pub fn random_words(n: usize) -> (r: Vec<u64>)
    ensures
        r@.len() == n,
{
    let mut out: Vec<u64> = Vec::new();
    let mut i: usize = 0;
    while i < n
        invariant
            0 <= i <= n,
            out@.len() == i,
        decreases n - i,
    {
        let w: u64 = rand::random::<u64>();
        out.push(w);
        i = i + 1;
    }
    out
}

/// Spreads random words into coins, 64 per word, least significant bit first:
/// a set bit is a coin that comes up `true`.
pub fn coin_bits(words: &Vec<u64>) -> (r: Vec<bool>)
    requires
        words@.len() * 64 <= usize::MAX,
    ensures
        r@.len() == words@.len() * 64,
        forall|k: int| 0 <= k < r@.len() ==> #[trigger] r@[k] == coin(words@, k),
{
    let mut out: Vec<bool> = Vec::new();
    let mut i: usize = 0;
    while i < words.len()
        invariant
            words@.len() * 64 <= usize::MAX,
            0 <= i <= words@.len(),
            out@.len() == i * 64,
            forall|k: int| 0 <= k < out@.len() ==> #[trigger] out@[k] == coin(words@, k),
        decreases words@.len() - i,
    {
        let w = words[i];
        let mut j: u64 = 0;
        while j < 64
            invariant
                0 <= i < words@.len(),
                w == words@[i as int],
                0 <= j <= 64,
                out@.len() == i * 64 + j,
                forall|k: int| 0 <= k < out@.len() ==> #[trigger] out@[k] == coin(words@, k),
            decreases 64 - j,
        {
            let b: bool = (w >> j) & 1 == 1;
            let ghost k = i * 64 + j;
            out.push(b);
            proof {
                assert(k / 64 == i as int && k % 64 == j as int) by {
                    vstd::arithmetic::div_mod::lemma_fundamental_div_mod_converse(k, 64, i as int, j as int);
                }
                assert(out@[k] == coin(words@, k));
            }
            j = j + 1;
        }
        i = i + 1;
    }
    out
}

/// `count` random coins for one stream: the leading bits of fresh random words.
pub fn random_coins(count: usize) -> (r: Vec<bool>)
    requires
        count <= usize::MAX - 64,
    ensures
        r@.len() == count,
{
    let n: usize = count / 64 + if count % 64 == 0 { 0 } else { 1 };
    let words = random_words(n);
    proof {
        assert(n * 64 < count + 64) by {
            vstd::arithmetic::div_mod::lemma_fundamental_div_mod(count as int, 64);
        }
    }
    let mut all = coin_bits(&words);
    proof {
        vstd::arithmetic::div_mod::lemma_fundamental_div_mod(count as int, 64);
    }
    all.truncate(count);
    all
}

} // verus!
