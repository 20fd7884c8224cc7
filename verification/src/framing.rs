//! Cutting a stream of samples into blocks of a fixed length.

use vstd::prelude::*;
use vstd::slice::slice_subrange;

verus! {

/// How many samples of `s` its complete blocks of `n` take up.
pub open spec fn whole_len<S>(s: Seq<S>, n: nat) -> nat {
    s.len() / n * n
}

/// The complete blocks of `n` samples that `s` starts with.
pub open spec fn blocks_of<S>(s: Seq<S>, n: nat) -> Seq<Seq<S>> {
    Seq::new(s.len() / n, |i: int| s.subrange(i * n, i * n + n))
}

/// What `blocks_of` leaves.
pub open spec fn rest_of<S>(s: Seq<S>, n: nat) -> Seq<S> {
    s.subrange(whole_len(s, n) as int, s.len() as int)
}

/// The contents of several vectors.
pub open spec fn contents<S>(vs: Seq<Vec<S>>) -> Seq<Seq<S>> {
    vs.map_values(|v: Vec<S>| v@)
}

/// Takes all complete blocks of `n` samples off the front of `buf`.
pub fn cut_blocks<S: Copy>(buf: &mut Vec<S>, n: usize) -> (blocks: Vec<Vec<S>>)
    requires
        n > 0,
    ensures
        contents(blocks@) == blocks_of(old(buf)@, n as nat),
        final(buf)@ == rest_of(old(buf)@, n as nat),
        blocks@.len() == old(buf)@.len() / n as nat,
        forall|i: int|
            0 <= i < blocks@.len() ==> (#[trigger] blocks@[i])@.len() == n && blocks@[i]@ == old(
                buf,
            )@.subrange(i * n, i * n + n),
        final(buf)@.len() < n,
        final(buf)@ == old(buf)@.subrange(old(buf)@.len() - final(buf)@.len(), old(buf)@.len() as int),
        blocks@.map_values(|v: Vec<S>| v@).flatten() + final(buf)@ == old(buf)@,
{
    let ghost all = buf@;
    let mut blocks: Vec<Vec<S>> = Vec::new();
    let mut offset: usize = 0;
    proof {
        lemma_whole_len(all, n as nat);
        assert(0 * n == 0) by (nonlinear_arith);
    }
    while buf.len() - offset >= n
        invariant
            n > 0,
            buf@ == all,
            offset <= all.len(),
            offset == blocks@.len() * n,
            forall|i: int|
                0 <= i < blocks@.len() ==> (#[trigger] blocks@[i])@ == all.subrange(
                    i * n,
                    i * n + n,
                ),
        decreases all.len() - offset,
    {
        let block = vstd::slice::slice_to_vec(slice_subrange(buf.as_slice(), offset, offset + n));
        blocks.push(block);
        offset = offset + n;
        proof {
            lemma_next_multiple(blocks@.len() - 1, n as int);
        }
    }
    proof {
        lemma_quotient(all.len() as int, n as int, blocks@.len() as int);
        assert(contents(blocks@) =~= blocks_of(all, n as nat));
        law_cutting_keeps_samples(all, n as nat);
        assert(blocks@.map_values(|v: Vec<S>| v@) =~= blocks_of(all, n as nat));
        assert forall|i: int| 0 <= i < blocks@.len() implies (#[trigger] blocks@[i])@.len() == n by {
            assert(blocks_of(all, n as nat)[i] == blocks@[i]@);
        }
    }
    let rest = buf.split_off(offset);
    *buf = rest;
    blocks
}

pub(crate) proof fn lemma_next_multiple(k: int, n: int)
    ensures
        (k + 1) * n == k * n + n,
{
    assert((k + 1) * n == k * n + n) by (nonlinear_arith);
}

pub(crate) proof fn lemma_quotient(len: int, n: int, k: int)
    requires
        n > 0,
        k >= 0,
        k * n <= len < k * n + n,
    ensures
        len / n == k,
{
    vstd::arithmetic::div_mod::lemma_fundamental_div_mod_converse(len, n, k, len - k * n);
}

proof fn lemma_whole_len<S>(s: Seq<S>, n: nat)
    requires
        n > 0,
    ensures
        whole_len(s, n) <= s.len() < whole_len(s, n) + n,
        rest_of(s, n).len() == s.len() - whole_len(s, n),
{
    vstd::arithmetic::div_mod::lemma_fundamental_div_mod(s.len() as int, n as int);
    assert(n * (s.len() / n) == s.len() / n * n) by (nonlinear_arith);
}

/// The blocks are the runs of `n` samples one behind the other from the start, as
/// many as there are complete ones.
pub proof fn law_blocks_are_consecutive<S>(s: Seq<S>, n: nat, i: int, j: int)
    requires
        n > 0,
        0 <= i,
        0 <= j < n,
    ensures
        i < blocks_of(s, n).len() <==> i * n + n <= s.len(),
        i < blocks_of(s, n).len() ==> blocks_of(s, n)[i].len() == n && blocks_of(s, n)[i][j] == s[i
            * n + j],
        j < rest_of(s, n).len() <==> blocks_of(s, n).len() * n + j < s.len(),
        j < rest_of(s, n).len() ==> rest_of(s, n)[j] == s[blocks_of(s, n).len() * n + j],
{
    let k: int = (s.len() / n) as int;
    lemma_whole_len(s, n);
    if i < k {
        lemma_block_bounds(i, k, n as int);
    } else {
        assert(k * n <= i * n) by (nonlinear_arith)
            requires
                k <= i,
                n > 0,
        ;
    }
}

/// Several vectors hold what each of them holds.
pub proof fn law_contents<S>(vs: Seq<Vec<S>>, i: int)
    requires
        0 <= i < vs.len(),
    ensures
        contents(vs).len() == vs.len(),
        contents(vs)[i] == vs[i]@,
{
}

/// Cutting neither drops, repeats nor reorders samples: the blocks and what is
/// left over make up the input.
pub proof fn law_cutting_keeps_samples<S>(s: Seq<S>, n: nat)
    requires
        n > 0,
    ensures
        blocks_of(s, n).flatten() + rest_of(s, n) == s,
        forall|i: int| 0 <= i < blocks_of(s, n).len() ==> (#[trigger] blocks_of(s, n)[i]).len() == n,
        rest_of(s, n).len() < n,
{
    lemma_whole_len(s, n);
    lemma_first_blocks(s, n, s.len() / n);
    assert(blocks_of(s, n) =~= Seq::new(s.len() / n, |i: int| s.subrange(i * n, i * n + n)));
    assert(blocks_of(s, n).flatten() + rest_of(s, n) =~= s);
    assert forall|i: int| 0 <= i < blocks_of(s, n).len() implies (#[trigger] blocks_of(
        s,
        n,
    )[i]).len() == n by {
        lemma_block_bounds(i, (s.len() / n) as int, n as int);
    }
}

proof fn lemma_first_blocks<S>(s: Seq<S>, n: nat, k: nat)
    requires
        n > 0,
        k * n <= s.len(),
    ensures
        Seq::new(k, |i: int| s.subrange(i * n, i * n + n)).flatten() == s.subrange(
            0,
            (k * n) as int,
        ),
    decreases k,
{
    let blocks = Seq::new(k, |i: int| s.subrange(i * n, i * n + n));
    if k == 0 {
        assert(0 * n == 0) by (nonlinear_arith);
        assert(blocks.flatten() =~= s.subrange(0, 0));
    } else {
        let j = k - 1;
        lemma_next_multiple(j, n as int);
        lemma_first_blocks(s, n, j as nat);
        let before = Seq::new(j as nat, |i: int| s.subrange(i * n, i * n + n));
        assert(blocks =~= before.push(s.subrange(j * n, j * n + n)));
        before.lemma_flatten_push(s.subrange(j * n, j * n + n));
        assert(s.subrange(0, j * n) + s.subrange(j * n, j * n + n) =~= s.subrange(
            0,
            (k * n) as int,
        ));
    }
}

proof fn lemma_block_bounds(i: int, k: int, n: int)
    requires
        0 <= i < k,
        n > 0,
    ensures
        0 <= i * n,
        i * n + n <= k * n,
{
    assert(0 <= i * n) by (nonlinear_arith)
        requires
            0 <= i,
            n > 0,
    ;
    assert(i * n + n <= k * n) by (nonlinear_arith)
        requires
            i + 1 <= k,
            n > 0,
    ;
}

/// It does not matter whether samples are cut as they arrive or all at once.
pub proof fn law_cutting_in_two_steps<S>(a: Seq<S>, b: Seq<S>, n: nat)
    requires
        n > 0,
    ensures
        blocks_of(a + b, n) == blocks_of(a, n) + blocks_of(rest_of(a, n) + b, n),
        rest_of(a + b, n) == rest_of(rest_of(a, n) + b, n),
{
    let left = rest_of(a, n) + b;
    let k = a.len() / n;
    let w = whole_len(a, n);
    lemma_whole_len(a, n);
    lemma_whole_len(left, n);
    lemma_whole_len(a + b, n);
    assert((a + b).len() == left.len() + k * n);
    vstd::arithmetic::div_mod::lemma_hoist_over_denominator(left.len() as int, k as int, n);
    assert((a + b).len() / n == k + left.len() / n);
    assert forall|i: int| 0 <= i < (a + b).len() / n implies #[trigger] blocks_of(a + b, n)[i] == (
    blocks_of(a, n) + blocks_of(left, n))[i] by {
        lemma_block_bounds(i, ((a + b).len() / n) as int, n as int);
        if i < k {
            lemma_block_bounds(i, k as int, n as int);
            assert((a + b).subrange(i * n, i * n + n) =~= a.subrange(i * n, i * n + n));
        } else {
            let j = i - k;
            lemma_block_bounds(j, (left.len() / n) as int, n as int);
            assert(i * n == j * n + k * n) by (nonlinear_arith)
                requires
                    i == j + k,
            ;
            assert((a + b).subrange(i * n, i * n + n) =~= left.subrange(j * n, j * n + n));
        }
    }
    assert(blocks_of(a + b, n) =~= blocks_of(a, n) + blocks_of(left, n));
    assert(whole_len(a + b, n) == w + whole_len(left, n)) by (nonlinear_arith)
        requires
            whole_len(a + b, n) == (k + left.len() / n) * n,
            w == k * n,
            whole_len(left, n) == left.len() / n * n,
    ;
    assert(rest_of(a + b, n) =~= rest_of(left, n));
}

/// All blocks that come out, and the samples left over, when `chunks` arrive one
/// after the other and every complete block is cut at once.
pub open spec fn cut_as_they_come<S>(chunks: Seq<Seq<S>>, n: nat) -> (Seq<Seq<S>>, Seq<S>)
    decreases chunks.len(),
{
    if chunks.len() == 0 {
        (Seq::empty(), Seq::empty())
    } else {
        let (done, rest) = cut_as_they_come(chunks.drop_last(), n);
        (done + blocks_of(rest + chunks.last(), n), rest_of(rest + chunks.last(), n))
    }
}

/// The blocks depend on the samples alone, not on how the capture device
/// happened to hand them over.
pub proof fn law_blocks_ignore_chunking<S>(chunks: Seq<Seq<S>>, n: nat)
    requires
        n > 0,
    ensures
        cut_as_they_come(chunks, n) == (
            blocks_of(chunks.flatten(), n),
            rest_of(chunks.flatten(), n),
        ),
    decreases chunks.len(),
{
    if chunks.len() == 0 {
        assert(0nat / n == 0) by (nonlinear_arith)
            requires
                n > 0,
        ;
        assert(chunks.flatten() =~= Seq::<S>::empty());
        assert(0 * n == 0) by (nonlinear_arith);
        assert(blocks_of(chunks.flatten(), n) =~= Seq::empty());
        assert(rest_of(chunks.flatten(), n) =~= Seq::empty());
    } else {
        let before = chunks.drop_last();
        law_blocks_ignore_chunking(before, n);
        before.lemma_flatten_push(chunks.last());
        assert(before.push(chunks.last()) =~= chunks);
        law_cutting_in_two_steps(before.flatten(), chunks.last(), n);
    }
}

} // verus!
