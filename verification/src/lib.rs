//! Run-length encoding of byte streams.
//!
//! [`compress`] scans its input once, left to right, gathering maximal runs
//! of identical bytes. A run shorter than six bytes is copied to the output
//! literally; a run of six or more bytes is replaced by a six-byte encoded
//! block: the escape marker, the run's length as four big-endian bytes, and
//! the repeated byte value. The spec function [`compressed`] states the same
//! transformation over mathematical sequences, and `compress` is proved to
//! return exactly that.

use vstd::prelude::*;

verus! {

/// The escape marker that introduces an encoded block in the output stream:
/// the ASCII "End of Transmission" code point.
pub const END_OF_TRANSMISSION: u8 = 4;

/// The four big-endian bytes of a 32-bit run length.
pub open spec fn be_bytes(n: nat) -> Seq<u8> {
    seq![
        (n / 0x1000000 % 256) as u8,
        (n / 0x10000 % 256) as u8,
        (n / 0x100 % 256) as u8,
        (n % 256) as u8,
    ]
}

/// `count` copies of the byte `value`.
pub open spec fn repeated(value: u8, count: nat) -> Seq<u8> {
    Seq::new(count, |i: int| value)
}

/// What flushing a pending run of `count` copies of `value` appends to the
/// output: the run's bytes literally when it is shorter than six, otherwise
/// the six-byte encoded block.
pub open spec fn encoded_run(value: u8, count: nat) -> Seq<u8> {
    if count >= 6 {
        seq![END_OF_TRANSMISSION] + be_bytes(count) + seq![value]
    } else {
        repeated(value, count)
    }
}

/// The length of the maximal run of identical bytes at the front of `s`.
pub open spec fn run_len(s: Seq<u8>) -> nat
    decreases s.len(),
{
    if s.len() == 0 {
        0
    } else if s.len() == 1 || s[1] != s[0] {
        1
    } else {
        1 + run_len(s.skip(1))
    }
}

/// The front run is at least one byte and at most the whole of `s`, all its
/// bytes equal the first one, and it is maximal: the byte after it differs.
pub proof fn lemma_run_len_bounds(s: Seq<u8>)
    requires
        s.len() > 0,
    ensures
        1 <= run_len(s) <= s.len(),
        forall|k: int| 0 <= k < run_len(s) ==> #[trigger] s[k] == s[0],
        run_len(s) < s.len() ==> s[run_len(s) as int] != s[0],
    decreases s.len(),
{
    if s.len() == 1 || s[1] != s[0] {
    } else {
        lemma_run_len_bounds(s.skip(1));
        assert forall|k: int| 0 <= k < run_len(s) implies #[trigger] s[k] == s[0] by {
            if k > 0 {
                assert(s.skip(1)[k - 1] == s[k]);
            }
        }
        if run_len(s) < s.len() {
            assert(s.skip(1)[run_len(s) - 1] == s[run_len(s) as int]);
        }
    }
}

/// The run-length encoding of `s`: each maximal run of identical bytes,
/// taken left to right, contributes its `encoded_run`.
pub open spec fn compressed(s: Seq<u8>) -> Seq<u8>
    decreases s.len()
    via compressed_decreases
{
    if s.len() == 0 {
        Seq::empty()
    } else {
        encoded_run(s[0], run_len(s)) + compressed(s.skip(run_len(s) as int))
    }
}

#[via_fn]
proof fn compressed_decreases(s: Seq<u8>) {
    if s.len() > 0 {
        lemma_run_len_bounds(s);
    }
}

/// `run_len` is the one length `k` whose first `k` bytes all equal the first
/// byte while the byte after them, if any, differs.
proof fn lemma_run_len_is(s: Seq<u8>, k: nat)
    requires
        1 <= k <= s.len(),
        forall|j: int| 0 <= j < k ==> #[trigger] s[j] == s[0],
        k < s.len() ==> s[k as int] != s[0],
    ensures
        run_len(s) == k,
    decreases k,
{
    if k == 1 {
    } else {
        assert(s[1] == s[0]);
        let t = s.skip(1);
        assert forall|j: int| 0 <= j < k - 1 implies #[trigger] t[j] == t[0] by {
            assert(t[j] == s[j + 1]);
            assert(t[0] == s[1]);
        }
        if k - 1 < t.len() {
            assert(t[k - 1] == s[k as int]);
        }
        lemma_run_len_is(t, (k - 1) as nat);
    }
}

/// Appending a fresh run to an input whose last byte differs from the run's
/// byte appends exactly that run's encoding to the compressed form.
pub proof fn lemma_compressed_append_run(a: Seq<u8>, v: u8, n: nat)
    requires
        n >= 1,
        a.len() == 0 || a.last() != v,
    ensures
        compressed(a + repeated(v, n)) == compressed(a) + encoded_run(v, n),
    decreases a.len(),
{
    let s = a + repeated(v, n);
    if a.len() == 0 {
        assert forall|j: int| 0 <= j < n implies #[trigger] s[j] == s[0] by {
            assert(s[j] == repeated(v, n)[j]);
        }
        lemma_run_len_is(s, n);
        assert(s[0] == repeated(v, n)[0]);
        assert(s.skip(n as int) =~= Seq::<u8>::empty());
        assert(compressed(s.skip(n as int)) == Seq::<u8>::empty());
        assert(compressed(s) =~= compressed(a) + encoded_run(v, n));
    } else {
        lemma_run_len_bounds(a);
        let k = run_len(a);
        assert forall|j: int| 0 <= j < k implies #[trigger] s[j] == s[0] by {
            assert(s[j] == a[j]);
            assert(s[0] == a[0]);
        }
        if k < s.len() {
            if k < a.len() {
                assert(s[k as int] == a[k as int]);
            } else {
                assert(a.last() == a[a.len() - 1]);
                assert(s[k as int] == repeated(v, n)[0]);
            }
            assert(s[k as int] != s[0]);
        }
        lemma_run_len_is(s, k);
        assert(s.skip(k as int) =~= a.skip(k as int) + repeated(v, n));
        if a.skip(k as int).len() > 0 {
            assert(a.skip(k as int).last() == a.last());
        }
        lemma_compressed_append_run(a.skip(k as int), v, n);
        assert(compressed(s.skip(k as int)) == compressed(a.skip(k as int)) + encoded_run(v, n));
        assert(compressed(s) =~= compressed(a) + encoded_run(v, n));
    }
}

/// Flushes a pending run into the output buffer, as [`encoded_run`] states.
fn compute_buf(value: u8, count: u32, output: &mut Vec<u8>)
    ensures
        final(output)@ == old(output)@ + encoded_run(value, count as nat),
{
    if count >= 6 {
        output.push(END_OF_TRANSMISSION);
        output.push((count / 0x1000000 % 256) as u8);
        output.push((count / 0x10000 % 256) as u8);
        output.push((count / 0x100 % 256) as u8);
        output.push((count % 256) as u8);
        output.push(value);
        assert(output@ =~= old(output)@ + encoded_run(value, count as nat));
    } else {
        let ghost out0 = output@;
        let mut k: u32 = 0;
        while k < count
            invariant
                k <= count,
                output@ == out0 + repeated(value, k as nat),
            decreases count - k,
        {
            output.push(value);
            assert(output@ =~= out0 + repeated(value, (k + 1) as nat));
            k = k + 1;
        }
        assert(output@ =~= old(output)@ + encoded_run(value, count as nat));
    }
}

/// Compresses the given bytes: every maximal run of identical bytes shorter
/// than six is copied literally, every longer one becomes the six-byte block
/// `[END_OF_TRANSMISSION, length as four big-endian bytes, value]`.
///
/// The run counter is a 32-bit integer, so the input may hold at most
/// `u32::MAX` bytes; a longer input could contain an unrepresentable run.
pub fn compress(data: &[u8]) -> (out: Vec<u8>)
    requires
        data@.len() <= u32::MAX,
    ensures
        out@ == compressed(data@),
{
    let mut output: Vec<u8> = Vec::new();
    let mut value: u8 = 0;
    let mut count: u32 = 0;
    let ghost mut start: int = 0;
    let mut i: usize = 0;
    while i < data.len()
        invariant
            0 <= start <= i <= data@.len() <= u32::MAX,
            count == i - start,
            i > 0 ==> start < i,
            output@ == compressed(data@.take(start)),
            forall|k: int| start <= k < i ==> #[trigger] data@[k] == value,
            start > 0 ==> data@[start - 1] != value,
        decreases data@.len() - i,
    {
        let byte = data[i];
        if byte == value {
            count = count + 1;
        } else {
            proof {
                flush_step(data@, start, i as int, value);
            }
            compute_buf(value, count, &mut output);
            value = byte;
            count = 1;
            proof {
                start = i as int;
            }
        }
        i = i + 1;
    }
    proof {
        flush_step(data@, start, i as int, value);
        assert(data@.take(i as int) =~= data@);
    }
    compute_buf(value, count, &mut output);
    output
}

/// One flush during the scan: the bytes from `start` to `i` are a maximal
/// run, so encoding them extends the compressed form of the prefix.
proof fn flush_step(s: Seq<u8>, start: int, i: int, value: u8)
    requires
        0 <= start <= i <= s.len(),
        start == 0 || start < i,
        forall|k: int| start <= k < i ==> #[trigger] s[k] == value,
        start > 0 ==> s[start - 1] != value,
    ensures
        compressed(s.take(start)) + encoded_run(value, (i - start) as nat) == compressed(s.take(i)),
{
    let a = s.take(start);
    let n = (i - start) as nat;
    if n == 0 {
        assert(encoded_run(value, 0) =~= Seq::<u8>::empty());
        assert(compressed(a) + encoded_run(value, 0) =~= compressed(s.take(i)));
    } else {
        if start > 0 {
            assert(a.last() == s[start - 1]);
        }
        lemma_compressed_append_run(a, value, n);
        assert(a + repeated(value, n) =~= s.take(i));
    }
}

/// `n` identical bytes stand in `s` at position `i`.
pub open spec fn has_run(s: Seq<u8>, i: int, n: nat) -> bool {
    0 <= i && i + n <= s.len() && forall|k: int| i <= k < i + n ==> #[trigger] s[k] == s[i]
}

/// Idempotence of the no-op case: an input with no run of six identical
/// bytes anywhere compresses to itself, byte for byte.
pub proof fn lemma_short_runs_identity(s: Seq<u8>)
    requires
        forall|i: int| !has_run(s, i, 6),
    ensures
        compressed(s) == s,
    decreases s.len(),
{
    if s.len() == 0 {
        assert(compressed(s) =~= s);
    } else {
        lemma_run_len_bounds(s);
        let k = run_len(s) as int;
        if k >= 6 {
            assert(has_run(s, 0, 6));
            assert(!has_run(s, 0, 6));
        }
        let t = s.skip(k);
        assert forall|i: int| !has_run(t, i, 6) by {
            if has_run(t, i, 6) {
                assert forall|m: int| i + k <= m < i + k + 6 implies #[trigger] s[m] == s[i + k] by {
                    assert(t[m - k] == s[m]);
                    assert(t[i] == s[i + k]);
                }
                assert(has_run(s, i + k, 6));
                assert(!has_run(s, i + k, 6));
            }
        }
        lemma_short_runs_identity(t);
        assert(compressed(s) =~= s);
    }
}

/// Compression never lengthens: a literal run costs as many bytes as it
/// held, and an encoded block's six bytes never exceed its run's length.
pub proof fn lemma_compressed_len_le(s: Seq<u8>)
    ensures
        compressed(s).len() <= s.len(),
    decreases s.len(),
{
    if s.len() > 0 {
        lemma_run_len_bounds(s);
        lemma_compressed_len_le(s.skip(run_len(s) as int));
    }
}

/// Block correctness: a run of `n >= 6` copies of `v` compresses to exactly
/// the six-byte block `[4, b0, b1, b2, b3, v]`, where `b0..b3` are the
/// big-endian bytes of `n`.
pub proof fn lemma_encoded_block(v: u8, n: nat)
    requires
        6 <= n,
    ensures
        compressed(repeated(v, n)) == seq![END_OF_TRANSMISSION] + be_bytes(n) + seq![v],
{
    let s = repeated(v, n);
    assert forall|j: int| 0 <= j < n implies #[trigger] s[j] == s[0] by {
        assert(s[j] == v);
    }
    lemma_run_len_is(s, n);
    assert(s[0] == v);
    assert(s.skip(n as int) =~= Seq::<u8>::empty());
    assert(compressed(s.skip(n as int)) == Seq::<u8>::empty());
    assert(compressed(s) =~= seq![END_OF_TRANSMISSION] + be_bytes(n) + seq![v]);
}

/// The threshold boundary: a run of five stays five literal bytes, while a
/// run of six becomes the six-byte encoded block.
pub proof fn lemma_threshold_boundary(v: u8)
    ensures
        compressed(repeated(v, 5)) == repeated(v, 5),
        compressed(repeated(v, 6)) == seq![END_OF_TRANSMISSION, 0u8, 0u8, 0u8, 6u8, v],
{
    let s = repeated(v, 5);
    assert forall|j: int| 0 <= j < 5 implies #[trigger] s[j] == s[0] by {
        assert(s[j] == v);
    }
    lemma_run_len_is(s, 5);
    assert(s[0] == v);
    assert(s.skip(5) =~= Seq::<u8>::empty());
    assert(compressed(s.skip(5)) == Seq::<u8>::empty());
    assert(compressed(s) =~= s);

    lemma_encoded_block(v, 6);
    assert(be_bytes(6) =~= seq![0u8, 0u8, 0u8, 6u8]);
    assert(seq![END_OF_TRANSMISSION] + be_bytes(6) + seq![v]
        =~= seq![END_OF_TRANSMISSION, 0u8, 0u8, 0u8, 6u8, v]);
}

} // verus!
