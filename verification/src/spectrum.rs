//! The spectral feature extractor: truncation of each spectrum frame to the
//! bins below Nyquist, grouping of consecutive frames by element-wise
//! summation, and selection of the dominant bin of each grouped frame by a
//! windowed energy scan.
//!
//! A spectrogram is a vector of frames; each frame is a vector of non-negative
//! bin energies. Energies are plain `u64` values: the caller fixes whatever
//! scale it likes, the extractor only adds and compares them.

use vstd::prelude::*;

use crate::sums::{
    lemma_seq_sum_congruence, lemma_seq_sum_element_le, lemma_seq_sum_le, lemma_seq_sum_nonneg,
    lemma_seq_sum_pointwise_add, lemma_seq_sum_split, lemma_seq_sum_subrange_le,
    lemma_seq_sum_zero, seq_sum,
};

verus! {

/// Half-width, in bins, of the energy window used by the dominant-bin scan.
pub const SUM_STEP: usize = 5;

/// The frames of a spectrogram as a sequence of sequences of bin energies.
pub open spec fn sg_view(s: Seq<Vec<u64>>) -> Seq<Seq<u64>> {
    Seq::new(s.len(), |t: int| s[t]@)
}

/// The bin energies of one frame, as mathematical integers.
pub open spec fn ints(f: Seq<u64>) -> Seq<int> {
    Seq::new(f.len(), |i: int| f[i] as int)
}

/// Energy of bin `i` in each frame of the spectrogram, as integers.
pub open spec fn column(s: Seq<Seq<u64>>, i: int) -> Seq<int> {
    Seq::new(s.len(), |t: int| s[t][i] as int)
}

/// Total energy of each frame of the spectrogram, as integers.
pub open spec fn frame_sums(s: Seq<Seq<u64>>) -> Seq<int> {
    Seq::new(s.len(), |t: int| frame_sum(s[t]))
}

/// Total energy of one frame: the sum of its bin values.
pub open spec fn frame_sum(f: Seq<u64>) -> int {
    seq_sum(ints(f), 0, f.len() as int)
}

/// Total energy of a spectrogram: the sum of its frame sums.
pub open spec fn total_energy(s: Seq<Seq<u64>>) -> int {
    seq_sum(frame_sums(s), 0, s.len() as int)
}

/// Every frame of `s` has exactly `b` bins.
pub open spec fn uniform_width(s: Seq<Seq<u64>>, b: int) -> bool {
    forall|t: int| 0 <= t < s.len() ==> (#[trigger] s[t].len()) == b
}

/// Number of groups that grouping `n` frames in runs of `g` produces:
/// `n / g` rounded up, a trailing partial run still counting as one group.
pub open spec fn group_count(n: int, g: int) -> int {
    (n + g - 1) / g
}

/// End of the run of (at most) `g` frames that starts at frame `lo`.
pub open spec fn run_end(n: int, lo: int, g: int) -> int {
    if lo + g <= n {
        lo + g
    } else {
        n
    }
}

/// Energy of bin `i` summed over the run of (at most) `g` frames that starts
/// at frame `lo`; a trailing partial run is summed over the frames available.
pub open spec fn run_sum(s: Seq<Seq<u64>>, lo: int, g: int, i: int) -> int {
    seq_sum(column(s, i), lo, run_end(s.len() as int, lo, g))
}

/// `t` is the grouping of `s` (whose frames all have `b` bins) in runs of `g`.
pub open spec fn is_grouping(s: Seq<Seq<u64>>, t: Seq<Seq<u64>>, b: int, g: int) -> bool {
    &&& t.len() == group_count(s.len() as int, g)
    &&& uniform_width(t, b)
    &&& forall|k: int, i: int|
        0 <= k < t.len() && 0 <= i < b ==> (#[trigger] t[k][i]) as int == run_sum(s, k * g, g, i)
}

/// First bin of the energy window centred at bin `i`: `i - w`, clipped to 0.
pub open spec fn win_lo(i: int, w: int) -> int {
    if i - w >= 0 {
        i - w
    } else {
        0
    }
}

/// One past the last bin of the energy window centred at bin `i`:
/// `i + w`, clipped to the frame width `n` (the window is `[i - w, i + w)`).
pub open spec fn win_hi(i: int, w: int, n: int) -> int {
    if i + w <= n {
        i + w
    } else {
        n
    }
}

/// Energy of the window of half-width `w` centred at bin `i` of frame `f`.
pub open spec fn win_sum(f: Seq<u64>, i: int, w: int) -> int {
    seq_sum(ints(f), win_lo(i, w), win_hi(i, w, f.len() as int))
}

/// `r` is the dominant bin of frame `f` for window half-width `w`: the bin
/// whose windowed energy is maximal, ties resolved to the lowest index.
pub open spec fn is_dominant_index(f: Seq<u64>, w: int, r: int) -> bool {
    &&& 0 <= r < f.len()
    &&& forall|i: int| 0 <= i < f.len() ==> win_sum(f, i, w) <= win_sum(f, r, w)
    &&& forall|i: int| 0 <= i < r ==> win_sum(f, i, w) < win_sum(f, r, w)
}

/// One bin value is at most the sum of its frame.
proof fn lemma_frame_element_le(f: Seq<u64>, i: int)
    requires
        0 <= i < f.len(),
    ensures
        f[i] as int <= frame_sum(f),
{
    lemma_seq_sum_element_le(ints(f), 0, f.len() as int, i);
}

/// Frame sums are non-negative.
proof fn lemma_frame_sum_nonneg(f: Seq<u64>)
    ensures
        0 <= frame_sum(f),
{
    lemma_seq_sum_nonneg(ints(f), 0, f.len() as int);
}

/// A sum of bin `i` over any range of frames is at most the total energy.
proof fn lemma_column_le_total(s: Seq<Seq<u64>>, b: int, lo: int, hi: int, i: int)
    requires
        uniform_width(s, b),
        0 <= i < b,
        0 <= lo <= hi <= s.len(),
    ensures
        0 <= seq_sum(column(s, i), lo, hi) <= total_energy(s),
{
    assert forall|t: int| lo <= t < hi implies column(s, i)[t] <= frame_sums(s)[t] by {
        assert(s[t].len() == b);
        lemma_frame_element_le(s[t], i);
    }
    lemma_seq_sum_le(column(s, i), frame_sums(s), lo, hi);
    assert forall|t: int| 0 <= t < s.len() implies 0 <= frame_sums(s)[t] by {
        lemma_frame_sum_nonneg(s[t]);
    }
    lemma_seq_sum_subrange_le(frame_sums(s), 0, s.len() as int, lo, hi);
    assert forall|t: int| lo <= t < hi implies 0 <= column(s, i)[t] by {}
    lemma_seq_sum_nonneg(column(s, i), lo, hi);
}

/// Exchanging the order of summation: a frame whose bin `i` holds the sum of
/// bin `i` over a range of frames has, as its own sum, the summed energy of
/// those frames.
proof fn lemma_sum_exchange(s: Seq<Seq<u64>>, b: int, q: Seq<int>, lo: int, hi: int)
    requires
        uniform_width(s, b),
        0 <= lo <= hi <= s.len(),
        0 <= b == q.len(),
        forall|i: int| 0 <= i < b ==> q[i] == seq_sum(column(s, i), lo, hi),
    ensures
        seq_sum(q, 0, b) == seq_sum(frame_sums(s), lo, hi),
    decreases hi - lo,
{
    if lo >= hi {
        assert(forall|i: int| 0 <= i < b ==> q[i] == 0);
        lemma_seq_sum_zero(q, 0, b);
    } else {
        let q2 = Seq::new(b as nat, |i: int| seq_sum(column(s, i), lo + 1, hi));
        assert(s[lo].len() == b);
        assert forall|i: int| 0 <= i < b implies q[i] == ints(s[lo])[i] + q2[i] by {
            assert(column(s, i)[lo] == s[lo][i] as int);
        }
        lemma_seq_sum_pointwise_add(q, ints(s[lo]), q2, 0, b);
        lemma_sum_exchange(s, b, q2, lo + 1, hi);
    }
}

/// Grouping with `group_size` 1 leaves the spectrogram unchanged.
pub proof fn lemma_grouping_one_identity(s: Seq<Seq<u64>>, t: Seq<Seq<u64>>, b: int)
    requires
        uniform_width(s, b),
        is_grouping(s, t, b, 1),
    ensures
        t == s,
{
    let n = s.len() as int;
    vstd::arithmetic::div_mod::lemma_fundamental_div_mod_converse(n + 1 - 1, 1, n, 0);
    assert(t.len() == s.len());
    assert forall|k: int| 0 <= k < n implies t[k] == s[k] by {
        assert(s[k].len() == b);
        assert(t[k].len() == b);
        assert forall|i: int| 0 <= i < b implies t[k][i] == s[k][i] by {
            assert(t[k][i] as int == run_sum(s, k * 1, 1, i));
            assert(k * 1 == k) by (nonlinear_arith);
            assert(run_end(n, k, 1) == k + 1);
            assert(seq_sum(column(s, i), k, k + 1) == column(s, i)[k] + seq_sum(
                column(s, i),
                k + 1,
                k + 1,
            ));
            assert(column(s, i)[k] == s[k][i] as int);
        }
        assert(t[k] =~= s[k]);
    }
    assert(t =~= s);
}

/// The grouped prefix of `k` groups holds exactly the energy of the first
/// `min(k * g, n)` original frames.
proof fn lemma_grouping_energy_prefix(s: Seq<Seq<u64>>, t: Seq<Seq<u64>>, b: int, g: int, k: int)
    requires
        1 <= g,
        uniform_width(s, b),
        is_grouping(s, t, b, g),
        0 <= k <= t.len(),
    ensures
        seq_sum(frame_sums(t), 0, k) == seq_sum(
            frame_sums(s),
            0,
            if k * g <= s.len() {
                k * g
            } else {
                s.len() as int
            },
        ),
    decreases k,
{
    let n = s.len() as int;
    if k == 0 {
        assert(0 * g == 0) by (nonlinear_arith);
    } else {
        lemma_grouping_energy_prefix(s, t, b, g, k - 1);
        let lo = (k - 1) * g;
        // (k - 1) * g < n: the run of every group starts inside the spectrogram
        vstd::arithmetic::div_mod::lemma_fundamental_div_mod(n + g - 1, g);
        assert(t.len() * g <= n + g - 1) by (nonlinear_arith)
            requires
                g >= 1,
                t.len() == (n + g - 1) / g,
                n + g - 1 == g * ((n + g - 1) / g) + (n + g - 1) % g,
                (n + g - 1) % g >= 0,
        ;
        assert(lo <= t.len() * g - g) by (nonlinear_arith)
            requires
                k <= t.len(),
                g >= 1,
                lo == (k - 1) * g,
        ;
        assert(lo < n);
        assert(0 <= lo) by (nonlinear_arith)
            requires
                k >= 1,
                g >= 1,
                lo == (k - 1) * g,
        ;
        let hi = run_end(n, lo, g);
        assert(lo + g == k * g) by (nonlinear_arith)
            requires
                lo == (k - 1) * g,
        ;
        // the energy of group k - 1 is the energy of its run
        assert(t[k - 1].len() == b);
        assert forall|i: int| 0 <= i < b implies ints(t[k - 1])[i] == seq_sum(
            column(s, i),
            lo,
            hi,
        ) by {
            assert(t[k - 1][i] as int == run_sum(s, (k - 1) * g, g, i));
        }
        lemma_sum_exchange(s, b, ints(t[k - 1]), lo, hi);
        lemma_seq_sum_split(
            frame_sums(s),
            0,
            if lo <= n {
                lo
            } else {
                n
            },
            hi,
        );
        lemma_seq_sum_split(frame_sums(t), 0, k - 1, k);
        assert(seq_sum(frame_sums(t), k - 1, k) == frame_sums(t)[k - 1] + seq_sum(
            frame_sums(t),
            k,
            k,
        ));
    }
}

/// Grouping conserves energy: the values of all grouped frames sum to the
/// same total as the values of all original frames.
pub proof fn lemma_grouping_conserves_energy(s: Seq<Seq<u64>>, t: Seq<Seq<u64>>, b: int, g: int)
    requires
        1 <= g,
        uniform_width(s, b),
        is_grouping(s, t, b, g),
    ensures
        total_energy(t) == total_energy(s),
{
    let n = s.len() as int;
    let kk = t.len() as int;
    lemma_grouping_energy_prefix(s, t, b, g, kk);
    vstd::arithmetic::div_mod::lemma_fundamental_div_mod(n + g - 1, g);
    assert(kk * g >= n) by (nonlinear_arith)
        requires
            g >= 1,
            kk == (n + g - 1) / g,
            n + g - 1 == g * ((n + g - 1) / g) + (n + g - 1) % g,
            (n + g - 1) % g < g,
    ;
}

/// Truncates every frame to its first half: for real input the bins above the
/// Nyquist bin mirror the ones below and carry no new information.
pub fn truncate_half(spectrogram: &mut Vec<Vec<u64>>)
    ensures
        final(spectrogram).len() == old(spectrogram).len(),
        forall|t: int|
            0 <= t < old(spectrogram).len() ==> (#[trigger] final(spectrogram)@[t]@) == old(
                spectrogram,
            )@[t]@.subrange(0, old(spectrogram)@[t]@.len() as int / 2),
{
    let len = spectrogram.len();
    let mut out: Vec<Vec<u64>> = Vec::new();
    for t in 0..len
        invariant
            len == spectrogram.len(),
            out.len() == t,
            forall|k: int|
                0 <= k < t ==> (#[trigger] out@[k]@) == spectrogram@[k]@.subrange(
                    0,
                    spectrogram@[k]@.len() as int / 2,
                ),
    {
        let half = spectrogram[t].len() / 2;
        let mut fr: Vec<u64> = Vec::new();
        for i in 0..half
            invariant
                len == spectrogram.len(),
                t < len,
                half as int == spectrogram@[t as int]@.len() as int / 2,
                fr.len() == i,
                forall|k: int| 0 <= k < i ==> fr@[k] == spectrogram@[t as int]@[k],
        {
            let v = spectrogram[t][i];
            fr.push(v);
        }
        proof {
            assert(fr@ =~= spectrogram@[t as int]@.subrange(
                0,
                spectrogram@[t as int]@.len() as int / 2,
            ));
        }
        out.push(fr);
    }
    *spectrogram = out;
}

/// Groups runs of `group_size` consecutive frames into one frame by summing
/// them element-wise; a trailing partial run is summed over the frames that
/// remain. Grouping trades time resolution for robustness to uncorrelated
/// noise, and conserves the total energy of the spectrogram.
pub fn group_by(spectrogram: &mut Vec<Vec<u64>>, group_size: usize)
    requires
        old(spectrogram).len() >= 1,
        group_size >= 1,
        old(spectrogram).len() + group_size <= usize::MAX,
        uniform_width(sg_view(old(spectrogram)@), old(spectrogram)@[0]@.len() as int),
        total_energy(sg_view(old(spectrogram)@)) <= u64::MAX,
    ensures
        is_grouping(
            sg_view(old(spectrogram)@),
            sg_view(final(spectrogram)@),
            old(spectrogram)@[0]@.len() as int,
            group_size as int,
        ),
        total_energy(sg_view(final(spectrogram)@)) == total_energy(sg_view(old(spectrogram)@)),
{
    let ghost s = sg_view(old(spectrogram)@);
    let ghost b = old(spectrogram)@[0]@.len() as int;
    let ghost g = group_size as int;
    let len = spectrogram.len();
    let width = spectrogram[0].len();
    let mut out: Vec<Vec<u64>> = Vec::new();
    let mut start: usize = 0;
    proof {
        assert(0 * g == 0) by (nonlinear_arith);
    }
    while start < len
        invariant
            s == sg_view(spectrogram@),
            b == width as int,
            g == group_size as int,
            len == s.len(),
            1 <= len,
            1 <= group_size,
            len + group_size <= usize::MAX,
            uniform_width(s, b),
            total_energy(s) <= u64::MAX,
            start as int == out.len() * g,
            start < len + group_size,
            uniform_width(sg_view(out@), b),
            forall|k: int, i: int|
                0 <= k < out.len() && 0 <= i < b ==> (#[trigger] sg_view(out@)[k][i]) as int
                    == run_sum(s, k * g, g, i),
        decreases len + group_size - start,
    {
        let hi = if len - start <= group_size {
            len
        } else {
            start + group_size
        };
        let ghost hig = run_end(len as int, start as int, g);
        proof {
            assert(hi as int == hig);
        }
        let mut fr: Vec<u64> = Vec::new();
        let mut i: usize = 0;
        while i < width
            invariant
                s == sg_view(spectrogram@),
                b == width as int,
                g == group_size as int,
                len == s.len(),
                1 <= group_size,
                len + group_size <= usize::MAX,
                uniform_width(s, b),
                total_energy(s) <= u64::MAX,
                start < len,
                hig == run_end(len as int, start as int, g),
                i <= width,
                fr.len() == i,
                forall|ii: int|
                    0 <= ii < i ==> (#[trigger] fr@[ii]) as int == seq_sum(
                        column(s, ii),
                        start as int,
                        hig,
                    ),
            decreases width - i,
        {
            let mut acc: u64 = 0;
            let mut j: usize = 0;
            while j < group_size
                invariant
                    s == sg_view(spectrogram@),
                    b == width as int,
                    g == group_size as int,
                    len == s.len(),
                    1 <= group_size,
                    len + group_size <= usize::MAX,
                    uniform_width(s, b),
                    total_energy(s) <= u64::MAX,
                    start < len,
                    i < width,
                    hig == run_end(len as int, start as int, g),
                    j <= group_size,
                    acc as int == seq_sum(
                        column(s, i as int),
                        start as int,
                        if start + j <= len {
                            (start + j) as int
                        } else {
                            len as int
                        },
                    ),
                decreases group_size - j,
            {
                if start + j < len {
                    proof {
                        let e = (start + j) as int;
                        assert(s[e].len() == b);
                        assert(s[e] == spectrogram@[e]@);
                        lemma_seq_sum_split(column(s, i as int), start as int, e, e + 1);
                        assert(seq_sum(column(s, i as int), e, e + 1) == column(s, i as int)[e]
                            + seq_sum(column(s, i as int), e + 1, e + 1));
                        lemma_column_le_total(s, b, start as int, e + 1, i as int);
                        lemma_seq_sum_nonneg(column(s, i as int), start as int, e);
                    }
                    let v = spectrogram[start + j][i];
                    acc = acc + v;
                }
                j += 1;
            }
            fr.push(acc);
            i += 1;
        }
        let ghost old_out = sg_view(out@);
        out.push(fr);
        proof {
            let l = old_out.len() as int;
            let newv = sg_view(out@);
            assert(newv.len() == l + 1);
            assert(newv[l] == fr@);
            assert((l + 1) * g == l * g + g) by (nonlinear_arith);
            assert forall|k: int| 0 <= k < newv.len() implies (#[trigger] newv[k].len()) == b by {
                if k < l {
                    assert(newv[k] == old_out[k]);
                    assert(old_out[k].len() == b);
                }
            }
            assert forall|k: int, i2: int|
                0 <= k < newv.len() && 0 <= i2 < b implies (#[trigger] newv[k][i2]) as int
                == run_sum(s, k * g, g, i2) by {
                if k < l {
                    assert(newv[k] == old_out[k]);
                    assert(old_out[k][i2] as int == run_sum(s, k * g, g, i2));
                } else {
                    assert(newv[l][i2] as int == seq_sum(column(s, i2), start as int, hig));
                    assert(l * g == start as int);
                }
            }
        }
        start = start + group_size;
    }
    proof {
        let kk = out.len() as int;
        let n = len as int;
        assert(kk * g >= n && kk * g < n + g);
        vstd::arithmetic::div_mod::lemma_fundamental_div_mod_converse(
            n + g - 1,
            g,
            kk,
            n + g - 1 - kk * g,
        );
        assert(is_grouping(s, sg_view(out@), b, g));
        lemma_grouping_conserves_energy(s, sg_view(out@), b, g);
    }
    *spectrogram = out;
}

/// The dominant bin of one frame: scans the bins in order and keeps the first
/// bin whose windowed energy exceeds every windowed energy seen so far.
pub fn dominant_index(f: &Vec<u64>, w: usize) -> (r: usize)
    requires
        f.len() >= 1,
        frame_sum(f@) <= u64::MAX,
    ensures
        is_dominant_index(f@, w as int, r as int),
{
    let n = f.len();
    let mut best_idx: usize = 0;
    let mut best_sum: u64 = 0;
    let mut i: usize = 0;
    while i < n
        invariant
            n == f.len(),
            1 <= n,
            frame_sum(f@) <= u64::MAX,
            i <= n,
            i == 0 ==> best_idx == 0 && best_sum == 0,
            i > 0 ==> {
                &&& best_idx < i
                &&& best_sum as int == win_sum(f@, best_idx as int, w as int)
                &&& forall|jj: int| 0 <= jj < i ==> win_sum(f@, jj, w as int) <= best_sum as int
                &&& forall|jj: int| 0 <= jj < best_idx ==> win_sum(f@, jj, w as int) < best_sum
                    as int
            },
        decreases n - i,
    {
        let lo = if i >= w {
            i - w
        } else {
            0
        };
        let hi = if n - i <= w {
            n
        } else {
            i + w
        };
        proof {
            assert(lo as int == win_lo(i as int, w as int));
            assert(hi as int == win_hi(i as int, w as int, n as int));
        }
        let mut cur: u64 = 0;
        let mut j: usize = lo;
        while j < hi
            invariant
                n == f.len(),
                frame_sum(f@) <= u64::MAX,
                lo as int == win_lo(i as int, w as int),
                hi as int == win_hi(i as int, w as int, n as int),
                lo <= j <= hi <= n,
                cur as int == seq_sum(ints(f@), lo as int, j as int),
            decreases hi - j,
        {
            proof {
                let e = j as int;
                lemma_seq_sum_split(ints(f@), lo as int, e, e + 1);
                assert(seq_sum(ints(f@), e, e + 1) == ints(f@)[e] + seq_sum(ints(f@), e + 1, e
                    + 1));
                assert(forall|k: int| 0 <= k < n ==> 0 <= ints(f@)[k]);
                lemma_seq_sum_subrange_le(ints(f@), 0, n as int, lo as int, e + 1);
                lemma_seq_sum_nonneg(ints(f@), lo as int, e);
            }
            let v = f[j];
            cur = cur + v;
            j += 1;
        }
        if cur > best_sum {
            best_idx = i;
            best_sum = cur;
        }
        i += 1;
    }
    best_idx
}

/// The per-time-step dominant-frequency trace of a grouped spectrogram: for
/// each frame, the bin index whose windowed energy (half-width `SUM_STEP`)
/// is maximal, ties resolved to the lowest index.
pub fn get_frequencies(spectrogram: &Vec<Vec<u64>>) -> (r: Vec<usize>)
    requires
        spectrogram.len() >= 1,
        forall|t: int| 0 <= t < spectrogram.len() ==> (#[trigger] spectrogram@[t]@.len()) >= 1,
        forall|t: int|
            0 <= t < spectrogram.len() ==> frame_sum(#[trigger] spectrogram@[t]@) <= u64::MAX,
    ensures
        r.len() == spectrogram.len(),
        forall|t: int|
            0 <= t < spectrogram.len() ==> is_dominant_index(
                spectrogram@[t]@,
                SUM_STEP as int,
                (#[trigger] r@[t]) as int,
            ),
{
    let len = spectrogram.len();
    let mut out: Vec<usize> = Vec::new();
    for t in 0..len
        invariant
            len == spectrogram.len(),
            forall|k: int| 0 <= k < len ==> (#[trigger] spectrogram@[k]@.len()) >= 1,
            forall|k: int| 0 <= k < len ==> frame_sum(#[trigger] spectrogram@[k]@) <= u64::MAX,
            out.len() == t,
            forall|k: int|
                0 <= k < t ==> is_dominant_index(
                    spectrogram@[k]@,
                    SUM_STEP as int,
                    (#[trigger] out@[k]) as int,
                ),
    {
        let d = dominant_index(&spectrogram[t], SUM_STEP);
        out.push(d);
    }
    out
}

/// In a frame whose only energy sits in bin `p`, the windowed energy at bin
/// `i` is the spike when the window reaches `p` and zero otherwise.
proof fn lemma_window_sum_single_spike(f: Seq<u64>, p: int, i: int, w: int)
    requires
        0 <= p < f.len(),
        forall|j: int| 0 <= j < f.len() && j != p ==> f[j] == 0,
        0 <= w,
        0 <= i < f.len(),
    ensures
        win_sum(f, i, w) == if win_lo(i, w) <= p < win_hi(i, w, f.len() as int) {
            f[p] as int
        } else {
            0
        },
{
    let n = f.len() as int;
    let lo = win_lo(i, w);
    let hi = win_hi(i, w, n);
    if lo <= p < hi {
        lemma_seq_sum_split(ints(f), lo, p, hi);
        lemma_seq_sum_split(ints(f), p, p + 1, hi);
        assert(seq_sum(ints(f), p, p + 1) == ints(f)[p] + seq_sum(ints(f), p + 1, p + 1));
        lemma_seq_sum_zero(ints(f), lo, p);
        lemma_seq_sum_zero(ints(f), p + 1, hi);
    } else {
        lemma_seq_sum_zero(ints(f), lo, hi);
    }
}

/// Dominant bin of a single unambiguous spike: when all energy sits in bin
/// `p`, the scan with window half-width `w >= 1` lands on the lowest bin
/// whose window reaches `p`, which is `p - w + 1` clipped to 0. (With
/// `w == 1` that bin is `p` itself; a half-width of 0 makes every window
/// empty and the scan falls back to bin 0.)
pub proof fn lemma_single_spike_dominant(f: Seq<u64>, w: int, p: int, r: int)
    requires
        0 <= p < f.len(),
        f[p] > 0,
        forall|j: int| 0 <= j < f.len() && j != p ==> f[j] == 0,
        1 <= w,
        is_dominant_index(f, w, r),
    ensures
        r == if p - w + 1 >= 0 {
            p - w + 1
        } else {
            0
        },
{
    let n = f.len() as int;
    let istar = if p - w + 1 >= 0 {
        p - w + 1
    } else {
        0
    };
    lemma_window_sum_single_spike(f, p, istar, w);
    assert(win_sum(f, istar, w) == f[p] as int);
    lemma_window_sum_single_spike(f, p, r, w);
    assert(win_sum(f, r, w) >= win_sum(f, istar, w));
    assert(win_sum(f, r, w) == f[p] as int);
    assert(win_lo(r, w) <= p < win_hi(r, w, n));
    assert(r >= istar);
    if r > istar {
        assert(win_sum(f, istar, w) < win_sum(f, r, w));
    }
}

/// Every frame cut to its first half.
pub open spec fn truncated(s: Seq<Seq<u64>>) -> Seq<Seq<u64>> {
    Seq::new(s.len(), |t: int| s[t].subrange(0, s[t].len() as int / 2))
}

/// The grouping of `s` (whose frames all have `b` bins) in runs of `g`,
/// written out as a sequence of frames.
pub open spec fn grouping_of(s: Seq<Seq<u64>>, b: int, g: int) -> Seq<Seq<u64>> {
    Seq::new(
        group_count(s.len() as int, g) as nat,
        |k: int| Seq::new(b as nat, |i: int| run_sum(s, k * g, g, i) as u64),
    )
}

/// `is_grouping` pins the grouping down: any sequence of frames it relates
/// to `s` is exactly `grouping_of(s, b, g)`.
proof fn lemma_grouping_unique(s: Seq<Seq<u64>>, t: Seq<Seq<u64>>, b: int, g: int)
    requires
        1 <= g,
        0 <= b,
        is_grouping(s, t, b, g),
    ensures
        t == grouping_of(s, b, g),
{
    let w = grouping_of(s, b, g);
    assert(t.len() == w.len());
    assert forall|k: int| 0 <= k < t.len() implies t[k] == w[k] by {
        assert(t[k].len() == b);
        assert forall|i: int| 0 <= i < b implies t[k][i] == w[k][i] by {
            assert(t[k][i] as int == run_sum(s, k * g, g, i));
            assert(w[k][i] == run_sum(s, k * g, g, i) as u64);
        }
        assert(t[k] =~= w[k]);
    }
    assert(t =~= w);
}

/// Truncation never adds energy: the sum over each frame's first half is at
/// most the sum over the whole frame.
proof fn lemma_truncated_energy_le(s: Seq<Seq<u64>>)
    ensures
        total_energy(truncated(s)) <= total_energy(s),
{
    let tr = truncated(s);
    assert forall|t: int| 0 <= t < s.len() implies frame_sums(tr)[t] <= frame_sums(s)[t] by {
        let f = s[t];
        let h = f.len() as int / 2;
        assert(tr[t] == f.subrange(0, h));
        assert forall|i: int| 0 <= i < h implies ints(f.subrange(0, h))[i] == ints(f)[i] by {}
        lemma_seq_sum_congruence(ints(f.subrange(0, h)), ints(f), 0, h);
        lemma_seq_sum_subrange_le(ints(f), 0, f.len() as int, 0, h);
    }
    lemma_seq_sum_le(frame_sums(tr), frame_sums(s), 0, s.len() as int);
}

/// Every frame's energy is at most the spectrogram's total energy.
proof fn lemma_frame_le_total(s: Seq<Seq<u64>>, t: int)
    requires
        0 <= t < s.len(),
    ensures
        frame_sum(s[t]) <= total_energy(s),
{
    assert forall|k: int| 0 <= k < s.len() implies 0 <= frame_sums(s)[k] by {
        lemma_frame_sum_nonneg(s[k]);
    }
    lemma_seq_sum_element_le(frame_sums(s), 0, s.len() as int, t);
}

/// The whole spectral feature extractor: truncates every frame to the bins
/// below Nyquist, groups runs of `group_size` frames by element-wise
/// summation, and returns the dominant bin of each grouped frame — the
/// dominant-frequency trace, one bin index per grouped time step.
pub fn extract_trace(spectrogram: Vec<Vec<u64>>, group_size: usize) -> (r: Vec<usize>)
    requires
        spectrogram.len() >= 1,
        group_size >= 1,
        spectrogram.len() + group_size <= usize::MAX,
        uniform_width(sg_view(spectrogram@), spectrogram@[0]@.len() as int),
        spectrogram@[0]@.len() >= 2,
        total_energy(sg_view(spectrogram@)) <= u64::MAX,
    ensures
        r.len() == group_count(spectrogram@.len() as int, group_size as int),
        forall|k: int|
            0 <= k < r.len() ==> is_dominant_index(
                grouping_of(
                    truncated(sg_view(spectrogram@)),
                    spectrogram@[0]@.len() as int / 2,
                    group_size as int,
                )[k],
                SUM_STEP as int,
                (#[trigger] r@[k]) as int,
            ),
{
    let ghost s0 = sg_view(spectrogram@);
    let ghost b = spectrogram@[0]@.len() as int;
    let ghost g = group_size as int;
    let mut work = spectrogram;
    truncate_half(&mut work);
    proof {
        assert(sg_view(work@) =~= truncated(s0));
        assert forall|t: int| 0 <= t < truncated(s0).len() implies (#[trigger] truncated(
            s0,
        )[t].len()) == b / 2 by {
            assert(s0[t].len() == b);
        }
        lemma_truncated_energy_le(s0);
        assert(work@[0]@ =~= s0[0].subrange(0, b / 2));
    }
    group_by(&mut work, group_size);
    proof {
        lemma_grouping_unique(truncated(s0), sg_view(work@), b / 2, g);
        lemma_grouping_conserves_energy(truncated(s0), sg_view(work@), b / 2, g);
        // one group at least: n + g - 1 >= g, so the count is at least g / g
        let n = s0.len() as int;
        vstd::arithmetic::div_mod::lemma_div_by_self(g);
        vstd::arithmetic::div_mod::lemma_div_is_ordered(g, n + g - 1, g);
        // each grouped frame's energy fits, since the total does
        assert forall|t: int| 0 <= t < work@.len() implies frame_sum(
            #[trigger] work@[t]@,
        ) <= u64::MAX by {
            lemma_frame_le_total(sg_view(work@), t);
        }
        assert forall|t: int| 0 <= t < work@.len() implies (#[trigger] work@[t]@.len()) >= 1 by {
            assert(sg_view(work@)[t].len() == b / 2);
        }
    }
    get_frequencies(&work)
}

/// The single-spike scan with window half-width 1 returns the spike's bin.
pub proof fn lemma_single_spike_window_one(f: Seq<u64>, p: int, r: int)
    requires
        0 <= p < f.len(),
        f[p] > 0,
        forall|j: int| 0 <= j < f.len() && j != p ==> f[j] == 0,
        is_dominant_index(f, 1, r),
    ensures
        r == p,
{
    lemma_single_spike_dominant(f, 1, p, r);
}

} // verus!
