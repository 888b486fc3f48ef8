//! Planning a batch run: which image files take part, which container
//! file goes with each, and how the jobs are shared out among workers.
//!
//! An image file takes part when its name is `S`, three digits, then
//! `PACK.png` (twelve bytes in all); its container file is named `S`, the
//! same three digits, then `TMPK.BIN`. The jobs are cut into as many
//! contiguous slices as there are workers, each slice as large as the
//! others give or take one.

use vstd::prelude::*;
use vstd::arithmetic::div_mod::{lemma_div_is_ordered, lemma_div_multiples_vanish};
use vstd::arithmetic::mul::lemma_mul_inequality;
use vstd::string::StringSliceAdditionalSpecFns;

verus! {

/// `c` is an ASCII decimal digit.
pub open spec fn is_digit_byte(c: u8) -> bool {
    48 <= c <= 57
}

/// `c` is an ASCII decimal digit.
pub fn is_digit(c: u8) -> (r: bool)
    ensures
        r == is_digit_byte(c),
{
    48 <= c && c <= 57
}

/// The bytes of `PACK.png`.
pub open spec fn image_suffix() -> Seq<u8> {
    seq![80u8, 65u8, 67u8, 75u8, 46u8, 112u8, 110u8, 103u8]
}

/// The bytes of `TMPK.BIN`.
pub open spec fn container_suffix() -> Seq<u8> {
    seq![84u8, 77u8, 80u8, 75u8, 46u8, 66u8, 73u8, 78u8]
}

/// `name` is the name of an image that takes part in a batch:
/// `S`, three digits, `PACK.png`.
pub open spec fn is_image_name(name: Seq<u8>) -> bool {
    &&& name.len() == 12
    &&& name[0] == 83
    &&& is_digit_byte(name[1])
    &&& is_digit_byte(name[2])
    &&& is_digit_byte(name[3])
    &&& name.subrange(4, 12) == image_suffix()
}

/// Whether the file named `filename` is an image that takes part in a batch.
pub fn full_image_file(filename: &str) -> (r: bool)
    ensures
        r == is_image_name(filename.spec_bytes()),
{
    let bytes = filename.as_bytes();
    if bytes.len() != 12 {
        return false;
    }
    // "S", three digits, "PACK.png"
    let ok = bytes[0] == 83 && is_digit(bytes[1]) && is_digit(bytes[2]) && is_digit(bytes[3])
        && bytes[4] == 80 && bytes[5] == 65 && bytes[6] == 67 && bytes[7] == 75 && bytes[8] == 46
        && bytes[9] == 112 && bytes[10] == 110 && bytes[11] == 103;
    assert(ok == is_image_name(bytes@)) by {
        if ok {
            assert(bytes@.subrange(4, 12) =~= image_suffix());
        }
        if is_image_name(bytes@) {
            assert(bytes@.subrange(4, 12)[0] == image_suffix()[0]);
            assert(bytes@.subrange(4, 12)[1] == image_suffix()[1]);
            assert(bytes@.subrange(4, 12)[2] == image_suffix()[2]);
            assert(bytes@.subrange(4, 12)[3] == image_suffix()[3]);
            assert(bytes@.subrange(4, 12)[4] == image_suffix()[4]);
            assert(bytes@.subrange(4, 12)[5] == image_suffix()[5]);
            assert(bytes@.subrange(4, 12)[6] == image_suffix()[6]);
            assert(bytes@.subrange(4, 12)[7] == image_suffix()[7]);
        }
    }
    ok
}

/// The name of the container file that goes with the image `name`.
pub open spec fn container_name_of(name: Seq<u8>) -> Seq<u8> {
    seq![83u8, name[1], name[2], name[3]] + container_suffix()
}

/// The name, as bytes, of the container file that goes with the image file
/// `filename`, or `None` when that image does not take part in a batch.
pub fn paired_container_name(filename: &str) -> (r: Option<Vec<u8>>)
    ensures
        match r {
            Some(name) => is_image_name(filename.spec_bytes()) && name@ == container_name_of(
                filename.spec_bytes(),
            ),
            None => !is_image_name(filename.spec_bytes()),
        },
{
    if !full_image_file(filename) {
        return None;
    }
    let bytes = filename.as_bytes();
    let mut name: Vec<u8> = Vec::new();
    // "S", the three digits, "TMPK.BIN"
    name.push(83);
    name.push(bytes[1]);
    name.push(bytes[2]);
    name.push(bytes[3]);
    name.push(84);
    name.push(77);
    name.push(80);
    name.push(75);
    name.push(46);
    name.push(66);
    name.push(73);
    name.push(78);
    assert(name@ =~= container_name_of(bytes@));
    Some(name)
}

/// Where slice `i` of `n` jobs shared among `w` workers begins.
pub open spec fn slice_start(n: int, w: int, i: int) -> int {
    i * n / w
}

/// Job `job` lies in slice `i`.
pub open spec fn in_slice(n: int, w: int, i: int, job: int) -> bool {
    slice_start(n, w, i) <= job < slice_start(n, w, i + 1)
}

/// Slice starts never decrease, and none passes the number of jobs.
pub proof fn lemma_slice_start_ordered(n: int, w: int, i: int, k: int)
    requires
        0 <= n,
        1 <= w,
        0 <= i <= k <= w,
    ensures
        0 <= slice_start(n, w, i) <= slice_start(n, w, k) <= n,
{
    lemma_mul_inequality(i, k, n);
    lemma_mul_inequality(k, w, n);
    lemma_mul_inequality(0, i, n);
    lemma_div_is_ordered(i * n, k * n, w);
    lemma_div_is_ordered(k * n, w * n, w);
    lemma_div_is_ordered(0, i * n, w);
    lemma_div_multiples_vanish(n, w);
    assert(w * n == n * w) by (nonlinear_arith);
}

/// Cuts `n_jobs` jobs into `workers` contiguous slices, given as
/// `(start, end)` pairs, that together cover every job once.
pub fn partition(n_jobs: usize, workers: usize) -> (r: Vec<(usize, usize)>)
    requires
        workers >= 1,
    ensures
        r@.len() == workers,
        forall|i: int|
            0 <= i < workers ==> #[trigger] r@[i] == (
                slice_start(n_jobs as int, workers as int, i) as usize,
                slice_start(n_jobs as int, workers as int, i + 1) as usize,
            ),
        forall|i: int|
            0 <= i < workers ==> (#[trigger] r@[i]).0 <= r@[i].1 <= n_jobs,
{
    let mut out: Vec<(usize, usize)> = Vec::new();
    let mut i: usize = 0;
    while i < workers
        invariant
            workers >= 1,
            i <= workers,
            out@.len() == i,
            forall|j: int|
                0 <= j < i ==> #[trigger] out@[j] == (
                    slice_start(n_jobs as int, workers as int, j) as usize,
                    slice_start(n_jobs as int, workers as int, j + 1) as usize,
                ),
            forall|j: int| 0 <= j < i ==> (#[trigger] out@[j]).0 <= out@[j].1 <= n_jobs,
        decreases workers - i,
    {
        proof {
            lemma_slice_start_ordered(n_jobs as int, workers as int, i as int, i + 1);
        }
        assert((i as u128 + 1) * (n_jobs as u128) <= 0xffff_ffff_ffff_ffff_u128 * 0xffff_ffff_ffff_ffff_u128)
            by (nonlinear_arith)
            requires
                i < workers,
                workers <= 0xffff_ffff_ffff_ffff_u128,
                n_jobs <= 0xffff_ffff_ffff_ffff_u128,
        ;
        assert(i as u128 * (n_jobs as u128) <= (i as u128 + 1) * (n_jobs as u128)) by (nonlinear_arith);
        let start = (i as u128 * n_jobs as u128 / workers as u128) as usize;
        let end = ((i as u128 + 1) * n_jobs as u128 / workers as u128) as usize;
        out.push((start, end));
        i = i + 1;
    }
    out
}

/// However many workers share the jobs, every job lies in exactly one
/// slice: the slices run from the first job to the last without gap or
/// overlap.
pub proof fn lemma_partition_covers(n: int, w: int, job: int)
    requires
        0 <= n,
        1 <= w,
        0 <= job < n,
    ensures
        exists|i: int| 0 <= i < w && #[trigger] in_slice(n, w, i, job),
        forall|i: int, k: int|
            0 <= i < w && 0 <= k < w && #[trigger] in_slice(n, w, i, job) && #[trigger] in_slice(
                n,
                w,
                k,
                job,
            ) ==> i == k,
{
    lemma_mul_inequality(0, 0, n);
    lemma_div_multiples_vanish(n, w);
    assert(w * n == n * w) by (nonlinear_arith);
    assert(slice_start(n, w, 0) == 0);
    assert(slice_start(n, w, w) == n);
    lemma_job_below(n, w, job, w);
    assert forall|i: int, k: int|
        0 <= i < w && 0 <= k < w && #[trigger] in_slice(n, w, i, job) && #[trigger] in_slice(
            n,
            w,
            k,
            job,
        ) implies i == k by {
        if i < k {
            lemma_slice_start_ordered(n, w, i + 1, k);
        } else if k < i {
            lemma_slice_start_ordered(n, w, k + 1, i);
        }
    }
}

/// A job below the start of slice `k` lies in one of the slices before it.
proof fn lemma_job_below(n: int, w: int, job: int, k: int)
    requires
        0 <= n,
        1 <= w,
        0 <= job,
        0 <= k <= w,
        job < slice_start(n, w, k),
    ensures
        exists|i: int| 0 <= i < k && #[trigger] in_slice(n, w, i, job),
    decreases k,
{
    lemma_mul_inequality(0, 0, n);
    assert(slice_start(n, w, 0) == 0);
    if k > 0 {
        if slice_start(n, w, k - 1) <= job {
            assert(in_slice(n, w, k - 1, job));
        } else {
            lemma_job_below(n, w, job, k - 1);
        }
    }
}

} // verus!
