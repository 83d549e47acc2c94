use vstd::prelude::*;
use vstd::string::StringSliceAdditionalSpecFns;

verus! {

/// The byte is one of the vowels `a e i o u`, in either case.
pub open spec fn is_vowel(c: u8) -> bool {
    c == 97u8 || c == 101u8 || c == 105u8 || c == 111u8 || c == 117u8 || c == 65u8 || c == 69u8
        || c == 73u8 || c == 79u8 || c == 85u8
}

/// Where the run of vowels that ends just before `n` starts; `n` itself if `b[n - 1]` is
/// no vowel.
pub open spec fn run_start(b: Seq<u8>, n: int) -> int
    decreases n,
{
    if n > 0 && is_vowel(b[n - 1]) {
        run_start(b, n - 1)
    } else {
        n
    }
}

/// The maximal runs of vowels that a non-vowel closes before index `n`, as
/// `(start, end)` pairs in order.
pub open spec fn closed_runs(b: Seq<u8>, n: int) -> Seq<(int, int)>
    decreases n,
{
    if n <= 0 {
        seq![]
    } else {
        let prev = closed_runs(b, n - 1);
        if !is_vowel(b[n - 1]) && run_start(b, n - 1) < n - 1 {
            prev.push((run_start(b, n - 1), n - 1))
        } else {
            prev
        }
    }
}

/// All maximal runs of vowels of `b`, as `(start, end)` pairs in order.
pub open spec fn vowel_runs(b: Seq<u8>) -> Seq<(int, int)> {
    let s = run_start(b, b.len() as int);
    if s < b.len() {
        closed_runs(b, b.len() as int).push((s, b.len() as int))
    } else {
        closed_runs(b, b.len() as int)
    }
}

/// The runs of `b` as `(k, start, bytes of the run)`.
pub open spec fn runs_of(k: int, b: Seq<u8>, runs: Seq<(int, int)>) -> Seq<(int, int, Seq<u8>)> {
    runs.map(|_i: int, p: (int, int)| (k, p.0, b.subrange(p.0, p.1)))
}

/// The runs of vowels of the first `k` strings, each with the index of its string.
pub open spec fn vowels_before(strings: Seq<&str>, k: int) -> Seq<(int, int, Seq<u8>)>
    decreases k,
{
    if k <= 0 {
        seq![]
    } else {
        let b = strings[k - 1].spec_bytes();
        vowels_before(strings, k - 1) + runs_of(k - 1, b, vowel_runs(b))
    }
}

/// The triples handed out, with each slice read as its bytes.
pub open spec fn triples_view(r: Seq<(usize, usize, &[u8])>) -> Seq<(int, int, Seq<u8>)> {
    r.map(|_i: int, t: (usize, usize, &[u8])| (t.0 as int, t.1 as int, t.2@))
}

fn is_vowel_byte(c: u8) -> (r: bool)
    ensures
        r == is_vowel(c),
{
    c == 97u8 || c == 101u8 || c == 105u8 || c == 111u8 || c == 117u8 || c == 65u8 || c == 69u8
        || c == 73u8 || c == 79u8 || c == 85u8
}

/// Every maximal run of the vowels `a e i o u`, in either case, in each string: the
/// string's index, the run's byte offset in it, and the run's bytes, borrowed from the
/// string. Strings in order, runs in order within each string.
pub fn vowels_slices<'a>(strings: &'a [&'a str]) -> (r: Vec<(usize, usize, &'a [u8])>)
    ensures
        triples_view(r@) == vowels_before(strings@, strings@.len() as int),
{
    let mut out: Vec<(usize, usize, &'a [u8])> = Vec::new();
    let mut k: usize = 0;
    while k < strings.len()
        invariant
            k <= strings@.len(),
            triples_view(out@) == vowels_before(strings@, k as int),
        decreases strings@.len() - k,
    {
        let b: &'a [u8] = strings[k].as_bytes();
        let ghost prefix = vowels_before(strings@, k as int);
        let mut start: usize = 0;
        let mut p: usize = 0;
        while p < b.len()
            invariant
                p <= b@.len(),
                start == run_start(b@, p as int),
                start <= p,
                triples_view(out@) == prefix + runs_of(k as int, b@, closed_runs(b@, p as int)),
            decreases b@.len() - p,
        {
            if !is_vowel_byte(b[p]) {
                if start < p {
                    let run = vstd::slice::slice_subrange(b, start, p);
                    let ghost before = out@;
                    out.push((k, start, run));
                    proof {
                        assert(triples_view(out@) =~= triples_view(before).push((k as int, start as int, run@)));
                        assert(runs_of(k as int, b@, closed_runs(b@, p + 1)) =~= runs_of(k as int, b@, closed_runs(b@, p as int)).push((k as int, start as int, run@)));
                    }
                }
                start = p + 1;
            }
            p = p + 1;
        }
        if start < b.len() {
            let run = vstd::slice::slice_subrange(b, start, b.len());
            let ghost before = out@;
            out.push((k, start, run));
            proof {
                assert(triples_view(out@) =~= triples_view(before).push((k as int, start as int, run@)));
            }
        }
        proof {
            assert(triples_view(out@) =~= prefix + runs_of(k as int, b@, vowel_runs(b@)));
        }
        k = k + 1;
    }
    out
}

} // verus!
