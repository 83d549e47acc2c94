use vstd::prelude::*;

use crate::vowels::{triples_view, vowels_before, vowels_slices};

verus! {

/// The byte with an ASCII capital letter turned into its small letter.
pub open spec fn lower(c: u8) -> u8 {
    if 65 <= c <= 90 {
        (c + 32) as u8
    } else {
        c
    }
}

/// The bytes with ASCII letters in lower case.
pub open spec fn fold(b: Seq<u8>) -> Seq<u8> {
    b.map(|_i: int, c: u8| lower(c))
}

/// What two runs are compared by: their folded bytes, or the bytes themselves.
pub open spec fn key_of(b: Seq<u8>, ignore_case: bool) -> Seq<u8> {
    if ignore_case {
        fold(b)
    } else {
        b
    }
}

/// `a` comes before `b` in dictionary order, looking from index `i` on, where the two
/// agree before `i`: at the first index where they differ the smaller byte comes first,
/// and a sequence comes before any longer one that it begins.
pub open spec fn lex_lt_from(a: Seq<u8>, b: Seq<u8>, i: int) -> bool
    decreases a.len() - i,
{
    if i >= a.len() {
        i < b.len()
    } else if i >= b.len() {
        false
    } else if a[i] != b[i] {
        a[i] < b[i]
    } else {
        lex_lt_from(a, b, i + 1)
    }
}

/// `a` comes strictly before `b` in dictionary order.
pub open spec fn lex_lt(a: Seq<u8>, b: Seq<u8>) -> bool {
    lex_lt_from(a, b, 0)
}

proof fn lemma_lex_asym(a: Seq<u8>, b: Seq<u8>, i: int)
    requires
        0 <= i,
    ensures
        !(lex_lt_from(a, b, i) && lex_lt_from(b, a, i)),
    decreases a.len() - i,
{
    if i < a.len() && i < b.len() && a[i] == b[i] {
        lemma_lex_asym(a, b, i + 1);
    }
}

proof fn lemma_lex_total(a: Seq<u8>, b: Seq<u8>, i: int)
    requires
        0 <= i <= a.len(),
        i <= b.len(),
        forall|k: int| 0 <= k < i ==> a[k] == b[k],
        !lex_lt_from(a, b, i),
        !lex_lt_from(b, a, i),
    ensures
        a == b,
    decreases a.len() - i,
{
    if i < a.len() && i < b.len() {
        lemma_lex_total(a, b, i + 1);
    } else {
        assert(a =~= b);
    }
}

proof fn lemma_lex_trans(a: Seq<u8>, b: Seq<u8>, c: Seq<u8>, i: int)
    requires
        0 <= i,
        lex_lt_from(a, b, i),
        lex_lt_from(b, c, i),
    ensures
        lex_lt_from(a, c, i),
    decreases a.len() - i,
{
    if i < a.len() && i < b.len() && i < c.len() && a[i] == b[i] && b[i] == c[i] {
        lemma_lex_trans(a, b, c, i + 1);
    }
}

/// A run of bytes borrowed from an input string, compared without regard to ASCII case.
#[derive(Clone, Copy, Debug)]
pub struct StrWrap<'a>(pub &'a [u8]);

impl<'a> StrWrap<'a> {
    /// The bytes of the run.
    pub fn as_bytes(&self) -> (r: &'a [u8])
        ensures
            r@ == self.0@,
    {
        self.0
    }

    /// The bytes of the run with ASCII letters in lower case.
    pub fn to_lowercase(&self) -> (r: Vec<u8>)
        ensures
            r@ == fold(self.0@),
    {
        let mut out: Vec<u8> = Vec::new();
        let mut i: usize = 0;
        while i < self.0.len()
            invariant
                i <= self.0@.len(),
                out@ == fold(self.0@.subrange(0, i as int)),
            decreases self.0@.len() - i,
        {
            let c = self.0[i];
            let l = if 65 <= c && c <= 90 { c + 32 } else { c };
            out.push(l);
            i = i + 1;
            assert(out@ =~= fold(self.0@.subrange(0, i as int)));
        }
        assert(self.0@.subrange(0, i as int) =~= self.0@);
        out
    }
}

/// Whether two runs have the same key.
fn same_key(a: &[u8], b: &[u8], ignore_case: bool) -> (r: bool)
    ensures
        r == (key_of(a@, ignore_case) == key_of(b@, ignore_case)),
{
    if a.len() != b.len() {
        proof {
            assert(key_of(a@, ignore_case).len() != key_of(b@, ignore_case).len());
        }
        return false;
    }
    let mut i: usize = 0;
    while i < a.len()
        invariant
            a@.len() == b@.len(),
            i <= a@.len(),
            forall|k: int| 0 <= k < i ==> key_of(a@, ignore_case)[k] == key_of(b@, ignore_case)[k],
        decreases a@.len() - i,
    {
        let x = a[i];
        let y = b[i];
        let (x, y) = if ignore_case {
            (if 65 <= x && x <= 90 { x + 32 } else { x }, if 65 <= y && y <= 90 { y + 32 } else { y })
        } else {
            (x, y)
        };
        if x != y {
            proof {
                assert(key_of(a@, ignore_case)[i as int] != key_of(b@, ignore_case)[i as int]);
            }
            return false;
        }
        i = i + 1;
    }
    proof {
        assert(key_of(a@, ignore_case) =~= key_of(b@, ignore_case));
    }
    true
}

/// Whether the key of `a` comes strictly before the key of `b` in dictionary order.
fn key_less(a: &[u8], b: &[u8], ignore_case: bool) -> (r: bool)
    ensures
        r == lex_lt(key_of(a@, ignore_case), key_of(b@, ignore_case)),
{
    let ghost ka = key_of(a@, ignore_case);
    let ghost kb = key_of(b@, ignore_case);
    let mut i: usize = 0;
    loop
        invariant
            i <= a@.len(),
            i <= b@.len(),
            ka.len() == a@.len(),
            kb.len() == b@.len(),
            ka == key_of(a@, ignore_case),
            kb == key_of(b@, ignore_case),
            lex_lt(ka, kb) == lex_lt_from(ka, kb, i as int),
        decreases a@.len() - i,
    {
        if i >= a.len() {
            return i < b.len();
        }
        if i >= b.len() {
            return false;
        }
        let x = a[i];
        let y = b[i];
        let (x, y) = if ignore_case {
            (if 65 <= x && x <= 90 { x + 32 } else { x }, if 65 <= y && y <= 90 { y + 32 } else { y })
        } else {
            (x, y)
        };
        assert(ka[i as int] == x && kb[i as int] == y);
        if x != y {
            return x < y;
        }
        i = i + 1;
    }
}

impl<'a> PartialEq for StrWrap<'a> {
    fn eq(&self, other: &StrWrap<'a>) -> (r: bool) {
        same_key(self.0, other.0, true)
    }
}

impl<'a> vstd::std_specs::cmp::PartialEqSpecImpl for StrWrap<'a> {
    open spec fn obeys_eq_spec() -> bool {
        true
    }

    open spec fn eq_spec(&self, other: &StrWrap<'a>) -> bool {
        fold(self.0@) == fold(other.0@)
    }
}

impl<'a> Eq for StrWrap<'a> {}

/// How the key of `a` stands to the key of `b` in dictionary order.
pub open spec fn key_order(a: Seq<u8>, b: Seq<u8>) -> core::cmp::Ordering {
    if lex_lt(fold(a), fold(b)) {
        core::cmp::Ordering::Less
    } else if fold(a) == fold(b) {
        core::cmp::Ordering::Equal
    } else {
        core::cmp::Ordering::Greater
    }
}

impl<'a> PartialOrd for StrWrap<'a> {
    fn partial_cmp(&self, other: &StrWrap<'a>) -> (r: Option<core::cmp::Ordering>) {
        if key_less(self.0, other.0, true) {
            Some(core::cmp::Ordering::Less)
        } else if same_key(self.0, other.0, true) {
            Some(core::cmp::Ordering::Equal)
        } else {
            Some(core::cmp::Ordering::Greater)
        }
    }
}

impl<'a> vstd::std_specs::cmp::PartialOrdSpecImpl for StrWrap<'a> {
    open spec fn obeys_partial_cmp_spec() -> bool {
        true
    }

    open spec fn partial_cmp_spec(&self, other: &StrWrap<'a>) -> Option<core::cmp::Ordering> {
        Some(key_order(self.0@, other.0@))
    }
}

/// The count after one more occurrence, held at the largest `u32`.
pub open spec fn bump(n: u32) -> u32 {
    if n == u32::MAX {
        n
    } else {
        (n + 1) as u32
    }
}

/// Where a run with key `x` goes into a table of distinct, ordered keys: after every
/// key that comes before `x` and before every key that comes after it.
pub open spec fn is_slot(t: Seq<(Seq<u8>, u32)>, x: Seq<u8>, ignore_case: bool, p: int) -> bool {
    &&& 0 <= p <= t.len()
    &&& forall|m: int| 0 <= m < p ==> lex_lt(key_of(#[trigger] t[m].0, ignore_case), x)
    &&& forall|m: int| p <= m < t.len() ==> lex_lt(x, key_of(#[trigger] t[m].0, ignore_case))
}

/// The table of distinct keys among `runs`, each with the first run that has it and the
/// number of runs that have it (held at the largest `u32`), in dictionary order of the
/// keys.
pub open spec fn tally(runs: Seq<Seq<u8>>, ignore_case: bool) -> Seq<(Seq<u8>, u32)>
    decreases runs.len(),
{
    if runs.len() == 0 {
        seq![]
    } else {
        let t = tally(runs.drop_last(), ignore_case);
        let x = runs.last();
        if exists|i: int| 0 <= i < t.len() && key_of(#[trigger] t[i].0, ignore_case) == key_of(x, ignore_case) {
            let i = choose|i: int| 0 <= i < t.len() && key_of(#[trigger] t[i].0, ignore_case) == key_of(x, ignore_case);
            t.update(i, (t[i].0, bump(t[i].1)))
        } else {
            let p = choose|p: int| is_slot(t, key_of(x, ignore_case), ignore_case, p);
            t.insert(p, (x, 1u32))
        }
    }
}

/// The keys of the table stand in strictly ascending dictionary order, so none twice.
pub open spec fn keys_ordered(t: Seq<(Seq<u8>, u32)>, ignore_case: bool) -> bool {
    forall|i: int, k: int|
        0 <= i < k < t.len() ==> lex_lt(key_of(#[trigger] t[i].0, ignore_case), key_of(#[trigger] t[k].0, ignore_case))
}

/// The bytes of the vowel runs of `strings`, in order.
pub open spec fn run_bytes(strings: Seq<&str>) -> Seq<Seq<u8>> {
    vowels_before(strings, strings.len() as int).map(|_i: int, t: (int, int, Seq<u8>)| t.2)
}

/// The table handed out, with each run read as its bytes.
pub open spec fn table_view(r: Seq<(StrWrap, u32)>) -> Seq<(Seq<u8>, u32)> {
    r.map(|_i: int, e: (StrWrap, u32)| (e.0.0@, e.1))
}

fn count_runs<'a>(strings: &'a [&'a str], ignore_case: bool) -> (r: Vec<(StrWrap<'a>, u32)>)
    ensures
        table_view(r@) == tally(run_bytes(strings@), ignore_case),
        keys_ordered(table_view(r@), ignore_case),
{
    let runs = vowels_slices(strings);
    let ghost all = run_bytes(strings@);
    proof {
        assert(all =~= triples_view(runs@).map(|_i: int, t: (int, int, Seq<u8>)| t.2));
    }
    let mut table: Vec<(StrWrap<'a>, u32)> = Vec::new();
    let mut k: usize = 0;
    while k < runs.len()
        invariant
            k <= runs@.len(),
            all.len() == runs@.len(),
            forall|m: int| 0 <= m < runs@.len() ==> all[m] == (#[trigger] runs@[m]).2@,
            table_view(table@) == tally(all.subrange(0, k as int), ignore_case),
            keys_ordered(table_view(table@), ignore_case),
        decreases runs@.len() - k,
    {
        let run = runs[k].2;
        let ghost t = table_view(table@);
        let ghost x = key_of(run@, ignore_case);
        proof {
            assert(all.subrange(0, k + 1).drop_last() =~= all.subrange(0, k as int));
        }
        let mut i: usize = 0;
        while i < table.len() && key_less(table[i].0.0, run, ignore_case)
            invariant
                i <= table@.len(),
                t == table_view(table@),
                x == key_of(run@, ignore_case),
                forall|m: int| 0 <= m < i ==> lex_lt(key_of(#[trigger] t[m].0, ignore_case), x),
            decreases table@.len() - i,
        {
            assert(t[i as int].0 == table@[i as int].0.0@);
            i = i + 1;
        }
        proof {
            assert(all[k as int] == run@);
            if i < t.len() {
                assert(t[i as int].0 == table@[i as int].0.0@);
            }
        }
        if i < table.len() && same_key(table[i].0.0, run, ignore_case) {
            let count = table[i].1;
            let entry = (table[i].0, if count == u32::MAX { count } else { count + 1 });
            table.set(i, entry);
            proof {
                let j = choose|j: int| 0 <= j < t.len() && key_of(#[trigger] t[j].0, ignore_case) == key_of(all[k as int], ignore_case);
                if j != i as int {
                    if j < i {
                        lemma_lex_asym(key_of(t[j].0, ignore_case), key_of(t[i as int].0, ignore_case), 0);
                    } else {
                        lemma_lex_asym(key_of(t[i as int].0, ignore_case), key_of(t[j].0, ignore_case), 0);
                    }
                }
                assert(table_view(table@) =~= t.update(i as int, (t[i as int].0, bump(t[i as int].1))));
            }
        } else {
            proof {
                if i < t.len() {
                    let ki = key_of(t[i as int].0, ignore_case);
                    if !lex_lt(x, ki) {
                        lemma_lex_total(ki, x, 0);
                    }
                    assert forall|m: int| i <= m < t.len() implies lex_lt(x, key_of(#[trigger] t[m].0, ignore_case)) by {
                        if m > i {
                            lemma_lex_trans(x, ki, key_of(t[m].0, ignore_case), 0);
                        }
                    }
                }
                assert(is_slot(t, x, ignore_case, i as int));
                assert forall|m: int| 0 <= m < t.len() implies key_of(#[trigger] t[m].0, ignore_case) != x by {
                    lemma_lex_asym(x, x, 0);
                }
                let p = choose|p: int| is_slot(t, x, ignore_case, p);
                if p < i {
                    lemma_lex_asym(x, key_of(t[p].0, ignore_case), 0);
                } else if p > i {
                    lemma_lex_asym(x, key_of(t[i as int].0, ignore_case), 0);
                }
                assert(p == i);
            }
            table.insert(i, (StrWrap(run), 1));
            proof {
                let nt = table_view(table@);
                assert(nt =~= t.insert(i as int, (run@, 1u32)));
                assert forall|a: int, b: int| 0 <= a < b < nt.len() implies
                    lex_lt(key_of(#[trigger] nt[a].0, ignore_case), key_of(#[trigger] nt[b].0, ignore_case)) by {
                    if a < i && b > i {
                        lemma_lex_trans(key_of(nt[a].0, ignore_case), x, key_of(nt[b].0, ignore_case), 0);
                    }
                    if b < i {
                        assert(nt[a] == t[a] && nt[b] == t[b]);
                    } else if a > i {
                        assert(nt[a] == t[a - 1] && nt[b] == t[b - 1]);
                    } else if a < i && b > i {
                        assert(nt[a] == t[a] && nt[b] == t[b - 1]);
                    } else if a == i {
                        assert(nt[b] == t[b - 1]);
                    } else {
                        assert(nt[a] == t[a]);
                    }
                }
            }
        }
        k = k + 1;
    }
    proof {
        assert(all.subrange(0, k as int) =~= all);
    }
    table
}

/// Each distinct run of vowels in `strings`, compared without regard to ASCII case, with
/// the number of times it occurs (held at the largest `u32`). Each entry holds the first
/// such run; entries come in dictionary order of the runs in lower case.
pub fn vowels_slices_occurrences<'a>(strings: &'a [&'a str]) -> (r: Vec<(StrWrap<'a>, u32)>)
    ensures
        table_view(r@) == tally(run_bytes(strings@), true),
        keys_ordered(table_view(r@), true),
{
    count_runs(strings, true)
}

/// As `vowels_slices_occurrences`, but runs that differ in case are counted apart.
pub fn vowels_slices_occurrences_case_sensitive<'a>(strings: &'a [&'a str]) -> (r: Vec<(StrWrap<'a>, u32)>)
    ensures
        table_view(r@) == tally(run_bytes(strings@), false),
        keys_ordered(table_view(r@), false),
{
    count_runs(strings, false)
}

} // verus!
