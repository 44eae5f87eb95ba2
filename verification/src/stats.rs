//! Counters of the arithmetic backends used by a scheme.
use crate::text::{decimal, push_decimal};
use vstd::prelude::*;

verus! {

/// The arithmetic backends whose use is counted, in the lexicographic order
/// of their names.
#[derive(Clone, Copy, Debug, PartialEq, Eq, Structural)]
pub enum Backend {
    /// Inversion in a cyclic group algebra.
    CyclicInvert,
    /// Dihedral inversion through the cyclic subring.
    DihedralCyclicInvert,
    /// Dihedral multiplication by the fft-dihedral crate.
    FftDihedralMultiply,
    /// Symmetric-group multiplication by the fft-symmetric crate.
    FftSymmetricMultiply,
    /// Inversion by solving a linear system.
    LinearSolveInvert,
    /// Schoolbook multiplication.
    NaiveMultiply,
}

/// The number of backends.
pub const BACKEND_COUNT: usize = 6;

/// The position of a backend in the counter table.
pub open spec fn backend_slot(b: Backend) -> int {
    match b {
        Backend::CyclicInvert => 0,
        Backend::DihedralCyclicInvert => 1,
        Backend::FftDihedralMultiply => 2,
        Backend::FftSymmetricMultiply => 3,
        Backend::LinearSolveInvert => 4,
        Backend::NaiveMultiply => 5,
    }
}

/// The counter name of the backend in slot `i`.
pub open spec fn slot_name(i: int) -> Seq<char> {
    if i == 0 {
        "cyclic:invert"@
    } else if i == 1 {
        "dihedral-cyclic:invert"@
    } else if i == 2 {
        "fft-dihedral:multiply"@
    } else if i == 3 {
        "fft-symmetric:multiply"@
    } else if i == 4 {
        "linear-solve:invert"@
    } else {
        "naive:multiply"@
    }
}

fn slot_name_str(i: usize) -> (r: &'static str)
    requires
        i < BACKEND_COUNT,
    ensures
        r@ == slot_name(i as int),
{
    if i == 0 {
        "cyclic:invert"
    } else if i == 1 {
        "dihedral-cyclic:invert"
    } else if i == 2 {
        "fft-dihedral:multiply"
    } else if i == 3 {
        "fft-symmetric:multiply"
    } else if i == 4 {
        "linear-solve:invert"
    } else {
        "naive:multiply"
    }
}

/// Counters by backend name; a name is present once its backend was used.
#[derive(Clone, Debug, PartialEq, Eq)]
pub struct CounterMap {
    counts: Vec<usize>,
}

impl View for CounterMap {
    type V = Seq<usize>;

    /// The count of each backend, by slot.
    closed spec fn view(&self) -> Seq<usize> {
        self.counts@
    }
}

impl CounterMap {
    /// The counter table has one slot per backend.
    pub open spec fn wf(&self) -> bool {
        self@.len() == BACKEND_COUNT
    }

    /// The map from the names of the backends used to their counts.
    pub open spec fn as_map(&self) -> Map<Seq<char>, nat> {
        Map::new(
            |name: Seq<char>|
                exists|i: int| 0 <= i < BACKEND_COUNT && slot_name(i) == name && self@[i] > 0,
            |name: Seq<char>|
                self@[choose|i: int|
                    0 <= i < BACKEND_COUNT && slot_name(i) == name && self@[i] > 0] as nat,
        )
    }

    /// Whether the backend named `name` has been used.
    pub fn contains_key(&self, name: &str) -> (r: bool)
        requires
            self.wf(),
        ensures
            r == self.as_map().dom().contains(name@),
    {
        let key = name.to_owned();
        let mut i: usize = 0;
        while i < BACKEND_COUNT
            invariant
                self.wf(),
                key@ == name@,
                self@.len() == BACKEND_COUNT,
                forall|k: int| 0 <= k < i ==> !(slot_name(k) == name@ && self@[k] > 0),
            decreases BACKEND_COUNT - i,
        {
            let candidate = slot_name_str(i).to_owned();
            if candidate == key && self.counts[i] > 0 {
                return true;
            }
            i = i + 1;
        }
        false
    }

    /// The count of the backend named `name`, if it has been used.
    pub fn get(&self, name: &str) -> (r: Option<usize>)
        requires
            self.wf(),
        ensures
            r matches Some(c) ==> self.as_map().dom().contains(name@) && self.as_map()[name@] == c,
            r is None ==> !self.as_map().dom().contains(name@),
    {
        let key = name.to_owned();
        let mut i: usize = 0;
        while i < BACKEND_COUNT
            invariant
                self.wf(),
                key@ == name@,
                self@.len() == BACKEND_COUNT,
                forall|k: int| 0 <= k < i ==> !(slot_name(k) == name@ && self@[k] > 0),
            decreases BACKEND_COUNT - i,
        {
            let candidate = slot_name_str(i).to_owned();
            if candidate == key && self.counts[i] > 0 {
                proof {
                    lemma_slot_names_distinct();
                }
                return Some(self.counts[i]);
            }
            i = i + 1;
        }
        None
    }

    /// Whether no backend has been used.
    pub fn is_empty(&self) -> (r: bool)
        requires
            self.wf(),
        ensures
            r == (forall|i: int| 0 <= i < BACKEND_COUNT ==> self@[i] == 0),
    {
        let mut i: usize = 0;
        while i < BACKEND_COUNT
            invariant
                self@.len() == BACKEND_COUNT,
                forall|k: int| 0 <= k < i ==> self@[k] == 0,
            decreases BACKEND_COUNT - i,
        {
            if self.counts[i] > 0 {
                return false;
            }
            i = i + 1;
        }
        true
    }
}

proof fn lemma_slot_names_distinct()
    ensures
        forall|i: int, j: int|
            0 <= i < BACKEND_COUNT && 0 <= j < BACKEND_COUNT && i != j ==> slot_name(i) != slot_name(
                j,
            ),
{
    reveal_strlit("cyclic:invert");
    reveal_strlit("dihedral-cyclic:invert");
    reveal_strlit("fft-dihedral:multiply");
    reveal_strlit("fft-symmetric:multiply");
    reveal_strlit("linear-solve:invert");
    reveal_strlit("naive:multiply");
    assert("cyclic:invert"@[0] == 'c');
    assert("dihedral-cyclic:invert"@[0] == 'd');
    assert("fft-dihedral:multiply"@[4] == 'd');
    assert("fft-symmetric:multiply"@[4] == 's');
    assert("linear-solve:invert"@[0] == 'l');
    assert("naive:multiply"@[0] == 'n');
    assert("fft-dihedral:multiply"@[0] == 'f');
    assert("fft-symmetric:multiply"@[0] == 'f');
}

/// The text `name=count` for every used backend, in slot order, separated by `", "`,
/// over the slots from `from` on.
pub open spec fn format_counts(counts: Seq<usize>, from: int, first: bool) -> Seq<char>
    decreases BACKEND_COUNT - from,
{
    if from >= BACKEND_COUNT {
        Seq::empty()
    } else if counts[from] == 0 {
        format_counts(counts, from + 1, first)
    } else {
        (if first {
            Seq::empty()
        } else {
            ", "@
        }) + slot_name(from) + seq!['='] + decimal(counts[from] as nat) + format_counts(
            counts,
            from + 1,
            false,
        )
    }
}

/// The counters after one more use of `backend`; a counter stops at `usize::MAX`.
pub open spec fn bumped(counts: Seq<usize>, backend: Backend) -> Seq<usize> {
    let slot = backend_slot(backend);
    counts.update(
        slot,
        (if counts[slot] < usize::MAX {
            counts[slot] + 1
        } else {
            counts[slot] as int
        }) as usize,
    )
}

/// Backend call counters from a run.
#[derive(Clone, Debug, PartialEq, Eq)]
pub struct BackendStats {
    counts: CounterMap,
}

impl View for BackendStats {
    type V = Seq<usize>;

    closed spec fn view(&self) -> Seq<usize> {
        self.counts@
    }
}

impl BackendStats {
    /// Every backend has a counter.
    pub open spec fn wf(&self) -> bool {
        self@.len() == BACKEND_COUNT
    }

    /// Counters that are all zero.
    pub fn new() -> (r: Self)
        ensures
            r.wf(),
            r@ == Seq::new(BACKEND_COUNT as nat, |i: int| 0usize),
    {
        let mut counts: Vec<usize> = Vec::new();
        for i in 0..BACKEND_COUNT
            invariant
                counts@ == Seq::new(i as nat, |k: int| 0usize),
        {
            counts.push(0);
            assert(counts@ =~= Seq::new((i + 1) as nat, |k: int| 0usize));
        }
        BackendStats { counts: CounterMap { counts } }
    }

    /// Count one use of `backend`.
    pub fn record(&mut self, backend: Backend)
        requires
            old(self).wf(),
        ensures
            final(self).wf(),
            final(self)@ == bumped(old(self)@, backend),
    {
        let slot: usize = match backend {
            Backend::CyclicInvert => 0,
            Backend::DihedralCyclicInvert => 1,
            Backend::FftDihedralMultiply => 2,
            Backend::FftSymmetricMultiply => 3,
            Backend::LinearSolveInvert => 4,
            Backend::NaiveMultiply => 5,
        };
        let current = self.counts.counts[slot];
        // the count stops at `usize::MAX` rather than overflowing
        let next = if current < usize::MAX {
            current + 1
        } else {
            current
        };
        self.counts.counts.set(slot, next);
    }

    /// A copy of the counters.
    pub fn snapshot(&self) -> (r: Self)
        ensures
            r@ == self@,
    {
        let mut counts: Vec<usize> = Vec::new();
        for i in 0..self.counts.counts.len()
            invariant
                counts@ == self@.take(i as int),
                self@ == self.counts.counts@,
        {
            counts.push(self.counts.counts[i]);
            assert(counts@ =~= self@.take(i + 1));
        }
        assert(self@.take(self@.len() as int) =~= self@);
        BackendStats { counts: CounterMap { counts } }
    }

    /// Return all backend counters.
    pub fn counts(&self) -> (r: &CounterMap)
        ensures
            r@ == self@,
            self.wf() ==> r.wf(),
    {
        &self.counts
    }

    /// Format counters as a compact comma-separated string.
    pub fn format(&self) -> (r: String)
        requires
            self.wf(),
        ensures
            r@ == format_counts(self@, 0, true),
    {
        let mut out = String::new();
        let mut first = true;
        let mut i: usize = 0;
        while i < BACKEND_COUNT
            invariant
                self.wf(),
                self@.len() == BACKEND_COUNT,
                i <= BACKEND_COUNT,
                out@ + format_counts(self@, i as int, first) == format_counts(self@, 0, true),
            decreases BACKEND_COUNT - i,
        {
            let count = self.counts.counts[i];
            if count > 0 {
                let ghost before = out@;
                if !first {
                    out.append(", ");
                }
                out.append(slot_name_str(i));
                out.append("=");
                push_decimal(&mut out, count as u64);
                proof {
                    reveal_strlit("=");
                    assert(out@ =~= before + (if first {
                        Seq::empty()
                    } else {
                        ", "@
                    }) + slot_name(i as int) + seq!['='] + decimal(count as nat));
                }
                first = false;
            }
            i = i + 1;
        }
        out
    }
}

} // verus!
