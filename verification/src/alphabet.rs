//! The decoding label space.
//!
//! The label space of a recognition model with alphabet `A` has size
//! `len(A) + 1`: label `0` is the reserved blank label meaning "no character
//! at this position", and label `i + 1` denotes the character `A[i]`. This
//! off-by-one mapping lives here and nowhere else.

use vstd::prelude::*;

verus! {

/// An ordered sequence of characters a recognition model can produce.
pub struct Alphabet {
    pub chars: Vec<char>,
}

/// Label indices the decoder must never emit. Computed from an
/// allowed-character restriction; never contains the blank label.
pub struct ExcludedLabelSet {
    pub labels: Vec<usize>,
}

impl ExcludedLabelSet {
    /// Every excluded label is a character label, never the blank.
    pub open spec fn wf(self) -> bool {
        forall|j: int| 0 <= j < self.labels@.len() ==> (#[trigger] self.labels@[j]) >= 1
    }

    /// Whether `label` is excluded.
    pub open spec fn spec_contains(self, label: int) -> bool {
        exists|j: int| 0 <= j < self.labels@.len() && self.labels@[j] == label
    }

    pub fn contains(&self, label: usize) -> (r: bool)
        ensures
            r == self.spec_contains(label as int),
    {
        let mut j: usize = 0;
        while j < self.labels.len()
            invariant
                j <= self.labels@.len(),
                forall|k: int| 0 <= k < j ==> (#[trigger] self.labels@[k]) != label,
            decreases self.labels@.len() - j,
        {
            if self.labels[j] == label {
                return true;
            }
            j += 1;
        }
        false
    }
}

/// Whether `c` occurs in `chars`.
pub open spec fn chars_contain(chars: Seq<char>, c: char) -> bool {
    exists|i: int| 0 <= i < chars.len() && chars[i] == c
}

fn vec_contains_char(chars: &Vec<char>, c: char) -> (r: bool)
    ensures
        r == chars_contain(chars@, c),
{
    let mut i: usize = 0;
    while i < chars.len()
        invariant
            i <= chars@.len(),
            forall|k: int| 0 <= k < i ==> (#[trigger] chars@[k]) != c,
        decreases chars@.len() - i,
    {
        if chars[i] == c {
            return true;
        }
        i += 1;
    }
    false
}

impl Alphabet {
    pub fn new(chars: Vec<char>) -> (a: Alphabet)
        ensures
            a.chars@ == chars@,
    {
        Alphabet { chars }
    }

    pub fn len(&self) -> (n: usize)
        ensures
            n == self.chars@.len(),
    {
        self.chars.len()
    }

    /// Size of the label space: one label per character, plus the blank.
    pub fn label_count(&self) -> (n: usize)
        requires
            self.chars@.len() < usize::MAX,
        ensures
            n == self.chars@.len() + 1,
    {
        self.chars.len() + 1
    }

    /// The character denoted by `label`, or `None` for the blank label and
    /// for labels outside the label space.
    pub fn char_for_label(&self, label: usize) -> (r: Option<char>)
        ensures
            r is Some <==> 1 <= label <= self.chars@.len(),
            r is Some ==> r->Some_0 == self.chars@[label - 1],
    {
        if label >= 1 && label <= self.chars.len() {
            Some(self.chars[label - 1])
        } else {
            None
        }
    }

    /// The labels of every alphabet character that does not occur in
    /// `allowed`: restricting decoding to `allowed` excludes exactly these.
    ///
    /// The result never contains the blank label, lists its labels in
    /// strictly increasing order, and contains the label `i + 1` if and
    /// only if `allowed` lacks the character at index `i`.
    pub fn excluded_labels(&self, allowed: &Vec<char>) -> (ex: ExcludedLabelSet)
        requires
            self.chars@.len() < usize::MAX,
        ensures
            ex.wf(),
            forall|i: int|
                0 <= i < self.chars@.len()
                    ==> (ex.spec_contains(i + 1) <==> !chars_contain(
                    allowed@,
                    #[trigger] self.chars@[i],
                )),
            forall|j: int|
                0 <= j < ex.labels@.len() ==> 1 <= (#[trigger] ex.labels@[j])
                    <= self.chars@.len(),
            forall|j1: int, j2: int|
                #![trigger ex.labels@[j1], ex.labels@[j2]]
                0 <= j1 < j2 < ex.labels@.len() ==> ex.labels@[j1] < ex.labels@[j2],
    {
        let mut labels: Vec<usize> = Vec::new();
        let mut i: usize = 0;
        while i < self.chars.len()
            invariant
                i <= self.chars@.len(),
                self.chars@.len() < usize::MAX,
                forall|j: int|
                    0 <= j < labels@.len() ==> 1 <= (#[trigger] labels@[j]) <= i,
                forall|j1: int, j2: int|
                    #![trigger labels@[j1], labels@[j2]]
                    0 <= j1 < j2 < labels@.len() ==> labels@[j1] < labels@[j2],
                forall|ii: int|
                    0 <= ii < i
                        ==> ((exists|j: int|
                            0 <= j < labels@.len() && labels@[j] == ii + 1) <==> !chars_contain(
                        allowed@,
                        #[trigger] self.chars@[ii],
                    )),
            decreases self.chars@.len() - i,
        {
            if !vec_contains_char(allowed, self.chars[i]) {
                let ghost labels0 = labels@;
                labels.push(i + 1);
                proof {
                    assert(labels@[labels0.len() as int] == i + 1);
                    assert forall|ii: int| 0 <= ii < i + 1 implies ((exists|j: int|
                        0 <= j < labels@.len() && labels@[j] == ii + 1) <==> !chars_contain(
                        allowed@,
                        #[trigger] self.chars@[ii],
                    )) by {
                        if ii < i {
                            if exists|j: int| 0 <= j < labels@.len() && labels@[j] == ii + 1 {
                                let j = choose|j: int|
                                    0 <= j < labels@.len() && labels@[j] == ii + 1;
                                assert(j < labels0.len());
                                assert(labels0[j] == ii + 1);
                            }
                            if exists|j: int| 0 <= j < labels0.len() && labels0[j] == ii + 1 {
                                let j = choose|j: int|
                                    0 <= j < labels0.len() && labels0[j] == ii + 1;
                                assert(labels@[j] == ii + 1);
                            }
                        }
                    }
                }
            }
            i += 1;
        }
        let ex = ExcludedLabelSet { labels };
        proof {
            assert forall|i: int| 0 <= i < self.chars@.len() implies (ex.spec_contains(i + 1)
                <==> !chars_contain(allowed@, #[trigger] self.chars@[i])) by {
                if ex.spec_contains(i + 1) {
                    let j = choose|j: int|
                        0 <= j < ex.labels@.len() && ex.labels@[j] == i + 1;
                    assert(labels@[j] == i + 1);
                }
                if exists|j: int| 0 <= j < labels@.len() && labels@[j] == i + 1 {
                    let j = choose|j: int| 0 <= j < labels@.len() && labels@[j] == i + 1;
                    assert(ex.labels@[j] == i + 1);
                }
            }
        }
        ex
    }
}

} // verus!
