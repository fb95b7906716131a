//! DNS names as sequences of labels.
//!
//! A name is held as its labels, most specific first, always fully
//! qualified; the root name has no labels. Comparisons in the resolver are
//! ASCII case-insensitive, written here as comparison of folded names.

use vstd::prelude::*;

verus! {

/// A DNS name: labels from the most specific to the zone root.
pub struct DnsName {
    pub labels: Vec<Vec<u8>>,
}

impl View for DnsName {
    type V = Seq<Seq<u8>>;

    open spec fn view(&self) -> Seq<Seq<u8>> {
        Seq::new(self.labels@.len(), |i: int| self.labels@[i]@)
    }
}

/// ASCII upper-case letters mapped to lower case; all other bytes unchanged.
pub open spec fn fold_byte(b: u8) -> u8 {
    if 65 <= b <= 90 {
        (b + 32) as u8
    } else {
        b
    }
}

/// A label folded to lower case.
pub open spec fn fold_label(l: Seq<u8>) -> Seq<u8> {
    Seq::new(l.len(), |i: int| fold_byte(l[i]))
}

/// A name folded to lower case, label by label.
pub open spec fn fold_name(n: Seq<Seq<u8>>) -> Seq<Seq<u8>> {
    Seq::new(n.len(), |i: int| fold_label(n[i]))
}

/// Well-formedness of a name: labels of 1 to 63 bytes, at most 127 labels.
pub open spec fn name_wf(n: Seq<Seq<u8>>) -> bool {
    n.len() <= 127 && forall|i: int| 0 <= i < n.len() ==> 1 <= (#[trigger] n[i]).len() <= 63
}

/// `o` names a zone that contains `n`: `o`'s labels are a suffix of `n`'s.
pub open spec fn is_suffix_of(o: Seq<Seq<u8>>, n: Seq<Seq<u8>>) -> bool {
    o.len() <= n.len() && n.skip(n.len() - o.len()) == o
}

/// Folding twice folds once.
pub proof fn lemma_fold_name_idempotent(n: Seq<Seq<u8>>)
    ensures
        fold_name(fold_name(n)) == fold_name(n),
{
    assert forall|i: int| 0 <= i < n.len()
        implies #[trigger] fold_name(fold_name(n))[i] == fold_name(n)[i] by {
        assert(fold_label(fold_label(n[i])) =~= fold_label(n[i]));
    }
    assert(fold_name(fold_name(n)) =~= fold_name(n));
}

impl DnsName {
    /// The empty (root) name.
    pub fn root() -> (r: DnsName)
        ensures
            r@ =~= Seq::<Seq<u8>>::empty(),
    {
        DnsName { labels: Vec::new() }
    }

    /// How many labels the name has.
    pub fn num_labels(&self) -> (r: usize)
        ensures
            r == self@.len(),
    {
        self.labels.len()
    }

    /// A copy of this name folded to lower case.
    pub fn folded(&self) -> (r: DnsName)
        ensures
            r@ == fold_name(self@),
    {
        let mut labels: Vec<Vec<u8>> = Vec::new();
        let mut i: usize = 0;
        while i < self.labels.len()
            invariant
                0 <= i <= self.labels@.len(),
                labels@.len() == i,
                forall|j: int| 0 <= j < i ==> #[trigger] labels@[j]@ == fold_label(self@[j]),
            decreases self.labels@.len() - i,
        {
            labels.push(fold_label_bytes(&self.labels[i]));
            i = i + 1;
        }
        let r = DnsName { labels };
        proof {
            assert(r@ =~= fold_name(self@));
        }
        r
    }

    /// Clones the name.
    pub fn clone_name(&self) -> (r: DnsName)
        ensures
            r@ == self@,
    {
        let mut labels: Vec<Vec<u8>> = Vec::new();
        let mut i: usize = 0;
        while i < self.labels.len()
            invariant
                0 <= i <= self.labels@.len(),
                labels@.len() == i,
                forall|j: int| 0 <= j < i ==> #[trigger] labels@[j]@ == self@[j],
            decreases self.labels@.len() - i,
        {
            labels.push(clone_bytes(&self.labels[i]));
            i = i + 1;
        }
        let r = DnsName { labels };
        proof {
            assert(r@ =~= self@);
        }
        r
    }

    /// Whether the names are equal, byte for byte.
    pub fn equals(&self, other: &DnsName) -> (r: bool)
        ensures
            r == (self@ == other@),
    {
        if self.labels.len() != other.labels.len() {
            proof {
                assert(self@.len() != other@.len());
            }
            return false;
        }
        let mut i: usize = 0;
        while i < self.labels.len()
            invariant
                self@.len() == other@.len(),
                0 <= i <= self.labels@.len(),
                forall|j: int| 0 <= j < i ==> #[trigger] self@[j] == other@[j],
            decreases self.labels@.len() - i,
        {
            if !bytes_equal(&self.labels[i], &other.labels[i]) {
                proof {
                    assert(self@[i as int] != other@[i as int]);
                }
                return false;
            }
            i = i + 1;
        }
        proof {
            assert(self@ =~= other@);
        }
        true
    }

    /// Whether `self`, as a zone origin, contains `name`: `self`'s labels
    /// are a suffix of `name`'s labels.
    pub fn zone_of(&self, name: &DnsName) -> (r: bool)
        ensures
            r == is_suffix_of(self@, name@),
    {
        if self.labels.len() > name.labels.len() {
            return false;
        }
        let off = name.labels.len() - self.labels.len();
        let mut i: usize = 0;
        while i < self.labels.len()
            invariant
                self@.len() <= name@.len(),
                off == name@.len() - self@.len(),
                off + self.labels@.len() == name.labels@.len(),
                name.labels.len() == name.labels@.len(),
                0 <= i <= self.labels@.len(),
                forall|j: int| 0 <= j < i ==> #[trigger] self@[j] == name@[off + j],
            decreases self.labels@.len() - i,
        {
            if !bytes_equal(&self.labels[i], &name.labels[off + i]) {
                proof {
                    assert(name@.skip(name@.len() - self@.len())[i as int] == name@[off + i]);
                }
                return false;
            }
            i = i + 1;
        }
        proof {
            assert(name@.skip(name@.len() - self@.len()) =~= self@);
        }
        true
    }

    /// The labels strictly below position `k` from the end: for a name with
    /// `n` labels, the first `n - k` labels.
    pub fn prefix(&self, keep: usize) -> (r: DnsName)
        requires
            keep <= self@.len(),
        ensures
            r@ == self@.take(keep as int),
    {
        let mut labels: Vec<Vec<u8>> = Vec::new();
        let mut i: usize = 0;
        while i < keep
            invariant
                keep <= self.labels@.len(),
                0 <= i <= keep,
                labels@.len() == i,
                forall|j: int| 0 <= j < i ==> #[trigger] labels@[j]@ == self@[j],
            decreases keep - i,
        {
            labels.push(clone_bytes(&self.labels[i]));
            i = i + 1;
        }
        let r = DnsName { labels };
        proof {
            assert(r@ =~= self@.take(keep as int));
        }
        r
    }

    /// The label at position `i` from the front.
    pub fn label_at(&self, i: usize) -> (r: &Vec<u8>)
        requires
            i < self@.len(),
        ensures
            r@ == self@[i as int],
    {
        &self.labels[i]
    }
}

/// Whether two byte strings are equal.
pub fn bytes_equal(a: &Vec<u8>, b: &Vec<u8>) -> (r: bool)
    ensures
        r == (a@ == b@),
{
    if a.len() != b.len() {
        return false;
    }
    let mut i: usize = 0;
    while i < a.len()
        invariant
            a@.len() == b@.len(),
            0 <= i <= a@.len(),
            forall|j: int| 0 <= j < i ==> a@[j] == b@[j],
        decreases a@.len() - i,
    {
        if a[i] != b[i] {
            return false;
        }
        i = i + 1;
    }
    proof {
        assert(a@ =~= b@);
    }
    true
}

/// A copy of a byte string.
pub fn clone_bytes(a: &Vec<u8>) -> (r: Vec<u8>)
    ensures
        r@ == a@,
{
    let mut out: Vec<u8> = Vec::new();
    let mut i: usize = 0;
    while i < a.len()
        invariant
            0 <= i <= a@.len(),
            out@ =~= a@.take(i as int),
        decreases a@.len() - i,
    {
        out.push(a[i]);
        i = i + 1;
    }
    proof {
        assert(a@.take(a@.len() as int) =~= a@);
    }
    out
}

/// A byte string folded to lower case.
pub fn fold_label_bytes(l: &Vec<u8>) -> (r: Vec<u8>)
    ensures
        r@ == fold_label(l@),
{
    let mut out: Vec<u8> = Vec::new();
    let mut i: usize = 0;
    while i < l.len()
        invariant
            0 <= i <= l@.len(),
            out@.len() == i,
            forall|j: int| 0 <= j < i ==> out@[j] == fold_byte(l@[j]),
        decreases l@.len() - i,
    {
        let b = l[i];
        if 65 <= b && b <= 90 {
            out.push(b + 32);
        } else {
            out.push(b);
        }
        i = i + 1;
    }
    proof {
        assert(out@ =~= fold_label(l@));
    }
    out
}

/// The position of the first dot at or after `i`, or the length if none.
pub open spec fn first_dot(s: Seq<u8>, i: int) -> int
    decreases s.len() - i,
    when 0 <= i <= s.len()
{
    if i >= s.len() {
        s.len() as int
    } else if s[i] == 46 {
        i
    } else {
        first_dot(s, i + 1)
    }
}

/// `first_dot` stays within the string.
pub proof fn lemma_first_dot_bounds(s: Seq<u8>, i: int)
    requires
        0 <= i <= s.len(),
    ensures
        i <= first_dot(s, i) <= s.len(),
    decreases s.len() - i,
{
    if i < s.len() && s[i] != 46 {
        lemma_first_dot_bounds(s, i + 1);
    }
}

/// The labels of the dotted name text from position `i` on, or `None` on an
/// empty or over-long label. A trailing dot ends the name.
pub open spec fn split_labels(s: Seq<u8>, i: int) -> Option<Seq<Seq<u8>>>
    decreases s.len() - i,
    when 0 <= i <= s.len()
    via split_labels_decreases
{
    if i >= s.len() {
        Some(Seq::empty())
    } else {
        let d = first_dot(s, i);
        if d == i || d - i > 63 {
            None
        } else if d >= s.len() {
            Some(seq![s.subrange(i, s.len() as int)])
        } else {
            match split_labels(s, d + 1) {
                None => None,
                Some(rest) => Some(seq![s.subrange(i, d)] + rest),
            }
        }
    }
}

#[via_fn]
proof fn split_labels_decreases(s: Seq<u8>, i: int) {
    if 0 <= i < s.len() {
        lemma_first_dot_bounds(s, i);
    }
}

/// The name a dotted text denotes: `"a.b."` and `"a.b"` both name
/// `[a, b]`, `"."` and `""` the root. `None` on an empty or over-long label
/// or on more than 127 labels.
pub open spec fn parse_name_text_spec(s: Seq<u8>) -> Option<Seq<Seq<u8>>> {
    if s.len() == 1 && s[0] == 46 {
        Some(Seq::empty())
    } else {
        match split_labels(s, 0) {
            None => None,
            Some(labels) => if labels.len() <= 127 {
                Some(labels)
            } else {
                None
            },
        }
    }
}

/// The position of the first dot at or after `i`.
fn first_dot_exec(s: &Vec<u8>, i: usize) -> (r: usize)
    requires
        i <= s@.len(),
    ensures
        r == first_dot(s@, i as int),
        i <= r <= s@.len(),
    decreases s@.len() - i,
{
    if i >= s.len() {
        s.len()
    } else if s[i] == 46 {
        i
    } else {
        first_dot_exec(s, i + 1)
    }
}

/// The labels of the dotted name text from position `i` on.
fn split_labels_exec(s: &Vec<u8>, i: usize) -> (r: Option<Vec<Vec<u8>>>)
    requires
        i <= s@.len(),
    ensures
        match r {
            Some(labels) => split_labels(s@, i as int)
                == Some(Seq::new(labels@.len(), |j: int| labels@[j]@)),
            None => split_labels(s@, i as int) is None,
        },
    decreases s@.len() - i,
{
    if i >= s.len() {
        let r: Vec<Vec<u8>> = Vec::new();
        proof {
            assert(Seq::new(r@.len(), |j: int| r@[j]@) =~= Seq::<Seq<u8>>::empty());
        }
        return Some(r);
    }
    let d = first_dot_exec(s, i);
    if d == i || d - i > 63 {
        return None;
    }
    let mut label: Vec<u8> = Vec::new();
    let mut k: usize = i;
    let hi = if d < s.len() { d } else { s.len() };
    while k < hi
        invariant
            i <= k <= hi <= s@.len(),
            label@ =~= s@.subrange(i as int, k as int),
        decreases hi - k,
    {
        label.push(s[k]);
        k = k + 1;
    }
    if d >= s.len() {
        let mut out: Vec<Vec<u8>> = Vec::new();
        out.push(label);
        proof {
            assert(Seq::new(out@.len(), |j: int| out@[j]@)
                =~= seq![s@.subrange(i as int, s@.len() as int)]);
        }
        return Some(out);
    }
    match split_labels_exec(s, d + 1) {
        None => None,
        Some(rest) => {
            let ghost spec_rest = Seq::new(rest@.len(), |j: int| rest@[j]@);
            let mut out: Vec<Vec<u8>> = Vec::new();
            out.push(label);
            let mut j: usize = 0;
            while j < rest.len()
                invariant
                    i < d <= s@.len(),
                    0 <= j <= rest@.len(),
                    out@.len() == j + 1,
                    out@[0]@ == s@.subrange(i as int, d as int),
                    forall|m: int| 1 <= m < j + 1 ==> #[trigger] out@[m]@ == rest@[m - 1]@,
                decreases rest@.len() - j,
            {
                let l = clone_bytes(&rest[j]);
                out.push(l);
                j = j + 1;
            }
            proof {
                let whole = seq![s@.subrange(i as int, d as int)] + spec_rest;
                assert(Seq::new(out@.len(), |j: int| out@[j]@) =~= whole);
            }
            Some(out)
        },
    }
}

/// Parses a dotted name text (`"irohdns.example."`) into a name.
/// Returns `None` unless every label is 1 to 63 bytes and the name has at
/// most 127 labels; `"."` and the empty text name the root.
pub fn parse_name_text(s: &Vec<u8>) -> (r: Option<DnsName>)
    ensures
        match r {
            Some(n) => parse_name_text_spec(s@) == Some(n@) && name_wf(n@),
            None => parse_name_text_spec(s@) is None,
        },
{
    if s.len() == 1 && s[0] == 46 {
        return Some(DnsName { labels: Vec::new() });
    }
    match split_labels_exec(s, 0) {
        None => None,
        Some(labels) => {
            if labels.len() <= 127 {
                let n = DnsName { labels };
                proof {
                    lemma_split_labels_wf(s@, 0);
                }
                Some(n)
            } else {
                None
            }
        },
    }
}

/// Labels produced by `split_labels` are 1 to 63 bytes long.
proof fn lemma_split_labels_wf(s: Seq<u8>, i: int)
    requires
        0 <= i <= s.len(),
    ensures
        match split_labels(s, i) {
            Some(labels) => forall|j: int|
                0 <= j < labels.len() ==> 1 <= (#[trigger] labels[j]).len() <= 63,
            None => true,
        },
    decreases s.len() - i,
{
    if i >= s.len() {
    } else {
        let d = first_dot(s, i);
        lemma_first_dot_bounds(s, i);
        if d == i || d - i > 63 {
        } else if d >= s.len() {
        } else {
            lemma_split_labels_wf(s, d + 1);
        }
    }
}

} // verus!
