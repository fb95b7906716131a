//! The TXT attribute format: space-separated `name=value` pairs.
//!
//! A node announce carries its data as one TXT string of attributes. A part
//! without `=` is skipped; values under one name keep their order; names
//! keep the order of their first appearance.

use vstd::prelude::*;
use crate::name::{bytes_equal, clone_bytes};

verus! {

/// The position of the first byte `sep` at or after `i`, or the length.
pub open spec fn first_sep(s: Seq<u8>, sep: u8, i: int) -> int
    decreases s.len() - i,
    when 0 <= i <= s.len()
{
    if i >= s.len() {
        s.len() as int
    } else if s[i] == sep {
        i
    } else {
        first_sep(s, sep, i + 1)
    }
}

/// `first_sep` stays within the string.
pub proof fn lemma_first_sep_bounds(s: Seq<u8>, sep: u8, i: int)
    requires
        0 <= i <= s.len(),
    ensures
        i <= first_sep(s, sep, i) <= s.len(),
    decreases s.len() - i,
{
    if i < s.len() && s[i] != sep {
        lemma_first_sep_bounds(s, sep, i + 1);
    }
}

/// The parts of `s` from position `i` on, split at every byte `sep`;
/// there is always at least one part, and parts may be empty.
pub open spec fn split_parts(s: Seq<u8>, sep: u8, i: int) -> Seq<Seq<u8>>
    decreases s.len() - i,
    when 0 <= i <= s.len()
    via split_parts_decreases
{
    let d = first_sep(s, sep, i);
    if d >= s.len() {
        seq![s.subrange(i, s.len() as int)]
    } else {
        seq![s.subrange(i, d)] + split_parts(s, sep, d + 1)
    }
}

#[via_fn]
proof fn split_parts_decreases(s: Seq<u8>, sep: u8, i: int) {
    lemma_first_sep_bounds(s, sep, i);
}

/// The position of the first byte `sep` at or after `i`.
pub fn first_sep_exec(s: &Vec<u8>, sep: u8, i: usize) -> (r: usize)
    requires
        i <= s@.len(),
    ensures
        r == first_sep(s@, sep, i as int),
        i <= r <= s@.len(),
    decreases s@.len() - i,
{
    if i >= s.len() {
        s.len()
    } else if s[i] == sep {
        i
    } else {
        first_sep_exec(s, sep, i + 1)
    }
}

/// The parts of `s` from position `i` on, split at every byte `sep`.
pub fn split_parts_exec(s: &Vec<u8>, sep: u8, i: usize) -> (r: Vec<Vec<u8>>)
    requires
        i <= s@.len(),
    ensures
        split_parts(s@, sep, i as int) == Seq::new(r@.len(), |j: int| r@[j]@),
    decreases s@.len() - i,
{
    let d = first_sep_exec(s, sep, i);
    let mut part: Vec<u8> = Vec::new();
    let mut k: usize = i;
    while k < d
        invariant
            i <= k <= d <= s@.len(),
            part@ =~= s@.subrange(i as int, k as int),
        decreases d - k,
    {
        part.push(s[k]);
        k = k + 1;
    }
    if d >= s.len() {
        let mut out: Vec<Vec<u8>> = Vec::new();
        out.push(part);
        proof {
            assert(split_parts(s@, sep, i as int) =~= Seq::new(out@.len(), |j: int| out@[j]@));
        }
        out
    } else {
        let rest = split_parts_exec(s, sep, d + 1);
        let mut out: Vec<Vec<u8>> = Vec::new();
        out.push(part);
        let mut j: usize = 0;
        while j < rest.len()
            invariant
                i <= d < s@.len(),
                0 <= j <= rest@.len(),
                out@.len() == j + 1,
                out@[0]@ == s@.subrange(i as int, d as int),
                forall|m: int| 1 <= m < j + 1 ==> #[trigger] out@[m]@ == rest@[m - 1]@,
            decreases rest@.len() - j,
        {
            let l = clone_bytes(&rest[j]);
            out.push(l);
            j = j + 1;
        }
        proof {
            let spec_rest = Seq::new(rest@.len(), |m: int| rest@[m]@);
            assert(Seq::new(out@.len(), |m: int| out@[m]@)
                =~= seq![s@.subrange(i as int, d as int)] + spec_rest);
        }
        out
    }
}

/// A part split at its first `=`: the name and the value, or `None` when
/// the part has no `=`.
pub open spec fn split_once_eq(part: Seq<u8>) -> Option<(Seq<u8>, Seq<u8>)> {
    let d = first_sep(part, 61, 0);
    if d >= part.len() {
        None
    } else {
        Some((part.subrange(0, d), part.subrange(d + 1, part.len() as int)))
    }
}

/// Attribute entries: names with their values, in order of appearance.
pub struct AttrMap {
    pub entries: Vec<(Vec<u8>, Vec<Vec<u8>>)>,
}

/// The view of one attribute entry.
pub open spec fn entry_view(e: (Vec<u8>, Vec<Vec<u8>>)) -> (Seq<u8>, Seq<Seq<u8>>) {
    (e.0@, Seq::new(e.1@.len(), |i: int| e.1@[i]@))
}

impl View for AttrMap {
    type V = Seq<(Seq<u8>, Seq<Seq<u8>>)>;

    open spec fn view(&self) -> Seq<(Seq<u8>, Seq<Seq<u8>>)> {
        Seq::new(self.entries@.len(), |i: int| entry_view(self.entries@[i]))
    }
}

/// The index of the entry named `k` at or after `i`, if any.
pub open spec fn find_entry(entries: Seq<(Seq<u8>, Seq<Seq<u8>>)>, k: Seq<u8>, i: int) -> Option<
    int,
>
    decreases entries.len() - i,
    when 0 <= i <= entries.len()
{
    if i >= entries.len() {
        None
    } else if entries[i].0 == k {
        Some(i)
    } else {
        find_entry(entries, k, i + 1)
    }
}

/// Adds one value under a name: appended to the name's entry, or a new
/// entry at the end.
pub open spec fn add_attr(
    entries: Seq<(Seq<u8>, Seq<Seq<u8>>)>,
    k: Seq<u8>,
    v: Seq<u8>,
) -> Seq<(Seq<u8>, Seq<Seq<u8>>)> {
    match find_entry(entries, k, 0) {
        Some(i) => entries.update(i, (k, entries[i].1.push(v))),
        None => entries.push((k, seq![v])),
    }
}

/// The attribute entries a run of parts yields.
pub open spec fn attrs_of(parts: Seq<Seq<u8>>) -> Seq<(Seq<u8>, Seq<Seq<u8>>)>
    decreases parts.len(),
{
    if parts.len() == 0 {
        Seq::empty()
    } else {
        let prev = attrs_of(parts.drop_last());
        match split_once_eq(parts.last()) {
            None => prev,
            Some((k, v)) => add_attr(prev, k, v),
        }
    }
}

/// The attribute entries of a whole attribute string.
pub open spec fn parse_attrs_spec(s: Seq<u8>) -> Seq<(Seq<u8>, Seq<Seq<u8>>)> {
    attrs_of(split_parts(s, 32, 0))
}

/// Splits an attribute string at spaces and gathers `name=value` parts
/// into entries; parts without `=` are skipped.
#[verifier::loop_isolation(false)]
pub fn parse_attrs(s: &Vec<u8>) -> (r: AttrMap)
    ensures
        r@ == parse_attrs_spec(s@),
{
    let parts = split_parts_exec(s, 32, 0);
    let ghost parts_v = Seq::new(parts@.len(), |j: int| parts@[j]@);
    let mut map = AttrMap { entries: Vec::new() };
    let mut k: usize = 0;
    proof {
        assert(parts_v.take(0) =~= Seq::<Seq<u8>>::empty());
        assert(map@ =~= attrs_of(parts_v.take(0)));
    }
    while k < parts.len()
        invariant
            0 <= k <= parts@.len(),
            map@ == attrs_of(parts_v.take(k as int)),
        decreases parts@.len() - k,
    {
        let part = &parts[k];
        proof {
            assert(parts_v.take(k + 1).drop_last() =~= parts_v.take(k as int));
            assert(parts_v.take(k + 1).last() == part@);
        }
        let d = first_sep_exec(part, 61, 0);
        if d < part.len() {
            let mut name: Vec<u8> = Vec::new();
            let mut i: usize = 0;
            while i < d
                invariant
                    0 <= i <= d <= part@.len(),
                    name@ =~= part@.subrange(0, i as int),
                decreases d - i,
            {
                name.push(part[i]);
                i = i + 1;
            }
            let mut value: Vec<u8> = Vec::new();
            let mut j: usize = d + 1;
            while j < part.len()
                invariant
                    d < j <= part@.len() || j == d + 1,
                    j <= part@.len(),
                    d < part@.len(),
                    value@ =~= part@.subrange(d + 1, j as int),
                decreases part@.len() - j,
            {
                value.push(part[j]);
                j = j + 1;
            }
            map.add(name, value);
            proof {
                assert(split_once_eq(part@)
                    == Some((part@.subrange(0, d as int), part@.subrange(d + 1, part@.len() as int))));
            }
        } else {
            proof {
                assert(split_once_eq(part@) is None);
            }
        }
        k = k + 1;
    }
    proof {
        assert(parts_v.take(parts_v.len() as int) =~= parts_v);
    }
    map
}

impl AttrMap {
    /// Adds one value under a name.
    #[verifier::loop_isolation(false)]
    pub fn add(&mut self, name: Vec<u8>, value: Vec<u8>)
        ensures
            final(self)@ == add_attr(old(self)@, name@, value@),
    {
        let mut i: usize = 0;
        while i < self.entries.len()
            invariant
                0 <= i <= self.entries@.len(),
                *self == *old(self),
                find_entry(self@, name@, 0) == find_entry(self@, name@, i as int),
                forall|j: int| 0 <= j < i ==> (#[trigger] self@[j]).0 != name@,
            decreases self.entries@.len() - i,
        {
            if bytes_equal(&self.entries[i].0, &name) {
                let ghost old_view = self@;
                let mut entry = self.entries.remove(i);
                entry.1.push(value);
                let ghost pushed = entry_view(entry);
                self.entries.insert(i, entry);
                proof {
                    assert(find_entry(old_view, name@, i as int) == Some(i as int));
                    assert(pushed.0 == name@);
                    assert(pushed.1 =~= old_view[i as int].1.push(value@));
                    assert(self@ =~= old_view.update(i as int, (name@, old_view[i as int].1.push(
                        value@,
                    ))));
                }
                return ;
            }
            proof {
                assert(find_entry(self@, name@, i as int) == find_entry(self@, name@, i + 1));
            }
            i = i + 1;
        }
        let ghost old_view = self@;
        let mut values: Vec<Vec<u8>> = Vec::new();
        values.push(value);
        self.entries.push((name, values));
        proof {
            assert(find_entry(old_view, name@, 0) is None);
            assert(entry_view((name, values)).1 =~= seq![value@]);
            assert(self@ =~= old_view.push((name@, seq![value@])));
        }
    }

    /// The values stored under a name, in order, or `None` if the name
    /// never appeared.
    #[verifier::loop_isolation(false)]
    pub fn get(&self, name: &Vec<u8>) -> (r: Option<&Vec<Vec<u8>>>)
        ensures
            match r {
                Some(vs) => {
                    &&& find_entry(self@, name@, 0) matches Some(i)
                    &&& self@[find_entry(self@, name@, 0)->Some_0].1
                        == Seq::new(vs@.len(), |j: int| vs@[j]@)
                },
                None => find_entry(self@, name@, 0) is None,
            },
    {
        let mut i: usize = 0;
        while i < self.entries.len()
            invariant
                0 <= i <= self.entries@.len(),
                find_entry(self@, name@, 0) == find_entry(self@, name@, i as int),
            decreases self.entries@.len() - i,
        {
            if bytes_equal(&self.entries[i].0, name) {
                proof {
                    assert(find_entry(self@, name@, i as int) == Some(i as int));
                }
                return Some(&self.entries[i].1);
            }
            proof {
                assert(find_entry(self@, name@, i as int) == find_entry(self@, name@, i + 1));
            }
            i = i + 1;
        }
        None
    }
}

/// Writes one attribute as `label=value`.
pub fn fmt_attr(label: &Vec<u8>, value: &Vec<u8>) -> (r: Vec<u8>)
    ensures
        r@ == label@ + seq![61u8] + value@,
{
    let mut out = clone_bytes(label);
    out.push(61);
    let mut i: usize = 0;
    proof {
        assert(out@ =~= label@ + seq![61u8] + value@.take(0));
    }
    while i < value.len()
        invariant
            0 <= i <= value@.len(),
            out@ =~= label@ + seq![61u8] + value@.take(i as int),
        decreases value@.len() - i,
    {
        out.push(value[i]);
        i = i + 1;
    }
    proof {
        assert(value@.take(value@.len() as int) =~= value@);
    }
    out
}

} // verus!
