//! Raw source streams as sampled for analysis, and their conversions.

use vstd::prelude::*;

verus! {

/// Raw stream sample from one named source.
#[derive(Debug)]
pub struct SourceRawStreamSample {
    pub name: String,
    pub category: String,
    pub data: Vec<u8>,
}

impl SourceRawStreamSample {
    /// A copy of this sample with the same name, category and bytes.
    pub fn copy(&self) -> (c: Self)
        ensures
            c.name@ == self.name@,
            c.category@ == self.category@,
            c.data@ == self.data@,
    {
        SourceRawStreamSample {
            name: self.name.clone(),
            category: self.category.clone(),
            data: vstd::slice::slice_to_vec(self.data.as_slice()),
        }
    }
}

/// Convert sampled rows into `(name, bytes)` tuples expected by analysis
/// helpers, in the same order.
pub fn to_named_streams(samples: &[SourceRawStreamSample]) -> (streams: Vec<(String, Vec<u8>)>)
    ensures
        streams@.len() == samples@.len(),
        forall|i: int|
            0 <= i < samples@.len() ==> #[trigger] streams@[i].0@ == samples@[i].name@
                && streams@[i].1@ == samples@[i].data@,
{
    let mut out: Vec<(String, Vec<u8>)> = Vec::with_capacity(samples.len());
    let mut i: usize = 0;
    while i < samples.len()
        invariant
            i <= samples@.len(),
            out@.len() == i,
            forall|k: int|
                0 <= k < i ==> #[trigger] out@[k].0@ == samples@[k].name@ && out@[k].1@
                    == samples@[k].data@,
        decreases samples@.len() - i,
    {
        let s = &samples[i];
        out.push((s.name.clone(), vstd::slice::slice_to_vec(s.data.as_slice())));
        i = i + 1;
    }
    out
}

/// `names` holds the text `n`.
pub open spec fn names_contain(names: Seq<String>, n: Seq<char>) -> bool {
    exists|k: int| 0 <= k < names.len() && #[trigger] names[k]@ == n
}

/// The samples (in order) whose name is among `names`.
pub open spec fn spec_select_named(samples: Seq<SourceRawStreamSample>, names: Seq<String>) -> Seq<
    SourceRawStreamSample,
>
    decreases samples.len(),
{
    if samples.len() == 0 {
        Seq::empty()
    } else {
        let prev = spec_select_named(samples.drop_last(), names);
        if names_contain(names, samples.last().name@) {
            prev.push(samples.last())
        } else {
            prev
        }
    }
}

/// Whether `name` is among `names`.
pub fn contains_name(names: &[String], name: &String) -> (found: bool)
    ensures
        found == names_contain(names@, name@),
{
    let mut k: usize = 0;
    while k < names.len()
        invariant
            k <= names@.len(),
            forall|j: int| 0 <= j < k ==> #[trigger] names@[j]@ != name@,
        decreases names@.len() - k,
    {
        if names[k] == *name {
            return true;
        }
        k = k + 1;
    }
    false
}

/// Keep the samples whose source name is in `source_names`, in the order
/// they were given.
pub fn select_named_samples(
    samples: &[SourceRawStreamSample],
    source_names: &[String],
) -> (selected: Vec<SourceRawStreamSample>)
    ensures
        selected@.len() == spec_select_named(samples@, source_names@).len(),
        forall|i: int|
            0 <= i < selected@.len() ==> {
                let s = spec_select_named(samples@, source_names@)[i];
                &&& #[trigger] selected@[i].name@ == s.name@
                &&& selected@[i].category@ == s.category@
                &&& selected@[i].data@ == s.data@
            },
{
    let mut out: Vec<SourceRawStreamSample> = Vec::new();
    let mut i: usize = 0;
    while i < samples.len()
        invariant
            i <= samples@.len(),
            out@.len() == spec_select_named(samples@.subrange(0, i as int), source_names@).len(),
            forall|k: int|
                0 <= k < out@.len() ==> {
                    let s = spec_select_named(samples@.subrange(0, i as int), source_names@)[k];
                    &&& #[trigger] out@[k].name@ == s.name@
                    &&& out@[k].category@ == s.category@
                    &&& out@[k].data@ == s.data@
                },
        decreases samples@.len() - i,
    {
        let ghost pre = samples@.subrange(0, i + 1);
        assert(pre.drop_last() =~= samples@.subrange(0, i as int));
        if contains_name(source_names, &samples[i].name) {
            out.push(samples[i].copy());
        }
        i = i + 1;
    }
    assert(samples@.subrange(0, samples@.len() as int) =~= samples@);
    out
}

} // verus!
