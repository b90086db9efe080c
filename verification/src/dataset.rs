//! Dataset records and their restartable iterator, built from the captured
//! output of the recursive dataset-listing command
//! (`zfs list -H -r -o name <root>`).

use crate::text::{decode_lossy, decoded_of, split_on, split_str, trim_spec, trim_str};
use vstd::prelude::*;

verus! {

/// A ZFS dataset, named by its full path including the pool name. The name
/// is whatever text the listing command printed, taken verbatim.
#[derive(Debug, Clone, PartialEq, Eq, Hash)]
pub struct Dataset {
    /// The name of the dataset, including the pool name.
    pub name: String,
}

impl Dataset {
    /// The datasets listed by one captured run of the dataset-listing
    /// command over the whole system: `output` is the command's raw
    /// standard-output bytes.
    pub fn all(output: Vec<u8>) -> (r: Datasets)
        ensures
            r@ == trim_spec(decoded_of(output@)),
    {
        Datasets::new(output)
    }

    /// Get the name of a dataset.
    pub fn name(&self) -> (r: String)
        ensures
            r@ == self.name@,
    {
        self.name.clone()
    }
}

/// A frozen snapshot of one dataset-listing invocation. Allows iteration
/// over datasets; iteration never re-queries the system, and any number of
/// independent iterators may traverse the same snapshot.
#[derive(Debug)]
pub struct Datasets {
    dataset_list: String,
}

impl View for Datasets {
    type V = Seq<char>;

    /// The snapshot text: the command output, decoded and with its
    /// whitespace envelope removed.
    closed spec fn view(&self) -> Seq<char> {
        self.dataset_list@
    }
}

impl Datasets {
    /// Build the snapshot from the raw standard-output bytes of one run of
    /// the dataset-listing command: decode them leniently and trim the
    /// whitespace envelope. The text is kept verbatim otherwise; one dataset
    /// name stands per line.
    pub fn new(output: Vec<u8>) -> (r: Datasets)
        ensures
            r@ == trim_spec(decoded_of(output@)),
    {
        let text: String = decode_lossy(&output);
        let dataset_list: String = trim_str(text.as_str());
        Datasets { dataset_list }
    }

    /// Return an iterator over the dataset list, positioned at its start.
    /// The entries are the newline-delimited segments of the snapshot, in
    /// the order the command printed them.
    pub fn iter(&self) -> (r: DatasetIter)
        ensures
            r.wf(),
            r.entries() == split_on(self@, '\n'),
            r.position() == 0,
    {
        DatasetIter { names: split_str(self.dataset_list.as_str(), '\n'), pos: 0 }
    }
}

/// A cursor over the entries of one [`Datasets`] snapshot.
pub struct DatasetIter {
    names: Vec<String>,
    pos: usize,
}

impl DatasetIter {
    /// The entries this iterator traverses, fixed when it was created.
    pub closed spec fn entries(&self) -> Seq<Seq<char>> {
        self.names.deep_view()
    }

    /// How many entries have been yielded so far.
    pub closed spec fn position(&self) -> int {
        self.pos as int
    }

    /// The cursor never stands past the end of the entries.
    pub closed spec fn wf(&self) -> bool {
        self.pos <= self.names.len()
    }

    /// Yield the dataset at the cursor and advance, or return `None` at the
    /// end. The entries themselves never change.
    pub fn next(&mut self) -> (r: Option<Dataset>)
        requires
            old(self).wf(),
        ensures
            final(self).wf(),
            final(self).entries() == old(self).entries(),
            final(self).position() == if old(self).position() < old(self).entries().len() {
                old(self).position() + 1
            } else {
                old(self).position()
            },
            old(self).position() < old(self).entries().len() ==> (r matches Some(d) && d.name@
                == old(self).entries()[old(self).position()]),
            old(self).position() >= old(self).entries().len() ==> r is None,
    {
        if self.pos < self.names.len() {
            let name: String = self.names[self.pos].clone();
            self.pos = self.pos + 1;
            Some(Dataset { name })
        } else {
            None
        }
    }
}

/// Iteration is restartable: the entries an iterator traverses are a
/// function of the frozen snapshot alone, so any two iterators over the
/// same collection yield the same sequence of datasets.
pub proof fn lemma_dataset_iteration_restartable(a: DatasetIter, b: DatasetIter, ds: Datasets)
    requires
        a.entries() == split_on(ds@, '\n'),
        b.entries() == split_on(ds@, '\n'),
    ensures
        a.entries() == b.entries(),
{
}

} // verus!
