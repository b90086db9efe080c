//! Storage-pool records and their restartable iterator, built from the
//! captured output of the pool-listing command (`zpool list -H -o name`),
//! together with the per-pool property map and the pool→dataset bridge.

use crate::dataset::Datasets;
use crate::text::{
    decode_lossy, decoded_of, parse_properties, props_of, split_on, split_str, trim_spec, trim_str,
};
use vstd::hash_map::StringHashMap;
use vstd::prelude::*;

verus! {

/// A ZFS storage pool, named by the identifier the listing command printed.
#[derive(Debug, Clone, PartialEq, Eq, Hash)]
pub struct ZPool {
    pub name: String,
}

impl ZPool {
    /// The pools listed by one captured run of the pool-listing command:
    /// `output` is the command's raw standard-output bytes.
    pub fn all(output: Vec<u8>) -> (r: ZPools)
        ensures
            r@ == trim_spec(decoded_of(output@)),
    {
        ZPools::new(output)
    }

    /// The properties of this pool, parsed from the raw standard-output
    /// bytes of one run of the property command scoped to this pool
    /// (`zpool get -H -p all <name>`): each row is `subject`, key, value and
    /// source, tab-separated; rows with fewer than three columns are
    /// skipped, and a repeated key keeps the value of its last row.
    pub fn properties(&self, output: Vec<u8>) -> (r: StringHashMap<String>)
        ensures
            r@.map_values(|v: String| v@) == props_of(decoded_of(output@)),
    {
        let text: String = decode_lossy(&output);
        parse_properties(text.as_str())
    }

    /// The datasets of this pool, parsed from the raw standard-output bytes
    /// of one run of the dataset-listing command rooted at this pool's name.
    pub fn datasets(&self, output: Vec<u8>) -> (r: Datasets)
        ensures
            r@ == trim_spec(decoded_of(output@)),
    {
        Datasets::new(output)
    }
}

/// A frozen snapshot of one pool-listing invocation. Allows iteration over
/// pools; iteration never re-queries the system, and any number of
/// independent iterators may traverse the same snapshot.
#[derive(Debug)]
pub struct ZPools {
    zpool_list: String,
}

impl View for ZPools {
    type V = Seq<char>;

    /// The snapshot text: the command output, decoded and with its
    /// whitespace envelope removed.
    closed spec fn view(&self) -> Seq<char> {
        self.zpool_list@
    }
}

impl ZPools {
    /// Build the snapshot from the raw standard-output bytes of one run of
    /// the pool-listing command: decode them leniently and trim the
    /// whitespace envelope. One pool name stands per line.
    pub fn new(output: Vec<u8>) -> (r: ZPools)
        ensures
            r@ == trim_spec(decoded_of(output@)),
    {
        let text: String = decode_lossy(&output);
        let zpool_list: String = trim_str(text.as_str());
        ZPools { zpool_list }
    }

    /// Return an iterator over the pool list, positioned at its start. The
    /// entries are the newline-delimited segments of the snapshot, in the
    /// order the command printed them.
    pub fn iter(&self) -> (r: ZPoolIter)
        ensures
            r.wf(),
            r.entries() == split_on(self@, '\n'),
            r.position() == 0,
    {
        ZPoolIter { names: split_str(self.zpool_list.as_str(), '\n'), pos: 0 }
    }
}

/// A cursor over the entries of one [`ZPools`] snapshot.
pub struct ZPoolIter {
    names: Vec<String>,
    pos: usize,
}

impl ZPoolIter {
    /// The entries this iterator traverses, fixed when it was created.
    pub closed spec fn entries(&self) -> Seq<Seq<char>> {
        self.names.deep_view()
    }

    /// How many entries have been yielded so far.
    pub closed spec fn position(&self) -> int {
        self.pos as int
    }

    /// The cursor never stands past the end of the entries.
    pub closed spec fn wf(&self) -> bool {
        self.pos <= self.names.len()
    }

    /// Yield the pool at the cursor and advance, or return `None` at the
    /// end. The entries themselves never change.
    pub fn next(&mut self) -> (r: Option<ZPool>)
        requires
            old(self).wf(),
        ensures
            final(self).wf(),
            final(self).entries() == old(self).entries(),
            final(self).position() == if old(self).position() < old(self).entries().len() {
                old(self).position() + 1
            } else {
                old(self).position()
            },
            old(self).position() < old(self).entries().len() ==> (r matches Some(p) && p.name@
                == old(self).entries()[old(self).position()]),
            old(self).position() >= old(self).entries().len() ==> r is None,
    {
        if self.pos < self.names.len() {
            let name: String = self.names[self.pos].clone();
            self.pos = self.pos + 1;
            Some(ZPool { name })
        } else {
            None
        }
    }
}

/// Iteration is restartable: the entries an iterator traverses are a
/// function of the frozen snapshot alone, so any two iterators over the
/// same collection yield the same sequence of pools.
pub proof fn lemma_zpool_iteration_restartable(a: ZPoolIter, b: ZPoolIter, ps: ZPools)
    requires
        a.entries() == split_on(ps@, '\n'),
        b.entries() == split_on(ps@, '\n'),
    ensures
        a.entries() == b.entries(),
{
}

} // verus!
