//! The stored resource that holds the configuration document, and the patch
//! applied to it.

use crate::corefile::{patch, patched_text, text_has_anchor};
use crate::entry::host_names;
use crate::error::ConfigFormatError;
use crate::search::{first_where, lemma_first_where, lemma_first_where_is};
use vstd::prelude::*;
use vstd::string::StringExecFns;

verus! {

/// One named entry of a resource's data.
#[derive(Debug, Clone, PartialEq, Eq)]
pub struct DataEntry {
    pub key: String,
    pub value: String,
}

/// The stored resource: what identifies it, the version that was read, and
/// its data. The version goes back with a write, which the platform refuses
/// where the resource has changed since.
#[derive(Debug, Clone, PartialEq, Eq)]
pub struct ConfigResource {
    pub name: String,
    pub namespace: String,
    pub version: String,
    pub data: Vec<DataEntry>,
}

/// The key under which the document is stored.
pub const DOCUMENT_KEY: &'static str = "Corefile";

/// The position of the first entry under the document's key, or the number
/// of entries where there is none.
pub open spec fn document_position(data: Seq<DataEntry>) -> nat {
    first_where(data, |entry: DataEntry| entry.key@ == DOCUMENT_KEY@)
}

/// The data hold a document.
pub open spec fn has_document(data: Seq<DataEntry>) -> bool {
    document_position(data) < data.len()
}

/// The text of the document that the data hold.
pub open spec fn document_text(data: Seq<DataEntry>) -> Seq<char> {
    data[document_position(data) as int].value@
}

/// No key stands twice.
pub open spec fn keys_distinct(data: Seq<DataEntry>) -> bool {
    forall|i: int, j: int|
        0 <= i < j < data.len() ==> (#[trigger] data[i]).key@ != (#[trigger] data[j]).key@
}

/// Where no key stands twice, the document is the only entry under its key.
pub proof fn lemma_document_unique(data: Seq<DataEntry>, at: int)
    requires
        keys_distinct(data),
        0 <= at < data.len(),
        data[at].key@ == DOCUMENT_KEY@,
    ensures
        document_position(data) == at,
{
    lemma_first_where(data, |entry: DataEntry| entry.key@ == DOCUMENT_KEY@);
}

/// `after` is `before` with the document patched: the same entries under the
/// same keys, all values as they were but the document's.
pub open spec fn data_patched(
    before: Seq<DataEntry>,
    after: Seq<DataEntry>,
    hosts: Seq<Seq<char>>,
    target: Seq<char>,
) -> bool {
    &&& after.len() == before.len()
    &&& forall|i: int| 0 <= i < before.len() ==> (#[trigger] after[i]).key == before[i].key
    &&& forall|i: int|
        0 <= i < before.len() && i != document_position(before) ==> (#[trigger] after[i]).value
            == before[i].value
    &&& document_text(after) == patched_text(document_text(before), hosts, target)
}

/// `after` is the resource `before` with its document patched: it is
/// identified as `before` was and carries the version that was read.
pub open spec fn resource_patched(
    before: ConfigResource,
    after: ConfigResource,
    hosts: Seq<Seq<char>>,
    target: Seq<char>,
) -> bool {
    &&& after.name == before.name
    &&& after.namespace == before.namespace
    &&& after.version == before.version
    &&& data_patched(before.data@, after.data@, hosts, target)
    &&& before.well_formed() ==> after.well_formed()
}

impl ConfigResource {
    /// The resource is one that the platform can hold: no key stands twice.
    pub open spec fn well_formed(&self) -> bool {
        keys_distinct(self.data@)
    }

    /// The position of the document among the data, if they hold one.
    pub fn document(&self) -> (at: Option<usize>)
        ensures
            match at {
                Some(i) => has_document(self.data@) && i == document_position(self.data@),
                None => !has_document(self.data@),
            },
    {
        let key = String::from_str(DOCUMENT_KEY);
        let ghost is_document = |entry: DataEntry| entry.key@ == DOCUMENT_KEY@;
        let mut i: usize = 0;
        while i < self.data.len()
            invariant
                i <= self.data.len(),
                key@ == DOCUMENT_KEY@,
                is_document == |entry: DataEntry| entry.key@ == DOCUMENT_KEY@,
                forall|k: int| 0 <= k < i ==> !is_document(#[trigger] self.data@[k]),
            decreases self.data.len() - i,
        {
            if self.data[i].key == key {
                proof {
                    lemma_first_where_is(self.data@, is_document, i as int);
                }
                return Some(i);
            }
            i += 1;
        }
        proof {
            lemma_first_where_is(self.data@, is_document, i as int);
        }
        None
    }

    /// Patches the document that the resource holds and gives the resource
    /// back for writing, with the name, the namespace and the version that
    /// were read and every other entry untouched. A resource without a
    /// document, and a document without an anchor line, are refused.
    pub fn apply_hostnames(self, hostnames: &Vec<String>, target: &str) -> (applied: Result<
        ConfigResource,
        ConfigFormatError,
    >)
        ensures
            match applied {
                Ok(resource) => {
                    &&& has_document(self.data@)
                    &&& text_has_anchor(document_text(self.data@))
                    &&& resource_patched(self, resource, host_names(hostnames@), target@)
                },
                Err(ConfigFormatError::MissingDocument) => !has_document(self.data@),
                Err(ConfigFormatError::MissingAnchor) => has_document(self.data@)
                    && !text_has_anchor(document_text(self.data@)),
            },
    {
        let at = match self.document() {
            Some(at) => at,
            None => {
                return Err(ConfigFormatError::MissingDocument);
            },
        };
        let text = match patch(self.data[at].value.as_str(), hostnames, target) {
            Ok(text) => text,
            Err(_) => {
                return Err(ConfigFormatError::MissingAnchor);
            },
        };
        let mut resource = self;
        let ghost before = resource.data@;
        let old = resource.data.remove(at);
        resource.data.insert(at, DataEntry { key: old.key, value: text });
        proof {
            let is_document = |entry: DataEntry| entry.key@ == DOCUMENT_KEY@;
            lemma_first_where(before, is_document);
            assert forall|k: int| 0 <= k < at implies !is_document(
                #[trigger] resource.data@[k],
            ) by {
                assert(resource.data@[k] == before[k]);
            }
            lemma_first_where_is(resource.data@, is_document, at as int);
            assert forall|i: int| 0 <= i < before.len() implies (#[trigger] resource.data@[i]).key
                == before[i].key by {}
        }
        Ok(resource)
    }
}

} // verus!
