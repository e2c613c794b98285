use vstd::prelude::*;

use crate::distance::NodeId;

verus! {

/// The fields of a node record that the library reads: the node id, the
/// sequence number, the signature (these three decide equality of records),
/// the portal client string stored under the key `c`, and the record's
/// canonical `enr:` text form.
#[derive(Debug)]
pub struct Enr {
    pub node_id: NodeId,
    pub seq: u64,
    pub signature: Vec<u8>,
    pub client: Option<String>,
    pub text: String,
}

/// The plain contents of an [`Enr`].
pub struct EnrView {
    pub node_id: Seq<u8>,
    pub seq: u64,
    pub signature: Seq<u8>,
    pub client: Option<Seq<char>>,
    pub text: Seq<char>,
}

pub open spec fn opt_string_view(s: Option<String>) -> Option<Seq<char>> {
    match s {
        Some(c) => Some(c@),
        None => None,
    }
}

/// What decoding an `enr:` text yields, as (node id, sequence number,
/// signature, client string, canonical text); `None` where the text is not a
/// valid record.
pub uninterp spec fn enr_text_decoding(text: Seq<char>) -> Option<(Seq<u8>, u64, Seq<u8>, Option<Seq<char>>, Seq<char>)>;

pub open spec fn enr_view_of(t: (Seq<u8>, u64, Seq<u8>, Option<Seq<char>>, Seq<char>)) -> EnrView {
    EnrView { node_id: t.0, seq: t.1, signature: t.2, client: t.3, text: t.4 }
}

/// Decodes a record with `discv5::Enr`'s `FromStr` (base64 text, with or
/// without the `enr:` prefix, checked signature) and reads its node id,
/// sequence number, signature, `c` entry and `to_base64` text. Claimed: the
/// outcome is `enr_text_decoding` of the text, a function of the text alone.
#[verifier::external_body]
fn decode_enr_text(text: &str) -> (r: Option<Enr>)
    ensures
        match enr_text_decoding(text@) {
            None => r is None,
            Some(t) => r is Some && r->0@ == enr_view_of(t),
        },
{
    match <discv5::Enr as std::str::FromStr>::from_str(text) {
        Ok(enr) => Some(Enr {
            node_id: NodeId { raw: enr.node_id().raw() },
            seq: enr.seq(),
            signature: enr.signature().to_vec(),
            client: match enr.get_decodable::<String>("c") {
                Some(Ok(client)) => Some(client),
                _ => None,
            },
            text: enr.to_base64(),
        }),
        Err(_) => None,
    }
}

/// A copy of a byte vector.
pub fn copy_bytes(v: &Vec<u8>) -> (r: Vec<u8>)
    ensures
        r@ == v@,
{
    let mut r: Vec<u8> = Vec::new();
    let mut i: usize = 0;
    while i < v.len()
        invariant
            0 <= i <= v@.len(),
            r@ == v@.take(i as int),
        decreases v@.len() - i,
    {
        r.push(v[i]);
        assert(v@.take(i + 1) =~= v@.take(i as int).push(v@[i as int]));
        i = i + 1;
    }
    assert(v@.take(v@.len() as int) =~= v@);
    r
}

impl Enr {
    pub open spec fn view(&self) -> EnrView {
        EnrView {
            node_id: self.node_id@,
            seq: self.seq,
            signature: self.signature@,
            client: opt_string_view(self.client),
            text: self.text@,
        }
    }

    /// Decodes a record from its `enr:` text; `None` where the text is not a
    /// valid record.
    pub fn from_text(text: &str) -> (r: Option<Enr>)
        ensures
            match enr_text_decoding(text@) {
                None => r is None,
                Some(t) => r is Some && r->0@ == enr_view_of(t),
            },
    {
        decode_enr_text(text)
    }

    /// Record equality: same sequence number, node id and signature.
    pub open spec fn same_as(&self, other: &Enr) -> bool {
        self.seq == other.seq && self.node_id@ == other.node_id@ && self.signature@
            == other.signature@
    }

    /// Whether two values hold the same record.
    pub fn same_record(&self, other: &Enr) -> (r: bool)
        ensures
            r == self.same_as(other),
    {
        if self.seq != other.seq {
            return false;
        }
        if !self.node_id.same(&other.node_id) {
            return false;
        }
        let n = self.signature.len();
        if n != other.signature.len() {
            return false;
        }
        let mut i: usize = 0;
        while i < n
            invariant
                0 <= i <= n,
                n == self.signature@.len(),
                n == other.signature@.len(),
                forall|j: int| 0 <= j < i ==> self.signature@[j] == other.signature@[j],
            decreases n - i,
        {
            if self.signature[i] != other.signature[i] {
                return false;
            }
            i = i + 1;
        }
        assert(self.signature@ =~= other.signature@);
        true
    }

    /// A copy of this record.
    pub fn duplicate(&self) -> (r: Enr)
        ensures
            r@ == self@,
    {
        Enr {
            node_id: self.node_id,
            seq: self.seq,
            signature: copy_bytes(&self.signature),
            client: match &self.client {
                Some(c) => Some(c.clone()),
                None => None,
            },
            text: self.text.clone(),
        }
    }

    pub fn node_id(&self) -> (r: NodeId)
        ensures
            r@ == self.node_id@,
    {
        self.node_id
    }

    pub fn seq(&self) -> (r: u64)
        ensures
            r == self.seq,
    {
        self.seq
    }
}

impl PartialEq for Enr {
    fn eq(&self, other: &Self) -> (r: bool) {
        self.same_record(other)
    }
}

impl Eq for Enr {
}

impl vstd::std_specs::cmp::PartialEqSpecImpl for Enr {
    open spec fn obeys_eq_spec() -> bool {
        true
    }

    open spec fn eq_spec(&self, other: &Enr) -> bool {
        self.same_as(other)
    }
}

impl Clone for Enr {
    fn clone(&self) -> (r: Self)
        ensures
            r@ == self@,
    {
        self.duplicate()
    }
}

} // verus!
