//! The in-memory document replica.
//!
//! The CRDT library's update encoding and merge function are consumed as
//! opaque primitives: a replica is modelled by the sequence of update blobs
//! applied to it, in order, since it was created empty.

use vstd::prelude::*;

use crate::rooms::error::Error;
use yrs::updates::decoder::Decode;
use yrs::{ReadTxn, Text, Transact};

verus! {

/// Whether `bytes` decodes as a CRDT update in the v1 binary format.  The
/// outcome of decoding depends on the bytes alone.
pub uninterp spec fn decodes_v1(bytes: Seq<u8>) -> bool;

/// The byte encoding of the full state of the document reached by applying
/// `applied`, in order, to an empty document.  The encoding depends on the
/// applied update blobs alone.
pub uninterp spec fn state_update_of(applied: Seq<Seq<u8>>) -> Seq<u8>;

#[verifier::external_type_specification]
#[verifier::external_body]
pub struct ExDoc(yrs::Doc);

/// What applying one update blob did to the underlying document.
enum ApplyOutcome {
    /// The blob decoded and integrated.
    Applied,
    /// The blob did not decode; the document is untouched.
    BadEncoding,
    /// The blob decoded but the library rejected its integration (for
    /// example, an item naming a parent that is no shared type); the
    /// document may hold a partial application.
    Rejected,
}

/// Relies on `yrs::Doc::new`: a fresh, empty document.
#[verifier::external_body]
fn new_yrs_doc() -> yrs::Doc {
    yrs::Doc::new()
}

/// Relies on `yrs::Update::decode_v1` and `yrs::TransactionMut::apply_update`:
/// whether the bytes decode depends on the bytes alone; a decode failure
/// leaves the document untouched; an integration failure is surfaced as
/// [`ApplyOutcome::Rejected`], after which the document may hold a partial
/// application.
#[verifier::external_body]
fn yrs_apply_v1(doc: &mut yrs::Doc, bytes: &[u8]) -> (r: ApplyOutcome)
    ensures
        r is BadEncoding <==> !decodes_v1(bytes@),
        r is BadEncoding ==> *final(doc) == *old(doc),
{
    match yrs::Update::decode_v1(bytes) {
        Ok(update) => match doc.transact_mut().apply_update(update) {
            Ok(()) => ApplyOutcome::Applied,
            Err(_) => ApplyOutcome::Rejected,
        },
        Err(_) => ApplyOutcome::BadEncoding,
    }
}

/// An in-memory document replica, materialized by applying update blobs in
/// order to an initially empty document.
///
/// The `inner` document is touched only by [`ReplicaDoc::apply_update`] and
/// read by [`ReplicaDoc::encode_state`].  While `clean` holds, `inner` is
/// exactly the document reached by applying `applied`, in order, to an
/// empty document; after a rejected integration `clean` is cleared for
/// good, and the replica is no longer encoded.  `update_count` mirrors the
/// length of `applied`.
pub struct ReplicaDoc {
    inner: yrs::Doc,
    update_count: u64,
    clean: bool,
    applied: Ghost<Seq<Seq<u8>>>,
}

impl View for ReplicaDoc {
    type V = Seq<Seq<u8>>;

    closed spec fn view(&self) -> Seq<Seq<u8>> {
        self.applied@
    }
}

impl ReplicaDoc {
    /// The update counter mirrors the number of applied blobs.
    pub closed spec fn wf(self) -> bool {
        self.update_count == self@.len()
    }

    /// Whether the underlying document is exactly the result of the
    /// modelled blobs: true until an integration is rejected.
    pub closed spec fn is_clean(self) -> bool {
        self.clean
    }

    /// A fresh, empty replica.
    pub fn new() -> (r: ReplicaDoc)
        ensures
            r.wf(),
            r.is_clean(),
            r@ == Seq::<Seq<u8>>::empty(),
    {
        ReplicaDoc { inner: new_yrs_doc(), update_count: 0, clean: true, applied: Ghost(Seq::empty()) }
    }

    /// The number of update blobs applied since materialization.
    pub fn update_count(&self) -> (r: u64)
        requires
            self.wf(),
        ensures
            r == self@.len(),
    {
        self.update_count
    }

    /// Whether the replica is still exactly its modelled blobs' result.
    pub fn clean(&self) -> (r: bool)
        ensures
            r == self.is_clean(),
    {
        self.clean
    }

    /// Decodes one update blob and applies it to the replica.  A blob that
    /// does not decode leaves the replica untouched; one that decodes but
    /// is rejected during integration taints the replica, which is then
    /// never encoded again.
    pub fn apply_update(&mut self, bytes: &[u8]) -> (r: Result<(), Error>)
        requires
            old(self).wf(),
            old(self)@.len() < u64::MAX,
        ensures
            final(self).wf(),
            r is Ok ==> decodes_v1(bytes@) && final(self)@ == old(self)@.push(bytes@)
                && final(self).is_clean() == old(self).is_clean(),
            r matches Err(e) ==> e is DecodingError && final(self)@ == old(self)@,
            !decodes_v1(bytes@) ==> r is Err && *final(self) == *old(self),
            r is Err && decodes_v1(bytes@) ==> !final(self).is_clean(),
    {
        match yrs_apply_v1(&mut self.inner, bytes) {
            ApplyOutcome::Applied => {
                self.update_count = self.update_count + 1;
                proof {
                    self.applied@ = self.applied@.push(bytes@);
                }
                Ok(())
            },
            ApplyOutcome::BadEncoding => Err(Error::DecodingError),
            ApplyOutcome::Rejected => {
                self.clean = false;
                Err(Error::DecodingError)
            },
        }
    }

    /// Relies on `yrs::Transact::transact` and
    /// `ReadTxn::encode_state_as_update_v1` against the default state
    /// vector: for a clean replica — one whose document is exactly the
    /// applied blobs' result, with no local edits — the encoding is a
    /// function of the applied blobs alone.
    #[verifier::external_body]
    pub fn encode_state(&self) -> (r: Vec<u8>)
        requires
            self.is_clean(),
        ensures
            r@ == state_update_of(self@),
    {
        self.inner.transact().encode_state_as_update_v1(&yrs::StateVector::default())
    }
}

/// Relies on `yrs`: builds a document whose `"codemirror"` text root holds
/// `text`, and encodes its full state as one update blob;
/// `encode_state_as_update_v1` emits a well-formed v1 update, so the blob
/// decodes.
#[verifier::external_body]
pub fn encode_text_doc(text: &str) -> (r: Vec<u8>)
    ensures
        decodes_v1(r@),
{
    let doc = yrs::Doc::new();
    let txt = doc.get_or_insert_text("codemirror");
    {
        let mut txn = doc.transact_mut();
        txt.push(&mut txn, text);
    }
    let bytes = doc.transact().encode_state_as_update_v1(&yrs::StateVector::default());
    bytes
}

} // verus!
