//! Native clipboard capture, where the platform allows it.
//!
//! Where the daemon can watch the clipboard itself, it does: a client that had
//! to relay every copy would be a second process in the path for no gain. What
//! a watcher sees is turned into `(mime, bytes)` pairs here and archived the
//! same way a client's drafts are; the platform's own calls belong to the
//! caller.

pub mod windows;
pub mod x11;

use crate::proto;
use crate::session;
use crate::store;
use crate::store::blobs;
use crate::store::index;
use crate::store::thumb;
use crate::text;
use vstd::prelude::*;

verus! {

/// A representation as a watcher sees it: its mime type and its content.
pub type Offer = (String, Vec<u8>);

/// The same as the contracts speak of it.
pub type OfferView = (Seq<char>, Seq<u8>);

/// Some representations as the contracts speak of them.
pub open spec fn offer_views(offers: Seq<Offer>) -> Seq<OfferView> {
    Seq::new(offers.len(), |i: int| (offers[i].0@, offers[i].1@))
}

/// Some representations and one more, if it holds anything.
pub open spec fn pushed(
    parts: Seq<OfferView>,
    mime: Seq<char>,
    content: Option<Seq<u8>>,
) -> Seq<OfferView> {
    match content {
        Some(bytes) => if bytes.len() > 0 {
            parts.push((mime, bytes))
        } else {
            parts
        },
        None => parts,
    }
}

/// Adds a representation that holds anything.
pub fn push(parts: &mut Vec<Offer>, mime: &str, content: Option<Vec<u8>>)
    ensures
        offer_views(final(parts)@) == pushed(
            offer_views(old(parts)@),
            mime@,
            thumb::optional_bytes(content),
        ),
{
    if let Some(bytes) = content {
        if bytes.len() > 0 {
            let ghost before = offer_views(parts@);
            let ghost held = bytes@;
            parts.push((mime.to_owned(), bytes));
            assert(offer_views(parts@) =~= before.push((mime@, held)));
        }
    }
}

/// The representation some content makes once it is stored.
pub open spec fn stored_as(mime: Seq<char>, content: Seq<u8>) -> index::PartView {
    index::PartView { mime, digest: blobs::name_of(content), bytes: content.len() }
}

/// What one clipboard event becomes.
///
/// Keeping the archive behind this means a watcher deals only in
/// `(mime, bytes)` pairs and never learns how entries are stored, hashed or
/// announced.
pub struct Recorder {
    accepted: Vec<store::Accepted>,
}

impl View for Recorder {
    type V = Seq<index::PartView>;

    /// The representations stored so far.
    closed spec fn view(&self) -> Seq<index::PartView> {
        store::accepted_views(self.accepted@)
    }
}

impl Recorder {
    pub fn new() -> (recorder: Recorder)
        ensures
            recorder@ == Seq::<index::PartView>::empty(),
    {
        let recorder = Recorder { accepted: Vec::new() };
        assert(recorder@ =~= Seq::<index::PartView>::empty());
        recorder
    }

    /// The name and size a representation is to be stored under, unless the
    /// archive will not take it.
    pub fn offer(archive: &store::Store, mime: &str, content: &[u8]) -> (outcome: Result<
        store::Accepted,
        store::StoreError,
    >)
        ensures
            outcome is Ok <==> content@.len() <= store::room(archive@.budget),
            outcome matches Ok(accepted) ==> accepted@ == stored_as(mime@, content@)
                && crate::store::blobs::is_digest(accepted@.digest),
            outcome matches Err(error) ==> error@ == store::StoreErrorView::TooLarge,
    {
        match archive.accept(mime, content.len() as u64) {
            Ok(incoming) => {
                let mut whole = incoming;
                whole.absorb(content);
                assert(Seq::<u8>::empty() + content@ =~= content@);
                Ok(whole.finish())
            },
            Err(error) => Err(error),
        }
    }

    /// Takes note of a representation once it is stored, and lets the archive
    /// know of it. One the archive will not take is simply not noted: it must not
    /// cost the entry its others.
    pub fn record(&mut self, accepted: store::Accepted, archive: &mut store::Store)
        requires
            old(archive).well_formed(),
        ensures
            final(archive).well_formed(),
            final(self)@ == old(self)@.push(accepted@),
            final(archive)@ == store::claimed(old(archive)@, accepted@.digest),
    {
        let ghost part = accepted@;
        archive.claim(&accepted);
        self.accepted.push(accepted);
        assert(self@ =~= old(self)@.push(part));
    }

    /// What has to be read back before the event can be archived.
    pub fn plan(&self, archive: &store::Store) -> (plan: store::Plan)
        requires
            archive.well_formed(),
        ensures
            plan@ == store::planned(archive@, self@),
    {
        archive.plan(&self.accepted)
    }

    /// Gives the event up.
    pub fn abandon(self, archive: &mut store::Store)
        requires
            old(archive).well_formed(),
        ensures
            final(archive).well_formed(),
            final(archive)@ == store::discarded(old(archive)@, self@),
    {
        archive.discard(&self.accepted);
    }

    /// Archives the event as one entry holding every representation noted.
    ///
    /// Secrets and empty events are dropped by the store, so a watcher can pass
    /// on whatever the platform offered without deciding anything. Returns what
    /// every watching client is to be told, and the thumbnail to store with a
    /// new entry.
    pub fn commit(
        self,
        source: Option<&str>,
        at: i64,
        samples: &store::Samples,
        archive: &mut store::Store,
    ) -> (outcome: Result<(Vec<proto::Response>, Option<Vec<u8>>), store::StoreError>)
        requires
            old(archive).well_formed(),
        ensures
            final(archive).well_formed(),
            ({
                let published = store::published(
                    old(archive)@,
                    self@,
                    text::optional_slice(source),
                    at as int,
                    samples@,
                );
                &&& final(archive)@ == published.0
                &&& match outcome {
                    Ok((events, thumb)) => session::response_views(events@)
                        == session::announcements(published.1) && thumb::optional_bytes(thumb)
                        == session::new_thumb(published.1) && !(published.1 is Refused),
                    Err(error) => published.1 == store::CommitView::Refused(error@),
                }
            }),
    {
        match archive.commit(&self.accepted, source, at, samples) {
            Ok(Some(mut done)) => {
                let ghost whole = store::commit_view(Ok(Some(done)));
                let thumb = done.thumb.take();
                let ghost stripped = done;
                let events = session::announce(done);
                assert(session::announcements(store::commit_view(Ok(Some(stripped))))
                    =~= session::announcements(whole));
                Ok((events, thumb))
            },
            // Empty, or a secret the store refused. Nothing to announce.
            Ok(None) => {
                let events: Vec<proto::Response> = Vec::new();
                assert(session::response_views(events@) =~= Seq::empty());
                Ok((events, None))
            },
            Err(error) => Err(error),
        }
    }
}

/// What a watcher offers is stored under its own mime type and the name of its
/// content, and is as large as its content.
pub proof fn an_offer_is_stored_as_it_is(mime: Seq<char>, content: Seq<u8>)
    ensures
        stored_as(mime, content).mime == mime,
        stored_as(mime, content).digest == blobs::name_of(content),
        stored_as(mime, content).bytes == content.len(),
{
}

/// A representation is kept exactly where it holds something, behind those
/// kept before it and under the mime type it was offered as.
pub proof fn what_holds_anything_is_kept(
    parts: Seq<OfferView>,
    mime: Seq<char>,
    content: Option<Seq<u8>>,
)
    ensures
        content matches Some(bytes) ==> bytes.len() > 0 ==> {
            let kept = pushed(parts, mime, content);
            &&& kept.len() == parts.len() + 1
            &&& kept.drop_last() == parts
            &&& kept.last().0 == mime
            &&& kept.last().1 == bytes
        },
        content is None || content->0.len() == 0 ==> pushed(parts, mime, content) == parts,
{
    if let Some(bytes) = content {
        if bytes.len() > 0 {
            assert(pushed(parts, mime, content).drop_last() =~= parts);
        }
    }
}

} // verus!
