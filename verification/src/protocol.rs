//! The handshake's decision steps, for both roles. The server walks a
//! linear state machine per connection: welcome, manifest, await the
//! want-list, stream the requested bodies, await readiness. The client
//! mirrors it: judge the welcome, diff the manifest against its own store,
//! request what is missing, take bodies in any order until none is missing,
//! then signal readiness and part. The functions here decide each step;
//! the surrounding process moves the messages and the file contents.

use vstd::prelude::*;
use crate::network_shared::{CMessage, Error, SMessage};
use crate::resource::{session_lookup, Manager, SessionID, StoreV, Type};

verus! {

/// The manifest tuple advertised for the store's `i`-th resource: its
/// package's name, its id, its content hash as version, and its session id.
pub open spec fn manifest_entry(s: StoreV, i: int) -> (Seq<char>, Seq<char>, u64, SessionID)
    recommends
        0 <= i < s.resources.len(),
        s.resources[i].name.package < s.packages.len(),
{
    let r = s.resources[i];
    (s.packages[r.name.package as int].name, r.name.id, r.hash, r.session_id)
}

/// The opening message of every connection. The reference behavior always
/// accepts; a server that ever sends `false` here must drop the connection
/// right after.
pub fn welcome_message() -> (r: SMessage)
    ensures
        r matches SMessage::Welcome(a, m) && a == true && m@ == "howdy"@,
{
    SMessage::Welcome(true, "howdy".to_owned())
}

/// The manifest the server advertises: one tuple per resource, in store
/// order.
pub fn manifest_message(rm: &Manager) -> (r: SMessage)
    requires
        forall|i: int|
            0 <= i < rm@.resources.len() ==> (#[trigger] rm@.resources[i]).name.package
                < rm@.packages.len(),
    ensures
        r matches SMessage::CheckResources(v) && v@.len() == rm@.resources.len() && forall|i: int|
            0 <= i < v@.len() ==> ((#[trigger] v@[i]).0@, v@[i].1@, v@[i].2, v@[i].3)
                == manifest_entry(rm@, i),
{
    let mut tuples: Vec<(String, String, u64, SessionID)> = Vec::new();
    let n = rm.resources().len();
    let mut i: usize = 0;
    while i < n
        invariant
            i <= n,
            n == rm@.resources.len(),
            tuples@.len() == i,
            forall|k: int|
                0 <= k < rm@.resources.len() ==> (#[trigger] rm@.resources[k]).name.package
                    < rm@.packages.len(),
            forall|k: int|
                0 <= k < i ==> ((#[trigger] tuples@[k]).0@, tuples@[k].1@, tuples@[k].2,
                tuples@[k].3) == manifest_entry(rm@, k),
        decreases n - i,
    {
        let res = &rm.resources()[i];
        let name = res.get_name();
        let pkg_name = rm.get_package(name.package).name.clone();
        let id_copy = name.id.clone();
        tuples.push((pkg_name, id_copy, res.get_hash(), res.get_session_id()));
        i += 1;
    }
    SMessage::CheckResources(tuples)
}

/// The server's reading of the message that must be the want-list: any
/// other shape is a fatal protocol error.
pub fn expect_request(msg: CMessage) -> (r: Result<Vec<SessionID>, Error>)
    ensures
        match msg {
            CMessage::RequestResources(v) => r == Ok::<Vec<SessionID>, Error>(v),
            _ => r matches Err(Error::WrongMessage),
        },
{
    match msg {
        CMessage::RequestResources(v) => Ok(v),
        _ => Err(Error::WrongMessage),
    }
}

/// The bodies the server streams back: one `Resource` message per requested
/// id, in the order the client listed them. An id outside the manifest is a
/// fatal protocol error: the client asked for something never advertised.
pub fn resource_messages(rm: &Manager, request: &Vec<SessionID>) -> (r: Result<
    Vec<SMessage>,
    Error,
>)
    ensures
        match r {
            Ok(msgs) => {
                &&& msgs@.len() == request@.len()
                &&& forall|i: int|
                    0 <= i < request@.len() ==> {
                        &&& session_lookup(rm@.resources, #[trigger] request@[i]) matches Some(res)
                        &&& msgs@[i] matches SMessage::Resource(id, ty, data) && id == request@[i]
                            && ty == res.ty && data@ == res.raw_data
                    }
            },
            Err(e) => {
                &&& e matches Error::WrongMessage
                &&& exists|i: int|
                    0 <= i < request@.len() && session_lookup(
                        rm@.resources,
                        #[trigger] request@[i],
                    ) is None
            },
        },
{
    let mut msgs: Vec<SMessage> = Vec::new();
    let n = request.len();
    let mut i: usize = 0;
    while i < n
        invariant
            i <= n,
            n == request@.len(),
            msgs@.len() == i,
            forall|k: int|
                0 <= k < i ==> {
                    &&& session_lookup(rm@.resources, #[trigger] request@[k]) matches Some(res)
                    &&& msgs@[k] matches SMessage::Resource(id, ty, data) && id == request@[k]
                        && ty == res.ty && data@ == res.raw_data
                },
        decreases n - i,
    {
        let id = request[i];
        match rm.get_resource(id) {
            None => {
                return Err(Error::WrongMessage);
            },
            Some(res) => {
                msgs.push(SMessage::Resource(id, res.get_type(), res.get_raw_data().clone()));
            },
        }
        i += 1;
    }
    Ok(msgs)
}

/// The server's reading of the message that must be the readiness signal:
/// anything else rejects the connection.
pub fn expect_ready(msg: CMessage) -> (r: Result<(), Error>)
    ensures
        msg matches CMessage::Ready ==> r == Ok::<(), Error>(()),
        !(msg matches CMessage::Ready) ==> r matches Err(Error::Rejected),
{
    match msg {
        CMessage::Ready => Ok(()),
        _ => Err(Error::Rejected),
    }
}

/// The client's judgement of the opening message: an accepting welcome
/// hands back the server's greeting; a refusing one aborts with `Rejected`;
/// any other shape is a protocol error.
pub fn handle_welcome(msg: SMessage) -> (r: Result<String, Error>)
    ensures
        match msg {
            SMessage::Welcome(accepted, text) => {
                if accepted {
                    r == Ok::<String, Error>(text)
                } else {
                    r matches Err(Error::Rejected)
                }
            },
            _ => r matches Err(Error::WrongMessage),
        },
{
    match msg {
        SMessage::Welcome(accepted, text) => {
            if accepted {
                Ok(text)
            } else {
                Err(Error::Rejected)
            }
        },
        _ => Err(Error::WrongMessage),
    }
}

/// One manifest entry the client still lacks: the package name, the raw
/// resource id and the version the server declared for it.
#[derive(Debug, Clone)]
pub struct MissingEntry {
    pub package: String,
    pub id: String,
    pub version: u64,
}

/// The position of the entry pending under a session id, or `-1`.
pub open spec fn missing_index_of(
    m: Seq<(SessionID, (Seq<char>, Seq<char>, u64))>,
    id: SessionID,
) -> int
    decreases m.len(),
{
    if m.len() == 0 {
        -1
    } else if m[0].0 == id {
        0
    } else {
        let r = missing_index_of(m.drop_first(), id);
        if r < 0 {
            -1
        } else {
            r + 1
        }
    }
}

/// `missing_index_of` finds exactly the first entry under the given id.
pub proof fn lemma_missing_index_of(m: Seq<(SessionID, (Seq<char>, Seq<char>, u64))>, id: SessionID)
    ensures
        missing_index_of(m, id) == -1 ==> forall|j: int|
            0 <= j < m.len() ==> (#[trigger] m[j]).0 != id,
        missing_index_of(m, id) != -1 ==> {
            &&& 0 <= missing_index_of(m, id) < m.len()
            &&& m[missing_index_of(m, id)].0 == id
            &&& forall|j: int| 0 <= j < missing_index_of(m, id) ==> (#[trigger] m[j]).0 != id
        },
    decreases m.len(),
{
    if m.len() > 0 && m[0].0 != id {
        lemma_missing_index_of(m.drop_first(), id);
        assert(forall|j: int| 1 <= j < m.len() ==> (#[trigger] m[j]).0 == m.drop_first()[j - 1].0);
    }
}

/// The client's map from pending session id to the manifest entry it still
/// needs, built while diffing the manifest and drained as bodies arrive.
#[derive(Debug)]
pub struct MissingMap {
    entries: Vec<(SessionID, MissingEntry)>,
}

impl View for MissingMap {
    type V = Seq<(SessionID, (Seq<char>, Seq<char>, u64))>;

    closed spec fn view(&self) -> Seq<(SessionID, (Seq<char>, Seq<char>, u64))> {
        Seq::new(
            self.entries@.len(),
            |i: int|
                (
                    self.entries@[i].0,
                    (self.entries@[i].1.package@, self.entries@[i].1.id@, self.entries@[i].1.version),
                ),
        )
    }
}

impl MissingMap {
    /// Each pending id appears once.
    pub open spec fn wf(&self) -> bool {
        forall|i: int, j: int|
            0 <= i < j < self@.len() ==> (#[trigger] self@[i]).0 != (#[trigger] self@[j]).0
    }

    /// An empty map: nothing is missing.
    pub fn new() -> (r: MissingMap)
        ensures
            r@ == Seq::<(SessionID, (Seq<char>, Seq<char>, u64))>::empty(),
            r.wf(),
    {
        let r = MissingMap { entries: Vec::new() };
        proof {
            assert(r@ =~= Seq::<(SessionID, (Seq<char>, Seq<char>, u64))>::empty());
        }
        r
    }

    /// How many resources are still missing.
    pub fn len(&self) -> (r: usize)
        ensures
            r == self@.len(),
    {
        self.entries.len()
    }

    /// Whether nothing is missing any more.
    pub fn is_empty(&self) -> (r: bool)
        ensures
            r == (self@.len() == 0),
    {
        self.entries.len() == 0
    }

    /// Marks a manifest entry as missing under its session id. An id
    /// already pending keeps only the newer entry, as a map insert would.
    pub fn insert(&mut self, id: SessionID, entry: MissingEntry)
        ensures
            ({
                let e = (entry.package@, entry.id@, entry.version);
                if missing_index_of(old(self)@, id) >= 0 {
                    final(self)@ == old(self)@.update(missing_index_of(old(self)@, id), (id, e))
                } else {
                    final(self)@ == old(self)@.push((id, e))
                }
            }),
            old(self).wf() ==> final(self).wf(),
    {
        let n = self.entries.len();
        let mut i: usize = 0;
        while i < n
            invariant
                i <= n,
                n == self@.len(),
                self == old(self),
                forall|j: int| 0 <= j < i ==> (#[trigger] self@[j]).0 != id,
            decreases n - i,
        {
            if self.entries[i].0 == id {
                proof {
                    lemma_missing_index_of(self@, id);
                    if missing_index_of(self@, id) != i as int {
                        assert(self@[i as int].0 == id);
                    }
                }
                self.entries[i] = (id, entry);
                proof {
                    assert(final(self)@ =~= old(self)@.update(
                        missing_index_of(old(self)@, id),
                        (id, (entry.package@, entry.id@, entry.version)),
                    ));
                    if old(self).wf() {
                        assert(forall|p: int|
                            0 <= p < final(self)@.len() ==> (#[trigger] final(self)@[p]).0 == old(
                                self,
                            )@[p].0);
                        assert(final(self).wf());
                    }
                }
                return ;
            }
            i += 1;
        }
        proof {
            lemma_missing_index_of(self@, id);
            if missing_index_of(self@, id) >= 0 {
                assert(self@[missing_index_of(self@, id)].0 == id);
            }
        }
        self.entries.push((id, entry));
        proof {
            assert(final(self)@ =~= old(self)@.push(
                (id, (entry.package@, entry.id@, entry.version)),
            ));
            if old(self).wf() {
                assert(forall|p: int|
                    0 <= p < old(self)@.len() ==> (#[trigger] final(self)@[p]).0 == old(
                        self,
                    )@[p].0);
                assert(final(self).wf());
            }
        }
    }

    /// Takes the entry pending under a session id out of the map. `None`
    /// means nothing was pending under it: the body was never requested, or
    /// arrived twice.
    pub fn remove(&mut self, id: SessionID) -> (r: Option<MissingEntry>)
        ensures
            ({
                let idx = missing_index_of(old(self)@, id);
                match r {
                    Some(e) => {
                        &&& idx >= 0
                        &&& (e.package@, e.id@, e.version) == old(self)@[idx].1
                        &&& final(self)@ == old(self)@.remove(idx)
                    },
                    None => {
                        &&& idx == -1
                        &&& final(self)@ == old(self)@
                    },
                }
            }),
            old(self).wf() ==> final(self).wf(),
    {
        let n = self.entries.len();
        let mut i: usize = 0;
        while i < n
            invariant
                i <= n,
                n == self@.len(),
                self == old(self),
                forall|j: int| 0 <= j < i ==> (#[trigger] self@[j]).0 != id,
            decreases n - i,
        {
            if self.entries[i].0 == id {
                proof {
                    lemma_missing_index_of(self@, id);
                    if missing_index_of(self@, id) != i as int {
                        assert(self@[i as int].0 == id);
                    }
                }
                let (_found_id, entry) = self.entries.remove(i);
                proof {
                    assert(final(self)@ =~= old(self)@.remove(i as int));
                    if old(self).wf() {
                        assert(forall|p: int|
                            0 <= p < final(self)@.len() ==> (#[trigger] final(self)@[p]) == if p
                                < i as int {
                                old(self)@[p]
                            } else {
                                old(self)@[p + 1]
                            });
                        assert(final(self).wf());
                    }
                }
                return Some(entry);
            }
            i += 1;
        }
        proof {
            lemma_missing_index_of(self@, id);
            if missing_index_of(self@, id) >= 0 {
                assert(self@[missing_index_of(self@, id)].0 == id);
            }
        }
        None
    }
}

/// The client's reading of one streamed body: it must be a `Resource`
/// message, and its session id must still be pending; the entry leaves the
/// missing map and the parts are handed back for the store to persist.
/// A body nobody asked for, or one that arrives twice, is a protocol error
/// and changes nothing.
pub fn handle_resource(msg: SMessage, missing: &mut MissingMap) -> (r: Result<
    (SessionID, Type, Vec<u8>, MissingEntry),
    Error,
>)
    ensures
        match msg {
            SMessage::Resource(id, ty, data) => {
                if missing_index_of(old(missing)@, id) >= 0 {
                    &&& r matches Ok(t) && t.0 == id && t.1 == ty && t.2 == data && (
                    t.3.package@,
                    t.3.id@,
                    t.3.version,
                    ) == old(missing)@[missing_index_of(old(missing)@, id)].1
                    &&& final(missing)@ == old(missing)@.remove(
                        missing_index_of(old(missing)@, id),
                    )
                } else {
                    &&& r matches Err(Error::WrongMessage)
                    &&& final(missing)@ == old(missing)@
                }
            },
            _ => {
                &&& r matches Err(Error::WrongMessage)
                &&& final(missing)@ == old(missing)@
            },
        },
        old(missing).wf() ==> final(missing).wf(),
{
    match msg {
        SMessage::Resource(id, ty, data) => {
            match missing.remove(id) {
                Some(entry) => Ok((id, ty, data, entry)),
                None => Err(Error::WrongMessage),
            }
        },
        _ => Err(Error::WrongMessage),
    }
}

/// The want-list the client sends: exactly the session ids it found
/// missing, in manifest order.
pub fn request_message(ids: Vec<SessionID>) -> (r: CMessage)
    ensures
        r == CMessage::RequestResources(ids),
{
    CMessage::RequestResources(ids)
}

/// The readiness signal the client sends once nothing is missing.
pub fn ready_message() -> (r: CMessage)
    ensures
        r == CMessage::Ready,
{
    CMessage::Ready
}

/// The parting message the client sends after readiness.
pub fn goodbye_message() -> (r: CMessage)
    ensures
        r matches CMessage::Goodbye(t) && t@ == "thx"@,
{
    CMessage::Goodbye("thx".to_owned())
}

} // verus!
