//! The peer table: which peers discovery has resolved, and the address of
//! each.  Discovery writes it, the sender reads a snapshot of it.  The table
//! is a list in the order in which the peers were first resolved, with no
//! identifier twice, so that every round of sending walks the peers in the
//! same order.

use vstd::prelude::*;
use vstd::string::StrSliceExecFns;
use vstd::string::StringExecFns;

verus! {

/// One resolved peer.
#[derive(Debug)]
pub struct Peer {
    pub identifier: String,
    pub address: String,
}

/// The mathematical contents of a [`Peer`].
pub struct PeerView {
    pub identifier: Seq<char>,
    pub address: Seq<char>,
}

impl View for Peer {
    type V = PeerView;

    open spec fn view(&self) -> PeerView {
        PeerView { identifier: self.identifier@, address: self.address@ }
    }
}

impl Peer {
    /// A copy of this peer.
    pub fn duplicate(&self) -> (copy: Peer)
        ensures
            copy@ == self@,
    {
        Peer { identifier: self.identifier.clone(), address: self.address.clone() }
    }
}

/// The contents of a list of peers.
pub open spec fn peer_views(peers: Seq<Peer>) -> Seq<PeerView> {
    Seq::new(peers.len(), |i: int| peers[i]@)
}

/// Whether no identifier stands twice in `entries`.
pub open spec fn distinct_identifiers(entries: Seq<PeerView>) -> bool {
    forall|i: int, j: int|
        0 <= i < j < entries.len() ==> entries[i].identifier != entries[j].identifier
}

/// Where `identifier` stands in `entries`, if it does.
pub open spec fn position_of(entries: Seq<PeerView>, identifier: Seq<char>) -> Option<int>
    decreases entries.len(),
{
    if entries.len() == 0 {
        None
    } else if entries.last().identifier == identifier {
        Some(entries.len() - 1)
    } else {
        position_of(entries.drop_last(), identifier)
    }
}

/// The address on record for `identifier`, if there is one.
pub open spec fn address_of(entries: Seq<PeerView>, identifier: Seq<char>) -> Option<Seq<char>> {
    match position_of(entries, identifier) {
        Some(i) => Some(entries[i].address),
        None => None,
    }
}

/// The table once `identifier` is on record with `address`: the new address
/// in place of the old where the peer was known, the peer added at the end
/// where it was not.
pub open spec fn with_peer(
    entries: Seq<PeerView>,
    identifier: Seq<char>,
    address: Seq<char>,
) -> Seq<PeerView> {
    match position_of(entries, identifier) {
        Some(i) => entries.update(i, PeerView { identifier, address }),
        None => entries.push(PeerView { identifier, address }),
    }
}

/// The table without `identifier`.
pub open spec fn without_peer(entries: Seq<PeerView>, identifier: Seq<char>) -> Seq<PeerView> {
    match position_of(entries, identifier) {
        Some(i) => entries.remove(i),
        None => entries,
    }
}

/// A position found is a position at which the identifier stands; none
/// found means that it stands nowhere.
pub proof fn lemma_position_of(entries: Seq<PeerView>, identifier: Seq<char>)
    ensures
        match position_of(entries, identifier) {
            Some(i) => 0 <= i < entries.len() && entries[i].identifier == identifier,
            None => forall|i: int| 0 <= i < entries.len() ==> entries[i].identifier != identifier,
        },
    decreases entries.len(),
{
    if entries.len() > 0 && entries.last().identifier != identifier {
        let front = entries.drop_last();
        lemma_position_of(front, identifier);
        match position_of(front, identifier) {
            Some(i) => {
                assert(front[i] == entries[i]);
            },
            None => {
                assert forall|i: int| 0 <= i < entries.len() implies entries[i].identifier
                    != identifier by {
                    if i < front.len() {
                        assert(front[i] == entries[i]);
                    }
                }
            },
        }
    }
}

/// In a table without repeated identifiers, the identifier at a position is
/// found at that position.
pub proof fn lemma_position_found(entries: Seq<PeerView>, i: int)
    requires
        distinct_identifiers(entries),
        0 <= i < entries.len(),
    ensures
        position_of(entries, entries[i].identifier) == Some(i),
    decreases entries.len(),
{
    if i < entries.len() - 1 {
        let front = entries.drop_last();
        assert forall|a: int, b: int| 0 <= a < b < front.len() implies front[a].identifier
            != front[b].identifier by {
            assert(front[a] == entries[a]);
            assert(front[b] == entries[b]);
        }
        assert(front[i] == entries[i]);
        lemma_position_found(front, i);
    }
}

/// Putting a peer on record keeps the identifiers distinct, leaves the
/// address of every other peer as it was, and makes the new address the
/// peer's own.
pub proof fn lemma_with_peer(entries: Seq<PeerView>, identifier: Seq<char>, address: Seq<char>)
    requires
        distinct_identifiers(entries),
    ensures
        distinct_identifiers(with_peer(entries, identifier, address)),
        address_of(with_peer(entries, identifier, address), identifier) == Some(address),
        forall|other: Seq<char>|
            other != identifier ==> address_of(with_peer(entries, identifier, address), other)
                == address_of(entries, other),
{
    let after = with_peer(entries, identifier, address);
    lemma_position_of(entries, identifier);
    let at = match position_of(entries, identifier) {
        Some(i) => i,
        None => entries.len() as int,
    };
    assert(after.len() > at);
    assert(after[at] == PeerView { identifier, address });
    assert forall|i: int, j: int| 0 <= i < j < after.len() implies after[i].identifier
        != after[j].identifier by {
        if i != at && i < entries.len() {
            assert(after[i] == entries[i]);
        }
        if j != at && j < entries.len() {
            assert(after[j] == entries[j]);
        }
    }
    lemma_position_found(after, at);
    assert forall|other: Seq<char>| other != identifier implies address_of(after, other)
        == address_of(entries, other) by {
        lemma_position_of(entries, other);
        lemma_position_of(after, other);
        match position_of(entries, other) {
            Some(i) => {
                assert(after[i] == entries[i]);
                lemma_position_found(after, i);
            },
            None => {
                if position_of(after, other) is Some {
                    let k = position_of(after, other)->0;
                    if k != at {
                        assert(after[k] == entries[k]);
                    }
                }
            },
        }
    }
}

/// Putting a peer on record twice in a row leaves the second address alone.
pub proof fn lemma_with_peer_twice(
    entries: Seq<PeerView>,
    identifier: Seq<char>,
    first: Seq<char>,
    second: Seq<char>,
)
    requires
        distinct_identifiers(entries),
    ensures
        with_peer(with_peer(entries, identifier, first), identifier, second) == with_peer(
            entries,
            identifier,
            second,
        ),
{
    let once = with_peer(entries, identifier, first);
    lemma_position_of(entries, identifier);
    lemma_with_peer(entries, identifier, first);
    let at = match position_of(entries, identifier) {
        Some(i) => i,
        None => entries.len() as int,
    };
    assert(once[at].identifier == identifier);
    lemma_position_found(once, at);
    assert(with_peer(once, identifier, second) =~= with_peer(entries, identifier, second));
}

/// How far the first full stop of `name` is from its start; the length of
/// `name` where it holds none.
pub open spec fn first_stop(name: Seq<char>) -> nat
    decreases name.len(),
{
    if name.len() == 0 || name[0] == '.' {
        0
    } else {
        1 + first_stop(name.drop_first())
    }
}

/// The part of a service name in front of its first full stop.
pub open spec fn name_before_stop(name: Seq<char>) -> Seq<char> {
    name.take(first_stop(name) as int)
}

/// The first full stop lies within the name, at a full stop or at the end,
/// with no full stop in front of it.
pub proof fn lemma_first_stop(name: Seq<char>)
    ensures
        first_stop(name) <= name.len(),
        first_stop(name) < name.len() ==> name[first_stop(name) as int] == '.',
        forall|i: int| 0 <= i < first_stop(name) ==> name[i] != '.',
    decreases name.len(),
{
    if name.len() > 0 && name[0] != '.' {
        let rest = name.drop_first();
        lemma_first_stop(rest);
        assert forall|i: int| 0 <= i < first_stop(name) implies name[i] != '.' by {
            if i > 0 {
                assert(name[i] == rest[i - 1]);
            }
        }
    }
}

/// A position with no full stop in front of it, at a full stop or at the
/// end, is the first full stop.
pub proof fn lemma_first_stop_is(name: Seq<char>, at: int)
    requires
        0 <= at <= name.len(),
        at < name.len() ==> name[at] == '.',
        forall|i: int| 0 <= i < at ==> name[i] != '.',
    ensures
        first_stop(name) == at,
{
    lemma_first_stop(name);
    let found = first_stop(name) as int;
    if found < at {
        assert(name[found] != '.');
    } else if found > at {
        assert(name[at] != '.');
    }
}

/// The name that a peer is shown under: its service name up to the first full stop.
pub fn display_name(fullname: &str) -> (username: String)
    ensures
        username@ == name_before_stop(fullname@),
{
    let len: usize = fullname.unicode_len();
    let mut at: usize = 0;
    while at < len
        invariant_except_break
            at <= len,
        invariant
            len == fullname@.len(),
            forall|i: int| 0 <= i < at ==> fullname@[i] != '.',
        ensures
            at <= len,
            at < len ==> fullname@[at as int] == '.',
        decreases len - at,
    {
        if fullname.get_char(at) == '.' {
            break ;
        }
        at += 1;
    }
    proof {
        lemma_first_stop_is(fullname@, at as int);
    }
    String::from_str(fullname.substring_char(0, at))
}

/// The host name that this endpoint advertises: the machine's name with
/// `.local.` behind it.
pub fn local_host_name(hostname: &str) -> (host_name: String)
    ensures
        host_name@ == hostname@ + ".local."@,
{
    String::from_str(hostname).concat(".local.")
}

/// Where datagrams for the peer at `address` go: the address with the
/// receiving side's port behind it.
pub fn server_endpoint(address: &str) -> (endpoint: String)
    ensures
        endpoint@ == address@ + ":18521"@,
{
    String::from_str(address).concat(":18521")
}

/// Where the datagrams of one round go: one endpoint for each peer on
/// record, in the order of the record.
pub open spec fn endpoints_of(entries: Seq<PeerView>) -> Seq<Seq<char>> {
    Seq::new(entries.len(), |i: int| entries[i].address + ":18521"@)
}

/// The contents of a list of strings.
pub open spec fn string_views(list: Seq<String>) -> Seq<Seq<char>> {
    Seq::new(list.len(), |i: int| list[i]@)
}

/// The peers that discovery has resolved.
pub struct PeerTable {
    peers: Vec<Peer>,
}

impl View for PeerTable {
    type V = Seq<PeerView>;

    closed spec fn view(&self) -> Seq<PeerView> {
        peer_views(self.peers@)
    }
}

impl PeerTable {
    /// Whether the table's invariant holds: no identifier stands twice.
    pub open spec fn wf(&self) -> bool {
        distinct_identifiers(self@)
    }

    /// An empty table.
    pub fn new() -> (table: PeerTable)
        ensures
            table.wf(),
            table@ == Seq::<PeerView>::empty(),
    {
        let table = PeerTable { peers: Vec::new() };
        assert(table@ =~= Seq::<PeerView>::empty());
        table
    }

    /// How many peers are on record.
    pub fn len(&self) -> (count: usize)
        ensures
            count == self@.len(),
    {
        self.peers.len()
    }

    /// Where `identifier` stands in the table, if it does.
    fn find(&self, identifier: &String) -> (found: Option<usize>)
        ensures
            match found {
                Some(i) => position_of(self@, identifier@) == Some(i as int) && i < self@.len(),
                None => position_of(self@, identifier@) is None,
            },
    {
        let mut i: usize = self.peers.len();
        assert(self@.subrange(0, i as int) =~= self@);
        while i > 0
            invariant
                i <= self.peers@.len(),
                position_of(self@, identifier@) == position_of(
                    self@.subrange(0, i as int),
                    identifier@,
                ),
            decreases i,
        {
            i -= 1;
            assert(self@.subrange(0, i + 1).last() == self@[i as int]);
            assert(self@.subrange(0, i + 1).drop_last() =~= self@.subrange(0, i as int));
            if self.peers[i].identifier == *identifier {
                return Some(i);
            }
        }
        None
    }

    /// The address on record for `identifier`, if there is one.
    pub fn get(&self, identifier: &String) -> (address: Option<String>)
        ensures
            match address {
                Some(a) => address_of(self@, identifier@) == Some(a@),
                None => address_of(self@, identifier@) is None,
            },
    {
        match self.find(identifier) {
            Some(i) => Some(self.peers[i].address.clone()),
            None => None,
        }
    }

    /// Puts `identifier` on record with `address` and returns the address
    /// that was on record before, if there was one.
    pub fn insert(&mut self, identifier: String, address: String) -> (previous: Option<String>)
        requires
            old(self).wf(),
        ensures
            final(self).wf(),
            final(self)@ == with_peer(old(self)@, identifier@, address@),
            match previous {
                Some(a) => address_of(old(self)@, identifier@) == Some(a@),
                None => address_of(old(self)@, identifier@) is None,
            },
    {
        proof {
            lemma_with_peer(self@, identifier@, address@);
        }
        let ghost wanted = with_peer(self@, identifier@, address@);
        match self.find(&identifier) {
            Some(i) => {
                let known = self.peers.remove(i);
                self.peers.insert(i, Peer { identifier, address });
                assert(self@ =~= wanted);
                Some(known.address)
            },
            None => {
                self.peers.push(Peer { identifier, address });
                assert(self@ =~= wanted);
                None
            },
        }
    }

    /// Takes `identifier` off the record and returns its address, if it was
    /// on record.
    pub fn remove(&mut self, identifier: &String) -> (previous: Option<String>)
        requires
            old(self).wf(),
        ensures
            final(self).wf(),
            final(self)@ == without_peer(old(self)@, identifier@),
            address_of(final(self)@, identifier@) is None,
            match previous {
                Some(a) => address_of(old(self)@, identifier@) == Some(a@),
                None => address_of(old(self)@, identifier@) is None,
            },
    {
        let ghost before = self@;
        match self.find(identifier) {
            Some(i) => {
                let known = self.peers.remove(i);
                proof {
                    assert(self@ =~= before.remove(i as int));
                    assert forall|a: int, b: int|
                        0 <= a < b < self@.len() implies self@[a].identifier
                        != self@[b].identifier by {
                        let a0 = if a < i { a } else { a + 1 };
                        let b0 = if b < i { b } else { b + 1 };
                        assert(self@[a] == before[a0]);
                        assert(self@[b] == before[b0]);
                    }
                    lemma_position_of(before, identifier@);
                    lemma_position_of(self@, identifier@);
                    if position_of(self@, identifier@) is Some {
                        let k = position_of(self@, identifier@)->0;
                        let k0 = if k < i { k } else { k + 1 };
                        assert(self@[k] == before[k0]);
                        assert(before[k0].identifier == before[i as int].identifier);
                    }
                }
                Some(known.address)
            },
            None => None,
        }
    }

    /// Takes in one resolved service: the peer `fullname` is put on record
    /// under each of `addresses` in turn, so that the last one stays.
    pub fn record_resolved(&mut self, fullname: &String, addresses: &Vec<String>)
        requires
            old(self).wf(),
        ensures
            final(self).wf(),
            final(self)@ == (if addresses@.len() == 0 {
                old(self)@
            } else {
                with_peer(old(self)@, fullname@, addresses@.last()@)
            }),
    {
        let mut i: usize = 0;
        while i < addresses.len()
            invariant
                i <= addresses@.len(),
                old(self).wf(),
                self.wf(),
                self@ == (if i == 0 {
                    old(self)@
                } else {
                    with_peer(old(self)@, fullname@, addresses@[i - 1]@)
                }),
            decreases addresses@.len() - i,
        {
            proof {
                if i > 0 {
                    lemma_with_peer_twice(
                        old(self)@,
                        fullname@,
                        addresses@[i - 1]@,
                        addresses@[i as int]@,
                    );
                }
            }
            let _ = self.insert(fullname.clone(), addresses[i].clone());
            i += 1;
        }
    }

    /// The endpoints that one round of sending goes to: every peer on record
    /// once, none left out.
    pub fn endpoints(&self) -> (endpoints: Vec<String>)
        ensures
            string_views(endpoints@) == endpoints_of(self@),
    {
        let mut endpoints: Vec<String> = Vec::new();
        let mut i: usize = 0;
        while i < self.peers.len()
            invariant
                i <= self.peers@.len(),
                endpoints@.len() == i,
                forall|j: int|
                    0 <= j < i ==> endpoints@[j]@ == self.peers@[j].address@ + ":18521"@,
            decreases self.peers@.len() - i,
        {
            endpoints.push(server_endpoint(self.peers[i].address.as_str()));
            i += 1;
        }
        assert(string_views(endpoints@) =~= endpoints_of(self@));
        endpoints
    }

    /// A copy of the table as it stands, for the sender to walk without
    /// holding the table.
    pub fn snapshot(&self) -> (peers: Vec<Peer>)
        ensures
            peer_views(peers@) == self@,
    {
        let mut peers: Vec<Peer> = Vec::new();
        let mut i: usize = 0;
        while i < self.peers.len()
            invariant
                i <= self.peers@.len(),
                peers@.len() == i,
                forall|j: int| 0 <= j < i ==> peers@[j]@ == self.peers@[j]@,
            decreases self.peers@.len() - i,
        {
            peers.push(self.peers[i].duplicate());
            i += 1;
        }
        assert(peer_views(peers@) =~= self@);
        peers
    }
}

} // verus!
