//! The addresses at which the leaders take transactions.

use vstd::prelude::*;

use crate::leaders::{estimated_slot, LeadersFetcher, SlotFetcher};

verus! {

/// How many slots each leader has in a row.
pub const SLOTS_PER_LEADER: u64 = 4;

/// The file of validators is read again this many seconds after the last time.
pub const TPU_FILE_REFRESH_SECS: u64 = 300;

/// How long to wait before looking for the addresses again.
pub const TPU_REFRESH_MILLIS: u64 = 500;

/// The address of a socket.
#[allow(inconsistent_fields)]
#[derive(Clone, Copy, Debug, PartialEq, Eq)]
pub enum SocketAddress {
    V4 { ip: [u8; 4], port: u16 },
    V6 { ip: [u8; 16], port: u16 },
}

/// What the bytes of a file of validators are decoded to, if they decode: the entries of
/// the map from validators to addresses, an address of four bytes under `Ok` and one of
/// sixteen under `Err`.
pub uninterp spec fn decoded_validators(bytes: Seq<u8>) -> Option<
    Seq<(Seq<char>, Result<(Seq<u8>, u16), (Seq<u8>, u16)>)>,
>;

/// An entry by its views.
pub open spec fn entry_view(entry: (String, Result<([u8; 4], u16), ([u8; 16], u16)>)) -> (
    Seq<char>,
    Result<(Seq<u8>, u16), (Seq<u8>, u16)>,
) {
    (
        entry.0@,
        match entry.1 {
            Ok(v4) => Ok((v4.0@, v4.1)),
            Err(v6) => Err((v6.0@, v6.1)),
        },
    )
}

/// `bincode::deserialize`. A map is encoded as the sequence of its entries, and an
/// address of a socket as one of two variants that each hold the bytes of an IP
/// address and a port, which is how pairs and a `Result` are encoded too. Claimed is
/// that the bytes alone decide whether they decode, and the entries. The reason for a
/// refusal is not kept.
#[verifier::external_body]
fn decode_validators(data: &[u8]) -> (decoded: Option<
    Vec<(String, Result<([u8; 4], u16), ([u8; 16], u16)>)>,
>)
    ensures
        match decoded {
            Some(entries) => decoded_validators(data@) == Some(
                Seq::new(entries@.len(), |i: int| entry_view(entries@[i])),
            ),
            None => decoded_validators(data@) is None,
        },
{
    bincode::deserialize::<Vec<(String, Result<([u8; 4], u16), ([u8; 16], u16)>)>>(data).ok()
}

/// The address with these bytes.
pub open spec fn address_with(raw: Result<(Seq<u8>, u16), (Seq<u8>, u16)>) -> SocketView {
    match raw {
        Ok(v4) => SocketView::V4 { ip: v4.0, port: v4.1 },
        Err(v6) => SocketView::V6 { ip: v6.0, port: v6.1 },
    }
}

/// The address of a socket by its bytes.
pub enum SocketView {
    V4 { ip: Seq<u8>, port: u16 },
    V6 { ip: Seq<u8>, port: u16 },
}

impl View for SocketAddress {
    type V = SocketView;

    open spec fn view(&self) -> SocketView {
        match *self {
            SocketAddress::V4 { ip, port } => SocketView::V4 { ip: ip@, port },
            SocketAddress::V6 { ip, port } => SocketView::V6 { ip: ip@, port },
        }
    }
}

/// The map with these entries, of which a later one replaces an earlier one of the
/// same validator.
pub open spec fn validators_of(
    entries: Seq<(Seq<char>, Result<(Seq<u8>, u16), (Seq<u8>, u16)>)>,
) -> Map<Seq<char>, SocketView>
    decreases entries.len(),
{
    if entries.len() == 0 {
        Map::empty()
    } else {
        validators_of(entries.drop_last()).insert(entries.last().0, address_with(entries.last().1))
    }
}

/// The validators that a file names, if it could be read: none, if it does not decode.
pub open spec fn file_validators(contents: Option<Seq<u8>>) -> Map<Seq<char>, SocketView> {
    match contents {
        Some(bytes) => match decoded_validators(bytes) {
            Some(entries) => validators_of(entries),
            None => Map::empty(),
        },
        None => Map::empty(),
    }
}

/// The addresses of the validators, by the text forms of their identities.
pub struct TpuFetcher {
    entries: Vec<(String, Result<([u8; 4], u16), ([u8; 16], u16)>)>,
}

impl View for TpuFetcher {
    type V = Map<Seq<char>, SocketView>;

    closed spec fn view(&self) -> Map<Seq<char>, SocketView> {
        validators_of(self.entry_views())
    }
}

impl TpuFetcher {
    spec fn entry_views(&self) -> Seq<(Seq<char>, Result<(Seq<u8>, u16), (Seq<u8>, u16)>)> {
        Seq::new(self.entries@.len(), |i: int| entry_view(self.entries@[i]))
    }

    /// The validators with these entries.
    pub fn new(entries: Vec<(String, Result<([u8; 4], u16), ([u8; 16], u16)>)>) -> (fetcher:
        TpuFetcher)
        ensures
            fetcher@ == validators_of(
                Seq::new(entries@.len(), |i: int| entry_view(entries@[i])),
            ),
    {
        TpuFetcher { entries }
    }

    /// The validators that a file names: none, if the file could not be read or does
    /// not decode. Says also whether it was read and does not decode.
    pub fn load_validators(contents: Option<&[u8]>) -> (loaded: (TpuFetcher, bool))
        ensures
            loaded.0@ == file_validators(
                match contents {
                    Some(bytes) => Some(bytes@),
                    None => None,
                },
            ),
            loaded.1 == (match contents {
                Some(bytes) => decoded_validators(bytes@) is None,
                None => false,
            }),
    {
        let (entries, refused) = match contents {
            Some(data) => match decode_validators(data) {
                Some(entries) => {
                    return (TpuFetcher::new(entries), false);
                },
                None => (Vec::new(), true),
            },
            None => (Vec::new(), false),
        };
        let fetcher = TpuFetcher { entries };
        assert(fetcher@ == Map::<Seq<char>, SocketView>::empty());
        (fetcher, refused)
    }

    /// The address of a validator, if it is known.
    pub fn get(&self, key: &String) -> (tpu: Option<SocketAddress>)
        ensures
            match tpu {
                Some(address) => self@.contains_key(key@) && address@ == self@[key@],
                None => !self@.contains_key(key@),
            },
    {
        let ghost views = self.entry_views();
        let mut i: usize = self.entries.len();
        assert(views.take(i as int) =~= views);
        while i > 0
            invariant
                i <= self.entries@.len(),
                views == self.entry_views(),
                views.len() == self.entries@.len(),
                self@ == validators_of(views),
                validators_of(views).contains_key(key@) <==> validators_of(
                    views.take(i as int),
                ).contains_key(key@),
                validators_of(views).contains_key(key@) ==> validators_of(views)[key@]
                    == validators_of(views.take(i as int))[key@],
            decreases i,
        {
            i = i - 1;
            assert(views.take(i + 1).drop_last() =~= views.take(i as int));
            assert(views.take(i + 1).last() == entry_view(self.entries@[i as int]));
            if self.entries[i].0 == *key {
                return Some(
                    match self.entries[i].1 {
                        Ok(v4) => SocketAddress::V4 { ip: v4.0, port: v4.1 },
                        Err(v6) => SocketAddress::V6 { ip: v6.0, port: v6.1 },
                    },
                );
            }
        }
        None
    }
}

/// What a look at the leaders gave.
#[derive(Clone, Copy, Debug, PartialEq, Eq)]
pub enum TpuUpdate {
    /// The addresses of the previous, the current and the next leader.
    Found(SocketAddress, SocketAddress, SocketAddress),
    /// There are leaders, but none of their addresses is known.
    Unknown,
    /// None of the leaders is known: the slot and the leaders are to be fetched again.
    Refetch,
    /// The slots to look at are not slot numbers.
    OutOfRange,
}

/// A look at the leaders by the views of the addresses.
pub enum TpuUpdateView {
    Found(SocketView, SocketView, SocketView),
    Unknown,
    Refetch,
    OutOfRange,
}

impl View for TpuUpdate {
    type V = TpuUpdateView;

    open spec fn view(&self) -> TpuUpdateView {
        match *self {
            TpuUpdate::Found(a, b, c) => TpuUpdateView::Found(a@, b@, c@),
            TpuUpdate::Unknown => TpuUpdateView::Unknown,
            TpuUpdate::Refetch => TpuUpdateView::Refetch,
            TpuUpdate::OutOfRange => TpuUpdateView::OutOfRange,
        }
    }
}

/// The first of two values that is there.
pub open spec fn either<T>(a: Option<T>, b: Option<T>) -> Option<T> {
    match a {
        Some(_) => a,
        None => b,
    }
}

/// The address of a leader, if the leader is known and so is the address.
pub open spec fn leader_tpu(
    leader: Option<Seq<char>>,
    validators: Map<Seq<char>, SocketView>,
) -> Option<SocketView> {
    match leader {
        Some(key) => if validators.contains_key(key) {
            Some(validators[key])
        } else {
            None
        },
        None => None,
    }
}

/// Three addresses of which those that are missing are filled in from the others, the
/// neighbours first; nothing, if all are missing.
pub open spec fn filled<T>(prev: Option<T>, current: Option<T>, next: Option<T>) -> Option<
    (T, T, T),
> {
    match (
        either(prev, either(current, next)),
        either(current, either(prev, next)),
        either(next, either(current, prev)),
    ) {
        (Some(a), Some(b), Some(c)) => Some((a, b, c)),
        _ => None,
    }
}

/// Whether the leaders around `slot` can be looked for.
pub open spec fn can_look(leaders: LeadersFetcher, slot: int) -> bool {
    &&& SLOTS_PER_LEADER <= slot
    &&& slot + SLOTS_PER_LEADER <= u64::MAX
    &&& leaders.fits((slot - SLOTS_PER_LEADER) as u64)
    &&& leaders.fits(slot as u64)
    &&& leaders.fits((slot + SLOTS_PER_LEADER) as u64)
}

/// What a look at the leaders around `slot` gives.
pub open spec fn tpus_at(
    slot: int,
    leaders: LeadersFetcher,
    validators: Map<Seq<char>, SocketView>,
) -> TpuUpdateView {
    if !can_look(leaders, slot) {
        TpuUpdateView::OutOfRange
    } else {
        let prev = leaders.leader_of((slot - SLOTS_PER_LEADER) as u64);
        let current = leaders.leader_of(slot as u64);
        let next = leaders.leader_of((slot + SLOTS_PER_LEADER) as u64);
        if prev is None && current is None && next is None {
            TpuUpdateView::Refetch
        } else {
            match filled(
                leader_tpu(prev, validators),
                leader_tpu(current, validators),
                leader_tpu(next, validators),
            ) {
                Some((a, b, c)) => TpuUpdateView::Found(a, b, c),
                None => TpuUpdateView::Unknown,
            }
        }
    }
}

/// The addresses to send transactions to.
pub struct CurrentTpus {
    current_tpus: (SocketAddress, SocketAddress, SocketAddress),
}

impl View for CurrentTpus {
    type V = (SocketAddress, SocketAddress, SocketAddress);

    closed spec fn view(&self) -> (SocketAddress, SocketAddress, SocketAddress) {
        self.current_tpus
    }
}

/// Fills in missing addresses from the others.
pub fn fill_tpus(
    prev: Option<SocketAddress>,
    current: Option<SocketAddress>,
    next: Option<SocketAddress>,
) -> (tpus: Option<(SocketAddress, SocketAddress, SocketAddress)>)
    ensures
        tpus == filled(prev, current, next),
{
    match (prev, current, next) {
        (None, None, None) => None,
        (None, None, Some(next)) => Some((next, next, next)),
        (None, Some(current), None) => Some((current, current, current)),
        (None, Some(current), Some(next)) => Some((current, current, next)),
        (Some(prev), None, None) => Some((prev, prev, prev)),
        (Some(prev), None, Some(next)) => Some((prev, prev, next)),
        (Some(prev), Some(current), None) => Some((prev, current, current)),
        (Some(prev), Some(current), Some(next)) => Some((prev, current, next)),
    }
}

/// The address of a leader, if the leader is known and so is the address.
fn tpu_of(leader: &Option<String>, tpu_fetcher: &TpuFetcher) -> (tpu: Option<SocketAddress>)
    ensures
        match tpu {
            Some(address) => leader is Some && tpu_fetcher@.contains_key(leader->0@) && address@
                == tpu_fetcher@[leader->0@],
            None => leader is None || !tpu_fetcher@.contains_key(leader->0@),
        },
{
    match leader {
        Some(key) => tpu_fetcher.get(key),
        None => None,
    }
}

impl CurrentTpus {
    /// These addresses of the previous, the current and the next leader.
    pub fn new(tpus: (SocketAddress, SocketAddress, SocketAddress)) -> (current_tpus: CurrentTpus)
        ensures
            current_tpus@ == tpus,
    {
        CurrentTpus { current_tpus: tpus }
    }

    /// The addresses of the previous, the current and the next leader.
    pub fn get(&self) -> (tpus: (SocketAddress, SocketAddress, SocketAddress))
        ensures
            tpus == self@,
    {
        self.current_tpus
    }

    /// Looks for the addresses of the leaders around the slot that is estimated to be
    /// the current one at `now`.
    pub fn update(
        now: u128,
        slot_fetcher: &SlotFetcher,
        leaders_fetcher: &LeadersFetcher,
        tpu_fetcher: &TpuFetcher,
    ) -> (update: TpuUpdate)
        ensures
            update@ == tpus_at(
                estimated_slot(slot_fetcher@.0, slot_fetcher@.1, now),
                *leaders_fetcher,
                tpu_fetcher@,
            ),
    {
        let slot: u64 = match slot_fetcher.estimate(now) {
            Some(slot) => slot,
            None => {
                return TpuUpdate::OutOfRange;
            },
        };
        if slot < SLOTS_PER_LEADER || slot > u64::MAX - SLOTS_PER_LEADER {
            return TpuUpdate::OutOfRange;
        }
        let before: u64 = slot - SLOTS_PER_LEADER;
        let after: u64 = slot + SLOTS_PER_LEADER;
        if !leaders_fetcher.can_get(before) || !leaders_fetcher.can_get(slot)
            || !leaders_fetcher.can_get(after) {
            return TpuUpdate::OutOfRange;
        }
        let prev: Option<String> = leaders_fetcher.get(before);
        let current: Option<String> = leaders_fetcher.get(slot);
        let next: Option<String> = leaders_fetcher.get(after);
        if prev.is_none() && current.is_none() && next.is_none() {
            return TpuUpdate::Refetch;
        }
        match fill_tpus(
            tpu_of(&prev, tpu_fetcher),
            tpu_of(&current, tpu_fetcher),
            tpu_of(&next, tpu_fetcher),
        ) {
            Some((prev, current, next)) => TpuUpdate::Found(prev, current, next),
            None => TpuUpdate::Unknown,
        }
    }

    /// Takes over the addresses that a look at the leaders gave, if it gave any.
    pub fn refresh(&mut self, update: &TpuUpdate)
        ensures
            final(self)@ == match *update {
                TpuUpdate::Found(prev, current, next) => (prev, current, next),
                _ => old(self)@,
            },
    {
        if let TpuUpdate::Found(prev, current, next) = update {
            self.current_tpus = (*prev, *current, *next);
        }
    }
}

/// What happened to the one who keeps the addresses up to date.
#[derive(Clone, Copy, Debug, PartialEq, Eq)]
pub enum TpuEvent {
    /// The addresses are wanted.
    Started,
    /// A look at the leaders gave this.
    Looked(TpuUpdate),
    /// The slot was fetched again.
    SlotFetched,
    /// The leaders were fetched again.
    LeadersFetched,
    /// A wait is over.
    Waited,
}

/// What the one who keeps the addresses up to date does next.
#[derive(Clone, Copy, Debug, PartialEq, Eq)]
pub enum TpuAction {
    /// Look at the leaders.
    Look,
    /// Fetch the slot again.
    FetchSlot,
    /// Fetch the leaders again.
    FetchLeaders,
    /// Wait before going on.
    Wait { millis: u64 },
    /// Give up.
    Abort,
}

/// What is done after an event: a look every half second, and the slot and the leaders
/// fetched again in between where a look says so.
pub open spec fn tpu_action_after(event: TpuEvent) -> TpuAction {
    match event {
        TpuEvent::Started => TpuAction::Look,
        TpuEvent::Looked(TpuUpdate::Refetch) => TpuAction::FetchSlot,
        TpuEvent::Looked(TpuUpdate::OutOfRange) => TpuAction::Abort,
        TpuEvent::Looked(_) => TpuAction::Wait { millis: 500 },
        TpuEvent::SlotFetched => TpuAction::FetchLeaders,
        TpuEvent::LeadersFetched => TpuAction::Wait { millis: 500 },
        TpuEvent::Waited => TpuAction::Look,
    }
}

/// Says what to do after an event.
pub fn next_tpu_action(event: &TpuEvent) -> (action: TpuAction)
    ensures
        action == tpu_action_after(*event),
{
    match event {
        TpuEvent::Started => TpuAction::Look,
        TpuEvent::Looked(TpuUpdate::Refetch) => TpuAction::FetchSlot,
        TpuEvent::Looked(TpuUpdate::OutOfRange) => TpuAction::Abort,
        TpuEvent::Looked(_) => TpuAction::Wait { millis: TPU_REFRESH_MILLIS },
        TpuEvent::SlotFetched => TpuAction::FetchLeaders,
        TpuEvent::LeadersFetched => TpuAction::Wait { millis: TPU_REFRESH_MILLIS },
        TpuEvent::Waited => TpuAction::Look,
    }
}

/// Of three addresses, each that is known stands in its own place, and each place is
/// filled by one of them as soon as one is known.
pub proof fn known_addresses_keep_their_places<T>(
    prev: Option<T>,
    current: Option<T>,
    next: Option<T>,
)
    ensures
        filled(prev, current, next) is None <==> prev is None && current is None && next is None,
        match filled(prev, current, next) {
            Some((a, b, c)) => {
                &&& prev is Some ==> prev == Some(a)
                &&& current is Some ==> current == Some(b)
                &&& next is Some ==> next == Some(c)
                &&& prev == Some(a) || current == Some(a) || next == Some(a)
                &&& prev == Some(b) || current == Some(b) || next == Some(b)
                &&& prev == Some(c) || current == Some(c) || next == Some(c)
            },
            None => true,
        },
{
}

/// A file that names a validator gives its address; where it names one twice, the
/// later address holds.
pub proof fn later_entry_holds(
    entries: Seq<(Seq<char>, Result<(Seq<u8>, u16), (Seq<u8>, u16)>)>,
    i: int,
)
    requires
        0 <= i < entries.len(),
        forall|j: int| i < j < entries.len() ==> (#[trigger] entries[j]).0 != entries[i].0,
    ensures
        validators_of(entries).contains_key(entries[i].0),
        validators_of(entries)[entries[i].0] == address_with(entries[i].1),
    decreases entries.len(),
{
    if i < entries.len() - 1 {
        let shorter = entries.drop_last();
        assert(forall|j: int| 0 <= j < shorter.len() ==> shorter[j] == entries[j]);
        later_entry_holds(shorter, i);
        assert(entries.last().0 != entries[i].0);
    }
}

/// A look is at the leaders four slots before, at and four slots after the slot. It asks for
/// a fetch only where none of them is known; it finds addresses only where one of theirs is
/// known, and then each known one stands in its own place.
pub proof fn look_is_at_the_leaders_around(
    slot: int,
    leaders: LeadersFetcher,
    validators: Map<Seq<char>, SocketView>,
)
    requires
        4 <= slot,
        slot + 4 <= u64::MAX,
        leaders.first_slot() + leaders.leaders().len() <= u64::MAX,
    ensures
        ({
            let before = leaders.leader_of((slot - 4) as u64);
            let at = leaders.leader_of(slot as u64);
            let after = leaders.leader_of((slot + 4) as u64);
            let known = |leader: Option<Seq<char>>|
                leader is Some && validators.contains_key(leader->0);
            match tpus_at(slot, leaders, validators) {
                TpuUpdateView::OutOfRange => false,
                TpuUpdateView::Refetch => before is None && at is None && after is None,
                TpuUpdateView::Unknown => {
                    &&& before is Some || at is Some || after is Some
                    &&& !known(before) && !known(at) && !known(after)
                },
                TpuUpdateView::Found(a, b, c) => {
                    &&& known(before) || known(at) || known(after)
                    &&& known(before) ==> a == validators[before->0]
                    &&& known(at) ==> b == validators[at->0]
                    &&& known(after) ==> c == validators[after->0]
                    &&& !known(before) ==> a == (if known(at) {
                        b
                    } else {
                        c
                    })
                    &&& !known(at) ==> b == (if known(before) {
                        a
                    } else {
                        c
                    })
                    &&& !known(after) ==> c == (if known(at) {
                        b
                    } else {
                        a
                    })
                },
            }
        }),
{
}

/// Slots that are no numbers are not looked at: those before the fifth, and the last four.
pub proof fn slots_at_the_ends_are_out_of_range(
    slot: int,
    leaders: LeadersFetcher,
    validators: Map<Seq<char>, SocketView>,
)
    requires
        slot < 4 || slot > u64::MAX - 4,
    ensures
        tpus_at(slot, leaders, validators) is OutOfRange,
{
}

/// A file names the validators of its entries and no others.
pub proof fn file_names_the_validators_of_its_entries(
    entries: Seq<(Seq<char>, Result<(Seq<u8>, u16), (Seq<u8>, u16)>)>,
    key: Seq<char>,
)
    ensures
        validators_of(entries).contains_key(key) <==> exists|i: int|
            0 <= i < entries.len() && (#[trigger] entries[i]).0 == key,
    decreases entries.len(),
{
    if entries.len() > 0 {
        let shorter = entries.drop_last();
        file_names_the_validators_of_its_entries(shorter, key);
        assert(forall|i: int| 0 <= i < shorter.len() ==> shorter[i] == entries[i]);
        if exists|i: int| 0 <= i < entries.len() && (#[trigger] entries[i]).0 == key {
            let i = choose|i: int| 0 <= i < entries.len() && (#[trigger] entries[i]).0 == key;
            if i < shorter.len() {
                assert(shorter[i].0 == key);
            }
        }
        if exists|i: int| 0 <= i < shorter.len() && (#[trigger] shorter[i]).0 == key {
            let i = choose|i: int| 0 <= i < shorter.len() && (#[trigger] shorter[i]).0 == key;
            assert(entries[i].0 == key);
        }
        if entries.last().0 == key {
            assert(entries[entries.len() - 1].0 == key);
        }
    }
}

/// After a look there is half a second of waiting, with the slot and the leaders fetched
/// before it where the look found no leaders; after the wait there is another look.
pub proof fn looks_come_every_half_second(update: TpuUpdate)
    ensures
        tpu_action_after(TpuEvent::Started) is Look,
        update is Found || update is Unknown ==> tpu_action_after(TpuEvent::Looked(update)) == (
        TpuAction::Wait { millis: 500 }),
        update is Refetch ==> tpu_action_after(TpuEvent::Looked(update)) is FetchSlot,
        update is OutOfRange ==> tpu_action_after(TpuEvent::Looked(update)) is Abort,
        tpu_action_after(TpuEvent::SlotFetched) is FetchLeaders,
        tpu_action_after(TpuEvent::LeadersFetched) == (TpuAction::Wait { millis: 500 }),
        tpu_action_after(TpuEvent::Waited) is Look,
{
}

/// A file that can be read and decodes names the validators of its entries; any other names
/// none.
pub proof fn only_decoded_files_name_validators(contents: Option<Seq<u8>>, key: Seq<char>)
    ensures
        file_validators(contents).contains_key(key) <==> (contents is Some && decoded_validators(
            contents->0,
        ) is Some && exists|i: int|
            0 <= i < decoded_validators(contents->0)->0.len() && (#[trigger] decoded_validators(
                contents->0,
            )->0[i]).0 == key),
        contents is Some && decoded_validators(contents->0) is Some ==> file_validators(contents)
            == validators_of(decoded_validators(contents->0)->0),
{
    if contents is Some && decoded_validators(contents->0) is Some {
        file_names_the_validators_of_its_entries(decoded_validators(contents->0)->0, key);
    }
}

/// A validator has the address that its last entry gives it, byte for byte and with the
/// port; the entries of others do not matter to it.
pub proof fn entry_gives_its_address(
    entries: Seq<(Seq<char>, Result<(Seq<u8>, u16), (Seq<u8>, u16)>)>,
    key: Seq<char>,
    ip: Seq<u8>,
    port: u16,
    other: Seq<char>,
)
    requires
        other != key,
    ensures
        ({
            let with_v4 = validators_of(entries.push((key, Ok((ip, port)))));
            &&& with_v4[key] == (SocketView::V4 { ip, port })
            &&& with_v4.contains_key(other) == validators_of(entries).contains_key(other)
            &&& with_v4[other] == validators_of(entries)[other]
        }),
        ({
            let with_v6 = validators_of(entries.push((key, Err((ip, port)))));
            &&& with_v6[key] == (SocketView::V6 { ip, port })
            &&& with_v6.contains_key(other) == validators_of(entries).contains_key(other)
            &&& with_v6[other] == validators_of(entries)[other]
        }),
{
    assert(entries.push((key, Ok((ip, port)))).drop_last() =~= entries);
    assert(entries.push((key, Err((ip, port)))).drop_last() =~= entries);
}

/// Where the slots of the leaders run over the largest slot number, no look that reaches
/// them is in range.
pub proof fn leaders_that_run_over_are_out_of_range(
    slot: int,
    leaders: LeadersFetcher,
    validators: Map<Seq<char>, SocketView>,
)
    requires
        4 <= slot,
        slot + 4 <= u64::MAX,
        leaders.first_slot() + leaders.leaders().len() > 18_446_744_073_709_551_615,
    ensures
        slot + 4 >= leaders.first_slot() ==> tpus_at(slot, leaders, validators) is OutOfRange,
        slot + 4 < leaders.first_slot() ==> tpus_at(slot, leaders, validators) is Refetch,
{
}

/// Nothing of an entry is lost in its views: entries that look the same are of the same
/// validator and give it the same address.
pub proof fn entries_are_told_apart(
    a: (String, Result<([u8; 4], u16), ([u8; 16], u16)>),
    b: (String, Result<([u8; 4], u16), ([u8; 16], u16)>),
)
    requires
        entry_view(a) == entry_view(b),
    ensures
        a.0@ == b.0@,
        a.1 == b.1,
{
    match (a.1, b.1) {
        (Ok(x), Ok(y)) => {
            assert(x.0 =~= y.0);
        },
        (Err(x), Err(y)) => {
            assert(x.0 =~= y.0);
        },
        _ => {},
    }
}

} // verus!
