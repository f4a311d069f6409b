//! The replicated key-value service: values are kept as bytes under a scope
//! and a key, and every change says what is to be published on the channel
//! `kv`. Only reading is local.

use crate::codec::copy_bytes;
use crate::codec::json_of;
use crate::codec::json_text;
use crate::codec::text_model;
use crate::codec::text_of;
use crate::codec::utf8_text;
use vstd::prelude::*;

verus! {

/// The tag of the key-value service among the services.
pub const KV_SERVICE: u16 = 0;

/// A request to the key-value service.
#[derive(Clone, Debug, PartialEq, Eq)]
pub enum Event {
    Get { key: Vec<u8> },
    Put { key: Vec<u8>, value: Vec<u8> },
    Cas { key: Vec<u8>, check_value: Vec<u8>, store_value: Vec<u8> },
    Delete { key: Vec<u8> },
}

/// Why a request was not taken.
#[derive(Clone, Copy, Debug, PartialEq, Eq, Structural)]
pub enum Error {
    /// The request could not be read.
    UnknownEvent,
}

/// What is published on the channel `kv`.
#[derive(Clone, Debug, PartialEq, Eq)]
#[allow(inconsistent_fields)]
pub enum PSEvent {
    Put { scope: u16, key: String, new: String, old: Option<String> },
    Cas { scope: u16, key: String, new: String, old: String },
    CasConflict { scope: u16, key: String, new: String, conflict: Option<String> },
    Delete { scope: u16, key: String, old: Option<String> },
}

/// The value of a [`PSEvent`].
#[allow(inconsistent_fields)]
pub ghost enum PubModel {
    Put { scope: u16, key: Seq<char>, new: Seq<char>, old: Option<Seq<char>> },
    Cas { scope: u16, key: Seq<char>, new: Seq<char>, old: Seq<char> },
    CasConflict { scope: u16, key: Seq<char>, new: Seq<char>, conflict: Option<Seq<char>> },
    Delete { scope: u16, key: Seq<char>, old: Option<Seq<char>> },
}

/// The value of bytes that may be missing.
pub open spec fn bytes_model(b: Option<Vec<u8>>) -> Option<Seq<u8>> {
    match b {
        Some(b) => Some(b@),
        None => None,
    }
}

impl View for PSEvent {
    type V = PubModel;

    open spec fn view(&self) -> PubModel {
        match self {
            PSEvent::Put { scope, key, new, old } => PubModel::Put {
                scope: *scope,
                key: key@,
                new: new@,
                old: text_model(*old),
            },
            PSEvent::Cas { scope, key, new, old } => PubModel::Cas {
                scope: *scope,
                key: key@,
                new: new@,
                old: old@,
            },
            PSEvent::CasConflict { scope, key, new, conflict } => PubModel::CasConflict {
                scope: *scope,
                key: key@,
                new: new@,
                conflict: text_model(*conflict),
            },
            PSEvent::Delete { scope, key, old } => PubModel::Delete {
                scope: *scope,
                key: key@,
                old: text_model(*old),
            },
        }
    }
}

/// One value with its scope and key.
#[derive(Clone, Debug, PartialEq, Eq)]
pub struct Record {
    pub scope: u16,
    pub key: Vec<u8>,
    pub value: Vec<u8>,
}

/// The records of a store as mathematical values.
pub type Records = Seq<(u16, Seq<u8>, Seq<u8>)>;

/// The values of a run of records.
pub open spec fn record_models(s: Seq<Record>) -> Records {
    Seq::new(s.len(), |i: int| (s[i].scope, s[i].key@, s[i].value@))
}

/// No scope and key occur twice.
pub open spec fn unique(records: Records) -> bool {
    forall|i: int, j: int|
        0 <= i < j < records.len() ==> !(records[i].0 == records[j].0 && records[i].1
            == records[j].1)
}

/// A value is kept under the scope and key.
pub open spec fn holds(records: Records, scope: u16, key: Seq<u8>) -> bool {
    exists|i: int|
        0 <= i < records.len() && (#[trigger] records[i]).0 == scope && records[i].1 == key
}

/// The place of the record with the scope and key, where there is one.
pub open spec fn place(records: Records, scope: u16, key: Seq<u8>) -> int {
    choose|i: int|
        0 <= i < records.len() && (#[trigger] records[i]).0 == scope && records[i].1 == key
}

/// The value kept under the scope and key.
pub open spec fn lookup(records: Records, scope: u16, key: Seq<u8>) -> Option<Seq<u8>> {
    if holds(records, scope, key) {
        Some(records[place(records, scope, key)].2)
    } else {
        None
    }
}

/// The records after a value was written under the scope and key.
pub open spec fn written(records: Records, scope: u16, key: Seq<u8>, value: Seq<u8>) -> Records {
    if holds(records, scope, key) {
        records.update(place(records, scope, key), (scope, key, value))
    } else {
        records.push((scope, key, value))
    }
}

/// The records after what was kept under the scope and key was dropped.
pub open spec fn deleted(records: Records, scope: u16, key: Seq<u8>) -> Records {
    if holds(records, scope, key) {
        records.remove(place(records, scope, key))
    } else {
        records
    }
}

/// The text of the bytes, or the empty text where they are no UTF-8.
pub open spec fn shown(bytes: Seq<u8>) -> Seq<char> {
    match utf8_text(bytes) {
        Some(t) => t,
        None => Seq::empty(),
    }
}

/// The text of a value that may be missing.
pub open spec fn text_of_value(value: Option<Seq<u8>>) -> Option<Seq<char>> {
    match value {
        Some(v) => utf8_text(v),
        None => None,
    }
}

/// The answer that carries a text, where there is one.
pub open spec fn answer(text: Option<Seq<char>>) -> Option<Seq<u8>> {
    match text {
        Some(t) => Some(json_text(t)),
        None => None,
    }
}

/// Whether two runs of bytes are the same.
pub fn same_bytes(a: &Vec<u8>, b: &Vec<u8>) -> (r: bool)
    ensures
        r == (a@ == b@),
{
    if a.len() != b.len() {
        return false;
    }
    let mut i: usize = 0;
    while i < a.len()
        invariant
            i <= a@.len(),
            a@.len() == b@.len(),
            forall|j: int| 0 <= j < i ==> a@[j] == b@[j],
        decreases a@.len() - i,
    {
        if a[i] != b[i] {
            return false;
        }
        i += 1;
    }
    assert(a@ =~= b@);
    true
}

/// The values of the service, each under its scope and key.
pub struct Store {
    records: Vec<Record>,
}

impl Store {
    /// No scope and key occur twice.
    pub closed spec fn wf(&self) -> bool {
        unique(record_models(self.records@))
    }

    /// The records kept.
    pub closed spec fn model(&self) -> Records {
        record_models(self.records@)
    }

    /// A store without values.
    pub fn new() -> (s: Self)
        ensures
            s.wf(),
            s.model() == Seq::<(u16, Seq<u8>, Seq<u8>)>::empty(),
    {
        let s = Store { records: Vec::new() };
        assert(s.model() =~= Seq::<(u16, Seq<u8>, Seq<u8>)>::empty());
        s
    }

    /// The place of the record with the scope and key.
    fn find(&self, scope: u16, key: &Vec<u8>) -> (r: Option<usize>)
        requires
            self.wf(),
        ensures
            match r {
                Some(i) => holds(self.model(), scope, key@) && i == place(self.model(), scope, key@)
                    && i < self.records@.len(),
                None => !holds(self.model(), scope, key@),
            },
    {
        let mut i: usize = 0;
        while i < self.records.len()
            invariant
                self.wf(),
                i <= self.records@.len(),
                forall|j: int|
                    0 <= j < i ==> !((#[trigger] record_models(self.records@)[j]).0 == scope
                        && record_models(self.records@)[j].1 == key@),
            decreases self.records@.len() - i,
        {
            if self.records[i].scope == scope && same_bytes(&self.records[i].key, key) {
                proof {
                    let all = record_models(self.records@);
                    assert(all[i as int].0 == scope && all[i as int].1 == key@);
                    assert(holds(all, scope, key@));
                    let c = place(all, scope, key@);
                    assert(0 <= c < all.len() && all[c].0 == scope && all[c].1 == key@);
                    if c < i {
                        assert(!(all[c].0 == all[i as int].0 && all[c].1 == all[i as int].1));
                    }
                    if i < c {
                        assert(!(all[i as int].0 == all[c].0 && all[i as int].1 == all[c].1));
                    }
                }
                return Some(i);
            }
            i += 1;
        }
        None
    }

    /// The value kept under the scope and key.
    pub fn get(&self, scope: u16, key: &Vec<u8>) -> (r: Option<Vec<u8>>)
        requires
            self.wf(),
        ensures
            bytes_model(r) == lookup(self.model(), scope, key@),
    {
        match self.find(scope, key) {
            Some(i) => Some(copy_bytes(self.records[i].value.as_slice())),
            None => None,
        }
    }

    /// Writes a value under the scope and key.
    pub fn put(&mut self, scope: u16, key: &Vec<u8>, value: &Vec<u8>)
        requires
            old(self).wf(),
        ensures
            final(self).wf(),
            final(self).model() == written(old(self).model(), scope, key@, value@),
    {
        let ghost before = self.model();
        let record = Record {
            scope,
            key: copy_bytes(key.as_slice()),
            value: copy_bytes(value.as_slice()),
        };
        match self.find(scope, key) {
            Some(i) => {
                self.records.set(i, record);
                assert(self.model() =~= before.update(i as int, (scope, key@, value@)));
            },
            None => {
                self.records.push(record);
                assert(self.model() =~= before.push((scope, key@, value@)));
            },
        }
    }

    /// Drops what is kept under the scope and key, and hands it out.
    pub fn delete(&mut self, scope: u16, key: &Vec<u8>) -> (r: Option<Vec<u8>>)
        requires
            old(self).wf(),
        ensures
            final(self).wf(),
            final(self).model() == deleted(old(self).model(), scope, key@),
            bytes_model(r) == lookup(old(self).model(), scope, key@),
    {
        let ghost before = self.model();
        match self.find(scope, key) {
            Some(i) => {
                let record = self.records.remove(i);
                assert(self.model() =~= before.remove(i as int));
                Some(record.value)
            },
            None => None,
        }
    }
}

/// The service for one scope.
pub struct Service {
    scope: u16,
}

/// What a request for reading answers.
pub open spec fn get_answer(records: Records, scope: u16, key: Seq<u8>) -> Option<Seq<u8>> {
    answer(text_of_value(lookup(records, scope, key)))
}

/// What writing publishes: the new text, and the old one where there was
/// one.
pub open spec fn put_publication(records: Records, scope: u16, key: Seq<u8>, value: Seq<u8>) -> PubModel {
    PubModel::Put {
        scope,
        key: shown(key),
        new: shown(value),
        old: text_of_value(lookup(records, scope, key)),
    }
}

/// The check of a compare-and-swap holds: the value kept is the one
/// expected.
pub open spec fn cas_holds(records: Records, scope: u16, key: Seq<u8>, check: Seq<u8>) -> bool {
    lookup(records, scope, key) == Some(check)
}

/// The records after a compare-and-swap: the new value where the check
/// holds, and no change where it does not.
pub open spec fn cas_records(
    records: Records,
    scope: u16,
    key: Seq<u8>,
    check: Seq<u8>,
    store: Seq<u8>,
) -> Records {
    if cas_holds(records, scope, key, check) {
        written(records, scope, key, store)
    } else {
        records
    }
}

/// What a compare-and-swap answers: the new text where the check holds, the
/// text in its way where it does not.
pub open spec fn cas_answer(
    records: Records,
    scope: u16,
    key: Seq<u8>,
    check: Seq<u8>,
    store: Seq<u8>,
) -> Option<Seq<u8>> {
    if cas_holds(records, scope, key, check) {
        answer(utf8_text(store))
    } else {
        answer(text_of_value(lookup(records, scope, key)))
    }
}

/// What a compare-and-swap publishes: the swap where the check holds, the
/// conflict where it does not.
pub open spec fn cas_publication(
    records: Records,
    scope: u16,
    key: Seq<u8>,
    check: Seq<u8>,
    store: Seq<u8>,
) -> PubModel {
    if cas_holds(records, scope, key, check) {
        PubModel::Cas { scope, key: shown(key), new: shown(store), old: shown(check) }
    } else {
        PubModel::CasConflict {
            scope,
            key: shown(key),
            new: shown(store),
            conflict: text_of_value(lookup(records, scope, key)),
        }
    }
}

/// Only reading is served where it is asked.
pub open spec fn local(event: Event) -> bool {
    event is Get
}

impl Service {
    /// The scope that the service works in.
    pub closed spec fn scope(&self) -> u16 {
        self.scope
    }

    /// The service for a scope.
    pub fn new(scope: u16) -> (s: Self)
        ensures
            s.scope() == scope,
    {
        Self { scope }
    }

    /// Whether the request is served without going through the log.
    pub fn is_local(&self, event: &Event) -> (r: Result<bool, Error>)
        ensures
            r == Ok::<bool, Error>(local(*event)),
    {
        match event {
            Event::Get { .. } => Ok(true),
            Event::Put { .. } => Ok(false),
            Event::Cas { .. } => Ok(false),
            Event::Delete { .. } => Ok(false),
        }
    }

    /// The text of the bytes, or the empty text.
    fn show(bytes: &Vec<u8>) -> (r: String)
        ensures
            r@ == shown(bytes@),
    {
        match text_of(bytes) {
            Some(t) => t,
            None => String::new(),
        }
    }

    /// The text of a value that may be missing.
    fn text(value: &Option<Vec<u8>>) -> (r: Option<String>)
        ensures
            text_model(r) == text_of_value(bytes_model(*value)),
    {
        match value {
            Some(v) => text_of(v),
            None => None,
        }
    }

    /// The answer that carries a text, where there is one.
    fn reply(text: &Option<String>) -> (r: Option<Vec<u8>>)
        ensures
            bytes_model(r) == answer(text_model(*text)),
    {
        match text {
            Some(t) => Some(json_of(t)),
            None => None,
        }
    }

    /// Serves one request on the store: the answer, and what is to be
    /// published.
    pub fn execute(&mut self, store: &mut Store, event: Event) -> (r: (
        Option<Vec<u8>>,
        Option<PSEvent>,
    ))
        requires
            old(store).wf(),
        ensures
            final(store).wf(),
            final(self).scope() == old(self).scope(),
            match event {
                Event::Get { key } => {
                    &&& final(store).model() == old(store).model()
                    &&& bytes_model(r.0) == get_answer(old(store).model(), old(self).scope(), key@)
                    &&& r.1.is_none()
                },
                Event::Put { key, value } => {
                    &&& final(store).model() == written(
                        old(store).model(),
                        old(self).scope(),
                        key@,
                        value@,
                    )
                    &&& bytes_model(r.0) == get_answer(old(store).model(), old(self).scope(), key@)
                    &&& r.1.is_some() && r.1.unwrap()@ == put_publication(
                        old(store).model(),
                        old(self).scope(),
                        key@,
                        value@,
                    )
                },
                Event::Cas { key, check_value, store_value } => {
                    &&& final(store).model() == cas_records(
                        old(store).model(),
                        old(self).scope(),
                        key@,
                        check_value@,
                        store_value@,
                    )
                    &&& bytes_model(r.0) == cas_answer(
                        old(store).model(),
                        old(self).scope(),
                        key@,
                        check_value@,
                        store_value@,
                    )
                    &&& r.1.is_some() && r.1.unwrap()@ == cas_publication(
                        old(store).model(),
                        old(self).scope(),
                        key@,
                        check_value@,
                        store_value@,
                    )
                },
                Event::Delete { key } => {
                    &&& final(store).model() == deleted(old(store).model(), old(self).scope(), key@)
                    &&& bytes_model(r.0) == get_answer(old(store).model(), old(self).scope(), key@)
                    &&& r.1.is_some() && r.1.unwrap()@ == (PubModel::Delete {
                        scope: old(self).scope(),
                        key: shown(key@),
                        old: text_of_value(lookup(old(store).model(), old(self).scope(), key@)),
                    })
                },
            },
    {
        let scope = self.scope;
        match event {
            Event::Get { key } => {
                let value = store.get(scope, &key);
                let text = Self::text(&value);
                (Self::reply(&text), None)
            },
            Event::Put { key, value } => {
                let before = store.get(scope, &key);
                let old_text = Self::text(&before);
                store.put(scope, &key, &value);
                let answer = Self::reply(&old_text);
                let msg = PSEvent::Put {
                    scope,
                    key: Self::show(&key),
                    new: Self::show(&value),
                    old: old_text,
                };
                (answer, Some(msg))
            },
            Event::Cas { key, check_value, store_value } => {
                let current = store.get(scope, &key);
                let matches = match &current {
                    Some(c) => same_bytes(c, &check_value),
                    None => false,
                };
                if matches {
                    store.put(scope, &key, &store_value);
                    let new = text_of(&store_value);
                    let answer = Self::reply(&new);
                    let msg = PSEvent::Cas {
                        scope,
                        key: Self::show(&key),
                        new: Self::show(&store_value),
                        old: Self::show(&check_value),
                    };
                    (answer, Some(msg))
                } else {
                    let conflict = Self::text(&current);
                    let answer = Self::reply(&conflict);
                    let msg = PSEvent::CasConflict {
                        scope,
                        key: Self::show(&key),
                        new: Self::show(&store_value),
                        conflict,
                    };
                    (answer, Some(msg))
                }
            },
            Event::Delete { key } => {
                let before = store.delete(scope, &key);
                let old_text = Self::text(&before);
                let answer = Self::reply(&old_text);
                let msg = PSEvent::Delete { scope, key: Self::show(&key), old: old_text };
                (answer, Some(msg))
            },
        }
    }
}

/// A compare-and-swap whose check holds leaves the new value under the
/// key and answers with it; one whose check fails leaves the records as
/// they were and publishes the conflict.
pub proof fn lemma_cas_swaps_or_conflicts(
    records: Records,
    scope: u16,
    key: Seq<u8>,
    check: Seq<u8>,
    store: Seq<u8>,
)
    requires
        unique(records),
    ensures
        cas_holds(records, scope, key, check) ==> lookup(
            cas_records(records, scope, key, check, store),
            scope,
            key,
        ) == Some(store) && cas_answer(records, scope, key, check, store) == answer(
            utf8_text(store),
        ) && cas_publication(records, scope, key, check, store) is Cas,
        !cas_holds(records, scope, key, check) ==> cas_records(records, scope, key, check, store)
            == records && cas_publication(records, scope, key, check, store) is CasConflict,
{
    if cas_holds(records, scope, key, check) {
        let after = written(records, scope, key, store);
        let at = place(records, scope, key);
        assert(after[at] == (scope, key, store));
        assert(holds(after, scope, key));
        let found = place(after, scope, key);
        assert(after.len() == records.len());
        if found != at {
            assert(after[found] == records[found]);
            if found < at {
                assert(!(records[found].0 == records[at].0 && records[found].1 == records[at].1));
            } else {
                assert(!(records[at].0 == records[found].0 && records[at].1 == records[found].1));
            }
        }
    }
}

} // verus!
