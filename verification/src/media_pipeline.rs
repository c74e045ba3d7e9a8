//! The media service registry: producers, filters, transitions and consumers,
//! each role keyed by service id.

use vstd::prelude::*;

use std::sync::Arc;

use crate::filter_graph::MediaKind;
use crate::keyed::{find_key, has_key, insertion_point, keys_sorted, lemma_insert_sorted, lemma_to_map, to_map, Keyed};
use crate::text::{char_is_ascii_alphanumeric, chars_of, is_ascii_alphanumeric, seq_lt};

verus! {

pub struct ServiceDescriptor {
    pub id: String,
    pub label: String,
    pub media: Vec<MediaKind>,
}

impl Clone for ServiceDescriptor {
    fn clone(&self) -> (copy: Self)
        ensures
            copy.id@ == self.id@,
            copy.label@ == self.label@,
            copy.media@ == self.media@,
    {
        let media = self.media.clone();
        assert(media@ =~= self.media@);
        ServiceDescriptor { id: self.id.clone(), label: self.label.clone(), media }
    }
}

#[derive(Debug, PartialEq, Eq)]
pub enum RegistryError {
    InvalidId(String),
    Duplicate(String),
}

pub open spec fn is_service_id_char(c: char) -> bool {
    is_ascii_alphanumeric(c) || c == '_' || c == '-' || c == '.'
}

/// Non-empty, made of ASCII letters, digits, `_`, `-` and `.`.
pub open spec fn valid_service_id(s: Seq<char>) -> bool {
    &&& s.len() >= 1
    &&& forall|i: int| 0 <= i < s.len() ==> is_service_id_char(#[trigger] s[i])
}

impl ServiceDescriptor {
    pub fn new(id: &str, label: &str, media: Vec<MediaKind>) -> (result: Result<Self, RegistryError>)
        ensures
            result is Ok <==> valid_service_id(id@),
            result matches Ok(d) ==> d.id@ == id@ && d.label@ == label@ && d.media@ == media@,
            result matches Err(e) ==> (e matches RegistryError::InvalidId(text) && text@ == id@),
    {
        let chars = chars_of(id);
        if chars.len() == 0 {
            return Err(RegistryError::InvalidId(id.to_owned()));
        }
        let mut i: usize = 0;
        while i < chars.len()
            invariant
                0 <= i <= chars@.len(),
                chars@ == id@,
                forall|k: int| 0 <= k < i ==> is_service_id_char(#[trigger] chars@[k]),
            decreases chars.len() - i,
        {
            let c = chars[i];
            if !(char_is_ascii_alphanumeric(c) || c == '_' || c == '-' || c == '.') {
                return Err(RegistryError::InvalidId(id.to_owned()));
            }
            i = i + 1;
        }
        Ok(ServiceDescriptor { id: id.to_owned(), label: label.to_owned(), media })
    }
}

/// A registered service under the id it reported when it was registered.
struct Registered<S> {
    id: String,
    service: S,
}

impl<S> Keyed for Registered<S> {
    closed spec fn key(&self) -> Seq<char> {
        self.id@
    }

    fn key_str(&self) -> (k: &str) {
        self.id.as_str()
    }
}

/// Register `service` under `id` in `table`. The service comes first so that
/// its type is read from it as it stands.
fn insert_service<S>(service: S, id: String, table: &mut RoleTable<S>) -> (result: Result<(), RegistryError>)
    requires
        old(table).well_formed(),
    ensures
        final(table).well_formed(),
        old(table).services().contains_key(id@) ==> result is Err && final(table).services() == old(table).services(),
        result matches Err(e) ==> (e matches RegistryError::Duplicate(text) && text@ == id@) && old(table).services().contains_key(id@),
        !old(table).services().contains_key(id@) ==> result is Ok && final(table).services() == old(
            table,
        ).services().insert(id@, service),
{
    table.insert(id, service)
}

/// The services of one role, sorted by id.
pub struct RoleTable<S> {
    entries: Vec<Registered<S>>,
}

impl<S> RoleTable<S> {
    pub closed spec fn well_formed(&self) -> bool {
        keys_sorted(self.entries@)
    }

    /// The registered services by id.
    pub closed spec fn services(&self) -> Map<Seq<char>, S> {
        Map::new(|k: Seq<char>| to_map(self.entries@).contains_key(k), |k: Seq<char>| to_map(self.entries@)[k].service)
    }

    /// The ids in ascending order.
    pub closed spec fn ids(&self) -> Seq<Seq<char>> {
        self.entries@.map_values(|r: Registered<S>| r.id@)
    }

    /// The table's ids ascend, name exactly its services, and the k-th id
    /// holds the k-th entry.
    proof fn lemma_ordered(&self)
        requires
            self.well_formed(),
        ensures
            self.ids().len() == self.entries@.len(),
            forall|i: int, j: int| 0 <= i < j < self.ids().len() ==> seq_lt(#[trigger] self.ids()[i], #[trigger] self.ids()[j]),
            forall|k: Seq<char>| self.services().contains_key(k) <==> #[trigger] self.ids().contains(k),
            forall|k: int| 0 <= k < self.entries@.len() ==> self.services()[#[trigger] self.ids()[k]] == self.entries@[k].service,
    {
        lemma_to_map(self.entries@);
        assert forall|k: Seq<char>| self.services().contains_key(k) <==> #[trigger] self.ids().contains(k) by {
            if self.services().contains_key(k) {
                let i = choose|i: int| 0 <= i < self.entries@.len() && #[trigger] self.entries@[i].key() == k;
                assert(self.ids()[i] == k);
            }
            if self.ids().contains(k) {
                let i = choose|i: int| 0 <= i < self.ids().len() && self.ids()[i] == k;
                assert(self.entries@[i].key() == k);
            }
        }
        assert forall|k: int| 0 <= k < self.entries@.len() implies self.services()[#[trigger] self.ids()[k]]
            == self.entries@[k].service by {
            assert(self.ids()[k] == self.entries@[k].key());
            assert(to_map(self.entries@)[self.entries@[k].key()] == self.entries@[k]);
        }
        assert forall|i: int, j: int| 0 <= i < j < self.ids().len() implies seq_lt(#[trigger] self.ids()[i], #[trigger] self.ids()[j]) by {
            assert(self.ids()[i] == self.entries@[i].key() && self.ids()[j] == self.entries@[j].key());
        }
    }

    fn new() -> (table: Self)
        ensures
            table.well_formed(),
            table.services() == Map::<Seq<char>, S>::empty(),
            table.ids().len() == 0,
    {
        let table = RoleTable { entries: Vec::new() };
        assert(table.services() =~= Map::<Seq<char>, S>::empty());
        table
    }

    fn insert(&mut self, id: String, service: S) -> (result: Result<(), RegistryError>)
        requires
            old(self).well_formed(),
        ensures
            final(self).well_formed(),
            old(self).services().contains_key(id@) ==> (result matches Err(e) && e matches RegistryError::Duplicate(
                text,
            ) && text@ == id@) && final(self).services() == old(self).services(),
            !old(self).services().contains_key(id@) ==> result is Ok && final(self).services() == old(
                self,
            ).services().insert(id@, service),
            result matches Err(e) ==> (e matches RegistryError::Duplicate(text) && text@ == id@),
    {
        proof {
            lemma_to_map(self.entries@);
        }
        if find_key(&self.entries, id.as_str()).is_some() {
            return Err(RegistryError::Duplicate(id));
        }
        let position = insertion_point(&self.entries, id.as_str());
        let ghost before = self.services();
        let entry = Registered { id, service };
        proof {
            lemma_insert_sorted(self.entries@, position as int, entry);
        }
        self.entries.insert(position, entry);
        proof {
            lemma_to_map(self.entries@);
        }
        assert(self.services() =~= before.insert(entry.id@, entry.service));
        Ok(())
    }

    fn get(&self, id: &str) -> (found: Option<&S>)
        requires
            self.well_formed(),
        ensures
            found is Some <==> self.services().contains_key(id@),
            found matches Some(s) ==> *s == self.services()[id@],
    {
        proof {
            lemma_to_map(self.entries@);
        }
        match find_key(&self.entries, id) {
            Some(i) => {
                assert(to_map(self.entries@)[self.entries@[i as int].key()] == self.entries@[i as int]);
                Some(&self.entries[i].service)
            },
            None => None,
        }
    }
}

/// A source port: it describes how media is created. File and process access
/// belong to an adapter chosen after the domain graph has been validated.
/// `described` is the descriptor the service reports; `descriptor` hands it
/// out.
pub trait Producer: Send + Sync {
    spec fn described(&self) -> ServiceDescriptor;

    fn descriptor(&self) -> (descriptor: &ServiceDescriptor)
        ensures
            *descriptor == self.described(),
    ;
}
/// A one-input media transformation.
/// `described` is the descriptor the service reports; `descriptor` hands it
/// out.
pub trait Filter: Send + Sync {
    spec fn described(&self) -> ServiceDescriptor;

    fn descriptor(&self) -> (descriptor: &ServiceDescriptor)
        ensures
            *descriptor == self.described(),
    ;
}
/// A transformation combining two producer tracks.
/// `described` is the descriptor the service reports; `descriptor` hands it
/// out.
pub trait Transition: Send + Sync {
    spec fn described(&self) -> ServiceDescriptor;

    fn descriptor(&self) -> (descriptor: &ServiceDescriptor)
        ensures
            *descriptor == self.described(),
    ;
}
/// A terminal port such as preview, file export or analysis.
/// `described` is the descriptor the service reports; `descriptor` hands it
/// out.
pub trait Consumer: Send + Sync {
    spec fn described(&self) -> ServiceDescriptor;

    fn descriptor(&self) -> (descriptor: &ServiceDescriptor)
        ensures
            *descriptor == self.described(),
    ;
}
/// The same descriptor: id, label and media kinds.
pub open spec fn same_descriptor(a: ServiceDescriptor, b: ServiceDescriptor) -> bool {
    a.id@ == b.id@ && a.label@ == b.label@ && a.media@ == b.media@
}

/// Ids in strictly ascending order.
pub open spec fn ids_ascending(ids: Seq<Seq<char>>) -> bool {
    forall|i: int, j: int| 0 <= i < j < ids.len() ==> seq_lt(#[trigger] ids[i], #[trigger] ids[j])
}

pub struct PipelineRegistry {
    producers: RoleTable<Arc<dyn Producer + 'static>>,
    filters: RoleTable<Arc<dyn Filter + 'static>>,
    transitions: RoleTable<Arc<dyn Transition + 'static>>,
    consumers: RoleTable<Arc<dyn Consumer + 'static>>,
}

pub struct RegistryManifest {
    pub producers: Vec<ServiceDescriptor>,
    pub filters: Vec<ServiceDescriptor>,
    pub transitions: Vec<ServiceDescriptor>,
    pub consumers: Vec<ServiceDescriptor>,
}

impl Default for PipelineRegistry {
    fn default() -> (registry: Self)
        ensures
            registry.well_formed(),
            registry.producers().len() == 0,
            registry.filters().len() == 0,
            registry.transitions().len() == 0,
            registry.consumers().len() == 0,
    {
        PipelineRegistry {
            producers: RoleTable::new(),
            filters: RoleTable::new(),
            transitions: RoleTable::new(),
            consumers: RoleTable::new(),
        }
    }
}

impl PipelineRegistry {
    /// Each role's table is sorted by id, and every service sits under the
    /// id its descriptor reports.
    pub closed spec fn well_formed(&self) -> bool {
        &&& self.producers.well_formed() && self.filters.well_formed() && self.transitions.well_formed()
            && self.consumers.well_formed()
        &&& forall|k: Seq<char>| #[trigger] self.producers().contains_key(k) ==> self.producers()[k].described().id@ == k
        &&& forall|k: Seq<char>| #[trigger] self.filters().contains_key(k) ==> self.filters()[k].described().id@ == k
        &&& forall|k: Seq<char>| #[trigger] self.transitions().contains_key(k) ==> self.transitions()[k].described().id@ == k
        &&& forall|k: Seq<char>| #[trigger] self.consumers().contains_key(k) ==> self.consumers()[k].described().id@ == k
    }

    /// The registered producers by id.
    pub closed spec fn producers(&self) -> Map<Seq<char>, Arc<dyn Producer + 'static>> {
        self.producers.services()
    }

    /// The ids of the registered producers, in ascending order.
    pub closed spec fn producer_ids(&self) -> Seq<Seq<char>> {
        self.producers.ids()
    }

    /// Register a producer under the id its descriptor reports; an id already
    /// registered for this role is refused and the registry is left as it was.
    pub fn register_producer(&mut self, service: Arc<dyn Producer + 'static>) -> (result: Result<(), RegistryError>)
        requires
            old(self).well_formed(),
        ensures
            final(self).well_formed(),
            final(self).filters() == old(self).filters(),
            final(self).transitions() == old(self).transitions(),
            final(self).consumers() == old(self).consumers(),
            old(self).producers().contains_key(service.described().id@) ==> (result matches Err(RegistryError::Duplicate(
                i,
            )) && i@ == service.described().id@) && final(self).producers() == old(self).producers(),
            !old(self).producers().contains_key(service.described().id@) ==> result is Ok && final(self).producers().dom() == old(
                self,
            ).producers().dom().insert(service.described().id@) && final(self).producers()[service.described().id@] == service
                && forall|k: Seq<char>|
                k != service.described().id@ && #[trigger] old(self).producers().contains_key(k) ==> final(self).producers()[k] == old(
                    self,
                ).producers()[k],
    {
        let id = service.descriptor().id.clone();
        let ghost key = id@;
        let ghost described = service.described();
        assert(id@ == described.id@);
        let result = insert_service(service, id, &mut self.producers);
        proof {
            assert(old(self).well_formed());
            assert forall|k: Seq<char>| #[trigger] self.filters().contains_key(k) implies self.filters()[k].described().id@ == k by {
                assert(self.filters() == old(self).filters());
                assert(old(self).filters().contains_key(k));
            }
            assert forall|k: Seq<char>| #[trigger] self.transitions().contains_key(k) implies self.transitions()[k].described().id@ == k by {
                assert(self.transitions() == old(self).transitions());
                assert(old(self).transitions().contains_key(k));
            }
            assert forall|k: Seq<char>| #[trigger] self.consumers().contains_key(k) implies self.consumers()[k].described().id@ == k by {
                assert(self.consumers() == old(self).consumers());
                assert(old(self).consumers().contains_key(k));
            }
            assert forall|k: Seq<char>| #[trigger] self.producers().contains_key(k) implies self.producers()[k].described().id@ == k by {
                if k != key {
                    assert(old(self).producers().contains_key(k));
                    assert(self.producers()[k] == old(self).producers()[k]);
                    assert(old(self).producers()[k].described().id@ == k);
                } else if result is Ok {
                    assert(self.producers()[k] == service);
                } else {
                    assert(old(self).producers().contains_key(k));
                }
            }
        }
        result
    }

    pub fn producer(&self, id: &str) -> (found: Option<&Arc<dyn Producer + 'static>>)
        requires
            self.well_formed(),
        ensures
            found is Some <==> self.producers().contains_key(id@),
            found matches Some(s) ==> *s == self.producers()[id@],
    {
        self.producers.get(id)
    }

    /// The registered filters by id.
    pub closed spec fn filters(&self) -> Map<Seq<char>, Arc<dyn Filter + 'static>> {
        self.filters.services()
    }

    /// The ids of the registered filters, in ascending order.
    pub closed spec fn filter_ids(&self) -> Seq<Seq<char>> {
        self.filters.ids()
    }

    /// Register a filter under the id its descriptor reports; an id already
    /// registered for this role is refused and the registry is left as it was.
    pub fn register_filter(&mut self, service: Arc<dyn Filter + 'static>) -> (result: Result<(), RegistryError>)
        requires
            old(self).well_formed(),
        ensures
            final(self).well_formed(),
            final(self).producers() == old(self).producers(),
            final(self).transitions() == old(self).transitions(),
            final(self).consumers() == old(self).consumers(),
            old(self).filters().contains_key(service.described().id@) ==> (result matches Err(RegistryError::Duplicate(
                i,
            )) && i@ == service.described().id@) && final(self).filters() == old(self).filters(),
            !old(self).filters().contains_key(service.described().id@) ==> result is Ok && final(self).filters().dom() == old(
                self,
            ).filters().dom().insert(service.described().id@) && final(self).filters()[service.described().id@] == service
                && forall|k: Seq<char>|
                k != service.described().id@ && #[trigger] old(self).filters().contains_key(k) ==> final(self).filters()[k] == old(
                    self,
                ).filters()[k],
    {
        let id = service.descriptor().id.clone();
        let ghost key = id@;
        let ghost described = service.described();
        assert(id@ == described.id@);
        let result = insert_service(service, id, &mut self.filters);
        proof {
            assert(old(self).well_formed());
            assert forall|k: Seq<char>| #[trigger] self.producers().contains_key(k) implies self.producers()[k].described().id@ == k by {
                assert(self.producers() == old(self).producers());
                assert(old(self).producers().contains_key(k));
            }
            assert forall|k: Seq<char>| #[trigger] self.transitions().contains_key(k) implies self.transitions()[k].described().id@ == k by {
                assert(self.transitions() == old(self).transitions());
                assert(old(self).transitions().contains_key(k));
            }
            assert forall|k: Seq<char>| #[trigger] self.consumers().contains_key(k) implies self.consumers()[k].described().id@ == k by {
                assert(self.consumers() == old(self).consumers());
                assert(old(self).consumers().contains_key(k));
            }
            assert forall|k: Seq<char>| #[trigger] self.filters().contains_key(k) implies self.filters()[k].described().id@ == k by {
                if k != key {
                    assert(old(self).filters().contains_key(k));
                    assert(self.filters()[k] == old(self).filters()[k]);
                    assert(old(self).filters()[k].described().id@ == k);
                } else if result is Ok {
                    assert(self.filters()[k] == service);
                } else {
                    assert(old(self).filters().contains_key(k));
                }
            }
        }
        result
    }

    pub fn filter(&self, id: &str) -> (found: Option<&Arc<dyn Filter + 'static>>)
        requires
            self.well_formed(),
        ensures
            found is Some <==> self.filters().contains_key(id@),
            found matches Some(s) ==> *s == self.filters()[id@],
    {
        self.filters.get(id)
    }

    /// The registered transitions by id.
    pub closed spec fn transitions(&self) -> Map<Seq<char>, Arc<dyn Transition + 'static>> {
        self.transitions.services()
    }

    /// The ids of the registered transitions, in ascending order.
    pub closed spec fn transition_ids(&self) -> Seq<Seq<char>> {
        self.transitions.ids()
    }

    /// Register a transition under the id its descriptor reports; an id already
    /// registered for this role is refused and the registry is left as it was.
    pub fn register_transition(&mut self, service: Arc<dyn Transition + 'static>) -> (result: Result<(), RegistryError>)
        requires
            old(self).well_formed(),
        ensures
            final(self).well_formed(),
            final(self).producers() == old(self).producers(),
            final(self).filters() == old(self).filters(),
            final(self).consumers() == old(self).consumers(),
            old(self).transitions().contains_key(service.described().id@) ==> (result matches Err(RegistryError::Duplicate(
                i,
            )) && i@ == service.described().id@) && final(self).transitions() == old(self).transitions(),
            !old(self).transitions().contains_key(service.described().id@) ==> result is Ok && final(self).transitions().dom() == old(
                self,
            ).transitions().dom().insert(service.described().id@) && final(self).transitions()[service.described().id@] == service
                && forall|k: Seq<char>|
                k != service.described().id@ && #[trigger] old(self).transitions().contains_key(k) ==> final(self).transitions()[k] == old(
                    self,
                ).transitions()[k],
    {
        let id = service.descriptor().id.clone();
        let ghost key = id@;
        let ghost described = service.described();
        assert(id@ == described.id@);
        let result = insert_service(service, id, &mut self.transitions);
        proof {
            assert(old(self).well_formed());
            assert forall|k: Seq<char>| #[trigger] self.producers().contains_key(k) implies self.producers()[k].described().id@ == k by {
                assert(self.producers() == old(self).producers());
                assert(old(self).producers().contains_key(k));
            }
            assert forall|k: Seq<char>| #[trigger] self.filters().contains_key(k) implies self.filters()[k].described().id@ == k by {
                assert(self.filters() == old(self).filters());
                assert(old(self).filters().contains_key(k));
            }
            assert forall|k: Seq<char>| #[trigger] self.consumers().contains_key(k) implies self.consumers()[k].described().id@ == k by {
                assert(self.consumers() == old(self).consumers());
                assert(old(self).consumers().contains_key(k));
            }
            assert forall|k: Seq<char>| #[trigger] self.transitions().contains_key(k) implies self.transitions()[k].described().id@ == k by {
                if k != key {
                    assert(old(self).transitions().contains_key(k));
                    assert(self.transitions()[k] == old(self).transitions()[k]);
                    assert(old(self).transitions()[k].described().id@ == k);
                } else if result is Ok {
                    assert(self.transitions()[k] == service);
                } else {
                    assert(old(self).transitions().contains_key(k));
                }
            }
        }
        result
    }

    pub fn transition(&self, id: &str) -> (found: Option<&Arc<dyn Transition + 'static>>)
        requires
            self.well_formed(),
        ensures
            found is Some <==> self.transitions().contains_key(id@),
            found matches Some(s) ==> *s == self.transitions()[id@],
    {
        self.transitions.get(id)
    }

    /// The registered consumers by id.
    pub closed spec fn consumers(&self) -> Map<Seq<char>, Arc<dyn Consumer + 'static>> {
        self.consumers.services()
    }

    /// The ids of the registered consumers, in ascending order.
    pub closed spec fn consumer_ids(&self) -> Seq<Seq<char>> {
        self.consumers.ids()
    }

    /// Register a consumer under the id its descriptor reports; an id already
    /// registered for this role is refused and the registry is left as it was.
    pub fn register_consumer(&mut self, service: Arc<dyn Consumer + 'static>) -> (result: Result<(), RegistryError>)
        requires
            old(self).well_formed(),
        ensures
            final(self).well_formed(),
            final(self).producers() == old(self).producers(),
            final(self).filters() == old(self).filters(),
            final(self).transitions() == old(self).transitions(),
            old(self).consumers().contains_key(service.described().id@) ==> (result matches Err(RegistryError::Duplicate(
                i,
            )) && i@ == service.described().id@) && final(self).consumers() == old(self).consumers(),
            !old(self).consumers().contains_key(service.described().id@) ==> result is Ok && final(self).consumers().dom() == old(
                self,
            ).consumers().dom().insert(service.described().id@) && final(self).consumers()[service.described().id@] == service
                && forall|k: Seq<char>|
                k != service.described().id@ && #[trigger] old(self).consumers().contains_key(k) ==> final(self).consumers()[k] == old(
                    self,
                ).consumers()[k],
    {
        let id = service.descriptor().id.clone();
        let ghost key = id@;
        let ghost described = service.described();
        assert(id@ == described.id@);
        let result = insert_service(service, id, &mut self.consumers);
        proof {
            assert(old(self).well_formed());
            assert forall|k: Seq<char>| #[trigger] self.producers().contains_key(k) implies self.producers()[k].described().id@ == k by {
                assert(self.producers() == old(self).producers());
                assert(old(self).producers().contains_key(k));
            }
            assert forall|k: Seq<char>| #[trigger] self.filters().contains_key(k) implies self.filters()[k].described().id@ == k by {
                assert(self.filters() == old(self).filters());
                assert(old(self).filters().contains_key(k));
            }
            assert forall|k: Seq<char>| #[trigger] self.transitions().contains_key(k) implies self.transitions()[k].described().id@ == k by {
                assert(self.transitions() == old(self).transitions());
                assert(old(self).transitions().contains_key(k));
            }
            assert forall|k: Seq<char>| #[trigger] self.consumers().contains_key(k) implies self.consumers()[k].described().id@ == k by {
                if k != key {
                    assert(old(self).consumers().contains_key(k));
                    assert(self.consumers()[k] == old(self).consumers()[k]);
                    assert(old(self).consumers()[k].described().id@ == k);
                } else if result is Ok {
                    assert(self.consumers()[k] == service);
                } else {
                    assert(old(self).consumers().contains_key(k));
                }
            }
        }
        result
    }

    pub fn consumer(&self, id: &str) -> (found: Option<&Arc<dyn Consumer + 'static>>)
        requires
            self.well_formed(),
        ensures
            found is Some <==> self.consumers().contains_key(id@),
            found matches Some(s) ==> *s == self.consumers()[id@],
    {
        self.consumers.get(id)
    }

    /// The descriptor each registered service reports, one per id, every role
    /// in ascending id order.
    pub fn manifest(&self) -> (manifest: RegistryManifest)
        requires
            self.well_formed(),
        ensures
            ids_ascending(self.producer_ids()),
            forall|k: Seq<char>| self.producers().contains_key(k) <==> #[trigger] self.producer_ids().contains(k),
            manifest.producers@.len() == self.producer_ids().len(),
            forall|k: int|
                0 <= k < manifest.producers@.len() ==> same_descriptor(
                    #[trigger] manifest.producers@[k],
                    self.producers()[self.producer_ids()[k]].described(),
                ),
            ids_ascending(self.filter_ids()),
            forall|k: Seq<char>| self.filters().contains_key(k) <==> #[trigger] self.filter_ids().contains(k),
            manifest.filters@.len() == self.filter_ids().len(),
            forall|k: int|
                0 <= k < manifest.filters@.len() ==> same_descriptor(
                    #[trigger] manifest.filters@[k],
                    self.filters()[self.filter_ids()[k]].described(),
                ),
            ids_ascending(self.transition_ids()),
            forall|k: Seq<char>| self.transitions().contains_key(k) <==> #[trigger] self.transition_ids().contains(k),
            manifest.transitions@.len() == self.transition_ids().len(),
            forall|k: int|
                0 <= k < manifest.transitions@.len() ==> same_descriptor(
                    #[trigger] manifest.transitions@[k],
                    self.transitions()[self.transition_ids()[k]].described(),
                ),
            ids_ascending(self.consumer_ids()),
            forall|k: Seq<char>| self.consumers().contains_key(k) <==> #[trigger] self.consumer_ids().contains(k),
            manifest.consumers@.len() == self.consumer_ids().len(),
            forall|k: int|
                0 <= k < manifest.consumers@.len() ==> same_descriptor(
                    #[trigger] manifest.consumers@[k],
                    self.consumers()[self.consumer_ids()[k]].described(),
                ),
    {
        proof {
            self.producers.lemma_ordered();
            self.filters.lemma_ordered();
            self.transitions.lemma_ordered();
            self.consumers.lemma_ordered();
        }
        RegistryManifest {
            producers: producer_descriptors(&self.producers),
            filters: filter_descriptors(&self.filters),
            transitions: transition_descriptors(&self.transitions),
            consumers: consumer_descriptors(&self.consumers),
        }
    }
}

fn producer_descriptors(table: &RoleTable<Arc<dyn Producer + 'static>>) -> (descriptors: Vec<ServiceDescriptor>)
    requires
        table.well_formed(),
    ensures
        descriptors@.len() == table.ids().len(),
        forall|k: int|
            0 <= k < descriptors@.len() ==> same_descriptor(
                #[trigger] descriptors@[k],
                table.services()[table.ids()[k]].described(),
            ),
{
    proof {
        table.lemma_ordered();
    }
    let mut descriptors: Vec<ServiceDescriptor> = Vec::new();
    let mut i: usize = 0;
    while i < table.entries.len()
        invariant
            0 <= i <= table.entries@.len(),
            table.well_formed(),
            table.ids().len() == table.entries@.len(),
            forall|k: int| 0 <= k < table.entries@.len() ==> table.services()[#[trigger] table.ids()[k]] == table.entries@[k].service,
            descriptors@.len() == i,
            forall|k: int|
                0 <= k < i ==> same_descriptor(
                    #[trigger] descriptors@[k],
                    table.services()[table.ids()[k]].described(),
                ),
        decreases table.entries.len() - i,
    {
        let copy = table.entries[i].service.descriptor().clone();
        descriptors.push(copy);
        i = i + 1;
    }
    descriptors
}

fn filter_descriptors(table: &RoleTable<Arc<dyn Filter + 'static>>) -> (descriptors: Vec<ServiceDescriptor>)
    requires
        table.well_formed(),
    ensures
        descriptors@.len() == table.ids().len(),
        forall|k: int|
            0 <= k < descriptors@.len() ==> same_descriptor(
                #[trigger] descriptors@[k],
                table.services()[table.ids()[k]].described(),
            ),
{
    proof {
        table.lemma_ordered();
    }
    let mut descriptors: Vec<ServiceDescriptor> = Vec::new();
    let mut i: usize = 0;
    while i < table.entries.len()
        invariant
            0 <= i <= table.entries@.len(),
            table.well_formed(),
            table.ids().len() == table.entries@.len(),
            forall|k: int| 0 <= k < table.entries@.len() ==> table.services()[#[trigger] table.ids()[k]] == table.entries@[k].service,
            descriptors@.len() == i,
            forall|k: int|
                0 <= k < i ==> same_descriptor(
                    #[trigger] descriptors@[k],
                    table.services()[table.ids()[k]].described(),
                ),
        decreases table.entries.len() - i,
    {
        let copy = table.entries[i].service.descriptor().clone();
        descriptors.push(copy);
        i = i + 1;
    }
    descriptors
}

fn transition_descriptors(table: &RoleTable<Arc<dyn Transition + 'static>>) -> (descriptors: Vec<ServiceDescriptor>)
    requires
        table.well_formed(),
    ensures
        descriptors@.len() == table.ids().len(),
        forall|k: int|
            0 <= k < descriptors@.len() ==> same_descriptor(
                #[trigger] descriptors@[k],
                table.services()[table.ids()[k]].described(),
            ),
{
    proof {
        table.lemma_ordered();
    }
    let mut descriptors: Vec<ServiceDescriptor> = Vec::new();
    let mut i: usize = 0;
    while i < table.entries.len()
        invariant
            0 <= i <= table.entries@.len(),
            table.well_formed(),
            table.ids().len() == table.entries@.len(),
            forall|k: int| 0 <= k < table.entries@.len() ==> table.services()[#[trigger] table.ids()[k]] == table.entries@[k].service,
            descriptors@.len() == i,
            forall|k: int|
                0 <= k < i ==> same_descriptor(
                    #[trigger] descriptors@[k],
                    table.services()[table.ids()[k]].described(),
                ),
        decreases table.entries.len() - i,
    {
        let copy = table.entries[i].service.descriptor().clone();
        descriptors.push(copy);
        i = i + 1;
    }
    descriptors
}

fn consumer_descriptors(table: &RoleTable<Arc<dyn Consumer + 'static>>) -> (descriptors: Vec<ServiceDescriptor>)
    requires
        table.well_formed(),
    ensures
        descriptors@.len() == table.ids().len(),
        forall|k: int|
            0 <= k < descriptors@.len() ==> same_descriptor(
                #[trigger] descriptors@[k],
                table.services()[table.ids()[k]].described(),
            ),
{
    proof {
        table.lemma_ordered();
    }
    let mut descriptors: Vec<ServiceDescriptor> = Vec::new();
    let mut i: usize = 0;
    while i < table.entries.len()
        invariant
            0 <= i <= table.entries@.len(),
            table.well_formed(),
            table.ids().len() == table.entries@.len(),
            forall|k: int| 0 <= k < table.entries@.len() ==> table.services()[#[trigger] table.ids()[k]] == table.entries@[k].service,
            descriptors@.len() == i,
            forall|k: int|
                0 <= k < i ==> same_descriptor(
                    #[trigger] descriptors@[k],
                    table.services()[table.ids()[k]].described(),
                ),
        decreases table.entries.len() - i,
    {
        let copy = table.entries[i].service.descriptor().clone();
        descriptors.push(copy);
        i = i + 1;
    }
    descriptors
}

} // verus!
