//! Root-level event delegation: one listener per event type at the root,
//! handlers found by `(event, handler id)`.
use vstd::prelude::*;
use crate::strutil::str_eq;

verus! {

/// An event as the root listener reports it.
#[derive(Debug, Clone)]
pub struct DelegatedEvent {
    pub event_type: String,
    pub handler_id: String,
    pub target_hid: Option<String>,
    pub payload_json: String,
}

impl DelegatedEvent {
    /// A click on the element bound to `handler_id`.
    pub fn click(handler_id: &str) -> (r: DelegatedEvent)
        ensures
            r.event_type@ == "click"@,
            r.handler_id@ == handler_id@,
            r.target_hid is None,
            r.payload_json@ == "{}"@,
    {
        DelegatedEvent {
            event_type: "click".to_owned(),
            handler_id: handler_id.to_owned(),
            target_hid: None,
            payload_json: "{}".to_owned(),
        }
    }
}

/// Handlers by `(event, handler id)`, each pair bound at most once, in the
/// order they were first bound.
pub struct EventDelegator<H> {
    handlers: Vec<(String, String, H)>,
}

/// The `(event, handler id)` pair of each binding, in order.
pub open spec fn binding_keys<H>(s: Seq<(String, String, H)>) -> Seq<(Seq<char>, Seq<char>)> {
    s.map_values(|b: (String, String, H)| (b.0@, b.1@))
}

/// The index of the binding for `(ev, id)`, or -1.
pub open spec fn binding_index(keys: Seq<(Seq<char>, Seq<char>)>, ev: Seq<char>, id: Seq<char>) -> int {
    if exists|i: int| 0 <= i < keys.len() && keys[i] == (ev, id) {
        choose|i: int| 0 <= i < keys.len() && keys[i] == (ev, id)
    } else {
        -1
    }
}

/// The event types of the bindings, each once, in order of first binding.
pub open spec fn first_seen(evs: Seq<Seq<char>>) -> Seq<Seq<char>>
    decreases evs.len(),
{
    if evs.len() == 0 {
        Seq::empty()
    } else {
        let r = first_seen(evs.drop_last());
        if r.contains(evs.last()) {
            r
        } else {
            r.push(evs.last())
        }
    }
}

pub open spec fn event_types(keys: Seq<(Seq<char>, Seq<char>)>) -> Seq<Seq<char>> {
    keys.map_values(|p: (Seq<char>, Seq<char>)| p.0)
}

/// No pair occurs twice in `k`.
pub open spec fn keys_distinct(k: Seq<(Seq<char>, Seq<char>)>) -> bool {
    forall|i: int, j: int| 0 <= i < j < k.len() ==> k[i] != k[j]
}

impl<H> EventDelegator<H> {
    /// The bindings, in order.
    pub closed spec fn bindings(&self) -> Seq<(String, String, H)> {
        self.handlers@
    }

    /// No pair is bound twice.
    #[verifier::type_invariant]
    spec fn pairs_distinct(&self) -> bool {
        keys_distinct(binding_keys(self.handlers@))
    }

    /// A delegator without bindings.
    pub fn new() -> (r: EventDelegator<H>)
        ensures
            r.bindings().len() == 0,
            keys_distinct(binding_keys(r.bindings())),
    {
        EventDelegator { handlers: Vec::new() }
    }

    fn find(&self, event: &str, handler_id: &str) -> (r: Option<usize>)
        ensures
            match r {
                Some(i) => i < self.bindings().len() && binding_keys(self.bindings())[i as int] == (event@, handler_id@)
                    && binding_index(binding_keys(self.bindings()), event@, handler_id@) == i,
                None => binding_index(binding_keys(self.bindings()), event@, handler_id@) == -1,
            },
    {
        proof {
            use_type_invariant(self);
        }
        let ghost k = binding_keys(self.handlers@);
        for i in 0..self.handlers.len()
            invariant
                k == binding_keys(self.handlers@),
                keys_distinct(k),
                forall|j: int| 0 <= j < i ==> k[j] != (event@, handler_id@),
        {
            if str_eq(self.handlers[i].0.as_str(), event) && str_eq(self.handlers[i].1.as_str(), handler_id) {
                assert(k[i as int] == (event@, handler_id@));
                return Some(i);
            }
        }
        None
    }

    /// Binds `handler` to `(event, handler_id)`, replacing and returning the
    /// handler bound there before.
    pub fn register(&mut self, event: &str, handler_id: &str, handler: H) -> (r: Option<H>)
        ensures
            keys_distinct(binding_keys(old(self).bindings())),
            keys_distinct(binding_keys(final(self).bindings())),
            ({
                let i = binding_index(binding_keys(old(self).bindings()), event@, handler_id@);
                if i < 0 {
                    r is None && final(self).bindings() == old(self).bindings().push(
                        (final(self).bindings().last().0, final(self).bindings().last().1, handler),
                    ) && binding_keys(final(self).bindings()) == binding_keys(old(self).bindings()).push(
                        (event@, handler_id@),
                    )
                } else {
                    r == Some(old(self).bindings()[i].2) && binding_keys(final(self).bindings()) == binding_keys(
                        old(self).bindings(),
                    ) && final(self).bindings()[i].2 == handler && forall|j: int|
                        0 <= j < old(self).bindings().len() && j != i ==> final(self).bindings()[j] == old(
                            self,
                        ).bindings()[j]
                }
            }),
    {
        proof {
            use_type_invariant(&*self);
        }
        let found = self.find(event, handler_id);
        let mut hs: Vec<(String, String, H)> = Vec::new();
        assert(binding_keys(hs@) =~= Seq::<(Seq<char>, Seq<char>)>::empty());
        std::mem::swap(&mut hs, &mut self.handlers);
        let ghost before = hs@;
        match found {
            Some(i) => {
                let (e, h, old_handler) = hs.remove(i);
                hs.insert(i, (e, h, handler));
                assert(binding_keys(hs@) =~= binding_keys(before));
                self.handlers = hs;
                Some(old_handler)
            },
            None => {
                hs.push((event.to_owned(), handler_id.to_owned(), handler));
                assert(binding_keys(hs@) =~= binding_keys(before).push((event@, handler_id@)));
                proof {
                    let k = binding_keys(hs@);
                    assert forall|a: int, b: int| 0 <= a < b < k.len() implies k[a] != k[b] by {
                        if b == k.len() - 1 {
                            assert(binding_keys(before)[a] != (event@, handler_id@));
                        }
                    }
                }
                self.handlers = hs;
                None
            },
        }
    }

    /// Removes the binding of `(event, handler_id)`; whether there was one.
    pub fn unregister(&mut self, event: &str, handler_id: &str) -> (r: bool)
        ensures
            keys_distinct(binding_keys(old(self).bindings())),
            keys_distinct(binding_keys(final(self).bindings())),
            binding_index(binding_keys(final(self).bindings()), event@, handler_id@) == -1,
            final(self).bindings().len() == old(self).bindings().len() - (if r {
                1int
            } else {
                0int
            }),
            ({
                let i = binding_index(binding_keys(old(self).bindings()), event@, handler_id@);
                &&& r == (i >= 0)
                &&& i < 0 ==> final(self).bindings() == old(self).bindings()
                &&& i >= 0 ==> final(self).bindings() == old(self).bindings().remove(i)
            }),
    {
        proof {
            use_type_invariant(&*self);
        }
        match self.find(event, handler_id) {
            Some(i) => {
                let mut hs: Vec<(String, String, H)> = Vec::new();
                assert(binding_keys(hs@) =~= Seq::<(Seq<char>, Seq<char>)>::empty());
                std::mem::swap(&mut hs, &mut self.handlers);
                let ghost before = hs@;
                let _ = hs.remove(i);
                proof {
                    let k = binding_keys(hs@);
                    assert(k =~= binding_keys(before).remove(i as int));
                    assert forall|a: int, b: int| 0 <= a < b < k.len() implies k[a] != k[b] by {
                        if a < i {
                            if b < i {
                            } else {
                                assert(k[b] == binding_keys(before)[b + 1]);
                            }
                        } else {
                            assert(k[a] == binding_keys(before)[a + 1]);
                            assert(k[b] == binding_keys(before)[b + 1]);
                        }
                    }
                }
                self.handlers = hs;
                true
            },
            None => false,
        }
    }

    /// The number of bindings.
    pub fn binding_count(&self) -> (r: usize)
        ensures
            r == self.bindings().len(),
    {
        self.handlers.len()
    }

    /// The number of root listeners needed: one per event type bound.
    pub fn root_listener_count(&self) -> (r: usize)
        ensures
            r == first_seen(event_types(binding_keys(self.bindings()))).len(),
    {
        let ghost evs = event_types(binding_keys(self.handlers@));
        let mut kinds: Vec<&str> = Vec::new();
        for i in 0..self.handlers.len()
            invariant
                evs == event_types(binding_keys(self.handlers@)),
                kinds@.map_values(|x: &str| x@) == first_seen(evs.take(i as int)),
        {
            let ev = self.handlers[i].0.as_str();
            let ghost kv = kinds@.map_values(|x: &str| x@);
            let mut seen = false;
            let mut a: usize = 0;
            while a < kinds.len()
                invariant
                    a <= kinds@.len(),
                    kv == kinds@.map_values(|x: &str| x@),
                    seen == exists|b: int| 0 <= b < a && kv[b] == ev@,
                decreases kinds@.len() - a,
            {
                assert(kv[a as int] == kinds@[a as int]@);
                if str_eq(kinds[a], ev) {
                    seen = true;
                }
                a = a + 1;
            }
            assert(evs.take(i + 1).drop_last() =~= evs.take(i as int));
            assert(evs.take(i + 1).last() == ev@);
            assert(seen == kv.contains(ev@));
            if !seen {
                kinds.push(ev);
                assert(kinds@.map_values(|x: &str| x@) =~= kv.push(ev@));
            }
        }
        assert(evs.take(evs.len() as int) =~= evs);
        kinds.len()
    }

    /// The handler bound to `(event, handler_id)`.
    pub fn get(&self, event: &str, handler_id: &str) -> (r: Option<&H>)
        ensures
            ({
                let i = binding_index(binding_keys(self.bindings()), event@, handler_id@);
                if i < 0 {
                    r is None
                } else {
                    r == Some(&self.bindings()[i].2)
                }
            }),
    {
        match self.find(event, handler_id) {
            Some(i) => Some(&self.handlers[i].2),
            None => None,
        }
    }
}

} // verus!
