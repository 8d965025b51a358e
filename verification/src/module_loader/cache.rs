//! The cache of loaded modules and compiled prototypes, and the stack of
//! modules being loaded, by which circular requires are detected.
use std::rc::Rc;
use vstd::prelude::*;
use crate::bytecode::Proto;
use crate::text::{push_str, string_from_chars};

verus! {

/// The map that a list of `(key, value)` entries stands for, later entries
/// taking precedence.
pub open spec fn entries_map<V>(s: Seq<(String, V)>) -> Map<Seq<char>, V>
    decreases s.len(),
{
    if s.len() == 0 {
        Map::empty()
    } else {
        entries_map(s.drop_last()).insert(s.last().0@, s.last().1)
    }
}

/// Whether no key occurs twice among the entries.
pub open spec fn keys_unique<V>(s: Seq<(String, V)>) -> bool {
    forall|i: int, j: int| 0 <= i < j < s.len() ==> #[trigger] s[i].0@ != #[trigger] s[j].0@
}

proof fn lemma_entries_lookup<V>(s: Seq<(String, V)>, i: int)
    requires
        keys_unique(s),
        0 <= i < s.len(),
    ensures
        entries_map(s).contains_key(s[i].0@),
        entries_map(s)[s[i].0@] == s[i].1,
    decreases s.len(),
{
    if i < s.len() - 1 {
        lemma_entries_lookup(s.drop_last(), i);
        assert(s[i].0@ != s[s.len() - 1].0@);
    }
}

proof fn lemma_entries_absent<V>(s: Seq<(String, V)>, k: Seq<char>)
    requires
        forall|i: int| 0 <= i < s.len() ==> #[trigger] s[i].0@ != k,
    ensures
        !entries_map(s).contains_key(k),
    decreases s.len(),
{
    if s.len() > 0 {
        lemma_entries_absent(s.drop_last(), k);
    }
}

proof fn lemma_entries_update<V>(s: Seq<(String, V)>, i: int, e: (String, V))
    requires
        keys_unique(s),
        0 <= i < s.len(),
        e.0@ == s[i].0@,
    ensures
        entries_map(s.update(i, e)) == entries_map(s).insert(e.0@, e.1),
    decreases s.len(),
{
    let last = s.len() - 1;
    if i == last {
        assert(s.update(i, e).drop_last() =~= s.drop_last());
    } else {
        lemma_entries_update(s.drop_last(), i, e);
        assert(s.update(i, e).drop_last() =~= s.drop_last().update(i, e));
        assert(s[i].0@ != s[last].0@);
        assert(entries_map(s.update(i, e)) =~= entries_map(s).insert(e.0@, e.1));
    }
}

/// A small map from strings to values, kept as a list of entries with
/// distinct keys.
#[derive(Clone, Debug)]
struct Entries<V> {
    items: Vec<(String, V)>,
}

impl<V> Entries<V> {
    spec fn wf(&self) -> bool {
        keys_unique(self.items@)
    }

    spec fn map(&self) -> Map<Seq<char>, V> {
        entries_map(self.items@)
    }

    fn new() -> (r: Self)
        ensures
            r.wf(),
            r.map() == Map::<Seq<char>, V>::empty(),
    {
        Entries { items: Vec::new() }
    }

    /// The index of the entry for `key`, if there is one.
    fn find(&self, key: &str) -> (r: Option<usize>)
        requires
            self.wf(),
        ensures
            match r {
                Some(i) => i < self.items@.len() && self.items@[i as int].0@ == key@,
                None => !self.map().contains_key(key@),
            },
    {
        let k = key.to_owned();
        let mut i: usize = 0;
        while i < self.items.len()
            invariant
                k@ == key@,
                i <= self.items@.len(),
                forall|j: int| 0 <= j < i ==> #[trigger] self.items@[j].0@ != key@,
            decreases self.items@.len() - i,
        {
            if self.items[i].0 == k {
                return Some(i);
            }
            i = i + 1;
        }
        proof {
            lemma_entries_absent(self.items@, key@);
        }
        None
    }

    fn get(&self, key: &str) -> (r: Option<&V>)
        requires
            self.wf(),
        ensures
            match r {
                Some(v) => self.map().contains_key(key@) && self.map()[key@] == *v,
                None => !self.map().contains_key(key@),
            },
    {
        match self.find(key) {
            Some(i) => {
                proof {
                    lemma_entries_lookup(self.items@, i as int);
                }
                Some(&self.items[i].1)
            },
            None => None,
        }
    }

    fn insert(&mut self, key: String, value: V)
        requires
            old(self).wf(),
        ensures
            final(self).wf(),
            final(self).map() == old(self).map().insert(key@, value),
    {
        match self.find(key.as_str()) {
            Some(i) => {
                let ghost e = (key, value);
                proof {
                    lemma_entries_update(self.items@, i as int, e);
                }
                self.items.set(i, (key, value));
            },
            None => {
                let ghost before = self.items@;
                self.items.push((key, value));
                proof {
                    assert(self.items@.drop_last() =~= before);
                    assert forall|a: int, b: int| 0 <= a < b < self.items@.len() implies #[trigger] self.items@[a].0@
                        != #[trigger] self.items@[b].0@ by {
                        if b == before.len() {
                            if before[a].0@ == key@ {
                                lemma_entries_lookup(before, a);
                            }
                        }
                    }
                }
            },
        }
    }
}

/// `s` joined with `sep` between consecutive items.
pub open spec fn joined(s: Seq<Seq<char>>, sep: Seq<char>) -> Seq<char>
    decreases s.len(),
{
    if s.len() == 0 {
        Seq::empty()
    } else if s.len() == 1 {
        s[0]
    } else {
        joined(s.drop_last(), sep) + sep + s.last()
    }
}

/// `s` without the last occurrence of `k` (unchanged when `k` does not occur).
pub open spec fn remove_last(s: Seq<Seq<char>>, k: Seq<char>) -> Seq<Seq<char>>
    decreases s.len(),
{
    if s.len() == 0 {
        s
    } else if s.last() == k {
        s.drop_last()
    } else {
        remove_last(s.drop_last(), k).push(s.last())
    }
}

/// The message given when `key` is required while the modules `stack` are
/// being loaded and `key` is one of them.
pub open spec fn cycle_message(key: Seq<char>, stack: Seq<Seq<char>>) -> Seq<char> {
    "circular dependency detected while requiring '"@ + key + "': "@ + joined(stack, " -> "@) + " -> "@
        + key
}

/// Whether no module occurs twice on the loading stack.
pub open spec fn no_repeats(s: Seq<Seq<char>>) -> bool {
    forall|i: int, j: int| 0 <= i < j < s.len() ==> #[trigger] s[i] != #[trigger] s[j]
}

proof fn lemma_remove_last_at(s: Seq<Seq<char>>, k: Seq<char>, i: int)
    requires
        0 <= i < s.len(),
        s[i] == k,
        forall|j: int| i < j < s.len() ==> #[trigger] s[j] != k,
    ensures
        remove_last(s, k) == s.remove(i),
    decreases s.len(),
{
    if i < s.len() - 1 {
        lemma_remove_last_at(s.drop_last(), k, i);
        assert(s.remove(i) =~= s.drop_last().remove(i).push(s.last()));
    } else {
        assert(s.remove(i) =~= s.drop_last());
    }
}

proof fn lemma_remove_last_absent(s: Seq<Seq<char>>, k: Seq<char>)
    requires
        !s.contains(k),
    ensures
        remove_last(s, k) == s,
    decreases s.len(),
{
    if s.len() > 0 {
        assert(!s.drop_last().contains(k)) by {
            if s.drop_last().contains(k) {
                let j = choose|j: int| 0 <= j < s.drop_last().len() && s.drop_last()[j] == k;
                assert(s[j] == k);
            }
        }
        assert(s.last() != k) by {
            assert(s[s.len() - 1] == s.last());
        }
        lemma_remove_last_absent(s.drop_last(), k);
        assert(s.drop_last().push(s.last()) =~= s);
    }
}

/// Loaded module values, compiled prototypes by path, and the modules being
/// loaded.
#[derive(Clone, Debug)]
pub struct ModuleCache<V> {
    loaded_values: Entries<V>,
    compiled_protos: Entries<Rc<Proto>>,
    loading_stack: Vec<String>,
}

impl<V> ModuleCache<V> {
    /// The cache's invariant: each map has distinct keys, and no module is
    /// on the loading stack twice.
    pub closed spec fn wf(&self) -> bool {
        &&& self.loaded_values.wf()
        &&& self.compiled_protos.wf()
        &&& no_repeats(self.loading())
    }

    /// The loaded module values by name.
    pub closed spec fn values(&self) -> Map<Seq<char>, V> {
        self.loaded_values.map()
    }

    /// The compiled prototypes by path.
    pub closed spec fn protos(&self) -> Map<Seq<char>, Rc<Proto>> {
        self.compiled_protos.map()
    }

    /// The modules being loaded, outermost first.
    pub closed spec fn loading(&self) -> Seq<Seq<char>> {
        self.loading_stack@.map_values(|s: String| s@)
    }

    /// An empty cache.
    pub fn new() -> (r: Self)
        ensures
            r.wf(),
            r.values() == Map::<Seq<char>, V>::empty(),
            r.protos() == Map::<Seq<char>, Rc<Proto>>::empty(),
            r.loading() == Seq::<Seq<char>>::empty(),
    {
        let r = ModuleCache {
            loaded_values: Entries::new(),
            compiled_protos: Entries::new(),
            loading_stack: Vec::new(),
        };
        assert(r.loading() =~= Seq::<Seq<char>>::empty());
        r
    }

    /// A copy of the value loaded for `key`, if any.
    pub fn get_value(&self, key: &str) -> (r: Option<V>) where V: Clone
        requires
            self.wf(),
        ensures
            match r {
                Some(v) => self.values().contains_key(key@) && cloned(self.values()[key@], v),
                None => !self.values().contains_key(key@),
            },
    {
        match self.loaded_values.get(key) {
            Some(v) => Some(v.clone()),
            None => None,
        }
    }

    /// Records the value loaded for `key`, replacing any earlier one.
    pub fn insert_value(&mut self, key: &str, value: V)
        requires
            old(self).wf(),
        ensures
            final(self).wf(),
            final(self).values() == old(self).values().insert(key@, value),
            final(self).protos() == old(self).protos(),
            final(self).loading() == old(self).loading(),
    {
        self.loaded_values.insert(key.to_owned(), value);
    }

    /// The prototype compiled from `path`, if any.
    pub fn get_proto(&self, path: &str) -> (r: Option<Rc<Proto>>)
        requires
            self.wf(),
        ensures
            match r {
                Some(p) => self.protos().contains_key(path@) && cloned(self.protos()[path@], p),
                None => !self.protos().contains_key(path@),
            },
    {
        match self.compiled_protos.get(path) {
            Some(p) => Some(p.clone()),
            None => None,
        }
    }

    /// Records the prototype compiled from `path`, replacing any earlier one.
    pub fn insert_proto(&mut self, path: &str, proto: Rc<Proto>)
        requires
            old(self).wf(),
        ensures
            final(self).wf(),
            final(self).protos() == old(self).protos().insert(path@, proto),
            final(self).values() == old(self).values(),
            final(self).loading() == old(self).loading(),
    {
        self.compiled_protos.insert(path.to_owned(), proto);
    }

    /// Marks `key` as being loaded. Requiring a module that is still being
    /// loaded is a circular dependency: it is refused with a message naming
    /// the whole chain, and nothing changes.
    pub fn begin_loading(&mut self, key: &str) -> (r: Result<(), String>)
        requires
            old(self).wf(),
        ensures
            final(self).wf(),
            final(self).values() == old(self).values(),
            final(self).protos() == old(self).protos(),
            old(self).loading().contains(key@) ==> {
                &&& r matches Err(m) && m@ == cycle_message(key@, old(self).loading())
                &&& final(self).loading() == old(self).loading()
            },
            !old(self).loading().contains(key@) ==> {
                &&& r is Ok
                &&& final(self).loading() == old(self).loading().push(key@)
            },
    {
        let k = key.to_owned();
        let mut i: usize = 0;
        while i < self.loading_stack.len()
            invariant
                k@ == key@,
                *self == *old(self),
                self.wf(),
                i <= self.loading_stack@.len(),
                forall|j: int| 0 <= j < i ==> #[trigger] self.loading_stack@[j]@ != key@,
            decreases self.loading_stack@.len() - i,
        {
            if self.loading_stack[i] == k {
                assert(self.loading()[i as int] == key@);
                let msg = self.cycle_error(key);
                return Err(msg);
            }
            i = i + 1;
        }
        assert(!self.loading().contains(key@)) by {
            if self.loading().contains(key@) {
                let j = choose|j: int| 0 <= j < self.loading().len() && self.loading()[j] == key@;
                assert(self.loading_stack@[j]@ == key@);
            }
        }
        let ghost before = self.loading();
        self.loading_stack.push(k);
        assert(self.loading() =~= before.push(key@));
        Ok(())
    }

    /// The message for a circular require of `key`.
    fn cycle_error(&self, key: &str) -> (r: String)
        ensures
            r@ == cycle_message(key@, self.loading()),
    {
        let mut out: Vec<char> = Vec::new();
        push_str(&mut out, "circular dependency detected while requiring '");
        push_str(&mut out, key);
        push_str(&mut out, "': ");
        let ghost head = out@;
        let mut i: usize = 0;
        while i < self.loading_stack.len()
            invariant
                i <= self.loading_stack@.len(),
                out@ == head + joined(self.loading().take(i as int), " -> "@),
            decreases self.loading_stack@.len() - i,
        {
            let ghost prev = out@;
            assert(self.loading().take(i + 1).drop_last() =~= self.loading().take(i as int));
            assert(self.loading().take(i + 1).last() == self.loading_stack@[i as int]@);
            if i > 0 {
                push_str(&mut out, " -> ");
            }
            push_str(&mut out, self.loading_stack[i].as_str());
            proof {
                if i == 0 {
                    assert(self.loading().take(1) =~= seq![self.loading_stack@[0]@]);
                    assert(self.loading().take(0) =~= Seq::<Seq<char>>::empty());
                }
            }
            assert(out@ =~= head + joined(self.loading().take(i + 1), " -> "@));
            i = i + 1;
        }
        assert(self.loading().take(self.loading_stack@.len() as int) =~= self.loading());
        push_str(&mut out, " -> ");
        push_str(&mut out, key);
        assert(out@ =~= cycle_message(key@, self.loading()));
        string_from_chars(out.as_slice())
    }

    /// Marks `key` as loaded: its place on the loading stack (the last one,
    /// if any) is removed.
    pub fn finish_loading(&mut self, key: &str)
        requires
            old(self).wf(),
        ensures
            final(self).wf(),
            final(self).values() == old(self).values(),
            final(self).protos() == old(self).protos(),
            final(self).loading() == remove_last(old(self).loading(), key@),
    {
        let k = key.to_owned();
        let mut i: usize = self.loading_stack.len();
        while i > 0
            invariant
                k@ == key@,
                *self == *old(self),
                self.wf(),
                i <= self.loading_stack@.len(),
                forall|j: int| i <= j < self.loading_stack@.len() ==> #[trigger] self.loading_stack@[j]@ != key@,
            decreases i,
        {
            if self.loading_stack[i - 1] == k {
                let ghost before = self.loading();
                let pos = i - 1;
                proof {
                    assert forall|j: int| pos < j < before.len() implies #[trigger] before[j] != key@ by {
                        assert(before[j] == self.loading_stack@[j]@);
                    }
                    lemma_remove_last_at(before, key@, pos as int);
                }
                self.loading_stack.remove(pos);
                assert(self.loading() =~= before.remove(pos as int));
                assert forall|a: int, b: int| 0 <= a < b < self.loading().len() implies #[trigger] self.loading()[a]
                    != #[trigger] self.loading()[b] by {
                    let a0 = if a < pos { a } else { a + 1 };
                    let b0 = if b < pos { b } else { b + 1 };
                    assert(self.loading()[a] == before[a0]);
                    assert(self.loading()[b] == before[b0]);
                }
                return;
            }
            i = i - 1;
        }
        proof {
            assert(!self.loading().contains(key@)) by {
                if self.loading().contains(key@) {
                    let j = choose|j: int| 0 <= j < self.loading().len() && self.loading()[j] == key@;
                    assert(self.loading_stack@[j]@ == key@);
                }
            }
            lemma_remove_last_absent(self.loading(), key@);
        }
    }
}

/// A module that finishes loading right after it began leaves the loading
/// stack as it was.
pub proof fn lemma_begin_then_finish(stack: Seq<Seq<char>>, key: Seq<char>)
    requires
        !stack.contains(key),
    ensures
        remove_last(stack.push(key), key) == stack,
{
    assert(stack.push(key).drop_last() =~= stack);
}

/// While a module is being loaded, requiring it again is refused: it is on
/// the stack, so `begin_loading` reports the cycle.
pub proof fn lemma_begin_marks_loading(stack: Seq<Seq<char>>, key: Seq<char>)
    ensures
        stack.push(key).contains(key),
{
    assert(stack.push(key)[stack.len() as int] == key);
}

} // verus!
