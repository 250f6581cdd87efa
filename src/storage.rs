use vstd::prelude::*;
use crate::environment::{EnvironmentData, chain_wf, resolve, spec_env_of};
use crate::stack::Stack;
use crate::value::Value;

verus! {

/// The native function that the standard setup binds to `print`.
pub const PRINT_NATIVE: usize = 0;

/// A place to read or write: a slot by its index, or a variable by its name.
#[derive(Debug, Clone)]
pub enum StorageVariable {
    Local(usize),
    User(String),
}

/// A name that no frame on the current chain binds.
#[derive(Debug, Clone, PartialEq)]
pub struct VariableNotFoundError {
    pub key: String,
}

impl VariableNotFoundError {
    pub fn to_string(&self) -> (r: String)
        ensures
            r@ == "Variable not found: "@ + self.key@,
    {
        let mut r = "Variable not found: ".to_string();
        r.append(self.key.as_str());
        r
    }
}

/// Looks `key` up in a stack of frames, innermost (last) first.
pub open spec fn scoped_lookup(frames: Seq<Map<Seq<char>, usize>>, key: Seq<char>) -> Option<usize>
    decreases frames.len(),
{
    if frames.len() == 0 {
        None
    } else if frames.last().contains_key(key) {
        Some(frames.last()[key])
    } else {
        scoped_lookup(frames.drop_last(), key)
    }
}

/// The variable store: a growing array of slots, the current scope frame,
/// the arena of its enclosing frames (outermost first), and a scratch value
/// stack. Slots are never reclaimed.
pub struct Storage {
    items: Vec<Value>,
    stack: Stack,
    frames: Vec<EnvironmentData>,
    env: EnvironmentData,
}

impl Storage {
    #[verifier::type_invariant]
    spec fn wf(self) -> bool {
        &&& forall|i: int|
            0 <= i < self.frames@.len() ==> Storage::links_to((#[trigger] self.frames@[i]).outer, i)
        &&& Storage::links_to(self.env.outer, self.frames@.len() as int)
        &&& forall|i: int|
            0 <= i < self.frames@.len() ==> (#[trigger] self.frames@[i]).slots_below(
                self.items@.len() as int,
            )
        &&& self.env.slots_below(self.items@.len() as int)
    }

    /// The frame at position `i` of the chain encloses in the one before it.
    spec fn links_to(outer: Option<usize>, i: int) -> bool {
        if i == 0 {
            outer is None
        } else {
            outer matches Some(o) && o == i - 1
        }
    }

    /// The slots, by index.
    pub closed spec fn slots(self) -> Seq<Value> {
        self.items@
    }

    /// The frames, outermost first; the last is the current frame.
    pub closed spec fn frame_maps(self) -> Seq<Map<Seq<char>, usize>> {
        self.frames@.map_values(|f: EnvironmentData| f@).push(self.env@)
    }

    /// The scratch value stack, bottom first.
    pub closed spec fn stack_values(self) -> Seq<Value> {
        self.stack@
    }

    /// The slot that `key` resolves to from the current frame.
    pub open spec fn lookup(self, key: Seq<char>) -> Option<usize> {
        scoped_lookup(self.frame_maps(), key)
    }

    /// The value of the variable `key`, if it resolves.
    pub open spec fn value_of(self, key: Seq<char>) -> Option<Value> {
        match self.lookup(key) {
            Some(s) => Some(self.slots()[s as int]),
            None => None,
        }
    }

    /// `s1` is `s0` with a new, empty innermost frame.
    pub open spec fn entered(s0: Storage, s1: Storage) -> bool {
        &&& s1.frame_maps() == s0.frame_maps().push(Map::empty())
        &&& s1.slots() == s0.slots()
        &&& s1.stack_values() == s0.stack_values()
    }

    /// `s1` is `s0` with its innermost frame removed, unless it is the only one.
    pub open spec fn exited(s0: Storage, s1: Storage) -> bool {
        &&& s1.frame_maps() == (if s0.frame_maps().len() > 1 {
            s0.frame_maps().drop_last()
        } else {
            s0.frame_maps()
        })
        &&& s1.slots() == s0.slots()
        &&& s1.stack_values() == s0.stack_values()
    }

    /// `s1` is `s0` with one more slot, holding `value`, and with `key`
    /// bound to it in the current frame.
    pub open spec fn declared(s0: Storage, s1: Storage, key: Seq<char>, value: Value) -> bool {
        let n = s0.slots().len() as usize;
        let last = s0.frame_maps().len() - 1;
        &&& s0.slots().len() <= usize::MAX
        &&& s1.slots() == s0.slots().push(value)
        &&& s1.frame_maps() == s0.frame_maps().update(last, s0.frame_maps()[last].insert(key, n))
        &&& s1.stack_values() == s0.stack_values()
    }

    /// `s1` is `s0` after the assignment policy: where `key` resolves, its
    /// slot is overwritten; elsewhere it is declared in the current frame.
    pub open spec fn assigned(s0: Storage, s1: Storage, key: Seq<char>, value: Value) -> bool {
        match s0.lookup(key) {
            Some(s) => {
                &&& s < s0.slots().len()
                &&& s1.slots() == s0.slots().update(s as int, value)
                &&& s1.frame_maps() == s0.frame_maps()
                &&& s1.stack_values() == s0.stack_values()
            },
            None => Storage::declared(s0, s1, key, value),
        }
    }

    /// There is always a current frame.
    pub proof fn lemma_frame_maps_nonempty(s: Storage)
        ensures
            s.frame_maps().len() >= 1,
    {
    }

    closed spec fn enclosing_maps(self) -> Seq<Map<Seq<char>, usize>> {
        self.frames@.map_values(|f: EnvironmentData| f@)
    }

    proof fn lemma_resolve(self, i: int, key: Seq<char>)
        requires
            self.wf(),
            0 <= i < self.frames@.len(),
        ensures
            resolve(self.frames@, i, key) == scoped_lookup(self.enclosing_maps().take(i + 1), key),
        decreases i,
    {
        let maps = self.enclosing_maps().take(i + 1);
        assert(maps.last() == self.frames@[i]@);
        if !self.frames@[i]@.contains_key(key) {
            assert(maps.drop_last() =~= self.enclosing_maps().take(i));
            if i > 0 {
                assert(spec_env_of(self.frames@, i, key) == spec_env_of(self.frames@, i - 1, key));
                self.lemma_resolve(i - 1, key);
            } else {
                assert(spec_env_of(self.frames@, i, key) == None::<usize>);
                assert(maps.drop_last().len() == 0);
                assert(scoped_lookup(maps.drop_last(), key) == None::<usize>);
            }
        } else {
            assert(spec_env_of(self.frames@, i, key) == Some(i as usize));
        }
    }

    /// Resolution through the current frame and then the arena agrees with
    /// the stack of frame maps.
    proof fn lemma_lookup(self, key: Seq<char>)
        requires
            self.wf(),
        ensures
            self.lookup(key) == (if self.env@.contains_key(key) {
                Some(self.env@[key])
            } else {
                match self.env.outer {
                    Some(o) => resolve(self.frames@, o as int, key),
                    None => None,
                }
            }),
    {
        let maps = self.frame_maps();
        assert(maps.drop_last() =~= self.enclosing_maps());
        assert(maps.last() == self.env@);
        if !self.env@.contains_key(key) {
            assert(self.lookup(key) == scoped_lookup(self.enclosing_maps(), key));
            if self.frames@.len() > 0 {
                let o = self.frames@.len() - 1;
                assert(self.env.outer == Some(o as usize));
                self.lemma_resolve(o, key);
                assert(self.enclosing_maps().take(o + 1) =~= self.enclosing_maps());
            } else {
                assert(self.enclosing_maps().len() == 0);
            }
        }
    }

    proof fn lemma_lookup_bounded(frames: Seq<Map<Seq<char>, usize>>, key: Seq<char>, n: int)
        requires
            forall|i: int, k: Seq<char>|
                0 <= i < frames.len() && #[trigger] frames[i].contains_key(k) ==> frames[i][k] < n,
        ensures
            scoped_lookup(frames, key) matches Some(s) ==> s < n,
        decreases frames.len(),
    {
        if frames.len() > 0 && !frames.last().contains_key(key) {
            let d = frames.drop_last();
            assert forall|i: int, k: Seq<char>|
                0 <= i < d.len() && #[trigger] d[i].contains_key(k) implies d[i][k] < n by {
                assert(d[i] == frames[i]);
            }
            Storage::lemma_lookup_bounded(d, key, n);
        }
    }

    /// Under the invariant, every slot that a name resolves to exists.
    proof fn lemma_lookup_in_range(self, key: Seq<char>)
        requires
            self.wf(),
        ensures
            self.lookup(key) matches Some(s) ==> s < self.slots().len(),
    {
        let maps = self.frame_maps();
        let n = self.items@.len() as int;
        assert forall|i: int, k: Seq<char>|
            0 <= i < maps.len() && #[trigger] maps[i].contains_key(k) implies maps[i][k] < n by {
            if i < self.frames@.len() {
                self.frames@[i].lemma_slots_below(n);
            } else {
                self.env.lemma_slots_below(n);
            }
        }
        Storage::lemma_lookup_bounded(maps, key, n);
    }

    pub fn new() -> (r: Storage)
        ensures
            r.slots() == Seq::<Value>::empty(),
            r.frame_maps() == seq![Map::<Seq<char>, usize>::empty()],
            r.stack_values() == Seq::<Value>::empty(),
    {
        let r = Storage {
            items: Vec::new(),
            stack: Stack::new(),
            frames: Vec::new(),
            env: EnvironmentData::new(None),
        };
        assert(r.frame_maps() =~= seq![Map::<Seq<char>, usize>::empty()]);
        r
    }

    /// Moves the whole store out of `self`, leaving an empty one behind.
    fn take(&mut self) -> (r: Storage)
        ensures
            r == *old(self),
    {
        let mut r = Storage::new();
        std::mem::swap(self, &mut r);
        r
    }

    /// Binds `print` to the standard native function.
    pub fn init_std(&mut self)
        ensures
            Storage::assigned(*old(self), *final(self), "print"@, Value::NativeFunc(PRINT_NATIVE)),
            final(self).value_of("print"@) == Some(Value::NativeFunc(PRINT_NATIVE)),
    {
        let key = "print".to_string();
        self.assign_or_declare(&key, Value::NativeFunc(PRINT_NATIVE));
    }

    /// Appends a slot holding `Null` and returns it.
    pub fn get_free(&mut self) -> (r: StorageVariable)
        ensures
            old(self).slots().len() <= usize::MAX,
            r == StorageVariable::Local(old(self).slots().len() as usize),
            final(self).slots() == old(self).slots().push(Value::Null),
            final(self).frame_maps() == old(self).frame_maps(),
            final(self).stack_values() == old(self).stack_values(),
    {
        let st = self.take();
        proof {
            use_type_invariant(&st);
        }
        let Storage { mut items, stack, frames, env } = st;
        let result = items.len();
        items.push(Value::Null);
        *self = Storage { items, stack, frames, env };
        StorageVariable::Local(result)
    }

    /// Appends a slot and binds `key` to it in the current frame, shadowing
    /// any outer binding of the same name.
    pub fn new_var(&mut self, key: String) -> (r: StorageVariable)
        ensures
            r == StorageVariable::Local(old(self).slots().len() as usize),
            Storage::declared(*old(self), *final(self), key@, Value::Null),
    {
        let var = self.get_free();
        if let StorageVariable::Local(v) = var {
            let st = self.take();
            proof {
                use_type_invariant(&st);
            }
            let Storage { items, stack, frames, mut env } = st;
            env.insert(key, v);
            *self = Storage { items, stack, frames, env };
            proof {
                assert(self.frame_maps() =~= old(self).frame_maps().update(
                    old(self).frame_maps().len() - 1,
                    old(self).frame_maps().last().insert(key@, v),
                ));
            }
        }
        var
    }

    /// The slot that `key` resolves to: the current frame's binding, or else
    /// the nearest enclosing frame's. A slot that a name resolves to always
    /// exists.
    pub fn slot_of(&self, key: &String) -> (r: Option<usize>)
        ensures
            r == self.lookup(key@),
            r matches Some(s) ==> s < self.slots().len(),
    {
        proof {
            use_type_invariant(self);
            self.lemma_lookup(key@);
            self.lemma_lookup_in_range(key@);
            assert(chain_wf(self.frames@));
        }
        match self.env.slot_of(key) {
            Some(s) => Some(s),
            None => match self.env.outer {
                Some(o) => EnvironmentData::get(&self.frames, o, key),
                None => None,
            },
        }
    }

    /// Writes `value` to a slot, or to the slot that a name resolves to.
    pub fn store(&mut self, var: StorageVariable, value: Value) -> (r: Result<
        (),
        VariableNotFoundError,
    >)
        requires
            var matches StorageVariable::Local(i) ==> i < old(self).slots().len(),
        ensures
            final(self).frame_maps() == old(self).frame_maps(),
            final(self).stack_values() == old(self).stack_values(),
            match var {
                StorageVariable::Local(i) => {
                    &&& r is Ok
                    &&& final(self).slots() == old(self).slots().update(i as int, value)
                },
                StorageVariable::User(key) => match old(self).lookup(key@) {
                    Some(s) => {
                        &&& r is Ok
                        &&& final(self).slots() == old(self).slots().update(s as int, value)
                    },
                    None => {
                        &&& r matches Err(e) && e.key@ == key@
                        &&& final(self).slots() == old(self).slots()
                    },
                },
            },
    {
        let slot = match var {
            StorageVariable::Local(local) => local,
            StorageVariable::User(key) => match self.slot_of(&key) {
                Some(s) => s,
                None => {
                    return Err(VariableNotFoundError { key });
                },
            },
        };
        let st = self.take();
        proof {
            use_type_invariant(&st);
        }
        let Storage { mut items, stack, frames, env } = st;
        items.set(slot, value);
        *self = Storage { items, stack, frames, env };
        Ok(())
    }

    /// Reads a slot, or the variable that a name resolves to. Reading a name
    /// that resolves nowhere is a fatal error, so callers test it first
    /// (`slot_of`).
    pub fn get(&self, var: StorageVariable) -> (r: Value)
        requires
            var matches StorageVariable::Local(i) ==> i < self.slots().len(),
            var matches StorageVariable::User(key) ==> self.lookup(key@) is Some,
        ensures
            match var {
                StorageVariable::Local(i) => r == self.slots()[i as int],
                StorageVariable::User(key) => self.value_of(key@) == Some(r),
            },
    {
        match var {
            StorageVariable::Local(local) => self.items[local].duplicate(),
            StorageVariable::User(key) => {
                let slot = self.slot_of(&key).unwrap();
                self.items[slot].duplicate()
            },
        }
    }

    /// The assignment policy: overwrite the slot that `key` resolves to, or,
    /// where it resolves nowhere, declare it in the current frame.
    pub fn assign_or_declare(&mut self, key: &String, value: Value)
        ensures
            Storage::assigned(*old(self), *final(self), key@, value),
            final(self).value_of(key@) == Some(value),
    {
        proof {
            use_type_invariant(&*self);
            self.lemma_lookup_in_range(key@);
        }
        let ghost s0 = *self;
        match self.store(StorageVariable::User(key.clone()), value.duplicate()) {
            Ok(_) => {},
            Err(_) => {
                let var = self.new_var(key.clone());
                let ghost s1 = *self;
                let _ = self.store(var, value);
                proof {
                    let n = s0.slots().len();
                    assert(self.slots() =~= s0.slots().push(value));
                    assert(s1.frame_maps() == self.frame_maps());
                }
            },
        }
        proof {
            Storage::assigned_name_reads_back(*old(self), *final(self), key@, value);
        }
    }

    /// After the assignment policy has run, the name reads back the value
    /// assigned, whether it was bound before (anywhere up the chain) or not.
    pub proof fn assigned_name_reads_back(s0: Storage, s1: Storage, key: Seq<char>, value: Value)
        requires
            Storage::assigned(s0, s1, key, value),
        ensures
            s1.value_of(key) == Some(value),
    {
        let maps = s1.frame_maps();
        if s0.lookup(key) is None {
            assert(maps.last() == maps[maps.len() - 1]);
            assert(maps.last().contains_key(key));
            assert(s1.lookup(key) == Some(s0.slots().len() as usize));
        } else {
            assert(s1.lookup(key) == s0.lookup(key));
        }
    }

    pub fn push(&mut self, value: Value)
        ensures
            final(self).stack_values() == old(self).stack_values().push(value),
            final(self).slots() == old(self).slots(),
            final(self).frame_maps() == old(self).frame_maps(),
    {
        let st = self.take();
        proof {
            use_type_invariant(&st);
        }
        let Storage { items, mut stack, frames, env } = st;
        stack.push(value);
        *self = Storage { items, stack, frames, env };
    }

    pub fn pop(&mut self) -> (r: Value)
        requires
            old(self).stack_values().len() > 0,
        ensures
            r == old(self).stack_values().last(),
            final(self).stack_values() == old(self).stack_values().drop_last(),
            final(self).slots() == old(self).slots(),
            final(self).frame_maps() == old(self).frame_maps(),
    {
        let st = self.take();
        proof {
            use_type_invariant(&st);
        }
        let Storage { items, mut stack, frames, env } = st;
        let r = stack.pop();
        *self = Storage { items, stack, frames, env };
        r
    }

    /// Enters a new scope: a new, empty frame inside the current one.
    pub fn scope_start(&mut self)
        ensures
            Storage::entered(*old(self), *final(self)),
    {
        let st = self.take();
        proof {
            use_type_invariant(&st);
        }
        let Storage { items, stack, mut frames, env } = st;
        let outer = frames.len();
        frames.push(env);
        let data = EnvironmentData::new(Some(outer));
        *self = Storage { items, stack, frames, env: data };
        proof {
            assert(self.frame_maps() =~= old(self).frame_maps().push(
                Map::<Seq<char>, usize>::empty(),
            ));
        }
    }

    /// Leaves the current scope for its enclosing one, if it has one. The
    /// slots of the frame left behind are kept.
    pub fn scope_end(&mut self)
        ensures
            Storage::exited(*old(self), *final(self)),
    {
        if self.frames.len() > 0 {
            let st = self.take();
            proof {
                use_type_invariant(&st);
            }
            let Storage { items, stack, mut frames, env } = st;
            let outer = frames.pop().unwrap();
            *self = Storage { items, stack, frames, env: outer };
            proof {
                assert(self.frame_maps() =~= old(self).frame_maps().drop_last());
            }
        }
    }

    /// A name that is bound nowhere and is assigned only inside a nested
    /// scope does not resolve once that scope is left.
    pub proof fn inner_declaration_not_visible_after_exit(
        s0: Storage,
        s1: Storage,
        s2: Storage,
        s3: Storage,
        key: Seq<char>,
        value: Value,
    )
        requires
            s0.lookup(key) is None,
            Storage::entered(s0, s1),
            Storage::assigned(s1, s2, key, value),
            Storage::exited(s2, s3),
        ensures
            s3.lookup(key) is None,
            s3.frame_maps() == s0.frame_maps(),
    {
        assert(s1.frame_maps().drop_last() =~= s0.frame_maps());
        assert(s1.lookup(key) is None);
        assert(s2.frame_maps().drop_last() =~= s0.frame_maps());
    }

    /// Assigning, from a nested scope, a name bound in an enclosing scope
    /// overwrites that binding, which keeps the value once the scope is left.
    pub proof fn outer_binding_mutated_from_inner_scope(
        s0: Storage,
        s1: Storage,
        s2: Storage,
        s3: Storage,
        key: Seq<char>,
        value: Value,
    )
        requires
            s0.lookup(key) is Some,
            Storage::entered(s0, s1),
            Storage::assigned(s1, s2, key, value),
            Storage::exited(s2, s3),
        ensures
            s3.value_of(key) == Some(value),
            s3.lookup(key) == s0.lookup(key),
    {
        assert(s1.frame_maps().drop_last() =~= s0.frame_maps());
        assert(s1.lookup(key) == s0.lookup(key));
    }

    /// One step of the scoping engine: entering or leaving a scope, or
    /// declaring or assigning a name.
    pub open spec fn scope_step(s0: Storage, s1: Storage) -> bool {
        ||| Storage::entered(s0, s1)
        ||| Storage::exited(s0, s1)
        ||| exists|k: Seq<char>, v: Value| Storage::declared(s0, s1, k, v)
        ||| exists|k: Seq<char>, v: Value| Storage::assigned(s0, s1, k, v)
    }

    proof fn lemma_step_keeps_slots(s0: Storage, s1: Storage)
        requires
            Storage::scope_step(s0, s1),
        ensures
            s0.slots().len() <= s1.slots().len(),
    {
        if exists|k: Seq<char>, v: Value| Storage::assigned(s0, s1, k, v) {
            let (k, v) = choose|k: Seq<char>, v: Value| Storage::assigned(s0, s1, k, v);
            assert(Storage::assigned(s0, s1, k, v));
        }
    }

    proof fn lemma_steps_keep_slots(states: Seq<Storage>, i: int, j: int)
        requires
            forall|m: int|
                0 <= m < states.len() - 1 ==> Storage::scope_step(
                    #[trigger] states[m],
                    states[m + 1],
                ),
            0 <= i <= j < states.len(),
        ensures
            states[i].slots().len() <= states[j].slots().len(),
        decreases j - i,
    {
        if i < j {
            Storage::lemma_steps_keep_slots(states, i, j - 1);
            Storage::lemma_step_keeps_slots(states[j - 1], states[j]);
        }
    }

    /// Across any sequence of scope entries and exits, declarations and
    /// assignments, the number of slots never decreases.
    pub proof fn slot_count_never_shrinks(states: Seq<Storage>)
        requires
            forall|m: int|
                0 <= m < states.len() - 1 ==> Storage::scope_step(
                    #[trigger] states[m],
                    states[m + 1],
                ),
        ensures
            forall|i: int, j: int|
                0 <= i <= j < states.len() ==> #[trigger] states[i].slots().len()
                    <= #[trigger] states[j].slots().len(),
    {
        assert forall|i: int, j: int|
            0 <= i <= j < states.len() implies #[trigger] states[i].slots().len()
                <= #[trigger] states[j].slots().len() by {
            Storage::lemma_steps_keep_slots(states, i, j);
        }
    }
}

impl Default for Storage {
    fn default() -> (r: Storage)
        ensures
            r.slots() == Seq::<Value>::empty(),
            r.frame_maps() == seq![Map::<Seq<char>, usize>::empty()],
            r.stack_values() == Seq::<Value>::empty(),
    {
        Storage::new()
    }
}

} // verus!
