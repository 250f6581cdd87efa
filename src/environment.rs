use vstd::prelude::*;

verus! {

/// One scope frame: the names bound in it, each to a storage slot, and the
/// index of the enclosing frame in the arena of frames, if there is one.
#[derive(Clone, Debug)]
pub struct EnvironmentData {
    pub variables: Vec<(String, usize)>,
    pub outer: Option<usize>,
}

/// The map that a list of bindings denotes: a later binding of a name
/// replaces an earlier one.
pub open spec fn bindings_map(vars: Seq<(String, usize)>) -> Map<Seq<char>, usize>
    decreases vars.len(),
{
    if vars.len() == 0 {
        Map::empty()
    } else {
        bindings_map(vars.drop_last()).insert(vars.last().0@, vars.last().1)
    }
}

impl View for EnvironmentData {
    type V = Map<Seq<char>, usize>;

    open spec fn view(&self) -> Map<Seq<char>, usize> {
        bindings_map(self.variables@)
    }
}

/// Every frame's enclosing frame stands before it in the arena, so that
/// every chain of `outer` links ends.
pub open spec fn chain_wf(frames: Seq<EnvironmentData>) -> bool {
    forall|i: int|
        0 <= i < frames.len() && (#[trigger] frames[i].outer) is Some ==> frames[i].outer->0 < i
}

/// The nearest frame, walking outward from `env`, that binds `key`. On a
/// well-formed arena (`chain_wf`) every link leads to a lower index, so the
/// walk follows every link to the end of the chain.
pub open spec fn spec_env_of(frames: Seq<EnvironmentData>, env: int, key: Seq<char>) -> Option<
    usize,
>
    decreases env,
{
    if env < 0 || env >= frames.len() {
        None
    } else if frames[env]@.contains_key(key) {
        Some(env as usize)
    } else {
        match frames[env].outer {
            Some(o) => if o < env {
                spec_env_of(frames, o as int, key)
            } else {
                None
            },
            None => None,
        }
    }
}

/// The slot that `key` resolves to from frame `env`, if any.
pub open spec fn resolve(frames: Seq<EnvironmentData>, env: int, key: Seq<char>) -> Option<usize> {
    match spec_env_of(frames, env, key) {
        Some(f) => Some(frames[f as int]@[key]),
        None => None,
    }
}

/// The outermost frame of the chain that starts at `env` (on a well-formed
/// arena, the frame reached by following every link).
pub open spec fn spec_top(frames: Seq<EnvironmentData>, env: int) -> int
    decreases env,
{
    if env < 0 || env >= frames.len() {
        env
    } else {
        match frames[env].outer {
            Some(o) => if o < env {
                spec_top(frames, o as int)
            } else {
                env
            },
            None => env,
        }
    }
}

proof fn lemma_bindings_take(vars: Seq<(String, usize)>, i: int)
    requires
        0 <= i < vars.len(),
    ensures
        bindings_map(vars.take(i + 1)) == bindings_map(vars.take(i)).insert(
            vars[i].0@,
            vars[i].1,
        ),
{
    assert(vars.take(i + 1).drop_last() =~= vars.take(i));
}

/// Every slot that a frame maps to is one of its bindings' slots.
pub proof fn lemma_bindings_bounded(vars: Seq<(String, usize)>, n: int)
    requires
        forall|j: int| 0 <= j < vars.len() ==> (#[trigger] vars[j]).1 < n,
    ensures
        forall|k: Seq<char>| #[trigger]
            bindings_map(vars).contains_key(k) ==> bindings_map(vars)[k] < n,
    decreases vars.len(),
{
    if vars.len() > 0 {
        let d = vars.drop_last();
        assert forall|j: int| 0 <= j < d.len() implies (#[trigger] d[j]).1 < n by {
            assert(d[j] == vars[j]);
        }
        lemma_bindings_bounded(d, n);
        assert(vars.last() == vars[vars.len() - 1]);
        assert forall|k: Seq<char>| #[trigger]
            bindings_map(vars).contains_key(k) implies bindings_map(vars)[k] < n by {
            if k != vars.last().0@ {
                assert(bindings_map(d).contains_key(k));
            }
        }
    }
}

impl EnvironmentData {
    /// The slot bounds of a frame follow from those of its bindings.
    pub open spec fn slots_below(&self, n: int) -> bool {
        forall|j: int| 0 <= j < self.variables.len() ==> (#[trigger] self.variables[j]).1 < n
    }

    pub proof fn lemma_slots_below(&self, n: int)
        requires
            self.slots_below(n),
        ensures
            forall|k: Seq<char>| #[trigger] self@.contains_key(k) ==> self@[k] < n,
    {
        lemma_bindings_bounded(self.variables@, n);
    }

    pub fn new(outer: Option<usize>) -> (r: EnvironmentData)
        ensures
            r@ == Map::<Seq<char>, usize>::empty(),
            r.outer == outer,
            r.slots_below(0),
    {
        EnvironmentData { variables: Vec::new(), outer }
    }

    /// The outermost frame of the chain that starts at `env`.
    pub fn top(frames: &Vec<EnvironmentData>, env: usize) -> (r: usize)
        requires
            env < frames@.len(),
            chain_wf(frames@),
        ensures
            r as int == spec_top(frames@, env as int),
            r <= env,
            frames@[r as int].outer is None,
        decreases env,
    {
        match frames[env].outer {
            Some(o) => EnvironmentData::top(frames, o),
            None => env,
        }
    }

    /// Binds `key` to slot `var` in this frame, replacing an earlier binding
    /// of the same name.
    pub fn insert(&mut self, key: String, var: usize)
        ensures
            final(self)@ == old(self)@.insert(key@, var),
            final(self).outer == old(self).outer,
            forall|n: int| old(self).slots_below(n) && var < n ==> final(self).slots_below(n),
    {
        self.variables.push((key, var));
        proof {
            assert(final(self).variables@.drop_last() =~= old(self).variables@);
        }
    }

    /// The slot that this frame alone binds `key` to.
    pub fn slot_of(&self, key: &String) -> (r: Option<usize>)
        ensures
            r == (if self@.contains_key(key@) {
                Some(self@[key@])
            } else {
                None::<usize>
            }),
    {
        let mut found: Option<usize> = None;
        let mut i: usize = 0;
        while i < self.variables.len()
            invariant
                i <= self.variables@.len(),
                found == (if bindings_map(self.variables@.take(i as int)).contains_key(key@) {
                    Some(bindings_map(self.variables@.take(i as int))[key@])
                } else {
                    None::<usize>
                }),
            decreases self.variables@.len() - i,
        {
            proof {
                lemma_bindings_take(self.variables@, i as int);
            }
            if self.variables[i].0 == *key {
                found = Some(self.variables[i].1);
            }
            i = i + 1;
        }
        proof {
            assert(self.variables@.take(i as int) =~= self.variables@);
        }
        found
    }

    /// The nearest frame, walking outward from `env`, that binds `key`.
    pub fn env_of(frames: &Vec<EnvironmentData>, env: usize, key: &String) -> (r: Option<usize>)
        requires
            chain_wf(frames@),
        ensures
            r == spec_env_of(frames@, env as int, key@),
            r is Some ==> r->0 < frames@.len() && frames@[r->0 as int]@.contains_key(key@),
        decreases env,
    {
        if env >= frames.len() {
            return None;
        }
        if frames[env].slot_of(key).is_some() {
            Some(env)
        } else {
            match frames[env].outer {
                Some(o) => EnvironmentData::env_of(frames, o, key),
                None => None,
            }
        }
    }

    /// The slot that `key` resolves to from frame `env`: the binding of the
    /// nearest frame on the chain that binds it.
    pub fn get(frames: &Vec<EnvironmentData>, env: usize, key: &String) -> (r: Option<usize>)
        requires
            chain_wf(frames@),
        ensures
            r == resolve(frames@, env as int, key@),
    {
        match EnvironmentData::env_of(frames, env, key) {
            Some(f) => frames[f].slot_of(key),
            None => None,
        }
    }
}

} // verus!
