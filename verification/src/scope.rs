//! A stack of lexical scopes, each mapping variable names to values, as
//! the analysis and the interpreter keep them: one scope per open block,
//! the innermost last.
use vstd::prelude::*;

verus! {

/// The map that a list of name/value entries describes; a later entry for
/// a name takes precedence over an earlier one.
pub open spec fn frame_map<'a, T: View>(l: Seq<(&'a [u8], T)>) -> Map<Seq<u8>, T::V>
    decreases l.len(),
{
    if l.len() == 0 {
        Map::empty()
    } else {
        frame_map(l.drop_last()).insert(l.last().0@, l.last().1@)
    }
}

/// The value of `name` in the innermost scope that declares it.
pub open spec fn lookup<V>(env: Seq<Map<Seq<u8>, V>>, name: Seq<u8>) -> Option<V>
    decreases env.len(),
{
    if env.len() == 0 {
        None
    } else if env.last().contains_key(name) {
        Some(env.last()[name])
    } else {
        lookup(env.drop_last(), name)
    }
}

/// `env` with `name` set to `v` in the innermost scope that declares it
/// (unchanged where none does).
pub open spec fn assign<V>(env: Seq<Map<Seq<u8>, V>>, name: Seq<u8>, v: V) -> Seq<Map<Seq<u8>, V>>
    decreases env.len(),
{
    if env.len() == 0 {
        env
    } else if env.last().contains_key(name) {
        env.update(env.len() - 1, env.last().insert(name, v))
    } else {
        assign(env.drop_last(), name, v).push(env.last())
    }
}

/// `env` with `name` declared as `v` in the innermost scope.
pub open spec fn declare<V>(env: Seq<Map<Seq<u8>, V>>, name: Seq<u8>, v: V) -> Seq<Map<Seq<u8>, V>> {
    env.update(env.len() - 1, env.last().insert(name, v))
}

/// Some scope at index `start` or above declares `name`.
pub open spec fn declared_from<V>(env: Seq<Map<Seq<u8>, V>>, name: Seq<u8>, start: int) -> bool {
    exists|k: int| start <= k < env.len() && #[trigger] env[k].contains_key(name)
}

/// `i` is the last entry of `l` for `name`.
pub open spec fn last_entry<'a, T>(l: Seq<(&'a [u8], T)>, name: Seq<u8>, i: int) -> bool {
    &&& 0 <= i < l.len()
    &&& l[i].0@ == name
    &&& forall|j: int| i < j < l.len() ==> (#[trigger] l[j]).0@ != name
}

pub proof fn lemma_frame_map_absent<'a, T: View>(l: Seq<(&'a [u8], T)>, name: Seq<u8>)
    requires
        forall|j: int| 0 <= j < l.len() ==> (#[trigger] l[j]).0@ != name,
    ensures
        !frame_map(l).contains_key(name),
    decreases l.len(),
{
    if l.len() > 0 {
        lemma_frame_map_absent(l.drop_last(), name);
    }
}

pub proof fn lemma_frame_map_last_entry<'a, T: View>(l: Seq<(&'a [u8], T)>, name: Seq<u8>, i: int)
    requires
        last_entry(l, name, i),
    ensures
        frame_map(l).contains_key(name),
        frame_map(l)[name] == l[i].1@,
    decreases l.len(),
{
    if i < l.len() - 1 {
        assert(l.last() == l[l.len() - 1]);
        lemma_frame_map_last_entry(l.drop_last(), name, i);
    }
}

pub proof fn lemma_frame_map_update_last_entry<'a, T: View>(
    l: Seq<(&'a [u8], T)>,
    name: Seq<u8>,
    i: int,
    entry: (&'a [u8], T),
)
    requires
        last_entry(l, name, i),
        entry.0@ == name,
    ensures
        frame_map(l.update(i, entry)) == frame_map(l).insert(name, entry.1@),
    decreases l.len(),
{
    let u = l.update(i, entry);
    if i == l.len() - 1 {
        assert(u.drop_last() =~= l.drop_last());
        assert(frame_map(l).insert(name, entry.1@) =~= frame_map(l.drop_last()).insert(name, entry.1@));
    } else {
        assert(l.last() == l[l.len() - 1]);
        assert(u.drop_last() =~= l.drop_last().update(i, entry));
        lemma_frame_map_update_last_entry(l.drop_last(), name, i, entry);
        assert(u.last() == l.last());
        assert(frame_map(u) =~= frame_map(l).insert(name, entry.1@));
    }
}

/// Whether two byte slices hold the same bytes.
pub fn bytes_equal(a: &[u8], b: &[u8]) -> (r: bool)
    ensures
        r == (a@ == b@),
{
    if a.len() != b.len() {
        return false;
    }
    let mut i: usize = 0;
    while i < a.len()
        invariant
            a@.len() == b@.len(),
            i <= a@.len(),
            forall|m: int| 0 <= m < i ==> a@[m] == b@[m],
        decreases a@.len() - i,
    {
        if a[i] != b[i] {
            return false;
        }
        i = i + 1;
    }
    assert(a@ =~= b@);
    true
}

/// The last entry of `frame` for `name`, if any.
fn find_last<'a, T: View>(frame: &Vec<(&'a [u8], T)>, name: &[u8]) -> (r: Option<usize>)
    ensures
        r matches Some(i) ==> last_entry(frame@, name@, i as int),
        r is None ==> forall|j: int| 0 <= j < frame@.len() ==> (#[trigger] frame@[j]).0@ != name@,
{
    let mut i = frame.len();
    while i > 0
        invariant
            i <= frame@.len(),
            forall|j: int| i <= j < frame@.len() ==> (#[trigger] frame@[j]).0@ != name@,
        decreases i,
    {
        i = i - 1;
        if bytes_equal(frame[i].0, name) {
            return Some(i);
        }
    }
    None
}

/// A stack of scopes from variable names to values of type `T`.
pub struct Scopes<'a, T> {
    frames: Vec<Vec<(&'a [u8], T)>>,
}

impl<'a, T: View + Copy> View for Scopes<'a, T> {
    type V = Seq<Map<Seq<u8>, T::V>>;

    closed spec fn view(&self) -> Seq<Map<Seq<u8>, T::V>> {
        Seq::new(self.frames@.len(), |k: int| frame_map(self.frames@[k]@))
    }
}

impl<'a, T: View + Copy> Scopes<'a, T> {
    /// A single, empty scope.
    pub fn new() -> (s: Self)
        ensures
            s@ == seq![Map::<Seq<u8>, T::V>::empty()],
    {
        let mut frames: Vec<Vec<(&'a [u8], T)>> = Vec::new();
        frames.push(Vec::new());
        let s = Scopes { frames };
        assert(s@ =~= seq![Map::<Seq<u8>, T::V>::empty()]);
        s
    }

    /// Opens a new, empty innermost scope.
    pub fn push_scope(&mut self)
        ensures
            final(self)@ == old(self)@.push(Map::empty()),
    {
        self.frames.push(Vec::new());
        assert(self@ =~= old(self)@.push(Map::empty()));
    }

    /// Closes the innermost scope.
    pub fn pop_scope(&mut self)
        requires
            old(self)@.len() > 0,
        ensures
            final(self)@ == old(self)@.drop_last(),
    {
        let _ = self.frames.pop();
        assert(self@ =~= old(self)@.drop_last());
    }

    /// The value of `name` in the innermost scope that declares it.
    pub fn get(&self, name: &[u8]) -> (r: Option<T>)
        ensures
            match lookup(self@, name@) {
                Some(v) => r matches Some(rv) && rv@ == v,
                None => r is None,
            },
    {
        let mut k = self.frames.len();
        assert(self@.take(k as int) =~= self@);
        while k > 0
            invariant
                k <= self.frames@.len(),
                lookup(self@, name@) == lookup(self@.take(k as int), name@),
            decreases k,
        {
            let ghost prefix = self@.take(k as int);
            k = k - 1;
            assert(prefix.drop_last() =~= self@.take(k as int));
            assert(prefix.last() == frame_map(self.frames@[k as int]@));
            match find_last(&self.frames[k], name) {
                Some(i) => {
                    proof {
                        lemma_frame_map_last_entry(self.frames@[k as int]@, name@, i as int);
                    }
                    return Some(self.frames[k][i].1);
                },
                None => {
                    proof {
                        lemma_frame_map_absent(self.frames@[k as int]@, name@);
                    }
                },
            }
        }
        None
    }

    /// The number of scopes.
    pub fn depth(&self) -> (r: usize)
        ensures
            r == self@.len(),
    {
        self.frames.len()
    }

    /// Whether some scope at index `start` or above declares `name`.
    pub fn declares_from(&self, name: &[u8], start: usize) -> (r: bool)
        ensures
            r == declared_from(self@, name@, start as int),
    {
        let mut k = start;
        while k < self.frames.len()
            invariant
                start <= k,
                forall|j: int| start <= j < k && j < self@.len() ==> !(#[trigger] self@[j]).contains_key(name@),
            decreases self.frames@.len() - k,
        {
            match find_last(&self.frames[k], name) {
                Some(i) => {
                    proof {
                        lemma_frame_map_last_entry(self.frames@[k as int]@, name@, i as int);
                        assert(self@[k as int].contains_key(name@));
                    }
                    return true;
                },
                None => {
                    proof {
                        lemma_frame_map_absent(self.frames@[k as int]@, name@);
                    }
                },
            }
            k = k + 1;
        }
        false
    }

    /// Whether the innermost scope declares `name`.
    pub fn innermost_declares(&self, name: &[u8]) -> (r: bool)
        requires
            self@.len() > 0,
        ensures
            r == self@.last().contains_key(name@),
    {
        let k = self.frames.len() - 1;
        match find_last(&self.frames[k], name) {
            Some(i) => {
                proof {
                    lemma_frame_map_last_entry(self.frames@[k as int]@, name@, i as int);
                }
                true
            },
            None => {
                proof {
                    lemma_frame_map_absent(self.frames@[k as int]@, name@);
                }
                false
            },
        }
    }

    /// Declares `name` as `value` in the innermost scope.
    pub fn declare(&mut self, name: &'a [u8], value: T)
        requires
            old(self)@.len() > 0,
        ensures
            final(self)@ == declare(old(self)@, name@, value@),
    {
        let k = self.frames.len() - 1;
        let mut frame = self.frames.remove(k);
        let ghost before = frame@;
        frame.push((name, value));
        assert(frame@.drop_last() =~= before);
        self.frames.insert(k, frame);
        assert(self@ =~= declare(old(self)@, name@, value@));
    }

    /// Sets `name` to `value` in the innermost scope that declares it, and
    /// tells whether there was one.
    pub fn assign(&mut self, name: &'a [u8], value: T) -> (found: bool)
        ensures
            found == lookup(old(self)@, name@) is Some,
            final(self)@ == assign(old(self)@, name@, value@),
    {
        let ghost env = self@;
        let mut k = self.frames.len();
        assert(env.take(k as int) =~= env);
        assert(env.take(k as int) + env.skip(k as int) =~= env);
        while k > 0
            invariant
                k <= self.frames@.len(),
                self.frames@ == old(self).frames@,
                env == old(self)@,
                lookup(env, name@) == lookup(env.take(k as int), name@),
                assign(env, name@, value@) == assign(env.take(k as int), name@, value@) + env.skip(k as int),
            decreases k,
        {
            let ghost prefix = env.take(k as int);
            k = k - 1;
            assert(prefix.drop_last() =~= env.take(k as int));
            assert(prefix.last() == frame_map(self.frames@[k as int]@));
            match find_last(&self.frames[k], name) {
                Some(i) => {
                    let ghost fr = self.frames@[k as int]@;
                    proof {
                        lemma_frame_map_last_entry(fr, name@, i as int);
                        lemma_frame_map_update_last_entry(fr, name@, i as int, (name, value));
                    }
                    let mut frame = self.frames.remove(k);
                    frame.set(i, (name, value));
                    self.frames.insert(k, frame);
                    proof {
                        assert(env.take(k + 1) =~= prefix);
                        assert(self@ =~= assign(env, name@, value@));
                    }
                    return true;
                },
                None => {
                    proof {
                        lemma_frame_map_absent(self.frames@[k as int]@, name@);
                        assert(env.take(k as int).push(prefix.last()) + env.skip(k + 1) =~= env.take(k as int)
                            + env.skip(k as int));
                    }
                },
            }
        }
        assert(env.take(0) + env.skip(0) =~= env);
        false
    }
}

} // verus!

verus! {

/// Assigning keeps the number of scopes.
pub proof fn lemma_assign_len<V>(env: Seq<Map<Seq<u8>, V>>, name: Seq<u8>, v: V)
    ensures
        assign(env, name, v).len() == env.len(),
    decreases env.len(),
{
    if env.len() > 0 && !env.last().contains_key(name) {
        lemma_assign_len(env.drop_last(), name, v);
    }
}

/// Assigning keeps the names that each scope declares.
pub proof fn lemma_assign_domains<V>(env: Seq<Map<Seq<u8>, V>>, name: Seq<u8>, v: V)
    ensures
        assign(env, name, v).len() == env.len(),
        forall|i: int| 0 <= i < env.len() ==> (#[trigger] assign(env, name, v)[i]).dom() == env[i].dom(),
    decreases env.len(),
{
    lemma_assign_len(env, name, v);
    if env.len() > 0 {
        if env.last().contains_key(name) {
            assert(env.last().insert(name, v).dom() =~= env.last().dom());
        } else {
            lemma_assign_domains(env.drop_last(), name, v);
            let e = assign(env, name, v);
            assert forall|i: int| 0 <= i < env.len() implies (#[trigger] e[i]).dom() == env[i].dom() by {
                if i < env.len() - 1 {
                    assert(e[i] == assign(env.drop_last(), name, v)[i]);
                    assert(env.drop_last()[i] == env[i]);
                }
            }
        }
    }
}

/// Setting a variable to the value it already has changes nothing.
pub proof fn lemma_assign_same<V>(env: Seq<Map<Seq<u8>, V>>, name: Seq<u8>, v: V)
    requires
        lookup(env, name) == Some(v),
    ensures
        assign(env, name, v) == env,
    decreases env.len(),
{
    if env.len() > 0 {
        if env.last().contains_key(name) {
            assert(env.last().insert(name, v) =~= env.last());
            assert(env.update(env.len() - 1, env.last()) =~= env);
        } else {
            lemma_assign_same(env.drop_last(), name, v);
            assert(env.drop_last().push(env.last()) =~= env);
        }
    }
}

/// Assigning a variable that a scope at index `start` or above declares
/// leaves the scopes below `start` as they were.
pub proof fn lemma_assign_above<V>(env: Seq<Map<Seq<u8>, V>>, name: Seq<u8>, v: V, start: int)
    requires
        declared_from(env, name, start),
        0 <= start,
    ensures
        assign(env, name, v).len() == env.len(),
        forall|k: int| 0 <= k < start && k < env.len() ==> #[trigger] assign(env, name, v)[k] == env[k],
    decreases env.len(),
{
    lemma_assign_len(env, name, v);
    if env.len() > 0 && !env.last().contains_key(name) {
        let j = choose|j: int| start <= j < env.len() && #[trigger] env[j].contains_key(name);
        assert(env.drop_last()[j] == env[j]);
        lemma_assign_above(env.drop_last(), name, v, start);
        let e = assign(env, name, v);
        assert forall|k: int| 0 <= k < start && k < env.len() implies #[trigger] e[k] == env[k] by {
            assert(e[k] == assign(env.drop_last(), name, v)[k]);
            assert(env.drop_last()[k] == env[k]);
        }
    }
}

/// A name that no scope declares is not found, and one that some scope
/// declares is.
pub proof fn lemma_lookup_declared<V>(env: Seq<Map<Seq<u8>, V>>, name: Seq<u8>)
    ensures
        lookup(env, name) is Some <==> declared_from(env, name, 0),
    decreases env.len(),
{
    if env.len() > 0 {
        lemma_lookup_declared(env.drop_last(), name);
        if declared_from(env, name, 0) && !env.last().contains_key(name) {
            let j = choose|j: int| 0 <= j < env.len() && #[trigger] env[j].contains_key(name);
            assert(env.drop_last()[j] == env[j]);
        }
        if declared_from(env.drop_last(), name, 0) {
            let j = choose|j: int| 0 <= j < env.drop_last().len() && #[trigger] env.drop_last()[j].contains_key(name);
            assert(env[j] == env.drop_last()[j]);
        }
    }
}

} // verus!
