use vstd::prelude::*;

verus! {

/// The map that results from applying the assignments `p` to `m` in order:
/// a later assignment to a key replaces an earlier one.
pub open spec fn apply_entries(m: Map<Seq<char>, Seq<char>>, p: Seq<(String, String)>) -> Map<
    Seq<char>,
    Seq<char>,
>
    decreases p.len(),
{
    if p.len() == 0 {
        m
    } else {
        apply_entries(m, p.drop_last()).insert(p.last().0@, p.last().1@)
    }
}

/// Where `p` assigns `k` at all, the value that `p` gives it does not depend
/// on the map it is applied to.
pub proof fn lemma_apply_overrides(m: Map<Seq<char>, Seq<char>>, p: Seq<(String, String)>, k: Seq<char>)
    requires
        apply_entries(Map::empty(), p).contains_key(k),
    ensures
        apply_entries(m, p).contains_key(k),
        apply_entries(m, p)[k] == apply_entries(Map::empty(), p)[k],
    decreases p.len(),
{
    if p.len() > 0 && p.last().0@ != k {
        lemma_apply_overrides(m, p.drop_last(), k);
    }
}

proof fn lemma_apply_skips(m: Map<Seq<char>, Seq<char>>, p: Seq<(String, String)>, n: int, k: Seq<char>)
    requires
        0 <= n <= p.len(),
        forall|j: int| n <= j < p.len() ==> (#[trigger] p[j]).0@ != k,
    ensures
        apply_entries(m, p).contains_key(k) == apply_entries(m, p.take(n)).contains_key(k),
        apply_entries(m, p).contains_key(k) ==> apply_entries(m, p)[k] == apply_entries(m, p.take(n))[k],
    decreases p.len(),
{
    if p.len() == n {
        assert(p.take(n) =~= p);
    } else {
        assert(p.drop_last().take(n) =~= p.take(n));
        lemma_apply_skips(m, p.drop_last(), n, k);
    }
}

/// A set of environment variables, kept as the assignments made to it in the
/// order they were made; the latest assignment to a name is its value.
pub struct EnvStore {
    assignments: Vec<(String, String)>,
}

impl View for EnvStore {
    type V = Map<Seq<char>, Seq<char>>;

    closed spec fn view(&self) -> Map<Seq<char>, Seq<char>> {
        apply_entries(Map::empty(), self.assignments@)
    }
}

impl EnvStore {
    /// An environment with no variables.
    pub fn new() -> (r: EnvStore)
        ensures
            r@ == Map::<Seq<char>, Seq<char>>::empty(),
    {
        EnvStore { assignments: Vec::new() }
    }

    /// Sets `key` to `value`, replacing any earlier value.
    pub fn set(&mut self, key: String, value: String)
        ensures
            final(self)@ == old(self)@.insert(key@, value@),
    {
        proof {
            assert(self.assignments@.push((key, value)).drop_last() =~= self.assignments@);
        }
        self.assignments.push((key, value));
    }

    /// Applies the assignments `p` in order.
    pub fn apply(&mut self, p: &Vec<(String, String)>)
        ensures
            final(self)@ == apply_entries(old(self)@, p@),
    {
        let mut i: usize = 0;
        while i < p.len()
            invariant
                i <= p@.len(),
                self@ == apply_entries(old(self)@, p@.take(i as int)),
            decreases p.len() - i,
        {
            let (k, v) = (p[i].0.clone(), p[i].1.clone());
            proof {
                assert(p@.take(i + 1).drop_last() =~= p@.take(i as int));
            }
            self.set(k, v);
            i = i + 1;
        }
        assert(p@.take(p@.len() as int) =~= p@);
    }

    /// The value of `key`, if it is set.
    pub fn get(&self, key: &String) -> (r: Option<&String>)
        ensures
            r matches Some(v) ==> self@.contains_key(key@) && v@ == self@[key@],
            r is None ==> !self@.contains_key(key@),
    {
        let mut i: usize = self.assignments.len();
        while i > 0
            invariant
                i <= self.assignments@.len(),
                forall|j: int| i <= j < self.assignments@.len() ==> (#[trigger] self.assignments@[j]).0@ != key@,
            decreases i,
        {
            if self.assignments[i - 1].0 == *key {
                proof {
                    let p = self.assignments@;
                    lemma_apply_skips(Map::empty(), p, i as int, key@);
                    assert(p.take(i as int).drop_last() =~= p.take(i - 1));
                }
                return Some(&self.assignments[i - 1].1);
            }
            i = i - 1;
        }
        proof {
            lemma_apply_skips(Map::empty(), self.assignments@, 0, key@);
        }
        None
    }

    /// The assignments made so far, in order; applying them in order to an
    /// empty environment gives this one.
    pub fn assignments(&self) -> (r: &Vec<(String, String)>)
        ensures
            apply_entries(Map::empty(), r@) == self@,
    {
        &self.assignments
    }
}

} // verus!
