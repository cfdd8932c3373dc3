//! The environment overlay of a session.
//!
//! The shell keeps its variables in an explicit table instead of touching the
//! process environment: expansion reads this table, the `var` builtin writes
//! it, and the driver seeds it at start and mirrors writes back outward.

use vstd::prelude::*;

verus! {

/// Named variables and their values, each name held at most once.
pub struct EnvState {
    vars: Vec<(String, String)>,
}

spec fn names_unique(s: Seq<(Seq<char>, Seq<char>)>) -> bool {
    forall|k1: int, k2: int|
        0 <= k1 < k2 < s.len() ==> (#[trigger] s[k1]).0 != (#[trigger] s[k2]).0
}

spec fn env_map_of(s: Seq<(Seq<char>, Seq<char>)>) -> Map<Seq<char>, Seq<char>>
    decreases s.len(),
{
    if s.len() == 0 {
        Map::empty()
    } else {
        env_map_of(s.drop_last()).insert(s.last().0, s.last().1)
    }
}

proof fn lemma_env_map_dom(s: Seq<(Seq<char>, Seq<char>)>, n: Seq<char>)
    ensures
        env_map_of(s).contains_key(n) <==> exists|k: int|
            0 <= k < s.len() && (#[trigger] s[k]).0 == n,
    decreases s.len(),
{
    if s.len() == 0 {
    } else {
        lemma_env_map_dom(s.drop_last(), n);
        if s.last().0 == n {
            assert((s[s.len() - 1]).0 == n);
        } else {
            if env_map_of(s).contains_key(n) {
                let k = choose|k: int| 0 <= k < s.drop_last().len() && (#[trigger] s.drop_last()[
                    k]).0 == n;
                assert((s[k]).0 == n);
            }
            if exists|k: int| 0 <= k < s.len() && (#[trigger] s[k]).0 == n {
                let k = choose|k: int| 0 <= k < s.len() && (#[trigger] s[k]).0 == n;
                assert(k < s.len() - 1);
                assert((s.drop_last()[k]).0 == n);
            }
        }
    }
}

proof fn lemma_env_map_value(s: Seq<(Seq<char>, Seq<char>)>, idx: int)
    requires
        names_unique(s),
        0 <= idx < s.len(),
    ensures
        env_map_of(s).contains_key(s[idx].0),
        env_map_of(s)[s[idx].0] == s[idx].1,
    decreases s.len(),
{
    if idx == s.len() - 1 {
    } else {
        assert(names_unique(s.drop_last())) by {
            assert forall|k1: int, k2: int| 0 <= k1 < k2 < s.drop_last().len() implies (
            #[trigger] s.drop_last()[k1]).0 != (#[trigger] s.drop_last()[k2]).0 by {
                assert((s[k1]).0 != (s[k2]).0);
            }
        }
        assert(s.drop_last()[idx] == s[idx]);
        lemma_env_map_value(s.drop_last(), idx);
        assert((s[idx]).0 != (s[s.len() - 1]).0);
    }
}

proof fn lemma_env_map_remove(s: Seq<(Seq<char>, Seq<char>)>, idx: int)
    requires
        names_unique(s),
        0 <= idx < s.len(),
    ensures
        names_unique(s.remove(idx)),
        env_map_of(s.remove(idx)) == env_map_of(s).remove(s[idx].0),
    decreases s.len(),
{
    let n = s[idx].0;
    assert(names_unique(s.remove(idx))) by {
        assert forall|k1: int, k2: int| 0 <= k1 < k2 < s.remove(idx).len() implies (#[trigger] s
            .remove(idx)[k1]).0 != (#[trigger] s.remove(idx)[k2]).0 by {
            let m1: int = if k1 < idx {
                k1
            } else {
                k1 + 1
            };
            let m2: int = if k2 < idx {
                k2
            } else {
                k2 + 1
            };
            assert(s.remove(idx)[k1] == s[m1]);
            assert(s.remove(idx)[k2] == s[m2]);
            assert((s[m1]).0 != (s[m2]).0);
        }
    }
    if idx == s.len() - 1 {
        assert(s.remove(idx) =~= s.drop_last());
        assert(names_unique(s.drop_last())) by {
            assert forall|k1: int, k2: int| 0 <= k1 < k2 < s.drop_last().len() implies (
            #[trigger] s.drop_last()[k1]).0 != (#[trigger] s.drop_last()[k2]).0 by {
                assert((s[k1]).0 != (s[k2]).0);
            }
        }
        lemma_env_map_dom(s.drop_last(), n);
        if env_map_of(s.drop_last()).contains_key(n) {
            let k = choose|k: int| 0 <= k < s.drop_last().len() && (#[trigger] s.drop_last()[
                k]).0 == n;
            assert((s[k]).0 == (s[idx]).0);
        }
        assert(env_map_of(s.drop_last()) =~= env_map_of(s).remove(n));
    } else {
        assert(names_unique(s.drop_last())) by {
            assert forall|k1: int, k2: int| 0 <= k1 < k2 < s.drop_last().len() implies (
            #[trigger] s.drop_last()[k1]).0 != (#[trigger] s.drop_last()[k2]).0 by {
                assert((s[k1]).0 != (s[k2]).0);
            }
        }
        assert(s.drop_last()[idx] == s[idx]);
        lemma_env_map_remove(s.drop_last(), idx);
        assert(s.remove(idx).drop_last() =~= s.drop_last().remove(idx));
        assert(s.remove(idx).last() == s.last());
        assert((s.last()).0 != n);
        assert(env_map_of(s.drop_last()).remove(n).insert(s.last().0, s.last().1) =~= env_map_of(
            s.drop_last(),
        ).insert(s.last().0, s.last().1).remove(n));
    }
}

impl EnvState {
    pub closed spec fn entries(self) -> Seq<(Seq<char>, Seq<char>)> {
        self.vars@.map_values(|p: (String, String)| (p.0@, p.1@))
    }

    /// Each variable name appears at most once in the table.
    pub closed spec fn wf(self) -> bool {
        names_unique(self.entries())
    }

    /// The variables as a map from name to value.
    pub closed spec fn as_map(self) -> Map<Seq<char>, Seq<char>> {
        env_map_of(self.entries())
    }

    /// An overlay with no variables.
    pub fn new() -> (r: EnvState)
        ensures
            r.wf(),
            r.as_map() == Map::<Seq<char>, Seq<char>>::empty(),
    {
        let r = EnvState { vars: Vec::new() };
        proof {
            assert(r.entries() =~= Seq::<(Seq<char>, Seq<char>)>::empty());
        }
        r
    }

    /// The value of the named variable, if it is set.
    pub fn get(&self, name: &String) -> (r: Option<&String>)
        requires
            self.wf(),
        ensures
            match r {
                Some(v) => self.as_map().contains_key(name@) && v@ == self.as_map()[name@],
                None => !self.as_map().contains_key(name@),
            },
    {
        let n = self.vars.len();
        let mut idx: usize = 0;
        while idx < n
            invariant
                n == self.vars.len(),
                0 <= idx <= n,
                self.wf(),
                forall|l: int| 0 <= l < idx ==> (#[trigger] self.entries()[l]).0 != name@,
            decreases n - idx,
        {
            if self.vars[idx].0 == *name {
                proof {
                    lemma_env_map_value(self.entries(), idx as int);
                }
                return Some(&self.vars[idx].1);
            }
            proof {
                assert((self.entries()[idx as int]).0 == self.vars@[idx as int].0@);
            }
            idx = idx + 1;
        }
        proof {
            lemma_env_map_dom(self.entries(), name@);
        }
        None
    }

    /// Removes the named variable; removing an unset name changes nothing.
    pub fn unset(&mut self, name: &String)
        requires
            old(self).wf(),
        ensures
            final(self).wf(),
            final(self).as_map() == old(self).as_map().remove(name@),
    {
        let n = self.vars.len();
        let mut idx: usize = 0;
        while idx < n
            invariant
                n == self.vars.len(),
                0 <= idx <= n,
                self == old(self),
                old(self).wf(),
                forall|l: int| 0 <= l < idx ==> (#[trigger] self.entries()[l]).0 != name@,
            decreases n - idx,
        {
            if self.vars[idx].0 == *name {
                let ghost pre = self.entries();
                self.vars.remove(idx);
                proof {
                    assert(self.entries() =~= pre.remove(idx as int));
                    lemma_env_map_remove(pre, idx as int);
                    assert((pre[idx as int]).0 == name@);
                }
                return ;
            }
            proof {
                assert((self.entries()[idx as int]).0 == self.vars@[idx as int].0@);
            }
            idx = idx + 1;
        }
        proof {
            lemma_env_map_dom(self.entries(), name@);
            assert(self.as_map().remove(name@) =~= self.as_map());
        }
    }

    /// Sets the named variable, replacing any previous value.
    pub fn set(&mut self, name: String, value: String)
        requires
            old(self).wf(),
        ensures
            final(self).wf(),
            final(self).as_map() == old(self).as_map().insert(name@, value@),
    {
        self.unset(&name);
        let ghost pre = self.entries();
        let ghost nm = name@;
        let ghost vl = value@;
        self.vars.push((name, value));
        proof {
            assert(self.entries() =~= pre.push((nm, vl)));
            assert(pre.push((nm, vl)).drop_last() =~= pre);
            lemma_env_map_dom(pre, nm);
            assert(names_unique(pre.push((nm, vl)))) by {
                assert forall|k1: int, k2: int| 0 <= k1 < k2 < pre.push((nm, vl)).len() implies (
                #[trigger] pre.push((nm, vl))[k1]).0 != (#[trigger] pre.push((nm, vl))[k2]).0 by {
                    if k2 == pre.len() {
                        assert((pre[k1]).0 != nm);
                    } else {
                        assert((pre[k1]).0 != (pre[k2]).0);
                    }
                }
            }
            assert(self.as_map() =~= old(self).as_map().insert(nm, vl));
        }
    }

}

} // verus!
