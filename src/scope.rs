use vstd::prelude::*;
use vstd::string::StrSliceExecFns;

verus! {

/// A scope: its bindings in the order they were made. A later binding of a
/// name overrides an earlier one.
pub type Scope<V> = Seq<(Seq<char>, V)>;

/// The value bound to `name` in a scope, if any: the latest binding wins.
pub open spec fn scope_lookup<V>(sc: Scope<V>, name: Seq<char>) -> Option<V>
    decreases sc.len(),
{
    if sc.len() == 0 {
        None
    } else if sc.last().0 == name {
        Some(sc.last().1)
    } else {
        scope_lookup(sc.drop_last(), name)
    }
}

/// The value bound to `name` in a chain of scopes, the innermost last: the
/// innermost scope that binds the name decides.
pub open spec fn chain_lookup<V>(chain: Seq<Scope<V>>, name: Seq<char>) -> Option<V>
    decreases chain.len(),
{
    if chain.len() == 0 {
        None
    } else {
        match scope_lookup(chain.last(), name) {
            Some(v) => Some(v),
            None => chain_lookup(chain.drop_last(), name),
        }
    }
}

/// The chain with `name` bound to `v` in its innermost scope.
pub open spec fn chain_define<V>(chain: Seq<Scope<V>>, name: Seq<char>, v: V) -> Seq<Scope<V>> {
    if chain.len() == 0 {
        seq![seq![(name, v)]]
    } else {
        chain.update(chain.len() - 1, chain.last().push((name, v)))
    }
}

/// The chain with the binding of `name` in the innermost scope that binds it
/// replaced by `v`; `None` when no scope binds it.
pub open spec fn chain_assign<V>(chain: Seq<Scope<V>>, name: Seq<char>, v: V) -> Option<Seq<Scope<V>>>
    decreases chain.len(),
{
    if chain.len() == 0 {
        None
    } else if scope_lookup(chain.last(), name) is Some {
        Some(chain.update(chain.len() - 1, chain.last().push((name, v))))
    } else {
        match chain_assign(chain.drop_last(), name, v) {
            Some(c) => Some(c.push(chain.last())),
            None => None,
        }
    }
}

/// Assigning where scope `k` is the innermost one that binds the name updates that scope.
pub proof fn lemma_chain_assign_at<V>(chain: Seq<Scope<V>>, name: Seq<char>, v: V, k: int)
    requires
        0 <= k < chain.len(),
        scope_lookup(chain[k], name) is Some,
        forall|j: int| k < j < chain.len() ==> scope_lookup(#[trigger] chain[j], name) is None,
    ensures
        chain_assign(chain, name, v) == Some(chain.update(k, chain[k].push((name, v)))),
    decreases chain.len(),
{
    if k < chain.len() - 1 {
        let d = chain.drop_last();
        assert forall|j: int| k < j < d.len() implies scope_lookup(#[trigger] d[j], name) is None by {
            assert(d[j] == chain[j]);
        }
        lemma_chain_assign_at(d, name, v, k);
        assert(scope_lookup(chain.last(), name) is None);
        assert(d.update(k, d[k].push((name, v))).push(chain.last()) =~= chain.update(
            k,
            chain[k].push((name, v)),
        ));
    }
}

/// Assigning fails where no scope of the chain binds the name.
pub proof fn lemma_chain_assign_none<V>(chain: Seq<Scope<V>>, name: Seq<char>, v: V)
    requires
        forall|j: int| 0 <= j < chain.len() ==> scope_lookup(#[trigger] chain[j], name) is None,
    ensures
        chain_assign(chain, name, v) is None,
    decreases chain.len(),
{
    if chain.len() > 0 {
        let d = chain.drop_last();
        assert forall|j: int| 0 <= j < d.len() implies scope_lookup(#[trigger] d[j], name) is None by {
            assert(d[j] == chain[j]);
        }
        lemma_chain_assign_none(d, name, v);
        assert(scope_lookup(chain[chain.len() - 1], name) is None);
    }
}

/// Whether two strings hold the same characters.
pub fn str_eq(a: &str, b: &str) -> (r: bool)
    ensures
        r == (a@ == b@),
{
    let n = a.unicode_len();
    if n != b.unicode_len() {
        return false;
    }
    let mut i: usize = 0;
    while i < n
        invariant
            n == a@.len(),
            n == b@.len(),
            i <= n,
            forall|j: int| 0 <= j < i ==> a@[j] == b@[j],
        decreases n - i,
    {
        if a.get_char(i) != b.get_char(i) {
            return false;
        }
        i = i + 1;
    }
    assert(a@ =~= b@);
    true
}

} // verus!
