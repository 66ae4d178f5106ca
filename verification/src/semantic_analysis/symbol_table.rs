use std::collections::HashMap;
use std::hash::Hash;
use vstd::prelude::*;
use vstd::std_specs::hash::obeys_key_model;

verus! {

broadcast use vstd::std_specs::hash::group_hash_axioms;

/// A stack of scopes, each mapping symbols to the data bound to them.
/// Entering a scope pushes an empty one, exiting pops the innermost,
/// adding binds in the innermost, and a lookup searches from the
/// innermost scope outwards.
#[derive(Debug)]
pub struct SymbolTable<SYM, DAT> {
    scopes: Vec<HashMap<SYM, DAT>>,
}

/// The data that the innermost of the first `n` scopes binding `k` holds.
pub open spec fn lookup_in<SYM, DAT>(scopes: Seq<Map<SYM, DAT>>, k: SYM, n: int) -> Option<DAT>
    decreases n,
{
    if n <= 0 {
        None
    } else if scopes[n - 1].contains_key(k) {
        Some(scopes[n - 1][k])
    } else {
        lookup_in(scopes, k, n - 1)
    }
}

/// What a lookup of `k` finds: the binding of the innermost scope that has one.
pub open spec fn lookup_spec<SYM, DAT>(scopes: Seq<Map<SYM, DAT>>, k: SYM) -> Option<DAT> {
    lookup_in(scopes, k, scopes.len() as int)
}

/// A borrowed optional result that holds the same data as `s`.
pub open spec fn same_data<DAT>(r: Option<&DAT>, s: Option<DAT>) -> bool {
    match r {
        Some(d) => s == Some(*d),
        None => s is None,
    }
}

impl<SYM, DAT> View for SymbolTable<SYM, DAT> {
    type V = Seq<Map<SYM, DAT>>;

    closed spec fn view(&self) -> Seq<Map<SYM, DAT>> {
        self.scopes@.map_values(|m: HashMap<SYM, DAT>| m@)
    }
}

impl<SYM: Eq + Hash, DAT> SymbolTable<SYM, DAT> {
    /// A table with no scope.
    pub fn new() -> (t: Self)
        ensures
            t@ == Seq::<Map<SYM, DAT>>::empty(),
    {
        let t = Self { scopes: Vec::new() };
        proof {
            assert(t@ =~= Seq::<Map<SYM, DAT>>::empty());
        }
        t
    }

    /// Opens a new, empty, innermost scope.
    pub fn enter_scope(&mut self)
        ensures
            final(self)@ == old(self)@.push(Map::<SYM, DAT>::empty()),
    {
        let m: HashMap<SYM, DAT> = HashMap::new();
        self.scopes.push(m);
        proof {
            assert(final(self)@ =~= old(self)@.push(Map::<SYM, DAT>::empty()));
        }
    }

    /// Closes the innermost scope, dropping its bindings.
    pub fn exit_scope(&mut self)
        requires
            old(self)@.len() > 0,
        ensures
            final(self)@ == old(self)@.drop_last(),
    {
        let _ = self.scopes.pop();
        proof {
            assert(final(self)@ =~= old(self)@.drop_last());
        }
    }

    /// Binds `symbol_id` to `data` in the innermost scope, replacing a
    /// binding of the same symbol there.
    pub fn add_id(&mut self, symbol_id: SYM, data: DAT)
        requires
            old(self)@.len() > 0,
        ensures
            final(self)@.len() == old(self)@.len(),
            obeys_key_model::<SYM>() ==> final(self)@ == old(self)@.update(
                old(self)@.len() - 1,
                old(self)@.last().insert(symbol_id, data),
            ),
    {
        let last = self.scopes.len() - 1;
        let mut scope = self.scopes.pop().unwrap();
        scope.insert(symbol_id, data);
        self.scopes.push(scope);
        proof {
            if obeys_key_model::<SYM>() {
                assert(final(self)@ =~= old(self)@.update(
                    old(self)@.len() - 1,
                    old(self)@.last().insert(symbol_id, data),
                ));
            }
        }
    }

    /// The data bound to `symbol_id` by the innermost scope that binds it.
    pub fn lookup(&self, symbol_id: &SYM) -> (r: Option<&DAT>)
        ensures
            obeys_key_model::<SYM>() ==> same_data(r, lookup_spec(self@, *symbol_id)),
    {
        let mut n = self.scopes.len();
        while n > 0
            invariant
                n <= self.scopes@.len(),
                self@.len() == self.scopes@.len(),
                obeys_key_model::<SYM>() ==> lookup_spec(self@, *symbol_id) == lookup_in(
                    self@,
                    *symbol_id,
                    n as int,
                ),
            decreases n,
        {
            match self.scopes[n - 1].get(symbol_id) {
                Some(data) => {
                    return Some(data);
                },
                None => {},
            }
            n = n - 1;
        }
        None
    }

    /// The data bound to `symbol_id` in the innermost scope alone.
    pub fn probe(&self, symbol_id: &SYM) -> (r: Option<&DAT>)
        requires
            self@.len() > 0,
        ensures
            obeys_key_model::<SYM>() ==> same_data(
                r,
                if self@.last().contains_key(*symbol_id) {
                    Some(self@.last()[*symbol_id])
                } else {
                    None
                },
            ),
    {
        let last = self.scopes.len() - 1;
        self.scopes[last].get(symbol_id)
    }

    /// Number of open scopes.
    pub fn scopes_len(&self) -> (n: usize)
        ensures
            n == self@.len(),
    {
        self.scopes.len()
    }
}


proof fn lemma_lookup_in_push<SYM, DAT>(s: Seq<Map<SYM, DAT>>, m: Map<SYM, DAT>, k: SYM, n: int)
    requires
        0 <= n <= s.len(),
    ensures
        lookup_in(s.push(m), k, n) == lookup_in(s, k, n),
    decreases n,
{
    if n > 0 {
        assert(s.push(m)[n - 1] == s[n - 1]);
        lemma_lookup_in_push(s, m, k, n - 1);
    }
}

proof fn lemma_lookup_in_update<SYM, DAT>(s: Seq<Map<SYM, DAT>>, j: int, m: Map<SYM, DAT>, k: SYM, n: int)
    requires
        0 <= n <= j < s.len(),
    ensures
        lookup_in(s.update(j, m), k, n) == lookup_in(s, k, n),
    decreases n,
{
    if n > 0 {
        lemma_lookup_in_update(s, j, m, k, n - 1);
    }
}

/// A lookup right after binding `k` to `d` in the innermost scope finds `d`.
pub proof fn lemma_lookup_after_add<SYM, DAT>(s: Seq<Map<SYM, DAT>>, k: SYM, d: DAT)
    requires
        s.len() > 0,
    ensures
        lookup_spec(s.update(s.len() - 1, s.last().insert(k, d)), k) == Some(d),
{
}

/// Binding `k` leaves what every other symbol is bound to as it was.
pub proof fn lemma_lookup_other_after_add<SYM, DAT>(s: Seq<Map<SYM, DAT>>, k: SYM, d: DAT, other: SYM)
    requires
        s.len() > 0,
        other != k,
    ensures
        lookup_spec(s.update(s.len() - 1, s.last().insert(k, d)), other) == lookup_spec(s, other),
{
    lemma_lookup_in_update(s, s.len() - 1, s.last().insert(k, d), other, s.len() - 1);
}

/// Entering a scope hides no binding: every lookup finds what it found before.
pub proof fn lemma_lookup_after_enter<SYM, DAT>(s: Seq<Map<SYM, DAT>>, k: SYM)
    ensures
        lookup_spec(s.push(Map::empty()), k) == lookup_spec(s, k),
{
    lemma_lookup_in_push(s, Map::empty(), k, s.len() as int);
}

/// Exiting a scope undoes entering it: the bindings of the scope are gone.
pub proof fn lemma_exit_undoes_enter<SYM, DAT>(s: Seq<Map<SYM, DAT>>)
    ensures
        s.push(Map::empty()).drop_last() == s,
{
    assert(s.push(Map::empty()).drop_last() =~= s);
}

} // verus!
